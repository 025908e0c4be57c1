//! The decisions of the tree and commit builders. Walking a directory and
//! reading the clock are left to the caller, which hands over the results.
use vstd::prelude::*;
use vstd::utf8::encode_utf8;
use crate::bytes::{append_bytes, decimal, decimal_bytes, matches_at};
use crate::codec::{frame_spec, lemma_parse_frame, ObjectKind};
use crate::order::{
    distinct_names, lemma_sort_order_independent, sort_entries, sorted_by_name,
    strictly_sorted_by_name,
};
use crate::store::{stored_as, store_object, StoredObject};
use crate::tree::{
    entries_view, format_spec, format_tree, lemma_tree_round_trip, well_formed_entry, EntryView,
    TreeEntry,
};

verus! {

/// A tree object as built: its entries in stored order, and the object.
pub struct BuiltTree {
    pub entries: Vec<TreeEntry>,
    pub object: StoredObject,
}

/// `t` is a tree built from the listing `children`: the same entries sorted
/// by name, encoded, framed and stored.
pub open spec fn tree_built_from(children: Seq<TreeEntry>, t: BuiltTree) -> bool {
    &&& entries_view(t.entries@).to_multiset() == entries_view(children).to_multiset()
    &&& sorted_by_name(t.entries@)
    &&& distinct_names(children) ==> strictly_sorted_by_name(t.entries@)
    &&& stored_as(t.object, frame_spec(ObjectKind::Tree, format_spec(entries_view(t.entries@))))
}

impl TreeEntry {
    /// An entry for a regular file.
    pub fn file(name: Vec<u8>, sha: Vec<u8>) -> (r: TreeEntry)
        ensures
            r.mode@ == "100644"@,
            r.name@ == name@,
            r.sha@ == sha@,
    {
        TreeEntry { mode: "100644".to_owned(), name, sha }
    }

    /// An entry for a subdirectory.
    pub fn directory(name: Vec<u8>, sha: Vec<u8>) -> (r: TreeEntry)
        ensures
            r.mode@ == "40000"@,
            r.name@ == name@,
            r.sha@ == sha@,
    {
        TreeEntry { mode: "40000".to_owned(), name, sha }
    }
}

/// Builds the tree object of a directory from the entries of its children,
/// listed in any order: they are sorted by name, encoded and stored.
pub fn write_tree(children: Vec<TreeEntry>) -> (r: BuiltTree)
    ensures
        tree_built_from(children@, r),
{
    let entries = sort_entries(children);
    let content = format_tree(&entries);
    let object = store_object(ObjectKind::Tree, content.as_slice());
    BuiltTree { entries, object }
}

/// `.git`
pub open spec fn store_dir_name() -> Seq<u8> {
    seq![46u8, 103, 105, 116]
}

/// Whether a directory entry is the store's own directory, which a tree
/// never records.
pub fn is_store_dir(name: &[u8]) -> (r: bool)
    ensures
        r == (name@ == store_dir_name()),
{
    let dot_git = vec![46u8, 103, 105, 116];
    let r = name.len() == 4 && matches_at(name, 0, dot_git.as_slice());
    proof {
        if name@.len() == 4 {
            assert(name@.subrange(0, 4) =~= name@);
        }
    }
    assert(dot_git@ =~= store_dir_name());
    r
}

/// A directory's tree does not depend on the order in which its children
/// were listed: two builds from listings that hold the same entry values,
/// with distinct names, have the same entries in the same order, the same
/// hash and the same location. Run on one unchanged listing, this says that
/// a build is repeatable.
pub proof fn lemma_tree_independent_of_listing_order(
    s1: Seq<TreeEntry>,
    s2: Seq<TreeEntry>,
    t1: BuiltTree,
    t2: BuiltTree,
)
    requires
        entries_view(s1).to_multiset() == entries_view(s2).to_multiset(),
        distinct_names(s1),
        distinct_names(s2),
        tree_built_from(s1, t1),
        tree_built_from(s2, t2),
    ensures
        entries_view(t1.entries@) == entries_view(t2.entries@),
        t1.object.hash@ == t2.object.hash@,
        t1.object.location.dir@ == t2.object.location.dir@,
        t1.object.location.file@ == t2.object.location.file@,
        strictly_sorted_by_name(t1.entries@),
{
    lemma_sort_order_independent(s1, s2, t1.entries@, t2.entries@);
}

/// Distinct well-formed entry sequences frame as distinct tree objects, so
/// a change to any entry, such as a child's hash, changes what is hashed.
pub proof fn lemma_tree_bytes_injective(es1: Seq<EntryView>, es2: Seq<EntryView>)
    requires
        forall|i: int| 0 <= i < es1.len() ==> well_formed_entry(#[trigger] es1[i]),
        forall|i: int| 0 <= i < es2.len() ==> well_formed_entry(#[trigger] es2[i]),
        frame_spec(ObjectKind::Tree, format_spec(es1)) == frame_spec(ObjectKind::Tree, format_spec(es2)),
    ensures
        es1 == es2,
{
    lemma_parse_frame(ObjectKind::Tree, format_spec(es1));
    lemma_parse_frame(ObjectKind::Tree, format_spec(es2));
    lemma_tree_round_trip(es1);
    lemma_tree_round_trip(es2);
}

/// `line` followed by a newline.
pub open spec fn text_line(line: Seq<u8>) -> Seq<u8> {
    line.push(10u8)
}

/// `"tree "`
pub open spec fn tree_keyword() -> Seq<u8> {
    seq![116u8, 114, 101, 101, 32]
}

/// `"parent "`
pub open spec fn parent_keyword() -> Seq<u8> {
    seq![112u8, 97, 114, 101, 110, 116, 32]
}

/// `"author "`
pub open spec fn author_keyword() -> Seq<u8> {
    seq![97u8, 117, 116, 104, 111, 114, 32]
}

/// `"author <who> <seconds> <tz>"`
pub open spec fn author_line(who: Seq<u8>, seconds: nat, tz: Seq<u8>) -> Seq<u8> {
    author_keyword() + who + seq![32u8] + decimal(seconds) + seq![32u8] + tz
}

/// The body of a commit: the tree line, the parent line if any, the author
/// line twice, a blank line and the message, each ended by a newline.
pub open spec fn commit_body_spec(
    tree: Seq<u8>,
    parent: Option<Seq<u8>>,
    who: Seq<u8>,
    seconds: nat,
    tz: Seq<u8>,
    message: Seq<u8>,
) -> Seq<u8> {
    let head = text_line(tree_keyword() + tree);
    let with_parent = match parent {
        Some(p) => head + text_line(parent_keyword() + p),
        None => head,
    };
    with_parent + text_line(author_line(who, seconds, tz)) + text_line(author_line(who, seconds, tz))
        + text_line(seq![]) + text_line(message)
}

pub open spec fn opt_text(s: Option<&str>) -> Option<Seq<u8>> {
    match s {
        Some(t) => Some(encode_utf8(t@)),
        None => None,
    }
}

/// Appends `line` and a newline to `content`.
pub fn write_line(content: &mut Vec<u8>, line: &[u8])
    ensures
        final(content)@ == old(content)@ + text_line(line@),
{
    append_bytes(content, line);
    content.push(10u8);
    assert(final(content)@ =~= old(content)@ + text_line(line@));
}

/// The body text of a commit.
pub fn commit_body(
    tree_hash: &str,
    message: &str,
    parent_hash: Option<&str>,
    author: &str,
    timestamp: u64,
    tz_offset: &str,
) -> (r: Vec<u8>)
    ensures
        r@ == commit_body_spec(
            encode_utf8(tree_hash@),
            opt_text(parent_hash),
            encode_utf8(author@),
            timestamp as nat,
            encode_utf8(tz_offset@),
            encode_utf8(message@),
        ),
{
    let mut content: Vec<u8> = Vec::new();
    let mut line = vec![116u8, 114, 101, 101, 32];
    append_bytes(&mut line, tree_hash.as_bytes());
    write_line(&mut content, line.as_slice());
    match parent_hash {
        Some(p) => {
            let mut pl = vec![112u8, 97, 114, 101, 110, 116, 32];
            append_bytes(&mut pl, p.as_bytes());
            write_line(&mut content, pl.as_slice());
        },
        None => {},
    }
    let mut al = vec![97u8, 117, 116, 104, 111, 114, 32];
    append_bytes(&mut al, author.as_bytes());
    al.push(32u8);
    let digits = decimal_bytes(timestamp);
    append_bytes(&mut al, digits.as_slice());
    al.push(32u8);
    append_bytes(&mut al, tz_offset.as_bytes());
    assert(al@ =~= author_line(encode_utf8(author@), timestamp as nat, encode_utf8(tz_offset@)));
    write_line(&mut content, al.as_slice());
    write_line(&mut content, al.as_slice());
    let empty: Vec<u8> = Vec::new();
    write_line(&mut content, empty.as_slice());
    write_line(&mut content, message.as_bytes());
    assert(empty@ =~= seq![]);
    content
}

/// Builds a commit object for a tree, with an optional parent, an author,
/// the time of the commit in seconds since the epoch and a time-zone
/// offset, and prepares it for storage.
pub fn commit_tree(
    tree_hash: &str,
    message: &str,
    parent_hash: Option<&str>,
    author: &str,
    timestamp: u64,
    tz_offset: &str,
) -> (r: StoredObject)
    ensures
        stored_as(
            r,
            frame_spec(
                ObjectKind::Commit,
                commit_body_spec(
                    encode_utf8(tree_hash@),
                    opt_text(parent_hash),
                    encode_utf8(author@),
                    timestamp as nat,
                    encode_utf8(tz_offset@),
                    encode_utf8(message@),
                ),
            ),
        ),
{
    let body = commit_body(tree_hash, message, parent_hash, author, timestamp, tz_offset);
    store_object(ObjectKind::Commit, body.as_slice())
}

} // verus!
