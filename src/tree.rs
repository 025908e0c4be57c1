//! Tree content: a sequence of `"<mode> <name>\0" + <20-byte sha>` blocks.
use vstd::prelude::*;
use vstd::utf8::{decode_utf8, encode_utf8, valid_utf8};
use crate::bytes::{append_bytes, copy_range, find_byte, find_byte_from, lemma_find_byte_skip};
use crate::codec::ObjectError;

verus! {

broadcast use vstd::utf8::encode_utf8_decode_utf8, vstd::utf8::encode_utf8_valid_utf8;

/// Length in bytes of an object hash.
pub const SHA_LEN: usize = 20;

/// One named reference of a tree: a text mode, a raw name and a raw hash.
#[derive(Debug)]
pub struct TreeEntry {
    pub mode: String,
    pub name: Vec<u8>,
    pub sha: Vec<u8>,
}

/// The mathematical value of a `TreeEntry`.
pub struct EntryView {
    pub mode: Seq<char>,
    pub name: Seq<u8>,
    pub sha: Seq<u8>,
}

impl View for TreeEntry {
    type V = EntryView;

    open spec fn view(&self) -> EntryView {
        EntryView { mode: self.mode@, name: self.name@, sha: self.sha@ }
    }
}

pub open spec fn entries_view(es: Seq<TreeEntry>) -> Seq<EntryView> {
    es.map_values(|e: TreeEntry| e@)
}

/// The bytes of one encoded entry.
pub open spec fn entry_bytes(e: EntryView) -> Seq<u8> {
    encode_utf8(e.mode) + seq![32u8] + e.name + seq![0u8] + e.sha
}

/// The tree content for `es`, in the given order.
pub open spec fn format_spec(es: Seq<EntryView>) -> Seq<u8>
    decreases es.len(),
{
    if es.len() == 0 {
        seq![]
    } else {
        entry_bytes(es[0]) + format_spec(es.drop_first())
    }
}

/// An entry that encodes unambiguously: no space or null in its mode's bytes,
/// no null in its name, and a full-length hash.
pub open spec fn well_formed_entry(e: EntryView) -> bool {
    &&& forall|i: int| 0 <= i < encode_utf8(e.mode).len() ==> #[trigger] encode_utf8(e.mode)[i] != 32
        && encode_utf8(e.mode)[i] != 0
    &&& forall|i: int| 0 <= i < e.name.len() ==> #[trigger] e.name[i] != 0
    &&& e.sha.len() == SHA_LEN
}

/// Decoding one entry that starts at `pos`: the entry and the offset just
/// past its hash.
pub open spec fn parse_one_at(c: Seq<u8>, pos: int) -> Result<(EntryView, int), ObjectError> {
    let sp = find_byte(c, 32, pos);
    let nul = find_byte(c, 0, sp + 1);
    if sp >= c.len() || nul >= c.len() || c.len() - (nul + 1) < SHA_LEN {
        Err(ObjectError::MalformedTreeEntry)
    } else if !valid_utf8(c.subrange(pos, sp)) {
        Err(ObjectError::InvalidUtf8)
    } else {
        Ok(
            (
                EntryView {
                    mode: decode_utf8(c.subrange(pos, sp)),
                    name: c.subrange(sp + 1, nul),
                    sha: c.subrange(nul + 1, nul + 1 + SHA_LEN),
                },
                nul + 1 + SHA_LEN,
            ),
        )
    }
}

/// Decoding all entries from `pos` to the end of `c`.
pub open spec fn parse_entries_from(c: Seq<u8>, pos: int) -> Result<Seq<EntryView>, ObjectError>
    decreases c.len() - pos,
{
    if pos < 0 || pos >= c.len() {
        Ok(seq![])
    } else {
        match parse_one_at(c, pos) {
            Err(e) => Err(e),
            Ok((e, next)) => if next <= pos {
                Err(ObjectError::MalformedTreeEntry)
            } else {
                match parse_entries_from(c, next) {
                    Ok(rest) => Ok(seq![e] + rest),
                    Err(x) => Err(x),
                }
            },
        }
    }
}

pub open spec fn parse_entries_spec(c: Seq<u8>) -> Result<Seq<EntryView>, ObjectError> {
    parse_entries_from(c, 0)
}

/// Decoding a buffer that holds exactly one entry.
pub open spec fn from_bytes_spec(d: Seq<u8>) -> Result<EntryView, ObjectError> {
    match parse_one_at(d, 0) {
        Err(e) => Err(e),
        Ok((e, next)) => if next == d.len() {
            Ok(e)
        } else {
            Err(ObjectError::MalformedTreeEntry)
        },
    }
}

pub open spec fn entries_result_view(r: Result<Vec<TreeEntry>, ObjectError>) -> Result<
    Seq<EntryView>,
    ObjectError,
> {
    match r {
        Ok(v) => Ok(entries_view(v@)),
        Err(e) => Err(e),
    }
}

pub open spec fn entry_result_view(r: Result<TreeEntry, ObjectError>) -> Result<EntryView, ObjectError> {
    match r {
        Ok(e) => Ok(e@),
        Err(x) => Err(x),
    }
}

/// Relies on `String::from_utf8`: the text of `b` exactly when `b` is valid
/// UTF-8.
#[verifier::external_body]
pub(crate) fn utf8_text(b: Vec<u8>) -> (r: Option<String>)
    ensures
        r is Some <==> valid_utf8(b@),
        r matches Some(s) ==> s@ == decode_utf8(b@),
{
    String::from_utf8(b).ok()
}

/// Decodes the entry that starts at `pos`.
fn parse_entry_at(c: &[u8], pos: usize) -> (r: Result<(TreeEntry, usize), ObjectError>)
    requires
        pos <= c@.len(),
    ensures
        match (r, parse_one_at(c@, pos as int)) {
            (Ok((e, n)), Ok((ev, m))) => e@ == ev && n == m,
            (Err(x), Err(y)) => x == y,
            _ => false,
        },
        r matches Ok((_, n)) ==> pos < n <= c@.len(),
{
    let sp = find_byte_from(c, 32u8, pos);
    if sp >= c.len() {
        return Err(ObjectError::MalformedTreeEntry);
    }
    let nul = find_byte_from(c, 0u8, sp + 1);
    if nul >= c.len() || c.len() - (nul + 1) < SHA_LEN {
        return Err(ObjectError::MalformedTreeEntry);
    }
    let mode_bytes = copy_range(c, pos, sp);
    let mode = match utf8_text(mode_bytes) {
        Some(m) => m,
        None => return Err(ObjectError::InvalidUtf8),
    };
    let name = copy_range(c, sp + 1, nul);
    let sha = copy_range(c, nul + 1, nul + 1 + SHA_LEN);
    Ok((TreeEntry { mode, name, sha }, nul + 1 + SHA_LEN))
}

impl TreeEntry {
    /// Decodes a buffer that holds exactly one encoded entry.
    pub fn from_bytes(data: &[u8]) -> (r: Result<TreeEntry, ObjectError>)
        ensures
            entry_result_view(r) == from_bytes_spec(data@),
    {
        match parse_entry_at(data, 0) {
            Err(e) => Err(e),
            Ok((e, next)) => if next == data.len() {
                Ok(e)
            } else {
                Err(ObjectError::MalformedTreeEntry)
            },
        }
    }
}

/// Decodes tree content into its entries, in stored order.
pub fn parse_tree_entries(content: &[u8]) -> (r: Result<Vec<TreeEntry>, ObjectError>)
    ensures
        entries_result_view(r) == parse_entries_spec(content@),
{
    let mut out: Vec<TreeEntry> = Vec::new();
    let mut pos: usize = 0;
    while pos < content.len()
        invariant
            pos <= content@.len(),
            parse_entries_spec(content@) == match parse_entries_from(content@, pos as int) {
                Ok(rest) => Ok(entries_view(out@) + rest),
                Err(x) => Err::<Seq<EntryView>, ObjectError>(x),
            },
        decreases content@.len() - pos,
    {
        match parse_entry_at(content, pos) {
            Err(e) => {
                return Err(e);
            },
            Ok((e, next)) => {
                proof {
                    let ev = e@;
                    assert(entries_view(out@.push(e)) =~= entries_view(out@).push(ev));
                    match parse_entries_from(content@, next as int) {
                        Ok(rest) => {
                            assert(entries_view(out@) + (seq![ev] + rest) =~= entries_view(out@).push(ev) + rest);
                        },
                        Err(_) => {},
                    }
                }
                out.push(e);
                pos = next;
            },
        }
    }
    assert(entries_view(out@) + seq![] =~= entries_view(out@));
    Ok(out)
}

/// The encoded bytes of one entry.
pub fn entry_to_bytes(e: &TreeEntry) -> (r: Vec<u8>)
    ensures
        r@ == entry_bytes(e@),
{
    let mut r: Vec<u8> = Vec::new();
    append_bytes(&mut r, e.mode.as_str().as_bytes());
    r.push(32u8);
    append_bytes(&mut r, e.name.as_slice());
    r.push(0u8);
    append_bytes(&mut r, e.sha.as_slice());
    r
}

proof fn lemma_format_push(es: Seq<EntryView>, e: EntryView)
    ensures
        format_spec(es.push(e)) == format_spec(es) + entry_bytes(e),
    decreases es.len(),
{
    if es.len() == 0 {
        assert(es.push(e).drop_first() =~= seq![]);
        assert(format_spec(es.push(e)) =~= entry_bytes(e) + format_spec(seq![]));
    } else {
        assert(es.push(e).drop_first() =~= es.drop_first().push(e));
        lemma_format_push(es.drop_first(), e);
    }
}

proof fn lemma_parse_one_entry(p: Seq<u8>, e: EntryView, rest: Seq<u8>)
    requires
        well_formed_entry(e),
    ensures
        parse_one_at(p + entry_bytes(e) + rest, p.len() as int) == Ok::<(EntryView, int), ObjectError>(
            (e, p.len() + entry_bytes(e).len() as int),
        ),
{
    let m = encode_utf8(e.mode);
    let s = p + entry_bytes(e) + rest;
    let l = p.len() as int;
    let sp = l + m.len();
    let nul = sp + 1 + e.name.len();
    assert(s =~= p + m + seq![32u8] + e.name + seq![0u8] + e.sha + rest);
    assert forall|k: int| l <= k < sp implies s[k] != 32 by {
        assert(s[k] == m[k - l]);
    }
    lemma_find_byte_skip(s, 32, l, sp);
    assert(s[sp] == 32);
    assert forall|k: int| sp + 1 <= k < nul implies s[k] != 0 by {
        assert(s[k] == e.name[k - sp - 1]);
    }
    lemma_find_byte_skip(s, 0, sp + 1, nul);
    assert(s[nul] == 0);
    assert(s.subrange(l, sp) =~= m);
    assert(s.subrange(sp + 1, nul) =~= e.name);
    assert(s.subrange(nul + 1, nul + 1 + SHA_LEN) =~= e.sha);
}

proof fn lemma_parse_format_from(p: Seq<u8>, es: Seq<EntryView>)
    requires
        forall|i: int| 0 <= i < es.len() ==> well_formed_entry(#[trigger] es[i]),
    ensures
        parse_entries_from(p + format_spec(es), p.len() as int) == Ok::<Seq<EntryView>, ObjectError>(es),
    decreases es.len(),
{
    if es.len() == 0 {
        assert(p + format_spec(es) =~= p);
        assert(parse_entries_from(p, p.len() as int) == Ok::<Seq<EntryView>, ObjectError>(seq![]));
        assert(es =~= seq![]);
    } else {
        let e = es[0];
        let rest = format_spec(es.drop_first());
        let q = p + entry_bytes(e);
        assert(p + format_spec(es) =~= p + entry_bytes(e) + rest);
        assert(q + rest =~= p + entry_bytes(e) + rest);
        assert(well_formed_entry(es[0]));
        lemma_parse_one_entry(p, e, rest);
        assert forall|i: int| 0 <= i < es.drop_first().len() implies well_formed_entry(
            #[trigger] es.drop_first()[i],
        ) by {
            assert(es.drop_first()[i] == es[i + 1]);
        }
        lemma_parse_format_from(q, es.drop_first());
        let s = p + format_spec(es);
        assert(s == q + rest);
        assert(entry_bytes(e).len() > 0);
        assert(parse_one_at(s, p.len() as int) == Ok::<(EntryView, int), ObjectError>((e, q.len() as int)));
        assert(parse_entries_from(s, q.len() as int) == Ok::<Seq<EntryView>, ObjectError>(es.drop_first()));
        assert(seq![e] + es.drop_first() =~= es);
    }
}

/// Decoding the encoding of well-formed entries gives back the same entries.
pub proof fn lemma_tree_round_trip(es: Seq<EntryView>)
    requires
        forall|i: int| 0 <= i < es.len() ==> well_formed_entry(#[trigger] es[i]),
    ensures
        parse_entries_spec(format_spec(es)) == Ok::<Seq<EntryView>, ObjectError>(es),
{
    lemma_parse_format_from(seq![], es);
    assert(seq![] + format_spec(es) =~= format_spec(es));
}

/// Encodes entries in the given order; the caller presents them sorted.
pub fn format_tree(entries: &Vec<TreeEntry>) -> (r: Vec<u8>)
    ensures
        r@ == format_spec(entries_view(entries@)),
{
    let mut r: Vec<u8> = Vec::new();
    let mut i: usize = 0;
    while i < entries.len()
        invariant
            0 <= i <= entries@.len(),
            r@ == format_spec(entries_view(entries@.take(i as int))),
        decreases entries@.len() - i,
    {
        let b = entry_to_bytes(&entries[i]);
        proof {
            let ev = entries_view(entries@.take(i as int));
            assert(entries_view(entries@.take(i + 1)) =~= ev.push(entries@[i as int]@));
            lemma_format_push(ev, entries@[i as int]@);
        }
        append_bytes(&mut r, b.as_slice());
        i = i + 1;
    }
    assert(entries@.take(i as int) =~= entries@);
    r
}

} // verus!
