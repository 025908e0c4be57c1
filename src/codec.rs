//! Object kinds and the header framing `"<kind> <len>\0" + content`.
use vstd::prelude::*;
use crate::bytes::{
    append_bytes, copy_range, decimal, decimal_bytes, find_byte, find_byte_from, is_digit,
    lemma_decimal_digits, lemma_find_byte_concat, matches_at,
};

verus! {

/// The three kinds of stored object.
#[derive(PartialEq, Eq, Structural, Clone, Copy, Debug)]
pub enum ObjectKind {
    Blob,
    Tree,
    Commit,
}

/// Every failure the store reports.
#[derive(PartialEq, Eq, Structural, Clone, Copy, Debug)]
pub enum ObjectError {
    /// No object file at the derived location.
    NotFound,
    /// The stored bytes do not decompress.
    CorruptObject,
    /// The framed bytes do not start with `"<kind> <len>\0"`.
    MalformedHeader,
    /// Tree content with a missing delimiter or a truncated hash.
    MalformedTreeEntry,
    /// A failure of the underlying storage.
    IoError,
    /// A field that must be text is not valid UTF-8.
    InvalidUtf8,
}

/// The ASCII name of a kind, as it appears in a header.
pub open spec fn kind_name(k: ObjectKind) -> Seq<u8> {
    match k {
        ObjectKind::Blob => seq![98u8, 108, 111, 98],
        ObjectKind::Tree => seq![116u8, 114, 101, 101],
        ObjectKind::Commit => seq![99u8, 111, 109, 109, 105, 116],
    }
}

/// The header text before the null byte: `"<kind> <len>"`.
pub open spec fn header_text(k: ObjectKind, len: nat) -> Seq<u8> {
    kind_name(k) + seq![32u8] + decimal(len)
}

/// The full framed bytes of an object.
pub open spec fn frame_spec(k: ObjectKind, content: Seq<u8>) -> Seq<u8> {
    header_text(k, content.len()) + seq![0u8] + content
}

/// What parsing framed bytes yields: the kind and the content after the first
/// null byte, provided the text before it is exactly the header of that kind
/// and of the content's length.
pub open spec fn parse_spec(b: Seq<u8>) -> Result<(ObjectKind, Seq<u8>), ObjectError> {
    let i = find_byte(b, 0, 0);
    if i >= b.len() {
        Err(ObjectError::MalformedHeader)
    } else {
        let head = b.subrange(0, i);
        let content = b.subrange(i + 1, b.len() as int);
        if head == header_text(ObjectKind::Blob, content.len()) {
            Ok((ObjectKind::Blob, content))
        } else if head == header_text(ObjectKind::Tree, content.len()) {
            Ok((ObjectKind::Tree, content))
        } else if head == header_text(ObjectKind::Commit, content.len()) {
            Ok((ObjectKind::Commit, content))
        } else {
            Err(ObjectError::MalformedHeader)
        }
    }
}

pub open spec fn parsed_view(r: Result<(ObjectKind, Vec<u8>), ObjectError>) -> Result<
    (ObjectKind, Seq<u8>),
    ObjectError,
> {
    match r {
        Ok((k, c)) => Ok((k, c@)),
        Err(e) => Err(e),
    }
}

/// A header holds no null byte.
pub proof fn lemma_header_has_no_null(k: ObjectKind, len: nat)
    ensures
        forall|i: int| 0 <= i < header_text(k, len).len() ==> #[trigger] header_text(k, len)[i] != 0,
{
    lemma_decimal_digits(len);
    let h = header_text(k, len);
    assert forall|i: int| 0 <= i < h.len() implies #[trigger] h[i] != 0 by {
        let n = kind_name(k).len();
        if i > n {
            assert(h[i] == decimal(len)[i - n - 1]);
            assert(is_digit(decimal(len)[i - n - 1]));
        }
    }
}

/// Parsing framed bytes gives back the kind and the content.
pub proof fn lemma_parse_frame(k: ObjectKind, content: Seq<u8>)
    ensures
        parse_spec(frame_spec(k, content)) == Ok::<(ObjectKind, Seq<u8>), ObjectError>((k, content)),
{
    let h = header_text(k, content.len());
    let b = frame_spec(k, content);
    lemma_header_has_no_null(k, content.len());
    lemma_find_byte_concat(h, seq![0u8] + content, 0, 0);
    assert(b =~= h + (seq![0u8] + content));
    assert(find_byte(seq![0u8] + content, 0, 0) == 0);
    assert(b.subrange(0, h.len() as int) =~= h);
    assert(b.subrange(h.len() as int + 1, b.len() as int) =~= content);
    assert(header_text(ObjectKind::Blob, content.len())[0] == 98);
    assert(header_text(ObjectKind::Tree, content.len())[0] == 116);
    assert(header_text(ObjectKind::Commit, content.len())[0] == 99);
}

/// The ASCII name of a kind.
pub fn kind_bytes(k: ObjectKind) -> (r: Vec<u8>)
    ensures
        r@ == kind_name(k),
{
    let r = match k {
        ObjectKind::Blob => vec![98u8, 108, 111, 98],
        ObjectKind::Tree => vec![116u8, 114, 101, 101],
        ObjectKind::Commit => vec![99u8, 111, 109, 109, 105, 116],
    };
    assert(r@ =~= kind_name(k));
    r
}

/// The header text `"<kind> <len>"`, without its null byte.
pub fn header_bytes(k: ObjectKind, len: usize) -> (r: Vec<u8>)
    ensures
        r@ == header_text(k, len as nat),
{
    let mut r = kind_bytes(k);
    r.push(32u8);
    let digits = decimal_bytes(len as u64);
    append_bytes(&mut r, digits.as_slice());
    r
}

/// Frames `content` as an object of kind `k`.
pub fn frame(k: ObjectKind, content: &[u8]) -> (r: Vec<u8>)
    ensures
        r@ == frame_spec(k, content@),
{
    let mut r = header_bytes(k, content.len());
    r.push(0u8);
    append_bytes(&mut r, content);
    r
}

/// Splits framed bytes into kind and content; `MalformedHeader` when there is
/// no null byte or the text before it is not the header of a kind and of the
/// content's exact length.
pub fn parse(b: &[u8]) -> (r: Result<(ObjectKind, Vec<u8>), ObjectError>)
    ensures
        parsed_view(r) == parse_spec(b@),
{
    let i = find_byte_from(b, 0u8, 0);
    if i >= b.len() {
        return Err(ObjectError::MalformedHeader);
    }
    let len = b.len() - i - 1;
    let blob = header_bytes(ObjectKind::Blob, len);
    let tree = header_bytes(ObjectKind::Tree, len);
    let commit = header_bytes(ObjectKind::Commit, len);
    let kind = if blob.len() == i && matches_at(b, 0, blob.as_slice()) {
        ObjectKind::Blob
    } else if tree.len() == i && matches_at(b, 0, tree.as_slice()) {
        ObjectKind::Tree
    } else if commit.len() == i && matches_at(b, 0, commit.as_slice()) {
        ObjectKind::Commit
    } else {
        return Err(ObjectError::MalformedHeader);
    };
    let c = copy_range(b, i + 1, b.len());
    Ok((kind, c))
}

} // verus!
