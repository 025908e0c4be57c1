//! Byte-sequence helpers shared by the codecs: searching, comparing, copying
//! and decimal rendering.
use vstd::prelude::*;

verus! {

/// Index of the first `x` in `s` at or after `i`, or `s.len()` when none.
pub open spec fn find_byte(s: Seq<u8>, x: u8, i: int) -> int
    decreases s.len() - i,
{
    if i < 0 || i >= s.len() {
        s.len() as int
    } else if s[i] == x {
        i
    } else {
        find_byte(s, x, i + 1)
    }
}

/// Decimal rendering of `n` as ASCII digits, most significant first.
pub open spec fn decimal(n: nat) -> Seq<u8>
    decreases n,
{
    if n < 10 {
        seq![(48 + n) as u8]
    } else {
        decimal(n / 10).push((48 + n % 10) as u8)
    }
}

pub open spec fn is_digit(b: u8) -> bool {
    48 <= b <= 57
}

/// A decimal rendering is non-empty and holds digits only.
pub proof fn lemma_decimal_digits(n: nat)
    ensures
        decimal(n).len() >= 1,
        forall|i: int| 0 <= i < decimal(n).len() ==> is_digit(#[trigger] decimal(n)[i]),
    decreases n,
{
    if n >= 10 {
        lemma_decimal_digits(n / 10);
    }
}

/// Where `s[i..j]` holds no `x`, searching from `i` and from `j` agree.
pub proof fn lemma_find_byte_skip(s: Seq<u8>, x: u8, i: int, j: int)
    requires
        0 <= i <= j <= s.len(),
        forall|k: int| i <= k < j ==> s[k] != x,
    ensures
        find_byte(s, x, i) == find_byte(s, x, j),
    decreases j - i,
{
    if i < j {
        lemma_find_byte_skip(s, x, i + 1, j);
    }
}

/// Searching in `a + b` from inside `a`, where `a` holds no `x` from `i` on.
pub proof fn lemma_find_byte_concat(a: Seq<u8>, b: Seq<u8>, x: u8, i: int)
    requires
        0 <= i <= a.len(),
        forall|k: int| i <= k < a.len() ==> a[k] != x,
    ensures
        find_byte(a + b, x, i) == a.len() + find_byte(b, x, 0),
    decreases a.len() + b.len() - i,
{
    let s = a + b;
    if i < a.len() {
        lemma_find_byte_concat(a, b, x, i + 1);
    } else {
        lemma_find_byte_shift(a, b, x, 0);
    }
}

proof fn lemma_find_byte_shift(a: Seq<u8>, b: Seq<u8>, x: u8, k: int)
    requires
        0 <= k <= b.len(),
    ensures
        find_byte(a + b, x, a.len() + k) == a.len() + find_byte(b, x, k),
    decreases b.len() - k,
{
    if k < b.len() {
        lemma_find_byte_shift(a, b, x, k + 1);
    }
}

/// Index of the first `x` in `s` at or after `from`, or `s.len()` when none.
pub fn find_byte_from(s: &[u8], x: u8, from: usize) -> (r: usize)
    requires
        from <= s@.len(),
    ensures
        r == find_byte(s@, x, from as int),
        from <= r <= s@.len(),
        r < s@.len() ==> s@[r as int] == x,
        forall|k: int| from <= k < r ==> s@[k] != x,
{
    let mut i: usize = from;
    while i < s.len()
        invariant
            from <= i <= s@.len(),
            find_byte(s@, x, from as int) == find_byte(s@, x, i as int),
            forall|k: int| from <= k < i ==> s@[k] != x,
        decreases s@.len() - i,
    {
        if s[i] == x {
            return i;
        }
        i = i + 1;
    }
    i
}

/// Whether `s[from..from + e.len()]` is exactly `e`.
pub fn matches_at(s: &[u8], from: usize, e: &[u8]) -> (r: bool)
    requires
        from <= s@.len(),
    ensures
        r == (from + e@.len() <= s@.len() && s@.subrange(from as int, from + e@.len()) == e@),
{
    let n = s.len();
    if e.len() > n - from {
        return false;
    }
    let mut i: usize = 0;
    while i < e.len()
        invariant
            n == s@.len(),
            from + e@.len() <= s@.len(),
            0 <= i <= e@.len(),
            forall|k: int| 0 <= k < i ==> s@[from + k] == e@[k],
        decreases e@.len() - i,
    {
        if s[from + i] != e[i] {
            assert(s@.subrange(from as int, from + e@.len())[i as int] != e@[i as int]);
            return false;
        }
        i = i + 1;
    }
    assert(s@.subrange(from as int, from + e@.len()) =~= e@);
    true
}

/// A copy of `s[from..to]`.
pub fn copy_range(s: &[u8], from: usize, to: usize) -> (r: Vec<u8>)
    requires
        from <= to <= s@.len(),
    ensures
        r@ == s@.subrange(from as int, to as int),
{
    let mut r: Vec<u8> = Vec::new();
    let mut i: usize = from;
    while i < to
        invariant
            from <= i <= to <= s@.len(),
            r@ == s@.subrange(from as int, i as int),
        decreases to - i,
    {
        r.push(s[i]);
        i = i + 1;
        assert(r@ =~= s@.subrange(from as int, i as int));
    }
    r
}

/// Appends all of `src` to `dst`.
pub fn append_bytes(dst: &mut Vec<u8>, src: &[u8])
    ensures
        final(dst)@ == old(dst)@ + src@,
{
    let ghost start = dst@;
    let mut i: usize = 0;
    while i < src.len()
        invariant
            0 <= i <= src@.len(),
            dst@ == start + src@.subrange(0, i as int),
        decreases src@.len() - i,
    {
        dst.push(src[i]);
        i = i + 1;
        assert(dst@ =~= start + src@.subrange(0, i as int));
    }
    assert(src@.subrange(0, src@.len() as int) =~= src@);
}

/// The decimal digits of `n`.
pub fn decimal_bytes(n: u64) -> (r: Vec<u8>)
    ensures
        r@ == decimal(n as nat),
    decreases n,
{
    if n < 10 {
        let d: u8 = 48 + n as u8;
        let mut r: Vec<u8> = Vec::new();
        r.push(d);
        assert(r@ =~= decimal(n as nat));
        r
    } else {
        let mut r = decimal_bytes(n / 10);
        let d: u8 = 48 + (n % 10) as u8;
        r.push(d);
        r
    }
}

} // verus!
