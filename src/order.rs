//! Byte-wise lexicographic order on names, and sorting tree entries by name.
use vstd::prelude::*;
use crate::tree::{entries_view, EntryView, TreeEntry};

verus! {

broadcast use vstd::seq_lib::group_to_multiset_ensures;

/// `a` sorts strictly before `b` byte-wise; a proper prefix sorts first.
pub open spec fn name_lt(a: Seq<u8>, b: Seq<u8>) -> bool
    decreases a.len(),
{
    if a.len() == 0 {
        b.len() > 0
    } else if b.len() == 0 {
        false
    } else if a[0] != b[0] {
        a[0] < b[0]
    } else {
        name_lt(a.drop_first(), b.drop_first())
    }
}

pub open spec fn name_le(a: Seq<u8>, b: Seq<u8>) -> bool {
    a == b || name_lt(a, b)
}

/// Names ascend, equal names allowed.
pub open spec fn sorted_by_name(s: Seq<TreeEntry>) -> bool {
    forall|i: int, j: int| 0 <= i < j < s.len() ==> name_le(#[trigger] s[i].name@, #[trigger] s[j].name@)
}

/// Names ascend strictly.
pub open spec fn strictly_sorted_by_name(s: Seq<TreeEntry>) -> bool {
    forall|i: int, j: int| 0 <= i < j < s.len() ==> name_lt(#[trigger] s[i].name@, #[trigger] s[j].name@)
}

/// Entry values whose names ascend strictly.
pub open spec fn names_ascend(s: Seq<EntryView>) -> bool {
    forall|i: int, j: int| 0 <= i < j < s.len() ==> name_lt(#[trigger] s[i].name, #[trigger] s[j].name)
}

/// No two entries share a name.
pub open spec fn distinct_names(s: Seq<TreeEntry>) -> bool {
    forall|i: int, j: int| 0 <= i < s.len() && 0 <= j < s.len() && i != j ==> #[trigger] s[i].name@ != #[trigger] s[j].name@
}

pub proof fn lemma_name_lt_irreflexive(a: Seq<u8>)
    ensures
        !name_lt(a, a),
    decreases a.len(),
{
    if a.len() > 0 {
        lemma_name_lt_irreflexive(a.drop_first());
    }
}

pub proof fn lemma_name_lt_asymmetric(a: Seq<u8>, b: Seq<u8>)
    ensures
        !(name_lt(a, b) && name_lt(b, a)),
    decreases a.len(),
{
    if a.len() > 0 && b.len() > 0 && a[0] == b[0] {
        lemma_name_lt_asymmetric(a.drop_first(), b.drop_first());
    }
}

pub proof fn lemma_name_lt_transitive(a: Seq<u8>, b: Seq<u8>, c: Seq<u8>)
    requires
        name_lt(a, b),
        name_lt(b, c),
    ensures
        name_lt(a, c),
    decreases a.len(),
{
    if a.len() > 0 && b.len() > 0 && c.len() > 0 && a[0] == b[0] && b[0] == c[0] {
        lemma_name_lt_transitive(a.drop_first(), b.drop_first(), c.drop_first());
    }
}

pub proof fn lemma_name_le_transitive(a: Seq<u8>, b: Seq<u8>, c: Seq<u8>)
    requires
        name_le(a, b),
        name_le(b, c),
    ensures
        name_le(a, c),
{
    if a != b && b != c {
        lemma_name_lt_transitive(a, b, c);
    }
}

pub proof fn lemma_name_lt_total(a: Seq<u8>, b: Seq<u8>)
    requires
        a != b,
    ensures
        name_lt(a, b) || name_lt(b, a),
    decreases a.len(),
{
    if a.len() > 0 && b.len() > 0 && a[0] == b[0] {
        if a.drop_first() == b.drop_first() {
            assert(a =~= seq![a[0]] + a.drop_first());
            assert(b =~= seq![b[0]] + b.drop_first());
        }
        lemma_name_lt_total(a.drop_first(), b.drop_first());
    } else if a.len() == 0 && b.len() == 0 {
        assert(a =~= b);
    }
}

/// Whether `a` sorts strictly before `b`.
pub fn name_less(a: &[u8], b: &[u8]) -> (r: bool)
    ensures
        r == name_lt(a@, b@),
{
    let mut i: usize = 0;
    assert(a@.skip(0) =~= a@);
    assert(b@.skip(0) =~= b@);
    while i < a.len() && i < b.len() && a[i] == b[i]
        invariant
            i <= a@.len(),
            i <= b@.len(),
            name_lt(a@, b@) == name_lt(a@.skip(i as int), b@.skip(i as int)),
        decreases a@.len() - i,
    {
        assert(a@.skip(i as int).drop_first() =~= a@.skip(i + 1));
        assert(b@.skip(i as int).drop_first() =~= b@.skip(i + 1));
        i = i + 1;
    }
    if i == a.len() {
        i < b.len()
    } else if i == b.len() {
        false
    } else {
        a[i] < b[i]
    }
}

/// Index of an entry whose name is least among `s`.
fn least_name_index(s: &Vec<TreeEntry>) -> (m: usize)
    requires
        s@.len() > 0,
    ensures
        m < s@.len(),
        forall|k: int| 0 <= k < s@.len() ==> name_le(s@[m as int].name@, #[trigger] s@[k].name@),
{
    let mut m: usize = 0;
    let mut k: usize = 1;
    while k < s.len()
        invariant
            0 <= m < k <= s@.len(),
            forall|j: int| 0 <= j < k ==> name_le(s@[m as int].name@, #[trigger] s@[j].name@),
        decreases s@.len() - k,
    {
        if name_less(s[k].name.as_slice(), s[m].name.as_slice()) {
            let ghost old_m = m;
            assert forall|j: int| 0 <= j < k implies name_le(s@[k as int].name@, #[trigger] s@[j].name@) by {
                lemma_name_le_transitive(s@[k as int].name@, s@[old_m as int].name@, s@[j].name@);
            }
            m = k;
        } else {
            proof {
                if s@[k as int].name@ != s@[m as int].name@ {
                    lemma_name_lt_total(s@[k as int].name@, s@[m as int].name@);
                }
            }
        }
        k = k + 1;
    }
    m
}

/// Sorts entries by name: the result holds the same entries, in ascending
/// order of name, strictly so where the names are distinct.
pub fn sort_entries(entries: Vec<TreeEntry>) -> (r: Vec<TreeEntry>)
    ensures
        r@.to_multiset() == entries@.to_multiset(),
        entries_view(r@).to_multiset() == entries_view(entries@).to_multiset(),
        sorted_by_name(r@),
        distinct_names(entries@) ==> strictly_sorted_by_name(r@),
{
    let mut rest = entries;
    let mut out: Vec<TreeEntry> = Vec::new();
    while rest.len() > 0
        invariant
            out@.to_multiset().add(rest@.to_multiset()) == entries@.to_multiset(),
            entries_view(out@).to_multiset().add(entries_view(rest@).to_multiset()) == entries_view(
                entries@,
            ).to_multiset(),
            sorted_by_name(out@),
            forall|i: int, j: int|
                0 <= i < out@.len() && 0 <= j < rest@.len() ==> name_le(
                    #[trigger] out@[i].name@,
                    #[trigger] rest@[j].name@,
                ),
            distinct_names(entries@) ==> {
                &&& strictly_sorted_by_name(out@)
                &&& distinct_names(rest@)
                &&& forall|i: int, j: int|
                    0 <= i < out@.len() && 0 <= j < rest@.len() ==> #[trigger] out@[i].name@
                        != #[trigger] rest@[j].name@
            },
        decreases rest@.len(),
    {
        let m = least_name_index(&rest);
        let ghost before = rest@;
        let ghost out_before = out@;
        let x = rest.remove(m);
        proof {
            assert(before.remove(m as int) == rest@);
            assert(rest@.to_multiset() == before.to_multiset().remove(x));
            assert(out_before.push(x).to_multiset() == out_before.to_multiset().insert(x));
            assert(before.to_multiset().count(x) > 0) by {
                assert(before.contains(x));
            }
            assert(out_before.push(x).to_multiset().add(rest@.to_multiset()) =~= entries@.to_multiset());
            let vb = entries_view(before);
            assert(entries_view(rest@) =~= vb.remove(m as int));
            assert(entries_view(rest@).to_multiset() == vb.to_multiset().remove(x@));
            assert(entries_view(out_before.push(x)) =~= entries_view(out_before).push(x@));
            assert(entries_view(out_before).push(x@).to_multiset() == entries_view(out_before).to_multiset().insert(x@));
            assert(vb.to_multiset().count(x@) > 0) by {
                assert(vb[m as int] == x@);
                assert(vb.contains(x@));
            }
            assert(entries_view(out_before.push(x)).to_multiset().add(entries_view(rest@).to_multiset())
                =~= entries_view(entries@).to_multiset());
            assert forall|j: int| 0 <= j < rest@.len() implies rest@[j] == before[if j < m { j } else { j + 1 }] by {}
        }
        out.push(x);
        proof {
            assert forall|i: int, j: int| 0 <= i < j < out@.len() implies name_le(
                #[trigger] out@[i].name@,
                #[trigger] out@[j].name@,
            ) by {
                if j == out@.len() - 1 {
                    assert(out@[i] == out_before[i]);
                    assert(x == before[m as int]);
                }
            }
            assert forall|i: int, j: int|
                0 <= i < out@.len() && 0 <= j < rest@.len() implies name_le(
                #[trigger] out@[i].name@,
                #[trigger] rest@[j].name@,
            ) by {
                let jj = if j < m { j } else { j + 1 };
                assert(rest@[j] == before[jj]);
            }
            if distinct_names(entries@) {
                assert forall|i: int, j: int| 0 <= i < j < out@.len() implies name_lt(
                    #[trigger] out@[i].name@,
                    #[trigger] out@[j].name@,
                ) by {
                    if j == out@.len() - 1 {
                        assert(out@[i] == out_before[i]);
                        assert(out_before[i].name@ != before[m as int].name@);
                    }
                }
                assert forall|i: int, j: int|
                    0 <= i < rest@.len() && 0 <= j < rest@.len() && i != j implies #[trigger] rest@[i].name@
                    != #[trigger] rest@[j].name@ by {
                    let ii = if i < m { i } else { i + 1 };
                    let jj = if j < m { j } else { j + 1 };
                    assert(rest@[i] == before[ii]);
                    assert(rest@[j] == before[jj]);
                }
                assert forall|i: int, j: int|
                    0 <= i < out@.len() && 0 <= j < rest@.len() implies #[trigger] out@[i].name@
                    != #[trigger] rest@[j].name@ by {
                    let jj = if j < m { j } else { j + 1 };
                    assert(rest@[j] == before[jj]);
                    if i < out@.len() - 1 {
                        assert(out@[i] == out_before[i]);
                    } else {
                        assert(out@[i] == before[m as int]);
                    }
                }
            }
        }
    }
    proof {
        assert(rest@.to_multiset().len() == 0);
        assert(out@.to_multiset().add(rest@.to_multiset()) =~= out@.to_multiset());
        assert(entries_view(rest@).to_multiset().len() == 0);
        assert(entries_view(out@).to_multiset().add(entries_view(rest@).to_multiset())
            =~= entries_view(out@).to_multiset());
    }
    out
}

/// Two sequences of entry values with strictly ascending names that hold
/// the same values are equal.
pub proof fn lemma_sorted_is_unique(a: Seq<EntryView>, b: Seq<EntryView>)
    requires
        names_ascend(a),
        names_ascend(b),
        a.to_multiset() == b.to_multiset(),
    ensures
        a == b,
    decreases a.len(),
{
    assert(a.len() == a.to_multiset().len());
    assert(b.len() == b.to_multiset().len());
    if a.len() == 0 {
        assert(a =~= b);
    } else {
        assert(a.to_multiset().count(a[0]) > 0) by {
            assert(a.contains(a[0]));
        }
        assert(b.contains(a[0]));
        let j = choose|j: int| 0 <= j < b.len() && b[j] == a[0];
        assert(b.to_multiset().count(b[0]) > 0) by {
            assert(b.contains(b[0]));
        }
        assert(a.contains(b[0]));
        let i = choose|i: int| 0 <= i < a.len() && a[i] == b[0];
        if i > 0 {
            assert(name_lt(a[0].name, a[i].name));
            if j > 0 {
                assert(name_lt(b[0].name, b[j].name));
                lemma_name_lt_asymmetric(a[0].name, b[0].name);
            } else {
                lemma_name_lt_irreflexive(a[0].name);
            }
        }
        assert(a[0] == b[0]);
        assert(a.remove(0) =~= a.drop_first());
        assert(b.remove(0) =~= b.drop_first());
        assert(a.drop_first().to_multiset() == a.to_multiset().remove(a[0]));
        assert(b.drop_first().to_multiset() == b.to_multiset().remove(b[0]));
        assert forall|x: int, y: int| 0 <= x < y < a.drop_first().len() implies name_lt(
            #[trigger] a.drop_first()[x].name,
            #[trigger] a.drop_first()[y].name,
        ) by {
            assert(a.drop_first()[x] == a[x + 1]);
            assert(a.drop_first()[y] == a[y + 1]);
        }
        assert forall|x: int, y: int| 0 <= x < y < b.drop_first().len() implies name_lt(
            #[trigger] b.drop_first()[x].name,
            #[trigger] b.drop_first()[y].name,
        ) by {
            assert(b.drop_first()[x] == b[x + 1]);
            assert(b.drop_first()[y] == b[y + 1]);
        }
        lemma_sorted_is_unique(a.drop_first(), b.drop_first());
        assert(a =~= seq![a[0]] + a.drop_first());
        assert(b =~= seq![b[0]] + b.drop_first());
    }
}

proof fn lemma_names_ascend_view(s: Seq<TreeEntry>)
    requires
        strictly_sorted_by_name(s),
    ensures
        names_ascend(entries_view(s)),
{
    assert forall|i: int, j: int| 0 <= i < j < entries_view(s).len() implies name_lt(
        #[trigger] entries_view(s)[i].name,
        #[trigger] entries_view(s)[j].name,
    ) by {
        assert(name_lt(s[i].name@, s[j].name@));
    }
}

/// Sorting is blind to the order in which entries arrive: for two listings
/// with distinct names that hold the same entry values, any results that
/// `sort_entries` may give hold the same entry values in the same order.
pub proof fn lemma_sort_order_independent(
    s1: Seq<TreeEntry>,
    s2: Seq<TreeEntry>,
    o1: Seq<TreeEntry>,
    o2: Seq<TreeEntry>,
)
    requires
        entries_view(s1).to_multiset() == entries_view(s2).to_multiset(),
        distinct_names(s1),
        distinct_names(s2),
        entries_view(o1).to_multiset() == entries_view(s1).to_multiset(),
        entries_view(o2).to_multiset() == entries_view(s2).to_multiset(),
        distinct_names(s1) ==> strictly_sorted_by_name(o1),
        distinct_names(s2) ==> strictly_sorted_by_name(o2),
    ensures
        entries_view(o1) == entries_view(o2),
{
    lemma_names_ascend_view(o1);
    lemma_names_ascend_view(o2);
    lemma_sorted_is_unique(entries_view(o1), entries_view(o2));
}

} // verus!
