//! Counting the `true` entries of a boolean sequence. The count ties a
//! visited bitmap to the length of the list of visited nodes, which bounds
//! that list by the node count and so bounds traversal work-lists.

use vstd::prelude::*;

verus! {

/// Number of `true` entries in `s`.
pub open spec fn count_true(s: Seq<bool>) -> nat
    decreases s.len(),
{
    if s.len() == 0 {
        0
    } else {
        count_true(s.drop_last()) + if s.last() {
            1nat
        } else {
            0nat
        }
    }
}

/// A sequence without `true` entries has count zero.
pub proof fn lemma_count_true_zero(s: Seq<bool>)
    requires
        forall|i: int| 0 <= i < s.len() ==> !s[i],
    ensures
        count_true(s) == 0,
    decreases s.len(),
{
    if s.len() > 0 {
        lemma_count_true_zero(s.drop_last());
    }
}

/// The count never exceeds the length.
pub proof fn lemma_count_true_le(s: Seq<bool>)
    ensures
        count_true(s) <= s.len(),
    decreases s.len(),
{
    if s.len() > 0 {
        lemma_count_true_le(s.drop_last());
    }
}

/// A sequence with every entry `true` has count equal to its length.
pub proof fn lemma_count_true_full(s: Seq<bool>)
    requires
        forall|i: int| 0 <= i < s.len() ==> s[i],
    ensures
        count_true(s) == s.len(),
    decreases s.len(),
{
    if s.len() > 0 {
        lemma_count_true_full(s.drop_last());
    }
}

/// A count equal to the length means every entry is `true`.
pub proof fn lemma_count_true_full_conv(s: Seq<bool>)
    requires
        count_true(s) == s.len(),
    ensures
        forall|i: int| 0 <= i < s.len() ==> s[i],
    decreases s.len(),
{
    if s.len() > 0 {
        lemma_count_true_le(s.drop_last());
        lemma_count_true_full_conv(s.drop_last());
        assert forall|i: int| 0 <= i < s.len() implies s[i] by {
            if i < s.len() - 1 {
                assert(s.drop_last()[i]);
            }
        }
    }
}

/// Setting one `false` entry to `true` raises the count by exactly one.
pub proof fn lemma_count_true_set(s: Seq<bool>, i: int)
    requires
        0 <= i < s.len(),
        !s[i],
    ensures
        count_true(s.update(i, true)) == count_true(s) + 1,
    decreases s.len(),
{
    let t = s.update(i, true);
    if i == s.len() - 1 {
        assert(t.drop_last() =~= s.drop_last());
    } else {
        assert(t.drop_last() =~= s.drop_last().update(i, true));
        lemma_count_true_set(s.drop_last(), i);
    }
}

/// A duplicate-free sequence of marked positions cannot outnumber the
/// marks.
pub proof fn lemma_distinct_marked_bound(s: Seq<usize>, bm: Seq<bool>)
    requires
        s.no_duplicates(),
        forall|j: int| 0 <= j < s.len() ==> ((#[trigger] s[j]) as int) < bm.len() && bm[s[j] as int],
    ensures
        s.len() <= count_true(bm),
    decreases s.len(),
{
    if s.len() > 0 {
        let x = s.last();
        let bm2 = bm.update(x as int, false);
        lemma_count_true_set(bm2, x as int);
        assert(bm2.update(x as int, true) =~= bm);
        let rest = s.drop_last();
        assert forall|j: int|
            0 <= j < rest.len() implies ((#[trigger] rest[j]) as int) < bm2.len()
            && bm2[rest[j] as int] by {
            assert(rest[j] == s[j]);
            assert(s[j] != x);
        }
        lemma_distinct_marked_bound(rest, bm2);
    }
}

} // verus!
