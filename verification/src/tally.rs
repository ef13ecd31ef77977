//! Counting the entries of a sequence of booleans that are `false`.

use vstd::prelude::*;
use vstd::relations::injective_on;
use vstd::set_lib::{lemma_int_range, lemma_len_subset, lemma_map_size, set_int_range};

verus! {

/// The number of indices at which `s` is `false`.
pub open spec fn count_false(s: Seq<bool>) -> nat
    decreases s.len(),
{
    if s.len() == 0 {
        0
    } else {
        count_false(s.drop_last()) + if s.last() {
            0nat
        } else {
            1nat
        }
    }
}

pub proof fn lemma_count_false_bound(s: Seq<bool>)
    ensures
        count_false(s) <= s.len(),
    decreases s.len(),
{
    if s.len() > 0 {
        lemma_count_false_bound(s.drop_last());
    }
}

/// Changing one entry changes the count by that entry alone.
pub proof fn lemma_count_false_update(s: Seq<bool>, i: int, v: bool)
    requires
        0 <= i < s.len(),
    ensures
        count_false(s.update(i, v)) + (if s[i] { 0nat } else { 1nat })
            == count_false(s) + (if v { 0nat } else { 1nat }),
    decreases s.len(),
{
    let t = s.update(i, v);
    if i == s.len() - 1 {
        assert(t.drop_last() =~= s.drop_last());
    } else {
        assert(t.drop_last() =~= s.drop_last().update(i, v));
        lemma_count_false_update(s.drop_last(), i, v);
    }
}

/// The count is zero exactly when every entry is `true`.
pub proof fn lemma_count_false_zero(s: Seq<bool>)
    ensures
        count_false(s) == 0 <==> (forall|i: int| 0 <= i < s.len() ==> s[i]),
    decreases s.len(),
{
    if s.len() > 0 {
        lemma_count_false_zero(s.drop_last());
        if count_false(s) == 0 {
            assert forall|i: int| 0 <= i < s.len() implies s[i] by {
                if i < s.len() - 1 {
                    assert(s.drop_last()[i] == s[i]);
                }
            }
        }
        if forall|i: int| 0 <= i < s.len() ==> s[i] {
            assert forall|i: int| 0 <= i < s.drop_last().len() implies s.drop_last()[i] by {}
        }
    }
}

/// A sequence of falses alone counts its length.
pub proof fn lemma_count_false_all(s: Seq<bool>)
    requires
        forall|i: int| 0 <= i < s.len() ==> !s[i],
    ensures
        count_false(s) == s.len(),
    decreases s.len(),
{
    if s.len() > 0 {
        assert forall|i: int| 0 <= i < s.drop_last().len() implies !s.drop_last()[i] by {}
        lemma_count_false_all(s.drop_last());
    }
}

/// A function that takes the numbers below `n` to numbers below `m`, no two
/// to the same, shows that `n` is at most `m`.
pub proof fn lemma_injection_bound(n: int, m: int, f: spec_fn(int) -> int)
    requires
        0 <= n,
        0 <= m,
        forall|x: int| 0 <= x < n ==> 0 <= #[trigger] f(x) < m,
        forall|x: int, y: int| 0 <= x < n && 0 <= y < n && #[trigger] f(x) == #[trigger] f(y) ==> x == y,
    ensures
        n <= m,
{
    let from = set_int_range(0, n);
    let to = set_int_range(0, m);
    let image = from.map(f);
    lemma_int_range(0, n);
    lemma_int_range(0, m);
    assert(injective_on(f, from));
    lemma_map_size(from, image, f);
    assert(image.subset_of(to));
    lemma_len_subset(image, to);
}

} // verus!
