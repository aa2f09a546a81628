use vstd::prelude::*;
use crate::arith::{ring, total, lemma_ring_add, lemma_ring_small, lemma_total_linear, lemma_total_zero, lemma_wrapping_add};
use crate::engine::{split_spec, PS};

verus! {

/// The shares that a split produces sum, in the ring, to the value split,
/// whatever the blinds.
pub proof fn law_split_sums_to_value(value: u64, blinds: Seq<u64>)
    ensures
        ring(total(split_spec(value, blinds))) == value,
{
    let s = split_spec(value, blinds);
    assert(s.drop_last() =~= blinds);
    lemma_ring_add(total(blinds), ring(value - total(blinds)));
    lemma_ring_add(total(blinds), value - total(blinds));
    lemma_ring_small(value as int);
}

/// Reconstructing a name whose shares came from a split of `value` gives
/// back `value`.
pub proof fn law_round_trip(e: PS, k: Seq<char>, value: u64, blinds: Seq<u64>)
    requires
        e.shares(k) == split_spec(value, blinds),
    ensures
        e.value(k) == value,
{
    law_split_sums_to_value(value, blinds);
}

/// With one party, the only share is the value itself.
pub proof fn law_single_share(value: u64)
    ensures
        split_spec(value, Seq::empty()) == seq![value],
{
    lemma_ring_small(value as int);
    assert(split_spec(value, Seq::empty()) =~= seq![value]);
}

/// Adding shares party by party adds the values they stand for.
pub proof fn law_additive(x: Seq<u64>, y: Seq<u64>, s: Seq<u64>)
    requires
        x.len() == s.len(),
        y.len() == s.len(),
        forall|i: int| 0 <= i < s.len() ==> s[i] == y[i].wrapping_add(x[i]),
    ensures
        ring(total(s)) == ring(ring(total(x)) + ring(total(y))),
{
    let zero = Seq::new(s.len(), |i: int| 0u64);
    assert forall|i: int| 0 <= i < s.len() implies s[i] as int == ring(
        1 * x[i] + 1 * y[i] + zero[i] + zero[i],
    ) by {
        lemma_wrapping_add(y[i], x[i]);
    }
    lemma_total_zero(zero);
    lemma_total_linear(s, x, y, zero, zero, 1, 1);
    lemma_ring_add(total(x), total(y));
}

} // verus!
