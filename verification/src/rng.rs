//! The random source of the search, from the `rand` crate.

use vstd::prelude::*;
use rand::rngs::SmallRng;
use rand_core::RngCore;
use rand::SeedableRng;

verus! {

/// The small, seedable generator of `rand` that drives the order in which the search
/// tries values.
#[verifier::external_type_specification]
#[verifier::external_body]
pub struct ExSmallRng(SmallRng);

/// `RngCore::next_u32` of `rand::rngs::SmallRng`: the next 32 bits of the generator's
/// stream, advancing its state. Nothing is claimed of the value, which any `u32` may be.
#[verifier::external_body]
pub(crate) fn next_u32(rng: &mut SmallRng) -> u32 {
    rng.next_u32()
}

/// `SeedableRng::seed_from_u64` of `rand::rngs::SmallRng`: a generator whose stream is
/// fixed by `seed`. Nothing is claimed of the generator it gives.
#[verifier::external_body]
pub(crate) fn seeded(seed: u64) -> SmallRng {
    SmallRng::seed_from_u64(seed)
}

/// The place that a draw `r` picks for position `i`: one of the positions 0 to `i`.
pub open spec fn draw_place(r: u32, i: int) -> int {
    (r as int) % (i + 1)
}

/// One step of the Fisher-Yates shuffle: exchange the value at `i` with the value at the
/// place that the draw `r` picks among the positions 0 to `i`.
pub fn swap_with_draw(values: &mut Vec<usize>, i: usize, r: u32)
    requires
        i < old(values)@.len(),
    ensures
        final(values)@ == old(values)@.update(i as int, old(values)@[draw_place(r, i as int)]).update(
            draw_place(r, i as int),
            old(values)@[i as int],
        ),
{
    let n = values.len();
    assert(i + 1 <= n);
    let j = (r as usize) % (i + 1);
    let a = values[i];
    let b = values[j];
    values.set(i, b);
    values.set(j, a);
}

/// Shuffle `values` in place with the generator (Fisher-Yates); the result holds the
/// same values, each as often as before, in some order.
pub fn shuffle(values: &mut Vec<usize>, rng: &mut SmallRng)
    ensures
        final(values)@.to_multiset() == old(values)@.to_multiset(),
        final(values)@.len() == old(values)@.len(),
        forall|x: usize| #[trigger] final(values)@.contains(x) <==> old(values)@.contains(x),
{
    broadcast use {vstd::seq_lib::to_multiset_update, vstd::seq_lib::to_multiset_contains, vstd::multiset::group_multiset_axioms};
    let n = values.len();
    let mut i: usize = n;
    while i > 1
        invariant
            i <= n,
            values@.len() == n,
            values@.to_multiset() == old(values)@.to_multiset(),
        decreases i,
    {
        i = i - 1;
        let r = next_u32(rng);
        let ghost j = draw_place(r, i as int);
        let ghost before = values@;
        let ghost a = before[i as int];
        let ghost b = before[j];
        let ghost mid = before.update(i as int, b);
        swap_with_draw(values, i, r);
        proof {
            assert(0 <= j <= i);
            assert(mid[j] == b);
            assert(values@ == mid.update(j, a));
            let m = before.to_multiset();
            assert(before.contains(a) && before.contains(b)) by {
                assert(before[i as int] == a);
                assert(before[j] == b);
            }
            vstd::seq_lib::to_multiset_update(before, i as int, b);
            vstd::seq_lib::to_multiset_update(mid, j, a);
            assert(mid.to_multiset() == m.insert(b).remove(a));
            assert(values@.to_multiset() == m.insert(b).remove(a).insert(a).remove(b));
            vstd::seq_lib::to_multiset_contains(before, a);
            vstd::seq_lib::to_multiset_contains(before, b);
            assert(m.count(a) > 0 && m.count(b) > 0);
            assert forall|x: usize| #[trigger] m.insert(b).remove(a).insert(a).remove(b).count(x) == m.count(x) by {
                if x == a && x == b {
                } else if x == a {
                } else if x == b {
                }
            }
            assert(m.insert(b).remove(a).insert(a).remove(b) =~= m);
        }
    }
    proof {
        assert forall|x: usize| #[trigger] values@.contains(x) <==> old(values)@.contains(x) by {
            vstd::seq_lib::to_multiset_contains(values@, x);
            vstd::seq_lib::to_multiset_contains(old(values)@, x);
        }
    }
}

} // verus!
