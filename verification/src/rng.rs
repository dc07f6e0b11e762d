use vstd::prelude::*;

verus! {

// The pseudorandom generator that drives every random decision made while
// resolving a scenario. Its internal state is opaque here; reproducibility
// across runs comes from rand_xorshift's deterministic algorithm and is
// exercised by the test suite.
#[verifier::external_type_specification]
#[verifier::external_body]
pub struct ExXorShiftRng(rand_xorshift::XorShiftRng);

/// Relies on rand_core's `SeedableRng::seed_from_u64`: builds a fresh
/// generator from a 64-bit seed. Nothing about the resulting state can be
/// stated here, so this has no contract.
#[verifier::external_body]
pub(crate) fn xorshift_from_seed(seed: u64) -> rand_xorshift::XorShiftRng {
    <rand_xorshift::XorShiftRng as rand::SeedableRng>::seed_from_u64(seed)
}

/// Relies on rand's `Rng::gen::<u64>`: draws the next 64-bit value from the
/// generator. Nothing can be promised of a random draw.
#[verifier::external_body]
pub(crate) fn gen_u64(rng: &mut rand_xorshift::XorShiftRng) -> u64 {
    rand::Rng::gen(rng)
}

/// Relies on rand's `Rng::gen_range`: a uniform draw from the half-open
/// range `[low, high)`. The call panics when `low >= high`, so that case is
/// excluded here.
#[verifier::external_body]
pub(crate) fn gen_range_u64(
    rng: &mut rand_xorshift::XorShiftRng,
    low: u64,
    high: u64,
) -> (r: u64)
    requires
        low < high,
    ensures
        low <= r < high,
{
    rand::Rng::gen_range(rng, low, high)
}

/// Relies on rand's `SliceRandom::shuffle`: permutes the elements in place by
/// swaps, so the multiset of elements (and hence the length) is unchanged.
#[verifier::external_body]
pub(crate) fn shuffle_vec<T>(v: &mut Vec<T>, rng: &mut rand_xorshift::XorShiftRng)
    ensures
        final(v)@.to_multiset() == old(v)@.to_multiset(),
        final(v)@.len() == old(v)@.len(),
{
    rand::seq::SliceRandom::shuffle(v.as_mut_slice(), rng)
}

/// Relies on rand's `SliceRandom::choose`: `None` exactly when the slice is
/// empty, otherwise one of its elements, picked uniformly at random.
#[verifier::external_body]
pub(crate) fn choose_from(
    v: &Vec<usize>,
    rng: &mut rand_xorshift::XorShiftRng,
) -> (r: Option<usize>)
    ensures
        r is None <==> v@.len() == 0,
        r matches Some(l) ==> v@.contains(l),
{
    rand::seq::SliceRandom::choose(v.as_slice(), rng).copied()
}

/// Derives an independent child generator from `rng`. The parent advances by
/// exactly one draw, however much the caller later consumes from the child,
/// so randomness whose consumption count depends on map topology can be made
/// on a fork without desynchronizing everything that follows.
pub fn fork_rng(rng: &mut rand_xorshift::XorShiftRng) -> rand_xorshift::XorShiftRng {
    let seed = gen_u64(rng);
    xorshift_from_seed(seed)
}

} // verus!
