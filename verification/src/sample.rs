//! Deterministic, seeded subsampling of a barcode group.
//!
//! Reports are compared across runs, so the selection must be a pure
//! function of the group, the requested size and the run-constant seed.

use vstd::prelude::*;

use rand::rngs::StdRng;
use rand::seq::SliceRandom;
use rand::SeedableRng;

verus! {

/// The group that rand's seeded sampler returns for a given group,
/// requested size and seed. The draw is pseudo-random: the same arguments
/// give the same result on every run.
pub uninterp spec fn sample_of(items: Seq<Seq<u8>>, amount: usize, seed: u64) -> Seq<Seq<u8>>;

/// Relies on rand's `SliceRandom::choose_multiple` over a
/// `StdRng::seed_from_u64` generator: the generator is a fixed
/// deterministic algorithm for a given seed, and `choose_multiple` draws
/// `min(amount, len)` elements at distinct indices of the slice, so the
/// result is a function of the slice, the amount and the seed alone, and
/// its multiset is contained in the input's.
#[verifier::external_body]
fn choose_sample(items: &Vec<Vec<u8>>, amount: usize, seed: u64) -> (r: Vec<Vec<u8>>)
    ensures
        r.deep_view() == sample_of(items.deep_view(), amount, seed),
        r.deep_view().len() == if amount <= items.deep_view().len() {
            amount as int
        } else {
            items.deep_view().len() as int
        },
        r.deep_view().to_multiset().subset_of(items.deep_view().to_multiset()),
{
    let mut rng = StdRng::seed_from_u64(seed);
    items.choose_multiple(&mut rng, amount).cloned().collect()
}

/// What `subsample` keeps of a group: everything while sampling is
/// disabled (`sample_size == 0`) or the group is already small enough;
/// otherwise the seeded draw of exactly `sample_size` barcodes.
pub open spec fn spec_subsample(items: Seq<Seq<u8>>, sample_size: usize, seed: u64) -> Seq<
    Seq<u8>,
> {
    if sample_size == 0 || items.len() <= sample_size {
        items
    } else {
        sample_of(items, sample_size, seed)
    }
}

/// Keep at most `sample_size` barcodes of a group, drawn without
/// repetition by a seeded generator. A `sample_size` of zero disables
/// sampling. The result is a function of the arguments alone, so a rerun
/// over the same input reproduces it exactly, and it never holds more
/// barcodes than requested nor more than the group had.
pub fn subsample(umis: Vec<Vec<u8>>, sample_size: usize, seed: u64) -> (r: Vec<Vec<u8>>)
    ensures
        r.deep_view() == spec_subsample(umis.deep_view(), sample_size, seed),
        r.deep_view().len() <= umis.deep_view().len(),
        sample_size > 0 ==> r.deep_view().len() <= sample_size,
        r.deep_view().to_multiset().subset_of(umis.deep_view().to_multiset()),
{
    if sample_size == 0 || umis.len() <= sample_size {
        umis
    } else {
        choose_sample(&umis, sample_size, seed)
    }
}

} // verus!
