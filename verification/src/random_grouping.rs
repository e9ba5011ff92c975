//! Provider of [`RandomGrouping`].

use crate::error::GroupingError;
use crate::grouping::{
    bucket_by_indices, group_indices, group_slice_by_indices, groups_view, is_grouping,
    lemma_chunk_bounds, lemma_sorted_chunk_multiset, ref_groups_view, select, valid_sample,
};
use crate::ratio::{
    check_ratios, ratios_fit, ratios_wellformed, resolve_sizes, resolved_size, Ratios,
};
use crate::rng::{pcg_from_seed, random_seed, sample_indices, shuffle_vec};
use crate::size_rounding::SizeRounding;
use crate::staff::Staff;
use crate::sums::{sum_all, total_of};
use vstd::prelude::*;

verus! {

/// The sizes that a ratio vector resolves to for input length `n`.
pub open spec fn resolved_sizes(
    rounding: SizeRounding,
    nums: Seq<i64>,
    den: u64,
    n: int,
) -> Seq<usize> {
    Seq::new(nums.len(), |g: int| resolved_size(rounding, nums, den, n, g) as usize)
}

/// Random grouping executor.
///
/// A session groups collections of items into disjoint groups at random.
/// It owns or borrows one random generator, keeps an order-stability flag
/// and a rounding policy, and offers grouping by explicit sizes or by
/// ratios, over borrowed slices or over owned collections.
pub struct RandomGrouping<'r> {
    /// Flag to keep the original order inside groups.
    stable: bool,
    /// Rounding strategy for group sizes derived from ratios.
    rounding: SizeRounding,
    /// Random number generator, owned or borrowed.
    rng: Staff<'r, rand_pcg::Pcg32>,
}

impl<'r> RandomGrouping<'r> {
    /// Whether grouping keeps the original order inside groups.
    pub closed spec fn spec_stable(&self) -> bool {
        self.stable
    }

    /// The rounding strategy in use.
    pub closed spec fn spec_rounding(&self) -> SizeRounding {
        self.rounding
    }

    /// The state of the random generator.
    pub closed spec fn spec_rng(&self) -> rand_pcg::Pcg32 {
        self.rng.value()
    }

    /// Creates an instance with default random number seed.
    pub fn new() -> (rg: Self)
        ensures
            rg.spec_stable() == true,
            rg.spec_rounding() == SizeRounding::Floor,
    {
        Self::default()
    }

    /// Creates an instance with volatile random number seed: the seed is
    /// drawn from machine entropy, so runs are not reproducible.
    pub fn auto_seed() -> (rg: Self)
        ensures
            rg.spec_stable() == true,
            rg.spec_rounding() == SizeRounding::Floor,
    {
        RandomGrouping {
            stable: true,
            rounding: SizeRounding::Floor,
            rng: Staff::new_own(Box::new(pcg_from_seed(random_seed()))),
        }
    }

    /// Creates an instance with the specified random number seed.
    pub fn from_seed(seed: u64) -> (rg: Self)
        ensures
            rg.spec_stable() == true,
            rg.spec_rounding() == SizeRounding::Floor,
    {
        RandomGrouping {
            stable: true,
            rounding: SizeRounding::Floor,
            rng: Staff::new_own(Box::new(pcg_from_seed(seed))),
        }
    }

    /// Creates an instance that borrows the caller's random number
    /// generator for its lifetime.
    pub fn from_rng(rng: &'r mut rand_pcg::Pcg32) -> (rg: Self)
        ensures
            rg.spec_stable() == true,
            rg.spec_rounding() == SizeRounding::Floor,
    {
        RandomGrouping { stable: true, rounding: SizeRounding::Floor, rng: Staff::new_borrow(rng) }
    }

    /// Returns `true` if the original order is kept at grouping.
    ///
    /// Default value is `true`.
    pub fn stable(&self) -> (r: bool)
        ensures
            r == self.spec_stable(),
    {
        self.stable
    }

    /// Returns the rounding strategy for group sizes.
    ///
    /// Default value is [`Floor`](SizeRounding::Floor).
    pub fn rounding(&self) -> (r: SizeRounding)
        ensures
            r == self.spec_rounding(),
    {
        self.rounding
    }

    /// Set the stable flag.
    ///
    /// See also [`stable`](Self::stable).
    pub fn with_stable(self, value: bool) -> (rg: Self)
        ensures
            rg.spec_stable() == value,
            rg.spec_rounding() == self.spec_rounding(),
            rg.spec_rng() == self.spec_rng(),
    {
        let mut rg = self;
        rg.stable = value;
        rg
    }

    /// Set the rounding strategy for group sizes.
    ///
    /// See also [`rounding`](Self::rounding).
    pub fn with_rounding(self, value: SizeRounding) -> (rg: Self)
        ensures
            rg.spec_stable() == self.spec_stable(),
            rg.spec_rounding() == value,
            rg.spec_rng() == self.spec_rng(),
    {
        let mut rg = self;
        rg.rounding = value;
        rg
    }

    /// Convert group ratios to group sizes with total length and the
    /// session's rounding strategy.
    pub fn ratios_to_sizes(&self, ratios: &Ratios, len: usize) -> (sizes: Vec<usize>)
        requires
            ratios_wellformed(ratios.nums@, ratios.den),
            ratios_fit(ratios.nums@, ratios.den),
        ensures
            sizes@ == resolved_sizes(self.spec_rounding(), ratios.nums@, ratios.den, len as int),
            sum_all(sizes@) <= len,
    {
        let sizes = resolve_sizes(self.rounding, ratios, len);
        proof {
            assert(sizes@ =~= resolved_sizes(
                self.spec_rounding(),
                ratios.nums@,
                ratios.den,
                len as int,
            ));
        }
        sizes
    }

    /// Group an owned collection, with specified sizes for each group.
    ///
    /// The collection is walked once in order; each group receives its
    /// elements in ascending input order, and when the session is not
    /// order-stable every group is reshuffled afterwards.
    ///
    /// Fails with [`GroupingError::Oversubscribed`] — before consuming any
    /// randomness — exactly when the sizes total more than the collection
    /// holds.
    pub fn divide_by_size<T>(&mut self, samples: Vec<T>, sizes: &[usize]) -> (r: Result<
        Vec<Vec<T>>,
        GroupingError,
    >)
        ensures
            final(self).spec_stable() == old(self).spec_stable(),
            final(self).spec_rounding() == old(self).spec_rounding(),
            r is Err <==> sum_all(sizes@) > samples@.len(),
            r is Err ==> r == Err::<Vec<Vec<T>>, GroupingError>(GroupingError::Oversubscribed)
                && final(self).spec_rng() == old(self).spec_rng(),
            sizes@.len() == 0 ==> final(self).spec_rng() == old(self).spec_rng(),
            r matches Ok(groups) ==> groups@.len() == sizes@.len(),
            r matches Ok(groups) ==> exists|idxs: Seq<usize>|
                valid_sample(idxs, samples@.len() as int, sum_all(sizes@)) && is_grouping(
                    samples@,
                    sizes@,
                    idxs,
                    old(self).spec_stable(),
                    groups_view(groups@),
                ),
    {
        let n = samples.len();
        let total = match total_of(sizes) {
            Some(t) => t,
            None => {
                return Err(GroupingError::Oversubscribed);
            },
        };
        if total > n {
            return Err(GroupingError::Oversubscribed);
        }
        if sizes.len() == 0 {
            let groups: Vec<Vec<T>> = Vec::new();
            proof {
                let idxs = Seq::<usize>::empty();
                assert(valid_sample(idxs, samples@.len() as int, sum_all(sizes@)));
                assert(is_grouping(
                    samples@,
                    sizes@,
                    idxs,
                    old(self).spec_stable(),
                    groups_view(groups@),
                ));
            }
            return Ok(groups);
        }
        let stable = self.stable;
        let idxs = sample_indices(self.rng.get_mut(), n, total);
        let ghost samples_view = samples@;
        let mut groups = bucket_by_indices(samples, sizes, idxs.as_slice());
        proof {
            assert forall|g: int| 0 <= g < sizes@.len() implies (#[trigger] groups_view(groups@)[g]).len() == sizes@[g] && groups_view(groups@)[g].to_multiset() == crate::grouping::select(
                samples_view,
                crate::grouping::chunk(idxs@, sizes@, g),
            ).to_multiset() by {
                lemma_chunk_bounds(idxs@, sizes@, n as int, g);
                lemma_sorted_chunk_multiset(samples_view, idxs@, sizes@, g);
            }
            assert(is_grouping(samples_view, sizes@, idxs@, true, groups_view(groups@)));
        }
        if !stable {
            let m = groups.len();
            let mut g: usize = 0;
            while g < m
                invariant
                    m == groups@.len(),
                    m == sizes@.len(),
                    self.spec_stable() == old(self).spec_stable(),
                    self.spec_rounding() == old(self).spec_rounding(),
                    is_grouping(samples_view, sizes@, idxs@, false, groups_view(groups@)),
                decreases m - g,
            {
                let ghost prev = groups@;
                shuffle_vec(self.rng.get_mut(), &mut groups[g]);
                proof {
                    assert forall|h: int|
                        0 <= h < m implies (#[trigger] groups_view(groups@)[h]).len() == sizes@[h]
                        && groups_view(groups@)[h].to_multiset() == crate::grouping::select(
                        samples_view,
                        crate::grouping::chunk(idxs@, sizes@, h),
                    ).to_multiset() by {
                        assert(groups_view(prev)[h].len() == sizes@[h]);
                        if h == g {
                            vstd::seq_lib::to_multiset_len(groups@[h]@);
                            vstd::seq_lib::to_multiset_len(prev[h]@);
                        } else {
                            assert(groups@[h] == prev[h]);
                        }
                    }
                    assert(is_grouping(samples_view, sizes@, idxs@, false, groups_view(groups@)));
                }
                g = g + 1;
            }
            proof {
                assert(valid_sample(idxs@, samples_view.len() as int, sum_all(sizes@)));
            }
            Ok(groups)
        } else {
            proof {
                assert(valid_sample(idxs@, samples_view.len() as int, sum_all(sizes@)));
            }
            Ok(groups)
        }
    }

    /// Group an owned collection, with specified ratios for each group.
    ///
    /// The ratios are validated first: a vector that denotes no ratios
    /// fails with [`GroupingError::InvalidRatio`], one whose total passes
    /// one fails with [`GroupingError::RatioOverflow`], both before any
    /// randomness is consumed. Valid ratios always succeed, since the
    /// resolved sizes provably fit the collection.
    pub fn divide_by_ratio<T>(&mut self, samples: Vec<T>, ratios: &Ratios) -> (r: Result<
        Vec<Vec<T>>,
        GroupingError,
    >)
        ensures
            final(self).spec_stable() == old(self).spec_stable(),
            final(self).spec_rounding() == old(self).spec_rounding(),
            r == Err::<Vec<Vec<T>>, GroupingError>(GroupingError::InvalidRatio)
                <==> !ratios_wellformed(ratios.nums@, ratios.den),
            r == Err::<Vec<Vec<T>>, GroupingError>(GroupingError::RatioOverflow)
                <==> ratios_wellformed(ratios.nums@, ratios.den) && !ratios_fit(
                ratios.nums@,
                ratios.den,
            ),
            r is Ok <==> ratios_wellformed(ratios.nums@, ratios.den) && ratios_fit(
                ratios.nums@,
                ratios.den,
            ),
            r is Err ==> final(self).spec_rng() == old(self).spec_rng(),
            ratios.nums@.len() == 0 ==> final(self).spec_rng() == old(self).spec_rng(),
            r matches Ok(groups) ==> groups@.len() == ratios.nums@.len(),
            r matches Ok(groups) ==> exists|idxs: Seq<usize>|
                valid_sample(
                    idxs,
                    samples@.len() as int,
                    sum_all(
                        resolved_sizes(
                            old(self).spec_rounding(),
                            ratios.nums@,
                            ratios.den,
                            samples@.len() as int,
                        ),
                    ),
                ) && is_grouping(
                    samples@,
                    resolved_sizes(
                        old(self).spec_rounding(),
                        ratios.nums@,
                        ratios.den,
                        samples@.len() as int,
                    ),
                    idxs,
                    old(self).spec_stable(),
                    groups_view(groups@),
                ),
    {
        match check_ratios(ratios) {
            Ok(_) => (),
            Err(e) => {
                return Err(e);
            },
        }
        let sizes = self.ratios_to_sizes(ratios, samples.len());
        let r = self.divide_by_size(samples, sizes.as_slice());
        r
    }

    /// Group a borrowed slice, with specified ratios for each group.
    ///
    /// Validation and resolution are as in
    /// [`divide_by_ratio`](Self::divide_by_ratio); the grouping itself is
    /// the slice path of [`divide_slice_by_size`](Self::divide_slice_by_size).
    pub fn divide_slice_by_ratio<'t, T>(&mut self, samples: &'t [T], ratios: &Ratios) -> (r: Result<
        Vec<Vec<&'t T>>,
        GroupingError,
    >)
        ensures
            final(self).spec_stable() == old(self).spec_stable(),
            final(self).spec_rounding() == old(self).spec_rounding(),
            r == Err::<Vec<Vec<&'t T>>, GroupingError>(GroupingError::InvalidRatio)
                <==> !ratios_wellformed(ratios.nums@, ratios.den),
            r == Err::<Vec<Vec<&'t T>>, GroupingError>(GroupingError::RatioOverflow)
                <==> ratios_wellformed(ratios.nums@, ratios.den) && !ratios_fit(
                ratios.nums@,
                ratios.den,
            ),
            r is Ok <==> ratios_wellformed(ratios.nums@, ratios.den) && ratios_fit(
                ratios.nums@,
                ratios.den,
            ),
            r is Err ==> final(self).spec_rng() == old(self).spec_rng(),
            ratios.nums@.len() == 0 ==> final(self).spec_rng() == old(self).spec_rng(),
            r matches Ok(groups) ==> groups@.len() == ratios.nums@.len(),
            r matches Ok(groups) ==> exists|idxs: Seq<usize>|
                valid_sample(
                    idxs,
                    samples@.len() as int,
                    sum_all(
                        resolved_sizes(
                            old(self).spec_rounding(),
                            ratios.nums@,
                            ratios.den,
                            samples@.len() as int,
                        ),
                    ),
                ) && is_grouping(
                    samples@,
                    resolved_sizes(
                        old(self).spec_rounding(),
                        ratios.nums@,
                        ratios.den,
                        samples@.len() as int,
                    ),
                    idxs,
                    old(self).spec_stable(),
                    ref_groups_view(groups@),
                ) && (forall|g: int|
                    0 <= g < ratios.nums@.len() ==> #[trigger] ref_groups_view(groups@)[g]
                        == select(
                        samples@,
                        group_indices(
                            idxs,
                            resolved_sizes(
                                old(self).spec_rounding(),
                                ratios.nums@,
                                ratios.den,
                                samples@.len() as int,
                            ),
                            g,
                            old(self).spec_stable(),
                        ),
                    )),
    {
        match check_ratios(ratios) {
            Ok(_) => (),
            Err(e) => {
                return Err(e);
            },
        }
        let sizes = self.ratios_to_sizes(ratios, samples.len());
        let r = self.divide_slice_by_size(samples, sizes.as_slice());
        r
    }

    /// Group a borrowed slice, with specified sizes for each group.
    ///
    /// The sampled order of the index buffer serves directly as the random
    /// assignment, so no reshuffle is needed; when the session is
    /// order-stable, each group's indices are put back in ascending order.
    ///
    /// Fails with [`GroupingError::Oversubscribed`] — before consuming any
    /// randomness — exactly when the sizes total more than the slice holds.
    pub fn divide_slice_by_size<'t, T>(&mut self, samples: &'t [T], sizes: &[usize]) -> (r: Result<
        Vec<Vec<&'t T>>,
        GroupingError,
    >)
        ensures
            final(self).spec_stable() == old(self).spec_stable(),
            final(self).spec_rounding() == old(self).spec_rounding(),
            r is Err <==> sum_all(sizes@) > samples@.len(),
            r is Err ==> r == Err::<Vec<Vec<&'t T>>, GroupingError>(GroupingError::Oversubscribed)
                && final(self).spec_rng() == old(self).spec_rng(),
            sizes@.len() == 0 ==> final(self).spec_rng() == old(self).spec_rng(),
            r matches Ok(groups) ==> groups@.len() == sizes@.len(),
            r matches Ok(groups) ==> exists|idxs: Seq<usize>|
                valid_sample(idxs, samples@.len() as int, sum_all(sizes@)) && is_grouping(
                    samples@,
                    sizes@,
                    idxs,
                    old(self).spec_stable(),
                    ref_groups_view(groups@),
                ) && (forall|g: int|
                    0 <= g < sizes@.len() ==> #[trigger] ref_groups_view(groups@)[g] == select(
                        samples@,
                        group_indices(idxs, sizes@, g, old(self).spec_stable()),
                    )),
    {
        let n = samples.len();
        let total = match total_of(sizes) {
            Some(t) => t,
            None => {
                return Err(GroupingError::Oversubscribed);
            },
        };
        if total > n {
            return Err(GroupingError::Oversubscribed);
        }
        if sizes.len() == 0 {
            let groups: Vec<Vec<&'t T>> = Vec::new();
            proof {
                let idxs = Seq::<usize>::empty();
                assert(valid_sample(idxs, samples@.len() as int, sum_all(sizes@)));
                assert(is_grouping(
                    samples@,
                    sizes@,
                    idxs,
                    old(self).spec_stable(),
                    ref_groups_view(groups@),
                ));
            }
            return Ok(groups);
        }
        let stable = self.stable;
        let idxs = sample_indices(self.rng.get_mut(), n, total);
        let groups = group_slice_by_indices(samples, sizes, idxs.as_slice(), stable);
        proof {
            assert forall|g: int| 0 <= g < sizes@.len() implies (#[trigger] ref_groups_view(groups@)[g]).len() == sizes@[g] && ref_groups_view(groups@)[g].to_multiset()
                == crate::grouping::select(
                samples@,
                crate::grouping::chunk(idxs@, sizes@, g),
            ).to_multiset() by {
                lemma_chunk_bounds(idxs@, sizes@, n as int, g);
                lemma_sorted_chunk_multiset(samples@, idxs@, sizes@, g);
            }
            assert(is_grouping(samples@, sizes@, idxs@, stable, ref_groups_view(groups@)));
            assert(valid_sample(idxs@, samples@.len() as int, sum_all(sizes@)));
        }
        Ok(groups)
    }
}

impl Default for RandomGrouping<'_> {
    /// A session with the default deterministic seed, order kept, floor
    /// rounding.
    fn default() -> (rg: Self)
        ensures
            rg.spec_stable() == true,
            rg.spec_rounding() == SizeRounding::Floor,
    {
        RandomGrouping {
            stable: true,
            rounding: SizeRounding::Floor,
            rng: Staff::new_own(Box::new(pcg_from_seed(0))),
        }
    }
}

} // verus!
