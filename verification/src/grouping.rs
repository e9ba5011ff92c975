//! The grouping model and the deterministic partitioners.
//!
//! A partition is determined by the sampled index buffer: the buffer is cut
//! into contiguous chunks whose lengths are the requested sizes, chunk `g`
//! holds the indices of group `g`, and a group is the input elements at
//! those indices — in sampled order, or in ascending order when the
//! original order is to be kept. The two functions here perform that
//! assignment for borrowed and for owned input; both are deterministic in
//! the index buffer, so their contracts are exact.

use crate::sized_iter::SizedIter;
use crate::sorting::{le_idx, lemma_sorted_is_sort_idxs, sort_idxs, sort_indices};
use crate::sums::{lemma_sum_prefix_monotone, lemma_sum_prefix_nonneg, sum_all, sum_prefix};
use vstd::prelude::*;
use vstd::relations::sorted_by;

verus! {

/// `k` pairwise distinct indices below `n`.
pub open spec fn valid_sample(idxs: Seq<usize>, n: int, k: int) -> bool {
    &&& idxs.len() == k
    &&& forall|i: int| 0 <= i < idxs.len() ==> idxs[i] < n
    &&& forall|i: int, j: int| 0 <= i < j < idxs.len() ==> idxs[i] != idxs[j]
}

/// The contiguous slice of the sampled index buffer that belongs to group `g`.
pub open spec fn chunk(idxs: Seq<usize>, sizes: Seq<usize>, g: int) -> Seq<usize> {
    idxs.subrange(sum_prefix(sizes, g), sum_prefix(sizes, g + 1))
}

/// Group `g`'s sampled indices in ascending order.
pub open spec fn sorted_chunk(idxs: Seq<usize>, sizes: Seq<usize>, g: int) -> Seq<usize> {
    sort_idxs(chunk(idxs, sizes, g))
}

/// The elements of `s` at positions `js`, in that order.
pub open spec fn select<T>(s: Seq<T>, js: Seq<usize>) -> Seq<T> {
    js.map_values(|j: usize| s[j as int])
}

/// A sequence of references, dereferenced.
pub open spec fn deref_seq<T>(s: Seq<&T>) -> Seq<T> {
    s.map_values(|x: &T| *x)
}

/// Owned groups, seen as plain sequences.
pub open spec fn groups_view<T>(groups: Seq<Vec<T>>) -> Seq<Seq<T>> {
    groups.map_values(|g: Vec<T>| g@)
}

/// Borrowed groups, seen as plain sequences of the referenced values.
pub open spec fn ref_groups_view<T>(groups: Seq<Vec<&T>>) -> Seq<Seq<T>> {
    groups.map_values(|g: Vec<&T>| deref_seq(g@))
}

/// The indices of group `g`: its chunk, ascending when `stable` holds.
pub open spec fn group_indices(idxs: Seq<usize>, sizes: Seq<usize>, g: int, stable: bool) -> Seq<
    usize,
> {
    if stable {
        sorted_chunk(idxs, sizes, g)
    } else {
        chunk(idxs, sizes, g)
    }
}

/// What a finished partition looks like, given the sampled index buffer:
/// one group per requested size, of exactly that size, each holding the
/// input elements of its chunk — exactly those elements in any case, and
/// in the chunk's order (ascending when `stable`) unless a later shuffle
/// rearranged a group.
pub open spec fn is_grouping<T>(
    samples: Seq<T>,
    sizes: Seq<usize>,
    idxs: Seq<usize>,
    stable: bool,
    groups: Seq<Seq<T>>,
) -> bool {
    &&& groups.len() == sizes.len()
    &&& forall|g: int| 0 <= g < groups.len() ==> (#[trigger] groups[g]).len() == sizes[g]
    &&& forall|g: int|
        0 <= g < groups.len() ==> (#[trigger] groups[g]).to_multiset() == select(
            samples,
            chunk(idxs, sizes, g),
        ).to_multiset()
    &&& stable ==> forall|g: int|
        0 <= g < groups.len() ==> #[trigger] groups[g] == select(
            samples,
            sorted_chunk(idxs, sizes, g),
        )
}

/// Chunk bounds: every chunk is a well-formed slice of the index buffer.
pub proof fn lemma_chunk_bounds(idxs: Seq<usize>, sizes: Seq<usize>, n: int, g: int)
    requires
        valid_sample(idxs, n, sum_all(sizes)),
        0 <= g < sizes.len(),
    ensures
        0 <= sum_prefix(sizes, g),
        sum_prefix(sizes, g) + sizes[g] == sum_prefix(sizes, g + 1),
        sum_prefix(sizes, g + 1) <= idxs.len(),
        chunk(idxs, sizes, g).len() == sizes[g],
{
    lemma_sum_prefix_nonneg(sizes, g);
    lemma_sum_prefix_monotone(sizes, g + 1, sizes.len() as int);
}

/// Cut each group's chunk out of the index buffer, sort it when the
/// original order is to be kept, and materialize references into `samples`.
pub fn group_slice_by_indices<'t, T>(
    samples: &'t [T],
    sizes: &[usize],
    idxs: &[usize],
    stable: bool,
) -> (groups: Vec<Vec<&'t T>>)
    requires
        valid_sample(idxs@, samples@.len() as int, sum_all(sizes@)),
    ensures
        groups@.len() == sizes@.len(),
        forall|g: int|
            0 <= g < groups@.len() ==> deref_seq((#[trigger] groups@[g])@) == select(
                samples@,
                group_indices(idxs@, sizes@, g, stable),
            ),
{
    let k = idxs.len();
    let mut groups: Vec<Vec<&'t T>> = Vec::new();
    let mut pos: usize = 0;
    let mut g: usize = 0;
    while g < sizes.len()
        invariant
            valid_sample(idxs@, samples@.len() as int, sum_all(sizes@)),
            k == idxs@.len(),
            g <= sizes@.len(),
            pos == sum_prefix(sizes@, g as int),
            groups@.len() == g,
            forall|h: int|
                0 <= h < g ==> deref_seq((#[trigger] groups@[h])@) == select(
                    samples@,
                    group_indices(idxs@, sizes@, h, stable),
                ),
        decreases sizes@.len() - g,
    {
        proof {
            lemma_chunk_bounds(idxs@, sizes@, samples@.len() as int, g as int);
        }
        let size = sizes[g];
        let mut chunk_v: Vec<usize> = Vec::new();
        let mut j: usize = 0;
        while j < size
            invariant
                j <= size,
                k == idxs@.len(),
                pos + size <= k,
                chunk_v@.len() == j,
                forall|i: int| 0 <= i < j ==> chunk_v@[i] == idxs@[pos + i],
            decreases size - j,
        {
            chunk_v.push(idxs[pos + j]);
            j = j + 1;
        }
        proof {
            assert(chunk_v@ =~= chunk(idxs@, sizes@, g as int));
        }
        let picked = if stable {
            sort_indices(chunk_v)
        } else {
            chunk_v
        };
        proof {
            assert(picked@ == group_indices(idxs@, sizes@, g as int, stable));
            assert forall|i: int| 0 <= i < picked@.len() implies picked@[i]
                < samples@.len() by {
                if stable {
                    let c = chunk(idxs@, sizes@, g as int);
                    crate::sorting::lemma_sort_idxs_ensures(c);
                    vstd::seq_lib::to_multiset_contains(c, picked@[i]);
                    vstd::seq_lib::to_multiset_contains(sort_idxs(c), picked@[i]);
                    assert(c.contains(picked@[i]));
                }
            }
        }
        let mut group: Vec<&'t T> = Vec::new();
        let mut j: usize = 0;
        while j < picked.len()
            invariant
                j <= picked@.len(),
                group@.len() == j,
                forall|i: int| 0 <= i < picked@.len() ==> picked@[i] < samples@.len(),
                forall|i: int| 0 <= i < j ==> *(#[trigger] group@[i]) == samples@[picked@[i] as int],
            decreases picked@.len() - j,
        {
            group.push(&samples[picked[j]]);
            j = j + 1;
        }
        proof {
            assert(deref_seq(group@) =~= select(samples@, picked@));
        }
        groups.push(group);
        pos = pos + size;
        g = g + 1;
    }
    groups
}

/// The positions below `upto` that the lookup maps to group `g`, ascending.
pub open spec fn hits(assign: Seq<Option<usize>>, g: usize, upto: int) -> Seq<usize>
    decreases upto,
{
    if upto <= 0 {
        Seq::empty()
    } else {
        let rest = hits(assign, g, upto - 1);
        if assign[upto - 1] == Some(g) {
            rest.push((upto - 1) as usize)
        } else {
            rest
        }
    }
}

/// The hit positions of a group are exactly the positions the lookup maps
/// to it, listed strictly ascending.
proof fn lemma_hits_props(assign: Seq<Option<usize>>, g: usize, upto: int)
    requires
        0 <= upto <= usize::MAX,
    ensures
        forall|i: int|
            0 <= i < hits(assign, g, upto).len() ==> #[trigger] hits(assign, g, upto)[i] < upto
                && assign[hits(assign, g, upto)[i] as int] == Some(g),
        forall|i: int, j: int|
            0 <= i < j < hits(assign, g, upto).len() ==> hits(assign, g, upto)[i] < hits(
                assign,
                g,
                upto,
            )[j],
        forall|x: usize|
            0 <= x < upto && assign[x as int] == Some(g) ==> hits(assign, g, upto).contains(x),
    decreases upto,
{
    if upto > 0 {
        lemma_hits_props(assign, g, upto - 1);
        let rest = hits(assign, g, upto - 1);
        let cur = hits(assign, g, upto);
        assert forall|i: int|
            0 <= i < cur.len() implies #[trigger] cur[i] < upto && assign[cur[i] as int] == Some(
            g,
        ) by {
            if assign[upto - 1] == Some(g) {
                if i < rest.len() {
                    assert(cur[i] == rest[i]);
                } else {
                    assert(cur[i] == (upto - 1) as usize);
                }
            } else {
                assert(cur[i] == rest[i]);
            }
        }
        assert forall|i: int, j: int| 0 <= i < j < cur.len() implies cur[i] < cur[j] by {
            if assign[upto - 1] == Some(g) {
                if j < rest.len() {
                    assert(rest[i] < rest[j]);
                } else {
                    assert(cur[i] == rest[i]);
                    assert(rest[i] < upto - 1);
                }
            } else {
                assert(rest[i] < rest[j]);
            }
        }
        assert forall|x: usize|
            0 <= x < upto && assign[x as int] == Some(g) implies cur.contains(x) by {
            if x < upto - 1 {
                assert(rest.contains(x));
                let i = choose|i: int| 0 <= i < rest.len() && rest[i] == x;
                assert(cur[i] == x);
            } else {
                assert(x == upto - 1);
                assert(assign[upto - 1] == Some(g));
                assert(cur[cur.len() - 1] == x);
            }
        }
    }
}

/// Two duplicate-free sequences with the same members hold the same multiset.
proof fn lemma_same_members_same_multiset(a: Seq<usize>, b: Seq<usize>)
    requires
        a.no_duplicates(),
        b.no_duplicates(),
        forall|x: usize| a.contains(x) <==> b.contains(x),
    ensures
        a.to_multiset() == b.to_multiset(),
{
    broadcast use vstd::multiset::group_multiset_axioms;

    a.lemma_multiset_has_no_duplicates();
    b.lemma_multiset_has_no_duplicates();
    assert forall|x: usize| a.to_multiset().count(x) == b.to_multiset().count(x) by {
        vstd::seq_lib::to_multiset_contains(a, x);
        vstd::seq_lib::to_multiset_contains(b, x);
    }
    assert(a.to_multiset() =~= b.to_multiset());
}

/// Selecting along rearranged positions rearranges the selection: the
/// selected elements are kept as a multiset.
pub proof fn lemma_select_multiset<T>(s: Seq<T>, js1: Seq<usize>, js2: Seq<usize>)
    requires
        js1.to_multiset() == js2.to_multiset(),
    ensures
        select(s, js1).to_multiset() == select(s, js2).to_multiset(),
    decreases js1.len(),
{
    broadcast use vstd::multiset::group_multiset_axioms;

    vstd::seq_lib::to_multiset_len(js1);
    vstd::seq_lib::to_multiset_len(js2);
    if js1.len() == 0 {
        assert(select(s, js1) =~= select(s, js2));
    } else {
        let x = js1.last();
        let js1p = js1.drop_last();
        assert(js1p.push(x) =~= js1);
        vstd::seq_lib::to_multiset_build(js1p, x);
        assert(js1.contains(x));
        vstd::seq_lib::to_multiset_contains(js1, x);
        vstd::seq_lib::to_multiset_contains(js2, x);
        let i = choose|i: int| 0 <= i < js2.len() && js2[i] == x;
        let js2p = js2.remove(i);
        vstd::seq_lib::to_multiset_remove(js2, i);
        assert(js1p.to_multiset() =~= js2p.to_multiset());
        lemma_select_multiset(s, js1p, js2p);
        assert(select(s, js1) =~= select(s, js1p).push(s[x as int]));
        vstd::seq_lib::to_multiset_build(select(s, js1p), s[x as int]);
        assert(select(s, js2p) =~= select(s, js2).remove(i));
        vstd::seq_lib::to_multiset_remove(select(s, js2), i);
        assert(select(s, js2)[i] == s[x as int]);
        assert(select(s, js2).contains(select(s, js2)[i]));
        vstd::seq_lib::to_multiset_contains(select(s, js2), s[x as int]);
        assert(select(s, js1).to_multiset() =~= select(s, js2).to_multiset());
    }
}

/// A sorted chunk holds the same indices as the chunk itself.
pub proof fn lemma_sorted_chunk_multiset<T>(s: Seq<T>, idxs: Seq<usize>, sizes: Seq<usize>, g: int)
    ensures
        sorted_chunk(idxs, sizes, g).to_multiset() == chunk(idxs, sizes, g).to_multiset(),
        select(s, sorted_chunk(idxs, sizes, g)).to_multiset() == select(
            s,
            chunk(idxs, sizes, g),
        ).to_multiset(),
        sorted_chunk(idxs, sizes, g).len() == chunk(idxs, sizes, g).len(),
{
    crate::sorting::lemma_sort_idxs_ensures(chunk(idxs, sizes, g));
    lemma_select_multiset(s, sorted_chunk(idxs, sizes, g), chunk(idxs, sizes, g));
}

/// Groups take their elements from the input, one group per requested
/// size and of exactly that size, and no two groups touch the same input
/// position: the chunks of distinct sampled indices are pairwise disjoint.
pub proof fn lemma_grouping_covers<T>(
    samples: Seq<T>,
    sizes: Seq<usize>,
    idxs: Seq<usize>,
    stable: bool,
    groups: Seq<Seq<T>>,
)
    requires
        valid_sample(idxs, samples.len() as int, sum_all(sizes)),
        is_grouping(samples, sizes, idxs, stable, groups),
    ensures
        groups.len() == sizes.len(),
        forall|g: int| 0 <= g < groups.len() ==> (#[trigger] groups[g]).len() == sizes[g],
        forall|g: int, j: int|
            0 <= g < groups.len() && 0 <= j < groups[g].len() ==> samples.contains(
                #[trigger] groups[g][j],
            ),
        forall|g1: int, g2: int, i1: int, i2: int|
            0 <= g1 < sizes.len() && 0 <= g2 < sizes.len() && g1 != g2 && 0 <= i1 < chunk(
                idxs,
                sizes,
                g1,
            ).len() && 0 <= i2 < chunk(idxs, sizes, g2).len() ==> #[trigger] chunk(
                idxs,
                sizes,
                g1,
            )[i1] != #[trigger] chunk(idxs, sizes, g2)[i2],
{
    broadcast use vstd::multiset::group_multiset_axioms;

    assert forall|g: int, j: int|
        0 <= g < groups.len() && 0 <= j < groups[g].len() implies samples.contains(
        #[trigger] groups[g][j],
    ) by {
        lemma_chunk_bounds(idxs, sizes, samples.len() as int, g);
        let e = groups[g][j];
        assert(groups[g].contains(e));
        vstd::seq_lib::to_multiset_contains(groups[g], e);
        vstd::seq_lib::to_multiset_contains(select(samples, chunk(idxs, sizes, g)), e);
        let p = choose|p: int|
            0 <= p < select(samples, chunk(idxs, sizes, g)).len() && select(
                samples,
                chunk(idxs, sizes, g),
            )[p] == e;
        assert(samples[chunk(idxs, sizes, g)[p] as int] == e);
        assert(idxs[sum_prefix(sizes, g) + p] == chunk(idxs, sizes, g)[p]);
        assert(chunk(idxs, sizes, g)[p] < samples.len());
    }
    assert forall|g1: int, g2: int, i1: int, i2: int|
        0 <= g1 < sizes.len() && 0 <= g2 < sizes.len() && g1 != g2 && 0 <= i1 < chunk(
            idxs,
            sizes,
            g1,
        ).len() && 0 <= i2 < chunk(idxs, sizes, g2).len() implies #[trigger] chunk(
        idxs,
        sizes,
        g1,
    )[i1] != #[trigger] chunk(idxs, sizes, g2)[i2] by {
        lemma_chunk_bounds(idxs, sizes, samples.len() as int, g1);
        lemma_chunk_bounds(idxs, sizes, samples.len() as int, g2);
        if g1 < g2 {
            lemma_sum_prefix_monotone(sizes, g1 + 1, g2);
        } else {
            lemma_sum_prefix_monotone(sizes, g2 + 1, g1);
        }
    }
}

/// When the original order is kept, every group lists its input
/// positions strictly ascending: the group is a subsequence of the input.
pub proof fn lemma_sorted_chunk_ascending(idxs: Seq<usize>, sizes: Seq<usize>, n: int, g: int)
    requires
        valid_sample(idxs, n, sum_all(sizes)),
        0 <= g < sizes.len(),
    ensures
        forall|i1: int, i2: int|
            0 <= i1 < i2 < sorted_chunk(idxs, sizes, g).len() ==> #[trigger] sorted_chunk(
                idxs,
                sizes,
                g,
            )[i1] < #[trigger] sorted_chunk(idxs, sizes, g)[i2],
{
    broadcast use vstd::multiset::group_multiset_axioms;

    let c = chunk(idxs, sizes, g);
    let sc = sorted_chunk(idxs, sizes, g);
    lemma_chunk_bounds(idxs, sizes, n, g);
    crate::sorting::lemma_sort_idxs_ensures(c);
    assert(c.no_duplicates());
    c.lemma_multiset_has_no_duplicates();
    sc.lemma_multiset_has_no_duplicates_conv();
    assert forall|i1: int, i2: int|
        0 <= i1 < i2 < sc.len() implies #[trigger] sc[i1] < #[trigger] sc[i2] by {
        assert(le_idx()(sc[i1], sc[i2]));
    }
}

/// An order-stable grouping takes every group from strictly increasing
/// input positions: each group is a subsequence of the input.
pub proof fn lemma_stable_grouping_subsequence<T>(
    samples: Seq<T>,
    sizes: Seq<usize>,
    idxs: Seq<usize>,
    groups: Seq<Seq<T>>,
)
    requires
        valid_sample(idxs, samples.len() as int, sum_all(sizes)),
        is_grouping(samples, sizes, idxs, true, groups),
    ensures
        forall|g: int|
            #![trigger groups[g]]
            0 <= g < groups.len() ==> groups[g] == select(samples, sorted_chunk(idxs, sizes, g)),
        forall|g: int, i1: int, i2: int|
            0 <= g < sizes.len() && 0 <= i1 < i2 < sorted_chunk(idxs, sizes, g).len()
                ==> #[trigger] sorted_chunk(idxs, sizes, g)[i1] < #[trigger] sorted_chunk(
                idxs,
                sizes,
                g,
            )[i2],
{
    assert forall|g: int, i1: int, i2: int|
        0 <= g < sizes.len() && 0 <= i1 < i2 < sorted_chunk(idxs, sizes, g).len()
            implies #[trigger] sorted_chunk(idxs, sizes, g)[i1] < #[trigger] sorted_chunk(
        idxs,
        sizes,
        g,
    )[i2] by {
        lemma_sorted_chunk_ascending(idxs, sizes, samples.len() as int, g);
    }
}

/// A zero size inserted in the middle of the size vector yields an empty
/// group at that position and leaves every other group's contents as they
/// were, for the same sampled index buffer.
pub proof fn lemma_zero_size_group_insertion<T>(
    samples: Seq<T>,
    sizes: Seq<usize>,
    idxs: Seq<usize>,
    stable: bool,
    groups: Seq<Seq<T>>,
    wider: Seq<Seq<T>>,
    i: int,
)
    requires
        0 <= i <= sizes.len(),
        is_grouping(samples, sizes, idxs, stable, groups),
        is_grouping(samples, sizes.insert(i, 0), idxs, stable, wider),
    ensures
        wider.len() == groups.len() + 1,
        wider[i].len() == 0,
        forall|g: int|
            0 <= g < i ==> (#[trigger] wider[g]).to_multiset() == groups[g].to_multiset(),
        forall|g: int|
            i < g < wider.len() ==> (#[trigger] wider[g]).to_multiset() == groups[g
                - 1].to_multiset(),
        stable ==> forall|g: int| 0 <= g < i ==> #[trigger] wider[g] == groups[g],
        stable ==> forall|g: int| i < g < wider.len() ==> #[trigger] wider[g] == groups[g - 1],
{
    let sizes2 = sizes.insert(i, 0);
    assert forall|g: int| 0 <= g < i implies chunk(idxs, sizes2, g) == chunk(idxs, sizes, g) by {
        lemma_sum_prefix_insert_zero(sizes, i, g);
        lemma_sum_prefix_insert_zero(sizes, i, g + 1);
        assert(chunk(idxs, sizes2, g) =~= chunk(idxs, sizes, g));
    }
    assert forall|g: int|
        i < g < sizes2.len() implies chunk(idxs, sizes2, g) == chunk(idxs, sizes, g - 1) by {
        lemma_sum_prefix_insert_zero(sizes, i, g);
        lemma_sum_prefix_insert_zero(sizes, i, g + 1);
        assert(chunk(idxs, sizes2, g) =~= chunk(idxs, sizes, g - 1));
    }
}

/// Inserting a zero entry shifts the prefix sums without changing them.
pub proof fn lemma_sum_prefix_insert_zero(sizes: Seq<usize>, i: int, g: int)
    requires
        0 <= i <= sizes.len(),
        0 <= g <= sizes.len() + 1,
    ensures
        g <= i ==> sum_prefix(sizes.insert(i, 0), g) == sum_prefix(sizes, g),
        g > i ==> sum_prefix(sizes.insert(i, 0), g) == sum_prefix(sizes, g - 1),
    decreases g,
{
    if g > 0 {
        lemma_sum_prefix_insert_zero(sizes, i, g - 1);
    }
}

/// Walk the input once in index order, moving each sampled element into
/// its group; every group comes out in ascending index order.
///
/// The index-to-group lookup is a direct-address table over the input
/// positions, which the single forward pass probes in increasing order.
pub fn bucket_by_indices<T>(samples: Vec<T>, sizes: &[usize], idxs: &[usize]) -> (groups: Vec<
    Vec<T>,
>)
    requires
        valid_sample(idxs@, samples@.len() as int, sum_all(sizes@)),
    ensures
        groups@.len() == sizes@.len(),
        forall|g: int|
            0 <= g < groups@.len() ==> (#[trigger] groups@[g])@ == select(
                samples@,
                sorted_chunk(idxs@, sizes@, g),
            ),
{
    let ghost orig = samples@;
    let n = samples.len();
    let k = idxs.len();
    let m = sizes.len();

    let mut assign: Vec<Option<usize>> = vec![None; n];
    let mut pos: usize = 0;
    let mut g: usize = 0;
    while g < m
        invariant
            valid_sample(idxs@, n as int, sum_all(sizes@)),
            m == sizes@.len(),
            k == idxs@.len(),
            assign@.len() == n,
            g <= m,
            pos == sum_prefix(sizes@, g as int),
            forall|h: int, p: int|
                #![trigger sum_prefix(sizes@, h), idxs@[p]]
                0 <= h < g && sum_prefix(sizes@, h) <= p < sum_prefix(sizes@, h + 1)
                    ==> assign@[idxs@[p] as int] == Some(h as usize),
            forall|x: int, h: usize|
                0 <= x < n && assign@[x] == Some(h) ==> h < m && exists|p: int|
                    sum_prefix(sizes@, h as int) <= p < sum_prefix(sizes@, h as int + 1) && p < pos
                        && idxs@[p] == x,
        decreases m - g,
    {
        proof {
            lemma_chunk_bounds(idxs@, sizes@, n as int, g as int);
        }
        let size = sizes[g];
        let mut j: usize = 0;
        while j < size
            invariant
                valid_sample(idxs@, n as int, sum_all(sizes@)),
                m == sizes@.len(),
                k == idxs@.len(),
                assign@.len() == n,
                g < m,
                size == sizes@[g as int],
                j <= size,
                pos == sum_prefix(sizes@, g as int),
                pos + size <= k,
                forall|h: int, p: int|
                    #![trigger sum_prefix(sizes@, h), idxs@[p]]
                    0 <= h < g && sum_prefix(sizes@, h) <= p < sum_prefix(sizes@, h + 1)
                        ==> assign@[idxs@[p] as int] == Some(h as usize),
                forall|p: int| pos <= p < pos + j ==> assign@[idxs@[p] as int] == Some(g),
                forall|x: int, h: usize|
                    0 <= x < n && assign@[x] == Some(h) ==> h < m && exists|p: int|
                        sum_prefix(sizes@, h as int) <= p < sum_prefix(sizes@, h as int + 1) && p
                            < pos + j && idxs@[p] == x,
            decreases size - j,
        {
            let ghost prev = assign@;
            let ii = idxs[pos + j];
            assign[ii] = Some(g);
            proof {
                assert forall|h: int, p: int|
                    #![trigger sum_prefix(sizes@, h), idxs@[p]]
                    0 <= h < g && sum_prefix(sizes@, h) <= p < sum_prefix(sizes@, h + 1)
                        implies assign@[idxs@[p] as int] == Some(h as usize) by {
                    lemma_sum_prefix_monotone(sizes@, h + 1, g as int);
                    lemma_sum_prefix_nonneg(sizes@, h);
                    assert(idxs@[p] != idxs@[pos + j]);
                }
                assert forall|p: int|
                    pos <= p < pos + j + 1 implies assign@[idxs@[p] as int] == Some(g) by {
                    if p < pos + j {
                        assert(idxs@[p] != idxs@[pos + j]);
                        assert(prev[idxs@[p] as int] == Some(g));
                    }
                }
            }
            j = j + 1;
        }
        pos = pos + size;
        g = g + 1;
        proof {
            assert forall|h: int, p: int|
                #![trigger sum_prefix(sizes@, h), idxs@[p]]
                0 <= h < g && sum_prefix(sizes@, h) <= p < sum_prefix(sizes@, h + 1)
                    implies assign@[idxs@[p] as int] == Some(h as usize) by {
                lemma_sum_prefix_nonneg(sizes@, h);
            }
        }
    }

    proof {
        lemma_sum_prefix_monotone(sizes@, 0, m as int);
        assert(pos == sum_all(sizes@));
        assert forall|h: int, x: usize|
            0 <= h < m implies (chunk(idxs@, sizes@, h).contains(x) <==> (x < n && assign@[x as int]
            == Some(h as usize))) by {
            lemma_chunk_bounds(idxs@, sizes@, n as int, h);
            if chunk(idxs@, sizes@, h).contains(x) {
                let j = choose|j: int|
                    0 <= j < chunk(idxs@, sizes@, h).len() && chunk(idxs@, sizes@, h)[j] == x;
                assert(idxs@[sum_prefix(sizes@, h) + j] == x);
            }
            if x < n && assign@[x as int] == Some(h as usize) {
                let p = choose|p: int|
                    sum_prefix(sizes@, h) <= p < sum_prefix(sizes@, h + 1) && p < pos && idxs@[p]
                        == x;
                assert(chunk(idxs@, sizes@, h)[p - sum_prefix(sizes@, h)] == x);
            }
        }
    }

    let mut groups: Vec<Vec<T>> = Vec::new();
    let mut gi: usize = 0;
    while gi < m
        invariant
            gi <= m,
            groups@.len() == gi,
            forall|g2: int| 0 <= g2 < gi ==> (#[trigger] groups@[g2])@ == Seq::<T>::empty(),
        decreases m - gi,
    {
        groups.push(Vec::new());
        gi = gi + 1;
    }

    let mut it = SizedIter::new(samples);
    let mut idx: usize = 0;
    proof {
        assert(it.remaining() =~= orig.skip(0));
        assert forall|g2: usize| g2 < m implies (#[trigger] groups@[g2 as int])@ == select(
            orig,
            hits(assign@, g2, 0),
        ) by {
            assert(groups@[g2 as int]@ =~= select(orig, hits(assign@, g2, 0)));
        }
    }
    while idx < n
        invariant
            n == orig.len(),
            assign@.len() == n,
            groups@.len() == m,
            idx <= n,
            it.remaining() == orig.skip(idx as int),
            forall|x: int, h: usize| 0 <= x < n && assign@[x] == Some(h) ==> h < m,
            forall|g2: usize|
                g2 < m ==> (#[trigger] groups@[g2 as int])@ == select(
                    orig,
                    hits(assign@, g2, idx as int),
                ),
        decreases n - idx,
    {
        let x = match it.next() {
            Some(x) => x,
            None => {
                proof {
                    assert(false);
                }
                unreached()
            },
        };
        let ghost prev_groups = groups@;
        match assign[idx] {
            Some(h) => {
                groups[h].push(x);
            },
            None => {},
        }
        proof {
            assert(orig.skip(idx as int).drop_first() =~= orig.skip(idx as int + 1));
            assert(x == orig[idx as int]);
            assert forall|g2: usize| g2 < m implies (#[trigger] groups@[g2 as int])@ == select(
                orig,
                hits(assign@, g2, idx as int + 1),
            ) by {
                let before = hits(assign@, g2, idx as int);
                if assign@[idx as int] == Some(g2) {
                    assert(groups@[g2 as int]@ == prev_groups[g2 as int]@.push(x));
                    assert(select(orig, before.push(idx)) =~= select(orig, before).push(
                        orig[idx as int],
                    ));
                } else {
                    assert(groups@[g2 as int]@ == prev_groups[g2 as int]@);
                }
            }
        }
        idx = idx + 1;
    }

    proof {
        assert forall|g2: int| 0 <= g2 < m implies (#[trigger] groups@[g2])@ == select(
            orig,
            sorted_chunk(idxs@, sizes@, g2),
        ) by {
            let c = chunk(idxs@, sizes@, g2);
            let h = hits(assign@, g2 as usize, n as int);
            lemma_hits_props(assign@, g2 as usize, n as int);
            lemma_chunk_bounds(idxs@, sizes@, n as int, g2);
            assert(c.no_duplicates());
            assert(h.no_duplicates());
            assert(sorted_by(h, le_idx()));
            assert forall|x: usize| c.contains(x) <==> h.contains(x) by {
                if h.contains(x) {
                    let i = choose|i: int| 0 <= i < h.len() && h[i] == x;
                    assert(assign@[x as int] == Some(g2 as usize));
                }
            }
            lemma_same_members_same_multiset(c, h);
            lemma_sorted_is_sort_idxs(c, h);
        }
    }
    groups
}

} // verus!
