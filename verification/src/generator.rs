//! Producers of triples for queries.
//!
//! Every producer answers a pull. A pull names the number of triples that
//! the next query would like to have, and yields a finite sequence of triples
//! that may be shorter than that.

use crate::error::Error;
use crate::triples::{
    key_lt, key_of, keys_of, non_decreasing, strictly_increasing, CompressedRdfTriples, TripleKey,
};
use rand::rngs::SmallRng;
use rand::{Rng, SeedableRng};
use vstd::prelude::*;

verus! {

/// The small, fast random number generator of `rand`.
#[verifier::external_type_specification]
#[verifier::external_body]
pub struct ExSmallRng(SmallRng);

/// Calls `SmallRng::seed_from_u64`, which makes a generator from a seed.
/// Nothing is promised of what the generator will give.
#[verifier::external_body]
pub(crate) fn seeded_rng(seed: u64) -> SmallRng {
    SmallRng::seed_from_u64(seed)
}

/// Calls `gen_range` of the generator with the range from zero up to, and
/// without, `bound`. The range must not be empty; the number drawn lies in it.
#[verifier::external_body]
fn random_below(rng: &mut SmallRng, bound: usize) -> (i: usize)
    requires
        bound > 0,
    ensures
        i < bound,
{
    rng.gen_range(0..bound)
}

/// Calls `rand::seq::index::sample`, which draws exactly `amount` distinct
/// indices below `length`, in random order, and which needs `amount` to be
/// at most `length`. For a `length` beyond 32 bits it draws by rejection,
/// and then wants `amount` to be less than `length`.
#[verifier::external_body]
fn sample_indices(rng: &mut SmallRng, length: usize, amount: usize) -> (indices: Vec<usize>)
    requires
        amount <= length,
        length <= 0xffff_ffff || amount < length,
    ensures
        indices@.len() == amount,
        forall|k: int| 0 <= k < indices@.len() ==> indices@[k] < length,
        indices@.no_duplicates(),
{
    rand::seq::index::sample(rng, length, amount).into_vec()
}

/// The triples of a dataset at the given positions.
pub open spec fn picked(dataset: Seq<TripleKey>, indices: Seq<usize>) -> Seq<TripleKey> {
    Seq::new(indices.len(), |k: int| dataset[indices[k] as int])
}

/// Triples at distinct positions of a dataset without repeated triples are
/// distinct triples.
pub proof fn lemma_picked_distinct(dataset: Seq<TripleKey>, indices: Seq<usize>)
    requires
        strictly_increasing(dataset),
        indices.no_duplicates(),
        forall|k: int| 0 <= k < indices.len() ==> indices[k] < dataset.len(),
    ensures
        picked(dataset, indices).no_duplicates(),
{
    let p = picked(dataset, indices);
    assert forall|a: int, b: int| 0 <= a < p.len() && 0 <= b < p.len() && a != b implies p[a]
        != p[b] by {
        let x = indices[a] as int;
        let y = indices[b] as int;
        if x < y {
            assert(key_lt(dataset[x], dataset[y]));
        } else {
            assert(key_lt(dataset[y], dataset[x]));
        }
    }
}

/// Draws triples of a dataset at random: each pull draws each of its triples
/// anew from the whole dataset, so that a triple may come more than once.
pub struct RandomTriples<'a> {
    triples: &'a CompressedRdfTriples,
    rng: SmallRng,
}

impl<'a> RandomTriples<'a> {
    /// The dataset that the triples are drawn from.
    pub closed spec fn dataset(&self) -> Seq<TripleKey> {
        self.triples@
    }

    /// What a pull does: it yields `size_hint` triples of the dataset, or
    /// none from an empty dataset, and leaves the dataset as it is.
    pub open spec fn pulled(self, after: Self, size_hint: usize, r: Vec<[u64; 3]>) -> bool {
        &&& after.dataset() == self.dataset()
        &&& self.dataset().len() > 0 ==> r@.len() == size_hint
        &&& self.dataset().len() == 0 ==> r@.len() == 0
        &&& forall|k: int| 0 <= k < r@.len() ==> self.dataset().contains(key_of(#[trigger] r@[k]))
    }

    /// Draws `size_hint` triples, or none from an empty dataset.
    pub fn pull(&mut self, size_hint: usize) -> (r: Vec<[u64; 3]>)
        ensures
            old(self).pulled(*final(self), size_hint, r),
    {
        let mut out: Vec<[u64; 3]> = Vec::new();
        let n = self.triples.len();
        if n == 0 {
            return out;
        }
        let mut drawn: usize = 0;
        while drawn < size_hint
            invariant
                self.dataset() == old(self).dataset(),
                n == self.dataset().len(),
                n > 0,
                drawn <= size_hint,
                out@.len() == drawn,
                forall|k: int|
                    0 <= k < out@.len() ==> self.dataset().contains(key_of(#[trigger] out@[k])),
            decreases size_hint - drawn,
        {
            let i = random_below(&mut self.rng, n);
            let t = self.triples.get(i);
            out.push(t);
            drawn += 1;
        }
        out
    }
}

/// A producer that draws the triples of each pull at random from the whole
/// dataset.
pub fn random_triple_generator<'a>(triples: &'a CompressedRdfTriples, seed: u64) -> (r:
    RandomTriples<'a>)
    ensures
        r.dataset() == triples@,
{
    RandomTriples { triples, rng: seeded_rng(seed) }
}

/// Draws triples of a dataset at random such that no position of the dataset
/// is drawn twice, over all pulls: the positions are drawn once, when the
/// producer is made, and each pull takes the next of them.
pub struct RandomDistinctTriples<'a> {
    triples: &'a CompressedRdfTriples,
    indices: Vec<usize>,
    cursor: usize,
}

impl<'a> RandomDistinctTriples<'a> {
    /// The dataset that the triples are drawn from.
    pub closed spec fn dataset(&self) -> Seq<TripleKey> {
        self.triples@
    }

    /// The positions that were drawn, in the order in which pulls take them.
    pub closed spec fn indices(&self) -> Seq<usize> {
        self.indices@
    }

    /// How many of the positions the pulls so far have taken.
    pub closed spec fn taken(&self) -> nat {
        self.cursor as nat
    }

    /// All triples that the pulls so far have yielded, in their order.
    pub open spec fn emitted(&self) -> Seq<TripleKey> {
        picked(self.dataset(), self.indices().take(self.taken() as int))
    }

    #[verifier::type_invariant]
    spec fn well_formed(&self) -> bool {
        &&& self.cursor <= self.indices@.len()
        &&& self.indices@.no_duplicates()
        &&& forall|k: int| 0 <= k < self.indices@.len() ==> self.indices@[k] < self.triples@.len()
    }

    /// What a pull does: it takes the next `size_hint` of the positions, or
    /// as many as are left, and yields the triples at them.
    pub open spec fn pulled(self, after: Self, size_hint: usize, r: Vec<[u64; 3]>) -> bool {
        &&& after.dataset() == self.dataset()
        &&& after.indices() == self.indices()
        &&& self.taken() <= after.taken() <= self.indices().len()
        &&& after.taken() - self.taken() == if size_hint <= self.indices().len() - self.taken() {
            size_hint as int
        } else {
            self.indices().len() - self.taken()
        }
        &&& keys_of(r@) == picked(
            self.dataset(),
            self.indices().subrange(self.taken() as int, after.taken() as int),
        )
        &&& after.emitted() == self.emitted() + keys_of(r@)
        &&& strictly_increasing(self.dataset()) ==> after.emitted().no_duplicates()
    }

    /// Takes the next `size_hint` of the positions that were drawn, or as
    /// many as are left, and yields the triples at them. Over all pulls no
    /// position comes twice; in a dataset without repeated triples no triple
    /// comes twice either.
    pub fn pull(&mut self, size_hint: usize) -> (r: Vec<[u64; 3]>)
        ensures
            old(self).pulled(*final(self), size_hint, r),
    {
        proof {
            use_type_invariant(&*self);
        }
        let left = self.indices.len() - self.cursor;
        let count = if size_hint <= left {
            size_hint
        } else {
            left
        };
        let start = self.cursor;
        let end = start + count;
        let mut out: Vec<[u64; 3]> = Vec::new();
        let mut k: usize = start;
        while k < end
            invariant
                start <= k <= end <= self.indices@.len(),
                self.indices@ == old(self).indices@,
                self.triples@ == old(self).triples@,
                self.cursor == start,
                forall|j: int|
                    0 <= j < self.indices@.len() ==> self.indices@[j] < self.triples@.len(),
                out@.len() == k - start,
                forall|j: int|
                    0 <= j < out@.len() ==> key_of(#[trigger] out@[j])
                        == self.triples@[self.indices@[start + j] as int],
            decreases end - k,
        {
            let t = self.triples.get(self.indices[k]);
            out.push(t);
            k += 1;
        }
        self.cursor = end;
        proof {
            let part = old(self).indices().subrange(start as int, end as int);
            assert(keys_of(out@) =~= picked(old(self).dataset(), part));
            assert(self.emitted() =~= old(self).emitted() + keys_of(out@));
            if strictly_increasing(self.dataset()) {
                let upto = self.indices().take(end as int);
                lemma_picked_distinct(self.dataset(), upto);
            }
        }
        out
    }
}

/// The positions below `n`, in ascending order.
fn all_positions(n: usize) -> (positions: Vec<usize>)
    ensures
        positions@.len() == n,
        forall|k: int| 0 <= k < n ==> positions@[k] == k,
{
    let mut positions: Vec<usize> = Vec::new();
    let mut k: usize = 0;
    while k < n
        invariant
            k <= n,
            positions@.len() == k,
            forall|j: int| 0 <= j < k ==> positions@[j] == j,
        decreases n - k,
    {
        positions.push(k);
        k += 1;
    }
    positions
}

/// A producer that draws, once and for all pulls together, distinct
/// positions of the dataset: `n_total_query_triples` of them, or all
/// positions if the dataset has fewer.
pub fn random_distinct_triple_generator<'a>(
    triples: &'a CompressedRdfTriples,
    n_total_query_triples: usize,
    seed: u64,
) -> (r: RandomDistinctTriples<'a>)
    ensures
        r.dataset() == triples@,
        r.taken() == 0,
        r.indices().no_duplicates(),
        forall|k: int| 0 <= k < r.indices().len() ==> r.indices()[k] < triples@.len(),
        r.indices().len() == if n_total_query_triples <= triples@.len() {
            n_total_query_triples as int
        } else {
            triples@.len() as int
        },
{
    let mut rng = seeded_rng(seed);
    let n = triples.len();
    let amount = if n_total_query_triples <= n {
        n_total_query_triples
    } else {
        n
    };
    let indices = if n > 0xffff_ffff && amount == n {
        // Every position is asked for: nothing is left to chance but the order.
        all_positions(n)
    } else {
        sample_indices(&mut rng, n, amount)
    };
    RandomDistinctTriples { triples, indices, cursor: 0 }
}

/// How far a changeset of `size` triples is from the size that was asked for.
pub open spec fn distance(size: int, size_hint: int) -> int {
    if size >= size_hint {
        size - size_hint
    } else {
        size_hint - size
    }
}

/// Whether changeset `i` is the best fit: it is unused, no unused changeset
/// is nearer to the size that was asked for, and those before it are
/// farther from it.
pub open spec fn is_best_fit(sizes: Seq<int>, used: Seq<bool>, size_hint: int, i: int) -> bool {
    &&& 0 <= i < sizes.len()
    &&& !used[i]
    &&& forall|j: int|
        0 <= j < sizes.len() && !used[j] ==> distance(sizes[i], size_hint) <= distance(
            #[trigger] sizes[j],
            size_hint,
        )
    &&& forall|j: int|
        0 <= j < i && !used[j] ==> distance(sizes[i], size_hint) < distance(
            #[trigger] sizes[j],
            size_hint,
        )
}

/// How many of the changesets are unused.
pub open spec fn unused_count(used: Seq<bool>) -> nat
    decreases used.len(),
{
    if used.len() == 0 {
        0
    } else if used.last() {
        unused_count(used.drop_last())
    } else {
        unused_count(used.drop_last()) + 1
    }
}

/// No changeset is unused exactly if all are used.
pub proof fn lemma_unused_none(used: Seq<bool>)
    ensures
        unused_count(used) == 0 <==> forall|j: int| 0 <= j < used.len() ==> used[j],
    decreases used.len(),
{
    if used.len() > 0 {
        lemma_unused_none(used.drop_last());
        if unused_count(used) == 0 {
            assert forall|j: int| 0 <= j < used.len() implies used[j] by {
                if j < used.len() - 1 {
                    assert(used.drop_last()[j]);
                }
            }
        }
    }
}

/// Marking an unused changeset as used leaves one unused changeset fewer.
pub proof fn lemma_unused_marked(used: Seq<bool>, i: int)
    requires
        0 <= i < used.len(),
        !used[i],
    ensures
        unused_count(used.update(i, true)) + 1 == unused_count(used),
    decreases used.len(),
{
    let marked = used.update(i, true);
    if i == used.len() - 1 {
        assert(marked.drop_last() =~= used.drop_last());
    } else {
        lemma_unused_marked(used.drop_last(), i);
        assert(marked.drop_last() =~= used.drop_last().update(i, true));
    }
}

/// The sizes of a sequence of changesets.
pub open spec fn sizes_of(changesets: Seq<CompressedRdfTriples>) -> Seq<int> {
    Seq::new(changesets.len(), |i: int| changesets[i]@.len() as int)
}

/// Hands out whole changesets: each pull yields the unused changeset whose
/// size is nearest to the size asked for, and marks it used.
pub struct BestFitChangesets<'a> {
    changesets: &'a [CompressedRdfTriples],
    used: Vec<bool>,
}

impl<'a> BestFitChangesets<'a> {
    /// The changesets that are handed out.
    pub closed spec fn changesets(&self) -> Seq<CompressedRdfTriples> {
        self.changesets@
    }

    /// Which changesets were handed out already.
    pub closed spec fn used(&self) -> Seq<bool> {
        self.used@
    }

    #[verifier::type_invariant]
    spec fn well_formed(&self) -> bool {
        self.used@.len() == self.changesets@.len()
    }

    /// How many changesets are left to hand out.
    pub open spec fn left(self) -> nat {
        unused_count(self.used())
    }

    /// Whether every changeset was handed out.
    pub open spec fn exhausted(self) -> bool {
        forall|j: int| 0 <= j < self.used().len() ==> self.used()[j]
    }

    /// What a pull does. When every changeset is used, it fails and changes
    /// nothing. Else it yields the triples of the best fit and marks it used.
    pub open spec fn pulled(
        self,
        after: Self,
        size_hint: usize,
        r: Result<Vec<[u64; 3]>, Error>,
    ) -> bool {
        &&& after.changesets() == self.changesets()
        &&& self.used().len() == self.changesets().len()
        &&& self.exhausted() ==> r == Err::<Vec<[u64; 3]>, Error>(Error::ChangesetsExhausted)
            && after.used() == self.used()
        &&& !self.exhausted() ==> r is Ok && exists|i: int|
            {
                &&& #[trigger] is_best_fit(
                    sizes_of(self.changesets()),
                    self.used(),
                    size_hint as int,
                    i,
                )
                &&& keys_of(r->Ok_0@) == self.changesets()[i]@
                &&& after.used() == self.used().update(i, true)
            }
    }

    /// Yields the triples of the best fit among the unused changesets and
    /// marks it used. When every changeset is used, the changesets are
    /// exhausted.
    pub fn pull(&mut self, size_hint: usize) -> (r: Result<Vec<[u64; 3]>, Error>)
        ensures
            old(self).pulled(*final(self), size_hint, r),
    {
        proof {
            use_type_invariant(&*self);
        }
        let n = self.changesets.len();
        let ghost sizes = sizes_of(self.changesets());
        let mut best: Option<usize> = None;
        let mut best_distance: usize = 0;
        let mut j: usize = 0;
        while j < n
            invariant
                n == self.changesets@.len(),
                n == self.used@.len(),
                sizes == sizes_of(self.changesets@),
                j <= n,
                best is None ==> forall|k: int| 0 <= k < j ==> self.used@[k],
                best is Some ==> {
                    let i = best->Some_0 as int;
                    &&& 0 <= i < j
                    &&& !self.used@[i]
                    &&& best_distance == distance(sizes[i], size_hint as int)
                    &&& forall|k: int|
                        0 <= k < j && !self.used@[k] ==> distance(sizes[i], size_hint as int)
                            <= distance(#[trigger] sizes[k], size_hint as int)
                    &&& forall|k: int|
                        0 <= k < i && !self.used@[k] ==> distance(sizes[i], size_hint as int)
                            < distance(#[trigger] sizes[k], size_hint as int)
                },
            decreases n - j,
        {
            if !self.used[j] {
                let size = self.changesets[j].len();
                let d = if size >= size_hint {
                    size - size_hint
                } else {
                    size_hint - size
                };
                let better = match best {
                    None => true,
                    Some(_) => d < best_distance,
                };
                if better {
                    best = Some(j);
                    best_distance = d;
                }
            }
            j += 1;
        }
        match best {
            None => Err(Error::ChangesetsExhausted),
            Some(i) => {
                let out = self.changesets[i].to_vec();
                let mut marked: Vec<bool> = Vec::new();
                let mut k: usize = 0;
                while k < n
                    invariant
                        n == self.used@.len(),
                        i < n,
                        k <= n,
                        marked@.len() == k,
                        forall|m: int|
                            0 <= m < k ==> marked@[m] == if m == i {
                                true
                            } else {
                                self.used@[m]
                            },
                    decreases n - k,
                {
                    marked.push(k == i || self.used[k]);
                    k += 1;
                }
                assert(marked@ =~= self.used@.update(i as int, true));
                self.used = marked;
                assert(is_best_fit(
                    sizes_of(old(self).changesets()),
                    old(self).used(),
                    size_hint as int,
                    i as int,
                ));
                Ok(out)
            },
        }
    }
}

/// A producer that hands out whole changesets, to each pull the best fit.
pub fn as_is_changeset_triple_generator<'a>(changesets: &'a [CompressedRdfTriples]) -> (r:
    BestFitChangesets<'a>)
    ensures
        r.changesets() == changesets@,
        r.used().len() == changesets@.len(),
        forall|j: int| 0 <= j < r.used().len() ==> !r.used()[j],
{
    let mut used: Vec<bool> = Vec::new();
    let n = changesets.len();
    let mut j: usize = 0;
    while j < n
        invariant
            n == changesets@.len(),
            j <= n,
            used@.len() == j,
            forall|k: int| 0 <= k < j ==> !used@[k],
        decreases n - j,
    {
        used.push(false);
        j += 1;
    }
    BestFitChangesets { changesets, used }
}

/// The sequences of a sequence, one after another.
pub open spec fn joined(parts: Seq<Seq<TripleKey>>) -> Seq<TripleKey>
    decreases parts.len(),
{
    if parts.len() == 0 {
        Seq::empty()
    } else {
        parts[0] + joined(parts.skip(1))
    }
}

/// Those of the triples that the dataset holds, in their order.
pub open spec fn kept(triples: Seq<TripleKey>, dataset: Seq<TripleKey>) -> Seq<TripleKey>
    decreases triples.len(),
{
    if triples.len() == 0 {
        Seq::empty()
    } else {
        let before = kept(triples.drop_last(), dataset);
        if dataset.contains(triples.last()) {
            before.push(triples.last())
        } else {
            before
        }
    }
}

/// The position, among `n` changesets, of the changeset that comes `k`-th
/// when stitching starts at `start`: first those from `start` on, then those
/// before `start`, backwards.
pub open spec fn stitch_index(n: int, start: int, k: int) -> int {
    if k < n - start {
        start + k
    } else {
        n - 1 - k
    }
}

/// The triples of the changesets in stitching order.
pub open spec fn stitched(changesets: Seq<CompressedRdfTriples>, start: int) -> Seq<TripleKey> {
    joined(
        Seq::new(
            changesets.len(),
            |k: int| changesets[stitch_index(changesets.len() as int, start, k)]@,
        ),
    )
}

/// What is kept of the beginning of a sequence is the beginning of what is
/// kept of the whole.
pub proof fn lemma_kept_prefix(a: Seq<TripleKey>, b: Seq<TripleKey>, dataset: Seq<TripleKey>)
    ensures
        kept(a, dataset).len() <= kept(a + b, dataset).len(),
        kept(a + b, dataset).take(kept(a, dataset).len() as int) == kept(a, dataset),
    decreases b.len(),
{
    if b.len() > 0 {
        assert((a + b).drop_last() =~= a + b.drop_last());
        lemma_kept_prefix(a, b.drop_last(), dataset);
    }
}

/// Stitches changesets together: a pull goes through the changesets from a
/// starting changeset on, then through those before it backwards, and yields
/// the triples that the main dataset holds, until it has as many as were
/// asked for.
pub struct FixedSizeChangesets<'a> {
    changesets: &'a [CompressedRdfTriples],
    dataset: &'a CompressedRdfTriples,
    start: usize,
}

impl<'a> FixedSizeChangesets<'a> {
    /// The changesets that are stitched.
    pub closed spec fn changesets(&self) -> Seq<CompressedRdfTriples> {
        self.changesets@
    }

    /// The main dataset.
    pub closed spec fn dataset(&self) -> Seq<TripleKey> {
        self.dataset@
    }

    /// The changeset at which stitching starts.
    pub closed spec fn start(&self) -> int {
        self.start as int
    }

    #[verifier::type_invariant]
    spec fn well_formed(&self) -> bool {
        &&& self.start <= self.changesets@.len()
        &&& self.changesets@.len() > 0 ==> self.start < self.changesets@.len()
        &&& non_decreasing(self.dataset@)
    }

    /// What a pull yields: the first `size_hint` of the stitched triples
    /// that the main dataset holds, or all of them if they are fewer.
    pub open spec fn pulled(self, size_hint: usize, r: Vec<[u64; 3]>) -> bool {
        let all = kept(stitched(self.changesets(), self.start()), self.dataset());
        &&& r@.len() <= size_hint
        &&& r@.len() <= all.len()
        &&& r@.len() < size_hint ==> r@.len() == all.len()
        &&& keys_of(r@) == all.take(r@.len() as int)
    }

    /// Yields the first `size_hint` of the stitched triples that the main
    /// dataset holds, or all of them if they are fewer.
    pub fn pull(&self, size_hint: usize) -> (r: Vec<[u64; 3]>)
        ensures
            self.pulled(size_hint, r),
    {
        proof {
            use_type_invariant(self);
        }
        let n = self.changesets.len();
        let ghost parts = Seq::new(
            n as nat,
            |k: int| self.changesets@[stitch_index(n as int, self.start as int, k)]@,
        );
        let ghost all = joined(parts);
        let ghost mut scanned: Seq<TripleKey> = Seq::empty();
        let mut out: Vec<[u64; 3]> = Vec::new();
        let mut k: usize = 0;
        assert(parts.skip(0) =~= parts);
        while k < n && out.len() < size_hint
            invariant
                all == stitched(self.changesets(), self.start()),
                self.dataset() == self.dataset@,
                n == self.changesets@.len(),
                n == parts.len(),
                self.start <= n,
                n > 0 ==> self.start < n,
                non_decreasing(self.dataset@),
                forall|j: int|
                    0 <= j < n ==> #[trigger] parts[j] == self.changesets@[stitch_index(
                        n as int,
                        self.start as int,
                        j,
                    )]@,
                all == joined(parts),
                k <= n,
                out@.len() <= size_hint,
                scanned + joined(parts.skip(k as int)) == all,
                keys_of(out@) == kept(scanned, self.dataset@),
            decreases n - k,
        {
            let ix = if k < n - self.start {
                self.start + k
            } else {
                n - 1 - k
            };
            let changeset = &self.changesets[ix];
            let m = changeset.len();
            let ghost rest = joined(parts.skip(k + 1));
            proof {
                assert(parts.skip(k as int).skip(1) =~= parts.skip(k + 1));
            }
            let mut j: usize = 0;
            while j < m && out.len() < size_hint
                invariant
                    all == stitched(self.changesets(), self.start()),
                    self.dataset() == self.dataset@,
                    m == changeset@.len(),
                    j <= m,
                    non_decreasing(self.dataset@),
                    out@.len() <= size_hint,
                    scanned + (changeset@.skip(j as int) + rest) == all,
                    keys_of(out@) == kept(scanned, self.dataset@),
                decreases m - j,
            {
                let t = changeset.get(j);
                let ghost before = scanned;
                let found = self.dataset.contains(&t);
                if found {
                    out.push(t);
                }
                proof {
                    scanned = before.push(key_of(t));
                    assert(scanned.drop_last() =~= before);
                }
                j += 1;
            }
            if j < m {
                proof {
                    lemma_kept_prefix(scanned, changeset@.skip(j as int) + rest, self.dataset@);
                }
                return out;
            }
            k += 1;
        }
        proof {
            lemma_kept_prefix(scanned, joined(parts.skip(k as int)), self.dataset@);
        }
        out
    }
}

/// A producer that stitches changesets together, starting at a changeset
/// that is drawn at random. The main dataset must be in non-decreasing order.
pub fn fixed_size_changeset_triple_generator<'a>(
    changesets: &'a [CompressedRdfTriples],
    dataset: &'a CompressedRdfTriples,
    seed: u64,
) -> (r: FixedSizeChangesets<'a>)
    requires
        non_decreasing(dataset@),
    ensures
        r.changesets() == changesets@,
        r.dataset() == dataset@,
        0 <= r.start() <= changesets@.len(),
        changesets@.len() > 0 ==> r.start() < changesets@.len(),
{
    let n = changesets.len();
    let start = if n > 0 {
        let mut rng = seeded_rng(seed);
        random_below(&mut rng, n)
    } else {
        0
    };
    FixedSizeChangesets { changesets, dataset, start }
}

/// Goes through changesets in their order, one changeset at a time.
pub struct LinearChangesets<'a> {
    changesets: &'a [CompressedRdfTriples],
    cur: usize,
}

impl<'a> LinearChangesets<'a> {
    /// The changesets that are gone through.
    pub closed spec fn changesets(&self) -> Seq<CompressedRdfTriples> {
        self.changesets@
    }

    /// How many changesets were yielded already.
    pub closed spec fn position(&self) -> nat {
        self.cur as nat
    }

    #[verifier::type_invariant]
    spec fn well_formed(&self) -> bool {
        self.cur <= self.changesets@.len()
    }

    /// Yields the triples of the next changeset, or nothing when all
    /// changesets were yielded.
    pub fn next_changeset(&mut self) -> (r: Option<Vec<[u64; 3]>>)
        ensures
            final(self).changesets() == old(self).changesets(),
            old(self).position() <= old(self).changesets().len(),
            old(self).position() < old(self).changesets().len() ==> r is Some && keys_of(
                r->Some_0@,
            ) == old(self).changesets()[old(self).position() as int]@ && final(self).position()
                == old(self).position() + 1,
            old(self).position() == old(self).changesets().len() ==> r is None
                && final(self).position() == old(self).position(),
    {
        proof {
            use_type_invariant(&*self);
        }
        if self.cur < self.changesets.len() {
            let out = self.changesets[self.cur].to_vec();
            self.cur = self.cur + 1;
            Some(out)
        } else {
            None
        }
    }
}

/// A producer that yields the changesets one by one, in their order, each
/// with exactly its triples.
pub fn linear_changeset_triple_generator<'a>(changesets: &'a [CompressedRdfTriples]) -> (r:
    LinearChangesets<'a>)
    ensures
        r.changesets() == changesets@,
        r.position() == 0,
{
    LinearChangesets { changesets, cur: 0 }
}

} // verus!
