//! The query builder: from query specifications and a producer of triples
//! to the text of `DELETE DATA` queries.
//!
//! Each specification asks for a number of queries of one size. Every query
//! is a job. A job's triples are pulled from the producer, in the order of
//! the specifications; the jobs are then brought into the output order,
//! decompressed and written out.

use crate::decompressor::{
    knows, knows_all, push_statement_line, statement_line, RdfTripleDecompressor,
};
use crate::error::Error;
use crate::generator::{
    is_best_fit, lemma_unused_marked, lemma_unused_none, linear_changeset_triple_generator,
    seeded_rng, sizes_of, BestFitChangesets, FixedSizeChangesets, RandomDistinctTriples,
    RandomTriples,
};
use crate::triples::{keys_of, strictly_increasing, CompressedRdfTriples, TripleKey};
use rand::rngs::SmallRng;
use rand::seq::SliceRandom;
use vstd::prelude::*;

verus! {

/// The order in which the queries are written out.
#[derive(Clone, Copy, Debug, PartialEq, Eq, Structural)]
pub enum OutputOrder {
    /// The order of the specifications.
    AsSpecified,
    /// A random order.
    Randomized,
    /// By size, the smallest first.
    SortedSizeAsc,
    /// By size, the largest first.
    SortedSizeDesc,
}

/// A request for `n_queries` queries of `n_triples_per_query` triples each.
#[derive(Clone, Copy, Debug, PartialEq, Eq, Structural)]
pub struct QuerySpec {
    pub n_queries: usize,
    pub n_triples_per_query: usize,
}

/// One query to be: the size that was asked for, and the triples that the
/// producer gave for it.
#[derive(Debug)]
pub struct QueryJob {
    pub target_size: usize,
    pub triples: Vec<[u64; 3]>,
}

/// One query: the size that was asked for, and the terms of its triples.
#[derive(Debug)]
pub struct Query<'a> {
    pub target_size: usize,
    pub triples: Vec<[&'a [u8]; 3]>,
}

/// What the builder hands back: the jobs in output order, the query of each
/// job, and the text of all queries.
#[derive(Debug)]
pub struct Generated<'a> {
    pub jobs: Vec<QueryJob>,
    pub queries: Vec<Query<'a>>,
    pub text: Vec<u8>,
}

/// The three terms of a triple, as bytes.
pub type Terms = (Seq<u8>, Seq<u8>, Seq<u8>);

/// The sizes of the jobs that the specifications ask for: for each
/// specification, in their order, its size as many times as it asks for
/// queries.
pub open spec fn job_sizes(specs: Seq<QuerySpec>) -> Seq<usize>
    decreases specs.len(),
{
    if specs.len() == 0 {
        Seq::empty()
    } else {
        job_sizes(specs.drop_last()) + Seq::new(
            specs.last().n_queries as nat,
            |i: int| specs.last().n_triples_per_query,
        )
    }
}

/// The number of triples that the specifications ask for in all.
pub open spec fn total_triples(specs: Seq<QuerySpec>) -> int
    decreases specs.len(),
{
    if specs.len() == 0 {
        0
    } else {
        total_triples(specs.drop_last()) + specs.last().n_queries
            * specs.last().n_triples_per_query
    }
}

/// The sizes that the jobs ask for.
pub open spec fn sizes_of_jobs(jobs: Seq<QueryJob>) -> Seq<usize> {
    Seq::new(jobs.len(), |i: int| jobs[i].target_size)
}

/// No size is followed by a smaller one.
pub open spec fn sizes_ascend(sizes: Seq<usize>) -> bool {
    forall|i: int, j: int| 0 <= i <= j < sizes.len() ==> sizes[i] <= sizes[j]
}

/// No size is followed by a larger one.
pub open spec fn sizes_descend(sizes: Seq<usize>) -> bool {
    forall|i: int, j: int| 0 <= i <= j < sizes.len() ==> sizes[i] >= sizes[j]
}

/// Whether `after` holds the jobs of `before` in the given output order:
/// the same jobs, each as often as before, and arranged as the order says.
pub open spec fn ordered_as(
    order: OutputOrder,
    before: Seq<QueryJob>,
    after: Seq<QueryJob>,
) -> bool {
    &&& after.to_multiset() == before.to_multiset()
    &&& order == OutputOrder::AsSpecified ==> after == before
    &&& order == OutputOrder::SortedSizeAsc ==> sizes_ascend(sizes_of_jobs(after))
    &&& order == OutputOrder::SortedSizeDesc ==> sizes_descend(sizes_of_jobs(after))
}

/// The terms that a dictionary has for the ids of a triple.
pub open spec fn decoded(dict: Map<u64, Seq<u8>>, t: TripleKey) -> Terms {
    (dict[t.0], dict[t.1], dict[t.2])
}

/// The terms that a dictionary has for each of the triples.
pub open spec fn decoded_all(dict: Map<u64, Seq<u8>>, triples: Seq<TripleKey>) -> Seq<Terms> {
    Seq::new(triples.len(), |i: int| decoded(dict, triples[i]))
}

/// The terms of the triples of a query.
pub open spec fn terms_of<'a>(triples: Seq<[&'a [u8]; 3]>) -> Seq<Terms> {
    Seq::new(triples.len(), |i: int| (triples[i]@[0]@, triples[i]@[1]@, triples[i]@[2]@))
}

/// The terms of the triples of each query.
pub open spec fn terms_of_queries<'a>(queries: Seq<Query<'a>>) -> Seq<Seq<Terms>> {
    Seq::new(queries.len(), |i: int| terms_of(queries[i].triples@))
}

/// Whether a query is what a dictionary makes of a job.
pub open spec fn decoded_from<'a>(
    dict: Map<u64, Seq<u8>>,
    job: QueryJob,
    query: Query<'a>,
) -> bool {
    &&& query.target_size == job.target_size
    &&& terms_of(query.triples@) == decoded_all(dict, keys_of(job.triples@))
}

/// The first line of a query: `DELETE DATA {`.
pub open spec fn query_opening() -> Seq<u8> {
    seq![
        0x44u8,
        0x45u8,
        0x4cu8,
        0x45u8,
        0x54u8,
        0x45u8,
        0x20u8,
        0x44u8,
        0x41u8,
        0x54u8,
        0x41u8,
        0x20u8,
        0x7bu8,
        0x0au8,
    ]
}

/// The last line of a query: `}`.
pub open spec fn query_closing() -> Seq<u8> {
    seq![0x7du8, 0x0au8]
}

/// The lines of the triples of a query: each triple on a line of its own,
/// behind two blanks.
pub open spec fn query_lines(triples: Seq<Terms>) -> Seq<u8>
    decreases triples.len(),
{
    if triples.len() == 0 {
        Seq::empty()
    } else {
        let t = triples.last();
        query_lines(triples.drop_last()) + seq![0x20u8, 0x20u8] + statement_line(t.0, t.1, t.2)
    }
}

/// The text of one query.
pub open spec fn query_text(triples: Seq<Terms>) -> Seq<u8> {
    query_opening() + query_lines(triples) + query_closing()
}

/// The text of a sequence of queries, one after another.
pub open spec fn queries_text(queries: Seq<Seq<Terms>>) -> Seq<u8>
    decreases queries.len(),
{
    if queries.len() == 0 {
        Seq::empty()
    } else {
        queries_text(queries.drop_last()) + query_text(queries.last())
    }
}

/// The total of a beginning of the specifications is at most the total of
/// all.
pub proof fn lemma_total_grows(specs: Seq<QuerySpec>, i: int)
    requires
        0 <= i <= specs.len(),
    ensures
        0 <= total_triples(specs.take(i)) <= total_triples(specs),
    decreases specs.len() - i,
{
    if i == specs.len() {
        assert(specs.take(i) =~= specs);
        lemma_total_nonnegative(specs);
    } else {
        lemma_total_grows(specs, i + 1);
        assert(specs.take(i + 1).drop_last() =~= specs.take(i));
        lemma_total_nonnegative(specs.take(i));
        assert(specs[i].n_queries * specs[i].n_triples_per_query >= 0) by (nonlinear_arith);
    }
}

/// A total is not negative.
pub proof fn lemma_total_nonnegative(specs: Seq<QuerySpec>)
    ensures
        0 <= total_triples(specs),
    decreases specs.len(),
{
    if specs.len() > 0 {
        lemma_total_nonnegative(specs.drop_last());
        assert(specs.last().n_queries * specs.last().n_triples_per_query >= 0)
            by (nonlinear_arith);
    }
}

/// The sizes of the jobs that the specifications ask for.
pub fn expand_query_specs(specs: &[QuerySpec]) -> (sizes: Vec<usize>)
    ensures
        sizes@ == job_sizes(specs@),
{
    let mut sizes: Vec<usize> = Vec::new();
    let n = specs.len();
    let mut i: usize = 0;
    while i < n
        invariant
            n == specs@.len(),
            i <= n,
            sizes@ == job_sizes(specs@.take(i as int)),
        decreases n - i,
    {
        let spec = specs[i];
        let ghost before = sizes@;
        let mut k: usize = 0;
        while k < spec.n_queries
            invariant
                k <= spec.n_queries,
                sizes@ == before + Seq::new(k as nat, |j: int| spec.n_triples_per_query),
            decreases spec.n_queries - k,
        {
            sizes.push(spec.n_triples_per_query);
            k += 1;
        }
        proof {
            assert(specs@.take(i + 1).drop_last() =~= specs@.take(i as int));
        }
        i += 1;
    }
    assert(specs@.take(n as int) =~= specs@);
    sizes
}

/// The number of triples that the specifications ask for in all, unless it
/// is too large for the machine.
pub fn total_query_triples(specs: &[QuerySpec]) -> (total: Option<usize>)
    ensures
        total_triples(specs@) <= usize::MAX ==> total == Some(total_triples(specs@) as usize),
        total_triples(specs@) > usize::MAX ==> total is None,
{
    let mut sum: usize = 0;
    let n = specs.len();
    let mut i: usize = 0;
    while i < n
        invariant
            n == specs@.len(),
            i <= n,
            sum == total_triples(specs@.take(i as int)),
        decreases n - i,
    {
        let spec = specs[i];
        proof {
            assert(specs@.take(i + 1).drop_last() =~= specs@.take(i as int));
            lemma_total_grows(specs@, i + 1);
        }
        let product = match spec.n_queries.checked_mul(spec.n_triples_per_query) {
            Some(p) => p,
            None => {
                return None;
            },
        };
        sum = match sum.checked_add(product) {
            Some(s) => s,
            None => {
                return None;
            },
        };
        i += 1;
    }
    assert(specs@.take(n as int) =~= specs@);
    Some(sum)
}

/// Calls `sort_unstable_by_key` on the vector's slice, with the size that a
/// job asks for as its key. std documents that it sorts the slice in place
/// by the key: afterwards the same jobs stand there, each as often as
/// before, and no job is followed by one of a smaller size.
#[verifier::external_body]
fn sort_jobs_by_size(jobs: &mut Vec<QueryJob>)
    ensures
        sizes_ascend(sizes_of_jobs(final(jobs)@)),
        final(jobs)@.to_multiset() == old(jobs)@.to_multiset(),
{
    jobs.sort_unstable_by_key(|job| job.target_size);
}

/// Calls `shuffle` of `rand` on the vector's slice, which swaps elements of
/// the slice: afterwards the same jobs stand there, each as often as before,
/// in an order that depends on chance.
#[verifier::external_body]
fn shuffle_jobs(jobs: &mut Vec<QueryJob>, rng: &mut SmallRng)
    ensures
        final(jobs)@.to_multiset() == old(jobs)@.to_multiset(),
{
    jobs.shuffle(rng);
}

/// The jobs in reverse.
pub fn reverse_jobs(jobs: Vec<QueryJob>) -> (r: Vec<QueryJob>)
    ensures
        r@ == jobs@.reverse(),
{
    let mut rest = jobs;
    let mut r: Vec<QueryJob> = Vec::new();
    while rest.len() > 0
        invariant
            rest@ == jobs@.take(rest@.len() as int),
            rest@.len() <= jobs@.len(),
            r@ == jobs@.skip(rest@.len() as int).reverse(),
        decreases rest@.len(),
    {
        let job = rest.pop().unwrap();
        r.push(job);
    }
    r
}

/// Brings the jobs into the output order. A random order is drawn with a
/// generator that is made from the seed.
pub fn order_jobs(jobs: Vec<QueryJob>, order: OutputOrder, seed: u64) -> (r: Vec<QueryJob>)
    ensures
        ordered_as(order, jobs@, r@),
{
    let mut r = jobs;
    match order {
        OutputOrder::AsSpecified => r,
        OutputOrder::Randomized => {
            let mut rng = seeded_rng(seed);
            shuffle_jobs(&mut r, &mut rng);
            r
        },
        OutputOrder::SortedSizeAsc => {
            sort_jobs_by_size(&mut r);
            r
        },
        OutputOrder::SortedSizeDesc => {
            sort_jobs_by_size(&mut r);
            let ghost sorted = r@;
            let turned = reverse_jobs(r);
            proof {
                sorted.lemma_reverse_to_multiset();
                assert forall|i: int, j: int| 0 <= i <= j < turned@.len() implies sizes_of_jobs(
                    turned@,
                )[i] >= sizes_of_jobs(turned@)[j] by {
                    let n = sorted.len();
                    assert(sizes_of_jobs(sorted)[n - 1 - j] <= sizes_of_jobs(sorted)[n - 1 - i]);
                }
            }
            turned
        },
    }
}

/// Any of the producers that answer pulls.
pub enum TripleGenerator<'a> {
    /// Triples drawn at random, anew for each pull.
    Random(RandomTriples<'a>),
    /// Triples at positions that were drawn once, each position once.
    RandomDistinct(RandomDistinctTriples<'a>),
    /// Whole changesets, the best fit first.
    BestFit(BestFitChangesets<'a>),
    /// Changesets stitched together and cut to size.
    FixedSize(FixedSizeChangesets<'a>),
}

impl<'a> TripleGenerator<'a> {
    /// What a pull does: what a pull of the producer at hand does.
    pub open spec fn pulled(
        self,
        after: Self,
        size_hint: usize,
        r: Result<Vec<[u64; 3]>, Error>,
    ) -> bool {
        match self {
            TripleGenerator::Random(g) => r is Ok && after is Random && g.pulled(
                after->Random_0,
                size_hint,
                r->Ok_0,
            ),
            TripleGenerator::RandomDistinct(g) => r is Ok && after is RandomDistinct && g.pulled(
                after->RandomDistinct_0,
                size_hint,
                r->Ok_0,
            ),
            TripleGenerator::BestFit(g) => after is BestFit && g.pulled(
                after->BestFit_0,
                size_hint,
                r,
            ),
            TripleGenerator::FixedSize(g) => r is Ok && after == self && g.pulled(
                size_hint,
                r->Ok_0,
            ),
        }
    }

    /// Whether the triples of one pull are distinct by the way they are
    /// produced, so that they need not be made so.
    pub open spec fn distinct_by_make(self) -> bool {
        self is RandomDistinct || self is BestFit
    }

    /// Whether the triples of one pull are distinct by the way they are
    /// produced.
    pub fn yields_distinct(&self) -> (b: bool)
        ensures
            b == self.distinct_by_make(),
    {
        match self {
            TripleGenerator::Random(_) => false,
            TripleGenerator::RandomDistinct(_) => true,
            TripleGenerator::BestFit(_) => true,
            TripleGenerator::FixedSize(_) => false,
        }
    }

    /// Pulls from the producer at hand. Only the producer of whole
    /// changesets can fail, when its changesets are exhausted.
    pub fn pull(&mut self, size_hint: usize) -> (r: Result<Vec<[u64; 3]>, Error>)
        ensures
            old(self).pulled(*final(self), size_hint, r),
    {
        match self {
            TripleGenerator::Random(g) => Ok(g.pull(size_hint)),
            TripleGenerator::RandomDistinct(g) => Ok(g.pull(size_hint)),
            TripleGenerator::BestFit(g) => g.pull(size_hint),
            TripleGenerator::FixedSize(g) => Ok(g.pull(size_hint)),
        }
    }
}

/// Whether a job is made of what a pull gave for a size: it asks for the
/// size, and it holds the triples as they came where the producer makes
/// them distinct, else sorted and each once.
pub open spec fn job_made(
    job: QueryJob,
    size: usize,
    pulled: Vec<[u64; 3]>,
    distinct: bool,
) -> bool {
    &&& job.target_size == size
    &&& distinct ==> job.triples == pulled
    &&& !distinct ==> strictly_increasing(keys_of(job.triples@)) && keys_of(
        job.triples@,
    ).to_set() == keys_of(pulled@).to_set()
}

/// Whether pulling for the sizes, one after another, takes the producer
/// through the given states and gives the given pulls, of which the jobs
/// are made.
#[verifier::opaque]
pub open spec fn collected_through<'a>(
    sizes: Seq<usize>,
    jobs: Seq<QueryJob>,
    states: Seq<TripleGenerator<'a>>,
    pulls: Seq<Vec<[u64; 3]>>,
) -> bool {
    &&& states.len() == sizes.len() + 1
    &&& pulls.len() == sizes.len()
    &&& jobs.len() == sizes.len()
    &&& forall|k: int|
        0 <= k < sizes.len() ==> (#[trigger] states[k]).pulled(
            states[k + 1],
            sizes[k],
            Ok(pulls[k]),
        ) && job_made(jobs[k], sizes[k], pulls[k], states[0].distinct_by_make())
}

/// Whether pulling for the sizes, one after another, takes the producer
/// from `before` to `after` and gives the jobs.
pub open spec fn collects<'a>(
    before: TripleGenerator<'a>,
    after: TripleGenerator<'a>,
    sizes: Seq<usize>,
    jobs: Seq<QueryJob>,
) -> bool {
    exists|states: Seq<TripleGenerator<'a>>, pulls: Seq<Vec<[u64; 3]>>|
        #[trigger] collected_through(sizes, jobs, states, pulls) && states[0] == before
            && states[sizes.len() as int] == after
}

/// Nothing is collected without a pull.
pub proof fn lemma_collected_nothing<'a>(start: TripleGenerator<'a>)
    ensures
        collected_through(
            Seq::<usize>::empty(),
            Seq::<QueryJob>::empty(),
            seq![start],
            Seq::<Vec<[u64; 3]>>::empty(),
        ),
{
    reveal(collected_through);
}

/// One more pull, and the job that is made of it, go on from what was
/// collected.
pub proof fn lemma_collected_more<'a>(
    sizes: Seq<usize>,
    jobs: Seq<QueryJob>,
    states: Seq<TripleGenerator<'a>>,
    pulls: Seq<Vec<[u64; 3]>>,
    size: usize,
    job: QueryJob,
    state: TripleGenerator<'a>,
    pull: Vec<[u64; 3]>,
)
    requires
        collected_through(sizes, jobs, states, pulls),
        states.len() == sizes.len() + 1,
        states[sizes.len() as int].pulled(state, size, Ok(pull)),
        job_made(job, size, pull, states[0].distinct_by_make()),
    ensures
        collected_through(sizes.push(size), jobs.push(job), states.push(state), pulls.push(pull)),
{
    reveal(collected_through);
    let longer = states.push(state);
    let more = pulls.push(pull);
    let upto = sizes.push(size);
    let made = jobs.push(job);
    assert forall|k: int| 0 <= k < upto.len() implies (#[trigger] longer[k]).pulled(
        longer[k + 1],
        upto[k],
        Ok(more[k]),
    ) && job_made(made[k], upto[k], more[k], longer[0].distinct_by_make()) by {
        if k < sizes.len() {
            assert(states[k].pulled(states[k + 1], sizes[k], Ok(pulls[k])));
        }
    }
}

/// What was collected has a job for each size, and each job asks for its
/// size.
pub proof fn lemma_collected_sizes<'a>(
    sizes: Seq<usize>,
    jobs: Seq<QueryJob>,
    states: Seq<TripleGenerator<'a>>,
    pulls: Seq<Vec<[u64; 3]>>,
)
    requires
        collected_through(sizes, jobs, states, pulls),
    ensures
        sizes_of_jobs(jobs) == sizes,
{
    reveal(collected_through);
    assert forall|k: int| 0 <= k < sizes.len() implies sizes_of_jobs(jobs)[k] == sizes[k] by {
        assert(states[k].pulled(states[k + 1], sizes[k], Ok(pulls[k])));
    }
}

/// Whether the producer can answer `n` pulls without failing: any producer
/// can, but for the producer of whole changesets, which needs a changeset
/// for each.
pub open spec fn can_answer<'a>(generator: TripleGenerator<'a>, n: nat) -> bool {
    generator matches TripleGenerator::BestFit(g) ==> n <= g.left()
}

/// Whether the producer hands out whole changesets and has none left.
pub open spec fn ran_out<'a>(generator: TripleGenerator<'a>) -> bool {
    generator matches TripleGenerator::BestFit(g) && g.exhausted()
}

/// The triples of one job, from what a pull gave: as they came where the
/// producer makes them distinct, else sorted and each kept once.
pub fn job_triples(pulled: Vec<[u64; 3]>, distinct: bool) -> (r: Vec<[u64; 3]>)
    ensures
        distinct ==> r == pulled,
        !distinct ==> strictly_increasing(keys_of(r@)) && keys_of(r@).to_set() == keys_of(
            pulled@,
        ).to_set(),
{
    if distinct {
        pulled
    } else {
        let mut set = CompressedRdfTriples::from_vec(pulled);
        set.sort_dedup();
        set.to_vec()
    }
}

/// Pulls the triples of every job that the specifications ask for, in the
/// order of the specifications. This fails when the producer of whole
/// changesets has no changeset left for a job.
pub fn collect_jobs<'a>(specs: &[QuerySpec], generator: &mut TripleGenerator<'a>) -> (r: Result<
    Vec<QueryJob>,
    Error,
>)
    ensures
        r is Ok <==> can_answer(*old(generator), job_sizes(specs@).len()),
        r is Ok ==> collects(*old(generator), *final(generator), job_sizes(specs@), r->Ok_0@),
        r is Ok ==> sizes_of_jobs(r->Ok_0@) == job_sizes(specs@),
        r is Err ==> r == Err::<Vec<QueryJob>, Error>(Error::ChangesetsExhausted),
        r is Err ==> exists|k: int, jobs: Seq<QueryJob>, last: TripleGenerator<'a>|
            0 <= k < job_sizes(specs@).len() && #[trigger] collects(
                *old(generator),
                last,
                job_sizes(specs@).take(k),
                jobs,
            ) && ran_out(last) && last.pulled(
                *final(generator),
                job_sizes(specs@)[k],
                Err(Error::ChangesetsExhausted),
            ),
{
    let sizes = expand_query_specs(specs);
    let mut jobs: Vec<QueryJob> = Vec::new();
    let n = sizes.len();
    let distinct = generator.yields_distinct();
    let ghost mut states: Seq<TripleGenerator<'a>> = seq![*generator];
    let ghost mut pulls: Seq<Vec<[u64; 3]>> = Seq::empty();
    let mut i: usize = 0;
    proof {
        lemma_collected_nothing(*generator);
        assert(sizes@.take(0) =~= Seq::<usize>::empty());
    }
    while i < n
        invariant
            n == sizes@.len(),
            sizes@ == job_sizes(specs@),
            i <= n,
            jobs@.len() == i,
            distinct == old(generator).distinct_by_make(),
            states.len() == i + 1,
            states[0] == *old(generator),
            states[i as int] == *generator,
            collected_through(sizes@.take(i as int), jobs@, states, pulls),
            (*old(generator)) is BestFit <==> (*generator) is BestFit,
            (*old(generator)) matches TripleGenerator::BestFit(first) ==> (
            *generator)->BestFit_0.left() + i == first.left(),
        decreases n - i,
    {
        let target_size = sizes[i];
        let ghost before = *generator;
        let pulled = match generator.pull(target_size) {
            Ok(pulled) => pulled,
            Err(_) => {
                proof {
                    assert(collects(*old(generator), before, sizes@.take(i as int), jobs@));
                    lemma_unused_none(before->BestFit_0.used());
                }
                return Err(Error::ChangesetsExhausted);
            },
        };
        proof {
            if before is BestFit {
                let g = before->BestFit_0;
                let after = (*generator)->BestFit_0;
                lemma_unused_none(g.used());
                let k = choose|k: int|
                    {
                        &&& #[trigger] is_best_fit(
                            sizes_of(g.changesets()),
                            g.used(),
                            target_size as int,
                            k,
                        )
                        &&& after.used() == g.used().update(k, true)
                    };
                lemma_unused_marked(g.used(), k);
            }
        }
        let ghost gave = pulled;
        let ghost had = jobs@;
        let triples = job_triples(pulled, distinct);
        let job = QueryJob { target_size, triples };
        proof {
            lemma_collected_more(
                sizes@.take(i as int),
                had,
                states,
                pulls,
                target_size,
                job,
                *generator,
                gave,
            );
            assert(sizes@.take(i + 1) =~= sizes@.take(i as int).push(target_size));
            states = states.push(*generator);
            pulls = pulls.push(gave);
        }
        jobs.push(job);
        i += 1;
    }
    proof {
        assert(sizes@.take(n as int) =~= sizes@);
        lemma_collected_sizes(sizes@, jobs@, states, pulls);
    }
    Ok(jobs)
}

/// Decompresses the triples of a job. An id that the dictionary does not
/// have makes it fail.
pub fn build_query<'a>(decompressor: &RdfTripleDecompressor<'a>, job: &QueryJob) -> (r: Result<
    Query<'a>,
    Error,
>)
    ensures
        knows_all(decompressor@, keys_of(job.triples@)) ==> r is Ok && decoded_from(
            decompressor@,
            *job,
            r->Ok_0,
        ),
        !knows_all(decompressor@, keys_of(job.triples@)) ==> r == Err::<Query<'a>, Error>(
            Error::UnknownId,
        ),
{
    let mut triples: Vec<[&'a [u8]; 3]> = Vec::new();
    let n = job.triples.len();
    let ghost keys = keys_of(job.triples@);
    let mut i: usize = 0;
    while i < n
        invariant
            n == job.triples@.len(),
            keys == keys_of(job.triples@),
            i <= n,
            triples@.len() == i,
            knows_all(decompressor@, keys.take(i as int)),
            forall|k: int|
                0 <= k < i ==> (#[trigger] terms_of(triples@)[k]) == decoded(
                    decompressor@,
                    keys[k],
                ),
        decreases n - i,
    {
        let t = job.triples[i];
        match decompressor.decompress_rdf_triple(&t) {
            Some(terms) => {
                let ghost before = triples@;
                triples.push(terms);
                proof {
                    assert forall|k: int| 0 <= k < i + 1 implies (#[trigger] terms_of(
                        triples@,
                    )[k]) == decoded(decompressor@, keys[k]) by {
                        if k < i {
                            assert(terms_of(before)[k] == decoded(decompressor@, keys[k]));
                        }
                    }
                }
            },
            None => {
                assert(!knows(decompressor@, keys[i as int]));
                return Err(Error::UnknownId);
            },
        }
        i += 1;
    }
    proof {
        assert(keys.take(n as int) =~= keys);
        assert(terms_of(triples@) =~= decoded_all(decompressor@, keys));
    }
    Ok(Query { target_size: job.target_size, triples })
}

/// Whether a dictionary has every id of every job.
pub open spec fn knows_jobs(dict: Map<u64, Seq<u8>>, jobs: Seq<QueryJob>) -> bool {
    forall|k: int| 0 <= k < jobs.len() ==> knows_all(dict, keys_of((#[trigger] jobs[k]).triples@))
}

/// Decompresses every job, in their order.
pub fn build_queries<'a>(decompressor: &RdfTripleDecompressor<'a>, jobs: &Vec<QueryJob>) -> (r:
    Result<Vec<Query<'a>>, Error>)
    ensures
        knows_jobs(decompressor@, jobs@) ==> r is Ok && r->Ok_0@.len() == jobs@.len()
            && forall|k: int|
            0 <= k < jobs@.len() ==> decoded_from(decompressor@, jobs@[k], #[trigger] r->Ok_0@[k]),
        !knows_jobs(decompressor@, jobs@) ==> r == Err::<Vec<Query<'a>>, Error>(Error::UnknownId),
{
    let mut queries: Vec<Query<'a>> = Vec::new();
    let n = jobs.len();
    let mut i: usize = 0;
    while i < n
        invariant
            n == jobs@.len(),
            i <= n,
            queries@.len() == i,
            knows_jobs(decompressor@, jobs@.take(i as int)),
            forall|k: int|
                0 <= k < i ==> decoded_from(decompressor@, jobs@[k], #[trigger] queries@[k]),
        decreases n - i,
    {
        match build_query(decompressor, &jobs[i]) {
            Ok(query) => {
                queries.push(query);
            },
            Err(_) => {
                return Err(Error::UnknownId);
            },
        }
        i += 1;
    }
    assert(jobs@.take(n as int) =~= jobs@);
    Ok(queries)
}

/// Appends the text of one query to `out`.
pub fn push_query_text(out: &mut Vec<u8>, query: &Query<'_>)
    ensures
        final(out)@ == old(out)@ + query_text(terms_of(query.triples@)),
{
    let ghost terms = terms_of(query.triples@);
    out.push(0x44u8);
    out.push(0x45u8);
    out.push(0x4cu8);
    out.push(0x45u8);
    out.push(0x54u8);
    out.push(0x45u8);
    out.push(0x20u8);
    out.push(0x44u8);
    out.push(0x41u8);
    out.push(0x54u8);
    out.push(0x41u8);
    out.push(0x20u8);
    out.push(0x7bu8);
    out.push(0x0au8);
    let n = query.triples.len();
    let mut i: usize = 0;
    while i < n
        invariant
            n == query.triples@.len(),
            terms == terms_of(query.triples@),
            i <= n,
            out@ == old(out)@ + query_opening() + query_lines(terms.take(i as int)),
        decreases n - i,
    {
        let t = &query.triples[i];
        out.push(0x20u8);
        out.push(0x20u8);
        push_statement_line(out, t[0], t[1], t[2]);
        proof {
            let upto = terms.take(i + 1);
            assert(upto.drop_last() =~= terms.take(i as int));
        }
        i += 1;
    }
    assert(terms.take(n as int) =~= terms);
    out.push(0x7du8);
    out.push(0x0au8);
}

/// The text of the queries: for each query, in their order, a line
/// `DELETE DATA {`, a line for each triple, and a line `}`.
pub fn write_delete_data_queries(queries: &Vec<Query<'_>>) -> (text: Vec<u8>)
    ensures
        text@ == queries_text(terms_of_queries(queries@)),
{
    let mut text: Vec<u8> = Vec::new();
    let ghost all = terms_of_queries(queries@);
    let n = queries.len();
    let mut i: usize = 0;
    while i < n
        invariant
            n == queries@.len(),
            all == terms_of_queries(queries@),
            i <= n,
            text@ == queries_text(all.take(i as int)),
        decreases n - i,
    {
        push_query_text(&mut text, &queries[i]);
        proof {
            let upto = all.take(i + 1);
            assert(upto.drop_last() =~= all.take(i as int));
        }
        i += 1;
    }
    assert(all.take(n as int) =~= all);
    text
}

/// Decompresses the jobs, which are in output order already, and writes
/// the queries out.
pub fn write_jobs<'a>(decompressor: &RdfTripleDecompressor<'a>, jobs: Vec<QueryJob>) -> (r: Result<
    Generated<'a>,
    Error,
>)
    ensures
        knows_jobs(decompressor@, jobs@) ==> r is Ok && r->Ok_0.jobs == jobs && generated_from(
            decompressor@,
            r->Ok_0,
        ),
        !knows_jobs(decompressor@, jobs@) ==> r == Err::<Generated<'a>, Error>(Error::UnknownId),
{
    let queries = match build_queries(decompressor, &jobs) {
        Ok(queries) => queries,
        Err(_) => {
            return Err(Error::UnknownId);
        },
    };
    let text = write_delete_data_queries(&queries);
    Ok(Generated { jobs, queries, text })
}

/// Whether the queries are what a dictionary makes of the jobs, one query
/// for each job, and the text is the text of the queries.
pub open spec fn generated_from<'a>(dict: Map<u64, Seq<u8>>, g: Generated<'a>) -> bool {
    &&& g.queries@.len() == g.jobs@.len()
    &&& forall|k: int|
        0 <= k < g.jobs@.len() ==> decoded_from(dict, g.jobs@[k], #[trigger] g.queries@[k])
    &&& g.text@ == queries_text(terms_of_queries(g.queries@))
}

/// The same jobs in another order are known to a dictionary if the jobs
/// are.
pub proof fn lemma_reordered_known(dict: Map<u64, Seq<u8>>, a: Seq<QueryJob>, b: Seq<QueryJob>)
    requires
        a.to_multiset() == b.to_multiset(),
    ensures
        knows_jobs(dict, a) == knows_jobs(dict, b),
{
    a.to_multiset_ensures();
    b.to_multiset_ensures();
    if knows_jobs(dict, a) {
        assert forall|k: int| 0 <= k < b.len() implies knows_all(
            dict,
            keys_of((#[trigger] b[k]).triples@),
        ) by {
            assert(a.to_multiset().count(b[k]) > 0);
        }
    }
    if knows_jobs(dict, b) {
        assert forall|k: int| 0 <= k < a.len() implies knows_all(
            dict,
            keys_of((#[trigger] a[k]).triples@),
        ) by {
            assert(b.to_multiset().count(a[k]) > 0);
        }
    }
}

/// Builds the queries that the specifications ask for. The triples of each
/// query are pulled from the producer, in the order of the specifications;
/// the queries are then brought into the output order, decompressed and
/// written out. Under `AsSpecified` the queries come in the order of the
/// specifications, under the two sorted orders by the size that was asked
/// for. This fails when the producer of whole changesets has no changeset
/// left for a job, and when the dictionary lacks an id of a triple that was
/// pulled.
pub fn generate_queries<'a, 'b>(
    specs: &[QuerySpec],
    decompressor: &RdfTripleDecompressor<'a>,
    generator: &mut TripleGenerator<'b>,
    order: OutputOrder,
    seed: u64,
) -> (r: Result<Generated<'a>, Error>)
    ensures
        r is Ok ==> {
            &&& generated_from(decompressor@, r->Ok_0)
            &&& exists|jobs: Seq<QueryJob>| #[trigger]
                collects(*old(generator), *final(generator), job_sizes(specs@), jobs)
                    && ordered_as(order, jobs, r->Ok_0.jobs@)
            &&& order == OutputOrder::AsSpecified ==> sizes_of_jobs(r->Ok_0.jobs@) == job_sizes(
                specs@,
            )
            &&& order == OutputOrder::SortedSizeAsc ==> sizes_ascend(sizes_of_jobs(r->Ok_0.jobs@))
            &&& order == OutputOrder::SortedSizeDesc ==> sizes_descend(
                sizes_of_jobs(r->Ok_0.jobs@),
            )
        },
        r is Err ==> r->Err_0 == Error::ChangesetsExhausted || r->Err_0 == Error::UnknownId,
        r is Err && r->Err_0 == Error::ChangesetsExhausted <==> !can_answer(
            *old(generator),
            job_sizes(specs@).len(),
        ),
        r is Err && r->Err_0 == Error::ChangesetsExhausted ==> exists|
            k: int,
            jobs: Seq<QueryJob>,
            last: TripleGenerator<'b>,
        |
            0 <= k < job_sizes(specs@).len() && #[trigger] collects(
                *old(generator),
                last,
                job_sizes(specs@).take(k),
                jobs,
            ) && ran_out(last) && last.pulled(
                *final(generator),
                job_sizes(specs@)[k],
                Err(Error::ChangesetsExhausted),
            ),
        r is Err && r->Err_0 == Error::UnknownId ==> exists|jobs: Seq<QueryJob>| #[trigger]
            collects(*old(generator), *final(generator), job_sizes(specs@), jobs) && !knows_jobs(
                decompressor@,
                jobs,
            ),
{
    let jobs = match collect_jobs(specs, generator) {
        Ok(jobs) => jobs,
        Err(e) => {
            return Err(e);
        },
    };
    let ghost gathered = jobs@;
    let ordered = order_jobs(jobs, order, seed);
    proof {
        lemma_reordered_known(decompressor@, gathered, ordered@);
    }
    write_jobs(decompressor, ordered)
}

/// Builds one query from each changeset, in the order of the changesets,
/// with exactly the triples of the changeset in their order.
pub fn generate_linear_no_size_hint<'a>(
    decompressor: &RdfTripleDecompressor<'a>,
    changesets: &[CompressedRdfTriples],
) -> (r: Result<Generated<'a>, Error>)
    ensures
        r is Ok ==> {
            &&& generated_from(decompressor@, r->Ok_0)
            &&& r->Ok_0.jobs@.len() == changesets@.len()
            &&& forall|k: int|
                0 <= k < changesets@.len() ==> keys_of((#[trigger] r->Ok_0.jobs@[k]).triples@)
                    == changesets@[k]@ && r->Ok_0.jobs@[k].target_size == changesets@[k]@.len()
        },
        r is Err ==> r->Err_0 == Error::UnknownId,
        (forall|k: int|
            0 <= k < changesets@.len() ==> knows_all(decompressor@, (#[trigger] changesets@[k])@))
            <==> r is Ok,
{
    let mut source = linear_changeset_triple_generator(changesets);
    let mut jobs: Vec<QueryJob> = Vec::new();
    let n = changesets.len();
    let mut i: usize = 0;
    while i < n
        invariant
            n == changesets@.len(),
            source.changesets() == changesets@,
            source.position() == i,
            i <= n,
            jobs@.len() == i,
            forall|k: int|
                0 <= k < i ==> keys_of((#[trigger] jobs@[k]).triples@) == changesets@[k]@
                    && jobs@[k].target_size == changesets@[k]@.len(),
        decreases n - i,
    {
        let triples = source.next_changeset().unwrap();
        let target_size = triples.len();
        jobs.push(QueryJob { target_size, triples });
        i += 1;
    }
    proof {
        if knows_jobs(decompressor@, jobs@) {
            assert forall|k: int| 0 <= k < changesets@.len() implies knows_all(
                decompressor@,
                (#[trigger] changesets@[k])@,
            ) by {
                assert(knows_all(decompressor@, keys_of(jobs@[k].triples@)));
            }
        } else {
            let k = choose|k: int|
                0 <= k < jobs@.len() && !knows_all(
                    decompressor@,
                    keys_of((#[trigger] jobs@[k]).triples@),
                );
        }
    }
    write_jobs(decompressor, jobs)
}

/// All triples of the jobs, one job after another.
pub open spec fn triples_of_jobs(jobs: Seq<QueryJob>) -> Seq<TripleKey>
    decreases jobs.len(),
{
    if jobs.len() == 0 {
        Seq::empty()
    } else {
        triples_of_jobs(jobs.drop_last()) + keys_of(jobs.last().triples@)
    }
}

/// What was collected from the producer of distinct positions, up to the
/// `m`-th pull, is what the producer has emitted since the first state.
proof fn lemma_collected_emitted<'a>(
    sizes: Seq<usize>,
    jobs: Seq<QueryJob>,
    states: Seq<TripleGenerator<'a>>,
    pulls: Seq<Vec<[u64; 3]>>,
    m: int,
)
    requires
        collected_through(sizes, jobs, states, pulls),
        states[0] is RandomDistinct,
        0 <= m <= sizes.len(),
    ensures
        states[m] is RandomDistinct,
        states[m]->RandomDistinct_0.dataset() == states[0]->RandomDistinct_0.dataset(),
        states[m]->RandomDistinct_0.emitted() == states[0]->RandomDistinct_0.emitted()
            + triples_of_jobs(jobs.take(m)),
        m > 0 && strictly_increasing(states[0]->RandomDistinct_0.dataset())
            ==> states[m]->RandomDistinct_0.emitted().no_duplicates(),
    decreases m,
{
    reveal(collected_through);
    if m == 0 {
        assert(jobs.take(0) =~= Seq::<QueryJob>::empty());
        assert(states[0]->RandomDistinct_0.emitted() + Seq::<TripleKey>::empty()
            =~= states[0]->RandomDistinct_0.emitted());
    } else {
        lemma_collected_emitted(sizes, jobs, states, pulls, m - 1);
        assert(states[m - 1].pulled(states[m], sizes[m - 1], Ok(pulls[m - 1])));
        assert(jobs.take(m).drop_last() =~= jobs.take(m - 1));
        assert(jobs.take(m).last() == jobs[m - 1]);
        let earlier = states[0]->RandomDistinct_0.emitted();
        assert(earlier + triples_of_jobs(jobs.take(m - 1)) + keys_of(pulls[m - 1]@) =~= earlier + (
        triples_of_jobs(jobs.take(m - 1)) + keys_of(pulls[m - 1]@)));
    }
}

/// Distinct sampling: the queries that are collected from a fresh producer
/// of distinct positions over a dataset without repeated triples hold, all
/// together, no triple twice.
pub proof fn lemma_distinct_sampling<'a>(
    before: TripleGenerator<'a>,
    after: TripleGenerator<'a>,
    sizes: Seq<usize>,
    jobs: Seq<QueryJob>,
)
    requires
        collects(before, after, sizes, jobs),
        before matches TripleGenerator::RandomDistinct(g) && g.taken() == 0 && strictly_increasing(
            g.dataset(),
        ),
    ensures
        triples_of_jobs(jobs).no_duplicates(),
{
    let (states, pulls) = choose|states: Seq<TripleGenerator<'a>>, pulls: Seq<Vec<[u64; 3]>>|
        #[trigger] collected_through(sizes, jobs, states, pulls) && states[0] == before
            && states[sizes.len() as int] == after;
    lemma_collected_emitted(sizes, jobs, states, pulls, sizes.len() as int);
    lemma_collected_sizes(sizes, jobs, states, pulls);
    assert(jobs.take(sizes.len() as int) =~= jobs);
    let first = before->RandomDistinct_0;
    assert(first.emitted() =~= Seq::<TripleKey>::empty());
    assert(first.emitted() + triples_of_jobs(jobs) =~= triples_of_jobs(jobs));
}

} // verus!
