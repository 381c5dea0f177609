//! Figures of compressed datasets.

use crate::generator::kept;
use crate::triples::{non_decreasing, CompressedRdfTriples, TripleKey};
use std::collections::HashSet;
use vstd::prelude::*;

verus! {

/// The figures of a dataset: how many triples it has, and how many distinct
/// subjects, predicates and objects.
#[derive(Clone, Copy, Debug, PartialEq, Eq, Structural)]
pub struct DatasetStats {
    pub n_triples: usize,
    pub n_subjects: usize,
    pub n_predicates: usize,
    pub n_objects: usize,
}

/// The ids that stand as subject in some triple.
pub open spec fn subjects_of(triples: Seq<TripleKey>) -> Set<u64> {
    Set::new(|id: u64| exists|i: int| 0 <= i < triples.len() && (#[trigger] triples[i]).0 == id)
}

/// The ids that stand as predicate in some triple.
pub open spec fn predicates_of(triples: Seq<TripleKey>) -> Set<u64> {
    Set::new(|id: u64| exists|i: int| 0 <= i < triples.len() && (#[trigger] triples[i]).1 == id)
}

/// The ids that stand as object in some triple.
pub open spec fn objects_of(triples: Seq<TripleKey>) -> Set<u64> {
    Set::new(|id: u64| exists|i: int| 0 <= i < triples.len() && (#[trigger] triples[i]).2 == id)
}

/// Counts the triples of a dataset and its distinct subjects, predicates
/// and objects.
pub fn dataset_stats(dataset: &CompressedRdfTriples) -> (stats: DatasetStats)
    ensures
        stats.n_triples == dataset@.len(),
        stats.n_subjects == subjects_of(dataset@).len(),
        stats.n_predicates == predicates_of(dataset@).len(),
        stats.n_objects == objects_of(dataset@).len(),
{
    let mut subjects: HashSet<u64> = HashSet::new();
    let mut predicates: HashSet<u64> = HashSet::new();
    let mut objects: HashSet<u64> = HashSet::new();
    let n = dataset.len();
    let mut i: usize = 0;
    while i < n
        invariant
            n == dataset@.len(),
            i <= n,
            subjects@ == subjects_of(dataset@.take(i as int)),
            predicates@ == predicates_of(dataset@.take(i as int)),
            objects@ == objects_of(dataset@.take(i as int)),
        decreases n - i,
    {
        let t = dataset.get(i);
        subjects.insert(t[0]);
        predicates.insert(t[1]);
        objects.insert(t[2]);
        proof {
            let upto = dataset@.take(i + 1);
            assert(upto[i as int] == dataset@[i as int]);
        }
        i += 1;
    }
    assert(dataset@.take(n as int) =~= dataset@);
    DatasetStats {
        n_triples: n,
        n_subjects: subjects.len(),
        n_predicates: predicates.len(),
        n_objects: objects.len(),
    }
}

/// Counts the triples of `candidates` that the main dataset holds. The main
/// dataset must be in non-decreasing order.
pub fn count_contained(main: &CompressedRdfTriples, candidates: &CompressedRdfTriples) -> (count:
    usize)
    requires
        non_decreasing(main@),
    ensures
        count == kept(candidates@, main@).len(),
{
    let n = candidates.len();
    let mut count: usize = 0;
    let mut i: usize = 0;
    while i < n
        invariant
            n == candidates@.len(),
            non_decreasing(main@),
            i <= n,
            count <= i,
            count == kept(candidates@.take(i as int), main@).len(),
        decreases n - i,
    {
        let t = candidates.get(i);
        proof {
            let upto = candidates@.take(i + 1);
            assert(upto.drop_last() =~= candidates@.take(i as int));
        }
        if main.contains(&t) {
            count += 1;
        }
        i += 1;
    }
    assert(candidates@.take(n as int) =~= candidates@);
    count
}

} // verus!
