use rdf_workload::error::Error;
use rdf_workload::generator::{
    as_is_changeset_triple_generator, fixed_size_changeset_triple_generator,
    linear_changeset_triple_generator, random_distinct_triple_generator, random_triple_generator,
};
use rdf_workload::triples::CompressedRdfTriples;

fn dataset(n: u64) -> CompressedRdfTriples {
    CompressedRdfTriples::from_vec((0..n).map(|i| [i, i + 1, i + 2]).collect())
}

fn changeset(first: u64, n: u64) -> CompressedRdfTriples {
    CompressedRdfTriples::from_vec((first..first + n).map(|i| [i, i + 1, i + 2]).collect())
}

#[test]
fn random_pull_yields_as_many_triples_as_asked_for() {
    let triples = dataset(5);
    let mut generator = random_triple_generator(&triples, 1);
    for size in [0usize, 1, 3, 5, 12] {
        let pulled = generator.pull(size);
        assert_eq!(pulled.len(), size);
        for t in &pulled {
            assert!(triples.contains(t));
        }
    }
}

#[test]
fn random_pull_from_an_empty_dataset_yields_nothing() {
    let triples = dataset(0);
    let mut generator = random_triple_generator(&triples, 7);
    assert!(generator.pull(3).is_empty());
}

#[test]
fn random_pull_draws_from_the_whole_dataset() {
    let triples = dataset(4);
    let mut generator = random_triple_generator(&triples, 99);
    let pulled = generator.pull(400);
    for t in triples.to_vec() {
        assert!(pulled.contains(&t));
    }
}

#[test]
fn distinct_pulls_never_repeat_a_triple() {
    let triples = dataset(100);
    let mut generator = random_distinct_triple_generator(&triples, 40, 3);
    let mut seen: Vec<[u64; 3]> = Vec::new();
    for size in [10usize, 10, 10, 5, 5] {
        let pulled = generator.pull(size);
        assert_eq!(pulled.len(), size);
        for t in pulled {
            assert!(triples.contains(&t));
            assert!(!seen.contains(&t));
            seen.push(t);
        }
    }
    assert_eq!(seen.len(), 40);
    assert!(generator.pull(1).is_empty());
}

#[test]
fn distinct_pulls_come_up_short_when_the_positions_run_out() {
    let triples = dataset(6);
    let mut generator = random_distinct_triple_generator(&triples, 4, 11);
    assert_eq!(generator.pull(3).len(), 3);
    assert_eq!(generator.pull(3).len(), 1);
    assert_eq!(generator.pull(3).len(), 0);
}

#[test]
fn distinct_positions_are_at_most_the_whole_dataset() {
    let triples = dataset(6);
    let mut generator = random_distinct_triple_generator(&triples, 10, 5);
    let mut pulled = generator.pull(10);
    assert_eq!(pulled.len(), 6);
    pulled.sort();
    assert_eq!(pulled, triples.to_vec());
}

#[test]
fn best_fit_hands_out_the_nearest_unused_changeset() {
    let changesets = vec![changeset(0, 2), changeset(10, 7), changeset(20, 4), changeset(30, 6)];
    let mut generator = as_is_changeset_triple_generator(&changesets);
    assert_eq!(generator.pull(5), Ok(changesets[2].to_vec()));
    assert_eq!(generator.pull(5), Ok(changesets[3].to_vec()));
    assert_eq!(generator.pull(5), Ok(changesets[1].to_vec()));
    assert_eq!(generator.pull(1000), Ok(changesets[0].to_vec()));
    assert_eq!(generator.pull(5), Err(Error::ChangesetsExhausted));
    assert_eq!(generator.pull(0), Err(Error::ChangesetsExhausted));
}

#[test]
fn best_fit_prefers_the_first_of_equally_near_changesets() {
    let changesets = vec![changeset(0, 4), changeset(10, 4)];
    let mut generator = as_is_changeset_triple_generator(&changesets);
    assert_eq!(generator.pull(4), Ok(changesets[0].to_vec()));
    assert_eq!(generator.pull(4), Ok(changesets[1].to_vec()));
    assert_eq!(generator.pull(4), Err(Error::ChangesetsExhausted));
}

#[test]
fn best_fit_without_changesets_is_exhausted() {
    let changesets: Vec<CompressedRdfTriples> = Vec::new();
    let mut generator = as_is_changeset_triple_generator(&changesets);
    assert_eq!(generator.pull(1), Err(Error::ChangesetsExhausted));
}

#[test]
fn stitching_keeps_what_the_main_dataset_holds() {
    let main = dataset(10);
    let changesets = vec![CompressedRdfTriples::from_vec(vec![
        [3, 4, 5],
        [3, 4, 6],
        [0, 1, 2],
        [9, 10, 11],
        [9, 9, 9],
        [3, 4, 5],
    ])];
    let generator = fixed_size_changeset_triple_generator(&changesets, &main, 5);
    assert_eq!(generator.pull(10), vec![[3, 4, 5], [0, 1, 2], [9, 10, 11], [3, 4, 5]]);
    assert_eq!(generator.pull(2), vec![[3, 4, 5], [0, 1, 2]]);
    assert_eq!(generator.pull(0), Vec::<[u64; 3]>::new());
    assert_eq!(generator.pull(4), generator.pull(4));
}

#[test]
fn stitching_goes_on_from_the_start_and_then_backwards() {
    let main = dataset(100);
    let changesets = vec![changeset(0, 2), changeset(10, 2), changeset(20, 2), changeset(30, 2)];
    let orders: Vec<Vec<[u64; 3]>> = vec![
        [0u64, 1, 10, 11, 20, 21, 30, 31].iter().map(|i| [*i, i + 1, i + 2]).collect(),
        [10u64, 11, 20, 21, 30, 31, 0, 1].iter().map(|i| [*i, i + 1, i + 2]).collect(),
        [20u64, 21, 30, 31, 10, 11, 0, 1].iter().map(|i| [*i, i + 1, i + 2]).collect(),
        [30u64, 31, 20, 21, 10, 11, 0, 1].iter().map(|i| [*i, i + 1, i + 2]).collect(),
    ];
    let mut starts_seen = [false; 4];
    for seed in 0..64 {
        let generator = fixed_size_changeset_triple_generator(&changesets, &main, seed);
        let all = generator.pull(100);
        let which = orders.iter().position(|o| *o == all).unwrap();
        starts_seen[which] = true;
        assert_eq!(generator.pull(3), orders[which][..3].to_vec());
    }
    assert!(starts_seen.iter().all(|seen| *seen));
}

#[test]
fn stitching_nothing_yields_nothing() {
    let main = dataset(3);
    let changesets: Vec<CompressedRdfTriples> = Vec::new();
    let generator = fixed_size_changeset_triple_generator(&changesets, &main, 0);
    assert!(generator.pull(5).is_empty());
}

#[test]
fn linear_generator_yields_each_changeset_in_order() {
    let changesets = vec![changeset(5, 2), changeset(0, 0), changeset(1, 3)];
    let mut generator = linear_changeset_triple_generator(&changesets);
    assert_eq!(generator.next_changeset(), Some(vec![[5, 6, 7], [6, 7, 8]]));
    assert_eq!(generator.next_changeset(), Some(vec![]));
    assert_eq!(generator.next_changeset(), Some(vec![[1, 2, 3], [2, 3, 4], [3, 4, 5]]));
    assert_eq!(generator.next_changeset(), None);
    assert_eq!(generator.next_changeset(), None);
}
