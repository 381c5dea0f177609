use rdf_workload::compressor::RdfTripleCompressor;
use rdf_workload::decompressor::RdfTripleDecompressor;
use rdf_workload::endian::ByteOrder;
use rdf_workload::error::Error;
use rdf_workload::generator::{
    as_is_changeset_triple_generator, fixed_size_changeset_triple_generator,
    random_distinct_triple_generator, random_triple_generator,
};
use rdf_workload::sparql::{
    build_queries, build_query, collect_jobs, expand_query_specs, generate_linear_no_size_hint,
    generate_queries, job_triples, order_jobs, push_query_text, reverse_jobs,
    total_query_triples, write_delete_data_queries, write_jobs, OutputOrder, Query, QueryJob,
    QuerySpec, TripleGenerator,
};
use rdf_workload::stats::{count_contained, dataset_stats, DatasetStats};
use rdf_workload::triples::CompressedRdfTriples;

fn spec(n_queries: usize, n_triples_per_query: usize) -> QuerySpec {
    QuerySpec { n_queries, n_triples_per_query }
}

fn job(target_size: usize) -> QueryJob {
    QueryJob { target_size, triples: vec![[target_size as u64, 0, 0]] }
}

fn sizes(jobs: &[QueryJob]) -> Vec<usize> {
    jobs.iter().map(|j| j.target_size).collect()
}

/// A dictionary with the terms `<0>` to `<n + 1>` under the ids 0 to n + 1.
fn dictionary(n: u64) -> Vec<u8> {
    let mut d = RdfTripleCompressor::new();
    for id in 0..n + 2 {
        d.record(id, format!("<{}>", id).as_bytes());
    }
    d.save_state(ByteOrder::LittleEndian)
}

fn dataset(n: u64) -> CompressedRdfTriples {
    CompressedRdfTriples::from_vec((0..n).map(|i| [i, i + 1, i + 2]).collect())
}

fn blocks(text: &[u8]) -> Vec<Vec<String>> {
    let text = String::from_utf8(text.to_vec()).unwrap();
    let mut blocks = Vec::new();
    let mut lines = text.lines();
    while let Some(line) = lines.next() {
        assert_eq!(line, "DELETE DATA {");
        let mut block = Vec::new();
        loop {
            let line = lines.next().unwrap();
            if line == "}" {
                break;
            }
            assert!(line.starts_with("  ") && line.ends_with(" ."));
            block.push(line.to_string());
        }
        blocks.push(block);
    }
    assert!(text.is_empty() || text.ends_with("}\n"));
    blocks
}

#[test]
fn specifications_expand_to_one_size_for_each_query() {
    assert_eq!(expand_query_specs(&[spec(3, 10), spec(2, 5)]), vec![10, 10, 10, 5, 5]);
    assert_eq!(expand_query_specs(&[spec(0, 10), spec(1, 0), spec(2, 7)]), vec![0, 7, 7]);
    assert_eq!(expand_query_specs(&[]), Vec::<usize>::new());
}

#[test]
fn total_is_the_sum_of_the_products() {
    assert_eq!(total_query_triples(&[spec(3, 10), spec(2, 5)]), Some(40));
    assert_eq!(total_query_triples(&[]), Some(0));
    assert_eq!(total_query_triples(&[spec(0, usize::MAX), spec(usize::MAX, 1)]), Some(usize::MAX));
}

#[test]
fn total_that_does_not_fit_is_none() {
    assert_eq!(total_query_triples(&[spec(2, usize::MAX)]), None);
    assert_eq!(total_query_triples(&[spec(1, usize::MAX), spec(1, 1)]), None);
    assert_eq!(total_query_triples(&[spec(usize::MAX, usize::MAX), spec(0, 0)]), None);
}

#[test]
fn as_specified_keeps_the_order() {
    let ordered = order_jobs(vec![job(5), job(1), job(9), job(1)], OutputOrder::AsSpecified, 0);
    assert_eq!(sizes(&ordered), vec![5, 1, 9, 1]);
}

#[test]
fn sorted_orders_go_by_size() {
    let ordered = order_jobs(vec![job(5), job(1), job(9), job(1)], OutputOrder::SortedSizeAsc, 0);
    assert_eq!(sizes(&ordered), vec![1, 1, 5, 9]);
    let ordered = order_jobs(vec![job(5), job(1), job(9), job(1)], OutputOrder::SortedSizeDesc, 0);
    assert_eq!(sizes(&ordered), vec![9, 5, 1, 1]);
    for j in &ordered {
        assert_eq!(j.triples, vec![[j.target_size as u64, 0, 0]]);
    }
}

#[test]
fn randomized_order_keeps_every_job() {
    let mut seen_other_order = false;
    for seed in 0..32 {
        let ordered = order_jobs((0..10).map(job).collect(), OutputOrder::Randomized, seed);
        let mut got = sizes(&ordered);
        if got != (0..10).collect::<Vec<usize>>() {
            seen_other_order = true;
        }
        got.sort();
        assert_eq!(got, (0..10).collect::<Vec<usize>>());
    }
    assert!(seen_other_order);
}

#[test]
fn jobs_are_reversed() {
    assert_eq!(sizes(&reverse_jobs(vec![job(1), job(2), job(3)])), vec![3, 2, 1]);
    assert!(reverse_jobs(Vec::new()).is_empty());
}

#[test]
fn triples_of_a_job_are_made_distinct_where_needed() {
    let pulled = vec![[3, 0, 0], [1, 0, 0], [3, 0, 0]];
    assert_eq!(job_triples(pulled.clone(), true), pulled);
    assert_eq!(job_triples(pulled, false), vec![[1, 0, 0], [3, 0, 0]]);
}

#[test]
fn query_text_is_a_delete_data_block() {
    let queries = vec![
        Query { target_size: 2, triples: vec![[&b"<s1>"[..], &b"<p1>"[..], &b"<o1>"[..]], [&b"<s2>"[..], &b"<p2>"[..], &b"\"o 2\""[..]]] },
        Query { target_size: 1, triples: vec![] },
        Query { target_size: 1, triples: vec![[&b"a"[..], &b"b"[..], &b"c"[..]]] },
    ];
    let text = write_delete_data_queries(&queries);
    let expected = "DELETE DATA {\n  <s1> <p1> <o1> .\n  <s2> <p2> \"o 2\" .\n}\nDELETE DATA {\n}\nDELETE DATA {\n  a b c .\n}\n";
    assert_eq!(String::from_utf8(text).unwrap(), expected);
    assert!(write_delete_data_queries(&Vec::new()).is_empty());
    let mut out = b">".to_vec();
    push_query_text(&mut out, &queries[2]);
    assert_eq!(out, b">DELETE DATA {\n  a b c .\n}\n".to_vec());
}

#[test]
fn job_is_decompressed_triple_by_triple() {
    let image = dictionary(5);
    let d = RdfTripleDecompressor::load_state(&image, ByteOrder::LittleEndian).unwrap();
    let query = build_query(&d, &QueryJob { target_size: 9, triples: vec![[0, 1, 2], [6, 0, 6]] }).unwrap();
    assert_eq!(query.target_size, 9);
    assert_eq!(query.triples, vec![[&b"<0>"[..], &b"<1>"[..], &b"<2>"[..]], [&b"<6>"[..], &b"<0>"[..], &b"<6>"[..]]]);
    let r = build_query(&d, &QueryJob { target_size: 1, triples: vec![[0, 1, 2], [0, 7, 0]] });
    assert!(matches!(r, Err(Error::UnknownId)));
    let jobs = vec![job(1), job(2)];
    let queries = build_queries(&d, &jobs).unwrap();
    assert_eq!(queries.len(), 2);
    assert_eq!(queries[1].triples, vec![[&b"<2>"[..], &b"<0>"[..], &b"<0>"[..]]]);
    assert!(matches!(build_queries(&d, &vec![job(1), job(7)]), Err(Error::UnknownId)));
    let written = write_jobs(&d, vec![job(3)]).unwrap();
    assert_eq!(written.text, b"DELETE DATA {\n  <3> <0> <0> .\n}\n".to_vec());
    assert!(matches!(write_jobs(&d, vec![job(8)]), Err(Error::UnknownId)));
}

#[test]
fn random_queries_hold_up_to_the_size_asked_for() {
    let image = dictionary(5);
    let d = RdfTripleDecompressor::load_state(&image, ByteOrder::LittleEndian).unwrap();
    let triples = dataset(5);
    let mut generator = TripleGenerator::Random(random_triple_generator(&triples, 17));
    let g = generate_queries(&[spec(2, 3)], &d, &mut generator, OutputOrder::AsSpecified, 0).unwrap();
    assert_eq!(g.queries.len(), 2);
    let all = blocks(&g.text);
    assert_eq!(all.len(), 2);
    for (block, q) in all.iter().zip(&g.queries) {
        assert_eq!(q.target_size, 3);
        assert!(block.len() >= 1 && block.len() <= 3);
        assert_eq!(block.len(), q.triples.len());
        let mut lines = block.clone();
        lines.dedup();
        assert_eq!(lines.len(), block.len());
        for line in block {
            let i: u64 = line[3..line.find('>').unwrap()].parse().unwrap();
            assert!(i < 5);
            assert_eq!(*line, format!("  <{}> <{}> <{}> .", i, i + 1, i + 2));
        }
    }
}

#[test]
fn distinct_queries_share_no_triple() {
    let image = dictionary(100);
    let d = RdfTripleDecompressor::load_state(&image, ByteOrder::LittleEndian).unwrap();
    let triples = dataset(100);
    assert_eq!(triples.check_main_dataset(), Ok(()));
    let specs = [spec(3, 10), spec(2, 5)];
    let total = total_query_triples(&specs).unwrap();
    assert_eq!(total, 40);
    let mut generator = TripleGenerator::RandomDistinct(random_distinct_triple_generator(&triples, total, 23));
    let g = generate_queries(&specs, &d, &mut generator, OutputOrder::AsSpecified, 0).unwrap();
    assert_eq!(sizes(&g.jobs), vec![10, 10, 10, 5, 5]);
    let all = blocks(&g.text);
    assert_eq!(all.iter().map(|b| b.len()).collect::<Vec<usize>>(), vec![10, 10, 10, 5, 5]);
    let mut union: Vec<String> = all.into_iter().flatten().collect();
    assert_eq!(union.len(), 40);
    union.sort();
    union.dedup();
    assert_eq!(union.len(), 40);
}

#[test]
fn best_fit_query_holds_the_nearest_changeset() {
    let image = dictionary(40);
    let d = RdfTripleDecompressor::load_state(&image, ByteOrder::LittleEndian).unwrap();
    let main = dataset(7);
    assert!(main.is_sorted());
    let changesets = vec![
        CompressedRdfTriples::from_vec(vec![[0, 1, 2], [1, 2, 3], [2, 3, 4], [3, 4, 5]]),
        CompressedRdfTriples::from_vec(vec![[3, 4, 5], [4, 5, 6], [5, 6, 7], [6, 7, 8]]),
    ];
    let mut generator = TripleGenerator::BestFit(as_is_changeset_triple_generator(&changesets));
    let g = generate_queries(&[spec(1, 4)], &d, &mut generator, OutputOrder::AsSpecified, 0).unwrap();
    assert_eq!(
        String::from_utf8(g.text).unwrap(),
        "DELETE DATA {\n  <0> <1> <2> .\n  <1> <2> <3> .\n  <2> <3> <4> .\n  <3> <4> <5> .\n}\n"
    );
    let r = generate_queries(&[spec(2, 4)], &d, &mut generator, OutputOrder::AsSpecified, 0);
    assert!(matches!(r, Err(Error::ChangesetsExhausted)));
}

#[test]
fn output_order_arranges_the_queries() {
    let image = dictionary(40);
    let d = RdfTripleDecompressor::load_state(&image, ByteOrder::LittleEndian).unwrap();
    let changesets = vec![dataset(1), dataset(2), dataset(3), dataset(4), dataset(5), dataset(6)];
    let specs = [spec(2, 3), spec(1, 6), spec(2, 1)];
    let lens = |order: OutputOrder| -> (Vec<usize>, Vec<usize>) {
        let mut generator = TripleGenerator::BestFit(as_is_changeset_triple_generator(&changesets));
        let g = generate_queries(&specs, &d, &mut generator, order, 4).unwrap();
        (sizes(&g.jobs), blocks(&g.text).iter().map(|b| b.len()).collect())
    };
    assert_eq!(lens(OutputOrder::AsSpecified), (vec![3, 3, 6, 1, 1], vec![3, 2, 6, 1, 4]));
    assert_eq!(lens(OutputOrder::SortedSizeAsc).0, vec![1, 1, 3, 3, 6]);
    assert_eq!(lens(OutputOrder::SortedSizeDesc).0, vec![6, 3, 3, 1, 1]);
    assert_eq!(lens(OutputOrder::SortedSizeDesc).1[0], 6);
    let (mut shuffled, mut found) = lens(OutputOrder::Randomized);
    shuffled.sort();
    found.sort();
    assert_eq!(shuffled, vec![1, 1, 3, 3, 6]);
    assert_eq!(found, vec![1, 2, 3, 4, 6]);
}

#[test]
fn stitched_queries_are_cut_to_size_and_deduplicated() {
    let image = dictionary(40);
    let d = RdfTripleDecompressor::load_state(&image, ByteOrder::LittleEndian).unwrap();
    let main = dataset(10);
    let changesets = vec![CompressedRdfTriples::from_vec(vec![[3, 4, 5], [3, 4, 5], [0, 1, 2], [50, 0, 0], [1, 2, 3]])];
    let mut generator = TripleGenerator::FixedSize(fixed_size_changeset_triple_generator(&changesets, &main, 1));
    let jobs = collect_jobs(&[spec(1, 3), spec(1, 10)], &mut generator).unwrap();
    assert_eq!(sizes(&jobs), vec![3, 10]);
    assert_eq!(jobs[0].triples, vec![[0, 1, 2], [3, 4, 5]]);
    assert_eq!(jobs[1].triples, vec![[0, 1, 2], [1, 2, 3], [3, 4, 5]]);
    let g = generate_queries(&[spec(1, 2)], &d, &mut generator, OutputOrder::SortedSizeAsc, 0).unwrap();
    assert_eq!(String::from_utf8(g.text).unwrap(), "DELETE DATA {\n  <3> <4> <5> .\n}\n");
}

#[test]
fn unknown_id_fails_the_generation() {
    let image = dictionary(3);
    let d = RdfTripleDecompressor::load_state(&image, ByteOrder::LittleEndian).unwrap();
    let changesets = vec![dataset(2), dataset(9)];
    let mut generator = TripleGenerator::BestFit(as_is_changeset_triple_generator(&changesets));
    assert!(generate_queries(&[spec(1, 2)], &d, &mut generator, OutputOrder::AsSpecified, 0).is_ok());
    let r = generate_queries(&[spec(1, 2)], &d, &mut generator, OutputOrder::AsSpecified, 0);
    assert!(matches!(r, Err(Error::UnknownId)));
}

#[test]
fn producers_tell_whether_their_triples_are_distinct() {
    let triples = dataset(3);
    let changesets = vec![dataset(2)];
    assert!(!TripleGenerator::Random(random_triple_generator(&triples, 0)).yields_distinct());
    assert!(TripleGenerator::RandomDistinct(random_distinct_triple_generator(&triples, 2, 0)).yields_distinct());
    assert!(TripleGenerator::BestFit(as_is_changeset_triple_generator(&changesets)).yields_distinct());
    assert!(!TripleGenerator::FixedSize(fixed_size_changeset_triple_generator(&changesets, &triples, 0)).yields_distinct());
    let mut generator = TripleGenerator::RandomDistinct(random_distinct_triple_generator(&triples, 3, 0));
    assert_eq!(generator.pull(2).unwrap().len(), 2);
    assert_eq!(generator.pull(2).unwrap().len(), 1);
}

#[test]
fn changesets_are_replicated_one_query_each() {
    let image = dictionary(10);
    let d = RdfTripleDecompressor::load_state(&image, ByteOrder::LittleEndian).unwrap();
    let changesets = vec![
        CompressedRdfTriples::from_vec(vec![[2, 1, 0], [0, 1, 2], [2, 1, 0]]),
        CompressedRdfTriples::new(),
        CompressedRdfTriples::from_vec(vec![[5, 5, 5]]),
    ];
    let g = generate_linear_no_size_hint(&d, &changesets).unwrap();
    assert_eq!(sizes(&g.jobs), vec![3, 0, 1]);
    assert_eq!(
        String::from_utf8(g.text).unwrap(),
        "DELETE DATA {\n  <2> <1> <0> .\n  <0> <1> <2> .\n  <2> <1> <0> .\n}\nDELETE DATA {\n}\nDELETE DATA {\n  <5> <5> <5> .\n}\n"
    );
    let unknown = vec![CompressedRdfTriples::from_vec(vec![[0, 1, 99]])];
    assert!(matches!(generate_linear_no_size_hint(&d, &unknown), Err(Error::UnknownId)));
    assert!(generate_linear_no_size_hint(&d, &[]).unwrap().text.is_empty());
}

#[test]
fn stats_count_triples_and_distinct_terms() {
    let triples = CompressedRdfTriples::from_vec(vec![[1, 2, 3], [1, 2, 4], [5, 2, 3], [1, 2, 3]]);
    assert_eq!(
        dataset_stats(&triples),
        DatasetStats { n_triples: 4, n_subjects: 2, n_predicates: 1, n_objects: 2 }
    );
    assert_eq!(
        dataset_stats(&CompressedRdfTriples::new()),
        DatasetStats { n_triples: 0, n_subjects: 0, n_predicates: 0, n_objects: 0 }
    );
}

#[test]
fn contained_counts_the_candidates_that_the_main_dataset_holds() {
    let main = dataset(10);
    let candidates = CompressedRdfTriples::from_vec(vec![[9, 10, 11], [10, 11, 12], [0, 1, 2], [0, 1, 2], [0, 1, 3]]);
    assert_eq!(count_contained(&main, &candidates), 3);
    assert_eq!(count_contained(&main, &main), 10);
    assert_eq!(count_contained(&main, &CompressedRdfTriples::new()), 0);
    assert_eq!(count_contained(&CompressedRdfTriples::new(), &candidates), 0);
}
