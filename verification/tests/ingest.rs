use rdf_workload::compressor::{accepts_statement, RdfTripleCompressor};
use rdf_workload::decompressor::RdfTripleDecompressor;
use rdf_workload::endian::ByteOrder;
use rdf_workload::ntriples::{read_ntriples, split_rdf_triple, Line, RdfTerm, RdfTriple, TermKind};

fn term(kind: TermKind, text: &str) -> RdfTerm {
    RdfTerm { kind, text: text.as_bytes().to_vec() }
}

fn statement(subject: RdfTerm, predicate: &str, object: RdfTerm) -> RdfTriple {
    RdfTriple { subject, predicate: predicate.as_bytes().to_vec(), object }
}

#[test]
fn identical_lines_are_compressed_once_with_dedup() {
    let text = b"<http://e/a> <http://e/b> \"c\" .\n<http://e/a> <http://e/b> \"c\" .\n";
    let mut dictionary = RdfTripleCompressor::new();
    let compressed = dictionary.compress_rdf_triple_file(text, true);
    assert_eq!(compressed.triples.len(), 1);
    assert_eq!(compressed.triples.to_bytes(ByteOrder::native()).len(), 24);
    assert_eq!(dictionary.len(), 3);
    assert!(compressed.rejected.is_empty());
}

#[test]
fn identical_lines_are_compressed_twice_without_dedup() {
    let text = b"<http://e/a> <http://e/b> \"c\" .\n<http://e/a> <http://e/b> \"c\" .\n";
    let mut dictionary = RdfTripleCompressor::new();
    let compressed = dictionary.compress_rdf_triple_file(text, false);
    assert_eq!(compressed.triples.len(), 2);
    assert_eq!(compressed.triples.get(0), compressed.triples.get(1));
    assert_eq!(dictionary.len(), 3);
}

#[test]
fn compressed_text_decompresses_to_the_same_lines() {
    let text = b"<http://e/a> <http://e/b> <http://e/c> .\n<http://e/d> <http://e/e> <http://e/f> .\n";
    let mut dictionary = RdfTripleCompressor::new();
    let compressed = dictionary.compress_rdf_triple_file(text, false);
    assert_eq!(compressed.triples.len(), 2);
    assert_eq!(dictionary.len(), 6);
    let saved = dictionary.save_state(ByteOrder::native());
    let loaded = RdfTripleDecompressor::load_state(&saved, ByteOrder::native()).unwrap();
    let back = loaded.decompress_rdf_triple_file(&compressed.triples).unwrap();
    assert_eq!(back, text.to_vec());
}

#[test]
fn literals_keep_their_written_form() {
    let text = b"<http://e/a> <http://e/b> \"x \\\"y\\\"\"@en .\n<http://e/a> <http://e/b> \"1\"^^<http://e/int> .\n";
    let mut dictionary = RdfTripleCompressor::new();
    let compressed = dictionary.compress_rdf_triple_file(text, false);
    assert_eq!(compressed.triples.len(), 2);
    let first = compressed.triples.get(0);
    let second = compressed.triples.get(1);
    assert_eq!(dictionary.get(first[0]), Some(&b"<http://e/a>".to_vec()));
    assert_eq!(dictionary.get(first[1]), Some(&b"<http://e/b>".to_vec()));
    assert_eq!(dictionary.get(first[2]), Some(&b"\"x \\\"y\\\"\"@en".to_vec()));
    assert_eq!(dictionary.get(second[2]), Some(&b"\"1\"^^<http://e/int>".to_vec()));
    assert_eq!(dictionary.len(), 4);
}

#[test]
fn blank_nodes_comments_and_bad_lines_are_skipped() {
    let text = b"# a comment\n\n_:s <http://e/p> <http://e/o> .\n<http://e/s> <http://e/p> _:o .\nthis is no statement\n<http://e/s> <http://e/p> <http://e/o> .\n";
    let mut dictionary = RdfTripleCompressor::new();
    let compressed = dictionary.compress_rdf_triple_file(text, false);
    assert_eq!(compressed.triples.len(), 1);
    assert_eq!(compressed.rejected.len(), 1);
    assert!(!compressed.rejected[0].is_empty());
    assert_eq!(dictionary.len(), 3);
    let ids = compressed.triples.get(0);
    assert_eq!(dictionary.get(ids[0]), Some(&b"<http://e/s>".to_vec()));
    assert_eq!(dictionary.get(ids[2]), Some(&b"<http://e/o>".to_vec()));
}

#[test]
fn relative_iris_are_rejected_by_the_parser() {
    let text = b"<a> <b> \"c\" .\n";
    let mut dictionary = RdfTripleCompressor::new();
    let compressed = dictionary.compress_rdf_triple_file(text, true);
    assert_eq!(compressed.triples.len(), 0);
    assert_eq!(compressed.rejected.len(), 1);
    assert_eq!(dictionary.len(), 0);
}

#[test]
fn text_without_final_line_feed_is_read_to_its_end() {
    let text = b"<http://e/a> <http://e/b> <http://e/c> .";
    let lines = read_ntriples(text);
    assert_eq!(lines.len(), 2);
    assert!(matches!(lines[0], Line::Blank));
    assert!(matches!(&lines[1], Line::Statement(t) if t.object.text == b"<http://e/c>".to_vec()));
    let nothing = read_ntriples(b"");
    assert_eq!(nothing.len(), 1);
    assert!(matches!(nothing[0], Line::Blank));
}

#[test]
fn lines_are_read_in_the_order_of_the_text() {
    let text = b"<http://e/s> <http://e/p> \"o\" .\n# note\n_:b <http://e/p> <http://e/o> .\n<<\n";
    let lines = read_ntriples(text);
    assert_eq!(lines.len(), 5);
    assert!(matches!(lines[0], Line::Blank));
    let lines = &lines[1..];
    match &lines[0] {
        Line::Statement(t) => {
            assert_eq!(t.subject.kind, TermKind::NamedNode);
            assert_eq!(t.subject.text, b"<http://e/s>".to_vec());
            assert_eq!(t.predicate, b"<http://e/p>".to_vec());
            assert_eq!(t.object.kind, TermKind::Literal);
            assert_eq!(t.object.text, b"\"o\"".to_vec());
        },
        other => panic!("no statement: {:?}", other),
    }
    assert!(matches!(lines[1], Line::Blank));
    match &lines[2] {
        Line::Statement(t) => {
            assert_eq!(t.subject.kind, TermKind::BlankNode);
            assert_eq!(t.subject.text, b"_:b".to_vec());
            assert_eq!(t.object.kind, TermKind::NamedNode);
        },
        other => panic!("no statement: {:?}", other),
    }
    assert!(matches!(lines[3], Line::Malformed(_)));
}

#[test]
fn only_named_subjects_with_named_or_literal_objects_are_accepted() {
    let named = || term(TermKind::NamedNode, "<http://e/n>");
    let blank = || term(TermKind::BlankNode, "_:b");
    let literal = || term(TermKind::Literal, "\"l\"");
    let quoted = || term(TermKind::Triple, "<< <http://e/a> <http://e/b> <http://e/c> >>");
    assert!(accepts_statement(&statement(named(), "<http://e/p>", named())));
    assert!(accepts_statement(&statement(named(), "<http://e/p>", literal())));
    assert!(!accepts_statement(&statement(named(), "<http://e/p>", blank())));
    assert!(!accepts_statement(&statement(named(), "<http://e/p>", quoted())));
    assert!(!accepts_statement(&statement(blank(), "<http://e/p>", named())));
    assert!(!accepts_statement(&statement(quoted(), "<http://e/p>", literal())));
    assert!(!accepts_statement(&statement(literal(), "<http://e/p>", literal())));
}

#[test]
fn given_lines_are_compressed_like_a_text() {
    let lines = vec![
        Line::Statement(statement(term(TermKind::NamedNode, "<s>"), "<p>", term(TermKind::Literal, "\"o\""))),
        Line::Blank,
        Line::Malformed("bad".to_string()),
        Line::Statement(statement(term(TermKind::BlankNode, "_:s"), "<p>", term(TermKind::Literal, "\"o\""))),
        Line::Statement(statement(term(TermKind::NamedNode, "<s>"), "<p>", term(TermKind::NamedNode, "<s>"))),
        Line::Statement(statement(term(TermKind::NamedNode, "<s>"), "<p>", term(TermKind::Literal, "\"o\""))),
    ];
    let mut dictionary = RdfTripleCompressor::new();
    let compressed = dictionary.compress_lines(lines, false);
    assert_eq!(compressed.rejected, vec!["bad".to_string()]);
    assert_eq!(compressed.triples.len(), 3);
    assert_eq!(dictionary.len(), 3);
    let first = compressed.triples.get(0);
    let second = compressed.triples.get(1);
    assert_eq!(compressed.triples.get(2), first);
    assert_eq!(second[0], first[0]);
    assert_eq!(second[1], first[1]);
    assert_eq!(second[2], first[0]);
    assert_eq!(dictionary.get(first[0]), Some(&b"<s>".to_vec()));
    assert_eq!(dictionary.get(first[1]), Some(&b"<p>".to_vec()));
    assert_eq!(dictionary.get(first[2]), Some(&b"\"o\"".to_vec()));
}

#[test]
fn compressing_a_statement_interns_its_terms() {
    let mut dictionary = RdfTripleCompressor::new();
    let t = statement(term(TermKind::BlankNode, "_:s"), "<p>", term(TermKind::Literal, "\"o\""));
    let ids = dictionary.compress_rdf_triple(&t);
    assert_eq!(dictionary.len(), 3);
    assert_eq!(ids[0], dictionary.intern(b"_:s"));
    assert_eq!(ids[1], dictionary.intern(b"<p>"));
    assert_eq!(ids[2], dictionary.intern(b"\"o\""));
    assert_eq!(dictionary.len(), 3);
}

#[test]
fn compressing_a_text_twice_changes_nothing() {
    let text = b"<http://e/a> <http://e/b> <http://e/c> .\n<http://e/a> <http://e/b> \"d\" .\n";
    let mut dictionary = RdfTripleCompressor::new();
    let first = dictionary.compress_rdf_triple_file(text, true);
    let once = dictionary.save_state(ByteOrder::LittleEndian);
    let second = dictionary.compress_rdf_triple_file(text, true);
    let twice = dictionary.save_state(ByteOrder::LittleEndian);
    assert_eq!(once, twice);
    assert_eq!(first.triples.to_vec(), second.triples.to_vec());
    assert!(first.triples.is_sorted());
}

#[test]
fn dedup_sorts_the_compressed_triples() {
    let text = b"<http://e/a> <http://e/b> <http://e/c> .\n<http://e/c> <http://e/b> <http://e/a> .\n<http://e/b> <http://e/b> \"x\" .\n<http://e/a> <http://e/b> <http://e/c> .\n";
    let mut dictionary = RdfTripleCompressor::new();
    let compressed = dictionary.compress_rdf_triple_file(text, true);
    let triples = compressed.triples.to_vec();
    assert_eq!(triples.len(), 3);
    assert!(triples[0] < triples[1] && triples[1] < triples[2]);
    for t in &triples {
        assert!(compressed.triples.contains(t));
        for id in t {
            assert!(dictionary.get(*id).is_some());
        }
    }
}

#[test]
fn a_line_is_split_at_its_first_two_blanks() {
    assert_eq!(split_rdf_triple("<a> <b> <c> ."), Some(["<a>", "<b>", "<c>"]));
    assert_eq!(split_rdf_triple("<a> <b> \"c d\"@en ."), Some(["<a>", "<b>", "\"c d\"@en"]));
    assert_eq!(split_rdf_triple("a b c"), Some(["a", "b", "c"]));
    assert_eq!(split_rdf_triple("a b c . ."), Some(["a", "b", "c"]));
    assert_eq!(split_rdf_triple("a b  ."), Some(["a", "b", ""]));
    assert_eq!(split_rdf_triple("a b ."), Some(["a", "b", "."]));
    assert_eq!(split_rdf_triple("a b "), Some(["a", "b", ""]));
    assert_eq!(split_rdf_triple(" b c"), Some(["", "b", "c"]));
    assert_eq!(split_rdf_triple("a  c"), Some(["a", "", "c"]));
    assert_eq!(split_rdf_triple("\u{e4} \u{20ac}\u{1f600} z\u{fc} ."), Some(["\u{e4}", "\u{20ac}\u{1f600}", "z\u{fc}"]));
}

#[test]
fn a_line_with_fewer_than_two_blanks_is_not_split() {
    assert_eq!(split_rdf_triple(""), None);
    assert_eq!(split_rdf_triple("abc"), None);
    assert_eq!(split_rdf_triple("a b"), None);
    assert_eq!(split_rdf_triple("a."), None);
    assert_eq!(split_rdf_triple(" "), None);
}

#[test]
fn statement_is_made_of_its_three_terms() {
    let t = RdfTriple::new(
        term(TermKind::NamedNode, "<s>"),
        b"<p>".to_vec(),
        term(TermKind::Literal, "\"o\""),
    );
    assert_eq!(t.subject.kind, TermKind::NamedNode);
    assert_eq!(t.subject.text, b"<s>".to_vec());
    assert_eq!(t.predicate, b"<p>".to_vec());
    assert_eq!(t.object.kind, TermKind::Literal);
    assert_eq!(t.object.text, b"\"o\"".to_vec());
}
