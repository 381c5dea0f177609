//! N-Triples statements as this library holds them, and the reading of them
//! from the text of a file.
//!
//! The text is parsed by `rio_turtle`. What comes out of it is kept as plain
//! values: for each term its kind and its lexical form, the form in which the
//! term is written in N-Triples.

use rio_api::model::{Subject, Term, Triple};
use rio_api::parser::TriplesParser;
use rio_turtle::{NTriplesParser, TurtleError};
use vstd::prelude::*;
use vstd::string::StrSliceExecFns;

verus! {

/// The kinds of terms that can stand in a statement.
#[derive(Clone, Copy, Debug, PartialEq, Eq, Structural)]
pub enum TermKind {
    /// A resource named by an IRI.
    NamedNode,
    /// A blank node.
    BlankNode,
    /// A literal.
    Literal,
    /// A quoted statement.
    Triple,
}

/// One term of a statement.
#[derive(Debug)]
pub struct RdfTerm {
    /// What kind of term this is.
    pub kind: TermKind,
    /// The term as it is written in N-Triples.
    pub text: Vec<u8>,
}

/// One statement: subject, predicate and object.
#[derive(Debug)]
pub struct RdfTriple {
    /// The subject.
    pub subject: RdfTerm,
    /// The predicate, a named resource, as it is written in N-Triples.
    pub predicate: Vec<u8>,
    /// The object.
    pub object: RdfTerm,
}

/// What one step of reading yields.
#[derive(Debug)]
pub enum Line {
    /// A statement.
    Statement(RdfTriple),
    /// A line without a statement: an empty line or a comment.
    Blank,
    /// A line that is no N-Triples, with the parser's words on it.
    Malformed(String),
}

/// A term in specifications.
pub struct TermView {
    pub kind: TermKind,
    pub text: Seq<u8>,
}

/// A statement in specifications.
pub struct StatementView {
    pub subject: TermView,
    pub predicate: Seq<u8>,
    pub object: TermView,
}

/// The yield of a reading step in specifications.
pub enum LineView {
    Statement(StatementView),
    Blank,
    Malformed(Seq<char>),
}

impl View for RdfTerm {
    type V = TermView;

    open spec fn view(&self) -> TermView {
        TermView { kind: self.kind, text: self.text@ }
    }
}

impl RdfTriple {
    /// The statement with the given subject, predicate and object.
    pub fn new(subject: RdfTerm, predicate: Vec<u8>, object: RdfTerm) -> (r: RdfTriple)
        ensures
            r.subject == subject,
            r.predicate == predicate,
            r.object == object,
    {
        RdfTriple { subject, predicate, object }
    }
}

impl View for RdfTriple {
    type V = StatementView;

    open spec fn view(&self) -> StatementView {
        StatementView {
            subject: self.subject@,
            predicate: self.predicate@,
            object: self.object@,
        }
    }
}

impl View for Line {
    type V = LineView;

    open spec fn view(&self) -> LineView {
        match self {
            Line::Statement(t) => LineView::Statement(t@),
            Line::Blank => LineView::Blank,
            Line::Malformed(m) => LineView::Malformed(m@),
        }
    }
}

/// The views of a sequence of lines.
pub open spec fn lines_view(lines: Seq<Line>) -> Seq<LineView> {
    Seq::new(lines.len(), |i: int| lines[i]@)
}

/// The characters of a string, in their order.
pub fn chars_of(text: &str) -> (chars: Vec<char>)
    ensures
        chars@ == text@,
{
    broadcast use vstd::string::group_string_axioms;

    let mut chars: Vec<char> = Vec::new();
    for c in it: text.chars()
        invariant
            it.seq() == text@,
            chars@ == text@.take(it.index()),
    {
        chars.push(c);
    }
    chars
}

/// The position of the first blank at or behind position `from`, or the
/// length of the text if there is none.
pub open spec fn first_blank(text: Seq<char>, from: int) -> int
    decreases text.len() - from,
{
    if from >= text.len() {
        text.len() as int
    } else if text[from] == ' ' {
        from
    } else {
        first_blank(text, from + 1)
    }
}

/// Whether a text ends with a blank and a full stop.
pub open spec fn ends_with_stop(text: Seq<char>) -> bool {
    text.len() >= 2 && text[text.len() - 2] == ' ' && text[text.len() - 1] == '.'
}

/// A text without the blanks and full stops that end it: as long as the
/// text ends with a blank and a full stop, the two are taken away.
pub open spec fn without_stops(text: Seq<char>) -> Seq<char>
    decreases text.len(),
{
    if ends_with_stop(text) {
        without_stops(text.take(text.len() - 2))
    } else {
        text
    }
}

/// The three parts of a line of N-Triples: what stands before the first
/// blank, what stands between the first and the second blank, and the rest
/// without the blanks and full stops that end it. A line with fewer than
/// two blanks has no such parts.
pub open spec fn split_triple(line: Seq<char>) -> Option<(Seq<char>, Seq<char>, Seq<char>)> {
    let i = first_blank(line, 0);
    let j = first_blank(line, i + 1);
    if i >= line.len() || j >= line.len() {
        None
    } else {
        Some(
            (
                line.subrange(0, i),
                line.subrange(i + 1, j),
                without_stops(line.subrange(j + 1, line.len() as int)),
            ),
        )
    }
}

/// Finds the first blank at or behind position `from`.
fn find_blank(chars: &Vec<char>, from: usize) -> (at: usize)
    requires
        from <= chars@.len(),
    ensures
        at == first_blank(chars@, from as int),
        from <= at <= chars@.len(),
{
    let n = chars.len();
    let mut at = from;
    while at < n && chars[at] != ' '
        invariant
            n == chars@.len(),
            from <= at <= n,
            first_blank(chars@, from as int) == first_blank(chars@, at as int),
        decreases n - at,
    {
        at += 1;
    }
    at
}

/// Splits a line of N-Triples into subject, predicate and object. The
/// object is all that stands behind the second blank, without the blank
/// and the full stop that end the line.
pub fn split_rdf_triple<'a>(triple: &'a str) -> (r: Option<[&'a str; 3]>)
    ensures
        split_triple(triple@) is None ==> r is None,
        split_triple(triple@) is Some ==> r is Some && r->Some_0@[0]@ == split_triple(
            triple@,
        )->Some_0.0 && r->Some_0@[1]@ == split_triple(triple@)->Some_0.1 && r->Some_0@[2]@
            == split_triple(triple@)->Some_0.2,
{
    let chars = chars_of(triple);
    let n = chars.len();
    let i = find_blank(&chars, 0);
    if i >= n {
        return None;
    }
    let j = find_blank(&chars, i + 1);
    if j >= n {
        return None;
    }
    let start = j + 1;
    let mut end = n;
    let ghost rest = chars@.subrange(start as int, n as int);
    while end - start >= 2 && chars[end - 2] == ' ' && chars[end - 1] == '.'
        invariant
            n == chars@.len(),
            start <= end <= n,
            without_stops(rest) == without_stops(chars@.subrange(start as int, end as int)),
        decreases end - start,
    {
        proof {
            let now = chars@.subrange(start as int, end as int);
            assert(now.take(now.len() - 2) =~= chars@.subrange(start as int, end - 2));
        }
        end -= 2;
    }
    let subject = triple.substring_char(0, i);
    let predicate = triple.substring_char(i + 1, j);
    let object = triple.substring_char(start, end);
    Some([subject, predicate, object])
}

/// `rio_api`'s triple, which borrows from the parser that hands it out.
#[verifier::external_type_specification]
#[verifier::external_body]
pub struct ExTriple<'a>(Triple<'a>);

/// An N-Triples parser of `rio_turtle` over a text in memory, together with
/// how far it has read.
#[verifier::external_body]
pub struct NTriplesReader<'a> {
    inner: NTriplesParser<&'a [u8]>,
}

/// What `rio_turtle`'s N-Triples parser yields from a text, step by step,
/// from a fresh parser until the parser is at the end of the text. The
/// parser begins every text with a step of its own, which yields a line
/// without a statement.
pub uninterp spec fn parsed_lines(input: Seq<u8>) -> Seq<LineView>;

/// What a reader has yet to yield, step by step, until it is at the end of
/// its text.
pub uninterp spec fn pending_lines(reader: NTriplesReader) -> Seq<LineView>;

/// Calls `NTriplesParser::new` on the text. The new parser has everything
/// yet to yield that the text holds.
#[verifier::external_body]
pub(crate) fn open_reader<'a>(input: &'a [u8]) -> (reader: NTriplesReader<'a>)
    ensures
        pending_lines(reader) == parsed_lines(input@),
{
    NTriplesReader { inner: NTriplesParser::new(input) }
}

/// Calls `is_end` of the parser, which says whether the text is used up, so
/// that no step is left.
#[verifier::external_body]
pub(crate) fn at_end(reader: &NTriplesReader<'_>) -> (end: bool)
    ensures
        end == (pending_lines(*reader).len() == 0),
{
    reader.inner.is_end()
}

/// Reads the subject of a triple of `rio_api`: its kind from the variant,
/// its lexical form from `to_string`.
#[verifier::external_body]
fn subject_of(triple: &Triple<'_>) -> RdfTerm {
    RdfTerm {
        kind: match triple.subject {
            Subject::NamedNode(_) => TermKind::NamedNode,
            Subject::BlankNode(_) => TermKind::BlankNode,
            Subject::Triple(_) => TermKind::Triple,
        },
        text: triple.subject.to_string().into_bytes(),
    }
}

/// Reads the predicate of a triple of `rio_api`: its lexical form from
/// `to_string`.
#[verifier::external_body]
fn predicate_of(triple: &Triple<'_>) -> Vec<u8> {
    triple.predicate.to_string().into_bytes()
}

/// Reads the object of a triple of `rio_api`: its kind from the variant, its
/// lexical form from `to_string`.
#[verifier::external_body]
fn object_of(triple: &Triple<'_>) -> RdfTerm {
    RdfTerm {
        kind: match triple.object {
            Term::NamedNode(_) => TermKind::NamedNode,
            Term::BlankNode(_) => TermKind::BlankNode,
            Term::Literal(_) => TermKind::Literal,
            Term::Triple(_) => TermKind::Triple,
        },
        text: triple.object.to_string().into_bytes(),
    }
}

/// The statement that a triple of `rio_api` stands for: its subject,
/// predicate and object as they are read from the triple.
fn statement_of(triple: &Triple<'_>) -> RdfTriple {
    RdfTriple::new(subject_of(triple), predicate_of(triple), object_of(triple))
}

/// Calls `parse_step` of the parser, which reads one line: a statement, a
/// line without one, or a line that it rejects and skips. The step yields the
/// first of what the reader had yet to yield, and leaves the rest.
#[verifier::external_body]
pub(crate) fn next_line(reader: &mut NTriplesReader<'_>) -> (line: Line)
    requires
        pending_lines(*old(reader)).len() > 0,
    ensures
        line@ == pending_lines(*old(reader))[0],
        pending_lines(*final(reader)) == pending_lines(*old(reader)).skip(1),
{
    let mut line = Line::Blank;
    let step = reader.inner.parse_step(
        &mut |triple: Triple<'_>| {
            line = Line::Statement(statement_of(&triple));
            Ok(()) as Result<(), TurtleError>
        },
    );
    match step {
        Ok(()) => line,
        Err(error) => Line::Malformed(error.to_string()),
    }
}

/// Reads an N-Triples text to its end and returns what every line of it
/// yielded, in the order of the text.
pub fn read_ntriples(input: &[u8]) -> (lines: Vec<Line>)
    ensures
        lines_view(lines@) == parsed_lines(input@),
{
    let mut reader = open_reader(input);
    let mut lines: Vec<Line> = Vec::new();
    while !at_end(&reader)
        invariant
            lines_view(lines@) + pending_lines(reader) == parsed_lines(input@),
        decreases pending_lines(reader).len(),
    {
        let line = next_line(&mut reader);
        lines.push(line);
    }
    lines
}

} // verus!
