//! The writable form of a dictionary, and the compression of statements
//! against it.
//!
//! A term's id is the hash of its lexical form. Compressing a statement
//! records each of its three terms in the dictionary, unless the id is taken
//! already, and yields the three ids. An id that is taken stays with the term
//! that took it first: compressing the same text again changes nothing.

use crate::decompressor::{knows, knows_all, RdfTripleDecompressor};
use crate::endian::{encode_u64, length_as_u64, push_bytes, push_u64, ByteOrder};
use crate::frozen::{has_id, ids_increasing, HeaderEntry};
use crate::laws::{extends, lemma_dictionary_closure, lemma_dictionary_grows};
use crate::ntriples::{
    at_end, lines_view, next_line, open_reader, parsed_lines, pending_lines, Line, LineView,
    RdfTriple, StatementView, TermKind,
};
use crate::triples::{
    file_of_triples, key_of, keys_of, lemma_file_len, strictly_increasing, CompressedRdfTriples,
    TripleKey,
};
use ahash::AHasher;
use std::collections::BTreeMap;
use std::hash::{BuildHasher, BuildHasherDefault, Hash, Hasher};
use vstd::prelude::*;
use vstd::slice::slice_to_vec;
use vstd::std_specs::btree::{axiom_increasing_seq_meaning, increasing_seq};
use vstd::std_specs::iter::IteratorSpec;

verus! {

/// The id of a term: what `ahash`'s hasher with its fixed keys makes of the
/// bytes of the term's lexical form. It is fixed for one build of this
/// library: `ahash` chooses its algorithm when it is compiled, by the
/// features of the target, so that a build for another target may give other
/// ids. Dictionary files and compressed triple files carry these ids, and are
/// to be read by the build that wrote them.
pub uninterp spec fn term_hash(term: Seq<u8>) -> u64;

/// Feeds the bytes to a hasher that `BuildHasherDefault<AHasher>` builds and
/// returns what the hasher finishes with. `AHasher::default` has fixed keys:
/// with `ahash` built without its features for random keys, as this library
/// asks for it, the keys are constants, and within one build the result
/// depends on the bytes alone.
#[verifier::external_body]
fn hash_single(term: &[u8]) -> (id: u64)
    ensures
        id == term_hash(term@),
{
    let mut hasher = BuildHasherDefault::<AHasher>::default().build_hasher();
    term.hash(&mut hasher);
    hasher.finish()
}

/// A dictionary after a term was recorded under an id: unchanged if the id
/// was taken, else with the term under the id.
pub open spec fn recorded(dict: Map<u64, Seq<u8>>, id: u64, term: Seq<u8>) -> Map<u64, Seq<u8>> {
    if dict.contains_key(id) {
        dict
    } else {
        dict.insert(id, term)
    }
}

/// A dictionary after a term was interned: recorded under its hash.
pub open spec fn interned(dict: Map<u64, Seq<u8>>, term: Seq<u8>) -> Map<u64, Seq<u8>> {
    recorded(dict, term_hash(term), term)
}

/// The ids of the three terms of a statement.
pub open spec fn statement_ids(t: StatementView) -> TripleKey {
    (term_hash(t.subject.text), term_hash(t.predicate), term_hash(t.object.text))
}

/// A dictionary after the three terms of a statement were interned, subject
/// first and object last.
pub open spec fn with_statement(dict: Map<u64, Seq<u8>>, t: StatementView) -> Map<u64, Seq<u8>> {
    interned(interned(interned(dict, t.subject.text), t.predicate), t.object.text)
}

/// Which statements are compressed: those whose subject is a named resource
/// and whose object is a named resource or a literal.
pub open spec fn accepts(t: StatementView) -> bool {
    t.subject.kind == TermKind::NamedNode && (t.object.kind == TermKind::NamedNode
        || t.object.kind == TermKind::Literal)
}

/// A dictionary after one line was taken in.
pub open spec fn dictionary_with_line(dict: Map<u64, Seq<u8>>, line: LineView) -> Map<
    u64,
    Seq<u8>,
> {
    match line {
        LineView::Statement(t) => if accepts(t) {
            with_statement(dict, t)
        } else {
            dict
        },
        _ => dict,
    }
}

/// The compressed triples after one line was taken in.
pub open spec fn triples_with_line(triples: Seq<TripleKey>, line: LineView) -> Seq<TripleKey> {
    match line {
        LineView::Statement(t) => if accepts(t) {
            triples.push(statement_ids(t))
        } else {
            triples
        },
        _ => triples,
    }
}

/// The parser's words on rejected lines after one line was taken in.
pub open spec fn rejections_with_line(rejected: Seq<Seq<char>>, line: LineView) -> Seq<
    Seq<char>,
> {
    match line {
        LineView::Malformed(words) => rejected.push(words),
        _ => rejected,
    }
}

/// A dictionary after the lines were taken in, one after another.
pub open spec fn dictionary_after(dict: Map<u64, Seq<u8>>, lines: Seq<LineView>) -> Map<
    u64,
    Seq<u8>,
>
    decreases lines.len(),
{
    if lines.len() == 0 {
        dict
    } else {
        dictionary_with_line(dictionary_after(dict, lines.drop_last()), lines.last())
    }
}

/// The compressed triples that the lines give, in the order of the lines.
pub open spec fn triples_of_lines(lines: Seq<LineView>) -> Seq<TripleKey>
    decreases lines.len(),
{
    if lines.len() == 0 {
        Seq::empty()
    } else {
        triples_with_line(triples_of_lines(lines.drop_last()), lines.last())
    }
}

/// The parser's words on the rejected ones among the lines, in their order.
pub open spec fn rejections_of_lines(lines: Seq<LineView>) -> Seq<Seq<char>>
    decreases lines.len(),
{
    if lines.len() == 0 {
        Seq::empty()
    } else {
        rejections_with_line(rejections_of_lines(lines.drop_last()), lines.last())
    }
}

/// The views of a sequence of strings.
pub open spec fn strings_view(strings: Seq<String>) -> Seq<Seq<char>> {
    Seq::new(strings.len(), |i: int| strings[i]@)
}

/// Each id is smaller than all that follow it.
pub open spec fn ascending(ids: Seq<u64>) -> bool {
    forall|i: int, j: int| 0 <= i < j < ids.len() ==> ids[i] < ids[j]
}

/// The ids of a dictionary in ascending order.
pub open spec fn sorted_ids(dict: Map<u64, Seq<u8>>) -> Seq<u64> {
    choose|ids: Seq<u64>| ascending(ids) && ids.to_set() == dict.dom()
}

/// The data segment of a dictionary file: the terms of the ids, one after
/// another.
pub open spec fn data_of(dict: Map<u64, Seq<u8>>, ids: Seq<u64>) -> Seq<u8>
    decreases ids.len(),
{
    if ids.len() == 0 {
        Seq::empty()
    } else {
        data_of(dict, ids.drop_last()) + dict[ids.last()]
    }
}

/// The header of a dictionary file: for each id an entry that holds the id
/// and the offsets at which its term begins and ends in the data segment.
pub open spec fn header_of(dict: Map<u64, Seq<u8>>, ids: Seq<u64>) -> Seq<HeaderEntry>
    decreases ids.len(),
{
    if ids.len() == 0 {
        Seq::empty()
    } else {
        header_of(dict, ids.drop_last()).push(
            (
                ids.last(),
                data_of(dict, ids.drop_last()).len() as u64,
                data_of(dict, ids).len() as u64,
            ),
        )
    }
}

/// The image of a dictionary file with the given ids in the given order:
/// the size of the header, the header, and the data segment.
pub open spec fn dictionary_file(dict: Map<u64, Seq<u8>>, ids: Seq<u64>, order: ByteOrder) -> Seq<
    u8,
> {
    encode_u64((24 * ids.len()) as u64, order) + file_of_triples(header_of(dict, ids), order)
        + data_of(dict, ids)
}

/// A header has one entry for each id.
pub proof fn lemma_header_len(dict: Map<u64, Seq<u8>>, ids: Seq<u64>)
    ensures
        header_of(dict, ids).len() == ids.len(),
    decreases ids.len(),
{
    if ids.len() > 0 {
        lemma_header_len(dict, ids.drop_last());
    }
}

/// There is one ascending sequence of the elements of a set at most.
pub proof fn lemma_ascending_unique(a: Seq<u64>, b: Seq<u64>)
    requires
        ascending(a),
        ascending(b),
        a.to_set() == b.to_set(),
    ensures
        a == b,
    decreases a.len(),
{
    if a.len() == 0 {
        if b.len() > 0 {
            assert(b.to_set().contains(b[0]));
        }
    } else {
        assert(a.to_set().contains(a.last()));
        assert(b.to_set().contains(b.last()));
        let a0 = a.drop_last();
        let b0 = b.drop_last();
        assert forall|x: u64| a0.to_set().contains(x) <==> b0.to_set().contains(x) by {
            if a0.contains(x) {
                let k = choose|k: int| 0 <= k < a0.len() && a0[k] == x;
                assert(a.to_set().contains(a[k]));
                let m = choose|m: int| 0 <= m < b.len() && b[m] == x;
                assert(b0[m] == x);
            }
            if b0.contains(x) {
                let k = choose|k: int| 0 <= k < b0.len() && b0[k] == x;
                assert(b.to_set().contains(b[k]));
                let m = choose|m: int| 0 <= m < a.len() && a[m] == x;
                assert(a0[m] == x);
            }
        }
        assert(a0.to_set() =~= b0.to_set());
        lemma_ascending_unique(a0, b0);
        assert(a =~= a0.push(a.last()));
    }
}

/// What std calls an increasing sequence of integers is an ascending one.
proof fn lemma_increasing_is_ascending(ids: Seq<u64>)
    requires
        increasing_seq(ids),
    ensures
        ascending(ids),
{
    broadcast use vstd::std_specs::btree::group_btree_axioms;
    broadcast use vstd::laws_cmp::group_laws_cmp;

    axiom_increasing_seq_meaning::<u64>(ids);
    assert forall|i: int, j: int| 0 <= i < j < ids.len() implies ids[i] < ids[j] by {
        assert(vstd::std_specs::cmp::OrdSpec::cmp_spec(&ids[i], &ids[j]) is Less);
    }
}

/// A dictionary that has the ids of some triples has the ids of any
/// triples that are, as a set, among them.
pub proof fn lemma_same_set_known(
    dict: Map<u64, Seq<u8>>,
    given: Seq<TripleKey>,
    file: Seq<TripleKey>,
)
    requires
        knows_all(dict, given),
        file == given || file.to_set() == given.to_set(),
    ensures
        knows_all(dict, file),
{
    assert forall|i: int| 0 <= i < file.len() implies knows(dict, #[trigger] file[i]) by {
        if file != given {
            assert(file.to_set().contains(file[i]));
        }
    }
}

/// What compressing a text gives: the compressed triples, and the parser's
/// words on each line that it rejected.
pub struct Compressed {
    /// The compressed triples.
    pub triples: CompressedRdfTriples,
    /// What the parser said of each rejected line, in the order of the text.
    pub rejected: Vec<String>,
}

/// A dictionary in its writable form.
pub struct RdfTripleCompressor {
    terms: BTreeMap<u64, Vec<u8>>,
}

impl View for RdfTripleCompressor {
    type V = Map<u64, Seq<u8>>;

    closed spec fn view(&self) -> Map<u64, Seq<u8>> {
        Map::new(
            |id: u64| self.terms@.contains_key(id),
            |id: u64| self.terms@[id]@,
        )
    }
}

/// Whether the statement is one that gets compressed.
pub fn accepts_statement(triple: &RdfTriple) -> (accepted: bool)
    ensures
        accepted == accepts(triple@),
{
    let subject_named = match triple.subject.kind {
        TermKind::NamedNode => true,
        _ => false,
    };
    let object_fits = match triple.object.kind {
        TermKind::NamedNode => true,
        TermKind::Literal => true,
        _ => false,
    };
    subject_named && object_fits
}

impl Default for RdfTripleCompressor {
    /// An empty dictionary.
    fn default() -> (r: Self)
        ensures
            r@ == Map::<u64, Seq<u8>>::empty(),
    {
        RdfTripleCompressor::new()
    }
}

impl RdfTripleCompressor {
    /// An empty dictionary.
    pub fn new() -> (r: Self)
        ensures
            r@ == Map::<u64, Seq<u8>>::empty(),
    {
        broadcast use vstd::std_specs::btree::group_btree_axioms;

        RdfTripleCompressor { terms: BTreeMap::new() }
    }

    /// Number of terms in the dictionary.
    pub fn len(&self) -> (n: usize)
        ensures
            n == self@.dom().len(),
            self@.dom().finite(),
    {
        broadcast use vstd::std_specs::btree::group_btree_axioms;

        assert(self@.dom() =~= self.terms@.dom());
        self.terms.len()
    }

    /// The term that is recorded under the id, if there is one.
    pub fn get(&self, id: u64) -> (r: Option<&Vec<u8>>)
        ensures
            r is Some <==> self@.contains_key(id),
            r is Some ==> r->Some_0@ == self@[id],
    {
        broadcast use vstd::std_specs::btree::group_btree_axioms;

        self.terms.get(&id)
    }

    /// The writable form of a dictionary that was loaded: it has the same
    /// terms under the same ids.
    pub fn from_decompressor(frozen: RdfTripleDecompressor) -> (r: Self)
        ensures
            r@ == frozen@,
    {
        broadcast use vstd::std_specs::btree::group_btree_axioms;

        let mut terms: BTreeMap<u64, Vec<u8>> = BTreeMap::new();
        let n = frozen.len();
        let ghost entries = frozen.entries();
        let mut i: usize = 0;
        while i < n
            invariant
                n == entries.len(),
                entries == frozen.entries(),
                ids_increasing(entries),
                i <= n,
                forall|id: u64| #[trigger]
                    terms@.contains_key(id) <==> has_id(entries.take(i as int), id),
                forall|k: int|
                    0 <= k < i ==> terms@.contains_key((#[trigger] entries[k]).0)
                        && terms@[entries[k].0]@ == frozen@[entries[k].0],
            decreases n - i,
        {
            let (id, term) = frozen.entry(i);
            let ghost before = terms@;
            terms.insert(id, slice_to_vec(term));
            proof {
                let upto = entries.take(i + 1);
                let shorter = entries.take(i as int);
                assert forall|other: u64| #[trigger]
                    terms@.contains_key(other) <==> has_id(upto, other) by {
                    if has_id(upto, other) {
                        let k = choose|k: int|
                            0 <= k < upto.len() && (#[trigger] upto[k]).0 == other;
                    }
                    if before.contains_key(other) {
                        let k = choose|k: int|
                            0 <= k < shorter.len() && (#[trigger] shorter[k]).0 == other;
                    }
                    if other == id {
                        assert(upto[i as int].0 == other);
                    }
                }
            }
            i += 1;
        }
        let r = RdfTripleCompressor { terms };
        r
    }

    /// The image of the dictionary file for this dictionary: the size of the
    /// header, then for each id in ascending order an entry with the id and
    /// the offsets of its term, then the terms in the same order.
    pub fn save_state(&self, order: ByteOrder) -> (bytes: Vec<u8>)
        ensures
            ascending(sorted_ids(self@)),
            sorted_ids(self@).to_set() == self@.dom(),
            24 * sorted_ids(self@).len() <= usize::MAX,
            data_of(self@, sorted_ids(self@)).len() <= usize::MAX,
            bytes@ == dictionary_file(self@, sorted_ids(self@), order),
    {
        broadcast use vstd::std_specs::btree::group_btree_axioms;

        let mut header: Vec<u8> = Vec::new();
        let mut data: Vec<u8> = Vec::new();
        let entries = self.terms.iter();
        let ghost all = entries.remaining();
        let ghost ids = all.map_values(|kv: (&u64, &Vec<u8>)| *kv.0);
        proof {
            lemma_increasing_is_ascending(ids);
            assert forall|id: u64| ids.to_set().contains(id) <==> self@.dom().contains(id) by {
                if ids.contains(id) {
                    let j = choose|j: int| 0 <= j < ids.len() && ids[j] == id;
                }
                if self@.dom().contains(id) {
                    let j = choose|j: int|
                        0 <= j < all.len() && all[j] == (&id, &self.terms@[id]);
                    assert(ids[j] == id);
                }
            }
            assert(ids.to_set() =~= self@.dom());
            lemma_ascending_unique(ids, sorted_ids(self@));
        }
        for kv in it: entries
            invariant
                it.seq() == all,
                ids == all.map_values(|kv: (&u64, &Vec<u8>)| *kv.0),
                forall|k: int|
                    0 <= k < all.len() ==> self.terms@.contains_key(*(#[trigger] all[k]).0)
                        && self.terms@[*all[k].0] == *all[k].1,
                header@ == file_of_triples(header_of(self@, ids.take(it.index())), order),
                data@ == data_of(self@, ids.take(it.index())),
        {
            let ghost done = ids.take(it.index());
            let ghost head = header_of(self@, done);
            let begin = length_as_u64(data.len());
            push_bytes(&mut data, kv.1.as_slice());
            let end = length_as_u64(data.len());
            push_u64(&mut header, *kv.0, order);
            push_u64(&mut header, begin, order);
            push_u64(&mut header, end, order);
            proof {
                let k = it.index();
                let upto = ids.take(k + 1);
                assert(upto.drop_last() =~= done);
                let entry = (*kv.0, begin, end);
                assert(head.push(entry).drop_last() =~= head);
            }
        }
        proof {
            assert(ids.take(ids.len() as int) =~= ids);
            lemma_header_len(self@, ids);
            lemma_file_len(header_of(self@, ids), order);
            assert(data@.len() == data.len());
        }
        let mut bytes: Vec<u8> = Vec::new();
        push_u64(&mut bytes, length_as_u64(header.len()), order);
        push_bytes(&mut bytes, header.as_slice());
        push_bytes(&mut bytes, data.as_slice());
        bytes
    }

    /// Records the term under the id, unless the id is taken.
    pub fn record(&mut self, id: u64, term: &[u8])
        ensures
            final(self)@ == recorded(old(self)@, id, term@),
    {
        broadcast use vstd::std_specs::btree::group_btree_axioms;

        if !self.terms.contains_key(&id) {
            self.terms.insert(id, slice_to_vec(term));
        }
    }

    /// Interns the term: hashes it, records it under the hash unless that is
    /// taken, and returns the hash.
    pub fn intern(&mut self, term: &[u8]) -> (id: u64)
        ensures
            id == term_hash(term@),
            final(self)@ == interned(old(self)@, term@),
    {
        let id = hash_single(term);
        self.record(id, term);
        id
    }

    /// Compresses a statement: interns its three terms and returns their ids.
    pub fn compress_rdf_triple(&mut self, triple: &RdfTriple) -> (ids: [u64; 3])
        ensures
            key_of(ids) == statement_ids(triple@),
            final(self)@ == with_statement(old(self)@, triple@),
    {
        let subject = self.intern(triple.subject.text.as_slice());
        let predicate = self.intern(triple.predicate.as_slice());
        let object = self.intern(triple.object.text.as_slice());
        [subject, predicate, object]
    }

    /// Takes one line in: compresses it if it is a statement of the kind that
    /// gets compressed, keeps the parser's words if it was rejected.
    fn take_line(&mut self, line: Line, triples: &mut Vec<[u64; 3]>, rejected: &mut Vec<String>)
        ensures
            final(self)@ == dictionary_with_line(old(self)@, line@),
            keys_of(final(triples)@) == triples_with_line(
                keys_of(old(triples)@),
                line@,
            ),
            strings_view(final(rejected)@) == rejections_with_line(
                strings_view(old(rejected)@),
                line@,
            ),
    {
        match line {
            Line::Statement(statement) => {
                if accepts_statement(&statement) {
                    let ids = self.compress_rdf_triple(&statement);
                    triples.push(ids);
                }
            },
            Line::Blank => {},
            Line::Malformed(words) => {
                rejected.push(words);
            },
        }
    }

    /// Compresses an N-Triples text. Every statement of the text whose
    /// subject is a named resource and whose object is a named resource or a
    /// literal is compressed, in the order of the text; other lines are
    /// skipped. With `dedup` the compressed triples are then sorted and each
    /// is kept once.
    pub fn compress_rdf_triple_file(&mut self, input: &[u8], dedup: bool) -> (r: Compressed)
        ensures
            final(self)@ == dictionary_after(old(self)@, parsed_lines(input@)),
            extends(final(self)@, old(self)@),
            knows_all(final(self)@, r.triples@),
            strings_view(r.rejected@) == rejections_of_lines(parsed_lines(input@)),
            !dedup ==> r.triples@ == triples_of_lines(parsed_lines(input@)),
            dedup ==> strictly_increasing(r.triples@) && r.triples@.to_set() == triples_of_lines(
                parsed_lines(input@),
            ).to_set(),
    {
        let mut reader = open_reader(input);
        let mut triples: Vec<[u64; 3]> = Vec::new();
        let mut rejected: Vec<String> = Vec::new();
        let ghost mut done: Seq<LineView> = Seq::empty();
        while !at_end(&reader)
            invariant
                done + pending_lines(reader) == parsed_lines(input@),
                self@ == dictionary_after(old(self)@, done),
                keys_of(triples@) == triples_of_lines(done),
                strings_view(rejected@) == rejections_of_lines(done),
            decreases pending_lines(reader).len(),
        {
            let line = next_line(&mut reader);
            proof {
                let longer = done.push(line@);
                assert(longer.drop_last() =~= done);
                done = longer;
            }
            self.take_line(line, &mut triples, &mut rejected);
        }
        let mut compressed = CompressedRdfTriples::from_vec(triples);
        let ghost given = compressed@;
        if dedup {
            compressed.sort_dedup();
        }
        proof {
            lemma_dictionary_grows(old(self)@, parsed_lines(input@));
            lemma_dictionary_closure(old(self)@, parsed_lines(input@));
            lemma_same_set_known(self@, given, compressed@);
        }
        Compressed { triples: compressed, rejected }
    }

    /// Compresses lines that were read before, as
    /// [`compress_rdf_triple_file`](Self::compress_rdf_triple_file) does with
    /// the lines of a text.
    pub fn compress_lines(&mut self, lines: Vec<Line>, dedup: bool) -> (r: Compressed)
        ensures
            final(self)@ == dictionary_after(old(self)@, lines_view(lines@)),
            extends(final(self)@, old(self)@),
            knows_all(final(self)@, r.triples@),
            strings_view(r.rejected@) == rejections_of_lines(lines_view(lines@)),
            !dedup ==> r.triples@ == triples_of_lines(lines_view(lines@)),
            dedup ==> strictly_increasing(r.triples@) && r.triples@.to_set() == triples_of_lines(
                lines_view(lines@),
            ).to_set(),
    {
        let mut triples: Vec<[u64; 3]> = Vec::new();
        let mut rejected: Vec<String> = Vec::new();
        let ghost all = lines_view(lines@);
        let ghost mut done: Seq<LineView> = Seq::empty();
        for line in it: lines
            invariant
                it.seq().len() == all.len(),
                forall|k: int| 0 <= k < all.len() ==> (#[trigger] it.seq()[k])@ == all[k],
                done == all.take(it.index()),
                self@ == dictionary_after(old(self)@, done),
                keys_of(triples@) == triples_of_lines(done),
                strings_view(rejected@) == rejections_of_lines(done),
        {
            proof {
                let longer = all.take(it.index() + 1);
                assert(longer.drop_last() =~= done);
                done = longer;
            }
            self.take_line(line, &mut triples, &mut rejected);
        }
        assert(done =~= all);
        let mut compressed = CompressedRdfTriples::from_vec(triples);
        let ghost given = compressed@;
        if dedup {
            compressed.sort_dedup();
        }
        proof {
            lemma_dictionary_grows(old(self)@, lines_view(lines@));
            lemma_dictionary_closure(old(self)@, lines_view(lines@));
            lemma_same_set_known(self@, given, compressed@);
        }
        Compressed { triples: compressed, rejected }
    }
}

} // verus!
