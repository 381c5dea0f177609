//! What holds of compression, decompression and the dictionary file
//! together.

use crate::compressor::{
    accepts, ascending, data_of, dictionary_after, dictionary_file, dictionary_with_line,
    header_of, interned, lemma_header_len, statement_ids, term_hash, triples_of_lines,
};
use crate::decompressor::{knows, knows_all, ntriples_text, statement_line};
use crate::endian::{encode_u64, lemma_decode_encode, ByteOrder};
use crate::frozen::{
    dictionary_of, entry_term, file_data, file_entries, ids_increasing, is_dictionary_file,
};
use crate::ntriples::{LineView, StatementView};
use crate::sparql::{decoded, decoded_all, Terms};
use crate::triples::{file_of_triples, lemma_file_len, lemma_file_round_trip, TripleKey};
use vstd::prelude::*;

verus! {

/// Whether `larger` has every id of `smaller`, with the same term.
pub open spec fn extends(larger: Map<u64, Seq<u8>>, smaller: Map<u64, Seq<u8>>) -> bool {
    forall|id: u64| #[trigger]
        smaller.contains_key(id) ==> larger.contains_key(id) && larger[id] == smaller[id]
}

/// The statements among the lines that get compressed, in their order.
pub open spec fn accepted_statements(lines: Seq<LineView>) -> Seq<StatementView>
    decreases lines.len(),
{
    if lines.len() == 0 {
        Seq::empty()
    } else {
        let before = accepted_statements(lines.drop_last());
        match lines.last() {
            LineView::Statement(t) => if accepts(t) {
                before.push(t)
            } else {
                before
            },
            _ => before,
        }
    }
}

/// The three terms of a statement, as they are written.
pub open spec fn terms_of_statement(t: StatementView) -> Terms {
    (t.subject.text, t.predicate, t.object.text)
}

/// The terms of each of the statements.
pub open spec fn terms_of_statements(statements: Seq<StatementView>) -> Seq<Terms> {
    Seq::new(statements.len(), |k: int| terms_of_statement(statements[k]))
}

/// Whether every term of a dictionary stands under its own hash.
pub open spec fn consistent(dict: Map<u64, Seq<u8>>) -> bool {
    forall|id: u64| #[trigger] dict.contains_key(id) ==> term_hash(dict[id]) == id
}

/// Whether a dictionary holds the term under some id.
pub open spec fn holds(dict: Map<u64, Seq<u8>>, term: Seq<u8>) -> bool {
    exists|id: u64| #[trigger] dict.contains_key(id) && dict[id] == term
}

/// Whether the term stands in one of the statements.
pub open spec fn occurs(statements: Seq<StatementView>, term: Seq<u8>) -> bool {
    exists|k: int|
        0 <= k < statements.len() && ((#[trigger] statements[k]).subject.text == term
            || statements[k].predicate == term || statements[k].object.text == term)
}

/// Whether no two different terms, among those of a dictionary and those of
/// the statements, have the same hash.
pub open spec fn collision_free(dict: Map<u64, Seq<u8>>, statements: Seq<StatementView>) -> bool {
    forall|a: Seq<u8>, b: Seq<u8>|
        (holds(dict, a) || occurs(statements, a)) && (holds(dict, b) || occurs(statements, b))
            && #[trigger] term_hash(a) == #[trigger] term_hash(b) ==> a == b
}

/// Taking a line in keeps every term that a dictionary has.
pub proof fn lemma_line_extends(dict: Map<u64, Seq<u8>>, line: LineView)
    ensures
        extends(dictionary_with_line(dict, line), dict),
        line matches LineView::Statement(t) ==> (accepts(t) ==> knows(
            dictionary_with_line(dict, line),
            statement_ids(t),
        )),
{
}

/// Compression keeps every term that a dictionary has: what was compressed
/// against the dictionary before can still be decompressed.
pub proof fn lemma_dictionary_grows(dict: Map<u64, Seq<u8>>, lines: Seq<LineView>)
    ensures
        extends(dictionary_after(dict, lines), dict),
    decreases lines.len(),
{
    if lines.len() > 0 {
        lemma_dictionary_grows(dict, lines.drop_last());
        lemma_line_extends(dictionary_after(dict, lines.drop_last()), lines.last());
    }
}

/// The dictionary is closed under compression: after a text was compressed,
/// the dictionary has every id of every triple that the text gave.
pub proof fn lemma_dictionary_closure(dict: Map<u64, Seq<u8>>, lines: Seq<LineView>)
    ensures
        knows_all(dictionary_after(dict, lines), triples_of_lines(lines)),
    decreases lines.len(),
{
    if lines.len() > 0 {
        let before = dictionary_after(dict, lines.drop_last());
        lemma_dictionary_closure(dict, lines.drop_last());
        lemma_line_extends(before, lines.last());
    }
}

/// Compressing a text against a dictionary that has every id of the text's
/// triples already leaves the dictionary as it is.
pub proof fn lemma_known_text_changes_nothing(dict: Map<u64, Seq<u8>>, lines: Seq<LineView>)
    requires
        knows_all(dict, triples_of_lines(lines)),
    ensures
        dictionary_after(dict, lines) == dict,
    decreases lines.len(),
{
    if lines.len() > 0 {
        let earlier = triples_of_lines(lines.drop_last());
        let all = triples_of_lines(lines);
        assert forall|i: int| 0 <= i < earlier.len() implies knows(dict, #[trigger] earlier[i]) by {
            assert(all[i] == earlier[i]);
        }
        lemma_known_text_changes_nothing(dict, lines.drop_last());
        match lines.last() {
            LineView::Statement(t) => {
                if accepts(t) {
                    assert(all[all.len() - 1] == statement_ids(t));
                }
            },
            _ => {},
        }
    }
}

/// Compression is idempotent: compressing a text a second time leaves the
/// dictionary as the first time left it, so that the dictionary file is the
/// same after the second time as after the first.
pub proof fn lemma_idempotent_ingestion(dict: Map<u64, Seq<u8>>, lines: Seq<LineView>)
    ensures
        dictionary_after(dictionary_after(dict, lines), lines) == dictionary_after(dict, lines),
{
    lemma_dictionary_closure(dict, lines);
    lemma_known_text_changes_nothing(dictionary_after(dict, lines), lines);
}

/// Whether every term of `larger` is a term of `dict` or of the statements.
pub open spec fn sourced(
    larger: Map<u64, Seq<u8>>,
    dict: Map<u64, Seq<u8>>,
    statements: Seq<StatementView>,
) -> bool {
    forall|id: u64| #[trigger]
        larger.contains_key(id) ==> holds(dict, larger[id]) || occurs(statements, larger[id])
}

/// The triples that a text gives are the ids of its accepted statements.
pub proof fn lemma_triples_of_statements(lines: Seq<LineView>)
    ensures
        triples_of_lines(lines).len() == accepted_statements(lines).len(),
        forall|k: int|
            0 <= k < accepted_statements(lines).len() ==> #[trigger] triples_of_lines(lines)[k]
                == statement_ids(accepted_statements(lines)[k]),
    decreases lines.len(),
{
    if lines.len() > 0 {
        lemma_triples_of_statements(lines.drop_last());
    }
}

/// Interning a term of the statements into a dictionary without collisions
/// puts the term under its hash, or finds it there.
proof fn lemma_intern_faithful(
    current: Map<u64, Seq<u8>>,
    term: Seq<u8>,
    dict: Map<u64, Seq<u8>>,
    statements: Seq<StatementView>,
)
    requires
        consistent(current),
        sourced(current, dict, statements),
        collision_free(dict, statements),
        occurs(statements, term),
    ensures
        consistent(interned(current, term)),
        sourced(interned(current, term), dict, statements),
        extends(interned(current, term), current),
        interned(current, term).contains_key(term_hash(term)),
        interned(current, term)[term_hash(term)] == term,
{
}

/// After a text was compressed against a consistent dictionary without
/// collisions, the dictionary is consistent still, and it has, for every
/// accepted statement of the text, the statement's terms under its ids.
pub proof fn lemma_faithful(dict: Map<u64, Seq<u8>>, lines: Seq<LineView>)
    requires
        consistent(dict),
        collision_free(dict, accepted_statements(lines)),
    ensures
        consistent(dictionary_after(dict, lines)),
        sourced(dictionary_after(dict, lines), dict, accepted_statements(lines)),
        forall|k: int|
            0 <= k < accepted_statements(lines).len() ==> knows(
                dictionary_after(dict, lines),
                statement_ids(#[trigger] accepted_statements(lines)[k]),
            ) && decoded(
                dictionary_after(dict, lines),
                statement_ids(accepted_statements(lines)[k]),
            ) == terms_of_statement(accepted_statements(lines)[k]),
    decreases lines.len(),
{
    let all = accepted_statements(lines);
    if lines.len() > 0 {
        let shorter = lines.drop_last();
        let earlier = accepted_statements(shorter);
        let before = dictionary_after(dict, shorter);
        assert forall|term: Seq<u8>| occurs(earlier, term) implies occurs(all, term) by {
            let k = choose|k: int|
                0 <= k < earlier.len() && ((#[trigger] earlier[k]).subject.text == term
                    || earlier[k].predicate == term || earlier[k].object.text == term);
            assert(all[k] == earlier[k]);
        }
        lemma_faithful(dict, shorter);
        assert(sourced(before, dict, all));
        lemma_line_extends(before, lines.last());
        match lines.last() {
            LineView::Statement(t) => {
                if accepts(t) {
                    assert(all[all.len() - 1] == t);
                    let first = interned(before, t.subject.text);
                    lemma_intern_faithful(before, t.subject.text, dict, all);
                    let second = interned(first, t.predicate);
                    lemma_intern_faithful(first, t.predicate, dict, all);
                    lemma_intern_faithful(second, t.object.text, dict, all);
                }
            },
            _ => {},
        }
    }
}

/// The round trip: after a text was compressed against a consistent
/// dictionary without collisions, decompressing the triples that the text
/// gave yields, triple for triple, the terms of the statements of the text
/// whose subject is a named resource and whose object is a named resource or
/// a literal.
pub proof fn lemma_round_trip(dict: Map<u64, Seq<u8>>, lines: Seq<LineView>)
    requires
        consistent(dict),
        collision_free(dict, accepted_statements(lines)),
    ensures
        knows_all(dictionary_after(dict, lines), triples_of_lines(lines)),
        decoded_all(dictionary_after(dict, lines), triples_of_lines(lines)) == terms_of_statements(
            accepted_statements(lines),
        ),
{
    lemma_faithful(dict, lines);
    lemma_triples_of_statements(lines);
    lemma_dictionary_closure(dict, lines);
}

/// The round trip of a file that holds the triples of a text in another
/// order, or some of them more or less often: decompressing it yields the
/// same set of triples of terms as the accepted statements of the text have.
pub proof fn lemma_round_trip_of_sets(
    dict: Map<u64, Seq<u8>>,
    lines: Seq<LineView>,
    file: Seq<TripleKey>,
)
    requires
        consistent(dict),
        collision_free(dict, accepted_statements(lines)),
        file.to_set() == triples_of_lines(lines).to_set(),
    ensures
        knows_all(dictionary_after(dict, lines), file),
        decoded_all(dictionary_after(dict, lines), file).to_set() == terms_of_statements(
            accepted_statements(lines),
        ).to_set(),
{
    lemma_round_trip(dict, lines);
    let after = dictionary_after(dict, lines);
    let given = triples_of_lines(lines);
    let back = decoded_all(after, file);
    let terms = terms_of_statements(accepted_statements(lines));
    assert forall|i: int| 0 <= i < file.len() implies knows(after, #[trigger] file[i]) by {
        assert(file.to_set().contains(file[i]));
    }
    assert forall|t: Terms| back.to_set().contains(t) <==> terms.to_set().contains(t) by {
        if back.contains(t) {
            let i = choose|i: int| 0 <= i < back.len() && back[i] == t;
            assert(file.to_set().contains(file[i]));
            let k = choose|k: int| 0 <= k < given.len() && given[k] == file[i];
            assert(decoded_all(after, given)[k] == t);
        }
        if terms.contains(t) {
            let k = choose|k: int| 0 <= k < terms.len() && terms[k] == t;
            assert(given.to_set().contains(given[k]));
            let i = choose|i: int| 0 <= i < file.len() && file[i] == given[k];
            assert(back[i] == t);
        }
    }
}

/// The data segment of the first ids is the beginning of the data segment
/// of all, and the term of an id follows the terms of the ids before it.
pub proof fn lemma_data_prefix(dict: Map<u64, Seq<u8>>, ids: Seq<u64>, i: int)
    requires
        0 <= i <= ids.len(),
    ensures
        data_of(dict, ids.take(i)).len() <= data_of(dict, ids).len(),
        data_of(dict, ids).take(data_of(dict, ids.take(i)).len() as int) == data_of(
            dict,
            ids.take(i),
        ),
        i < ids.len() ==> data_of(dict, ids.take(i + 1)) == data_of(dict, ids.take(i))
            + dict[ids[i]],
    decreases ids.len() - i,
{
    if i == ids.len() {
        assert(ids.take(i) =~= ids);
    } else {
        lemma_data_prefix(dict, ids, i + 1);
        assert(ids.take(i + 1).drop_last() =~= ids.take(i));
    }
}

/// The entry of the `i`-th id holds the id and the offsets between which
/// the term of the id lies in the data segment.
pub proof fn lemma_header_entry(dict: Map<u64, Seq<u8>>, ids: Seq<u64>, i: int)
    requires
        0 <= i < ids.len(),
    ensures
        header_of(dict, ids).len() == ids.len(),
        header_of(dict, ids)[i] == (
            ids[i],
            data_of(dict, ids.take(i)).len() as u64,
            data_of(dict, ids.take(i + 1)).len() as u64,
        ),
    decreases ids.len(),
{
    lemma_header_len(dict, ids);
    lemma_header_len(dict, ids.drop_last());
    if i < ids.len() - 1 {
        lemma_header_entry(dict, ids.drop_last(), i);
        assert(ids.drop_last().take(i) =~= ids.take(i));
        assert(ids.drop_last().take(i + 1) =~= ids.take(i + 1));
    } else {
        assert(ids.take(i + 1) =~= ids);
    }
}

/// Saving and loading: the image of the dictionary file of a dictionary
/// that is not empty is a dictionary file, and the dictionary that it stands
/// for is the dictionary that was saved. The sizes of the header and of the
/// data segment must fit integers of 64 bits.
pub proof fn lemma_dictionary_file_round_trip(
    dict: Map<u64, Seq<u8>>,
    ids: Seq<u64>,
    order: ByteOrder,
)
    requires
        ascending(ids),
        ids.to_set() == dict.dom(),
        ids.len() > 0,
        24 * ids.len() <= u64::MAX,
        data_of(dict, ids).len() <= u64::MAX,
    ensures
        is_dictionary_file(dictionary_file(dict, ids, order), order),
        dictionary_of(
            file_entries(dictionary_file(dict, ids, order), order),
            file_data(dictionary_file(dict, ids, order), order),
        ) == dict,
{
    let n = ids.len() as int;
    let size = (24 * n) as u64;
    let header = header_of(dict, ids);
    let head = file_of_triples(header, order);
    let data = data_of(dict, ids);
    let file = dictionary_file(dict, ids, order);
    lemma_decode_encode(size, order);
    lemma_header_len(dict, ids);
    lemma_file_len(header, order);
    lemma_file_round_trip(header, order);
    assert(file.subrange(0, 8) =~= encode_u64(size, order));
    assert(file.subrange(8, 8 + 24 * n) =~= head);
    assert(file.subrange(8 + 24 * n, file.len() as int) =~= data);
    assert forall|i: int| 0 <= i < n implies (#[trigger] header[i]).0 == ids[i] && header[i].1
        <= header[i].2 && header[i].2 <= data.len() && entry_term(header[i], data)
        == dict[ids[i]] by {
        lemma_header_entry(dict, ids, i);
        lemma_data_prefix(dict, ids, i);
        lemma_data_prefix(dict, ids, i + 1);
        let begin = data_of(dict, ids.take(i)).len() as int;
        let end = data_of(dict, ids.take(i + 1)).len() as int;
        assert(data.subrange(begin, end) =~= data.take(end).subrange(begin, end));
    }
    assert(ids_increasing(header));
    let back = dictionary_of(header, data);
    assert forall|id: u64| back.contains_key(id) <==> dict.contains_key(id) by {
        if dict.dom().contains(id) {
            let i = choose|i: int| 0 <= i < ids.len() && ids[i] == id;
            assert(header[i].0 == id);
        }
    }
}

/// The N-Triples text of triples of terms: each triple on a line of its
/// own.
pub open spec fn text_of_terms(terms: Seq<Terms>) -> Seq<u8>
    decreases terms.len(),
{
    if terms.len() == 0 {
        Seq::empty()
    } else {
        let t = terms.last();
        text_of_terms(terms.drop_last()) + statement_line(t.0, t.1, t.2)
    }
}

/// The text that decompression gives for triples is the text of the terms
/// that the dictionary has for them.
pub proof fn lemma_text_of_decoded(dict: Map<u64, Seq<u8>>, triples: Seq<TripleKey>)
    ensures
        ntriples_text(dict, triples) == text_of_terms(decoded_all(dict, triples)),
    decreases triples.len(),
{
    if triples.len() > 0 {
        lemma_text_of_decoded(dict, triples.drop_last());
        assert(decoded_all(dict, triples).drop_last() =~= decoded_all(dict, triples.drop_last()));
    }
}

/// The round trip of a text: after a text was compressed against a
/// consistent dictionary without collisions, decompressing the triples that
/// the text gave yields the accepted statements of the text, each on a line
/// of its own, in the order of the text.
pub proof fn lemma_round_trip_of_text(dict: Map<u64, Seq<u8>>, lines: Seq<LineView>)
    requires
        consistent(dict),
        collision_free(dict, accepted_statements(lines)),
    ensures
        knows_all(dictionary_after(dict, lines), triples_of_lines(lines)),
        ntriples_text(dictionary_after(dict, lines), triples_of_lines(lines)) == text_of_terms(
            terms_of_statements(accepted_statements(lines)),
        ),
{
    lemma_round_trip(dict, lines);
    lemma_text_of_decoded(dictionary_after(dict, lines), triples_of_lines(lines));
}

} // verus!
