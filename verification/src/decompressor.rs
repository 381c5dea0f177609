//! Decompression: from triples of ids back to N-Triples.

use crate::endian::{push_bytes, ByteOrder};
use crate::error::Error;
use crate::frozen::{
    dictionary_of, entry_term, file_data, file_entries, ids_increasing, is_dictionary_file,
    ranges_within, FrozenRdfTripleCompressor, HeaderEntry,
};
use crate::triples::{key_of, CompressedRdfTriples, TripleKey};
use vstd::prelude::*;

verus! {

/// Whether a dictionary has the three ids of a triple.
pub open spec fn knows(dict: Map<u64, Seq<u8>>, t: TripleKey) -> bool {
    dict.contains_key(t.0) && dict.contains_key(t.1) && dict.contains_key(t.2)
}

/// Whether a dictionary has the ids of all of the triples.
pub open spec fn knows_all(dict: Map<u64, Seq<u8>>, triples: Seq<TripleKey>) -> bool {
    forall|i: int| 0 <= i < triples.len() ==> knows(dict, #[trigger] triples[i])
}

/// One line of N-Triples: the three terms with a blank between them, then a
/// blank, a full stop and a line feed.
pub open spec fn statement_line(subject: Seq<u8>, predicate: Seq<u8>, object: Seq<u8>) -> Seq<u8> {
    subject + seq![0x20u8] + predicate + seq![0x20u8] + object + seq![0x20u8, 0x2eu8, 0x0au8]
}

/// The N-Triples text of a sequence of triples: for each triple one line of
/// the terms that the dictionary has for its ids.
pub open spec fn ntriples_text(dict: Map<u64, Seq<u8>>, triples: Seq<TripleKey>) -> Seq<u8>
    decreases triples.len(),
{
    if triples.len() == 0 {
        Seq::empty()
    } else {
        let t = triples.last();
        ntriples_text(dict, triples.drop_last()) + statement_line(dict[t.0], dict[t.1], dict[t.2])
    }
}

/// Appends one line of N-Triples to `out`.
pub fn push_statement_line(out: &mut Vec<u8>, subject: &[u8], predicate: &[u8], object: &[u8])
    ensures
        final(out)@ == old(out)@ + statement_line(subject@, predicate@, object@),
{
    push_bytes(out, subject);
    out.push(0x20u8);
    push_bytes(out, predicate);
    out.push(0x20u8);
    push_bytes(out, object);
    out.push(0x20u8);
    out.push(0x2eu8);
    out.push(0x0au8);
}

/// A dictionary that was loaded for decompression.
pub struct RdfTripleDecompressor<'a> {
    frozen: FrozenRdfTripleCompressor<'a>,
}

impl<'a> View for RdfTripleDecompressor<'a> {
    type V = Map<u64, Seq<u8>>;

    open spec fn view(&self) -> Map<u64, Seq<u8>> {
        dictionary_of(self.entries(), self.data())
    }
}

impl<'a> RdfTripleDecompressor<'a> {
    /// The header entries of the dictionary, in file order.
    pub closed spec fn entries(&self) -> Seq<HeaderEntry> {
        self.frozen.entries()
    }

    /// The data segment of the dictionary.
    pub closed spec fn data(&self) -> Seq<u8> {
        self.frozen.data()
    }

    /// Reads a dictionary file image. Anything that is no dictionary file is
    /// a bad layout.
    pub fn load_state(bytes: &'a [u8], order: ByteOrder) -> (r: Result<Self, Error>)
        ensures
            is_dictionary_file(bytes@, order) ==> r is Ok && r->Ok_0.entries() == file_entries(
                bytes@,
                order,
            ) && r->Ok_0.data() == file_data(bytes@, order),
            !is_dictionary_file(bytes@, order) ==> r == Err::<Self, Error>(Error::BadLayout),
    {
        match FrozenRdfTripleCompressor::load_frozen(bytes, order) {
            Ok(frozen) => Ok(RdfTripleDecompressor { frozen }),
            Err(e) => Err(e),
        }
    }

    /// Number of terms in the dictionary.
    pub fn len(&self) -> (n: usize)
        ensures
            n == self.entries().len(),
            ids_increasing(self.entries()),
            ranges_within(self.entries(), self.data().len()),
    {
        self.frozen.len()
    }

    /// The id and the bytes of the `i`-th term, in the order of the ids.
    pub fn entry(&self, i: usize) -> (r: (u64, &'a [u8]))
        requires
            i < self.entries().len(),
        ensures
            r.0 == self.entries()[i as int].0,
            r.1@ == entry_term(self.entries()[i as int], self.data()),
            self@.contains_key(r.0),
            self@[r.0] == r.1@,
    {
        self.frozen.entry(i)
    }

    /// Turns a triple of ids back into the three terms. There is a
    /// result exactly if the dictionary has all three ids.
    pub fn decompress_rdf_triple(&self, triple: &[u64; 3]) -> (r: Option<[&'a [u8]; 3]>)
        ensures
            r is Some <==> knows(self@, key_of(*triple)),
            r is Some ==> r->Some_0@[0]@ == self@[triple@[0]] && r->Some_0@[1]@
                == self@[triple@[1]] && r->Some_0@[2]@ == self@[triple@[2]],
    {
        self.frozen.decompress_rdf_triple(triple)
    }

    /// Turns compressed triples into N-Triples text, one line for each
    /// triple in their order. An id that the dictionary does not have makes
    /// the whole of it fail.
    pub fn decompress_rdf_triple_file(&self, triples: &CompressedRdfTriples) -> (r: Result<
        Vec<u8>,
        Error,
    >)
        ensures
            knows_all(self@, triples@) ==> r is Ok && r->Ok_0@ == ntriples_text(self@, triples@),
            !knows_all(self@, triples@) ==> r == Err::<Vec<u8>, Error>(Error::UnknownId),
    {
        let mut text: Vec<u8> = Vec::new();
        let n = triples.len();
        let mut i: usize = 0;
        while i < n
            invariant
                n == triples@.len(),
                i <= n,
                knows_all(self@, triples@.take(i as int)),
                text@ == ntriples_text(self@, triples@.take(i as int)),
            decreases n - i,
        {
            let t = triples.get(i);
            match self.decompress_rdf_triple(&t) {
                Some(terms) => {
                    push_statement_line(&mut text, terms[0], terms[1], terms[2]);
                    proof {
                        let upto = triples@.take(i + 1);
                        assert(upto.drop_last() =~= triples@.take(i as int));
                    }
                },
                None => {
                    return Err(Error::UnknownId);
                },
            }
            i += 1;
        }
        assert(triples@.take(n as int) =~= triples@);
        Ok(text)
    }
}

} // verus!
