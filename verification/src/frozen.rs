//! The read-only form of a dictionary, as it lies in a dictionary file.
//!
//! A dictionary file starts with the size of its header in bytes, an integer
//! of eight bytes. The header follows: one entry of 24 bytes for each term,
//! made of the term's id and of the two offsets between which the term's bytes
//! lie in the data segment. The data segment is the rest of the file. Entries
//! are in strictly increasing order of their ids, so that an id is found by
//! binary search.

use crate::endian::{decode_u64, read_u64, ByteOrder};
use crate::error::Error;
use crate::triples::{triple_at, triples_of_file};
use vstd::prelude::*;
use vstd::slice::slice_subrange;

verus! {

/// A header entry as the specifications see it: the id of a term, and the
/// offsets in the data segment at which its bytes begin and end.
pub type HeaderEntry = (u64, u64, u64);

/// The ids of the entries grow from each entry to the next.
pub open spec fn ids_increasing(entries: Seq<HeaderEntry>) -> bool {
    forall|i: int, j: int|
        0 <= i < j < entries.len() ==> (#[trigger] entries[i]).0 < (#[trigger] entries[j]).0
}

/// Every entry delimits a range of a data segment of `data_len` bytes.
pub open spec fn ranges_within(entries: Seq<HeaderEntry>, data_len: nat) -> bool {
    forall|i: int|
        0 <= i < entries.len() ==> (#[trigger] entries[i]).1 <= entries[i].2 && entries[i].2
            <= data_len
}

/// Whether some entry has the id.
pub open spec fn has_id(entries: Seq<HeaderEntry>, id: u64) -> bool {
    exists|i: int| 0 <= i < entries.len() && (#[trigger] entries[i]).0 == id
}

/// The position of an entry that has the id, if there is one.
pub open spec fn index_of_id(entries: Seq<HeaderEntry>, id: u64) -> int {
    choose|i: int| 0 <= i < entries.len() && (#[trigger] entries[i]).0 == id
}

/// The bytes of the term that an entry points at.
pub open spec fn entry_term(entry: HeaderEntry, data: Seq<u8>) -> Seq<u8> {
    data.subrange(entry.1 as int, entry.2 as int)
}

/// The dictionary that a header and a data segment stand for: each id that
/// the header lists, mapped to the bytes that its entry points at.
pub open spec fn dictionary_of(entries: Seq<HeaderEntry>, data: Seq<u8>) -> Map<u64, Seq<u8>> {
    Map::new(
        |id: u64| has_id(entries, id),
        |id: u64| entry_term(entries[index_of_id(entries, id)], data),
    )
}

/// The header size that a file image states in its first eight bytes.
pub open spec fn file_header_size(bytes: Seq<u8>, order: ByteOrder) -> int {
    decode_u64(bytes.subrange(0, 8), order) as int
}

/// The header entries of a file image.
pub open spec fn file_entries(bytes: Seq<u8>, order: ByteOrder) -> Seq<HeaderEntry> {
    triples_of_file(bytes.subrange(8, 8 + file_header_size(bytes, order)), order)
}

/// The data segment of a file image.
pub open spec fn file_data(bytes: Seq<u8>, order: ByteOrder) -> Seq<u8> {
    bytes.subrange(8 + file_header_size(bytes, order), bytes.len() as int)
}

/// Whether a file image is a dictionary file: it states a header size that
/// is positive, a multiple of 24 and within the file; the ids of its entries
/// are strictly increasing; and every entry points into the data segment.
pub open spec fn is_dictionary_file(bytes: Seq<u8>, order: ByteOrder) -> bool {
    &&& bytes.len() >= 8
    &&& file_header_size(bytes, order) > 0
    &&& file_header_size(bytes, order) % 24 == 0
    &&& 8 + file_header_size(bytes, order) <= bytes.len()
    &&& ids_increasing(file_entries(bytes, order))
    &&& ranges_within(file_entries(bytes, order), file_data(bytes, order).len())
}

/// Among entries with increasing ids, an id belongs to one entry only.
pub proof fn lemma_index_of_id(entries: Seq<HeaderEntry>, i: int)
    requires
        ids_increasing(entries),
        0 <= i < entries.len(),
    ensures
        has_id(entries, entries[i].0),
        index_of_id(entries, entries[i].0) == i,
{
}

/// A dictionary in its read-only form: the header entries and the data
/// segment of a dictionary file that was checked when it was loaded.
pub struct FrozenRdfTripleCompressor<'a> {
    header: Vec<(u64, usize, usize)>,
    data_segment: &'a [u8],
}

impl<'a> View for FrozenRdfTripleCompressor<'a> {
    type V = Map<u64, Seq<u8>>;

    open spec fn view(&self) -> Map<u64, Seq<u8>> {
        dictionary_of(self.entries(), self.data())
    }
}

impl<'a> FrozenRdfTripleCompressor<'a> {
    /// The header entries, in file order.
    pub closed spec fn entries(&self) -> Seq<HeaderEntry> {
        Seq::new(
            self.header@.len(),
            |i: int| (self.header@[i].0, self.header@[i].1 as u64, self.header@[i].2 as u64),
        )
    }

    /// The data segment.
    pub closed spec fn data(&self) -> Seq<u8> {
        self.data_segment@
    }

    #[verifier::type_invariant]
    spec fn well_formed(&self) -> bool {
        &&& ids_increasing(self.entries())
        &&& ranges_within(self.entries(), self.data().len())
    }

    /// Reads a dictionary file image. Anything that is no dictionary file is
    /// a bad layout.
    pub fn load_frozen(bytes: &'a [u8], order: ByteOrder) -> (r: Result<Self, Error>)
        ensures
            is_dictionary_file(bytes@, order) ==> r is Ok && r->Ok_0.entries() == file_entries(
                bytes@,
                order,
            ) && r->Ok_0.data() == file_data(bytes@, order),
            !is_dictionary_file(bytes@, order) ==> r == Err::<Self, Error>(Error::BadLayout),
    {
        let len = bytes.len();
        if len < 8 {
            return Err(Error::BadLayout);
        }
        let stated = read_u64(bytes, 0, order);
        if stated == 0 || stated % 24 != 0 || stated > (len - 8) as u64 {
            return Err(Error::BadLayout);
        }
        let header_size = stated as usize;
        let n = header_size / 24;
        let data_len = len - 8 - header_size;
        let ghost region = bytes@.subrange(8, 8 + header_size);
        let ghost entries = file_entries(bytes@, order);
        let mut header: Vec<(u64, usize, usize)> = Vec::new();
        let mut i: usize = 0;
        while i < n
            invariant
                len == bytes@.len(),
                header_size == file_header_size(bytes@, order),
                8 + header_size <= len,
                header_size == 24 * n,
                data_len == len - 8 - header_size,
                region == bytes@.subrange(8, 8 + header_size),
                entries == file_entries(bytes@, order),
                entries.len() == n,
                i <= n,
                header@.len() == i,
                forall|k: int|
                    0 <= k < i ==> (#[trigger] header@[k]).0 == entries[k].0 && header@[k].1
                        == entries[k].1 && header@[k].2 == entries[k].2,
                ids_increasing(entries.take(i as int)),
                ranges_within(entries.take(i as int), data_len as nat),
            decreases n - i,
        {
            let at = 8 + 24 * i;
            let id = read_u64(bytes, at, order);
            let begin = read_u64(bytes, at + 8, order);
            let end = read_u64(bytes, at + 16, order);
            proof {
                assert(region.subrange(24 * i, 24 * i + 8) =~= bytes@.subrange(
                    at as int,
                    at + 8,
                ));
                assert(region.subrange(24 * i + 8, 24 * i + 16) =~= bytes@.subrange(
                    at + 8,
                    at + 16,
                ));
                assert(region.subrange(24 * i + 16, 24 * i + 24) =~= bytes@.subrange(
                    at + 16,
                    at + 24,
                ));
                assert(entries[i as int] == triple_at(region, i as int, order));
            }
            if i > 0 && header[i - 1].0 >= id {
                return Err(Error::BadLayout);
            }
            if begin > end || end > data_len as u64 {
                return Err(Error::BadLayout);
            }
            header.push((id, begin as usize, end as usize));
            proof {
                let upto = entries.take(i + 1);
                let before = entries.take(i as int);
                assert forall|a: int, b: int| 0 <= a < b < upto.len() implies (
                #[trigger] upto[a]).0 < (#[trigger] upto[b]).0 by {
                    if b == i && a < i - 1 {
                        assert(before[a].0 < before[i - 1].0);
                    }
                }
            }
            i += 1;
        }
        let data_segment = slice_subrange(bytes, 8 + header_size, len);
        proof {
            assert(entries.take(n as int) =~= entries);
        }
        Ok(FrozenRdfTripleCompressor { header, data_segment })
    }

    /// Number of terms in the dictionary.
    pub fn len(&self) -> (n: usize)
        ensures
            n == self.entries().len(),
            ids_increasing(self.entries()),
            ranges_within(self.entries(), self.data().len()),
    {
        proof {
            use_type_invariant(self);
        }
        self.header.len()
    }

    /// The id and the bytes of the `i`-th term, in the order of the ids.
    pub fn entry(&self, i: usize) -> (r: (u64, &'a [u8]))
        requires
            i < self.entries().len(),
        ensures
            r.0 == self.entries()[i as int].0,
            r.1@ == entry_term(self.entries()[i as int], self.data()),
            self@.contains_key(r.0),
            self@[r.0] == r.1@,
    {
        proof {
            use_type_invariant(self);
            lemma_index_of_id(self.entries(), i as int);
        }
        let e = self.header[i];
        (e.0, slice_subrange(self.data_segment, e.1, e.2))
    }

    /// Finds the position of the entry with the given id by binary search.
    fn find(&self, id: u64) -> (r: Option<usize>)
        ensures
            match r {
                Some(i) => i < self.entries().len() && self.entries()[i as int].0 == id,
                None => !has_id(self.entries(), id),
            },
    {
        proof {
            use_type_invariant(self);
        }
        let n = self.header.len();
        let mut lo: usize = 0;
        let mut hi: usize = n;
        while lo < hi
            invariant
                n == self.header@.len(),
                n == self.entries().len(),
                ids_increasing(self.entries()),
                lo <= hi <= n,
                forall|k: int| 0 <= k < lo ==> (#[trigger] self.entries()[k]).0 < id,
                forall|k: int| hi <= k < n ==> (#[trigger] self.entries()[k]).0 >= id,
            decreases hi - lo,
        {
            let mid = lo + (hi - lo) / 2;
            assert(self.entries()[mid as int].0 == self.header@[mid as int].0);
            if self.header[mid].0 < id {
                lo = mid + 1;
            } else {
                hi = mid;
            }
        }
        if lo < n {
            assert(self.entries()[lo as int].0 == self.header@[lo as int].0);
            if self.header[lo].0 == id {
                return Some(lo);
            }
        }
        None
    }

    /// Looks up the header entry of an id.
    pub fn search_header(&self, id: u64) -> (r: Option<&(u64, usize, usize)>)
        ensures
            r is Some <==> self@.contains_key(id),
            r is Some ==> r->Some_0.0 == id && r->Some_0.1 <= r->Some_0.2 <= self.data().len()
                && self@[id] == self.data().subrange(r->Some_0.1 as int, r->Some_0.2 as int),
            r is Some ==> exists|i: int|
                0 <= i < self.entries().len() && #[trigger] self.entries()[i] == (
                    r->Some_0.0,
                    r->Some_0.1 as u64,
                    r->Some_0.2 as u64,
                ),
    {
        proof {
            use_type_invariant(self);
        }
        match self.find(id) {
            Some(i) => {
                proof {
                    lemma_index_of_id(self.entries(), i as int);
                }
                let e = &self.header[i];
                Some(e)
            },
            None => None,
        }
    }

    /// The bytes of the term with the given id, if the dictionary has it.
    pub fn term(&self, id: u64) -> (r: Option<&'a [u8]>)
        ensures
            r is Some <==> self@.contains_key(id),
            r is Some ==> r->Some_0@ == self@[id],
    {
        match self.search_header(id) {
            Some(e) => Some(slice_subrange(self.data_segment, e.1, e.2)),
            None => None,
        }
    }

    /// Turns a triple of ids back into the three terms. There is a
    /// result exactly if the dictionary has all three ids.
    pub fn decompress_rdf_triple(&self, triple: &[u64; 3]) -> (r: Option<[&'a [u8]; 3]>)
        ensures
            r is Some <==> self@.contains_key(triple@[0]) && self@.contains_key(triple@[1])
                && self@.contains_key(triple@[2]),
            r is Some ==> r->Some_0@[0]@ == self@[triple@[0]] && r->Some_0@[1]@
                == self@[triple@[1]] && r->Some_0@[2]@ == self@[triple@[2]],
    {
        let subject = match self.term(triple[0]) {
            Some(t) => t,
            None => { return None; },
        };
        let predicate = match self.term(triple[1]) {
            Some(t) => t,
            None => { return None; },
        };
        let object = match self.term(triple[2]) {
            Some(t) => t,
            None => { return None; },
        };
        Some([subject, predicate, object])
    }
}

} // verus!
