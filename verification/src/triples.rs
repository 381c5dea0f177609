//! Compressed triple files: sequences of triples of term ids.
//!
//! A file is nothing but its triples, three integers of eight bytes each, so
//! `N` triples take `N * 24` bytes. A file that went through
//! [`CompressedRdfTriples::sort_dedup`] holds its triples in strictly
//! increasing order; that is what [`CompressedRdfTriples::contains`] relies on.

use crate::endian::{decode_u64, encode_u64, lemma_decode_encode, push_u64, read_u64, ByteOrder};
use crate::error::Error;
use vstd::prelude::*;

verus! {

/// The id of one term.
pub type TripleElementId = u64;

/// The id of one triple.
pub type TripleId = u64;

/// Extension of dictionary files.
pub const COMPRESSOR_STATE_FILE_EXTENSION: &'static str = "compressor_state";

/// Extension of compressed triple files.
pub const COMPRESSED_TRIPLE_FILE_EXTENSION: &'static str = "compressed_nt";

/// Extension of N-Triples files.
pub const UNCOMPRESSED_TRIPLE_FILE_EXTENSION: &'static str = "nt";

/// Number of bytes that one triple takes in a file.
pub const TRIPLE_BYTES: usize = 24;

/// A triple as the specifications see it: subject, predicate and object id.
pub type TripleKey = (u64, u64, u64);

/// The triple that an array of three ids stands for.
pub open spec fn key_of(t: [u64; 3]) -> TripleKey {
    (t@[0], t@[1], t@[2])
}

/// The triples that a sequence of arrays stands for.
pub open spec fn keys_of(ts: Seq<[u64; 3]>) -> Seq<TripleKey> {
    Seq::new(ts.len(), |i: int| key_of(ts[i]))
}

/// Lexicographic order on triples: by subject, then predicate, then object.
pub open spec fn key_lt(a: TripleKey, b: TripleKey) -> bool {
    a.0 < b.0 || (a.0 == b.0 && (a.1 < b.1 || (a.1 == b.1 && a.2 < b.2)))
}

/// `a` comes before `b` or is `b`.
pub open spec fn key_le(a: TripleKey, b: TripleKey) -> bool {
    key_lt(a, b) || a == b
}

/// No triple is followed, anywhere later, by a smaller one.
pub open spec fn non_decreasing(s: Seq<TripleKey>) -> bool {
    forall|i: int, j: int| 0 <= i <= j < s.len() ==> key_le(s[i], s[j])
}

/// Every triple is smaller than all that follow it.
pub open spec fn strictly_increasing(s: Seq<TripleKey>) -> bool {
    forall|i: int, j: int| 0 <= i < j < s.len() ==> key_lt(s[i], s[j])
}

/// The 24 bytes of one triple.
pub open spec fn triple_bytes(t: TripleKey, order: ByteOrder) -> Seq<u8> {
    encode_u64(t.0, order) + encode_u64(t.1, order) + encode_u64(t.2, order)
}

/// The file image of a sequence of triples: their bytes, one after another.
pub open spec fn file_of_triples(s: Seq<TripleKey>, order: ByteOrder) -> Seq<u8>
    decreases s.len(),
{
    if s.len() == 0 {
        Seq::empty()
    } else {
        file_of_triples(s.drop_last(), order) + triple_bytes(s.last(), order)
    }
}

/// The triple that starts at byte `24 * i` of a file image.
pub open spec fn triple_at(bytes: Seq<u8>, i: int, order: ByteOrder) -> TripleKey {
    (
        decode_u64(bytes.subrange(24 * i, 24 * i + 8), order),
        decode_u64(bytes.subrange(24 * i + 8, 24 * i + 16), order),
        decode_u64(bytes.subrange(24 * i + 16, 24 * i + 24), order),
    )
}

/// The triples that a file image holds.
pub open spec fn triples_of_file(bytes: Seq<u8>, order: ByteOrder) -> Seq<TripleKey> {
    Seq::new((bytes.len() / 24) as nat, |i: int| triple_at(bytes, i, order))
}

/// A file image of `N` triples has `N * 24` bytes.
pub proof fn lemma_file_len(s: Seq<TripleKey>, order: ByteOrder)
    ensures
        file_of_triples(s, order).len() == 24 * s.len(),
    decreases s.len(),
{
    if s.len() > 0 {
        lemma_file_len(s.drop_last(), order);
        lemma_decode_encode(s.last().0, order);
        lemma_decode_encode(s.last().1, order);
        lemma_decode_encode(s.last().2, order);
    }
}

/// The `i`-th triple of a file image is the `i`-th triple it was made of.
pub proof fn lemma_file_triple(s: Seq<TripleKey>, i: int, order: ByteOrder)
    requires
        0 <= i < s.len(),
    ensures
        triple_at(file_of_triples(s, order), i, order) == s[i],
    decreases s.len(),
{
    let head = s.drop_last();
    let front = file_of_triples(head, order);
    let whole = file_of_triples(s, order);
    lemma_file_len(head, order);
    lemma_file_len(s, order);
    lemma_decode_encode(s.last().0, order);
    lemma_decode_encode(s.last().1, order);
    lemma_decode_encode(s.last().2, order);
    if i < head.len() {
        lemma_file_triple(head, i, order);
        assert(whole.subrange(24 * i, 24 * i + 8) =~= front.subrange(24 * i, 24 * i + 8));
        assert(whole.subrange(24 * i + 8, 24 * i + 16) =~= front.subrange(
            24 * i + 8,
            24 * i + 16,
        ));
        assert(whole.subrange(24 * i + 16, 24 * i + 24) =~= front.subrange(
            24 * i + 16,
            24 * i + 24,
        ));
    } else {
        let t = s.last();
        assert(whole.subrange(24 * i, 24 * i + 8) =~= encode_u64(t.0, order));
        assert(whole.subrange(24 * i + 8, 24 * i + 16) =~= encode_u64(t.1, order));
        assert(whole.subrange(24 * i + 16, 24 * i + 24) =~= encode_u64(t.2, order));
    }
}

/// Writing triples out and reading the image back gives the same triples.
pub proof fn lemma_file_round_trip(s: Seq<TripleKey>, order: ByteOrder)
    ensures
        file_of_triples(s, order).len() % 24 == 0,
        triples_of_file(file_of_triples(s, order), order) == s,
{
    lemma_file_len(s, order);
    let back = triples_of_file(file_of_triples(s, order), order);
    assert forall|i: int| 0 <= i < s.len() implies back[i] == s[i] by {
        lemma_file_triple(s, i, order);
    }
}

/// The triples without those that repeat the triple before them.
pub open spec fn without_repeats(s: Seq<TripleKey>) -> Seq<TripleKey>
    decreases s.len(),
{
    if s.len() == 0 {
        s
    } else if s.len() >= 2 && s[s.len() - 2] == s.last() {
        without_repeats(s.drop_last())
    } else {
        without_repeats(s.drop_last()).push(s.last())
    }
}

/// Of triples in non-decreasing order, those that do not repeat the triple
/// before them are the same triples, each once, in strictly increasing
/// order.
pub proof fn lemma_without_repeats(s: Seq<TripleKey>)
    requires
        non_decreasing(s),
    ensures
        strictly_increasing(without_repeats(s)),
        without_repeats(s).to_set() == s.to_set(),
        s.len() > 0 ==> without_repeats(s).len() > 0 && without_repeats(s).last() == s.last(),
    decreases s.len(),
{
    let w = without_repeats(s);
    if s.len() > 0 {
        let shorter = s.drop_last();
        let before = without_repeats(shorter);
        lemma_without_repeats(shorter);
        let repeats = s.len() >= 2 && s[s.len() - 2] == s.last();
        if !repeats {
            assert forall|a: int, b: int| 0 <= a < b < w.len() implies key_lt(w[a], w[b]) by {
                if b == w.len() - 1 {
                    assert(key_le(s[s.len() - 2], s[s.len() - 1]));
                    if a < before.len() - 1 {
                        assert(key_lt(before[a], before[before.len() - 1]));
                    }
                }
            }
        }
        assert forall|t: TripleKey| w.to_set().contains(t) <==> s.to_set().contains(t) by {
            if w.contains(t) {
                let k = choose|k: int| 0 <= k < w.len() && w[k] == t;
                if k < before.len() {
                    assert(before.to_set().contains(before[k]));
                    assert(shorter.contains(t));
                }
            }
            if s.contains(t) {
                let m = choose|m: int| 0 <= m < s.len() && s[m] == t;
                if m < shorter.len() {
                    assert(shorter.to_set().contains(shorter[m]));
                    let k = choose|k: int| 0 <= k < before.len() && before[k] == t;
                    assert(w[k] == t);
                } else if !repeats {
                    assert(w[w.len() - 1] == t);
                }
            }
        }
    }
}

/// Whether `a` comes before `b` in the order of the files.
pub fn triple_less(a: &[u64; 3], b: &[u64; 3]) -> (less: bool)
    ensures
        less == key_lt(key_of(*a), key_of(*b)),
{
    a[0] < b[0] || (a[0] == b[0] && (a[1] < b[1] || (a[1] == b[1] && a[2] < b[2])))
}

/// Whether `a` and `b` are the same triple.
pub fn triple_same(a: &[u64; 3], b: &[u64; 3]) -> (same: bool)
    ensures
        same == (key_of(*a) == key_of(*b)),
{
    a[0] == b[0] && a[1] == b[1] && a[2] == b[2]
}

/// Calls `sort_unstable` on the vector's slice. std documents that it sorts
/// the slice in place, in the order of the elements' `Ord`, which for arrays
/// of integers is the lexicographic one: afterwards the same triples stand
/// there, each as often as before, in non-decreasing order.
#[verifier::external_body]
fn sort_triples(v: &mut Vec<[u64; 3]>)
    ensures
        non_decreasing(keys_of(final(v)@)),
        keys_of(final(v)@).to_multiset() == keys_of(old(v)@).to_multiset(),
{
    v.sort_unstable();
}

/// The triples of one compressed triple file, in file order.
pub struct CompressedRdfTriples {
    triples: Vec<[u64; 3]>,
}

impl View for CompressedRdfTriples {
    type V = Seq<TripleKey>;

    closed spec fn view(&self) -> Seq<TripleKey> {
        keys_of(self.triples@)
    }
}

impl CompressedRdfTriples {
    /// A file without triples.
    pub fn new() -> (r: Self)
        ensures
            r@ == Seq::<TripleKey>::empty(),
    {
        CompressedRdfTriples { triples: Vec::new() }
    }

    /// The file that holds the given triples in the given order.
    pub fn from_vec(triples: Vec<[u64; 3]>) -> (r: Self)
        ensures
            r@ == keys_of(triples@),
    {
        CompressedRdfTriples { triples }
    }

    /// The triples in file order.
    pub fn to_vec(&self) -> (r: Vec<[u64; 3]>)
        ensures
            keys_of(r@) == self@,
    {
        let mut r: Vec<[u64; 3]> = Vec::new();
        let n = self.triples.len();
        let mut i: usize = 0;
        while i < n
            invariant
                n == self.triples@.len(),
                i <= n,
                r@.len() == i,
                forall|k: int| 0 <= k < i ==> key_of(r@[k]) == key_of(self.triples@[k]),
            decreases n - i,
        {
            r.push(self.triples[i]);
            i += 1;
        }
        r
    }

    /// Number of triples.
    pub fn len(&self) -> (n: usize)
        ensures
            n == self@.len(),
    {
        self.triples.len()
    }

    /// The `i`-th triple.
    pub fn get(&self, i: usize) -> (t: [u64; 3])
        requires
            i < self@.len(),
        ensures
            key_of(t) == self@[i as int],
    {
        self.triples[i]
    }

    /// Appends a triple.
    pub fn push(&mut self, t: [u64; 3])
        ensures
            final(self)@ == old(self)@.push(key_of(t)),
    {
        self.triples.push(t);
    }

    /// Reads a file image. The image must consist of whole triples: a length
    /// that is no multiple of 24 is a bad layout.
    pub fn from_bytes(bytes: &[u8], order: ByteOrder) -> (r: Result<Self, Error>)
        ensures
            bytes@.len() % 24 == 0 ==> r is Ok && r->Ok_0@ == triples_of_file(bytes@, order),
            bytes@.len() % 24 != 0 ==> r == Err::<Self, Error>(Error::BadLayout),
    {
        let len = bytes.len();
        if len % 24 != 0 {
            return Err(Error::BadLayout);
        }
        let n = len / 24;
        let mut triples: Vec<[u64; 3]> = Vec::new();
        let mut i: usize = 0;
        while i < n
            invariant
                len == bytes@.len(),
                len == 24 * n,
                i <= n,
                triples@.len() == i,
                forall|k: int| 0 <= k < i ==> key_of(triples@[k]) == triple_at(bytes@, k, order),
            decreases n - i,
        {
            let at = 24 * i;
            let s = read_u64(bytes, at, order);
            let p = read_u64(bytes, at + 8, order);
            let o = read_u64(bytes, at + 16, order);
            let t: [u64; 3] = [s, p, o];
            triples.push(t);
            i += 1;
        }
        Ok(CompressedRdfTriples { triples })
    }

    /// The file image of these triples.
    pub fn to_bytes(&self, order: ByteOrder) -> (bytes: Vec<u8>)
        ensures
            bytes@ == file_of_triples(self@, order),
            bytes@.len() == 24 * self@.len(),
    {
        let mut bytes: Vec<u8> = Vec::new();
        let n = self.triples.len();
        let mut i: usize = 0;
        while i < n
            invariant
                n == self.triples@.len(),
                i <= n,
                bytes@ == file_of_triples(self@.take(i as int), order),
            decreases n - i,
        {
            let t = self.triples[i];
            push_u64(&mut bytes, t[0], order);
            push_u64(&mut bytes, t[1], order);
            push_u64(&mut bytes, t[2], order);
            proof {
                let upto = self@.take(i + 1);
                assert(upto.drop_last() =~= self@.take(i as int));
            }
            i += 1;
        }
        proof {
            assert(self@.take(n as int) =~= self@);
            lemma_file_len(self@, order);
        }
        bytes
    }

    /// Whether no triple is followed by a smaller one.
    pub fn is_sorted(&self) -> (sorted: bool)
        ensures
            sorted == non_decreasing(self@),
    {
        let n = self.triples.len();
        if n == 0 {
            return true;
        }
        let mut i: usize = 1;
        while i < n
            invariant
                n == self.triples@.len(),
                1 <= i <= n,
                non_decreasing(self@.take(i as int)),
            decreases n - i,
        {
            if triple_less(&self.triples[i], &self.triples[i - 1]) {
                assert(!key_le(self@[i - 1], self@[i as int]));
                return false;
            }
            proof {
                let upto = self@.take(i + 1);
                assert forall|a: int, b: int| 0 <= a <= b < upto.len() implies key_le(
                    upto[a],
                    upto[b],
                ) by {
                    if b == i && a < i {
                        assert(key_le(self@.take(i as int)[a], self@.take(i as int)[i - 1]));
                    }
                }
            }
            i += 1;
        }
        assert(self@.take(n as int) =~= self@);
        true
    }

    /// Checks that this dataset can serve as a main dataset, which must be
    /// in non-decreasing order.
    pub fn check_main_dataset(&self) -> (r: Result<(), Error>)
        ensures
            non_decreasing(self@) ==> r is Ok,
            !non_decreasing(self@) ==> r == Err::<(), Error>(Error::UnsortedMainDataset),
    {
        if self.is_sorted() {
            Ok(())
        } else {
            Err(Error::UnsortedMainDataset)
        }
    }

    /// Looks the triple up by binary search. On a dataset in non-decreasing
    /// order the answer is whether the triple occurs in it; on any dataset a
    /// triple that is reported as found does occur.
    pub fn contains(&self, triple: &[u64; 3]) -> (found: bool)
        ensures
            found ==> self@.contains(key_of(*triple)),
            non_decreasing(self@) ==> (found <==> self@.contains(key_of(*triple))),
    {
        let n = self.triples.len();
        let mut lo: usize = 0;
        let mut hi: usize = n;
        while lo < hi
            invariant
                n == self.triples@.len(),
                lo <= hi <= n,
                non_decreasing(self@) ==> forall|k: int|
                    0 <= k < lo ==> key_lt(#[trigger] self@[k], key_of(*triple)),
                non_decreasing(self@) ==> forall|k: int|
                    hi <= k < n ==> !key_lt(#[trigger] self@[k], key_of(*triple)),
            decreases hi - lo,
        {
            let mid = lo + (hi - lo) / 2;
            if triple_less(&self.triples[mid], triple) {
                assert(non_decreasing(self@) ==> forall|k: int|
                    0 <= k <= mid ==> key_le(#[trigger] self@[k], self@[mid as int]));
                lo = mid + 1;
            } else {
                assert(non_decreasing(self@) ==> forall|k: int|
                    mid <= k < n ==> key_le(self@[mid as int], #[trigger] self@[k]));
                hi = mid;
            }
        }
        if lo < n && triple_same(&self.triples[lo], triple) {
            assert(self@[lo as int] == key_of(*triple));
            true
        } else {
            proof {
                if non_decreasing(self@) && self@.contains(key_of(*triple)) {
                    let k = choose|k: int| 0 <= k < self@.len() && self@[k] == key_of(*triple);
                    assert(key_le(self@[lo as int], self@[k]));
                }
            }
            false
        }
    }

    /// Sorts the triples in place.
    pub fn sort(&mut self)
        ensures
            non_decreasing(final(self)@),
            final(self)@.to_multiset() == old(self)@.to_multiset(),
    {
        sort_triples(&mut self.triples);
    }

    /// Drops every triple that repeats the one before it. On triples in
    /// non-decreasing order that leaves each triple once.
    pub fn dedup(&mut self)
        ensures
            final(self)@ == without_repeats(old(self)@),
            non_decreasing(old(self)@) ==> strictly_increasing(final(self)@)
                && final(self)@.to_set() == old(self)@.to_set(),
    {
        let n = self.triples.len();
        let mut kept: Vec<[u64; 3]> = Vec::new();
        let mut i: usize = 0;
        while i < n
            invariant
                n == self.triples@.len(),
                i <= n,
                self@ == old(self)@,
                keys_of(kept@) == without_repeats(self@.take(i as int)),
            decreases n - i,
        {
            let t = self.triples[i];
            let repeats = i > 0 && triple_same(&self.triples[i - 1], &t);
            if !repeats {
                kept.push(t);
            }
            proof {
                let upto = self@.take(i + 1);
                assert(upto.drop_last() =~= self@.take(i as int));
            }
            i += 1;
        }
        proof {
            assert(self@.take(n as int) =~= self@);
            if non_decreasing(self@) {
                lemma_without_repeats(self@);
            }
        }
        self.triples = kept;
    }

    /// Sorts the triples and drops the repeated ones: afterwards the same
    /// triples stand there, each once, in strictly increasing order.
    pub fn sort_dedup(&mut self)
        ensures
            strictly_increasing(final(self)@),
            final(self)@.to_set() == old(self)@.to_set(),
    {
        self.sort();
        proof {
            let a = self@;
            let b = old(self)@;
            a.to_multiset_ensures();
            b.to_multiset_ensures();
            assert forall|t: TripleKey| a.to_set().contains(t) <==> b.to_set().contains(t) by {
                assert(a.contains(t) <==> a.to_multiset().count(t) > 0);
            }
        }
        self.dedup();
    }
}

} // verus!
