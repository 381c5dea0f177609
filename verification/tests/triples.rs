use rdf_workload::endian::{push_u64, read_u64, ByteOrder};
use rdf_workload::error::Error;
use rdf_workload::triples::{
    triple_less, triple_same, CompressedRdfTriples, COMPRESSED_TRIPLE_FILE_EXTENSION,
    COMPRESSOR_STATE_FILE_EXTENSION, TRIPLE_BYTES, UNCOMPRESSED_TRIPLE_FILE_EXTENSION,
};

#[test]
fn extensions_are_the_documented_ones() {
    assert_eq!(COMPRESSOR_STATE_FILE_EXTENSION, "compressor_state");
    assert_eq!(COMPRESSED_TRIPLE_FILE_EXTENSION, "compressed_nt");
    assert_eq!(UNCOMPRESSED_TRIPLE_FILE_EXTENSION, "nt");
    assert_eq!(TRIPLE_BYTES, 24);
}

#[test]
fn u64_is_written_little_endian() {
    let mut out = vec![0xffu8];
    push_u64(&mut out, 0x0102030405060708, ByteOrder::LittleEndian);
    assert_eq!(out, vec![0xff, 8, 7, 6, 5, 4, 3, 2, 1]);
}

#[test]
fn u64_is_written_big_endian() {
    let mut out = Vec::new();
    push_u64(&mut out, 0x0102030405060708, ByteOrder::BigEndian);
    assert_eq!(out, vec![1, 2, 3, 4, 5, 6, 7, 8]);
}

#[test]
fn u64_is_read_in_both_orders() {
    let bytes = [9u8, 1, 0, 0, 0, 0, 0, 0, 2, 7];
    assert_eq!(read_u64(&bytes, 1, ByteOrder::LittleEndian), 1 + (2 << 56));
    assert_eq!(read_u64(&bytes, 1, ByteOrder::BigEndian), (1 << 56) + 2);
    assert_eq!(read_u64(&bytes, 2, ByteOrder::BigEndian), (2 << 8) + 7);
}

#[test]
fn native_order_agrees_with_the_host() {
    let mut out = Vec::new();
    push_u64(&mut out, 0x1122334455667788, ByteOrder::native());
    assert_eq!(out, 0x1122334455667788u64.to_ne_bytes().to_vec());
    assert_eq!(read_u64(&out, 0, ByteOrder::native()), 0x1122334455667788);
}

#[test]
fn file_of_two_triples_round_trips() {
    let triples = CompressedRdfTriples::from_vec(vec![[1, 2, 3], [4, 5, 6]]);
    let bytes = triples.to_bytes(ByteOrder::LittleEndian);
    assert_eq!(bytes.len(), 48);
    assert_eq!(&bytes[0..8], &[1, 0, 0, 0, 0, 0, 0, 0]);
    assert_eq!(&bytes[40..48], &[6, 0, 0, 0, 0, 0, 0, 0]);
    let back = CompressedRdfTriples::from_bytes(&bytes, ByteOrder::LittleEndian).unwrap();
    assert_eq!(back.to_vec(), vec![[1, 2, 3], [4, 5, 6]]);
}

#[test]
fn file_round_trips_big_endian() {
    let triples = CompressedRdfTriples::from_vec(vec![[u64::MAX, 0, 77], [4, 5, 6]]);
    let bytes = triples.to_bytes(ByteOrder::BigEndian);
    assert_eq!(&bytes[16..24], &[0, 0, 0, 0, 0, 0, 0, 77]);
    let back = CompressedRdfTriples::from_bytes(&bytes, ByteOrder::BigEndian).unwrap();
    assert_eq!(back.to_vec(), vec![[u64::MAX, 0, 77], [4, 5, 6]]);
}

#[test]
fn empty_file_has_no_triples() {
    let back = CompressedRdfTriples::from_bytes(&[], ByteOrder::LittleEndian).unwrap();
    assert_eq!(back.len(), 0);
    assert_eq!(CompressedRdfTriples::new().to_bytes(ByteOrder::LittleEndian).len(), 0);
}

#[test]
fn file_with_trailing_bytes_is_bad_layout() {
    let bytes = vec![0u8; 25];
    let r = CompressedRdfTriples::from_bytes(&bytes, ByteOrder::LittleEndian);
    assert!(matches!(r, Err(Error::BadLayout)));
    let r = CompressedRdfTriples::from_bytes(&bytes[..23], ByteOrder::LittleEndian);
    assert!(matches!(r, Err(Error::BadLayout)));
}

#[test]
fn triples_are_ordered_lexicographically() {
    assert!(triple_less(&[1, 9, 9], &[2, 0, 0]));
    assert!(triple_less(&[1, 2, 9], &[1, 3, 0]));
    assert!(triple_less(&[1, 2, 3], &[1, 2, 4]));
    assert!(!triple_less(&[1, 2, 3], &[1, 2, 3]));
    assert!(!triple_less(&[2, 0, 0], &[1, 9, 9]));
    assert!(triple_same(&[1, 2, 3], &[1, 2, 3]));
    assert!(!triple_same(&[1, 2, 3], &[1, 2, 4]));
}

#[test]
fn push_and_get() {
    let mut triples = CompressedRdfTriples::new();
    triples.push([3, 2, 1]);
    triples.push([1, 2, 3]);
    assert_eq!(triples.len(), 2);
    assert_eq!(triples.get(0), [3, 2, 1]);
    assert_eq!(triples.get(1), [1, 2, 3]);
}

#[test]
fn sort_keeps_every_triple() {
    let mut triples = CompressedRdfTriples::from_vec(vec![[3, 0, 0], [1, 5, 5], [3, 0, 0], [1, 2, 9]]);
    assert!(!triples.is_sorted());
    triples.sort();
    assert!(triples.is_sorted());
    assert_eq!(triples.to_vec(), vec![[1, 2, 9], [1, 5, 5], [3, 0, 0], [3, 0, 0]]);
}

#[test]
fn sort_dedup_gives_strictly_increasing_triples() {
    let mut triples = CompressedRdfTriples::from_vec(vec![
        [3, 0, 0],
        [1, 5, 5],
        [3, 0, 0],
        [1, 2, 9],
        [1, 5, 5],
        [3, 0, 0],
    ]);
    triples.sort_dedup();
    assert_eq!(triples.to_vec(), vec![[1, 2, 9], [1, 5, 5], [3, 0, 0]]);
    assert_eq!(triples.to_bytes(ByteOrder::LittleEndian).len(), 3 * 24);
}

#[test]
fn dedup_of_sorted_triples_keeps_each_once() {
    let mut triples = CompressedRdfTriples::from_vec(vec![[1, 1, 1], [1, 1, 1], [2, 2, 2]]);
    triples.dedup();
    assert_eq!(triples.to_vec(), vec![[1, 1, 1], [2, 2, 2]]);
    let mut none = CompressedRdfTriples::new();
    none.dedup();
    assert_eq!(none.len(), 0);
}

#[test]
fn contains_finds_exactly_the_triples_of_a_sorted_dataset() {
    let all = vec![[1, 1, 1], [1, 1, 3], [1, 2, 0], [4, 0, 0], [4, 0, 9], [7, 7, 7], [9, 0, 1]];
    let dataset = CompressedRdfTriples::from_vec(all.clone());
    for t in &all {
        assert!(dataset.contains(t));
    }
    assert!(!dataset.contains(&[0, 0, 0]));
    assert!(!dataset.contains(&[1, 1, 2]));
    assert!(!dataset.contains(&[4, 0, 5]));
    assert!(!dataset.contains(&[9, 0, 2]));
    assert!(!dataset.contains(&[u64::MAX, u64::MAX, u64::MAX]));
    assert!(!CompressedRdfTriples::new().contains(&[1, 1, 1]));
}

#[test]
fn main_dataset_must_be_sorted() {
    let sorted = CompressedRdfTriples::from_vec(vec![[1, 1, 1], [1, 1, 1], [2, 0, 0]]);
    assert_eq!(sorted.check_main_dataset(), Ok(()));
    let unsorted = CompressedRdfTriples::from_vec(vec![[2, 0, 0], [1, 1, 1]]);
    assert_eq!(unsorted.check_main_dataset(), Err(Error::UnsortedMainDataset));
    assert_eq!(CompressedRdfTriples::new().check_main_dataset(), Ok(()));
}

#[test]
fn probe_of_the_integer_one_shows_the_byte_order() {
    assert_eq!(ByteOrder::from_probe([1, 0]), ByteOrder::LittleEndian);
    assert_eq!(ByteOrder::from_probe([0, 1]), ByteOrder::BigEndian);
    assert_eq!(ByteOrder::from_probe(1u16.to_le_bytes()), ByteOrder::LittleEndian);
    assert_eq!(ByteOrder::from_probe(1u16.to_be_bytes()), ByteOrder::BigEndian);
    assert_eq!(ByteOrder::from_probe(1u16.to_ne_bytes()), ByteOrder::native());
}
