use fastar::archive::{materialize, verify, HEADER_LEN};
use fastar::bgzf_index::VirtualPosition;
use fastar::name_map::assemble;
use fastar::{
    type_specific_magic, ArchiveStorage, ArchivedFastaMap, DynamicStorage, MemoryStorage, StorageKind, ArchivedTrackMap, FastaEntry, FastaMap, FastarError,
    TrackEntry, TrackMap,
};

const PAGE: usize = 64;

fn gzi_table_bytes(pairs: &[(u64, u64)]) -> Vec<u8> {
    let mut b = (pairs.len() as u64).to_le_bytes().to_vec();
    for (c, u) in pairs {
        b.extend_from_slice(&c.to_le_bytes());
        b.extend_from_slice(&u.to_le_bytes());
    }
    b
}

fn fasta_entry(fai: &str, min: u64) -> FastaEntry {
    FastaMap::index_name(&gzi_table_bytes(&[(0, 0), (4668, 100), (9000, 250)]), fai.as_bytes(), min).unwrap()
}

fn sample_fasta_map() -> FastaMap {
    let names = vec!["sub/b".to_string(), "a".to_string()];
    let results = vec![
        Ok(fasta_entry("chr1\t300\t6\t60\t61\n", 0)),
        Ok(fasta_entry("chrM\t50\t0\t60\t61\nchr2\t400\t60\t60\t61\n", 0)),
    ];
    FastaMap::build(&names, results, true).unwrap()
}

fn sample_track_map() -> TrackMap {
    let names = vec!["t1".to_string()];
    let entry = TrackMap::index_name(&gzi_table_bytes(&[(0, 0), (700, 200)]), b"x\t0\ny\t150\n\t400\n", 0)
        .unwrap();
    TrackMap::build(&names, vec![Ok(entry)], true).unwrap()
}

#[test]
fn built_map_is_ordered_by_name() {
    let map = sample_fasta_map();
    assert_eq!(map.names(), vec!["a".to_string(), "sub/b".to_string()]);
}

#[test]
fn round_trip_keeps_names_and_query_results() {
    let map = sample_fasta_map();
    let magic = type_specific_magic::<FastaMap>();
    let bytes = map.materialize(magic, PAGE).unwrap();
    assert_eq!(bytes.len() >= PAGE, true);
    let archived = ArchivedFastaMap::open(&bytes, magic, PAGE).unwrap();
    assert_eq!(archived.names(), vec!["a".to_string(), "sub/b".to_string()]);
    assert_eq!(
        archived.contigs("a"),
        Ok(vec![(b"chrM".to_vec(), 50), (b"chr2".to_vec(), 400)])
    );
    assert_eq!(archived.contigs("sub/b"), Ok(vec![(b"chr1".to_vec(), 300)]));
    // chr1 starts at byte 6: base 65 is at 6 + 61 + 5 = 72, past the checkpoint at 0.
    assert_eq!(
        archived.query("sub/b", b"chr1", 65),
        Ok(VirtualPosition { compressed: 0, in_block: 72 })
    );
    // chr2 starts at byte 60: base 130 is at 60 + 2 * 61 + 10 = 192, past the checkpoint at 100.
    assert_eq!(
        archived.query("a", b"chr2", 130),
        Ok(VirtualPosition { compressed: 4668, in_block: 92 })
    );
    assert_eq!(archived.query("missing", b"chr1", 0), Err(FastarError::NotFound));
    assert_eq!(archived.query("a", b"chr1", 0), Err(FastarError::NotFound));
    assert_eq!(archived.contigs("missing"), Err(FastarError::NotFound));
}

#[test]
fn round_trip_with_the_system_page_size() {
    let page = page_size::get();
    assert!(page >= HEADER_LEN);
    let map = sample_fasta_map();
    let magic = type_specific_magic::<FastaMap>();
    let bytes = map.materialize(magic, page).unwrap();
    let archived = ArchivedFastaMap::open(&bytes, magic, page).unwrap();
    assert_eq!(archived.names(), map.names());
}

#[test]
fn track_round_trip() {
    let map = sample_track_map();
    let magic = type_specific_magic::<TrackMap>();
    let bytes = map.materialize(magic, PAGE).unwrap();
    let archived = ArchivedTrackMap::open(&bytes, magic, PAGE).unwrap();
    assert_eq!(archived.names(), vec!["t1".to_string()]);
    assert_eq!(archived.contigs("t1"), Ok(vec![(b"x".to_vec(), 150), (b"y".to_vec(), 250)]));
    assert_eq!(
        archived.query("t1", b"y", 60),
        Ok(VirtualPosition { compressed: 700, in_block: 10 })
    );
    assert_eq!(archived.query("t1", b"z", 0), Err(FastarError::NotFound));
}

#[test]
fn flipped_payload_byte_is_corruption() {
    let map = sample_fasta_map();
    let magic = type_specific_magic::<FastaMap>();
    let mut bytes = map.materialize(magic, PAGE).unwrap();
    for i in PAGE..bytes.len() {
        let mut changed = bytes.clone();
        changed[i] ^= 0x01;
        assert_eq!(ArchivedFastaMap::open(&changed, magic, PAGE).err(), Some(FastarError::Corrupted));
    }
    bytes[PAGE] ^= 0xff;
    assert_eq!(verify(&bytes, magic, PAGE), Err(FastarError::Corrupted));
}

#[test]
fn corrupted_magic_or_checksum_or_truncation() {
    let map = sample_fasta_map();
    let magic = type_specific_magic::<FastaMap>();
    let bytes = map.materialize(magic, PAGE).unwrap();
    let mut zero_magic = bytes.clone();
    for b in zero_magic.iter_mut().take(8) {
        *b = 0;
    }
    assert_eq!(ArchivedFastaMap::open(&zero_magic, magic, PAGE).err(), Some(FastarError::Corrupted));
    let mut bad_sum = bytes.clone();
    bad_sum[9] ^= 0x10;
    assert_eq!(ArchivedFastaMap::open(&bad_sum, magic, PAGE).err(), Some(FastarError::Corrupted));
    assert_eq!(ArchivedFastaMap::open(&[], magic, PAGE).err(), Some(FastarError::Corrupted));
    assert_eq!(ArchivedFastaMap::open(&bytes[..PAGE - 1], magic, PAGE).err(), Some(FastarError::Corrupted));
}

#[test]
fn track_archive_is_refused_by_the_fasta_loader() {
    let track = sample_track_map();
    let bytes = track.materialize(type_specific_magic::<TrackMap>(), PAGE).unwrap();
    assert_eq!(
        ArchivedFastaMap::open(&bytes, type_specific_magic::<FastaMap>(), PAGE).err(),
        Some(FastarError::Corrupted)
    );
}

#[test]
fn archive_test_nontrivial_magic() {
    let magic_value = type_specific_magic::<FastaMap>();
    println!("Magic value: {:#x}", magic_value);
    assert_ne!(magic_value, 0);
    assert_ne!(magic_value, 1);
}

#[test]
fn shmem_test_nontrivial_magic() {
    let magic_value = type_specific_magic::<FastaMap>();
    println!("Magic value: {:#x}", magic_value);
    assert_ne!(magic_value, 0);
    assert_ne!(magic_value, 1);
}

#[test]
fn magic_differs_between_map_kinds() {
    assert_ne!(type_specific_magic::<FastaMap>(), type_specific_magic::<TrackMap>());
    assert_eq!(type_specific_magic::<FastaMap>(), type_specific_magic::<FastaMap>());
}

#[test]
fn header_layout_and_checksum() {
    let bytes = materialize(b"123456789", 0x0102030405060708, 16).unwrap();
    assert_eq!(&bytes[0..8], &[8, 7, 6, 5, 4, 3, 2, 1]);
    // CRC-32 (IEEE) of "123456789".
    assert_eq!(&bytes[8..12], &0xCBF43926u32.to_le_bytes());
    assert_eq!(&bytes[12..16], &[0, 0, 0, 0]);
    assert_eq!(&bytes[16..], b"123456789");
    assert_eq!(verify(&bytes, 0x0102030405060708, 16), Ok(()));
}

#[test]
fn page_smaller_than_header_is_refused() {
    assert_eq!(materialize(b"x", 1, 11), Err(FastarError::InvalidConfiguration));
    assert_eq!(verify(&[0u8; 64], 1, 8), Err(FastarError::InvalidConfiguration));
}

/// A FASTA payload whose entries have the given names and no records.
fn fasta_payload(names: &[&[u8]]) -> Vec<u8> {
    let mut payload = b"FASTMAP1".to_vec();
    payload.extend_from_slice(&(names.len() as u64).to_le_bytes());
    for name in names {
        payload.extend_from_slice(&(name.len() as u64).to_le_bytes());
        payload.extend_from_slice(name);
        payload.extend_from_slice(&0u64.to_le_bytes());
        payload.extend_from_slice(&0u64.to_le_bytes());
    }
    payload
}

#[test]
fn payload_with_invalid_utf8_name_is_corruption() {
    let magic = type_specific_magic::<FastaMap>();
    let bytes = materialize(&fasta_payload(&[&[0xff]]), magic, 16).unwrap();
    assert_eq!(ArchivedFastaMap::open(&bytes, magic, 16).err(), Some(FastarError::Corrupted));
    let bytes = materialize(&fasta_payload(&[b"n"]), magic, 16).unwrap();
    assert_eq!(ArchivedFastaMap::open(&bytes, magic, 16).unwrap().names(), vec!["n".to_string()]);
}

#[test]
fn payload_with_names_out_of_order_or_repeated_is_corruption() {
    let magic = type_specific_magic::<FastaMap>();
    let unsorted = materialize(&fasta_payload(&[b"b", b"a"]), magic, 16).unwrap();
    assert_eq!(ArchivedFastaMap::open(&unsorted, magic, 16).err(), Some(FastarError::Corrupted));
    let repeated = materialize(&fasta_payload(&[b"a", b"a"]), magic, 16).unwrap();
    assert_eq!(ArchivedFastaMap::open(&repeated, magic, 16).err(), Some(FastarError::Corrupted));
    let sorted = materialize(&fasta_payload(&[b"a", b"b"]), magic, 16).unwrap();
    assert_eq!(
        ArchivedFastaMap::open(&sorted, magic, 16).unwrap().names(),
        vec!["a".to_string(), "b".to_string()]
    );
}

#[test]
fn track_payload_is_refused_by_the_fasta_loader_even_under_its_magic() {
    let track = sample_track_map();
    let magic = type_specific_magic::<FastaMap>();
    let bytes = track.materialize(magic, PAGE).unwrap();
    assert_eq!(ArchivedFastaMap::open(&bytes, magic, PAGE).err(), Some(FastarError::Corrupted));
    let fasta = sample_fasta_map();
    let bytes = fasta.materialize(magic, PAGE).unwrap();
    assert_eq!(ArchivedTrackMap::open(&bytes, magic, PAGE).err(), Some(FastarError::Corrupted));
}

#[test]
fn strict_build_fails_on_first_error_with_its_name() {
    let names = vec!["a".to_string(), "b".to_string(), "c".to_string()];
    let results: Vec<Result<u32, FastarError>> =
        vec![Ok(1), Err(FastarError::MalformedSidecar), Err(FastarError::IoFailure)];
    let failure = assemble(&names, results, true).unwrap_err();
    assert_eq!(failure.name, "b".to_string());
    assert_eq!(failure.error, FastarError::MalformedSidecar);
}

#[test]
fn lenient_build_leaves_failed_names_out() {
    let names = vec!["c".to_string(), "b".to_string(), "a".to_string()];
    let results: Vec<Result<u32, FastarError>> =
        vec![Ok(3), Err(FastarError::MalformedSidecar), Ok(1)];
    let map = assemble(&names, results, false).unwrap();
    assert_eq!(map.names(), vec!["a".to_string(), "c".to_string()]);
    assert_eq!(map.get("c"), Some(&3));
    assert_eq!(map.get("b"), None);
}

#[test]
fn later_result_for_a_repeated_name_wins() {
    let names = vec!["x".to_string(), "x".to_string()];
    let results: Vec<Result<u32, FastarError>> = vec![Ok(1), Ok(2)];
    let map = assemble(&names, results, true).unwrap();
    assert_eq!(map.names(), vec!["x".to_string()]);
    assert_eq!(map.get("x"), Some(&2));
}

#[test]
fn names_sort_by_utf8_bytes() {
    let names = vec!["a/b".to_string(), "a.c".to_string(), "Z".to_string(), "é".to_string(), "a".to_string()];
    let results: Vec<Result<u32, FastarError>> = vec![Ok(0), Ok(1), Ok(2), Ok(3), Ok(4)];
    let map = assemble(&names, results, true).unwrap();
    assert_eq!(
        map.names(),
        vec!["Z".to_string(), "a".to_string(), "a.c".to_string(), "a/b".to_string(), "é".to_string()]
    );
}

#[test]
fn index_name_errors() {
    assert_eq!(
        FastaMap::index_name(b"\x01", b"chr1\t1\t0\t1\t2\n", 0).err(),
        Some(FastarError::MalformedSidecar)
    );
    assert_eq!(
        FastaMap::index_name(&gzi_table_bytes(&[]), b"chr1\n", 0).err(),
        Some(FastarError::MalformedSidecar)
    );
    assert_eq!(
        TrackMap::index_name(&gzi_table_bytes(&[]), b"\t0\nb\t1\n", 0).err(),
        Some(FastarError::MalformedSidecar)
    );
}

#[test]
fn memory_backend_round_trip() {
    let map = sample_fasta_map();
    let magic = type_specific_magic::<FastaMap>();
    let storage = MemoryStorage::load(map.materialize(magic, PAGE).unwrap());
    let archived = ArchivedFastaMap::open(storage.as_ref(), magic, PAGE).unwrap();
    let dynamic = DynamicStorage::new(StorageKind::Memory, ArchiveStorage::new(storage, None, archived));
    assert_eq!(dynamic.get_id(), None);
    assert_eq!(dynamic.as_ref().names(), map.names());
    assert_eq!(
        dynamic.as_ref().query("sub/b", b"chr1", 65),
        Ok(VirtualPosition { compressed: 0, in_block: 72 })
    );
}

#[test]
fn reloaded_map_answers_like_the_built_one() {
    let map = sample_fasta_map();
    let magic = type_specific_magic::<FastaMap>();
    let archived = ArchivedFastaMap::open(&map.materialize(magic, PAGE).unwrap(), magic, PAGE).unwrap();
    assert_eq!(archived.names(), map.names());
    for name in ["a", "sub/b", "c"] {
        assert_eq!(archived.contigs(name), map.contigs(name));
        for contig in [&b"chr1"[..], b"chr2", b"chrM", b"x"] {
            for start in [0u64, 1, 59, 60, 65, 130, 299, 5000, 70000] {
                assert_eq!(archived.query(name, contig, start), map.query(name, contig, start));
            }
        }
    }
    let track = sample_track_map();
    let tmagic = type_specific_magic::<TrackMap>();
    let tarchived = ArchivedTrackMap::open(&track.materialize(tmagic, PAGE).unwrap(), tmagic, PAGE).unwrap();
    assert_eq!(tarchived.names(), track.names());
    for contig in [&b"x"[..], b"y", b"z"] {
        for start in [0u64, 10, 149, 70000] {
            assert_eq!(tarchived.query("t1", contig, start), track.query("t1", contig, start));
        }
    }
}
