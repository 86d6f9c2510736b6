use fastar::bgzf_index::{ArchivedBgzfIndex, BgzfIndex, Checkpoint, VirtualPosition};
use fastar::fasta_index::{ArchivedFastaIndex, FaiRecord, FastaIndex};
use fastar::track_index::{parse_track_lines, ArchivedTrackIndex, TrackIndex};
use fastar::FastarError;

fn cp(compressed: u64, uncompressed: u64) -> Checkpoint {
    Checkpoint { compressed, uncompressed }
}

fn gzi_bytes(pairs: &[(u64, u64)]) -> Vec<u8> {
    let mut b = (pairs.len() as u64).to_le_bytes().to_vec();
    for (c, u) in pairs {
        b.extend_from_slice(&c.to_le_bytes());
        b.extend_from_slice(&u.to_le_bytes());
    }
    b
}

fn record(name: &str, length: u64, offset: u64, bases: u64, width: u64) -> FaiRecord {
    FaiRecord {
        contig: name.as_bytes().to_vec(),
        length,
        offset,
        line_bases: bases,
        line_width: width,
    }
}

#[test]
fn binary_search_picks_last_checkpoint_at_or_before() {
    let ix = ArchivedBgzfIndex::from_checked(vec![cp(0, 0), cp(4668, 100), cp(9000, 250)]);
    assert_eq!(ix.query(150), Ok(VirtualPosition { compressed: 4668, in_block: 50 }));
    assert_eq!(ix.query(99), Ok(VirtualPosition { compressed: 0, in_block: 99 }));
    assert_eq!(ix.query(0), Ok(VirtualPosition { compressed: 0, in_block: 0 }));
    assert_eq!(ix.query(100), Ok(VirtualPosition { compressed: 4668, in_block: 0 }));
    assert_eq!(ix.query(300), Ok(VirtualPosition { compressed: 9000, in_block: 50 }));
}

#[test]
fn query_before_first_checkpoint_uses_implicit_origin() {
    let ix = ArchivedBgzfIndex::from_checked(vec![cp(500, 1000)]);
    assert_eq!(ix.query(999), Ok(VirtualPosition { compressed: 0, in_block: 999 }));
    let empty = ArchivedBgzfIndex::from_checked(vec![]);
    assert_eq!(empty.query(12), Ok(VirtualPosition { compressed: 0, in_block: 12 }));
}

#[test]
fn in_block_offset_over_16_bits_overflows() {
    let ix = ArchivedBgzfIndex::from_checked(vec![cp(0, 0)]);
    assert_eq!(ix.query(65535), Ok(VirtualPosition { compressed: 0, in_block: 65535 }));
    assert_eq!(ix.query(65536), Err(FastarError::OffsetOverflow));
}

#[test]
fn compressed_offset_over_48_bits_overflows() {
    let ix = ArchivedBgzfIndex::from_checked(vec![cp(1 << 48, 10)]);
    assert_eq!(ix.query(20), Err(FastarError::OffsetOverflow));
    assert_eq!(VirtualPosition::new((1 << 48) - 1, 3).map(|v| v.packed()), Some((((1u64 << 48) - 1) << 16) | 3));
    assert_eq!(VirtualPosition::new(1 << 48, 3), None);
}

#[test]
fn packed_virtual_position() {
    let v = VirtualPosition::new(4668, 50).unwrap();
    assert_eq!(v.packed(), 4668 * 65536 + 50);
}

#[test]
fn gzi_sidecar_is_read_through_noodles() {
    let ix = BgzfIndex::read(&gzi_bytes(&[(4668, 21294), (23810, 86529)])).unwrap();
    assert_eq!(ix.entries(), &vec![cp(4668, 21294), cp(23810, 86529)]);
    let empty = BgzfIndex::read(&gzi_bytes(&[])).unwrap();
    assert!(empty.entries().is_empty());
}

#[test]
fn malformed_gzi_sidecars_are_refused() {
    let mut short = gzi_bytes(&[(1, 2)]);
    short.pop();
    assert_eq!(BgzfIndex::read(&short).err(), Some(FastarError::MalformedSidecar));
    let mut trailing = gzi_bytes(&[(1, 2)]);
    trailing.push(0);
    assert_eq!(BgzfIndex::read(&trailing).err(), Some(FastarError::MalformedSidecar));
    let unordered = gzi_bytes(&[(10, 200), (20, 100)]);
    assert_eq!(BgzfIndex::read(&unordered).err(), Some(FastarError::MalformedSidecar));
}

#[test]
fn wrapped_line_position_arithmetic() {
    let ix = ArchivedFastaIndex::from_records(vec![record("chr1", 1000, 10, 60, 61)]);
    assert_eq!(ix.query(b"chr1", 65), Ok(10 + (65 / 60) * 61 + 65 % 60));
    assert_eq!(ix.query(b"chr1", 65), Ok(76));
    assert_eq!(ix.query(b"chr1", 0), Ok(10));
    assert_eq!(ix.query(b"chr1", 59), Ok(69));
    assert_eq!(ix.query(b"chr1", 60), Ok(71));
}

#[test]
fn position_query_errors() {
    let ix = ArchivedFastaIndex::from_records(vec![
        record("chr1", 1000, 10, 60, 61),
        record("bad", 10, 0, 0, 0),
        record("far", 10, u64::MAX - 5, 60, 61),
    ]);
    assert_eq!(ix.query(b"chrX", 0), Err(FastarError::NotFound));
    assert_eq!(ix.query(b"bad", 0), Err(FastarError::MalformedSidecar));
    assert_eq!(ix.query(b"far", 5), Ok(u64::MAX));
    assert_eq!(ix.query(b"far", 6), Err(FastarError::OffsetOverflow));
}

#[test]
fn first_record_of_a_contig_answers() {
    let ix = ArchivedFastaIndex::from_records(vec![
        record("chr1", 1000, 10, 60, 61),
        record("chr1", 1000, 5000, 60, 61),
    ]);
    assert_eq!(ix.query(b"chr1", 1), Ok(11));
}

#[test]
fn fai_sidecar_is_read_through_noodles() {
    let text = b"chr1\t1000\t6\t60\t61\nchr2\t50\t1030\t60\t61\n";
    let ix = FastaIndex::read(text, 0).unwrap();
    let recs = ix.records();
    assert_eq!(recs.len(), 2);
    assert_eq!(recs[0].contig, b"chr1".to_vec());
    assert_eq!((recs[0].length, recs[0].offset, recs[0].line_bases, recs[0].line_width), (1000, 6, 60, 61));
    assert_eq!(recs[1].contig, b"chr2".to_vec());
    assert_eq!(recs[1].offset, 1030);
}

#[test]
fn malformed_fai_is_refused() {
    assert_eq!(FastaIndex::read(b"chr1\tten\t6\t60\t61\n", 0).err(), Some(FastarError::MalformedSidecar));
    assert_eq!(FastaIndex::read(b"chr1\n", 0).err(), Some(FastarError::MalformedSidecar));
}

#[test]
fn short_contigs_are_filtered_out() {
    let text = b"long\t1000\t6\t60\t61\nshort\t99\t1030\t60\t61\nedge\t100\t2000\t60\t61\n";
    let built = FastaIndex::read(text, 100).unwrap();
    let names: Vec<Vec<u8>> = built.records().iter().map(|r| r.contig.clone()).collect();
    assert_eq!(names, vec![b"long".to_vec(), b"edge".to_vec()]);
    let archived = ArchivedFastaIndex::from_records(built.records().iter().map(|r| r.copied()).collect());
    let contigs = archived.contigs();
    assert_eq!(contigs, vec![(b"long".to_vec(), 1000), (b"edge".to_vec(), 100)]);
    assert_eq!(archived.query(b"short", 0), Err(FastarError::NotFound));
}

#[test]
fn track_table_lengths_come_from_the_next_offset() {
    let ix = TrackIndex::read(b"chr1\t0\nchr2\t100\n\t250\n", 0).unwrap();
    let recs: Vec<(Vec<u8>, u64, u64)> =
        ix.records().iter().map(|r| (r.name.clone(), r.offset, r.length)).collect();
    assert_eq!(recs, vec![(b"chr1".to_vec(), 0, 100), (b"chr2".to_vec(), 100, 150)]);
}

#[test]
fn track_table_last_named_entry_has_no_length() {
    let ix = TrackIndex::read(b"a\t0\nb\t10", 0).unwrap();
    let recs: Vec<(Vec<u8>, u64, u64)> =
        ix.records().iter().map(|r| (r.name.clone(), r.offset, r.length)).collect();
    assert_eq!(recs, vec![(b"a".to_vec(), 0, 10)]);
}

#[test]
fn track_table_filters_short_records() {
    let ix = TrackIndex::read(b"a\t0\nb\t5\nc\t105\n\t300\n", 100).unwrap();
    let names: Vec<Vec<u8>> = ix.records().iter().map(|r| r.name.clone()).collect();
    assert_eq!(names, vec![b"b".to_vec(), b"c".to_vec()]);
    let archived = ArchivedTrackIndex::from_records(ix.records().iter().map(|r| r.copied()).collect());
    assert_eq!(archived.query(b"a", 0), Err(FastarError::NotFound));
    assert_eq!(archived.query(b"c", 7), Ok(112));
    assert_eq!(archived.contigs(), vec![(b"b".to_vec(), 100), (b"c".to_vec(), 195)]);
}

#[test]
fn track_table_skips_lines_without_offsets() {
    let lines = parse_track_lines(b"header line\na\t+7\nb\tx1\nc\t18446744073709551616\n\nd\t9\r\ne\t12\n");
    let got: Vec<(Option<Vec<u8>>, u64)> = lines.iter().map(|l| (l.name.clone(), l.offset)).collect();
    assert_eq!(got, vec![(Some(b"a".to_vec()), 7), (Some(b"e".to_vec()), 12)]);
}

#[test]
fn track_table_errors() {
    assert_eq!(TrackIndex::read(b"\t0\nb\t10\n", 0).err(), Some(FastarError::MalformedSidecar));
    assert_eq!(TrackIndex::read(b"a\t10\nb\t5\n", 0).err(), Some(FastarError::MalformedSidecar));
    assert!(TrackIndex::read(b"", 0).unwrap().records().is_empty());
    let ix = ArchivedTrackIndex::from_records(
        TrackIndex::read(b"a\t18446744073709551610\n\t18446744073709551615\n", 0)
            .unwrap()
            .records()
            .iter()
            .map(|r| r.copied())
            .collect(),
    );
    assert_eq!(ix.query(b"a", 5), Ok(u64::MAX));
    assert_eq!(ix.query(b"a", 6), Err(FastarError::OffsetOverflow));
}
