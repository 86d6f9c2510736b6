use vstd::prelude::*;
use vstd::utf8::{decode_utf8, encode_utf8, valid_utf8};

use crate::bgzf_index::{ascending, is_ascending, ArchivedBgzfIndex, Checkpoint};
use crate::codec::{
    at, concat, dec_bytes, dec_items, dec_list, dec_u64, enc_bytes, enc_list, le64, lemma_at_split,
    lemma_dec_bytes, lemma_dec_list, lemma_dec_u64, lemma_items_none, read_bytes, read_u64,
    reads_back, write_bytes, write_u64,
};
use crate::fasta_index::{record_views, ArchivedFastaIndex, FaiRecord, FaiRecordView};
use crate::fasta_map::{ArchivedFastaEntry, ArchivedFastaMap, FastaEntryView, FastaMap};
use crate::track_index::{track_views, ArchivedTrackIndex, TrackRecord, TrackRecordView};
use crate::track_map::{ArchivedTrackEntry, ArchivedTrackMap, TrackEntryView, TrackMap};

verus! {

broadcast use {vstd::utf8::encode_utf8_decode_utf8, vstd::utf8::encode_utf8_valid_utf8};

/// First word of a FASTA map payload (the bytes `FASTMAP1`).
pub const FASTA_PAYLOAD_TAG: u64 = 0x3150_414d_5453_4146;

/// First word of a track map payload (the bytes `TRAKMAP1`).
pub const TRACK_PAYLOAD_TAG: u64 = 0x3150_414d_4b41_5254;

/// Relies on `std::str::from_utf8`, which accepts exactly the valid UTF-8
/// byte strings; the string it gives holds the characters they encode.
#[verifier::external_body]
fn utf8_string(b: &[u8]) -> (r: Option<String>)
    ensures
        r is Some <==> valid_utf8(b@),
        r matches Some(s) ==> s@ == decode_utf8(b@),
{
    std::str::from_utf8(b).ok().map(|s| s.to_string())
}

// Checkpoints: compressed offset, then uncompressed offset.
pub open spec fn enc_checkpoint(c: Checkpoint) -> Seq<u8> {
    le64(c.compressed) + le64(c.uncompressed)
}

pub open spec fn dec_checkpoint(b: Seq<u8>, p: int) -> Option<(Checkpoint, int)> {
    match dec_u64(b, p) {
        None => None,
        Some((c, q)) => match dec_u64(b, q) {
            None => None,
            Some((u, r)) => Some((Checkpoint { compressed: c, uncompressed: u }, r)),
        },
    }
}

pub open spec fn checkpoint_enc() -> spec_fn(Checkpoint) -> Seq<u8> {
    |c: Checkpoint| enc_checkpoint(c)
}

pub open spec fn checkpoint_dec() -> spec_fn(Seq<u8>, int) -> Option<(Checkpoint, int)> {
    |b: Seq<u8>, p: int| dec_checkpoint(b, p)
}

pub open spec fn any_checkpoint() -> spec_fn(Checkpoint) -> bool {
    |c: Checkpoint| true
}

proof fn lemma_checkpoint_reads_back()
    ensures
        reads_back(checkpoint_enc(), checkpoint_dec(), any_checkpoint()),
{
    assert forall|b: Seq<u8>, q: int, x: Checkpoint|
        any_checkpoint()(x) && #[trigger] at(b, q, checkpoint_enc()(x)) implies checkpoint_dec()(
        b,
        q,
    ) == Some((x, q + checkpoint_enc()(x).len())) by {
        lemma_at_split(b, q, le64(x.compressed), le64(x.uncompressed));
        lemma_dec_u64(b, q, x.compressed);
        lemma_dec_u64(b, q + 8, x.uncompressed);
    }
}

pub fn write_checkpoints(out: &mut Vec<u8>, v: &Vec<Checkpoint>)
    ensures
        final(out)@ == old(out)@ + enc_list(v@, checkpoint_enc()),
{
    let ghost start = out@;
    write_u64(out, v.len() as u64);
    let ghost mid = out@;
    let mut i: usize = 0;
    while i < v.len()
        invariant
            i <= v@.len(),
            mid == start + le64(v@.len() as u64),
            out@ == mid + concat(v@.subrange(0, i as int), checkpoint_enc()),
        decreases v@.len() - i,
    {
        write_u64(out, v[i].compressed);
        write_u64(out, v[i].uncompressed);
        assert(v@.subrange(0, i + 1).drop_last() =~= v@.subrange(0, i as int));
        i = i + 1;
        assert(out@ =~= mid + concat(v@.subrange(0, i as int), checkpoint_enc()));
    }
    assert(v@.subrange(0, v@.len() as int) =~= v@);
    assert(out@ =~= start + enc_list(v@, checkpoint_enc()));
}

pub fn read_checkpoints(b: &[u8], p: usize) -> (r: Option<(Vec<Checkpoint>, usize)>)
    ensures
        (match r {
            None => dec_list(b@, p as int, checkpoint_dec()) is None,
            Some((v, q)) => dec_list(b@, p as int, checkpoint_dec()) == Some((v@, q as int)),
        }),
{
    let (n, q) = match read_u64(b, p) {
        None => return None,
        Some(x) => x,
    };
    let mut out: Vec<Checkpoint> = Vec::new();
    let mut pos = q;
    let mut i: u64 = 0;
    while i < n
        invariant
            i <= n,
            pos <= b@.len(),
            dec_u64(b@, p as int) == Some((n, q as int)),
            dec_items(b@, q as int, i as nat, checkpoint_dec()) == Some((out@, pos as int)),
        decreases n - i,
    {
        let (c, pos1) = match read_u64(b, pos) {
            None => {
                proof {
                    lemma_items_none(b@, q as int, (i + 1) as nat, n as nat, checkpoint_dec());
                }
                return None;
            },
            Some(x) => x,
        };
        let (u, pos2) = match read_u64(b, pos1) {
            None => {
                proof {
                    lemma_items_none(b@, q as int, (i + 1) as nat, n as nat, checkpoint_dec());
                }
                return None;
            },
            Some(x) => x,
        };
        out.push(Checkpoint { compressed: c, uncompressed: u });
        pos = pos2;
        i = i + 1;
    }
    Some((out, pos))
}

// Contig records: name, length, offset, bases per line, bytes per line.
pub open spec fn enc_fai(r: FaiRecordView) -> Seq<u8> {
    enc_bytes(r.contig) + le64(r.length) + le64(r.offset) + le64(r.line_bases) + le64(r.line_width)
}

pub open spec fn dec_fai(b: Seq<u8>, p: int) -> Option<(FaiRecordView, int)> {
    match dec_bytes(b, p) {
        None => None,
        Some((c, pos1)) => match dec_u64(b, pos1) {
            None => None,
            Some((l, pos2)) => match dec_u64(b, pos2) {
                None => None,
                Some((o, pos3)) => match dec_u64(b, pos3) {
                    None => None,
                    Some((lb, pos4)) => match dec_u64(b, pos4) {
                        None => None,
                        Some((lw, pos5)) => Some(
                            (
                                FaiRecordView {
                                    contig: c,
                                    length: l,
                                    offset: o,
                                    line_bases: lb,
                                    line_width: lw,
                                },
                                pos5,
                            ),
                        ),
                    },
                },
            },
        },
    }
}

pub open spec fn fai_enc() -> spec_fn(FaiRecordView) -> Seq<u8> {
    |r: FaiRecordView| enc_fai(r)
}

pub open spec fn fai_dec() -> spec_fn(Seq<u8>, int) -> Option<(FaiRecordView, int)> {
    |b: Seq<u8>, p: int| dec_fai(b, p)
}

pub open spec fn fai_ok() -> spec_fn(FaiRecordView) -> bool {
    |r: FaiRecordView| r.contig.len() <= u64::MAX
}

proof fn lemma_fai_reads_back()
    ensures
        reads_back(fai_enc(), fai_dec(), fai_ok()),
{
    assert forall|b: Seq<u8>, q: int, x: FaiRecordView|
        fai_ok()(x) && #[trigger] at(b, q, fai_enc()(x)) implies fai_dec()(b, q) == Some(
        (x, q + fai_enc()(x).len()),
    ) by {
        let a = enc_bytes(x.contig);
        let l1 = le64(x.length);
        let l2 = le64(x.offset);
        let l3 = le64(x.line_bases);
        let l4 = le64(x.line_width);
        lemma_at_split(b, q, a + l1 + l2 + l3, l4);
        lemma_at_split(b, q, a + l1 + l2, l3);
        lemma_at_split(b, q, a + l1, l2);
        lemma_at_split(b, q, a, l1);
        lemma_dec_bytes(b, q, x.contig);
        let pos1 = q + 8 + x.contig.len();
        lemma_dec_u64(b, pos1, x.length);
        lemma_dec_u64(b, pos1 + 8, x.offset);
        lemma_dec_u64(b, pos1 + 16, x.line_bases);
        lemma_dec_u64(b, pos1 + 24, x.line_width);
    }
}

pub fn write_fai_records(out: &mut Vec<u8>, v: &Vec<FaiRecord>)
    ensures
        final(out)@ == old(out)@ + enc_list(record_views(v@), fai_enc()),
        forall|i: int| 0 <= i < v@.len() ==> fai_ok()(#[trigger] record_views(v@)[i]),
{
    let ghost vs = record_views(v@);
    let ghost start = out@;
    write_u64(out, v.len() as u64);
    let ghost mid = out@;
    let mut i: usize = 0;
    while i < v.len()
        invariant
            i <= v@.len(),
            vs == record_views(v@),
            mid == start + le64(v@.len() as u64),
            out@ == mid + concat(vs.subrange(0, i as int), fai_enc()),
            forall|j: int| 0 <= j < i ==> fai_ok()(#[trigger] vs[j]),
        decreases v@.len() - i,
    {
        let r = &v[i];
        write_bytes(out, r.contig.as_slice());
        write_u64(out, r.length);
        write_u64(out, r.offset);
        write_u64(out, r.line_bases);
        write_u64(out, r.line_width);
        assert(vs.subrange(0, i + 1).drop_last() =~= vs.subrange(0, i as int));
        assert(vs[i as int] == r@);
        // Asking for the length shows that it fits a `usize`, hence a `u64`.
        let _ = r.contig.len();
        i = i + 1;
        assert(out@ =~= mid + concat(vs.subrange(0, i as int), fai_enc()));
    }
    assert(vs.subrange(0, v@.len() as int) =~= vs);
    assert(out@ =~= start + enc_list(vs, fai_enc()));
}

fn read_fai_record(b: &[u8], p: usize) -> (r: Option<(FaiRecord, usize)>)
    ensures
        (match r {
            None => dec_fai(b@, p as int) is None,
            Some((v, q)) => dec_fai(b@, p as int) == Some((v@, q as int)),
        }),
{
    let (contig, pos1) = read_bytes(b, p)?;
    let (length, pos2) = read_u64(b, pos1)?;
    let (offset, pos3) = read_u64(b, pos2)?;
    let (line_bases, pos4) = read_u64(b, pos3)?;
    let (line_width, pos5) = read_u64(b, pos4)?;
    Some((FaiRecord { contig, length, offset, line_bases, line_width }, pos5))
}

pub fn read_fai_records(b: &[u8], p: usize) -> (r: Option<(Vec<FaiRecord>, usize)>)
    ensures
        (match r {
            None => dec_list(b@, p as int, fai_dec()) is None,
            Some((v, q)) => dec_list(b@, p as int, fai_dec()) == Some((record_views(v@), q as int)),
        }),
{
    let (n, q) = match read_u64(b, p) {
        None => return None,
        Some(x) => x,
    };
    let mut out: Vec<FaiRecord> = Vec::new();
    let mut pos = q;
    let mut i: u64 = 0;
    while i < n
        invariant
            i <= n,
            dec_u64(b@, p as int) == Some((n, q as int)),
            dec_items(b@, q as int, i as nat, fai_dec()) == Some((record_views(out@), pos as int)),
        decreases n - i,
    {
        let (rec, next) = match read_fai_record(b, pos) {
            None => {
                proof {
                    lemma_items_none(b@, q as int, (i + 1) as nat, n as nat, fai_dec());
                }
                return None;
            },
            Some(x) => x,
        };
        let ghost before = out@;
        out.push(rec);
        assert(record_views(out@) =~= record_views(before).push(rec@));
        pos = next;
        i = i + 1;
    }
    Some((out, pos))
}

// FASTA sources: name as UTF-8, checkpoints, contig records.
pub open spec fn enc_fasta_entry(e: (Seq<char>, FastaEntryView)) -> Seq<u8> {
    enc_bytes(encode_utf8(e.0)) + enc_list(e.1.gzi, checkpoint_enc()) + enc_list(
        e.1.fai,
        fai_enc(),
    )
}

pub open spec fn dec_fasta_entry(b: Seq<u8>, p: int) -> Option<((Seq<char>, FastaEntryView), int)> {
    match dec_bytes(b, p) {
        None => None,
        Some((kb, pos1)) => if !valid_utf8(kb) {
            None
        } else {
            match dec_list(b, pos1, checkpoint_dec()) {
                None => None,
                Some((g, pos2)) => if !ascending(g) {
                    None
                } else {
                    match dec_list(b, pos2, fai_dec()) {
                        None => None,
                        Some((f, pos3)) => Some(
                            ((decode_utf8(kb), FastaEntryView { gzi: g, fai: f }), pos3),
                        ),
                    }
                },
            }
        },
    }
}

pub open spec fn fasta_entry_enc() -> spec_fn((Seq<char>, FastaEntryView)) -> Seq<u8> {
    |e: (Seq<char>, FastaEntryView)| enc_fasta_entry(e)
}

pub open spec fn fasta_entry_dec() -> spec_fn(Seq<u8>, int) -> Option<
    ((Seq<char>, FastaEntryView), int),
> {
    |b: Seq<u8>, p: int| dec_fasta_entry(b, p)
}

/// What an entry needs to be written: lengths that fit a `u64`, and
/// checkpoints in order.
pub open spec fn fasta_entry_ok() -> spec_fn((Seq<char>, FastaEntryView)) -> bool {
    |e: (Seq<char>, FastaEntryView)|
        encode_utf8(e.0).len() <= u64::MAX && e.1.gzi.len() <= u64::MAX && ascending(e.1.gzi)
            && e.1.fai.len() <= u64::MAX && forall|i: int|
            0 <= i < e.1.fai.len() ==> fai_ok()(#[trigger] e.1.fai[i])
}

pub open spec fn fasta_map_ok(s: Seq<(Seq<char>, FastaEntryView)>) -> bool {
    s.len() <= u64::MAX && crate::name_map::strictly_sorted(s) && forall|i: int|
        0 <= i < s.len() ==> fasta_entry_ok()(#[trigger] s[i])
}

/// The payload of a FASTA map: its tag, then its entries as a list.
pub open spec fn enc_fasta_map(s: Seq<(Seq<char>, FastaEntryView)>) -> Seq<u8> {
    le64(FASTA_PAYLOAD_TAG) + enc_list(s, fasta_entry_enc())
}

/// The FASTA map a payload holds: its tag, then a list of entries in
/// strictly increasing name order that ends exactly at the
/// end of the payload.
pub open spec fn dec_fasta_map(b: Seq<u8>) -> Option<Seq<(Seq<char>, FastaEntryView)>> {
    match dec_u64(b, 0) {
        None => None,
        Some((tag, q)) => if tag != FASTA_PAYLOAD_TAG {
            None
        } else {
            match dec_list(b, q, fasta_entry_dec()) {
                None => None,
                Some((s, end)) => if end == b.len() && crate::name_map::strictly_sorted(s) {
                    Some(s)
                } else {
                    None
                },
            }
        },
    }
}

proof fn lemma_fasta_entry_reads_back()
    ensures
        reads_back(fasta_entry_enc(), fasta_entry_dec(), fasta_entry_ok()),
{
    lemma_checkpoint_reads_back();
    lemma_fai_reads_back();
    assert forall|b: Seq<u8>, q: int, x: (Seq<char>, FastaEntryView)|
        fasta_entry_ok()(x) && #[trigger] at(b, q, fasta_entry_enc()(x)) implies fasta_entry_dec()(
        b,
        q,
    ) == Some((x, q + fasta_entry_enc()(x).len())) by {
        let kb = encode_utf8(x.0);
        let a = enc_bytes(kb);
        let g = enc_list(x.1.gzi, checkpoint_enc());
        let f = enc_list(x.1.fai, fai_enc());
        lemma_at_split(b, q, a + g, f);
        lemma_at_split(b, q, a, g);
        lemma_dec_bytes(b, q, kb);
        let pos1 = q + a.len();
        lemma_dec_list(b, pos1, x.1.gzi, checkpoint_enc(), checkpoint_dec(), any_checkpoint());
        let pos2 = pos1 + g.len();
        lemma_dec_list(b, pos2, x.1.fai, fai_enc(), fai_dec(), fai_ok());
    }
}

/// Decoding the payload written for a FASTA map gives back that map.
pub proof fn lemma_fasta_payload_round_trip(s: Seq<(Seq<char>, FastaEntryView)>)
    requires
        fasta_map_ok(s),
    ensures
        dec_fasta_map(enc_fasta_map(s)) == Some(s),
{
    let b = enc_fasta_map(s);
    assert(b.subrange(0, b.len() as int) =~= b);
    lemma_at_split(b, 0, le64(FASTA_PAYLOAD_TAG), enc_list(s, fasta_entry_enc()));
    lemma_dec_u64(b, 0, FASTA_PAYLOAD_TAG);
    lemma_fasta_entry_reads_back();
    lemma_dec_list(b, 8, s, fasta_entry_enc(), fasta_entry_dec(), fasta_entry_ok());
}

/// Writes the payload of a FASTA map.
pub fn encode_fasta_map(m: &FastaMap) -> (r: Vec<u8>)
    ensures
        r@ == enc_fasta_map(m@),
        fasta_map_ok(m@),
{
    let ghost s = m@;
    let mut out: Vec<u8> = Vec::new();
    let n = m.len();
    write_u64(&mut out, FASTA_PAYLOAD_TAG);
    write_u64(&mut out, n as u64);
    let ghost mid = out@;
    let mut i: usize = 0;
    while i < n
        invariant
            n == s.len(),
            s == m@,
            i <= n,
            mid == le64(FASTA_PAYLOAD_TAG) + le64(n as u64),
            out@ == mid + concat(s.subrange(0, i as int), fasta_entry_enc()),
            forall|j: int| 0 <= j < i ==> fasta_entry_ok()(#[trigger] s[j]),
        decreases n - i,
    {
        let (k, e) = m.entry_at(i);
        let kb = k.as_str().as_bytes();
        write_bytes(&mut out, kb);
        write_checkpoints(&mut out, e.gzi.entries());
        write_fai_records(&mut out, e.fai.records());
        // Asking for the lengths shows that they fit a `usize`, hence a `u64`.
        let _ = kb.len();
        let _ = e.gzi.entries().len();
        let _ = e.fai.records().len();
        assert(s.subrange(0, i + 1).drop_last() =~= s.subrange(0, i as int));
        assert(fasta_entry_ok()(s[i as int]));
        i = i + 1;
        assert(out@ =~= mid + concat(s.subrange(0, i as int), fasta_entry_enc()));
    }
    assert(s.subrange(0, n as int) =~= s);
    assert(out@ =~= enc_fasta_map(s));
    out
}

fn read_fasta_entry(b: &[u8], p: usize) -> (r: Option<((String, ArchivedFastaEntry), usize)>)
    ensures
        (match r {
            None => dec_fasta_entry(b@, p as int) is None,
            Some((e, q)) => dec_fasta_entry(b@, p as int) == Some(((e.0@, e.1@), q as int)),
        }),
{
    let (kb, pos1) = read_bytes(b, p)?;
    let key = utf8_string(kb.as_slice())?;
    let (gzi, pos2) = read_checkpoints(b, pos1)?;
    if !is_ascending(&gzi) {
        return None;
    }
    let gzi = ArchivedBgzfIndex::from_checked(gzi);
    let (fai, pos3) = read_fai_records(b, pos2)?;
    let fai = ArchivedFastaIndex::from_records(fai);
    Some(((key, ArchivedFastaEntry { gzi, fai }), pos3))
}

pub open spec fn archived_fasta_pairs(v: Seq<(String, ArchivedFastaEntry)>) -> Seq<
    (Seq<char>, FastaEntryView),
> {
    v.map_values(|p: (String, ArchivedFastaEntry)| (p.0@, p.1@))
}

/// Reads the payload of a FASTA map.
pub fn decode_fasta_map(b: &[u8]) -> (r: Option<ArchivedFastaMap>)
    ensures
        (match dec_fasta_map(b@) {
            None => r is None,
            Some(s) => r matches Some(m) && m@ == s,
        }),
{
    let (tag, q0) = match read_u64(b, 0) {
        None => return None,
        Some(x) => x,
    };
    if tag != FASTA_PAYLOAD_TAG {
        return None;
    }
    let (n, q) = match read_u64(b, q0) {
        None => return None,
        Some(x) => x,
    };
    let mut out: Vec<(String, ArchivedFastaEntry)> = Vec::new();
    let mut pos = q;
    let mut i: u64 = 0;
    while i < n
        invariant
            i <= n,
            dec_u64(b@, 0) == Some((tag, q0 as int)),
            tag == FASTA_PAYLOAD_TAG,
            dec_u64(b@, q0 as int) == Some((n, q as int)),
            dec_items(b@, q as int, i as nat, fasta_entry_dec()) == Some(
                (archived_fasta_pairs(out@), pos as int),
            ),
        decreases n - i,
    {
        let (entry, next) = match read_fasta_entry(b, pos) {
            None => {
                proof {
                    lemma_items_none(b@, q as int, (i + 1) as nat, n as nat, fasta_entry_dec());
                }
                return None;
            },
            Some(x) => x,
        };
        let ghost before = out@;
        let ghost ev = (entry.0@, entry.1@);
        out.push(entry);
        assert(archived_fasta_pairs(out@) =~= archived_fasta_pairs(before).push(ev));
        pos = next;
        i = i + 1;
    }
    if pos != b.len() {
        return None;
    }
    proof {
        crate::name_map::lemma_sorted_same_keys(
            crate::name_map::pair_views(out@),
            archived_fasta_pairs(out@),
        );
    }
    if !crate::name_map::is_strictly_sorted(&out) {
        return None;
    }
    let m = ArchivedFastaMap::from_entries(out);
    assert(m@ =~= archived_fasta_pairs(out@));
    Some(m)
}

} // verus!

verus! {

// Track records: name, offset, length.
pub open spec fn enc_track(r: TrackRecordView) -> Seq<u8> {
    enc_bytes(r.name) + le64(r.offset) + le64(r.length)
}

pub open spec fn dec_track(b: Seq<u8>, p: int) -> Option<(TrackRecordView, int)> {
    match dec_bytes(b, p) {
        None => None,
        Some((n, pos1)) => match dec_u64(b, pos1) {
            None => None,
            Some((o, pos2)) => match dec_u64(b, pos2) {
                None => None,
                Some((l, pos3)) => Some((TrackRecordView { name: n, offset: o, length: l }, pos3)),
            },
        },
    }
}

pub open spec fn track_enc() -> spec_fn(TrackRecordView) -> Seq<u8> {
    |r: TrackRecordView| enc_track(r)
}

pub open spec fn track_dec() -> spec_fn(Seq<u8>, int) -> Option<(TrackRecordView, int)> {
    |b: Seq<u8>, p: int| dec_track(b, p)
}

pub open spec fn track_ok() -> spec_fn(TrackRecordView) -> bool {
    |r: TrackRecordView| r.name.len() <= u64::MAX
}

proof fn lemma_track_reads_back()
    ensures
        reads_back(track_enc(), track_dec(), track_ok()),
{
    assert forall|b: Seq<u8>, q: int, x: TrackRecordView|
        track_ok()(x) && #[trigger] at(b, q, track_enc()(x)) implies track_dec()(b, q) == Some(
        (x, q + track_enc()(x).len()),
    ) by {
        let a = enc_bytes(x.name);
        let l1 = le64(x.offset);
        let l2 = le64(x.length);
        lemma_at_split(b, q, a + l1, l2);
        lemma_at_split(b, q, a, l1);
        lemma_dec_bytes(b, q, x.name);
        let pos1 = q + 8 + x.name.len();
        lemma_dec_u64(b, pos1, x.offset);
        lemma_dec_u64(b, pos1 + 8, x.length);
    }
}

pub fn write_track_records(out: &mut Vec<u8>, v: &Vec<TrackRecord>)
    ensures
        final(out)@ == old(out)@ + enc_list(track_views(v@), track_enc()),
        forall|i: int| 0 <= i < v@.len() ==> track_ok()(#[trigger] track_views(v@)[i]),
{
    let ghost vs = track_views(v@);
    let ghost start = out@;
    write_u64(out, v.len() as u64);
    let ghost mid = out@;
    let mut i: usize = 0;
    while i < v.len()
        invariant
            i <= v@.len(),
            vs == track_views(v@),
            mid == start + le64(v@.len() as u64),
            out@ == mid + concat(vs.subrange(0, i as int), track_enc()),
            forall|j: int| 0 <= j < i ==> track_ok()(#[trigger] vs[j]),
        decreases v@.len() - i,
    {
        let r = &v[i];
        write_bytes(out, r.name.as_slice());
        write_u64(out, r.offset);
        write_u64(out, r.length);
        assert(vs.subrange(0, i + 1).drop_last() =~= vs.subrange(0, i as int));
        assert(vs[i as int] == r@);
        // Asking for the length shows that it fits a `usize`, hence a `u64`.
        let _ = r.name.len();
        i = i + 1;
        assert(out@ =~= mid + concat(vs.subrange(0, i as int), track_enc()));
    }
    assert(vs.subrange(0, v@.len() as int) =~= vs);
    assert(out@ =~= start + enc_list(vs, track_enc()));
}

fn read_track_record(b: &[u8], p: usize) -> (r: Option<(TrackRecord, usize)>)
    ensures
        (match r {
            None => dec_track(b@, p as int) is None,
            Some((v, q)) => dec_track(b@, p as int) == Some((v@, q as int)),
        }),
{
    let (name, pos1) = read_bytes(b, p)?;
    let (offset, pos2) = read_u64(b, pos1)?;
    let (length, pos3) = read_u64(b, pos2)?;
    Some((TrackRecord { name, offset, length }, pos3))
}

pub fn read_track_records(b: &[u8], p: usize) -> (r: Option<(Vec<TrackRecord>, usize)>)
    ensures
        (match r {
            None => dec_list(b@, p as int, track_dec()) is None,
            Some((v, q)) => dec_list(b@, p as int, track_dec()) == Some((track_views(v@), q as int)),
        }),
{
    let (n, q) = match read_u64(b, p) {
        None => return None,
        Some(x) => x,
    };
    let mut out: Vec<TrackRecord> = Vec::new();
    let mut pos = q;
    let mut i: u64 = 0;
    while i < n
        invariant
            i <= n,
            dec_u64(b@, p as int) == Some((n, q as int)),
            dec_items(b@, q as int, i as nat, track_dec()) == Some((track_views(out@), pos as int)),
        decreases n - i,
    {
        let (rec, next) = match read_track_record(b, pos) {
            None => {
                proof {
                    lemma_items_none(b@, q as int, (i + 1) as nat, n as nat, track_dec());
                }
                return None;
            },
            Some(x) => x,
        };
        let ghost before = out@;
        out.push(rec);
        assert(track_views(out@) =~= track_views(before).push(rec@));
        pos = next;
        i = i + 1;
    }
    Some((out, pos))
}

// Track sources: name as UTF-8, checkpoints, track records.
pub open spec fn enc_track_entry(e: (Seq<char>, TrackEntryView)) -> Seq<u8> {
    enc_bytes(encode_utf8(e.0)) + enc_list(e.1.gzi, checkpoint_enc()) + enc_list(
        e.1.track,
        track_enc(),
    )
}

pub open spec fn dec_track_entry(b: Seq<u8>, p: int) -> Option<((Seq<char>, TrackEntryView), int)> {
    match dec_bytes(b, p) {
        None => None,
        Some((kb, pos1)) => if !valid_utf8(kb) {
            None
        } else {
            match dec_list(b, pos1, checkpoint_dec()) {
                None => None,
                Some((g, pos2)) => if !ascending(g) {
                    None
                } else {
                    match dec_list(b, pos2, track_dec()) {
                        None => None,
                        Some((t, pos3)) => Some(
                            ((decode_utf8(kb), TrackEntryView { gzi: g, track: t }), pos3),
                        ),
                    }
                },
            }
        },
    }
}

pub open spec fn track_entry_enc() -> spec_fn((Seq<char>, TrackEntryView)) -> Seq<u8> {
    |e: (Seq<char>, TrackEntryView)| enc_track_entry(e)
}

pub open spec fn track_entry_dec() -> spec_fn(Seq<u8>, int) -> Option<
    ((Seq<char>, TrackEntryView), int),
> {
    |b: Seq<u8>, p: int| dec_track_entry(b, p)
}

pub open spec fn track_entry_ok() -> spec_fn((Seq<char>, TrackEntryView)) -> bool {
    |e: (Seq<char>, TrackEntryView)|
        encode_utf8(e.0).len() <= u64::MAX && e.1.gzi.len() <= u64::MAX && ascending(e.1.gzi)
            && e.1.track.len() <= u64::MAX && forall|i: int|
            0 <= i < e.1.track.len() ==> track_ok()(#[trigger] e.1.track[i])
}

pub open spec fn track_map_ok(s: Seq<(Seq<char>, TrackEntryView)>) -> bool {
    s.len() <= u64::MAX && crate::name_map::strictly_sorted(s) && forall|i: int|
        0 <= i < s.len() ==> track_entry_ok()(#[trigger] s[i])
}

/// The payload of a track map: its tag, then its entries as a list.
pub open spec fn enc_track_map(s: Seq<(Seq<char>, TrackEntryView)>) -> Seq<u8> {
    le64(TRACK_PAYLOAD_TAG) + enc_list(s, track_entry_enc())
}

/// The track map a payload holds: its tag, then a list of entries in
/// strictly increasing name order that ends exactly at
/// the end of the payload.
pub open spec fn dec_track_map(b: Seq<u8>) -> Option<Seq<(Seq<char>, TrackEntryView)>> {
    match dec_u64(b, 0) {
        None => None,
        Some((tag, q)) => if tag != TRACK_PAYLOAD_TAG {
            None
        } else {
            match dec_list(b, q, track_entry_dec()) {
                None => None,
                Some((s, end)) => if end == b.len() && crate::name_map::strictly_sorted(s) {
                    Some(s)
                } else {
                    None
                },
            }
        },
    }
}

proof fn lemma_track_entry_reads_back()
    ensures
        reads_back(track_entry_enc(), track_entry_dec(), track_entry_ok()),
{
    lemma_checkpoint_reads_back();
    lemma_track_reads_back();
    assert forall|b: Seq<u8>, q: int, x: (Seq<char>, TrackEntryView)|
        track_entry_ok()(x) && #[trigger] at(b, q, track_entry_enc()(x)) implies track_entry_dec()(
        b,
        q,
    ) == Some((x, q + track_entry_enc()(x).len())) by {
        let kb = encode_utf8(x.0);
        let a = enc_bytes(kb);
        let g = enc_list(x.1.gzi, checkpoint_enc());
        let t = enc_list(x.1.track, track_enc());
        lemma_at_split(b, q, a + g, t);
        lemma_at_split(b, q, a, g);
        lemma_dec_bytes(b, q, kb);
        let pos1 = q + a.len();
        lemma_dec_list(b, pos1, x.1.gzi, checkpoint_enc(), checkpoint_dec(), any_checkpoint());
        let pos2 = pos1 + g.len();
        lemma_dec_list(b, pos2, x.1.track, track_enc(), track_dec(), track_ok());
    }
}

/// Decoding the payload written for a track map gives back that map.
pub proof fn lemma_track_payload_round_trip(s: Seq<(Seq<char>, TrackEntryView)>)
    requires
        track_map_ok(s),
    ensures
        dec_track_map(enc_track_map(s)) == Some(s),
{
    let b = enc_track_map(s);
    assert(b.subrange(0, b.len() as int) =~= b);
    lemma_at_split(b, 0, le64(TRACK_PAYLOAD_TAG), enc_list(s, track_entry_enc()));
    lemma_dec_u64(b, 0, TRACK_PAYLOAD_TAG);
    lemma_track_entry_reads_back();
    lemma_dec_list(b, 8, s, track_entry_enc(), track_entry_dec(), track_entry_ok());
}

/// Writes the payload of a track map.
pub fn encode_track_map(m: &TrackMap) -> (r: Vec<u8>)
    ensures
        r@ == enc_track_map(m@),
        track_map_ok(m@),
{
    let ghost s = m@;
    let mut out: Vec<u8> = Vec::new();
    let n = m.len();
    write_u64(&mut out, TRACK_PAYLOAD_TAG);
    write_u64(&mut out, n as u64);
    let ghost mid = out@;
    let mut i: usize = 0;
    while i < n
        invariant
            n == s.len(),
            s == m@,
            i <= n,
            mid == le64(TRACK_PAYLOAD_TAG) + le64(n as u64),
            out@ == mid + concat(s.subrange(0, i as int), track_entry_enc()),
            forall|j: int| 0 <= j < i ==> track_entry_ok()(#[trigger] s[j]),
        decreases n - i,
    {
        let (k, e) = m.entry_at(i);
        let kb = k.as_str().as_bytes();
        write_bytes(&mut out, kb);
        write_checkpoints(&mut out, e.gzi.entries());
        write_track_records(&mut out, e.track_index.records());
        // Asking for the lengths shows that they fit a `usize`, hence a `u64`.
        let _ = kb.len();
        let _ = e.gzi.entries().len();
        let _ = e.track_index.records().len();
        assert(s.subrange(0, i + 1).drop_last() =~= s.subrange(0, i as int));
        assert(track_entry_ok()(s[i as int]));
        i = i + 1;
        assert(out@ =~= mid + concat(s.subrange(0, i as int), track_entry_enc()));
    }
    assert(s.subrange(0, n as int) =~= s);
    assert(out@ =~= enc_track_map(s));
    out
}

fn read_track_entry(b: &[u8], p: usize) -> (r: Option<((String, ArchivedTrackEntry), usize)>)
    ensures
        (match r {
            None => dec_track_entry(b@, p as int) is None,
            Some((e, q)) => dec_track_entry(b@, p as int) == Some(((e.0@, e.1@), q as int)),
        }),
{
    let (kb, pos1) = read_bytes(b, p)?;
    let key = utf8_string(kb.as_slice())?;
    let (gzi, pos2) = read_checkpoints(b, pos1)?;
    if !is_ascending(&gzi) {
        return None;
    }
    let gzi = ArchivedBgzfIndex::from_checked(gzi);
    let (track, pos3) = read_track_records(b, pos2)?;
    let track_index = ArchivedTrackIndex::from_records(track);
    Some(((key, ArchivedTrackEntry { gzi, track_index }), pos3))
}

pub open spec fn archived_track_pairs(v: Seq<(String, ArchivedTrackEntry)>) -> Seq<
    (Seq<char>, TrackEntryView),
> {
    v.map_values(|p: (String, ArchivedTrackEntry)| (p.0@, p.1@))
}

/// Reads the payload of a track map.
pub fn decode_track_map(b: &[u8]) -> (r: Option<ArchivedTrackMap>)
    ensures
        (match dec_track_map(b@) {
            None => r is None,
            Some(s) => r matches Some(m) && m@ == s,
        }),
{
    let (tag, q0) = match read_u64(b, 0) {
        None => return None,
        Some(x) => x,
    };
    if tag != TRACK_PAYLOAD_TAG {
        return None;
    }
    let (n, q) = match read_u64(b, q0) {
        None => return None,
        Some(x) => x,
    };
    let mut out: Vec<(String, ArchivedTrackEntry)> = Vec::new();
    let mut pos = q;
    let mut i: u64 = 0;
    while i < n
        invariant
            i <= n,
            dec_u64(b@, 0) == Some((tag, q0 as int)),
            tag == TRACK_PAYLOAD_TAG,
            dec_u64(b@, q0 as int) == Some((n, q as int)),
            dec_items(b@, q as int, i as nat, track_entry_dec()) == Some(
                (archived_track_pairs(out@), pos as int),
            ),
        decreases n - i,
    {
        let (entry, next) = match read_track_entry(b, pos) {
            None => {
                proof {
                    lemma_items_none(b@, q as int, (i + 1) as nat, n as nat, track_entry_dec());
                }
                return None;
            },
            Some(x) => x,
        };
        let ghost before = out@;
        let ghost ev = (entry.0@, entry.1@);
        out.push(entry);
        assert(archived_track_pairs(out@) =~= archived_track_pairs(before).push(ev));
        pos = next;
        i = i + 1;
    }
    if pos != b.len() {
        return None;
    }
    proof {
        crate::name_map::lemma_sorted_same_keys(
            crate::name_map::pair_views(out@),
            archived_track_pairs(out@),
        );
    }
    if !crate::name_map::is_strictly_sorted(&out) {
        return None;
    }
    let m = ArchivedTrackMap::from_entries(out);
    assert(m@ =~= archived_track_pairs(out@));
    Some(m)
}

} // verus!

verus! {

/// A track payload never reads as a FASTA map, nor a FASTA payload as a
/// track map: their tags differ.
pub proof fn lemma_payload_kinds_differ(
    f: Seq<(Seq<char>, FastaEntryView)>,
    t: Seq<(Seq<char>, TrackEntryView)>,
)
    ensures
        dec_fasta_map(enc_track_map(t)) is None,
        dec_track_map(enc_fasta_map(f)) is None,
{
    let b = enc_track_map(t);
    assert(b.subrange(0, b.len() as int) =~= b);
    lemma_at_split(b, 0, le64(TRACK_PAYLOAD_TAG), enc_list(t, track_entry_enc()));
    lemma_dec_u64(b, 0, TRACK_PAYLOAD_TAG);
    let c = enc_fasta_map(f);
    assert(c.subrange(0, c.len() as int) =~= c);
    lemma_at_split(c, 0, le64(FASTA_PAYLOAD_TAG), enc_list(f, fasta_entry_enc()));
    lemma_dec_u64(c, 0, FASTA_PAYLOAD_TAG);
}

} // verus!
