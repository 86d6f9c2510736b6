use vstd::prelude::*;

use crate::archive::{archive_check, archive_image, materialize, payload, payload_of, verify};
use crate::bgzf_index::{locate, ArchivedBgzfIndex, BgzfIndex, Checkpoint, VirtualPosition};
use crate::error::FastarError;
use crate::name_map::{assemble, first_key, has_key, BuildFailure, NameMap};
use crate::payload::{decode_track_map, dec_track_map, enc_track_map, encode_track_map, track_map_ok};
use crate::track_index::{track_position, ArchivedTrackIndex, TrackIndex, TrackRecordView};

verus! {

/// The indices of one track source: its checkpoints and its offset table.
#[derive(Debug)]
pub struct TrackEntry {
    pub gzi: BgzfIndex,
    pub track_index: TrackIndex,
}

/// The mathematical value of a track source's indices.
pub struct TrackEntryView {
    pub gzi: Seq<Checkpoint>,
    pub track: Seq<TrackRecordView>,
}

impl View for TrackEntry {
    type V = TrackEntryView;

    open spec fn view(&self) -> TrackEntryView {
        TrackEntryView { gzi: self.gzi@, track: self.track_index@ }
    }
}

pub open spec fn track_entry_views(s: Seq<(Seq<char>, TrackEntry)>) -> Seq<(Seq<char>, TrackEntryView)> {
    s.map_values(|p: (Seq<char>, TrackEntry)| (p.0, p.1@))
}

/// The ordered map from track source names to their indices.
#[derive(Debug)]
pub struct TrackMap {
    map: NameMap<TrackEntry>,
}

impl View for TrackMap {
    type V = Seq<(Seq<char>, TrackEntryView)>;

    closed spec fn view(&self) -> Seq<(Seq<char>, TrackEntryView)> {
        track_entry_views(self.map@)
    }
}

impl TrackMap {
    #[verifier::type_invariant]
    spec fn sorted(&self) -> bool {
        self.map.wf()
    }

    pub closed spec fn entries(&self) -> Seq<(Seq<char>, TrackEntry)> {
        self.map@
    }

    /// Names in strictly increasing order.
    pub open spec fn wf(&self) -> bool {
        crate::name_map::strictly_sorted(self@)
    }

    /// Builds the indices of one source from the bytes of its GZI sidecar
    /// and its offset table, keeping records at least `min_length` long.
    pub fn index_name(gzi_bytes: &[u8], idx_bytes: &[u8], min_length: u64) -> (r: Result<
        TrackEntry,
        FastarError,
    >)
        ensures
            !BgzfIndex::gzi_bytes_ok(gzi_bytes@) ==> r == Err::<TrackEntry, FastarError>(
                FastarError::MalformedSidecar,
            ),
            BgzfIndex::gzi_bytes_ok(gzi_bytes@) ==> (match crate::track_index::track_records(
                crate::track_index::track_lines(idx_bytes@),
                min_length,
            ) {
                Ok(recs) => r matches Ok(e) && e.gzi@ == crate::bgzf_index::gzi_table(
                    gzi_bytes@,
                ).unwrap() && e.track_index@ == recs,
                Err(err) => r matches Err(x) && x == err,
            }),
    {
        let gzi = BgzfIndex::read(gzi_bytes)?;
        let track_index = TrackIndex::read(idx_bytes, min_length)?;
        Ok(TrackEntry { gzi, track_index })
    }

    /// The name at position `i` and its entry.
    pub fn entry_at(&self, i: usize) -> (r: (&String, &TrackEntry))
        requires
            i < self@.len(),
        ensures
            r.0@ == self@[i as int].0,
            r.1@ == self@[i as int].1,
    {
        (self.map.key_at(i), self.map.value_at(i))
    }

    /// Gathers per-source results into the map (see [`assemble`]).
    pub fn build(names: &Vec<String>, results: Vec<Result<TrackEntry, FastarError>>, strict: bool) -> (r:
        Result<TrackMap, BuildFailure>)
        requires
            names@.len() == results@.len(),
        ensures
            strict && crate::name_map::first_failure(results@) >= 0 ==> (r matches Err(f)
                && f.name@ == names@[crate::name_map::first_failure(results@)]@
                && results@[crate::name_map::first_failure(results@)] == Err::<
                TrackEntry,
                FastarError,
            >(f.error)),
            !(strict && crate::name_map::first_failure(results@) >= 0) ==> (r matches Ok(m)
                && m.wf() && m@ == track_entry_views(m.entries()) && crate::name_map::as_map(m.entries()) == crate::name_map::collected(
                crate::name_map::name_views(names@),
                results@,
            )),
    {
        match assemble(names, results, strict) {
            Ok(map) => {
                let m = TrackMap { map };
                proof {
                    crate::name_map::lemma_sorted_same_keys(m.map@, m@);
                }
                Ok(m)
            },
            Err(f) => Err(f),
        }
    }

    pub fn names(&self) -> (r: Vec<String>)
        ensures
            r@.len() == self@.len(),
            forall|i: int| 0 <= i < r@.len() ==> r@[i]@ == self@[i].0,
    {
        self.map.names()
    }

    /// The archive bytes of this map: header with `magic` and the payload's
    /// checksum, padding to `page`, then the payload.
    pub fn materialize(&self, magic: u64, page: usize) -> (r: Result<Vec<u8>, FastarError>)
        ensures
            track_map_ok(self@),
            r matches Ok(v) ==> v@ == archive_image(enc_track_map(self@), magic, page as nat),
            page < crate::archive::HEADER_LEN ==> r == Err::<Vec<u8>, FastarError>(
                FastarError::InvalidConfiguration,
            ),
            page >= crate::archive::HEADER_LEN && page + enc_track_map(self@).len() <= usize::MAX
                ==> r is Ok,
    {
        let body = encode_track_map(self);
        materialize(body.as_slice(), magic, page)
    }

    /// The records (name and length) of source `name`.
    pub fn contigs(&self, name: &str) -> (r: Result<Vec<(Vec<u8>, u64)>, FastarError>)
        ensures
            !has_key(self@, name@) ==> r == Err::<Vec<(Vec<u8>, u64)>, FastarError>(
                FastarError::NotFound,
            ),
            has_key(self@, name@) ==> (r matches Ok(v) && v@.len() == self@[first_key(
                self@,
                name@,
            )].1.track.len() && forall|i: int|
                0 <= i < v@.len() ==> v@[i].0@ == self@[first_key(self@, name@)].1.track[i].name
                    && v@[i].1 == self@[first_key(self@, name@)].1.track[i].length),
    {
        proof {
            crate::name_map::lemma_same_keys(self.map@, self@, name@);
        }
        match self.map.get(name) {
            None => Err(FastarError::NotFound),
            Some(e) => Ok(e.track_index.contigs()),
        }
    }

    /// The virtual position of position `start` of record `contig` in source
    /// `name`.
    pub fn query(&self, name: &str, contig: &[u8], start: u64) -> (r: Result<
        VirtualPosition,
        FastarError,
    >)
        ensures
            r == track_map_position(self@, name@, contig@, start),
    {
        proof {
            crate::name_map::lemma_same_keys(self.map@, self@, name@);
        }
        match self.map.get(name) {
            None => Err(FastarError::NotFound),
            Some(e) => match e.track_index.query(contig, start) {
                Err(err) => Err(err),
                Ok(pos) => e.gzi.query(pos),
            },
        }
    }

    pub fn len(&self) -> (r: usize)
        ensures
            r == self@.len(),
            self.wf(),
    {
        proof {
            use_type_invariant(self);
            crate::name_map::lemma_sorted_same_keys(self.map@, self@);
        }
        self.map.len()
    }
}

/// The indices of one track source, as an opened archive holds them.
#[derive(Debug)]
pub struct ArchivedTrackEntry {
    pub gzi: ArchivedBgzfIndex,
    pub track_index: ArchivedTrackIndex,
}

impl View for ArchivedTrackEntry {
    type V = TrackEntryView;

    open spec fn view(&self) -> TrackEntryView {
        TrackEntryView { gzi: self.gzi@, track: self.track_index@ }
    }
}

pub open spec fn archived_track_entry_views(s: Seq<(Seq<char>, ArchivedTrackEntry)>) -> Seq<
    (Seq<char>, TrackEntryView),
> {
    s.map_values(|p: (Seq<char>, ArchivedTrackEntry)| (p.0, p.1@))
}

/// The read-only track map of an opened archive.
#[derive(Debug)]
pub struct ArchivedTrackMap {
    map: NameMap<ArchivedTrackEntry>,
}

impl View for ArchivedTrackMap {
    type V = Seq<(Seq<char>, TrackEntryView)>;

    closed spec fn view(&self) -> Seq<(Seq<char>, TrackEntryView)> {
        archived_track_entry_views(self.map@)
    }
}

/// What a query for position `start` of record `contig` in source `name`
/// yields.
pub open spec fn track_map_position(
    s: Seq<(Seq<char>, TrackEntryView)>,
    name: Seq<char>,
    contig: Seq<u8>,
    start: u64,
) -> Result<VirtualPosition, FastarError> {
    if !has_key(s, name) {
        Err(FastarError::NotFound)
    } else {
        let e = s[first_key(s, name)].1;
        match track_position(e.track, contig, start) {
            Err(err) => Err(err),
            Ok(pos) => locate(e.gzi, pos),
        }
    }
}

/// What opening archive bytes as a track map yields: the header check, then
/// the payload read as a map.
pub open spec fn open_track(b: Seq<u8>, magic: u64, page: nat) -> Result<
    Seq<(Seq<char>, TrackEntryView)>,
    FastarError,
> {
    match archive_check(b, magic, page) {
        Err(e) => Err(e),
        Ok(_) => match dec_track_map(payload_of(b, page)) {
            None => Err(FastarError::Corrupted),
            Some(s) => Ok(s),
        },
    }
}

/// A track map written to archive bytes opens as the same map, so that its
/// names and the answers to every query are those of the map written.
pub proof fn lemma_track_archive_round_trip(
    s: Seq<(Seq<char>, TrackEntryView)>,
    magic: u64,
    page: nat,
)
    requires
        track_map_ok(s),
        page >= crate::archive::HEADER_LEN,
    ensures
        open_track(archive_image(enc_track_map(s), magic, page), magic, page) == Ok::<
            Seq<(Seq<char>, TrackEntryView)>,
            FastarError,
        >(s),
{
    crate::archive::lemma_image_checks(enc_track_map(s), magic, page);
    crate::archive::lemma_image_fields(enc_track_map(s), magic, page);
    crate::payload::lemma_track_payload_round_trip(s);
}

/// A FASTA archive is refused by the track loader, whatever magic values
/// the two carry.
pub proof fn lemma_fasta_archive_refused_as_track(
    f: Seq<(Seq<char>, crate::fasta_map::FastaEntryView)>,
    written: u64,
    expected: u64,
    page: nat,
)
    requires
        page >= crate::archive::HEADER_LEN,
    ensures
        open_track(archive_image(crate::payload::enc_fasta_map(f), written, page), expected, page)
            == Err::<Seq<(Seq<char>, TrackEntryView)>, FastarError>(FastarError::Corrupted),
{
    let b = crate::payload::enc_fasta_map(f);
    if written != expected {
        crate::archive::lemma_magic_isolation(b, written, expected, page);
    } else {
        crate::archive::lemma_image_checks(b, written, page);
        crate::archive::lemma_image_fields(b, written, page);
        crate::payload::lemma_payload_kinds_differ(f, Seq::empty());
    }
}

/// Reloading a written map gives the same names, in the same order, and the
/// same answer to every query.
pub proof fn lemma_track_reload_answers_alike(
    s: Seq<(Seq<char>, TrackEntryView)>,
    magic: u64,
    page: nat,
    name: Seq<char>,
    contig: Seq<u8>,
    start: u64,
)
    requires
        track_map_ok(s),
        page >= crate::archive::HEADER_LEN,
    ensures
        open_track(archive_image(enc_track_map(s), magic, page), magic, page) matches Ok(t) && t.len()
            == s.len() && (forall|i: int| 0 <= i < t.len() ==> t[i].0 == s[i].0) && track_map_position(
            t,
            name,
            contig,
            start,
        ) == track_map_position(s, name, contig, start),
{
    lemma_track_archive_round_trip(s, magic, page);
}

impl ArchivedTrackMap {
    #[verifier::type_invariant]
    spec fn sorted(&self) -> bool {
        self.map.wf()
    }

    /// Names in strictly increasing order.
    pub open spec fn wf(&self) -> bool {
        crate::name_map::strictly_sorted(self@)
    }

    /// Opens archive bytes as a track map, after checking the magic value
    /// and the checksum.
    pub fn open(bytes: &[u8], magic: u64, page: usize) -> (r: Result<ArchivedTrackMap, FastarError>)
        ensures
            (match open_track(bytes@, magic, page as nat) {
                Ok(s) => r matches Ok(m) && m@ == s && m.wf(),
                Err(e) => r matches Err(x) && x == e,
            }),
    {
        verify(bytes, magic, page)?;
        match decode_track_map(payload(bytes, page)) {
            None => Err(FastarError::Corrupted),
            Some(m) => Ok(m),
        }
    }

    /// A map of entries whose names strictly increase.
    pub fn from_entries(entries: Vec<(String, ArchivedTrackEntry)>) -> (r: ArchivedTrackMap)
        requires
            crate::name_map::strictly_sorted(crate::name_map::pair_views(entries@)),
        ensures
            r@ == archived_track_entry_views(crate::name_map::pair_views(entries@)),
            r.wf(),
    {
        let map = NameMap::from_entries(entries);
        proof {
            crate::name_map::lemma_sorted_same_keys(map@, archived_track_entry_views(map@));
        }
        ArchivedTrackMap { map }
    }

    /// The source names, in strictly increasing order.
    pub fn names(&self) -> (r: Vec<String>)
        ensures
            r@.len() == self@.len(),
            forall|i: int| 0 <= i < r@.len() ==> r@[i]@ == self@[i].0,
            forall|i: int, j: int|
                0 <= i < j < r@.len() ==> crate::name_map::name_lt(r@[i]@, r@[j]@),
    {
        proof {
            use_type_invariant(self);
            crate::name_map::lemma_sorted_same_keys(self.map@, self@);
        }
        self.map.names()
    }

    /// The records (name and length) of source `name`.
    pub fn contigs(&self, name: &str) -> (r: Result<Vec<(Vec<u8>, u64)>, FastarError>)
        ensures
            !has_key(self@, name@) ==> r == Err::<Vec<(Vec<u8>, u64)>, FastarError>(
                FastarError::NotFound,
            ),
            has_key(self@, name@) ==> (r matches Ok(v) && v@.len() == self@[first_key(
                self@,
                name@,
            )].1.track.len() && forall|i: int|
                0 <= i < v@.len() ==> v@[i].0@ == self@[first_key(self@, name@)].1.track[i].name
                    && v@[i].1 == self@[first_key(self@, name@)].1.track[i].length),
    {
        proof {
            crate::name_map::lemma_same_keys(self.map@, self@, name@);
        }
        match self.map.get(name) {
            None => Err(FastarError::NotFound),
            Some(e) => Ok(e.track_index.contigs()),
        }
    }

    /// The virtual position of position `start` of record `contig` in source
    /// `name`.
    pub fn query(&self, name: &str, contig: &[u8], start: u64) -> (r: Result<
        VirtualPosition,
        FastarError,
    >)
        ensures
            r == track_map_position(self@, name@, contig@, start),
    {
        proof {
            crate::name_map::lemma_same_keys(self.map@, self@, name@);
        }
        match self.map.get(name) {
            None => Err(FastarError::NotFound),
            Some(e) => match e.track_index.query(contig, start) {
                Err(err) => Err(err),
                Ok(pos) => e.gzi.query(pos),
            },
        }
    }
}

} // verus!
