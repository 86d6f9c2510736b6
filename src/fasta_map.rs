use vstd::prelude::*;

use crate::archive::{archive_check, archive_image, materialize, payload, payload_of, verify};
use crate::bgzf_index::{locate, ArchivedBgzfIndex, BgzfIndex, Checkpoint, VirtualPosition};
use crate::error::FastarError;
use crate::fasta_index::{fasta_position, ArchivedFastaIndex, FaiRecordView, FastaIndex};
use crate::name_map::{assemble, first_key, has_key, BuildFailure, NameMap};
use crate::payload::{decode_fasta_map, dec_fasta_map, enc_fasta_map, encode_fasta_map, fasta_map_ok};

verus! {

/// The indices of one FASTA source: its checkpoints and its contig table.
#[derive(Debug)]
pub struct FastaEntry {
    pub gzi: BgzfIndex,
    pub fai: FastaIndex,
}

/// The mathematical value of a FASTA source's indices.
pub struct FastaEntryView {
    pub gzi: Seq<Checkpoint>,
    pub fai: Seq<FaiRecordView>,
}

impl View for FastaEntry {
    type V = FastaEntryView;

    open spec fn view(&self) -> FastaEntryView {
        FastaEntryView { gzi: self.gzi@, fai: self.fai@ }
    }
}

pub open spec fn fasta_views(s: Seq<(Seq<char>, FastaEntry)>) -> Seq<(Seq<char>, FastaEntryView)> {
    s.map_values(|p: (Seq<char>, FastaEntry)| (p.0, p.1@))
}

/// The ordered map from FASTA source names to their indices.
#[derive(Debug)]
pub struct FastaMap {
    map: NameMap<FastaEntry>,
}

impl View for FastaMap {
    type V = Seq<(Seq<char>, FastaEntryView)>;

    closed spec fn view(&self) -> Seq<(Seq<char>, FastaEntryView)> {
        fasta_views(self.map@)
    }
}

impl FastaMap {
    #[verifier::type_invariant]
    spec fn sorted(&self) -> bool {
        self.map.wf()
    }

    pub closed spec fn entries(&self) -> Seq<(Seq<char>, FastaEntry)> {
        self.map@
    }

    /// Names in strictly increasing order.
    pub open spec fn wf(&self) -> bool {
        crate::name_map::strictly_sorted(self@)
    }

    /// Builds the indices of one source from the bytes of its GZI and FAI
    /// sidecars, keeping contigs at least `min_contig_length` long.
    pub fn index_name(gzi_bytes: &[u8], fai_bytes: &[u8], min_contig_length: u64) -> (r: Result<
        FastaEntry,
        FastarError,
    >)
        ensures
            r is Ok <==> (BgzfIndex::gzi_bytes_ok(gzi_bytes@) && FastaIndex::fai_bytes_ok(
                fai_bytes@,
            )),
            r is Err ==> r == Err::<FastaEntry, FastarError>(FastarError::MalformedSidecar),
            r matches Ok(e) ==> e.gzi@ == crate::bgzf_index::gzi_table(gzi_bytes@).unwrap()
                && e.fai@ == crate::fasta_index::fai_table(fai_bytes@).unwrap().filter(
                crate::fasta_index::long_enough(min_contig_length),
            ),
    {
        let gzi = BgzfIndex::read(gzi_bytes)?;
        let fai = FastaIndex::read(fai_bytes, min_contig_length)?;
        Ok(FastaEntry { gzi, fai })
    }

    /// The name at position `i` and its entry.
    pub fn entry_at(&self, i: usize) -> (r: (&String, &FastaEntry))
        requires
            i < self@.len(),
        ensures
            r.0@ == self@[i as int].0,
            r.1@ == self@[i as int].1,
    {
        (self.map.key_at(i), self.map.value_at(i))
    }

    /// Gathers per-source results into the map (see [`assemble`]).
    pub fn build(names: &Vec<String>, results: Vec<Result<FastaEntry, FastarError>>, strict: bool) -> (r:
        Result<FastaMap, BuildFailure>)
        requires
            names@.len() == results@.len(),
        ensures
            strict && crate::name_map::first_failure(results@) >= 0 ==> (r matches Err(f)
                && f.name@ == names@[crate::name_map::first_failure(results@)]@
                && results@[crate::name_map::first_failure(results@)] == Err::<
                FastaEntry,
                FastarError,
            >(f.error)),
            !(strict && crate::name_map::first_failure(results@) >= 0) ==> (r matches Ok(m)
                && m.wf() && m@ == fasta_views(m.entries()) && crate::name_map::as_map(m.entries()) == crate::name_map::collected(
                crate::name_map::name_views(names@),
                results@,
            )),
    {
        match assemble(names, results, strict) {
            Ok(map) => {
                let m = FastaMap { map };
                proof {
                    crate::name_map::lemma_sorted_same_keys(m.map@, m@);
                }
                Ok(m)
            },
            Err(f) => Err(f),
        }
    }

    pub fn names(&self) -> (r: Vec<String>)
        ensures
            r@.len() == self@.len(),
            forall|i: int| 0 <= i < r@.len() ==> r@[i]@ == self@[i].0,
    {
        self.map.names()
    }

    /// The archive bytes of this map: header with `magic` and the payload's
    /// checksum, padding to `page`, then the payload.
    pub fn materialize(&self, magic: u64, page: usize) -> (r: Result<Vec<u8>, FastarError>)
        ensures
            fasta_map_ok(self@),
            r matches Ok(v) ==> v@ == archive_image(enc_fasta_map(self@), magic, page as nat),
            page < crate::archive::HEADER_LEN ==> r == Err::<Vec<u8>, FastarError>(
                FastarError::InvalidConfiguration,
            ),
            page >= crate::archive::HEADER_LEN && page + enc_fasta_map(self@).len() <= usize::MAX
                ==> r is Ok,
    {
        let body = encode_fasta_map(self);
        materialize(body.as_slice(), magic, page)
    }

    /// The contigs (name and length) of source `name`.
    pub fn contigs(&self, name: &str) -> (r: Result<Vec<(Vec<u8>, u64)>, FastarError>)
        ensures
            !has_key(self@, name@) ==> r == Err::<Vec<(Vec<u8>, u64)>, FastarError>(
                FastarError::NotFound,
            ),
            has_key(self@, name@) ==> (r matches Ok(v) && v@.len() == self@[first_key(
                self@,
                name@,
            )].1.fai.len() && forall|i: int|
                0 <= i < v@.len() ==> v@[i].0@ == self@[first_key(self@, name@)].1.fai[i].contig
                    && v@[i].1 == self@[first_key(self@, name@)].1.fai[i].length),
    {
        proof {
            crate::name_map::lemma_same_keys(self.map@, self@, name@);
        }
        match self.map.get(name) {
            None => Err(FastarError::NotFound),
            Some(e) => Ok(e.fai.contigs()),
        }
    }

    /// The virtual position of base `start` of `contig` in source `name`.
    pub fn query(&self, name: &str, contig: &[u8], start: u64) -> (r: Result<
        VirtualPosition,
        FastarError,
    >)
        ensures
            r == fasta_map_position(self@, name@, contig@, start),
    {
        proof {
            crate::name_map::lemma_same_keys(self.map@, self@, name@);
        }
        match self.map.get(name) {
            None => Err(FastarError::NotFound),
            Some(e) => match e.fai.query(contig, start) {
                Err(err) => Err(err),
                Ok(pos) => e.gzi.query(pos),
            },
        }
    }

    pub fn len(&self) -> (r: usize)
        ensures
            r == self@.len(),
            self.wf(),
    {
        proof {
            use_type_invariant(self);
            crate::name_map::lemma_sorted_same_keys(self.map@, self@);
        }
        self.map.len()
    }
}

/// The indices of one FASTA source, as an opened archive holds them.
#[derive(Debug)]
pub struct ArchivedFastaEntry {
    pub gzi: ArchivedBgzfIndex,
    pub fai: ArchivedFastaIndex,
}

impl View for ArchivedFastaEntry {
    type V = FastaEntryView;

    open spec fn view(&self) -> FastaEntryView {
        FastaEntryView { gzi: self.gzi@, fai: self.fai@ }
    }
}

pub open spec fn archived_fasta_views(s: Seq<(Seq<char>, ArchivedFastaEntry)>) -> Seq<
    (Seq<char>, FastaEntryView),
> {
    s.map_values(|p: (Seq<char>, ArchivedFastaEntry)| (p.0, p.1@))
}

/// The read-only FASTA map of an opened archive.
#[derive(Debug)]
pub struct ArchivedFastaMap {
    map: NameMap<ArchivedFastaEntry>,
}

impl View for ArchivedFastaMap {
    type V = Seq<(Seq<char>, FastaEntryView)>;

    closed spec fn view(&self) -> Seq<(Seq<char>, FastaEntryView)> {
        archived_fasta_views(self.map@)
    }
}

/// What a query for base `start` of `contig` in source `name` yields.
pub open spec fn fasta_map_position(
    s: Seq<(Seq<char>, FastaEntryView)>,
    name: Seq<char>,
    contig: Seq<u8>,
    start: u64,
) -> Result<VirtualPosition, FastarError> {
    if !has_key(s, name) {
        Err(FastarError::NotFound)
    } else {
        let e = s[first_key(s, name)].1;
        match fasta_position(e.fai, contig, start) {
            Err(err) => Err(err),
            Ok(pos) => locate(e.gzi, pos),
        }
    }
}

/// What opening archive bytes as a FASTA map yields: the header check, then
/// the payload read as a map.
pub open spec fn open_fasta(b: Seq<u8>, magic: u64, page: nat) -> Result<
    Seq<(Seq<char>, FastaEntryView)>,
    FastarError,
> {
    match archive_check(b, magic, page) {
        Err(e) => Err(e),
        Ok(_) => match dec_fasta_map(payload_of(b, page)) {
            None => Err(FastarError::Corrupted),
            Some(s) => Ok(s),
        },
    }
}

/// A FASTA map written to archive bytes opens as the same map, so that its
/// names and the answers to every query are those of the map written.
pub proof fn lemma_fasta_archive_round_trip(
    s: Seq<(Seq<char>, FastaEntryView)>,
    magic: u64,
    page: nat,
)
    requires
        fasta_map_ok(s),
        page >= crate::archive::HEADER_LEN,
    ensures
        open_fasta(archive_image(enc_fasta_map(s), magic, page), magic, page) == Ok::<
            Seq<(Seq<char>, FastaEntryView)>,
            FastarError,
        >(s),
{
    crate::archive::lemma_image_checks(enc_fasta_map(s), magic, page);
    crate::archive::lemma_image_fields(enc_fasta_map(s), magic, page);
    crate::payload::lemma_fasta_payload_round_trip(s);
}

/// A track archive is refused by the FASTA loader, whatever magic values
/// the two carry.
pub proof fn lemma_track_archive_refused_as_fasta(
    t: Seq<(Seq<char>, crate::track_map::TrackEntryView)>,
    written: u64,
    expected: u64,
    page: nat,
)
    requires
        page >= crate::archive::HEADER_LEN,
    ensures
        open_fasta(archive_image(crate::payload::enc_track_map(t), written, page), expected, page)
            == Err::<Seq<(Seq<char>, FastaEntryView)>, FastarError>(FastarError::Corrupted),
{
    let b = crate::payload::enc_track_map(t);
    if written != expected {
        crate::archive::lemma_magic_isolation(b, written, expected, page);
    } else {
        crate::archive::lemma_image_checks(b, written, page);
        crate::archive::lemma_image_fields(b, written, page);
        crate::payload::lemma_payload_kinds_differ(Seq::empty(), t);
    }
}

/// Reloading a written map gives the same names, in the same order, and the
/// same answer to every query.
pub proof fn lemma_fasta_reload_answers_alike(
    s: Seq<(Seq<char>, FastaEntryView)>,
    magic: u64,
    page: nat,
    name: Seq<char>,
    contig: Seq<u8>,
    start: u64,
)
    requires
        fasta_map_ok(s),
        page >= crate::archive::HEADER_LEN,
    ensures
        open_fasta(archive_image(enc_fasta_map(s), magic, page), magic, page) matches Ok(t) && t.len()
            == s.len() && (forall|i: int| 0 <= i < t.len() ==> t[i].0 == s[i].0) && fasta_map_position(
            t,
            name,
            contig,
            start,
        ) == fasta_map_position(s, name, contig, start),
{
    lemma_fasta_archive_round_trip(s, magic, page);
}

impl ArchivedFastaMap {
    #[verifier::type_invariant]
    spec fn sorted(&self) -> bool {
        self.map.wf()
    }

    /// Names in strictly increasing order.
    pub open spec fn wf(&self) -> bool {
        crate::name_map::strictly_sorted(self@)
    }

    /// Opens archive bytes as a FASTA map, after checking the magic value
    /// and the checksum.
    pub fn open(bytes: &[u8], magic: u64, page: usize) -> (r: Result<ArchivedFastaMap, FastarError>)
        ensures
            (match open_fasta(bytes@, magic, page as nat) {
                Ok(s) => r matches Ok(m) && m@ == s && m.wf(),
                Err(e) => r matches Err(x) && x == e,
            }),
    {
        verify(bytes, magic, page)?;
        match decode_fasta_map(payload(bytes, page)) {
            None => Err(FastarError::Corrupted),
            Some(m) => Ok(m),
        }
    }

    /// A map of entries whose names strictly increase.
    pub fn from_entries(entries: Vec<(String, ArchivedFastaEntry)>) -> (r: ArchivedFastaMap)
        requires
            crate::name_map::strictly_sorted(crate::name_map::pair_views(entries@)),
        ensures
            r@ == archived_fasta_views(crate::name_map::pair_views(entries@)),
            r.wf(),
    {
        let map = NameMap::from_entries(entries);
        proof {
            crate::name_map::lemma_sorted_same_keys(map@, archived_fasta_views(map@));
        }
        ArchivedFastaMap { map }
    }

    /// The source names, in strictly increasing order.
    pub fn names(&self) -> (r: Vec<String>)
        ensures
            r@.len() == self@.len(),
            forall|i: int| 0 <= i < r@.len() ==> r@[i]@ == self@[i].0,
            forall|i: int, j: int|
                0 <= i < j < r@.len() ==> crate::name_map::name_lt(r@[i]@, r@[j]@),
    {
        proof {
            use_type_invariant(self);
            crate::name_map::lemma_sorted_same_keys(self.map@, self@);
        }
        self.map.names()
    }

    /// The contigs (name and length) of source `name`.
    pub fn contigs(&self, name: &str) -> (r: Result<Vec<(Vec<u8>, u64)>, FastarError>)
        ensures
            !has_key(self@, name@) ==> r == Err::<Vec<(Vec<u8>, u64)>, FastarError>(
                FastarError::NotFound,
            ),
            has_key(self@, name@) ==> (r matches Ok(v) && v@.len() == self@[first_key(
                self@,
                name@,
            )].1.fai.len() && forall|i: int|
                0 <= i < v@.len() ==> v@[i].0@ == self@[first_key(self@, name@)].1.fai[i].contig
                    && v@[i].1 == self@[first_key(self@, name@)].1.fai[i].length),
    {
        proof {
            crate::name_map::lemma_same_keys(self.map@, self@, name@);
        }
        match self.map.get(name) {
            None => Err(FastarError::NotFound),
            Some(e) => Ok(e.fai.contigs()),
        }
    }

    /// The virtual position of base `start` of `contig` in source `name`.
    pub fn query(&self, name: &str, contig: &[u8], start: u64) -> (r: Result<
        VirtualPosition,
        FastarError,
    >)
        ensures
            r == fasta_map_position(self@, name@, contig@, start),
    {
        proof {
            crate::name_map::lemma_same_keys(self.map@, self@, name@);
        }
        match self.map.get(name) {
            None => Err(FastarError::NotFound),
            Some(e) => match e.fai.query(contig, start) {
                Err(err) => Err(err),
                Ok(pos) => e.gzi.query(pos),
            },
        }
    }
}

} // verus!
