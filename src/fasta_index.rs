use vstd::prelude::*;

use crate::bytes::{bytes_equal, to_vec};
use crate::error::FastarError;

verus! {

/// One line of a FASTA index: where a contig's bases start and how its
/// lines are laid out.
#[derive(Clone, Debug)]
pub struct FaiRecord {
    pub contig: Vec<u8>,
    pub length: u64,
    pub offset: u64,
    pub line_bases: u64,
    pub line_width: u64,
}

/// The mathematical value of a [`FaiRecord`].
pub struct FaiRecordView {
    pub contig: Seq<u8>,
    pub length: u64,
    pub offset: u64,
    pub line_bases: u64,
    pub line_width: u64,
}

impl View for FaiRecord {
    type V = FaiRecordView;

    open spec fn view(&self) -> FaiRecordView {
        FaiRecordView {
            contig: self.contig@,
            length: self.length,
            offset: self.offset,
            line_bases: self.line_bases,
            line_width: self.line_width,
        }
    }
}

impl FaiRecord {
    /// A copy of this record.
    pub fn copied(&self) -> (r: FaiRecord)
        ensures
            r@ == self@,
    {
        FaiRecord {
            contig: to_vec(self.contig.as_slice()),
            length: self.length,
            offset: self.offset,
            line_bases: self.line_bases,
            line_width: self.line_width,
        }
    }
}

pub open spec fn record_views(s: Seq<FaiRecord>) -> Seq<FaiRecordView> {
    s.map_values(|r: FaiRecord| r@)
}

/// The records of a FASTA index file (`name, length, offset, bases per line,
/// bytes per line`, tab separated), as noodles' fai reader parses them;
/// `None` where it rejects the file.
pub uninterp spec fn fai_table(b: Seq<u8>) -> Option<Seq<FaiRecordView>>;

/// Relies on noodles' `fai::io::Reader::read_index`, which parses a FASTA
/// index from any reader; its bases and bytes per line are `NonZero`.
#[verifier::external_body]
fn read_fai(bytes: &[u8]) -> (r: Option<Vec<FaiRecord>>)
    ensures
        r is Some <==> fai_table(bytes@) is Some,
        r matches Some(v) ==> fai_table(bytes@) == Some(record_views(v@)),
        r matches Some(v) ==> forall|i: int|
            0 <= i < v@.len() ==> v@[i].line_bases > 0 && v@[i].line_width > 0,
{
    let index = noodles::fasta::fai::io::Reader::new(bytes).read_index().ok()?;
    Some(
        index.as_ref().iter().map(|rec| FaiRecord {
            contig: rec.name().to_vec(),
            length: rec.length(),
            offset: rec.position(),
            line_bases: rec.line_base_count().get(),
            line_width: rec.line_width().get(),
        }).collect(),
    )
}

/// Whether a contig is long enough to be kept.
pub open spec fn long_enough(min_contig_length: u64) -> spec_fn(FaiRecordView) -> bool {
    |r: FaiRecordView| r.length >= min_contig_length
}

/// Index of the first record of contig `c`, or -1.
pub open spec fn first_contig(s: Seq<FaiRecordView>, c: Seq<u8>) -> int
    decreases s.len(),
{
    if s.len() == 0 {
        -1
    } else if s[0].contig == c {
        0
    } else {
        let k = first_contig(s.drop_first(), c);
        if k < 0 {
            -1
        } else {
            k + 1
        }
    }
}

/// Byte offset of base `start` of a contig laid out in wrapped lines.
pub open spec fn wrapped_offset(r: FaiRecordView, start: u64) -> int
    recommends
        r.line_bases > 0,
{
    r.offset + (start / r.line_bases) * r.line_width + start % r.line_bases
}

/// What a position query for base `start` of contig `c` yields.
pub open spec fn fasta_position(s: Seq<FaiRecordView>, c: Seq<u8>, start: u64) -> Result<
    u64,
    FastarError,
> {
    let i = first_contig(s, c);
    if i < 0 {
        Err(FastarError::NotFound)
    } else if s[i].line_bases == 0 {
        Err(FastarError::MalformedSidecar)
    } else if wrapped_offset(s[i], start) > u64::MAX {
        Err(FastarError::OffsetOverflow)
    } else {
        Ok(wrapped_offset(s[i], start) as u64)
    }
}

proof fn lemma_first_contig(s: Seq<FaiRecordView>, c: Seq<u8>, i: int)
    requires
        0 <= i <= s.len(),
        forall|j: int| 0 <= j < i ==> s[j].contig != c,
    ensures
        i < s.len() && s[i].contig == c ==> first_contig(s, c) == i,
        i == s.len() ==> first_contig(s, c) == -1,
    decreases i,
{
    if i > 0 {
        lemma_first_contig(s.drop_first(), c, i - 1);
    } else if s.len() > 0 {
    }
}

proof fn lemma_first_contig_bounds(s: Seq<FaiRecordView>, c: Seq<u8>)
    ensures
        -1 <= first_contig(s, c) < s.len(),
        first_contig(s, c) >= 0 ==> s[first_contig(s, c)].contig == c,
    decreases s.len(),
{
    if s.len() > 0 && s[0].contig != c {
        lemma_first_contig_bounds(s.drop_first(), c);
    }
}

/// A contig shorter than the threshold is dropped when the index is built:
/// the index lists no record of it, and a query for it finds nothing.
pub proof fn lemma_short_contig_absent(
    s: Seq<FaiRecordView>,
    min_contig_length: u64,
    c: Seq<u8>,
    start: u64,
)
    requires
        forall|i: int| 0 <= i < s.len() && s[i].contig == c ==> s[i].length < min_contig_length,
    ensures
        forall|i: int|
            0 <= i < s.filter(long_enough(min_contig_length)).len() ==> (#[trigger] s.filter(
                long_enough(min_contig_length),
            )[i]).contig != c,
        fasta_position(s.filter(long_enough(min_contig_length)), c, start) == Err::<
            u64,
            FastarError,
        >(FastarError::NotFound),
{
    let keep = long_enough(min_contig_length);
    let t = s.filter(keep);
    assert forall|i: int| 0 <= i < t.len() implies (#[trigger] t[i]).contig != c by {
        assert(t.contains(t[i]));
        s.lemma_filter_contains_rev(keep, t[i]);
        let j = choose|j: int| 0 <= j < s.len() && s[j] == t[i];
    }
    lemma_first_contig(t, c, t.len() as int);
}

fn wrapped_offset_checked(r: &FaiRecord, start: u64) -> (v: Result<u64, FastarError>)
    requires
        r.line_bases > 0,
    ensures
        v == (if wrapped_offset(r@, start) > u64::MAX {
            Err::<u64, FastarError>(FastarError::OffsetOverflow)
        } else {
            Ok::<u64, FastarError>(wrapped_offset(r@, start) as u64)
        }),
{
    let lines = start / r.line_bases;
    let rem = start % r.line_bases;
    let ghost total = wrapped_offset(r@, start);
    assert(lines * r.line_width >= 0) by (nonlinear_arith)
        requires lines >= 0, r.line_width >= 0;
    match lines.checked_mul(r.line_width) {
        None => Err(FastarError::OffsetOverflow),
        Some(skip) => match r.offset.checked_add(skip) {
            None => Err(FastarError::OffsetOverflow),
            Some(base) => match base.checked_add(rem) {
                None => Err(FastarError::OffsetOverflow),
                Some(v) => Ok(v),
            },
        },
    }
}

/// A FASTA index as built from its sidecar: the contigs at least as long as
/// the threshold, in file order.
#[derive(Clone, Debug)]
pub struct FastaIndex {
    entries: Vec<FaiRecord>,
}

impl View for FastaIndex {
    type V = Seq<FaiRecordView>;

    closed spec fn view(&self) -> Seq<FaiRecordView> {
        record_views(self.entries@)
    }
}

impl FastaIndex {
    /// Keeps the records whose contig is at least `min_contig_length` long.
    pub fn from_records(records: Vec<FaiRecord>, min_contig_length: u64) -> (r: FastaIndex)
        ensures
            r@ == record_views(records@).filter(long_enough(min_contig_length)),
    {
        let ghost all = record_views(records@);
        let mut entries: Vec<FaiRecord> = Vec::new();
        let mut i: usize = 0;
        while i < records.len()
            invariant
                i <= records@.len(),
                all == record_views(records@),
                record_views(entries@) == all.subrange(0, i as int).filter(
                    long_enough(min_contig_length),
                ),
            decreases records@.len() - i,
        {
            let ghost before = entries@;
            let ghost sub = all.subrange(0, i + 1);
            assert(sub.drop_last() =~= all.subrange(0, i as int));
            assert(sub.last() == records@[i as int]@);
            let ghost keep = long_enough(min_contig_length);
            assert(sub.len() > 0);
            proof {
                reveal(Seq::filter);
            }
            assert(sub.filter(keep) == (if keep(sub.last()) {
                sub.drop_last().filter(keep).push(sub.last())
            } else {
                sub.drop_last().filter(keep)
            }));
            if records[i].length >= min_contig_length {
                entries.push(records[i].copied());
                assert(record_views(entries@) =~= record_views(before).push(records@[i as int]@));
            }
            assert(sub.filter(long_enough(min_contig_length)) == record_views(entries@));
            i = i + 1;
        }
        assert(all.subrange(0, records@.len() as int) =~= all);
        FastaIndex { entries }
    }

    /// Whether a FAI sidecar's bytes parse.
    pub open spec fn fai_bytes_ok(b: Seq<u8>) -> bool {
        fai_table(b) is Some
    }

    /// Parses a FASTA index file and keeps the contigs at least
    /// `min_contig_length` long; a file that does not parse is malformed.
    pub fn read(bytes: &[u8], min_contig_length: u64) -> (r: Result<
        FastaIndex,
        FastarError,
    >)
        ensures
            r is Ok <==> FastaIndex::fai_bytes_ok(bytes@),
            r is Err ==> r == Err::<FastaIndex, FastarError>(FastarError::MalformedSidecar),
            r matches Ok(ix) ==> ix@ == fai_table(bytes@).unwrap().filter(
                long_enough(min_contig_length),
            ),
    {
        match read_fai(bytes) {
            None => Err(FastarError::MalformedSidecar),
            Some(records) => Ok(FastaIndex::from_records(records, min_contig_length)),
        }
    }

    pub fn records(&self) -> (r: &Vec<FaiRecord>)
        ensures
            record_views(r@) == self@,
    {
        &self.entries
    }

    /// Each contig's name and length, in index order.
    pub fn contigs(&self) -> (r: Vec<(Vec<u8>, u64)>)
        ensures
            r@.len() == self@.len(),
            forall|i: int|
                0 <= i < r@.len() ==> r@[i].0@ == self@[i].contig && r@[i].1 == self@[i].length,
    {
        contigs_of(&self.entries)
    }

    /// Byte offset of base `start` of `contig`, as for the archived index.
    pub fn query(&self, contig: &[u8], start: u64) -> (r: Result<u64, FastarError>)
        ensures
            r == fasta_position(self@, contig@, start),
    {
        position_in(&self.entries, contig, start)
    }
}

/// The read-only FASTA index of an opened archive.
#[derive(Clone, Debug)]
pub struct ArchivedFastaIndex {
    entries: Vec<FaiRecord>,
}

impl View for ArchivedFastaIndex {
    type V = Seq<FaiRecordView>;

    closed spec fn view(&self) -> Seq<FaiRecordView> {
        record_views(self.entries@)
    }
}

impl ArchivedFastaIndex {
    pub fn from_records(entries: Vec<FaiRecord>) -> (r: ArchivedFastaIndex)
        ensures
            r@ == record_views(entries@),
    {
        ArchivedFastaIndex { entries }
    }

    /// Each contig's name and length, in index order.
    pub fn contigs(&self) -> (r: Vec<(Vec<u8>, u64)>)
        ensures
            r@.len() == self@.len(),
            forall|i: int|
                0 <= i < r@.len() ==> r@[i].0@ == self@[i].contig && r@[i].1 == self@[i].length,
    {
        contigs_of(&self.entries)
    }

    /// Byte offset, in the uncompressed stream, of base `start` of `contig`:
    /// `offset + start / bases_per_line * bytes_per_line + start % bases_per_line`
    /// for the first record of that contig.
    pub fn query(&self, contig: &[u8], start: u64) -> (r: Result<u64, FastarError>)
        ensures
            r == fasta_position(self@, contig@, start),
    {
        position_in(&self.entries, contig, start)
    }
}

fn contigs_of(entries: &Vec<FaiRecord>) -> (r: Vec<(Vec<u8>, u64)>)
    ensures
        r@.len() == entries@.len(),
        forall|i: int|
            0 <= i < r@.len() ==> r@[i].0@ == entries@[i].contig@ && r@[i].1 == entries@[i].length,
{
    let mut r: Vec<(Vec<u8>, u64)> = Vec::new();
    let mut i: usize = 0;
    while i < entries.len()
        invariant
            i <= entries@.len(),
            r@.len() == i,
            forall|j: int|
                0 <= j < i ==> r@[j].0@ == entries@[j].contig@ && r@[j].1 == entries@[j].length,
        decreases entries@.len() - i,
    {
        let rec = &entries[i];
        r.push((to_vec(rec.contig.as_slice()), rec.length));
        i = i + 1;
    }
    r
}

fn position_in(entries: &Vec<FaiRecord>, contig: &[u8], start: u64) -> (r: Result<u64, FastarError>)
    ensures
        r == fasta_position(record_views(entries@), contig@, start),
{
    let ghost s = record_views(entries@);
    let mut i: usize = 0;
    while i < entries.len()
        invariant
            i <= s.len(),
            s == record_views(entries@),
            forall|j: int| 0 <= j < i ==> s[j].contig != contig@,
        decreases s.len() - i,
    {
        let rec = &entries[i];
        if bytes_equal(rec.contig.as_slice(), contig) {
            proof {
                lemma_first_contig(s, contig@, i as int);
            }
            if rec.line_bases == 0 {
                return Err(FastarError::MalformedSidecar);
            }
            return wrapped_offset_checked(rec, start);
        }
        i = i + 1;
    }
    proof {
        lemma_first_contig(s, contig@, i as int);
    }
    Err(FastarError::NotFound)
}

} // verus!
