use vstd::prelude::*;

use crate::bytes::{bytes_equal, to_vec};
use crate::error::FastarError;

verus! {

pub const NEWLINE: u8 = 10;

pub const TAB: u8 = 9;

/// One parsed line of a track offset table: its name, if it has one, and
/// its offset.
#[derive(Clone, Debug)]
pub struct TrackLine {
    pub name: Option<Vec<u8>>,
    pub offset: u64,
}

/// The mathematical value of a [`TrackLine`].
pub struct TrackLineView {
    pub name: Option<Seq<u8>>,
    pub offset: u64,
}

impl View for TrackLine {
    type V = TrackLineView;

    open spec fn view(&self) -> TrackLineView {
        TrackLineView {
            name: match self.name {
                Some(n) => Some(n@),
                None => None,
            },
            offset: self.offset,
        }
    }
}

pub open spec fn line_views(s: Seq<TrackLine>) -> Seq<TrackLineView> {
    s.map_values(|l: TrackLine| l@)
}

/// One entry of a track index: a named region and its length, derived from
/// the offset of the entry after it.
#[derive(Clone, Debug)]
pub struct TrackRecord {
    pub name: Vec<u8>,
    pub offset: u64,
    pub length: u64,
}

/// The mathematical value of a [`TrackRecord`].
pub struct TrackRecordView {
    pub name: Seq<u8>,
    pub offset: u64,
    pub length: u64,
}

impl View for TrackRecord {
    type V = TrackRecordView;

    open spec fn view(&self) -> TrackRecordView {
        TrackRecordView { name: self.name@, offset: self.offset, length: self.length }
    }
}

impl TrackRecord {
    /// A copy of this record.
    pub fn copied(&self) -> (r: TrackRecord)
        ensures
            r@ == self@,
    {
        TrackRecord { name: to_vec(self.name.as_slice()), offset: self.offset, length: self.length }
    }
}

pub open spec fn track_views(s: Seq<TrackRecord>) -> Seq<TrackRecordView> {
    s.map_values(|r: TrackRecord| r@)
}

pub open spec fn is_digit(c: u8) -> bool {
    48 <= c <= 57
}

/// The number that a string of decimal digits writes.
pub open spec fn decimal_value(s: Seq<u8>) -> int
    decreases s.len(),
{
    if s.len() == 0 {
        0
    } else {
        decimal_value(s.drop_last()) * 10 + (s.last() - 48)
    }
}

/// The digits of an unsigned decimal: all but a leading `+`.
pub open spec fn unsigned_digits(s: Seq<u8>) -> Seq<u8> {
    if s.len() > 0 && s[0] == 43 {
        s.drop_first()
    } else {
        s
    }
}

pub open spec fn all_digits(s: Seq<u8>) -> bool {
    forall|i: int| 0 <= i < s.len() ==> is_digit(s[i])
}

/// An unsigned decimal as Rust's `u64::from_str` reads it: an optional
/// leading `+`, then at least one digit and nothing else, at most
/// `u64::MAX`.
pub open spec fn parse_decimal(s: Seq<u8>) -> Option<u64> {
    let digits = unsigned_digits(s);
    if digits.len() == 0 || !all_digits(digits) || decimal_value(digits) > u64::MAX {
        None
    } else {
        Some(decimal_value(digits) as u64)
    }
}

/// Index of the first `x` in `s`, or -1.
pub open spec fn first_index_of(s: Seq<u8>, x: u8) -> int
    decreases s.len(),
{
    if s.len() == 0 {
        -1
    } else if s[0] == x {
        0
    } else {
        let k = first_index_of(s.drop_first(), x);
        if k < 0 {
            -1
        } else {
            k + 1
        }
    }
}

/// A line of the table: the name before the first tab (none if empty) and
/// the offset after it. A line without a tab, or whose offset does not read
/// as a number, holds no entry.
pub open spec fn line_entry(line: Seq<u8>) -> Option<TrackLineView> {
    let t = first_index_of(line, TAB);
    if t < 0 {
        None
    } else {
        match parse_decimal(line.subrange(t + 1, line.len() as int)) {
            None => None,
            Some(offset) => Some(
                TrackLineView {
                    name: if t == 0 {
                        None
                    } else {
                        Some(line.subrange(0, t))
                    },
                    offset,
                },
            ),
        }
    }
}

pub open spec fn as_seq(e: Option<TrackLineView>) -> Seq<TrackLineView> {
    match e {
        Some(x) => seq![x],
        None => Seq::empty(),
    }
}

/// The entries of the lines of `b` from the line that starts at `start`,
/// scanning from `i`; lines end at a newline or at the end of the bytes.
pub open spec fn entries_from(b: Seq<u8>, start: int, i: int) -> Seq<TrackLineView>
    decreases b.len() - i,
{
    if i >= b.len() {
        as_seq(line_entry(b.subrange(start, b.len() as int)))
    } else if b[i] == NEWLINE {
        as_seq(line_entry(b.subrange(start, i))) + entries_from(b, i + 1, i + 1)
    } else {
        entries_from(b, start, i + 1)
    }
}

/// The entries of a whole track offset table.
pub open spec fn track_lines(b: Seq<u8>) -> Seq<TrackLineView> {
    entries_from(b, 0, 0)
}

/// Whether entry `i` can be turned into a record: it has a name, and the
/// next entry does not start before it.
pub open spec fn window_ok(e: Seq<TrackLineView>, i: int) -> bool {
    e[i].name is Some && e[i + 1].offset >= e[i].offset
}

pub open spec fn windows_ok(e: Seq<TrackLineView>) -> bool {
    forall|i: int| 0 <= i < e.len() - 1 ==> window_ok(e, i)
}

/// The record made of entry `i` and the entry after it.
pub open spec fn window_record(e: Seq<TrackLineView>, i: int) -> TrackRecordView {
    TrackRecordView {
        name: e[i].name.unwrap(),
        offset: e[i].offset,
        length: (e[i + 1].offset - e[i].offset) as u64,
    }
}

pub open spec fn window_records(e: Seq<TrackLineView>) -> Seq<TrackRecordView> {
    Seq::new(if e.len() == 0 { 0 } else { (e.len() - 1) as nat }, |i: int| window_record(e, i))
}

pub open spec fn track_long_enough(min_length: u64) -> spec_fn(TrackRecordView) -> bool {
    |r: TrackRecordView| r.length >= min_length
}

/// The records of a table's entries: every entry but the last, with the
/// distance to the next entry as its length, kept where that length is at
/// least `min_length`. An entry without a name before the last, or an
/// offset smaller than the one before it, makes the table malformed.
pub open spec fn track_records(e: Seq<TrackLineView>, min_length: u64) -> Result<
    Seq<TrackRecordView>,
    FastarError,
> {
    if windows_ok(e) {
        Ok(window_records(e).filter(track_long_enough(min_length)))
    } else {
        Err(FastarError::MalformedSidecar)
    }
}

proof fn lemma_first_index_of(s: Seq<u8>, x: u8, k: int)
    requires
        0 <= k <= s.len(),
        forall|j: int| 0 <= j < k ==> s[j] != x,
    ensures
        k < s.len() && s[k] == x ==> first_index_of(s, x) == k,
        k == s.len() ==> first_index_of(s, x) == -1,
    decreases k,
{
    if k > 0 {
        lemma_first_index_of(s.drop_first(), x, k - 1);
    }
}

proof fn lemma_decimal_grows(s: Seq<u8>, j: int)
    requires
        0 <= j <= s.len(),
        forall|i: int| 0 <= i < s.len() ==> is_digit(s[i]),
    ensures
        decimal_value(s) >= decimal_value(s.subrange(0, j)),
        decimal_value(s) >= 0,
    decreases s.len(),
{
    if s.len() > 0 {
        let p = s.drop_last();
        if j < s.len() {
            assert(p.subrange(0, j) =~= s.subrange(0, j));
            lemma_decimal_grows(p, j);
        } else {
            assert(s.subrange(0, j) =~= s);
            lemma_decimal_grows(p, 0);
        }
    } else {
        assert(s.subrange(0, j) =~= s);
    }
}

/// Reads `b[a..e]` as an unsigned decimal.
fn parse_u64(b: &[u8], a: usize, e: usize) -> (r: Option<u64>)
    requires
        a <= e <= b@.len(),
    ensures
        r == parse_decimal(b@.subrange(a as int, e as int)),
{
    let ghost s = b@.subrange(a as int, e as int);
    let d: usize = if a < e && b[a] == 43 {
        a + 1
    } else {
        a
    };
    let ghost digits = b@.subrange(d as int, e as int);
    assert(digits =~= unsigned_digits(s));
    if d == e {
        return None;
    }
    let mut acc: u64 = 0;
    let mut k: usize = d;
    while k < e
        invariant
            d <= k <= e <= b@.len(),
            digits == b@.subrange(d as int, e as int),
            digits == unsigned_digits(b@.subrange(a as int, e as int)),
            forall|i: int| d <= i < k ==> is_digit(b@[i]),
            acc == decimal_value(b@.subrange(d as int, k as int)),
        decreases e - k,
    {
        let c = b[k];
        if c < 48 || c > 57 {
            assert(digits[k - d] == c);
            assert(!all_digits(digits));
            return None;
        }
        let ghost next = b@.subrange(d as int, k + 1);
        assert(next.drop_last() =~= b@.subrange(d as int, k as int));
        let digit = (c - 48) as u64;
        let grown = match acc.checked_mul(10) {
            None => None,
            Some(m) => m.checked_add(digit),
        };
        match grown {
            None => {
                proof {
                    assert(next.last() == c);
                    assert(decimal_value(next) == acc * 10 + (c - 48));
                    assert(decimal_value(next) > u64::MAX);
                    if all_digits(digits) {
                        lemma_decimal_grows(digits, k + 1 - d);
                        assert(digits.subrange(0, k + 1 - d) =~= next);
                    }
                }
                return None;
            }
            Some(v) => {
                acc = v;
            }
        }
        k = k + 1;
    }
    assert(b@.subrange(d as int, e as int) =~= digits);
    Some(acc)
}

/// Parses the line `b[start..end]`.
fn parse_line(b: &[u8], start: usize, end: usize) -> (r: Option<TrackLine>)
    requires
        start <= end <= b@.len(),
    ensures
        (match r {
            Some(l) => line_entry(b@.subrange(start as int, end as int)) == Some(l@),
            None => line_entry(b@.subrange(start as int, end as int)) is None,
        }),
{
    let ghost line = b@.subrange(start as int, end as int);
    let mut t: usize = start;
    while t < end && b[t] != TAB
        invariant
            start <= t <= end,
            end <= b@.len(),
            line == b@.subrange(start as int, end as int),
            forall|j: int| 0 <= j < t - start ==> line[j] != TAB,
        decreases end - t,
    {
        t = t + 1;
    }
    proof {
        lemma_first_index_of(line, TAB, t - start);
    }
    if t == end {
        return None;
    }
    assert(line.subrange(t - start + 1, line.len() as int) =~= b@.subrange(t + 1, end as int));
    match parse_u64(b, t + 1, end) {
        None => None,
        Some(offset) => {
            let name = if t == start {
                None
            } else {
                let mut n: Vec<u8> = Vec::new();
                let mut j: usize = start;
                while j < t
                    invariant
                        start <= j <= t,
                        t <= b@.len(),
                        n@ == b@.subrange(start as int, j as int),
                    decreases t - j,
                {
                    n.push(b[j]);
                    j = j + 1;
                    assert(n@ =~= b@.subrange(start as int, j as int));
                }
                assert(n@ =~= line.subrange(0, t - start));
                Some(n)
            };
            Some(TrackLine { name, offset })
        },
    }
}

/// Reads every entry of a track offset table.
pub fn parse_track_lines(b: &[u8]) -> (r: Vec<TrackLine>)
    ensures
        line_views(r@) == track_lines(b@),
{
    let mut out: Vec<TrackLine> = Vec::new();
    let mut start: usize = 0;
    let mut i: usize = 0;
    while i < b.len()
        invariant
            start <= i <= b@.len(),
            line_views(out@) + entries_from(b@, start as int, i as int) == track_lines(b@),
        decreases b@.len() - i,
    {
        if b[i] == NEWLINE {
            let ghost before = out@;
            match parse_line(b, start, i) {
                Some(l) => {
                    out.push(l);
                    assert(line_views(out@) =~= line_views(before) + seq![l@]);
                },
                None => {},
            }
            assert(line_views(out@) + entries_from(b@, i + 1, i + 1) =~= line_views(before)
                + entries_from(b@, start as int, i as int));
            start = i + 1;
        }
        i = i + 1;
    }
    let ghost before = out@;
    match parse_line(b, start, i) {
        Some(l) => {
            out.push(l);
            assert(line_views(out@) =~= line_views(before) + seq![l@]);
        },
        None => {},
    }
    assert(line_views(out@) =~= line_views(before) + entries_from(b@, start as int, i as int));
    out
}

/// Turns a table's entries into records, as [`track_records`] states.
pub fn records_from_lines(lines: &Vec<TrackLine>, min_length: u64) -> (r: Result<
    Vec<TrackRecord>,
    FastarError,
>)
    ensures
        (match r {
            Ok(v) => track_records(line_views(lines@), min_length) == Ok::<
                Seq<TrackRecordView>,
                FastarError,
            >(track_views(v@)),
            Err(e) => track_records(line_views(lines@), min_length) == Err::<
                Seq<TrackRecordView>,
                FastarError,
            >(e),
        }),
{
    let ghost e = line_views(lines@);
    let ghost all = window_records(e);
    let ghost keep = track_long_enough(min_length);
    let mut out: Vec<TrackRecord> = Vec::new();
    if lines.len() == 0 {
        assert(all.filter(keep) =~= Seq::<TrackRecordView>::empty()) by {
            reveal(Seq::filter);
        }
        assert(track_views(out@) =~= Seq::<TrackRecordView>::empty());
        return Ok(out);
    }
    let n = lines.len() - 1;
    let mut i: usize = 0;
    while i < n
        invariant
            n == lines@.len() - 1,
            i <= n,
            e == line_views(lines@),
            all == window_records(e),
            keep == track_long_enough(min_length),
            forall|j: int| 0 <= j < i ==> window_ok(e, j),
            track_views(out@) == all.subrange(0, i as int).filter(keep),
        decreases n - i,
    {
        let cur = &lines[i];
        let next_offset = lines[i + 1].offset;
        match &cur.name {
            None => {
                assert(!window_ok(e, i as int));
                return Err(FastarError::MalformedSidecar);
            },
            Some(name) => {
                if next_offset < cur.offset {
                    assert(!window_ok(e, i as int));
                    return Err(FastarError::MalformedSidecar);
                }
                let ghost before = out@;
                let ghost sub = all.subrange(0, i + 1);
                let rec = TrackRecord {
                    name: to_vec(name.as_slice()),
                    offset: cur.offset,
                    length: next_offset - cur.offset,
                };
                assert(rec@ == all[i as int]);
                assert(sub.drop_last() =~= all.subrange(0, i as int));
                assert(sub.len() > 0);
                proof {
                    reveal(Seq::filter);
                }
                if rec.length >= min_length {
                    out.push(rec);
                    assert(track_views(out@) =~= track_views(before).push(all[i as int]));
                }
                assert(sub.filter(keep) == track_views(out@));
            },
        }
        i = i + 1;
    }
    assert(all.subrange(0, n as int) =~= all);
    Ok(out)
}

/// A record shorter than the threshold is dropped when the table is built:
/// the table lists no record of that name, and a query for it finds
/// nothing.
pub proof fn lemma_short_track_absent(
    e: Seq<TrackLineView>,
    min_length: u64,
    name: Seq<u8>,
    start: u64,
)
    requires
        windows_ok(e),
        forall|i: int|
            0 <= i < window_records(e).len() && (#[trigger] window_records(e)[i]).name == name
                ==> window_records(e)[i].length < min_length,
    ensures
        track_records(e, min_length) matches Ok(s) && (forall|i: int|
            0 <= i < s.len() ==> (#[trigger] s[i]).name != name) && track_position(s, name, start)
            == Err::<u64, FastarError>(FastarError::NotFound),
{
    let keep = track_long_enough(min_length);
    let w = window_records(e);
    let t = w.filter(keep);
    assert forall|i: int| 0 <= i < t.len() implies (#[trigger] t[i]).name != name by {
        assert(t.contains(t[i]));
        w.lemma_filter_contains_rev(keep, t[i]);
        let j = choose|j: int| 0 <= j < w.len() && w[j] == t[i];
    }
    lemma_first_track(t, name, t.len() as int);
}

/// A track offset table as built from its sidecar.
#[derive(Clone, Debug)]
pub struct TrackIndex {
    entries: Vec<TrackRecord>,
}

impl View for TrackIndex {
    type V = Seq<TrackRecordView>;

    closed spec fn view(&self) -> Seq<TrackRecordView> {
        track_views(self.entries@)
    }
}

impl TrackIndex {
    /// Parses a track offset table (`name<TAB>offset` lines, the last of
    /// which may have no name) and keeps the records at least
    /// `min_length` long.
    pub fn read(bytes: &[u8], min_length: u64) -> (r: Result<TrackIndex, FastarError>)
        ensures
            (match r {
                Ok(ix) => track_records(track_lines(bytes@), min_length) == Ok::<
                    Seq<TrackRecordView>,
                    FastarError,
                >(ix@),
                Err(e) => track_records(track_lines(bytes@), min_length) == Err::<
                    Seq<TrackRecordView>,
                    FastarError,
                >(e),
            }),
    {
        let lines = parse_track_lines(bytes);
        match records_from_lines(&lines, min_length) {
            Ok(entries) => Ok(TrackIndex { entries }),
            Err(e) => Err(e),
        }
    }

    pub fn records(&self) -> (r: &Vec<TrackRecord>)
        ensures
            track_views(r@) == self@,
    {
        &self.entries
    }

    /// Each record's name and length, in table order.
    pub fn contigs(&self) -> (r: Vec<(Vec<u8>, u64)>)
        ensures
            r@.len() == self@.len(),
            forall|i: int|
                0 <= i < r@.len() ==> r@[i].0@ == self@[i].name && r@[i].1 == self@[i].length,
    {
        track_contigs_of(&self.entries)
    }

    /// Uncompressed offset of position `start` of the record named `name`.
    pub fn query(&self, name: &[u8], start: u64) -> (r: Result<u64, FastarError>)
        ensures
            r == track_position(self@, name@, start),
    {
        track_position_in(&self.entries, name, start)
    }
}

/// Index of the first record named `name`, or -1.
pub open spec fn first_track(s: Seq<TrackRecordView>, name: Seq<u8>) -> int
    decreases s.len(),
{
    if s.len() == 0 {
        -1
    } else if s[0].name == name {
        0
    } else {
        let k = first_track(s.drop_first(), name);
        if k < 0 {
            -1
        } else {
            k + 1
        }
    }
}

/// What a query for position `start` of track `name` yields: the record's
/// offset plus `start`.
pub open spec fn track_position(s: Seq<TrackRecordView>, name: Seq<u8>, start: u64) -> Result<
    u64,
    FastarError,
> {
    let i = first_track(s, name);
    if i < 0 {
        Err(FastarError::NotFound)
    } else if s[i].offset + start > u64::MAX {
        Err(FastarError::OffsetOverflow)
    } else {
        Ok((s[i].offset + start) as u64)
    }
}

proof fn lemma_first_track(s: Seq<TrackRecordView>, name: Seq<u8>, k: int)
    requires
        0 <= k <= s.len(),
        forall|j: int| 0 <= j < k ==> s[j].name != name,
    ensures
        k < s.len() && s[k].name == name ==> first_track(s, name) == k,
        k == s.len() ==> first_track(s, name) == -1,
    decreases k,
{
    if k > 0 {
        lemma_first_track(s.drop_first(), name, k - 1);
    }
}

/// The read-only track offset table of an opened archive.
#[derive(Clone, Debug)]
pub struct ArchivedTrackIndex {
    entries: Vec<TrackRecord>,
}

impl View for ArchivedTrackIndex {
    type V = Seq<TrackRecordView>;

    closed spec fn view(&self) -> Seq<TrackRecordView> {
        track_views(self.entries@)
    }
}

impl ArchivedTrackIndex {
    pub fn from_records(entries: Vec<TrackRecord>) -> (r: ArchivedTrackIndex)
        ensures
            r@ == track_views(entries@),
    {
        ArchivedTrackIndex { entries }
    }

    /// Each record's name and length, in table order.
    pub fn contigs(&self) -> (r: Vec<(Vec<u8>, u64)>)
        ensures
            r@.len() == self@.len(),
            forall|i: int|
                0 <= i < r@.len() ==> r@[i].0@ == self@[i].name && r@[i].1 == self@[i].length,
    {
        track_contigs_of(&self.entries)
    }

    /// Uncompressed offset of position `start` of the record named `name`.
    pub fn query(&self, name: &[u8], start: u64) -> (r: Result<u64, FastarError>)
        ensures
            r == track_position(self@, name@, start),
    {
        track_position_in(&self.entries, name, start)
    }
}

fn track_contigs_of(entries: &Vec<TrackRecord>) -> (r: Vec<(Vec<u8>, u64)>)
    ensures
        r@.len() == entries@.len(),
        forall|i: int|
            0 <= i < r@.len() ==> r@[i].0@ == entries@[i].name@ && r@[i].1 == entries@[i].length,
{
    let mut r: Vec<(Vec<u8>, u64)> = Vec::new();
    let mut i: usize = 0;
    while i < entries.len()
        invariant
            i <= entries@.len(),
            r@.len() == i,
            forall|j: int|
                0 <= j < i ==> r@[j].0@ == entries@[j].name@ && r@[j].1 == entries@[j].length,
        decreases entries@.len() - i,
    {
        let rec = &entries[i];
        r.push((to_vec(rec.name.as_slice()), rec.length));
        i = i + 1;
    }
    r
}

fn track_position_in(entries: &Vec<TrackRecord>, name: &[u8], start: u64) -> (r: Result<
    u64,
    FastarError,
>)
    ensures
        r == track_position(track_views(entries@), name@, start),
{
    let ghost s = track_views(entries@);
    let mut i: usize = 0;
    while i < entries.len()
        invariant
            i <= s.len(),
            s == track_views(entries@),
            forall|j: int| 0 <= j < i ==> s[j].name != name@,
        decreases s.len() - i,
    {
        let rec = &entries[i];
        if bytes_equal(rec.name.as_slice(), name) {
            proof {
                lemma_first_track(s, name@, i as int);
            }
            return match rec.offset.checked_add(start) {
                None => Err(FastarError::OffsetOverflow),
                Some(v) => Ok(v),
            };
        }
        i = i + 1;
    }
    proof {
        lemma_first_track(s, name@, i as int);
    }
    Err(FastarError::NotFound)
}

} // verus!
