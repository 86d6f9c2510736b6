use vstd::bytes::spec_u64_from_le_bytes;
use vstd::prelude::*;

use crate::error::FastarError;

verus! {

/// Largest compressed offset a virtual position can hold (2^48 - 1).
pub const MAX_COMPRESSED_OFFSET: u64 = 0xffff_ffff_ffff;

/// Largest offset inside one decompressed block.
pub const MAX_IN_BLOCK_OFFSET: u64 = 0xffff;

/// A correspondence between an offset in the compressed stream and the
/// uncompressed offset that it decodes to.
#[derive(Clone, Copy, Debug, PartialEq, Eq, Structural)]
pub struct Checkpoint {
    pub compressed: u64,
    pub uncompressed: u64,
}

/// A logical byte inside a block-compressed stream: the offset of its block
/// and its offset inside the decompressed block.
#[derive(Clone, Copy, Debug, PartialEq, Eq, Structural)]
pub struct VirtualPosition {
    pub compressed: u64,
    pub in_block: u16,
}

impl VirtualPosition {
    pub open spec fn wf(&self) -> bool {
        self.compressed <= MAX_COMPRESSED_OFFSET
    }

    /// Pairs a block offset with an in-block offset; `None` when the block
    /// offset needs more than 48 bits.
    pub fn new(compressed: u64, in_block: u16) -> (r: Option<VirtualPosition>)
        ensures
            r == (if compressed <= MAX_COMPRESSED_OFFSET {
                Some(VirtualPosition { compressed, in_block })
            } else {
                None::<VirtualPosition>
            }),
    {
        if compressed <= MAX_COMPRESSED_OFFSET {
            Some(VirtualPosition { compressed, in_block })
        } else {
            None
        }
    }

    /// The packed form: block offset in the upper 48 bits, in-block offset in
    /// the lower 16.
    pub fn packed(&self) -> (r: u64)
        requires
            self.wf(),
        ensures
            r == self.compressed * 65536 + self.in_block,
    {
        assert(self.compressed * 65536 + self.in_block <= u64::MAX) by (nonlinear_arith)
            requires
                self.compressed <= MAX_COMPRESSED_OFFSET,
                self.in_block <= 65535,
        ;
        self.compressed * 65536 + self.in_block as u64
    }
}

/// Checkpoints ordered by uncompressed offset.
pub open spec fn ascending(s: Seq<Checkpoint>) -> bool {
    forall|i: int, j: int| 0 <= i < j < s.len() ==> s[i].uncompressed <= s[j].uncompressed
}

/// Index of the last checkpoint whose uncompressed offset is at most `pos`,
/// or -1 when there is none.
pub open spec fn last_at_or_before(s: Seq<Checkpoint>, pos: u64) -> int
    decreases s.len(),
{
    if s.len() == 0 {
        -1
    } else if s.last().uncompressed <= pos {
        s.len() - 1
    } else {
        last_at_or_before(s.drop_last(), pos)
    }
}

/// The checkpoint that `pos` is located from: the last one at or before it,
/// or the implicit checkpoint (0, 0).
pub open spec fn base_checkpoint(s: Seq<Checkpoint>, pos: u64) -> Checkpoint {
    let i = last_at_or_before(s, pos);
    if i < 0 {
        Checkpoint { compressed: 0, uncompressed: 0 }
    } else {
        s[i]
    }
}

/// What a query for uncompressed offset `pos` yields.
pub open spec fn locate(s: Seq<Checkpoint>, pos: u64) -> Result<VirtualPosition, FastarError> {
    let c = base_checkpoint(s, pos);
    let delta = pos - c.uncompressed;
    if delta > MAX_IN_BLOCK_OFFSET || c.compressed > MAX_COMPRESSED_OFFSET {
        Err(FastarError::OffsetOverflow)
    } else {
        Ok(VirtualPosition { compressed: c.compressed, in_block: delta as u16 })
    }
}

proof fn lemma_last_at_or_before(s: Seq<Checkpoint>, pos: u64, k: int)
    requires
        0 <= k <= s.len(),
        forall|i: int| 0 <= i < k ==> s[i].uncompressed <= pos,
        forall|i: int| k <= i < s.len() ==> s[i].uncompressed > pos,
    ensures
        last_at_or_before(s, pos) == k - 1,
    decreases s.len(),
{
    if s.len() > 0 && k < s.len() {
        lemma_last_at_or_before(s.drop_last(), pos, k);
    }
}

/// Number of leading checkpoints whose uncompressed offset is at most `pos`
/// (the partition point of an ascending list).
fn partition_point(entries: &Vec<Checkpoint>, pos: u64) -> (k: usize)
    requires
        ascending(entries@),
    ensures
        k <= entries@.len(),
        forall|i: int| 0 <= i < k ==> entries@[i].uncompressed <= pos,
        forall|i: int| k <= i < entries@.len() ==> entries@[i].uncompressed > pos,
{
    let mut lo: usize = 0;
    let mut hi: usize = entries.len();
    while lo < hi
        invariant
            lo <= hi <= entries@.len(),
            ascending(entries@),
            forall|i: int| 0 <= i < lo ==> entries@[i].uncompressed <= pos,
            forall|i: int| hi <= i < entries@.len() ==> entries@[i].uncompressed > pos,
        decreases hi - lo,
    {
        let mid = lo + (hi - lo) / 2;
        if entries[mid].uncompressed <= pos {
            lo = mid + 1;
        } else {
            hi = mid;
        }
    }
    lo
}

fn locate_in(entries: &Vec<Checkpoint>, pos: u64) -> (r: Result<VirtualPosition, FastarError>)
    requires
        ascending(entries@),
    ensures
        r == locate(entries@, pos),
{
    let k = partition_point(entries, pos);
    proof {
        lemma_last_at_or_before(entries@, pos, k as int);
    }
    let base = if k == 0 {
        Checkpoint { compressed: 0, uncompressed: 0 }
    } else {
        entries[k - 1]
    };
    let delta = pos - base.uncompressed;
    if delta > MAX_IN_BLOCK_OFFSET {
        return Err(FastarError::OffsetOverflow);
    }
    match VirtualPosition::new(base.compressed, delta as u16) {
        Some(v) => Ok(v),
        None => Err(FastarError::OffsetOverflow),
    }
}

/// Checks that checkpoints are ordered by uncompressed offset.
pub fn is_ascending(entries: &Vec<Checkpoint>) -> (r: bool)
    ensures
        r == ascending(entries@),
{
    let n = entries.len();
    if n == 0 {
        return true;
    }
    let mut i: usize = 1;
    while i < n
        invariant
            1 <= i <= n,
            n == entries@.len(),
            ascending(entries@.subrange(0, i as int)),
        decreases n - i,
    {
        if entries[i - 1].uncompressed > entries[i].uncompressed {
            assert(!ascending(entries@)) by {
                assert(entries@[i - 1].uncompressed > entries@[i as int].uncompressed);
            }
            return false;
        }
        assert(ascending(entries@.subrange(0, i + 1))) by {
            let s = entries@.subrange(0, i + 1);
            assert forall|a: int, b: int| 0 <= a < b < s.len() implies s[a].uncompressed
                <= s[b].uncompressed by {
                if b < i {
                    assert(s[a] == entries@.subrange(0, i as int)[a]);
                    assert(s[b] == entries@.subrange(0, i as int)[b]);
                } else if a < i - 1 {
                    assert(s[a] == entries@.subrange(0, i as int)[a]);
                    assert(s[i - 1] == entries@.subrange(0, i as int)[i - 1]);
                }
            }
        }
        i = i + 1;
    }
    assert(entries@.subrange(0, n as int) =~= entries@);
    true
}

/// The checkpoints that a gzip index (GZI) file lists: a little-endian
/// count, then that many little-endian (compressed, uncompressed) pairs, and
/// nothing after them.
pub open spec fn gzi_table(b: Seq<u8>) -> Option<Seq<Checkpoint>> {
    if b.len() >= 8 && b.len() - 8 == 16 * spec_u64_from_le_bytes(b.subrange(0, 8)) {
        Some(
            Seq::new(
                ((b.len() - 8) / 16) as nat,
                |i: int|
                    Checkpoint {
                        compressed: spec_u64_from_le_bytes(b.subrange(8 + 16 * i, 16 + 16 * i)),
                        uncompressed: spec_u64_from_le_bytes(b.subrange(16 + 16 * i, 24 + 16 * i)),
                    },
            ),
        )
    } else {
        None
    }
}

/// Relies on noodles' `gzi::io::Reader::read_index`: it reads the count and
/// the pairs as above, and fails on a short read or on trailing bytes.
#[verifier::external_body]
fn read_gzi(bytes: &[u8]) -> (r: Option<Vec<Checkpoint>>)
    ensures
        r is Some <==> gzi_table(bytes@) is Some,
        r matches Some(v) ==> gzi_table(bytes@) == Some(v@),
{
    let index = noodles::bgzf::gzi::io::Reader::new(bytes).read_index().ok()?;
    Some(
        index.as_ref().iter().map(|&(compressed, uncompressed)| Checkpoint {
            compressed,
            uncompressed,
        }).collect(),
    )
}

/// The checkpoint table of one compressed file, as read from its sidecar.
#[derive(Debug)]
pub struct BgzfIndex {
    entries: Vec<Checkpoint>,
}

impl View for BgzfIndex {
    type V = Seq<Checkpoint>;

    closed spec fn view(&self) -> Seq<Checkpoint> {
        self.entries@
    }
}

impl BgzfIndex {
    #[verifier::type_invariant]
    spec fn ordered(&self) -> bool {
        ascending(self.entries@)
    }

    pub open spec fn wf(&self) -> bool {
        ascending(self@)
    }

    /// Takes checkpoints as listed by the sidecar; a table that is not
    /// ordered by uncompressed offset is malformed.
    pub fn from_entries(entries: Vec<Checkpoint>) -> (r: Result<BgzfIndex, FastarError>)
        ensures
            r is Ok <==> ascending(entries@),
            r is Err ==> r == Err::<BgzfIndex, FastarError>(FastarError::MalformedSidecar),
            r matches Ok(ix) ==> ix@ == entries@ && ix.wf(),
    {
        if is_ascending(&entries) {
            Ok(BgzfIndex { entries })
        } else {
            Err(FastarError::MalformedSidecar)
        }
    }

    /// Whether a GZI sidecar's bytes make a checkpoint table.
    pub open spec fn gzi_bytes_ok(b: Seq<u8>) -> bool {
        gzi_table(b) is Some && ascending(gzi_table(b).unwrap())
    }

    /// Parses a GZI sidecar; a file that does not parse, or whose
    /// checkpoints are out of order, is malformed.
    pub fn read(bytes: &[u8]) -> (r: Result<BgzfIndex, FastarError>)
        ensures
            r is Ok <==> BgzfIndex::gzi_bytes_ok(bytes@),
            r is Err ==> r == Err::<BgzfIndex, FastarError>(FastarError::MalformedSidecar),
            r matches Ok(ix) ==> ix@ == gzi_table(bytes@).unwrap() && ix.wf(),
    {
        match read_gzi(bytes) {
            None => Err(FastarError::MalformedSidecar),
            Some(entries) => BgzfIndex::from_entries(entries),
        }
    }

    /// Translates an uncompressed offset into a virtual position, as for the
    /// archived table.
    pub fn query(&self, pos: u64) -> (r: Result<VirtualPosition, FastarError>)
        ensures
            r == locate(self@, pos),
            r matches Ok(v) ==> v.wf(),
    {
        proof {
            use_type_invariant(self);
        }
        locate_in(&self.entries, pos)
    }

    pub fn entries(&self) -> (r: &Vec<Checkpoint>)
        ensures
            r@ == self@,
            ascending(r@),
    {
        proof {
            use_type_invariant(self);
        }
        &self.entries
    }
}

/// The read-only checkpoint table of an opened archive.
#[derive(Debug)]
pub struct ArchivedBgzfIndex {
    entries: Vec<Checkpoint>,
}

impl View for ArchivedBgzfIndex {
    type V = Seq<Checkpoint>;

    closed spec fn view(&self) -> Seq<Checkpoint> {
        self.entries@
    }
}

impl ArchivedBgzfIndex {
    #[verifier::type_invariant]
    spec fn ordered(&self) -> bool {
        ascending(self.entries@)
    }

    pub open spec fn wf(&self) -> bool {
        ascending(self@)
    }

    pub fn from_checked(entries: Vec<Checkpoint>) -> (r: ArchivedBgzfIndex)
        requires
            ascending(entries@),
        ensures
            r@ == entries@,
            r.wf(),
    {
        ArchivedBgzfIndex { entries }
    }

    /// Translates an uncompressed offset into a virtual position: the last
    /// checkpoint at or before `pos` (or the implicit (0, 0)) and the
    /// distance from it.
    pub fn query(&self, pos: u64) -> (r: Result<VirtualPosition, FastarError>)
        ensures
            r == locate(self@, pos),
            r matches Ok(v) ==> v.wf(),
    {
        proof {
            use_type_invariant(self);
        }
        locate_in(&self.entries, pos)
    }
}

} // verus!
