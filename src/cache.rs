use vstd::prelude::*;

use crate::archive::type_specific_magic;
use crate::error::FastarError;
use crate::fasta_map::FastaMap;
use crate::track_map::TrackMap;
use crate::names::{get_relative_name_without_suffix, relative_name};
use crate::storage::StorageKind;

verus! {

/// The two kinds of name map: FASTA sequences and tracks.
#[derive(Clone, Copy, Debug, PartialEq, Eq, Structural)]
pub enum MapKind {
    Fasta,
    Track,
}

impl MapKind {
    pub open spec fn source(&self) -> Seq<char> {
        match self {
            MapKind::Fasta => ".fna.gz"@,
            MapKind::Track => ".track.gz"@,
        }
    }

    pub open spec fn gzi(&self) -> Seq<char> {
        self.source() + ".gzi"@
    }

    pub open spec fn table(&self) -> Seq<char> {
        match self {
            MapKind::Fasta => ".fna.gz.fai"@,
            MapKind::Track => ".track.gz.idx"@,
        }
    }

    /// Suffix of the compressed source files.
    pub fn source_suffix(&self) -> (r: &'static str)
        ensures
            r@ == self.source(),
    {
        match self {
            MapKind::Fasta => ".fna.gz",
            MapKind::Track => ".track.gz",
        }
    }

    /// Suffix of the checkpoint sidecar of a source.
    pub fn gzi_suffix(&self) -> (r: String)
        ensures
            r@ == self.gzi(),
    {
        let mut s = String::from_str(self.source_suffix());
        s.append(".gzi");
        s
    }

    /// Suffix of the position or offset table sidecar of a source.
    pub fn table_suffix(&self) -> (r: &'static str)
        ensures
            r@ == self.table(),
    {
        match self {
            MapKind::Fasta => ".fna.gz.fai",
            MapKind::Track => ".track.gz.idx",
        }
    }

    pub open spec fn prefix(&self) -> Seq<char> {
        match self {
            MapKind::Fasta => ".fasta-map-cache"@,
            MapKind::Track => ".track-map-cache"@,
        }
    }

    /// First part of the cache file name.
    pub fn cache_prefix(&self) -> (r: &'static str)
        ensures
            r@ == self.prefix(),
    {
        match self {
            MapKind::Fasta => ".fasta-map-cache",
            MapKind::Track => ".track-map-cache",
        }
    }
}

/// The magic value that archives of a kind of map carry: a value fixed by
/// the map type within one build of the program.
pub uninterp spec fn magic_of(kind: MapKind) -> u64;

/// Relies on `type_specific_magic` (std's `TypeId::of` and `DefaultHasher`)
/// for the FASTA map type.
#[verifier::external_body]
fn fasta_magic() -> (r: u64)
    ensures
        r == magic_of(MapKind::Fasta),
{
    type_specific_magic::<FastaMap>()
}

/// Relies on `type_specific_magic` (std's `TypeId::of` and `DefaultHasher`)
/// for the track map type.
#[verifier::external_body]
fn track_magic() -> (r: u64)
    ensures
        r == magic_of(MapKind::Track),
{
    type_specific_magic::<TrackMap>()
}

/// The magic value that archives of a kind of map carry.
pub fn archive_magic(kind: MapKind) -> (r: u64)
    ensures
        r == magic_of(kind),
{
    match kind {
        MapKind::Fasta => fasta_magic(),
        MapKind::Track => track_magic(),
    }
}

/// Parameter combinations that are refused: a lenient map must not be
/// cached, building without a cache is already forced, and a map without a
/// cache file cannot be mapped from one.
pub open spec fn options_refused(
    strict: bool,
    no_cache: bool,
    force_build: bool,
    storage: StorageKind,
) -> bool {
    (!strict && !no_cache) || (no_cache && force_build) || (no_cache && storage
        == StorageKind::Mmap)
}

pub fn check_options(strict: bool, no_cache: bool, force_build: bool, storage: StorageKind) -> (r:
    Result<(), FastarError>)
    ensures
        options_refused(strict, no_cache, force_build, storage) ==> r == Err::<(), FastarError>(
            FastarError::InvalidConfiguration,
        ),
        !options_refused(strict, no_cache, force_build, storage) ==> r is Ok,
{
    if !strict && !no_cache {
        return Err(FastarError::InvalidConfiguration);
    }
    if no_cache && force_build {
        return Err(FastarError::InvalidConfiguration);
    }
    if no_cache && storage == StorageKind::Mmap {
        return Err(FastarError::InvalidConfiguration);
    }
    Ok(())
}

/// The lowercase hexadecimal digits.
pub open spec fn hex_table() -> Seq<char> {
    "0123456789abcdef"@
}

/// The last `n` hexadecimal digits of `x`, most significant first.
pub open spec fn hex_digits(x: nat, n: nat) -> Seq<char>
    decreases n,
{
    if n == 0 {
        Seq::empty()
    } else {
        hex_digits(x / 16, (n - 1) as nat) + seq![hex_table()[(x % 16) as int]]
    }
}

/// `x` as 16 lowercase hexadecimal digits.
pub fn hex16(x: u64) -> (r: String)
    ensures
        r@ == hex_digits(x as nat, 16),
{
    let table = "0123456789abcdef";
    proof {
        reveal_strlit("0123456789abcdef");
    }
    let mut v: u64 = x;
    let mut s = String::new();
    let mut j: usize = 0;
    while j < 16
        invariant
            j <= 16,
            table@ == hex_table(),
            hex_table().len() == 16,
            hex_digits(x as nat, 16) == hex_digits(v as nat, (16 - j) as nat) + s@,
        decreases 16 - j,
    {
        let d = (v % 16) as usize;
        let c = table.substring_char(d, d + 1);
        assert(c@ =~= seq![hex_table()[d as int]]);
        let t = String::from_str(c).concat(s.as_str());
        proof {
            assert(hex_digits(v as nat, (16 - j) as nat) == hex_digits((v / 16) as nat, (
            16 - j - 1) as nat) + seq![hex_table()[(v % 16) as int]]);
        }
        s = t;
        v = v / 16;
        j = j + 1;
        assert(hex_digits(x as nat, 16) =~= hex_digits(v as nat, (16 - j) as nat) + s@);
    }
    assert(hex_digits(v as nat, 0) =~= Seq::<char>::empty());
    assert(s@ =~= hex_digits(x as nat, 16));
    s
}

/// The cache file name of a map: its kind, `-map-cache-`, then the map
/// type's magic value as 16 hexadecimal digits.
pub fn cache_file_name(kind: MapKind, magic: u64) -> (r: String)
    ensures
        r@ == kind.prefix() + "-"@ + hex_digits(magic as nat, 16),
{
    let mut name = String::from_str(kind.cache_prefix());
    name.append("-");
    let hex = hex16(magic);
    name.append(hex.as_str());
    name
}

/// `root`, a separator, `name`, then `suffix`: where a source's file or
/// sidecar lies.
pub fn join_path(root: &str, name: &str, suffix: &str) -> (r: String)
    ensures
        r@ == root@ + "/"@ + name@ + suffix@,
{
    let mut p = String::from_str(root);
    p.append("/");
    p.append(name);
    p.append(suffix);
    p
}

/// The names of the sources found at `paths` under `root`; the first path
/// that yields no name fails the whole list.
pub fn derive_names(paths: &Vec<String>, root: &str, suffix: &str) -> (r: Result<
    Vec<String>,
    FastarError,
>)
    ensures
        (forall|i: int| 0 <= i < paths@.len() ==> relative_name(paths@[i]@, root@, suffix@) is Some)
            ==> (r matches Ok(v) && v@.len() == paths@.len() && forall|i: int|
            0 <= i < v@.len() ==> v@[i]@ == relative_name(paths@[i]@, root@, suffix@).unwrap()),
        (exists|i: int|
            0 <= i < paths@.len() && relative_name(paths@[i]@, root@, suffix@) is None) ==> r
            == Err::<Vec<String>, FastarError>(FastarError::InvalidPath),
{
    let mut out: Vec<String> = Vec::new();
    let mut i: usize = 0;
    while i < paths.len()
        invariant
            i <= paths@.len(),
            out@.len() == i,
            forall|j: int|
                0 <= j < i ==> (#[trigger] relative_name(paths@[j]@, root@, suffix@)) is Some,
            forall|j: int|
                0 <= j < i ==> (#[trigger] out@[j])@ == relative_name(paths@[j]@, root@, suffix@).unwrap(),
        decreases paths@.len() - i,
    {
        match get_relative_name_without_suffix(paths[i].as_str(), root, suffix) {
            Ok(name) => {
                out.push(name);
                assert(out@[i as int]@ == relative_name(paths@[i as int]@, root@, suffix@).unwrap());
            },
            Err(e) => {
                proof {
                    assert(relative_name(paths@[i as int]@, root@, suffix@) is None);
                }
                return Err(e);
            },
        }
        i = i + 1;
    }
    Ok(out)
}

/// What a load does first, given its options and whether the cache file is
/// there.
#[derive(Clone, Copy, Debug, PartialEq, Eq, Structural)]
pub enum LoadPlan {
    /// Build the map and keep its archive in memory only.
    BuildInMemory,
    /// Open the cache file and check it.
    ReadCache,
    /// Build the map and write the cache file.
    BuildAndWrite,
}

pub open spec fn load_plan(no_cache: bool, force_build: bool, cache_exists: bool) -> LoadPlan {
    if no_cache {
        LoadPlan::BuildInMemory
    } else if cache_exists && !force_build {
        LoadPlan::ReadCache
    } else {
        LoadPlan::BuildAndWrite
    }
}

pub fn plan_load(no_cache: bool, force_build: bool, cache_exists: bool) -> (r: LoadPlan)
    ensures
        r == load_plan(no_cache, force_build, cache_exists),
{
    if no_cache {
        LoadPlan::BuildInMemory
    } else if cache_exists && !force_build {
        LoadPlan::ReadCache
    } else {
        LoadPlan::BuildAndWrite
    }
}

/// What was found of an existing cache.
#[derive(Clone, Copy, Debug, PartialEq, Eq, Structural)]
pub enum CacheVerdict {
    /// The cache is sound and names the sources found now: use it.
    Reuse,
    /// The cache failed its magic or checksum check: rebuild.
    Corrupted,
    /// The cache is sound but names other sources than are found now:
    /// rebuild.
    Stale,
}

pub open spec fn name_set(s: Seq<String>) -> Set<Seq<char>> {
    s.map_values(|x: String| x@).to_set()
}

/// The decision on a cache: `None` when it did not open.
pub open spec fn cache_verdict(cached: Option<Set<Seq<char>>>, expected: Set<Seq<char>>) -> CacheVerdict {
    match cached {
        None => CacheVerdict::Corrupted,
        Some(c) => if c == expected {
            CacheVerdict::Reuse
        } else {
            CacheVerdict::Stale
        },
    }
}

fn contains_name(v: &Vec<String>, x: &String) -> (r: bool)
    ensures
        r == name_set(v@).contains(x@),
{
    let ghost s = v@.map_values(|y: String| y@);
    let mut i: usize = 0;
    while i < v.len()
        invariant
            i <= v@.len(),
            s == v@.map_values(|y: String| y@),
            forall|j: int| 0 <= j < i ==> s[j] != x@,
        decreases v@.len() - i,
    {
        if v[i] == *x {
            assert(s[i as int] == x@);
            return true;
        }
        i = i + 1;
    }
    false
}

fn all_contained(a: &Vec<String>, b: &Vec<String>) -> (r: bool)
    ensures
        r == name_set(a@).subset_of(name_set(b@)),
{
    let ghost s = a@.map_values(|y: String| y@);
    let mut i: usize = 0;
    while i < a.len()
        invariant
            i <= a@.len(),
            s == a@.map_values(|y: String| y@),
            forall|j: int| 0 <= j < i ==> name_set(b@).contains(#[trigger] s[j]),
        decreases a@.len() - i,
    {
        if !contains_name(b, &a[i]) {
            assert(name_set(a@).contains(s[i as int]));
            return false;
        }
        i = i + 1;
    }
    assert forall|x: Seq<char>| name_set(a@).contains(x) implies name_set(b@).contains(x) by {
        let j = choose|j: int| 0 <= j < s.len() && s[j] == x;
    }
    true
}

/// Whether two lists name the same sources, in any order and with any
/// repeats.
pub fn same_name_set(a: &Vec<String>, b: &Vec<String>) -> (r: bool)
    ensures
        r == (name_set(a@) == name_set(b@)),
{
    let r = all_contained(a, b) && all_contained(b, a);
    proof {
        if r {
            assert(name_set(a@) =~= name_set(b@));
        }
    }
    r
}

/// Decides on an existing cache from the names it holds (`None` when it
/// failed its check) and the names of the sources found now.
pub fn judge_cache(cached: Option<&Vec<String>>, expected: &Vec<String>) -> (r: CacheVerdict)
    ensures
        r == cache_verdict(
            match cached {
                None => None,
                Some(c) => Some(name_set(c@)),
            },
            name_set(expected@),
        ),
{
    match cached {
        None => CacheVerdict::Corrupted,
        Some(c) => if same_name_set(c, expected) {
            CacheVerdict::Reuse
        } else {
            CacheVerdict::Stale
        },
    }
}

/// A source that the cache does not name makes the next load rebuild.
pub proof fn lemma_new_source_forces_rebuild(
    cached: Set<Seq<char>>,
    expected: Set<Seq<char>>,
    added: Seq<char>,
)
    requires
        expected.contains(added),
        !cached.contains(added),
    ensures
        cache_verdict(Some(cached), expected) == CacheVerdict::Stale,
{
}

/// One step of reading `want` bytes from a stream that hands out chunks.
#[derive(Clone, Copy, Debug, PartialEq, Eq, Structural)]
pub enum ReadStep {
    /// Take this many bytes of the current chunk.
    Take(usize),
    /// All bytes asked for have been read.
    Done,
    /// The stream ended first.
    Truncated,
}

pub open spec fn read_step(have: usize, want: usize, available: usize) -> ReadStep {
    if have >= want {
        ReadStep::Done
    } else if available == 0 {
        ReadStep::Truncated
    } else if want - have < available {
        ReadStep::Take((want - have) as usize)
    } else {
        ReadStep::Take(available)
    }
}

/// Decides the next step of a read with `have` of `want` bytes read so far
/// and a chunk of `available` bytes at hand.
pub fn next_read_step(have: usize, want: usize, available: usize) -> (r: ReadStep)
    ensures
        r == read_step(have, want, available),
{
    if have >= want {
        ReadStep::Done
    } else if available == 0 {
        ReadStep::Truncated
    } else if want - have < available {
        ReadStep::Take(want - have)
    } else {
        ReadStep::Take(available)
    }
}

} // verus!
