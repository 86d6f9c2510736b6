use vstd::prelude::*;

use crate::error::FastarError;

verus! {

/// Where an archive's bytes live.
#[derive(Clone, Copy, Debug, PartialEq, Eq, Structural)]
pub enum StorageKind {
    /// A private buffer of this process.
    Memory,
    /// An operating-system shared memory segment.
    Shmem,
    /// The cache file, mapped into memory.
    Mmap,
}

/// Whether two strings hold the same characters.
pub fn same_text(a: &str, b: &str) -> (r: bool)
    ensures
        r == (a@ == b@),
{
    proof {
        vstd::utf8::encode_utf8_decode_utf8(a@);
        vstd::utf8::encode_utf8_decode_utf8(b@);
    }
    crate::bytes::bytes_equal(a.as_bytes(), b.as_bytes())
}

/// The storage method a configuration names: `memory`, `shmem` or `mmap`.
pub open spec fn storage_method(s: Seq<char>) -> Result<StorageKind, FastarError> {
    if s == "memory"@ {
        Ok(StorageKind::Memory)
    } else if s == "shmem"@ {
        Ok(StorageKind::Shmem)
    } else if s == "mmap"@ {
        Ok(StorageKind::Mmap)
    } else {
        Err(FastarError::InvalidConfiguration)
    }
}

pub fn parse_storage_method(s: &str) -> (r: Result<StorageKind, FastarError>)
    ensures
        r == storage_method(s@),
{
    if same_text(s, "memory") {
        Ok(StorageKind::Memory)
    } else if same_text(s, "shmem") {
        Ok(StorageKind::Shmem)
    } else if same_text(s, "mmap") {
        Ok(StorageKind::Mmap)
    } else {
        Err(FastarError::InvalidConfiguration)
    }
}

/// The prefix that names a shareable kind of storage in a handle.
pub open spec fn kind_tag(kind: StorageKind) -> Seq<char> {
    match kind {
        StorageKind::Memory => "Memory"@,
        StorageKind::Shmem => "Shmem"@,
        StorageKind::Mmap => "Mmap"@,
    }
}

/// The handle by which another process attaches to the same bytes: the
/// kind, a colon, then the backend's identifier. Private memory has none.
pub open spec fn handle_of(kind: StorageKind, id: Seq<char>) -> Option<Seq<char>> {
    match kind {
        StorageKind::Memory => None,
        _ => Some(kind_tag(kind) + seq![':'] + id),
    }
}

/// Index of the first `c` in `s`, or -1.
pub open spec fn first_char(s: Seq<char>, c: char) -> int
    decreases s.len(),
{
    if s.len() == 0 {
        -1
    } else if s[0] == c {
        0
    } else {
        let k = first_char(s.drop_first(), c);
        if k < 0 {
            -1
        } else {
            k + 1
        }
    }
}

proof fn lemma_first_char(s: Seq<char>, c: char, k: int)
    requires
        0 <= k <= s.len(),
        forall|j: int| 0 <= j < k ==> s[j] != c,
    ensures
        k < s.len() && s[k] == c ==> first_char(s, c) == k,
        k == s.len() ==> first_char(s, c) == -1,
    decreases k,
{
    if k > 0 {
        lemma_first_char(s.drop_first(), c, k - 1);
    }
}

/// What a handle names: the kind before its first colon and the identifier
/// after it. A handle without a colon, or with a kind other than `Shmem`
/// or `Mmap`, is refused.
pub open spec fn parsed_handle(h: Seq<char>) -> Result<(StorageKind, Seq<char>), FastarError> {
    let k = first_char(h, ':');
    if k < 0 {
        Err(FastarError::InvalidConfiguration)
    } else {
        let tag = h.subrange(0, k);
        let id = h.subrange(k + 1, h.len() as int);
        if tag == "Shmem"@ {
            Ok((StorageKind::Shmem, id))
        } else if tag == "Mmap"@ {
            Ok((StorageKind::Mmap, id))
        } else {
            Err(FastarError::InvalidConfiguration)
        }
    }
}

/// Formats the handle of a backend of kind `kind` whose identifier is `id`.
pub fn format_handle(kind: StorageKind, id: &str) -> (r: Option<String>)
    ensures
        (match handle_of(kind, id@) {
            None => r is None,
            Some(h) => r matches Some(s) && s@ == h,
        }),
{
    proof {
        reveal_strlit(":");
    }
    let tag = match kind {
        StorageKind::Memory => return None,
        StorageKind::Shmem => "Shmem",
        StorageKind::Mmap => "Mmap",
    };
    let mut h = String::from_str(tag);
    h.append(":");
    h.append(id);
    assert(h@ =~= kind_tag(kind) + seq![':'] + id@);
    Some(h)
}

/// Splits a handle into its kind and identifier, as [`parsed_handle`]
/// states.
pub fn parse_handle(handle: &str) -> (r: Result<(StorageKind, String), FastarError>)
    ensures
        (match parsed_handle(handle@) {
            Err(e) => r matches Err(x) && x == e,
            Ok((kind, id)) => r matches Ok((k, s)) && k == kind && s@ == id,
        }),
{
    let n = handle.unicode_len();
    let mut k: usize = 0;
    while k < n && handle.get_char(k) != ':'
        invariant
            n == handle@.len(),
            k <= n,
            forall|j: int| 0 <= j < k ==> handle@[j] != ':',
        decreases n - k,
    {
        k = k + 1;
    }
    proof {
        lemma_first_char(handle@, ':', k as int);
    }
    if k == n {
        return Err(FastarError::InvalidConfiguration);
    }
    let tag = handle.substring_char(0, k);
    let id = String::from_str(handle.substring_char(k + 1, n));
    if same_text(tag, "Shmem") {
        Ok((StorageKind::Shmem, id))
    } else if same_text(tag, "Mmap") {
        Ok((StorageKind::Mmap, id))
    } else {
        Err(FastarError::InvalidConfiguration)
    }
}

/// A handle made for a shareable backend names that backend again.
pub proof fn lemma_handle_round_trip(kind: StorageKind, id: Seq<char>)
    requires
        kind != StorageKind::Memory,
    ensures
        handle_of(kind, id) is Some,
        parsed_handle(handle_of(kind, id).unwrap()) == Ok::<(StorageKind, Seq<char>), FastarError>(
            (kind, id),
        ),
{
    reveal_strlit("Shmem");
    reveal_strlit("Mmap");
    let h = handle_of(kind, id).unwrap();
    let tag = kind_tag(kind);
    assert forall|j: int| 0 <= j < tag.len() implies h[j] != ':' by {
        assert(h[j] == tag[j]);
    }
    lemma_first_char(h, ':', tag.len() as int);
    assert(h.subrange(0, tag.len() as int) =~= tag);
    assert(h.subrange((tag.len() + 1) as int, h.len() as int) =~= id);
}

/// The bytes of an archive held privately by this process.
#[derive(Debug)]
pub struct MemoryStorage {
    data: Vec<u8>,
}

impl View for MemoryStorage {
    type V = Seq<u8>;

    closed spec fn view(&self) -> Seq<u8> {
        self.data@
    }
}

impl MemoryStorage {
    /// A zeroed buffer of `size` bytes.
    pub fn new(size: usize) -> (r: MemoryStorage)
        ensures
            r@ == Seq::new(size as nat, |i: int| 0u8),
    {
        let mut data: Vec<u8> = Vec::new();
        let mut i: usize = 0;
        while i < size
            invariant
                i <= size,
                data@ == Seq::new(i as nat, |j: int| 0u8),
            decreases size - i,
        {
            data.push(0);
            i = i + 1;
            assert(data@ =~= Seq::new(i as nat, |j: int| 0u8));
        }
        MemoryStorage { data }
    }

    /// Takes bytes already laid out, such as an archive image or the
    /// contents of a cache file.
    pub fn load(data: Vec<u8>) -> (r: MemoryStorage)
        ensures
            r@ == data@,
    {
        MemoryStorage { data }
    }

    pub fn as_ref(&self) -> (r: &[u8])
        ensures
            r@ == self@,
    {
        self.data.as_slice()
    }

    pub fn len(&self) -> (r: usize)
        ensures
            r == self@.len(),
    {
        self.data.len()
    }
}

/// An opened archive together with the storage that holds its bytes and,
/// where the storage is shareable, its identifier.
#[derive(Debug)]
pub struct ArchiveStorage<M, S> {
    storage: S,
    id: Option<String>,
    archive: M,
}

impl<M, S> ArchiveStorage<M, S> {
    pub closed spec fn id(&self) -> Option<Seq<char>> {
        match self.id {
            Some(s) => Some(s@),
            None => None,
        }
    }

    pub closed spec fn archive(&self) -> M {
        self.archive
    }

    pub closed spec fn storage(&self) -> S {
        self.storage
    }

    pub fn new(storage: S, id: Option<String>, archive: M) -> (r: ArchiveStorage<M, S>)
        ensures
            r.storage() == storage,
            r.archive() == archive,
            r.id() == (match id {
                Some(s) => Some(s@),
                None => None::<Seq<char>>,
            }),
    {
        ArchiveStorage { storage, id, archive }
    }

    /// The identifier by which a peer process attaches to the same bytes;
    /// `None` for storage that cannot be shared.
    pub fn get_id(&self) -> (r: Option<String>)
        ensures
            (match self.id() {
                None => r is None,
                Some(i) => r matches Some(s) && s@ == i,
            }),
    {
        match &self.id {
            None => None,
            Some(s) => Some(s.clone()),
        }
    }

    /// The opened archive.
    pub fn as_ref(&self) -> (r: &M)
        ensures
            *r == self.archive(),
    {
        &self.archive
    }

    pub fn storage_ref(&self) -> (r: &S)
        ensures
            *r == self.storage(),
    {
        &self.storage
    }
}

/// An archive in storage chosen at run time.
#[derive(Debug)]
pub struct DynamicStorage<M, S> {
    kind: StorageKind,
    inner: ArchiveStorage<M, S>,
}

impl<M, S> DynamicStorage<M, S> {
    pub closed spec fn kind(&self) -> StorageKind {
        self.kind
    }

    pub closed spec fn inner(&self) -> ArchiveStorage<M, S> {
        self.inner
    }

    pub fn new(kind: StorageKind, inner: ArchiveStorage<M, S>) -> (r: DynamicStorage<M, S>)
        ensures
            r.kind() == kind,
            r.inner() == inner,
    {
        DynamicStorage { kind, inner }
    }

    pub fn storage_kind(&self) -> (r: StorageKind)
        ensures
            r == self.kind(),
    {
        self.kind
    }

    /// The opened archive.
    pub fn as_ref(&self) -> (r: &M)
        ensures
            *r == self.inner().archive(),
    {
        self.inner.as_ref()
    }

    pub fn archive_storage(&self) -> (r: &ArchiveStorage<M, S>)
        ensures
            *r == self.inner(),
    {
        &self.inner
    }

    /// The handle by which a peer process attaches to the same archive:
    /// `None` for private memory, or when the storage has no identifier.
    pub fn get_id(&self) -> (r: Option<String>)
        ensures
            (match self.inner().id() {
                None => r is None,
                Some(i) => match handle_of(self.kind(), i) {
                    None => r is None,
                    Some(h) => r matches Some(s) && s@ == h,
                },
            }),
    {
        match self.inner.get_id() {
            None => None,
            Some(id) => format_handle(self.kind, id.as_str()),
        }
    }
}

} // verus!
