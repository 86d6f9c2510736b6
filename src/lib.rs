//! Random access into block-compressed genomic files through per-file
//! indices gathered into one ordered, checksummed archive.
//!
//! - [`bgzf_index`], [`fasta_index`], [`track_index`]: the per-file indices
//!   that turn a name and a coordinate into a position in a compressed
//!   stream.
//! - [`names`], [`name_map`]: source names derived from paths, and the
//!   ordered map built from the per-source results.
//! - [`fasta_map`], [`track_map`]: the two kinds of map, built and opened.
//! - [`codec`], [`payload`], [`archive`]: the archive's payload format and
//!   its framing by a magic value and a checksum.
//! - [`storage`], [`cache`]: storage handles and the decisions of the cache
//!   loader.

pub mod archive;
pub mod bgzf_index;
pub mod bytes;
pub mod cache;
pub mod codec;
pub mod error;
pub mod fasta_index;
pub mod fasta_map;
pub mod name_map;
pub mod names;
pub mod payload;
pub mod storage;
pub mod track_index;
pub mod track_map;

pub use archive::type_specific_magic;
pub use bgzf_index::{ArchivedBgzfIndex, BgzfIndex, Checkpoint, VirtualPosition};
pub use cache::{CacheVerdict, LoadPlan, MapKind, ReadStep};
pub use error::FastarError;
pub use fasta_index::{ArchivedFastaIndex, FaiRecord, FastaIndex};
pub use fasta_map::{ArchivedFastaEntry, ArchivedFastaMap, FastaEntry, FastaMap};
pub use name_map::{assemble, BuildFailure, NameMap};
pub use names::{get_relative_name_without_suffix, normalize_path_separators};
pub use storage::{ArchiveStorage, DynamicStorage, MemoryStorage, StorageKind};
pub use track_index::{ArchivedTrackIndex, TrackIndex, TrackRecord};
pub use track_map::{ArchivedTrackEntry, ArchivedTrackMap, TrackEntry, TrackMap};
