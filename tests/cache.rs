use fastar::cache::{
    archive_magic, cache_file_name, check_options, hex16, join_path, judge_cache, next_read_step, plan_load,
};
use fastar::storage::{format_handle, parse_handle, parse_storage_method};
use fastar::{
    type_specific_magic, ArchiveStorage, FastaMap, TrackMap, CacheVerdict, DynamicStorage, FastarError, LoadPlan, MapKind, MemoryStorage,
    ReadStep, StorageKind,
};

#[test]
fn contradictory_options_are_refused() {
    let (memory, shmem, mmap) = (StorageKind::Memory, StorageKind::Shmem, StorageKind::Mmap);
    assert_eq!(check_options(true, true, true, memory), Err(FastarError::InvalidConfiguration));
    assert_eq!(check_options(false, false, false, memory), Err(FastarError::InvalidConfiguration));
    assert_eq!(check_options(true, true, false, mmap), Err(FastarError::InvalidConfiguration));
    assert_eq!(check_options(false, true, false, shmem), Ok(()));
    assert_eq!(check_options(true, false, true, mmap), Ok(()));
    assert_eq!(check_options(true, false, false, memory), Ok(()));
}

#[test]
fn cache_file_names() {
    assert_eq!(cache_file_name(MapKind::Fasta, 0x1234), ".fasta-map-cache-0000000000001234".to_string());
    assert_eq!(cache_file_name(MapKind::Track, u64::MAX), ".track-map-cache-ffffffffffffffff".to_string());
    assert_eq!(hex16(0xdeadbeef00c0ffee), "deadbeef00c0ffee".to_string());
}

#[test]
fn load_plans() {
    assert_eq!(plan_load(true, false, true), LoadPlan::BuildInMemory);
    assert_eq!(plan_load(false, false, true), LoadPlan::ReadCache);
    assert_eq!(plan_load(false, true, true), LoadPlan::BuildAndWrite);
    assert_eq!(plan_load(false, false, false), LoadPlan::BuildAndWrite);
}

#[test]
fn new_source_file_makes_the_cache_stale() {
    let cached = vec!["a".to_string(), "b".to_string()];
    let now = vec!["b".to_string(), "a".to_string(), "c".to_string()];
    assert_eq!(judge_cache(Some(&cached), &now), CacheVerdict::Stale);
    let same = vec!["b".to_string(), "a".to_string(), "a".to_string()];
    assert_eq!(judge_cache(Some(&cached), &same), CacheVerdict::Reuse);
    let fewer = vec!["a".to_string()];
    assert_eq!(judge_cache(Some(&cached), &fewer), CacheVerdict::Stale);
    assert_eq!(judge_cache(None, &now), CacheVerdict::Corrupted);
}

#[test]
fn read_steps() {
    assert_eq!(next_read_step(0, 10, 4), ReadStep::Take(4));
    assert_eq!(next_read_step(8, 10, 4), ReadStep::Take(2));
    assert_eq!(next_read_step(10, 10, 4), ReadStep::Done);
    assert_eq!(next_read_step(3, 10, 0), ReadStep::Truncated);
    assert_eq!(next_read_step(0, 0, 0), ReadStep::Done);
}

#[test]
fn paths_of_sources_and_sidecars() {
    assert_eq!(join_path("root", "sub/chr1", MapKind::Fasta.source_suffix()), "root/sub/chr1.fna.gz".to_string());
    assert_eq!(join_path("root", "t", MapKind::Track.table_suffix()), "root/t.track.gz.idx".to_string());
    assert_eq!(MapKind::Fasta.gzi_suffix(), ".fna.gz.gzi".to_string());
    assert_eq!(MapKind::Track.gzi_suffix(), ".track.gz.gzi".to_string());
}

#[test]
fn storage_methods() {
    assert_eq!(parse_storage_method("memory"), Ok(StorageKind::Memory));
    assert_eq!(parse_storage_method("shmem"), Ok(StorageKind::Shmem));
    assert_eq!(parse_storage_method("mmap"), Ok(StorageKind::Mmap));
    assert_eq!(parse_storage_method("disk"), Err(FastarError::InvalidConfiguration));
}

#[test]
fn handles() {
    assert_eq!(format_handle(StorageKind::Shmem, "/shmem_1"), Some("Shmem:/shmem_1".to_string()));
    assert_eq!(format_handle(StorageKind::Mmap, "/tmp/c"), Some("Mmap:/tmp/c".to_string()));
    assert_eq!(format_handle(StorageKind::Memory, "x"), None);
    assert_eq!(parse_handle("Mmap:/tmp/a:b"), Ok((StorageKind::Mmap, "/tmp/a:b".to_string())));
    assert_eq!(parse_handle("Shmem:"), Ok((StorageKind::Shmem, String::new())));
    assert_eq!(parse_handle("Memory:x"), Err(FastarError::InvalidConfiguration));
    assert_eq!(parse_handle("no-colon"), Err(FastarError::InvalidConfiguration));
}

#[test]
fn memory_storage_has_no_shareable_id() {
    let archive = ArchiveStorage::new(MemoryStorage::load(vec![1, 2, 3]), None, 7u32);
    assert_eq!(archive.get_id(), None);
    assert_eq!(archive.storage_ref().as_ref(), &[1, 2, 3]);
    let dynamic = DynamicStorage::new(StorageKind::Memory, archive);
    assert_eq!(dynamic.get_id(), None);
    assert_eq!(*dynamic.as_ref(), 7);
    let shared = DynamicStorage::new(
        StorageKind::Shmem,
        ArchiveStorage::new(MemoryStorage::new(4), Some("/seg".to_string()), 0u32),
    );
    assert_eq!(shared.get_id(), Some("Shmem:/seg".to_string()));
    assert_eq!(shared.archive_storage().storage_ref().len(), 4);
}

#[test]
fn archive_magic_is_the_map_type_magic() {
    assert_eq!(archive_magic(MapKind::Fasta), type_specific_magic::<FastaMap>());
    assert_eq!(archive_magic(MapKind::Track), type_specific_magic::<TrackMap>());
}
