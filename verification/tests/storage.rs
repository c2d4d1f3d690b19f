use backpak::backend::{self, CachedBackend, CacheBehavior, SeekableRead, TempFile};
use backpak::cache::Cache;
use backpak::error::Error;
use backpak::fs::FilesystemBackend;
use backpak::hashing::ObjectId;

fn id(s: &str) -> ObjectId {
    ObjectId::parse(s).unwrap()
}

#[test]
fn direct_fs_write_read() {
    // Filesystem, no filter, no forced cache: direct mode.
    let fs = FilesystemBackend::open("/repo");
    let mut b: CachedBackend<backpak::memory::MemoryBackend> = CachedBackend::open_direct(fs);
    let bytes: Vec<u8> = (0u8..17u8).collect();
    b.write("aaaa.pack", TempFile::new(bytes.clone())).unwrap();
    let listing = b.list_packs().unwrap();
    assert_eq!(listing.len(), 1);
    assert_eq!(listing[0].0, "packs/aaaa.pack");
    assert_eq!(listing[0].1, 17);
    let mut c = b.read_pack(&id("aaaa")).unwrap();
    assert_eq!(c.read_to_end(), bytes);
    assert_eq!(b.bytes_uploaded(), 17);
    assert_eq!(b.bytes_downloaded(), 17);
}

#[test]
fn write_through_cache_hit() {
    let fs = FilesystemBackend::open("/repo");
    let cache = Cache::setup(1 << 20);
    let mut b = CachedBackend::open_cached(fs, cache, CacheBehavior::Normal);
    let bytes: Vec<u8> = vec![7u8; 100];
    b.write("bbbb.index", TempFile::new(bytes.clone())).unwrap();
    let mut c1 = b.read_index(&id("bbbb")).unwrap();
    assert_eq!(c1.read_to_end(), bytes);
    let mut c2 = b.read_index(&id("bbbb")).unwrap();
    assert_eq!(c2.read_to_end(), bytes);
    assert_eq!(b.bytes_downloaded(), 0);
    let names: Vec<String> = b.list_indexes().unwrap().into_iter().map(|p| p.0).collect();
    assert!(names.contains(&"indexes/bbbb.index".to_string()));
}

#[test]
fn always_read_bypasses_cache() {
    let fs = FilesystemBackend::open("/repo");
    let cache = Cache::setup(1 << 20);
    let mut b = CachedBackend::open_cached(fs, cache, CacheBehavior::AlwaysRead);
    b.write("bbbb.index", TempFile::new(vec![7u8; 100])).unwrap();
    let mut c1 = b.read_index(&id("bbbb")).unwrap();
    let _ = c1.read_to_end();
    let mut c2 = b.read_index(&id("bbbb")).unwrap();
    let _ = c2.read_to_end();
    assert_eq!(b.bytes_downloaded(), 200);
}

#[test]
fn remove_evicts_and_deletes() {
    let fs = FilesystemBackend::open("/repo");
    let cache = Cache::setup(1 << 20);
    let mut b = CachedBackend::open_cached(fs, cache, CacheBehavior::Normal);
    b.write("cccc.snapshot", TempFile::new(vec![1, 2, 3])).unwrap();
    let _ = b.read_snapshot(&id("cccc")).unwrap();
    b.remove_snapshot(&id("cccc")).unwrap();
    match b.read_snapshot(&id("cccc")) {
        Err(Error::NotFound) => {}
        _ => panic!("expected NotFound after remove"),
    }
}

#[test]
fn in_memory_round_trip() {
    let mut b = backend::in_memory();
    b.write("dddd.pack", TempFile::new(vec![9u8; 5])).unwrap();
    let mut c = b.read_pack(&id("dddd")).unwrap();
    assert_eq!(c.read_to_end(), vec![9u8; 5]);
    assert_eq!(b.bytes_uploaded(), 5);
}

#[test]
fn probe_pack_counts() {
    let packs = vec![("packs/eeee.pack".to_string(), 4u64)];
    assert!(backend::probe_pack(&packs, &id("eeee")).is_ok());
    assert!(matches!(
        backend::probe_pack(&packs, &id("ffff")),
        Err(Error::NotFound)
    ));
    let dup = vec![
        ("packs/eeee.pack".to_string(), 4u64),
        ("packs/eeee.pack".to_string(), 4u64),
    ];
    assert!(matches!(
        backend::probe_pack(&dup, &id("eeee")),
        Err(Error::Fatal)
    ));
}

#[test]
fn destination_reshapes_names() {
    assert_eq!(backend::destination("abc.pack"), "packs/abc.pack");
    assert_eq!(backend::destination("abc.index"), "indexes/abc.index");
    assert_eq!(backend::destination("abc.snapshot"), "snapshots/abc.snapshot");
}

#[test]
fn id_from_path_reads_stem() {
    let got = backend::id_from_path("packs/abcd.pack").unwrap();
    assert_eq!(got.to_string(), "abcd");
    assert!(backend::id_from_path("packs/.pack").is_err());
}

#[test]
fn pruning_evicts_least_recently_used() {
    // Budget of 10 bytes: writing a second 8-byte object evicts the
    // first from the cache, so reading the first again refetches it.
    let fs = FilesystemBackend::open("/repo");
    let cache = Cache::setup(10);
    let mut b = CachedBackend::open_cached(fs, cache, CacheBehavior::Normal);
    b.write("aaaa.pack", TempFile::new(vec![1u8; 8])).unwrap();
    b.write("bbbb.pack", TempFile::new(vec![2u8; 8])).unwrap();
    assert_eq!(b.bytes_downloaded(), 0);
    let _ = b.read_pack(&id("bbbb")).unwrap();
    assert_eq!(b.bytes_downloaded(), 0); // still cached
    let _ = b.read_pack(&id("aaaa")).unwrap();
    assert_eq!(b.bytes_downloaded(), 8); // evicted, so fetched again
}

#[test]
fn counters_never_decrease() {
    let mut b = backend::in_memory();
    let mut last_up = 0u64;
    let mut last_down = 0u64;
    for name in ["aaaa.pack", "bbbb.index", "cccc.snapshot"] {
        b.write(name, TempFile::new(vec![3u8; 9])).unwrap();
        assert!(b.bytes_uploaded() >= last_up);
        assert!(b.bytes_downloaded() >= last_down);
        last_up = b.bytes_uploaded();
        last_down = b.bytes_downloaded();
    }
    let _ = b.read_pack(&id("aaaa")).unwrap();
    let _ = b.remove_index(&id("bbbb")).unwrap();
    assert!(b.bytes_uploaded() >= last_up);
    assert!(b.bytes_downloaded() >= last_down);
    assert_eq!(b.bytes_uploaded(), 27);
}
