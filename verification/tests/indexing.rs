use backpak::backend::{self, normalize_config, Kind, SeekableRead, TempFile};
use backpak::error::Error;
use backpak::hashing::ObjectId;
use backpak::index::{self, Index, PackMetadata};

fn id(s: &str) -> ObjectId {
    ObjectId::parse(s).unwrap()
}

fn scan_all(
    b: &mut backpak::backend::CachedBackend<backpak::memory::MemoryBackend>,
) -> Vec<PackMetadata> {
    let listing = b.list_packs().unwrap();
    let ids = index::ids_from_listing(&listing).unwrap();
    let mut packs = Vec::new();
    for pack_id in &ids {
        packs.push(index::scan_pack(b, pack_id).unwrap());
    }
    packs
}

#[test]
fn index_codec_round_trips() {
    let idx = Index {
        supersedes: vec![id("oldaa"), id("oldbb")],
        packs: vec![
            PackMetadata { id: id("p1aa"), manifest: vec![id("blob1"), id("blob2")] },
            PackMetadata { id: id("p2aa"), manifest: vec![] },
        ],
    };
    let bytes = index::encode_index(&idx);
    let back = index::decode_index(&bytes).unwrap();
    assert_eq!(back.supersedes.len(), 2);
    assert_eq!(back.supersedes[0].to_string(), "oldaa");
    assert_eq!(back.supersedes[1].to_string(), "oldbb");
    assert_eq!(back.packs.len(), 2);
    assert_eq!(back.packs[0].id.to_string(), "p1aa");
    assert_eq!(back.packs[0].manifest.len(), 2);
    assert_eq!(back.packs[0].manifest[1].to_string(), "blob2");
    assert_eq!(back.packs[1].manifest.len(), 0);
}

#[test]
fn decode_rejects_junk() {
    assert!(matches!(index::decode_index(&vec![1, 2, 3]), Err(Error::Integrity)));
    let idx = Index { supersedes: vec![], packs: vec![] };
    let mut bytes = index::encode_index(&idx);
    bytes.push(0);
    assert!(matches!(index::decode_index(&bytes), Err(Error::Integrity)));
}

#[test]
fn manifest_rides_the_pack_tail() {
    let manifest = vec![id("blob1"), id("blob2"), id("blob3")];
    let sealed = index::seal_pack(vec![0xAB; 100], &manifest);
    let back = index::load_manifest(&sealed).unwrap();
    assert_eq!(back.len(), 3);
    assert_eq!(back[0].to_string(), "blob1");
    assert_eq!(back[2].to_string(), "blob3");
    assert!(matches!(index::load_manifest(&vec![9u8; 4]), Err(Error::Integrity)));
}

#[test]
fn scan_pack_reads_metadata() {
    let mut b = backend::in_memory();
    let manifest = vec![id("blob1")];
    b.write("p1aa.pack", TempFile::new(index::seal_pack(vec![5, 5, 5], &manifest)))
        .unwrap();
    let m = index::scan_pack(&mut b, &id("p1aa")).unwrap();
    assert_eq!(m.id.to_string(), "p1aa");
    assert_eq!(m.manifest.len(), 1);
    assert_eq!(m.manifest[0].to_string(), "blob1");
    assert!(matches!(index::scan_pack(&mut b, &id("nope")), Err(Error::NotFound)));
}

#[test]
fn rebuild_preserves_reachability() {
    let mut b = backend::in_memory();
    let m1 = vec![id("blob1"), id("blob2")];
    let m2 = vec![id("blob3")];
    b.write("p1aa.pack", TempFile::new(index::seal_pack(vec![1, 2, 3], &m1)))
        .unwrap();
    b.write("p2aa.pack", TempFile::new(index::seal_pack(vec![4], &m2)))
        .unwrap();
    let old_idx = Index {
        supersedes: vec![],
        packs: vec![
            PackMetadata { id: id("p1aa"), manifest: m1.clone() },
            PackMetadata { id: id("p2aa"), manifest: m2.clone() },
        ],
    };
    b.write("oldix.index", TempFile::new(index::encode_index(&old_idx)))
        .unwrap();

    // Dry run: a new index covering both packs is constructed in memory,
    // nothing is uploaded, and the old index remains.
    let packs = scan_all(&mut b);
    let built = index::rebuild_index(&mut b, &id("newix"), packs, true).unwrap();
    assert_eq!(built.supersedes.len(), 1);
    assert_eq!(built.supersedes[0].to_string(), "oldix");
    assert_eq!(built.packs.len(), 2);
    let names: Vec<String> = b.list_indexes().unwrap().into_iter().map(|p| p.0).collect();
    assert_eq!(names, vec!["indexes/oldix.index".to_string()]);

    // Live: the new index is written first, then the old one is retired.
    let packs = scan_all(&mut b);
    let built = index::rebuild_index(&mut b, &id("newix"), packs, false).unwrap();
    assert_eq!(built.supersedes[0].to_string(), "oldix");
    let names: Vec<String> = b.list_indexes().unwrap().into_iter().map(|p| p.0).collect();
    assert_eq!(names, vec!["indexes/newix.index".to_string()]);

    // The stored index still covers both packs, which are untouched.
    let mut cursor = b.read_index(&id("newix")).unwrap();
    let stored = index::decode_index(&cursor.read_to_end()).unwrap();
    let covered: Vec<String> = stored.packs.iter().map(|p| p.id.to_string()).collect();
    assert!(covered.contains(&"p1aa".to_string()));
    assert!(covered.contains(&"p2aa".to_string()));
    assert_eq!(b.list_packs().unwrap().len(), 2);
}

#[test]
fn config_filter_must_pair() {
    let r = normalize_config(
        None,
        Kind::Filesystem { force_cache: false },
        Some("zstd".to_string()),
        None,
    );
    assert!(matches!(r, Err(Error::ConfigInvalid)));
    let r = normalize_config(
        Some(1234),
        Kind::Filesystem { force_cache: true },
        Some("zstd".to_string()),
        Some("zstd -d".to_string()),
    )
    .unwrap();
    assert_eq!(r.pack_size, 1234);
    assert_eq!(r.filter, Some(("zstd".to_string(), "zstd -d".to_string())));
    let r = normalize_config(None, Kind::Filesystem { force_cache: false }, None, None).unwrap();
    assert_eq!(r.pack_size, backend::DEFAULT_PACK_SIZE);
    assert!(r.filter.is_none());
}

#[test]
fn routing_picks_direct_only_without_filter_or_forced_cache() {
    assert!(backend::use_direct(&Kind::Filesystem { force_cache: false }, false));
    assert!(!backend::use_direct(&Kind::Filesystem { force_cache: true }, false));
    assert!(!backend::use_direct(&Kind::Filesystem { force_cache: false }, true));
    assert!(!backend::use_direct(
        &Kind::Backblaze {
            key_id: "keyid".to_string(),
            application_key: "appkey".to_string(),
            bucket: "bucket".to_string(),
            concurrent_connections: 4,
        },
        false,
    ));
}
