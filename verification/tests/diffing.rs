use backpak::diff::{self, EventKind};
use backpak::hashing::ObjectId;
use backpak::tree::{meta_diff_char, Forest, Metadata, Node, NodeContents, Tree};

fn id(s: &str) -> ObjectId {
    ObjectId::parse(s).unwrap()
}

fn meta(mtime: i64) -> Metadata {
    Metadata { uid: 1, gid: 1, mode: 0o644, modify_time: mtime, access_time: 0, extra: 0 }
}

fn file(blob: &str, mtime: i64) -> Node {
    Node { metadata: meta(mtime), contents: NodeContents::File { chunks: vec![id(blob)] } }
}

fn dir(subtree: &str, mtime: i64) -> Node {
    Node { metadata: meta(mtime), contents: NodeContents::Directory { subtree: id(subtree) } }
}

#[test]
fn diff_add_remove_content_metadata() {
    // Tree A: { foo.txt -> blob X, dir/ -> subtree s1 with { bar.txt -> blob Y } }
    // Tree B: { foo.txt -> blob X2 (content changed), dir/ -> subtree s2
    //           with { bar.txt -> blob Y, baz.txt -> blob Z } and changed metadata }
    let mut forest_a = Forest::new();
    let mut sub_a = Tree::new();
    sub_a.insert("bar.txt", file("blobyy", 1));
    forest_a.insert(id("subaa"), sub_a).unwrap();
    let mut root_a = Tree::new();
    root_a.insert("foo.txt", file("blobxx", 1));
    root_a.insert("dir", dir("subaa", 1));
    forest_a.insert(id("rootaa"), root_a).unwrap();

    let mut forest_b = Forest::new();
    let mut sub_b = Tree::new();
    sub_b.insert("bar.txt", file("blobyy", 1));
    sub_b.insert("baz.txt", file("blobzz", 1));
    forest_b.insert(id("subbb"), sub_b).unwrap();
    let mut root_b = Tree::new();
    root_b.insert("foo.txt", file("blobx2", 1));
    root_b.insert("dir", dir("subbb", 2));
    forest_b.insert(id("rootbb"), root_b).unwrap();

    let mut rec = diff::DiffRecorder::new();
    diff::compare_trees(&id("rootaa"), &forest_a, &id("rootbb"), &forest_b, "", &mut rec)
        .unwrap();
    let log = rec.recorded();
    // Sorted key order, recursing into the directory first, its metadata
    // change second, then the file's content change.
    assert_eq!(log.len(), 4);
    assert!(log[0].is_kind_at(EventKind::NothingChanged, "dir/bar.txt"));
    assert!(log[1].is_kind_at(EventKind::Added, "dir/baz.txt"));
    assert!(log[2].is_kind_at(EventKind::MetadataChanged, "dir"));
    assert!(log[3].is_kind_at(EventKind::ContentsChanged, "foo.txt"));
}

#[test]
fn diff_reflexive_emits_only_nothing() {
    let mut forest = Forest::new();
    let mut sub = Tree::new();
    sub.insert("a.txt", file("bloba", 1));
    forest.insert(id("subxx"), sub).unwrap();
    let mut root = Tree::new();
    root.insert("d", dir("subxx", 1));
    root.insert("z.txt", file("blobz", 3));
    forest.insert(id("rootxx"), root).unwrap();

    let mut rec = diff::DiffRecorder::new();
    diff::compare_trees(&id("rootxx"), &forest, &id("rootxx"), &forest, "", &mut rec).unwrap();
    for e in rec.recorded() {
        assert!(matches!(e.kind, EventKind::NothingChanged));
    }
    assert_eq!(rec.recorded().len(), 2);
}

#[test]
fn diff_symmetric_in_structure() {
    let mut forest_a = Forest::new();
    let mut root_a = Tree::new();
    root_a.insert("only_a.txt", file("bloba", 1));
    root_a.insert("shared.txt", file("blobs", 1));
    forest_a.insert(id("roota"), root_a).unwrap();

    let mut forest_b = Forest::new();
    let mut root_b = Tree::new();
    root_b.insert("only_b.txt", file("blobb", 1));
    root_b.insert("shared.txt", file("blobs", 2));
    forest_b.insert(id("rootb"), root_b).unwrap();

    let mut fwd = diff::DiffRecorder::new();
    diff::compare_trees(&id("roota"), &forest_a, &id("rootb"), &forest_b, "", &mut fwd).unwrap();
    let mut rev = diff::DiffRecorder::new();
    diff::compare_trees(&id("rootb"), &forest_b, &id("roota"), &forest_a, "", &mut rev).unwrap();

    let f = fwd.recorded();
    let r = rev.recorded();
    assert_eq!(f.len(), r.len());
    for (a, b) in f.iter().zip(r.iter()) {
        assert_eq!(a.path, b.path);
        let flipped = match a.kind {
            EventKind::Added => EventKind::Removed,
            EventKind::Removed => EventKind::Added,
            other => other,
        };
        assert!(matches!(
            (&flipped, &b.kind),
            (EventKind::Added, EventKind::Added)
                | (EventKind::Removed, EventKind::Removed)
                | (EventKind::ContentsChanged, EventKind::ContentsChanged)
                | (EventKind::MetadataChanged, EventKind::MetadataChanged)
                | (EventKind::NothingChanged, EventKind::NothingChanged)
        ));
    }
}

#[test]
fn null_forest_holds_empty_tree() {
    let (nid, forest) = diff::null_forest();
    let tree = forest.get(&nid).unwrap();
    assert_eq!(tree.len(), 0);
}

fn symlink(target: &str, mtime: i64) -> Node {
    Node {
        metadata: meta(mtime),
        contents: NodeContents::Symlink { target: target.to_string() },
    }
}

#[test]
fn type_change_decomposes_to_remove_and_add() {
    let mut forest_a = Forest::new();
    let mut root_a = Tree::new();
    root_a.insert("thing", file("blobx", 1));
    forest_a.insert(id("roota"), root_a).unwrap();

    let mut forest_b = Forest::new();
    let mut root_b = Tree::new();
    root_b.insert("thing", symlink("elsewhere", 1));
    forest_b.insert(id("rootb"), root_b).unwrap();

    let mut rec = diff::DiffRecorder::new();
    diff::compare_trees(&id("roota"), &forest_a, &id("rootb"), &forest_b, "", &mut rec)
        .unwrap();
    let log = rec.recorded();
    assert_eq!(log.len(), 2);
    assert!(log[0].is_kind_at(EventKind::Removed, "thing"));
    assert!(log[1].is_kind_at(EventKind::Added, "thing"));
}

#[test]
fn print_diffs_renders_markers() {
    let mut forest_a = Forest::new();
    let mut root_a = Tree::new();
    root_a.insert("gone.txt", file("bloba", 1));
    root_a.insert("link", symlink("old-target", 1));
    root_a.insert("meta.txt", file("blobm", 1));
    root_a.insert("same.txt", file("blobs", 1));
    forest_a.insert(id("roota"), root_a).unwrap();

    let mut forest_b = Forest::new();
    let mut root_b = Tree::new();
    root_b.insert("link", symlink("new-target", 1));
    root_b.insert("meta.txt", file("blobm", 9));
    root_b.insert("new.txt", file("blobn", 1));
    root_b.insert("same.txt", file("blobs", 1));
    forest_b.insert(id("rootb"), root_b).unwrap();

    let mut pd = diff::PrintDiffs::new(true);
    diff::compare_trees(&id("roota"), &forest_a, &id("rootb"), &forest_b, "", &mut pd)
        .unwrap();
    let lines = pd.lines();
    assert_eq!(
        lines,
        vec![
            "- gone.txt".to_string(),
            "- link -> old-target".to_string(),
            "+ link -> new-target".to_string(),
            "T meta.txt".to_string(),
            "+ new.txt".to_string(),
        ]
    );

    // With metadata printing off, the time-change line is left out.
    let mut quiet = diff::PrintDiffs::default();
    assert!(!quiet.metadata);
    diff::compare_trees(&id("roota"), &forest_a, &id("rootb"), &forest_b, "", &mut quiet)
        .unwrap();
    assert_eq!(quiet.lines().len(), 4);
}

#[test]
fn meta_diff_categories_in_order() {
    let base = meta(5);
    assert_eq!(meta_diff_char(&base, &base), None);
    let mut m = base;
    m.extra = 7;
    assert_eq!(meta_diff_char(&base, &m), Some('M'));
    m.access_time = 8;
    assert_eq!(meta_diff_char(&base, &m), Some('A'));
    m.modify_time = 9;
    assert_eq!(meta_diff_char(&base, &m), Some('T'));
    m.mode = 0o755;
    assert_eq!(meta_diff_char(&base, &m), Some('P'));
    m.uid = 2;
    assert_eq!(meta_diff_char(&base, &m), Some('O'));
}
