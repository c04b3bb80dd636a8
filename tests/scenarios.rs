use rustic_archiver::archiver::{Archiver, ArchiverError, FinishedSnapshot};
use rustic_archiver::chunker::{split, ChunkConfig};
use rustic_archiver::id::Id;
use rustic_archiver::node::{Meta, Node, NodeKind, Tree};
use rustic_archiver::parent::{ParentTree, ParentTrees};
use rustic_archiver::store::Index;

const POLY: u64 = 0x3DA3358B4DC173;

fn meta(size: u64, mtime: i64) -> Meta {
    Meta {
        size,
        mtime,
        atime: mtime,
        ctime: mtime,
        mode: 0o644,
        uid: 1000,
        gid: 1000,
        inode: 7,
        user: b"user".to_vec(),
        group: b"group".to_vec(),
    }
}

fn file(name: &[u8], size: u64, mtime: i64) -> Node {
    Node::new(name.to_vec(), NodeKind::File, meta(size, mtime))
}

fn dir(name: &[u8]) -> Node {
    Node::new(name.to_vec(), NodeKind::Dir, meta(0, 1))
}

fn no_parent() -> ParentTrees {
    ParentTrees { trees: Vec::new(), ignore_ctime: false, ignore_inode: false }
}

fn parents_of(snap: FinishedSnapshot) -> (ParentTrees, Id, Index) {
    let FinishedSnapshot { tree, root, index, listings, .. } = snap;
    let mut trees = listings;
    trees.push(ParentTree { id: tree.duplicate(), tree: root });
    (ParentTrees { trees, ignore_ctime: false, ignore_inode: false }, tree, index)
}

/// Feeds one entry, reading the given bytes when the archiver asks for them.
fn feed(a: &mut Archiver, path: &[u8], node: Node, data: &[u8]) {
    match a.add_entry(path, node).unwrap() {
        Some(n) => a.backup_reader(data, n),
        None => {}
    }
}

fn random_bytes(n: usize, seed: u64) -> Vec<u8> {
    let mut x = seed;
    let mut v = Vec::with_capacity(n);
    for _ in 0..n {
        x = x.wrapping_mul(6364136223846793005).wrapping_add(1442695040888963407);
        v.push((x >> 33) as u8);
    }
    v
}

fn single_file_run() -> FinishedSnapshot {
    let mut a = Archiver::new(Index::new(), no_parent(), None, ChunkConfig::with_poly(POLY));
    feed(&mut a, b"a.txt", file(b"a.txt", 6, 100), b"hello\n");
    a.finalize_snapshot()
}

fn blob_data<'a>(snap: &'a FinishedSnapshot, id: &Id) -> &'a [u8] {
    for b in &snap.data_blobs {
        if b.id.same(id) {
            return &b.data;
        }
    }
    panic!("blob not found");
}

#[test]
fn single_file_no_parent() {
    let snap = single_file_run();
    assert_eq!(snap.root.nodes.len(), 1);
    let n = &snap.root.nodes[0];
    assert_eq!(n.name, b"a.txt".to_vec());
    assert!(n.is_file());
    assert_eq!(n.meta.size, 6);
    assert_eq!(n.content.len(), 1);
    assert!(n.content[0].same(&Id::hash(b"hello\n")));
    let s = snap.summary;
    assert_eq!(s.files_new, 1);
    assert_eq!(s.files_changed, 0);
    assert_eq!(s.files_unmodified, 0);
    assert_eq!(s.total_bytes_processed, 6);
    assert_eq!(s.data_blobs, 1);
    assert_eq!(s.data_added_files, 6);
    assert_eq!(s.tree_blobs, 0);
    assert_eq!(snap.tree_blobs.len(), 1);
    assert!(snap.index.has_tree(&snap.tree));
    assert!(snap.index.has_data(&Id::hash(b"hello\n")));
}

#[test]
fn rebackup_with_parent() {
    let first = single_file_run();
    let (parents, root_id, index) = parents_of(first);
    let mut a = Archiver::new(index, parents, Some(root_id.duplicate()), ChunkConfig::with_poly(POLY));
    let r = a.add_entry(b"a.txt", file(b"a.txt", 6, 100)).unwrap();
    assert!(r.is_none());
    let snap = a.finalize_snapshot();
    let s = snap.summary;
    assert_eq!(s.files_unmodified, 1);
    assert_eq!(s.files_new, 0);
    assert_eq!(s.tree_blobs, 0);
    assert_eq!(s.data_blobs, 0);
    assert_eq!(s.data_added_packed, 0);
    assert!(snap.tree.same(&root_id));
    assert!(snap.data_blobs.is_empty());
    assert!(snap.tree_blobs.is_empty());
}

#[test]
fn modify_file() {
    let first = single_file_run();
    let (parents, root_id, index) = parents_of(first);
    let mut a = Archiver::new(index, parents, Some(root_id.duplicate()), ChunkConfig::with_poly(POLY));
    feed(&mut a, b"a.txt", file(b"a.txt", 12, 200), b"hello world\n");
    let snap = a.finalize_snapshot();
    let s = snap.summary;
    assert_eq!(s.files_changed, 1);
    assert_eq!(s.files_unmodified, 0);
    assert!(s.data_blobs >= 1);
    assert_eq!(s.total_bytes_processed, 12);
    assert!(!snap.tree.same(&root_id));
}

fn nested_run(parents: ParentTrees, root: Option<Id>, index: Index) -> FinishedSnapshot {
    let mut a = Archiver::new(index, parents, root, ChunkConfig::with_poly(POLY));
    feed(&mut a, b"dir1/", dir(b"dir1"), b"");
    feed(&mut a, b"dir1/dir2/", dir(b"dir2"), b"");
    feed(&mut a, b"dir1/dir2/f", file(b"f", 0, 5), b"");
    feed(&mut a, b"dir1/g", file(b"g", 0, 5), b"");
    a.finalize_snapshot()
}

#[test]
fn nested_directories_unwind() {
    let snap = nested_run(no_parent(), None, Index::new());
    assert_eq!(snap.root.nodes.len(), 1);
    assert_eq!(snap.root.nodes[0].name, b"dir1".to_vec());
    assert_eq!(snap.listings.len(), 2);
    let dir2 = &snap.listings[0];
    let dir1 = &snap.listings[1];
    assert_eq!(dir2.tree.nodes.len(), 1);
    assert_eq!(dir2.tree.nodes[0].name, b"f".to_vec());
    assert_eq!(dir1.tree.nodes.len(), 2);
    assert_eq!(dir1.tree.nodes[0].name, b"dir2".to_vec());
    assert_eq!(dir1.tree.nodes[1].name, b"g".to_vec());
    assert!(dir1.tree.nodes[0].subtree.as_ref().unwrap().same(&dir2.id));
    assert!(snap.root.nodes[0].subtree.as_ref().unwrap().same(&dir1.id));
    assert!(snap.tree_blobs[0].id.same(&dir2.id));
    assert!(snap.tree_blobs[1].id.same(&dir1.id));
    assert_eq!(snap.summary.dirs_new, 2);
    assert_eq!(snap.summary.files_new, 2);
}

#[test]
fn subtree_id_is_hash_of_child_listing() {
    let snap = nested_run(no_parent(), None, Index::new());
    for l in &snap.listings {
        let (bytes, id) = l.tree.serialize();
        assert!(id.same(&l.id));
        assert!(Id::hash(&bytes).same(&l.id));
    }
    let (bytes, id) = snap.root.serialize();
    assert!(id.same(&snap.tree));
    assert!(Id::hash(&bytes).same(&snap.tree));
}

#[test]
fn stdin_input() {
    let data = random_bytes(100 * 1024, 42);
    let mut a = Archiver::new(Index::new(), no_parent(), None, ChunkConfig::with_poly(POLY));
    a.backup_reader(&data, file(b"stdin", 0, 0));
    let snap = a.finalize_snapshot();
    assert_eq!(snap.root.nodes.len(), 1);
    let n = &snap.root.nodes[0];
    assert_eq!(n.name, b"stdin".to_vec());
    assert!(n.is_file());
    assert!(!n.content.is_empty());
    let mut joined = Vec::new();
    for id in &n.content {
        joined.extend_from_slice(blob_data(&snap, id));
    }
    assert_eq!(joined, data);
    assert_eq!(snap.summary.files_new, 1);
}

#[test]
fn unchanged_file_with_missing_blobs_is_reread() {
    let first = single_file_run();
    let (parents, root_id, _index) = parents_of(first);
    let mut index = Index::new();
    index.insert(rustic_archiver::store::BlobType::Tree, root_id.duplicate());
    let mut a = Archiver::new(index, parents, Some(root_id.duplicate()), ChunkConfig::with_poly(POLY));
    let back = a.add_entry(b"a.txt", file(b"a.txt", 6, 100)).unwrap();
    assert!(back.is_some());
    a.backup_reader(b"hello\n", back.unwrap());
    let snap = a.finalize_snapshot();
    let s = snap.summary;
    assert_eq!(s.files_unmodified + s.files_changed, 1);
    assert_eq!(s.files_new, 0);
    let n = &snap.root.nodes[0];
    assert_eq!(n.content.len(), 1);
    assert!(n.content[0].same(&Id::hash(b"hello\n")));
    assert!(snap.index.has_data(&n.content[0]));
    assert!(snap.index.has_tree(&snap.tree));
}

#[test]
fn empty_file_has_no_chunks() {
    let mut a = Archiver::new(Index::new(), no_parent(), None, ChunkConfig::with_poly(POLY));
    feed(&mut a, b"empty", file(b"empty", 0, 1), b"");
    let snap = a.finalize_snapshot();
    let n = &snap.root.nodes[0];
    assert!(n.content.is_empty());
    assert_eq!(n.meta.size, 0);
    assert_eq!(snap.summary.files_new, 1);
    assert_eq!(snap.summary.data_blobs, 0);
}

#[test]
fn small_input_is_one_chunk() {
    let cfg = ChunkConfig::with_poly(POLY);
    let data = random_bytes(1000, 3);
    let chunks = split(&data, &cfg);
    assert_eq!(chunks.len(), 1);
    assert_eq!(chunks[0], data);
    let exact = random_bytes(512 * 1024, 4);
    assert_eq!(split(&exact, &cfg).len(), 1);
}

#[test]
fn boundaries_forced_at_max() {
    let cfg = ChunkConfig { min_size: 4, max_size: 16, mask: u64::MAX, poly: POLY };
    let data = random_bytes(50, 5);
    let chunks = split(&data, &cfg);
    let lens: Vec<usize> = chunks.iter().map(|c| c.len()).collect();
    assert_eq!(lens, vec![16, 16, 16, 2]);
    assert_eq!(chunks.concat(), data);
}

#[test]
fn content_defined_boundaries() {
    let cfg = ChunkConfig { min_size: 64, max_size: 4096, mask: 0xff, poly: POLY };
    let data = random_bytes(20000, 9);
    let chunks = split(&data, &cfg);
    assert!(chunks.len() > 2);
    assert_eq!(chunks.concat(), data);
    for c in &chunks[..chunks.len() - 1] {
        assert!(c.len() >= 64 && c.len() <= 4096);
    }
    assert_eq!(split(&data, &cfg), chunks);
}

#[test]
fn trailing_slash_is_ignored() {
    let mut a = Archiver::new(Index::new(), no_parent(), None, ChunkConfig::with_poly(POLY));
    a.add_entry(b"/x/y/", dir(b"y")).unwrap();
    let with_slash = a.path.clone();
    let mut b = Archiver::new(Index::new(), no_parent(), None, ChunkConfig::with_poly(POLY));
    b.add_entry(b"/x/y", dir(b"y")).unwrap();
    assert_eq!(with_slash, b.path);
    assert_eq!(b.path, vec![b"x".to_vec(), b"y".to_vec()]);
    assert_eq!(
        rustic_archiver::path::split_path(b"a//b/c/").unwrap(),
        vec![b"a".to_vec(), b"b".to_vec(), b"c".to_vec()]
    );
}

#[test]
fn unicode_names_kept_byte_exact() {
    let name = "grüße-日本.txt".as_bytes().to_vec();
    let mut t = Tree::new();
    t.add(file(&name, 0, 1));
    let (bytes, _) = t.serialize();
    assert!(bytes.windows(name.len()).any(|w| w == name.as_slice()));
    assert_eq!(t.nodes[0].name, name);
}

#[test]
fn duplicate_content_is_not_packed_twice() {
    let mut a = Archiver::new(Index::new(), no_parent(), None, ChunkConfig::with_poly(POLY));
    feed(&mut a, b"one", file(b"one", 6, 1), b"hello\n");
    let packed = a.summary.data_added_packed;
    feed(&mut a, b"two", file(b"two", 6, 1), b"hello\n");
    assert_eq!(a.summary.data_added_packed, packed);
    assert_eq!(a.summary.data_blobs, 1);
    assert_eq!(a.summary.files_new, 2);
    let snap = a.finalize_snapshot();
    assert_eq!(snap.data_blobs.len(), 1);
}

#[test]
fn same_input_gives_same_root() {
    let a = nested_run(no_parent(), None, Index::new());
    let b = nested_run(no_parent(), None, Index::new());
    assert!(a.tree.same(&b.tree));
}

#[test]
fn second_run_with_parent_adds_nothing() {
    let first = nested_run(no_parent(), None, Index::new());
    let (parents, root_id, index) = parents_of(first);
    let snap = nested_run(parents, Some(root_id.duplicate()), index);
    let s = snap.summary;
    assert_eq!(s.files_new, 0);
    assert_eq!(s.files_changed, 0);
    assert_eq!(s.dirs_new, 0);
    assert_eq!(s.dirs_changed, 0);
    assert_eq!(s.dirs_unmodified, 2);
    assert_eq!(s.data_added_packed, 0);
    assert!(snap.tree.same(&root_id));
}

#[test]
fn intake_order_does_not_change_listing() {
    let mut t1 = Tree::new();
    t1.add(file(b"b", 1, 1));
    t1.add(file(b"a", 1, 1));
    t1.add(file(b"c", 1, 1));
    let mut t2 = Tree::new();
    t2.add(file(b"c", 1, 1));
    t2.add(file(b"b", 1, 1));
    t2.add(file(b"a", 1, 1));
    assert!(t1.serialize().1.same(&t2.serialize().1));
    assert_eq!(t1.nodes[0].name, b"a".to_vec());
}

#[test]
fn path_errors() {
    let mut a = Archiver::new(Index::new(), no_parent(), None, ChunkConfig::with_poly(POLY));
    assert_eq!(a.add_entry(b"x/../y", dir(b"y")).unwrap_err(), ArchiverError::BadPath);
    assert_eq!(a.add_entry(b"./", dir(b".")).unwrap_err(), ArchiverError::BadPath);
    assert_eq!(a.add_entry(b"/", file(b"f", 0, 0)).unwrap_err(), ArchiverError::NoParent);
    assert!(a.add_entry(b"/", dir(b"")).unwrap().is_none());
}

#[test]
fn symlink_entry_is_filed_as_is() {
    let mut a = Archiver::new(Index::new(), no_parent(), None, ChunkConfig::with_poly(POLY));
    let link = Node::new(b"l".to_vec(), NodeKind::Symlink { target: b"a.txt".to_vec() }, meta(0, 1));
    assert!(a.add_entry(b"d/l", link).unwrap().is_none());
    assert_eq!(a.summary.total_bytes_processed, 0);
    assert_eq!(a.summary.files_new, 1);
    let snap = a.finalize_snapshot();
    assert_eq!(snap.summary.dirs_new, 1);
}

#[test]
fn hex_rendering_and_parsing() {
    let id = Id::hash(b"");
    let hex = id.to_hex();
    assert_eq!(hex, "e3b0c44298fc1c149afbf4c8996fb92427ae41e4649b934ca495991b7852b855");
    let back = Id::from_hex(&hex.to_uppercase()).unwrap();
    assert!(back.same(&id));
    assert_eq!(Id::from_hex("abc").unwrap_err(), rustic_archiver::id::IdError::NotHex);
    assert_eq!(Id::from_hex("zz").unwrap_err(), rustic_archiver::id::IdError::NotHex);
    assert_eq!(Id::from_hex("abcd").unwrap_err(), rustic_archiver::id::IdError::WrongLength);
    assert!(Id::zero().as_bytes().iter().all(|b| *b == 0));
    assert!(!Id::zero().same(&id));
}

#[test]
fn packer_credits_each_blob_once() {
    let mut p = rustic_archiver::store::Packer::new(rustic_archiver::store::BlobType::Data);
    let id = Id::hash(b"abc");
    assert_eq!(p.add(b"abc", &id), 3);
    assert_eq!(p.add(b"abc", &id), 0);
    assert_eq!(p.blobs.len(), 1);
}

#[test]
fn every_reference_is_indexed() {
    let mut a = Archiver::new(Index::new(), no_parent(), None, ChunkConfig::with_poly(POLY));
    feed(&mut a, b"top/", dir(b"top"), b"");
    feed(&mut a, b"top/x", file(b"x", 6, 1), b"hello\n");
    feed(&mut a, b"top/sub/y", file(b"y", 3, 1), b"abc");
    feed(&mut a, b"z", file(b"z", 0, 1), b"");
    let snap = a.finalize_snapshot();
    assert!(snap.index.has_tree(&snap.tree));
    let mut trees: Vec<&Tree> = snap.listings.iter().map(|l| &l.tree).collect();
    trees.push(&snap.root);
    for t in trees {
        for n in &t.nodes {
            for id in &n.content {
                assert!(snap.index.has_data(id));
            }
            if let Some(s) = &n.subtree {
                assert!(snap.index.has_tree(s));
                assert!(snap.listings.iter().any(|l| l.id.same(s)));
            }
        }
    }
    assert_eq!(snap.summary.dirs_new, 2);
    assert_eq!(snap.summary.files_new, 3);
    assert_eq!(snap.summary.total_bytes_processed, 9);
}

#[test]
fn listing_decodes_to_itself() {
    let snap = nested_run(no_parent(), None, Index::new());
    let (bytes, id) = snap.listings[1].tree.serialize();
    let back = rustic_archiver::decode::decode_tree(&bytes).unwrap();
    assert_eq!(back.nodes.len(), 2);
    assert_eq!(back.nodes[0].name, b"dir2".to_vec());
    assert!(back.nodes[0].subtree.as_ref().unwrap().same(&snap.listings[0].id));
    let (again, id2) = back.serialize();
    assert_eq!(again, bytes);
    assert!(id2.same(&id));
    let mut t = Tree::new();
    let mut n = file("ü/名".as_bytes(), 3, -5);
    n.content.push(Id::hash(b"abc"));
    n.meta.mode = u32::MAX;
    t.add(n);
    t.add(Node::new(b"dev".to_vec(), NodeKind::Chardev { device: 0x0105 }, meta(0, 1)));
    t.add(Node::new(b"ln".to_vec(), NodeKind::Symlink { target: b"../x".to_vec() }, meta(0, 1)));
    let (bytes, _) = t.serialize();
    let back = rustic_archiver::decode::decode_tree(&bytes).unwrap();
    assert_eq!(back.serialize().0, bytes);
    assert_eq!(back.nodes[2].name, "ü/名".as_bytes().to_vec());
    assert_eq!(back.nodes[2].meta.mtime, -5);
}

#[test]
fn malformed_listing_is_refused() {
    assert!(rustic_archiver::decode::decode_tree(b"").is_none());
    assert!(rustic_archiver::decode::decode_tree(&[1, 0, 0, 0, 0, 0, 0, 0]).is_none());
    let mut t = Tree::new();
    t.add(file(b"a", 1, 1));
    let (mut bytes, _) = t.serialize();
    bytes.push(0);
    assert!(rustic_archiver::decode::decode_tree(&bytes).is_none());
    let mut two = Tree::new();
    two.add(file(b"a", 1, 1));
    two.add(file(b"b", 1, 1));
    two.nodes.swap(0, 1);
    let (unsorted, _) = two.serialize();
    assert!(rustic_archiver::decode::decode_tree(&unsorted).is_none());
}

#[test]
fn rabin_fingerprint_is_position_independent() {
    // The same 200 bytes after different prefixes: once past the window and
    // the minimum size, boundaries inside them fall at the same offsets.
    let cfg = ChunkConfig { min_size: 1, max_size: 100000, mask: 0x3f, poly: POLY };
    let body = random_bytes(4000, 11);
    let mut a = random_bytes(300, 12);
    a.extend_from_slice(&body);
    let mut b = random_bytes(777, 13);
    b.extend_from_slice(&body);
    let ends = |d: &Vec<u8>| {
        let mut v = Vec::new();
        let mut pos = 0usize;
        for c in split(d, &cfg) {
            pos += c.len();
            v.push(pos);
        }
        v
    };
    let ea: Vec<usize> = ends(&a).into_iter().filter(|e| *e >= 300 + 1000).map(|e| e - 300).collect();
    let eb: Vec<usize> = ends(&b).into_iter().filter(|e| *e >= 777 + 1000).map(|e| e - 777).collect();
    assert!(!ea.is_empty());
    assert_eq!(ea, eb);
}

#[test]
fn finalize_files_open_directories() {
    let mut a = Archiver::new(Index::new(), no_parent(), None, ChunkConfig::with_poly(POLY));
    feed(&mut a, b"d/", dir(b"d"), b"");
    feed(&mut a, b"d/e/x", file(b"x", 3, 1), b"abc");
    let before_dirs = a.summary.total_dirs_processed;
    let snap = a.finalize_snapshot();
    assert_eq!(snap.summary.total_dirs_processed, before_dirs + 2);
    assert_eq!(snap.root.nodes.len(), 1);
    assert_eq!(snap.root.nodes[0].name, b"d".to_vec());
    assert!(snap.root.nodes[0].subtree.is_some());
}
