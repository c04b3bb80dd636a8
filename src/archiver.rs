//! The archiver: walks a preorder stream of entries with a stack of open
//! directories, chunks and deduplicates file contents, and builds the
//! snapshot's listings bottom up.
use vstd::prelude::*;
use crate::chunker::{ChunkConfig, chunks_of, split, views};
use crate::id::{Id, copy_bytes, sha256_of};
use crate::node::{Meta, Node, NodeKind, Tree, tree_bytes};
use crate::parent::{ParentResult, ParentTree, ParentTrees, has_name};
use crate::path::{comp_views, components, is_dot_component, split_path};
use crate::order::compare_bytes;
use crate::store::{Blob, BlobType, Index, Packer, blob_ids, has_id, lemma_prefix_ids};
use crate::summary::{SnapshotSummary, bump, sat};

verus! {

/// A directory whose listing is still open: its entry, the enclosing
/// listing, and the parent cursor of the enclosing directory.
#[derive(Debug)]
pub struct Frame {
    pub node: Node,
    pub tree: Tree,
    pub parent: Option<usize>,
}

/// Why an entry could not be taken.
#[derive(Debug, Clone, Copy, PartialEq, Eq, Structural)]
pub enum ArchiverError {
    /// The snapshot path holds a `.` or `..` component.
    BadPath,
    /// A path that is not a directory has no component to name it.
    NoParent,
}

/// The listing `t` is the frame's enclosing listing with the frame's
/// directory filed into it: every other entry kept, nothing else added, and
/// an entry of the directory's name, kind and metadata, with no content,
/// whose subtree id is the id of the closed listing `l`.
pub open spec fn frame_filed(t: Tree, f: Frame, l: ParentTree) -> bool {
    &&& forall|i: int| 0 <= i < f.tree.nodes@.len() && (#[trigger] f.tree.nodes@[i]).name@ != f.node.name@
        ==> t.nodes@.contains(f.tree.nodes@[i])
    &&& forall|i: int| 0 <= i < t.nodes@.len() ==> (#[trigger] t.nodes@[i]).name@ == f.node.name@
        || f.tree.nodes@.contains(t.nodes@[i])
    &&& exists|j: int| 0 <= j < t.nodes@.len() && (#[trigger] t.nodes@[j]).name == f.node.name
        && t.nodes@[j].kind == f.node.kind && t.nodes@[j].meta == f.node.meta
        && t.nodes@[j].content@.len() == 0
        && t.nodes@[j].subtree is Some && t.nodes@[j].subtree->0@ == l.id@
}

/// The parent holds an entry of the name of `n` that it judged unchanged,
/// and whose listing has id `x`.
pub open spec fn dir_unchanged(ps: ParentTrees, cursor: Option<usize>, n: Node, x: Seq<u8>) -> bool {
    let r = ps.result_spec(cursor, n);
    let ns = ps.listing(cursor);
    &&& r is Matched
    &&& ns[r->0 as int].subtree is Some
    &&& ns[r->0 as int].subtree->0@ == x
}

/// The counts and the known listing ids after the directory of frame `f`
/// closed with listing `l`, `kn` holding the listing ids known before.
pub open spec fn dir_step(s: SnapshotSummary, kn: Set<Seq<u8>>, ps: ParentTrees, f: Frame, l: ParentTree) -> (SnapshotSummary, Set<Seq<u8>>) {
    let len = tree_bytes(l.tree).len() as u64;
    let unch = dir_unchanged(ps, f.parent, f.node, l.id@);
    let credit: u64 = if kn.contains(l.id@) { 0 } else { len };
    (
        s.count_tree(unch, ps.result_spec(f.parent, f.node), credit, len).count_dir(len),
        if unch { kn } else { kn.insert(l.id@) },
    )
}

/// The counts and known listing ids after the innermost frames of `stack`
/// closed, innermost first, into the listings `ls`.
pub open spec fn closed_run(s: SnapshotSummary, kn: Set<Seq<u8>>, ps: ParentTrees, stack: Seq<Frame>, ls: Seq<ParentTree>) -> (SnapshotSummary, Set<Seq<u8>>)
    decreases ls.len(),
{
    if ls.len() == 0 {
        (s, kn)
    } else {
        let p = closed_run(s, kn, ps, stack, ls.drop_last());
        dir_step(p.0, p.1, ps, stack[stack.len() - ls.len()], ls.last())
    }
}

/// Adding at most one blob of id `id` to a packer: every id known after was
/// known before or is `id`, and what was known stays known.
proof fn lemma_known_after_add(idx: Seq<Id>, b0: Seq<Blob>, b1: Seq<Blob>, id: Seq<u8>)
    requires
        b0.len() <= b1.len() <= b0.len() + 1,
        b1.subrange(0, b0.len() as int) == b0,
        b1.len() == b0.len() + 1 ==> b1.last().id@ == id,
    ensures
        forall|x: Seq<u8>| #[trigger] known(idx, b1, x) ==> known(idx, b0, x) || x == id,
        forall|x: Seq<u8>| #[trigger] known(idx, b0, x) ==> known(idx, b1, x),
{
    assert forall|x: Seq<u8>| #[trigger] known(idx, b1, x) implies known(idx, b0, x) || x == id by {
        if has_id(blob_ids(b1), x) && x != id {
            let m = choose|m: int| 0 <= m < blob_ids(b1).len() && (#[trigger] blob_ids(b1)[m])@ == x;
            assert(blob_ids(b1)[m] == b1[m].id);
            assert(m < b0.len());
            assert(b1.subrange(0, b0.len() as int)[m] == b1[m]);
            assert(blob_ids(b0)[m] == b0[m].id);
        }
    }
    assert forall|x: Seq<u8>| #[trigger] known(idx, b0, x) implies known(idx, b1, x) by {
        if has_id(blob_ids(b0), x) {
            lemma_prefix_ids(b0, b1, x);
        }
    }
}

/// The counts after the chunks `cs` went to the data packer in order,
/// `known` holding the chunk ids already stored: each new chunk is
/// credited its length, and becomes known.
pub open spec fn count_chunks(s: SnapshotSummary, known: Set<Seq<u8>>, cs: Seq<Seq<u8>>) -> SnapshotSummary
    decreases cs.len(),
{
    if cs.len() == 0 {
        s
    } else {
        let id = sha256_of(cs[0]);
        let credit: u64 = if known.contains(id) { 0 } else { cs[0].len() as u64 };
        count_chunks(s.count_data(credit, cs[0].len() as u64), known.insert(id), cs.drop_first())
    }
}

/// The chunks of `cs` that go to the data packer, in order, `known` holding
/// the chunk ids already stored: each whose id is not yet known.
pub open spec fn new_chunks(known: Set<Seq<u8>>, cs: Seq<Seq<u8>>) -> Seq<Seq<u8>>
    decreases cs.len(),
{
    if cs.len() == 0 {
        Seq::empty()
    } else {
        let id = sha256_of(cs[0]);
        let rest = new_chunks(known.insert(id), cs.drop_first());
        if known.contains(id) { rest } else { seq![cs[0]] + rest }
    }
}

/// The contents of a sequence of blobs.
pub open spec fn blob_data(bs: Seq<Blob>) -> Seq<Seq<u8>> {
    bs.map_values(|b: Blob| b.data@)
}

/// Content whose every chunk is already stored adds nothing: no chunk goes
/// to the data packer, and the counts stay as they were.
pub proof fn lemma_duplicate_adds_nothing(s: SnapshotSummary, known: Set<Seq<u8>>, cs: Seq<Seq<u8>>)
    requires
        forall|j: int| 0 <= j < cs.len() ==> known.contains(sha256_of(#[trigger] cs[j])),
    ensures
        count_chunks(s, known, cs) == s,
        new_chunks(known, cs) == Seq::<Seq<u8>>::empty(),
    decreases cs.len(),
{
    if cs.len() > 0 {
        let id = sha256_of(cs[0]);
        assert(known.contains(id));
        assert(known.insert(id) =~= known);
        assert forall|j: int| 0 <= j < cs.drop_first().len() implies known.contains(sha256_of(#[trigger] cs.drop_first()[j])) by {
            assert(cs.drop_first()[j] == cs[j + 1]);
        }
        lemma_duplicate_adds_nothing(s.count_data(0, cs[0].len() as u64), known, cs.drop_first());
    }
}

/// A directory whose listing the parent holds unchanged stores nothing: it
/// counts as unmodified, its listing goes to no packer, and no byte is added.
pub proof fn lemma_unchanged_dir_stores_nothing(s: SnapshotSummary, kn: Set<Seq<u8>>, ps: ParentTrees, f: Frame, l: ParentTree)
    requires
        dir_unchanged(ps, f.parent, f.node, l.id@),
    ensures
        dir_step(s, kn, ps, f, l).1 == kn,
        dir_step(s, kn, ps, f, l).0.dirs_unmodified == sat(s.dirs_unmodified, 1),
        dir_step(s, kn, ps, f, l).0.dirs_new == s.dirs_new,
        dir_step(s, kn, ps, f, l).0.dirs_changed == s.dirs_changed,
        dir_step(s, kn, ps, f, l).0.tree_blobs == s.tree_blobs,
        dir_step(s, kn, ps, f, l).0.data_added == s.data_added,
        dir_step(s, kn, ps, f, l).0.data_added_packed == s.data_added_packed,
        dir_step(s, kn, ps, f, l).0.same_file_counts(s),
{
}

/// `r` is a cursor that the parent may give for the directory named `name`
/// under the listing at `cursor`.
pub open spec fn sub_cursor(ps: ParentTrees, cursor: Option<usize>, name: Seq<u8>, r: Option<usize>) -> bool {
    &&& ps.valid_cursor(r)
    &&& r is Some ==> exists|i: int| 0 <= i < ps.listing(cursor).len()
        && (#[trigger] ps.listing(cursor)[i]).name@ == name
        && ps.listing(cursor)[i].kind is Dir && ps.listing(cursor)[i].subtree is Some
        && ps.listing(cursor)[i].subtree->0@ == ps.trees@[r->0 as int].id@
    &&& !has_name(ps.listing(cursor), name) ==> r is None
    &&& ps.holds_subdir(cursor, name) ==> r is Some
}

/// Metadata with every field zero or empty.
pub open spec fn meta_is_empty(m: Meta) -> bool {
    &&& m.size == 0 && m.mtime == 0 && m.atime == 0 && m.ctime == 0
    &&& m.mode == 0 && m.uid == 0 && m.gid == 0 && m.inode == 0
    &&& m.user@.len() == 0 && m.group@.len() == 0
}

/// `a + n`, held at the largest `u64`.
pub open spec fn sat_count(a: u64, n: int) -> u64 {
    if a + n > u64::MAX { u64::MAX } else { (a + n) as u64 }
}

/// `a` is a prefix of `b`.
pub open spec fn is_prefix(a: Seq<Seq<u8>>, b: Seq<Seq<u8>>) -> bool {
    a.len() <= b.len() && b.subrange(0, a.len() as int) == a
}

/// `x` names a blob in the index or in the packer.
pub open spec fn known(idx: Seq<Id>, blobs: Seq<Blob>, x: Seq<u8>) -> bool {
    has_id(idx, x) || has_id(blob_ids(blobs), x)
}

/// Each id is the digest of the chunk at the same place.
pub open spec fn ids_of_chunks(ids: Seq<Id>, cs: Seq<Seq<u8>>) -> bool {
    ids.len() == cs.len() && forall|j: int| 0 <= j < ids.len() ==> (#[trigger] ids[j])@ == sha256_of(cs[j])
}

/// Some component of a path is `.` or `..`.
pub open spec fn has_dot_component(cs: Seq<Seq<u8>>) -> bool {
    exists|i: int| 0 <= i < cs.len() && is_dot_component(#[trigger] cs[i])
}

/// The directory an entry at a path with components `cs` lives in, as a
/// path: the path itself for a directory, else all but its last component.
pub open spec fn entry_base(cs: Seq<Seq<u8>>, is_dir: bool) -> Seq<Seq<u8>> {
    if is_dir { cs } else { cs.subrange(0, cs.len() - 1) }
}

/// Every id that `n` refers to is in the index, or is a listing of the
/// parent snapshot.
pub open spec fn refs_indexed(n: Node, idx: Index, ps: Seq<ParentTree>) -> bool {
    &&& forall|j: int| 0 <= j < n.content@.len() ==> has_id(idx.data@, (#[trigger] n.content@[j])@)
    &&& n.subtree is Some ==> has_id(idx.trees@, n.subtree->0@) || parent_ref(ps, n.subtree->0@)
}

/// Each recorded listing is sorted and carries the digest of its encoding.
pub open spec fn listings_hashed(ls: Seq<ParentTree>) -> bool {
    forall|k: int| 0 <= k < ls.len() ==> (#[trigger] ls[k]).tree.wf() && ls[k].id@ == sha256_of(tree_bytes(ls[k].tree))
}

/// Some recorded listing has id `x`.
pub open spec fn recorded(ls: Seq<ParentTree>, x: Seq<u8>) -> bool {
    exists|k: int| 0 <= k < ls.len() && (#[trigger] ls[k]).id@ == x
}

/// `x` is the id of a recorded listing and the digest of its encoding.
pub open spec fn digest_of_listing(ls: Seq<ParentTree>, x: Seq<u8>) -> bool {
    exists|k: int| 0 <= k < ls.len() && (#[trigger] ls[k]).id@ == x && x == sha256_of(tree_bytes(ls[k].tree))
}

/// Every subtree id among the entries `ns` names a recorded listing.
pub open spec fn subtrees_recorded(ns: Seq<Node>, ls: Seq<ParentTree>) -> bool {
    forall|i: int| 0 <= i < ns.len() && (#[trigger] ns[i]).subtree is Some ==> recorded(ls, ns[i].subtree->0@)
}

/// Recording more listings keeps every subtree id recorded.
pub proof fn lemma_recorded_grows(ns: Seq<Node>, ls: Seq<ParentTree>, ls2: Seq<ParentTree>)
    requires
        subtrees_recorded(ns, ls),
        ls.len() <= ls2.len(),
        ls2.subrange(0, ls.len() as int) == ls,
    ensures
        subtrees_recorded(ns, ls2),
{
    assert forall|i: int| 0 <= i < ns.len() && (#[trigger] ns[i]).subtree is Some implies recorded(ls2, ns[i].subtree->0@) by {
        let k = choose|k: int| 0 <= k < ls.len() && (#[trigger] ls[k]).id@ == ns[i].subtree->0@;
        assert(ls2.subrange(0, ls.len() as int)[k] == ls2[k]);
    }
}

/// Two lists of ids hold the same bytes, place by place.
pub open spec fn same_ids(a: Seq<Id>, b: Seq<Id>) -> bool {
    a.len() == b.len() && forall|j: int| 0 <= j < a.len() ==> (#[trigger] a[j])@ == b[j]@
}

/// Some entry of the parent snapshot's listings refers to the listing `x`.
pub open spec fn parent_ref(ps: Seq<ParentTree>, x: Seq<u8>) -> bool {
    exists|k: int, i: int| 0 <= k < ps.len() && 0 <= i < ps[k].tree.nodes@.len()
        && (#[trigger] ps[k].tree.nodes@[i]).subtree is Some && ps[k].tree.nodes@[i].subtree->0@ == x
}

/// Every id that `n` refers to is known: a chunk to the index or the data
/// packer, a listing to the index, the tree packer or the parent snapshot.
pub open spec fn node_known(n: Node, di: Seq<Id>, db: Seq<Blob>, ti: Seq<Id>, tb: Seq<Blob>, ps: Seq<ParentTree>) -> bool {
    &&& forall|j: int| 0 <= j < n.content@.len() ==> known(di, db, (#[trigger] n.content@[j])@)
    &&& n.subtree is Some ==> known(ti, tb, n.subtree->0@) || parent_ref(ps, n.subtree->0@)
}

/// Every id that the entries `ns` refer to is known.
pub open spec fn nodes_known(ns: Seq<Node>, di: Seq<Id>, db: Seq<Blob>, ti: Seq<Id>, tb: Seq<Blob>, ps: Seq<ParentTree>) -> bool {
    forall|i: int| 0 <= i < ns.len() ==> node_known(#[trigger] ns[i], di, db, ti, tb, ps)
}

/// Knowledge survives the growth of the packers.
pub proof fn lemma_known_grows(ns: Seq<Node>, di: Seq<Id>, db: Seq<Blob>, ti: Seq<Id>, tb: Seq<Blob>, ps: Seq<ParentTree>, db2: Seq<Blob>, tb2: Seq<Blob>)
    requires
        nodes_known(ns, di, db, ti, tb, ps),
        db.len() <= db2.len(),
        db2.subrange(0, db.len() as int) == db,
        tb.len() <= tb2.len(),
        tb2.subrange(0, tb.len() as int) == tb,
    ensures
        nodes_known(ns, di, db2, ti, tb2, ps),
{
    assert forall|i: int| 0 <= i < ns.len() implies node_known(#[trigger] ns[i], di, db2, ti, tb2, ps) by {
        let n = ns[i];
        assert(node_known(n, di, db, ti, tb, ps));
        assert forall|j: int| 0 <= j < n.content@.len() implies known(di, db2, (#[trigger] n.content@[j])@) by {
            if has_id(blob_ids(db), n.content@[j]@) {
                lemma_prefix_ids(db, db2, n.content@[j]@);
            }
        }
        if n.subtree is Some && has_id(blob_ids(tb), n.subtree->0@) {
            lemma_prefix_ids(tb, tb2, n.subtree->0@);
        }
    }
}

/// The snapshot engine.
#[derive(Debug)]
pub struct Archiver {
    pub path: Vec<Vec<u8>>,
    pub tree: Tree,
    pub parent: Option<usize>,
    pub stack: Vec<Frame>,
    pub index: Index,
    pub data_packer: Packer,
    pub tree_packer: Packer,
    pub parents: ParentTrees,
    pub chunking: ChunkConfig,
    pub summary: SnapshotSummary,
    pub listings: Vec<ParentTree>,
}

/// What a run hands back: the root listing and its id, the counters, the new
/// blobs of each kind, and the index with those blobs recorded.
#[derive(Debug)]
pub struct FinishedSnapshot {
    pub tree: Id,
    pub root: Tree,
    pub summary: SnapshotSummary,
    pub data_blobs: Vec<Blob>,
    pub tree_blobs: Vec<Blob>,
    pub index: Index,
    pub listings: Vec<ParentTree>,
}

impl Archiver {
    /// Every id that the listing `ns` refers to is known to this run.
    pub open spec fn refs_known(&self, ns: Seq<Node>) -> bool {
        nodes_known(ns, self.index.data@, self.data_packer.blobs@, self.index.trees@, self.tree_packer.blobs@, self.parents.trees@)
    }

    pub open spec fn entry_known(&self, n: Node) -> bool {
        node_known(n, self.index.data@, self.data_packer.blobs@, self.index.trees@, self.tree_packer.blobs@, self.parents.trees@)
    }

    /// The state is consistent: one open frame per path component, sorted
    /// listings, valid cursors, and every reference known.
    pub open spec fn wf(&self) -> bool {
        &&& self.path@.len() == self.stack@.len()
        &&& self.tree.wf()
        &&& self.parents.wf()
        &&& self.parents.valid_cursor(self.parent)
        &&& self.chunking.wf()
        &&& self.data_packer.blob_type == BlobType::Data
        &&& self.tree_packer.blob_type == BlobType::Tree
        &&& self.refs_known(self.tree.nodes@)
        &&& listings_hashed(self.listings@)
        &&& forall|k: int| 0 <= k < self.listings@.len() ==> self.refs_known(#[trigger] self.listings@[k].tree.nodes@)
        &&& subtrees_recorded(self.tree.nodes@, self.listings@)
        &&& forall|k: int| 0 <= k < self.stack@.len() ==> subtrees_recorded(#[trigger] self.stack@[k].tree.nodes@, self.listings@)
        &&& forall|k: int| 0 <= k < self.listings@.len() ==> subtrees_recorded(#[trigger] self.listings@[k].tree.nodes@, self.listings@)
        &&& forall|k: int| 0 <= k < self.stack@.len() ==> (#[trigger] self.stack@[k]).tree.wf()
            && self.parents.valid_cursor(self.stack@[k].parent)
            && self.refs_known(self.stack@[k].tree.nodes@)
    }

    /// The data and tree packers only grew from `old` to `self`.
    pub open spec fn packers_grew(&self, old: &Archiver) -> bool {
        &&& old.data_packer.blobs@.len() <= self.data_packer.blobs@.len()
        &&& self.data_packer.blobs@.subrange(0, old.data_packer.blobs@.len() as int) == old.data_packer.blobs@
        &&& old.tree_packer.blobs@.len() <= self.tree_packer.blobs@.len()
        &&& self.tree_packer.blobs@.subrange(0, old.tree_packer.blobs@.len() as int) == old.tree_packer.blobs@
    }

    /// A fresh run over `index`, comparing against the parent snapshot whose
    /// root listing has id `parent_root`, if given and held by `parents`.
    pub fn new(index: Index, parents: ParentTrees, parent_root: Option<Id>, chunking: ChunkConfig) -> (r: Archiver)
        requires
            parents.wf(),
            chunking.wf(),
        ensures
            r.wf(),
            r.path@.len() == 0,
            r.tree.nodes@.len() == 0,
            r.summary == SnapshotSummary::spec_zero(),
            r.index == index,
            r.data_packer.blobs@.len() == 0,
            r.tree_packer.blobs@.len() == 0,
            parent_root is None ==> r.parent is None,
            r.parent matches Some(k) ==> parent_root is Some && r.parents.trees@[k as int].id@ == parent_root->0@,
            parent_root is Some && (exists|k: int| 0 <= k < parents.trees@.len()
                && (#[trigger] parents.trees@[k]).id@ == parent_root->0@) ==> r.parent is Some,
            r.parents == parents,
            r.chunking == chunking,
            r.stack@.len() == 0,
            r.listings@.len() == 0,
    {
        let parent = match &parent_root {
            None => None,
            Some(id) => parents.lookup(id),
        };
        Archiver {
            path: Vec::new(),
            tree: Tree::new(),
            parent,
            stack: Vec::new(),
            index,
            data_packer: Packer::new(BlobType::Data),
            tree_packer: Packer::new(BlobType::Tree),
            parents,
            chunking,
            summary: SnapshotSummary::zero(),
            listings: Vec::new(),
        }
    }

    /// Puts a non-directory entry of `size` bytes into the open listing and
    /// counts it as new, changed or unchanged against the parent.
    pub fn add_file(&mut self, node: Node, size: u64)
        requires
            old(self).wf(),
            old(self).entry_known(node),
            node.subtree is None,
        ensures
            final(self).wf(),
            final(self).summary == old(self).summary.count_file(old(self).parents.result_spec(old(self).parent, node), size),
            final(self).tree.nodes@.contains(node),
            forall|i: int| 0 <= i < final(self).tree.nodes@.len() ==> #[trigger] final(self).tree.nodes@[i] == node
                || (old(self).tree.nodes@.contains(final(self).tree.nodes@[i]) && final(self).tree.nodes@[i].name@ != node.name@),
            forall|i: int| 0 <= i < old(self).tree.nodes@.len() && #[trigger] old(self).tree.nodes@[i].name@ != node.name@
                ==> final(self).tree.nodes@.contains(old(self).tree.nodes@[i]),
            final(self).path == old(self).path,
            final(self).stack == old(self).stack,
            final(self).index == old(self).index,
            final(self).data_packer == old(self).data_packer,
            final(self).tree_packer == old(self).tree_packer,
            final(self).parent == old(self).parent,
            final(self).parents == old(self).parents,
            final(self).chunking == old(self).chunking,
            final(self).listings == old(self).listings,
    {
        match self.parents.is_parent(self.parent, &node) {
            ParentResult::Matched(_) => {
                self.summary.files_unmodified = bump(self.summary.files_unmodified, 1);
            },
            ParentResult::NotMatched => {
                self.summary.files_changed = bump(self.summary.files_changed, 1);
            },
            ParentResult::NotFound => {
                self.summary.files_new = bump(self.summary.files_new, 1);
            },
        }
        let ghost nn = node;
        self.tree.add(node);
        self.summary.total_files_processed = bump(self.summary.total_files_processed, 1);
        self.summary.total_bytes_processed = bump(self.summary.total_bytes_processed, size);
        proof {
            assert forall|i: int| 0 <= i < self.tree.nodes@.len() implies self.entry_known(#[trigger] self.tree.nodes@[i]) by {
                if self.tree.nodes@[i] != nn {
                    let j = choose|j: int| 0 <= j < old(self).tree.nodes@.len() && old(self).tree.nodes@[j] == self.tree.nodes@[i];
                    assert(old(self).entry_known(old(self).tree.nodes@[j]));
                }
            }
        }
    }

    /// Puts a directory entry whose listing takes `size` bytes into the open listing.
    pub fn add_dir(&mut self, node: Node, size: u64)
        requires
            old(self).wf(),
            old(self).entry_known(node),
            node.subtree is Some && recorded(old(self).listings@, node.subtree->0@),
        ensures
            final(self).wf(),
            final(self).summary == old(self).summary.count_dir(size),
            final(self).tree.nodes@.contains(node),
            forall|i: int| 0 <= i < final(self).tree.nodes@.len() ==> #[trigger] final(self).tree.nodes@[i] == node
                || (old(self).tree.nodes@.contains(final(self).tree.nodes@[i]) && final(self).tree.nodes@[i].name@ != node.name@),
            forall|i: int| 0 <= i < old(self).tree.nodes@.len() && #[trigger] old(self).tree.nodes@[i].name@ != node.name@
                ==> final(self).tree.nodes@.contains(old(self).tree.nodes@[i]),
            final(self).path == old(self).path,
            final(self).stack == old(self).stack,
            final(self).index == old(self).index,
            final(self).data_packer == old(self).data_packer,
            final(self).tree_packer == old(self).tree_packer,
            final(self).parent == old(self).parent,
            final(self).parents == old(self).parents,
            final(self).chunking == old(self).chunking,
            final(self).listings == old(self).listings,
    {
        let ghost nn = node;
        self.tree.add(node);
        self.summary.total_dirs_processed = bump(self.summary.total_dirs_processed, 1);
        self.summary.total_dirsize_processed = bump(self.summary.total_dirsize_processed, size);
        proof {
            assert forall|i: int| 0 <= i < self.tree.nodes@.len() implies self.entry_known(#[trigger] self.tree.nodes@[i]) by {
                if self.tree.nodes@[i] != nn {
                    let j = choose|j: int| 0 <= j < old(self).tree.nodes@.len() && old(self).tree.nodes@[j] == self.tree.nodes@[i];
                    assert(old(self).entry_known(old(self).tree.nodes@[j]));
                }
            }
        }
    }
    /// The parent holds a directory entry of this name whose listing has the
    /// same id as the one just built for `n`.
    pub open spec fn tree_unchanged(&self, n: Node) -> bool {
        &&& n.subtree is Some
        &&& dir_unchanged(self.parents, self.parent, n, n.subtree->0@)
    }

    /// The blob of id `x` is known to the tree side of this run.
    pub open spec fn tree_known(&self, x: Seq<u8>) -> bool {
        known(self.index.trees@, self.tree_packer.blobs@, x)
    }

    /// The bytes the tree packer credits for a listing `x` of `len` bytes.
    pub open spec fn tree_credit(&self, x: Seq<u8>, len: nat) -> u64 {
        if self.tree_known(x) { 0 } else { len as u64 }
    }

    proof fn lemma_grown_wf(&self, old: &Archiver)
        requires
            old.wf(),
            self.packers_grew(old),
            self.path == old.path,
            self.stack == old.stack,
            self.tree == old.tree,
            self.parent == old.parent,
            self.parents == old.parents,
            self.index == old.index,
            self.chunking == old.chunking,
            self.data_packer.blob_type == old.data_packer.blob_type,
            self.tree_packer.blob_type == old.tree_packer.blob_type,
            self.listings == old.listings,
        ensures
            self.wf(),
    {
        lemma_known_grows(self.tree.nodes@, self.index.data@, old.data_packer.blobs@, self.index.trees@, old.tree_packer.blobs@, self.parents.trees@, self.data_packer.blobs@, self.tree_packer.blobs@);
        assert forall|k: int| 0 <= k < self.stack@.len() implies (#[trigger] self.stack@[k]).tree.wf()
            && self.parents.valid_cursor(self.stack@[k].parent) && self.refs_known(self.stack@[k].tree.nodes@) by {
            assert(old.stack@[k] == self.stack@[k]);
            lemma_known_grows(self.stack@[k].tree.nodes@, self.index.data@, old.data_packer.blobs@, self.index.trees@, old.tree_packer.blobs@, self.parents.trees@, self.data_packer.blobs@, self.tree_packer.blobs@);
        }
        assert forall|k: int| 0 <= k < self.listings@.len() implies self.refs_known(#[trigger] self.listings@[k].tree.nodes@) by {
            assert(old.refs_known(old.listings@[k].tree.nodes@));
            lemma_known_grows(self.listings@[k].tree.nodes@, self.index.data@, old.data_packer.blobs@, self.index.trees@, old.tree_packer.blobs@, self.parents.trees@, self.data_packer.blobs@, self.tree_packer.blobs@);
        }
    }

    /// Files the listing of a finished directory: judged against the parent,
    /// handed to the tree packer unless unchanged or already stored, and put
    /// into the enclosing listing.
    pub fn backup_tree(&mut self, node: Node, chunk: Vec<u8>)
        requires
            old(self).wf(),
            node.subtree is Some,
            recorded(old(self).listings@, node.subtree->0@),
            node.content@.len() == 0,
        ensures
            final(self).wf(),
            final(self).summary == old(self).summary.count_tree(
                old(self).tree_unchanged(node),
                old(self).parents.result_spec(old(self).parent, node),
                old(self).tree_credit(node.subtree->0@, chunk@.len()),
                chunk@.len() as u64,
            ).count_dir(chunk@.len() as u64),
            final(self).tree.nodes@.contains(node),
            forall|i: int| 0 <= i < old(self).tree.nodes@.len() && #[trigger] old(self).tree.nodes@[i].name@ != node.name@
                ==> final(self).tree.nodes@.contains(old(self).tree.nodes@[i]),
            forall|i: int| 0 <= i < final(self).tree.nodes@.len() ==> #[trigger] final(self).tree.nodes@[i] == node
                || (old(self).tree.nodes@.contains(final(self).tree.nodes@[i]) && final(self).tree.nodes@[i].name@ != node.name@),
            !old(self).tree_unchanged(node) ==> final(self).tree_known(node.subtree->0@),
            old(self).tree_unchanged(node) ==> final(self).tree_packer == old(self).tree_packer,
            old(self).tree_known(node.subtree->0@) ==> final(self).tree_packer.blobs@ == old(self).tree_packer.blobs@,
            !old(self).tree_unchanged(node) && !old(self).tree_known(node.subtree->0@) ==> (
                final(self).tree_packer.blobs@ == old(self).tree_packer.blobs@.push(final(self).tree_packer.blobs@.last())
                && final(self).tree_packer.blobs@.last().id@ == node.subtree->0@
                && final(self).tree_packer.blobs@.last().data@ == chunk@),
            forall|x: Seq<u8>| #[trigger] final(self).tree_known(x)
                == (old(self).tree_known(x) || (!old(self).tree_unchanged(node) && x == node.subtree->0@)),
            final(self).packers_grew(old(self)),
            final(self).path == old(self).path,
            final(self).stack == old(self).stack,
            final(self).index == old(self).index,
            final(self).data_packer == old(self).data_packer,
            final(self).tree_packer.blob_type == old(self).tree_packer.blob_type,
            final(self).parent == old(self).parent,
            final(self).parents == old(self).parents,
            final(self).chunking == old(self).chunking,
            final(self).listings == old(self).listings,
    {
        let dirsize = chunk.len() as u64;
        let cls = self.parents.is_parent(self.parent, &node);
        let unchanged = match (cls, self.parent) {
            (ParentResult::Matched(i), Some(k)) => match (&self.parents.trees[k].tree.nodes[i].subtree, &node.subtree) {
                (Some(a), Some(b)) => a.same(b),
                _ => false,
            },
            _ => false,
        };
        assert(unchanged == self.tree_unchanged(node));
        if unchanged {
            self.summary.dirs_unmodified = bump(self.summary.dirs_unmodified, 1);
            proof {
                let k = self.parent->0 as int;
                let i = cls->0 as int;
                assert(parent_ref(self.parents.trees@, node.subtree->0@)) by {
                    assert(self.parents.trees@[k].tree.nodes@[i].subtree is Some);
                }
                assert(self.data_packer.blobs@.subrange(0, self.data_packer.blobs@.len() as int) =~= self.data_packer.blobs@);
                assert(self.tree_packer.blobs@.subrange(0, self.tree_packer.blobs@.len() as int) =~= self.tree_packer.blobs@);
            }
            self.add_dir(node, dirsize);
            return;
        }
        match cls {
            ParentResult::NotFound => {
                self.summary.dirs_new = bump(self.summary.dirs_new, 1);
            },
            _ => {
                self.summary.dirs_changed = bump(self.summary.dirs_changed, 1);
            },
        }
        let id = match &node.subtree {
            Some(i) => i.duplicate(),
            None => Id::zero(),
        };
        let ghost before = *self;
        if !self.index.has_tree(&id) {
            let ghost tb0 = self.tree_packer.blobs@;
            let packed = self.tree_packer.add(chunk.as_slice(), &id);
            proof {
                if !has_id(blob_ids(tb0), id@) {
                    assert(self.tree_packer.blobs@ =~= tb0.push(self.tree_packer.blobs@.last()));
                }
            }
            if packed != 0 {
                self.summary.tree_blobs = bump(self.summary.tree_blobs, 1);
                self.summary.data_added = bump(self.summary.data_added, dirsize);
                self.summary.data_added_packed = bump(self.summary.data_added_packed, packed);
                self.summary.data_added_trees = bump(self.summary.data_added_trees, dirsize);
                self.summary.data_added_trees_packed = bump(self.summary.data_added_trees_packed, packed);
            }
        }
        proof {
            assert(before.data_packer.blobs@.subrange(0, before.data_packer.blobs@.len() as int) =~= before.data_packer.blobs@);
            assert(self.tree_packer.blobs@.subrange(0, self.tree_packer.blobs@.len() as int) =~= self.tree_packer.blobs@);
            self.lemma_grown_wf(&before);
            lemma_known_after_add(self.index.trees@, before.tree_packer.blobs@, self.tree_packer.blobs@, id@);
            assert forall|x: Seq<u8>| #[trigger] self.tree_known(x) == (before.tree_known(x) || x == node.subtree->0@) by {
                if x == id@ {
                    assert(self.tree_known(id@));
                }
            }
        }
        self.add_dir(node, dirsize);
    }

    /// Closes open directories until the current path is a prefix of
    /// `target`: each closed listing is encoded, its id set on the
    /// directory's entry, and the entry filed into the enclosing listing.
    #[verifier::rlimit(100)]
    #[verifier::spinoff_prover]
    pub fn finish_trees(&mut self, target: &Vec<Vec<u8>>)
        requires
            old(self).wf(),
        ensures
            final(self).wf(),
            is_prefix(comp_views(final(self).path@), comp_views(target@)),
            final(self).path@.len() <= old(self).path@.len(),
            comp_views(final(self).path@) == comp_views(old(self).path@).subrange(0, final(self).path@.len() as int),
            forall|m: int| final(self).path@.len() < m <= old(self).path@.len()
                ==> !is_prefix(#[trigger] comp_views(old(self).path@).subrange(0, m), comp_views(target@)),
            final(self).packers_grew(old(self)),
            final(self).index == old(self).index,
            final(self).parents == old(self).parents,
            final(self).chunking == old(self).chunking,
            final(self).summary.same_file_counts(old(self).summary),
            final(self).summary.data_blobs == old(self).summary.data_blobs,
            final(self).summary.data_added_files == old(self).summary.data_added_files,
            final(self).summary.data_added_files_packed == old(self).summary.data_added_files_packed,
            final(self).summary.total_dirs_processed == sat_count(
                old(self).summary.total_dirs_processed,
                old(self).path@.len() - final(self).path@.len(),
            ),
            final(self).data_packer == old(self).data_packer,
            final(self).path@.len() == old(self).path@.len() ==> *final(self) == *old(self),
            final(self).stack@ == old(self).stack@.subrange(0, final(self).path@.len() as int),
            final(self).listings@.len() == old(self).listings@.len() + (old(self).path@.len() - final(self).path@.len()),
            final(self).listings@.subrange(0, old(self).listings@.len() as int) == old(self).listings@,
            final(self).path@.len() < old(self).path@.len() ==> final(self).listings@[old(self).listings@.len() as int].tree == old(self).tree,
            forall|k: int| old(self).listings@.len() < k < final(self).listings@.len() ==> frame_filed(
                #[trigger] final(self).listings@[k].tree,
                old(self).stack@[old(self).path@.len() - (k - old(self).listings@.len())],
                final(self).listings@[k - 1],
            ),
            final(self).path@.len() < old(self).path@.len() ==> frame_filed(
                final(self).tree,
                old(self).stack@[final(self).path@.len() as int],
                final(self).listings@.last(),
            ),
            final(self).path@.len() < old(self).path@.len() ==> final(self).parent == old(self).stack@[final(self).path@.len() as int].parent,
            final(self).summary == closed_run(old(self).summary, Set::new(|x: Seq<u8>| old(self).tree_known(x)), old(self).parents,
                old(self).stack@, final(self).listings@.subrange(old(self).listings@.len() as int, final(self).listings@.len() as int)).0,
            forall|x: Seq<u8>| #[trigger] final(self).tree_known(x) == closed_run(old(self).summary,
                Set::new(|x: Seq<u8>| old(self).tree_known(x)), old(self).parents, old(self).stack@,
                final(self).listings@.subrange(old(self).listings@.len() as int, final(self).listings@.len() as int)).1.contains(x),
    {
        let ghost ov = comp_views(self.path@);
        let ghost tv = comp_views(target@);
        let ghost l0 = self.listings@.len();
        let ghost n = self.path@.len();
        let ghost k0 = Set::new(|x: Seq<u8>| old(self).tree_known(x));
        proof {
            assert(self.listings@.subrange(l0 as int, l0 as int) =~= Seq::<ParentTree>::empty());
            assert(self.listings@.subrange(0, l0 as int) =~= self.listings@);

            assert(self.data_packer.blobs@.subrange(0, self.data_packer.blobs@.len() as int) =~= self.data_packer.blobs@);
            assert(self.tree_packer.blobs@.subrange(0, self.tree_packer.blobs@.len() as int) =~= self.tree_packer.blobs@);
            assert(ov.subrange(0, ov.len() as int) =~= ov);
        }
        while !path_is_prefix(&self.path, target)
            invariant
                self.wf(),
                self.path@.len() <= ov.len(),
                ov == comp_views(old(self).path@),
                tv == comp_views(target@),
                comp_views(self.path@) == ov.subrange(0, self.path@.len() as int),
                forall|m: int| self.path@.len() < m <= ov.len() ==> !is_prefix(#[trigger] ov.subrange(0, m), tv),
                self.packers_grew(old(self)),
                self.index == old(self).index,
                self.parents == old(self).parents,
                self.chunking == old(self).chunking,
                self.summary.same_file_counts(old(self).summary),
                self.summary.data_blobs == old(self).summary.data_blobs,
                self.summary.data_added_files == old(self).summary.data_added_files,
                self.summary.data_added_files_packed == old(self).summary.data_added_files_packed,
                self.summary.total_dirs_processed == sat_count(
                    old(self).summary.total_dirs_processed,
                    ov.len() - self.path@.len(),
                ),
                self.data_packer == old(self).data_packer,
                self.path@.len() == ov.len() ==> *self == *old(self),
                ov.len() == old(self).stack@.len(),
                self.stack@ == old(self).stack@.subrange(0, self.path@.len() as int),
                n == ov.len(),
                l0 == old(self).listings@.len(),
                k0 == Set::new(|x: Seq<u8>| old(self).tree_known(x)),
                self.listings@.len() == l0 + (n - self.path@.len()),
                self.listings@.subrange(0, l0 as int) == old(self).listings@,
                self.path@.len() < n ==> self.listings@[l0 as int].tree == old(self).tree,
                forall|k: int| l0 < k < self.listings@.len() ==> frame_filed(
                    #[trigger] self.listings@[k].tree,
                    old(self).stack@[n - (k - l0)],
                    self.listings@[k - 1],
                ),
                self.path@.len() < n ==> frame_filed(self.tree, old(self).stack@[self.path@.len() as int], self.listings@.last()),
                self.path@.len() < n ==> self.parent == old(self).stack@[self.path@.len() as int].parent,
                self.summary == closed_run(old(self).summary, k0, old(self).parents, old(self).stack@,
                    self.listings@.subrange(l0 as int, self.listings@.len() as int)).0,
                forall|x: Seq<u8>| #[trigger] self.tree_known(x) == closed_run(old(self).summary, k0, old(self).parents,
                    old(self).stack@, self.listings@.subrange(l0 as int, self.listings@.len() as int)).1.contains(x),
            decreases self.path@.len(),
        {
            proof {
                if self.path@.len() == 0 {
                    assert(tv.subrange(0, 0) =~= comp_views(self.path@));
                }
            }
            let ghost before = *self;
            self.close_dir();
            proof {
                lemma_grown_transitive(old(self), &before, self);
                assert(comp_views(self.path@) =~= ov.subrange(0, self.path@.len() as int));
                let f = old(self).stack@[self.path@.len() as int];
                assert(before.stack@.last() == before.stack@[self.path@.len() as int]);
                assert(old(self).stack@.subrange(0, before.path@.len() as int)[self.path@.len() as int] == f);
                assert(self.stack@ =~= old(self).stack@.subrange(0, self.path@.len() as int));
                let ls = self.listings@.subrange(l0 as int, self.listings@.len() as int);
                let pls = before.listings@.subrange(l0 as int, before.listings@.len() as int);
                assert(ls.drop_last() =~= pls);
                assert(ls.last() == self.listings@.last());
                assert(before.stack@.last() == old(self).stack@[old(self).stack@.len() - ls.len()]);
                let p = closed_run(old(self).summary, k0, old(self).parents, old(self).stack@, pls);
                assert(Set::new(|x: Seq<u8>| before.tree_known(x)) =~= p.1);
                assert(self.listings@.subrange(0, l0 as int) =~= before.listings@.subrange(0, l0 as int));
                assert forall|k: int| l0 < k < self.listings@.len() implies frame_filed(
                    #[trigger] self.listings@[k].tree,
                    old(self).stack@[n - (k - l0)],
                    self.listings@[k - 1],
                ) by {
                    assert(self.listings@[k - 1] == before.listings@[k - 1]);
                    if k < before.listings@.len() {
                        assert(self.listings@[k] == before.listings@[k]);
                    } else {
                        assert(self.listings@[k].tree == before.tree);
                        assert(before.listings@.last() == before.listings@[k - 1]);
                    }
                }
                if before.path@.len() == n {
                    assert(before == *old(self));
                    assert(self.listings@[l0 as int] == self.listings@.last());
                } else {
                    assert(self.listings@[l0 as int] == before.listings@[l0 as int]);
                }
            }
        }
    }

    /// Closes the innermost open directory: encodes its listing, records
    /// it, sets its id on the directory's entry and files that entry into
    /// the enclosing listing.
    #[verifier::rlimit(100)]
    #[verifier::spinoff_prover]
    fn close_dir(&mut self)
        requires
            old(self).wf(),
            old(self).path@.len() > 0,
        ensures
            final(self).wf(),
            final(self).path@ == old(self).path@.drop_last(),
            final(self).stack@ == old(self).stack@.drop_last(),
            final(self).listings@.len() == old(self).listings@.len() + 1,
            final(self).listings@.drop_last() == old(self).listings@,
            final(self).listings@.last().tree == old(self).tree,
            frame_filed(final(self).tree, old(self).stack@.last(), final(self).listings@.last()),
            final(self).parent == old(self).stack@.last().parent,
            final(self).summary == dir_step(old(self).summary, Set::new(|x: Seq<u8>| old(self).tree_known(x)),
                old(self).parents, old(self).stack@.last(), final(self).listings@.last()).0,
            forall|x: Seq<u8>| #[trigger] final(self).tree_known(x) == dir_step(old(self).summary,
                Set::new(|x: Seq<u8>| old(self).tree_known(x)), old(self).parents, old(self).stack@.last(),
                final(self).listings@.last()).1.contains(x),
            final(self).packers_grew(old(self)),
            final(self).data_packer == old(self).data_packer,
            final(self).index == old(self).index,
            final(self).parents == old(self).parents,
            final(self).chunking == old(self).chunking,
            final(self).summary.same_file_counts(old(self).summary),
            final(self).summary.data_blobs == old(self).summary.data_blobs,
            final(self).summary.data_added_files == old(self).summary.data_added_files,
            final(self).summary.data_added_files_packed == old(self).summary.data_added_files_packed,
            final(self).summary.total_dirs_processed == sat_count(old(self).summary.total_dirs_processed, 1),
    {
        proof {
            assert(self.data_packer.blobs@.subrange(0, self.data_packer.blobs@.len() as int) =~= self.data_packer.blobs@);
            assert(self.tree_packer.blobs@.subrange(0, self.tree_packer.blobs@.len() as int) =~= self.tree_packer.blobs@);
        }
        let ghost before = *self;
        let (chunk, id) = self.tree.serialize();
        let frame = self.stack.pop().unwrap();
        let Frame { node, tree, parent } = frame;
        let mut node = node;
        node.subtree = Some(id.duplicate());
        node.content = Vec::new();
        let mut closed = tree;
        std::mem::swap(&mut self.tree, &mut closed);
        self.listings.push(ParentTree { id, tree: closed });
        self.parent = parent;
        let ghost top = before.stack@.len() - 1;
        proof {
            assert(before.stack@[top].tree.wf());
            assert forall|k: int| 0 <= k < self.stack@.len() implies (#[trigger] self.stack@[k]).tree.wf()
                && self.parents.valid_cursor(self.stack@[k].parent) && self.refs_known(self.stack@[k].tree.nodes@) by {
                assert(self.stack@[k] == before.stack@[k]);
                assert(before.stack@[k].tree.wf());
            }
            assert(self.path@.len() == self.stack@.len() + 1);
            assert forall|k: int| 0 <= k < self.listings@.len() implies (#[trigger] self.listings@[k]).tree.wf()
                && self.listings@[k].id@ == sha256_of(tree_bytes(self.listings@[k].tree)) by {
                if k < before.listings@.len() {
                    assert(self.listings@[k] == before.listings@[k]);
                }
            }
            assert forall|k: int| 0 <= k < self.listings@.len() implies self.refs_known(#[trigger] self.listings@[k].tree.nodes@) by {
                if k < before.listings@.len() {
                    assert(self.listings@[k] == before.listings@[k]);
                    assert(before.refs_known(before.listings@[k].tree.nodes@));
                } else {
                    assert(self.listings@[k].tree == before.tree);
                }
            }
        }
        self.path.pop();
        proof {
            assert(self.path@.len() == self.stack@.len());
        }
        proof {
            let last = self.listings@.len() - 1;
            assert(self.listings@[last].id@ == node.subtree->0@);
            assert(recorded(self.listings@, node.subtree->0@));
            let ls0 = before.listings@;
            let ls = self.listings@;
            assert(ls.subrange(0, ls0.len() as int) =~= ls0);
            assert(subtrees_recorded(before.stack@[top].tree.nodes@, ls0));
            lemma_recorded_grows(self.tree.nodes@, ls0, ls);
            assert forall|k: int| 0 <= k < self.stack@.len() implies subtrees_recorded(#[trigger] self.stack@[k].tree.nodes@, ls) by {
                assert(self.stack@[k] == before.stack@[k]);
                assert(subtrees_recorded(before.stack@[k].tree.nodes@, ls0));
                lemma_recorded_grows(self.stack@[k].tree.nodes@, ls0, ls);
            }
            assert forall|k: int| 0 <= k < ls.len() implies subtrees_recorded(#[trigger] ls[k].tree.nodes@, ls) by {
                if k < ls0.len() {
                    assert(ls[k] == ls0[k]);
                    assert(subtrees_recorded(ls0[k].tree.nodes@, ls0));
                    lemma_recorded_grows(ls[k].tree.nodes@, ls0, ls);
                } else {
                    assert(ls[k].tree == before.tree);
                    lemma_recorded_grows(ls[k].tree.nodes@, ls0, ls);
                }
            }
        }
        let ghost mid = *self;
        let ghost nn = node;
        self.backup_tree(node, chunk);
        proof {
            let f = old(self).stack@[top];
            assert(mid.tree == f.tree);
            assert(nn.name == f.node.name && nn.kind == f.node.kind && nn.meta == f.node.meta);
            let j = choose|j: int| 0 <= j < self.tree.nodes@.len() && self.tree.nodes@[j] == nn;
            assert(self.tree.nodes@[j].name == f.node.name);
            let l = self.listings@.last();
            assert(l == mid.listings@.last());
            assert(l.id@ == nn.subtree->0@);
            assert(nn.content@.len() == 0);
            assert forall|i: int| 0 <= i < self.tree.nodes@.len() implies (#[trigger] self.tree.nodes@[i]).name@ == f.node.name@
                || f.tree.nodes@.contains(self.tree.nodes@[i]) by {
                if self.tree.nodes@[i] == nn {
                    assert(nn.name@ == f.node.name@);
                }
            }
            assert(frame_filed(self.tree, f, l));
            assert(mid.data_packer == before.data_packer && mid.tree_packer == before.tree_packer);
            assert(mid.parents.result_spec(mid.parent, nn) == old(self).parents.result_spec(f.parent, f.node));
            assert(mid.tree_unchanged(nn) == dir_unchanged(old(self).parents, f.parent, f.node, l.id@));
            assert(l.tree == old(self).tree);
            let kn = Set::new(|x: Seq<u8>| old(self).tree_known(x));
            assert(kn.contains(l.id@) == mid.tree_known(nn.subtree->0@));
            assert forall|x: Seq<u8>| #[trigger] self.tree_known(x) == dir_step(old(self).summary, kn, old(self).parents, f, l).1.contains(x) by {
                assert(mid.tree_known(x) == old(self).tree_known(x));
            }
            assert(mid.data_packer.blobs@.subrange(0, mid.data_packer.blobs@.len() as int) =~= mid.data_packer.blobs@);
            assert(mid.tree_packer.blobs@.subrange(0, mid.tree_packer.blobs@.len() as int) =~= mid.tree_packer.blobs@);
            lemma_grown_transitive(&before, &mid, self);
            assert(self.path@.len() + 1 == before.path@.len());
        }
        proof {
            assert(self.path@ =~= old(self).path@.drop_last());
            assert(self.stack@ =~= old(self).stack@.drop_last());
            assert(self.listings@.drop_last() =~= old(self).listings@);
        }
    }

    /// The chunk `x` is known to the data side of this run.
    pub open spec fn data_known(&self, x: Seq<u8>) -> bool {
        known(self.index.data@, self.data_packer.blobs@, x)
    }

    /// The bytes the data packer credits for a chunk `x` of `len` bytes.
    pub open spec fn data_credit(&self, x: Seq<u8>, len: nat) -> u64 {
        if self.data_known(x) { 0 } else { len as u64 }
    }

    /// Hands a chunk to the data packer unless the index already has it.
    fn process_data_junk(&mut self, id: &Id, chunk: &[u8], size: u64)
        requires
            old(self).wf(),
        ensures
            final(self).wf(),
            final(self).summary == old(self).summary.count_data(old(self).data_credit(id@, chunk@.len()), size),
            final(self).data_known(id@),
            old(self).data_known(id@) ==> final(self).data_packer.blobs@ == old(self).data_packer.blobs@,
            !old(self).data_known(id@) ==> final(self).data_packer.blobs@ == old(self).data_packer.blobs@.push(final(self).data_packer.blobs@.last())
                && final(self).data_packer.blobs@.last().id@ == id@ && final(self).data_packer.blobs@.last().data@ == chunk@,
            forall|x: Seq<u8>| #[trigger] final(self).data_known(x) == (old(self).data_known(x) || x == id@),
            final(self).listings == old(self).listings,
            final(self).packers_grew(old(self)),
            final(self).tree_packer == old(self).tree_packer,
            final(self).path == old(self).path,
            final(self).stack == old(self).stack,
            final(self).tree == old(self).tree,
            final(self).index == old(self).index,
            final(self).parent == old(self).parent,
            final(self).parents == old(self).parents,
            final(self).chunking == old(self).chunking,
    {
        let ghost before = *self;
        if !self.index.has_data(id) {
            let ghost db0 = self.data_packer.blobs@;
            let packed = self.data_packer.add(chunk, id);
            proof {
                if !has_id(blob_ids(db0), id@) {
                    assert(self.data_packer.blobs@ =~= db0.push(self.data_packer.blobs@.last()));
                }
            }
            if packed != 0 {
                self.summary.data_blobs = bump(self.summary.data_blobs, 1);
                self.summary.data_added = bump(self.summary.data_added, size);
                self.summary.data_added_packed = bump(self.summary.data_added_packed, packed);
                self.summary.data_added_files = bump(self.summary.data_added_files, size);
                self.summary.data_added_files_packed = bump(self.summary.data_added_files_packed, packed);
            }
        }
        proof {
            assert(before.data_packer.blobs@.subrange(0, before.data_packer.blobs@.len() as int) =~= before.data_packer.blobs@);
            assert(self.data_packer.blobs@.subrange(0, self.data_packer.blobs@.len() as int) =~= self.data_packer.blobs@);
            assert(self.tree_packer.blobs@.subrange(0, self.tree_packer.blobs@.len() as int) =~= self.tree_packer.blobs@);
            self.lemma_grown_wf(&before);
            let b0 = before.data_packer.blobs@;
            let b1 = self.data_packer.blobs@;
            assert forall|x: Seq<u8>| #[trigger] self.data_known(x) == (before.data_known(x) || x == id@) by {
                if before.data_known(x) && has_id(blob_ids(b0), x) {
                    lemma_prefix_ids(b0, b1, x);
                }
                if has_id(blob_ids(b1), x) && !has_id(blob_ids(b0), x) && x != id@ {
                    let m = choose|m: int| 0 <= m < blob_ids(b1).len() && (#[trigger] blob_ids(b1)[m])@ == x;
                    assert(blob_ids(b1)[m] == b1[m].id);
                    if m < b0.len() {
                        assert(b1.subrange(0, b0.len() as int)[m] == b1[m]);
                        assert(blob_ids(b0)[m] == b0[m].id);
                    } else {
                        assert(b1.len() == b0.len() + 1);
                    }
                }
            }
        }
    }

    /// Chunks `data`, the whole content of the file `node`, hands the new
    /// chunks to the data packer, and files the entry with its chunk ids.
    pub fn backup_reader(&mut self, data: &[u8], node: Node)
        requires
            old(self).wf(),
        ensures
            final(self).wf(),
            exists|j: int| 0 <= j < final(self).tree.nodes@.len()
                && (#[trigger] final(self).tree.nodes@[j]).name == node.name
                && final(self).tree.nodes@[j].kind == node.kind
                && final(self).tree.nodes@[j].meta == node.meta
                && ids_of_chunks(final(self).tree.nodes@[j].content@, chunks_of(data@, old(self).chunking)),
            forall|i: int| 0 <= i < old(self).tree.nodes@.len() && #[trigger] old(self).tree.nodes@[i].name@ != node.name@
                ==> final(self).tree.nodes@.contains(old(self).tree.nodes@[i]),
            forall|i: int| 0 <= i < final(self).tree.nodes@.len() ==> (#[trigger] final(self).tree.nodes@[i]).name == node.name
                || old(self).tree.nodes@.contains(final(self).tree.nodes@[i]),
            final(self).listings == old(self).listings,
            final(self).summary == count_chunks(
                old(self).summary,
                Set::new(|x: Seq<u8>| old(self).data_known(x)),
                chunks_of(data@, old(self).chunking),
            ).count_file(old(self).parents.result_spec(old(self).parent, node), data@.len() as u64),
            final(self).summary.same_file_counts(
                old(self).summary.count_file(old(self).parents.result_spec(old(self).parent, node), data@.len() as u64),
            ),
            (forall|j: int| 0 <= j < chunks_of(data@, old(self).chunking).len()
                ==> old(self).data_known(sha256_of(#[trigger] chunks_of(data@, old(self).chunking)[j])))
                ==> final(self).summary == old(self).summary.count_file(
                    old(self).parents.result_spec(old(self).parent, node), data@.len() as u64),
            forall|j: int| 0 <= j < chunks_of(data@, old(self).chunking).len()
                ==> final(self).data_known(sha256_of(#[trigger] chunks_of(data@, old(self).chunking)[j])),
            final(self).packers_grew(old(self)),
            final(self).tree_packer == old(self).tree_packer,
            blob_data(final(self).data_packer.blobs@.skip(old(self).data_packer.blobs@.len() as int)) == new_chunks(
                Set::new(|x: Seq<u8>| old(self).data_known(x)),
                chunks_of(data@, old(self).chunking),
            ),
            forall|m: int| old(self).data_packer.blobs@.len() <= m < final(self).data_packer.blobs@.len()
                ==> (#[trigger] final(self).data_packer.blobs@[m]).id@ == sha256_of(final(self).data_packer.blobs@[m].data@),
            (forall|j: int| 0 <= j < chunks_of(data@, old(self).chunking).len()
                ==> old(self).data_known(sha256_of(#[trigger] chunks_of(data@, old(self).chunking)[j])))
                ==> final(self).data_packer.blobs@ == old(self).data_packer.blobs@,
            final(self).path == old(self).path,
            final(self).stack == old(self).stack,
            final(self).index == old(self).index,
            final(self).parent == old(self).parent,
            final(self).parents == old(self).parents,
            final(self).chunking == old(self).chunking,
    {
        let chunks = split(data, &self.chunking);
        let ghost cs = chunks_of(data@, self.chunking);
        let ghost all_known = forall|j: int| 0 <= j < cs.len() ==> old(self).data_known(sha256_of(#[trigger] cs[j]));
        let mut content: Vec<Id> = Vec::new();
        let mut i: usize = 0;
        proof {
            assert(self.data_packer.blobs@.subrange(0, self.data_packer.blobs@.len() as int) =~= self.data_packer.blobs@);
            assert(self.tree_packer.blobs@.subrange(0, self.tree_packer.blobs@.len() as int) =~= self.tree_packer.blobs@);
        }
        let ghost ol = self.data_packer.blobs@.len() as int;
        let ghost k00 = Set::new(|x: Seq<u8>| old(self).data_known(x));
        proof {
            assert(blob_data(self.data_packer.blobs@.skip(ol)) =~= Seq::<Seq<u8>>::empty());
            assert(Seq::<Seq<u8>>::empty() + new_chunks(k00, cs) =~= new_chunks(k00, cs));
            assert(cs.skip(0) =~= cs);
            assert(Set::new(|x: Seq<u8>| self.data_known(x)) =~= Set::new(|x: Seq<u8>| old(self).data_known(x)));
        }
        while i < chunks.len()
            invariant
                self.wf(),
                views(chunks@) == cs,
                cs == chunks_of(data@, old(self).chunking),
                i <= chunks@.len(),
                content@.len() == i,
                forall|j: int| 0 <= j < i ==> (#[trigger] content@[j])@ == sha256_of(cs[j]),
                forall|j: int| 0 <= j < i ==> self.data_known(#[trigger] content@[j]@),
                forall|j: int| 0 <= j < i ==> self.data_known(sha256_of(#[trigger] cs[j])),
                self.summary.same_file_counts(old(self).summary),
                all_known == (forall|j: int| 0 <= j < cs.len() ==> old(self).data_known(sha256_of(#[trigger] cs[j]))),
                all_known ==> self.summary == old(self).summary,
                self.packers_grew(old(self)),
                self.tree == old(self).tree,
                self.path == old(self).path,
                self.stack == old(self).stack,
                self.index == old(self).index,
                self.parent == old(self).parent,
                self.parents == old(self).parents,
                count_chunks(self.summary, Set::new(|x: Seq<u8>| self.data_known(x)), cs.skip(i as int))
                    == count_chunks(old(self).summary, Set::new(|x: Seq<u8>| old(self).data_known(x)), cs),
                self.listings == old(self).listings,
                self.chunking == old(self).chunking,
                self.tree_packer == old(self).tree_packer,
                ol == old(self).data_packer.blobs@.len(),
                k00 == Set::new(|x: Seq<u8>| old(self).data_known(x)),
                blob_data(self.data_packer.blobs@.skip(ol)) + new_chunks(Set::new(|x: Seq<u8>| self.data_known(x)), cs.skip(i as int))
                    == new_chunks(k00, cs),
                forall|m: int| ol <= m < self.data_packer.blobs@.len()
                    ==> (#[trigger] self.data_packer.blobs@[m]).id@ == sha256_of(self.data_packer.blobs@[m].data@),
                all_known ==> self.data_packer.blobs@ == old(self).data_packer.blobs@,
            decreases chunks@.len() - i,
        {
            let chunk = &chunks[i];
            assert(chunk@ == cs[i as int]);
            let id = Id::hash(chunk.as_slice());
            let ghost before = *self;
            proof {
                if all_known {
                    assert(old(self).data_known(sha256_of(cs[i as int])));
                    if has_id(blob_ids(old(self).data_packer.blobs@), id@) {
                        lemma_prefix_ids(old(self).data_packer.blobs@, self.data_packer.blobs@, id@);
                    }
                }
            }
            self.process_data_junk(&id, chunk.as_slice(), chunk.len() as u64);
            proof {
                let k0 = Set::new(|x: Seq<u8>| before.data_known(x));
                let k1 = Set::new(|x: Seq<u8>| self.data_known(x));
                assert(k1 =~= k0.insert(id@));
                assert(cs.skip(i as int).drop_first() =~= cs.skip(i + 1));
                assert(cs.skip(i as int)[0] == cs[i as int]);
                assert(k0.contains(id@) == before.data_known(id@));
                assert(count_chunks(before.summary, k0, cs.skip(i as int)) == count_chunks(self.summary, k1, cs.skip(i + 1)));
                let b0 = before.data_packer.blobs@;
                let b1 = self.data_packer.blobs@;
                let r1 = new_chunks(k1, cs.skip(i + 1));
                assert(new_chunks(k0, cs.skip(i as int)) == if k0.contains(id@) { r1 } else { seq![cs[i as int]] + r1 });
                if before.data_known(id@) {
                    assert(b1.skip(ol) =~= b0.skip(ol));
                } else {
                    assert(b1.skip(ol) =~= b0.skip(ol).push(b1.last()));
                    assert(blob_data(b1.skip(ol)) =~= blob_data(b0.skip(ol)).push(cs[i as int]));
                    assert(blob_data(b1.skip(ol)) + r1 =~= blob_data(b0.skip(ol)) + (seq![cs[i as int]] + r1));
                }
                assert forall|m: int| ol <= m < b1.len() implies (#[trigger] b1[m]).id@ == sha256_of(b1[m].data@) by {
                    if m < b0.len() {
                        assert(b1[m] == b0[m]);
                    }
                }
                lemma_grown_transitive(old(self), &before, self);
                assert forall|j: int| 0 <= j < i implies self.data_known(#[trigger] content@[j]@) by {
                    assert(before.data_known(content@[j]@));
                    if has_id(blob_ids(before.data_packer.blobs@), content@[j]@) {
                        lemma_prefix_ids(before.data_packer.blobs@, self.data_packer.blobs@, content@[j]@);
                    }
                }
            }
            content.push(id);
            i += 1;
            proof {
                assert forall|j: int| 0 <= j < i implies self.data_known(sha256_of(#[trigger] cs[j])) by {
                    assert(content@[j]@ == sha256_of(cs[j]));
                }
            }
        }
        let mut node = node;
        let ghost n0 = node;
        node.content = content;
        node.subtree = None;
        let ghost n1 = node;
        proof {
            assert forall|j: int| 0 <= j < n1.content@.len() implies known(self.index.data@, self.data_packer.blobs@, (#[trigger] n1.content@[j])@) by {
                assert(self.data_known(content@[j]@));
            }
            assert(ids_of_chunks(n1.content@, cs));
            assert(self.parents.result_spec(self.parent, n1) == self.parents.result_spec(self.parent, n0));
        }
        self.add_file(node, data.len() as u64);
        proof {
            let j = choose|j: int| 0 <= j < self.tree.nodes@.len() && self.tree.nodes@[j] == n1;
            assert(self.tree.nodes@[j].name == n0.name);
        }
    }

    /// Files the entry of a regular file. When the parent holds it
    /// unchanged and the index holds all its chunks, the parent's chunk ids
    /// are reused and `None` comes back; otherwise the entry comes back,
    /// and its content must be read and given to `backup_reader`.
    pub fn backup_file(&mut self, node: Node) -> (r: Option<Node>)
        requires
            old(self).wf(),
        ensures
            final(self).wf(),
            r is None <==> old(self).reusable(node),
            r matches Some(n) ==> n == node && *final(self) == *old(self),
            r is None ==> final(self).summary == old(self).summary.count_file(
                old(self).parents.result_spec(old(self).parent, node),
                old(self).parent_entry(node).meta.size,
            ) && exists|j: int| 0 <= j < final(self).tree.nodes@.len()
                && (#[trigger] final(self).tree.nodes@[j]).name == node.name
                && final(self).tree.nodes@[j].kind == node.kind
                && final(self).tree.nodes@[j].meta == node.meta
                && same_ids(final(self).tree.nodes@[j].content@, old(self).parent_entry(node).content@),
            final(self).packers_grew(old(self)),
            final(self).path == old(self).path,
            final(self).stack == old(self).stack,
            final(self).index == old(self).index,
            final(self).parent == old(self).parent,
            final(self).parents == old(self).parents,
            final(self).chunking == old(self).chunking,
            final(self).data_packer == old(self).data_packer,
            final(self).tree_packer == old(self).tree_packer,
            final(self).listings == old(self).listings,
    {
        proof {
            assert(self.data_packer.blobs@.subrange(0, self.data_packer.blobs@.len() as int) =~= self.data_packer.blobs@);
            assert(self.tree_packer.blobs@.subrange(0, self.tree_packer.blobs@.len() as int) =~= self.tree_packer.blobs@);
        }
        match (self.parents.is_parent(self.parent, &node), self.parent) {
            (ParentResult::Matched(i), Some(k)) => {
                let p = &self.parents.trees[k].tree.nodes[i];
                let mut all = true;
                let mut content: Vec<Id> = Vec::new();
                let mut j: usize = 0;
                while j < p.content.len()
                    invariant
                        j <= p.content@.len(),
                        content@.len() == j,
                        forall|m: int| 0 <= m < j ==> (#[trigger] content@[m])@ == p.content@[m]@,
                        all == (forall|m: int| 0 <= m < j ==> has_id(self.index.data@, (#[trigger] p.content@[m])@)),
                    decreases p.content@.len() - j,
                {
                    if !self.index.has_data(&p.content[j]) {
                        all = false;
                    }
                    content.push(p.content[j].duplicate());
                    j += 1;
                }
                if all {
                    let size = p.meta.size;
                    let mut node = node;
                    let ghost n0 = node;
                    node.content = content;
                    node.subtree = None;
                    let ghost n1 = node;
                    proof {
                        assert forall|m: int| 0 <= m < n1.content@.len() implies known(self.index.data@, self.data_packer.blobs@, (#[trigger] n1.content@[m])@) by {
                            assert(has_id(self.index.data@, p.content@[m]@));
                        }
                        assert(self.parents.result_spec(self.parent, n1) == self.parents.result_spec(self.parent, n0));
                    }
                    self.add_file(node, size);
                    proof {
                        let jj = choose|jj: int| 0 <= jj < self.tree.nodes@.len() && self.tree.nodes@[jj] == n1;
                        assert(self.tree.nodes@[jj].name == n0.name);
                    }
                    return None;
                }
                Some(node)
            },
            _ => Some(node),
        }
    }

    /// The parent's entry of the same name as `n`, where the parent matched it.
    pub open spec fn parent_entry(&self, n: Node) -> Node {
        self.parents.listing(self.parent)[self.parents.result_spec(self.parent, n)->0 as int]
    }

    /// The parent holds `n` unchanged, and the index all its chunks.
    pub open spec fn reusable(&self, n: Node) -> bool {
        &&& self.parents.result_spec(self.parent, n) is Matched
        &&& forall|m: int| 0 <= m < self.parent_entry(n).content@.len()
            ==> has_id(self.index.data@, (#[trigger] self.parent_entry(n).content@[m])@)
    }

    /// Takes the next entry of a preorder walk at snapshot path `path`.
    /// Directories left behind are closed, missing directories opened (the
    /// entry's own for a directory, empty ones for the rest). A regular
    /// file goes to `backup_file`, whose answer comes back; any other kind
    /// is filed as it is.
    #[verifier::rlimit(100)]
    #[verifier::spinoff_prover]
    pub fn add_entry(&mut self, path: &[u8], node: Node) -> (r: Result<Option<Node>, ArchiverError>)
        requires
            old(self).wf(),
        ensures
            final(self).wf(),
            r == Err::<Option<Node>, ArchiverError>(ArchiverError::BadPath) <==> has_dot_component(components(path@)),
            r == Err::<Option<Node>, ArchiverError>(ArchiverError::NoParent) <==> !has_dot_component(components(path@))
                && !(node.kind is Dir) && components(path@).len() == 0,
            r is Err ==> *final(self) == *old(self),
            r is Ok ==> comp_views(final(self).path@) == entry_base(components(path@), node.kind is Dir),
            r matches Ok(Some(n)) ==> n == node && node.kind is File,
            r is Ok && (node.kind is Dir || r matches Ok(Some(_))) ==> final(self).summary.same_file_counts(old(self).summary),
            r == Ok::<Option<Node>, ArchiverError>(None) && !(node.kind is Dir) ==> exists|j: int|
                0 <= j < final(self).tree.nodes@.len() && (#[trigger] final(self).tree.nodes@[j]).name == node.name
                && final(self).tree.nodes@[j].kind == node.kind && final(self).tree.nodes@[j].meta == node.meta,
            r is Ok && node.kind is Dir && !is_prefix(entry_base(components(path@), true), comp_views(old(self).path@))
                ==> final(self).stack@.len() > 0 && final(self).stack@.last().node == node
                && final(self).tree.nodes@.len() == 0,
            r is Ok ==> final(self).listings@.len() >= old(self).listings@.len()
                && final(self).listings@.subrange(0, old(self).listings@.len() as int) == old(self).listings@,
            r is Ok && is_prefix(comp_views(old(self).path@), entry_base(components(path@), node.kind is Dir))
                ==> final(self).listings@ == old(self).listings@,
            r is Ok ==> forall|k: int| 0 <= k < old(self).stack@.len() - (final(self).listings@.len() - old(self).listings@.len())
                ==> #[trigger] final(self).stack@[k] == old(self).stack@[k],
            r is Ok ==> forall|k: int| old(self).stack@.len() - (final(self).listings@.len() - old(self).listings@.len()) <= k
                < final(self).stack@.len() ==> if node.kind is Dir && k == final(self).stack@.len() - 1 {
                    (#[trigger] final(self).stack@[k]).node == node
                } else {
                    final(self).stack@[k].node.kind is Dir && meta_is_empty(final(self).stack@[k].node.meta)
                    && final(self).stack@[k].node.name@ == comp_views(final(self).path@)[k]
                    && final(self).stack@[k].node.content@.len() == 0 && final(self).stack@[k].node.subtree is None
                },
            r is Ok && (node.kind is Dir || r matches Ok(Some(_))) ==> final(self).summary == closed_run(old(self).summary,
                Set::new(|x: Seq<u8>| old(self).tree_known(x)), old(self).parents, old(self).stack@,
                final(self).listings@.subrange(old(self).listings@.len() as int, final(self).listings@.len() as int)).0,
            r == Ok::<Option<Node>, ArchiverError>(None) && !(node.kind is Dir) ==> final(self).summary == closed_run(old(self).summary,
                Set::new(|x: Seq<u8>| old(self).tree_known(x)), old(self).parents, old(self).stack@,
                final(self).listings@.subrange(old(self).listings@.len() as int, final(self).listings@.len() as int)).0.count_file(
                    final(self).parents.result_spec(final(self).parent, node),
                    if node.kind is File { final(self).parent_entry(node).meta.size } else { 0 },
                ),
            r is Ok ==> forall|x: Seq<u8>| #[trigger] final(self).tree_known(x) == closed_run(old(self).summary,
                Set::new(|x: Seq<u8>| old(self).tree_known(x)), old(self).parents, old(self).stack@,
                final(self).listings@.subrange(old(self).listings@.len() as int, final(self).listings@.len() as int)).1.contains(x),
            node.kind is File && r is Ok ==> (r matches Ok(Some(_)) <==> !final(self).reusable(node)),
            r is Ok && final(self).stack@.len() > old(self).stack@.len() - (final(self).listings@.len() - old(self).listings@.len()) ==> ({
                let m0 = old(self).stack@.len() - (final(self).listings@.len() - old(self).listings@.len());
                &&& final(self).listings@.len() == old(self).listings@.len()
                    ==> final(self).stack@[m0].tree == old(self).tree && final(self).stack@[m0].parent == old(self).parent
                &&& final(self).listings@.len() > old(self).listings@.len()
                    ==> frame_filed(final(self).stack@[m0].tree, old(self).stack@[m0], final(self).listings@.last())
                    && final(self).stack@[m0].parent == old(self).stack@[m0].parent
                &&& sub_cursor(final(self).parents, final(self).stack@.last().parent, final(self).stack@.last().node.name@, final(self).parent)
            }),
            r matches Ok(Some(_)) && final(self).stack@.len() == old(self).stack@.len() - (final(self).listings@.len() - old(self).listings@.len()) ==> ({
                let m0 = old(self).stack@.len() - (final(self).listings@.len() - old(self).listings@.len());
                &&& final(self).listings@.len() == old(self).listings@.len()
                    ==> final(self).tree == old(self).tree && final(self).parent == old(self).parent
                &&& final(self).listings@.len() > old(self).listings@.len()
                    ==> frame_filed(final(self).tree, old(self).stack@[m0], final(self).listings@.last())
                    && final(self).parent == old(self).stack@[m0].parent
            }),
            r matches Ok(Some(_)) && final(self).stack@.len() > old(self).stack@.len() - (final(self).listings@.len() - old(self).listings@.len())
                ==> final(self).tree.nodes@.len() == 0,
            r is Ok ==> forall|k: int| old(self).stack@.len() - (final(self).listings@.len() - old(self).listings@.len()) < k < final(self).stack@.len()
                ==> sub_cursor(final(self).parents, final(self).stack@[k - 1].parent, final(self).stack@[k - 1].node.name@, (#[trigger] final(self).stack@[k]).parent),
            final(self).index == old(self).index,
            final(self).parents == old(self).parents,
            final(self).chunking == old(self).chunking,
    {
        let comps = match split_path(path) {
            Ok(c) => c,
            Err(_) => {
                return Err(ArchiverError::BadPath);
            },
        };
        let is_dir = node.is_dir();
        if !is_dir && comps.len() == 0 {
            return Err(ArchiverError::NoParent);
        }
        let base_len: usize = if is_dir { comps.len() } else { comps.len() - 1 };
        let mut base: Vec<Vec<u8>> = Vec::new();
        let mut b: usize = 0;
        while b < base_len
            invariant
                b <= base_len <= comps@.len(),
                comp_views(base@) == comp_views(comps@).subrange(0, b as int),
            decreases base_len - b,
        {
            let ghost prev = base@;
            base.push(copy_bytes(comps[b].as_slice()));
            assert(comp_views(comps@)[b as int] == comps@[b as int]@);
            assert(comp_views(base@) =~= comp_views(prev).push(comps@[b as int]@));
            b += 1;
            assert(comp_views(base@) =~= comp_views(comps@).subrange(0, b as int));
        }
        let ghost bv = comp_views(base@);
        let ghost ov = comp_views(self.path@);
        assert(bv == entry_base(components(path@), is_dir));
        self.finish_trees(&base);
        let ghost mid = *self;
        let ghost pf = comp_views(self.path@);
        proof {
            if pf.len() >= base_len {
                assert(pf =~= bv);
                assert(ov.subrange(0, pf.len() as int) == pf);
            }
            if is_prefix(ov, bv) {
                assert(ov.subrange(0, ov.len() as int) =~= ov);
                assert(self.listings@.subrange(0, old(self).listings@.len() as int) =~= self.listings@);
            }
        }
        let stop: usize = if is_dir && self.path.len() < base_len { base_len - 1 } else { base_len };
        while self.path.len() < stop
            invariant
                self.wf(),
                stop <= base_len,
                base_len == base@.len(),
                bv == comp_views(base@),
                is_prefix(comp_views(self.path@), bv),
                pf.len() >= base_len ==> comp_views(self.path@) == pf,
                pf.len() >= base_len ==> is_prefix(bv, ov),
                self.summary.same_file_counts(old(self).summary),
                pf.len() < base_len ==> self.path@.len() <= stop,
                is_dir && pf.len() < base_len ==> stop == base_len - 1,
                bv == entry_base(components(path@), is_dir),
                ov == comp_views(old(self).path@),
                self.index == old(self).index,
                self.parents == old(self).parents,
                self.chunking == old(self).chunking,
                self.listings == mid.listings,
                self.tree_packer == mid.tree_packer,
                self.summary == mid.summary,
                mid.stack@.len() <= self.stack@.len(),
                self.stack@.subrange(0, mid.stack@.len() as int) == mid.stack@,
                forall|k: int| mid.stack@.len() <= k < self.stack@.len() ==>
                    (#[trigger] self.stack@[k]).node.kind is Dir && meta_is_empty(self.stack@[k].node.meta)
                    && self.stack@[k].node.name@ == comp_views(self.path@)[k]
                    && self.stack@[k].node.content@.len() == 0 && self.stack@[k].node.subtree is None,
                self.stack@.len() > mid.stack@.len() ==> self.stack@[mid.stack@.len() as int].tree == mid.tree
                    && self.stack@[mid.stack@.len() as int].parent == mid.parent,
                self.stack@.len() == mid.stack@.len() ==> self.tree == mid.tree && self.parent == mid.parent,
                self.stack@.len() > mid.stack@.len() ==> self.tree.nodes@.len() == 0,
                self.stack@.len() > mid.stack@.len() ==> sub_cursor(self.parents, self.stack@.last().parent, self.stack@.last().node.name@, self.parent),
                forall|k: int| mid.stack@.len() < k < self.stack@.len() ==> sub_cursor(self.parents, self.stack@[k - 1].parent,
                    self.stack@[k - 1].node.name@, (#[trigger] self.stack@[k]).parent),
            decreases stop - self.path@.len(),
        {
            let j = self.path.len();
            assert(comp_views(self.path@) == bv.subrange(0, j as int));
            assert(comp_views(base@)[j as int] == base@[j as int]@);
            let dnode = Node::new(copy_bytes(base[j].as_slice()), NodeKind::Dir, Meta::empty());
            let sub = self.parents.sub_parent(self.parent, &dnode);
            let ghost pre = *self;
            self.enter(dnode, sub, copy_bytes(base[j].as_slice()));
            assert(self.path@.len() == j + 1);
            assert(bv.subrange(0, j + 1) =~= bv.subrange(0, j as int).push(bv[j as int]));
            proof {
                assert(self.stack@.subrange(0, mid.stack@.len() as int) =~= pre.stack@.subrange(0, mid.stack@.len() as int));
                assert forall|k: int| mid.stack@.len() <= k < self.stack@.len() implies
                    (#[trigger] self.stack@[k]).node.kind is Dir && meta_is_empty(self.stack@[k].node.meta)
                    && self.stack@[k].node.name@ == comp_views(self.path@)[k]
                    && self.stack@[k].node.content@.len() == 0 && self.stack@[k].node.subtree is None by {
                    assert(comp_views(self.path@)[k] == comp_views(pre.path@).push(base@[j as int]@)[k]);
                    if k < pre.stack@.len() {
                        assert(self.stack@[k] == pre.stack@[k]);
                    }
                }
                assert(self.stack@.last() == self.stack@[self.stack@.len() - 1]);
                if pre.stack@.len() > mid.stack@.len() {
                    assert(self.stack@[mid.stack@.len() as int] == pre.stack@[mid.stack@.len() as int]);
                    assert(pre.stack@.last() == pre.stack@[pre.stack@.len() - 1]);
                    assert(self.stack@[pre.stack@.len() - 1] == pre.stack@[pre.stack@.len() - 1]);
                }
                assert forall|k: int| mid.stack@.len() < k < self.stack@.len() implies sub_cursor(self.parents, self.stack@[k - 1].parent,
                    self.stack@[k - 1].node.name@, (#[trigger] self.stack@[k]).parent) by {
                    if k < pre.stack@.len() {
                        assert(self.stack@[k] == pre.stack@[k]);
                        assert(self.stack@[k - 1] == pre.stack@[k - 1]);
                    } else {
                        assert(self.stack@[k] == self.stack@.last());
                        assert(self.stack@[k - 1] == pre.stack@.last());
                    }
                }
            }
        }
        proof {
            let cl = self.listings@.len() - old(self).listings@.len();
            assert(mid.path@.len() == old(self).path@.len() - cl);
            assert forall|k: int| 0 <= k < old(self).stack@.len() - cl implies #[trigger] self.stack@[k] == old(self).stack@[k] by {
                assert(self.stack@.subrange(0, mid.stack@.len() as int)[k] == mid.stack@[k]);
                assert(old(self).stack@.subrange(0, mid.path@.len() as int)[k] == old(self).stack@[k]);
            }
            if cl == 0 {
                assert(mid == *old(self));
            }
        }
        if is_dir {
            if self.path.len() < base_len {
                let j = self.path.len();
                assert(comp_views(self.path@) == bv.subrange(0, j as int));
                assert(comp_views(base@)[j as int] == base@[j as int]@);
                let sub = self.parents.sub_parent(self.parent, &node);
                let ghost pre = *self;
                let ghost nn = node;
                self.enter(node, sub, copy_bytes(base[j].as_slice()));
                assert(self.path@.len() == j + 1);
                assert(bv.subrange(0, j + 1) =~= bv.subrange(0, j as int).push(bv[j as int]));
                proof {
                    assert forall|k: int| 0 <= k < pre.stack@.len() implies #[trigger] self.stack@[k] == pre.stack@[k] by {
                        assert(self.stack@.drop_last()[k] == pre.stack@[k]);
                    }
                    assert forall|k: int| mid.stack@.len() <= k < self.stack@.len() - 1 implies
                        (#[trigger] self.stack@[k]).node.name@ == comp_views(self.path@)[k] by {
                        assert(comp_views(self.path@)[k] == comp_views(pre.path@).push(base@[j as int]@)[k]);
                    }
                    assert(self.stack@.last() == self.stack@[self.stack@.len() - 1]);
                    assert(self.stack@[self.stack@.len() - 1].node == nn);
                    if pre.stack@.len() > mid.stack@.len() {
                        assert(self.stack@[mid.stack@.len() as int] == pre.stack@[mid.stack@.len() as int]);
                        assert(pre.stack@.last() == pre.stack@[pre.stack@.len() - 1]);
                    }
                    assert forall|k: int| mid.stack@.len() < k < self.stack@.len() implies sub_cursor(self.parents, self.stack@[k - 1].parent,
                        self.stack@[k - 1].node.name@, (#[trigger] self.stack@[k]).parent) by {
                        if k < pre.stack@.len() {
                            assert(self.stack@[k] == pre.stack@[k]);
                            assert(self.stack@[k - 1] == pre.stack@[k - 1]);
                        } else {
                            assert(self.stack@[k] == self.stack@.last());
                            assert(self.stack@[k - 1] == pre.stack@.last());
                        }
                    }
                }
            }
            assert(comp_views(self.path@) =~= bv);
            assert forall|x: Seq<u8>| #[trigger] self.tree_known(x) == mid.tree_known(x) by {}
            return Ok(None);
        }
        assert(comp_views(self.path@) =~= bv);
        assert forall|x: Seq<u8>| #[trigger] self.tree_known(x) == mid.tree_known(x) by {}
        if node.is_file() {
            let ghost pre = *self;
            let r = self.backup_file(node);
            assert forall|x: Seq<u8>| #[trigger] self.tree_known(x) == pre.tree_known(x) by {}
            Ok(r)
        } else {
            let mut node = node;
            let ghost n0 = node;
            node.content = Vec::new();
            node.subtree = None;
            assert(self.parents.result_spec(self.parent, node) == self.parents.result_spec(self.parent, n0));
            let ghost pre = *self;
            self.add_file(node, 0);
            assert forall|x: Seq<u8>| #[trigger] self.tree_known(x) == pre.tree_known(x) by {}
            Ok(None)
        }
    }

    /// Opens the directory `node` under the path component `name`.
    fn enter(&mut self, node: Node, sub: Option<usize>, name: Vec<u8>)
        requires
            old(self).wf(),
            old(self).parents.valid_cursor(sub),
        ensures
            final(self).wf(),
            comp_views(final(self).path@) == comp_views(old(self).path@).push(name@),
            final(self).path@.len() == old(self).path@.len() + 1,
            final(self).stack@.last().node == node,
            final(self).stack@.last().tree == old(self).tree,
            final(self).stack@.last().parent == old(self).parent,
            final(self).stack@.drop_last() == old(self).stack@,
            final(self).tree.nodes@.len() == 0,
            final(self).parent == sub,
            final(self).summary == old(self).summary,
            final(self).listings == old(self).listings,
            final(self).data_packer == old(self).data_packer,
            final(self).tree_packer == old(self).tree_packer,
            final(self).index == old(self).index,
            final(self).parents == old(self).parents,
            final(self).chunking == old(self).chunking,
    {
        let mut tree = Tree::new();
        std::mem::swap(&mut self.tree, &mut tree);
        let ghost before = self.stack@;
        self.stack.push(Frame { node, tree, parent: self.parent });
        self.parent = sub;
        self.path.push(name);
        proof {
            assert(self.stack@.drop_last() =~= old(self).stack@);
            assert(comp_views(self.path@) =~= comp_views(old(self).path@).push(name@));
            assert forall|k: int| 0 <= k < self.stack@.len() implies (#[trigger] self.stack@[k]).tree.wf()
                && self.parents.valid_cursor(self.stack@[k].parent) && self.refs_known(self.stack@[k].tree.nodes@) by {
                if k < before.len() {
                    assert(self.stack@[k] == old(self).stack@[k]);
                }
            }
        }
    }

    /// Ends the run: closes every open directory, encodes the root listing
    /// and hands it to the tree packer unless stored, and records every new
    /// blob in the index. Every id that the root listing refers to is then
    /// in the index, or is a listing of the parent snapshot.
    #[verifier::rlimit(100)]
    #[verifier::spinoff_prover]
    pub fn finalize_snapshot(self) -> (r: FinishedSnapshot)
        requires
            self.wf(),
        ensures
            has_id(r.index.trees@, r.tree@),
            r.tree@ == sha256_of(tree_bytes(r.root)),
            listings_hashed(r.listings@),
            (forall|x: Seq<u8>| parent_ref(self.parents.trees@, x) ==> has_id(self.index.trees@, x)) ==> (
                forall|i: int| 0 <= i < r.root.nodes@.len() ==> refs_indexed(#[trigger] r.root.nodes@[i], r.index, Seq::empty())),
            (forall|x: Seq<u8>| parent_ref(self.parents.trees@, x) ==> has_id(self.index.trees@, x)) ==> (
                forall|k: int, i: int| 0 <= k < r.listings@.len() && 0 <= i < r.listings@[k].tree.nodes@.len()
                ==> refs_indexed(#[trigger] r.listings@[k].tree.nodes@[i], r.index, Seq::empty())),
            self.stack@.len() == 0 ==> r.root == self.tree,
            self.stack@.len() > 0 ==> frame_filed(r.root, self.stack@[0], r.listings@.last()),
            r.listings@.len() == self.listings@.len() + self.path@.len(),
            r.listings@.subrange(0, self.listings@.len() as int) == self.listings@,
            self.path@.len() > 0 ==> r.listings@[self.listings@.len() as int].tree == self.tree,
            forall|k: int| self.listings@.len() < k < r.listings@.len() ==> frame_filed(
                #[trigger] r.listings@[k].tree,
                self.stack@[self.path@.len() - (k - self.listings@.len())],
                r.listings@[k - 1],
            ),
            r.summary == closed_run(self.summary, Set::new(|x: Seq<u8>| self.tree_known(x)), self.parents,
                self.stack@, r.listings@.subrange(self.listings@.len() as int, r.listings@.len() as int)).0,
            r.summary.same_file_counts(self.summary),
            r.summary.data_blobs == self.summary.data_blobs,
            r.summary.data_added_files == self.summary.data_added_files,
            r.summary.data_added_files_packed == self.summary.data_added_files_packed,
            r.summary.total_dirs_processed == sat_count(self.summary.total_dirs_processed, self.path@.len() as int),
            r.data_blobs@ == self.data_packer.blobs@,
            self.tree_packer.blobs@.len() <= r.tree_blobs@.len(),
            r.tree_blobs@.subrange(0, self.tree_packer.blobs@.len() as int) == self.tree_packer.blobs@,
            forall|i: int| 0 <= i < r.root.nodes@.len() && (#[trigger] r.root.nodes@[i]).subtree is Some
                ==> digest_of_listing(r.listings@, r.root.nodes@[i].subtree->0@),
            forall|k: int, i: int| 0 <= k < r.listings@.len() && 0 <= i < r.listings@[k].tree.nodes@.len()
                && (#[trigger] r.listings@[k].tree.nodes@[i]).subtree is Some
                ==> digest_of_listing(r.listings@, r.listings@[k].tree.nodes@[i].subtree->0@),
            r.root.wf(),
            forall|i: int| 0 <= i < r.root.nodes@.len() ==> refs_indexed(#[trigger] r.root.nodes@[i], r.index, self.parents.trees@),
            forall|k: int, i: int| 0 <= k < r.listings@.len() && 0 <= i < r.listings@[k].tree.nodes@.len()
                ==> refs_indexed(#[trigger] r.listings@[k].tree.nodes@[i], r.index, self.parents.trees@),
            r.index.data@.len() == self.index.data@.len() + r.data_blobs@.len(),
            r.index.trees@.len() == self.index.trees@.len() + r.tree_blobs@.len(),
            r.index.data@.subrange(0, self.index.data@.len() as int) == self.index.data@,
            r.index.trees@.subrange(0, self.index.trees@.len() as int) == self.index.trees@,
    {
        let mut this = self;
        let root: Vec<Vec<u8>> = Vec::new();
        this.finish_trees(&root);
        assert(this.path@.len() == 0);
        let (chunk, id) = this.tree.serialize();
        if !this.index.has_tree(&id) {
            let ghost before = this;
            this.tree_packer.add(chunk.as_slice(), &id);
            proof {
                assert(before.data_packer.blobs@.subrange(0, before.data_packer.blobs@.len() as int) =~= before.data_packer.blobs@);
                this.lemma_grown_wf(&before);
            }
        }
        assert(this.tree_known(id@));
        let Archiver { path: _, tree, parent: _, stack: _, index, data_packer, tree_packer, parents, chunking: _, summary, listings } = this;
        let mut index = index;
        let ghost idx0 = index;
        let ghost db = data_packer.blobs@;
        let ghost tb = tree_packer.blobs@;
        let mut k: usize = 0;
        while k < data_packer.blobs.len()
            invariant
                k <= db.len(),
                db == data_packer.blobs@,
                index.trees@ == idx0.trees@,
                index.data@.len() == idx0.data@.len() + k,
                index.data@.subrange(0, idx0.data@.len() as int) == idx0.data@,
                forall|m: int| 0 <= m < k ==> index.data@[idx0.data@.len() + m]@ == (#[trigger] db[m]).id@,
            decreases db.len() - k,
        {
            index.insert(BlobType::Data, data_packer.blobs[k].id.duplicate());
            k += 1;
            assert(index.data@.subrange(0, idx0.data@.len() as int) =~= idx0.data@);
        }
        let ghost idx1 = index;
        k = 0;
        while k < tree_packer.blobs.len()
            invariant
                k <= tb.len(),
                tb == tree_packer.blobs@,
                index.data@ == idx1.data@,
                index.trees@.len() == idx0.trees@.len() + k,
                index.trees@.subrange(0, idx0.trees@.len() as int) == idx0.trees@,
                forall|m: int| 0 <= m < k ==> index.trees@[idx0.trees@.len() + m]@ == (#[trigger] tb[m]).id@,
            decreases tb.len() - k,
        {
            index.insert(BlobType::Tree, tree_packer.blobs[k].id.duplicate());
            k += 1;
            assert(index.trees@.subrange(0, idx0.trees@.len() as int) =~= idx0.trees@);
        }
        proof {
            lemma_appended_ids(idx0.data@, db, index.data@);
            lemma_appended_ids(idx0.trees@, tb, index.trees@);
            lemma_indexed_from_known(tree.nodes@, idx0.data@, db, idx0.trees@, tb, parents.trees@, index);
            assert forall|k: int, i: int| 0 <= k < listings@.len() && 0 <= i < listings@[k].tree.nodes@.len()
                implies refs_indexed(#[trigger] listings@[k].tree.nodes@[i], index, parents.trees@) by {
                lemma_indexed_from_known(listings@[k].tree.nodes@, idx0.data@, db, idx0.trees@, tb, parents.trees@, index);
            }
            assert(known(idx0.trees@, tb, id@));
            lemma_digests(tree.nodes@, listings@);
            assert forall|kk: int, i: int| 0 <= kk < listings@.len() && 0 <= i < listings@[kk].tree.nodes@.len()
                && (#[trigger] listings@[kk].tree.nodes@[i]).subtree is Some
                implies digest_of_listing(listings@, listings@[kk].tree.nodes@[i].subtree->0@) by {
                lemma_digests(listings@[kk].tree.nodes@, listings@);
            }
        }
        proof {
            if forall|x: Seq<u8>| parent_ref(parents.trees@, x) ==> has_id(idx0.trees@, x) {
                assert forall|x: Seq<u8>| parent_ref(parents.trees@, x) implies has_id(index.trees@, x) by {
                    lemma_has_id_prefix(idx0.trees@, index.trees@, x);
                }
                assert forall|i: int| 0 <= i < tree.nodes@.len() implies refs_indexed(#[trigger] tree.nodes@[i], index, Seq::empty()) by {
                    lemma_closed_under_parent(tree.nodes@[i], index, parents.trees@);
                }
                assert forall|k: int, i: int| 0 <= k < listings@.len() && 0 <= i < listings@[k].tree.nodes@.len()
                    implies refs_indexed(#[trigger] listings@[k].tree.nodes@[i], index, Seq::empty()) by {
                    lemma_closed_under_parent(listings@[k].tree.nodes@[i], index, parents.trees@);
                }
            }
        }
        FinishedSnapshot {
            tree: id,
            root: tree,
            summary,
            data_blobs: data_packer.blobs,
            tree_blobs: tree_packer.blobs,
            index,
            listings,
        }
    }
}

/// Referential closure: when the index holds every listing that the parent
/// snapshot refers to, an entry whose references are indexed up to the
/// parent's listings refers only to blobs in the index.
pub proof fn lemma_closed_under_parent(n: Node, idx: Index, ps: Seq<ParentTree>)
    requires
        refs_indexed(n, idx, ps),
        forall|x: Seq<u8>| parent_ref(ps, x) ==> has_id(idx.trees@, x),
    ensures
        forall|j: int| 0 <= j < n.content@.len() ==> has_id(idx.data@, (#[trigger] n.content@[j])@),
        n.subtree is Some ==> has_id(idx.trees@, n.subtree->0@),
{
}

proof fn lemma_appended_ids(idx0: Seq<Id>, blobs: Seq<Blob>, idx: Seq<Id>)
    requires
        idx.len() == idx0.len() + blobs.len(),
        idx.subrange(0, idx0.len() as int) == idx0,
        forall|m: int| 0 <= m < blobs.len() ==> idx[idx0.len() + m]@ == (#[trigger] blobs[m]).id@,
    ensures
        forall|x: Seq<u8>| known(idx0, blobs, x) ==> has_id(idx, x),
{
    assert forall|x: Seq<u8>| known(idx0, blobs, x) implies has_id(idx, x) by {
        if has_id(idx0, x) {
            let m = choose|m: int| 0 <= m < idx0.len() && (#[trigger] idx0[m])@ == x;
            assert(idx.subrange(0, idx0.len() as int)[m] == idx[m]);
        } else {
            let m = choose|m: int| 0 <= m < blob_ids(blobs).len() && (#[trigger] blob_ids(blobs)[m])@ == x;
            assert(blob_ids(blobs)[m] == blobs[m].id);
            assert(idx[idx0.len() + m]@ == blobs[m].id@);
        }
    }
}

proof fn lemma_indexed_from_known(ns: Seq<Node>, di: Seq<Id>, db: Seq<Blob>, ti: Seq<Id>, tb: Seq<Blob>, ps: Seq<ParentTree>, index: Index)
    requires
        nodes_known(ns, di, db, ti, tb, ps),
        forall|x: Seq<u8>| known(di, db, x) ==> has_id(index.data@, x),
        forall|x: Seq<u8>| known(ti, tb, x) ==> has_id(index.trees@, x),
    ensures
        forall|i: int| 0 <= i < ns.len() ==> refs_indexed(#[trigger] ns[i], index, ps),
{
    assert forall|i: int| 0 <= i < ns.len() implies refs_indexed(#[trigger] ns[i], index, ps) by {
        let n = ns[i];
        assert(node_known(n, di, db, ti, tb, ps));
        assert forall|j: int| 0 <= j < n.content@.len() implies has_id(index.data@, (#[trigger] n.content@[j])@) by {
            assert(known(di, db, n.content@[j]@));
        }
    }
}

proof fn lemma_digests(ns: Seq<Node>, ls: Seq<ParentTree>)
    requires
        subtrees_recorded(ns, ls),
        listings_hashed(ls),
    ensures
        forall|i: int| 0 <= i < ns.len() && (#[trigger] ns[i]).subtree is Some ==> digest_of_listing(ls, ns[i].subtree->0@),
{
    assert forall|i: int| 0 <= i < ns.len() && (#[trigger] ns[i]).subtree is Some implies digest_of_listing(ls, ns[i].subtree->0@) by {
        let k = choose|k: int| 0 <= k < ls.len() && (#[trigger] ls[k]).id@ == ns[i].subtree->0@;
        assert(ls[k].id@ == sha256_of(tree_bytes(ls[k].tree)));
    }
}

proof fn lemma_has_id_prefix(a: Seq<Id>, b: Seq<Id>, x: Seq<u8>)
    requires
        a.len() <= b.len(),
        b.subrange(0, a.len() as int) == a,
        has_id(a, x),
    ensures
        has_id(b, x),
{
    let m = choose|m: int| 0 <= m < a.len() && (#[trigger] a[m])@ == x;
    assert(b.subrange(0, a.len() as int)[m] == b[m]);
}

proof fn lemma_grown_transitive(a: &Archiver, b: &Archiver, c: &Archiver)
    requires
        b.packers_grew(a),
        c.packers_grew(b),
    ensures
        c.packers_grew(a),
{
    assert(c.data_packer.blobs@.subrange(0, a.data_packer.blobs@.len() as int) =~= c.data_packer.blobs@.subrange(0, b.data_packer.blobs@.len() as int).subrange(0, a.data_packer.blobs@.len() as int));
    assert(c.tree_packer.blobs@.subrange(0, a.tree_packer.blobs@.len() as int) =~= c.tree_packer.blobs@.subrange(0, b.tree_packer.blobs@.len() as int).subrange(0, a.tree_packer.blobs@.len() as int));
}

/// Whether `a` is a prefix of `b`, component by component.
pub fn path_is_prefix(a: &Vec<Vec<u8>>, b: &Vec<Vec<u8>>) -> (r: bool)
    ensures
        r == is_prefix(comp_views(a@), comp_views(b@)),
{
    if a.len() > b.len() {
        return false;
    }
    let mut i: usize = 0;
    while i < a.len()
        invariant
            i <= a@.len() <= b@.len(),
            comp_views(b@).subrange(0, i as int) == comp_views(a@).subrange(0, i as int),
        decreases a@.len() - i,
    {
        if compare_bytes(a[i].as_slice(), b[i].as_slice()) != 0 {
            assert(comp_views(a@)[i as int] != comp_views(b@).subrange(0, a@.len() as int)[i as int]);
            return false;
        }
        assert(comp_views(b@).subrange(0, i + 1) =~= comp_views(a@).subrange(0, i + 1));
        i += 1;
    }
    assert(comp_views(a@).subrange(0, i as int) =~= comp_views(a@));
    true
}

} // verus!
