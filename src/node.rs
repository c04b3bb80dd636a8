//! Directory entries, directory listings and their canonical encoding.
use vstd::prelude::*;
use crate::id::{Id, ID_LEN, copy_bytes};
use crate::order::{bytes_lt, compare_bytes, lemma_lt_transitive, lemma_lt_asymmetric, lemma_lt_total, lemma_lt_irreflexive};

verus! {

/// The kind of a directory entry, with its kind-specific payload.
#[derive(Debug)]
pub enum NodeKind {
    File,
    Dir,
    Symlink { target: Vec<u8> },
    Dev { device: u64 },
    Chardev { device: u64 },
    Fifo,
    Socket,
}

/// Metadata of a directory entry. Times are seconds since the epoch.
#[derive(Debug)]
pub struct Meta {
    pub size: u64,
    pub mtime: i64,
    pub atime: i64,
    pub ctime: i64,
    pub mode: u32,
    pub uid: u32,
    pub gid: u32,
    pub inode: u64,
    pub user: Vec<u8>,
    pub group: Vec<u8>,
}

/// A directory entry: its name (one path component, as bytes), kind,
/// metadata, and for a file its chunk ids, for a directory its subtree id.
#[derive(Debug)]
pub struct Node {
    pub name: Vec<u8>,
    pub kind: NodeKind,
    pub meta: Meta,
    pub content: Vec<Id>,
    pub subtree: Option<Id>,
}

/// A directory listing, kept sorted by name with no name twice.
#[derive(Debug)]
pub struct Tree {
    pub nodes: Vec<Node>,
}

/// The eight little-endian bytes of `x`.
#[verifier::opaque]
pub open spec fn le64(x: u64) -> Seq<u8> {
    seq![
        (x & 0xff) as u8,
        ((x >> 8) & 0xff) as u8,
        ((x >> 16) & 0xff) as u8,
        ((x >> 24) & 0xff) as u8,
        ((x >> 32) & 0xff) as u8,
        ((x >> 40) & 0xff) as u8,
        ((x >> 48) & 0xff) as u8,
        ((x >> 56) & 0xff) as u8,
    ]
}

/// A byte string preceded by its length.
pub open spec fn field(b: Seq<u8>) -> Seq<u8> {
    le64(b.len() as u64) + b
}

pub open spec fn kind_bytes(k: NodeKind) -> Seq<u8> {
    match k {
        NodeKind::File => seq![0u8],
        NodeKind::Dir => seq![1u8],
        NodeKind::Symlink { target } => seq![2u8] + field(target@),
        NodeKind::Dev { device } => seq![3u8] + le64(device),
        NodeKind::Chardev { device } => seq![4u8] + le64(device),
        NodeKind::Fifo => seq![5u8],
        NodeKind::Socket => seq![6u8],
    }
}

pub open spec fn meta_bytes(m: Meta) -> Seq<u8> {
    le64(m.size) + le64(m.mtime as u64) + le64(m.atime as u64) + le64(m.ctime as u64) + le64(
        m.mode as u64,
    ) + le64(m.uid as u64) + le64(m.gid as u64) + le64(m.inode) + field(m.user@) + field(
        m.group@,
    )
}

/// Identifiers one after the other.
pub open spec fn ids_bytes(ids: Seq<Id>) -> Seq<u8>
    decreases ids.len(),
{
    if ids.len() == 0 {
        Seq::empty()
    } else {
        ids_bytes(ids.drop_last()) + ids.last()@
    }
}

pub open spec fn subtree_bytes(s: Option<Id>) -> Seq<u8> {
    match s {
        None => seq![0u8],
        Some(id) => seq![1u8] + id@,
    }
}

/// The canonical encoding of one entry.
pub open spec fn node_bytes(n: Node) -> Seq<u8> {
    field(n.name@) + kind_bytes(n.kind) + meta_bytes(n.meta) + le64(n.content@.len() as u64)
        + ids_bytes(n.content@) + subtree_bytes(n.subtree)
}

pub open spec fn nodes_bytes(ns: Seq<Node>) -> Seq<u8>
    decreases ns.len(),
{
    if ns.len() == 0 {
        Seq::empty()
    } else {
        nodes_bytes(ns.drop_last()) + node_bytes(ns.last())
    }
}

/// The canonical encoding of a listing: the entry count, then each entry in order.
pub open spec fn tree_bytes(t: Tree) -> Seq<u8> {
    le64(t.nodes@.len() as u64) + nodes_bytes(t.nodes@)
}

/// Names strictly ascending.
pub open spec fn sorted_names(ns: Seq<Node>) -> bool {
    forall|i: int, j: int| 0 <= i < j < ns.len() ==> bytes_lt(#[trigger] ns[i].name@, #[trigger] ns[j].name@)
}

/// Every identifier in a listing of ids is 32 bytes long.
pub open spec fn ids_wf(ids: Seq<Id>) -> bool {
    forall|i: int| 0 <= i < ids.len() ==> (#[trigger] ids[i]).wf()
}

pub open spec fn is_dir_kind(k: NodeKind) -> bool {
    k is Dir
}

/// Sorted listings with the same entries are the same listing.
pub proof fn lemma_sorted_unique(a: Seq<Node>, b: Seq<Node>)
    requires
        sorted_names(a),
        sorted_names(b),
        forall|x: Node| a.contains(x) <==> b.contains(x),
    ensures
        a == b,
    decreases a.len(),
{
    if a.len() == 0 {
        if b.len() > 0 {
            assert(b.contains(b[0]));
        }
        assert(a =~= b);
    } else {
        assert(a.contains(a[0]));
        assert(b.len() > 0);
        assert(b.contains(b[0]));
        let j = choose|j: int| 0 <= j < b.len() && b[j] == a[0];
        let i = choose|i: int| 0 <= i < a.len() && a[i] == b[0];
        if i > 0 && j > 0 {
            lemma_lt_asymmetric(a[0].name@, b[0].name@);
            assert(bytes_lt(a[0].name@, a[i].name@));
            assert(bytes_lt(b[0].name@, b[j].name@));
        }
        assert(a[0] == b[0]);
        let a1 = a.drop_first();
        let b1 = b.drop_first();
        assert forall|x: Node| a1.contains(x) <==> b1.contains(x) by {
            if a1.contains(x) {
                let k = choose|k: int| 0 <= k < a1.len() && a1[k] == x;
                assert(a[k + 1] == x);
                assert(bytes_lt(a[0].name@, a[k + 1].name@));
                lemma_lt_irreflexive(x.name@);
                assert(b.contains(x));
                let m = choose|m: int| 0 <= m < b.len() && b[m] == x;
                assert(m != 0);
                assert(b1[m - 1] == x);
            }
            if b1.contains(x) {
                let k = choose|k: int| 0 <= k < b1.len() && b1[k] == x;
                assert(b[k + 1] == x);
                assert(bytes_lt(b[0].name@, b[k + 1].name@));
                lemma_lt_irreflexive(x.name@);
                assert(a.contains(x));
                let m = choose|m: int| 0 <= m < a.len() && a[m] == x;
                assert(m != 0);
                assert(a1[m - 1] == x);
            }
        }
        assert forall|p: int, q: int| 0 <= p < q < a1.len() implies bytes_lt(#[trigger] a1[p].name@, #[trigger] a1[q].name@) by {
            assert(a1[p] == a[p + 1] && a1[q] == a[q + 1]);
        }
        assert forall|p: int, q: int| 0 <= p < q < b1.len() implies bytes_lt(#[trigger] b1[p].name@, #[trigger] b1[q].name@) by {
            assert(b1[p] == b[p + 1] && b1[q] == b[q + 1]);
        }
        lemma_sorted_unique(a1, b1);
        assert(a =~= seq![a[0]] + a1);
        assert(b =~= seq![b[0]] + b1);
    }
}

/// Two listings holding the same entries encode to the same bytes, whatever
/// order the entries were added in.
pub proof fn lemma_listing_canonical(t1: Tree, t2: Tree)
    requires
        t1.wf(),
        t2.wf(),
        forall|x: Node| t1.nodes@.contains(x) <==> t2.nodes@.contains(x),
    ensures
        tree_bytes(t1) == tree_bytes(t2),
{
    lemma_sorted_unique(t1.nodes@, t2.nodes@);
}

/// The encoding of an entry holds its name's bytes unchanged, right after
/// the length.
pub proof fn lemma_name_bytes_kept(n: Node)
    ensures
        node_bytes(n).subrange(8, 8 + n.name@.len() as int) == n.name@,
{
    reveal(le64);
    let f = field(n.name@);
    assert(f.subrange(8, 8 + n.name@.len() as int) =~= n.name@);
    assert(node_bytes(n).subrange(8, 8 + n.name@.len() as int) =~= f.subrange(8, 8 + n.name@.len() as int));
}

pub(crate) fn push_u64(out: &mut Vec<u8>, x: u64)
    ensures
        final(out)@ == old(out)@ + le64(x),
{
    out.push((x & 0xff) as u8);
    out.push(((x >> 8) & 0xff) as u8);
    out.push(((x >> 16) & 0xff) as u8);
    out.push(((x >> 24) & 0xff) as u8);
    out.push(((x >> 32) & 0xff) as u8);
    out.push(((x >> 40) & 0xff) as u8);
    out.push(((x >> 48) & 0xff) as u8);
    out.push(((x >> 56) & 0xff) as u8);
    reveal(le64);
    assert(final(out)@ =~= old(out)@ + le64(x));
}

fn push_bytes(out: &mut Vec<u8>, b: &[u8])
    ensures
        final(out)@ == old(out)@ + b@,
{
    let mut i: usize = 0;
    while i < b.len()
        invariant
            i <= b@.len(),
            out@ == old(out)@ + b@.subrange(0, i as int),
        decreases b@.len() - i,
    {
        out.push(b[i]);
        i += 1;
        assert(out@ =~= old(out)@ + b@.subrange(0, i as int));
    }
    assert(b@.subrange(0, i as int) =~= b@);
}

fn push_field(out: &mut Vec<u8>, b: &[u8])
    ensures
        final(out)@ == old(out)@ + field(b@),
{
    push_u64(out, b.len() as u64);
    push_bytes(out, b);
    assert(final(out)@ =~= old(out)@ + field(b@));
}

fn push_kind(out: &mut Vec<u8>, k: &NodeKind)
    ensures
        final(out)@ == old(out)@ + kind_bytes(*k),
{
    match k {
        NodeKind::File => out.push(0u8),
        NodeKind::Dir => out.push(1u8),
        NodeKind::Symlink { target } => {
            out.push(2u8);
            push_field(out, target.as_slice());
        },
        NodeKind::Dev { device } => {
            out.push(3u8);
            push_u64(out, *device);
        },
        NodeKind::Chardev { device } => {
            out.push(4u8);
            push_u64(out, *device);
        },
        NodeKind::Fifo => out.push(5u8),
        NodeKind::Socket => out.push(6u8),
    }
    assert(final(out)@ =~= old(out)@ + kind_bytes(*k));
}

fn push_meta(out: &mut Vec<u8>, m: &Meta)
    ensures
        final(out)@ == old(out)@ + meta_bytes(*m),
{
    push_u64(out, m.size);
    push_u64(out, m.mtime as u64);
    push_u64(out, m.atime as u64);
    push_u64(out, m.ctime as u64);
    push_u64(out, m.mode as u64);
    push_u64(out, m.uid as u64);
    push_u64(out, m.gid as u64);
    push_u64(out, m.inode);
    push_field(out, m.user.as_slice());
    push_field(out, m.group.as_slice());
    assert(final(out)@ =~= old(out)@ + meta_bytes(*m));
}

fn push_node(out: &mut Vec<u8>, n: &Node)
    ensures
        final(out)@ == old(out)@ + node_bytes(*n),
{
    push_field(out, n.name.as_slice());
    push_kind(out, &n.kind);
    push_meta(out, &n.meta);
    push_u64(out, n.content.len() as u64);
    let ghost mid = out@;
    let mut i: usize = 0;
    while i < n.content.len()
        invariant
            i <= n.content@.len(),
            out@ == mid + ids_bytes(n.content@.subrange(0, i as int)),
        decreases n.content@.len() - i,
    {
        push_bytes(out, n.content[i].as_bytes());
        proof {
            let s = n.content@.subrange(0, i + 1);
            assert(s.drop_last() =~= n.content@.subrange(0, i as int));
        }
        i += 1;
    }
    assert(n.content@.subrange(0, i as int) =~= n.content@);
    match &n.subtree {
        None => out.push(0u8),
        Some(id) => {
            out.push(1u8);
            push_bytes(out, id.as_bytes());
        },
    }
    assert(final(out)@ =~= old(out)@ + node_bytes(*n));
}

impl Node {
    /// A node with empty content and no subtree.
    pub fn new(name: Vec<u8>, kind: NodeKind, meta: Meta) -> (r: Node)
        ensures
            r.name == name,
            r.kind == kind,
            r.meta == meta,
            r.content@.len() == 0,
            r.subtree is None,
    {
        Node { name, kind, meta, content: Vec::new(), subtree: None }
    }

    pub fn is_dir(&self) -> (r: bool)
        ensures
            r == (self.kind is Dir),
    {
        matches!(self.kind, NodeKind::Dir)
    }

    pub fn is_file(&self) -> (r: bool)
        ensures
            r == (self.kind is File),
    {
        matches!(self.kind, NodeKind::File)
    }
}

impl Meta {
    /// Metadata with every field zero or empty.
    pub fn empty() -> (r: Meta)
        ensures
            r.size == 0 && r.mtime == 0 && r.atime == 0 && r.ctime == 0,
            r.mode == 0 && r.uid == 0 && r.gid == 0 && r.inode == 0,
            r.user@.len() == 0 && r.group@.len() == 0,
    {
        Meta {
            size: 0,
            mtime: 0,
            atime: 0,
            ctime: 0,
            mode: 0,
            uid: 0,
            gid: 0,
            inode: 0,
            user: Vec::new(),
            group: Vec::new(),
        }
    }
}

impl Tree {
    pub open spec fn wf(&self) -> bool {
        sorted_names(self.nodes@)
    }

    /// An empty listing.
    pub fn new() -> (r: Tree)
        ensures
            r.wf(),
            r.nodes@.len() == 0,
    {
        Tree { nodes: Vec::new() }
    }

    /// Puts `node` in its place by name; an entry of the same name is replaced.
    pub fn add(&mut self, node: Node)
        requires
            old(self).wf(),
        ensures
            final(self).wf(),
            final(self).nodes@.contains(node),
            forall|i: int| 0 <= i < final(self).nodes@.len() ==> #[trigger] final(self).nodes@[i] == node
                || (old(self).nodes@.contains(final(self).nodes@[i]) && final(self).nodes@[i].name@ != node.name@),
            forall|i: int| 0 <= i < old(self).nodes@.len() && #[trigger] old(self).nodes@[i].name@ != node.name@
                ==> final(self).nodes@.contains(old(self).nodes@[i]),
    {
        let ghost ns = self.nodes@;
        let mut p: usize = 0;
        while p < self.nodes.len() && compare_bytes(self.nodes[p].name.as_slice(), node.name.as_slice()) < 0
            invariant
                p <= self.nodes@.len(),
                self.nodes@ == ns,
                sorted_names(ns),
                forall|i: int| 0 <= i < p ==> bytes_lt(#[trigger] ns[i].name@, node.name@),
            decreases self.nodes@.len() - p,
        {
            p += 1;
        }
        let same = p < self.nodes.len() && compare_bytes(self.nodes[p].name.as_slice(), node.name.as_slice()) == 0;
        proof {
            if p < ns.len() {
                lemma_lt_total(ns[p as int].name@, node.name@);
            }
        }
        if same {
            let ghost nn = node;
            let _old = self.nodes.remove(p);
            self.nodes.insert(p, node);
            proof {
                let fs = self.nodes@;
                assert(fs =~= ns.update(p as int, nn));
                assert(fs[p as int] == nn);
                assert forall|i: int, j: int| 0 <= i < j < fs.len() implies bytes_lt(#[trigger] fs[i].name@, #[trigger] fs[j].name@) by {
                    if i == p { assert(fs[i].name@ == ns[i].name@); }
                    if j == p { assert(fs[j].name@ == ns[j].name@); }
                }
                assert forall|i: int| 0 <= i < fs.len() implies #[trigger] fs[i] == nn
                    || (ns.contains(fs[i]) && fs[i].name@ != nn.name@) by {
                    if i != p {
                        assert(ns[i] == fs[i]);
                        if i < p { lemma_lt_irreflexive(nn.name@); }
                        else { lemma_lt_irreflexive(ns[p as int].name@); }
                    }
                }
                assert forall|i: int| 0 <= i < ns.len() && #[trigger] ns[i].name@ != nn.name@ implies fs.contains(ns[i]) by {
                    assert(i != p);
                    assert(fs[i] == ns[i]);
                }
                assert(fs.contains(nn));
            }
        } else {
            let ghost nn = node;
            self.nodes.insert(p, node);
            proof {
                let fs = self.nodes@;
                assert(fs =~= ns.insert(p as int, nn));
                assert(fs[p as int] == nn);
                if p < ns.len() {
                    lemma_lt_asymmetric(ns[p as int].name@, nn.name@);
                }
                assert forall|i: int, j: int| 0 <= i < j < fs.len() implies bytes_lt(#[trigger] fs[i].name@, #[trigger] fs[j].name@) by {
                    if j == p {
                        assert(fs[i] == ns[i]);
                    } else if i == p {
                        assert(fs[j] == ns[j - 1]);
                        if j - 1 > p {
                            lemma_lt_transitive(nn.name@, ns[p as int].name@, ns[j - 1].name@);
                        }
                    } else if j < p {
                        assert(fs[i] == ns[i] && fs[j] == ns[j]);
                    } else if i < p {
                        assert(fs[i] == ns[i] && fs[j] == ns[j - 1]);
                    } else {
                        assert(fs[i] == ns[i - 1] && fs[j] == ns[j - 1]);
                    }
                }
                assert forall|i: int| 0 <= i < fs.len() implies #[trigger] fs[i] == nn
                    || (ns.contains(fs[i]) && fs[i].name@ != nn.name@) by {
                    if i < p {
                        assert(fs[i] == ns[i]);
                        lemma_lt_irreflexive(nn.name@);
                    } else if i > p {
                        assert(fs[i] == ns[i - 1]);
                        if i - 1 > p {
                            lemma_lt_transitive(nn.name@, ns[p as int].name@, ns[i - 1].name@);
                        }
                        lemma_lt_irreflexive(nn.name@);
                    }
                }
                assert forall|i: int| 0 <= i < ns.len() && #[trigger] ns[i].name@ != nn.name@ implies fs.contains(ns[i]) by {
                    if i < p { assert(fs[i] == ns[i]); } else { assert(fs[i + 1] == ns[i]); }
                }
                assert(fs.contains(nn));
            }
        }
    }

    /// The canonical encoding of the listing and its identifier.
    pub fn serialize(&self) -> (r: (Vec<u8>, Id))
        ensures
            r.0@ == tree_bytes(*self),
            r.1@ == crate::id::sha256_of(r.0@),
            r.1.wf(),
    {
        let mut out: Vec<u8> = Vec::new();
        push_u64(&mut out, self.nodes.len() as u64);
        let ghost mid = out@;
        let mut i: usize = 0;
        while i < self.nodes.len()
            invariant
                i <= self.nodes@.len(),
                out@ == mid + nodes_bytes(self.nodes@.subrange(0, i as int)),
            decreases self.nodes@.len() - i,
        {
            push_node(&mut out, &self.nodes[i]);
            proof {
                let s = self.nodes@.subrange(0, i + 1);
                assert(s.drop_last() =~= self.nodes@.subrange(0, i as int));
            }
            i += 1;
        }
        assert(self.nodes@.subrange(0, i as int) =~= self.nodes@);
        assert(out@ =~= tree_bytes(*self));
        let id = Id::hash(out.as_slice());
        (out, id)
    }
}

} // verus!
