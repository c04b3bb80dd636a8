//! Reading a listing back from its canonical encoding.
use vstd::prelude::*;
use crate::id::Id;
use crate::node::{Meta, Node, NodeKind, Tree, field, ids_bytes, kind_bytes, le64, meta_bytes, node_bytes, nodes_bytes, sorted_names, subtree_bytes, tree_bytes};
use crate::order::{compare_bytes, lemma_lt_transitive};

verus! {

/// Adjacent pieces of a byte string join up.
pub proof fn lemma_split(b: Seq<u8>, a: int, m: int, c: int)
    requires
        0 <= a <= m <= c <= b.len(),
    ensures
        b.subrange(a, c) == b.subrange(a, m) + b.subrange(m, c),
{
    assert(b.subrange(a, c) =~= b.subrange(a, m) + b.subrange(m, c));
}

proof fn lemma_le64_join(b: Seq<u8>, x: u64)
    requires
        b.len() == 8,
        x == (b[0] as u64) | ((b[1] as u64) << 8) | ((b[2] as u64) << 16) | ((b[3] as u64) << 24)
            | ((b[4] as u64) << 32) | ((b[5] as u64) << 40) | ((b[6] as u64) << 48) | ((b[7] as u64) << 56),
    ensures
        le64(x) == b,
{
    reveal(le64);
    let (b0, b1, b2, b3, b4, b5, b6, b7) = (b[0], b[1], b[2], b[3], b[4], b[5], b[6], b[7]);
    assert(
        (x & 0xff) == b0 as u64 && ((x >> 8) & 0xff) == b1 as u64 && ((x >> 16) & 0xff) == b2 as u64
        && ((x >> 24) & 0xff) == b3 as u64 && ((x >> 32) & 0xff) == b4 as u64 && ((x >> 40) & 0xff) == b5 as u64
        && ((x >> 48) & 0xff) == b6 as u64 && ((x >> 56) & 0xff) == b7 as u64
    ) by (bit_vector)
        requires
            x == (b0 as u64) | ((b1 as u64) << 8) | ((b2 as u64) << 16) | ((b3 as u64) << 24)
                | ((b4 as u64) << 32) | ((b5 as u64) << 40) | ((b6 as u64) << 48) | ((b7 as u64) << 56);
    assert(le64(x) =~= b);
}

/// The encoding of a number has eight bytes.
pub proof fn lemma_le64_len(x: u64)
    ensures
        le64(x).len() == 8,
{
    reveal(le64);
}

/// Distinct numbers have distinct encodings.
pub proof fn lemma_le64_injective(a: u64, c: u64)
    requires
        le64(a) == le64(c),
    ensures
        a == c,
{
    reveal(le64);
    assert(le64(a)[0] == le64(c)[0] && le64(a)[1] == le64(c)[1] && le64(a)[2] == le64(c)[2]
        && le64(a)[3] == le64(c)[3] && le64(a)[4] == le64(c)[4] && le64(a)[5] == le64(c)[5]
        && le64(a)[6] == le64(c)[6] && le64(a)[7] == le64(c)[7]);
    assert(a == c) by (bit_vector)
        requires
            (a & 0xff) as u8 == (c & 0xff) as u8,
            ((a >> 8) & 0xff) as u8 == ((c >> 8) & 0xff) as u8,
            ((a >> 16) & 0xff) as u8 == ((c >> 16) & 0xff) as u8,
            ((a >> 24) & 0xff) as u8 == ((c >> 24) & 0xff) as u8,
            ((a >> 32) & 0xff) as u8 == ((c >> 32) & 0xff) as u8,
            ((a >> 40) & 0xff) as u8 == ((c >> 40) & 0xff) as u8,
            ((a >> 48) & 0xff) as u8 == ((c >> 48) & 0xff) as u8,
            ((a >> 56) & 0xff) as u8 == ((c >> 56) & 0xff) as u8;
}

/// Where bytes at `pos` spell `x + y`, they spell `x` and then `y`.
pub proof fn lemma_peel(b: Seq<u8>, pos: int, x: Seq<u8>, y: Seq<u8>)
    requires
        0 <= pos,
        pos + x.len() + y.len() <= b.len(),
        b.subrange(pos, pos + x.len() + y.len()) == x + y,
    ensures
        b.subrange(pos, pos + x.len()) == x,
        b.subrange(pos + x.len(), pos + x.len() + y.len()) == y,
{
    assert(b.subrange(pos, pos + x.len()) =~= (x + y).subrange(0, x.len() as int));
    assert(b.subrange(pos + x.len(), pos + x.len() + y.len()) =~= (x + y).subrange(x.len() as int, (x.len() + y.len()) as int));
    assert((x + y).subrange(0, x.len() as int) =~= x);
    assert((x + y).subrange(x.len() as int, (x.len() + y.len()) as int) =~= y);
}

fn read_u64(b: &[u8], pos: usize) -> (r: Option<(u64, usize)>)
    requires
        pos <= b@.len(),
    ensures
        r matches Some((x, p)) ==> p == pos + 8 && p <= b@.len() && b@.subrange(pos as int, p as int) == le64(x),
        pos + 8 <= b@.len() ==> r is Some,
{
    if b.len() - pos < 8 {
        return None;
    }
    let x: u64 = (b[pos] as u64) | ((b[pos + 1] as u64) << 8) | ((b[pos + 2] as u64) << 16)
        | ((b[pos + 3] as u64) << 24) | ((b[pos + 4] as u64) << 32) | ((b[pos + 5] as u64) << 40)
        | ((b[pos + 6] as u64) << 48) | ((b[pos + 7] as u64) << 56);
    proof {
        let s = b@.subrange(pos as int, pos + 8);
        lemma_le64_join(s, x);
    }
    Some((x, pos + 8))
}

fn read_bytes(b: &[u8], pos: usize, n: u64) -> (r: Option<(Vec<u8>, usize)>)
    requires
        pos <= b@.len(),
    ensures
        r matches Some((v, p)) ==> pos <= p <= b@.len() && v@.len() == n && p == pos + n && b@.subrange(pos as int, p as int) == v@,
        pos + n <= b@.len() ==> r is Some,
{
    if (b.len() - pos) as u64 <= n && (b.len() - pos) as u64 != n {
        return None;
    }
    let end: usize = pos + n as usize;
    let mut v: Vec<u8> = Vec::new();
    let mut i: usize = pos;
    while i < end
        invariant
            pos <= i <= end <= b@.len(),
            v@ == b@.subrange(pos as int, i as int),
        decreases end - i,
    {
        v.push(b[i]);
        i += 1;
        assert(v@ =~= b@.subrange(pos as int, i as int));
    }
    Some((v, end))
}

/// The bytes at `pos` spell `e`.
pub open spec fn spells(b: Seq<u8>, pos: int, e: Seq<u8>) -> bool {
    0 <= pos && pos + e.len() <= b.len() && b.subrange(pos, pos + e.len()) == e
}

fn read_field(b: &[u8], pos: usize, Ghost(e): Ghost<Seq<u8>>) -> (r: Option<(Vec<u8>, usize)>)
    requires
        pos <= b@.len(),
    ensures
        r matches Some((v, p)) ==> pos <= p <= b@.len() && b@.subrange(pos as int, p as int) == field(v@),
        spells(b@, pos as int, field(e)) ==> (r matches Some((v, p)) && v@ == e && p == pos + field(e).len()),
{
    let len = b.len();
    proof {
        if spells(b@, pos as int, field(e)) {
            lemma_le64_len(e.len() as u64);
            lemma_peel(b@, pos as int, le64(e.len() as u64), e);
        }
    }
    let (n, p1) = read_u64(b, pos)?;
    proof {
        if spells(b@, pos as int, field(e)) {
            lemma_le64_injective(n, e.len() as u64);
        }
    }
    let (v, p2) = read_bytes(b, p1, n)?;
    proof {
        lemma_split(b@, pos as int, p1 as int, p2 as int);
        assert(v@.len() as u64 == n);
    }
    Some((v, p2))
}

fn read_id(b: &[u8], pos: usize) -> (r: Option<(Id, usize)>)
    requires
        pos <= b@.len(),
    ensures
        r matches Some((id, p)) ==> p == pos + 32 && p <= b@.len() && id.wf() && b@.subrange(pos as int, p as int) == id@,
        pos + 32 <= b@.len() ==> r is Some,
{
    let (v, p) = read_bytes(b, pos, 32)?;
    Some((Id { bytes: v }, p))
}

/// The payload field of a symbolic link, empty for the other kinds.
pub open spec fn link_target(k: NodeKind) -> Seq<u8> {
    match k {
        NodeKind::Symlink { target } => target@,
        _ => Seq::empty(),
    }
}

fn read_kind(b: &[u8], pos: usize, Ghost(e): Ghost<NodeKind>) -> (r: Option<(NodeKind, usize)>)
    requires
        pos <= b@.len(),
    ensures
        r matches Some((k, p)) ==> pos <= p <= b@.len() && b@.subrange(pos as int, p as int) == kind_bytes(k),
        spells(b@, pos as int, kind_bytes(e)) ==> (r matches Some((k, p)) && p == pos + kind_bytes(e).len()),
{
    if pos >= b.len() {
        return None;
    }
    let tag = b[pos];
    let p0 = pos + 1;
    proof {
        assert(b@.subrange(pos as int, p0 as int) =~= seq![tag]);
        if spells(b@, pos as int, kind_bytes(e)) {
            let kb = kind_bytes(e);
            assert(b@[pos as int] == b@.subrange(pos as int, pos + kb.len())[0]);
            match e {
                NodeKind::Symlink { target } => {
                    lemma_peel(b@, pos as int, seq![2u8], field(target@));
                },
                NodeKind::Dev { device } => {
                    lemma_peel(b@, pos as int, seq![3u8], le64(device));
                    lemma_le64_len(device);
                },
                NodeKind::Chardev { device } => {
                    lemma_peel(b@, pos as int, seq![4u8], le64(device));
                    lemma_le64_len(device);
                },
                _ => {},
            }
        }
    }
    if tag == 0 {
        Some((NodeKind::File, p0))
    } else if tag == 1 {
        Some((NodeKind::Dir, p0))
    } else if tag == 2 {
        let (t, p) = read_field(b, p0, Ghost(link_target(e)))?;
        proof { lemma_split(b@, pos as int, p0 as int, p as int); }
        Some((NodeKind::Symlink { target: t }, p))
    } else if tag == 3 || tag == 4 {
        let (d, p) = read_u64(b, p0)?;
        proof { lemma_split(b@, pos as int, p0 as int, p as int); }
        if tag == 3 {
            Some((NodeKind::Dev { device: d }, p))
        } else {
            Some((NodeKind::Chardev { device: d }, p))
        }
    } else if tag == 5 {
        Some((NodeKind::Fifo, p0))
    } else if tag == 6 {
        Some((NodeKind::Socket, p0))
    } else {
        None
    }
}

fn read_u32(b: &[u8], pos: usize, Ghost(e): Ghost<u32>) -> (r: Option<(u32, usize)>)
    requires
        pos <= b@.len(),
    ensures
        r matches Some((x, p)) ==> p == pos + 8 && p <= b@.len() && b@.subrange(pos as int, p as int) == le64(x as u64),
        spells(b@, pos as int, le64(e as u64)) ==> r is Some,
{
    proof {
        lemma_le64_len(e as u64);
    }
    let (x, p) = read_u64(b, pos)?;
    proof {
        if spells(b@, pos as int, le64(e as u64)) {
            lemma_le64_injective(x, e as u64);
        }
    }
    if x > u32::MAX as u64 {
        return None;
    }
    Some((x as u32, p))
}

fn read_i64(b: &[u8], pos: usize) -> (r: Option<(i64, usize)>)
    requires
        pos <= b@.len(),
    ensures
        r matches Some((x, p)) ==> p == pos + 8 && p <= b@.len() && b@.subrange(pos as int, p as int) == le64(x as u64),
        pos + 8 <= b@.len() ==> r is Some,
{
    let (x, p) = read_u64(b, pos)?;
    let y = x as i64;
    assert((y as u64) == x) by (bit_vector)
        requires y == x as i64;
    Some((y, p))
}

/// The metadata encoding without its two name fields: eight numbers.
pub open spec fn meta_numbers(m: Meta) -> Seq<u8> {
    le64(m.size) + le64(m.mtime as u64) + le64(m.atime as u64) + le64(m.ctime as u64) + le64(
        m.mode as u64,
    ) + le64(m.uid as u64) + le64(m.gid as u64) + le64(m.inode)
}

proof fn lemma_meta_parts(b: Seq<u8>, pos: int, e: Meta)
    requires
        spells(b, pos, meta_bytes(e)),
    ensures
        meta_numbers(e).len() == 64,
        spells(b, pos + 32, le64(e.mode as u64)),
        spells(b, pos + 40, le64(e.uid as u64)),
        spells(b, pos + 48, le64(e.gid as u64)),
        spells(b, pos + 64, field(e.user@)),
        spells(b, pos + 64 + field(e.user@).len(), field(e.group@)),
        meta_bytes(e).len() == 64 + field(e.user@).len() + field(e.group@).len(),
{
    reveal(le64);
    let n = meta_numbers(e);
    let m9 = n + field(e.user@);
    assert(meta_bytes(e) == m9 + field(e.group@));
    lemma_peel(b, pos, m9, field(e.group@));
    lemma_peel(b, pos, n, field(e.user@));
    let n7 = le64(e.size) + le64(e.mtime as u64) + le64(e.atime as u64) + le64(e.ctime as u64) + le64(e.mode as u64) + le64(e.uid as u64) + le64(e.gid as u64);
    lemma_peel(b, pos, n7, le64(e.inode));
    let n6 = le64(e.size) + le64(e.mtime as u64) + le64(e.atime as u64) + le64(e.ctime as u64) + le64(e.mode as u64) + le64(e.uid as u64);
    lemma_peel(b, pos, n6, le64(e.gid as u64));
    let n5 = le64(e.size) + le64(e.mtime as u64) + le64(e.atime as u64) + le64(e.ctime as u64) + le64(e.mode as u64);
    lemma_peel(b, pos, n5, le64(e.uid as u64));
    let n4 = le64(e.size) + le64(e.mtime as u64) + le64(e.atime as u64) + le64(e.ctime as u64);
    lemma_peel(b, pos, n4, le64(e.mode as u64));
}

#[verifier::rlimit(30)]
fn read_meta(b: &[u8], pos: usize, Ghost(e): Ghost<Meta>) -> (r: Option<(Meta, usize)>)
    requires
        pos <= b@.len(),
    ensures
        r matches Some((m, p)) ==> pos <= p <= b@.len() && b@.subrange(pos as int, p as int) == meta_bytes(m),
        spells(b@, pos as int, meta_bytes(e)) ==> (r matches Some((m, p)) && p == pos + meta_bytes(e).len()),
{
    let ghost ok = spells(b@, pos as int, meta_bytes(e));
    proof {
        if ok {
            lemma_meta_parts(b@, pos as int, e);
        }
    }
    let (size, p1) = read_u64(b, pos)?;
    let (mtime, p2) = read_i64(b, p1)?;
    let (atime, p3) = read_i64(b, p2)?;
    let (ctime, p4) = read_i64(b, p3)?;
    let (mode, p5) = read_u32(b, p4, Ghost(e.mode))?;
    let (uid, p6) = read_u32(b, p5, Ghost(e.uid))?;
    let (gid, p7) = read_u32(b, p6, Ghost(e.gid))?;
    let (inode, p8) = read_u64(b, p7)?;
    let (user, p9) = read_field(b, p8, Ghost(e.user@))?;
    let (group, p10) = read_field(b, p9, Ghost(e.group@))?;
    let m = Meta { size, mtime, atime, ctime, mode, uid, gid, inode, user, group };
    proof {
        let s = b@;
        let a = pos as int;
        lemma_split(s, a, p1 as int, p2 as int);
        let s2 = le64(size) + le64(mtime as u64);
        assert(s.subrange(a, p2 as int) == s2);
        lemma_split(s, a, p2 as int, p3 as int);
        let s3 = s2 + le64(atime as u64);
        assert(s.subrange(a, p3 as int) == s3);
        lemma_split(s, a, p3 as int, p4 as int);
        let s4 = s3 + le64(ctime as u64);
        assert(s.subrange(a, p4 as int) == s4);
        lemma_split(s, a, p4 as int, p5 as int);
        let s5 = s4 + le64(mode as u64);
        assert(s.subrange(a, p5 as int) == s5);
        lemma_split(s, a, p5 as int, p6 as int);
        let s6 = s5 + le64(uid as u64);
        assert(s.subrange(a, p6 as int) == s6);
        lemma_split(s, a, p6 as int, p7 as int);
        let s7 = s6 + le64(gid as u64);
        assert(s.subrange(a, p7 as int) == s7);
        lemma_split(s, a, p7 as int, p8 as int);
        let s8 = s7 + le64(inode);
        assert(s.subrange(a, p8 as int) == s8);
        lemma_split(s, a, p8 as int, p9 as int);
        let s9 = s8 + field(m.user@);
        assert(s.subrange(a, p9 as int) == s9);
        lemma_split(s, a, p9 as int, p10 as int);
        assert(s.subrange(a, p10 as int) == s9 + field(m.group@));
        assert(meta_bytes(m) == s9 + field(m.group@));
    }
    Some((m, p10))
}

/// Each id in the list is 32 bytes long, and so is a subtree id.
pub open spec fn encodable(n: Node) -> bool {
    &&& forall|j: int| 0 <= j < n.content@.len() ==> (#[trigger] n.content@[j]).wf()
    &&& n.subtree is Some ==> n.subtree->0.wf()
}

proof fn lemma_ids_len(ids: Seq<Id>)
    requires
        forall|j: int| 0 <= j < ids.len() ==> (#[trigger] ids[j]).wf(),
    ensures
        ids_bytes(ids).len() == 32 * ids.len(),
    decreases ids.len(),
{
    if ids.len() > 0 {
        lemma_ids_len(ids.drop_last());
    }
}

/// The encoding of an entry, split at its list of ids.
pub open spec fn node_head(n: Node) -> Seq<u8> {
    field(n.name@) + kind_bytes(n.kind) + meta_bytes(n.meta) + le64(n.content@.len() as u64)
}

proof fn lemma_node_parts(b: Seq<u8>, pos: int, e: Node)
    requires
        spells(b, pos, node_bytes(e)),
        encodable(e),
    ensures
        spells(b, pos, node_head(e)),
        ids_bytes(e.content@).len() == 32 * e.content@.len(),
        spells(b, pos + node_head(e).len() + 32 * e.content@.len(), subtree_bytes(e.subtree)),
        node_bytes(e).len() == node_head(e).len() + 32 * e.content@.len() + subtree_bytes(e.subtree).len(),
{
    lemma_ids_len(e.content@);
    let h = node_head(e);
    let h5 = h + ids_bytes(e.content@);
    assert(node_bytes(e) == h5 + subtree_bytes(e.subtree));
    lemma_peel(b, pos, h5, subtree_bytes(e.subtree));
    lemma_peel(b, pos, h, ids_bytes(e.content@));
}

proof fn lemma_head_parts(b: Seq<u8>, pos: int, e: Node)
    requires
        spells(b, pos, node_head(e)),
    ensures
        spells(b, pos, field(e.name@)),
        spells(b, pos + field(e.name@).len(), kind_bytes(e.kind)),
        spells(b, pos + field(e.name@).len() + kind_bytes(e.kind).len(), meta_bytes(e.meta)),
        spells(b, pos + field(e.name@).len() + kind_bytes(e.kind).len() + meta_bytes(e.meta).len(), le64(e.content@.len() as u64)),
        node_head(e).len() == field(e.name@).len() + kind_bytes(e.kind).len() + meta_bytes(e.meta).len() + 8,
{
    lemma_le64_len(e.content@.len() as u64);
    let h3 = field(e.name@) + kind_bytes(e.kind) + meta_bytes(e.meta);
    lemma_peel(b, pos, h3, le64(e.content@.len() as u64));
    let h2 = field(e.name@) + kind_bytes(e.kind);
    lemma_peel(b, pos, h2, meta_bytes(e.meta));
    lemma_peel(b, pos, field(e.name@), kind_bytes(e.kind));
}

/// The parts of an entry's encoding before its list of ids.
struct Head {
    name: Vec<u8>,
    kind: NodeKind,
    meta: Meta,
    count: u64,
}

spec fn head_bytes(h: Head) -> Seq<u8> {
    field(h.name@) + kind_bytes(h.kind) + meta_bytes(h.meta) + le64(h.count)
}

#[verifier::rlimit(40)]
fn read_head(b: &[u8], pos: usize, Ghost(e): Ghost<Node>) -> (r: Option<(Head, usize)>)
    requires
        pos <= b@.len(),
    ensures
        r matches Some((h, p)) ==> pos <= p <= b@.len() && b@.subrange(pos as int, p as int) == head_bytes(h),
        spells(b@, pos as int, node_head(e)) ==> (r matches Some((h, p)) && p == pos + node_head(e).len()
            && h.count == e.content@.len() as u64),
{
    let ghost ok = spells(b@, pos as int, node_head(e));
    proof {
        if ok {
            lemma_head_parts(b@, pos as int, e);
        }
    }
    let (name, p1) = read_field(b, pos, Ghost(e.name@))?;
    let (kind, p2) = read_kind(b, p1, Ghost(e.kind))?;
    let (meta, p3) = read_meta(b, p2, Ghost(e.meta))?;
    let (count, p4) = read_u64(b, p3)?;
    proof {
        if ok {
            lemma_le64_injective(count, e.content@.len() as u64);
        }
        let s = b@;
        lemma_split(s, pos as int, p1 as int, p4 as int);
        lemma_split(s, p1 as int, p2 as int, p4 as int);
        lemma_split(s, p2 as int, p3 as int, p4 as int);
    }
    let h = Head { name, kind, meta, count };
    proof {
        assert(b@.subrange(pos as int, p4 as int) =~= head_bytes(h));
    }
    Some((h, p4))
}

#[verifier::rlimit(40)]
fn read_node(b: &[u8], pos: usize, Ghost(e): Ghost<Node>) -> (r: Option<(Node, usize)>)
    requires
        pos <= b@.len(),
    ensures
        r matches Some((n, p)) ==> pos < p <= b@.len() && b@.subrange(pos as int, p as int) == node_bytes(n),
        spells(b@, pos as int, node_bytes(e)) && encodable(e) ==> (r matches Some((n, p)) && p == pos + node_bytes(e).len()),
{
    let ghost ok = spells(b@, pos as int, node_bytes(e)) && encodable(e);
    let blen = b.len();
    proof {
        if ok {
            lemma_node_parts(b@, pos as int, e);
            assert(e.content@.len() <= u64::MAX);
        }
    }
    let (h, p4) = read_head(b, pos, Ghost(e))?;
    let (content, p) = read_ids(b, p4, h.count)?;
    let (subtree, p6) = read_subtree(b, p, Ghost(e.subtree))?;
    let Head { name, kind, meta, count } = h;
    let n = Node { name, kind, meta, content, subtree };
    proof {
        assert(n.content@.len() as u64 == count);
        let s = b@;
        lemma_split(s, pos as int, p4 as int, p6 as int);
        lemma_split(s, p4 as int, p as int, p6 as int);
        assert(s.subrange(pos as int, p6 as int) =~= node_bytes(n));
    }
    Some((n, p6))
}

fn read_subtree(b: &[u8], p: usize, Ghost(e): Ghost<Option<Id>>) -> (r: Option<(Option<Id>, usize)>)
    requires
        p <= b@.len(),
    ensures
        r matches Some((s, q)) ==> p < q <= b@.len() && b@.subrange(p as int, q as int) == subtree_bytes(s),
        spells(b@, p as int, subtree_bytes(e)) && (e is Some ==> e->0.wf()) ==> (r matches Some((s, q))
            && q == p + subtree_bytes(e).len()),
{
    if p >= b.len() {
        return None;
    }
    let tag = b[p];
    let p5 = p + 1;
    proof {
        assert(b@.subrange(p as int, p5 as int) =~= seq![tag]);
        if spells(b@, p as int, subtree_bytes(e)) {
            let sb = subtree_bytes(e);
            assert(b@[p as int] == b@.subrange(p as int, p + sb.len())[0]);
        }
    }
    if tag == 0 {
        Some((None, p5))
    } else if tag == 1 {
        let (id, q) = read_id(b, p5)?;
        proof { lemma_split(b@, p as int, p5 as int, q as int); }
        Some((Some(id), q))
    } else {
        None
    }
}

fn read_ids(b: &[u8], p4: usize, count: u64) -> (r: Option<(Vec<Id>, usize)>)
    requires
        p4 <= b@.len(),
    ensures
        r matches Some((ids, p)) ==> p4 <= p <= b@.len() && ids@.len() == count && p == p4 + 32 * count
            && b@.subrange(p4 as int, p as int) == ids_bytes(ids@),
        p4 + 32 * count <= b@.len() ==> r is Some,
{
    let mut content: Vec<Id> = Vec::new();
    let mut p: usize = p4;
    let mut k: u64 = 0;
    while k < count
        invariant
            p4 <= p <= b@.len(),
            content@.len() == k,
            k <= count,
            p == p4 + 32 * k,
            b@.subrange(p4 as int, p as int) == ids_bytes(content@),
        decreases count - k,
    {
        let (id, q) = read_id(b, p)?;
        proof {
            lemma_split(b@, p4 as int, p as int, q as int);
            assert(content@.push(id).drop_last() =~= content@);
        }
        content.push(id);
        p = q;
        k += 1;
    }
    Some((content, p))
}

/// Splitting a list of entries splits its encoding.
pub proof fn lemma_nodes_concat(a: Seq<Node>, c: Seq<Node>)
    ensures
        nodes_bytes(a + c) == nodes_bytes(a) + nodes_bytes(c),
    decreases c.len(),
{
    if c.len() == 0 {
        assert(a + c =~= a);
        assert(nodes_bytes(a) + nodes_bytes(c) =~= nodes_bytes(a));
    } else {
        lemma_nodes_concat(a, c.drop_last());
        assert((a + c).drop_last() =~= a + c.drop_last());
        assert((a + c).last() == c.last());
        assert(nodes_bytes(a) + nodes_bytes(c.drop_last()) + node_bytes(c.last()) =~= nodes_bytes(a) + (nodes_bytes(c.drop_last()) + node_bytes(c.last())));
    }
}

proof fn lemma_nodes_len(s: Seq<Node>)
    ensures
        nodes_bytes(s).len() >= s.len(),
    decreases s.len(),
{
    if s.len() > 0 {
        lemma_nodes_len(s.drop_last());
        lemma_le64_len(s.last().name@.len() as u64);
    }
}

/// Entries with the same encoding have the same name.
pub proof fn lemma_node_name(n: Node, e: Node)
    requires
        node_bytes(n) == node_bytes(e),
        n.name@.len() <= u64::MAX,
        e.name@.len() <= u64::MAX,
    ensures
        n.name@ == e.name@,
{
    lemma_le64_len(n.name@.len() as u64);
    lemma_le64_len(e.name@.len() as u64);
    let bs = node_bytes(n);
    assert(bs.subrange(0, 8) =~= le64(n.name@.len() as u64));
    assert(node_bytes(e).subrange(0, 8) =~= le64(e.name@.len() as u64));
    lemma_le64_injective(n.name@.len() as u64, e.name@.len() as u64);
    assert(bs.subrange(8, 8 + n.name@.len() as int) =~= n.name@);
    assert(node_bytes(e).subrange(8, 8 + e.name@.len() as int) =~= e.name@);
}

/// Reads a listing from its encoding. A result is always sorted and
/// encodes back to exactly the bytes read. Every encoding of a sorted
/// listing whose ids are 32 bytes long is read.
#[verifier::rlimit(40)]
pub fn decode_tree(b: &[u8]) -> (r: Option<Tree>)
    ensures
        r matches Some(t) ==> t.wf() && tree_bytes(t) == b@,
        (exists|t: Tree| t.wf() && tree_bytes(t) == b@ && (forall|i: int| 0 <= i < t.nodes@.len() ==> encodable(#[trigger] t.nodes@[i])))
            ==> r is Some,
{
    let ghost ok = exists|t: Tree| t.wf() && tree_bytes(t) == b@ && (forall|i: int| 0 <= i < t.nodes@.len() ==> encodable(#[trigger] t.nodes@[i]));
    let ghost t0 = choose|t: Tree| t.wf() && tree_bytes(t) == b@ && (forall|i: int| 0 <= i < t.nodes@.len() ==> encodable(#[trigger] t.nodes@[i]));
    let ghost e: Seq<Node> = t0.nodes@;
    let blen = b.len();
    proof {
        if ok {
            assert(tree_bytes(t0) == b@);
            assert(b@.subrange(0, b@.len() as int) =~= b@);
            lemma_le64_len(e.len() as u64);
            lemma_nodes_len(e);
            lemma_peel(b@, 0, le64(e.len() as u64), nodes_bytes(e));
        }
    }
    let (count, p0) = read_u64(b, 0)?;
    proof {
        if ok {
            lemma_le64_injective(count, e.len() as u64);
        }
    }
    let mut nodes: Vec<Node> = Vec::new();
    let mut p: usize = p0;
    let mut k: u64 = 0;
    while k < count
        invariant
            p0 <= p <= b@.len(),
            p0 == 8,
            blen == b@.len(),
            ok == (exists|t: Tree| t.wf() && tree_bytes(t) == b@ && (forall|i: int| 0 <= i < t.nodes@.len() ==> encodable(#[trigger] t.nodes@[i]))),
            nodes@.len() == k,
            k <= count,
            b@.subrange(p0 as int, p as int) == nodes_bytes(nodes@),
            sorted_names(nodes@),
            ok ==> count == e.len() && sorted_names(e) && 8 + nodes_bytes(e).len() == b@.len()
                && b@.subrange(8, b@.len() as int) == nodes_bytes(e)
                && (forall|i: int| 0 <= i < e.len() ==> encodable(#[trigger] e[i])),
            ok ==> p == 8 + nodes_bytes(e.subrange(0, k as int)).len(),
            ok ==> forall|i: int| 0 <= i < k ==> (#[trigger] nodes@[i]).name@ == e[i].name@,
        decreases count - k,
    {
        let ghost ek = e[k as int];
        proof {
            if ok {
                let pre = e.subrange(0, k as int);
                let rest = e.subrange(k as int, e.len() as int);
                assert(e =~= pre + rest);
                lemma_nodes_concat(pre, rest);
                assert(rest =~= seq![ek] + e.subrange(k + 1, e.len() as int));
                lemma_nodes_concat(seq![ek], e.subrange(k + 1, e.len() as int));
                assert(nodes_bytes(seq![ek]) =~= node_bytes(ek)) by {
                    assert(seq![ek].drop_last() =~= Seq::<Node>::empty());
                    assert(nodes_bytes(Seq::<Node>::empty()) == Seq::<u8>::empty());
                    assert(nodes_bytes(seq![ek]) == nodes_bytes(seq![ek].drop_last()) + node_bytes(ek));
                }
                assert(nodes_bytes(e) == nodes_bytes(pre) + nodes_bytes(rest));
                assert(b@.subrange(8, 8 + nodes_bytes(pre).len() + nodes_bytes(rest).len() as int) == nodes_bytes(pre) + nodes_bytes(rest));
                lemma_peel(b@, 8, nodes_bytes(pre), nodes_bytes(rest));
                let tl = e.subrange(k + 1, e.len() as int);
                assert(nodes_bytes(rest) == node_bytes(ek) + nodes_bytes(tl));
                assert(p == 8 + nodes_bytes(pre).len());
                lemma_peel(b@, p as int, node_bytes(ek), nodes_bytes(tl));
                assert(spells(b@, p as int, node_bytes(ek)));
                assert(encodable(ek));
                let pre2 = e.subrange(0, k + 1);
                assert(pre2.drop_last() =~= pre);
            }
        }
        let (n, q) = read_node(b, p, Ghost(ek))?;
        proof {
            if ok {
                assert(b@.subrange(p as int, q as int) == node_bytes(n));
                assert(node_bytes(n) == node_bytes(ek));
                lemma_node_name(n, ek);
                if k > 0 {
                    assert(crate::order::bytes_lt(e[k - 1].name@, e[k as int].name@));
                }
            }
        }
        if nodes.len() > 0 && compare_bytes(nodes[nodes.len() - 1].name.as_slice(), n.name.as_slice()) >= 0 {
            return None;
        }
        proof {
            lemma_split(b@, p0 as int, p as int, q as int);
            assert(nodes@.push(n).drop_last() =~= nodes@);
            let ns = nodes@.push(n);
            assert forall|i: int, j: int| 0 <= i < j < ns.len() implies crate::order::bytes_lt(#[trigger] ns[i].name@, #[trigger] ns[j].name@) by {
                if j == ns.len() - 1 && i < j - 1 {
                    lemma_lt_transitive(ns[i].name@, ns[j - 1].name@, ns[j].name@);
                }
            }
        }
        nodes.push(n);
        p = q;
        k += 1;
    }
    proof {
        if ok {
            assert(e.subrange(0, k as int) =~= e);
        }
    }
    if p != b.len() {
        return None;
    }
    let t = Tree { nodes };
    proof {
        lemma_split(b@, 0, p0 as int, p as int);
        assert(b@.subrange(0, p as int) =~= b@);
        assert(t.nodes@.len() as u64 == count);
    }
    Some(t)
}

} // verus!
