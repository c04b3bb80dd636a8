//! The parent snapshot: its listings by id, and a cursor that follows the
//! walk to tell whether an entry is unchanged.
use vstd::prelude::*;
use crate::id::Id;
use crate::node::{Node, NodeKind, Tree, sorted_names};
use crate::order::{compare_bytes, lemma_lt_irreflexive};

verus! {

/// A listing of the parent snapshot with its id.
#[derive(Debug)]
pub struct ParentTree {
    pub id: Id,
    pub tree: Tree,
}

/// The listings of the parent snapshot, and the switches of the comparison.
#[derive(Debug)]
pub struct ParentTrees {
    pub trees: Vec<ParentTree>,
    pub ignore_ctime: bool,
    pub ignore_inode: bool,
}

/// What the parent snapshot says of an entry: unchanged (the parent's entry
/// is at the given place of the current parent listing), changed, or absent.
#[derive(Debug, Clone, Copy, PartialEq, Eq, Structural)]
pub enum ParentResult {
    Matched(usize),
    NotMatched,
    NotFound,
}

/// Two kinds are the same, payload included: a link's target, a device number.
pub open spec fn same_kind(a: NodeKind, b: NodeKind) -> bool {
    match (a, b) {
        (NodeKind::File, NodeKind::File) => true,
        (NodeKind::Dir, NodeKind::Dir) => true,
        (NodeKind::Symlink { target: x }, NodeKind::Symlink { target: y }) => x@ == y@,
        (NodeKind::Dev { device: x }, NodeKind::Dev { device: y }) => x == y,
        (NodeKind::Chardev { device: x }, NodeKind::Chardev { device: y }) => x == y,
        (NodeKind::Fifo, NodeKind::Fifo) => true,
        (NodeKind::Socket, NodeKind::Socket) => true,
        _ => false,
    }
}

/// Whether two kinds are the same, payload included.
pub fn kind_matches(a: &NodeKind, b: &NodeKind) -> (r: bool)
    ensures
        r == same_kind(*a, *b),
{
    match (a, b) {
        (NodeKind::File, NodeKind::File) => true,
        (NodeKind::Dir, NodeKind::Dir) => true,
        (NodeKind::Symlink { target: x }, NodeKind::Symlink { target: y }) => compare_bytes(x.as_slice(), y.as_slice()) == 0,
        (NodeKind::Dev { device: x }, NodeKind::Dev { device: y }) => *x == *y,
        (NodeKind::Chardev { device: x }, NodeKind::Chardev { device: y }) => *x == *y,
        (NodeKind::Fifo, NodeKind::Fifo) => true,
        (NodeKind::Socket, NodeKind::Socket) => true,
        _ => false,
    }
}

/// The parent's entry `p` stands for unchanged content of `n`: same kind,
/// size and mtime, and ctime and inode unless ignored.
pub open spec fn unchanged(p: Node, n: Node, ignore_ctime: bool, ignore_inode: bool) -> bool {
    &&& same_kind(p.kind, n.kind)
    &&& p.meta.size == n.meta.size
    &&& p.meta.mtime == n.meta.mtime
    &&& (ignore_ctime || p.meta.ctime == n.meta.ctime)
    &&& (ignore_inode || p.meta.inode == n.meta.inode)
}

/// Some entry of `ns` is named `name`.
pub open spec fn has_name(ns: Seq<Node>, name: Seq<u8>) -> bool {
    exists|i: int| 0 <= i < ns.len() && (#[trigger] ns[i]).name@ == name
}

/// The place of the entry named `name` in a sorted listing.
pub fn find_name(ns: &Vec<Node>, name: &[u8]) -> (r: Option<usize>)
    requires
        sorted_names(ns@),
    ensures
        r is None <==> !has_name(ns@, name@),
        r matches Some(i) ==> i < ns@.len() && ns@[i as int].name@ == name@,
{
    let mut i: usize = 0;
    while i < ns.len()
        invariant
            i <= ns@.len(),
            forall|j: int| 0 <= j < i ==> (#[trigger] ns@[j]).name@ != name@,
        decreases ns@.len() - i,
    {
        if compare_bytes(ns[i].name.as_slice(), name) == 0 {
            return Some(i);
        }
        i += 1;
    }
    None
}

/// In a sorted listing, two entries with one name are one entry.
pub proof fn lemma_names_unique(ns: Seq<Node>, i: int, j: int)
    requires
        sorted_names(ns),
        0 <= i < ns.len(),
        0 <= j < ns.len(),
        ns[i].name@ == ns[j].name@,
    ensures
        i == j,
{
    if i < j {
        lemma_lt_irreflexive(ns[i].name@);
    } else if j < i {
        lemma_lt_irreflexive(ns[j].name@);
    }
}

impl ParentTrees {
    pub open spec fn wf(&self) -> bool {
        forall|k: int| 0 <= k < self.trees@.len() ==> (#[trigger] self.trees@[k]).tree.wf()
    }

    /// The listing `cursor` points at, if any.
    pub open spec fn listing(&self, cursor: Option<usize>) -> Seq<Node> {
        match cursor {
            Some(k) => self.trees@[k as int].tree.nodes@,
            None => Seq::empty(),
        }
    }

    pub open spec fn valid_cursor(&self, cursor: Option<usize>) -> bool {
        cursor matches Some(k) ==> k < self.trees@.len()
    }

    /// What the parent says of `n` at the listing `cursor` points at.
    pub open spec fn result_spec(&self, cursor: Option<usize>, n: Node) -> ParentResult {
        let ns = self.listing(cursor);
        if !has_name(ns, n.name@) {
            ParentResult::NotFound
        } else {
            let i = choose|i: int| 0 <= i < ns.len() && (#[trigger] ns[i]).name@ == n.name@;
            if unchanged(ns[i], n, self.ignore_ctime, self.ignore_inode) {
                ParentResult::Matched(i as usize)
            } else {
                ParentResult::NotMatched
            }
        }
    }

    /// The listing with id `id`, if the parent snapshot has one.
    pub fn lookup(&self, id: &Id) -> (r: Option<usize>)
        ensures
            r matches Some(k) ==> k < self.trees@.len() && self.trees@[k as int].id@ == id@,
            r is None ==> forall|k: int| 0 <= k < self.trees@.len() ==> (#[trigger] self.trees@[k]).id@ != id@,
    {
        let mut k: usize = 0;
        while k < self.trees.len()
            invariant
                k <= self.trees@.len(),
                forall|j: int| 0 <= j < k ==> (#[trigger] self.trees@[j]).id@ != id@,
            decreases self.trees@.len() - k,
        {
            if self.trees[k].id.same(id) {
                return Some(k);
            }
            k += 1;
        }
        None
    }

    /// Compares `n` with the parent's entry of the same name.
    pub fn is_parent(&self, cursor: Option<usize>, n: &Node) -> (r: ParentResult)
        requires
            self.wf(),
            self.valid_cursor(cursor),
        ensures
            r == self.result_spec(cursor, *n),
            r matches ParentResult::Matched(i) ==> i < self.listing(cursor).len() && self.listing(cursor)[i as int].name@ == n.name@,
    {
        match cursor {
            None => ParentResult::NotFound,
            Some(k) => {
                let ns = &self.trees[k].tree.nodes;
                match find_name(ns, n.name.as_slice()) {
                    None => ParentResult::NotFound,
                    Some(i) => {
                        let p = &ns[i];
                        proof {
                            let c = choose|c: int| 0 <= c < ns@.len() && (#[trigger] ns@[c]).name@ == n.name@;
                            lemma_names_unique(ns@, i as int, c);
                        }
                        if kind_matches(&p.kind, &n.kind) && p.meta.size == n.meta.size
                            && p.meta.mtime == n.meta.mtime
                            && (self.ignore_ctime || p.meta.ctime == n.meta.ctime)
                            && (self.ignore_inode || p.meta.inode == n.meta.inode) {
                            ParentResult::Matched(i)
                        } else {
                            ParentResult::NotMatched
                        }
                    },
                }
            },
        }
    }

    /// The listing at `cursor` has a directory entry named `name` whose
    /// listing the parent holds.
    pub open spec fn holds_subdir(&self, cursor: Option<usize>, name: Seq<u8>) -> bool {
        let ns = self.listing(cursor);
        exists|j: int| 0 <= j < ns.len() && (#[trigger] ns[j]).name@ == name && ns[j].kind is Dir
            && ns[j].subtree is Some
            && exists|m: int| 0 <= m < self.trees@.len() && (#[trigger] self.trees@[m]).id@ == ns[j].subtree->0@
    }

    /// The cursor for the directory `n`: the parent's listing of the entry of
    /// that name, if that entry is a directory whose listing the parent holds.
    pub fn sub_parent(&self, cursor: Option<usize>, n: &Node) -> (r: Option<usize>)
        requires
            self.wf(),
            self.valid_cursor(cursor),
        ensures
            self.valid_cursor(r),
            r is Some ==> exists|i: int| 0 <= i < self.listing(cursor).len()
                && (#[trigger] self.listing(cursor)[i]).name@ == n.name@
                && self.listing(cursor)[i].kind is Dir && self.listing(cursor)[i].subtree is Some
                && self.listing(cursor)[i].subtree->0@ == self.trees@[r->0 as int].id@,
            !has_name(self.listing(cursor), n.name@) ==> r is None,
            self.holds_subdir(cursor, n.name@) ==> r is Some,
    {
        match cursor {
            None => None,
            Some(k) => {
                let ns = &self.trees[k].tree.nodes;
                match find_name(ns, n.name.as_slice()) {
                    None => None,
                    Some(i) => {
                        let p = &ns[i];
                        proof {
                            if self.holds_subdir(cursor, n.name@) {
                                let j = choose|j: int| 0 <= j < ns@.len() && (#[trigger] ns@[j]).name@ == n.name@
                                    && ns@[j].kind is Dir && ns@[j].subtree is Some
                                    && exists|m: int| 0 <= m < self.trees@.len() && (#[trigger] self.trees@[m]).id@ == ns@[j].subtree->0@;
                                lemma_names_unique(ns@, i as int, j);
                            }
                        }
                        match (&p.kind, &p.subtree) {
                            (NodeKind::Dir, Some(s)) => {
                                let r = self.lookup(s);
                                assert(self.listing(cursor)[i as int] == ns@[i as int]);
                                r
                            },
                            _ => None,
                        }
                    },
                }
            },
        }
    }
}

} // verus!
