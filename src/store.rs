//! The index of blobs already in the repository, and the packers that
//! collect new blobs during one run.
use vstd::prelude::*;
use crate::id::{Id, copy_bytes};

verus! {

/// Some identifier in `ids` holds the bytes `x`.
pub open spec fn has_id(ids: Seq<Id>, x: Seq<u8>) -> bool {
    exists|i: int| 0 <= i < ids.len() && (#[trigger] ids[i])@ == x
}

/// Searches `ids` for `x`.
pub fn find_id(ids: &Vec<Id>, x: &Id) -> (r: bool)
    ensures
        r == has_id(ids@, x@),
{
    let mut i: usize = 0;
    while i < ids.len()
        invariant
            i <= ids@.len(),
            forall|j: int| 0 <= j < i ==> (#[trigger] ids@[j])@ != x@,
        decreases ids@.len() - i,
    {
        if ids[i].same(x) {
            return true;
        }
        i += 1;
    }
    false
}

/// The two kinds of blob.
#[derive(Debug, Clone, Copy, PartialEq, Eq, Structural)]
pub enum BlobType {
    Data,
    Tree,
}

/// The identifiers of the blobs known to be in the repository, by kind.
#[derive(Debug)]
pub struct Index {
    pub data: Vec<Id>,
    pub trees: Vec<Id>,
}

impl Index {
    /// An index with no blobs.
    pub fn new() -> (r: Index)
        ensures
            r.data@.len() == 0,
            r.trees@.len() == 0,
    {
        Index { data: Vec::new(), trees: Vec::new() }
    }

    /// Records a blob of the given kind.
    pub fn insert(&mut self, tpe: BlobType, id: Id)
        ensures
            tpe == BlobType::Data ==> final(self).data@ == old(self).data@.push(id) && final(self).trees@ == old(self).trees@,
            tpe == BlobType::Tree ==> final(self).trees@ == old(self).trees@.push(id) && final(self).data@ == old(self).data@,
    {
        match tpe {
            BlobType::Data => self.data.push(id),
            BlobType::Tree => self.trees.push(id),
        }
    }

    /// Whether a data blob with this id is known.
    pub fn has_data(&self, id: &Id) -> (r: bool)
        ensures
            r == has_id(self.data@, id@),
    {
        find_id(&self.data, id)
    }

    /// Whether a tree blob with this id is known.
    pub fn has_tree(&self, id: &Id) -> (r: bool)
        ensures
            r == has_id(self.trees@, id@),
    {
        find_id(&self.trees, id)
    }
}

/// A blob handed to a packer: its id and bytes.
#[derive(Debug)]
pub struct Blob {
    pub id: Id,
    pub data: Vec<u8>,
}

/// Collects the new blobs of one kind during a run; never keeps an id twice.
#[derive(Debug)]
pub struct Packer {
    pub blob_type: BlobType,
    pub blobs: Vec<Blob>,
}

/// The ids of a sequence of blobs.
pub open spec fn blob_ids(bs: Seq<Blob>) -> Seq<Id> {
    bs.map_values(|b: Blob| b.id)
}

/// The blob with id `x`, if the packer holds it.
pub open spec fn holds_blob(bs: Seq<Blob>, x: Seq<u8>, data: Seq<u8>) -> bool {
    exists|i: int| 0 <= i < bs.len() && (#[trigger] bs[i]).id@ == x && bs[i].data@ == data
}

/// Ids found in a prefix of a sequence of blobs are found in the whole.
pub proof fn lemma_prefix_ids(a: Seq<Blob>, b: Seq<Blob>, x: Seq<u8>)
    requires
        a.len() <= b.len(),
        b.subrange(0, a.len() as int) == a,
        has_id(blob_ids(a), x),
    ensures
        has_id(blob_ids(b), x),
{
    let i = choose|i: int| 0 <= i < blob_ids(a).len() && (#[trigger] blob_ids(a)[i])@ == x;
    assert(b.subrange(0, a.len() as int)[i] == b[i]);
    assert(blob_ids(b)[i] == b[i].id);
}

impl Packer {
    /// An empty packer for blobs of kind `tpe`.
    pub fn new(tpe: BlobType) -> (r: Packer)
        ensures
            r.blob_type == tpe,
            r.blobs@.len() == 0,
    {
        Packer { blob_type: tpe, blobs: Vec::new() }
    }

    /// Whether a blob with this id was added in this run.
    pub fn has(&self, id: &Id) -> (r: bool)
        ensures
            r == has_id(blob_ids(self.blobs@), id@),
    {
        let mut i: usize = 0;
        while i < self.blobs.len()
            invariant
                i <= self.blobs@.len(),
                forall|j: int| 0 <= j < i ==> (#[trigger] self.blobs@[j]).id@ != id@,
            decreases self.blobs@.len() - i,
        {
            if self.blobs[i].id.same(id) {
                assert(blob_ids(self.blobs@)[i as int] == self.blobs@[i as int].id);
                return true;
            }
            i += 1;
        }
        proof {
            if has_id(blob_ids(self.blobs@), id@) {
                let j = choose|j: int| 0 <= j < blob_ids(self.blobs@).len() && (#[trigger] blob_ids(self.blobs@)[j])@ == id@;
                assert(self.blobs@[j].id@ == id@);
            }
        }
        false
    }

    /// Adds a blob and returns the number of bytes credited for it: the
    /// length of `data`, or 0 when a blob of this id was already added.
    pub fn add(&mut self, data: &[u8], id: &Id) -> (r: u64)
        ensures
            final(self).blob_type == old(self).blob_type,
            has_id(blob_ids(old(self).blobs@), id@) ==> r == 0 && final(self).blobs@ == old(self).blobs@,
            !has_id(blob_ids(old(self).blobs@), id@) ==> r == data@.len()
                && final(self).blobs@.len() == old(self).blobs@.len() + 1
                && final(self).blobs@.last().id@ == id@ && final(self).blobs@.last().data@ == data@,
            final(self).blobs@.subrange(0, old(self).blobs@.len() as int) == old(self).blobs@,
            has_id(blob_ids(final(self).blobs@), id@),
    {
        if self.has(id) {
            assert(self.blobs@.subrange(0, self.blobs@.len() as int) =~= self.blobs@);
            0
        } else {
            let ghost before = self.blobs@;
            self.blobs.push(Blob { id: id.duplicate(), data: copy_bytes(data) });
            assert(self.blobs@.subrange(0, before.len() as int) =~= before);
            assert(blob_ids(self.blobs@)[before.len() as int] == self.blobs@[before.len() as int].id);
            data.len() as u64
        }
    }
}

} // verus!
