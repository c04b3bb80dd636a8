//! Where repository objects live: file names of the local backend, object
//! paths of the REST backend, and the REST error classes.
use vstd::prelude::*;
use vstd::string::StringExecFns;
use crate::id::{Id, hex_of, hex_encode, lemma_hex_concat};

verus! {

/// The kinds of repository object.
#[derive(Debug, Clone, Copy, PartialEq, Eq, Structural)]
pub enum FileType {
    Config,
    Index,
    Key,
    Snapshot,
    Pack,
}

/// The directory name of each kind.
pub open spec fn kind_dir(t: FileType) -> Seq<char> {
    match t {
        FileType::Config => "config"@,
        FileType::Index => "index"@,
        FileType::Key => "keys"@,
        FileType::Snapshot => "snapshots"@,
        FileType::Pack => "data"@,
    }
}

impl FileType {
    /// The directory name of this kind.
    pub fn name(&self) -> (r: &'static str)
        ensures
            r@ == kind_dir(*self),
    {
        match self {
            FileType::Config => "config",
            FileType::Index => "index",
            FileType::Key => "keys",
            FileType::Snapshot => "snapshots",
            FileType::Pack => "data",
        }
    }
}

/// The file of an object under the repository directory `base`: the config
/// file at the top, packs sharded by the first two hex digits of their id,
/// the rest in one directory per kind.
pub open spec fn local_path(base: Seq<char>, tpe: FileType, hex: Seq<char>) -> Seq<char> {
    match tpe {
        FileType::Config => base + "/config"@,
        FileType::Pack => base + "/data/"@ + hex.subrange(0, 2) + "/"@ + hex,
        _ => base + "/"@ + kind_dir(tpe) + "/"@ + hex,
    }
}

/// The path of an object relative to a REST server's repository URL.
pub open spec fn rest_path(tpe: FileType, hex: Seq<char>) -> Seq<char> {
    match tpe {
        FileType::Config => "config"@,
        _ => kind_dir(tpe) + "/"@ + hex,
    }
}

/// A repository in a directory of the local file system.
#[derive(Debug)]
pub struct LocalBackend {
    pub path: String,
}

impl LocalBackend {
    /// A backend rooted at the directory `path`.
    pub fn new(path: &str) -> (r: LocalBackend)
        ensures
            r.path@ == path@,
    {
        LocalBackend { path: String::from_str(path) }
    }

    /// The file that holds the object `id` of kind `tpe`.
    pub fn path(&self, tpe: FileType, id: &Id) -> (r: String)
        requires
            id.wf(),
        ensures
            r@ == local_path(self.path@, tpe, hex_of(id@)),
    {
        let hex = id.to_hex();
        let mut r = String::from_str(self.path.as_str());
        match tpe {
            FileType::Config => {
                r.append("/config");
            },
            FileType::Pack => {
                let first: Vec<u8> = vec![id.bytes[0]];
                let shard = hex_encode(first.as_slice());
                proof {
                    assert(id@ =~= first@ + id@.drop_first());
                    lemma_hex_concat(first@, id@.drop_first());
                    assert(shard@.len() == 2) by {
                        assert(first@.drop_last() =~= Seq::<u8>::empty());
                        assert(hex_of(Seq::<u8>::empty()) =~= Seq::<char>::empty());
                    }
                    assert(hex_of(id@).subrange(0, 2) =~= shard@);
                }
                r.append("/data/");
                r.append(shard.as_str());
                r.append("/");
                r.append(hex.as_str());
            },
            _ => {
                r.append("/");
                r.append(tpe.name());
                r.append("/");
                r.append(hex.as_str());
            },
        }
        assert(r@ =~= local_path(self.path@, tpe, hex_of(id@)));
        r
    }
}

/// The path of the object `id` of kind `tpe` relative to a REST repository URL.
pub fn rest_object_path(tpe: FileType, id: &Id) -> (r: String)
    ensures
        r@ == rest_path(tpe, hex_of(id@)),
{
    match tpe {
        FileType::Config => String::from_str("config"),
        _ => {
            let mut r = String::from_str(tpe.name());
            r.append("/");
            let hex = id.to_hex();
            r.append(hex.as_str());
            r
        },
    }
}

/// How a failed REST request is retried.
#[derive(Debug, Clone, Copy, PartialEq, Eq, Structural)]
pub enum ErrorClass {
    /// A client error: retrying cannot help.
    Permanent,
    /// A server error: worth retrying with backoff.
    Transient,
}

/// The class of an HTTP status: `None` for one that is no error.
pub fn classify_status(code: u16) -> (r: Option<ErrorClass>)
    ensures
        400 <= code < 500 <==> r == Some(ErrorClass::Permanent),
        500 <= code < 600 <==> r == Some(ErrorClass::Transient),
        (code < 400 || code >= 600) <==> r is None,
{
    if 400 <= code && code < 500 {
        Some(ErrorClass::Permanent)
    } else if 500 <= code && code < 600 {
        Some(ErrorClass::Transient)
    } else {
        None
    }
}

/// The last byte of a ranged read of `length` bytes from `offset`; none
/// for an empty read.
pub fn range_end(offset: u32, length: u32) -> (r: Option<u64>)
    ensures
        length == 0 ==> r is None,
        length > 0 ==> r == Some((offset + length - 1) as u64),
{
    if length == 0 {
        None
    } else {
        Some(offset as u64 + length as u64 - 1)
    }
}

/// A lowercase hex digit, as a byte.
pub open spec fn is_lower_hex(b: u8) -> bool {
    (48 <= b && b <= 57) || (97 <= b && b <= 102)
}

/// Whether a file name is an object name: 64 lowercase hex digits.
pub fn is_id_name(name: &[u8]) -> (r: bool)
    ensures
        r == (name@.len() == 64 && forall|i: int| 0 <= i < name@.len() ==> is_lower_hex(#[trigger] name@[i])),
{
    if name.len() != 64 {
        return false;
    }
    let mut i: usize = 0;
    while i < name.len()
        invariant
            i <= name@.len(),
            forall|j: int| 0 <= j < i ==> is_lower_hex(#[trigger] name@[j]),
        decreases name@.len() - i,
    {
        let b = name[i];
        if !((48 <= b && b <= 57) || (97 <= b && b <= 102)) {
            return false;
        }
        i += 1;
    }
    true
}

} // verus!
