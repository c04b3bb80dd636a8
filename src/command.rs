//! The decisions of a backup run that do not touch the outside world:
//! which sources, which parent, which delete policy, which snapshot path.
use vstd::prelude::*;
use crate::path::comp_views;
use crate::archiver::is_prefix;
use crate::id::copy_bytes;

verus! {

/// Where the parent snapshot comes from.
#[derive(Debug, PartialEq, Eq)]
pub enum ParentChoice {
    /// No parent: the input is stdin, or a full read was asked for.
    NoParent,
    /// The latest snapshot of the same host and path.
    Latest,
    /// The snapshot the user named.
    Named(String),
}

/// Picks the parent: none for stdin or when forced, else the one named,
/// else the latest matching snapshot.
pub fn choose_parent(backup_stdin: bool, force: bool, parent: Option<String>) -> (r: ParentChoice)
    ensures
        (backup_stdin || force) ==> r == ParentChoice::NoParent,
        !backup_stdin && !force && parent is None ==> r == ParentChoice::Latest,
        !backup_stdin && !force && parent is Some ==> r == ParentChoice::Named(parent->0),
{
    if backup_stdin || force {
        ParentChoice::NoParent
    } else {
        match parent {
            None => ParentChoice::Latest,
            Some(p) => ParentChoice::Named(p),
        }
    }
}

/// When a snapshot may be removed. Instants are seconds since the epoch.
#[derive(Debug, Clone, Copy, PartialEq, Eq, Structural)]
pub enum DeleteOption {
    NotSet,
    Never,
    After(i64),
}

/// Why a command option cannot be used.
#[derive(Debug, Clone, Copy, PartialEq, Eq, Structural)]
pub enum CommandError {
    /// The deletion instant lies beyond the representable range.
    DeleteAfterOutOfRange,
}

/// The delete policy: never when asked, else `after_secs` after `now`,
/// else none.
pub fn delete_option(now: i64, never: bool, after_secs: Option<u64>) -> (r: Result<DeleteOption, CommandError>)
    ensures
        never ==> r == Ok::<DeleteOption, CommandError>(DeleteOption::Never),
        !never && after_secs is None ==> r == Ok::<DeleteOption, CommandError>(DeleteOption::NotSet),
        !never && after_secs is Some && now + after_secs->0 <= i64::MAX ==> r == Ok::<DeleteOption, CommandError>(
            DeleteOption::After((now + after_secs->0) as i64),
        ),
        !never && after_secs is Some && now + after_secs->0 > i64::MAX ==> r == Err::<DeleteOption, CommandError>(
            CommandError::DeleteAfterOutOfRange,
        ),
{
    if never {
        return Ok(DeleteOption::Never);
    }
    match after_secs {
        None => Ok(DeleteOption::NotSet),
        Some(d) => {
            let t: i128 = now as i128 + d as i128;
            if t > i64::MAX as i128 {
                Err(CommandError::DeleteAfterOutOfRange)
            } else {
                Ok(DeleteOption::After(t as i64))
            }
        },
    }
}

/// The sources to back up: those given, else those of the config file;
/// `None` when neither names one.
pub fn select_sources(given: Vec<String>, configured: Vec<String>) -> (r: Option<Vec<String>>)
    ensures
        given@.len() > 0 ==> r == Some(given),
        given@.len() == 0 && configured@.len() > 0 ==> r == Some(configured),
        given@.len() == 0 && configured@.len() == 0 ==> r is None,
{
    if given.len() > 0 {
        Some(given)
    } else if configured.len() > 0 {
        Some(configured)
    } else {
        None
    }
}

/// The path an entry is recorded under: with `as_path`, the entry's path
/// below `backup_path` moved under `as_path`; `None` when the entry does
/// not lie below `backup_path`.
pub fn snapshot_path(path: &Vec<Vec<u8>>, backup_path: &Vec<Vec<u8>>, as_path: &Vec<Vec<u8>>) -> (r: Option<Vec<Vec<u8>>>)
    ensures
        r is Some <==> is_prefix(comp_views(backup_path@), comp_views(path@)),
        r matches Some(v) ==> comp_views(v@) == comp_views(as_path@) + comp_views(path@).skip(backup_path@.len() as int),
{
    if !crate::archiver::path_is_prefix(backup_path, path) {
        return None;
    }
    let mut out: Vec<Vec<u8>> = Vec::new();
    let mut i: usize = 0;
    while i < as_path.len()
        invariant
            i <= as_path@.len(),
            comp_views(out@) == comp_views(as_path@).subrange(0, i as int),
        decreases as_path@.len() - i,
    {
        let ghost prev = out@;
        out.push(copy_bytes(as_path[i].as_slice()));
        assert(comp_views(out@) =~= comp_views(prev).push(comp_views(as_path@)[i as int]));
        i += 1;
        assert(comp_views(out@) =~= comp_views(as_path@).subrange(0, i as int));
    }
    let mut j: usize = backup_path.len();
    while j < path.len()
        invariant
            backup_path@.len() <= j <= path@.len(),
            comp_views(out@) == comp_views(as_path@) + comp_views(path@).subrange(backup_path@.len() as int, j as int),
        decreases path@.len() - j,
    {
        let ghost prev = out@;
        out.push(copy_bytes(path[j].as_slice()));
        assert(comp_views(out@) =~= comp_views(prev).push(comp_views(path@)[j as int]));
        j += 1;
        assert(comp_views(out@) =~= comp_views(as_path@) + comp_views(path@).subrange(backup_path@.len() as int, j as int));
    }
    assert(comp_views(path@).subrange(backup_path@.len() as int, j as int) =~= comp_views(path@).skip(backup_path@.len() as int));
    Some(out)
}

/// What a parent search reads of a snapshot: its host, its recorded
/// paths, and its time in seconds since the epoch.
#[derive(Debug)]
pub struct SnapshotInfo {
    pub hostname: String,
    pub paths: Vec<String>,
    pub time: i64,
}

/// The snapshot was taken on `host` and records `path`.
pub open spec fn same_source(s: SnapshotInfo, host: Seq<char>, path: Seq<char>) -> bool {
    s.hostname@ == host && exists|i: int| 0 <= i < s.paths@.len() && (#[trigger] s.paths@[i])@ == path
}

fn records_path(s: &SnapshotInfo, path: &String) -> (r: bool)
    ensures
        r == (exists|i: int| 0 <= i < s.paths@.len() && (#[trigger] s.paths@[i])@ == path@),
{
    let mut i: usize = 0;
    while i < s.paths.len()
        invariant
            i <= s.paths@.len(),
            forall|j: int| 0 <= j < i ==> (#[trigger] s.paths@[j])@ != path@,
        decreases s.paths@.len() - i,
    {
        if s.paths[i] == *path {
            return true;
        }
        i += 1;
    }
    false
}

/// The latest snapshot of the same host and path, if any; of several
/// equally late ones, the first.
pub fn latest_matching(snaps: &Vec<SnapshotInfo>, host: &String, path: &String) -> (r: Option<usize>)
    ensures
        r is None <==> forall|k: int| 0 <= k < snaps@.len() ==> !same_source(#[trigger] snaps@[k], host@, path@),
        r matches Some(k) ==> k < snaps@.len() && same_source(snaps@[k as int], host@, path@)
            && forall|j: int| 0 <= j < snaps@.len() && same_source(#[trigger] snaps@[j], host@, path@)
                ==> snaps@[j].time <= snaps@[k as int].time,
        r matches Some(k) ==> forall|j: int| 0 <= j < k && same_source(#[trigger] snaps@[j], host@, path@)
            ==> snaps@[j].time < snaps@[k as int].time,
{
    let mut best: Option<usize> = None;
    let mut k: usize = 0;
    while k < snaps.len()
        invariant
            k <= snaps@.len(),
            best is None <==> forall|m: int| 0 <= m < k ==> !same_source(#[trigger] snaps@[m], host@, path@),
            best matches Some(b) ==> b < k && same_source(snaps@[b as int], host@, path@)
                && forall|j: int| 0 <= j < k && same_source(#[trigger] snaps@[j], host@, path@)
                    ==> snaps@[j].time <= snaps@[b as int].time,
            best matches Some(b) ==> forall|j: int| 0 <= j < b && same_source(#[trigger] snaps@[j], host@, path@)
                ==> snaps@[j].time < snaps@[b as int].time,
        decreases snaps@.len() - k,
    {
        let s = &snaps[k];
        if s.hostname == *host && records_path(s, path) {
            match best {
                None => {
                    best = Some(k);
                },
                Some(b) => {
                    if snaps[b].time < s.time {
                        best = Some(k);
                    }
                },
            }
        }
        k += 1;
    }
    best
}

} // verus!
