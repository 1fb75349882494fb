//! The change history behind `rollback`: entries, the bounded history list,
//! and the decisions taken when a change is recorded or rolled back.

use vstd::prelude::*;
use crate::path::{join, join_chars};
use crate::path::{file_name, file_name_of, is_name, lemma_file_name_no_sep, lemma_file_name_of_join, no_sep};
use crate::text::{chars_of, decimal, decimal_string, digit_char, string_of};

verus! {

/// What a recorded change did to its file.
#[derive(PartialEq, Eq, Structural, Clone, Copy, Debug)]
pub enum ChangeType {
    /// The file existed; its old content was saved as a backup.
    Update,
    /// The file did not exist; it was created.
    Create,
}

/// One recorded change.
#[derive(Debug)]
pub struct HistoryEntry {
    /// Seconds since the Unix epoch when the change was recorded.
    pub timestamp: u64,
    /// The path of the changed file.
    pub path: String,
    /// Whether the change created or updated the file.
    pub change_type: ChangeType,
    /// For an update, the name of the backup file in the history directory.
    pub backup_file: Option<String>,
}

/// A history entry as plain values.
pub struct EntryView {
    pub timestamp: u64,
    pub path: Seq<char>,
    pub change_type: ChangeType,
    pub backup_file: Option<Seq<char>>,
}

/// The view of an optional string.
pub open spec fn opt_view(o: Option<String>) -> Option<Seq<char>> {
    match o {
        Some(s) => Some(s@),
        None => None,
    }
}

impl View for HistoryEntry {
    type V = EntryView;

    open spec fn view(&self) -> EntryView {
        EntryView {
            timestamp: self.timestamp,
            path: self.path@,
            change_type: self.change_type,
            backup_file: opt_view(self.backup_file),
        }
    }
}

/// The views of a list of entries.
pub open spec fn entry_views(h: Seq<HistoryEntry>) -> Seq<EntryView> {
    Seq::new(h.len(), |i: int| h[i]@)
}

/// Where the history lives and how many entries it keeps.
pub struct HistoryManager {
    history_dir: String,
    limit: usize,
}

/// The name of the manifest file in the history directory.
pub open spec fn manifest_name() -> Seq<char> {
    "history.json"@
}

impl HistoryManager {
    /// The history directory.
    pub closed spec fn dir(&self) -> Seq<char> {
        self.history_dir@
    }

    /// The largest number of entries the history keeps.
    pub closed spec fn max_entries(&self) -> nat {
        self.limit as nat
    }

    /// A history kept in `history_dir` that holds at most `limit` entries.
    /// (Creating the directory is the caller's I/O.)
    pub fn new(history_dir: String, limit: usize) -> (h: Self)
        ensures
            h.dir() == history_dir@,
            h.max_entries() == limit,
    {
        HistoryManager { history_dir, limit }
    }

    /// The history directory.
    pub fn history_dir(&self) -> (r: &String)
        ensures
            r@ == self.dir(),
    {
        &self.history_dir
    }

    /// The largest number of entries the history keeps.
    pub fn limit(&self) -> (r: usize)
        ensures
            r == self.max_entries(),
    {
        self.limit
    }

    /// The path of the manifest, `history.json` in the history directory.
    pub fn get_manifest_path(&self) -> (r: String)
        ensures
            r@ == join(self.dir(), manifest_name()),
    {
        let d = chars_of(self.history_dir.as_str());
        let m = chars_of("history.json");
        let j = join_chars(&d, &m);
        string_of(&j)
    }
}


/// The entries kept after `e` is added to `h` in a history of at most
/// `limit` entries: the oldest ones go first.
pub open spec fn kept_after_add(h: Seq<EntryView>, e: EntryView, limit: nat) -> Seq<EntryView> {
    let all = h.push(e);
    if all.len() > limit {
        all.subrange(all.len() - limit, all.len() as int)
    } else {
        all
    }
}

/// The entries dropped when `e` is added to `h` in a history of at most `limit` entries.
pub open spec fn dropped_after_add(h: Seq<EntryView>, e: EntryView, limit: nat) -> Seq<EntryView> {
    let all = h.push(e);
    if all.len() > limit {
        all.subrange(0, all.len() - limit)
    } else {
        seq![]
    }
}

/// The paths, in the history directory `dir`, of the backups that `es` name, in order.
pub open spec fn backup_paths(dir: Seq<char>, es: Seq<EntryView>) -> Seq<Seq<char>>
    decreases es.len(),
{
    if es.len() == 0 {
        seq![]
    } else {
        let r = backup_paths(dir, es.drop_last());
        match es.last().backup_file {
            Some(b) => r.push(join(dir, b)),
            None => r,
        }
    }
}

/// The character sequences held by a list of strings.
pub open spec fn string_views(v: Seq<String>) -> Seq<Seq<char>> {
    Seq::new(v.len(), |i: int| v[i]@)
}

/// How to record a change of a file: the entry to add to the history and,
/// for an existing file, where its old content is saved.
#[derive(Debug)]
pub struct RecordPlan {
    /// The entry for the history.
    pub entry: HistoryEntry,
    /// For an existing file, the path of its backup in the history directory.
    pub backup_path: Option<String>,
}

/// Why a change cannot be recorded.
#[derive(PartialEq, Eq, Structural, Clone, Copy, Debug)]
pub enum RecordError {
    /// The file exists but its path has no final name to build a backup name from.
    NoFileName,
}

/// The name of the backup of a file named `name`, saved at `nanos`
/// nanoseconds since the Unix epoch: `<nanos>_<name>`.
pub open spec fn backup_name(nanos: nat, name: Seq<char>) -> Seq<char> {
    decimal(nanos) + seq!['_'] + name
}

/// The plan for recording a change to `path` at `nanos` nanoseconds since
/// the epoch, as plain values: `None` for the error.
pub open spec fn record_plan(dir: Seq<char>, path: Seq<char>, nanos: u128, exists: bool) -> Option<
    (EntryView, Option<Seq<char>>),
> {
    let ts = (nanos / 1_000_000_000) as u64;
    if exists {
        match file_name(path) {
            Some(name) => Some(
                (
                    EntryView {
                        timestamp: ts,
                        path,
                        change_type: ChangeType::Update,
                        backup_file: Some(backup_name(nanos as nat, name)),
                    },
                    Some(join(dir, backup_name(nanos as nat, name))),
                ),
            ),
            None => None,
        }
    } else {
        Some(
            (
                EntryView { timestamp: ts, path, change_type: ChangeType::Create, backup_file: None },
                None,
            ),
        )
    }
}

/// What undoing an entry does to the file system.
#[derive(Debug)]
pub enum RollbackAction {
    /// Copy the backup back over the file, then delete the backup.
    Restore { path: String, backup_path: String },
    /// Delete the file if it exists.
    Remove { path: String },
}

/// Why nothing can be rolled back.
#[derive(PartialEq, Eq, Structural, Clone, Copy, Debug)]
pub enum RollbackError {
    /// The history is empty.
    NoHistory,
    /// The latest entry is an update without a backup file.
    MissingBackup,
}

/// A rollback action as plain values: `(path, Some(backup path))` restores,
/// `(path, None)` removes.
pub open spec fn action_view(a: RollbackAction) -> (Seq<char>, Option<Seq<char>>) {
    match a {
        RollbackAction::Restore { path, backup_path } => (path@, Some(backup_path@)),
        RollbackAction::Remove { path } => (path@, None),
    }
}

/// The plan for undoing `e`, as plain values; `Err` when `e` is an update
/// without a backup.
pub open spec fn rollback_plan(dir: Seq<char>, e: EntryView) -> Result<
    (Seq<char>, Option<Seq<char>>),
    RollbackError,
> {
    match e.change_type {
        ChangeType::Update => match e.backup_file {
            Some(b) => Ok((e.path, Some(join(dir, b)))),
            None => Err(RollbackError::MissingBackup),
        },
        ChangeType::Create => Ok((e.path, None)),
    }
}

impl HistoryManager {
    /// Adds `entry` to `history` and drops the oldest entries beyond the
    /// limit; returns the paths of the backups of the dropped entries, which
    /// the caller deletes.
    pub fn add_entry(&self, history: &mut Vec<HistoryEntry>, entry: HistoryEntry) -> (removed: Vec<
        String,
    >)
        ensures
            entry_views(final(history)@) == kept_after_add(
                entry_views(old(history)@),
                entry@,
                self.max_entries(),
            ),
            string_views(removed@) == backup_paths(
                self.dir(),
                dropped_after_add(entry_views(old(history)@), entry@, self.max_entries()),
            ),
            final(history)@.len() <= self.max_entries(),
    {
        let ghost all = entry_views(old(history)@).push(entry@);
        let ghost e = entry@;
        history.push(entry);
        assert(entry_views(history@) =~= all);
        let mut removed: Vec<String> = Vec::new();
        let d = chars_of(self.history_dir.as_str());
        let ghost mut j: int = 0;
        assert(all.subrange(0, 0) =~= Seq::<EntryView>::empty());
        assert(all.subrange(0, all.len() as int) =~= all);
        while history.len() > self.limit
            invariant
                0 <= j <= all.len(),
                entry_views(history@) == all.subrange(j, all.len() as int),
                string_views(removed@) == backup_paths(self.dir(), all.subrange(0, j)),
                d@ == self.dir(),
                history@.len() == all.len() - j,
                j == 0 || all.len() - j >= self.limit,
            decreases history.len(),
        {
            proof {
                assert(entry_views(history@)[0] == history@[0]@);
            }
            let ghost before = history@;
            let first = history.remove(0);
            proof {
                assert forall|k: int| 0 <= k < history@.len() implies entry_views(history@)[k]
                    == all.subrange(j + 1, all.len() as int)[k] by {
                    assert(history@[k] == before[k + 1]);
                    assert(entry_views(before)[k + 1] == before[k + 1]@);
                }
            }
            proof {
                assert(first@ == all[j]);
                assert(all.subrange(0, j + 1).drop_last() =~= all.subrange(0, j));
                assert(entry_views(history@) =~= all.subrange(j + 1, all.len() as int));
            }
            match first.backup_file {
                Some(b) => {
                    let bc = chars_of(b.as_str());
                    let p = join_chars(&d, &bc);
                    let ps = string_of(&p);
                    let ghost before = string_views(removed@);
                    removed.push(ps);
                    assert(string_views(removed@) =~= before.push(ps@));
                },
                None => {},
            }
            proof {
                j = j + 1;
            }
        }
        proof {
            if all.len() > self.max_entries() {
                assert(j == all.len() - self.max_entries());
            } else {
                assert(j == 0);
                assert(all.subrange(0, 0) =~= Seq::<EntryView>::empty());
            }
        }
        removed
    }

    /// Takes the latest entry off `history`.
    pub fn pop_entry(&self, history: &mut Vec<HistoryEntry>) -> (r: Option<HistoryEntry>)
        ensures
            old(history)@.len() == 0 ==> r is None && final(history)@ == old(history)@,
            old(history)@.len() > 0 ==> r == Some(old(history)@.last()) && final(history)@
                == old(history)@.drop_last(),
    {
        history.pop()
    }

    /// Decides how to record a change to `path`, made `nanos` nanoseconds
    /// after the Unix epoch, given whether the file `exists`.
    pub fn plan_record(&self, path: &str, nanos: u128, exists: bool) -> (r: Result<
        RecordPlan,
        RecordError,
    >)
        ensures
            match r {
                Ok(p) => record_plan(self.dir(), path@, nanos, exists) == Some(
                    (p.entry@, opt_view(p.backup_path)),
                ),
                Err(_) => record_plan(self.dir(), path@, nanos, exists) is None,
            },
    {
        let ts = (nanos / 1_000_000_000) as u64;
        let pc = chars_of(path);
        if exists {
            match file_name_of(&pc) {
                Some(name) => {
                    let mut b = chars_of(decimal_string(nanos).as_str());
                    b.push('_');
                    b.extend_from_slice(&name);
                    assert(b@ =~= backup_name(nanos as nat, name@));
                    let d = chars_of(self.history_dir.as_str());
                    let bp = join_chars(&d, &b);
                    let entry = HistoryEntry {
                        timestamp: ts,
                        path: string_of(&pc),
                        change_type: ChangeType::Update,
                        backup_file: Some(string_of(&b)),
                    };
                    Ok(RecordPlan { entry, backup_path: Some(string_of(&bp)) })
                },
                None => Err(RecordError::NoFileName),
            }
        } else {
            let entry = HistoryEntry {
                timestamp: ts,
                path: string_of(&pc),
                change_type: ChangeType::Create,
                backup_file: None,
            };
            Ok(RecordPlan { entry, backup_path: None })
        }
    }

    /// Decides how to undo the latest entry, `entry` (`None` when the history is empty).
    pub fn plan_rollback(&self, entry: Option<HistoryEntry>) -> (r: Result<
        RollbackAction,
        RollbackError,
    >)
        ensures
            match entry {
                None => r == Err::<RollbackAction, RollbackError>(RollbackError::NoHistory),
                Some(e) => match r {
                    Ok(a) => rollback_plan(self.dir(), e@) == Ok::<_, RollbackError>(action_view(a)),
                    Err(err) => rollback_plan(self.dir(), e@) == Err::<(Seq<char>, Option<Seq<char>>), _>(err),
                },
            },
    {
        match entry {
            None => Err(RollbackError::NoHistory),
            Some(e) => match e.change_type {
                ChangeType::Update => match e.backup_file {
                    Some(b) => {
                        let d = chars_of(self.history_dir.as_str());
                        let bc = chars_of(b.as_str());
                        let bp = join_chars(&d, &bc);
                        Ok(RollbackAction::Restore { path: e.path, backup_path: string_of(&bp) })
                    },
                    None => Err(RollbackError::MissingBackup),
                },
                ChangeType::Create => Ok(RollbackAction::Remove { path: e.path }),
            },
        }
    }
}


/// The files after a change is recorded: for an update, the old content of
/// `path` is copied to the backup path.
pub open spec fn files_after_record(
    files: Map<Seq<char>, Seq<char>>,
    path: Seq<char>,
    backup: Option<Seq<char>>,
) -> Map<Seq<char>, Seq<char>> {
    match backup {
        Some(b) => files.insert(b, files[path]),
        None => files,
    }
}

/// The files after a rollback action: a restore copies the backup over the
/// file and deletes the backup; a removal deletes the file.
pub open spec fn files_after_rollback(
    files: Map<Seq<char>, Seq<char>>,
    action: (Seq<char>, Option<Seq<char>>),
) -> Map<Seq<char>, Seq<char>> {
    match action.1 {
        Some(b) => files.insert(action.0, files[b]).remove(b),
        None => files.remove(action.0),
    }
}

/// Decimal notation is not empty and holds no separator.
proof fn lemma_decimal_no_sep(n: nat)
    ensures
        no_sep(decimal(n)),
        decimal(n).len() >= 1,
    decreases n,
{
    if n >= 10 {
        lemma_decimal_no_sep(n / 10);
        let d = decimal(n / 10);
        assert(digit_char(n % 10) != '/');
        assert forall|i: int| 0 <= i < decimal(n).len() implies !crate::path::is_sep(#[trigger] decimal(n)[i]) by {
            if i < d.len() {
                assert(decimal(n)[i] == d[i]);
            }
        }
    } else {
        assert(digit_char(n) != '/');
    }
}

/// The backup of a file never has the file's own path: its name is the
/// file name with a time stamp in front.
proof fn lemma_backup_not_path(dir: Seq<char>, path: Seq<char>, nanos: nat)
    requires
        file_name(path) is Some,
    ensures
        join(dir, backup_name(nanos, file_name(path)->0)) != path,
{
    let name = file_name(path)->0;
    let d = decimal(nanos);
    let b = backup_name(nanos, name);
    lemma_file_name_no_sep(path);
    lemma_decimal_no_sep(nanos);
    assert(no_sep(b)) by {
        assert forall|i: int| 0 <= i < b.len() implies !crate::path::is_sep(#[trigger] b[i]) by {
            if i < d.len() {
                assert(b[i] == d[i]);
            } else if i == d.len() {
                assert(b[i] == '_');
            } else {
                assert(b[i] == name[i - d.len() - 1]);
            }
        }
    }
    assert(is_name(b)) by {
        assert(b.len() >= 3);
    }
    lemma_file_name_of_join(dir, b);
}

/// In a history that keeps at least one entry, the entry just added is the
/// one that comes off first.
pub proof fn lemma_last_added_is_popped(h: Seq<EntryView>, e: EntryView, limit: nat)
    requires
        limit >= 1,
    ensures
        kept_after_add(h, e, limit).len() > 0,
        kept_after_add(h, e, limit).last() == e,
        kept_after_add(h, e, limit).len() <= limit,
{
}

/// Rollback undoes the last change: record a change to `path` (whether the
/// file existed or not) in a history of at most `limit` entries, delete the
/// backups of the entries that the limit drops, let the file be rewritten
/// with any content, then take the latest entry off the history and undo
/// it. The file is back as it was (present with its old content, or absent),
/// and every other file but the backups is as it was. (The new backup must
/// not share its path with a dropped one.)
pub proof fn lemma_rollback_restores_file(
    dir: Seq<char>,
    path: Seq<char>,
    nanos: u128,
    files: Map<Seq<char>, Seq<char>>,
    written: Seq<char>,
    h: Seq<EntryView>,
    limit: nat,
)
    requires
        limit >= 1,
        record_plan(dir, path, nanos, files.contains_key(path)) is Some,
        record_plan(dir, path, nanos, files.contains_key(path)).unwrap().1 matches Some(b) ==> !backup_paths(
            dir,
            dropped_after_add(h, record_plan(dir, path, nanos, files.contains_key(path)).unwrap().0, limit),
        ).contains(b),
    ensures
        ({
            let plan = record_plan(dir, path, nanos, files.contains_key(path)).unwrap();
            let dropped = backup_paths(dir, dropped_after_add(h, plan.0, limit)).to_set();
            let after_write = files_after_record(files, path, plan.1).remove_keys(dropped).insert(path, written);
            let latest = kept_after_add(h, plan.0, limit).last();
            &&& latest == plan.0
            &&& rollback_plan(dir, latest) is Ok
            &&& {
                let restored = files_after_rollback(after_write, rollback_plan(dir, latest)->Ok_0);
                &&& restored.contains_key(path) == files.contains_key(path)
                &&& files.contains_key(path) ==> restored[path] == files[path]
                &&& forall|q: Seq<char>|
                    q != path && Some(q) != plan.1 && !dropped.contains(q) ==> (#[trigger] restored.contains_key(q)
                        == files.contains_key(q) && (files.contains_key(q) ==> restored[q] == files[q]))
            }
        }),
{
    let plan = record_plan(dir, path, nanos, files.contains_key(path)).unwrap();
    lemma_last_added_is_popped(h, plan.0, limit);
    if files.contains_key(path) {
        lemma_backup_not_path(dir, path, nanos as nat);
    }
}

} // verus!
