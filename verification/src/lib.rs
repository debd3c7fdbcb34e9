//! A minimal local file-versioning library.
//!
//! A file is "committed" by copying it into a hidden archive directory under
//! the name `<basename>.<NNN>`, where `NNN` is the lowest unused three-digit
//! sequence number between 001 and 999; a "diff" compares the file's current
//! text against the snapshot with the highest sequence number.
//!
//! The library is pure with respect to the filesystem: every operation takes
//! what was read from disk (existence flags, the archive directory's listing,
//! file contents) as explicit arguments and returns the decision, so the
//! caller performs the actual reads, copies and directory creation.
use vstd::prelude::*;

pub mod diff;
pub mod store;

verus! {

use crate::diff::Difference;
use crate::store::CommitPlan;

/// The command the caller builds: either commit a file or diff it, by path.
#[derive(Debug, Clone, PartialEq, Eq)]
pub enum TrackCommand {
    Commit(String),
    Diff(String),
}

/// What a successful operation hands back: the sequence number a commit
/// wrote, or the edit distance and edit script a diff computed.
#[derive(Debug)]
pub enum TrackReturn {
    Rval(i32),
    DiffRet(i32, Vec<Difference>),
}

/// Why an operation failed.
#[derive(Debug, Clone, Copy, PartialEq, Eq)]
pub enum TrackError {
    /// The file to commit does not exist, or no snapshot of the file exists.
    NotFound,
    /// The archive directory is absent when a diff was requested.
    NoTrackRepo,
    /// The archive directory could not be created.
    StoreUnavailable,
    /// All 999 sequence numbers for the file are taken.
    StoreExhausted,
    /// Copying the file into the archive failed.
    CopyFailed,
    /// The file or its snapshot could not be read as text.
    ReadFailed,
}

/// The message text for each failure.
pub open spec fn message_spec(e: TrackError) -> Seq<char> {
    match e {
        TrackError::NotFound => "File doesn't exist."@,
        TrackError::NoTrackRepo => "No track repository"@,
        TrackError::StoreUnavailable => "error creating dir"@,
        TrackError::StoreExhausted => "Unable to copy file."@,
        TrackError::CopyFailed => "copy failed"@,
        TrackError::ReadFailed => "unable to read file"@,
    }
}

impl TrackError {
    /// The human-readable description, as the command-line tool prints it.
    pub fn message(&self) -> (r: &'static str)
        ensures
            r@ == message_spec(*self),
    {
        match self {
            TrackError::NotFound => "File doesn't exist.",
            TrackError::NoTrackRepo => "No track repository",
            TrackError::StoreUnavailable => "error creating dir",
            TrackError::StoreExhausted => "Unable to copy file.",
            TrackError::CopyFailed => "copy failed",
            TrackError::ReadFailed => "unable to read file",
        }
    }
}

/// The archive directory's name, a fixed constant of the store.
pub fn track_dir_name() -> (r: &'static str)
    ensures
        r@ == ".track"@,
{
    ".track"
}

/// The filename component of `path`: the characters after the last `/`.
/// Empty when the path itself is empty or ends in `/`.
pub open spec fn basename_spec(path: Seq<char>) -> Seq<char>
    decreases path.len(),
{
    if path.len() == 0 {
        Seq::empty()
    } else if path.last() == '/' {
        Seq::empty()
    } else {
        basename_spec(path.drop_last()).push(path.last())
    }
}

proof fn lemma_basename_step(p: Seq<char>, c: char)
    ensures
        basename_spec(p.push(c)) == if c == '/' {
            Seq::<char>::empty()
        } else {
            basename_spec(p).push(c)
        },
{
    assert(p.push(c).last() == c);
    assert(p.push(c).drop_last() =~= p);
}

/// The filename component of `path`, or `None` when the path has none
/// (it is empty or ends in `/`).
pub fn basename_of(path: &String) -> (r: Option<String>)
    ensures
        r is Some <==> basename_spec(path@).len() > 0,
        r matches Some(name) ==> name@ == basename_spec(path@),
{
    let s = path.as_str();
    let len = s.unicode_len();
    proof {
        assert(path@.take(len as int) =~= path@);
        assert(path@.skip(len as int) =~= Seq::<char>::empty());
        assert(basename_spec(path@) =~= basename_spec(path@) + Seq::<char>::empty());
    }
    let mut i = len;
    while i > 0 && s.get_char(i - 1) != '/'
        invariant
            i <= len,
            len == path@.len(),
            s@ == path@,
            basename_spec(path@) =~= basename_spec(path@.take(i as int)) + path@.skip(i as int),
        decreases i,
    {
        proof {
            let c = path@[i - 1];
            assert(path@.take(i as int) =~= path@.take(i - 1).push(c));
            lemma_basename_step(path@.take(i - 1), c);
            assert(basename_spec(path@.take(i - 1)) + path@.skip(i - 1) =~= basename_spec(
                path@.take(i as int),
            ) + path@.skip(i as int));
        }
        i -= 1;
    }
    proof {
        if i > 0 {
            assert(path@.take(i as int).len() == i);
            assert(path@.take(i as int).last() == '/');
            assert(basename_spec(path@.take(i as int)) =~= Seq::<char>::empty());
        } else {
            assert(path@.take(0) =~= Seq::<char>::empty());
        }
        assert(basename_spec(path@) =~= path@.skip(i as int));
    }
    if i == len {
        return None;
    }
    let name = s.substring_char(i, len).to_owned();
    proof {
        assert(name@ =~= path@.skip(i as int));
    }
    Some(name)
}

/// The path a command names.
pub open spec fn cmd_path(args: TrackCommand) -> Seq<char> {
    match args {
        TrackCommand::Commit(p) => p@,
        TrackCommand::Diff(p) => p@,
    }
}

/// What the caller is to do next: write a snapshot, or read one and diff it.
#[derive(Debug, Clone, PartialEq, Eq)]
pub enum TrackPlan {
    /// Create the archive directory if the plan says so, then copy the
    /// file's bytes to the plan's entry name.
    DoCommit(CommitPlan),
    /// Read the named snapshot and diff the file's current text against it.
    DoDiff(String),
}

/// Central dispatch: decides a command against what the caller read from
/// disk — whether the command's file and the archive directory exist, and
/// the directory's listing (pass an empty listing when it is absent).
/// Returns the action to perform, or the error the command fails with.
/// Decides only: it performs no reads or writes itself, so a failed command
/// leaves the filesystem untouched.
pub fn handle_track(
    args: &TrackCommand,
    file_exists: bool,
    repo_exists: bool,
    entries: &Vec<String>,
) -> (r: Result<TrackPlan, TrackError>)
    requires
        basename_spec(cmd_path(*args)).len() > 0,
    ensures
        ({
            let b = basename_spec(cmd_path(*args));
            let listing = entries.deep_view();
            match *args {
                TrackCommand::Commit(_) => {
                    &&& (!file_exists ==> r == Err::<TrackPlan, TrackError>(TrackError::NotFound))
                    &&& (file_exists && crate::store::all_slots_taken(listing, b) ==> r == Err::<
                        TrackPlan,
                        TrackError,
                    >(TrackError::StoreExhausted))
                    &&& (r is Ok <==> file_exists && !crate::store::all_slots_taken(listing, b))
                    &&& (r matches Ok(pl) ==> pl matches TrackPlan::DoCommit(p)
                        && crate::store::plan_ok(p, repo_exists, listing, b))
                },
                TrackCommand::Diff(_) => {
                    &&& (!repo_exists ==> r == Err::<TrackPlan, TrackError>(
                        TrackError::NoTrackRepo,
                    ))
                    &&& (repo_exists && crate::store::untracked(listing, b) ==> r == Err::<
                        TrackPlan,
                        TrackError,
                    >(TrackError::NotFound))
                    &&& (r is Ok <==> repo_exists && !crate::store::untracked(listing, b))
                    &&& (r matches Ok(pl) ==> pl matches TrackPlan::DoDiff(name)
                        && crate::store::is_latest_name(name@, listing, b))
                },
            }
        }),
{
    let path = match args {
        TrackCommand::Commit(p) => p,
        TrackCommand::Diff(p) => p,
    };
    let basename = match basename_of(path) {
        Some(b) => b,
        None => {
            proof {
                assert(false);
            }
            return Err(TrackError::NotFound);
        },
    };
    match args {
        TrackCommand::Commit(_) => {
            match crate::store::plan_commit(file_exists, repo_exists, entries, &basename) {
                Ok(p) => Ok(TrackPlan::DoCommit(p)),
                Err(e) => Err(e),
            }
        },
        TrackCommand::Diff(_) => {
            match crate::store::latest_snapshot(repo_exists, entries, &basename) {
                Ok(name) => Ok(TrackPlan::DoDiff(name)),
                Err(e) => Err(e),
            }
        },
    }
}

/// The command-line request: the file to operate on, and whether to diff it
/// rather than commit it.
#[derive(Debug, Clone)]
pub struct Cli {
    /// Diff the file instead of committing it.
    pub diff: bool,
    /// The file to operate on.
    pub file_name: String,
}

impl Cli {
    /// Converts the parsed command line into the command the library takes.
    pub fn get_local_cli(&self) -> (r: TrackCommand)
        ensures
            self.diff ==> r == TrackCommand::Diff(self.file_name),
            !self.diff ==> r == TrackCommand::Commit(self.file_name),
    {
        if self.diff {
            return TrackCommand::Diff(self.file_name.clone());
        }
        TrackCommand::Commit(self.file_name.clone())
    }
}

} // verus!
