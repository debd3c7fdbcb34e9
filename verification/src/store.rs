//! The snapshot store's naming and selection logic.
//!
//! A snapshot of a tracked file is stored under the archive directory as
//! `<basename>.<NNN>`, where `NNN` is a zero-padded three-digit sequence
//! number between 001 and 999. A commit takes the lowest unused number; a
//! lookup takes the highest used one. Both work on the archive directory's
//! listing, which the caller reads from disk and passes in, so neither ever
//! touches the filesystem or depends on the order entries were enumerated in.
use vstd::arithmetic::div_mod::lemma_div_denominator;
use vstd::arithmetic::div_mod::lemma_fundamental_div_mod;
use vstd::prelude::*;

verus! {

use vstd::string::StringExecFns;

use crate::TrackError;

/// The character for one decimal digit.
pub open spec fn digit_char(d: int) -> char {
    if d == 0 {
        '0'
    } else if d == 1 {
        '1'
    } else if d == 2 {
        '2'
    } else if d == 3 {
        '3'
    } else if d == 4 {
        '4'
    } else if d == 5 {
        '5'
    } else if d == 6 {
        '6'
    } else if d == 7 {
        '7'
    } else if d == 8 {
        '8'
    } else {
        '9'
    }
}

/// The three zero-padded decimal digits of `n`.
pub open spec fn seq_suffix(n: int) -> Seq<char> {
    seq![digit_char(n / 100), digit_char((n / 10) % 10), digit_char(n % 10)]
}

/// The archive entry name for snapshot `n` of the file `basename`.
pub open spec fn snap_name(basename: Seq<char>, n: int) -> Seq<char> {
    basename + seq!['.'] + seq_suffix(n)
}

/// `name` is one of the listed entries.
pub open spec fn name_in(entries: Seq<Seq<char>>, name: Seq<char>) -> bool {
    exists|i: int| 0 <= i < entries.len() && entries[i] == name
}

/// Snapshot `n` of `basename` appears in the listing.
pub open spec fn occupied(entries: Seq<Seq<char>>, basename: Seq<char>, n: int) -> bool {
    name_in(entries, snap_name(basename, n))
}

/// Every sequence number is taken: no further snapshot of `basename` fits.
pub open spec fn all_slots_taken(entries: Seq<Seq<char>>, basename: Seq<char>) -> bool {
    forall|m: int| 1 <= m <= 999 ==> occupied(entries, basename, m)
}

/// No snapshot of `basename` exists at all.
pub open spec fn untracked(entries: Seq<Seq<char>>, basename: Seq<char>) -> bool {
    forall|m: int| 1 <= m <= 999 ==> !occupied(entries, basename, m)
}

/// The string for one decimal digit.
fn digit_str(d: u32) -> (r: &'static str)
    requires
        d < 10,
    ensures
        r@ == seq![digit_char(d as int)],
{
    proof {
        reveal_strlit("0");
        reveal_strlit("1");
        reveal_strlit("2");
        reveal_strlit("3");
        reveal_strlit("4");
        reveal_strlit("5");
        reveal_strlit("6");
        reveal_strlit("7");
        reveal_strlit("8");
        reveal_strlit("9");
    }
    let r = match d {
        0 => "0",
        1 => "1",
        2 => "2",
        3 => "3",
        4 => "4",
        5 => "5",
        6 => "6",
        7 => "7",
        8 => "8",
        _ => "9",
    };
    proof {
        assert(r@ =~= seq![digit_char(d as int)]);
    }
    r
}

/// Builds the archive entry name `<basename>.<NNN>` for sequence number `n`.
pub fn snapshot_name(basename: &String, n: u32) -> (r: String)
    requires
        n <= 999,
    ensures
        r@ == snap_name(basename@, n as int),
{
    let mut r = basename.clone();
    r.append(".");
    r.append(digit_str(n / 100));
    r.append(digit_str((n / 10) % 10));
    r.append(digit_str(n % 10));
    proof {
        reveal_strlit(".");
        assert(r@ =~= snap_name(basename@, n as int));
    }
    r
}

/// Whether `name` equals one of the listed entries.
fn contains_name(entries: &Vec<String>, name: &String) -> (r: bool)
    ensures
        r == name_in(entries.deep_view(), name@),
{
    let mut i: usize = 0;
    while i < entries.len()
        invariant
            i <= entries.len(),
            forall|j: int| 0 <= j < i ==> entries.deep_view()[j] != name@,
        decreases entries.len() - i,
    {
        proof {
            assert(entries.deep_view()[i as int] == entries@[i as int]@);
        }
        if entries[i] == *name {
            return true;
        }
        i += 1;
    }
    false
}

/// The lowest unused sequence number for `basename`, scanning 1 upward;
/// `None` when all 999 are taken.
pub fn first_free_seq(entries: &Vec<String>, basename: &String) -> (r: Option<u32>)
    ensures
        match r {
            Some(n) => 1 <= n <= 999 && !occupied(entries.deep_view(), basename@, n as int)
                && (forall|m: int| 1 <= m < n ==> occupied(entries.deep_view(), basename@, m)),
            None => all_slots_taken(entries.deep_view(), basename@),
        },
{
    let mut n: u32 = 1;
    while n <= 999
        invariant
            1 <= n <= 1000,
            forall|m: int| 1 <= m < n ==> occupied(entries.deep_view(), basename@, m),
        decreases 1000 - n,
    {
        let name = snapshot_name(basename, n);
        if !contains_name(entries, &name) {
            return Some(n);
        }
        n += 1;
    }
    None
}

/// The highest used sequence number for `basename`, scanning 999 downward;
/// `None` when no snapshot of `basename` exists.
pub fn latest_seq(entries: &Vec<String>, basename: &String) -> (r: Option<u32>)
    ensures
        match r {
            Some(n) => 1 <= n <= 999 && occupied(entries.deep_view(), basename@, n as int)
                && (forall|m: int| n < m <= 999 ==> !occupied(entries.deep_view(), basename@, m)),
            None => untracked(entries.deep_view(), basename@),
        },
{
    let mut n: u32 = 999;
    while n >= 1
        invariant
            n <= 999,
            forall|m: int| n < m <= 999 ==> !occupied(entries.deep_view(), basename@, m),
        decreases n,
    {
        let name = snapshot_name(basename, n);
        if contains_name(entries, &name) {
            return Some(n);
        }
        n -= 1;
    }
    None
}

/// A commit's decision: whether the archive directory must first be created,
/// and which entry the file's bytes are to be copied to.
#[derive(Debug, Clone, PartialEq, Eq)]
pub struct CommitPlan {
    /// The archive directory does not exist yet and must be created.
    pub create_repo: bool,
    /// The chosen sequence number.
    pub seq: u32,
    /// The snapshot's entry name under the archive directory.
    pub name: String,
}

/// `p` is the right commit decision for this listing: the lowest unused
/// sequence number, named `<basename>.<NNN>`, creating the directory exactly
/// when it is absent.
pub open spec fn plan_ok(
    p: CommitPlan,
    repo_exists: bool,
    entries: Seq<Seq<char>>,
    basename: Seq<char>,
) -> bool {
    &&& p.create_repo == !repo_exists
    &&& 1 <= p.seq <= 999
    &&& !occupied(entries, basename, p.seq as int)
    &&& (forall|m: int| 1 <= m < p.seq ==> occupied(entries, basename, m))
    &&& p.name@ == snap_name(basename, p.seq as int)
}

/// `name` is the entry of the snapshot of `basename` with the highest
/// sequence number in the listing.
pub open spec fn is_latest_name(
    name: Seq<char>,
    entries: Seq<Seq<char>>,
    basename: Seq<char>,
) -> bool {
    exists|n: int|
        1 <= n <= 999 && #[trigger] occupied(entries, basename, n) && (forall|m: int|
            n < m <= 999 ==> !occupied(entries, basename, m)) && name == snap_name(basename, n)
}

/// Decides a commit of a file named `basename` whose existence is
/// `file_exists`, against the archive directory's listing `entries`
/// (`repo_exists` says whether the directory itself exists; pass an empty
/// listing when it does not). Checks the file first, so a missing file never
/// leads to the directory being created.
pub fn plan_commit(
    file_exists: bool,
    repo_exists: bool,
    entries: &Vec<String>,
    basename: &String,
) -> (r: Result<CommitPlan, TrackError>)
    ensures
        !file_exists ==> r == Err::<CommitPlan, TrackError>(TrackError::NotFound),
        file_exists && all_slots_taken(entries.deep_view(), basename@) ==> r == Err::<
            CommitPlan,
            TrackError,
        >(TrackError::StoreExhausted),
        r is Ok <==> file_exists && !all_slots_taken(entries.deep_view(), basename@),
        r matches Ok(p) ==> plan_ok(p, repo_exists, entries.deep_view(), basename@),
{
    if !file_exists {
        return Err(TrackError::NotFound);
    }
    match first_free_seq(entries, basename) {
        None => Err(TrackError::StoreExhausted),
        Some(n) => Ok(
            CommitPlan { create_repo: !repo_exists, seq: n, name: snapshot_name(basename, n) },
        ),
    }
}

/// Finds the latest snapshot of `basename` in the listing: the entry with
/// the highest three-digit suffix, never whatever entry the filesystem
/// happened to list last.
pub fn latest_snapshot(repo_exists: bool, entries: &Vec<String>, basename: &String) -> (r: Result<
    String,
    TrackError,
>)
    ensures
        !repo_exists ==> r == Err::<String, TrackError>(TrackError::NoTrackRepo),
        repo_exists && untracked(entries.deep_view(), basename@) ==> r == Err::<
            String,
            TrackError,
        >(TrackError::NotFound),
        r is Ok <==> repo_exists && !untracked(entries.deep_view(), basename@),
        r matches Ok(name) ==> is_latest_name(name@, entries.deep_view(), basename@),
{
    if !repo_exists {
        return Err(TrackError::NoTrackRepo);
    }
    match latest_seq(entries, basename) {
        None => Err(TrackError::NotFound),
        Some(n) => {
            let name = snapshot_name(basename, n);
            proof {
                assert(occupied(entries.deep_view(), basename@, n as int));
            }
            Ok(name)
        },
    }
}

/// Different sequence numbers give different entry names.
pub proof fn lemma_snap_name_injective(basename: Seq<char>, a: int, b: int)
    requires
        0 <= a <= 999,
        0 <= b <= 999,
        snap_name(basename, a) == snap_name(basename, b),
    ensures
        a == b,
{
    let la = basename.len() as int;
    assert(snap_name(basename, a)[la + 1] == digit_char(a / 100));
    assert(snap_name(basename, a)[la + 2] == digit_char((a / 10) % 10));
    assert(snap_name(basename, a)[la + 3] == digit_char(a % 10));
    assert(snap_name(basename, b)[la + 1] == digit_char(b / 100));
    assert(snap_name(basename, b)[la + 2] == digit_char(b / 10 % 10));
    assert(snap_name(basename, b)[la + 3] == digit_char(b % 10));
    assert(a / 100 == b / 100 && (a / 10) % 10 == (b / 10) % 10 && a % 10 == b % 10);
    assert(a == 100 * (a / 100) + 10 * ((a / 10) % 10) + a % 10) by {
        lemma_fundamental_div_mod(a, 10);
        lemma_fundamental_div_mod(a / 10, 10);
        lemma_div_denominator(a, 10, 10);
    }
    assert(b == 100 * (b / 100) + 10 * ((b / 10) % 10) + b % 10) by {
        lemma_fundamental_div_mod(b, 10);
        lemma_fundamental_div_mod(b / 10, 10);
        lemma_div_denominator(b, 10, 10);
    }
}

/// Adding snapshot `n` to the listing occupies exactly `n` and leaves every
/// other sequence number as it was.
pub proof fn lemma_push_occupied(
    entries: Seq<Seq<char>>,
    basename: Seq<char>,
    n: int,
    m: int,
)
    requires
        1 <= n <= 999,
        1 <= m <= 999,
    ensures
        occupied(entries.push(snap_name(basename, n)), basename, m) <==> (occupied(
            entries,
            basename,
            m,
        ) || m == n),
{
    let pushed = entries.push(snap_name(basename, n));
    if occupied(pushed, basename, m) {
        let i = choose|i: int| 0 <= i < pushed.len() && pushed[i] == snap_name(basename, m);
        if i < entries.len() {
            assert(entries[i] == snap_name(basename, m));
        } else {
            assert(snap_name(basename, n) == snap_name(basename, m));
            lemma_snap_name_injective(basename, n, m);
        }
    }
    if occupied(entries, basename, m) {
        let i = choose|i: int| 0 <= i < entries.len() && entries[i] == snap_name(basename, m);
        assert(pushed[i] == snap_name(basename, m));
    }
    if m == n {
        assert(pushed[entries.len() as int] == snap_name(basename, m));
    }
}

/// The listing holds exactly the snapshots 1 through `count` of `basename`.
pub open spec fn gap_free(entries: Seq<Seq<char>>, basename: Seq<char>, count: int) -> bool {
    &&& (forall|m: int| 1 <= m <= count ==> occupied(entries, basename, m))
    &&& (forall|m: int| count < m <= 999 ==> !occupied(entries, basename, m))
}

/// Law: sequence numbers are gap-free and strictly increasing. When
/// `basename` has exactly the snapshots 1 through `count`, a commit that
/// picks the lowest unused number picks `count + 1`, and afterwards the
/// listing holds exactly the snapshots 1 through `count + 1`.
pub proof fn lemma_seq_numbers_gap_free(
    entries: Seq<Seq<char>>,
    basename: Seq<char>,
    count: int,
    n: int,
)
    requires
        gap_free(entries, basename, count),
        0 <= count < 999,
        1 <= n <= 999,
        !occupied(entries, basename, n),
        forall|m: int| 1 <= m < n ==> occupied(entries, basename, m),
    ensures
        n == count + 1,
        gap_free(entries.push(snap_name(basename, n)), basename, count + 1),
{
    if n <= count {
        assert(occupied(entries, basename, n));
    }
    if n > count + 1 {
        assert(occupied(entries, basename, count + 1));
        assert(!occupied(entries, basename, count + 1));
    }
    let pushed = entries.push(snap_name(basename, n));
    assert forall|m: int| 1 <= m <= count + 1 implies occupied(pushed, basename, m) by {
        lemma_push_occupied(entries, basename, n, m);
    }
    assert forall|m: int| count + 1 < m <= 999 implies !occupied(pushed, basename, m) by {
        lemma_push_occupied(entries, basename, n, m);
    }
}

/// Law: a file with no snapshots yet gets sequence number 1, and right after
/// that commit the latest snapshot of the file is exactly the entry the
/// commit created — looking it up returns the snapshot just written.
pub proof fn lemma_first_commit_then_latest(entries: Seq<Seq<char>>, basename: Seq<char>, n: int)
    requires
        untracked(entries, basename),
        1 <= n <= 999,
        !occupied(entries, basename, n),
        forall|m: int| 1 <= m < n ==> occupied(entries, basename, m),
    ensures
        n == 1,
        occupied(entries.push(snap_name(basename, 1)), basename, 1),
        forall|m: int|
            1 < m <= 999 ==> !occupied(entries.push(snap_name(basename, 1)), basename, m),
        is_latest_name(snap_name(basename, 1), entries.push(snap_name(basename, 1)), basename),
{
    lemma_seq_numbers_gap_free(entries, basename, 0, n);
    assert(occupied(entries.push(snap_name(basename, 1)), basename, 1));
}

} // verus!
