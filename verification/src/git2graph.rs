//! From the history of a repository to change-sets: which commits are read,
//! which paths are kept, and what kind of change a diff entry stands for.
//! Reading the repository itself is left to the caller.

use crate::git_graph::{ChangeSet, GitFile, Status};
use regex::RegexSet;
use vstd::prelude::*;

verus! {

#[verifier::external_type_specification]
#[verifier::external_body]
pub struct ExRegexSet(RegexSet);

/// The patterns that a set of regular expressions was made from.
pub uninterp spec fn regex_patterns(set: RegexSet) -> Seq<Seq<char>>;

/// Whether one of the expressions of the set matches somewhere in the text.
pub uninterp spec fn set_matches(set: RegexSet, text: Seq<char>) -> bool;

/// `RegexSet::is_empty`: whether the set was made from no pattern.
#[verifier::external_body]
fn no_patterns(set: &RegexSet) -> (none: bool)
    ensures
        none == (regex_patterns(*set).len() == 0),
{
    set.is_empty()
}

/// `RegexSet::is_match`: whether one of the expressions matches somewhere in
/// the path. What the expressions match is regex's to say; the result
/// depends on the set and the text alone.
#[verifier::external_body]
fn matches_path(set: &RegexSet, path: &String) -> (found: bool)
    ensures
        found == set_matches(*set, path@),
{
    set.is_match(path)
}

/// What a diff says happened to a file.
#[derive(Copy, Clone, Debug, PartialEq, Eq, Structural)]
pub enum Delta {
    Unmodified,
    Added,
    Deleted,
    Modified,
    Renamed,
    Copied,
    Ignored,
    Untracked,
    Typechange,
    Unreadable,
    Conflicted,
}

/// The status that a diff entry stands for: a copy counts as added, an
/// ignored file as deleted, and everything else that is neither added nor
/// deleted as modified, a rename too.
pub open spec fn status_of(delta: Delta) -> Status {
    match delta {
        Delta::Added => Status::Added,
        Delta::Copied => Status::Added,
        Delta::Deleted => Status::Deleted,
        Delta::Ignored => Status::Deleted,
        Delta::Unmodified => Status::Modified,
        Delta::Modified => Status::Modified,
        Delta::Renamed => Status::Modified,
        Delta::Untracked => Status::Modified,
        Delta::Typechange => Status::Modified,
        Delta::Unreadable => Status::Modified,
        Delta::Conflicted => Status::Modified,
    }
}

/// The status that a diff entry stands for.
pub fn delta_status(delta: Delta) -> (status: Status)
    ensures
        status == status_of(delta),
{
    match delta {
        Delta::Added | Delta::Copied => Status::Added,
        Delta::Deleted | Delta::Ignored => Status::Deleted,
        _ => Status::Modified,
    }
}

/// Which part of a history is read: commits after `start_date` (seconds
/// since the epoch), and paths that one of `path_filters` matches, or every
/// path where there is no filter.
pub struct GitFilter {
    pub start_date: Option<i64>,
    pub max_commits: Option<u32>,
    pub path_filters: RegexSet,
}

impl GitFilter {
    /// Whether the filter lets a path through.
    pub open spec fn lets_through(&self, path: Seq<char>) -> bool {
        regex_patterns(self.path_filters).len() == 0 || set_matches(self.path_filters, path)
    }

    /// Whether the filter lets a path through.
    pub fn keeps(&self, path: &String) -> (kept: bool)
        ensures
            kept == self.lets_through(path@),
    {
        no_patterns(&self.path_filters) || matches_path(&self.path_filters, path)
    }
}

/// What is read of a commit to decide whether its tree is used.
#[derive(Copy, Clone, Debug)]
pub struct Commit {
    /// The commit time, in seconds since the epoch.
    pub seconds: i64,
    /// The number of parents.
    pub parents: usize,
}

/// Whether a walk goes on behind this commit: it does while commits are
/// later than the start date.
pub fn is_later(commit: &Commit, filter: &GitFilter) -> (later: bool)
    requires
        filter.start_date is Some,
    ensures
        later == (commit.seconds > filter.start_date.unwrap()),
{
    commit.seconds > filter.start_date.unwrap()
}

/// Whether the `i`-th commit of a walk is read: it and every commit before
/// it in the walk are later than `start`, and it does not have exactly one
/// parent.
pub open spec fn is_read(commits: Seq<Commit>, start: i64, i: int) -> bool {
    &&& 0 <= i < commits.len()
    &&& commits[i].parents != 1
    &&& forall|j: int| 0 <= j <= i ==> (#[trigger] commits[j]).seconds > start
}

/// The commits of a walk whose trees are read, by their place in the walk:
/// the walk is followed while commits are later than the start date, and of
/// those only the commits that do not have exactly one parent are read.
pub fn select_commits(commits: &Vec<Commit>, filter: &GitFilter) -> (picked: Vec<usize>)
    requires
        filter.start_date is Some,
    ensures
        forall|a: int, b: int| 0 <= a < b < picked@.len() ==> picked@[a] < picked@[b],
        forall|a: int| 0 <= a < picked@.len() ==> is_read(commits@, filter.start_date.unwrap(), picked@[a] as int),
        forall|i: int|
            is_read(commits@, filter.start_date.unwrap(), i) ==> exists|a: int|
                0 <= a < picked@.len() && #[trigger] picked@[a] == i,
{
    let start = filter.start_date.unwrap();
    let mut picked: Vec<usize> = Vec::new();
    let mut i: usize = 0;
    while i < commits.len() && is_later(&commits[i], filter)
        invariant
            i <= commits@.len(),
            filter.start_date == Some(start),
            forall|j: int| 0 <= j < i ==> (#[trigger] commits@[j]).seconds > start,
            forall|a: int, b: int| 0 <= a < b < picked@.len() ==> picked@[a] < picked@[b],
            forall|a: int| 0 <= a < picked@.len() ==> picked@[a] < i,
            forall|a: int| 0 <= a < picked@.len() ==> is_read(commits@, start, picked@[a] as int),
            forall|k: int|
                0 <= k < i && is_read(commits@, start, k) ==> exists|a: int|
                    0 <= a < picked@.len() && #[trigger] picked@[a] == k,
        decreases commits@.len() - i,
    {
        if commits[i].parents != 1 {
            let ghost before = picked@;
            picked.push(i);
            proof {
                assert forall|k: int| 0 <= k < i + 1 && is_read(commits@, start, k) implies exists|a: int|
                    0 <= a < picked@.len() && #[trigger] picked@[a] == k by {
                    if k < i {
                        let a = choose|a: int| 0 <= a < before.len() && #[trigger] before[a] == k;
                        assert(picked@[a] == k);
                    } else {
                        assert(picked@[before.len() as int] == k);
                    }
                }
            }
        }
        i += 1;
    }
    proof {
        assert forall|k: int| is_read(commits@, start, k) implies exists|a: int|
            0 <= a < picked@.len() && #[trigger] picked@[a] == k by {
            if k >= i {
                assert(commits@[i as int].seconds > start);
            }
        }
    }
    picked
}

/// The record that a diff entry gives: its path with the status that its
/// kind of change stands for.
pub open spec fn record_of(entry: (String, Delta)) -> GitFile {
    GitFile { status: status_of(entry.1), name: entry.0 }
}

/// The change-set of one diff: a record for every entry whose path the
/// filter lets through, in the order of the diff.
pub fn changeset_of(entries: &Vec<(String, Delta)>, filter: &GitFilter) -> (records: ChangeSet)
    ensures
        records@ == entries@.map_values(|entry: (String, Delta)| record_of(entry)).filter(
            |file: GitFile| filter.lets_through(file.name@),
        ),
{
    let ghost all = entries@.map_values(|entry: (String, Delta)| record_of(entry));
    let ghost keep = |file: GitFile| filter.lets_through(file.name@);
    let mut records: Vec<GitFile> = Vec::new();
    let mut i: usize = 0;
    proof {
        reveal(Seq::filter);
        assert(all.take(0) =~= Seq::<GitFile>::empty());
    }
    while i < entries.len()
        invariant
            i <= entries@.len(),
            all == entries@.map_values(|entry: (String, Delta)| record_of(entry)),
            keep == |file: GitFile| filter.lets_through(file.name@),
            records@ == all.take(i as int).filter(keep),
        decreases entries@.len() - i,
    {
        proof {
            assert(all.take(i + 1) =~= all.take(i as int).push(all[i as int]));
            all.take(i as int).lemma_filter_push(all[i as int], keep);
        }
        let entry = &entries[i];
        if filter.keeps(&entry.0) {
            records.push(GitFile { status: delta_status(entry.1), name: entry.0.clone() });
        }
        i += 1;
    }
    proof {
        assert(all.take(entries@.len() as int) =~= all);
    }
    records
}

} // verus!
