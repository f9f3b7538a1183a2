use regex::RegexSet;
use rorqual::git2graph::{changeset_of, delta_status, is_later, select_commits, Commit, Delta, GitFilter};
use rorqual::git_graph::Status;

fn filter(start: i64, patterns: &[&str]) -> GitFilter {
    GitFilter { start_date: Some(start), max_commits: Some(40), path_filters: RegexSet::new(patterns).unwrap() }
}

fn commit(seconds: i64, parents: usize) -> Commit {
    Commit { seconds, parents }
}

#[test]
fn every_kind_of_delta_has_its_status() {
    assert_eq!(delta_status(Delta::Added), Status::Added);
    assert_eq!(delta_status(Delta::Copied), Status::Added);
    assert_eq!(delta_status(Delta::Deleted), Status::Deleted);
    assert_eq!(delta_status(Delta::Ignored), Status::Deleted);
    for delta in [
        Delta::Unmodified,
        Delta::Modified,
        Delta::Renamed,
        Delta::Untracked,
        Delta::Typechange,
        Delta::Unreadable,
        Delta::Conflicted,
    ] {
        assert_eq!(delta_status(delta), Status::Modified);
    }
}

#[test]
fn filter_without_patterns_keeps_every_path() {
    let open = filter(0, &[]);
    assert!(open.keeps(&"src/main.rs".to_string()));
    assert!(open.keeps(&"".to_string()));
}

#[test]
fn filter_keeps_what_a_pattern_matches() {
    let rust = filter(0, &[r"\.rs$", r"^docs/"]);
    assert!(rust.keeps(&"src/main.rs".to_string()));
    assert!(rust.keeps(&"docs/intro.md".to_string()));
    assert!(!rust.keeps(&"Cargo.toml".to_string()));
    assert!(!rust.keeps(&"src/docs/intro.md".to_string()));
}

#[test]
fn change_set_follows_the_diff() {
    let entries = vec![
        ("src/b.rs".to_string(), Delta::Renamed),
        ("README.md".to_string(), Delta::Modified),
        ("src/a.rs".to_string(), Delta::Added),
        ("src/old.rs".to_string(), Delta::Deleted),
        ("src/copy.rs".to_string(), Delta::Copied),
    ];
    let all = changeset_of(&entries, &filter(0, &[]));
    let names: Vec<&str> = all.iter().map(|f| f.name.as_str()).collect();
    assert_eq!(names, vec!["src/b.rs", "README.md", "src/a.rs", "src/old.rs", "src/copy.rs"]);
    let kinds: Vec<Status> = all.iter().map(|f| f.status).collect();
    assert_eq!(kinds, vec![Status::Modified, Status::Modified, Status::Added, Status::Deleted, Status::Added]);

    let rust = changeset_of(&entries, &filter(0, &[r"\.rs$"]));
    let names: Vec<&str> = rust.iter().map(|f| f.name.as_str()).collect();
    assert_eq!(names, vec!["src/b.rs", "src/a.rs", "src/old.rs", "src/copy.rs"]);
    assert_eq!(rust[0].status, Status::Modified);
    assert_eq!(rust[2].status, Status::Deleted);

    assert!(changeset_of(&entries, &filter(0, &[r"^nothing$"])).is_empty());
    assert!(changeset_of(&vec![], &filter(0, &[])).is_empty());
}

#[test]
fn commits_are_read_until_the_start_date() {
    let walk = vec![
        commit(500, 2),
        commit(400, 1),
        commit(300, 0),
        commit(200, 2),
        commit(100, 2),
        commit(350, 2),
    ];
    assert_eq!(select_commits(&walk, &filter(250, &[])), vec![0, 2]);
    assert_eq!(select_commits(&walk, &filter(50, &[])), vec![0, 2, 3, 4, 5]);
    assert_eq!(select_commits(&walk, &filter(100, &[])), vec![0, 2, 3]);
    assert_eq!(select_commits(&walk, &filter(500, &[])), Vec::<usize>::new());
    assert_eq!(select_commits(&vec![], &filter(0, &[])), Vec::<usize>::new());
}

#[test]
fn commits_with_one_parent_are_passed_over() {
    let walk = vec![commit(9, 1), commit(8, 1), commit(7, 3), commit(6, 1), commit(5, 0)];
    assert_eq!(select_commits(&walk, &filter(0, &[])), vec![2, 4]);
    assert_eq!(select_commits(&walk, &filter(i64::MIN, &[])), vec![2, 4]);
    assert_eq!(select_commits(&walk, &filter(i64::MAX, &[])), Vec::<usize>::new());
}

#[test]
fn walk_goes_on_while_commits_are_later() {
    let since = filter(100, &[]);
    assert!(is_later(&commit(101, 1), &since));
    assert!(!is_later(&commit(100, 1), &since));
    assert!(!is_later(&commit(-5, 0), &since));
    assert!(is_later(&commit(i64::MAX, 2), &filter(i64::MAX - 1, &[])));
}
