use clog::collection::{Commit, ReferencedCommits};
use clog::index::Index;
use clog::search::{build_commit_inclusion_tree, flatten_inclusion_tree, IncludedCommit};

fn id(prefix: &str) -> String {
    let mut text = prefix.to_owned();
    while text.len() < 40 {
        text.push('0');
    }
    text
}

fn commit(prefix: &str, merge: bool, named: &[&str]) -> Commit {
    Commit {
        git_revision: id(prefix),
        parent_revisions: vec![],
        svn_info: None,
        jira_tickets: vec![],
        referenced_commits: ReferencedCommits {
            git_commits: named.iter().map(|text| (*text).to_owned()).collect(),
            svn_commits: vec![],
        },
        is_likely_a_merge: merge,
    }
}

fn shape(forest: &[IncludedCommit]) -> String {
    let mut text = String::new();
    for tree in forest {
        text.push_str(&tree.commit.git_revision[0..1]);
        if !tree.linked_commits.is_empty() {
            text.push('(');
            text.push_str(&shape(&tree.linked_commits));
            text.push(')');
        }
    }
    text
}

fn flat(forest: &[IncludedCommit]) -> String {
    flatten_inclusion_tree(forest)
        .iter()
        .map(|commit| commit.git_revision[0..1].to_owned())
        .collect()
}

#[test]
fn circle_of_two_ends() {
    let commits = vec![commit("a", false, &["b000000"]), commit("b", false, &["a000000"])];
    let index = Index::new(&commits).unwrap();
    let forest = build_commit_inclusion_tree(&index, &[&commits[0]], true, false);
    assert_eq!(shape(&forest), "a(b)");
    assert_eq!(flat(&forest), "ab");
    let back = build_commit_inclusion_tree(&index, &[&commits[0]], false, false);
    assert_eq!(shape(&back), "a(b)");
}

#[test]
fn commit_that_names_itself_has_no_links() {
    let commits = vec![commit("a", false, &["a000000"])];
    let index = Index::new(&commits).unwrap();
    let forest = build_commit_inclusion_tree(&index, &[&commits[0]], true, false);
    assert_eq!(shape(&forest), "a");
}

#[test]
fn traversal_twice_gives_the_same_forest() {
    let commits = vec![
        commit("a", false, &["b000000", "c000000"]),
        commit("b", true, &["d000000", "a000000"]),
        commit("c", false, &["d000000"]),
        commit("d", true, &["e000000"]),
        commit("e", false, &[]),
    ];
    let index = Index::new(&commits).unwrap();
    let seeds = [&commits[0], &commits[2]];
    let first = build_commit_inclusion_tree(&index, &seeds, true, false);
    let second = build_commit_inclusion_tree(&index, &seeds, true, false);
    assert_eq!(shape(&first), shape(&second));
    assert_eq!(shape(&first), "a(b(d(e)))c");
    assert_eq!(flat(&first), "acbde");
}

#[test]
fn shared_reference_stands_under_the_first_that_reaches_it() {
    let commits = vec![
        commit("a", false, &["c000000"]),
        commit("b", false, &["c000000"]),
        commit("c", false, &[]),
    ];
    let index = Index::new(&commits).unwrap();
    let forest = build_commit_inclusion_tree(&index, &[&commits[0], &commits[1]], true, false);
    assert_eq!(shape(&forest), "a(c)b");
    let other = build_commit_inclusion_tree(&index, &[&commits[1], &commits[0]], true, false);
    assert_eq!(shape(&other), "b(c)a");
}

#[test]
fn seed_stands_at_the_top_only() {
    let commits = vec![
        commit("a", false, &["b000000"]),
        commit("b", false, &["c000000"]),
        commit("c", false, &["a000000"]),
    ];
    let index = Index::new(&commits).unwrap();
    let forest = build_commit_inclusion_tree(&index, &[&commits[0], &commits[1]], true, false);
    assert_eq!(shape(&forest), "ab(c)");
    let twice = build_commit_inclusion_tree(&index, &[&commits[0], &commits[0]], true, false);
    assert_eq!(shape(&twice), "a(b(c))a");
}

#[test]
fn only_likely_merges_are_followed_where_asked() {
    let commits = vec![
        commit("a", false, &[]),
        commit("b", true, &["a000000"]),
        commit("c", false, &["a000000"]),
        commit("d", true, &["b000000", "c000000"]),
        commit("e", false, &["b000000"]),
    ];
    let index = Index::new(&commits).unwrap();
    let merges = build_commit_inclusion_tree(&index, &[&commits[0]], false, true);
    assert_eq!(shape(&merges), "a(b(d))");
    let all = build_commit_inclusion_tree(&index, &[&commits[0]], false, false);
    assert_eq!(shape(&all), "a(b(de)c)");
    assert_eq!(flat(&all), "abcde");
}

#[test]
fn commit_that_the_index_has_not_stands_alone() {
    let commits = vec![commit("a", false, &["b000000"]), commit("b", false, &[])];
    let other = commit("f", false, &["a000000"]);
    let index = Index::new(&commits).unwrap();
    let forest = build_commit_inclusion_tree(&index, &[&other, &commits[0]], true, false);
    assert_eq!(shape(&forest), "fa(b)");
}

#[test]
fn no_seed_gives_no_forest() {
    let commits = vec![commit("a", false, &[])];
    let index = Index::new(&commits).unwrap();
    let forest = build_commit_inclusion_tree(&index, &[], true, false);
    assert!(forest.is_empty());
    assert!(flatten_inclusion_tree(&forest).is_empty());
}

#[test]
fn flattening_goes_level_by_level() {
    let commits = vec![
        commit("a", false, &["b000000", "c000000"]),
        commit("b", false, &["d000000"]),
        commit("c", false, &["e000000"]),
        commit("d", false, &[]),
        commit("e", false, &[]),
        commit("f", false, &["0000000"]),
        commit("0", false, &[]),
    ];
    let index = Index::new(&commits).unwrap();
    let forest = build_commit_inclusion_tree(&index, &[&commits[0], &commits[5]], true, false);
    assert_eq!(shape(&forest), "a(b(d)c(e))f(0)");
    assert_eq!(flat(&forest), "afbc0de");
}

#[test]
fn long_chain_is_followed_to_its_end() {
    let mut commits = Vec::new();
    for n in 0..300u32 {
        let next = format!("{:07x}", n + 1);
        commits.push(commit(&format!("{:07x}", n), false, &[&next]));
    }
    let index = Index::new(&commits).unwrap();
    let forest = build_commit_inclusion_tree(&index, &[&commits[0]], true, false);
    assert_eq!(flatten_inclusion_tree(&forest).len(), 300);
}
