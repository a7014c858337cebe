use clog::collection::{Commit, ReferencedCommits};
use clog::compare::{
    compare_tickets, find_group, group_by_jira_tickets, remove_copies, ticket_order, TicketGroup,
};
use clog::index::Index;
use clog::search::{build_commit_inclusion_tree, IncludedCommit};

fn id(prefix: &str) -> String {
    let mut text = prefix.to_owned();
    while text.len() < 40 {
        text.push('0');
    }
    text
}

fn commit(prefix: &str, merge: bool, named: &[&str], tickets: &[&str]) -> Commit {
    Commit {
        git_revision: id(prefix),
        parent_revisions: vec![],
        svn_info: None,
        jira_tickets: tickets.iter().map(|text| (*text).to_owned()).collect(),
        referenced_commits: ReferencedCommits {
            git_commits: named.iter().map(|text| (*text).to_owned()).collect(),
            svn_commits: vec![],
        },
        is_likely_a_merge: merge,
    }
}

fn tops(forest: &[IncludedCommit]) -> String {
    forest.iter().map(|tree| tree.commit.git_revision[0..1].to_owned()).collect()
}

fn groups(list: &[TicketGroup]) -> Vec<(Option<String>, Vec<usize>)> {
    list.iter().map(|group| (group.ticket.clone(), group.members.clone())).collect()
}

fn some(text: &str) -> Option<String> {
    Some(text.to_owned())
}

#[test]
fn copied_commit_leaves_and_merge_stays() {
    let commits = vec![
        commit("a", true, &["b000000"], &[]),
        commit("b", false, &[], &[]),
        commit("c", false, &[], &[]),
    ];
    let index = Index::new(&commits).unwrap();
    let first = build_commit_inclusion_tree(&index, &[&commits[0]], true, false);
    let second = build_commit_inclusion_tree(&index, &[&commits[1], &commits[2]], true, false);
    let (first, second) = remove_copies(first, second);
    assert_eq!(tops(&first), "a");
    assert_eq!(tops(&second), "c");
}

#[test]
fn commit_linked_by_no_merge_stays() {
    let commits = vec![commit("a", false, &["b000000"], &[]), commit("b", false, &[], &[])];
    let index = Index::new(&commits).unwrap();
    let first = build_commit_inclusion_tree(&index, &[&commits[0]], true, false);
    let second = build_commit_inclusion_tree(&index, &[&commits[1]], true, false);
    let (first, second) = remove_copies(first, second);
    assert_eq!(tops(&first), "a");
    assert_eq!(tops(&second), "b");
}

#[test]
fn copies_are_removed_from_both_sides() {
    let commits = vec![
        commit("a", true, &["c000000", "d000000"], &[]),
        commit("b", false, &[], &[]),
        commit("c", false, &[], &[]),
        commit("d", false, &[], &[]),
        commit("e", true, &["b000000"], &[]),
        commit("f", true, &["a000000"], &[]),
    ];
    let index = Index::new(&commits).unwrap();
    let first = build_commit_inclusion_tree(&index, &[&commits[0], &commits[1]], true, false);
    let second = build_commit_inclusion_tree(
        &index,
        &[&commits[2], &commits[3], &commits[4], &commits[5]],
        true,
        false,
    );
    let (first, second) = remove_copies(first, second);
    assert_eq!(tops(&second), "ef");
    assert_eq!(tops(&first), "");
}

#[test]
fn merge_that_left_marks_nothing() {
    let commits = vec![
        commit("a", true, &["b000000"], &[]),
        commit("b", true, &["c000000"], &[]),
        commit("c", false, &[], &[]),
    ];
    let index = Index::new(&commits).unwrap();
    let first = build_commit_inclusion_tree(&index, &[&commits[0], &commits[2]], true, false);
    let second = build_commit_inclusion_tree(&index, &[&commits[1]], true, false);
    let (first, second) = remove_copies(first, second);
    assert_eq!(tops(&second), "");
    assert_eq!(tops(&first), "ac");
}

#[test]
fn commits_are_grouped_by_ticket_in_order_of_first_mention() {
    let commits = vec![
        commit("a", false, &[], &["X-1", "Y-2"]),
        commit("b", false, &[], &[]),
        commit("c", false, &[], &["Y-2"]),
        commit("d", false, &[], &[]),
        commit("e", false, &[], &["Z-3", "X-1"]),
    ];
    let index = Index::new(&commits).unwrap();
    let seeds: Vec<&Commit> = commits.iter().collect();
    let forest = build_commit_inclusion_tree(&index, &seeds, true, false);
    let grouped = group_by_jira_tickets(&forest);
    assert_eq!(
        groups(&grouped),
        vec![
            (some("X-1"), vec![0, 4]),
            (some("Y-2"), vec![0, 2]),
            (None, vec![1, 3]),
            (some("Z-3"), vec![4]),
        ]
    );
    assert_eq!(find_group(&grouped, &None), Some(2));
    assert_eq!(find_group(&grouped, &some("Z-3")), Some(3));
    assert_eq!(find_group(&grouped, &some("Q-9")), None);
    assert!(group_by_jira_tickets(&[]).is_empty());
}

#[test]
fn tickets_are_set_against_each_other() {
    let first = vec![
        TicketGroup { ticket: some("X-1"), members: vec![0, 4] },
        TicketGroup { ticket: None, members: vec![1] },
        TicketGroup { ticket: some("Y-2"), members: vec![2] },
    ];
    let second = vec![
        TicketGroup { ticket: some("Z-3"), members: vec![0] },
        TicketGroup { ticket: some("Y-2"), members: vec![1, 2] },
        TicketGroup { ticket: None, members: vec![3] },
    ];
    let compared = compare_tickets(&first, &second);
    assert_eq!(groups(&compared.only_first), vec![(some("X-1"), vec![0, 4])]);
    assert_eq!(groups(&compared.only_second), vec![(some("Z-3"), vec![0])]);
    let both: Vec<(Option<String>, Vec<usize>, Vec<usize>)> = compared
        .both
        .iter()
        .map(|shared| {
            (shared.ticket.clone(), shared.first_members.clone(), shared.second_members.clone())
        })
        .collect();
    assert_eq!(both, vec![(None, vec![1], vec![3]), (some("Y-2"), vec![2], vec![1, 2])]);
}

#[test]
fn comparison_of_nothing_is_empty() {
    let compared = compare_tickets(&vec![], &vec![]);
    assert!(compared.only_first.is_empty());
    assert!(compared.only_second.is_empty());
    assert!(compared.both.is_empty());
}

#[test]
fn tickets_are_shown_by_project_and_issue() {
    let tickets = vec![
        some("AB-10"),
        some("B-1"),
        None,
        some("AB-9"),
        some("A-100"),
        some("AB-9"),
        None,
        some("-3"),
        some("a-1"),
    ];
    assert_eq!(ticket_order(&tickets), Some(vec![2, 6, 7, 4, 3, 5, 0, 1, 8]));
    assert_eq!(ticket_order(&vec![]), Some(vec![]));
    assert_eq!(ticket_order(&vec![None]), Some(vec![0]));
}

#[test]
fn tickets_of_another_shape_have_no_order() {
    assert_eq!(ticket_order(&vec![some("AB-1"), some("AB1")]), None);
    assert_eq!(ticket_order(&vec![some("AB-x")]), None);
    assert_eq!(ticket_order(&vec![None, some("AB-4294967296")]), None);
}
