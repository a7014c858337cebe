use clog::collection::{Commit, ReferencedCommits, SvnInfo};
use clog::index::{Index, IndexError, LookupError};

fn id(prefix: &str) -> String {
    let mut text = prefix.to_owned();
    while text.len() < 40 {
        text.push('0');
    }
    text
}

fn commit(prefix: &str, origin: Option<u32>, named: &[&str], numbers: &[u32]) -> Commit {
    Commit {
        git_revision: id(prefix),
        parent_revisions: vec![],
        svn_info: origin.map(|svn_revision| SvnInfo { svn_url: "u".to_owned(), svn_revision }),
        jira_tickets: vec![],
        referenced_commits: ReferencedCommits {
            git_commits: named.iter().map(|text| (*text).to_owned()).collect(),
            svn_commits: numbers.to_vec(),
        },
        is_likely_a_merge: false,
    }
}

fn revisions(list: &[&Commit]) -> Vec<String> {
    list.iter().map(|commit| commit.git_revision.clone()).collect()
}

#[test]
fn whole_revision_finds_its_commit() {
    let commits = vec![
        commit("abc1", None, &[], &[]),
        commit("abd2", None, &[], &[]),
        commit("0123", None, &[], &[]),
        commit("ffff", None, &[], &[]),
    ];
    let index = Index::new(&commits).unwrap();
    for each in &commits {
        let found = index.lookup_git_revision(&each.git_revision).unwrap();
        assert_eq!(found.git_revision, each.git_revision);
    }
    assert_eq!(index.len(), 4);
}

#[test]
fn unique_prefix_finds_its_commit() {
    let commits = vec![
        commit("abc1", None, &[], &[]),
        commit("abd2", None, &[], &[]),
        commit("0123", None, &[], &[]),
    ];
    let index = Index::new(&commits).unwrap();
    assert_eq!(index.lookup_git_revision("abc").unwrap().git_revision, id("abc1"));
    assert_eq!(index.lookup_git_revision("abd").unwrap().git_revision, id("abd2"));
    assert_eq!(index.lookup_git_revision("0").unwrap().git_revision, id("0123"));
    assert_eq!(index.place_of_revision("abd"), Ok(1));
}

#[test]
fn prefix_of_no_revision_is_unknown() {
    let commits = vec![commit("abc1", None, &[], &[]), commit("abd2", None, &[], &[])];
    let index = Index::new(&commits).unwrap();
    assert_eq!(index.lookup_git_revision("abe").unwrap_err(), LookupError::UnknownRevision);
    assert_eq!(index.lookup_git_revision("1").unwrap_err(), LookupError::UnknownRevision);
    assert_eq!(index.lookup_git_revision("zzz").unwrap_err(), LookupError::UnknownRevision);
    let longer = format!("{}0", id("abc1"));
    assert_eq!(index.lookup_git_revision(&longer).unwrap_err(), LookupError::UnknownRevision);
    let empty: Vec<Commit> = vec![];
    let none = Index::new(&empty).unwrap();
    assert_eq!(none.lookup_git_revision("").unwrap_err(), LookupError::UnknownRevision);
}

#[test]
fn prefix_of_two_revisions_is_ambiguous() {
    let commits = vec![
        commit("abc1", None, &[], &[]),
        commit("abd2", None, &[], &[]),
        commit("0123", None, &[], &[]),
    ];
    let index = Index::new(&commits).unwrap();
    assert_eq!(index.lookup_git_revision("ab").unwrap_err(), LookupError::AmbiguousPrefix);
    assert_eq!(index.lookup_git_revision("").unwrap_err(), LookupError::AmbiguousPrefix);
}

#[test]
fn empty_prefix_finds_the_only_commit() {
    let commits = vec![commit("abc1", None, &[], &[])];
    let index = Index::new(&commits).unwrap();
    assert_eq!(index.lookup_git_revision("").unwrap().git_revision, id("abc1"));
}

#[test]
fn revision_of_wrong_length_has_no_index() {
    let mut commits = vec![commit("abc1", None, &[], &[])];
    commits[0].git_revision = "abc".to_owned();
    assert_eq!(Index::new(&commits).unwrap_err(), IndexError::MalformedRevision);
}

#[test]
fn revision_that_occurs_twice_has_no_index() {
    let commits = vec![
        commit("abc1", None, &[], &[]),
        commit("0123", None, &[], &[]),
        commit("abc1", Some(3), &[], &[]),
    ];
    assert_eq!(Index::new(&commits).unwrap_err(), IndexError::DuplicateRevision);
}

#[test]
fn revision_of_the_origin_system_finds_its_commit() {
    let commits = vec![
        commit("abc1", Some(10), &[], &[]),
        commit("abd2", None, &[], &[]),
        commit("0123", Some(12), &[], &[]),
    ];
    let index = Index::new(&commits).unwrap();
    assert_eq!(index.lookup_svn_revision(10).unwrap().git_revision, id("abc1"));
    assert_eq!(index.lookup_svn_revision(12).unwrap().git_revision, id("0123"));
    assert_eq!(index.lookup_svn_revision(11).unwrap_err(), LookupError::UnknownRevision);
    assert_eq!(index.place_of_origin_revision(12), Some(2));
    assert_eq!(index.place_of_origin_revision(0), None);
}

#[test]
fn last_commit_of_a_revision_of_the_origin_system_wins() {
    let commits = vec![
        commit("abc1", Some(10), &[], &[]),
        commit("abd2", Some(10), &[], &[]),
        commit("0123", Some(11), &[], &[]),
    ];
    let index = Index::new(&commits).unwrap();
    assert_eq!(index.lookup_svn_revision(10).unwrap().git_revision, id("abd2"));
}

#[test]
fn references_are_resolved_in_both_directions() {
    let commits = vec![
        commit("aaa1", Some(1), &["bbb2000", "ccc", "zzzzzzz", "b"], &[3, 99]),
        commit("bbb2", Some(2), &[], &[1]),
        commit("ccc3", Some(3), &["aaa1"], &[]),
        commit("ddd4", None, &["aaa1", "aaa1000"], &[]),
    ];
    let index = Index::new(&commits).unwrap();
    assert_eq!(
        revisions(&index.get_commit_forward_references(&commits[0])),
        vec![id("bbb2"), id("ccc3"), id("bbb2"), id("ccc3")]
    );
    assert_eq!(revisions(&index.get_commit_forward_references(&commits[1])), vec![id("aaa1")]);
    assert_eq!(revisions(&index.get_commit_forward_references(&commits[2])), vec![id("aaa1")]);
    assert_eq!(
        revisions(&index.get_commit_backward_references(&commits[0])),
        vec![id("bbb2"), id("ccc3"), id("ddd4"), id("ddd4")]
    );
    assert_eq!(
        revisions(&index.get_commit_backward_references(&commits[1])),
        vec![id("aaa1"), id("aaa1")]
    );
    assert_eq!(
        revisions(&index.get_commit_backward_references(&commits[2])),
        vec![id("aaa1"), id("aaa1")]
    );
    assert!(index.get_commit_backward_references(&commits[3]).is_empty());
    assert_eq!(index.references_from(3), &vec![0, 0]);
    assert_eq!(index.references_to(0), &vec![1, 2, 3, 3]);
}

#[test]
fn commit_that_the_index_has_not_has_no_references() {
    let commits = vec![commit("aaa1", None, &["bbb2"], &[]), commit("bbb2", None, &[], &[])];
    let other = commit("eee5", None, &["aaa1"], &[]);
    let index = Index::new(&commits).unwrap();
    assert!(index.get_commit_forward_references(&other).is_empty());
    assert!(index.get_commit_backward_references(&other).is_empty());
    assert_eq!(index.place_of_commit(&other), None);
    assert_eq!(index.place_of_commit(&commits[1]), Some(1));
    assert_eq!(index.commit_at(1).git_revision, id("bbb2"));
}

#[test]
fn many_commits_are_all_found() {
    let mut commits = Vec::new();
    for n in 0..500u32 {
        let text = format!("{:08x}", n.wrapping_mul(2654435761));
        commits.push(commit(&text, Some(n), &[], &[]));
    }
    let index = Index::new(&commits).unwrap();
    for (n, each) in commits.iter().enumerate() {
        assert_eq!(index.place_of_revision(&each.git_revision), Ok(n));
        assert_eq!(index.place_of_origin_revision(n as u32), Some(n));
    }
}
