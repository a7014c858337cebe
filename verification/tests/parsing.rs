use clog::collection::{
    commit_from_findings, expand_revision_list, is_likely_merge, process_commit_entry,
    read_svn_line, references_in_order, revisions_in_order, unique_tickets, Commit, Findings,
    ParseError,
};
use clog::matching::Patterns;
use clog::text::chars_of;

const A: &str = "aaaaaaaaaaaaaaaaaaaaaaaaaaaaaaaaaaaaaaaa";
const B: &str = "bbbbbbbbbbbbbbbbbbbbbbbbbbbbbbbbbbbbbbbb";
const C: &str = "cccccccccccccccccccccccccccccccccccccccc";

fn patterns() -> Patterns {
    Patterns::new().expect("the patterns compile")
}

fn entry(revision: &str, parents: &str, message: &str) -> String {
    format!("{revision}\n{parents}\n{message}")
}

fn parse(text: &str, all_mentions: bool) -> Result<Commit, ParseError> {
    process_commit_entry(&patterns(), text, all_mentions)
}

fn sorted(mut items: Vec<String>) -> Vec<String> {
    items.sort();
    items
}

#[test]
fn ticket_at_start_is_found() {
    let commit = parse(&entry(A, B, "PROJ-42: fix bug"), false).unwrap();
    assert_eq!(commit.jira_tickets, vec!["PROJ-42".to_owned()]);
    assert_eq!(commit.git_revision, A);
    assert_eq!(commit.parent_revisions, vec![B.to_owned()]);
    assert!(commit.svn_info.is_none());
    assert!(!commit.is_likely_a_merge);
}

#[test]
fn ticket_in_third_line_needs_all_mentions() {
    let text = entry(A, B, "fix bug\n\nsee PROJ-42 for details");
    let at_start = parse(&text, false).unwrap();
    assert!(at_start.jira_tickets.is_empty());
    let anywhere = parse(&text, true).unwrap();
    assert_eq!(anywhere.jira_tickets, vec!["PROJ-42".to_owned()]);
}

#[test]
fn ticket_repeated_later_is_listed_once() {
    let text = entry(A, B, "PROJ-42: fix bug\n\nPROJ-42: fix bug\nalso PROJ-7");
    let at_start = parse(&text, false).unwrap();
    assert_eq!(at_start.jira_tickets, vec!["PROJ-42".to_owned()]);
    let anywhere = parse(&text, true).unwrap();
    assert_eq!(
        sorted(anywhere.jira_tickets),
        vec!["PROJ-42".to_owned(), "PROJ-7".to_owned()]
    );
}

#[test]
fn ticket_after_pull_request_prefix_is_found() {
    let commit = parse(&entry(A, B, "Pull request #12: ABC_1-99 something"), false).unwrap();
    assert_eq!(commit.jira_tickets, vec!["ABC_1-99".to_owned()]);
}

#[test]
fn ticket_with_leading_zero_is_none() {
    let commit = parse(&entry(A, B, "PROJ-042: fix bug"), true).unwrap();
    assert!(commit.jira_tickets.is_empty());
}

#[test]
fn range_expands_to_each_revision() {
    assert_eq!(expand_revision_list("16734-16735"), vec![16734, 16735]);
}

#[test]
fn comma_list_expands_in_order() {
    assert_eq!(expand_revision_list("10, 12-13"), vec![10, 12, 13]);
}

#[test]
fn revision_list_edge_cases() {
    assert_eq!(expand_revision_list("5"), vec![5]);
    assert_eq!(expand_revision_list("7-7"), vec![7]);
    assert_eq!(expand_revision_list("9-3"), Vec::<u32>::new());
    assert_eq!(expand_revision_list(""), Vec::<u32>::new());
    assert_eq!(expand_revision_list("1,2,1"), vec![2, 1]);
    assert_eq!(expand_revision_list("1-3,2"), vec![1, 3, 2]);
    assert_eq!(expand_revision_list("99999999999"), Vec::<u32>::new());
    assert_eq!(expand_revision_list("4294967295"), vec![4294967295]);
    assert_eq!(expand_revision_list("4294967294-4294967295"), vec![4294967294, 4294967295]);
    assert_eq!(expand_revision_list("x, 3"), vec![3]);
}

#[test]
fn revisions_of_the_origin_system_are_found() {
    let commit = parse(&entry(A, B, "Merged revisions 16732, 16734-16735 from trunk"), false).unwrap();
    assert_eq!(commit.referenced_commits.svn_commits, vec![16732, 16734, 16735]);
    assert!(commit.is_likely_a_merge);
    let short = parse(&entry(A, B, "see r100 and rev 7"), false).unwrap();
    assert_eq!(short.referenced_commits.svn_commits, vec![100, 7]);
    assert!(short.is_likely_a_merge);
    let one = parse(&entry(A, B, "see r100"), false).unwrap();
    assert_eq!(one.referenced_commits.svn_commits, vec![100]);
    assert!(!one.is_likely_a_merge);
}

#[test]
fn references_to_commits_are_found_once_in_order_of_last_mention() {
    let commit = parse(&entry(A, B, "like abcdef1 and 1234567\nagain ABCDEF1 abcdef1 if 123456"), false).unwrap();
    assert_eq!(
        commit.referenced_commits.git_commits,
        vec!["1234567".to_owned(), "ABCDEF1".to_owned(), "abcdef1".to_owned()]
    );
    assert!(!commit.is_likely_a_merge);
}

#[test]
fn two_parents_make_a_likely_merge() {
    let commit = parse(&entry(A, &format!("{B} {C}"), "nothing to see"), false).unwrap();
    assert_eq!(commit.parent_revisions, vec![B.to_owned(), C.to_owned()]);
    assert!(commit.is_likely_a_merge);
    assert!(is_likely_merge(2, false, &vec![], &vec![]));
}

#[test]
fn one_parent_without_references_is_no_likely_merge() {
    let commit = parse(&entry(A, B, "plain change"), false).unwrap();
    assert!(!commit.is_likely_a_merge);
    assert!(!is_likely_merge(1, false, &vec![], &vec![]));
    assert!(!is_likely_merge(1, true, &vec![], &vec![]));
    assert!(!is_likely_merge(0, false, &vec!["abcdef1".to_owned()], &vec![]));
}

#[test]
fn merge_heuristic_by_each_rule() {
    assert!(is_likely_merge(1, true, &vec!["abcdef1".to_owned()], &vec![]));
    assert!(is_likely_merge(1, true, &vec![], &vec![3]));
    assert!(is_likely_merge(1, false, &vec![A.to_owned()], &vec![]));
    assert!(!is_likely_merge(1, false, &vec![A.to_owned(), B.to_owned()], &vec![]));
    assert!(is_likely_merge(1, false, &vec![], &vec![3, 4]));
    assert!(!is_likely_merge(1, false, &vec![], &vec![3]));
    let picked = parse(&entry(A, B, &format!("fix\n\n(cherry picked from commit {C})")), false).unwrap();
    assert!(picked.is_likely_a_merge);
    assert_eq!(picked.referenced_commits.git_commits, vec![C.to_owned()]);
    let mention = parse(&entry(A, B, "Merging abcdef1 into main"), false).unwrap();
    assert!(mention.is_likely_a_merge);
}

#[test]
fn root_commit_has_no_parent() {
    let commit = parse(&entry(A, "", "first"), false).unwrap();
    assert!(commit.parent_revisions.is_empty());
    let alone = parse(A, false).unwrap();
    assert!(alone.parent_revisions.is_empty());
    assert!(alone.jira_tickets.is_empty());
}

#[test]
fn line_of_the_origin_system_is_read() {
    let text = entry(
        A,
        B,
        "PROJ-1 change\n\ngit-svn-id: https://svn.example.org/repo/trunk@16734 0f0f0f0f-1234-5678-9abc-def012345678",
    );
    let commit = parse(&text, true).unwrap();
    let info = commit.svn_info.expect("the line was read");
    assert_eq!(info.svn_url, "https://svn.example.org/repo/trunk");
    assert_eq!(info.svn_revision, 16734);
    assert!(commit.referenced_commits.git_commits.is_empty());
    assert_eq!(commit.jira_tickets, vec!["PROJ-1".to_owned()]);
}

#[test]
fn second_line_of_the_origin_system_is_ordinary_text() {
    let text = entry(A, B, "x\ngit-svn-id: u@1 i\ngit-svn-id: broken abcdef12");
    let commit = parse(&text, false).unwrap();
    assert_eq!(commit.svn_info.unwrap().svn_revision, 1);
    assert_eq!(commit.referenced_commits.git_commits, vec!["abcdef12".to_owned()]);
}

#[test]
fn entry_without_a_line_has_no_revision() {
    assert_eq!(parse("", false).unwrap_err(), ParseError::MissingRevision);
}

#[test]
fn revision_of_wrong_length_is_refused() {
    assert_eq!(parse("abc\n\nmessage", false).unwrap_err(), ParseError::InvalidRevisionLength);
    let long = format!("{A}a\n\nmessage");
    assert_eq!(parse(&long, false).unwrap_err(), ParseError::InvalidRevisionLength);
}

#[test]
fn line_of_the_origin_system_with_wrong_fields_is_refused() {
    assert_eq!(
        parse(&entry(A, B, "x\ngit-svn-id: only-two"), false).unwrap_err(),
        ParseError::InvalidSvnLine
    );
    assert_eq!(
        parse(&entry(A, B, "x\ngit-svn-id: a@1 b c"), false).unwrap_err(),
        ParseError::InvalidSvnLine
    );
    assert_eq!(
        parse(&entry(A, B, "x\ngit-svn-idx: a@1 b"), false).unwrap_err(),
        ParseError::InvalidSvnLine
    );
}

#[test]
fn line_of_the_origin_system_without_at_sign_is_refused() {
    assert_eq!(
        parse(&entry(A, B, "x\ngit-svn-id: nothing b"), false).unwrap_err(),
        ParseError::InvalidSvnInfo
    );
}

#[test]
fn line_of_the_origin_system_without_number_is_refused() {
    assert_eq!(
        parse(&entry(A, B, "x\ngit-svn-id: a@b c"), false).unwrap_err(),
        ParseError::InvalidSvnRevision
    );
    assert_eq!(
        parse(&entry(A, B, "x\ngit-svn-id: a@4294967296 c"), false).unwrap_err(),
        ParseError::InvalidSvnRevision
    );
}

#[test]
fn svn_line_reader_takes_white_space_around() {
    let info = read_svn_line(&chars_of("git-svn-id: u@12 id  ")).unwrap();
    assert_eq!(info.svn_url, "u");
    assert_eq!(info.svn_revision, 12);
    let at = read_svn_line(&chars_of("git-svn-id: a@b@3 id")).unwrap_err();
    assert_eq!(at, ParseError::InvalidSvnRevision);
}

#[test]
fn carriage_returns_end_lines_too() {
    let text = format!("{A}\r\n{B}\r\nPROJ-9 x\r\n");
    let commit = parse(&text, false).unwrap();
    assert_eq!(commit.git_revision, A);
    assert_eq!(commit.parent_revisions, vec![B.to_owned()]);
    assert_eq!(commit.jira_tickets, vec!["PROJ-9".to_owned()]);
}

fn found(list: &[Option<&str>]) -> Vec<Option<String>> {
    list.iter().map(|entry| entry.map(|text| text.to_owned())).collect()
}

#[test]
fn tickets_found_are_listed_once_in_order_of_first_finding() {
    assert_eq!(
        unique_tickets(found(&[Some("B-2"), None, Some("A-1"), Some("B-2"), Some("A-1")])),
        vec!["B-2".to_owned(), "A-1".to_owned()]
    );
    assert!(unique_tickets(found(&[None, None])).is_empty());
    assert!(unique_tickets(vec![]).is_empty());
}

#[test]
fn references_found_are_listed_once_in_order_of_last_finding() {
    assert_eq!(
        references_in_order(found(&[Some("b"), None, Some("a"), Some("b"), Some("c")])),
        vec!["a".to_owned(), "b".to_owned(), "c".to_owned()]
    );
    assert!(references_in_order(vec![]).is_empty());
}

#[test]
fn revisions_found_are_listed_once_in_order_of_last_naming() {
    assert_eq!(
        revisions_in_order(&found(&[Some("5, 7-9"), None, Some("8"), Some("x"), Some("1-2")])),
        vec![5, 7, 9, 8, 1, 2]
    );
    assert!(revisions_in_order(&vec![]).is_empty());
}

#[test]
fn commit_is_made_of_what_was_found() {
    let findings = Findings {
        tickets: found(&[Some("AB-1"), Some("AB-1")]),
        commit_references: found(&[Some("abcdef1")]),
        revision_lists: found(&[Some("3")]),
        mentions_merging: true,
    };
    let commit = commit_from_findings(A.to_owned(), vec![B.to_owned()], None, findings);
    assert_eq!(commit.git_revision, A);
    assert_eq!(commit.parent_revisions, vec![B.to_owned()]);
    assert_eq!(commit.jira_tickets, vec!["AB-1".to_owned()]);
    assert_eq!(commit.referenced_commits.git_commits, vec!["abcdef1".to_owned()]);
    assert_eq!(commit.referenced_commits.svn_commits, vec![3]);
    assert!(commit.is_likely_a_merge);
    let nothing = Findings {
        tickets: vec![],
        commit_references: vec![],
        revision_lists: vec![],
        mentions_merging: true,
    };
    let plain = commit_from_findings(A.to_owned(), vec![], None, nothing);
    assert!(!plain.is_likely_a_merge);
}
