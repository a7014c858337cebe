use clog::branches::gather_branches;
use clog::collection::{process_log_data, Commit, EntryError, ParseError, ReferencedCommits, SvnInfo};
use clog::index::{is_likely_a_real_git_revision, Index, LookupError};
use clog::matching::Patterns;
use clog::revmap::{
    get_repo_revision_maps, revision_map_bytes, revision_map_markdown, RevisionMapping,
    UnwritableMapping,
};
use clog::text::decimal_chars;
use clog::search::{
    commits_of_listing, commits_with_tickets, get_search_results, read_listed_names,
    UnlistedRevision,
};
use clog::util::HexError;
use clog::words::{
    arguments_for_words, flatten_string_sets_on_shell_words, search_arguments, sort_texts,
    UnclosedQuote,
};

const A: &str = "aaaaaaaaaaaaaaaaaaaaaaaaaaaaaaaaaaaaaaaa";
const B: &str = "bbbbbbbbbbbbbbbbbbbbbbbbbbbbbbbbbbbbbbbb";

fn id(prefix: &str) -> String {
    let mut text = prefix.to_owned();
    while text.len() < 40 {
        text.push('0');
    }
    text
}

fn commit(prefix: &str, origin: Option<(&str, u32)>, named: &[&str], tickets: &[&str]) -> Commit {
    Commit {
        git_revision: id(prefix),
        parent_revisions: vec![],
        svn_info: origin
            .map(|(url, svn_revision)| SvnInfo { svn_url: url.to_owned(), svn_revision }),
        jira_tickets: tickets.iter().map(|text| (*text).to_owned()).collect(),
        referenced_commits: ReferencedCommits {
            git_commits: named.iter().map(|text| (*text).to_owned()).collect(),
            svn_commits: vec![],
        },
        is_likely_a_merge: false,
    }
}

fn owned(list: &[&str]) -> Vec<String> {
    list.iter().map(|text| (*text).to_owned()).collect()
}

#[test]
fn log_is_read_entry_by_entry() {
    let patterns = Patterns::new().unwrap();
    let log = format!(
        "ignored\nCLOG-COMMIT-DELIMITER\n{A}\n{B}\nXY-1 first\n\nCLOG-COMMIT-DELIMITER\n{B}\n\nsecond\nline"
    );
    let commits = process_log_data(&patterns, &log, false).unwrap();
    assert_eq!(commits.len(), 2);
    assert_eq!(commits[0].git_revision, A);
    assert_eq!(commits[0].parent_revisions, vec![B.to_owned()]);
    assert_eq!(commits[0].jira_tickets, vec!["XY-1".to_owned()]);
    assert_eq!(commits[1].git_revision, B);
    assert!(commits[1].parent_revisions.is_empty());
    assert!(process_log_data(&patterns, "", false).unwrap().is_empty());
    assert!(process_log_data(&patterns, "no delimiter", false).unwrap().is_empty());
}

#[test]
fn one_bad_entry_fails_the_whole_log() {
    let patterns = Patterns::new().unwrap();
    let log = format!(
        "CLOG-COMMIT-DELIMITER\n{A}\n\nfine\nCLOG-COMMIT-DELIMITER\nshort\n\nbad\nCLOG-COMMIT-DELIMITER\n\n"
    );
    assert_eq!(
        process_log_data(&patterns, &log, false).unwrap_err(),
        EntryError { entry: 1, cause: ParseError::InvalidRevisionLength }
    );
    let empty = "CLOG-COMMIT-DELIMITER\n".to_owned();
    assert_eq!(
        process_log_data(&patterns, &empty, false).unwrap_err(),
        EntryError { entry: 0, cause: ParseError::MissingRevision }
    );
}

#[test]
fn revision_of_an_earlier_entry_fails_the_whole_log() {
    let patterns = Patterns::new().unwrap();
    let log = format!(
        "CLOG-COMMIT-DELIMITER\n{A}\n\none\nCLOG-COMMIT-DELIMITER\n{B}\n\ntwo\nCLOG-COMMIT-DELIMITER\n{B}\n\nthree\nCLOG-COMMIT-DELIMITER\n{A}\n\nfour\n"
    );
    assert_eq!(
        process_log_data(&patterns, &log, false).unwrap_err(),
        EntryError { entry: 2, cause: ParseError::DuplicateRevision }
    );
}

#[test]
fn first_repeated_text_is_found() {
    let texts = |list: &[&str]| -> Vec<Vec<char>> {
        list.iter().map(|text| text.chars().collect()).collect()
    };
    assert_eq!(clog::order::find_first_repeated(&texts(&["a", "b", "c"])), None);
    assert_eq!(clog::order::find_first_repeated(&texts(&["a", "b", "a", "b"])), Some(2));
    assert_eq!(clog::order::find_first_repeated(&texts(&["c", "b", "a", "b", "c", "c"])), Some(3));
    assert_eq!(clog::order::find_first_repeated(&texts(&["x", "x"])), Some(1));
    assert_eq!(clog::order::find_first_repeated(&texts(&[])), None);
}

#[test]
fn likely_references_are_told_from_numbers() {
    assert!(is_likely_a_real_git_revision("abcdef1"));
    assert!(is_likely_a_real_git_revision("1234a67"));
    assert!(is_likely_a_real_git_revision("123F567"));
    assert!(!is_likely_a_real_git_revision("1234567"));
    assert!(!is_likely_a_real_git_revision("aaaaaaa"));
    assert!(!is_likely_a_real_git_revision(""));
    assert!(!is_likely_a_real_git_revision("a"));
    assert!(!is_likely_a_real_git_revision("ghijklm"));
}

#[test]
fn references_that_lead_nowhere_are_listed() {
    let mut commits = vec![
        commit("aaa1", Some(("u", 1)), &["bbb2000", "dddd", "b"], &[]),
        commit("bbb2", None, &[], &[]),
        commit("bbc3", None, &[], &[]),
    ];
    commits[0].referenced_commits.svn_commits = vec![1, 7, 2];
    let index = Index::new(&commits).unwrap();
    let unresolved = index.unresolved_references(0);
    assert_eq!(unresolved.git_commits, owned(&["dddd", "b"]));
    assert_eq!(unresolved.svn_commits, vec![7, 2]);
    let none = index.unresolved_references(1);
    assert!(none.git_commits.is_empty());
    assert!(none.svn_commits.is_empty());
}

#[test]
fn names_of_a_listing_are_read() {
    assert_eq!(
        read_listed_names("  origin/main\n* feature/x  \n\n   \n\torigin/HEAD -> origin/main\r\n"),
        owned(&["origin/main", "* feature/x", "origin/HEAD -> origin/main"])
    );
    assert!(read_listed_names("").is_empty());
    assert!(read_listed_names("\n\n").is_empty());
}

#[test]
fn commits_of_a_listing_are_found() {
    let commits = vec![
        commit("aaa1", None, &["bbb2000"], &[]),
        commit("bbb2", None, &[], &[]),
        commit("ccc3", None, &[], &[]),
    ];
    let index = Index::new(&commits).unwrap();
    let listing = format!("{}\n\n  {}  \n", id("ccc3"), id("aaa1"));
    let found = commits_of_listing(&index, &listing).unwrap();
    let revisions: Vec<&str> = found.iter().map(|each| each.git_revision.as_str()).collect();
    assert_eq!(revisions, vec![id("ccc3"), id("aaa1")]);
    let forest = get_search_results(&index, &listing).unwrap();
    assert_eq!(forest.len(), 2);
    assert_eq!(forest[0].commit.git_revision, id("ccc3"));
    assert!(forest[0].linked_commits.is_empty());
    assert_eq!(forest[1].commit.git_revision, id("aaa1"));
    assert_eq!(forest[1].linked_commits.len(), 1);
    assert_eq!(forest[1].linked_commits[0].commit.git_revision, id("bbb2"));
    assert!(get_search_results(&index, "").unwrap().is_empty());
}

#[test]
fn listing_with_an_unknown_revision_is_an_error() {
    let commits = vec![commit("aaa1", None, &[], &[]), commit("aab2", None, &[], &[])];
    let index = Index::new(&commits).unwrap();
    let listing = format!("{}\n{}\n{}\n", id("aaa1"), id("eee5"), id("fff6"));
    assert_eq!(
        commits_of_listing(&index, &listing).unwrap_err(),
        UnlistedRevision { place: 1, cause: LookupError::UnknownRevision }
    );
    assert_eq!(
        get_search_results(&index, "aa\n").unwrap_err(),
        UnlistedRevision { place: 0, cause: LookupError::AmbiguousPrefix }
    );
}

#[test]
fn commits_that_name_a_ticket_are_found() {
    let commits = vec![
        commit("aaa1", None, &[], &["X-1", "Y-2"]),
        commit("bbb2", None, &[], &[]),
        commit("ccc3", None, &[], &["Z-3"]),
        commit("ddd4", None, &[], &["Y-2"]),
    ];
    let found = commits_with_tickets(&commits, &owned(&["Y-2", "Q-0"]));
    let revisions: Vec<&str> = found.iter().map(|each| each.git_revision.as_str()).collect();
    assert_eq!(revisions, vec![id("aaa1"), id("ddd4")]);
    assert!(commits_with_tickets(&commits, &[]).is_empty());
    assert!(commits_with_tickets(&[], &owned(&["Y-2"])).is_empty());
}

#[test]
fn words_of_each_set_are_sorted_into_one_list() {
    assert_eq!(
        flatten_string_sets_on_shell_words(&owned(&["src/b 'with space'", "src/a", ""])),
        Ok(owned(&["src/a", "src/b", "with space"]))
    );
    assert_eq!(flatten_string_sets_on_shell_words(&vec![]), Ok(vec![]));
    assert_eq!(
        flatten_string_sets_on_shell_words(&owned(&["b a", "a"])),
        Ok(owned(&["a", "a", "b"]))
    );
}

#[test]
fn set_with_an_open_quote_is_an_error() {
    assert_eq!(
        flatten_string_sets_on_shell_words(&owned(&["fine", "'open", "\"also"])),
        Err(UnclosedQuote { place: 1 })
    );
}

#[test]
fn arguments_of_a_search_are_put_together() {
    assert_eq!(
        search_arguments("\"main\" ^\"old\"", false, &[]),
        Some(owned(&["log", "--pretty=format:%H", "main", "^old", "--no-merges"]))
    );
    assert_eq!(
        search_arguments("a..b", true, &owned(&["src", "doc/x y"])),
        Some(owned(&["log", "--pretty=format:%H", "a..b", "--", "src", "doc/x y"]))
    );
    assert_eq!(
        search_arguments("", false, &owned(&["p"])),
        Some(owned(&["log", "--pretty=format:%H", "--no-merges", "--", "p"]))
    );
    assert_eq!(search_arguments("'open", true, &[]), None);
}

#[test]
fn revision_map_is_sorted_by_revision() {
    let commits = vec![
        commit("c", Some(("u3", 30)), &[], &[]),
        commit("a", None, &[], &[]),
        commit("b", Some(("u1", 10)), &[], &[]),
        commit("d", Some(("u2", 30)), &[], &[]),
        commit("e", Some(("u0", 0)), &[], &[]),
    ];
    let map = get_repo_revision_maps(&commits);
    let triples: Vec<(u32, &str, &str)> = map
        .iter()
        .map(|m| (m.svn_revision, m.svn_url.as_str(), &m.git_revision[0..1]))
        .collect();
    assert_eq!(triples, vec![(0, "u0", "e"), (10, "u1", "b"), (30, "u3", "c"), (30, "u2", "d")]);
    assert!(get_repo_revision_maps(&[]).is_empty());
}

fn mapping(url: &str, svn_revision: u32, revision: &str) -> RevisionMapping {
    RevisionMapping { svn_url: url.to_owned(), svn_revision, git_revision: revision.to_owned() }
}

#[test]
fn revision_map_is_written_in_bytes() {
    let map = vec![mapping("u", 0x0102_0304, "00ff"), mapping("v", 7, "ab")];
    assert_eq!(
        revision_map_bytes(&map),
        Ok(vec![1, 2, 3, 4, 0x00, 0xff, 0, 0, 0, 7, 0xab])
    );
    assert_eq!(revision_map_bytes(&[]), Ok(vec![]));
    let whole = vec![mapping("u", u32::MAX, A)];
    let bytes = revision_map_bytes(&whole).unwrap();
    assert_eq!(bytes.len(), 24);
    assert_eq!(&bytes[0..4], &u32::MAX.to_be_bytes());
    assert_eq!(&bytes[4..], &[0xaa; 20]);
}

#[test]
fn revision_that_is_no_hexadecimal_text_is_not_written() {
    let map = vec![mapping("u", 1, "00"), mapping("v", 2, "xy"), mapping("w", 3, "0")];
    assert_eq!(
        revision_map_bytes(&map),
        Err(UnwritableMapping { place: 1, cause: HexError::InvalidDigit })
    );
    let odd = vec![mapping("w", 3, "0")];
    assert_eq!(
        revision_map_bytes(&odd),
        Err(UnwritableMapping { place: 0, cause: HexError::OddLength })
    );
}

#[test]
fn revision_map_is_written_in_lines() {
    let map = vec![mapping("https://svn/trunk", 16734, A), mapping("u", 0, "abc")];
    assert_eq!(
        revision_map_markdown(&map, 8),
        "- `16734` -> `aaaaaaaa` (`https://svn/trunk`)\n- `0` -> `abc` (`u`)\n"
    );
    assert_eq!(revision_map_markdown(&[], 8), "");
    assert_eq!(revision_map_markdown(&map[1..], 0), "- `0` -> `` (`u`)\n");
}

#[test]
fn numbers_are_written_in_decimal_digits() {
    for n in [0u32, 7, 10, 99, 100, 16734, 4294967295] {
        let text: String = decimal_chars(n as usize).into_iter().collect();
        assert_eq!(text, n.to_string());
    }
}

#[test]
fn branches_are_gathered_by_their_commits() {
    let containing = vec![
        owned(&["origin/main", "origin/release", "origin/dev"]),
        owned(&["origin/dev", "origin/main"]),
        owned(&[]),
        owned(&["origin/fix"]),
    ];
    let sets = gather_branches(&containing);
    let shown: Vec<(Vec<usize>, Vec<String>)> =
        sets.iter().map(|set| (set.commits.clone(), set.branches.clone())).collect();
    assert_eq!(
        shown,
        vec![
            (vec![0, 1], owned(&["origin/dev", "origin/main"])),
            (vec![0], owned(&["origin/release"])),
            (vec![3], owned(&["origin/fix"])),
        ]
    );
    assert!(gather_branches(&vec![]).is_empty());
    assert!(gather_branches(&vec![vec![], vec![]]).is_empty());
}

#[test]
fn commits_are_shown_line_by_line() {
    let mut merge = commit("abcdef123", None, &[], &[]);
    merge.is_likely_a_merge = true;
    let plain = commit("0123", None, &[], &[]);
    assert_eq!(
        clog::report::display_commit_set(&[&merge, &plain], 2, 8),
        "\t\t- `abcdef12` (M)\n\t\t- `01230000`\n"
    );
    assert_eq!(clog::report::display_commit_set(&[&plain], 0, 100), format!("- `{}`\n", id("0123")));
    assert_eq!(clog::report::display_commit_set(&[], 1, 8), "");
}

#[test]
fn forest_is_shown_with_growing_indentation() {
    let mut commits = vec![
        commit("aaa1", None, &["bbb2000", "ddd4000"], &[]),
        commit("bbb2", None, &["ccc3000"], &[]),
        commit("ccc3", None, &[], &[]),
        commit("ddd4", None, &[], &[]),
        commit("eee5", None, &[], &[]),
    ];
    commits[1].is_likely_a_merge = true;
    let index = Index::new(&commits).unwrap();
    let forest =
        clog::search::build_commit_inclusion_tree(&index, &[&commits[0], &commits[4]], true, false);
    let trees: Vec<&clog::search::IncludedCommit> = forest.iter().collect();
    assert_eq!(
        clog::report::display_commit_reference_tree(&trees, 1, 4),
        "\t- `aaa1`\n\t\t- `bbb2` (M)\n\t\t\t- `ccc3`\n\t\t- `ddd4`\n\t- `eee5`\n"
    );
    assert_eq!(clog::report::display_commit_reference_tree(&[], 0, 4), "");
}

#[test]
fn tickets_are_shown_with_counts_or_commits() {
    let commits = vec![
        commit("aaa1", None, &["ccc3000"], &["AB-1"]),
        commit("bbb2", None, &[], &[]),
        commit("ccc3", None, &[], &[]),
    ];
    let index = Index::new(&commits).unwrap();
    let forest =
        clog::search::build_commit_inclusion_tree(&index, &[&commits[0], &commits[1]], true, false);
    let groups = clog::compare::group_by_jira_tickets(&forest);
    let listed: Vec<&clog::compare::TicketGroup> = groups.iter().rev().collect();
    assert_eq!(
        clog::report::display_jira_ticket_commit_list(&listed, &forest, false, 4, "#"),
        "- *No Jira Ticket* (1)\n- #AB-1 (1)\n"
    );
    assert_eq!(
        clog::report::display_jira_ticket_commit_list(&listed, &forest, true, 4, ""),
        "- *No Jira Ticket*:\n\t- `bbb2`\n- AB-1:\n\t- `aaa1`\n\t\t- `ccc3`\n"
    );
    assert_eq!(clog::report::display_jira_ticket_commit_list(&[], &forest, true, 4, ""), "");
}

#[test]
fn shared_tickets_are_shown_for_both_sides() {
    let commits = vec![
        commit("aaa1", None, &[], &["AB-1"]),
        commit("bbb2", None, &[], &["AB-1"]),
        commit("ccc3", None, &[], &["AB-1"]),
    ];
    let index = Index::new(&commits).unwrap();
    let first = clog::search::build_commit_inclusion_tree(&index, &[&commits[0]], true, false);
    let second =
        clog::search::build_commit_inclusion_tree(&index, &[&commits[1], &commits[2]], true, false);
    let compared = clog::compare::compare_tickets(
        &clog::compare::group_by_jira_tickets(&first),
        &clog::compare::group_by_jira_tickets(&second),
    );
    let shared: Vec<&clog::compare::SharedTicket> = compared.both.iter().collect();
    assert_eq!(
        clog::report::display_jira_ticket_commit_list_intersection(
            &shared, &first, &second, "main", "dev", false, 4, "T:"
        ),
        "- T:AB-1 (1 : 2)\n"
    );
    assert_eq!(
        clog::report::display_jira_ticket_commit_list_intersection(
            &shared, &first, &second, "main", "dev", true, 4, ""
        ),
        "- AB-1:\n\t- On `main`:\n\t\t- `aaa1`\n\t- On `dev`:\n\t\t- `bbb2`\n\t\t- `ccc3`\n"
    );
}

#[test]
fn arguments_follow_from_the_words_of_a_range() {
    assert_eq!(
        arguments_for_words(&owned(&["a", "^b"]), false, &owned(&["x"])),
        owned(&["log", "--pretty=format:%H", "a", "^b", "--no-merges", "--", "x"])
    );
    assert_eq!(arguments_for_words(&vec![], true, &[]), owned(&["log", "--pretty=format:%H"]));
}

#[test]
fn texts_are_sorted_as_in_a_dictionary() {
    let texts = |list: &[&str]| -> Vec<Vec<char>> {
        list.iter().map(|text| text.chars().collect()).collect()
    };
    assert_eq!(sort_texts(&texts(&["b", "a", "", "ab", "a"])), owned(&["", "a", "a", "ab", "b"]));
    assert!(sort_texts(&vec![]).is_empty());
}
