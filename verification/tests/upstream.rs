use clog::upstreaming::{
    build_remote_branch_database, needs_upstream, pair_parts, reference_with_upstream,
    revspec_splitter, split_revspec, upstream_ref_if_possible, upstream_revspec, RemoteBranches,
    RevspecPart,
};

fn owned(list: &[&str]) -> Vec<String> {
    list.iter().map(|text| (*text).to_owned()).collect()
}

fn shown(database: &[RemoteBranches]) -> Vec<(String, Vec<String>)> {
    database.iter().map(|entry| (entry.remote.clone(), entry.branches.clone())).collect()
}

fn parts(list: &[RevspecPart]) -> Vec<(String, Option<String>)> {
    list.iter().map(|part| (part.reference.clone(), part.separator.clone())).collect()
}

fn some(text: &str) -> Option<String> {
    Some(text.to_owned())
}

fn database() -> Vec<RemoteBranches> {
    build_remote_branch_database(
        "origin\nfork\n",
        "  origin/HEAD -> origin/main\n  origin/main\n  fork/topic\n  origin/topic\n  fork/main\n",
    )
}

#[test]
fn remote_branches_are_read_into_a_database() {
    assert_eq!(
        shown(&database()),
        vec![
            ("origin".to_owned(), owned(&["main", "topic"])),
            ("fork".to_owned(), owned(&["topic", "main"])),
        ]
    );
}

#[test]
fn lines_of_no_remote_are_passed_over() {
    let database = build_remote_branch_database(
        "origin\nup\nupstream",
        "upstream/a\n\norigin\nother/b\n origin/a \norigin/a\nup",
    );
    assert_eq!(
        shown(&database),
        vec![
            ("up".to_owned(), owned(&["tream/a"])),
            ("upstream".to_owned(), owned(&["a"])),
            ("origin".to_owned(), owned(&["a"])),
        ]
    );
    assert!(build_remote_branch_database("", "origin/a").is_empty());
    assert!(build_remote_branch_database("origin", "").is_empty());
}

#[test]
fn reference_is_named_by_its_upstream() {
    let database = database();
    assert_eq!(upstream_ref_if_possible(&database, "main", true), "main@{u}");
    assert_eq!(upstream_ref_if_possible(&database, "main", false), "origin/main");
    assert_eq!(upstream_ref_if_possible(&database, "topic", false), "origin/topic");
    assert_eq!(upstream_ref_if_possible(&database, "local", false), "local");
    assert_eq!(upstream_ref_if_possible(&database, "local", true), "local@{u}");
    assert_eq!(upstream_ref_if_possible(&Vec::new(), "main", false), "main");
    assert_eq!(reference_with_upstream("main"), "main@{u}");
}

#[test]
fn revspec_is_parted_into_references() {
    let splitter = revspec_splitter().unwrap();
    assert_eq!(
        parts(&split_revspec(&splitter, "main..topic")),
        vec![("main".to_owned(), some("..")), ("topic".to_owned(), None)]
    );
    assert_eq!(
        parts(&split_revspec(&splitter, "a ^b~2")),
        vec![
            ("a".to_owned(), some(" ")),
            ("".to_owned(), some("^")),
            ("b".to_owned(), some("~")),
            ("2".to_owned(), None),
        ]
    );
    assert_eq!(
        parts(&split_revspec(&splitter, "main@{u}...dev")),
        vec![("main".to_owned(), some("@{u}")), ("".to_owned(), some("...")), ("dev".to_owned(), None)]
    );
    assert_eq!(parts(&split_revspec(&splitter, "")), vec![("".to_owned(), None)]);
}

#[test]
fn parts_are_paired_with_their_separators() {
    assert_eq!(
        parts(&pair_parts(owned(&["a", "b", "c"]), owned(&["..", "~"]))),
        vec![("a".to_owned(), some("..")), ("b".to_owned(), some("~")), ("c".to_owned(), None)]
    );
    assert_eq!(
        parts(&pair_parts(owned(&["a"]), owned(&["..", "~"]))),
        vec![("a".to_owned(), some(".."))]
    );
    assert!(pair_parts(vec![], owned(&[".."])).is_empty());
}

#[test]
fn parts_that_want_an_upstream_are_told() {
    let part = |reference: &str, separator: Option<&str>| RevspecPart {
        reference: reference.to_owned(),
        separator: separator.map(|text| text.to_owned()),
    };
    assert!(needs_upstream(&part("main", Some(".."))));
    assert!(needs_upstream(&part("main", None)));
    assert!(!needs_upstream(&part("", Some(".."))));
    assert!(!needs_upstream(&part("", None)));
    assert!(!needs_upstream(&part("main", Some("@{u}"))));
    assert!(needs_upstream(&part("main", Some("@{1}"))));
}

#[test]
fn revspec_is_put_together_with_upstream_names() {
    let database = database();
    let splitter = revspec_splitter().unwrap();
    let range = split_revspec(&splitter, "main..local ^topic@{u} gone");
    let answers: Vec<bool> =
        range.iter().map(|part| needs_upstream(part) && part.reference == "local").collect();
    assert_eq!(
        upstream_revspec(&database, &range, &answers),
        "origin/main..local@{u} ^topic@{u} gone"
    );
    assert_eq!(
        upstream_revspec(&database, &range, &vec![]),
        "origin/main..local ^topic@{u} gone"
    );
    assert_eq!(upstream_revspec(&database, &vec![], &vec![true]), "");
}
