//! References taken to the branches that they track: a revision range is
//! parted into its references, and each reference that has an upstream
//! branch is named by it.

use crate::matching::{
    compile, compiled, find_matches, matched_texts, parts_between, split_between,
};
use crate::text::{
    append, chars_of, copy_range, first_occurrence, has_prefix, lines, same_chars, split_lines,
    starts_with, string_of, trim, trimmed, views,
};
use regex::Regex;
use vstd::prelude::*;

verus! {

/// What names the upstream branch of a reference when it stands after it.
pub const UPSTREAM_SUFFIX: &'static str = "@{u}";

/// What stands between the references of a revision range: white space,
/// two or three dots, what follows an `@` in braces, a caret with what
/// may follow it, a tilde, a question mark, an opening bracket.
pub const REVSPEC_REF_SPLITTING_PATTERN: &'static str =
    r"\s+|\.{2,3}|@\{.*\}|\^(?:-\d+|[!@])?|[~?\[]";

/// What marks, in a list of remote branches, the line that says where the
/// head of a remote points.
pub const HEAD_MARKER_ARROW: &'static str = "HEAD -> ";

/// The expression that finds what stands between the references of a
/// revision range.
pub fn revspec_splitter() -> (r: Option<Regex>)
    ensures
        r == compiled(REVSPEC_REF_SPLITTING_PATTERN@),
{
    compile(REVSPEC_REF_SPLITTING_PATTERN)
}

/// A remote and the branches that it has.
#[derive(Debug)]
pub struct RemoteBranches {
    /// The name of the remote.
    pub remote: String,
    /// The names of its branches, each once.
    pub branches: Vec<String>,
}

/// What a `RemoteBranches` holds.
pub struct RemoteBranchesView {
    pub remote: Seq<char>,
    pub branches: Seq<Seq<char>>,
}

impl View for RemoteBranches {
    type V = RemoteBranchesView;

    open spec fn view(&self) -> RemoteBranchesView {
        RemoteBranchesView { remote: self.remote@, branches: self.branches.deep_view() }
    }
}

/// What each entry of a database of remote branches holds.
pub open spec fn database_views(database: Seq<RemoteBranches>) -> Seq<RemoteBranchesView> {
    Seq::new(database.len(), |k: int| database[k]@)
}

/// Whether `e` is the place of the first entry of `remote`.
pub open spec fn is_entry_of(database: Seq<RemoteBranchesView>, remote: Seq<char>, e: int) -> bool {
    &&& 0 <= e < database.len()
    &&& database[e].remote == remote
    &&& forall|h: int| 0 <= h < e ==> database[h].remote != remote
}

/// The place of the entry of `remote`, if there is one.
pub open spec fn entry_of(database: Seq<RemoteBranchesView>, remote: Seq<char>) -> Option<int> {
    if exists|e: int| is_entry_of(database, remote, e) {
        Some(choose|e: int| is_entry_of(database, remote, e))
    } else {
        None
    }
}

/// The database after `branch` is noted for `remote`: it joins the
/// branches of the entry of `remote` unless it is among them, and where
/// `remote` has no entry yet, one is made at the end.
pub open spec fn with_remote_branch(
    database: Seq<RemoteBranchesView>,
    remote: Seq<char>,
    branch: Seq<char>,
) -> Seq<RemoteBranchesView> {
    match entry_of(database, remote) {
        Some(e) => if database[e].branches.contains(branch) {
            database
        } else {
            database.update(
                e,
                RemoteBranchesView { remote, branches: database[e].branches.push(branch) },
            )
        },
        None => database.push(RemoteBranchesView { remote, branches: seq![branch] }),
    }
}

/// Whether `line` names a branch of `remote`: it begins with the name of
/// the remote and goes on after it.
pub open spec fn names_branch_of(line: Seq<char>, remote: Seq<char>) -> bool {
    starts_with(line, remote) && line.len() > remote.len()
}

/// The name of the branch in a line that names a branch of `remote`: what
/// follows the name of the remote and the one character after it.
pub open spec fn branch_in(line: Seq<char>, remote: Seq<char>) -> Seq<char> {
    line.skip(remote.len() as int + 1)
}

/// The database after one line of the list of remote branches is read for
/// each of `remotes` in turn.
pub open spec fn with_branch_line(
    database: Seq<RemoteBranchesView>,
    remotes: Seq<Seq<char>>,
    line: Seq<char>,
) -> Seq<RemoteBranchesView>
    decreases remotes.len(),
{
    if remotes.len() == 0 {
        database
    } else {
        let before = with_branch_line(database, remotes.drop_last(), line);
        if names_branch_of(line, remotes.last()) {
            with_remote_branch(before, remotes.last(), branch_in(line, remotes.last()))
        } else {
            before
        }
    }
}

/// The database after some lines of the list of remote branches are read.
/// White space around a line does not count, and a line that says where
/// the head of a remote points is passed over.
pub open spec fn with_branch_lines(
    database: Seq<RemoteBranchesView>,
    remotes: Seq<Seq<char>>,
    branch_lines: Seq<Seq<char>>,
) -> Seq<RemoteBranchesView>
    decreases branch_lines.len(),
{
    if branch_lines.len() == 0 {
        database
    } else {
        let before = with_branch_lines(database, remotes, branch_lines.drop_last());
        let line = trim(branch_lines.last());
        if first_occurrence(line, HEAD_MARKER_ARROW@, 0) is Some {
            before
        } else {
            with_branch_line(before, remotes, line)
        }
    }
}

/// The database of the remote branches: for each remote that has a branch,
/// in the order in which the branches are met, the names of its branches.
/// `remotes` lists the remotes, one to a line; `branches` lists the remote
/// branches, one to a line, each by the name of its remote, a separator
/// and its own name.
pub open spec fn remote_branch_database(remotes: Seq<char>, branches: Seq<char>) -> Seq<
    RemoteBranchesView,
> {
    with_branch_lines(Seq::empty(), lines(remotes), lines(branches))
}

/// Tells whether `list` holds `text`.
fn holds_name(list: &Vec<String>, text: &[char]) -> (r: bool)
    ensures
        r == list.deep_view().contains(text@),
{
    let mut k: usize = 0;
    while k < list.len()
        invariant
            k <= list.len(),
            forall|x: int| 0 <= x < k ==> list.deep_view()[x] != text@,
        decreases list.len() - k,
    {
        let name = chars_of(list[k].as_str());
        if same_chars(name.as_slice(), text) {
            assert(list.deep_view()[k as int] == text@);
            return true;
        }
        k += 1;
    }
    false
}

/// Finds the place of the entry of `remote`.
fn find_entry(database: &Vec<RemoteBranches>, remote: &[char]) -> (r: Option<usize>)
    ensures
        match r {
            Some(e) => entry_of(database_views(database@), remote@) == Some(e as int) && e
                < database.len(),
            None => entry_of(database_views(database@), remote@) is None,
        },
{
    let mut e: usize = 0;
    while e < database.len()
        invariant
            e <= database.len(),
            forall|h: int| 0 <= h < e ==> database_views(database@)[h].remote != remote@,
        decreases database.len() - e,
    {
        let name = chars_of(database[e].remote.as_str());
        if same_chars(name.as_slice(), remote) {
            assert(is_entry_of(database_views(database@), remote@, e as int));
            return Some(e);
        }
        e += 1;
    }
    None
}

/// Notes `branch` for `remote`.
fn note_branch(database: &mut Vec<RemoteBranches>, remote: &[char], branch: &[char])
    ensures
        database_views(final(database)@) == with_remote_branch(
            database_views(old(database)@),
            remote@,
            branch@,
        ),
{
    let ghost before = database_views(database@);
    match find_entry(database, remote) {
        Some(e) => {
            if !holds_name(&database[e].branches, branch) {
                let ghost old_branches = database[e as int]@.branches;
                database[e].branches.push(string_of(branch));
                assert(database[e as int]@.branches =~= old_branches.push(branch@));
                assert(database_views(database@) =~= before.update(
                    e as int,
                    RemoteBranchesView {
                        remote: remote@,
                        branches: before[e as int].branches.push(branch@),
                    },
                ));
            } else {
                assert(database_views(database@) =~= before);
            }
        },
        None => {
            let mut branches: Vec<String> = Vec::new();
            branches.push(string_of(branch));
            let entry = RemoteBranches { remote: string_of(remote), branches };
            assert(entry@.branches =~= seq![branch@]);
            database.push(entry);
            assert(database_views(database@) =~= before.push(
                RemoteBranchesView { remote: remote@, branches: seq![branch@] },
            ));
        },
    }
}

/// Builds the database of the remote branches from the list of the remotes
/// and the list of the remote branches.
pub fn build_remote_branch_database(remotes_listing: &str, branches_listing: &str) -> (r: Vec<
    RemoteBranches,
>)
    ensures
        database_views(r@) == remote_branch_database(remotes_listing@, branches_listing@),
{
    let remote_chars = chars_of(remotes_listing);
    let remotes = split_lines(remote_chars.as_slice());
    let branch_chars = chars_of(branches_listing);
    let branch_lines = split_lines(branch_chars.as_slice());
    let marker = chars_of(HEAD_MARKER_ARROW);
    let ghost names = views(remotes@);
    let ghost all = views(branch_lines@);
    let mut database: Vec<RemoteBranches> = Vec::new();
    let mut i: usize = 0;
    assert(all.take(0) =~= Seq::empty());
    assert(database_views(database@) =~= Seq::empty());
    while i < branch_lines.len()
        invariant
            i <= branch_lines.len(),
            names == views(remotes@),
            all == views(branch_lines@),
            marker@ == HEAD_MARKER_ARROW@,
            database_views(database@) == with_branch_lines(
                Seq::empty(),
                names,
                all.take(i as int),
            ),
        decreases branch_lines.len() - i,
    {
        assert(all.take(i + 1).drop_last() =~= all.take(i as int));
        assert(all.take(i + 1).last() == branch_lines[i as int]@);
        let line = trimmed(branch_lines[i].as_slice());
        if crate::text::find_text(line.as_slice(), marker.as_slice(), 0).is_none() {
            let ghost before = database_views(database@);
            let mut k: usize = 0;
            assert(names.take(0) =~= Seq::empty());
            while k < remotes.len()
                invariant
                    k <= remotes.len(),
                    names == views(remotes@),
                    database_views(database@) == with_branch_line(
                        before,
                        names.take(k as int),
                        line@,
                    ),
                decreases remotes.len() - k,
            {
                assert(names.take(k + 1).drop_last() =~= names.take(k as int));
                assert(names.take(k + 1).last() == remotes[k as int]@);
                let remote = &remotes[k];
                if has_prefix(line.as_slice(), remote.as_slice()) && line.len() > remote.len() {
                    let branch = copy_range(line.as_slice(), remote.len() + 1, line.len());
                    assert(branch@ =~= branch_in(line@, remote@));
                    note_branch(&mut database, remote.as_slice(), branch.as_slice());
                }
                k += 1;
            }
            assert(names.take(remotes.len() as int) =~= names);
        }
        i += 1;
    }
    assert(all.take(branch_lines.len() as int) =~= all);
    database
}

/// The first remote of the database that has the branch `reference`.
pub open spec fn remote_with_branch(database: Seq<RemoteBranchesView>, reference: Seq<char>) -> Option<
    Seq<char>,
>
    decreases database.len(),
{
    if database.len() == 0 {
        None
    } else if database.first().branches.contains(reference) {
        Some(database.first().remote)
    } else {
        remote_with_branch(database.drop_first(), reference)
    }
}

/// The name that a reference goes by upstream: the reference with the
/// suffix of the upstream branch where it is a local branch that tracks
/// one; else the branch of that name of the first remote that has one;
/// else the reference as it is.
pub open spec fn upstreamed(
    database: Seq<RemoteBranchesView>,
    reference: Seq<char>,
    is_local_branch_with_upstream: bool,
) -> Seq<char> {
    if is_local_branch_with_upstream {
        reference + UPSTREAM_SUFFIX@
    } else {
        match remote_with_branch(database, reference) {
            Some(remote) => remote + "/"@ + reference,
            None => reference,
        }
    }
}

/// The reference with the suffix of the upstream branch: what the history
/// provider is asked for, to learn whether the reference is a local branch
/// that tracks an upstream branch.
pub fn reference_with_upstream(reference: &str) -> (r: String)
    ensures
        r@ == reference@ + UPSTREAM_SUFFIX@,
{
    let mut out = chars_of(reference);
    append(&mut out, chars_of(UPSTREAM_SUFFIX).as_slice());
    string_of(out.as_slice())
}

/// The name that `reference` goes by upstream, as characters.
fn upstream_name(
    remote_branch_database: &Vec<RemoteBranches>,
    reference: &[char],
    is_local_branch_with_upstream: bool,
) -> (r: Vec<char>)
    ensures
        r@ == upstreamed(
            database_views(remote_branch_database@),
            reference@,
            is_local_branch_with_upstream,
        ),
{
    let mut out = copy_range(reference, 0, reference.len());
    assert(out@ =~= reference@);
    if is_local_branch_with_upstream {
        append(&mut out, chars_of(UPSTREAM_SUFFIX).as_slice());
        return out;
    }
    let ghost all = database_views(remote_branch_database@);
    let mut e: usize = 0;
    assert(all.skip(0) =~= all);
    while e < remote_branch_database.len()
        invariant
            e <= remote_branch_database.len(),
            all == database_views(remote_branch_database@),
            out@ == reference@,
            !is_local_branch_with_upstream,
            remote_with_branch(all, reference@) == remote_with_branch(
                all.skip(e as int),
                reference@,
            ),
        decreases remote_branch_database.len() - e,
    {
        assert(all.skip(e as int).first() == remote_branch_database[e as int]@);
        assert(all.skip(e as int).drop_first() =~= all.skip(e + 1));
        if holds_name(&remote_branch_database[e].branches, reference) {
            let mut name = chars_of(remote_branch_database[e].remote.as_str());
            append(&mut name, chars_of("/").as_slice());
            append(&mut name, reference);
            return name;
        }
        e += 1;
    }
    assert(all.skip(remote_branch_database.len() as int) =~= Seq::empty());
    out
}

/// Names a reference by its upstream branch where it has one.
/// `is_local_branch_with_upstream` is what the history provider answered
/// when it was asked for the reference with the suffix of the upstream
/// branch.
pub fn upstream_ref_if_possible(
    remote_branch_database: &Vec<RemoteBranches>,
    reference: &str,
    is_local_branch_with_upstream: bool,
) -> (r: String)
    ensures
        r@ == upstreamed(
            database_views(remote_branch_database@),
            reference@,
            is_local_branch_with_upstream,
        ),
{
    let chars = chars_of(reference);
    let name = upstream_name(
        remote_branch_database,
        chars.as_slice(),
        is_local_branch_with_upstream,
    );
    string_of(name.as_slice())
}

/// A reference of a revision range with what stands after it.
#[derive(Debug)]
pub struct RevspecPart {
    /// The reference; empty where two separators meet.
    pub reference: String,
    /// What separates the reference from the next one; `None` after the
    /// last reference.
    pub separator: Option<String>,
}

/// What a `RevspecPart` holds.
pub struct RevspecPartView {
    pub reference: Seq<char>,
    pub separator: Option<Seq<char>>,
}

impl View for RevspecPart {
    type V = RevspecPartView;

    open spec fn view(&self) -> RevspecPartView {
        RevspecPartView {
            reference: self.reference@,
            separator: match self.separator {
                Some(text) => Some(text@),
                None => None,
            },
        }
    }
}

/// What each of `parts` holds.
pub open spec fn part_views(parts: Seq<RevspecPart>) -> Seq<RevspecPartView> {
    Seq::new(parts.len(), |k: int| parts[k]@)
}

/// The parts of a revision range, from its references and what separates
/// them: each reference with the separator after it, the last one with
/// none.
pub open spec fn paired(references: Seq<Seq<char>>, separators: Seq<Seq<char>>) -> Seq<
    RevspecPartView,
> {
    Seq::new(
        references.len(),
        |k: int|
            RevspecPartView {
                reference: references[k],
                separator: if k < separators.len() {
                    Some(separators[k])
                } else {
                    None
                },
            },
    )
}

/// Pairs the references of a revision range with what separates them.
pub fn pair_parts(references: Vec<String>, separators: Vec<String>) -> (r: Vec<RevspecPart>)
    ensures
        part_views(r@) == paired(references.deep_view(), separators.deep_view()),
{
    let mut out: Vec<RevspecPart> = Vec::new();
    let mut k: usize = 0;
    while k < references.len()
        invariant
            k <= references.len(),
            out.len() == k,
            forall|x: int|
                0 <= x < k ==> (#[trigger] out[x])@ == paired(
                    references.deep_view(),
                    separators.deep_view(),
                )[x],
        decreases references.len() - k,
    {
        let separator = if k < separators.len() {
            Some(separators[k].clone())
        } else {
            None
        };
        out.push(RevspecPart { reference: references[k].clone(), separator });
        k += 1;
    }
    assert(part_views(out@) =~= paired(references.deep_view(), separators.deep_view()));
    out
}

/// Parts a revision range into its references and what separates them.
pub fn split_revspec(splitter: &Regex, revspec: &str) -> (r: Vec<RevspecPart>)
    ensures
        part_views(r@) == paired(
            parts_between(*splitter, revspec@),
            matched_texts(*splitter, revspec@),
        ),
{
    pair_parts(split_between(splitter, revspec), find_matches(splitter, revspec))
}

/// Whether a part of a revision range is to be named by its upstream
/// branch: it has a reference, and what follows it is not the suffix of
/// the upstream branch already.
pub open spec fn wants_upstream(part: RevspecPartView) -> bool {
    part.reference.len() > 0 && part.separator != Some(UPSTREAM_SUFFIX@)
}

/// Tells whether a part of a revision range is to be named by its
/// upstream branch.
pub fn needs_upstream(part: &RevspecPart) -> (r: bool)
    ensures
        r == wants_upstream(part@),
{
    if part.reference.as_str().unicode_len() == 0 {
        return false;
    }
    match &part.separator {
        Some(text) => {
            let a = chars_of(text.as_str());
            let b = chars_of(UPSTREAM_SUFFIX);
            !same_chars(a.as_slice(), b.as_slice())
        },
        None => true,
    }
}

/// The text of a part of a revision range after its reference is named by
/// its upstream branch where that is wanted.
pub open spec fn upstreamed_part(
    database: Seq<RemoteBranchesView>,
    part: RevspecPartView,
    is_local_branch_with_upstream: bool,
) -> Seq<char> {
    (if wants_upstream(part) {
        upstreamed(database, part.reference, is_local_branch_with_upstream)
    } else {
        part.reference
    }) + (match part.separator {
        Some(text) => text,
        None => Seq::empty(),
    })
}

/// The revision range after each of its references is named by its
/// upstream branch where that is wanted. `answers` holds for each part
/// the answer of the history provider; a part without one counts as
/// answered with no.
pub open spec fn upstreamed_revspec(
    database: Seq<RemoteBranchesView>,
    parts: Seq<RevspecPartView>,
    answers: Seq<bool>,
) -> Seq<char>
    decreases parts.len(),
{
    if parts.len() == 0 {
        Seq::empty()
    } else {
        upstreamed_revspec(database, parts.drop_last(), answers) + upstreamed_part(
            database,
            parts.last(),
            parts.len() - 1 < answers.len() && answers[parts.len() - 1],
        )
    }
}

/// Puts a revision range together again after each of its references is
/// named by its upstream branch where that is wanted. `answers` holds, for
/// each part that `needs_upstream` tells of, what the history provider
/// answered when it was asked for `reference_with_upstream` of its
/// reference.
pub fn upstream_revspec(
    remote_branch_database: &Vec<RemoteBranches>,
    parts: &Vec<RevspecPart>,
    answers: &Vec<bool>,
) -> (r: String)
    ensures
        r@ == upstreamed_revspec(
            database_views(remote_branch_database@),
            part_views(parts@),
            answers@,
        ),
{
    let ghost all = part_views(parts@);
    let ghost database = database_views(remote_branch_database@);
    let mut out: Vec<char> = Vec::new();
    let mut k: usize = 0;
    assert(all.take(0) =~= Seq::empty());
    while k < parts.len()
        invariant
            k <= parts.len(),
            all == part_views(parts@),
            database == database_views(remote_branch_database@),
            out@ == upstreamed_revspec(database, all.take(k as int), answers@),
        decreases parts.len() - k,
    {
        assert(all.take(k + 1).drop_last() =~= all.take(k as int));
        assert(all.take(k + 1).last() == parts[k as int]@);
        let part = &parts[k];
        let answer = k < answers.len() && answers[k];
        let ghost before = out@;
        let reference = chars_of(part.reference.as_str());
        if needs_upstream(part) {
            let name = upstream_name(remote_branch_database, reference.as_slice(), answer);
            append(&mut out, name.as_slice());
        } else {
            append(&mut out, reference.as_slice());
        }
        match &part.separator {
            Some(text) => {
                append(&mut out, chars_of(text.as_str()).as_slice());
            },
            None => {
                assert(out@ + Seq::<char>::empty() =~= out@);
            },
        }
        assert(out@ =~= before + upstreamed_part(database, parts[k as int]@, answer));
        k += 1;
    }
    assert(all.take(parts.len() as int) =~= all);
    string_of(out.as_slice())
}

} // verus!
