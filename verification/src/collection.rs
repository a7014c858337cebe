//! Commits as records, and the parser that reads one from an entry of the
//! log.

use crate::constants::{GIT_SVN_ID_FIELD, GIT_SVN_ID_STR, SHA1_HASH_ASCII_LENGTH};
use crate::matching::{find_first_groups, first_groups, has_match, matches_anywhere, Patterns};
use crate::ordered_set::{
    insert_number, insert_text, moved_last, new_number_set, new_text_set, number_items,
    numbers_in_order, text_items, texts_in_order, NumberSet, TextSet,
};
use crate::text::{
    byte_length, chars_of, has_byte_length, has_prefix, lines, parse_u32, read_u32, same_chars,
    split, split_chars, split_chars_once, split_lines, split_once, starts_with, string_of, trim,
    trimmed, views,
};
use vstd::prelude::*;

verus! {

/// One commit of the history.
#[derive(Debug)]
pub struct Commit {
    /// The revision id: what identifies the commit.
    pub git_revision: String,
    /// The revision ids of the parents; more than one marks a merge.
    pub parent_revisions: Vec<String>,
    /// Where the commit came from, if it was migrated from the origin system.
    pub svn_info: Option<SvnInfo>,
    /// The tickets that the message names, each once.
    pub jira_tickets: Vec<String>,
    /// The other commits that the message names.
    pub referenced_commits: ReferencedCommits,
    /// Whether the commit is likely to merge or cherry-pick other commits.
    pub is_likely_a_merge: bool,
}

/// Two commits are the same where their revision ids are: the revision id
/// is what identifies a commit.
impl PartialEq for Commit {
    fn eq(&self, other: &Self) -> (r: bool) {
        self.git_revision == other.git_revision
    }
}

impl vstd::std_specs::cmp::PartialEqSpecImpl for Commit {
    open spec fn obeys_eq_spec() -> bool {
        true
    }

    open spec fn eq_spec(&self, other: &Self) -> bool {
        self.git_revision@ == other.git_revision@
    }
}

impl Eq for Commit {

}

/// The revision of the origin system that a commit was migrated from.
#[derive(Debug)]
pub struct SvnInfo {
    /// The address of the origin repository.
    pub svn_url: String,
    /// The revision number in the origin repository.
    pub svn_revision: u32,
}

/// The commits that a message names, each once.
#[derive(Debug)]
pub struct ReferencedCommits {
    /// Revision ids, whole or abbreviated.
    pub git_commits: Vec<String>,
    /// Revision numbers of the origin system.
    pub svn_commits: Vec<u32>,
}

/// What an `SvnInfo` holds.
pub struct SvnInfoView {
    pub svn_url: Seq<char>,
    pub svn_revision: u32,
}

/// What a `ReferencedCommits` holds.
pub struct ReferencedCommitsView {
    pub git_commits: Seq<Seq<char>>,
    pub svn_commits: Seq<u32>,
}

/// What a `Commit` holds.
pub struct CommitView {
    pub git_revision: Seq<char>,
    pub parent_revisions: Seq<Seq<char>>,
    pub svn_info: Option<SvnInfoView>,
    pub jira_tickets: Seq<Seq<char>>,
    pub referenced_commits: ReferencedCommitsView,
    pub is_likely_a_merge: bool,
}

impl View for SvnInfo {
    type V = SvnInfoView;

    open spec fn view(&self) -> SvnInfoView {
        SvnInfoView { svn_url: self.svn_url@, svn_revision: self.svn_revision }
    }
}

impl View for ReferencedCommits {
    type V = ReferencedCommitsView;

    open spec fn view(&self) -> ReferencedCommitsView {
        ReferencedCommitsView {
            git_commits: self.git_commits.deep_view(),
            svn_commits: self.svn_commits@,
        }
    }
}

impl View for Commit {
    type V = CommitView;

    open spec fn view(&self) -> CommitView {
        CommitView {
            git_revision: self.git_revision@,
            parent_revisions: self.parent_revisions.deep_view(),
            svn_info: match self.svn_info {
                Some(info) => Some(info@),
                None => None,
            },
            jira_tickets: self.jira_tickets.deep_view(),
            referenced_commits: self.referenced_commits@,
            is_likely_a_merge: self.is_likely_a_merge,
        }
    }
}

impl Clone for SvnInfo {
    fn clone(&self) -> (r: Self)
        ensures
            r@ == self@,
    {
        SvnInfo { svn_url: self.svn_url.clone(), svn_revision: self.svn_revision }
    }
}

impl Clone for ReferencedCommits {
    fn clone(&self) -> (r: Self)
        ensures
            r@ == self@,
    {
        ReferencedCommits {
            git_commits: crate::text::copy_strings(&self.git_commits),
            svn_commits: crate::text::copy_numbers(&self.svn_commits),
        }
    }
}

impl Clone for Commit {
    fn clone(&self) -> (r: Self)
        ensures
            r@ == self@,
    {
        Commit {
            git_revision: self.git_revision.clone(),
            parent_revisions: crate::text::copy_strings(&self.parent_revisions),
            svn_info: match &self.svn_info {
                Some(info) => Some(info.clone()),
                None => None,
            },
            jira_tickets: crate::text::copy_strings(&self.jira_tickets),
            referenced_commits: self.referenced_commits.clone(),
            is_likely_a_merge: self.is_likely_a_merge,
        }
    }
}

/// Why an entry of the log is no commit.
#[derive(Debug, Clone, Copy, PartialEq, Eq, Structural)]
pub enum ParseError {
    /// The entry has no line, so no revision id.
    MissingRevision,
    /// The first line has not the length of a revision id.
    InvalidRevisionLength,
    /// The line of the origin system has not the three fields of marker,
    /// place and identifier.
    InvalidSvnLine,
    /// The place in the line of the origin system has no `@` between address
    /// and revision.
    InvalidSvnInfo,
    /// The revision in the line of the origin system is no number.
    InvalidSvnRevision,
    /// The revision id is that of an earlier entry of the log.
    DuplicateRevision,
}

/// `items` with `value` added at its end unless it is there already.
pub open spec fn added_once<T>(items: Seq<T>, value: T) -> Seq<T> {
    if items.contains(value) {
        items
    } else {
        items.push(value)
    }
}

/// `items` after each text found is added once, in the order found.
pub open spec fn with_tickets(items: Seq<Seq<char>>, found: Seq<Option<Seq<char>>>) -> Seq<
    Seq<char>,
>
    decreases found.len(),
{
    if found.len() == 0 {
        items
    } else {
        let before = with_tickets(items, found.drop_last());
        match found.last() {
            Some(text) => added_once(before, text),
            None => before,
        }
    }
}

/// `items` after each text found is put at its end, in the order found.
pub open spec fn with_commit_references(
    items: Seq<Seq<char>>,
    found: Seq<Option<Seq<char>>>,
) -> Seq<Seq<char>>
    decreases found.len(),
{
    if found.len() == 0 {
        items
    } else {
        let before = with_commit_references(items, found.drop_last());
        match found.last() {
            Some(text) => moved_last(before, text),
            None => before,
        }
    }
}

/// `items` after the numbers from `first` to `last` are put at its end one
/// by one, the smallest first.
pub open spec fn with_range(items: Seq<u32>, first: int, last: int) -> Seq<u32>
    decreases last - first + 1,
{
    if first > last {
        items
    } else {
        moved_last(with_range(items, first, last - 1), last as u32)
    }
}

/// The numbers from `first` to `last`, the smallest first.
pub open spec fn numbers_between(first: int, last: int) -> Seq<u32> {
    Seq::new((last - first + 1) as nat, |i: int| (first + i) as u32)
}

/// A range names every number from its first to its last, each once, the
/// smallest first: `16734-16735` names 16734 and 16735.
pub proof fn lemma_range_names_each(first: int, last: int)
    requires
        0 <= first <= last <= u32::MAX,
    ensures
        with_range(Seq::empty(), first, last) == numbers_between(first, last),
    decreases last - first,
{
    let before = with_range(Seq::empty(), first, last - 1);
    if first < last {
        lemma_range_names_each(first, last - 1);
        assert(before == numbers_between(first, last - 1));
    } else {
        assert(before =~= Seq::<u32>::empty());
    }
    assert(!before.contains(last as u32)) by {
        if before.contains(last as u32) {
            let i = choose|i: int| 0 <= i < before.len() && before[i] == last as u32;
            assert(before[i] == (first + i) as u32);
        }
    }
    crate::ordered_set::lemma_moved_last_fresh(before, last as u32);
    assert(before.push(last as u32) =~= numbers_between(first, last));
}

/// `items` after the revisions that one piece of a list names are put at
/// its end. A piece is a number or two numbers with a hyphen between them,
/// which name every number from the one to the other; white space around
/// the piece does not count. A piece that is neither names nothing.
pub open spec fn with_list_piece(items: Seq<u32>, piece: Seq<char>) -> Seq<u32> {
    let text = trim(piece);
    match split_once(text, '-') {
        Some((first, last)) => match (parse_u32(first), parse_u32(last)) {
            (Some(a), Some(b)) => with_range(items, a as int, b as int),
            _ => items,
        },
        None => match parse_u32(text) {
            Some(a) => moved_last(items, a),
            None => items,
        },
    }
}

/// `items` after the revisions that the pieces name are put at its end,
/// piece by piece.
pub open spec fn with_list_pieces(items: Seq<u32>, pieces: Seq<Seq<char>>) -> Seq<u32>
    decreases pieces.len(),
{
    if pieces.len() == 0 {
        items
    } else {
        with_list_piece(with_list_pieces(items, pieces.drop_last()), pieces.last())
    }
}

/// `items` after the revisions that a list names are put at its end. The
/// pieces of a list stand between commas.
pub open spec fn with_revision_list(items: Seq<u32>, list: Seq<char>) -> Seq<u32> {
    with_list_pieces(items, split(list, ','))
}

/// `items` after the revisions that each list found names are put at its
/// end, in the order found.
pub open spec fn with_revision_references(items: Seq<u32>, found: Seq<Option<Seq<char>>>) -> Seq<
    u32,
>
    decreases found.len(),
{
    if found.len() == 0 {
        items
    } else {
        let before = with_revision_references(items, found.drop_last());
        match found.last() {
            Some(list) => with_revision_list(before, list),
            None => before,
        }
    }
}

/// The revisions that the text of a list names, each once, in the order of
/// their last mention.
pub open spec fn revisions_of_list(list: Seq<char>) -> Seq<u32> {
    with_revision_list(Seq::<u32>::empty(), list)
}

/// What the line of the origin system says: it has three fields with one
/// space between them, the marker with a colon, then the address and the
/// revision number with an `@` between them, then an identifier. White
/// space around the line does not count.
pub open spec fn parse_svn_line(line: Seq<char>) -> Result<SvnInfoView, ParseError> {
    let fields = split(trim(line), ' ');
    if fields.len() != 3 || fields[0] != GIT_SVN_ID_FIELD@ {
        Err(ParseError::InvalidSvnLine)
    } else {
        match split_once(fields[1], '@') {
            None => Err(ParseError::InvalidSvnInfo),
            Some((url, revision)) => match parse_u32(revision) {
                None => Err(ParseError::InvalidSvnRevision),
                Some(number) => Ok(SvnInfoView { svn_url: url, svn_revision: number }),
            },
        }
    }
}

/// The rule by which a commit counts as a likely merge or cherry-pick. It is
/// a heuristic: it has more than one parent; or its message speaks of
/// merging and names another commit; or its message names one commit and
/// no other by a revision id of full length, as a cherry-pick does; or its
/// message names more than one revision of the origin system.
pub open spec fn likely_merge(
    parents: nat,
    mentions_merging: bool,
    git_commits: Seq<Seq<char>>,
    svn_commits: Seq<u32>,
) -> bool {
    ||| parents > 1
    ||| (mentions_merging && (git_commits.len() > 0 || svn_commits.len() > 0))
    ||| (git_commits.len() == 1 && byte_length(git_commits[0]) == SHA1_HASH_ASCII_LENGTH)
    ||| svn_commits.len() > 1
}

/// A commit with more than one parent counts as a likely merge, whatever
/// its message says.
pub proof fn lemma_merge_by_parents(
    parents: nat,
    mentions_merging: bool,
    git_commits: Seq<Seq<char>>,
    svn_commits: Seq<u32>,
)
    requires
        parents > 1,
    ensures
        likely_merge(parents, mentions_merging, git_commits, svn_commits),
{
}

/// A commit with one parent at most whose message names no other commit
/// counts as no likely merge, whether its message speaks of merging or
/// not.
pub proof fn lemma_no_merge_without_references(
    parents: nat,
    mentions_merging: bool,
    git_commits: Seq<Seq<char>>,
    svn_commits: Seq<u32>,
)
    requires
        parents <= 1,
        git_commits.len() == 0,
        svn_commits.len() == 0,
    ensures
        !likely_merge(parents, mentions_merging, git_commits, svn_commits),
{
}

/// What the patterns found in the lines of a message, line after line:
/// for each match the text of its first group, and whether a line speaks
/// of merging.
pub struct FindingsView {
    pub tickets: Seq<Option<Seq<char>>>,
    pub commit_references: Seq<Option<Seq<char>>>,
    pub revision_lists: Seq<Option<Seq<char>>>,
    pub mentions_merging: bool,
}

/// What the patterns found in the lines of a message, line after line.
#[derive(Debug)]
pub struct Findings {
    /// The tickets found, as often as they were found.
    pub tickets: Vec<Option<String>>,
    /// The references to commits found, as often as they were found.
    pub commit_references: Vec<Option<String>>,
    /// The lists of revisions of the origin system found.
    pub revision_lists: Vec<Option<String>>,
    /// Whether a line speaks of merging.
    pub mentions_merging: bool,
}

impl View for Findings {
    type V = FindingsView;

    open spec fn view(&self) -> FindingsView {
        FindingsView {
            tickets: self.tickets.deep_view(),
            commit_references: self.commit_references.deep_view(),
            revision_lists: self.revision_lists.deep_view(),
            mentions_merging: self.mentions_merging,
        }
    }
}

impl FindingsView {
    /// Nothing found.
    pub open spec fn none() -> FindingsView {
        FindingsView {
            tickets: Seq::empty(),
            commit_references: Seq::empty(),
            revision_lists: Seq::empty(),
            mentions_merging: false,
        }
    }
}

/// What the parser has read of the lines of a message so far.
pub struct Scan {
    pub svn_info: Option<SvnInfoView>,
    pub findings: FindingsView,
    pub at_first_line: bool,
}

impl Scan {
    /// Nothing read yet.
    pub open spec fn start() -> Scan {
        Scan { svn_info: None, findings: FindingsView::none(), at_first_line: true }
    }

    /// What is read after one more line. The first line that begins with
    /// the marker of the origin system is read as the line of the origin
    /// system and for nothing else. Any other line is searched for tickets
    /// (at its start, and only in the first such line, unless all mentions
    /// are wanted), for references to commits and to revisions of the
    /// origin system, and for a mention of merging.
    pub open spec fn after_line(
        self,
        patterns: Patterns,
        all_mentions: bool,
        line: Seq<char>,
    ) -> Result<Scan, ParseError> {
        if self.svn_info is None && starts_with(line, GIT_SVN_ID_STR@) {
            match parse_svn_line(line) {
                Ok(info) => Ok(Scan { svn_info: Some(info), ..self }),
                Err(e) => Err(e),
            }
        } else {
            Ok(
                Scan {
                    svn_info: self.svn_info,
                    findings: FindingsView {
                        tickets: if all_mentions {
                            self.findings.tickets + first_groups(patterns.ticket_anywhere, line)
                        } else if self.at_first_line {
                            self.findings.tickets + first_groups(patterns.ticket_at_start, line)
                        } else {
                            self.findings.tickets
                        },
                        commit_references: self.findings.commit_references + first_groups(
                            patterns.commit_reference,
                            line,
                        ),
                        revision_lists: self.findings.revision_lists + first_groups(
                            patterns.revision_reference,
                            line,
                        ),
                        mentions_merging: self.findings.mentions_merging || has_match(
                            patterns.merge_mention,
                            line,
                        ),
                    },
                    at_first_line: false,
                },
            )
        }
    }

    /// What is read after some more lines, or the error of the first line
    /// that has one.
    pub open spec fn after_lines(
        self,
        patterns: Patterns,
        all_mentions: bool,
        lines: Seq<Seq<char>>,
    ) -> Result<Scan, ParseError>
        decreases lines.len(),
    {
        if lines.len() == 0 {
            Ok(self)
        } else {
            match self.after_lines(patterns, all_mentions, lines.drop_last()) {
                Ok(scan) => scan.after_line(patterns, all_mentions, lines.last()),
                Err(e) => Err(e),
            }
        }
    }
}

/// The commit of a revision id, of parents, of what the line of the origin
/// system says and of what the patterns found in the message. It names
/// each ticket once, in the order in which the tickets were first found;
/// it names each commit and each revision of the origin system once, in
/// the order in which they were last found; and it is a likely merge by
/// the rule of `likely_merge`.
pub open spec fn commit_of(
    git_revision: Seq<char>,
    parent_revisions: Seq<Seq<char>>,
    svn_info: Option<SvnInfoView>,
    findings: FindingsView,
) -> CommitView {
    let git_commits = with_commit_references(Seq::empty(), findings.commit_references);
    let svn_commits = with_revision_references(Seq::empty(), findings.revision_lists);
    CommitView {
        git_revision,
        parent_revisions,
        svn_info,
        jira_tickets: with_tickets(Seq::empty(), findings.tickets),
        referenced_commits: ReferencedCommitsView { git_commits, svn_commits },
        is_likely_a_merge: likely_merge(
            parent_revisions.len(),
            findings.mentions_merging,
            git_commits,
            svn_commits,
        ),
    }
}

/// The pieces of `line` between spaces that are not empty: the revision
/// ids of the parents.
pub open spec fn parents_of(line: Seq<char>) -> Seq<Seq<char>> {
    split(line, ' ').filter(|piece: Seq<char>| piece.len() > 0)
}

/// The commit that an entry of the log describes. Its first line is the
/// revision id, its second line the revision ids of the parents, the lines
/// after it the message.
pub open spec fn parse_entry(patterns: Patterns, all_mentions: bool, entry: Seq<char>) -> Result<
    CommitView,
    ParseError,
> {
    let all = lines(entry);
    if all.len() == 0 {
        Err(ParseError::MissingRevision)
    } else if byte_length(all[0]) != SHA1_HASH_ASCII_LENGTH {
        Err(ParseError::InvalidRevisionLength)
    } else {
        let parents = if all.len() >= 2 {
            parents_of(all[1])
        } else {
            Seq::empty()
        };
        let message = if all.len() >= 2 {
            all.skip(2)
        } else {
            Seq::empty()
        };
        match Scan::start().after_lines(patterns, all_mentions, message) {
            Err(e) => Err(e),
            Ok(scan) => Ok(commit_of(all[0], parents, scan.svn_info, scan.findings)),
        }
    }
}

/// Tells whether a commit counts as a likely merge or cherry-pick.
pub fn is_likely_merge(
    parents: usize,
    mentions_merging: bool,
    git_commits: &Vec<String>,
    svn_commits: &Vec<u32>,
) -> (r: bool)
    ensures
        r == likely_merge(parents as nat, mentions_merging, git_commits.deep_view(), svn_commits@),
{
    if parents > 1 {
        return true;
    }
    if mentions_merging && (git_commits.len() > 0 || svn_commits.len() > 0) {
        return true;
    }
    if svn_commits.len() > 1 {
        return true;
    }
    if git_commits.len() == 1 {
        let only = chars_of(git_commits[0].as_str());
        assert(git_commits.deep_view()[0] == only@);
        return has_byte_length(only.as_slice(), SHA1_HASH_ASCII_LENGTH);
    }
    false
}

/// Tells whether `items` holds `text`.
fn holds_text(items: &Vec<String>, text: &String) -> (r: bool)
    ensures
        r == items.deep_view().contains(text@),
{
    let mut i: usize = 0;
    while i < items.len()
        invariant
            i <= items.len(),
            forall|j: int| 0 <= j < i ==> items.deep_view()[j] != text@,
        decreases items.len() - i,
    {
        if items[i] == *text {
            assert(items.deep_view()[i as int] == text@);
            return true;
        }
        i += 1;
    }
    false
}

/// Adds each text found to `items` unless it is there already.
fn add_tickets(items: Vec<String>, found: Vec<Option<String>>) -> (r: Vec<String>)
    ensures
        r.deep_view() == with_tickets(items.deep_view(), found.deep_view()),
{
    let mut out = items;
    let mut found = found;
    let ghost all = found.deep_view();
    let ghost start = out.deep_view();
    let mut i: usize = 0;
    assert(all.take(0) =~= Seq::empty());
    while i < found.len()
        invariant
            i <= found.len(),
            found.len() == all.len(),
            forall|j: int| i <= j < found.len() ==> found.deep_view()[j] == all[j],
            out.deep_view() == with_tickets(start, all.take(i as int)),
        decreases found.len() - i,
    {
        assert(all.take(i + 1).drop_last() =~= all.take(i as int));
        assert(found.deep_view()[i as int] == all[i as int]);
        let mut entry: Option<String> = None;
        std::mem::swap(&mut entry, &mut found[i]);
        match entry {
            Some(text) => {
                if !holds_text(&out, &text) {
                    let ghost before = out.deep_view();
                    out.push(text);
                    assert(out.deep_view() =~= before.push(text@));
                }
            },
            None => {},
        }
        i += 1;
    }
    assert(all.take(all.len() as int) =~= all);
    out
}

/// Puts each text found at the end of `set`.
fn add_commit_references(set: TextSet, found: Vec<Option<String>>) -> (r: TextSet)
    ensures
        text_items(r) == with_commit_references(text_items(set), found.deep_view()),
{
    let mut out = set;
    let mut found = found;
    let ghost all = found.deep_view();
    let ghost start = text_items(out);
    let mut i: usize = 0;
    assert(all.take(0) =~= Seq::empty());
    while i < found.len()
        invariant
            i <= found.len(),
            found.len() == all.len(),
            forall|j: int| i <= j < found.len() ==> found.deep_view()[j] == all[j],
            text_items(out) == with_commit_references(start, all.take(i as int)),
        decreases found.len() - i,
    {
        assert(all.take(i + 1).drop_last() =~= all.take(i as int));
        assert(found.deep_view()[i as int] == all[i as int]);
        let mut entry: Option<String> = None;
        std::mem::swap(&mut entry, &mut found[i]);
        match entry {
            Some(text) => {
                insert_text(&mut out, text);
            },
            None => {},
        }
        i += 1;
    }
    assert(all.take(all.len() as int) =~= all);
    out
}

/// Puts the numbers from `first` to `last` at the end of `set`, the
/// smallest first.
fn add_range(set: NumberSet, first: u32, last: u32) -> (r: NumberSet)
    ensures
        number_items(r) == with_range(number_items(set), first as int, last as int),
{
    let mut out = set;
    if first > last {
        return out;
    }
    let ghost start = number_items(out);
    let mut next: u32 = first;
    loop
        invariant_except_break
            number_items(out) == with_range(start, first as int, next - 1),
        invariant
            first <= next <= last,
        ensures
            number_items(out) == with_range(start, first as int, last as int),
        decreases last - next,
    {
        insert_number(&mut out, next);
        if next == last {
            break;
        }
        next += 1;
    }
    out
}

/// Puts the revisions that one piece of a list names at the end of `set`.
fn add_list_piece(set: NumberSet, piece: &[char]) -> (r: NumberSet)
    ensures
        number_items(r) == with_list_piece(number_items(set), piece@),
{
    let mut out = set;
    let text = trimmed(piece);
    match split_chars_once(text.as_slice(), '-') {
        Some((first, last)) => match (read_u32(first.as_slice()), read_u32(last.as_slice())) {
            (Some(a), Some(b)) => add_range(out, a, b),
            _ => out,
        },
        None => match read_u32(text.as_slice()) {
            Some(a) => {
                insert_number(&mut out, a);
                out
            },
            None => out,
        },
    }
}

/// Puts the revisions that a list names at the end of `set`.
fn add_revision_list(set: NumberSet, list: &[char]) -> (r: NumberSet)
    ensures
        number_items(r) == with_revision_list(number_items(set), list@),
{
    let mut out = set;
    let pieces = split_chars(list, ',');
    let ghost all = views(pieces@);
    let ghost start = number_items(out);
    let mut i: usize = 0;
    assert(all.take(0) =~= Seq::empty());
    while i < pieces.len()
        invariant
            i <= pieces.len(),
            all == views(pieces@),
            number_items(out) == with_list_pieces(start, all.take(i as int)),
        decreases pieces.len() - i,
    {
        assert(all.take(i + 1).drop_last() =~= all.take(i as int));
        assert(all[i as int] == pieces[i as int]@);
        out = add_list_piece(out, pieces[i].as_slice());
        i += 1;
    }
    assert(all.take(all.len() as int) =~= all);
    out
}

/// Puts the revisions that each list found names at the end of `set`.
fn add_revision_references(set: NumberSet, found: &Vec<Option<String>>) -> (r: NumberSet)
    ensures
        number_items(r) == with_revision_references(number_items(set), found.deep_view()),
{
    let mut out = set;
    let ghost all = found.deep_view();
    let ghost start = number_items(out);
    let mut i: usize = 0;
    assert(all.take(0) =~= Seq::empty());
    while i < found.len()
        invariant
            i <= found.len(),
            all == found.deep_view(),
            number_items(out) == with_revision_references(start, all.take(i as int)),
        decreases found.len() - i,
    {
        assert(all.take(i + 1).drop_last() =~= all.take(i as int));
        match &found[i] {
            Some(list) => {
                let chars = chars_of(list.as_str());
                out = add_revision_list(out, chars.as_slice());
            },
            None => {},
        }
        i += 1;
    }
    assert(all.take(all.len() as int) =~= all);
    out
}

/// The tickets found, each once, in the order in which they were first
/// found.
pub fn unique_tickets(found: Vec<Option<String>>) -> (r: Vec<String>)
    ensures
        r.deep_view() == with_tickets(Seq::empty(), found.deep_view()),
{
    let none: Vec<String> = Vec::new();
    assert(none.deep_view() =~= Seq::<Seq<char>>::empty());
    add_tickets(none, found)
}

/// The references to commits found, each once, in the order in which they
/// were last found.
pub fn references_in_order(found: Vec<Option<String>>) -> (r: Vec<String>)
    ensures
        r.deep_view() == with_commit_references(Seq::empty(), found.deep_view()),
{
    texts_in_order(add_commit_references(new_text_set(), found))
}

/// The revisions of the origin system that the lists found name, each
/// once, in the order in which they were last named.
pub fn revisions_in_order(found: &Vec<Option<String>>) -> (r: Vec<u32>)
    ensures
        r@ == with_revision_references(Seq::empty(), found.deep_view()),
{
    numbers_in_order(add_revision_references(new_number_set(), found))
}

/// Makes the commit of a revision id, of parents, of what the line of the
/// origin system says and of what the patterns found in the message.
pub fn commit_from_findings(
    git_revision: String,
    parent_revisions: Vec<String>,
    svn_info: Option<SvnInfo>,
    findings: Findings,
) -> (r: Commit)
    ensures
        r@ == commit_of(
            git_revision@,
            parent_revisions.deep_view(),
            match svn_info {
                Some(info) => Some(info@),
                None => None,
            },
            findings@,
        ),
{
    let jira_tickets = unique_tickets(findings.tickets);
    let git_commits = references_in_order(findings.commit_references);
    let svn_commits = revisions_in_order(&findings.revision_lists);
    let is_likely_a_merge = is_likely_merge(
        parent_revisions.len(),
        findings.mentions_merging,
        &git_commits,
        &svn_commits,
    );
    Commit {
        git_revision,
        parent_revisions,
        svn_info,
        jira_tickets,
        referenced_commits: ReferencedCommits { git_commits, svn_commits },
        is_likely_a_merge,
    }
}

/// Puts what was found in one more line after what was found before.
fn append_found(all: &mut Vec<Option<String>>, more: Vec<Option<String>>)
    ensures
        final(all).deep_view() == old(all).deep_view() + more.deep_view(),
{
    let mut more = more;
    let ghost start = all.deep_view();
    let ghost added = more.deep_view();
    let mut i: usize = 0;
    assert(start + added.take(0) =~= start);
    while i < more.len()
        invariant
            i <= more.len(),
            more.len() == added.len(),
            forall|j: int| i <= j < more.len() ==> more.deep_view()[j] == added[j],
            all.deep_view() == start + added.take(i as int),
        decreases more.len() - i,
    {
        assert(more.deep_view()[i as int] == added[i as int]);
        let mut entry: Option<String> = None;
        std::mem::swap(&mut entry, &mut more[i]);
        let ghost before = all.deep_view();
        all.push(entry);
        assert(all.deep_view() =~= before.push(added[i as int]));
        assert(all.deep_view() =~= start + added.take(i + 1));
        i += 1;
    }
    assert(added.take(more.len() as int) =~= added);
}

/// The revisions that the text of a list names, each once, in the order of
/// their last mention: `"10, 12-13"` names 10, 12 and 13.
pub fn expand_revision_list(list: &str) -> (r: Vec<u32>)
    ensures
        r@ == revisions_of_list(list@),
{
    let chars = chars_of(list);
    numbers_in_order(add_revision_list(new_number_set(), chars.as_slice()))
}

/// Reads the line of the origin system.
pub fn read_svn_line(line: &[char]) -> (r: Result<SvnInfo, ParseError>)
    ensures
        match r {
            Ok(info) => parse_svn_line(line@) == Ok::<SvnInfoView, ParseError>(info@),
            Err(e) => parse_svn_line(line@) == Err::<SvnInfoView, ParseError>(e),
        },
{
    let text = trimmed(line);
    let fields = split_chars(text.as_slice(), ' ');
    let ghost model = views(fields@);
    if fields.len() != 3 {
        return Err(ParseError::InvalidSvnLine);
    }
    let marker = chars_of(GIT_SVN_ID_FIELD);
    assert(model[0] == fields[0]@);
    assert(model[1] == fields[1]@);
    if !same_chars(fields[0].as_slice(), marker.as_slice()) {
        return Err(ParseError::InvalidSvnLine);
    }
    match split_chars_once(fields[1].as_slice(), '@') {
        None => Err(ParseError::InvalidSvnInfo),
        Some((url, revision)) => match read_u32(revision.as_slice()) {
            None => Err(ParseError::InvalidSvnRevision),
            Some(number) => Ok(SvnInfo { svn_url: string_of(url.as_slice()), svn_revision: number }),
        },
    }
}

/// What the parser holds while it goes through the lines of a message.
struct Scanner {
    svn_info: Option<SvnInfo>,
    findings: Findings,
    at_first_line: bool,
}

impl View for Scanner {
    type V = Scan;

    closed spec fn view(&self) -> Scan {
        Scan {
            svn_info: match self.svn_info {
                Some(info) => Some(info@),
                None => None,
            },
            findings: self.findings@,
            at_first_line: self.at_first_line,
        }
    }
}

impl Scanner {
    /// A scanner that has read nothing yet.
    fn new() -> (r: Scanner)
        ensures
            r@ == Scan::start(),
    {
        let findings = Findings {
            tickets: Vec::new(),
            commit_references: Vec::new(),
            revision_lists: Vec::new(),
            mentions_merging: false,
        };
        assert(findings.tickets.deep_view() =~= Seq::<Option<Seq<char>>>::empty());
        assert(findings.commit_references.deep_view() =~= Seq::<Option<Seq<char>>>::empty());
        assert(findings.revision_lists.deep_view() =~= Seq::<Option<Seq<char>>>::empty());
        Scanner { svn_info: None, findings, at_first_line: true }
    }

    /// Goes through one more line.
    fn scan_line(self, patterns: &Patterns, all_mentions: bool, line: &[char]) -> (r: Result<
        Scanner,
        ParseError,
    >)
        ensures
            match r {
                Ok(next) => self@.after_line(*patterns, all_mentions, line@) == Ok::<
                    Scan,
                    ParseError,
                >(next@),
                Err(e) => self@.after_line(*patterns, all_mentions, line@) == Err::<
                    Scan,
                    ParseError,
                >(e),
            },
    {
        let marker = chars_of(GIT_SVN_ID_STR);
        if self.svn_info.is_none() && has_prefix(line, marker.as_slice()) {
            return match read_svn_line(line) {
                Ok(info) => Ok(
                    Scanner {
                        svn_info: Some(info),
                        findings: self.findings,
                        at_first_line: self.at_first_line,
                    },
                ),
                Err(e) => Err(e),
            };
        }
        let text = string_of(line);
        let mut findings = self.findings;
        if all_mentions {
            append_found(
                &mut findings.tickets,
                find_first_groups(&patterns.ticket_anywhere, text.as_str()),
            );
        } else if self.at_first_line {
            append_found(
                &mut findings.tickets,
                find_first_groups(&patterns.ticket_at_start, text.as_str()),
            );
        }
        append_found(
            &mut findings.commit_references,
            find_first_groups(&patterns.commit_reference, text.as_str()),
        );
        append_found(
            &mut findings.revision_lists,
            find_first_groups(&patterns.revision_reference, text.as_str()),
        );
        if matches_anywhere(&patterns.merge_mention, text.as_str()) {
            findings.mentions_merging = true;
        }
        Ok(Scanner { svn_info: self.svn_info, findings, at_first_line: false })
    }
}

/// The revision ids of the parents that `line` names.
fn read_parents(line: &[char]) -> (r: Vec<String>)
    ensures
        r.deep_view() == parents_of(line@),
{
    let pieces = split_chars(line, ' ');
    let ghost all = views(pieces@);
    let ghost wanted = |piece: Seq<char>| piece.len() > 0;
    let mut out: Vec<String> = Vec::new();
    let mut i: usize = 0;
    assert(all.take(0) =~= Seq::empty());
    assert(out.deep_view() =~= all.take(0).filter(wanted)) by {
        reveal(Seq::filter);
    }
    while i < pieces.len()
        invariant
            i <= pieces.len(),
            all == views(pieces@),
            wanted == |piece: Seq<char>| piece.len() > 0,
            out.deep_view() == all.take(i as int).filter(wanted),
        decreases pieces.len() - i,
    {
        assert(all.take(i + 1).drop_last() =~= all.take(i as int));
        assert(all.take(i + 1).last() == pieces[i as int]@);
        assert(all.take(i + 1).filter(wanted) == if wanted(pieces[i as int]@) {
            all.take(i as int).filter(wanted).push(pieces[i as int]@)
        } else {
            all.take(i as int).filter(wanted)
        }) by {
            reveal(Seq::filter);
        }
        if pieces[i].len() > 0 {
            let ghost before = out.deep_view();
            out.push(string_of(pieces[i].as_slice()));
            assert(out.deep_view() =~= before.push(pieces[i as int]@));
        }
        i += 1;
    }
    assert(all.take(all.len() as int) =~= all);
    out
}

/// Reads one entry of the log as a commit. The first line of the entry is
/// the revision id, the second the revision ids of the parents, and the
/// lines after it are the message. With `include_mentioned_jira_tickets`
/// the tickets are sought in every line of the message, without it at the
/// start of its first line only.
pub fn process_commit_entry(
    patterns: &Patterns,
    entry: &str,
    include_mentioned_jira_tickets: bool,
) -> (r: Result<Commit, ParseError>)
    ensures
        match r {
            Ok(commit) => parse_entry(*patterns, include_mentioned_jira_tickets, entry@) == Ok::<
                CommitView,
                ParseError,
            >(commit@),
            Err(e) => parse_entry(*patterns, include_mentioned_jira_tickets, entry@) == Err::<
                CommitView,
                ParseError,
            >(e),
        },
{
    let chars = chars_of(entry);
    read_commit_entry(patterns, chars.as_slice(), include_mentioned_jira_tickets)
}

/// Reads one entry of the log, given as characters, as a commit.
pub fn read_commit_entry(
    patterns: &Patterns,
    entry: &[char],
    include_mentioned_jira_tickets: bool,
) -> (r: Result<Commit, ParseError>)
    ensures
        match r {
            Ok(commit) => parse_entry(*patterns, include_mentioned_jira_tickets, entry@) == Ok::<
                CommitView,
                ParseError,
            >(commit@),
            Err(e) => parse_entry(*patterns, include_mentioned_jira_tickets, entry@) == Err::<
                CommitView,
                ParseError,
            >(e),
        },
{
    let all = split_lines(entry);
    let ghost model = lines(entry@);
    if all.len() == 0 {
        return Err(ParseError::MissingRevision);
    }
    assert(model[0] == all[0]@);
    if !has_byte_length(all[0].as_slice(), SHA1_HASH_ASCII_LENGTH) {
        return Err(ParseError::InvalidRevisionLength);
    }
    let git_revision = string_of(all[0].as_slice());
    let parent_revisions = if all.len() >= 2 {
        assert(model[1] == all[1]@);
        read_parents(all[1].as_slice())
    } else {
        let none: Vec<String> = Vec::new();
        assert(none.deep_view() =~= Seq::<Seq<char>>::empty());
        none
    };
    let mut scanner = Scanner::new();
    let mut i: usize = 2;
    let ghost rest = if model.len() >= 2 {
        model.skip(2)
    } else {
        Seq::empty()
    };
    assert(rest.take(0) =~= Seq::empty());
    while i < all.len()
        invariant
            2 <= i,
            i <= all.len() || i == 2,
            model == views(all@),
            model == lines(entry@),
            model.len() > 0,
            byte_length(model[0]) == SHA1_HASH_ASCII_LENGTH,
            rest == if model.len() >= 2 {
                model.skip(2)
            } else {
                Seq::empty()
            },
            Scan::start().after_lines(
                *patterns,
                include_mentioned_jira_tickets,
                rest.take(i - 2),
            ) == Ok::<Scan, ParseError>(scanner@),
        decreases all.len() - i,
    {
        assert(rest.take(i - 2 + 1).drop_last() =~= rest.take(i - 2));
        assert(rest.take(i - 2 + 1).last() == all[i as int]@);
        match scanner.scan_line(patterns, include_mentioned_jira_tickets, all[i].as_slice()) {
            Ok(next) => {
                scanner = next;
            },
            Err(e) => {
                proof {
                    lemma_error_stays(
                        Scan::start(),
                        *patterns,
                        include_mentioned_jira_tickets,
                        rest,
                        i - 2 + 1,
                    );
                }
                return Err(e);
            },
        }
        i += 1;
    }
    assert(rest.take(i - 2) =~= rest);
    Ok(commit_from_findings(git_revision, parent_revisions, scanner.svn_info, scanner.findings))
}

/// Once a line has an error, the lines after it do not change it.
pub proof fn lemma_error_stays(
    scan: Scan,
    patterns: Patterns,
    all_mentions: bool,
    lines: Seq<Seq<char>>,
    n: int,
)
    requires
        0 <= n <= lines.len(),
        scan.after_lines(patterns, all_mentions, lines.take(n)) is Err,
    ensures
        scan.after_lines(patterns, all_mentions, lines) == scan.after_lines(
            patterns,
            all_mentions,
            lines.take(n),
        ),
    decreases lines.len(),
{
    if n == lines.len() {
        assert(lines.take(n) =~= lines);
    } else {
        assert(lines.drop_last().take(n) =~= lines.take(n));
        lemma_error_stays(scan, patterns, all_mentions, lines.drop_last(), n);
    }
}

/// What stands before each entry in the log of all commits.
pub const LOG_COMMIT_DELIMITER: &'static str = "CLOG-COMMIT-DELIMITER\n";

/// An entry of the log that is no commit, and why.
#[derive(Debug, Clone, Copy, PartialEq, Eq, Structural)]
pub struct EntryError {
    /// The place of the entry among the entries of the log, from 0.
    pub entry: usize,
    /// Why the entry is no commit.
    pub cause: ParseError,
}

/// The entries of a log: what follows each delimiter, up to the next one.
/// What stands before the first delimiter is no entry.
pub open spec fn entries_of(log: Seq<char>) -> Seq<Seq<char>> {
    crate::text::split_text(log, LOG_COMMIT_DELIMITER@).skip(1)
}

/// The commits that the entries describe, in their order, or the first
/// entry that describes none.
pub open spec fn parse_entries(
    patterns: Patterns,
    all_mentions: bool,
    entries: Seq<Seq<char>>,
) -> Result<Seq<CommitView>, EntryError>
    decreases entries.len(),
{
    if entries.len() == 0 {
        Ok(Seq::empty())
    } else {
        match parse_entries(patterns, all_mentions, entries.drop_last()) {
            Err(e) => Err(e),
            Ok(commits) => match parse_entry(patterns, all_mentions, entries.last()) {
                Ok(commit) => Ok(commits.push(commit)),
                Err(cause) => Err(
                    EntryError { entry: (entries.len() - 1) as usize, cause },
                ),
            },
        }
    }
}

/// Once an entry is no commit, the entries after it do not change the
/// error.
pub proof fn lemma_entry_error_stays(
    patterns: Patterns,
    all_mentions: bool,
    entries: Seq<Seq<char>>,
    n: int,
)
    requires
        0 <= n <= entries.len(),
        parse_entries(patterns, all_mentions, entries.take(n)) is Err,
    ensures
        parse_entries(patterns, all_mentions, entries) == parse_entries(
            patterns,
            all_mentions,
            entries.take(n),
        ),
    decreases entries.len(),
{
    if n == entries.len() {
        assert(entries.take(n) =~= entries);
    } else {
        assert(entries.drop_last().take(n) =~= entries.take(n));
        lemma_entry_error_stays(patterns, all_mentions, entries.drop_last(), n);
    }
}

/// What each of `commits` holds.
pub open spec fn commit_views(commits: Seq<Commit>) -> Seq<CommitView> {
    Seq::new(commits.len(), |i: int| commits[i]@)
}

/// The revision ids of `commits`.
pub open spec fn revisions_of(commits: Seq<CommitView>) -> Seq<Seq<char>> {
    Seq::new(commits.len(), |i: int| commits[i].git_revision)
}

/// The commits that a log describes, in its order: every entry of the log
/// is a commit, and no revision id occurs twice. The error is the first
/// entry that is no commit or, where there is none, the first entry with
/// the revision id of an earlier one.
pub open spec fn parse_log(patterns: Patterns, all_mentions: bool, log: Seq<char>) -> Result<
    Seq<CommitView>,
    EntryError,
> {
    match parse_entries(patterns, all_mentions, entries_of(log)) {
        Err(e) => Err(e),
        Ok(commits) => match crate::order::first_repeated(revisions_of(commits)) {
            Some(k) => Err(EntryError { entry: k as usize, cause: ParseError::DuplicateRevision }),
            None => Ok(commits),
        },
    }
}

/// Reads the entries of a log, each as a commit.
fn read_entries(
    patterns: &Patterns,
    git_log: &str,
    include_mentioned_jira_tickets: bool,
) -> (r: Result<Vec<Commit>, EntryError>)
    ensures
        match r {
            Ok(commits) => parse_entries(
                *patterns,
                include_mentioned_jira_tickets,
                entries_of(git_log@),
            ) == Ok::<Seq<CommitView>, EntryError>(commit_views(commits@)),
            Err(e) => parse_entries(
                *patterns,
                include_mentioned_jira_tickets,
                entries_of(git_log@),
            ) == Err::<Seq<CommitView>, EntryError>(e),
        },
{
    let log = chars_of(git_log);
    let delimiter = chars_of(LOG_COMMIT_DELIMITER);
    proof {
        reveal_strlit("CLOG-COMMIT-DELIMITER\n");
    }
    let pieces = crate::text::split_on_text(log.as_slice(), delimiter.as_slice());
    let ghost entries = entries_of(git_log@);
    assert(pieces.len() >= 1) by {
        crate::text::lemma_split_text_nonempty(log@, delimiter@, 0);
        assert(views(pieces@).len() == pieces.len());
    }
    let mut commits: Vec<Commit> = Vec::new();
    let mut i: usize = 1;
    assert(entries.take(0) =~= Seq::empty());
    assert(commit_views(commits@) =~= Seq::empty());
    while i < pieces.len()
        invariant
            1 <= i <= pieces.len(),
            entries == views(pieces@).skip(1),
            entries == entries_of(git_log@),
            commits.len() == i - 1,
            parse_entries(*patterns, include_mentioned_jira_tickets, entries.take(i - 1)) == Ok::<
                Seq<CommitView>,
                EntryError,
            >(commit_views(commits@)),
        decreases pieces.len() - i,
    {
        assert(entries.take(i - 1 + 1).drop_last() =~= entries.take(i - 1));
        assert(entries.take(i - 1 + 1).last() == pieces[i as int]@);
        match read_commit_entry(patterns, pieces[i].as_slice(), include_mentioned_jira_tickets) {
            Ok(commit) => {
                let ghost before = commit_views(commits@);
                commits.push(commit);
                assert(commit_views(commits@) =~= before.push(commit@));
            },
            Err(cause) => {
                proof {
                    lemma_entry_error_stays(
                        *patterns,
                        include_mentioned_jira_tickets,
                        entries,
                        i - 1 + 1,
                    );
                }
                return Err(EntryError { entry: i - 1, cause });
            },
        }
        i += 1;
    }
    assert(entries.take(pieces.len() - 1) =~= entries);
    Ok(commits)
}

/// The parser marks a commit as a likely merge by the rule of
/// `likely_merge`: a commit that it reads with more than one parent is
/// one, and a commit that it reads with one parent at most and without a
/// reference to another commit is none.
pub proof fn lemma_parsed_merges(patterns: Patterns, all_mentions: bool, entry: Seq<char>)
    requires
        parse_entry(patterns, all_mentions, entry) is Ok,
    ensures
        ({
            let commit = parse_entry(patterns, all_mentions, entry)->Ok_0;
            &&& commit.parent_revisions.len() > 1 ==> commit.is_likely_a_merge
            &&& commit.parent_revisions.len() <= 1 && commit.referenced_commits.git_commits.len()
                == 0 && commit.referenced_commits.svn_commits.len() == 0
                ==> !commit.is_likely_a_merge
        }),
{
}

/// Reads the log of all commits: every entry of it as a commit. One entry
/// that is no commit, or that has the revision id of an earlier entry,
/// fails the whole; no part of the log is returned then.
pub fn process_log_data(
    patterns: &Patterns,
    git_log: &str,
    include_mentioned_jira_tickets: bool,
) -> (r: Result<Vec<Commit>, EntryError>)
    ensures
        match r {
            Ok(commits) => parse_log(*patterns, include_mentioned_jira_tickets, git_log@) == Ok::<
                Seq<CommitView>,
                EntryError,
            >(commit_views(commits@)),
            Err(e) => parse_log(*patterns, include_mentioned_jira_tickets, git_log@) == Err::<
                Seq<CommitView>,
                EntryError,
            >(e),
        },
{
    let commits = match read_entries(patterns, git_log, include_mentioned_jira_tickets) {
        Ok(commits) => commits,
        Err(e) => {
            return Err(e);
        },
    };
    let ghost revisions = revisions_of(commit_views(commits@));
    let mut keys: Vec<Vec<char>> = Vec::new();
    let mut i: usize = 0;
    while i < commits.len()
        invariant
            i <= commits.len(),
            revisions == revisions_of(commit_views(commits@)),
            keys.len() == i,
            forall|k: int| 0 <= k < i ==> (#[trigger] keys[k])@ == revisions[k],
        decreases commits.len() - i,
    {
        keys.push(chars_of(commits[i].git_revision.as_str()));
        i += 1;
    }
    assert(views(keys@) =~= revisions);
    match crate::order::find_first_repeated(&keys) {
        Some(k) => Err(EntryError { entry: k, cause: ParseError::DuplicateRevision }),
        None => Ok(commits),
    }
}

} // verus!
