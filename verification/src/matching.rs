//! The regular expressions by which the commit parser finds tickets and
//! references in a line of a message.

use regex::Regex;
use vstd::prelude::*;

verus! {

/// `regex::Regex`, a compiled regular expression. What stands inside a
/// value of it is not looked at: it is handed to the functions of its
/// crate and to nothing else.
#[verifier::external_type_specification]
#[verifier::external_body]
pub struct ExRegex(regex::Regex);

/// A ticket at the start of a line, after white space and after "Pull
/// request #N" where the line has it. A ticket is an upper-case letter, one
/// or more upper-case letters, digits or underscores, a hyphen and a number
/// without a leading zero.
pub const TICKET_AT_START_PATTERN: &'static str =
    r"^\s*(?:Pull request #\d+.*?)?([A-Z][A-Z0-9_]+-[1-9][0-9]*)\b";

/// A ticket anywhere in a line.
pub const TICKET_ANYWHERE_PATTERN: &'static str = r"\b([A-Z][A-Z0-9_]+-[1-9][0-9]*)\b";

/// A run of 7 to 40 hexadecimal digits that stands as a word: short numbers
/// that a message holds for other reasons are left out.
pub const COMMIT_REFERENCE_PATTERN: &'static str = r"(?i)\b([0-9a-f]{7,40})\b";

/// A list of revision numbers and ranges of them, after "commit",
/// "revision" or "rev", each with or without a plural ending, or after a
/// bare "r". The list is found as a whole.
pub const REVISION_REFERENCE_PATTERN: &'static str =
    r"(?i)\b(?:(?:commit|revision|rev)(?:s|\(s\))? |r)(\d+(?:-\d+)?(?:, ?\d+(?:-\d+)?)*)\b";

/// A word of merging or cherry-picking.
pub const MERGE_MENTION_PATTERN: &'static str = r"(?i)(merg(?:e|ing)|cherry.?pick)";

/// What `Regex::new` makes of a pattern: the compiled expression, or `None`
/// where the pattern is refused.
pub uninterp spec fn compiled(pattern: Seq<char>) -> Option<Regex>;

/// For each of the successive non-overlapping matches of `re` in
/// `haystack`, the text of the capture group with the number `group`, or
/// `None` where the expression has no such group or the group took no part
/// in the match.
pub uninterp spec fn group_texts(re: Regex, haystack: Seq<char>, group: usize) -> Seq<
    Option<Seq<char>>,
>;

/// For each match of `re` in `haystack` the text of the first capture
/// group: the patterns of this module hold what they look for in it.
pub open spec fn first_groups(re: Regex, haystack: Seq<char>) -> Seq<Option<Seq<char>>> {
    group_texts(re, haystack, 1)
}

/// Whether `re` matches anywhere in `haystack`.
pub uninterp spec fn has_match(re: Regex, haystack: Seq<char>) -> bool;

/// The texts of the successive non-overlapping matches of `re` in
/// `haystack`.
pub uninterp spec fn matched_texts(re: Regex, haystack: Seq<char>) -> Seq<Seq<char>>;

/// The parts of `haystack` that the successive non-overlapping matches of
/// `re` leave: what stands before the first match, between two matches,
/// and after the last one.
pub uninterp spec fn parts_between(re: Regex, haystack: Seq<char>) -> Seq<Seq<char>>;

/// Calls `Regex::new`, which compiles `pattern` with the default options and
/// fails on a pattern that is not valid or grows too large. The outcome
/// depends on the pattern alone.
#[verifier::external_body]
pub(crate) fn compile(pattern: &str) -> (r: Option<Regex>)
    ensures
        r == compiled(pattern@),
{
    Regex::new(pattern).ok()
}

/// Calls `Regex::captures_iter` and takes from each match the text of one
/// capture group through `Captures::get`, which gives `None` for a group
/// that the expression has not or that took no part in the match. The
/// outcome depends on the expression, the haystack and the number of the
/// group alone.
#[verifier::external_body]
pub(crate) fn find_group_texts(re: &Regex, haystack: &str, group: usize) -> (r: Vec<
    Option<String>,
>)
    ensures
        r.deep_view() == group_texts(*re, haystack@, group),
{
    re.captures_iter(haystack).map(|c| c.get(group).map(|m| m.as_str().to_owned())).collect()
}

/// Finds for each match of `re` in `haystack` the text of the first
/// capture group.
pub fn find_first_groups(re: &Regex, haystack: &str) -> (r: Vec<Option<String>>)
    ensures
        r.deep_view() == first_groups(*re, haystack@),
{
    find_group_texts(re, haystack, 1)
}

/// Calls `Regex::is_match`, which tells whether the expression matches
/// anywhere in the haystack.
#[verifier::external_body]
pub(crate) fn matches_anywhere(re: &Regex, haystack: &str) -> (r: bool)
    ensures
        r == has_match(*re, haystack@),
{
    re.is_match(haystack)
}

/// Calls `Regex::find_iter` and takes the text of each match through
/// `Match::as_str`. The outcome depends on the expression and the haystack
/// alone.
#[verifier::external_body]
pub(crate) fn find_matches(re: &Regex, haystack: &str) -> (r: Vec<String>)
    ensures
        r.deep_view() == matched_texts(*re, haystack@),
{
    re.find_iter(haystack).map(|m| m.as_str().to_owned()).collect()
}

/// Calls `Regex::split`, which hands out the parts of the haystack that
/// the matches leave. The outcome depends on the expression and the
/// haystack alone.
#[verifier::external_body]
pub(crate) fn split_between(re: &Regex, haystack: &str) -> (r: Vec<String>)
    ensures
        r.deep_view() == parts_between(*re, haystack@),
{
    re.split(haystack).map(|part| part.to_owned()).collect()
}

/// The compiled expressions of the commit parser. They are compiled once
/// and handed to the parser by reference.
pub struct Patterns {
    /// Finds a ticket at the start of a line.
    pub ticket_at_start: Regex,
    /// Finds the tickets anywhere in a line.
    pub ticket_anywhere: Regex,
    /// Finds the references to other commits.
    pub commit_reference: Regex,
    /// Finds the lists of revision numbers of the origin system.
    pub revision_reference: Regex,
    /// Finds a mention of merging.
    pub merge_mention: Regex,
}

impl Patterns {
    /// The patterns made of five compiled expressions, where each of them
    /// was compiled.
    pub open spec fn assembled(
        ticket_at_start: Option<Regex>,
        ticket_anywhere: Option<Regex>,
        commit_reference: Option<Regex>,
        revision_reference: Option<Regex>,
        merge_mention: Option<Regex>,
    ) -> Option<Patterns> {
        if ticket_at_start is Some && ticket_anywhere is Some && commit_reference is Some
            && revision_reference is Some && merge_mention is Some {
            Some(
                Patterns {
                    ticket_at_start: ticket_at_start->0,
                    ticket_anywhere: ticket_anywhere->0,
                    commit_reference: commit_reference->0,
                    revision_reference: revision_reference->0,
                    merge_mention: merge_mention->0,
                },
            )
        } else {
            None
        }
    }

    /// Puts five compiled expressions together; `None` where one is missing.
    pub fn assemble(
        ticket_at_start: Option<Regex>,
        ticket_anywhere: Option<Regex>,
        commit_reference: Option<Regex>,
        revision_reference: Option<Regex>,
        merge_mention: Option<Regex>,
    ) -> (r: Option<Patterns>)
        ensures
            r == Self::assembled(
                ticket_at_start,
                ticket_anywhere,
                commit_reference,
                revision_reference,
                merge_mention,
            ),
    {
        match (ticket_at_start, ticket_anywhere, commit_reference, revision_reference, merge_mention) {
            (Some(a), Some(b), Some(c), Some(d), Some(e)) => Some(
                Patterns {
                    ticket_at_start: a,
                    ticket_anywhere: b,
                    commit_reference: c,
                    revision_reference: d,
                    merge_mention: e,
                },
            ),
            _ => None,
        }
    }

    /// What `new` returns: the five patterns of this module, compiled.
    pub open spec fn standard() -> Option<Patterns> {
        Self::assembled(
            compiled(TICKET_AT_START_PATTERN@),
            compiled(TICKET_ANYWHERE_PATTERN@),
            compiled(COMMIT_REFERENCE_PATTERN@),
            compiled(REVISION_REFERENCE_PATTERN@),
            compiled(MERGE_MENTION_PATTERN@),
        )
    }

    /// Compiles the five patterns of this module.
    pub fn new() -> (r: Option<Patterns>)
        ensures
            r == Self::standard(),
    {
        Self::assemble(
            compile(TICKET_AT_START_PATTERN),
            compile(TICKET_ANYWHERE_PATTERN),
            compile(COMMIT_REFERENCE_PATTERN),
            compile(REVISION_REFERENCE_PATTERN),
            compile(MERGE_MENTION_PATTERN),
        )
    }
}

} // verus!
