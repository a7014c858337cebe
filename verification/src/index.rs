//! The index over a list of commits: lookup by revision id, whole or
//! abbreviated, lookup by the revision number of the origin system, and
//! the references between commits in both directions.

use crate::collection::{commit_views, revisions_of, Commit, CommitView};
use crate::constants::SHA1_HASH_ASCII_LENGTH;
use crate::order::{
    in_order, lemma_between_prefixed, lemma_precedes_irreflexive, lemma_precedes_total,
    lemma_precedes_transitive, lemma_prefix_not_after, names_all, names_keys, precedes,
    stands_before,
};
use crate::text::{
    byte_length, chars_of, has_byte_length, has_prefix, lemma_same_byte_length_prefix, same_chars,
    starts_with, views,
};
use std::collections::HashMap;
use vstd::prelude::*;

verus! {

/// Why a lookup found no commit.
#[derive(Debug, Clone, Copy, PartialEq, Eq, Structural)]
pub enum LookupError {
    /// No commit has what was asked for.
    UnknownRevision,
    /// More than one revision id begins with what was given, and nothing
    /// tells which is meant.
    AmbiguousPrefix,
}

/// Why a list of commits has no index.
#[derive(Debug, Clone, Copy, PartialEq, Eq, Structural)]
pub enum IndexError {
    /// A revision id has not the length that revision ids have.
    MalformedRevision,
    /// Two commits have the same revision id.
    DuplicateRevision,
}

/// Whether every revision id has the length that revision ids have.
pub open spec fn revisions_well_formed(revisions: Seq<Seq<char>>) -> bool {
    forall|i: int|
        0 <= i < revisions.len() ==> byte_length(#[trigger] revisions[i]) == SHA1_HASH_ASCII_LENGTH
}

/// Whether no revision id occurs twice.
pub open spec fn revisions_distinct(revisions: Seq<Seq<char>>) -> bool {
    forall|i: int, j: int|
        0 <= i < revisions.len() && 0 <= j < revisions.len() && i != j ==> #[trigger] revisions[i]
            != #[trigger] revisions[j]
}

/// Whether the revision id at `i` begins with `partial`.
pub open spec fn is_match(revisions: Seq<Seq<char>>, partial: Seq<char>, i: int) -> bool {
    0 <= i < revisions.len() && starts_with(revisions[i], partial)
}

/// The place of the one revision id that begins with `partial`; an error
/// where none does, and another where more than one does.
pub open spec fn lookup_revision(revisions: Seq<Seq<char>>, partial: Seq<char>) -> Result<
    int,
    LookupError,
> {
    if !exists|i: int| is_match(revisions, partial, i) {
        Err(LookupError::UnknownRevision)
    } else {
        let found = choose|i: int| is_match(revisions, partial, i);
        if exists|j: int| j != found && is_match(revisions, partial, j) {
            Err(LookupError::AmbiguousPrefix)
        } else {
            Ok(found)
        }
    }
}

/// The place of the last commit that came from revision `number` of the
/// origin system, if there is one.
pub open spec fn last_with_revision(commits: Seq<CommitView>, number: u32) -> Option<int>
    decreases commits.len(),
{
    if commits.len() == 0 {
        None
    } else {
        match commits.last().svn_info {
            Some(info) if info.svn_revision == number => Some(commits.len() - 1),
            _ => last_with_revision(commits.drop_last(), number),
        }
    }
}

/// The places of the commits that the abbreviated revision ids in
/// `references` name, in their order. One that names no commit, or more
/// than one, is left out.
pub open spec fn resolved_revisions(commits: Seq<CommitView>, references: Seq<Seq<char>>) -> Seq<
    int,
>
    decreases references.len(),
{
    if references.len() == 0 {
        Seq::empty()
    } else {
        let before = resolved_revisions(commits, references.drop_last());
        match lookup_revision(revisions_of(commits), references.last()) {
            Ok(i) => before.push(i),
            Err(_) => before,
        }
    }
}

/// The places of the commits that came from the revisions of the origin
/// system in `numbers`, in their order. A number that no commit came from
/// is left out.
pub open spec fn resolved_numbers(commits: Seq<CommitView>, numbers: Seq<u32>) -> Seq<int>
    decreases numbers.len(),
{
    if numbers.len() == 0 {
        Seq::empty()
    } else {
        let before = resolved_numbers(commits, numbers.drop_last());
        match last_with_revision(commits, numbers.last()) {
            Some(i) => before.push(i),
            None => before,
        }
    }
}

/// The places of the commits that the commit at `i` refers to: first those
/// that it names by revision id, then those that it names by a revision
/// of the origin system.
pub open spec fn forward_references(commits: Seq<CommitView>, i: int) -> Seq<int> {
    resolved_revisions(commits, commits[i].referenced_commits.git_commits) + resolved_numbers(
        commits,
        commits[i].referenced_commits.svn_commits,
    )
}

/// The forward references of each commit.
pub open spec fn all_forward_references(commits: Seq<CommitView>) -> Seq<Seq<int>> {
    Seq::new(commits.len(), |i: int| forward_references(commits, i))
}

/// The references from `source` to each of `targets`, as pairs of source
/// and target.
pub open spec fn edges_from(targets: Seq<int>, source: int) -> Seq<(int, int)>
    decreases targets.len(),
{
    if targets.len() == 0 {
        Seq::empty()
    } else {
        edges_from(targets.drop_last(), source).push((source, targets.last()))
    }
}

/// All the references, those of the first commit first.
pub open spec fn all_edges(lists: Seq<Seq<int>>) -> Seq<(int, int)>
    decreases lists.len(),
{
    if lists.len() == 0 {
        Seq::empty()
    } else {
        all_edges(lists.drop_last()) + edges_from(lists.last(), lists.len() - 1)
    }
}

/// The sources of the references in `edges` that go to `target`, in their
/// order.
pub open spec fn sources_of(edges: Seq<(int, int)>, target: int) -> Seq<int>
    decreases edges.len(),
{
    if edges.len() == 0 {
        Seq::empty()
    } else {
        let before = sources_of(edges.drop_last(), target);
        if edges.last().1 == target {
            before.push(edges.last().0)
        } else {
            before
        }
    }
}

/// The places of the commits that refer to the commit at `i`, the earliest
/// first, once for each reference.
pub open spec fn backward_references(commits: Seq<CommitView>, i: int) -> Seq<int> {
    sources_of(all_edges(all_forward_references(commits)), i)
}

/// The references from `source` are the pairs of `source` and one of its
/// targets.
pub proof fn lemma_edges_from(targets: Seq<int>, source: int, edge: (int, int))
    ensures
        edges_from(targets, source).contains(edge) <==> edge.0 == source && targets.contains(
            edge.1,
        ),
    decreases targets.len(),
{
    let edges = edges_from(targets, source);
    if targets.len() > 0 {
        let rest = targets.drop_last();
        let before = edges_from(rest, source);
        lemma_edges_from(rest, source, edge);
        if edges.contains(edge) {
            let w = choose|w: int| 0 <= w < edges.len() && edges[w] == edge;
            if w < before.len() {
                assert(before[w] == edge);
                assert(before.contains(edge));
                let t = choose|t: int| 0 <= t < rest.len() && rest[t] == edge.1;
                assert(targets[t] == edge.1);
            } else {
                assert(targets[targets.len() - 1] == edge.1);
            }
        }
        if edge.0 == source && targets.contains(edge.1) {
            let t = choose|t: int| 0 <= t < targets.len() && targets[t] == edge.1;
            if t < rest.len() {
                assert(rest[t] == edge.1);
                assert(before.contains(edge));
                let w = choose|w: int| 0 <= w < before.len() && before[w] == edge;
                assert(edges[w] == edge);
            } else {
                assert(edges[before.len() as int] == edge);
            }
        }
    }
}

/// All the references are the pairs of a place and one of its targets.
pub proof fn lemma_all_edges(lists: Seq<Seq<int>>, edge: (int, int))
    ensures
        all_edges(lists).contains(edge) <==> 0 <= edge.0 < lists.len() && lists[edge.0].contains(
            edge.1,
        ),
    decreases lists.len(),
{
    let edges = all_edges(lists);
    if lists.len() > 0 {
        let rest = lists.drop_last();
        let before = all_edges(rest);
        let last = edges_from(lists.last(), lists.len() - 1);
        lemma_all_edges(rest, edge);
        lemma_edges_from(lists.last(), lists.len() - 1, edge);
        if edges.contains(edge) {
            let w = choose|w: int| 0 <= w < edges.len() && edges[w] == edge;
            if w < before.len() {
                assert(before[w] == edge);
                assert(before.contains(edge));
                assert(rest[edge.0] == lists[edge.0]);
            } else {
                assert(last[w - before.len()] == edge);
                assert(last.contains(edge));
            }
        }
        if 0 <= edge.0 < lists.len() && lists[edge.0].contains(edge.1) {
            if edge.0 < rest.len() {
                assert(rest[edge.0] == lists[edge.0]);
                assert(before.contains(edge));
                let w = choose|w: int| 0 <= w < before.len() && before[w] == edge;
                assert(edges[w] == edge);
            } else {
                assert(last.contains(edge));
                let w = choose|w: int| 0 <= w < last.len() && last[w] == edge;
                assert(edges[before.len() + w] == edge);
            }
        }
    }
}

/// The sources of the references that go to `target` are the places that
/// have a reference to it.
pub proof fn lemma_sources_of(edges: Seq<(int, int)>, target: int, source: int)
    ensures
        sources_of(edges, target).contains(source) <==> edges.contains((source, target)),
    decreases edges.len(),
{
    let sources = sources_of(edges, target);
    if edges.len() > 0 {
        let rest = edges.drop_last();
        let before = sources_of(rest, target);
        lemma_sources_of(rest, target, source);
        if sources.contains(source) {
            let w = choose|w: int| 0 <= w < sources.len() && sources[w] == source;
            if w < before.len() {
                assert(before[w] == source);
                assert(before.contains(source));
                let e = choose|e: int| 0 <= e < rest.len() && rest[e] == (source, target);
                assert(edges[e] == (source, target));
            } else {
                assert(edges[edges.len() - 1] == (source, target));
            }
        }
        if edges.contains((source, target)) {
            let e = choose|e: int| 0 <= e < edges.len() && edges[e] == (source, target);
            if e < rest.len() {
                assert(rest[e] == (source, target));
                assert(before.contains(source));
                let w = choose|w: int| 0 <= w < before.len() && before[w] == source;
                assert(sources[w] == source);
            } else {
                assert(sources[before.len() as int] == source);
            }
        }
    }
}

/// The backward references are the forward references turned round: a
/// commit is referred to by just the commits that refer to it.
pub proof fn lemma_backward_is_forward_turned(commits: Seq<CommitView>, from: int, to: int)
    ensures
        backward_references(commits, to).contains(from) <==> 0 <= from < commits.len()
            && forward_references(commits, from).contains(to),
{
    let lists = all_forward_references(commits);
    lemma_sources_of(all_edges(lists), to, from);
    lemma_all_edges(lists, (from, to));
}

/// The places that abbreviated revision ids resolve to are places of
/// commits.
pub proof fn lemma_resolved_revisions_name_commits(
    commits: Seq<CommitView>,
    references: Seq<Seq<char>>,
)
    ensures
        forall|k: int|
            0 <= k < resolved_revisions(commits, references).len() ==> 0
                <= #[trigger] resolved_revisions(commits, references)[k] < commits.len(),
    decreases references.len(),
{
    if references.len() > 0 {
        lemma_resolved_revisions_name_commits(commits, references.drop_last());
        let before = resolved_revisions(commits, references.drop_last());
        let all = resolved_revisions(commits, references);
        assert forall|k: int| 0 <= k < all.len() implies 0 <= #[trigger] all[k]
            < commits.len() by {
            if k < before.len() {
                assert(all[k] == before[k]);
            } else {
                let i = lookup_revision(revisions_of(commits), references.last())->Ok_0;
                assert(all[k] == i);
                assert(is_match(revisions_of(commits), references.last(), i));
            }
        }
    }
}

/// The places that revisions of the origin system resolve to are places of
/// commits.
pub proof fn lemma_resolved_numbers_name_commits(commits: Seq<CommitView>, numbers: Seq<u32>)
    ensures
        forall|k: int|
            0 <= k < resolved_numbers(commits, numbers).len() ==> 0
                <= #[trigger] resolved_numbers(commits, numbers)[k] < commits.len(),
    decreases numbers.len(),
{
    if numbers.len() > 0 {
        lemma_resolved_numbers_name_commits(commits, numbers.drop_last());
        lemma_last_with_revision_bounds(commits, numbers.last());
        let before = resolved_numbers(commits, numbers.drop_last());
        let all = resolved_numbers(commits, numbers);
        assert forall|k: int| 0 <= k < all.len() implies 0 <= #[trigger] all[k]
            < commits.len() by {
            if k < before.len() {
                assert(all[k] == before[k]);
            }
        }
    }
}

/// No reference of the index leads nowhere: what a commit refers to, and
/// what refers to it, is a commit of the list.
pub proof fn lemma_references_name_commits(commits: Seq<CommitView>, i: int, other: int)
    requires
        0 <= i < commits.len(),
    ensures
        forward_references(commits, i).contains(other) ==> 0 <= other < commits.len(),
        backward_references(commits, i).contains(other) ==> 0 <= other < commits.len(),
{
    let named = commits[i].referenced_commits.git_commits;
    let numbers = commits[i].referenced_commits.svn_commits;
    lemma_resolved_revisions_name_commits(commits, named);
    lemma_resolved_numbers_name_commits(commits, numbers);
    let forward = forward_references(commits, i);
    if forward.contains(other) {
        let w = choose|w: int| 0 <= w < forward.len() && forward[w] == other;
        let first = resolved_revisions(commits, named);
        if w < first.len() {
            assert(first[w] == other);
        } else {
            assert(resolved_numbers(commits, numbers)[w - first.len()] == other);
        }
    }
    lemma_backward_is_forward_turned(commits, other, i);
}

/// The place of the commit that has the revision id `revision`, if there
/// is one.
pub open spec fn place_of(revisions: Seq<Seq<char>>, revision: Seq<char>) -> Option<int> {
    if exists|i: int| 0 <= i < revisions.len() && revisions[i] == revision {
        Some(choose|i: int| 0 <= i < revisions.len() && revisions[i] == revision)
    } else {
        None
    }
}

/// The numbers of `places` as integers.
pub open spec fn places(list: Seq<usize>) -> Seq<int> {
    Seq::new(list.len(), |k: int| list[k] as int)
}

/// The commits that the entries of a log describe have revision ids of
/// the length of a revision id.
pub proof fn lemma_parsed_entries_well_formed(
    patterns: crate::matching::Patterns,
    all_mentions: bool,
    entries: Seq<Seq<char>>,
)
    requires
        crate::collection::parse_entries(patterns, all_mentions, entries) is Ok,
    ensures
        revisions_well_formed(
            revisions_of(crate::collection::parse_entries(patterns, all_mentions, entries)->Ok_0),
        ),
    decreases entries.len(),
{
    if entries.len() > 0 {
        lemma_parsed_entries_well_formed(patterns, all_mentions, entries.drop_last());
        let before = crate::collection::parse_entries(
            patterns,
            all_mentions,
            entries.drop_last(),
        )->Ok_0;
        let commits = crate::collection::parse_entries(patterns, all_mentions, entries)->Ok_0;
        assert forall|i: int| 0 <= i < revisions_of(commits).len() implies byte_length(
            #[trigger] revisions_of(commits)[i],
        ) == SHA1_HASH_ASCII_LENGTH by {
            if i < before.len() {
                assert(revisions_of(commits)[i] == revisions_of(before)[i]);
            }
        }
    }
}

/// The commits of a log that was read have an index: their revision ids
/// have the length of a revision id, and none occurs twice.
pub proof fn lemma_parsed_log_has_index(
    patterns: crate::matching::Patterns,
    all_mentions: bool,
    log: Seq<char>,
)
    requires
        crate::collection::parse_log(patterns, all_mentions, log) is Ok,
    ensures
        revisions_well_formed(
            revisions_of(crate::collection::parse_log(patterns, all_mentions, log)->Ok_0),
        ),
        revisions_distinct(
            revisions_of(crate::collection::parse_log(patterns, all_mentions, log)->Ok_0),
        ),
{
    let entries = crate::collection::entries_of(log);
    lemma_parsed_entries_well_formed(patterns, all_mentions, entries);
    let commits = crate::collection::parse_log(patterns, all_mentions, log)->Ok_0;
    let revisions = revisions_of(commits);
    assert forall|i: int, j: int|
        0 <= i < revisions.len() && 0 <= j < revisions.len() && i != j implies #[trigger] revisions[i]
        != #[trigger] revisions[j] by {
        if revisions[i] == revisions[j] {
            if i < j {
                assert(crate::order::is_repeated(revisions, j));
                crate::order::lemma_first_repeated_exists(revisions, j);
            } else {
                assert(crate::order::is_repeated(revisions, i));
                crate::order::lemma_first_repeated_exists(revisions, i);
            }
        }
    }
}

/// A lookup by a whole revision id finds the commit that has it.
pub proof fn lemma_lookup_whole(revisions: Seq<Seq<char>>, i: int)
    requires
        revisions_well_formed(revisions),
        revisions_distinct(revisions),
        0 <= i < revisions.len(),
    ensures
        lookup_revision(revisions, revisions[i]) == Ok::<int, LookupError>(i),
{
    let partial = revisions[i];
    assert(partial.take(partial.len() as int) =~= partial);
    assert(is_match(revisions, partial, i));
    assert forall|j: int| is_match(revisions, partial, j) implies j == i by {
        lemma_same_byte_length_prefix(revisions[j], partial);
    }
}

/// A lookup by what exactly one revision id begins with finds the commit
/// that has it.
pub proof fn lemma_lookup_unique(revisions: Seq<Seq<char>>, partial: Seq<char>, i: int)
    requires
        is_match(revisions, partial, i),
        forall|j: int| is_match(revisions, partial, j) ==> j == i,
    ensures
        lookup_revision(revisions, partial) == Ok::<int, LookupError>(i),
{
}

/// A lookup by what no revision id begins with finds nothing.
pub proof fn lemma_lookup_unknown(revisions: Seq<Seq<char>>, partial: Seq<char>)
    requires
        forall|j: int| !is_match(revisions, partial, j),
    ensures
        lookup_revision(revisions, partial) == Err::<int, LookupError>(
            LookupError::UnknownRevision,
        ),
{
}

/// A lookup by what two revision ids begin with is ambiguous.
pub proof fn lemma_lookup_ambiguous(revisions: Seq<Seq<char>>, partial: Seq<char>, i: int, j: int)
    requires
        is_match(revisions, partial, i),
        is_match(revisions, partial, j),
        i != j,
    ensures
        lookup_revision(revisions, partial) == Err::<int, LookupError>(
            LookupError::AmbiguousPrefix,
        ),
{
    let found = choose|k: int| is_match(revisions, partial, k);
    if found == i {
        assert(j != found && is_match(revisions, partial, j));
    } else {
        assert(i != found && is_match(revisions, partial, i));
    }
}

/// Whether the keys that `order` names in turn go up.
pub open spec fn ascending(keys: Seq<Seq<char>>, order: Seq<usize>) -> bool {
    forall|a: int, b: int|
        0 <= a < b < order.len() ==> precedes(
            keys[#[trigger] order[a] as int],
            keys[#[trigger] order[b] as int],
        )
}

/// Finds the one key that begins with `partial`, by bisection of the
/// sorted order.
fn find_by_prefix(keys: &Vec<Vec<char>>, order: &Vec<usize>, partial: &[char]) -> (r: Result<
    usize,
    LookupError,
>)
    requires
        names_keys(order@, keys.len() as nat),
        names_all(order@, keys.len() as nat),
        ascending(views(keys@), order@),
    ensures
        match r {
            Ok(i) => lookup_revision(views(keys@), partial@) == Ok::<int, LookupError>(i as int),
            Err(e) => lookup_revision(views(keys@), partial@) == Err::<int, LookupError>(e),
        },
{
    let ghost texts = views(keys@);
    let mut low: usize = 0;
    let mut high: usize = order.len();
    while low < high
        invariant
            low <= high <= order.len(),
            texts == views(keys@),
            names_keys(order@, keys.len() as nat),
            ascending(texts, order@),
            forall|a: int| 0 <= a < low ==> precedes(texts[#[trigger] order[a] as int], partial@),
            forall|a: int|
                high <= a < order.len() ==> !precedes(texts[#[trigger] order[a] as int], partial@),
        decreases high - low,
    {
        let middle = low + (high - low) / 2;
        if stands_before(keys[order[middle]].as_slice(), partial) {
            assert forall|a: int| 0 <= a < middle + 1 implies precedes(
                texts[#[trigger] order[a] as int],
                partial@,
            ) by {
                if a < middle {
                    lemma_precedes_transitive(
                        texts[order[a] as int],
                        texts[order[middle as int] as int],
                        partial@,
                    );
                }
            }
            low = middle + 1;
        } else {
            assert forall|a: int| middle <= a < order.len() implies !precedes(
                texts[#[trigger] order[a] as int],
                partial@,
            ) by {
                if a > middle && precedes(texts[order[a] as int], partial@) {
                    lemma_precedes_transitive(
                        texts[order[middle as int] as int],
                        texts[order[a] as int],
                        partial@,
                    );
                }
            }
            high = middle;
        }
    }
    let at = low;
    // No key before `at` begins with `partial`, and a key from `at` on
    // begins with it only if the key at `at` does.
    assert forall|a: int| 0 <= a < at implies !starts_with(
        texts[#[trigger] order[a] as int],
        partial@,
    ) by {
        if starts_with(texts[order[a] as int], partial@) {
            lemma_prefix_not_after(texts[order[a] as int], partial@);
        }
    }
    if at == order.len() || !has_prefix(keys[order[at]].as_slice(), partial) {
        assert forall|i: int| !is_match(texts, partial@, i) by {
            if is_match(texts, partial@, i) {
                assert(order@.contains(i as usize));
                let a = choose|a: int| 0 <= a < order.len() && order[a] == i as usize;
                if a > at {
                    lemma_strictly_after(texts[order[at as int] as int], texts[order[a] as int]);
                    lemma_between_prefixed(
                        texts[order[at as int] as int],
                        texts[order[a] as int],
                        partial@,
                    );
                }
            }
        }
        return Err(LookupError::UnknownRevision);
    }
    let found = order[at];
    if at + 1 < order.len() && has_prefix(keys[order[at + 1]].as_slice(), partial) {
        let ghost other = order[at + 1];
        proof {
            lemma_precedes_irreflexive(texts[found as int]);
            lemma_lookup_ambiguous(texts, partial@, found as int, other as int);
        }
        return Err(LookupError::AmbiguousPrefix);
    }
    assert forall|i: int| is_match(texts, partial@, i) implies i == found by {
        assert(order@.contains(i as usize));
        let a = choose|a: int| 0 <= a < order.len() && order[a] == i as usize;
        if a > at + 1 {
            lemma_strictly_after(texts[order[at + 1] as int], texts[order[a] as int]);
            lemma_between_prefixed(texts[order[at + 1] as int], texts[order[a] as int], partial@);
        }
    }
    proof {
        lemma_lookup_unique(texts, partial@, found as int);
    }
    Ok(found)
}

/// What stands before another does not stand after it.
proof fn lemma_strictly_after(a: Seq<char>, b: Seq<char>)
    requires
        precedes(a, b),
    ensures
        !precedes(b, a),
{
    if precedes(b, a) {
        lemma_precedes_transitive(a, b, a);
        lemma_precedes_irreflexive(a);
    }
}

/// Whether `map` gives, for each revision number of the origin system, the
/// place of the last of `commits` that came from it.
pub open spec fn maps_revisions(map: Map<u32, usize>, commits: Seq<CommitView>) -> bool {
    forall|number: u32|
        match #[trigger] last_with_revision(commits, number) {
            Some(i) => map.contains_key(number) && map[number] == i,
            None => !map.contains_key(number),
        }
}

/// The place that a lookup by revision number finds is that of a commit.
pub proof fn lemma_last_with_revision_bounds(commits: Seq<CommitView>, number: u32)
    ensures
        match last_with_revision(commits, number) {
            Some(i) => 0 <= i < commits.len() && commits[i].svn_info is Some
                && commits[i].svn_info->0.svn_revision == number,
            None => forall|i: int|
                0 <= i < commits.len() ==> !((#[trigger] commits[i]).svn_info is Some
                    && commits[i].svn_info->0.svn_revision == number),
        },
    decreases commits.len(),
{
    if commits.len() > 0 {
        lemma_last_with_revision_bounds(commits.drop_last(), number);
        assert forall|i: int| 0 <= i < commits.len() - 1 implies commits.drop_last()[i]
            == commits[i] by {}
    }
}

/// The characters of each revision id, or the error of an id of the wrong
/// length.
fn read_keys(commits: &[Commit]) -> (r: Result<Vec<Vec<char>>, IndexError>)
    ensures
        match r {
            Ok(keys) => views(keys@) == revisions_of(commit_views(commits@))
                && revisions_well_formed(revisions_of(commit_views(commits@))),
            Err(e) => e == IndexError::MalformedRevision && !revisions_well_formed(
                revisions_of(commit_views(commits@)),
            ),
        },
{
    let ghost revisions = revisions_of(commit_views(commits@));
    let mut keys: Vec<Vec<char>> = Vec::new();
    let mut i: usize = 0;
    while i < commits.len()
        invariant
            i <= commits.len(),
            revisions == revisions_of(commit_views(commits@)),
            keys.len() == i,
            forall|k: int| 0 <= k < i ==> (#[trigger] keys[k])@ == revisions[k],
            forall|k: int|
                0 <= k < i ==> byte_length(#[trigger] revisions[k]) == SHA1_HASH_ASCII_LENGTH,
        decreases commits.len() - i,
    {
        let key = chars_of(commits[i].git_revision.as_str());
        assert(key@ == revisions[i as int]);
        if !has_byte_length(key.as_slice(), SHA1_HASH_ASCII_LENGTH) {
            return Err(IndexError::MalformedRevision);
        }
        keys.push(key);
        i += 1;
    }
    assert(views(keys@) =~= revisions);
    Ok(keys)
}

/// The places of the keys in the order of a dictionary, or the error of a
/// key that occurs twice.
fn distinct_sorted_places(keys: &Vec<Vec<char>>) -> (r: Result<Vec<usize>, IndexError>)
    ensures
        match r {
            Ok(order) => {
                &&& names_keys(order@, keys.len() as nat)
                &&& names_all(order@, keys.len() as nat)
                &&& ascending(views(keys@), order@)
                &&& revisions_distinct(views(keys@))
            },
            Err(e) => e == IndexError::DuplicateRevision && !revisions_distinct(views(keys@)),
        },
{
    let ghost texts = views(keys@);
    let order = crate::order::sorted_places(keys);
    let mut a: usize = 0;
    while a < order.len() && a + 1 < order.len()
        invariant
            a <= order.len(),
            texts == views(keys@),
            names_keys(order@, keys.len() as nat),
            in_order(texts, order@),
            order@.no_duplicates(),
            forall|x: int, y: int|
                0 <= x < y <= a && y < order.len() ==> precedes(
                    texts[#[trigger] order[x] as int],
                    texts[#[trigger] order[y] as int],
                ),
        decreases order.len() - a,
    {
        let ghost low = texts[order[a as int] as int];
        let ghost high = texts[order[a + 1] as int];
        if !stands_before(keys[order[a]].as_slice(), keys[order[a + 1]].as_slice()) {
            proof {
                if low != high {
                    lemma_precedes_total(low, high);
                }
                assert(order[a as int] != order[a + 1]);
            }
            return Err(IndexError::DuplicateRevision);
        }
        assert forall|x: int, y: int| 0 <= x < y <= a + 1 && y < order.len() implies precedes(
            texts[#[trigger] order[x] as int],
            texts[#[trigger] order[y] as int],
        ) by {
            if y == a + 1 && x < a {
                lemma_precedes_transitive(texts[order[x] as int], low, high);
            }
        }
        a += 1;
    }
    assert forall|i: int, j: int|
        0 <= i < texts.len() && 0 <= j < texts.len() && i != j implies #[trigger] texts[i]
        != #[trigger] texts[j] by {
        assert(order@.contains(i as usize));
        assert(order@.contains(j as usize));
        let x = choose|x: int| 0 <= x < order.len() && order[x] == i as usize;
        let y = choose|y: int| 0 <= y < order.len() && order[y] == j as usize;
        lemma_precedes_irreflexive(texts[i]);
        if x < y {
            assert(precedes(texts[order[x] as int], texts[order[y] as int]));
        } else {
            assert(precedes(texts[order[y] as int], texts[order[x] as int]));
        }
    }
    Ok(order)
}

/// The map from each revision number of the origin system to the place of
/// the last commit that came from it.
fn map_revisions(commits: &[Commit]) -> (r: HashMap<u32, usize>)
    ensures
        maps_revisions(r@, commit_views(commits@)),
{
    broadcast use vstd::std_specs::hash::group_hash_axioms;

    let ghost all = commit_views(commits@);
    let mut map: HashMap<u32, usize> = HashMap::new();
    let mut i: usize = 0;
    assert(all.take(0) =~= Seq::empty());
    while i < commits.len()
        invariant
            i <= commits.len(),
            all == commit_views(commits@),
            maps_revisions(map@, all.take(i as int)),
        decreases commits.len() - i,
    {
        assert(all.take(i + 1).drop_last() =~= all.take(i as int));
        assert(all.take(i + 1).last() == commits[i as int]@);
        match &commits[i].svn_info {
            Some(info) => {
                map.insert(info.svn_revision, i);
                assert forall|number: u32|
                    match #[trigger] last_with_revision(all.take(i + 1), number) {
                        Some(k) => map@.contains_key(number) && map@[number] == k,
                        None => !map@.contains_key(number),
                    } by {
                    if number != info.svn_revision {
                        assert(last_with_revision(all.take(i + 1), number) == last_with_revision(
                            all.take(i as int),
                            number,
                        ));
                    }
                }
            },
            None => {
                assert forall|number: u32|
                    match #[trigger] last_with_revision(all.take(i + 1), number) {
                        Some(k) => map@.contains_key(number) && map@[number] == k,
                        None => !map@.contains_key(number),
                    } by {
                    assert(last_with_revision(all.take(i + 1), number) == last_with_revision(
                        all.take(i as int),
                        number,
                    ));
                }
            },
        }
        i += 1;
    }
    assert(all.take(commits.len() as int) =~= all);
    map
}

/// The places of the commits that one commit refers to.
fn resolve_references(
    commits: &[Commit],
    keys: &Vec<Vec<char>>,
    order: &Vec<usize>,
    by_origin: &HashMap<u32, usize>,
    i: usize,
) -> (r: Vec<usize>)
    requires
        i < commits.len(),
        views(keys@) == revisions_of(commit_views(commits@)),
        names_keys(order@, keys.len() as nat),
        names_all(order@, keys.len() as nat),
        ascending(views(keys@), order@),
        maps_revisions(by_origin@, commit_views(commits@)),
    ensures
        places(r@) == forward_references(commit_views(commits@), i as int),
        names_keys(r@, commits.len() as nat),
{
    broadcast use vstd::std_specs::hash::group_hash_axioms;

    let ghost all = commit_views(commits@);
    let commit = &commits[i];
    let ghost named = all[i as int].referenced_commits.git_commits;
    let ghost numbers = all[i as int].referenced_commits.svn_commits;
    assert(named == commit.referenced_commits.git_commits.deep_view());
    assert(views(keys@).len() == keys.len());
    assert(revisions_of(all).len() == commits.len());
    let mut out: Vec<usize> = Vec::new();
    let mut k: usize = 0;
    assert(named.take(0) =~= Seq::empty());
    assert(places(out@) =~= Seq::empty());
    while k < commit.referenced_commits.git_commits.len()
        invariant
            k <= commit.referenced_commits.git_commits.len(),
            all == commit_views(commits@),
            named == commit.referenced_commits.git_commits.deep_view(),
            views(keys@) == revisions_of(all),
            keys.len() == commits.len(),
            names_keys(order@, keys.len() as nat),
            names_all(order@, keys.len() as nat),
            ascending(views(keys@), order@),
            places(out@) == resolved_revisions(all, named.take(k as int)),
            names_keys(out@, commits.len() as nat),
        decreases commit.referenced_commits.git_commits.len() - k,
    {
        let reference = chars_of(commit.referenced_commits.git_commits[k].as_str());
        assert(named.take(k + 1).drop_last() =~= named.take(k as int));
        assert(named.take(k + 1).last() == reference@);
        let ghost before = places(out@);
        match find_by_prefix(keys, order, reference.as_slice()) {
            Ok(j) => {
                out.push(j);
                assert(places(out@) =~= before.push(j as int));
            },
            Err(_) => {},
        }
        k += 1;
    }
    assert(named.take(named.len() as int) =~= named);
    let ghost first = places(out@);
    let mut k: usize = 0;
    assert(numbers.take(0) =~= Seq::empty());
    assert(first + Seq::<int>::empty() =~= first);
    while k < commit.referenced_commits.svn_commits.len()
        invariant
            k <= commit.referenced_commits.svn_commits.len(),
            all == commit_views(commits@),
            numbers == commit.referenced_commits.svn_commits@,
            maps_revisions(by_origin@, all),
            places(out@) == first + resolved_numbers(all, numbers.take(k as int)),
            names_keys(out@, commits.len() as nat),
        decreases commit.referenced_commits.svn_commits.len() - k,
    {
        let number = commit.referenced_commits.svn_commits[k];
        assert(numbers.take(k + 1).drop_last() =~= numbers.take(k as int));
        assert(numbers.take(k + 1).last() == number);
        let ghost before = places(out@);
        proof {
            lemma_last_with_revision_bounds(all, number);
        }
        match by_origin.get(&number) {
            Some(j) => {
                out.push(*j);
                assert(places(out@) =~= before.push(*j as int));
                assert(places(out@) =~= first + resolved_numbers(all, numbers.take(k + 1)));
            },
            None => {},
        }
        k += 1;
    }
    assert(numbers.take(numbers.len() as int) =~= numbers);
    out
}

/// The forward references of every commit.
fn resolve_all_references(
    commits: &[Commit],
    keys: &Vec<Vec<char>>,
    order: &Vec<usize>,
    by_origin: &HashMap<u32, usize>,
) -> (r: Vec<Vec<usize>>)
    requires
        views(keys@) == revisions_of(commit_views(commits@)),
        names_keys(order@, keys.len() as nat),
        names_all(order@, keys.len() as nat),
        ascending(views(keys@), order@),
        maps_revisions(by_origin@, commit_views(commits@)),
    ensures
        r.len() == commits.len(),
        forall|i: int|
            0 <= i < r.len() ==> places((#[trigger] r[i])@) == forward_references(
                commit_views(commits@),
                i,
            ),
        forall|i: int| 0 <= i < r.len() ==> names_keys((#[trigger] r[i])@, commits.len() as nat),
{
    let mut out: Vec<Vec<usize>> = Vec::new();
    let mut i: usize = 0;
    while i < commits.len()
        invariant
            i <= commits.len(),
            out.len() == i,
            views(keys@) == revisions_of(commit_views(commits@)),
            names_keys(order@, keys.len() as nat),
            names_all(order@, keys.len() as nat),
            ascending(views(keys@), order@),
            maps_revisions(by_origin@, commit_views(commits@)),
            forall|k: int|
                0 <= k < i ==> places((#[trigger] out[k])@) == forward_references(
                    commit_views(commits@),
                    k,
                ),
            forall|k: int| 0 <= k < i ==> names_keys((#[trigger] out[k])@, commits.len() as nat),
        decreases commits.len() - i,
    {
        out.push(resolve_references(commits, keys, order, by_origin, i));
        i += 1;
    }
    out
}

/// The references of the first `i` lists and of the first `k` entries of
/// the list after them.
pub open spec fn edges_until(lists: Seq<Seq<int>>, i: int, k: int) -> Seq<(int, int)> {
    all_edges(lists.take(i)) + edges_from(lists[i].take(k), i)
}

/// The backward references of every commit, from the forward references.
fn invert_references(forward: &Vec<Vec<usize>>) -> (r: Vec<Vec<usize>>)
    requires
        forall|i: int|
            0 <= i < forward.len() ==> names_keys((#[trigger] forward[i])@, forward.len() as nat),
    ensures
        r.len() == forward.len(),
        forall|t: int|
            0 <= t < r.len() ==> places((#[trigger] r[t])@) == sources_of(
                all_edges(Seq::new(forward.len() as nat, |i: int| places(forward[i]@))),
                t,
            ),
        forall|t: int| 0 <= t < r.len() ==> names_keys((#[trigger] r[t])@, forward.len() as nat),
{
    let n = forward.len();
    let ghost lists = Seq::new(n as nat, |i: int| places(forward[i]@));
    let mut out: Vec<Vec<usize>> = Vec::new();
    let mut t: usize = 0;
    while t < n
        invariant
            t <= n,
            out.len() == t,
            forall|x: int| 0 <= x < t ==> (#[trigger] out[x])@.len() == 0,
        decreases n - t,
    {
        out.push(Vec::new());
        t += 1;
    }
    let mut i: usize = 0;
    assert(lists.take(0) =~= Seq::empty());
    assert forall|x: int| 0 <= x < n implies places((#[trigger] out[x])@) == sources_of(
        all_edges(lists.take(0)),
        x,
    ) by {
        assert(places(out[x]@) =~= Seq::empty());
    }
    while i < n
        invariant
            i <= n,
            n == forward.len(),
            out.len() == n,
            lists == Seq::new(n as nat, |i: int| places(forward[i]@)),
            forall|x: int|
                0 <= x < forward.len() ==> names_keys((#[trigger] forward[x])@, n as nat),
            forall|x: int|
                0 <= x < n ==> places((#[trigger] out[x])@) == sources_of(
                    all_edges(lists.take(i as int)),
                    x,
                ),
            forall|x: int| 0 <= x < n ==> names_keys((#[trigger] out[x])@, n as nat),
        decreases n - i,
    {
        let list = &forward[i];
        let mut k: usize = 0;
        assert(lists[i as int].take(0) =~= Seq::empty());
        assert(edges_until(lists, i as int, 0) =~= all_edges(lists.take(i as int)));
        while k < list.len()
            invariant
                k <= list.len(),
                i < n,
                n == forward.len(),
                out.len() == n,
                list == forward[i as int],
                lists == Seq::new(n as nat, |i: int| places(forward[i]@)),
                names_keys(list@, n as nat),
                forall|x: int|
                    0 <= x < n ==> places((#[trigger] out[x])@) == sources_of(
                        edges_until(lists, i as int, k as int),
                        x,
                    ),
                forall|x: int| 0 <= x < n ==> names_keys((#[trigger] out[x])@, n as nat),
            decreases list.len() - k,
        {
            let target = list[k];
            let ghost edges = edges_until(lists, i as int, k as int);
            let ghost old_out = out@;
            proof {
                let targets = lists[i as int];
                assert(targets[k as int] == target as int);
                assert(targets.take(k + 1).drop_last() =~= targets.take(k as int));
                assert(edges_until(lists, i as int, k + 1) =~= edges.push(
                    (i as int, target as int),
                ));
                assert(edges.push((i as int, target as int)).drop_last() =~= edges);
            }
            out[target].push(i);
            assert forall|x: int| 0 <= x < n implies places((#[trigger] out[x])@) == sources_of(
                edges_until(lists, i as int, k + 1),
                x,
            ) by {
                if x == target {
                    assert(places(out[x]@) =~= places(old_out[x]@).push(i as int));
                } else {
                    assert(out[x] == old_out[x]);
                }
            }
            k += 1;
        }
        proof {
            let targets = lists[i as int];
            assert(targets.take(targets.len() as int) =~= targets);
            assert(lists.take(i + 1).drop_last() =~= lists.take(i as int));
            assert(lists.take(i + 1).last() == targets);
            assert(edges_until(lists, i as int, list.len() as int) =~= all_edges(
                lists.take(i + 1),
            ));
        }
        i += 1;
    }
    assert(lists.take(n as int) =~= lists);
    out
}

/// Whether `c` is one of the letters among the hexadecimal digits.
pub open spec fn is_hex_letter(c: char) -> bool {
    ('a' <= c <= 'f') || ('A' <= c <= 'F')
}

/// Whether `s` is one character, once or over and over.
pub open spec fn is_repeated_char(s: Seq<char>) -> bool {
    s.len() > 0 && forall|i: int| 0 <= i < s.len() ==> #[trigger] s[i] == s[0]
}

/// Whether a text that looks like a reference to a commit is likely to be
/// meant as one: it holds a letter among its hexadecimal digits, and it is
/// not one character over and over.
pub open spec fn likely_real_revision(s: Seq<char>) -> bool {
    (exists|i: int| 0 <= i < s.len() && is_hex_letter(#[trigger] s[i])) && !is_repeated_char(s)
}

/// Tells whether a text that names no commit is likely to have been meant
/// as a reference to one, so that it is worth a warning.
pub fn is_likely_a_real_git_revision(potential_git_revision: &str) -> (r: bool)
    ensures
        r == likely_real_revision(potential_git_revision@),
{
    let chars = chars_of(potential_git_revision);
    let mut has_letter = false;
    let mut repeated = chars.len() > 0;
    let mut i: usize = 0;
    while i < chars.len()
        invariant
            i <= chars.len(),
            has_letter <==> exists|k: int| 0 <= k < i && is_hex_letter(#[trigger] chars@[k]),
            repeated <==> chars.len() > 0 && forall|k: int|
                0 <= k < i ==> #[trigger] chars@[k] == chars@[0],
        decreases chars.len() - i,
    {
        let c = chars[i];
        if ('a' <= c && c <= 'f') || ('A' <= c && c <= 'F') {
            has_letter = true;
        }
        if c != chars[0] {
            repeated = false;
        }
        i += 1;
    }
    has_letter && !repeated
}

/// The references among `references` that name no commit, or more than
/// one.
pub open spec fn unresolved_revisions(commits: Seq<CommitView>, references: Seq<Seq<char>>) -> Seq<
    Seq<char>,
>
    decreases references.len(),
{
    if references.len() == 0 {
        Seq::empty()
    } else {
        let before = unresolved_revisions(commits, references.drop_last());
        match lookup_revision(revisions_of(commits), references.last()) {
            Ok(_) => before,
            Err(_) => before.push(references.last()),
        }
    }
}

/// The revisions of the origin system among `numbers` that no commit came
/// from.
pub open spec fn unresolved_numbers(commits: Seq<CommitView>, numbers: Seq<u32>) -> Seq<u32>
    decreases numbers.len(),
{
    if numbers.len() == 0 {
        Seq::empty()
    } else {
        let before = unresolved_numbers(commits, numbers.drop_last());
        match last_with_revision(commits, numbers.last()) {
            Some(_) => before,
            None => before.push(numbers.last()),
        }
    }
}

/// The references of a commit that lead to no commit. They are left out of
/// the index; that is no error, since a message is free text.
#[derive(Debug)]
pub struct UnresolvedReferences {
    /// The revision ids that name no commit, or more than one.
    pub git_commits: Vec<String>,
    /// The revisions of the origin system that no commit came from.
    pub svn_commits: Vec<u32>,
}

/// Whether `list` holds, in order, the commits at `places`.
pub open spec fn holds_commits(list: Seq<&Commit>, places: Seq<int>, commits: Seq<Commit>) -> bool {
    &&& list.len() == places.len()
    &&& forall|k: int|
        0 <= k < places.len() ==> 0 <= #[trigger] places[k] < commits.len() && *list[k]
            == commits[places[k]]
}

/// The index over a list of commits. It is built once and not changed
/// after that.
#[derive(Debug)]
pub struct Index<'a> {
    commits: &'a [Commit],
    keys: Vec<Vec<char>>,
    order: Vec<usize>,
    by_origin: HashMap<u32, usize>,
    forward: Vec<Vec<usize>>,
    backward: Vec<Vec<usize>>,
}

impl<'a> Index<'a> {
    #[verifier::type_invariant]
    spec fn well_formed(self) -> bool {
        let all = commit_views(self.commits@);
        let n = self.commits.len();
        &&& self.keys.len() == n
        &&& views(self.keys@) == revisions_of(all)
        &&& revisions_well_formed(revisions_of(all))
        &&& revisions_distinct(revisions_of(all))
        &&& names_keys(self.order@, n as nat)
        &&& names_all(self.order@, n as nat)
        &&& ascending(views(self.keys@), self.order@)
        &&& maps_revisions(self.by_origin@, all)
        &&& self.forward.len() == n
        &&& self.backward.len() == n
        &&& forall|i: int|
            0 <= i < n ==> places((#[trigger] self.forward[i])@) == forward_references(all, i)
        &&& forall|i: int|
            0 <= i < n ==> places((#[trigger] self.backward[i])@) == backward_references(all, i)
        &&& forall|i: int| 0 <= i < n ==> names_keys((#[trigger] self.forward[i])@, n as nat)
        &&& forall|i: int| 0 <= i < n ==> names_keys((#[trigger] self.backward[i])@, n as nat)
    }

    /// The commits that the index is over.
    pub closed spec fn commits(&self) -> Seq<Commit> {
        self.commits@
    }

    /// What the commits of the index hold.
    pub open spec fn views(&self) -> Seq<CommitView> {
        commit_views(self.commits())
    }

    /// The revision ids of the commits of the index.
    pub open spec fn revisions(&self) -> Seq<Seq<char>> {
        revisions_of(self.views())
    }

    /// Builds the index over `commits`. It fails where a revision id has
    /// not the length of a revision id, and where two commits have the
    /// same revision id.
    pub fn new(commits: &'a [Commit]) -> (r: Result<Index<'a>, IndexError>)
        ensures
            match r {
                Ok(index) => {
                    &&& index.commits() == commits@
                    &&& revisions_well_formed(revisions_of(commit_views(commits@)))
                    &&& revisions_distinct(revisions_of(commit_views(commits@)))
                },
                Err(IndexError::MalformedRevision) => !revisions_well_formed(
                    revisions_of(commit_views(commits@)),
                ),
                Err(IndexError::DuplicateRevision) => revisions_well_formed(
                    revisions_of(commit_views(commits@)),
                ) && !revisions_distinct(revisions_of(commit_views(commits@))),
            },
    {
        let keys = match read_keys(commits) {
            Ok(keys) => keys,
            Err(e) => {
                return Err(e);
            },
        };
        let order = match distinct_sorted_places(&keys) {
            Ok(order) => order,
            Err(e) => {
                return Err(e);
            },
        };
        let by_origin = map_revisions(commits);
        let forward = resolve_all_references(commits, &keys, &order, &by_origin);
        let backward = invert_references(&forward);
        proof {
            let all = commit_views(commits@);
            assert(views(keys@).len() == keys.len());
            assert(revisions_of(all).len() == commits.len());
            let lists = Seq::new(forward.len() as nat, |i: int| places(forward[i]@));
            assert(lists =~= all_forward_references(all));
        }
        Ok(Index { commits, keys, order, by_origin, forward, backward })
    }

    /// The number of commits.
    pub fn len(&self) -> (n: usize)
        ensures
            n == self.commits().len(),
    {
        self.commits.len()
    }

    /// The commit at place `i`.
    pub fn commit_at(&self, i: usize) -> (commit: &'a Commit)
        requires
            i < self.commits().len(),
        ensures
            *commit == self.commits()[i as int],
    {
        &self.commits[i]
    }

    /// The place of the one commit whose revision id begins with
    /// `partial_revision`.
    pub fn place_of_revision(&self, partial_revision: &str) -> (r: Result<usize, LookupError>)
        ensures
            match r {
                Ok(i) => lookup_revision(self.revisions(), partial_revision@) == Ok::<
                    int,
                    LookupError,
                >(i as int) && i < self.commits().len(),
                Err(e) => lookup_revision(self.revisions(), partial_revision@) == Err::<
                    int,
                    LookupError,
                >(e),
            },
    {
        proof {
            use_type_invariant(self);
        }
        let partial = chars_of(partial_revision);
        let r = find_by_prefix(&self.keys, &self.order, partial.as_slice());
        proof {
            if let Ok(i) = r {
                assert(is_match(self.revisions(), partial_revision@, i as int));
            }
        }
        r
    }

    /// Finds the one commit whose revision id begins with
    /// `partial_revision`. The search goes by bisection of the sorted
    /// revision ids, not through all of them.
    pub fn lookup_git_revision(&self, partial_revision: &str) -> (r: Result<&'a Commit, LookupError>)
        ensures
            match lookup_revision(self.revisions(), partial_revision@) {
                Ok(i) => {
                    &&& 0 <= i < self.commits().len()
                    &&& r matches Ok(commit)
                    &&& *commit == self.commits()[i]
                },
                Err(e) => {
                    &&& r matches Err(f)
                    &&& f == e
                },
            },
    {
        match self.place_of_revision(partial_revision) {
            Ok(i) => Ok(self.commit_at(i)),
            Err(e) => Err(e),
        }
    }

    /// The place of the last commit that came from revision `svn_revision`
    /// of the origin system.
    pub fn place_of_origin_revision(&self, svn_revision: u32) -> (r: Option<usize>)
        ensures
            match r {
                Some(i) => last_with_revision(self.views(), svn_revision) == Some(i as int) && i
                    < self.commits().len(),
                None => last_with_revision(self.views(), svn_revision) is None,
            },
    {
        broadcast use vstd::std_specs::hash::group_hash_axioms;

        proof {
            use_type_invariant(self);
            lemma_last_with_revision_bounds(self.views(), svn_revision);
        }
        match self.by_origin.get(&svn_revision) {
            Some(i) => Some(*i),
            None => None,
        }
    }

    /// Finds the last commit that came from revision `svn_revision` of the
    /// origin system.
    pub fn lookup_svn_revision(&self, svn_revision: u32) -> (r: Result<&'a Commit, LookupError>)
        ensures
            match last_with_revision(self.views(), svn_revision) {
                Some(i) => {
                    &&& 0 <= i < self.commits().len()
                    &&& r matches Ok(commit)
                    &&& *commit == self.commits()[i]
                },
                None => {
                    &&& r matches Err(e)
                    &&& e == LookupError::UnknownRevision
                },
            },
    {
        match self.place_of_origin_revision(svn_revision) {
            Some(i) => Ok(self.commit_at(i)),
            None => Err(LookupError::UnknownRevision),
        }
    }

    /// The place of the commit that has the revision id of `commit`.
    pub fn place_of_commit(&self, commit: &Commit) -> (r: Option<usize>)
        ensures
            match r {
                Some(i) => place_of(self.revisions(), commit.git_revision@) == Some(i as int) && i
                    < self.commits().len(),
                None => place_of(self.revisions(), commit.git_revision@) is None,
            },
    {
        proof {
            use_type_invariant(self);
        }
        let revision = chars_of(commit.git_revision.as_str());
        let ghost revisions = self.revisions();
        match find_by_prefix(&self.keys, &self.order, revision.as_slice()) {
            Ok(i) => {
                assert(is_match(revisions, revision@, i as int));
                if same_chars(self.keys[i].as_slice(), revision.as_slice()) {
                    assert(revisions[i as int] == revision@);
                    Some(i)
                } else {
                    assert forall|j: int| 0 <= j < revisions.len() implies revisions[j]
                        != revision@ by {
                        if revisions[j] == revision@ {
                            assert(revision@.take(revision@.len() as int) =~= revision@);
                            assert(is_match(revisions, revision@, j));
                        }
                    }
                    None
                }
            },
            Err(_) => {
                assert forall|j: int| 0 <= j < revisions.len() implies revisions[j]
                    != revision@ by {
                    if revisions[j] == revision@ {
                        lemma_lookup_whole(revisions, j);
                    }
                }
                None
            },
        }
    }

    /// The places of the commits that the commit at `i` refers to.
    pub fn references_from(&self, i: usize) -> (r: &Vec<usize>)
        requires
            i < self.commits().len(),
        ensures
            places(r@) == forward_references(self.views(), i as int),
            names_keys(r@, self.commits().len()),
    {
        proof {
            use_type_invariant(self);
        }
        &self.forward[i]
    }

    /// The places of the commits that refer to the commit at `i`.
    pub fn references_to(&self, i: usize) -> (r: &Vec<usize>)
        requires
            i < self.commits().len(),
        ensures
            places(r@) == backward_references(self.views(), i as int),
            names_keys(r@, self.commits().len()),
    {
        proof {
            use_type_invariant(self);
        }
        &self.backward[i]
    }

    /// The references of the commit at `i` that lead to no commit.
    pub fn unresolved_references(&self, i: usize) -> (r: UnresolvedReferences)
        requires
            i < self.commits().len(),
        ensures
            r.git_commits.deep_view() == unresolved_revisions(
                self.views(),
                self.views()[i as int].referenced_commits.git_commits,
            ),
            r.svn_commits@ == unresolved_numbers(
                self.views(),
                self.views()[i as int].referenced_commits.svn_commits,
            ),
    {
        let ghost all = self.views();
        let commit = self.commit_at(i);
        let ghost named = commit.referenced_commits.git_commits.deep_view();
        let ghost numbers = commit.referenced_commits.svn_commits@;
        let mut git_commits: Vec<String> = Vec::new();
        let mut k: usize = 0;
        assert(named.take(0) =~= Seq::empty());
        assert(git_commits.deep_view() =~= Seq::empty());
        while k < commit.referenced_commits.git_commits.len()
            invariant
                k <= commit.referenced_commits.git_commits.len(),
                all == self.views(),
                named == commit.referenced_commits.git_commits.deep_view(),
                git_commits.deep_view() == unresolved_revisions(all, named.take(k as int)),
            decreases commit.referenced_commits.git_commits.len() - k,
        {
            let reference = &commit.referenced_commits.git_commits[k];
            assert(named.take(k + 1).drop_last() =~= named.take(k as int));
            assert(named.take(k + 1).last() == reference@);
            if self.place_of_revision(reference.as_str()).is_err() {
                let ghost before = git_commits.deep_view();
                git_commits.push(reference.clone());
                assert(git_commits.deep_view() =~= before.push(reference@));
            }
            k += 1;
        }
        assert(named.take(named.len() as int) =~= named);
        let mut svn_commits: Vec<u32> = Vec::new();
        let mut k: usize = 0;
        assert(numbers.take(0) =~= Seq::empty());
        while k < commit.referenced_commits.svn_commits.len()
            invariant
                k <= commit.referenced_commits.svn_commits.len(),
                all == self.views(),
                numbers == commit.referenced_commits.svn_commits@,
                svn_commits@ == unresolved_numbers(all, numbers.take(k as int)),
            decreases commit.referenced_commits.svn_commits.len() - k,
        {
            let number = commit.referenced_commits.svn_commits[k];
            assert(numbers.take(k + 1).drop_last() =~= numbers.take(k as int));
            assert(numbers.take(k + 1).last() == number);
            if self.place_of_origin_revision(number).is_none() {
                svn_commits.push(number);
            }
            k += 1;
        }
        assert(numbers.take(numbers.len() as int) =~= numbers);
        UnresolvedReferences { git_commits, svn_commits }
    }

    /// The commits at the places in `list`.
    fn commits_at(&self, list: &Vec<usize>) -> (r: Vec<&'a Commit>)
        requires
            names_keys(list@, self.commits().len()),
        ensures
            holds_commits(r@, places(list@), self.commits()),
    {
        let mut out: Vec<&'a Commit> = Vec::new();
        let mut k: usize = 0;
        while k < list.len()
            invariant
                k <= list.len(),
                names_keys(list@, self.commits().len()),
                out.len() == k,
                forall|x: int| 0 <= x < k ==> *out[x] == self.commits()[list[x] as int],
            decreases list.len() - k,
        {
            out.push(self.commit_at(list[k]));
            k += 1;
        }
        out
    }

    /// The commits that `commit` refers to, in the order of its
    /// references; none where the index has no commit with its revision
    /// id.
    pub fn get_commit_forward_references(&self, commit: &'a Commit) -> (r: Vec<&'a Commit>)
        ensures
            match place_of(self.revisions(), commit.git_revision@) {
                Some(i) => holds_commits(r@, forward_references(self.views(), i), self.commits()),
                None => r.len() == 0,
            },
    {
        match self.place_of_commit(commit) {
            Some(i) => self.commits_at(self.references_from(i)),
            None => Vec::new(),
        }
    }

    /// The commits that refer to `commit`, the earliest first; none where
    /// the index has no commit with its revision id.
    pub fn get_commit_backward_references(&self, commit: &'a Commit) -> (r: Vec<&'a Commit>)
        ensures
            match place_of(self.revisions(), commit.git_revision@) {
                Some(i) => holds_commits(r@, backward_references(self.views(), i), self.commits()),
                None => r.len() == 0,
            },
    {
        match self.place_of_commit(commit) {
            Some(i) => self.commits_at(self.references_to(i)),
            None => Vec::new(),
        }
    }
}

} // verus!
