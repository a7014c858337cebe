//! The results as text: the lines that show commits, forests of commits
//! and tickets.

use crate::collection::{Commit, CommitView};
use crate::compare::{
    ticket_text, SharedTicket, SharedTicketView, TicketGroup, TicketGroupView,
};
use crate::search::{lemma_contents, IncludedCommit, IncludedCommitView};
use crate::text::{abbreviated, append, chars_of, decimal_chars, decimal_text, string_of};
use vstd::prelude::*;

verus! {

/// What stands for the ticket of the commits that name none.
pub const NO_JIRA_TICKET_STR: &'static str = "*No Jira Ticket*";

/// What marks a commit that is a likely merge.
pub const MERGE_COMMIT_MARKER_STR: &'static str = " (M)";

/// `n` tabs.
pub open spec fn tabs(n: nat) -> Seq<char> {
    Seq::new(n, |i: int| '\t')
}

/// The line that shows a commit: after `indentation` tabs its revision id,
/// cut to `hash_length` characters, and the mark of a likely merge where
/// it is one.
pub open spec fn commit_line(commit: CommitView, indentation: nat, hash_length: nat) -> Seq<char> {
    tabs(indentation) + "- `"@ + abbreviated(commit.git_revision, hash_length) + "`"@ + (if commit.is_likely_a_merge {
        MERGE_COMMIT_MARKER_STR@
    } else {
        Seq::<char>::empty()
    }) + "\n"@
}

/// The lines that show commits, one for each.
pub open spec fn commit_lines(commits: Seq<CommitView>, indentation: nat, hash_length: nat) -> Seq<
    char,
>
    decreases commits.len(),
{
    if commits.len() == 0 {
        Seq::empty()
    } else {
        commit_lines(commits.drop_last(), indentation, hash_length) + commit_line(
            commits.last(),
            indentation,
            hash_length,
        )
    }
}

/// The indentation one step deeper. It grows no more at the largest
/// number that it can hold.
pub open spec fn deeper(indentation: u32) -> u32 {
    if indentation < u32::MAX {
        (indentation + 1) as u32
    } else {
        indentation
    }
}

/// The lines that show a tree: the line of its commit, then the lines of
/// the commits linked to it, one step deeper.
pub open spec fn tree_text(tree: IncludedCommitView, indentation: u32, hash_length: nat) -> Seq<
    char,
>
    decreases tree,
{
    commit_line(tree.commit@, indentation as nat, hash_length) + forest_text(
        tree.linked,
        deeper(indentation),
        hash_length,
    )
}

/// The lines that show a forest, tree by tree.
pub open spec fn forest_text(forest: Seq<IncludedCommitView>, indentation: u32, hash_length: nat) -> Seq<
    char,
>
    decreases forest,
{
    if forest.len() == 0 {
        Seq::empty()
    } else {
        forest_text(forest.drop_last(), indentation, hash_length) + tree_text(
            forest.last(),
            indentation,
            hash_length,
        )
    }
}

/// Writes the line that shows a commit.
fn write_commit_line(out: &mut Vec<char>, commit: &Commit, indentation: u32, hash_length: usize)
    ensures
        final(out)@ == old(out)@ + commit_line(commit@, indentation as nat, hash_length as nat),
{
    let ghost start = out@;
    let mut i: u32 = 0;
    assert(start + tabs(0) =~= start);
    while i < indentation
        invariant
            i <= indentation,
            out@ == start + tabs(i as nat),
        decreases indentation - i,
    {
        out.push('\t');
        i += 1;
        assert(out@ =~= start + tabs(i as nat));
    }
    let revision = chars_of(commit.git_revision.as_str());
    let cut = if hash_length < revision.len() {
        hash_length
    } else {
        revision.len()
    };
    let short = crate::text::copy_range(revision.as_slice(), 0, cut);
    assert(short@ =~= abbreviated(revision@, hash_length as nat));
    append(out, chars_of("- `").as_slice());
    append(out, short.as_slice());
    append(out, chars_of("`").as_slice());
    if commit.is_likely_a_merge {
        append(out, chars_of(MERGE_COMMIT_MARKER_STR).as_slice());
    } else {
        assert(out@ + Seq::<char>::empty() =~= out@);
    }
    append(out, chars_of("\n").as_slice());
    assert(out@ =~= start + commit_line(commit@, indentation as nat, hash_length as nat));
}

/// What each commit that `list` refers to holds.
pub open spec fn referred_commit_views(list: Seq<&Commit>) -> Seq<CommitView> {
    Seq::new(list.len(), |k: int| list[k]@)
}

/// The lines that show a set of commits, one for each.
pub fn display_commit_set(commits: &[&Commit], indentation: u32, hash_length: usize) -> (r: String)
    ensures
        r@ == commit_lines(
            referred_commit_views(commits@),
            indentation as nat,
            hash_length as nat,
        ),
{
    let ghost all = referred_commit_views(commits@);
    let mut out: Vec<char> = Vec::new();
    let mut k: usize = 0;
    assert(all.take(0) =~= Seq::empty());
    while k < commits.len()
        invariant
            k <= commits.len(),
            all == referred_commit_views(commits@),
            out@ == commit_lines(all.take(k as int), indentation as nat, hash_length as nat),
        decreases commits.len() - k,
    {
        assert(all.take(k + 1).drop_last() =~= all.take(k as int));
        assert(all.take(k + 1).last() == commits[k as int]@);
        write_commit_line(&mut out, commits[k], indentation, hash_length);
        k += 1;
    }
    assert(all.take(commits.len() as int) =~= all);
    string_of(out.as_slice())
}

/// Writes the lines that show a tree.
fn write_tree(out: &mut Vec<char>, tree: &IncludedCommit, indentation: u32, hash_length: usize)
    ensures
        final(out)@ == old(out)@ + tree_text(tree@, indentation, hash_length as nat),
    decreases tree,
{
    let ghost start = out@;
    proof {
        lemma_contents(*tree);
    }
    write_commit_line(out, tree.commit, indentation, hash_length);
    let ghost head = out@;
    let below: u32 = if indentation < u32::MAX {
        indentation + 1
    } else {
        indentation
    };
    let ghost linked = tree@.linked;
    let mut k: usize = 0;
    assert(linked.take(0) =~= Seq::empty());
    assert(head + forest_text(linked.take(0), below, hash_length as nat) =~= head);
    while k < tree.linked_commits.len()
        invariant
            k <= tree.linked_commits.len(),
            linked == tree@.linked,
            linked.len() == tree.linked_commits.len(),
            forall|x: int|
                0 <= x < tree.linked_commits.len() ==> #[trigger] linked[x]
                    == tree.linked_commits[x]@,
            out@ == head + forest_text(linked.take(k as int), below, hash_length as nat),
        decreases tree.linked_commits.len() - k,
    {
        assert(linked.take(k + 1).drop_last() =~= linked.take(k as int));
        assert(linked.take(k + 1).last() == tree.linked_commits[k as int]@);
        write_tree(out, &tree.linked_commits[k], below, hash_length);
        assert(out@ =~= head + forest_text(linked.take(k + 1), below, hash_length as nat));
        k += 1;
    }
    assert(linked.take(tree.linked_commits.len() as int) =~= linked);
    assert(out@ =~= start + tree_text(tree@, indentation, hash_length as nat));
}

/// What each tree that `list` refers to holds.
pub open spec fn referred_tree_views(list: Seq<&IncludedCommit>) -> Seq<IncludedCommitView> {
    Seq::new(list.len(), |k: int| list[k]@)
}

/// Writes the lines that show the trees that `list` refers to.
fn write_forest(
    out: &mut Vec<char>,
    included_commits: &[&IncludedCommit],
    indentation: u32,
    hash_length: usize,
)
    ensures
        final(out)@ == old(out)@ + forest_text(
            referred_tree_views(included_commits@),
            indentation,
            hash_length as nat,
        ),
{
    let ghost start = out@;
    let ghost all = referred_tree_views(included_commits@);
    let mut k: usize = 0;
    assert(all.take(0) =~= Seq::empty());
    assert(start + forest_text(all.take(0), indentation, hash_length as nat) =~= start);
    while k < included_commits.len()
        invariant
            k <= included_commits.len(),
            all == referred_tree_views(included_commits@),
            out@ == start + forest_text(all.take(k as int), indentation, hash_length as nat),
        decreases included_commits.len() - k,
    {
        assert(all.take(k + 1).drop_last() =~= all.take(k as int));
        assert(all.take(k + 1).last() == included_commits[k as int]@);
        write_tree(out, included_commits[k], indentation, hash_length);
        assert(out@ =~= start + forest_text(all.take(k + 1), indentation, hash_length as nat));
        k += 1;
    }
    assert(all.take(included_commits.len() as int) =~= all);
}

/// The lines that show a forest: for each tree the line of its commit and,
/// one step deeper each time, the lines of the commits linked to it.
pub fn display_commit_reference_tree(
    included_commits: &[&IncludedCommit],
    indentation: u32,
    hash_length: usize,
) -> (r: String)
    ensures
        r@ == forest_text(
            referred_tree_views(included_commits@),
            indentation,
            hash_length as nat,
        ),
{
    let mut out: Vec<char> = Vec::new();
    write_forest(&mut out, included_commits, indentation, hash_length);
    assert(Seq::<char>::empty() + forest_text(
        referred_tree_views(included_commits@),
        indentation,
        hash_length as nat,
    ) =~= forest_text(referred_tree_views(included_commits@), indentation, hash_length as nat));
    string_of(out.as_slice())
}

/// The trees of `forest` at the places `members`; a place that the forest
/// has not is passed over.
pub open spec fn members_of(forest: Seq<IncludedCommitView>, members: Seq<int>) -> Seq<
    IncludedCommitView,
>
    decreases members.len(),
{
    if members.len() == 0 {
        Seq::empty()
    } else {
        let before = members_of(forest, members.drop_last());
        if 0 <= members.last() < forest.len() {
            before.push(forest[members.last()])
        } else {
            before
        }
    }
}

/// The trees of `forest` at the places `members`.
fn trees_at<'a, 'b>(forest: &'b [IncludedCommit<'a>], members: &Vec<usize>) -> (r: Vec<
    &'b IncludedCommit<'a>,
>)
    ensures
        referred_tree_views(r@) == members_of(
            crate::search::included_views(forest@),
            Seq::new(members.len() as nat, |k: int| members[k] as int),
        ),
{
    let ghost all = crate::search::included_views(forest@);
    let ghost places = Seq::new(members.len() as nat, |k: int| members[k] as int);
    let mut out: Vec<&'b IncludedCommit<'a>> = Vec::new();
    let mut k: usize = 0;
    assert(places.take(0) =~= Seq::empty());
    assert(referred_tree_views(out@) =~= Seq::empty());
    while k < members.len()
        invariant
            k <= members.len(),
            all == crate::search::included_views(forest@),
            places == Seq::new(members.len() as nat, |k: int| members[k] as int),
            referred_tree_views(out@) == members_of(all, places.take(k as int)),
        decreases members.len() - k,
    {
        assert(places.take(k + 1).drop_last() =~= places.take(k as int));
        assert(places.take(k + 1).last() == members[k as int] as int);
        if members[k] < forest.len() {
            let ghost before = referred_tree_views(out@);
            out.push(&forest[members[k]]);
            assert(referred_tree_views(out@) =~= before.push(all[members[k as int] as int]));
        }
        k += 1;
    }
    assert(places.take(members.len() as int) =~= places);
    out
}

/// The name under which a ticket is shown: the ticket after the prefix, or
/// what stands for no ticket.
pub open spec fn ticket_name(ticket: Option<Seq<char>>, ticket_prefix: Seq<char>) -> Seq<char> {
    match ticket {
        Some(text) => ticket_prefix + text,
        None => NO_JIRA_TICKET_STR@,
    }
}

/// Writes the name under which a ticket is shown.
fn write_ticket_name(out: &mut Vec<char>, ticket: &Option<String>, ticket_prefix: &str)
    ensures
        final(out)@ == old(out)@ + ticket_name(ticket_text(*ticket), ticket_prefix@),
{
    let ghost start = out@;
    match ticket {
        Some(text) => {
            append(out, chars_of(ticket_prefix).as_slice());
            append(out, chars_of(text.as_str()).as_slice());
            assert(out@ =~= start + (ticket_prefix@ + text@));
        },
        None => {
            append(out, chars_of(NO_JIRA_TICKET_STR).as_slice());
        },
    }
}

/// The lines that show a group of commits by its ticket: the ticket with
/// the number of its commits, or, where the commits are to be shown, the
/// ticket and below it the trees of its commits.
pub open spec fn group_text(
    group: TicketGroupView,
    forest: Seq<IncludedCommitView>,
    show_commits: bool,
    hash_length: nat,
    ticket_prefix: Seq<char>,
) -> Seq<char> {
    if show_commits {
        "- "@ + ticket_name(group.ticket, ticket_prefix) + ":\n"@ + forest_text(
            members_of(forest, group.members),
            1,
            hash_length,
        )
    } else {
        "- "@ + ticket_name(group.ticket, ticket_prefix) + " ("@ + decimal_text(
            group.members.len(),
        ) + ")\n"@
    }
}

/// The lines that show groups of commits by their tickets.
pub open spec fn groups_text(
    groups: Seq<TicketGroupView>,
    forest: Seq<IncludedCommitView>,
    show_commits: bool,
    hash_length: nat,
    ticket_prefix: Seq<char>,
) -> Seq<char>
    decreases groups.len(),
{
    if groups.len() == 0 {
        Seq::empty()
    } else {
        groups_text(groups.drop_last(), forest, show_commits, hash_length, ticket_prefix)
            + group_text(groups.last(), forest, show_commits, hash_length, ticket_prefix)
    }
}

/// What each group that `list` refers to holds.
pub open spec fn referred_group_views(list: Seq<&TicketGroup>) -> Seq<TicketGroupView> {
    Seq::new(list.len(), |k: int| list[k]@)
}

/// The list of the tickets of a forest, each with the number of its
/// commits or, where `show_commits` is set, with the trees of its commits.
/// `jira_tickets` are groups of the commits at the top of `forest`.
pub fn display_jira_ticket_commit_list(
    jira_tickets: &[&TicketGroup],
    forest: &[IncludedCommit],
    show_commits: bool,
    hash_length: usize,
    ticket_prefix: &str,
) -> (r: String)
    ensures
        r@ == groups_text(
            referred_group_views(jira_tickets@),
            crate::search::included_views(forest@),
            show_commits,
            hash_length as nat,
            ticket_prefix@,
        ),
{
    let ghost all = referred_group_views(jira_tickets@);
    let ghost trees = crate::search::included_views(forest@);
    let mut out: Vec<char> = Vec::new();
    let mut g: usize = 0;
    assert(all.take(0) =~= Seq::empty());
    while g < jira_tickets.len()
        invariant
            g <= jira_tickets.len(),
            all == referred_group_views(jira_tickets@),
            trees == crate::search::included_views(forest@),
            out@ == groups_text(
                all.take(g as int),
                trees,
                show_commits,
                hash_length as nat,
                ticket_prefix@,
            ),
        decreases jira_tickets.len() - g,
    {
        assert(all.take(g + 1).drop_last() =~= all.take(g as int));
        assert(all.take(g + 1).last() == jira_tickets[g as int]@);
        let group = jira_tickets[g];
        let ghost before = out@;
        append(&mut out, chars_of("- ").as_slice());
        write_ticket_name(&mut out, &group.ticket, ticket_prefix);
        if show_commits {
            append(&mut out, chars_of(":\n").as_slice());
            let members = trees_at(forest, &group.members);
            write_forest(&mut out, members.as_slice(), 1, hash_length);
        } else {
            append(&mut out, chars_of(" (").as_slice());
            append(&mut out, decimal_chars(group.members.len()).as_slice());
            append(&mut out, chars_of(")\n").as_slice());
        }
        assert(out@ =~= before + group_text(
            group@,
            trees,
            show_commits,
            hash_length as nat,
            ticket_prefix@,
        ));
        g += 1;
    }
    assert(all.take(jira_tickets.len() as int) =~= all);
    string_of(out.as_slice())
}

/// The lines that show a ticket that two forests share: the ticket with
/// the numbers of its commits in the one and in the other, or, where the
/// commits are to be shown, the ticket and below it, under the name of
/// each of the two, the trees of its commits there.
pub open spec fn shared_text(
    shared: SharedTicketView,
    forest_a: Seq<IncludedCommitView>,
    forest_b: Seq<IncludedCommitView>,
    object_a: Seq<char>,
    object_b: Seq<char>,
    show_commits: bool,
    hash_length: nat,
    ticket_prefix: Seq<char>,
) -> Seq<char> {
    if show_commits {
        "- "@ + ticket_name(shared.ticket, ticket_prefix) + ":\n"@ + "\t- On `"@ + object_a
            + "`:\n"@ + forest_text(members_of(forest_a, shared.first_members), 2, hash_length)
            + "\t- On `"@ + object_b + "`:\n"@ + forest_text(
            members_of(forest_b, shared.second_members),
            2,
            hash_length,
        )
    } else {
        "- "@ + ticket_name(shared.ticket, ticket_prefix) + " ("@ + decimal_text(
            shared.first_members.len(),
        ) + " : "@ + decimal_text(shared.second_members.len()) + ")\n"@
    }
}

/// The lines that show the tickets that two forests share.
pub open spec fn all_shared_text(
    shared: Seq<SharedTicketView>,
    forest_a: Seq<IncludedCommitView>,
    forest_b: Seq<IncludedCommitView>,
    object_a: Seq<char>,
    object_b: Seq<char>,
    show_commits: bool,
    hash_length: nat,
    ticket_prefix: Seq<char>,
) -> Seq<char>
    decreases shared.len(),
{
    if shared.len() == 0 {
        Seq::empty()
    } else {
        all_shared_text(
            shared.drop_last(),
            forest_a,
            forest_b,
            object_a,
            object_b,
            show_commits,
            hash_length,
            ticket_prefix,
        ) + shared_text(
            shared.last(),
            forest_a,
            forest_b,
            object_a,
            object_b,
            show_commits,
            hash_length,
            ticket_prefix,
        )
    }
}

/// What each shared ticket that `list` refers to holds.
pub open spec fn referred_shared_views(list: Seq<&SharedTicket>) -> Seq<SharedTicketView> {
    Seq::new(list.len(), |k: int| list[k]@)
}

/// The list of the tickets that two forests share: the counterpart of
/// `display_jira_ticket_commit_list` for what a comparison finds on both
/// sides.
pub fn display_jira_ticket_commit_list_intersection(
    jira_ticket_intersection: &[&SharedTicket],
    forest_a: &[IncludedCommit],
    forest_b: &[IncludedCommit],
    object_a: &str,
    object_b: &str,
    show_commits: bool,
    hash_length: usize,
    ticket_prefix: &str,
) -> (r: String)
    ensures
        r@ == all_shared_text(
            referred_shared_views(jira_ticket_intersection@),
            crate::search::included_views(forest_a@),
            crate::search::included_views(forest_b@),
            object_a@,
            object_b@,
            show_commits,
            hash_length as nat,
            ticket_prefix@,
        ),
{
    let ghost all = referred_shared_views(jira_ticket_intersection@);
    let ghost trees_a = crate::search::included_views(forest_a@);
    let ghost trees_b = crate::search::included_views(forest_b@);
    let mut out: Vec<char> = Vec::new();
    let mut g: usize = 0;
    assert(all.take(0) =~= Seq::empty());
    while g < jira_ticket_intersection.len()
        invariant
            g <= jira_ticket_intersection.len(),
            all == referred_shared_views(jira_ticket_intersection@),
            trees_a == crate::search::included_views(forest_a@),
            trees_b == crate::search::included_views(forest_b@),
            out@ == all_shared_text(
                all.take(g as int),
                trees_a,
                trees_b,
                object_a@,
                object_b@,
                show_commits,
                hash_length as nat,
                ticket_prefix@,
            ),
        decreases jira_ticket_intersection.len() - g,
    {
        assert(all.take(g + 1).drop_last() =~= all.take(g as int));
        assert(all.take(g + 1).last() == jira_ticket_intersection[g as int]@);
        let shared = jira_ticket_intersection[g];
        let ghost before = out@;
        append(&mut out, chars_of("- ").as_slice());
        write_ticket_name(&mut out, &shared.ticket, ticket_prefix);
        if show_commits {
            append(&mut out, chars_of(":\n").as_slice());
            append(&mut out, chars_of("\t- On `").as_slice());
            append(&mut out, chars_of(object_a).as_slice());
            append(&mut out, chars_of("`:\n").as_slice());
            let first = trees_at(forest_a, &shared.first_members);
            write_forest(&mut out, first.as_slice(), 2, hash_length);
            append(&mut out, chars_of("\t- On `").as_slice());
            append(&mut out, chars_of(object_b).as_slice());
            append(&mut out, chars_of("`:\n").as_slice());
            let second = trees_at(forest_b, &shared.second_members);
            write_forest(&mut out, second.as_slice(), 2, hash_length);
        } else {
            append(&mut out, chars_of(" (").as_slice());
            append(&mut out, decimal_chars(shared.first_members.len()).as_slice());
            append(&mut out, chars_of(" : ").as_slice());
            append(&mut out, decimal_chars(shared.second_members.len()).as_slice());
            append(&mut out, chars_of(")\n").as_slice());
        }
        assert(out@ =~= before + shared_text(
            shared@,
            trees_a,
            trees_b,
            object_a@,
            object_b@,
            show_commits,
            hash_length as nat,
            ticket_prefix@,
        ));
        g += 1;
    }
    assert(all.take(jira_ticket_intersection.len() as int) =~= all);
    string_of(out.as_slice())
}

} // verus!
