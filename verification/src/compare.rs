//! The comparison of two forests of commits: what only the one has, what
//! only the other has, and what both have, by ticket.

use crate::order::{
    comes_before, key_before, lemma_precedes_irreflexive, names_all, names_keys, precedes,
    sorted_places, sorted_places_by_number, SortedTexts,
};
use crate::util::{is_sortable_ticket, ticket_issue, ticket_project};
use crate::search::{included_views, lemma_contents, IncludedCommit, IncludedCommitView};
use crate::text::{chars_of, copy_range, find_char, read_u32, views};
use vstd::prelude::*;

verus! {

/// The revision id of the commit at the top of `tree`.
pub open spec fn revision_of(tree: IncludedCommitView) -> Seq<char> {
    tree.commit.git_revision@
}

/// Whether one of the likely merges at the top of `forest` is linked to a
/// commit with the revision id `revision`.
pub open spec fn linked_by_merges(forest: Seq<IncludedCommitView>, revision: Seq<char>) -> bool {
    exists|k: int, j: int|
        0 <= k < forest.len() && forest[k].commit.is_likely_a_merge && 0 <= j
            < forest[k].linked.len() && revision_of(#[trigger] forest[k].linked[j]) == revision
}

/// The trees of `forest` but those whose commit a likely merge at the top
/// of `other` is linked to.
pub open spec fn without_linked(
    forest: Seq<IncludedCommitView>,
    other: Seq<IncludedCommitView>,
) -> Seq<IncludedCommitView>
    decreases forest.len(),
{
    if forest.len() == 0 {
        Seq::empty()
    } else {
        let before = without_linked(forest.drop_last(), other);
        if linked_by_merges(other, revision_of(forest.last())) {
            before
        } else {
            before.push(forest.last())
        }
    }
}

/// Two forests without the commits that the other has as a copy. Where a
/// likely merge at the top of the first is linked to a commit at the top
/// of the second, the merge is most likely a copy of that commit, which
/// leaves the second. Then the same is done for the
/// likely merges that stay in the second and the commits at the top of
/// the first. This is a heuristic, and it does not follow a copy of a
/// copy.
pub open spec fn without_copies(
    first: Seq<IncludedCommitView>,
    second: Seq<IncludedCommitView>,
) -> (Seq<IncludedCommitView>, Seq<IncludedCommitView>) {
    let kept_second = without_linked(second, first);
    (without_linked(first, kept_second), kept_second)
}

/// The revision ids of the commits at the top of `forest`.
pub open spec fn top_revisions(forest: Seq<IncludedCommitView>) -> Seq<Seq<char>> {
    Seq::new(forest.len(), |k: int| revision_of(forest[k]))
}

/// The revision ids of the commits that the likely merges at the top of
/// `forest` are linked to.
pub open spec fn revisions_linked(forest: Seq<IncludedCommitView>) -> Seq<Seq<char>>
    decreases forest.len(),
{
    if forest.len() == 0 {
        Seq::empty()
    } else {
        let before = revisions_linked(forest.drop_last());
        if forest.last().commit.is_likely_a_merge {
            before + top_revisions(forest.last().linked)
        } else {
            before
        }
    }
}

/// The list of the linked revision ids holds just the revision ids that a
/// likely merge is linked to.
pub proof fn lemma_revisions_linked(forest: Seq<IncludedCommitView>, revision: Seq<char>)
    ensures
        revisions_linked(forest).contains(revision) <==> linked_by_merges(forest, revision),
    decreases forest.len(),
{
    if forest.len() > 0 {
        let rest = forest.drop_last();
        let last = forest.last();
        let before = revisions_linked(rest);
        let added = top_revisions(last.linked);
        lemma_revisions_linked(rest, revision);
        if linked_by_merges(forest, revision) {
            let (k, j) = choose|k: int, j: int|
                0 <= k < forest.len() && forest[k].commit.is_likely_a_merge && 0 <= j
                    < forest[k].linked.len() && revision_of(#[trigger] forest[k].linked[j])
                    == revision;
            if k < rest.len() {
                assert(rest[k].linked[j] == forest[k].linked[j]);
                assert(linked_by_merges(rest, revision));
                let w = choose|w: int| 0 <= w < before.len() && before[w] == revision;
                assert(revisions_linked(forest)[w] == revision);
            } else {
                assert(added[j] == revision);
                assert(revisions_linked(forest)[before.len() + j] == revision);
            }
        }
        if revisions_linked(forest).contains(revision) {
            let w = choose|w: int|
                0 <= w < revisions_linked(forest).len() && revisions_linked(forest)[w]
                    == revision;
            if w < before.len() {
                assert(before[w] == revision);
                assert(before.contains(revision));
                let (k, j) = choose|k: int, j: int|
                    0 <= k < rest.len() && rest[k].commit.is_likely_a_merge && 0 <= j
                        < rest[k].linked.len() && revision_of(#[trigger] rest[k].linked[j])
                        == revision;
                assert(forest[k].linked[j] == rest[k].linked[j]);
            } else {
                assert(last.commit.is_likely_a_merge);
                assert(added[w - before.len()] == revision);
                assert(revision_of(forest[forest.len() - 1].linked[w - before.len()])
                    == revision);
            }
        }
    }
}

/// The revision ids of the commits that the likely merges at the top of
/// `forest` are linked to.
fn linked_revisions(forest: &Vec<IncludedCommit>) -> (r: Vec<Vec<char>>)
    ensures
        views(r@) == revisions_linked(included_views(forest@)),
{
    let ghost all = included_views(forest@);
    let mut out: Vec<Vec<char>> = Vec::new();
    let mut k: usize = 0;
    assert(all.take(0) =~= Seq::empty());
    assert(views(out@) =~= Seq::empty());
    while k < forest.len()
        invariant
            k <= forest.len(),
            all == included_views(forest@),
            views(out@) == revisions_linked(all.take(k as int)),
        decreases forest.len() - k,
    {
        let tree = &forest[k];
        let ghost before = views(out@);
        assert(all.take(k + 1).drop_last() =~= all.take(k as int));
        assert(all.take(k + 1).last() == tree@);
        proof {
            lemma_contents(*tree);
        }
        if tree.commit.is_likely_a_merge {
            let mut j: usize = 0;
            assert(before + top_revisions(tree@.linked).take(0) =~= before);
            while j < tree.linked_commits.len()
                invariant
                    j <= tree.linked_commits.len(),
                    tree@.linked.len() == tree.linked_commits.len(),
                    forall|x: int|
                        0 <= x < tree.linked_commits.len() ==> #[trigger] tree@.linked[x]
                            == tree.linked_commits[x]@,
                    views(out@) == before + top_revisions(tree@.linked).take(j as int),
                decreases tree.linked_commits.len() - j,
            {
                let linked = chars_of(tree.linked_commits[j].commit.git_revision.as_str());
                let ghost old_out = views(out@);
                proof {
                    lemma_contents(tree.linked_commits[j as int]);
                }
                assert(revision_of(tree@.linked[j as int]) == linked@);
                out.push(linked);
                assert(views(out@) =~= old_out.push(linked@));
                assert(views(out@) =~= before + top_revisions(tree@.linked).take(j + 1));
                j += 1;
            }
            assert(top_revisions(tree@.linked).take(tree.linked_commits.len() as int)
                =~= top_revisions(tree@.linked));
        }
        k += 1;
    }
    assert(all.take(forest.len() as int) =~= all);
    out
}

/// The trees of `forest` in the opposite order.
fn reversed<'a>(forest: Vec<IncludedCommit<'a>>) -> (r: Vec<IncludedCommit<'a>>)
    ensures
        r.len() == forest.len(),
        forall|k: int| 0 <= k < r.len() ==> r[k] == forest[forest.len() - 1 - k],
{
    let mut rest = forest;
    let mut out: Vec<IncludedCommit<'a>> = Vec::new();
    while rest.len() > 0
        invariant
            rest.len() + out.len() == forest.len(),
            forall|k: int| 0 <= k < rest.len() ==> rest[k] == forest[k],
            forall|k: int| 0 <= k < out.len() ==> out[k] == forest[forest.len() - 1 - k],
        decreases rest.len(),
    {
        match rest.pop() {
            Some(tree) => {
                out.push(tree);
            },
            None => {},
        }
    }
    out
}

/// The trees of `forest` but those whose commit a likely merge at the top
/// of `other` is linked to.
fn remove_linked<'a>(forest: Vec<IncludedCommit<'a>>, other: &Vec<IncludedCommit>) -> (r: Vec<
    IncludedCommit<'a>,
>)
    ensures
        included_views(r@) == without_linked(included_views(forest@), included_views(other@)),
{
    let ghost all = included_views(forest@);
    let ghost others = included_views(other@);
    let marked = SortedTexts::new(linked_revisions(other));
    let n = forest.len();
    let mut rest = reversed(forest);
    let mut out: Vec<IncludedCommit<'a>> = Vec::new();
    let mut k: usize = 0;
    assert(all.take(0) =~= Seq::empty());
    assert(included_views(out@) =~= Seq::empty());
    while k < n
        invariant
            k <= n,
            n == forest.len(),
            rest.len() == n - k,
            all == included_views(forest@),
            others == included_views(other@),
            marked.texts() == revisions_linked(others),
            forall|x: int| 0 <= x < rest.len() ==> rest[x] == forest[n - 1 - x],
            included_views(out@) == without_linked(all.take(k as int), others),
        decreases n - k,
    {
        assert(all.take(k + 1).drop_last() =~= all.take(k as int));
        match rest.pop() {
            Some(tree) => {
                assert(tree == forest[k as int]);
                assert(all.take(k + 1).last() == tree@);
                let revision = chars_of(tree.commit.git_revision.as_str());
                proof {
                    lemma_contents(tree);
                    lemma_revisions_linked(others, revision@);
                }
                if !marked.holds(revision.as_slice()) {
                    let ghost before = included_views(out@);
                    out.push(tree);
                    assert(included_views(out@) =~= before.push(tree@));
                }
            },
            None => {},
        }
        k += 1;
    }
    assert(all.take(n as int) =~= all);
    out
}

/// Takes out of two forests the commits that the other has as a copy:
/// first out of `second` the commits that a likely merge of `first` is
/// linked to, then out of `first` the commits that a likely merge that
/// stays in `second` is linked to.
pub fn remove_copies<'a>(first: Vec<IncludedCommit<'a>>, second: Vec<IncludedCommit<'a>>) -> (r: (
    Vec<IncludedCommit<'a>>,
    Vec<IncludedCommit<'a>>,
))
    ensures
        (included_views(r.0@), included_views(r.1@)) == without_copies(
            included_views(first@),
            included_views(second@),
        ),
{
    let kept_second = remove_linked(second, &first);
    let kept_first = remove_linked(first, &kept_second);
    (kept_first, kept_second)
}

/// A commit that a likely merge of the first forest is linked to does not
/// stay in the second.
pub proof fn lemma_copied_commit_leaves(
    first: Seq<IncludedCommitView>,
    second: Seq<IncludedCommitView>,
    k: int,
    j: int,
)
    requires
        0 <= k < first.len(),
        first[k].commit.is_likely_a_merge,
        0 <= j < first[k].linked.len(),
    ensures
        !top_revisions(without_copies(first, second).1).contains(revision_of(first[k].linked[j])),
{
    let revision = revision_of(first[k].linked[j]);
    assert(linked_by_merges(first, revision));
    lemma_without_linked(second, first);
    let kept = without_linked(second, first);
    if top_revisions(kept).contains(revision) {
        let w = choose|w: int| 0 <= w < kept.len() && top_revisions(kept)[w] == revision;
        assert(revision_of(kept[w]) == revision);
    }
}

/// A commit of the first forest stays in it unless a likely merge that
/// stays in the second is linked to it. So where the second forest holds
/// only the commit that a merge of the first copies, the merge stays.
pub proof fn lemma_copy_stays(
    first: Seq<IncludedCommitView>,
    second: Seq<IncludedCommitView>,
    k: int,
)
    requires
        0 <= k < first.len(),
        !linked_by_merges(without_copies(first, second).1, revision_of(first[k])),
    ensures
        without_copies(first, second).0.contains(first[k]),
{
    lemma_without_linked(first, without_linked(second, first));
}

/// What stays of a forest is what no likely merge of the other is linked
/// to, in the order that it had.
pub proof fn lemma_without_linked(forest: Seq<IncludedCommitView>, other: Seq<IncludedCommitView>)
    ensures
        forall|w: int|
            0 <= w < without_linked(forest, other).len() ==> !linked_by_merges(
                other,
                revision_of(#[trigger] without_linked(forest, other)[w]),
            ) && forest.contains(without_linked(forest, other)[w]),
        forall|k: int|
            0 <= k < forest.len() && !linked_by_merges(other, revision_of(forest[k]))
                ==> without_linked(forest, other).contains(#[trigger] forest[k]),
    decreases forest.len(),
{
    if forest.len() > 0 {
        let rest = forest.drop_last();
        let before = without_linked(rest, other);
        let after = without_linked(forest, other);
        lemma_without_linked(rest, other);
        assert forall|w: int| 0 <= w < after.len() implies !linked_by_merges(
            other,
            revision_of(#[trigger] after[w]),
        ) && forest.contains(after[w]) by {
            if w < before.len() {
                assert(after[w] == before[w]);
                let x = choose|x: int| 0 <= x < rest.len() && rest[x] == before[w];
                assert(forest[x] == before[w]);
            } else {
                assert(after[w] == forest[forest.len() - 1]);
            }
        }
        assert forall|k: int|
            0 <= k < forest.len() && !linked_by_merges(
                other,
                revision_of(forest[k]),
            ) implies after.contains(#[trigger] forest[k]) by {
            if k < rest.len() {
                assert(rest[k] == forest[k]);
                assert(before.contains(rest[k]));
                let w = choose|w: int| 0 <= w < before.len() && before[w] == rest[k];
                assert(after[w] == forest[k]);
            } else {
                assert(after[after.len() - 1] == forest[k]);
            }
        }
    }
}

/// The commits of a list that name one ticket, or that name none.
#[derive(Debug)]
pub struct TicketGroup {
    /// The ticket; `None` for the commits that name no ticket.
    pub ticket: Option<String>,
    /// The places in the list of the commits of the group, in their order.
    pub members: Vec<usize>,
}

/// What a `TicketGroup` holds.
pub struct TicketGroupView {
    pub ticket: Option<Seq<char>>,
    pub members: Seq<int>,
}

/// The text of a ticket, if there is one.
pub open spec fn ticket_text(ticket: Option<String>) -> Option<Seq<char>> {
    match ticket {
        Some(text) => Some(text@),
        None => None,
    }
}

impl View for TicketGroup {
    type V = TicketGroupView;

    open spec fn view(&self) -> TicketGroupView {
        TicketGroupView {
            ticket: ticket_text(self.ticket),
            members: Seq::new(self.members.len() as nat, |k: int| self.members[k] as int),
        }
    }
}

/// What each of `groups` holds.
pub open spec fn group_views(groups: Seq<TicketGroup>) -> Seq<TicketGroupView> {
    Seq::new(groups.len(), |g: int| groups[g]@)
}

/// Whether `g` is the place of the first group of `ticket`.
pub open spec fn is_group_of(groups: Seq<TicketGroupView>, ticket: Option<Seq<char>>, g: int) -> bool {
    &&& 0 <= g < groups.len()
    &&& groups[g].ticket == ticket
    &&& forall|h: int| 0 <= h < g ==> groups[h].ticket != ticket
}

/// The place of the group of `ticket`, if there is one.
pub open spec fn group_of(groups: Seq<TicketGroupView>, ticket: Option<Seq<char>>) -> Option<int> {
    if exists|g: int| is_group_of(groups, ticket, g) {
        Some(choose|g: int| is_group_of(groups, ticket, g))
    } else {
        None
    }
}

/// The groups after the commit at place `member` joins the group of
/// `ticket`, which is made at the end where there is none yet.
pub open spec fn with_member(
    groups: Seq<TicketGroupView>,
    ticket: Option<Seq<char>>,
    member: int,
) -> Seq<TicketGroupView> {
    match group_of(groups, ticket) {
        Some(g) => groups.update(
            g,
            TicketGroupView { ticket, members: groups[g].members.push(member) },
        ),
        None => groups.push(TicketGroupView { ticket, members: seq![member] }),
    }
}

/// The groups after the commit at place `member` joins the group of each
/// of `tickets`.
pub open spec fn with_member_of_each(
    groups: Seq<TicketGroupView>,
    tickets: Seq<Seq<char>>,
    member: int,
) -> Seq<TicketGroupView>
    decreases tickets.len(),
{
    if tickets.len() == 0 {
        groups
    } else {
        with_member(
            with_member_of_each(groups, tickets.drop_last(), member),
            Some(tickets.last()),
            member,
        )
    }
}

/// The commits at the top of `forest` by ticket. A commit stands in the
/// group of each ticket that it names, and in the group of no ticket
/// where it names none. The groups stand in the order in which their
/// first commit is met, the commits of a group in the order of the list.
pub open spec fn grouped_by_ticket(forest: Seq<IncludedCommitView>) -> Seq<TicketGroupView>
    decreases forest.len(),
{
    if forest.len() == 0 {
        Seq::empty()
    } else {
        let before = grouped_by_ticket(forest.drop_last());
        let tickets = forest.last().commit.jira_tickets.deep_view();
        if tickets.len() == 0 {
            with_member(before, None, forest.len() - 1)
        } else {
            with_member_of_each(before, tickets, forest.len() - 1)
        }
    }
}

/// Tells whether two tickets are the same.
fn same_ticket(a: &Option<String>, b: &Option<String>) -> (r: bool)
    ensures
        r == (ticket_text(*a) == ticket_text(*b)),
{
    match (a, b) {
        (Some(x), Some(y)) => *x == *y,
        (None, None) => true,
        _ => false,
    }
}

/// Finds the place of the group of `ticket`.
pub fn find_group(groups: &Vec<TicketGroup>, ticket: &Option<String>) -> (r: Option<usize>)
    ensures
        match r {
            Some(g) => group_of(group_views(groups@), ticket_text(*ticket)) == Some(g as int)
                && g < groups.len(),
            None => group_of(group_views(groups@), ticket_text(*ticket)) is None,
        },
{
    let mut g: usize = 0;
    while g < groups.len()
        invariant
            g <= groups.len(),
            forall|h: int| 0 <= h < g ==> group_views(groups@)[h].ticket != ticket_text(*ticket),
        decreases groups.len() - g,
    {
        if same_ticket(&groups[g].ticket, ticket) {
            assert(is_group_of(group_views(groups@), ticket_text(*ticket), g as int));
            return Some(g);
        }
        g += 1;
    }
    None
}

/// Puts the commit at place `member` into the group of `ticket`.
pub(crate) fn add_member(groups: &mut Vec<TicketGroup>, ticket: Option<String>, member: usize)
    ensures
        group_views(final(groups)@) == with_member(
            group_views(old(groups)@),
            ticket_text(ticket),
            member as int,
        ),
{
    let ghost before = group_views(groups@);
    match find_group(groups, &ticket) {
        Some(g) => {
            let ghost old_members = groups[g as int]@.members;
            groups[g].members.push(member);
            assert(groups[g as int]@.members =~= old_members.push(member as int));
            assert(group_views(groups@) =~= before.update(
                g as int,
                TicketGroupView {
                    ticket: ticket_text(ticket),
                    members: before[g as int].members.push(member as int),
                },
            ));
        },
        None => {
            let mut members: Vec<usize> = Vec::new();
            members.push(member);
            let group = TicketGroup { ticket, members };
            assert(group@.members =~= seq![member as int]);
            groups.push(group);
            assert(group_views(groups@) =~= before.push(
                TicketGroupView { ticket: ticket_text(ticket), members: seq![member as int] },
            ));
        },
    }
}

/// Groups the commits at the top of a forest by the tickets that they
/// name.
pub fn group_by_jira_tickets(included_commits: &[IncludedCommit]) -> (r: Vec<TicketGroup>)
    ensures
        group_views(r@) == grouped_by_ticket(included_views(included_commits@)),
{
    let ghost all = included_views(included_commits@);
    let mut groups: Vec<TicketGroup> = Vec::new();
    let mut k: usize = 0;
    assert(all.take(0) =~= Seq::empty());
    assert(group_views(groups@) =~= Seq::empty());
    while k < included_commits.len()
        invariant
            k <= included_commits.len(),
            all == included_views(included_commits@),
            group_views(groups@) == grouped_by_ticket(all.take(k as int)),
        decreases included_commits.len() - k,
    {
        let commit = included_commits[k].commit;
        let ghost tickets = commit.jira_tickets.deep_view();
        assert(all.take(k + 1).drop_last() =~= all.take(k as int));
        assert(all.take(k + 1).last() == included_commits[k as int]@);
        proof {
            lemma_contents(included_commits[k as int]);
        }
        if commit.jira_tickets.len() == 0 {
            add_member(&mut groups, None, k);
        } else {
            let ghost before = group_views(groups@);
            let mut t: usize = 0;
            assert(tickets.take(0) =~= Seq::empty());
            while t < commit.jira_tickets.len()
                invariant
                    t <= commit.jira_tickets.len(),
                    tickets == commit.jira_tickets.deep_view(),
                    group_views(groups@) == with_member_of_each(
                        before,
                        tickets.take(t as int),
                        k as int,
                    ),
                decreases commit.jira_tickets.len() - t,
            {
                assert(tickets.take(t + 1).drop_last() =~= tickets.take(t as int));
                assert(tickets.take(t + 1).last() == commit.jira_tickets[t as int]@);
                add_member(&mut groups, Some(commit.jira_tickets[t].clone()), k);
                t += 1;
            }
            assert(tickets.take(tickets.len() as int) =~= tickets);
        }
        k += 1;
    }
    assert(all.take(included_commits.len() as int) =~= all);
    groups
}

/// A ticket that the commits of two lists name, with the commits of each
/// list that name it.
#[derive(Debug)]
pub struct SharedTicket {
    /// The ticket; `None` for the commits that name no ticket.
    pub ticket: Option<String>,
    /// The places in the first list of the commits of the group.
    pub first_members: Vec<usize>,
    /// The places in the second list of the commits of the group.
    pub second_members: Vec<usize>,
}

/// What a `SharedTicket` holds.
pub struct SharedTicketView {
    pub ticket: Option<Seq<char>>,
    pub first_members: Seq<int>,
    pub second_members: Seq<int>,
}

impl View for SharedTicket {
    type V = SharedTicketView;

    open spec fn view(&self) -> SharedTicketView {
        SharedTicketView {
            ticket: ticket_text(self.ticket),
            first_members: Seq::new(
                self.first_members.len() as nat,
                |k: int| self.first_members[k] as int,
            ),
            second_members: Seq::new(
                self.second_members.len() as nat,
                |k: int| self.second_members[k] as int,
            ),
        }
    }
}

/// What each of `shared` holds.
pub open spec fn shared_views(shared: Seq<SharedTicket>) -> Seq<SharedTicketView> {
    Seq::new(shared.len(), |g: int| shared[g]@)
}

/// The tickets of two lists of commits, set against each other.
#[derive(Debug)]
pub struct TicketComparison {
    /// The groups of the tickets that only the first list names.
    pub only_first: Vec<TicketGroup>,
    /// The groups of the tickets that only the second list names.
    pub only_second: Vec<TicketGroup>,
    /// The tickets that both lists name.
    pub both: Vec<SharedTicket>,
}

/// What a `TicketComparison` holds.
pub struct TicketComparisonView {
    pub only_first: Seq<TicketGroupView>,
    pub only_second: Seq<TicketGroupView>,
    pub both: Seq<SharedTicketView>,
}

impl View for TicketComparison {
    type V = TicketComparisonView;

    open spec fn view(&self) -> TicketComparisonView {
        TicketComparisonView {
            only_first: group_views(self.only_first@),
            only_second: group_views(self.only_second@),
            both: shared_views(self.both@),
        }
    }
}

/// The groups of `groups` whose ticket has no group in `other`, in their
/// order.
pub open spec fn only_in(groups: Seq<TicketGroupView>, other: Seq<TicketGroupView>) -> Seq<
    TicketGroupView,
>
    decreases groups.len(),
{
    if groups.len() == 0 {
        Seq::empty()
    } else {
        let before = only_in(groups.drop_last(), other);
        match group_of(other, groups.last().ticket) {
            Some(_) => before,
            None => before.push(groups.last()),
        }
    }
}

/// The tickets that have a group in `groups` and in `other`, in the order
/// of `groups`, each with the commits of both groups.
pub open spec fn in_both(groups: Seq<TicketGroupView>, other: Seq<TicketGroupView>) -> Seq<
    SharedTicketView,
>
    decreases groups.len(),
{
    if groups.len() == 0 {
        Seq::empty()
    } else {
        let before = in_both(groups.drop_last(), other);
        match group_of(other, groups.last().ticket) {
            Some(h) => before.push(
                SharedTicketView {
                    ticket: groups.last().ticket,
                    first_members: groups.last().members,
                    second_members: other[h].members,
                },
            ),
            None => before,
        }
    }
}

/// The comparison of two lists of commits that were grouped by ticket:
/// the tickets of the first alone, those of the second alone, and those
/// of both.
pub open spec fn compared(first: Seq<TicketGroupView>, second: Seq<TicketGroupView>) -> TicketComparisonView {
    TicketComparisonView {
        only_first: only_in(first, second),
        only_second: only_in(second, first),
        both: in_both(first, second),
    }
}

/// A copy of a list of places.
fn copy_places(list: &Vec<usize>) -> (r: Vec<usize>)
    ensures
        r@ == list@,
{
    let mut out: Vec<usize> = Vec::new();
    let mut k: usize = 0;
    while k < list.len()
        invariant
            k <= list.len(),
            out@ == list@.take(k as int),
        decreases list.len() - k,
    {
        out.push(list[k]);
        k += 1;
        assert(out@ =~= list@.take(k as int));
    }
    assert(list@.take(list.len() as int) =~= list@);
    out
}

/// A copy of a ticket.
fn copy_ticket(ticket: &Option<String>) -> (r: Option<String>)
    ensures
        ticket_text(r) == ticket_text(*ticket),
{
    match ticket {
        Some(text) => Some(text.clone()),
        None => None,
    }
}

/// The groups of `groups` whose ticket has no group in `other`.
fn groups_only_in(groups: &Vec<TicketGroup>, other: &Vec<TicketGroup>) -> (r: Vec<TicketGroup>)
    ensures
        group_views(r@) == only_in(group_views(groups@), group_views(other@)),
{
    let ghost all = group_views(groups@);
    let mut out: Vec<TicketGroup> = Vec::new();
    let mut g: usize = 0;
    assert(all.take(0) =~= Seq::empty());
    assert(group_views(out@) =~= Seq::empty());
    while g < groups.len()
        invariant
            g <= groups.len(),
            all == group_views(groups@),
            group_views(out@) == only_in(all.take(g as int), group_views(other@)),
        decreases groups.len() - g,
    {
        assert(all.take(g + 1).drop_last() =~= all.take(g as int));
        assert(all.take(g + 1).last() == groups[g as int]@);
        if find_group(other, &groups[g].ticket).is_none() {
            let group = TicketGroup {
                ticket: copy_ticket(&groups[g].ticket),
                members: copy_places(&groups[g].members),
            };
            assert(group@.members =~= groups[g as int]@.members);
            let ghost before = group_views(out@);
            out.push(group);
            assert(group_views(out@) =~= before.push(groups[g as int]@));
        }
        g += 1;
    }
    assert(all.take(groups.len() as int) =~= all);
    out
}

/// Sets the tickets of two lists of commits against each other. The
/// lists were grouped by ticket before.
pub fn compare_tickets(first: &Vec<TicketGroup>, second: &Vec<TicketGroup>) -> (r: TicketComparison)
    ensures
        r@ == compared(group_views(first@), group_views(second@)),
{
    let only_first = groups_only_in(first, second);
    let only_second = groups_only_in(second, first);
    let ghost all = group_views(first@);
    let ghost other = group_views(second@);
    let mut both: Vec<SharedTicket> = Vec::new();
    let mut g: usize = 0;
    assert(all.take(0) =~= Seq::empty());
    assert(shared_views(both@) =~= Seq::empty());
    while g < first.len()
        invariant
            g <= first.len(),
            all == group_views(first@),
            other == group_views(second@),
            shared_views(both@) == in_both(all.take(g as int), other),
        decreases first.len() - g,
    {
        assert(all.take(g + 1).drop_last() =~= all.take(g as int));
        assert(all.take(g + 1).last() == first[g as int]@);
        match find_group(second, &first[g].ticket) {
            Some(h) => {
                let shared = SharedTicket {
                    ticket: copy_ticket(&first[g].ticket),
                    first_members: copy_places(&first[g].members),
                    second_members: copy_places(&second[h].members),
                };
                assert(shared@.first_members =~= first[g as int]@.members);
                assert(shared@.second_members =~= second[h as int]@.members);
                assert(other[h as int] == second[h as int]@);
                let ghost before = shared_views(both@);
                both.push(shared);
                assert(shared_views(both@) =~= before.push(
                    SharedTicketView {
                        ticket: first[g as int]@.ticket,
                        first_members: first[g as int]@.members,
                        second_members: other[h as int].members,
                    },
                ));
            },
            None => {},
        }
        g += 1;
    }
    assert(all.take(first.len() as int) =~= all);
    TicketComparison { only_first, only_second, both }
}

/// Whether each of the tickets has the shape by which tickets are sorted:
/// a project, a hyphen and an issue number.
pub open spec fn all_sortable(tickets: Seq<Option<Seq<char>>>) -> bool {
    forall|k: int|
        0 <= k < tickets.len() && (#[trigger] tickets[k]) is Some ==> is_sortable_ticket(
            tickets[k]->0,
        )
}

/// The project by which a ticket is sorted; empty for no ticket.
pub open spec fn sort_project(ticket: Option<Seq<char>>) -> Seq<char> {
    match ticket {
        Some(text) => ticket_project(text),
        None => Seq::empty(),
    }
}

/// The issue number by which a ticket is sorted; 0 for no ticket.
pub open spec fn sort_issue(ticket: Option<Seq<char>>) -> u32 {
    match ticket {
        Some(text) => ticket_issue(text),
        None => 0,
    }
}

/// Whether the ticket at place `p` is shown before the ticket at place
/// `q`: no ticket comes before every ticket; a ticket comes before another
/// where its project stands before the other in the order of a
/// dictionary, or where the projects are the same and its issue number is
/// the lower; and of two that are alike in this, the one at the lower
/// place comes first.
pub open spec fn shown_before(tickets: Seq<Option<Seq<char>>>, p: int, q: int) -> bool {
    let a = tickets[p];
    let b = tickets[q];
    if a is None != b is None {
        a is None
    } else if sort_project(a) != sort_project(b) {
        precedes(sort_project(a), sort_project(b))
    } else if sort_issue(a) != sort_issue(b) {
        sort_issue(a) < sort_issue(b)
    } else {
        p < q
    }
}

/// What each of `tickets` holds.
pub open spec fn ticket_texts(tickets: Seq<Option<String>>) -> Seq<Option<Seq<char>>> {
    Seq::new(tickets.len(), |k: int| ticket_text(tickets[k]))
}

/// The order in which tickets are shown: the places of the tickets, each
/// once, sorted by project and issue number, no ticket first. `None` where
/// a ticket has not the shape by which tickets are sorted.
pub fn ticket_order(tickets: &Vec<Option<String>>) -> (r: Option<Vec<usize>>)
    ensures
        match r {
            Some(order) => {
                &&& all_sortable(ticket_texts(tickets@))
                &&& order.len() == tickets.len()
                &&& names_keys(order@, tickets.len() as nat)
                &&& names_all(order@, tickets.len() as nat)
                &&& forall|a: int, b: int|
                    0 <= a < b < order.len() ==> shown_before(
                        ticket_texts(tickets@),
                        #[trigger] order[a] as int,
                        #[trigger] order[b] as int,
                    )
            },
            None => !all_sortable(ticket_texts(tickets@)),
        },
{
    let ghost all = ticket_texts(tickets@);
    let n = tickets.len();
    let mut projects: Vec<Vec<char>> = Vec::new();
    let mut issues: Vec<u32> = Vec::new();
    let mut ranks: Vec<u32> = Vec::new();
    let mut k: usize = 0;
    while k < n
        invariant
            k <= n,
            n == tickets.len(),
            all == ticket_texts(tickets@),
            projects.len() == k,
            issues.len() == k,
            ranks.len() == k,
            forall|x: int|
                0 <= x < k && (#[trigger] all[x]) is Some ==> is_sortable_ticket(all[x]->0),
            forall|x: int| 0 <= x < k ==> (#[trigger] projects[x])@ == sort_project(all[x]),
            forall|x: int| 0 <= x < k ==> #[trigger] issues[x] == sort_issue(all[x]),
            forall|x: int|
                0 <= x < k ==> #[trigger] ranks[x] == (if all[x] is None {
                    0u32
                } else {
                    1u32
                }),
        decreases n - k,
    {
        assert(all[k as int] == ticket_text(tickets[k as int]));
        match &tickets[k] {
            Some(text) => {
                let chars = chars_of(text.as_str());
                match find_char(chars.as_slice(), '-') {
                    Some(i) => {
                        let project = copy_range(chars.as_slice(), 0, i);
                        let issue = copy_range(chars.as_slice(), i + 1, chars.len());
                        assert(chars@.take(i as int) =~= chars@.subrange(0, i as int));
                        assert(chars@.skip(i + 1) =~= chars@.subrange(
                            i + 1,
                            chars.len() as int,
                        ));
                        match read_u32(issue.as_slice()) {
                            Some(number) => {
                                projects.push(project);
                                issues.push(number);
                                ranks.push(1);
                            },
                            None => {
                                assert(!is_sortable_ticket(all[k as int]->0));
                                return None;
                            },
                        }
                    },
                    None => {
                        assert(!is_sortable_ticket(all[k as int]->0));
                        return None;
                    },
                }
            },
            None => {
                projects.push(Vec::new());
                issues.push(0);
                ranks.push(0);
            },
        }
        k += 1;
    }
    let by_issue = sorted_places_by_number(&issues);
    let mut keys: Vec<Vec<char>> = Vec::new();
    let mut x: usize = 0;
    while x < n
        invariant
            x <= n,
            n == projects.len(),
            by_issue.len() == n,
            names_keys(by_issue@, n as nat),
            keys.len() == x,
            forall|y: int| 0 <= y < x ==> (#[trigger] keys[y])@ == projects[by_issue[y] as int]@,
        decreases n - x,
    {
        let source = &projects[by_issue[x]];
        let copy = copy_range(source.as_slice(), 0, source.len());
        assert(copy@ =~= source@);
        keys.push(copy);
        x += 1;
    }
    let by_project = sorted_places(&keys);
    let mut marks: Vec<u32> = Vec::new();
    let mut y: usize = 0;
    while y < n
        invariant
            y <= n,
            n == ranks.len(),
            by_issue.len() == n,
            by_project.len() == n,
            names_keys(by_issue@, n as nat),
            names_keys(by_project@, n as nat),
            marks.len() == y,
            forall|z: int|
                0 <= z < y ==> #[trigger] marks[z] == ranks[by_issue[by_project[z] as int] as int],
        decreases n - y,
    {
        marks.push(ranks[by_issue[by_project[y]]]);
        y += 1;
    }
    let by_rank = sorted_places_by_number(&marks);
    let mut order: Vec<usize> = Vec::new();
    let mut z: usize = 0;
    while z < n
        invariant
            z <= n,
            by_issue.len() == n,
            by_project.len() == n,
            by_rank.len() == n,
            names_keys(by_issue@, n as nat),
            names_keys(by_project@, n as nat),
            names_keys(by_rank@, n as nat),
            order.len() == z,
            forall|w: int|
                0 <= w < z ==> #[trigger] order[w]
                    == by_issue[by_project[by_rank[w] as int] as int],
        decreases n - z,
    {
        order.push(by_issue[by_project[by_rank[z]]]);
        z += 1;
    }
    proof {
        let texts = views(keys@);
        assert forall|a: int, b: int| 0 <= a < b < order.len() implies shown_before(
            all,
            #[trigger] order[a] as int,
            #[trigger] order[b] as int,
        ) by {
            let ra = by_rank[a] as int;
            let rb = by_rank[b] as int;
            let pa = by_project[ra] as int;
            let pb = by_project[rb] as int;
            let p = by_issue[pa] as int;
            let q = by_issue[pb] as int;
            assert(comes_before(marks@, ra, rb));
            assert(marks[ra] == ranks[p] && marks[rb] == ranks[q]);
            if marks[ra] == marks[rb] {
                assert(ra < rb);
                assert(key_before(texts, by_project[ra] as int, by_project[rb] as int));
                assert(texts[pa] == sort_project(all[p]));
                assert(texts[pb] == sort_project(all[q]));
                if texts[pa] == texts[pb] {
                    lemma_precedes_irreflexive(texts[pa]);
                    assert(pa < pb);
                    assert(comes_before(issues@, by_issue[pa] as int, by_issue[pb] as int));
                }
            }
        }
        assert forall|i: int| 0 <= i < n implies order@.contains(#[trigger] (i as usize)) by {
            assert(by_issue@.contains(i as usize));
            let u = choose|u: int| 0 <= u < by_issue.len() && by_issue[u] == i as usize;
            assert(by_project@.contains(u as usize));
            let v = choose|v: int| 0 <= v < by_project.len() && by_project[v] == u as usize;
            assert(by_rank@.contains(v as usize));
            let w = choose|w: int| 0 <= w < by_rank.len() && by_rank[w] == v as usize;
            assert(order[w] == i as usize);
        }
    }
    Some(order)
}

} // verus!
