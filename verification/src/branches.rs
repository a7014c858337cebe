//! The branches that hold the commits of a list, gathered by the commits
//! that they hold.

use crate::compare::{add_member, group_views, with_member_of_each, TicketGroup, TicketGroupView};
use crate::order::{comes_before, sorted_places_by_number};
use crate::text::{chars_of, views};
use crate::words::{rearranged, sort_texts, sorted};
use vstd::prelude::*;

verus! {

/// Some commits of a list and the branches that hold just these of its
/// commits.
#[derive(Debug)]
pub struct BranchSet {
    /// The places in the list of the commits, in their order.
    pub commits: Vec<usize>,
    /// The names of the branches, in the order of a dictionary.
    pub branches: Vec<String>,
}

/// What a `BranchSet` holds.
pub struct BranchSetView {
    pub commits: Seq<int>,
    pub branches: Seq<Seq<char>>,
}

impl View for BranchSet {
    type V = BranchSetView;

    open spec fn view(&self) -> BranchSetView {
        BranchSetView {
            commits: Seq::new(self.commits.len() as nat, |k: int| self.commits[k] as int),
            branches: self.branches.deep_view(),
        }
    }
}

/// What each of `sets` holds.
pub open spec fn set_views(sets: Seq<BranchSet>) -> Seq<BranchSetView> {
    Seq::new(sets.len(), |k: int| sets[k]@)
}

/// For each branch, in the order in which the branches are first met, the
/// places of the commits that it holds. `containing` gives for each commit
/// of the list the branches that hold it.
pub open spec fn commits_per_branch(containing: Seq<Seq<Seq<char>>>) -> Seq<TicketGroupView>
    decreases containing.len(),
{
    if containing.len() == 0 {
        Seq::empty()
    } else {
        with_member_of_each(
            commits_per_branch(containing.drop_last()),
            containing.last(),
            containing.len() - 1,
        )
    }
}

/// Whether `s` is the place of the first set of the commits `commits`.
pub open spec fn is_set_of(sets: Seq<BranchSetView>, commits: Seq<int>, s: int) -> bool {
    &&& 0 <= s < sets.len()
    &&& sets[s].commits == commits
    &&& forall|h: int| 0 <= h < s ==> sets[h].commits != commits
}

/// The place of the set of the commits `commits`, if there is one.
pub open spec fn set_of(sets: Seq<BranchSetView>, commits: Seq<int>) -> Option<int> {
    if exists|s: int| is_set_of(sets, commits, s) {
        Some(choose|s: int| is_set_of(sets, commits, s))
    } else {
        None
    }
}

/// The sets after `branch`, which holds the commits `commits`, joins the
/// set of these commits, which is made at the end where there is none yet.
pub open spec fn with_branch(sets: Seq<BranchSetView>, commits: Seq<int>, branch: Seq<char>) -> Seq<
    BranchSetView,
> {
    match set_of(sets, commits) {
        Some(s) => sets.update(
            s,
            BranchSetView { commits, branches: sets[s].branches.push(branch) },
        ),
        None => sets.push(BranchSetView { commits, branches: seq![branch] }),
    }
}

/// The branches gathered by the commits that they hold, in the order in
/// which the sets of commits are first met.
pub open spec fn gathered(per_branch: Seq<TicketGroupView>) -> Seq<BranchSetView>
    decreases per_branch.len(),
{
    if per_branch.len() == 0 {
        Seq::empty()
    } else {
        let before = gathered(per_branch.drop_last());
        match per_branch.last().ticket {
            Some(branch) => with_branch(before, per_branch.last().members, branch),
            None => before,
        }
    }
}

/// The number by which sets stand in order: the lower, the more branches.
pub open spec fn rank(set: BranchSetView) -> u32 {
    if set.branches.len() >= u32::MAX {
        0
    } else {
        (u32::MAX - set.branches.len()) as u32
    }
}

/// The ranks of the sets.
pub open spec fn ranks(sets: Seq<BranchSetView>) -> Seq<u32> {
    Seq::new(sets.len(), |k: int| rank(sets[k]))
}

/// Whether `shown` holds the sets of `from` as they are shown, in the
/// order that `order` gives: the sets with the most branches first, sets
/// with as many branches in the order of `from`, and the branches of each
/// set in the order of a dictionary.
pub open spec fn shown_by(shown: Seq<BranchSetView>, from: Seq<BranchSetView>, order: Seq<int>) -> bool {
    &&& order.len() == from.len()
    &&& shown.len() == from.len()
    &&& forall|x: int| 0 <= x < order.len() ==> 0 <= #[trigger] order[x] < from.len()
    &&& forall|x: int|
        0 <= x < shown.len() ==> (#[trigger] shown[x]).commits == from[order[x]].commits && sorted(
            shown[x].branches,
        ) && rearranged(shown[x].branches, from[order[x]].branches)
    &&& forall|a: int, b: int|
        0 <= a < b < order.len() ==> comes_before(ranks(from), #[trigger] order[a], #[trigger] order[b])
}

/// Whether `shown` holds the branches of `containing` gathered by the
/// commits that they hold, as they are shown.
pub open spec fn is_gathering(shown: Seq<BranchSetView>, containing: Seq<Seq<Seq<char>>>) -> bool {
    exists|order: Seq<int>| shown_by(shown, gathered(commits_per_branch(containing)), order)
}

/// What each list of names holds.
pub open spec fn name_lists(containing: Seq<Vec<String>>) -> Seq<Seq<Seq<char>>> {
    Seq::new(containing.len(), |k: int| containing[k].deep_view())
}

/// For each branch the places of the commits that it holds.
fn list_commits_per_branch(containing: &Vec<Vec<String>>) -> (r: Vec<TicketGroup>)
    ensures
        group_views(r@) == commits_per_branch(name_lists(containing@)),
{
    let ghost all = name_lists(containing@);
    let mut groups: Vec<TicketGroup> = Vec::new();
    let mut k: usize = 0;
    assert(all.take(0) =~= Seq::empty());
    assert(group_views(groups@) =~= Seq::empty());
    while k < containing.len()
        invariant
            k <= containing.len(),
            all == name_lists(containing@),
            group_views(groups@) == commits_per_branch(all.take(k as int)),
        decreases containing.len() - k,
    {
        let names = &containing[k];
        let ghost labels = names.deep_view();
        let ghost before = group_views(groups@);
        assert(all.take(k + 1).drop_last() =~= all.take(k as int));
        assert(all.take(k + 1).last() == labels);
        let mut t: usize = 0;
        assert(labels.take(0) =~= Seq::empty());
        while t < names.len()
            invariant
                t <= names.len(),
                labels == names.deep_view(),
                group_views(groups@) == with_member_of_each(before, labels.take(t as int), k as int),
            decreases names.len() - t,
        {
            assert(labels.take(t + 1).drop_last() =~= labels.take(t as int));
            assert(labels.take(t + 1).last() == names[t as int]@);
            add_member(&mut groups, Some(names[t].clone()), k);
            t += 1;
        }
        assert(labels.take(names.len() as int) =~= labels);
        k += 1;
    }
    assert(all.take(containing.len() as int) =~= all);
    groups
}

/// Tells whether two lists of places are the same.
fn same_places(a: &Vec<usize>, b: &Vec<usize>) -> (r: bool)
    ensures
        r == (a@ == b@),
{
    if a.len() != b.len() {
        return false;
    }
    let mut k: usize = 0;
    while k < a.len()
        invariant
            k <= a.len(),
            a.len() == b.len(),
            forall|x: int| 0 <= x < k ==> a[x] == b[x],
        decreases a.len() - k,
    {
        if a[k] != b[k] {
            return false;
        }
        k += 1;
    }
    assert(a@ =~= b@);
    true
}

/// Sets of commits with the names of their branches as characters, while
/// the sets are gathered.
struct Gathering {
    commits: Vec<usize>,
    branches: Vec<Vec<char>>,
}

impl View for Gathering {
    type V = BranchSetView;

    closed spec fn view(&self) -> BranchSetView {
        BranchSetView {
            commits: Seq::new(self.commits.len() as nat, |k: int| self.commits[k] as int),
            branches: views(self.branches@),
        }
    }
}

/// What each of `sets` holds.
spec fn gathering_views(sets: Seq<Gathering>) -> Seq<BranchSetView> {
    Seq::new(sets.len(), |k: int| sets[k]@)
}

/// The places as integers.
spec fn as_places(list: Seq<usize>) -> Seq<int> {
    Seq::new(list.len(), |k: int| list[k] as int)
}

/// Finds the place of the set of the commits `commits`.
fn find_set(sets: &Vec<Gathering>, commits: &Vec<usize>) -> (r: Option<usize>)
    ensures
        match r {
            Some(s) => set_of(gathering_views(sets@), as_places(commits@)) == Some(s as int) && s
                < sets.len(),
            None => set_of(gathering_views(sets@), as_places(commits@)) is None,
        },
{
    let ghost wanted = as_places(commits@);
    let mut s: usize = 0;
    while s < sets.len()
        invariant
            s <= sets.len(),
            wanted == as_places(commits@),
            forall|h: int| 0 <= h < s ==> gathering_views(sets@)[h].commits != wanted,
        decreases sets.len() - s,
    {
        let same = same_places(&sets[s].commits, commits);
        proof {
            let held = gathering_views(sets@)[s as int].commits;
            if same {
                assert(held =~= wanted);
            } else if held == wanted {
                assert(held.len() == sets[s as int].commits@.len());
                assert(wanted.len() == commits@.len());
                assert(sets[s as int].commits@.len() == commits@.len());
                assert forall|x: int| 0 <= x < commits@.len() implies sets[s as int].commits@[x]
                    == commits@[x] by {
                    assert(held[x] == wanted[x]);
                }
                assert(sets[s as int].commits@ =~= commits@);
            }
        }
        if same {
            assert(is_set_of(gathering_views(sets@), wanted, s as int));
            return Some(s);
        }
        s += 1;
    }
    None
}

/// Gathers the branches by the commits that they hold.
fn gather(per_branch: &Vec<TicketGroup>) -> (r: Vec<Gathering>)
    ensures
        gathering_views(r@) == gathered(group_views(per_branch@)),
{
    let ghost all = group_views(per_branch@);
    let mut sets: Vec<Gathering> = Vec::new();
    let mut g: usize = 0;
    assert(all.take(0) =~= Seq::empty());
    assert(gathering_views(sets@) =~= Seq::empty());
    while g < per_branch.len()
        invariant
            g <= per_branch.len(),
            all == group_views(per_branch@),
            gathering_views(sets@) == gathered(all.take(g as int)),
        decreases per_branch.len() - g,
    {
        assert(all.take(g + 1).drop_last() =~= all.take(g as int));
        assert(all.take(g + 1).last() == per_branch[g as int]@);
        let group = &per_branch[g];
        let ghost before = gathering_views(sets@);
        let ghost members = as_places(group.members@);
        assert(members =~= group@.members);
        match &group.ticket {
            Some(branch) => {
                let name = chars_of(branch.as_str());
                match find_set(&sets, &group.members) {
                    Some(s) => {
                        let ghost old_branches = sets[s as int]@.branches;
                        sets[s].branches.push(name);
                        assert(sets[s as int]@.branches =~= old_branches.push(name@));
                        assert(sets[s as int]@.commits =~= members);
                        assert(gathering_views(sets@) =~= before.update(
                            s as int,
                            BranchSetView {
                                commits: members,
                                branches: before[s as int].branches.push(name@),
                            },
                        ));
                    },
                    None => {
                        let mut commits: Vec<usize> = Vec::new();
                        let mut k: usize = 0;
                        while k < group.members.len()
                            invariant
                                k <= group.members.len(),
                                commits@ == group.members@.take(k as int),
                            decreases group.members.len() - k,
                        {
                            commits.push(group.members[k]);
                            k += 1;
                            assert(commits@ =~= group.members@.take(k as int));
                        }
                        assert(group.members@.take(group.members.len() as int)
                            =~= group.members@);
                        let mut branches: Vec<Vec<char>> = Vec::new();
                        branches.push(name);
                        let set = Gathering { commits, branches };
                        assert(set@.branches =~= seq![name@]);
                        assert(set@.commits =~= members);
                        sets.push(set);
                        assert(gathering_views(sets@) =~= before.push(
                            BranchSetView { commits: members, branches: seq![name@] },
                        ));
                    },
                }
            },
            None => {},
        }
        g += 1;
    }
    assert(all.take(per_branch.len() as int) =~= all);
    sets
}

/// Gathers the branches that hold the commits of a list by the commits
/// that they hold. `containing` gives for each commit of the list the
/// names of the branches that hold it. The sets with the most branches
/// come first; the branches of a set stand in the order of a dictionary.
pub fn gather_branches(containing: &Vec<Vec<String>>) -> (r: Vec<BranchSet>)
    ensures
        is_gathering(set_views(r@), name_lists(containing@)),
{
    let per_branch = list_commits_per_branch(containing);
    let sets = gather(&per_branch);
    let ghost from = gathering_views(sets@);
    let mut numbers: Vec<u32> = Vec::new();
    let mut k: usize = 0;
    while k < sets.len()
        invariant
            k <= sets.len(),
            from == gathering_views(sets@),
            numbers.len() == k,
            forall|x: int| 0 <= x < k ==> numbers[x] == rank(from[x]),
        decreases sets.len() - k,
    {
        let count = sets[k].branches.len();
        assert(from[k as int].branches.len() == count);
        let number: u32 = if count >= 0xffff_ffff {
            0
        } else {
            0xffff_ffff - count as u32
        };
        numbers.push(number);
        k += 1;
    }
    assert(numbers@ =~= ranks(from));
    let order = sorted_places_by_number(&numbers);
    let mut out: Vec<BranchSet> = Vec::new();
    let mut k: usize = 0;
    while k < order.len()
        invariant
            k <= order.len(),
            from == gathering_views(sets@),
            sets.len() == numbers.len(),
            crate::order::names_keys(order@, numbers.len() as nat),
            out.len() == k,
            forall|x: int|
                0 <= x < k ==> (#[trigger] set_views(out@)[x]).commits == from[order[x] as int].commits
                    && sorted(set_views(out@)[x].branches) && rearranged(
                    set_views(out@)[x].branches,
                    from[order[x] as int].branches,
                ),
        decreases order.len() - k,
    {
        let source = &sets[order[k]];
        let mut commits: Vec<usize> = Vec::new();
        let mut c: usize = 0;
        while c < source.commits.len()
            invariant
                c <= source.commits.len(),
                commits@ == source.commits@.take(c as int),
            decreases source.commits.len() - c,
        {
            commits.push(source.commits[c]);
            c += 1;
            assert(commits@ =~= source.commits@.take(c as int));
        }
        assert(source.commits@.take(source.commits.len() as int) =~= source.commits@);
        let branches = sort_texts(&source.branches);
        let set = BranchSet { commits, branches };
        assert(set@.commits =~= from[order[k as int] as int].commits);
        let ghost before = set_views(out@);
        out.push(set);
        assert(set_views(out@) =~= before.push(set@));
        k += 1;
    }
    proof {
        let named = Seq::new(order.len() as nat, |x: int| order[x] as int);
        assert(shown_by(set_views(out@), gathered(commits_per_branch(name_lists(containing@))), named));
    }
    out
}

} // verus!
