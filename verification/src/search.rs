//! The traversal of the references between commits: from a list of commits
//! to the forest of the commits linked to them.

use crate::collection::{commit_views, revisions_of, Commit, CommitView};
use crate::index::{backward_references, forward_references, place_of, places, Index};
use crate::order::names_keys;
use vstd::prelude::*;
use vstd::set_lib::lemma_len_intersect;

verus! {

/// A commit with the commits linked to it, found by following references.
#[derive(Debug)]
pub struct IncludedCommit<'a> {
    /// The commit.
    pub commit: &'a Commit,
    /// The commits that it is linked to, each with its own links.
    pub linked_commits: Vec<IncludedCommit<'a>>,
}

/// Two trees are the same where the commits at their tops are.
impl<'a> PartialEq for IncludedCommit<'a> {
    fn eq(&self, other: &Self) -> (r: bool) {
        self.commit.git_revision == other.commit.git_revision
    }
}

impl<'a> vstd::std_specs::cmp::PartialEqSpecImpl for IncludedCommit<'a> {
    open spec fn obeys_eq_spec() -> bool {
        true
    }

    open spec fn eq_spec(&self, other: &Self) -> bool {
        self.commit.git_revision@ == other.commit.git_revision@
    }
}

impl<'a> Eq for IncludedCommit<'a> {

}

/// A commit, named by its place in the list of commits, with the commits
/// linked to it.
pub struct Inclusion {
    pub place: int,
    pub linked: Seq<Inclusion>,
}

/// What an `IncludedCommit` holds.
pub struct IncludedCommitView {
    pub commit: Commit,
    pub linked: Seq<IncludedCommitView>,
}

impl<'a> IncludedCommit<'a> {
    /// The commit and, for each linked commit, what it holds in turn.
    pub open spec fn contents(&self) -> IncludedCommitView
        decreases self,
    {
        IncludedCommitView {
            commit: *self.commit,
            linked: Seq::new(
                self.linked_commits.len() as nat,
                |k: int|
                    if 0 <= k < self.linked_commits.len() {
                        self.linked_commits[k].contents()
                    } else {
                        arbitrary()
                    },
            ),
        }
    }
}

/// What a tree holds is its commit and, for each linked commit in turn,
/// what that holds.
pub proof fn lemma_contents(tree: IncludedCommit)
    ensures
        tree@.commit == *tree.commit,
        tree@.linked.len() == tree.linked_commits.len(),
        forall|k: int|
            0 <= k < tree.linked_commits.len() ==> #[trigger] tree@.linked[k]
                == tree.linked_commits[k]@,
{
}

impl<'a> View for IncludedCommit<'a> {
    type V = IncludedCommitView;

    open spec fn view(&self) -> IncludedCommitView {
        self.contents()
    }
}

impl Inclusion {
    /// The tree with the commits themselves in place of their places.
    pub open spec fn of_commits(self, commits: Seq<Commit>) -> IncludedCommitView
        decreases self,
    {
        IncludedCommitView {
            commit: commits[self.place],
            linked: Seq::new(
                self.linked.len(),
                |k: int|
                    if 0 <= k < self.linked.len() {
                        self.linked[k].of_commits(commits)
                    } else {
                        arbitrary()
                    },
            ),
        }
    }
}

/// The references that lead on from the commit at `i`: those that it makes
/// where the traversal goes forward, those made to it where it goes
/// backward.
pub open spec fn references_of(commits: Seq<CommitView>, forward: bool, i: int) -> Seq<int> {
    if forward {
        forward_references(commits, i)
    } else {
        backward_references(commits, i)
    }
}

/// Whether the traversal may go to the commit at `i`: always, unless only
/// likely merges are wanted and it is none.
pub open spec fn admits(commits: Seq<CommitView>, only_merges: bool, i: int) -> bool {
    !only_merges || commits[i].is_likely_a_merge
}

/// The trees that grow from `targets`, and the commits not yet reached
/// after them. Each target that is admitted and not yet reached becomes a
/// tree: it counts as reached from then on, and the targets that its own
/// references lead to are expanded below it before the targets after it.
pub open spec fn expand(
    commits: Seq<CommitView>,
    forward: bool,
    only_merges: bool,
    targets: Seq<int>,
    unreached: Set<int>,
) -> (Seq<Inclusion>, Set<int>)
    decreases unreached.len(), targets.len(),
    when unreached.finite()
{
    if targets.len() == 0 {
        (Seq::empty(), unreached)
    } else {
        let target = targets.first();
        let rest = targets.drop_first();
        if !unreached.contains(target) || !admits(commits, only_merges, target) {
            expand(commits, forward, only_merges, rest, unreached)
        } else {
            let below = expand(
                commits,
                forward,
                only_merges,
                references_of(commits, forward, target),
                unreached.remove(target),
            );
            proof {
                lemma_len_intersect(unreached.remove(target), below.1);
            }
            let after = expand(
                commits,
                forward,
                only_merges,
                rest,
                unreached.remove(target).intersect(below.1),
            );
            (seq![Inclusion { place: target, linked: below.0 }] + after.0, after.1)
        }
    }
}

/// Expanding reaches commits and never makes one unreached again. So the
/// intersection in `expand` changes nothing: it stands there to show that
/// the expansion ends.
pub proof fn lemma_expand_reaches(
    commits: Seq<CommitView>,
    forward: bool,
    only_merges: bool,
    targets: Seq<int>,
    unreached: Set<int>,
)
    requires
        unreached.finite(),
    ensures
        expand(commits, forward, only_merges, targets, unreached).1.subset_of(unreached),
        expand(commits, forward, only_merges, targets, unreached).1.finite(),
    decreases unreached.len(), targets.len(),
{
    if targets.len() > 0 {
        let target = targets.first();
        let rest = targets.drop_first();
        if !unreached.contains(target) || !admits(commits, only_merges, target) {
            lemma_expand_reaches(commits, forward, only_merges, rest, unreached);
        } else {
            let below = expand(
                commits,
                forward,
                only_merges,
                references_of(commits, forward, target),
                unreached.remove(target),
            );
            lemma_expand_reaches(
                commits,
                forward,
                only_merges,
                references_of(commits, forward, target),
                unreached.remove(target),
            );
            lemma_len_intersect(unreached.remove(target), below.1);
            lemma_expand_reaches(
                commits,
                forward,
                only_merges,
                rest,
                unreached.remove(target).intersect(below.1),
            );
        }
    }
}

/// The commits not yet reached, by the marks of those reached.
pub open spec fn unreached_of(reached: Seq<bool>) -> Set<int> {
    Set::new(|i: int| 0 <= i < reached.len() && !reached[i])
}

/// There are only so many commits not yet reached as there are commits.
pub proof fn lemma_unreached_finite(reached: Seq<bool>)
    ensures
        unreached_of(reached).finite(),
        unreached_of(reached).len() <= reached.len(),
{
    let range = Set::new(|i: int| 0 <= i < reached.len());
    assert(range =~= vstd::set_lib::set_int_range(0, reached.len() as int));
    vstd::set_lib::lemma_int_range(0, reached.len() as int);
    vstd::set_lib::lemma_len_subset(unreached_of(reached), range);
}

/// What each of `list` holds.
pub open spec fn included_views(list: Seq<IncludedCommit>) -> Seq<IncludedCommitView> {
    Seq::new(list.len(), |k: int| list[k]@)
}

/// The trees with the commits themselves in place of their places.
pub open spec fn trees_of_commits(trees: Seq<Inclusion>, commits: Seq<Commit>) -> Seq<
    IncludedCommitView,
> {
    Seq::new(trees.len(), |k: int| trees[k].of_commits(commits))
}

/// Visits the commit at `place`, which was marked as reached just before:
/// makes the tree of the commit and of the commits that its references
/// lead to.
fn visit_commit<'a>(
    index: &Index<'a>,
    reached: &mut Vec<bool>,
    traverse_forward_references: bool,
    only_consider_likely_merges: bool,
    place: usize,
) -> (r: IncludedCommit<'a>)
    requires
        old(reached).len() == index.commits().len(),
        place < index.commits().len(),
    ensures
        final(reached).len() == index.commits().len(),
        r@ == (Inclusion {
            place: place as int,
            linked: expand(
                index.views(),
                traverse_forward_references,
                only_consider_likely_merges,
                references_of(index.views(), traverse_forward_references, place as int),
                unreached_of(old(reached)@),
            ).0,
        }).of_commits(index.commits()),
        unreached_of(final(reached)@) == expand(
            index.views(),
            traverse_forward_references,
            only_consider_likely_merges,
            references_of(index.views(), traverse_forward_references, place as int),
            unreached_of(old(reached)@),
        ).1,
    decreases unreached_of(old(reached)@).len(), 1nat,
{
    let ghost below = expand(
        index.views(),
        traverse_forward_references,
        only_consider_likely_merges,
        references_of(index.views(), traverse_forward_references, place as int),
        unreached_of(reached@),
    );
    let references = if traverse_forward_references {
        index.references_from(place)
    } else {
        index.references_to(place)
    };
    let linked_commits = visit_linked_commits(
        index,
        reached,
        traverse_forward_references,
        only_consider_likely_merges,
        references,
    );
    let included = IncludedCommit { commit: index.commit_at(place), linked_commits };
    proof {
        let tree = Inclusion { place: place as int, linked: below.0 };
        let views = included_views(included.linked_commits@);
        let below_views = trees_of_commits(below.0, index.commits());
        assert(views == below_views);
        assert(views.len() == included.linked_commits.len());
        assert(below_views.len() == below.0.len());
        assert forall|x: int| 0 <= x < below.0.len() implies included@.linked[x]
            == tree.of_commits(index.commits()).linked[x] by {
            assert(views[x] == included.linked_commits[x]@);
            assert(below_views[x] == below.0[x].of_commits(index.commits()));
        }
        assert(included@.linked =~= tree.of_commits(index.commits()).linked);
    }
    included
}

/// Visits the commits that `targets` name: makes a tree of each target
/// that is admitted and not yet reached, and marks what it reaches.
fn visit_linked_commits<'a>(
    index: &Index<'a>,
    reached: &mut Vec<bool>,
    traverse_forward_references: bool,
    only_consider_likely_merges: bool,
    targets: &Vec<usize>,
) -> (r: Vec<IncludedCommit<'a>>)
    requires
        old(reached).len() == index.commits().len(),
        names_keys(targets@, index.commits().len()),
    ensures
        final(reached).len() == index.commits().len(),
        included_views(r@) == trees_of_commits(
            expand(
                index.views(),
                traverse_forward_references,
                only_consider_likely_merges,
                places(targets@),
                unreached_of(old(reached)@),
            ).0,
            index.commits(),
        ),
        unreached_of(final(reached)@) == expand(
            index.views(),
            traverse_forward_references,
            only_consider_likely_merges,
            places(targets@),
            unreached_of(old(reached)@),
        ).1,
    decreases unreached_of(old(reached)@).len(), 0nat,
{
    let ghost commits = index.views();
    let ghost all = places(targets@);
    let ghost start = unreached_of(reached@);
    let ghost whole = expand(
        commits,
        traverse_forward_references,
        only_consider_likely_merges,
        all,
        start,
    );
    let mut out: Vec<IncludedCommit<'a>> = Vec::new();
    let ghost mut trees: Seq<Inclusion> = Seq::empty();
    let mut k: usize = 0;
    proof {
        lemma_unreached_finite(reached@);
        assert(all.skip(0) =~= all);
        assert(trees + whole.0 =~= whole.0);
        assert(included_views(out@) =~= trees_of_commits(trees, index.commits()));
    }
    while k < targets.len()
        invariant
            k <= targets.len(),
            reached.len() == index.commits().len(),
            names_keys(targets@, index.commits().len()),
            commits == index.views(),
            all == places(targets@),
            start.finite(),
            start == unreached_of(old(reached)@),
            unreached_of(reached@).finite(),
            unreached_of(reached@).len() <= start.len(),
            included_views(out@) == trees_of_commits(trees, index.commits()),
            whole.0 == trees + expand(
                commits,
                traverse_forward_references,
                only_consider_likely_merges,
                all.skip(k as int),
                unreached_of(reached@),
            ).0,
            whole.1 == expand(
                commits,
                traverse_forward_references,
                only_consider_likely_merges,
                all.skip(k as int),
                unreached_of(reached@),
            ).1,
        decreases targets.len() - k,
    {
        let target = targets[k];
        let ghost unreached = unreached_of(reached@);
        let ghost rest = all.skip(k as int).drop_first();
        assert(all.skip(k as int).first() == target as int);
        assert(rest =~= all.skip(k + 1));
        let commit = index.commit_at(target);
        assert(commits[target as int] == commit@);
        if !reached[target] && (!only_consider_likely_merges || commit.is_likely_a_merge) {
            assert(unreached.contains(target as int));
            reached[target] = true;
            assert(unreached_of(reached@) =~= unreached.remove(target as int));
            let ghost below = expand(
                commits,
                traverse_forward_references,
                only_consider_likely_merges,
                references_of(commits, traverse_forward_references, target as int),
                unreached.remove(target as int),
            );
            proof {
                lemma_expand_reaches(
                    commits,
                    traverse_forward_references,
                    only_consider_likely_merges,
                    references_of(commits, traverse_forward_references, target as int),
                    unreached.remove(target as int),
                );
                assert(unreached.remove(target as int).intersect(below.1) =~= below.1);
                lemma_len_intersect(unreached.remove(target as int), below.1);
                assert(unreached.remove(target as int).len() < unreached.len());
            }
            let included = visit_commit(
                index,
                reached,
                traverse_forward_references,
                only_consider_likely_merges,
                target,
            );
            let ghost tree = Inclusion { place: target as int, linked: below.0 };
            let ghost old_views = included_views(out@);
            out.push(included);
            proof {
                assert(included_views(out@) =~= old_views.push(tree.of_commits(index.commits())));
                assert(trees_of_commits(trees.push(tree), index.commits()) =~= old_views.push(
                    tree.of_commits(index.commits()),
                ));
                let after = expand(
                    commits,
                    traverse_forward_references,
                    only_consider_likely_merges,
                    rest,
                    below.1,
                );
                assert(trees.push(tree) + after.0 =~= trees + (seq![tree] + after.0));
                trees = trees.push(tree);
            }
        }
        k += 1;
    }
    proof {
        assert(all.skip(targets.len() as int) =~= Seq::empty());
        assert(trees + Seq::<Inclusion>::empty() =~= trees);
    }
    out
}

/// The places in the index of the commits of a list; `None` for a commit
/// whose revision id the index does not have.
pub open spec fn seed_places(revisions: Seq<Seq<char>>, seeds: Seq<&Commit>) -> Seq<Option<int>> {
    Seq::new(seeds.len(), |k: int| place_of(revisions, seeds[k].git_revision@))
}

/// The commits that a traversal has not reached when it starts: all but
/// those it starts from.
pub open spec fn unreached_at_start(n: nat, seeds: Seq<Option<int>>) -> Set<int> {
    Set::new(|i: int| 0 <= i < n && !seeds.contains(Some(i)))
}

/// For each of the seeds in turn, the trees that grow from its references.
/// A seed that the index does not have has none.
pub open spec fn expand_seeds(
    commits: Seq<CommitView>,
    forward: bool,
    only_merges: bool,
    seeds: Seq<Option<int>>,
    unreached: Set<int>,
) -> Seq<Seq<Inclusion>>
    decreases seeds.len(),
{
    if seeds.len() == 0 {
        Seq::empty()
    } else {
        match seeds.first() {
            Some(i) => {
                let below = expand(
                    commits,
                    forward,
                    only_merges,
                    references_of(commits, forward, i),
                    unreached,
                );
                seq![below.0] + expand_seeds(
                    commits,
                    forward,
                    only_merges,
                    seeds.drop_first(),
                    below.1,
                )
            },
            None => seq![Seq::empty()] + expand_seeds(
                commits,
                forward,
                only_merges,
                seeds.drop_first(),
                unreached,
            ),
        }
    }
}

/// The forest of a traversal. Each of the seeds stands at its top, in
/// their order, and under no other commit; below each stand the commits
/// that its references lead to and that no earlier part of the traversal
/// has reached, each with its own links.
pub open spec fn inclusion_forest(
    commits: Seq<Commit>,
    seeds: Seq<&Commit>,
    forward: bool,
    only_merges: bool,
) -> Seq<IncludedCommitView> {
    let views = commit_views(commits);
    let at = seed_places(revisions_of(views), seeds);
    let linked = expand_seeds(
        views,
        forward,
        only_merges,
        at,
        unreached_at_start(commits.len(), at),
    );
    Seq::new(
        seeds.len(),
        |k: int|
            IncludedCommitView { commit: *seeds[k], linked: trees_of_commits(linked[k], commits) },
    )
}

/// Follows the references from each commit of `commit_list`, forward (to
/// the commits that a commit names) or backward (to the commits that name
/// it), and returns the forest of what it finds. With
/// `only_consider_likely_merges` it goes only to commits that are likely
/// merges. A commit is reached once at most, so a circle of references
/// ends the descent and does not repeat it.
pub fn build_commit_inclusion_tree<'a>(
    index: &Index<'a>,
    commit_list: &[&'a Commit],
    traverse_forward_references: bool,
    only_consider_likely_merges: bool,
) -> (r: Vec<IncludedCommit<'a>>)
    ensures
        included_views(r@) == inclusion_forest(
            index.commits(),
            commit_list@,
            traverse_forward_references,
            only_consider_likely_merges,
        ),
{
    let n = index.len();
    let ghost commits = index.views();
    let ghost revisions = index.revisions();
    let ghost at = seed_places(revisions, commit_list@);
    let mut reached: Vec<bool> = Vec::new();
    let mut i: usize = 0;
    while i < n
        invariant
            i <= n,
            reached.len() == i,
            forall|x: int| 0 <= x < i ==> !reached[x],
        decreases n - i,
    {
        reached.push(false);
        i += 1;
    }
    let mut seeds: Vec<Option<usize>> = Vec::new();
    let mut k: usize = 0;
    while k < commit_list.len()
        invariant
            k <= commit_list.len(),
            n == index.commits().len(),
            reached.len() == n,
            revisions == index.revisions(),
            at == seed_places(revisions, commit_list@),
            seeds.len() == k,
            forall|x: int|
                0 <= x < k ==> match #[trigger] seeds[x] {
                    Some(p) => at[x] == Some(p as int) && p < n,
                    None => at[x] is None,
                },
            forall|p: int| 0 <= p < n ==> (reached[p] <==> at.take(k as int).contains(Some(p))),
        decreases commit_list.len() - k,
    {
        let seed = index.place_of_commit(commit_list[k]);
        assert(at.take(k + 1) =~= at.take(k as int).push(at[k as int]));
        let ghost before = at.take(k as int);
        match seed {
            Some(p) => {
                reached[p] = true;
                assert forall|q: int| 0 <= q < n implies (reached[q] <==> at.take(k + 1).contains(
                    Some(q),
                )) by {
                    if q == p {
                        assert(at.take(k + 1)[k as int] == Some(q));
                    } else if before.contains(Some(q)) {
                        let w = choose|w: int| 0 <= w < before.len() && before[w] == Some(q);
                        assert(at.take(k + 1)[w] == Some(q));
                    }
                }
            },
            None => {
                assert forall|q: int| 0 <= q < n implies (reached[q] <==> at.take(k + 1).contains(
                    Some(q),
                )) by {
                    if before.contains(Some(q)) {
                        let w = choose|w: int| 0 <= w < before.len() && before[w] == Some(q);
                        assert(at.take(k + 1)[w] == Some(q));
                    }
                }
            },
        }
        seeds.push(seed);
        k += 1;
    }
    assert(at.take(commit_list.len() as int) =~= at);
    assert(unreached_of(reached@) =~= unreached_at_start(n as nat, at));
    let ghost whole = expand_seeds(
        commits,
        traverse_forward_references,
        only_consider_likely_merges,
        at,
        unreached_at_start(n as nat, at),
    );
    let ghost mut linked: Seq<Seq<Inclusion>> = Seq::empty();
    let mut out: Vec<IncludedCommit<'a>> = Vec::new();
    let mut k: usize = 0;
    proof {
        assert(at.skip(0) =~= at);
        assert(linked + whole =~= whole);
    }
    while k < commit_list.len()
        invariant
            k <= commit_list.len(),
            n == index.commits().len(),
            reached.len() == n,
            commits == index.views(),
            at.len() == commit_list.len(),
            seeds.len() == commit_list.len(),
            forall|x: int|
                0 <= x < seeds.len() ==> match #[trigger] seeds[x] {
                    Some(p) => at[x] == Some(p as int) && p < n,
                    None => at[x] is None,
                },
            out.len() == k,
            linked.len() == k,
            forall|x: int|
                0 <= x < k ==> (#[trigger] out[x])@ == (IncludedCommitView {
                    commit: *commit_list[x],
                    linked: trees_of_commits(linked[x], index.commits()),
                }),
            whole == linked + expand_seeds(
                commits,
                traverse_forward_references,
                only_consider_likely_merges,
                at.skip(k as int),
                unreached_of(reached@),
            ),
        decreases commit_list.len() - k,
    {
        let commit = commit_list[k];
        let ghost unreached = unreached_of(reached@);
        assert(at.skip(k as int).first() == at[k as int]);
        assert(at.skip(k as int).drop_first() =~= at.skip(k + 1));
        let linked_commits = match seeds[k] {
            Some(p) => {
                let references = if traverse_forward_references {
                    index.references_from(p)
                } else {
                    index.references_to(p)
                };
                visit_linked_commits(
                    index,
                    &mut reached,
                    traverse_forward_references,
                    only_consider_likely_merges,
                    references,
                )
            },
            None => Vec::new(),
        };
        let ghost trees = match seeds[k as int] {
            Some(p) => expand(
                commits,
                traverse_forward_references,
                only_consider_likely_merges,
                references_of(commits, traverse_forward_references, p as int),
                unreached,
            ).0,
            None => Seq::empty(),
        };
        assert(included_views(linked_commits@) =~= trees_of_commits(trees, index.commits()));
        let included = IncludedCommit { commit, linked_commits };
        proof {
            let views = included_views(included.linked_commits@);
            assert forall|x: int| 0 <= x < trees.len() implies included@.linked[x]
                == trees_of_commits(trees, index.commits())[x] by {
                assert(views[x] == included.linked_commits[x]@);
            }
            assert(included@.linked =~= trees_of_commits(trees, index.commits()));
            let rest = expand_seeds(
                commits,
                traverse_forward_references,
                only_consider_likely_merges,
                at.skip(k + 1),
                unreached_of(reached@),
            );
            assert(linked.push(trees) + rest =~= linked + (seq![trees] + rest));
            linked = linked.push(trees);
        }
        out.push(included);
        k += 1;
    }
    proof {
        assert(at.skip(commit_list.len() as int) =~= Seq::empty());
        assert(linked + Seq::<Seq<Inclusion>>::empty() =~= linked);
        assert(included_views(out@) =~= inclusion_forest(
            index.commits(),
            commit_list@,
            traverse_forward_references,
            only_consider_likely_merges,
        ));
    }
    out
}

/// The number of commits in a tree.
pub open spec fn size_of(tree: IncludedCommitView) -> nat
    decreases tree,
{
    1 + total_size(tree.linked)
}

/// The number of commits in a forest.
pub open spec fn total_size(forest: Seq<IncludedCommitView>) -> nat
    decreases forest,
{
    if forest.len() == 0 {
        0
    } else {
        total_size(forest.drop_last()) + size_of(forest.last())
    }
}

/// Two forests together hold the commits of both.
pub proof fn lemma_total_size_additive(a: Seq<IncludedCommitView>, b: Seq<IncludedCommitView>)
    ensures
        total_size(a + b) == total_size(a) + total_size(b),
    decreases b.len(),
{
    if b.len() == 0 {
        assert(a + b =~= a);
    } else {
        lemma_total_size_additive(a, b.drop_last());
        assert((a + b).drop_last() =~= a + b.drop_last());
        assert((a + b).last() == b.last());
    }
}

/// A forest without its first tree holds the other commits.
pub proof fn lemma_total_size_first(forest: Seq<IncludedCommitView>)
    requires
        forest.len() > 0,
    ensures
        total_size(forest) == size_of(forest.first()) + total_size(forest.drop_first()),
{
    let head = seq![forest.first()];
    assert(forest =~= head + forest.drop_first());
    lemma_total_size_additive(head, forest.drop_first());
    assert(head.drop_last() =~= Seq::<IncludedCommitView>::empty());
    assert(total_size(Seq::<IncludedCommitView>::empty()) == 0);
    assert(head.last() == forest.first());
    assert(total_size(head) == total_size(head.drop_last()) + size_of(head.last()));
}

/// The commits of a forest, those nearer to the top first: the commits at
/// the top in their order, then the commits linked to them, then those
/// linked to these, and so on. `queue` holds the trees whose commits are
/// still to come.
pub open spec fn breadth_first(queue: Seq<IncludedCommitView>) -> Seq<Commit>
    decreases total_size(queue),
{
    if queue.len() == 0 {
        Seq::empty()
    } else {
        proof {
            lemma_total_size_first(queue);
            lemma_total_size_additive(queue.drop_first(), queue.first().linked);
        }
        seq![queue.first().commit] + breadth_first(queue.drop_first() + queue.first().linked)
    }
}

/// What each tree that `queue` refers to holds.
pub open spec fn referred_views(queue: Seq<&IncludedCommit>) -> Seq<IncludedCommitView> {
    Seq::new(queue.len(), |k: int| queue[k]@)
}

/// The commits that `list` refers to.
pub open spec fn referred_commits(list: Seq<&Commit>) -> Seq<Commit> {
    Seq::new(list.len(), |k: int| *list[k])
}

/// The commits of a forest in one list, those nearer to the top first.
pub fn flatten_inclusion_tree<'a, 'b>(inclusion_tree: &'b [IncludedCommit<'a>]) -> (r: Vec<
    &'a Commit,
>)
    ensures
        referred_commits(r@) == breadth_first(included_views(inclusion_tree@)),
{
    let ghost whole = breadth_first(included_views(inclusion_tree@));
    let mut queue: Vec<&'b IncludedCommit<'a>> = Vec::new();
    let mut i: usize = 0;
    while i < inclusion_tree.len()
        invariant
            i <= inclusion_tree.len(),
            queue.len() == i,
            forall|k: int| 0 <= k < i ==> *queue[k] == inclusion_tree[k],
        decreases inclusion_tree.len() - i,
    {
        queue.push(&inclusion_tree[i]);
        i += 1;
    }
    assert(referred_views(queue@) =~= included_views(inclusion_tree@));
    let mut out: Vec<&'a Commit> = Vec::new();
    let mut head: usize = 0;
    proof {
        assert(referred_views(queue@).skip(0) =~= referred_views(queue@));
        assert(referred_commits(out@) + whole =~= whole);
    }
    while head < queue.len()
        invariant
            head <= queue.len(),
            whole == referred_commits(out@) + breadth_first(
                referred_views(queue@).skip(head as int),
            ),
        decreases total_size(referred_views(queue@).skip(head as int)),
    {
        let node = queue[head];
        let ghost waiting = referred_views(queue@).skip(head as int);
        let ghost before = queue@;
        assert(waiting.first() == node@);
        proof {
            lemma_total_size_first(waiting);
            lemma_total_size_additive(waiting.drop_first(), node@.linked);
        }
        let ghost listed = referred_commits(out@);
        out.push(node.commit);
        assert(referred_commits(out@) =~= listed.push(*node.commit));
        let mut k: usize = 0;
        while k < node.linked_commits.len()
            invariant
                k <= node.linked_commits.len(),
                head < before.len(),
                queue.len() == before.len() + k,
                forall|x: int| 0 <= x < before.len() ==> queue[x] == before[x],
                forall|x: int| 0 <= x < k ==> *queue[before.len() + x] == node.linked_commits[x],
            decreases node.linked_commits.len() - k,
        {
            queue.push(&node.linked_commits[k]);
            k += 1;
        }
        head += 1;
        proof {
            assert(referred_views(queue@).skip(head as int) =~= waiting.drop_first()
                + node@.linked);
            assert(listed.push(*node.commit) + breadth_first(
                waiting.drop_first() + node@.linked,
            ) =~= listed + (seq![node@.commit] + breadth_first(
                waiting.drop_first() + node@.linked,
            )));
        }
    }
    proof {
        assert(referred_views(queue@).skip(head as int) =~= Seq::empty());
        assert(referred_commits(out@) + Seq::<Commit>::empty() =~= referred_commits(out@));
    }
    out
}

/// The places of the commits of a tree, the commit at its top first.
pub open spec fn places_of_tree(tree: Inclusion) -> Seq<int>
    decreases tree,
{
    seq![tree.place] + places_of_forest(tree.linked)
}

/// The places of the commits of a forest, tree by tree.
pub open spec fn places_of_forest(forest: Seq<Inclusion>) -> Seq<int>
    decreases forest,
{
    if forest.len() == 0 {
        Seq::empty()
    } else {
        places_of_forest(forest.drop_last()) + places_of_tree(forest.last())
    }
}

/// The places of two forests together are those of the one and then those
/// of the other.
pub proof fn lemma_places_additive(a: Seq<Inclusion>, b: Seq<Inclusion>)
    ensures
        places_of_forest(a + b) == places_of_forest(a) + places_of_forest(b),
    decreases b.len(),
{
    if b.len() == 0 {
        assert(a + b =~= a);
        assert(places_of_forest(a) + Seq::<int>::empty() =~= places_of_forest(a));
    } else {
        lemma_places_additive(a, b.drop_last());
        assert((a + b).drop_last() =~= a + b.drop_last());
        assert((a + b).last() == b.last());
        assert(places_of_forest(a + b) =~= places_of_forest(a) + places_of_forest(b));
    }
}

/// Every commit in the trees that an expansion makes was not reached
/// before it and is reached after it, and none stands in them twice. So
/// references that go in a circle bring no commit in a second time.
pub proof fn lemma_expand_reaches_once(
    commits: Seq<CommitView>,
    forward: bool,
    only_merges: bool,
    targets: Seq<int>,
    unreached: Set<int>,
)
    requires
        unreached.finite(),
    ensures
        ({
            let found = expand(commits, forward, only_merges, targets, unreached);
            let reached = places_of_forest(found.0);
            &&& reached.no_duplicates()
            &&& forall|k: int|
                0 <= k < reached.len() ==> unreached.contains(#[trigger] reached[k])
                    && !found.1.contains(reached[k])
            &&& found.1.subset_of(unreached)
        }),
    decreases unreached.len(), targets.len(),
{
    if targets.len() > 0 {
        let target = targets.first();
        let rest = targets.drop_first();
        if !unreached.contains(target) || !admits(commits, only_merges, target) {
            lemma_expand_reaches_once(commits, forward, only_merges, rest, unreached);
        } else {
            let inner = unreached.remove(target);
            let below = expand(
                commits,
                forward,
                only_merges,
                references_of(commits, forward, target),
                inner,
            );
            lemma_expand_reaches_once(
                commits,
                forward,
                only_merges,
                references_of(commits, forward, target),
                inner,
            );
            lemma_len_intersect(inner, below.1);
            assert(inner.intersect(below.1) =~= below.1);
            let after = expand(commits, forward, only_merges, rest, below.1);
            lemma_expand_reaches_once(commits, forward, only_merges, rest, below.1);
            let tree = Inclusion { place: target, linked: below.0 };
            let first = places_of_tree(tree);
            let second = places_of_forest(after.0);
            let under = places_of_forest(below.0);
            lemma_places_additive(seq![tree], after.0);
            assert(seq![tree].drop_last() =~= Seq::<Inclusion>::empty());
            assert(seq![tree].last() == tree);
            assert(places_of_forest(Seq::<Inclusion>::empty()) =~= Seq::<int>::empty());
            assert(places_of_forest(seq![tree]) == places_of_forest(seq![tree].drop_last())
                + places_of_tree(seq![tree].last()));
            assert(places_of_forest(seq![tree]) =~= first);
            assert(first =~= seq![target] + under);
            assert forall|i: int, j: int| 0 <= i < first.len() && 0 <= j < first.len() && i
                != j implies first[i] != first[j] by {
                if i > 0 {
                    assert(first[i] == under[i - 1]);
                }
                if j > 0 {
                    assert(first[j] == under[j - 1]);
                }
            }
            assert forall|i: int, j: int| 0 <= i < first.len() && 0 <= j < second.len() implies first[i]
                != second[j] by {
                if i > 0 {
                    assert(first[i] == under[i - 1]);
                }
            }
            vstd::seq_lib::lemma_no_dup_in_concat(first, second);
            let reached = places_of_forest(seq![tree] + after.0);
            assert forall|k: int| 0 <= k < reached.len() implies unreached.contains(
                #[trigger] reached[k],
            ) && !after.1.contains(reached[k]) by {
                if k == 0 {
                } else if k < first.len() {
                    assert(reached[k] == under[k - 1]);
                } else {
                    assert(reached[k] == second[k - first.len()]);
                }
            }
        }
    } else {
        assert(places_of_forest(Seq::<Inclusion>::empty()) =~= Seq::<int>::empty());
    }
}

/// An expansion reaches every target that it can reach, and from what it
/// has reached it goes on along every reference that it can follow: a
/// target, or a commit that a reached commit refers to, is reached unless
/// it was reached before or is not admitted.
pub proof fn lemma_expand_follows_references(
    commits: Seq<CommitView>,
    forward: bool,
    only_merges: bool,
    targets: Seq<int>,
    unreached: Set<int>,
)
    requires
        unreached.finite(),
    ensures
        ({
            let left = expand(commits, forward, only_merges, targets, unreached).1;
            &&& left.subset_of(unreached)
            &&& forall|k: int|
                0 <= k < targets.len() && admits(commits, only_merges, #[trigger] targets[k])
                    ==> !left.contains(targets[k])
            &&& forall|v: int, k: int|
                unreached.contains(v) && !left.contains(v) && 0 <= k < references_of(
                    commits,
                    forward,
                    v,
                ).len() && admits(
                    commits,
                    only_merges,
                    #[trigger] references_of(commits, forward, v)[k],
                ) ==> !left.contains(references_of(commits, forward, v)[k])
        }),
    decreases unreached.len(), targets.len(),
{
    lemma_expand_reaches(commits, forward, only_merges, targets, unreached);
    if targets.len() > 0 {
        let target = targets.first();
        let rest = targets.drop_first();
        if !unreached.contains(target) || !admits(commits, only_merges, target) {
            lemma_expand_follows_references(commits, forward, only_merges, rest, unreached);
            let left = expand(commits, forward, only_merges, rest, unreached).1;
            assert forall|k: int|
                0 <= k < targets.len() && admits(
                    commits,
                    only_merges,
                    #[trigger] targets[k],
                ) implies !left.contains(targets[k]) by {
                if k > 0 {
                    assert(targets[k] == rest[k - 1]);
                }
            }
        } else {
            let inner = unreached.remove(target);
            let links = references_of(commits, forward, target);
            let below = expand(commits, forward, only_merges, links, inner);
            lemma_expand_reaches(commits, forward, only_merges, links, inner);
            lemma_expand_follows_references(commits, forward, only_merges, links, inner);
            lemma_len_intersect(inner, below.1);
            assert(inner.intersect(below.1) =~= below.1);
            let after = expand(commits, forward, only_merges, rest, below.1);
            lemma_expand_reaches(commits, forward, only_merges, rest, below.1);
            lemma_expand_follows_references(commits, forward, only_merges, rest, below.1);
            let left = after.1;
            assert forall|k: int|
                0 <= k < targets.len() && admits(
                    commits,
                    only_merges,
                    #[trigger] targets[k],
                ) implies !left.contains(targets[k]) by {
                if k > 0 {
                    assert(targets[k] == rest[k - 1]);
                }
            }
            assert forall|v: int, k: int|
                unreached.contains(v) && !left.contains(v) && 0 <= k < references_of(
                    commits,
                    forward,
                    v,
                ).len() && admits(
                    commits,
                    only_merges,
                    #[trigger] references_of(commits, forward, v)[k],
                ) implies !left.contains(references_of(commits, forward, v)[k]) by {
                let x = references_of(commits, forward, v)[k];
                if left.contains(x) {
                    assert(below.1.contains(x));
                    assert(inner.contains(x));
                    if v == target {
                        assert(links[k] == x);
                    } else if !below.1.contains(v) {
                        assert(inner.contains(v));
                    }
                }
            }
        }
    }
}

/// The commits in the trees that an expansion makes are the commits that
/// it reaches.
pub proof fn lemma_expand_shows_what_it_reaches(
    commits: Seq<CommitView>,
    forward: bool,
    only_merges: bool,
    targets: Seq<int>,
    unreached: Set<int>,
)
    requires
        unreached.finite(),
    ensures
        ({
            let found = expand(commits, forward, only_merges, targets, unreached);
            forall|v: int|
                places_of_forest(found.0).contains(v) <==> unreached.contains(v)
                    && !found.1.contains(v)
        }),
    decreases unreached.len(), targets.len(),
{
    lemma_expand_reaches_once(commits, forward, only_merges, targets, unreached);
    let found = expand(commits, forward, only_merges, targets, unreached);
    let shown = places_of_forest(found.0);
    if targets.len() == 0 {
        assert(shown =~= Seq::<int>::empty());
    } else {
        let target = targets.first();
        let rest = targets.drop_first();
        if !unreached.contains(target) || !admits(commits, only_merges, target) {
            lemma_expand_shows_what_it_reaches(commits, forward, only_merges, rest, unreached);
        } else {
            let inner = unreached.remove(target);
            let links = references_of(commits, forward, target);
            let below = expand(commits, forward, only_merges, links, inner);
            lemma_expand_reaches(commits, forward, only_merges, links, inner);
            lemma_expand_shows_what_it_reaches(commits, forward, only_merges, links, inner);
            lemma_len_intersect(inner, below.1);
            assert(inner.intersect(below.1) =~= below.1);
            let after = expand(commits, forward, only_merges, rest, below.1);
            lemma_expand_reaches(commits, forward, only_merges, rest, below.1);
            lemma_expand_shows_what_it_reaches(commits, forward, only_merges, rest, below.1);
            let tree = Inclusion { place: target, linked: below.0 };
            let under = places_of_forest(below.0);
            let second = places_of_forest(after.0);
            lemma_places_additive(seq![tree], after.0);
            assert(seq![tree].drop_last() =~= Seq::<Inclusion>::empty());
            assert(seq![tree].last() == tree);
            assert(places_of_forest(Seq::<Inclusion>::empty()) =~= Seq::<int>::empty());
            assert(places_of_forest(seq![tree]) == places_of_forest(seq![tree].drop_last())
                + places_of_tree(seq![tree].last()));
            assert(shown =~= seq![target] + under + second);
            assert forall|v: int| unreached.contains(v) && !found.1.contains(v) implies shown.contains(
                v,
            ) by {
                if v == target {
                    assert(shown[0] == v);
                } else if !below.1.contains(v) {
                    assert(under.contains(v));
                    let i = choose|i: int| 0 <= i < under.len() && under[i] == v;
                    assert(shown[1 + i] == v);
                } else {
                    assert(second.contains(v));
                    let i = choose|i: int| 0 <= i < second.len() && second[i] == v;
                    assert(shown[1 + under.len() + i] == v);
                }
            }
        }
    }
}

/// The places of the commits that stand below the seeds of a traversal.
pub open spec fn places_below(linked: Seq<Seq<Inclusion>>) -> Seq<int>
    decreases linked.len(),
{
    if linked.len() == 0 {
        Seq::empty()
    } else {
        places_of_forest(linked.first()) + places_below(linked.drop_first())
    }
}

/// In the forest of a traversal a commit stands below the top once at
/// most, and only if it was not reached when the traversal started.
pub proof fn lemma_seeds_reach_once(
    commits: Seq<CommitView>,
    forward: bool,
    only_merges: bool,
    seeds: Seq<Option<int>>,
    unreached: Set<int>,
)
    requires
        unreached.finite(),
    ensures
        ({
            let below = places_below(expand_seeds(commits, forward, only_merges, seeds, unreached));
            &&& below.no_duplicates()
            &&& forall|k: int| 0 <= k < below.len() ==> unreached.contains(#[trigger] below[k])
        }),
    decreases seeds.len(),
{
    if seeds.len() > 0 {
        match seeds.first() {
            Some(i) => {
                let found = expand(
                    commits,
                    forward,
                    only_merges,
                    references_of(commits, forward, i),
                    unreached,
                );
                lemma_expand_reaches_once(
                    commits,
                    forward,
                    only_merges,
                    references_of(commits, forward, i),
                    unreached,
                );
                lemma_expand_reaches(
                    commits,
                    forward,
                    only_merges,
                    references_of(commits, forward, i),
                    unreached,
                );
                let rest = expand_seeds(commits, forward, only_merges, seeds.drop_first(), found.1);
                lemma_seeds_reach_once(commits, forward, only_merges, seeds.drop_first(), found.1);
                let all = seq![found.0] + rest;
                assert(all.first() == found.0);
                assert(all.drop_first() =~= rest);
                vstd::seq_lib::lemma_no_dup_in_concat(
                    places_of_forest(found.0),
                    places_below(rest),
                );
            },
            None => {
                let rest = expand_seeds(
                    commits,
                    forward,
                    only_merges,
                    seeds.drop_first(),
                    unreached,
                );
                lemma_seeds_reach_once(commits, forward, only_merges, seeds.drop_first(), unreached);
                let all = seq![Seq::<Inclusion>::empty()] + rest;
                assert(all.first() == Seq::<Inclusion>::empty());
                assert(all.drop_first() =~= rest);
                assert(places_of_forest(Seq::<Inclusion>::empty()) =~= Seq::<int>::empty());
                assert(places_below(all) =~= places_below(rest));
            },
        }
    }
}

/// Whether each commit that stands linked in `tree` is one that the commit
/// above it refers to, and is admitted.
pub open spec fn well_linked(
    commits: Seq<CommitView>,
    forward: bool,
    only_merges: bool,
    tree: Inclusion,
) -> bool
    decreases tree,
{
    forall|k: int|
        0 <= k < tree.linked.len() ==> {
            &&& references_of(commits, forward, tree.place).contains(
                (#[trigger] tree.linked[k]).place,
            )
            &&& admits(commits, only_merges, tree.linked[k].place)
            &&& well_linked(commits, forward, only_merges, tree.linked[k])
        }
}

/// The trees of an expansion grow from its targets along references: the
/// commit at the top of each is an admitted target, and each commit below
/// is an admitted commit that the commit above it refers to.
pub proof fn lemma_expand_links(
    commits: Seq<CommitView>,
    forward: bool,
    only_merges: bool,
    targets: Seq<int>,
    unreached: Set<int>,
)
    requires
        unreached.finite(),
    ensures
        ({
            let trees = expand(commits, forward, only_merges, targets, unreached).0;
            forall|k: int|
                0 <= k < trees.len() ==> {
                    &&& targets.contains((#[trigger] trees[k]).place)
                    &&& admits(commits, only_merges, trees[k].place)
                    &&& well_linked(commits, forward, only_merges, trees[k])
                }
        }),
    decreases unreached.len(), targets.len(),
{
    if targets.len() > 0 {
        let target = targets.first();
        let rest = targets.drop_first();
        if !unreached.contains(target) || !admits(commits, only_merges, target) {
            lemma_expand_links(commits, forward, only_merges, rest, unreached);
            let trees = expand(commits, forward, only_merges, rest, unreached).0;
            assert forall|k: int| 0 <= k < trees.len() implies targets.contains(
                (#[trigger] trees[k]).place,
            ) by {
                let w = choose|w: int| 0 <= w < rest.len() && rest[w] == trees[k].place;
                assert(targets[w + 1] == trees[k].place);
            }
        } else {
            let inner = unreached.remove(target);
            let links = references_of(commits, forward, target);
            let below = expand(commits, forward, only_merges, links, inner);
            lemma_expand_reaches(commits, forward, only_merges, links, inner);
            lemma_expand_links(commits, forward, only_merges, links, inner);
            lemma_len_intersect(inner, below.1);
            assert(inner.intersect(below.1) =~= below.1);
            let after = expand(commits, forward, only_merges, rest, below.1);
            lemma_expand_links(commits, forward, only_merges, rest, below.1);
            let tree = Inclusion { place: target, linked: below.0 };
            let trees = seq![tree] + after.0;
            assert(well_linked(commits, forward, only_merges, tree));
            assert forall|k: int| 0 <= k < trees.len() implies {
                &&& targets.contains((#[trigger] trees[k]).place)
                &&& admits(commits, only_merges, trees[k].place)
                &&& well_linked(commits, forward, only_merges, trees[k])
            } by {
                if k == 0 {
                    assert(targets[0] == target);
                } else {
                    assert(trees[k] == after.0[k - 1]);
                    let w = choose|w: int| 0 <= w < rest.len() && rest[w] == after.0[k - 1].place;
                    assert(targets[w + 1] == trees[k].place);
                }
            }
        }
    }
}

/// The commits not yet reached after the references of each seed in turn
/// are expanded.
pub open spec fn unreached_after_seeds(
    commits: Seq<CommitView>,
    forward: bool,
    only_merges: bool,
    seeds: Seq<Option<int>>,
    unreached: Set<int>,
) -> Set<int>
    decreases seeds.len(),
{
    if seeds.len() == 0 {
        unreached
    } else {
        match seeds.first() {
            Some(i) => unreached_after_seeds(
                commits,
                forward,
                only_merges,
                seeds.drop_first(),
                expand(
                    commits,
                    forward,
                    only_merges,
                    references_of(commits, forward, i),
                    unreached,
                ).1,
            ),
            None => unreached_after_seeds(
                commits,
                forward,
                only_merges,
                seeds.drop_first(),
                unreached,
            ),
        }
    }
}

/// Below the seeds of a traversal stand just the commits that it reaches,
/// and it reaches whatever the seeds and the commits reached refer to,
/// unless that was reached before or is not admitted.
pub proof fn lemma_seeds_follow_references(
    commits: Seq<CommitView>,
    forward: bool,
    only_merges: bool,
    seeds: Seq<Option<int>>,
    unreached: Set<int>,
)
    requires
        unreached.finite(),
    ensures
        ({
            let left = unreached_after_seeds(commits, forward, only_merges, seeds, unreached);
            let below = places_below(expand_seeds(commits, forward, only_merges, seeds, unreached));
            &&& left.subset_of(unreached)
            &&& forall|v: int| below.contains(v) <==> unreached.contains(v) && !left.contains(v)
            &&& forall|s: int, k: int|
                0 <= s < seeds.len() && seeds[s] is Some && 0 <= k < references_of(
                    commits,
                    forward,
                    seeds[s]->0,
                ).len() && admits(
                    commits,
                    only_merges,
                    #[trigger] references_of(commits, forward, seeds[s]->0)[k],
                ) ==> !left.contains(references_of(commits, forward, seeds[s]->0)[k])
            &&& forall|v: int, k: int|
                unreached.contains(v) && !left.contains(v) && 0 <= k < references_of(
                    commits,
                    forward,
                    v,
                ).len() && admits(
                    commits,
                    only_merges,
                    #[trigger] references_of(commits, forward, v)[k],
                ) ==> !left.contains(references_of(commits, forward, v)[k])
        }),
    decreases seeds.len(),
{
    let left = unreached_after_seeds(commits, forward, only_merges, seeds, unreached);
    let linked = expand_seeds(commits, forward, only_merges, seeds, unreached);
    let below = places_below(linked);
    if seeds.len() == 0 {
        assert(below =~= Seq::<int>::empty());
    } else {
        let rest = seeds.drop_first();
        match seeds.first() {
            Some(i) => {
                let links = references_of(commits, forward, i);
                let found = expand(commits, forward, only_merges, links, unreached);
                lemma_expand_reaches(commits, forward, only_merges, links, unreached);
                lemma_expand_follows_references(commits, forward, only_merges, links, unreached);
                lemma_expand_shows_what_it_reaches(commits, forward, only_merges, links, unreached);
                lemma_seeds_follow_references(commits, forward, only_merges, rest, found.1);
                let after = expand_seeds(commits, forward, only_merges, rest, found.1);
                let first = places_of_forest(found.0);
                let second = places_below(after);
                let all = seq![found.0] + after;
                assert(all.first() == found.0);
                assert(all.drop_first() =~= after);
                assert(below =~= first + second);
                assert forall|v: int| below.contains(v) <==> unreached.contains(v)
                    && !left.contains(v) by {
                    if below.contains(v) {
                        let w = choose|w: int| 0 <= w < below.len() && below[w] == v;
                        if w < first.len() {
                            assert(first[w] == v);
                            assert(first.contains(v));
                        } else {
                            assert(second[w - first.len()] == v);
                            assert(second.contains(v));
                        }
                    }
                    if unreached.contains(v) && !left.contains(v) {
                        if !found.1.contains(v) {
                            assert(first.contains(v));
                            let w = choose|w: int| 0 <= w < first.len() && first[w] == v;
                            assert(below[w] == v);
                        } else {
                            assert(second.contains(v));
                            let w = choose|w: int| 0 <= w < second.len() && second[w] == v;
                            assert(below[first.len() + w] == v);
                        }
                    }
                }
                assert forall|s: int, k: int|
                    0 <= s < seeds.len() && seeds[s] is Some && 0 <= k < references_of(
                        commits,
                        forward,
                        seeds[s]->0,
                    ).len() && admits(
                        commits,
                        only_merges,
                        #[trigger] references_of(commits, forward, seeds[s]->0)[k],
                    ) implies !left.contains(references_of(commits, forward, seeds[s]->0)[k]) by {
                    if s == 0 {
                        assert(links[k] == references_of(commits, forward, seeds[s]->0)[k]);
                    } else {
                        assert(seeds[s] == rest[s - 1]);
                    }
                }
            },
            None => {
                lemma_seeds_follow_references(commits, forward, only_merges, rest, unreached);
                let after = expand_seeds(commits, forward, only_merges, rest, unreached);
                let all = seq![Seq::<Inclusion>::empty()] + after;
                assert(all.first() == Seq::<Inclusion>::empty());
                assert(all.drop_first() =~= after);
                assert(places_of_forest(Seq::<Inclusion>::empty()) =~= Seq::<int>::empty());
                assert(below =~= places_below(after));
                assert forall|s: int, k: int|
                    0 <= s < seeds.len() && seeds[s] is Some && 0 <= k < references_of(
                        commits,
                        forward,
                        seeds[s]->0,
                    ).len() && admits(
                        commits,
                        only_merges,
                        #[trigger] references_of(commits, forward, seeds[s]->0)[k],
                    ) implies !left.contains(references_of(commits, forward, seeds[s]->0)[k]) by {
                    if s > 0 {
                        assert(seeds[s] == rest[s - 1]);
                    }
                }
            },
        }
    }
}

/// Whether the commit at place `v` stands in the forest of a traversal
/// from `seeds`: at its top as a seed, or below the top.
pub open spec fn stands_in_forest(
    commits: Seq<CommitView>,
    forward: bool,
    only_merges: bool,
    seeds: Seq<Option<int>>,
    v: int,
) -> bool {
    seeds.contains(Some(v)) || places_below(
        expand_seeds(
            commits,
            forward,
            only_merges,
            seeds,
            unreached_at_start(commits.len(), seeds),
        ),
    ).contains(v)
}

/// The forest of a traversal leaves nothing out: a commit that a commit
/// of the forest refers to stands in the forest too, unless it is not
/// admitted. So every commit to which references lead from a seed, by
/// however many steps, stands in the forest.
pub proof fn lemma_traversal_follows_references(
    commits: Seq<CommitView>,
    forward: bool,
    only_merges: bool,
    seeds: Seq<Option<int>>,
    v: int,
    k: int,
)
    requires
        stands_in_forest(commits, forward, only_merges, seeds, v),
        0 <= k < references_of(commits, forward, v).len(),
        0 <= references_of(commits, forward, v)[k] < commits.len(),
        admits(commits, only_merges, references_of(commits, forward, v)[k]),
    ensures
        stands_in_forest(
            commits,
            forward,
            only_merges,
            seeds,
            references_of(commits, forward, v)[k],
        ),
{
    let unreached = unreached_at_start(commits.len(), seeds);
    let range = vstd::set_lib::set_int_range(0, commits.len() as int);
    vstd::set_lib::lemma_int_range(0, commits.len() as int);
    vstd::set_lib::lemma_len_subset(unreached, range);
    lemma_seeds_follow_references(commits, forward, only_merges, seeds, unreached);
    let x = references_of(commits, forward, v)[k];
    if !seeds.contains(Some(x)) {
        assert(unreached.contains(x));
        if seeds.contains(Some(v)) {
            let s = choose|s: int| 0 <= s < seeds.len() && seeds[s] == Some(v);
            assert(references_of(commits, forward, seeds[s]->0)[k] == x);
        }
    }
}

/// In the forest of a traversal no commit stands below the top twice, and
/// none that the traversal started from stands below the top at all: each
/// of them stands at the top and nowhere else, however the references go.
pub proof fn lemma_traversal_reaches_once(
    commits: Seq<CommitView>,
    forward: bool,
    only_merges: bool,
    seeds: Seq<Option<int>>,
)
    ensures
        ({
            let below = places_below(
                expand_seeds(
                    commits,
                    forward,
                    only_merges,
                    seeds,
                    unreached_at_start(commits.len(), seeds),
                ),
            );
            &&& below.no_duplicates()
            &&& forall|k: int|
                0 <= k < below.len() ==> 0 <= #[trigger] below[k] < commits.len()
                    && !seeds.contains(Some(below[k]))
        }),
{
    let unreached = unreached_at_start(commits.len(), seeds);
    let range = vstd::set_lib::set_int_range(0, commits.len() as int);
    vstd::set_lib::lemma_int_range(0, commits.len() as int);
    vstd::set_lib::lemma_len_subset(unreached, range);
    lemma_seeds_reach_once(commits, forward, only_merges, seeds, unreached);
}

/// Two traversals over the same commits, from the same commits and in the
/// same way, give the same forest: the same commits in the same nesting.
pub proof fn lemma_traversal_repeats(
    first: Seq<IncludedCommit>,
    second: Seq<IncludedCommit>,
    commits: Seq<Commit>,
    seeds: Seq<&Commit>,
    forward: bool,
    only_merges: bool,
)
    requires
        included_views(first) == inclusion_forest(commits, seeds, forward, only_merges),
        included_views(second) == inclusion_forest(commits, seeds, forward, only_merges),
    ensures
        included_views(first) == included_views(second),
        first.len() == second.len(),
        forall|k: int| 0 <= k < first.len() ==> (#[trigger] first[k])@ == second[k]@,
{
    assert(included_views(first).len() == first.len());
    assert(included_views(second).len() == second.len());
    assert forall|k: int| 0 <= k < first.len() implies (#[trigger] first[k])@ == second[k]@ by {
        assert(included_views(first)[k] == first[k]@);
        assert(included_views(second)[k] == second[k]@);
    }
}

/// The names in the lines of a listing: each line without the white space
/// at its ends, unless nothing is left of it.
pub open spec fn names_in(lines: Seq<Seq<char>>) -> Seq<Seq<char>>
    decreases lines.len(),
{
    if lines.len() == 0 {
        Seq::empty()
    } else {
        let before = names_in(lines.drop_last());
        let name = crate::text::trim(lines.last());
        if name.len() == 0 {
            before
        } else {
            before.push(name)
        }
    }
}

/// The names that a listing holds, one to a line: the branches or the tags
/// that the history provider lists.
pub open spec fn listed_names(listing: Seq<char>) -> Seq<Seq<char>> {
    names_in(crate::text::lines(listing))
}

/// The names that a listing holds, as characters.
fn read_names(listing: &str) -> (r: Vec<Vec<char>>)
    ensures
        crate::text::views(r@) == listed_names(listing@),
{
    let chars = crate::text::chars_of(listing);
    let lines = crate::text::split_lines(chars.as_slice());
    let ghost all = crate::text::views(lines@);
    let mut out: Vec<Vec<char>> = Vec::new();
    let mut k: usize = 0;
    assert(all.take(0) =~= Seq::empty());
    assert(crate::text::views(out@) =~= Seq::empty());
    while k < lines.len()
        invariant
            k <= lines.len(),
            all == crate::text::views(lines@),
            crate::text::views(out@) == names_in(all.take(k as int)),
        decreases lines.len() - k,
    {
        assert(all.take(k + 1).drop_last() =~= all.take(k as int));
        assert(all.take(k + 1).last() == lines[k as int]@);
        let name = crate::text::trimmed(lines[k].as_slice());
        if name.len() > 0 {
            let ghost before = crate::text::views(out@);
            out.push(name);
            assert(crate::text::views(out@) =~= before.push(name@));
        }
        k += 1;
    }
    assert(all.take(lines.len() as int) =~= all);
    out
}

/// Reads the names that a listing holds, one to a line.
pub fn read_listed_names(listing: &str) -> (r: Vec<String>)
    ensures
        r.deep_view() == listed_names(listing@),
{
    let names = read_names(listing);
    crate::text::strings_of(&names)
}

/// A line of a listing of revision ids that names no commit, and why.
#[derive(Debug, Clone, Copy, PartialEq, Eq, Structural)]
pub struct UnlistedRevision {
    /// The place of the revision id among those of the listing, from 0.
    pub place: usize,
    /// Why the lookup found no commit.
    pub cause: crate::index::LookupError,
}

/// The places of the commits that the revision ids name, in their order,
/// or the first revision id that names none.
pub open spec fn places_of_revisions(revisions: Seq<Seq<char>>, named: Seq<Seq<char>>) -> Result<
    Seq<int>,
    UnlistedRevision,
>
    decreases named.len(),
{
    if named.len() == 0 {
        Ok(Seq::empty())
    } else {
        match places_of_revisions(revisions, named.drop_last()) {
            Err(e) => Err(e),
            Ok(before) => match crate::index::lookup_revision(revisions, named.last()) {
                Ok(i) => Ok(before.push(i)),
                Err(cause) => Err(UnlistedRevision { place: (named.len() - 1) as usize, cause }),
            },
        }
    }
}

/// Once a revision id names no commit, those after it do not change the
/// error.
pub proof fn lemma_unlisted_stays(revisions: Seq<Seq<char>>, named: Seq<Seq<char>>, n: int)
    requires
        0 <= n <= named.len(),
        places_of_revisions(revisions, named.take(n)) is Err,
    ensures
        places_of_revisions(revisions, named) == places_of_revisions(revisions, named.take(n)),
    decreases named.len(),
{
    if n == named.len() {
        assert(named.take(n) =~= named);
    } else {
        assert(named.drop_last().take(n) =~= named.take(n));
        lemma_unlisted_stays(revisions, named.drop_last(), n);
    }
}

/// Finds the commits that a listing of revision ids names, one to a line,
/// as the history provider lists the commits of a range.
pub fn commits_of_listing<'a>(index: &Index<'a>, listing: &str) -> (r: Result<
    Vec<&'a Commit>,
    UnlistedRevision,
>)
    ensures
        match places_of_revisions(index.revisions(), listed_names(listing@)) {
            Ok(found) => {
                &&& r matches Ok(list)
                &&& crate::index::holds_commits(list@, found, index.commits())
            },
            Err(e) => r == Err::<Vec<&Commit>, UnlistedRevision>(e),
        },
{
    let names = read_listed_names(listing);
    let ghost named = listed_names(listing@);
    let ghost revisions = index.revisions();
    let ghost mut found: Seq<int> = Seq::empty();
    let mut out: Vec<&'a Commit> = Vec::new();
    let mut k: usize = 0;
    assert(named.take(0) =~= Seq::empty());
    while k < names.len()
        invariant
            k <= names.len(),
            named == names.deep_view(),
            named == listed_names(listing@),
            revisions == index.revisions(),
            places_of_revisions(revisions, named.take(k as int)) == Ok::<
                Seq<int>,
                UnlistedRevision,
            >(found),
            crate::index::holds_commits(out@, found, index.commits()),
        decreases names.len() - k,
    {
        assert(named.take(k + 1).drop_last() =~= named.take(k as int));
        assert(named.take(k + 1).last() == names[k as int]@);
        match index.place_of_revision(names[k].as_str()) {
            Ok(i) => {
                out.push(index.commit_at(i));
                proof {
                    found = found.push(i as int);
                }
            },
            Err(cause) => {
                proof {
                    lemma_unlisted_stays(revisions, named, k + 1);
                }
                return Err(UnlistedRevision { place: k, cause });
            },
        }
        k += 1;
    }
    assert(named.take(names.len() as int) =~= named);
    Ok(out)
}

/// The forest of the commits that a listing of revision ids names: each
/// of them at the top, and below it the commits that its references lead
/// to. The listing is what the history provider answers to the arguments
/// of `search_arguments`.
pub fn get_search_results<'a>(index: &Index<'a>, listing: &str) -> (r: Result<
    Vec<IncludedCommit<'a>>,
    UnlistedRevision,
>)
    ensures
        match places_of_revisions(index.revisions(), listed_names(listing@)) {
            Ok(found) => {
                &&& r matches Ok(forest)
                &&& exists|seeds: Seq<&Commit>|
                    crate::index::holds_commits(seeds, found, index.commits()) && included_views(
                        forest@,
                    ) == #[trigger] inclusion_forest(index.commits(), seeds, true, false)
            },
            Err(e) => r == Err::<Vec<IncludedCommit>, UnlistedRevision>(e),
        },
{
    match commits_of_listing(index, listing) {
        Ok(commit_list) => Ok(
            build_commit_inclusion_tree(index, commit_list.as_slice(), true, false),
        ),
        Err(e) => Err(e),
    }
}

/// Whether a commit names one of `tickets`.
pub open spec fn names_ticket(commit: CommitView, tickets: Seq<Seq<char>>) -> bool {
    exists|t: int, j: int|
        0 <= t < tickets.len() && 0 <= j < commit.jira_tickets.len() && #[trigger] tickets[t]
            == #[trigger] commit.jira_tickets[j]
}

/// The places of the commits that name one of `tickets`, in their order.
pub open spec fn places_with_tickets(commits: Seq<CommitView>, tickets: Seq<Seq<char>>) -> Seq<int>
    decreases commits.len(),
{
    if commits.len() == 0 {
        Seq::empty()
    } else {
        let before = places_with_tickets(commits.drop_last(), tickets);
        if names_ticket(commits.last(), tickets) {
            before.push(commits.len() - 1)
        } else {
            before
        }
    }
}

/// Tells whether `commit` names one of `tickets`.
fn has_ticket(commit: &Commit, tickets: &[String]) -> (r: bool)
    ensures
        r == names_ticket(commit@, tickets.deep_view()),
{
    let ghost wanted = tickets.deep_view();
    let ghost named = commit.jira_tickets.deep_view();
    let mut t: usize = 0;
    while t < tickets.len()
        invariant
            t <= tickets.len(),
            wanted == tickets.deep_view(),
            named == commit.jira_tickets.deep_view(),
            forall|a: int, b: int|
                0 <= a < t && 0 <= b < named.len() ==> #[trigger] wanted[a] != #[trigger] named[b],
        decreases tickets.len() - t,
    {
        let mut j: usize = 0;
        while j < commit.jira_tickets.len()
            invariant
                j <= commit.jira_tickets.len(),
                t < tickets.len(),
                wanted == tickets.deep_view(),
                named == commit.jira_tickets.deep_view(),
                forall|b: int| 0 <= b < j ==> wanted[t as int] != #[trigger] named[b],
            decreases commit.jira_tickets.len() - j,
        {
            if tickets[t] == commit.jira_tickets[j] {
                assert(wanted[t as int] == commit@.jira_tickets[j as int]);
                return true;
            }
            j += 1;
        }
        t += 1;
    }
    false
}

/// The commits that name one of `tickets`, in their order.
pub fn commits_with_tickets<'a>(commits: &'a [Commit], tickets: &[String]) -> (r: Vec<&'a Commit>)
    ensures
        crate::index::holds_commits(
            r@,
            places_with_tickets(commit_views(commits@), tickets.deep_view()),
            commits@,
        ),
{
    let ghost all = commit_views(commits@);
    let ghost mut found: Seq<int> = Seq::empty();
    let mut out: Vec<&'a Commit> = Vec::new();
    let mut i: usize = 0;
    assert(all.take(0) =~= Seq::empty());
    while i < commits.len()
        invariant
            i <= commits.len(),
            all == commit_views(commits@),
            found == places_with_tickets(all.take(i as int), tickets.deep_view()),
            crate::index::holds_commits(out@, found, commits@),
        decreases commits.len() - i,
    {
        assert(all.take(i + 1).drop_last() =~= all.take(i as int));
        assert(all.take(i + 1).last() == commits[i as int]@);
        if has_ticket(&commits[i], tickets) {
            out.push(&commits[i]);
            proof {
                found = found.push(i as int);
            }
        }
        i += 1;
    }
    assert(all.take(commits.len() as int) =~= all);
    out
}

} // verus!
