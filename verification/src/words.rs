//! The words of a command line, split as a shell splits them by the
//! `shell-words` crate, and the arguments that the history provider takes.

use crate::order::sorted_places;
use crate::text::{chars_of, views};
use vstd::prelude::*;

verus! {

/// What `shell_words::split` makes of a text: its words, or `None` where a
/// quote is not closed.
pub uninterp spec fn shell_words_of(text: Seq<char>) -> Option<Seq<Seq<char>>>;

/// Calls `shell_words::split`, which parts a text into words by the rules
/// of a shell and fails where a quote is not closed. The outcome depends on
/// the text alone.
#[verifier::external_body]
pub(crate) fn split_shell_words(text: &str) -> (r: Option<Vec<String>>)
    ensures
        r.deep_view() == shell_words_of(text@),
{
    shell_words::split(text).ok()
}

/// A text whose quotes are not closed, by its place in a list of texts.
#[derive(Debug, Clone, Copy, PartialEq, Eq, Structural)]
pub struct UnclosedQuote {
    /// The place of the text, from 0.
    pub place: usize,
}

/// The words of each of `sets` in one list, or the first of `sets` whose
/// quotes are not closed.
pub open spec fn words_of_each(sets: Seq<Seq<char>>) -> Result<Seq<Seq<char>>, UnclosedQuote>
    decreases sets.len(),
{
    if sets.len() == 0 {
        Ok(Seq::empty())
    } else {
        match words_of_each(sets.drop_last()) {
            Err(e) => Err(e),
            Ok(before) => match shell_words_of(sets.last()) {
                Some(words) => Ok(before + words),
                None => Err(UnclosedQuote { place: (sets.len() - 1) as usize }),
            },
        }
    }
}

/// Once a text has a quote that is not closed, the texts after it do not
/// change the error.
pub proof fn lemma_unclosed_stays(sets: Seq<Seq<char>>, n: int)
    requires
        0 <= n <= sets.len(),
        words_of_each(sets.take(n)) is Err,
    ensures
        words_of_each(sets) == words_of_each(sets.take(n)),
    decreases sets.len(),
{
    if n == sets.len() {
        assert(sets.take(n) =~= sets);
    } else {
        assert(sets.drop_last().take(n) =~= sets.take(n));
        lemma_unclosed_stays(sets.drop_last(), n);
    }
}

/// Whether the texts never go down in the order of a dictionary.
pub open spec fn sorted(texts: Seq<Seq<char>>) -> bool {
    forall|a: int, b: int|
        0 <= a < b < texts.len() ==> !crate::order::precedes(
            #[trigger] texts[b],
            #[trigger] texts[a],
        )
}

/// The words of each of `string_sets`, as a shell splits them.
pub fn split_each(string_sets: &Vec<String>) -> (r: Result<Vec<Vec<char>>, UnclosedQuote>)
    ensures
        match r {
            Ok(words) => words_of_each(string_sets.deep_view()) == Ok::<
                Seq<Seq<char>>,
                UnclosedQuote,
            >(views(words@)),
            Err(e) => words_of_each(string_sets.deep_view()) == Err::<
                Seq<Seq<char>>,
                UnclosedQuote,
            >(e),
        },
{
    let ghost sets = string_sets.deep_view();
    let mut out: Vec<Vec<char>> = Vec::new();
    let mut i: usize = 0;
    assert(sets.take(0) =~= Seq::empty());
    assert(views(out@) =~= Seq::empty());
    while i < string_sets.len()
        invariant
            i <= string_sets.len(),
            sets == string_sets.deep_view(),
            words_of_each(sets.take(i as int)) == Ok::<Seq<Seq<char>>, UnclosedQuote>(
                views(out@),
            ),
        decreases string_sets.len() - i,
    {
        assert(sets.take(i + 1).drop_last() =~= sets.take(i as int));
        assert(sets.take(i + 1).last() == string_sets[i as int]@);
        match split_shell_words(string_sets[i].as_str()) {
            Some(words) => {
                let ghost before = views(out@);
                let ghost found = words.deep_view();
                let mut k: usize = 0;
                assert(before + found.take(0) =~= before);
                while k < words.len()
                    invariant
                        k <= words.len(),
                        found == words.deep_view(),
                        views(out@) == before + found.take(k as int),
                    decreases words.len() - k,
                {
                    let word = chars_of(words[k].as_str());
                    let ghost old_out = views(out@);
                    out.push(word);
                    assert(views(out@) =~= old_out.push(found[k as int]));
                    assert(views(out@) =~= before + found.take(k + 1));
                    k += 1;
                }
                assert(found.take(words.len() as int) =~= found);
            },
            None => {
                proof {
                    lemma_unclosed_stays(sets, i + 1);
                }
                return Err(UnclosedQuote { place: i });
            },
        }
        i += 1;
    }
    assert(sets.take(string_sets.len() as int) =~= sets);
    Ok(out)
}

/// Whether `a` is `b` in the order that `order` gives: `order` names each
/// place of `b` once, and `a` holds at each place what `b` holds at the
/// place named.
pub open spec fn rearranged_by(a: Seq<Seq<char>>, b: Seq<Seq<char>>, order: Seq<int>) -> bool {
    &&& order.len() == a.len()
    &&& a.len() == b.len()
    &&& order.no_duplicates()
    &&& forall|x: int| 0 <= x < order.len() ==> 0 <= #[trigger] order[x] < b.len()
    &&& forall|x: int| 0 <= x < a.len() ==> #[trigger] a[x] == b[order[x]]
}

/// Whether `a` holds what `b` holds, each text as often, in some order.
pub open spec fn rearranged(a: Seq<Seq<char>>, b: Seq<Seq<char>>) -> bool {
    exists|order: Seq<int>| rearranged_by(a, b, order)
}

/// The texts of `items` in the order of a dictionary.
pub fn sort_texts(items: &Vec<Vec<char>>) -> (r: Vec<String>)
    ensures
        sorted(r.deep_view()),
        rearranged(r.deep_view(), views(items@)),
{
    let order = sorted_places(items);
    let ghost texts = views(items@);
    let mut out: Vec<String> = Vec::new();
    let mut k: usize = 0;
    while k < order.len()
        invariant
            k <= order.len(),
            texts == views(items@),
            crate::order::names_keys(order@, items.len() as nat),
            out.len() == k,
            forall|x: int| 0 <= x < k ==> #[trigger] out.deep_view()[x] == texts[order[x] as int],
        decreases order.len() - k,
    {
        let text = crate::text::string_of(items[order[k]].as_slice());
        let ghost before = out.deep_view();
        out.push(text);
        assert(out.deep_view() =~= before.push(texts[order[k as int] as int]));
        k += 1;
    }
    proof {
        let named = Seq::new(order.len() as nat, |x: int| order[x] as int);
        assert(rearranged_by(out.deep_view(), texts, named));
    }
    out
}

/// The words of each of `string_sets`, as a shell splits them, in one list
/// and in the order of a dictionary: of `"b a"` and `"c"` the words `a`,
/// `b` and `c`.
pub fn flatten_string_sets_on_shell_words(string_sets: &Vec<String>) -> (r: Result<
    Vec<String>,
    UnclosedQuote,
>)
    ensures
        match words_of_each(string_sets.deep_view()) {
            Ok(words) => {
                &&& r matches Ok(list)
                &&& sorted(list.deep_view())
                &&& rearranged(list.deep_view(), words)
            },
            Err(e) => r == Err::<Vec<String>, UnclosedQuote>(e),
        },
{
    match split_each(string_sets) {
        Ok(words) => Ok(sort_texts(&words)),
        Err(e) => Err(e),
    }
}

/// The arguments of the history provider for the list of the revision ids
/// that a range names: the words of the range after the format; then the
/// option that leaves structural merges out, unless they are wanted;
/// then, after a separator, the paths that a commit has to touch, if there
/// are any.
pub open spec fn arguments_of_words(
    words: Seq<Seq<char>>,
    include_merge_commits: bool,
    affected_filepaths: Seq<Seq<char>>,
) -> Seq<Seq<char>> {
    seq!["log"@, "--pretty=format:%H"@] + words + (if include_merge_commits {
        Seq::<Seq<char>>::empty()
    } else {
        seq!["--no-merges"@]
    }) + (if affected_filepaths.len() == 0 {
        Seq::<Seq<char>>::empty()
    } else {
        seq!["--"@] + affected_filepaths
    })
}

/// The arguments of the history provider for the list of the revision ids
/// that `revspec` names: those of its words, as a shell splits them.
pub open spec fn search_arguments_of(
    revspec: Seq<char>,
    include_merge_commits: bool,
    affected_filepaths: Seq<Seq<char>>,
) -> Option<Seq<Seq<char>>> {
    match shell_words_of(revspec) {
        None => None,
        Some(words) => Some(arguments_of_words(words, include_merge_commits, affected_filepaths)),
    }
}

/// The arguments of the history provider for the list of the revision ids
/// that `revspec` names; `None` where a quote in `revspec` is not closed.
pub fn search_arguments(
    revspec: &str,
    include_merge_commits: bool,
    affected_filepaths: &[String],
) -> (r: Option<Vec<String>>)
    ensures
        r.deep_view() == search_arguments_of(
            revspec@,
            include_merge_commits,
            affected_filepaths.deep_view(),
        ),
{
    match split_shell_words(revspec) {
        Some(words) => Some(arguments_for_words(&words, include_merge_commits, affected_filepaths)),
        None => None,
    }
}

/// The arguments of the history provider for the list of the revision ids
/// that the words of a range name.
pub fn arguments_for_words(
    words: &Vec<String>,
    include_merge_commits: bool,
    affected_filepaths: &[String],
) -> (out: Vec<String>)
    ensures
        out.deep_view() == arguments_of_words(
            words.deep_view(),
            include_merge_commits,
            affected_filepaths.deep_view(),
        ),
{
    let ghost found = words.deep_view();
    let ghost paths = affected_filepaths.deep_view();
    let mut out: Vec<String> = Vec::new();
    out.push("log".to_owned());
    out.push("--pretty=format:%H".to_owned());
    let ghost head = seq!["log"@, "--pretty=format:%H"@];
    assert(out.deep_view() =~= head);
    let mut k: usize = 0;
    assert(head + found.take(0) =~= head);
    while k < words.len()
        invariant
            k <= words.len(),
            found == words.deep_view(),
            out.deep_view() == head + found.take(k as int),
        decreases words.len() - k,
    {
        let ghost before = out.deep_view();
        out.push(words[k].clone());
        assert(out.deep_view() =~= before.push(found[k as int]));
        assert(out.deep_view() =~= head + found.take(k + 1));
        k += 1;
    }
    assert(found.take(words.len() as int) =~= found);
    let ghost middle = if include_merge_commits {
        Seq::<Seq<char>>::empty()
    } else {
        seq!["--no-merges"@]
    };
    if !include_merge_commits {
        let ghost before = out.deep_view();
        out.push("--no-merges".to_owned());
        assert(out.deep_view() =~= before.push("--no-merges"@));
    }
    assert(out.deep_view() =~= head + found + middle);
    if affected_filepaths.len() > 0 {
        let ghost start = out.deep_view();
        out.push("--".to_owned());
        assert(out.deep_view() =~= start.push("--"@));
        let mut k: usize = 0;
        assert(start + (seq!["--"@] + paths.take(0)) =~= start.push("--"@));
        while k < affected_filepaths.len()
            invariant
                k <= affected_filepaths.len(),
                paths == affected_filepaths.deep_view(),
                out.deep_view() == start + (seq!["--"@] + paths.take(k as int)),
            decreases affected_filepaths.len() - k,
        {
            let ghost before = out.deep_view();
            out.push(affected_filepaths[k].clone());
            assert(paths[k as int] == affected_filepaths[k as int]@);
            assert(out.deep_view() =~= before.push(paths[k as int]));
            assert(out.deep_view() =~= start + (seq!["--"@] + paths.take(k + 1)));
            k += 1;
        }
        assert(paths.take(affected_filepaths.len() as int) =~= paths);
    } else {
        assert(out.deep_view() + Seq::<Seq<char>>::empty() =~= out.deep_view());
    }
    out
}

} // verus!
