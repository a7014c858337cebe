//! The map from the revisions of the origin system to the commits that
//! came from them, and its two written forms.

use crate::collection::{commit_views, Commit, CommitView};
use crate::order::{comes_before, sorted_places_by_number};
use crate::text::{
    abbreviated, append, chars_of, decimal_chars, decimal_text, string_of,
};
use crate::util::{parse_hex, parse_hex_str, HexError};
use vstd::prelude::*;

verus! {

/// A revision of the origin system and the commit that came from it.
#[derive(Debug)]
pub struct RevisionMapping {
    /// The address of the origin repository.
    pub svn_url: String,
    /// The revision number in the origin repository.
    pub svn_revision: u32,
    /// The revision id of the commit.
    pub git_revision: String,
}

/// What a `RevisionMapping` holds.
pub struct RevisionMappingView {
    pub svn_url: Seq<char>,
    pub svn_revision: u32,
    pub git_revision: Seq<char>,
}

impl View for RevisionMapping {
    type V = RevisionMappingView;

    open spec fn view(&self) -> RevisionMappingView {
        RevisionMappingView {
            svn_url: self.svn_url@,
            svn_revision: self.svn_revision,
            git_revision: self.git_revision@,
        }
    }
}

impl Clone for RevisionMapping {
    fn clone(&self) -> (r: Self)
        ensures
            r@ == self@,
    {
        RevisionMapping {
            svn_url: self.svn_url.clone(),
            svn_revision: self.svn_revision,
            git_revision: self.git_revision.clone(),
        }
    }
}

/// What each of `map` holds.
pub open spec fn mapping_views(map: Seq<RevisionMapping>) -> Seq<RevisionMappingView> {
    Seq::new(map.len(), |k: int| map[k]@)
}

/// The mappings of the commits that came from the origin system, in the
/// order of the commits.
pub open spec fn origins(commits: Seq<CommitView>) -> Seq<RevisionMappingView>
    decreases commits.len(),
{
    if commits.len() == 0 {
        Seq::empty()
    } else {
        let before = origins(commits.drop_last());
        match commits.last().svn_info {
            Some(info) => before.push(
                RevisionMappingView {
                    svn_url: info.svn_url,
                    svn_revision: info.svn_revision,
                    git_revision: commits.last().git_revision,
                },
            ),
            None => before,
        }
    }
}

/// The revision numbers of the mappings.
pub open spec fn numbers_of(map: Seq<RevisionMappingView>) -> Seq<u32> {
    Seq::new(map.len(), |k: int| map[k].svn_revision)
}

/// Whether `map` holds the mappings of `from` sorted by revision number
/// as `order` says: `map` holds at each place the mapping that `order`
/// names there, and a mapping with the same number as another stands
/// after it if it stood after it in `from`.
pub open spec fn sorted_by_revision(
    map: Seq<RevisionMappingView>,
    from: Seq<RevisionMappingView>,
    order: Seq<int>,
) -> bool {
    &&& order.len() == from.len()
    &&& map.len() == from.len()
    &&& forall|x: int| 0 <= x < order.len() ==> 0 <= #[trigger] order[x] < from.len()
    &&& forall|x: int| 0 <= x < map.len() ==> #[trigger] map[x] == from[order[x]]
    &&& forall|a: int, b: int|
        0 <= a < b < order.len() ==> comes_before(
            numbers_of(from),
            #[trigger] order[a],
            #[trigger] order[b],
        )
}

/// Whether `map` is the revision map of `commits`: the mappings of the
/// commits that came from the origin system, sorted by revision number,
/// those of one number in the order of the commits.
pub open spec fn is_revision_map(map: Seq<RevisionMappingView>, commits: Seq<CommitView>) -> bool {
    exists|order: Seq<int>| sorted_by_revision(map, origins(commits), order)
}

/// The revision map of `commits`.
pub fn get_repo_revision_maps(commits: &[Commit]) -> (r: Vec<RevisionMapping>)
    ensures
        is_revision_map(mapping_views(r@), commit_views(commits@)),
{
    let ghost all = commit_views(commits@);
    let mut found: Vec<RevisionMapping> = Vec::new();
    let mut numbers: Vec<u32> = Vec::new();
    let mut i: usize = 0;
    assert(all.take(0) =~= Seq::empty());
    assert(mapping_views(found@) =~= Seq::empty());
    assert(numbers@ =~= numbers_of(mapping_views(found@)));
    while i < commits.len()
        invariant
            i <= commits.len(),
            all == commit_views(commits@),
            mapping_views(found@) == origins(all.take(i as int)),
            numbers@ == numbers_of(mapping_views(found@)),
        decreases commits.len() - i,
    {
        assert(all.take(i + 1).drop_last() =~= all.take(i as int));
        assert(all.take(i + 1).last() == commits[i as int]@);
        match &commits[i].svn_info {
            Some(info) => {
                let mapping = RevisionMapping {
                    svn_url: info.svn_url.clone(),
                    svn_revision: info.svn_revision,
                    git_revision: commits[i].git_revision.clone(),
                };
                let ghost before = mapping_views(found@);
                found.push(mapping);
                numbers.push(info.svn_revision);
                assert(mapping_views(found@) =~= before.push(mapping@));
                assert(numbers@ =~= numbers_of(mapping_views(found@)));
            },
            None => {},
        }
        i += 1;
    }
    assert(all.take(commits.len() as int) =~= all);
    let order = sorted_places_by_number(&numbers);
    let ghost from = mapping_views(found@);
    let mut out: Vec<RevisionMapping> = Vec::new();
    let mut k: usize = 0;
    while k < order.len()
        invariant
            k <= order.len(),
            from == mapping_views(found@),
            found.len() == numbers.len(),
            crate::order::names_keys(order@, numbers.len() as nat),
            out.len() == k,
            forall|x: int|
                0 <= x < k ==> #[trigger] mapping_views(out@)[x] == from[order[x] as int],
        decreases order.len() - k,
    {
        let mapping = found[order[k]].clone();
        let ghost before = mapping_views(out@);
        out.push(mapping);
        assert(mapping_views(out@) =~= before.push(from[order[k as int] as int]));
        k += 1;
    }
    proof {
        let named = Seq::new(order.len() as nat, |x: int| order[x] as int);
        assert(sorted_by_revision(mapping_views(out@), from, named));
    }
    out
}

/// The four bytes of `number`, the highest first.
pub open spec fn big_endian(number: u32) -> Seq<u8> {
    seq![
        (number / 0x100_0000) as u8,
        (number / 0x1_0000 % 0x100) as u8,
        (number / 0x100 % 0x100) as u8,
        (number % 0x100) as u8,
    ]
}

/// A mapping whose revision id is no hexadecimal text, by its place in the
/// map.
#[derive(Debug, Clone, Copy, PartialEq, Eq, Structural)]
pub struct UnwritableMapping {
    /// The place of the mapping, from 0.
    pub place: usize,
    /// Why its revision id stands for no bytes.
    pub cause: HexError,
}

/// The binary form of a revision map: for each mapping the four bytes of
/// the revision number, the highest first, and the bytes of the revision
/// id. The first mapping whose revision id is no hexadecimal text is the
/// error.
pub open spec fn binary_form(map: Seq<RevisionMappingView>) -> Result<Seq<u8>, UnwritableMapping>
    decreases map.len(),
{
    if map.len() == 0 {
        Ok(Seq::empty())
    } else {
        match binary_form(map.drop_last()) {
            Err(e) => Err(e),
            Ok(before) => match parse_hex(map.last().git_revision) {
                Ok(bytes) => Ok(before + big_endian(map.last().svn_revision) + bytes),
                Err(cause) => Err(UnwritableMapping { place: (map.len() - 1) as usize, cause }),
            },
        }
    }
}

/// Once a mapping cannot be written, those after it do not change the
/// error.
pub proof fn lemma_unwritable_stays(map: Seq<RevisionMappingView>, n: int)
    requires
        0 <= n <= map.len(),
        binary_form(map.take(n)) is Err,
    ensures
        binary_form(map) == binary_form(map.take(n)),
    decreases map.len(),
{
    if n == map.len() {
        assert(map.take(n) =~= map);
    } else {
        assert(map.drop_last().take(n) =~= map.take(n));
        lemma_unwritable_stays(map.drop_last(), n);
    }
}

/// Writes a revision map in its binary form.
pub fn revision_map_bytes(revision_map: &[RevisionMapping]) -> (r: Result<
    Vec<u8>,
    UnwritableMapping,
>)
    ensures
        match r {
            Ok(bytes) => binary_form(mapping_views(revision_map@)) == Ok::<
                Seq<u8>,
                UnwritableMapping,
            >(bytes@),
            Err(e) => binary_form(mapping_views(revision_map@)) == Err::<
                Seq<u8>,
                UnwritableMapping,
            >(e),
        },
{
    let ghost all = mapping_views(revision_map@);
    let mut out: Vec<u8> = Vec::new();
    let mut i: usize = 0;
    assert(all.take(0) =~= Seq::empty());
    while i < revision_map.len()
        invariant
            i <= revision_map.len(),
            all == mapping_views(revision_map@),
            binary_form(all.take(i as int)) == Ok::<Seq<u8>, UnwritableMapping>(out@),
        decreases revision_map.len() - i,
    {
        assert(all.take(i + 1).drop_last() =~= all.take(i as int));
        assert(all.take(i + 1).last() == revision_map[i as int]@);
        let mapping = &revision_map[i];
        match parse_hex_str(mapping.git_revision.as_str()) {
            Ok(bytes) => {
                let ghost before = out@;
                let number = mapping.svn_revision;
                out.push((number / 0x100_0000) as u8);
                out.push((number / 0x1_0000 % 0x100) as u8);
                out.push((number / 0x100 % 0x100) as u8);
                out.push((number % 0x100) as u8);
                assert(out@ =~= before + big_endian(number));
                let ghost head = out@;
                let mut k: usize = 0;
                assert(head + bytes@.take(0) =~= head);
                while k < bytes.len()
                    invariant
                        k <= bytes.len(),
                        out@ == head + bytes@.take(k as int),
                    decreases bytes.len() - k,
                {
                    out.push(bytes[k]);
                    k += 1;
                    assert(out@ =~= head + bytes@.take(k as int));
                }
                assert(bytes@.take(bytes.len() as int) =~= bytes@);
            },
            Err(cause) => {
                proof {
                    lemma_unwritable_stays(all, i + 1);
                }
                return Err(UnwritableMapping { place: i, cause });
            },
        }
        i += 1;
    }
    assert(all.take(revision_map.len() as int) =~= all);
    Ok(out)
}

/// The line of a mapping in the readable form of a revision map.
pub open spec fn readable_line(mapping: RevisionMappingView, hash_length: nat) -> Seq<char> {
    "- `"@ + decimal_text(mapping.svn_revision as nat) + "` -> `"@ + abbreviated(
        mapping.git_revision,
        hash_length,
    ) + "` (`"@ + mapping.svn_url + "`)\n"@
}

/// The readable form of a revision map: a line for each mapping, with the
/// revision number, the revision id cut to `hash_length` characters, and
/// the address of the origin repository.
pub open spec fn readable_form(map: Seq<RevisionMappingView>, hash_length: nat) -> Seq<char>
    decreases map.len(),
{
    if map.len() == 0 {
        Seq::empty()
    } else {
        readable_form(map.drop_last(), hash_length) + readable_line(map.last(), hash_length)
    }
}

/// Writes a revision map in its readable form.
pub fn revision_map_markdown(revision_map: &[RevisionMapping], hash_length: usize) -> (r: String)
    ensures
        r@ == readable_form(mapping_views(revision_map@), hash_length as nat),
{
    let ghost all = mapping_views(revision_map@);
    let mut out: Vec<char> = Vec::new();
    let mut i: usize = 0;
    assert(all.take(0) =~= Seq::empty());
    while i < revision_map.len()
        invariant
            i <= revision_map.len(),
            all == mapping_views(revision_map@),
            out@ == readable_form(all.take(i as int), hash_length as nat),
        decreases revision_map.len() - i,
    {
        assert(all.take(i + 1).drop_last() =~= all.take(i as int));
        assert(all.take(i + 1).last() == revision_map[i as int]@);
        let mapping = &revision_map[i];
        let ghost before = out@;
        let revision = chars_of(mapping.git_revision.as_str());
        let url = chars_of(mapping.svn_url.as_str());
        let cut = if hash_length < revision.len() {
            hash_length
        } else {
            revision.len()
        };
        let short = crate::text::copy_range(revision.as_slice(), 0, cut);
        assert(short@ =~= abbreviated(revision@, hash_length as nat));
        append(&mut out, chars_of("- `").as_slice());
        append(&mut out, decimal_chars(mapping.svn_revision as usize).as_slice());
        append(&mut out, chars_of("` -> `").as_slice());
        append(&mut out, short.as_slice());
        append(&mut out, chars_of("` (`").as_slice());
        append(&mut out, url.as_slice());
        append(&mut out, chars_of("`)\n").as_slice());
        assert(out@ =~= before + readable_line(revision_map[i as int]@, hash_length as nat));
        i += 1;
    }
    assert(all.take(revision_map.len() as int) =~= all);
    string_of(out.as_slice())
}

} // verus!
