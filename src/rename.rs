//! Old filename to new filename, for a list of parsed filenames.
use vstd::prelude::*;
use crate::error::NFLZError;
use crate::file_info::{padded_filename, padded_name};
use crate::math::{count_digits_without_leading_zeroes, lemma_digit_count_monotone};
use crate::nflz::{lemma_max_number, max_number, pair_views, plan_width, views};
use crate::parse::{number_value, ParsedFilename};

verus! {

/// Pairs of an old filename and the new one that it gets.
pub type RenameMap = Vec<(String, String)>;

/// The names of some parsed filenames.
pub open spec fn parsed_names(pf: Seq<ParsedFilename>) -> Seq<Seq<char>> {
    pf.map_values(|p: ParsedFilename| p@)
}

/// For each name in turn that padding to `width` changes, the name and the
/// padded one.
pub open spec fn rename_pairs(names: Seq<Seq<char>>, width: nat) -> Seq<(Seq<char>, Seq<char>)>
    decreases names.len(),
{
    if names.len() == 0 {
        Seq::empty()
    } else {
        let rest = rename_pairs(names.drop_last(), width);
        if padded_name(names.last(), width) != names.last() {
            rest.push((names.last(), padded_name(names.last(), width)))
        } else {
            rest
        }
    }
}

/// The new names among `pairs` that are taken by an entry of the directory
/// listed in `existing`, in the order of `pairs`.
pub open spec fn taken_targets(pairs: Seq<(Seq<char>, Seq<char>)>, existing: Seq<Seq<char>>) -> Seq<
    Seq<char>,
>
    decreases pairs.len(),
{
    if pairs.len() == 0 {
        Seq::empty()
    } else {
        let rest = taken_targets(pairs.drop_last(), existing);
        if existing.contains(pairs.last().1) {
            rest.push(pairs.last().1)
        } else {
            rest
        }
    }
}

/// The renames for `pf_list`: every number group gets the digits of the
/// largest, and each file whose name that changes is paired with its new
/// name, in the order of the list. Files that keep their names are left out.
pub fn compute_rename_map(pf_list: &Vec<ParsedFilename>) -> (r: RenameMap)
    ensures
        pair_views(r@) == rename_pairs(
            parsed_names(pf_list@),
            plan_width(parsed_names(pf_list@)),
        ),
{
    let ghost names = parsed_names(pf_list@);
    let mut max: u64 = 0;
    let mut i: usize = 0;
    while i < pf_list.len()
        invariant
            i <= pf_list@.len(),
            names == parsed_names(pf_list@),
            max == max_number(names.subrange(0, i as int)),
        decreases pf_list@.len() - i,
    {
        let v = pf_list[i].number_group_value();
        proof {
            assert(names.subrange(0, i + 1).drop_last() =~= names.subrange(0, i as int));
        }
        if v > max {
            max = v;
        }
        i = i + 1;
    }
    proof {
        assert(names.subrange(0, i as int) =~= names);
        lemma_max_number(names);
    }
    let width = count_digits_without_leading_zeroes(max);
    let mut map: RenameMap = Vec::new();
    let mut k: usize = 0;
    while k < pf_list.len()
        invariant
            k <= pf_list@.len(),
            names == parsed_names(pf_list@),
            width == plan_width(names),
            forall|j: int|
                0 <= j < names.len() ==> number_value(#[trigger] names[j]) <= max_number(names),
            pair_views(map@) == rename_pairs(names.subrange(0, k as int), width as nat),
        decreases pf_list@.len() - k,
    {
        let pf = &pf_list[k];
        proof {
            assert(names[k as int] == pf@);
            lemma_digit_count_monotone(number_value(pf@), max_number(names));
            assert(names.subrange(0, k + 1).drop_last() =~= names.subrange(0, k as int));
        }
        let new_filename = padded_filename(pf, width);
        let original = pf.original_filename().to_owned();
        if new_filename != original {
            let ghost before = map@;
            map.push((original, new_filename));
            proof {
                assert(pair_views(map@) =~= pair_views(before).push((pf@, new_filename@)));
            }
        }
        k = k + 1;
    }
    proof {
        assert(names.subrange(0, k as int) =~= names);
    }
    map
}

/// Verifies that every rename of `rn_map` can be made: none of the new
/// names is taken in the directory, whose entries are named in `existing`.
/// Fails with the taken names otherwise.
pub fn can_rename_all(rn_map: &RenameMap, existing: &Vec<String>) -> (r: Result<(), NFLZError>)
    ensures
        taken_targets(pair_views(rn_map@), views(existing@)).len() > 0 ==> (r matches Err(
            NFLZError::ConflictingFiles(v),
        ) && views(v@) == taken_targets(pair_views(rn_map@), views(existing@))),
        taken_targets(pair_views(rn_map@), views(existing@)).len() == 0 ==> r is Ok,
{
    let ghost pairs = pair_views(rn_map@);
    let mut taken: Vec<String> = Vec::new();
    let mut i: usize = 0;
    while i < rn_map.len()
        invariant
            i <= rn_map@.len(),
            pairs == pair_views(rn_map@),
            views(taken@) == taken_targets(pairs.subrange(0, i as int), views(existing@)),
        decreases rn_map@.len() - i,
    {
        proof {
            assert(pairs.subrange(0, i + 1).drop_last() =~= pairs.subrange(0, i as int));
            assert(pairs[i as int].1 == rn_map@[i as int].1@);
        }
        let target = &rn_map[i].1;
        if crate::nflz::contains_text(existing, target) {
            let ghost before = taken@;
            taken.push(target.clone());
            proof {
                assert(views(taken@) =~= views(before).push(target@));
            }
        }
        i = i + 1;
    }
    proof {
        assert(pairs.subrange(0, i as int) =~= pairs);
    }
    if taken.len() == 0 {
        Ok(())
    } else {
        Err(NFLZError::ConflictingFiles(taken))
    }
}

} // verus!
