//! The rename plan of a directory, and the checks that must pass before any
//! file is renamed. See [`NFLZAssistant`].
use vstd::prelude::*;
use vstd::multiset::Multiset;
use crate::error::NFLZError;
use crate::file_info::{
    lemma_padded_name, padded_name, rename_advice, FileInfo, FileInfoWithRenameAdvice,
};
use crate::math::{count_digits_without_leading_zeroes, digit_count, lemma_digit_count_monotone};
use crate::parse::{
    has_no_group, has_single_group, number_value, prefix_of, suffix_of, valid_filename,
};
use vstd::utf8::encode_utf8;

verus! {

broadcast use vstd::seq_lib::group_to_multiset_ensures, vstd::multiset::lemma_multiset_empty_len;

/// The views of a sequence of strings.
pub open spec fn views(v: Seq<String>) -> Seq<Seq<char>> {
    v.map_values(|s: String| s@)
}

/// The filenames of some files.
pub open spec fn file_names(files: Seq<FileInfo>) -> Seq<Seq<char>> {
    files.map_values(|f: FileInfo| f@)
}

/// The files of some rename advices.
pub open spec fn advised_files(es: Seq<FileInfoWithRenameAdvice>) -> Seq<FileInfo> {
    es.map_values(|e: FileInfoWithRenameAdvice| e.spec_file_info())
}

/// The largest value of a number group among `names`; zero where there is none.
pub open spec fn max_number(names: Seq<Seq<char>>) -> nat
    decreases names.len(),
{
    if names.len() == 0 {
        0
    } else {
        let rest = max_number(names.drop_last());
        if number_value(names.last()) > rest {
            number_value(names.last())
        } else {
            rest
        }
    }
}

/// The number of digits that every number group gets: that of the largest.
pub open spec fn plan_width(names: Seq<Seq<char>>) -> nat {
    digit_count(max_number(names))
}

/// Files in ascending order of their numbers.
pub open spec fn sorted_by_number(files: Seq<FileInfo>) -> bool {
    forall|i: int, j: int|
        0 <= i < j < files.len() ==> number_value(#[trigger] files[i]@) <= number_value(
            #[trigger] files[j]@,
        )
}

/// The distinct values of `s`, in the order in which they first occur.
pub open spec fn distinct(s: Seq<Seq<char>>) -> Seq<Seq<char>>
    decreases s.len(),
{
    if s.len() == 0 {
        s
    } else if distinct(s.drop_last()).contains(s.last()) {
        distinct(s.drop_last())
    } else {
        distinct(s.drop_last()).push(s.last())
    }
}

/// The prefixes of the names of the advised files.
pub open spec fn prefixes(es: Seq<FileInfoWithRenameAdvice>) -> Seq<Seq<char>> {
    es.map_values(|e: FileInfoWithRenameAdvice| prefix_of(e.spec_file_info()@))
}

/// The suffixes of the names of the advised files.
pub open spec fn suffixes(es: Seq<FileInfoWithRenameAdvice>) -> Seq<Seq<char>> {
    es.map_values(|e: FileInfoWithRenameAdvice| suffix_of(e.spec_file_info()@))
}

/// The new names among `es` that are already taken by an entry of the
/// directory listed in `existing`, in the order of `es`.
pub open spec fn taken_names(es: Seq<FileInfoWithRenameAdvice>, existing: Seq<Seq<char>>) -> Seq<
    Seq<char>,
>
    decreases es.len(),
{
    if es.len() == 0 {
        Seq::empty()
    } else {
        let rest = taken_names(es.drop_last(), existing);
        match es.last().spec_new_filename() {
            Some(n) => if existing.contains(n) {
                rest.push(n)
            } else {
                rest
            },
            None => rest,
        }
    }
}

/// The value of every name is at most the largest, and the largest is the
/// value of one of them where there is any.
pub proof fn lemma_max_number(names: Seq<Seq<char>>)
    ensures
        forall|i: int|
            0 <= i < names.len() ==> number_value(#[trigger] names[i]) <= max_number(names),
        names.len() > 0 ==> exists|i: int|
            0 <= i < names.len() && number_value(#[trigger] names[i]) == max_number(names),
        names.len() == 0 ==> max_number(names) == 0,
    decreases names.len(),
{
    if names.len() > 0 {
        let rest = names.drop_last();
        lemma_max_number(rest);
        assert forall|i: int| 0 <= i < names.len() implies number_value(#[trigger] names[i])
            <= max_number(names) by {
            if i < rest.len() {
                assert(names[i] == rest[i]);
            }
        }
        if number_value(names.last()) <= max_number(rest) && rest.len() > 0 {
            let k = choose|k: int|
                0 <= k < rest.len() && number_value(#[trigger] rest[k]) == max_number(rest);
            assert(names[k] == rest[k]);
        } else {
            assert(names[names.len() - 1] == names.last());
        }
    }
}

/// Two sequences of names that hold the same names (each of one is in the
/// other) have the same largest number.
proof fn lemma_max_number_same_names(a: Seq<Seq<char>>, b: Seq<Seq<char>>)
    requires
        forall|i: int| 0 <= i < a.len() ==> b.contains(#[trigger] a[i]),
        forall|i: int| 0 <= i < b.len() ==> a.contains(#[trigger] b[i]),
    ensures
        max_number(a) == max_number(b),
{
    lemma_max_number(a);
    lemma_max_number(b);
    if a.len() > 0 {
        let i = choose|i: int| 0 <= i < a.len() && number_value(#[trigger] a[i]) == max_number(a);
        assert(b.contains(a[i]));
        let j = choose|i: int| 0 <= i < b.len() && number_value(#[trigger] b[i]) == max_number(b);
        assert(a.contains(b[j]));
    } else if b.len() > 0 {
        assert(a.contains(b[0]));
    }
}

/// Two sequences of names whose numbers agree one by one have the same
/// largest number.
proof fn lemma_max_number_same_values(a: Seq<Seq<char>>, b: Seq<Seq<char>>)
    requires
        a.len() == b.len(),
        forall|i: int| 0 <= i < a.len() ==> number_value(#[trigger] a[i]) == number_value(b[i]),
    ensures
        max_number(a) == max_number(b),
    decreases a.len(),
{
    if a.len() > 0 {
        lemma_max_number_same_values(a.drop_last(), b.drop_last());
        assert(number_value(a[a.len() - 1]) == number_value(b[b.len() - 1]));
    }
}

/// The name that a file has once its rename advice for `width` is applied.
pub open spec fn name_after(name: Seq<char>, width: nat) -> Seq<char> {
    match rename_advice(name, width) {
        Some(n) => n,
        None => name,
    }
}

/// The names of a directory once its rename plan is applied.
pub open spec fn names_after_plan(names: Seq<Seq<char>>) -> Seq<Seq<char>> {
    names.map_values(|n: Seq<char>| name_after(n, plan_width(names)))
}

/// Renaming is idempotent: once the plan for a directory of valid names is
/// applied, every name is still valid, the width stays the same, and the
/// plan for the renamed directory leaves every file as it is.
pub proof fn lemma_plan_idempotent(names: Seq<Seq<char>>)
    requires
        forall|i: int| 0 <= i < names.len() ==> valid_filename(#[trigger] names[i]),
    ensures
        forall|i: int|
            0 <= i < names.len() ==> valid_filename(#[trigger] names_after_plan(names)[i]),
        plan_width(names_after_plan(names)) == plan_width(names),
        forall|i: int|
            0 <= i < names.len() ==> (#[trigger] rename_advice(
                names_after_plan(names)[i],
                plan_width(names_after_plan(names)),
            )) is None,
{
    let w = plan_width(names);
    let after = names_after_plan(names);
    lemma_max_number(names);
    assert forall|i: int| 0 <= i < names.len() implies after[i] == padded_name(names[i], w)
        && valid_filename(#[trigger] after[i]) && number_value(after[i]) == number_value(names[i])
        && padded_name(after[i], w) == after[i] by {
        lemma_digit_count_monotone(number_value(names[i]), max_number(names));
        lemma_padded_name(names[i], w);
    }
    lemma_max_number_same_values(after, names);
}

/// Inserting into a sequence adds one element to its multiset.
proof fn lemma_insert_to_multiset<A>(s: Seq<A>, i: int, x: A)
    requires
        0 <= i <= s.len(),
    ensures
        s.insert(i, x).to_multiset() =~= s.to_multiset().insert(x),
{
    let t = s.insert(i, x);
    s.insert_ensures(i, x);
    assert(t.remove(i) =~= s);
    t.to_multiset_ensures();
    assert(t.contains(x)) by {
        assert(t[i] == x);
    }
}

/// Removing the first element of a sequence takes it out of its multiset.
proof fn lemma_remove_first_to_multiset<A>(s: Seq<A>)
    requires
        s.len() > 0,
    ensures
        s.to_multiset() =~= s.remove(0).to_multiset().insert(s[0]),
{
    s.to_multiset_ensures();
    assert(s.contains(s[0]));
}

/// Sorts files by the value of their number group, ascending; files with
/// the same value keep their order.
fn sort_by_number(files: Vec<FileInfo>) -> (r: Vec<FileInfo>)
    ensures
        r@.to_multiset() == files@.to_multiset(),
        sorted_by_number(r@),
{
    let mut rest = files;
    let mut sorted: Vec<FileInfo> = Vec::new();
    proof {
        assert(sorted@ =~= Seq::<FileInfo>::empty());
        assert(sorted@.to_multiset().add(rest@.to_multiset()) =~= files@.to_multiset());
    }
    while rest.len() > 0
        invariant
            sorted@.to_multiset().add(rest@.to_multiset()) == files@.to_multiset(),
            sorted_by_number(sorted@),
        decreases rest.len(),
    {
        let ghost before = rest@;
        let f = rest.remove(0);
        proof {
            lemma_remove_first_to_multiset(before);
        }
        let v = f.number_group_value();
        let mut i: usize = 0;
        while i < sorted.len() && sorted[i].number_group_value() <= v
            invariant
                i <= sorted.len(),
                forall|k: int| 0 <= k < i ==> number_value(#[trigger] sorted@[k]@) <= v,
            decreases sorted.len() - i,
        {
            i = i + 1;
        }
        let ghost old_sorted = sorted@;
        sorted.insert(i, f);
        proof {
            lemma_insert_to_multiset(old_sorted, i as int, f);
            old_sorted.insert_ensures(i as int, f);
            assert forall|a: int, b: int| 0 <= a < b < sorted@.len() implies number_value(
                #[trigger] sorted@[a]@,
            ) <= number_value(#[trigger] sorted@[b]@) by {
                if b < i {
                    assert(sorted@[a] == old_sorted[a]);
                    assert(sorted@[b] == old_sorted[b]);
                } else if b == i {
                    assert(sorted@[a] == old_sorted[a]);
                } else if a == i {
                    assert(sorted@[b] == old_sorted[b - 1]);
                    assert(number_value(old_sorted[i as int]@) <= number_value(old_sorted[b - 1]@));
                } else if a < i {
                    assert(sorted@[a] == old_sorted[a]);
                    assert(sorted@[b] == old_sorted[b - 1]);
                } else {
                    assert(sorted@[a] == old_sorted[a - 1]);
                    assert(sorted@[b] == old_sorted[b - 1]);
                }
            }
            assert(sorted@.to_multiset().add(rest@.to_multiset()) =~= files@.to_multiset());
        }
    }
    proof {
        rest@.to_multiset_ensures();
        assert(rest@.to_multiset() =~= Multiset::empty());
    }
    sorted
}

/// The number of digits of the largest number group among `files`; zero
/// where there is none.
fn find_max_digits(files: &Vec<FileInfo>) -> (r: u64)
    ensures
        r == plan_width(file_names(files@)),
{
    let mut max: u64 = 0;
    let mut i: usize = 0;
    while i < files.len()
        invariant
            i <= files.len(),
            max == max_number(file_names(files@).subrange(0, i as int)),
        decreases files.len() - i,
    {
        let v = files[i].number_group_value();
        proof {
            let names = file_names(files@);
            assert(names.subrange(0, i + 1).drop_last() =~= names.subrange(0, i as int));
        }
        if v > max {
            max = v;
        }
        i = i + 1;
    }
    proof {
        assert(file_names(files@).subrange(0, i as int) =~= file_names(files@));
    }
    count_digits_without_leading_zeroes(max)
}

/// The views of some pairs of strings.
pub open spec fn pair_views(m: Seq<(String, String)>) -> Seq<(Seq<char>, Seq<char>)> {
    m.map_values(|p: (String, String)| (p.0@, p.1@))
}

/// The entries of a directory listing, as pairs of a path and its filename,
/// whose filename can take part in the renaming.
pub open spec fn valid_entries(listing: Seq<(Seq<char>, Seq<char>)>) -> Seq<
    (Seq<char>, Seq<char>),
> {
    listing.filter(|p: (Seq<char>, Seq<char>)| valid_filename(p.1))
}

/// The entries of a directory listing whose filename cannot take part in
/// the renaming.
pub open spec fn skipped_entries(listing: Seq<(Seq<char>, Seq<char>)>) -> Seq<
    (Seq<char>, Seq<char>),
> {
    listing.filter(|p: (Seq<char>, Seq<char>)| !valid_filename(p.1))
}

/// The filenames of some listing entries.
pub open spec fn entry_filenames(listing: Seq<(Seq<char>, Seq<char>)>) -> Seq<Seq<char>> {
    listing.map_values(|p: (Seq<char>, Seq<char>)| p.1)
}

/// The path and the filename of each of some files.
pub open spec fn file_entries(files: Seq<FileInfo>) -> Seq<(Seq<char>, Seq<char>)> {
    files.map_values(|f: FileInfo| (f.spec_path(), f@))
}

/// The filenames of some skipped files.
pub open spec fn skipped_names(skipped: Seq<(String, NFLZError)>) -> Seq<Seq<char>> {
    skipped.map_values(|s: (String, NFLZError)| s.0@)
}

/// Each skipped file comes with the reason why its filename was refused.
pub open spec fn skip_reasons_hold(skipped: Seq<(String, NFLZError)>) -> bool {
    forall|i: int|
        0 <= i < skipped.len() ==> {
            let name = (#[trigger] skipped[i]).0@;
            let reason = skipped[i].1;
            &&& has_no_group(encode_utf8(name)) ==> reason is NoNumberGroup
            &&& !has_no_group(encode_utf8(name)) && !has_single_group(encode_utf8(name))
                ==> reason is MultipleNumberGroups
            &&& has_single_group(encode_utf8(name)) && number_value(name) > u64::MAX
                ==> reason is ValueInNumberedGroupNotANumber
        }
}

/// Splits a directory listing, given as pairs of a path and its filename,
/// into the files that can take part in the renaming and the skipped ones,
/// each with the reason. Files such as `.gitignore` do not hinder the
/// renaming: they are skipped, never an error.
pub fn files_to_nflz_file_info_vec(listing: Vec<(String, String)>) -> (r: (
    Vec<FileInfo>,
    Vec<(String, NFLZError)>,
))
    ensures
        file_entries(r.0@) == valid_entries(pair_views(listing@)),
        skipped_names(r.1@) == entry_filenames(skipped_entries(pair_views(listing@))),
        skip_reasons_hold(r.1@),
{
    let mut files: Vec<FileInfo> = Vec::new();
    let mut skipped: Vec<(String, NFLZError)> = Vec::new();
    let mut i: usize = 0;
    while i < listing.len()
        invariant
            i <= listing@.len(),
            file_entries(files@) == valid_entries(pair_views(listing@.subrange(0, i as int))),
            skipped_names(skipped@) == entry_filenames(
                skipped_entries(pair_views(listing@.subrange(0, i as int))),
            ),
            skip_reasons_hold(skipped@),
        decreases listing@.len() - i,
    {
        let ghost entry = (listing@[i as int].0@, listing@[i as int].1@);
        proof {
            let before = pair_views(listing@.subrange(0, i as int));
            assert(pair_views(listing@.subrange(0, i + 1)) =~= before.push(entry));
            before.lemma_filter_push(entry, |p: (Seq<char>, Seq<char>)| valid_filename(p.1));
            before.lemma_filter_push(entry, |p: (Seq<char>, Seq<char>)| !valid_filename(p.1));
        }
        let path = listing[i].0.as_str();
        let filename = listing[i].1.clone();
        match FileInfo::from_parts(path, filename.clone()) {
            Ok(file) => {
                let ghost before = files@;
                files.push(file);
                proof {
                    assert(file_entries(files@) =~= file_entries(before).push(entry));
                }
            },
            Err(reason) => {
                let ghost before = skipped@;
                skipped.push((filename, reason));
                proof {
                    assert(skipped_names(skipped@) =~= skipped_names(before).push(entry.1));
                    let reasons = skipped_entries(pair_views(listing@.subrange(0, i as int)));
                    assert(entry_filenames(reasons.push(entry)) =~= entry_filenames(reasons).push(
                        entry.1,
                    ));
                    assert(skipped@[skipped@.len() - 1].0@ == entry.1);
                    assert forall|k: int| 0 <= k < skipped@.len() - 1 implies #[trigger] skipped@[k]
                        == before[k] by {}
                }
            },
        }
        i = i + 1;
    }
    proof {
        assert(listing@.subrange(0, i as int) =~= listing@);
    }
    (files, skipped)
}

/// Sequences with the same multiset keep that when each element is mapped.
proof fn lemma_map_to_multiset<A, B>(a: Seq<A>, b: Seq<A>, f: spec_fn(A) -> B)
    requires
        a.to_multiset() == b.to_multiset(),
    ensures
        a.map_values(f).to_multiset() == b.map_values(f).to_multiset(),
    decreases a.len(),
{
    a.to_multiset_ensures();
    b.to_multiset_ensures();
    if a.len() == 0 {
        assert(a.map_values(f) =~= b.map_values(f));
    } else {
        let x = a.last();
        let a1 = a.drop_last();
        assert(a1.push(x) =~= a);
        assert(a.to_multiset().count(x) > 0);
        assert(b.contains(x));
        let j = choose|j: int| 0 <= j < b.len() && b[j] == x;
        let b1 = b.remove(j);
        assert(b1.to_multiset() =~= b.to_multiset().remove(x));
        assert(a1.to_multiset() =~= a.to_multiset().remove(x));
        lemma_map_to_multiset(a1, b1, f);
        let ma = a.map_values(f);
        let mb = b.map_values(f);
        assert(ma =~= a1.map_values(f).push(f(x)));
        assert(mb.remove(j) =~= b1.map_values(f));
        mb.to_multiset_ensures();
        a1.map_values(f).to_multiset_ensures();
        assert(mb.to_multiset().count(f(x)) > 0) by {
            assert(mb[j] == f(x));
        }
        assert(ma.to_multiset() =~= mb.to_multiset());
    }
}

/// The case-folded form of a text, as `str::to_lowercase` gives it.
pub uninterp spec fn lower_of(s: Seq<char>) -> Seq<char>;

/// Relies on `str::to_lowercase`: the lowercase equivalent of a text as the
/// Unicode tables of std define it, which depends on the characters alone.
#[verifier::external_body]
fn lowercase(s: &str) -> (r: String)
    ensures
        r@ == lower_of(s@),
{
    s.to_lowercase()
}

/// Exactly two distinct suffixes that only differ in case, as `.jpg` and
/// `.JPG` from two cameras.
pub open spec fn only_case_differs(suffixes: Seq<Seq<char>>) -> bool {
    suffixes.len() == 2 && lower_of(suffixes[0]) == lower_of(suffixes[1])
}

/// The verdict on the distinct prefixes and suffixes of a directory, given
/// the lowercase form of each suffix in `lowered_suffixes`: more than one
/// prefix fails, and so do more than one suffix, unless they are exactly two
/// with the same lowercase form.
pub fn check_distinct_prefixes_and_suffixes(
    prefixes: Vec<String>,
    suffixes: Vec<String>,
    lowered_suffixes: &Vec<String>,
) -> (r: Result<(), NFLZError>)
    ensures
        prefixes@.len() > 1 ==> (r matches Err(NFLZError::AmbiguousPrefixes(v)) && v@
            == prefixes@),
        prefixes@.len() <= 1 && suffixes@.len() > 1 && !(suffixes@.len() == 2
            && lowered_suffixes@.len() == 2 && lowered_suffixes@[0]@ == lowered_suffixes@[1]@)
            ==> (r matches Err(NFLZError::AmbiguousSuffixes(v)) && v@ == suffixes@),
        prefixes@.len() <= 1 && (suffixes@.len() <= 1 || (suffixes@.len() == 2
            && lowered_suffixes@.len() == 2 && lowered_suffixes@[0]@ == lowered_suffixes@[1]@))
            ==> r is Ok,
{
    let two_suffixes_only_differ_in_case = suffixes.len() == 2 && lowered_suffixes.len() == 2
        && lowered_suffixes[0] == lowered_suffixes[1];
    if prefixes.len() > 1 {
        Err(NFLZError::AmbiguousPrefixes(prefixes))
    } else if suffixes.len() > 1 && !two_suffixes_only_differ_in_case {
        Err(NFLZError::AmbiguousSuffixes(suffixes))
    } else {
        Ok(())
    }
}

/// Whether `list` holds a string with the characters of `s`.
pub(crate) fn contains_text(list: &Vec<String>, s: &String) -> (r: bool)
    ensures
        r == views(list@).contains(s@),
{
    let mut i: usize = 0;
    while i < list.len()
        invariant
            i <= list.len(),
            forall|k: int| 0 <= k < i ==> list@[k]@ != s@,
        decreases list.len() - i,
    {
        if list[i] == *s {
            assert(views(list@)[i as int] == s@);
            return true;
        }
        i = i + 1;
    }
    proof {
        if views(list@).contains(s@) {
            let k = choose|k: int| 0 <= k < views(list@).len() && views(list@)[k] == s@;
            assert(list@[k]@ == s@);
        }
    }
    false
}

/// Appends `s` to `list` unless it holds it already.
fn push_distinct(list: &mut Vec<String>, s: &str)
    ensures
        views(final(list)@) == if views(old(list)@).contains(s@) {
            views(old(list)@)
        } else {
            views(old(list)@).push(s@)
        },
{
    let owned = s.to_owned();
    if !contains_text(list, &owned) {
        list.push(owned);
        assert(views(list@) =~= views(old(list)@).push(s@));
    }
}

/// Checks that the files share one prefix and one suffix around their
/// number groups. The one exception: exactly two suffixes that only differ
/// in case, as `Img (1).jpg` and `Img (2).JPG` from two cameras.
pub fn check_suffixes_and_prefixes_are_unambiguous(pf_list: &[FileInfoWithRenameAdvice]) -> (r:
    Result<(), NFLZError>)
    ensures
        distinct(prefixes(pf_list@)).len() > 1 ==> (r matches Err(
            NFLZError::AmbiguousPrefixes(v),
        ) && views(v@) == distinct(prefixes(pf_list@))),
        distinct(prefixes(pf_list@)).len() <= 1 && distinct(suffixes(pf_list@)).len() > 1
            && !only_case_differs(distinct(suffixes(pf_list@))) ==> (r matches Err(
            NFLZError::AmbiguousSuffixes(v),
        ) && views(v@) == distinct(suffixes(pf_list@))),
        distinct(prefixes(pf_list@)).len() <= 1 && (distinct(suffixes(pf_list@)).len() <= 1
            || only_case_differs(distinct(suffixes(pf_list@)))) ==> r is Ok,
{
    let mut prefix_set: Vec<String> = Vec::new();
    let mut suffix_set: Vec<String> = Vec::new();
    let mut i: usize = 0;
    while i < pf_list.len()
        invariant
            i <= pf_list@.len(),
            views(prefix_set@) == distinct(prefixes(pf_list@).subrange(0, i as int)),
            views(suffix_set@) == distinct(suffixes(pf_list@).subrange(0, i as int)),
        decreases pf_list@.len() - i,
    {
        let file = pf_list[i].file_info();
        push_distinct(&mut prefix_set, file.filename_prefix());
        push_distinct(&mut suffix_set, file.filename_suffix());
        proof {
            let ps = prefixes(pf_list@).subrange(0, i + 1);
            let ss = suffixes(pf_list@).subrange(0, i + 1);
            assert(ps.drop_last() =~= prefixes(pf_list@).subrange(0, i as int));
            assert(ss.drop_last() =~= suffixes(pf_list@).subrange(0, i as int));
        }
        i = i + 1;
    }
    proof {
        assert(prefixes(pf_list@).subrange(0, i as int) =~= prefixes(pf_list@));
        assert(suffixes(pf_list@).subrange(0, i as int) =~= suffixes(pf_list@));
    }
    let mut lowered: Vec<String> = Vec::new();
    let mut k: usize = 0;
    while k < suffix_set.len()
        invariant
            k <= suffix_set@.len(),
            lowered@.len() == k,
            forall|j: int| 0 <= j < k ==> #[trigger] lowered@[j]@ == lower_of(suffix_set@[j]@),
        decreases suffix_set@.len() - k,
    {
        lowered.push(lowercase(suffix_set[k].as_str()));
        k = k + 1;
    }
    proof {
        let ss = views(suffix_set@);
        if ss.len() == 2 {
            assert(ss[0] == suffix_set@[0]@);
            assert(ss[1] == suffix_set@[1]@);
        }
    }
    check_distinct_prefixes_and_suffixes(prefix_set, suffix_set, &lowered)
}

/// Checks that no new filename is already taken in the directory, whose
/// entries are named in `existing`. Fails with the taken names otherwise.
pub fn check_no_destination_file_already_exists(
    files: &[FileInfoWithRenameAdvice],
    existing: &Vec<String>,
) -> (r: Result<(), NFLZError>)
    ensures
        taken_names(files@, views(existing@)).len() > 0 ==> (r matches Err(
            NFLZError::ConflictingFiles(v),
        ) && views(v@) == taken_names(files@, views(existing@))),
        taken_names(files@, views(existing@)).len() == 0 ==> r is Ok,
{
    let mut taken: Vec<String> = Vec::new();
    let mut i: usize = 0;
    while i < files.len()
        invariant
            i <= files@.len(),
            views(taken@) == taken_names(files@.subrange(0, i as int), views(existing@)),
        decreases files@.len() - i,
    {
        proof {
            assert(files@.subrange(0, i + 1).drop_last() =~= files@.subrange(0, i as int));
        }
        match files[i].new_filename() {
            Some(name) => {
                let owned = name.to_owned();
                if contains_text(existing, &owned) {
                    taken.push(owned);
                    assert(views(taken@) =~= taken_names(
                        files@.subrange(0, i as int),
                        views(existing@),
                    ).push(name@));
                }
            },
            None => {},
        }
        i = i + 1;
    }
    proof {
        assert(files@.subrange(0, i as int) =~= files@);
    }
    if taken.len() == 0 {
        Ok(())
    } else {
        Err(NFLZError::ConflictingFiles(taken))
    }
}

/// The entries of a rename plan: in ascending order of their numbers, each
/// with the advice for the width of the largest number among them.
pub open spec fn is_rename_plan(es: Seq<FileInfoWithRenameAdvice>, width: nat) -> bool {
    &&& width == plan_width(file_names(advised_files(es)))
    &&& sorted_by_number(advised_files(es))
    &&& forall|i: int|
        0 <= i < es.len() ==> #[trigger] es[i].spec_new_filename() == rename_advice(
            es[i].spec_file_info()@,
            width,
        )
}

/// The entries that need a rename.
pub open spec fn entries_to_rename(es: Seq<FileInfoWithRenameAdvice>) -> Seq<
    FileInfoWithRenameAdvice,
> {
    es.filter(|e: FileInfoWithRenameAdvice| e.spec_new_filename() is Some)
}

/// The entries that keep their names.
pub open spec fn entries_without_rename(es: Seq<FileInfoWithRenameAdvice>) -> Seq<
    FileInfoWithRenameAdvice,
> {
    es.filter(|e: FileInfoWithRenameAdvice| e.spec_new_filename() is None)
}

/// Guides through the whole process: plans the renames of a directory,
/// checks that they are safe, and hands out the plan for the caller to
/// show and to apply.
#[derive(Debug)]
pub struct NFLZAssistant {
    path: String,
    max_digit_width: u64,
    files_with_rename_info: Vec<FileInfoWithRenameAdvice>,
    skipped_files: Vec<(String, NFLZError)>,
}

impl NFLZAssistant {
    #[verifier::type_invariant]
    spec fn inv(&self) -> bool {
        is_rename_plan(self.files_with_rename_info@, self.max_digit_width as nat)
    }

    /// The directory.
    pub closed spec fn spec_path(&self) -> Seq<char> {
        self.path@
    }

    /// The number of digits that every number group gets.
    pub closed spec fn spec_width(&self) -> nat {
        self.max_digit_width as nat
    }

    /// The entries of the plan, in ascending order of their numbers.
    pub closed spec fn spec_entries(&self) -> Seq<FileInfoWithRenameAdvice> {
        self.files_with_rename_info@
    }

    /// The files of the listing that were skipped, with the reasons.
    pub closed spec fn spec_skipped(&self) -> Seq<(String, NFLZError)> {
        self.skipped_files@
    }

    /// The plan for the files of the directory `working_dir`: every number
    /// group gets the digits of the largest, and the entries are in ascending
    /// order of their numbers. No file was skipped.
    pub fn from_files(working_dir: &str, files: Vec<FileInfo>) -> (r: Self)
        ensures
            r.spec_path() == working_dir@,
            advised_files(r.spec_entries()).to_multiset() == files@.to_multiset(),
            r.spec_width() == plan_width(file_names(files@)),
            is_rename_plan(r.spec_entries(), r.spec_width()),
            r.spec_skipped().len() == 0,
    {
        Self::plan(working_dir, files, Vec::new())
    }

    /// The plan for `files`, which keeps the list of `skipped` files.
    fn plan(working_dir: &str, files: Vec<FileInfo>, skipped: Vec<(String, NFLZError)>) -> (r:
        Self)
        ensures
            r.spec_path() == working_dir@,
            advised_files(r.spec_entries()).to_multiset() == files@.to_multiset(),
            r.spec_width() == plan_width(file_names(files@)),
            is_rename_plan(r.spec_entries(), r.spec_width()),
            r.spec_skipped() == skipped@,
    {
        let width = find_max_digits(&files);
        let ghost input = files@;
        let sorted = sort_by_number(files);
        let ghost order = sorted@;
        proof {
            lemma_max_number(file_names(input));
        }
        let mut rest = sorted;
        let mut entries: Vec<FileInfoWithRenameAdvice> = Vec::new();
        while rest.len() > 0
            invariant
                advised_files(entries@) + rest@ == order,
                order.to_multiset() == input.to_multiset(),
                width == plan_width(file_names(input)),
                forall|i: int|
                    0 <= i < file_names(input).len() ==> number_value(
                        #[trigger] file_names(input)[i],
                    ) <= max_number(file_names(input)),
                forall|i: int|
                    0 <= i < entries@.len() ==> #[trigger] entries@[i].spec_new_filename()
                        == rename_advice(entries@[i].spec_file_info()@, width as nat),
            decreases rest.len(),
        {
            let ghost before = rest@;
            let f = rest.remove(0);
            proof {
                assert(before[0] == f);
                assert(order[advised_files(entries@).len() as int] == f);
                assert(order.contains(f));
                assert(order.to_multiset().count(f) > 0);
                assert(input.to_multiset().count(f) > 0);
                assert(input.contains(f));
                let j = choose|j: int| 0 <= j < input.len() && input[j] == f;
                assert(file_names(input)[j] == f@);
                lemma_digit_count_monotone(number_value(f@), max_number(file_names(input)));
            }
            let ghost old_entries = entries@;
            entries.push(FileInfoWithRenameAdvice::new(f, width));
            proof {
                assert(advised_files(entries@) =~= advised_files(old_entries).push(f));
                assert(advised_files(entries@) + rest@ =~= order);
            }
        }
        proof {
            assert(advised_files(entries@) =~= order);
            let a = file_names(order);
            let b = file_names(input);
            assert forall|i: int| 0 <= i < a.len() implies b.contains(#[trigger] a[i]) by {
                assert(order.contains(order[i]));
                assert(order.to_multiset().count(order[i]) > 0);
                assert(input.to_multiset().count(order[i]) > 0);
                let j = choose|j: int| 0 <= j < input.len() && input[j] == order[i];
                assert(b[j] == a[i]);
            }
            assert forall|i: int| 0 <= i < b.len() implies a.contains(#[trigger] b[i]) by {
                assert(input.contains(input[i]));
                assert(input.to_multiset().count(input[i]) > 0);
                assert(order.to_multiset().count(input[i]) > 0);
                let j = choose|j: int| 0 <= j < order.len() && order[j] == input[i];
                assert(a[j] == b[i]);
            }
            lemma_max_number_same_names(a, b);
        }
        NFLZAssistant {
            path: working_dir.to_owned(),
            max_digit_width: width,
            files_with_rename_info: entries,
            skipped_files: skipped,
        }
    }

    /// The plan for the directory `working_dir`, given its regular files
    /// (depth 0) as pairs of a path and its filename. Files whose names do
    /// not match the pattern are skipped and kept with the reason.
    pub fn new(working_dir: &str, listing: Vec<(String, String)>) -> (r: Self)
        ensures
            r.spec_path() == working_dir@,
            file_entries(advised_files(r.spec_entries())).to_multiset() == valid_entries(
                pair_views(listing@),
            ).to_multiset(),
            r.spec_width() == plan_width(entry_filenames(valid_entries(pair_views(listing@)))),
            is_rename_plan(r.spec_entries(), r.spec_width()),
            skipped_names(r.spec_skipped()) == entry_filenames(
                skipped_entries(pair_views(listing@)),
            ),
            skip_reasons_hold(r.spec_skipped()),
    {
        let (files, skipped) = files_to_nflz_file_info_vec(listing);
        let ghost kept = files@;
        let r = Self::plan(working_dir, files, skipped);
        proof {
            lemma_map_to_multiset(
                advised_files(r.spec_entries()),
                kept,
                |f: FileInfo| (f.spec_path(), f@),
            );
            assert(file_names(kept) =~= entry_filenames(file_entries(kept)));
        }
        r
    }

    /// The files of the listing that were skipped, each with the reason: its
    /// filename holds no number group, more than one, or a number that does
    /// not fit into 64 bits.
    pub fn skipped_files(&self) -> (r: &Vec<(String, NFLZError)>)
        ensures
            r@ == self.spec_skipped(),
    {
        &self.skipped_files
    }

    /// Checks that every rename can be made: no new filename is taken in
    /// the directory, whose entries are named in `existing`, and the files
    /// share one prefix and one suffix (see
    /// [`check_suffixes_and_prefixes_are_unambiguous`]).
    pub fn check_can_rename_all(&self, existing: &Vec<String>) -> (r: Result<(), NFLZError>)
        ensures
            taken_names(self.spec_entries(), views(existing@)).len() > 0 ==> (r matches Err(
                NFLZError::ConflictingFiles(v),
            ) && views(v@) == taken_names(self.spec_entries(), views(existing@))),
            taken_names(self.spec_entries(), views(existing@)).len() == 0 && distinct(
                prefixes(self.spec_entries()),
            ).len() > 1 ==> (r matches Err(NFLZError::AmbiguousPrefixes(v)) && views(v@)
                == distinct(prefixes(self.spec_entries()))),
            taken_names(self.spec_entries(), views(existing@)).len() == 0 && distinct(
                prefixes(self.spec_entries()),
            ).len() <= 1 && distinct(suffixes(self.spec_entries())).len() > 1
                && !only_case_differs(distinct(suffixes(self.spec_entries()))) ==> (r matches Err(
                NFLZError::AmbiguousSuffixes(v),
            ) && views(v@) == distinct(suffixes(self.spec_entries()))),
            taken_names(self.spec_entries(), views(existing@)).len() == 0 && distinct(
                prefixes(self.spec_entries()),
            ).len() <= 1 && (distinct(suffixes(self.spec_entries())).len() <= 1
                || only_case_differs(distinct(suffixes(self.spec_entries())))) ==> r is Ok,
    {
        match check_no_destination_file_already_exists(
            self.files_with_rename_info.as_slice(),
            existing,
        ) {
            Ok(()) => {},
            Err(e) => {
                return Err(e);
            },
        }
        check_suffixes_and_prefixes_are_unambiguous(self.files_with_rename_info.as_slice())
    }

    /// The entries that need a rename, in the order of the plan: what the
    /// final rename operation is going to change.
    pub fn files_to_rename(&self) -> (r: Vec<&FileInfoWithRenameAdvice>)
        ensures
            r@.len() == entries_to_rename(self.spec_entries()).len(),
            forall|i: int|
                0 <= i < r@.len() ==> *r@[i] == #[trigger] entries_to_rename(
                    self.spec_entries(),
                )[i],
    {
        let mut r: Vec<&FileInfoWithRenameAdvice> = Vec::new();
        let mut i: usize = 0;
        while i < self.files_with_rename_info.len()
            invariant
                i <= self.files_with_rename_info@.len(),
                r@.len() == entries_to_rename(self.files_with_rename_info@.subrange(0, i as int)).len(),
                forall|k: int|
                    0 <= k < r@.len() ==> *r@[k] == #[trigger] entries_to_rename(
                        self.files_with_rename_info@.subrange(0, i as int),
                    )[k],
            decreases self.files_with_rename_info@.len() - i,
        {
            let e = &self.files_with_rename_info[i];
            proof {
                let es = self.files_with_rename_info@;
                assert(es.subrange(0, i + 1) =~= es.subrange(0, i as int).push(es[i as int]));
                es.subrange(0, i as int).lemma_filter_push(
                    es[i as int],
                    |e: FileInfoWithRenameAdvice| e.spec_new_filename() is Some,
                );
            }
            if e.needs_rename() {
                r.push(e);
            }
            i = i + 1;
        }
        proof {
            assert(self.files_with_rename_info@.subrange(0, i as int)
                =~= self.files_with_rename_info@);
        }
        r
    }

    /// The entries that keep their names, in the order of the plan: what the
    /// final rename operation leaves alone.
    pub fn files_without_rename(&self) -> (r: Vec<&FileInfoWithRenameAdvice>)
        ensures
            r@.len() == entries_without_rename(self.spec_entries()).len(),
            forall|i: int|
                0 <= i < r@.len() ==> *r@[i] == #[trigger] entries_without_rename(
                    self.spec_entries(),
                )[i],
    {
        let mut r: Vec<&FileInfoWithRenameAdvice> = Vec::new();
        let mut i: usize = 0;
        while i < self.files_with_rename_info.len()
            invariant
                i <= self.files_with_rename_info@.len(),
                r@.len() == entries_without_rename(
                    self.files_with_rename_info@.subrange(0, i as int),
                ).len(),
                forall|k: int|
                    0 <= k < r@.len() ==> *r@[k] == #[trigger] entries_without_rename(
                        self.files_with_rename_info@.subrange(0, i as int),
                    )[k],
            decreases self.files_with_rename_info@.len() - i,
        {
            let e = &self.files_with_rename_info[i];
            proof {
                let es = self.files_with_rename_info@;
                assert(es.subrange(0, i + 1) =~= es.subrange(0, i as int).push(es[i as int]));
                es.subrange(0, i as int).lemma_filter_push(
                    es[i as int],
                    |e: FileInfoWithRenameAdvice| e.spec_new_filename() is None,
                );
            }
            if e.is_already_properly_named() {
                r.push(e);
            }
            i = i + 1;
        }
        proof {
            assert(self.files_with_rename_info@.subrange(0, i as int)
                =~= self.files_with_rename_info@);
        }
        r
    }

    /// All entries of the plan, in ascending order of their numbers.
    pub fn files(&self) -> (r: &Vec<FileInfoWithRenameAdvice>)
        ensures
            r@ == self.spec_entries(),
            is_rename_plan(r@, self.spec_width()),
    {
        proof {
            use_type_invariant(self);
        }
        &self.files_with_rename_info
    }

    /// The number of digits that every number group gets: that of the largest.
    pub fn max_digit_width(&self) -> (r: u64)
        ensures
            r == self.spec_width(),
    {
        self.max_digit_width
    }

    /// The directory that was given.
    pub fn path(&self) -> (r: &str)
        ensures
            r@ == self.spec_path(),
    {
        self.path.as_str()
    }
}

} // verus!
