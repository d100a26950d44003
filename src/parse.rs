//! Parsing of file names: finding the single parenthesized group of digits,
//! its value, and the text before and after it.
use vstd::prelude::*;
use vstd::utf8::*;
use vstd::string::*;
use crate::error::NFLZError;
use std::cmp::Ordering;

verus! {

broadcast use vstd::utf8::group_utf8_lib;

/// An ASCII digit `0`..`9`.
pub open spec fn is_digit_byte(b: u8) -> bool {
    48 <= b <= 57
}

/// The bytes `start..end` of `b` are a number group: `(`, one or more ASCII
/// digits, `)`.
pub open spec fn is_group_at(b: Seq<u8>, start: int, end: int) -> bool {
    &&& 0 <= start
    &&& start + 3 <= end
    &&& end <= b.len()
    &&& b[start] == 40u8
    &&& b[end - 1] == 41u8
    &&& forall|k: int| start < k < end - 1 ==> is_digit_byte(#[trigger] b[k])
}

/// `b` holds no number group at all.
pub open spec fn has_no_group(b: Seq<u8>) -> bool {
    forall|start: int, end: int| !is_group_at(b, start, end)
}

/// The number group at `start..end` is the only one in `b`.
pub open spec fn is_only_group(b: Seq<u8>, start: int, end: int) -> bool {
    &&& is_group_at(b, start, end)
    &&& forall|s2: int, e2: int| #[trigger] is_group_at(b, s2, e2) ==> s2 == start && e2 == end
}

/// `b` holds exactly one number group.
pub open spec fn has_single_group(b: Seq<u8>) -> bool {
    exists|start: int, end: int| is_only_group(b, start, end)
}

/// The number group of a name with exactly one, parentheses included.
pub open spec fn group_span(b: Seq<u8>) -> (int, int)
    recommends
        has_single_group(b),
{
    choose|start: int, end: int| is_only_group(b, start, end)
}

/// The value of a string of ASCII digits, read as a decimal number.
pub open spec fn digits_value(d: Seq<u8>) -> nat
    decreases d.len(),
{
    if d.len() == 0 {
        0
    } else {
        digits_value(d.drop_last()) * 10 + (d.last() - 48) as nat
    }
}

/// The digits of the single number group, parentheses excluded.
pub open spec fn group_digits(b: Seq<u8>) -> Seq<u8> {
    b.subrange(group_span(b).0 + 1, group_span(b).1 - 1)
}

/// A filename that this library can work with: exactly one number group,
/// whose value fits into 64 bits.
pub open spec fn valid_filename(name: Seq<char>) -> bool {
    &&& has_single_group(encode_utf8(name))
    &&& digits_value(group_digits(encode_utf8(name))) <= u64::MAX
}

/// The value of the number group of a valid filename.
pub open spec fn number_value(name: Seq<char>) -> nat {
    digits_value(group_digits(encode_utf8(name)))
}

/// The byte offsets of the digits of the number group of a valid filename:
/// the first is inclusive, the second exclusive.
pub open spec fn digit_span(name: Seq<char>) -> (int, int) {
    (group_span(encode_utf8(name)).0 + 1, group_span(encode_utf8(name)).1 - 1)
}

/// The text before the digits, the opening parenthesis included.
pub open spec fn prefix_of(name: Seq<char>) -> Seq<char> {
    decode_utf8(encode_utf8(name).subrange(0, digit_span(name).0))
}

/// The text after the digits, the closing parenthesis included.
pub open spec fn suffix_of(name: Seq<char>) -> Seq<char> {
    decode_utf8(encode_utf8(name).subrange(digit_span(name).1, encode_utf8(name).len() as int))
}

/// The digits of the number group as text.
pub open spec fn digits_of(name: Seq<char>) -> Seq<char> {
    decode_utf8(encode_utf8(name).subrange(digit_span(name).0, digit_span(name).1))
}

/// Relies on `regex::Regex::new` and `regex::Regex::find_iter` with the
/// pattern `\([0-9]+\)`: `find_iter` yields the successive non-overlapping
/// leftmost-first matches as byte ranges. Two occurrences of this pattern can
/// never overlap (a match holds no parenthesis between its first and last
/// byte), so the matches are all of its occurrences, in ascending order.
#[verifier::external_body]
pub(crate) fn find_number_groups(haystack: &str) -> (r: Vec<(usize, usize)>)
    ensures
        forall|i: int|
            0 <= i < r@.len() ==> is_group_at(
                haystack.spec_bytes(),
                #[trigger] r@[i].0 as int,
                r@[i].1 as int,
            ),
        forall|i: int, j: int| 0 <= i < j < r@.len() ==> #[trigger] r@[i].1 <= #[trigger] r@[j].0,
        forall|start: int, end: int|
            #[trigger] is_group_at(haystack.spec_bytes(), start, end) ==> exists|i: int|
                0 <= i < r@.len() && r@[i].0 == start && r@[i].1 == end,
{
    let re = regex::Regex::new(r"\([0-9]+\)").unwrap();
    re.find_iter(haystack).map(|m| (m.start(), m.end())).collect()
}

/// Returns the byte offsets of the digits in the single number group of
/// `actual_filename`: the first inclusive, the second exclusive. For example
/// `paris (100)` gives `(7, 10)`; `paris (100) (100)` and `paris` are refused.
pub fn get_number_group_indices_from_actual_filename(actual_filename: &str) -> (r: Result<
    (usize, usize),
    NFLZError,
>)
    ensures
        has_no_group(actual_filename.spec_bytes()) ==> (r matches Err(
            NFLZError::NoNumberGroup(f),
        ) && f@ == actual_filename@),
        has_single_group(actual_filename.spec_bytes()) ==> (r matches Ok(ix) && is_only_group(
            actual_filename.spec_bytes(),
            ix.0 - 1,
            ix.1 + 1,
        )),
        !has_no_group(actual_filename.spec_bytes()) && !has_single_group(
            actual_filename.spec_bytes(),
        ) ==> (r matches Err(NFLZError::MultipleNumberGroups(f)) && f@ == actual_filename@),
{
    let groups = find_number_groups(actual_filename);
    let ghost b = actual_filename.spec_bytes();
    if groups.len() == 0 {
        assert forall|start: int, end: int| !is_group_at(b, start, end) by {
            if is_group_at(b, start, end) {
                let i = choose|i: int|
                    0 <= i < groups@.len() && groups@[i].0 == start && groups@[i].1 == end;
            }
        }
        Err(NFLZError::NoNumberGroup(actual_filename.to_owned()))
    } else if groups.len() > 1 {
        let ghost g0 = groups@[0];
        let ghost g1 = groups@[1];
        assert(is_group_at(b, g0.0 as int, g0.1 as int));
        assert(is_group_at(b, g1.0 as int, g1.1 as int));
        assert(!has_single_group(b)) by {
            if has_single_group(b) {
                let (s, e) = group_span(b);
                assert(is_only_group(b, s, e));
            }
        }
        Err(NFLZError::MultipleNumberGroups(actual_filename.to_owned()))
    } else {
        let (start, end) = groups[0];
        assert(is_group_at(b, start as int, end as int));
        assert forall|s2: int, e2: int| #[trigger] is_group_at(b, s2, e2) implies s2 == start
            && e2 == end by {
            let i = choose|i: int|
                0 <= i < groups@.len() && groups@[i].0 == s2 && groups@[i].1 == e2;
        }
        assert(is_only_group(b, start as int, end as int));
        Ok((start + 1, end - 1))
    }
}

/// The span that `group_span` picks is the only group, and any only group is it.
proof fn lemma_group_span(b: Seq<u8>, start: int, end: int)
    requires
        is_only_group(b, start, end),
    ensures
        group_span(b) == (start, end),
{
    let (s, e) = group_span(b);
    assert(is_only_group(b, s, e));
}

/// Facts about the digits of a valid filename: they are a non-empty run of
/// ASCII digits between two parentheses, and both ends of the run are
/// character boundaries.
proof fn lemma_digit_span(name: Seq<char>)
    requires
        valid_filename(name),
    ensures
        is_only_group(encode_utf8(name), digit_span(name).0 - 1, digit_span(name).1 + 1),
        0 < digit_span(name).0 < digit_span(name).1 < encode_utf8(name).len(),
        is_char_boundary(encode_utf8(name), digit_span(name).0),
        is_char_boundary(encode_utf8(name), digit_span(name).1),
        valid_utf8(encode_utf8(name)),
{
    let b = encode_utf8(name);
    let (s, e) = group_span(b);
    assert(is_only_group(b, s, e));
    assert(is_digit_byte(b[s + 1]));
    assert(is_leading_byte_width_1(b[s + 1]));
    assert(is_leading_byte_width_1(b[e - 1]));
}

/// A filename with exactly one number group whose value fits into 64 bits
/// parses, and is given back by its prefix, its digits and its suffix in
/// turn: `prefix + digits + suffix == filename`, where the prefix ends with
/// `(` and the suffix starts with `)`.
pub proof fn lemma_parse_reassembles(name: Seq<char>)
    requires
        has_single_group(encode_utf8(name)),
        number_value(name) <= u64::MAX,
    ensures
        valid_filename(name),
        prefix_of(name) + digits_of(name) + suffix_of(name) == name,
        prefix_of(name).last() == '(',
        suffix_of(name)[0] == ')',
{
    let b = encode_utf8(name);
    lemma_digit_span(name);
    let (from, to) = digit_span(name);
    let n = b.len() as int;
    decode_utf8_split(b, to);
    let head = b.subrange(0, to);
    valid_utf8_split(b, to);
    assert(is_leading_byte_width_1(head[from]));
    decode_utf8_split(head, from);
    assert(head.subrange(0, from) =~= b.subrange(0, from));
    assert(head.subrange(from, to) =~= b.subrange(from, to));
    // the prefix ends with the opening parenthesis
    let pre = b.subrange(0, from);
    valid_utf8_split(b, from);
    assert(is_leading_byte_width_1(pre[from - 1]));
    decode_utf8_split(pre, from - 1);
    assert(pre.subrange(from - 1, from) =~= seq!['(' as u8]);
    lemma_decode_ascii_char('(');
    // the suffix starts with the closing parenthesis
    let post = b.subrange(to, n);
    assert(is_char_boundary(post, 1)) by {
        reveal_with_fuel(is_char_boundary, 2);
    }
    decode_utf8_split(post, 1);
    assert(post.subrange(0, 1) =~= seq![')' as u8]);
    lemma_decode_ascii_char(')');
}

/// Encoding a concatenation encodes each part in turn.
pub proof fn lemma_encode_concat(a: Seq<char>, b: Seq<char>)
    ensures
        encode_utf8(a + b) == encode_utf8(a) + encode_utf8(b),
    decreases a.len(),
{
    if a.len() == 0 {
        assert(a + b =~= b);
        assert(encode_utf8(a) + encode_utf8(b) =~= encode_utf8(b));
    } else {
        assert((a + b).drop_first() =~= a.drop_first() + b);
        lemma_encode_concat(a.drop_first(), b);
        assert(encode_utf8(a + b) =~= encode_utf8(a) + encode_utf8(b));
    }
}

/// Replacing the digits of the only number group by another non-empty run
/// of digits leaves it the only number group, at the same start.
pub proof fn lemma_replace_digits(b: Seq<u8>, from: int, to: int, d: Seq<u8>)
    requires
        is_only_group(b, from - 1, to + 1),
        d.len() >= 1,
        forall|k: int| 0 <= k < d.len() ==> is_digit_byte(#[trigger] d[k]),
    ensures
        is_only_group(
            b.subrange(0, from) + d + b.subrange(to, b.len() as int),
            from - 1,
            from + d.len() + 1,
        ),
{
    let c = b.subrange(0, from) + d + b.subrange(to, b.len() as int);
    let m = from + d.len();
    assert(c.len() == m + b.len() - to);
    assert(forall|k: int| 0 <= k < from ==> #[trigger] c[k] == b[k]);
    assert(forall|k: int| from <= k < m ==> #[trigger] c[k] == d[k - from]);
    assert(forall|k: int| m <= k < c.len() ==> #[trigger] c[k] == b[k - m + to]);
    assert(is_digit_byte(b[from]));
    assert(c[m] == b[to]);
    assert(is_group_at(c, from - 1, m + 1));
    assert forall|s2: int, e2: int| #[trigger] is_group_at(c, s2, e2) implies s2 == from - 1 && e2
        == m + 1 by {
        if s2 >= m {
            let shift = to - m;
            assert(is_group_at(b, s2 + shift, e2 + shift)) by {
                assert(b[s2 + shift] == c[s2]);
                assert(b[e2 - 1 + shift] == c[e2 - 1]);
                assert forall|k: int| s2 + shift < k < e2 + shift - 1 implies is_digit_byte(
                    #[trigger] b[k],
                ) by {
                    assert(c[k - shift] == b[k]);
                    assert(is_digit_byte(c[k - shift]));
                }
            }
        } else if s2 >= from {
            assert(is_digit_byte(d[s2 - from]));
        } else if e2 - 1 < from - 1 {
            assert(is_group_at(b, s2, e2)) by {
                assert forall|k: int| s2 < k < e2 - 1 implies is_digit_byte(#[trigger] b[k]) by {
                    assert(c[k] == b[k]);
                    assert(is_digit_byte(c[k]));
                }
            }
        } else if e2 - 1 == from - 1 {
            assert(c[from - 1] == b[from - 1]);
        } else if s2 < from - 1 {
            assert(is_digit_byte(c[from - 1]));
            assert(c[from - 1] == b[from - 1]);
        } else if e2 - 1 < m {
            assert(is_digit_byte(d[e2 - 1 - from]));
        } else if e2 - 1 > m {
            assert(is_digit_byte(c[m]));
        }
    }
}

/// A single ASCII character is encoded as its own code, and decoded back.
proof fn lemma_decode_ascii_char(c: char)
    requires
        c <= '\u{7f}',
    ensures
        decode_utf8(seq![c as u8]) == seq![c],
{
    let cs = seq![c];
    assert(is_ascii_chars(cs));
    assert(encode_utf8(cs) =~= seq![c as u8]);
}

/// Reading a longer run of digits never gives a smaller value.
proof fn lemma_digits_value_prefix(d: Seq<u8>, k: int)
    requires
        0 <= k <= d.len(),
    ensures
        digits_value(d.subrange(0, k)) <= digits_value(d),
    decreases d.len(),
{
    if k < d.len() {
        lemma_digits_value_prefix(d.drop_last(), k);
        assert(d.drop_last().subrange(0, k) =~= d.subrange(0, k));
    } else {
        assert(d.subrange(0, k) =~= d);
    }
}

/// Reads the ASCII digits `bytes[from..to]` as a decimal number; `None` where
/// the value does not fit into 64 bits.
fn read_decimal(bytes: &[u8], from: usize, to: usize) -> (r: Option<u64>)
    requires
        from <= to <= bytes@.len(),
        forall|k: int| from <= k < to ==> is_digit_byte(#[trigger] bytes@[k]),
    ensures
        digits_value(bytes@.subrange(from as int, to as int)) <= u64::MAX ==> r == Some(
            digits_value(bytes@.subrange(from as int, to as int)) as u64,
        ),
        digits_value(bytes@.subrange(from as int, to as int)) > u64::MAX ==> r is None,
{
    let mut value: u64 = 0;
    let mut i: usize = from;
    while i < to
        invariant
            from <= i <= to <= bytes@.len(),
            forall|k: int| from <= k < to ==> is_digit_byte(#[trigger] bytes@[k]),
            value == digits_value(bytes@.subrange(from as int, i as int)),
        decreases to - i,
    {
        let d: u64 = (bytes[i] - 48u8) as u64;
        let ghost next = bytes@.subrange(from as int, i + 1);
        assert(next.drop_last() =~= bytes@.subrange(from as int, i as int));
        assert(digits_value(next) == value * 10 + d);
        if value > (u64::MAX - d) / 10 {
            assert(value * 10 + d > u64::MAX) by (nonlinear_arith)
                requires
                    value > (u64::MAX - d) / 10,
                    d <= 9,
            ;
            proof {
                let whole = bytes@.subrange(from as int, to as int);
                lemma_digits_value_prefix(whole, i + 1 - from);
                assert(whole.subrange(0, i + 1 - from) =~= next);
            }
            return None;
        }
        assert(value * 10 + d <= u64::MAX) by (nonlinear_arith)
            requires
                value <= (u64::MAX - d) / 10,
                d <= 9,
        ;
        value = value * 10 + d;
        i = i + 1;
    }
    Some(value)
}

/// Splits `actual_filename` at two byte offsets into the text before the
/// first and the text from the second on. With the offsets of the digits of
/// the number group: `img (100).jpg` gives `img (` and `).jpg`.
pub fn get_filename_prefix_and_suffix<'a>(actual_filename: &'a str, indices: (usize, usize)) -> (r:
    (&'a str, &'a str))
    requires
        is_char_boundary(actual_filename.spec_bytes(), indices.0 as int),
        is_char_boundary(actual_filename.spec_bytes(), indices.1 as int),
    ensures
        r.0@ == decode_utf8(actual_filename.spec_bytes().subrange(0, indices.0 as int)),
        r.1@ == decode_utf8(
            actual_filename.spec_bytes().subrange(
                indices.1 as int,
                actual_filename.spec_bytes().len() as int,
            ),
        ),
{
    let (begin, end) = indices;
    let (prefix, _) = actual_filename.split_at(begin);
    let (_, suffix) = actual_filename.split_at(end);
    (prefix, suffix)
}

/// A filename with exactly one number group whose value fits into 64 bits:
/// one that can be renamed.
#[derive(Debug)]
pub struct ParsedFilename {
    original_filename: String,
    number_group_start: usize,
    number_group_end: usize,
    number_group_value: u64,
}

impl View for ParsedFilename {
    type V = Seq<char>;

    /// The filename.
    closed spec fn view(&self) -> Seq<char> {
        self.original_filename@
    }
}

impl ParsedFilename {
    #[verifier::type_invariant]
    spec fn inv(&self) -> bool {
        &&& valid_filename(self.original_filename@)
        &&& self.number_group_start == digit_span(self.original_filename@).0
        &&& self.number_group_end == digit_span(self.original_filename@).1
        &&& self.number_group_value == number_value(self.original_filename@)
    }

    /// Parses a filename such as `paris (12).jpg`. Fails where the name holds
    /// no number group or more than one, or where the number does not fit
    /// into 64 bits.
    pub fn new(original_filename: String) -> (r: Result<Self, NFLZError>)
        ensures
            valid_filename(original_filename@) ==> (r matches Ok(p) && p@
                == original_filename@),
            r matches Ok(p) ==> valid_filename(p@),
            has_no_group(encode_utf8(original_filename@)) ==> (r matches Err(
                NFLZError::NoNumberGroup(f),
            ) && f@ == original_filename@),
            !has_no_group(encode_utf8(original_filename@)) && !has_single_group(
                encode_utf8(original_filename@),
            ) ==> (r matches Err(NFLZError::MultipleNumberGroups(f)) && f@
                == original_filename@),
            has_single_group(encode_utf8(original_filename@)) && number_value(
                original_filename@,
            ) > u64::MAX ==> (r matches Err(NFLZError::ValueInNumberedGroupNotANumber(d))
                && d@ == digits_of(original_filename@)),
    {
        let name = original_filename.as_str();
        let ghost b = encode_utf8(original_filename@);
        let (from, to) = match get_number_group_indices_from_actual_filename(name) {
            Ok(ix) => ix,
            Err(e) => {
                return Err(e);
            },
        };
        proof {
            lemma_group_span(b, from - 1, to + 1);
            assert(is_leading_byte_width_1(b[from as int]));
            assert(is_leading_byte_width_1(b[to as int]));
        }
        let bytes = name.as_bytes();
        match read_decimal(bytes, from, to) {
            Some(value) => {
                Ok(ParsedFilename {
                    original_filename,
                    number_group_start: from,
                    number_group_end: to,
                    number_group_value: value,
                })
            },
            None => {
                let (head, _) = name.split_at(to);
                proof {
                    assert(head.spec_bytes() =~= b.subrange(0, to as int));
                    assert(head.spec_bytes()[from as int] == b[from as int]);
                    assert(is_leading_byte_width_1(head.spec_bytes()[from as int]));
                    assert(valid_utf8(head.spec_bytes()));
                    assert(is_char_boundary(head.spec_bytes(), from as int));
                }
                let (_, digits) = head.split_at(from);
                proof {
                    assert(digits.spec_bytes() =~= b.subrange(from as int, to as int));
                }
                Err(NFLZError::ValueInNumberedGroupNotANumber(digits.to_owned()))
            },
        }
    }

    /// The filename.
    pub fn original_filename(&self) -> (r: &str)
        ensures
            r@ == self@,
    {
        self.original_filename.as_str()
    }

    /// The text before the digits, the opening parenthesis included:
    /// `img (` for `img (100).jpg`.
    pub fn filename_prefix(&self) -> (r: &str)
        ensures
            r@ == prefix_of(self@),
    {
        proof {
            use_type_invariant(self);
            lemma_digit_span(self.original_filename@);
        }
        get_filename_prefix_and_suffix(
            self.original_filename.as_str(),
            (self.number_group_start, self.number_group_end),
        ).0
    }

    /// The text after the digits, the closing parenthesis included:
    /// `).jpg` for `img (100).jpg`.
    pub fn filename_suffix(&self) -> (r: &str)
        ensures
            r@ == suffix_of(self@),
    {
        proof {
            use_type_invariant(self);
            lemma_digit_span(self.original_filename@);
        }
        get_filename_prefix_and_suffix(
            self.original_filename.as_str(),
            (self.number_group_start, self.number_group_end),
        ).1
    }

    /// The byte offsets of the digits of the number group: the first
    /// inclusive, the second exclusive.
    pub fn number_group_indices(&self) -> (r: (usize, usize))
        ensures
            r.0 == digit_span(self@).0,
            r.1 == digit_span(self@).1,
            valid_filename(self@),
    {
        proof {
            use_type_invariant(self);
        }
        (self.number_group_start, self.number_group_end)
    }

    /// The value of the number group.
    pub fn number_group_value(&self) -> (r: u64)
        ensures
            r == number_value(self@),
            valid_filename(self@),
    {
        proof {
            use_type_invariant(self);
        }
        self.number_group_value
    }
}

impl Clone for ParsedFilename {
    fn clone(&self) -> (r: Self)
        ensures
            r@ == self@,
    {
        proof {
            use_type_invariant(self);
        }
        ParsedFilename {
            original_filename: self.original_filename.clone(),
            number_group_start: self.number_group_start,
            number_group_end: self.number_group_end,
            number_group_value: self.number_group_value,
        }
    }
}

/// The order of two filenames by the values of their number groups.
pub open spec fn number_order(a: Seq<char>, b: Seq<char>) -> Option<Ordering> {
    if number_value(a) > number_value(b) {
        Some(Ordering::Greater)
    } else if number_value(a) == number_value(b) {
        Some(Ordering::Equal)
    } else {
        Some(Ordering::Less)
    }
}

/// Two parsed filenames are equal when their filenames are.
impl PartialEq for ParsedFilename {
    fn eq(&self, other: &Self) -> (r: bool) {
        self.original_filename == other.original_filename
    }
}

impl vstd::std_specs::cmp::PartialEqSpecImpl for ParsedFilename {
    open spec fn obeys_eq_spec() -> bool {
        true
    }

    open spec fn eq_spec(&self, other: &Self) -> bool {
        self@ == other@
    }
}

impl Eq for ParsedFilename {

}

/// Parsed filenames are ordered by the value of their number group.
impl PartialOrd for ParsedFilename {
    fn partial_cmp(&self, other: &Self) -> (r: Option<Ordering>) {
        let a = self.number_group_value();
        let b = other.number_group_value();
        if a > b {
            Some(Ordering::Greater)
        } else if a == b {
            Some(Ordering::Equal)
        } else {
            Some(Ordering::Less)
        }
    }
}

impl vstd::std_specs::cmp::PartialOrdSpecImpl for ParsedFilename {
    open spec fn obeys_partial_cmp_spec() -> bool {
        true
    }

    open spec fn partial_cmp_spec(&self, other: &Self) -> Option<Ordering> {
        number_order(self@, other@)
    }
}

} // verus!
