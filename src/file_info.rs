//! Files with a parsed name, and the new name that each one should get.
use vstd::prelude::*;
use vstd::string::*;
use std::cmp::Ordering;
use vstd::utf8::*;
use crate::error::NFLZError;
use crate::math::{
    count_digits_without_leading_zeroes, decimal, decimal_string, digit_char, digit_count, push_zeroes,
    zeroes,
};
use crate::parse::{
    digit_span, digits_of, digits_value, group_span, has_no_group, has_single_group,
    is_digit_byte, is_only_group, lemma_encode_concat, number_order, lemma_replace_digits, number_value, prefix_of,
    suffix_of, valid_filename, ParsedFilename,
};

verus! {

broadcast use vstd::utf8::group_utf8_lib;

/// The number group of `name` written with `width` digits: the value with
/// as many leading zeroes as it lacks digits, between the prefix and the suffix.
pub open spec fn padded_name(name: Seq<char>, width: nat) -> Seq<char> {
    prefix_of(name) + zeroes((width - digit_count(number_value(name))) as nat) + decimal(
        number_value(name),
    ) + suffix_of(name)
}

/// The new name of a file when every number group gets `width` digits, or
/// `None` where the file already has that name.
pub open spec fn rename_advice(name: Seq<char>, width: nat) -> Option<Seq<char>> {
    if padded_name(name, width) == name {
        None
    } else {
        Some(padded_name(name, width))
    }
}

/// The encoding of a run of ASCII digit characters.
proof fn lemma_encode_digit_chars(cs: Seq<char>)
    requires
        forall|i: int| 0 <= i < cs.len() ==> '0' <= #[trigger] cs[i] <= '9',
    ensures
        encode_utf8(cs).len() == cs.len(),
        forall|i: int|
            0 <= i < cs.len() ==> #[trigger] encode_utf8(cs)[i] == cs[i] as u8 && is_digit_byte(
                encode_utf8(cs)[i],
            ),
{
    assert(is_ascii_chars(cs));
}

/// The characters of `decimal(n)` are digits, and read back as `n`.
proof fn lemma_decimal_digits(n: nat)
    ensures
        decimal(n).len() >= 1,
        forall|i: int| 0 <= i < decimal(n).len() ==> '0' <= #[trigger] decimal(n)[i] <= '9',
        digits_value(encode_utf8(decimal(n))) == n,
    decreases n,
{
    if n < 10 {
        lemma_encode_digit_chars(decimal(n));
        let e = encode_utf8(decimal(n));
        assert(e.drop_last() =~= Seq::<u8>::empty());
        assert(digit_char(n) as u8 == 48 + n);
        assert(e.last() == 48 + n);
        assert(digits_value(e.drop_last()) == 0);
    } else {
        lemma_decimal_digits(n / 10);
        let head = decimal(n / 10);
        let last = seq![digit_char((n % 10) as nat)];
        assert(decimal(n) =~= head + last);
        lemma_encode_concat(head, last);
        lemma_encode_digit_chars(last);
        let e = encode_utf8(decimal(n));
        assert(e.drop_last() =~= encode_utf8(head));
        assert(e.last() == encode_utf8(last)[0]);
        assert(n == (n / 10) * 10 + n % 10);
    }
}

/// Leading zeroes do not change the value of a run of digits.
proof fn lemma_leading_zeroes_value(z: Seq<u8>, d: Seq<u8>)
    requires
        forall|i: int| 0 <= i < z.len() ==> #[trigger] z[i] == 48u8,
    ensures
        digits_value(z + d) == digits_value(d),
    decreases d.len(),
{
    if d.len() == 0 {
        assert(z + d =~= z);
        lemma_zeroes_value(z);
    } else {
        assert((z + d).drop_last() =~= z + d.drop_last());
        lemma_leading_zeroes_value(z, d.drop_last());
    }
}

/// A run of zeroes has the value zero.
proof fn lemma_zeroes_value(z: Seq<u8>)
    requires
        forall|i: int| 0 <= i < z.len() ==> #[trigger] z[i] == 48u8,
    ensures
        digits_value(z) == 0,
    decreases z.len(),
{
    if z.len() > 0 {
        lemma_zeroes_value(z.drop_last());
    }
}

/// Padding a valid name gives a valid name with the same number, prefix
/// and suffix, which padding to the same width leaves as it is.
pub proof fn lemma_padded_name(name: Seq<char>, width: nat)
    requires
        valid_filename(name),
        digit_count(number_value(name)) <= width,
    ensures
        valid_filename(padded_name(name, width)),
        number_value(padded_name(name, width)) == number_value(name),
        prefix_of(padded_name(name, width)) == prefix_of(name),
        suffix_of(padded_name(name, width)) == suffix_of(name),
        padded_name(padded_name(name, width), width) == padded_name(name, width),
{
    let b = encode_utf8(name);
    let v = number_value(name);
    let (from, to) = digit_span(name);
    let (gs, ge) = group_span(b);
    assert(is_only_group(b, gs, ge));
    assert(is_digit_byte(b[from]));
    assert(is_leading_byte_width_1(b[from]));
    assert(is_leading_byte_width_1(b[to]));
    let pre = prefix_of(name);
    let suf = suffix_of(name);
    let zs = zeroes((width - digit_count(v)) as nat);
    let mid = zs + decimal(v);
    let padded = padded_name(name, width);
    assert(padded =~= pre + mid + suf);
    // the parts around the digits keep their bytes
    assert(is_char_boundary(b, from));
    assert(is_char_boundary(b, to));
    valid_utf8_split(b, from);
    valid_utf8_split(b, to);
    decode_utf8_encode_utf8(b.subrange(0, from));
    decode_utf8_encode_utf8(b.subrange(to, b.len() as int));
    assert(encode_utf8(pre) == b.subrange(0, from));
    assert(encode_utf8(suf) == b.subrange(to, b.len() as int));
    // the new digits
    lemma_decimal_digits(v);
    assert forall|i: int| 0 <= i < mid.len() implies '0' <= #[trigger] mid[i] <= '9' by {
        if i >= zs.len() {
            assert(mid[i] == decimal(v)[i - zs.len()]);
        }
    }
    lemma_encode_digit_chars(mid);
    lemma_encode_digit_chars(zs);
    let d = encode_utf8(mid);
    lemma_encode_concat(zs, decimal(v));
    lemma_leading_zeroes_value(encode_utf8(zs), encode_utf8(decimal(v)));
    assert(digits_value(d) == v);
    // the new name
    lemma_encode_concat(pre + mid, suf);
    lemma_encode_concat(pre, mid);
    let c = encode_utf8(padded);
    assert(c == b.subrange(0, from) + d + b.subrange(to, b.len() as int));
    lemma_replace_digits(b, from, to, d);
    let m = from + d.len();
    let (cs, ce) = group_span(c);
    assert(is_only_group(c, cs, ce));
    assert(cs == from - 1 && ce == m + 1);
    assert(c.subrange(from, m) =~= d);
    assert(c.subrange(0, from) =~= b.subrange(0, from));
    assert(c.subrange(m, c.len() as int) =~= b.subrange(to, b.len() as int));
}

/// Relies on `std::path::Path::file_name`, which gives the last component of
/// a path where it is a normal one (not `..`, not a root), and on
/// `OsStr::to_str`. How a path splits depends on the platform.
#[verifier::external_body]
pub(crate) fn path_to_filename(path: &str) -> (r: Option<String>) {
    std::path::Path::new(path).file_name().and_then(|n| n.to_str()).map(|n| n.to_string())
}

/// Relies on `std::path::Path::with_file_name`: the path with its last
/// component replaced. How a path is joined depends on the platform.
#[verifier::external_body]
fn replace_file_name(path: &str, filename: &str) -> (r: String) {
    std::path::Path::new(path).with_file_name(filename).to_string_lossy().into_owned()
}

/// Writes the number group of `parsed` with `width` digits: the value with
/// as many leading zeroes as it lacks digits, between the prefix and the
/// suffix. `paris (7).jpg` becomes `paris (007).jpg` for three digits.
pub fn padded_filename(parsed: &ParsedFilename, width: u64) -> (r: String)
    requires
        digit_count(number_value(parsed@)) <= width,
    ensures
        r@ == padded_name(parsed@, width as nat),
{
    let value = parsed.number_group_value();
    let digits = count_digits_without_leading_zeroes(value);
    let mut name = String::from_str(parsed.filename_prefix());
    push_zeroes(&mut name, width - digits);
    let number = decimal_string(value);
    name.append(number.as_str());
    name.append(parsed.filename_suffix());
    assert(name@ =~= padded_name(parsed@, width as nat));
    name
}

/// A file in the file system whose name holds exactly one number group.
#[derive(Debug)]
pub struct FileInfo {
    path: String,
    parsed: ParsedFilename,
}

impl View for FileInfo {
    type V = Seq<char>;

    /// The filename, the last component of the path.
    closed spec fn view(&self) -> Seq<char> {
        self.parsed@
    }
}

impl FileInfo {
    /// The path of the file.
    pub closed spec fn spec_path(&self) -> Seq<char> {
        self.path@
    }

    /// A file at `path` whose last component is `filename`. Fails where the
    /// filename holds no number group or more than one, or where the number
    /// does not fit into 64 bits.
    pub fn from_parts(path: &str, filename: String) -> (r: Result<Self, NFLZError>)
        ensures
            valid_filename(filename@) ==> (r matches Ok(f) && f@ == filename@ && f.spec_path()
                == path@),
            r matches Ok(f) ==> valid_filename(f@) && f.spec_path() == path@,
            has_no_group(encode_utf8(filename@)) ==> (r matches Err(NFLZError::NoNumberGroup(n))
                && n@ == filename@),
            !has_no_group(encode_utf8(filename@)) && !has_single_group(encode_utf8(filename@))
                ==> (r matches Err(NFLZError::MultipleNumberGroups(n)) && n@ == filename@),
            has_single_group(encode_utf8(filename@)) && number_value(filename@) > u64::MAX ==> (
            r matches Err(NFLZError::ValueInNumberedGroupNotANumber(d)) && d@ == digits_of(
                filename@,
            )),
    {
        match ParsedFilename::new(filename) {
            Ok(parsed) => Ok(FileInfo { path: path.to_owned(), parsed }),
            Err(e) => Err(e),
        }
    }

    /// The file at `path`, with the name that its last component gives. Fails
    /// as [`Self::from_parts`] does, and with [`NFLZError::NoNumberGroup`]
    /// where the path ends in no filename.
    pub fn new(path: &str) -> (r: Result<Self, NFLZError>)
        ensures
            r matches Ok(f) ==> f.spec_path() == path@ && valid_filename(f@),
            r matches Err(e) ==> (e is NoNumberGroup || e is MultipleNumberGroups
                || e is ValueInNumberedGroupNotANumber),
    {
        match path_to_filename(path) {
            Some(filename) => Self::from_parts(path, filename),
            None => Err(NFLZError::NoNumberGroup(path.to_owned())),
        }
    }

    /// The text before the digits, the opening parenthesis included.
    pub fn filename_prefix(&self) -> (r: &str)
        ensures
            r@ == prefix_of(self@),
    {
        self.parsed.filename_prefix()
    }

    /// The text after the digits, the closing parenthesis included.
    pub fn filename_suffix(&self) -> (r: &str)
        ensures
            r@ == suffix_of(self@),
    {
        self.parsed.filename_suffix()
    }

    /// The byte offsets of the digits of the number group in the filename:
    /// the first inclusive, the second exclusive.
    pub fn number_group_indices(&self) -> (r: (usize, usize))
        ensures
            r.0 == digit_span(self@).0,
            r.1 == digit_span(self@).1,
    {
        self.parsed.number_group_indices()
    }

    /// The value of the number group.
    pub fn number_group_value(&self) -> (r: u64)
        ensures
            r == number_value(self@),
            valid_filename(self@),
    {
        self.parsed.number_group_value()
    }

    /// The filename: `file.ext` for `/foo/bar/file.ext`.
    pub fn original_filename(&self) -> (r: &str)
        ensures
            r@ == self@,
    {
        self.parsed.original_filename()
    }

    /// The path of the file.
    pub fn path(&self) -> (r: &str)
        ensures
            r@ == self.spec_path(),
    {
        self.path.as_str()
    }
}

/// A [`FileInfo`] with the new name that it gets once every number group in
/// its directory has the same number of digits.
#[derive(Debug)]
pub struct FileInfoWithRenameAdvice {
    file_info: FileInfo,
    new_filename: Option<String>,
}

impl FileInfoWithRenameAdvice {
    #[verifier::type_invariant]
    spec fn inv(&self) -> bool {
        self.new_filename matches Some(n) ==> n@ != self.file_info@
    }

    /// The file.
    pub closed spec fn spec_file_info(&self) -> FileInfo {
        self.file_info
    }

    /// The new filename, `None` where the file keeps its name.
    pub closed spec fn spec_new_filename(&self) -> Option<Seq<char>> {
        match self.new_filename {
            Some(n) => Some(n@),
            None => None,
        }
    }

    /// The advice for `file_info` where the largest number group of its
    /// directory has `max_digits` digits: the value gets as many leading
    /// zeroes as it lacks digits; `paris (7).jpg` becomes `paris (007).jpg`
    /// for three digits. Where that is the current name, no rename is due.
    pub fn new(file_info: FileInfo, max_digits: u64) -> (r: Self)
        requires
            digit_count(number_value(file_info@)) <= max_digits,
        ensures
            r.spec_file_info() == file_info,
            r.spec_new_filename() == rename_advice(file_info@, max_digits as nat),
    {
        let name = padded_filename(&file_info.parsed, max_digits);
        let original = file_info.original_filename().to_owned();
        if name == original {
            FileInfoWithRenameAdvice { file_info, new_filename: None }
        } else {
            FileInfoWithRenameAdvice { file_info, new_filename: Some(name) }
        }
    }

    /// Whether the file needs a rename, hence additional leading zeroes.
    pub fn needs_rename(&self) -> (r: bool)
        ensures
            r == self.spec_new_filename() is Some,
    {
        self.new_filename.is_some()
    }

    /// Whether the file already has its proper name; the opposite of
    /// [`Self::needs_rename`].
    pub fn is_already_properly_named(&self) -> (r: bool)
        ensures
            r == self.spec_new_filename() is None,
    {
        self.new_filename.is_none()
    }

    /// The file.
    pub fn file_info(&self) -> (r: &FileInfo)
        ensures
            *r == self.spec_file_info(),
    {
        &self.file_info
    }

    /// The path of the file under its new name; `None` where it keeps its name.
    pub fn path_with_new_filename(&self) -> (r: Option<String>)
        ensures
            r is Some == self.spec_new_filename() is Some,
    {
        match &self.new_filename {
            Some(n) => Some(replace_file_name(self.file_info.path(), n.as_str())),
            None => None,
        }
    }

    /// The new filename, with the additional leading zeroes in the number
    /// group; `None` where the file keeps its name: `Img (109).jpg` keeps it
    /// in a directory whose largest number has three digits.
    pub fn new_filename(&self) -> (r: Option<&str>)
        ensures
            match self.spec_new_filename() {
                Some(n) => r matches Some(s) && s@ == n,
                None => r is None,
            },
    {
        match &self.new_filename {
            Some(n) => Some(n.as_str()),
            None => None,
        }
    }
}

impl Clone for FileInfo {
    fn clone(&self) -> (r: Self)
        ensures
            r@ == self@,
            r.spec_path() == self.spec_path(),
    {
        FileInfo { path: self.path.clone(), parsed: self.parsed.clone() }
    }
}

impl Clone for FileInfoWithRenameAdvice {
    fn clone(&self) -> (r: Self)
        ensures
            r.spec_file_info()@ == self.spec_file_info()@,
            r.spec_file_info().spec_path() == self.spec_file_info().spec_path(),
            r.spec_new_filename() == self.spec_new_filename(),
    {
        proof {
            use_type_invariant(self);
        }
        let new_filename = match &self.new_filename {
            Some(n) => Some(n.clone()),
            None => None,
        };
        FileInfoWithRenameAdvice { file_info: self.file_info.clone(), new_filename }
    }
}

/// Two files are equal when their filenames are.
impl PartialEq for FileInfo {
    fn eq(&self, other: &Self) -> (r: bool) {
        self.parsed == other.parsed
    }
}

impl vstd::std_specs::cmp::PartialEqSpecImpl for FileInfo {
    open spec fn obeys_eq_spec() -> bool {
        true
    }

    open spec fn eq_spec(&self, other: &Self) -> bool {
        self@ == other@
    }
}

impl Eq for FileInfo {

}

/// Files are ordered by the value of their number group.
impl PartialOrd for FileInfo {
    fn partial_cmp(&self, other: &Self) -> (r: Option<Ordering>) {
        self.parsed.partial_cmp(&other.parsed)
    }
}

impl vstd::std_specs::cmp::PartialOrdSpecImpl for FileInfo {
    open spec fn obeys_partial_cmp_spec() -> bool {
        true
    }

    open spec fn partial_cmp_spec(&self, other: &Self) -> Option<Ordering> {
        number_order(self@, other@)
    }
}

/// Two advices are equal when the filenames of their files are.
impl PartialEq for FileInfoWithRenameAdvice {
    fn eq(&self, other: &Self) -> (r: bool) {
        self.file_info == other.file_info
    }
}

impl vstd::std_specs::cmp::PartialEqSpecImpl for FileInfoWithRenameAdvice {
    open spec fn obeys_eq_spec() -> bool {
        true
    }

    open spec fn eq_spec(&self, other: &Self) -> bool {
        self.spec_file_info()@ == other.spec_file_info()@
    }
}

impl Eq for FileInfoWithRenameAdvice {

}

/// Advices are ordered by the value of the number group of their files.
impl PartialOrd for FileInfoWithRenameAdvice {
    fn partial_cmp(&self, other: &Self) -> (r: Option<Ordering>) {
        self.file_info.partial_cmp(&other.file_info)
    }
}

impl vstd::std_specs::cmp::PartialOrdSpecImpl for FileInfoWithRenameAdvice {
    open spec fn obeys_partial_cmp_spec() -> bool {
        true
    }

    open spec fn partial_cmp_spec(&self, other: &Self) -> Option<Ordering> {
        number_order(self.spec_file_info()@, other.spec_file_info()@)
    }
}

} // verus!
