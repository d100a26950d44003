//! The errors of the library. See [`NFLZError`].
use vstd::prelude::*;

verus! {

/// Everything that can go wrong while planning or applying a rename.
#[derive(Debug)]
pub enum NFLZError {
    /// The filename holds no parenthesized group of digits, e.g. `notes.txt`.
    NoNumberGroup(String),
    /// The filename holds two or more parenthesized groups of digits,
    /// e.g. `Img (2) (4).jpg`.
    MultipleNumberGroups(String),
    /// The digits inside the group do not fit into a 64-bit number.
    /// Carries the digits.
    ValueInNumberedGroupNotANumber(String),
    /// The directory or the files in it can't be read: the path and the cause.
    CantReadDirectory(String, String),
    /// Some new filenames are already taken in the directory: carries those
    /// filenames (all files of a plan share one directory).
    ConflictingFiles(Vec<String>),
    /// A rename failed: the old filename, the new filename and the cause.
    RenameFailed(String, String, String),
    /// The files do not share one prefix before the number group, e.g.
    /// `Img (1).jpg` and `Photo (2).jpg`. Carries the distinct prefixes.
    AmbiguousPrefixes(Vec<String>),
    /// The files do not share one suffix after the number group, e.g.
    /// `Img (1) foo.jpg` and `Img (2) bar.png`. Carries the distinct suffixes.
    AmbiguousSuffixes(Vec<String>),
}

impl NFLZError {
    /// The filename that resulted in the error, where the error is about one file.
    pub fn filename(&self) -> (r: Option<&str>)
        ensures
            match self {
                NFLZError::NoNumberGroup(f) => r matches Some(n) && n@ == f@,
                NFLZError::MultipleNumberGroups(f) => r matches Some(n) && n@ == f@,
                NFLZError::ValueInNumberedGroupNotANumber(f) => r matches Some(n) && n@ == f@,
                NFLZError::RenameFailed(f, _, _) => r matches Some(n) && n@ == f@,
                _ => r is None,
            },
    {
        match self {
            NFLZError::NoNumberGroup(f) => Some(f.as_str()),
            NFLZError::MultipleNumberGroups(f) => Some(f.as_str()),
            NFLZError::ValueInNumberedGroupNotANumber(f) => Some(f.as_str()),
            NFLZError::RenameFailed(f, _, _) => Some(f.as_str()),
            _ => None,
        }
    }
}

} // verus!
