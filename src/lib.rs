//! Adds leading zeroes to the number group of ascending numbered file names
//! (`paris (1).jpg` becomes `paris (001).jpg`), so that the alphabetical order
//! of a directory equals the numerical order of its files.
//!
//! [`NFLZAssistant`] plans the renames of a directory and checks that they are
//! safe; the caller lists the directory, shows the plan and applies it.
use vstd::prelude::*;

pub mod error;
pub mod file_info;
pub mod math;
pub mod math_util;
pub mod nflz;
pub mod parse;
pub mod rename;
pub mod validation;

pub use crate::error::NFLZError;
pub use crate::file_info::{FileInfo, FileInfoWithRenameAdvice};
pub use crate::math::count_digits_without_leading_zeroes;
pub use crate::math_util::digits;
pub use crate::nflz::{
    check_distinct_prefixes_and_suffixes, check_no_destination_file_already_exists,
    check_suffixes_and_prefixes_are_unambiguous, files_to_nflz_file_info_vec, NFLZAssistant,
};
pub use crate::parse::{
    get_filename_prefix_and_suffix, get_number_group_indices_from_actual_filename, ParsedFilename,
};
pub use crate::rename::{can_rename_all, compute_rename_map, RenameMap};
pub use crate::validation::filename_is_valid;

verus! {

} // verus!
