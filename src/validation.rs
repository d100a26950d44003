//! Whether a filename can take part in the renaming at all.
use vstd::prelude::*;
use vstd::string::*;
use crate::parse::{find_number_groups, has_single_group, is_group_at, is_only_group};

verus! {

/// Whether `filename` can take part in the renaming: it holds exactly one
/// number group such as `(123)`. `invalid (100) (19231).jpg` cannot.
pub fn filename_is_valid(filename: &str) -> (r: bool)
    ensures
        r == has_single_group(filename.spec_bytes()),
{
    matches_regex(filename)
}

/// Whether the pattern of a number group occurs exactly once in `filename`.
fn matches_regex(filename: &str) -> (r: bool)
    ensures
        r == has_single_group(filename.spec_bytes()),
{
    let groups = find_number_groups(filename);
    let ghost b = filename.spec_bytes();
    if groups.len() == 1 {
        let ghost g = groups@[0];
        assert(is_group_at(b, g.0 as int, g.1 as int));
        assert forall|s2: int, e2: int| #[trigger] is_group_at(b, s2, e2) implies s2 == g.0
            && e2 == g.1 by {
            let i = choose|i: int| 0 <= i < groups@.len() && groups@[i].0 == s2 && groups@[i].1 == e2;
        }
        assert(is_only_group(b, g.0 as int, g.1 as int));
        true
    } else {
        assert(!has_single_group(b)) by {
            if has_single_group(b) {
                let (s, e) = choose|s: int, e: int| is_only_group(b, s, e);
                let i = choose|i: int| 0 <= i < groups@.len() && groups@[i].0 == s && groups@[i].1 == e;
                if groups.len() > 1 {
                    let g0 = groups@[0];
                    let g1 = groups@[1];
                    assert(is_group_at(b, g0.0 as int, g0.1 as int));
                    assert(is_group_at(b, g1.0 as int, g1.1 as int));
                }
            }
        }
        false
    }
}

} // verus!
