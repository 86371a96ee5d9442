//! The names of the files that hold statistics.

use crate::text::{chars_of, ends_with, starts_with};
use vstd::prelude::*;

verus! {

/// Whether a file of this name holds the statistics of one realm: whether the
/// name begins with `stats` and ends with `.txt`.
pub open spec fn stat_file_name(name: Seq<char>) -> bool {
    "stats"@.is_prefix_of(name) && ".txt"@.is_suffix_of(name)
}

/// Whether a file of this name holds the statistics of one realm.
pub fn is_stat_file_name(name: &str) -> (r: bool)
    ensures
        r == stat_file_name(name@),
{
    let have = chars_of(name);
    starts_with(have.as_slice(), chars_of("stats").as_slice()) && ends_with(
        have.as_slice(),
        chars_of(".txt").as_slice(),
    )
}

} // verus!
