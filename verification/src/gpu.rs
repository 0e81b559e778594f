//! Counters that an AMD GPU exposes in sysfs.
use vstd::prelude::*;
use crate::text::{chars_of, parse_u64, parse_u64_spec, trim, trim_spec};

verus! {

/// The number in a sysfs counter file (such as `mem_info_vram_used`): its
/// text trimmed, then read as an unsigned 64-bit number.
pub fn parse_sysfs_u64(text: &str) -> (r: Option<u64>)
    ensures
        r == parse_u64_spec(trim_spec(text@)),
{
    let cs = chars_of(text);
    let t = trim(&cs);
    parse_u64(&t)
}

} // verus!
