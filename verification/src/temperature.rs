//! `/sys/class/thermal`: which entries are thermal zones, and their names.
use vstd::prelude::*;
use crate::strings::string_from_chars;
use crate::text::{chars_of, starts_with, trim, trim_spec};

verus! {

/// Whether a `/sys/class/thermal` entry is a thermal zone (its name starts
/// with `thermal_zone`).
pub fn is_thermal_zone(entry_name: &str) -> (b: bool)
    ensures
        b == "thermal_zone"@.is_prefix_of(entry_name@),
{
    let cs = chars_of(entry_name);
    let prefix = chars_of("thermal_zone");
    starts_with(&cs, &prefix)
}

/// The name of a thermal zone: the text of its `type` file, trimmed.
pub fn thermal_zone_name(zone_type: &str) -> (name: String)
    ensures
        name@ == trim_spec(zone_type@),
{
    let cs = chars_of(zone_type);
    let t = trim(&cs);
    string_from_chars(&t)
}

} // verus!
