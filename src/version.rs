//! The version string shown to users: the package version without its
//! major component.
use vstd::prelude::*;
use vstd::string::{is_ascii, StrSliceExecFns};
use vstd::utf8::is_ascii_chars;

verus! {

/// The position of the first `.` in `v` at or after `i`.
pub open spec fn first_dot_from(v: Seq<char>, i: int) -> Option<int>
    decreases v.len() - i,
{
    if i < 0 || i >= v.len() {
        None
    } else if v[i] == '.' {
        Some(i)
    } else {
        first_dot_from(v, i + 1)
    }
}

/// What follows the first `.` of an ASCII version string, where that is not
/// empty and does not start with another `.`.
pub open spec fn minor_version_spec(v: Seq<char>) -> Option<Seq<char>> {
    if !is_ascii_chars(v) {
        None
    } else {
        match first_dot_from(v, 0) {
            None => None,
            Some(d) => if d + 1 < v.len() && v[d + 1] != '.' {
                Some(v.skip(d + 1))
            } else {
                None
            },
        }
    }
}

/// Strips the major component from a version string such as `1.4.2`,
/// giving `4.2`; `None` where the string is not ASCII or has no component
/// after its first `.`.
pub fn format_version(version: &str) -> (r: Option<&str>)
    ensures
        match minor_version_spec(version@) {
            None => r is None,
            Some(t) => r is Some && r->0@ == t,
        },
{
    if !version.is_ascii() {
        return None;
    }
    let len = version.unicode_len();
    let mut i: usize = 0;
    while i < len
        invariant
            is_ascii(version),
            len == version@.len(),
            i <= len,
            first_dot_from(version@, 0) == first_dot_from(version@, i as int),
        decreases len - i,
    {
        let c = version.get_ascii(i);
        if c == 46 {
            assert(version@[i as int] == '.');
            if i + 1 < len && version.get_ascii(i + 1) != 46 {
                return Some(version.substring_ascii(i + 1, len));
            }
            return None;
        }
        i = i + 1;
    }
    None
}

} // verus!
