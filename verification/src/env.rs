//! Recognizing the values boolean configuration variables carry.

use vstd::prelude::*;
use vstd::string::StringSliceAdditionalSpecFns;

verus! {

/// The boolean a configuration value denotes, over its octets: "off", "OFF",
/// "FALSE", "false" and "0" mean false; "on", "ON", "TRUE", "true" and "1"
/// mean true; anything else is unrecognized.
pub open spec fn spec_parse_bool(b: Seq<u8>) -> Option<bool> {
    if b.len() == 1 && b[0] == 48 {
        Some(false)
    } else if b.len() == 1 && b[0] == 49 {
        Some(true)
    } else if b.len() == 2 && b[0] == 111 && b[1] == 110 {
        Some(true)
    } else if b.len() == 2 && b[0] == 79 && b[1] == 78 {
        Some(true)
    } else if b.len() == 3 && b[0] == 111 && b[1] == 102 && b[2] == 102 {
        Some(false)
    } else if b.len() == 3 && b[0] == 79 && b[1] == 70 && b[2] == 70 {
        Some(false)
    } else if b.len() == 4 && b[0] == 116 && b[1] == 114 && b[2] == 117 && b[3] == 101 {
        Some(true)
    } else if b.len() == 4 && b[0] == 84 && b[1] == 82 && b[2] == 85 && b[3] == 69 {
        Some(true)
    } else if b.len() == 5 && b[0] == 102 && b[1] == 97 && b[2] == 108 && b[3] == 115 && b[4]
        == 101 {
        Some(false)
    } else if b.len() == 5 && b[0] == 70 && b[1] == 65 && b[2] == 76 && b[3] == 83 && b[4] == 69 {
        Some(false)
    } else {
        None
    }
}

/// Recognizes a boolean configuration value.
///
/// Returns `None` when the format is unrecognized.
pub fn parse_bool(value: &str) -> (r: Option<bool>)
    ensures
        r == spec_parse_bool(value.spec_bytes()),
{
    let b = value.as_bytes();
    let n = b.len();
    if n == 1 && b[0] == 48 {
        Some(false)
    } else if n == 1 && b[0] == 49 {
        Some(true)
    } else if n == 2 && b[0] == 111 && b[1] == 110 {
        Some(true)
    } else if n == 2 && b[0] == 79 && b[1] == 78 {
        Some(true)
    } else if n == 3 && b[0] == 111 && b[1] == 102 && b[2] == 102 {
        Some(false)
    } else if n == 3 && b[0] == 79 && b[1] == 70 && b[2] == 70 {
        Some(false)
    } else if n == 4 && b[0] == 116 && b[1] == 114 && b[2] == 117 && b[3] == 101 {
        Some(true)
    } else if n == 4 && b[0] == 84 && b[1] == 82 && b[2] == 85 && b[3] == 69 {
        Some(true)
    } else if n == 5 && b[0] == 102 && b[1] == 97 && b[2] == 108 && b[3] == 115 && b[4] == 101 {
        Some(false)
    } else if n == 5 && b[0] == 70 && b[1] == 65 && b[2] == 76 && b[3] == 83 && b[4] == 69 {
        Some(false)
    } else {
        None
    }
}

} // verus!
