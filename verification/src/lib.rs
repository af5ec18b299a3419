//! Locale key auditor: detects duplicate top-level keys in raw JSON text,
//! finds keys missing relative to a base locale, and reorders a document's
//! top-level keys to match a base file's key order.

pub mod dups;
pub mod jsonio;
pub mod keys;
pub mod missing;
pub mod order;
pub mod scan;

use vstd::prelude::*;

verus! {

/// Exit status of a batch run: a fatal or per-file error dominates a finding,
/// a finding (duplicate or missing key) dominates a clean run.
pub fn exit_code(any_error: bool, any_finding: bool) -> (code: u8)
    ensures
        code == (if any_error {
            2u8
        } else if any_finding {
            1u8
        } else {
            0u8
        }),
{
    if any_error {
        2
    } else if any_finding {
        1
    } else {
        0
    }
}

} // verus!
