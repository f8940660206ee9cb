//! Address-list processing support: the outcome counters and the filter
//! that keeps only plausible IPv4 lines of a list file.  Applying the
//! firewall rules to each address is boundary work.
use vstd::prelude::*;

use crate::bytesutil::{contains_byte, trim_spec};

verus! {

/// Outcome counters of one list application.
#[derive(Debug, Clone)]
pub struct Stats {
    pub success: u64,
    pub fail: u64,
    pub processed: u64,
    pub total_v4: u64,
}

impl Default for Stats {
    /// No addresses processed yet.
    fn default() -> (r: Stats)
        ensures
            r.success == 0 && r.fail == 0 && r.processed == 0 && r.total_v4 == 0,
    {
        Stats { success: 0, fail: 0, processed: 0, total_v4: 0 }
    }
}

/// A line that names an IPv4 candidate: trimmed, non-empty, no comment
/// marker at the front, no colon (so not IPv6), starting with a digit.
pub open spec fn spec_is_v4_line(line: Seq<u8>) -> bool {
    let t = trim_spec(line);
    &&& t.len() > 0
    &&& t[0] != 35
    &&& !contains_byte(t, 58)
    &&& 48 <= t[0] <= 57
}

/// Whether a list line should be processed as an IPv4 entry.
pub fn is_v4_line(line: &[u8]) -> (r: bool)
    ensures
        r == spec_is_v4_line(line@),
{
    let t = crate::bytesutil::trim_bytes(line);
    if t.len() == 0 {
        return false;
    }
    if t[0] == 35 {
        return false;
    }
    let mut i: usize = 0;
    while i < t.len()
        invariant
            0 <= i <= t@.len(),
            t@ == trim_spec(line@),
            t@.len() > 0,
            t@[0] != 35,
            forall|j: int| 0 <= j < i ==> t@[j] != 58,
        decreases t.len() - i,
    {
        if t[i] == 58 {
            proof {
                assert(contains_byte(t@, 58));
            }
            return false;
        }
        i = i + 1;
    }
    48 <= t[0] && t[0] <= 57
}

} // verus!
