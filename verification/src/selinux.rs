//! SELinux mode handling: parsing `getenforce` output, and the guard that
//! remembers whether the mode was temporarily lowered and must be restored.
//! Probing and switching the mode are boundary actions; the guard's
//! decisions are verified here.
use vstd::prelude::*;

use crate::bytesutil::{ascii_lower_seq, bytes_eq, to_lower, trim_bytes, trim_spec};
use vstd::string::StringSliceAdditionalSpecFns;

verus! {

#[derive(Debug, Clone, Copy, PartialEq, Eq, Structural)]
pub enum SelinuxMode {
    Enforcing,
    Permissive,
    Disabled,
    Unknown,
}

impl SelinuxMode {
    /// The canonical name of the mode.
    pub fn as_str(self) -> (r: &'static str)
        ensures
            self is Enforcing ==> r@ == "Enforcing"@,
            self is Permissive ==> r@ == "Permissive"@,
            self is Disabled ==> r@ == "Disabled"@,
            self is Unknown ==> r@ == "Unknown"@,
    {
        match self {
            SelinuxMode::Enforcing => "Enforcing",
            SelinuxMode::Permissive => "Permissive",
            SelinuxMode::Disabled => "Disabled",
            SelinuxMode::Unknown => "Unknown",
        }
    }
}

/// The bytes with every carriage return removed.
pub open spec fn without_cr(s: Seq<u8>) -> Seq<u8>
    decreases s.len(),
{
    if s.len() == 0 {
        Seq::empty()
    } else if s.last() == 13 {
        without_cr(s.drop_last())
    } else {
        without_cr(s.drop_last()).push(s.last())
    }
}

/// What `getenforce` output means: carriage returns dropped, trimmed,
/// lowercased, then matched against the three known words.
pub open spec fn spec_parse_getenforce(s: Seq<u8>) -> SelinuxMode {
    let c = ascii_lower_seq(trim_spec(without_cr(s)));
    if c == "enforcing".spec_bytes() {
        SelinuxMode::Enforcing
    } else if c == "permissive".spec_bytes() {
        SelinuxMode::Permissive
    } else if c == "disabled".spec_bytes() {
        SelinuxMode::Disabled
    } else {
        SelinuxMode::Unknown
    }
}

/// Parse `getenforce` output.
pub fn parse_getenforce(s: &str) -> (r: SelinuxMode)
    ensures
        r == spec_parse_getenforce(s.spec_bytes()),
{
    let b = s.as_bytes();
    let mut no_cr: Vec<u8> = Vec::new();
    let mut i: usize = 0;
    proof {
        assert(b@.take(0) =~= Seq::<u8>::empty());
    }
    while i < b.len()
        invariant
            0 <= i <= b@.len(),
            no_cr@ == without_cr(b@.take(i as int)),
        decreases b.len() - i,
    {
        proof {
            let t = b@.take(i as int + 1);
            assert(t.drop_last() =~= b@.take(i as int));
            assert(t.last() == b@[i as int]);
        }
        if b[i] != 13 {
            no_cr.push(b[i]);
        }
        i = i + 1;
    }
    proof {
        assert(b@.take(b@.len() as int) =~= b@);
    }
    let c = to_lower(trim_bytes(no_cr.as_slice()));
    if bytes_eq(c.as_slice(), "enforcing".as_bytes()) {
        SelinuxMode::Enforcing
    } else if bytes_eq(c.as_slice(), "permissive".as_bytes()) {
        SelinuxMode::Permissive
    } else if bytes_eq(c.as_slice(), "disabled".as_bytes()) {
        SelinuxMode::Disabled
    } else {
        SelinuxMode::Unknown
    }
}

/// Remembers whether SELinux was switched to permissive and must be put
/// back.  The actual `setenforce` calls happen at the boundary; this guard
/// decides when they are due.
#[derive(Debug)]
pub struct SelinuxGuard {
    pub prev: SelinuxMode,
    pub changed: bool,
}

impl SelinuxGuard {
    /// The guard after entering: given the probed mode and whether the
    /// switch to permissive succeeded, the guard owes a restore exactly
    /// when the mode was Enforcing and the switch went through.
    pub fn enter_permissive_if_enforcing(prev: SelinuxMode, setenforce_ok: bool) -> (r:
        SelinuxGuard)
        ensures
            r.prev == prev,
            r.changed == (prev is Enforcing && setenforce_ok),
    {
        let changed = match prev {
            SelinuxMode::Enforcing => setenforce_ok,
            _ => false,
        };
        SelinuxGuard { prev, changed }
    }

    /// Keep the current state: no restore will be owed.
    pub fn disarm(&mut self)
        ensures
            final(self).prev == old(self).prev,
            !final(self).changed,
    {
        self.changed = false;
    }

    /// Settle the guard; the result says whether enforcing mode must be
    /// switched back on now.  Safe to call repeatedly: at most one restore
    /// is ever requested.
    pub fn restore(&mut self) -> (r: bool)
        ensures
            r == (old(self).changed && old(self).prev is Enforcing),
            final(self).prev == old(self).prev,
            !final(self).changed,
    {
        let due = self.changed && match self.prev {
            SelinuxMode::Enforcing => true,
            _ => false,
        };
        self.changed = false;
        due
    }
}

} // verus!
