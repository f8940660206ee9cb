//! Package-to-UID resolution support: the resolution mode and the tracker
//! that remembers, per input file, the digest of its last processed
//! contents.  The digests themselves come from an external checksum tool;
//! the tracker's bookkeeping — what changed and what to remember — is the
//! logic verified here.
use vstd::prelude::*;

use crate::bytesutil::str_eq;

verus! {

/// How unresolved packages are retried.
#[derive(Debug, Clone, Copy, PartialEq, Eq, Structural)]
pub enum Mode {
    Default,
    Dpi,
}

impl Mode {
    /// `"dpi"` (either case) selects the two-pass mode; anything else the
    /// default.
    pub fn from_str(s: &str) -> (r: Mode)
        ensures
            (s@ == "dpi"@ || s@ == "DPI"@) ==> r is Dpi,
            !(s@ == "dpi"@ || s@ == "DPI"@) ==> r is Default,
    {
        if str_eq(s, "dpi") || str_eq(s, "DPI") {
            Mode::Dpi
        } else {
            Mode::Default
        }
    }
}

/// Digest bookkeeping: one remembered digest per key (the full path of the
/// input file).  Loading and saving this table is boundary work; the
/// entries live here as plain pairs.
pub struct Sha256Tracker {
    pub entries: Vec<(String, String)>,
}

/// Index of the first entry with this key.
pub open spec fn key_idx(entries: Seq<(String, String)>, key: Seq<char>) -> int
    decreases entries.len(),
{
    if entries.len() == 0 {
        0
    } else if entries[0].0@ == key {
        0
    } else {
        1 + key_idx(entries.skip(1), key)
    }
}

pub open spec fn has_key(entries: Seq<(String, String)>, key: Seq<char>) -> bool {
    exists|i: int| 0 <= i < entries.len() && (#[trigger] entries[i]).0@ == key
}

pub proof fn lemma_key_idx(entries: Seq<(String, String)>, key: Seq<char>)
    ensures
        0 <= key_idx(entries, key) <= entries.len(),
        key_idx(entries, key) < entries.len() ==> entries[key_idx(entries, key)].0@ == key,
        forall|j: int| 0 <= j < key_idx(entries, key) ==> (#[trigger] entries[j]).0@ != key,
        (key_idx(entries, key) == entries.len()) == !has_key(entries, key),
    decreases entries.len(),
{
    if entries.len() > 0 && entries[0].0@ != key {
        lemma_key_idx(entries.skip(1), key);
        assert forall|j: int| 0 <= j < key_idx(entries, key) implies (#[trigger] entries[j]).0@
            != key by {
            if j > 0 {
                assert(entries.skip(1)[j - 1] == entries[j]);
            }
        }
        if key_idx(entries, key) < entries.len() {
            assert(entries.skip(1)[key_idx(entries, key) - 1] == entries[key_idx(entries, key)]);
        }
        if key_idx(entries, key) == entries.len() {
            assert forall|i: int| 0 <= i < entries.len() implies (#[trigger] entries[i]).0@
                != key by {
                if i > 0 {
                    assert(entries.skip(1)[i - 1] == entries[i]);
                }
            }
        } else {
            assert(has_key(entries, key));
        }
    } else if entries.len() > 0 {
        assert(has_key(entries, key));
    }
}

impl Sha256Tracker {
    /// A tracker with nothing remembered yet.
    pub fn new() -> (r: Sha256Tracker)
        ensures
            r.entries@.len() == 0,
    {
        Sha256Tracker { entries: Vec::new() }
    }

    fn find_key(&self, key: &str) -> (r: Option<usize>)
        ensures
            match r {
                Some(i) => i == key_idx(self.entries@, key@) && i < self.entries@.len()
                    && self.entries@[i as int].0@ == key@,
                None => !has_key(self.entries@, key@),
            },
    {
        proof {
            lemma_key_idx(self.entries@, key@);
        }
        let mut i: usize = 0;
        while i < self.entries.len()
            invariant
                0 <= i <= self.entries@.len(),
                forall|j: int| 0 <= j < i ==> (#[trigger] self.entries@[j]).0@ != key@,
            decreases self.entries.len() - i,
        {
            if str_eq(self.entries[i].0.as_str(), key) {
                proof {
                    lemma_key_idx(self.entries@, key@);
                }
                return Some(i);
            }
            i = i + 1;
        }
        None
    }

    /// Record the fresh digest for `key` and report the previous one and
    /// whether it changed: the digest changed exactly when no digest was
    /// remembered or a different one was.
    pub fn check_and_update(&mut self, key: &str, new_hash: &str) -> (r: (Option<String>, bool))
        ensures
            ({
                let (old_hash, changed) = r;
                &&& (match old_hash {
                    Some(h) => has_key(old(self).entries@, key@) && h@ == old(self).entries@[key_idx(
                        old(self).entries@,
                        key@,
                    )].1@,
                    None => !has_key(old(self).entries@, key@),
                })
                &&& changed == (match old_hash {
                    Some(h) => h@ != new_hash@,
                    None => true,
                })
            }),
            has_key(final(self).entries@, key@),
            final(self).entries@[key_idx(final(self).entries@, key@)].1@ == new_hash@,
            forall|j: int|
                0 <= j < old(self).entries@.len() && j != key_idx(old(self).entries@, key@)
                    ==> final(self).entries@[j] == old(self).entries@[j],
    {
        match self.find_key(key) {
            Some(i) => {
                let old_val = self.entries[i].1.clone();
                let ghost pre = self.entries@;
                self.entries.remove(i);
                self.entries.insert(i, (key.to_owned(), new_hash.to_owned()));
                let changed = !str_eq(old_val.as_str(), new_hash);
                proof {
                    assert(self.entries@ =~= pre.update(i as int, self.entries@[i as int]));
                    lemma_key_idx(self.entries@, key@);
                    assert(key_idx(self.entries@, key@) == i as int) by {
                        lemma_key_idx(pre, key@);
                        assert(forall|j: int|
                            0 <= j < i ==> (#[trigger] self.entries@[j]).0@ != key@);
                    }
                    assert(has_key(self.entries@, key@));
                }
                (Some(old_val), changed)
            },
            None => {
                let ghost pre = self.entries@;
                self.entries.push((key.to_owned(), new_hash.to_owned()));
                proof {
                    lemma_key_idx(self.entries@, key@);
                    lemma_key_idx(pre, key@);
                    assert(key_idx(self.entries@, key@) == pre.len()) by {
                        assert(forall|j: int|
                            0 <= j < pre.len() ==> (#[trigger] self.entries@[j]).0@ != key@);
                        assert(self.entries@[pre.len() as int].0@ == key@);
                    }
                    assert(has_key(self.entries@, key@));
                }
                (None, true)
            },
        }
    }
}

/// One line of a package list: trimmed, inline comments after `#` removed,
/// empty results skipped.  The cleaned package name of a line, if any.
pub open spec fn spec_package_of_line(line: Seq<u8>) -> Option<Seq<u8>> {
    let t0 = crate::bytesutil::trim_spec(line);
    let cut = if crate::bytesutil::contains_byte(t0, 35) {
        crate::bytesutil::trim_spec(t0.take(crate::bytesutil::first_idx(t0, 35)))
    } else {
        t0
    };
    if cut.len() == 0 {
        None
    } else {
        Some(cut)
    }
}

/// Extract the package named on one list line, with comment handling.
pub fn package_of_line(line: &[u8]) -> (r: Option<Vec<u8>>)
    ensures
        match r {
            Some(p) => spec_package_of_line(line@) == Some(p@),
            None => spec_package_of_line(line@) is None,
        },
{
    let t0 = crate::bytesutil::trim_bytes(line);
    proof {
        crate::bytesutil::lemma_first_idx(t0@, 35);
    }
    let cut: &[u8] = match crate::bytesutil::find_byte(t0, 35, 0) {
        Some(i) => {
            proof {
                assert(i as int == crate::bytesutil::first_idx(t0@, 35));
            }
            crate::bytesutil::trim_bytes(&t0[0..i])
        },
        None => t0,
    };
    if cut.len() == 0 {
        None
    } else {
        let mut out: Vec<u8> = Vec::new();
        let mut i: usize = 0;
        while i < cut.len()
            invariant
                0 <= i <= cut@.len(),
                out@ == cut@.take(i as int),
            decreases cut.len() - i,
        {
            out.push(cut[i]);
            i = i + 1;
            proof {
                assert(cut@.take(i as int) =~= cut@.take(i as int - 1).push(cut@[i as int - 1]));
            }
        }
        proof {
            assert(out@ =~= cut@);
        }
        Some(out)
    }
}

} // verus!
