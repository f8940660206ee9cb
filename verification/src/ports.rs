//! Listener-port bookkeeping: each program family has a base port, used
//! ports are collected for conflict checks, and a fresh profile gets the
//! next free port.  Reading the profile files is boundary work; the
//! allocation rules are verified here.
use vstd::prelude::*;

verus! {

/// The spec-level base port of a program family.
pub open spec fn spec_program_base(name: Seq<char>) -> Option<u16> {
    if name == "nfqws"@ || name == "nfqws2"@ {
        Some(200u16)
    } else if name == "byedpi"@ {
        Some(1130u16)
    } else if name == "dpitunnel"@ {
        Some(1840u16)
    } else {
        None
    }
}

/// The base port a program family's profiles start from.
pub fn program_base(program: &str) -> (r: Option<u16>)
    ensures
        r == spec_program_base(program@),
{
    proof {
        reveal_strlit("nfqws");
        reveal_strlit("nfqws2");
        reveal_strlit("byedpi");
        reveal_strlit("dpitunnel");
        assert("nfqws"@.len() == 5);
        assert("nfqws2"@.len() == 6);
        assert("byedpi"@.len() == 6);
        assert("dpitunnel"@.len() == 9);
        assert("nfqws2"@[0] == 'n' && "byedpi"@[0] == 'b');
        assert("nfqws"@ != "nfqws2"@ && "nfqws"@ != "byedpi"@ && "nfqws"@ != "dpitunnel"@);
        assert("nfqws2"@ != "byedpi"@ && "nfqws2"@ != "dpitunnel"@);
        assert("byedpi"@ != "dpitunnel"@);
    }
    if crate::bytesutil::str_eq(program, "nfqws") || crate::bytesutil::str_eq(program, "nfqws2") {
        Some(200)
    } else if crate::bytesutil::str_eq(program, "byedpi") {
        Some(1130)
    } else if crate::bytesutil::str_eq(program, "dpitunnel") {
        Some(1840)
    } else {
        None
    }
}

pub open spec fn contains_port(used: Seq<u16>, p: u16) -> bool {
    exists|i: int| 0 <= i < used.len() && used[i] == p
}

fn port_in(used: &Vec<u16>, p: u16) -> (r: bool)
    ensures
        r == contains_port(used@, p),
{
    let mut i: usize = 0;
    while i < used.len()
        invariant
            0 <= i <= used@.len(),
            forall|j: int| 0 <= j < i ==> used@[j] != p,
        decreases used.len() - i,
    {
        if used[i] == p {
            return true;
        }
        i = i + 1;
    }
    false
}

/// The starting point of a search: zero falls back to the base, and the
/// search never starts below the base.
pub open spec fn spec_search_start(start: u16, base: u16) -> u16 {
    if start == 0 {
        base
    } else if start < base {
        base
    } else {
        start
    }
}

/// The smallest free port at or above `start` (floored at `base`), if any.
pub fn next_free_port(start: u16, base: u16, used: &Vec<u16>) -> (r: Option<u16>)
    ensures
        match r {
            Some(p) => spec_search_start(start, base) <= p && !contains_port(used@, p) && forall|
                q: u16,
            |
                spec_search_start(start, base) <= q < p ==> contains_port(used@, q),
            None => forall|q: u16|
                q >= spec_search_start(start, base) ==> contains_port(used@, q),
        },
{
    let s0: u16 = if start == 0 {
        base
    } else if start < base {
        base
    } else {
        start
    };
    let mut p: u32 = s0 as u32;
    while p <= 65535
        invariant
            s0 as u32 <= p <= 65536,
            s0 == spec_search_start(start, base),
            forall|q: u16| s0 <= q < p ==> contains_port(used@, q),
        decreases 65536 - p,
    {
        let pu = p as u16;
        if !port_in(used, pu) {
            return Some(pu);
        }
        p = p + 1;
    }
    proof {
        assert forall|q: u16| q >= spec_search_start(start, base) implies contains_port(
            used@,
            q,
        ) by {
            assert((q as u32) < p);
        }
    }
    None
}

/// Gather the ports in use — the fixed reserved ones and the ports of the
/// adjustable profiles — as a strictly sorted list covering exactly those
/// ports; zero entries (uninitialized profiles) are ignored.
pub fn collect_used_ports_for_conflict_check(reserved: &Vec<u16>, profile_ports: &Vec<u16>) -> (r:
    Vec<u16>)
    ensures
        forall|i: int| 0 <= i < r@.len() - 1 ==> #[trigger] r@[i] < r@[i + 1],
        forall|p: u16|
            contains_port(r@, p) == ((contains_port(reserved@, p) || (contains_port(
                profile_ports@,
                p,
            ) && p != 0))),
{
    let mut out: Vec<u16> = Vec::new();
    let mut i: usize = 0;
    while i < reserved.len()
        invariant
            0 <= i <= reserved@.len(),
            forall|k: int| 0 <= k < out@.len() - 1 ==> #[trigger] out@[k] < out@[k + 1],
            forall|p: u16|
                contains_port(out@, p) == contains_port(reserved@.take(i as int), p),
        decreases reserved.len() - i,
    {
        insert_sorted(&mut out, reserved[i]);
        proof {
            let t = reserved@.take(i as int + 1);
            assert(t =~= reserved@.take(i as int).push(reserved@[i as int]));
            assert forall|p: u16| contains_port(t, p) == (contains_port(
                reserved@.take(i as int),
                p,
            ) || p == reserved@[i as int]) by {
                lemma_contains_push(reserved@.take(i as int), reserved@[i as int], p);
            }
        }
        i = i + 1;
    }
    proof {
        assert(reserved@.take(reserved@.len() as int) =~= reserved@);
    }
    let mut j: usize = 0;
    while j < profile_ports.len()
        invariant
            0 <= j <= profile_ports@.len(),
            forall|k: int| 0 <= k < out@.len() - 1 ==> #[trigger] out@[k] < out@[k + 1],
            forall|p: u16|
                contains_port(out@, p) == (contains_port(reserved@, p) || (contains_port(
                    profile_ports@.take(j as int),
                    p,
                ) && p != 0)),
        decreases profile_ports.len() - j,
    {
        let v = profile_ports[j];
        if v != 0 {
            insert_sorted(&mut out, v);
        }
        proof {
            let t = profile_ports@.take(j as int + 1);
            assert(t =~= profile_ports@.take(j as int).push(profile_ports@[j as int]));
            assert forall|p: u16| contains_port(t, p) == (contains_port(
                profile_ports@.take(j as int),
                p,
            ) || p == profile_ports@[j as int]) by {
                lemma_contains_push(profile_ports@.take(j as int), profile_ports@[j as int], p);
            }
        }
        j = j + 1;
    }
    proof {
        assert(profile_ports@.take(profile_ports@.len() as int) =~= profile_ports@);
    }
    out
}

proof fn lemma_contains_push(s: Seq<u16>, x: u16, p: u16)
    ensures
        contains_port(s.push(x), p) == (contains_port(s, p) || p == x),
{
    if contains_port(s, p) {
        let i = choose|i: int| 0 <= i < s.len() && s[i] == p;
        assert(s.push(x)[i] == p);
    }
    if p == x {
        assert(s.push(x)[s.len() as int] == p);
    }
    if contains_port(s.push(x), p) {
        let i = choose|i: int| 0 <= i < s.push(x).len() && s.push(x)[i] == p;
        if i < s.len() {
            assert(s[i] == p);
        }
    }
}

/// Insert a port into a strictly sorted list, keeping it strictly sorted;
/// a port already present changes nothing.
fn insert_sorted(out: &mut Vec<u16>, v: u16)
    requires
        forall|k: int| 0 <= k < old(out)@.len() - 1 ==> #[trigger] old(out)@[k] < old(out)@[k + 1],
    ensures
        forall|k: int| 0 <= k < final(out)@.len() - 1 ==> #[trigger] final(out)@[k] < final(out)@[k + 1],
        forall|p: u16|
            contains_port(final(out)@, p) == (contains_port(old(out)@, p) || p == v),
{
    let mut j: usize = 0;
    while j < out.len() && out[j] < v
        invariant
            0 <= j <= out@.len(),
            out@ == old(out)@,
            forall|k: int| 0 <= k < j ==> out@[k] < v,
        decreases out.len() - j,
    {
        j = j + 1;
    }
    if j < out.len() && out[j] == v {
        proof {
            assert forall|p: u16| contains_port(out@, p) == (contains_port(old(out)@, p) || p
                == v) by {
                if p == v {
                    assert(out@[j as int] == v);
                }
            }
        }
        return ;
    }
    let ghost pre = out@;
    out.insert(j, v);
    proof {
        assert forall|k: int| 0 <= k < out@.len() - 1 implies #[trigger] out@[k] < out@[k + 1] by {
            if k + 1 < j {
                assert(out@[k] == pre[k] && out@[k + 1] == pre[k + 1]);
            } else if k + 1 == j {
                assert(out@[k] == pre[k] && out@[k + 1] == v);
            } else if k == j {
                assert(out@[k] == v && out@[k + 1] == pre[k]);
                assert(!(pre[k] < v));
                assert(pre[k] != v);
            } else {
                assert(out@[k] == pre[k - 1] && out@[k + 1] == pre[k]);
            }
        }
        assert forall|p: u16| contains_port(out@, p) == (contains_port(pre, p) || p == v) by {
            if contains_port(pre, p) {
                let i = choose|i: int| 0 <= i < pre.len() && pre[i] == p;
                if i < j {
                    assert(out@[i] == p);
                } else {
                    assert(out@[i + 1] == p);
                }
            }
            if p == v {
                assert(out@[j as int] == p);
            }
            if contains_port(out@, p) {
                let i = choose|i: int| 0 <= i < out@.len() && out@[i] == p;
                if i < j {
                    assert(pre[i] == p);
                } else if i > j {
                    assert(pre[i - 1] == p);
                }
            }
        }
    }
}

/// The effective port of one adjustable profile entry: a zero port falls
/// back to its program family's base.
pub open spec fn spec_effective_port(name: Seq<char>, port: u16) -> Option<u16> {
    match spec_program_base(name) {
        Some(b) => Some(
            if port == 0 {
                b
            } else {
                port
            },
        ),
        None => None,
    }
}

/// A port for a new profile of the given program: the next free port after
/// the program's own highest profile port (or from the base when it has
/// none), avoiding every reserved port and every profile's effective port.
/// `None` when the program is unknown or every candidate port is taken.
pub fn suggest_port_for_new_profile(
    program: &str,
    reserved: &Vec<u16>,
    profiles: &Vec<(String, u16)>,
) -> (r: Option<u16>)
    ensures
        spec_program_base(program@) is None ==> r is None,
        r matches Some(p) ==> !contains_port(reserved@, p) && (forall|i: int|
            0 <= i < profiles@.len() ==> spec_effective_port(
                (#[trigger] profiles@[i]).0@,
                profiles@[i].1,
            ) != Some(p)),
{
    let base = match program_base(program) {
        Some(b) => b,
        None => {
            return None;
        },
    };
    let mut used: Vec<u16> = Vec::new();
    let mut max_self: Option<u16> = None;
    let mut i: usize = 0;
    while i < profiles.len()
        invariant
            0 <= i <= profiles@.len(),
            forall|k: int|
                0 <= k < i ==> (match spec_effective_port(
                    (#[trigger] profiles@[k]).0@,
                    profiles@[k].1,
                ) {
                    Some(e) => contains_port(used@, e),
                    None => true,
                }),
        decreases profiles.len() - i,
    {
        let entry = &profiles[i];
        match program_base(entry.0.as_str()) {
            Some(b) => {
                let eff: u16 = if entry.1 == 0 {
                    b
                } else {
                    entry.1
                };
                let ghost pre = used@;
                used.push(eff);
                proof {
                    assert(contains_port(used@, eff)) by {
                        assert(used@[pre.len() as int] == eff);
                    }
                    assert forall|p: u16| contains_port(pre, p) implies contains_port(
                        used@,
                        p,
                    ) by {
                        let k = choose|k: int| 0 <= k < pre.len() && pre[k] == p;
                        assert(used@[k] == p);
                    }
                }
                if crate::bytesutil::str_eq(entry.0.as_str(), program) {
                    max_self = match max_self {
                        Some(m) => {
                            if eff > m {
                                Some(eff)
                            } else {
                                Some(m)
                            }
                        },
                        None => Some(eff),
                    };
                }
            },
            None => {},
        }
        i = i + 1;
    }
    let mut k: usize = 0;
    while k < reserved.len()
        invariant
            0 <= k <= reserved@.len(),
            forall|t: int|
                0 <= t < profiles@.len() ==> (match spec_effective_port(
                    (#[trigger] profiles@[t]).0@,
                    profiles@[t].1,
                ) {
                    Some(e) => contains_port(used@, e),
                    None => true,
                }),
            forall|t: int| 0 <= t < k ==> contains_port(used@, #[trigger] reserved@[t]),
        decreases reserved.len() - k,
    {
        let ghost pre = used@;
        used.push(reserved[k]);
        proof {
            assert forall|p: u16| contains_port(pre, p) implies contains_port(used@, p) by {
                let t = choose|t: int| 0 <= t < pre.len() && pre[t] == p;
                assert(used@[t] == p);
            }
            assert(used@[pre.len() as int] == reserved@[k as int]);
        }
        k = k + 1;
    }
    let start: u16 = match max_self {
        Some(m) => {
            if m == 65535 {
                65535
            } else {
                m + 1
            }
        },
        None => base,
    };
    let found = next_free_port(start, base, &used);
    proof {
        match found {
            Some(p) => {
            assert forall|t: int|
                0 <= t < profiles@.len() implies spec_effective_port(
                    (#[trigger] profiles@[t]).0@,
                    profiles@[t].1,
                ) != Some(p) by {
                match spec_effective_port(profiles@[t].0@, profiles@[t].1) {
                    Some(e) => {
                        assert(contains_port(used@, e));
                    },
                    None => {},
                }
            }
            assert(!contains_port(reserved@, p)) by {
                if contains_port(reserved@, p) {
                    let t = choose|t: int| 0 <= t < reserved@.len() && reserved@[t] == p;
                    assert(contains_port(used@, reserved@[t]));
                }
            }
            },
            None => {},
        }
    }
    found
}

} // verus!
