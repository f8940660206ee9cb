//! Timing policy of the background loops: when the process is idle (no
//! connections and no observers), probing and enforcement slow down in
//! steps; any activity returns them to their fast cadence.  The sleeping
//! itself happens at the boundary; the intervals are decided here.
use vstd::prelude::*;
use vstd::string::StringSliceAdditionalSpecFns;

use crate::bytesutil::{
    dec_value, first_sub, is_ascii_digit_byte, leading_ws, lemma_first_sub,
    lemma_leading_ws_bound, starts_with, starts_with_spec, ws_prefix_len,
};

verus! {

/// Idle means no active connections and no observers.
pub fn is_idle(ui_clients: u64, active_conns: usize) -> (r: bool)
    ensures
        r == (ui_clients == 0 && active_conns == 0),
{
    ui_clients == 0 && active_conns == 0
}

/// Seconds until the next backend probe round: five while active; when
/// idle, one minute, then two after eight minutes, then three after
/// twenty-five.
pub fn health_sleep_interval(idle: bool, idle_for_secs: u64) -> (r: u64)
    ensures
        !idle ==> r == 5,
        idle && idle_for_secs < 480 ==> r == 60,
        idle && 480 <= idle_for_secs < 1500 ==> r == 120,
        idle && idle_for_secs >= 1500 ==> r == 180,
{
    if !idle {
        5
    } else if idle_for_secs < 480 {
        60
    } else if idle_for_secs < 1500 {
        120
    } else {
        180
    }
}

/// Seconds until the next enforcement pass: two while active; when idle,
/// fifteen, then thirty after ten minutes.
pub fn enforce_sleep_interval(idle: bool, idle_for_secs: u64) -> (r: u64)
    ensures
        !idle ==> r == 2,
        idle && idle_for_secs < 600 ==> r == 15,
        idle && idle_for_secs >= 600 ==> r == 30,
{
    if !idle {
        2
    } else if idle_for_secs < 600 {
        15
    } else {
        30
    }
}

/// Seconds until the next resource sample: one while active; when idle,
/// three, then ten after ten minutes.
pub fn sampler_sleep_interval(idle: bool, idle_for_secs: u64) -> (r: u64)
    ensures
        !idle ==> r == 1,
        idle && idle_for_secs < 600 ==> r == 3,
        idle && idle_for_secs >= 600 ==> r == 10,
{
    if !idle {
        1
    } else if idle_for_secs < 600 {
        3
    } else {
        10
    }
}

/// Length of the leading decimal-digit run.
pub open spec fn digit_run(s: Seq<u8>) -> int
    decreases s.len(),
{
    if s.len() > 0 && is_ascii_digit_byte(s[0]) {
        1 + digit_run(s.skip(1))
    } else {
        0
    }
}

proof fn lemma_digit_run(s: Seq<u8>)
    ensures
        0 <= digit_run(s) <= s.len(),
        forall|j: int| 0 <= j < digit_run(s) ==> is_ascii_digit_byte(s[j]),
        digit_run(s) < s.len() ==> !is_ascii_digit_byte(s[digit_run(s)]),
    decreases s.len(),
{
    if s.len() > 0 && is_ascii_digit_byte(s[0]) {
        lemma_digit_run(s.skip(1));
        assert forall|j: int| 0 <= j < digit_run(s) implies is_ascii_digit_byte(s[j]) by {
            if j > 0 {
                assert(s.skip(1)[j - 1] == s[j]);
            }
        }
        if digit_run(s) < s.len() {
            assert(s.skip(1)[digit_run(s) - 1] == s[digit_run(s)]);
        }
    }
}

/// Length of the leading numeric run: decimal digits and dots.
pub open spec fn num_run(s: Seq<u8>) -> int
    decreases s.len(),
{
    if s.len() > 0 && (is_ascii_digit_byte(s[0]) || s[0] == 46) {
        1 + num_run(s.skip(1))
    } else {
        0
    }
}

proof fn lemma_num_run(s: Seq<u8>)
    ensures
        0 <= num_run(s) <= s.len(),
        forall|j: int| 0 <= j < num_run(s) ==> is_ascii_digit_byte(s[j]) || s[j] == 46,
        num_run(s) < s.len() ==> !(is_ascii_digit_byte(s[num_run(s)]) || s[num_run(s)] == 46),
    decreases s.len(),
{
    if s.len() > 0 && (is_ascii_digit_byte(s[0]) || s[0] == 46) {
        lemma_num_run(s.skip(1));
        assert forall|j: int| 0 <= j < num_run(s) implies is_ascii_digit_byte(s[j]) || s[j]
            == 46 by {
            if j > 0 {
                assert(s.skip(1)[j - 1] == s[j]);
            }
        }
        if num_run(s) < s.len() {
            assert(s.skip(1)[num_run(s) - 1] == s[num_run(s)]);
        }
    }
}

fn digit_run_exec(s: &[u8]) -> (r: usize)
    ensures
        r as int == digit_run(s@),
{
    proof {
        lemma_digit_run(s@);
    }
    let mut i: usize = 0;
    while i < s.len() && 48 <= s[i] && s[i] <= 57
        invariant
            0 <= i <= s@.len(),
            forall|j: int| 0 <= j < i ==> is_ascii_digit_byte(s@[j]),
        decreases s.len() - i,
    {
        i = i + 1;
    }
    proof {
        lemma_digit_run(s@);
    }
    i
}

fn num_run_exec(s: &[u8]) -> (r: usize)
    ensures
        r as int == num_run(s@),
{
    proof {
        lemma_num_run(s@);
    }
    let mut i: usize = 0;
    while i < s.len() && ((48 <= s[i] && s[i] <= 57) || s[i] == 46)
        invariant
            0 <= i <= s@.len(),
            forall|j: int| 0 <= j < i ==> is_ascii_digit_byte(s@[j]) || s@[j] == 46,
        decreases s.len() - i,
    {
        i = i + 1;
    }
    proof {
        lemma_num_run(s@);
    }
    i
}

/// What a reachability probe's output yields: the digits after the first
/// `ttl=` as the reference TTL, and the whole milliseconds of the first
/// `time=` reading, accepted only when the millisecond unit follows the
/// numeric text.
pub open spec fn spec_parse_ping(s: Seq<u8>) -> Option<(u64, u32)> {
    let ft = first_sub(s, "ttl=".spec_bytes());
    if ft < 0 || ft + 4 > s.len() {
        None
    } else {
        let td = s.skip(ft + 4);
        let tdig = td.take(digit_run(td));
        if !(tdig.len() > 0 && dec_value(tdig) <= u32::MAX) {
            None
        } else {
            let fm = first_sub(s, "time=".spec_bytes());
            if fm < 0 || fm + 5 > s.len() {
                None
            } else {
                let md = s.skip(fm + 5);
                let mdig = md.take(digit_run(md));
                let after = md.skip(num_run(md));
                let unit = after.skip(leading_ws(after));
                if mdig.len() > 0 && dec_value(mdig) <= u64::MAX && num_run(md) > 0
                    && starts_with_spec(unit, "ms".spec_bytes()) {
                    Some((dec_value(mdig) as u64, dec_value(tdig) as u32))
                } else {
                    None
                }
            }
        }
    }
}

/// Parse a single-shot reachability probe's output into its round-trip
/// milliseconds and observed TTL.
pub fn parse_ping_output(s: &str) -> (r: Option<(u64, u32)>)
    ensures
        r == spec_parse_ping(s.spec_bytes()),
{
    let b = s.as_bytes();
    proof {
        reveal_strlit("ttl=");
        reveal_strlit("time=");
        reveal_strlit("ms");
        vstd::utf8::is_ascii_chars_encode_utf8("ttl="@);
        vstd::utf8::is_ascii_chars_encode_utf8("time="@);
        vstd::utf8::is_ascii_chars_encode_utf8("ms"@);
        assert("ttl=".spec_bytes().len() == 4);
        assert("time=".spec_bytes().len() == 5);
        lemma_first_sub(b@, "ttl=".spec_bytes());
        lemma_first_sub(b@, "time=".spec_bytes());
    }
    let n = b.len();
    let ft = match crate::bytesutil::find_sub(b, "ttl=".as_bytes()) {
        Some(i) => i,
        None => {
            return None;
        },
    };
    proof {
        assert(ft + 4 <= n);
    }
    let td = &b[ft + 4..n];
    proof {
        assert(td@ == b@.skip(ft as int + 4));
    }
    let tl = digit_run_exec(td);
    proof {
        lemma_digit_run(td@);
    }
    let ttl = match crate::bytesutil::parse_u64_bytes(&td[0..tl]) {
        Some(v) => {
            proof {
                lemma_digit_run(td@);
                assert(crate::bytesutil::unsigned_digits(td@.take(digit_run(td@))) == td@.take(
                    digit_run(td@),
                ));
            }
            if v > 0xFFFF_FFFF {
                return None;
            }
            v as u32
        },
        None => {
            proof {
                lemma_digit_run(td@);
                let tdig = td@.take(digit_run(td@));
                assert(crate::bytesutil::unsigned_digits(tdig) == tdig);
                assert(crate::bytesutil::all_digits(tdig));
                if tdig.len() > 0 && dec_value(tdig) <= u32::MAX {
                    assert(crate::bytesutil::parses_as_u64(tdig));
                }
            }
            return None;
        },
    };
    let fm = match crate::bytesutil::find_sub(b, "time=".as_bytes()) {
        Some(i) => i,
        None => {
            return None;
        },
    };
    proof {
        assert(fm + 5 <= n);
    }
    let md = &b[fm + 5..n];
    proof {
        assert(md@ == b@.skip(fm as int + 5));
    }
    let ml = digit_run_exec(md);
    let nl = num_run_exec(md);
    proof {
        lemma_digit_run(md@);
        lemma_num_run(md@);
    }
    let after = &md[nl..md.len()];
    proof {
        assert(after@ == md@.skip(num_run(md@)));
        lemma_leading_ws_bound(after@);
    }
    let lw = ws_prefix_len(after);
    let unit_ok = starts_with(&after[lw..after.len()], "ms".as_bytes());
    proof {
        assert(after@.skip(lw as int) =~= md@.skip(num_run(md@)).skip(leading_ws(after@)));
    }
    let ms = match crate::bytesutil::parse_u64_bytes(&md[0..ml]) {
        Some(v) => v,
        None => {
            proof {
                lemma_digit_run(md@);
                let mdig = md@.take(digit_run(md@));
                assert(crate::bytesutil::unsigned_digits(mdig) == mdig);
                assert(crate::bytesutil::all_digits(mdig));
                if mdig.len() > 0 && dec_value(mdig) <= u64::MAX {
                    assert(crate::bytesutil::parses_as_u64(mdig));
                }
            }
            return None;
        },
    };
    if nl > 0 && unit_ok {
        Some((ms, ttl))
    } else {
        None
    }
}

} // verus!
