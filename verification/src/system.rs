//! Resource-usage arithmetic and the parsers for the kernel's textual
//! counters.  Reading the counter files is boundary work; the numbers
//! drawn from their text are pinned here.
use vstd::prelude::*;
use vstd::string::StringSliceAdditionalSpecFns;

use crate::bytesutil::{
    dec_value, first_ws_idx, lemma_first_ws_idx, parse_u64_bytes, parses_as_u64, starts_with,
    starts_with_spec, trim_bytes, trim_spec, unsigned_digits,
};

verus! {

/// One reading of the cumulative processor counters.
#[derive(Clone, Copy, Debug, Default)]
pub struct CpuSample {
    pub total: u64,
    pub idle: u64,
}

/// Busy share between two samples, in whole percent: the busy delta over
/// the total delta; zero when time stood still or the counters ran
/// backwards.
pub fn compute_cpu_percent(prev: CpuSample, cur: CpuSample) -> (r: u64)
    ensures
        ({
            let dt = if cur.total >= prev.total {
                cur.total - prev.total
            } else {
                0
            };
            let di = if cur.idle >= prev.idle {
                cur.idle - prev.idle
            } else {
                0
            };
            if dt == 0 || di > dt {
                r == 0
            } else {
                r == (dt - di) * 100 / dt
            }
        }),
        r <= 100,
{
    let dt: u64 = if cur.total >= prev.total {
        cur.total - prev.total
    } else {
        0
    };
    let di: u64 = if cur.idle >= prev.idle {
        cur.idle - prev.idle
    } else {
        0
    };
    if dt == 0 || di > dt {
        return 0;
    }
    let busy = dt - di;
    let scaled = (busy as u128) * 100;
    let pct = scaled / (dt as u128);
    proof {
        assert((busy as int) * 100 / (dt as int) <= 100) by (nonlinear_arith)
            requires
                0 < dt <= u64::MAX && 0 <= busy <= dt,
        ;
    }
    pct as u64
}

/// The value of a `Key:  12345 kB` line: the first whitespace-separated
/// token after the key, parsed as a decimal.
pub open spec fn spec_parse_kb(line: Seq<u8>, key: Seq<u8>) -> Option<u64> {
    if !starts_with_spec(line, key) || key.len() == 0 {
        None
    } else {
        let rest = trim_spec(line.skip(key.len() as int));
        let tok = rest.take(first_ws_idx(rest));
        if parses_as_u64(tok) {
            Some(dec_value(unsigned_digits(tok)) as u64)
        } else {
            None
        }
    }
}

/// Parse one `Key: value kB` line of a kernel counter file.
pub fn parse_kb(line: &str, key: &str) -> (r: Option<u64>)
    ensures
        r == spec_parse_kb(line.spec_bytes(), key.spec_bytes()),
{
    let lb = line.as_bytes();
    let kb = key.as_bytes();
    if kb.len() == 0 || !starts_with(lb, kb) {
        return None;
    }
    let rest = trim_bytes(&lb[kb.len()..lb.len()]);
    proof {
        lemma_first_ws_idx(rest@);
    }
    let mut e: usize = 0;
    while e < rest.len() && !crate::bytesutil::is_ws(rest[e])
        invariant
            0 <= e <= rest@.len(),
            forall|j: int| 0 <= j < e ==> !crate::bytesutil::is_ascii_ws(rest@[j]),
        decreases rest.len() - e,
    {
        e = e + 1;
    }
    proof {
        lemma_first_ws_idx(rest@);
        assert(e as int == first_ws_idx(rest@));
    }
    let tok = &rest[0..e];
    parse_u64_bytes(tok)
}

} // verus!
