//! Byte-level text utilities shared by the protocol parsers and the
//! configuration helpers.  Contracts are stated over `Seq<u8>` views; the
//! conversions to `String` go through UTF-8 as documented by std.
use vstd::prelude::*;

verus! {

/// The UTF-8 encoding of a character sequence; `s.spec_bytes()` for a `&str`
/// equals `utf8_bytes(s@)`, and the same holds of a `String` through its view.
pub open spec fn utf8_bytes(s: Seq<char>) -> Seq<u8> {
    vstd::utf8::encode_utf8(s)
}

/// Every byte is 7-bit ASCII.
pub open spec fn is_ascii_bytes(s: Seq<u8>) -> bool {
    forall|i: int| 0 <= i < s.len() ==> s[i] < 128
}

/// ASCII characters corresponding to a sequence of ASCII bytes.
pub open spec fn ascii_chars(s: Seq<u8>) -> Seq<char> {
    s.map_values(|b: u8| b as char)
}

pub open spec fn is_ascii_ws(b: u8) -> bool {
    b == 32 || (9 <= b && b <= 13)
}

pub open spec fn is_ascii_digit_byte(b: u8) -> bool {
    48 <= b && b <= 57
}

pub open spec fn ascii_lower_byte(b: u8) -> u8 {
    if 65 <= b && b <= 90 {
        (b + 32) as u8
    } else {
        b
    }
}

pub open spec fn ascii_lower_seq(s: Seq<u8>) -> Seq<u8> {
    s.map_values(|b: u8| ascii_lower_byte(b))
}

/// Number of leading whitespace bytes.
pub open spec fn leading_ws(s: Seq<u8>) -> int
    decreases s.len(),
{
    if s.len() > 0 && is_ascii_ws(s[0]) {
        1 + leading_ws(s.skip(1))
    } else {
        0
    }
}

/// Number of trailing whitespace bytes.
pub open spec fn trailing_ws(s: Seq<u8>) -> int
    decreases s.len(),
{
    if s.len() > 0 && is_ascii_ws(s[s.len() - 1]) {
        1 + trailing_ws(s.take(s.len() - 1))
    } else {
        0
    }
}

/// The sequence with ASCII whitespace removed from both ends.
pub open spec fn trim_spec(s: Seq<u8>) -> Seq<u8> {
    s.subrange(leading_ws(s), s.len() - trailing_ws(s.skip(leading_ws(s))))
}

pub proof fn lemma_leading_ws_bound(s: Seq<u8>)
    ensures
        0 <= leading_ws(s) <= s.len(),
        forall|i: int| 0 <= i < leading_ws(s) ==> is_ascii_ws(s[i]),
        leading_ws(s) < s.len() ==> !is_ascii_ws(s[leading_ws(s)]),
    decreases s.len(),
{
    if s.len() > 0 && is_ascii_ws(s[0]) {
        lemma_leading_ws_bound(s.skip(1));
        assert forall|i: int| 0 <= i < leading_ws(s) implies is_ascii_ws(s[i]) by {
            if i > 0 {
                assert(s.skip(1)[i - 1] == s[i]);
            }
        }
        if leading_ws(s) < s.len() {
            assert(s.skip(1)[leading_ws(s) - 1] == s[leading_ws(s)]);
        }
    }
}

pub proof fn lemma_trailing_ws_bound(s: Seq<u8>)
    ensures
        0 <= trailing_ws(s) <= s.len(),
        forall|i: int| s.len() - trailing_ws(s) <= i < s.len() ==> is_ascii_ws(s[i]),
        trailing_ws(s) < s.len() ==> !is_ascii_ws(s[s.len() - trailing_ws(s) - 1]),
    decreases s.len(),
{
    if s.len() > 0 && is_ascii_ws(s[s.len() - 1]) {
        lemma_trailing_ws_bound(s.take(s.len() - 1));
        assert forall|i: int| s.len() - trailing_ws(s) <= i < s.len() implies is_ascii_ws(s[i]) by {
            if i < s.len() - 1 {
                assert(s.take(s.len() - 1)[i] == s[i]);
            }
        }
        if trailing_ws(s) < s.len() {
            let t = s.take(s.len() - 1);
            assert(t[t.len() - trailing_ws(t) - 1] == s[s.len() - trailing_ws(s) - 1]);
        }
    }
}

/// Trim ASCII whitespace from both ends of a byte slice.
pub fn trim_bytes(s: &[u8]) -> (r: &[u8])
    ensures
        r@ == trim_spec(s@),
{
    let mut lo: usize = 0;
    let mut hi: usize = s.len();
    proof {
        lemma_leading_ws_bound(s@);
    }
    while lo < hi && is_ws(s[lo])
        invariant
            0 <= lo <= hi <= s.len(),
            hi == s.len(),
            forall|i: int| 0 <= i < lo ==> is_ascii_ws(s@[i]),
            leading_ws(s@) >= lo,
        decreases hi - lo,
    {
        proof {
            lemma_leading_ws_prefix(s@, lo as int);
        }
        lo = lo + 1;
    }
    proof {
        lemma_leading_ws_bound(s@);
        if lo < hi {
            assert(leading_ws(s@) <= lo);
        } else {
            lemma_leading_ws_all(s@, lo as int);
        }
        assert(leading_ws(s@) == lo);
        lemma_trailing_ws_bound(s@.skip(lo as int));
    }
    while lo < hi && is_ws(s[hi - 1])
        invariant
            lo <= hi <= s.len(),
            lo == leading_ws(s@),
            forall|i: int| hi <= i < s.len() ==> is_ascii_ws(s@[i]),
            trailing_ws(s@.skip(lo as int)) >= s.len() - hi,
        decreases hi,
    {
        proof {
            lemma_trailing_ws_suffix(s@.skip(lo as int), s@.len() - hi);
        }
        hi = hi - 1;
    }
    proof {
        let rest = s@.skip(lo as int);
        lemma_trailing_ws_bound(rest);
        if lo < hi {
            assert(rest[hi - 1 - lo] == s@[hi - 1]);
            assert(trailing_ws(rest) <= s@.len() - hi);
        } else {
            lemma_trailing_ws_all(rest, rest.len() as int);
            assert(trailing_ws(rest) == rest.len());
        }
        assert(trailing_ws(rest) == s@.len() - hi);
        assert(s@.subrange(lo as int, hi as int) =~= trim_spec(s@));
    }
    &s[lo..hi]
}

/// `leading_ws` is at least `k` when the first `k` bytes are whitespace and
/// byte `k` is whitespace too.
pub proof fn lemma_leading_ws_prefix(s: Seq<u8>, k: int)
    requires
        0 <= k < s.len(),
        forall|i: int| 0 <= i < k ==> is_ascii_ws(s[i]),
        is_ascii_ws(s[k]),
    ensures
        leading_ws(s) >= k + 1,
    decreases k,
{
    lemma_leading_ws_bound(s.skip(1));
    if k > 0 {
        assert forall|i: int| 0 <= i < k - 1 implies is_ascii_ws(s.skip(1)[i]) by {
            assert(s.skip(1)[i] == s[i + 1]);
        }
        assert(s.skip(1)[k - 1] == s[k]);
        lemma_leading_ws_prefix(s.skip(1), k - 1);
    }
}

pub proof fn lemma_leading_ws_all(s: Seq<u8>, k: int)
    requires
        k == s.len(),
        forall|i: int| 0 <= i < k ==> is_ascii_ws(s[i]),
    ensures
        leading_ws(s) == k,
    decreases k,
{
    lemma_leading_ws_bound(s);
    if k > 0 {
        assert forall|i: int| 0 <= i < k - 1 implies is_ascii_ws(s.skip(1)[i]) by {
            assert(s.skip(1)[i] == s[i + 1]);
        }
        lemma_leading_ws_all(s.skip(1), k - 1);
    }
}

pub proof fn lemma_trailing_ws_suffix(s: Seq<u8>, k: int)
    requires
        0 <= k < s.len(),
        forall|i: int| s.len() - k <= i < s.len() ==> is_ascii_ws(s[i]),
        is_ascii_ws(s[s.len() - k - 1]),
    ensures
        trailing_ws(s) >= k + 1,
    decreases k,
{
    lemma_trailing_ws_bound(s.take(s.len() - 1));
    if k > 0 {
        let t = s.take(s.len() - 1);
        assert forall|i: int| t.len() - (k - 1) <= i < t.len() implies is_ascii_ws(t[i]) by {
            assert(t[i] == s[i]);
        }
        assert(t[t.len() - (k - 1) - 1] == s[s.len() - k - 1]);
        lemma_trailing_ws_suffix(t, k - 1);
    }
}

pub proof fn lemma_trailing_ws_all(s: Seq<u8>, k: int)
    requires
        k == s.len(),
        forall|i: int| 0 <= i < k ==> is_ascii_ws(s[i]),
    ensures
        trailing_ws(s) == k,
    decreases k,
{
    lemma_trailing_ws_bound(s);
    if k > 0 {
        let t = s.take(s.len() - 1);
        assert forall|i: int| 0 <= i < k - 1 implies is_ascii_ws(t[i]) by {
            assert(t[i] == s[i]);
        }
        lemma_trailing_ws_all(t, k - 1);
    }
}

/// Number of leading occurrences of byte `b`.
pub open spec fn leading_eq(s: Seq<u8>, b: u8) -> int
    decreases s.len(),
{
    if s.len() > 0 && s[0] == b {
        1 + leading_eq(s.skip(1), b)
    } else {
        0
    }
}

/// Number of trailing occurrences of byte `b`.
pub open spec fn trailing_eq(s: Seq<u8>, b: u8) -> int
    decreases s.len(),
{
    if s.len() > 0 && s[s.len() - 1] == b {
        1 + trailing_eq(s.take(s.len() - 1), b)
    } else {
        0
    }
}

/// The sequence with byte `b` removed from both ends.
pub open spec fn trim_eq_spec(s: Seq<u8>, b: u8) -> Seq<u8> {
    s.subrange(leading_eq(s, b), s.len() - trailing_eq(s.skip(leading_eq(s, b)), b))
}

/// The sequence with byte `b` removed from the end only.
pub open spec fn trim_end_eq_spec(s: Seq<u8>, b: u8) -> Seq<u8> {
    s.take(s.len() - trailing_eq(s, b))
}

pub proof fn lemma_leading_eq_bound(s: Seq<u8>, b: u8)
    ensures
        0 <= leading_eq(s, b) <= s.len(),
        forall|i: int| 0 <= i < leading_eq(s, b) ==> s[i] == b,
        leading_eq(s, b) < s.len() ==> s[leading_eq(s, b)] != b,
    decreases s.len(),
{
    if s.len() > 0 && s[0] == b {
        lemma_leading_eq_bound(s.skip(1), b);
        assert forall|i: int| 0 <= i < leading_eq(s, b) implies s[i] == b by {
            if i > 0 {
                assert(s.skip(1)[i - 1] == s[i]);
            }
        }
        if leading_eq(s, b) < s.len() {
            assert(s.skip(1)[leading_eq(s, b) - 1] == s[leading_eq(s, b)]);
        }
    }
}

pub proof fn lemma_trailing_eq_bound(s: Seq<u8>, b: u8)
    ensures
        0 <= trailing_eq(s, b) <= s.len(),
        forall|i: int| s.len() - trailing_eq(s, b) <= i < s.len() ==> s[i] == b,
        trailing_eq(s, b) < s.len() ==> s[s.len() - trailing_eq(s, b) - 1] != b,
    decreases s.len(),
{
    if s.len() > 0 && s[s.len() - 1] == b {
        lemma_trailing_eq_bound(s.take(s.len() - 1), b);
        assert forall|i: int| s.len() - trailing_eq(s, b) <= i < s.len() implies s[i] == b by {
            if i < s.len() - 1 {
                assert(s.take(s.len() - 1)[i] == s[i]);
            }
        }
        if trailing_eq(s, b) < s.len() {
            let t = s.take(s.len() - 1);
            assert(t[t.len() - trailing_eq(t, b) - 1] == s[s.len() - trailing_eq(s, b) - 1]);
        }
    }
}

proof fn lemma_leading_eq_prefix(s: Seq<u8>, b: u8, k: int)
    requires
        0 <= k < s.len(),
        forall|i: int| 0 <= i < k ==> s[i] == b,
        s[k] == b,
    ensures
        leading_eq(s, b) >= k + 1,
    decreases k,
{
    lemma_leading_eq_bound(s.skip(1), b);
    if k > 0 {
        assert forall|i: int| 0 <= i < k - 1 implies s.skip(1)[i] == b by {
            assert(s.skip(1)[i] == s[i + 1]);
        }
        assert(s.skip(1)[k - 1] == s[k]);
        lemma_leading_eq_prefix(s.skip(1), b, k - 1);
    }
}

proof fn lemma_trailing_eq_suffix(s: Seq<u8>, b: u8, k: int)
    requires
        0 <= k < s.len(),
        forall|i: int| s.len() - k <= i < s.len() ==> s[i] == b,
        s[s.len() - k - 1] == b,
    ensures
        trailing_eq(s, b) >= k + 1,
    decreases k,
{
    lemma_trailing_eq_bound(s.take(s.len() - 1), b);
    if k > 0 {
        let t = s.take(s.len() - 1);
        assert forall|i: int| t.len() - (k - 1) <= i < t.len() implies t[i] == b by {
            assert(t[i] == s[i]);
        }
        assert(t[t.len() - (k - 1) - 1] == s[s.len() - k - 1]);
        lemma_trailing_eq_suffix(t, b, k - 1);
    }
}

proof fn lemma_leading_eq_all(s: Seq<u8>, b: u8, k: int)
    requires
        k == s.len(),
        forall|i: int| 0 <= i < k ==> s[i] == b,
    ensures
        leading_eq(s, b) == k,
    decreases k,
{
    lemma_leading_eq_bound(s, b);
    if k > 0 {
        assert forall|i: int| 0 <= i < k - 1 implies s.skip(1)[i] == b by {
            assert(s.skip(1)[i] == s[i + 1]);
        }
        lemma_leading_eq_all(s.skip(1), b, k - 1);
    }
}

proof fn lemma_trailing_eq_all(s: Seq<u8>, b: u8, k: int)
    requires
        k == s.len(),
        forall|i: int| 0 <= i < k ==> s[i] == b,
    ensures
        trailing_eq(s, b) == k,
    decreases k,
{
    lemma_trailing_eq_bound(s, b);
    if k > 0 {
        let t = s.take(s.len() - 1);
        assert forall|i: int| 0 <= i < k - 1 implies t[i] == b by {
            assert(t[i] == s[i]);
        }
        lemma_trailing_eq_all(t, b, k - 1);
    }
}

/// Trim byte `b` from both ends of a slice.
pub fn trim_eq(s: &[u8], b: u8) -> (r: &[u8])
    ensures
        r@ == trim_eq_spec(s@, b),
{
    let mut lo: usize = 0;
    let mut hi: usize = s.len();
    proof {
        lemma_leading_eq_bound(s@, b);
    }
    while lo < hi && s[lo] == b
        invariant
            0 <= lo <= hi <= s.len(),
            hi == s.len(),
            forall|i: int| 0 <= i < lo ==> s@[i] == b,
            leading_eq(s@, b) >= lo,
        decreases hi - lo,
    {
        proof {
            lemma_leading_eq_prefix(s@, b, lo as int);
        }
        lo = lo + 1;
    }
    proof {
        lemma_leading_eq_bound(s@, b);
        if lo < hi {
            assert(leading_eq(s@, b) <= lo);
        } else {
            lemma_leading_eq_all(s@, b, lo as int);
        }
        assert(leading_eq(s@, b) == lo);
        lemma_trailing_eq_bound(s@.skip(lo as int), b);
    }
    while lo < hi && s[hi - 1] == b
        invariant
            lo <= hi <= s.len(),
            lo == leading_eq(s@, b),
            forall|i: int| hi <= i < s.len() ==> s@[i] == b,
            trailing_eq(s@.skip(lo as int), b) >= s.len() - hi,
        decreases hi,
    {
        proof {
            lemma_trailing_eq_suffix(s@.skip(lo as int), b, s@.len() - hi);
        }
        hi = hi - 1;
    }
    proof {
        let rest = s@.skip(lo as int);
        lemma_trailing_eq_bound(rest, b);
        if lo < hi {
            assert(rest[hi - 1 - lo] == s@[hi - 1]);
            assert(trailing_eq(rest, b) <= s@.len() - hi);
        } else {
            lemma_trailing_eq_all(rest, b, rest.len() as int);
        }
        assert(trailing_eq(rest, b) == s@.len() - hi);
        assert(s@.subrange(lo as int, hi as int) =~= trim_eq_spec(s@, b));
    }
    &s[lo..hi]
}


/// Where the whitespace trim begins.
pub open spec fn trim_spec_offset(s: Seq<u8>) -> int {
    leading_ws(s)
}

/// Where the byte trim begins.
pub open spec fn trim_eq_offset(s: Seq<u8>, b: u8) -> int {
    leading_eq(s, b)
}

/// The whitespace trim is a contiguous cut of the original.
pub proof fn lemma_trim_spec_subrange(s: Seq<u8>)
    ensures
        trim_spec(s).len() <= s.len(),
        0 <= trim_spec_offset(s),
        trim_spec_offset(s) + trim_spec(s).len() <= s.len(),
        forall|i: int|
            0 <= i < trim_spec(s).len() ==> trim_spec(s)[i] == s[trim_spec_offset(s) + i],
{
    lemma_leading_ws_bound(s);
    lemma_trailing_ws_bound(s.skip(leading_ws(s)));
}

/// The byte trim is a contiguous cut of the original.
pub proof fn lemma_trim_eq_subrange(s: Seq<u8>, b: u8)
    ensures
        trim_eq_spec(s, b).len() <= s.len(),
        0 <= trim_eq_offset(s, b),
        trim_eq_offset(s, b) + trim_eq_spec(s, b).len() <= s.len(),
        forall|i: int|
            0 <= i < trim_eq_spec(s, b).len() ==> trim_eq_spec(s, b)[i] == s[trim_eq_offset(s, b)
                + i],
{
    lemma_leading_eq_bound(s, b);
    lemma_trailing_eq_bound(s.skip(leading_eq(s, b)), b);
}

/// Trim byte `b` from the end of a slice.
pub fn trim_end_eq(s: &[u8], b: u8) -> (r: &[u8])
    ensures
        r@ == trim_end_eq_spec(s@, b),
{
    let mut hi: usize = s.len();
    proof {
        lemma_trailing_eq_bound(s@, b);
    }
    while hi > 0 && s[hi - 1] == b
        invariant
            0 <= hi <= s.len(),
            forall|i: int| hi <= i < s.len() ==> s@[i] == b,
            trailing_eq(s@, b) >= s.len() - hi,
        decreases hi,
    {
        proof {
            lemma_trailing_eq_suffix(s@, b, s@.len() - hi);
        }
        hi = hi - 1;
    }
    proof {
        lemma_trailing_eq_bound(s@, b);
        if hi > 0 {
            assert(trailing_eq(s@, b) <= s@.len() - hi);
        } else {
            lemma_trailing_eq_all(s@, b, s@.len() as int);
        }
        assert(trailing_eq(s@, b) == s@.len() - hi);
        assert(s@.subrange(0, hi as int) =~= trim_end_eq_spec(s@, b));
    }
    &s[0..hi]
}

/// Index of the last occurrence of `b` in `s`, or `-1` when absent.
pub open spec fn last_idx(s: Seq<u8>, b: u8) -> int
    decreases s.len(),
{
    if s.len() == 0 {
        -1
    } else if s[s.len() - 1] == b {
        s.len() - 1
    } else {
        last_idx(s.take(s.len() - 1), b)
    }
}

pub proof fn lemma_last_idx(s: Seq<u8>, b: u8)
    ensures
        -1 <= last_idx(s, b) < s.len(),
        last_idx(s, b) >= 0 ==> s[last_idx(s, b)] == b,
        forall|j: int| last_idx(s, b) < j < s.len() ==> s[j] != b,
        last_idx(s, b) == -1 ==> !contains_byte(s, b),
    decreases s.len(),
{
    if s.len() > 0 && s[s.len() - 1] != b {
        let t = s.take(s.len() - 1);
        lemma_last_idx(t, b);
        assert forall|j: int| last_idx(s, b) < j < s.len() implies s[j] != b by {
            if j < s.len() - 1 {
                assert(t[j] == s[j]);
            }
        }
        if last_idx(s, b) >= 0 {
            assert(t[last_idx(t, b)] == s[last_idx(s, b)]);
        }
        if last_idx(s, b) == -1 {
            assert forall|i: int| 0 <= i < s.len() implies s[i] != b by {
                if i < s.len() - 1 {
                    assert(t[i] == s[i]);
                }
            }
        }
    }
}

/// Index of the first ASCII whitespace byte, or the length when none.
pub open spec fn first_ws_idx(s: Seq<u8>) -> int
    decreases s.len(),
{
    if s.len() == 0 {
        0
    } else if is_ascii_ws(s[0]) {
        0
    } else {
        1 + first_ws_idx(s.skip(1))
    }
}

pub proof fn lemma_first_ws_idx(s: Seq<u8>)
    ensures
        0 <= first_ws_idx(s) <= s.len(),
        first_ws_idx(s) < s.len() ==> is_ascii_ws(s[first_ws_idx(s)]),
        forall|j: int| 0 <= j < first_ws_idx(s) ==> !is_ascii_ws(s[j]),
    decreases s.len(),
{
    if s.len() > 0 && !is_ascii_ws(s[0]) {
        lemma_first_ws_idx(s.skip(1));
        assert forall|j: int| 0 <= j < first_ws_idx(s) implies !is_ascii_ws(
            s[j],
        ) by {
            if j > 0 {
                assert(s.skip(1)[j - 1] == s[j]);
            }
        }
        if first_ws_idx(s) < s.len() {
            assert(s.skip(1)[first_ws_idx(s) - 1] == s[first_ws_idx(s)]);
        }
    }
}

/// Length of the leading whitespace run of a slice.
pub fn ws_prefix_len(s: &[u8]) -> (r: usize)
    ensures
        r == leading_ws(s@),
{
    proof {
        lemma_leading_ws_bound(s@);
    }
    let mut i: usize = 0;
    while i < s.len() && is_ws(s[i])
        invariant
            0 <= i <= s@.len(),
            forall|j: int| 0 <= j < i ==> is_ascii_ws(s@[j]),
            leading_ws(s@) >= i,
        decreases s.len() - i,
    {
        proof {
            lemma_leading_ws_prefix(s@, i as int);
        }
        i = i + 1;
    }
    proof {
        lemma_leading_ws_bound(s@);
        if i < s.len() {
        } else {
            lemma_leading_ws_all(s@, i as int);
        }
    }
    i
}

/// Whitespace test on one byte.
pub fn is_ws(b: u8) -> (r: bool)
    ensures
        r == is_ascii_ws(b),
{
    b == 32 || (9 <= b && b <= 13)
}

/// Digit test on one byte.
pub fn is_digit(b: u8) -> (r: bool)
    ensures
        r == is_ascii_digit_byte(b),
{
    48 <= b && b <= 57
}

/// Exact equality of two byte slices.
pub fn bytes_eq(a: &[u8], b: &[u8]) -> (r: bool)
    ensures
        r == (a@ == b@),
{
    if a.len() != b.len() {
        proof {
            assert(a@.len() != b@.len());
        }
        return false;
    }
    let mut i: usize = 0;
    while i < a.len()
        invariant
            0 <= i <= a.len(),
            a.len() == b.len(),
            forall|j: int| 0 <= j < i ==> a@[j] == b@[j],
        decreases a.len() - i,
    {
        if a[i] != b[i] {
            return false;
        }
        i = i + 1;
    }
    proof {
        assert(a@ =~= b@);
    }
    true
}

/// Whether `s` starts with `prefix`.
pub open spec fn starts_with_spec(s: Seq<u8>, prefix: Seq<u8>) -> bool {
    s.len() >= prefix.len() && s.subrange(0, prefix.len() as int) == prefix
}

pub fn starts_with(s: &[u8], prefix: &[u8]) -> (r: bool)
    ensures
        r == starts_with_spec(s@, prefix@),
{
    if s.len() < prefix.len() {
        return false;
    }
    let head = &s[0..prefix.len()];
    bytes_eq(head, prefix)
}

/// ASCII lower-casing of a byte slice.
pub fn to_lower(s: &[u8]) -> (r: Vec<u8>)
    ensures
        r@ == ascii_lower_seq(s@),
{
    let mut out: Vec<u8> = Vec::new();
    let mut i: usize = 0;
    while i < s.len()
        invariant
            0 <= i <= s.len(),
            out@.len() == i,
            forall|j: int| 0 <= j < i ==> out@[j] == ascii_lower_byte(s@[j]),
        decreases s.len() - i,
    {
        let b = s[i];
        if 65 <= b && b <= 90 {
            out.push(b + 32);
        } else {
            out.push(b);
        }
        i = i + 1;
    }
    proof {
        assert(out@ =~= ascii_lower_seq(s@));
    }
    out
}

/// Whether byte `b` occurs in `s`.
pub open spec fn contains_byte(s: Seq<u8>, b: u8) -> bool {
    exists|i: int| 0 <= i < s.len() && s[i] == b
}

/// Index of the first occurrence of `b` in `s`, or `s.len()` when absent.
pub open spec fn first_idx(s: Seq<u8>, b: u8) -> int
    decreases s.len(),
{
    if s.len() == 0 {
        0
    } else if s[0] == b {
        0
    } else {
        1 + first_idx(s.skip(1), b)
    }
}

pub proof fn lemma_first_idx(s: Seq<u8>, b: u8)
    ensures
        0 <= first_idx(s, b) <= s.len(),
        first_idx(s, b) < s.len() ==> s[first_idx(s, b)] == b,
        forall|j: int| 0 <= j < first_idx(s, b) ==> s[j] != b,
        first_idx(s, b) == s.len() ==> !contains_byte(s, b),
    decreases s.len(),
{
    if s.len() > 0 && s[0] != b {
        lemma_first_idx(s.skip(1), b);
        assert forall|j: int| 0 <= j < first_idx(s, b) implies s[j] != b by {
            if j > 0 {
                assert(s.skip(1)[j - 1] == s[j]);
            }
        }
        if first_idx(s, b) == s.len() {
            assert forall|i: int| 0 <= i < s.len() implies s[i] != b by {
                if i > 0 {
                    assert(s.skip(1)[i - 1] == s[i]);
                }
            }
        }
        if first_idx(s, b) < s.len() {
            assert(s.skip(1)[first_idx(s, b) - 1] == s[first_idx(s, b)]);
        }
    }
}

/// First position of byte `b` in `s` at or after `from`.
pub fn find_byte(s: &[u8], b: u8, from: usize) -> (r: Option<usize>)
    ensures
        match r {
            Some(i) => from <= i < s@.len() && s@[i as int] == b && forall|j: int|
                from <= j < i ==> s@[j] != b,
            None => forall|j: int| from <= j < s@.len() ==> s@[j] != b,
        },
{
    let mut i: usize = from;
    while i < s.len()
        invariant
            from <= i,
            forall|j: int| from <= j < i ==> s@[j] != b,
        decreases s.len() - i,
    {
        if s[i] == b {
            return Some(i);
        }
        i = i + 1;
    }
    None
}

/// Last position of byte `b` in `s`.
pub fn rfind_byte(s: &[u8], b: u8) -> (r: Option<usize>)
    ensures
        match r {
            Some(i) => i < s@.len() && s@[i as int] == b && forall|j: int|
                i < j < s@.len() ==> s@[j] != b,
            None => forall|j: int| 0 <= j < s@.len() ==> s@[j] != b,
        },
{
    let mut i: usize = s.len();
    while i > 0
        invariant
            i <= s.len(),
            forall|j: int| i <= j < s@.len() ==> s@[j] != b,
        decreases i,
    {
        i = i - 1;
        if s[i] == b {
            return Some(i);
        }
    }
    None
}

/// Whether `p` occurs in `s` at position `i`.
pub open spec fn match_at(s: Seq<u8>, p: Seq<u8>, i: int) -> bool {
    0 <= i && i + p.len() <= s.len() && s.subrange(i, i + p.len()) == p
}

/// Index of the first occurrence of `p` in `s`, or `-1` when absent.
pub open spec fn first_sub(s: Seq<u8>, p: Seq<u8>) -> int
    decreases s.len(),
{
    if p.len() == 0 {
        0
    } else if s.len() < p.len() {
        -1
    } else if starts_with_spec(s, p) {
        0
    } else if first_sub(s.skip(1), p) < 0 {
        -1
    } else {
        1 + first_sub(s.skip(1), p)
    }
}

pub proof fn lemma_first_sub(s: Seq<u8>, p: Seq<u8>)
    requires
        p.len() > 0,
    ensures
        first_sub(s, p) >= 0 ==> first_sub(s, p) + p.len() <= s.len() && match_at(
            s,
            p,
            first_sub(s, p),
        ),
        forall|j: int| 0 <= j < first_sub(s, p) ==> !match_at(s, p, j),
        first_sub(s, p) < 0 ==> forall|j: int| !match_at(s, p, j),
    decreases s.len(),
{
    if s.len() >= p.len() && !starts_with_spec(s, p) {
        lemma_first_sub(s.skip(1), p);
        assert forall|j: int| 1 <= j && j + p.len() <= s.len() implies (match_at(s, p, j)
            == match_at(s.skip(1), p, j - 1)) by {
            assert(s.subrange(j, j + p.len()) =~= s.skip(1).subrange(j - 1, j - 1 + p.len()));
        }
        if first_sub(s, p) >= 0 {
            assert(match_at(s.skip(1), p, first_sub(s, p) - 1));
        }
        assert forall|j: int| 0 <= j < first_sub(s, p) implies !match_at(s, p, j) by {
            if j == 0 {
                assert(s.subrange(0, p.len() as int) =~= s.take(p.len() as int));
                if match_at(s, p, 0) {
                    assert(starts_with_spec(s, p));
                }
            }
        }
        if first_sub(s, p) < 0 {
            assert forall|j: int| !match_at(s, p, j) by {
                if 1 <= j && j + p.len() <= s.len() {
                    assert(!match_at(s.skip(1), p, j - 1));
                } else if j == 0 && p.len() <= s.len() {
                    assert(s.subrange(0, p.len() as int) =~= s.take(p.len() as int));
                    if match_at(s, p, 0) {
                        assert(starts_with_spec(s, p));
                    }
                }
            }
        }
    } else if s.len() >= p.len() {
        assert(s.subrange(0, p.len() as int) =~= s.take(p.len() as int));
    } else {
        assert forall|j: int| !match_at(s, p, j) by {
            assert(s.len() < p.len());
        }
    }
}

/// First position of the pattern `p` in `s`, scanning left to right.
pub fn find_sub(s: &[u8], p: &[u8]) -> (r: Option<usize>)
    requires
        p@.len() > 0,
    ensures
        match r {
            Some(i) => i as int == first_sub(s@, p@),
            None => first_sub(s@, p@) < 0,
        },
{
    proof {
        lemma_first_sub(s@, p@);
    }
    let n = s.len();
    let m = p.len();
    if n < m {
        return None;
    }
    let limit = n - m;
    let mut i: usize = 0;
    while i <= limit
        invariant
            0 <= i,
            i <= limit + 1,
            limit + m == n,
            m == p@.len(),
            n == s@.len(),
            p@.len() > 0,
            forall|j: int| 0 <= j < i ==> !match_at(s@, p@, j),
        decreases limit + 1 - i,
    {
        let here = &s[i..i + m];
        if bytes_eq(here, p) {
            proof {
                assert(match_at(s@, p@, i as int));
                lemma_first_sub(s@, p@);
            }
            return Some(i);
        }
        i = i + 1;
    }
    proof {
        assert forall|j: int| !match_at(s@, p@, j) by {
            if 0 <= j && j + p@.len() <= s@.len() {
                assert(j < i);
            }
        }
        lemma_first_sub(s@, p@);
        if first_sub(s@, p@) >= 0 {
            assert(match_at(s@, p@, first_sub(s@, p@)));
        }
    }
    None
}

/// The sequence with every occurrence of `p` removed, scanning left to
/// right (as a replacement by the empty string does).
pub open spec fn remove_all(s: Seq<u8>, p: Seq<u8>) -> Seq<u8>
    decreases s.len(),
{
    if p.len() == 0 || s.len() == 0 {
        s
    } else if starts_with_spec(s, p) {
        remove_all(s.skip(p.len() as int), p)
    } else {
        seq![s[0]] + remove_all(s.skip(1), p)
    }
}

/// Remove every occurrence of the pattern `p`.
pub fn remove_all_exec(s: &[u8], p: &[u8]) -> (r: Vec<u8>)
    requires
        p@.len() > 0,
    ensures
        r@ == remove_all(s@, p@),
{
    let mut out: Vec<u8> = Vec::new();
    let mut i: usize = 0;
    let n = s.len();
    proof {
        assert(s@.skip(0) =~= s@);
    }
    while i < n
        invariant
            0 <= i <= n,
            n == s@.len(),
            p@.len() > 0,
            remove_all(s@, p@) == out@ + remove_all(s@.skip(i as int), p@),
        decreases n - i,
    {
        let tail = &s[i..n];
        if p.len() <= tail.len() && starts_with(tail, p) {
            proof {
                assert(s@.skip(i as int).skip(p@.len() as int) =~= s@.skip(i as int + p@.len()));
            }
            i = i + p.len();
        } else {
            let ghost pre = out@;
            out.push(s[i]);
            proof {
                assert(s@.skip(i as int).skip(1) =~= s@.skip(i as int + 1));
                assert(s@.skip(i as int)[0] == s@[i as int]);
                assert(pre + (seq![s@[i as int]] + remove_all(s@.skip(i as int + 1), p@)) =~= out@
                    + remove_all(s@.skip(i as int + 1), p@));
            }
            i = i + 1;
        }
    }
    out
}

/// Decimal value of a digit sequence (most significant first).
pub open spec fn dec_value(s: Seq<u8>) -> int
    decreases s.len(),
{
    if s.len() == 0 {
        0
    } else {
        dec_value(s.take(s.len() - 1)) * 10 + (s[s.len() - 1] - 48)
    }
}

pub open spec fn all_digits(s: Seq<u8>) -> bool {
    forall|i: int| 0 <= i < s.len() ==> is_ascii_digit_byte(s[i])
}

/// The digit payload of an unsigned decimal literal: the bytes after an
/// optional single leading `+`, as accepted by std's integer parsing.
pub open spec fn unsigned_digits(s: Seq<u8>) -> Seq<u8> {
    if s.len() >= 2 && s[0] == 43 {
        s.skip(1)
    } else {
        s
    }
}

/// A byte sequence parses as an unsigned decimal iff it is non-empty,
/// all digits after the optional sign, and in range.
pub open spec fn parses_as_u64(s: Seq<u8>) -> bool {
    let d = unsigned_digits(s);
    d.len() > 0 && all_digits(d) && dec_value(d) <= u64::MAX
}

pub open spec fn parses_as_u16(s: Seq<u8>) -> bool {
    let d = unsigned_digits(s);
    d.len() > 0 && all_digits(d) && dec_value(d) <= u16::MAX
}

proof fn lemma_dec_value_nonneg(s: Seq<u8>)
    requires
        all_digits(s),
    ensures
        dec_value(s) >= 0,
    decreases s.len(),
{
    if s.len() > 0 {
        let t = s.take(s.len() - 1);
        assert forall|i: int| 0 <= i < t.len() implies is_ascii_digit_byte(t[i]) by {
            assert(t[i] == s[i]);
        }
        lemma_dec_value_nonneg(t);
    }
}

/// Parse a decimal `u64` from bytes; `Some` exactly on valid in-range input.
pub fn parse_u64_bytes(s: &[u8]) -> (r: Option<u64>)
    ensures
        match r {
            Some(v) => parses_as_u64(s@) && v == dec_value(unsigned_digits(s@)),
            None => !parses_as_u64(s@),
        },
{
    let digits: &[u8] = if s.len() >= 2 && s[0] == 43 {
        &s[1..s.len()]
    } else {
        s
    };
    proof {
        assert(digits@ == unsigned_digits(s@));
    }
    if digits.len() == 0 {
        return None;
    }
    let mut acc: u64 = 0;
    let mut i: usize = 0;
    while i < digits.len()
        invariant
            0 <= i <= digits@.len(),
            digits@.len() > 0,
            digits@ == unsigned_digits(s@),
            all_digits(digits@.take(i as int)),
            acc == dec_value(digits@.take(i as int)),
        decreases digits.len() - i,
    {
        let b = digits[i];
        if !(48 <= b && b <= 57) {
            proof {
                assert(!is_ascii_digit_byte(digits@[i as int]));
            }
            return None;
        }
        let d = (b - 48) as u64;
        proof {
            lemma_dec_value_nonneg(digits@.take(i as int));
        }
        if acc > (u64::MAX - d) / 10 {
            proof {
                let full = digits@;
                lemma_dec_value_monotone(full, i as int);
            }
            return None;
        }
        acc = acc * 10 + d;
        i = i + 1;
        proof {
            assert(digits@.take(i as int).take(i as int - 1) =~= digits@.take(i as int - 1));
            assert(digits@.take(i as int)[i - 1] == digits@[i as int - 1]);
        }
    }
    proof {
        assert(digits@.take(digits@.len() as int) =~= digits@);
    }
    Some(acc)
}

/// If a digit prefix already exceeds what extends to the full value, the full
/// value exceeds `u64::MAX` as well.
proof fn lemma_dec_value_monotone(s: Seq<u8>, k: int)
    requires
        0 <= k < s.len(),
        all_digits(s.take(k)),
        is_ascii_digit_byte(s[k]),
        dec_value(s.take(k)) * 10 + (s[k] - 48) > u64::MAX,
    ensures
        !(all_digits(s) && dec_value(s) <= u64::MAX),
    decreases s.len() - k,
{
    if all_digits(s) {
        lemma_dec_value_prefix_le(s, k + 1);
        assert(s.take(k + 1).take(k) =~= s.take(k));
        assert(s.take(k + 1)[k] == s[k]);
        assert(dec_value(s.take(k + 1)) == dec_value(s.take(k)) * 10 + (s[k] - 48));
    }
}

/// A digit prefix's value is at most the whole sequence's value.
proof fn lemma_dec_value_prefix_le(s: Seq<u8>, k: int)
    requires
        0 <= k <= s.len(),
        all_digits(s),
    ensures
        dec_value(s.take(k)) <= dec_value(s),
    decreases s.len() - k,
{
    if k < s.len() {
        lemma_dec_value_prefix_le(s, k + 1);
        assert(s.take(k + 1).take(k) =~= s.take(k));
        assert(s.take(k + 1)[k] == s[k]);
        lemma_dec_value_nonneg(s.take(k));
        assert(dec_value(s.take(k + 1)) == dec_value(s.take(k)) * 10 + (s[k] - 48));
    } else {
        assert(s.take(k) =~= s);
    }
}

/// Ten to the power of `n`.
pub open spec fn pow10(n: int) -> int
    decreases n,
{
    if n <= 0 {
        1
    } else {
        10 * pow10(n - 1)
    }
}

/// A digit string's value is below ten to its length.
pub proof fn lemma_dec_value_digits(s: Seq<u8>)
    requires
        all_digits(s),
    ensures
        0 <= dec_value(s) < pow10(s.len() as int),
    decreases s.len(),
{
    if s.len() > 0 {
        let p = s.take(s.len() - 1);
        assert(all_digits(p)) by {
            assert(forall|i: int| 0 <= i < p.len() ==> p[i] == s[i]);
        }
        lemma_dec_value_digits(p);
        assert(dec_value(s) == dec_value(p) * 10 + (s[s.len() - 1] - 48));
        assert(dec_value(p) * 10 <= (pow10(p.len() as int) - 1) * 10) by (nonlinear_arith)
            requires
                dec_value(p) <= pow10(p.len() as int) - 1,
        ;
        lemma_dec_value_nonneg(p);
    }
}

/// A digit string of at most three digits stays below one thousand.
pub proof fn lemma_dec_value_small(s: Seq<u8>)
    requires
        all_digits(s),
        s.len() <= 3,
    ensures
        0 <= dec_value(s) <= 999,
{
    lemma_dec_value_digits(s);
    assert(pow10(0) == 1);
    assert(pow10(1) == 10 * pow10(0));
    assert(pow10(2) == 10 * pow10(1));
    assert(pow10(3) == 10 * pow10(2));
}

/// Parse a decimal `u16` from bytes; `Some` exactly on valid in-range input.
pub fn parse_u16_bytes(s: &[u8]) -> (r: Option<u16>)
    ensures
        match r {
            Some(v) => parses_as_u16(s@) && v == dec_value(unsigned_digits(s@)),
            None => !parses_as_u16(s@),
        },
{
    match parse_u64_bytes(s) {
        Some(v) => {
            if v <= 65535 {
                Some(v as u16)
            } else {
                None
            }
        },
        None => {
            proof {
                let d = unsigned_digits(s@);
                if d.len() > 0 && all_digits(d) && dec_value(d) <= u16::MAX {
                    assert(dec_value(d) <= u64::MAX);
                }
            }
            None
        },
    }
}

/// Decimal digits of `v`, most significant first.
pub open spec fn dec_digits(v: int) -> Seq<u8>
    decreases v,
{
    if v <= 0 {
        seq![]
    } else {
        dec_digits(v / 10).push((48 + v % 10) as u8)
    }
}

/// Canonical decimal representation: "0" for zero, no leading zeros otherwise.
pub open spec fn dec_repr(v: int) -> Seq<u8> {
    if v == 0 {
        seq![48u8]
    } else {
        dec_digits(v)
    }
}

/// Render a `u64` in decimal.
pub fn u64_to_dec(v: u64) -> (r: Vec<u8>)
    ensures
        r@ == dec_repr(v as int),
        all_digits(r@),
        r@.len() > 0,
{
    if v == 0 {
        let mut out: Vec<u8> = Vec::new();
        out.push(48);
        proof {
            assert(out@ =~= dec_repr(0));
        }
        return out;
    }
    let mut rev: Vec<u8> = Vec::new();
    let mut x = v;
    while x > 0
        invariant
            dec_digits(v as int) == dec_digits(x as int) + rev@.reverse(),
            x == 0 ==> rev@.len() > 0,
            all_digits(rev@),
        decreases x,
    {
        let d = (x % 10) as u8;
        proof {
            let old_rev = rev@;
            assert(dec_digits(x as int) == dec_digits(x as int / 10).push((48 + x as int % 10) as u8));
            assert((old_rev.push((48 + x as int % 10) as u8)).reverse() =~= seq![(48 + x as int % 10) as u8] + old_rev.reverse());
            assert(dec_digits(x as int / 10) + (old_rev.push((48 + x as int % 10) as u8)).reverse()
                =~= (dec_digits(x as int / 10).push((48 + x as int % 10) as u8)) + old_rev.reverse());
        }
        rev.push(48 + d);
        x = x / 10;
    }
    let mut out: Vec<u8> = Vec::new();
    let mut i: usize = rev.len();
    while i > 0
        invariant
            i <= rev@.len(),
            out@ =~= rev@.subrange(i as int, rev@.len() as int).reverse(),
        decreases i,
    {
        i = i - 1;
        out.push(rev[i]);
        proof {
            assert(rev@.subrange(i as int, rev@.len() as int).reverse() =~= rev@.subrange(
                i as int + 1,
                rev@.len() as int,
            ).reverse().push(rev@[i as int]));
        }
    }
    proof {
        assert(rev@.subrange(0, rev@.len() as int) =~= rev@);
        assert(out@ =~= rev@.reverse());
        assert(dec_digits(v as int) =~= dec_digits(0) + rev@.reverse());
        assert(dec_digits(v as int) =~= rev@.reverse());
        assert(forall|j: int| 0 <= j < out@.len() ==> out@[j] == rev@[rev@.len() - 1 - j]);
    }
    out
}

/// Decimal digits are ASCII.
pub proof fn lemma_dec_repr_ascii_pub(v: int)
    requires
        v >= 0,
    ensures
        forall|i: int| 0 <= i < dec_repr(v).len() ==> dec_repr(v)[i] < 128,
    decreases v,
{
    if v > 0 {
        lemma_dec_digits_ascii_pub(v);
    }
}

pub proof fn lemma_dec_digits_ascii_pub(v: int)
    requires
        v >= 0,
    ensures
        forall|i: int| 0 <= i < dec_digits(v).len() ==> dec_digits(v)[i] < 128,
    decreases v,
{
    if v > 0 {
        lemma_dec_digits_ascii_pub(v / 10);
        let d = dec_digits(v);
        let p = dec_digits(v / 10);
        assert(d == p.push((48 + v % 10) as u8));
        assert forall|i: int| 0 <= i < d.len() implies d[i] < 128 by {
            if i < d.len() - 1 {
                assert(d[i] == p[i]);
            }
        }
    }
}

/// Relies on `String::from_utf8`: ASCII bytes decode to the characters with
/// the same code points.
#[verifier::external_body]
pub fn string_from_ascii(bytes: Vec<u8>) -> (r: String)
    requires
        is_ascii_bytes(bytes@),
    ensures
        r@ == ascii_chars(bytes@),
{
    match String::from_utf8(bytes) {
        Ok(s) => s,
        Err(_) => String::new(),
    }
}

/// Relies on `str::as_bytes` together with the UTF-8 round trip: two strings
/// are equal exactly when their UTF-8 bytes are.
pub fn str_eq(a: &str, b: &str) -> (r: bool)
    ensures
        r == (a@ == b@),
{
    let r = bytes_eq(a.as_bytes(), b.as_bytes());
    proof {
        vstd::utf8::encode_utf8_decode_utf8(a@);
        vstd::utf8::encode_utf8_decode_utf8(b@);
    }
    r
}

} // verus!
