use vstd::prelude::*;

verus! {

/// Bytes that may appear anywhere in a JSON number token.
pub open spec fn numchar(b: u8) -> bool {
    (48 <= b && b <= 57) || b == 45 || b == 43 || b == 46 || b == 101 || b == 69
}

/// Bytes that may start a JSON number token: a digit or a minus sign.
pub open spec fn num_first(b: u8) -> bool {
    (48 <= b && b <= 57) || b == 45
}

/// The end of the maximal run of decimal digits starting at `pos`.
pub open spec fn spec_digits_end(t: Seq<u8>, pos: int) -> int
    decreases t.len() - pos,
{
    if 0 <= pos < t.len() && 48 <= t[pos] && t[pos] <= 57 {
        spec_digits_end(t, pos + 1)
    } else {
        pos
    }
}

pub proof fn lemma_digits_end_props(t: Seq<u8>, pos: int)
    requires
        0 <= pos <= t.len(),
    ensures
        pos <= spec_digits_end(t, pos) <= t.len(),
        forall|i: int| pos <= i < spec_digits_end(t, pos) ==> 48 <= #[trigger] t[i] <= 57,
        spec_digits_end(t, pos) == t.len() || !(48 <= t[spec_digits_end(t, pos)] <= 57),
    decreases t.len() - pos,
{
    if pos < t.len() && 48 <= t[pos] <= 57 {
        lemma_digits_end_props(t, pos + 1);
    }
}

/// The tail of a number after its fraction: nothing, or an exponent that
/// runs to the end of the token.
pub open spec fn num_after_frac(t: Seq<u8>, p: int) -> bool {
    if p == t.len() {
        true
    } else if t[p] == 101 || t[p] == 69 {
        let q: int = if p + 1 < t.len() && (t[p + 1] == 43 || t[p + 1] == 45) {
            p + 2
        } else {
            p + 1
        };
        let p3 = spec_digits_end(t, q);
        p3 > q && p3 == t.len()
    } else {
        false
    }
}

/// The tail of a number after its integer part: nothing, or a fraction with
/// at least one digit, then possibly an exponent.
pub open spec fn num_after_int(t: Seq<u8>, p: int) -> bool {
    if p == t.len() {
        true
    } else if t[p] == 46 {
        let p2 = spec_digits_end(t, p + 1);
        p2 > p + 1 && num_after_frac(t, p2)
    } else {
        num_after_frac(t, p)
    }
}

/// A number token: the JSON number grammar — an optional minus sign, an
/// integer part without a leading zero, an optional fraction and an optional
/// exponent. This is the textual form in which the pipeline carries every
/// numeric scalar (embedding entries and labels).
pub open spec fn num_token(t: Seq<u8>) -> bool {
    let p0: int = if t.len() > 0 && t[0] == 45 {
        1
    } else {
        0
    };
    let p1 = spec_digits_end(t, p0);
    &&& t.len() > 0
    &&& p1 > p0
    &&& (t[p0] == 48 ==> p1 == p0 + 1)
    &&& num_after_int(t, p1)
}

/// The views of a sequence of byte vectors.
pub open spec fn tok_views(ts: Seq<Vec<u8>>) -> Seq<Seq<u8>> {
    Seq::new(ts.len(), |i: int| ts[i]@)
}

/// Every element of `ts` is a number token.
pub open spec fn all_num_tokens(ts: Seq<Seq<u8>>) -> bool {
    forall|i: int| 0 <= i < ts.len() ==> num_token(#[trigger] ts[i])
}

pub fn byte_is_numchar(b: u8) -> (r: bool)
    ensures
        r == numchar(b),
{
    (48 <= b && b <= 57) || b == 45 || b == 43 || b == 46 || b == 101 || b == 69
}

pub fn byte_is_num_first(b: u8) -> (r: bool)
    ensures
        r == num_first(b),
{
    (48 <= b && b <= 57) || b == 45
}

/// The end of the maximal run of decimal digits starting at `pos`.
pub fn digits_end(t: &Vec<u8>, pos: usize) -> (e: usize)
    requires
        pos <= t@.len(),
    ensures
        e as int == spec_digits_end(t@, pos as int),
        pos <= e <= t@.len(),
{
    proof {
        lemma_digits_end_props(t@, pos as int);
    }
    let mut cur = pos;
    while cur < t.len() && 48 <= t[cur] && t[cur] <= 57
        invariant
            pos <= cur <= t@.len(),
            spec_digits_end(t@, pos as int) == spec_digits_end(t@, cur as int),
        decreases t@.len() - cur,
    {
        cur += 1;
    }
    cur
}

pub fn is_num_token(t: &Vec<u8>) -> (r: bool)
    ensures
        r == num_token(t@),
{
    let n = t.len();
    if n == 0 {
        return false;
    }
    let p0: usize = if t[0] == 45 {
        1
    } else {
        0
    };
    let p1 = digits_end(t, p0);
    if p1 == p0 {
        return false;
    }
    if t[p0] == 48 && p1 != p0 + 1 {
        return false;
    }
    if p1 == n {
        return true;
    }
    let mut p: usize = p1;
    if t[p] == 46 {
        let p2 = digits_end(t, p + 1);
        if p2 == p + 1 {
            return false;
        }
        p = p2;
    }
    if p == n {
        return true;
    }
    if t[p] == 101 || t[p] == 69 {
        let q: usize = if p + 1 < n && (t[p + 1] == 43 || t[p + 1] == 45) {
            p + 2
        } else {
            p + 1
        };
        let p3 = digits_end(t, q);
        return p3 != q && p3 == n;
    }
    false
}

/// Every byte of a number token is a number-token byte, and the first one
/// may start a token.
pub proof fn lemma_num_token_chars(t: Seq<u8>)
    requires
        num_token(t),
    ensures
        num_first(t[0]),
        forall|i: int| 0 <= i < t.len() ==> numchar(#[trigger] t[i]),
{
    let p0: int = if t.len() > 0 && t[0] == 45 {
        1
    } else {
        0
    };
    let p1 = spec_digits_end(t, p0);
    lemma_digits_end_props(t, p0);
    let p2: int = if p1 < t.len() && t[p1] == 46 {
        spec_digits_end(t, p1 + 1)
    } else {
        p1
    };
    if p1 < t.len() && t[p1] == 46 {
        lemma_digits_end_props(t, p1 + 1);
    }
    assert(num_after_frac(t, p2));
    if p2 < t.len() {
        let q: int = if p2 + 1 < t.len() && (t[p2 + 1] == 43 || t[p2 + 1] == 45) {
            p2 + 2
        } else {
            p2 + 1
        };
        lemma_digits_end_props(t, q);
    }
    assert forall|i: int| 0 <= i < t.len() implies numchar(#[trigger] t[i]) by {
        if i < p0 {
            assert(t[i] == 45);
        } else if i < p1 {
            assert(48 <= t[i] <= 57);
        } else if i == p1 && p1 < p2 {
            assert(t[i] == 46);
        } else if i < p2 {
            assert(48 <= t[i] <= 57);
        } else if i == p2 {
            assert(t[i] == 101 || t[i] == 69);
        } else {
            let q: int = if p2 + 1 < t.len() && (t[p2 + 1] == 43 || t[p2 + 1] == 45) {
                p2 + 2
            } else {
                p2 + 1
            };
            if i < q {
                assert(t[i] == 43 || t[i] == 45);
            } else {
                assert(48 <= t[i] <= 57);
            }
        }
    }
}

/// The end of the maximal run of number-token bytes starting at `pos`.
pub open spec fn spec_scan_num(s: Seq<u8>, pos: int) -> int
    decreases s.len() - pos,
{
    if pos < s.len() && numchar(s[pos]) {
        spec_scan_num(s, pos + 1)
    } else {
        pos
    }
}

pub proof fn lemma_scan_num_props(s: Seq<u8>, pos: int)
    requires
        0 <= pos <= s.len(),
    ensures
        pos <= spec_scan_num(s, pos) <= s.len(),
        forall|i: int| pos <= i < spec_scan_num(s, pos) ==> numchar(#[trigger] s[i]),
        spec_scan_num(s, pos) == s.len() || !numchar(s[spec_scan_num(s, pos)]),
    decreases s.len() - pos,
{
    if pos < s.len() && numchar(s[pos]) {
        lemma_scan_num_props(s, pos + 1);
    }
}

/// Scanning stops exactly at a known boundary: if everything up to `e` is a
/// number-token byte and `e` itself is not (or is the end), the scan ends at `e`.
pub proof fn lemma_scan_num_exact(s: Seq<u8>, pos: int, e: int)
    requires
        0 <= pos <= e <= s.len(),
        forall|i: int| pos <= i < e ==> numchar(#[trigger] s[i]),
        e == s.len() || !numchar(s[e]),
    ensures
        spec_scan_num(s, pos) == e,
    decreases e - pos,
{
    if pos < e {
        lemma_scan_num_exact(s, pos + 1, e);
    }
}

pub fn scan_num(s: &Vec<u8>, pos: usize) -> (e: usize)
    requires
        pos <= s@.len(),
    ensures
        e as int == spec_scan_num(s@, pos as int),
        pos <= e <= s@.len(),
    decreases s@.len() - pos,
{
    proof {
        lemma_scan_num_props(s@, pos as int);
    }
    let mut cur = pos;
    while cur < s.len() && byte_is_numchar(s[cur])
        invariant
            pos <= cur <= s@.len(),
            spec_scan_num(s@, pos as int) == spec_scan_num(s@, cur as int),
        decreases s@.len() - cur,
    {
        cur += 1;
    }
    cur
}

} // verus!
