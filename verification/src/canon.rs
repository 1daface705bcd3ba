use vstd::prelude::*;
use crate::token::{
    all_num_tokens, is_num_token, num_token, numchar, scan_num, spec_scan_num,
    lemma_num_token_chars, lemma_scan_num_exact, lemma_scan_num_props, tok_views,
};

verus! {

// The canonical flat line format is one JSON object per line,
// `{"embedding":[<number>,...],"label":<number>}`, written without spaces.

/// The bytes of `{"embedding":[`.
pub open spec fn flat_prefix() -> Seq<u8> {
    seq![123u8, 34, 101, 109, 98, 101, 100, 100, 105, 110, 103, 34, 58, 91]
}

/// The bytes of `,"label":`, following the `]` that closes the embedding array.
pub open spec fn flat_mid() -> Seq<u8> {
    seq![44u8, 34, 108, 97, 98, 101, 108, 34, 58]
}

/// Number tokens joined by commas.
pub open spec fn joinc(ts: Seq<Seq<u8>>) -> Seq<u8>
    decreases ts.len(),
{
    if ts.len() == 0 {
        Seq::empty()
    } else if ts.len() == 1 {
        ts[0]
    } else {
        ts[0] + seq![44u8] + joinc(ts.drop_first())
    }
}

/// The canonical serialized form of one record's embedding tokens and label.
pub open spec fn flat_line(ts: Seq<Seq<u8>>, l: Seq<u8>) -> Seq<u8> {
    flat_prefix() + joinc(ts) + seq![93u8] + flat_mid() + l + seq![125u8]
}

pub proof fn lemma_joinc_snoc(a: Seq<Seq<u8>>, x: Seq<u8>)
    ensures
        joinc(a.push(x)) == if a.len() == 0 {
            x
        } else {
            joinc(a) + seq![44u8] + x
        },
    decreases a.len(),
{
    if a.len() == 0 {
        assert(a.push(x) =~= seq![x]);
    } else if a.len() == 1 {
        assert(a.push(x).drop_first() =~= seq![x]);
        assert(a.push(x)[0] == a[0]);
        assert(joinc(seq![x]) == x);
        assert(joinc(a.push(x)) == a[0] + seq![44u8] + x);
    } else {
        lemma_joinc_snoc(a.drop_first(), x);
        assert(a.push(x).drop_first() =~= a.drop_first().push(x));
        assert(joinc(a.push(x)) == a[0] + seq![44u8] + (joinc(a.drop_first()) + seq![44u8] + x));
        assert(a[0] + seq![44u8] + (joinc(a.drop_first()) + seq![44u8] + x) =~= (a[0] + seq![44u8]
            + joinc(a.drop_first())) + seq![44u8] + x);
    }
}

/// Append every byte of `part` to `out`.
pub fn push_all(out: &mut Vec<u8>, part: &Vec<u8>)
    ensures
        final(out)@ == old(out)@ + part@,
{
    let mut j: usize = 0;
    while j < part.len()
        invariant
            0 <= j <= part@.len(),
            out@ == old(out)@ + part@.subrange(0, j as int),
        decreases part@.len() - j,
    {
        out.push(part[j]);
        assert(old(out)@ + part@.subrange(0, j + 1) =~= (old(out)@ + part@.subrange(0, j as int)).push(
            part@[j as int]));
        j += 1;
    }
    assert(part@.subrange(0, part@.len() as int) =~= part@);
}

/// Serialize one record's embedding tokens and label as a canonical flat line.
pub fn write_flat_line(emb: &Vec<Vec<u8>>, label: &Vec<u8>) -> (r: Vec<u8>)
    ensures
        r@ == flat_line(tok_views(emb@), label@),
{
    let ghost ts = tok_views(emb@);
    let mut out: Vec<u8> = Vec::new();
    out.push(123);
    out.push(34);
    out.push(101);
    out.push(109);
    out.push(98);
    out.push(101);
    out.push(100);
    out.push(100);
    out.push(105);
    out.push(110);
    out.push(103);
    out.push(34);
    out.push(58);
    out.push(91);
    assert(out@ =~= flat_prefix());
    let mut i: usize = 0;
    while i < emb.len()
        invariant
            0 <= i <= emb@.len(),
            ts == tok_views(emb@),
            out@ == flat_prefix() + joinc(ts.take(i as int)),
        decreases emb@.len() - i,
    {
        let ghost pre = out@;
        if i > 0 {
            out.push(44);
        }
        push_all(&mut out, &emb[i]);
        proof {
            lemma_joinc_snoc(ts.take(i as int), ts[i as int]);
            assert(ts.take(i as int).push(ts[i as int]) =~= ts.take(i + 1));
            if i == 0 {
                assert(out@ =~= flat_prefix() + joinc(ts.take(1)));
            } else {
                assert(out@ == (pre + seq![44u8]) + emb@[i as int]@);
                assert((flat_prefix() + joinc(ts.take(i as int)) + seq![44u8]) + ts[i as int]
                    =~= flat_prefix() + (joinc(ts.take(i as int)) + seq![44u8] + ts[i as int]));
            }
        }
        i += 1;
    }
    assert(ts.take(ts.len() as int) =~= ts);
    out.push(93);
    out.push(44);
    out.push(34);
    out.push(108);
    out.push(97);
    out.push(98);
    out.push(101);
    out.push(108);
    out.push(34);
    out.push(58);
    let ghost before_label = out@;
    assert(before_label =~= flat_prefix() + joinc(ts) + seq![93u8] + flat_mid());
    push_all(&mut out, label);
    out.push(125);
    assert(out@ =~= flat_line(ts, label@));
    out
}

/// Parse a comma-separated run of number tokens terminated by `]`,
/// starting at `pos`; yields the tokens and the position after the `]`.
pub open spec fn spec_parse_toks(s: Seq<u8>, pos: int) -> Option<(Seq<Seq<u8>>, int)>
    decreases s.len() - pos,
    via spec_parse_toks_dec
{
    if !(0 <= pos <= s.len()) {
        None
    } else {
        let e = spec_scan_num(s, pos);
        if !num_token(s.subrange(pos, e)) {
            None
        } else if e >= s.len() {
            None
        } else if s[e] == 44 {
            match spec_parse_toks(s, e + 1) {
                Some(tsp) => Some((seq![s.subrange(pos, e)] + tsp.0, tsp.1)),
                None => None,
            }
        } else if s[e] == 93 {
            Some((seq![s.subrange(pos, e)], e + 1))
        } else {
            None
        }
    }
}

#[via_fn]
proof fn spec_parse_toks_dec(s: Seq<u8>, pos: int) {
    if 0 <= pos <= s.len() {
        lemma_scan_num_props(s, pos);
    }
}

/// Parse a whole canonical flat line.
pub open spec fn spec_parse_flat(s: Seq<u8>) -> Option<(Seq<Seq<u8>>, Seq<u8>)> {
    if s.len() >= 14 && s.subrange(0, 14) == flat_prefix() {
        match spec_parse_toks(s, 14) {
            Some(tsp) => {
                let p = tsp.1;
                if p + 9 <= s.len() && s.subrange(p, p + 9) == flat_mid() {
                    let e = spec_scan_num(s, p + 9);
                    let l = s.subrange(p + 9, e);
                    if num_token(l) && e < s.len() && s[e] == 125 && e + 1 == s.len() {
                        Some((tsp.0, l))
                    } else {
                        None
                    }
                } else {
                    None
                }
            },
            None => None,
        }
    } else {
        None
    }
}

/// Indexing into a three-part concatenation.
pub proof fn lemma_cat3_index(a: Seq<u8>, b: Seq<u8>, c: Seq<u8>, j: int)
    requires
        0 <= j < a.len() + b.len() + c.len(),
    ensures
        (a + b + c)[j] == if j < a.len() {
            a[j]
        } else if j < a.len() + b.len() {
            b[j - a.len()]
        } else {
            c[j - a.len() - b.len()]
        },
{
    if j < a.len() + b.len() {
        assert((a + b + c)[j] == (a + b)[j]);
    } else {
        assert((a + b + c)[j] == c[j - (a + b).len()]);
    }
}

/// Parsing recovers exactly the token run that `joinc` serialized, whatever
/// follows the closing `]`.
pub proof fn lemma_parse_toks_of_joinc(s: Seq<u8>, pos: int, ts: Seq<Seq<u8>>, tail: Seq<u8>)
    requires
        0 <= pos <= s.len(),
        ts.len() > 0,
        all_num_tokens(ts),
        s.subrange(pos, s.len() as int) == joinc(ts) + seq![93u8] + tail,
    ensures
        spec_parse_toks(s, pos) == Some((ts, pos + joinc(ts).len() + 1)),
    decreases ts.len(),
{
    let suf = s.subrange(pos, s.len() as int);
    let t0 = ts[0];
    assert(num_token(t0));
    let n0 = t0.len() as int;
    let jl = joinc(ts).len() as int;
    assert(suf.len() == jl + 1 + tail.len());
    lemma_num_token_chars(t0);
    if ts.len() == 1 {
        assert(joinc(ts) == t0);
        assert forall|i: int| pos <= i < pos + n0 implies #[trigger] s[i] == t0[i - pos] by {
            assert(suf[i - pos] == s[i]);
            lemma_cat3_index(joinc(ts), seq![93u8], tail, i - pos);
        }
        assert forall|i: int| pos <= i < pos + n0 implies numchar(#[trigger] s[i]) by {
            assert(s[i] == t0[i - pos]);
        }
        assert(s[pos + n0] == 93) by {
            assert(suf[n0] == s[pos + n0]);
            lemma_cat3_index(joinc(ts), seq![93u8], tail, n0);
        }
        assert(!numchar(93));
        lemma_scan_num_exact(s, pos, pos + n0);
        assert(s.subrange(pos, pos + n0) =~= t0);
        assert(num_token(s.subrange(pos, pos + n0)));
        assert(spec_parse_toks(s, pos) == Some((seq![t0], pos + n0 + 1)));
        assert(seq![t0] =~= ts);
    } else {
        let rest = ts.drop_first();
        assert(joinc(ts) == t0 + seq![44u8] + joinc(rest));
        let jr = joinc(rest).len() as int;
        assert(jl == n0 + 1 + jr);
        assert forall|i: int| pos <= i < pos + n0 implies #[trigger] s[i] == t0[i - pos] by {
            assert(suf[i - pos] == s[i]);
            lemma_cat3_index(joinc(ts), seq![93u8], tail, i - pos);
            lemma_cat3_index(t0, seq![44u8], joinc(rest), i - pos);
        }
        assert forall|i: int| pos <= i < pos + n0 implies numchar(#[trigger] s[i]) by {
            assert(s[i] == t0[i - pos]);
        }
        assert(s[pos + n0] == 44) by {
            assert(suf[n0] == s[pos + n0]);
            lemma_cat3_index(joinc(ts), seq![93u8], tail, n0);
            lemma_cat3_index(t0, seq![44u8], joinc(rest), n0);
        }
        assert(!numchar(44));
        lemma_scan_num_exact(s, pos, pos + n0);
        assert(s.subrange(pos, pos + n0) =~= t0);
        assert(num_token(s.subrange(pos, pos + n0)));
        let e = pos + n0;
        assert(s.subrange(e + 1, s.len() as int) =~= joinc(rest) + seq![93u8] + tail) by {
            let target = joinc(rest) + seq![93u8] + tail;
            assert forall|k: int| 0 <= k < s.len() - e - 1 implies #[trigger] s.subrange(
                e + 1,
                s.len() as int,
            )[k] == target[k] by {
                assert(s.subrange(e + 1, s.len() as int)[k] == s[e + 1 + k]);
                assert(s[e + 1 + k] == suf[n0 + 1 + k]);
                lemma_cat3_index(joinc(ts), seq![93u8], tail, n0 + 1 + k);
                lemma_cat3_index(joinc(rest), seq![93u8], tail, k);
                if n0 + 1 + k < jl {
                    lemma_cat3_index(t0, seq![44u8], joinc(rest), n0 + 1 + k);
                }
            }
        }
        assert(all_num_tokens(rest)) by {
            assert(forall|i: int| 0 <= i < rest.len() ==> #[trigger] rest[i] == ts[i + 1]);
        }
        lemma_parse_toks_of_joinc(s, e + 1, rest, tail);
        assert(spec_parse_toks(s, pos) == Some((seq![t0] + rest, (e + 1) + jr + 1)));
        assert(seq![t0] + rest =~= ts);
        assert((e + 1) + jr + 1 == pos + jl + 1);
    }
}

/// Indexing into a canonical flat line, by position.
pub proof fn lemma_flat_line_index(ts: Seq<Seq<u8>>, l: Seq<u8>, j: int)
    requires
        0 <= j < flat_line(ts, l).len(),
    ensures
        flat_line(ts, l)[j] == {
            let b = 14 + joinc(ts).len();
            if j < 14 {
                flat_prefix()[j]
            } else if j < b {
                joinc(ts)[j - 14]
            } else if j == b {
                93u8
            } else if j < b + 10 {
                flat_mid()[j - b - 1]
            } else if j < b + 10 + l.len() {
                l[j - b - 10]
            } else {
                125u8
            }
        },
{
    let p = flat_prefix();
    let jn = joinc(ts);
    let m = flat_mid();
    let s1 = p + jn;
    let s2 = s1 + seq![93u8];
    let s3 = s2 + m;
    let s4 = s3 + l;
    assert(flat_line(ts, l) == s4 + seq![125u8]);
    if j < s4.len() {
        assert((s4 + seq![125u8])[j] == s4[j]);
        if j < s3.len() {
            assert(s4[j] == s3[j]);
            if j < s2.len() {
                assert(s3[j] == s2[j]);
                if j < s1.len() {
                    assert(s2[j] == s1[j]);
                } else {
                    assert(s2[j] == 93u8);
                }
            } else {
                assert(s3[j] == m[j - s2.len()]);
            }
        } else {
            assert(s4[j] == l[j - s3.len()]);
        }
    } else {
        assert((s4 + seq![125u8])[j] == 125u8);
    }
}

/// Round trip: a canonical flat line parses back to exactly the tokens and
/// label it was written from.
pub proof fn lemma_flat_round_trip(ts: Seq<Seq<u8>>, l: Seq<u8>)
    requires
        ts.len() > 0,
        all_num_tokens(ts),
        num_token(l),
    ensures
        spec_parse_flat(flat_line(ts, l)) == Some((ts, l)),
{
    let s = flat_line(ts, l);
    let jl = joinc(ts).len() as int;
    let ll = l.len() as int;
    let b = 14 + jl;
    assert(s.len() == 14 + jl + 1 + 9 + ll + 1);
    assert(s.subrange(0, 14) =~= flat_prefix()) by {
        assert forall|k: int| 0 <= k < 14 implies #[trigger] s.subrange(0, 14)[k]
            == flat_prefix()[k] by {
            assert(s.subrange(0, 14)[k] == s[k]);
            lemma_flat_line_index(ts, l, k);
        }
    }
    assert(s.subrange(14, s.len() as int) =~= joinc(ts) + seq![93u8] + (flat_mid() + l + seq![
        125u8,
    ])) by {
        let target = joinc(ts) + seq![93u8] + (flat_mid() + l + seq![125u8]);
        assert forall|k: int| 0 <= k < s.len() - 14 implies #[trigger] s.subrange(
            14,
            s.len() as int,
        )[k] == target[k] by {
            assert(s.subrange(14, s.len() as int)[k] == s[14 + k]);
            lemma_flat_line_index(ts, l, 14 + k);
            lemma_cat3_index(joinc(ts), seq![93u8], flat_mid() + l + seq![125u8], k);
            if k > jl {
                lemma_cat3_index(flat_mid(), l, seq![125u8], k - jl - 1);
            }
        }
    }
    lemma_parse_toks_of_joinc(s, 14, ts, flat_mid() + l + seq![125u8]);
    let p = b + 1;
    assert(s.subrange(p, p + 9) =~= flat_mid()) by {
        assert forall|k: int| 0 <= k < 9 implies #[trigger] s.subrange(p, p + 9)[k] == flat_mid()[k]
            by {
            assert(s.subrange(p, p + 9)[k] == s[p + k]);
            lemma_flat_line_index(ts, l, p + k);
        }
    }
    assert forall|i: int| p + 9 <= i < p + 9 + ll implies #[trigger] s[i] == l[i - (p + 9)] by {
        lemma_flat_line_index(ts, l, i);
    }
    lemma_num_token_chars(l);
    assert forall|i: int| p + 9 <= i < p + 9 + ll implies numchar(#[trigger] s[i]) by {
        assert(s[i] == l[i - (p + 9)]);
    }
    assert(s[p + 9 + ll] == 125) by {
        lemma_flat_line_index(ts, l, p + 9 + ll);
    }
    assert(!numchar(125));
    lemma_scan_num_exact(s, p + 9, p + 9 + ll);
    assert(s.subrange(p + 9, p + 9 + ll) =~= l);
}

/// Copy the bytes `s[a..b]` into a fresh vector.
pub fn sub_vec(s: &Vec<u8>, a: usize, b: usize) -> (r: Vec<u8>)
    requires
        a <= b <= s@.len(),
    ensures
        r@ == s@.subrange(a as int, b as int),
{
    let mut r: Vec<u8> = Vec::new();
    let mut i = a;
    while i < b
        invariant
            a <= i <= b <= s@.len(),
            r@ == s@.subrange(a as int, i as int),
        decreases b - i,
    {
        r.push(s[i]);
        assert(s@.subrange(a as int, i + 1) =~= s@.subrange(a as int, i as int).push(s@[i as int]));
        i += 1;
    }
    r
}

pub proof fn lemma_tok_views_push(ts: Seq<Vec<u8>>, t: Vec<u8>)
    ensures
        tok_views(ts.push(t)) == tok_views(ts) + seq![t@],
{
    assert(tok_views(ts.push(t)) =~= tok_views(ts) + seq![t@]);
}

/// Parse one line in the canonical flat format; the result is exactly what
/// the spec-level parser yields.
pub fn parse_flat_line(line: &Vec<u8>) -> (r: Option<(Vec<Vec<u8>>, Vec<u8>)>)
    ensures
        match r {
            Some(p) => spec_parse_flat(line@) == Some((tok_views(p.0@), p.1@)) && p.0@.len() > 0
                && all_num_tokens(tok_views(p.0@)) && num_token(p.1@),
            None => spec_parse_flat(line@) is None,
        },
{
    let ghost s = line@;
    if line.len() < 14 {
        return None;
    }
    // check the `{"embedding":[` prefix
    if !(line[0] == 123 && line[1] == 34 && line[2] == 101 && line[3] == 109 && line[4] == 98
        && line[5] == 101 && line[6] == 100 && line[7] == 100 && line[8] == 105 && line[9] == 110
        && line[10] == 103 && line[11] == 34 && line[12] == 58 && line[13] == 91) {
        proof {
            if s.subrange(0, 14) == flat_prefix() {
                assert(forall|k: int| 0 <= k < 14 ==> s[k] == flat_prefix()[k]);
            }
        }
        return None;
    }
    assert(s.subrange(0, 14) =~= flat_prefix());
    let mut toks: Vec<Vec<u8>> = Vec::new();
    let mut cur: usize = 14;
    let mut done = false;
    while !done
        invariant
            14 <= cur <= s.len(),
            line@ == s,
            all_num_tokens(tok_views(toks@)),
            !done ==> spec_parse_toks(s, 14) == match spec_parse_toks(s, cur as int) {
                Some(tsp) => Some::<(Seq<Seq<u8>>, int)>((tok_views(toks@) + tsp.0, tsp.1)),
                None => None,
            },
            done ==> spec_parse_toks(s, 14) == Some((tok_views(toks@), cur as int)) && toks@.len()
                > 0,
        decreases s.len() - cur + (if done { 0int } else { 1int }),
    {
        let e = scan_num(line, cur);
        let t = sub_vec(line, cur, e);
        if !is_num_token(&t) {
            return None;
        }
        if e >= line.len() {
            return None;
        }
        let b = line[e];
        if b == 44 {
            proof {
                lemma_tok_views_push(toks@, t);
            }
            toks.push(t);
            proof {
                if spec_parse_toks(s, e + 1) is Some {
                    let tsp = spec_parse_toks(s, e + 1)->Some_0;
                    assert(spec_parse_toks(s, cur as int) == Some::<(Seq<Seq<u8>>, int)>((seq![
                        s.subrange(cur as int, e as int),
                    ] + tsp.0, tsp.1)));
                    assert((tok_views(toks@.drop_last()) + (seq![t@] + tsp.0)) =~= (tok_views(
                        toks@.drop_last()) + seq![t@]) + tsp.0);
                    assert(toks@.drop_last().push(t) =~= toks@);
                }
            }
            cur = e + 1;
        } else if b == 93 {
            proof {
                lemma_tok_views_push(toks@, t);
                assert(spec_parse_toks(s, cur as int) == Some::<(Seq<Seq<u8>>, int)>((seq![
                    s.subrange(cur as int, e as int),
                ], e + 1)));
            }
            toks.push(t);
            proof {
                assert(tok_views(toks@.drop_last()) + seq![t@] =~= tok_views(toks@.drop_last()).push(
                    t@));
                assert(toks@.drop_last().push(t) =~= toks@);
            }
            cur = e + 1;
            done = true;
        } else {
            return None;
        }
    }
    // `,"label":` after the closing bracket
    if line.len() - cur < 9 {
        return None;
    }
    if !(line[cur] == 44 && line[cur + 1] == 34 && line[cur + 2] == 108 && line[cur + 3] == 97
        && line[cur + 4] == 98 && line[cur + 5] == 101 && line[cur + 6] == 108 && line[cur + 7]
        == 34 && line[cur + 8] == 58) {
        proof {
            if s.subrange(cur as int, cur + 9) == flat_mid() {
                assert forall|k: int| 0 <= k < 9 implies s[cur + k] == #[trigger] flat_mid()[k] by {
                    assert(s.subrange(cur as int, cur + 9)[k] == s[cur + k]);
                }
            }
        }
        return None;
    }
    assert(s.subrange(cur as int, cur + 9) =~= flat_mid());
    let lstart = cur + 9;
    let e2 = scan_num(line, lstart);
    let lab = sub_vec(line, lstart, e2);
    if !is_num_token(&lab) {
        return None;
    }
    if e2 >= line.len() {
        return None;
    }
    if line[e2] != 125 {
        return None;
    }
    if e2 + 1 != line.len() {
        return None;
    }
    Some((toks, lab))
}


/// Every byte of a token join is a number-token byte or a comma.
pub proof fn lemma_joinc_bytes(ts: Seq<Seq<u8>>, j: int)
    requires
        all_num_tokens(ts),
        0 <= j < joinc(ts).len(),
    ensures
        numchar(joinc(ts)[j]) || joinc(ts)[j] == 44,
    decreases ts.len(),
{
    if ts.len() == 1 {
        lemma_num_token_chars(ts[0]);
        assert(joinc(ts)[j] == ts[0][j]);
    } else if ts.len() > 1 {
        let rest = ts.drop_first();
        lemma_num_token_chars(ts[0]);
        lemma_cat3_index(ts[0], seq![44u8], joinc(rest), j);
        if j > ts[0].len() {
            assert(all_num_tokens(rest)) by {
                assert(forall|i: int| 0 <= i < rest.len() ==> #[trigger] rest[i] == ts[i + 1]);
            }
            lemma_joinc_bytes(rest, j - ts[0].len() - 1);
        }
    }
}

/// A canonical flat line contains no newline byte.
pub proof fn lemma_flat_line_no_nl(ts: Seq<Seq<u8>>, l: Seq<u8>)
    requires
        all_num_tokens(ts),
        num_token(l),
    ensures
        forall|j: int| 0 <= j < flat_line(ts, l).len() ==> #[trigger] flat_line(ts, l)[j] != 10,
{
    let b = 14 + joinc(ts).len() as int;
    lemma_num_token_chars(l);
    assert forall|j: int| 0 <= j < flat_line(ts, l).len() implies #[trigger] flat_line(ts, l)[j]
        != 10 by {
        lemma_flat_line_index(ts, l, j);
        if j < 14 {
            assert(flat_prefix()[j] != 10);
        } else if j < b {
            lemma_joinc_bytes(ts, j - 14);
        } else if j == b {
        } else if j < b + 10 {
            assert(flat_mid()[j - b - 1] != 10);
        } else if j < b + 10 + l.len() {
            assert(numchar(l[j - b - 10]));
        }
    }
}

} // verus!
