use vstd::prelude::*;
use crate::canon::{flat_prefix, joinc, lemma_cat3_index, lemma_parse_toks_of_joinc,
    lemma_tok_views_push, spec_parse_toks, sub_vec};
use crate::errors::PipelineError;
use crate::json::{parse_doc, Json};
use crate::loader::{extract_nums, key_embedding_vec, obj_find};
use crate::token::{all_num_tokens, is_num_token, scan_num, tok_views};

verus! {

// ---- the request side ----

/// The text as sent to the service: at most `context_size * 4` characters
/// (a heuristic token-to-character ratio), applied client-side.
pub open spec fn truncated(text: Seq<char>, context_size: int) -> Seq<char> {
    if text.len() <= 4 * context_size {
        text
    } else {
        text.take(4 * context_size)
    }
}

pub fn truncate_text(text: &Vec<char>, context_size: usize) -> (r: Vec<char>)
    requires
        context_size <= usize::MAX / 4,
    ensures
        r@ == truncated(text@, context_size as int),
        r@.len() <= 4 * context_size,
{
    let bound = 4 * context_size;
    let limit = if text.len() <= bound {
        text.len()
    } else {
        bound
    };
    let mut out: Vec<char> = Vec::new();
    let mut i: usize = 0;
    while i < limit
        invariant
            0 <= i <= limit <= text@.len(),
            out@ == text@.take(i as int),
        decreases limit - i,
    {
        out.push(text[i]);
        assert(text@.take(i + 1) =~= text@.take(i as int).push(text@[i as int]));
        i += 1;
    }
    proof {
        if text@.len() <= bound {
            assert(text@.take(text@.len() as int) =~= text@);
        }
    }
    out
}

/// Duplicate a character vector.
pub fn clone_chars(v: &Vec<char>) -> (r: Vec<char>)
    ensures
        r@ == v@,
{
    let mut out: Vec<char> = Vec::new();
    let mut i: usize = 0;
    while i < v.len()
        invariant
            0 <= i <= v@.len(),
            out@ == v@.take(i as int),
        decreases v@.len() - i,
    {
        out.push(v[i]);
        assert(v@.take(i + 1) =~= v@.take(i as int).push(v@[i as int]));
        i += 1;
    }
    assert(v@.take(v@.len() as int) =~= v@);
    out
}

pub open spec fn hex_digit(n: int) -> char {
    if n == 0 { '0' }
    else if n == 1 { '1' }
    else if n == 2 { '2' }
    else if n == 3 { '3' }
    else if n == 4 { '4' }
    else if n == 5 { '5' }
    else if n == 6 { '6' }
    else if n == 7 { '7' }
    else if n == 8 { '8' }
    else if n == 9 { '9' }
    else if n == 10 { 'a' }
    else if n == 11 { 'b' }
    else if n == 12 { 'c' }
    else if n == 13 { 'd' }
    else if n == 14 { 'e' }
    else { 'f' }
}

fn hex_digit_exec(n: u32) -> (c: char)
    requires
        n < 16,
    ensures
        c == hex_digit(n as int),
{
    if n == 0 { '0' }
    else if n == 1 { '1' }
    else if n == 2 { '2' }
    else if n == 3 { '3' }
    else if n == 4 { '4' }
    else if n == 5 { '5' }
    else if n == 6 { '6' }
    else if n == 7 { '7' }
    else if n == 8 { '8' }
    else if n == 9 { '9' }
    else if n == 10 { 'a' }
    else if n == 11 { 'b' }
    else if n == 12 { 'c' }
    else if n == 13 { 'd' }
    else if n == 14 { 'e' }
    else { 'f' }
}

/// The JSON string escaping applied to the request content: quotes and
/// backslashes are escaped, control characters become `\u00XX`.
pub open spec fn esc_char(c: char) -> Seq<char> {
    if c == '"' {
        seq!['\\', '"']
    } else if c == '\\' {
        seq!['\\', '\\']
    } else if (c as u32) < 32 {
        seq!['\\', 'u', '0', '0', hex_digit(((c as u32) / 16) as int), hex_digit(
            ((c as u32) % 16) as int,
        )]
    } else {
        seq![c]
    }
}

pub open spec fn esc(s: Seq<char>) -> Seq<char>
    decreases s.len(),
{
    if s.len() == 0 {
        Seq::empty()
    } else {
        esc(s.drop_last()) + esc_char(s.last())
    }
}

pub proof fn lemma_esc_snoc(a: Seq<char>, x: char)
    ensures
        esc(a.push(x)) == esc(a) + esc_char(x),
{
    assert(a.push(x).drop_last() =~= a);
    assert(a.push(x).last() == x);
}

/// The characters of `{"content":"`.
pub open spec fn body_prefix() -> Seq<char> {
    seq!['{', '"', 'c', 'o', 'n', 't', 'e', 'n', 't', '"', ':', '"']
}

/// The JSON body of one embedding request for the given (already truncated)
/// content.
pub open spec fn request_body(content: Seq<char>) -> Seq<char> {
    body_prefix() + esc(content) + seq!['"', '}']
}

/// Build the request body for one text: the text is rejected with
/// `InvalidInput` exactly when it is empty (so no request is ever sent for
/// it), and otherwise truncated to `context_size * 4` characters and
/// embedded in the `{"content":"..."}` JSON shape.
pub fn embed_request_body(text: &Vec<char>, context_size: usize) -> (r: Result<
    Vec<char>,
    PipelineError,
>)
    requires
        context_size <= usize::MAX / 4,
    ensures
        text@.len() == 0 <==> r is Err,
        r is Err ==> r->Err_0 == PipelineError::InvalidInput,
        r is Ok ==> r->Ok_0@ == request_body(truncated(text@, context_size as int)),
{
    if text.len() == 0 {
        return Err(PipelineError::InvalidInput);
    }
    let t = truncate_text(text, context_size);
    let mut out: Vec<char> = Vec::new();
    out.push('{');
    out.push('"');
    out.push('c');
    out.push('o');
    out.push('n');
    out.push('t');
    out.push('e');
    out.push('n');
    out.push('t');
    out.push('"');
    out.push(':');
    out.push('"');
    assert(out@ =~= body_prefix());
    let mut i: usize = 0;
    while i < t.len()
        invariant
            0 <= i <= t@.len(),
            out@ == body_prefix() + esc(t@.take(i as int)),
        decreases t@.len() - i,
    {
        let ghost pre = out@;
        let c = t[i];
        if c == '"' {
            out.push('\\');
            out.push('"');
        } else if c == '\\' {
            out.push('\\');
            out.push('\\');
        } else if (c as u32) < 32 {
            out.push('\\');
            out.push('u');
            out.push('0');
            out.push('0');
            out.push(hex_digit_exec((c as u32) / 16));
            out.push(hex_digit_exec((c as u32) % 16));
        } else {
            out.push(c);
        }
        proof {
            assert(out@ =~= pre + esc_char(t@[i as int]));
            lemma_esc_snoc(t@.take(i as int), t@[i as int]);
            assert(t@.take(i as int).push(t@[i as int]) =~= t@.take(i + 1));
            assert(pre + esc_char(t@[i as int]) =~= body_prefix() + esc(t@.take(i + 1)));
        }
        i += 1;
    }
    assert(t@.take(t@.len() as int) =~= t@);
    out.push('"');
    out.push('}');
    assert(out@ =~= request_body(t@));
    Ok(out)
}

// ---- the response side ----

/// What one embedding request came back as: no response at all (the
/// transport failed), or a status code with a response body.
pub enum Outcome {
    NoResponse,
    Response(u16, Vec<u8>),
}

pub open spec fn status_2xx(s: u16) -> bool {
    200 <= s && s < 300
}

/// The canonical success body, `{"embedding":[<number>,...]}`.
pub open spec fn resp_body(ts: Seq<Seq<u8>>) -> Seq<u8> {
    flat_prefix() + joinc(ts) + seq![93u8] + seq![125u8]
}

/// Parse a canonical success body.
pub open spec fn spec_parse_resp(s: Seq<u8>) -> Option<Seq<Seq<u8>>> {
    if s.len() >= 14 && s.subrange(0, 14) == flat_prefix() {
        match spec_parse_toks(s, 14) {
            Some(tsp) => if tsp.1 < s.len() && s[tsp.1] == 125 && tsp.1 + 1 == s.len() {
                Some(tsp.0)
            } else {
                None
            },
            None => None,
        }
    } else {
        None
    }
}

/// Round trip: a canonical success body parses back to its tokens.
pub proof fn lemma_resp_round_trip(ts: Seq<Seq<u8>>)
    requires
        ts.len() > 0,
        all_num_tokens(ts),
    ensures
        spec_parse_resp(resp_body(ts)) == Some(ts),
{
    let s = resp_body(ts);
    let jl = joinc(ts).len() as int;
    assert(s.len() == 14 + jl + 2);
    assert forall|j: int| 0 <= j < s.len() implies #[trigger] s[j] == (if j < 14 {
        flat_prefix()[j]
    } else if j < 14 + jl {
        joinc(ts)[j - 14]
    } else if j == 14 + jl {
        93u8
    } else {
        125u8
    }) by {
        let s3 = flat_prefix() + joinc(ts) + seq![93u8];
        assert(s == s3 + seq![125u8]);
        if j < s3.len() {
            assert(s[j] == s3[j]);
            lemma_cat3_index(flat_prefix(), joinc(ts), seq![93u8], j);
        } else {
            assert(s[j] == 125u8);
        }
    }
    assert(s.subrange(0, 14) =~= flat_prefix()) by {
        assert(forall|k: int| 0 <= k < 14 ==> #[trigger] s.subrange(0, 14)[k] == s[k]);
    }
    assert(s.subrange(14, s.len() as int) =~= joinc(ts) + seq![93u8] + seq![125u8]) by {
        let target = joinc(ts) + seq![93u8] + seq![125u8];
        assert forall|k: int| 0 <= k < s.len() - 14 implies #[trigger] s.subrange(
            14,
            s.len() as int,
        )[k] == target[k] by {
            assert(s.subrange(14, s.len() as int)[k] == s[14 + k]);
            lemma_cat3_index(joinc(ts), seq![93u8], seq![125u8], k);
        }
    }
    lemma_parse_toks_of_joinc(s, 14, ts, seq![125u8]);
    assert(s[14 + jl + 1] == 125);
}

/// Parse a canonical success body; the result is exactly what the
/// spec-level parser yields.
fn parse_resp_canonical(body: &Vec<u8>) -> (r: Option<Vec<Vec<u8>>>)
    ensures
        match r {
            Some(v) => spec_parse_resp(body@) == Some(tok_views(v@)) && v@.len() > 0
                && all_num_tokens(tok_views(v@)),
            None => spec_parse_resp(body@) is None,
        },
{
    let ghost s = body@;
    if body.len() < 14 {
        return None;
    }
    if !(body[0] == 123 && body[1] == 34 && body[2] == 101 && body[3] == 109 && body[4] == 98
        && body[5] == 101 && body[6] == 100 && body[7] == 100 && body[8] == 105 && body[9] == 110
        && body[10] == 103 && body[11] == 34 && body[12] == 58 && body[13] == 91) {
        proof {
            if s.subrange(0, 14) == flat_prefix() {
                assert(forall|k: int| 0 <= k < 14 ==> s[k] == flat_prefix()[k]);
            }
        }
        return None;
    }
    assert(s.subrange(0, 14) =~= flat_prefix());
    let mut toks: Vec<Vec<u8>> = Vec::new();
    let mut cur: usize = 14;
    let mut done = false;
    while !done
        invariant
            14 <= cur <= s.len(),
            body@ == s,
            all_num_tokens(tok_views(toks@)),
            !done ==> spec_parse_toks(s, 14) == match spec_parse_toks(s, cur as int) {
                Some(tsp) => Some::<(Seq<Seq<u8>>, int)>((tok_views(toks@) + tsp.0, tsp.1)),
                None => None,
            },
            done ==> spec_parse_toks(s, 14) == Some((tok_views(toks@), cur as int)) && toks@.len()
                > 0,
        decreases s.len() - cur + (if done { 0int } else { 1int }),
    {
        let e = scan_num(body, cur);
        let t = sub_vec(body, cur, e);
        if !is_num_token(&t) {
            return None;
        }
        if e >= body.len() {
            return None;
        }
        let b = body[e];
        if b == 44 {
            proof {
                lemma_tok_views_push(toks@, t);
            }
            toks.push(t);
            proof {
                if spec_parse_toks(s, e + 1) is Some {
                    let tsp = spec_parse_toks(s, e + 1)->Some_0;
                    assert(spec_parse_toks(s, cur as int) == Some::<(Seq<Seq<u8>>, int)>((seq![
                        s.subrange(cur as int, e as int),
                    ] + tsp.0, tsp.1)));
                    assert((tok_views(toks@.drop_last()) + (seq![t@] + tsp.0)) =~= (tok_views(
                        toks@.drop_last()) + seq![t@]) + tsp.0);
                    assert(toks@.drop_last().push(t) =~= toks@);
                }
            }
            cur = e + 1;
        } else if b == 93 {
            proof {
                lemma_tok_views_push(toks@, t);
                assert(spec_parse_toks(s, cur as int) == Some::<(Seq<Seq<u8>>, int)>((seq![
                    s.subrange(cur as int, e as int),
                ], e + 1)));
            }
            toks.push(t);
            proof {
                assert(tok_views(toks@.drop_last()) + seq![t@] =~= tok_views(toks@.drop_last()).push(
                    t@));
                assert(toks@.drop_last().push(t) =~= toks@);
            }
            cur = e + 1;
            done = true;
        } else {
            return None;
        }
    }
    if cur >= body.len() {
        return None;
    }
    if body[cur] != 125 {
        return None;
    }
    if cur + 1 != body.len() {
        return None;
    }
    Some(toks)
}

/// How the result of one request is decided from its outcome: a transport
/// failure is `Transport`, a non-2xx status `RemoteRejected`; on success the
/// body must hold a non-empty numeric `embedding` array (a canonical body
/// yields exactly its tokens), anything else is `MalformedResponse`.
pub open spec fn response_decided(outcome: Outcome, r: Result<Seq<Seq<u8>>, PipelineError>) -> bool {
    match outcome {
        Outcome::NoResponse => r == Result::<Seq<Seq<u8>>, PipelineError>::Err(
            PipelineError::Transport,
        ),
        Outcome::Response(st, body) => if !status_2xx(st) {
            r == Result::<Seq<Seq<u8>>, PipelineError>::Err(PipelineError::RemoteRejected)
        } else {
            &&& (match spec_parse_resp(body@) {
                Some(ts) => r == Result::<Seq<Seq<u8>>, PipelineError>::Ok(ts),
                None => true,
            })
            &&& (match r {
                Ok(ts) => ts.len() > 0 && all_num_tokens(ts),
                Err(e) => e == PipelineError::MalformedResponse,
            })
        },
    }
}

/// Interpret the outcome of one embedding request.
pub fn embed_response(outcome: &Outcome) -> (r: Result<Vec<Vec<u8>>, PipelineError>)
    ensures
        response_decided(*outcome, match r {
            Ok(v) => Result::<Seq<Seq<u8>>, PipelineError>::Ok(tok_views(v@)),
            Err(e) => Result::<Seq<Seq<u8>>, PipelineError>::Err(e),
        }),
{
    match outcome {
        Outcome::NoResponse => Err(PipelineError::Transport),
        Outcome::Response(st, body) => {
            if !(200 <= *st && *st < 300) {
                return Err(PipelineError::RemoteRejected);
            }
            match parse_resp_canonical(body) {
                Some(v) => Ok(v),
                None => {
                    // tolerate whitespace and field order via the general parser
                    match parse_doc(body) {
                        Some(j) => match &j {
                            Json::Obj(fields) => {
                                let key = key_embedding_vec();
                                match obj_find(fields, &key) {
                                    Some(v) => match v {
                                        Json::Arr(es) => {
                                            let toks = extract_nums(es);
                                            if toks.len() > 0 && toks.len() == es.len() {
                                                Ok(toks)
                                            } else {
                                                Err(PipelineError::MalformedResponse)
                                            }
                                        },
                                        _ => Err(PipelineError::MalformedResponse),
                                    },
                                    None => Err(PipelineError::MalformedResponse),
                                }
                            },
                            _ => Err(PipelineError::MalformedResponse),
                        },
                        None => Err(PipelineError::MalformedResponse),
                    }
                },
            }
        },
    }
}

} // verus!
