use vstd::prelude::*;
use crate::token::{byte_is_num_first, is_num_token, scan_num};
use crate::canon::sub_vec;

verus! {

/// A parsed JSON value. Numbers are kept as their literal tokens, so no
/// numeric conversion happens inside the verified core.
pub enum Json {
    Null,
    Bool(bool),
    Num(Vec<u8>),
    Str(Vec<u8>),
    Arr(Vec<Json>),
    Obj(Vec<(Vec<u8>, Json)>),
}

/// JSON whitespace.
pub open spec fn ws(b: u8) -> bool {
    b == 32 || b == 9 || b == 10 || b == 13
}

fn byte_is_ws(b: u8) -> (r: bool)
    ensures
        r == ws(b),
{
    b == 32 || b == 9 || b == 10 || b == 13
}

pub fn skip_ws(s: &Vec<u8>, pos: usize) -> (p: usize)
    requires
        pos <= s@.len(),
    ensures
        pos <= p <= s@.len(),
        p < s@.len() ==> !ws(s@[p as int]),
        forall|i: int| pos <= i < p ==> ws(s@[i]),
{
    let mut cur = pos;
    while cur < s.len() && byte_is_ws(s[cur])
        invariant
            pos <= cur <= s@.len(),
            forall|i: int| pos <= i < cur ==> ws(s@[i]),
        decreases s@.len() - cur,
    {
        cur += 1;
    }
    cur
}

/// The numeric value of a hexadecimal digit byte.
fn hex_val(b: u8) -> (r: Option<u8>)
    ensures
        match r {
            Some(v) => v < 16,
            None => true,
        },
{
    if 48 <= b && b <= 57 {
        Some(b - 48)
    } else if 97 <= b && b <= 102 {
        Some(b - 97 + 10)
    } else if 65 <= b && b <= 70 {
        Some(b - 65 + 10)
    } else {
        None
    }
}

/// Parse a JSON string starting at the opening quote; the result is the
/// decoded bytes and the position after the closing quote. Unicode escapes
/// are accepted only for byte-sized code points (`\u00XX`).
fn parse_string(s: &Vec<u8>, pos: usize) -> (r: Option<(Vec<u8>, usize)>)
    requires
        pos < s@.len(),
        s@[pos as int] == 34,
    ensures
        match r {
            Some(ve) => pos < ve.1 <= s@.len(),
            None => true,
        },
{
    let mut acc: Vec<u8> = Vec::new();
    let n = s.len();
    let mut cur = pos + 1;
    while cur < s.len()
        invariant
            n == s@.len(),
            pos < cur <= s@.len(),
        decreases s@.len() - cur,
    {
        let b = s[cur];
        if b == 34 {
            return Some((acc, cur + 1));
        } else if b == 92 {
            if cur + 1 >= s.len() {
                return None;
            }
            let e = s[cur + 1];
            if e == 110 {
                acc.push(10);
                cur = cur + 2;
            } else if e == 116 {
                acc.push(9);
                cur = cur + 2;
            } else if e == 114 {
                acc.push(13);
                cur = cur + 2;
            } else if e == 34 || e == 92 || e == 47 {
                acc.push(e);
                cur = cur + 2;
            } else if e == 98 {
                acc.push(8);
                cur = cur + 2;
            } else if e == 102 {
                acc.push(12);
                cur = cur + 2;
            } else if e == 117 {
                if s.len() - cur < 6 {
                    return None;
                }
                if s[cur + 2] != 48 || s[cur + 3] != 48 {
                    return None;
                }
                let h = hex_val(s[cur + 4]);
                let l = hex_val(s[cur + 5]);
                match (h, l) {
                    (Some(hv), Some(lv)) => {
                        acc.push(hv * 16 + lv);
                        cur = cur + 6;
                    },
                    _ => {
                        return None;
                    },
                }
            } else {
                return None;
            }
        } else {
            acc.push(b);
            cur = cur + 1;
        }
    }
    None
}

/// Parse one JSON value starting at `pos` (leading whitespace allowed).
pub fn parse_value(s: &Vec<u8>, pos: usize) -> (r: Option<(Json, usize)>)
    requires
        pos <= s@.len(),
    ensures
        match r {
            Some(ve) => pos < ve.1 <= s@.len(),
            None => true,
        },
    decreases s@.len() - pos, 1int,
{
    let p = skip_ws(s, pos);
    if p >= s.len() {
        return None;
    }
    let b = s[p];
    if b == 123 {
        parse_obj(s, p)
    } else if b == 91 {
        parse_arr(s, p)
    } else if b == 34 {
        match parse_string(s, p) {
            Some(sv) => Some((Json::Str(sv.0), sv.1)),
            None => None,
        }
    } else if b == 110 {
        if s.len() - p >= 4 && s[p + 1] == 117 && s[p + 2] == 108 && s[p + 3] == 108 {
            Some((Json::Null, p + 4))
        } else {
            None
        }
    } else if b == 116 {
        if s.len() - p >= 4 && s[p + 1] == 114 && s[p + 2] == 117 && s[p + 3] == 101 {
            Some((Json::Bool(true), p + 4))
        } else {
            None
        }
    } else if b == 102 {
        if s.len() - p >= 5 && s[p + 1] == 97 && s[p + 2] == 108 && s[p + 3] == 115 && s[p + 4]
            == 101 {
            Some((Json::Bool(false), p + 5))
        } else {
            None
        }
    } else if byte_is_num_first(b) {
        let e = scan_num(s, p);
        if e == p {
            return None;
        }
        let t = sub_vec(s, p, e);
        if is_num_token(&t) {
            Some((Json::Num(t), e))
        } else {
            None
        }
    } else {
        None
    }
}

/// Parse a JSON array starting at its `[`.
fn parse_arr(s: &Vec<u8>, pos: usize) -> (r: Option<(Json, usize)>)
    requires
        pos < s@.len(),
        s@[pos as int] == 91,
    ensures
        match r {
            Some(ve) => pos < ve.1 <= s@.len(),
            None => true,
        },
    decreases s@.len() - pos, 0int,
{
    let mut items: Vec<Json> = Vec::new();
    let n = s.len();
    let first = skip_ws(s, pos + 1);
    if first < s.len() && s[first] == 93 {
        return Some((Json::Arr(items), first + 1));
    }
    let mut cur = first;
    loop
        invariant
            pos < cur <= s@.len(),
        decreases s@.len() - cur,
    {
        match parse_value(s, cur) {
            None => {
                return None;
            },
            Some(ve) => {
                items.push(ve.0);
                let after = skip_ws(s, ve.1);
                if after >= s.len() {
                    return None;
                }
                if s[after] == 44 {
                    cur = after + 1;
                } else if s[after] == 93 {
                    return Some((Json::Arr(items), after + 1));
                } else {
                    return None;
                }
            },
        }
    }
}

/// Parse a JSON object starting at its `{`.
fn parse_obj(s: &Vec<u8>, pos: usize) -> (r: Option<(Json, usize)>)
    requires
        pos < s@.len(),
        s@[pos as int] == 123,
    ensures
        match r {
            Some(ve) => pos < ve.1 <= s@.len(),
            None => true,
        },
    decreases s@.len() - pos, 0int,
{
    let mut fields: Vec<(Vec<u8>, Json)> = Vec::new();
    let n = s.len();
    let first = skip_ws(s, pos + 1);
    if first < s.len() && s[first] == 125 {
        return Some((Json::Obj(fields), first + 1));
    }
    let mut cur = first;
    loop
        invariant
            pos < cur <= s@.len(),
        decreases s@.len() - cur,
    {
        let kstart = skip_ws(s, cur);
        if kstart >= s.len() {
            return None;
        }
        if s[kstart] != 34 {
            return None;
        }
        match parse_string(s, kstart) {
            None => {
                return None;
            },
            Some(ke) => {
                let colon = skip_ws(s, ke.1);
                if colon >= s.len() {
                    return None;
                }
                if s[colon] != 58 {
                    return None;
                }
                match parse_value(s, colon + 1) {
                    None => {
                        return None;
                    },
                    Some(ve) => {
                        fields.push((ke.0, ve.0));
                        let after = skip_ws(s, ve.1);
                        if after >= s.len() {
                            return None;
                        }
                        if s[after] == 44 {
                            cur = after + 1;
                        } else if s[after] == 125 {
                            return Some((Json::Obj(fields), after + 1));
                        } else {
                            return None;
                        }
                    },
                }
            },
        }
    }
}

/// Parse a whole document: one JSON value with only whitespace after it.
pub fn parse_doc(s: &Vec<u8>) -> (r: Option<Json>) {
    match parse_value(s, 0) {
        Some(ve) => {
            let p = skip_ws(s, ve.1);
            if p == s.len() {
                Some(ve.0)
            } else {
                None
            }
        },
        None => None,
    }
}

} // verus!
