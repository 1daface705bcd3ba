use vstd::prelude::*;
use crate::canon::{flat_line, lemma_flat_round_trip, parse_flat_line, spec_parse_flat, sub_vec};
use crate::json::{parse_doc, skip_ws, Json};
use crate::persist::lines_of;
use crate::record::{Dataset, EmbeddingRecord};
use crate::token::{all_num_tokens, is_num_token, num_token, tok_views};

verus! {

// ---- field names and sentinels ----

pub open spec fn key_embedding() -> Seq<u8> {
    seq![101u8, 109, 98, 101, 100, 100, 105, 110, 103]
}

pub open spec fn key_embeddings() -> Seq<u8> {
    key_embedding().push(115)
}

pub open spec fn key_label() -> Seq<u8> {
    seq![108u8, 97, 98, 101, 108]
}

pub open spec fn key_entry() -> Seq<u8> {
    seq![101u8, 110, 116, 114, 121]
}

pub open spec fn key_dataset() -> Seq<u8> {
    seq![100u8, 97, 116, 97, 115, 101, 116]
}

/// The legacy marker for "no corpus text available".
pub open spec fn sentinel_empty() -> Seq<u8> {
    seq![101u8, 109, 112, 116, 121]
}

pub fn key_embedding_vec() -> (k: Vec<u8>)
    ensures
        k@ == key_embedding(),
{
    let mut k: Vec<u8> = Vec::new();
    k.push(101);
    k.push(109);
    k.push(98);
    k.push(101);
    k.push(100);
    k.push(100);
    k.push(105);
    k.push(110);
    k.push(103);
    assert(k@ =~= key_embedding());
    k
}

fn key_embeddings_vec() -> (k: Vec<u8>)
    ensures
        k@ == key_embeddings(),
{
    let mut k = key_embedding_vec();
    k.push(115);
    k
}

fn key_label_vec() -> (k: Vec<u8>)
    ensures
        k@ == key_label(),
{
    let mut k: Vec<u8> = Vec::new();
    k.push(108);
    k.push(97);
    k.push(98);
    k.push(101);
    k.push(108);
    assert(k@ =~= key_label());
    k
}

fn key_entry_vec() -> (k: Vec<u8>)
    ensures
        k@ == key_entry(),
{
    let mut k: Vec<u8> = Vec::new();
    k.push(101);
    k.push(110);
    k.push(116);
    k.push(114);
    k.push(121);
    assert(k@ =~= key_entry());
    k
}

fn key_dataset_vec() -> (k: Vec<u8>)
    ensures
        k@ == key_dataset(),
{
    let mut k: Vec<u8> = Vec::new();
    k.push(100);
    k.push(97);
    k.push(116);
    k.push(97);
    k.push(115);
    k.push(101);
    k.push(116);
    assert(k@ =~= key_dataset());
    k
}

fn sentinel_empty_vec() -> (k: Vec<u8>)
    ensures
        k@ == sentinel_empty(),
{
    let mut k: Vec<u8> = Vec::new();
    k.push(101);
    k.push(109);
    k.push(112);
    k.push(116);
    k.push(121);
    assert(k@ =~= sentinel_empty());
    k
}

pub fn bytes_eq(a: &Vec<u8>, b: &Vec<u8>) -> (r: bool)
    ensures
        r == (a@ == b@),
{
    if a.len() != b.len() {
        return false;
    }
    let mut i: usize = 0;
    while i < a.len()
        invariant
            0 <= i <= a@.len(),
            a@.len() == b@.len(),
            forall|j: int| 0 <= j < i ==> a@[j] == b@[j],
        decreases a@.len() - i,
    {
        if a[i] != b[i] {
            return false;
        }
        i += 1;
    }
    assert(a@ =~= b@);
    true
}

/// Duplicate a byte vector.
pub fn clone_bytes(a: &Vec<u8>) -> (r: Vec<u8>)
    ensures
        r@ == a@,
{
    sub_vec(a, 0, a.len())
}

// ---- structural lookup ----

/// The value of the first field named `key`.
pub open spec fn obj_get(fields: Seq<(Vec<u8>, Json)>, key: Seq<u8>) -> Option<Json>
    decreases fields.len(),
{
    if fields.len() == 0 {
        None
    } else if fields[0].0@ == key {
        Some(fields[0].1)
    } else {
        obj_get(fields.drop_first(), key)
    }
}

pub fn obj_find<'a>(fields: &'a Vec<(Vec<u8>, Json)>, key: &Vec<u8>) -> (r: Option<&'a Json>)
    ensures
        match r {
            Some(v) => obj_get(fields@, key@) == Some(*v),
            None => obj_get(fields@, key@) is None,
        },
{
    let mut i: usize = 0;
    assert(fields@.skip(0) =~= fields@);
    while i < fields.len()
        invariant
            0 <= i <= fields@.len(),
            obj_get(fields@, key@) == obj_get(fields@.skip(i as int), key@),
        decreases fields@.len() - i,
    {
        proof {
            assert(fields@.skip(i as int)[0] == fields@[i as int]);
            assert(fields@.skip(i as int).drop_first() =~= fields@.skip(i + 1));
        }
        if bytes_eq(&fields[i].0, key) {
            return Some(&fields[i].1);
        }
        i += 1;
    }
    proof {
        assert(fields@.skip(fields@.len() as int).len() == 0);
    }
    None
}

// ---- numeric scalars of an array ----

/// The valid number tokens of a JSON array, in order; anything that is not a
/// number is dropped from the vector (the legacy behaviour of the loader).
pub open spec fn nums_of(vs: Seq<Json>) -> Seq<Seq<u8>>
    decreases vs.len(),
{
    if vs.len() == 0 {
        Seq::empty()
    } else {
        nums_of(vs.drop_last()) + (match vs.last() {
            Json::Num(t) => if num_token(t@) {
                seq![t@]
            } else {
                Seq::empty()
            },
            _ => Seq::empty(),
        })
    }
}

pub fn extract_nums(arr: &Vec<Json>) -> (out: Vec<Vec<u8>>)
    ensures
        tok_views(out@) == nums_of(arr@),
        all_num_tokens(tok_views(out@)),
{
    let mut out: Vec<Vec<u8>> = Vec::new();
    let mut i: usize = 0;
    while i < arr.len()
        invariant
            0 <= i <= arr@.len(),
            tok_views(out@) == nums_of(arr@.take(i as int)),
            all_num_tokens(tok_views(out@)),
        decreases arr@.len() - i,
    {
        proof {
            assert(arr@.take(i + 1).drop_last() =~= arr@.take(i as int));
            assert(arr@.take(i + 1).last() == arr@[i as int]);
        }
        let ghost pre = tok_views(out@);
        match &arr[i] {
            Json::Num(t) => {
                if is_num_token(t) {
                    let c = clone_bytes(t);
                    proof {
                        crate::canon::lemma_tok_views_push(out@, c);
                    }
                    out.push(c);
                    assert(tok_views(out@) =~= nums_of(arr@.take(i + 1)));
                } else {
                    assert(nums_of(arr@.take(i + 1)) =~= pre);
                }
            },
            _ => {
                assert(nums_of(arr@.take(i + 1)) =~= pre);
            },
        }
        i += 1;
    }
    assert(arr@.take(arr@.len() as int) =~= arr@);
    out
}

// ---- one record from one object ----

/// The label taken from a legacy tuple entry `entry: [text, label]`.
pub open spec fn entry_label(fields: Seq<(Vec<u8>, Json)>, ts: Seq<Seq<u8>>) -> Option<(
    Seq<Seq<u8>>,
    Seq<u8>,
)> {
    match obj_get(fields, key_entry()) {
        Some(v) => match v {
            Json::Arr(pair) => if pair@.len() == 2 {
                match pair@[1] {
                    Json::Num(t) => if num_token(t@) {
                        Some((ts, t@))
                    } else {
                        None
                    },
                    _ => None,
                }
            } else {
                None
            },
            _ => None,
        },
        None => None,
    }
}

/// The feature/label pair encoded by one JSON object, if it is one of the
/// two line-delimited record shapes (flat, or tuple-entry).
pub open spec fn rec_of_obj(fields: Seq<(Vec<u8>, Json)>) -> Option<(Seq<Seq<u8>>, Seq<u8>)> {
    match obj_get(fields, key_embedding()) {
        Some(e) => match e {
            Json::Arr(es) => {
                let ts = nums_of(es@);
                if ts.len() == 0 {
                    None
                } else {
                    match obj_get(fields, key_label()) {
                        Some(l) => match l {
                            Json::Num(t) => if num_token(t@) {
                                Some((ts, t@))
                            } else {
                                None
                            },
                            _ => entry_label(fields, ts),
                        },
                        None => entry_label(fields, ts),
                    }
                }
            },
            _ => None,
        },
        None => None,
    }
}

fn entry_label_exec(fields: &Vec<(Vec<u8>, Json)>, emb: Vec<Vec<u8>>) -> (r: Option<(
    Vec<Vec<u8>>,
    Vec<u8>,
)>)
    requires
        rec_of_obj(fields@) == entry_label(fields@, tok_views(emb@)),
    ensures
        match r {
            Some(p) => rec_of_obj(fields@) == Some((tok_views(p.0@), p.1@)) && p.0@ == emb@,
            None => rec_of_obj(fields@) is None,
        },
{
    let key = key_entry_vec();
    match obj_find(fields, &key) {
        Some(v) => match v {
            Json::Arr(pair) => {
                if pair.len() == 2 {
                    match &pair[1] {
                        Json::Num(t) => {
                            if is_num_token(t) {
                                let lt = clone_bytes(t);
                                Some((emb, lt))
                            } else {
                                None
                            }
                        },
                        _ => None,
                    }
                } else {
                    None
                }
            },
            _ => None,
        },
        None => None,
    }
}

pub fn rec_of_obj_exec(fields: &Vec<(Vec<u8>, Json)>) -> (r: Option<(Vec<Vec<u8>>, Vec<u8>)>)
    ensures
        match r {
            Some(p) => rec_of_obj(fields@) == Some((tok_views(p.0@), p.1@)) && p.0@.len() > 0
                && all_num_tokens(tok_views(p.0@)) && num_token(p.1@),
            None => rec_of_obj(fields@) is None,
        },
{
    let key_e = key_embedding_vec();
    match obj_find(fields, &key_e) {
        Some(e) => match e {
            Json::Arr(es) => {
                let emb = extract_nums(es);
                if emb.len() == 0 {
                    return None;
                }
                let key_l = key_label_vec();
                match obj_find(fields, &key_l) {
                    Some(l) => match l {
                        Json::Num(t) => {
                            if is_num_token(t) {
                                let lt = clone_bytes(t);
                                Some((emb, lt))
                            } else {
                                None
                            }
                        },
                        _ => entry_label_exec(fields, emb),
                    },
                    None => entry_label_exec(fields, emb),
                }
            },
            _ => None,
        },
        None => None,
    }
}

// ---- aggregate documents ----

/// One index-aligned pair of a legacy aggregate document:
/// included only when the embedding has scalars, the dataset entry is a
/// two-element tuple, and its text is not the `"empty"` sentinel.
pub open spec fn agg_pair_at(e: Json, d: Json) -> Option<(Seq<Seq<u8>>, Seq<u8>)> {
    match e {
        Json::Arr(es) => {
            let ts = nums_of(es@);
            if ts.len() == 0 {
                None
            } else {
                match d {
                    Json::Arr(pd) => if pd@.len() == 2 {
                        match pd@[0] {
                            Json::Str(t) => if t@ == sentinel_empty() {
                                None
                            } else {
                                match pd@[1] {
                                    Json::Num(lt) => if num_token(lt@) {
                                        Some((ts, lt@))
                                    } else {
                                        None
                                    },
                                    _ => None,
                                }
                            },
                            _ => None,
                        }
                    } else {
                        None
                    },
                    _ => None,
                }
            }
        },
        _ => None,
    }
}

/// The pairs of the first `n` aligned entries of an aggregate document.
pub open spec fn agg_pairs(es: Seq<Json>, ds: Seq<Json>, n: int) -> Seq<(Seq<Seq<u8>>, Seq<u8>)>
    decreases n,
{
    if n <= 0 {
        Seq::empty()
    } else {
        agg_pairs(es, ds, n - 1) + (match agg_pair_at(es[n - 1], ds[n - 1]) {
            Some(p) => seq![p],
            None => Seq::empty(),
        })
    }
}

/// The views of a vector of feature/label pairs.
pub open spec fn pair_views(s: Seq<(Vec<Vec<u8>>, Vec<u8>)>) -> Seq<(Seq<Seq<u8>>, Seq<u8>)> {
    Seq::new(s.len(), |i: int| (tok_views(s[i].0@), s[i].1@))
}

/// Every entry has a non-empty feature vector of number tokens and a
/// number-token label.
pub open spec fn entries_wf(s: Seq<(Seq<Seq<u8>>, Seq<u8>)>) -> bool {
    forall|i: int| 0 <= i < s.len() ==> (#[trigger] s[i]).0.len() > 0 && all_num_tokens(s[i].0)
        && num_token(s[i].1)
}

pub proof fn lemma_pair_views_push(s: Seq<(Vec<Vec<u8>>, Vec<u8>)>, p: (Vec<Vec<u8>>, Vec<u8>))
    ensures
        pair_views(s.push(p)) == pair_views(s) + seq![(tok_views(p.0@), p.1@)],
{
    assert(pair_views(s.push(p)) =~= pair_views(s) + seq![(tok_views(p.0@), p.1@)]);
}

fn agg_pair_at_exec(e: &Json, d: &Json, sentinel: &Vec<u8>) -> (r: Option<(Vec<Vec<u8>>, Vec<u8>)>)
    requires
        sentinel@ == sentinel_empty(),
    ensures
        match r {
            Some(p) => agg_pair_at(*e, *d) == Some((tok_views(p.0@), p.1@)),
            None => agg_pair_at(*e, *d) is None,
        },
{
    match e {
        Json::Arr(es) => {
            let emb = extract_nums(es);
            if emb.len() == 0 {
                return None;
            }
            match d {
                Json::Arr(pd) => {
                    if pd.len() == 2 {
                        match &pd[0] {
                            Json::Str(t) => {
                                if bytes_eq(t, sentinel) {
                                    None
                                } else {
                                    match &pd[1] {
                                        Json::Num(lt) => {
                                            if is_num_token(lt) {
                                                let c = clone_bytes(lt);
                                                Some((emb, c))
                                            } else {
                                                None
                                            }
                                        },
                                        _ => None,
                                    }
                                }
                            },
                            _ => None,
                        }
                    } else {
                        None
                    }
                },
                _ => None,
            }
        },
        _ => None,
    }
}

fn extract_agg(es: &Vec<Json>, ds: &Vec<Json>) -> (out: Vec<(Vec<Vec<u8>>, Vec<u8>)>)
    ensures
        pair_views(out@) == agg_pairs(es@, ds@, if es@.len() <= ds@.len() {
            es@.len() as int
        } else {
            ds@.len() as int
        }),
{
    let n = if es.len() <= ds.len() {
        es.len()
    } else {
        ds.len()
    };
    let sentinel = sentinel_empty_vec();
    let mut out: Vec<(Vec<Vec<u8>>, Vec<u8>)> = Vec::new();
    let mut i: usize = 0;
    while i < n
        invariant
            0 <= i <= n,
            n <= es@.len(),
            n <= ds@.len(),
            sentinel@ == sentinel_empty(),
            pair_views(out@) == agg_pairs(es@, ds@, i as int),
        decreases n - i,
    {
        let ghost pre = pair_views(out@);
        match agg_pair_at_exec(&es[i], &ds[i], &sentinel) {
            Some(p) => {
                proof {
                    lemma_pair_views_push(out@, p);
                }
                out.push(p);
                assert(pair_views(out@) =~= agg_pairs(es@, ds@, i + 1));
            },
            None => {
                assert(agg_pairs(es@, ds@, i + 1) =~= pre);
            },
        }
        i += 1;
    }
    out
}

// ---- one parsed document or line to entries ----

pub open spec fn arr_entries(es: Seq<Json>) -> Seq<(Seq<Seq<u8>>, Seq<u8>)>
    decreases es.len(),
{
    if es.len() == 0 {
        Seq::empty()
    } else {
        arr_entries(es.drop_last()) + (match es.last() {
            Json::Obj(fields) => match rec_of_obj(fields@) {
                Some(p) => seq![p],
                None => Seq::empty(),
            },
            _ => Seq::empty(),
        })
    }
}

/// The feature/label entries of one parsed JSON value, whatever of the
/// historically used shapes it has: an aggregate object, a single record
/// object, or an array of record objects.
pub open spec fn entries_of(j: Json) -> Seq<(Seq<Seq<u8>>, Seq<u8>)> {
    match j {
        Json::Obj(fields) => match obj_get(fields@, key_embeddings()) {
            Some(ev) => match ev {
                Json::Arr(es) => match obj_get(fields@, key_dataset()) {
                    Some(dv) => match dv {
                        Json::Arr(ds) => agg_pairs(es@, ds@, if es@.len() <= ds@.len() {
                            es@.len() as int
                        } else {
                            ds@.len() as int
                        }),
                        _ => Seq::empty(),
                    },
                    None => Seq::empty(),
                },
                _ => Seq::empty(),
            },
            None => match rec_of_obj(fields@) {
                Some(p) => seq![p],
                None => Seq::empty(),
            },
        },
        Json::Arr(elems) => arr_entries(elems@),
        _ => Seq::empty(),
    }
}

pub fn extract_entries(j: &Json) -> (out: Vec<(Vec<Vec<u8>>, Vec<u8>)>)
    ensures
        pair_views(out@) == entries_of(*j),
        entries_wf(pair_views(out@)),
{
    let mut out: Vec<(Vec<Vec<u8>>, Vec<u8>)> = Vec::new();
    match j {
        Json::Obj(fields) => {
            let key_es = key_embeddings_vec();
            match obj_find(fields, &key_es) {
                Some(ev) => match ev {
                    Json::Arr(es) => {
                        let key_d = key_dataset_vec();
                        match obj_find(fields, &key_d) {
                            Some(dv) => match dv {
                                Json::Arr(ds) => {
                                    let r = extract_agg(es, ds);
                                    proof {
                                        lemma_agg_pairs_wf(es@, ds@, if es@.len() <= ds@.len() {
                                            es@.len() as int
                                        } else {
                                            ds@.len() as int
                                        });
                                    }
                                    return r;
                                },
                                _ => {},
                            },
                            None => {},
                        }
                    },
                    _ => {},
                },
                None => {
                    match rec_of_obj_exec(fields) {
                        Some(p) => {
                            proof {
                                lemma_pair_views_push(out@, p);
                            }
                            out.push(p);
                            assert(pair_views(out@) =~= entries_of(*j));
                        },
                        None => {},
                    }
                },
            }
        },
        Json::Arr(elems) => {
            let mut i: usize = 0;
            while i < elems.len()
                invariant
                    0 <= i <= elems@.len(),
                    pair_views(out@) == arr_entries(elems@.take(i as int)),
                    entries_wf(pair_views(out@)),
                decreases elems@.len() - i,
            {
                proof {
                    assert(elems@.take(i + 1).drop_last() =~= elems@.take(i as int));
                    assert(elems@.take(i + 1).last() == elems@[i as int]);
                }
                let ghost pre = pair_views(out@);
                match &elems[i] {
                    Json::Obj(fields) => {
                        match rec_of_obj_exec(fields) {
                            Some(p) => {
                                proof {
                                    lemma_pair_views_push(out@, p);
                                }
                                out.push(p);
                                assert(pair_views(out@) =~= arr_entries(elems@.take(i + 1)));
                            },
                            None => {
                                assert(arr_entries(elems@.take(i + 1)) =~= pre);
                            },
                        }
                    },
                    _ => {
                        assert(arr_entries(elems@.take(i + 1)) =~= pre);
                    },
                }
                i += 1;
            }
            assert(elems@.take(elems@.len() as int) =~= elems@);
        },
        _ => {},
    }
    out
}

/// Every pair an aggregate document yields is well formed.
pub proof fn lemma_agg_pairs_wf(es: Seq<Json>, ds: Seq<Json>, n: int)
    ensures
        entries_wf(agg_pairs(es, ds, n)),
    decreases n,
{
    if n > 0 {
        lemma_agg_pairs_wf(es, ds, n - 1);
        let prev = agg_pairs(es, ds, n - 1);
        let cur = agg_pairs(es, ds, n);
        assert forall|i: int| 0 <= i < cur.len() implies (#[trigger] cur[i]).0.len() > 0
            && all_num_tokens(cur[i].0) && num_token(cur[i].1) by {
            if i < prev.len() {
                assert(cur[i] == prev[i]);
            } else {
                lemma_nums_wf_of_pair(es[n - 1], ds[n - 1]);
            }
        }
    }
}

/// What `agg_pair_at` yields is well formed.
proof fn lemma_nums_wf_of_pair(e: Json, d: Json)
    ensures
        match agg_pair_at(e, d) {
            Some(p) => p.0.len() > 0 && all_num_tokens(p.0) && num_token(p.1),
            None => true,
        },
{
    match e {
        Json::Arr(es) => {
            lemma_nums_of_wf(es@);
        },
        _ => {},
    }
}

/// Every token `nums_of` keeps is a valid number token.
pub proof fn lemma_nums_of_wf(vs: Seq<Json>)
    ensures
        all_num_tokens(nums_of(vs)),
    decreases vs.len(),
{
    if vs.len() > 0 {
        lemma_nums_of_wf(vs.drop_last());
        let prev = nums_of(vs.drop_last());
        let cur = nums_of(vs);
        assert forall|i: int| 0 <= i < cur.len() implies num_token(#[trigger] cur[i]) by {
            if i < prev.len() {
                assert(cur[i] == prev[i]);
            }
        }
    }
}

// ---- lines and whole sources ----

/// Split a byte sequence at newline bytes, taken byte by byte: always one
/// fragment more than there are newlines.
pub open spec fn spec_split(s: Seq<u8>, pos: int) -> Seq<Seq<u8>>
    decreases s.len() - pos,
    when 0 <= pos <= s.len()
{
    if pos >= s.len() {
        seq![Seq::<u8>::empty()]
    } else if s[pos] == 10 {
        seq![Seq::<u8>::empty()] + spec_split(s, pos + 1)
    } else {
        let rest = spec_split(s, pos + 1);
        seq![seq![s[pos]] + rest[0]] + rest.drop_first()
    }
}

pub proof fn lemma_spec_split_len(s: Seq<u8>, pos: int)
    requires
        0 <= pos <= s.len(),
    ensures
        spec_split(s, pos).len() >= 1,
    decreases s.len() - pos,
{
    if pos < s.len() {
        lemma_spec_split_len(s, pos + 1);
    }
}

/// A run without newlines forms the head of the first fragment.
proof fn lemma_split_seg(s: Seq<u8>, start: int, cur: int)
    requires
        0 <= start <= cur <= s.len(),
        forall|i: int| start <= i < cur ==> s[i] != 10,
    ensures
        spec_split(s, start) == seq![s.subrange(start, cur) + spec_split(s, cur)[0]] + spec_split(
            s,
            cur,
        ).drop_first(),
    decreases cur - start,
{
    lemma_spec_split_len(s, cur);
    let rest = spec_split(s, cur);
    if start == cur {
        assert(s.subrange(start, cur) =~= Seq::<u8>::empty());
        assert(Seq::<u8>::empty() + rest[0] =~= rest[0]);
        assert(seq![rest[0]] + rest.drop_first() =~= rest);
    } else {
        lemma_split_seg(s, start + 1, cur);
        let mid = spec_split(s, start + 1);
        assert(mid[0] == s.subrange(start + 1, cur) + rest[0]);
        assert(mid.drop_first() =~= rest.drop_first());
        assert(seq![s[start]] + (s.subrange(start + 1, cur) + rest[0]) =~= s.subrange(start, cur)
            + rest[0]);
    }
}

/// Splitting joined newline-free parts recovers them, plus one empty
/// trailing fragment from the final newline.
pub proof fn lemma_split_of_join(s: Seq<u8>, pos: int, parts: Seq<Seq<u8>>)
    requires
        0 <= pos <= s.len(),
        s.subrange(pos, s.len() as int) == crate::persist::join_nl(parts),
        forall|k: int, j: int| 0 <= k < parts.len() && 0 <= j < parts[k].len()
            ==> #[trigger] parts[k][j] != 10,
    ensures
        spec_split(s, pos) == parts + seq![Seq::<u8>::empty()],
    decreases parts.len(),
{
    let whole = crate::persist::join_nl(parts);
    if parts.len() == 0 {
        assert(whole.len() == 0);
        assert(pos == s.len());
        assert(parts + seq![Seq::<u8>::empty()] =~= seq![Seq::<u8>::empty()]);
    } else {
        let p0 = parts[0];
        let l0 = p0.len() as int;
        let tail = crate::persist::join_nl(parts.drop_first());
        assert(whole == (p0 + seq![10u8]) + tail);
        assert(s.len() - pos == l0 + 1 + tail.len());
        assert forall|i: int| pos <= i < pos + l0 implies #[trigger] s[i] == p0[i - pos] by {
            assert(s.subrange(pos, s.len() as int)[i - pos] == s[i]);
            assert(whole[i - pos] == (p0 + seq![10u8])[i - pos]);
        }
        assert forall|i: int| pos <= i < pos + l0 implies #[trigger] s[i] != 10 by {
            assert(s[i] == p0[i - pos]);
        }
        assert(s[pos + l0] == 10) by {
            assert(s.subrange(pos, s.len() as int)[l0] == s[pos + l0]);
            assert(whole[l0] == (p0 + seq![10u8])[l0]);
        }
        lemma_split_seg(s, pos, pos + l0);
        lemma_spec_split_len(s, pos + l0 + 1);
        let rest = spec_split(s, pos + l0);
        assert(rest == seq![Seq::<u8>::empty()] + spec_split(s, pos + l0 + 1));
        assert(rest[0] == Seq::<u8>::empty());
        assert(rest.drop_first() =~= spec_split(s, pos + l0 + 1));
        assert(s.subrange(pos + l0 + 1, s.len() as int) =~= tail) by {
            assert forall|k: int| 0 <= k < tail.len() implies #[trigger] s.subrange(
                pos + l0 + 1,
                s.len() as int,
            )[k] == tail[k] by {
                assert(s.subrange(pos + l0 + 1, s.len() as int)[k] == s[pos + l0 + 1 + k]);
                assert(s.subrange(pos, s.len() as int)[l0 + 1 + k] == s[pos + l0 + 1 + k]);
                assert(whole[l0 + 1 + k] == tail[k]);
            }
        }
        assert forall|k: int, j: int|
            0 <= k < parts.drop_first().len() && 0 <= j < parts.drop_first()[k].len()
            implies #[trigger] parts.drop_first()[k][j] != 10 by {
            assert(parts.drop_first()[k] == parts[k + 1]);
            assert(parts[k + 1][j] != 10);
        }
        lemma_split_of_join(s, pos + l0 + 1, parts.drop_first());
        assert(s.subrange(pos, pos + l0) =~= p0);
        assert(s.subrange(pos, pos + l0) + Seq::<u8>::empty() =~= p0);
        assert(seq![p0] + (parts.drop_first() + seq![Seq::<u8>::empty()]) =~= parts + seq![
            Seq::<u8>::empty(),
        ]);
    }
}

/// Split a byte stream at newlines.
fn split_lines(s: &Vec<u8>) -> (lines: Vec<Vec<u8>>)
    ensures
        tok_views(lines@) == spec_split(s@, 0),
{
    let mut lines: Vec<Vec<u8>> = Vec::new();
    let mut start: usize = 0;
    let mut cur: usize = 0;
    assert(tok_views(lines@) + spec_split(s@, 0) =~= spec_split(s@, 0));
    while cur < s.len()
        invariant
            0 <= start <= cur <= s@.len(),
            forall|i: int| start <= i < cur ==> s@[i] != 10,
            spec_split(s@, 0) == tok_views(lines@) + spec_split(s@, start as int),
        decreases s@.len() - cur,
    {
        if s[cur] == 10 {
            proof {
                lemma_split_seg(s@, start as int, cur as int);
                lemma_spec_split_len(s@, cur + 1);
            }
            let frag = sub_vec(s, start, cur);
            let ghost fv = frag@;
            proof {
                crate::canon::lemma_tok_views_push(lines@, frag);
                let rest = spec_split(s@, cur as int);
                assert(rest == seq![Seq::<u8>::empty()] + spec_split(s@, cur + 1));
                assert(rest[0] == Seq::<u8>::empty());
                assert(rest.drop_first() =~= spec_split(s@, cur + 1));
                assert(fv + Seq::<u8>::empty() =~= fv);
                assert(spec_split(s@, start as int) == seq![fv] + spec_split(s@, cur + 1));
            }
            lines.push(frag);
            proof {
                assert(spec_split(s@, 0) =~= tok_views(lines@) + spec_split(s@, cur + 1));
            }
            start = cur + 1;
        }
        cur += 1;
    }
    proof {
        lemma_split_seg(s@, start as int, s@.len() as int);
        let rest = spec_split(s@, s@.len() as int);
        assert(rest == seq![Seq::<u8>::empty()]);
        assert(rest[0] == Seq::<u8>::empty());
        assert(rest.drop_first() =~= Seq::<Seq<u8>>::empty());
        assert(s@.subrange(start as int, s@.len() as int) + Seq::<u8>::empty() =~= s@.subrange(
            start as int,
            s@.len() as int,
        ));
    }
    let last = sub_vec(s, start, s.len());
    proof {
        crate::canon::lemma_tok_views_push(lines@, last);
        assert(spec_split(s@, start as int) =~= seq![last@]);
    }
    lines.push(last);
    proof {
        assert(spec_split(s@, 0) =~= tok_views(lines@));
    }
    lines
}

/// Decode one line of a persisted file. A line in the canonical flat format
/// yields exactly the embedding tokens and label it was written from; other
/// shapes are probed structurally, and a line that parses as nothing usable
/// yields no entries rather than failing the load.
pub fn load_line(line: &Vec<u8>) -> (out: Vec<(Vec<Vec<u8>>, Vec<u8>)>)
    ensures
        entries_wf(pair_views(out@)),
        forall|ts: Seq<Seq<u8>>, l: Seq<u8>|
            ts.len() > 0 && all_num_tokens(ts) && num_token(l) && line@ == #[trigger] flat_line(
                ts,
                l,
            ) ==> pair_views(out@) == seq![(ts, l)],
{
    match parse_flat_line(line) {
        Some(p) => {
            let mut out: Vec<(Vec<Vec<u8>>, Vec<u8>)> = Vec::new();
            proof {
                lemma_pair_views_push(out@, p);
            }
            let ghost pv = (tok_views(p.0@), p.1@);
            out.push(p);
            assert(pair_views(out@) =~= seq![pv]);
            proof {
                assert forall|ts: Seq<Seq<u8>>, l: Seq<u8>|
                    ts.len() > 0 && all_num_tokens(ts) && num_token(l) && line@
                        == #[trigger] flat_line(ts, l) implies pair_views(out@) == seq![
                    (ts, l),
                ] by {
                    lemma_flat_round_trip(ts, l);
                    assert(spec_parse_flat(line@) == Some((ts, l)));
                    assert(pair_views(out@) =~= seq![(ts, l)]);
                }
            }
            out
        },
        None => {
            let out = match parse_doc(line) {
                Some(j) => extract_entries(&j),
                None => Vec::new(),
            };
            proof {
                assert forall|ts: Seq<Seq<u8>>, l: Seq<u8>|
                    ts.len() > 0 && all_num_tokens(ts) && num_token(l) && line@
                        == #[trigger] flat_line(ts, l) implies pair_views(out@) == seq![
                    (ts, l),
                ] by {
                    lemma_flat_round_trip(ts, l);
                }
            }
            out
        },
    }
}

/// Append entries to a dataset, keeping index alignment.
pub fn push_entries(d: &mut Dataset, es: Vec<(Vec<Vec<u8>>, Vec<u8>)>)
    requires
        old(d).wf(),
        entries_wf(old(d).pairs()),
        entries_wf(pair_views(es@)),
    ensures
        final(d).wf(),
        final(d).pairs() == old(d).pairs() + pair_views(es@),
        entries_wf(final(d).pairs()),
{
    let ghost all = es@;
    let mut es = es;
    let ghost base = d.pairs();
    assert(base + pair_views(all.take(0)) =~= base);
    let n = es.len();
    let mut i: usize = 0;
    while i < n
        invariant
            0 <= i <= n == all.len(),
            es@ == all.skip(i as int),
            d.wf(),
            d.pairs() == base + pair_views(all.take(i as int)),
            entries_wf(base),
            entries_wf(pair_views(all)),
        decreases all.len() - i,
    {
        proof {
            assert(all.skip(i as int)[0] == all[i as int]);
            assert(all.skip(i as int).remove(0) =~= all.skip(i + 1));
        }
        let p = es.remove(0);
        d.push_pair(p.0, p.1);
        proof {
            assert(all.take(i + 1) =~= all.take(i as int).push(all[i as int]));
            lemma_pair_views_push(all.take(i as int), all[i as int]);
            assert(d.pairs() =~= base + pair_views(all.take(i + 1)));
        }
        i += 1;
    }
    proof {
        assert(all.take(all.len() as int) =~= all);
        assert forall|k: int| 0 <= k < d.pairs().len() implies (#[trigger] d.pairs()[k]).0.len() > 0
            && all_num_tokens(d.pairs()[k].0) && num_token(d.pairs()[k].1) by {
            if k < base.len() {
                assert(d.pairs()[k] == base[k]);
            } else {
                assert(d.pairs()[k] == pair_views(all)[k - base.len()]);
            }
        }
    }
}

/// The (feature views, label view) pairs of a run of records.
pub open spec fn rec_pairs(rs: Seq<EmbeddingRecord>) -> Seq<(Seq<Seq<u8>>, Seq<u8>)> {
    Seq::new(rs.len(), |i: int| (tok_views(rs[i].embedding@), rs[i].label@))
}

pub open spec fn wf_records(rs: Seq<EmbeddingRecord>) -> bool {
    forall|i: int| 0 <= i < rs.len() ==> (#[trigger] rs[i]).wf()
}

/// The stream written for a non-empty run of records starts with the `{`
/// that opens its first canonical line.
proof fn lemma_persisted_first_byte(rs: Seq<EmbeddingRecord>, contents: Seq<u8>)
    requires
        wf_records(rs),
        rs.len() > 0,
        contents == crate::persist::join_nl(lines_of(rs)),
    ensures
        contents.len() > 0,
        contents[0] == 123,
        !crate::json::ws(contents[0]),
{
    let parts = lines_of(rs);
    assert(parts[0] == rs[0].line_view());
    assert(rs[0].wf());
    let ts0 = tok_views(rs[0].embedding@);
    let l0 = rs[0].label@;
    assert(parts[0].len() >= 14);
    crate::canon::lemma_flat_line_index(ts0, l0, 0);
    assert(crate::canon::flat_prefix()[0] == 123);
    assert(contents == (parts[0] + seq![10u8]) + crate::persist::join_nl(parts.drop_first()));
    assert(contents[0] == (parts[0] + seq![10u8])[0]);
    assert(contents[0] == parts[0][0]);
}

/// Canonical lines hold no newline byte.
proof fn lemma_persisted_lines_no_nl(rs: Seq<EmbeddingRecord>)
    requires
        wf_records(rs),
    ensures
        forall|k: int, j: int| 0 <= k < lines_of(rs).len() && 0 <= j < lines_of(rs)[k].len()
            ==> #[trigger] lines_of(rs)[k][j] != 10,
{
    assert forall|k: int, j: int|
        0 <= k < lines_of(rs).len() && 0 <= j < lines_of(rs)[k].len() implies #[trigger] lines_of(
        rs,
    )[k][j] != 10 by {
        assert(lines_of(rs)[k] == rs[k].line_view());
        assert(rs[k].wf());
        crate::canon::lemma_flat_line_no_nl(tok_views(rs[k].embedding@), rs[k].label@);
        assert(flat_line(tok_views(rs[k].embedding@), rs[k].label@)[j] != 10);
    }
}

/// Load one persisted source. The encoding is probed structurally: a
/// document that is a JSON array, newline-delimited records (flat or
/// tuple-entry), a single-line aggregate document, or, when no line yields
/// anything, a whole-document parse (a pretty-printed aggregate). Malformed
/// lines are skipped; they never abort the load. A stream that is exactly
/// what the persister wrote for a run of records loads back to exactly
/// those records' features and labels, in order.
pub fn load_bytes(contents: &Vec<u8>) -> (d: Dataset)
    ensures
        d.wf(),
        entries_wf(d.pairs()),
        forall|rs: Seq<EmbeddingRecord>| wf_records(rs) && contents@ == #[trigger] crate::persist::join_nl(
            lines_of(rs),
        ) ==> d.pairs() == rec_pairs(rs),
{
    let mut d = Dataset::empty();
    assert(d.pairs() =~= Seq::<(Seq<Seq<u8>>, Seq<u8>)>::empty());
    let start = skip_ws(contents, 0);
    if start >= contents.len() {
        proof {
            assert forall|rs: Seq<EmbeddingRecord>|
                wf_records(rs) && contents@ == #[trigger] crate::persist::join_nl(lines_of(rs))
                implies d.pairs() == rec_pairs(rs) by {
                if rs.len() > 0 {
                    lemma_persisted_first_byte(rs, contents@);
                }
                assert(rs.len() == 0);
                assert(d.pairs() =~= rec_pairs(rs));
            }
        }
        return d;
    }
    if contents[start] == 91 {
        // a whole-document JSON array
        match parse_doc(contents) {
            Some(j) => {
                let es = extract_entries(&j);
                push_entries(&mut d, es);
            },
            None => {},
        }
        proof {
            assert forall|rs: Seq<EmbeddingRecord>|
                wf_records(rs) && contents@ == #[trigger] crate::persist::join_nl(lines_of(rs))
                implies d.pairs() == rec_pairs(rs) by {
                if rs.len() > 0 {
                    lemma_persisted_first_byte(rs, contents@);
                    assert(contents@[start as int] == 91);
                    if start > 0 {
                        assert(crate::json::ws(contents@[0]));
                    }
                    assert(false);
                } else {
                    assert(contents@.len() == 0);
                }
            }
        }
        return d;
    }
    let lines = split_lines(contents);
    let ghost lv = tok_views(lines@);
    proof {
        assert forall|rs: Seq<EmbeddingRecord>|
            wf_records(rs) && contents@ == #[trigger] crate::persist::join_nl(lines_of(rs))
            implies lv == lines_of(rs) + seq![Seq::<u8>::empty()] by {
            lemma_persisted_lines_no_nl(rs);
            assert(contents@.subrange(0, contents@.len() as int) =~= contents@);
            lemma_split_of_join(contents@, 0, lines_of(rs));
        }
    }
    let n = lines.len();
    let mut k: usize = 0;
    while k < n
        invariant
            0 <= k <= n == lines@.len(),
            lv == tok_views(lines@),
            d.wf(),
            entries_wf(d.pairs()),
            forall|rs: Seq<EmbeddingRecord>|
                wf_records(rs) && lv == #[trigger] lines_of(rs) + seq![Seq::<u8>::empty()] ==> {
                    &&& lines_of(rs).len() + 1 == lv.len()
                    &&& d.pairs() == rec_pairs(rs).take(
                        if k as int <= rs.len() as int { k as int } else { rs.len() as int },
                    )
                },
        decreases n - k,
    {
        let nonempty = lines[k].len() > 0;
        let ghost d_pre = d.pairs();
        if nonempty {
            let es = load_line(&lines[k]);
            push_entries(&mut d, es);
        }
        proof {
            assert forall|rs: Seq<EmbeddingRecord>|
                wf_records(rs) && lv == #[trigger] lines_of(rs) + seq![Seq::<u8>::empty()]
                implies d.pairs() == rec_pairs(rs).take(
                if k + 1 <= rs.len() as int { k + 1 } else { rs.len() as int },
            ) by {
                let m = rs.len() as int;
                assert(lv[k as int] == lines@[k as int]@);
                if (k as int) < m {
                    let ts = tok_views(rs[k as int].embedding@);
                    let l = rs[k as int].label@;
                    assert(rs[k as int].wf());
                    assert(lv[k as int] == lines_of(rs)[k as int]);
                    assert(lines@[k as int]@ == flat_line(ts, l));
                    assert(lines@[k as int]@.len() > 0);
                    assert(nonempty);
                    assert(d_pre == rec_pairs(rs).take(k as int));
                    assert(d.pairs() == d_pre + seq![(ts, l)]);
                    assert(rec_pairs(rs).take(k + 1) =~= rec_pairs(rs).take(k as int).push(
                        (ts, l),
                    ));
                    assert(d.pairs() =~= rec_pairs(rs).take(k + 1));
                } else {
                    assert(k as int == m);
                    assert(lv[k as int] == Seq::<u8>::empty());
                    assert(lines@[k as int]@.len() == 0);
                    assert(!nonempty);
                    assert(d.pairs() == d_pre);
                }
            }
        }
        k += 1;
    }
    if d.len() == 0 {
        let ghost d_mid = d.pairs();
        match parse_doc(contents) {
            Some(j) => {
                let es = extract_entries(&j);
                push_entries(&mut d, es);
            },
            None => {},
        }
        proof {
            assert forall|rs: Seq<EmbeddingRecord>|
                wf_records(rs) && contents@ == #[trigger] crate::persist::join_nl(lines_of(rs))
                implies d.pairs() == rec_pairs(rs) by {
                if rs.len() > 0 {
                    assert(lv == lines_of(rs) + seq![Seq::<u8>::empty()]);
                    assert(d_mid == rec_pairs(rs).take(rs.len() as int));
                    assert(rec_pairs(rs).take(rs.len() as int) =~= rec_pairs(rs));
                    assert(d_mid.len() == rs.len());
                    assert(false);
                } else {
                    assert(contents@.len() == 0);
                }
            }
        }
        return d;
    }
    proof {
        assert forall|rs: Seq<EmbeddingRecord>|
            wf_records(rs) && contents@ == #[trigger] crate::persist::join_nl(lines_of(rs))
            implies d.pairs() == rec_pairs(rs) by {
            assert(lv == lines_of(rs) + seq![Seq::<u8>::empty()]);
            assert(d.pairs() == rec_pairs(rs).take(
                if n as int <= rs.len() as int { n as int } else { rs.len() as int },
            ));
            assert(rec_pairs(rs).take(rs.len() as int) =~= rec_pairs(rs));
        }
    }
    d
}

/// Load several persisted sources; their entries are concatenated in the
/// order the sources are given.
/// The pairs of several record runs, concatenated in the order given.
pub open spec fn concat_rec_pairs(rss: Seq<Seq<EmbeddingRecord>>) -> Seq<(Seq<Seq<u8>>, Seq<u8>)>
    decreases rss.len(),
{
    if rss.len() == 0 {
        Seq::empty()
    } else {
        concat_rec_pairs(rss.drop_last()) + rec_pairs(rss.last())
    }
}

pub proof fn lemma_concat_rec_pairs_snoc(rss: Seq<Seq<EmbeddingRecord>>, x: Seq<EmbeddingRecord>)
    ensures
        concat_rec_pairs(rss.push(x)) == concat_rec_pairs(rss) + rec_pairs(x),
{
    assert(rss.push(x).drop_last() =~= rss);
    assert(rss.push(x).last() == x);
}

/// What it means for the sources to be exactly the persisted streams of the
/// record runs `rss`, source for source.
pub open spec fn sources_hold_runs(sources: Seq<Vec<u8>>, rss: Seq<Seq<EmbeddingRecord>>) -> bool {
    &&& rss.len() == sources.len()
    &&& forall|i: int| 0 <= i < rss.len() ==> wf_records(#[trigger] rss[i]) && sources[i]@
        == crate::persist::join_nl(lines_of(rss[i]))
}

/// Load several persisted sources; their entries are concatenated in the
/// order the sources are given. Sources that are exactly what the persister
/// wrote for record runs load back to exactly those runs' pairs, run after
/// run.
pub fn load_many(sources: &Vec<Vec<u8>>) -> (d: Dataset)
    ensures
        d.wf(),
        entries_wf(d.pairs()),
        forall|rss: Seq<Seq<EmbeddingRecord>>| sources_hold_runs(sources@, rss) ==> d.pairs()
            == #[trigger] concat_rec_pairs(rss),
{
    let mut d = Dataset::empty();
    assert(d.pairs() =~= Seq::<(Seq<Seq<u8>>, Seq<u8>)>::empty());
    let n = sources.len();
    let mut k: usize = 0;
    while k < n
        invariant
            0 <= k <= n == sources@.len(),
            d.wf(),
            entries_wf(d.pairs()),
            forall|rss: Seq<Seq<EmbeddingRecord>>| sources_hold_runs(sources@, rss) ==> d.pairs()
                == #[trigger] concat_rec_pairs(rss.take(k as int)),
        decreases n - k,
    {
        let ghost d_pre = d.pairs();
        let loaded = load_bytes(&sources[k]);
        let es = dataset_entries(loaded);
        push_entries(&mut d, es);
        proof {
            assert forall|rss: Seq<Seq<EmbeddingRecord>>| sources_hold_runs(sources@, rss)
                implies d.pairs() == #[trigger] concat_rec_pairs(rss.take(k + 1)) by {
                assert(wf_records(rss[k as int]));
                assert(sources@[k as int]@ == crate::persist::join_nl(lines_of(rss[k as int])));
                assert(loaded.pairs() == rec_pairs(rss[k as int]));
                assert(d_pre == concat_rec_pairs(rss.take(k as int)));
                assert(rss.take(k + 1) =~= rss.take(k as int).push(rss[k as int]));
                lemma_concat_rec_pairs_snoc(rss.take(k as int), rss[k as int]);
                assert(d.pairs() == d_pre + rec_pairs(rss[k as int]));
            }
        }
        k += 1;
    }
    proof {
        assert forall|rss: Seq<Seq<EmbeddingRecord>>| sources_hold_runs(sources@, rss)
            implies d.pairs() == #[trigger] concat_rec_pairs(rss) by {
            assert(rss.take(rss.len() as int) =~= rss);
            assert(d.pairs() == concat_rec_pairs(rss.take(n as int)));
        }
    }
    d
}

/// Turn a dataset back into its entry pairs.
pub fn dataset_entries(d: Dataset) -> (es: Vec<(Vec<Vec<u8>>, Vec<u8>)>)
    requires
        d.wf(),
    ensures
        pair_views(es@) == d.pairs(),
{
    let ghost dp = d.pairs();
    let Dataset { features, labels } = d;
    let mut features = features;
    let mut labels = labels;
    let mut es: Vec<(Vec<Vec<u8>>, Vec<u8>)> = Vec::new();
    let n = features.len();
    let mut i: usize = 0;
    while i < n
        invariant
            0 <= i <= n,
            n + 0 == dp.len(),
            features@.len() == n - i,
            labels@.len() == n - i,
            forall|j: int| 0 <= j < n - i ==> (tok_views(#[trigger] features@[j]@), labels@[j]@)
                == dp[i + j],
            pair_views(es@) == dp.take(i as int),
        decreases n - i,
    {
        let f = features.remove(0);
        let l = labels.remove(0);
        proof {
            lemma_pair_views_push(es@, (f, l));
        }
        es.push((f, l));
        assert(pair_views(es@) =~= dp.take(i + 1));
        i += 1;
    }
    assert(pair_views(es@) =~= dp);
    es
}

} // verus!
