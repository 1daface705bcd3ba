use vstd::prelude::*;
use crate::errors::PipelineError;
use crate::loader::{dataset_entries, lemma_pair_views_push, pair_views};
use crate::record::Dataset;
use crate::shuffle_ext::{new_rng, shuffle_in_place};
use crate::token::tok_views;

verus! {

/// Build a dataset from entry pairs, keeping their order.
pub fn dataset_from_pairs(es: Vec<(Vec<Vec<u8>>, Vec<u8>)>) -> (d: Dataset)
    ensures
        d.wf(),
        d.pairs() == pair_views(es@),
{
    let ghost all = es@;
    let mut es = es;
    let mut d = Dataset::empty();
    assert(d.pairs() =~= pair_views(all.take(0)));
    let n = es.len();
    let mut i: usize = 0;
    while i < n
        invariant
            0 <= i <= n == all.len(),
            es@ == all.skip(i as int),
            d.wf(),
            d.pairs() == pair_views(all.take(i as int)),
        decreases n - i,
    {
        proof {
            assert(all.skip(i as int)[0] == all[i as int]);
            assert(all.skip(i as int).remove(0) =~= all.skip(i + 1));
        }
        let p = es.remove(0);
        d.push_pair(p.0, p.1);
        proof {
            assert(all.take(i + 1) =~= all.take(i as int).push(all[i as int]));
            lemma_pair_views_push(all.take(i as int), all[i as int]);
            assert(d.pairs() =~= pair_views(all.take(i + 1)));
        }
        i += 1;
    }
    assert(all.take(all.len() as int) =~= all);
    d
}

/// A multiset-equal reordering of pairs is still multiset-equal after
/// taking views.
pub proof fn lemma_pair_views_multiset(
    s1: Seq<(Vec<Vec<u8>>, Vec<u8>)>,
    s2: Seq<(Vec<Vec<u8>>, Vec<u8>)>,
)
    requires
        s1.to_multiset() == s2.to_multiset(),
    ensures
        pair_views(s1).to_multiset() == pair_views(s2).to_multiset(),
    decreases s1.len(),
{
    broadcast use vstd::seq_lib::group_to_multiset_ensures;

    if s1.len() == 0 {
        assert(s1.to_multiset().len() == s1.len());
        assert(s2.to_multiset().len() == s2.len());
        assert(s2.len() == 0);
        assert(pair_views(s1) =~= pair_views(s2));
    } else {
        let x = s1[0];
        assert(s1.contains(x));
        assert(s1.to_multiset().count(x) > 0);
        assert(s2.to_multiset().count(x) > 0);
        assert(s2.contains(x));
        let j = choose|j: int| 0 <= j < s2.len() && s2[j] == x;
        assert(s1.remove(0).to_multiset() == s1.to_multiset().remove(x));
        assert(s2.remove(j).to_multiset() == s2.to_multiset().remove(x));
        lemma_pair_views_multiset(s1.remove(0), s2.remove(j));
        let xv = (tok_views(x.0@), x.1@);
        assert(pair_views(s1.remove(0)) =~= pair_views(s1).remove(0));
        assert(pair_views(s2.remove(j)) =~= pair_views(s2).remove(j));
        assert(pair_views(s1).remove(0).to_multiset() == pair_views(s1).to_multiset().remove(
            pair_views(s1)[0],
        ));
        assert(pair_views(s2).remove(j).to_multiset() == pair_views(s2).to_multiset().remove(
            pair_views(s2)[j],
        ));
        assert(pair_views(s1)[0] == xv);
        assert(pair_views(s2)[j] == xv);
        assert(pair_views(s1).contains(xv));
        assert(pair_views(s1).to_multiset().count(xv) > 0);
        assert(pair_views(s2).contains(xv));
        assert(pair_views(s2).to_multiset().count(xv) > 0);
        assert(pair_views(s1).to_multiset() =~= pair_views(s2).to_multiset()) by {
            let m1 = pair_views(s1).to_multiset();
            let m2 = pair_views(s2).to_multiset();
            assert forall|e: (Seq<Seq<u8>>, Seq<u8>)| #[trigger] m1.count(e) == m2.count(e) by {
                assert(m1.remove(xv).count(e) == m2.remove(xv).count(e));
                if e == xv {
                    assert(m1.count(e) == m1.remove(xv).count(e) + 1);
                    assert(m2.count(e) == m2.remove(xv).count(e) + 1);
                } else {
                    assert(m1.count(e) == m1.remove(xv).count(e));
                    assert(m2.count(e) == m2.remove(xv).count(e));
                }
            }
        }
    }
}

/// Shuffle a dataset: a random permutation of the index alignment that keeps
/// every (feature, label) pair intact, so the multiset of pairs is unchanged.
pub fn shuffle(d: Dataset) -> (r: Dataset)
    requires
        d.wf(),
    ensures
        r.wf(),
        r.spec_len() == d.spec_len(),
        r.pairs().to_multiset() == d.pairs().to_multiset(),
{
    let ghost dp = d.pairs();
    let mut pairs = dataset_entries(d);
    let ghost before = pairs@;
    let mut rng = new_rng();
    shuffle_in_place(&mut pairs, &mut rng);
    proof {
        lemma_pair_views_multiset(pairs@, before);
        broadcast use vstd::seq_lib::group_to_multiset_ensures;

        assert(pair_views(pairs@).to_multiset().len() == pair_views(pairs@).len());
        assert(dp.to_multiset().len() == dp.len());
    }
    dataset_from_pairs(pairs)
}

/// A split ratio in (0, 1), as a rational number.
#[derive(Clone, Copy, Debug, PartialEq, Eq, Structural)]
pub struct SplitRatio {
    pub num: usize,
    pub den: usize,
}

impl SplitRatio {
    pub open spec fn wf(self) -> bool {
        0 < self.num < self.den
    }
}

/// The size of the first partition: `floor(n * num / den)`.
pub open spec fn split_point(n: nat, ratio: SplitRatio) -> int {
    (n as int) * (ratio.num as int) / (ratio.den as int)
}

/// Split a dataset: the first `floor(len * ratio)` index-aligned pairs form
/// the first partition, the remainder the second; no reordering happens.
pub fn split(d: Dataset, ratio: SplitRatio) -> (r: (Dataset, Dataset))
    requires
        d.wf(),
        ratio.wf(),
    ensures
        r.0.wf(),
        r.1.wf(),
        r.0.spec_len() == split_point(d.spec_len(), ratio),
        r.0.spec_len() + r.1.spec_len() == d.spec_len(),
        r.0.pairs() == d.pairs().take(split_point(d.spec_len(), ratio)),
        r.1.pairs() == d.pairs().skip(split_point(d.spec_len(), ratio)),
{
    let ghost dp = d.pairs();
    let n = d.len();
    assert((n as int) * (ratio.num as int) <= u128::MAX)
        by (nonlinear_arith)
        requires
            0 <= n as int <= u64::MAX as int,
            0 <= ratio.num as int <= u64::MAX as int,
    ;
    let wide = (n as u128) * (ratio.num as u128) / (ratio.den as u128);
    assert((n as int) * (ratio.num as int) / (ratio.den as int) <= n as int)
        by (nonlinear_arith)
        requires
            0 < ratio.num < ratio.den,
            n >= 0,
    ;
    let k = wide as usize;
    assert(k <= n);
    let mut es = dataset_entries(d);
    assert(pair_views(es@).len() == es@.len());
    assert(es@.len() == dp.len());
    let rest = es.split_off(k);
    let d1 = dataset_from_pairs(es);
    let d2 = dataset_from_pairs(rest);
    proof {
        assert(d1.pairs() =~= dp.take(k as int));
        assert(d2.pairs() =~= dp.skip(k as int));
    }
    (d1, d2)
}

/// Pair sequences whose feature vectors all have one dimensionality.
pub open spec fn uniform_dims(s: Seq<(Seq<Seq<u8>>, Seq<u8>)>) -> bool {
    forall|i: int| 0 <= i < s.len() ==> (#[trigger] s[i]).0.len() == s[0].0.len()
}

/// The concatenated pairs of several datasets, in the order given.
pub open spec fn concat_pairs(ds: Seq<Dataset>) -> Seq<(Seq<Seq<u8>>, Seq<u8>)>
    decreases ds.len(),
{
    if ds.len() == 0 {
        Seq::empty()
    } else {
        concat_pairs(ds.drop_last()) + ds.last().pairs()
    }
}

fn check_uniform(es: &Vec<(Vec<Vec<u8>>, Vec<u8>)>) -> (b: bool)
    ensures
        b == uniform_dims(pair_views(es@)),
{
    if es.len() == 0 {
        return true;
    }
    let dim = es[0].0.len();
    let mut i: usize = 0;
    while i < es.len()
        invariant
            0 <= i <= es@.len(),
            es@.len() > 0,
            dim == pair_views(es@)[0].0.len(),
            forall|j: int| 0 <= j < i ==> (#[trigger] pair_views(es@)[j]).0.len() == dim,
        decreases es@.len() - i,
    {
        if es[i].0.len() != dim {
            assert(pair_views(es@)[i as int].0.len() != dim);
            return false;
        }
        assert(pair_views(es@)[i as int].0.len() == dim);
        i += 1;
    }
    true
}

/// Merge datasets by concatenation, keeping index alignment; fails with
/// `ShapeMismatch` exactly when the embedding dimensionality is not uniform
/// across all records being merged.
pub fn merge(ds: Vec<Dataset>) -> (r: Result<Dataset, PipelineError>)
    requires
        forall|i: int| 0 <= i < ds@.len() ==> (#[trigger] ds@[i]).wf(),
    ensures
        match r {
            Ok(m) => {
                &&& m.wf()
                &&& m.pairs() == concat_pairs(ds@)
                &&& uniform_dims(concat_pairs(ds@))
            },
            Err(e) => e == PipelineError::ShapeMismatch && !uniform_dims(concat_pairs(ds@)),
        },
{
    let ghost all = ds@;
    let mut ds = ds;
    let mut acc: Vec<(Vec<Vec<u8>>, Vec<u8>)> = Vec::new();
    assert(pair_views(acc@) =~= concat_pairs(all.take(0)));
    let n = ds.len();
    let mut i: usize = 0;
    while i < n
        invariant
            0 <= i <= n == all.len(),
            ds@ == all.skip(i as int),
            forall|j: int| 0 <= j < all.len() ==> (#[trigger] all[j]).wf(),
            pair_views(acc@) == concat_pairs(all.take(i as int)),
        decreases n - i,
    {
        proof {
            assert(all.skip(i as int)[0] == all[i as int]);
            assert(all.skip(i as int).remove(0) =~= all.skip(i + 1));
        }
        let d = ds.remove(0);
        let ghost accv = acc@;
        let mut es = dataset_entries(d);
        let ghost esv = es@;
        acc.append(&mut es);
        proof {
            assert(all.take(i + 1).drop_last() =~= all.take(i as int));
            assert(all.take(i + 1).last() == all[i as int]);
            assert(pair_views(accv + esv) =~= pair_views(accv) + pair_views(esv));
            assert(pair_views(acc@) =~= concat_pairs(all.take(i + 1)));
        }
        i += 1;
    }
    assert(all.take(all.len() as int) =~= all);
    if check_uniform(&acc) {
        let m = dataset_from_pairs(acc);
        Ok(m)
    } else {
        Err(PipelineError::ShapeMismatch)
    }
}

} // verus!
