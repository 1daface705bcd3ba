use vstd::prelude::*;
use crate::canon::flat_line;
use crate::token::{all_num_tokens, num_token, tok_views};

verus! {

/// A text paired with its supervised target, carried as a number token.
#[derive(Debug)]
pub struct LabeledText {
    pub text: Vec<char>,
    pub label: Vec<u8>,
}

impl LabeledText {
    pub open spec fn wf(self) -> bool {
        num_token(self.label@)
    }
}

/// One produced embedding record: a non-empty vector of number tokens, the
/// label token, and optionally the source text.
#[derive(Debug)]
pub struct EmbeddingRecord {
    pub embedding: Vec<Vec<u8>>,
    pub label: Vec<u8>,
    pub text: Option<Vec<char>>,
}

impl EmbeddingRecord {
    pub open spec fn wf(self) -> bool {
        &&& self.embedding@.len() > 0
        &&& all_num_tokens(tok_views(self.embedding@))
        &&& num_token(self.label@)
    }

    /// The canonical flat serialization of this record.
    pub open spec fn line_view(self) -> Seq<u8> {
        flat_line(tok_views(self.embedding@), self.label@)
    }
}

/// Index-aligned feature vectors and labels.
#[derive(Debug)]
pub struct Dataset {
    pub features: Vec<Vec<Vec<u8>>>,
    pub labels: Vec<Vec<u8>>,
}

impl Dataset {
    pub open spec fn wf(self) -> bool {
        self.features@.len() == self.labels@.len()
    }

    pub open spec fn spec_len(self) -> nat {
        self.features@.len()
    }

    /// The index-aligned (feature views, label view) pairs.
    pub open spec fn pairs(self) -> Seq<(Seq<Seq<u8>>, Seq<u8>)> {
        Seq::new(
            self.features@.len(),
            |i: int| (tok_views(self.features@[i]@), self.labels@[i]@),
        )
    }

    pub fn empty() -> (d: Dataset)
        ensures
            d.wf(),
            d.spec_len() == 0,
    {
        Dataset { features: Vec::new(), labels: Vec::new() }
    }

    pub fn len(&self) -> (n: usize)
        ensures
            n == self.spec_len(),
    {
        self.features.len()
    }

    /// Append one index-aligned pair.
    pub fn push_pair(&mut self, f: Vec<Vec<u8>>, l: Vec<u8>)
        requires
            old(self).wf(),
        ensures
            final(self).wf(),
            final(self).pairs() == old(self).pairs().push((tok_views(f@), l@)),
            final(self).spec_len() == old(self).spec_len() + 1,
    {
        let ghost orig = *self;
        let ghost pf = f@;
        let ghost pl = l@;
        self.features.push(f);
        self.labels.push(l);
        assert(self.pairs() =~= orig.pairs().push((tok_views(pf), pl)));
    }
}

} // verus!
