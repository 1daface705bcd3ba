use vstd::prelude::*;
use crate::client::{embed_response, response_decided, Outcome};
use crate::errors::PipelineError;
use crate::loader::clone_bytes;
use crate::client::clone_chars;
use crate::record::{EmbeddingRecord, LabeledText};
use crate::token::tok_views;

verus! {

/// How one produced result is decided from its item and outcome: an empty
/// text fails with `InvalidInput` whatever the outcome (no request is made
/// for it); otherwise the result carries the item's label and text and is
/// decided from the outcome exactly as one embedding response is.
pub open spec fn produced_matches(
    item: LabeledText,
    outcome: Outcome,
    r: Result<EmbeddingRecord, PipelineError>,
) -> bool {
    if item.text@.len() == 0 {
        r == Result::<EmbeddingRecord, PipelineError>::Err(PipelineError::InvalidInput)
    } else {
        &&& (match r {
            Ok(rec) => rec.wf() && rec.label@ == item.label@ && rec.text is Some
                && rec.text->Some_0@ == item.text@,
            Err(_) => true,
        })
        &&& response_decided(outcome, match r {
            Ok(rec) => Result::<Seq<Seq<u8>>, PipelineError>::Ok(tok_views(rec.embedding@)),
            Err(e) => Result::<Seq<Seq<u8>>, PipelineError>::Err(e),
        })
    }
}

/// Produce the record for one labeled text from the outcome of its request.
pub fn produce_one(item: &LabeledText, outcome: &Outcome) -> (r: Result<
    EmbeddingRecord,
    PipelineError,
>)
    requires
        item.wf(),
    ensures
        produced_matches(*item, *outcome, r),
{
    if item.text.len() == 0 {
        return Err(PipelineError::InvalidInput);
    }
    match embed_response(outcome) {
        Ok(toks) => Ok(
            EmbeddingRecord {
                embedding: toks,
                label: clone_bytes(&item.label),
                text: Some(clone_chars(&item.text)),
            },
        ),
        Err(e) => Err(e),
    }
}

/// Produce the whole run: exactly one result per input item, in input
/// order; a failed item is an `Err` result and never ends the run.
pub fn produce_all(items: &Vec<LabeledText>, outcomes: &Vec<Outcome>) -> (rs: Vec<Result<
    EmbeddingRecord,
    PipelineError,
>>)
    requires
        items@.len() == outcomes@.len(),
        forall|i: int| 0 <= i < items@.len() ==> (#[trigger] items@[i]).wf(),
    ensures
        rs@.len() == items@.len(),
        forall|i: int| 0 <= i < rs@.len() ==> produced_matches(
            items@[i],
            outcomes@[i],
            #[trigger] rs@[i],
        ),
{
    let mut rs: Vec<Result<EmbeddingRecord, PipelineError>> = Vec::new();
    let mut i: usize = 0;
    while i < items.len()
        invariant
            0 <= i <= items@.len(),
            items@.len() == outcomes@.len(),
            rs@.len() == i,
            forall|j: int| 0 <= j < items@.len() ==> (#[trigger] items@[j]).wf(),
            forall|j: int| 0 <= j < i ==> produced_matches(
                items@[j],
                outcomes@[j],
                #[trigger] rs@[j],
            ),
        decreases items@.len() - i,
    {
        let r = produce_one(&items[i], &outcomes[i]);
        rs.push(r);
        i += 1;
    }
    rs
}

} // verus!
