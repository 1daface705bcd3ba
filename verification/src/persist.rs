use vstd::prelude::*;
use crate::canon::{lemma_tok_views_push, write_flat_line};
use crate::errors::PipelineError;
use crate::record::EmbeddingRecord;
use crate::token::tok_views;

verus! {

/// The canonical serialized lines of a run of records, in order.
pub open spec fn lines_of(rs: Seq<EmbeddingRecord>) -> Seq<Seq<u8>> {
    Seq::new(rs.len(), |i: int| rs[i].line_view())
}

/// The successfully produced records of a result run, in order.
pub open spec fn oks_of(rs: Seq<Result<EmbeddingRecord, PipelineError>>) -> Seq<EmbeddingRecord>
    decreases rs.len(),
{
    if rs.len() == 0 {
        Seq::empty()
    } else {
        oks_of(rs.drop_last()) + (match rs.last() {
            Ok(r) => seq![r],
            Err(_) => Seq::empty(),
        })
    }
}

pub proof fn lemma_lines_of_push(rs: Seq<EmbeddingRecord>, r: EmbeddingRecord)
    ensures
        lines_of(rs.push(r)) == lines_of(rs) + seq![r.line_view()],
{
    assert(lines_of(rs.push(r)) =~= lines_of(rs) + seq![r.line_view()]);
}

pub proof fn lemma_oks_of_snoc(rs: Seq<Result<EmbeddingRecord, PipelineError>>, x: Result<
    EmbeddingRecord,
    PipelineError,
>)
    ensures
        oks_of(rs.push(x)) == oks_of(rs) + (match x {
            Ok(r) => seq![r],
            Err(_) => Seq::empty(),
        }),
{
    assert(rs.push(x).drop_last() =~= rs);
    assert(rs.push(x).last() == x);
}

/// Final counts of a persisting run.
#[derive(Clone, Copy, Debug, PartialEq, Eq, Structural)]
pub struct PersistSummary {
    pub written: usize,
    pub failed: usize,
}

/// Accumulates successfully produced records and emits them as canonical
/// flat lines in bounded batches; failed productions are only counted.
pub struct BufferedPersister {
    pub buffer: Vec<EmbeddingRecord>,
    pub batch_size: usize,
    pub written: usize,
    pub failed: usize,
}

impl BufferedPersister {
    pub open spec fn wf(self) -> bool {
        &&& self.batch_size >= 1
        &&& self.buffer@.len() < self.batch_size
    }

    pub fn new(batch_size: usize) -> (p: Self)
        requires
            batch_size >= 1,
        ensures
            p.wf(),
            p.buffer@.len() == 0,
            p.batch_size == batch_size,
            p.written == 0,
            p.failed == 0,
    {
        BufferedPersister { buffer: Vec::new(), batch_size, written: 0, failed: 0 }
    }

    /// Serialize and hand out every buffered record, in order.
    fn flush(&mut self) -> (out: Vec<Vec<u8>>)
        requires
            old(self).written <= usize::MAX - old(self).buffer@.len(),
        ensures
            final(self).buffer@.len() == 0,
            final(self).written == old(self).written + old(self).buffer@.len(),
            final(self).failed == old(self).failed,
            final(self).batch_size == old(self).batch_size,
            tok_views(out@) == lines_of(old(self).buffer@),
    {
        let ghost orig = self.buffer@;
        let mut out: Vec<Vec<u8>> = Vec::new();
        let mut i: usize = 0;
        while i < self.buffer.len()
            invariant
                0 <= i <= self.buffer@.len(),
                self.buffer@ == orig,
                tok_views(out@) == lines_of(orig.take(i as int)),
            decreases self.buffer@.len() - i,
        {
            let line = write_flat_line(&self.buffer[i].embedding, &self.buffer[i].label);
            proof {
                lemma_tok_views_push(out@, line);
            }
            out.push(line);
            assert(tok_views(out@) =~= lines_of(orig.take(i + 1)));
            i += 1;
        }
        assert(orig.take(orig.len() as int) =~= orig);
        let n = self.buffer.len();
        self.buffer.clear();
        self.written = self.written + n;
        out
    }

    /// Take the next production result. A failure is counted; a success is
    /// buffered, and when the buffer reaches the batch size the whole batch
    /// is serialized and handed out for appending to the sink.
    pub fn offer(&mut self, r: Result<EmbeddingRecord, PipelineError>) -> (out: Vec<Vec<u8>>)
        requires
            old(self).wf(),
            old(self).written <= usize::MAX - old(self).batch_size,
            old(self).failed < usize::MAX,
        ensures
            final(self).wf(),
            final(self).batch_size == old(self).batch_size,
            match r {
                Err(_) => {
                    &&& final(self).buffer@ == old(self).buffer@
                    &&& final(self).failed == old(self).failed + 1
                    &&& final(self).written == old(self).written
                    &&& out@.len() == 0
                },
                Ok(rec) => {
                    &&& final(self).failed == old(self).failed
                    &&& if old(self).buffer@.len() + 1 == old(self).batch_size {
                        &&& final(self).buffer@.len() == 0
                        &&& final(self).written == old(self).written + old(self).batch_size
                        &&& tok_views(out@) == lines_of(old(self).buffer@.push(rec))
                    } else {
                        &&& final(self).buffer@ == old(self).buffer@.push(rec)
                        &&& final(self).written == old(self).written
                        &&& out@.len() == 0
                    }
                },
            },
    {
        match r {
            Err(_) => {
                self.failed = self.failed + 1;
                let out: Vec<Vec<u8>> = Vec::new();
                out
            },
            Ok(rec) => {
                self.buffer.push(rec);
                if self.buffer.len() == self.batch_size {
                    self.flush()
                } else {
                    let out: Vec<Vec<u8>> = Vec::new();
                    out
                }
            },
        }
    }

    /// End of the stream: serialize and hand out the remaining partial batch.
    pub fn finish(&mut self) -> (out: Vec<Vec<u8>>)
        requires
            old(self).wf(),
            old(self).written <= usize::MAX - old(self).batch_size,
        ensures
            final(self).wf(),
            final(self).batch_size == old(self).batch_size,
            final(self).buffer@.len() == 0,
            final(self).failed == old(self).failed,
            final(self).written == old(self).written + old(self).buffer@.len(),
            tok_views(out@) == lines_of(old(self).buffer@),
    {
        self.flush()
    }
}

/// Persist a whole run of production results with the given batch size:
/// the emitted lines are exactly the canonical lines of the successful
/// records, in input order, and the summary counts successes and failures.
pub fn persist_all(results: Vec<Result<EmbeddingRecord, PipelineError>>, batch_size: usize) -> (r: (
    Vec<Vec<u8>>,
    PersistSummary,
))
    requires
        batch_size >= 1,
        results@.len() <= usize::MAX - batch_size,
    ensures
        tok_views(r.0@) == lines_of(oks_of(results@)),
        r.1.written == oks_of(results@).len(),
        r.1.failed + oks_of(results@).len() == results@.len(),
{
    let ghost all = results@;
    let mut p = BufferedPersister::new(batch_size);
    let mut lines: Vec<Vec<u8>> = Vec::new();
    let mut results = results;
    let n = results.len();
    let mut i: usize = 0;
    while i < n
        invariant
            0 <= i <= n,
            results@ == all.skip(i as int),
            n == all.len(),
            all.len() <= usize::MAX - batch_size,
            p.wf(),
            p.batch_size == batch_size,
            p.written + p.buffer@.len() == oks_of(all.take(i as int)).len(),
            p.failed + oks_of(all.take(i as int)).len() == i,
            tok_views(lines@) + lines_of(p.buffer@) == lines_of(oks_of(all.take(i as int))),
        decreases n - i,
    {
        let ghost oks_pre = oks_of(all.take(i as int));
        let r = results.remove(0);
        proof {
            assert(all.skip(i as int)[0] == all[i as int]);
            assert(all.skip(i as int).remove(0) =~= all.skip(i + 1));
        }
        let ghost is_ok = r is Ok;
        let ghost rec_g = if r is Ok { Some(r->Ok_0) } else { None::<EmbeddingRecord> };
        let ghost oldbuf = p.buffer@;
        let mut out = p.offer(r);
        let ghost oks_post = oks_of(all.take(i + 1));
        proof {
            assert(all.take(i + 1) =~= all.take(i as int).push(all[i as int]));
            lemma_oks_of_snoc(all.take(i as int), all[i as int]);
        }
        let ghost lines_pre = lines@;
        let ghost out_pre = out@;
        lines.append(&mut out);
        proof {
            if is_ok {
                let rec = rec_g->0;
                assert(oks_post == oks_pre + seq![rec]);
                assert(oks_pre + seq![rec] =~= oks_pre.push(rec));
                lemma_lines_of_push(oks_pre, rec);
                if oldbuf.len() + 1 == batch_size {
                    // a full batch was flushed
                    assert(oldbuf.push(rec) =~= oldbuf + seq![rec]);
                    lemma_lines_of_push(oldbuf, rec);
                    assert(lines_of(p.buffer@) =~= Seq::<Seq<u8>>::empty());
                    assert(tok_views(lines@) =~= tok_views(lines_pre) + tok_views(out_pre));
                    assert(tok_views(lines@) + lines_of(p.buffer@) =~= tok_views(lines_pre) + (
                    lines_of(oldbuf) + seq![rec.line_view()]));
                    assert(tok_views(lines_pre) + (lines_of(oldbuf) + seq![rec.line_view()]) =~= (
                    tok_views(lines_pre) + lines_of(oldbuf)) + seq![rec.line_view()]);
                } else {
                    // no flush: the buffer grew by one
                    assert(lines_pre + out_pre =~= lines_pre);
                    assert(tok_views(lines@) =~= tok_views(lines_pre));
                    lemma_lines_of_push(oldbuf, rec);
                    assert(tok_views(lines@) + lines_of(p.buffer@) =~= (tok_views(lines_pre)
                        + lines_of(oldbuf)) + seq![rec.line_view()]);
                }
                assert((tok_views(lines_pre) + lines_of(oldbuf)) + seq![rec.line_view()]
                    == lines_of(oks_pre) + seq![rec.line_view()]);
                assert(lines_of(oks_post) == lines_of(oks_pre) + seq![rec.line_view()]);
            } else {
                assert(oks_post =~= oks_pre);
                assert(lines_pre + out_pre =~= lines_pre);
                assert(tok_views(lines@) =~= tok_views(lines_pre));
                assert(lines_of(oks_post) == lines_of(oks_pre));
            }
            assert(tok_views(lines@) + lines_of(p.buffer@) == lines_of(oks_of(all.take(i + 1))));
        }
        i += 1;
    }
    assert(all.take(n as int) =~= all);
    let ghost lines_pre = lines@;
    let ghost buf_pre = p.buffer@;
    let mut out = p.finish();
    lines.append(&mut out);
    proof {
        assert(tok_views(lines@) =~= tok_views(lines_pre) + lines_of(buf_pre));
        assert(tok_views(lines@) =~= lines_of(oks_of(all)));
    }
    let summary = PersistSummary { written: p.written, failed: p.failed };
    (lines, summary)
}

/// The byte stream of a sequence of lines, each followed by a newline.
pub open spec fn join_nl(lines: Seq<Seq<u8>>) -> Seq<u8>
    decreases lines.len(),
{
    if lines.len() == 0 {
        Seq::empty()
    } else {
        (lines[0] + seq![10u8]) + join_nl(lines.drop_first())
    }
}

pub proof fn lemma_join_nl_snoc(a: Seq<Seq<u8>>, x: Seq<u8>)
    ensures
        join_nl(a.push(x)) == join_nl(a) + (x + seq![10u8]),
    decreases a.len(),
{
    if a.len() == 0 {
        assert(a.push(x) =~= seq![x]);
        assert(seq![x].drop_first() =~= Seq::<Seq<u8>>::empty());
        assert(join_nl(seq![x]) == (x + seq![10u8]) + join_nl(Seq::<Seq<u8>>::empty()));
        assert((x + seq![10u8]) + Seq::<u8>::empty() =~= Seq::<u8>::empty() + (x + seq![10u8]));
    } else {
        lemma_join_nl_snoc(a.drop_first(), x);
        assert(a.push(x).drop_first() =~= a.drop_first().push(x));
        assert(join_nl(a.push(x)) == (a[0] + seq![10u8]) + (join_nl(a.drop_first()) + (x + seq![
            10u8,
        ])));
        assert((a[0] + seq![10u8]) + (join_nl(a.drop_first()) + (x + seq![10u8])) =~= ((a[0] + seq![
            10u8,
        ]) + join_nl(a.drop_first())) + (x + seq![10u8]));
    }
}

/// Concatenate lines into one byte stream, a newline after each line.
pub fn join_lines(lines: &Vec<Vec<u8>>) -> (r: Vec<u8>)
    ensures
        r@ == join_nl(tok_views(lines@)),
{
    let mut r: Vec<u8> = Vec::new();
    let mut i: usize = 0;
    while i < lines.len()
        invariant
            0 <= i <= lines@.len(),
            r@ == join_nl(tok_views(lines@).take(i as int)),
        decreases lines@.len() - i,
    {
        crate::canon::push_all(&mut r, &lines[i]);
        r.push(10);
        proof {
            lemma_join_nl_snoc(tok_views(lines@).take(i as int), lines@[i as int]@);
            assert(tok_views(lines@).take(i as int).push(lines@[i as int]@) =~= tok_views(
                lines@,
            ).take(i + 1));
            assert(join_nl(tok_views(lines@).take(i as int)) + (lines@[i as int]@ + seq![10u8])
                =~= r@);
        }
        i += 1;
    }
    assert(tok_views(lines@).take(lines@.len() as int) =~= tok_views(lines@));
    r
}

} // verus!
