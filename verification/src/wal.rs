//! The write-ahead log: an append-only journal of intended mutations, with
//! `BEGIN` and `END` lines around each batch.

use vstd::prelude::*;

use crate::bytes::{bytes_equal, find_byte, slice_copy, views};
use crate::codec::LF;
use crate::storage::{
    drop_torn_tail, last_line_start, lemma_records_append, lemma_records_tail, records, terminated,
    LogLine,
};

verus! {

/// The line that opens a batch.
pub open spec fn begin_token() -> Seq<u8> {
    seq![66u8, 69u8, 71u8, 73u8, 78u8]
}

/// The line that closes a batch.
pub open spec fn end_token() -> Seq<u8> {
    seq![69u8, 78u8, 68u8]
}

/// The texts of the lines, offsets dropped.
pub open spec fn line_texts(lines: Seq<LogLine>) -> Seq<Seq<u8>> {
    Seq::new(lines.len(), |i: int| lines[i].line)
}

/// Where recovery stands after some lines of the journal.
pub struct Recovery {
    /// A `BEGIN` has been read and no `END` after it.
    pub in_batch: bool,
    /// The lines read since that `BEGIN`.
    pub pending: Seq<Seq<u8>>,
    /// The lines of all batches that were closed, in order.
    pub committed: Seq<Seq<u8>>,
}

/// Reads one line. `BEGIN` opens a batch and forgets an unclosed one; `END`
/// closes the open batch and commits its lines; other lines belong to the
/// open batch, or to none.
pub open spec fn recover_step(st: Recovery, line: Seq<u8>) -> Recovery {
    if line == begin_token() {
        Recovery { in_batch: true, pending: Seq::empty(), committed: st.committed }
    } else if line == end_token() && st.in_batch {
        Recovery { in_batch: false, pending: Seq::empty(), committed: st.committed + st.pending }
    } else if st.in_batch {
        Recovery { in_batch: true, pending: st.pending.push(line), committed: st.committed }
    } else {
        st
    }
}

/// Where recovery stands after the lines.
pub open spec fn recover_state(lines: Seq<Seq<u8>>) -> Recovery
    decreases lines.len(),
{
    if lines.len() == 0 {
        Recovery { in_batch: false, pending: Seq::empty(), committed: Seq::empty() }
    } else {
        recover_step(recover_state(lines.drop_last()), lines.last())
    }
}

/// The mutation lines that recovery replays: those of closed batches.
pub open spec fn committed_lines(lines: Seq<Seq<u8>>) -> Seq<Seq<u8>> {
    recover_state(lines).committed
}

/// A line that is neither `BEGIN` nor `END`.
pub open spec fn is_mutation_line(line: Seq<u8>) -> bool {
    line != begin_token() && line != end_token()
}

/// After `BEGIN` and some mutation lines the batch is open and holds them.
pub proof fn lemma_open_batch(before: Seq<Seq<u8>>, ops: Seq<Seq<u8>>)
    requires
        forall|i: int| 0 <= i < ops.len() ==> is_mutation_line(#[trigger] ops[i]),
    ensures
        recover_state(before + seq![begin_token()] + ops) == (Recovery {
            in_batch: true,
            pending: ops,
            committed: committed_lines(before),
        }),
    decreases ops.len(),
{
    let all = before + seq![begin_token()] + ops;
    if ops.len() == 0 {
        assert(all.drop_last() =~= before);
        assert(all.last() == begin_token());
        assert(ops =~= Seq::<Seq<u8>>::empty());
    } else {
        let init = ops.drop_last();
        assert(all.drop_last() =~= before + seq![begin_token()] + init);
        assert(all.last() == ops.last());
        assert forall|i: int| 0 <= i < init.len() implies is_mutation_line(#[trigger] init[i]) by {
            assert(init[i] == ops[i]);
        }
        lemma_open_batch(before, init);
        assert(is_mutation_line(ops[ops.len() - 1]));
        assert(init.push(ops.last()) =~= ops);
    }
}

/// A batch is replayed whole or not at all: with its `END` in the journal
/// all of its lines are committed, in order; without it, whatever part of
/// the batch was written, none is.
pub proof fn lemma_batch_atomic(before: Seq<Seq<u8>>, ops: Seq<Seq<u8>>, written: int)
    requires
        forall|i: int| 0 <= i < ops.len() ==> is_mutation_line(#[trigger] ops[i]),
        0 <= written <= ops.len(),
    ensures
        committed_lines(before + seq![begin_token()] + ops + seq![end_token()]) == committed_lines(
            before,
        ) + ops,
        committed_lines(before + seq![begin_token()] + ops.take(written)) == committed_lines(
            before,
        ),
        !recover_state(before + seq![begin_token()] + ops + seq![end_token()]).in_batch,
{
    lemma_open_batch(before, ops);
    let closed = before + seq![begin_token()] + ops + seq![end_token()];
    assert(closed.drop_last() =~= before + seq![begin_token()] + ops);
    assert(closed.last() == end_token());
    let part = ops.take(written);
    assert forall|i: int| 0 <= i < part.len() implies is_mutation_line(#[trigger] part[i]) by {
        assert(part[i] == ops[i]);
    }
    lemma_open_batch(before, part);
    assert(begin_token()[0] == 66u8 && end_token()[0] == 69u8);
}

/// The journal. `bytes` is everything appended; the first `durable` bytes
/// of it have been flushed.
pub struct WAL {
    buf: Vec<u8>,
    flushed: usize,
}

impl WAL {
    /// Everything that was appended.
    pub closed spec fn bytes(&self) -> Seq<u8> {
        self.buf@
    }

    /// How many bytes have been flushed.
    pub closed spec fn durable(&self) -> nat {
        self.flushed as nat
    }

    /// The journal ends with a complete line, and no more is flushed than
    /// was appended.
    pub open spec fn wf(&self) -> bool {
        terminated(self.bytes()) && self.durable() <= self.bytes().len()
    }

    /// The lines of the journal.
    pub open spec fn lines(&self) -> Seq<Seq<u8>> {
        line_texts(records(self.bytes()))
    }

    /// Takes over the journal as it was found. Bytes after the last LF are
    /// an unfinished write and are dropped.
    pub fn open(existing: Vec<u8>) -> (r: WAL)
        ensures
            r.wf(),
            r.bytes() == existing@.take(last_line_start(existing@)),
            r.durable() == r.bytes().len(),
            r.lines() == line_texts(records(existing@)),
    {
        let mut buf = existing;
        drop_torn_tail(&mut buf);
        let n = buf.len();
        WAL { buf, flushed: n }
    }

    /// Appends one line to the journal, without flushing.
    pub fn append(&mut self, record: &[u8])
        requires
            old(self).wf(),
            !record@.contains(LF),
        ensures
            final(self).wf(),
            final(self).bytes() == old(self).bytes() + record@ + seq![LF],
            final(self).durable() == old(self).durable(),
            final(self).lines() == old(self).lines().push(record@),
    {
        proof {
            lemma_records_append(self.buf@, record@);
        }
        self.buf.extend_from_slice(record);
        self.buf.push(LF);
        proof {
            assert(self.buf@ =~= old(self).buf@ + record@ + seq![LF]);
            assert(self.lines() =~= old(self).lines().push(record@));
        }
    }

    /// The flush barrier: everything appended so far is durable after it.
    pub fn flush(&mut self)
        ensures
            final(self).bytes() == old(self).bytes(),
            final(self).durable() == final(self).bytes().len(),
    {
        self.flushed = self.buf.len();
    }

    /// All lines of the journal, for recovery.
    pub fn iter(&self) -> (r: Vec<Vec<u8>>)
        ensures
            views(r@) == self.lines(),
    {
        let mut out: Vec<Vec<u8>> = Vec::new();
        let mut pos: usize = 0;
        let ghost log = self.buf@;
        proof {
            assert(log.take(0) =~= Seq::<u8>::empty());
            assert(views(out@) =~= line_texts(records(log.take(0))));
        }
        loop
            invariant
                pos <= self.buf.len(),
                log == self.buf@,
                terminated(log.take(pos as int)),
                views(out@) == line_texts(records(log.take(pos as int))),
            decreases self.buf.len() - pos,
        {
            let end = find_byte(self.buf.as_slice(), pos, LF);
            let ghost head = log.take(pos as int);
            if end >= self.buf.len() {
                proof {
                    let tail = log.skip(pos as int);
                    assert(!tail.contains(LF)) by {
                        if tail.contains(LF) {
                            let j = choose|j: int| 0 <= j < tail.len() && tail[j] == LF;
                            assert(log[pos + j] == LF);
                        }
                    }
                    lemma_records_tail(head, tail);
                    assert(head + tail =~= log);
                }
                return out;
            }
            let line = slice_copy(self.buf.as_slice(), pos, end);
            let ghost before = views(out@);
            proof {
                assert(!line@.contains(LF)) by {
                    if line@.contains(LF) {
                        let j = choose|j: int| 0 <= j < line@.len() && line@[j] == LF;
                        assert(log[pos + j] == LF);
                    }
                }
                lemma_records_append(head, line@);
                assert(head + line@ + seq![LF] =~= log.take(end + 1));
            }
            out.push(line);
            proof {
                assert(views(out@) =~= before.push(line@));
                assert(line_texts(records(log.take(end + 1))) =~= line_texts(records(head)).push(
                    line@,
                ));
            }
            pos = end + 1;
        }
    }

    /// Empties the journal.
    pub fn clear(&mut self)
        ensures
            final(self).wf(),
            final(self).bytes() == Seq::<u8>::empty(),
            final(self).durable() == 0,
    {
        self.buf.clear();
        self.flushed = 0;
    }

    /// The bytes of the journal.
    pub fn as_bytes(&self) -> (r: &Vec<u8>)
        ensures
            r@ == self.bytes(),
    {
        &self.buf
    }

    /// How many bytes of the journal have been flushed.
    pub fn flushed_len(&self) -> (r: usize)
        ensures
            r == self.durable(),
    {
        self.flushed
    }
}

/// The line that opens a batch.
pub fn begin_line() -> (r: Vec<u8>)
    ensures
        r@ == begin_token(),
        !r@.contains(LF),
{
    let mut v: Vec<u8> = Vec::new();
    v.push(66u8);
    v.push(69u8);
    v.push(71u8);
    v.push(73u8);
    v.push(78u8);
    proof {
        assert(v@ =~= begin_token());
        if v@.contains(LF) {
            let j = choose|j: int| 0 <= j < v@.len() && v@[j] == LF;
            assert(v@[j] != LF);
        }
    }
    v
}

/// The line that closes a batch.
pub fn end_line() -> (r: Vec<u8>)
    ensures
        r@ == end_token(),
        !r@.contains(LF),
{
    let mut v: Vec<u8> = Vec::new();
    v.push(69u8);
    v.push(78u8);
    v.push(68u8);
    proof {
        assert(v@ =~= end_token());
        if v@.contains(LF) {
            let j = choose|j: int| 0 <= j < v@.len() && v@[j] == LF;
            assert(v@[j] != LF);
        }
    }
    v
}

/// The lines that recovery replays: those between a `BEGIN` and its `END`.
pub fn recovery_plan(lines: &Vec<Vec<u8>>) -> (r: Vec<Vec<u8>>)
    ensures
        views(r@) == committed_lines(views(lines@)),
{
    let begin = begin_line();
    let end = end_line();
    let mut in_batch = false;
    let mut pending: Vec<Vec<u8>> = Vec::new();
    let mut committed: Vec<Vec<u8>> = Vec::new();
    let mut i: usize = 0;
    let ghost all = views(lines@);
    proof {
        assert(all.take(0) =~= Seq::<Seq<u8>>::empty());
        assert(views(pending@) =~= Seq::<Seq<u8>>::empty());
        assert(views(committed@) =~= Seq::<Seq<u8>>::empty());
    }
    while i < lines.len()
        invariant
            i <= lines.len(),
            all == views(lines@),
            begin@ == begin_token(),
            end@ == end_token(),
            recover_state(all.take(i as int)) == (Recovery {
                in_batch,
                pending: views(pending@),
                committed: views(committed@),
            }),
        decreases lines.len() - i,
    {
        let line = &lines[i];
        proof {
            assert(all.take(i + 1).drop_last() =~= all.take(i as int));
            assert(all.take(i + 1).last() == line@);
        }
        let ghost p0 = views(pending@);
        let ghost c0 = views(committed@);
        if bytes_equal(line.as_slice(), begin.as_slice()) {
            in_batch = true;
            pending = Vec::new();
            proof {
                assert(views(pending@) =~= Seq::<Seq<u8>>::empty());
            }
        } else if in_batch && bytes_equal(line.as_slice(), end.as_slice()) {
            let mut j: usize = 0;
            while j < pending.len()
                invariant
                    j <= pending.len(),
                    p0 == views(pending@),
                    views(committed@) == c0 + p0.take(j as int),
                decreases pending.len() - j,
            {
                let ghost cj = views(committed@);
                let item = pending[j].clone();
                proof {
                    assert(item@ == pending@[j as int]@);
                }
                committed.push(item);
                proof {
                    assert(views(committed@) =~= cj.push(p0[j as int]));
                    assert(c0 + p0.take(j + 1) =~= (c0 + p0.take(j as int)).push(p0[j as int]));
                }
                j += 1;
            }
            proof {
                assert(p0.take(j as int) =~= p0);
            }
            in_batch = false;
            pending = Vec::new();
            proof {
                assert(views(pending@) =~= Seq::<Seq<u8>>::empty());
            }
        } else if in_batch {
            pending.push(line.clone());
            proof {
                assert(views(pending@) =~= p0.push(line@));
            }
        }
        i += 1;
    }
    proof {
        assert(all.take(i as int) =~= all);
    }
    committed
}

} // verus!
