//! What holds of the store across operations.

use vstd::prelude::*;

use crate::bytes::{join, lemma_lex_total};
use crate::codec::{decode_record, del_token, encode_record, put_token, RecordView, LF, TAB};
use crate::kv::{
    op_line, op_readable, op_write, ops_keys_valid, ops_lines, ops_ok, ops_readable, ops_stable,
    ops_writes, SlackbaseEngine,
};
use crate::serialization::{PlainSerializer, Serializer};
use crate::store::{
    apply_writes, held_of, law_writes_repeat, lemma_append_del, lemma_append_put,
    lemma_held_insert, lemma_held_remove, lemma_lines_bytes_push, lines_bytes, read, replay_lines,
    store_of, Store,
};
use crate::storage::{
    ascending_keys, compacted, extent_of, lemma_records_append, lemma_records_tail,
    lemma_replay_puts, line_key, live_index, live_puts, records, terminated,
};
use crate::types::BatchOp;
use crate::wal::{
    begin_token, committed_lines, end_token, is_mutation_line, lemma_batch_atomic, line_texts,
    recover_state,
};

verus! {

/// The line of a record is neither `BEGIN` nor `END`.
pub proof fn lemma_record_line_is_mutation(r: RecordView)
    ensures
        is_mutation_line(encode_record(r)),
{
    let line = encode_record(r);
    match r {
        RecordView::Put { key, value, expiry } => {
            let parts = seq![put_token(), key, value, crate::codec::expiry_text(expiry)];
            assert(join(parts, TAB) == parts[0] + seq![TAB] + join(parts.skip(1), TAB));
            assert(line[0] == put_token()[0]);
            assert(put_token()[0] == 112u8);
        },
        RecordView::Del { key } => {
            let parts = seq![del_token(), key];
            assert(join(parts, TAB) == parts[0] + seq![TAB] + join(parts.skip(1), TAB));
            assert(line[0] == del_token()[0]);
            assert(del_token()[0] == 100u8);
        },
    }
    assert(begin_token()[0] == 66u8);
    assert(end_token()[0] == 69u8);
}

/// Mutation lines outside any batch leave recovery as it stands.
pub proof fn lemma_outside_batches(before: Seq<Seq<u8>>, lines: Seq<Seq<u8>>)
    requires
        !recover_state(before).in_batch,
        forall|i: int| 0 <= i < lines.len() ==> is_mutation_line(#[trigger] lines[i]),
    ensures
        recover_state(before + lines) == recover_state(before),
    decreases lines.len(),
{
    if lines.len() == 0 {
        assert(before + lines =~= before);
    } else {
        let init = lines.drop_last();
        assert forall|i: int| 0 <= i < init.len() implies is_mutation_line(#[trigger] init[i]) by {
            assert(init[i] == lines[i]);
        }
        lemma_outside_batches(before, init);
        assert((before + lines).drop_last() =~= before + init);
        assert((before + lines).last() == lines[lines.len() - 1]);
    }
}

/// A batch is atomic in the journal. Once `batch` has returned, recovery
/// replays the lines of the batch, all of them and in order, after what it
/// replayed before; the records that the batch wrote one by one after its
/// `END` are not replayed again. A journal that was cut off anywhere before
/// the `END` of the batch replays nothing of it.
pub proof fn law_batch_atomic(journal: Seq<Seq<u8>>, lines: Seq<Seq<u8>>, written: int)
    requires
        forall|i: int| 0 <= i < lines.len() ==> is_mutation_line(#[trigger] lines[i]),
        0 <= written <= lines.len(),
    ensures
        committed_lines(journal + seq![begin_token()] + lines + seq![end_token()] + lines)
            == committed_lines(journal) + lines,
        committed_lines(journal + seq![begin_token()] + lines + seq![end_token()])
            == committed_lines(journal) + lines,
        committed_lines(journal + seq![begin_token()] + lines.take(written)) == committed_lines(
            journal,
        ),
        committed_lines(journal + seq![begin_token()]) == committed_lines(journal),
{
    lemma_batch_atomic(journal, lines, written);
    lemma_batch_atomic(journal, lines, 0);
    assert(lines.take(0) =~= Seq::<Seq<u8>>::empty());
    assert(journal + seq![begin_token()] + lines.take(0) =~= journal + seq![begin_token()]);
    let closed = journal + seq![begin_token()] + lines + seq![end_token()];
    lemma_outside_batches(closed, lines);
}

/// The lines that a batch writes are mutation lines.
pub proof fn lemma_batch_lines<S: Serializer>(s: S, ops: Seq<BatchOp>)
    ensures
        forall|i: int|
            0 <= i < ops_lines(s, ops).len() ==> is_mutation_line(
                #[trigger] ops_lines(s, ops)[i],
            ),
{
    assert forall|i: int| 0 <= i < ops_lines(s, ops).len() implies is_mutation_line(
        #[trigger] ops_lines(s, ops)[i],
    ) by {
        match ops[i]@ {
            crate::types::BatchOpView::Put(k, v) => {
                lemma_record_line_is_mutation(
                    crate::kv::put_record(k, s.encoded(v)->Some_0, None),
                );
            },
            crate::types::BatchOpView::Del(k) => {
                lemma_record_line_is_mutation(crate::kv::del_record(k));
            },
        }
    }
}

/// After compaction the log holds one record for each live key and no
/// other: every line is a `put` that has not expired, no two lines have the
/// same key, and the offset index of the new log holds exactly the keys of
/// its lines, each with the extent of its line.
pub proof fn law_compacted(log: Seq<u8>, out: Seq<u8>, now: u64)
    requires
        compacted(log, out, now),
    ensures
        live_puts(records(out), now),
        forall|i: int, j: int|
            0 <= i < j < records(out).len() ==> line_key(#[trigger] records(out)[i]) != line_key(
                #[trigger] records(out)[j],
            ),
        forall|k: Seq<u8>| #[trigger]
            live_index(out, now).contains_key(k) <==> exists|i: int|
                0 <= i < records(out).len() && line_key(#[trigger] records(out)[i]) == k,
        forall|i: int|
            0 <= i < records(out).len() ==> live_index(out, now)[line_key(
                #[trigger] records(out)[i],
            )] == extent_of(records(out)[i]),
        live_index(out, now).dom() == live_index(log, now).dom(),
{
    let lines = records(out);
    assert(ascending_keys(lines));
    assert forall|i: int, j: int| 0 <= i < j < lines.len() implies line_key(#[trigger] lines[i])
        != line_key(#[trigger] lines[j]) by {
        lemma_lex_total(line_key(lines[i]), line_key(lines[j]));
    }
    lemma_replay_puts(lines, now, Some(now));
}

/// A batch is atomic in the journal of the engine. After `batch` the
/// journal stands as `journal`, `BEGIN`, the lines of the mutations, `END`,
/// and the lines once more; recovery replays from it what it replayed from
/// `journal`, then the lines of the batch, once. Cut off before `END`, it
/// replays nothing of the batch.
pub proof fn law_batch_journal<S: Serializer>(
    s: S,
    journal: Seq<Seq<u8>>,
    ops: Seq<BatchOp>,
    written: int,
)
    requires
        0 <= written <= ops.len(),
    ensures
        committed_lines(
            journal + seq![begin_token()] + ops_lines(s, ops) + seq![end_token()] + ops_lines(s, ops),
        ) == committed_lines(journal) + ops_lines(s, ops),
        committed_lines(journal + seq![begin_token()] + ops_lines(s, ops).take(written))
            == committed_lines(journal),
{
    lemma_batch_lines(s, ops);
    law_batch_atomic(journal, ops_lines(s, ops), written);
}

/// After a `put` the index entry of the key points at a slice of the log
/// that decodes to the record of the write, whose value reads as the value
/// that the key now holds.
pub proof fn law_put_is_indexed<S: Serializer>(
    before: SlackbaseEngine<S>,
    after: SlackbaseEngine<S>,
    key: Seq<char>,
    value: Seq<char>,
    expiry: Option<u64>,
)
    requires
        after.wrote(&before, key, value, expiry, Ok(())),
    ensures
        ({
            let kb = vstd::utf8::encode_utf8(key);
            let data = before.serializer().encoded(value)->Some_0;
            &&& after.index().contains_key(kb)
            &&& decode_record(crate::storage::line_at(after.log(), after.index()[kb])) == Some(
                crate::kv::put_record(key, data, expiry),
            )
            &&& crate::store::value_text(
                after.serializer(),
                crate::store::entry_at(after.log(), after.index()[kb]),
            ) == after.held()[kb].text
            &&& after.held()[kb].text == before.serializer().decoded(data)
        }),
{
}

/// What was put is read back: after a `put` that succeeded, a read of the
/// key at any time gives the value as the serializer reads it back.
pub proof fn law_put_then_get<S: Serializer>(
    before: SlackbaseEngine<S>,
    after: SlackbaseEngine<S>,
    key: Seq<char>,
    value: Seq<char>,
    now: u64,
)
    requires
        after.wrote(&before, key, value, None, Ok(())),
    ensures
        read(after.held(), vstd::utf8::encode_utf8(key), now) == before.serializer().decoded(
            before.serializer().encoded(value)->Some_0,
        ),
{
}

/// With the plain serializer what was put is read back as it was given,
/// whatever the value.
pub proof fn law_plain_put_then_get(
    before: SlackbaseEngine<PlainSerializer>,
    after: SlackbaseEngine<PlainSerializer>,
    key: Seq<char>,
    value: Seq<char>,
    now: u64,
)
    requires
        after.wrote(&before, key, value, None, Ok(())),
    ensures
        read(after.held(), vstd::utf8::encode_utf8(key), now) == Some(value),
{
    crate::serialization::law_plain_round_trip(value);
}

/// Of two values put under one key, the second is read back.
pub proof fn law_put_put_get<S: Serializer>(
    first: SlackbaseEngine<S>,
    second: SlackbaseEngine<S>,
    third: SlackbaseEngine<S>,
    key: Seq<char>,
    v1: Seq<char>,
    v2: Seq<char>,
    now: u64,
)
    requires
        second.wrote(&first, key, v1, None, Ok(())),
        third.wrote(&second, key, v2, None, Ok(())),
    ensures
        read(third.held(), vstd::utf8::encode_utf8(key), now) == first.serializer().decoded(
            first.serializer().encoded(v2)->Some_0,
        ),
{
}

/// A key that was put and then deleted reads as nothing.
pub proof fn law_put_delete_get<S: Serializer>(
    first: SlackbaseEngine<S>,
    second: SlackbaseEngine<S>,
    third: SlackbaseEngine<S>,
    key: Seq<char>,
    value: Seq<char>,
    now: u64,
)
    requires
        second.wrote(&first, key, value, None, Ok(())),
        third.deleted(&second, key),
    ensures
        read(third.held(), vstd::utf8::encode_utf8(key), now) is None,
{
}

/// A value put without expiry is read back after a compaction, whenever
/// the compaction was made.
pub proof fn law_put_compact_get<S: Serializer>(
    first: SlackbaseEngine<S>,
    second: SlackbaseEngine<S>,
    third: SlackbaseEngine<S>,
    key: Seq<char>,
    value: Seq<char>,
    at: u64,
    now: u64,
)
    requires
        second.wrote(&first, key, value, None, Ok(())),
        third.compacted_at(&second, at),
    ensures
        read(third.held(), vstd::utf8::encode_utf8(key), now) == first.serializer().decoded(
            first.serializer().encoded(value)->Some_0,
        ),
{
}

/// A compaction changes no read at or after its time.
pub proof fn law_compact_keeps_reads<S: Serializer>(
    before: SlackbaseEngine<S>,
    after: SlackbaseEngine<S>,
    key: Seq<u8>,
    at: u64,
    now: u64,
)
    requires
        after.compacted_at(&before, at),
        after.clock() <= now,
    ensures
        read(after.held(), key, now) == read(before.held(), key, now),
{
}

/// No line holds LF.
pub open spec fn plain_lines(lines: Seq<Seq<u8>>) -> bool {
    forall|i: int| 0 <= i < lines.len() ==> !(#[trigger] lines[i]).contains(LF)
}

/// Lines written after a terminated journal are read back as they were
/// written.
pub proof fn lemma_written_lines(wal: Seq<u8>, lines: Seq<Seq<u8>>)
    requires
        terminated(wal),
        plain_lines(lines),
    ensures
        terminated(wal + lines_bytes(lines)),
        line_texts(records(wal + lines_bytes(lines))) == line_texts(records(wal)) + lines,
    decreases lines.len(),
{
    if lines.len() == 0 {
        assert(wal + lines_bytes(lines) =~= wal);
        assert(line_texts(records(wal)) + lines =~= line_texts(records(wal)));
    } else {
        let init = lines.drop_last();
        assert(plain_lines(init)) by {
            assert forall|i: int| 0 <= i < init.len() implies !(#[trigger] init[i]).contains(
                LF,
            ) by {
                assert(init[i] == lines[i]);
            }
        }
        lemma_written_lines(wal, init);
        let head = wal + lines_bytes(init);
        assert(!lines[lines.len() - 1].contains(LF));
        lemma_records_append(head, lines.last());
        assert(wal + lines_bytes(lines) =~= head + lines.last() + seq![LF]);
        assert(line_texts(records(head + lines.last() + seq![LF])) =~= line_texts(records(head)).push(
            lines.last(),
        ));
        assert(line_texts(records(wal)) + lines =~= (line_texts(records(wal)) + init).push(
            lines.last(),
        ));
    }
}

/// A journal whose last write was cut off after `cut` bytes holds the
/// lines that were written whole, and no part of the line that was not.
pub proof fn lemma_cut_lines(wal: Seq<u8>, lines: Seq<Seq<u8>>, cut: int) -> (whole: int)
    requires
        terminated(wal),
        plain_lines(lines),
        0 <= cut <= lines_bytes(lines).len(),
    ensures
        0 <= whole <= lines.len(),
        cut < lines_bytes(lines).len() ==> whole < lines.len(),
        line_texts(records(wal + lines_bytes(lines).take(cut))) == line_texts(records(wal))
            + lines.take(whole),
    decreases lines.len(),
{
    if lines.len() == 0 {
        assert(wal + lines_bytes(lines).take(cut) =~= wal);
        assert(line_texts(records(wal)) + lines.take(0) =~= line_texts(records(wal)));
        0
    } else {
        let init = lines.drop_last();
        let last = lines.last();
        assert(plain_lines(init)) by {
            assert forall|i: int| 0 <= i < init.len() implies !(#[trigger] init[i]).contains(
                LF,
            ) by {
                assert(init[i] == lines[i]);
            }
        }
        assert(!lines[lines.len() - 1].contains(LF));
        let before = lines_bytes(init);
        if cut <= before.len() {
            let whole = lemma_cut_lines(wal, init, cut);
            assert(lines_bytes(lines).take(cut) =~= before.take(cut));
            assert(lines.take(whole) =~= init.take(whole));
            if cut < before.len() {
                whole
            } else {
                lemma_written_lines(wal, init);
                assert(before.take(cut) =~= before);
                assert(init.take(init.len() as int) =~= init);
                assert(lines.take(init.len() as int) =~= init);
                init.len() as int
            }
        } else if cut == lines_bytes(lines).len() {
            lemma_written_lines(wal, lines);
            assert(lines_bytes(lines).take(cut) =~= lines_bytes(lines));
            assert(lines.take(lines.len() as int) =~= lines);
            lines.len() as int
        } else {
            lemma_written_lines(wal, init);
            let tail = last.take(cut - before.len());
            assert(lines_bytes(lines).take(cut) =~= before + tail);
            assert(!tail.contains(LF)) by {
                if tail.contains(LF) {
                    let j = choose|j: int| 0 <= j < tail.len() && tail[j] == LF;
                    assert(last[j] == LF);
                }
            }
            lemma_records_tail(wal + before, tail);
            assert(wal + (before + tail) =~= wal + before + tail);
            assert(lines.take(init.len() as int) =~= init);
            init.len() as int
        }
    }
}

/// A batch is all or nothing, wherever the writing of its frame stops. If
/// the frame `BEGIN`, lines, `END` was written whole behind a terminated
/// journal, recovery replays the lines of the batch after what it replayed
/// before; if the writing was cut off after any smaller number of bytes,
/// recovery replays what it replayed before and nothing of the batch.
pub proof fn law_batch_all_or_nothing(wal: Seq<u8>, lines: Seq<Seq<u8>>, cut: int)
    requires
        terminated(wal),
        plain_lines(lines),
        forall|i: int| 0 <= i < lines.len() ==> is_mutation_line(#[trigger] lines[i]),
        0 <= cut <= lines_bytes(seq![begin_token()] + lines + seq![end_token()]).len(),
    ensures
        ({
            let frame = lines_bytes(seq![begin_token()] + lines + seq![end_token()]);
            let before = committed_lines(line_texts(records(wal)));
            committed_lines(line_texts(records(wal + frame.take(cut)))) == if cut == frame.len() {
                before + lines
            } else {
                before
            }
        }),
{
    let all = seq![begin_token()] + lines + seq![end_token()];
    let journal = line_texts(records(wal));
    assert(plain_lines(all)) by {
        assert forall|i: int| 0 <= i < all.len() implies !(#[trigger] all[i]).contains(LF) by {
            if i == 0 {
                if begin_token().contains(LF) {
                    let j = choose|j: int| 0 <= j < begin_token().len() && begin_token()[j] == LF;
                    assert(begin_token()[j] != LF);
                }
            } else if i <= lines.len() {
                assert(all[i] == lines[i - 1]);
            } else {
                if end_token().contains(LF) {
                    let j = choose|j: int| 0 <= j < end_token().len() && end_token()[j] == LF;
                    assert(end_token()[j] != LF);
                }
            }
        }
    }
    let whole = lemma_cut_lines(wal, all, cut);
    if cut == lines_bytes(all).len() {
        lemma_written_lines(wal, all);
        assert(lines_bytes(all).take(cut) =~= lines_bytes(all));
        lemma_batch_atomic(journal, lines, 0);
        assert(journal + all =~= journal + seq![begin_token()] + lines + seq![end_token()]);
    } else if whole == 0 {
        assert(journal + all.take(0) =~= journal);
    } else {
        lemma_batch_atomic(journal, lines, whole - 1);
        assert(journal + all.take(whole) =~= journal + seq![begin_token()] + lines.take(
            whole - 1,
        ));
    }
}

/// Replaying the lines of a batch does what the batch does. Where the
/// lines can be read back and the serializer writes what it reads back as
/// the same bytes, the replay succeeds, and readers see after it what they
/// see after the mutations were applied in order.
pub proof fn law_batch_replayed<S: Serializer>(s: S, m: Store, ops: Seq<BatchOp>)
    requires
        ops_keys_valid(ops),
        ops_ok(s, ops),
        ops_readable(s, ops),
        ops_stable(s, ops),
    ensures
        replay_lines(s, m, ops_lines(s, ops)) is Some,
        held_of(s, replay_lines(s, m, ops_lines(s, ops))->Some_0) == apply_writes(
            held_of(s, m),
            ops_writes(s, ops),
        ),
    decreases ops.len(),
{
    let lines = ops_lines(s, ops);
    let ws = ops_writes(s, ops);
    if ops.len() > 0 {
        let init = ops.drop_last();
        let last = ops.last();
        assert(ops_keys_valid(init) && ops_ok(s, init) && ops_readable(s, init) && ops_stable(
            s,
            init,
        )) by {
            assert forall|i: int| 0 <= i < init.len() implies crate::kv::valid_key_text(
                (#[trigger] init[i])@.key(),
            ) && op_write(s, init[i]@) is Some && op_readable(s, init[i]@) by {
                assert(init[i] == ops[i]);
            }
            assert forall|i: int| 0 <= i < init.len() implies (match (#[trigger] init[i])@ {
                crate::types::BatchOpView::Put(k, v) => {
                    let data = s.encoded(v)->Some_0;
                    s.decoded(data) is Some && s.encoded(s.decoded(data)->Some_0) == Some(data)
                },
                crate::types::BatchOpView::Del(k) => true,
            }) by {
                assert(init[i] == ops[i]);
            }
        }
        law_batch_replayed(s, m, init);
        assert(lines.drop_last() =~= ops_lines(s, init));
        assert(ws.drop_last() =~= ops_writes(s, init));
        assert(lines.last() == op_line(s, last@));
        assert(ws.last() == op_write(s, last@)->Some_0);
        let m1 = replay_lines(s, m, ops_lines(s, init))->Some_0;
        let i = ops.len() - 1;
        assert(ops[i] == last);
        assert(crate::kv::valid_key_text(ops[i]@.key()));
        assert(op_write(s, ops[i]@) is Some);
        assert(op_readable(s, ops[i]@));
        match last@ {
            crate::types::BatchOpView::Put(k, v) => {
                let data = s.encoded(v)->Some_0;
                let record = crate::kv::put_record(k, data, None);
                crate::codec::lemma_decode_encode(record);
                let entry = crate::store::Entry {
                    value: crate::codec::base64_text(data),
                    expiry: None,
                };
                lemma_held_insert(s, m1, vstd::utf8::encode_utf8(k), entry);
            },
            crate::types::BatchOpView::Del(k) => {
                crate::codec::lemma_decode_encode(crate::kv::del_record(k));
                lemma_held_remove(s, m1, vstd::utf8::encode_utf8(k));
            },
        }
    }
}

/// The plain serializer reads every value back and writes it as the same
/// bytes again.
pub proof fn law_plain_is_stable(ops: Seq<BatchOp>)
    ensures
        ops_stable(PlainSerializer, ops),
{
    assert forall|i: int| 0 <= i < ops.len() implies (match (#[trigger] ops[i])@ {
        crate::types::BatchOpView::Put(k, v) => {
            let data = PlainSerializer.encoded(v)->Some_0;
            PlainSerializer.decoded(data) is Some && PlainSerializer.encoded(
                PlainSerializer.decoded(data)->Some_0,
            ) == Some(data)
        },
        crate::types::BatchOpView::Del(k) => true,
    }) by {
        match ops[i]@ {
            crate::types::BatchOpView::Put(k, v) => {
                crate::serialization::law_plain_round_trip(v);
            },
            crate::types::BatchOpView::Del(k) => {},
        }
    }
}

/// With the plain serializer, replaying the lines of a batch does what the
/// batch does, whatever the values.
pub proof fn law_plain_batch_replayed(m: Store, ops: Seq<BatchOp>)
    requires
        ops_keys_valid(ops),
        ops_ok(PlainSerializer, ops),
        ops_readable(PlainSerializer, ops),
    ensures
        replay_lines(PlainSerializer, m, ops_lines(PlainSerializer, ops)) is Some,
        held_of(
            PlainSerializer,
            replay_lines(PlainSerializer, m, ops_lines(PlainSerializer, ops))->Some_0,
        ) == apply_writes(held_of(PlainSerializer, m), ops_writes(PlainSerializer, ops)),
{
    law_plain_is_stable(ops);
    law_batch_replayed(PlainSerializer, m, ops);
}

/// A batch whose frame reached the journal survives a crash before its
/// mutations reached the log. Opened on the log as it was, with the frame
/// `BEGIN`, lines, `END` whole behind a journal that held no closed batch,
/// the store gives the reads of the store as it opens without the frame,
/// with every mutation of the batch applied in order. It rests on what
/// `batch` has of its lines before it writes them, and on a serializer that
/// writes what it reads back as the same bytes.
pub proof fn law_batch_survives_crash<S: Serializer>(
    s: S,
    log: Seq<u8>,
    wal: Seq<u8>,
    hint: Option<Seq<u8>>,
    ops: Seq<BatchOp>,
    now: u64,
)
    requires
        terminated(wal),
        committed_lines(line_texts(records(wal))).len() == 0,
        ops_keys_valid(ops),
        ops_ok(s, ops),
        ops_readable(s, ops),
        ops_stable(s, ops),
    ensures
        ({
            let frame = lines_bytes(seq![begin_token()] + ops_lines(s, ops) + seq![end_token()]);
            let after = SlackbaseEngine::<S>::recovered(log, wal + frame, hint, s, now);
            &&& after is Some
            &&& held_of(s, after->Some_0) == apply_writes(
                held_of(s, SlackbaseEngine::<S>::scanned(log, hint, now)),
                ops_writes(s, ops),
            )
        }),
{
    let lines = ops_lines(s, ops);
    let all = seq![begin_token()] + lines + seq![end_token()];
    let journal = line_texts(records(wal));
    lemma_batch_lines(s, ops);
    assert(plain_lines(lines)) by {
        assert forall|i: int| 0 <= i < lines.len() implies !(#[trigger] lines[i]).contains(LF) by {
            assert(crate::kv::valid_key_text(ops[i]@.key()));
            assert(op_readable(s, ops[i]@));
            match ops[i]@ {
                crate::types::BatchOpView::Put(k, v) => {
                    crate::codec::lemma_encode_no_newline(
                        crate::kv::put_record(k, s.encoded(v)->Some_0, None),
                    );
                },
                crate::types::BatchOpView::Del(k) => {
                    crate::codec::lemma_encode_no_newline(crate::kv::del_record(k));
                },
            }
        }
    }
    law_batch_all_or_nothing(wal, lines, lines_bytes(all).len() as int);
    assert(lines_bytes(all).take(lines_bytes(all).len() as int) =~= lines_bytes(all));
    assert(committed_lines(journal) =~= Seq::<Seq<u8>>::empty());
    assert(committed_lines(journal) + lines =~= lines);
    law_batch_replayed(s, SlackbaseEngine::<S>::scanned(log, hint, now), ops);
}

/// A log that has grown by the records of some mutations, scanned at
/// `now`, gives the reads of the log as it was with those mutations applied
/// in order.
pub proof fn lemma_scan_after_ops<S: Serializer>(s: S, log: Seq<u8>, ops: Seq<BatchOp>, now: u64)
    requires
        terminated(log),
        log.len() + lines_bytes(ops_lines(s, ops)).len() <= usize::MAX,
        ops_keys_valid(ops),
        ops_ok(s, ops),
        ops_readable(s, ops),
    ensures
        terminated(log + lines_bytes(ops_lines(s, ops))),
        held_of(
            s,
            store_of(
                log + lines_bytes(ops_lines(s, ops)),
                live_index(log + lines_bytes(ops_lines(s, ops)), now),
            ),
        ) == apply_writes(held_of(s, store_of(log, live_index(log, now))), ops_writes(s, ops)),
    decreases ops.len(),
{
    let lines = ops_lines(s, ops);
    let ws = ops_writes(s, ops);
    if ops.len() == 0 {
        assert(log + lines_bytes(lines) =~= log);
    } else {
        let init = ops.drop_last();
        let last = ops.last();
        let i = ops.len() - 1;
        assert(ops[i] == last);
        assert(crate::kv::valid_key_text(ops[i]@.key()));
        assert(op_write(s, ops[i]@) is Some);
        assert(op_readable(s, ops[i]@));
        assert(ops_keys_valid(init) && ops_ok(s, init) && ops_readable(s, init)) by {
            assert forall|j: int| 0 <= j < init.len() implies crate::kv::valid_key_text(
                (#[trigger] init[j])@.key(),
            ) && op_write(s, init[j]@) is Some && op_readable(s, init[j]@) by {
                assert(init[j] == ops[j]);
            }
        }
        assert(lines.drop_last() =~= ops_lines(s, init));
        assert(ws.drop_last() =~= ops_writes(s, init));
        assert(lines.last() == op_line(s, last@));
        assert(ws.last() == op_write(s, last@)->Some_0);
        lemma_ops_lines_plain(s, ops);
        assert(!lines[i].contains(LF));
        lemma_lines_bytes_push(ops_lines(s, init), lines.last());
        assert(ops_lines(s, init).push(lines.last()) =~= lines);
        lemma_scan_after_ops(s, log, init, now);
        let log1 = log + lines_bytes(ops_lines(s, init));
        let line = op_line(s, last@);
        let log2 = log1 + line + seq![LF];
        assert(log + lines_bytes(lines) =~= log2);
        let index1 = live_index(log1, now);
        crate::storage::lemma_live_index(log1, now);
        lemma_records_append(log1, line);
        assert(records(log2).drop_last() =~= records(log1));
        crate::store::lemma_append_line(log1, line);
        match last@ {
            crate::types::BatchOpView::Put(k, v) => {
                let data = s.encoded(v)->Some_0;
                let record = crate::kv::put_record(k, data, None);
                crate::codec::lemma_decode_encode(record);
                crate::codec::lemma_encode_no_newline(record);
                lemma_append_put(log1, index1, now, record);
                let entry = crate::store::Entry {
                    value: crate::codec::base64_text(data),
                    expiry: None,
                };
                lemma_held_insert(s, store_of(log1, index1), vstd::utf8::encode_utf8(k), entry);
            },
            crate::types::BatchOpView::Del(k) => {
                let record = crate::kv::del_record(k);
                crate::codec::lemma_decode_encode(record);
                crate::codec::lemma_encode_no_newline(record);
                lemma_append_del(log1, index1, now, record);
                lemma_held_remove(s, store_of(log1, index1), vstd::utf8::encode_utf8(k));
            },
        }
    }
}

/// A batch whose frame reached the journal survives a crash in the middle
/// of its replay. Say the first `done` mutations had reached the log and
/// the journal when the store stopped. Opened by a scan on what is there,
/// the store replays the whole batch, and gives the reads of the store as
/// it opened before the batch with every mutation applied in order, once.
pub proof fn law_batch_survives_crash_in_replay<S: Serializer>(
    s: S,
    log: Seq<u8>,
    wal: Seq<u8>,
    ops: Seq<BatchOp>,
    done: int,
    now: u64,
)
    requires
        terminated(log),
        terminated(wal),
        committed_lines(line_texts(records(wal))).len() == 0,
        ops_keys_valid(ops),
        ops_ok(s, ops),
        ops_readable(s, ops),
        ops_stable(s, ops),
        0 <= done <= ops.len(),
        log.len() + lines_bytes(ops_lines(s, ops.take(done))).len() <= usize::MAX,
    ensures
        ({
            let frame = lines_bytes(seq![begin_token()] + ops_lines(s, ops) + seq![end_token()]);
            let part = lines_bytes(ops_lines(s, ops.take(done)));
            let after = SlackbaseEngine::<S>::recovered(
                log + part,
                wal + frame + part,
                None,
                s,
                now,
            );
            &&& after is Some
            &&& held_of(s, after->Some_0) == apply_writes(
                held_of(s, SlackbaseEngine::<S>::scanned(log, None, now)),
                ops_writes(s, ops),
            )
        }),
{
    let lines = ops_lines(s, ops);
    let first = ops.take(done);
    let first_lines = ops_lines(s, first);
    let all = seq![begin_token()] + lines + seq![end_token()];
    let frame = lines_bytes(all);
    let part = lines_bytes(first_lines);
    let journal = line_texts(records(wal));
    let ws = ops_writes(s, ops);
    assert(ops_keys_valid(first) && ops_ok(s, first) && ops_readable(s, first)) by {
        assert forall|j: int| 0 <= j < first.len() implies crate::kv::valid_key_text(
            (#[trigger] first[j])@.key(),
        ) && op_write(s, first[j]@) is Some && op_readable(s, first[j]@) by {
            assert(first[j] == ops[j]);
        }
    }
    lemma_ops_lines_plain(s, ops);
    lemma_ops_lines_plain(s, first);
    lemma_batch_lines(s, ops);
    lemma_batch_lines(s, first);
    lemma_frame_plain(lines);
    // The journal: the frame, then the lines that were replayed one by one.
    lemma_written_lines(wal, all);
    lemma_written_lines(wal + frame, first_lines);
    lemma_batch_atomic(journal, lines, 0);
    assert(journal + all =~= journal + seq![begin_token()] + lines + seq![end_token()]);
    lemma_outside_batches(journal + all, first_lines);
    assert(committed_lines(journal) =~= Seq::<Seq<u8>>::empty());
    assert(committed_lines(journal) + lines =~= lines);
    assert(committed_lines(line_texts(records(wal + frame + part))) == lines);
    // The log: the records of the first mutations behind what was there.
    lemma_scan_after_ops(s, log, first, now);
    let log2 = log + part;
    crate::storage::lemma_last_line_start_append(log2, Seq::<u8>::empty());
    assert(log2 + Seq::<u8>::empty() =~= log2);
    assert(log2.take(log2.len() as int) =~= log2);
    crate::storage::lemma_last_line_start_append(log, Seq::<u8>::empty());
    assert(log + Seq::<u8>::empty() =~= log);
    assert(log.take(log.len() as int) =~= log);
    assert(ops_writes(s, first) =~= ws.take(done));
    let m1 = SlackbaseEngine::<S>::scanned(log2, None, now);
    law_batch_replayed(s, m1, ops);
    law_writes_repeat(held_of(s, SlackbaseEngine::<S>::scanned(log, None, now)), ws, done);
}

/// The lines of a batch whose lines can be read back hold no LF.
pub proof fn lemma_ops_lines_plain<S: Serializer>(s: S, ops: Seq<BatchOp>)
    requires
        ops_keys_valid(ops),
        ops_readable(s, ops),
    ensures
        plain_lines(ops_lines(s, ops)),
{
    let lines = ops_lines(s, ops);
    assert forall|i: int| 0 <= i < lines.len() implies !(#[trigger] lines[i]).contains(LF) by {
        assert(crate::kv::valid_key_text(ops[i]@.key()));
        assert(op_readable(s, ops[i]@));
        match ops[i]@ {
            crate::types::BatchOpView::Put(k, v) => {
                crate::codec::lemma_encode_no_newline(
                    crate::kv::put_record(k, s.encoded(v)->Some_0, None),
                );
            },
            crate::types::BatchOpView::Del(k) => {
                crate::codec::lemma_encode_no_newline(crate::kv::del_record(k));
            },
        }
    }
}

/// A frame of lines without LF holds no LF.
pub proof fn lemma_frame_plain(lines: Seq<Seq<u8>>)
    requires
        plain_lines(lines),
    ensures
        plain_lines(seq![begin_token()] + lines + seq![end_token()]),
{
    let all = seq![begin_token()] + lines + seq![end_token()];
    assert forall|i: int| 0 <= i < all.len() implies !(#[trigger] all[i]).contains(LF) by {
        if i == 0 {
            if begin_token().contains(LF) {
                let j = choose|j: int| 0 <= j < begin_token().len() && begin_token()[j] == LF;
                assert(begin_token()[j] != LF);
            }
        } else if i <= lines.len() {
            assert(all[i] == lines[i - 1]);
        } else {
            if end_token().contains(LF) {
                let j = choose|j: int| 0 <= j < end_token().len() && end_token()[j] == LF;
                assert(end_token()[j] != LF);
            }
        }
    }
}

} // verus!
