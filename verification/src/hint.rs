//! The hint file: the offset index written out as lines `key,offset,len`.

use vstd::prelude::*;

use crate::bytes::{find_byte, slice_copy};
use crate::codec::LF;
use crate::decimal::{
    decimal_digits, format_u64, is_digit, lemma_parse_decimal_digits, parse_decimal, parse_u64,
};
use crate::offsets::{
    lemma_slots_map, slots_have, slots_map, strictly_sorted, Extent, OffsetIndex, Slot,
};
use crate::storage::{lemma_records_append, lemma_records_tail, records, terminated, LogLine};

verus! {

/// The byte between the fields of a hint line.
pub const COMMA: u8 = 44;

/// Position of the last `b` in `s`, or -1 when `s` holds none.
pub open spec fn last_position_of(s: Seq<u8>, b: u8) -> int
    decreases s.len(),
{
    if s.len() == 0 {
        -1
    } else if s.last() == b {
        s.len() - 1
    } else {
        last_position_of(s.drop_last(), b)
    }
}

/// The line of one index entry.
pub open spec fn hint_line(s: Slot) -> Seq<u8> {
    s.key + seq![COMMA] + decimal_digits(s.extent.offset as nat) + seq![COMMA] + decimal_digits(
        s.extent.len as nat,
    )
}

/// The hint file of the entries: one line each, in order.
pub open spec fn hint_text(slots: Seq<Slot>) -> Seq<u8>
    decreases slots.len(),
{
    if slots.len() == 0 {
        Seq::<u8>::empty()
    } else {
        hint_text(slots.drop_last()) + hint_line(slots.last()) + seq![LF]
    }
}

/// The entry that a line holds: the text before the second-last comma is the
/// key, the two numbers after it are offset and length.
pub open spec fn parse_hint_line(line: Seq<u8>) -> Option<Slot> {
    let c2 = last_position_of(line, COMMA);
    if 0 <= c2 < line.len() {
        let head = line.take(c2);
        let c1 = last_position_of(head, COMMA);
        if 0 <= c1 < head.len() {
            match (parse_decimal(head.skip(c1 + 1)), parse_decimal(line.skip(c2 + 1))) {
                (Some(offset), Some(len)) => if len <= usize::MAX {
                    Some(Slot { key: head.take(c1), extent: Extent { offset, len: len as usize } })
                } else {
                    None
                },
                _ => None,
            }
        } else {
            None
        }
    } else {
        None
    }
}

/// One line of a hint file applied to an index.
pub open spec fn apply_hint(acc: Map<Seq<u8>, Extent>, l: LogLine) -> Map<Seq<u8>, Extent> {
    match parse_hint_line(l.line) {
        Some(s) => acc.insert(s.key, s.extent),
        None => acc,
    }
}

/// The index that the lines of a hint file give; a later line for a key
/// replaces an earlier one, and lines that hold no entry are passed over.
pub open spec fn hint_index(lines: Seq<LogLine>) -> Map<Seq<u8>, Extent>
    decreases lines.len(),
{
    if lines.len() == 0 {
        Map::<Seq<u8>, Extent>::empty()
    } else {
        apply_hint(hint_index(lines.drop_last()), lines.last())
    }
}

/// A position at which `b` stands, with no `b` after it, is the position of
/// the last `b`.
pub proof fn lemma_last_position_is(s: Seq<u8>, b: u8, i: int)
    requires
        0 <= i < s.len(),
        s[i] == b,
        forall|j: int| i < j < s.len() ==> s[j] != b,
    ensures
        last_position_of(s, b) == i,
    decreases s.len(),
{
    if s.last() != b {
        lemma_last_position_is(s.drop_last(), b, i);
    }
}

/// A string without `b` has no last `b`.
pub proof fn lemma_last_position_none(s: Seq<u8>, b: u8)
    requires
        forall|j: int| 0 <= j < s.len() ==> s[j] != b,
    ensures
        last_position_of(s, b) == -1,
    decreases s.len(),
{
    if s.len() > 0 {
        lemma_last_position_none(s.drop_last(), b);
    }
}

/// Reading the line of an entry gives the entry.
pub proof fn lemma_parse_hint_line(s: Slot)
    ensures
        parse_hint_line(hint_line(s)) == Some(s),
{
    let d1 = decimal_digits(s.extent.offset as nat);
    let d2 = decimal_digits(s.extent.len as nat);
    lemma_parse_decimal_digits(s.extent.offset);
    lemma_parse_decimal_digits(s.extent.len as u64);
    let line = hint_line(s);
    let c2 = s.key.len() + 1 + d1.len();
    assert(line[c2 as int] == COMMA);
    assert forall|j: int| c2 < j < line.len() implies line[j] != COMMA by {
        assert(line[j] == d2[j - c2 - 1]);
        assert(is_digit(d2[j - c2 - 1]));
    }
    lemma_last_position_is(line, COMMA, c2 as int);
    let head = line.take(c2 as int);
    assert(head =~= s.key + seq![COMMA] + d1);
    let c1 = s.key.len();
    assert(head[c1 as int] == COMMA);
    assert forall|j: int| c1 < j < head.len() implies head[j] != COMMA by {
        assert(head[j] == d1[j - c1 - 1]);
        assert(is_digit(d1[j - c1 - 1]));
    }
    lemma_last_position_is(head, COMMA, c1 as int);
    assert(head.skip(c1 as int + 1) =~= d1);
    assert(line.skip(c2 as int + 1) =~= d2);
    assert(head.take(c1 as int) =~= s.key);
}

/// The line of an entry holds no LF when its key holds none.
pub proof fn lemma_hint_line_plain(s: Slot)
    requires
        !s.key.contains(LF),
    ensures
        !hint_line(s).contains(LF),
{
    let d1 = decimal_digits(s.extent.offset as nat);
    let d2 = decimal_digits(s.extent.len as nat);
    lemma_parse_decimal_digits(s.extent.offset);
    lemma_parse_decimal_digits(s.extent.len as u64);
    let line = hint_line(s);
    if line.contains(LF) {
        let j = choose|j: int| 0 <= j < line.len() && line[j] == LF;
        let a = s.key.len() as int;
        let b = a + 1 + d1.len();
        if j < a {
            assert(s.key.contains(s.key[j]));
        } else if j == a {
        } else if j < b {
            assert(is_digit(d1[j - a - 1]));
        } else if j == b {
        } else {
            assert(is_digit(d2[j - b - 1]));
        }
    }
}

/// A hint file ends with a complete line.
pub proof fn lemma_hint_text_terminated(slots: Seq<Slot>)
    ensures
        terminated(hint_text(slots)),
{
}

/// A hint file written from an index reads back as that index.
pub proof fn lemma_hint_round_trip(slots: Seq<Slot>)
    requires
        strictly_sorted(slots),
        forall|i: int| 0 <= i < slots.len() ==> !(#[trigger] slots[i]).key.contains(LF),
    ensures
        hint_index(records(hint_text(slots))) == slots_map(slots),
    decreases slots.len(),
{
    if slots.len() == 0 {
        assert(slots_map(slots) =~= Map::<Seq<u8>, Extent>::empty());
    } else {
        let init = slots.drop_last();
        let last = slots.last();
        assert(strictly_sorted(init)) by {
            assert forall|i: int, j: int| 0 <= i < j < init.len() implies crate::bytes::lex_lt(
                #[trigger] init[i].key,
                #[trigger] init[j].key,
            ) by {
                assert(init[i] == slots[i] && init[j] == slots[j]);
            }
        }
        assert forall|i: int| 0 <= i < init.len() implies !(#[trigger] init[i]).key.contains(
            LF,
        ) by {
            assert(init[i] == slots[i]);
        }
        lemma_hint_round_trip(init);
        lemma_hint_text_terminated(init);
        lemma_hint_line_plain(last);
        lemma_records_append(hint_text(init), hint_line(last));
        lemma_parse_hint_line(last);
        let lines = records(hint_text(slots));
        assert(lines.drop_last() =~= records(hint_text(init)));
        assert(hint_index(lines) == slots_map(init).insert(last.key, last.extent));
        lemma_slots_map(init);
        lemma_slots_map(slots);
        let m = slots_map(init).insert(last.key, last.extent);
        assert forall|k: Seq<u8>| m.contains_key(k) == slots_have(slots, k) by {
            if slots_have(slots, k) {
                let i = choose|i: int| 0 <= i < slots.len() && #[trigger] slots[i].key == k;
                if i < init.len() {
                    assert(init[i].key == k);
                }
            }
            if slots_have(init, k) {
                let i = choose|i: int| 0 <= i < init.len() && #[trigger] init[i].key == k;
                assert(slots[i].key == k);
            }
            if k == last.key {
                assert(slots[slots.len() - 1].key == k);
            }
        }
        assert forall|k: Seq<u8>| m.contains_key(k) implies m[k] == slots_map(slots)[k] by {
            let i = choose|i: int| 0 <= i < slots.len() && #[trigger] slots[i].key == k;
            assert(slots_map(slots)[slots[i].key] == slots[i].extent);
            if i < init.len() {
                assert(init[i] == slots[i]);
                assert(slots_map(init)[init[i].key] == init[i].extent);
                assert(slots[i].key != slots[slots.len() - 1].key);
            }
        }
        assert(m =~= slots_map(slots));
    }
}

/// The hint file of `index`.
pub fn save_hint(index: &OffsetIndex) -> (r: Vec<u8>)
    ensures
        r@ == hint_text(index.slots()),
{
    let mut out: Vec<u8> = Vec::new();
    let mut i: usize = 0;
    let ghost slots = index.slots();
    proof {
        assert(slots.take(0) =~= Seq::<Slot>::empty());
    }
    while i < index.len()
        invariant
            i <= slots.len(),
            slots == index.slots(),
            out@ == hint_text(slots.take(i as int)),
        decreases slots.len() - i,
    {
        let e = index.extent_at(i);
        let ghost before = out@;
        out.extend_from_slice(index.key_at(i).as_slice());
        out.push(COMMA);
        let off = format_u64(e.offset);
        out.extend_from_slice(off.as_slice());
        out.push(COMMA);
        let len = format_u64(e.len as u64);
        out.extend_from_slice(len.as_slice());
        out.push(LF);
        proof {
            let t = slots.take(i + 1);
            assert(t.drop_last() =~= slots.take(i as int));
            assert(t.last() == slots[i as int]);
            assert(out@ =~= before + hint_line(slots[i as int]) + seq![LF]);
        }
        i += 1;
    }
    proof {
        assert(slots.take(i as int) =~= slots);
    }
    out
}

/// Index of the last `b` before `end`, if there is one.
fn rfind_byte(s: &[u8], end: usize, b: u8) -> (r: Option<usize>)
    requires
        end <= s.len(),
    ensures
        match r {
            Some(i) => i < end && last_position_of(s@.take(end as int), b) == i,
            None => last_position_of(s@.take(end as int), b) == -1,
        },
{
    let mut i: usize = end;
    let ghost t = s@.take(end as int);
    while i > 0
        invariant
            i <= end <= s.len(),
            t == s@.take(end as int),
            forall|j: int| i <= j < end ==> s@[j] != b,
        decreases i,
    {
        i -= 1;
        if s[i] == b {
            proof {
                lemma_last_position_is(t, b, i as int);
            }
            return Some(i);
        }
    }
    proof {
        lemma_last_position_none(t, b);
    }
    None
}

fn parse_line(line: &[u8]) -> (r: Option<(Vec<u8>, Extent)>)
    ensures
        match parse_hint_line(line@) {
            Some(s) => r is Some && r->Some_0.0@ == s.key && r->Some_0.1 == s.extent,
            None => r is None,
        },
{
    proof {
        assert(line@.take(line@.len() as int) =~= line@);
    }
    let c2 = match rfind_byte(line, line.len(), COMMA) {
        Some(c) => c,
        None => {
            return None;
        },
    };
    let c1 = match rfind_byte(line, c2, COMMA) {
        Some(c) => c,
        None => {
            return None;
        },
    };
    let ghost head = line@.take(c2 as int);
    let off_text = slice_copy(line, c1 + 1, c2);
    let len_text = slice_copy(line, c2 + 1, line.len());
    proof {
        assert(off_text@ =~= head.skip(c1 + 1));
        assert(len_text@ =~= line@.skip(c2 + 1));
    }
    let offset = match parse_u64(off_text.as_slice()) {
        Some(n) => n,
        None => {
            return None;
        },
    };
    let len = match parse_u64(len_text.as_slice()) {
        Some(n) => n,
        None => {
            return None;
        },
    };
    if len > usize::MAX as u64 {
        return None;
    }
    let key = slice_copy(line, 0, c1);
    proof {
        assert(key@ =~= head.take(c1 as int));
    }
    Some((key, Extent { offset, len: len as usize }))
}

/// The index that a hint file holds.
pub fn load_hint(hint: &[u8]) -> (r: OffsetIndex)
    ensures
        r.wf(),
        r@ == hint_index(records(hint@)),
{
    let mut idx = OffsetIndex::new();
    let mut pos: usize = 0;
    proof {
        assert(hint@.take(0) =~= Seq::<u8>::empty());
    }
    loop
        invariant
            pos <= hint.len(),
            idx.wf(),
            terminated(hint@.take(pos as int)),
            idx@ == hint_index(records(hint@.take(pos as int))),
        decreases hint.len() - pos,
    {
        let end = find_byte(hint, pos, LF);
        let ghost head = hint@.take(pos as int);
        if end >= hint.len() {
            proof {
                let tail = hint@.skip(pos as int);
                assert(!tail.contains(LF)) by {
                    if tail.contains(LF) {
                        let j = choose|j: int| 0 <= j < tail.len() && tail[j] == LF;
                        assert(hint@[pos + j] == LF);
                    }
                }
                lemma_records_tail(head, tail);
                assert(head + tail =~= hint@);
            }
            return idx;
        }
        let line = slice_copy(hint, pos, end);
        proof {
            assert(!line@.contains(LF)) by {
                if line@.contains(LF) {
                    let j = choose|j: int| 0 <= j < line@.len() && line@[j] == LF;
                    assert(hint@[pos + j] == LF);
                }
            }
            lemma_records_append(head, line@);
            assert(head + line@ + seq![LF] =~= hint@.take(end + 1));
            assert(records(hint@.take(end + 1)).drop_last() =~= records(head));
        }
        match parse_line(line.as_slice()) {
            Some((key, extent)) => {
                idx.insert(key, extent);
            },
            None => {},
        }
        pos = end + 1;
    }
}

} // verus!
