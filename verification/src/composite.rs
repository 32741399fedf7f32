//! Hashes, lists and sets: values that are JSON objects or arrays, changed
//! by reading the value, changing it, and writing it back.

use vstd::prelude::*;
use vstd::utf8::encode_utf8;

use crate::json::{
    array_items, entries_or_empty, entries_view, entry_of, get_entry, has_text, items_of,
    items_view, json_doc_of, json_text_of, list_range_of, object_entries, pairs_view, parse_doc,
    range_of, remove_entry, render_doc, set_entry, texts_view, with_entry, without_entry, JsonDoc,
    JsonDocView, JsonItem, JsonItemView,
};
use crate::kv::{valid_key_text, SlackbaseEngine};
use crate::serialization::Serializer;
use crate::store::read;
use crate::types::Error;

verus! {

/// The text of an optional string.
pub open spec fn opt_view(text: Option<String>) -> Option<Seq<char>> {
    match text {
        Some(t) => Some(t@),
        None => None,
    }
}

/// What a text parses to; no text parses to nothing.
pub open spec fn doc_of(text: Option<Seq<char>>) -> Option<JsonDocView> {
    match text {
        Some(t) => json_doc_of(t),
        None => None,
    }
}

fn parse_opt(text: &Option<String>) -> (r: Option<JsonDoc>)
    ensures
        match doc_of(opt_view(*text)) {
            Some(d) => r is Some && r->Some_0@ == d,
            None => r is None,
        },
{
    match text {
        Some(t) => parse_doc(t.as_str()),
        None => None,
    }
}

/// The JSON text of an item.
pub open spec fn item_text_of(item: JsonItemView) -> Option<Seq<char>> {
    match item {
        JsonItemView::Text(s) => json_text_of(JsonDocView::Scalar(JsonItemView::Text(s))),
        JsonItemView::Other(t) => Some(t),
    }
}

/// The JSON text of an item.
pub fn item_text(item: &JsonItem) -> (r: Option<String>)
    ensures
        opt_view(r) == item_text_of(item@),
{
    match item {
        JsonItem::Text(s) => render_doc(&JsonDoc::Scalar(JsonItem::Text(s.clone()))),
        JsonItem::Other(t) => Some(t.clone()),
    }
}

/// The item that a given text stands for: the value it parses to if it is
/// JSON, else the text as a string.
pub open spec fn item_of_text(value: Seq<char>) -> JsonItemView {
    match json_doc_of(value) {
        Some(JsonDocView::Scalar(i)) => i,
        Some(d) => match json_text_of(d) {
            Some(t) => JsonItemView::Other(t),
            None => JsonItemView::Text(value),
        },
        None => JsonItemView::Text(value),
    }
}

/// The item that a given text stands for.
pub fn item_from(value: &str) -> (r: JsonItem)
    ensures
        r@ == item_of_text(value@),
{
    match parse_doc(value) {
        Some(JsonDoc::Scalar(i)) => i,
        Some(d) => match render_doc(&d) {
            Some(t) => JsonItem::Other(t),
            None => JsonItem::Text(value.to_owned()),
        },
        None => JsonItem::Text(value.to_owned()),
    }
}

/// The object text with `field` set to the item that `value` stands for; a
/// text that is no object counts as the empty object.
pub open spec fn field_set(old: Option<Seq<char>>, field: Seq<char>, value: Seq<char>) -> Option<
    Seq<char>,
> {
    json_text_of(
        JsonDocView::Object(with_entry(entries_or_empty(doc_of(old)), field, item_of_text(value))),
    )
}

/// The object text with `field` set to the item that `value` stands for.
pub fn set_field_text(old: &Option<String>, field: &str, value: &str) -> (r: Option<String>)
    ensures
        opt_view(r) == field_set(opt_view(*old), field@, value@),
{
    let mut entries = object_entries(parse_opt(old));
    set_entry(&mut entries, field, item_from(value));
    render_doc(&JsonDoc::Object(entries))
}

/// The object text with `field` set to the string `value`.
pub open spec fn hash_field_set(old: Option<Seq<char>>, field: Seq<char>, value: Seq<char>) -> Option<
    Seq<char>,
> {
    json_text_of(
        JsonDocView::Object(
            with_entry(entries_or_empty(doc_of(old)), field, JsonItemView::Text(value)),
        ),
    )
}

/// The object text with `field` set to the string `value`.
pub fn hash_set_text(old: &Option<String>, field: &str, value: &str) -> (r: Option<String>)
    ensures
        opt_view(r) == hash_field_set(opt_view(*old), field@, value@),
{
    let mut entries = object_entries(parse_opt(old));
    set_entry(&mut entries, field, JsonItem::Text(value.to_owned()));
    render_doc(&JsonDoc::Object(entries))
}

/// The object text without `field`.
pub open spec fn hash_field_removed(old: Option<Seq<char>>, field: Seq<char>) -> Option<Seq<char>> {
    json_text_of(JsonDocView::Object(without_entry(entries_or_empty(doc_of(old)), field)))
}

/// The object text without `field`.
pub fn hash_del_text(old: &Option<String>, field: &str) -> (r: Option<String>)
    ensures
        opt_view(r) == hash_field_removed(opt_view(*old), field@),
{
    let mut entries = object_entries(parse_opt(old));
    remove_entry(&mut entries, field);
    render_doc(&JsonDoc::Object(entries))
}

/// The JSON text of what `field` is bound to in an object text.
pub open spec fn field_text(old: Option<Seq<char>>, field: Seq<char>) -> Option<Seq<char>> {
    match doc_of(old) {
        Some(JsonDocView::Object(entries)) => match entry_of(entries, field) {
            Some(i) => item_text_of(i),
            None => None,
        },
        _ => None,
    }
}

/// The JSON text of what `field` is bound to in an object text.
pub fn get_field_text(old: &Option<String>, field: &str) -> (r: Option<String>)
    ensures
        opt_view(r) == field_text(opt_view(*old), field@),
{
    match parse_opt(old) {
        Some(JsonDoc::Object(entries)) => match get_entry(&entries, field) {
            Some(i) => item_text(&i),
            None => None,
        },
        _ => None,
    }
}

/// The fields of an object text, each with the JSON text of its value; a
/// value without a text gives the empty text.
pub open spec fn hash_pairs(old: Option<Seq<char>>) -> Option<Seq<(Seq<char>, Seq<char>)>> {
    match doc_of(old) {
        Some(JsonDocView::Object(entries)) => Some(
            Seq::new(
                entries.len(),
                |i: int|
                    (
                        entries[i].0,
                        match item_text_of(entries[i].1) {
                            Some(t) => t,
                            None => Seq::empty(),
                        },
                    ),
            ),
        ),
        _ => None,
    }
}

/// The fields of an object text, each with the JSON text of its value.
pub fn hash_all(old: &Option<String>) -> (r: Option<Vec<(String, String)>>)
    ensures
        match hash_pairs(opt_view(*old)) {
            Some(p) => r is Some && pairs_view(r->Some_0@) == p,
            None => r is None,
        },
{
    match parse_opt(old) {
        Some(JsonDoc::Object(entries)) => {
            let mut out: Vec<(String, String)> = Vec::new();
            let mut i: usize = 0;
            let ghost ev = entries_view(entries@);
            while i < entries.len()
                invariant
                    i <= entries.len(),
                    ev == entries_view(entries@),
                    out@.len() == i,
                    forall|j: int|
                        0 <= j < i ==> (#[trigger] out@[j]).0@ == ev[j].0 && out@[j].1@
                            == (match item_text_of(ev[j].1) {
                            Some(t) => t,
                            None => Seq::empty(),
                        }),
                decreases entries.len() - i,
            {
                let name = entries[i].0.clone();
                let text = match item_text(&entries[i].1) {
                    Some(t) => t,
                    None => String::new(),
                };
                proof {
                    assert(ev[i as int] == (entries@[i as int].0@, entries@[i as int].1@));
                }
                out.push((name, text));
                i += 1;
            }
            proof {
                assert(pairs_view(out@) =~= hash_pairs(opt_view(*old))->Some_0);
            }
            Some(out)
        },
        _ => None,
    }
}

/// The items of a list text; a text that is no array counts as empty.
pub open spec fn items_or_empty(old: Option<Seq<char>>) -> Seq<JsonItemView> {
    match items_of(doc_of(old)) {
        Some(items) => items,
        None => Seq::empty(),
    }
}

/// The list text with the string `value` added at the front or at the end.
pub open spec fn list_pushed(old: Option<Seq<char>>, value: Seq<char>, front: bool) -> Option<
    Seq<char>,
> {
    let items = items_or_empty(old);
    json_text_of(
        JsonDocView::Array(
            if front {
                seq![JsonItemView::Text(value)] + items
            } else {
                items.push(JsonItemView::Text(value))
            },
        ),
    )
}

fn list_items(old: &Option<String>) -> (r: Vec<JsonItem>)
    ensures
        items_view(r@) == items_or_empty(opt_view(*old)),
{
    match array_items(parse_opt(old)) {
        Some(items) => items,
        None => {
            let v: Vec<JsonItem> = Vec::new();
            proof {
                assert(items_view(v@) =~= Seq::<JsonItemView>::empty());
            }
            v
        },
    }
}

/// The list text with the string `value` added at the front or at the end.
pub fn list_push_text(old: &Option<String>, value: &str, front: bool) -> (r: Option<String>)
    ensures
        opt_view(r) == list_pushed(opt_view(*old), value@, front),
{
    let mut items = list_items(old);
    let ghost iv = items_view(items@);
    if front {
        items.insert(0, JsonItem::Text(value.to_owned()));
        proof {
            assert(items_view(items@) =~= seq![JsonItemView::Text(value@)] + iv);
        }
    } else {
        items.push(JsonItem::Text(value.to_owned()));
        proof {
            assert(items_view(items@) =~= iv.push(JsonItemView::Text(value@)));
        }
    }
    render_doc(&JsonDoc::Array(items))
}

/// The set text with the string `value` added unless it is there already.
pub open spec fn set_added(old: Option<Seq<char>>, value: Seq<char>) -> Option<Seq<char>> {
    let items = items_or_empty(old);
    json_text_of(
        JsonDocView::Array(
            if items.contains(JsonItemView::Text(value)) {
                items
            } else {
                items.push(JsonItemView::Text(value))
            },
        ),
    )
}

/// The set text with the string `value` added unless it is there already.
pub fn set_add_text(old: &Option<String>, value: &str) -> (r: Option<String>)
    ensures
        opt_view(r) == set_added(opt_view(*old), value@),
{
    let mut items = list_items(old);
    let ghost iv = items_view(items@);
    if !has_text(&items, value) {
        items.push(JsonItem::Text(value.to_owned()));
        proof {
            assert(items_view(items@) =~= iv.push(JsonItemView::Text(value@)));
        }
    }
    render_doc(&JsonDoc::Array(items))
}

/// What a pop takes from a list text: the JSON text of the first or last
/// item, and the text of the list without it. Nothing if the text is no
/// list, the list is empty, or a text cannot be had.
pub open spec fn list_popped(old: Option<Seq<char>>, front: bool) -> Option<(Seq<char>, Seq<char>)> {
    match items_of(doc_of(old)) {
        Some(items) => if items.len() > 0 {
            let item = if front { items.first() } else { items.last() };
            let rest = if front { items.drop_first() } else { items.drop_last() };
            match (item_text_of(item), json_text_of(JsonDocView::Array(rest))) {
                (Some(t), Some(n)) => Some((t, n)),
                _ => None,
            }
        } else {
            None
        },
        None => None,
    }
}

/// What a pop takes from a list text, and the text of the list without it.
pub fn list_pop_text(old: &Option<String>, front: bool) -> (r: Option<(String, String)>)
    ensures
        match list_popped(opt_view(*old), front) {
            Some(p) => r is Some && r->Some_0.0@ == p.0 && r->Some_0.1@ == p.1,
            None => r is None,
        },
{
    let mut items = match array_items(parse_opt(old)) {
        Some(items) => items,
        None => {
            return None;
        },
    };
    if items.len() == 0 {
        return None;
    }
    let ghost iv = items_view(items@);
    let item = if front {
        items.remove(0)
    } else {
        items.remove(items.len() - 1)
    };
    proof {
        if front {
            assert(items_view(items@) =~= iv.drop_first());
        } else {
            assert(items_view(items@) =~= iv.drop_last());
        }
    }
    let text = match item_text(&item) {
        Some(t) => t,
        None => {
            return None;
        },
    };
    match render_doc(&JsonDoc::Array(items)) {
        Some(rest) => Some((text, rest)),
        None => None,
    }
}

/// The JSON texts of the items, if every item has one.
pub open spec fn item_texts(items: Seq<JsonItemView>) -> Option<Seq<Seq<char>>> {
    if forall|i: int| 0 <= i < items.len() ==> item_text_of(#[trigger] items[i]) is Some {
        Some(Seq::new(items.len(), |i: int| item_text_of(items[i])->Some_0))
    } else {
        None
    }
}

/// The JSON texts of the items of a list text from `start` to `end`, both
/// included; a negative index counts from the end.
pub open spec fn list_ranged(old: Option<Seq<char>>, start: int, end: int) -> Option<
    Seq<Seq<char>>,
> {
    match items_of(doc_of(old)) {
        Some(items) => item_texts(range_of(items, start, end)),
        None => None,
    }
}

/// The JSON texts of the items of a list text from `start` to `end`.
pub fn list_range_texts(old: &Option<String>, start: isize, end: isize) -> (r: Option<
    Vec<String>,
>)
    ensures
        match list_ranged(opt_view(*old), start as int, end as int) {
            Some(t) => r is Some && texts_view(r->Some_0@) == t,
            None => r is None,
        },
{
    let items = match array_items(parse_opt(old)) {
        Some(items) => items,
        None => {
            return None;
        },
    };
    let part = list_range_of(&items, start, end);
    let ghost pv = items_view(part@);
    let mut out: Vec<String> = Vec::new();
    let mut i: usize = 0;
    while i < part.len()
        invariant
            i <= part.len(),
            pv == items_view(part@),
            list_ranged(opt_view(*old), start as int, end as int) == item_texts(pv),
            out@.len() == i,
            forall|j: int|
                0 <= j < i ==> item_text_of(#[trigger] pv[j]) is Some && out@[j]@ == item_text_of(
                    pv[j],
                )->Some_0,
        decreases part.len() - i,
    {
        match item_text(&part[i]) {
            Some(t) => {
                out.push(t);
            },
            None => {
                proof {
                    assert(item_text_of(pv[i as int]) is None);
                }
                return None;
            },
        }
        i += 1;
    }
    proof {
        assert(texts_view(out@) =~= item_texts(pv)->Some_0);
    }
    Some(out)
}

/// The number of items of a list text; a text that is no list has none.
pub open spec fn list_length(old: Option<Seq<char>>) -> nat {
    items_or_empty(old).len()
}

/// The number of items of a list text.
pub fn list_len_of(old: &Option<String>) -> (r: usize)
    ensures
        r == list_length(opt_view(*old)),
{
    let items = list_items(old);
    items.len()
}

impl<S: Serializer> SlackbaseEngine<S> {
    /// The engine after `text` was written under `key` with the result `r`:
    /// as after a `put` of the text; if there is no text to write, nothing
    /// has changed and `r` is `Serde`.
    pub open spec fn rewritten(
        &self,
        before: &Self,
        key: Seq<char>,
        text: Option<Seq<char>>,
        r: Result<(), Error>,
    ) -> bool {
        &&& self.wf()
        &&& match text {
            Some(t) => self.wrote(before, key, t, None, r),
            None => r == Err::<(), Error>(Error::Serde) && self.unchanged(before),
        }
    }

    /// The engine after `key` was read at `now` and then `text` was
    /// written under it with the result `r`.
    pub open spec fn read_then_wrote(
        &self,
        before: &Self,
        key: Seq<char>,
        now: u64,
        text: Option<Seq<char>>,
        r: Result<(), Error>,
    ) -> bool {
        exists|mid: Self|
            (#[trigger] mid.got(before, key, now, read(before.held(), encode_utf8(key), now)))
                && self.rewritten(&mid, key, text, r)
    }

    /// Writes back what a read-modify-write made of a value.
    fn rewrite(&mut self, key: &str, text: Option<String>) -> (r: Result<(), Error>)
        requires
            old(self).wf(),
            valid_key_text(key@),
        ensures
            final(self).rewritten(old(self), key@, opt_view(text), r),
    {
        match text {
            Some(t) => self.put(key, t.as_str()),
            None => Err(Error::Serde),
        }
    }

    /// Sets `field` of the object under `key` to `value`, read as JSON if
    /// it is JSON and as a string if not. A value that is no object counts
    /// as the empty object.
    pub fn json_set_field_at(&mut self, key: &str, field: &str, value: &str, now: u64) -> (r:
        Result<(), Error>)
        requires
            old(self).wf(),
            valid_key_text(key@),
        ensures
            final(self).wf(),
            final(self).read_then_wrote(
                old(self),
                key@,
                now,
                field_set(read(old(self).held(), encode_utf8(key@), now), field@, value@),
                r,
            ),
    {
        let old_text = self.get_at(key, now);
        let ghost mid = *self;
        let r = self.rewrite(key, set_field_text(&old_text, field, value));
        proof {
            assert(mid.got(old(self), key@, now, read(old(self).held(), encode_utf8(key@), now)));
        }
        r
    }

    /// The JSON text of `field` of the object under `key`.
    pub fn json_get_field_at(&mut self, key: &str, field: &str, now: u64) -> (r: Option<String>)
        requires
            old(self).wf(),
        ensures
            final(self).wf(),
            final(self).got(old(self), key@, now, read(old(self).held(), encode_utf8(key@), now)),
            opt_view(r) == field_text(read(old(self).held(), encode_utf8(key@), now), field@),
    {
        let old_text = self.get_at(key, now);
        get_field_text(&old_text, field)
    }

    /// Sets `field` of the hash under `key` to the string `value`.
    pub fn hash_set_at(&mut self, key: &str, field: &str, value: &str, now: u64) -> (r: Result<
        (),
        Error,
    >)
        requires
            old(self).wf(),
            valid_key_text(key@),
        ensures
            final(self).wf(),
            final(self).read_then_wrote(
                old(self),
                key@,
                now,
                hash_field_set(read(old(self).held(), encode_utf8(key@), now), field@, value@),
                r,
            ),
    {
        let old_text = self.get_at(key, now);
        let ghost mid = *self;
        let r = self.rewrite(key, hash_set_text(&old_text, field, value));
        proof {
            assert(mid.got(old(self), key@, now, read(old(self).held(), encode_utf8(key@), now)));
        }
        r
    }

    /// The JSON text of `field` of the hash under `key`.
    pub fn hash_get_at(&mut self, key: &str, field: &str, now: u64) -> (r: Option<String>)
        requires
            old(self).wf(),
        ensures
            final(self).wf(),
            final(self).got(old(self), key@, now, read(old(self).held(), encode_utf8(key@), now)),
            opt_view(r) == field_text(read(old(self).held(), encode_utf8(key@), now), field@),
    {
        self.json_get_field_at(key, field, now)
    }

    /// Removes `field` from the hash under `key`.
    pub fn hash_del_at(&mut self, key: &str, field: &str, now: u64) -> (r: Result<(), Error>)
        requires
            old(self).wf(),
            valid_key_text(key@),
        ensures
            final(self).wf(),
            final(self).read_then_wrote(
                old(self),
                key@,
                now,
                hash_field_removed(read(old(self).held(), encode_utf8(key@), now), field@),
                r,
            ),
    {
        let old_text = self.get_at(key, now);
        let ghost mid = *self;
        let r = self.rewrite(key, hash_del_text(&old_text, field));
        proof {
            assert(mid.got(old(self), key@, now, read(old(self).held(), encode_utf8(key@), now)));
        }
        r
    }

    /// All fields of the hash under `key`, each with the JSON text of its
    /// value.
    pub fn hash_getall_at(&mut self, key: &str, now: u64) -> (r: Option<Vec<(String, String)>>)
        requires
            old(self).wf(),
        ensures
            final(self).wf(),
            final(self).got(old(self), key@, now, read(old(self).held(), encode_utf8(key@), now)),
            match hash_pairs(read(old(self).held(), encode_utf8(key@), now)) {
                Some(p) => r is Some && pairs_view(r->Some_0@) == p,
                None => r is None,
            },
    {
        let old_text = self.get_at(key, now);
        hash_all(&old_text)
    }

    /// Adds the string `value` at the front of the list under `key`. A
    /// value that is no list counts as the empty list.
    pub fn list_lpush_at(&mut self, key: &str, value: &str, now: u64) -> (r: Result<(), Error>)
        requires
            old(self).wf(),
            valid_key_text(key@),
        ensures
            final(self).wf(),
            final(self).read_then_wrote(
                old(self),
                key@,
                now,
                list_pushed(read(old(self).held(), encode_utf8(key@), now), value@, true),
                r,
            ),
    {
        let old_text = self.get_at(key, now);
        let ghost mid = *self;
        let r = self.rewrite(key, list_push_text(&old_text, value, true));
        proof {
            assert(mid.got(old(self), key@, now, read(old(self).held(), encode_utf8(key@), now)));
        }
        r
    }

    /// Adds the string `value` at the end of the list under `key`. A value
    /// that is no list counts as the empty list.
    pub fn list_rpush_at(&mut self, key: &str, value: &str, now: u64) -> (r: Result<(), Error>)
        requires
            old(self).wf(),
            valid_key_text(key@),
        ensures
            final(self).wf(),
            final(self).read_then_wrote(
                old(self),
                key@,
                now,
                list_pushed(read(old(self).held(), encode_utf8(key@), now), value@, false),
                r,
            ),
    {
        let old_text = self.get_at(key, now);
        let ghost mid = *self;
        let r = self.rewrite(key, list_push_text(&old_text, value, false));
        proof {
            assert(mid.got(old(self), key@, now, read(old(self).held(), encode_utf8(key@), now)));
        }
        r
    }

    /// Adds the string `value` at the end of the list under `key`.
    pub fn list_push_at(&mut self, key: &str, value: &str, now: u64) -> (r: Result<(), Error>)
        requires
            old(self).wf(),
            valid_key_text(key@),
        ensures
            final(self).wf(),
            final(self).read_then_wrote(
                old(self),
                key@,
                now,
                list_pushed(read(old(self).held(), encode_utf8(key@), now), value@, false),
                r,
            ),
    {
        self.list_rpush_at(key, value, now)
    }

    /// Adds the string `value` to the set under `key` unless it is there.
    pub fn set_add_at(&mut self, key: &str, value: &str, now: u64) -> (r: Result<(), Error>)
        requires
            old(self).wf(),
            valid_key_text(key@),
        ensures
            final(self).wf(),
            final(self).read_then_wrote(
                old(self),
                key@,
                now,
                set_added(read(old(self).held(), encode_utf8(key@), now), value@),
                r,
            ),
    {
        let old_text = self.get_at(key, now);
        let ghost mid = *self;
        let r = self.rewrite(key, set_add_text(&old_text, value));
        proof {
            assert(mid.got(old(self), key@, now, read(old(self).held(), encode_utf8(key@), now)));
        }
        r
    }

    /// The engine after a pop from the list under `key` at `now` that gave
    /// `r`: the key was read; if the list had an item to give, its JSON
    /// text is the result and the shortened list was written back, whether
    /// or not that write succeeded; else nothing was written.
    pub open spec fn popped(
        &self,
        before: &Self,
        key: Seq<char>,
        front: bool,
        now: u64,
        r: Option<Seq<char>>,
    ) -> bool {
        match list_popped(read(before.held(), encode_utf8(key), now), front) {
            Some(p) => r == Some(p.0) && exists|w: Result<(), Error>| #[trigger]
                self.read_then_wrote(before, key, now, Some(p.1), w),
            None => r is None && self.got(
                before,
                key,
                now,
                read(before.held(), encode_utf8(key), now),
            ),
        }
    }

    fn pop_at(&mut self, key: &str, front: bool, now: u64) -> (r: Option<String>)
        requires
            old(self).wf(),
            valid_key_text(key@),
        ensures
            final(self).popped(old(self), key@, front, now, opt_view(r)),
    {
        let old_text = self.get_at(key, now);
        let ghost mid = *self;
        match list_pop_text(&old_text, front) {
            Some((text, rest)) => {
                let w = self.rewrite(key, Some(rest));
                proof {
                    assert(mid.got(
                        old(self),
                        key@,
                        now,
                        read(old(self).held(), encode_utf8(key@), now),
                    ));
                    assert(self.read_then_wrote(old(self), key@, now, Some(rest@), w));
                }
                Some(text)
            },
            None => None,
        }
    }

    /// Takes the first item from the list under `key` and returns its JSON
    /// text; the shortened list is written back.
    pub fn list_lpop_at(&mut self, key: &str, now: u64) -> (r: Option<String>)
        requires
            old(self).wf(),
            valid_key_text(key@),
        ensures
            final(self).wf(),
            final(self).popped(old(self), key@, true, now, opt_view(r)),
    {
        self.pop_at(key, true, now)
    }

    /// Takes the last item from the list under `key` and returns its JSON
    /// text; the shortened list is written back.
    pub fn list_rpop_at(&mut self, key: &str, now: u64) -> (r: Option<String>)
        requires
            old(self).wf(),
            valid_key_text(key@),
        ensures
            final(self).wf(),
            final(self).popped(old(self), key@, false, now, opt_view(r)),
    {
        self.pop_at(key, false, now)
    }

    /// The JSON texts of the items of the list under `key` from `start` to
    /// `end`, both included; a negative index counts from the end.
    pub fn list_range_at(&mut self, key: &str, start: isize, end: isize, now: u64) -> (r: Option<
        Vec<String>,
    >)
        requires
            old(self).wf(),
        ensures
            final(self).wf(),
            final(self).got(old(self), key@, now, read(old(self).held(), encode_utf8(key@), now)),
            match list_ranged(
                read(old(self).held(), encode_utf8(key@), now),
                start as int,
                end as int,
            ) {
                Some(t) => r is Some && texts_view(r->Some_0@) == t,
                None => r is None,
            },
    {
        let old_text = self.get_at(key, now);
        list_range_texts(&old_text, start, end)
    }

    /// The number of items of the list under `key`.
    pub fn list_len_at(&mut self, key: &str, now: u64) -> (r: usize)
        requires
            old(self).wf(),
        ensures
            final(self).wf(),
            final(self).got(old(self), key@, now, read(old(self).held(), encode_utf8(key@), now)),
            r == list_length(read(old(self).held(), encode_utf8(key@), now)),
    {
        let old_text = self.get_at(key, now);
        list_len_of(&old_text)
    }
}

} // verus!
