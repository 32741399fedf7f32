//! JSON values as the store reads them: one level deep. An object is a list
//! of named items, an array a list of items, and an item is either a string,
//! held by its content, or any other value, held by its compact JSON text.

use vstd::prelude::*;

verus! {

/// A value inside an object or an array, or a value that is neither.
#[derive(Debug)]
pub enum JsonItem {
    /// A JSON string, by its content.
    Text(String),
    /// A value that is no string, by its compact JSON text.
    Other(String),
}

/// A parsed JSON text.
#[derive(Debug)]
pub enum JsonDoc {
    Object(Vec<(String, JsonItem)>),
    Array(Vec<JsonItem>),
    Scalar(JsonItem),
}

/// An item as a plain value.
pub enum JsonItemView {
    Text(Seq<char>),
    Other(Seq<char>),
}

/// A parsed JSON text as a plain value.
pub enum JsonDocView {
    Object(Seq<(Seq<char>, JsonItemView)>),
    Array(Seq<JsonItemView>),
    Scalar(JsonItemView),
}

impl View for JsonItem {
    type V = JsonItemView;

    open spec fn view(&self) -> JsonItemView {
        match self {
            JsonItem::Text(s) => JsonItemView::Text(s@),
            JsonItem::Other(t) => JsonItemView::Other(t@),
        }
    }
}

/// The views of the items.
pub open spec fn items_view(items: Seq<JsonItem>) -> Seq<JsonItemView> {
    Seq::new(items.len(), |i: int| items[i]@)
}

/// The views of the entries of an object.
pub open spec fn entries_view(entries: Seq<(String, JsonItem)>) -> Seq<(Seq<char>, JsonItemView)> {
    Seq::new(entries.len(), |i: int| (entries[i].0@, entries[i].1@))
}

/// The views of the texts.
pub open spec fn texts_view(texts: Seq<String>) -> Seq<Seq<char>> {
    Seq::new(texts.len(), |i: int| texts[i]@)
}

/// The views of the pairs.
pub open spec fn pairs_view(pairs: Seq<(String, String)>) -> Seq<(Seq<char>, Seq<char>)> {
    Seq::new(pairs.len(), |i: int| (pairs[i].0@, pairs[i].1@))
}

impl View for JsonDoc {
    type V = JsonDocView;

    open spec fn view(&self) -> JsonDocView {
        match self {
            JsonDoc::Object(entries) => JsonDocView::Object(entries_view(entries@)),
            JsonDoc::Array(items) => JsonDocView::Array(items_view(items@)),
            JsonDoc::Scalar(item) => JsonDocView::Scalar(item@),
        }
    }
}

/// What `text` parses to, if it is JSON.
pub uninterp spec fn json_doc_of(text: Seq<char>) -> Option<JsonDocView>;

/// The compact JSON text of a value, if it has one.
pub uninterp spec fn json_text_of(doc: JsonDocView) -> Option<Seq<char>>;

/// `serde_json::from_str` at `serde_json::Value`, its result brought into
/// the library's type. Believed of it: the result depends on the text alone.
#[verifier::external_body]
pub(crate) fn parse_doc(text: &str) -> (r: Option<JsonDoc>)
    ensures
        match json_doc_of(text@) {
            Some(d) => r is Some && r->Some_0@ == d,
            None => r is None,
        },
{
    let item = |v: serde_json::Value| match v {
        serde_json::Value::String(s) => JsonItem::Text(s),
        other => JsonItem::Other(other.to_string()),
    };
    match serde_json::from_str::<serde_json::Value>(text) {
        Ok(serde_json::Value::Object(m)) => Some(
            JsonDoc::Object(m.into_iter().map(|(k, v)| (k, item(v))).collect()),
        ),
        Ok(serde_json::Value::Array(a)) => Some(JsonDoc::Array(a.into_iter().map(item).collect())),
        Ok(v) => Some(JsonDoc::Scalar(item(v))),
        Err(_) => None,
    }
}

/// `serde_json::to_string` of the value that `doc` stands for. Believed of
/// it: the result depends on the value alone.
#[verifier::external_body]
pub(crate) fn render_doc(doc: &JsonDoc) -> (r: Option<String>)
    ensures
        match json_text_of(doc@) {
            Some(t) => r is Some && r->Some_0@ == t,
            None => r is None,
        },
{
    let value = |i: &JsonItem| match i {
        JsonItem::Text(s) => Some(serde_json::Value::String(s.clone())),
        JsonItem::Other(t) => serde_json::from_str::<serde_json::Value>(t).ok(),
    };
    let entry = |e: &(String, JsonItem)| Some((e.0.clone(), value(&e.1)?));
    let v = match doc {
        JsonDoc::Object(es) => serde_json::Value::Object(es.iter().map(entry).collect::<Option<_>>()?),
        JsonDoc::Array(xs) => serde_json::Value::Array(xs.iter().map(value).collect::<Option<_>>()?),
        JsonDoc::Scalar(i) => value(i)?,
    };
    serde_json::to_string(&v).ok()
}

/// Whether two texts are equal.
pub fn text_equal(a: &str, b: &str) -> (r: bool)
    ensures
        r == (a@ == b@),
{
    let r = crate::bytes::bytes_equal(a.as_bytes(), b.as_bytes());
    proof {
        vstd::utf8::encode_utf8_decode_utf8(a@);
        vstd::utf8::encode_utf8_decode_utf8(b@);
    }
    r
}

/// A copy of an item.
pub fn copy_item(item: &JsonItem) -> (r: JsonItem)
    ensures
        r@ == item@,
{
    match item {
        JsonItem::Text(s) => JsonItem::Text(s.clone()),
        JsonItem::Other(t) => JsonItem::Other(t.clone()),
    }
}

/// What an item contributes to the secondary index: a string its content,
/// any other value its JSON text.
pub open spec fn stringified(item: JsonItemView) -> Seq<char> {
    match item {
        JsonItemView::Text(s) => s,
        JsonItemView::Other(t) => t,
    }
}

/// The `(field, value)` pairs that a parsed text binds: those of an object's
/// top level; a text that is no object binds none.
pub open spec fn bound_pairs(doc: Option<JsonDocView>) -> Seq<(Seq<char>, Seq<char>)> {
    match doc {
        Some(JsonDocView::Object(entries)) => Seq::new(
            entries.len(),
            |i: int| (entries[i].0, stringified(entries[i].1)),
        ),
        _ => Seq::empty(),
    }
}

/// The `(field, value)` pairs that a parsed text binds.
pub fn index_pairs(doc: &Option<JsonDoc>) -> (r: Vec<(String, String)>)
    ensures
        pairs_view(r@) == bound_pairs(
            match doc {
                Some(d) => Some(d@),
                None => None,
            },
        ),
{
    let mut out: Vec<(String, String)> = Vec::new();
    match doc {
        Some(JsonDoc::Object(entries)) => {
            let mut i: usize = 0;
            while i < entries.len()
                invariant
                    i <= entries.len(),
                    out@.len() == i,
                    forall|j: int|
                        0 <= j < i ==> (#[trigger] out@[j]).0@ == entries@[j].0@ && out@[j].1@
                            == stringified(entries@[j].1@),
                decreases entries.len() - i,
            {
                let field = entries[i].0.clone();
                let value = match &entries[i].1 {
                    JsonItem::Text(s) => s.clone(),
                    JsonItem::Other(t) => t.clone(),
                };
                out.push((field, value));
                i += 1;
            }
            proof {
                assert(pairs_view(out@) =~= bound_pairs(Some(doc->Some_0@)));
            }
        },
        Some(_) => {
            proof {
                assert(pairs_view(out@) =~= Seq::<(Seq<char>, Seq<char>)>::empty());
            }
        },
        None => {
            proof {
                assert(pairs_view(out@) =~= Seq::<(Seq<char>, Seq<char>)>::empty());
            }
        },
    }
    out
}

/// The entries of an object; a text that is no object has none.
pub open spec fn entries_or_empty(doc: Option<JsonDocView>) -> Seq<(Seq<char>, JsonItemView)> {
    match doc {
        Some(JsonDocView::Object(entries)) => entries,
        _ => Seq::empty(),
    }
}

/// The entries of an object, or none.
pub fn object_entries(doc: Option<JsonDoc>) -> (r: Vec<(String, JsonItem)>)
    ensures
        entries_view(r@) == entries_or_empty(
            match doc {
                Some(d) => Some(d@),
                None => None,
            },
        ),
{
    match doc {
        Some(JsonDoc::Object(entries)) => entries,
        _ => {
            let out: Vec<(String, JsonItem)> = Vec::new();
            proof {
                assert(entries_view(out@) =~= Seq::<(Seq<char>, JsonItemView)>::empty());
            }
            out
        },
    }
}

/// The items of an array, if the text is one.
pub open spec fn items_of(doc: Option<JsonDocView>) -> Option<Seq<JsonItemView>> {
    match doc {
        Some(JsonDocView::Array(items)) => Some(items),
        _ => None,
    }
}

/// The items of an array, if the text is one.
pub fn array_items(doc: Option<JsonDoc>) -> (r: Option<Vec<JsonItem>>)
    ensures
        match items_of(
            match doc {
                Some(d) => Some(d@),
                None => None,
            },
        ) {
            Some(items) => r is Some && items_view(r->Some_0@) == items,
            None => r is None,
        },
{
    match doc {
        Some(JsonDoc::Array(items)) => Some(items),
        _ => None,
    }
}

/// Position of the first entry named `field`, or the number of entries.
pub open spec fn entry_position(entries: Seq<(Seq<char>, JsonItemView)>, field: Seq<char>) -> int
    decreases entries.len(),
{
    if entries.len() == 0 || entries[0].0 == field {
        0
    } else {
        1 + entry_position(entries.skip(1), field)
    }
}

/// A position with no entry of the name before it, at which one stands or the
/// entries end, is the position of the first.
pub proof fn lemma_entry_position(entries: Seq<(Seq<char>, JsonItemView)>, field: Seq<char>, i: int)
    requires
        0 <= i <= entries.len(),
        forall|j: int| 0 <= j < i ==> (#[trigger] entries[j]).0 != field,
        i < entries.len() ==> entries[i].0 == field,
    ensures
        entry_position(entries, field) == i,
    decreases entries.len(),
{
    if entries.len() == 0 || entries[0].0 == field {
        if i > 0 {
            assert(entries[0].0 != field);
        }
    } else {
        let t = entries.skip(1);
        assert forall|j: int| 0 <= j < i - 1 implies (#[trigger] t[j]).0 != field by {
            assert(t[j] == entries[j + 1]);
        }
        lemma_entry_position(t, field, i - 1);
    }
}

/// Position of the first entry named `field`, or the number of entries.
pub fn find_entry(entries: &Vec<(String, JsonItem)>, field: &str) -> (r: usize)
    ensures
        r == entry_position(entries_view(entries@), field@),
        r <= entries@.len(),
        r < entries@.len() ==> entries@[r as int].0@ == field@,
{
    let mut i: usize = 0;
    let ghost ev = entries_view(entries@);
    while i < entries.len() && !text_equal(entries[i].0.as_str(), field)
        invariant
            i <= entries.len(),
            ev == entries_view(entries@),
            forall|j: int| 0 <= j < i ==> (#[trigger] ev[j]).0 != field@,
        decreases entries.len() - i,
    {
        i += 1;
    }
    proof {
        if i < entries.len() {
            assert(ev[i as int].0 == field@);
        }
        lemma_entry_position(ev, field@, i as int);
    }
    i
}

/// The entries with `field` bound to `item`: in place of the first entry of
/// that name, or at the end.
pub open spec fn with_entry(
    entries: Seq<(Seq<char>, JsonItemView)>,
    field: Seq<char>,
    item: JsonItemView,
) -> Seq<(Seq<char>, JsonItemView)> {
    let p = entry_position(entries, field);
    if 0 <= p < entries.len() {
        entries.update(p, (field, item))
    } else {
        entries.push((field, item))
    }
}

/// Binds `field` to `item`.
pub fn set_entry(entries: &mut Vec<(String, JsonItem)>, field: &str, item: JsonItem)
    ensures
        entries_view(final(entries)@) == with_entry(entries_view(old(entries)@), field@, item@),
{
    let p = find_entry(entries, field);
    let ghost ev = entries_view(entries@);
    let name = field.to_owned();
    if p < entries.len() {
        entries.set(p, (name, item));
        proof {
            assert(entries_view(entries@) =~= ev.update(p as int, (field@, item@)));
        }
    } else {
        entries.push((name, item));
        proof {
            assert(entries_view(entries@) =~= ev.push((field@, item@)));
        }
    }
}

/// The entries without the first one named `field`.
pub open spec fn without_entry(entries: Seq<(Seq<char>, JsonItemView)>, field: Seq<char>) -> Seq<
    (Seq<char>, JsonItemView),
> {
    let p = entry_position(entries, field);
    if 0 <= p < entries.len() {
        entries.remove(p)
    } else {
        entries
    }
}

/// Removes the binding of `field`, if there is one.
pub fn remove_entry(entries: &mut Vec<(String, JsonItem)>, field: &str)
    ensures
        entries_view(final(entries)@) == without_entry(entries_view(old(entries)@), field@),
{
    let p = find_entry(entries, field);
    let ghost ev = entries_view(entries@);
    if p < entries.len() {
        entries.remove(p);
        proof {
            assert(entries_view(entries@) =~= ev.remove(p as int));
        }
    }
}

/// The item that `field` is bound to.
pub open spec fn entry_of(entries: Seq<(Seq<char>, JsonItemView)>, field: Seq<char>) -> Option<
    JsonItemView,
> {
    let p = entry_position(entries, field);
    if 0 <= p < entries.len() {
        Some(entries[p].1)
    } else {
        None
    }
}

/// The item that `field` is bound to.
pub fn get_entry(entries: &Vec<(String, JsonItem)>, field: &str) -> (r: Option<JsonItem>)
    ensures
        match entry_of(entries_view(entries@), field@) {
            Some(i) => r is Some && r->Some_0@ == i,
            None => r is None,
        },
{
    let p = find_entry(entries, field);
    if p < entries.len() {
        Some(copy_item(&entries[p].1))
    } else {
        None
    }
}

/// Whether the items hold the string `value`.
pub fn has_text(items: &Vec<JsonItem>, value: &str) -> (r: bool)
    ensures
        r == items_view(items@).contains(JsonItemView::Text(value@)),
{
    let mut i: usize = 0;
    let ghost iv = items_view(items@);
    while i < items.len()
        invariant
            i <= items.len(),
            iv == items_view(items@),
            forall|j: int| 0 <= j < i ==> iv[j] != JsonItemView::Text(value@),
        decreases items.len() - i,
    {
        let same = match &items[i] {
            JsonItem::Text(s) => text_equal(s.as_str(), value),
            JsonItem::Other(_) => false,
        };
        if same {
            proof {
                assert(iv[i as int] == JsonItemView::Text(value@));
            }
            return true;
        }
        i += 1;
    }
    false
}

/// The stretch of a list that a range query asks for. A negative index
/// counts from the end; the start is held within `[0, len]` and the end
/// within `[0, len - 1]`; an empty list or a start beyond the end gives
/// nothing.
pub open spec fn range_of<T>(items: Seq<T>, start: int, end: int) -> Seq<T> {
    let len = items.len() as int;
    let s0 = if start < 0 { len + start } else { start };
    let e0 = if end < 0 { len + end } else { end };
    let s = if s0 < 0 { 0 } else if s0 > len { len } else { s0 };
    let e = if e0 < 0 { 0 } else if e0 > len - 1 { len - 1 } else { e0 };
    if len == 0 || s > e {
        Seq::empty()
    } else {
        items.subrange(s, e + 1)
    }
}

/// The items of a list from `start` to `end`, both included.
pub fn list_range_of(items: &Vec<JsonItem>, start: isize, end: isize) -> (r: Vec<JsonItem>)
    ensures
        items_view(r@) == range_of(items_view(items@), start as int, end as int),
{
    let mut out: Vec<JsonItem> = Vec::new();
    let ghost iv = items_view(items@);
    let len: i128 = items.len() as i128;
    let s0: i128 = if start < 0 { len + start as i128 } else { start as i128 };
    let e0: i128 = if end < 0 { len + end as i128 } else { end as i128 };
    let s: i128 = if s0 < 0 { 0 } else if s0 > len { len } else { s0 };
    let e: i128 = if e0 < 0 { 0 } else if e0 > len - 1 { len - 1 } else { e0 };
    if len == 0 || s > e {
        proof {
            assert(items_view(out@) =~= Seq::<JsonItemView>::empty());
        }
        return out;
    }
    let from: usize = s as usize;
    let to: usize = (e + 1) as usize;
    let mut i: usize = from;
    while i < to
        invariant
            from <= i <= to <= items.len(),
            iv == items_view(items@),
            items_view(out@) == iv.subrange(from as int, i as int),
        decreases to - i,
    {
        let ghost before = items_view(out@);
        out.push(copy_item(&items[i]));
        proof {
            assert(items_view(out@) =~= before.push(iv[i as int]));
            assert(iv.subrange(from as int, i + 1) =~= iv.subrange(from as int, i as int).push(
                iv[i as int],
            ));
        }
        i += 1;
    }
    out
}

} // verus!
