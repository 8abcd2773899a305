//! JSON text: documents are read from text and bytes, and printed, by
//! `serde_json`.

use crate::json;
use crate::json::{Json, JsonView, Object};
use crate::number;
use vstd::prelude::*;
use vstd::utf8;

verus! {

/// The document tree that `serde_json` reads and prints.
#[verifier::external_type_specification]
#[verifier::external_body]
pub struct ExValue(serde_json::Value);

/// What `serde_json` reports of text that is not JSON.
#[verifier::external_type_specification]
#[verifier::external_body]
pub struct ExError(serde_json::Error);

/// What a `serde_json::Value` says.
pub uninterp spec fn value_model(value: serde_json::Value) -> JsonView;

/// The printed form of a `serde_json::Error`.
pub uninterp spec fn error_text(error: serde_json::Error) -> Seq<char>;

/// What `serde_json::from_str` reads in a text: a document, or the printed
/// form of its error.
pub uninterp spec fn read_text(text: Seq<char>) -> Result<JsonView, Seq<char>>;

/// What `serde_json::from_slice` reads in bytes: a document, or the printed
/// form of its error.
pub uninterp spec fn read_bytes(bytes: Seq<u8>) -> Result<JsonView, Seq<char>>;

/// The text that `serde_json::to_string` prints of a document.
pub uninterp spec fn compact_text(view: JsonView) -> Seq<char>;

/// The text that `serde_json::to_string_pretty` prints of a document.
pub uninterp spec fn pretty_text(view: JsonView) -> Seq<char>;

/// What a document says apart from the values of its doubles.
pub open spec fn shape(view: JsonView) -> JsonView
    decreases view,
{
    match view {
        JsonView::Number(number::Num::Float(_)) => JsonView::Number(number::Num::Float(0)),
        JsonView::Array(items) => JsonView::Array(item_shapes(items)),
        JsonView::Object(entries) => JsonView::Object(entry_shapes(entries)),
        _ => view,
    }
}

/// What items say apart from the values of their doubles.
pub open spec fn item_shapes(items: Seq<JsonView>) -> Seq<JsonView>
    decreases items,
{
    if items.len() == 0 {
        Seq::empty()
    } else {
        item_shapes(items.drop_last()).push(shape(items.last()))
    }
}

/// What entries say apart from the values of their doubles.
pub open spec fn entry_shapes(entries: Seq<(Seq<char>, JsonView)>) -> Seq<(Seq<char>, JsonView)>
    decreases entries,
{
    if entries.len() == 0 {
        Seq::empty()
    } else {
        proof {
            assert(decreases_to!(entries => entries[entries.len() - 1]));
            assert(decreases_to!(
                entries[entries.len() - 1] => entries[entries.len() - 1].1
            ));
        }
        let last = entries[entries.len() - 1];
        entry_shapes(entries.drop_last()).push((last.0, shape(last.1)))
    }
}

/// Whether arrays and objects are nested no deeper than `room`.
pub open spec fn fits(view: JsonView, room: int) -> bool
    decreases view,
{
    match view {
        JsonView::Array(items) => room > 0 && items_fit(items, room - 1),
        JsonView::Object(entries) => room > 0 && entries_fit(entries, room - 1),
        _ => true,
    }
}

/// Whether items are nested no deeper than `room`.
pub open spec fn items_fit(items: Seq<JsonView>, room: int) -> bool
    decreases items,
{
    items.len() == 0 || (items_fit(items.drop_last(), room) && fits(items.last(), room))
}

/// Whether entries are nested no deeper than `room`.
pub open spec fn entries_fit(entries: Seq<(Seq<char>, JsonView)>, room: int) -> bool
    decreases entries,
{
    if entries.len() == 0 {
        true
    } else {
        proof {
            assert(decreases_to!(entries => entries[entries.len() - 1]));
            assert(decreases_to!(
                entries[entries.len() - 1] => entries[entries.len() - 1].1
            ));
        }
        entries_fit(entries.drop_last(), room) && fits(entries[entries.len() - 1].1, room)
    }
}

/// How deep `serde_json` reads.
pub const DEPTH: usize = 127;

/// Whether a document is an array or an object.
pub open spec fn is_nested(view: JsonView) -> bool {
    view is Array || view is Object
}

/// What the text of an array or an object starts with: its bracket, or a blank
/// before it.
pub open spec fn opens(c: char) -> bool {
    c == '[' || c == '{' || c == ' ' || c == '\t' || c == '\n' || c == '\r'
}

/// Whether a text does not start as one of an array or an object does.
pub open spec fn starts_plainly(text: Seq<char>) -> bool {
    text.len() > 0 ==> !opens(text[0])
}

/// A text on one line that prints a document: it reads back as the document
/// that it prints, but for the last digits of doubles.
pub open spec fn prints(text: Seq<char>, view: JsonView) -> bool {
    &&& text == compact_text(view)
    &&& forall|i: int| 0 <= i < text.len() ==> #[trigger] text[i] != '\n' && text[i] != '\r'
    &&& view is Object ==> text.len() > 0 && text[0] == '{'
    &&& !is_nested(view) ==> starts_plainly(text)
    &&& read_text(text) matches Ok(back) ==> shape(back) == shape(view)
    &&& fits(view, DEPTH as int) ==> read_text(text) is Ok
}

/// The outermost layer of a `serde_json::Value`; an object's entries stand in
/// ascending order of their keys.
enum Layer {
    Null,
    Bool(bool),
    Number(serde_json::Number),
    Str(String),
    Array(Vec<serde_json::Value>),
    Object(Vec<(String, serde_json::Value)>),
}

/// What the items of an array say.
spec fn item_models(items: Seq<serde_json::Value>) -> Seq<JsonView> {
    items.map_values(|v: serde_json::Value| value_model(v))
}

/// What the entries of an object say.
spec fn entry_models(entries: Seq<(String, serde_json::Value)>) -> Seq<(Seq<char>, JsonView)> {
    entries.map_values(|e: (String, serde_json::Value)| (e.0@, value_model(e.1)))
}

/// What a layer says.
spec fn layer_model(layer: Layer) -> JsonView {
    match layer {
        Layer::Null => JsonView::Null,
        Layer::Bool(b) => JsonView::Bool(b),
        Layer::Number(n) => JsonView::Number(number::number_model(n)),
        Layer::Str(s) => JsonView::Str(s@),
        Layer::Array(items) => JsonView::Array(item_models(items@)),
        Layer::Object(entries) => JsonView::Object(entry_models(entries@)),
    }
}

/// Takes a `serde_json::Value` apart by its variant. The entries of a
/// `serde_json::Map` come in ascending order of their keys, each key once.
#[verifier::external_body]
fn open_value(value: serde_json::Value) -> (r: Layer)
    ensures
        layer_model(r) == value_model(value),
        r matches Layer::Object(entries) ==> json::keys_ascend(entry_models(entries@)),
{
    match value {
        serde_json::Value::Null => Layer::Null,
        serde_json::Value::Bool(b) => Layer::Bool(b),
        serde_json::Value::Number(n) => Layer::Number(n),
        serde_json::Value::String(s) => Layer::Str(s),
        serde_json::Value::Array(items) => Layer::Array(items),
        serde_json::Value::Object(entries) => Layer::Object(entries.into_iter().collect()),
    }
}

/// Puts a `serde_json::Value` together from its outermost layer.
#[verifier::external_body]
fn close_value(layer: Layer) -> (r: serde_json::Value)
    requires
        layer matches Layer::Object(entries) ==> json::keys_ascend(entry_models(entries@)),
    ensures
        value_model(r) == layer_model(layer),
{
    match layer {
        Layer::Null => serde_json::Value::Null,
        Layer::Bool(b) => serde_json::Value::Bool(b),
        Layer::Number(n) => serde_json::Value::Number(n),
        Layer::Str(s) => serde_json::Value::String(s),
        Layer::Array(items) => serde_json::Value::Array(items),
        Layer::Object(entries) => serde_json::Value::Object(entries.into_iter().collect()),
    }
}

/// `serde_json::from_str`: the same text gives the same document or the same
/// error. It reads nothing that is nested deeper than 127, and an array or an
/// object only where the text starts with its bracket, or with a blank.
#[verifier::external_body]
fn value_from_text(text: &str) -> (r: Result<serde_json::Value, serde_json::Error>)
    ensures
        match r {
            Ok(value) => {
                &&& read_text(text@) == Ok::<JsonView, Seq<char>>(value_model(value))
                &&& fits(value_model(value), DEPTH as int)
                &&& is_nested(value_model(value)) ==> text@.len() > 0 && opens(text@[0])
            },
            Err(error) => read_text(text@) == Err::<JsonView, Seq<char>>(error_text(error)),
        },
{
    serde_json::from_str(text)
}

/// `serde_json::from_slice`: the same bytes give the same document or the same
/// error. It reads nothing that is nested deeper than 127.
#[verifier::external_body]
fn value_from_bytes(bytes: &[u8]) -> (r: Result<serde_json::Value, serde_json::Error>)
    ensures
        match r {
            Ok(value) => {
                &&& read_bytes(bytes@) == Ok::<JsonView, Seq<char>>(value_model(value))
                &&& fits(value_model(value), DEPTH as int)
            },
            Err(error) => read_bytes(bytes@) == Err::<JsonView, Seq<char>>(error_text(error)),
        },
{
    serde_json::from_slice(bytes)
}

/// The printed form of a `serde_json::Error`.
#[verifier::external_body]
fn text_of_error(error: &serde_json::Error) -> (r: String)
    ensures
        r@ == error_text(*error),
{
    error.to_string()
}

/// `serde_json::to_string` of a `serde_json::Value` does not fail, and prints
/// the same text of values that say the same. It breaks no line: control
/// characters are escaped, and there is no space between values. An object
/// starts with a brace, and what is no array and no object starts with no
/// bracket, no brace and no blank. `serde_json::from_str` reads the text back
/// as the value that it prints, unless it is nested deeper than 127; doubles
/// may be off by a last digit. No double comes out as infinite: it is printed
/// with 17 digits at the most, those nearest to it, and the digits of the
/// largest double times their power of ten are finite.
#[verifier::external_body]
fn text_of_value(value: &serde_json::Value) -> (r: Result<String, serde_json::Error>)
    ensures
        r is Ok,
        r->Ok_0@ == compact_text(value_model(*value)),
        prints(r->Ok_0@, value_model(*value)),
{
    serde_json::to_string(value)
}

/// `serde_json::to_string_pretty` of a `serde_json::Value` does not fail, and
/// prints the same text of values that say the same.
#[verifier::external_body]
fn pretty_text_of_value(value: &serde_json::Value) -> (r: Result<String, serde_json::Error>)
    ensures
        r is Ok,
        r->Ok_0@ == pretty_text(value_model(*value)),
{
    serde_json::to_string_pretty(value)
}

/// `serde_json::to_vec` of a `serde_json::Value` does not fail, and gives the
/// UTF-8 bytes of the compact text.
#[verifier::external_body]
fn bytes_of_value(value: &serde_json::Value) -> (r: Result<Vec<u8>, serde_json::Error>)
    ensures
        r is Ok,
        r->Ok_0@ == utf8::encode_utf8(compact_text(value_model(*value))),
{
    serde_json::to_vec(value)
}

fn json_of_value(value: serde_json::Value) -> (r: Json)
    ensures
        r@ == value_model(value),
    decreases value_model(value),
{
    let ghost view = value_model(value);
    match open_value(value) {
        Layer::Null => Json::Null,
        Layer::Bool(b) => Json::Bool(b),
        Layer::Number(n) => Json::Number(n),
        Layer::Str(s) => Json::Str(s),
        Layer::Array(items) => {
            assert(decreases_to!(view => view->Array_0));
            Json::Array(json_items(items))
        },
        Layer::Object(entries) => {
            assert(decreases_to!(view => view->Object_0));
            Json::Object(json_object(entries))
        },
    }
}

fn json_items(items: Vec<serde_json::Value>) -> (r: Vec<Json>)
    ensures
        json::item_models(r@) == item_models(items@),
    decreases item_models(items@),
{
    broadcast use json::lemma_item_models;

    let mut r: Vec<Json> = Vec::new();
    for value in it: items
        invariant
            it.seq() == items@,
            r@.len() == it.index(),
            forall|k: int|
                0 <= k < it.index() ==> (#[trigger] r@[k])@ == item_models(items@)[k],
    {
        assert(item_models(items@)[it.index() as int] == value_model(value));
        r.push(json_of_value(value));
    }
    assert(json::item_models(r@) =~= item_models(items@));
    r
}

fn json_object(entries: Vec<(String, serde_json::Value)>) -> (r: Object)
    requires
        json::keys_ascend(entry_models(entries@)),
    ensures
        r@ == entry_models(entries@),
    decreases entry_models(entries@),
{
    let mut r = Object::new();
    for entry in it: entries
        invariant
            it.seq() == entries@,
            json::keys_ascend(entry_models(entries@)),
            r@ == entry_models(entries@).take(it.index() as int),
    {
        let ghost all = entry_models(entries@);
        let ghost i = it.index() as int;
        let (key, value) = entry;
        assert(all[i] == (key@, value_model(value)));
        assert(decreases_to!(all => all[i]));
        assert(decreases_to!(all[i] => all[i].1));
        let value = json_of_value(value);
        proof {
            json::lemma_put_last(all.take(i), key@, value@);
            assert(all.take(i + 1) =~= all.take(i).push(all[i]));
        }
        r.insert(key, value);
    }
    assert(entry_models(entries@).take(entries@.len() as int) =~= entry_models(entries@));
    r
}

fn value_of_json(json: &Json) -> (r: serde_json::Value)
    ensures
        value_model(r) == json@,
    decreases json@,
{
    let ghost view = json@;
    match json {
        Json::Null => close_value(Layer::Null),
        Json::Bool(b) => close_value(Layer::Bool(*b)),
        Json::Number(n) => close_value(Layer::Number(n.clone())),
        Json::Str(s) => close_value(Layer::Str(s.clone())),
        Json::Array(items) => {
            assert(decreases_to!(view => view->Array_0));
            close_value(Layer::Array(values_of_items(items)))
        },
        Json::Object(object) => {
            assert(decreases_to!(view => view->Object_0));
            close_value(Layer::Object(values_of_object(object)))
        },
    }
}

fn values_of_items(items: &Vec<Json>) -> (r: Vec<serde_json::Value>)
    ensures
        item_models(r@) == json::item_models(items@),
    decreases json::item_models(items@),
{
    broadcast use json::lemma_item_models;

    let mut r: Vec<serde_json::Value> = Vec::new();
    let mut i: usize = 0;
    while i < items.len()
        invariant
            i <= items@.len(),
            r@.len() == i,
            forall|k: int| 0 <= k < i ==> value_model(#[trigger] r@[k]) == items@[k]@,
        decreases items@.len() - i,
    {
        assert(json::item_models(items@)[i as int] == items@[i as int]@);
        r.push(value_of_json(&items[i]));
        i += 1;
    }
    assert(item_models(r@) =~= json::item_models(items@));
    r
}

fn values_of_object(object: &Object) -> (r: Vec<(String, serde_json::Value)>)
    ensures
        entry_models(r@) == object@,
        json::keys_ascend(object@),
    decreases object@,
{
    let mut r: Vec<(String, serde_json::Value)> = Vec::new();
    let n = object.len();
    let mut i: usize = 0;
    while i < n
        invariant
            i <= n == object@.len(),
            r@.len() == i,
            forall|k: int|
                0 <= k < i ==> (#[trigger] r@[k]).0@ == object@[k].0 && value_model(r@[k].1)
                    == object@[k].1,
        decreases n - i,
    {
        assert(decreases_to!(object@ => object@[i as int]));
        assert(decreases_to!(object@[i as int] => object@[i as int].1));
        let key = object.key_at(i).to_owned();
        r.push((key, value_of_json(object.value_at(i))));
        i += 1;
    }
    assert(entry_models(r@) =~= object@);
    r
}

/// Reads a document from text; the error is the printed form of what
/// `serde_json` reports.
pub fn read_json(text: &str) -> (r: Result<Json, String>)
    ensures
        match r {
            Ok(json) => {
                &&& read_text(text@) == Ok::<JsonView, Seq<char>>(json@)
                &&& fits(json@, DEPTH as int)
                &&& is_nested(json@) ==> text@.len() > 0 && opens(text@[0])
            },
            Err(message) => read_text(text@) == Err::<JsonView, Seq<char>>(message@),
        },
{
    match value_from_text(text) {
        Ok(value) => Ok(json_of_value(value)),
        Err(error) => Err(text_of_error(&error)),
    }
}

/// Reads a document from bytes; the error is the printed form of what
/// `serde_json` reports.
pub fn read_json_bytes(bytes: &[u8]) -> (r: Result<Json, String>)
    ensures
        match r {
            Ok(json) => {
                &&& read_bytes(bytes@) == Ok::<JsonView, Seq<char>>(json@)
                &&& fits(json@, DEPTH as int)
            },
            Err(message) => read_bytes(bytes@) == Err::<JsonView, Seq<char>>(message@),
        },
{
    match value_from_bytes(bytes) {
        Ok(value) => Ok(json_of_value(value)),
        Err(error) => Err(text_of_error(&error)),
    }
}

/// Prints a document on one line.
pub fn write_json(json: &Json) -> (r: String)
    ensures
        r@ == compact_text(json@),
        prints(r@, json@),
{
    text_of_value(&value_of_json(json)).unwrap()
}

/// Prints a document over several lines, indented.
pub fn write_json_pretty(json: &Json) -> (r: String)
    ensures
        r@ == pretty_text(json@),
{
    pretty_text_of_value(&value_of_json(json)).unwrap()
}

/// The UTF-8 bytes of a document printed on one line.
pub fn write_json_bytes(json: &Json) -> (r: Vec<u8>)
    ensures
        r@ == utf8::encode_utf8(compact_text(json@)),
{
    bytes_of_value(&value_of_json(json)).unwrap()
}

/// Items fit one by one.
pub proof fn lemma_items_fit(items: Seq<JsonView>, room: int)
    ensures
        items_fit(items, room) <==> forall|i: int|
            0 <= i < items.len() ==> fits(#[trigger] items[i], room),
    decreases items.len(),
{
    if items.len() > 0 {
        let before = items.drop_last();
        lemma_items_fit(before, room);
        if items_fit(items, room) {
            assert forall|i: int| 0 <= i < items.len() implies fits(#[trigger] items[i], room) by {
                if i < before.len() {
                    assert(before[i] == items[i]);
                }
            }
        } else if items_fit(before, room) {
            assert(items.last() == items[items.len() - 1]);
        } else {
            let i = choose|i: int| 0 <= i < before.len() && !fits(#[trigger] before[i], room);
            assert(before[i] == items[i]);
        }
    }
}

/// Entries fit one by one.
pub proof fn lemma_entries_fit(entries: Seq<(Seq<char>, JsonView)>, room: int)
    ensures
        entries_fit(entries, room) <==> forall|i: int|
            0 <= i < entries.len() ==> fits((#[trigger] entries[i]).1, room),
    decreases entries.len(),
{
    if entries.len() > 0 {
        let before = entries.drop_last();
        lemma_entries_fit(before, room);
        if entries_fit(entries, room) {
            assert forall|i: int| 0 <= i < entries.len() implies fits(
                (#[trigger] entries[i]).1,
                room,
            ) by {
                if i < before.len() {
                    assert(before[i] == entries[i]);
                }
            }
        } else if entries_fit(before, room) {
            assert(!fits(entries[entries.len() - 1].1, room));
        } else {
            let i = choose|i: int| 0 <= i < before.len() && !fits((#[trigger] before[i]).1, room);
            assert(before[i] == entries[i]);
        }
    }
}

/// Entries still fit with a value that fits.
pub proof fn lemma_put_fits(
    entries: Seq<(Seq<char>, JsonView)>,
    key: Seq<char>,
    value: JsonView,
    room: int,
)
    requires
        entries_fit(entries, room),
        fits(value, room),
    ensures
        entries_fit(json::put(entries, key, value), room),
{
    let after = json::put(entries, key, value);
    lemma_entries_fit(entries, room);
    lemma_entries_fit(after, room);
    json::lemma_put_members(entries, key, value);
    assert forall|i: int| 0 <= i < after.len() implies fits((#[trigger] after[i]).1, room) by {
        if after[i] != (key, value) {
            let k = choose|k: int| 0 <= k < entries.len() && entries[k] == after[i];
            assert(fits(entries[k].1, room));
        }
    }
}

/// What stands under a key is nested less deep than the document.
pub proof fn lemma_value_fits(view: JsonView, key: Seq<char>, room: int)
    requires
        fits(view, room),
    ensures
        view.get(key) matches Some(value) ==> fits(value, room - 1),
{
    if let JsonView::Object(entries) = view {
        lemma_entries_fit(entries, room - 1);
        lemma_lookup_fits(entries, key, room - 1);
    }
}

proof fn lemma_lookup_fits(entries: Seq<(Seq<char>, JsonView)>, key: Seq<char>, room: int)
    requires
        forall|i: int| 0 <= i < entries.len() ==> fits((#[trigger] entries[i]).1, room),
    ensures
        json::lookup(entries, key) matches Some(value) ==> fits(value, room),
    decreases entries.len(),
{
    if entries.len() > 0 && entries[0].0 != key {
        let rest = entries.drop_first();
        assert forall|i: int| 0 <= i < rest.len() implies fits((#[trigger] rest[i]).1, room) by {
            assert(rest[i] == entries[i + 1]);
        }
        lemma_lookup_fits(rest, key, room);
    }
}

/// Leaving doubles aside keeps every key.
proof fn lemma_entry_shapes(entries: Seq<(Seq<char>, JsonView)>, i: int)
    requires
        0 <= i < entries.len(),
    ensures
        entry_shapes(entries).len() == entries.len(),
        entry_shapes(entries)[i] == (entries[i].0, shape(entries[i].1)),
    decreases entries.len(),
{
    let before = entries.drop_last();
    if i < before.len() {
        lemma_entry_shapes(before, i);
        assert(before[i] == entries[i]);
    } else if before.len() > 0 {
        lemma_entry_shapes(before, 0);
    } else {
        assert(entry_shapes(before).len() == 0);
    }
}

proof fn lemma_shape_lookup(entries: Seq<(Seq<char>, JsonView)>, key: Seq<char>, from: int)
    requires
        0 <= from <= entries.len(),
    ensures
        json::lookup(entry_shapes(entries).skip(from), key) == (match json::lookup(
            entries.skip(from),
            key,
        ) {
            Some(value) => Some(shape(value)),
            None => None::<JsonView>,
        }),
    decreases entries.len() - from,
{
    let shapes = entry_shapes(entries);
    if entries.len() > 0 {
        lemma_entry_shapes(entries, 0);
    }
    if from < entries.len() {
        lemma_entry_shapes(entries, from);
        lemma_shape_lookup(entries, key, from + 1);
        assert(shapes.skip(from).drop_first() =~= shapes.skip(from + 1));
        assert(entries.skip(from).drop_first() =~= entries.skip(from + 1));
    }
}

/// What stands under a key of a document, apart from doubles, is what the
/// document says there, apart from doubles.
pub proof fn law_shape_by_key(view: JsonView, key: Seq<char>)
    ensures
        shape(view).get(key) == (match view.get(key) {
            Some(value) => Some(shape(value)),
            None => None::<JsonView>,
        }),
{
    if let JsonView::Object(entries) = view {
        lemma_shape_lookup(entries, key, 0);
        assert(entries.skip(0) =~= entries);
        assert(entry_shapes(entries).skip(0) =~= entry_shapes(entries));
    }
}

/// A printed document, read back, has the same truth values and the same
/// whole numbers under its keys.
pub proof fn law_printed_keys_read_back(
    text: Seq<char>,
    view: JsonView,
    back: JsonView,
    key: Seq<char>,
    b: bool,
    n: u64,
)
    requires
        prints(text, view),
        read_text(text) == Ok::<JsonView, Seq<char>>(back),
    ensures
        back.get(key) == Some(JsonView::Bool(b)) <==> view.get(key) == Some(JsonView::Bool(b)),
        back.get(key) == Some(JsonView::Number(number::Num::PosInt(n))) <==> view.get(key) == Some(
            JsonView::Number(number::Num::PosInt(n)),
        ),
{
    law_shape_by_key(view, key);
    law_shape_by_key(back, key);
}

}
