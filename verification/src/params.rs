//! Placeholders and their parameters.
//!
//! A placeholder is a string value of the form `{{name}}`. It stands for the
//! whole value, and a parameter of its name takes its place.

use crate::error::UsageError;
use crate::json;
use crate::json::{Json, JsonView, Object};
use crate::text;
use vstd::prelude::*;

verus! {

/// The name that a string asks for, where it is a placeholder.
pub open spec fn placeholder(s: Seq<char>) -> Option<Seq<char>> {
    let n = s.len() as int;
    if n >= 4 && s[0] == '{' && s[1] == '{' && s[n - 2] == '}' && s[n - 1] == '}' {
        Some(s.subrange(2, n - 2))
    } else {
        None
    }
}

/// A string value with its parameter put in its place.
pub open spec fn filled_string(s: Seq<char>, params: Seq<(Seq<char>, JsonView)>) -> JsonView {
    match placeholder(s) {
        None => JsonView::Str(s),
        Some(name) => match json::lookup(params, name) {
            None => JsonView::Str(s),
            Some(value) => value,
        },
    }
}

/// A document with its parameters put in place of their placeholders. What is
/// put in is taken as it is, whatever strings it holds.
pub open spec fn filled(view: JsonView, params: Seq<(Seq<char>, JsonView)>) -> JsonView
    decreases view,
{
    match view {
        JsonView::Str(s) => filled_string(s, params),
        JsonView::Array(items) => JsonView::Array(filled_items(items, params)),
        JsonView::Object(entries) => JsonView::Object(filled_entries(entries, params)),
        _ => view,
    }
}

/// Documents with their parameters in place.
pub open spec fn filled_items(items: Seq<JsonView>, params: Seq<(Seq<char>, JsonView)>) -> Seq<
    JsonView,
>
    decreases items,
{
    if items.len() == 0 {
        Seq::empty()
    } else {
        filled_items(items.drop_last(), params).push(filled(items.last(), params))
    }
}

/// Entries with the parameters of their values in place.
pub open spec fn filled_entries(
    entries: Seq<(Seq<char>, JsonView)>,
    params: Seq<(Seq<char>, JsonView)>,
) -> Seq<(Seq<char>, JsonView)>
    decreases entries,
{
    if entries.len() == 0 {
        Seq::empty()
    } else {
        proof {
            assert(decreases_to!(entries => entries[entries.len() - 1]));
            assert(decreases_to!(
                entries[entries.len() - 1] => entries[entries.len() - 1].1
            ));
        }
        let last = entries[entries.len() - 1];
        filled_entries(entries.drop_last(), params).push((last.0, filled(last.1, params)))
    }
}

/// A placeholder: the name that it asks for, and where it stands.
pub type Need = (Seq<char>, Seq<char>);

/// The place of a key below another place.
pub open spec fn joined_path(prefix: Seq<char>, key: Seq<char>) -> Seq<char> {
    if prefix.len() == 0 {
        key
    } else {
        prefix + "."@ + key
    }
}

/// The place of an item below another place.
pub open spec fn item_path(prefix: Seq<char>, i: int) -> Seq<char> {
    prefix + "["@ + text::decimal(i as nat) + "]"@
}

/// The placeholders of a document, in its order.
pub open spec fn needs(view: JsonView, path: Seq<char>) -> Seq<Need>
    decreases view,
{
    match view {
        JsonView::Str(s) => match placeholder(s) {
            None => Seq::empty(),
            Some(name) => seq![(name, path)],
        },
        JsonView::Array(items) => item_needs(items, path),
        JsonView::Object(entries) => entry_needs(entries, path),
        _ => Seq::empty(),
    }
}

/// The placeholders of the items of an array.
pub open spec fn item_needs(items: Seq<JsonView>, path: Seq<char>) -> Seq<Need>
    decreases items,
{
    if items.len() == 0 {
        Seq::empty()
    } else {
        item_needs(items.drop_last(), path) + needs(
            items.last(),
            item_path(path, items.len() - 1),
        )
    }
}

/// The placeholders of the values of an object.
pub open spec fn entry_needs(entries: Seq<(Seq<char>, JsonView)>, path: Seq<char>) -> Seq<Need>
    decreases entries,
{
    if entries.len() == 0 {
        Seq::empty()
    } else {
        proof {
            assert(decreases_to!(entries => entries[entries.len() - 1]));
            assert(decreases_to!(
                entries[entries.len() - 1] => entries[entries.len() - 1].1
            ));
        }
        let last = entries[entries.len() - 1];
        entry_needs(entries.drop_last(), path) + needs(last.1, joined_path(path, last.0))
    }
}

/// The placeholders without a parameter, as messages name them.
pub open spec fn missing(needed: Seq<Need>, params: Seq<(Seq<char>, JsonView)>) -> Seq<Seq<char>>
    decreases needed.len(),
{
    if needed.len() == 0 {
        Seq::empty()
    } else {
        let before = missing(needed.drop_last(), params);
        let (name, path) = needed.last();
        if json::lookup(params, name) is None {
            before.push(name + " (needed at "@ + path + ")"@)
        } else {
            before
        }
    }
}

/// The first parameter of a name.
pub open spec fn first_of(params: Seq<(Seq<char>, JsonView)>, name: Seq<char>) -> int
    decreases params.len(),
{
    if params.len() == 0 {
        0
    } else if params[0].0 == name {
        0
    } else {
        1 + first_of(params.drop_first(), name)
    }
}

/// Whether a placeholder takes the parameter at `i`.
pub open spec fn is_used(
    params: Seq<(Seq<char>, JsonView)>,
    needed: Seq<Need>,
    i: int,
) -> bool {
    exists|k: int| 0 <= k < needed.len() && first_of(params, (#[trigger] needed[k]).0) == i
}

/// The names of the first `n` parameters that no placeholder takes.
pub open spec fn unused(
    params: Seq<(Seq<char>, JsonView)>,
    needed: Seq<Need>,
    n: int,
) -> Seq<Seq<char>>
    decreases n,
{
    if n <= 0 {
        Seq::empty()
    } else if is_used(params, needed, n - 1) {
        unused(params, needed, n - 1)
    } else {
        unused(params, needed, n - 1).push(params[n - 1].0)
    }
}

/// What putting parameters in place reports: the parameters that no
/// placeholder takes, or the placeholders that have no parameter.
pub open spec fn report(view: JsonView, params: Seq<(Seq<char>, JsonView)>) -> Result<
    Seq<Seq<char>>,
    Seq<char>,
> {
    let needed = needs(view, Seq::empty());
    let lacking = missing(needed, params);
    if lacking.len() > 0 {
        Err(
            "missing --param value(s): "@ + text::joined(lacking, ", "@)
                + "; pass them as --param NAME=VALUE or --param NAME=@PATH"@,
        )
    } else {
        Ok(unused(params, needed, params.len() as int))
    }
}

/// What parameters say.
pub open spec fn param_views(params: Seq<(String, Json)>) -> Seq<(Seq<char>, JsonView)> {
    params.map_values(|p: (String, Json)| (p.0@, p.1@))
}

/// What a list of placeholders says.
pub open spec fn need_views(found: Seq<(String, String)>) -> Seq<Need> {
    found.map_values(|p: (String, String)| (p.0@, p.1@))
}

/// The name that a string asks for, where it is a placeholder.
pub fn placeholder_name(s: &str) -> (r: Option<String>)
    ensures
        match r {
            Some(name) => placeholder(s@) == Some(name@),
            None => placeholder(s@) is None,
        },
{
    let chars = text::chars_of(s);
    let n = chars.len();
    if n >= 4 && chars[0] == '{' && chars[1] == '{' && chars[n - 2] == '}' && chars[n - 1] == '}' {
        Some(text::text_of(&chars, 2, n - 2))
    } else {
        None
    }
}

/// The place of a key below another place.
pub fn join_path(prefix: &str, key: &str) -> (r: String)
    ensures
        r@ == joined_path(prefix@, key@),
{
    let mut path = prefix.to_owned();
    if prefix.is_empty() {
        assert(prefix@.len() == 0);
        return key.to_owned();
    }
    path.append(".");
    path.append(key);
    path
}

/// The first parameter of a name.
fn position(params: &Vec<(String, Json)>, name: &str) -> (r: Option<usize>)
    ensures
        match r {
            Some(i) => {
                &&& i < params@.len()
                &&& first_of(param_views(params@), name@) == i
                &&& json::lookup(param_views(params@), name@) == Some(params@[i as int].1@)
            },
            None => {
                &&& first_of(param_views(params@), name@) == params@.len()
                &&& json::lookup(param_views(params@), name@) is None
            },
        },
{
    let ghost views = param_views(params@);
    let mut i: usize = 0;
    assert(views.skip(0) =~= views);
    while i < params.len()
        invariant
            i <= params@.len(),
            views == param_views(params@),
            first_of(views, name@) == i + first_of(views.skip(i as int), name@),
            json::lookup(views, name@) == json::lookup(views.skip(i as int), name@),
        decreases params@.len() - i,
    {
        assert(views.skip(i as int)[0] == views[i as int]);
        assert(views[i as int] == (params@[i as int].0@, params@[i as int].1@));
        if text::same(params[i].0.as_str(), name) {
            return Some(i);
        }
        assert(views.skip(i as int).drop_first() =~= views.skip(i + 1));
        i += 1;
    }
    None
}

fn fill(json: &Json, params: &Vec<(String, Json)>) -> (r: Json)
    ensures
        r@ == filled(json@, param_views(params@)),
    decreases json@,
{
    let ghost view = json@;
    match json {
        Json::Str(s) => match placeholder_name(s.as_str()) {
            None => Json::Str(s.clone()),
            Some(name) => match position(params, name.as_str()) {
                None => Json::Str(s.clone()),
                Some(i) => params[i].1.clone(),
            },
        },
        Json::Array(items) => {
            assert(decreases_to!(view => view->Array_0));
            Json::Array(fill_items(items, params))
        },
        Json::Object(object) => {
            assert(decreases_to!(view => view->Object_0));
            Json::Object(fill_object(object, params))
        },
        Json::Null => Json::Null,
        Json::Bool(b) => Json::Bool(*b),
        Json::Number(n) => Json::Number(n.clone()),
    }
}

fn fill_items(items: &Vec<Json>, params: &Vec<(String, Json)>) -> (r: Vec<Json>)
    ensures
        json::item_models(r@) == filled_items(json::item_models(items@), param_views(params@)),
    decreases json::item_models(items@),
{
    broadcast use json::lemma_item_models;

    let ghost views = json::item_models(items@);
    let mut r: Vec<Json> = Vec::new();
    let mut i: usize = 0;
    assert(json::item_models(r@) =~= filled_items(views.take(0), param_views(params@)));
    while i < items.len()
        invariant
            i <= items@.len(),
            views == json::item_models(items@),
            json::item_models(r@) == filled_items(views.take(i as int), param_views(params@)),
        decreases items@.len() - i,
    {
        let ghost before = r@;
        assert(views[i as int] == items@[i as int]@);
        assert(decreases_to!(views => views[i as int]));
        let item = fill(&items[i], params);
        r.push(item);
        assert(views.take(i + 1).drop_last() =~= views.take(i as int));
        assert(json::item_models(r@) =~= json::item_models(before).push(item@));
        i += 1;
    }
    assert(views.take(views.len() as int) =~= views);
    r
}

fn fill_object(object: &Object, params: &Vec<(String, Json)>) -> (r: Object)
    ensures
        r@ == filled_entries(object@, param_views(params@)),
    decreases object@,
{
    let ghost entries = object@;
    let n = object.len();
    let mut r = Object::new();
    let mut i: usize = 0;
    assert(r@ =~= filled_entries(entries.take(0), param_views(params@)));
    while i < n
        invariant
            i <= n == entries.len(),
            entries == object@,
            json::keys_ascend(entries),
            r@ == filled_entries(entries.take(i as int), param_views(params@)),
            r@.len() == i,
            forall|k: int| 0 <= k < i ==> (#[trigger] r@[k]).0 == entries[k].0,
        decreases n - i,
    {
        assert(decreases_to!(object@ => object@[i as int]));
        assert(decreases_to!(object@[i as int] => object@[i as int].1));
        let value = fill(object.value_at(i), params);
        let key = object.key_at(i).to_owned();
        proof {
            assert(entries.take(i + 1).drop_last() =~= entries.take(i as int));
            assert forall|k: int| 0 <= k < r@.len() implies text::precedes(
                (#[trigger] r@[k]).0,
                key@,
            ) by {
                assert(text::precedes(entries[k].0, entries[i as int].0));
            }
            json::lemma_put_last(r@, key@, value@);
        }
        r.insert(key, value);
        i += 1;
    }
    assert(entries.take(n as int) =~= entries);
    r
}

fn collect_placeholders(json: &Json, path: String, out: &mut Vec<(String, String)>)
    ensures
        need_views(final(out)@) == need_views(old(out)@) + needs(json@, path@),
    decreases json@,
{
    let ghost view = json@;
    let ghost before = out@;
    assert(need_views(before) + Seq::<Need>::empty() =~= need_views(before));
    match json {
        Json::Object(object) => {
            assert(decreases_to!(view => view->Object_0));
            collect_from_object(object, path.as_str(), out);
        },
        Json::Array(items) => {
            assert(decreases_to!(view => view->Array_0));
            collect_from_items(items, path.as_str(), out);
        },
        Json::Str(s) => {
            if let Some(name) = placeholder_name(s.as_str()) {
                let ghost need = (name@, path@);
                out.push((name, path));
                assert(need_views(out@) =~= need_views(before) + seq![need]);
            }
        },
        _ => {},
    }
}

fn collect_from_items(items: &Vec<Json>, path: &str, out: &mut Vec<(String, String)>)
    ensures
        need_views(final(out)@) == need_views(old(out)@) + item_needs(
            json::item_models(items@),
            path@,
        ),
    decreases json::item_models(items@),
{
    broadcast use json::lemma_item_models;

    let ghost views = json::item_models(items@);
    let ghost before = need_views(out@);
    let mut i: usize = 0;
    assert(before + item_needs(views.take(0), path@) =~= before);
    while i < items.len()
        invariant
            i <= items@.len(),
            views == json::item_models(items@),
            need_views(out@) == before + item_needs(views.take(i as int), path@),
        decreases items@.len() - i,
    {
        assert(views[i as int] == items@[i as int]@);
        assert(decreases_to!(views => views[i as int]));
        let mut place = path.to_owned();
        place.append("[");
        place.append(text::decimal_text(i as u64).as_str());
        place.append("]");
        collect_placeholders(&items[i], place, out);
        proof {
            assert(views.take(i + 1).drop_last() =~= views.take(i as int));
            let here = needs(views[i as int], item_path(path@, i as int));
            let earlier = item_needs(views.take(i as int), path@);
            assert((before + earlier) + here =~= before + (earlier + here));
        }
        i += 1;
    }
    assert(views.take(views.len() as int) =~= views);
}

fn collect_from_object(object: &Object, path: &str, out: &mut Vec<(String, String)>)
    ensures
        need_views(final(out)@) == need_views(old(out)@) + entry_needs(object@, path@),
    decreases object@,
{
    let ghost entries = object@;
    let ghost before = need_views(out@);
    let mut i: usize = 0;
    assert(before + entry_needs(entries.take(0), path@) =~= before);
    while i < object.len()
        invariant
            i <= entries.len(),
            entries == object@,
            need_views(out@) == before + entry_needs(entries.take(i as int), path@),
        decreases entries.len() - i,
    {
        assert(decreases_to!(object@ => object@[i as int]));
        assert(decreases_to!(object@[i as int] => object@[i as int].1));
        collect_placeholders(object.value_at(i), join_path(path, object.key_at(i)), out);
        proof {
            assert(entries.take(i + 1).drop_last() =~= entries.take(i as int));
            let here = needs(entries[i as int].1, joined_path(path@, entries[i as int].0));
            let earlier = entry_needs(entries.take(i as int), path@);
            assert((before + earlier) + here =~= before + (earlier + here));
        }
        i += 1;
    }
    assert(entries.take(entries.len() as int) =~= entries);
}

/// The placeholders of a document, in its order.
pub fn find_placeholders(json: &Json) -> (r: Vec<(String, String)>)
    ensures
        need_views(r@) == needs(json@, Seq::empty()),
{
    let mut found: Vec<(String, String)> = Vec::new();
    collect_placeholders(json, String::new(), &mut found);
    assert(need_views(found@) =~= needs(json@, Seq::empty()));
    found
}

/// The placeholders without a parameter, and for each parameter whether a
/// placeholder takes it.
fn match_params(found: &Vec<(String, String)>, params: &Vec<(String, Json)>) -> (r: (
    Vec<String>,
    Vec<bool>,
))
    ensures
        text::texts(r.0@) == missing(need_views(found@), param_views(params@)),
        r.1@.len() == params@.len(),
        forall|i: int|
            0 <= i < params@.len() ==> #[trigger] r.1@[i] == is_used(
                param_views(params@),
                need_views(found@),
                i,
            ),
{
    let ghost views = param_views(params@);
    let ghost needed = need_views(found@);
    let mut lacking: Vec<String> = Vec::new();
    let mut used: Vec<bool> = Vec::new();
    while used.len() < params.len()
        invariant
            used@.len() <= params@.len(),
            forall|i: int| 0 <= i < used@.len() ==> !#[trigger] used@[i],
        decreases params@.len() - used@.len(),
    {
        used.push(false);
    }
    let mut k: usize = 0;
    assert(text::texts(lacking@) =~= missing(needed.take(0), views));
    while k < found.len()
        invariant
            k <= found@.len(),
            views == param_views(params@),
            needed == need_views(found@),
            used@.len() == params@.len(),
            text::texts(lacking@) == missing(needed.take(k as int), views),
            forall|i: int|
                0 <= i < used@.len() ==> #[trigger] used@[i] == is_used(
                    views,
                    needed.take(k as int),
                    i,
                ),
        decreases found@.len() - k,
    {
        let ghost before = needed.take(k as int);
        let ghost after = needed.take(k + 1);
        let ghost need = (found@[k as int].0@, found@[k as int].1@);
        let ghost flags = used@;
        assert(needed[k as int] == need);
        assert(after.drop_last() =~= before);
        assert(after.last() == need);
        match position(params, found[k].0.as_str()) {
            Some(i) => {
                used.set(i, true);
            },
            None => {
                let mut message = found[k].0.clone();
                message.append(" (needed at ");
                message.append(found[k].1.as_str());
                message.append(")");
                let ghost said = message@;
                let ghost others = lacking@;
                lacking.push(message);
                assert(text::texts(lacking@) =~= text::texts(others).push(said));
            },
        }
        proof {
            assert forall|i: int| 0 <= i < used@.len() implies #[trigger] used@[i] == is_used(
                views,
                after,
                i,
            ) by {
                if is_used(views, before, i) {
                    let j = choose|j: int|
                        0 <= j < before.len() && first_of(views, (#[trigger] before[j]).0) == i;
                    assert(after[j] == before[j]);
                }
                if first_of(views, need.0) == i {
                    assert(after[k as int] == need);
                }
                if is_used(views, after, i) {
                    let j = choose|j: int|
                        0 <= j < after.len() && first_of(views, (#[trigger] after[j]).0) == i;
                    if j < k {
                        assert(before[j] == after[j]);
                    }
                }
                assert(flags[i] == is_used(views, before, i));
            }
        }
        k += 1;
    }
    assert(needed.take(needed.len() as int) =~= needed);
    (lacking, used)
}

/// Puts parameters in place of their placeholders, and names the parameters
/// that no placeholder takes. Where placeholders have no parameter, they stay,
/// and the error names them.
pub fn apply_params(body: &mut Json, params: &Vec<(String, Json)>) -> (r: Result<
    Vec<String>,
    UsageError,
>)
    ensures
        final(body)@ == filled(old(body)@, param_views(params@)),
        match r {
            Ok(names) => report(old(body)@, param_views(params@)) == Ok::<
                Seq<Seq<char>>,
                Seq<char>,
            >(text::texts(names@)),
            Err(e) => report(old(body)@, param_views(params@)) == Err::<
                Seq<Seq<char>>,
                Seq<char>,
            >(e@),
        },
{
    let ghost views = param_views(params@);
    let found = find_placeholders(body);
    let ghost needed = need_views(found@);
    let (lacking, used) = match_params(&found, params);
    let done = fill(body, params);
    *body = done;
    assert(text::texts(lacking@).len() == lacking@.len());
    if lacking.len() > 0 {
        let mut message = "missing --param value(s): ".to_owned();
        message.append(text::join(&lacking, ", ").as_str());
        message.append("; pass them as --param NAME=VALUE or --param NAME=@PATH");
        return Err(UsageError::new(message));
    }
    let mut names: Vec<String> = Vec::new();
    let mut i: usize = 0;
    assert(text::texts(names@) =~= unused(views, needed, 0));
    while i < params.len()
        invariant
            i <= params@.len(),
            views == param_views(params@),
            used@.len() == params@.len(),
            forall|k: int|
                0 <= k < used@.len() ==> #[trigger] used@[k] == is_used(views, needed, k),
            text::texts(names@) == unused(views, needed, i as int),
        decreases params@.len() - i,
    {
        assert(views[i as int].0 == params@[i as int].0@);
        if !used[i] {
            let ghost before = names@;
            names.push(params[i].0.clone());
            assert(text::texts(names@) =~= text::texts(before).push(views[i as int].0));
        }
        i += 1;
    }
    Ok(names)
}

/// A document without placeholders stays as it is.
pub proof fn law_nothing_to_fill(
    view: JsonView,
    path: Seq<char>,
    params: Seq<(Seq<char>, JsonView)>,
)
    requires
        needs(view, path).len() == 0,
    ensures
        filled(view, params) == view,
    decreases view,
{
    match view {
        JsonView::Array(items) => {
            assert(decreases_to!(view => view->Array_0));
            lemma_no_items_to_fill(items, path, params);
        },
        JsonView::Object(entries) => {
            assert(decreases_to!(view => view->Object_0));
            lemma_no_entries_to_fill(entries, path, params);
        },
        _ => {},
    }
}

proof fn lemma_no_items_to_fill(
    items: Seq<JsonView>,
    path: Seq<char>,
    params: Seq<(Seq<char>, JsonView)>,
)
    requires
        item_needs(items, path).len() == 0,
    ensures
        filled_items(items, params) == items,
    decreases items,
{
    if items.len() > 0 {
        lemma_no_items_to_fill(items.drop_last(), path, params);
        assert(decreases_to!(items => items[items.len() - 1]));
        law_nothing_to_fill(items.last(), item_path(path, items.len() - 1), params);
        assert(items.drop_last().push(items.last()) =~= items);
    } else {
        assert(items =~= Seq::empty());
    }
}

proof fn lemma_no_entries_to_fill(
    entries: Seq<(Seq<char>, JsonView)>,
    path: Seq<char>,
    params: Seq<(Seq<char>, JsonView)>,
)
    requires
        entry_needs(entries, path).len() == 0,
    ensures
        filled_entries(entries, params) == entries,
    decreases entries,
{
    if entries.len() > 0 {
        let last = entries[entries.len() - 1];
        lemma_no_entries_to_fill(entries.drop_last(), path, params);
        assert(decreases_to!(entries => entries[entries.len() - 1]));
        assert(decreases_to!(entries[entries.len() - 1] => entries[entries.len() - 1].1));
        law_nothing_to_fill(last.1, joined_path(path, last.0), params);
        assert(entries.drop_last().push(last) =~= entries);
    } else {
        assert(entries =~= Seq::empty());
    }
}

/// Whether each placeholder of a list has a parameter.
pub open spec fn all_given(needed: Seq<Need>, params: Seq<(Seq<char>, JsonView)>) -> bool {
    forall|k: int|
        0 <= k < needed.len() ==> json::lookup(params, (#[trigger] needed[k]).0) is Some
}

/// Putting parameters in place succeeds exactly where every placeholder has
/// one.
pub proof fn law_missing_is_an_error(view: JsonView, params: Seq<(Seq<char>, JsonView)>)
    ensures
        report(view, params) is Ok <==> all_given(needs(view, Seq::empty()), params),
{
    lemma_missing(needs(view, Seq::empty()), params);
}

proof fn lemma_missing(needed: Seq<Need>, params: Seq<(Seq<char>, JsonView)>)
    ensures
        missing(needed, params).len() == 0 <==> all_given(needed, params),
    decreases needed.len(),
{
    if needed.len() > 0 {
        let before = needed.drop_last();
        lemma_missing(before, params);
        if all_given(needed, params) {
            assert forall|k: int| 0 <= k < before.len() implies json::lookup(
                params,
                (#[trigger] before[k]).0,
            ) is Some by {
                assert(before[k] == needed[k]);
            }
            assert(needed[needed.len() - 1] == needed.last());
        }
        if missing(needed, params).len() == 0 {
            assert forall|k: int| 0 <= k < needed.len() implies json::lookup(
                params,
                (#[trigger] needed[k]).0,
            ) is Some by {
                if k < before.len() {
                    assert(before[k] == needed[k]);
                } else {
                    assert(needed[k] == needed.last());
                }
            }
        }
    }
}

/// Whether no parameter brings placeholders of its own.
pub open spec fn params_are_plain(params: Seq<(Seq<char>, JsonView)>) -> bool {
    forall|name: Seq<char>, path: Seq<char>|
        json::lookup(params, name) matches Some(value) ==> (#[trigger] needs(
            json::lookup(params, name)->Some_0,
            path,
        )).len() == 0
}

/// Where every placeholder has a parameter, and no parameter brings
/// placeholders of its own, none is left.
pub proof fn law_no_placeholder_is_left(
    view: JsonView,
    path: Seq<char>,
    params: Seq<(Seq<char>, JsonView)>,
    place: Seq<char>,
)
    requires
        params_are_plain(params),
        all_given(needs(view, path), params),
    ensures
        needs(filled(view, params), place).len() == 0,
    decreases view,
{
    match view {
        JsonView::Str(s) => {
            if let Some(name) = placeholder(s) {
                assert(needs(view, path)[0].0 == name);
                let value = json::lookup(params, name)->Some_0;
                assert(needs(value, place).len() == 0);
            }
        },
        JsonView::Array(items) => {
            assert(decreases_to!(view => view->Array_0));
            lemma_no_item_is_left(items, path, params, place);
        },
        JsonView::Object(entries) => {
            assert(decreases_to!(view => view->Object_0));
            lemma_no_entry_is_left(entries, path, params, place);
        },
        _ => {},
    }
}

/// Where all of two lists are given, each of them is.
proof fn lemma_given_split(a: Seq<Need>, b: Seq<Need>, params: Seq<(Seq<char>, JsonView)>)
    requires
        all_given(a + b, params),
    ensures
        all_given(a, params),
        all_given(b, params),
{
    assert forall|k: int| 0 <= k < a.len() implies json::lookup(
        params,
        (#[trigger] a[k]).0,
    ) is Some by {
        assert((a + b)[k] == a[k]);
    }
    assert forall|k: int| 0 <= k < b.len() implies json::lookup(
        params,
        (#[trigger] b[k]).0,
    ) is Some by {
        assert((a + b)[a.len() + k] == b[k]);
    }
}

proof fn lemma_no_item_is_left(
    items: Seq<JsonView>,
    path: Seq<char>,
    params: Seq<(Seq<char>, JsonView)>,
    place: Seq<char>,
)
    requires
        params_are_plain(params),
        all_given(item_needs(items, path), params),
    ensures
        item_needs(filled_items(items, params), place).len() == 0,
    decreases items,
{
    if items.len() > 0 {
        let n = items.len() - 1;
        lemma_given_split(
            item_needs(items.drop_last(), path),
            needs(items.last(), item_path(path, n)),
            params,
        );
        lemma_no_item_is_left(items.drop_last(), path, params, place);
        assert(decreases_to!(items => items[items.len() - 1]));
        lemma_filled_lengths(items.drop_last(), params);
        law_no_placeholder_is_left(
            items.last(),
            item_path(path, n),
            params,
            item_path(place, n),
        );
        let done = filled_items(items, params);
        assert(done.drop_last() =~= filled_items(items.drop_last(), params));
        assert(done.last() == filled(items.last(), params));
    }
}

/// Filling keeps the number of items.
proof fn lemma_filled_lengths(items: Seq<JsonView>, params: Seq<(Seq<char>, JsonView)>)
    ensures
        filled_items(items, params).len() == items.len(),
    decreases items.len(),
{
    if items.len() > 0 {
        lemma_filled_lengths(items.drop_last(), params);
    }
}

proof fn lemma_no_entry_is_left(
    entries: Seq<(Seq<char>, JsonView)>,
    path: Seq<char>,
    params: Seq<(Seq<char>, JsonView)>,
    place: Seq<char>,
)
    requires
        params_are_plain(params),
        all_given(entry_needs(entries, path), params),
    ensures
        entry_needs(filled_entries(entries, params), place).len() == 0,
    decreases entries,
{
    if entries.len() > 0 {
        let last = entries[entries.len() - 1];
        lemma_given_split(
            entry_needs(entries.drop_last(), path),
            needs(last.1, joined_path(path, last.0)),
            params,
        );
        lemma_no_entry_is_left(entries.drop_last(), path, params, place);
        assert(decreases_to!(entries => entries[entries.len() - 1]));
        assert(decreases_to!(entries[entries.len() - 1] => entries[entries.len() - 1].1));
        law_no_placeholder_is_left(
            last.1,
            joined_path(path, last.0),
            params,
            joined_path(place, last.0),
        );
        let done = filled_entries(entries, params);
        assert(done.drop_last() =~= filled_entries(entries.drop_last(), params));
        assert(done[done.len() - 1] == (last.0, filled(last.1, params)));
    }
}

/// Filling an object fills the value under each key, and adds and takes away
/// no key.
pub proof fn law_filled_key_by_key(
    entries: Seq<(Seq<char>, JsonView)>,
    params: Seq<(Seq<char>, JsonView)>,
    i: int,
)
    requires
        0 <= i < entries.len(),
    ensures
        filled_entries(entries, params).len() == entries.len(),
        filled_entries(entries, params)[i] == (entries[i].0, filled(entries[i].1, params)),
    decreases entries.len(),
{
    let before = entries.drop_last();
    if i < before.len() {
        law_filled_key_by_key(before, params, i);
        assert(before[i] == entries[i]);
    } else if before.len() > 0 {
        law_filled_key_by_key(before, params, 0);
    } else {
        assert(filled_entries(before, params).len() == 0);
    }
}

/// What is found under a key of a filled document is what was found there,
/// filled.
pub proof fn law_filled_lookup(
    view: JsonView,
    params: Seq<(Seq<char>, JsonView)>,
    key: Seq<char>,
)
    requires
        view is Object,
    ensures
        filled(view, params).get(key) == (match view.get(key) {
            Some(value) => Some(filled(value, params)),
            None => None::<JsonView>,
        }),
{
    lemma_filled_lookup(view->Object_0, params, key, 0);
    let entries = view->Object_0;
    assert(entries.skip(0) =~= entries);
    assert(filled_entries(entries, params).skip(0) =~= filled_entries(entries, params));
}

proof fn lemma_filled_lookup(
    entries: Seq<(Seq<char>, JsonView)>,
    params: Seq<(Seq<char>, JsonView)>,
    key: Seq<char>,
    from: int,
)
    requires
        0 <= from <= entries.len(),
    ensures
        json::lookup(filled_entries(entries, params).skip(from), key) == (match json::lookup(
            entries.skip(from),
            key,
        ) {
            Some(value) => Some(filled(value, params)),
            None => None::<JsonView>,
        }),
    decreases entries.len() - from,
{
    let done = filled_entries(entries, params);
    if entries.len() > 0 {
        law_filled_key_by_key(entries, params, 0);
    }
    if from < entries.len() {
        law_filled_key_by_key(entries, params, from);
        lemma_filled_lookup(entries, params, key, from + 1);
        assert(done.skip(from).drop_first() =~= done.skip(from + 1));
        assert(entries.skip(from).drop_first() =~= entries.skip(from + 1));
    }
}

/// A string is a placeholder exactly where it is a name between two pairs of
/// braces, and it asks for that name.
pub proof fn law_placeholders(s: Seq<char>, name: Seq<char>)
    ensures
        placeholder(s) == Some(name) <==> s == "{{"@ + name + "}}"@,
{
    reveal_strlit("{{");
    reveal_strlit("}}");
    assert("{{"@.len() == 2 && "{{"@[0] == '{' && "{{"@[1] == '{');
    assert("}}"@.len() == 2 && "}}"@[0] == '}' && "}}"@[1] == '}');
    let whole = "{{"@ + name + "}}"@;
    assert(whole.subrange(2, whole.len() - 2) =~= name);
    if placeholder(s) == Some(name) {
        assert(s =~= whole) by {
            assert(name == s.subrange(2, s.len() - 2));
            assert forall|k: int| 0 <= k < s.len() implies s[k] == whole[k] by {
                if 2 <= k < s.len() - 2 {
                    assert(name[k - 2] == s[k]);
                }
            }
        }
    }
}

/// A placeholder is filled with the first parameter of its name, as it is. One
/// without a parameter, any other string, and what is no string is left as it
/// is.
pub proof fn law_filled_values(name: Seq<char>, params: Seq<(Seq<char>, JsonView)>, i: int)
    ensures
        0 <= i < params.len() && params[i].0 == name && (forall|j: int|
            0 <= j < i ==> (#[trigger] params[j]).0 != name) ==> filled(
            JsonView::Str("{{"@ + name + "}}"@),
            params,
        ) == params[i].1,
        (forall|j: int| 0 <= j < params.len() ==> (#[trigger] params[j]).0 != name) ==> filled(
            JsonView::Str("{{"@ + name + "}}"@),
            params,
        ) == JsonView::Str("{{"@ + name + "}}"@),
        forall|s: Seq<char>|
            placeholder(s) is None ==> #[trigger] filled(JsonView::Str(s), params)
                == JsonView::Str(s),
        forall|view: JsonView|
            view is Null || view is Bool || view is Number ==> #[trigger] filled(view, params)
                == view,
{
    law_placeholders("{{"@ + name + "}}"@, name);
    lemma_first_lookup(params, name);
    let first = first_of(params, name);
    if first < params.len() {
        assert(params[first].0 == name);
    }
}

/// The first parameter of a name, and what is looked up of it.
proof fn lemma_first_lookup(params: Seq<(Seq<char>, JsonView)>, name: Seq<char>)
    ensures
        0 <= first_of(params, name) <= params.len(),
        first_of(params, name) < params.len() ==> params[first_of(params, name)].0 == name
            && json::lookup(params, name) == Some(params[first_of(params, name)].1),
        first_of(params, name) == params.len() ==> json::lookup(params, name) is None,
        forall|j: int| 0 <= j < first_of(params, name) ==> (#[trigger] params[j]).0 != name,
    decreases params.len(),
{
    if params.len() > 0 && params[0].0 != name {
        let rest = params.drop_first();
        lemma_first_lookup(rest, name);
        assert forall|j: int| 0 <= j < first_of(params, name) implies (#[trigger] params[j]).0
            != name by {
            if j > 0 {
                assert(rest[j - 1] == params[j]);
            }
        }
    }
}

/// An array is filled item by item, each in its place.
pub proof fn law_filled_items(items: Seq<JsonView>, params: Seq<(Seq<char>, JsonView)>)
    ensures
        filled(JsonView::Array(items), params) == JsonView::Array(
            Seq::new(items.len(), |i: int| filled(items[i], params)),
        ),
    decreases items.len(),
{
    let wanted = Seq::new(items.len(), |i: int| filled(items[i], params));
    if items.len() > 0 {
        let before = items.drop_last();
        law_filled_items(before, params);
        assert(filled(JsonView::Array(before), params) == JsonView::Array(
            filled_items(before, params),
        ));
        assert(filled_items(items, params) =~= wanted);
    } else {
        assert(filled_items(items, params) =~= wanted);
    }
}

/// The placeholders of a document: a string that is one stands where it is;
/// those of an array are those of its items, one item after the other, each
/// below its index; those of an object are those under its keys, one key after
/// the other, each below its key.
pub proof fn law_placeholders_have_places(
    items: Seq<JsonView>,
    entries: Seq<(Seq<char>, JsonView)>,
    name: Seq<char>,
    path: Seq<char>,
)
    ensures
        needs(JsonView::Str("{{"@ + name + "}}"@), path) == seq![(name, path)],
        forall|s: Seq<char>|
            placeholder(s) is None ==> #[trigger] needs(JsonView::Str(s), path).len() == 0,
        forall|view: JsonView|
            view is Null || view is Bool || view is Number ==> #[trigger] needs(view, path).len()
                == 0,
        needs(JsonView::Array(items), path) == Seq::new(
            items.len(),
            |i: int| needs(items[i], path + "["@ + text::decimal(i as nat) + "]"@),
        ).flatten(),
        path.len() > 0 ==> needs(JsonView::Object(entries), path) == Seq::new(
            entries.len(),
            |i: int| needs(entries[i].1, path + "."@ + entries[i].0),
        ).flatten(),
        needs(JsonView::Object(entries), Seq::empty()) == Seq::new(
            entries.len(),
            |i: int| needs(entries[i].1, entries[i].0),
        ).flatten(),
{
    law_placeholders("{{"@ + name + "}}"@, name);
    lemma_item_needs(items, path);
    lemma_entry_needs(entries, path);
    lemma_entry_needs(entries, Seq::empty());
    if path.len() > 0 {
        assert(Seq::new(
            entries.len(),
            |i: int| needs(entries[i].1, joined_path(path, entries[i].0)),
        ) =~= Seq::new(entries.len(), |i: int| needs(entries[i].1, path + "."@ + entries[i].0)));
    }
    assert(Seq::new(
        entries.len(),
        |i: int| needs(entries[i].1, joined_path(Seq::empty(), entries[i].0)),
    ) =~= Seq::new(entries.len(), |i: int| needs(entries[i].1, entries[i].0)));
}

proof fn lemma_item_needs(items: Seq<JsonView>, path: Seq<char>)
    ensures
        item_needs(items, path) == Seq::new(
            items.len(),
            |i: int| needs(items[i], path + "["@ + text::decimal(i as nat) + "]"@),
        ).flatten(),
    decreases items.len(),
{
    let each = Seq::new(
        items.len(),
        |i: int| needs(items[i], path + "["@ + text::decimal(i as nat) + "]"@),
    );
    each.lemma_flatten_and_flatten_alt_are_equivalent();
    if items.len() > 0 {
        let before = items.drop_last();
        let each_before = Seq::new(
            before.len(),
            |i: int| needs(before[i], path + "["@ + text::decimal(i as nat) + "]"@),
        );
        lemma_item_needs(before, path);
        each_before.lemma_flatten_and_flatten_alt_are_equivalent();
        assert(each.drop_last() =~= each_before);
    }
}

proof fn lemma_entry_needs(entries: Seq<(Seq<char>, JsonView)>, path: Seq<char>)
    ensures
        entry_needs(entries, path) == Seq::new(
            entries.len(),
            |i: int| needs(entries[i].1, joined_path(path, entries[i].0)),
        ).flatten(),
    decreases entries.len(),
{
    let each = Seq::new(
        entries.len(),
        |i: int| needs(entries[i].1, joined_path(path, entries[i].0)),
    );
    each.lemma_flatten_and_flatten_alt_are_equivalent();
    if entries.len() > 0 {
        let before = entries.drop_last();
        let each_before = Seq::new(
            before.len(),
            |i: int| needs(before[i].1, joined_path(path, before[i].0)),
        );
        lemma_entry_needs(before, path);
        each_before.lemma_flatten_and_flatten_alt_are_equivalent();
        assert(each.drop_last() =~= each_before);
    }
}

/// Whether no parameter has a name.
pub open spec fn is_absent(params: Seq<(Seq<char>, JsonView)>, name: Seq<char>) -> bool {
    forall|j: int| 0 <= j < params.len() ==> (#[trigger] params[j]).0 != name
}

/// Every placeholder whose name no parameter has is told, in order, each with
/// its name and its place.
pub proof fn law_missing_are_told(needed: Seq<Need>, params: Seq<(Seq<char>, JsonView)>)
    ensures
        missing(needed, params) == needed.filter(
            |need: Need| is_absent(params, need.0),
        ).map_values(|need: Need| need.0 + " (needed at "@ + need.1 + ")"@),
    decreases needed.len(),
{
    reveal(Seq::filter);
    let absent = |need: Need| is_absent(params, need.0);
    let said = |need: Need| need.0 + " (needed at "@ + need.1 + ")"@;
    if needed.len() > 0 {
        let before = needed.drop_last();
        law_missing_are_told(before, params);
        lemma_first_lookup(params, needed.last().0);
        let last = needed.last();
        let first = first_of(params, last.0);
        assert(absent(last) <==> first == params.len()) by {
            if absent(last) && first < params.len() {
                assert(params[first].0 == last.0);
            }
        }
        if absent(last) {
            assert(needed.filter(absent) =~= before.filter(absent).push(last));
            assert(needed.filter(absent).map_values(said) =~= before.filter(absent).map_values(
                said,
            ).push(said(last)));
        } else {
            assert(needed.filter(absent) =~= before.filter(absent));
        }
    } else {
        assert(needed.filter(absent).map_values(said) =~= Seq::empty());
    }
}

/// Whether a placeholder takes the parameter at `i`: one asks for its name, and
/// no parameter before it has that name.
pub open spec fn is_taken(
    params: Seq<(Seq<char>, JsonView)>,
    needed: Seq<Need>,
    i: int,
) -> bool {
    &&& exists|k: int| 0 <= k < needed.len() && (#[trigger] needed[k]).0 == params[i].0
    &&& forall|j: int| 0 <= j < i ==> (#[trigger] params[j]).0 != params[i].0
}

/// The parameters that are told as unused are those that no placeholder takes,
/// in order.
pub proof fn law_unused_are_told(
    params: Seq<(Seq<char>, JsonView)>,
    needed: Seq<Need>,
    n: int,
)
    requires
        0 <= n <= params.len(),
    ensures
        unused(params, needed, n) == Seq::new(n as nat, |i: int| i).filter(
            |i: int| !is_taken(params, needed, i),
        ).map_values(|i: int| params[i].0),
    decreases n,
{
    reveal(Seq::filter);
    let places = Seq::new(n as nat, |i: int| i);
    let free = |i: int| !is_taken(params, needed, i);
    let named = |i: int| params[i].0;
    if n > 0 {
        law_unused_are_told(params, needed, n - 1);
        let before = Seq::new((n - 1) as nat, |i: int| i);
        assert(places.drop_last() =~= before);
        assert(places.last() == n - 1);
        lemma_used(params, needed, n - 1);
        if free(n - 1) {
            assert(places.filter(free) =~= before.filter(free).push(n - 1));
            assert(places.filter(free).map_values(named) =~= before.filter(free).map_values(
                named,
            ).push(named(n - 1)));
        } else {
            assert(places.filter(free) =~= before.filter(free));
        }
    } else {
        assert(places.filter(free).map_values(named) =~= Seq::empty());
    }
}

proof fn lemma_used(params: Seq<(Seq<char>, JsonView)>, needed: Seq<Need>, i: int)
    requires
        0 <= i < params.len(),
    ensures
        is_used(params, needed, i) <==> is_taken(params, needed, i),
{
    if is_used(params, needed, i) {
        let k = choose|k: int|
            0 <= k < needed.len() && first_of(params, (#[trigger] needed[k]).0) == i;
        lemma_first_lookup(params, needed[k].0);
        assert(needed[k].0 == params[i].0);
    }
    if is_taken(params, needed, i) {
        let k = choose|k: int| 0 <= k < needed.len() && (#[trigger] needed[k]).0 == params[i].0;
        lemma_first_lookup(params, needed[k].0);
        assert(params[i].0 == needed[k].0);
        assert(first_of(params, needed[k].0) == i);
    }
}

/// Filling a document reports every parameter that no placeholder takes, in
/// order; where a placeholder has no parameter, it reports every such
/// placeholder instead, with its place.
pub proof fn law_report_says(view: JsonView, params: Seq<(Seq<char>, JsonView)>)
    ensures
        ({
            let needed = needs(view, Seq::empty());
            let lacking = needed.filter(|need: Need| is_absent(params, need.0)).map_values(
                |need: Need| need.0 + " (needed at "@ + need.1 + ")"@,
            );
            let free = Seq::new(params.len(), |i: int| i).filter(
                |i: int| !is_taken(params, needed, i),
            ).map_values(|i: int| params[i].0);
            &&& lacking.len() == 0 ==> report(view, params) == Ok::<Seq<Seq<char>>, Seq<char>>(free)
            &&& lacking.len() > 0 ==> report(view, params) == Err::<Seq<Seq<char>>, Seq<char>>(
                "missing --param value(s): "@ + text::joined(lacking, ", "@)
                    + "; pass them as --param NAME=VALUE or --param NAME=@PATH"@,
            )
        }),
{
    let needed = needs(view, Seq::empty());
    law_missing_are_told(needed, params);
    law_unused_are_told(params, needed, params.len() as int);
}

} // verus!
