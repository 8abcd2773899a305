//! JSON documents as plain values.
//!
//! An object keeps its entries in the order of their keys and holds no key
//! twice; walking an object is walking its entries in that order.

use crate::number;
use crate::text;
use vstd::prelude::*;

verus! {

/// A JSON document.
#[derive(Debug, PartialEq)]
pub enum Json {
    Null,
    Bool(bool),
    Number(serde_json::Number),
    Str(String),
    Array(Vec<Json>),
    Object(Object),
}

/// The entries of a JSON object, in ascending order of their keys.
#[derive(Debug, PartialEq)]
pub struct Object {
    entries: Vec<(String, Json)>,
}

/// What a JSON document says.
#[verifier::ext_equal]
pub enum JsonView {
    Null,
    Bool(bool),
    Number(number::Num),
    Str(Seq<char>),
    Array(Seq<JsonView>),
    Object(Seq<(Seq<char>, JsonView)>),
}

impl Json {
    /// What the document says.
    pub open spec fn model(self) -> JsonView
        decreases self,
    {
        match self {
            Json::Null => JsonView::Null,
            Json::Bool(b) => JsonView::Bool(b),
            Json::Number(n) => JsonView::Number(number::number_model(n)),
            Json::Str(s) => JsonView::Str(s@),
            Json::Array(items) => JsonView::Array(item_models(items@)),
            Json::Object(object) => JsonView::Object(object.model()),
        }
    }
}

/// What each item of an array says.
pub open spec fn item_models(items: Seq<Json>) -> Seq<JsonView>
    decreases items,
{
    Seq::new(
        items.len(),
        |i: int|
            if 0 <= i < items.len() {
                items[i].model()
            } else {
                JsonView::Null
            },
    )
}

/// What each entry of an object says.
spec fn entry_models(entries: Seq<(String, Json)>) -> Seq<(Seq<char>, JsonView)>
    decreases entries,
{
    Seq::new(
        entries.len(),
        |i: int|
            if 0 <= i < entries.len() {
                (entries[i].0@, entries[i].1.model())
            } else {
                (Seq::empty(), JsonView::Null)
            },
    )
}

impl Object {
    /// The keys and what their values say.
    pub closed spec fn model(self) -> Seq<(Seq<char>, JsonView)>
        decreases self,
    {
        entry_models(self.entries@)
    }

    #[verifier::type_invariant]
    spec fn sorted(self) -> bool {
        keys_ascend(entry_models(self.entries@))
    }
}

impl View for Json {
    type V = JsonView;

    open spec fn view(&self) -> JsonView {
        self.model()
    }
}

impl View for Object {
    type V = Seq<(Seq<char>, JsonView)>;

    open spec fn view(&self) -> Seq<(Seq<char>, JsonView)> {
        self.model()
    }
}

/// Whether the keys of entries stand in strictly ascending order.
pub open spec fn keys_ascend(entries: Seq<(Seq<char>, JsonView)>) -> bool {
    forall|i: int, j: int|
        0 <= i < j < entries.len() ==> text::precedes(
            (#[trigger] entries[i]).0,
            (#[trigger] entries[j]).0,
        )
}

/// The value under a key.
pub open spec fn lookup(entries: Seq<(Seq<char>, JsonView)>, key: Seq<char>) -> Option<JsonView>
    decreases entries.len(),
{
    if entries.len() == 0 {
        None
    } else if entries[0].0 == key {
        Some(entries[0].1)
    } else {
        lookup(entries.drop_first(), key)
    }
}

/// Entries with a key bound to a value: its old value is replaced, or it is
/// put in its place in the order of the keys.
pub open spec fn put(
    entries: Seq<(Seq<char>, JsonView)>,
    key: Seq<char>,
    value: JsonView,
) -> Seq<(Seq<char>, JsonView)>
    decreases entries.len(),
{
    if entries.len() == 0 {
        seq![(key, value)]
    } else if entries[0].0 == key {
        seq![(key, value)] + entries.drop_first()
    } else if text::precedes(key, entries[0].0) {
        seq![(key, value)] + entries
    } else {
        seq![entries[0]] + put(entries.drop_first(), key, value)
    }
}

/// Entries without a key.
pub open spec fn without(entries: Seq<(Seq<char>, JsonView)>, key: Seq<char>) -> Seq<
    (Seq<char>, JsonView),
>
    decreases entries.len(),
{
    if entries.len() == 0 {
        entries
    } else if entries[0].0 == key {
        entries.drop_first()
    } else {
        seq![entries[0]] + without(entries.drop_first(), key)
    }
}

impl JsonView {
    /// The value under a key of an object; other documents have no keys.
    pub open spec fn get(self, key: Seq<char>) -> Option<JsonView> {
        match self {
            JsonView::Object(entries) => lookup(entries, key),
            _ => None,
        }
    }
}

/// An array says what its items say, one by one.
pub broadcast proof fn lemma_item_models(items: Seq<Json>)
    ensures
        #![trigger item_models(items)]
        item_models(items).len() == items.len(),
        forall|i: int|
            0 <= i < items.len() ==> #[trigger] item_models(items)[i] == items[i]@,
{
}

broadcast proof fn lemma_entry_models(entries: Seq<(String, Json)>)
    ensures
        #![trigger entry_models(entries)]
        entry_models(entries).len() == entries.len(),
        forall|i: int|
            0 <= i < entries.len() ==> #[trigger] entry_models(entries)[i] == (
                entries[i].0@,
                entries[i].1@,
            ),
{
}

/// Entries before a key's place stay as they are when the key is put in.
proof fn lemma_put_after(
    entries: Seq<(Seq<char>, JsonView)>,
    key: Seq<char>,
    value: JsonView,
    at: int,
)
    requires
        0 <= at <= entries.len(),
        forall|i: int| 0 <= i < at ==> text::precedes((#[trigger] entries[i]).0, key),
    ensures
        put(entries, key, value) == entries.take(at) + put(entries.skip(at), key, value),
    decreases at,
{
    if at == 0 {
        assert(entries.skip(0) =~= entries);
        assert(entries.take(0) + put(entries, key, value) =~= put(entries, key, value));
    } else {
        let rest = entries.drop_first();
        assert(text::precedes(entries[0].0, key));
        text::lemma_precedes_irreflexive(key);
        if text::precedes(key, entries[0].0) {
            text::lemma_precedes_transitive(key, entries[0].0, key);
        }
        assert forall|i: int| 0 <= i < at - 1 implies text::precedes(
            (#[trigger] rest[i]).0,
            key,
        ) by {
            assert(rest[i] == entries[i + 1]);
        }
        lemma_put_after(rest, key, value, at - 1);
        assert(rest.skip(at - 1) =~= entries.skip(at));
        assert(seq![entries[0]] + rest.take(at - 1) =~= entries.take(at));
        assert(seq![entries[0]] + (rest.take(at - 1) + put(entries.skip(at), key, value)) =~= (
        seq![entries[0]] + rest.take(at - 1)) + put(entries.skip(at), key, value));
    }
}

/// A key after all others is put last.
pub proof fn lemma_put_last(
    entries: Seq<(Seq<char>, JsonView)>,
    key: Seq<char>,
    value: JsonView,
)
    requires
        forall|i: int| 0 <= i < entries.len() ==> text::precedes((#[trigger] entries[i]).0, key),
    ensures
        put(entries, key, value) == entries.push((key, value)),
{
    let n = entries.len() as int;
    lemma_put_after(entries, key, value, n);
    assert(entries.take(n) + put(entries.skip(n), key, value) =~= entries.push((key, value)));
}

/// Looking up passes over entries with other keys.
proof fn lemma_lookup_after(entries: Seq<(Seq<char>, JsonView)>, key: Seq<char>, at: int)
    requires
        0 <= at <= entries.len(),
        forall|i: int| 0 <= i < at ==> (#[trigger] entries[i]).0 != key,
    ensures
        lookup(entries, key) == lookup(entries.skip(at), key),
        without(entries, key) == entries.take(at) + without(entries.skip(at), key),
    decreases at,
{
    if at == 0 {
        assert(entries.skip(0) =~= entries);
        assert(entries.take(0) + without(entries, key) =~= without(entries, key));
    } else {
        let rest = entries.drop_first();
        assert(entries[0].0 != key);
        assert forall|i: int| 0 <= i < at - 1 implies (#[trigger] rest[i]).0 != key by {
            assert(rest[i] == entries[i + 1]);
        }
        lemma_lookup_after(rest, key, at - 1);
        assert(rest.skip(at - 1) =~= entries.skip(at));
        assert(seq![entries[0]] + (rest.take(at - 1) + without(entries.skip(at), key)) =~= (
        seq![entries[0]] + rest.take(at - 1)) + without(entries.skip(at), key));
        assert(seq![entries[0]] + rest.take(at - 1) =~= entries.take(at));
    }
}

/// What is put under a key is what is found there.
pub proof fn lemma_put_found(
    entries: Seq<(Seq<char>, JsonView)>,
    key: Seq<char>,
    value: JsonView,
)
    ensures
        lookup(put(entries, key, value), key) == Some(value),
    decreases entries.len(),
{
    let after = put(entries, key, value);
    if entries.len() > 0 && entries[0].0 != key && !text::precedes(key, entries[0].0) {
        lemma_put_found(entries.drop_first(), key, value);
        assert(after.drop_first() =~= put(entries.drop_first(), key, value));
    }
}

/// Putting a value under a key leaves every other key as it was.
pub proof fn lemma_put_keeps(
    entries: Seq<(Seq<char>, JsonView)>,
    key: Seq<char>,
    value: JsonView,
    other: Seq<char>,
)
    requires
        other != key,
    ensures
        lookup(put(entries, key, value), other) == lookup(entries, other),
    decreases entries.len(),
{
    let after = put(entries, key, value);
    if entries.len() == 0 {
        assert(after.drop_first() =~= entries);
    } else if entries[0].0 == key {
        assert(after.drop_first() =~= entries.drop_first());
    } else if text::precedes(key, entries[0].0) {
        assert(after.drop_first() =~= entries);
    } else {
        lemma_put_keeps(entries.drop_first(), key, value, other);
        assert(after.drop_first() =~= put(entries.drop_first(), key, value));
    }
}

/// Putting a value under a key adds no other entry.
pub proof fn lemma_put_members(
    entries: Seq<(Seq<char>, JsonView)>,
    key: Seq<char>,
    value: JsonView,
)
    ensures
        put(entries, key, value).len() >= 1,
        forall|i: int|
            0 <= i < put(entries, key, value).len() ==> (#[trigger] put(entries, key, value)[i]
                == (key, value) || entries.contains(put(entries, key, value)[i])),
    decreases entries.len(),
{
    let after = put(entries, key, value);
    if entries.len() > 0 {
        let rest = entries.drop_first();
        if entries[0].0 != key && !text::precedes(key, entries[0].0) {
            lemma_put_members(rest, key, value);
            let tail = put(rest, key, value);
            assert forall|i: int| 0 <= i < after.len() implies (#[trigger] after[i] == (key, value)
                || entries.contains(after[i])) by {
                if i == 0 {
                    assert(after[0] == entries[0]);
                } else {
                    assert(after[i] == tail[i - 1]);
                    if rest.contains(tail[i - 1]) {
                        let k = choose|k: int| 0 <= k < rest.len() && rest[k] == tail[i - 1];
                        assert(entries[k + 1] == rest[k]);
                    }
                }
            }
        } else if entries[0].0 == key {
            assert forall|i: int| 0 <= i < after.len() implies (#[trigger] after[i] == (key, value)
                || entries.contains(after[i])) by {
                if i > 0 {
                    assert(after[i] == entries[i]);
                }
            }
        } else {
            assert forall|i: int| 0 <= i < after.len() implies (#[trigger] after[i] == (key, value)
                || entries.contains(after[i])) by {
                if i > 0 {
                    assert(after[i] == entries[i - 1]);
                }
            }
        }
    }
}

/// In entries whose keys ascend, a key that was taken out is no longer found.
pub proof fn lemma_without_absent(entries: Seq<(Seq<char>, JsonView)>, key: Seq<char>)
    requires
        keys_ascend(entries),
    ensures
        lookup(without(entries, key), key) is None,
    decreases entries.len(),
{
    if entries.len() > 0 {
        let rest = entries.drop_first();
        assert forall|i: int, j: int| 0 <= i < j < rest.len() implies text::precedes(
            (#[trigger] rest[i]).0,
            (#[trigger] rest[j]).0,
        ) by {
            assert(rest[i] == entries[i + 1] && rest[j] == entries[j + 1]);
        }
        if entries[0].0 == key {
            assert forall|i: int| 0 <= i < rest.len() implies (#[trigger] rest[i]).0 != key by {
                assert(rest[i] == entries[i + 1]);
                text::lemma_precedes_irreflexive(key);
            }
            lemma_lookup_after(rest, key, rest.len() as int);
        } else {
            lemma_without_absent(rest, key);
            assert(without(entries, key).drop_first() =~= without(rest, key));
        }
    }
}

/// Taking a key out leaves every other key as it was.
pub proof fn lemma_without_keeps(
    entries: Seq<(Seq<char>, JsonView)>,
    key: Seq<char>,
    other: Seq<char>,
)
    requires
        other != key,
    ensures
        lookup(without(entries, key), other) == lookup(entries, other),
    decreases entries.len(),
{
    if entries.len() > 0 && entries[0].0 != key {
        lemma_without_keeps(entries.drop_first(), key, other);
        assert(without(entries, key).drop_first() =~= without(entries.drop_first(), key));
    }
}

/// Keys that ascend still do when one of them is taken out.
pub proof fn lemma_without_ascends(entries: Seq<(Seq<char>, JsonView)>, key: Seq<char>)
    requires
        keys_ascend(entries),
    ensures
        keys_ascend(without(entries, key)),
        forall|i: int|
            0 <= i < without(entries, key).len() ==> entries.contains(
                #[trigger] without(entries, key)[i],
            ),
    decreases entries.len(),
{
    if entries.len() > 0 {
        let rest = entries.drop_first();
        let after = without(entries, key);
        assert forall|i: int| 0 <= i < rest.len() implies #[trigger] rest[i] == entries[i + 1] by {}
        assert forall|i: int, j: int| 0 <= i < j < rest.len() implies text::precedes(
            (#[trigger] rest[i]).0,
            (#[trigger] rest[j]).0,
        ) by {
            assert(rest[i] == entries[i + 1] && rest[j] == entries[j + 1]);
        }
        if entries[0].0 == key {
            assert forall|i: int| 0 <= i < after.len() implies entries.contains(
                #[trigger] after[i],
            ) by {
                assert(after[i] == entries[i + 1]);
            }
        } else {
            lemma_without_ascends(rest, key);
            let tail = without(rest, key);
            assert forall|i: int| 0 <= i < tail.len() implies text::precedes(
                entries[0].0,
                (#[trigger] tail[i]).0,
            ) && entries.contains(tail[i]) by {
                assert(rest.contains(tail[i]));
                let k = choose|k: int| 0 <= k < rest.len() && rest[k] == tail[i];
                assert(rest[k] == entries[k + 1]);
            }
            assert forall|i: int| 0 <= i < after.len() implies entries.contains(
                #[trigger] after[i],
            ) by {
                if i == 0 {
                    assert(after[0] == entries[0]);
                } else {
                    assert(after[i] == tail[i - 1]);
                }
            }
            assert forall|i: int, j: int| 0 <= i < j < after.len() implies text::precedes(
                (#[trigger] after[i]).0,
                (#[trigger] after[j]).0,
            ) by {
                assert(after[j] == tail[j - 1]);
                if i > 0 {
                    assert(after[i] == tail[i - 1]);
                }
            }
        }
    }
}

impl Object {
    /// An object without entries.
    pub fn new() -> (r: Object)
        ensures
            r@ == Seq::<(Seq<char>, JsonView)>::empty(),
    {
        broadcast use lemma_entry_models;

        let entries: Vec<(String, Json)> = Vec::new();
        let r = Object { entries };
        assert(r@ =~= Seq::<(Seq<char>, JsonView)>::empty());
        r
    }

    /// The number of entries. The keys of an object ascend.
    pub fn len(&self) -> (r: usize)
        ensures
            r == self@.len(),
            keys_ascend(self@),
    {
        broadcast use lemma_entry_models;

        proof {
            use_type_invariant(self);
        }

        self.entries.len()
    }

    /// The key of an entry.
    pub fn key_at(&self, i: usize) -> (r: &str)
        requires
            i < self@.len(),
        ensures
            r@ == self@[i as int].0,
    {
        broadcast use lemma_entry_models;

        self.entries[i].0.as_str()
    }

    /// The value of an entry.
    pub fn value_at(&self, i: usize) -> (r: &Json)
        requires
            i < self@.len(),
        ensures
            r@ == self@[i as int].1,
    {
        broadcast use lemma_entry_models;

        &self.entries[i].1
    }

    /// The place of a key: the number of entries whose keys come before it.
    fn place(&self, key: &str) -> (at: usize)
        ensures
            at <= self@.len(),
            forall|i: int| 0 <= i < at ==> text::precedes((#[trigger] self@[i]).0, key@),
            at < self@.len() ==> !text::precedes(self@[at as int].0, key@),
            self.entries@.len() == self@.len(),
    {
        broadcast use lemma_entry_models;

        let mut at: usize = 0;
        while at < self.entries.len() && text::comes_before(self.entries[at].0.as_str(), key)
            invariant
                at <= self.entries@.len(),
                self.entries@.len() == self@.len(),
                forall|i: int| 0 <= i < at ==> text::precedes((#[trigger] self@[i]).0, key@),
            decreases self.entries@.len() - at,
        {
            at += 1;
        }
        at
    }

    /// The entry of a key, if it has one.
    fn find(&self, key: &str) -> (r: Option<usize>)
        ensures
            match r {
                Some(at) => at < self@.len() && self@[at as int].0 == key@ && lookup(self@, key@)
                    == Some(self@[at as int].1) && without(self@, key@) == self@.remove(
                    at as int,
                ),
                None => lookup(self@, key@) is None && without(self@, key@) == self@,
            },
            self.entries@.len() == self@.len(),
    {
        broadcast use lemma_entry_models;

        let mut at: usize = 0;
        while at < self.entries.len()
            invariant
                at <= self.entries@.len(),
                self.entries@.len() == self@.len(),
                forall|i: int| 0 <= i < at ==> (#[trigger] self@[i]).0 != key@,
            decreases self.entries@.len() - at,
        {
            if text::same(self.entries[at].0.as_str(), key) {
                proof {
                    lemma_lookup_after(self@, key@, at as int);
                    let rest = self@.skip(at as int);
                    assert(rest[0] == self@[at as int]);
                    assert(self@.take(at as int) + rest.drop_first() =~= self@.remove(at as int));
                }
                return Some(at);
            }
            at += 1;
        }
        proof {
            lemma_lookup_after(self@, key@, at as int);
            assert(self@.take(at as int) + self@.skip(at as int) =~= self@);
        }
        None
    }

    /// The value under a key.
    pub fn get(&self, key: &str) -> (r: Option<&Json>)
        ensures
            match r {
                Some(value) => lookup(self@, key@) == Some(value@),
                None => lookup(self@, key@) is None,
            },
    {
        match self.find(key) {
            Some(at) => Some(self.value_at(at)),
            None => None,
        }
    }

    /// Binds a key to a value.
    pub fn insert(&mut self, key: String, value: Json)
        ensures
            final(self)@ == put(old(self)@, key@, value@),
    {
        broadcast use lemma_entry_models;

        proof {
            use_type_invariant(&*self);
        }
        let at = self.place(key.as_str());
        let ghost before = self@;
        let ghost old_entries = self.entries@;
        let mut entries: Vec<(String, Json)> = Vec::new();
        std::mem::swap(&mut entries, &mut self.entries);
        proof {
            lemma_put_after(before, key@, value@, at as int);
            assert(entry_models(entries@) == before);
        }
        let present = at < entries.len() && text::same(entries[at].0.as_str(), key.as_str());
        if present {
            let _ = entries.remove(at);
        }
        let ghost removed = entries@;
        let ghost k = key@;
        let ghost v = value@;
        entries.insert(at, (key, value));
        proof {
            let rest = before.skip(at as int);
            let after = entry_models(entries@);
            if at < before.len() {
                text::lemma_precedes_total(k, before[at as int].0);
                assert(rest[0] == before[at as int]);
            }
            if present {
                assert(removed == old_entries.remove(at as int));
                assert(after =~= before.take(at as int) + (seq![(k, v)] + rest.drop_first()));
            } else {
                assert(after =~= before.take(at as int) + (seq![(k, v)] + rest));
            }
            assert(after == put(before, k, v));
            assert forall|i: int, j: int| 0 <= i < j < after.len() implies text::precedes(
                (#[trigger] after[i]).0,
                (#[trigger] after[j]).0,
            ) by {
                if present {
                    assert(after[i].0 == before[i].0 && after[j].0 == before[j].0);
                } else if j < at {
                    assert(after[i] == before[i] && after[j] == before[j]);
                } else if j == at {
                    assert(after[i] == before[i]);
                } else {
                    assert(after[j] == before[j - 1]);
                    if i < at {
                        assert(after[i] == before[i]);
                    } else if i == at {
                        if j - 1 > at {
                            text::lemma_precedes_transitive(
                                k,
                                before[at as int].0,
                                before[j - 1].0,
                            );
                        }
                    } else {
                        assert(after[i] == before[i - 1]);
                    }
                }
            }
        }
        self.entries = entries;
    }

    /// Takes a key out, and gives the value that it had.
    pub fn remove(&mut self, key: &str) -> (r: Option<Json>)
        ensures
            final(self)@ == without(old(self)@, key@),
            match r {
                Some(value) => lookup(old(self)@, key@) == Some(value@),
                None => lookup(old(self)@, key@) is None,
            },
    {
        broadcast use lemma_entry_models;

        proof {
            use_type_invariant(&*self);
        }
        let ghost before = self@;
        match self.find(key) {
            None => None,
            Some(at) => {
                let mut entries: Vec<(String, Json)> = Vec::new();
                std::mem::swap(&mut entries, &mut self.entries);
                let (_, value) = entries.remove(at);
                proof {
                    assert(entry_models(entries@) =~= before.remove(at as int));
                }
                self.entries = entries;
                Some(value)
            },
        }
    }
}

impl Json {
    /// The value under a key of an object; other documents have no keys.
    pub fn get(&self, key: &str) -> (r: Option<&Json>)
        ensures
            match r {
                Some(value) => self@.get(key@) == Some(value@),
                None => self@.get(key@) is None,
            },
    {
        match self {
            Json::Object(object) => object.get(key),
            _ => None,
        }
    }
}

impl Clone for Json {
    fn clone(&self) -> (r: Json)
        ensures
            r@ == self@,
        decreases self,
    {
        match self {
            Json::Null => Json::Null,
            Json::Bool(b) => Json::Bool(*b),
            Json::Number(n) => Json::Number(n.clone()),
            Json::Str(s) => Json::Str(s.clone()),
            Json::Array(items) => Json::Array(clone_items(items)),
            Json::Object(object) => Json::Object(object.clone()),
        }
    }
}

fn clone_items(items: &Vec<Json>) -> (copies: Vec<Json>)
    ensures
        item_models(copies@) == item_models(items@),
    decreases items,
{
    broadcast use lemma_item_models;

    let mut copies: Vec<Json> = Vec::new();
    let mut i: usize = 0;
    while i < items.len()
        invariant
            i <= items@.len(),
            copies@.len() == i,
            forall|k: int| 0 <= k < i ==> (#[trigger] copies@[k])@ == items@[k]@,
        decreases items@.len() - i,
    {
        copies.push(items[i].clone());
        i += 1;
    }
    assert(item_models(copies@) =~= item_models(items@));
    copies
}

impl Clone for Object {
    fn clone(&self) -> (r: Object)
        ensures
            r@ == self@,
        decreases self,
    {
        broadcast use lemma_entry_models;

        proof {
            use_type_invariant(self);
        }
        let mut copies: Vec<(String, Json)> = Vec::new();
        let mut i: usize = 0;
        while i < self.entries.len()
            invariant
                i <= self.entries@.len(),
                copies@.len() == i,
                forall|k: int|
                    0 <= k < i ==> (#[trigger] copies@[k]).0@ == self.entries@[k].0@
                        && copies@[k].1@ == self.entries@[k].1@,
            decreases self.entries@.len() - i,
        {
            copies.push((self.entries[i].0.clone(), self.entries[i].1.clone()));
            i += 1;
        }
        assert(entry_models(copies@) =~= entry_models(self.entries@));
        Object { entries: copies }
    }
}

/// What is found under a key is the value of the first entry with that key;
/// nothing is found exactly where no entry has it.
pub proof fn law_lookup(entries: Seq<(Seq<char>, JsonView)>, key: Seq<char>)
    ensures
        match lookup(entries, key) {
            Some(value) => exists|i: int|
                0 <= i < entries.len() && #[trigger] entries[i] == (key, value) && forall|j: int|
                    0 <= j < i ==> (#[trigger] entries[j]).0 != key,
            None => forall|i: int| 0 <= i < entries.len() ==> (#[trigger] entries[i]).0 != key,
        },
    decreases entries.len(),
{
    if entries.len() > 0 {
        if entries[0].0 == key {
            assert(entries[0] == (key, entries[0].1));
        } else {
            let rest = entries.drop_first();
            law_lookup(rest, key);
            match lookup(rest, key) {
                Some(value) => {
                    let i = choose|i: int|
                        0 <= i < rest.len() && #[trigger] rest[i] == (key, value) && forall|j: int|
                            0 <= j < i ==> (#[trigger] rest[j]).0 != key;
                    assert(entries[i + 1] == (key, value));
                    assert forall|j: int| 0 <= j < i + 1 implies (#[trigger] entries[j]).0 != key by {
                        if j > 0 {
                            assert(rest[j - 1] == entries[j]);
                        }
                    }
                },
                None => {
                    assert forall|i: int| 0 <= i < entries.len() implies (#[trigger] entries[i]).0
                        != key by {
                        if i > 0 {
                            assert(rest[i - 1] == entries[i]);
                        }
                    }
                },
            }
        }
    }
}

/// Only objects have keys.
pub proof fn law_only_objects_have_keys(view: JsonView, key: Seq<char>)
    ensures
        view.get(key) is Some ==> view is Object,
        view matches JsonView::Object(entries) ==> view.get(key) == lookup(entries, key),
{
}

/// Two lists of entries in ascending order of their keys that find the same
/// under every key are the same.
pub proof fn law_entries_are_what_they_find(
    a: Seq<(Seq<char>, JsonView)>,
    b: Seq<(Seq<char>, JsonView)>,
)
    requires
        keys_ascend(a),
        keys_ascend(b),
        forall|key: Seq<char>| lookup(a, key) == #[trigger] lookup(b, key),
    ensures
        a == b,
    decreases a.len(),
{
    if a.len() == 0 || b.len() == 0 {
        if a.len() > 0 {
            assert(lookup(a, a[0].0) == lookup(b, a[0].0));
        }
        if b.len() > 0 {
            assert(lookup(a, b[0].0) == lookup(b, b[0].0));
        }
        assert(a =~= b);
    } else {
        lemma_first_key(a, b);
        lemma_first_key(b, a);
        text::lemma_precedes_total(a[0].0, b[0].0);
        if text::precedes(a[0].0, b[0].0) && text::precedes(b[0].0, a[0].0) {
            text::lemma_precedes_transitive(a[0].0, b[0].0, a[0].0);
            text::lemma_precedes_irreflexive(a[0].0);
        }
        assert(a[0].0 == b[0].0);
        assert(lookup(a, a[0].0) == lookup(b, a[0].0));
        let (x, y) = (a.drop_first(), b.drop_first());
        assert forall|i: int, j: int| 0 <= i < j < x.len() implies text::precedes(
            (#[trigger] x[i]).0,
            (#[trigger] x[j]).0,
        ) by {
            assert(x[i] == a[i + 1] && x[j] == a[j + 1]);
        }
        assert forall|i: int, j: int| 0 <= i < j < y.len() implies text::precedes(
            (#[trigger] y[i]).0,
            (#[trigger] y[j]).0,
        ) by {
            assert(y[i] == b[i + 1] && y[j] == b[j + 1]);
        }
        assert forall|key: Seq<char>| lookup(x, key) == #[trigger] lookup(y, key) by {
            if key == a[0].0 {
                lemma_first_is_alone(a);
                lemma_first_is_alone(b);
            } else {
                assert(lookup(a, key) == lookup(b, key));
            }
        }
        law_entries_are_what_they_find(x, y);
        assert(a =~= seq![a[0]] + x);
        assert(b =~= seq![b[0]] + y);
    }
}

/// The first key of entries is found in others that find the same, at their
/// first key or behind it.
proof fn lemma_first_key(a: Seq<(Seq<char>, JsonView)>, b: Seq<(Seq<char>, JsonView)>)
    requires
        a.len() > 0,
        b.len() > 0,
        keys_ascend(b),
        forall|key: Seq<char>| lookup(a, key) == #[trigger] lookup(b, key),
    ensures
        a[0].0 == b[0].0 || text::precedes(b[0].0, a[0].0),
{
    let key = a[0].0;
    assert(lookup(a, key) == lookup(b, key));
    law_lookup(b, key);
    let value = lookup(b, key)->0;
    let i = choose|i: int|
        0 <= i < b.len() && #[trigger] b[i] == (key, value) && forall|j: int|
            0 <= j < i ==> (#[trigger] b[j]).0 != key;
    if i > 0 {
        assert(text::precedes(b[0].0, b[i].0));
    }
}

/// The first key of ascending entries is not found behind them.
proof fn lemma_first_is_alone(entries: Seq<(Seq<char>, JsonView)>)
    requires
        entries.len() > 0,
        keys_ascend(entries),
    ensures
        lookup(entries.drop_first(), entries[0].0) is None,
{
    let rest = entries.drop_first();
    let key = entries[0].0;
    law_lookup(rest, key);
    if lookup(rest, key) is Some {
        let value = lookup(rest, key)->0;
        let i = choose|i: int|
            0 <= i < rest.len() && #[trigger] rest[i] == (key, value) && forall|j: int|
                0 <= j < i ==> (#[trigger] rest[j]).0 != key;
        assert(rest[i] == entries[i + 1]);
        assert(text::precedes(entries[0].0, entries[i + 1].0));
        text::lemma_precedes_irreflexive(key);
    }
}

}
