//! Values of scripts as JSON documents.

use vstd::prelude::*;
use vstd::string::*;

use crate::error::{self, Error, failure};
use crate::math::{self, Number};
use crate::order::{self, reversed};
use crate::text::{self, Text, concat2, decimal_text};

verus! {

/// A value of a script with everything in it. A table lists its entries in the order in which they
/// are found in it.
#[derive(Debug)]
pub enum LuaData {
    Nil,
    Boolean(bool),
    Integer(i64),
    Number(Number),
    String(String),
    /// A string that is not text, with what is wrong with it.
    Malformed(String),
    Table(Vec<LuaEntry>),
    /// Anything else: functions, user data and the like.
    Other,
}

/// An entry of a table.
#[derive(Debug)]
pub struct LuaEntry {
    pub key: LuaKey,
    pub value: LuaData,
}

/// A key of a table.
#[derive(Debug)]
pub enum LuaKey {
    Integer(i64),
    Number(Number),
    String(String),
    /// A string that is not text, with what is wrong with it.
    Malformed(String),
    Other,
}

/// The content of a [`LuaKey`].
#[verifier::ext_equal]
pub enum KeyView {
    Integer(i64),
    Number(Number),
    String(Text),
    Malformed(Text),
    Other,
}

impl View for LuaKey {
    type V = KeyView;

    open spec fn view(&self) -> KeyView {
        match self {
            LuaKey::Integer(i) => KeyView::Integer(*i),
            LuaKey::Number(n) => KeyView::Number(*n),
            LuaKey::String(s) => KeyView::String(s@),
            LuaKey::Malformed(e) => KeyView::Malformed(e@),
            LuaKey::Other => KeyView::Other,
        }
    }
}

/// A JSON document. The entries of an object stand in the order of their keys.
#[derive(Debug)]
pub enum JsonData {
    Null,
    Bool(bool),
    Integer(i64),
    Number(Number),
    String(String),
    Array(Vec<JsonData>),
    Object(Vec<JsonEntry>),
}

/// An entry of a JSON object.
#[derive(Debug)]
pub struct JsonEntry {
    pub key: String,
    pub value: JsonData,
}

/// The content of a [`JsonData`].
#[verifier::ext_equal]
pub enum JsonView {
    Null,
    Bool(bool),
    Integer(i64),
    Number(Number),
    String(Text),
    Array(Seq<JsonView>),
    Object(Seq<(Text, JsonView)>),
}

impl View for JsonData {
    type V = JsonView;

    open spec fn view(&self) -> JsonView
        decreases self,
    {
        match self {
            JsonData::Null => JsonView::Null,
            JsonData::Bool(b) => JsonView::Bool(*b),
            JsonData::Integer(i) => JsonView::Integer(*i),
            JsonData::Number(n) => JsonView::Number(*n),
            JsonData::String(s) => JsonView::String(s@),
            JsonData::Array(items) => JsonView::Array(
                Seq::new(
                    items@.len(),
                    |i: int|
                        if 0 <= i < items@.len() {
                            items@[i].view()
                        } else {
                            arbitrary()
                        },
                ),
            ),
            JsonData::Object(entries) => JsonView::Object(
                Seq::new(
                    entries@.len(),
                    |i: int|
                        if 0 <= i < entries@.len() {
                            (entries@[i].key@, entries@[i].value.view())
                        } else {
                            arbitrary()
                        },
                ),
            ),
        }
    }
}

/// The entries of an object by their views.
pub open spec fn entry_views(list: Seq<JsonEntry>) -> Seq<(Text, JsonView)> {
    list.map_values(|entry: JsonEntry| (entry.key@, entry.value@))
}

/// The position in a list of entries at which a key stands or would stand.
pub open spec fn entry_slot(entries: Seq<(Text, JsonView)>, key: Text) -> nat
    decreases entries.len(),
{
    if entries.len() == 0 || text::text_lt(entries.last().0, key) {
        entries.len()
    } else {
        entry_slot(entries.drop_last(), key)
    }
}

/// An object with an entry set: one of the same key is replaced.
pub open spec fn with_entry(entries: Seq<(Text, JsonView)>, key: Text, value: JsonView) -> Seq<
    (Text, JsonView),
> {
    let at = entry_slot(entries, key) as int;
    if at < entries.len() && entries[at].0 == key {
        entries.update(at, (key, value))
    } else {
        entries.insert(at, (key, value))
    }
}

/// The place in a list that a key names, where it names one.
pub open spec fn index_of(key: KeyView) -> Option<u64> {
    match key {
        KeyView::Integer(i) => if i > 0 {
            Some(i as u64)
        } else {
            None
        },
        KeyView::Number(n) => match math::whole_value(n) {
            Some(value) => Some(
                if value <= u64::MAX {
                    value as u64
                } else {
                    u64::MAX
                },
            ),
            None => None,
        },
        _ => None,
    }
}

/// What has been gathered from the entries of a table.
#[verifier::ext_equal]
pub struct Gathered {
    pub numbered: Seq<(u64, JsonView)>,
    pub named: Seq<(Text, JsonView)>,
    pub has_names: bool,
    pub has_others: bool,
}

/// What is gathered from the entries of a table, or what is wrong with the first bad one among
/// them. Entries with keys that JSON has not are passed over.
pub open spec fn gathered(entries: Seq<LuaEntry>) -> Result<Gathered, Text>
    decreases entries, 0nat,
{
    if entries.len() == 0 {
        Ok(
            Gathered {
                numbered: Seq::empty(),
                named: Seq::empty(),
                has_names: false,
                has_others: false,
            },
        )
    } else {
        match gathered(entries.drop_last()) {
            Err(message) => Err(message),
            Ok(so_far) => {
                let entry = entries.last();
                match (index_of(entry.key@), entry.key@) {
                    (Some(index), _) => match json_of(entry.value) {
                        Ok(value) => Ok(
                            Gathered { numbered: so_far.numbered.push((index, value)), ..so_far },
                        ),
                        Err(message) => Err(message),
                    },
                    (None, KeyView::String(key)) => match json_of(entry.value) {
                        Ok(value) => Ok(
                            Gathered {
                                named: with_entry(so_far.named, key, value),
                                has_names: true,
                                ..so_far
                            },
                        ),
                        Err(message) => Err(message),
                    },
                    (None, KeyView::Malformed(message)) => Err(message),
                    _ => Ok(Gathered { has_others: true, ..so_far }),
                }
            },
        }
    }
}

/// The order of numbered values.
pub open spec fn by_number() -> spec_fn((u64, JsonView), (u64, JsonView)) -> bool {
    |a: (u64, JsonView), b: (u64, JsonView)| a.0 <= b.0
}

/// Whether the values are numbered from 1 without gaps.
pub open spec fn contiguous(numbered: Seq<(u64, JsonView)>) -> bool {
    forall|i: int| 0 <= i < numbered.len() ==> (#[trigger] numbered[i]).0 == i + 1
}

/// An object with the numbered values added under their numbers.
pub open spec fn with_numbered(
    named: Seq<(Text, JsonView)>,
    numbered: Seq<(u64, JsonView)>,
) -> Seq<(Text, JsonView)>
    decreases numbered.len(),
{
    if numbered.len() == 0 {
        named
    } else {
        with_entry(
            with_numbered(named, numbered.drop_last()),
            text::decimal(numbered.last().0 as nat),
            numbered.last().1,
        )
    }
}

/// The document that a table becomes: an array where its keys count from 1, else an object.
pub open spec fn table_json(gathered: Gathered) -> Result<JsonView, Text> {
    if gathered.has_others {
        Err("HttpService:JSONEncode only supports string and positive integer table keys"@)
    } else if gathered.has_names {
        Ok(JsonView::Object(with_numbered(gathered.named, gathered.numbered)))
    } else {
        let sorted = order::sort_by(gathered.numbered, by_number());
        if contiguous(sorted) {
            Ok(JsonView::Array(sorted.map_values(|item: (u64, JsonView)| item.1)))
        } else {
            Ok(JsonView::Object(with_numbered(gathered.named, sorted)))
        }
    }
}

/// The document that a value becomes.
pub open spec fn json_of(value: LuaData) -> Result<JsonView, Text>
    decreases value, 1nat,
{
    match value {
        LuaData::Nil => Ok(JsonView::Null),
        LuaData::Boolean(b) => Ok(JsonView::Bool(b)),
        LuaData::Integer(i) => Ok(JsonView::Integer(i)),
        LuaData::Number(n) => if math::is_finite(n) {
            Ok(JsonView::Number(n))
        } else {
            Err("Cannot JSON encode NaN or infinity"@)
        },
        LuaData::String(s) => Ok(JsonView::String(s@)),
        LuaData::Malformed(message) => Err(message@),
        LuaData::Table(entries) => match gathered(entries@) {
            Ok(gathered) => table_json(gathered),
            Err(message) => Err(message),
        },
        LuaData::Other => Err(
            "HttpService:JSONEncode only supports nil, booleans, numbers, strings, and tables"@,
        ),
    }
}

proof fn lemma_array_view(items: Vec<JsonData>)
    ensures
        JsonData::Array(items)@ == JsonView::Array(text::views(items@)),
{
    reveal_with_fuel(<JsonData as View>::view, 2);
    let seen = JsonData::Array(items)@;
    assert(seen->Array_0 =~= text::views(items@));
}

proof fn lemma_object_view(entries: Vec<JsonEntry>)
    ensures
        JsonData::Object(entries)@ == JsonView::Object(entry_views(entries@)),
{
    reveal_with_fuel(<JsonData as View>::view, 2);
    let seen = JsonData::Object(entries)@;
    assert(seen->Object_0 =~= entry_views(entries@));
}

/// A value with its number.
#[derive(Debug)]
struct Numbered {
    index: u64,
    value: JsonData,
}

spec fn numbered_views(list: Seq<Numbered>) -> Seq<(u64, JsonView)> {
    list.map_values(|item: Numbered| (item.index, item.value@))
}

/// The maps of `serde_json`.
#[verifier::external_type_specification]
#[verifier::external_body]
#[verifier::reject_recursive_types(K)]
#[verifier::reject_recursive_types(V)]
pub struct ExJsonMap<K, V>(serde_json::Map<K, V>);

/// What `serde_json::Value::as_u64` gives for the value that a map of `serde_json` holds under each
/// of its keys.
pub uninterp spec fn held_numbers(map: serde_json::Map<String, serde_json::Value>) -> Map<
    Seq<char>,
    Option<u64>,
>;

/// What a map without keys holds.
pub open spec fn no_numbers() -> Map<Text, Option<u64>> {
    Map::empty()
}

/// Calls `serde_json::Map::new`. The map has no keys.
#[verifier::external_body]
fn empty_map() -> (r: serde_json::Map<String, serde_json::Value>)
    ensures
        held_numbers(r) == no_numbers(),
{
    serde_json::Map::new()
}

/// Calls `serde_json::Map::insert` with a number. The map then holds the number under the key, in
/// place of what it held there, and nothing else is changed.
#[verifier::external_body]
fn insert_number(
    map: &mut serde_json::Map<String, serde_json::Value>,
    key: String,
    number: u64,
)
    ensures
        held_numbers(*final(map)) == held_numbers(*old(map)).insert(key@, Some(number)),
{
    map.insert(key, serde_json::Value::from(number));
}

/// Whether a list has exactly the keys of a map, in ascending order, with what the map holds under
/// them.
pub open spec fn lists_map(list: Seq<(String, Option<u64>)>, map: Map<Text, Option<u64>>) -> bool {
    &&& forall|i: int, j: int|
        0 <= i < j < list.len() ==> text::text_lt((#[trigger] list[i]).0@, (#[trigger] list[j]).0@)
    &&& forall|i: int|
        0 <= i < list.len() ==> map.contains_key((#[trigger] list[i]).0@) && map[list[i].0@]
            == list[i].1
    &&& forall|key: Text| #[trigger]
        map.contains_key(key) ==> exists|i: int| 0 <= i < list.len() && (#[trigger] list[i]).0@ == key
}

/// Walks a `serde_json::Map` to its end, with `serde_json::Value::as_u64` on every value. The map is
/// kept in a `BTreeMap`, as the feature `preserve_order` is off: it hands out its entries in the
/// order of their keys.
#[verifier::external_body]
fn map_entries(map: serde_json::Map<String, serde_json::Value>) -> (r: Vec<(String, Option<u64>)>)
    ensures
        lists_map(r@, held_numbers(map)),
{
    map.into_iter().map(|(key, value)| (key, value.as_u64())).collect()
}

/// The entries of an object while they are gathered: a map holds the position of its value under
/// each key.
struct ObjectEntries {
    positions: serde_json::Map<String, serde_json::Value>,
    values: Vec<JsonData>,
    shown: Ghost<Seq<(Text, JsonView)>>,
}

impl ObjectEntries {
    /// Whether the map leads from a key to a value.
    spec fn leads_to(&self, key: Text, value: JsonView) -> bool {
        let held = held_numbers(self.positions);
        held.contains_key(key) && (held[key] matches Some(at) && at < self.values@.len()
            && self.values@[at as int]@ == value)
    }

    /// Whether the map and the values make up the entries.
    spec fn wf(&self) -> bool {
        let held = held_numbers(self.positions);
        let shown = self.shown@;
        &&& ascending(shown)
        &&& forall|i: int| 0 <= i < shown.len() ==> self.leads_to((#[trigger] shown[i]).0, shown[i].1)
        &&& forall|key: Text| #[trigger]
            held.contains_key(key) ==> exists|i: int|
                0 <= i < shown.len() && (#[trigger] shown[i]).0 == key
        &&& forall|a: Text, b: Text| #[trigger]
            held.contains_key(a) && #[trigger] held.contains_key(b) && a != b ==> held[a] != held[b]
    }

    /// No entries.
    fn new() -> (r: ObjectEntries)
        ensures
            r.wf(),
            r.shown@ == Seq::<(Text, JsonView)>::empty(),
    {
        ObjectEntries { positions: empty_map(), values: Vec::new(), shown: Ghost(Seq::empty()) }
    }

    /// Sets an entry: one of the same key is replaced.
    fn put(&mut self, key: String, value: JsonData)
        requires
            old(self).wf(),
        ensures
            final(self).wf(),
            final(self).shown@ == with_entry(old(self).shown@, key@, value@),
    {
        let ghost before = *self;
        let ghost after = with_entry(self.shown@, key@, value@);
        let ghost name = key@;
        let ghost content = value@;
        let at: usize = self.values.len();
        insert_number(&mut self.positions, key, at as u64);
        self.values.push(value);
        self.shown = Ghost(after);
        proof {
            let held = held_numbers(self.positions);
            law_entry_is_set(before.shown@, name, content);
            assert forall|i: int| 0 <= i < after.len() implies self.leads_to(
                (#[trigger] after[i]).0,
                after[i].1,
            ) by {
                if after[i].0 == name {
                    let k = choose|k: int| 0 <= k < after.len() && after[k] == (name, content);
                    assert(k == i) by {
                        if k < i {
                            assert(text::text_lt(after[k].0, after[i].0));
                        } else if i < k {
                            assert(text::text_lt(after[i].0, after[k].0));
                        }
                    }
                } else {
                    assert(after.contains(after[i]));
                    let k = choose|k: int| 0 <= k < before.shown@.len() && before.shown@[k] == after[i];
                    assert(before.leads_to(before.shown@[k].0, before.shown@[k].1));
                }
            }
            assert forall|other: Text| #[trigger] held.contains_key(other) implies exists|i: int|
                0 <= i < after.len() && (#[trigger] after[i]).0 == other by {
                if other == name {
                    let k = choose|k: int| 0 <= k < after.len() && after[k] == (name, content);
                    assert(after[k].0 == other);
                } else {
                    assert(held_numbers(before.positions).contains_key(other));
                    let k = choose|k: int|
                        0 <= k < before.shown@.len() && (#[trigger] before.shown@[k]).0 == other;
                    assert(before.shown@.contains(before.shown@[k]));
                    assert(after.contains(before.shown@[k]));
                    let j = choose|j: int| 0 <= j < after.len() && after[j] == before.shown@[k];
                    assert(after[j].0 == other);
                }
            }
            lemma_positions_distinct(before, *self, name, at as u64);
        }
    }
}

/// Positions stay apart when a new one is added behind the others.
proof fn lemma_positions_distinct(before: ObjectEntries, after: ObjectEntries, key: Text, at: u64)
    requires
        before.wf(),
        at == before.values@.len(),
        held_numbers(after.positions) == held_numbers(before.positions).insert(key, Some(at)),
    ensures
        forall|a: Text, b: Text| #[trigger]
            held_numbers(after.positions).contains_key(a) && #[trigger] held_numbers(
                after.positions,
            ).contains_key(b) && a != b ==> held_numbers(after.positions)[a] != held_numbers(
                after.positions,
            )[b],
{
    let old_held = held_numbers(before.positions);
    assert forall|a: Text| #[trigger] old_held.contains_key(a) implies old_held[a] != Some(at) by {
        let k = choose|k: int| 0 <= k < before.shown@.len() && (#[trigger] before.shown@[k]).0 == a;
        assert(before.leads_to(before.shown@[k].0, before.shown@[k].1));
    }
    let held = held_numbers(after.positions);
    assert forall|a: Text, b: Text| #[trigger]
        held.contains_key(a) && #[trigger] held.contains_key(b) && a != b implies held[a]
        != held[b] by {
        if a != key {
            assert(old_held.contains_key(a));
        }
        if b != key {
            assert(old_held.contains_key(b));
        }
    }
}

/// Two ascending lists of the same texts are equal.
proof fn lemma_ascending_unique(a: Seq<Text>, b: Seq<Text>)
    requires
        forall|i: int, j: int|
            0 <= i < j < a.len() ==> text::text_lt(#[trigger] a[i], #[trigger] a[j]),
        forall|i: int, j: int|
            0 <= i < j < b.len() ==> text::text_lt(#[trigger] b[i], #[trigger] b[j]),
        forall|t: Text| a.contains(t) <==> b.contains(t),
    ensures
        a == b,
    decreases a.len(),
{
    if a.len() == 0 {
        if b.len() > 0 {
            assert(b.contains(b[0]));
        }
        assert(a =~= b);
    } else {
        assert(a.contains(a[0]));
        assert(b.len() > 0);
        let x = a.last();
        let y = b.last();
        assert(a.contains(a[a.len() - 1]) && b.contains(b[b.len() - 1]));
        let i = choose|i: int| 0 <= i < b.len() && b[i] == x;
        let j = choose|j: int| 0 <= j < a.len() && a[j] == y;
        if x != y {
            assert(text::text_lt(b[i], b[b.len() - 1]));
            assert(text::text_lt(a[j], a[a.len() - 1]));
            text::lemma_text_le_antisymmetric(x, y);
        }
        let a1 = a.drop_last();
        let b1 = b.drop_last();
        assert forall|t: Text| a1.contains(t) <==> b1.contains(t) by {
            lemma_all_but_last(a, t);
            lemma_all_but_last(b, t);
        }
        lemma_ascending_unique(a1, b1);
        assert(a1.push(x) =~= a);
        assert(b1.push(y) =~= b);
    }
}

proof fn lemma_all_but_last(list: Seq<Text>, t: Text)
    requires
        list.len() > 0,
        forall|i: int, j: int|
            0 <= i < j < list.len() ==> text::text_lt(#[trigger] list[i], #[trigger] list[j]),
    ensures
        list.drop_last().contains(t) <==> list.contains(t) && t != list.last(),
{
    let init = list.drop_last();
    if init.contains(t) {
        let i = choose|i: int| 0 <= i < init.len() && init[i] == t;
        assert(list[i] == t);
        assert(text::text_lt(list[i], list[list.len() - 1]));
    }
    if list.contains(t) && t != list.last() {
        let i = choose|i: int| 0 <= i < list.len() && list[i] == t;
        assert(init[i] == t);
    }
}

/// What the map lists are the keys of the entries, in their order.
proof fn lemma_listed_keys(object: ObjectEntries, list: Seq<(String, Option<u64>)>)
    requires
        object.wf(),
        lists_map(list, held_numbers(object.positions)),
    ensures
        list.len() == object.shown@.len(),
        forall|i: int| 0 <= i < list.len() ==> (#[trigger] list[i]).0@ == object.shown@[i].0,
{
    let held = held_numbers(object.positions);
    let shown = object.shown@;
    let a = list.map_values(|entry: (String, Option<u64>)| entry.0@);
    let b = shown.map_values(|entry: (Text, JsonView)| entry.0);
    assert forall|i: int, j: int| 0 <= i < j < a.len() implies text::text_lt(
        #[trigger] a[i],
        #[trigger] a[j],
    ) by {
        assert(text::text_lt(list[i].0@, list[j].0@));
    }
    assert forall|i: int, j: int| 0 <= i < j < b.len() implies text::text_lt(
        #[trigger] b[i],
        #[trigger] b[j],
    ) by {
        assert(text::text_lt(shown[i].0, shown[j].0));
    }
    assert forall|t: Text| a.contains(t) <==> b.contains(t) by {
        if a.contains(t) {
            let i = choose|i: int| 0 <= i < a.len() && a[i] == t;
            assert(list[i].0@ == t);
            let k = choose|k: int| 0 <= k < shown.len() && (#[trigger] shown[k]).0 == t;
            assert(b[k] == t);
        }
        if b.contains(t) {
            let i = choose|i: int| 0 <= i < b.len() && b[i] == t;
            assert(object.leads_to(shown[i].0, shown[i].1));
            let k = choose|k: int| 0 <= k < list.len() && (#[trigger] list[k]).0@ == t;
            assert(a[k] == t);
        }
    }
    lemma_ascending_unique(a, b);
    assert forall|i: int| 0 <= i < list.len() implies (#[trigger] list[i]).0@ == shown[i].0 by {
        assert(a[i] == b[i]);
    }
}

/// The gathered entries in the order of their keys.
fn finished(object: ObjectEntries) -> (r: Vec<JsonEntry>)
    requires
        object.wf(),
    ensures
        entry_views(r@) == object.shown@,
{
    let ghost held = held_numbers(object.positions);
    let ghost shown = object.shown@;
    let list = map_entries(object.positions);
    let ghost all = list@;
    proof {
        lemma_listed_keys(object, all);
    }
    let mut values = object.values;
    let ghost first = values@;
    let mut left = reversed(list);
    let mut out: Vec<JsonEntry> = Vec::new();
    proof {
        assert forall|i: int| 0 <= i < all.len() implies (#[trigger] all[i]).1 is Some
            && all[i].1->0 < first.len() && first[all[i].1->0 as int]@ == shown[i].1 by {
            assert(object.leads_to(shown[i].0, shown[i].1));
        }
        assert forall|i: int, j: int| 0 <= i < j < all.len() implies (#[trigger] all[i]).1 != (
        #[trigger] all[j]).1 by {
            assert(held.contains_key(all[i].0@) && held.contains_key(all[j].0@));
            assert(text::text_lt(all[i].0@, all[j].0@));
        }
    }
    while left.len() > 0
        invariant
            out@.len() + left@.len() == all.len(),
            all.len() == shown.len(),
            left@ == all.reverse().take(left@.len() as int),
            values@.len() == first.len(),
            forall|i: int| 0 <= i < all.len() ==> (#[trigger] all[i]).0@ == shown[i].0,
            forall|i: int|
                0 <= i < all.len() ==> (#[trigger] all[i]).1 is Some && all[i].1->0 < first.len()
                    && first[all[i].1->0 as int]@ == shown[i].1,
            forall|i: int, j: int|
                0 <= i < j < all.len() ==> (#[trigger] all[i]).1 != (#[trigger] all[j]).1,
            forall|i: int|
                out@.len() <= i < all.len() ==> values@[(#[trigger] all[i]).1->0 as int]
                    == first[all[i].1->0 as int],
            forall|i: int|
                0 <= i < out@.len() ==> ((#[trigger] out@[i]).key@, out@[i].value@) == shown[i],
        decreases left@.len(),
    {
        let ghost n = left@.len();
        let ghost done = out@.len();
        let ghost before = left@;
        let (key, position) = left.pop().unwrap();
        proof {
            assert(before[n - 1] == all.reverse()[n - 1]);
            assert(all[done as int] == (key, position));
        }
        if let Some(at) = position {
            let ghost kept = values@;
            let mut value = JsonData::Null;
            assert(at < values.len());
            std::mem::swap(&mut value, &mut values[at as usize]);
            out.push(JsonEntry { key, value });
            assert(values@ =~= kept.update(at as int, JsonData::Null));
        }
        assert(left@ =~= all.reverse().take(n - 1));
    }
    assert(entry_views(out@) =~= shown);
    out
}

/// Adds a numbered value to sorted ones, behind those with the same number.
fn place_numbered(list: &mut Vec<Numbered>, item: Numbered)
    ensures
        numbered_views(final(list)@) == order::insert_by(
            numbered_views(old(list)@),
            (item.index, item.value@),
            by_number(),
        ),
{
    let ghost all = numbered_views(list@);
    let ghost le = by_number();
    let ghost new = (item.index, item.value@);
    let mut at: usize = list.len();
    assert(all.take(at as int) =~= all);
    assert(order::insert_by(all, new, le) =~= order::insert_by(all.take(at as int), new, le) + all.skip(
        at as int,
    ));
    while at > 0 && list[at - 1].index > item.index
        invariant
            at <= list@.len(),
            all == numbered_views(list@),
            le == by_number(),
            new == (item.index, item.value@),
            order::insert_by(all, new, le) == order::insert_by(all.take(at as int), new, le) + all.skip(
                at as int,
            ),
        decreases at,
    {
        proof {
            let head = all.take(at as int);
            assert(head.last() == all[at - 1]);
            assert(head.drop_last() =~= all.take(at - 1));
            assert(order::insert_by(all.take(at - 1), new, le).push(all[at - 1]) + all.skip(at as int)
                =~= order::insert_by(all.take(at - 1), new, le) + all.skip(at - 1));
        }
        at -= 1;
    }
    proof {
        let head = all.take(at as int);
        if at > 0 {
            assert(head.last() == all[at - 1]);
        }
        assert(order::insert_by(head, new, le) == head.push(new));
        assert(head.push(new) + all.skip(at as int) =~= all.insert(at as int, new));
        assert(numbered_views(list@.insert(at as int, item)) =~= all.insert(at as int, new));
    }
    list.insert(at, item);
}

/// Puts numbered values in order.
fn sort_numbered(list: Vec<Numbered>) -> (r: Vec<Numbered>)
    ensures
        numbered_views(r@) == order::sort_by(numbered_views(list@), by_number()),
{
    let ghost all = numbered_views(list@);
    let mut left = reversed(list);
    let mut out: Vec<Numbered> = Vec::new();
    let ghost mut done: int = 0;
    assert(numbered_views(out@) =~= Seq::empty());
    assert(all.take(0) =~= Seq::empty());
    while left.len() > 0
        invariant
            0 <= done <= all.len(),
            left@.len() == all.len() - done,
            forall|k: int|
                0 <= k < left@.len() ==> ((#[trigger] left@[k]).index, left@[k].value@)
                    == all[all.len() - 1 - k],
            numbered_views(out@) == order::sort_by(all.take(done), by_number()),
        decreases left@.len(),
    {
        let ghost k = left@.len() - 1;
        assert((left@[k].index, left@[k].value@) == all[done]);
        let item = left.pop().unwrap();
        place_numbered(&mut out, item);
        proof {
            assert(all.take(done + 1).drop_last() =~= all.take(done));
            assert(all.take(done + 1).last() == (item.index, item.value@));
            done = done + 1;
        }
    }
    assert(all.take(done) =~= all);
    out
}

/// Whether the values are numbered from 1 without gaps.
fn is_contiguous(list: &Vec<Numbered>) -> (r: bool)
    ensures
        r == contiguous(numbered_views(list@)),
{
    let ghost all = numbered_views(list@);
    let mut i: usize = 0;
    while i < list.len()
        invariant
            i <= list@.len(),
            all == numbered_views(list@),
            forall|k: int| 0 <= k < i ==> (#[trigger] all[k]).0 == k + 1,
        decreases list@.len() - i,
    {
        assert(all[i as int].0 == list@[i as int].index);
        if list[i].index != (i as u64) + 1 {
            return false;
        }
        i += 1;
    }
    true
}

/// The values without their numbers.
fn only_values(list: Vec<Numbered>) -> (r: Vec<JsonData>)
    ensures
        text::views(r@) == numbered_views(list@).map_values(|item: (u64, JsonView)| item.1),
{
    let ghost all = list@;
    let mut left = reversed(list);
    let mut out: Vec<JsonData> = Vec::new();
    while left.len() > 0
        invariant
            out@.len() + left@.len() == all.len(),
            left@ == all.reverse().take(left@.len() as int),
            forall|k: int| 0 <= k < out@.len() ==> (#[trigger] out@[k])@ == all[k].value@,
        decreases left@.len(),
    {
        let ghost n = left@.len();
        let ghost before = left@;
        let item = left.pop().unwrap();
        assert(before[n - 1] == all.reverse()[n - 1]);
        out.push(item.value);
        assert(left@ =~= all.reverse().take(n - 1));
    }
    assert(text::views(out@) =~= numbered_views(all).map_values(|item: (u64, JsonView)| item.1));
    out
}

/// Adds the numbered values to an object under their numbers.
fn add_numbered(named: ObjectEntries, list: Vec<Numbered>) -> (r: ObjectEntries)
    requires
        named.wf(),
    ensures
        r.wf(),
        r.shown@ == with_numbered(named.shown@, numbered_views(list@)),
{
    let ghost start = named.shown@;
    let ghost all = numbered_views(list@);
    let mut left = reversed(list);
    let mut out = named;
    let ghost mut done: int = 0;
    assert(all.take(0) =~= Seq::empty());
    while left.len() > 0
        invariant
            0 <= done <= all.len(),
            left@.len() == all.len() - done,
            forall|k: int|
                0 <= k < left@.len() ==> ((#[trigger] left@[k]).index, left@[k].value@)
                    == all[all.len() - 1 - k],
            out.wf(),
            out.shown@ == with_numbered(start, all.take(done)),
        decreases left@.len(),
    {
        let ghost k = left@.len() - 1;
        assert((left@[k].index, left@[k].value@) == all[done]);
        let item = left.pop().unwrap();
        out.put(decimal_text(item.index), item.value);
        proof {
            assert(all.take(done + 1).drop_last() =~= all.take(done));
            assert(all.take(done + 1).last() == all[done]);
            done = done + 1;
        }
    }
    assert(all.take(done) =~= all);
    out
}

/// The place in a list that a key names, where it names one.
fn key_index(key: &LuaKey) -> (r: Option<u64>)
    ensures
        r == index_of(key@),
{
    match key {
        LuaKey::Integer(i) => if *i > 0 {
            Some(*i as u64)
        } else {
            None
        },
        LuaKey::Number(n) => n.as_index(),
        _ => None,
    }
}

proof fn lemma_gathered_error(entries: Seq<LuaEntry>, k: int)
    requires
        0 <= k <= entries.len(),
        gathered(entries.take(k)) is Err,
    ensures
        gathered(entries) == gathered(entries.take(k)),
    decreases entries.len() - k,
{
    if k == entries.len() {
        assert(entries.take(k) =~= entries);
    } else {
        assert(entries.take(k + 1).drop_last() =~= entries.take(k));
        lemma_gathered_error(entries, k + 1);
    }
}

/// The document that a table becomes: an array where its keys count from 1, else an object.
pub fn table_to_json(entries: &Vec<LuaEntry>) -> (r: Result<JsonData, Error>)
    ensures
        error::res_view(r) == (match gathered(entries@) {
            Ok(gathered) => table_json(gathered),
            Err(message) => Err(message),
        }),
    decreases entries, 0nat,
{
    let ghost all = entries@;
    let mut numbered: Vec<Numbered> = Vec::new();
    let mut named = ObjectEntries::new();
    let mut has_names = false;
    let mut has_others = false;
    let mut i: usize = 0;
    proof {
        assert(all.take(0) =~= Seq::empty());
        assert(numbered_views(numbered@) =~= Seq::empty());
    }
    while i < entries.len()
        invariant
            i <= entries@.len(),
            all == entries@,
            named.wf(),
            gathered(all.take(i as int)) == Ok::<Gathered, Text>(
                Gathered {
                    numbered: numbered_views(numbered@),
                    named: named.shown@,
                    has_names,
                    has_others,
                },
            ),
        decreases entries@.len() - i,
    {
        let entry = &entries[i];
        proof {
            assert(all.take(i + 1).drop_last() =~= all.take(i as int));
            assert(all.take(i + 1).last() == *entry);
            assert(decreases_to!(entries => entries@[i as int].value));
        }
        match key_index(&entry.key) {
            Some(index) => {
                let value = match lua_value_to_json(&entry.value) {
                    Ok(value) => value,
                    Err(error) => {
                        proof {
                            lemma_gathered_error(all, i + 1);
                        }
                        return Err(error);
                    },
                };
                let ghost before = numbered@;
                numbered.push(Numbered { index, value });
                assert(numbered_views(numbered@) =~= numbered_views(before).push((index, value@)));
            },
            None => match &entry.key {
                LuaKey::String(key) => {
                    let value = match lua_value_to_json(&entry.value) {
                        Ok(value) => value,
                        Err(error) => {
                            proof {
                                lemma_gathered_error(all, i + 1);
                            }
                            return Err(error);
                        },
                    };
                    has_names = true;
                    named.put(key.as_str().to_owned(), value);
                },
                LuaKey::Malformed(message) => {
                    proof {
                        lemma_gathered_error(all, i + 1);
                    }
                    return Err(failure(message.as_str()));
                },
                _ => {
                    has_others = true;
                },
            },
        }
        i += 1;
    }
    assert(all.take(i as int) =~= all);
    if has_others {
        return Err(
            failure("HttpService:JSONEncode only supports string and positive integer table keys"),
        );
    }
    if !has_names {
        numbered = sort_numbered(numbered);
        if is_contiguous(&numbered) {
            let items = only_values(numbered);
            proof {
                lemma_array_view(items);
            }
            return Ok(JsonData::Array(items));
        }
    }
    let object = finished(add_numbered(named, numbered));
    proof {
        lemma_object_view(object);
    }
    Ok(JsonData::Object(object))
}

/// The document that a value becomes.
pub fn lua_value_to_json(value: &LuaData) -> (r: Result<JsonData, Error>)
    ensures
        error::res_view(r) == json_of(*value),
    decreases value, 1nat,
{
    match value {
        LuaData::Nil => Ok(JsonData::Null),
        LuaData::Boolean(b) => Ok(JsonData::Bool(*b)),
        LuaData::Integer(i) => Ok(JsonData::Integer(*i)),
        LuaData::Number(n) => if n.finite() {
            Ok(JsonData::Number(*n))
        } else {
            Err(failure("Cannot JSON encode NaN or infinity"))
        },
        LuaData::String(s) => Ok(JsonData::String(s.as_str().to_owned())),
        LuaData::Malformed(message) => Err(failure(message.as_str())),
        LuaData::Table(entries) => table_to_json(entries),
        LuaData::Other => Err(
            failure(
                "HttpService:JSONEncode only supports nil, booleans, numbers, strings, and tables",
            ),
        ),
    }
}

// ---------------------------------------------------------------------------------------------
// Documents as values of scripts
// ---------------------------------------------------------------------------------------------

/// The content of a [`LuaData`].
#[verifier::ext_equal]
pub enum DataView {
    Nil,
    Boolean(bool),
    Integer(i64),
    Number(Number),
    String(Text),
    Malformed(Text),
    Table(Seq<(KeyView, DataView)>),
    Other,
}

impl View for LuaData {
    type V = DataView;

    open spec fn view(&self) -> DataView
        decreases self,
    {
        match self {
            LuaData::Nil => DataView::Nil,
            LuaData::Boolean(b) => DataView::Boolean(*b),
            LuaData::Integer(i) => DataView::Integer(*i),
            LuaData::Number(n) => DataView::Number(*n),
            LuaData::String(s) => DataView::String(s@),
            LuaData::Malformed(e) => DataView::Malformed(e@),
            LuaData::Table(entries) => DataView::Table(
                Seq::new(
                    entries@.len(),
                    |i: int|
                        if 0 <= i < entries@.len() {
                            (entries@[i].key@, entries@[i].value.view())
                        } else {
                            arbitrary()
                        },
                ),
            ),
            LuaData::Other => DataView::Other,
        }
    }
}

/// The entries of a table by their views.
pub open spec fn table_views(list: Seq<LuaEntry>) -> Seq<(KeyView, DataView)> {
    list.map_values(|entry: LuaEntry| (entry.key@, entry.value@))
}

proof fn lemma_table_view(entries: Vec<LuaEntry>)
    ensures
        LuaData::Table(entries)@ == DataView::Table(table_views(entries@)),
{
    reveal_with_fuel(<LuaData as View>::view, 2);
    let seen = LuaData::Table(entries)@;
    assert(seen->Table_0 =~= table_views(entries@));
}

/// A table with an entry added; one without a value leaves no entry.
pub open spec fn with_value(table: Seq<(KeyView, DataView)>, key: KeyView, value: DataView) -> Seq<
    (KeyView, DataView),
> {
    if value is Nil {
        table
    } else {
        table.push((key, value))
    }
}

/// The table that the items of an array become: their keys count from 1.
pub open spec fn array_table(items: Seq<JsonView>) -> Seq<(KeyView, DataView)>
    decreases items, 0nat,
{
    if items.len() == 0 {
        Seq::empty()
    } else {
        with_value(
            array_table(items.drop_last()),
            KeyView::Integer(items.len() as i64),
            lua_of(items.last()),
        )
    }
}

/// The table that the entries of an object become.
pub open spec fn object_table(entries: Seq<(Text, JsonView)>) -> Seq<(KeyView, DataView)>
    decreases entries, 0nat,
{
    if entries.len() == 0 {
        Seq::empty()
    } else {
        with_value(
            object_table(entries.drop_last()),
            KeyView::String(entries.last().0),
            lua_of(entries.last().1),
        )
    }
}

/// The value that a document becomes. Its numbers are floating point numbers, also where they are
/// whole.
pub open spec fn lua_of(json: JsonView) -> DataView
    decreases json, 1nat,
{
    match json {
        JsonView::Null => DataView::Nil,
        JsonView::Bool(b) => DataView::Boolean(b),
        JsonView::Integer(i) => DataView::Number(math::nearest(i)),
        JsonView::Number(n) => DataView::Number(n),
        JsonView::String(s) => DataView::String(s),
        JsonView::Array(items) => DataView::Table(array_table(items)),
        JsonView::Object(entries) => DataView::Table(object_table(entries)),
    }
}

/// Adds an entry to a table, unless it has no value.
fn put_value(table: &mut Vec<LuaEntry>, key: LuaKey, value: LuaData)
    ensures
        table_views(final(table)@) == with_value(table_views(old(table)@), key@, value@),
{
    let ghost before = table@;
    let empty = match &value {
        LuaData::Nil => true,
        _ => false,
    };
    if !empty {
        let entry = LuaEntry { key, value };
        table.push(entry);
        assert(table_views(table@) =~= table_views(before).push((entry.key@, entry.value@)));
    }
}

/// The value that a document becomes: an integer in it becomes the number nearest to it.
pub fn json_to_lua(json: &JsonData) -> (r: LuaData)
    ensures
        r@ == lua_of(json@),
    decreases json,
{
    match json {
        JsonData::Null => LuaData::Nil,
        JsonData::Bool(b) => LuaData::Boolean(*b),
        JsonData::Integer(i) => LuaData::Number(Number::nearest_to(*i)),
        JsonData::Number(n) => LuaData::Number(*n),
        JsonData::String(s) => LuaData::String(s.as_str().to_owned()),
        JsonData::Array(items) => {
            let ghost all = text::views(items@);
            proof {
                lemma_array_view(*items);
            }
            let mut table: Vec<LuaEntry> = Vec::new();
            let mut i: usize = 0;
            assert(table_views(table@) =~= array_table(all.take(0)));
            while i < items.len()
                invariant
                    i <= items@.len(),
                    all == text::views(items@),
                    *json == JsonData::Array(*items),
                    table_views(table@) == array_table(all.take(i as int)),
                decreases items@.len() - i,
            {
                proof {
                    assert(all.take(i + 1).drop_last() =~= all.take(i as int));
                    assert(all.take(i + 1).last() == items@[i as int]@);
                    assert(decreases_to!(json => json->Array_0@[i as int]));
                }
                let value = json_to_lua(&items[i]);
                put_value(&mut table, LuaKey::Integer((i + 1) as i64), value);
                i += 1;
            }
            assert(all.take(i as int) =~= all);
            proof {
                lemma_table_view(table);
            }
            LuaData::Table(table)
        },
        JsonData::Object(entries) => {
            let ghost all = entry_views(entries@);
            proof {
                lemma_object_view(*entries);
            }
            let mut table: Vec<LuaEntry> = Vec::new();
            let mut i: usize = 0;
            assert(table_views(table@) =~= object_table(all.take(0)));
            while i < entries.len()
                invariant
                    i <= entries@.len(),
                    all == entry_views(entries@),
                    *json == JsonData::Object(*entries),
                    table_views(table@) == object_table(all.take(i as int)),
                decreases entries@.len() - i,
            {
                proof {
                    assert(all.take(i + 1).drop_last() =~= all.take(i as int));
                    assert(all.take(i + 1).last() == (
                        entries@[i as int].key@,
                        entries@[i as int].value@,
                    ));
                    assert(decreases_to!(json => json->Object_0@[i as int].value));
                }
                let value = json_to_lua(&entries[i].value);
                put_value(&mut table, LuaKey::String(entries[i].key.as_str().to_owned()), value);
                i += 1;
            }
            assert(all.take(i as int) =~= all);
            proof {
                lemma_table_view(table);
            }
            LuaData::Table(table)
        },
    }
}

// ---------------------------------------------------------------------------------------------
// Reading documents
// ---------------------------------------------------------------------------------------------

/// The JSON values of `serde_json`.
#[verifier::external_type_specification]
#[verifier::external_body]
pub struct ExJsonValue(serde_json::Value);

/// The document that a JSON value of `serde_json` holds. Its numbers are the floating point numbers
/// that `serde_json::Number::as_f64` gives, and its objects list their entries in the order in which
/// `serde_json::Map` hands them out.
pub uninterp spec fn held_document(value: serde_json::Value) -> JsonView;

/// The document that a text is, or what is wrong with the text.
pub uninterp spec fn parsed_json(s: Seq<char>) -> Result<JsonView, Seq<char>>;

/// What came of parsing a text, by its views.
pub open spec fn parse_view(r: Result<serde_json::Value, String>) -> Result<JsonView, Text> {
    match r {
        Ok(value) => Ok(held_document(value)),
        Err(message) => Err(message@),
    }
}

/// Calls `serde_json::from_str` for a `serde_json::Value`. The result depends on the text alone; an
/// error is given as the text that it displays.
#[verifier::external_body]
fn parse_json(s: &str) -> (r: Result<serde_json::Value, String>)
    ensures
        parse_view(r) == parsed_json(s@),
{
    serde_json::from_str::<serde_json::Value>(s).map_err(|error| error.to_string())
}

/// A JSON value of `serde_json` taken apart: what it is, and the values right below it.
enum JsonPart {
    Null,
    Bool(bool),
    Number(Number),
    String(String),
    Array(Vec<serde_json::Value>),
    Object(Vec<(String, serde_json::Value)>),
}

/// The documents that values hold.
spec fn held_items(list: Seq<serde_json::Value>) -> Seq<JsonView> {
    list.map_values(|value: serde_json::Value| held_document(value))
}

/// The entries that keys and values hold.
spec fn held_entries(list: Seq<(String, serde_json::Value)>) -> Seq<(Text, JsonView)> {
    list.map_values(|entry: (String, serde_json::Value)| (entry.0@, held_document(entry.1)))
}

/// The document that a value taken apart holds.
spec fn part_view(part: Option<JsonPart>) -> Option<JsonView> {
    match part {
        None => None,
        Some(JsonPart::Null) => Some(JsonView::Null),
        Some(JsonPart::Bool(b)) => Some(JsonView::Bool(b)),
        Some(JsonPart::Number(n)) => Some(JsonView::Number(n)),
        Some(JsonPart::String(s)) => Some(JsonView::String(s@)),
        Some(JsonPart::Array(items)) => Some(JsonView::Array(held_items(items@))),
        Some(JsonPart::Object(entries)) => Some(JsonView::Object(held_entries(entries@))),
    }
}

/// Tells the variants of `serde_json::Value` apart and hands out their fields. A number goes through
/// `serde_json::Number::as_f64`, which gives a result for every number, as the feature
/// `arbitrary_precision` is off.
#[verifier::external_body]
fn take_apart(value: serde_json::Value) -> (r: Option<JsonPart>)
    ensures
        part_view(r) == Some(held_document(value)),
{
    Some(match value {
        serde_json::Value::Null => JsonPart::Null,
        serde_json::Value::Bool(b) => JsonPart::Bool(b),
        serde_json::Value::Number(n) => JsonPart::Number(Number { bits: n.as_f64()?.to_bits() }),
        serde_json::Value::String(s) => JsonPart::String(s),
        serde_json::Value::Array(items) => JsonPart::Array(items),
        serde_json::Value::Object(entries) => JsonPart::Object(entries.into_iter().collect()),
    })
}

/// The document that a JSON value of `serde_json` holds.
fn document_of(value: serde_json::Value) -> (r: Result<JsonData, Error>)
    ensures
        r matches Ok(json) && json@ == held_document(value),
    decreases held_document(value),
{
    let ghost held = held_document(value);
    match take_apart(value) {
        None => Err(failure("Could not decode JSON number")),
        Some(JsonPart::Null) => Ok(JsonData::Null),
        Some(JsonPart::Bool(b)) => Ok(JsonData::Bool(b)),
        Some(JsonPart::Number(n)) => Ok(JsonData::Number(n)),
        Some(JsonPart::String(s)) => Ok(JsonData::String(s)),
        Some(JsonPart::Array(items)) => {
            let ghost all = items@;
            let mut left = reversed(items);
            let mut out: Vec<JsonData> = Vec::new();
            while left.len() > 0
                invariant
                    held == held_document(value),
                    held == JsonView::Array(held_items(all)),
                    out@.len() + left@.len() == all.len(),
                    left@ == all.reverse().take(left@.len() as int),
                    forall|k: int|
                        0 <= k < out@.len() ==> (#[trigger] out@[k])@ == held_document(all[k]),
                decreases left@.len(),
            {
                let ghost n = left@.len();
                let ghost before = left@;
                let item = left.pop().unwrap();
                proof {
                    assert(before[n - 1] == all.reverse()[n - 1]);
                    assert(held_items(all)[all.len() - n] == held_document(item));
                    assert(decreases_to!(held => held->Array_0[all.len() - n]));
                }
                out.push(document_of(item)?);
                assert(left@ =~= all.reverse().take(n - 1));
            }
            proof {
                lemma_array_view(out);
                assert(text::views(out@) =~= held_items(all));
            }
            Ok(JsonData::Array(out))
        },
        Some(JsonPart::Object(entries)) => {
            let ghost all = entries@;
            let mut left = reversed(entries);
            let mut out: Vec<JsonEntry> = Vec::new();
            while left.len() > 0
                invariant
                    held == held_document(value),
                    held == JsonView::Object(held_entries(all)),
                    out@.len() + left@.len() == all.len(),
                    left@ == all.reverse().take(left@.len() as int),
                    forall|k: int|
                        0 <= k < out@.len() ==> ((#[trigger] out@[k]).key@, out@[k].value@)
                            == held_entries(all)[k],
                decreases left@.len(),
            {
                let ghost n = left@.len();
                let ghost before = left@;
                let (key, item) = left.pop().unwrap();
                proof {
                    assert(before[n - 1] == all.reverse()[n - 1]);
                    assert(held_entries(all)[all.len() - n] == (key@, held_document(item)));
                    assert(decreases_to!(held => held->Object_0[all.len() - n].1));
                }
                let value = document_of(item)?;
                out.push(JsonEntry { key, value });
                assert(left@ =~= all.reverse().take(n - 1));
            }
            proof {
                lemma_object_view(out);
                assert(entry_views(out@) =~= held_entries(all));
            }
            Ok(JsonData::Object(out))
        },
    }
}

/// The value that a text becomes once it is parsed, or the message of the error where it is none.
pub open spec fn decoded(parsed: Result<JsonView, Text>) -> Result<DataView, Text> {
    match parsed {
        Ok(json) => Ok(lua_of(json)),
        Err(message) => Err("HttpService:JSONDecode failed: "@ + message),
    }
}

/// The value that a parsed text becomes.
pub fn decode_parsed(parsed: Result<JsonData, String>) -> (r: Result<LuaData, Error>)
    ensures
        error::res_view(r) == decoded(
            match parsed {
                Ok(json) => Ok(json@),
                Err(message) => Err(message@),
            },
        ),
{
    match parsed {
        Ok(json) => Ok(json_to_lua(&json)),
        Err(message) => Err(
            failure(concat2("HttpService:JSONDecode failed: ", message.as_str()).as_str()),
        ),
    }
}

/// The value that a JSON text becomes.
pub fn json_decode(s: &str) -> (r: Result<LuaData, Error>)
    ensures
        error::res_view(r) == decoded(parsed_json(s@)),
{
    match parse_json(s) {
        Ok(value) => decode_parsed(Ok(document_of(value)?)),
        Err(message) => decode_parsed(Err(message)),
    }
}

// ---------------------------------------------------------------------------------------------
// Laws
// ---------------------------------------------------------------------------------------------

/// Whether the keys of an object ascend, so that none stands twice.
pub open spec fn ascending(entries: Seq<(Text, JsonView)>) -> bool {
    forall|i: int, j: int|
        0 <= i < j < entries.len() ==> text::text_lt(
            (#[trigger] entries[i]).0,
            (#[trigger] entries[j]).0,
        )
}

proof fn lemma_lt_transitive(a: Text, b: Text, c: Text)
    requires
        text::text_lt(a, b),
        text::text_le(b, c),
    ensures
        text::text_lt(a, c),
{
    text::lemma_text_le_transitive(a, b, c);
    if a == c {
        text::lemma_text_le_antisymmetric(a, b);
    }
}

proof fn lemma_entry_slot(entries: Seq<(Text, JsonView)>, key: Text)
    requires
        ascending(entries),
    ensures
        entry_slot(entries, key) <= entries.len(),
        forall|i: int|
            0 <= i < entry_slot(entries, key) ==> text::text_lt((#[trigger] entries[i]).0, key),
        forall|i: int|
            entry_slot(entries, key) <= i < entries.len() ==> text::text_le(
                key,
                (#[trigger] entries[i]).0,
            ),
    decreases entries.len(),
{
    if entries.len() > 0 {
        let init = entries.drop_last();
        if text::text_lt(entries.last().0, key) {
            assert forall|i: int| 0 <= i < entries.len() implies text::text_lt(
                (#[trigger] entries[i]).0,
                key,
            ) by {
                if i < entries.len() - 1 {
                    assert(text::text_lt(entries[i].0, entries[entries.len() - 1].0));
                    lemma_lt_transitive(entries[i].0, entries.last().0, key);
                }
            }
        } else {
            assert(ascending(init)) by {
                assert forall|i: int, j: int| 0 <= i < j < init.len() implies text::text_lt(
                    (#[trigger] init[i]).0,
                    (#[trigger] init[j]).0,
                ) by {
                    assert(text::text_lt(entries[i].0, entries[j].0));
                }
            }
            lemma_entry_slot(init, key);
            assert forall|i: int| 0 <= i < entry_slot(entries, key) implies text::text_lt(
                (#[trigger] entries[i]).0,
                key,
            ) by {
                assert(init[i] == entries[i]);
            }
            assert forall|i: int| entry_slot(entries, key) <= i < entries.len() implies text::text_le(
                key,
                (#[trigger] entries[i]).0,
            ) by {
                if i < init.len() {
                    assert(init[i] == entries[i]);
                } else {
                    text::lemma_text_le_total(key, entries.last().0);
                    text::lemma_text_le_reflexive(key);
                }
            }
        }
    }
}

/// Setting an entry of an object keeps its keys ascending, puts the value under its key and leaves
/// every other entry as it was.
pub proof fn law_entry_is_set(entries: Seq<(Text, JsonView)>, key: Text, value: JsonView)
    requires
        ascending(entries),
    ensures
        ascending(with_entry(entries, key, value)),
        with_entry(entries, key, value).contains((key, value)),
        forall|other: (Text, JsonView)|
            other.0 != key ==> (#[trigger] with_entry(entries, key, value).contains(other)
                == entries.contains(other)),
{
    let at = entry_slot(entries, key) as int;
    let after = with_entry(entries, key, value);
    lemma_entry_slot(entries, key);
    let present = at < entries.len() && entries[at].0 == key;
    assert(after[at] == (key, value));
    assert forall|i: int, j: int| 0 <= i < j < after.len() implies text::text_lt(
        (#[trigger] after[i]).0,
        (#[trigger] after[j]).0,
    ) by {
        if present {
            assert(text::text_lt(entries[i].0, entries[j].0));
        } else {
            if j < at {
                assert(text::text_lt(entries[i].0, entries[j].0));
            } else if j == at {
                assert(text::text_lt(entries[i].0, key));
            } else if i < at {
                assert(text::text_lt(entries[i].0, entries[j - 1].0));
            } else if i == at {
                assert(text::text_le(key, entries[j - 1].0));
                if entries[j - 1].0 == key {
                    if j - 1 > at {
                        assert(text::text_lt(entries[at].0, entries[j - 1].0));
                        assert(text::text_le(key, entries[at].0));
                        text::lemma_text_le_antisymmetric(key, entries[at].0);
                    }
                }
            } else {
                assert(text::text_lt(entries[i - 1].0, entries[j - 1].0));
            }
        }
    }
    assert forall|other: (Text, JsonView)| other.0 != key implies (#[trigger] after.contains(other)
        == entries.contains(other)) by {
        if after.contains(other) {
            let i = choose|i: int| 0 <= i < after.len() && after[i] == other;
            if present || i < at {
                assert(entries[i] == other);
            } else {
                assert(entries[i - 1] == other);
            }
        }
        if entries.contains(other) {
            let i = choose|i: int| 0 <= i < entries.len() && entries[i] == other;
            if present || i < at {
                assert(after[i] == other);
            } else {
                assert(after[i + 1] == other);
            }
        }
    }
}

proof fn lemma_gathered_ascends(entries: Seq<LuaEntry>)
    ensures
        gathered(entries) matches Ok(found) ==> ascending(found.named),
    decreases entries.len(),
{
    if entries.len() > 0 {
        lemma_gathered_ascends(entries.drop_last());
        if let Ok(so_far) = gathered(entries.drop_last()) {
            let entry = entries.last();
            if let KeyView::String(key) = entry.key@ {
                if let Ok(value) = json_of(entry.value) {
                    law_entry_is_set(so_far.named, key, value);
                }
            }
        }
    }
}

proof fn lemma_numbered_ascends(named: Seq<(Text, JsonView)>, numbered: Seq<(u64, JsonView)>)
    requires
        ascending(named),
    ensures
        ascending(with_numbered(named, numbered)),
    decreases numbered.len(),
{
    if numbered.len() > 0 {
        lemma_numbered_ascends(named, numbered.drop_last());
        law_entry_is_set(
            with_numbered(named, numbered.drop_last()),
            text::decimal(numbered.last().0 as nat),
            numbered.last().1,
        );
    }
}

/// The keys of every object that a table becomes ascend.
pub proof fn law_object_keys_ascend(entries: Vec<LuaEntry>)
    ensures
        json_of(LuaData::Table(entries)) matches Ok(JsonView::Object(found)) ==> ascending(found),
{
    lemma_gathered_ascends(entries@);
    if let Ok(found) = gathered(entries@) {
        lemma_numbered_ascends(found.named, found.numbered);
        lemma_numbered_ascends(found.named, order::sort_by(found.numbered, by_number()));
    }
}

/// Whether a table lists values under the keys from 1 on, in that order.
pub open spec fn is_list(table: Seq<(KeyView, DataView)>) -> bool {
    &&& table.len() <= i64::MAX
    &&& forall|i: int|
        0 <= i < table.len() ==> (#[trigger] table[i]).0 == KeyView::Integer((i + 1) as i64)
}

/// Whether a table has texts for keys, in their order, and is not empty.
pub open spec fn is_record(table: Seq<(KeyView, DataView)>) -> bool {
    &&& table.len() > 0
    &&& forall|i: int| 0 <= i < table.len() ==> (#[trigger] table[i]).0 is String
    &&& forall|i: int, j: int|
        0 <= i < j < table.len() ==> text::text_lt(
            (#[trigger] table[i]).0->String_0,
            (#[trigger] table[j]).0->String_0,
        )
}

/// Whether JSON can say all that there is in a value: numbers are finite, and tables are lists or
/// records of such values.
pub open spec fn expressible(value: DataView) -> bool
    decreases value,
{
    match value {
        DataView::Number(n) => math::is_finite(n),
        DataView::Malformed(_) => false,
        DataView::Other => false,
        DataView::Table(table) => {
            &&& is_list(table) || is_record(table)
            &&& forall|i: int|
                0 <= i < table.len() ==> !((#[trigger] table[i]).1 is Nil) && expressible(
                    table[i].1,
                )
        },
        _ => true,
    }
}

/// A value as it is read back: each integer in it has become the number nearest to it.
pub open spec fn as_read(value: DataView) -> DataView
    decreases value,
{
    match value {
        DataView::Integer(i) => DataView::Number(math::nearest(i)),
        DataView::Table(table) => DataView::Table(
            Seq::new(
                table.len(),
                |i: int|
                    if 0 <= i < table.len() {
                        (table[i].0, as_read(table[i].1))
                    } else {
                        arbitrary()
                    },
            ),
        ),
        _ => value,
    }
}

proof fn lemma_list_gathered(entries: Seq<LuaEntry>, n: int)
    requires
        0 <= n <= entries.len(),
        is_list(table_views(entries)),
        forall|i: int|
            0 <= i < n ==> json_of((#[trigger] entries[i]).value) is Ok && lua_of(
                json_of(entries[i].value)->Ok_0,
            ) == as_read(entries[i].value@) && !(entries[i].value@ is Nil),
    ensures
        gathered(entries.take(n)) matches Ok(found) && found.named.len() == 0 && !found.has_names
            && !found.has_others && found.numbered.len() == n && (forall|i: int|
            0 <= i < n ==> (#[trigger] found.numbered[i]) == (
                (i + 1) as u64,
                json_of(entries[i].value)->Ok_0,
            )),
    decreases n,
{
    if n > 0 {
        lemma_list_gathered(entries, n - 1);
        let head = entries.take(n);
        assert(head.drop_last() =~= entries.take(n - 1));
        assert(head.last() == entries[n - 1]);
        assert(table_views(entries)[n - 1].0 == KeyView::Integer(n as i64));
        assert(json_of(entries[n - 1].value) is Ok);
    } else {
        assert(entries.take(0) =~= Seq::empty());
    }
}

proof fn lemma_record_gathered(entries: Seq<LuaEntry>, n: int)
    requires
        0 <= n <= entries.len(),
        is_record(table_views(entries)),
        forall|i: int|
            0 <= i < n ==> json_of((#[trigger] entries[i]).value) is Ok && lua_of(
                json_of(entries[i].value)->Ok_0,
            ) == as_read(entries[i].value@) && !(entries[i].value@ is Nil),
    ensures
        gathered(entries.take(n)) matches Ok(found) && found.numbered.len() == 0
            && found.has_names == (n > 0) && !found.has_others && found.named.len() == n && (forall|
            i: int,
        |
            0 <= i < n ==> (#[trigger] found.named[i]) == (
                entries[i].key@->String_0,
                json_of(entries[i].value)->Ok_0,
            )),
    decreases n,
{
    if n > 0 {
        lemma_record_gathered(entries, n - 1);
        let head = entries.take(n);
        let views = table_views(entries);
        assert(head.drop_last() =~= entries.take(n - 1));
        assert(head.last() == entries[n - 1]);
        assert(views[n - 1].0 is String);
        assert(json_of(entries[n - 1].value) is Ok);
        let so_far = gathered(entries.take(n - 1))->Ok_0;
        let key = entries[n - 1].key@->String_0;
        if n > 1 {
            assert(text::text_lt(views[n - 2].0->String_0, views[n - 1].0->String_0));
            assert(so_far.named[n - 2].0 == entries[n - 2].key@->String_0);
            assert(so_far.named.last().0 == so_far.named[n - 2].0);
        }
        assert(entry_slot(so_far.named, key) == n - 1);
    } else {
        assert(entries.take(0) =~= Seq::empty());
    }
}

/// The entries of a table as they are read back.
pub open spec fn read_entries(table: Seq<(KeyView, DataView)>) -> Seq<(KeyView, DataView)> {
    table.map_values(|entry: (KeyView, DataView)| (entry.0, as_read(entry.1)))
}

proof fn lemma_as_read_kind(value: DataView)
    ensures
        as_read(value) is Nil <==> value is Nil,
{
}

proof fn lemma_as_read_table(table: Seq<(KeyView, DataView)>)
    ensures
        as_read(DataView::Table(table)) == DataView::Table(read_entries(table)),
{
    let read = as_read(DataView::Table(table));
    assert(read->Table_0 =~= read_entries(table));
}

proof fn lemma_array_reads(entries: Seq<LuaEntry>, items: Seq<JsonView>, n: int)
    requires
        0 <= n <= items.len(),
        items.len() == entries.len(),
        is_list(table_views(entries)),
        forall|i: int|
            0 <= i < items.len() ==> lua_of(#[trigger] items[i]) == as_read(entries[i].value@) && !(
            entries[i].value@ is Nil),
    ensures
        array_table(items.take(n)) == read_entries(table_views(entries)).take(n),
    decreases n,
{
    if n > 0 {
        lemma_array_reads(entries, items, n - 1);
        assert(items.take(n).drop_last() =~= items.take(n - 1));
        assert(items.take(n).last() == items[n - 1]);
        assert(table_views(entries)[n - 1].0 == KeyView::Integer(n as i64));
        lemma_as_read_kind(entries[n - 1].value@);
        let read = read_entries(table_views(entries));
        assert(read.take(n) =~= read.take(n - 1).push(read[n - 1]));
    } else {
        assert(array_table(items.take(0)) =~= read_entries(table_views(entries)).take(0));
    }
}

proof fn lemma_object_reads(entries: Seq<LuaEntry>, named: Seq<(Text, JsonView)>, n: int)
    requires
        0 <= n <= named.len(),
        named.len() == entries.len(),
        is_record(table_views(entries)),
        forall|i: int|
            0 <= i < named.len() ==> (#[trigger] named[i]).0 == entries[i].key@->String_0 && lua_of(
                named[i].1,
            ) == as_read(entries[i].value@) && !(entries[i].value@ is Nil),
    ensures
        object_table(named.take(n)) == read_entries(table_views(entries)).take(n),
    decreases n,
{
    if n > 0 {
        lemma_object_reads(entries, named, n - 1);
        assert(named.take(n).drop_last() =~= named.take(n - 1));
        assert(named.take(n).last() == named[n - 1]);
        assert(table_views(entries)[n - 1].0 is String);
        lemma_as_read_kind(entries[n - 1].value@);
        let read = read_entries(table_views(entries));
        assert(read.take(n) =~= read.take(n - 1).push(read[n - 1]));
    } else {
        assert(object_table(named.take(0)) =~= read_entries(table_views(entries)).take(0));
    }
}

/// A value that JSON can express comes back: its document exists, and the document becomes the value
/// again, with each integer as the number nearest to it.
pub proof fn law_json_reads_back(value: LuaData)
    requires
        expressible(value@),
    ensures
        json_of(value) matches Ok(json) && lua_of(json) == as_read(value@),
    decreases value,
{
    if let LuaData::Table(table) = value {
        let entries = table@;
        let views = table_views(entries);
        lemma_table_view(table);
        lemma_as_read_table(views);
        assert forall|i: int| 0 <= i < entries.len() implies json_of(
            (#[trigger] entries[i]).value,
        ) is Ok && lua_of(json_of(entries[i].value)->Ok_0) == as_read(entries[i].value@) && !(
        entries[i].value@ is Nil) by {
            assert(views[i] == (entries[i].key@, entries[i].value@));
            assert(decreases_to!(value => entries[i].value));
            law_json_reads_back(entries[i].value);
        }
        assert(entries.take(entries.len() as int) =~= entries);
        let n = entries.len() as int;
        assert(read_entries(views).take(n) =~= read_entries(views));
        if is_list(views) {
            lemma_list_gathered(entries, n);
            let found = gathered(entries)->Ok_0;
            let le = by_number();
            assert forall|i: int, j: int| 0 <= i < j < found.numbered.len() implies le(
                #[trigger] found.numbered[i],
                #[trigger] found.numbered[j],
            ) by {}
            order::lemma_sorted_stays(found.numbered, le);
            let items = found.numbered.map_values(|item: (u64, JsonView)| item.1);
            assert(items.take(n) =~= items);
            assert forall|i: int| 0 <= i < items.len() implies lua_of(#[trigger] items[i])
                == as_read(entries[i].value@) && !(entries[i].value@ is Nil) by {
                assert(items[i] == found.numbered[i].1);
            }
            lemma_array_reads(entries, items, n);
            assert(json_of(value) == Ok::<JsonView, Text>(JsonView::Array(items)));
        } else {
            lemma_record_gathered(entries, n);
            let found = gathered(entries)->Ok_0;
            assert(found.named.take(n) =~= found.named);
            assert(with_numbered(found.named, found.numbered) == found.named);
            lemma_object_reads(entries, found.named, n);
            assert(json_of(value) == Ok::<JsonView, Text>(JsonView::Object(found.named)));
        }
    }
}

/// The items of an array become the entries of a table under their numbers, counted from 1; only items
/// without a value leave no entry.
pub proof fn law_arrays_become_tables(items: Seq<JsonView>)
    requires
        items.len() <= i64::MAX,
    ensures
        forall|k: int|
            0 <= k < items.len() && !(lua_of(#[trigger] items[k]) is Nil) ==> array_table(items).contains(
                (KeyView::Integer((k + 1) as i64), lua_of(items[k])),
            ),
        forall|j: int|
            0 <= j < array_table(items).len() ==> {
                let entry = #[trigger] array_table(items)[j];
                entry.0 matches KeyView::Integer(n) && 1 <= n <= items.len() && entry.1 == lua_of(
                    items[n - 1],
                ) && !(entry.1 is Nil)
            },
    decreases items.len(),
{
    if items.len() > 0 {
        let init = items.drop_last();
        let n = items.len() - 1;
        law_arrays_become_tables(init);
        let before = array_table(init);
        let all = array_table(items);
        assert(items[n] == items.last());
        assert forall|k: int| 0 <= k < items.len() && !(lua_of(#[trigger] items[k]) is Nil) implies all.contains(
            (KeyView::Integer((k + 1) as i64), lua_of(items[k])),
        ) by {
            if k < n {
                assert(init[k] == items[k]);
                let entry = (KeyView::Integer((k + 1) as i64), lua_of(items[k]));
                let j = choose|j: int| 0 <= j < before.len() && before[j] == entry;
                assert(all[j] == entry);
            } else {
                assert(all.last() == (KeyView::Integer((k + 1) as i64), lua_of(items[k])));
                assert(all[all.len() - 1] == all.last());
            }
        }
        assert forall|j: int| 0 <= j < all.len() implies {
            let entry = #[trigger] all[j];
            entry.0 matches KeyView::Integer(m) && 1 <= m <= items.len() && entry.1 == lua_of(items[m - 1])
                && !(entry.1 is Nil)
        } by {
            if j < before.len() {
                assert(all[j] == before[j]);
                let m = before[j].0->Integer_0;
                assert(init[m - 1] == items[m - 1]);
            }
        }
    }
}

/// The entries of an object become the entries of a table under their keys; only entries without a
/// value leave none.
pub proof fn law_objects_become_tables(entries: Seq<(Text, JsonView)>)
    ensures
        forall|k: int|
            0 <= k < entries.len() && !(lua_of((#[trigger] entries[k]).1) is Nil) ==> object_table(
                entries,
            ).contains((KeyView::String(entries[k].0), lua_of(entries[k].1))),
        forall|j: int|
            0 <= j < object_table(entries).len() ==> comes_from(
                entries,
                #[trigger] object_table(entries)[j],
            ),
    decreases entries.len(),
{
    if entries.len() > 0 {
        let init = entries.drop_last();
        let n = entries.len() - 1;
        law_objects_become_tables(init);
        let before = object_table(init);
        let all = object_table(entries);
        assert(entries[n] == entries.last());
        assert forall|k: int|
            0 <= k < entries.len() && !(lua_of((#[trigger] entries[k]).1) is Nil) implies all.contains(
            (KeyView::String(entries[k].0), lua_of(entries[k].1)),
        ) by {
            let entry = (KeyView::String(entries[k].0), lua_of(entries[k].1));
            if k < n {
                assert(init[k] == entries[k]);
                let j = choose|j: int| 0 <= j < before.len() && before[j] == entry;
                assert(all[j] == entry);
            } else {
                assert(all[all.len() - 1] == entry);
            }
        }
        assert forall|j: int| 0 <= j < all.len() implies comes_from(entries, #[trigger] all[j]) by {
            if j < before.len() {
                assert(all[j] == before[j]);
                let k = choose|k: int|
                    0 <= k < init.len() && before[j] == (
                        KeyView::String((#[trigger] init[k]).0),
                        lua_of(init[k].1),
                    );
                assert(entries[k] == init[k]);
            } else {
                assert(all[j] == (KeyView::String(entries[n].0), lua_of(entries[n].1)));
            }
        }
    }
}

/// Whether an entry of a table is one of an object.
pub open spec fn comes_from(entries: Seq<(Text, JsonView)>, entry: (KeyView, DataView)) -> bool {
    !(entry.1 is Nil) && exists|k: int|
        0 <= k < entries.len() && entry == (
            KeyView::String((#[trigger] entries[k]).0),
            lua_of(entries[k].1),
        )
}

/// Whether a value has a document on its own account: a number has to be finite, and a text has to be
/// one.
pub open spec fn plain_enough(value: LuaData) -> bool {
    match value {
        LuaData::Number(n) => math::is_finite(n),
        LuaData::Malformed(_) => false,
        LuaData::Other => false,
        _ => true,
    }
}

/// Whether JSON has such keys: texts and numbers from 1 on.
pub open spec fn plain_key(key: KeyView) -> bool {
    match key {
        KeyView::Integer(i) => i >= 1,
        KeyView::Number(n) => math::whole_value(n) is Some,
        KeyView::String(_) => true,
        _ => false,
    }
}

/// A value has a document exactly where it is one that JSON knows, and a table where this holds of each
/// value in it and JSON has all its keys.
pub proof fn law_what_has_a_document(value: LuaData)
    ensures
        json_of(value) is Ok <==> plain_enough(value) && (value matches LuaData::Table(entries)
            ==> forall|k: int|
            0 <= k < entries@.len() ==> plain_key((#[trigger] entries@[k]).key@) && json_of(
                entries@[k].value,
            ) is Ok),
{
    if let LuaData::Table(entries) = value {
        lemma_gathered_ok(entries@);
    }
}

spec fn spoils(entry: LuaEntry) -> bool {
    entry.key@ is Malformed || (plain_key(entry.key@) && json_of(entry.value) is Err)
}

proof fn lemma_gathered_ok(entries: Seq<LuaEntry>)
    ensures
        match gathered(entries) {
            Ok(found) => {
                &&& forall|k: int| 0 <= k < entries.len() ==> !spoils(#[trigger] entries[k])
                &&& found.has_others <==> exists|k: int|
                    0 <= k < entries.len() && !plain_key((#[trigger] entries[k]).key@)
            },
            Err(_) => exists|k: int| 0 <= k < entries.len() && spoils(#[trigger] entries[k]),
        },
    decreases entries.len(),
{
    if entries.len() > 0 {
        let init = entries.drop_last();
        let n = entries.len() - 1;
        lemma_gathered_ok(init);
        assert(entries[n] == entries.last());
        assert(forall|k: int| 0 <= k < n ==> #[trigger] init[k] == entries[k]);
        assert(forall|k: int| 0 <= k < n ==> init[k] == #[trigger] entries[k]);
        match gathered(init) {
            Err(_) => {
                let k = choose|k: int| 0 <= k < init.len() && spoils(#[trigger] init[k]);
                assert(spoils(entries[k]));
            },
            Ok(so_far) => {
                if so_far.has_others {
                    let k = choose|k: int| 0 <= k < init.len() && !plain_key((#[trigger] init[k]).key@);
                    assert(!plain_key(entries[k].key@));
                }
            },
        }
    }
}

/// In an object, values with numbers stand under the decimal notation of their numbers.
pub proof fn law_numbers_become_keys(
    named: Seq<(Text, JsonView)>,
    numbered: Seq<(u64, JsonView)>,
    k: int,
)
    requires
        ascending(named),
        0 <= k < numbered.len(),
        forall|i: int, j: int|
            0 <= i < j < numbered.len() ==> (#[trigger] numbered[i]).0 != (#[trigger] numbered[j]).0,
    ensures
        ascending(with_numbered(named, numbered)),
        exists|key: Text|
            text::number_of(key) == numbered[k].0 && #[trigger] with_numbered(named, numbered).contains(
                (key, numbered[k].1),
            ),
{
    lemma_numbered_keys(named, numbered, k);
    text::law_decimal(numbered[k].0 as nat);
    let key = text::decimal(numbered[k].0 as nat);
    assert(with_numbered(named, numbered).contains((key, numbered[k].1)));
}

proof fn lemma_numbered_keys(
    named: Seq<(Text, JsonView)>,
    numbered: Seq<(u64, JsonView)>,
    k: int,
)
    requires
        ascending(named),
        0 <= k < numbered.len(),
        forall|i: int, j: int|
            0 <= i < j < numbered.len() ==> (#[trigger] numbered[i]).0 != (#[trigger] numbered[j]).0,
    ensures
        ascending(with_numbered(named, numbered)),
        with_numbered(named, numbered).contains(
            (text::decimal(numbered[k].0 as nat), numbered[k].1),
        ),
    decreases numbered.len(),
{
    let init = numbered.drop_last();
    let last = numbered.last();
    let n = numbered.len() - 1;
    assert(numbered[n] == last);
    let before = with_numbered(named, init);
    if init.len() > 0 {
        assert forall|i: int, j: int| 0 <= i < j < init.len() implies (#[trigger] init[i]).0 != (
        #[trigger] init[j]).0 by {
            assert(numbered[i].0 != numbered[j].0);
        }
        lemma_numbered_keys(named, init, if k < n {
            k
        } else {
            0
        });
    } else {
        assert(before == named);
    }
    law_entry_is_set(before, text::decimal(last.0 as nat), last.1);
    if k < n {
        assert(init[k] == numbered[k]);
        assert(numbered[k].0 != numbered[n].0);
        if text::decimal(numbered[k].0 as nat) == text::decimal(last.0 as nat) {
            text::lemma_decimal_injective(numbered[k].0 as nat, last.0 as nat);
        }
        let other = (text::decimal(numbered[k].0 as nat), numbered[k].1);
        assert(before.contains(other));
        assert(with_entry(before, text::decimal(last.0 as nat), last.1).contains(other));
    }
}

} // verus!
