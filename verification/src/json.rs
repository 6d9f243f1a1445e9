//! JSON values.
//!
//! `Json` holds a JSON document as plain data. Text is turned into it through
//! `serde_json`; what a text denotes is named by [`json_outcome`].

use crate::text::{chars_of, parse_number, parse_number_chars, same_text};
use vstd::prelude::*;

verus! {

/// `serde_json::Value`, an outside JSON document.
#[verifier::external_type_specification]
#[verifier::external_body]
pub struct ExValue(serde_json::Value);

/// A JSON value. A number is held by its text; an object by its entries in order.
#[derive(Debug, PartialEq, Eq)]
pub enum Json {
    Null,
    Bool(bool),
    Number(String),
    Str(String),
    Array(Vec<Json>),
    Object(Vec<(String, Json)>),
}

/// The mathematical content of a JSON value.
pub ghost enum JsonView {
    Null,
    Bool(bool),
    Number(Seq<char>),
    Str(Seq<char>),
    Array(Seq<JsonView>),
    Object(Seq<(Seq<char>, JsonView)>),
}

/// What a `serde_json::Value` holds.
pub uninterp spec fn value_content(v: serde_json::Value) -> JsonView;

/// What `serde_json::from_str` makes of a text: what it reads, or the message of its
/// error.
pub uninterp spec fn json_outcome(text: Seq<char>) -> Result<JsonView, Seq<char>>;

/// What `serde_json::from_str` reads from a text, where it reads anything.
pub open spec fn json_denoted(text: Seq<char>) -> Option<JsonView> {
    match json_outcome(text) {
        Ok(j) => Some(j),
        Err(_) => None,
    }
}

/// What `serde_json` reads from a text when nesting is not limited.
pub uninterp spec fn json_denoted_deep(text: Seq<char>) -> Option<JsonView>;

impl Json {
    /// The content of this value.
    pub open spec fn view(&self) -> JsonView
        decreases self,
    {
        match self {
            Json::Null => JsonView::Null,
            Json::Bool(b) => JsonView::Bool(*b),
            Json::Number(n) => JsonView::Number(n@),
            Json::Str(s) => JsonView::Str(s@),
            Json::Array(items) => JsonView::Array(
                Seq::new(
                    items@.len(),
                    |i: int|
                        if 0 <= i < items@.len() {
                            items@[i].view()
                        } else {
                            JsonView::Null
                        },
                ),
            ),
            Json::Object(entries) => JsonView::Object(
                Seq::new(
                    entries@.len(),
                    |i: int|
                        if 0 <= i < entries@.len() {
                            (entries@[i].0@, entries@[i].1.view())
                        } else {
                            (Seq::empty(), JsonView::Null)
                        },
                ),
            ),
        }
    }
}

/// The value of the first entry with the given key, from entry `i` on.
pub open spec fn entry_from(
    entries: Seq<(Seq<char>, JsonView)>,
    key: Seq<char>,
    i: int,
) -> Option<JsonView>
    decreases entries.len() - i,
{
    if i < 0 || i >= entries.len() {
        None
    } else if entries[i].0 == key {
        Some(entries[i].1)
    } else {
        entry_from(entries, key, i + 1)
    }
}

/// The value under `key`, where `j` is an object that has it.
pub open spec fn field(j: JsonView, key: Seq<char>) -> Option<JsonView> {
    match j {
        JsonView::Object(entries) => entry_from(entries, key, 0),
        _ => None,
    }
}

proof fn lemma_entry_smaller(entries: Seq<(Seq<char>, JsonView)>, key: Seq<char>, i: int)
    requires
        0 <= i,
    ensures
        entry_from(entries, key, i) matches Some(c) ==> exists|k: int|
            0 <= k < entries.len() && c == (#[trigger] entries[k]).1,
    decreases entries.len() - i,
{
    if i < entries.len() && entries[i].0 != key {
        lemma_entry_smaller(entries, key, i + 1);
    }
}

/// A field is part of its object.
pub broadcast proof fn lemma_field_smaller(j: JsonView, key: Seq<char>)
    ensures
        #[trigger] field(j, key) is Some ==> decreases_to!(j => field(j, key)->0),
{
    if let JsonView::Object(entries) = j {
        lemma_entry_smaller(entries, key, 0);
        if field(j, key) is Some {
            let k = choose|k: int|
                0 <= k < entries.len() && field(j, key)->0 == (#[trigger] entries[k]).1;
            assert(decreases_to!(entries => entries[k]));
            assert(decreases_to!(entries[k] => entries[k].1));
        }
    }
}

/// The text of a string value.
pub open spec fn as_text(j: JsonView) -> Option<Seq<char>> {
    match j {
        JsonView::Str(s) => Some(s),
        _ => None,
    }
}

/// The items of an array value.
pub open spec fn as_items(j: JsonView) -> Option<Seq<JsonView>> {
    match j {
        JsonView::Array(v) => Some(v),
        _ => None,
    }
}

/// The entries of an object value.
pub open spec fn as_entries(j: JsonView) -> Option<Seq<(Seq<char>, JsonView)>> {
    match j {
        JsonView::Object(entries) => Some(entries),
        _ => None,
    }
}

pub open spec fn entry_views(entries: Seq<(String, Json)>) -> Seq<(Seq<char>, JsonView)> {
    Seq::new(entries.len(), |i: int| (entries[i].0@, entries[i].1@))
}

/// The string under `key`.
pub open spec fn text_field(j: JsonView, key: Seq<char>) -> Option<Seq<char>> {
    match field(j, key) {
        Some(c) => as_text(c),
        None => None,
    }
}

/// The value under `key` where it is there and not null.
pub open spec fn present(j: JsonView, key: Seq<char>) -> Option<JsonView> {
    match field(j, key) {
        Some(JsonView::Null) => None,
        o => o,
    }
}

/// The string under `key`, empty where there is none.
pub open spec fn text_at(j: JsonView, key: Seq<char>) -> Seq<char> {
    match text_field(j, key) {
        Some(s) => s,
        None => Seq::empty(),
    }
}

/// The array under `key`, empty where there is none.
pub open spec fn list_at(j: JsonView, key: Seq<char>) -> Seq<JsonView> {
    match field(j, key) {
        Some(JsonView::Array(v)) => v,
        _ => Seq::empty(),
    }
}

/// Whether `true` stands under `key`.
pub open spec fn flag_at(j: JsonView, key: Seq<char>) -> bool {
    field(j, key) == Some(JsonView::Bool(true))
}

/// The number under `key`, zero where there is none that fits.
pub open spec fn number_at(j: JsonView, key: Seq<char>) -> u32 {
    match field(j, key) {
        Some(JsonView::Number(n)) => match parse_number(n, u32::MAX as nat) {
            Some(k) => k as u32,
            None => 0,
        },
        _ => 0,
    }
}

/// An array item is part of the object that holds the array.
pub broadcast proof fn lemma_list_smaller(j: JsonView, key: Seq<char>, i: int)
    requires
        0 <= i < list_at(j, key).len(),
    ensures
        decreases_to!(j => #[trigger] list_at(j, key)[i]),
{
    lemma_field_smaller(j, key);
    let a = field(j, key)->0;
    let v = a->Array_0;
    assert(decreases_to!(a => v));
    assert(decreases_to!(v => v[i]));
}

/// An array is part of the object that holds it.
pub proof fn lemma_array_smaller(j: JsonView, key: Seq<char>)
    requires
        list_at(j, key).len() > 0,
    ensures
        decreases_to!(j => list_at(j, key)),
{
    lemma_field_smaller(j, key);
    let a = field(j, key)->0;
    let v = a->Array_0;
    assert(decreases_to!(a => v));
}

// ── Reading text ────────────────────────────────────────────────────────

/// `serde_json::from_str` into a `serde_json::Value`: the value, or the message of the
/// error, printed with its `Display`. The outcome is a function of the text, named by
/// `json_outcome`.
#[verifier::external_body]
fn value_from_str(text: &str) -> (r: Result<serde_json::Value, String>)
    ensures
        match r {
            Ok(v) => json_outcome(text@) == Ok::<JsonView, Seq<char>>(value_content(v)),
            Err(m) => json_outcome(text@) == Err::<JsonView, Seq<char>>(m@),
        },
{
    serde_json::from_str(text).map_err(|e| e.to_string())
}

/// `serde_json::Deserializer` with `disable_recursion_limit`, reading one
/// `serde_json::Value` from the start of the text: its outcome is a function of
/// the text, named by `json_denoted_deep`.
#[verifier::external_body]
fn value_from_str_deep(text: &str) -> (r: Option<serde_json::Value>)
    ensures
        match r {
            Some(v) => json_denoted_deep(text@) == Some(value_content(v)),
            None => json_denoted_deep(text@) is None,
        },
{
    let mut de = serde_json::Deserializer::from_str(text);
    de.disable_recursion_limit();
    serde::Deserialize::deserialize(&mut de).ok()
}

/// `serde_json::Value::is_null`: whether the value is the null value.
pub assume_specification[ serde_json::Value::is_null ](v: &serde_json::Value) -> (r: bool)
    ensures
        r == (value_content(*v) == JsonView::Null),
;

/// `serde_json::Value::as_bool`: the boolean, of a boolean value only.
pub assume_specification[ serde_json::Value::as_bool ](v: &serde_json::Value) -> (r: Option<bool>)
    ensures
        match value_content(*v) {
            JsonView::Bool(b) => r == Some(b),
            _ => r is None,
        },
;

/// `serde_json::Value::as_str`: the text, of a string value only.
pub assume_specification[ serde_json::Value::as_str ](v: &serde_json::Value) -> (r: Option<&str>)
    ensures
        match value_content(*v) {
            JsonView::Str(s) => r matches Some(t) && t@ == s,
            _ => r is None,
        },
;

/// `serde_json::Value::as_array`: the items in order, of an array value only.
pub assume_specification[ serde_json::Value::as_array ](v: &serde_json::Value) -> (r: Option<
    &Vec<serde_json::Value>,
>)
    ensures
        match value_content(*v) {
            JsonView::Array(items) => r matches Some(a) && a@.len() == items.len() && forall|i: int|
                0 <= i < items.len() ==> value_content(#[trigger] a@[i]) == items[i],
            _ => r is None,
        },
;

/// `serde_json::Value::as_number`, printed with its `Display`: the text of the
/// number, of a numeric value only.
#[verifier::external_body]
fn value_number(v: &serde_json::Value) -> (r: Option<String>)
    ensures
        match value_content(*v) {
            JsonView::Number(n) => r matches Some(t) && t@ == n,
            _ => r is None,
        },
{
    v.as_number().map(|n| n.to_string())
}

/// `serde_json::Value::as_object`, its entries listed with `Map::iter`: the keys
/// and values in the map's order, of an object value only.
#[verifier::external_body]
fn value_entries(v: &serde_json::Value) -> (r: Option<Vec<(&String, &serde_json::Value)>>)
    ensures
        match value_content(*v) {
            JsonView::Object(entries) => r matches Some(a) && a@.len() == entries.len()
                && forall|i: int|
                0 <= i < entries.len() ==> (#[trigger] a@[i]).0@ == entries[i].0 && value_content(
                    *a@[i].1,
                ) == entries[i].1,
            _ => r is None,
        },
{
    v.as_object().map(|m| m.iter().collect())
}

fn from_items(items: &Vec<serde_json::Value>, Ghost(content): Ghost<Seq<JsonView>>) -> (r: Vec<
    Json,
>)
    requires
        items@.len() == content.len(),
        forall|i: int| 0 <= i < content.len() ==> value_content(#[trigger] items@[i]) == content[i],
    ensures
        r@.len() == content.len(),
        forall|i: int| 0 <= i < content.len() ==> (#[trigger] r@[i])@ == content[i],
    decreases content,
{
    let mut out: Vec<Json> = Vec::new();
    let mut i: usize = 0;
    while i < items.len()
        invariant
            i <= items@.len(),
            items@.len() == content.len(),
            forall|k: int| 0 <= k < content.len() ==> value_content(#[trigger] items@[k])
                == content[k],
            out@.len() == i,
            forall|k: int| 0 <= k < i ==> (#[trigger] out@[k])@ == content[k],
        decreases items@.len() - i,
    {
        assert(decreases_to!(content => content[i as int]));
        let item = from_value(&items[i]);
        out.push(item);
        i = i + 1;
    }
    out
}

fn from_entries(
    entries: &Vec<(&String, &serde_json::Value)>,
    Ghost(content): Ghost<Seq<(Seq<char>, JsonView)>>,
) -> (r: Vec<(String, Json)>)
    requires
        entries@.len() == content.len(),
        forall|i: int|
            0 <= i < content.len() ==> (#[trigger] entries@[i]).0@ == content[i].0 && value_content(
                *entries@[i].1,
            ) == content[i].1,
    ensures
        r@.len() == content.len(),
        forall|i: int|
            0 <= i < content.len() ==> ((#[trigger] r@[i]).0@, r@[i].1@) == content[i],
    decreases content,
{
    let mut out: Vec<(String, Json)> = Vec::new();
    let mut i: usize = 0;
    while i < entries.len()
        invariant
            i <= entries@.len(),
            entries@.len() == content.len(),
            forall|k: int|
                0 <= k < content.len() ==> (#[trigger] entries@[k]).0@ == content[k].0
                    && value_content(*entries@[k].1) == content[k].1,
            out@.len() == i,
            forall|k: int| 0 <= k < i ==> ((#[trigger] out@[k]).0@, out@[k].1@) == content[k],
        decreases entries@.len() - i,
    {
        assert(decreases_to!(content => content[i as int]));
        assert(decreases_to!(content[i as int] => content[i as int].1));
        let item = from_value(entries[i].1);
        out.push((entries[i].0.clone(), item));
        i = i + 1;
    }
    out
}

/// The plain value with the content of a `serde_json::Value`.
fn from_value(v: &serde_json::Value) -> (r: Json)
    ensures
        r@ == value_content(*v),
    decreases value_content(*v),
{
    if v.is_null() {
        return Json::Null;
    }
    if let Some(b) = v.as_bool() {
        return Json::Bool(b);
    }
    if let Some(s) = v.as_str() {
        return Json::Str(s.to_owned());
    }
    if let Some(a) = v.as_array() {
        let ghost content = value_content(*v)->Array_0;
        let items = from_items(a, Ghost(content));
        let r = Json::Array(items);
        assert(r@->Array_0 =~= content);
        return r;
    }
    if let Some(e) = value_entries(v) {
        let ghost content = value_content(*v)->Object_0;
        let entries = from_entries(&e, Ghost(content));
        let r = Json::Object(entries);
        assert(r@->Object_0 =~= content);
        return r;
    }
    match value_number(v) {
        Some(n) => Json::Number(n),
        None => Json::Null,
    }
}

/// The view of an optional JSON value.
pub open spec fn opt_json(o: Option<Json>) -> Option<JsonView> {
    match o {
        Some(j) => Some(j@),
        None => None,
    }
}

/// The view of a JSON value that was read, or of why it was not.
pub open spec fn json_result(r: Result<Json, String>) -> Result<JsonView, Seq<char>> {
    match r {
        Ok(j) => Ok(j@),
        Err(m) => Err(m@),
    }
}

/// Reads a JSON document, or says why it cannot be read.
pub fn read_json(text: &str) -> (r: Result<Json, String>)
    ensures
        json_result(r) == json_outcome(text@),
{
    match value_from_str(text) {
        Ok(v) => Ok(from_value(&v)),
        Err(m) => Err(m),
    }
}

/// Reads a JSON document.
pub fn parse_json(text: &str) -> (r: Option<Json>)
    ensures
        opt_json(r) == json_denoted(text@),
{
    match read_json(text) {
        Ok(j) => Some(j),
        Err(_) => None,
    }
}

/// Reads a JSON document nested to any depth.
pub fn parse_json_deep(text: &str) -> (r: Option<Json>)
    ensures
        opt_json(r) == json_denoted_deep(text@),
{
    match value_from_str_deep(text) {
        Some(v) => Some(from_value(&v)),
        None => None,
    }
}

// ── Access ──────────────────────────────────────────────────────────────

impl Json {
    /// The value under `key`.
    pub fn get(&self, key: &str) -> (r: Option<&Json>)
        ensures
            match r {
                Some(c) => field(self@, key@) == Some(c@) && decreases_to!(*self => *c),
                None => field(self@, key@) is None,
            },
    {
        match self {
            Json::Object(entries) => {
                let ghost content = self@->Object_0;
                let mut i: usize = 0;
                while i < entries.len()
                    invariant
                        i <= entries@.len(),
                        self@ == JsonView::Object(content),
                        content.len() == entries@.len(),
                        forall|k: int|
                            0 <= k < content.len() ==> content[k] == (
                                (#[trigger] entries@[k]).0@,
                                entries@[k].1@,
                            ),
                        field(self@, key@) == entry_from(content, key@, i as int),
                        decreases_to!(*self => *entries),
                    decreases entries@.len() - i,
                {
                    if same_text(entries[i].0.as_str(), key) {
                        assert(decreases_to!(entries@ => entries@[i as int]));
                        assert(decreases_to!(entries@[i as int] => entries@[i as int].1));
                        return Some(&entries[i].1);
                    }
                    i = i + 1;
                }
                None
            },
            _ => None,
        }
    }

    /// The text of a string value.
    pub fn as_str(&self) -> (r: Option<&str>)
        ensures
            match r {
                Some(s) => as_text(self@) == Some(s@),
                None => as_text(self@) is None,
            },
    {
        match self {
            Json::Str(s) => Some(s.as_str()),
            _ => None,
        }
    }

    /// The items of an array value.
    pub fn as_array(&self) -> (r: Option<&Vec<Json>>)
        ensures
            match r {
                Some(a) => as_items(self@) == Some(views(a@)) && decreases_to!(*self => *a),
                None => as_items(self@) is None,
            },
    {
        match self {
            Json::Array(items) => {
                assert(self@->Array_0 =~= views(items@));
                Some(items)
            },
            _ => None,
        }
    }

    /// The entries of an object value.
    pub fn as_object(&self) -> (r: Option<&Vec<(String, Json)>>)
        ensures
            match r {
                Some(e) => as_entries(self@) == Some(entry_views(e@)),
                None => as_entries(self@) is None,
            },
    {
        match self {
            Json::Object(entries) => {
                assert(self@->Object_0 =~= entry_views(entries@));
                Some(entries)
            },
            _ => None,
        }
    }

    /// The value under `key` where it is there and not null.
    pub fn get_present(&self, key: &str) -> (r: Option<&Json>)
        ensures
            match r {
                Some(c) => present(self@, key@) == Some(c@) && decreases_to!(*self => *c),
                None => present(self@, key@) is None,
            },
    {
        match self.get(key) {
            Some(c) => match c {
                Json::Null => None,
                _ => Some(c),
            },
            None => None,
        }
    }

    /// The string under `key`, empty where there is none.
    pub fn get_text(&self, key: &str) -> (r: String)
        ensures
            r@ == text_at(self@, key@),
    {
        match self.get_str(key) {
            Some(s) => s.to_owned(),
            None => String::new(),
        }
    }

    /// The array under `key`, where there is one.
    pub fn get_list(&self, key: &str) -> (r: Option<&Vec<Json>>)
        ensures
            match r {
                Some(a) => list_at(self@, key@) == views(a@) && decreases_to!(*self => *a),
                None => list_at(self@, key@) == Seq::<JsonView>::empty(),
            },
    {
        match self.get(key) {
            Some(c) => c.as_array(),
            None => None,
        }
    }

    /// Whether `true` stands under `key`.
    pub fn get_flag(&self, key: &str) -> (r: bool)
        ensures
            r == flag_at(self@, key@),
    {
        match self.get(key) {
            Some(Json::Bool(b)) => *b,
            _ => false,
        }
    }

    /// The number under `key`, zero where there is none that fits.
    pub fn get_number(&self, key: &str) -> (r: u32)
        ensures
            r == number_at(self@, key@),
    {
        match self.get(key) {
            Some(Json::Number(n)) => {
                let c = chars_of(n.as_str());
                match parse_number_chars(c.as_slice(), u32::MAX as u64) {
                    Some(k) => k as u32,
                    None => 0,
                }
            },
            _ => 0,
        }
    }

    /// The string under `key`.
    pub fn get_str(&self, key: &str) -> (r: Option<&str>)
        ensures
            match r {
                Some(s) => text_field(self@, key@) == Some(s@),
                None => text_field(self@, key@) is None,
            },
    {
        match self.get(key) {
            Some(c) => c.as_str(),
            None => None,
        }
    }
}

/// The views of a sequence of JSON values.
pub open spec fn views(items: Seq<Json>) -> Seq<JsonView> {
    Seq::new(items.len(), |i: int| items[i]@)
}

fn copy_items(items: &Vec<Json>) -> (r: Vec<Json>)
    ensures
        views(r@) == views(items@),
    decreases items,
{
    let mut out: Vec<Json> = Vec::new();
    let mut i: usize = 0;
    while i < items.len()
        invariant
            i <= items@.len(),
            out@.len() == i,
            forall|k: int| 0 <= k < i ==> (#[trigger] out@[k])@ == items@[k]@,
        decreases items@.len() - i,
    {
        assert(decreases_to!(items@ => items@[i as int]));
        out.push(copy_json(&items[i]));
        i = i + 1;
    }
    assert(views(out@) =~= views(items@));
    out
}

fn copy_entries(entries: &Vec<(String, Json)>) -> (r: Vec<(String, Json)>)
    ensures
        r@.len() == entries@.len(),
        forall|k: int|
            0 <= k < entries@.len() ==> (#[trigger] r@[k]).0 == entries@[k].0 && r@[k].1@
                == entries@[k].1@,
    decreases entries,
{
    let mut out: Vec<(String, Json)> = Vec::new();
    let mut i: usize = 0;
    while i < entries.len()
        invariant
            i <= entries@.len(),
            out@.len() == i,
            forall|k: int|
                0 <= k < i ==> (#[trigger] out@[k]).0 == entries@[k].0 && out@[k].1@
                    == entries@[k].1@,
        decreases entries@.len() - i,
    {
        assert(decreases_to!(entries@ => entries@[i as int]));
        out.push((entries[i].0.clone(), copy_json(&entries[i].1)));
        i = i + 1;
    }
    out
}

/// An independent copy of a JSON value.
pub fn copy_json(j: &Json) -> (r: Json)
    ensures
        r@ == j@,
    decreases j,
{
    match j {
        Json::Null => Json::Null,
        Json::Bool(b) => Json::Bool(*b),
        Json::Number(n) => Json::Number(n.clone()),
        Json::Str(s) => Json::Str(s.clone()),
        Json::Array(items) => {
            let r = Json::Array(copy_items(items));
            assert(r@->Array_0 =~= views(items@));
            assert(j@->Array_0 =~= views(items@));
            r
        },
        Json::Object(entries) => {
            let r = Json::Object(copy_entries(entries));
            assert(r@->Object_0 =~= j@->Object_0);
            r
        },
    }
}

/// The value under a key is that of the first entry of that key.
pub proof fn the_first_entry_of_a_key_counts(
    before: Seq<(Seq<char>, JsonView)>,
    key: Seq<char>,
    value: JsonView,
    after: Seq<(Seq<char>, JsonView)>,
)
    requires
        forall|i: int| 0 <= i < before.len() ==> (#[trigger] before[i]).0 != key,
    ensures
        field(JsonView::Object(before + seq![(key, value)] + after), key) == Some(value),
        field(JsonView::Object(before), key) is None,
{
    lemma_entry_at(before + seq![(key, value)] + after, key, 0, before.len() as int);
    lemma_no_entry(before, key, 0);
}

proof fn lemma_entry_at(entries: Seq<(Seq<char>, JsonView)>, key: Seq<char>, i: int, at: int)
    requires
        0 <= i <= at < entries.len(),
        entries[at].0 == key,
        forall|k: int| i <= k < at ==> (#[trigger] entries[k]).0 != key,
    ensures
        entry_from(entries, key, i) == Some(entries[at].1),
    decreases at - i,
{
    if i < at {
        lemma_entry_at(entries, key, i + 1, at);
    }
}

proof fn lemma_no_entry(entries: Seq<(Seq<char>, JsonView)>, key: Seq<char>, i: int)
    requires
        0 <= i <= entries.len(),
        forall|k: int| i <= k < entries.len() ==> (#[trigger] entries[k]).0 != key,
    ensures
        entry_from(entries, key, i) is None,
    decreases entries.len() - i,
{
    if i < entries.len() {
        lemma_no_entry(entries, key, i + 1);
    }
}

} // verus!
