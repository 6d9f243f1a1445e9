//! YAML values.
//!
//! `Yaml` holds a YAML document as plain data. Text is turned into it through
//! `serde_yaml`; what a text denotes is named by [`yaml_denoted`].

use crate::text::same_text;
use vstd::prelude::*;

verus! {

/// `serde_yaml::Value`, an outside YAML document.
#[verifier::external_type_specification]
#[verifier::external_body]
pub struct ExYamlValue(serde_yaml::Value);

/// A YAML value. A number is held by its text; a mapping by its entries in order.
#[derive(Debug)]
pub enum Yaml {
    Null,
    Bool(bool),
    Number(String),
    Str(String),
    Sequence(Vec<Yaml>),
    Mapping(Vec<(Yaml, Yaml)>),
    /// A value with a tag before it.
    Tagged(Box<Yaml>),
}

/// The mathematical content of a YAML value.
pub ghost enum YamlView {
    Null,
    Bool(bool),
    Number(Seq<char>),
    Str(Seq<char>),
    Sequence(Seq<YamlView>),
    Mapping(Seq<(YamlView, YamlView)>),
    Tagged(Box<YamlView>),
}

/// What a `serde_yaml::Value` holds.
pub uninterp spec fn yaml_content(v: serde_yaml::Value) -> YamlView;

/// What `serde_yaml::from_str` reads from a text, where it reads anything.
pub uninterp spec fn yaml_denoted(text: Seq<char>) -> Option<YamlView>;

impl Yaml {
    /// The content of this value.
    pub open spec fn view(&self) -> YamlView
        decreases self,
    {
        match self {
            Yaml::Null => YamlView::Null,
            Yaml::Bool(b) => YamlView::Bool(*b),
            Yaml::Number(n) => YamlView::Number(n@),
            Yaml::Str(s) => YamlView::Str(s@),
            Yaml::Sequence(items) => YamlView::Sequence(
                Seq::new(
                    items@.len(),
                    |i: int|
                        if 0 <= i < items@.len() {
                            items@[i].view()
                        } else {
                            YamlView::Null
                        },
                ),
            ),
            Yaml::Mapping(entries) => YamlView::Mapping(
                Seq::new(
                    entries@.len(),
                    |i: int|
                        if 0 <= i < entries@.len() {
                            (entries@[i].0.view(), entries@[i].1.view())
                        } else {
                            (YamlView::Null, YamlView::Null)
                        },
                ),
            ),
            Yaml::Tagged(inner) => YamlView::Tagged(Box::new(inner.view())),
        }
    }
}

pub open spec fn opt_yaml(o: Option<Yaml>) -> Option<YamlView> {
    match o {
        Some(y) => Some(y@),
        None => None,
    }
}

pub open spec fn pair_views(entries: Seq<(Yaml, Yaml)>) -> Seq<(YamlView, YamlView)> {
    Seq::new(entries.len(), |i: int| (entries[i].0@, entries[i].1@))
}

// ── Reading text ────────────────────────────────────────────────────────

/// One layer of a `serde_yaml::Value`.
enum YamlNode<'a> {
    Null,
    Bool(bool),
    Number(String),
    Str(&'a String),
    Sequence(&'a Vec<serde_yaml::Value>),
    Mapping(Vec<(&'a serde_yaml::Value, &'a serde_yaml::Value)>),
    Tagged(&'a serde_yaml::Value),
}

/// `serde_yaml::from_str` into a `serde_yaml::Value`: its outcome is a function of
/// the text, named by `yaml_denoted`.
#[verifier::external_body]
fn yaml_from_str(text: &str) -> (r: Option<serde_yaml::Value>)
    ensures
        match r {
            Some(v) => yaml_denoted(text@) == Some(yaml_content(v)),
            None => yaml_denoted(text@) is None,
        },
{
    serde_yaml::from_str(text).ok()
}

/// The variants of `serde_yaml::Value` told apart: a number by its `Display`, a
/// mapping by its entries as `Mapping::iter` lists them, a tagged value by the value
/// behind its tag.
#[verifier::external_body]
fn yaml_node<'a>(v: &'a serde_yaml::Value) -> (r: YamlNode<'a>)
    ensures
        match r {
            YamlNode::Null => yaml_content(*v) == YamlView::Null,
            YamlNode::Bool(b) => yaml_content(*v) == YamlView::Bool(b),
            YamlNode::Number(n) => yaml_content(*v) == YamlView::Number(n@),
            YamlNode::Str(s) => yaml_content(*v) == YamlView::Str(s@),
            YamlNode::Sequence(a) => yaml_content(*v) matches YamlView::Sequence(items) && a@.len()
                == items.len() && forall|i: int|
                0 <= i < items.len() ==> yaml_content(#[trigger] a@[i]) == items[i],
            YamlNode::Mapping(a) => yaml_content(*v) matches YamlView::Mapping(entries) && a@.len()
                == entries.len() && forall|i: int|
                0 <= i < entries.len() ==> yaml_content(*(#[trigger] a@[i]).0) == entries[i].0
                    && yaml_content(*a@[i].1) == entries[i].1,
            YamlNode::Tagged(t) => yaml_content(*v) == YamlView::Tagged(Box::new(yaml_content(*t))),
        },
{
    match v {
        serde_yaml::Value::Null => YamlNode::Null,
        serde_yaml::Value::Bool(b) => YamlNode::Bool(*b),
        serde_yaml::Value::Number(n) => YamlNode::Number(n.to_string()),
        serde_yaml::Value::String(s) => YamlNode::Str(s),
        serde_yaml::Value::Sequence(a) => YamlNode::Sequence(a),
        serde_yaml::Value::Mapping(m) => YamlNode::Mapping(m.iter().collect()),
        serde_yaml::Value::Tagged(t) => YamlNode::Tagged(&t.value),
    }
}

fn from_items(items: &Vec<serde_yaml::Value>, Ghost(content): Ghost<Seq<YamlView>>) -> (r: Vec<Yaml>)
    requires
        items@.len() == content.len(),
        forall|i: int| 0 <= i < content.len() ==> yaml_content(#[trigger] items@[i]) == content[i],
    ensures
        r@.len() == content.len(),
        forall|i: int| 0 <= i < content.len() ==> (#[trigger] r@[i])@ == content[i],
    decreases content,
{
    let mut out: Vec<Yaml> = Vec::new();
    let mut i: usize = 0;
    while i < items.len()
        invariant
            i <= items@.len(),
            items@.len() == content.len(),
            forall|k: int| 0 <= k < content.len() ==> yaml_content(#[trigger] items@[k]) == content[k],
            out@.len() == i,
            forall|k: int| 0 <= k < i ==> (#[trigger] out@[k])@ == content[k],
        decreases items@.len() - i,
    {
        assert(decreases_to!(content => content[i as int]));
        let item = from_value(&items[i]);
        out.push(item);
        i = i + 1;
    }
    out
}

fn from_pairs(
    pairs: &Vec<(&serde_yaml::Value, &serde_yaml::Value)>,
    Ghost(content): Ghost<Seq<(YamlView, YamlView)>>,
) -> (r: Vec<(Yaml, Yaml)>)
    requires
        pairs@.len() == content.len(),
        forall|i: int|
            0 <= i < content.len() ==> yaml_content(*(#[trigger] pairs@[i]).0) == content[i].0
                && yaml_content(*pairs@[i].1) == content[i].1,
    ensures
        r@.len() == content.len(),
        forall|i: int| 0 <= i < content.len() ==> ((#[trigger] r@[i]).0@, r@[i].1@) == content[i],
    decreases content,
{
    let mut out: Vec<(Yaml, Yaml)> = Vec::new();
    let mut i: usize = 0;
    while i < pairs.len()
        invariant
            i <= pairs@.len(),
            pairs@.len() == content.len(),
            forall|k: int|
                0 <= k < content.len() ==> yaml_content(*(#[trigger] pairs@[k]).0) == content[k].0
                    && yaml_content(*pairs@[k].1) == content[k].1,
            out@.len() == i,
            forall|k: int| 0 <= k < i ==> ((#[trigger] out@[k]).0@, out@[k].1@) == content[k],
        decreases pairs@.len() - i,
    {
        assert(decreases_to!(content => content[i as int]));
        assert(decreases_to!(content[i as int] => content[i as int].0));
        assert(decreases_to!(content[i as int] => content[i as int].1));
        let key = from_value(pairs[i].0);
        let value = from_value(pairs[i].1);
        out.push((key, value));
        i = i + 1;
    }
    out
}

/// The plain value with the content of a `serde_yaml::Value`.
fn from_value(v: &serde_yaml::Value) -> (r: Yaml)
    ensures
        r@ == yaml_content(*v),
    decreases yaml_content(*v),
{
    match yaml_node(v) {
        YamlNode::Null => Yaml::Null,
        YamlNode::Bool(b) => Yaml::Bool(b),
        YamlNode::Number(n) => Yaml::Number(n),
        YamlNode::Str(s) => Yaml::Str(s.clone()),
        YamlNode::Sequence(a) => {
            let ghost content = yaml_content(*v)->Sequence_0;
            let items = from_items(a, Ghost(content));
            let r = Yaml::Sequence(items);
            assert(r@->Sequence_0 =~= content);
            r
        },
        YamlNode::Mapping(a) => {
            let ghost content = yaml_content(*v)->Mapping_0;
            let entries = from_pairs(&a, Ghost(content));
            let r = Yaml::Mapping(entries);
            assert(r@->Mapping_0 =~= content);
            r
        },
        YamlNode::Tagged(t) => {
            let ghost content = yaml_content(*v);
            assert(decreases_to!(content => content->Tagged_0));
            let inner = from_value(t);
            let r = Yaml::Tagged(Box::new(inner));
            assert(r@ == YamlView::Tagged(Box::new(inner@)));
            r
        },
    }
}

/// Reads a YAML document.
pub fn parse_yaml(text: &str) -> (r: Option<Yaml>)
    ensures
        opt_yaml(r) == yaml_denoted(text@),
{
    match yaml_from_str(text) {
        Some(v) => Some(from_value(&v)),
        None => None,
    }
}

// ── Access ──────────────────────────────────────────────────────────────

/// A value without the tags before it.
pub open spec fn untagged(y: YamlView) -> YamlView
    decreases y,
{
    match y {
        YamlView::Tagged(inner) => untagged(*inner),
        _ => y,
    }
}

/// The value of the first entry from `i` on whose key is a text.
pub open spec fn pair_from(entries: Seq<(YamlView, YamlView)>, key: Seq<char>, i: int) -> Option<YamlView>
    decreases entries.len() - i,
{
    if i < 0 || i >= entries.len() {
        None
    } else if entries[i].0 == YamlView::Str(key) {
        Some(entries[i].1)
    } else {
        pair_from(entries, key, i + 1)
    }
}

/// The entries of a mapping.
pub open spec fn as_mapping(y: YamlView) -> Option<Seq<(YamlView, YamlView)>> {
    match untagged(y) {
        YamlView::Mapping(entries) => Some(entries),
        _ => None,
    }
}

/// The value under a key of a mapping.
pub open spec fn yaml_field(y: YamlView, key: Seq<char>) -> Option<YamlView> {
    match as_mapping(y) {
        Some(entries) => pair_from(entries, key, 0),
        None => None,
    }
}

/// The text of a string value.
pub open spec fn yaml_text(y: YamlView) -> Option<Seq<char>> {
    match untagged(y) {
        YamlView::Str(s) => Some(s),
        _ => None,
    }
}

/// The text of a string or a number that has no tag.
pub open spec fn scalar_text(y: YamlView) -> Option<Seq<char>> {
    match y {
        YamlView::Str(s) => Some(s),
        YamlView::Number(n) => Some(n),
        _ => None,
    }
}

impl Yaml {
    fn untag(&self) -> (r: &Yaml)
        ensures
            r@ == untagged(self@),
            !(r@ is Tagged),
        decreases self,
    {
        match self {
            Yaml::Tagged(inner) => inner.untag(),
            _ => self,
        }
    }

    /// The entries of a mapping.
    pub fn as_mapping(&self) -> (r: Option<&Vec<(Yaml, Yaml)>>)
        ensures
            match r {
                Some(e) => as_mapping(self@) == Some(pair_views(e@)),
                None => as_mapping(self@) is None,
            },
    {
        match self.untag() {
            Yaml::Mapping(entries) => {
                assert(untagged(self@)->Mapping_0 =~= pair_views(entries@));
                Some(entries)
            },
            _ => None,
        }
    }

    /// The text of a string value.
    pub fn as_str(&self) -> (r: Option<&str>)
        ensures
            match r {
                Some(s) => yaml_text(self@) == Some(s@),
                None => yaml_text(self@) is None,
            },
    {
        match self.untag() {
            Yaml::Str(s) => Some(s.as_str()),
            _ => None,
        }
    }

    /// The value under a key of a mapping.
    pub fn get(&self, key: &str) -> (r: Option<&Yaml>)
        ensures
            match r {
                Some(y) => yaml_field(self@, key@) == Some(y@),
                None => yaml_field(self@, key@) is None,
            },
    {
        let entries = match self.as_mapping() {
            Some(e) => e,
            None => {
                return None;
            },
        };
        let ghost v = pair_views(entries@);
        let mut i: usize = 0;
        while i < entries.len()
            invariant
                i <= entries@.len(),
                v == pair_views(entries@),
                yaml_field(self@, key@) == pair_from(v, key@, 0),
                pair_from(v, key@, 0) == pair_from(v, key@, i as int),
            decreases entries@.len() - i,
        {
            assert(v[i as int] == (entries@[i as int].0@, entries@[i as int].1@));
            if let Yaml::Str(s) = &entries[i].0 {
                if same_text(s.as_str(), key) {
                    return Some(&entries[i].1);
                }
            }
            i = i + 1;
        }
        None
    }

    /// The text of a string or a number that has no tag.
    pub fn scalar(&self) -> (r: Option<&String>)
        ensures
            match r {
                Some(s) => scalar_text(self@) == Some(s@),
                None => scalar_text(self@) is None,
            },
    {
        match self {
            Yaml::Str(s) => Some(s),
            Yaml::Number(n) => Some(n),
            _ => None,
        }
    }
}

proof fn lemma_pair_reached(entries: Seq<(YamlView, YamlView)>, key: Seq<char>, from: int, i: int)
    requires
        0 <= from <= i < entries.len(),
        entries[i].0 == YamlView::Str(key),
        forall|k: int| 0 <= k < i ==> (#[trigger] entries[k]).0 != YamlView::Str(key),
    ensures
        pair_from(entries, key, from) == Some(entries[i].1),
    decreases i - from,
{
    if from < i {
        lemma_pair_reached(entries, key, from + 1, i);
    }
}

/// Of the entries of a key, the first one is read; tags before a mapping make no difference.
pub proof fn the_first_entry_is_read(entries: Seq<(YamlView, YamlView)>, key: Seq<char>, i: int)
    requires
        0 <= i < entries.len(),
        entries[i].0 == YamlView::Str(key),
        forall|k: int| 0 <= k < i ==> (#[trigger] entries[k]).0 != YamlView::Str(key),
    ensures
        yaml_field(YamlView::Mapping(entries), key) == Some(entries[i].1),
        yaml_field(YamlView::Tagged(Box::new(YamlView::Mapping(entries))), key) == Some(
            entries[i].1,
        ),
{
    lemma_pair_reached(entries, key, 0, i);
    reveal_with_fuel(untagged, 3);
    assert(untagged(YamlView::Mapping(entries)) == YamlView::Mapping(entries));
}

/// Texts are read with and without a tag; a scalar has text where it is a string or a number
/// without a tag.
pub proof fn scalars_have_their_text(y: YamlView, t: Seq<char>)
    ensures
        yaml_text(YamlView::Str(t)) == Some(t),
        yaml_text(YamlView::Tagged(Box::new(y))) == yaml_text(y),
        yaml_text(y) == Some(t) && !(y is Tagged) ==> y == YamlView::Str(t),
        scalar_text(y) == Some(t) <==> y == YamlView::Str(t) || y == YamlView::Number(t),
{
    reveal_with_fuel(untagged, 2);
}

} // verus!
