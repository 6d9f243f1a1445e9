//! Fix operations for JavaScript and TypeScript: prop removal, deduplication of
//! import specifiers, and the text that an incident matched.

use crate::fix::{
    edit_views, opt_fix, renamings, FixConfidence, FixSource, PlannedFix, PlannedFixView,
    RenameMapping, Renaming, TextEdit, TextEditView,
};
use crate::incident::{variables_view, Incident, IncidentView, Variables};
use crate::json::{as_text, Json, JsonView};
use crate::pattern::{
    compile, regex_captures, regex_find, regex_first, regex_groups, regex_rejection,
};
use crate::text::{
    cat3, cat5, chars_of, decimal, decimal_text, find_chars, find_from, is_white, join, join_texts,
    lemma_in_pushed, lemma_split_free, lemma_split_last, lemma_split_one, lemma_trim_blanks,
    lemma_trim_ends, lines, lines_from, lines_text, list_contains, occurs_at, occurs_at_chars,
    opt_text, replace_first, same_text, split, split_text, string_of, strip_cr, texts, trim,
    trimmed, white,
};
use vstd::prelude::*;

verus! {

/// Fix operations for JavaScript and TypeScript files.
pub struct JsFixProvider;

// ── Bracket depth ───────────────────────────────────────────────────────

/// Where a scan of a line stands.
pub ghost struct LineScan {
    pub single: bool,
    pub double: bool,
    pub backtick: bool,
    /// Whether the last character is a backslash that escapes the next one.
    pub escaped: bool,
    pub depth: int,
}

pub open spec fn is_opener(c: char) -> bool {
    c == '(' || c == '{' || c == '['
}

pub open spec fn is_closer(c: char) -> bool {
    c == ')' || c == '}' || c == ']'
}

/// The scan after one more character. A quote opens or closes a literal unless it
/// stands in a literal of another kind or is escaped; brackets count outside literals
/// only. A backslash escapes the next character unless it is escaped itself.
pub open spec fn scan_step(s: LineScan, c: char) -> LineScan {
    let next = if c == '\'' && !s.double && !s.backtick && !s.escaped {
        LineScan { single: !s.single, ..s }
    } else if c == '"' && !s.single && !s.backtick && !s.escaped {
        LineScan { double: !s.double, ..s }
    } else if c == '`' && !s.single && !s.double && !s.escaped {
        LineScan { backtick: !s.backtick, ..s }
    } else if is_opener(c) && !s.single && !s.double && !s.backtick {
        LineScan { depth: s.depth + 1, ..s }
    } else if is_closer(c) && !s.single && !s.double && !s.backtick {
        LineScan { depth: s.depth - 1, ..s }
    } else {
        s
    };
    LineScan { escaped: c == '\\' && !s.escaped, ..next }
}

pub open spec fn scan_line(line: Seq<char>) -> LineScan
    decreases line.len(),
{
    if line.len() == 0 {
        LineScan { single: false, double: false, backtick: false, escaped: false, depth: 0 }
    } else {
        scan_step(scan_line(line.drop_last()), line.last())
    }
}

/// How many more brackets a line opens than it closes, outside literals.
pub open spec fn depth_of(line: Seq<char>) -> int {
    scan_line(line).depth
}

proof fn lemma_depth_bound(line: Seq<char>)
    ensures
        -(line.len() as int) <= depth_of(line) <= line.len(),
    decreases line.len(),
{
    if line.len() > 0 {
        lemma_depth_bound(line.drop_last());
    }
}

/// Without quotes, the depth is the number of openers less that of closers.
pub proof fn depth_counts_brackets(line: Seq<char>)
    requires
        forall|i: int| 0 <= i < line.len() ==> #[trigger] line[i] != '\'' && line[i] != '"'
            && line[i] != '`',
    ensures
        depth_of(line) == line.filter(|c: char| is_opener(c)).len() - line.filter(
            |c: char| is_closer(c),
        ).len(),
        !scan_line(line).single && !scan_line(line).double && !scan_line(line).backtick,
    decreases line.len(),
{
    reveal(Seq::filter);
    if line.len() > 0 {
        let c = line.last();
        assert(line[line.len() - 1] == c);
        assert forall|i: int| 0 <= i < line.drop_last().len() implies #[trigger] line.drop_last()[i]
            != '\'' && line.drop_last()[i] != '"' && line.drop_last()[i] != '`' by {
            assert(line.drop_last()[i] == line[i]);
        }
        depth_counts_brackets(line.drop_last());
    }
}

/// A scan of a line.
struct Scan {
    single: bool,
    double: bool,
    backtick: bool,
    escaped: bool,
    depth: i128,
}

impl Scan {
    spec fn view(&self) -> LineScan {
        LineScan {
            single: self.single,
            double: self.double,
            backtick: self.backtick,
            escaped: self.escaped,
            depth: self.depth as int,
        }
    }

    fn start() -> (r: Scan)
        ensures
            r@ == scan_line(Seq::empty()),
    {
        Scan { single: false, double: false, backtick: false, escaped: false, depth: 0 }
    }

    fn step(&mut self, c: char)
        requires
            i128::MIN < old(self).depth < i128::MAX,
        ensures
            final(self)@ == scan_step(old(self)@, c),
            old(self).depth - 1 <= final(self).depth <= old(self).depth + 1,
    {
        let escaped = self.escaped;
        if c == '\'' && !self.double && !self.backtick && !escaped {
            self.single = !self.single;
        } else if c == '"' && !self.single && !self.backtick && !escaped {
            self.double = !self.double;
        } else if c == '`' && !self.single && !self.double && !escaped {
            self.backtick = !self.backtick;
        } else if (c == '(' || c == '{' || c == '[') && !self.single && !self.double
            && !self.backtick {
            self.depth = self.depth + 1;
        } else if (c == ')' || c == '}' || c == ']') && !self.single && !self.double
            && !self.backtick {
            self.depth = self.depth - 1;
        }
        self.escaped = c == '\\' && !escaped;
    }
}

/// The scan of the characters from `from` to `to`.
fn scan_between(c: &[char], from: usize, to: usize) -> (r: Scan)
    requires
        from <= to <= c@.len(),
    ensures
        r@ == scan_line(c@.subrange(from as int, to as int)),
        -(to - from) <= r.depth <= to - from,
{
    let mut scan = Scan::start();
    let mut i: usize = from;
    assert(c@.subrange(from as int, from as int) =~= Seq::<char>::empty());
    while i < to
        invariant
            from <= i <= to <= c@.len(),
            scan@ == scan_line(c@.subrange(from as int, i as int)),
            -(i - from) <= scan.depth <= i - from,
        decreases to - i,
    {
        assert(c@.subrange(from as int, i + 1).drop_last() =~= c@.subrange(from as int, i as int));
        scan.step(c[i]);
        i = i + 1;
    }
    scan
}

/// Counts how many more brackets a line opens than it closes, outside literals.
pub fn bracket_depth(line: &str) -> (r: i128)
    ensures
        r == depth_of(line@),
        -(line@.len() as int) <= r <= line@.len(),
{
    let c = chars_of(line);
    let scan = scan_between(c.as_slice(), 0, c.len());
    assert(c@.subrange(0, c@.len() as int) =~= c@);
    scan.depth
}

// ── What an incident matched ────────────────────────────────────────────

/// The text of a variable that holds text.
pub open spec fn text_variable(vars: Map<Seq<char>, JsonView>, key: Seq<char>) -> Option<Seq<char>> {
    if vars.dom().contains(key) {
        as_text(vars[key])
    } else {
        None
    }
}

/// The text that an incident matched: the first that is there of the prop, the
/// component, the imported name, the class and the CSS variable.
pub open spec fn matched_text(vars: Map<Seq<char>, JsonView>) -> Seq<char> {
    match text_variable(vars, "propName"@) {
        Some(s) => s,
        None => match text_variable(vars, "componentName"@) {
            Some(s) => s,
            None => match text_variable(vars, "importedName"@) {
                Some(s) => s,
                None => match text_variable(vars, "className"@) {
                    Some(s) => s,
                    None => match text_variable(vars, "variableName"@) {
                        Some(s) => s,
                        None => Seq::empty(),
                    },
                },
            },
        },
    }
}

/// Whether some mapping renames `name`.
pub open spec fn is_renamed(mappings: Seq<Renaming>, name: Seq<char>) -> bool {
    exists|i: int| 0 <= i < mappings.len() && (#[trigger] mappings[i]).old == name
}

/// The first text among JSON values, from position `i` on, that a mapping renames.
pub open spec fn first_renamed(
    mappings: Seq<Renaming>,
    values: Seq<JsonView>,
    i: int,
) -> Option<Seq<char>>
    decreases values.len() - i,
{
    if i < 0 || i >= values.len() {
        None
    } else {
        match as_text(values[i]) {
            Some(s) => if is_renamed(mappings, s) {
                Some(s)
            } else {
                first_renamed(mappings, values, i + 1)
            },
            None => first_renamed(mappings, values, i + 1),
        }
    }
}

/// The text of an incident that a renaming is about: the matched name, or else
/// the value of the prop, or one of the strings in it, where a mapping renames it.
pub open spec fn matched_for_rename(
    vars: Map<Seq<char>, JsonView>,
    mappings: Seq<Renaming>,
) -> Seq<char> {
    let name = matched_text(vars);
    let value = text_variable(vars, "propValue"@);
    if is_renamed(mappings, name) {
        name
    } else if value matches Some(v) && is_renamed(mappings, v) {
        value->0
    } else if vars.dom().contains("propObjectValues"@) && vars["propObjectValues"@] is Array {
        match first_renamed(mappings, vars["propObjectValues"@]->Array_0, 0) {
            Some(s) => s,
            None => name,
        }
    } else {
        name
    }
}

fn variable_text<'a>(vars: &'a Variables, key: &str) -> (r: Option<&'a str>)
    ensures
        match r {
            Some(s) => text_variable(variables_view(*vars), key@) == Some(s@),
            None => text_variable(variables_view(*vars), key@) is None,
        },
{
    match vars.get(key) {
        Some(j) => j.as_str(),
        None => None,
    }
}

/// The text that an incident matched.
pub fn get_matched_text_from_incident(incident: &Incident) -> (r: String)
    ensures
        r@ == matched_text(incident@.variables),
{
    let vars = &incident.variables;
    if let Some(s) = variable_text(vars, "propName") {
        return s.to_owned();
    }
    if let Some(s) = variable_text(vars, "componentName") {
        return s.to_owned();
    }
    if let Some(s) = variable_text(vars, "importedName") {
        return s.to_owned();
    }
    if let Some(s) = variable_text(vars, "className") {
        return s.to_owned();
    }
    if let Some(s) = variable_text(vars, "variableName") {
        return s.to_owned();
    }
    String::new()
}

fn renames(mappings: &Vec<RenameMapping>, name: &str) -> (r: bool)
    ensures
        r == is_renamed(renamings(mappings@), name@),
{
    let mut i: usize = 0;
    while i < mappings.len()
        invariant
            i <= mappings@.len(),
            forall|k: int| 0 <= k < i ==> (#[trigger] renamings(mappings@)[k]).old != name@,
        decreases mappings@.len() - i,
    {
        if same_text(mappings[i].old.as_str(), name) {
            assert(renamings(mappings@)[i as int].old == name@);
            return true;
        }
        i = i + 1;
    }
    false
}

fn find_renamed(mappings: &Vec<RenameMapping>, values: &Vec<Json>) -> (r: Option<String>)
    ensures
        opt_text(r) == first_renamed(renamings(mappings@), crate::json::views(values@), 0),
{
    let ghost m = renamings(mappings@);
    let ghost v = crate::json::views(values@);
    let mut i: usize = 0;
    while i < values.len()
        invariant
            i <= values@.len(),
            m == renamings(mappings@),
            v == crate::json::views(values@),
            first_renamed(m, v, 0) == first_renamed(m, v, i as int),
        decreases values@.len() - i,
    {
        if let Some(s) = values[i].as_str() {
            if renames(mappings, s) {
                return Some(s.to_owned());
            }
        }
        i = i + 1;
    }
    None
}

/// The text of an incident that a renaming is about.
pub fn get_matched_text_for_rename_from_incident(
    incident: &Incident,
    mappings: &Vec<RenameMapping>,
) -> (r: String)
    ensures
        r@ == matched_for_rename(incident@.variables, renamings(mappings@)),
{
    let name = get_matched_text_from_incident(incident);
    if renames(mappings, name.as_str()) {
        return name;
    }
    if let Some(v) = variable_text(&incident.variables, "propValue") {
        if renames(mappings, v) {
            return v.to_owned();
        }
    }
    if let Some(j) = incident.variables.get("propObjectValues") {
        if let Some(values) = j.as_array() {
            if let Some(s) = find_renamed(mappings, values) {
                return s;
            }
        }
    }
    name
}

// ── Prop removal ────────────────────────────────────────────────────────

/// An edit that removes text of a line.
pub open spec fn removal(
    line: u32,
    old_text: Seq<char>,
    rule_id: Seq<char>,
    description: Seq<char>,
) -> TextEditView {
    TextEditView {
        line,
        old_text,
        new_text: Seq::empty(),
        rule_id,
        description,
        replace_all: false,
    }
}

/// A fix made of removals. Without any it is only a hint for manual review.
pub open spec fn removal_fix(
    edits: Seq<TextEditView>,
    rule_id: Seq<char>,
    file_uri: Seq<char>,
    line: u32,
    description: Seq<char>,
) -> PlannedFixView {
    PlannedFixView {
        edits,
        confidence: if edits.len() > 0 {
            FixConfidence::High
        } else {
            FixConfidence::Low
        },
        source: FixSource::Pattern,
        rule_id,
        file_uri,
        line,
        description,
    }
}

/// An edit that takes the characters from `from` to `to` out of a line. Where the same
/// text stands earlier on the line, it is told apart by what stands before it.
pub open spec fn cut(
    line: u32,
    text: Seq<char>,
    from: int,
    to: int,
    rule_id: Seq<char>,
    description: Seq<char>,
) -> TextEditView {
    if find_from(text, text.subrange(from, to), 0) == Some(from) {
        removal(line, text.subrange(from, to), rule_id, description)
    } else {
        TextEditView {
            new_text: text.take(from),
            ..removal(line, text.take(to), rule_id, description)
        }
    }
}

/// A cut takes out the characters between its ends and nothing else.
pub proof fn cuts_leave_the_rest(
    line: u32,
    text: Seq<char>,
    from: int,
    to: int,
    rule_id: Seq<char>,
    description: Seq<char>,
)
    requires
        0 <= from <= to <= text.len(),
    ensures
        ({
            let e = cut(line, text, from, to, rule_id, description);
            replace_first(text, e.old_text, e.new_text) == text.take(from) + text.skip(to)
        }),
{
    let e = cut(line, text, from, to, rule_id, description);
    if find_from(text, text.subrange(from, to), 0) == Some(from) {
        assert(replace_first(text, e.old_text, e.new_text) =~= text.take(from) + text.skip(to));
    } else {
        assert(text.subrange(0, to) =~= text.take(to));
        assert(occurs_at(text, text.take(to), 0));
        assert(replace_first(text, e.old_text, e.new_text) =~= text.take(from) + text.skip(to));
    }
}

// ── Where a prop ends ───────────────────────────────────────────────────

/// Whether a character can be part of a prop name.
pub open spec fn is_name_char(c: char) -> bool {
    let n = c as u32;
    48 <= n <= 57 || 65 <= n <= 90 || 97 <= n <= 122 || n == 36 || n == 45 || n == 95 || n >= 128
}

/// Whether a name ends at position `i`.
pub open spec fn name_ends(s: Seq<char>, i: int) -> bool {
    !(0 <= i < s.len() && is_name_char(s[i]))
}

/// The end of the white space from position `i` on.
pub open spec fn white_end(s: Seq<char>, i: int) -> int
    decreases s.len() - i,
{
    if 0 <= i < s.len() && is_white(s[i]) {
        white_end(s, i + 1)
    } else {
        i
    }
}

/// The end of a comma that stands behind white space from position `i` on; `i` without
/// one.
pub open spec fn comma_end(s: Seq<char>, i: int) -> int {
    let w = white_end(s, i);
    if 0 <= w < s.len() && s[w] == ',' {
        w + 1
    } else {
        i
    }
}

/// Whether a comment up to the end of the line begins at position `i`.
pub open spec fn begins_comment(s: Seq<char>, i: int) -> bool {
    0 <= i && i + 1 < s.len() && s[i] == '/' && s[i + 1] == '/'
}

/// Whether nothing but a comment stands on a line from position `i` on.
pub open spec fn nothing_follows(s: Seq<char>, i: int) -> bool {
    let w = white_end(s, i);
    w >= s.len() || begins_comment(s, w)
}

/// What the value of a prop is written as.
#[derive(Debug, Clone, Copy, PartialEq, Eq, Structural)]
pub enum ValueKind {
    /// Text in quotes.
    Literal,
    /// An expression in braces.
    Braces,
    /// An element.
    Element,
    /// What an object member holds: it goes up to a comma, to a closing bracket of the
    /// object or to a comment.
    Member,
}

/// Where the reader of an element stands.
#[derive(Debug, Clone, Copy, PartialEq, Eq, Structural)]
pub enum TagPlace {
    /// Between tags.
    Text,
    /// Behind the bracket that begins a tag.
    Begin,
    /// In an opening tag.
    Open,
    /// In the text of an attribute, with the quote that ends it.
    Quoted(char),
    /// In a closing tag.
    Close,
}

/// A reader of the value of a prop.
pub ghost struct ValueScan {
    pub kind: ValueKind,
    /// What was read of expressions.
    pub code: LineScan,
    pub tag: TagPlace,
    /// Whether the last character in a tag, but for white space, is a slash.
    pub slash: bool,
    /// How many angle brackets are open inside a tag.
    pub angle: int,
    /// How many elements are open.
    pub elements: int,
}

/// A reader at the beginning of a value: with `depth` brackets open, and at `tag`.
pub open spec fn value_start(kind: ValueKind, depth: int, tag: TagPlace) -> ValueScan {
    ValueScan {
        kind,
        code: LineScan { depth, ..scan_line(Seq::empty()) },
        tag,
        slash: false,
        angle: 0,
        elements: 0,
    }
}

/// The reader after one more character of an opening tag. Expressions in braces are
/// passed over; a tag that ends with a slash has no content.
pub open spec fn open_tag_step(v: ValueScan, c: char) -> ValueScan {
    let slash = c == '/' || (v.slash && is_white(c));
    if c == '{' {
        ValueScan { code: scan_step(v.code, c), slash, ..v }
    } else if c == '"' || c == '\'' {
        ValueScan { tag: TagPlace::Quoted(c), slash, ..v }
    } else if c == '<' {
        ValueScan { angle: v.angle + 1, slash, ..v }
    } else if c == '>' && v.angle > 0 {
        ValueScan { angle: v.angle - 1, slash, ..v }
    } else if c == '>' && v.slash {
        ValueScan { tag: TagPlace::Text, slash, ..v }
    } else if c == '>' {
        ValueScan { tag: TagPlace::Text, elements: v.elements + 1, slash, ..v }
    } else {
        ValueScan { slash, ..v }
    }
}

/// The reader of an element after one more character.
pub open spec fn element_step(v: ValueScan, c: char) -> ValueScan {
    if v.code.depth > 0 {
        ValueScan { code: scan_step(v.code, c), ..v }
    } else {
        match v.tag {
            TagPlace::Text => if c == '<' {
                ValueScan { tag: TagPlace::Begin, ..v }
            } else if c == '{' {
                ValueScan { code: scan_step(v.code, c), ..v }
            } else {
                v
            },
            TagPlace::Begin => if c == '/' {
                ValueScan { tag: TagPlace::Close, ..v }
            } else if c == '>' {
                ValueScan { tag: TagPlace::Text, elements: v.elements + 1, ..v }
            } else {
                ValueScan { tag: TagPlace::Open, slash: false, ..v }
            },
            TagPlace::Open => open_tag_step(v, c),
            TagPlace::Quoted(quote) => if c == quote {
                ValueScan { tag: TagPlace::Open, ..v }
            } else {
                v
            },
            TagPlace::Close => if c == '>' {
                ValueScan { tag: TagPlace::Text, elements: v.elements - 1, ..v }
            } else {
                v
            },
        }
    }
}

/// The reader of a value after one more character.
pub open spec fn value_step(v: ValueScan, c: char) -> ValueScan {
    match v.kind {
        ValueKind::Literal => if v.tag == TagPlace::Quoted(c) {
            ValueScan { tag: TagPlace::Text, ..v }
        } else {
            v
        },
        ValueKind::Element => element_step(v, c),
        _ => ValueScan { code: scan_step(v.code, c), ..v },
    }
}

pub open spec fn in_no_literal(code: LineScan) -> bool {
    !code.single && !code.double && !code.backtick
}

/// Whether a value that was read up to position `i` of a line ends there.
pub open spec fn value_ends(v: ValueScan, s: Seq<char>, i: int) -> bool {
    match v.kind {
        ValueKind::Literal => v.tag is Text,
        ValueKind::Braces => v.code.depth <= 0,
        ValueKind::Element => v.code.depth <= 0 && v.tag is Text && v.elements <= 0,
        ValueKind::Member => in_no_literal(v.code) && v.code.depth <= 0 && (begins_comment(s, i) || (
        0 <= i < s.len() && (s[i] == ',' || is_closer(s[i])))),
    }
}

/// The reader of a value at the beginning of the next line. Literals in an expression do
/// not go on there.
pub open spec fn next_line(v: ValueScan) -> ValueScan {
    ValueScan { code: LineScan { depth: v.code.depth, ..scan_line(Seq::empty()) }, ..v }
}

/// Where a prop ends.
pub ghost enum PropEnd {
    /// On the line, at this position.
    At(int),
    /// On a later line: this is how the value is read on.
    Open(ValueScan),
    /// Nowhere that can be told from the line.
    Unknown,
}

/// Where a value ends with its line, or does not: one that stands in no bracket ends.
pub open spec fn line_ends(v: ValueScan, s: Seq<char>) -> PropEnd {
    if !(v.kind is Member && v.code.depth <= 0) {
        PropEnd::Open(next_line(v))
    } else if in_no_literal(v.code) {
        PropEnd::At(s.len() as int)
    } else {
        PropEnd::Unknown
    }
}

/// Where a value ends that was read up to position `i` of a line.
pub open spec fn read_value(s: Seq<char>, i: int, v: ValueScan) -> PropEnd
    decreases s.len() - i,
{
    if value_ends(v, s, i) {
        PropEnd::At(i)
    } else if i < 0 || i >= s.len() {
        line_ends(v, s)
    } else {
        read_value(s, i + 1, value_step(v, s[i]))
    }
}

/// The end of a value that begins at `from`, without the white space before position `i`.
pub open spec fn value_end(s: Seq<char>, from: int, i: int) -> int
    decreases i - from,
{
    if from < i <= s.len() && is_white(s[i - 1]) {
        value_end(s, from, i - 1)
    } else {
        i
    }
}

/// Where the value ends that is read on a line from position `from` on. A comma behind it
/// belongs to it.
pub open spec fn end_on_line(s: Seq<char>, from: int, v: ValueScan) -> PropEnd {
    match read_value(s, from, v) {
        PropEnd::At(k) => PropEnd::At(comma_end(s, value_end(s, from, k))),
        other => other,
    }
}

/// Whether a name that this character follows stands alone, without a value.
pub open spec fn stands_alone(c: char) -> bool {
    is_name_char(c) || c == ',' || c == '/' || c == '>' || c == '{' || is_closer(c)
}

/// Where the prop ends whose name ends at position `n`: behind its value, or with its
/// name. One that the line begins with goes on up to the end of what follows it, whatever
/// that is.
pub open spec fn prop_end(s: Seq<char>, n: int, leading: bool) -> PropEnd {
    let q = white_end(s, n);
    let r = white_end(s, q + 1);
    if q >= s.len() {
        PropEnd::At(n)
    } else if s[q] == '=' {
        if r >= s.len() {
            PropEnd::Unknown
        } else if s[r] == '"' || s[r] == '\'' {
            end_on_line(s, r + 1, value_start(ValueKind::Literal, 0, TagPlace::Quoted(s[r])))
        } else if s[r] == '{' {
            end_on_line(s, r + 1, value_start(ValueKind::Braces, 1, TagPlace::Text))
        } else if s[r] == '<' {
            end_on_line(s, r + 1, value_start(ValueKind::Element, 0, TagPlace::Begin))
        } else if leading {
            end_on_line(s, r, value_start(ValueKind::Member, 0, TagPlace::Text))
        } else {
            PropEnd::Unknown
        }
    } else if s[q] == ':' {
        if r >= s.len() {
            PropEnd::Unknown
        } else {
            end_on_line(s, r, value_start(ValueKind::Member, 0, TagPlace::Text))
        }
    } else if stands_alone(s[q]) || !leading {
        PropEnd::At(comma_end(s, n))
    } else {
        end_on_line(s, q, value_start(ValueKind::Member, 0, TagPlace::Text))
    }
}

/// The line and the position on it at which the value ends that is read on from line `m`
/// on.
pub open spec fn ending_place(all: Seq<Seq<char>>, m: int, v: ValueScan) -> Option<(int, int)>
    decreases all.len() - m,
{
    if m < 0 || m >= all.len() {
        None
    } else {
        match end_on_line(all[m], 0, v) {
            PropEnd::At(k) => Some((m, k)),
            PropEnd::Open(next) => ending_place(all, m + 1, next),
            PropEnd::Unknown => None,
        }
    }
}

/// The first place from position `from` on where a prop stands inside a line, by the
/// expression for it: where the white space before it begins, and where its name ends.
/// Matches inside a literal, and those that a longer name goes on from, are passed over.
pub open spec fn inline_prop(s: Seq<char>, prop: Seq<char>, from: int) -> Option<(int, int)>
    decreases s.len() - from,
{
    if from < 0 || from > s.len() || prop.len() == 0 {
        None
    } else {
        let rest = s.skip(from);
        match regex_first(prop_expression(prop), rest) {
            Some((_, _, found)) => match find_from(rest, found, 0) {
                Some(k) => {
                    let start = from + k;
                    let name = white_end(s, start);
                    let n = name + prop.len();
                    let before = scan_line(s.take(start));
                    if n > s.len() || n <= from {
                        None
                    } else if name_ends(s, n) && !before.single && !before.double
                        && !before.backtick {
                        Some((start, n))
                    } else {
                        inline_prop(s, prop, n)
                    }
                },
                None => None,
            },
            None => None,
        }
    }
}

pub open spec fn remove_prop_text(prop: Seq<char>, rest: Seq<char>) -> Seq<char> {
    "Remove prop '"@ + prop + rest
}

pub open spec fn multi_line_text(prop: Seq<char>, k: nat) -> Seq<char> {
    "Remove prop '"@ + prop + "' (line "@ + decimal(k) + " of multi-line)"@
}

/// The removals of whole lines, from `start` up to and without `end`.
pub open spec fn line_removals(
    all: Seq<Seq<char>>,
    start: int,
    end: int,
    prop: Seq<char>,
    rule_id: Seq<char>,
) -> Seq<TextEditView>
    decreases end - start,
{
    if end <= start {
        Seq::empty()
    } else {
        line_removals(all, start, end - 1, prop, rule_id).push(
            removal(end as u32, all[end - 1], rule_id, multi_line_text(prop, (end - start) as nat)),
        )
    }
}

/// The expression that finds a prop with its value inside a line.
pub open spec fn prop_expression(prop: Seq<char>) -> Seq<char> {
    "\\s+"@ + prop + "(?:=\\{[^}]*\\}|=\"[^\"]*\"|='[^']*'|=\\{.*?\\})?"@
}

/// The edit of the last line of a prop that ends at position `end` of it: the whole
/// line, or only what belongs to the prop.
pub open spec fn last_cut(
    all: Seq<Seq<char>>,
    m: int,
    end: int,
    rule_id: Seq<char>,
    description: Seq<char>,
) -> TextEditView {
    if nothing_follows(all[m], end) {
        removal((m + 1) as u32, all[m], rule_id, description)
    } else {
        cut((m + 1) as u32, all[m], 0, white_end(all[m], end), rule_id, description)
    }
}

/// A fix without edits, for manual review.
pub open spec fn manual_removal(
    prop: Seq<char>,
    rest: Seq<char>,
    rule_id: Seq<char>,
    file_uri: Seq<char>,
    line: u32,
) -> PlannedFixView {
    removal_fix(Seq::empty(), rule_id, file_uri, line, remove_prop_text(prop, rest))
}

/// The fix that removes a prop that the line at position `idx` of a file begins with,
/// at position `p` of it: the whole line where nothing else but a comment stands on it,
/// else the prop alone. Of a prop of several lines, the last one keeps what does not belong to it.
pub open spec fn remove_leading_prop(
    all: Seq<Seq<char>>,
    idx: int,
    p: int,
    line: u32,
    prop: Seq<char>,
    rule_id: Seq<char>,
    file_uri: Seq<char>,
) -> PlannedFixView {
    let text = all[idx];
    match prop_end(text, p + prop.len(), true) {
        PropEnd::At(e) => removal_fix(
            seq![
                if nothing_follows(text, e) {
                    removal(line, text, rule_id, remove_prop_text(prop, "' (entire line)"@))
                } else {
                    cut(line, text, p, white_end(text, e), rule_id, remove_prop_text(prop, "'"@))
                },
            ],
            rule_id,
            file_uri,
            line,
            remove_prop_text(prop, "'"@),
        ),
        PropEnd::Open(v) => match ending_place(all, idx + 1, v) {
            Some((m, end)) => removal_fix(
                line_removals(all, idx, m, prop, rule_id).push(
                    last_cut(all, m, end, rule_id, multi_line_text(prop, (m - idx + 1) as nat)),
                ),
                rule_id,
                file_uri,
                line,
                "Remove prop '"@ + prop + "' ("@ + decimal((m - idx + 1) as nat) + " lines)"@,
            ),
            None => manual_removal(
                prop,
                "' (unbalanced brackets, manual)"@,
                rule_id,
                file_uri,
                line,
            ),
        },
        PropEnd::Unknown => manual_removal(prop, "' (manual)"@, rule_id, file_uri, line),
    }
}

/// The fix that removes a prop from the line at position `idx` of a file.
pub open spec fn remove_prop_at(
    all: Seq<Seq<char>>,
    idx: int,
    line: u32,
    prop: Seq<char>,
    rule_id: Seq<char>,
    file_uri: Seq<char>,
) -> Option<PlannedFixView> {
    let text = all[idx];
    let p = white_end(text, 0);
    if prop.len() > 0 && occurs_at(text, prop, p) && name_ends(text, p + prop.len()) {
        Some(remove_leading_prop(all, idx, p, line, prop, rule_id, file_uri))
    } else if regex_rejection(prop_expression(prop)) is Some {
        None
    } else {
        match inline_prop(text, prop, 0) {
            Some((start, n)) => match prop_end(text, n, false) {
                PropEnd::At(e) => Some(
                    removal_fix(
                        seq![cut(line, text, start, e, rule_id, remove_prop_text(prop, "'"@))],
                        rule_id,
                        file_uri,
                        line,
                        remove_prop_text(prop, "'"@),
                    ),
                ),
                _ => Some(
                    manual_removal(
                        prop,
                        "' (multi-line inline, manual)"@,
                        rule_id,
                        file_uri,
                        line,
                    ),
                ),
            },
            None => Some(manual_removal(prop, "' (manual)"@, rule_id, file_uri, line)),
        }
    }
}

/// The position of a line number, counted from one.
pub open spec fn line_position(line: u32) -> int {
    if line > 0 {
        line - 1
    } else {
        0
    }
}

/// The fix that removes the prop of an incident. There is none without a line
/// number, a prop name, a readable file or the line itself.
pub open spec fn remove_prop_of(
    rule_id: Seq<char>,
    incident: IncidentView,
    source: Option<Seq<char>>,
) -> Option<PlannedFixView> {
    match (incident.line_number, text_variable(incident.variables, "propName"@), source) {
        (Some(line), Some(prop), Some(text)) => {
            let all = lines(text);
            if line_position(line) < all.len() {
                remove_prop_at(all, line_position(line), line, prop, rule_id, incident.file_uri)
            } else {
                None
            }
        },
        _ => None,
    }
}

// ── Where brackets balance ──────────────────────────────────────────────

/// How many more brackets the lines from `from` up to and without `to` open than they
/// close.
pub open spec fn depth_between(all: Seq<Seq<char>>, from: int, to: int) -> int
    decreases to - from,
{
    if to <= from {
        0
    } else {
        depth_between(all, from, to - 1) + depth_of(all[to - 1])
    }
}

/// A scan that is in no literal, with `depth` brackets open.
spec fn flat_scan(depth: int) -> LineScan {
    LineScan { depth, ..scan_line(Seq::empty()) }
}

/// Whether a character leaves a scan that is in no literal as it is.
spec fn is_flat(c: char) -> bool {
    c != '\'' && c != '"' && c != '`' && c != '\\' && !is_opener(c) && !is_closer(c)
}

proof fn lemma_scan_flat(s: Seq<char>)
    requires
        forall|i: int| 0 <= i < s.len() ==> is_flat(#[trigger] s[i]),
    ensures
        scan_line(s) == flat_scan(0),
    decreases s.len(),
{
    if s.len() > 0 {
        assert(forall|i: int| 0 <= i < s.drop_last().len() ==> s.drop_last()[i] == s[i]);
        assert(is_flat(s[s.len() - 1]));
        lemma_scan_flat(s.drop_last());
    }
}

proof fn lemma_scan_concat(a: Seq<char>, b: Seq<char>)
    requires
        scan_line(a) == flat_scan(depth_of(a)),
    ensures
        scan_line(a + b) == (LineScan { depth: depth_of(a) + depth_of(b), ..scan_line(b) }),
    decreases b.len(),
{
    if b.len() == 0 {
        assert(a + b =~= a);
    } else {
        assert((a + b).drop_last() =~= a + b.drop_last());
        assert((a + b).last() == b.last());
        lemma_scan_concat(a, b.drop_last());
    }
}

/// Characters that are white space, or a comma, leave the depth as it is.
proof fn lemma_flat_rest(s: Seq<char>, from: int, k: int, j: int)
    requires
        0 <= from <= k <= j <= s.len(),
        in_no_literal(scan_line(s.subrange(from, k))),
        forall|x: int| k <= x < j ==> is_white(#[trigger] s[x]) || s[x] == ',',
    ensures
        in_no_literal(scan_line(s.subrange(from, j))),
        depth_of(s.subrange(from, j)) == depth_of(s.subrange(from, k)),
    decreases j - k,
{
    if k < j {
        lemma_flat_rest(s, from, k, j - 1);
        assert(s.subrange(from, j).drop_last() =~= s.subrange(from, j - 1));
        assert(is_white(s[j - 1]) || s[j - 1] == ',');
    }
}

proof fn lemma_white_end(s: Seq<char>, i: int)
    requires
        0 <= i <= s.len(),
    ensures
        i <= white_end(s, i) <= s.len(),
        forall|x: int| i <= x < white_end(s, i) ==> is_white(#[trigger] s[x]),
    decreases s.len() - i,
{
    if i < s.len() && is_white(s[i]) {
        lemma_white_end(s, i + 1);
    }
}

proof fn lemma_value_end(s: Seq<char>, from: int, i: int)
    requires
        0 <= from <= i <= s.len(),
    ensures
        from <= value_end(s, from, i) <= i,
        forall|x: int| value_end(s, from, i) <= x < i ==> is_white(#[trigger] s[x]),
    decreases i - from,
{
    if from < i && is_white(s[i - 1]) {
        lemma_value_end(s, from, i - 1);
    }
}

/// Where nothing but a comma stands behind a value, the depth at its end is that of the
/// whole line.
proof fn lemma_nothing_behind(s: Seq<char>, from: int, k: int)
    requires
        0 <= from <= k <= s.len(),
        in_no_literal(scan_line(s.subrange(from, k))),
        white_end(s, comma_end(s, value_end(s, from, k))) >= s.len(),
    ensures
        depth_of(s.subrange(from, s.len() as int)) == depth_of(s.subrange(from, k)),
{
    let e = value_end(s, from, k);
    lemma_value_end(s, from, k);
    lemma_white_end(s, e);
    lemma_white_end(s, comma_end(s, e));
    assert forall|x: int| k <= x < s.len() implies is_white(#[trigger] s[x]) || s[x] == ',' by {
        if x < white_end(s, e) {
        } else if x < comma_end(s, e) {
            assert(x == white_end(s, e));
        }
    }
    lemma_flat_rest(s, from, k, s.len() as int);
}

/// The reader of an expression has read what a scan has, with `d` brackets open before.
spec fn reads_as(s: Seq<char>, from: int, i: int, v: ValueScan, d: int) -> bool {
    &&& 0 <= from <= i <= s.len()
    &&& v.kind is Braces || v.kind is Member
    &&& v.code == LineScan {
        depth: d + depth_of(s.subrange(from, i)),
        ..scan_line(s.subrange(from, i))
    }
    &&& v.kind is Braces && v.code.depth <= 0 ==> in_no_literal(v.code)
}

proof fn lemma_read_value(s: Seq<char>, from: int, i: int, v: ValueScan, d: int)
    requires
        reads_as(s, from, i, v, d),
    ensures
        match read_value(s, i, v) {
            PropEnd::At(k) => i <= k <= s.len() && d + depth_of(s.subrange(from, k)) <= 0
                && in_no_literal(scan_line(s.subrange(from, k))),
            PropEnd::Open(w) => w.kind == v.kind && w.code.depth > 0 && w.code == flat_scan(
                d + depth_of(s.subrange(from, s.len() as int)),
            ),
            PropEnd::Unknown => v.kind is Member,
        },
    decreases s.len() - i,
{
    if !value_ends(v, s, i) && i < s.len() {
        assert(s.subrange(from, i + 1).drop_last() =~= s.subrange(from, i));
        lemma_read_value(s, from, i + 1, value_step(v, s[i]), d);
    }
}

/// What is known of the place where an expression ends that is read on from line `m` on,
/// and began on line `idx`.
proof fn lemma_ending_place(all: Seq<Seq<char>>, idx: int, m: int, v: ValueScan)
    requires
        0 <= idx < m <= all.len(),
        v.kind is Braces || v.kind is Member,
        v.code == flat_scan(depth_between(all, idx, m)),
        forall|j: int| idx < j <= m ==> #[trigger] depth_between(all, idx, j) > 0,
    ensures
        match ending_place(all, m, v) {
            Some((last, end)) => m <= last < all.len() && (forall|j: int|
                idx < j <= last ==> #[trigger] depth_between(all, idx, j) > 0) && (white_end(
                all[last],
                end,
            ) >= all[last].len() ==> depth_between(all, idx, last + 1) <= 0),
            None => v.kind is Braces ==> forall|j: int|
                idx < j <= all.len() ==> #[trigger] depth_between(all, idx, j) > 0,
        },
    decreases all.len() - m,
{
    if m < all.len() {
        let s = all[m];
        let d = depth_between(all, idx, m);
        assert(s.subrange(0, 0) =~= Seq::empty());
        assert(s.subrange(0, s.len() as int) =~= s);
        lemma_read_value(s, 0, 0, v, d);
        assert(depth_between(all, idx, m + 1) == d + depth_of(s));
        match read_value(s, 0, v) {
            PropEnd::At(k) => {
                if white_end(s, comma_end(s, value_end(s, 0, k))) >= s.len() {
                    lemma_nothing_behind(s, 0, k);
                }
            },
            PropEnd::Open(w) => {
                assert(depth_between(all, idx, m + 1) > 0);
                lemma_ending_place(all, idx, m + 1, w);
            },
            PropEnd::Unknown => {},
        }
    }
}

/// The reader with which the value of a prop is read on has counted the brackets of the
/// first line.
proof fn lemma_first_line(s: Seq<char>, p: int, prop: Seq<char>)
    requires
        p == white_end(s, 0),
        occurs_at(s, prop, p),
        forall|i: int| 0 <= i < prop.len() ==> is_name_char(#[trigger] prop[i]),
    ensures
        prop_end(s, p + prop.len(), true) matches PropEnd::Open(v) ==> (v.kind is Braces
            || v.kind is Member) ==> v.code.depth > 0 && v.code == flat_scan(depth_of(s)),
{
    let n = p + prop.len();
    lemma_white_end(s, 0);
    lemma_white_end(s, n);
    let q = white_end(s, n);
    assert forall|i: int| 0 <= i < q implies is_flat(#[trigger] s[i]) by {
        if p <= i < n {
            assert(s.subrange(p, n)[i - p] == s[i]);
            assert(is_name_char(prop[i - p]));
        }
    }
    if q < s.len() {
        lemma_white_end(s, q + 1);
        let r = white_end(s, q + 1);
        lemma_scan_flat(s.take(q));
        if s[q] == '=' || s[q] == ':' {
            if r < s.len() {
                assert(forall|i: int| 0 <= i < r ==> is_flat(#[trigger] s[i]));
                lemma_scan_flat(s.take(r));
                if s[q] == '=' && s[r] == '{' {
                    assert(s.take(r + 1).drop_last() =~= s.take(r));
                    lemma_read_from(s, r + 1, value_start(ValueKind::Braces, 1, TagPlace::Text), 1);
                } else if s[q] == '=' && s[r] == '<' {
                    lemma_kind_is_kept(
                        s,
                        r + 1,
                        value_start(ValueKind::Element, 0, TagPlace::Begin),
                    );
                } else if s[q] == '=' && (s[r] == '"' || s[r] == '\'') {
                    lemma_kind_is_kept(
                        s,
                        r + 1,
                        value_start(ValueKind::Literal, 0, TagPlace::Quoted(s[r])),
                    );
                } else {
                    lemma_read_from(s, r, value_start(ValueKind::Member, 0, TagPlace::Text), 0);
                }
            }
        } else {
            lemma_read_from(s, q, value_start(ValueKind::Member, 0, TagPlace::Text), 0);
        }
    }
}

proof fn lemma_read_from(s: Seq<char>, from: int, v: ValueScan, d: int)
    requires
        0 <= from <= s.len(),
        v.kind is Braces || v.kind is Member,
        v.code == flat_scan(d),
        scan_line(s.take(from)) == flat_scan(d),
    ensures
        read_value(s, from, v) matches PropEnd::Open(w) ==> w.code.depth > 0 && w.code == flat_scan(
            depth_of(s),
        ),
{
    let rest = s.subrange(from, s.len() as int);
    assert(s.subrange(from, from) =~= Seq::empty());
    lemma_read_value(s, from, from, v, d);
    lemma_scan_concat(s.take(from), rest);
    assert(s.take(from) + rest =~= s);
}

proof fn lemma_kind_is_kept(s: Seq<char>, i: int, v: ValueScan)
    ensures
        read_value(s, i, v) matches PropEnd::Open(w) ==> w.kind == v.kind,
    decreases s.len() - i,
{
    if !value_ends(v, s, i) && 0 <= i < s.len() {
        lemma_kind_is_kept(s, i + 1, value_step(v, s[i]));
    }
}

proof fn lemma_ends_later(all: Seq<Seq<char>>, m: int, v: ValueScan)
    requires
        0 <= m,
    ensures
        ending_place(all, m, v) matches Some((last, _)) ==> m <= last < all.len(),
    decreases all.len() - m,
{
    if m < all.len() {
        if let PropEnd::Open(next) = end_on_line(all[m], 0, v) {
            lemma_ends_later(all, m + 1, next);
        }
    }
}

/// Of a prop of several lines that a line begins with, each line is removed as a whole,
/// with high confidence, where nothing else but a comment stands on its last line. Where
/// its end is not found, nothing is removed.
pub proof fn lines_of_a_prop_are_removed(
    all: Seq<Seq<char>>,
    idx: int,
    p: int,
    line: u32,
    prop: Seq<char>,
    rule_id: Seq<char>,
    file_uri: Seq<char>,
)
    requires
        0 <= idx < all.len(),
        prop_end(all[idx], p + prop.len(), true) is Open,
    ensures
        ({
            let v = prop_end(all[idx], p + prop.len(), true)->Open_0;
            let fix = remove_leading_prop(all, idx, p, line, prop, rule_id, file_uri);
            match ending_place(all, idx + 1, v) {
                Some((m, end)) => {
                    &&& idx < m < all.len()
                    &&& fix.confidence == FixConfidence::High
                    &&& nothing_follows(all[m], end) ==> fix.edits == line_removals(
                        all,
                        idx,
                        m + 1,
                        prop,
                        rule_id,
                    )
                },
                None => fix.confidence == FixConfidence::Low && fix.edits.len() == 0,
            }
        }),
{
    let v = prop_end(all[idx], p + prop.len(), true)->Open_0;
    lemma_ends_later(all, idx + 1, v);
}

/// A prop whose value is an expression of several lines goes up to the first line after
/// which as many brackets are closed as were opened from its first line on, where nothing
/// else stands on that line. Where there is no such line, the end of a value in braces is
/// not found.
pub proof fn props_end_where_brackets_balance(all: Seq<Seq<char>>, idx: int, prop: Seq<char>)
    requires
        0 <= idx < all.len(),
        occurs_at(all[idx], prop, white_end(all[idx], 0)),
        forall|i: int| 0 <= i < prop.len() ==> is_name_char(#[trigger] prop[i]),
        prop_end(all[idx], white_end(all[idx], 0) + prop.len(), true) matches PropEnd::Open(v) && (
        v.kind is Braces || v.kind is Member),
    ensures
        ({
            let v = prop_end(all[idx], white_end(all[idx], 0) + prop.len(), true)->Open_0;
            match ending_place(all, idx + 1, v) {
                Some((m, end)) => {
                    &&& forall|j: int| idx < j <= m ==> #[trigger] depth_between(all, idx, j) > 0
                    &&& white_end(all[m], end) >= all[m].len() ==> depth_between(all, idx, m + 1)
                        <= 0
                },
                None => v.kind is Braces ==> forall|j: int|
                    idx < j <= all.len() ==> #[trigger] depth_between(all, idx, j) > 0,
            }
        }),
{
    let p = white_end(all[idx], 0);
    let v = prop_end(all[idx], p + prop.len(), true)->Open_0;
    lemma_first_line(all[idx], p, prop);
    reveal_with_fuel(depth_between, 2);
    assert(depth_between(all, idx, idx + 1) == depth_of(all[idx]));
    lemma_ending_place(all, idx, idx + 1, v);
}

// ── The same, computed ──────────────────────────────────────────────────

/// The total length of lines.
pub open spec fn total_len(all: Seq<Seq<char>>) -> nat
    decreases all.len(),
{
    if all.len() == 0 {
        0
    } else {
        total_len(all.drop_last()) + all.last().len()
    }
}

proof fn lemma_total_len_prepend(x: Seq<char>, rest: Seq<Seq<char>>)
    ensures
        total_len(seq![x] + rest) == x.len() + total_len(rest),
    decreases rest.len(),
{
    let all = seq![x] + rest;
    reveal_with_fuel(total_len, 2);
    if rest.len() == 0 {
        assert(all.drop_last() =~= Seq::empty());
        assert(all.last() == x);
    } else {
        assert(all.drop_last() =~= seq![x] + rest.drop_last());
        lemma_total_len_prepend(x, rest.drop_last());
    }
}

proof fn lemma_lines_total(s: Seq<char>, start: int, i: int)
    requires
        0 <= start <= i <= s.len(),
    ensures
        total_len(lines_from(s, start, i)) <= s.len() - start,
    decreases s.len() - i,
{
    if i >= s.len() {
        if start < s.len() {
            let one = seq![s.subrange(start, s.len() as int)];
            assert(one.drop_last() =~= Seq::empty());
        }
    } else if s[i] == '\n' {
        lemma_lines_total(s, i + 1, i + 1);
        lemma_total_len_prepend(
            strip_cr(s.subrange(start, i)),
            lines_from(s, i + 1, i + 1),
        );
    } else {
        lemma_lines_total(s, start, i + 1);
    }
}

proof fn lemma_total_len_take(all: Seq<Seq<char>>, n: int)
    requires
        0 <= n <= all.len(),
    ensures
        total_len(all.take(n)) <= total_len(all),
    decreases all.len() - n,
{
    if n < all.len() {
        assert(all.take(n + 1).drop_last() =~= all.take(n));
        lemma_total_len_take(all, n + 1);
    } else {
        assert(all.take(n) =~= all);
    }
}

/// Finds the end of white space.
fn find_white_end(c: &[char], from: usize) -> (r: usize)
    ensures
        r == white_end(c@, from as int),
        from <= r,
        from <= c@.len() ==> r <= c@.len(),
{
    let mut i: usize = from;
    while i < c.len() && white(c[i])
        invariant
            from <= i,
            from <= c@.len() ==> i <= c@.len(),
            white_end(c@, from as int) == white_end(c@, i as int),
        decreases c@.len() - i,
    {
        i = i + 1;
    }
    i
}

fn find_comma_end(c: &[char], from: usize) -> (r: usize)
    requires
        from <= c@.len(),
    ensures
        r == comma_end(c@, from as int),
        from <= r <= c@.len(),
{
    let w: usize = find_white_end(c, from);
    if w < c.len() && c[w] == ',' {
        w + 1
    } else {
        from
    }
}

fn name_char(c: char) -> (r: bool)
    ensures
        r == is_name_char(c),
{
    let n = c as u32;
    (48 <= n && n <= 57) || (65 <= n && n <= 90) || (97 <= n && n <= 122) || n == 36 || n == 45 || n
        == 95 || n >= 128
}

fn ends_name(c: &[char], i: usize) -> (r: bool)
    ensures
        r == name_ends(c@, i as int),
{
    !(i < c.len() && name_char(c[i]))
}

fn comment_begins(c: &[char], i: usize) -> (r: bool)
    ensures
        r == begins_comment(c@, i as int),
{
    let length: usize = c.len();
    i < length && length - i > 1 && c[i] == '/' && c[i + 1] == '/'
}

/// A reader of the value of a prop, as `ValueScan` says.
struct Reader {
    kind: ValueKind,
    code: Scan,
    tag: TagPlace,
    slash: bool,
    angle: i128,
    elements: i128,
}

impl Reader {
    spec fn view(&self) -> ValueScan {
        ValueScan {
            kind: self.kind,
            code: self.code@,
            tag: self.tag,
            slash: self.slash,
            angle: self.angle as int,
            elements: self.elements as int,
        }
    }

    /// Whether no count exceeds `n`.
    spec fn within(&self, n: int) -> bool {
        &&& -n <= self.code.depth <= n
        &&& -n <= self.angle <= n
        &&& -n <= self.elements <= n
    }

    fn start(kind: ValueKind, depth: i128, tag: TagPlace) -> (r: Reader)
        requires
            0 <= depth <= 1,
        ensures
            r@ == value_start(kind, depth as int, tag),
            r.within(depth as int),
    {
        let mut code = Scan::start();
        code.depth = depth;
        Reader { kind, code, tag, slash: false, angle: 0, elements: 0 }
    }

    fn open_tag_step(&mut self, c: char, Ghost(n): Ghost<int>)
        requires
            old(self).within(n),
            0 <= n < i128::MAX,
        ensures
            final(self)@ == open_tag_step(old(self)@, c),
            final(self).within(n + 1),
    {
        let after_slash = self.slash;
        self.slash = c == '/' || (after_slash && white(c));
        if c == '{' {
            self.code.step(c);
        } else if c == '"' || c == '\'' {
            self.tag = TagPlace::Quoted(c);
        } else if c == '<' {
            self.angle = self.angle + 1;
        } else if c == '>' && self.angle > 0 {
            self.angle = self.angle - 1;
        } else if c == '>' && after_slash {
            self.tag = TagPlace::Text;
        } else if c == '>' {
            self.tag = TagPlace::Text;
            self.elements = self.elements + 1;
        }
    }

    fn element_step(&mut self, c: char, Ghost(n): Ghost<int>)
        requires
            old(self).within(n),
            0 <= n < i128::MAX,
        ensures
            final(self)@ == element_step(old(self)@, c),
            final(self).within(n + 1),
    {
        if self.code.depth > 0 {
            self.code.step(c);
        } else {
            match self.tag {
                TagPlace::Text => {
                    if c == '<' {
                        self.tag = TagPlace::Begin;
                    } else if c == '{' {
                        self.code.step(c);
                    }
                },
                TagPlace::Begin => {
                    if c == '/' {
                        self.tag = TagPlace::Close;
                    } else if c == '>' {
                        self.tag = TagPlace::Text;
                        self.elements = self.elements + 1;
                    } else {
                        self.tag = TagPlace::Open;
                        self.slash = false;
                    }
                },
                TagPlace::Open => {
                    self.open_tag_step(c, Ghost(n));
                },
                TagPlace::Quoted(quote) => {
                    if c == quote {
                        self.tag = TagPlace::Open;
                    }
                },
                TagPlace::Close => {
                    if c == '>' {
                        self.tag = TagPlace::Text;
                        self.elements = self.elements - 1;
                    }
                },
            }
        }
    }

    fn step(&mut self, c: char, Ghost(n): Ghost<int>)
        requires
            old(self).within(n),
            0 <= n < i128::MAX,
        ensures
            final(self)@ == value_step(old(self)@, c),
            final(self).within(n + 1),
    {
        match self.kind {
            ValueKind::Literal => {
                if let TagPlace::Quoted(quote) = self.tag {
                    if c == quote {
                        self.tag = TagPlace::Text;
                    }
                }
            },
            ValueKind::Element => {
                self.element_step(c, Ghost(n));
            },
            _ => {
                self.code.step(c);
            },
        }
    }

    fn in_no_literal(&self) -> (r: bool)
        ensures
            r == in_no_literal(self@.code),
    {
        !self.code.single && !self.code.double && !self.code.backtick
    }

    fn ends(&self, c: &[char], i: usize) -> (r: bool)
        ensures
            r == value_ends(self@, c@, i as int),
    {
        match self.kind {
            ValueKind::Literal => matches!(self.tag, TagPlace::Text),
            ValueKind::Braces => self.code.depth <= 0,
            ValueKind::Element => self.code.depth <= 0 && matches!(self.tag, TagPlace::Text)
                && self.elements <= 0,
            ValueKind::Member => self.in_no_literal() && self.code.depth <= 0 && (comment_begins(c, i)
                || (i < c.len() && (c[i] == ',' || c[i] == ')' || c[i] == '}' || c[i] == ']'))),
        }
    }

    fn turn_line(&mut self)
        ensures
            final(self)@ == next_line(old(self)@),
            forall|n: int| old(self).within(n) ==> #[trigger] final(self).within(n),
    {
        let depth: i128 = self.code.depth;
        self.code = Scan::start();
        self.code.depth = depth;
    }
}

/// Where a prop ends, as `PropEnd` says.
enum Ending {
    At(usize),
    Open(Reader),
    Unknown,
}

impl Ending {
    spec fn view(&self) -> PropEnd {
        match self {
            Ending::At(i) => PropEnd::At(*i as int),
            Ending::Open(v) => PropEnd::Open(v@),
            Ending::Unknown => PropEnd::Unknown,
        }
    }

    /// Whether it is between two positions of a line, and no count exceeds `n`.
    spec fn within(&self, from: int, to: int, n: int) -> bool {
        match self {
            Ending::At(i) => from <= *i <= to,
            Ending::Open(v) => v.within(n),
            Ending::Unknown => true,
        }
    }
}

/// Finds where a value ends on a line. `base` bounds the counts before the line.
fn find_read_value(c: &[char], from: usize, reader: Reader, Ghost(base): Ghost<int>) -> (r: Ending)
    requires
        from <= c@.len(),
        reader.within(base + from),
        0 <= base,
        base + c@.len() <= usize::MAX,
    ensures
        r@ == read_value(c@, from as int, reader@),
        r.within(from as int, c@.len() as int, base + c@.len()),
{
    let mut v = reader;
    let mut i: usize = from;
    while i < c.len()
        invariant
            from <= i <= c@.len(),
            v.within(base + i),
            0 <= base,
            base + c@.len() <= usize::MAX,
            read_value(c@, from as int, reader@) == read_value(c@, i as int, v@),
        decreases c@.len() - i,
    {
        if v.ends(c, i) {
            return Ending::At(i);
        }
        v.step(c[i], Ghost(base + i));
        i = i + 1;
    }
    if v.ends(c, i) {
        return Ending::At(i);
    }
    let member = matches!(v.kind, ValueKind::Member);
    if !(member && v.code.depth <= 0) {
        v.turn_line();
        Ending::Open(v)
    } else if v.in_no_literal() {
        Ending::At(c.len())
    } else {
        Ending::Unknown
    }
}

fn find_value_end(c: &[char], from: usize, end: usize) -> (r: usize)
    requires
        from <= end <= c@.len(),
    ensures
        r == value_end(c@, from as int, end as int),
        from <= r <= end,
{
    let mut i: usize = end;
    while i > from && white(c[i - 1])
        invariant
            from <= i <= end <= c@.len(),
            value_end(c@, from as int, end as int) == value_end(c@, from as int, i as int),
        decreases i,
    {
        i = i - 1;
    }
    i
}

fn find_end_on_line(c: &[char], from: usize, reader: Reader, Ghost(base): Ghost<int>) -> (r: Ending)
    requires
        from <= c@.len(),
        reader.within(base + from),
        0 <= base,
        base + c@.len() <= usize::MAX,
    ensures
        r@ == end_on_line(c@, from as int, reader@),
        r.within(from as int, c@.len() as int, base + c@.len()),
{
    match find_read_value(c, from, reader, Ghost(base)) {
        Ending::At(k) => Ending::At(find_comma_end(c, find_value_end(c, from, k))),
        other => other,
    }
}

fn find_prop_end(c: &[char], n: usize, leading: bool) -> (r: Ending)
    requires
        n <= c@.len(),
    ensures
        r@ == prop_end(c@, n as int, leading),
        r.within(n as int, c@.len() as int, c@.len() as int),
{
    let q: usize = find_white_end(c, n);
    if q >= c.len() {
        return Ending::At(n);
    }
    let mark: char = c[q];
    if mark == '=' || mark == ':' {
        let r: usize = find_white_end(c, q + 1);
        if r >= c.len() {
            return Ending::Unknown;
        }
        let first: char = c[r];
        if mark == '=' && (first == '"' || first == '\'') {
            let reader = Reader::start(ValueKind::Literal, 0, TagPlace::Quoted(first));
            find_end_on_line(c, r + 1, reader, Ghost(0))
        } else if mark == '=' && first == '{' {
            let reader = Reader::start(ValueKind::Braces, 1, TagPlace::Text);
            find_end_on_line(c, r + 1, reader, Ghost(0))
        } else if mark == '=' && first == '<' {
            let reader = Reader::start(ValueKind::Element, 0, TagPlace::Begin);
            find_end_on_line(c, r + 1, reader, Ghost(0))
        } else if mark == ':' || leading {
            let reader = Reader::start(ValueKind::Member, 0, TagPlace::Text);
            find_end_on_line(c, r, reader, Ghost(0))
        } else {
            Ending::Unknown
        }
    } else if !leading || name_char(mark) || mark == ',' || mark == '/' || mark == '>' || mark == '{'
        || mark == ')' || mark == '}' || mark == ']' {
        Ending::At(find_comma_end(c, n))
    } else {
        let reader = Reader::start(ValueKind::Member, 0, TagPlace::Text);
        find_end_on_line(c, q, reader, Ghost(0))
    }
}

/// Finds where the value ends that is read on from line `first` on. No count exceeds the
/// length of the lines before it.
fn find_ending_place(all: &Vec<String>, first: usize, reader: Reader, Ghost(source): Ghost<
    Seq<char>,
>) -> (r: Option<(usize, usize)>)
    requires
        first <= all@.len(),
        texts(all@) == lines(source),
        source.len() <= usize::MAX,
        reader.within(total_len(texts(all@).take(first as int)) as int),
    ensures
        match r {
            Some(p) => ending_place(texts(all@), first as int, reader@) == Some(
                (p.0 as int, p.1 as int),
            ) && first <= p.0 < all@.len() && p.1 <= all@[p.0 as int]@.len(),
            None => ending_place(texts(all@), first as int, reader@) is None,
        },
{
    let ghost all_lines = texts(all@);
    let mut m: usize = first;
    let mut v = reader;
    proof {
        lemma_lines_total(source, 0, 0);
    }
    while m < all.len()
        invariant
            first <= m <= all@.len(),
            all_lines == texts(all@),
            all_lines == lines(source),
            source.len() <= usize::MAX,
            total_len(all_lines) <= source.len(),
            ending_place(all_lines, first as int, reader@) == ending_place(
                all_lines,
                m as int,
                v@,
            ),
            v.within(total_len(all_lines.take(m as int)) as int),
        decreases all@.len() - m,
    {
        let ghost base = total_len(all_lines.take(m as int)) as int;
        proof {
            lemma_total_len_take(all_lines, m + 1);
            assert(all_lines.take(m + 1).drop_last() =~= all_lines.take(m as int));
        }
        let c = chars_of(all[m].as_str());
        assert(all_lines[m as int] == c@);
        match find_end_on_line(c.as_slice(), 0, v, Ghost(base)) {
            Ending::At(k) => {
                return Some((m, k));
            },
            Ending::Open(next) => {
                v = next;
            },
            Ending::Unknown => {
                return None;
            },
        }
        m = m + 1;
    }
    None
}

fn find_inline_prop(c: &[char], prop: &str, re: &regex::Regex) -> (r: Option<(usize, usize)>)
    requires
        crate::pattern::regex_text(*re) == prop_expression(prop@),
    ensures
        match r {
            Some(p) => inline_prop(c@, prop@, 0) == Some((p.0 as int, p.1 as int)) && p.0 <= p.1
                <= c@.len(),
            None => inline_prop(c@, prop@, 0) is None,
        },
{
    let p = chars_of(prop);
    if p.len() == 0 {
        return None;
    }
    let mut from: usize = 0;
    loop
        invariant
            from <= c@.len(),
            p@ == prop@,
            p@.len() > 0,
            crate::pattern::regex_text(*re) == prop_expression(prop@),
            inline_prop(c@, prop@, 0) == inline_prop(c@, prop@, from as int),
        decreases c@.len() - from,
    {
        let rest = &c[from..c.len()];
        assert(rest@ =~= c@.skip(from as int));
        let found = match regex_find(re, string_of(rest).as_str()) {
            Some(m) => chars_of(m.text.as_str()),
            None => {
                return None;
            },
        };
        let k: usize = match find_chars(rest, found.as_slice(), 0) {
            Some(k) => k,
            None => {
                return None;
            },
        };
        let start: usize = from + k;
        let name: usize = find_white_end(c, start);
        if p.len() > c.len() - name {
            return None;
        }
        let n: usize = name + p.len();
        if n <= from {
            return None;
        }
        let before = scan_between(c, 0, start);
        assert(c@.subrange(0, start as int) =~= c@.take(start as int));
        if ends_name(c, n) && !before.single && !before.double && !before.backtick {
            return Some((start, n));
        }
        from = n;
    }
}

fn make_removal(line: u32, old_text: &str, rule_id: &str, description: String) -> (r: TextEdit)
    ensures
        r@ == removal(line, old_text@, rule_id@, description@),
{
    TextEdit {
        line,
        old_text: old_text.to_owned(),
        new_text: String::new(),
        rule_id: rule_id.to_owned(),
        description,
        replace_all: false,
    }
}

fn make_cut(
    line: u32,
    text: &str,
    from: usize,
    to: usize,
    rule_id: &str,
    description: String,
) -> (r: TextEdit)
    requires
        from <= to <= text@.len(),
    ensures
        r@ == cut(line, text@, from as int, to as int, rule_id@, description@),
{
    let c = chars_of(text);
    let piece = &c[from..to];
    assert(piece@ =~= text@.subrange(from as int, to as int));
    let first: bool = match find_chars(c.as_slice(), piece, 0) {
        Some(k) => k == from,
        None => false,
    };
    if first {
        let old_text = string_of(piece);
        make_removal(line, old_text.as_str(), rule_id, description)
    } else {
        let upto = &c[0..to];
        let before = &c[0..from];
        assert(upto@ =~= text@.take(to as int));
        assert(before@ =~= text@.take(from as int));
        TextEdit {
            line,
            old_text: string_of(upto),
            new_text: string_of(before),
            rule_id: rule_id.to_owned(),
            description,
            replace_all: false,
        }
    }
}

fn make_removal_fix(
    edits: Vec<TextEdit>,
    rule_id: &str,
    file_uri: &str,
    line: u32,
    description: String,
) -> (r: PlannedFix)
    ensures
        r@ == removal_fix(edit_views(edits@), rule_id@, file_uri@, line, description@),
{
    PlannedFix {
        confidence: if edits.len() > 0 {
            FixConfidence::High
        } else {
            FixConfidence::Low
        },
        edits,
        source: FixSource::Pattern,
        rule_id: rule_id.to_owned(),
        file_uri: file_uri.to_owned(),
        line,
        description,
    }
}

fn one_edit(e: TextEdit) -> (r: Vec<TextEdit>)
    ensures
        edit_views(r@) == seq![e@],
{
    let mut v: Vec<TextEdit> = Vec::new();
    v.push(e);
    assert(edit_views(v@) =~= seq![e@]);
    v
}

fn no_edits() -> (r: Vec<TextEdit>)
    ensures
        edit_views(r@) == Seq::<TextEditView>::empty(),
{
    let v: Vec<TextEdit> = Vec::new();
    assert(edit_views(v@) =~= Seq::<TextEditView>::empty());
    v
}

fn prop_text(prop: &str, rest: &str) -> (r: String)
    ensures
        r@ == remove_prop_text(prop@, rest@),
{
    cat3("Remove prop '", prop, rest)
}

fn make_line_removals(
    all: &Vec<String>,
    start: usize,
    end: usize,
    prop: &str,
    rule_id: &str,
) -> (r: Vec<TextEdit>)
    requires
        start <= end <= all@.len(),
    ensures
        edit_views(r@) == line_removals(texts(all@), start as int, end as int, prop@, rule_id@),
{
    let mut out: Vec<TextEdit> = Vec::new();
    let mut i: usize = start;
    assert(edit_views(out@) =~= Seq::<TextEditView>::empty());
    while i < end
        invariant
            start <= i <= end <= all@.len(),
            edit_views(out@) == line_removals(
                texts(all@),
                start as int,
                i as int,
                prop@,
                rule_id@,
            ),
        decreases end - i,
    {
        let numeral = decimal_text((i - start) as u64 + 1);
        let description = cat5(
            "Remove prop '",
            prop,
            "' (line ",
            numeral.as_str(),
            " of multi-line)",
        );
        let edit = make_removal((i + 1) as u32, all[i].as_str(), rule_id, description);
        let ghost before = out@;
        out.push(edit);
        assert(edit_views(out@) =~= edit_views(before).push(edit@));
        i = i + 1;
    }
    out
}

fn make_manual_removal(prop: &str, rest: &str, rule_id: &str, file_uri: &str, line: u32) -> (r:
    PlannedFix)
    ensures
        r@ == manual_removal(prop@, rest@, rule_id@, file_uri@, line),
{
    make_removal_fix(no_edits(), rule_id, file_uri, line, prop_text(prop, rest))
}

fn make_last_cut(all: &Vec<String>, m: usize, end: usize, rule_id: &str, description: String) -> (r:
    TextEdit)
    requires
        m < all@.len(),
        end <= all@[m as int]@.len(),
    ensures
        r@ == last_cut(texts(all@), m as int, end as int, rule_id@, description@),
{
    let total: usize = all.len();
    let text = all[m].as_str();
    assert(texts(all@)[m as int] == text@);
    assert(m < total);
    let c = chars_of(text);
    let w: usize = find_white_end(c.as_slice(), end);
    if w >= c.len() || comment_begins(c.as_slice(), w) {
        make_removal((m + 1) as u32, text, rule_id, description)
    } else {
        make_cut((m + 1) as u32, text, 0, w, rule_id, description)
    }
}

fn plan_leading_prop(
    all: &Vec<String>,
    idx: usize,
    p: usize,
    line: u32,
    prop: &str,
    rule_id: &str,
    file_uri: &str,
    Ghost(source): Ghost<Seq<char>>,
) -> (r: PlannedFix)
    requires
        idx < all@.len(),
        p + prop@.len() <= all@[idx as int]@.len(),
        texts(all@) == lines(source),
        source.len() <= usize::MAX,
    ensures
        r@ == remove_leading_prop(
            texts(all@),
            idx as int,
            p as int,
            line,
            prop@,
            rule_id@,
            file_uri@,
        ),
{
    let text = all[idx].as_str();
    let ghost all_lines = texts(all@);
    assert(all_lines[idx as int] == text@);
    let c = chars_of(text);
    let length: usize = c.len();
    let count: usize = all.len();
    assert(idx < count);
    let n: usize = p + chars_of(prop).len();
    match find_prop_end(c.as_slice(), n, true) {
        Ending::At(e) => {
            let w: usize = find_white_end(c.as_slice(), e);
            let edit = if w >= length || comment_begins(c.as_slice(), w) {
                make_removal(line, text, rule_id, prop_text(prop, "' (entire line)"))
            } else {
                make_cut(line, text, p, w, rule_id, prop_text(prop, "'"))
            };
            make_removal_fix(one_edit(edit), rule_id, file_uri, line, prop_text(prop, "'"))
        },
        Ending::Open(v) => {
            proof {
                assert(all_lines.take(idx + 1).drop_last() =~= all_lines.take(idx as int));
            }
            match find_ending_place(all, idx + 1, v, Ghost(source)) {
                Some((m, end)) => {
                    let numeral = decimal_text((m - idx) as u64 + 1);
                    let mut edits = make_line_removals(all, idx, m, prop, rule_id);
                    let ghost before = edits@;
                    let description = cat5(
                        "Remove prop '",
                        prop,
                        "' (line ",
                        numeral.as_str(),
                        " of multi-line)",
                    );
                    let edit = make_last_cut(all, m, end, rule_id, description);
                    edits.push(edit);
                    assert(edit_views(edits@) =~= edit_views(before).push(edit@));
                    let summary = cat5("Remove prop '", prop, "' (", numeral.as_str(), " lines)");
                    make_removal_fix(edits, rule_id, file_uri, line, summary)
                },
                None => make_manual_removal(
                    prop,
                    "' (unbalanced brackets, manual)",
                    rule_id,
                    file_uri,
                    line,
                ),
            }
        },
        Ending::Unknown => make_manual_removal(prop, "' (manual)", rule_id, file_uri, line),
    }
}

fn plan_remove_prop_at(
    all: &Vec<String>,
    idx: usize,
    line: u32,
    prop: &str,
    rule_id: &str,
    file_uri: &str,
    Ghost(source): Ghost<Seq<char>>,
) -> (r: Option<PlannedFix>)
    requires
        idx < all@.len(),
        texts(all@) == lines(source),
        source.len() <= usize::MAX,
    ensures
        opt_fix(r) == remove_prop_at(
            texts(all@),
            idx as int,
            line,
            prop@,
            rule_id@,
            file_uri@,
        ),
{
    let text = all[idx].as_str();
    assert(texts(all@)[idx as int] == text@);
    let c = chars_of(text);
    let name = chars_of(prop);
    let p: usize = find_white_end(c.as_slice(), 0);
    if name.len() > 0 && occurs_at_chars(c.as_slice(), name.as_slice(), p) && ends_name(
        c.as_slice(),
        p + name.len(),
    ) {
        return Some(
            plan_leading_prop(all, idx, p, line, prop, rule_id, file_uri, Ghost(source)),
        );
    }
    let expression = cat3(
        "\\s+",
        prop,
        "(?:=\\{[^}]*\\}|=\"[^\"]*\"|='[^']*'|=\\{.*?\\})?",
    );
    let re = match compile(expression.as_str()) {
        Ok(re) => re,
        Err(_) => {
            return None;
        },
    };
    match find_inline_prop(c.as_slice(), prop, &re) {
        Some((start, n)) => match find_prop_end(c.as_slice(), n, false) {
            Ending::At(e) => {
                let edit = make_cut(line, text, start, e, rule_id, prop_text(prop, "'"));
                Some(
                    make_removal_fix(one_edit(edit), rule_id, file_uri, line, prop_text(prop, "'")),
                )
            },
            _ => Some(
                make_manual_removal(
                    prop,
                    "' (multi-line inline, manual)",
                    rule_id,
                    file_uri,
                    line,
                ),
            ),
        },
        None => Some(make_manual_removal(prop, "' (manual)", rule_id, file_uri, line)),
    }
}

/// The content of an optional source text.
pub open spec fn opt_source(o: Option<&String>) -> Option<Seq<char>> {
    match o {
        Some(s) => Some(s@),
        None => None,
    }
}

/// Plans the removal of the prop of an incident from its file, whose content is
/// `source` where it can be read.
pub fn plan_remove_prop(rule_id: &str, incident: &Incident, source: Option<&String>) -> (r: Option<
    PlannedFix,
>)
    ensures
        opt_fix(r) == remove_prop_of(rule_id@, incident@, opt_source(source)),
{
    let line: u32 = match incident.line_number {
        Some(n) => n,
        None => {
            return None;
        },
    };
    let prop = match variable_text(&incident.variables, "propName") {
        Some(p) => p,
        None => {
            return None;
        },
    };
    let text = match source {
        Some(s) => s,
        None => {
            return None;
        },
    };
    // The length of a text fits in a `usize`.
    let _length: usize = text.as_str().unicode_len();
    let all = lines_text(text.as_str());
    let at: u32 = line.saturating_sub(1);
    if (at as usize) < all.len() {
        plan_remove_prop_at(
            &all,
            at as usize,
            line,
            prop,
            rule_id,
            incident.file_uri.as_str(),
            Ghost(text@),
        )
    } else {
        None
    }
}

// ── Import deduplication ────────────────────────────────────────────────

/// The texts without those that stand earlier already.
pub open spec fn first_occurrences(v: Seq<Seq<char>>) -> Seq<Seq<char>>
    decreases v.len(),
{
    if v.len() == 0 {
        Seq::empty()
    } else {
        let before = first_occurrences(v.drop_last());
        if before.contains(v.last()) {
            before
        } else {
            before.push(v.last())
        }
    }
}

/// What is left holds no text twice, and the same texts as before.
pub proof fn first_occurrences_keep_each_once(v: Seq<Seq<char>>)
    ensures
        first_occurrences(v).no_duplicates(),
        forall|x: Seq<char>| #[trigger] first_occurrences(v).contains(x) <==> v.contains(x),
    decreases v.len(),
{
    if v.len() > 0 {
        let rest = v.drop_last();
        first_occurrences_keep_each_once(rest);
        let before = first_occurrences(rest);
        let after = first_occurrences(v);
        assert forall|x: Seq<char>| #[trigger] after.contains(x) <==> v.contains(x) by {
            if v.contains(x) {
                let i = choose|i: int| 0 <= i < v.len() && v[i] == x;
                if i < rest.len() {
                    assert(rest[i] == x);
                    assert(rest.contains(x));
                    assert(first_occurrences(rest).contains(x));
                    let j = choose|j: int| 0 <= j < before.len() && before[j] == x;
                    assert(after[j] == x);
                } else if !before.contains(x) {
                    assert(after[after.len() - 1] == x);
                }
            }
            if after.contains(x) {
                let j = choose|j: int| 0 <= j < after.len() && after[j] == x;
                if j < before.len() {
                    assert(before[j] == x);
                    assert(first_occurrences(rest).contains(x));
                    assert(rest.contains(x));
                    let i = choose|i: int| 0 <= i < rest.len() && rest[i] == x;
                    assert(v[i] == x);
                } else {
                    assert(v[v.len() - 1] == x);
                }
            }
        }
    }
}

/// Nothing more is left out the second time.
pub proof fn first_occurrences_idempotent(v: Seq<Seq<char>>)
    ensures
        first_occurrences(first_occurrences(v)) == first_occurrences(v),
{
    first_occurrences_keep_each_once(v);
    lemma_distinct_is_kept(first_occurrences(v));
}

proof fn lemma_distinct_is_kept(v: Seq<Seq<char>>)
    requires
        v.no_duplicates(),
    ensures
        first_occurrences(v) == v,
    decreases v.len(),
{
    if v.len() > 0 {
        let rest = v.drop_last();
        assert(rest.no_duplicates());
        lemma_distinct_is_kept(rest);
        if rest.contains(v.last()) {
            let i = choose|i: int| 0 <= i < rest.len() && rest[i] == v.last();
            assert(v[i] == v[v.len() - 1]);
        }
        assert(first_occurrences(v) =~= v);
    } else {
        assert(first_occurrences(v) =~= v);
    }
}

/// The pieces trimmed, without the empty ones.
pub open spec fn trimmed_pieces(v: Seq<Seq<char>>) -> Seq<Seq<char>>
    decreases v.len(),
{
    if v.len() == 0 {
        Seq::empty()
    } else {
        let before = trimmed_pieces(v.drop_last());
        if trim(v.last()).len() > 0 {
            before.push(trim(v.last()))
        } else {
            before
        }
    }
}

/// The specifiers of an import list, each once.
pub open spec fn import_specifiers(list: Seq<char>) -> Seq<Seq<char>> {
    first_occurrences(trimmed_pieces(split(list, ',')))
}

/// Whether a text can stand in a list of specifiers: it is not empty, white space is
/// not at its ends, and it holds no comma.
spec fn is_specifier(s: Seq<char>) -> bool {
    s.len() > 0 && !is_white(s[0]) && !is_white(s.last()) && !s.contains(',')
}

proof fn lemma_trimmed_pieces(v: Seq<Seq<char>>)
    requires
        forall|i: int| 0 <= i < v.len() ==> !(#[trigger] v[i]).contains(','),
    ensures
        forall|i: int|
            0 <= i < trimmed_pieces(v).len() ==> is_specifier(#[trigger] trimmed_pieces(v)[i]),
    decreases v.len(),
{
    if v.len() > 0 {
        let rest = v.drop_last();
        assert forall|i: int| 0 <= i < rest.len() implies !(#[trigger] rest[i]).contains(',') by {
            assert(rest[i] == v[i]);
        }
        lemma_trimmed_pieces(rest);
        assert(!v[v.len() - 1].contains(','));
        lemma_trim_ends(v.last());
        let now = trimmed_pieces(v);
        assert forall|i: int| 0 <= i < now.len() implies is_specifier(#[trigger] now[i]) by {
            if i < trimmed_pieces(rest).len() {
                assert(now[i] == trimmed_pieces(rest)[i]);
            }
        }
    }
}

proof fn lemma_specifiers(list: Seq<char>)
    ensures
        import_specifiers(list).no_duplicates(),
        forall|i: int|
            0 <= i < import_specifiers(list).len() ==> is_specifier(
                #[trigger] import_specifiers(list)[i],
            ),
{
    let pieces = split(list, ',');
    lemma_split_free(list, ',', 0, 0);
    lemma_trimmed_pieces(pieces);
    let t = trimmed_pieces(pieces);
    first_occurrences_keep_each_once(t);
    let v = import_specifiers(list);
    assert forall|i: int| 0 <= i < v.len() implies is_specifier(#[trigger] v[i]) by {
        assert(v.contains(v[i]));
        let k = choose|k: int| 0 <= k < t.len() && t[k] == v[i];
        assert(is_specifier(t[k]));
    }
}

/// The specifiers with a blank before each.
spec fn spaced(v: Seq<Seq<char>>) -> Seq<Seq<char>> {
    Seq::new(v.len(), |i: int| seq![' '] + v[i])
}

proof fn lemma_no_comma(s: Seq<char>)
    requires
        !s.contains(','),
    ensures
        !(seq![' '] + s).contains(','),
        !(seq![' '] + s + seq![' ']).contains(','),
{
    let a = seq![' '] + s;
    assert forall|k: int| 0 <= k < a.len() implies a[k] != ',' by {
        if k > 0 {
            assert(a[k] == s[k - 1]);
            assert(s.contains(s[k - 1]));
        }
    }
    let b = a + seq![' '];
    assert forall|k: int| 0 <= k < b.len() implies b[k] != ',' by {
        if k < a.len() {
            assert(b[k] == a[k]);
        }
    }
}

/// A joined list of specifiers comes apart at its commas.
proof fn lemma_split_joined(v: Seq<Seq<char>>)
    requires
        v.len() > 0,
        forall|i: int| 0 <= i < v.len() ==> is_specifier(#[trigger] v[i]),
    ensures
        split(seq![' '] + join(v, ", "@), ',') == spaced(v),
        split(seq![' '] + join(v, ", "@) + seq![' '], ',') == spaced(v.drop_last()).push(
            seq![' '] + v.last() + seq![' '],
        ),
    decreases v.len(),
{
    reveal_strlit(", ");
    assert(", "@ =~= seq![',', ' ']);
    let last = v.last();
    assert(is_specifier(v[v.len() - 1]));
    lemma_no_comma(last);
    let a = seq![' '] + last;
    let b = a + seq![' '];
    if v.len() == 1 {
        assert(join(v, ", "@) == last);
        assert forall|k: int| 0 <= k < a.len() implies a[k] != ',' by {
            assert(a.contains(a[k]));
        }
        assert forall|k: int| 0 <= k < b.len() implies b[k] != ',' by {
            assert(b.contains(b[k]));
        }
        lemma_split_one(a, ',', 0, 0);
        lemma_split_one(b, ',', 0, 0);
        assert(a.subrange(0, a.len() as int) =~= a);
        assert(b.subrange(0, b.len() as int) =~= b);
        assert(spaced(v) =~= seq![a]);
        assert(spaced(v.drop_last()).push(b) =~= seq![b]);
    } else {
        let rest = v.drop_last();
        assert forall|i: int| 0 <= i < rest.len() implies is_specifier(#[trigger] rest[i]) by {
            assert(rest[i] == v[i]);
        }
        lemma_split_joined(rest);
        let front = seq![' '] + join(rest, ", "@);
        assert(seq![' '] + join(v, ", "@) =~= front + seq![','] + a);
        assert(seq![' '] + join(v, ", "@) + seq![' '] =~= front + seq![','] + b);
        lemma_split_last(front, ',', a, 0, 0);
        lemma_split_last(front, ',', b, 0, 0);
        assert(spaced(v) =~= spaced(rest).push(a));
    }
}

/// Pieces that trim to specifiers trim to the list of them.
#[verifier::spinoff_prover]
proof fn lemma_trims_to(pieces: Seq<Seq<char>>, v: Seq<Seq<char>>)
    requires
        pieces.len() == v.len(),
        forall|i: int| 0 <= i < v.len() ==> trim(#[trigger] pieces[i]) == v[i] && v[i].len() > 0,
    ensures
        trimmed_pieces(pieces) == v,
    decreases v.len(),
{
    if v.len() > 0 {
        let p = pieces.drop_last();
        let w = v.drop_last();
        assert forall|i: int| 0 <= i < w.len() implies trim(#[trigger] p[i]) == w[i] && w[i].len()
            > 0 by {
            assert(p[i] == pieces[i]);
            assert(w[i] == v[i]);
        }
        assert(p.len() == w.len());
        lemma_trims_to(p, w);
        assert(trim(pieces[pieces.len() - 1]) == v.last());
        assert(w.push(v.last()) =~= v);
    } else {
        assert(trimmed_pieces(pieces) =~= v);
    }
}

/// A list of specifiers, written out as a line is left with it, holds the same
/// specifiers: leaving each out a second time leaves out nothing.
pub proof fn specifiers_are_kept_the_second_time(list: Seq<char>)
    ensures
        import_specifiers(" "@ + join(import_specifiers(list), ", "@) + " "@) == import_specifiers(
            list,
        ),
{
    let v = import_specifiers(list);
    reveal_strlit(" ");
    assert(" "@ =~= seq![' ']);
    lemma_specifiers(list);
    let written = seq![' '] + join(v, ", "@) + seq![' '];
    let pieces = split(written, ',');
    if v.len() == 0 {
        assert(written =~= seq![' ', ' ']);
        lemma_split_one(written, ',', 0, 0);
        let piece = written.subrange(0, written.len() as int);
        assert(piece =~= written);
        assert(trim(piece).len() == 0) by {
            lemma_trim_ends(piece);
            if trim(piece).len() > 0 {
                let c = trim(piece)[0];
                assert(trim(piece).contains(c));
                assert(piece.contains(c));
                let k = choose|k: int| 0 <= k < piece.len() && piece[k] == c;
                assert(piece[k] == ' ');
            }
        }
        assert(pieces.last() == piece);
        assert(pieces.drop_last() =~= Seq::empty());
        assert(trimmed_pieces(pieces.drop_last()) =~= Seq::empty());
        assert(trimmed_pieces(pieces) =~= Seq::empty());
        assert(first_occurrences(trimmed_pieces(pieces)) =~= v);
    } else {
        lemma_split_joined(v);
        assert forall|i: int| 0 <= i < v.len() implies trim(#[trigger] pieces[i]) == v[i]
            && v[i].len() > 0 by {
            assert(is_specifier(v[i]));
            lemma_trim_blanks(v[i]);
        }
        lemma_trims_to(pieces, v);
        lemma_distinct_is_kept(v);
    }
}

/// The list of an import line with each specifier once.
pub open spec fn specifier_list(list: Seq<char>) -> Seq<char> {
    " "@ + join(import_specifiers(list), ", "@) + " "@
}

/// An import line with each specifier once, of what stands before its list, the list and
/// what stands behind it.
pub open spec fn deduplicated_import(
    prefix: Seq<char>,
    list: Seq<char>,
    suffix: Seq<char>,
) -> Seq<char> {
    prefix + specifier_list(list) + suffix
}

/// Deduplicating the list of an import line a second time changes nothing.
pub proof fn lists_are_deduplicated_once(prefix: Seq<char>, list: Seq<char>, suffix: Seq<char>)
    ensures
        specifier_list(specifier_list(list)) == specifier_list(list),
        deduplicated_import(prefix, specifier_list(list), suffix) == deduplicated_import(
            prefix,
            list,
            suffix,
        ),
{
    specifiers_are_kept_the_second_time(list);
}

/// Whether an import line, once each of its specifiers is left, comes apart where it
/// did before; true of every other line.
pub open spec fn comes_apart_alike(line: Seq<char>) -> bool {
    match regex_groups(import_expression(), line) {
        Some(g) => g.len() == 4 ==> regex_groups(import_expression(), deduplicated(line)) == Some(
            seq![deduplicated(line), g[1], specifier_list(g[2]), g[3]],
        ),
        None => true,
    }
}

/// Deduplicating a line a second time changes nothing, where the expression for import
/// lines takes the line that is left apart as it took the one before.
pub proof fn deduplication_is_idempotent(line: Seq<char>)
    ensures
        comes_apart_alike(line) ==> deduplicated(deduplicated(line)) == deduplicated(line),
{
    if let Some(g) = regex_groups(import_expression(), line) {
        lists_are_deduplicated_once(g[1], g[2], g[3]);
    }
}

/// The expression that takes an import line with braces apart.
pub open spec fn import_expression() -> Seq<char> {
    "^(\\s*import\\s+\\{)([^}]+)(\\}\\s*from\\s+.*)$"@
}

/// An import line with each specifier once; any other line as it is.
pub open spec fn deduplicated(line: Seq<char>) -> Seq<char> {
    if regex_rejection(import_expression()) is Some {
        line
    } else {
        match regex_groups(import_expression(), line) {
            Some(g) => if g.len() == 4 {
                deduplicated_import(g[1], g[2], g[3])
            } else {
                line
            },
            None => line,
        }
    }
}

fn collect_specifiers(list: &str) -> (r: Vec<String>)
    ensures
        texts(r@) == import_specifiers(list@),
{
    let pieces = split_text(list, ',');
    let mut out: Vec<String> = Vec::new();
    let ghost p = texts(pieces@);
    let mut i: usize = 0;
    assert(texts(out@) =~= Seq::<Seq<char>>::empty());
    while i < pieces.len()
        invariant
            i <= pieces@.len(),
            p == texts(pieces@),
            texts(out@) == first_occurrences(trimmed_pieces(p.take(i as int))),
        decreases pieces@.len() - i,
    {
        assert(p.take(i + 1).drop_last() =~= p.take(i as int));
        assert(p.take(i + 1).last() == pieces@[i as int]@);
        let piece = trimmed(pieces[i].as_str());
        let ghost before = trimmed_pieces(p.take(i as int));
        if piece.as_str().unicode_len() > 0 {
            assert(before.push(piece@).drop_last() =~= before);
            if !list_contains(&out, piece.as_str()) {
                let ghost prior = out@;
                let ghost added = piece@;
                out.push(piece);
                assert(texts(out@) =~= texts(prior).push(added));
            }
        }
        i = i + 1;
    }
    assert(p.take(p.len() as int) =~= p);
    out
}

/// Leaves each specifier of an import line once, given what stands before its list, the
/// list and what stands behind it.
pub fn deduplicate_import(prefix: &str, list: &str, suffix: &str) -> (r: String)
    ensures
        r@ == deduplicated_import(prefix@, list@, suffix@),
{
    let specifiers = collect_specifiers(list);
    let joined = join_texts(&specifiers, ", ");
    let r = cat5(prefix, " ", joined.as_str(), " ", suffix);
    assert(r@ =~= deduplicated_import(prefix@, list@, suffix@));
    r
}

fn deduplicate_line(re: &regex::Regex, line: &str) -> (r: String)
    requires
        crate::pattern::regex_text(*re) == import_expression(),
        regex_rejection(import_expression()) is None,
    ensures
        r@ == deduplicated(line@),
{
    match regex_captures(re, line) {
        Some(g) => {
            if g.len() == 4 {
                assert(texts(g@)[1] == g@[1]@ && texts(g@)[2] == g@[2]@ && texts(g@)[3] == g@[3]@);
                deduplicate_import(g[1].as_str(), g[2].as_str(), g[3].as_str())
            } else {
                line.to_owned()
            }
        },
        None => line.to_owned(),
    }
}

/// Each line deduplicated.
pub open spec fn deduplicated_lines(v: Seq<Seq<char>>) -> Seq<Seq<char>> {
    Seq::new(v.len(), |i: int| deduplicated(v[i]))
}

/// Leaves each specifier once on lines that are import statements. After several
/// names were renamed to one, a line may hold it more than once.
pub fn dedup_import_specifiers(all: &mut Vec<String>)
    ensures
        texts(final(all)@) == deduplicated_lines(texts(old(all)@)),
{
    let ghost before = texts(all@);
    match compile("^(\\s*import\\s+\\{)([^}]+)(\\}\\s*from\\s+.*)$") {
        Err(_) => {
            assert(texts(all@) =~= deduplicated_lines(before));
        },
        Ok(re) => {
            let mut i: usize = 0;
            while i < all.len()
                invariant
                    i <= all@.len(),
                    all@.len() == before.len(),
                    crate::pattern::regex_text(re) == import_expression(),
                    regex_rejection(import_expression()) is None,
                    forall|k: int| 0 <= k < i ==> (#[trigger] all@[k])@ == deduplicated(before[k]),
                    forall|k: int| i <= k < all@.len() ==> (#[trigger] all@[k])@ == before[k],
                decreases all@.len() - i,
            {
                let line = deduplicate_line(&re, all[i].as_str());
                all.set(i, line);
                i = i + 1;
            }
            assert(texts(all@) =~= deduplicated_lines(before));
        },
    }
}

// ── The provider ────────────────────────────────────────────────────────

/// Whether a path goes through a `node_modules` directory.
pub open spec fn in_node_modules(path: Seq<char>) -> bool {
    split(path, '/').contains("node_modules"@)
}

pub fn path_in_node_modules(path: &str) -> (r: bool)
    ensures
        r == in_node_modules(path@),
{
    let parts = split_text(path, '/');
    list_contains(&parts, "node_modules")
}

impl JsFixProvider {
    pub fn new() -> (r: JsFixProvider)
        ensures
            r == JsFixProvider,
    {
        JsFixProvider
    }

    /// Whether the files at a path are left alone. Installed packages are updated
    /// by version, not patched.
    pub fn should_skip_path(&self, path: &str) -> (r: bool)
        ensures
            r == in_node_modules(path@),
    {
        path_in_node_modules(path)
    }

    /// Cleans lines up after edits.
    pub fn post_process_lines(&self, all: &mut Vec<String>)
        ensures
            texts(final(all)@) == deduplicated_lines(texts(old(all)@)),
    {
        dedup_import_specifiers(all);
    }

    pub fn plan_remove_attribute(
        &self,
        rule_id: &str,
        incident: &Incident,
        source: Option<&String>,
    ) -> (r: Option<PlannedFix>)
        ensures
            opt_fix(r) == remove_prop_of(rule_id@, incident@, opt_source(source)),
    {
        plan_remove_prop(rule_id, incident, source)
    }

    pub fn get_matched_text(&self, incident: &Incident) -> (r: String)
        ensures
            r@ == matched_text(incident@.variables),
    {
        get_matched_text_from_incident(incident)
    }

    pub fn get_matched_text_for_rename(
        &self,
        incident: &Incident,
        mappings: &Vec<RenameMapping>,
    ) -> (r: String)
        ensures
            r@ == matched_for_rename(incident@.variables, renamings(mappings@)),
    {
        get_matched_text_for_rename_from_incident(incident, mappings)
    }

    /// Whether a renaming goes through the whole file: an imported name stands on
    /// more lines than the import.
    pub fn is_whole_file_rename(&self, incident: &Incident) -> (r: bool)
        ensures
            r == incident@.variables.dom().contains("importedName"@),
    {
        incident.variables.contains_key("importedName")
    }
}

// ── What an incident matched ────────────────────────────────────────────

/// The variables that tell what an incident matched, the first one first.
pub open spec fn match_keys() -> Seq<Seq<char>> {
    seq!["propName"@, "componentName"@, "importedName"@, "className"@, "variableName"@]
}

/// What an incident matched is told by the first of its variables that holds a text.
pub proof fn the_first_variable_tells_the_match(vars: Map<Seq<char>, JsonView>, i: int)
    ensures
        0 <= i < match_keys().len() && vars.dom().contains(match_keys()[i])
            && vars[match_keys()[i]] is Str && (forall|j: int|
            0 <= j < i ==> !(vars.dom().contains(#[trigger] match_keys()[j])
                && vars[match_keys()[j]] is Str)) ==> vars[match_keys()[i]] == JsonView::Str(
            matched_text(vars),
        ),
        (forall|j: int|
            0 <= j < match_keys().len() ==> !(vars.dom().contains(#[trigger] match_keys()[j])
                && vars[match_keys()[j]] is Str)) ==> matched_text(vars).len() == 0,
{
    let k = match_keys();
    assert(k[0] == "propName"@ && k[1] == "componentName"@ && k[2] == "importedName"@ && k[3]
        == "className"@ && k[4] == "variableName"@);
}

/// Whether a text can be what a renaming of an incident is about.
pub open spec fn may_be_renamed(vars: Map<Seq<char>, JsonView>, t: Seq<char>) -> bool {
    ||| t == matched_text(vars)
    ||| vars.dom().contains("propValue"@) && vars["propValue"@] == JsonView::Str(t)
    ||| vars.dom().contains("propObjectValues"@) && (
    vars["propObjectValues"@] matches JsonView::Array(v) && v.contains(JsonView::Str(t)))
}

/// Where any text of an incident is renamed, its renaming is about one that is: the matched
/// name before the value of the prop, and that before the strings in it.
pub proof fn renamed_texts_are_found(
    vars: Map<Seq<char>, JsonView>,
    mappings: Seq<Renaming>,
    t: Seq<char>,
)
    requires
        may_be_renamed(vars, t),
        is_renamed(mappings, t),
    ensures
        is_renamed(mappings, matched_for_rename(vars, mappings)),
        may_be_renamed(vars, matched_for_rename(vars, mappings)),
        is_renamed(mappings, matched_text(vars)) ==> matched_for_rename(vars, mappings)
            == matched_text(vars),
        !is_renamed(mappings, matched_text(vars)) && vars.dom().contains("propValue"@) && (
        vars["propValue"@] matches JsonView::Str(v) && is_renamed(mappings, v))
            ==> vars["propValue"@] == JsonView::Str(matched_for_rename(vars, mappings)),
{
    if vars.dom().contains("propObjectValues"@) {
        if let JsonView::Array(v) = vars["propObjectValues"@] {
            lemma_first_renamed(mappings, v, 0);
            if v.contains(JsonView::Str(t)) {
                let k = choose|k: int| 0 <= k < v.len() && v[k] == JsonView::Str(t);
                assert(as_text(v[k]) == Some(t));
            }
        }
    }
}

proof fn lemma_first_renamed(mappings: Seq<Renaming>, v: Seq<JsonView>, i: int)
    requires
        0 <= i,
    ensures
        first_renamed(mappings, v, i) matches Some(t) ==> is_renamed(mappings, t) && v.contains(
            JsonView::Str(t),
        ),
        first_renamed(mappings, v, i) is None ==> forall|k: int|
            i <= k < v.len() ==> !(as_text(#[trigger] v[k]) matches Some(t) && is_renamed(
                mappings,
                t,
            )),
    decreases v.len() - i,
{
    if i < v.len() {
        lemma_first_renamed(mappings, v, i + 1);
        if let JsonView::Str(t) = v[i] {
            assert(v.contains(JsonView::Str(t)));
        }
    }
}

// ── Literals ────────────────────────────────────────────────────────────

pub open spec fn is_quote(c: char) -> bool {
    c == '\'' || c == '"' || c == '`'
}

/// Whatever stands in a literal leaves the depth as it was, and the literal ends with the
/// quote that it began with.
pub proof fn literals_do_not_count(line: Seq<char>, quote: char, inner: Seq<char>)
    requires
        is_quote(quote),
        in_no_literal(scan_line(line)),
        !scan_line(line).escaped,
        forall|i: int| 0 <= i < inner.len() ==> #[trigger] inner[i] != quote && inner[i] != '\\',
    ensures
        depth_of(line + seq![quote] + inner + seq![quote]) == depth_of(line),
        in_no_literal(scan_line(line + seq![quote] + inner + seq![quote])),
{
    lemma_in_literal(line, quote, inner);
    let open = line + seq![quote] + inner;
    assert((open + seq![quote]).drop_last() =~= open);
    assert((open + seq![quote]).last() == quote);
}

proof fn lemma_in_literal(line: Seq<char>, quote: char, inner: Seq<char>)
    requires
        is_quote(quote),
        in_no_literal(scan_line(line)),
        !scan_line(line).escaped,
        forall|i: int| 0 <= i < inner.len() ==> #[trigger] inner[i] != quote && inner[i] != '\\',
    ensures
        scan_line(line + seq![quote] + inner) == (LineScan {
            single: quote == '\'',
            double: quote == '"',
            backtick: quote == '`',
            escaped: false,
            depth: scan_line(line).depth,
        }),
    decreases inner.len(),
{
    let open = line + seq![quote] + inner;
    if inner.len() == 0 {
        assert(open =~= line.push(quote));
        assert(open.drop_last() =~= line);
    } else {
        lemma_in_literal(line, quote, inner.drop_last());
        assert(open.drop_last() =~= line + seq![quote] + inner.drop_last());
        assert(open.last() == inner[inner.len() - 1]);
    }
}

/// A quote behind a backslash does not end a literal.
pub proof fn escaped_quotes_do_not_end_literals(line: Seq<char>, c: char)
    requires
        !scan_line(line).escaped,
        !is_opener(c) && !is_closer(c),
    ensures
        scan_line(line + seq!['\\', c]) == scan_line(line),
{
    let one = line.push('\\');
    let two = line + seq!['\\', c];
    assert(two.drop_last() =~= one);
    assert(one.drop_last() =~= line);
    assert(one.last() == '\\' && two.last() == c);
    assert(scan_line(one) == scan_step(scan_line(line), '\\'));
    assert(scan_line(two) == scan_step(scan_line(one), c));
}

// ── Where props end ─────────────────────────────────────────────────────

proof fn lemma_white_upto(s: Seq<char>, i: int, j: int)
    requires
        0 <= i <= j <= s.len(),
        forall|k: int| i <= k < j ==> is_white(#[trigger] s[k]),
        j < s.len() ==> !is_white(s[j]),
    ensures
        white_end(s, i) == j,
    decreases j - i,
{
    if i < j {
        lemma_white_upto(s, i + 1, j);
    }
}

/// Whether a text does not go on with a comma, but for white space.
pub open spec fn no_comma_first(blanks: Seq<char>, tail: Seq<char>) -> bool {
    &&& forall|i: int| 0 <= i < blanks.len() ==> is_white(#[trigger] blanks[i])
    &&& tail.len() > 0 ==> !is_white(tail[0]) && tail[0] != ','
}

proof fn lemma_no_comma_behind(s: Seq<char>, front: Seq<char>, blanks: Seq<char>, tail: Seq<char>)
    requires
        s == front + blanks + tail,
        no_comma_first(blanks, tail),
    ensures
        comma_end(s, front.len() as int) == front.len(),
{
    let e = front.len() as int;
    assert forall|k: int| e <= k < e + blanks.len() implies is_white(#[trigger] s[k]) by {
        assert(s[k] == blanks[k - e]);
    }
    assert(tail.len() > 0 ==> s[e + blanks.len()] == tail[0]);
    lemma_white_upto(s, e, e + blanks.len());
}

proof fn lemma_comma_behind(s: Seq<char>, front: Seq<char>, blanks: Seq<char>, tail: Seq<char>)
    requires
        s == front + blanks + seq![','] + tail,
        forall|i: int| 0 <= i < blanks.len() ==> is_white(#[trigger] blanks[i]),
    ensures
        comma_end(s, front.len() as int) == front.len() + blanks.len() + 1,
{
    let e = front.len() as int;
    assert forall|k: int| e <= k < e + blanks.len() implies is_white(#[trigger] s[k]) by {
        assert(s[k] == blanks[k - e]);
    }
    assert(s[e + blanks.len()] == ',');
    lemma_white_upto(s, e, e + blanks.len());
}

proof fn lemma_literal_read(s: Seq<char>, i: int, e: int, v: ValueScan, quote: char)
    requires
        0 <= i <= e < s.len(),
        s[e] == quote,
        forall|k: int| i <= k < e ==> #[trigger] s[k] != quote,
        v.kind is Literal,
        v.tag == TagPlace::Quoted(quote),
    ensures
        read_value(s, i, v) == PropEnd::At(e + 1),
    decreases e - i,
{
    if i < e {
        lemma_literal_read(s, i + 1, e, v, quote);
    } else {
        let done = value_step(v, s[e]);
        assert(done.tag is Text && done.kind is Literal);
        assert(read_value(s, e + 1, done) == PropEnd::At(e + 1));
    }
}

proof fn lemma_braces_read(s: Seq<char>, i: int, e: int, v: ValueScan)
    requires
        0 <= i <= e < s.len(),
        s[e] == '}',
        forall|k: int|
            i <= k < e ==> !is_quote(#[trigger] s[k]) && !is_opener(s[k]) && !is_closer(s[k])
                && s[k] != '\\',
        v.kind is Braces,
        v.code.depth == 1,
        in_no_literal(v.code),
        !v.code.escaped,
    ensures
        read_value(s, i, v) == PropEnd::At(e + 1),
    decreases e - i,
{
    if i < e {
        let next = value_step(v, s[i]);
        assert(next.code == v.code);
        lemma_braces_read(s, i + 1, e, next);
    } else {
        let done = value_step(v, s[e]);
        assert(done.code.depth == 0 && done.kind is Braces);
        assert(read_value(s, e + 1, done) == PropEnd::At(e + 1));
    }
}

/// A prop that is set to a text in quotes ends behind the second quote; a comma behind it
/// belongs to it.
pub proof fn props_end_with_their_literals(
    front: Seq<char>,
    quote: char,
    value: Seq<char>,
    blanks: Seq<char>,
    tail: Seq<char>,
    leading: bool,
)
    requires
        quote == '"' || quote == '\'',
        !value.contains(quote),
        no_comma_first(blanks, tail),
    ensures
        ({
            let prop = front + seq!['=', quote] + value + seq![quote];
            &&& prop_end(prop + blanks + tail, front.len() as int, leading) == PropEnd::At(
                prop.len() as int,
            )
            &&& prop_end(prop + blanks + seq![','] + tail, front.len() as int, leading)
                == PropEnd::At((prop.len() + blanks.len() + 1) as int)
        }),
{
    let prop = front + seq!['=', quote] + value + seq![quote];
    lemma_literal_prop(front, quote, value, blanks + tail, leading);
    assert(prop + (blanks + tail) =~= prop + blanks + tail);
    lemma_no_comma_behind(prop + blanks + tail, prop, blanks, tail);
    lemma_literal_prop(front, quote, value, blanks + seq![','] + tail, leading);
    assert(prop + (blanks + seq![','] + tail) =~= prop + blanks + seq![','] + tail);
    lemma_comma_behind(prop + blanks + seq![','] + tail, prop, blanks, tail);
}

proof fn lemma_literal_prop(
    front: Seq<char>,
    quote: char,
    value: Seq<char>,
    rest: Seq<char>,
    leading: bool,
)
    requires
        quote == '"' || quote == '\'',
        !value.contains(quote),
    ensures
        ({
            let prop = front + seq!['=', quote] + value + seq![quote];
            prop_end(prop + rest, front.len() as int, leading) == PropEnd::At(
                comma_end(prop + rest, prop.len() as int),
            )
        }),
{
    let prop = front + seq!['=', quote] + value + seq![quote];
    let s = prop + rest;
    let n = front.len() as int;
    let e = prop.len() - 1;
    assert(s[n] == '=' && s[n + 1] == quote && s[e] == quote);
    assert forall|k: int| n + 2 <= k < e implies #[trigger] s[k] != quote by {
        assert(s[k] == value[k - n - 2]);
        assert(value.contains(value[k - n - 2]));
    }
    assert(white_end(s, n) == n && white_end(s, n + 1) == n + 1);
    let v = value_start(ValueKind::Literal, 0, TagPlace::Quoted(quote));
    lemma_literal_read(s, n + 2, e, v, quote);
    assert(value_end(s, n + 2, e + 1) == e + 1);
}

/// A prop that is set to an expression in braces ends behind the closing one; a comma behind
/// it belongs to it.
pub proof fn props_end_with_their_braces(
    front: Seq<char>,
    value: Seq<char>,
    blanks: Seq<char>,
    tail: Seq<char>,
    leading: bool,
)
    requires
        forall|k: int|
            0 <= k < value.len() ==> !is_quote(#[trigger] value[k]) && !is_opener(value[k])
                && !is_closer(value[k]) && value[k] != '\\',
        no_comma_first(blanks, tail),
    ensures
        ({
            let prop = front + seq!['=', '{'] + value + seq!['}'];
            &&& prop_end(prop + blanks + tail, front.len() as int, leading) == PropEnd::At(
                prop.len() as int,
            )
            &&& prop_end(prop + blanks + seq![','] + tail, front.len() as int, leading)
                == PropEnd::At((prop.len() + blanks.len() + 1) as int)
        }),
{
    let prop = front + seq!['=', '{'] + value + seq!['}'];
    lemma_braces_prop(front, value, blanks + tail, leading);
    assert(prop + (blanks + tail) =~= prop + blanks + tail);
    lemma_no_comma_behind(prop + blanks + tail, prop, blanks, tail);
    lemma_braces_prop(front, value, blanks + seq![','] + tail, leading);
    assert(prop + (blanks + seq![','] + tail) =~= prop + blanks + seq![','] + tail);
    lemma_comma_behind(prop + blanks + seq![','] + tail, prop, blanks, tail);
}

proof fn lemma_braces_prop(front: Seq<char>, value: Seq<char>, rest: Seq<char>, leading: bool)
    requires
        forall|k: int|
            0 <= k < value.len() ==> !is_quote(#[trigger] value[k]) && !is_opener(value[k])
                && !is_closer(value[k]) && value[k] != '\\',
    ensures
        ({
            let prop = front + seq!['=', '{'] + value + seq!['}'];
            prop_end(prop + rest, front.len() as int, leading) == PropEnd::At(
                comma_end(prop + rest, prop.len() as int),
            )
        }),
{
    let prop = front + seq!['=', '{'] + value + seq!['}'];
    let s = prop + rest;
    let n = front.len() as int;
    let e = prop.len() - 1;
    assert(s[n] == '=' && s[n + 1] == '{' && s[e] == '}');
    assert forall|k: int| n + 2 <= k < e implies !is_quote(#[trigger] s[k]) && !is_opener(s[k])
        && !is_closer(s[k]) && s[k] != '\\' by {
        assert(s[k] == value[k - n - 2]);
    }
    assert(white_end(s, n) == n && white_end(s, n + 1) == n + 1);
    let v = value_start(ValueKind::Braces, 1, TagPlace::Text);
    lemma_braces_read(s, n + 2, e, v);
    assert(value_end(s, n + 2, e + 1) == e + 1);
}

/// A prop without a value ends with its name, where the tag ends or another name follows.
pub proof fn props_without_value_end_with_their_names(
    front: Seq<char>,
    blanks: Seq<char>,
    tail: Seq<char>,
    leading: bool,
)
    requires
        no_comma_first(blanks, tail),
        tail.len() > 0 ==> is_name_char(tail[0]) || tail[0] == '/' || tail[0] == '>',
    ensures
        prop_end(front + blanks + tail, front.len() as int, leading) == PropEnd::At(
            front.len() as int,
        ),
{
    let s = front + blanks + tail;
    let n = front.len() as int;
    assert forall|k: int| n <= k < n + blanks.len() implies is_white(#[trigger] s[k]) by {
        assert(s[k] == blanks[k - n]);
    }
    assert(tail.len() > 0 ==> s[n + blanks.len()] == tail[0]);
    lemma_white_upto(s, n, n + blanks.len());
    lemma_no_comma_behind(s, front, blanks, tail);
}

/// A line that holds nothing but a prop with its value is removed as a whole, with high
/// confidence.
pub proof fn lines_of_one_prop_are_removed(
    rule_id: Seq<char>,
    incident: IncidentView,
    source: Seq<char>,
    indent: Seq<char>,
    prop: Seq<char>,
    quote: char,
    value: Seq<char>,
)
    requires
        incident.line_number matches Some(line) && 1 <= line <= lines(source).len() && lines(
            source,
        )[line - 1] == indent + prop + seq!['=', quote] + value + seq![quote],
        text_variable(incident.variables, "propName"@) == Some(prop),
        quote == '"' || quote == '\'',
        !value.contains(quote),
        forall|i: int| 0 <= i < indent.len() ==> is_white(#[trigger] indent[i]),
        prop.len() > 0,
        forall|i: int| 0 <= i < prop.len() ==> !is_white(#[trigger] prop[i]),
    ensures
        remove_prop_of(rule_id, incident, Some(source)) matches Some(fix) && {
            let line = incident.line_number->0;
            &&& fix.confidence == FixConfidence::High
            &&& fix.rule_id == rule_id
            &&& fix.file_uri == incident.file_uri
            &&& fix.line == line
            &&& fix.edits.len() == 1
            &&& fix.edits[0].line == line
            &&& fix.edits[0].old_text == lines(source)[line - 1]
            &&& fix.edits[0].new_text.len() == 0
        },
{
    let line = incident.line_number->0;
    let all = lines(source);
    let text = all[line - 1];
    let front = indent + prop;
    let none = Seq::<char>::empty();
    let p = indent.len() as int;
    assert(text =~= front + seq!['=', quote] + value + seq![quote] + none + none);
    props_end_with_their_literals(front, quote, value, none, none, true);
    assert forall|k: int| 0 <= k < p implies is_white(#[trigger] text[k]) by {
        assert(text[k] == indent[k]);
    }
    assert(text[p] == prop[0]);
    lemma_white_upto(text, 0, p);
    assert(text.subrange(p, p + prop.len()) =~= prop);
    assert(text[p + prop.len()] == '=');
    assert(white_end(text, text.len() as int) == text.len());
}

/// What is cut out of a line is a prop inside it, from the white space before it up to its
/// end; what stands before and behind it stays.
pub proof fn inline_props_are_cut_out(
    all: Seq<Seq<char>>,
    idx: int,
    line: u32,
    prop: Seq<char>,
    rule_id: Seq<char>,
    file_uri: Seq<char>,
    start: int,
    n: int,
    end: int,
)
    requires
        0 <= idx < all.len(),
        !(prop.len() > 0 && occurs_at(all[idx], prop, white_end(all[idx], 0)) && name_ends(
            all[idx],
            white_end(all[idx], 0) + prop.len(),
        )),
        regex_rejection(prop_expression(prop)) is None,
        inline_prop(all[idx], prop, 0) == Some((start, n)),
        prop_end(all[idx], n, false) == PropEnd::At(end),
        0 <= start <= end <= all[idx].len(),
    ensures
        remove_prop_at(all, idx, line, prop, rule_id, file_uri) matches Some(fix)
            && fix.edits.len() == 1 && fix.edits[0].line == line && fix.confidence
            == FixConfidence::High && replace_first(
            all[idx],
            fix.edits[0].old_text,
            fix.edits[0].new_text,
        ) == all[idx].take(start) + all[idx].skip(end),
{
    cuts_leave_the_rest(
        line,
        all[idx],
        start,
        end,
        rule_id,
        remove_prop_text(prop, "'"@),
    );
}

/// The specifiers of an import list are what stands between its commas, without the white
/// space around and without the empty ones.
pub proof fn specifiers_stand_between_commas(list: Seq<char>, x: Seq<char>)
    ensures
        import_specifiers(list).contains(x) <==> x.len() > 0 && exists|i: int|
            0 <= i < split(list, ',').len() && trim(#[trigger] split(list, ',')[i]) == x,
{
    let pieces = split(list, ',');
    first_occurrences_keep_each_once(trimmed_pieces(pieces));
    lemma_pieces(pieces, x);
}

proof fn lemma_pieces(v: Seq<Seq<char>>, x: Seq<char>)
    ensures
        trimmed_pieces(v).contains(x) <==> x.len() > 0 && exists|i: int|
            0 <= i < v.len() && trim(#[trigger] v[i]) == x,
    decreases v.len(),
{
    if v.len() > 0 {
        let rest = v.drop_last();
        lemma_pieces(rest, x);
        lemma_in_pushed(trimmed_pieces(rest), trim(v.last()), x);
        assert forall|i: int| 0 <= i < rest.len() implies rest[i] == #[trigger] v[i] by {}
        assert(v[v.len() - 1] == v.last());
        if trimmed_pieces(rest).contains(x) {
            let i = choose|i: int| 0 <= i < rest.len() && trim(#[trigger] rest[i]) == x;
            assert(v[i] == rest[i]);
        }
    }
}

/// Whether a text can be the value of an object member without anything to be taken apart.
pub open spec fn is_plain_value(value: Seq<char>) -> bool {
    &&& value.len() > 0
    &&& !is_white(value[0]) && !is_white(value.last())
    &&& forall|k: int|
        0 <= k < value.len() ==> !is_quote(#[trigger] value[k]) && !is_opener(value[k])
            && !is_closer(value[k]) && value[k] != '\\' && value[k] != ',' && value[k] != '/'
}

proof fn lemma_member_read(s: Seq<char>, i: int, e: int, v: ValueScan)
    requires
        0 <= i <= e < s.len(),
        s[e] == ',' || is_closer(s[e]),
        forall|k: int|
            i <= k < e ==> !is_quote(#[trigger] s[k]) && !is_opener(s[k]) && !is_closer(s[k])
                && s[k] != '\\' && s[k] != ',' && s[k] != '/',
        v.kind is Member,
        v.code.depth == 0,
        in_no_literal(v.code),
        !v.code.escaped,
    ensures
        read_value(s, i, v) == PropEnd::At(e),
    decreases e - i,
{
    if i < e {
        assert(!is_quote(s[i]));
        let next = value_step(v, s[i]);
        assert(next.code == v.code);
        lemma_member_read(s, i + 1, e, next);
    }
}

/// A member of an object ends with its value; a comma behind it belongs to it, a closing
/// bracket does not.
pub proof fn members_end_with_their_values(
    front: Seq<char>,
    value: Seq<char>,
    closer: char,
    rest: Seq<char>,
    leading: bool,
)
    requires
        is_plain_value(value),
        is_closer(closer),
    ensures
        ({
            let member = front + seq![':', ' '] + value;
            &&& prop_end(member + seq![','] + rest, front.len() as int, leading) == PropEnd::At(
                (member.len() + 1) as int,
            )
            &&& prop_end(member + seq![closer] + rest, front.len() as int, leading)
                == PropEnd::At(member.len() as int)
        }),
{
    lemma_member_end(front, value, ',', rest, leading);
    lemma_member_end(front, value, closer, rest, leading);
    let member = front + seq![':', ' '] + value;
    let none = Seq::<char>::empty();
    let a = member + seq![','] + rest;
    assert(a =~= member + none + seq![','] + rest);
    lemma_comma_behind(a, member, none, rest);
    let b = member + seq![closer] + rest;
    assert(b =~= member + none + (seq![closer] + rest));
    assert((seq![closer] + rest)[0] == closer);
    lemma_no_comma_behind(b, member, none, seq![closer] + rest);
}

proof fn lemma_member_end(
    front: Seq<char>,
    value: Seq<char>,
    end: char,
    rest: Seq<char>,
    leading: bool,
)
    requires
        is_plain_value(value),
        is_closer(end) || end == ',',
    ensures
        ({
            let member = front + seq![':', ' '] + value;
            let s = member + seq![end] + rest;
            prop_end(s, front.len() as int, leading) == PropEnd::At(
                comma_end(s, member.len() as int),
            )
        }),
{
    let member = front + seq![':', ' '] + value;
    let s = member + seq![end] + rest;
    let n = front.len() as int;
    let e = member.len() as int;
    assert(s[n] == ':' && s[n + 1] == ' ' && s[n + 2] == value[0] && s[e] == end);
    assert(s[e - 1] == value.last());
    assert(white_end(s, n) == n);
    lemma_white_upto(s, n + 1, n + 2);
    assert forall|k: int| n + 2 <= k < e implies !is_quote(#[trigger] s[k]) && !is_opener(s[k])
        && !is_closer(s[k]) && s[k] != '\\' && s[k] != ',' && s[k] != '/' by {
        assert(s[k] == value[k - n - 2]);
    }
    let v = value_start(ValueKind::Member, 0, TagPlace::Text);
    lemma_member_read(s, n + 2, e, v);
    assert(value_end(s, n + 2, e) == e);
}

proof fn lemma_tag_read(s: Seq<char>, i: int, e: int, v: ValueScan)
    requires
        0 <= i <= e,
        e + 1 < s.len(),
        s[e] == '/' && s[e + 1] == '>',
        forall|k: int| i <= k < e ==> is_name_char(#[trigger] s[k]),
        v.kind is Element,
        v.tag is Open,
        v.code.depth == 0,
        v.angle == 0,
        v.elements == 0,
        !v.slash,
    ensures
        read_value(s, i, v) == PropEnd::At(e + 2),
    decreases e - i,
{
    if i < e {
        let next = value_step(v, s[i]);
        assert(is_name_char(s[i]));
        assert(!is_white(s[i]) || (s[i] as u32) >= 128);
        assert(next.tag is Open && !next.slash);
        lemma_tag_read(s, i + 1, e, next);
    } else {
        let slash = value_step(v, s[e]);
        assert(slash.slash && slash.tag is Open);
        assert(read_value(s, e, v) == read_value(s, e + 1, slash));
        let done = value_step(slash, s[e + 1]);
        assert(done.tag is Text && done.elements == 0 && done.code.depth == 0);
        assert(read_value(s, e + 1, slash) == read_value(s, e + 2, done));
        assert(read_value(s, e + 2, done) == PropEnd::At(e + 2));
    }
}

/// A prop that is set to an element without content ends behind its tag.
pub proof fn props_end_with_their_elements(
    front: Seq<char>,
    name: Seq<char>,
    blanks: Seq<char>,
    tail: Seq<char>,
    leading: bool,
)
    requires
        name.len() > 0,
        forall|k: int| 0 <= k < name.len() ==> is_name_char(#[trigger] name[k]),
        no_comma_first(blanks, tail),
    ensures
        ({
            let prop = front + seq!['=', '<'] + name + seq!['/', '>'];
            prop_end(prop + blanks + tail, front.len() as int, leading) == PropEnd::At(
                prop.len() as int,
            )
        }),
{
    let prop = front + seq!['=', '<'] + name + seq!['/', '>'];
    let s = prop + blanks + tail;
    let n = front.len() as int;
    let e = prop.len() - 2;
    assert(s[n] == '=' && s[n + 1] == '<' && s[e] == '/' && s[e + 1] == '>');
    assert(white_end(s, n) == n && white_end(s, n + 1) == n + 1);
    assert forall|k: int| n + 2 <= k < e implies is_name_char(#[trigger] s[k]) by {
        assert(s[k] == name[k - n - 2]);
    }
    let v = value_start(ValueKind::Element, 0, TagPlace::Begin);
    assert(s[n + 2] == name[0]);
    assert(is_name_char(s[n + 2]));
    let open = value_step(v, s[n + 2]);
    assert(open.tag is Open && !open.slash && open.elements == 0);
    assert(read_value(s, n + 2, v) == read_value(s, n + 3, open));
    lemma_tag_read(s, n + 3, e, open);
    assert(value_end(s, n + 2, e + 2) == e + 2);
    lemma_no_comma_behind(s, prop, blanks, tail);
}

/// A prop that a line begins with, and that something else follows, is cut out with the white
/// space behind it; what stands before and behind stays.
pub proof fn leading_props_are_cut_out(
    all: Seq<Seq<char>>,
    idx: int,
    p: int,
    line: u32,
    prop: Seq<char>,
    rule_id: Seq<char>,
    file_uri: Seq<char>,
    end: int,
)
    requires
        0 <= idx < all.len(),
        prop_end(all[idx], p + prop.len(), true) == PropEnd::At(end),
        !nothing_follows(all[idx], end),
        0 <= p <= white_end(all[idx], end) <= all[idx].len(),
    ensures
        ({
            let fix = remove_leading_prop(all, idx, p, line, prop, rule_id, file_uri);
            &&& fix.edits.len() == 1 && fix.confidence == FixConfidence::High
            &&& fix.edits[0].line == line
            &&& replace_first(all[idx], fix.edits[0].old_text, fix.edits[0].new_text)
                == all[idx].take(p) + all[idx].skip(white_end(all[idx], end))
        }),
{
    cuts_leave_the_rest(
        line,
        all[idx],
        p,
        white_end(all[idx], end),
        rule_id,
        remove_prop_text(prop, "'"@),
    );
}

/// Of the last line of a prop, what stands behind the prop stays, without the white space
/// between; the whole line goes where nothing but a comment is left.
pub proof fn last_lines_keep_what_follows(
    all: Seq<Seq<char>>,
    m: int,
    end: int,
    rule_id: Seq<char>,
    description: Seq<char>,
)
    requires
        0 <= m < all.len(),
        0 <= white_end(all[m], end) <= all[m].len(),
    ensures
        ({
            let e = last_cut(all, m, end, rule_id, description);
            &&& e.line == (m + 1) as u32
            &&& nothing_follows(all[m], end) ==> e.old_text == all[m] && e.new_text.len() == 0
            &&& !nothing_follows(all[m], end) ==> replace_first(all[m], e.old_text, e.new_text)
                == all[m].skip(white_end(all[m], end))
        }),
{
    cuts_leave_the_rest((m + 1) as u32, all[m], 0, white_end(all[m], end), rule_id, description);
    assert(all[m].take(0) + all[m].skip(white_end(all[m], end)) =~= all[m].skip(
        white_end(all[m], end),
    ));
}

} // verus!
