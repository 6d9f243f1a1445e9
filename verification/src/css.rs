//! Class selectors and custom properties in stylesheets.
//!
//! CSS is parsed with `lightningcss`; the parsed stylesheet is read in the JSON form
//! that `lightningcss` gives it. Other stylesheets, and CSS that does not parse, are
//! searched line by line.

use crate::css_math::{math_free, plain_sheet, remove_math};
use crate::engine::{join_path, joined_path};
use crate::incident::{
    bare_incident, code_snip_of, extract_code_snip, incident_views, lemma_incident_views_push,
    line_start, newlines, Incident, IncidentView, Location, Position, MAX_LINE, SNIP_CONTEXT,
};
use crate::json::{
    field, json_denoted_deep, lemma_array_smaller, lemma_field_smaller, list_at, number_at,
    opt_json, parse_json_deep, text_at, views, Json, JsonView,
};
use crate::pattern::{
    compile, regex_first, regex_find, regex_is_match, regex_rejection, regex_text, regex_written,
};
use crate::resolve::{name_start, tidy_end};
use crate::text::{
    byte_len_of, cat2, chars_of, char_width, find_chars, find_from, index_after_bytes,
    lemma_find_from, lemma_in_either, lemma_in_pushed, lines, occurs_at, lines_text, list_contains,
    rfind_chars, rfind_from, same_text, string_of, texts, utf8,
};
use vstd::prelude::*;

verus! {

// ── Files ───────────────────────────────────────────────────────────────

/// The extension of a path: what follows the last dot of its name, unless that is the
/// first character; empty without one.
pub open spec fn extension_of(path: Seq<char>) -> Seq<char> {
    let t = tidy_end(path);
    let name = t.skip(name_start(t));
    if name == ".."@ {
        Seq::empty()
    } else {
        match rfind_from(name, "."@, name.len() as int) {
            Some(dot) => if dot > 0 {
                name.skip(dot + 1)
            } else {
                Seq::empty()
            },
            None => Seq::empty(),
        }
    }
}

pub open spec fn css_extensions() -> Seq<Seq<char>> {
    seq!["css"@, "scss"@, "less"@, "sass"@]
}

pub open spec fn skipped_dirs() -> Seq<Seq<char>> {
    seq![
        "node_modules"@,
        ".git"@,
        "dist"@,
        "build"@,
        "target"@,
        ".next"@,
        ".nuxt"@,
        "coverage"@,
    ]
}

/// The extension of a path.
pub fn extension(path: &str) -> (r: String)
    ensures
        r@ == extension_of(path@),
{
    let t = crate::resolve::tidy(path);
    let total: usize = t.len();
    let start: usize = match crate::resolve::find_last_slash(&t) {
        Some(i) => i + 1,
        None => 0,
    };
    let name = vstd::slice::slice_subrange(t.as_slice(), start, total);
    assert(name@ =~= t@.skip(start as int));
    let name_text = string_of(name);
    let nothing = String::new();
    assert(nothing@ =~= Seq::<char>::empty());
    if same_text(name_text.as_str(), "..") {
        return nothing;
    }
    let dot = chars_of(".");
    proof {
        reveal_strlit(".");
    }
    match rfind_chars(name, dot.as_slice()) {
        Some(d) => if d > 0 {
            let end: usize = name.len();
            let tail = vstd::slice::slice_subrange(name, d + 1, end);
            assert(tail@ =~= name@.skip(d + 1));
            string_of(tail)
        } else {
            nothing
        },
        None => nothing,
    }
}

/// Whether directories of this name are not searched for stylesheets.
pub fn is_skipped_css_dir(name: &str) -> (r: bool)
    ensures
        r == skipped_dirs().contains(name@),
{
    let mut names: Vec<String> = Vec::new();
    names.push("node_modules".to_owned());
    names.push(".git".to_owned());
    names.push("dist".to_owned());
    names.push("build".to_owned());
    names.push("target".to_owned());
    names.push(".next".to_owned());
    names.push(".nuxt".to_owned());
    names.push("coverage".to_owned());
    assert(texts(names@) =~= skipped_dirs());
    list_contains(&names, name)
}

/// Whether a file is a stylesheet to search: one with a known extension whose path an
/// expression, if there is one, matches.
pub fn is_css_file(path: &str, pattern: Option<&regex::Regex>) -> (r: bool)
    ensures
        r == (css_extensions().contains(extension_of(path@)) && (pattern matches Some(re) ==> regex_is_match(
            regex_text(*re),
            path@,
        ))),
{
    let mut known: Vec<String> = Vec::new();
    known.push("css".to_owned());
    known.push("scss".to_owned());
    known.push("less".to_owned());
    known.push("sass".to_owned());
    assert(texts(known@) =~= css_extensions());
    let ext = extension(path);
    list_contains(&known, ext.as_str()) && match pattern {
        Some(re) => re.is_match(path),
        None => true,
    }
}

/// The URI of a file; a relative path lies under the root.
pub open spec fn uri_of_path(path: Seq<char>, root: Seq<char>) -> Seq<char> {
    "file://"@ + joined_path(root, path)
}

/// The URI of a file.
pub fn path_to_uri(path: &str, root: &str) -> (r: String)
    ensures
        r@ == uri_of_path(path@, root@),
{
    let absolute = join_path(root, path);
    cat2("file://", absolute.as_str())
}

// ── Places ──────────────────────────────────────────────────────────────

/// A column as it is held: the largest number where it does not fit.
pub open spec fn column(n: nat) -> u32 {
    if n <= u32::MAX {
        n as u32
    } else {
        u32::MAX
    }
}

/// A line number as an incident carries it, from a line index.
pub open spec fn line_number(index: nat) -> u32 {
    if index < MAX_LINE {
        (index + 1) as u32
    } else {
        MAX_LINE
    }
}

fn hold_column(n: usize) -> (r: u32)
    ensures
        r == column(n as nat),
{
    if n <= u32::MAX as usize {
        n as u32
    } else {
        u32::MAX
    }
}

fn hold_line(index: usize) -> (r: u32)
    ensures
        r == line_number(index as nat),
        1 <= r <= MAX_LINE,
{
    if index < MAX_LINE as usize {
        (index + 1) as u32
    } else {
        MAX_LINE
    }
}

/// An incident on one line, between two columns, with a variable.
pub open spec fn incident_on_line(
    source: Seq<char>,
    file_uri: Seq<char>,
    line: u32,
    from: u32,
    to: u32,
    key: Seq<char>,
    value: Seq<char>,
) -> IncidentView {
    IncidentView {
        code_snip: Some(code_snip_of(source, line, SNIP_CONTEXT)),
        ..bare_incident(
            file_uri,
            line,
            Location {
                start: Position { line: (line - 1) as u32, character: from },
                end: Position { line: (line - 1) as u32, character: to },
            },
        ).with_text(key, value)
    }
}

fn make_incident_on_line(
    source: &str,
    file_uri: &str,
    line: u32,
    from: u32,
    to: u32,
    key: &str,
    value: &str,
) -> (r: Incident)
    requires
        1 <= line <= MAX_LINE,
    ensures
        r@ == incident_on_line(source@, file_uri@, line, from, to, key@, value@),
{
    let start = Position { line: line - 1, character: from };
    let end = Position { line: line - 1, character: to };
    let mut incident = Incident::new(file_uri.to_owned(), line, Location { start, end });
    incident.set_text(key, value);
    incident.with_code_snip(extract_code_snip(source, line, SNIP_CONTEXT))
}

// ── Line by line ────────────────────────────────────────────────────────

/// Why a stylesheet cannot be searched.
#[derive(Debug)]
pub enum CssScanError {
    /// The expression for classes is rejected, with the reason.
    InvalidExpression(String),
    /// A match for a class begins with no character of a single byte that could be its
    /// dot.
    NoDot,
    /// A rule begins on a line that the text does not have.
    NoSuchLine,
}

pub ghost enum CssErrorView {
    InvalidExpression(Seq<char>),
    NoDot,
    NoSuchLine,
}

impl CssScanError {
    pub open spec fn view(&self) -> CssErrorView {
        match self {
            CssScanError::InvalidExpression(m) => CssErrorView::InvalidExpression(m@),
            CssScanError::NoDot => CssErrorView::NoDot,
            CssScanError::NoSuchLine => CssErrorView::NoSuchLine,
        }
    }
}

pub type IncidentsView = Result<Seq<IncidentView>, CssErrorView>;

pub open spec fn css_result(r: Result<Vec<Incident>, CssScanError>) -> IncidentsView {
    match r {
        Ok(v) => Ok(incident_views(v@)),
        Err(e) => Err(e@),
    }
}

/// The expression for a class in a selector: a dot, then the text of the pattern.
pub open spec fn class_expression(written: Seq<char>) -> Seq<char> {
    "\\."@ + written
}

/// What a line of a stylesheet gives: an incident for its first class, without the
/// dot, or else for the first match of the pattern. `written` is the text of the
/// pattern, which the expression for classes is made from.
pub open spec fn line_incident(
    source: Seq<char>,
    file_uri: Seq<char>,
    index: nat,
    line: Seq<char>,
    pattern: Seq<char>,
    written: Seq<char>,
) -> Result<Option<IncidentView>, CssErrorView> {
    let number = line_number(index);
    match regex_first(class_expression(written), line) {
        Some(m) => if m.2.len() == 0 || char_width(m.2[0]) != 1 {
            Err(CssErrorView::NoDot)
        } else {
            Ok(
                Some(
                    incident_on_line(
                        source,
                        file_uri,
                        number,
                        column(m.0),
                        column(m.1),
                        "className"@,
                        m.2.skip(1),
                    ),
                ),
            )
        },
        None => match regex_first(pattern, line) {
            Some(m) => Ok(
                Some(
                    incident_on_line(
                        source,
                        file_uri,
                        number,
                        column(m.0),
                        column(m.1),
                        "matchingText"@,
                        m.2,
                    ),
                ),
            ),
            None => Ok(None),
        },
    }
}

/// The incidents of the first `n` lines of a stylesheet; the first error ends it.
pub open spec fn class_lines(
    source: Seq<char>,
    file_uri: Seq<char>,
    pattern: Seq<char>,
    written: Seq<char>,
    n: int,
) -> IncidentsView
    decreases n,
{
    if n <= 0 {
        Ok(Seq::empty())
    } else {
        match class_lines(source, file_uri, pattern, written, n - 1) {
            Err(e) => Err(e),
            Ok(before) => match line_incident(
                source,
                file_uri,
                (n - 1) as nat,
                lines(source)[n - 1],
                pattern,
                written,
            ) {
                Err(e) => Err(e),
                Ok(Some(i)) => Ok(before.push(i)),
                Ok(None) => Ok(before),
            },
        }
    }
}

/// What a search for classes by line gives.
pub open spec fn class_matches(
    source: Seq<char>,
    file_uri: Seq<char>,
    pattern: Seq<char>,
    written: Seq<char>,
) -> IncidentsView {
    match regex_rejection(class_expression(written)) {
        Some(m) => Err(CssErrorView::InvalidExpression(m)),
        None => class_lines(source, file_uri, pattern, written, lines(source).len() as int),
    }
}

/// The incidents of the first `n` lines for custom properties: one for the first match
/// on each line.
pub open spec fn var_lines(
    source: Seq<char>,
    file_uri: Seq<char>,
    pattern: Seq<char>,
    n: int,
) -> Seq<IncidentView>
    decreases n,
{
    if n <= 0 {
        Seq::empty()
    } else {
        let before = var_lines(source, file_uri, pattern, n - 1);
        match regex_first(pattern, lines(source)[n - 1]) {
            Some(m) => before.push(
                incident_on_line(
                    source,
                    file_uri,
                    line_number((n - 1) as nat),
                    column(m.0),
                    column(m.1),
                    "variableName"@,
                    m.2,
                ),
            ),
            None => before,
        }
    }
}

proof fn lemma_class_lines_error(
    source: Seq<char>,
    file_uri: Seq<char>,
    pattern: Seq<char>,
    written: Seq<char>,
    n: int,
    m: int,
)
    requires
        0 <= n <= m,
        class_lines(source, file_uri, pattern, written, n) is Err,
    ensures
        class_lines(source, file_uri, pattern, written, m) == class_lines(source, file_uri, pattern, written, n),
    decreases m - n,
{
    if n < m {
        lemma_class_lines_error(source, file_uri, pattern, written, n, m - 1);
    }
}

fn scan_line(
    source: &str,
    file_uri: &str,
    index: usize,
    line: &str,
    class_re: &regex::Regex,
    pattern: &regex::Regex,
) -> (r: Result<Option<Incident>, CssScanError>)
    requires
        regex_text(*class_re) == class_expression(regex_written(*pattern)),
    ensures
        (match r {
            Ok(Some(i)) => Ok(Some(i@)),
            Ok(None) => Ok(None),
            Err(e) => Err(e@),
        }) == line_incident(
            source@,
            file_uri@,
            index as nat,
            line@,
            regex_text(*pattern),
            regex_written(*pattern),
        ),
{
    let number: u32 = hold_line(index);
    match regex_find(class_re, line) {
        Some(m) => {
            let c = chars_of(m.text.as_str());
            let end: usize = c.len();
            if end == 0 || !is_single_byte(c[0]) {
                return Err(CssScanError::NoDot);
            }
            let tail = vstd::slice::slice_subrange(c.as_slice(), 1, end);
            assert(tail@ =~= m.text@.skip(1));
            let name = string_of(tail);
            Ok(
                Some(
                    make_incident_on_line(
                        source,
                        file_uri,
                        number,
                        hold_column(m.start),
                        hold_column(m.end),
                        "className",
                        name.as_str(),
                    ),
                ),
            )
        },
        None => match regex_find(pattern, line) {
            Some(m) => Ok(
                Some(
                    make_incident_on_line(
                        source,
                        file_uri,
                        number,
                        hold_column(m.start),
                        hold_column(m.end),
                        "matchingText",
                        m.text.as_str(),
                    ),
                ),
            ),
            None => Ok(None),
        },
    }
}

fn is_single_byte(c: char) -> (r: bool)
    ensures
        r == (char_width(c) == 1),
{
    (c as u32) < 0x80
}

/// Searches a stylesheet for classes line by line.
pub fn scan_scss_classes(
    source: &str,
    file_uri: &str,
    pattern: &regex::Regex,
) -> (r: Result<Vec<Incident>, CssScanError>)
    ensures
        css_result(r) == class_matches(
            source@,
            file_uri@,
            regex_text(*pattern),
            regex_written(*pattern),
        ),
{
    let expression = cat2("\\.", pattern.as_str());
    let class_re = match compile(expression.as_str()) {
        Ok(re) => re,
        Err(m) => {
            return Err(CssScanError::InvalidExpression(m));
        },
    };
    let ghost p = regex_text(*pattern);
    let ghost w = regex_written(*pattern);
    let all = lines_text(source);
    let mut out: Vec<Incident> = Vec::new();
    let mut i: usize = 0;
    assert(incident_views(out@) =~= Seq::<IncidentView>::empty());
    while i < all.len()
        invariant
            i <= all@.len(),
            p == regex_text(*pattern),
            w == regex_written(*pattern),
            regex_text(class_re) == class_expression(w),
            regex_rejection(class_expression(w)) is None,
            texts(all@) == lines(source@),
            class_lines(source@, file_uri@, p, w, i as int) == IncidentsView::Ok(
                incident_views(out@),
            ),
        decreases all@.len() - i,
    {
        assert(lines(source@)[i as int] == all@[i as int]@);
        match scan_line(source, file_uri, i, all[i].as_str(), &class_re, pattern) {
            Ok(Some(incident)) => {
                proof {
                    lemma_incident_views_push(out@, incident);
                }
                out.push(incident);
            },
            Ok(None) => {},
            Err(e) => {
                proof {
                    lemma_class_lines_error(
                        source@,
                        file_uri@,
                        p,
                        w,
                        i + 1,
                        lines(source@).len() as int,
                    );
                }
                return Err(e);
            },
        }
        i = i + 1;
    }
    assert(texts(all@).len() == all@.len());
    Ok(out)
}

/// Searches a stylesheet for custom properties line by line.
pub fn scan_scss_vars(source: &str, file_uri: &str, pattern: &regex::Regex) -> (r: Vec<Incident>)
    ensures
        incident_views(r@) == var_lines(
            source@,
            file_uri@,
            regex_text(*pattern),
            lines(source@).len() as int,
        ),
{
    let all = lines_text(source);
    let mut out: Vec<Incident> = Vec::new();
    let mut i: usize = 0;
    assert(incident_views(out@) =~= Seq::<IncidentView>::empty());
    while i < all.len()
        invariant
            i <= all@.len(),
            texts(all@) == lines(source@),
            incident_views(out@) == var_lines(source@, file_uri@, regex_text(*pattern), i as int),
        decreases all@.len() - i,
    {
        assert(lines(source@)[i as int] == all@[i as int]@);
        if let Some(m) = regex_find(pattern, all[i].as_str()) {
            let incident = make_incident_on_line(
                source,
                file_uri,
                hold_line(i),
                hold_column(m.start),
                hold_column(m.end),
                "variableName",
                m.text.as_str(),
            );
            proof {
                lemma_incident_views_push(out@, incident);
            }
            out.push(incident);
        }
        i = i + 1;
    }
    assert(texts(all@).len() == all@.len());
    out
}

// ── Parsed stylesheets ──────────────────────────────────────────────────

/// The JSON form of what `lightningcss` reads from a text, where it parses.
pub uninterp spec fn stylesheet_json(source: Seq<char>) -> Option<Seq<char>>;

/// `lightningcss::stylesheet::StyleSheet::parse` with default options, and its
/// `Serialize` through `serde_json::to_string`: the outcome is a function of the text,
/// named by `stylesheet_json`. A text with math functions is left out, because the
/// parser panics on some of them: where only a percentage may stand, on `calc(1)`.
#[verifier::external_body]
fn stylesheet_to_json(source: &str) -> (r: Option<String>)
    requires
        math_free(source@),
    ensures
        match r {
            Some(t) => stylesheet_json(source@) == Some(t@),
            None => stylesheet_json(source@) is None,
        },
{
    let options = lightningcss::stylesheet::ParserOptions::default();
    let sheet = lightningcss::stylesheet::StyleSheet::parse(source, options).ok()?;
    serde_json::to_string(&sheet).ok()
}

pub open spec fn has_type(j: JsonView, name: Seq<char>) -> bool {
    text_at(j, "type"@) == name
}

/// Whether a component takes selectors that are searched too: `:not`, `:is`, `:where`
/// and `:has`.
pub open spec fn takes_selectors(c: JsonView) -> bool {
    has_type(c, "pseudo-class"@) && (text_at(c, "kind"@) == "not"@ || text_at(c, "kind"@) == "is"@
        || text_at(c, "kind"@) == "where"@ || text_at(c, "kind"@) == "has"@)
}

/// Whether a compound selector begins at a component: at the first one, after a
/// combinator, and at a pseudo-element.
pub open spec fn begins_compound(items: Seq<JsonView>, i: int) -> bool {
    i <= 0 || has_type(items[i - 1], "combinator"@) || has_type(items[i], "pseudo-element"@)
}

/// Where the compound selector of a component begins.
pub open spec fn compound_start(items: Seq<JsonView>, i: int) -> int
    decreases i,
{
    if begins_compound(items, i) {
        if i < 0 {
            0
        } else {
            i
        }
    } else {
        compound_start(items, i - 1)
    }
}

proof fn lemma_compound_start(items: Seq<JsonView>, i: int)
    requires
        0 <= i,
    ensures
        0 <= compound_start(items, i) <= i,
    decreases i,
{
    if !begins_compound(items, i) {
        lemma_compound_start(items, i - 1);
    }
}

/// The classes that a component names, itself or in the selectors that it takes.
pub open spec fn component_classes(c: JsonView) -> Seq<Seq<char>>
    decreases c, 0nat, 0int,
{
    if has_type(c, "class"@) {
        seq![text_at(c, "name"@)]
    } else if takes_selectors(c) && list_at(c, "selectors"@).len() > 0 {
        proof {
            lemma_array_smaller(c, "selectors"@);
        }
        selectors_classes(list_at(c, "selectors"@), list_at(c, "selectors"@).len() as int)
    } else {
        Seq::empty()
    }
}

/// The classes of the first `n` of some selectors, one selector after the other.
pub open spec fn selectors_classes(v: Seq<JsonView>, n: int) -> Seq<Seq<char>>
    decreases v, 3nat, n,
{
    if n <= 0 || n > v.len() {
        Seq::empty()
    } else {
        selectors_classes(v, n - 1) + match v[n - 1] {
            JsonView::Array(items) => {
                proof {
                    assert(decreases_to!(v => v[n - 1]));
                    assert(decreases_to!(v[n - 1] => items));
                }
                classes_upto(items, items.len() as int)
            },
            _ => Seq::empty(),
        }
    }
}

/// The classes of the components before `end`, the last compound selector first, as a
/// selector is matched.
pub open spec fn classes_upto(items: Seq<JsonView>, end: int) -> Seq<Seq<char>>
    decreases items, 2nat, end,
{
    if end <= 0 || end > items.len() {
        Seq::empty()
    } else {
        let start = compound_start(items, end - 1);
        if 0 <= start < end {
            compound_classes(items, start, end) + classes_upto(items, start)
        } else {
            Seq::empty()
        }
    }
}

/// The classes of the components from `from` to `to`, in order.
pub open spec fn compound_classes(items: Seq<JsonView>, from: int, to: int) -> Seq<Seq<char>>
    decreases items, 1nat, to - from,
{
    if to <= from || from < 0 || to > items.len() {
        Seq::empty()
    } else {
        proof {
            assert(decreases_to!(items => items[to - 1]));
        }
        compound_classes(items, from, to - 1) + component_classes(items[to - 1])
    }
}

/// A class that a rule names, and the line on which the rule begins, counted from zero.
#[derive(Debug)]
pub struct ClassHit {
    pub line: u32,
    pub name: String,
}

pub ghost struct HitView {
    pub line: u32,
    pub name: Seq<char>,
}

impl ClassHit {
    pub open spec fn view(&self) -> HitView {
        HitView { line: self.line, name: self.name@ }
    }
}

pub open spec fn hit_views(v: Seq<ClassHit>) -> Seq<HitView> {
    Seq::new(v.len(), |i: int| v[i]@)
}

/// The names that match, as hits on a line.
pub open spec fn matching(names: Seq<Seq<char>>, line: u32, pattern: Seq<char>) -> Seq<HitView>
    decreases names.len(),
{
    if names.len() == 0 {
        Seq::empty()
    } else {
        let before = matching(names.drop_last(), line, pattern);
        if regex_is_match(pattern, names.last()) {
            before.push(HitView { line, name: names.last() })
        } else {
            before
        }
    }
}

/// What a rule holds, apart from its type.
pub open spec fn rule_body(rule: JsonView) -> JsonView {
    match field(rule, "value"@) {
        Some(v) => v,
        None => JsonView::Null,
    }
}

/// The line on which a rule begins, counted from zero.
pub open spec fn rule_line(body: JsonView) -> u32 {
    match field(body, "loc"@) {
        Some(loc) => number_at(loc, "line"@),
        None => 0,
    }
}

/// Whether a rule is searched for the rules in it: `@media`, `@supports` and `@layer`
/// blocks.
pub open spec fn is_group(rule: JsonView) -> bool {
    has_type(rule, "media"@) || has_type(rule, "supports"@) || has_type(rule, "layer-block"@)
}

/// The matching classes of a rule: those of the selectors of a style rule, and those
/// of the rules in it.
pub open spec fn rule_hits(rule: JsonView, pattern: Seq<char>) -> Seq<HitView>
    decreases rule, 0nat, 0int,
{
    let body = rule_body(rule);
    let nested = if (has_type(rule, "style"@) || is_group(rule)) && list_at(body, "rules"@).len() > 0 {
        proof {
            lemma_field_smaller(rule, "value"@);
            lemma_array_smaller(body, "rules"@);
        }
        rules_hits(list_at(body, "rules"@), list_at(body, "rules"@).len() as int, pattern)
    } else {
        Seq::empty()
    };
    if has_type(rule, "style"@) {
        matching(
            selectors_classes(
                list_at(body, "selectors"@),
                list_at(body, "selectors"@).len() as int,
            ),
            rule_line(body),
            pattern,
        ) + nested
    } else {
        nested
    }
}

pub open spec fn rules_hits(v: Seq<JsonView>, n: int, pattern: Seq<char>) -> Seq<HitView>
    decreases v, 1nat, n,
{
    if n <= 0 || n > v.len() {
        Seq::empty()
    } else {
        proof {
            assert(decreases_to!(v => v[n - 1]));
        }
        rules_hits(v, n - 1, pattern) + rule_hits(v[n - 1], pattern)
    }
}

/// The matching classes of a stylesheet, in order.
pub open spec fn sheet_hits(sheet: JsonView, pattern: Seq<char>) -> Seq<HitView> {
    rules_hits(list_at(sheet, "rules"@), list_at(sheet, "rules"@).len() as int, pattern)
}

fn is_of_type(j: &Json, name: &str) -> (r: bool)
    ensures
        r == has_type(j@, name@),
{
    let t = j.get_text("type");
    same_text(t.as_str(), name)
}

fn push_component_classes(c: &Json, out: &mut Vec<String>)
    ensures
        texts(final(out)@) == texts(old(out)@) + component_classes(c@),
    decreases c, 0nat, 0int,
{
    let ghost before = texts(out@);
    if is_of_type(c, "class") {
        let name = c.get_text("name");
        out.push(name);
        assert(texts(out@) =~= before + seq![name@]);
        return;
    }
    let kind = c.get_text("kind");
    if is_of_type(c, "pseudo-class") && (same_text(kind.as_str(), "not") || same_text(kind.as_str(), "is")
        || same_text(kind.as_str(), "where") || same_text(kind.as_str(), "has")) {
        if let Some(list) = c.get_list("selectors") {
            push_selectors_classes(list, out);
            assert(list@.len() == list_at(c@, "selectors"@).len());
            assert(texts(out@) =~= before + component_classes(c@));
            return;
        }
    }
    assert(texts(out@) =~= before + Seq::<Seq<char>>::empty());
}

fn push_selectors_classes(list: &Vec<Json>, out: &mut Vec<String>)
    ensures
        texts(final(out)@) == texts(old(out)@) + selectors_classes(views(list@), list@.len() as int),
    decreases list, 3nat, 0int,
{
    let ghost before = texts(out@);
    let ghost v = views(list@);
    let mut i: usize = 0;
    assert(texts(out@) =~= before + selectors_classes(v, 0));
    while i < list.len()
        invariant
            i <= list@.len(),
            v == views(list@),
            texts(out@) == before + selectors_classes(v, i as int),
        decreases list@.len() - i,
    {
        let ghost prior = texts(out@);
        assert(decreases_to!(list@ => list@[i as int]));
        if let Some(items) = list[i].as_array() {
            push_selector_classes(items, out);
            assert(v[i as int] == JsonView::Array(views(items@)));
            assert(texts(out@) =~= before + selectors_classes(v, i + 1));
        } else {
            assert(texts(out@) =~= before + selectors_classes(v, i + 1));
        }
        i = i + 1;
    }
}

fn find_compound_start(items: &Vec<Json>, i: usize) -> (r: usize)
    requires
        i < items@.len(),
    ensures
        r == compound_start(views(items@), i as int),
        r <= i,
{
    let ghost v = views(items@);
    let mut k: usize = i;
    loop
        invariant
            k <= i < items@.len(),
            v == views(items@),
            compound_start(v, i as int) == compound_start(v, k as int),
        decreases k,
    {
        if k == 0 || is_of_type(&items[k - 1], "combinator") || is_of_type(&items[k], "pseudo-element") {
            return k;
        }
        k = k - 1;
    }
}

fn push_selector_classes(items: &Vec<Json>, out: &mut Vec<String>)
    ensures
        texts(final(out)@) == texts(old(out)@) + classes_upto(views(items@), items@.len() as int),
    decreases items, 2nat, 0int,
{
    let ghost before = texts(out@);
    let ghost v = views(items@);
    let ghost all = classes_upto(v, v.len() as int);
    let mut end: usize = items.len();
    assert(texts(out@) + classes_upto(v, end as int) =~= before + all);
    while end > 0
        invariant
            end <= items@.len(),
            v == views(items@),
            texts(out@) + classes_upto(v, end as int) == before + all,
        decreases end,
    {
        let start: usize = find_compound_start(items, end - 1);
        let ghost prior = texts(out@);
        let mut i: usize = start;
        assert(prior + compound_classes(v, start as int, start as int) =~= prior);
        while i < end
            invariant
                start <= i <= end <= items@.len(),
                v == views(items@),
                texts(out@) == prior + compound_classes(v, start as int, i as int),
            decreases end - i,
        {
            let ghost here = texts(out@);
            assert(decreases_to!(items@ => items@[i as int]));
            push_component_classes(&items[i], out);
            assert(texts(out@) =~= prior + compound_classes(v, start as int, i + 1));
            i = i + 1;
        }
        assert(texts(out@) + classes_upto(v, start as int) =~= prior + classes_upto(v, end as int));
        end = start;
    }
    assert(texts(out@) =~= before + all);
}

/// Adds the classes of a selector that match, as hits on a line. A selector is a list
/// of components.
pub fn check_selector_components(
    selectors: &Vec<Json>,
    line: u32,
    pattern: &regex::Regex,
    hits: &mut Vec<ClassHit>,
)
    ensures
        hit_views(final(hits)@) == hit_views(old(hits)@) + matching(
            selectors_classes(views(selectors@), selectors@.len() as int),
            line,
            regex_text(*pattern),
        ),
{
    let ghost before = hit_views(hits@);
    let ghost p = regex_text(*pattern);
    let mut names: Vec<String> = Vec::new();
    assert(texts(names@) =~= Seq::<Seq<char>>::empty());
    push_selectors_classes(selectors, &mut names);
    let ghost t = selectors_classes(views(selectors@), selectors@.len() as int);
    assert(texts(names@) =~= t);
    let mut i: usize = 0;
    assert(hit_views(hits@) =~= before + matching(t.take(0), line, p));
    while i < names.len()
        invariant
            i <= names@.len(),
            t == texts(names@),
            p == regex_text(*pattern),
            hit_views(hits@) == before + matching(t.take(i as int), line, p),
        decreases names@.len() - i,
    {
        assert(t.take(i + 1).drop_last() =~= t.take(i as int));
        assert(t.take(i + 1).last() == names@[i as int]@);
        if pattern.is_match(names[i].as_str()) {
            let hit = ClassHit { line, name: names[i].clone() };
            let ghost prior = hits@;
            hits.push(hit);
            assert(hit_views(hits@) =~= hit_views(prior).push(hit@));
            assert(hit_views(hits@) =~= before + matching(t.take(i + 1), line, p));
        }
        i = i + 1;
    }
    assert(t.take(t.len() as int) =~= t);
}

/// Adds the classes of a rule that match.
pub fn scan_rule_for_classes(rule: &Json, pattern: &regex::Regex, hits: &mut Vec<ClassHit>)
    ensures
        hit_views(final(hits)@) == hit_views(old(hits)@) + rule_hits(rule@, regex_text(*pattern)),
    decreases rule, 0nat,
{
    let ghost before = hit_views(hits@);
    let ghost p = regex_text(*pattern);
    let style = is_of_type(rule, "style");
    let group = is_of_type(rule, "media") || is_of_type(rule, "supports") || is_of_type(
        rule,
        "layer-block",
    );
    let body = match rule.get("value") {
        Some(b) => b,
        None => {
            assert(list_at(JsonView::Null, "rules"@).len() == 0);
            assert(selectors_classes(list_at(JsonView::Null, "selectors"@), 0) =~= Seq::<Seq<char>>::empty());
            assert(hit_views(hits@) =~= before + rule_hits(rule@, p));
            return;
        },
    };
    let ghost own = if style {
        matching(
            selectors_classes(
                list_at(body@, "selectors"@),
                list_at(body@, "selectors"@).len() as int,
            ),
            rule_line(body@),
            p,
        )
    } else {
        Seq::empty()
    };
    if style {
        let line: u32 = match body.get("loc") {
            Some(loc) => loc.get_number("line"),
            None => 0,
        };
        if let Some(list) = body.get_list("selectors") {
            assert(list@.len() == list_at(body@, "selectors"@).len());
            check_selector_components(list, line, pattern, hits);
        }
    }
    assert(hit_views(hits@) =~= before + own);
    if style || group {
        if let Some(list) = body.get_list("rules") {
            assert(list@.len() == list_at(body@, "rules"@).len());
            scan_rules_for_classes(list, pattern, hits);
        }
    }
    assert(hit_views(hits@) =~= before + rule_hits(rule@, p));
}

fn scan_rules_for_classes(rules: &Vec<Json>, pattern: &regex::Regex, hits: &mut Vec<ClassHit>)
    ensures
        hit_views(final(hits)@) == hit_views(old(hits)@) + rules_hits(
            views(rules@),
            rules@.len() as int,
            regex_text(*pattern),
        ),
    decreases rules, 1nat,
{
    let ghost before = hit_views(hits@);
    let ghost v = views(rules@);
    let ghost p = regex_text(*pattern);
    let mut i: usize = 0;
    assert(hit_views(hits@) =~= before + rules_hits(v, 0, p));
    while i < rules.len()
        invariant
            i <= rules@.len(),
            v == views(rules@),
            p == regex_text(*pattern),
            hit_views(hits@) == before + rules_hits(v, i as int, p),
        decreases rules@.len() - i,
    {
        assert(decreases_to!(rules@ => rules@[i as int]));
        scan_rule_for_classes(&rules[i], pattern, hits);
        assert(hit_views(hits@) =~= before + rules_hits(v, i + 1, p));
        i = i + 1;
    }
}

// ── Places of classes ───────────────────────────────────────────────────

/// How many bytes the first `n` lines take, each with one byte for its end.
pub open spec fn lines_bytes(all: Seq<Seq<char>>, n: int) -> nat
    decreases n,
{
    if n <= 0 || n > all.len() {
        0
    } else {
        lines_bytes(all, n - 1) + utf8(all[n - 1]).len() + 1
    }
}

/// Where a rule that begins on a line is searched from: behind the lines before it.
pub open spec fn rule_start(source: Seq<char>, line: u32) -> Option<int> {
    let all = lines(source);
    let n = if line as int <= all.len() {
        line as int
    } else {
        all.len() as int
    };
    index_after_bytes(source, 0, lines_bytes(all, n) as int)
}

/// The incident for a class of a rule: where the class first stands, with its dot,
/// from the start of the rule on; none where it does not stand there.
pub open spec fn class_incident(
    source: Seq<char>,
    file_uri: Seq<char>,
    hit: HitView,
) -> Result<Option<IncidentView>, CssErrorView> {
    match rule_start(source, hit.line) {
        None => Err(CssErrorView::NoSuchLine),
        Some(k) => match find_from(source, "."@ + hit.name, k) {
            None => Ok(None),
            Some(p) => {
                let before = utf8(source.take(p + 1));
                let col = (before.len() - line_start(before)) as nat;
                Ok(
                    Some(
                        incident_on_line(
                            source,
                            file_uri,
                            line_number(newlines(before)),
                            column(col),
                            column(col + utf8(hit.name).len()),
                            "className"@,
                            hit.name,
                        ),
                    ),
                )
            },
        },
    }
}

/// The incidents of the first `n` hits; the first error ends it.
pub open spec fn hits_incidents(
    source: Seq<char>,
    file_uri: Seq<char>,
    hits: Seq<HitView>,
    n: int,
) -> IncidentsView
    decreases n,
{
    if n <= 0 {
        Ok(Seq::empty())
    } else {
        match hits_incidents(source, file_uri, hits, n - 1) {
            Err(e) => Err(e),
            Ok(before) => match class_incident(source, file_uri, hits[n - 1]) {
                Err(e) => Err(e),
                Ok(Some(i)) => Ok(before.push(i)),
                Ok(None) => Ok(before),
            },
        }
    }
}

proof fn lemma_hits_error(source: Seq<char>, file_uri: Seq<char>, hits: Seq<HitView>, n: int, m: int)
    requires
        0 <= n <= m,
        hits_incidents(source, file_uri, hits, n) is Err,
    ensures
        hits_incidents(source, file_uri, hits, m) == hits_incidents(source, file_uri, hits, n),
    decreases m - n,
{
    if n < m {
        lemma_hits_error(source, file_uri, hits, n, m - 1);
    }
}

fn find_rule_start(source: &str, c: &Vec<char>, line: u32) -> (r: Option<usize>)
    requires
        c@ == source@,
    ensures
        match r {
            Some(k) => rule_start(source@, line) == Some(k as int) && k <= c@.len(),
            None => rule_start(source@, line) is None,
        },
{
    let all = lines_text(source);
    let ghost t = lines(source@);
    let total: usize = all.len();
    assert(texts(all@).len() == total);
    let n: usize = if (line as usize) <= total {
        line as usize
    } else {
        total
    };
    let mut bytes: u128 = 0;
    let mut i: usize = 0;
    while i < n
        invariant
            i <= n <= all@.len(),
            n <= u32::MAX,
            t == texts(all@),
            bytes == lines_bytes(t, i as int),
            bytes <= i * 0x1_0000_0000_0000_0000,
        decreases n - i,
    {
        assert(t[i as int] == all@[i as int]@);
        let len: usize = byte_len_of(all[i].as_str());
        assert(bytes + len + 1 <= (i + 1) * 0x1_0000_0000_0000_0000);
        bytes = bytes + len as u128 + 1;
        i = i + 1;
    }
    crate::text::index_after(c.as_slice(), bytes)
}

fn count_lines(prefix: &[char]) -> (r: (usize, usize))
    ensures
        r.0 == newlines(utf8(prefix@)),
        r.1 == utf8(prefix@).len() - line_start(utf8(prefix@)),
{
    let text = string_of(prefix);
    let bytes = text.as_str().as_bytes();
    let total: usize = bytes.len();
    let mut found: usize = 0;
    let mut begin: usize = 0;
    let mut i: usize = 0;
    while i < total
        invariant
            i <= total,
            total == bytes@.len(),
            found == newlines(bytes@.take(i as int)),
            begin == line_start(bytes@.take(i as int)),
            found <= i,
            begin <= i,
        decreases total - i,
    {
        assert(bytes@.take(i + 1).drop_last() =~= bytes@.take(i as int));
        if bytes[i] == 10 {
            found = found + 1;
            begin = i + 1;
        }
        i = i + 1;
    }
    assert(bytes@.take(total as int) =~= bytes@);
    (found, total - begin)
}

/// The incident for a class of a rule, at the place where the class stands.
pub fn emit_class_incident(
    source: &str,
    file_uri: &str,
    hit: &ClassHit,
) -> (r: Result<Option<Incident>, CssScanError>)
    ensures
        (match r {
            Ok(Some(i)) => Ok(Some(i@)),
            Ok(None) => Ok(None),
            Err(e) => Err(e@),
        }) == class_incident(source@, file_uri@, hit@),
{
    let c = chars_of(source);
    let from = match find_rule_start(source, &c, hit.line) {
        Some(k) => k,
        None => {
            return Err(CssScanError::NoSuchLine);
        },
    };
    let needle_text = cat2(".", hit.name.as_str());
    let needle = chars_of(needle_text.as_str());
    proof {
        reveal_strlit(".");
    }
    match find_chars(c.as_slice(), needle.as_slice(), from) {
        None => Ok(None),
        Some(p) => {
            let end: usize = c.len();
            assert(p < end);
            let prefix = vstd::slice::slice_subrange(c.as_slice(), 0, p + 1);
            assert(prefix@ =~= source@.take(p + 1));
            let (found, col) = count_lines(prefix);
            let name_len: usize = byte_len_of(hit.name.as_str());
            let start: u32 = hold_column(col);
            let stop: u32 = if name_len <= usize::MAX - col {
                hold_column(col + name_len)
            } else {
                u32::MAX
            };
            Ok(
                Some(
                    make_incident_on_line(
                        source,
                        file_uri,
                        hold_line(found),
                        start,
                        stop,
                        "className",
                        hit.name.as_str(),
                    ),
                ),
            )
        },
    }
}

fn emit_all(source: &str, file_uri: &str, hits: &Vec<ClassHit>) -> (r: Result<Vec<Incident>, CssScanError>)
    ensures
        css_result(r) == hits_incidents(source@, file_uri@, hit_views(hits@), hits@.len() as int),
{
    let ghost v = hit_views(hits@);
    let mut out: Vec<Incident> = Vec::new();
    let mut i: usize = 0;
    assert(incident_views(out@) =~= Seq::<IncidentView>::empty());
    while i < hits.len()
        invariant
            i <= hits@.len(),
            v == hit_views(hits@),
            hits_incidents(source@, file_uri@, v, i as int) == IncidentsView::Ok(incident_views(out@)),
        decreases hits@.len() - i,
    {
        assert(v[i as int] == hits@[i as int]@);
        match emit_class_incident(source, file_uri, &hits[i]) {
            Ok(Some(incident)) => {
                proof {
                    lemma_incident_views_push(out@, incident);
                }
                out.push(incident);
            },
            Ok(None) => {},
            Err(e) => {
                proof {
                    lemma_hits_error(source@, file_uri@, v, i + 1, v.len() as int);
                }
                return Err(e);
            },
        }
        i = i + 1;
    }
    Ok(out)
}

/// What a search for classes in a parsed stylesheet gives; where it did not parse, what
/// a search by line gives.
pub open spec fn selector_matches(
    source: Seq<char>,
    file_uri: Seq<char>,
    sheet: Option<JsonView>,
    pattern: Seq<char>,
    written: Seq<char>,
) -> IncidentsView {
    match sheet {
        Some(j) => hits_incidents(
            source,
            file_uri,
            sheet_hits(j, pattern),
            sheet_hits(j, pattern).len() as int,
        ),
        None => class_matches(source, file_uri, pattern, written),
    }
}

/// The parsed form of a stylesheet, in which a zero stands for each math function.
pub open spec fn parsed_sheet(source: Seq<char>) -> Option<JsonView> {
    match plain_sheet(source) {
        Some(plain) => match stylesheet_json(plain) {
            Some(text) => json_denoted_deep(text),
            None => None,
        },
        None => None,
    }
}

/// Parses a stylesheet.
fn parse_sheet(source: &str) -> (r: Option<Json>)
    ensures
        opt_json(r) == parsed_sheet(source@),
{
    match remove_math(source) {
        Some(plain) => match stylesheet_to_json(plain.as_str()) {
            Some(text) => parse_json_deep(text.as_str()),
            None => None,
        },
        None => None,
    }
}

/// Searches a parsed stylesheet for classes.
pub fn scan_sheet(
    source: &str,
    file_uri: &str,
    sheet: &Option<Json>,
    pattern: &regex::Regex,
) -> (r: Result<Vec<Incident>, CssScanError>)
    ensures
        css_result(r) == selector_matches(
            source@,
            file_uri@,
            opt_json(*sheet),
            regex_text(*pattern),
            regex_written(*pattern),
        ),
{
    let json = match sheet {
        Some(j) => j,
        None => {
            return scan_scss_classes(source, file_uri, pattern);
        },
    };
    let mut hits: Vec<ClassHit> = Vec::new();
    assert(hit_views(hits@) =~= Seq::<HitView>::empty());
    if let Some(list) = json.get_list("rules") {
        assert(list@.len() == list_at(json@, "rules"@).len());
        scan_rules_for_classes(list, pattern, &mut hits);
    }
    assert(hit_views(hits@) =~= sheet_hits(json@, regex_text(*pattern)));
    emit_all(source, file_uri, &hits)
}

/// Searches a CSS stylesheet for classes in its selectors. One that does not parse is
/// searched line by line.
pub fn scan_css_selectors(
    source: &str,
    file_uri: &str,
    pattern: &regex::Regex,
) -> (r: Result<Vec<Incident>, CssScanError>)
    ensures
        css_result(r) == selector_matches(
            source@,
            file_uri@,
            parsed_sheet(source@),
            regex_text(*pattern),
            regex_written(*pattern),
        ),
{
    let sheet = parse_sheet(source);
    scan_sheet(source, file_uri, &sheet, pattern)
}

/// Searches a CSS stylesheet for custom properties, in declarations and in `var()`.
pub fn scan_css_variables(source: &str, file_uri: &str, pattern: &regex::Regex) -> (r: Vec<Incident>)
    ensures
        incident_views(r@) == var_lines(
            source@,
            file_uri@,
            regex_text(*pattern),
            lines(source@).len() as int,
        ),
{
    scan_scss_vars(source, file_uri, pattern)
}

pub open spec fn is_preprocessed(extension: Seq<char>) -> bool {
    extension == "scss"@ || extension == "less"@ || extension == "sass"@
}

fn is_preprocessed_text(extension: &str) -> (r: bool)
    ensures
        r == is_preprocessed(extension@),
{
    same_text(extension, "scss") || same_text(extension, "less") || same_text(extension, "sass")
}

/// Searches a stylesheet for classes, by its extension: other files give nothing.
pub fn scan_css_file_classes(
    file_path: &str,
    root: &str,
    source: &str,
    pattern: &regex::Regex,
) -> (r: Result<Vec<Incident>, CssScanError>)
    ensures
        css_result(r) == (if extension_of(file_path@) == "css"@ {
            selector_matches(
                source@,
                uri_of_path(file_path@, root@),
                parsed_sheet(source@),
                regex_text(*pattern),
                regex_written(*pattern),
            )
        } else if is_preprocessed(extension_of(file_path@)) {
            class_matches(
                source@,
                uri_of_path(file_path@, root@),
                regex_text(*pattern),
                regex_written(*pattern),
            )
        } else {
            Ok(Seq::empty())
        }),
{
    let ext = extension(file_path);
    let uri = path_to_uri(file_path, root);
    if same_text(ext.as_str(), "css") {
        scan_css_selectors(source, uri.as_str(), pattern)
    } else if is_preprocessed_text(ext.as_str()) {
        scan_scss_classes(source, uri.as_str(), pattern)
    } else {
        let none: Vec<Incident> = Vec::new();
        assert(incident_views(none@) =~= Seq::<IncidentView>::empty());
        Ok(none)
    }
}

/// Searches a stylesheet for custom properties: files of other extensions give nothing.
pub fn scan_css_file_vars(
    file_path: &str,
    root: &str,
    source: &str,
    pattern: &regex::Regex,
) -> (r: Vec<Incident>)
    ensures
        incident_views(r@) == (if css_extensions().contains(extension_of(file_path@)) {
            var_lines(
                source@,
                uri_of_path(file_path@, root@),
                regex_text(*pattern),
                lines(source@).len() as int,
            )
        } else {
            Seq::empty()
        }),
{
    let uri = path_to_uri(file_path, root);
    if is_css_file(file_path, None) {
        scan_css_variables(source, uri.as_str(), pattern)
    } else {
        let none: Vec<Incident> = Vec::new();
        assert(incident_views(none@) =~= Seq::<IncidentView>::empty());
        none
    }
}

/// Every class that is found in a selector matches the pattern.
pub proof fn hits_match(names: Seq<Seq<char>>, line: u32, pattern: Seq<char>)
    ensures
        forall|i: int|
            0 <= i < matching(names, line, pattern).len() ==> regex_is_match(
                pattern,
                (#[trigger] matching(names, line, pattern)[i]).name,
            ) && matching(names, line, pattern)[i].line == line,
    decreases names.len(),
{
    if names.len() > 0 {
        let before = matching(names.drop_last(), line, pattern);
        let now = matching(names, line, pattern);
        hits_match(names.drop_last(), line, pattern);
        assert forall|i: int| 0 <= i < now.len() implies regex_is_match(pattern, (#[trigger] now[i]).name)
            && now[i].line == line by {
            if i < before.len() {
                assert(now[i] == before[i]);
            }
        }
    }
}

/// A search by line reports a line at most once.
pub proof fn at_most_one_per_line(
    source: Seq<char>,
    file_uri: Seq<char>,
    pattern: Seq<char>,
    written: Seq<char>,
    n: int,
)
    requires
        0 <= n,
    ensures
        class_lines(source, file_uri, pattern, written, n) matches Ok(v) ==> v.len() <= n,
        var_lines(source, file_uri, pattern, n).len() <= n,
    decreases n,
{
    if n > 0 {
        at_most_one_per_line(source, file_uri, pattern, written, n - 1);
    }
}

// ── Every class is found ────────────────────────────────────────────────

/// Whether a component of a selector names a class: it is that class, or a `:not`, `:is`,
/// `:where` or `:has` with a selector that names it.
pub open spec fn selects(c: JsonView, name: Seq<char>) -> bool
    decreases c, 0nat,
{
    let kind = text_at(c, "kind"@);
    if text_at(c, "type"@) == "class"@ {
        text_at(c, "name"@) == name
    } else if text_at(c, "type"@) == "pseudo-class"@ && (kind == "not"@ || kind == "is"@ || kind
        == "where"@ || kind == "has"@) && list_at(c, "selectors"@).len() > 0 {
        proof {
            lemma_array_smaller(c, "selectors"@);
        }
        some_selects(list_at(c, "selectors"@), name)
    } else {
        false
    }
}

/// Whether one of some selectors names a class in one of its components.
pub open spec fn some_selects(selectors: Seq<JsonView>, name: Seq<char>) -> bool
    decreases selectors, 0nat,
{
    exists|i: int| 0 <= i < selectors.len() && selector_names(#[trigger] selectors[i], name)
}

pub open spec fn selector_names(selector: JsonView, name: Seq<char>) -> bool
    decreases selector, 0nat,
{
    selector matches JsonView::Array(items) && exists|k: int|
        0 <= k < items.len() && selects(#[trigger] items[k], name)
}

proof fn lemma_component(c: JsonView, name: Seq<char>)
    ensures
        component_classes(c).contains(name) <==> selects(c, name),
    decreases c, 0nat, 0int,
{
    if has_type(c, "class"@) {
        assert(seq![text_at(c, "name"@)][0] == text_at(c, "name"@));
    } else if takes_selectors(c) && list_at(c, "selectors"@).len() > 0 {
        lemma_array_smaller(c, "selectors"@);
        let v = list_at(c, "selectors"@);
        lemma_selectors(v, v.len() as int, name);
        assert(some_selects(v, name) <==> exists|i: int|
            0 <= i < v.len() && selector_names(#[trigger] v[i], name));
    }
}

proof fn lemma_selectors(v: Seq<JsonView>, n: int, name: Seq<char>)
    requires
        0 <= n <= v.len(),
    ensures
        selectors_classes(v, n).contains(name) <==> exists|i: int|
            0 <= i < n && selector_names(#[trigger] v[i], name),
    decreases v, 3nat, n,
{
    if n > 0 {
        lemma_selectors(v, n - 1, name);
        let before = selectors_classes(v, n - 1);
        let last = match v[n - 1] {
            JsonView::Array(items) => classes_upto(items, items.len() as int),
            _ => Seq::empty(),
        };
        lemma_in_either(before, last, name);
        if let JsonView::Array(items) = v[n - 1] {
            assert(decreases_to!(v => v[n - 1]));
            assert(decreases_to!(v[n - 1] => items));
            lemma_classes_upto(items, items.len() as int, name);
        }
        assert(last.contains(name) <==> selector_names(v[n - 1], name));
        if selector_names(v[n - 1], name) {
            assert(exists|i: int| 0 <= i < n && selector_names(#[trigger] v[i], name));
        }
    }
}

proof fn lemma_classes_upto(items: Seq<JsonView>, end: int, name: Seq<char>)
    requires
        0 <= end <= items.len(),
    ensures
        classes_upto(items, end).contains(name) <==> exists|k: int|
            0 <= k < end && selects(#[trigger] items[k], name),
    decreases items, 2nat, end,
{
    if end > 0 {
        let start = compound_start(items, end - 1);
        lemma_compound_start(items, end - 1);
        lemma_compound(items, start, end, name);
        lemma_classes_upto(items, start, name);
        lemma_in_either(compound_classes(items, start, end), classes_upto(items, start), name);
        if exists|k: int| 0 <= k < end && selects(#[trigger] items[k], name) {
            let k = choose|k: int| 0 <= k < end && selects(#[trigger] items[k], name);
            assert(k < start || start <= k < end);
        }
    }
}

proof fn lemma_compound(items: Seq<JsonView>, from: int, to: int, name: Seq<char>)
    requires
        0 <= from <= to <= items.len(),
    ensures
        compound_classes(items, from, to).contains(name) <==> exists|k: int|
            from <= k < to && selects(#[trigger] items[k], name),
    decreases items, 1nat, to - from,
{
    if from < to {
        assert(decreases_to!(items => items[to - 1]));
        lemma_compound(items, from, to - 1, name);
        lemma_component(items[to - 1], name);
        lemma_in_either(
            compound_classes(items, from, to - 1),
            component_classes(items[to - 1]),
            name,
        );
        if selects(items[to - 1], name) {
            assert(exists|k: int| from <= k < to && selects(#[trigger] items[k], name));
        }
    }
}

/// Whether a rule, or a rule in it, is a style rule that begins on a line and has a selector
/// that names a class.
pub open spec fn rule_names(rule: JsonView, h: HitView) -> bool
    decreases rule, 0nat,
{
    let body = field(rule, "value"@);
    let kind = text_at(rule, "type"@);
    body matches Some(b) && ((kind == "style"@ && h.line == rule_line(b) && some_selects(
        list_at(b, "selectors"@),
        h.name,
    )) || ((kind == "style"@ || kind == "media"@ || kind == "supports"@ || kind == "layer-block"@)
        && list_at(b, "rules"@).len() > 0 && {
        proof {
            lemma_field_smaller(rule, "value"@);
            lemma_array_smaller(b, "rules"@);
        }
        some_rule_names(list_at(b, "rules"@), h)
    }))
}

pub open spec fn some_rule_names(rules: Seq<JsonView>, h: HitView) -> bool
    decreases rules, 0nat,
{
    exists|i: int| 0 <= i < rules.len() && rule_names(#[trigger] rules[i], h)
}

proof fn lemma_matching(names: Seq<Seq<char>>, line: u32, pattern: Seq<char>, h: HitView)
    ensures
        matching(names, line, pattern).contains(h) <==> h.line == line && names.contains(h.name)
            && regex_is_match(pattern, h.name),
    decreases names.len(),
{
    if names.len() > 0 {
        let rest = names.drop_last();
        lemma_matching(rest, line, pattern, h);
        lemma_in_pushed(rest, names.last(), h.name);
        assert(rest.push(names.last()) =~= names);
        lemma_in_pushed(
            matching(rest, line, pattern),
            HitView { line, name: names.last() },
            h,
        );
        assert(h == HitView { line, name: names.last() } <==> h.line == line && h.name
            == names.last());
    }
}

proof fn lemma_rule(rule: JsonView, pattern: Seq<char>, h: HitView)
    ensures
        rule_hits(rule, pattern).contains(h) <==> rule_names(rule, h) && regex_is_match(
            pattern,
            h.name,
        ),
    decreases rule, 0nat, 0int,
{
    let body = rule_body(rule);
    let deep = (has_type(rule, "style"@) || is_group(rule)) && list_at(body, "rules"@).len() > 0;
    let inner = list_at(body, "rules"@);
    let nested = if deep {
        rules_hits(inner, inner.len() as int, pattern)
    } else {
        Seq::empty()
    };
    if deep {
        lemma_field_smaller(rule, "value"@);
        lemma_array_smaller(body, "rules"@);
        lemma_rules(inner, inner.len() as int, pattern, h);
        assert(some_rule_names(inner, h) <==> exists|i: int|
            0 <= i < inner.len() && rule_names(#[trigger] inner[i], h));
    }
    if has_type(rule, "style"@) {
        let selectors = list_at(body, "selectors"@);
        let names = selectors_classes(selectors, selectors.len() as int);
        lemma_selectors(selectors, selectors.len() as int, h.name);
        lemma_matching(names, rule_line(body), pattern, h);
        lemma_in_either(matching(names, rule_line(body), pattern), nested, h);
        assert(some_selects(selectors, h.name) <==> names.contains(h.name));
    }
}

proof fn lemma_rules(v: Seq<JsonView>, n: int, pattern: Seq<char>, h: HitView)
    requires
        0 <= n <= v.len(),
    ensures
        rules_hits(v, n, pattern).contains(h) <==> regex_is_match(pattern, h.name) && exists|i: int|
            0 <= i < n && rule_names(#[trigger] v[i], h),
    decreases v, 1nat, n,
{
    if n > 0 {
        assert(decreases_to!(v => v[n - 1]));
        lemma_rules(v, n - 1, pattern, h);
        lemma_rule(v[n - 1], pattern, h);
        lemma_in_either(rules_hits(v, n - 1, pattern), rule_hits(v[n - 1], pattern), h);
        if rule_names(v[n - 1], h) {
            assert(exists|i: int| 0 <= i < n && rule_names(#[trigger] v[i], h));
        }
    }
}

/// A stylesheet gives exactly the classes that match and that some rule of it names, however
/// deep the rule stands and the class in its selectors.
pub proof fn every_class_is_found(sheet: JsonView, pattern: Seq<char>, h: HitView)
    ensures
        sheet_hits(sheet, pattern).contains(h) <==> regex_is_match(pattern, h.name)
            && some_rule_names(list_at(sheet, "rules"@), h),
{
    let v = list_at(sheet, "rules"@);
    lemma_rules(v, v.len() as int, pattern, h);
}

/// Whether an incident stands on a line, counted from zero, between two columns, and tells a
/// text.
pub open spec fn stands_on_line(
    i: IncidentView,
    file_uri: Seq<char>,
    index: nat,
    from: nat,
    to: nat,
    key: Seq<char>,
    text: Seq<char>,
) -> bool {
    &&& i.file_uri == file_uri
    &&& i.line_number == Some((index + 1) as u32)
    &&& i.code_location == Some(
        Location {
            start: Position { line: index as u32, character: from as u32 },
            end: Position { line: index as u32, character: to as u32 },
        },
    )
    &&& i.variables.dom().contains(key)
    &&& i.variables[key] == JsonView::Str(text)
}

/// A class that an expression finds on a line is found there: its dot is left out of the
/// name. On a line without one, what the pattern finds is told as it stands.
pub proof fn classes_are_found_on_their_lines(
    source: Seq<char>,
    file_uri: Seq<char>,
    pattern: Seq<char>,
    written: Seq<char>,
    n: int,
    k: int,
)
    requires
        0 <= k < n <= lines(source).len(),
        n < MAX_LINE,
        class_lines(source, file_uri, pattern, written, n) is Ok,
    ensures
        ({
            let all = class_lines(source, file_uri, pattern, written, n)->Ok_0;
            let line = lines(source)[k];
            match regex_first("\\."@ + written, line) {
                Some(m) => m.0 <= u32::MAX && m.1 <= u32::MAX ==> exists|i: int|
                    0 <= i < all.len() && stands_on_line(
                        #[trigger] all[i],
                        file_uri,
                        k as nat,
                        m.0,
                        m.1,
                        "className"@,
                        m.2.skip(1),
                    ),
                None => regex_first(pattern, line) matches Some(m) ==> m.0 <= u32::MAX && m.1
                    <= u32::MAX ==> exists|i: int|
                    0 <= i < all.len() && stands_on_line(
                        #[trigger] all[i],
                        file_uri,
                        k as nat,
                        m.0,
                        m.1,
                        "matchingText"@,
                        m.2,
                    ),
            }
        }),
    decreases n,
{
    let all = class_lines(source, file_uri, pattern, written, n)->Ok_0;
    let before = class_lines(source, file_uri, pattern, written, n - 1)->Ok_0;
    assert(class_lines(source, file_uri, pattern, written, n - 1) is Ok);
    if k < n - 1 {
        classes_are_found_on_their_lines(source, file_uri, pattern, written, n - 1, k);
        assert forall|i: int| 0 <= i < before.len() implies all[i] == #[trigger] before[i] by {}
    } else {
        let last = all[all.len() - 1];
        assert(last == all[all.len() - 1]);
    }
}

/// The first match on a line is found as a custom property.
pub proof fn properties_are_found_on_their_lines(
    source: Seq<char>,
    file_uri: Seq<char>,
    pattern: Seq<char>,
    n: int,
    k: int,
)
    requires
        0 <= k < n <= lines(source).len(),
        n < MAX_LINE,
    ensures
        regex_first(pattern, lines(source)[k]) matches Some(m) ==> m.0 <= u32::MAX && m.1
            <= u32::MAX ==> exists|i: int|
            0 <= i < var_lines(source, file_uri, pattern, n).len() && stands_on_line(
                #[trigger] var_lines(source, file_uri, pattern, n)[i],
                file_uri,
                k as nat,
                m.0,
                m.1,
                "variableName"@,
                m.2,
            ),
    decreases n,
{
    let all = var_lines(source, file_uri, pattern, n);
    let before = var_lines(source, file_uri, pattern, n - 1);
    if k < n - 1 {
        properties_are_found_on_their_lines(source, file_uri, pattern, n - 1, k);
        assert forall|i: int| 0 <= i < before.len() implies all[i] == #[trigger] before[i] by {}
    } else {
        let last = all[all.len() - 1];
        assert(last == all[all.len() - 1]);
    }
}

/// The incident for a class tells its name and stands right behind the first dot before that
/// name, from the start of the rule on: on the line that the line feeds before it count, in
/// the column of the bytes since the last of them. There is one wherever the class stands.
pub proof fn classes_stand_behind_their_dots(
    source: Seq<char>,
    file_uri: Seq<char>,
    hit: HitView,
    from: int,
)
    requires
        utf8(source).len() < MAX_LINE,
        utf8(source).len() + utf8(hit.name).len() < u32::MAX,
        rule_start(source, hit.line) == Some(from),
        0 <= from,
    ensures
        class_incident(source, file_uri, hit) is Ok,
        class_incident(source, file_uri, hit)->Ok_0 is Some <==> exists|p: int|
            from <= p && occurs_at(source, "."@ + hit.name, p),
        class_incident(source, file_uri, hit)->Ok_0 matches Some(i) ==> exists|p: int|
            from <= p && #[trigger] occurs_at(source, "."@ + hit.name, p) && {
                let before = utf8(source.take(p + 1));
                let col = (before.len() - line_start(before)) as nat;
                &&& forall|q: int| from <= q < p ==> !occurs_at(source, "."@ + hit.name, q)
                &&& stands_on_line(
                    i,
                    file_uri,
                    newlines(before),
                    col,
                    col + utf8(hit.name).len(),
                    "className"@,
                    hit.name,
                )
            },
{
    lemma_find_from(source, "."@ + hit.name, from);
    reveal_strlit(".");
    if let Some(p) = find_from(source, "."@ + hit.name, from) {
        let before = utf8(source.take(p + 1));
        lemma_utf8_take(source, p + 1);
        lemma_newlines_bound(before);
        assert(occurs_at(source, "."@ + hit.name, p));
    }
}

proof fn lemma_utf8_take(s: Seq<char>, n: int)
    requires
        0 <= n <= s.len(),
    ensures
        utf8(s.take(n)).len() <= utf8(s).len(),
    decreases n,
{
    if n > 0 {
        lemma_utf8_take(s.drop_first(), n - 1);
        assert(s.take(n).drop_first() =~= s.drop_first().take(n - 1));
        assert(s.take(n)[0] == s[0]);
    }
}

proof fn lemma_newlines_bound(b: Seq<u8>)
    ensures
        newlines(b) <= b.len(),
        line_start(b) <= b.len(),
    decreases b.len(),
{
    if b.len() > 0 {
        lemma_newlines_bound(b.drop_last());
    }
}

/// Every hit that has an incident is reported.
pub proof fn every_hit_is_reported(
    source: Seq<char>,
    file_uri: Seq<char>,
    hits: Seq<HitView>,
    n: int,
    k: int,
)
    requires
        0 <= k < n <= hits.len(),
        hits_incidents(source, file_uri, hits, n) is Ok,
        class_incident(source, file_uri, hits[k]) matches Ok(Some(_)),
    ensures
        hits_incidents(source, file_uri, hits, n)->Ok_0.contains(
            class_incident(source, file_uri, hits[k])->Ok_0->0,
        ),
    decreases n,
{
    let all = hits_incidents(source, file_uri, hits, n)->Ok_0;
    assert(hits_incidents(source, file_uri, hits, n - 1) is Ok);
    let before = hits_incidents(source, file_uri, hits, n - 1)->Ok_0;
    let x = class_incident(source, file_uri, hits[k])->Ok_0->0;
    if k < n - 1 {
        every_hit_is_reported(source, file_uri, hits, n - 1, k);
        let i = choose|i: int| 0 <= i < before.len() && before[i] == x;
        assert(all[i] == x);
    } else {
        assert(all[all.len() - 1] == x);
    }
}

/// The extension of a path is what stands behind the last dot of its name, where something
/// stands before that dot.
pub proof fn extensions_stand_behind_the_last_dot(dir: Seq<char>, stem: Seq<char>, ext: Seq<char>)
    requires
        stem.len() > 0,
        ext.len() > 0,
        !stem.contains('/'),
        !ext.contains('/') && !ext.contains('.'),
    ensures
        extension_of(dir + seq!['/'] + stem + seq!['.'] + ext) == ext,
        extension_of(stem + seq!['.'] + ext) == ext,
        extension_of(seq!['.'] + ext).len() == 0,
        extension_of(ext).len() == 0,
{
    lemma_extension(dir + seq!['/'], stem, ext);
    lemma_extension(Seq::empty(), stem, ext);
    assert(Seq::<char>::empty() + stem + seq!['.'] + ext =~= stem + seq!['.'] + ext);
    let hidden = seq!['.'] + ext;
    assert(hidden.last() == ext.last() && ext.contains(ext.last()));
    assert(tidy_end(hidden) == hidden);
    assert(tidy_end(ext) == ext);
    assert forall|i: int| 0 <= i < hidden.len() implies hidden[i] != '/' by {
        if i > 0 {
            assert(ext.contains(ext[i - 1]));
        }
    }
    assert forall|i: int| 0 <= i < ext.len() implies ext[i] != '/' && ext[i] != '.' by {
        assert(ext.contains(ext[i]));
    }
    lemma_no_char(hidden, '/', hidden.len() as int);
    lemma_no_char(ext, '/', ext.len() as int);
    lemma_no_char(ext, '.', ext.len() as int);
    reveal_strlit("/");
    reveal_strlit(".");
    assert("/"@ =~= seq!['/'] && "."@ =~= seq!['.']);
    assert(hidden.skip(0) =~= hidden && ext.skip(0) =~= ext);
    lemma_last_char(hidden, '.', hidden.len() as int, 0);
}

proof fn lemma_no_char(s: Seq<char>, c: char, upto: int)
    requires
        forall|i: int| 0 <= i < s.len() ==> s[i] != c,
        upto <= s.len(),
    ensures
        rfind_from(s, seq![c], upto) is None,
    decreases upto + 1,
{
    if upto >= 0 {
        if occurs_at(s, seq![c], upto) {
            assert(s.subrange(upto, upto + 1)[0] == seq![c][0]);
        }
        lemma_no_char(s, c, upto - 1);
    }
}

proof fn lemma_last_char(s: Seq<char>, c: char, upto: int, at: int)
    requires
        0 <= at <= upto <= s.len(),
        at < s.len(),
        s[at] == c,
        forall|i: int| at < i < s.len() ==> s[i] != c,
    ensures
        rfind_from(s, seq![c], upto) == Some(at),
    decreases upto + 1,
{
    if upto > at {
        if occurs_at(s, seq![c], upto) {
            assert(s.subrange(upto, upto + 1)[0] == seq![c][0]);
        }
        lemma_last_char(s, c, upto - 1, at);
    } else {
        assert(s.subrange(at, at + 1) =~= seq![c]);
    }
}

proof fn lemma_extension(front: Seq<char>, stem: Seq<char>, ext: Seq<char>)
    requires
        front.len() > 0 ==> front.last() == '/',
        stem.len() > 0,
        ext.len() > 0,
        !stem.contains('/'),
        !ext.contains('/') && !ext.contains('.'),
    ensures
        extension_of(front + stem + seq!['.'] + ext) == ext,
{
    let name = stem + seq!['.'] + ext;
    let path = front + stem + seq!['.'] + ext;
    assert(path =~= front + name);
    assert(path.last() == ext.last() && ext.contains(ext.last()));
    assert(tidy_end(path) == path);
    assert forall|i: int| 0 <= i < name.len() implies name[i] != '/' by {
        if i < stem.len() {
            assert(stem.contains(name[i]));
        } else if i > stem.len() {
            assert(ext.contains(ext[i - stem.len() - 1]));
        }
    }
    assert forall|i: int| front.len() <= i < path.len() implies path[i] != '/' by {
        assert(path[i] == name[i - front.len()]);
    }
    assert forall|i: int| stem.len() < i < name.len() implies name[i] != '.' by {
        assert(ext.contains(ext[i - stem.len() - 1]));
    }
    reveal_strlit("/");
    reveal_strlit(".");
    reveal_strlit("..");
    assert("/"@ =~= seq!['/'] && "."@ =~= seq!['.']);
    if front.len() > 0 {
        lemma_last_char(path, '/', path.len() as int, front.len() - 1);
    } else {
        lemma_no_char(path, '/', path.len() as int);
    }
    assert(path.skip(name_start(path)) =~= name);
    assert(name.last() == ext.last());
    assert(".."@[1] == '.');
    lemma_last_char(name, '.', name.len() as int, stem.len() as int);
    assert(name.skip(stem.len() as int + 1) =~= ext);
}

} // verus!
