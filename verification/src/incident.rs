//! Incidents: matches found in source code, with their place and context.

use crate::json::{copy_json, Json, JsonView};
use crate::text::{
    contains, contains_iff_occurs, copy_opt, decimal, decimal_text, lines, lines_text, occurs_at,
    opt_text, texts, utf8,
};
use crate::text_map::TextMap;
use vstd::prelude::*;

verus! {

/// A position in a source file, counted from zero.
#[derive(Debug, Clone, Copy, PartialEq, Eq, Structural)]
pub struct Position {
    pub line: u32,
    pub character: u32,
}

/// A range in a source file.
#[derive(Debug, Clone, Copy, PartialEq, Eq, Structural)]
pub struct Location {
    pub start: Position,
    pub end: Position,
}

/// A hyperlink for additional context.
#[derive(Debug, PartialEq, Eq)]
pub struct ExternalLink {
    pub url: String,
    pub title: String,
}

/// The variables attached to an incident.
pub type Variables = TextMap<Json>;

/// A single match found by the provider.
#[derive(Debug)]
pub struct Incident {
    /// File URI where the incident was found.
    pub file_uri: String,
    /// Line number of the match, counted from one.
    pub line_number: Option<u32>,
    /// Source code location.
    pub code_location: Option<Location>,
    /// Message of the rule that matched.
    pub message: String,
    /// Surrounding source code.
    pub code_snip: Option<String>,
    /// Provider-specific variables.
    pub variables: Variables,
    /// Effort override for this incident.
    pub effort: Option<i64>,
    /// Associated hyperlinks.
    pub links: Vec<ExternalLink>,
    /// Whether this incident is from a dependency.
    pub is_dependency_incident: bool,
}

/// The content of a hyperlink.
pub ghost struct LinkView {
    pub url: Seq<char>,
    pub title: Seq<char>,
}

/// The content of an incident.
#[verifier::ext_equal]
pub ghost struct IncidentView {
    pub file_uri: Seq<char>,
    pub line_number: Option<u32>,
    pub code_location: Option<Location>,
    pub message: Seq<char>,
    pub code_snip: Option<Seq<char>>,
    pub variables: Map<Seq<char>, JsonView>,
    pub effort: Option<i64>,
    pub links: Seq<LinkView>,
    pub is_dependency_incident: bool,
}

impl ExternalLink {
    pub open spec fn view(&self) -> LinkView {
        LinkView { url: self.url@, title: self.title@ }
    }
}

/// The contents of a sequence of hyperlinks.
pub open spec fn link_views(links: Seq<ExternalLink>) -> Seq<LinkView> {
    Seq::new(links.len(), |i: int| links[i]@)
}

/// The contents of an incident's variables.
pub open spec fn variables_view(m: Variables) -> Map<Seq<char>, JsonView> {
    m@.map_values(|j: Json| j@)
}

impl Incident {
    pub open spec fn view(&self) -> IncidentView {
        IncidentView {
            file_uri: self.file_uri@,
            line_number: self.line_number,
            code_location: self.code_location,
            message: self.message@,
            code_snip: opt_text(self.code_snip),
            variables: variables_view(self.variables),
            effort: self.effort,
            links: link_views(self.links@),
            is_dependency_incident: self.is_dependency_incident,
        }
    }
}

/// The contents of a sequence of incidents.
pub open spec fn incident_views(v: Seq<Incident>) -> Seq<IncidentView> {
    Seq::new(v.len(), |i: int| v[i]@)
}

pub proof fn lemma_incident_views_push(v: Seq<Incident>, i: Incident)
    ensures
        incident_views(v.push(i)) == incident_views(v).push(i@),
{
    assert(incident_views(v.push(i)) =~= incident_views(v).push(i@));
}

/// The content of an incident with nothing but a place.
pub open spec fn bare_incident(
    file_uri: Seq<char>,
    line_number: u32,
    code_location: Location,
) -> IncidentView {
    IncidentView {
        file_uri,
        line_number: Some(line_number),
        code_location: Some(code_location),
        message: Seq::empty(),
        code_snip: None,
        variables: Map::empty(),
        effort: None,
        links: Seq::empty(),
        is_dependency_incident: false,
    }
}

impl IncidentView {
    /// This incident with one more variable.
    pub open spec fn with_var(self, key: Seq<char>, value: JsonView) -> IncidentView {
        IncidentView { variables: self.variables.insert(key, value), ..self }
    }

    /// This incident with one more variable that holds text.
    pub open spec fn with_text(self, key: Seq<char>, value: Seq<char>) -> IncidentView {
        self.with_var(key, JsonView::Str(value))
    }
}

impl Incident {
    /// An incident with the minimum of fields.
    pub fn new(file_uri: String, line_number: u32, code_location: Location) -> (r: Incident)
        ensures
            r@ == bare_incident(file_uri@, line_number, code_location),
    {
        let r = Incident {
            file_uri,
            line_number: Some(line_number),
            code_location: Some(code_location),
            message: String::new(),
            code_snip: None,
            variables: TextMap::new(),
            effort: None,
            links: Vec::new(),
            is_dependency_incident: false,
        };
        assert(variables_view(r.variables) =~= Map::<Seq<char>, JsonView>::empty());
        assert(link_views(r.links@) =~= Seq::<LinkView>::empty());
        r
    }

    /// Adds a code snippet to the incident.
    pub fn with_code_snip(self, snip: String) -> (r: Incident)
        ensures
            r@ == (IncidentView { code_snip: Some(snip@), ..self@ }),
    {
        let mut r = self;
        r.code_snip = Some(snip);
        r
    }

    /// Adds a variable to the incident.
    pub fn with_variable(self, key: &str, value: Json) -> (r: Incident)
        ensures
            r@ == self@.with_var(key@, value@),
    {
        let mut r = self;
        r.set_variable(key, value);
        r
    }

    /// Sets a variable of the incident.
    pub fn set_variable(&mut self, key: &str, value: Json)
        ensures
            final(self)@ == old(self)@.with_var(key@, value@),
    {
        let ghost before = self.variables;
        let ghost content = value@;
        self.variables.insert(key.to_owned(), value);
        assert(variables_view(self.variables) =~= variables_view(before).insert(key@, content));
    }

    /// Sets a variable of the incident to a text.
    pub fn set_text(&mut self, key: &str, value: &str)
        ensures
            final(self)@ == old(self)@.with_text(key@, value@),
    {
        self.set_variable(key, Json::Str(value.to_owned()));
    }
}

/// An independent copy of the variables of an incident.
pub fn copy_variables(m: &Variables) -> (r: Variables)
    ensures
        variables_view(r) == variables_view(*m),
{
    let n: usize = m.len();
    let mut out: Variables = TextMap::new();
    let mut i: usize = 0;
    assert(variables_view(out) =~= Map::<Seq<char>, JsonView>::empty());
    while i < n
        invariant
            i <= n,
            n == m.keys().len(),
            m.values().len() == m.keys().len(),
            m.keys().no_duplicates(),
            forall|k: int|
                0 <= k < m.keys().len() ==> m@.dom().contains(#[trigger] m.keys()[k])
                    && m@[m.keys()[k]] == m.values()[k],
            forall|k: Seq<char>| #[trigger] variables_view(out).dom().contains(k)
                <==> m.keys().take(i as int).contains(k),
            forall|k: Seq<char>| #[trigger] variables_view(out).dom().contains(k)
                ==> variables_view(out)[k] == m@[k]@,
        decreases n - i,
    {
        let ghost before = out;
        let ghost k = m.keys()[i as int];
        let value = copy_json(m.value_at(i));
        let ghost content = value@;
        out.insert(m.key_at(i).clone(), value);
        proof {
            assert(variables_view(out) =~= variables_view(before).insert(k, content));
            assert(m.keys().take(i + 1) =~= m.keys().take(i as int).push(k));
            assert forall|x: Seq<char>|
                #[trigger] variables_view(out).dom().contains(x) <==> m.keys().take(
                    i + 1,
                ).contains(x) by {
                if m.keys().take(i as int).contains(x) {
                    let j = choose|j: int| 0 <= j < i && m.keys().take(i as int)[j] == x;
                    assert(m.keys().take(i + 1)[j] == x);
                }
                if x == k {
                    assert(m.keys().take(i + 1)[i as int] == x);
                }
            }
        }
        i = i + 1;
    }
    proof {
        assert(m.keys().take(n as int) =~= m.keys());
        assert(variables_view(out) =~= variables_view(*m));
    }
    out
}

/// An independent copy of a list of hyperlinks.
pub fn copy_links(links: &Vec<ExternalLink>) -> (r: Vec<ExternalLink>)
    ensures
        link_views(r@) == link_views(links@),
{
    let mut out: Vec<ExternalLink> = Vec::new();
    let mut i: usize = 0;
    while i < links.len()
        invariant
            i <= links@.len(),
            out@.len() == i,
            forall|k: int| 0 <= k < i ==> (#[trigger] out@[k])@ == links@[k]@,
        decreases links@.len() - i,
    {
        out.push(ExternalLink { url: links[i].url.clone(), title: links[i].title.clone() });
        i = i + 1;
    }
    assert(link_views(out@) =~= link_views(links@));
    out
}

/// An independent copy of an incident.
pub fn copy_incident(incident: &Incident) -> (r: Incident)
    ensures
        r@ == incident@,
{
    Incident {
        file_uri: incident.file_uri.clone(),
        line_number: incident.line_number,
        code_location: incident.code_location,
        message: incident.message.clone(),
        code_snip: copy_opt(&incident.code_snip),
        variables: copy_variables(&incident.variables),
        effort: incident.effort,
        links: copy_links(&incident.links),
        is_dependency_incident: incident.is_dependency_incident,
    }
}

/// Moves all incidents of `more` to the end of `all`.
pub fn append_incidents(all: &mut Vec<Incident>, more: Vec<Incident>)
    ensures
        incident_views(final(all)@) == incident_views(old(all)@) + incident_views(more@),
{
    let mut more = more;
    let ghost before = all@;
    let ghost added = more@;
    all.append(&mut more);
    assert(incident_views(all@) =~= incident_views(before) + incident_views(added));
}

// ── Code snippets ───────────────────────────────────────────────────────

/// `n` spaces.
pub open spec fn spaces(n: nat) -> Seq<char> {
    Seq::new(n, |i: int| ' ')
}

/// `s` with spaces before it up to the given width.
pub open spec fn right_aligned(s: Seq<char>, width: nat) -> Seq<char> {
    if s.len() >= width {
        s
    } else {
        spaces((width - s.len()) as nat) + s
    }
}

/// One line of a snippet: its number right-aligned, two spaces, its text.
pub open spec fn snip_line(number: nat, content: Seq<char>, width: nat) -> Seq<char> {
    right_aligned(decimal(number), width) + seq![' ', ' '] + content + seq!['\n']
}

/// The snippet lines with zero-based positions from `start` to `end`.
pub open spec fn snip_lines(all: Seq<Seq<char>>, start: int, end: int, width: nat) -> Seq<char>
    decreases end - start,
{
    if start >= end {
        Seq::empty()
    } else {
        snip_lines(all, start, end - 1, width) + snip_line(
            end as nat,
            if 0 <= end - 1 < all.len() {
                all[end - 1]
            } else {
                Seq::empty()
            },
            width,
        )
    }
}

pub open spec fn snip_start(line_number: u32, context_lines: u32) -> int {
    if line_number > context_lines {
        line_number - context_lines - 1
    } else {
        0
    }
}

pub open spec fn snip_end(total: u32, line_number: u32, context_lines: u32) -> int {
    if line_number + context_lines < total {
        line_number + context_lines
    } else {
        total as int
    }
}

/// The lines around a line, each with its number, aligned.
pub open spec fn code_snip_of(source: Seq<char>, line_number: u32, context_lines: u32) -> Seq<
    char,
> {
    let all = lines(source);
    let end = snip_end(all.len() as u32, line_number, context_lines);
    snip_lines(all, snip_start(line_number, context_lines), end, decimal(end as nat).len())
}

fn push_spaces(s: &mut String, n: usize)
    ensures
        final(s)@ == old(s)@ + spaces(n as nat),
{
    let mut i: usize = 0;
    let ghost before = s@;
    assert(before + spaces(0) =~= before);
    while i < n
        invariant
            i <= n,
            s@ == before + spaces(i as nat),
        decreases n - i,
    {
        s.push(' ');
        assert(s@ =~= before + spaces((i + 1) as nat));
        i = i + 1;
    }
}

fn push_snip_line(s: &mut String, number: u64, content: &str, width: usize)
    ensures
        final(s)@ == old(s)@ + snip_line(number as nat, content@, width as nat),
{
    let ghost before = s@;
    let numeral = decimal_text(number);
    let len: usize = numeral.as_str().unicode_len();
    if len < width {
        push_spaces(s, width - len);
    }
    s.append(numeral.as_str());
    s.push(' ');
    s.push(' ');
    s.append(content);
    s.push('\n');
    assert(s@ =~= before + snip_line(number as nat, content@, width as nat));
}

/// Extracts a code snippet from source text centred on a line.
pub fn extract_code_snip(source: &str, line_number: u32, context_lines: u32) -> (r: String)
    requires
        context_lines < u32::MAX,
        line_number + context_lines <= u32::MAX,
    ensures
        r@ == code_snip_of(source@, line_number, context_lines),
{
    let all = lines_text(source);
    let total: u32 = all.len() as u32;
    let start: u32 = line_number.saturating_sub(context_lines + 1);
    let sum: u32 = line_number + context_lines;
    let end: u32 = if sum < total {
        sum
    } else {
        total
    };
    let width: usize = decimal_text(end as u64).as_str().unicode_len();
    let mut snip = String::new();
    let mut i: u32 = start;
    assert(start as int == snip_start(line_number, context_lines));
    assert(snip_lines(lines(source@), start as int, start as int, width as nat) =~= Seq::<
        char,
    >::empty());
    while i < end
        invariant
            start <= i,
            i <= end || i == start,
            texts(all@) == lines(source@),
            end <= u32::MAX,
            snip@ == snip_lines(lines(source@), start as int, i as int, width as nat),
        decreases end - i,
    {
        let number: u64 = i as u64 + 1;
        if (i as usize) < all.len() {
            push_snip_line(&mut snip, number, all[i as usize].as_str(), width);
            assert(lines(source@)[i as int] == all@[i as int]@);
        } else {
            push_snip_line(&mut snip, number, "", width);
            assert(""@ =~= Seq::<char>::empty()) by {
                reveal_strlit("");
            }
        }
        i = i + 1;
    }
    if start >= end {
        assert(snip_lines(lines(source@), start as int, end as int, width as nat) =~= Seq::<
            char,
        >::empty());
    }
    snip
}

// ── Places in the source ────────────────────────────────────────────────

/// How many line feeds a run of bytes holds.
pub open spec fn newlines(b: Seq<u8>) -> nat
    decreases b.len(),
{
    if b.len() == 0 {
        0
    } else {
        newlines(b.drop_last()) + if b.last() == 10 {
            1nat
        } else {
            0nat
        }
    }
}

/// Where the last line of a run of bytes begins.
pub open spec fn line_start(b: Seq<u8>) -> nat
    decreases b.len(),
{
    if b.len() == 0 {
        0
    } else if b.last() == 10 {
        b.len()
    } else {
        line_start(b.drop_last())
    }
}

/// The largest line number that an incident carries.
pub const MAX_LINE: u32 = 0xffff_fff0;

/// The position of a byte offset: the line feeds before it and the bytes since
/// the last of them.
pub open spec fn position_at(bytes: Seq<u8>, offset: u32) -> Position {
    let at = if offset as int <= bytes.len() {
        offset as int
    } else {
        bytes.len() as int
    };
    let before = bytes.take(at);
    Position {
        line: if newlines(before) < MAX_LINE {
            newlines(before) as u32
        } else {
            (MAX_LINE - 1) as u32
        },
        character: (at - line_start(before)) as u32,
    }
}

proof fn lemma_line_bounds(b: Seq<u8>)
    ensures
        newlines(b) <= b.len(),
        line_start(b) <= b.len(),
    decreases b.len(),
{
    if b.len() > 0 {
        lemma_line_bounds(b.drop_last());
    }
}

pub fn position_of(source: &str, offset: u32) -> (r: Position)
    ensures
        r == position_at(utf8(source@), offset),
{
    let bytes = source.as_bytes();
    let at: usize = if (offset as usize) <= bytes.len() {
        offset as usize
    } else {
        bytes.len()
    };
    let mut line: usize = 0;
    let mut begin: usize = 0;
    let mut i: usize = 0;
    while i < at
        invariant
            i <= at <= bytes@.len(),
            at <= u32::MAX,
            line as nat == newlines(bytes@.take(i as int)),
            begin as nat == line_start(bytes@.take(i as int)),
            line <= i,
            begin <= i,
        decreases at - i,
    {
        assert(bytes@.take(i + 1).drop_last() =~= bytes@.take(i as int));
        if bytes[i] == 10 {
            line = line + 1;
            begin = i + 1;
        }
        i = i + 1;
    }
    let shown: u32 = if line < MAX_LINE as usize {
        line as u32
    } else {
        MAX_LINE - 1
    };
    Position { line: shown, character: (at - begin) as u32 }
}

/// How many lines of context an incident shows on either side.
pub const SNIP_CONTEXT: u32 = 3;

/// The incident for the bytes from `start` to `end` of a source file.
pub open spec fn incident_at(
    source: Seq<char>,
    file_uri: Seq<char>,
    start: u32,
    end: u32,
) -> IncidentView {
    let from = position_at(utf8(source), start);
    let to = position_at(utf8(source), end);
    let line = (from.line + 1) as u32;
    IncidentView {
        code_snip: Some(code_snip_of(source, line, SNIP_CONTEXT)),
        ..bare_incident(file_uri, line, Location { start: from, end: to })
    }
}

/// Makes the incident for the bytes from `start` to `end` of a source file.
pub fn make_incident(source: &str, file_uri: &str, start: u32, end: u32) -> (r: Incident)
    ensures
        r@ == incident_at(source@, file_uri@, start, end),
{
    let from = position_of(source, start);
    let to = position_of(source, end);
    let line: u32 = from.line + 1;
    let snip = extract_code_snip(source, line, SNIP_CONTEXT);
    Incident::new(file_uri.to_owned(), line, Location { start: from, end: to }).with_code_snip(snip)
}

// ── Laws of places ──────────────────────────────────────────────────────

/// Whether an incident lies at the bytes from `start` to `end` of a source file.
pub open spec fn lies_at(
    i: IncidentView,
    source: Seq<char>,
    file_uri: Seq<char>,
    start: u32,
    end: u32,
) -> bool {
    &&& i.file_uri == file_uri
    &&& i.line_number == Some((position_at(utf8(source), start).line + 1) as u32)
    &&& i.code_location == Some(
        Location {
            start: position_at(utf8(source), start),
            end: position_at(utf8(source), end),
        },
    )
}

proof fn lemma_line_start(b: Seq<u8>)
    ensures
        line_start(b) <= b.len(),
        line_start(b) > 0 ==> b[line_start(b) - 1] == 10,
        forall|k: int| line_start(b) <= k < b.len() ==> b[k] != 10,
        newlines(b) == b.filter(|x: u8| x == 10).len(),
    decreases b.len(),
{
    reveal(Seq::filter);
    if b.len() > 0 {
        lemma_line_start(b.drop_last());
        if b.last() != 10 {
            let n = line_start(b.drop_last()) as int;
            if n > 0 {
                assert(b[n - 1] == b.drop_last()[n - 1]);
            }
            assert forall|k: int| line_start(b) <= k < b.len() implies b[k] != 10 by {
                if k < b.len() - 1 {
                    assert(b[k] == b.drop_last()[k]);
                }
            }
        }
    }
}

/// A position counts the line feeds before it, and the bytes since the last of them.
pub proof fn positions_count_lines(bytes: Seq<u8>, offset: u32)
    requires
        offset <= bytes.len(),
        bytes.len() < MAX_LINE,
    ensures
        ({
            let p = position_at(bytes, offset);
            let first = offset - p.character;
            &&& p.line == bytes.take(offset as int).filter(|x: u8| x == 10).len()
            &&& 0 <= first <= offset
            &&& first == 0 || bytes[first - 1] == 10
            &&& forall|k: int| first <= k < offset ==> bytes[k] != 10
        }),
{
    let before = bytes.take(offset as int);
    lemma_line_start(before);
    lemma_line_bounds(before);
    let first = line_start(before) as int;
    if first > 0 {
        assert(bytes[first - 1] == before[first - 1]);
    }
    assert forall|k: int| first <= k < offset implies bytes[k] != 10 by {
        assert(bytes[k] == before[k]);
    }
}

proof fn lemma_snip_line(all: Seq<Seq<char>>, start: int, end: int, width: nat, i: int)
    requires
        0 <= start <= i < end,
        i < all.len(),
    ensures
        contains(
            snip_lines(all, start, end, width),
            decimal((i + 1) as nat) + seq![' ', ' '] + all[i] + seq!['\n'],
        ),
    decreases end - start,
{
    let text = decimal((i + 1) as nat) + seq![' ', ' '] + all[i] + seq!['\n'];
    let s = snip_lines(all, start, end, width);
    let before = snip_lines(all, start, end - 1, width);
    contains_iff_occurs(s, text);
    contains_iff_occurs(before, text);
    if i == end - 1 {
        let q = s.len() - text.len();
        let line = snip_line(end as nat, all[i], width);
        assert(s == before + line);
        let n = line.len() - text.len();
        assert(n >= 0 && line.subrange(n, line.len() as int) =~= text);
        assert(s.subrange(q, s.len() as int) =~= text);
        assert(occurs_at(s, text, q));
    } else {
        lemma_snip_line(all, start, end - 1, width, i);
        let q = choose|q: int| occurs_at(before, text, q);
        assert(s.subrange(q, q + text.len()) =~= before.subrange(q, q + text.len()));
        assert(occurs_at(s, text, q));
    }
}

/// A snippet shows the line that it is for and the lines around it, each behind its
/// number.
pub proof fn snippets_show_the_lines_around(
    source: Seq<char>,
    line_number: u32,
    context_lines: u32,
    i: int,
)
    requires
        1 <= line_number <= lines(source).len() <= u32::MAX,
        0 <= i < lines(source).len(),
        line_number - context_lines <= i + 1 <= line_number + context_lines,
    ensures
        contains(
            code_snip_of(source, line_number, context_lines),
            decimal((i + 1) as nat) + seq![' ', ' '] + lines(source)[i] + seq!['\n'],
        ),
{
    let all = lines(source);
    let end = snip_end(all.len() as u32, line_number, context_lines);
    lemma_snip_line(
        all,
        snip_start(line_number, context_lines),
        end,
        decimal(end as nat).len(),
        i,
    );
}

/// An incident lies at its bytes, and shows its line with three lines on either side.
pub proof fn incidents_lie_at_their_bytes(
    source: Seq<char>,
    file_uri: Seq<char>,
    start: u32,
    end: u32,
)
    ensures
        lies_at(incident_at(source, file_uri, start, end), source, file_uri, start, end),
        incident_at(source, file_uri, start, end).line_number matches Some(n)
            && incident_at(source, file_uri, start, end).code_snip == Some(
            code_snip_of(source, n, 3),
        ),
{
}

} // verus!
