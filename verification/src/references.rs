//! References to symbols in a program: imports, JSX, calls and types, with the filters of a
//! `referenced` condition.

use crate::ast::{Program, Statement};
use crate::capabilities::{ReferenceLocation, ReferencedCondition};
use crate::classnames;
use crate::css_vars;
use crate::function_calls::{calls_hits, function_calls_match, scan_function_calls};
use crate::imports::{build_import_map, import_hits, imported_names, scan_imports};
use crate::incident::{
    append_incidents, incident_views, lemma_incident_views_push, Incident, IncidentView,
};
use crate::json::{as_text, views, JsonView};
use crate::jsx::{fns_in_statements, scan_jsx_file, statements_hits, JsxScanView};
use crate::nodes::{all_among, lemma_among_joined, lemma_among_more, lemma_contained};
use crate::pattern::{compile, regex_is_match, regex_rejection, regex_text};
use crate::scan::TextScanView;
use crate::text::opt_text;
use crate::type_refs;
use vstd::prelude::*;

verus! {

/// The expressions of a `referenced` condition, compiled.
#[derive(Debug)]
pub struct ReferenceQuery {
    pub pattern: regex::Regex,
    pub location: Option<ReferenceLocation>,
    pub component: Option<regex::Regex>,
    pub parent: Option<regex::Regex>,
    pub parent_from: Option<regex::Regex>,
    pub value: Option<regex::Regex>,
    pub from: Option<regex::Regex>,
}

pub ghost struct QueryView {
    pub pattern: Seq<char>,
    pub location: Option<ReferenceLocation>,
    pub component: Option<Seq<char>>,
    pub parent: Option<Seq<char>>,
    pub parent_from: Option<Seq<char>>,
    pub value: Option<Seq<char>>,
    pub from: Option<Seq<char>>,
}

pub open spec fn opt_regex(o: Option<regex::Regex>) -> Option<Seq<char>> {
    match o {
        Some(re) => Some(regex_text(re)),
        None => None,
    }
}

impl ReferenceQuery {
    pub open spec fn view(&self) -> QueryView {
        QueryView {
            pattern: regex_text(self.pattern),
            location: self.location,
            component: opt_regex(self.component),
            parent: opt_regex(self.parent),
            parent_from: opt_regex(self.parent_from),
            value: opt_regex(self.value),
            from: opt_regex(self.from),
        }
    }
}

/// The query of a condition.
pub open spec fn query_of(c: ReferencedCondition) -> QueryView {
    QueryView {
        pattern: c.pattern@,
        location: c.location,
        component: opt_text(c.component),
        parent: opt_text(c.parent),
        parent_from: opt_text(c.parent_from),
        value: opt_text(c.value),
        from: opt_text(c.from),
    }
}

pub open spec fn opt_rejection(o: Option<Seq<char>>) -> Option<Seq<char>> {
    match o {
        Some(e) => regex_rejection(e),
        None => None,
    }
}

/// Why the first expression of a query that is rejected is rejected.
pub open spec fn query_error(q: QueryView) -> Option<Seq<char>> {
    if regex_rejection(q.pattern) is Some {
        regex_rejection(q.pattern)
    } else if opt_rejection(q.component) is Some {
        opt_rejection(q.component)
    } else if opt_rejection(q.parent) is Some {
        opt_rejection(q.parent)
    } else if opt_rejection(q.parent_from) is Some {
        opt_rejection(q.parent_from)
    } else if opt_rejection(q.value) is Some {
        opt_rejection(q.value)
    } else {
        opt_rejection(q.from)
    }
}

/// Compiles an expression, where there is one.
pub fn compile_optional(o: &Option<String>) -> (r: Result<Option<regex::Regex>, String>)
    ensures
        match r {
            Ok(re) => opt_regex(re) == opt_text(*o) && opt_rejection(opt_text(*o)) is None,
            Err(m) => opt_rejection(opt_text(*o)) == Some(m@),
        },
{
    match o {
        Some(e) => match compile(e.as_str()) {
            Ok(re) => Ok(Some(re)),
            Err(m) => Err(m),
        },
        None => Ok(None),
    }
}

impl ReferenceQuery {
    /// Compiles the expressions of a condition.
    pub fn new(condition: &ReferencedCondition) -> (r: Result<ReferenceQuery, String>)
        ensures
            match r {
                Ok(q) => q@ == query_of(*condition) && query_error(query_of(*condition)) is None,
                Err(m) => query_error(query_of(*condition)) == Some(m@),
            },
    {
        let pattern = match compile(condition.pattern.as_str()) {
            Ok(re) => re,
            Err(m) => {
                return Err(m);
            },
        };
        let component = match compile_optional(&condition.component) {
            Ok(re) => re,
            Err(m) => {
                return Err(m);
            },
        };
        let parent = match compile_optional(&condition.parent) {
            Ok(re) => re,
            Err(m) => {
                return Err(m);
            },
        };
        let parent_from = match compile_optional(&condition.parent_from) {
            Ok(re) => re,
            Err(m) => {
                return Err(m);
            },
        };
        let value = match compile_optional(&condition.value) {
            Ok(re) => re,
            Err(m) => {
                return Err(m);
            },
        };
        let from = match compile_optional(&condition.from) {
            Ok(re) => re,
            Err(m) => {
                return Err(m);
            },
        };
        Ok(
            ReferenceQuery {
                pattern,
                location: condition.location,
                component,
                parent,
                parent_from,
                value,
                from,
            },
        )
    }
}

// ── Filters ─────────────────────────────────────────────────────────────

/// The text of a variable of an incident.
pub open spec fn variable_text(i: IncidentView, key: Seq<char>) -> Option<Seq<char>> {
    if i.variables.dom().contains(key) {
        as_text(i.variables[key])
    } else {
        None
    }
}

/// Whether a variable passes a filter: any does where there is no filter, and only a
/// text that the expression matches where there is one.
pub open spec fn passes(i: IncidentView, key: Seq<char>, filter: Option<Seq<char>>) -> bool {
    match filter {
        Some(e) => variable_text(i, key) matches Some(t) && regex_is_match(e, t),
        None => true,
    }
}

/// Whether one of the first `n` values is a text that an expression matches.
pub open spec fn any_matches(values: Seq<JsonView>, expression: Seq<char>, n: int) -> bool
    decreases n,
{
    if n <= 0 || n > values.len() {
        false
    } else {
        any_matches(values, expression, n - 1) || (as_text(values[n - 1]) matches Some(t) && regex_is_match(
            expression,
            t,
        ))
    }
}

/// The strings in the object that a prop is set to.
pub open spec fn object_values(i: IncidentView) -> Seq<JsonView> {
    if i.variables.dom().contains("propObjectValues"@) {
        match i.variables["propObjectValues"@] {
            JsonView::Array(v) => v,
            _ => Seq::empty(),
        }
    } else {
        Seq::empty()
    }
}

/// Whether a prop has a value that is asked for: its own, or one in the object that it
/// is set to.
pub open spec fn value_passes(i: IncidentView, filter: Option<Seq<char>>) -> bool {
    passes(i, "propValue"@, filter) || (filter matches Some(e) && any_matches(
        object_values(i),
        e,
        object_values(i).len() as int,
    ))
}

/// Whether an incident in JSX is asked for: by the module of its component, and a prop
/// by its component and value, a component by its parent and, where a parent is asked
/// for, the module of the parent.
pub open spec fn jsx_asked(i: IncidentView, q: QueryView) -> bool {
    passes(i, "module"@, q.from) && if i.variables.dom().contains("propName"@) {
        passes(i, "componentName"@, q.component) && value_passes(i, q.value)
    } else {
        passes(i, "parentName"@, q.parent) && (q.parent is Some ==> passes(
            i,
            "parentFrom"@,
            q.parent_from,
        ))
    }
}

pub open spec fn jsx_kept(v: Seq<IncidentView>, q: QueryView) -> Seq<IncidentView>
    decreases v.len(),
{
    if v.len() == 0 {
        Seq::empty()
    } else if jsx_asked(v.last(), q) {
        jsx_kept(v.drop_last(), q).push(v.last())
    } else {
        jsx_kept(v.drop_last(), q)
    }
}

/// The incidents on imports from a module that is asked for.
pub open spec fn imports_kept(v: Seq<IncidentView>, q: QueryView) -> Seq<IncidentView>
    decreases v.len(),
{
    if v.len() == 0 {
        Seq::empty()
    } else if passes(v.last(), "module"@, q.from) {
        imports_kept(v.drop_last(), q).push(v.last())
    } else {
        imports_kept(v.drop_last(), q)
    }
}

fn does_pass(incident: &Incident, key: &str, filter: &Option<regex::Regex>) -> (r: bool)
    ensures
        r == passes(incident@, key@, opt_regex(*filter)),
{
    match filter {
        Some(re) => match incident.variables.get(key) {
            Some(j) => match j.as_str() {
                Some(t) => re.is_match(t),
                None => false,
            },
            None => false,
        },
        None => true,
    }
}

fn does_value_pass(incident: &Incident, filter: &Option<regex::Regex>) -> (r: bool)
    ensures
        r == value_passes(incident@, opt_regex(*filter)),
{
    if does_pass(incident, "propValue", filter) {
        return true;
    }
    let re = match filter {
        Some(re) => re,
        None => {
            return false;
        },
    };
    let values = match incident.variables.get("propObjectValues") {
        Some(j) => match j.as_array() {
            Some(a) => a,
            None => {
                return false;
            },
        },
        None => {
            return false;
        },
    };
    let ghost v = object_values(incident@);
    assert(v == views(values@));
    let mut i: usize = 0;
    while i < values.len()
        invariant
            i <= values@.len(),
            v == views(values@),
            v == object_values(incident@),
            opt_regex(*filter) == Some(regex_text(*re)),
            !any_matches(v, regex_text(*re), i as int),
        decreases values@.len() - i,
    {
        assert(v[i as int] == values@[i as int]@);
        if let Some(t) = values[i].as_str() {
            if re.is_match(t) {
                proof {
                    lemma_any_matches(v, regex_text(*re), i + 1);
                }
                return true;
            }
        }
        i = i + 1;
    }
    false
}

proof fn lemma_any_matches(values: Seq<JsonView>, expression: Seq<char>, n: int)
    requires
        0 <= n <= values.len(),
        any_matches(values, expression, n),
    ensures
        any_matches(values, expression, values.len() as int),
    decreases values.len() - n,
{
    if n < values.len() {
        lemma_any_matches(values, expression, n + 1);
    }
}

fn is_jsx_asked(incident: &Incident, q: &ReferenceQuery) -> (r: bool)
    ensures
        r == jsx_asked(incident@, q@),
{
    does_pass(incident, "module", &q.from) && if incident.variables.contains_key("propName") {
        does_pass(incident, "componentName", &q.component) && does_value_pass(incident, &q.value)
    } else {
        does_pass(incident, "parentName", &q.parent) && (q.parent.is_none() || does_pass(
            incident,
            "parentFrom",
            &q.parent_from,
        ))
    }
}

fn keep_jsx(v: Vec<Incident>, q: &ReferenceQuery) -> (r: Vec<Incident>)
    ensures
        incident_views(r@) == jsx_kept(incident_views(v@), q@),
{
    let ghost all = v@;
    let ghost t = incident_views(all);
    let total: usize = v.len();
    let mut rest = v;
    let mut out: Vec<Incident> = Vec::new();
    let mut i: usize = 0;
    assert(incident_views(out@) =~= jsx_kept(t.take(0), q@));
    while i < total
        invariant
            i <= total,
            total == all.len(),
            t == incident_views(all),
            rest@ == all.skip(i as int),
            incident_views(out@) == jsx_kept(t.take(i as int), q@),
        decreases total - i,
    {
        assert(t.take(i + 1).drop_last() =~= t.take(i as int));
        let incident = rest.remove(0);
        assert(incident == all[i as int]);
        assert(rest@ =~= all.skip(i + 1));
        assert(t.take(i + 1).last() == incident@);
        if is_jsx_asked(&incident, q) {
            proof {
                lemma_incident_views_push(out@, incident);
            }
            out.push(incident);
        }
        i = i + 1;
    }
    assert(t.take(t.len() as int) =~= t);
    out
}

fn keep_imports(v: Vec<Incident>, q: &ReferenceQuery) -> (r: Vec<Incident>)
    ensures
        incident_views(r@) == imports_kept(incident_views(v@), q@),
{
    let ghost all = v@;
    let ghost t = incident_views(all);
    let total: usize = v.len();
    let mut rest = v;
    let mut out: Vec<Incident> = Vec::new();
    let mut i: usize = 0;
    assert(incident_views(out@) =~= imports_kept(t.take(0), q@));
    while i < total
        invariant
            i <= total,
            total == all.len(),
            t == incident_views(all),
            rest@ == all.skip(i as int),
            incident_views(out@) == imports_kept(t.take(i as int), q@),
        decreases total - i,
    {
        assert(t.take(i + 1).drop_last() =~= t.take(i as int));
        let incident = rest.remove(0);
        assert(incident == all[i as int]);
        assert(rest@ =~= all.skip(i + 1));
        assert(t.take(i + 1).last() == incident@);
        if does_pass(&incident, "module", &q.from) {
            proof {
                lemma_incident_views_push(out@, incident);
            }
            out.push(incident);
        }
        i = i + 1;
    }
    assert(t.take(t.len() as int) =~= t);
    out
}

// ── Programs ────────────────────────────────────────────────────────────

/// The imports of some statements.
pub open spec fn all_import_hits(
    stmts: Seq<Statement>,
    source: Seq<char>,
    pattern: Seq<char>,
    file_uri: Seq<char>,
) -> Seq<IncidentView>
    decreases stmts.len(),
{
    if stmts.len() == 0 {
        Seq::empty()
    } else {
        all_import_hits(stmts.drop_last(), source, pattern, file_uri) + import_hits(
            stmts.last(),
            source,
            pattern,
            file_uri,
        )
    }
}

/// The type references of some statements.
pub open spec fn all_type_hits(scan: TextScanView, stmts: Seq<Statement>) -> Seq<IncidentView>
    decreases stmts.len(),
{
    if stmts.len() == 0 {
        Seq::empty()
    } else {
        all_type_hits(scan, stmts.drop_last()) + type_refs::statement_hits(scan, stmts.last())
    }
}

/// The class names in some statements.
pub open spec fn all_class_hits(scan: TextScanView, stmts: Seq<Statement>) -> Seq<IncidentView>
    decreases stmts.len(),
{
    if stmts.len() == 0 {
        Seq::empty()
    } else {
        all_class_hits(scan, stmts.drop_last()) + classnames::statement_hits(scan, stmts.last())
    }
}

/// The custom properties in some statements.
pub open spec fn all_var_hits(scan: TextScanView, stmts: Seq<Statement>) -> Seq<IncidentView>
    decreases stmts.len(),
{
    if stmts.len() == 0 {
        Seq::empty()
    } else {
        all_var_hits(scan, stmts.drop_last()) + css_vars::statement_hits(scan, stmts.last())
    }
}

pub open spec fn asks_at(q: QueryView, location: ReferenceLocation) -> bool {
    q.location is None || q.location == Some(location)
}

/// The references in a program: its imports, then its JSX, then its calls, then its
/// types, at the places that are asked for.
pub open spec fn reference_hits(
    program: Program,
    source: Seq<char>,
    file_uri: Seq<char>,
    q: QueryView,
) -> Seq<IncidentView> {
    let stmts = program.body@;
    let scan = TextScanView { source, pattern: q.pattern, file_uri };
    let imports = if asks_at(q, ReferenceLocation::Import) {
        imports_kept(all_import_hits(stmts, source, q.pattern, file_uri), q)
    } else {
        Seq::empty()
    };
    let jsx = if asks_at(q, ReferenceLocation::JsxComponent) || asks_at(q, ReferenceLocation::JsxProp) {
        jsx_kept(
            statements_hits(
                (JsxScanView {
                    source,
                    pattern: q.pattern,
                    file_uri,
                    location: q.location,
                    imports: imported_names(stmts),
                }),
                fns_in_statements(source, stmts, Seq::empty()),
                None,
                stmts,
            ),
            q,
        )
    } else {
        Seq::empty()
    };
    let calls = if asks_at(q, ReferenceLocation::FunctionCall) {
        calls_hits(scan, program.calls@)
    } else {
        Seq::empty()
    };
    let types = if asks_at(q, ReferenceLocation::TypeReference) {
        all_type_hits(scan, stmts)
    } else {
        Seq::empty()
    };
    imports + jsx + calls + types
}

fn import_incidents(program: &Program, source: &str, pattern: &regex::Regex, file_uri: &str) -> (r: Vec<
    Incident,
>)
    ensures
        incident_views(r@) == all_import_hits(
            program.body@,
            source@,
            regex_text(*pattern),
            file_uri@,
        ),
{
    let ghost b = program.body@;
    let mut out: Vec<Incident> = Vec::new();
    let mut i: usize = 0;
    assert(incident_views(out@) =~= all_import_hits(
        b.take(0),
        source@,
        regex_text(*pattern),
        file_uri@,
    ));
    while i < program.body.len()
        invariant
            i <= program.body@.len(),
            b == program.body@,
            incident_views(out@) == all_import_hits(
                b.take(i as int),
                source@,
                regex_text(*pattern),
                file_uri@,
            ),
        decreases program.body@.len() - i,
    {
        assert(b.take(i + 1).drop_last() =~= b.take(i as int));
        append_incidents(&mut out, scan_imports(&program.body[i], source, pattern, file_uri));
        i = i + 1;
    }
    assert(b.take(b.len() as int) =~= b);
    out
}

fn type_incidents(program: &Program, source: &str, pattern: &regex::Regex, file_uri: &str) -> (r: Vec<
    Incident,
>)
    ensures
        incident_views(r@) == all_type_hits(
            (TextScanView { source: source@, pattern: regex_text(*pattern), file_uri: file_uri@ }),
            program.body@,
        ),
{
    let ghost b = program.body@;
    let ghost scan = TextScanView { source: source@, pattern: regex_text(*pattern), file_uri: file_uri@ };
    let mut out: Vec<Incident> = Vec::new();
    let mut i: usize = 0;
    assert(incident_views(out@) =~= all_type_hits(scan, b.take(0)));
    while i < program.body.len()
        invariant
            i <= program.body@.len(),
            b == program.body@,
            scan == (TextScanView {
                source: source@,
                pattern: regex_text(*pattern),
                file_uri: file_uri@,
            }),
            incident_views(out@) == all_type_hits(scan, b.take(i as int)),
        decreases program.body@.len() - i,
    {
        assert(b.take(i + 1).drop_last() =~= b.take(i as int));
        append_incidents(
            &mut out,
            type_refs::scan_type_refs(&program.body[i], source, pattern, file_uri),
        );
        i = i + 1;
    }
    assert(b.take(b.len() as int) =~= b);
    out
}

/// The class names in a program.
pub fn scan_program_classnames(
    program: &Program,
    source: &str,
    pattern: &regex::Regex,
    file_uri: &str,
) -> (r: Vec<Incident>)
    ensures
        incident_views(r@) == all_class_hits(
            (TextScanView { source: source@, pattern: regex_text(*pattern), file_uri: file_uri@ }),
            program.body@,
        ),
{
    let ghost b = program.body@;
    let ghost scan = TextScanView { source: source@, pattern: regex_text(*pattern), file_uri: file_uri@ };
    let mut out: Vec<Incident> = Vec::new();
    let mut i: usize = 0;
    assert(incident_views(out@) =~= all_class_hits(scan, b.take(0)));
    while i < program.body.len()
        invariant
            i <= program.body@.len(),
            b == program.body@,
            scan == (TextScanView {
                source: source@,
                pattern: regex_text(*pattern),
                file_uri: file_uri@,
            }),
            incident_views(out@) == all_class_hits(scan, b.take(i as int)),
        decreases program.body@.len() - i,
    {
        assert(b.take(i + 1).drop_last() =~= b.take(i as int));
        append_incidents(
            &mut out,
            classnames::scan_classname_usage(&program.body[i], source, pattern, file_uri),
        );
        i = i + 1;
    }
    assert(b.take(b.len() as int) =~= b);
    out
}

/// The custom properties in a program.
pub fn scan_program_css_vars(
    program: &Program,
    source: &str,
    pattern: &regex::Regex,
    file_uri: &str,
) -> (r: Vec<Incident>)
    ensures
        incident_views(r@) == all_var_hits(
            (TextScanView { source: source@, pattern: regex_text(*pattern), file_uri: file_uri@ }),
            program.body@,
        ),
{
    let ghost b = program.body@;
    let ghost scan = TextScanView { source: source@, pattern: regex_text(*pattern), file_uri: file_uri@ };
    let mut out: Vec<Incident> = Vec::new();
    let mut i: usize = 0;
    assert(incident_views(out@) =~= all_var_hits(scan, b.take(0)));
    while i < program.body.len()
        invariant
            i <= program.body@.len(),
            b == program.body@,
            scan == (TextScanView {
                source: source@,
                pattern: regex_text(*pattern),
                file_uri: file_uri@,
            }),
            incident_views(out@) == all_var_hits(scan, b.take(i as int)),
        decreases program.body@.len() - i,
    {
        assert(b.take(i + 1).drop_last() =~= b.take(i as int));
        append_incidents(
            &mut out,
            css_vars::scan_css_var_usage(&program.body[i], source, pattern, file_uri),
        );
        i = i + 1;
    }
    assert(b.take(b.len() as int) =~= b);
    out
}

/// The references in a program that a condition asks for.
pub fn scan_program_referenced(
    program: &Program,
    source: &str,
    file_uri: &str,
    query: &ReferenceQuery,
) -> (r: Vec<Incident>)
    ensures
        incident_views(r@) == reference_hits(*program, source@, file_uri@, query@),
{
    let mut out: Vec<Incident> = Vec::new();
    assert(incident_views(out@) =~= Seq::<IncidentView>::empty());
    let anywhere: bool = query.location.is_none();
    if anywhere || query.location == Some(ReferenceLocation::Import) {
        let found = import_incidents(program, source, &query.pattern, file_uri);
        append_incidents(&mut out, keep_imports(found, query));
    }
    let ghost imports = incident_views(out@);
    if anywhere || query.location == Some(ReferenceLocation::JsxComponent) || query.location == Some(
        ReferenceLocation::JsxProp,
    ) {
        let import_map = build_import_map(program);
        let found = scan_jsx_file(
            &program.body,
            source,
            &query.pattern,
            file_uri,
            query.location,
            &import_map,
        );
        append_incidents(&mut out, keep_jsx(found, query));
    } else {
        assert(imports =~= imports + Seq::<IncidentView>::empty());
    }
    let ghost both = incident_views(out@);
    if anywhere || query.location == Some(ReferenceLocation::FunctionCall) {
        append_incidents(
            &mut out,
            scan_function_calls(&program.calls, source, &query.pattern, file_uri),
        );
    } else {
        assert(both =~= both + Seq::<IncidentView>::empty());
    }
    let ghost three = incident_views(out@);
    if anywhere || query.location == Some(ReferenceLocation::TypeReference) {
        append_incidents(&mut out, type_incidents(program, source, &query.pattern, file_uri));
    } else {
        assert(three =~= three + Seq::<IncidentView>::empty());
    }
    assert(incident_views(out@) =~= reference_hits(*program, source@, file_uri@, query@));
    out
}

/// A condition that asks for calls gets calls and nothing else, and each incident shows
/// the name of a function that matches.
pub proof fn calls_are_found_alone(
    program: Program,
    source: Seq<char>,
    file_uri: Seq<char>,
    q: QueryView,
)
    requires
        q.location == Some(ReferenceLocation::FunctionCall),
    ensures
        reference_hits(program, source, file_uri, q) == calls_hits(
            (TextScanView { source, pattern: q.pattern, file_uri }),
            program.calls@,
        ),
        (TextScanView { source, pattern: q.pattern, file_uri }).all_match(
            reference_hits(program, source, file_uri, q),
            "functionName"@,
        ),
{
    let scan = TextScanView { source, pattern: q.pattern, file_uri };
    assert(reference_hits(program, source, file_uri, q) =~= calls_hits(scan, program.calls@));
    function_calls_match(scan, program.calls@);
}

/// Filters only take incidents away: every reference with the filters of a condition
/// is one without them.
pub proof fn filters_only_narrow(v: Seq<IncidentView>, q: QueryView)
    ensures
        forall|i: int|
            0 <= i < jsx_kept(v, q).len() ==> jsx_asked(#[trigger] jsx_kept(v, q)[i], q) && v.contains(
                jsx_kept(v, q)[i],
            ),
        forall|i: int|
            0 <= i < imports_kept(v, q).len() ==> v.contains(#[trigger] imports_kept(v, q)[i]),
    decreases v.len(),
{
    if v.len() > 0 {
        let rest = v.drop_last();
        filters_only_narrow(rest, q);
        assert forall|i: int| 0 <= i < jsx_kept(v, q).len() implies jsx_asked(
            #[trigger] jsx_kept(v, q)[i],
            q,
        ) && v.contains(jsx_kept(v, q)[i]) by {
            let x = jsx_kept(v, q)[i];
            if i < jsx_kept(rest, q).len() {
                assert(x == jsx_kept(rest, q)[i]);
                let k = choose|k: int| 0 <= k < rest.len() && rest[k] == x;
                assert(v[k] == x);
            } else {
                assert(v[v.len() - 1] == x);
            }
        }
        assert forall|i: int| 0 <= i < imports_kept(v, q).len() implies v.contains(
            #[trigger] imports_kept(v, q)[i],
        ) by {
            let x = imports_kept(v, q)[i];
            if i < imports_kept(rest, q).len() {
                assert(x == imports_kept(rest, q)[i]);
                let k = choose|k: int| 0 <= k < rest.len() && rest[k] == x;
                assert(v[k] == x);
            } else {
                assert(v[v.len() - 1] == x);
            }
        }
    }
}

/// Whether an incident tells, under `key`, a text that an expression matches.
pub open spec fn tells_match(i: IncidentView, key: Seq<char>, expression: Seq<char>) -> bool {
    i.variables.dom().contains(key) && (as_text(i.variables[key]) matches Some(t) && regex_is_match(
        expression,
        t,
    ))
}

/// Whether one of the strings that an incident lists of a prop's value is matched by an
/// expression.
pub open spec fn lists_match(i: IncidentView, expression: Seq<char>) -> bool {
    i.variables.dom().contains("propObjectValues"@) && (
    i.variables["propObjectValues"@] matches JsonView::Array(v) && exists|k: int|
        0 <= k < v.len() && (as_text(#[trigger] v[k]) matches Some(t) && regex_is_match(
            expression,
            t,
        )))
}

/// Whether a condition asks for an incident of a prop or of a component.
pub open spec fn is_wanted(q: QueryView, i: IncidentView) -> bool {
    let prop = i.variables.dom().contains("propName"@);
    &&& q.from matches Some(e) ==> tells_match(i, "module"@, e)
    &&& prop && q.component is Some ==> tells_match(i, "componentName"@, q.component->0)
    &&& prop && q.value is Some ==> tells_match(i, "propValue"@, q.value->0) || lists_match(
        i,
        q.value->0,
    )
    &&& !prop && q.parent is Some ==> tells_match(i, "parentName"@, q.parent->0)
    &&& !prop && q.parent is Some && q.parent_from is Some ==> tells_match(
        i,
        "parentFrom"@,
        q.parent_from->0,
    )
}

proof fn lemma_some_match(values: Seq<JsonView>, expression: Seq<char>, n: int)
    requires
        0 <= n <= values.len(),
    ensures
        any_matches(values, expression, n) <==> exists|k: int|
            0 <= k < n && (as_text(#[trigger] values[k]) matches Some(t) && regex_is_match(
                expression,
                t,
            )),
    decreases n,
{
    if n > 0 {
        lemma_some_match(values, expression, n - 1);
        if as_text(values[n - 1]) matches Some(t) && regex_is_match(expression, t) {
            assert(as_text(values[n - 1]) is Some);
        }
    }
}

proof fn lemma_wanted(q: QueryView, i: IncidentView)
    ensures
        jsx_asked(i, q) == is_wanted(q, i),
{
    if let Some(e) = q.value {
        let v = object_values(i);
        lemma_some_match(v, e, v.len() as int);
    }
}

/// The filters of a condition decide which incidents are kept, in their order: by the
/// module; a prop by its component, and by its value or a string in it; a component by its
/// parent and by the module of the parent.
pub proof fn filters_decide(v: Seq<IncidentView>, q: QueryView)
    ensures
        jsx_kept(v, q) == v.filter(|i: IncidentView| is_wanted(q, i)),
        imports_kept(v, q) == v.filter(
            |i: IncidentView| q.from matches Some(e) ==> tells_match(i, "module"@, e),
        ),
    decreases v.len(),
{
    reveal(Seq::filter);
    if v.len() > 0 {
        filters_decide(v.drop_last(), q);
        lemma_wanted(q, v.last());
    }
}

proof fn lemma_statement_types_among(c: TextScanView, v: Seq<Statement>, i: int)
    requires
        0 <= i < v.len(),
    ensures
        all_among(type_refs::statement_hits(c, v[i]), all_type_hits(c, v)),
    decreases v.len(),
{
    let before = all_type_hits(c, v.drop_last());
    let last = type_refs::statement_hits(c, v.last());
    lemma_among_joined(before, last);
    if i < v.len() - 1 {
        lemma_statement_types_among(c, v.drop_last(), i);
        assert(v.drop_last()[i] == v[i]);
        lemma_among_more(type_refs::statement_hits(c, v[i]), before, before + last);
    }
}

proof fn lemma_statement_classes_among(c: TextScanView, v: Seq<Statement>, i: int)
    requires
        0 <= i < v.len(),
    ensures
        all_among(classnames::statement_hits(c, v[i]), all_class_hits(c, v)),
    decreases v.len(),
{
    let before = all_class_hits(c, v.drop_last());
    let last = classnames::statement_hits(c, v.last());
    lemma_among_joined(before, last);
    if i < v.len() - 1 {
        lemma_statement_classes_among(c, v.drop_last(), i);
        assert(v.drop_last()[i] == v[i]);
        lemma_among_more(classnames::statement_hits(c, v[i]), before, before + last);
    }
}

proof fn lemma_statement_vars_among(c: TextScanView, v: Seq<Statement>, i: int)
    requires
        0 <= i < v.len(),
    ensures
        all_among(css_vars::statement_hits(c, v[i]), all_var_hits(c, v)),
    decreases v.len(),
{
    let before = all_var_hits(c, v.drop_last());
    let last = css_vars::statement_hits(c, v.last());
    lemma_among_joined(before, last);
    if i < v.len() - 1 {
        lemma_statement_vars_among(c, v.drop_last(), i);
        assert(v.drop_last()[i] == v[i]);
        lemma_among_more(css_vars::statement_hits(c, v[i]), before, before + last);
    }
}

/// What a statement holds is found in the program that it stands in: types, class names
/// and custom properties.
pub proof fn statements_are_searched(c: TextScanView, stmts: Seq<Statement>, i: int)
    requires
        0 <= i < stmts.len(),
    ensures
        all_among(type_refs::statement_hits(c, stmts[i]), all_type_hits(c, stmts)),
        all_among(classnames::statement_hits(c, stmts[i]), all_class_hits(c, stmts)),
        all_among(css_vars::statement_hits(c, stmts[i]), all_var_hits(c, stmts)),
{
    lemma_statement_types_among(c, stmts, i);
    lemma_statement_classes_among(c, stmts, i);
    lemma_statement_vars_among(c, stmts, i);
}

/// The imports of a statement are found in the program that it stands in.
pub proof fn imports_are_searched(
    stmts: Seq<Statement>,
    source: Seq<char>,
    pattern: Seq<char>,
    file_uri: Seq<char>,
    i: int,
)
    requires
        0 <= i < stmts.len(),
    ensures
        all_among(
            import_hits(stmts[i], source, pattern, file_uri),
            all_import_hits(stmts, source, pattern, file_uri),
        ),
    decreases stmts.len(),
{
    let before = all_import_hits(stmts.drop_last(), source, pattern, file_uri);
    let last = import_hits(stmts.last(), source, pattern, file_uri);
    lemma_among_joined(before, last);
    if i < stmts.len() - 1 {
        imports_are_searched(stmts.drop_last(), source, pattern, file_uri, i);
        assert(stmts.drop_last()[i] == stmts[i]);
        lemma_among_more(
            import_hits(stmts[i], source, pattern, file_uri),
            before,
            before + last,
        );
    }
}

/// Whether a location is asked for: each one is where none is given.
pub open spec fn is_asked(q: QueryView, location: ReferenceLocation) -> bool {
    q.location matches Some(l) ==> l == location
}

/// A condition gets what stands at the locations that it asks for, and nothing else:
/// imports and JSX as far as they pass its filters, calls, and types.
pub proof fn locations_decide(
    program: Program,
    source: Seq<char>,
    file_uri: Seq<char>,
    q: QueryView,
    i: IncidentView,
)
    ensures
        ({
            let stmts = program.body@;
            let scan = TextScanView { source, pattern: q.pattern, file_uri };
            let elements = JsxScanView {
                source,
                pattern: q.pattern,
                file_uri,
                location: q.location,
                imports: imported_names(stmts),
            };
            let fns = fns_in_statements(source, stmts, Seq::empty());
            reference_hits(program, source, file_uri, q).contains(i) <==> {
                ||| is_asked(q, ReferenceLocation::Import) && all_import_hits(
                    stmts,
                    source,
                    q.pattern,
                    file_uri,
                ).contains(i) && (q.from matches Some(e) ==> tells_match(i, "module"@, e))
                ||| (is_asked(q, ReferenceLocation::JsxComponent) || is_asked(
                    q,
                    ReferenceLocation::JsxProp,
                )) && statements_hits(elements, fns, None, stmts).contains(i) && is_wanted(q, i)
                ||| is_asked(q, ReferenceLocation::FunctionCall) && calls_hits(
                    scan,
                    program.calls@,
                ).contains(i)
                ||| is_asked(q, ReferenceLocation::TypeReference) && all_type_hits(
                    scan,
                    stmts,
                ).contains(i)
            }
        }),
{
    let stmts = program.body@;
    let scan = TextScanView { source, pattern: q.pattern, file_uri };
    let elements = JsxScanView {
        source,
        pattern: q.pattern,
        file_uri,
        location: q.location,
        imports: imported_names(stmts),
    };
    let fns = fns_in_statements(source, stmts, Seq::empty());
    let found_imports = all_import_hits(stmts, source, q.pattern, file_uri);
    let found_jsx = statements_hits(elements, fns, None, stmts);
    lemma_kept(found_imports, q, i);
    lemma_kept(found_jsx, q, i);
    let imports = if asks_at(q, ReferenceLocation::Import) {
        imports_kept(found_imports, q)
    } else {
        Seq::empty()
    };
    let jsx = if asks_at(q, ReferenceLocation::JsxComponent) || asks_at(
        q,
        ReferenceLocation::JsxProp,
    ) {
        jsx_kept(found_jsx, q)
    } else {
        Seq::empty()
    };
    let calls = if asks_at(q, ReferenceLocation::FunctionCall) {
        calls_hits(scan, program.calls@)
    } else {
        Seq::empty()
    };
    let types = if asks_at(q, ReferenceLocation::TypeReference) {
        all_type_hits(scan, stmts)
    } else {
        Seq::empty()
    };
    lemma_in_either(imports, jsx, i);
    lemma_in_either(imports + jsx, calls, i);
    lemma_in_either(imports + jsx + calls, types, i);
}

proof fn lemma_in_either(a: Seq<IncidentView>, b: Seq<IncidentView>, x: IncidentView)
    ensures
        (a + b).contains(x) <==> a.contains(x) || b.contains(x),
{
    lemma_among_joined(a, b);
    if a.contains(x) {
        lemma_contained(a, a + b, x);
    }
    if b.contains(x) {
        lemma_contained(b, a + b, x);
    }
    if (a + b).contains(x) {
        let k = choose|k: int| 0 <= k < (a + b).len() && (a + b)[k] == x;
        if k < a.len() {
            assert(a[k] == x);
        } else {
            assert(b[k - a.len()] == x);
        }
    }
}

proof fn lemma_kept(v: Seq<IncidentView>, q: QueryView, x: IncidentView)
    ensures
        jsx_kept(v, q).contains(x) <==> v.contains(x) && is_wanted(q, x),
        imports_kept(v, q).contains(x) <==> v.contains(x) && (q.from matches Some(e)
            ==> tells_match(x, "module"@, e)),
    decreases v.len(),
{
    if v.len() > 0 {
        let rest = v.drop_last();
        lemma_kept(rest, q, x);
        lemma_wanted(q, v.last());
        lemma_in_either(rest, seq![v.last()], x);
        assert(rest + seq![v.last()] =~= v);
        assert(seq![v.last()].contains(x) <==> v.last() == x) by {
            assert(seq![v.last()][0] == v.last());
        }
        if jsx_asked(v.last(), q) {
            assert(jsx_kept(v, q) =~= jsx_kept(rest, q) + seq![v.last()]);
            lemma_in_either(jsx_kept(rest, q), seq![v.last()], x);
        }
        if passes(v.last(), "module"@, q.from) {
            assert(imports_kept(v, q) =~= imports_kept(rest, q) + seq![v.last()]);
            lemma_in_either(imports_kept(rest, q), seq![v.last()], x);
        }
    }
}

/// A query is refused where one of its expressions is, with the reason of one that is.
pub proof fn refused_expressions_are_told(q: QueryView)
    ensures
        query_error(q) is None <==> regex_rejection(q.pattern) is None && (q.component matches Some(
            e,
        ) ==> regex_rejection(e) is None) && (q.parent matches Some(e) ==> regex_rejection(
            e,
        ) is None) && (q.parent_from matches Some(e) ==> regex_rejection(e) is None) && (
        q.value matches Some(e) ==> regex_rejection(e) is None) && (q.from matches Some(e)
            ==> regex_rejection(e) is None),
        regex_rejection(q.pattern) is Some ==> query_error(q) == regex_rejection(q.pattern),
{
}

} // verus!
