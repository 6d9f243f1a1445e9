//! Type references such as `const x: ButtonProps = ...`, and those in the signatures of
//! functions.

use crate::ast::{
    Declaration, Expression, ExpressionKind, Function, Heritage, Interface, Span, Statement, TsType,
    TypeAlias, TypeReference, VariableDeclarator,
};
use crate::incident::{
    incident_at, incident_views, lemma_incident_views_push, lies_at, make_incident, Incident,
    IncidentView,
};
use crate::json::as_text;
use crate::nodes::{all_among, lemma_among_itself, lemma_among_joined, lemma_among_more};
use crate::pattern::regex_is_match;
use crate::scan::{TextScan, TextScanView};
use crate::text::{text_between, text_between_bytes};
use vstd::prelude::*;

verus! {

pub open spec fn types_hits(c: TextScanView, v: Seq<TsType>) -> Seq<IncidentView>
    decreases v, 0nat,
{
    if v.len() == 0 {
        Seq::empty()
    } else {
        types_hits(c, v.drop_last()) + type_hits(c, v.last())
    }
}

/// The references in a type, outer ones first.
pub open spec fn type_hits(c: TextScanView, t: TsType) -> Seq<IncidentView>
    decreases t, 0nat,
{
    match t {
        TsType::Reference(r) => c.hit(
            r.name_span,
            "typeName"@,
            text_between(c.source, r.name_span.start as int, r.name_span.end as int),
        ) + types_hits(c, r.arguments@),
        TsType::Union(v) => types_hits(c, v@),
        TsType::Intersection(v) => types_hits(c, v@),
        TsType::Array(x) => type_hits(c, *x),
        TsType::Other => Seq::empty(),
    }
}

pub open spec fn declarators_hits(c: TextScanView, v: Seq<VariableDeclarator>) -> Seq<IncidentView>
    decreases v, 0nat,
{
    if v.len() == 0 {
        Seq::empty()
    } else {
        declarators_hits(c, v.drop_last()) + declarator_hits(c, v.last())
    }
}

/// The references in the signature of a function that a variable is set to.
pub open spec fn initial_hits(c: TextScanView, e: Expression) -> Seq<IncidentView> {
    match e.kind {
        ExpressionKind::Arrow(f) => types_hits(c, f.signature@),
        ExpressionKind::Function(f) => types_hits(c, f.signature@),
        _ => Seq::empty(),
    }
}

pub open spec fn declarator_hits(c: TextScanView, d: VariableDeclarator) -> Seq<IncidentView> {
    (match d.annotation {
        Some(t) => type_hits(c, t),
        None => Seq::empty(),
    }) + match d.init {
        Some(e) => initial_hits(c, e),
        None => Seq::empty(),
    }
}

/// The incident of a base of an interface: one for the whole clause, named by its
/// expression.
pub open spec fn heritage_hits(c: TextScanView, h: Heritage) -> Seq<IncidentView> {
    let name = text_between(
        c.source,
        h.expression_span.start as int,
        h.expression_span.end as int,
    );
    if regex_is_match(c.pattern, name) {
        seq![
            incident_at(c.source, c.file_uri, h.span.start, h.span.end).with_text(
                "typeName"@,
                name,
            ),
        ]
    } else {
        Seq::empty()
    }
}

pub open spec fn heritages_hits(c: TextScanView, v: Seq<Heritage>) -> Seq<IncidentView>
    decreases v.len(),
{
    if v.len() == 0 {
        Seq::empty()
    } else {
        heritages_hits(c, v.drop_last()) + heritage_hits(c, v.last())
    }
}

pub open spec fn alias_hits(c: TextScanView, a: TypeAlias) -> Seq<IncidentView> {
    c.hit(a.name_span, "typeName"@, a.name@) + type_hits(c, a.annotation)
}

pub open spec fn interface_hits(c: TextScanView, i: Interface) -> Seq<IncidentView> {
    c.hit(i.name_span, "typeName"@, i.name@) + heritages_hits(c, i.extends@)
}

/// The incidents of a statement.
pub open spec fn statement_hits(c: TextScanView, s: Statement) -> Seq<IncidentView> {
    match s {
        Statement::Declaration(d) => match d {
            Declaration::TypeAlias(a) => alias_hits(c, a),
            Declaration::Interface(i) => interface_hits(c, i),
            Declaration::Variable(v) => declarators_hits(c, v@),
            Declaration::Function(f) => types_hits(c, f.signature@),
            _ => Seq::empty(),
        },
        Statement::ExportDefaultFunction(f) => types_hits(c, f.signature@),
        Statement::ExportNamed(x) => match x.declaration {
            Some(Declaration::TypeAlias(a)) => alias_hits(c, a),
            Some(Declaration::Interface(i)) => interface_hits(c, i),
            Some(Declaration::Variable(v)) => declarators_hits(c, v@),
            Some(Declaration::Function(f)) => types_hits(c, f.signature@),
            _ => Seq::empty(),
        },
        _ => Seq::empty(),
    }
}

fn check_types(scan: &TextScan, v: &Vec<TsType>, out: &mut Vec<Incident>)
    ensures
        incident_views(final(out)@) == incident_views(old(out)@) + types_hits(scan@, v@),
    decreases v, 0nat,
{
    let ghost before = incident_views(out@);
    let mut i: usize = 0;
    assert(before + types_hits(scan@, v@.take(0)) =~= before);
    while i < v.len()
        invariant
            i <= v@.len(),
            incident_views(out@) == before + types_hits(scan@, v@.take(i as int)),
        decreases v@.len() - i,
    {
        assert(decreases_to!(v@ => v@[i as int]));
        assert(v@.take(i + 1).drop_last() =~= v@.take(i as int));
        check_ts_type(scan, &v[i], out);
        assert(incident_views(out@) =~= before + types_hits(scan@, v@.take(i + 1)));
        i = i + 1;
    }
    assert(v@.take(v@.len() as int) =~= v@);
}

fn check_ts_type(scan: &TextScan, t: &TsType, out: &mut Vec<Incident>)
    ensures
        incident_views(final(out)@) == incident_views(old(out)@) + type_hits(scan@, *t),
    decreases t, 0nat,
{
    let ghost before = incident_views(out@);
    assert(before + Seq::<IncidentView>::empty() =~= before);
    match t {
        TsType::Reference(r) => {
            let name = text_between_bytes(
                scan.source,
                r.name_span.start as u64,
                r.name_span.end as u64,
            );
            scan.check(r.name_span, "typeName", name.as_str(), out);
            check_types(scan, &r.arguments, out);
            assert(incident_views(out@) =~= before + type_hits(scan@, *t));
        },
        TsType::Union(v) => check_types(scan, v, out),
        TsType::Intersection(v) => check_types(scan, v, out),
        TsType::Array(x) => check_ts_type(scan, x, out),
        TsType::Other => {},
    }
}

fn check_declarators(scan: &TextScan, v: &Vec<VariableDeclarator>, out: &mut Vec<Incident>)
    ensures
        incident_views(final(out)@) == incident_views(old(out)@) + declarators_hits(scan@, v@),
    decreases v, 0nat,
{
    let ghost before = incident_views(out@);
    let mut i: usize = 0;
    assert(before + declarators_hits(scan@, v@.take(0)) =~= before);
    while i < v.len()
        invariant
            i <= v@.len(),
            incident_views(out@) == before + declarators_hits(scan@, v@.take(i as int)),
        decreases v@.len() - i,
    {
        assert(decreases_to!(v@ => v@[i as int]));
        assert(v@.take(i + 1).drop_last() =~= v@.take(i as int));
        check_declarator(scan, &v[i], out);
        assert(incident_views(out@) =~= before + declarators_hits(scan@, v@.take(i + 1)));
        i = i + 1;
    }
    assert(v@.take(v@.len() as int) =~= v@);
}

fn check_initial(scan: &TextScan, e: &Expression, out: &mut Vec<Incident>)
    ensures
        incident_views(final(out)@) == incident_views(old(out)@) + initial_hits(scan@, *e),
{
    let ghost before = incident_views(out@);
    assert(before + Seq::<IncidentView>::empty() =~= before);
    match &e.kind {
        ExpressionKind::Arrow(f) => check_types(scan, &f.signature, out),
        ExpressionKind::Function(f) => check_types(scan, &f.signature, out),
        _ => {},
    }
}

fn check_declarator(scan: &TextScan, d: &VariableDeclarator, out: &mut Vec<Incident>)
    ensures
        incident_views(final(out)@) == incident_views(old(out)@) + declarator_hits(scan@, *d),
{
    let ghost before = incident_views(out@);
    if let Some(t) = &d.annotation {
        check_ts_type(scan, t, out);
    }
    if let Some(e) = &d.init {
        check_initial(scan, e, out);
    }
    assert(incident_views(out@) =~= before + declarator_hits(scan@, *d));
}

fn check_heritages(scan: &TextScan, v: &Vec<Heritage>, out: &mut Vec<Incident>)
    ensures
        incident_views(final(out)@) == incident_views(old(out)@) + heritages_hits(scan@, v@),
{
    let ghost before = incident_views(out@);
    let mut i: usize = 0;
    assert(before + heritages_hits(scan@, v@.take(0)) =~= before);
    while i < v.len()
        invariant
            i <= v@.len(),
            incident_views(out@) == before + heritages_hits(scan@, v@.take(i as int)),
        decreases v@.len() - i,
    {
        assert(v@.take(i + 1).drop_last() =~= v@.take(i as int));
        check_heritage(scan, &v[i], out);
        assert(incident_views(out@) =~= before + heritages_hits(scan@, v@.take(i + 1)));
        i = i + 1;
    }
    assert(v@.take(v@.len() as int) =~= v@);
}

fn check_heritage(scan: &TextScan, h: &Heritage, out: &mut Vec<Incident>)
    ensures
        incident_views(final(out)@) == incident_views(old(out)@) + heritage_hits(scan@, *h),
{
    let ghost before = incident_views(out@);
    let name = text_between_bytes(
        scan.source,
        h.expression_span.start as u64,
        h.expression_span.end as u64,
    );
    if scan.pattern.is_match(name.as_str()) {
        let mut incident = make_incident(scan.source, scan.file_uri, h.span.start, h.span.end);
        incident.set_text("typeName", name.as_str());
        proof {
            lemma_incident_views_push(out@, incident);
        }
        out.push(incident);
    }
    assert(incident_views(out@) =~= before + heritage_hits(scan@, *h));
}

fn check_alias(scan: &TextScan, a: &TypeAlias, out: &mut Vec<Incident>)
    ensures
        incident_views(final(out)@) == incident_views(old(out)@) + alias_hits(scan@, *a),
{
    let ghost before = incident_views(out@);
    scan.check(a.name_span, "typeName", a.name.as_str(), out);
    check_ts_type(scan, &a.annotation, out);
    assert(incident_views(out@) =~= before + alias_hits(scan@, *a));
}

fn check_interface(scan: &TextScan, i: &Interface, out: &mut Vec<Incident>)
    ensures
        incident_views(final(out)@) == incident_views(old(out)@) + interface_hits(scan@, *i),
{
    let ghost before = incident_views(out@);
    scan.check(i.name_span, "typeName", i.name.as_str(), out);
    check_heritages(scan, &i.extends, out);
    assert(incident_views(out@) =~= before + interface_hits(scan@, *i));
}

/// Scans a statement for type references.
pub fn scan_type_refs(
    stmt: &Statement,
    source: &str,
    pattern: &regex::Regex,
    file_uri: &str,
) -> (r: Vec<Incident>)
    ensures
        incident_views(r@) == statement_hits((TextScan { source, pattern, file_uri })@, *stmt),
{
    let scan = TextScan { source, pattern, file_uri };
    let mut incidents: Vec<Incident> = Vec::new();
    match stmt {
        Statement::Declaration(d) => match d {
            Declaration::TypeAlias(a) => check_alias(&scan, a, &mut incidents),
            Declaration::Interface(i) => check_interface(&scan, i, &mut incidents),
            Declaration::Variable(v) => check_declarators(&scan, v, &mut incidents),
            Declaration::Function(f) => check_types(&scan, &f.signature, &mut incidents),
            _ => {},
        },
        Statement::ExportDefaultFunction(f) => check_types(&scan, &f.signature, &mut incidents),
        Statement::ExportNamed(x) => match &x.declaration {
            Some(Declaration::TypeAlias(a)) => check_alias(&scan, a, &mut incidents),
            Some(Declaration::Interface(i)) => check_interface(&scan, i, &mut incidents),
            Some(Declaration::Variable(v)) => check_declarators(&scan, v, &mut incidents),
            Some(Declaration::Function(f)) => check_types(&scan, &f.signature, &mut incidents),
            _ => {},
        },
        _ => {},
    }
    assert(incident_views(incidents@) =~= statement_hits(scan@, *stmt));
    incidents
}

// ── Laws of the scan ────────────────────────────────────────────────────

/// Every incident lies in the scanned file and shows a type name that matches the
/// pattern.
pub proof fn type_names_match(c: TextScanView, s: Statement)
    ensures
        c.all_match(statement_hits(c, s), "typeName"@),
{
    match s {
        Statement::Declaration(Declaration::TypeAlias(a)) => {
            alias_match(c, a);
        },
        Statement::Declaration(Declaration::Interface(i)) => {
            interface_match(c, i);
        },
        Statement::Declaration(Declaration::Variable(v)) => {
            declarators_match(c, v@);
        },
        Statement::Declaration(Declaration::Function(f)) => {
            types_match(c, f.signature@);
        },
        Statement::ExportDefaultFunction(f) => {
            types_match(c, f.signature@);
        },
        Statement::ExportNamed(x) => {
            match x.declaration {
                Some(Declaration::TypeAlias(a)) => {
                    alias_match(c, a);
                },
                Some(Declaration::Interface(i)) => {
                    interface_match(c, i);
                },
                Some(Declaration::Variable(v)) => {
                    declarators_match(c, v@);
                },
                Some(Declaration::Function(f)) => {
                    types_match(c, f.signature@);
                },
                _ => {},
            }
        },
        _ => {},
    }
}

proof fn alias_match(c: TextScanView, a: TypeAlias)
    ensures
        c.all_match(alias_hits(c, a), "typeName"@),
{
    type_match(c, a.annotation);
    c.lemma_match_add(
        c.hit(a.name_span, "typeName"@, a.name@),
        type_hits(c, a.annotation),
        "typeName"@,
    );
}

proof fn interface_match(c: TextScanView, i: Interface)
    ensures
        c.all_match(interface_hits(c, i), "typeName"@),
{
    heritages_match(c, i.extends@);
    c.lemma_match_add(
        c.hit(i.name_span, "typeName"@, i.name@),
        heritages_hits(c, i.extends@),
        "typeName"@,
    );
}

proof fn heritages_match(c: TextScanView, v: Seq<Heritage>)
    ensures
        c.all_match(heritages_hits(c, v), "typeName"@),
    decreases v.len(),
{
    if v.len() > 0 {
        heritages_match(c, v.drop_last());
        c.lemma_match_add(
            heritages_hits(c, v.drop_last()),
            heritage_hits(c, v.last()),
            "typeName"@,
        );
    }
}

proof fn types_match(c: TextScanView, v: Seq<TsType>)
    ensures
        c.all_match(types_hits(c, v), "typeName"@),
    decreases v, 0nat,
{
    if v.len() > 0 {
        types_match(c, v.drop_last());
        type_match(c, v.last());
        c.lemma_match_add(
            types_hits(c, v.drop_last()),
            type_hits(c, v.last()),
            "typeName"@,
        );
    }
}

proof fn type_match(c: TextScanView, t: TsType)
    ensures
        c.all_match(type_hits(c, t), "typeName"@),
    decreases t, 0nat,
{
    match t {
        TsType::Reference(r) => {
            types_match(c, r.arguments@);
            c.lemma_match_add(
                c.hit(
                    r.name_span,
                    "typeName"@,
                    text_between(c.source, r.name_span.start as int, r.name_span.end as int),
                ),
                types_hits(c, r.arguments@),
                "typeName"@,
            );
        },
        TsType::Union(v) => {
            types_match(c, v@);
        },
        TsType::Intersection(v) => {
            types_match(c, v@);
        },
        TsType::Array(x) => {
            type_match(c, *x);
        },
        TsType::Other => {},
    }
}

proof fn declarators_match(c: TextScanView, v: Seq<VariableDeclarator>)
    ensures
        c.all_match(declarators_hits(c, v), "typeName"@),
    decreases v, 0nat,
{
    if v.len() > 0 {
        declarators_match(c, v.drop_last());
        declarator_match(c, v.last());
        c.lemma_match_add(
            declarators_hits(c, v.drop_last()),
            declarator_hits(c, v.last()),
            "typeName"@,
        );
    }
}

proof fn declarator_match(c: TextScanView, d: VariableDeclarator)
    ensures
        c.all_match(declarator_hits(c, d), "typeName"@),
{
    let annotation = match d.annotation {
        Some(t) => type_hits(c, t),
        None => Seq::empty(),
    };
    let initial = match d.init {
        Some(e) => initial_hits(c, e),
        None => Seq::empty(),
    };
    if let Some(t) = d.annotation {
        type_match(c, t);
    }
    if let Some(e) = d.init {
        match e.kind {
            ExpressionKind::Arrow(f) => {
                types_match(c, f.signature@);
            },
            ExpressionKind::Function(f) => {
                types_match(c, f.signature@);
            },
            _ => {},
        }
    }
    c.lemma_match_add(annotation, initial, "typeName"@);
}

// ── Every type is found ─────────────────────────────────────────────────

/// Whether an incident shows a type name that stands at a place of the scanned source.
pub open spec fn shows_type(c: TextScanView, i: IncidentView, span: Span, name: Seq<char>) -> bool {
    &&& lies_at(i, c.source, c.file_uri, span.start, span.end)
    &&& i.variables.dom().contains("typeName"@)
    &&& as_text(i.variables["typeName"@]) == Some(name)
}

/// Whether a reference stands in a type: it is the type, or stands in one of its
/// arguments, alternatives, parts or in its elements.
pub open spec fn refers_to(t: TsType, r: TypeReference) -> bool
    decreases t,
{
    match t {
        TsType::Reference(x) => x == r || exists|i: int|
            0 <= i < x.arguments@.len() && refers_to(#[trigger] x.arguments@[i], r),
        TsType::Union(v) => exists|i: int| 0 <= i < v@.len() && refers_to(#[trigger] v@[i], r),
        TsType::Intersection(v) => exists|i: int|
            0 <= i < v@.len() && refers_to(#[trigger] v@[i], r),
        TsType::Array(x) => refers_to(*x, r),
        TsType::Other => false,
    }
}

/// Whether a type is part of the signature of a function.
pub open spec fn in_signature(f: Function, t: TsType) -> bool {
    f.signature@.contains(t)
}

/// Whether a declaration is annotated with a type: an alias, a variable, or the signature
/// of a function, also one that a variable is set to.
pub open spec fn annotates(d: Declaration, t: TsType) -> bool {
    match d {
        Declaration::TypeAlias(a) => a.annotation == t,
        Declaration::Variable(v) => exists|i: int|
            0 <= i < v@.len() && annotates_variable(#[trigger] v@[i], t),
        Declaration::Function(f) => in_signature(f, t),
        _ => false,
    }
}

pub open spec fn annotates_variable(d: VariableDeclarator, t: TsType) -> bool {
    ||| d.annotation == Some(t)
    ||| d.init matches Some(e) && match e.kind {
        ExpressionKind::Arrow(f) => in_signature(*f, t),
        ExpressionKind::Function(f) => in_signature(*f, t),
        _ => false,
    }
}

/// Whether a statement makes a declaration, exported or not.
pub open spec fn declares(s: Statement, d: Declaration) -> bool {
    match s {
        Statement::Declaration(x) => x == d,
        Statement::ExportNamed(x) => x.declaration == Some(d),
        Statement::ExportDefaultFunction(f) => d == Declaration::Function(f),
        _ => false,
    }
}

proof fn lemma_type_among(c: TextScanView, v: Seq<TsType>, i: int)
    requires
        0 <= i < v.len(),
    ensures
        all_among(type_hits(c, v[i]), types_hits(c, v)),
    decreases v.len(),
{
    let before = types_hits(c, v.drop_last());
    let last = type_hits(c, v.last());
    lemma_among_joined(before, last);
    if i < v.len() - 1 {
        lemma_type_among(c, v.drop_last(), i);
        assert(v.drop_last()[i] == v[i]);
        lemma_among_more(type_hits(c, v[i]), before, before + last);
    }
}

proof fn lemma_declarator_among(c: TextScanView, v: Seq<VariableDeclarator>, i: int)
    requires
        0 <= i < v.len(),
    ensures
        all_among(declarator_hits(c, v[i]), declarators_hits(c, v)),
    decreases v.len(),
{
    let before = declarators_hits(c, v.drop_last());
    let last = declarator_hits(c, v.last());
    lemma_among_joined(before, last);
    if i < v.len() - 1 {
        lemma_declarator_among(c, v.drop_last(), i);
        assert(v.drop_last()[i] == v[i]);
        lemma_among_more(declarator_hits(c, v[i]), before, before + last);
    }
}

proof fn lemma_heritage_among(c: TextScanView, v: Seq<Heritage>, i: int)
    requires
        0 <= i < v.len(),
    ensures
        all_among(heritage_hits(c, v[i]), heritages_hits(c, v)),
    decreases v.len(),
{
    let before = heritages_hits(c, v.drop_last());
    let last = heritage_hits(c, v.last());
    lemma_among_joined(before, last);
    if i < v.len() - 1 {
        lemma_heritage_among(c, v.drop_last(), i);
        assert(v.drop_last()[i] == v[i]);
        lemma_among_more(heritage_hits(c, v[i]), before, before + last);
    }
}

spec fn reference_hit(c: TextScanView, r: TypeReference) -> Seq<IncidentView> {
    c.hit(
        r.name_span,
        "typeName"@,
        text_between(c.source, r.name_span.start as int, r.name_span.end as int),
    )
}

proof fn lemma_reference_in_list(c: TextScanView, v: Seq<TsType>, r: TypeReference, i: int)
    requires
        0 <= i < v.len(),
        refers_to(v[i], r),
    ensures
        all_among(reference_hit(c, r), types_hits(c, v)),
    decreases v, 1nat,
{
    lemma_type_among(c, v, i);
    lemma_reference_in(c, v[i], r);
    lemma_among_more(reference_hit(c, r), type_hits(c, v[i]), types_hits(c, v));
}

proof fn lemma_reference_in(c: TextScanView, t: TsType, r: TypeReference)
    requires
        refers_to(t, r),
    ensures
        all_among(reference_hit(c, r), type_hits(c, t)),
    decreases t, 0nat,
{
    match t {
        TsType::Reference(x) => {
            let inner = types_hits(c, x.arguments@);
            lemma_among_joined(reference_hit(c, x), inner);
            if x != r {
                let i = choose|i: int|
                    0 <= i < x.arguments@.len() && refers_to(#[trigger] x.arguments@[i], r);
                lemma_reference_in_list(c, x.arguments@, r, i);
                lemma_among_more(reference_hit(c, r), inner, type_hits(c, t));
            }
        },
        TsType::Union(v) => {
            let i = choose|i: int| 0 <= i < v@.len() && refers_to(#[trigger] v@[i], r);
            lemma_reference_in_list(c, v@, r, i);
        },
        TsType::Intersection(v) => {
            let i = choose|i: int| 0 <= i < v@.len() && refers_to(#[trigger] v@[i], r);
            lemma_reference_in_list(c, v@, r, i);
        },
        TsType::Array(x) => {
            lemma_reference_in(c, *x, r);
        },
        TsType::Other => {},
    }
}

proof fn lemma_signature(c: TextScanView, f: Function, t: TsType)
    requires
        in_signature(f, t),
    ensures
        all_among(type_hits(c, t), types_hits(c, f.signature@)),
{
    let i = choose|i: int| 0 <= i < f.signature@.len() && f.signature@[i] == t;
    lemma_type_among(c, f.signature@, i);
}

proof fn lemma_annotation(c: TextScanView, s: Statement, d: Declaration, t: TsType)
    requires
        declares(s, d),
        annotates(d, t),
    ensures
        all_among(type_hits(c, t), statement_hits(c, s)),
{
    match d {
        Declaration::TypeAlias(a) => {
            lemma_among_joined(
                c.hit(a.name_span, "typeName"@, a.name@),
                type_hits(c, a.annotation),
            );
        },
        Declaration::Variable(v) => {
            let i = choose|i: int| 0 <= i < v@.len() && annotates_variable(#[trigger] v@[i], t);
            let x = v@[i];
            lemma_declarator_among(c, v@, i);
            let own = match x.annotation {
                Some(a) => type_hits(c, a),
                None => Seq::empty(),
            };
            let first = match x.init {
                Some(e) => initial_hits(c, e),
                None => Seq::empty(),
            };
            lemma_among_joined(own, first);
            if x.annotation != Some(t) {
                match x.init->0.kind {
                    ExpressionKind::Arrow(f) => {
                        lemma_signature(c, *f, t);
                    },
                    ExpressionKind::Function(f) => {
                        lemma_signature(c, *f, t);
                    },
                    _ => {},
                }
                lemma_among_more(type_hits(c, t), first, declarator_hits(c, x));
            } else {
                lemma_among_itself(own);
            }
            lemma_among_more(type_hits(c, t), declarator_hits(c, x), declarators_hits(c, v@));
        },
        Declaration::Function(f) => {
            lemma_signature(c, f, t);
        },
        _ => {},
    }
}

/// Every reference to a type that matches is found: in aliases, in annotations of
/// variables and in signatures, exported or not, however deep it stands in a type.
pub proof fn every_type_reference_is_found(
    c: TextScanView,
    s: Statement,
    d: Declaration,
    t: TsType,
    r: TypeReference,
)
    requires
        declares(s, d),
        annotates(d, t),
        refers_to(t, r),
        regex_is_match(
            c.pattern,
            text_between(c.source, r.name_span.start as int, r.name_span.end as int),
        ),
    ensures
        exists|k: int|
            0 <= k < statement_hits(c, s).len() && shows_type(
                c,
                #[trigger] statement_hits(c, s)[k],
                r.name_span,
                text_between(c.source, r.name_span.start as int, r.name_span.end as int),
            ),
{
    let all = statement_hits(c, s);
    lemma_annotation(c, s, d, t);
    lemma_reference_in(c, t, r);
    lemma_among_more(reference_hit(c, r), type_hits(c, t), all);
    let x = reference_hit(c, r)[0];
    assert(all.contains(reference_hit(c, r)[0]));
    let k = choose|k: int| 0 <= k < all.len() && all[k] == x;
    assert(shows_type(
        c,
        all[k],
        r.name_span,
        text_between(c.source, r.name_span.start as int, r.name_span.end as int),
    ));
}

/// Every declared type whose name matches is found, exported or not.
pub proof fn every_declared_type_is_found(
    c: TextScanView,
    s: Statement,
    d: Declaration,
    name: Seq<char>,
    span: Span,
)
    requires
        declares(s, d),
        (d matches Declaration::TypeAlias(a) && a.name@ == name && a.name_span == span) || (
        d matches Declaration::Interface(i) && i.name@ == name && i.name_span == span),
        regex_is_match(c.pattern, name),
    ensures
        exists|k: int|
            0 <= k < statement_hits(c, s).len() && shows_type(
                c,
                #[trigger] statement_hits(c, s)[k],
                span,
                name,
            ),
{
    assert(shows_type(c, statement_hits(c, s)[0], span, name));
}

/// Every base of an interface that matches is found, exported or not.
pub proof fn every_base_is_found(c: TextScanView, s: Statement, i: Interface, h: Heritage)
    requires
        declares(s, Declaration::Interface(i)),
        i.extends@.contains(h),
        regex_is_match(
            c.pattern,
            text_between(
                c.source,
                h.expression_span.start as int,
                h.expression_span.end as int,
            ),
        ),
    ensures
        exists|k: int|
            0 <= k < statement_hits(c, s).len() && shows_type(
                c,
                #[trigger] statement_hits(c, s)[k],
                h.span,
                text_between(
                    c.source,
                    h.expression_span.start as int,
                    h.expression_span.end as int,
                ),
            ),
{
    let all = statement_hits(c, s);
    let n = choose|n: int| 0 <= n < i.extends@.len() && i.extends@[n] == h;
    lemma_heritage_among(c, i.extends@, n);
    lemma_among_joined(
        c.hit(i.name_span, "typeName"@, i.name@),
        heritages_hits(c, i.extends@),
    );
    assert(all == interface_hits(c, i));
    lemma_among_more(heritage_hits(c, h), heritages_hits(c, i.extends@), all);
    let x = heritage_hits(c, h)[0];
    assert(all.contains(heritage_hits(c, h)[0]));
    let k = choose|k: int| 0 <= k < all.len() && all[k] == x;
    assert(shows_type(
        c,
        all[k],
        h.span,
        text_between(
            c.source,
            h.expression_span.start as int,
            h.expression_span.end as int,
        ),
    ));
}

} // verus!
