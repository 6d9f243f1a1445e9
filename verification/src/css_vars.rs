//! CSS custom properties in programs: string and template literals that hold
//! names such as `--pf-v5-global--Color--100`.

use crate::ast::{
    Argument, Declaration, Expression, ExpressionKind, Function, JsxAttributeItem,
    JsxAttributeValue, JsxChild, JsxContainer, JsxElement, ObjectMember, PropertyKey, Span,
    Statement, VariableDeclarator,
};
use crate::incident::{incident_views, lies_at, Incident, IncidentView};
use crate::json::as_text;
use crate::nodes::{
    all_among, in_arguments, in_attribute, in_body, in_child, in_declaration, in_element,
    in_statement, lemma_among_itself, lemma_among_joined, lemma_among_more, Node,
};
use crate::pattern::regex_is_match;
use crate::scan::{TextScan, TextScanView};
use vstd::prelude::*;

verus! {

pub open spec fn statements_hits(c: TextScanView, v: Seq<Statement>) -> Seq<IncidentView>
    decreases v, 0nat,
{
    if v.len() == 0 {
        Seq::empty()
    } else {
        statements_hits(c, v.drop_last()) + statement_hits(c, v.last())
    }
}

pub open spec fn declarators_hits(c: TextScanView, v: Seq<VariableDeclarator>) -> Seq<IncidentView>
    decreases v, 0nat,
{
    if v.len() == 0 {
        Seq::empty()
    } else {
        declarators_hits(c, v.drop_last()) + declarator_hits(c, v.last())
    }
}

pub open spec fn declarator_hits(c: TextScanView, d: VariableDeclarator) -> Seq<IncidentView>
    decreases d, 0nat,
{
    match d.init {
        Some(e) => expression_hits(c, e),
        None => Seq::empty(),
    }
}

pub open spec fn declaration_hits(c: TextScanView, d: Declaration) -> Seq<IncidentView>
    decreases d, 0nat,
{
    match d {
        Declaration::Function(f) => match f.body {
            Some(body) => statements_hits(c, body@),
            None => Seq::empty(),
        },
        Declaration::Variable(v) => declarators_hits(c, v@),
        _ => Seq::empty(),
    }
}

/// The incidents of a statement.
pub open spec fn statement_hits(c: TextScanView, s: Statement) -> Seq<IncidentView>
    decreases s, 0nat,
{
    match s {
        Statement::ExportDefaultFunction(f) => match f.body {
            Some(body) => statements_hits(c, body@),
            None => Seq::empty(),
        },
        Statement::ExportNamed(x) => match x.declaration {
            Some(d) => declaration_hits(c, d),
            None => Seq::empty(),
        },
        Statement::Declaration(d) => declaration_hits(c, d),
        Statement::Return(Some(e)) => expression_hits(c, e),
        Statement::Expression(e) => expression_hits(c, e),
        Statement::Block(v) => statements_hits(c, v@),
        _ => Seq::empty(),
    }
}

pub open spec fn arguments_hits(c: TextScanView, v: Seq<Argument>) -> Seq<IncidentView>
    decreases v, 0nat,
{
    if v.len() == 0 {
        Seq::empty()
    } else {
        arguments_hits(c, v.drop_last()) + argument_hits(c, v.last())
    }
}

pub open spec fn argument_hits(c: TextScanView, a: Argument) -> Seq<IncidentView>
    decreases a, 0nat,
{
    if a.spread {
        Seq::empty()
    } else {
        expression_hits(c, a.expression)
    }
}

pub open spec fn elements_hits(c: TextScanView, v: Seq<Option<Expression>>) -> Seq<IncidentView>
    decreases v, 0nat,
{
    if v.len() == 0 {
        Seq::empty()
    } else {
        elements_hits(c, v.drop_last()) + array_element_hits(c, v.last())
    }
}

pub open spec fn array_element_hits(c: TextScanView, e: Option<Expression>) -> Seq<IncidentView>
    decreases e, 0nat,
{
    match e {
        Some(x) => expression_hits(c, x),
        None => Seq::empty(),
    }
}

pub open spec fn members_hits(c: TextScanView, v: Seq<ObjectMember>) -> Seq<IncidentView>
    decreases v, 0nat,
{
    if v.len() == 0 {
        Seq::empty()
    } else {
        members_hits(c, v.drop_last()) + member_hits(c, v.last())
    }
}

/// A member of an object: its key where that is a string, then its value.
pub open spec fn member_hits(c: TextScanView, m: ObjectMember) -> Seq<IncidentView>
    decreases m, 0nat,
{
    match m {
        ObjectMember::Property(p) => {
            let key = match p.key {
                PropertyKey::Str(s) => c.hit(p.key_span, "matchingText"@, s@),
                _ => Seq::empty(),
            };
            key + expression_hits(c, p.value)
        },
        ObjectMember::Spread => Seq::empty(),
    }
}

/// The incidents of an expression.
pub open spec fn expression_hits(c: TextScanView, e: Expression) -> Seq<IncidentView>
    decreases e, 0nat,
{
    match e.kind {
        ExpressionKind::StringLiteral(s) => c.hit(e.span, "matchingText"@, s@),
        ExpressionKind::TemplateLiteral(v) => c.template_hits(v@),
        ExpressionKind::JsxElement(el) => jsx_element_hits(c, *el),
        ExpressionKind::JsxFragment(v) => children_hits(c, v@),
        ExpressionKind::Call(x) => arguments_hits(c, x.arguments@),
        ExpressionKind::Parenthesized(x) => expression_hits(c, *x),
        ExpressionKind::Arrow(f) => match f.body {
            Some(body) => statements_hits(c, body@),
            None => Seq::empty(),
        },
        ExpressionKind::Conditional(x) => expression_hits(c, x.consequent) + expression_hits(
            c,
            x.alternate,
        ),
        ExpressionKind::Logical(x) => expression_hits(c, x.left) + expression_hits(c, x.right),
        ExpressionKind::Object(v) => members_hits(c, v@),
        ExpressionKind::Array(v) => elements_hits(c, v@),
        ExpressionKind::TsAs(x) => expression_hits(c, *x),
        ExpressionKind::TsSatisfies(x) => expression_hits(c, *x),
        ExpressionKind::TsNonNull(x) => expression_hits(c, *x),
        ExpressionKind::TsTypeAssertion(x) => expression_hits(c, *x),
        _ => Seq::empty(),
    }
}

pub open spec fn container_hits(c: TextScanView, k: JsxContainer) -> Seq<IncidentView>
    decreases k, 0nat,
{
    match k.expression {
        Some(e) => expression_hits(c, e),
        None => Seq::empty(),
    }
}

pub open spec fn attributes_hits(c: TextScanView, v: Seq<JsxAttributeItem>) -> Seq<IncidentView>
    decreases v, 0nat,
{
    if v.len() == 0 {
        Seq::empty()
    } else {
        attributes_hits(c, v.drop_last()) + attribute_hits(c, v.last())
    }
}

pub open spec fn attribute_hits(c: TextScanView, a: JsxAttributeItem) -> Seq<IncidentView>
    decreases a, 0nat,
{
    match a {
        JsxAttributeItem::Attribute(x) => match x.value {
            Some(JsxAttributeValue::Str(span, s)) => c.hit(span, "matchingText"@, s@),
            Some(JsxAttributeValue::Container(k)) => container_hits(c, k),
            _ => Seq::empty(),
        },
        JsxAttributeItem::Spread => Seq::empty(),
    }
}

pub open spec fn children_hits(c: TextScanView, v: Seq<JsxChild>) -> Seq<IncidentView>
    decreases v, 0nat,
{
    if v.len() == 0 {
        Seq::empty()
    } else {
        children_hits(c, v.drop_last()) + child_hits(c, v.last())
    }
}

pub open spec fn child_hits(c: TextScanView, child: JsxChild) -> Seq<IncidentView>
    decreases child, 0nat,
{
    match child {
        JsxChild::Element(el) => jsx_element_hits(c, *el),
        JsxChild::Fragment(v) => children_hits(c, v@),
        JsxChild::Container(k) => container_hits(c, k),
        JsxChild::Other => Seq::empty(),
    }
}

pub open spec fn jsx_element_hits(c: TextScanView, el: JsxElement) -> Seq<IncidentView>
    decreases el, 0nat,
{
    attributes_hits(c, el.attributes@) + children_hits(c, el.children@)
}

fn walk_statements(scan: &TextScan, v: &Vec<Statement>, out: &mut Vec<Incident>)
    ensures
        incident_views(final(out)@) == incident_views(old(out)@) + statements_hits(scan@, v@),
    decreases v, 0nat,
{
    let ghost before = incident_views(out@);
    let mut i: usize = 0;
    assert(before + statements_hits(scan@, v@.take(0)) =~= before);
    while i < v.len()
        invariant
            i <= v@.len(),
            incident_views(out@) == before + statements_hits(scan@, v@.take(i as int)),
        decreases v@.len() - i,
    {
        assert(decreases_to!(v@ => v@[i as int]));
        assert(v@.take(i + 1).drop_last() =~= v@.take(i as int));
        walk_statement(scan, &v[i], out);
        assert(incident_views(out@) =~= before + statements_hits(scan@, v@.take(i + 1)));
        i = i + 1;
    }
    assert(v@.take(v@.len() as int) =~= v@);
}

fn walk_declarators(scan: &TextScan, v: &Vec<VariableDeclarator>, out: &mut Vec<Incident>)
    ensures
        incident_views(final(out)@) == incident_views(old(out)@) + declarators_hits(scan@, v@),
    decreases v, 0nat,
{
    let ghost before = incident_views(out@);
    let mut i: usize = 0;
    assert(before + declarators_hits(scan@, v@.take(0)) =~= before);
    while i < v.len()
        invariant
            i <= v@.len(),
            incident_views(out@) == before + declarators_hits(scan@, v@.take(i as int)),
        decreases v@.len() - i,
    {
        assert(decreases_to!(v@ => v@[i as int]));
        assert(v@.take(i + 1).drop_last() =~= v@.take(i as int));
        walk_declarator(scan, &v[i], out);
        assert(incident_views(out@) =~= before + declarators_hits(scan@, v@.take(i + 1)));
        i = i + 1;
    }
    assert(v@.take(v@.len() as int) =~= v@);
}

fn walk_declarator(scan: &TextScan, d: &VariableDeclarator, out: &mut Vec<Incident>)
    ensures
        incident_views(final(out)@) == incident_views(old(out)@) + declarator_hits(scan@, *d),
    decreases d, 0nat,
{
    let ghost before = incident_views(out@);
    assert(before + Seq::<IncidentView>::empty() =~= before);
    if let Some(e) = &d.init {
        walk_expression(scan, e, out);
    }
}

fn walk_declaration(scan: &TextScan, d: &Declaration, out: &mut Vec<Incident>)
    ensures
        incident_views(final(out)@) == incident_views(old(out)@) + declaration_hits(scan@, *d),
    decreases d, 0nat,
{
    let ghost before = incident_views(out@);
    assert(before + Seq::<IncidentView>::empty() =~= before);
    match d {
        Declaration::Function(f) => {
            if let Some(body) = &f.body {
                walk_statements(scan, body, out);
            }
        },
        Declaration::Variable(v) => walk_declarators(scan, v, out),
        _ => {},
    }
}

fn walk_statement(scan: &TextScan, s: &Statement, out: &mut Vec<Incident>)
    ensures
        incident_views(final(out)@) == incident_views(old(out)@) + statement_hits(scan@, *s),
    decreases s, 0nat,
{
    let ghost before = incident_views(out@);
    assert(before + Seq::<IncidentView>::empty() =~= before);
    match s {
        Statement::ExportDefaultFunction(f) => {
            if let Some(body) = &f.body {
                walk_statements(scan, body, out);
            }
        },
        Statement::ExportNamed(x) => {
            if let Some(d) = &x.declaration {
                walk_declaration(scan, d, out);
            }
        },
        Statement::Declaration(d) => walk_declaration(scan, d, out),
        Statement::Return(Some(e)) => walk_expression(scan, e, out),
        Statement::Expression(e) => walk_expression(scan, e, out),
        Statement::Block(v) => walk_statements(scan, v, out),
        _ => {},
    }
}

fn walk_arguments(scan: &TextScan, v: &Vec<Argument>, out: &mut Vec<Incident>)
    ensures
        incident_views(final(out)@) == incident_views(old(out)@) + arguments_hits(scan@, v@),
    decreases v, 0nat,
{
    let ghost before = incident_views(out@);
    let mut i: usize = 0;
    assert(before + arguments_hits(scan@, v@.take(0)) =~= before);
    while i < v.len()
        invariant
            i <= v@.len(),
            incident_views(out@) == before + arguments_hits(scan@, v@.take(i as int)),
        decreases v@.len() - i,
    {
        assert(decreases_to!(v@ => v@[i as int]));
        assert(v@.take(i + 1).drop_last() =~= v@.take(i as int));
        walk_argument(scan, &v[i], out);
        assert(incident_views(out@) =~= before + arguments_hits(scan@, v@.take(i + 1)));
        i = i + 1;
    }
    assert(v@.take(v@.len() as int) =~= v@);
}

fn walk_argument(scan: &TextScan, a: &Argument, out: &mut Vec<Incident>)
    ensures
        incident_views(final(out)@) == incident_views(old(out)@) + argument_hits(scan@, *a),
    decreases a, 0nat,
{
    let ghost before = incident_views(out@);
    assert(before + Seq::<IncidentView>::empty() =~= before);
    if !a.spread {
        walk_expression(scan, &a.expression, out);
    }
}

fn walk_elements(scan: &TextScan, v: &Vec<Option<Expression>>, out: &mut Vec<Incident>)
    ensures
        incident_views(final(out)@) == incident_views(old(out)@) + elements_hits(scan@, v@),
    decreases v, 0nat,
{
    let ghost before = incident_views(out@);
    let mut i: usize = 0;
    assert(before + elements_hits(scan@, v@.take(0)) =~= before);
    while i < v.len()
        invariant
            i <= v@.len(),
            incident_views(out@) == before + elements_hits(scan@, v@.take(i as int)),
        decreases v@.len() - i,
    {
        assert(decreases_to!(v@ => v@[i as int]));
        assert(v@.take(i + 1).drop_last() =~= v@.take(i as int));
        walk_array_element(scan, &v[i], out);
        assert(incident_views(out@) =~= before + elements_hits(scan@, v@.take(i + 1)));
        i = i + 1;
    }
    assert(v@.take(v@.len() as int) =~= v@);
}

fn walk_array_element(scan: &TextScan, e: &Option<Expression>, out: &mut Vec<Incident>)
    ensures
        incident_views(final(out)@) == incident_views(old(out)@) + array_element_hits(scan@, *e),
    decreases e, 0nat,
{
    let ghost before = incident_views(out@);
    assert(before + Seq::<IncidentView>::empty() =~= before);
    if let Some(x) = e {
        walk_expression(scan, x, out);
    }
}

fn walk_members(scan: &TextScan, v: &Vec<ObjectMember>, out: &mut Vec<Incident>)
    ensures
        incident_views(final(out)@) == incident_views(old(out)@) + members_hits(scan@, v@),
    decreases v, 0nat,
{
    let ghost before = incident_views(out@);
    let mut i: usize = 0;
    assert(before + members_hits(scan@, v@.take(0)) =~= before);
    while i < v.len()
        invariant
            i <= v@.len(),
            incident_views(out@) == before + members_hits(scan@, v@.take(i as int)),
        decreases v@.len() - i,
    {
        assert(decreases_to!(v@ => v@[i as int]));
        assert(v@.take(i + 1).drop_last() =~= v@.take(i as int));
        walk_member(scan, &v[i], out);
        assert(incident_views(out@) =~= before + members_hits(scan@, v@.take(i + 1)));
        i = i + 1;
    }
    assert(v@.take(v@.len() as int) =~= v@);
}

fn walk_member(scan: &TextScan, m: &ObjectMember, out: &mut Vec<Incident>)
    ensures
        incident_views(final(out)@) == incident_views(old(out)@) + member_hits(scan@, *m),
    decreases m, 0nat,
{
    let ghost before = incident_views(out@);
    assert(before + Seq::<IncidentView>::empty() =~= before);
    if let ObjectMember::Property(p) = m {
        if let PropertyKey::Str(s) = &p.key {
            scan.check(p.key_span, "matchingText", s.as_str(), out);
        }
        walk_expression(scan, &p.value, out);
    }
    assert(incident_views(out@) =~= before + member_hits(scan@, *m));
}

fn walk_expression(scan: &TextScan, e: &Expression, out: &mut Vec<Incident>)
    ensures
        incident_views(final(out)@) == incident_views(old(out)@) + expression_hits(scan@, *e),
    decreases e, 0nat,
{
    let ghost before = incident_views(out@);
    assert(before + Seq::<IncidentView>::empty() =~= before);
    match &e.kind {
        ExpressionKind::StringLiteral(s) => scan.check(e.span, "matchingText", s.as_str(), out),
        ExpressionKind::TemplateLiteral(v) => scan.check_template(v, out),
        ExpressionKind::JsxElement(el) => walk_jsx_element(scan, el, out),
        ExpressionKind::JsxFragment(v) => walk_children(scan, v, out),
        ExpressionKind::Call(x) => walk_arguments(scan, &x.arguments, out),
        ExpressionKind::Parenthesized(x) => walk_expression(scan, x, out),
        ExpressionKind::Arrow(f) => {
            if let Some(body) = &f.body {
                walk_statements(scan, body, out);
            }
        },
        ExpressionKind::Conditional(x) => {
            walk_expression(scan, &x.consequent, out);
            walk_expression(scan, &x.alternate, out);
            assert(incident_views(out@) =~= before + expression_hits(scan@, *e));
        },
        ExpressionKind::Logical(x) => {
            walk_expression(scan, &x.left, out);
            walk_expression(scan, &x.right, out);
            assert(incident_views(out@) =~= before + expression_hits(scan@, *e));
        },
        ExpressionKind::Object(v) => walk_members(scan, v, out),
        ExpressionKind::Array(v) => walk_elements(scan, v, out),
        ExpressionKind::TsAs(x) => walk_expression(scan, x, out),
        ExpressionKind::TsSatisfies(x) => walk_expression(scan, x, out),
        ExpressionKind::TsNonNull(x) => walk_expression(scan, x, out),
        ExpressionKind::TsTypeAssertion(x) => walk_expression(scan, x, out),
        _ => {},
    }
}

fn walk_container(scan: &TextScan, k: &JsxContainer, out: &mut Vec<Incident>)
    ensures
        incident_views(final(out)@) == incident_views(old(out)@) + container_hits(scan@, *k),
    decreases k, 0nat,
{
    let ghost before = incident_views(out@);
    assert(before + Seq::<IncidentView>::empty() =~= before);
    if let Some(e) = &k.expression {
        walk_expression(scan, e, out);
    }
}

fn walk_attributes(scan: &TextScan, v: &Vec<JsxAttributeItem>, out: &mut Vec<Incident>)
    ensures
        incident_views(final(out)@) == incident_views(old(out)@) + attributes_hits(scan@, v@),
    decreases v, 0nat,
{
    let ghost before = incident_views(out@);
    let mut i: usize = 0;
    assert(before + attributes_hits(scan@, v@.take(0)) =~= before);
    while i < v.len()
        invariant
            i <= v@.len(),
            incident_views(out@) == before + attributes_hits(scan@, v@.take(i as int)),
        decreases v@.len() - i,
    {
        assert(decreases_to!(v@ => v@[i as int]));
        assert(v@.take(i + 1).drop_last() =~= v@.take(i as int));
        walk_attribute(scan, &v[i], out);
        assert(incident_views(out@) =~= before + attributes_hits(scan@, v@.take(i + 1)));
        i = i + 1;
    }
    assert(v@.take(v@.len() as int) =~= v@);
}

fn walk_attribute(scan: &TextScan, a: &JsxAttributeItem, out: &mut Vec<Incident>)
    ensures
        incident_views(final(out)@) == incident_views(old(out)@) + attribute_hits(scan@, *a),
    decreases a, 0nat,
{
    let ghost before = incident_views(out@);
    assert(before + Seq::<IncidentView>::empty() =~= before);
    if let JsxAttributeItem::Attribute(x) = a {
        match &x.value {
            Some(JsxAttributeValue::Str(span, s)) => scan.check(
                *span,
                "matchingText",
                s.as_str(),
                out,
            ),
            Some(JsxAttributeValue::Container(k)) => walk_container(scan, k, out),
            _ => {},
        }
    }
}

fn walk_children(scan: &TextScan, v: &Vec<JsxChild>, out: &mut Vec<Incident>)
    ensures
        incident_views(final(out)@) == incident_views(old(out)@) + children_hits(scan@, v@),
    decreases v, 0nat,
{
    let ghost before = incident_views(out@);
    let mut i: usize = 0;
    assert(before + children_hits(scan@, v@.take(0)) =~= before);
    while i < v.len()
        invariant
            i <= v@.len(),
            incident_views(out@) == before + children_hits(scan@, v@.take(i as int)),
        decreases v@.len() - i,
    {
        assert(decreases_to!(v@ => v@[i as int]));
        assert(v@.take(i + 1).drop_last() =~= v@.take(i as int));
        walk_child(scan, &v[i], out);
        assert(incident_views(out@) =~= before + children_hits(scan@, v@.take(i + 1)));
        i = i + 1;
    }
    assert(v@.take(v@.len() as int) =~= v@);
}

fn walk_child(scan: &TextScan, child: &JsxChild, out: &mut Vec<Incident>)
    ensures
        incident_views(final(out)@) == incident_views(old(out)@) + child_hits(scan@, *child),
    decreases child, 0nat,
{
    let ghost before = incident_views(out@);
    assert(before + Seq::<IncidentView>::empty() =~= before);
    match child {
        JsxChild::Element(el) => walk_jsx_element(scan, el, out),
        JsxChild::Fragment(v) => walk_children(scan, v, out),
        JsxChild::Container(k) => walk_container(scan, k, out),
        JsxChild::Other => {},
    }
}

fn walk_jsx_element(scan: &TextScan, el: &JsxElement, out: &mut Vec<Incident>)
    ensures
        incident_views(final(out)@) == incident_views(old(out)@) + jsx_element_hits(scan@, *el),
    decreases el, 0nat,
{
    let ghost before = incident_views(out@);
    assert(before + Seq::<IncidentView>::empty() =~= before);
    walk_attributes(scan, &el.attributes, out);
    walk_children(scan, &el.children, out);
    assert(incident_views(out@) =~= before + jsx_element_hits(scan@, *el));
}

/// Scans a statement for CSS variable references.
pub fn scan_css_var_usage(
    stmt: &Statement,
    source: &str,
    pattern: &regex::Regex,
    file_uri: &str,
) -> (r: Vec<Incident>)
    ensures
        incident_views(r@) == statement_hits((TextScan { source, pattern, file_uri })@, *stmt),
{
    let scan = TextScan { source, pattern, file_uri };
    let mut incidents: Vec<Incident> = Vec::new();
    walk_statement(&scan, stmt, &mut incidents);
    assert(incident_views(incidents@) =~= statement_hits(scan@, *stmt));
    incidents
}

// ── Laws of the scan ────────────────────────────────────────────────────

/// Every incident lies in the scanned file and shows a text that matches the pattern.
pub proof fn css_variables_match(c: TextScanView, s: Statement)
    ensures
        c.all_match(statement_hits(c, s), "matchingText"@),
{
    statement_match(c, s);
}

proof fn statements_match(c: TextScanView, v: Seq<Statement>)
    ensures
        c.all_match(statements_hits(c, v), "matchingText"@),
    decreases v, 0nat,
{
    if v.len() > 0 {
        statements_match(c, v.drop_last());
        statement_match(c, v.last());
        c.lemma_match_add(
            statements_hits(c, v.drop_last()),
            statement_hits(c, v.last()),
            "matchingText"@,
        );
    }
}

proof fn declarators_match(c: TextScanView, v: Seq<VariableDeclarator>)
    ensures
        c.all_match(declarators_hits(c, v), "matchingText"@),
    decreases v, 0nat,
{
    if v.len() > 0 {
        declarators_match(c, v.drop_last());
        declarator_match(c, v.last());
        c.lemma_match_add(
            declarators_hits(c, v.drop_last()),
            declarator_hits(c, v.last()),
            "matchingText"@,
        );
    }
}

proof fn declarator_match(c: TextScanView, d: VariableDeclarator)
    ensures
        c.all_match(declarator_hits(c, d), "matchingText"@),
    decreases d, 0nat,
{
    if let Some(e) = d.init {
        expression_match(c, e);
    }
}

proof fn declaration_match(c: TextScanView, d: Declaration)
    ensures
        c.all_match(declaration_hits(c, d), "matchingText"@),
    decreases d, 0nat,
{
    match d {
        Declaration::Function(f) => {
            if let Some(body) = f.body {
                statements_match(c, body@);
            }
        },
        Declaration::Variable(v) => {
            declarators_match(c, v@);
        },
        _ => {},
    }
}

proof fn statement_match(c: TextScanView, s: Statement)
    ensures
        c.all_match(statement_hits(c, s), "matchingText"@),
    decreases s, 0nat,
{
    match s {
        Statement::ExportDefaultFunction(f) => {
            if let Some(body) = f.body {
                statements_match(c, body@);
            }
        },
        Statement::ExportNamed(x) => {
            if let Some(d) = x.declaration {
                declaration_match(c, d);
            }
        },
        Statement::Declaration(d) => {
            declaration_match(c, d);
        },
        Statement::Return(Some(e)) => {
            expression_match(c, e);
        },
        Statement::Expression(e) => {
            expression_match(c, e);
        },
        Statement::Block(v) => {
            statements_match(c, v@);
        },
        _ => {},
    }
}

proof fn arguments_match(c: TextScanView, v: Seq<Argument>)
    ensures
        c.all_match(arguments_hits(c, v), "matchingText"@),
    decreases v, 0nat,
{
    if v.len() > 0 {
        arguments_match(c, v.drop_last());
        argument_match(c, v.last());
        c.lemma_match_add(
            arguments_hits(c, v.drop_last()),
            argument_hits(c, v.last()),
            "matchingText"@,
        );
    }
}

proof fn argument_match(c: TextScanView, a: Argument)
    ensures
        c.all_match(argument_hits(c, a), "matchingText"@),
    decreases a, 0nat,
{
    if !a.spread {
        expression_match(c, a.expression);
    }
}

proof fn elements_match(c: TextScanView, v: Seq<Option<Expression>>)
    ensures
        c.all_match(elements_hits(c, v), "matchingText"@),
    decreases v, 0nat,
{
    if v.len() > 0 {
        elements_match(c, v.drop_last());
        array_element_match(c, v.last());
        c.lemma_match_add(
            elements_hits(c, v.drop_last()),
            array_element_hits(c, v.last()),
            "matchingText"@,
        );
    }
}

proof fn array_element_match(c: TextScanView, e: Option<Expression>)
    ensures
        c.all_match(array_element_hits(c, e), "matchingText"@),
    decreases e, 0nat,
{
    if let Some(x) = e {
        expression_match(c, x);
    }
}

proof fn members_match(c: TextScanView, v: Seq<ObjectMember>)
    ensures
        c.all_match(members_hits(c, v), "matchingText"@),
    decreases v, 0nat,
{
    if v.len() > 0 {
        members_match(c, v.drop_last());
        member_match(c, v.last());
        c.lemma_match_add(
            members_hits(c, v.drop_last()),
            member_hits(c, v.last()),
            "matchingText"@,
        );
    }
}

proof fn member_match(c: TextScanView, m: ObjectMember)
    ensures
        c.all_match(member_hits(c, m), "matchingText"@),
    decreases m, 0nat,
{
    if let ObjectMember::Property(p) = m {
        expression_match(c, p.value);
        let key = match p.key {
            PropertyKey::Str(s) => c.hit(p.key_span, "matchingText"@, s@),
            _ => Seq::empty(),
        };
        c.lemma_match_add(key, expression_hits(c, p.value), "matchingText"@);
    }
}

proof fn container_match(c: TextScanView, k: JsxContainer)
    ensures
        c.all_match(container_hits(c, k), "matchingText"@),
    decreases k, 0nat,
{
    if let Some(e) = k.expression {
        expression_match(c, e);
    }
}

proof fn expression_match(c: TextScanView, e: Expression)
    ensures
        c.all_match(expression_hits(c, e), "matchingText"@),
    decreases e, 0nat,
{
    match e.kind {
        ExpressionKind::TemplateLiteral(v) => {
            c.lemma_template_match(v@);
        },
        ExpressionKind::JsxElement(el) => {
            jsx_element_match(c, *el);
        },
        ExpressionKind::JsxFragment(v) => {
            children_match(c, v@);
        },
        ExpressionKind::Parenthesized(x) => {
            expression_match(c, *x);
        },
        ExpressionKind::Conditional(x) => {
            expression_match(c, x.consequent);
            expression_match(c, x.alternate);
            c.lemma_match_add(expression_hits(c, x.consequent), expression_hits(c, x.alternate), "matchingText"@);
        },
        ExpressionKind::Arrow(f) => {
            if let Some(body) = f.body {
                statements_match(c, body@);
            }
        },
        ExpressionKind::Call(x) => {
            arguments_match(c, x.arguments@);
        },
        ExpressionKind::Logical(x) => {
            expression_match(c, x.left);
            expression_match(c, x.right);
            c.lemma_match_add(expression_hits(c, x.left), expression_hits(c, x.right), "matchingText"@);
        },
        ExpressionKind::Object(v) => {
            members_match(c, v@);
        },
        ExpressionKind::Array(v) => {
            elements_match(c, v@);
        },
        ExpressionKind::TsAs(x) => {
            expression_match(c, *x);
        },
        ExpressionKind::TsSatisfies(x) => {
            expression_match(c, *x);
        },
        ExpressionKind::TsNonNull(x) => {
            expression_match(c, *x);
        },
        ExpressionKind::TsTypeAssertion(x) => {
            expression_match(c, *x);
        },
        _ => {},
    }
}

proof fn attributes_match(c: TextScanView, v: Seq<JsxAttributeItem>)
    ensures
        c.all_match(attributes_hits(c, v), "matchingText"@),
    decreases v, 0nat,
{
    if v.len() > 0 {
        attributes_match(c, v.drop_last());
        attribute_match(c, v.last());
        c.lemma_match_add(
            attributes_hits(c, v.drop_last()),
            attribute_hits(c, v.last()),
            "matchingText"@,
        );
    }
}

proof fn attribute_match(c: TextScanView, a: JsxAttributeItem)
    ensures
        c.all_match(attribute_hits(c, a), "matchingText"@),
    decreases a, 0nat,
{
    if let JsxAttributeItem::Attribute(x) = a {
        if let Some(JsxAttributeValue::Container(k)) = x.value {
            container_match(c, k);
        }
    }
}

proof fn children_match(c: TextScanView, v: Seq<JsxChild>)
    ensures
        c.all_match(children_hits(c, v), "matchingText"@),
    decreases v, 0nat,
{
    if v.len() > 0 {
        children_match(c, v.drop_last());
        child_match(c, v.last());
        c.lemma_match_add(
            children_hits(c, v.drop_last()),
            child_hits(c, v.last()),
            "matchingText"@,
        );
    }
}

proof fn child_match(c: TextScanView, child: JsxChild)
    ensures
        c.all_match(child_hits(c, child), "matchingText"@),
    decreases child, 0nat,
{
    match child {
        JsxChild::Element(el) => {
            jsx_element_match(c, *el);
        },
        JsxChild::Fragment(v) => {
            children_match(c, v@);
        },
        JsxChild::Container(k) => {
            container_match(c, k);
        },
        JsxChild::Other => {},
    }
}

proof fn jsx_element_match(c: TextScanView, el: JsxElement)
    ensures
        c.all_match(jsx_element_hits(c, el), "matchingText"@),
    decreases el, 0nat,
{
    attributes_match(c, el.attributes@);
    children_match(c, el.children@);
    c.lemma_match_add(attributes_hits(c, el.attributes@), children_hits(c, el.children@), "matchingText"@);
}

// ── Every text is found ─────────────────────────────────────────────────

/// Whether an incident shows a text that stands at a place of the scanned source.
pub open spec fn shows_text(c: TextScanView, i: IncidentView, span: Span, text: Seq<char>) -> bool {
    &&& lies_at(i, c.source, c.file_uri, span.start, span.end)
    &&& i.variables.dom().contains("matchingText"@)
    &&& as_text(i.variables["matchingText"@]) == Some(text)
}

/// Whether a node directly holds a text or another node that is looked at: strings, the
/// pieces of templates, keys that are strings, and whatever can hold them.
pub open spec fn holds(a: Node, b: Node) -> bool {
    match a {
        Node::Statement(s) => in_statement(s, b, false),
        Node::Declaration(d) => in_declaration(d, b),
        Node::Expression(e) => in_expression(e, b),
        Node::Braced(e) => b == Node::Expression(e),
        Node::Element(el) => in_element(el, b),
        Node::Attribute(a) => in_attribute(a, b) || is_value(a, b),
        Node::Child(child) => in_child(child, b, true),
        Node::Member(m) => m matches ObjectMember::Property(p) && (b == Node::Expression(p.value)
            || (p.key matches PropertyKey::Str(k) && b == Node::Text(p.key_span, k@))),
        Node::Text(_, _) => false,
    }
}

/// The text that an attribute is set to.
pub open spec fn is_value(a: JsxAttributeItem, b: Node) -> bool {
    a matches JsxAttributeItem::Attribute(x) && x.value matches Some(
        JsxAttributeValue::Str(span, t),
    ) && b == Node::Text(span, t@)
}

/// What stands directly in an expression: either branch of a condition, both sides of a
/// logical operator, arguments, members, elements, and what is in parentheses or cast.
pub open spec fn in_expression(e: Expression, b: Node) -> bool {
    match e.kind {
        ExpressionKind::StringLiteral(t) => b == Node::Text(e.span, t@),
        ExpressionKind::TemplateLiteral(v) => exists|i: int|
            0 <= i < v@.len() && b == Node::Text((#[trigger] v@[i]).span, v@[i].raw@),
        ExpressionKind::JsxElement(el) => b == Node::Element(*el),
        ExpressionKind::JsxFragment(v) => b matches Node::Child(x) && v@.contains(x),
        ExpressionKind::Call(x) => in_arguments(x.arguments@, b, false),
        ExpressionKind::Arrow(f) => in_body(*f, b),
        ExpressionKind::Conditional(x) => b == Node::Expression(x.consequent) || b
            == Node::Expression(x.alternate),
        ExpressionKind::Logical(x) => b == Node::Expression(x.left) || b == Node::Expression(
            x.right,
        ),
        ExpressionKind::Object(v) => b matches Node::Member(m) && v@.contains(m),
        ExpressionKind::Array(v) => b matches Node::Expression(x) && v@.contains(Some(x)),
        ExpressionKind::Parenthesized(x) => b == Node::Expression(*x),
        ExpressionKind::TsAs(x) => b == Node::Expression(*x),
        ExpressionKind::TsSatisfies(x) => b == Node::Expression(*x),
        ExpressionKind::TsNonNull(x) => b == Node::Expression(*x),
        ExpressionKind::TsTypeAssertion(x) => b == Node::Expression(*x),
        _ => false,
    }
}

spec fn node_hits(c: TextScanView, n: Node) -> Seq<IncidentView> {
    match n {
        Node::Statement(s) => statement_hits(c, s),
        Node::Declaration(d) => declaration_hits(c, d),
        Node::Expression(e) => expression_hits(c, e),
        Node::Braced(e) => expression_hits(c, e),
        Node::Element(el) => jsx_element_hits(c, el),
        Node::Attribute(a) => attribute_hits(c, a),
        Node::Child(child) => child_hits(c, child),
        Node::Member(m) => member_hits(c, m),
        Node::Text(span, t) => c.hit(span, "matchingText"@, t),
    }
}

/// Whether each node of a sequence leads to the next one.
pub open spec fn is_chain(path: Seq<Node>) -> bool {
    path.len() > 0 && forall|i: int| 0 <= i < path.len() - 1 ==> #[trigger] steps(path, i)
}

pub open spec fn steps(path: Seq<Node>, i: int) -> bool {
    holds(path[i], path[i + 1])
}

proof fn lemma_chain(c: TextScanView, path: Seq<Node>)
    requires
        is_chain(path),
    ensures
        all_among(node_hits(c, path.last()), node_hits(c, path[0])),
    decreases path.len(),
{
    if path.len() > 1 {
        let rest = path.skip(1);
        assert forall|i: int| 0 <= i < rest.len() - 1 implies #[trigger] steps(rest, i) by {
            assert(steps(path, i + 1));
            assert(rest[i] == path[i + 1] && rest[i + 1] == path[i + 2]);
        }
        lemma_chain(c, rest);
        assert(steps(path, 0));
        assert(rest.last() == path.last() && rest[0] == path[1]);
        lemma_step(c, path[0], path[1]);
        lemma_among_more(
            node_hits(c, path.last()),
            node_hits(c, path[1]),
            node_hits(c, path[0]),
        );
    } else {
        lemma_among_itself(node_hits(c, path[0]));
    }
}

proof fn lemma_statement_among(c: TextScanView, v: Seq<Statement>, i: int)
    requires
        0 <= i < v.len(),
    ensures
        all_among(statement_hits(c, v[i]), statements_hits(c, v)),
    decreases v.len(),
{
    let before = statements_hits(c, v.drop_last());
    let last = statement_hits(c, v.last());
    lemma_among_joined(before, last);
    if i < v.len() - 1 {
        lemma_statement_among(c, v.drop_last(), i);
        assert(v.drop_last()[i] == v[i]);
        lemma_among_more(statement_hits(c, v[i]), before, before + last);
    }
}

proof fn lemma_declarator_among(c: TextScanView, v: Seq<VariableDeclarator>, i: int)
    requires
        0 <= i < v.len(),
    ensures
        all_among(declarator_hits(c, v[i]), declarators_hits(c, v)),
    decreases v.len(),
{
    let before = declarators_hits(c, v.drop_last());
    let last = declarator_hits(c, v.last());
    lemma_among_joined(before, last);
    if i < v.len() - 1 {
        lemma_declarator_among(c, v.drop_last(), i);
        assert(v.drop_last()[i] == v[i]);
        lemma_among_more(declarator_hits(c, v[i]), before, before + last);
    }
}

proof fn lemma_argument_among(c: TextScanView, v: Seq<Argument>, i: int)
    requires
        0 <= i < v.len(),
    ensures
        all_among(argument_hits(c, v[i]), arguments_hits(c, v)),
    decreases v.len(),
{
    let before = arguments_hits(c, v.drop_last());
    let last = argument_hits(c, v.last());
    lemma_among_joined(before, last);
    if i < v.len() - 1 {
        lemma_argument_among(c, v.drop_last(), i);
        assert(v.drop_last()[i] == v[i]);
        lemma_among_more(argument_hits(c, v[i]), before, before + last);
    }
}

proof fn lemma_array_element_among(c: TextScanView, v: Seq<Option<Expression>>, i: int)
    requires
        0 <= i < v.len(),
    ensures
        all_among(array_element_hits(c, v[i]), elements_hits(c, v)),
    decreases v.len(),
{
    let before = elements_hits(c, v.drop_last());
    let last = array_element_hits(c, v.last());
    lemma_among_joined(before, last);
    if i < v.len() - 1 {
        lemma_array_element_among(c, v.drop_last(), i);
        assert(v.drop_last()[i] == v[i]);
        lemma_among_more(array_element_hits(c, v[i]), before, before + last);
    }
}

proof fn lemma_member_among(c: TextScanView, v: Seq<ObjectMember>, i: int)
    requires
        0 <= i < v.len(),
    ensures
        all_among(member_hits(c, v[i]), members_hits(c, v)),
    decreases v.len(),
{
    let before = members_hits(c, v.drop_last());
    let last = member_hits(c, v.last());
    lemma_among_joined(before, last);
    if i < v.len() - 1 {
        lemma_member_among(c, v.drop_last(), i);
        assert(v.drop_last()[i] == v[i]);
        lemma_among_more(member_hits(c, v[i]), before, before + last);
    }
}

proof fn lemma_attribute_among(c: TextScanView, v: Seq<JsxAttributeItem>, i: int)
    requires
        0 <= i < v.len(),
    ensures
        all_among(attribute_hits(c, v[i]), attributes_hits(c, v)),
    decreases v.len(),
{
    let before = attributes_hits(c, v.drop_last());
    let last = attribute_hits(c, v.last());
    lemma_among_joined(before, last);
    if i < v.len() - 1 {
        lemma_attribute_among(c, v.drop_last(), i);
        assert(v.drop_last()[i] == v[i]);
        lemma_among_more(attribute_hits(c, v[i]), before, before + last);
    }
}

proof fn lemma_child_among(c: TextScanView, v: Seq<JsxChild>, i: int)
    requires
        0 <= i < v.len(),
    ensures
        all_among(child_hits(c, v[i]), children_hits(c, v)),
    decreases v.len(),
{
    let before = children_hits(c, v.drop_last());
    let last = child_hits(c, v.last());
    lemma_among_joined(before, last);
    if i < v.len() - 1 {
        lemma_child_among(c, v.drop_last(), i);
        assert(v.drop_last()[i] == v[i]);
        lemma_among_more(child_hits(c, v[i]), before, before + last);
    }
}

proof fn lemma_body_among(c: TextScanView, f: Function, b: Node)
    requires
        in_body(f, b),
    ensures
        f.body matches Some(body) && all_among(node_hits(c, b), statements_hits(c, body@)),
{
    let body = f.body->0;
    let s = b->Statement_0;
    let i = choose|i: int| 0 <= i < body@.len() && body@[i] == s;
    lemma_statement_among(c, body@, i);
}

proof fn lemma_step_statement(c: TextScanView, s: Statement, b: Node)
    requires
        in_statement(s, b, false),
    ensures
        all_among(node_hits(c, b), statement_hits(c, s)),
{
    match s {
        Statement::ExportDefaultFunction(f) => {
            lemma_body_among(c, f, b);
        },
        Statement::Block(v) => {
            let i = choose|i: int| 0 <= i < v@.len() && v@[i] == b->Statement_0;
            lemma_statement_among(c, v@, i);
        },
        _ => {
            lemma_among_itself(node_hits(c, b));
        },
    }
}

proof fn lemma_step_declaration(c: TextScanView, d: Declaration, b: Node)
    requires
        in_declaration(d, b),
    ensures
        all_among(node_hits(c, b), declaration_hits(c, d)),
{
    match d {
        Declaration::Function(f) => {
            lemma_body_among(c, f, b);
        },
        Declaration::Variable(v) => {
            let i = choose|i: int|
                0 <= i < v@.len() && (#[trigger] v@[i]).init == Some(b->Expression_0);
            lemma_declarator_among(c, v@, i);
        },
        _ => {},
    }
}

proof fn lemma_step_expression(c: TextScanView, e: Expression, b: Node)
    requires
        in_expression(e, b),
    ensures
        all_among(node_hits(c, b), expression_hits(c, e)),
{
    lemma_among_itself(node_hits(c, b));
    match e.kind {
        ExpressionKind::TemplateLiteral(v) => {
            let i = choose|i: int|
                0 <= i < v@.len() && b == Node::Text((#[trigger] v@[i]).span, v@[i].raw@);
            c.lemma_piece_among(v@, i);
        },
        ExpressionKind::JsxFragment(v) => {
            let i = choose|i: int| 0 <= i < v@.len() && v@[i] == b->Child_0;
            lemma_child_among(c, v@, i);
        },
        ExpressionKind::Call(x) => {
            let v = x.arguments@;
            let i = choose|i: int|
                0 <= i < v.len() && (false || !(#[trigger] v[i]).spread) && b == Node::Expression(
                    v[i].expression,
                );
            lemma_argument_among(c, v, i);
        },
        ExpressionKind::Arrow(f) => {
            lemma_body_among(c, *f, b);
        },
        ExpressionKind::Conditional(x) => {
            lemma_among_joined(expression_hits(c, x.consequent), expression_hits(c, x.alternate));
        },
        ExpressionKind::Logical(x) => {
            lemma_among_joined(expression_hits(c, x.left), expression_hits(c, x.right));
        },
        ExpressionKind::Object(v) => {
            let i = choose|i: int| 0 <= i < v@.len() && v@[i] == b->Member_0;
            lemma_member_among(c, v@, i);
        },
        ExpressionKind::Array(v) => {
            let i = choose|i: int| 0 <= i < v@.len() && v@[i] == Some(b->Expression_0);
            lemma_array_element_among(c, v@, i);
        },
        _ => {},
    }
}

proof fn lemma_step(c: TextScanView, a: Node, b: Node)
    requires
        holds(a, b),
    ensures
        all_among(node_hits(c, b), node_hits(c, a)),
{
    lemma_among_itself(node_hits(c, b));
    match a {
        Node::Statement(s) => {
            lemma_step_statement(c, s, b);
        },
        Node::Declaration(d) => {
            lemma_step_declaration(c, d, b);
        },
        Node::Expression(e) => {
            lemma_step_expression(c, e, b);
        },
        Node::Element(el) => {
            lemma_among_joined(
                attributes_hits(c, el.attributes@),
                children_hits(c, el.children@),
            );
            match b {
                Node::Attribute(x) => {
                    let i = choose|i: int|
                        0 <= i < el.attributes@.len() && el.attributes@[i] == x;
                    lemma_attribute_among(c, el.attributes@, i);
                    lemma_among_more(
                        node_hits(c, b),
                        attributes_hits(c, el.attributes@),
                        node_hits(c, a),
                    );
                },
                Node::Child(x) => {
                    let i = choose|i: int| 0 <= i < el.children@.len() && el.children@[i] == x;
                    lemma_child_among(c, el.children@, i);
                    lemma_among_more(
                        node_hits(c, b),
                        children_hits(c, el.children@),
                        node_hits(c, a),
                    );
                },
                _ => {},
            }
        },
        Node::Child(JsxChild::Fragment(v)) => {
            let i = choose|i: int| 0 <= i < v@.len() && v@[i] == b->Child_0;
            lemma_child_among(c, v@, i);
        },
        Node::Member(ObjectMember::Property(p)) => {
            let key = match p.key {
                PropertyKey::Str(k) => c.hit(p.key_span, "matchingText"@, k@),
                _ => Seq::empty(),
            };
            lemma_among_joined(key, expression_hits(c, p.value));
        },
        _ => {},
    }
}

/// Every text of a statement that matches is found: one that the statement leads to
/// through what it declares, returns or evaluates, through both branches of conditions
/// and both sides of logical operators, through arguments, bodies, objects, arrays,
/// attributes and children.
pub proof fn every_text_is_found(c: TextScanView, path: Seq<Node>)
    requires
        is_chain(path),
        path[0] is Statement,
        path.last() is Text,
        regex_is_match(c.pattern, path.last()->Text_1),
    ensures
        exists|k: int|
            0 <= k < statement_hits(c, path[0]->Statement_0).len() && shows_text(
                c,
                #[trigger] statement_hits(c, path[0]->Statement_0)[k],
                path.last()->Text_0,
                path.last()->Text_1,
            ),
{
    lemma_chain(c, path);
    let found = node_hits(c, path.last());
    let all = statement_hits(c, path[0]->Statement_0);
    assert(all.contains(found[0]));
    let k = choose|k: int| 0 <= k < all.len() && all[k] == found[0];
    assert(shows_text(c, all[k], path.last()->Text_0, path.last()->Text_1));
}

} // verus!
