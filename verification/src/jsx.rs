//! JSX scanning: component usage (`<Button ...>`) and prop usage
//! (`<X isActive={...}>`).
//!
//! The functions named `*_hits` say which incidents a piece of a program gives,
//! in order; the functions named `walk_*` and `check_*` collect them.

use crate::ast::{
    Argument, Declaration, Expression, ExpressionKind, Function, JsxAttribute, JsxAttributeItem,
    JsxAttributeValue, JsxChild, JsxContainer, JsxElement, JsxName, ObjectMember, ObjectProperty,
    PropertyKey, Span, Statement, TsType, VariableDeclarator,
};
use crate::capabilities::ReferenceLocation;
use crate::imports::{import_map_view, ImportMap};
use crate::incident::{
    incident_at, incident_views, lemma_incident_views_push, lies_at, make_incident, Incident,
    IncidentView,
};
use crate::js_fix::text_variable;
use crate::json::{Json, JsonView};
use crate::nodes::{
    all_among, in_arguments, in_attribute, in_body, in_child, in_declaration, in_element,
    in_statement, lemma_among_itself, lemma_among_joined, lemma_among_more, lemma_contained, Node,
};
use crate::pattern::{regex_is_match, regex_text};
use crate::text::{
    byte_len_of, byte_slice, ends_with, lemma_utf8_joined, lemma_width,
    texts_lie_between_their_bytes, opt_str, opt_text, same_text, slice_bytes, split, split_at_from,
    split_text, strip_suffix, strip_suffix_text, text_between, text_between_bytes, texts, trim,
    trimmed, utf8,
};
use vstd::prelude::*;

verus! {

/// What a scan looks for, and in what source.
pub struct JsxScan<'a> {
    pub source: &'a str,
    pub pattern: &'a regex::Regex,
    pub file_uri: &'a str,
    /// The place to search; both places where absent.
    pub location: Option<ReferenceLocation>,
    pub import_map: &'a ImportMap,
}

/// The content of a scan.
pub ghost struct JsxScanView {
    pub source: Seq<char>,
    pub pattern: Seq<char>,
    pub file_uri: Seq<char>,
    pub location: Option<ReferenceLocation>,
    pub imports: Map<Seq<char>, Seq<char>>,
}

impl<'a> JsxScan<'a> {
    pub open spec fn view(&self) -> JsxScanView {
        JsxScanView {
            source: self.source@,
            pattern: regex_text(*self.pattern),
            file_uri: self.file_uri@,
            location: self.location,
            imports: import_map_view(*self.import_map),
        }
    }
}

impl JsxScanView {
    pub open spec fn matches(self, name: Seq<char>) -> bool {
        regex_is_match(self.pattern, name)
    }

    /// Whether component names are searched.
    pub open spec fn wants_components(self) -> bool {
        self.location is None || self.location == Some(ReferenceLocation::JsxComponent)
    }

    /// Whether props are searched.
    pub open spec fn wants_props(self) -> bool {
        self.location is None || self.location == Some(ReferenceLocation::JsxProp)
    }

    pub open spec fn incident_for(self, span: Span) -> IncidentView {
        incident_at(self.source, self.file_uri, span.start, span.end)
    }

    /// `i` with the module that `name` is imported from, under `key`.
    pub open spec fn with_module(
        self,
        i: IncidentView,
        key: Seq<char>,
        name: Seq<char>,
    ) -> IncidentView {
        if self.imports.dom().contains(name) {
            i.with_text(key, self.imports[name])
        } else {
            i
        }
    }
}

// ── Local functions ─────────────────────────────────────────────────────

/// A function bound to a local name, such as `const renderItems = () => ...` or
/// `function renderItems() { ... }`.
pub struct LocalFn<'a> {
    pub name: String,
    pub function: &'a Function,
}

/// Local functions by name.
pub type LocalFns = Seq<(Seq<char>, Function)>;

pub open spec fn local_fns_view(v: Seq<LocalFn>) -> LocalFns {
    Seq::new(v.len(), |i: int| (v[i].name@, *v[i].function))
}

/// The position of a name, from `i` on.
pub open spec fn local_fn_from(fns: LocalFns, name: Seq<char>, i: int) -> Option<int>
    decreases fns.len() - i,
{
    if i < 0 || i >= fns.len() {
        None
    } else if fns[i].0 == name {
        Some(i)
    } else {
        local_fn_from(fns, name, i + 1)
    }
}

/// The position of the local function with the given name.
pub open spec fn local_fn(fns: LocalFns, name: Seq<char>) -> Option<int> {
    local_fn_from(fns, name, 0)
}

/// The functions with one more, which replaces one of the same name.
pub open spec fn with_local_fn(fns: LocalFns, name: Seq<char>, f: Function) -> LocalFns {
    match local_fn(fns, name) {
        Some(k) => fns.update(k, (name, f)),
        None => fns.push((name, f)),
    }
}

/// The name that a declarator binds, as written: what stands before a colon.
pub open spec fn declared_name(source: Seq<char>, id: Span) -> Option<Seq<char>> {
    match byte_slice(source, id.start as int, id.end as int) {
        Some(t) => Some(trim(split(t, ':')[0])),
        None => None,
    }
}

pub open spec fn fns_in_declarators(
    source: Seq<char>,
    v: Seq<VariableDeclarator>,
    fns: LocalFns,
) -> LocalFns
    decreases v,
{
    if v.len() == 0 {
        fns
    } else {
        fns_in_declarator(source, v.last(), fns_in_declarators(source, v.drop_last(), fns))
    }
}

pub open spec fn fns_in_declarator(
    source: Seq<char>,
    d: VariableDeclarator,
    fns: LocalFns,
) -> LocalFns
    decreases d,
{
    match d.init {
        Some(e) => match e.kind {
            ExpressionKind::Arrow(f) => fns_in_function(source, d.id_span, *f, fns),
            ExpressionKind::Function(f) => fns_in_function(source, d.id_span, *f, fns),
            _ => fns,
        },
        None => fns,
    }
}

/// A function with its name, then the functions declared in its body.
pub open spec fn fns_in_function(source: Seq<char>, id: Span, f: Function, fns: LocalFns) -> LocalFns
    decreases f,
{
    let named = match declared_name(source, id) {
        Some(name) => if name.len() > 0 {
            with_local_fn(fns, name, f)
        } else {
            fns
        },
        None => fns,
    };
    match f.body {
        Some(body) => fns_in_statements(source, body@, named),
        None => named,
    }
}

/// A function under the name that it declares, then the functions declared in its body.
pub open spec fn fns_in_declared(source: Seq<char>, f: Function, fns: LocalFns) -> LocalFns
    decreases f,
{
    let named = match f.id {
        Some(name) => with_local_fn(fns, name@, f),
        None => fns,
    };
    match f.body {
        Some(body) => fns_in_statements(source, body@, named),
        None => named,
    }
}

pub open spec fn fns_in_declaration(source: Seq<char>, d: Declaration, fns: LocalFns) -> LocalFns
    decreases d,
{
    match d {
        Declaration::Variable(v) => fns_in_declarators(source, v@, fns),
        Declaration::Function(f) => fns_in_declared(source, f, fns),
        _ => fns,
    }
}

pub open spec fn fns_in_statement(source: Seq<char>, s: Statement, fns: LocalFns) -> LocalFns
    decreases s,
{
    match s {
        Statement::Declaration(d) => fns_in_declaration(source, d, fns),
        Statement::ExportNamed(x) => match x.declaration {
            Some(d) => fns_in_declaration(source, d, fns),
            None => fns,
        },
        Statement::ExportDefaultFunction(f) => fns_in_declared(source, f, fns),
        _ => fns,
    }
}

/// The local functions that statements declare, nested ones with them.
pub open spec fn fns_in_statements(
    source: Seq<char>,
    body: Seq<Statement>,
    fns: LocalFns,
) -> LocalFns
    decreases body,
{
    if body.len() == 0 {
        fns
    } else {
        fns_in_statement(source, body.last(), fns_in_statements(source, body.drop_last(), fns))
    }
}

// ── Names and values ────────────────────────────────────────────────────

/// The name of an element as written: `a`, `a:b` or `a.b.c`.
pub open spec fn element_name(n: JsxName) -> Seq<char>
    decreases n,
{
    match n {
        JsxName::Identifier(s) => s@,
        JsxName::Namespaced(a, b) => a@ + seq![':'] + b@,
        JsxName::Member(o, p) => element_name(*o) + seq!['.'] + p@,
        JsxName::This => "this"@,
    }
}

/// The name of a property key that is a plain name or a string.
pub open spec fn key_name(k: PropertyKey) -> Option<Seq<char>> {
    match k {
        PropertyKey::Static(s) => Some(s@),
        PropertyKey::Str(s) => Some(s@),
        PropertyKey::Other => None,
    }
}

/// The string that an object member holds directly.
pub open spec fn member_string(m: ObjectMember) -> Option<Seq<char>> {
    match m {
        ObjectMember::Property(p) => match p.value.kind {
            ExpressionKind::StringLiteral(s) => Some(s@),
            _ => None,
        },
        ObjectMember::Spread => None,
    }
}

/// The strings that object members hold directly.
pub open spec fn member_strings(v: Seq<ObjectMember>) -> Seq<Seq<char>>
    decreases v.len(),
{
    if v.len() == 0 {
        Seq::empty()
    } else {
        let before = member_strings(v.drop_last());
        match member_string(v.last()) {
            Some(s) => before.push(s),
            None => before,
        }
    }
}

/// The strings that object members hold, directly or one object deeper.
pub open spec fn object_strings(v: Seq<ObjectMember>) -> Seq<Seq<char>>
    decreases v.len(),
{
    if v.len() == 0 {
        Seq::empty()
    } else {
        let before = object_strings(v.drop_last());
        match v.last() {
            ObjectMember::Property(p) => match p.value.kind {
                ExpressionKind::StringLiteral(s) => before.push(s@),
                ExpressionKind::Object(inner) => before + member_strings(inner@),
                _ => before,
            },
            ObjectMember::Spread => before,
        }
    }
}

/// The strings that an expression can give: of an object its strings, of a
/// conditional those of both branches, of a string itself.
pub open spec fn expression_strings(e: Expression) -> Seq<Seq<char>>
    decreases e,
{
    match e.kind {
        ExpressionKind::Object(v) => object_strings(v@),
        ExpressionKind::Parenthesized(x) => expression_strings(*x),
        ExpressionKind::Conditional(c) => expression_strings(c.consequent) + expression_strings(
            c.alternate,
        ),
        ExpressionKind::StringLiteral(s) => seq![s@],
        _ => Seq::empty(),
    }
}

/// The strings of a prop value in braces: as `expression_strings`, but none for a
/// plain string.
pub open spec fn container_strings(e: Expression) -> Seq<Seq<char>> {
    match e.kind {
        ExpressionKind::StringLiteral(s) => Seq::empty(),
        _ => expression_strings(e),
    }
}

/// A list of texts as a JSON array.
pub open spec fn json_texts(v: Seq<Seq<char>>) -> JsonView {
    JsonView::Array(Seq::new(v.len(), |i: int| JsonView::Str(v[i])))
}

pub open spec fn with_object_values(i: IncidentView, values: Seq<Seq<char>>) -> IncidentView {
    if values.len() > 0 {
        i.with_var("propObjectValues"@, json_texts(values))
    } else {
        i
    }
}

pub open spec fn min_of(a: int, b: int) -> int {
    if a <= b {
        a
    } else {
        b
    }
}

/// The source text of a node, trimmed.
pub open spec fn node_text(source: Seq<char>, span: Span) -> Seq<char> {
    let n = utf8(source).len() as int;
    trim(text_between(source, min_of(span.start as int, n), min_of(span.end as int, n)))
}

/// The source text between the braces of a container, trimmed.
pub open spec fn container_text(source: Seq<char>, span: Span) -> Seq<char> {
    let n = utf8(source).len() as int;
    let start = min_of(span.start + 1, n);
    let last = if span.end > 0 {
        span.end - 1
    } else {
        0
    };
    let end = min_of(if last >= start {
        last
    } else {
        start
    }, n);
    trim(text_between(source, start, end))
}

// ── Props ───────────────────────────────────────────────────────────────

/// `i` with what a prop's value tells.
pub open spec fn with_prop_value(
    source: Seq<char>,
    i: IncidentView,
    value: Option<JsxAttributeValue>,
) -> IncidentView {
    match value {
        Some(JsxAttributeValue::Str(span, s)) => i.with_text("propValue"@, s@),
        Some(JsxAttributeValue::Container(c)) => {
            let valued = i.with_text("propValue"@, container_text(source, c.span));
            match c.expression {
                Some(e) => with_object_values(valued, container_strings(e)),
                None => valued,
            }
        },
        _ => i,
    }
}

pub open spec fn prop_incident(
    c: JsxScanView,
    component: Seq<char>,
    prop: Seq<char>,
    a: JsxAttribute,
) -> IncidentView {
    let named = c.incident_for(a.name_span).with_text("propName"@, prop).with_text(
        "componentName"@,
        component,
    );
    c.with_module(with_prop_value(c.source, named, a.value), "module"@, component)
}

/// One incident for each attribute whose name matches.
pub open spec fn prop_hits(
    c: JsxScanView,
    component: Seq<char>,
    attributes: Seq<JsxAttributeItem>,
) -> Seq<IncidentView>
    decreases attributes.len(),
{
    if attributes.len() == 0 {
        Seq::empty()
    } else {
        let before = prop_hits(c, component, attributes.drop_last());
        match attributes.last() {
            JsxAttributeItem::Attribute(a) => match a.name {
                Some(n) => if c.matches(n@) {
                    before.push(prop_incident(c, component, n@, a))
                } else {
                    before
                },
                None => before,
            },
            JsxAttributeItem::Spread => before,
        }
    }
}

pub open spec fn object_key_incident(
    c: JsxScanView,
    component: Seq<char>,
    name: Seq<char>,
    p: ObjectProperty,
) -> IncidentView {
    c.with_module(
        c.incident_for(p.key_span).with_text("propName"@, name).with_text(
            "componentName"@,
            component,
        ),
        "module"@,
        component,
    )
}

/// One incident for each object member whose key matches.
pub open spec fn object_key_hits(
    c: JsxScanView,
    component: Seq<char>,
    members: Seq<ObjectMember>,
) -> Seq<IncidentView>
    decreases members.len(),
{
    if members.len() == 0 {
        Seq::empty()
    } else {
        let before = object_key_hits(c, component, members.drop_last());
        match members.last() {
            ObjectMember::Property(p) => match key_name(p.key) {
                Some(n) => if c.matches(n) {
                    before.push(object_key_incident(c, component, n, p))
                } else {
                    before
                },
                None => before,
            },
            ObjectMember::Spread => before,
        }
    }
}

/// The members of an object, in one pair of parentheses or none.
pub open spec fn object_members(e: Expression) -> Option<Seq<ObjectMember>> {
    match e.kind {
        ExpressionKind::Object(v) => Some(v@),
        ExpressionKind::Parenthesized(x) => match x.kind {
            ExpressionKind::Object(v) => Some(v@),
            _ => None,
        },
        _ => None,
    }
}

/// The expression in the braces of an attribute's value.
pub open spec fn attribute_expression(a: JsxAttributeItem) -> Option<Expression> {
    match a {
        JsxAttributeItem::Attribute(x) => match x.value {
            Some(JsxAttributeValue::Container(c)) => c.expression,
            _ => None,
        },
        JsxAttributeItem::Spread => None,
    }
}

/// The matching keys of objects in attribute values, which reach a component
/// indirectly.
pub open spec fn nested_key_hits(
    c: JsxScanView,
    component: Seq<char>,
    attributes: Seq<JsxAttributeItem>,
) -> Seq<IncidentView>
    decreases attributes.len(),
{
    if attributes.len() == 0 {
        Seq::empty()
    } else {
        let before = nested_key_hits(c, component, attributes.drop_last());
        match attribute_expression(attributes.last()) {
            Some(e) => match object_members(e) {
                Some(v) => before + object_key_hits(c, component, v),
                None => before,
            },
            None => before,
        }
    }
}

// ── Typed object literals ───────────────────────────────────────────────

/// The utility types that pass their first argument's props on.
pub open spec fn is_utility_type(name: Seq<char>) -> bool {
    name == "Partial"@ || name == "Required"@ || name == "Readonly"@ || name == "Pick"@ || name
        == "Omit"@
}

/// The first result among the types, in order.
pub open spec fn first_props(
    source: Seq<char>,
    imports: Map<Seq<char>, Seq<char>>,
    types: Seq<TsType>,
) -> Option<(Seq<char>, Seq<char>)>
    decreases types,
{
    if types.len() == 0 {
        None
    } else {
        match first_props(source, imports, types.drop_last()) {
            Some(r) => Some(r),
            None => props_of_type(source, imports, types.last()),
        }
    }
}

/// The component and module of an imported props type such as `ButtonProps`,
/// looked for through utility types and intersections.
pub open spec fn props_of_type(
    source: Seq<char>,
    imports: Map<Seq<char>, Seq<char>>,
    t: TsType,
) -> Option<(Seq<char>, Seq<char>)>
    decreases t,
{
    match t {
        TsType::Reference(r) => {
            let name = text_between(source, r.name_span.start as int, r.name_span.end as int);
            let direct = match strip_suffix(name, "Props"@) {
                Some(component) => if component.len() > 0 && imports.dom().contains(name) {
                    Some((component, imports[name]))
                } else {
                    None
                },
                None => None,
            };
            if direct is Some {
                direct
            } else if is_utility_type(name) && r.arguments@.len() > 0 {
                props_of_type(source, imports, r.arguments@[0])
            } else {
                None
            }
        },
        TsType::Intersection(v) => first_props(source, imports, v@),
        _ => None,
    }
}

pub open spec fn typed_property_incident(
    c: JsxScanView,
    component: Seq<char>,
    module: Seq<char>,
    name: Seq<char>,
    p: ObjectProperty,
) -> IncidentView {
    let named = c.incident_for(p.key_span).with_text("propName"@, name).with_text(
        "componentName"@,
        component,
    ).with_text("module"@, module);
    match p.value.kind {
        ExpressionKind::StringLiteral(s) => named.with_text("propValue"@, s@),
        ExpressionKind::Object(v) => with_object_values(named, object_strings(v@)).with_text(
            "propValue"@,
            node_text(c.source, p.value.span),
        ),
        _ => named.with_text("propValue"@, node_text(c.source, p.value.span)),
    }
}

pub open spec fn typed_member_hits(
    c: JsxScanView,
    component: Seq<char>,
    module: Seq<char>,
    members: Seq<ObjectMember>,
) -> Seq<IncidentView>
    decreases members.len(),
{
    if members.len() == 0 {
        Seq::empty()
    } else {
        let before = typed_member_hits(c, component, module, members.drop_last());
        match members.last() {
            ObjectMember::Property(p) => match key_name(p.key) {
                Some(n) => if c.matches(n) {
                    before.push(typed_property_incident(c, component, module, n, p))
                } else {
                    before
                },
                None => before,
            },
            ObjectMember::Spread => before,
        }
    }
}

/// The matching keys of an object literal that is declared with a props type.
pub open spec fn typed_object_hits(c: JsxScanView, d: VariableDeclarator) -> Seq<IncidentView> {
    match (d.annotation, d.init) {
        (Some(t), Some(e)) => match (props_of_type(c.source, c.imports, t), e.kind) {
            (Some((component, module)), ExpressionKind::Object(v)) => typed_member_hits(
                c,
                component,
                module,
                v@,
            ),
            _ => Seq::empty(),
        },
        _ => Seq::empty(),
    }
}

// ── Elements ────────────────────────────────────────────────────────────

/// The incident of an element whose name matches.
pub open spec fn component_incident(
    c: JsxScanView,
    parent: Option<Seq<char>>,
    el: JsxElement,
) -> IncidentView {
    let name = element_name(el.name);
    let own = c.with_module(
        c.incident_for(el.name_span).with_text("componentName"@, name),
        "module"@,
        name,
    );
    match parent {
        Some(p) => c.with_module(own.with_text("parentName"@, p), "parentFrom"@, p),
        None => own,
    }
}

/// The incidents of an element by itself: its name, its props, the keys of
/// objects in its props.
pub open spec fn own_hits(
    c: JsxScanView,
    parent: Option<Seq<char>>,
    el: JsxElement,
) -> Seq<IncidentView> {
    let name = element_name(el.name);
    let component: Seq<IncidentView> = if c.wants_components() && c.matches(name) {
        seq![component_incident(c, parent, el)]
    } else {
        Seq::empty()
    };
    let props = if c.wants_props() {
        prop_hits(c, name, el.attributes@) + nested_key_hits(c, name, el.attributes@)
    } else {
        Seq::empty()
    };
    component + props
}

pub open spec fn element_hits(
    c: JsxScanView,
    fns: LocalFns,
    parent: Option<Seq<char>>,
    el: JsxElement,
) -> Seq<IncidentView>
    decreases fns.len(), el, 0nat,
{
    let name = element_name(el.name);
    own_hits(c, parent, el) + attributes_hits(c, fns, Some(name), el.attributes@) + children_hits(
        c,
        fns,
        Some(name),
        el.children@,
    )
}

/// The incidents inside attribute values.
pub open spec fn attributes_hits(
    c: JsxScanView,
    fns: LocalFns,
    parent: Option<Seq<char>>,
    v: Seq<JsxAttributeItem>,
) -> Seq<IncidentView>
    decreases fns.len(), v, 0nat,
{
    if v.len() == 0 {
        Seq::empty()
    } else {
        attributes_hits(c, fns, parent, v.drop_last()) + attribute_hits(c, fns, parent, v.last())
    }
}

pub open spec fn attribute_hits(
    c: JsxScanView,
    fns: LocalFns,
    parent: Option<Seq<char>>,
    a: JsxAttributeItem,
) -> Seq<IncidentView>
    decreases fns.len(), a, 0nat,
{
    match a {
        JsxAttributeItem::Attribute(x) => match x.value {
            Some(JsxAttributeValue::Container(k)) => container_hits(c, fns, parent, k),
            _ => Seq::empty(),
        },
        JsxAttributeItem::Spread => Seq::empty(),
    }
}

pub open spec fn container_hits(
    c: JsxScanView,
    fns: LocalFns,
    parent: Option<Seq<char>>,
    k: JsxContainer,
) -> Seq<IncidentView>
    decreases fns.len(), k, 0nat,
{
    match k.expression {
        Some(e) => jsx_expression_hits(c, fns, parent, e),
        None => Seq::empty(),
    }
}

pub open spec fn children_hits(
    c: JsxScanView,
    fns: LocalFns,
    parent: Option<Seq<char>>,
    v: Seq<JsxChild>,
) -> Seq<IncidentView>
    decreases fns.len(), v, 0nat,
{
    if v.len() == 0 {
        Seq::empty()
    } else {
        children_hits(c, fns, parent, v.drop_last()) + child_hits(c, fns, parent, v.last())
    }
}

pub open spec fn child_hits(
    c: JsxScanView,
    fns: LocalFns,
    parent: Option<Seq<char>>,
    child: JsxChild,
) -> Seq<IncidentView>
    decreases fns.len(), child, 0nat,
{
    match child {
        JsxChild::Element(el) => element_hits(c, fns, parent, *el),
        JsxChild::Fragment(v) => children_hits(c, fns, parent, v@),
        JsxChild::Container(k) => container_hits(c, fns, parent, k),
        JsxChild::Other => Seq::empty(),
    }
}

/// The incidents of an expression in braces. A call of a local function stands
/// for the body of that function, with the same parent; a function is not
/// entered again from within its own body.
pub open spec fn jsx_expression_hits(
    c: JsxScanView,
    fns: LocalFns,
    parent: Option<Seq<char>>,
    e: Expression,
) -> Seq<IncidentView>
    decreases fns.len(), e, 1nat,
{
    called_hits(c, fns, parent, e) + expression_hits(c, fns, parent, e)
}

/// The incidents in the body of the local function that an expression calls.
pub open spec fn called_hits(
    c: JsxScanView,
    fns: LocalFns,
    parent: Option<Seq<char>>,
    e: Expression,
) -> Seq<IncidentView>
    decreases fns.len(), e, 0nat,
{
    match called_fn(fns, e) {
        Some(k) => if 0 <= k < fns.len() {
            match fns[k].1.body {
                Some(body) => statements_hits(c, fns.remove(k), parent, body@),
                None => Seq::empty(),
            }
        } else {
            Seq::empty()
        },
        None => Seq::empty(),
    }
}

/// The position of the local function that an expression calls by name.
pub open spec fn called_fn(fns: LocalFns, e: Expression) -> Option<int> {
    match e.kind {
        ExpressionKind::Call(call) => match call.callee.kind {
            ExpressionKind::Identifier(n) => local_fn(fns, n@),
            _ => None,
        },
        _ => None,
    }
}

pub open spec fn arguments_hits(
    c: JsxScanView,
    fns: LocalFns,
    parent: Option<Seq<char>>,
    v: Seq<Argument>,
) -> Seq<IncidentView>
    decreases fns.len(), v, 0nat,
{
    if v.len() == 0 {
        Seq::empty()
    } else {
        arguments_hits(c, fns, parent, v.drop_last()) + argument_hits(c, fns, parent, v.last())
    }
}

pub open spec fn argument_hits(
    c: JsxScanView,
    fns: LocalFns,
    parent: Option<Seq<char>>,
    a: Argument,
) -> Seq<IncidentView>
    decreases fns.len(), a, 0nat,
{
    expression_hits(c, fns, parent, a.expression)
}

pub open spec fn expression_hits(
    c: JsxScanView,
    fns: LocalFns,
    parent: Option<Seq<char>>,
    e: Expression,
) -> Seq<IncidentView>
    decreases fns.len(), e, 0nat,
{
    match e.kind {
        ExpressionKind::JsxElement(el) => element_hits(c, fns, parent, *el),
        ExpressionKind::JsxFragment(v) => children_hits(c, fns, parent, v@),
        ExpressionKind::Parenthesized(x) => expression_hits(c, fns, parent, *x),
        ExpressionKind::Conditional(x) => expression_hits(c, fns, parent, x.consequent)
            + expression_hits(c, fns, parent, x.alternate),
        ExpressionKind::Logical(x) => expression_hits(c, fns, parent, x.right),
        ExpressionKind::Arrow(f) => match f.body {
            Some(body) => statements_hits(c, fns, parent, body@),
            None => Seq::empty(),
        },
        ExpressionKind::Call(x) => arguments_hits(c, fns, parent, x.arguments@),
        ExpressionKind::ChainCall(v) => arguments_hits(c, fns, parent, v@),
        _ => Seq::empty(),
    }
}

// ── Statements ──────────────────────────────────────────────────────────

pub open spec fn statements_hits(
    c: JsxScanView,
    fns: LocalFns,
    parent: Option<Seq<char>>,
    v: Seq<Statement>,
) -> Seq<IncidentView>
    decreases fns.len(), v, 0nat,
{
    if v.len() == 0 {
        Seq::empty()
    } else {
        statements_hits(c, fns, parent, v.drop_last()) + statement_hits(c, fns, parent, v.last())
    }
}

pub open spec fn declarators_hits(
    c: JsxScanView,
    fns: LocalFns,
    parent: Option<Seq<char>>,
    v: Seq<VariableDeclarator>,
) -> Seq<IncidentView>
    decreases fns.len(), v, 0nat,
{
    if v.len() == 0 {
        Seq::empty()
    } else {
        declarators_hits(c, fns, parent, v.drop_last()) + declarator_hits(c, fns, parent, v.last())
    }
}

pub open spec fn declarator_hits(
    c: JsxScanView,
    fns: LocalFns,
    parent: Option<Seq<char>>,
    d: VariableDeclarator,
) -> Seq<IncidentView>
    decreases fns.len(), d, 0nat,
{
    let typed = if c.wants_props() {
        typed_object_hits(c, d)
    } else {
        Seq::empty()
    };
    let inner = match d.init {
        Some(e) => expression_hits(c, fns, parent, e),
        None => Seq::empty(),
    };
    typed + inner
}

pub open spec fn declaration_hits(
    c: JsxScanView,
    fns: LocalFns,
    parent: Option<Seq<char>>,
    d: Declaration,
) -> Seq<IncidentView>
    decreases fns.len(), d, 0nat,
{
    match d {
        Declaration::Function(f) => match f.body {
            Some(body) => statements_hits(c, fns, parent, body@),
            None => Seq::empty(),
        },
        Declaration::Variable(v) => declarators_hits(c, fns, parent, v@),
        _ => Seq::empty(),
    }
}

pub open spec fn statement_hits(
    c: JsxScanView,
    fns: LocalFns,
    parent: Option<Seq<char>>,
    s: Statement,
) -> Seq<IncidentView>
    decreases fns.len(), s, 0nat,
{
    match s {
        Statement::ExportDefaultFunction(f) => match f.body {
            Some(body) => statements_hits(c, fns, parent, body@),
            None => Seq::empty(),
        },
        Statement::ExportNamed(x) => match x.declaration {
            Some(d) => declaration_hits(c, fns, parent, d),
            None => Seq::empty(),
        },
        Statement::Declaration(d) => declaration_hits(c, fns, parent, d),
        Statement::Return(Some(e)) => expression_hits(c, fns, parent, e),
        Statement::Expression(e) => expression_hits(c, fns, parent, e),
        Statement::Block(v) => statements_hits(c, fns, parent, v@),
        Statement::If(x) => statement_hits(c, fns, parent, x.consequent) + match x.alternate {
            Some(a) => statement_hits(c, fns, parent, a),
            None => Seq::empty(),
        },
        _ => Seq::empty(),
    }
}

// ── Collecting ──────────────────────────────────────────────────────────

fn push_incident(out: &mut Vec<Incident>, incident: Incident)
    ensures
        incident_views(final(out)@) == incident_views(old(out)@).push(incident@),
{
    proof {
        lemma_incident_views_push(out@, incident);
    }
    out.push(incident);
}

fn find_local_fn(fns: &Vec<LocalFn>, name: &str) -> (r: Option<usize>)
    ensures
        match r {
            Some(k) => local_fn(local_fns_view(fns@), name@) == Some(k as int) && k < fns@.len(),
            None => local_fn(local_fns_view(fns@), name@) is None,
        },
{
    let mut i: usize = 0;
    while i < fns.len()
        invariant
            i <= fns@.len(),
            local_fn(local_fns_view(fns@), name@) == local_fn_from(
                local_fns_view(fns@),
                name@,
                i as int,
            ),
        decreases fns@.len() - i,
    {
        if same_text(fns[i].name.as_str(), name) {
            return Some(i);
        }
        i = i + 1;
    }
    None
}

fn add_local_fn<'a>(fns: &mut Vec<LocalFn<'a>>, name: String, function: &'a Function)
    ensures
        local_fns_view(final(fns)@) == with_local_fn(local_fns_view(old(fns)@), name@, *function),
{
    let ghost before = fns@;
    match find_local_fn(fns, name.as_str()) {
        Some(k) => {
            let ghost n = name@;
            fns.set(k, LocalFn { name, function });
            assert(local_fns_view(fns@) =~= local_fns_view(before).update(
                k as int,
                (n, *function),
            ));
        },
        None => {
            let ghost n = name@;
            fns.push(LocalFn { name, function });
            assert(local_fns_view(fns@) =~= local_fns_view(before).push((n, *function)));
        },
    }
}

/// The functions without the one at position `k`.
fn without_local_fn<'a>(fns: &Vec<LocalFn<'a>>, k: usize) -> (r: Vec<LocalFn<'a>>)
    requires
        k < fns@.len(),
    ensures
        local_fns_view(r@) == local_fns_view(fns@).remove(k as int),
        r@.len() == fns@.len() - 1,
{
    let mut out: Vec<LocalFn<'a>> = Vec::new();
    let mut i: usize = 0;
    while i < fns.len()
        invariant
            i <= fns@.len(),
            k < fns@.len(),
            out@.len() == if i <= k {
                i as int
            } else {
                i - 1
            },
            forall|j: int|
                0 <= j < out@.len() ==> (#[trigger] out@[j]).name@ == fns@[if j < k {
                    j
                } else {
                    j + 1
                }].name@ && out@[j].function == fns@[if j < k {
                    j
                } else {
                    j + 1
                }].function,
        decreases fns@.len() - i,
    {
        if i != k {
            out.push(LocalFn { name: fns[i].name.clone(), function: fns[i].function });
        }
        i = i + 1;
    }
    assert(local_fns_view(out@) =~= local_fns_view(fns@).remove(k as int));
    out
}

fn read_declared_name(source: &str, id: Span) -> (r: Option<String>)
    ensures
        opt_text(r) == declared_name(source@, id),
{
    match slice_bytes(source, id.start as u64, id.end as u64) {
        Some(t) => {
            let parts = split_text(t.as_str(), ':');
            proof {
                lemma_split_nonempty(t@, ':', 0, 0);
                assert(texts(parts@)[0] == parts@[0]@);
            }
            Some(trimmed(parts[0].as_str()))
        },
        None => None,
    }
}

proof fn lemma_split_nonempty(s: Seq<char>, sep: char, start: int, i: int)
    ensures
        split_at_from(s, sep, start, i).len() >= 1,
    decreases s.len() - i,
{
    if i < s.len() && s[i] != sep {
        lemma_split_nonempty(s, sep, start, i + 1);
    }
}

fn collect_from_statements<'a>(
    source: &str,
    body: &'a Vec<Statement>,
    fns: &mut Vec<LocalFn<'a>>,
)
    ensures
        local_fns_view(final(fns)@) == fns_in_statements(
            source@,
            body@,
            local_fns_view(old(fns)@),
        ),
    decreases body, 0nat,
{
    let ghost before = local_fns_view(fns@);
    let mut i: usize = 0;
    while i < body.len()
        invariant
            i <= body@.len(),
            local_fns_view(fns@) == fns_in_statements(source@, body@.take(i as int), before),
        decreases body@.len() - i,
    {
        assert(decreases_to!(body@ => body@[i as int]));
        assert(body@.take(i + 1).drop_last() =~= body@.take(i as int));
        collect_from_statement(source, &body[i], fns);
        i = i + 1;
    }
    assert(body@.take(body@.len() as int) =~= body@);
}

fn collect_from_statement<'a>(source: &str, s: &'a Statement, fns: &mut Vec<LocalFn<'a>>)
    ensures
        local_fns_view(final(fns)@) == fns_in_statement(source@, *s, local_fns_view(old(fns)@)),
    decreases s, 0nat,
{
    match s {
        Statement::Declaration(d) => collect_from_declaration(source, d, fns),
        Statement::ExportNamed(x) => {
            if let Some(d) = &x.declaration {
                collect_from_declaration(source, d, fns);
            }
        },
        Statement::ExportDefaultFunction(f) => collect_from_declared(source, f, fns),
        _ => {},
    }
}

fn collect_from_declaration<'a>(source: &str, d: &'a Declaration, fns: &mut Vec<LocalFn<'a>>)
    ensures
        local_fns_view(final(fns)@) == fns_in_declaration(source@, *d, local_fns_view(old(fns)@)),
    decreases d, 0nat,
{
    match d {
        Declaration::Variable(v) => collect_from_declarators(source, v, fns),
        Declaration::Function(f) => collect_from_declared(source, f, fns),
        _ => {},
    }
}

fn collect_from_declared<'a>(source: &str, f: &'a Function, fns: &mut Vec<LocalFn<'a>>)
    ensures
        local_fns_view(final(fns)@) == fns_in_declared(source@, *f, local_fns_view(old(fns)@)),
    decreases f, 0nat,
{
    if let Some(name) = &f.id {
        add_local_fn(fns, name.clone(), f);
    }
    if let Some(body) = &f.body {
        collect_from_statements(source, body, fns);
    }
}

fn collect_from_declarators<'a>(
    source: &str,
    v: &'a Vec<VariableDeclarator>,
    fns: &mut Vec<LocalFn<'a>>,
)
    ensures
        local_fns_view(final(fns)@) == fns_in_declarators(source@, v@, local_fns_view(old(fns)@)),
    decreases v, 0nat,
{
    let ghost before = local_fns_view(fns@);
    let mut i: usize = 0;
    while i < v.len()
        invariant
            i <= v@.len(),
            local_fns_view(fns@) == fns_in_declarators(source@, v@.take(i as int), before),
        decreases v@.len() - i,
    {
        assert(decreases_to!(v@ => v@[i as int]));
        assert(v@.take(i + 1).drop_last() =~= v@.take(i as int));
        collect_from_declarator(source, &v[i], fns);
        i = i + 1;
    }
    assert(v@.take(v@.len() as int) =~= v@);
}

fn collect_from_declarator<'a>(
    source: &str,
    d: &'a VariableDeclarator,
    fns: &mut Vec<LocalFn<'a>>,
)
    ensures
        local_fns_view(final(fns)@) == fns_in_declarator(source@, *d, local_fns_view(old(fns)@)),
    decreases d, 0nat,
{
    if let Some(e) = &d.init {
        match &e.kind {
            ExpressionKind::Arrow(f) => collect_from_function(source, d.id_span, f, fns),
            ExpressionKind::Function(f) => collect_from_function(source, d.id_span, f, fns),
            _ => {},
        }
    }
}

fn collect_from_function<'a>(
    source: &str,
    id: Span,
    f: &'a Function,
    fns: &mut Vec<LocalFn<'a>>,
)
    ensures
        local_fns_view(final(fns)@) == fns_in_function(source@, id, *f, local_fns_view(old(fns)@)),
    decreases f, 0nat,
{
    if let Some(name) = read_declared_name(source, id) {
        if name.as_str().unicode_len() > 0 {
            add_local_fn(fns, name, f);
        }
    }
    if let Some(body) = &f.body {
        collect_from_statements(source, body, fns);
    }
}

/// The functions that a program binds to names, nested ones with them.
fn build_local_fn_map<'a>(body: &'a Vec<Statement>, source: &str) -> (r: Vec<LocalFn<'a>>)
    ensures
        local_fns_view(r@) == fns_in_statements(source@, body@, Seq::empty()),
{
    let mut fns: Vec<LocalFn<'a>> = Vec::new();
    assert(local_fns_view(fns@) =~= Seq::<(Seq<char>, Function)>::empty());
    collect_from_statements(source, body, &mut fns);
    fns
}

fn jsx_element_name_to_string(n: &JsxName) -> (r: String)
    ensures
        r@ == element_name(*n),
    decreases n,
{
    match n {
        JsxName::Identifier(s) => s.clone(),
        JsxName::Namespaced(a, b) => {
            let mut r = a.clone();
            r.push(':');
            r.append(b.as_str());
            assert(r@ =~= a@ + seq![':'] + b@);
            r
        },
        JsxName::Member(o, p) => {
            let mut r = jsx_element_name_to_string(o);
            r.push('.');
            r.append(p.as_str());
            assert(r@ =~= element_name(**o) + seq!['.'] + p@);
            r
        },
        JsxName::This => "this".to_owned(),
    }
}

fn property_key_name(k: &PropertyKey) -> (r: Option<&str>)
    ensures
        opt_str(r) == key_name(*k),
{
    match k {
        PropertyKey::Static(s) => Some(s.as_str()),
        PropertyKey::Str(s) => Some(s.as_str()),
        PropertyKey::Other => None,
    }
}

fn push_text(v: &mut Vec<String>, s: &String)
    ensures
        texts(final(v)@) == texts(old(v)@).push(s@),
{
    let ghost before = v@;
    v.push(s.clone());
    assert(texts(v@) =~= texts(before).push(s@));
}

fn push_member_strings(members: &Vec<ObjectMember>, out: &mut Vec<String>)
    ensures
        texts(final(out)@) == texts(old(out)@) + member_strings(members@),
{
    let ghost before = texts(out@);
    let mut i: usize = 0;
    assert(before + member_strings(members@.take(0)) =~= before);
    while i < members.len()
        invariant
            i <= members@.len(),
            texts(out@) == before + member_strings(members@.take(i as int)),
        decreases members@.len() - i,
    {
        assert(members@.take(i + 1).drop_last() =~= members@.take(i as int));
        if let ObjectMember::Property(p) = &members[i] {
            if let ExpressionKind::StringLiteral(s) = &p.value.kind {
                push_text(out, s);
            }
        }
        assert(texts(out@) =~= before + member_strings(members@.take(i + 1)));
        i = i + 1;
    }
    assert(members@.take(members@.len() as int) =~= members@);
}

/// The strings of an object literal, those one object deeper with them.
fn extract_object_expression_string_values(members: &Vec<ObjectMember>) -> (r: Vec<String>)
    ensures
        texts(r@) == object_strings(members@),
{
    let mut values: Vec<String> = Vec::new();
    let mut i: usize = 0;
    assert(texts(values@) =~= Seq::<Seq<char>>::empty());
    while i < members.len()
        invariant
            i <= members@.len(),
            texts(values@) == object_strings(members@.take(i as int)),
        decreases members@.len() - i,
    {
        assert(members@.take(i + 1).drop_last() =~= members@.take(i as int));
        if let ObjectMember::Property(p) = &members[i] {
            match &p.value.kind {
                ExpressionKind::StringLiteral(s) => push_text(&mut values, s),
                ExpressionKind::Object(inner) => push_member_strings(inner, &mut values),
                _ => {},
            }
        }
        i = i + 1;
    }
    assert(members@.take(members@.len() as int) =~= members@);
    values
}

fn extract_object_string_values_from_expr(e: &Expression) -> (r: Vec<String>)
    ensures
        texts(r@) == expression_strings(*e),
    decreases e,
{
    match &e.kind {
        ExpressionKind::Object(v) => extract_object_expression_string_values(v),
        ExpressionKind::Parenthesized(x) => extract_object_string_values_from_expr(x),
        ExpressionKind::Conditional(c) => {
            let mut a = extract_object_string_values_from_expr(&c.consequent);
            let mut b = extract_object_string_values_from_expr(&c.alternate);
            let ghost x = a@;
            let ghost y = b@;
            a.append(&mut b);
            assert(texts(a@) =~= texts(x) + texts(y));
            a
        },
        ExpressionKind::StringLiteral(s) => {
            let mut v: Vec<String> = Vec::new();
            v.push(s.clone());
            assert(texts(v@) =~= seq![s@]);
            v
        },
        _ => {
            let v: Vec<String> = Vec::new();
            assert(texts(v@) =~= Seq::<Seq<char>>::empty());
            v
        },
    }
}

fn extract_object_string_values(e: &Expression) -> (r: Vec<String>)
    ensures
        texts(r@) == container_strings(*e),
{
    match &e.kind {
        ExpressionKind::StringLiteral(_) => {
            let v: Vec<String> = Vec::new();
            assert(texts(v@) =~= Seq::<Seq<char>>::empty());
            v
        },
        _ => extract_object_string_values_from_expr(e),
    }
}

fn json_of_texts(values: Vec<String>) -> (r: Json)
    ensures
        r@ == json_texts(texts(values@)),
{
    let mut items: Vec<Json> = Vec::new();
    let mut i: usize = 0;
    while i < values.len()
        invariant
            i <= values@.len(),
            items@.len() == i,
            forall|k: int| 0 <= k < i ==> (#[trigger] items@[k])@ == JsonView::Str(values@[k]@),
        decreases values@.len() - i,
    {
        items.push(Json::Str(values[i].clone()));
        i = i + 1;
    }
    let r = Json::Array(items);
    assert(r@->Array_0 =~= json_texts(texts(values@))->Array_0);
    r
}

fn set_object_values(incident: &mut Incident, values: Vec<String>)
    ensures
        final(incident)@ == with_object_values(old(incident)@, texts(values@)),
{
    if values.len() > 0 {
        incident.set_variable("propObjectValues", json_of_texts(values));
    }
}

fn read_node_text(source: &str, span: Span) -> (r: String)
    ensures
        r@ == node_text(source@, span),
{
    let n: u64 = byte_len_of(source) as u64;
    let start: u64 = if (span.start as u64) <= n {
        span.start as u64
    } else {
        n
    };
    let end: u64 = if (span.end as u64) <= n {
        span.end as u64
    } else {
        n
    };
    trimmed(text_between_bytes(source, start, end).as_str())
}

fn read_container_text(source: &str, span: Span) -> (r: String)
    ensures
        r@ == container_text(source@, span),
{
    let n: u64 = byte_len_of(source) as u64;
    let from: u64 = span.start as u64 + 1;
    let start: u64 = if from <= n {
        from
    } else {
        n
    };
    let last: u64 = if span.end > 0 {
        span.end as u64 - 1
    } else {
        0
    };
    let upto: u64 = if last >= start {
        last
    } else {
        start
    };
    let end: u64 = if upto <= n {
        upto
    } else {
        n
    };
    trimmed(text_between_bytes(source, start, end).as_str())
}

impl<'a> JsxScan<'a> {
    fn is_match(&self, name: &str) -> (r: bool)
        ensures
            r == self@.matches(name@),
    {
        self.pattern.is_match(name)
    }

    fn searches_components(&self) -> (r: bool)
        ensures
            r == self@.wants_components(),
    {
        matches!(self.location, Some(ReferenceLocation::JsxComponent) | None)
    }

    fn searches_props(&self) -> (r: bool)
        ensures
            r == self@.wants_props(),
    {
        matches!(self.location, Some(ReferenceLocation::JsxProp) | None)
    }

    fn incident(&self, span: Span) -> (r: Incident)
        ensures
            r@ == self@.incident_for(span),
    {
        make_incident(self.source, self.file_uri, span.start, span.end)
    }

    fn set_module(&self, incident: &mut Incident, key: &str, name: &str)
        ensures
            final(incident)@ == self@.with_module(old(incident)@, key@, name@),
    {
        if let Some(module) = self.import_map.get(name) {
            incident.set_text(key, module.as_str());
        }
    }

    fn set_prop_value(&self, incident: &mut Incident, value: &Option<JsxAttributeValue>)
        ensures
            final(incident)@ == with_prop_value(self@.source, old(incident)@, *value),
    {
        match value {
            Some(JsxAttributeValue::Str(_, s)) => incident.set_text("propValue", s.as_str()),
            Some(JsxAttributeValue::Container(c)) => {
                let text = read_container_text(self.source, c.span);
                incident.set_text("propValue", text.as_str());
                if let Some(e) = &c.expression {
                    set_object_values(incident, extract_object_string_values(e));
                }
            },
            _ => {},
        }
    }

    fn make_prop_incident(&self, component: &str, prop: &str, a: &JsxAttribute) -> (r: Incident)
        ensures
            r@ == prop_incident(self@, component@, prop@, *a),
    {
        let mut incident = self.incident(a.name_span);
        incident.set_text("propName", prop);
        incident.set_text("componentName", component);
        self.set_prop_value(&mut incident, &a.value);
        self.set_module(&mut incident, "module", component);
        incident
    }

    fn check_props(
        &self,
        component: &str,
        attributes: &Vec<JsxAttributeItem>,
        out: &mut Vec<Incident>,
    )
        ensures
            incident_views(final(out)@) == incident_views(old(out)@) + prop_hits(
                self@,
                component@,
                attributes@,
            ),
    {
        let ghost before = incident_views(out@);
        let mut i: usize = 0;
        assert(before + prop_hits(self@, component@, attributes@.take(0)) =~= before);
        while i < attributes.len()
            invariant
                i <= attributes@.len(),
                incident_views(out@) == before + prop_hits(
                    self@,
                    component@,
                    attributes@.take(i as int),
                ),
            decreases attributes@.len() - i,
        {
            assert(attributes@.take(i + 1).drop_last() =~= attributes@.take(i as int));
            if let JsxAttributeItem::Attribute(a) = &attributes[i] {
                if let Some(n) = &a.name {
                    if self.is_match(n.as_str()) {
                        push_incident(out, self.make_prop_incident(component, n.as_str(), a));
                    }
                }
            }
            assert(incident_views(out@) =~= before + prop_hits(
                self@,
                component@,
                attributes@.take(i + 1),
            ));
            i = i + 1;
        }
        assert(attributes@.take(attributes@.len() as int) =~= attributes@);
    }

    fn make_object_key_incident(
        &self,
        component: &str,
        name: &str,
        p: &ObjectProperty,
    ) -> (r: Incident)
        ensures
            r@ == object_key_incident(self@, component@, name@, *p),
    {
        let mut incident = self.incident(p.key_span);
        incident.set_text("propName", name);
        incident.set_text("componentName", component);
        self.set_module(&mut incident, "module", component);
        incident
    }

    fn check_object_keys(
        &self,
        component: &str,
        members: &Vec<ObjectMember>,
        out: &mut Vec<Incident>,
    )
        ensures
            incident_views(final(out)@) == incident_views(old(out)@) + object_key_hits(
                self@,
                component@,
                members@,
            ),
    {
        let ghost before = incident_views(out@);
        let mut i: usize = 0;
        assert(before + object_key_hits(self@, component@, members@.take(0)) =~= before);
        while i < members.len()
            invariant
                i <= members@.len(),
                incident_views(out@) == before + object_key_hits(
                    self@,
                    component@,
                    members@.take(i as int),
                ),
            decreases members@.len() - i,
        {
            assert(members@.take(i + 1).drop_last() =~= members@.take(i as int));
            if let ObjectMember::Property(p) = &members[i] {
                if let Some(n) = property_key_name(&p.key) {
                    if self.is_match(n) {
                        push_incident(out, self.make_object_key_incident(component, n, p));
                    }
                }
            }
            assert(incident_views(out@) =~= before + object_key_hits(
                self@,
                component@,
                members@.take(i + 1),
            ));
            i = i + 1;
        }
        assert(members@.take(members@.len() as int) =~= members@);
    }

    fn check_object_keys_in_expression(
        &self,
        component: &str,
        e: &Expression,
        out: &mut Vec<Incident>,
    )
        ensures
            incident_views(final(out)@) == incident_views(old(out)@) + match object_members(*e) {
                Some(v) => object_key_hits(self@, component@, v),
                None => Seq::empty(),
            },
    {
        let ghost before = incident_views(out@);
        assert(before + Seq::<IncidentView>::empty() =~= before);
        match &e.kind {
            ExpressionKind::Object(v) => self.check_object_keys(component, v, out),
            ExpressionKind::Parenthesized(x) => {
                if let ExpressionKind::Object(v) = &x.kind {
                    self.check_object_keys(component, v, out);
                }
            },
            _ => {},
        }
    }

    fn check_nested_keys(
        &self,
        component: &str,
        attributes: &Vec<JsxAttributeItem>,
        out: &mut Vec<Incident>,
    )
        ensures
            incident_views(final(out)@) == incident_views(old(out)@) + nested_key_hits(
                self@,
                component@,
                attributes@,
            ),
    {
        let ghost before = incident_views(out@);
        let mut i: usize = 0;
        assert(before + nested_key_hits(self@, component@, attributes@.take(0)) =~= before);
        while i < attributes.len()
            invariant
                i <= attributes@.len(),
                incident_views(out@) == before + nested_key_hits(
                    self@,
                    component@,
                    attributes@.take(i as int),
                ),
            decreases attributes@.len() - i,
        {
            assert(attributes@.take(i + 1).drop_last() =~= attributes@.take(i as int));
            if let JsxAttributeItem::Attribute(a) = &attributes[i] {
                if let Some(JsxAttributeValue::Container(c)) = &a.value {
                    if let Some(e) = &c.expression {
                        self.check_object_keys_in_expression(component, e, out);
                    }
                }
            }
            assert(incident_views(out@) =~= before + nested_key_hits(
                self@,
                component@,
                attributes@.take(i + 1),
            ));
            i = i + 1;
        }
        assert(attributes@.take(attributes@.len() as int) =~= attributes@);
    }

    fn make_component_incident(&self, parent: Option<&str>, el: &JsxElement) -> (r: Incident)
        ensures
            r@ == component_incident(self@, opt_str(parent), *el),
    {
        let name = jsx_element_name_to_string(&el.name);
        let mut incident = self.incident(el.name_span);
        incident.set_text("componentName", name.as_str());
        self.set_module(&mut incident, "module", name.as_str());
        if let Some(p) = parent {
            incident.set_text("parentName", p);
            self.set_module(&mut incident, "parentFrom", p);
        }
        incident
    }

    fn check_own(&self, parent: Option<&str>, el: &JsxElement, out: &mut Vec<Incident>)
        ensures
            incident_views(final(out)@) == incident_views(old(out)@) + own_hits(
                self@,
                opt_str(parent),
                *el,
            ),
    {
        let ghost before = incident_views(out@);
        let name = jsx_element_name_to_string(&el.name);
        if self.searches_components() && self.is_match(name.as_str()) {
            push_incident(out, self.make_component_incident(parent, el));
        }
        if self.searches_props() {
            self.check_props(name.as_str(), &el.attributes, out);
            self.check_nested_keys(name.as_str(), &el.attributes, out);
        }
        assert(incident_views(out@) =~= before + own_hits(
            self@,
            opt_str(parent),
            *el,
        ));
    }

    fn make_typed_property_incident(
        &self,
        component: &str,
        module: &str,
        name: &str,
        p: &ObjectProperty,
    ) -> (r: Incident)
        ensures
            r@ == typed_property_incident(self@, component@, module@, name@, *p),
    {
        let mut incident = self.incident(p.key_span);
        incident.set_text("propName", name);
        incident.set_text("componentName", component);
        incident.set_text("module", module);
        match &p.value.kind {
            ExpressionKind::StringLiteral(s) => incident.set_text("propValue", s.as_str()),
            ExpressionKind::Object(v) => {
                set_object_values(&mut incident, extract_object_expression_string_values(v));
                let text = read_node_text(self.source, p.value.span);
                incident.set_text("propValue", text.as_str());
            },
            _ => {
                let text = read_node_text(self.source, p.value.span);
                incident.set_text("propValue", text.as_str());
            },
        }
        incident
    }

    fn check_typed_members(
        &self,
        component: &str,
        module: &str,
        members: &Vec<ObjectMember>,
        out: &mut Vec<Incident>,
    )
        ensures
            incident_views(final(out)@) == incident_views(old(out)@) + typed_member_hits(
                self@,
                component@,
                module@,
                members@,
            ),
    {
        let ghost before = incident_views(out@);
        let mut i: usize = 0;
        assert(before + typed_member_hits(self@, component@, module@, members@.take(0))
            =~= before);
        while i < members.len()
            invariant
                i <= members@.len(),
                incident_views(out@) == before + typed_member_hits(
                    self@,
                    component@,
                    module@,
                    members@.take(i as int),
                ),
            decreases members@.len() - i,
        {
            assert(members@.take(i + 1).drop_last() =~= members@.take(i as int));
            if let ObjectMember::Property(p) = &members[i] {
                if let Some(n) = property_key_name(&p.key) {
                    if self.is_match(n) {
                        push_incident(
                            out,
                            self.make_typed_property_incident(component, module, n, p),
                        );
                    }
                }
            }
            assert(incident_views(out@) =~= before + typed_member_hits(
                self@,
                component@,
                module@,
                members@.take(i + 1),
            ));
            i = i + 1;
        }
        assert(members@.take(members@.len() as int) =~= members@);
    }

    fn check_typed_object_literal(&self, d: &VariableDeclarator, out: &mut Vec<Incident>)
        ensures
            incident_views(final(out)@) == incident_views(old(out)@) + typed_object_hits(self@, *d),
    {
        let ghost before = incident_views(out@);
        assert(before + Seq::<IncidentView>::empty() =~= before);
        if let (Some(t), Some(e)) = (&d.annotation, &d.init) {
            if let Some((component, module)) = resolve_type_to_props(
                t,
                self.source,
                self.import_map,
            ) {
                if let ExpressionKind::Object(v) = &e.kind {
                    self.check_typed_members(component.as_str(), module.as_str(), v, out);
                }
            }
        }
    }

    fn walk_statements(
        &self,
        fns: &Vec<LocalFn>,
        parent: Option<&str>,
        v: &Vec<Statement>,
        out: &mut Vec<Incident>,
    )
        ensures
            incident_views(final(out)@) == incident_views(old(out)@) + statements_hits(
                self@,
                local_fns_view(fns@),
                opt_str(parent),
                v@,
            ),
        decreases fns@.len(), v, 0nat,
    {
        let ghost before = incident_views(out@);
        let ghost f = local_fns_view(fns@);
        let ghost p = opt_str(parent);
        let mut i: usize = 0;
        assert(before + statements_hits(self@, f, p, v@.take(0)) =~= before);
        while i < v.len()
            invariant
                i <= v@.len(),
                f == local_fns_view(fns@),
                p == opt_str(parent),
                incident_views(out@) == before + statements_hits(self@, f, p, v@.take(i as int)),
            decreases v@.len() - i,
        {
            assert(decreases_to!(v@ => v@[i as int]));
            assert(v@.take(i + 1).drop_last() =~= v@.take(i as int));
            self.walk_statement(fns, parent, &v[i], out);
            assert(incident_views(out@) =~= before + statements_hits(self@, f, p, v@.take(i + 1)));
            i = i + 1;
        }
        assert(v@.take(v@.len() as int) =~= v@);
    }

    fn walk_variable_declaration(
        &self,
        fns: &Vec<LocalFn>,
        parent: Option<&str>,
        v: &Vec<VariableDeclarator>,
        out: &mut Vec<Incident>,
    )
        ensures
            incident_views(final(out)@) == incident_views(old(out)@) + declarators_hits(
                self@,
                local_fns_view(fns@),
                opt_str(parent),
                v@,
            ),
        decreases fns@.len(), v, 0nat,
    {
        let ghost before = incident_views(out@);
        let ghost f = local_fns_view(fns@);
        let ghost p = opt_str(parent);
        let mut i: usize = 0;
        assert(before + declarators_hits(self@, f, p, v@.take(0)) =~= before);
        while i < v.len()
            invariant
                i <= v@.len(),
                f == local_fns_view(fns@),
                p == opt_str(parent),
                incident_views(out@) == before + declarators_hits(self@, f, p, v@.take(i as int)),
            decreases v@.len() - i,
        {
            assert(decreases_to!(v@ => v@[i as int]));
            assert(v@.take(i + 1).drop_last() =~= v@.take(i as int));
            self.walk_declarator(fns, parent, &v[i], out);
            assert(incident_views(out@) =~= before + declarators_hits(self@, f, p, v@.take(i + 1)));
            i = i + 1;
        }
        assert(v@.take(v@.len() as int) =~= v@);
    }

    fn walk_arguments(
        &self,
        fns: &Vec<LocalFn>,
        parent: Option<&str>,
        v: &Vec<Argument>,
        out: &mut Vec<Incident>,
    )
        ensures
            incident_views(final(out)@) == incident_views(old(out)@) + arguments_hits(
                self@,
                local_fns_view(fns@),
                opt_str(parent),
                v@,
            ),
        decreases fns@.len(), v, 0nat,
    {
        let ghost before = incident_views(out@);
        let ghost f = local_fns_view(fns@);
        let ghost p = opt_str(parent);
        let mut i: usize = 0;
        assert(before + arguments_hits(self@, f, p, v@.take(0)) =~= before);
        while i < v.len()
            invariant
                i <= v@.len(),
                f == local_fns_view(fns@),
                p == opt_str(parent),
                incident_views(out@) == before + arguments_hits(self@, f, p, v@.take(i as int)),
            decreases v@.len() - i,
        {
            assert(decreases_to!(v@ => v@[i as int]));
            assert(v@.take(i + 1).drop_last() =~= v@.take(i as int));
            self.walk_argument(fns, parent, &v[i], out);
            assert(incident_views(out@) =~= before + arguments_hits(self@, f, p, v@.take(i + 1)));
            i = i + 1;
        }
        assert(v@.take(v@.len() as int) =~= v@);
    }

    fn walk_attributes(
        &self,
        fns: &Vec<LocalFn>,
        parent: Option<&str>,
        v: &Vec<JsxAttributeItem>,
        out: &mut Vec<Incident>,
    )
        ensures
            incident_views(final(out)@) == incident_views(old(out)@) + attributes_hits(
                self@,
                local_fns_view(fns@),
                opt_str(parent),
                v@,
            ),
        decreases fns@.len(), v, 0nat,
    {
        let ghost before = incident_views(out@);
        let ghost f = local_fns_view(fns@);
        let ghost p = opt_str(parent);
        let mut i: usize = 0;
        assert(before + attributes_hits(self@, f, p, v@.take(0)) =~= before);
        while i < v.len()
            invariant
                i <= v@.len(),
                f == local_fns_view(fns@),
                p == opt_str(parent),
                incident_views(out@) == before + attributes_hits(self@, f, p, v@.take(i as int)),
            decreases v@.len() - i,
        {
            assert(decreases_to!(v@ => v@[i as int]));
            assert(v@.take(i + 1).drop_last() =~= v@.take(i as int));
            self.walk_attribute(fns, parent, &v[i], out);
            assert(incident_views(out@) =~= before + attributes_hits(self@, f, p, v@.take(i + 1)));
            i = i + 1;
        }
        assert(v@.take(v@.len() as int) =~= v@);
    }

    fn walk_children(
        &self,
        fns: &Vec<LocalFn>,
        parent: Option<&str>,
        v: &Vec<JsxChild>,
        out: &mut Vec<Incident>,
    )
        ensures
            incident_views(final(out)@) == incident_views(old(out)@) + children_hits(
                self@,
                local_fns_view(fns@),
                opt_str(parent),
                v@,
            ),
        decreases fns@.len(), v, 0nat,
    {
        let ghost before = incident_views(out@);
        let ghost f = local_fns_view(fns@);
        let ghost p = opt_str(parent);
        let mut i: usize = 0;
        assert(before + children_hits(self@, f, p, v@.take(0)) =~= before);
        while i < v.len()
            invariant
                i <= v@.len(),
                f == local_fns_view(fns@),
                p == opt_str(parent),
                incident_views(out@) == before + children_hits(self@, f, p, v@.take(i as int)),
            decreases v@.len() - i,
        {
            assert(decreases_to!(v@ => v@[i as int]));
            assert(v@.take(i + 1).drop_last() =~= v@.take(i as int));
            self.walk_child(fns, parent, &v[i], out);
            assert(incident_views(out@) =~= before + children_hits(self@, f, p, v@.take(i + 1)));
            i = i + 1;
        }
        assert(v@.take(v@.len() as int) =~= v@);
    }

    fn walk_argument(
        &self,
        fns: &Vec<LocalFn>,
        parent: Option<&str>,
        a: &Argument,
        out: &mut Vec<Incident>,
    )
        ensures
            incident_views(final(out)@) == incident_views(old(out)@) + argument_hits(
                self@,
                local_fns_view(fns@),
                opt_str(parent),
                *a,
            ),
        decreases fns@.len(), a, 0nat,
    {
        self.walk_expression(fns, parent, &a.expression, out);
    }

    fn walk_declarator(
        &self,
        fns: &Vec<LocalFn>,
        parent: Option<&str>,
        d: &VariableDeclarator,
        out: &mut Vec<Incident>,
    )
        ensures
            incident_views(final(out)@) == incident_views(old(out)@) + declarator_hits(
                self@,
                local_fns_view(fns@),
                opt_str(parent),
                *d,
            ),
        decreases fns@.len(), d, 0nat,
    {
        let ghost before = incident_views(out@);
        assert(before + Seq::<IncidentView>::empty() =~= before);
        if self.searches_props() {
            self.check_typed_object_literal(d, out);
        }
        if let Some(e) = &d.init {
            self.walk_expression(fns, parent, e, out);
        }
        assert(incident_views(out@) =~= before + declarator_hits(
            self@,
            local_fns_view(fns@),
            opt_str(parent),
            *d,
        ));
    }

    fn walk_declaration(
        &self,
        fns: &Vec<LocalFn>,
        parent: Option<&str>,
        d: &Declaration,
        out: &mut Vec<Incident>,
    )
        ensures
            incident_views(final(out)@) == incident_views(old(out)@) + declaration_hits(
                self@,
                local_fns_view(fns@),
                opt_str(parent),
                *d,
            ),
        decreases fns@.len(), d, 0nat,
    {
        let ghost before = incident_views(out@);
        assert(before + Seq::<IncidentView>::empty() =~= before);
        match d {
            Declaration::Function(f) => {
                if let Some(body) = &f.body {
                    self.walk_statements(fns, parent, body, out);
                }
            },
            Declaration::Variable(v) => self.walk_variable_declaration(fns, parent, v, out),
            _ => {},
        }
    }

    fn walk_statement(
        &self,
        fns: &Vec<LocalFn>,
        parent: Option<&str>,
        s: &Statement,
        out: &mut Vec<Incident>,
    )
        ensures
            incident_views(final(out)@) == incident_views(old(out)@) + statement_hits(
                self@,
                local_fns_view(fns@),
                opt_str(parent),
                *s,
            ),
        decreases fns@.len(), s, 0nat,
    {
        let ghost before = incident_views(out@);
        assert(before + Seq::<IncidentView>::empty() =~= before);
        match s {
            Statement::ExportDefaultFunction(f) => {
                if let Some(body) = &f.body {
                    self.walk_statements(fns, parent, body, out);
                }
            },
            Statement::ExportNamed(x) => {
                if let Some(d) = &x.declaration {
                    self.walk_declaration(fns, parent, d, out);
                }
            },
            Statement::Declaration(d) => self.walk_declaration(fns, parent, d, out),
            Statement::Return(Some(e)) => self.walk_expression(fns, parent, e, out),
            Statement::Expression(e) => self.walk_expression(fns, parent, e, out),
            Statement::Block(v) => self.walk_statements(fns, parent, v, out),
            Statement::If(x) => {
                self.walk_statement(fns, parent, &x.consequent, out);
                if let Some(a) = &x.alternate {
                    self.walk_statement(fns, parent, a, out);
                }
                assert(incident_views(out@) =~= before + statement_hits(
                    self@,
                    local_fns_view(fns@),
                    opt_str(parent),
                    *s,
                ));
            },
            _ => {},
        }
    }

    fn walk_expression(
        &self,
        fns: &Vec<LocalFn>,
        parent: Option<&str>,
        e: &Expression,
        out: &mut Vec<Incident>,
    )
        ensures
            incident_views(final(out)@) == incident_views(old(out)@) + expression_hits(
                self@,
                local_fns_view(fns@),
                opt_str(parent),
                *e,
            ),
        decreases fns@.len(), e, 0nat,
    {
        let ghost before = incident_views(out@);
        assert(before + Seq::<IncidentView>::empty() =~= before);
        match &e.kind {
            ExpressionKind::JsxElement(el) => self.check_jsx_element(fns, parent, el, out),
            ExpressionKind::JsxFragment(v) => self.walk_children(fns, parent, v, out),
            ExpressionKind::Parenthesized(x) => self.walk_expression(fns, parent, x, out),
            ExpressionKind::Conditional(x) => {
                self.walk_expression(fns, parent, &x.consequent, out);
                self.walk_expression(fns, parent, &x.alternate, out);
                assert(incident_views(out@) =~= before + expression_hits(
                    self@,
                    local_fns_view(fns@),
                    opt_str(parent),
                    *e,
                ));
            },
            ExpressionKind::Logical(x) => self.walk_expression(fns, parent, &x.right, out),
            ExpressionKind::Arrow(f) => {
                if let Some(body) = &f.body {
                    self.walk_statements(fns, parent, body, out);
                }
            },
            ExpressionKind::Call(x) => self.walk_arguments(fns, parent, &x.arguments, out),
            ExpressionKind::ChainCall(v) => self.walk_arguments(fns, parent, v, out),
            _ => {},
        }
    }

    fn walk_called(
        &self,
        fns: &Vec<LocalFn>,
        parent: Option<&str>,
        e: &Expression,
        out: &mut Vec<Incident>,
    )
        ensures
            incident_views(final(out)@) == incident_views(old(out)@) + called_hits(
                self@,
                local_fns_view(fns@),
                opt_str(parent),
                *e,
            ),
        decreases fns@.len(), e, 0nat,
    {
        let ghost before = incident_views(out@);
        assert(before + Seq::<IncidentView>::empty() =~= before);
        if let ExpressionKind::Call(call) = &e.kind {
            if let ExpressionKind::Identifier(n) = &call.callee.kind {
                if let Some(k) = find_local_fn(fns, n.as_str()) {
                    let function: &Function = fns[k].function;
                    if let Some(body) = &function.body {
                        let rest = without_local_fn(fns, k);
                        self.walk_statements(&rest, parent, body, out);
                    }
                }
            }
        }
    }

    fn walk_jsx_expression(
        &self,
        fns: &Vec<LocalFn>,
        parent: Option<&str>,
        e: &Expression,
        out: &mut Vec<Incident>,
    )
        ensures
            incident_views(final(out)@) == incident_views(old(out)@) + jsx_expression_hits(
                self@,
                local_fns_view(fns@),
                opt_str(parent),
                *e,
            ),
        decreases fns@.len(), e, 1nat,
    {
        let ghost before = incident_views(out@);
        assert(before + Seq::<IncidentView>::empty() =~= before);
        self.walk_called(fns, parent, e, out);
        self.walk_expression(fns, parent, e, out);
        assert(incident_views(out@) =~= before + jsx_expression_hits(
            self@,
            local_fns_view(fns@),
            opt_str(parent),
            *e,
        ));
    }

    fn walk_container(
        &self,
        fns: &Vec<LocalFn>,
        parent: Option<&str>,
        k: &JsxContainer,
        out: &mut Vec<Incident>,
    )
        ensures
            incident_views(final(out)@) == incident_views(old(out)@) + container_hits(
                self@,
                local_fns_view(fns@),
                opt_str(parent),
                *k,
            ),
        decreases fns@.len(), k, 0nat,
    {
        let ghost before = incident_views(out@);
        assert(before + Seq::<IncidentView>::empty() =~= before);
        if let Some(e) = &k.expression {
            self.walk_jsx_expression(fns, parent, e, out);
        }
    }

    fn walk_attribute(
        &self,
        fns: &Vec<LocalFn>,
        parent: Option<&str>,
        a: &JsxAttributeItem,
        out: &mut Vec<Incident>,
    )
        ensures
            incident_views(final(out)@) == incident_views(old(out)@) + attribute_hits(
                self@,
                local_fns_view(fns@),
                opt_str(parent),
                *a,
            ),
        decreases fns@.len(), a, 0nat,
    {
        let ghost before = incident_views(out@);
        assert(before + Seq::<IncidentView>::empty() =~= before);
        if let JsxAttributeItem::Attribute(x) = a {
            if let Some(JsxAttributeValue::Container(k)) = &x.value {
                self.walk_container(fns, parent, k, out);
            }
        }
    }

    fn walk_child(
        &self,
        fns: &Vec<LocalFn>,
        parent: Option<&str>,
        child: &JsxChild,
        out: &mut Vec<Incident>,
    )
        ensures
            incident_views(final(out)@) == incident_views(old(out)@) + child_hits(
                self@,
                local_fns_view(fns@),
                opt_str(parent),
                *child,
            ),
        decreases fns@.len(), child, 0nat,
    {
        let ghost before = incident_views(out@);
        assert(before + Seq::<IncidentView>::empty() =~= before);
        match child {
            JsxChild::Element(el) => self.check_jsx_element(fns, parent, el, out),
            JsxChild::Fragment(v) => self.walk_children(fns, parent, v, out),
            JsxChild::Container(k) => self.walk_container(fns, parent, k, out),
            JsxChild::Other => {},
        }
    }

    fn check_jsx_element(
        &self,
        fns: &Vec<LocalFn>,
        parent: Option<&str>,
        el: &JsxElement,
        out: &mut Vec<Incident>,
    )
        ensures
            incident_views(final(out)@) == incident_views(old(out)@) + element_hits(
                self@,
                local_fns_view(fns@),
                opt_str(parent),
                *el,
            ),
        decreases fns@.len(), el, 0nat,
    {
        let ghost before = incident_views(out@);
        assert(before + Seq::<IncidentView>::empty() =~= before);
        self.check_own(parent, el, out);
        let name = jsx_element_name_to_string(&el.name);
        self.walk_attributes(fns, Some(name.as_str()), &el.attributes, out);
        self.walk_children(fns, Some(name.as_str()), &el.children, out);
        assert(incident_views(out@) =~= before + element_hits(
            self@,
            local_fns_view(fns@),
            opt_str(parent),
            *el,
        ));
    }

}

fn is_utility(name: &str) -> (r: bool)
    ensures
        r == is_utility_type(name@),
{
    same_text(name, "Partial") || same_text(name, "Required") || same_text(name, "Readonly")
        || same_text(name, "Pick") || same_text(name, "Omit")
}

/// The views of a component and its module.
pub open spec fn pair_view(o: Option<(String, String)>) -> Option<(Seq<char>, Seq<char>)> {
    match o {
        Some((a, b)) => Some((a@, b@)),
        None => None,
    }
}

fn resolve_first(types: &Vec<TsType>, source: &str, import_map: &ImportMap) -> (r: Option<
    (String, String),
>)
    ensures
        pair_view(r) == first_props(source@, import_map_view(*import_map), types@),
    decreases types,
{
    let mut i: usize = 0;
    while i < types.len()
        invariant
            i <= types@.len(),
            first_props(source@, import_map_view(*import_map), types@.take(i as int)) is None,
        decreases types@.len() - i,
    {
        assert(decreases_to!(types@ => types@[i as int]));
        assert(types@.take(i + 1).drop_last() =~= types@.take(i as int));
        let found = resolve_type_to_props(&types[i], source, import_map);
        if found.is_some() {
            proof {
                lemma_first_props_stays(source@, import_map_view(*import_map), types@, i + 1);
            }
            return found;
        }
        i = i + 1;
    }
    assert(types@.take(types@.len() as int) =~= types@);
    None
}

proof fn lemma_first_props_stays(
    source: Seq<char>,
    imports: Map<Seq<char>, Seq<char>>,
    types: Seq<TsType>,
    n: int,
)
    requires
        0 <= n <= types.len(),
        first_props(source, imports, types.take(n)) is Some,
    ensures
        first_props(source, imports, types) == first_props(source, imports, types.take(n)),
    decreases types.len() - n,
{
    if n < types.len() {
        assert(types.take(n + 1).drop_last() =~= types.take(n));
        lemma_first_props_stays(source, imports, types, n + 1);
    } else {
        assert(types.take(n) =~= types);
    }
}

/// The component and module of an imported props type.
fn resolve_type_to_props(t: &TsType, source: &str, import_map: &ImportMap) -> (r: Option<
    (String, String),
>)
    ensures
        pair_view(r) == props_of_type(source@, import_map_view(*import_map), *t),
    decreases t,
{
    match t {
        TsType::Reference(reference) => {
            let span = reference.name_span;
            let name = text_between_bytes(source, span.start as u64, span.end as u64);
            if let Some(component) = strip_suffix_text(name.as_str(), "Props") {
                if component.as_str().unicode_len() > 0 {
                    if let Some(module) = import_map.get(name.as_str()) {
                        return Some((component, module.clone()));
                    }
                }
            }
            if is_utility(name.as_str()) && reference.arguments.len() > 0 {
                assert(decreases_to!(reference.arguments@ => reference.arguments@[0]));
                return resolve_type_to_props(&reference.arguments[0], source, import_map);
            }
            None
        },
        TsType::Intersection(v) => resolve_first(v, source, import_map),
        _ => None,
    }
}

/// Scans all statements of a program for JSX component and prop usage.
///
/// Calls of functions that the program binds to names, such as
/// `{renderItems()}`, are followed with the parent at the call.
pub fn scan_jsx_file(
    stmts: &Vec<Statement>,
    source: &str,
    pattern: &regex::Regex,
    file_uri: &str,
    location: Option<ReferenceLocation>,
    import_map: &ImportMap,
) -> (r: Vec<Incident>)
    ensures
        incident_views(r@) == statements_hits(
            (JsxScan { source, pattern, file_uri, location, import_map })@,
            fns_in_statements(source@, stmts@, Seq::empty()),
            None,
            stmts@,
        ),
{
    let scan = JsxScan { source, pattern, file_uri, location, import_map };
    let fns = build_local_fn_map(stmts, source);
    let mut incidents: Vec<Incident> = Vec::new();
    scan.walk_statements(&fns, None, stmts, &mut incidents);
    assert(incident_views(incidents@) =~= statements_hits(
        scan@,
        local_fns_view(fns@),
        None,
        stmts@,
    ));
    incidents
}

/// Scans one statement for JSX component and prop usage, following no calls.
pub fn scan_jsx(
    stmt: &Statement,
    source: &str,
    pattern: &regex::Regex,
    file_uri: &str,
    location: Option<ReferenceLocation>,
    import_map: &ImportMap,
) -> (r: Vec<Incident>)
    ensures
        incident_views(r@) == statement_hits(
            (JsxScan { source, pattern, file_uri, location, import_map })@,
            Seq::empty(),
            None,
            *stmt,
        ),
{
    let scan = JsxScan { source, pattern, file_uri, location, import_map };
    let fns: Vec<LocalFn> = Vec::new();
    assert(local_fns_view(fns@) =~= Seq::<(Seq<char>, Function)>::empty());
    let mut incidents: Vec<Incident> = Vec::new();
    scan.walk_statement(&fns, None, stmt, &mut incidents);
    assert(incident_views(incidents@) =~= statement_hits(scan@, Seq::empty(), None, *stmt));
    incidents
}

// ── Laws of the scan ────────────────────────────────────────────────────

impl JsxScanView {
    /// Whether an incident lies in the scanned file and is one that was looked for: of
    /// a prop whose name matches, where props are searched, or else of a component
    /// whose name matches, where components are searched.
    pub open spec fn fits(self, i: IncidentView) -> bool {
        &&& i.file_uri == self.file_uri
        &&& text_variable(i.variables, "componentName"@) matches Some(component)
        &&& match text_variable(i.variables, "propName"@) {
            Some(prop) => self.wants_props() && self.matches(prop),
            None => self.wants_components() && self.matches(component),
        }
    }

    pub open spec fn all_fit(self, v: Seq<IncidentView>) -> bool {
        forall|k: int| 0 <= k < v.len() ==> self.fits(#[trigger] v[k])
    }

    proof fn lemma_fit_add(self, a: Seq<IncidentView>, b: Seq<IncidentView>)
        requires
            self.all_fit(a),
            self.all_fit(b),
        ensures
            self.all_fit(a + b),
    {
        assert forall|k: int| 0 <= k < (a + b).len() implies self.fits(#[trigger] (a + b)[k]) by {
            if k < a.len() {
                assert((a + b)[k] == a[k]);
            } else {
                assert((a + b)[k] == b[k - a.len()]);
            }
        }
    }
}

/// Every incident of a scan lies in the scanned file and is one that was looked for:
/// its prop, or else its component, matches the pattern, and the scan was for props
/// or for components.
pub proof fn incidents_are_what_was_looked_for(c: JsxScanView, fns: LocalFns, s: Statement)
    ensures
        c.all_fit(statement_hits(c, fns, None, s)),
{
    statement_fit(c, fns, None, s);
}

/// The names of the variables differ.
proof fn lemma_variable_names()
    ensures
        "componentName"@ != "propName"@,
        "componentName"@ != "propValue"@,
        "componentName"@ != "propObjectValues"@,
        "componentName"@ != "module"@,
        "componentName"@ != "parentName"@,
        "componentName"@ != "parentFrom"@,
        "propName"@ != "propValue"@,
        "propName"@ != "propObjectValues"@,
        "propName"@ != "module"@,
        "propName"@ != "parentName"@,
        "propName"@ != "parentFrom"@,
{
    reveal_strlit("componentName");
    reveal_strlit("propName");
    reveal_strlit("propValue");
    reveal_strlit("propObjectValues");
    reveal_strlit("module");
    reveal_strlit("parentName");
    reveal_strlit("parentFrom");
    assert("componentName"@.len() == 13);
    assert("propName"@.len() == 8);
    assert("propValue"@.len() == 9);
    assert("propObjectValues"@.len() == 16);
    assert("module"@.len() == 6);
    assert("parentName"@.len() == 10);
    assert("parentFrom"@.len() == 10);
}

proof fn prop_hits_fit(c: JsxScanView, component: Seq<char>, v: Seq<JsxAttributeItem>)
    requires
        c.wants_props(),
    ensures
        c.all_fit(prop_hits(c, component, v)),
    decreases v.len(),
{
    if v.len() > 0 {
        prop_hits_fit(c, component, v.drop_last());
        lemma_variable_names();
    }
}

proof fn object_key_hits_fit(c: JsxScanView, component: Seq<char>, v: Seq<ObjectMember>)
    requires
        c.wants_props(),
    ensures
        c.all_fit(object_key_hits(c, component, v)),
    decreases v.len(),
{
    if v.len() > 0 {
        object_key_hits_fit(c, component, v.drop_last());
        lemma_variable_names();
    }
}

proof fn nested_key_hits_fit(c: JsxScanView, component: Seq<char>, v: Seq<JsxAttributeItem>)
    requires
        c.wants_props(),
    ensures
        c.all_fit(nested_key_hits(c, component, v)),
    decreases v.len(),
{
    if v.len() > 0 {
        nested_key_hits_fit(c, component, v.drop_last());
        if let Some(e) = attribute_expression(v.last()) {
            if let Some(members) = object_members(e) {
                object_key_hits_fit(c, component, members);
                c.lemma_fit_add(
                    nested_key_hits(c, component, v.drop_last()),
                    object_key_hits(c, component, members),
                );
            }
        }
    }
}

proof fn typed_member_hits_fit(
    c: JsxScanView,
    component: Seq<char>,
    module: Seq<char>,
    v: Seq<ObjectMember>,
)
    requires
        c.wants_props(),
    ensures
        c.all_fit(typed_member_hits(c, component, module, v)),
    decreases v.len(),
{
    if v.len() > 0 {
        typed_member_hits_fit(c, component, module, v.drop_last());
        lemma_variable_names();
    }
}

proof fn typed_object_hits_fit(c: JsxScanView, d: VariableDeclarator)
    requires
        c.wants_props(),
    ensures
        c.all_fit(typed_object_hits(c, d)),
{
    if let (Some(t), Some(e)) = (d.annotation, d.init) {
        if let (Some((component, module)), ExpressionKind::Object(v)) = (
            props_of_type(c.source, c.imports, t),
            e.kind,
        ) {
            typed_member_hits_fit(c, component, module, v@);
        }
    }
}

proof fn own_hits_fit(c: JsxScanView, parent: Option<Seq<char>>, el: JsxElement)
    ensures
        c.all_fit(own_hits(c, parent, el)),
{
    let name = element_name(el.name);
    let component: Seq<IncidentView> = if c.wants_components() && c.matches(name) {
        seq![component_incident(c, parent, el)]
    } else {
        Seq::empty()
    };
    let props = if c.wants_props() {
        prop_hits(c, name, el.attributes@) + nested_key_hits(c, name, el.attributes@)
    } else {
        Seq::empty()
    };
    lemma_variable_names();
    if c.wants_props() {
        prop_hits_fit(c, name, el.attributes@);
        nested_key_hits_fit(c, name, el.attributes@);
        c.lemma_fit_add(
            prop_hits(c, name, el.attributes@),
            nested_key_hits(c, name, el.attributes@),
        );
    }
    c.lemma_fit_add(component, props);
}

proof fn element_fit(c: JsxScanView, fns: LocalFns, parent: Option<Seq<char>>, el: JsxElement)
    ensures
        c.all_fit(element_hits(c, fns, parent, el)),
    decreases fns.len(), el, 0nat,
{
    let name = element_name(el.name);
    own_hits_fit(c, parent, el);
    attributes_fit(c, fns, Some(name), el.attributes@);
    children_fit(c, fns, Some(name), el.children@);
    c.lemma_fit_add(
        own_hits(c, parent, el),
        attributes_hits(c, fns, Some(name), el.attributes@),
    );
    c.lemma_fit_add(
        own_hits(c, parent, el) + attributes_hits(c, fns, Some(name), el.attributes@),
        children_hits(c, fns, Some(name), el.children@),
    );
}

proof fn attributes_fit(c: JsxScanView, fns: LocalFns, parent: Option<Seq<char>>, v: Seq<JsxAttributeItem>)
    ensures
        c.all_fit(attributes_hits(c, fns, parent, v)),
    decreases fns.len(), v, 0nat,
{
    if v.len() > 0 {
        attributes_fit(c, fns, parent, v.drop_last());
        attribute_fit(c, fns, parent, v.last());
        c.lemma_fit_add(
            attributes_hits(c, fns, parent, v.drop_last()),
            attribute_hits(c, fns, parent, v.last()),
        );
    }
}

proof fn attribute_fit(c: JsxScanView, fns: LocalFns, parent: Option<Seq<char>>, a: JsxAttributeItem)
    ensures
        c.all_fit(attribute_hits(c, fns, parent, a)),
    decreases fns.len(), a, 0nat,
{
    if let JsxAttributeItem::Attribute(x) = a {
        if let Some(JsxAttributeValue::Container(k)) = x.value {
            container_fit(c, fns, parent, k);
        }
    }
}

proof fn container_fit(c: JsxScanView, fns: LocalFns, parent: Option<Seq<char>>, k: JsxContainer)
    ensures
        c.all_fit(container_hits(c, fns, parent, k)),
    decreases fns.len(), k, 0nat,
{
    if let Some(e) = k.expression {
        jsx_expression_fit(c, fns, parent, e);
    }
}

proof fn children_fit(c: JsxScanView, fns: LocalFns, parent: Option<Seq<char>>, v: Seq<JsxChild>)
    ensures
        c.all_fit(children_hits(c, fns, parent, v)),
    decreases fns.len(), v, 0nat,
{
    if v.len() > 0 {
        children_fit(c, fns, parent, v.drop_last());
        child_fit(c, fns, parent, v.last());
        c.lemma_fit_add(
            children_hits(c, fns, parent, v.drop_last()),
            child_hits(c, fns, parent, v.last()),
        );
    }
}

proof fn child_fit(c: JsxScanView, fns: LocalFns, parent: Option<Seq<char>>, child: JsxChild)
    ensures
        c.all_fit(child_hits(c, fns, parent, child)),
    decreases fns.len(), child, 0nat,
{
    match child {
        JsxChild::Element(el) => {
            element_fit(c, fns, parent, *el);
        },
        JsxChild::Fragment(v) => {
            children_fit(c, fns, parent, v@);
        },
        JsxChild::Container(k) => {
            container_fit(c, fns, parent, k);
        },
        JsxChild::Other => {},
    }
}

proof fn jsx_expression_fit(c: JsxScanView, fns: LocalFns, parent: Option<Seq<char>>, e: Expression)
    ensures
        c.all_fit(jsx_expression_hits(c, fns, parent, e)),
    decreases fns.len(), e, 1nat,
{
    called_fit(c, fns, parent, e);
    expression_fit(c, fns, parent, e);
    c.lemma_fit_add(called_hits(c, fns, parent, e), expression_hits(c, fns, parent, e));
}

proof fn called_fit(c: JsxScanView, fns: LocalFns, parent: Option<Seq<char>>, e: Expression)
    ensures
        c.all_fit(called_hits(c, fns, parent, e)),
    decreases fns.len(), e, 0nat,
{
    if let Some(k) = called_fn(fns, e) {
        if 0 <= k < fns.len() {
            if let Some(body) = fns[k].1.body {
                statements_fit(c, fns.remove(k), parent, body@);
            }
        }
    }
}

proof fn arguments_fit(c: JsxScanView, fns: LocalFns, parent: Option<Seq<char>>, v: Seq<Argument>)
    ensures
        c.all_fit(arguments_hits(c, fns, parent, v)),
    decreases fns.len(), v, 0nat,
{
    if v.len() > 0 {
        arguments_fit(c, fns, parent, v.drop_last());
        argument_fit(c, fns, parent, v.last());
        c.lemma_fit_add(
            arguments_hits(c, fns, parent, v.drop_last()),
            argument_hits(c, fns, parent, v.last()),
        );
    }
}

proof fn argument_fit(c: JsxScanView, fns: LocalFns, parent: Option<Seq<char>>, a: Argument)
    ensures
        c.all_fit(argument_hits(c, fns, parent, a)),
    decreases fns.len(), a, 0nat,
{
    expression_fit(c, fns, parent, a.expression);
}

proof fn expression_fit(c: JsxScanView, fns: LocalFns, parent: Option<Seq<char>>, e: Expression)
    ensures
        c.all_fit(expression_hits(c, fns, parent, e)),
    decreases fns.len(), e, 0nat,
{
    match e.kind {
        ExpressionKind::JsxElement(el) => {
            element_fit(c, fns, parent, *el);
        },
        ExpressionKind::JsxFragment(v) => {
            children_fit(c, fns, parent, v@);
        },
        ExpressionKind::Parenthesized(x) => {
            expression_fit(c, fns, parent, *x);
        },
        ExpressionKind::Conditional(x) => {
            expression_fit(c, fns, parent, x.consequent);
            expression_fit(c, fns, parent, x.alternate);
            c.lemma_fit_add(
                expression_hits(c, fns, parent, x.consequent),
                expression_hits(c, fns, parent, x.alternate),
            );
        },
        ExpressionKind::Logical(x) => {
            expression_fit(c, fns, parent, x.right);
        },
        ExpressionKind::Arrow(f) => {
            if let Some(body) = f.body {
                statements_fit(c, fns, parent, body@);
            }
        },
        ExpressionKind::Call(x) => {
            arguments_fit(c, fns, parent, x.arguments@);
        },
        ExpressionKind::ChainCall(v) => {
            arguments_fit(c, fns, parent, v@);
        },
        _ => {},
    }
}

proof fn statements_fit(c: JsxScanView, fns: LocalFns, parent: Option<Seq<char>>, v: Seq<Statement>)
    ensures
        c.all_fit(statements_hits(c, fns, parent, v)),
    decreases fns.len(), v, 0nat,
{
    if v.len() > 0 {
        statements_fit(c, fns, parent, v.drop_last());
        statement_fit(c, fns, parent, v.last());
        c.lemma_fit_add(
            statements_hits(c, fns, parent, v.drop_last()),
            statement_hits(c, fns, parent, v.last()),
        );
    }
}

proof fn declarators_fit(c: JsxScanView, fns: LocalFns, parent: Option<Seq<char>>, v: Seq<VariableDeclarator>)
    ensures
        c.all_fit(declarators_hits(c, fns, parent, v)),
    decreases fns.len(), v, 0nat,
{
    if v.len() > 0 {
        declarators_fit(c, fns, parent, v.drop_last());
        declarator_fit(c, fns, parent, v.last());
        c.lemma_fit_add(
            declarators_hits(c, fns, parent, v.drop_last()),
            declarator_hits(c, fns, parent, v.last()),
        );
    }
}

proof fn declarator_fit(c: JsxScanView, fns: LocalFns, parent: Option<Seq<char>>, d: VariableDeclarator)
    ensures
        c.all_fit(declarator_hits(c, fns, parent, d)),
    decreases fns.len(), d, 0nat,
{
    let typed = if c.wants_props() {
        typed_object_hits(c, d)
    } else {
        Seq::empty()
    };
    let inner = match d.init {
        Some(e) => expression_hits(c, fns, parent, e),
        None => Seq::empty(),
    };
    if c.wants_props() {
        typed_object_hits_fit(c, d);
    }
    if let Some(e) = d.init {
        expression_fit(c, fns, parent, e);
    }
    c.lemma_fit_add(typed, inner);
}

proof fn declaration_fit(c: JsxScanView, fns: LocalFns, parent: Option<Seq<char>>, d: Declaration)
    ensures
        c.all_fit(declaration_hits(c, fns, parent, d)),
    decreases fns.len(), d, 0nat,
{
    match d {
        Declaration::Function(f) => {
            if let Some(body) = f.body {
                statements_fit(c, fns, parent, body@);
            }
        },
        Declaration::Variable(v) => {
            declarators_fit(c, fns, parent, v@);
        },
        _ => {},
    }
}

proof fn statement_fit(c: JsxScanView, fns: LocalFns, parent: Option<Seq<char>>, s: Statement)
    ensures
        c.all_fit(statement_hits(c, fns, parent, s)),
    decreases fns.len(), s, 0nat,
{
    match s {
        Statement::ExportDefaultFunction(f) => {
            if let Some(body) = f.body {
                statements_fit(c, fns, parent, body@);
            }
        },
        Statement::ExportNamed(x) => {
            if let Some(d) = x.declaration {
                declaration_fit(c, fns, parent, d);
            }
        },
        Statement::Declaration(d) => {
            declaration_fit(c, fns, parent, d);
        },
        Statement::Return(Some(e)) => {
            expression_fit(c, fns, parent, e);
        },
        Statement::Expression(e) => {
            expression_fit(c, fns, parent, e);
        },
        Statement::Block(v) => {
            statements_fit(c, fns, parent, v@);
        },
        Statement::If(x) => {
            statement_fit(c, fns, parent, x.consequent);
            if let Some(a) = x.alternate {
                statement_fit(c, fns, parent, a);
                c.lemma_fit_add(
                    statement_hits(c, fns, parent, x.consequent),
                    statement_hits(c, fns, parent, a),
                );
            } else {
                c.lemma_fit_add(statement_hits(c, fns, parent, x.consequent), Seq::empty());
            }
        },
        _ => {},
    }
}

// ── Everything that is rendered is found ────────────────────────────────

/// A node in the course of a scan: with the local functions that can be called there, and
/// the element around it.
pub ghost struct Place {
    pub fns: LocalFns,
    pub parent: Option<Seq<char>>,
    pub node: Node,
}

/// What an expression directly renders: itself an element, either branch of a condition,
/// the right side of a logical operator, what a function returns, and arguments.
pub open spec fn rendered_by(e: Expression, b: Node) -> bool {
    match e.kind {
        ExpressionKind::JsxElement(el) => b == Node::Element(*el),
        ExpressionKind::JsxFragment(v) => b matches Node::Child(x) && v@.contains(x),
        ExpressionKind::Parenthesized(x) => b == Node::Expression(*x),
        ExpressionKind::Conditional(x) => b == Node::Expression(x.consequent) || b
            == Node::Expression(x.alternate),
        ExpressionKind::Logical(x) => b == Node::Expression(x.right),
        ExpressionKind::Arrow(f) => in_body(*f, b),
        ExpressionKind::Call(x) => in_arguments(x.arguments@, b, true),
        ExpressionKind::ChainCall(v) => in_arguments(v@, b, true),
        _ => false,
    }
}

/// Whether a node directly holds another one that can be rendered.
pub open spec fn renders(a: Node, b: Node) -> bool {
    match a {
        Node::Statement(s) => in_statement(s, b, true),
        Node::Declaration(d) => in_declaration(d, b),
        Node::Expression(e) => rendered_by(e, b),
        Node::Braced(e) => b == Node::Expression(e),
        Node::Element(el) => in_element(el, b),
        Node::Attribute(a) => in_attribute(a, b),
        Node::Child(child) => in_child(child, b, true),
        _ => false,
    }
}

/// The local function that an expression calls by its name, and where it stands.
pub open spec fn calls_local(fns: LocalFns, e: Expression, k: int) -> bool {
    &&& 0 <= k < fns.len()
    &&& e.kind matches ExpressionKind::Call(call)
    &&& call.callee.kind matches ExpressionKind::Identifier(n)
    &&& fns[k].0 == n@
    &&& forall|j: int| 0 <= j < k ==> (#[trigger] fns[j]).0 != n@
}

/// Whether a scan comes from one place directly to another. In an element the element is
/// the parent. A call in braces of a local function leads into the body of that function,
/// which is not called again from there.
pub open spec fn leads_to(p: Place, q: Place) -> bool {
    ||| {
        &&& q.fns == p.fns
        &&& q.parent == match p.node {
            Node::Element(el) => Some(element_name(el.name)),
            _ => p.parent,
        }
        &&& renders(p.node, q.node)
    }
    ||| {
        &&& q.parent == p.parent
        &&& p.node matches Node::Braced(e)
        &&& exists|k: int| #[trigger]
            calls_local(p.fns, e, k) && in_body(p.fns[k].1, q.node) && q.fns == p.fns.remove(k)
    }
}

/// Whether each place leads to the next one.
pub open spec fn is_chain(path: Seq<Place>) -> bool {
    path.len() > 0 && forall|i: int| 0 <= i < path.len() - 1 ==> #[trigger] steps(path, i)
}

pub open spec fn steps(path: Seq<Place>, i: int) -> bool {
    leads_to(path[i], path[i + 1])
}

spec fn place_hits(c: JsxScanView, p: Place) -> Seq<IncidentView> {
    match p.node {
        Node::Statement(s) => statement_hits(c, p.fns, p.parent, s),
        Node::Declaration(d) => declaration_hits(c, p.fns, p.parent, d),
        Node::Expression(e) => expression_hits(c, p.fns, p.parent, e),
        Node::Braced(e) => jsx_expression_hits(c, p.fns, p.parent, e),
        Node::Element(el) => element_hits(c, p.fns, p.parent, el),
        Node::Attribute(a) => attribute_hits(c, p.fns, p.parent, a),
        Node::Child(child) => child_hits(c, p.fns, p.parent, child),
        _ => Seq::empty(),
    }
}

proof fn lemma_statement_among(c: JsxScanView, fns: LocalFns, parent: Option<Seq<char>>, v: Seq<Statement>, i: int)
    requires
        0 <= i < v.len(),
    ensures
        all_among(statement_hits(c, fns, parent, v[i]), statements_hits(c, fns, parent, v)),
    decreases v.len(),
{
    let before = statements_hits(c, fns, parent, v.drop_last());
    let last = statement_hits(c, fns, parent, v.last());
    lemma_among_joined(before, last);
    if i < v.len() - 1 {
        lemma_statement_among(c, fns, parent, v.drop_last(), i);
        assert(v.drop_last()[i] == v[i]);
        lemma_among_more(statement_hits(c, fns, parent, v[i]), before, before + last);
    }
}

proof fn lemma_declarator_among(c: JsxScanView, fns: LocalFns, parent: Option<Seq<char>>, v: Seq<VariableDeclarator>, i: int)
    requires
        0 <= i < v.len(),
    ensures
        all_among(declarator_hits(c, fns, parent, v[i]), declarators_hits(c, fns, parent, v)),
    decreases v.len(),
{
    let before = declarators_hits(c, fns, parent, v.drop_last());
    let last = declarator_hits(c, fns, parent, v.last());
    lemma_among_joined(before, last);
    if i < v.len() - 1 {
        lemma_declarator_among(c, fns, parent, v.drop_last(), i);
        assert(v.drop_last()[i] == v[i]);
        lemma_among_more(declarator_hits(c, fns, parent, v[i]), before, before + last);
    }
}

proof fn lemma_argument_among(c: JsxScanView, fns: LocalFns, parent: Option<Seq<char>>, v: Seq<Argument>, i: int)
    requires
        0 <= i < v.len(),
    ensures
        all_among(argument_hits(c, fns, parent, v[i]), arguments_hits(c, fns, parent, v)),
    decreases v.len(),
{
    let before = arguments_hits(c, fns, parent, v.drop_last());
    let last = argument_hits(c, fns, parent, v.last());
    lemma_among_joined(before, last);
    if i < v.len() - 1 {
        lemma_argument_among(c, fns, parent, v.drop_last(), i);
        assert(v.drop_last()[i] == v[i]);
        lemma_among_more(argument_hits(c, fns, parent, v[i]), before, before + last);
    }
}

proof fn lemma_attribute_among(c: JsxScanView, fns: LocalFns, parent: Option<Seq<char>>, v: Seq<JsxAttributeItem>, i: int)
    requires
        0 <= i < v.len(),
    ensures
        all_among(attribute_hits(c, fns, parent, v[i]), attributes_hits(c, fns, parent, v)),
    decreases v.len(),
{
    let before = attributes_hits(c, fns, parent, v.drop_last());
    let last = attribute_hits(c, fns, parent, v.last());
    lemma_among_joined(before, last);
    if i < v.len() - 1 {
        lemma_attribute_among(c, fns, parent, v.drop_last(), i);
        assert(v.drop_last()[i] == v[i]);
        lemma_among_more(attribute_hits(c, fns, parent, v[i]), before, before + last);
    }
}

proof fn lemma_child_among(c: JsxScanView, fns: LocalFns, parent: Option<Seq<char>>, v: Seq<JsxChild>, i: int)
    requires
        0 <= i < v.len(),
    ensures
        all_among(child_hits(c, fns, parent, v[i]), children_hits(c, fns, parent, v)),
    decreases v.len(),
{
    let before = children_hits(c, fns, parent, v.drop_last());
    let last = child_hits(c, fns, parent, v.last());
    lemma_among_joined(before, last);
    if i < v.len() - 1 {
        lemma_child_among(c, fns, parent, v.drop_last(), i);
        assert(v.drop_last()[i] == v[i]);
        lemma_among_more(child_hits(c, fns, parent, v[i]), before, before + last);
    }
}

proof fn lemma_body_among(
    c: JsxScanView,
    fns: LocalFns,
    parent: Option<Seq<char>>,
    f: Function,
    b: Node,
)
    requires
        in_body(f, b),
    ensures
        f.body matches Some(body) && all_among(
            place_hits(c, (Place { fns, parent, node: b })),
            statements_hits(c, fns, parent, body@),
        ),
{
    let body = f.body->0;
    let s = b->Statement_0;
    let i = choose|i: int| 0 <= i < body@.len() && body@[i] == s;
    lemma_statement_among(c, fns, parent, body@, i);
}

proof fn lemma_step_statement(
    c: JsxScanView,
    fns: LocalFns,
    parent: Option<Seq<char>>,
    s: Statement,
    b: Node,
)
    requires
        in_statement(s, b, true),
    ensures
        all_among(
            place_hits(c, (Place { fns, parent, node: b })),
            statement_hits(c, fns, parent, s),
        ),
{
    match s {
        Statement::ExportDefaultFunction(f) => {
            lemma_body_among(c, fns, parent, f, b);
        },
        Statement::Block(v) => {
            let i = choose|i: int| 0 <= i < v@.len() && v@[i] == b->Statement_0;
            lemma_statement_among(c, fns, parent, v@, i);
        },
        Statement::If(x) => {
            lemma_among_joined(
                statement_hits(c, fns, parent, x.consequent),
                match x.alternate {
                    Some(a) => statement_hits(c, fns, parent, a),
                    None => Seq::empty(),
                },
            );
        },
        _ => {
            lemma_among_itself(place_hits(c, Place { fns, parent, node: b }));
        },
    }
}

proof fn lemma_step_declaration(
    c: JsxScanView,
    fns: LocalFns,
    parent: Option<Seq<char>>,
    d: Declaration,
    b: Node,
)
    requires
        in_declaration(d, b),
    ensures
        all_among(
            place_hits(c, (Place { fns, parent, node: b })),
            declaration_hits(c, fns, parent, d),
        ),
{
    match d {
        Declaration::Function(f) => {
            lemma_body_among(c, fns, parent, f, b);
        },
        Declaration::Variable(v) => {
            let i = choose|i: int|
                0 <= i < v@.len() && (#[trigger] v@[i]).init == Some(b->Expression_0);
            lemma_declarator_among(c, fns, parent, v@, i);
            let typed = if c.wants_props() {
                typed_object_hits(c, v@[i])
            } else {
                Seq::empty()
            };
            let inner = expression_hits(c, fns, parent, b->Expression_0);
            lemma_among_joined(typed, inner);
            lemma_among_more(
                inner,
                declarator_hits(c, fns, parent, v@[i]),
                declaration_hits(c, fns, parent, d),
            );
        },
        _ => {},
    }
}

proof fn lemma_step_arguments(
    c: JsxScanView,
    fns: LocalFns,
    parent: Option<Seq<char>>,
    v: Seq<Argument>,
    b: Node,
)
    requires
        in_arguments(v, b, true),
    ensures
        all_among(
            place_hits(c, (Place { fns, parent, node: b })),
            arguments_hits(c, fns, parent, v),
        ),
{
    let i = choose|i: int|
        0 <= i < v.len() && (true || !(#[trigger] v[i]).spread) && b == Node::Expression(
            v[i].expression,
        );
    lemma_argument_among(c, fns, parent, v, i);
}

proof fn lemma_step_expression(
    c: JsxScanView,
    fns: LocalFns,
    parent: Option<Seq<char>>,
    e: Expression,
    b: Node,
)
    requires
        rendered_by(e, b),
    ensures
        all_among(
            place_hits(c, (Place { fns, parent, node: b })),
            expression_hits(c, fns, parent, e),
        ),
{
    lemma_among_itself(place_hits(c, Place { fns, parent, node: b }));
    match e.kind {
        ExpressionKind::JsxFragment(v) => {
            let i = choose|i: int| 0 <= i < v@.len() && v@[i] == b->Child_0;
            lemma_child_among(c, fns, parent, v@, i);
        },
        ExpressionKind::Conditional(x) => {
            lemma_among_joined(
                expression_hits(c, fns, parent, x.consequent),
                expression_hits(c, fns, parent, x.alternate),
            );
        },
        ExpressionKind::Arrow(f) => {
            lemma_body_among(c, fns, parent, *f, b);
        },
        ExpressionKind::Call(x) => {
            lemma_step_arguments(c, fns, parent, x.arguments@, b);
        },
        ExpressionKind::ChainCall(v) => {
            lemma_step_arguments(c, fns, parent, v@, b);
        },
        _ => {},
    }
}

proof fn lemma_step_element(
    c: JsxScanView,
    fns: LocalFns,
    parent: Option<Seq<char>>,
    el: JsxElement,
    b: Node,
)
    requires
        in_element(el, b),
    ensures
        all_among(
            place_hits(c, (Place { fns, parent: Some(element_name(el.name)), node: b })),
            element_hits(c, fns, parent, el),
        ),
{
    let inside = Some(element_name(el.name));
    let q = Place { fns, parent: inside, node: b };
    let own = own_hits(c, parent, el);
    let attributes = attributes_hits(c, fns, inside, el.attributes@);
    let children = children_hits(c, fns, inside, el.children@);
    lemma_among_joined(own, attributes);
    lemma_among_joined(own + attributes, children);
    match b {
        Node::Attribute(x) => {
            let i = choose|i: int| 0 <= i < el.attributes@.len() && el.attributes@[i] == x;
            lemma_attribute_among(c, fns, inside, el.attributes@, i);
            lemma_among_more(place_hits(c, q), attributes, own + attributes);
            lemma_among_more(place_hits(c, q), own + attributes, own + attributes + children);
        },
        Node::Child(x) => {
            let i = choose|i: int| 0 <= i < el.children@.len() && el.children@[i] == x;
            lemma_child_among(c, fns, inside, el.children@, i);
            lemma_among_more(place_hits(c, q), children, own + attributes + children);
        },
        _ => {},
    }
}

proof fn lemma_local_fn(fns: LocalFns, name: Seq<char>, i: int, k: int)
    requires
        0 <= i <= k < fns.len(),
        fns[k].0 == name,
        forall|j: int| i <= j < k ==> (#[trigger] fns[j]).0 != name,
    ensures
        local_fn_from(fns, name, i) == Some(k),
    decreases k - i,
{
    if i < k {
        assert(fns[i].0 != name);
        lemma_local_fn(fns, name, i + 1, k);
    }
}

proof fn lemma_step(c: JsxScanView, p: Place, q: Place)
    requires
        leads_to(p, q),
    ensures
        all_among(place_hits(c, q), place_hits(c, p)),
{
    lemma_among_itself(place_hits(c, q));
    if q.fns == p.fns && renders(p.node, q.node) && q.parent == (match p.node {
        Node::Element(el) => Some(element_name(el.name)),
        _ => p.parent,
    }) {
        match p.node {
            Node::Statement(s) => {
                lemma_step_statement(c, p.fns, p.parent, s, q.node);
            },
            Node::Declaration(d) => {
                lemma_step_declaration(c, p.fns, p.parent, d, q.node);
            },
            Node::Expression(e) => {
                lemma_step_expression(c, p.fns, p.parent, e, q.node);
            },
            Node::Braced(e) => {
                lemma_among_joined(
                    called_hits(c, p.fns, p.parent, e),
                    expression_hits(c, p.fns, p.parent, e),
                );
            },
            Node::Element(el) => {
                lemma_step_element(c, p.fns, p.parent, el, q.node);
            },
            Node::Child(JsxChild::Fragment(v)) => {
                let i = choose|i: int| 0 <= i < v@.len() && v@[i] == q.node->Child_0;
                lemma_child_among(c, p.fns, p.parent, v@, i);
            },
            _ => {},
        }
    } else {
        let e = p.node->Braced_0;
        let k = choose|k: int| #[trigger]
            calls_local(p.fns, e, k) && in_body(p.fns[k].1, q.node) && q.fns == p.fns.remove(k);
        lemma_local_fn(p.fns, p.fns[k].0, 0, k);
        lemma_body_among(c, q.fns, p.parent, p.fns[k].1, q.node);
        let called = called_hits(c, p.fns, p.parent, e);
        lemma_among_joined(called, expression_hits(c, p.fns, p.parent, e));
        lemma_among_more(place_hits(c, q), called, place_hits(c, p));
    }
}

proof fn lemma_chain(c: JsxScanView, path: Seq<Place>)
    requires
        is_chain(path),
    ensures
        all_among(place_hits(c, path.last()), place_hits(c, path[0])),
    decreases path.len(),
{
    if path.len() > 1 {
        let rest = path.skip(1);
        assert forall|i: int| 0 <= i < rest.len() - 1 implies #[trigger] steps(rest, i) by {
            assert(steps(path, i + 1));
            assert(rest[i] == path[i + 1] && rest[i + 1] == path[i + 2]);
        }
        lemma_chain(c, rest);
        assert(steps(path, 0));
        assert(rest.last() == path.last() && rest[0] == path[1]);
        lemma_step(c, path[0], path[1]);
        lemma_among_more(
            place_hits(c, path.last()),
            place_hits(c, path[1]),
            place_hits(c, path[0]),
        );
    } else {
        lemma_among_itself(place_hits(c, path[0]));
    }
}

/// Whether a scan of statements comes along some places, from one of the statements on.
pub open spec fn begins_in(
    path: Seq<Place>,
    fns: LocalFns,
    parent: Option<Seq<char>>,
    stmts: Seq<Statement>,
) -> bool {
    &&& is_chain(path)
    &&& path[0].fns == fns
    &&& path[0].parent == parent
    &&& path[0].node matches Node::Statement(s) && stmts.contains(s)
}

proof fn lemma_found(
    c: JsxScanView,
    path: Seq<Place>,
    fns: LocalFns,
    parent: Option<Seq<char>>,
    stmts: Seq<Statement>,
)
    requires
        begins_in(path, fns, parent, stmts),
    ensures
        all_among(place_hits(c, path.last()), statements_hits(c, fns, parent, stmts)),
{
    let s = path[0].node->Statement_0;
    let i = choose|i: int| 0 <= i < stmts.len() && stmts[i] == s;
    lemma_chain(c, path);
    lemma_statement_among(c, fns, parent, stmts, i);
    lemma_among_more(
        place_hits(c, path.last()),
        place_hits(c, path[0]),
        statements_hits(c, fns, parent, stmts),
    );
}

/// Whether an incident names the module that a name is imported from, if it is, under
/// `key`.
pub open spec fn names_module(
    c: JsxScanView,
    i: IncidentView,
    key: Seq<char>,
    name: Seq<char>,
) -> bool {
    text_variable(i.variables, key) == if c.imports.dom().contains(name) {
        Some(c.imports[name])
    } else {
        None
    }
}

/// Whether an incident is that of an element: it lies at the name of the element and
/// tells the name, the module that it comes from, and the same of the parent.
pub open spec fn is_of_element(
    c: JsxScanView,
    i: IncidentView,
    parent: Option<Seq<char>>,
    el: JsxElement,
) -> bool {
    &&& lies_at(i, c.source, c.file_uri, el.name_span.start, el.name_span.end)
    &&& text_variable(i.variables, "componentName"@) == Some(element_name(el.name))
    &&& names_module(c, i, "module"@, element_name(el.name))
    &&& text_variable(i.variables, "parentName"@) == parent
    &&& parent matches Some(p) ==> names_module(c, i, "parentFrom"@, p)
}

proof fn lemma_more_variable_names()
    ensures
        "module"@ != "parentName"@,
        "module"@ != "parentFrom"@,
        "module"@ != "propValue"@,
        "module"@ != "propObjectValues"@,
        "parentName"@ != "parentFrom"@,
        "propValue"@ != "propObjectValues"@,
{
    reveal_strlit("module");
    reveal_strlit("parentName");
    reveal_strlit("parentFrom");
    reveal_strlit("propValue");
    reveal_strlit("propObjectValues");
    assert("module"@.len() == 6);
    assert("propValue"@.len() == 9);
    assert("propObjectValues"@.len() == 16);
    assert("parentName"@.len() == 10);
    assert("parentFrom"@.len() == 10);
    assert("parentName"@[6] == 'N');
    assert("parentFrom"@[6] == 'F');
}

/// Every element whose name matches is found, where components are searched: wherever it
/// is rendered, in branches, behind logical operators, in attributes, in callbacks, or in
/// a local function that is called in braces. Its incident tells the element around it.
pub proof fn every_element_is_found(
    c: JsxScanView,
    path: Seq<Place>,
    fns: LocalFns,
    stmts: Seq<Statement>,
    el: JsxElement,
)
    requires
        begins_in(path, fns, None, stmts),
        path.last().node == Node::Element(el),
        c.location is None || c.location == Some(ReferenceLocation::JsxComponent),
        regex_is_match(c.pattern, element_name(el.name)),
    ensures
        exists|k: int|
            0 <= k < statements_hits(c, fns, None, stmts).len() && is_of_element(
                c,
                #[trigger] statements_hits(c, fns, None, stmts)[k],
                path.last().parent,
                el,
            ),
{
    let last = path.last();
    let all = statements_hits(c, fns, None, stmts);
    let inside = Some(element_name(el.name));
    let own = own_hits(c, last.parent, el);
    let attributes = attributes_hits(c, last.fns, inside, el.attributes@);
    let children = children_hits(c, last.fns, inside, el.children@);
    lemma_found(c, path, fns, None, stmts);
    assert(place_hits(c, last) == own + attributes + children);
    let i = component_incident(c, last.parent, el);
    assert(own[0] == i);
    assert((own + attributes + children)[0] == i);
    assert(all.contains(place_hits(c, last)[0]));
    let k = choose|k: int| 0 <= k < all.len() && all[k] == i;
    lemma_variable_names();
    lemma_more_variable_names();
    assert(is_of_element(c, all[k], last.parent, el));
}

proof fn lemma_own_found(
    c: JsxScanView,
    path: Seq<Place>,
    fns: LocalFns,
    stmts: Seq<Statement>,
    el: JsxElement,
    i: IncidentView,
)
    requires
        begins_in(path, fns, None, stmts),
        path.last().node == Node::Element(el),
        c.wants_props(),
        prop_hits(c, element_name(el.name), el.attributes@).contains(i) || nested_key_hits(
            c,
            element_name(el.name),
            el.attributes@,
        ).contains(i),
    ensures
        statements_hits(c, fns, None, stmts).contains(i),
{
    let last = path.last();
    let all = statements_hits(c, fns, None, stmts);
    let name = element_name(el.name);
    let inside = Some(name);
    let props = prop_hits(c, name, el.attributes@);
    let keys = nested_key_hits(c, name, el.attributes@);
    let own = own_hits(c, last.parent, el);
    let component: Seq<IncidentView> = if c.wants_components() && c.matches(name) {
        seq![component_incident(c, last.parent, el)]
    } else {
        Seq::empty()
    };
    let attributes = attributes_hits(c, last.fns, inside, el.attributes@);
    let children = children_hits(c, last.fns, inside, el.children@);
    lemma_found(c, path, fns, None, stmts);
    lemma_among_joined(props, keys);
    lemma_among_joined(component, props + keys);
    lemma_among_joined(own, attributes);
    lemma_among_joined(own + attributes, children);
    assert(own == component + (props + keys));
    assert(place_hits(c, last) == own + attributes + children);
    if props.contains(i) {
        lemma_contained(props, props + keys, i);
    } else {
        lemma_contained(keys, props + keys, i);
    }
    lemma_contained(props + keys, own, i);
    lemma_contained(own, own + attributes, i);
    lemma_contained(own + attributes, place_hits(c, last), i);
    lemma_contained(place_hits(c, last), all, i);
}

proof fn lemma_prop_among(
    c: JsxScanView,
    component: Seq<char>,
    v: Seq<JsxAttributeItem>,
    i: int,
    a: JsxAttribute,
    name: Seq<char>,
)
    requires
        0 <= i < v.len(),
        v[i] == JsxAttributeItem::Attribute(a),
        a.name matches Some(n) && n@ == name,
        c.matches(name),
    ensures
        prop_hits(c, component, v).contains(prop_incident(c, component, name, a)),
    decreases v.len(),
{
    let before = prop_hits(c, component, v.drop_last());
    let after = prop_hits(c, component, v);
    let x = prop_incident(c, component, name, a);
    if i < v.len() - 1 {
        assert(v.drop_last()[i] == v[i]);
        lemma_prop_among(c, component, v.drop_last(), i, a, name);
        let k = choose|k: int| 0 <= k < before.len() && before[k] == x;
        assert(after[k] == x);
    } else {
        assert(after[after.len() - 1] == x);
    }
}

/// Whether an incident is that of a prop of an element: it lies at the name of the prop
/// and tells it, the element and its module, and the value.
pub open spec fn is_of_prop(
    c: JsxScanView,
    i: IncidentView,
    el: JsxElement,
    a: JsxAttribute,
    name: Seq<char>,
) -> bool {
    &&& lies_at(i, c.source, c.file_uri, a.name_span.start, a.name_span.end)
    &&& text_variable(i.variables, "propName"@) == Some(name)
    &&& text_variable(i.variables, "componentName"@) == Some(element_name(el.name))
    &&& names_module(c, i, "module"@, element_name(el.name))
    &&& match a.value {
        Some(JsxAttributeValue::Str(_, t)) => text_variable(i.variables, "propValue"@) == Some(t@),
        Some(JsxAttributeValue::Container(k)) => {
            &&& text_variable(i.variables, "propValue"@) == Some(container_text(c.source, k.span))
            &&& k.expression matches Some(e) ==> forall|t: Seq<char>| #[trigger]
                gives_in_braces(e, t) ==> lists_value(i, t)
        },
        _ => text_variable(i.variables, "propValue"@) is None,
    }
}

/// Whether an incident lists a string among those of a prop's value.
pub open spec fn lists_value(i: IncidentView, t: Seq<char>) -> bool {
    &&& i.variables.dom().contains("propObjectValues"@)
    &&& i.variables["propObjectValues"@] matches JsonView::Array(v) && v.contains(
        JsonView::Str(t),
    )
}

/// Whether an object holds a string, directly or one object deeper.
pub open spec fn holds_string(v: Seq<ObjectMember>, t: Seq<char>, deeper: bool) -> bool {
    exists|k: int|
        0 <= k < v.len() && (#[trigger] v[k] matches ObjectMember::Property(p)
            && match p.value.kind {
            ExpressionKind::StringLiteral(s) => s@ == t,
            ExpressionKind::Object(inner) => deeper && holds_string_directly(inner@, t),
            _ => false,
        })
}

pub open spec fn holds_string_directly(v: Seq<ObjectMember>, t: Seq<char>) -> bool {
    exists|k: int|
        0 <= k < v.len() && (#[trigger] v[k] matches ObjectMember::Property(p)
            && p.value.kind matches ExpressionKind::StringLiteral(s) && s@ == t)
}

/// Whether an expression can give a string, or an object that holds it.
pub open spec fn gives(e: Expression, t: Seq<char>) -> bool
    decreases e,
{
    match e.kind {
        ExpressionKind::Object(v) => holds_string(v@, t, true),
        ExpressionKind::Parenthesized(x) => gives(*x, t),
        ExpressionKind::Conditional(x) => gives(x.consequent, t) || gives(x.alternate, t),
        ExpressionKind::StringLiteral(s) => s@ == t,
        _ => false,
    }
}

/// The same, without a plain string.
pub open spec fn gives_in_braces(e: Expression, t: Seq<char>) -> bool {
    !(e.kind is StringLiteral) && gives(e, t)
}

proof fn lemma_member_strings(v: Seq<ObjectMember>, t: Seq<char>)
    requires
        holds_string_directly(v, t),
    ensures
        member_strings(v).contains(t),
    decreases v.len(),
{
    let k = choose|k: int|
        0 <= k < v.len() && (#[trigger] v[k] matches ObjectMember::Property(p)
            && p.value.kind matches ExpressionKind::StringLiteral(s) && s@ == t);
    let before = member_strings(v.drop_last());
    let after = member_strings(v);
    if k < v.len() - 1 {
        assert(v.drop_last()[k] == v[k]);
        lemma_member_strings(v.drop_last(), t);
        let x = choose|x: int| 0 <= x < before.len() && before[x] == t;
        assert(after[x] == t);
    } else {
        assert(after[after.len() - 1] == t);
    }
}

proof fn lemma_object_strings(v: Seq<ObjectMember>, t: Seq<char>)
    requires
        holds_string(v, t, true),
    ensures
        object_strings(v).contains(t),
    decreases v.len(),
{
    let k = choose|k: int|
        0 <= k < v.len() && (#[trigger] v[k] matches ObjectMember::Property(p)
            && match p.value.kind {
            ExpressionKind::StringLiteral(s) => s@ == t,
            ExpressionKind::Object(inner) => true && holds_string_directly(inner@, t),
            _ => false,
        });
    let before = object_strings(v.drop_last());
    let after = object_strings(v);
    if k < v.len() - 1 {
        assert(v.drop_last()[k] == v[k]);
        lemma_object_strings(v.drop_last(), t);
        let x = choose|x: int| 0 <= x < before.len() && before[x] == t;
        assert(after[x] == t);
    } else {
        let p = v[k]->Property_0;
        if let ExpressionKind::Object(inner) = p.value.kind {
            lemma_member_strings(inner@, t);
            let more = member_strings(inner@);
            let x = choose|x: int| 0 <= x < more.len() && more[x] == t;
            assert(after[before.len() + x] == t);
        } else {
            assert(after[after.len() - 1] == t);
        }
    }
}

proof fn lemma_strings(e: Expression, t: Seq<char>)
    requires
        gives(e, t),
    ensures
        expression_strings(e).contains(t),
    decreases e,
{
    match e.kind {
        ExpressionKind::Object(v) => {
            lemma_object_strings(v@, t);
        },
        ExpressionKind::Parenthesized(x) => {
            lemma_strings(*x, t);
        },
        ExpressionKind::Conditional(x) => {
            let a = expression_strings(x.consequent);
            let b = expression_strings(x.alternate);
            if gives(x.consequent, t) {
                lemma_strings(x.consequent, t);
                let k = choose|k: int| 0 <= k < a.len() && a[k] == t;
                assert((a + b)[k] == t);
            } else {
                lemma_strings(x.alternate, t);
                let k = choose|k: int| 0 <= k < b.len() && b[k] == t;
                assert((a + b)[a.len() + k] == t);
            }
        },
        ExpressionKind::StringLiteral(s) => {
            assert(expression_strings(e)[0] == t);
        },
        _ => {},
    }
}

proof fn lemma_prop_incident(c: JsxScanView, el: JsxElement, a: JsxAttribute, name: Seq<char>)
    ensures
        is_of_prop(c, prop_incident(c, element_name(el.name), name, a), el, a, name),
{
    lemma_variable_names();
    lemma_more_variable_names();
    let i = prop_incident(c, element_name(el.name), name, a);
    if let Some(JsxAttributeValue::Container(k)) = a.value {
        if let Some(e) = k.expression {
            assert forall|t: Seq<char>| #[trigger] gives_in_braces(e, t) implies lists_value(
                i,
                t,
            ) by {
                lemma_strings(e, t);
                let v = expression_strings(e);
                let x = choose|x: int| 0 <= x < v.len() && v[x] == t;
                let listed = json_texts(v)->Array_0;
                assert(listed[x] == JsonView::Str(t));
                assert(i.variables["propObjectValues"@] == json_texts(v));
            }
        }
    }
}

/// Every prop whose name matches is found, where props are searched, on every element
/// that is rendered. Its incident tells the value, and the strings in it.
pub proof fn every_prop_is_found(
    c: JsxScanView,
    path: Seq<Place>,
    fns: LocalFns,
    stmts: Seq<Statement>,
    el: JsxElement,
    a: JsxAttribute,
    name: Seq<char>,
)
    requires
        begins_in(path, fns, None, stmts),
        path.last().node == Node::Element(el),
        c.location is None || c.location == Some(ReferenceLocation::JsxProp),
        el.attributes@.contains(JsxAttributeItem::Attribute(a)),
        a.name matches Some(n) && n@ == name,
        regex_is_match(c.pattern, name),
    ensures
        exists|k: int|
            0 <= k < statements_hits(c, fns, None, stmts).len() && is_of_prop(
                c,
                #[trigger] statements_hits(c, fns, None, stmts)[k],
                el,
                a,
                name,
            ),
{
    let all = statements_hits(c, fns, None, stmts);
    let x = prop_incident(c, element_name(el.name), name, a);
    let i = choose|i: int|
        0 <= i < el.attributes@.len() && el.attributes@[i] == JsxAttributeItem::Attribute(a);
    lemma_prop_among(c, element_name(el.name), el.attributes@, i, a, name);
    lemma_own_found(c, path, fns, stmts, el, x);
    let k = choose|k: int| 0 <= k < all.len() && all[k] == x;
    lemma_prop_incident(c, el, a, name);
    assert(is_of_prop(c, all[k], el, a, name));
}

proof fn lemma_key_among(
    c: JsxScanView,
    component: Seq<char>,
    v: Seq<ObjectMember>,
    i: int,
    p: ObjectProperty,
    name: Seq<char>,
)
    requires
        0 <= i < v.len(),
        v[i] == ObjectMember::Property(p),
        key_name(p.key) == Some(name),
        c.matches(name),
    ensures
        object_key_hits(c, component, v).contains(object_key_incident(c, component, name, p)),
    decreases v.len(),
{
    let before = object_key_hits(c, component, v.drop_last());
    let after = object_key_hits(c, component, v);
    let x = object_key_incident(c, component, name, p);
    if i < v.len() - 1 {
        assert(v.drop_last()[i] == v[i]);
        lemma_key_among(c, component, v.drop_last(), i, p, name);
        let k = choose|k: int| 0 <= k < before.len() && before[k] == x;
        assert(after[k] == x);
    } else {
        assert(after[after.len() - 1] == x);
    }
}

proof fn lemma_nested_among(
    c: JsxScanView,
    component: Seq<char>,
    v: Seq<JsxAttributeItem>,
    i: int,
    members: Seq<ObjectMember>,
    x: IncidentView,
)
    requires
        0 <= i < v.len(),
        attribute_expression(v[i]) matches Some(e) && object_members(e) == Some(members),
        object_key_hits(c, component, members).contains(x),
    ensures
        nested_key_hits(c, component, v).contains(x),
    decreases v.len(),
{
    let before = nested_key_hits(c, component, v.drop_last());
    let after = nested_key_hits(c, component, v);
    if i < v.len() - 1 {
        assert(v.drop_last()[i] == v[i]);
        lemma_nested_among(c, component, v.drop_last(), i, members, x);
        let k = choose|k: int| 0 <= k < before.len() && before[k] == x;
        assert(after[k] == x);
    } else {
        let more = object_key_hits(c, component, members);
        let k = choose|k: int| 0 <= k < more.len() && more[k] == x;
        assert(after[before.len() + k] == x);
    }
}

/// Whether an incident is that of a key of an object that an element is given.
pub open spec fn is_of_key(
    c: JsxScanView,
    i: IncidentView,
    el: JsxElement,
    p: ObjectProperty,
    name: Seq<char>,
) -> bool {
    &&& lies_at(i, c.source, c.file_uri, p.key_span.start, p.key_span.end)
    &&& text_variable(i.variables, "propName"@) == Some(name)
    &&& text_variable(i.variables, "componentName"@) == Some(element_name(el.name))
    &&& names_module(c, i, "module"@, element_name(el.name))
}

/// Whether an expression is an object with the given members, in one pair of parentheses
/// or none.
pub open spec fn is_object(e: Expression, members: Seq<ObjectMember>) -> bool {
    ||| e.kind matches ExpressionKind::Object(v) && v@ == members
    ||| e.kind matches ExpressionKind::Parenthesized(x) && x.kind matches ExpressionKind::Object(v)
        && v@ == members
}

/// Every key that matches of an object in an attribute is found, where props are
/// searched, on every element that is rendered.
pub proof fn every_key_is_found(
    c: JsxScanView,
    path: Seq<Place>,
    fns: LocalFns,
    stmts: Seq<Statement>,
    el: JsxElement,
    a: JsxAttributeItem,
    e: Expression,
    members: Seq<ObjectMember>,
    p: ObjectProperty,
    name: Seq<char>,
)
    requires
        begins_in(path, fns, None, stmts),
        path.last().node == Node::Element(el),
        c.location is None || c.location == Some(ReferenceLocation::JsxProp),
        el.attributes@.contains(a),
        in_attribute(a, Node::Braced(e)),
        is_object(e, members),
        members.contains(ObjectMember::Property(p)),
        (p.key matches PropertyKey::Static(n) && n@ == name) || (p.key matches PropertyKey::Str(n)
            && n@ == name),
        regex_is_match(c.pattern, name),
    ensures
        exists|k: int|
            0 <= k < statements_hits(c, fns, None, stmts).len() && is_of_key(
                c,
                #[trigger] statements_hits(c, fns, None, stmts)[k],
                el,
                p,
                name,
            ),
{
    let all = statements_hits(c, fns, None, stmts);
    let x = object_key_incident(c, element_name(el.name), name, p);
    let j = choose|j: int| 0 <= j < members.len() && members[j] == ObjectMember::Property(p);
    lemma_key_among(c, element_name(el.name), members, j, p, name);
    let i = choose|i: int| 0 <= i < el.attributes@.len() && el.attributes@[i] == a;
    assert(attribute_expression(a) == Some(e));
    lemma_nested_among(c, element_name(el.name), el.attributes@, i, members, x);
    lemma_own_found(c, path, fns, stmts, el, x);
    let k = choose|k: int| 0 <= k < all.len() && all[k] == x;
    lemma_variable_names();
    lemma_more_variable_names();
    assert(is_of_key(c, all[k], el, p, name));
}

// ── Typed objects are found ─────────────────────────────────────────────

/// Whether a type passes on the props of a component that a module exports: the imported
/// type of its props, a utility type around it, or an intersection in which it is the
/// first such type.
pub open spec fn passes_props(
    source: Seq<char>,
    imports: Map<Seq<char>, Seq<char>>,
    t: TsType,
    component: Seq<char>,
    module: Seq<char>,
) -> bool {
    &&& t matches TsType::Reference(r)
    &&& text_between(source, r.name_span.start as int, r.name_span.end as int) == component
        + "Props"@
    &&& component.len() > 0
    &&& imports.dom().contains(component + "Props"@)
    &&& imports[component + "Props"@] == module
}

proof fn lemma_passes_props(
    source: Seq<char>,
    imports: Map<Seq<char>, Seq<char>>,
    t: TsType,
    component: Seq<char>,
    module: Seq<char>,
)
    requires
        passes_props(source, imports, t, component, module),
    ensures
        props_of_type(source, imports, t) == Some((component, module)),
{
    let name = component + "Props"@;
    let n = name.len() as int;
    let k = "Props"@.len() as int;
    assert(name.subrange(n - k, n) =~= "Props"@);
    assert(name.take(n - k) =~= component);
    assert(strip_suffix(name, "Props"@) == Some(component));
}

/// The props of a component are recognised by the imported type of its props, also where
/// a utility type or an intersection is around it.
pub proof fn props_types_are_recognised(
    source: Seq<char>,
    imports: Map<Seq<char>, Seq<char>>,
    t: TsType,
    component: Seq<char>,
    module: Seq<char>,
    outer: TsType,
    k: int,
)
    requires
        passes_props(source, imports, t, component, module),
    ensures
        props_of_type(source, imports, t) == Some((component, module)),
        outer matches TsType::Intersection(v) && 0 <= k < v@.len() && v@[k] == t && (forall|j: int|
            0 <= j < k ==> props_of_type(source, imports, #[trigger] v@[j]) is None)
            ==> props_of_type(source, imports, outer) == Some((component, module)),
        outer matches TsType::Reference(r) && r.arguments@.len() > 0 && r.arguments@[0] == t && ({
            let name = text_between(source, r.name_span.start as int, r.name_span.end as int);
            name == "Partial"@ || name == "Required"@ || name == "Readonly"@ || name == "Pick"@
                || name == "Omit"@
        }) ==> props_of_type(source, imports, outer) == Some((component, module)),
{
    lemma_passes_props(source, imports, t, component, module);
    if let TsType::Intersection(v) = outer {
        if 0 <= k < v@.len() && v@[k] == t && (forall|j: int|
            0 <= j < k ==> props_of_type(source, imports, #[trigger] v@[j]) is None) {
            lemma_first_props(source, imports, v@, k);
        }
    }
    if let TsType::Reference(r) = outer {
        reveal_strlit("Partial");
        reveal_strlit("Required");
        reveal_strlit("Readonly");
        reveal_strlit("Pick");
        reveal_strlit("Omit");
        reveal_strlit("Props");
        let name = text_between(source, r.name_span.start as int, r.name_span.end as int);
        if name == "Partial"@ || name == "Required"@ || name == "Readonly"@ || name == "Pick"@
            || name == "Omit"@ {
            assert(!ends_with(name, "Props"@)) by {
                let n = name.len() as int;
                if n >= 5 {
                    assert(name.subrange(n - 5, n)[4] == name[n - 1]);
                }
            }
        }
    }
}

proof fn lemma_first_props(
    source: Seq<char>,
    imports: Map<Seq<char>, Seq<char>>,
    v: Seq<TsType>,
    k: int,
)
    requires
        0 <= k < v.len(),
        props_of_type(source, imports, v[k]) is Some,
        forall|j: int| 0 <= j < k ==> props_of_type(source, imports, #[trigger] v[j]) is None,
    ensures
        first_props(source, imports, v) == props_of_type(source, imports, v[k]),
    decreases v.len(),
{
    if k < v.len() - 1 {
        assert(v.drop_last()[k] == v[k]);
        assert forall|j: int| 0 <= j < k implies props_of_type(
            source,
            imports,
            #[trigger] v.drop_last()[j],
        ) is None by {
            assert(v.drop_last()[j] == v[j]);
        }
        lemma_first_props(source, imports, v.drop_last(), k);
    } else {
        lemma_no_props(source, imports, v.drop_last());
    }
}

proof fn lemma_no_props(source: Seq<char>, imports: Map<Seq<char>, Seq<char>>, v: Seq<TsType>)
    requires
        forall|j: int| 0 <= j < v.len() ==> props_of_type(source, imports, #[trigger] v[j]) is None,
    ensures
        first_props(source, imports, v) is None,
    decreases v.len(),
{
    if v.len() > 0 {
        assert forall|j: int| 0 <= j < v.drop_last().len() implies props_of_type(
            source,
            imports,
            #[trigger] v.drop_last()[j],
        ) is None by {
            assert(v.drop_last()[j] == v[j]);
        }
        lemma_no_props(source, imports, v.drop_last());
        assert(props_of_type(source, imports, v[v.len() - 1]) is None);
    }
}

proof fn lemma_typed_among(
    c: JsxScanView,
    component: Seq<char>,
    module: Seq<char>,
    v: Seq<ObjectMember>,
    i: int,
    p: ObjectProperty,
    name: Seq<char>,
)
    requires
        0 <= i < v.len(),
        v[i] == ObjectMember::Property(p),
        key_name(p.key) == Some(name),
        c.matches(name),
    ensures
        typed_member_hits(c, component, module, v).contains(
            typed_property_incident(c, component, module, name, p),
        ),
    decreases v.len(),
{
    let before = typed_member_hits(c, component, module, v.drop_last());
    let after = typed_member_hits(c, component, module, v);
    let x = typed_property_incident(c, component, module, name, p);
    if i < v.len() - 1 {
        assert(v.drop_last()[i] == v[i]);
        lemma_typed_among(c, component, module, v.drop_last(), i, p, name);
        let k = choose|k: int| 0 <= k < before.len() && before[k] == x;
        assert(after[k] == x);
    } else {
        assert(after[after.len() - 1] == x);
    }
}

/// Whether an incident is that of a key of an object with a props type.
pub open spec fn is_of_typed_key(
    c: JsxScanView,
    i: IncidentView,
    component: Seq<char>,
    module: Seq<char>,
    p: ObjectProperty,
    name: Seq<char>,
) -> bool {
    &&& lies_at(i, c.source, c.file_uri, p.key_span.start, p.key_span.end)
    &&& text_variable(i.variables, "propName"@) == Some(name)
    &&& text_variable(i.variables, "componentName"@) == Some(component)
    &&& text_variable(i.variables, "module"@) == Some(module)
    &&& text_variable(i.variables, "propValue"@) == Some(
        match p.value.kind {
            ExpressionKind::StringLiteral(s) => s@,
            _ => node_text(c.source, p.value.span),
        },
    )
    &&& p.value.kind matches ExpressionKind::Object(v) ==> forall|t: Seq<char>| #[trigger]
        holds_string(v@, t, true) ==> lists_value(i, t)
}

/// Every key that matches of an object that is declared with the type of a component's
/// props is found, where props are searched.
pub proof fn every_typed_key_is_found(
    c: JsxScanView,
    path: Seq<Place>,
    fns: LocalFns,
    stmts: Seq<Statement>,
    v: Vec<VariableDeclarator>,
    d: VariableDeclarator,
    component: Seq<char>,
    module: Seq<char>,
    members: Vec<ObjectMember>,
    p: ObjectProperty,
    name: Seq<char>,
)
    requires
        begins_in(path, fns, None, stmts),
        path.last().node == Node::Declaration(Declaration::Variable(v)),
        v@.contains(d),
        c.location is None || c.location == Some(ReferenceLocation::JsxProp),
        d.annotation matches Some(t) && props_of_type(c.source, c.imports, t) == Some(
            (component, module),
        ),
        d.init matches Some(e) && e.kind == ExpressionKind::Object(members),
        members@.contains(ObjectMember::Property(p)),
        (p.key matches PropertyKey::Static(n) && n@ == name) || (p.key matches PropertyKey::Str(n)
            && n@ == name),
        regex_is_match(c.pattern, name),
    ensures
        exists|k: int|
            0 <= k < statements_hits(c, fns, None, stmts).len() && is_of_typed_key(
                c,
                #[trigger] statements_hits(c, fns, None, stmts)[k],
                component,
                module,
                p,
                name,
            ),
{
    let last = path.last();
    let all = statements_hits(c, fns, None, stmts);
    let x = typed_property_incident(c, component, module, name, p);
    let typed = typed_object_hits(c, d);
    let inner = expression_hits(c, last.fns, last.parent, d.init->0);
    let one = declarator_hits(c, last.fns, last.parent, d);
    let every = declarators_hits(c, last.fns, last.parent, v@);
    let j = choose|j: int| 0 <= j < members@.len() && members@[j] == ObjectMember::Property(p);
    lemma_typed_among(c, component, module, members@, j, p, name);
    assert(typed == typed_member_hits(c, component, module, members@));
    let i = choose|i: int| 0 <= i < v@.len() && v@[i] == d;
    lemma_declarator_among(c, last.fns, last.parent, v@, i);
    lemma_among_joined(typed, inner);
    assert(one == typed + inner);
    lemma_among_more(typed, one, every);
    lemma_found(c, path, fns, None, stmts);
    assert(place_hits(c, last) == every);
    lemma_among_more(typed, every, all);
    let y = choose|y: int| 0 <= y < typed.len() && typed[y] == x;
    assert(all.contains(typed[y]));
    let k = choose|k: int| 0 <= k < all.len() && all[k] == x;
    lemma_typed_incident(c, component, module, p, name);
    assert(is_of_typed_key(c, all[k], component, module, p, name));
}

proof fn lemma_typed_incident(
    c: JsxScanView,
    component: Seq<char>,
    module: Seq<char>,
    p: ObjectProperty,
    name: Seq<char>,
)
    ensures
        is_of_typed_key(
            c,
            typed_property_incident(c, component, module, name, p),
            component,
            module,
            p,
            name,
        ),
{
    lemma_variable_names();
    lemma_more_variable_names();
    let i = typed_property_incident(c, component, module, name, p);
    if let ExpressionKind::Object(v) = p.value.kind {
        assert forall|t: Seq<char>| #[trigger] holds_string(v@, t, true) implies lists_value(
            i,
            t,
        ) by {
            lemma_object_strings(v@, t);
            let strings = object_strings(v@);
            let x = choose|x: int| 0 <= x < strings.len() && strings[x] == t;
            let listed = json_texts(strings)->Array_0;
            assert(listed[x] == JsonView::Str(t));
            assert(i.variables["propObjectValues"@] == json_texts(strings));
        }
    }
}

// ── Local functions are known ───────────────────────────────────────────

/// Whether a name is that of a local function.
pub open spec fn is_known(fns: LocalFns, name: Seq<char>) -> bool {
    exists|k: int| 0 <= k < fns.len() && (#[trigger] fns[k]).0 == name
}

/// Whether a variable is set to a function, under a name.
pub open spec fn binds(source: Seq<char>, d: VariableDeclarator, name: Seq<char>, f: Function) -> bool {
    &&& d.init matches Some(e) && (e.kind == ExpressionKind::Arrow(Box::new(f)) || e.kind
        == ExpressionKind::Function(Box::new(f)))
    &&& declared_name(source, d.id_span) == Some(name)
    &&& name.len() > 0
}

/// Whether a declaration gives a function a name.
pub open spec fn names_function(
    source: Seq<char>,
    d: Declaration,
    name: Seq<char>,
    f: Function,
) -> bool {
    match d {
        Declaration::Variable(v) => exists|i: int|
            0 <= i < v@.len() && binds(source, #[trigger] v@[i], name, f),
        Declaration::Function(x) => x.id matches Some(n) && n@ == name && x == f,
        _ => false,
    }
}

/// Whether a statement gives a function a name.
pub open spec fn declares(source: Seq<char>, s: Statement, name: Seq<char>, f: Function) -> bool {
    match s {
        Statement::Declaration(d) => names_function(source, d, name, f),
        Statement::ExportNamed(x) => x.declaration matches Some(d) && names_function(
            source,
            d,
            name,
            f,
        ),
        Statement::ExportDefaultFunction(x) => x.id matches Some(n) && n@ == name && x == f,
        _ => false,
    }
}

proof fn lemma_with_local_fn(fns: LocalFns, name: Seq<char>, f: Function)
    ensures
        is_known(with_local_fn(fns, name, f), name),
        forall|n: Seq<char>| #[trigger] is_known(fns, n) ==> is_known(
            with_local_fn(fns, name, f),
            n,
        ),
{
    let after = with_local_fn(fns, name, f);
    lemma_local_fn_found(fns, name, 0);
    match local_fn(fns, name) {
        Some(k) => {
            assert(after[k].0 == name);
        },
        None => {
            assert(after[fns.len() as int].0 == name);
        },
    }
    assert forall|n: Seq<char>| #[trigger] is_known(fns, n) implies is_known(after, n) by {
        let k = choose|k: int| 0 <= k < fns.len() && (#[trigger] fns[k]).0 == n;
        assert(after[k].0 == n);
    }
}

proof fn lemma_local_fn_found(fns: LocalFns, name: Seq<char>, i: int)
    requires
        0 <= i,
    ensures
        local_fn_from(fns, name, i) matches Some(k) ==> i <= k < fns.len() && fns[k].0 == name,
        local_fn_from(fns, name, i) is None ==> forall|k: int|
            i <= k < fns.len() ==> (#[trigger] fns[k]).0 != name,
    decreases fns.len() - i,
{
    if i < fns.len() && fns[i].0 != name {
        lemma_local_fn_found(fns, name, i + 1);
    }
}

/// Whether what was known stays known.
spec fn knows_more(fns: LocalFns, after: LocalFns) -> bool {
    forall|n: Seq<char>| #[trigger] is_known(fns, n) ==> is_known(after, n)
}

proof fn lemma_known_in_statements(source: Seq<char>, body: Seq<Statement>, fns: LocalFns)
    ensures
        knows_more(fns, fns_in_statements(source, body, fns)),
    decreases body,
{
    if body.len() > 0 {
        lemma_known_in_statements(source, body.drop_last(), fns);
        lemma_known_in_statement(
            source,
            body.last(),
            fns_in_statements(source, body.drop_last(), fns),
        );
    }
}

proof fn lemma_known_in_statement(source: Seq<char>, s: Statement, fns: LocalFns)
    ensures
        knows_more(fns, fns_in_statement(source, s, fns)),
    decreases s,
{
    match s {
        Statement::Declaration(d) => {
            lemma_known_in_declaration(source, d, fns);
        },
        Statement::ExportNamed(x) => {
            if let Some(d) = x.declaration {
                lemma_known_in_declaration(source, d, fns);
            }
        },
        Statement::ExportDefaultFunction(f) => {
            lemma_known_in_declared(source, f, fns);
        },
        _ => {},
    }
}

proof fn lemma_known_in_declaration(source: Seq<char>, d: Declaration, fns: LocalFns)
    ensures
        knows_more(fns, fns_in_declaration(source, d, fns)),
    decreases d,
{
    match d {
        Declaration::Variable(v) => {
            lemma_known_in_declarators(source, v@, fns);
        },
        Declaration::Function(f) => {
            lemma_known_in_declared(source, f, fns);
        },
        _ => {},
    }
}

proof fn lemma_known_in_declarators(source: Seq<char>, v: Seq<VariableDeclarator>, fns: LocalFns)
    ensures
        knows_more(fns, fns_in_declarators(source, v, fns)),
    decreases v,
{
    if v.len() > 0 {
        lemma_known_in_declarators(source, v.drop_last(), fns);
        lemma_known_in_declarator(
            source,
            v.last(),
            fns_in_declarators(source, v.drop_last(), fns),
        );
    }
}

proof fn lemma_known_in_declarator(source: Seq<char>, d: VariableDeclarator, fns: LocalFns)
    ensures
        knows_more(fns, fns_in_declarator(source, d, fns)),
    decreases d,
{
    if let Some(e) = d.init {
        match e.kind {
            ExpressionKind::Arrow(f) => {
                lemma_known_in_function(source, d.id_span, *f, fns);
            },
            ExpressionKind::Function(f) => {
                lemma_known_in_function(source, d.id_span, *f, fns);
            },
            _ => {},
        }
    }
}

proof fn lemma_known_in_function(source: Seq<char>, id: Span, f: Function, fns: LocalFns)
    ensures
        knows_more(fns, fns_in_function(source, id, f, fns)),
        declared_name(source, id) matches Some(name) ==> name.len() > 0 ==> is_known(
            fns_in_function(source, id, f, fns),
            name,
        ),
    decreases f,
{
    let named = match declared_name(source, id) {
        Some(name) => if name.len() > 0 {
            with_local_fn(fns, name, f)
        } else {
            fns
        },
        None => fns,
    };
    if let Some(name) = declared_name(source, id) {
        lemma_with_local_fn(fns, name, f);
    }
    if let Some(body) = f.body {
        lemma_known_in_statements(source, body@, named);
    }
}

proof fn lemma_known_in_declared(source: Seq<char>, f: Function, fns: LocalFns)
    ensures
        knows_more(fns, fns_in_declared(source, f, fns)),
        f.id matches Some(name) ==> is_known(fns_in_declared(source, f, fns), name@),
    decreases f,
{
    let named = match f.id {
        Some(name) => with_local_fn(fns, name@, f),
        None => fns,
    };
    if let Some(name) = f.id {
        lemma_with_local_fn(fns, name@, f);
    }
    if let Some(body) = f.body {
        lemma_known_in_statements(source, body@, named);
    }
}

/// What holds after the functions in the body of a bound function are collected holds
/// after those of the variables are.
proof fn lemma_inner_known(
    source: Seq<char>,
    d: Declaration,
    fns: LocalFns,
    name: Seq<char>,
    f: Function,
) -> (base: LocalFns)
    requires
        names_function(source, d, name, f),
    ensures
        is_known(fns_in_declaration(source, d, fns), name),
        f.body matches Some(body) ==> knows_more(
            fns_in_statements(source, body@, base),
            fns_in_declaration(source, d, fns),
        ),
{
    match d {
        Declaration::Variable(v) => {
            let i = choose|i: int| 0 <= i < v@.len() && binds(source, #[trigger] v@[i], name, f);
            lemma_inner_known_in(source, v@, fns, name, f, i)
        },
        _ => {
            lemma_known_in_declared(source, f, fns);
            match f.id {
                Some(n) => with_local_fn(fns, n@, f),
                None => fns,
            }
        },
    }
}

proof fn lemma_inner_known_in(
    source: Seq<char>,
    v: Seq<VariableDeclarator>,
    fns: LocalFns,
    name: Seq<char>,
    f: Function,
    i: int,
) -> (base: LocalFns)
    requires
        0 <= i < v.len(),
        binds(source, v[i], name, f),
    ensures
        is_known(fns_in_declarators(source, v, fns), name),
        f.body matches Some(body) ==> knows_more(
            fns_in_statements(source, body@, base),
            fns_in_declarators(source, v, fns),
        ),
    decreases v.len(),
{
    let before = fns_in_declarators(source, v.drop_last(), fns);
    if i < v.len() - 1 {
        assert(v.drop_last()[i] == v[i]);
        let base = lemma_inner_known_in(source, v.drop_last(), fns, name, f, i);
        lemma_known_in_declarator(source, v.last(), before);
        base
    } else {
        lemma_known_in_function(source, v[i].id_span, f, before);
        assert(v.last() == v[i]);
        assert(fns_in_declarator(source, v.last(), before) == fns_in_function(
            source,
            v[i].id_span,
            f,
            before,
        ));
        let base = with_local_fn(before, name, f);
        if let Some(body) = f.body {
            assert(fns_in_function(source, v[i].id_span, f, before) == fns_in_statements(
                source,
                body@,
                base,
            ));
        }
        base
    }
}

proof fn lemma_inner_known_in_statements(
    source: Seq<char>,
    stmts: Seq<Statement>,
    fns: LocalFns,
    i: int,
    name: Seq<char>,
    f: Function,
) -> (base: LocalFns)
    requires
        0 <= i < stmts.len(),
        declares(source, stmts[i], name, f),
    ensures
        is_known(fns_in_statements(source, stmts, fns), name),
        f.body matches Some(body) ==> knows_more(
            fns_in_statements(source, body@, base),
            fns_in_statements(source, stmts, fns),
        ),
    decreases stmts.len(),
{
    let before = fns_in_statements(source, stmts.drop_last(), fns);
    if i < stmts.len() - 1 {
        assert(stmts.drop_last()[i] == stmts[i]);
        let base = lemma_inner_known_in_statements(source, stmts.drop_last(), fns, i, name, f);
        lemma_known_in_statement(source, stmts.last(), before);
        base
    } else {
        let s = stmts[i];
        assert(stmts.last() == s);
        assert(fns_in_statements(source, stmts, fns) == fns_in_statement(source, s, before));
        match s {
            Statement::Declaration(d) => {
                assert(fns_in_statement(source, s, before) == fns_in_declaration(
                    source,
                    d,
                    before,
                ));
                lemma_inner_known(source, d, before, name, f)
            },
            Statement::ExportNamed(x) => {
                let d = x.declaration->0;
                assert(fns_in_statement(source, s, before) == fns_in_declaration(
                    source,
                    d,
                    before,
                ));
                lemma_inner_known(source, d, before, name, f)
            },
            _ => {
                lemma_known_in_declared(source, f, before);
                assert(fns_in_statement(source, s, before) == fns_in_declared(source, f, before));
                let base = with_local_fn(before, name, f);
                if let Some(body) = f.body {
                    assert(fns_in_declared(source, f, before) == fns_in_statements(
                        source,
                        body@,
                        base,
                    ));
                }
                base
            },
        }
    }
}

/// Whether the last of some functions is declared among statements: the first by one of
/// them, and each other one in the body of the one before it.
pub open spec fn is_declared(
    source: Seq<char>,
    stmts: Seq<Statement>,
    names: Seq<Seq<char>>,
    functions: Seq<Function>,
) -> bool
    decreases names.len(),
{
    &&& 0 < names.len() == functions.len()
    &&& exists|i: int|
        0 <= i < stmts.len() && declares(source, #[trigger] stmts[i], names[0], functions[0])
    &&& names.len() > 1 ==> (functions[0].body matches Some(body) && is_declared(
        source,
        body@,
        names.skip(1),
        functions.skip(1),
    ))
}

/// Every function that a program gives a name, at the top or inside of others, can be
/// called by its name.
pub proof fn every_local_function_is_known(
    source: Seq<char>,
    stmts: Seq<Statement>,
    fns: LocalFns,
    names: Seq<Seq<char>>,
    functions: Seq<Function>,
)
    requires
        is_declared(source, stmts, names, functions),
    ensures
        local_fn(fns_in_statements(source, stmts, fns), names.last()) is Some,
    decreases names.len(),
{
    lemma_declared_known(source, stmts, fns, names, functions);
    let after = fns_in_statements(source, stmts, fns);
    let k = choose|k: int| 0 <= k < after.len() && (#[trigger] after[k]).0 == names.last();
    lemma_local_fn_found(after, names.last(), 0);
    assert(after[k].0 == names.last());
}

proof fn lemma_declared_known(
    source: Seq<char>,
    stmts: Seq<Statement>,
    fns: LocalFns,
    names: Seq<Seq<char>>,
    functions: Seq<Function>,
)
    requires
        is_declared(source, stmts, names, functions),
    ensures
        is_known(fns_in_statements(source, stmts, fns), names.last()),
    decreases names.len(),
{
    let i = choose|i: int|
        0 <= i < stmts.len() && declares(source, #[trigger] stmts[i], names[0], functions[0]);
    let base = lemma_inner_known_in_statements(source, stmts, fns, i, names[0], functions[0]);
    if names.len() > 1 {
        let body = functions[0].body->0;
        lemma_declared_known(source, body@, base, names.skip(1), functions.skip(1));
        assert(names.skip(1).last() == names.last());
        assert(is_known(fns_in_statements(source, body@, base), names.last()));
    }
}

/// A function that is declared under a name takes the place of an earlier one, and leaves
/// the others.
pub proof fn later_functions_take_over(
    fns: LocalFns,
    name: Seq<char>,
    f: Function,
    other: Seq<char>,
)
    ensures
        ({
            let after = with_local_fn(fns, name, f);
            &&& local_fn(after, name) matches Some(k) && after[k].1 == f
            &&& other != name ==> match (local_fn(fns, other), local_fn(after, other)) {
                (Some(a), Some(b)) => fns[a] == after[b],
                (None, None) => true,
                _ => false,
            }
        }),
{
    let after = with_local_fn(fns, name, f);
    lemma_local_fn_found(fns, name, 0);
    lemma_local_fn_first(fns, name, 0);
    lemma_local_fn_first(fns, other, 0);
    lemma_local_fn_found(fns, other, 0);
    match local_fn(fns, name) {
        Some(k) => {
            lemma_local_fn(after, name, 0, k);
        },
        None => {
            lemma_local_fn(after, name, 0, fns.len() as int);
        },
    }
    if other != name {
        match local_fn(fns, other) {
            Some(a) => {
                lemma_local_fn(after, other, 0, a);
            },
            None => {
                lemma_local_fn_found(after, other, 0);
                if let Some(b) = local_fn(after, other) {
                    assert(b < fns.len() ==> fns[b].0 == other);
                }
            },
        }
    }
}

proof fn lemma_local_fn_first(fns: LocalFns, name: Seq<char>, i: int)
    requires
        0 <= i,
    ensures
        local_fn_from(fns, name, i) matches Some(k) ==> forall|j: int|
            i <= j < k ==> (#[trigger] fns[j]).0 != name,
    decreases fns.len() - i,
{
    if i < fns.len() && fns[i].0 != name {
        lemma_local_fn_first(fns, name, i + 1);
    }
}

/// The text of a container is what stands between its braces, and the text of a node what
/// stands at its place, both without the blanks around.
pub proof fn values_are_read_between_braces(
    front: Seq<char>,
    inner: Seq<char>,
    rest: Seq<char>,
    span: Span,
)
    requires
        span.start == utf8(front).len(),
        span.end == utf8(front).len() + utf8(inner).len() + 2,
    ensures
        container_text(front + seq!['{'] + inner + seq!['}'] + rest, span) == trim(inner),
        node_text(front + seq!['{'] + inner + seq!['}'] + rest, span) == trim(
            seq!['{'] + inner + seq!['}'],
        ),
{
    let open = seq!['{'];
    let close = seq!['}'];
    let whole = open + inner + close;
    let source = front + open + inner + close + rest;
    lemma_brace('{');
    lemma_brace('}');
    lemma_utf8_joined(front, open);
    lemma_utf8_joined(open + inner, close);
    lemma_utf8_joined(open, inner);
    lemma_utf8_joined(front, whole);
    lemma_utf8_joined(front + whole, rest);
    assert(source =~= front + whole + rest);
    assert(source =~= (front + open) + inner + (close + rest));
    texts_lie_between_their_bytes(front, whole, rest);
    texts_lie_between_their_bytes(front + open, inner, close + rest);
}

proof fn lemma_brace(c: char)
    requires
        c == '{' || c == '}',
    ensures
        utf8(seq![c]).len() == 1,
{
    let s = seq![c];
    lemma_width(c);
    assert(s.drop_first() =~= Seq::empty());
    assert(s[0] == c);
    assert(utf8(s.drop_first()).len() == 0);
}

} // verus!
