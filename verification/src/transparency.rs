//! Component transparency.
//!
//! A React component is transparent where it takes `children` and renders them
//! in at least one code path. A scan that looks at the parents of an element sees
//! through such a component, or sees the component that it wraps its children in.

use crate::ast::{
    Argument, Call, Declaration, Expression, ExpressionKind, Function, JsxChild, JsxContainer,
    JsxElement, JsxName, Param, Program, Statement, StaticMember, VariableDeclarator,
};
use crate::estree::{document_of, parse_program, program_read};
use crate::nodes::{in_arguments, in_body, in_child, in_declaration, in_element, in_statement, Node};
use crate::text::{chars_of, copy_opt, opt_text, same_text, texts};
use crate::text_map::TextMap;
use vstd::prelude::*;

verus! {

/// The component around `{children}`: nothing for a pure passthrough.
pub type WrapperInfo = Option<String>;

/// Transparent components with what they wrap their children in.
pub type TransparencyMap = TextMap<WrapperInfo>;

/// The content of a map of transparent components.
pub open spec fn transparency_view(m: TransparencyMap) -> Map<Seq<char>, Option<Seq<char>>> {
    m@.map_values(|o: WrapperInfo| opt_text(o))
}

// ── What renders children ───────────────────────────────────────────────

pub open spec fn is_identifier(e: Expression, name: Seq<char>) -> bool {
    e.kind matches ExpressionKind::Identifier(n) && n@ == name
}

/// `props.children`
pub open spec fn is_props_children(m: StaticMember) -> bool {
    m.property@ == "children"@ && is_identifier(m.object, "props"@)
}

/// `children` or `props.children`
pub open spec fn is_children(e: Expression) -> bool {
    match e.kind {
        ExpressionKind::Identifier(n) => n@ == "children"@,
        ExpressionKind::StaticMember(m) => is_props_children(*m),
        _ => false,
    }
}

pub open spec fn statements_render(v: Seq<Statement>) -> bool
    decreases v, 0nat,
{
    v.len() > 0 && (statements_render(v.drop_last()) || statement_renders(v.last()))
}

pub open spec fn declarators_render(v: Seq<VariableDeclarator>) -> bool
    decreases v, 0nat,
{
    v.len() > 0 && (declarators_render(v.drop_last()) || declarator_renders(v.last()))
}

pub open spec fn arguments_render(v: Seq<Argument>) -> bool
    decreases v, 0nat,
{
    v.len() > 0 && (arguments_render(v.drop_last()) || argument_renders(v.last()))
}

pub open spec fn children_render(v: Seq<JsxChild>) -> bool
    decreases v, 0nat,
{
    v.len() > 0 && (children_render(v.drop_last()) || child_renders(v.last()))
}

pub open spec fn statement_renders(s: Statement) -> bool
    decreases s, 0nat,
{
    match s {
        Statement::Return(Some(e)) => renders(e),
        Statement::Expression(e) => renders(e),
        Statement::Block(v) => statements_render(v@),
        Statement::If(x) => statement_renders(x.consequent) || match x.alternate {
            Some(a) => statement_renders(a),
            None => false,
        },
        Statement::Declaration(Declaration::Variable(v)) => declarators_render(v@),
        _ => false,
    }
}

pub open spec fn declarator_renders(d: VariableDeclarator) -> bool
    decreases d, 0nat,
{
    match d.init {
        Some(e) => renders(e),
        None => false,
    }
}

pub open spec fn argument_renders(a: Argument) -> bool
    decreases a, 0nat,
{
    !a.spread && renders(a.expression)
}

pub open spec fn body_renders(body: Option<Vec<Statement>>) -> bool
    decreases body, 0nat,
{
    match body {
        Some(v) => statements_render(v@),
        None => false,
    }
}

/// Whether an expression renders `children` in some code path.
pub open spec fn renders(e: Expression) -> bool
    decreases e, 0nat,
{
    match e.kind {
        ExpressionKind::Identifier(n) => n@ == "children"@,
        ExpressionKind::StaticMember(m) => is_props_children(*m),
        ExpressionKind::JsxElement(el) => element_renders(*el),
        ExpressionKind::JsxFragment(v) => children_render(v@),
        ExpressionKind::Conditional(c) => renders(c.consequent) || renders(c.alternate),
        ExpressionKind::Logical(l) => renders(l.right),
        ExpressionKind::Parenthesized(x) => renders(*x),
        ExpressionKind::Arrow(f) => body_renders(f.body),
        ExpressionKind::Call(c) => arguments_render(c.arguments@),
        ExpressionKind::Sequence(v) => v@.len() > 0 && renders(v@[v@.len() - 1]),
        _ => false,
    }
}

pub open spec fn element_renders(el: JsxElement) -> bool
    decreases el, 0nat,
{
    children_render(el.children@)
}

/// As `renders`, for an expression in braces: functions and sequences do not count.
pub open spec fn container_renders(k: JsxContainer) -> bool
    decreases k, 0nat,
{
    match k.expression {
        Some(e) => match e.kind {
            ExpressionKind::Arrow(f) => false,
            ExpressionKind::Sequence(v) => false,
            _ => renders(e),
        },
        None => false,
    }
}

pub open spec fn child_renders(child: JsxChild) -> bool
    decreases child, 0nat,
{
    match child {
        JsxChild::Container(k) => container_renders(k),
        JsxChild::Element(el) => element_renders(*el),
        JsxChild::Fragment(v) => children_render(v@),
        JsxChild::Other => false,
    }
}

// ── What wraps children ─────────────────────────────────────────────────

pub open spec fn or_else(a: Option<Seq<char>>, b: Option<Seq<char>>) -> Option<Seq<char>> {
    match a {
        Some(x) => Some(x),
        None => b,
    }
}

/// The name of an element; `this` has none.
pub open spec fn plain_name(n: JsxName) -> Seq<char>
    decreases n,
{
    match n {
        JsxName::Identifier(s) => s@,
        JsxName::Namespaced(a, b) => a@ + seq![':'] + b@,
        JsxName::Member(o, p) => plain_name(*o) + seq!['.'] + p@,
        JsxName::This => Seq::empty(),
    }
}

/// Whether a name is that of a component: it begins with an ASCII capital.
pub open spec fn is_component_name(name: Seq<char>) -> bool {
    name.len() > 0 && 65 <= name[0] as u32 <= 90
}

/// Whether a child is exactly `{children}` or `{props.children}`.
pub open spec fn is_direct_passthrough(child: JsxChild) -> bool {
    match child {
        JsxChild::Container(k) => match k.expression {
            Some(e) => is_children(e),
            None => false,
        },
        _ => false,
    }
}

pub open spec fn any_direct_passthrough(v: Seq<JsxChild>) -> bool {
    exists|i: int| 0 <= i < v.len() && is_direct_passthrough(#[trigger] v[i])
}

pub open spec fn wrapper_in_statements(v: Seq<Statement>) -> Option<Seq<char>>
    decreases v, 0nat,
{
    if v.len() == 0 {
        None
    } else {
        or_else(wrapper_in_statements(v.drop_last()), wrapper_in_statement(v.last()))
    }
}

pub open spec fn wrapper_in_declarators(v: Seq<VariableDeclarator>) -> Option<Seq<char>>
    decreases v, 0nat,
{
    if v.len() == 0 {
        None
    } else {
        or_else(wrapper_in_declarators(v.drop_last()), wrapper_in_declarator(v.last()))
    }
}

pub open spec fn wrapper_in_children(v: Seq<JsxChild>) -> Option<Seq<char>>
    decreases v, 0nat,
{
    if v.len() == 0 {
        None
    } else {
        or_else(wrapper_in_children(v.drop_last()), wrapper_in_child(v.last()))
    }
}

pub open spec fn wrapper_in_body(body: Option<Vec<Statement>>) -> Option<Seq<char>>
    decreases body, 0nat,
{
    match body {
        Some(v) => wrapper_in_statements(v@),
        None => None,
    }
}

pub open spec fn wrapper_in_statement(s: Statement) -> Option<Seq<char>>
    decreases s, 0nat,
{
    match s {
        Statement::Return(Some(e)) => wrapper_in(e),
        Statement::Expression(e) => wrapper_in(e),
        Statement::Block(v) => wrapper_in_statements(v@),
        Statement::If(x) => or_else(
            wrapper_in_statement(x.consequent),
            match x.alternate {
                Some(a) => wrapper_in_statement(a),
                None => None,
            },
        ),
        Statement::Declaration(Declaration::Variable(v)) => wrapper_in_declarators(v@),
        _ => None,
    }
}

pub open spec fn wrapper_in_declarator(d: VariableDeclarator) -> Option<Seq<char>>
    decreases d, 0nat,
{
    match d.init {
        Some(e) => wrapper_in(e),
        None => None,
    }
}

/// The component that an expression wraps `children` in.
pub open spec fn wrapper_in(e: Expression) -> Option<Seq<char>>
    decreases e, 0nat,
{
    match e.kind {
        ExpressionKind::JsxElement(el) => wrapper_in_element(*el),
        ExpressionKind::JsxFragment(v) => wrapper_in_children(v@),
        ExpressionKind::Conditional(c) => or_else(wrapper_in(c.consequent), wrapper_in(c.alternate)),
        ExpressionKind::Logical(l) => wrapper_in(l.right),
        ExpressionKind::Parenthesized(x) => wrapper_in(*x),
        ExpressionKind::Arrow(f) => wrapper_in_body(f.body),
        _ => None,
    }
}

/// An element right around `{children}` is the wrapper, where it is a component;
/// else the wrapper is looked for inside.
pub open spec fn wrapper_in_element(el: JsxElement) -> Option<Seq<char>>
    decreases el, 0nat,
{
    if any_direct_passthrough(el.children@) {
        let name = plain_name(el.name);
        if is_component_name(name) {
            Some(name)
        } else {
            None
        }
    } else {
        wrapper_in_children(el.children@)
    }
}

pub open spec fn wrapper_in_container(k: JsxContainer) -> Option<Seq<char>>
    decreases k, 0nat,
{
    match k.expression {
        Some(e) => match e.kind {
            ExpressionKind::JsxElement(el) => wrapper_in_element(*el),
            ExpressionKind::JsxFragment(v) => wrapper_in_children(v@),
            ExpressionKind::Conditional(c) => or_else(
                wrapper_in(c.consequent),
                wrapper_in(c.alternate),
            ),
            _ => None,
        },
        None => None,
    }
}

pub open spec fn wrapper_in_child(child: JsxChild) -> Option<Seq<char>>
    decreases child, 0nat,
{
    match child {
        JsxChild::Element(el) => wrapper_in_element(*el),
        JsxChild::Fragment(v) => wrapper_in_children(v@),
        JsxChild::Container(k) => wrapper_in_container(k),
        JsxChild::Other => None,
    }
}

// ── Components ──────────────────────────────────────────────────────────

pub open spec fn param_takes_children(p: Param) -> bool {
    match p {
        Param::Identifier => true,
        Param::ObjectPattern(keys) => exists|i: int|
            0 <= i < keys@.len() && opt_text(#[trigger] keys@[i]) == Some("children"@),
        Param::Other => false,
    }
}

/// Whether some parameter can bring `children` in.
pub open spec fn takes_children(params: Seq<Param>) -> bool {
    exists|i: int| 0 <= i < params.len() && param_takes_children(#[trigger] params[i])
}

pub open spec fn function_is_transparent(f: Function) -> bool {
    takes_children(f.params@) && body_renders(f.body)
}

pub open spec fn is_wrapper_function(name: Seq<char>) -> bool {
    name == "forwardRef"@ || name == "memo"@
}

/// `React.forwardRef(...)`, `React.memo(...)`, `forwardRef(...)` or `memo(...)`
pub open spec fn is_react_wrapper(callee: Expression) -> bool {
    match callee.kind {
        ExpressionKind::StaticMember(m) => is_wrapper_function(m.property@) && is_identifier(
            m.object,
            "React"@,
        ),
        ExpressionKind::Identifier(n) => is_wrapper_function(n@),
        _ => false,
    }
}

/// The function that an expression defines a component with: through wrapper
/// calls, casts and parentheses.
pub open spec fn component_function(e: Expression) -> Option<Function>
    decreases e,
{
    match e.kind {
        ExpressionKind::Arrow(f) => Some(*f),
        ExpressionKind::Function(f) => Some(*f),
        ExpressionKind::Call(c) => if is_react_wrapper(c.callee) && c.arguments@.len() > 0
            && !c.arguments@[0].spread {
            component_function(c.arguments@[0].expression)
        } else {
            None
        },
        ExpressionKind::TsAs(x) => component_function(*x),
        ExpressionKind::Parenthesized(x) => component_function(*x),
        ExpressionKind::TsSatisfies(x) => component_function(*x),
        _ => None,
    }
}

/// The components found so far, with the one that a function defines.
pub open spec fn with_function(
    m: Map<Seq<char>, Option<Seq<char>>>,
    name: Option<Seq<char>>,
    f: Option<Function>,
) -> Map<Seq<char>, Option<Seq<char>>> {
    match (name, f) {
        (Some(n), Some(g)) => if function_is_transparent(g) {
            m.insert(n, wrapper_in_body(g.body))
        } else {
            m
        },
        _ => m,
    }
}

pub open spec fn with_declarator(
    m: Map<Seq<char>, Option<Seq<char>>>,
    d: VariableDeclarator,
) -> Map<Seq<char>, Option<Seq<char>>> {
    with_function(
        m,
        opt_text(d.name),
        match d.init {
            Some(e) => component_function(e),
            None => None,
        },
    )
}

pub open spec fn with_declarators(
    m: Map<Seq<char>, Option<Seq<char>>>,
    v: Seq<VariableDeclarator>,
) -> Map<Seq<char>, Option<Seq<char>>>
    decreases v.len(),
{
    if v.len() == 0 {
        m
    } else {
        with_declarator(with_declarators(m, v.drop_last()), v.last())
    }
}

pub open spec fn with_declaration(
    m: Map<Seq<char>, Option<Seq<char>>>,
    d: Declaration,
) -> Map<Seq<char>, Option<Seq<char>>> {
    match d {
        Declaration::Variable(v) => with_declarators(m, v@),
        Declaration::Function(f) => with_function(m, opt_text(f.id), Some(f)),
        _ => m,
    }
}

pub open spec fn with_statement(
    m: Map<Seq<char>, Option<Seq<char>>>,
    s: Statement,
) -> Map<Seq<char>, Option<Seq<char>>> {
    match s {
        Statement::ExportNamed(x) => match x.declaration {
            Some(d) => with_declaration(m, d),
            None => m,
        },
        Statement::ExportDefaultFunction(f) => with_function(m, opt_text(f.id), Some(f)),
        Statement::Declaration(d) => with_declaration(m, d),
        _ => m,
    }
}

/// The transparent components that statements define, exported or not, with what
/// they wrap their children in.
pub open spec fn transparent_in(body: Seq<Statement>) -> Map<Seq<char>, Option<Seq<char>>>
    decreases body.len(),
{
    if body.len() == 0 {
        Map::empty()
    } else {
        with_statement(transparent_in(body.drop_last()), body.last())
    }
}

// ── Deciding ────────────────────────────────────────────────────────────

fn names(e: &Expression, name: &str) -> (r: bool)
    ensures
        r == is_identifier(*e, name@),
{
    match &e.kind {
        ExpressionKind::Identifier(n) => same_text(n.as_str(), name),
        _ => false,
    }
}

fn member_is_props_children(m: &StaticMember) -> (r: bool)
    ensures
        r == is_props_children(*m),
{
    same_text(m.property.as_str(), "children") && names(&m.object, "props")
}

fn is_direct_children_expression(e: &Expression) -> (r: bool)
    ensures
        r == is_children(*e),
{
    match &e.kind {
        ExpressionKind::Identifier(n) => same_text(n.as_str(), "children"),
        ExpressionKind::StaticMember(m) => member_is_props_children(m),
        _ => false,
    }
}

fn any_statement_renders(v: &Vec<Statement>) -> (r: bool)
    ensures
        r == statements_render(v@),
    decreases v, 0nat,
{
    let mut i: usize = 0;
    let mut found = false;
    while i < v.len()
        invariant
            i <= v@.len(),
            found == statements_render(v@.take(i as int)),
        decreases v@.len() - i,
    {
        assert(decreases_to!(v@ => v@[i as int]));
        assert(v@.take(i + 1).drop_last() =~= v@.take(i as int));
        let here = statement_renders_children(&v[i]);
        found = found || here;
        i = i + 1;
    }
    assert(v@.take(v@.len() as int) =~= v@);
    found
}

fn any_declarator_renders(v: &Vec<VariableDeclarator>) -> (r: bool)
    ensures
        r == declarators_render(v@),
    decreases v, 0nat,
{
    let mut i: usize = 0;
    let mut found = false;
    while i < v.len()
        invariant
            i <= v@.len(),
            found == declarators_render(v@.take(i as int)),
        decreases v@.len() - i,
    {
        assert(decreases_to!(v@ => v@[i as int]));
        assert(v@.take(i + 1).drop_last() =~= v@.take(i as int));
        let here = declarator_renders_children(&v[i]);
        found = found || here;
        i = i + 1;
    }
    assert(v@.take(v@.len() as int) =~= v@);
    found
}

fn any_argument_renders(v: &Vec<Argument>) -> (r: bool)
    ensures
        r == arguments_render(v@),
    decreases v, 0nat,
{
    let mut i: usize = 0;
    let mut found = false;
    while i < v.len()
        invariant
            i <= v@.len(),
            found == arguments_render(v@.take(i as int)),
        decreases v@.len() - i,
    {
        assert(decreases_to!(v@ => v@[i as int]));
        assert(v@.take(i + 1).drop_last() =~= v@.take(i as int));
        let here = argument_renders_children(&v[i]);
        found = found || here;
        i = i + 1;
    }
    assert(v@.take(v@.len() as int) =~= v@);
    found
}

fn any_child_renders(v: &Vec<JsxChild>) -> (r: bool)
    ensures
        r == children_render(v@),
    decreases v, 0nat,
{
    let mut i: usize = 0;
    let mut found = false;
    while i < v.len()
        invariant
            i <= v@.len(),
            found == children_render(v@.take(i as int)),
        decreases v@.len() - i,
    {
        assert(decreases_to!(v@ => v@[i as int]));
        assert(v@.take(i + 1).drop_last() =~= v@.take(i as int));
        let here = jsx_child_renders_children(&v[i]);
        found = found || here;
        i = i + 1;
    }
    assert(v@.take(v@.len() as int) =~= v@);
    found
}

fn statement_renders_children(s: &Statement) -> (r: bool)
    ensures
        r == statement_renders(*s),
    decreases s, 0nat,
{
    match s {
        Statement::Return(Some(e)) => expression_renders_children(e),
        Statement::Expression(e) => expression_renders_children(e),
        Statement::Block(v) => any_statement_renders(v),
        Statement::If(x) => {
            let consequent = statement_renders_children(&x.consequent);
            let alternate = match &x.alternate {
                Some(a) => statement_renders_children(a),
                None => false,
            };
            consequent || alternate
        },
        Statement::Declaration(Declaration::Variable(v)) => any_declarator_renders(v),
        _ => false,
    }
}

fn declarator_renders_children(d: &VariableDeclarator) -> (r: bool)
    ensures
        r == declarator_renders(*d),
    decreases d, 0nat,
{
    match &d.init {
        Some(e) => expression_renders_children(e),
        None => false,
    }
}

fn argument_renders_children(a: &Argument) -> (r: bool)
    ensures
        r == argument_renders(*a),
    decreases a, 0nat,
{
    let inner = expression_renders_children(&a.expression);
    !a.spread && inner
}

fn function_body_renders_children(body: &Option<Vec<Statement>>) -> (r: bool)
    ensures
        r == body_renders(*body),
    decreases body, 0nat,
{
    match body {
        Some(v) => any_statement_renders(v),
        None => false,
    }
}

fn expression_renders_children(e: &Expression) -> (r: bool)
    ensures
        r == renders(*e),
    decreases e, 0nat,
{
    match &e.kind {
        ExpressionKind::Identifier(n) => same_text(n.as_str(), "children"),
        ExpressionKind::StaticMember(m) => member_is_props_children(m),
        ExpressionKind::JsxElement(el) => jsx_element_renders_children(el),
        ExpressionKind::JsxFragment(v) => any_child_renders(v),
        ExpressionKind::Conditional(c) => {
            let consequent = expression_renders_children(&c.consequent);
            let alternate = expression_renders_children(&c.alternate);
            consequent || alternate
        },
        ExpressionKind::Logical(l) => expression_renders_children(&l.right),
        ExpressionKind::Parenthesized(x) => expression_renders_children(x),
        ExpressionKind::Arrow(f) => function_body_renders_children(&f.body),
        ExpressionKind::Call(c) => any_argument_renders(&c.arguments),
        ExpressionKind::Sequence(v) => {
            if v.len() > 0 {
                assert(decreases_to!(v@ => v@[v@.len() - 1]));
                expression_renders_children(&v[v.len() - 1])
            } else {
                false
            }
        },
        _ => false,
    }
}

fn jsx_element_renders_children(el: &JsxElement) -> (r: bool)
    ensures
        r == element_renders(*el),
    decreases el, 0nat,
{
    any_child_renders(&el.children)
}

fn jsx_expression_renders_children(k: &JsxContainer) -> (r: bool)
    ensures
        r == container_renders(*k),
    decreases k, 0nat,
{
    match &k.expression {
        Some(e) => match &e.kind {
            ExpressionKind::Arrow(_) => false,
            ExpressionKind::Sequence(_) => false,
            _ => expression_renders_children(e),
        },
        None => false,
    }
}

fn jsx_child_renders_children(child: &JsxChild) -> (r: bool)
    ensures
        r == child_renders(*child),
    decreases child, 0nat,
{
    match child {
        JsxChild::Container(k) => jsx_expression_renders_children(k),
        JsxChild::Element(el) => jsx_element_renders_children(el),
        JsxChild::Fragment(v) => any_child_renders(v),
        JsxChild::Other => false,
    }
}

fn jsx_opening_element_name(n: &JsxName) -> (r: String)
    ensures
        r@ == plain_name(*n),
    decreases n,
{
    match n {
        JsxName::Identifier(s) => s.clone(),
        JsxName::Namespaced(a, b) => {
            let mut r = a.clone();
            r.push(':');
            r.append(b.as_str());
            assert(r@ =~= a@ + seq![':'] + b@);
            r
        },
        JsxName::Member(o, p) => {
            let mut r = jsx_opening_element_name(o);
            r.push('.');
            r.append(p.as_str());
            assert(r@ =~= plain_name(**o) + seq!['.'] + p@);
            r
        },
        JsxName::This => String::new(),
    }
}

fn begins_like_component(name: &str) -> (r: bool)
    ensures
        r == is_component_name(name@),
{
    let c = chars_of(name);
    if c.len() == 0 {
        return false;
    }
    let n: u32 = c[0] as u32;
    65 <= n && n <= 90
}

fn has_direct_passthrough(v: &Vec<JsxChild>) -> (r: bool)
    ensures
        r == any_direct_passthrough(v@),
{
    let mut i: usize = 0;
    while i < v.len()
        invariant
            i <= v@.len(),
            forall|k: int| 0 <= k < i ==> !is_direct_passthrough(#[trigger] v@[k]),
        decreases v@.len() - i,
    {
        if let JsxChild::Container(k) = &v[i] {
            if let Some(e) = &k.expression {
                if is_direct_children_expression(e) {
                    assert(is_direct_passthrough(v@[i as int]));
                    return true;
                }
            }
        }
        i = i + 1;
    }
    false
}

fn find_wrapper_in_statements(v: &Vec<Statement>) -> (r: WrapperInfo)
    ensures
        opt_text(r) == wrapper_in_statements(v@),
    decreases v, 0nat,
{
    let mut i: usize = 0;
    let mut found: WrapperInfo = None;
    while i < v.len()
        invariant
            i <= v@.len(),
            opt_text(found) == wrapper_in_statements(v@.take(i as int)),
        decreases v@.len() - i,
    {
        assert(decreases_to!(v@ => v@[i as int]));
        assert(v@.take(i + 1).drop_last() =~= v@.take(i as int));
        if found.is_none() {
            found = find_children_wrapper_in_statement(&v[i]);
        }
        i = i + 1;
    }
    assert(v@.take(v@.len() as int) =~= v@);
    found
}

fn find_wrapper_in_declarators(v: &Vec<VariableDeclarator>) -> (r: WrapperInfo)
    ensures
        opt_text(r) == wrapper_in_declarators(v@),
    decreases v, 0nat,
{
    let mut i: usize = 0;
    let mut found: WrapperInfo = None;
    while i < v.len()
        invariant
            i <= v@.len(),
            opt_text(found) == wrapper_in_declarators(v@.take(i as int)),
        decreases v@.len() - i,
    {
        assert(decreases_to!(v@ => v@[i as int]));
        assert(v@.take(i + 1).drop_last() =~= v@.take(i as int));
        if found.is_none() {
            found = find_wrapper_in_declarator(&v[i]);
        }
        i = i + 1;
    }
    assert(v@.take(v@.len() as int) =~= v@);
    found
}

fn find_wrapper_in_children(v: &Vec<JsxChild>) -> (r: WrapperInfo)
    ensures
        opt_text(r) == wrapper_in_children(v@),
    decreases v, 0nat,
{
    let mut i: usize = 0;
    let mut found: WrapperInfo = None;
    while i < v.len()
        invariant
            i <= v@.len(),
            opt_text(found) == wrapper_in_children(v@.take(i as int)),
        decreases v@.len() - i,
    {
        assert(decreases_to!(v@ => v@[i as int]));
        assert(v@.take(i + 1).drop_last() =~= v@.take(i as int));
        if found.is_none() {
            found = find_wrapper_in_jsx_child(&v[i]);
        }
        i = i + 1;
    }
    assert(v@.take(v@.len() as int) =~= v@);
    found
}

fn find_children_wrapper_in_body(body: &Option<Vec<Statement>>) -> (r: WrapperInfo)
    ensures
        opt_text(r) == wrapper_in_body(*body),
    decreases body, 0nat,
{
    match body {
        Some(v) => find_wrapper_in_statements(v),
        None => None,
    }
}

fn find_wrapper_in_declarator(d: &VariableDeclarator) -> (r: WrapperInfo)
    ensures
        opt_text(r) == wrapper_in_declarator(*d),
    decreases d, 0nat,
{
    match &d.init {
        Some(e) => find_children_wrapper_in_expr(e),
        None => None,
    }
}

fn find_children_wrapper_in_statement(s: &Statement) -> (r: WrapperInfo)
    ensures
        opt_text(r) == wrapper_in_statement(*s),
    decreases s, 0nat,
{
    match s {
        Statement::Return(Some(e)) => find_children_wrapper_in_expr(e),
        Statement::Expression(e) => find_children_wrapper_in_expr(e),
        Statement::Block(v) => find_wrapper_in_statements(v),
        Statement::If(x) => {
            let consequent = find_children_wrapper_in_statement(&x.consequent);
            if consequent.is_some() {
                return consequent;
            }
            match &x.alternate {
                Some(a) => find_children_wrapper_in_statement(a),
                None => None,
            }
        },
        Statement::Declaration(Declaration::Variable(v)) => find_wrapper_in_declarators(v),
        _ => None,
    }
}

fn find_children_wrapper_in_expr(e: &Expression) -> (r: WrapperInfo)
    ensures
        opt_text(r) == wrapper_in(*e),
    decreases e, 0nat,
{
    match &e.kind {
        ExpressionKind::JsxElement(el) => find_wrapper_in_jsx_element(el),
        ExpressionKind::JsxFragment(v) => find_wrapper_in_children(v),
        ExpressionKind::Conditional(c) => {
            let consequent = find_children_wrapper_in_expr(&c.consequent);
            if consequent.is_some() {
                return consequent;
            }
            find_children_wrapper_in_expr(&c.alternate)
        },
        ExpressionKind::Logical(l) => find_children_wrapper_in_expr(&l.right),
        ExpressionKind::Parenthesized(x) => find_children_wrapper_in_expr(x),
        ExpressionKind::Arrow(f) => find_children_wrapper_in_body(&f.body),
        _ => None,
    }
}

fn find_wrapper_in_jsx_element(el: &JsxElement) -> (r: WrapperInfo)
    ensures
        opt_text(r) == wrapper_in_element(*el),
    decreases el, 0nat,
{
    if has_direct_passthrough(&el.children) {
        let name = jsx_opening_element_name(&el.name);
        if begins_like_component(name.as_str()) {
            Some(name)
        } else {
            None
        }
    } else {
        find_wrapper_in_children(&el.children)
    }
}

fn find_wrapper_in_jsx_expression(k: &JsxContainer) -> (r: WrapperInfo)
    ensures
        opt_text(r) == wrapper_in_container(*k),
    decreases k, 0nat,
{
    match &k.expression {
        Some(e) => match &e.kind {
            ExpressionKind::JsxElement(el) => find_wrapper_in_jsx_element(el),
            ExpressionKind::JsxFragment(v) => find_wrapper_in_children(v),
            ExpressionKind::Conditional(c) => {
                let consequent = find_children_wrapper_in_expr(&c.consequent);
                if consequent.is_some() {
                    return consequent;
                }
                find_children_wrapper_in_expr(&c.alternate)
            },
            _ => None,
        },
        None => None,
    }
}

fn find_wrapper_in_jsx_child(child: &JsxChild) -> (r: WrapperInfo)
    ensures
        opt_text(r) == wrapper_in_child(*child),
    decreases child, 0nat,
{
    match child {
        JsxChild::Element(el) => find_wrapper_in_jsx_element(el),
        JsxChild::Fragment(v) => find_wrapper_in_children(v),
        JsxChild::Container(k) => find_wrapper_in_jsx_expression(k),
        JsxChild::Other => None,
    }
}

fn keys_have_children(keys: &Vec<Option<String>>) -> (r: bool)
    ensures
        r == exists|i: int|
            0 <= i < keys@.len() && opt_text(#[trigger] keys@[i]) == Some("children"@),
{
    let mut i: usize = 0;
    while i < keys.len()
        invariant
            i <= keys@.len(),
            forall|k: int| 0 <= k < i ==> opt_text(#[trigger] keys@[k]) != Some("children"@),
        decreases keys@.len() - i,
    {
        if let Some(k) = &keys[i] {
            if same_text(k.as_str(), "children") {
                assert(opt_text(keys@[i as int]) == Some("children"@));
                return true;
            }
        }
        i = i + 1;
    }
    false
}

fn has_children_param(params: &Vec<Param>) -> (r: bool)
    ensures
        r == takes_children(params@),
{
    let mut i: usize = 0;
    while i < params.len()
        invariant
            i <= params@.len(),
            forall|k: int| 0 <= k < i ==> !param_takes_children(#[trigger] params@[k]),
        decreases params@.len() - i,
    {
        let here = match &params[i] {
            Param::Identifier => true,
            Param::ObjectPattern(keys) => keys_have_children(keys),
            Param::Other => false,
        };
        if here {
            assert(param_takes_children(params@[i as int]));
            return true;
        }
        i = i + 1;
    }
    false
}

fn is_transparent_function(f: &Function) -> (r: bool)
    ensures
        r == function_is_transparent(*f),
{
    has_children_param(&f.params) && function_body_renders_children(&f.body)
}

fn wraps_components(name: &str) -> (r: bool)
    ensures
        r == is_wrapper_function(name@),
{
    same_text(name, "forwardRef") || same_text(name, "memo")
}

fn is_react_wrapper_call(callee: &Expression) -> (r: bool)
    ensures
        r == is_react_wrapper(*callee),
{
    match &callee.kind {
        ExpressionKind::StaticMember(m) => wraps_components(m.property.as_str()) && names(
            &m.object,
            "React",
        ),
        ExpressionKind::Identifier(n) => wraps_components(n.as_str()),
        _ => false,
    }
}

fn find_component_function(e: &Expression) -> (r: Option<&Function>)
    ensures
        match r {
            Some(f) => component_function(*e) == Some(*f),
            None => component_function(*e) is None,
        },
    decreases e,
{
    match &e.kind {
        ExpressionKind::Arrow(f) => Some(&**f),
        ExpressionKind::Function(f) => Some(&**f),
        ExpressionKind::Call(c) => {
            if is_react_wrapper_call(&c.callee) && c.arguments.len() > 0 && !c.arguments[0].spread {
                assert(decreases_to!(c.arguments@ => c.arguments@[0]));
                find_component_function(&c.arguments[0].expression)
            } else {
                None
            }
        },
        ExpressionKind::TsAs(x) => find_component_function(x),
        ExpressionKind::Parenthesized(x) => find_component_function(x),
        ExpressionKind::TsSatisfies(x) => find_component_function(x),
        _ => None,
    }
}

fn add_function(m: &mut TransparencyMap, name: &Option<String>, f: Option<&Function>)
    ensures
        transparency_view(*final(m)) == with_function(
            transparency_view(*old(m)),
            opt_text(*name),
            match f {
                Some(g) => Some(*g),
                None => None,
            },
        ),
{
    if let (Some(n), Some(g)) = (name, f) {
        if is_transparent_function(g) {
            let ghost before = *m;
            let wrapper = find_children_wrapper_in_body(&g.body);
            let ghost w = opt_text(wrapper);
            m.insert(n.clone(), wrapper);
            assert(transparency_view(*m) =~= transparency_view(before).insert(n@, w));
        }
    }
}

fn add_declarators(m: &mut TransparencyMap, v: &Vec<VariableDeclarator>)
    ensures
        transparency_view(*final(m)) == with_declarators(transparency_view(*old(m)), v@),
{
    let ghost before = transparency_view(*m);
    let mut i: usize = 0;
    while i < v.len()
        invariant
            i <= v@.len(),
            transparency_view(*m) == with_declarators(before, v@.take(i as int)),
        decreases v@.len() - i,
    {
        assert(v@.take(i + 1).drop_last() =~= v@.take(i as int));
        let function = match &v[i].init {
            Some(e) => find_component_function(e),
            None => None,
        };
        add_function(m, &v[i].name, function);
        i = i + 1;
    }
    assert(v@.take(v@.len() as int) =~= v@);
}

fn add_declaration(m: &mut TransparencyMap, d: &Declaration)
    ensures
        transparency_view(*final(m)) == with_declaration(transparency_view(*old(m)), *d),
{
    match d {
        Declaration::Variable(v) => add_declarators(m, v),
        Declaration::Function(f) => add_function(m, &f.id, Some(f)),
        _ => {},
    }
}

/// The transparent components that a program defines.
pub fn transparent_components(program: &Program) -> (r: TransparencyMap)
    ensures
        transparency_view(r) == transparent_in(program.body@),
{
    let mut m: TransparencyMap = TextMap::new();
    let mut i: usize = 0;
    assert(transparency_view(m) =~= Map::<Seq<char>, Option<Seq<char>>>::empty());
    while i < program.body.len()
        invariant
            i <= program.body@.len(),
            transparency_view(m) == transparent_in(program.body@.take(i as int)),
        decreases program.body@.len() - i,
    {
        assert(program.body@.take(i + 1).drop_last() =~= program.body@.take(i as int));
        match &program.body[i] {
            Statement::ExportNamed(x) => {
                if let Some(d) = &x.declaration {
                    add_declaration(&mut m, d);
                }
            },
            Statement::ExportDefaultFunction(f) => add_function(&mut m, &f.id, Some(f)),
            Statement::Declaration(d) => add_declaration(&mut m, d),
            _ => {},
        }
        i = i + 1;
    }
    assert(program.body@.take(program.body@.len() as int) =~= program.body@);
    m
}

/// Analyses source text: the names of the transparent components that it defines,
/// with what they wrap their children in. Text that gives no program has none.
pub fn analyze_source_transparency(source: &str) -> (r: Result<TransparencyMap, String>)
    ensures
        r is Ok,
        match document_of(source@) {
            Some(j) => exists|p: Program|
                #[trigger] program_read(p, j) && transparency_view(r->Ok_0) == transparent_in(
                    p.body@,
                ),
            None => transparency_view(r->Ok_0) == Map::<Seq<char>, Option<Seq<char>>>::empty(),
        },
{
    match parse_program(source) {
        Some(p) => Ok(transparent_components(&p)),
        None => {
            let m: TransparencyMap = TextMap::new();
            assert(transparency_view(m) =~= Map::<Seq<char>, Option<Seq<char>>>::empty());
            Ok(m)
        },
    }
}

// ── Re-exports ──────────────────────────────────────────────────────────

/// What names are re-exported from a module.
#[derive(Debug)]
pub enum ReexportKind {
    /// `export * from '...'`
    All,
    /// `export { Foo, Bar } from '...'`
    Named(Vec<String>),
}

/// The content of a re-export: all names, or the given ones.
pub ghost enum ReexportView {
    All,
    Named(Seq<Seq<char>>),
}

impl ReexportKind {
    pub open spec fn view(&self) -> ReexportView {
        match self {
            ReexportKind::All => ReexportView::All,
            ReexportKind::Named(v) => ReexportView::Named(texts(v@)),
        }
    }
}

pub open spec fn reexport_views(v: Seq<(String, ReexportKind)>) -> Seq<(Seq<char>, ReexportView)> {
    Seq::new(v.len(), |i: int| (v[i].0@, v[i].1@))
}

pub open spec fn reexport_of(s: Statement) -> Option<(Seq<char>, ReexportView)> {
    match s {
        Statement::ExportAll(source) => Some((source@, ReexportView::All)),
        Statement::ExportNamed(x) => match x.source {
            Some(source) => if x.exported@.len() > 0 {
                Some((source@, ReexportView::Named(texts(x.exported@))))
            } else {
                None
            },
            None => None,
        },
        _ => None,
    }
}

/// The modules that statements re-export from, with the names.
pub open spec fn reexports_in(body: Seq<Statement>) -> Seq<(Seq<char>, ReexportView)>
    decreases body.len(),
{
    if body.len() == 0 {
        Seq::empty()
    } else {
        let before = reexports_in(body.drop_last());
        match reexport_of(body.last()) {
            Some(x) => before.push(x),
            None => before,
        }
    }
}

/// The modules that a program re-exports from, with the names.
pub fn reexport_sources(program: &Program) -> (r: Vec<(String, ReexportKind)>)
    ensures
        reexport_views(r@) == reexports_in(program.body@),
{
    let mut out: Vec<(String, ReexportKind)> = Vec::new();
    let mut i: usize = 0;
    assert(reexport_views(out@) =~= Seq::<(Seq<char>, ReexportView)>::empty());
    while i < program.body.len()
        invariant
            i <= program.body@.len(),
            reexport_views(out@) == reexports_in(program.body@.take(i as int)),
        decreases program.body@.len() - i,
    {
        assert(program.body@.take(i + 1).drop_last() =~= program.body@.take(i as int));
        let ghost before = out@;
        match &program.body[i] {
            Statement::ExportAll(source) => {
                out.push((source.clone(), ReexportKind::All));
            },
            Statement::ExportNamed(x) => {
                if let Some(source) = &x.source {
                    if x.exported.len() > 0 {
                        out.push(
                            (
                                source.clone(),
                                ReexportKind::Named(crate::text::copy_list(&x.exported)),
                            ),
                        );
                    }
                }
            },
            _ => {},
        }
        assert(reexport_views(out@) =~= reexports_in(program.body@.take(i + 1)));
        i = i + 1;
    }
    assert(program.body@.take(program.body@.len() as int) =~= program.body@);
    out
}

/// The modules that source text re-exports from, with the names. Text that gives
/// no program has none.
pub fn collect_reexport_sources(source: &str) -> (r: Vec<(String, ReexportKind)>)
    ensures
        match document_of(source@) {
            Some(j) => exists|p: Program|
                #[trigger] program_read(p, j) && reexport_views(r@) == reexports_in(p.body@),
            None => r@.len() == 0,
        },
{
    match parse_program(source) {
        Some(p) => reexport_sources(&p),
        None => Vec::new(),
    }
}

/// What the first `n` names re-export of `from`, on top of `m`.
pub open spec fn with_named(
    m: Map<Seq<char>, Option<Seq<char>>>,
    from: Map<Seq<char>, Option<Seq<char>>>,
    names: Seq<Seq<char>>,
    n: int,
) -> Map<Seq<char>, Option<Seq<char>>>
    decreases n,
{
    if n <= 0 {
        m
    } else {
        let before = with_named(m, from, names, n - 1);
        if from.dom().contains(names[n - 1]) {
            before.insert(names[n - 1], from[names[n - 1]])
        } else {
            before
        }
    }
}

/// The components of a file with those that it re-exports from another: all of
/// them, or those of the given names.
pub open spec fn with_reexported(
    m: Map<Seq<char>, Option<Seq<char>>>,
    from: Map<Seq<char>, Option<Seq<char>>>,
    kind: ReexportView,
) -> Map<Seq<char>, Option<Seq<char>>> {
    match kind {
        ReexportView::All => m.union_prefer_right(from),
        ReexportView::Named(names) => with_named(m, from, names, names.len() as int),
    }
}

/// Adds the components that a file re-exports from another file.
pub fn merge_reexported(m: &mut TransparencyMap, from: &TransparencyMap, kind: &ReexportKind)
    ensures
        transparency_view(*final(m)) == with_reexported(
            transparency_view(*old(m)),
            transparency_view(*from),
            kind@,
        ),
{
    let ghost before = transparency_view(*m);
    match kind {
        ReexportKind::All => {
            let n: usize = from.len();
            let mut i: usize = 0;
            assert(transparency_view(*m) =~= before);
            while i < n
                invariant
                    i <= n,
                    n == from.keys().len(),
                    from.values().len() == n,
                    from.keys().no_duplicates(),
                    forall|k: int|
                        0 <= k < from.keys().len() ==> from@.dom().contains(
                            #[trigger] from.keys()[k],
                        ) && from@[from.keys()[k]] == from.values()[k],
                    forall|k: Seq<char>|
                        #[trigger] transparency_view(*m).dom().contains(k) <==> (
                        before.dom().contains(k) || from.keys().take(i as int).contains(k)),
                    forall|k: Seq<char>|
                        #[trigger] transparency_view(*m).dom().contains(k) ==> transparency_view(
                            *m,
                        )[k] == (if from.keys().take(i as int).contains(k) {
                            opt_text(from@[k])
                        } else {
                            before[k]
                        }),
                decreases n - i,
            {
                let ghost prior = transparency_view(*m);
                let ghost key = from.keys()[i as int];
                let value = copy_opt(from.value_at(i));
                let ghost w = opt_text(value);
                m.insert(from.key_at(i).clone(), value);
                proof {
                    assert(transparency_view(*m) =~= prior.insert(key, w));
                    assert(from.keys().take(i + 1) =~= from.keys().take(i as int).push(key));
                    assert forall|x: Seq<char>|
                        #[trigger] from.keys().take(i + 1).contains(x) <==> (from.keys().take(
                            i as int,
                        ).contains(x) || x == key) by {
                        if from.keys().take(i as int).contains(x) {
                            let j = choose|j: int|
                                0 <= j < i && from.keys().take(i as int)[j] == x;
                            assert(from.keys().take(i + 1)[j] == x);
                        }
                        if x == key {
                            assert(from.keys().take(i + 1)[i as int] == x);
                        }
                    }
                    assert forall|k: Seq<char>|
                        #[trigger] transparency_view(*m).dom().contains(k) <==> (
                        before.dom().contains(k) || from.keys().take(i + 1).contains(k)) by {
                        assert(prior.dom().contains(k) <==> (before.dom().contains(k)
                            || from.keys().take(i as int).contains(k)));
                        assert(from.keys().take(i + 1).contains(k) <==> (from.keys().take(
                            i as int,
                        ).contains(k) || k == key));
                    }
                    assert forall|k: Seq<char>|
                        #[trigger] transparency_view(*m).dom().contains(k) implies transparency_view(
                        *m,
                    )[k] == (if from.keys().take(i + 1).contains(k) {
                        opt_text(from@[k])
                    } else {
                        before[k]
                    }) by {
                        assert(from.keys().take(i + 1).contains(k) <==> (from.keys().take(
                            i as int,
                        ).contains(k) || k == key));
                        assert(k != key ==> prior.dom().contains(k));
                    }
                }
                i = i + 1;
            }
            proof {
                assert(from.keys().take(n as int) =~= from.keys());
                assert(transparency_view(*m) =~= before.union_prefer_right(
                    transparency_view(*from),
                ));
            }
        },
        ReexportKind::Named(names) => {
            let mut i: usize = 0;
            while i < names.len()
                invariant
                    i <= names@.len(),
                    transparency_view(*m) == with_named(
                        before,
                        transparency_view(*from),
                        texts(names@),
                        i as int,
                    ),
                decreases names@.len() - i,
            {
                let ghost prior = transparency_view(*m);
                assert(texts(names@)[i as int] == names@[i as int]@);
                if let Some(w) = from.get(names[i].as_str()) {
                    let value = copy_opt(w);
                    m.insert(names[i].clone(), value);
                    assert(transparency_view(*m) =~= prior.insert(
                        names@[i as int]@,
                        opt_text(value),
                    ));
                }
                i = i + 1;
            }
        },
    }
}

// ── Laws of wrappers ────────────────────────────────────────────────────

/// Whether what is around children is a component, or nothing.
pub open spec fn is_wrapper(o: Option<Seq<char>>) -> bool {
    o matches Some(name) ==> is_component_name(name)
}

/// What a transparent component wraps its children in is a component: elements of
/// the page itself and fragments are seen through.
pub proof fn wrappers_are_components(body: Seq<Statement>, name: Seq<char>)
    requires
        transparent_in(body).dom().contains(name),
    ensures
        is_wrapper(transparent_in(body)[name]),
{
    lemma_transparent_in(body);
}

/// Whether all wrappers of a map are components.
pub open spec fn all_wrappers(m: Map<Seq<char>, Option<Seq<char>>>) -> bool {
    forall|name: Seq<char>| m.dom().contains(name) ==> is_wrapper(#[trigger] m[name])
}

proof fn lemma_transparent_in(body: Seq<Statement>)
    ensures
        all_wrappers(transparent_in(body)),
    decreases body.len(),
{
    if body.len() > 0 {
        let before = transparent_in(body.drop_last());
        lemma_transparent_in(body.drop_last());
        match body.last() {
            Statement::ExportNamed(x) => {
                if let Some(d) = x.declaration {
                    lemma_with_declaration(before, d);
                }
            },
            Statement::ExportDefaultFunction(f) => {
                lemma_wrapper_in_body(f.body);
            },
            Statement::Declaration(d) => {
                lemma_with_declaration(before, d);
            },
            _ => {},
        }
    }
}

proof fn lemma_with_declaration(m: Map<Seq<char>, Option<Seq<char>>>, d: Declaration)
    requires
        all_wrappers(m),
    ensures
        all_wrappers(with_declaration(m, d)),
{
    match d {
        Declaration::Variable(v) => {
            lemma_with_declarators(m, v@);
        },
        Declaration::Function(f) => {
            lemma_wrapper_in_body(f.body);
        },
        _ => {},
    }
}

proof fn lemma_with_declarators(m: Map<Seq<char>, Option<Seq<char>>>, v: Seq<VariableDeclarator>)
    requires
        all_wrappers(m),
    ensures
        all_wrappers(with_declarators(m, v)),
    decreases v.len(),
{
    if v.len() > 0 {
        lemma_with_declarators(m, v.drop_last());
        if let Some(e) = v.last().init {
            if let Some(f) = component_function(e) {
                lemma_wrapper_in_body(f.body);
            }
        }
    }
}

proof fn lemma_wrapper_in_statements(v: Seq<Statement>)
    ensures
        is_wrapper(wrapper_in_statements(v)),
    decreases v, 0nat,
{
    if v.len() > 0 {
        lemma_wrapper_in_statements(v.drop_last());
        lemma_wrapper_in_statement(v.last());
    }
}

proof fn lemma_wrapper_in_declarators(v: Seq<VariableDeclarator>)
    ensures
        is_wrapper(wrapper_in_declarators(v)),
    decreases v, 0nat,
{
    if v.len() > 0 {
        lemma_wrapper_in_declarators(v.drop_last());
        lemma_wrapper_in_declarator(v.last());
    }
}

proof fn lemma_wrapper_in_children(v: Seq<JsxChild>)
    ensures
        is_wrapper(wrapper_in_children(v)),
    decreases v, 0nat,
{
    if v.len() > 0 {
        lemma_wrapper_in_children(v.drop_last());
        lemma_wrapper_in_child(v.last());
    }
}

proof fn lemma_wrapper_in_body(body: Option<Vec<Statement>>)
    ensures
        is_wrapper(wrapper_in_body(body)),
    decreases body, 0nat,
{
    if let Some(v) = body {
        lemma_wrapper_in_statements(v@);
    }
}

proof fn lemma_wrapper_in_statement(s: Statement)
    ensures
        is_wrapper(wrapper_in_statement(s)),
    decreases s, 0nat,
{
    match s {
        Statement::Return(Some(e)) => {
            lemma_wrapper_in(e);
        },
        Statement::Expression(e) => {
            lemma_wrapper_in(e);
        },
        Statement::Block(v) => {
            lemma_wrapper_in_statements(v@);
        },
        Statement::If(x) => {
            lemma_wrapper_in_statement(x.consequent);
            if let Some(a) = x.alternate {
                lemma_wrapper_in_statement(a);
            }
        },
        Statement::Declaration(Declaration::Variable(v)) => {
            lemma_wrapper_in_declarators(v@);
        },
        _ => {},
    }
}

proof fn lemma_wrapper_in_declarator(d: VariableDeclarator)
    ensures
        is_wrapper(wrapper_in_declarator(d)),
    decreases d, 0nat,
{
    if let Some(e) = d.init {
        lemma_wrapper_in(e);
    }
}

proof fn lemma_wrapper_in(e: Expression)
    ensures
        is_wrapper(wrapper_in(e)),
    decreases e, 0nat,
{
    match e.kind {
        ExpressionKind::JsxElement(el) => {
            lemma_wrapper_in_element(*el);
        },
        ExpressionKind::JsxFragment(v) => {
            lemma_wrapper_in_children(v@);
        },
        ExpressionKind::Conditional(c) => {
            lemma_wrapper_in(c.consequent);
            lemma_wrapper_in(c.alternate);
        },
        ExpressionKind::Logical(l) => {
            lemma_wrapper_in(l.right);
        },
        ExpressionKind::Parenthesized(x) => {
            lemma_wrapper_in(*x);
        },
        ExpressionKind::Arrow(f) => {
            lemma_wrapper_in_body(f.body);
        },
        _ => {},
    }
}

proof fn lemma_wrapper_in_element(el: JsxElement)
    ensures
        is_wrapper(wrapper_in_element(el)),
    decreases el, 0nat,
{
    if !any_direct_passthrough(el.children@) {
        lemma_wrapper_in_children(el.children@);
    }
}

proof fn lemma_wrapper_in_container(k: JsxContainer)
    ensures
        is_wrapper(wrapper_in_container(k)),
    decreases k, 0nat,
{
    if let Some(e) = k.expression {
        match e.kind {
            ExpressionKind::JsxElement(el) => {
                lemma_wrapper_in_element(*el);
            },
            ExpressionKind::JsxFragment(v) => {
                lemma_wrapper_in_children(v@);
            },
            ExpressionKind::Conditional(c) => {
                lemma_wrapper_in(c.consequent);
                lemma_wrapper_in(c.alternate);
            },
            _ => {},
        }
    }
}

proof fn lemma_wrapper_in_child(child: JsxChild)
    ensures
        is_wrapper(wrapper_in_child(child)),
    decreases child, 0nat,
{
    match child {
        JsxChild::Element(el) => {
            lemma_wrapper_in_element(*el);
        },
        JsxChild::Fragment(v) => {
            lemma_wrapper_in_children(v@);
        },
        JsxChild::Container(k) => {
            lemma_wrapper_in_container(k);
        },
        JsxChild::Other => {},
    }
}

// ── Children are rendered where they are reached ────────────────────────

/// Whether a node directly renders another one: what a statement returns or sets a
/// variable to, either branch of a condition, the right side of a logical operator, what a
/// function that is passed on returns, arguments, the last of a sequence, and children.
pub open spec fn renders_through(a: Node, b: Node) -> bool {
    match a {
        Node::Statement(s) => match s {
            Statement::Declaration(d) => d is Variable && in_declaration(d, b),
            Statement::ExportDefaultFunction(_) => false,
            Statement::ExportNamed(_) => false,
            _ => in_statement(s, b, true),
        },
        Node::Expression(e) => match e.kind {
            ExpressionKind::JsxElement(el) => b == Node::Element(*el),
            ExpressionKind::JsxFragment(v) => b matches Node::Child(x) && v@.contains(x),
            ExpressionKind::Conditional(x) => b == Node::Expression(x.consequent) || b
                == Node::Expression(x.alternate),
            ExpressionKind::Logical(x) => b == Node::Expression(x.right),
            ExpressionKind::Parenthesized(x) => b == Node::Expression(*x),
            ExpressionKind::Arrow(f) => in_body(*f, b),
            ExpressionKind::Call(x) => in_arguments(x.arguments@, b, false),
            ExpressionKind::Sequence(v) => v@.len() > 0 && b == Node::Expression(v@.last()),
            _ => false,
        },
        Node::Braced(e) => e.kind !is Arrow && e.kind !is Sequence && b == Node::Expression(e),
        Node::Element(el) => b is Child && in_element(el, b),
        Node::Child(child) => in_child(child, b, true),
        _ => false,
    }
}

/// Whether a node is `children` or `props.children`.
pub open spec fn names_children(n: Node) -> bool {
    n matches Node::Expression(e) && match e.kind {
        ExpressionKind::Identifier(x) => x@ == "children"@,
        ExpressionKind::StaticMember(m) => m.property@ == "children"@ && (
        m.object.kind matches ExpressionKind::Identifier(x) && x@ == "props"@),
        _ => false,
    }
}

/// Whether each node of a sequence directly renders the next one, and the last one is
/// `children`.
pub open spec fn reaches_children(path: Seq<Node>) -> bool {
    path.len() > 0 && names_children(path.last()) && forall|i: int|
        0 <= i < path.len() - 1 ==> #[trigger] passes_on(path, i)
}

pub open spec fn passes_on(path: Seq<Node>, i: int) -> bool {
    renders_through(path[i], path[i + 1])
}

spec fn node_renders(n: Node) -> bool {
    match n {
        Node::Statement(s) => statement_renders(s),
        Node::Expression(e) => renders(e),
        Node::Braced(e) => e.kind !is Arrow && e.kind !is Sequence && renders(e),
        Node::Element(el) => element_renders(el),
        Node::Child(child) => child_renders(child),
        _ => false,
    }
}

proof fn lemma_some_statement(v: Seq<Statement>)
    ensures
        statements_render(v) <==> exists|i: int| 0 <= i < v.len() && statement_renders(#[trigger] v[i]),
    decreases v.len(),
{
    if v.len() > 0 {
        let rest = v.drop_last();
        lemma_some_statement(rest);
        if statements_render(rest) {
            let i = choose|i: int| 0 <= i < rest.len() && statement_renders(#[trigger] rest[i]);
            assert(v[i] == rest[i]);
        }
        if exists|i: int| 0 <= i < v.len() && statement_renders(#[trigger] v[i]) {
            let i = choose|i: int| 0 <= i < v.len() && statement_renders(#[trigger] v[i]);
            if i < rest.len() {
                assert(rest[i] == v[i]);
            }
        }
    }
}

proof fn lemma_some_declarator(v: Seq<VariableDeclarator>)
    ensures
        declarators_render(v) <==> exists|i: int| 0 <= i < v.len() && declarator_renders(#[trigger] v[i]),
    decreases v.len(),
{
    if v.len() > 0 {
        let rest = v.drop_last();
        lemma_some_declarator(rest);
        if declarators_render(rest) {
            let i = choose|i: int| 0 <= i < rest.len() && declarator_renders(#[trigger] rest[i]);
            assert(v[i] == rest[i]);
        }
        if exists|i: int| 0 <= i < v.len() && declarator_renders(#[trigger] v[i]) {
            let i = choose|i: int| 0 <= i < v.len() && declarator_renders(#[trigger] v[i]);
            if i < rest.len() {
                assert(rest[i] == v[i]);
            }
        }
    }
}

proof fn lemma_some_argument(v: Seq<Argument>)
    ensures
        arguments_render(v) <==> exists|i: int| 0 <= i < v.len() && argument_renders(#[trigger] v[i]),
    decreases v.len(),
{
    if v.len() > 0 {
        let rest = v.drop_last();
        lemma_some_argument(rest);
        if arguments_render(rest) {
            let i = choose|i: int| 0 <= i < rest.len() && argument_renders(#[trigger] rest[i]);
            assert(v[i] == rest[i]);
        }
        if exists|i: int| 0 <= i < v.len() && argument_renders(#[trigger] v[i]) {
            let i = choose|i: int| 0 <= i < v.len() && argument_renders(#[trigger] v[i]);
            if i < rest.len() {
                assert(rest[i] == v[i]);
            }
        }
    }
}

proof fn lemma_some_child(v: Seq<JsxChild>)
    ensures
        children_render(v) <==> exists|i: int| 0 <= i < v.len() && child_renders(#[trigger] v[i]),
    decreases v.len(),
{
    if v.len() > 0 {
        let rest = v.drop_last();
        lemma_some_child(rest);
        if children_render(rest) {
            let i = choose|i: int| 0 <= i < rest.len() && child_renders(#[trigger] rest[i]);
            assert(v[i] == rest[i]);
        }
        if exists|i: int| 0 <= i < v.len() && child_renders(#[trigger] v[i]) {
            let i = choose|i: int| 0 <= i < v.len() && child_renders(#[trigger] v[i]);
            if i < rest.len() {
                assert(rest[i] == v[i]);
            }
        }
    }
}

proof fn lemma_in_body(f: Function, b: Node)
    requires
        in_body(f, b),
        node_renders(b),
    ensures
        body_renders(f.body),
{
    let body = f.body->0;
    let s = b->Statement_0;
    let i = choose|i: int| 0 <= i < body@.len() && body@[i] == s;
    lemma_some_statement(body@);
    assert(statement_renders(body@[i]));
}

proof fn lemma_in_children(v: Seq<JsxChild>, b: Node)
    requires
        b matches Node::Child(x) && v.contains(x),
        node_renders(b),
    ensures
        children_render(v),
{
    let x = b->Child_0;
    let i = choose|i: int| 0 <= i < v.len() && v[i] == x;
    lemma_some_child(v);
    assert(child_renders(v[i]));
}

proof fn lemma_renders_step(a: Node, b: Node)
    requires
        renders_through(a, b),
        node_renders(b),
    ensures
        node_renders(a),
{
    match a {
        Node::Statement(s) => match s {
            Statement::Declaration(Declaration::Variable(v)) => {
                let e = b->Expression_0;
                let i = choose|i: int| 0 <= i < v@.len() && (#[trigger] v@[i]).init == Some(e);
                lemma_some_declarator(v@);
                assert(declarator_renders(v@[i]));
            },
            Statement::Block(v) => {
                let x = b->Statement_0;
                let i = choose|i: int| 0 <= i < v@.len() && v@[i] == x;
                lemma_some_statement(v@);
                assert(statement_renders(v@[i]));
            },
            Statement::If(x) => {
                assert(statement_renders(x.consequent) || (x.alternate matches Some(y)
                    && statement_renders(y)));
            },
            _ => {},
        },
        Node::Expression(e) => match e.kind {
            ExpressionKind::JsxFragment(v) => {
                lemma_in_children(v@, b);
            },
            ExpressionKind::Arrow(f) => {
                lemma_in_body(*f, b);
            },
            ExpressionKind::Call(x) => {
                let v = x.arguments@;
                let i = choose|i: int|
                    0 <= i < v.len() && (false || !(#[trigger] v[i]).spread) && b
                        == Node::Expression(v[i].expression);
                lemma_some_argument(v);
                assert(argument_renders(v[i]));
            },
            _ => {},
        },
        Node::Element(el) => {
            lemma_in_children(el.children@, b);
        },
        Node::Child(child) => match child {
            JsxChild::Fragment(v) => {
                lemma_in_children(v@, b);
            },
            JsxChild::Container(k) => {
                assert(container_renders(k));
            },
            JsxChild::Element(el) => {
                assert(element_renders(*el));
            },
            JsxChild::Other => {},
        },
        _ => {},
    }
}

proof fn lemma_reached(path: Seq<Node>)
    requires
        reaches_children(path),
    ensures
        node_renders(path[0]),
    decreases path.len(),
{
    if path.len() > 1 {
        let rest = path.skip(1);
        assert forall|i: int| 0 <= i < rest.len() - 1 implies #[trigger] passes_on(rest, i) by {
            assert(passes_on(path, i + 1));
            assert(rest[i] == path[i + 1] && rest[i + 1] == path[i + 2]);
        }
        assert(rest.last() == path.last());
        lemma_reached(rest);
        assert(passes_on(path, 0));
        assert(rest[0] == path[1]);
        lemma_renders_step(path[0], path[1]);
    }
}

proof fn lemma_longer_path(a: Node, path: Seq<Node>) -> (r: Seq<Node>)
    requires
        reaches_children(path),
        renders_through(a, path[0]),
    ensures
        reaches_children(r),
        r[0] == a,
{
    let r = seq![a] + path;
    assert forall|i: int| 0 <= i < r.len() - 1 implies #[trigger] passes_on(r, i) by {
        if i > 0 {
            assert(passes_on(path, i - 1));
            assert(r[i] == path[i - 1] && r[i + 1] == path[i]);
        } else {
            assert(r[0] == a && r[1] == path[0]);
        }
    }
    assert(r.last() == path.last());
    r
}

proof fn path_of_statement(s: Statement) -> (r: Seq<Node>)
    requires
        statement_renders(s),
    ensures
        reaches_children(r),
        r[0] == Node::Statement(s),
    decreases s, 0nat,
{
    match s {
        Statement::Return(Some(e)) => {
            let p = path_of(e);
            lemma_longer_path(Node::Statement(s), p)
        },
        Statement::Expression(e) => {
            let p = path_of(e);
            lemma_longer_path(Node::Statement(s), p)
        },
        Statement::Block(v) => {
            lemma_some_statement(v@);
            let i = choose|i: int| 0 <= i < v@.len() && statement_renders(#[trigger] v@[i]);
            let p = path_of_statement(v@[i]);
            lemma_longer_path(Node::Statement(s), p)
        },
        Statement::If(x) => {
            if statement_renders(x.consequent) {
                let p = path_of_statement(x.consequent);
                lemma_longer_path(Node::Statement(s), p)
            } else {
                let p = path_of_statement(x.alternate->0);
                lemma_longer_path(Node::Statement(s), p)
            }
        },
        Statement::Declaration(Declaration::Variable(v)) => {
            lemma_some_declarator(v@);
            let i = choose|i: int| 0 <= i < v@.len() && declarator_renders(#[trigger] v@[i]);
            let p = path_of(v@[i].init->0);
            lemma_longer_path(Node::Statement(s), p)
        },
        _ => Seq::empty(),
    }
}

proof fn path_of(e: Expression) -> (r: Seq<Node>)
    requires
        renders(e),
    ensures
        reaches_children(r),
        r[0] == Node::Expression(e),
    decreases e, 0nat,
{
    let n = Node::Expression(e);
    match e.kind {
        ExpressionKind::JsxElement(el) => {
            let p = path_of_element(*el);
            lemma_longer_path(n, p)
        },
        ExpressionKind::JsxFragment(v) => {
            lemma_some_child(v@);
            let i = choose|i: int| 0 <= i < v@.len() && child_renders(#[trigger] v@[i]);
            let p = path_of_child(v@[i]);
            lemma_longer_path(n, p)
        },
        ExpressionKind::Conditional(x) => {
            if renders(x.consequent) {
                let p = path_of(x.consequent);
                lemma_longer_path(n, p)
            } else {
                let p = path_of(x.alternate);
                lemma_longer_path(n, p)
            }
        },
        ExpressionKind::Logical(x) => {
            let p = path_of(x.right);
            lemma_longer_path(n, p)
        },
        ExpressionKind::Parenthesized(x) => {
            let p = path_of(*x);
            lemma_longer_path(n, p)
        },
        ExpressionKind::Arrow(f) => {
            assert(body_renders(f.body));
            let v = f.body->0;
            lemma_some_statement(v@);
            let i = choose|i: int| 0 <= i < v@.len() && statement_renders(#[trigger] v@[i]);
            let p = path_of_statement(v@[i]);
            lemma_longer_path(n, p)
        },
        ExpressionKind::Call(x) => {
            let v = x.arguments@;
            lemma_some_argument(v);
            let i = choose|i: int| 0 <= i < v.len() && argument_renders(#[trigger] v[i]);
            let p = path_of(v[i].expression);
            lemma_longer_path(n, p)
        },
        ExpressionKind::Sequence(v) => {
            let p = path_of(v@[v@.len() - 1]);
            lemma_longer_path(n, p)
        },
        _ => {
            let r = seq![n];
            assert(names_children(r.last()));
            r
        },
    }
}

proof fn path_of_element(el: JsxElement) -> (r: Seq<Node>)
    requires
        element_renders(el),
    ensures
        reaches_children(r),
        r[0] == Node::Element(el),
    decreases el, 0nat,
{
    let v = el.children@;
    lemma_some_child(v);
    let i = choose|i: int| 0 <= i < v.len() && child_renders(#[trigger] v[i]);
    let p = path_of_child(v[i]);
    lemma_longer_path(Node::Element(el), p)
}

proof fn path_of_child(child: JsxChild) -> (r: Seq<Node>)
    requires
        child_renders(child),
    ensures
        reaches_children(r),
        r[0] == Node::Child(child),
    decreases child, 0nat,
{
    let n = Node::Child(child);
    match child {
        JsxChild::Container(k) => {
            let e = k.expression->0;
            let p = path_of(e);
            let q = lemma_longer_path(Node::Braced(e), p);
            lemma_longer_path(n, q)
        },
        JsxChild::Element(el) => {
            let p = path_of_element(*el);
            lemma_longer_path(n, p)
        },
        JsxChild::Fragment(v) => {
            lemma_some_child(v@);
            let i = choose|i: int| 0 <= i < v@.len() && child_renders(#[trigger] v@[i]);
            let p = path_of_child(v@[i]);
            lemma_longer_path(n, p)
        },
        JsxChild::Other => Seq::empty(),
    }
}

/// A function renders its children exactly where a chain of nodes leads from a statement of
/// its body to `children` or `props.children`.
pub proof fn children_are_rendered_where_they_are_reached(f: Function)
    ensures
        body_renders(f.body) <==> exists|path: Seq<Node>| #[trigger]
            reaches_children(path) && in_body(f, path[0]),
{
    if body_renders(f.body) {
        let v = f.body->0;
        lemma_some_statement(v@);
        let i = choose|i: int| 0 <= i < v@.len() && statement_renders(#[trigger] v@[i]);
        let path = path_of_statement(v@[i]);
        assert(reaches_children(path) && in_body(f, path[0]));
    }
    if exists|path: Seq<Node>| #[trigger] reaches_children(path) && in_body(f, path[0]) {
        let path = choose|path: Seq<Node>| #[trigger]
            reaches_children(path) && in_body(f, path[0]);
        lemma_reached(path);
        lemma_in_body(f, path[0]);
    }
}

// ── What wraps children is found ────────────────────────────────────────

/// Whether an element stands right around `{children}`.
pub open spec fn holds_children(el: JsxElement) -> bool {
    exists|i: int|
        0 <= i < el.children@.len() && (#[trigger] el.children@[i] matches JsxChild::Container(k)
            && k.expression matches Some(e) && names_children(Node::Expression(e)))
}

/// Whether a wrapper is looked for in a node because it stands directly in another one. It
/// is not looked for in arguments, nor below an element that holds `{children}`; in braces,
/// only elements, fragments and conditions count.
pub open spec fn may_wrap_in(a: Node, b: Node) -> bool {
    match a {
        Node::Expression(e) => e.kind !is Call && e.kind !is Sequence && renders_through(a, b),
        Node::Braced(e) => (e.kind is JsxElement || e.kind is JsxFragment || e.kind is Conditional)
            && b == Node::Expression(e),
        Node::Element(el) => !holds_children(el) && renders_through(a, b),
        _ => renders_through(a, b),
    }
}

/// Whether a sequence of nodes, each standing directly in the one before, ends in a
/// component of the given name right around `{children}`.
pub open spec fn leads_to_wrapper(path: Seq<Node>, name: Seq<char>) -> bool {
    &&& path.len() > 0
    &&& path.last() matches Node::Element(el) && holds_children(el) && plain_name(el.name) == name
        && is_component_name(name)
    &&& forall|i: int| 0 <= i < path.len() - 1 ==> #[trigger] looks_into(path, i)
}

pub open spec fn looks_into(path: Seq<Node>, i: int) -> bool {
    may_wrap_in(path[i], path[i + 1])
}

spec fn node_wrapper(n: Node) -> Option<Seq<char>> {
    match n {
        Node::Statement(s) => wrapper_in_statement(s),
        Node::Expression(e) => wrapper_in(e),
        Node::Braced(e) => if e.kind is JsxElement || e.kind is JsxFragment
            || e.kind is Conditional {
            wrapper_in(e)
        } else {
            None
        },
        Node::Element(el) => wrapper_in_element(el),
        Node::Child(child) => wrapper_in_child(child),
        _ => None,
    }
}

proof fn lemma_passthrough(el: JsxElement)
    ensures
        holds_children(el) <==> any_direct_passthrough(el.children@),
{
    let v = el.children@;
    assert forall|i: int| 0 <= i < v.len() implies (is_direct_passthrough(#[trigger] v[i]) <==> (
    v[i] matches JsxChild::Container(k) && k.expression matches Some(e) && names_children(
        Node::Expression(e),
    ))) by {}
}

proof fn lemma_find_statement(v: Seq<Statement>)
    ensures
        wrapper_in_statements(v) is Some <==> exists|i: int| 0 <= i < v.len() && wrapper_in_statement(#[trigger] v[i]) is Some,
        wrapper_in_statements(v) is Some ==> exists|i: int|
            0 <= i < v.len() && wrapper_in_statement(#[trigger] v[i]) == wrapper_in_statements(v),
    decreases v.len(),
{
    if v.len() > 0 {
        let rest = v.drop_last();
        lemma_find_statement(rest);
        if wrapper_in_statements(rest) is Some {
            let i = choose|i: int|
                0 <= i < rest.len() && wrapper_in_statement(#[trigger] rest[i]) == wrapper_in_statements(rest);
            assert(v[i] == rest[i]);
        } else {
            assert(wrapper_in_statement(v[v.len() - 1]) == wrapper_in_statements(v));
        }
        if exists|i: int| 0 <= i < v.len() && wrapper_in_statement(#[trigger] v[i]) is Some {
            let i = choose|i: int| 0 <= i < v.len() && wrapper_in_statement(#[trigger] v[i]) is Some;
            if i < rest.len() {
                assert(rest[i] == v[i]);
            }
        }
    }
}

proof fn lemma_find_declarator(v: Seq<VariableDeclarator>)
    ensures
        wrapper_in_declarators(v) is Some <==> exists|i: int| 0 <= i < v.len() && wrapper_in_declarator(#[trigger] v[i]) is Some,
        wrapper_in_declarators(v) is Some ==> exists|i: int|
            0 <= i < v.len() && wrapper_in_declarator(#[trigger] v[i]) == wrapper_in_declarators(v),
    decreases v.len(),
{
    if v.len() > 0 {
        let rest = v.drop_last();
        lemma_find_declarator(rest);
        if wrapper_in_declarators(rest) is Some {
            let i = choose|i: int|
                0 <= i < rest.len() && wrapper_in_declarator(#[trigger] rest[i]) == wrapper_in_declarators(rest);
            assert(v[i] == rest[i]);
        } else {
            assert(wrapper_in_declarator(v[v.len() - 1]) == wrapper_in_declarators(v));
        }
        if exists|i: int| 0 <= i < v.len() && wrapper_in_declarator(#[trigger] v[i]) is Some {
            let i = choose|i: int| 0 <= i < v.len() && wrapper_in_declarator(#[trigger] v[i]) is Some;
            if i < rest.len() {
                assert(rest[i] == v[i]);
            }
        }
    }
}

proof fn lemma_find_child(v: Seq<JsxChild>)
    ensures
        wrapper_in_children(v) is Some <==> exists|i: int| 0 <= i < v.len() && wrapper_in_child(#[trigger] v[i]) is Some,
        wrapper_in_children(v) is Some ==> exists|i: int|
            0 <= i < v.len() && wrapper_in_child(#[trigger] v[i]) == wrapper_in_children(v),
    decreases v.len(),
{
    if v.len() > 0 {
        let rest = v.drop_last();
        lemma_find_child(rest);
        if wrapper_in_children(rest) is Some {
            let i = choose|i: int|
                0 <= i < rest.len() && wrapper_in_child(#[trigger] rest[i]) == wrapper_in_children(rest);
            assert(v[i] == rest[i]);
        } else {
            assert(wrapper_in_child(v[v.len() - 1]) == wrapper_in_children(v));
        }
        if exists|i: int| 0 <= i < v.len() && wrapper_in_child(#[trigger] v[i]) is Some {
            let i = choose|i: int| 0 <= i < v.len() && wrapper_in_child(#[trigger] v[i]) is Some;
            if i < rest.len() {
                assert(rest[i] == v[i]);
            }
        }
    }
}

proof fn lemma_find_in_body(f: Function, b: Node)
    requires
        in_body(f, b),
        node_wrapper(b) is Some,
    ensures
        wrapper_in_body(f.body) is Some,
{
    let body = f.body->0;
    let s = b->Statement_0;
    let i = choose|i: int| 0 <= i < body@.len() && body@[i] == s;
    lemma_find_statement(body@);
    assert(wrapper_in_statement(body@[i]) is Some);
}

proof fn lemma_find_in_children(v: Seq<JsxChild>, b: Node)
    requires
        b matches Node::Child(x) && v.contains(x),
        node_wrapper(b) is Some,
    ensures
        wrapper_in_children(v) is Some,
{
    let x = b->Child_0;
    let i = choose|i: int| 0 <= i < v.len() && v[i] == x;
    lemma_find_child(v);
    assert(wrapper_in_child(v[i]) is Some);
}

proof fn lemma_wrapper_step(a: Node, b: Node)
    requires
        may_wrap_in(a, b),
        node_wrapper(b) is Some,
    ensures
        node_wrapper(a) is Some,
{
    match a {
        Node::Statement(s) => match s {
            Statement::Declaration(Declaration::Variable(v)) => {
                let e = b->Expression_0;
                let i = choose|i: int| 0 <= i < v@.len() && (#[trigger] v@[i]).init == Some(e);
                lemma_find_declarator(v@);
                assert(wrapper_in_declarator(v@[i]) is Some);
            },
            Statement::Block(v) => {
                let x = b->Statement_0;
                let i = choose|i: int| 0 <= i < v@.len() && v@[i] == x;
                lemma_find_statement(v@);
                assert(wrapper_in_statement(v@[i]) is Some);
            },
            Statement::If(x) => {
                assert(wrapper_in_statement(x.consequent) is Some || (x.alternate matches Some(y)
                    && wrapper_in_statement(y) is Some));
            },
            _ => {},
        },
        Node::Expression(e) => match e.kind {
            ExpressionKind::JsxFragment(v) => {
                lemma_find_in_children(v@, b);
            },
            ExpressionKind::Arrow(f) => {
                lemma_find_in_body(*f, b);
            },
            _ => {},
        },
        Node::Element(el) => {
            lemma_passthrough(el);
            lemma_find_in_children(el.children@, b);
        },
        Node::Child(child) => match child {
            JsxChild::Fragment(v) => {
                lemma_find_in_children(v@, b);
            },
            JsxChild::Container(k) => {
                let e = k.expression->0;
                assert(wrapper_in_container(k) == node_wrapper(Node::Braced(e))) by {
                    assert(wrapper_in(e) is Some);
                }
            },
            JsxChild::Element(el) => {
                assert(wrapper_in_element(*el) is Some);
            },
            JsxChild::Other => {},
        },
        _ => {},
    }
}

proof fn lemma_wrapper_reached(path: Seq<Node>, name: Seq<char>)
    requires
        leads_to_wrapper(path, name),
    ensures
        node_wrapper(path[0]) is Some,
    decreases path.len(),
{
    if path.len() > 1 {
        let rest = path.skip(1);
        assert forall|i: int| 0 <= i < rest.len() - 1 implies #[trigger] looks_into(rest, i) by {
            assert(looks_into(path, i + 1));
            assert(rest[i] == path[i + 1] && rest[i + 1] == path[i + 2]);
        }
        assert(rest.last() == path.last());
        lemma_wrapper_reached(rest, name);
        assert(looks_into(path, 0));
        assert(rest[0] == path[1]);
        lemma_wrapper_step(path[0], path[1]);
    } else {
        lemma_passthrough(path[0]->Element_0);
    }
}

proof fn lemma_longer_lead(a: Node, path: Seq<Node>, name: Seq<char>) -> (r: Seq<Node>)
    requires
        leads_to_wrapper(path, name),
        may_wrap_in(a, path[0]),
    ensures
        leads_to_wrapper(r, name),
        r[0] == a,
{
    let r = seq![a] + path;
    assert forall|i: int| 0 <= i < r.len() - 1 implies #[trigger] looks_into(r, i) by {
        if i > 0 {
            assert(looks_into(path, i - 1));
            assert(r[i] == path[i - 1] && r[i + 1] == path[i]);
        } else {
            assert(r[0] == a && r[1] == path[0]);
        }
    }
    assert(r.last() == path.last());
    r
}

proof fn lead_of_statement(s: Statement, name: Seq<char>) -> (r: Seq<Node>)
    requires
        wrapper_in_statement(s) == Some(name),
    ensures
        leads_to_wrapper(r, name),
        r[0] == Node::Statement(s),
    decreases s, 0nat,
{
    let n = Node::Statement(s);
    match s {
        Statement::Return(Some(e)) => {
            let p = lead_of(e, name);
            lemma_longer_lead(n, p, name)
        },
        Statement::Expression(e) => {
            let p = lead_of(e, name);
            lemma_longer_lead(n, p, name)
        },
        Statement::Block(v) => {
            lemma_find_statement(v@);
            let i = choose|i: int|
                0 <= i < v@.len() && wrapper_in_statement(#[trigger] v@[i])
                    == wrapper_in_statements(v@);
            let p = lead_of_statement(v@[i], name);
            lemma_longer_lead(n, p, name)
        },
        Statement::If(x) => {
            if wrapper_in_statement(x.consequent) is Some {
                let p = lead_of_statement(x.consequent, name);
                lemma_longer_lead(n, p, name)
            } else {
                let p = lead_of_statement(x.alternate->0, name);
                lemma_longer_lead(n, p, name)
            }
        },
        Statement::Declaration(Declaration::Variable(v)) => {
            lemma_find_declarator(v@);
            let i = choose|i: int|
                0 <= i < v@.len() && wrapper_in_declarator(#[trigger] v@[i])
                    == wrapper_in_declarators(v@);
            let p = lead_of(v@[i].init->0, name);
            lemma_longer_lead(n, p, name)
        },
        _ => Seq::empty(),
    }
}

proof fn lead_of(e: Expression, name: Seq<char>) -> (r: Seq<Node>)
    requires
        wrapper_in(e) == Some(name),
    ensures
        leads_to_wrapper(r, name),
        r[0] == Node::Expression(e),
    decreases e, 0nat,
{
    let n = Node::Expression(e);
    match e.kind {
        ExpressionKind::JsxElement(el) => {
            let p = lead_of_element(*el, name);
            lemma_longer_lead(n, p, name)
        },
        ExpressionKind::JsxFragment(v) => {
            lemma_find_child(v@);
            let i = choose|i: int|
                0 <= i < v@.len() && wrapper_in_child(#[trigger] v@[i]) == wrapper_in_children(v@);
            let p = lead_of_child(v@[i], name);
            lemma_longer_lead(n, p, name)
        },
        ExpressionKind::Conditional(x) => {
            if wrapper_in(x.consequent) is Some {
                let p = lead_of(x.consequent, name);
                lemma_longer_lead(n, p, name)
            } else {
                let p = lead_of(x.alternate, name);
                lemma_longer_lead(n, p, name)
            }
        },
        ExpressionKind::Logical(x) => {
            let p = lead_of(x.right, name);
            lemma_longer_lead(n, p, name)
        },
        ExpressionKind::Parenthesized(x) => {
            let p = lead_of(*x, name);
            lemma_longer_lead(n, p, name)
        },
        ExpressionKind::Arrow(f) => {
            assert(wrapper_in_body(f.body) == Some(name));
            let v = f.body->0;
            lemma_find_statement(v@);
            let i = choose|i: int|
                0 <= i < v@.len() && wrapper_in_statement(#[trigger] v@[i])
                    == wrapper_in_statements(v@);
            let p = lead_of_statement(v@[i], name);
            lemma_longer_lead(n, p, name)
        },
        _ => Seq::empty(),
    }
}

proof fn lead_of_element(el: JsxElement, name: Seq<char>) -> (r: Seq<Node>)
    requires
        wrapper_in_element(el) == Some(name),
    ensures
        leads_to_wrapper(r, name),
        r[0] == Node::Element(el),
    decreases el, 0nat,
{
    lemma_passthrough(el);
    if holds_children(el) {
        let r = seq![Node::Element(el)];
        assert(r.last() == Node::Element(el));
        r
    } else {
        let v = el.children@;
        lemma_find_child(v);
        let i = choose|i: int|
            0 <= i < v.len() && wrapper_in_child(#[trigger] v[i]) == wrapper_in_children(v);
        let p = lead_of_child(v[i], name);
        lemma_longer_lead(Node::Element(el), p, name)
    }
}

proof fn lead_of_child(child: JsxChild, name: Seq<char>) -> (r: Seq<Node>)
    requires
        wrapper_in_child(child) == Some(name),
    ensures
        leads_to_wrapper(r, name),
        r[0] == Node::Child(child),
    decreases child, 0nat,
{
    let n = Node::Child(child);
    match child {
        JsxChild::Element(el) => {
            let p = lead_of_element(*el, name);
            lemma_longer_lead(n, p, name)
        },
        JsxChild::Fragment(v) => {
            lemma_find_child(v@);
            let i = choose|i: int|
                0 <= i < v@.len() && wrapper_in_child(#[trigger] v@[i]) == wrapper_in_children(v@);
            let p = lead_of_child(v@[i], name);
            lemma_longer_lead(n, p, name)
        },
        JsxChild::Container(k) => {
            assert(wrapper_in_container(k) == Some(name));
            let e = k.expression->0;
            assert(wrapper_in(e) == Some(name));
            let p = lead_of(e, name);
            let q = lemma_longer_lead(Node::Braced(e), p, name);
            lemma_longer_lead(n, q, name)
        },
        JsxChild::Other => Seq::empty(),
    }
}

/// The wrapper of a function is a component right around `{children}` that a chain of nodes
/// leads to from its body, and one is found wherever such a chain exists.
pub proof fn wrappers_are_found(f: Function)
    ensures
        wrapper_in_body(f.body) matches Some(name) ==> exists|path: Seq<Node>| #[trigger]
            leads_to_wrapper(path, name) && in_body(f, path[0]),
        forall|path: Seq<Node>, name: Seq<char>| #[trigger]
            leads_to_wrapper(path, name) && in_body(f, path[0]) ==> wrapper_in_body(f.body) is Some,
{
    if let Some(name) = wrapper_in_body(f.body) {
        let v = f.body->0;
        lemma_find_statement(v@);
        let i = choose|i: int|
            0 <= i < v@.len() && wrapper_in_statement(#[trigger] v@[i])
                == wrapper_in_statements(v@);
        let path = lead_of_statement(v@[i], name);
        assert(leads_to_wrapper(path, name) && in_body(f, path[0]));
    }
    assert forall|path: Seq<Node>, name: Seq<char>| #[trigger]
        leads_to_wrapper(path, name) && in_body(f, path[0]) implies wrapper_in_body(
        f.body,
    ) is Some by {
        lemma_wrapper_reached(path, name);
        lemma_find_in_body(f, path[0]);
    }
}

/// Of two wrappers in the statements of a body, the first one counts.
pub proof fn the_first_wrapper_counts(a: Seq<Statement>, b: Seq<Statement>)
    ensures
        wrapper_in_statements(a) is Some ==> wrapper_in_statements(a + b) == wrapper_in_statements(
            a,
        ),
        wrapper_in_statements(a) is None ==> wrapper_in_statements(a + b) == wrapper_in_statements(
            b,
        ),
    decreases b.len(),
{
    if b.len() == 0 {
        assert(a + b =~= a);
    } else {
        the_first_wrapper_counts(a, b.drop_last());
        assert((a + b).drop_last() =~= a + b.drop_last());
        assert((a + b).last() == b.last());
    }
}

// ── Which components are transparent ────────────────────────────────────

/// Children come in through a parameter that is a plain name, or through a pattern that
/// takes `children` out.
pub proof fn children_come_in_through_parameters(params: Seq<Param>)
    ensures
        takes_children(params) <==> exists|i: int|
            0 <= i < params.len() && brings_children(#[trigger] params[i]),
{
    assert forall|i: int| 0 <= i < params.len() implies brings_children(#[trigger] params[i])
        == param_takes_children(params[i]) by {
        if let Param::ObjectPattern(keys) = params[i] {
            assert forall|k: int| 0 <= k < keys@.len() implies ((#[trigger] keys@[k] matches Some(
                t,
            ) && t@ == "children"@) <==> opt_text(keys@[k]) == Some("children"@)) by {}
            if param_takes_children(params[i]) {
                let k = choose|k: int|
                    0 <= k < keys@.len() && opt_text(#[trigger] keys@[k]) == Some("children"@);
                assert(keys@[k] is Some);
            }
        }
    }
}

pub open spec fn brings_children(p: Param) -> bool {
    p is Identifier || (p matches Param::ObjectPattern(keys) && exists|k: int|
        0 <= k < keys@.len() && (#[trigger] keys@[k] matches Some(t) && t@ == "children"@))
}

/// Whether an expression defines the same component as the one inside it: it is cast, stands
/// in parentheses, or is passed to `memo` or `forwardRef`.
pub open spec fn unwraps_to(e: Expression, inner: Expression) -> bool {
    match e.kind {
        ExpressionKind::TsAs(x) => inner == *x,
        ExpressionKind::TsSatisfies(x) => inner == *x,
        ExpressionKind::Parenthesized(x) => inner == *x,
        ExpressionKind::Call(c) => c.arguments@.len() > 0 && !c.arguments@[0].spread && inner
            == c.arguments@[0].expression && match c.callee.kind {
            ExpressionKind::Identifier(n) => n@ == "memo"@ || n@ == "forwardRef"@,
            ExpressionKind::StaticMember(m) => (m.property@ == "memo"@ || m.property@
                == "forwardRef"@) && (m.object.kind matches ExpressionKind::Identifier(o) && o@
                == "React"@),
            _ => false,
        },
        _ => false,
    }
}

pub open spec fn unwraps(path: Seq<Expression>, i: int) -> bool {
    unwraps_to(path[i], path[i + 1])
}

/// A component is defined by the function at the end of any chain of casts, parentheses and
/// calls of `memo` and `forwardRef`.
pub proof fn wrapped_functions_are_found(path: Seq<Expression>, f: Function)
    requires
        path.len() > 0,
        forall|i: int| 0 <= i < path.len() - 1 ==> #[trigger] unwraps(path, i),
        (path.last().kind matches ExpressionKind::Arrow(g) && *g == f) || (
        path.last().kind matches ExpressionKind::Function(g) && *g == f),
    ensures
        component_function(path[0]) == Some(f),
    decreases path.len(),
{
    if path.len() > 1 {
        let rest = path.skip(1);
        assert forall|i: int| 0 <= i < rest.len() - 1 implies #[trigger] unwraps(rest, i) by {
            assert(unwraps(path, i + 1));
            assert(rest[i] == path[i + 1] && rest[i + 1] == path[i + 2]);
        }
        assert(rest.last() == path.last());
        wrapped_functions_are_found(rest, f);
        assert(unwraps(path, 0));
        assert(rest[0] == path[1]);
    }
}

/// Whether a declaration gives a name to the function of a component.
pub open spec fn names_component(d: Declaration, name: Seq<char>, f: Function) -> bool {
    match d {
        Declaration::Function(g) => g == f && opt_text(g.id) == Some(name),
        Declaration::Variable(v) => exists|i: int|
            0 <= i < v@.len() && names_function(#[trigger] v@[i], name, f),
        _ => false,
    }
}

pub open spec fn names_function(d: VariableDeclarator, name: Seq<char>, f: Function) -> bool {
    opt_text(d.name) == Some(name) && (d.init matches Some(e) && component_function(e) == Some(f))
}

/// Whether a statement defines a component, exported or not.
pub open spec fn defines(s: Statement, name: Seq<char>, f: Function) -> bool {
    match s {
        Statement::Declaration(d) => names_component(d, name, f),
        Statement::ExportNamed(x) => x.declaration matches Some(d) && names_component(d, name, f),
        Statement::ExportDefaultFunction(g) => g == f && opt_text(g.id) == Some(name),
        _ => false,
    }
}

/// Whether a function takes its children and renders them.
pub open spec fn passes_children(f: Function) -> bool {
    takes_children(f.params@) && body_renders(f.body)
}

proof fn lemma_declarators_name(
    m: Map<Seq<char>, Option<Seq<char>>>,
    v: Seq<VariableDeclarator>,
    name: Seq<char>,
)
    ensures
        m.dom().subset_of(with_declarators(m, v).dom()),
        forall|i: int, f: Function|
            0 <= i < v.len() && #[trigger] names_function(v[i], name, f) && passes_children(f)
                ==> with_declarators(m, v).dom().contains(name),
        with_declarators(m, v).dom().contains(name) ==> (m.dom().contains(name)
            && with_declarators(m, v)[name] == m[name]) || exists|i: int, f: Function|
            0 <= i < v.len() && #[trigger] names_function(v[i], name, f) && passes_children(f)
                && with_declarators(m, v)[name] == wrapper_in_body(f.body),
    decreases v.len(),
{
    if v.len() > 0 {
        let rest = v.drop_last();
        let before = with_declarators(m, rest);
        lemma_declarators_name(m, rest, name);
        assert forall|i: int, f: Function|
            0 <= i < v.len() && #[trigger] names_function(v[i], name, f) && passes_children(
                f,
            ) implies with_declarators(m, v).dom().contains(name) by {
            if i < rest.len() {
                assert(names_function(rest[i], name, f));
            }
        }
        let after = with_declarators(m, v);
        if after.dom().contains(name) {
            let d = v.last();
            if d.init is Some && component_function(d.init->0) is Some && opt_text(d.name) == Some(
                name,
            ) && passes_children(component_function(d.init->0)->0) {
                let f = component_function(d.init->0)->0;
                assert(names_function(v[v.len() - 1], name, f));
            } else if !(m.dom().contains(name) && before[name] == m[name]) {
                let (i, f) = choose|i: int, f: Function|
                    0 <= i < rest.len() && #[trigger] names_function(rest[i], name, f)
                        && passes_children(f) && before[name] == wrapper_in_body(f.body);
                assert(names_function(v[i], name, f));
            }
        }
    }
}

proof fn lemma_declaration_names(
    m: Map<Seq<char>, Option<Seq<char>>>,
    d: Declaration,
    name: Seq<char>,
)
    ensures
        m.dom().subset_of(with_declaration(m, d).dom()),
        forall|f: Function| #[trigger]
            names_component(d, name, f) && passes_children(f) ==> with_declaration(
                m,
                d,
            ).dom().contains(name),
        with_declaration(m, d).dom().contains(name) ==> (m.dom().contains(name)
            && with_declaration(m, d)[name] == m[name]) || exists|f: Function| #[trigger]
            names_component(d, name, f) && passes_children(f) && with_declaration(m, d)[name]
                == wrapper_in_body(f.body),
{
    match d {
        Declaration::Variable(v) => {
            lemma_declarators_name(m, v@, name);
            let after = with_declarators(m, v@);
            if after.dom().contains(name) && !(m.dom().contains(name) && after[name] == m[name]) {
                let (i, f) = choose|i: int, f: Function|
                    0 <= i < v@.len() && #[trigger] names_function(v@[i], name, f)
                        && passes_children(f) && after[name] == wrapper_in_body(f.body);
                assert(names_component(d, name, f));
            }
        },
        Declaration::Function(f) => {
            if opt_text(f.id) == Some(name) && passes_children(f) {
                assert(names_component(d, name, f));
            }
        },
        _ => {},
    }
}

proof fn lemma_statement_defines(
    m: Map<Seq<char>, Option<Seq<char>>>,
    s: Statement,
    name: Seq<char>,
)
    ensures
        m.dom().subset_of(with_statement(m, s).dom()),
        forall|f: Function| #[trigger]
            defines(s, name, f) && passes_children(f) ==> with_statement(m, s).dom().contains(name),
        with_statement(m, s).dom().contains(name) ==> (m.dom().contains(name) && with_statement(
            m,
            s,
        )[name] == m[name]) || exists|f: Function| #[trigger]
            defines(s, name, f) && passes_children(f) && with_statement(m, s)[name]
                == wrapper_in_body(f.body),
{
    match s {
        Statement::ExportNamed(x) => {
            if let Some(d) = x.declaration {
                lemma_declaration_names(m, d, name);
                let after = with_declaration(m, d);
                if after.dom().contains(name) && !(m.dom().contains(name) && after[name]
                    == m[name]) {
                    let f = choose|f: Function| #[trigger]
                        names_component(d, name, f) && passes_children(f) && after[name]
                            == wrapper_in_body(f.body);
                    assert(defines(s, name, f));
                }
            }
        },
        Statement::ExportDefaultFunction(f) => {
            if opt_text(f.id) == Some(name) && passes_children(f) {
                assert(defines(s, name, f));
            }
        },
        Statement::Declaration(d) => {
            lemma_declaration_names(m, d, name);
            let after = with_declaration(m, d);
            if after.dom().contains(name) && !(m.dom().contains(name) && after[name] == m[name]) {
                let f = choose|f: Function| #[trigger]
                    names_component(d, name, f) && passes_children(f) && after[name]
                        == wrapper_in_body(f.body);
                assert(defines(s, name, f));
            }
        },
        _ => {},
    }
}

/// The components that are transparent are those that a statement defines with a function
/// that takes its children and renders them, and each has the wrapper of such a function.
pub proof fn transparent_components_pass_their_children(body: Seq<Statement>, name: Seq<char>)
    ensures
        forall|i: int, f: Function|
            0 <= i < body.len() && #[trigger] defines(body[i], name, f) && passes_children(f)
                ==> transparent_in(body).dom().contains(name),
        transparent_in(body).dom().contains(name) ==> exists|i: int, f: Function|
            0 <= i < body.len() && #[trigger] defines(body[i], name, f) && passes_children(f)
                && transparent_in(body)[name] == wrapper_in_body(f.body),
    decreases body.len(),
{
    if body.len() > 0 {
        let rest = body.drop_last();
        let before = transparent_in(rest);
        let after = transparent_in(body);
        transparent_components_pass_their_children(rest, name);
        lemma_statement_defines(before, body.last(), name);
        assert forall|i: int, f: Function|
            0 <= i < body.len() && #[trigger] defines(body[i], name, f) && passes_children(
                f,
            ) implies after.dom().contains(name) by {
            if i < rest.len() {
                assert(defines(rest[i], name, f));
            }
        }
        if after.dom().contains(name) {
            if before.dom().contains(name) && after[name] == before[name] {
                let (i, f) = choose|i: int, f: Function|
                    0 <= i < rest.len() && #[trigger] defines(rest[i], name, f) && passes_children(
                        f,
                    ) && before[name] == wrapper_in_body(f.body);
                assert(defines(body[i], name, f));
            } else {
                let f = choose|f: Function| #[trigger]
                    defines(body.last(), name, f) && passes_children(f) && after[name]
                        == wrapper_in_body(f.body);
                assert(defines(body[body.len() - 1], name, f));
            }
        }
    }
}

// ── What is re-exported ─────────────────────────────────────────────────

/// A re-export of everything brings each component in, one by names those of the names; what
/// it brings in takes the place of what was there, and the rest stays.
pub proof fn reexports_bring_components_in(
    m: Map<Seq<char>, Option<Seq<char>>>,
    from: Map<Seq<char>, Option<Seq<char>>>,
    kind: ReexportView,
    name: Seq<char>,
)
    ensures
        ({
            let brought = from.dom().contains(name) && (kind matches ReexportView::Named(names)
                ==> names.contains(name));
            let r = with_reexported(m, from, kind);
            &&& r.dom().contains(name) <==> brought || m.dom().contains(name)
            &&& brought ==> r[name] == from[name]
            &&& !brought && m.dom().contains(name) ==> r[name] == m[name]
        }),
{
    if let ReexportView::Named(names) = kind {
        lemma_named(m, from, names, names.len() as int, name);
        if names.contains(name) {
            let i = choose|i: int| 0 <= i < names.len() && names[i] == name;
            assert(names[i] == name);
        }
    }
}

proof fn lemma_named(
    m: Map<Seq<char>, Option<Seq<char>>>,
    from: Map<Seq<char>, Option<Seq<char>>>,
    names: Seq<Seq<char>>,
    n: int,
    name: Seq<char>,
)
    requires
        0 <= n <= names.len(),
    ensures
        ({
            let brought = from.dom().contains(name) && exists|i: int|
                0 <= i < n && #[trigger] names[i] == name;
            let r = with_named(m, from, names, n);
            &&& r.dom().contains(name) <==> brought || m.dom().contains(name)
            &&& brought ==> r[name] == from[name]
            &&& !brought && m.dom().contains(name) ==> r[name] == m[name]
        }),
    decreases n,
{
    if n > 0 {
        lemma_named(m, from, names, n - 1, name);
        if names[n - 1] == name {
            assert(exists|i: int| 0 <= i < n && #[trigger] names[i] == name);
        }
        if exists|i: int| 0 <= i < n && #[trigger] names[i] == name {
            let i = choose|i: int| 0 <= i < n && #[trigger] names[i] == name;
            if i < n - 1 {
                assert(exists|k: int| 0 <= k < n - 1 && #[trigger] names[k] == name);
            }
        }
    }
}

/// Every re-export of a program is known: all names of a module, or the given ones of it.
pub proof fn every_reexport_is_known(body: Seq<Statement>, i: int)
    requires
        0 <= i < body.len(),
    ensures
        body[i] matches Statement::ExportAll(source) ==> reexports_in(body).contains(
            (source@, ReexportView::All),
        ),
        body[i] matches Statement::ExportNamed(x) ==> x.source matches Some(source)
            ==> x.exported@.len() > 0 ==> reexports_in(body).contains(
            (source@, ReexportView::Named(texts(x.exported@))),
        ),
    decreases body.len(),
{
    let before = reexports_in(body.drop_last());
    let after = reexports_in(body);
    if i < body.len() - 1 {
        every_reexport_is_known(body.drop_last(), i);
        assert(body.drop_last()[i] == body[i]);
        assert forall|x: (Seq<char>, ReexportView)| before.contains(x) implies after.contains(
            x,
        ) by {
            let k = choose|k: int| 0 <= k < before.len() && before[k] == x;
            assert(after[k] == x);
        }
    } else if let Some(x) = reexport_of(body.last()) {
        assert(after[before.len() as int] == x);
    }
}

} // verus!
