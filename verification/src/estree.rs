//! Reading programs.
//!
//! Source text is parsed by `oxc_parser`, as TypeScript with JSX, and comes back
//! as an ESTree document. The functions named `*_read` say when a tree of this
//! library is what an ESTree node describes; the functions named `read_*` build
//! that tree.

use crate::ast::{
    Argument, Call, Conditional, Declaration, ExportNamed, Expression, ExpressionKind, Function,
    Heritage, IfStatement, ImportDeclaration, ImportKind, ImportSpecifier, Interface, JsxAttribute,
    JsxAttributeItem, JsxAttributeValue, JsxChild, JsxContainer, JsxElement, JsxName, Logical,
    ObjectMember, ObjectProperty, Param, Program, PropertyKey, Span, Statement, StaticMember,
    TemplateElement, TsType, TypeAlias, TypeReference, VariableDeclarator,
};
use crate::function_calls::{call_views, calls_in_order, read_calls};
use crate::json::{
    field, flag_at, json_denoted_deep, lemma_field_smaller, lemma_list_smaller, list_at, number_at,
    parse_json_deep, present, text_at, text_field, views, Json, JsonView,
};
use crate::text::{chars_of, opt_text, same_text, string_of};
use vstd::prelude::*;

verus! {

broadcast use {lemma_field_smaller, lemma_list_smaller};

/// The ESTree document, in TypeScript form, of what `oxc_parser` reads from a
/// source text as TypeScript with JSX, where it does not give up.
pub uninterp spec fn estree_of(source: Seq<char>) -> Option<Seq<char>>;

/// `oxc_parser::Parser::parse` with `SourceType::tsx`, and the program that it
/// returns printed with `Program::to_estree_json`, unless the parser says that it gave
/// up: a function of the source text alone, named by `estree_of`.
#[verifier::external_body]
fn parse_to_estree(source: &str) -> (r: Option<String>)
    ensures
        match r {
            Some(t) => estree_of(source@) == Some(t@),
            None => estree_of(source@) is None,
        },
{
    let allocator = oxc_allocator::Allocator::default();
    let ret = oxc_parser::Parser::new(&allocator, source, oxc_span::SourceType::tsx()).parse();
    if ret.panicked {
        return None;
    }
    Some(ret.program.to_estree_json(true, false))
}

// ── What a node describes ───────────────────────────────────────────────

/// The type of a node.
pub open spec fn node_type(j: JsonView) -> Seq<char> {
    text_at(j, "type"@)
}

/// The field of a node, null where it is missing.
pub open spec fn node_at(j: JsonView, key: Seq<char>) -> JsonView {
    match field(j, key) {
        Some(c) => c,
        None => JsonView::Null,
    }
}

pub open spec fn span_of(j: JsonView) -> Span {
    Span { start: number_at(j, "start"@), end: number_at(j, "end"@) }
}

/// The name of an identifier.
pub open spec fn name_of(j: JsonView) -> Seq<char> {
    text_at(j, "name"@)
}

/// The name in an import or export list: an identifier or a string.
pub open spec fn module_name_of(j: JsonView) -> Seq<char> {
    if node_type(j) == "Literal"@ {
        text_at(j, "value"@)
    } else {
        name_of(j)
    }
}

pub open spec fn is_string_literal(j: JsonView) -> bool {
    node_type(j) == "Literal"@ && text_field(j, "value"@) is Some
}

/// The bytes of a template piece. Its node also covers the delimiters around it.
pub open spec fn quasi_span(j: JsonView) -> Span {
    let outer = span_of(j);
    let closing: int = if flag_at(j, "tail"@) {
        1
    } else {
        2
    };
    Span {
        start: if outer.start < u32::MAX {
            (outer.start + 1) as u32
        } else {
            u32::MAX
        },
        end: if outer.end >= closing {
            (outer.end - closing) as u32
        } else {
            0
        },
    }
}

pub open spec fn quasi_read(q: TemplateElement, j: JsonView) -> bool {
    q.span == quasi_span(j) && q.raw@ == text_at(node_at(j, "value"@), "raw"@)
}

pub open spec fn key_read(k: PropertyKey, key: JsonView, computed: bool) -> bool {
    if node_type(key) == "Identifier"@ && !computed {
        k matches PropertyKey::Static(s) && s@ == name_of(key)
    } else if is_string_literal(key) {
        k matches PropertyKey::Str(s) && s@ == text_at(key, "value"@)
    } else {
        k is Other
    }
}

/// The plain key of one entry of an object pattern.
pub open spec fn pattern_key(j: JsonView) -> Option<Seq<char>> {
    if node_type(j) == "Property"@ && !flag_at(j, "computed"@) && node_type(node_at(j, "key"@))
        == "Identifier"@ {
        Some(name_of(node_at(j, "key"@)))
    } else {
        None
    }
}

/// The pattern of a parameter, without its default value.
pub open spec fn param_pattern(j: JsonView) -> JsonView {
    if node_type(j) == "AssignmentPattern"@ {
        node_at(j, "left"@)
    } else {
        j
    }
}

pub open spec fn param_read(p: Param, j: JsonView) -> bool {
    let pattern = param_pattern(j);
    if node_type(pattern) == "ObjectPattern"@ {
        let list = list_at(pattern, "properties"@);
        p matches Param::ObjectPattern(keys) && keys@.len() == list.len() && forall|i: int|
            0 <= i < list.len() ==> opt_text(#[trigger] keys@[i]) == pattern_key(list[i])
    } else if node_type(pattern) == "Identifier"@ && name_of(pattern) != "this"@ {
        p is Identifier
    } else {
        p is Other
    }
}

pub open spec fn jsx_name_read(n: JsxName, j: JsonView) -> bool
    decreases j,
{
    if node_type(j) == "JSXMemberExpression"@ && field(j, "object"@) is Some {
        n matches JsxName::Member(object, property) && property@ == name_of(node_at(j, "property"@))
            && jsx_name_read(*object, field(j, "object"@)->0)
    } else if node_type(j) == "JSXNamespacedName"@ {
        n matches JsxName::Namespaced(space, name) && space@ == name_of(node_at(j, "namespace"@))
            && name@ == name_of(node_at(j, "name"@))
    } else if name_of(j) == "this"@ {
        n is This
    } else {
        n matches JsxName::Identifier(s) && s@ == name_of(j)
    }
}

pub open spec fn type_read(t: TsType, j: JsonView) -> bool
    decreases j,
{
    if node_type(j) == "TSTypeReference"@ {
        let list = type_arguments(j);
        t matches TsType::Reference(r) && r.name_span == span_of(node_at(j, "typeName"@))
            && r.arguments@.len() == list.len() && forall|i: int|
            0 <= i < list.len() ==> type_read(#[trigger] r.arguments@[i], list[i])
    } else if node_type(j) == "TSUnionType"@ {
        let list = list_at(j, "types"@);
        t matches TsType::Union(v) && v@.len() == list.len() && forall|i: int|
            0 <= i < list.len() ==> type_read(#[trigger] v@[i], list[i])
    } else if node_type(j) == "TSIntersectionType"@ {
        let list = list_at(j, "types"@);
        t matches TsType::Intersection(v) && v@.len() == list.len() && forall|i: int|
            0 <= i < list.len() ==> type_read(#[trigger] v@[i], list[i])
    } else if node_type(j) == "TSArrayType"@ && field(j, "elementType"@) is Some {
        t matches TsType::Array(e) && type_read(*e, field(j, "elementType"@)->0)
    } else {
        t is Other
    }
}

/// The type arguments of a type reference.
pub open spec fn type_arguments(j: JsonView) -> Seq<JsonView> {
    match field(j, "typeArguments"@) {
        Some(a) => list_at(a, "params"@),
        None => Seq::empty(),
    }
}

pub open spec fn import_specifier_read(s: ImportSpecifier, j: JsonView) -> bool {
    &&& s.span == span_of(j)
    &&& s.local@ == name_of(node_at(j, "local"@))
    &&& if node_type(j) == "ImportSpecifier"@ {
        s.kind matches ImportKind::Named(n) && n@ == module_name_of(node_at(j, "imported"@))
    } else if node_type(j) == "ImportDefaultSpecifier"@ {
        s.kind is Default
    } else {
        s.kind is Namespace
    }
}

pub open spec fn import_read(d: ImportDeclaration, j: JsonView) -> bool {
    let list = list_at(j, "specifiers"@);
    &&& d.span == span_of(j)
    &&& d.source@ == text_at(node_at(j, "source"@), "value"@)
    &&& d.specifiers@.len() == list.len()
    &&& forall|i: int|
        0 <= i < list.len() ==> import_specifier_read(#[trigger] d.specifiers@[i], list[i])
}

pub open spec fn heritage_read(h: Heritage, j: JsonView) -> bool {
    h.span == span_of(j) && h.expression_span == span_of(node_at(j, "expression"@))
}

pub open spec fn interface_read(d: Interface, j: JsonView) -> bool {
    let list = list_at(j, "extends"@);
    &&& d.name@ == name_of(node_at(j, "id"@))
    &&& d.name_span == span_of(node_at(j, "id"@))
    &&& d.extends@.len() == list.len()
    &&& forall|i: int| 0 <= i < list.len() ==> heritage_read(#[trigger] d.extends@[i], list[i])
}

pub open spec fn type_alias_read(d: TypeAlias, j: JsonView) -> bool {
    &&& d.name@ == name_of(node_at(j, "id"@))
    &&& d.name_span == span_of(node_at(j, "id"@))
    &&& type_read(d.annotation, node_at(j, "typeAnnotation"@))
}

/// The type annotation of a variable: the type inside the annotation node.
pub open spec fn annotation_of(id: JsonView) -> Option<JsonView> {
    match present(id, "typeAnnotation"@) {
        Some(a) => Some(node_at(a, "typeAnnotation"@)),
        None => None,
    }
}

/// The annotations of parameters, in order.
pub open spec fn param_types(params: Seq<JsonView>) -> Seq<JsonView>
    decreases params.len(),
{
    if params.len() == 0 {
        Seq::empty()
    } else {
        let before = param_types(params.drop_last());
        match annotation_of(param_pattern(params.last())) {
            Some(t) => before.push(t),
            None => before,
        }
    }
}

/// The types in the signature of a function: those of its parameters, then that of its
/// result.
pub open spec fn signature_of(j: JsonView) -> Seq<JsonView> {
    let params = param_types(list_at(j, "params"@));
    match present(j, "returnType"@) {
        Some(a) => params.push(node_at(a, "typeAnnotation"@)),
        None => params,
    }
}

pub open spec fn types_read(v: Seq<TsType>, nodes: Seq<JsonView>) -> bool {
    &&& v.len() == nodes.len()
    &&& forall|i: int| 0 <= i < nodes.len() ==> type_read(#[trigger] v[i], nodes[i])
}

/// Whether a node is a call whose arguments an optional chain passes on.
pub open spec fn is_chain_call(j: JsonView) -> bool {
    node_type(j) == "ChainExpression"@ && field(j, "expression"@) is Some && node_type(
        field(j, "expression"@)->0,
    ) == "CallExpression"@
}

pub open spec fn argument_read(a: Argument, j: JsonView) -> bool
    decreases j, 3nat,
{
    if node_type(j) == "SpreadElement"@ && field(j, "argument"@) is Some {
        a.spread && expression_read(a.expression, field(j, "argument"@)->0)
    } else {
        !a.spread && expression_read(a.expression, j)
    }
}

pub open spec fn element_read(e: Option<Expression>, j: JsonView) -> bool
    decreases j, 3nat,
{
    if j is Null || node_type(j) == "SpreadElement"@ {
        e is None
    } else {
        e matches Some(x) && expression_read(x, j)
    }
}

pub open spec fn member_read(m: ObjectMember, j: JsonView) -> bool
    decreases j, 0nat,
{
    if node_type(j) == "Property"@ && field(j, "value"@) is Some {
        m matches ObjectMember::Property(p) && p.key_span == span_of(node_at(j, "key"@))
            && key_read(p.key, node_at(j, "key"@), flag_at(j, "computed"@)) && expression_read(
            p.value,
            field(j, "value"@)->0,
        )
    } else {
        m is Spread
    }
}

pub open spec fn container_read(c: JsxContainer, j: JsonView) -> bool
    decreases j, 0nat,
{
    &&& c.span == span_of(j)
    &&& if field(j, "expression"@) is Some && node_type(field(j, "expression"@)->0)
        != "JSXEmptyExpression"@ {
        c.expression matches Some(e) && expression_read(e, field(j, "expression"@)->0)
    } else {
        c.expression is None
    }
}

pub open spec fn attribute_value_read(v: JsxAttributeValue, j: JsonView) -> bool
    decreases j, 1nat,
{
    if is_string_literal(j) {
        v matches JsxAttributeValue::Str(span, s) && span == span_of(j) && s@ == text_at(
            j,
            "value"@,
        )
    } else if node_type(j) == "JSXExpressionContainer"@ {
        v matches JsxAttributeValue::Container(c) && container_read(c, j)
    } else {
        v is Other
    }
}

pub open spec fn attribute_read(a: JsxAttributeItem, j: JsonView) -> bool
    decreases j, 0nat,
{
    if node_type(j) == "JSXAttribute"@ {
        let name = node_at(j, "name"@);
        a matches JsxAttributeItem::Attribute(x) && x.name_span == span_of(name) && opt_text(x.name)
            == (if node_type(name) == "JSXIdentifier"@ {
            Some(name_of(name))
        } else {
            None
        }) && match present(j, "value"@) {
            Some(v) => x.value matches Some(w) && attribute_value_read(w, v),
            None => x.value is None,
        }
    } else {
        a is Spread
    }
}

pub open spec fn element_node_read(e: JsxElement, j: JsonView) -> bool
    decreases j, 0nat,
{
    let name = node_at(node_at(j, "openingElement"@), "name"@);
    let children = list_at(j, "children"@);
    &&& jsx_name_read(e.name, name)
    &&& e.name_span == span_of(name)
    &&& match field(j, "openingElement"@) {
        Some(opening) => {
            let attributes = list_at(opening, "attributes"@);
            e.attributes@.len() == attributes.len() && forall|i: int|
                0 <= i < attributes.len() ==> attribute_read(
                    #[trigger] e.attributes@[i],
                    attributes[i],
                )
        },
        None => e.attributes@.len() == 0,
    }
    &&& e.children@.len() == children.len()
    &&& forall|i: int| 0 <= i < children.len() ==> child_read(#[trigger] e.children@[i], children[i])
}

pub open spec fn child_read(c: JsxChild, j: JsonView) -> bool
    decreases j, 1nat,
{
    if node_type(j) == "JSXElement"@ {
        c matches JsxChild::Element(e) && element_node_read(*e, j)
    } else if node_type(j) == "JSXFragment"@ {
        let list = list_at(j, "children"@);
        c matches JsxChild::Fragment(v) && v@.len() == list.len() && forall|i: int|
            0 <= i < list.len() ==> child_read(#[trigger] v@[i], list[i])
    } else if node_type(j) == "JSXExpressionContainer"@ {
        c matches JsxChild::Container(x) && container_read(x, j)
    } else {
        c is Other
    }
}

/// The statements of a function: those of its block, or its expression as the
/// only one.
pub open spec fn body_read(body: Seq<Statement>, j: JsonView) -> bool
    decreases j, 3nat,
{
    if node_type(j) == "BlockStatement"@ {
        let list = list_at(j, "body"@);
        body.len() == list.len() && forall|i: int|
            0 <= i < list.len() ==> statement_read(#[trigger] body[i], list[i])
    } else {
        body.len() == 1 && (body[0] matches Statement::Expression(e) && expression_read(e, j))
    }
}

pub open spec fn function_read(f: Function, j: JsonView) -> bool
    decreases j, 0nat,
{
    let params = list_at(j, "params"@);
    &&& opt_text(f.id) == match present(j, "id"@) {
        Some(id) => Some(name_of(id)),
        None => None,
    }
    &&& f.params@.len() == params.len()
    &&& forall|i: int| 0 <= i < params.len() ==> param_read(#[trigger] f.params@[i], params[i])
    &&& types_read(f.signature@, signature_of(j))
    &&& match present(j, "body"@) {
        Some(b) => f.body matches Some(v) && body_read(v@, b),
        None => f.body is None,
    }
}

pub open spec fn expression_read(e: Expression, j: JsonView) -> bool
    decreases j, 2nat,
{
    &&& e.span == span_of(j)
    &&& if is_string_literal(j) {
        e.kind matches ExpressionKind::StringLiteral(s) && s@ == text_at(j, "value"@)
    } else if node_type(j) == "TemplateLiteral"@ {
        let list = list_at(j, "quasis"@);
        e.kind matches ExpressionKind::TemplateLiteral(v) && v@.len() == list.len() && forall|i: int|
            0 <= i < list.len() ==> quasi_read(#[trigger] v@[i], list[i])
    } else if node_type(j) == "Identifier"@ {
        e.kind matches ExpressionKind::Identifier(s) && s@ == name_of(j)
    } else if node_type(j) == "MemberExpression"@ && !flag_at(j, "computed"@) && field(
        j,
        "object"@,
    ) is Some && node_type(node_at(j, "property"@)) == "Identifier"@ {
        e.kind matches ExpressionKind::StaticMember(m) && m.property@ == name_of(
            node_at(j, "property"@),
        ) && expression_read(m.object, field(j, "object"@)->0)
    } else if node_type(j) == "JSXElement"@ {
        e.kind matches ExpressionKind::JsxElement(x) && element_node_read(*x, j)
    } else if node_type(j) == "JSXFragment"@ {
        let list = list_at(j, "children"@);
        e.kind matches ExpressionKind::JsxFragment(v) && v@.len() == list.len() && forall|i: int|
            0 <= i < list.len() ==> child_read(#[trigger] v@[i], list[i])
    } else if node_type(j) == "ParenthesizedExpression"@ && field(j, "expression"@) is Some {
        e.kind matches ExpressionKind::Parenthesized(x) && expression_read(
            *x,
            field(j, "expression"@)->0,
        )
    } else if node_type(j) == "ConditionalExpression"@ && field(j, "consequent"@) is Some && field(
        j,
        "alternate"@,
    ) is Some {
        e.kind matches ExpressionKind::Conditional(c) && expression_read(
            c.consequent,
            field(j, "consequent"@)->0,
        ) && expression_read(c.alternate, field(j, "alternate"@)->0)
    } else if node_type(j) == "LogicalExpression"@ && field(j, "left"@) is Some && field(
        j,
        "right"@,
    ) is Some {
        e.kind matches ExpressionKind::Logical(l) && expression_read(l.left, field(j, "left"@)->0)
            && expression_read(l.right, field(j, "right"@)->0)
    } else if node_type(j) == "ArrowFunctionExpression"@ {
        e.kind matches ExpressionKind::Arrow(f) && function_read(*f, j)
    } else if node_type(j) == "FunctionExpression"@ {
        e.kind matches ExpressionKind::Function(f) && function_read(*f, j)
    } else if node_type(j) == "CallExpression"@ && field(j, "callee"@) is Some {
        let list = list_at(j, "arguments"@);
        e.kind matches ExpressionKind::Call(c) && expression_read(c.callee, field(j, "callee"@)->0)
            && c.arguments@.len() == list.len() && forall|i: int|
            0 <= i < list.len() ==> argument_read(#[trigger] c.arguments@[i], list[i])
    } else if is_chain_call(j) {
        let call = field(j, "expression"@)->0;
        let list = list_at(call, "arguments"@);
        e.kind matches ExpressionKind::ChainCall(v) && v@.len() == list.len() && forall|i: int|
            0 <= i < list.len() ==> argument_read(#[trigger] v@[i], list[i])
    } else if node_type(j) == "ObjectExpression"@ {
        let list = list_at(j, "properties"@);
        e.kind matches ExpressionKind::Object(v) && v@.len() == list.len() && forall|i: int|
            0 <= i < list.len() ==> member_read(#[trigger] v@[i], list[i])
    } else if node_type(j) == "ArrayExpression"@ {
        let list = list_at(j, "elements"@);
        e.kind matches ExpressionKind::Array(v) && v@.len() == list.len() && forall|i: int|
            0 <= i < list.len() ==> element_read(#[trigger] v@[i], list[i])
    } else if node_type(j) == "SequenceExpression"@ {
        let list = list_at(j, "expressions"@);
        e.kind matches ExpressionKind::Sequence(v) && v@.len() == list.len() && forall|i: int|
            0 <= i < list.len() ==> expression_read(#[trigger] v@[i], list[i])
    } else if node_type(j) == "TSAsExpression"@ && field(j, "expression"@) is Some {
        e.kind matches ExpressionKind::TsAs(x) && expression_read(*x, field(j, "expression"@)->0)
    } else if node_type(j) == "TSSatisfiesExpression"@ && field(j, "expression"@) is Some {
        e.kind matches ExpressionKind::TsSatisfies(x) && expression_read(
            *x,
            field(j, "expression"@)->0,
        )
    } else if node_type(j) == "TSNonNullExpression"@ && field(j, "expression"@) is Some {
        e.kind matches ExpressionKind::TsNonNull(x) && expression_read(
            *x,
            field(j, "expression"@)->0,
        )
    } else if node_type(j) == "TSTypeAssertion"@ && field(j, "expression"@) is Some {
        e.kind matches ExpressionKind::TsTypeAssertion(x) && expression_read(
            *x,
            field(j, "expression"@)->0,
        )
    } else {
        e.kind is Other
    }
}

pub open spec fn declarator_read(d: VariableDeclarator, j: JsonView) -> bool
    decreases j, 3nat,
{
    let id = node_at(j, "id"@);
    &&& d.id_span == span_of(id)
    &&& opt_text(d.name) == (if node_type(id) == "Identifier"@ {
        Some(name_of(id))
    } else {
        None
    })
    &&& match annotation_of(id) {
        Some(t) => d.annotation matches Some(a) && type_read(a, t),
        None => d.annotation is None,
    }
    &&& match present(j, "init"@) {
        Some(i) => d.init matches Some(e) && expression_read(e, i),
        None => d.init is None,
    }
}

pub open spec fn declaration_read(d: Declaration, j: JsonView) -> bool
    decreases j, 4nat,
{
    if node_type(j) == "FunctionDeclaration"@ {
        d matches Declaration::Function(f) && function_read(f, j)
    } else if node_type(j) == "VariableDeclaration"@ {
        let list = list_at(j, "declarations"@);
        d matches Declaration::Variable(v) && v@.len() == list.len() && forall|i: int|
            0 <= i < list.len() ==> declarator_read(#[trigger] v@[i], list[i])
    } else if node_type(j) == "TSTypeAliasDeclaration"@ {
        d matches Declaration::TypeAlias(t) && type_alias_read(t, j)
    } else if node_type(j) == "TSInterfaceDeclaration"@ {
        d matches Declaration::Interface(t) && interface_read(t, j)
    } else {
        d is Other
    }
}

/// Whether a node is a declaration that the scanners look at.
pub open spec fn is_declaration(j: JsonView) -> bool {
    ||| node_type(j) == "FunctionDeclaration"@
    ||| node_type(j) == "VariableDeclaration"@
    ||| node_type(j) == "TSTypeAliasDeclaration"@
    ||| node_type(j) == "TSInterfaceDeclaration"@
}

pub open spec fn export_read(x: ExportNamed, j: JsonView) -> bool
    decreases j, 0nat,
{
    let list = list_at(j, "specifiers"@);
    &&& match present(j, "declaration"@) {
        Some(d) => x.declaration matches Some(y) && declaration_read(y, d),
        None => x.declaration is None,
    }
    &&& opt_text(x.source) == match present(j, "source"@) {
        Some(l) => Some(text_at(l, "value"@)),
        None => None,
    }
    &&& x.exported@.len() == list.len()
    &&& forall|i: int|
        0 <= i < list.len() ==> (#[trigger] x.exported@[i])@ == module_name_of(
            node_at(list[i], "exported"@),
        )
}

pub open spec fn statement_read(s: Statement, j: JsonView) -> bool
    decreases j, 5nat,
{
    if node_type(j) == "ExportDefaultDeclaration"@ && field(j, "declaration"@) is Some && node_type(
        field(j, "declaration"@)->0,
    ) == "FunctionDeclaration"@ {
        s matches Statement::ExportDefaultFunction(f) && function_read(
            f,
            field(j, "declaration"@)->0,
        )
    } else if node_type(j) == "ExportNamedDeclaration"@ {
        s matches Statement::ExportNamed(x) && export_read(x, j)
    } else if node_type(j) == "ExportAllDeclaration"@ {
        s matches Statement::ExportAll(x) && x@ == text_at(node_at(j, "source"@), "value"@)
    } else if is_declaration(j) {
        s matches Statement::Declaration(d) && declaration_read(d, j)
    } else if node_type(j) == "ReturnStatement"@ {
        s matches Statement::Return(x) && match present(j, "argument"@) {
            Some(a) => x matches Some(e) && expression_read(e, a),
            None => x is None,
        }
    } else if node_type(j) == "ExpressionStatement"@ && present(j, "directive"@) is None && field(
        j,
        "expression"@,
    ) is Some {
        s matches Statement::Expression(e) && expression_read(e, field(j, "expression"@)->0)
    } else if node_type(j) == "BlockStatement"@ {
        let list = list_at(j, "body"@);
        s matches Statement::Block(v) && v@.len() == list.len() && forall|i: int|
            0 <= i < list.len() ==> statement_read(#[trigger] v@[i], list[i])
    } else if node_type(j) == "IfStatement"@ && field(j, "consequent"@) is Some {
        s matches Statement::If(x) && statement_read(x.consequent, field(j, "consequent"@)->0) && (
        match present(j, "alternate"@) {
            Some(a) => x.alternate matches Some(y) && statement_read(y, a),
            None => x.alternate is None,
        })
    } else if node_type(j) == "ImportDeclaration"@ {
        s matches Statement::Import(d) && import_read(d, j)
    } else {
        s is Other
    }
}

/// Whether `p` is the program that an ESTree document describes.
pub open spec fn program_read(p: Program, j: JsonView) -> bool {
    let list = list_at(j, "body"@);
    &&& p.body@.len() == list.len()
    &&& forall|i: int| 0 <= i < list.len() ==> statement_read(#[trigger] p.body@[i], list[i])
    &&& call_views(p.calls@) == calls_in_order(j)
}

// ── Building trees ──────────────────────────────────────────────────────

pub(crate) fn is_type(j: &Json, name: &str) -> (r: bool)
    ensures
        r == (node_type(j@) == name@),
{
    same_text(j.get_text("type").as_str(), name)
}

pub(crate) fn read_span(j: &Json) -> (r: Span)
    ensures
        r == span_of(j@),
{
    Span { start: j.get_number("start"), end: j.get_number("end") }
}

/// The span of a field of a node.
fn read_span_at(j: &Json, key: &str) -> (r: Span)
    ensures
        r == span_of(node_at(j@, key@)),
{
    match j.get(key) {
        Some(c) => read_span(c),
        None => Span { start: 0, end: 0 },
    }
}

/// The name of the identifier in a field of a node.
pub(crate) fn read_name_at(j: &Json, key: &str) -> (r: String)
    ensures
        r@ == name_of(node_at(j@, key@)),
{
    match j.get(key) {
        Some(c) => c.get_text("name"),
        None => String::new(),
    }
}

/// The text value of the literal in a field of a node.
fn read_value_at(j: &Json, key: &str) -> (r: String)
    ensures
        r@ == text_at(node_at(j@, key@), "value"@),
{
    match j.get(key) {
        Some(c) => c.get_text("value"),
        None => String::new(),
    }
}

fn read_module_name_at(j: &Json, key: &str) -> (r: String)
    ensures
        r@ == module_name_of(node_at(j@, key@)),
{
    match j.get(key) {
        Some(c) => if is_type(c, "Literal") {
            c.get_text("value")
        } else {
            c.get_text("name")
        },
        None => String::new(),
    }
}

/// Whether the node in a field has the given type.
pub(crate) fn is_type_at(j: &Json, key: &str, name: &str) -> (r: bool)
    requires
        name@.len() > 0,
    ensures
        r == (node_type(node_at(j@, key@)) == name@),
{
    match j.get(key) {
        Some(c) => is_type(c, name),
        None => false,
    }
}

fn is_string(j: &Json) -> (r: bool)
    ensures
        r == is_string_literal(j@),
{
    is_type(j, "Literal") && j.get_str("value").is_some()
}

fn read_quasi(j: &Json) -> (r: TemplateElement)
    ensures
        quasi_read(r, j@),
{
    let outer = read_span(j);
    let closing: u32 = if j.get_flag("tail") {
        1
    } else {
        2
    };
    let start: u32 = outer.start.saturating_add(1);
    let end: u32 = outer.end.saturating_sub(closing);
    let raw = match j.get("value") {
        Some(v) => v.get_text("raw"),
        None => String::new(),
    };
    TemplateElement { span: Span { start, end }, raw }
}

fn read_key(j: &Json) -> (r: PropertyKey)
    ensures
        key_read(r, node_at(j@, "key"@), flag_at(j@, "computed"@)),
{
    let computed = j.get_flag("computed");
    match j.get("key") {
        Some(key) => {
            if is_type(key, "Identifier") && !computed {
                PropertyKey::Static(key.get_text("name"))
            } else if is_string(key) {
                PropertyKey::Str(key.get_text("value"))
            } else {
                PropertyKey::Other
            }
        },
        None => {
            proof {
                reveal_strlit("Identifier");
                assert("Identifier"@.len() > 0);
                reveal_strlit("Literal");
                assert("Literal"@.len() > 0);
            }
            PropertyKey::Other
        },
    }
}

fn read_pattern_key(j: &Json) -> (r: Option<String>)
    ensures
        opt_text(r) == pattern_key(j@),
{
    proof {
        reveal_strlit("Identifier");
        assert("Identifier"@.len() > 0);
    }
    if is_type(j, "Property") && !j.get_flag("computed") && is_type_at(j, "key", "Identifier") {
        Some(read_name_at(j, "key"))
    } else {
        None
    }
}

fn read_pattern_keys(items: &Vec<Json>) -> (r: Vec<Option<String>>)
    ensures
        r@.len() == items@.len(),
        forall|i: int|
            0 <= i < items@.len() ==> opt_text(#[trigger] r@[i]) == pattern_key(items@[i]@),
{
    let mut out: Vec<Option<String>> = Vec::new();
    let mut i: usize = 0;
    while i < items.len()
        invariant
            i <= items@.len(),
            out@.len() == i,
            forall|k: int| 0 <= k < i ==> opt_text(#[trigger] out@[k]) == pattern_key(items@[k]@),
        decreases items@.len() - i,
    {
        let k = read_pattern_key(&items[i]);
        out.push(k);
        i = i + 1;
    }
    out
}

fn read_pattern(pattern: &Json) -> (r: Param)
    ensures
        node_type(pattern@) != "AssignmentPattern"@ ==> param_read(r, pattern@),
        forall|j: JsonView| param_pattern(j) == pattern@ ==> #[trigger] param_read(r, j),
{
    if is_type(pattern, "ObjectPattern") {
        let keys = match pattern.get_list("properties") {
            Some(items) => read_pattern_keys(items),
            None => Vec::new(),
        };
        Param::ObjectPattern(keys)
    } else if is_type(pattern, "Identifier") && !same_text(
        pattern.get_text("name").as_str(),
        "this",
    ) {
        Param::Identifier
    } else {
        Param::Other
    }
}

fn read_param(j: &Json) -> (r: Param)
    ensures
        param_read(r, j@),
{
    if is_type(j, "AssignmentPattern") {
        match j.get("left") {
            Some(left) => read_pattern(left),
            None => {
                proof {
                    reveal_strlit("ObjectPattern");
                    assert("ObjectPattern"@.len() > 0);
                    reveal_strlit("Identifier");
                    assert("Identifier"@.len() > 0);
                }
                Param::Other
            },
        }
    } else {
        read_pattern(j)
    }
}

fn read_jsx_name(j: &Json) -> (r: JsxName)
    ensures
        jsx_name_read(r, j@),
    decreases j,
{
    if is_type(j, "JSXMemberExpression") {
        if let Some(object) = j.get("object") {
            return JsxName::Member(
                Box::new(read_jsx_name(object)),
                read_name_at(j, "property"),
            );
        }
    }
    if is_type(j, "JSXNamespacedName") {
        return JsxName::Namespaced(read_name_at(j, "namespace"), read_name_at(j, "name"));
    }
    let name = j.get_text("name");
    if same_text(name.as_str(), "this") {
        JsxName::This
    } else {
        JsxName::Identifier(name)
    }
}

fn read_import_specifier(j: &Json) -> (r: ImportSpecifier)
    ensures
        import_specifier_read(r, j@),
{
    let kind = if is_type(j, "ImportSpecifier") {
        ImportKind::Named(read_module_name_at(j, "imported"))
    } else if is_type(j, "ImportDefaultSpecifier") {
        ImportKind::Default
    } else {
        ImportKind::Namespace
    };
    ImportSpecifier { span: read_span(j), local: read_name_at(j, "local"), kind }
}

fn read_heritage(j: &Json) -> (r: Heritage)
    ensures
        heritage_read(r, j@),
{
    Heritage { span: read_span(j), expression_span: read_span_at(j, "expression") }
}

fn read_exported_name(j: &Json) -> (r: String)
    ensures
        exported_name_read(r, j@),
{
    read_module_name_at(j, "exported")
}

pub open spec fn exported_name_read(s: String, j: JsonView) -> bool {
    s@ == module_name_of(node_at(j, "exported"@))
}

fn read_quasis(items: &Vec<Json>) -> (r: Vec<TemplateElement>)
    ensures
        r@.len() == items@.len(),
        forall|i: int| 0 <= i < items@.len() ==> quasi_read(#[trigger] r@[i], items@[i]@),
{
    let mut out: Vec<TemplateElement> = Vec::new();
    let mut i: usize = 0;
    while i < items.len()
        invariant
            i <= items@.len(),
            out@.len() == i,
            forall|k: int| 0 <= k < i ==> quasi_read(#[trigger] out@[k], items@[k]@),
        decreases items@.len() - i,
    {
        assert(decreases_to!(items@ => items@[i as int]));
        let x = read_quasi(&items[i]);
        out.push(x);
        i = i + 1;
    }
    out
}

fn read_params(items: &Vec<Json>) -> (r: Vec<Param>)
    ensures
        r@.len() == items@.len(),
        forall|i: int| 0 <= i < items@.len() ==> param_read(#[trigger] r@[i], items@[i]@),
{
    let mut out: Vec<Param> = Vec::new();
    let mut i: usize = 0;
    while i < items.len()
        invariant
            i <= items@.len(),
            out@.len() == i,
            forall|k: int| 0 <= k < i ==> param_read(#[trigger] out@[k], items@[k]@),
        decreases items@.len() - i,
    {
        assert(decreases_to!(items@ => items@[i as int]));
        let x = read_param(&items[i]);
        out.push(x);
        i = i + 1;
    }
    out
}

fn read_import_specifiers(items: &Vec<Json>) -> (r: Vec<ImportSpecifier>)
    ensures
        r@.len() == items@.len(),
        forall|i: int| 0 <= i < items@.len() ==> import_specifier_read(#[trigger] r@[i], items@[i]@),
{
    let mut out: Vec<ImportSpecifier> = Vec::new();
    let mut i: usize = 0;
    while i < items.len()
        invariant
            i <= items@.len(),
            out@.len() == i,
            forall|k: int| 0 <= k < i ==> import_specifier_read(#[trigger] out@[k], items@[k]@),
        decreases items@.len() - i,
    {
        assert(decreases_to!(items@ => items@[i as int]));
        let x = read_import_specifier(&items[i]);
        out.push(x);
        i = i + 1;
    }
    out
}

fn read_heritages(items: &Vec<Json>) -> (r: Vec<Heritage>)
    ensures
        r@.len() == items@.len(),
        forall|i: int| 0 <= i < items@.len() ==> heritage_read(#[trigger] r@[i], items@[i]@),
{
    let mut out: Vec<Heritage> = Vec::new();
    let mut i: usize = 0;
    while i < items.len()
        invariant
            i <= items@.len(),
            out@.len() == i,
            forall|k: int| 0 <= k < i ==> heritage_read(#[trigger] out@[k], items@[k]@),
        decreases items@.len() - i,
    {
        assert(decreases_to!(items@ => items@[i as int]));
        let x = read_heritage(&items[i]);
        out.push(x);
        i = i + 1;
    }
    out
}

fn read_exported_names(items: &Vec<Json>) -> (r: Vec<String>)
    ensures
        r@.len() == items@.len(),
        forall|i: int| 0 <= i < items@.len() ==> exported_name_read(#[trigger] r@[i], items@[i]@),
{
    let mut out: Vec<String> = Vec::new();
    let mut i: usize = 0;
    while i < items.len()
        invariant
            i <= items@.len(),
            out@.len() == i,
            forall|k: int| 0 <= k < i ==> exported_name_read(#[trigger] out@[k], items@[k]@),
        decreases items@.len() - i,
    {
        assert(decreases_to!(items@ => items@[i as int]));
        let x = read_exported_name(&items[i]);
        out.push(x);
        i = i + 1;
    }
    out
}

fn read_types(items: &Vec<Json>) -> (r: Vec<TsType>)
    ensures
        r@.len() == items@.len(),
        forall|i: int| 0 <= i < items@.len() ==> type_read(#[trigger] r@[i], items@[i]@),
    decreases items,
{
    let mut out: Vec<TsType> = Vec::new();
    let mut i: usize = 0;
    while i < items.len()
        invariant
            i <= items@.len(),
            out@.len() == i,
            forall|k: int| 0 <= k < i ==> type_read(#[trigger] out@[k], items@[k]@),
        decreases items@.len() - i,
    {
        assert(decreases_to!(items@ => items@[i as int]));
        let x = read_type(&items[i]);
        out.push(x);
        i = i + 1;
    }
    out
}

fn read_type(j: &Json) -> (r: TsType)
    ensures
        type_read(r, j@),
    decreases j,
{
    if is_type(j, "TSTypeReference") {
        let arguments = match j.get("typeArguments") {
            Some(a) => match a.get_list("params") {
                Some(items) => read_types(items),
                None => Vec::new(),
            },
            None => Vec::new(),
        };
        return TsType::Reference(TypeReference { name_span: read_span_at(j, "typeName"), arguments });
    }
    if is_type(j, "TSUnionType") {
        return TsType::Union(
            match j.get_list("types") {
                Some(items) => read_types(items),
                None => Vec::new(),
            },
        );
    }
    if is_type(j, "TSIntersectionType") {
        return TsType::Intersection(
            match j.get_list("types") {
                Some(items) => read_types(items),
                None => Vec::new(),
            },
        );
    }
    if is_type(j, "TSArrayType") {
        if let Some(e) = j.get("elementType") {
            return TsType::Array(Box::new(read_type(e)));
        }
    }
    TsType::Other
}

fn read_import(j: &Json) -> (r: ImportDeclaration)
    ensures
        import_read(r, j@),
{
    let specifiers = match j.get_list("specifiers") {
        Some(items) => read_import_specifiers(items),
        None => Vec::new(),
    };
    ImportDeclaration { span: read_span(j), source: read_value_at(j, "source"), specifiers }
}

fn read_interface(j: &Json) -> (r: Interface)
    ensures
        interface_read(r, j@),
{
    let extends = match j.get_list("extends") {
        Some(items) => read_heritages(items),
        None => Vec::new(),
    };
    Interface { name: read_name_at(j, "id"), name_span: read_span_at(j, "id"), extends }
}

fn read_type_at(j: &Json, key: &str) -> (r: TsType)
    ensures
        type_read(r, node_at(j@, key@)),
{
    match j.get(key) {
        Some(t) => read_type(t),
        None => {
            proof {
                reveal_strlit("TSTypeReference");
                assert("TSTypeReference"@.len() > 0);
                reveal_strlit("TSUnionType");
                assert("TSUnionType"@.len() > 0);
                reveal_strlit("TSIntersectionType");
                assert("TSIntersectionType"@.len() > 0);
                reveal_strlit("TSArrayType");
                assert("TSArrayType"@.len() > 0);
            }
            TsType::Other
        },
    }
}

fn read_annotation(id: &Json) -> (r: Option<TsType>)
    ensures
        match annotation_of(id@) {
            Some(t) => r matches Some(a) && type_read(a, t),
            None => r is None,
        },
{
    match id.get_present("typeAnnotation") {
        Some(a) => Some(read_type_at(a, "typeAnnotation")),
        None => None,
    }
}

fn read_param_type(j: &Json) -> (r: Option<TsType>)
    ensures
        match annotation_of(param_pattern(j@)) {
            Some(t) => r matches Some(a) && type_read(a, t),
            None => r is None,
        },
{
    if is_type(j, "AssignmentPattern") {
        match j.get("left") {
            Some(left) => read_annotation(left),
            None => None,
        }
    } else {
        read_annotation(j)
    }
}

fn read_param_types(items: &Vec<Json>) -> (r: Vec<TsType>)
    ensures
        types_read(r@, param_types(views(items@))),
{
    let ghost v = views(items@);
    let mut out: Vec<TsType> = Vec::new();
    let mut i: usize = 0;
    assert(v.take(0) =~= Seq::empty());
    while i < items.len()
        invariant
            i <= items@.len(),
            v == views(items@),
            types_read(out@, param_types(v.take(i as int))),
        decreases items@.len() - i,
    {
        assert(v.take(i + 1).drop_last() =~= v.take(i as int));
        if let Some(t) = read_param_type(&items[i]) {
            out.push(t);
        }
        i = i + 1;
    }
    assert(v.take(v.len() as int) =~= v);
    out
}

fn read_signature(j: &Json) -> (r: Vec<TsType>)
    ensures
        types_read(r@, signature_of(j@)),
{
    let mut out = match j.get_list("params") {
        Some(items) => read_param_types(items),
        None => Vec::new(),
    };
    if let Some(a) = j.get_present("returnType") {
        out.push(read_type_at(a, "typeAnnotation"));
    }
    out
}

fn read_type_alias(j: &Json) -> (r: TypeAlias)
    ensures
        type_alias_read(r, j@),
{
    TypeAlias {
        name: read_name_at(j, "id"),
        name_span: read_span_at(j, "id"),
        annotation: read_type_at(j, "typeAnnotation"),
    }
}

fn read_arguments(items: &Vec<Json>) -> (r: Vec<Argument>)
    ensures
        r@.len() == items@.len(),
        forall|i: int| 0 <= i < items@.len() ==> argument_read(#[trigger] r@[i], items@[i]@),
    decreases items, 0nat,
{
    let mut out: Vec<Argument> = Vec::new();
    let mut i: usize = 0;
    while i < items.len()
        invariant
            i <= items@.len(),
            out@.len() == i,
            forall|k: int| 0 <= k < i ==> argument_read(#[trigger] out@[k], items@[k]@),
        decreases items@.len() - i,
    {
        assert(decreases_to!(items@ => items@[i as int]));
        let x = read_argument(&items[i]);
        out.push(x);
        i = i + 1;
    }
    out
}

fn read_elements(items: &Vec<Json>) -> (r: Vec<Option<Expression>>)
    ensures
        r@.len() == items@.len(),
        forall|i: int| 0 <= i < items@.len() ==> element_read(#[trigger] r@[i], items@[i]@),
    decreases items, 0nat,
{
    let mut out: Vec<Option<Expression>> = Vec::new();
    let mut i: usize = 0;
    while i < items.len()
        invariant
            i <= items@.len(),
            out@.len() == i,
            forall|k: int| 0 <= k < i ==> element_read(#[trigger] out@[k], items@[k]@),
        decreases items@.len() - i,
    {
        assert(decreases_to!(items@ => items@[i as int]));
        let x = read_element(&items[i]);
        out.push(x);
        i = i + 1;
    }
    out
}

fn read_members(items: &Vec<Json>) -> (r: Vec<ObjectMember>)
    ensures
        r@.len() == items@.len(),
        forall|i: int| 0 <= i < items@.len() ==> member_read(#[trigger] r@[i], items@[i]@),
    decreases items, 0nat,
{
    let mut out: Vec<ObjectMember> = Vec::new();
    let mut i: usize = 0;
    while i < items.len()
        invariant
            i <= items@.len(),
            out@.len() == i,
            forall|k: int| 0 <= k < i ==> member_read(#[trigger] out@[k], items@[k]@),
        decreases items@.len() - i,
    {
        assert(decreases_to!(items@ => items@[i as int]));
        let x = read_member(&items[i]);
        out.push(x);
        i = i + 1;
    }
    out
}

fn read_attributes(items: &Vec<Json>) -> (r: Vec<JsxAttributeItem>)
    ensures
        r@.len() == items@.len(),
        forall|i: int| 0 <= i < items@.len() ==> attribute_read(#[trigger] r@[i], items@[i]@),
    decreases items, 0nat,
{
    let mut out: Vec<JsxAttributeItem> = Vec::new();
    let mut i: usize = 0;
    while i < items.len()
        invariant
            i <= items@.len(),
            out@.len() == i,
            forall|k: int| 0 <= k < i ==> attribute_read(#[trigger] out@[k], items@[k]@),
        decreases items@.len() - i,
    {
        assert(decreases_to!(items@ => items@[i as int]));
        let x = read_attribute(&items[i]);
        out.push(x);
        i = i + 1;
    }
    out
}

fn read_children(items: &Vec<Json>) -> (r: Vec<JsxChild>)
    ensures
        r@.len() == items@.len(),
        forall|i: int| 0 <= i < items@.len() ==> child_read(#[trigger] r@[i], items@[i]@),
    decreases items, 0nat,
{
    let mut out: Vec<JsxChild> = Vec::new();
    let mut i: usize = 0;
    while i < items.len()
        invariant
            i <= items@.len(),
            out@.len() == i,
            forall|k: int| 0 <= k < i ==> child_read(#[trigger] out@[k], items@[k]@),
        decreases items@.len() - i,
    {
        assert(decreases_to!(items@ => items@[i as int]));
        let x = read_child(&items[i]);
        out.push(x);
        i = i + 1;
    }
    out
}

fn read_statements(items: &Vec<Json>) -> (r: Vec<Statement>)
    ensures
        r@.len() == items@.len(),
        forall|i: int| 0 <= i < items@.len() ==> statement_read(#[trigger] r@[i], items@[i]@),
    decreases items, 0nat,
{
    let mut out: Vec<Statement> = Vec::new();
    let mut i: usize = 0;
    while i < items.len()
        invariant
            i <= items@.len(),
            out@.len() == i,
            forall|k: int| 0 <= k < i ==> statement_read(#[trigger] out@[k], items@[k]@),
        decreases items@.len() - i,
    {
        assert(decreases_to!(items@ => items@[i as int]));
        let x = read_statement(&items[i]);
        out.push(x);
        i = i + 1;
    }
    out
}

fn read_expressions(items: &Vec<Json>) -> (r: Vec<Expression>)
    ensures
        r@.len() == items@.len(),
        forall|i: int| 0 <= i < items@.len() ==> expression_read(#[trigger] r@[i], items@[i]@),
    decreases items, 0nat,
{
    let mut out: Vec<Expression> = Vec::new();
    let mut i: usize = 0;
    while i < items.len()
        invariant
            i <= items@.len(),
            out@.len() == i,
            forall|k: int| 0 <= k < i ==> expression_read(#[trigger] out@[k], items@[k]@),
        decreases items@.len() - i,
    {
        assert(decreases_to!(items@ => items@[i as int]));
        let x = read_expression(&items[i]);
        out.push(x);
        i = i + 1;
    }
    out
}

fn read_declarators(items: &Vec<Json>) -> (r: Vec<VariableDeclarator>)
    ensures
        r@.len() == items@.len(),
        forall|i: int| 0 <= i < items@.len() ==> declarator_read(#[trigger] r@[i], items@[i]@),
    decreases items, 0nat,
{
    let mut out: Vec<VariableDeclarator> = Vec::new();
    let mut i: usize = 0;
    while i < items.len()
        invariant
            i <= items@.len(),
            out@.len() == i,
            forall|k: int| 0 <= k < i ==> declarator_read(#[trigger] out@[k], items@[k]@),
        decreases items@.len() - i,
    {
        assert(decreases_to!(items@ => items@[i as int]));
        let x = read_declarator(&items[i]);
        out.push(x);
        i = i + 1;
    }
    out
}

fn read_argument(j: &Json) -> (r: Argument)
    ensures
        argument_read(r, j@),
    decreases j, 3nat,
{
    if is_type(j, "SpreadElement") {
        if let Some(a) = j.get("argument") {
            return Argument { spread: true, expression: read_expression(a) };
        }
    }
    Argument { spread: false, expression: read_expression(j) }
}

fn read_element(j: &Json) -> (r: Option<Expression>)
    ensures
        element_read(r, j@),
    decreases j, 3nat,
{
    if matches!(j, Json::Null) || is_type(j, "SpreadElement") {
        None
    } else {
        Some(read_expression(j))
    }
}

fn read_member(j: &Json) -> (r: ObjectMember)
    ensures
        member_read(r, j@),
    decreases j, 0nat,
{
    if is_type(j, "Property") {
        if let Some(v) = j.get("value") {
            let value = read_expression(v);
            return ObjectMember::Property(
                ObjectProperty { key: read_key(j), key_span: read_span_at(j, "key"), value },
            );
        }
    }
    ObjectMember::Spread
}

fn read_container(j: &Json) -> (r: JsxContainer)
    ensures
        container_read(r, j@),
    decreases j, 0nat,
{
    let span = read_span(j);
    match j.get("expression") {
        Some(e) => {
            if is_type(e, "JSXEmptyExpression") {
                JsxContainer { span, expression: None }
            } else {
                JsxContainer { span, expression: Some(read_expression(e)) }
            }
        },
        None => JsxContainer { span, expression: None },
    }
}

fn read_attribute_value(j: &Json) -> (r: JsxAttributeValue)
    ensures
        attribute_value_read(r, j@),
    decreases j, 1nat,
{
    if is_string(j) {
        JsxAttributeValue::Str(read_span(j), j.get_text("value"))
    } else if is_type(j, "JSXExpressionContainer") {
        JsxAttributeValue::Container(read_container(j))
    } else {
        JsxAttributeValue::Other
    }
}

fn read_attribute(j: &Json) -> (r: JsxAttributeItem)
    ensures
        attribute_read(r, j@),
    decreases j, 0nat,
{
    if is_type(j, "JSXAttribute") {
        proof {
            reveal_strlit("JSXIdentifier");
            assert("JSXIdentifier"@.len() > 0);
        }
        let name = if is_type_at(j, "name", "JSXIdentifier") {
            Some(read_name_at(j, "name"))
        } else {
            None
        };
        let value = match j.get_present("value") {
            Some(v) => Some(read_attribute_value(v)),
            None => None,
        };
        JsxAttributeItem::Attribute(
            JsxAttribute { name, name_span: read_span_at(j, "name"), value },
        )
    } else {
        JsxAttributeItem::Spread
    }
}

fn empty_name() -> (r: JsxName)
    ensures
        jsx_name_read(r, JsonView::Null),
{
    proof {
        reveal_strlit("JSXMemberExpression");
        assert("JSXMemberExpression"@.len() > 0);
        reveal_strlit("JSXNamespacedName");
        assert("JSXNamespacedName"@.len() > 0);
        reveal_strlit("this");
        assert("this"@.len() > 0);
    }
    JsxName::Identifier(String::new())
}

fn read_jsx_element(j: &Json) -> (r: JsxElement)
    ensures
        element_node_read(r, j@),
    decreases j, 0nat,
{
    let children = match j.get_list("children") {
        Some(items) => read_children(items),
        None => Vec::new(),
    };
    match j.get("openingElement") {
        Some(opening) => {
            let name = match opening.get("name") {
                Some(n) => read_jsx_name(n),
                None => empty_name(),
            };
            let attributes = match opening.get_list("attributes") {
                Some(items) => read_attributes(items),
                None => Vec::new(),
            };
            JsxElement { name, name_span: read_span_at(opening, "name"), attributes, children }
        },
        None => {
            JsxElement {
                name: empty_name(),
                name_span: Span { start: 0, end: 0 },
                attributes: Vec::new(),
                children,
            }
        },
    }
}

fn read_child(j: &Json) -> (r: JsxChild)
    ensures
        child_read(r, j@),
    decreases j, 1nat,
{
    if is_type(j, "JSXElement") {
        JsxChild::Element(Box::new(read_jsx_element(j)))
    } else if is_type(j, "JSXFragment") {
        JsxChild::Fragment(
            match j.get_list("children") {
                Some(items) => read_children(items),
                None => Vec::new(),
            },
        )
    } else if is_type(j, "JSXExpressionContainer") {
        JsxChild::Container(read_container(j))
    } else {
        JsxChild::Other
    }
}

fn read_body(j: &Json) -> (r: Vec<Statement>)
    ensures
        body_read(r@, j@),
    decreases j, 3nat,
{
    if is_type(j, "BlockStatement") {
        match j.get_list("body") {
            Some(items) => read_statements(items),
            None => Vec::new(),
        }
    } else {
        let e = read_expression(j);
        let mut v: Vec<Statement> = Vec::new();
        v.push(Statement::Expression(e));
        v
    }
}

fn read_function(j: &Json) -> (r: Function)
    ensures
        function_read(r, j@),
    decreases j, 0nat,
{
    let id = match j.get_present("id") {
        Some(c) => Some(c.get_text("name")),
        None => None,
    };
    let params = match j.get_list("params") {
        Some(items) => read_params(items),
        None => Vec::new(),
    };
    let body = match j.get_present("body") {
        Some(b) => Some(read_body(b)),
        None => None,
    };
    Function { id, params, signature: read_signature(j), body }
}

fn read_expression(j: &Json) -> (r: Expression)
    ensures
        expression_read(r, j@),
    decreases j, 2nat,
{
    Expression { span: read_span(j), kind: read_kind(j) }
}

/// The kind of an expression whose node has none of the special forms.
fn read_kind(j: &Json) -> (r: ExpressionKind)
    ensures
        forall|e: Expression| e.span == span_of(j@) && e.kind == r ==> #[trigger] expression_read(e, j@),
    decreases j, 1nat,
{
    if is_string(j) {
        return ExpressionKind::StringLiteral(j.get_text("value"));
    }
    if is_type(j, "TemplateLiteral") {
        return ExpressionKind::TemplateLiteral(
            match j.get_list("quasis") {
                Some(items) => read_quasis(items),
                None => Vec::new(),
            },
        );
    }
    if is_type(j, "Identifier") {
        return ExpressionKind::Identifier(j.get_text("name"));
    }
    proof {
        reveal_strlit("Identifier");
        assert("Identifier"@.len() > 0);
    }
    if is_type(j, "MemberExpression") && !j.get_flag("computed") && is_type_at(
        j,
        "property",
        "Identifier",
    ) {
        if let Some(o) = j.get("object") {
            return ExpressionKind::StaticMember(
                Box::new(
                    StaticMember {
                        object: read_expression(o),
                        property: read_name_at(j, "property"),
                    },
                ),
            );
        }
    }
    if is_type(j, "JSXElement") {
        return ExpressionKind::JsxElement(Box::new(read_jsx_element(j)));
    }
    if is_type(j, "JSXFragment") {
        return ExpressionKind::JsxFragment(
            match j.get_list("children") {
                Some(items) => read_children(items),
                None => Vec::new(),
            },
        );
    }
    if is_type(j, "ParenthesizedExpression") {
        if let Some(x) = j.get("expression") {
            return ExpressionKind::Parenthesized(Box::new(read_expression(x)));
        }
    }
    if is_type(j, "ConditionalExpression") {
        if let (Some(a), Some(b)) = (j.get("consequent"), j.get("alternate")) {
            return ExpressionKind::Conditional(
                Box::new(
                    Conditional { consequent: read_expression(a), alternate: read_expression(b) },
                ),
            );
        }
    }
    if is_type(j, "LogicalExpression") {
        if let (Some(a), Some(b)) = (j.get("left"), j.get("right")) {
            return ExpressionKind::Logical(
                Box::new(Logical { left: read_expression(a), right: read_expression(b) }),
            );
        }
    }
    if is_type(j, "ArrowFunctionExpression") {
        return ExpressionKind::Arrow(Box::new(read_function(j)));
    }
    if is_type(j, "FunctionExpression") {
        return ExpressionKind::Function(Box::new(read_function(j)));
    }
    if is_type(j, "CallExpression") {
        if let Some(c) = j.get("callee") {
            let callee = read_expression(c);
            let arguments = match j.get_list("arguments") {
                Some(items) => read_arguments(items),
                None => Vec::new(),
            };
            return ExpressionKind::Call(Box::new(Call { callee, arguments }));
        }
    }
    if is_type(j, "ChainExpression") {
        if let Some(c) = j.get("expression") {
            if is_type(c, "CallExpression") {
                return ExpressionKind::ChainCall(
                    match c.get_list("arguments") {
                        Some(items) => read_arguments(items),
                        None => Vec::new(),
                    },
                );
            }
        }
    }
    if is_type(j, "ObjectExpression") {
        return ExpressionKind::Object(
            match j.get_list("properties") {
                Some(items) => read_members(items),
                None => Vec::new(),
            },
        );
    }
    if is_type(j, "ArrayExpression") {
        return ExpressionKind::Array(
            match j.get_list("elements") {
                Some(items) => read_elements(items),
                None => Vec::new(),
            },
        );
    }
    if is_type(j, "SequenceExpression") {
        return ExpressionKind::Sequence(
            match j.get_list("expressions") {
                Some(items) => read_expressions(items),
                None => Vec::new(),
            },
        );
    }
    if is_type(j, "TSAsExpression") {
        if let Some(x) = j.get("expression") {
            return ExpressionKind::TsAs(Box::new(read_expression(x)));
        }
    }
    if is_type(j, "TSSatisfiesExpression") {
        if let Some(x) = j.get("expression") {
            return ExpressionKind::TsSatisfies(Box::new(read_expression(x)));
        }
    }
    if is_type(j, "TSNonNullExpression") {
        if let Some(x) = j.get("expression") {
            return ExpressionKind::TsNonNull(Box::new(read_expression(x)));
        }
    }
    if is_type(j, "TSTypeAssertion") {
        if let Some(x) = j.get("expression") {
            return ExpressionKind::TsTypeAssertion(Box::new(read_expression(x)));
        }
    }
    ExpressionKind::Other
}

fn read_declarator(j: &Json) -> (r: VariableDeclarator)
    ensures
        declarator_read(r, j@),
    decreases j, 3nat,
{
    let init = match j.get_present("init") {
        Some(e) => Some(read_expression(e)),
        None => None,
    };
    proof {
        reveal_strlit("Identifier");
        assert("Identifier"@.len() > 0);
    }
    match j.get("id") {
        Some(id) => {
            let name = if is_type(id, "Identifier") {
                Some(id.get_text("name"))
            } else {
                None
            };
            let annotation = match id.get_present("typeAnnotation") {
                Some(a) => Some(read_type_at(a, "typeAnnotation")),
                None => None,
            };
            VariableDeclarator { id_span: read_span(id), name, annotation, init }
        },
        None => VariableDeclarator {
            id_span: Span { start: 0, end: 0 },
            name: None,
            annotation: None,
            init,
        },
    }
}

fn read_declaration(j: &Json) -> (r: Declaration)
    ensures
        declaration_read(r, j@),
    decreases j, 4nat,
{
    if is_type(j, "FunctionDeclaration") {
        Declaration::Function(read_function(j))
    } else if is_type(j, "VariableDeclaration") {
        Declaration::Variable(
            match j.get_list("declarations") {
                Some(items) => read_declarators(items),
                None => Vec::new(),
            },
        )
    } else if is_type(j, "TSTypeAliasDeclaration") {
        Declaration::TypeAlias(read_type_alias(j))
    } else if is_type(j, "TSInterfaceDeclaration") {
        Declaration::Interface(read_interface(j))
    } else {
        Declaration::Other
    }
}

fn read_export(j: &Json) -> (r: ExportNamed)
    ensures
        export_read(r, j@),
    decreases j, 0nat,
{
    let declaration = match j.get_present("declaration") {
        Some(d) => Some(read_declaration(d)),
        None => None,
    };
    let source = match j.get_present("source") {
        Some(l) => Some(l.get_text("value")),
        None => None,
    };
    let exported = match j.get_list("specifiers") {
        Some(items) => read_exported_names(items),
        None => Vec::new(),
    };
    ExportNamed { declaration, source, exported }
}

fn read_statement(j: &Json) -> (r: Statement)
    ensures
        statement_read(r, j@),
    decreases j, 5nat,
{
    if is_type(j, "ExportDefaultDeclaration") {
        if let Some(d) = j.get("declaration") {
            if is_type(d, "FunctionDeclaration") {
                return Statement::ExportDefaultFunction(read_function(d));
            }
        }
    }
    if is_type(j, "ExportNamedDeclaration") {
        return Statement::ExportNamed(read_export(j));
    }
    if is_type(j, "ExportAllDeclaration") {
        return Statement::ExportAll(read_value_at(j, "source"));
    }
    if is_type(j, "FunctionDeclaration") || is_type(j, "VariableDeclaration") || is_type(
        j,
        "TSTypeAliasDeclaration",
    ) || is_type(j, "TSInterfaceDeclaration") {
        return Statement::Declaration(read_declaration(j));
    }
    if is_type(j, "ReturnStatement") {
        return Statement::Return(
            match j.get_present("argument") {
                Some(e) => Some(read_expression(e)),
                None => None,
            },
        );
    }
    if is_type(j, "ExpressionStatement") && j.get_present("directive").is_none() {
        if let Some(e) = j.get("expression") {
            return Statement::Expression(read_expression(e));
        }
    }
    if is_type(j, "BlockStatement") {
        return Statement::Block(
            match j.get_list("body") {
                Some(items) => read_statements(items),
                None => Vec::new(),
            },
        );
    }
    if is_type(j, "IfStatement") {
        if let Some(c) = j.get("consequent") {
            let consequent = read_statement(c);
            let alternate = match j.get_present("alternate") {
                Some(a) => Some(read_statement(a)),
                None => None,
            };
            return Statement::If(Box::new(IfStatement { consequent, alternate }));
        }
    }
    if is_type(j, "ImportDeclaration") {
        return Statement::Import(read_import(j));
    }
    Statement::Other
}

/// The program that an ESTree document describes.
pub fn read_program(j: &Json) -> (r: Program)
    ensures
        program_read(r, j@),
{
    let body = match j.get_list("body") {
        Some(items) => read_statements(items),
        None => Vec::new(),
    };
    Program { body, calls: read_calls(j) }
}

/// Whether the escape of a surrogate, `\ud800` to `\udfff`, stands at place `i` of a
/// document.
pub open spec fn is_surrogate_at(s: Seq<char>, i: int) -> bool {
    &&& 0 <= i
    &&& i + 3 < s.len()
    &&& s[i] == '\\'
    &&& s[i + 1] == 'u'
    &&& s[i + 2] == 'd'
    &&& (s[i + 3] == '8' || s[i + 3] == '9' || 'a' <= s[i + 3] <= 'f')
}

/// Whether a surrogate stands in the string of a document that goes on at place `i`.
pub open spec fn has_surrogate(s: Seq<char>, i: int) -> bool
    decreases s.len() + 1 - i,
{
    if i < 0 || i >= s.len() || s[i] == '"' {
        false
    } else if is_surrogate_at(s, i) {
        true
    } else if s[i] == '\\' {
        has_surrogate(s, i + 2)
    } else {
        has_surrogate(s, i + 1)
    }
}

/// Where in a document a place lies.
#[derive(Debug, Clone, Copy, PartialEq, Eq, Structural)]
pub enum Place {
    /// Between strings.
    Outside,
    /// In a string without a surrogate.
    Plain,
    /// In a string with a surrogate.
    Marked,
}

/// A document from place `i` on, with the surrogates in its strings spelt out. One that
/// stands in a document has no partner, so that no text can hold it: the replacement
/// character stands for it, with its four digits behind. In a string with a surrogate
/// the replacement character itself has its own digits behind it.
pub open spec fn surrogates_spelt(s: Seq<char>, i: int, place: Place) -> Seq<char>
    decreases s.len() - i,
{
    if i < 0 || i >= s.len() {
        Seq::empty()
    } else if s[i] == '"' {
        seq![s[i]] + surrogates_spelt(s, i + 1, place_behind_quote(s, i, place))
    } else if place == Place::Outside {
        seq![s[i]] + surrogates_spelt(s, i + 1, place)
    } else if is_surrogate_at(s, i) {
        "\\ufffd"@ + surrogates_spelt(s, i + 2, place)
    } else if s[i] == '\\' && i + 1 < s.len() {
        seq![s[i], s[i + 1]] + surrogates_spelt(s, i + 2, place)
    } else if s[i] == '\u{FFFD}' && place == Place::Marked {
        seq![s[i], 'f', 'f', 'f', 'd'] + surrogates_spelt(s, i + 1, place)
    } else {
        seq![s[i]] + surrogates_spelt(s, i + 1, place)
    }
}

/// The place behind the quote at place `i`, which begins a string or ends one.
pub open spec fn place_behind_quote(s: Seq<char>, i: int, place: Place) -> Place {
    if place != Place::Outside {
        Place::Outside
    } else if has_surrogate(s, i + 1) {
        Place::Marked
    } else {
        Place::Plain
    }
}

fn surrogate_at(s: &Vec<char>, i: usize) -> (r: bool)
    requires
        i < s@.len(),
    ensures
        r == is_surrogate_at(s@, i as int),
{
    s.len() - i > 3 && s[i] == '\\' && s[i + 1] == 'u' && s[i + 2] == 'd' && (s[i + 3] == '8'
        || s[i + 3] == '9' || ('a' <= s[i + 3] && s[i + 3] <= 'f'))
}

fn string_has_surrogate(s: &Vec<char>, from: usize) -> (r: bool)
    requires
        from <= s@.len(),
    ensures
        r == has_surrogate(s@, from as int),
{
    let mut i: usize = from;
    while i < s.len() && s[i] != '"'
        invariant
            i <= s@.len(),
            has_surrogate(s@, from as int) == has_surrogate(s@, i as int),
        decreases s@.len() - i,
    {
        if surrogate_at(s, i) {
            return true;
        }
        if s[i] == '\\' {
            if s.len() - i == 1 {
                assert(!has_surrogate(s@, i + 2));
                return false;
            }
            i = i + 2;
        } else {
            i = i + 1;
        }
    }
    false
}

fn spell_surrogates(document: &str) -> (r: String)
    ensures
        r@ == surrogates_spelt(document@, 0, Place::Outside),
{
    let s = chars_of(document);
    let ghost whole = surrogates_spelt(s@, 0, Place::Outside);
    let mut out: Vec<char> = Vec::new();
    let mut place = Place::Outside;
    let mut i: usize = 0;
    assert(out@ + whole =~= whole);
    while i < s.len()
        invariant
            i <= s@.len(),
            out@ + surrogates_spelt(s@, i as int, place) == whole,
        decreases s@.len() - i,
    {
        let ghost before = out@;
        let ghost at = i as int;
        let ghost was = place;
        if s[i] == '"' {
            place = if place != Place::Outside {
                Place::Outside
            } else if string_has_surrogate(&s, i + 1) {
                Place::Marked
            } else {
                Place::Plain
            };
            out.push(s[i]);
            i = i + 1;
            assert(out@ =~= before + seq![s@[at]]);
        } else if place == Place::Outside {
            out.push(s[i]);
            i = i + 1;
            assert(out@ =~= before + seq![s@[at]]);
        } else if surrogate_at(&s, i) {
            out.push('\\');
            out.push('u');
            out.push('f');
            out.push('f');
            out.push('f');
            out.push('d');
            i = i + 2;
            proof {
                reveal_strlit("\\ufffd");
                assert(out@ =~= before + "\\ufffd"@);
            }
        } else if s[i] == '\\' && s.len() - i > 1 {
            out.push(s[i]);
            out.push(s[i + 1]);
            i = i + 2;
            assert(out@ =~= before + seq![s@[at], s@[at + 1]]);
        } else if s[i] == '\u{FFFD}' && place == Place::Marked {
            out.push(s[i]);
            out.push('f');
            out.push('f');
            out.push('f');
            out.push('d');
            i = i + 1;
            assert(out@ =~= before + seq![s@[at], 'f', 'f', 'f', 'd']);
        } else {
            out.push(s[i]);
            i = i + 1;
            assert(out@ =~= before + seq![s@[at]]);
        }
        assert(out@ + surrogates_spelt(s@, i as int, place) =~= before + surrogates_spelt(
            s@,
            at,
            was,
        ));
    }
    assert(out@ + surrogates_spelt(s@, i as int, place) =~= out@);
    string_of(out.as_slice())
}

/// A document without a surrogate is read as it stands.
pub proof fn plain_documents_are_kept(s: Seq<char>)
    requires
        forall|i: int| !#[trigger] is_surrogate_at(s, i),
    ensures
        surrogates_spelt(s, 0, Place::Outside) == s,
{
    lemma_plain_from(s, 0, Place::Outside);
    assert(s.skip(0) =~= s);
}

proof fn lemma_no_surrogate(s: Seq<char>, i: int)
    requires
        forall|k: int| !#[trigger] is_surrogate_at(s, k),
    ensures
        !has_surrogate(s, i),
    decreases s.len() + 1 - i,
{
    if 0 <= i < s.len() {
        assert(!is_surrogate_at(s, i));
        lemma_no_surrogate(s, i + 1);
        lemma_no_surrogate(s, i + 2);
    }
}

proof fn lemma_plain_from(s: Seq<char>, i: int, place: Place)
    requires
        forall|k: int| !#[trigger] is_surrogate_at(s, k),
        0 <= i <= s.len(),
        place != Place::Marked,
    ensures
        surrogates_spelt(s, i, place) == s.skip(i),
    decreases s.len() - i,
{
    if i < s.len() {
        assert(!is_surrogate_at(s, i));
        lemma_no_surrogate(s, i + 1);
        if s[i] == '"' || place == Place::Outside || s[i] != '\\' || i + 1 >= s.len() {
            let next = if s[i] == '"' {
                place_behind_quote(s, i, place)
            } else {
                place
            };
            lemma_plain_from(s, i + 1, next);
            assert(s.skip(i) =~= seq![s[i]] + s.skip(i + 1));
        } else {
            lemma_plain_from(s, i + 2, place);
            assert(s.skip(i) =~= seq![s[i], s[i + 1]] + s.skip(i + 2));
        }
    } else {
        assert(s.skip(i) =~= Seq::empty());
    }
}

/// The document that the program of a source text is read from, where the text is one.
pub open spec fn document_of(source: Seq<char>) -> Option<JsonView> {
    match estree_of(source) {
        Some(text) => json_denoted_deep(surrogates_spelt(text, 0, Place::Outside)),
        None => None,
    }
}

/// Parses source text as TypeScript with JSX. There is a program wherever the parser
/// does not give up and its ESTree document can be read as JSON.
pub fn parse_program(source: &str) -> (r: Option<Program>)
    ensures
        match r {
            Some(p) => document_of(source@) matches Some(j) && program_read(p, j),
            None => document_of(source@) is None,
        },
{
    let text = match parse_to_estree(source) {
        Some(t) => t,
        None => {
            return None;
        },
    };
    let document = spell_surrogates(text.as_str());
    match parse_json_deep(document.as_str()) {
        Some(j) => Some(read_program(&j)),
        None => None,
    }
}

// ── Laws of reading ─────────────────────────────────────────────────────

/// Whether some values are read from some nodes, one from each, in their order.
pub open spec fn arguments_match(v: Seq<Argument>, nodes: Seq<JsonView>) -> bool {
    v.len() == nodes.len() && forall|i: int|
        0 <= i < v.len() ==> argument_read(#[trigger] v[i], nodes[i])
}

pub open spec fn statements_match(v: Seq<Statement>, nodes: Seq<JsonView>) -> bool {
    v.len() == nodes.len() && forall|i: int|
        0 <= i < v.len() ==> statement_read(#[trigger] v[i], nodes[i])
}

pub open spec fn children_match(v: Seq<JsxChild>, nodes: Seq<JsonView>) -> bool {
    v.len() == nodes.len() && forall|i: int|
        0 <= i < v.len() ==> child_read(#[trigger] v[i], nodes[i])
}

/// An expression is read by the type of its node: each of its parts from the field of its
/// name.
pub proof fn expressions_are_read_by_their_type(e: Expression, j: JsonView)
    requires
        expression_read(e, j),
    ensures
        e.span == span_of(j),
        node_type(j) == "Literal"@ && text_field(j, "value"@) is Some ==> (
        e.kind matches ExpressionKind::StringLiteral(s) && Some(s@) == text_field(j, "value"@)),
        node_type(j) == "Identifier"@ ==> (
        e.kind matches ExpressionKind::Identifier(s) && s@ == name_of(j)),
        node_type(j) == "MemberExpression"@ && !flag_at(j, "computed"@)
            && field(j, "object"@) is Some && node_type(node_at(j, "property"@)) == "Identifier"@ ==> (
        e.kind matches ExpressionKind::StaticMember(m)
            && m.property@ == name_of(node_at(j, "property"@))
            && expression_read(m.object, field(j, "object"@)->0)),
        node_type(j) == "JSXElement"@ ==> (
        e.kind matches ExpressionKind::JsxElement(x) && element_node_read(*x, j)),
        node_type(j) == "JSXFragment"@ ==> (
        e.kind matches ExpressionKind::JsxFragment(v)
            && children_match(v@, list_at(j, "children"@))),
        node_type(j) == "ConditionalExpression"@ && field(j, "consequent"@) is Some
            && field(j, "alternate"@) is Some ==> (
        e.kind matches ExpressionKind::Conditional(c)
            && expression_read(c.consequent, field(j, "consequent"@)->0)
            && expression_read(c.alternate, field(j, "alternate"@)->0)),
        node_type(j) == "LogicalExpression"@ && field(j, "left"@) is Some
            && field(j, "right"@) is Some ==> (
        e.kind matches ExpressionKind::Logical(l) && expression_read(l.left, field(j, "left"@)->0)
            && expression_read(l.right, field(j, "right"@)->0)),
        node_type(j) == "ArrowFunctionExpression"@ ==> (
        e.kind matches ExpressionKind::Arrow(f) && function_read(*f, j)),
        node_type(j) == "FunctionExpression"@ ==> (
        e.kind matches ExpressionKind::Function(f) && function_read(*f, j)),
        node_type(j) == "CallExpression"@ && field(j, "callee"@) is Some ==> (
        e.kind matches ExpressionKind::Call(c)
            && expression_read(c.callee, field(j, "callee"@)->0)
            && arguments_match(c.arguments@, list_at(j, "arguments"@))),
        node_type(j) == "ChainExpression"@ && field(j, "expression"@) is Some
            && node_type(field(j, "expression"@)->0) == "CallExpression"@ ==> (
        e.kind matches ExpressionKind::ChainCall(v)
            && arguments_match(v@, list_at(field(j, "expression"@)->0, "arguments"@))),
        node_type(j) == "ObjectExpression"@ ==> (
        e.kind matches ExpressionKind::Object(v) && v@.len() == list_at(j, "properties"@).len()
            && forall|i: int| 0 <= i < v@.len() ==> member_read(#[trigger] v@[i], list_at(j, "properties"@)[i])),
        node_type(j) == "ArrayExpression"@ ==> (
        e.kind matches ExpressionKind::Array(v) && v@.len() == list_at(j, "elements"@).len()
            && forall|i: int| 0 <= i < v@.len() ==> element_read(#[trigger] v@[i], list_at(j, "elements"@)[i])),
        node_type(j) == "SequenceExpression"@ ==> (
        e.kind matches ExpressionKind::Sequence(v) && v@.len() == list_at(j, "expressions"@).len()
            && forall|i: int| 0 <= i < v@.len() ==> expression_read(#[trigger] v@[i], list_at(j, "expressions"@)[i])),
        node_type(j) == "TemplateLiteral"@ ==> (
        e.kind matches ExpressionKind::TemplateLiteral(v)
            && v@.len() == list_at(j, "quasis"@).len()
            && forall|i: int| 0 <= i < v@.len() ==> (#[trigger] v@[i]).raw@ == text_at(node_at(list_at(j, "quasis"@)[i], "value"@), "raw"@)),
        node_type(j) == "ParenthesizedExpression"@ && field(j, "expression"@) is Some ==> (
        e.kind matches ExpressionKind::Parenthesized(x)
            && expression_read(*x, field(j, "expression"@)->0)),
        node_type(j) == "TSAsExpression"@ && field(j, "expression"@) is Some ==> (
        e.kind matches ExpressionKind::TsAs(x) && expression_read(*x, field(j, "expression"@)->0)),
        node_type(j) == "TSSatisfiesExpression"@ && field(j, "expression"@) is Some ==> (
        e.kind matches ExpressionKind::TsSatisfies(x)
            && expression_read(*x, field(j, "expression"@)->0)),
        node_type(j) == "TSNonNullExpression"@ && field(j, "expression"@) is Some ==> (
        e.kind matches ExpressionKind::TsNonNull(x)
            && expression_read(*x, field(j, "expression"@)->0)),
        node_type(j) == "TSTypeAssertion"@ && field(j, "expression"@) is Some ==> (
        e.kind matches ExpressionKind::TsTypeAssertion(x)
            && expression_read(*x, field(j, "expression"@)->0)),
{
    reveal_strlit("Literal");
    reveal_strlit("TemplateLiteral");
    reveal_strlit("Identifier");
    reveal_strlit("MemberExpression");
    reveal_strlit("JSXElement");
    reveal_strlit("JSXFragment");
    reveal_strlit("ParenthesizedExpression");
    reveal_strlit("ConditionalExpression");
    reveal_strlit("LogicalExpression");
    reveal_strlit("ArrowFunctionExpression");
    reveal_strlit("FunctionExpression");
    reveal_strlit("CallExpression");
    reveal_strlit("ChainExpression");
    reveal_strlit("ObjectExpression");
    reveal_strlit("ArrayExpression");
    reveal_strlit("SequenceExpression");
    reveal_strlit("TSAsExpression");
    reveal_strlit("TSSatisfiesExpression");
    reveal_strlit("TSNonNullExpression");
    reveal_strlit("TSTypeAssertion");
    assert("Literal"@.len() == 7);
    assert("TemplateLiteral"@.len() == 15);
    assert("Identifier"@.len() == 10);
    assert("MemberExpression"@.len() == 16);
    assert("JSXElement"@.len() == 10);
    assert("JSXFragment"@.len() == 11);
    assert("ParenthesizedExpression"@.len() == 23);
    assert("ConditionalExpression"@.len() == 21);
    assert("LogicalExpression"@.len() == 17);
    assert("ArrowFunctionExpression"@.len() == 23);
    assert("FunctionExpression"@.len() == 18);
    assert("CallExpression"@.len() == 14);
    assert("ChainExpression"@.len() == 15);
    assert("ObjectExpression"@.len() == 16);
    assert("ArrayExpression"@.len() == 15);
    assert("SequenceExpression"@.len() == 18);
    assert("TSAsExpression"@.len() == 14);
    assert("TSSatisfiesExpression"@.len() == 21);
    assert("TSNonNullExpression"@.len() == 19);
    assert("TSTypeAssertion"@.len() == 15);
    assert("TemplateLiteral"@[0] == 'T' && "TemplateLiteral"@[1] == 'e');
    assert("ChainExpression"@[0] == 'C' && "ChainExpression"@[1] == 'h');
    assert("ArrayExpression"@[0] == 'A' && "ArrayExpression"@[1] == 'r');
    assert("TSTypeAssertion"@[0] == 'T' && "TSTypeAssertion"@[1] == 'S');
    assert("Identifier"@[0] == 'I');
    assert("JSXElement"@[0] == 'J');
    assert("MemberExpression"@[0] == 'M');
    assert("ObjectExpression"@[0] == 'O');
    assert("ParenthesizedExpression"@[0] == 'P');
    assert("ArrowFunctionExpression"@[0] == 'A');
    assert("ConditionalExpression"@[0] == 'C');
    assert("TSSatisfiesExpression"@[0] == 'T');
    assert("FunctionExpression"@[0] == 'F');
    assert("SequenceExpression"@[0] == 'S');
    assert("CallExpression"@[0] == 'C');
    assert("TSAsExpression"@[0] == 'T');
}

/// A statement is read by the type of its node: each of its parts from the field of its name.
pub proof fn statements_are_read_by_their_type(s: Statement, j: JsonView)
    requires
        statement_read(s, j),
    ensures
        node_type(j) == "ExportDefaultDeclaration"@ && field(j, "declaration"@) is Some
            && node_type(field(j, "declaration"@)->0) == "FunctionDeclaration"@ ==> (
        s matches Statement::ExportDefaultFunction(f)
            && function_read(f, field(j, "declaration"@)->0)),
        node_type(j) == "ExportNamedDeclaration"@ ==> (
        s matches Statement::ExportNamed(x) && export_read(x, j)),
        node_type(j) == "ExportAllDeclaration"@ ==> (
        s matches Statement::ExportAll(x) && x@ == text_at(node_at(j, "source"@), "value"@)),
        node_type(j) == "FunctionDeclaration"@ ==> (
        s matches Statement::Declaration(d) && declaration_read(d, j)),
        node_type(j) == "VariableDeclaration"@ ==> (
        s matches Statement::Declaration(d) && declaration_read(d, j)),
        node_type(j) == "TSTypeAliasDeclaration"@ ==> (
        s matches Statement::Declaration(d) && declaration_read(d, j)),
        node_type(j) == "TSInterfaceDeclaration"@ ==> (
        s matches Statement::Declaration(d) && declaration_read(d, j)),
        node_type(j) == "ReturnStatement"@ ==> (
        s matches Statement::Return(x)
            && (present(j, "argument"@) matches Some(a) ==> (x matches Some(e)
            && expression_read(e, a)))),
        node_type(j) == "ExpressionStatement"@ && present(j, "directive"@) is None
            && field(j, "expression"@) is Some ==> (
        s matches Statement::Expression(e) && expression_read(e, field(j, "expression"@)->0)),
        node_type(j) == "BlockStatement"@ ==> (
        s matches Statement::Block(v) && statements_match(v@, list_at(j, "body"@))),
        node_type(j) == "IfStatement"@ && field(j, "consequent"@) is Some ==> (
        s matches Statement::If(x) && statement_read(x.consequent, field(j, "consequent"@)->0)
            && (present(j, "alternate"@) matches Some(a) ==> (x.alternate matches Some(y)
            && statement_read(y, a)))),
        node_type(j) == "ImportDeclaration"@ ==> (
        s matches Statement::Import(d) && import_read(d, j)),
{
    reveal_strlit("ExportDefaultDeclaration");
    reveal_strlit("ExportNamedDeclaration");
    reveal_strlit("ExportAllDeclaration");
    reveal_strlit("FunctionDeclaration");
    reveal_strlit("VariableDeclaration");
    reveal_strlit("TSTypeAliasDeclaration");
    reveal_strlit("TSInterfaceDeclaration");
    reveal_strlit("ReturnStatement");
    reveal_strlit("ExpressionStatement");
    reveal_strlit("BlockStatement");
    reveal_strlit("IfStatement");
    reveal_strlit("ImportDeclaration");
    assert("ExportDefaultDeclaration"@.len() == 24);
    assert("ExportNamedDeclaration"@.len() == 22);
    assert("ExportAllDeclaration"@.len() == 20);
    assert("FunctionDeclaration"@.len() == 19);
    assert("VariableDeclaration"@.len() == 19);
    assert("TSTypeAliasDeclaration"@.len() == 22);
    assert("TSInterfaceDeclaration"@.len() == 22);
    assert("ReturnStatement"@.len() == 15);
    assert("ExpressionStatement"@.len() == 19);
    assert("BlockStatement"@.len() == 14);
    assert("IfStatement"@.len() == 11);
    assert("ImportDeclaration"@.len() == 17);
    assert("ExportNamedDeclaration"@[0] == 'E' && "ExportNamedDeclaration"@[2] == 'p');
    assert("TSTypeAliasDeclaration"@[0] == 'T' && "TSTypeAliasDeclaration"@[2] == 'T');
    assert("TSInterfaceDeclaration"@[0] == 'T' && "TSInterfaceDeclaration"@[2] == 'I');
    assert("FunctionDeclaration"@[0] == 'F');
    assert("VariableDeclaration"@[0] == 'V');
    assert("ExpressionStatement"@[0] == 'E');
}

/// A declaration is read by the type of its node, each variable with its name, its annotation
/// and what it is set to.
pub proof fn declarations_are_read_by_their_type(d: Declaration, j: JsonView)
    requires
        declaration_read(d, j),
    ensures
        node_type(j) == "FunctionDeclaration"@ ==> (
        d matches Declaration::Function(f) && function_read(f, j)),
        node_type(j) == "VariableDeclaration"@ ==> (
        d matches Declaration::Variable(v) && v@.len() == list_at(j, "declarations"@).len()
            && forall|i: int| 0 <= i < v@.len() ==> declarator_read(#[trigger] v@[i], list_at(j, "declarations"@)[i])),
        node_type(j) == "TSTypeAliasDeclaration"@ ==> (
        d matches Declaration::TypeAlias(t) && t.name@ == name_of(node_at(j, "id"@))
            && t.name_span == span_of(node_at(j, "id"@))
            && type_read(t.annotation, node_at(j, "typeAnnotation"@))),
        node_type(j) == "TSInterfaceDeclaration"@ ==> (
        d matches Declaration::Interface(t) && t.name@ == name_of(node_at(j, "id"@))
            && t.name_span == span_of(node_at(j, "id"@))
            && t.extends@.len() == list_at(j, "extends"@).len()),
{
    reveal_strlit("FunctionDeclaration");
    reveal_strlit("VariableDeclaration");
    reveal_strlit("TSTypeAliasDeclaration");
    reveal_strlit("TSInterfaceDeclaration");
    assert("FunctionDeclaration"@.len() == 19);
    assert("VariableDeclaration"@.len() == 19);
    assert("TSTypeAliasDeclaration"@.len() == 22);
    assert("TSInterfaceDeclaration"@.len() == 22);
    assert("FunctionDeclaration"@[0] == 'F');
    assert("VariableDeclaration"@[0] == 'V');
    assert("TSTypeAliasDeclaration"@[2] == 'T');
    assert("TSInterfaceDeclaration"@[2] == 'I');
}

/// The parts of a variable: its name where it is a plain one, its annotation where it has any,
/// and what it is set to where it is.
pub proof fn variables_are_read_with_their_values(d: VariableDeclarator, j: JsonView)
    requires
        declarator_read(d, j),
    ensures
        node_type(node_at(j, "id"@)) == "Identifier"@ ==> opt_text(d.name) == Some(
            name_of(node_at(j, "id"@)),
        ),
        present(j, "init"@) matches Some(i) ==> (d.init matches Some(e) && expression_read(e, i)),
        present(node_at(j, "id"@), "typeAnnotation"@) matches Some(a) ==> (
        d.annotation matches Some(t) && type_read(t, node_at(a, "typeAnnotation"@))),
{
}

/// The parts of a function: its name, its parameters, and its body, which is a block or a single
/// expression.
pub proof fn functions_are_read_with_their_bodies(f: Function, j: JsonView)
    requires
        function_read(f, j),
    ensures
        present(j, "id"@) matches Some(id) ==> opt_text(f.id) == Some(name_of(id)),
        f.params@.len() == list_at(j, "params"@).len(),
        present(j, "body"@) matches Some(b) ==> (f.body matches Some(v) && (node_type(b)
            == "BlockStatement"@ ==> statements_match(v@, list_at(b, "body"@))) && (node_type(b)
            != "BlockStatement"@ ==> v@.len() == 1 && (v@[0] matches Statement::Expression(e)
            && expression_read(e, b)))),
{
    if let Some(b) = present(j, "body"@) {
        let v = f.body->0;
        assert(body_read(v@, b));
    }
}

/// A child is read by the type of its node.
pub proof fn children_are_read_by_their_type(c: JsxChild, j: JsonView)
    requires
        child_read(c, j),
    ensures
        node_type(j) == "JSXElement"@ ==> (
        c matches JsxChild::Element(e) && element_node_read(*e, j)),
        node_type(j) == "JSXFragment"@ ==> (
        c matches JsxChild::Fragment(v) && children_match(v@, list_at(j, "children"@))),
        node_type(j) == "JSXExpressionContainer"@ && field(j, "expression"@) is Some
            && node_type(field(j, "expression"@)->0) != "JSXEmptyExpression"@ ==> (
        c matches JsxChild::Container(x) && (x.expression matches Some(e)
            && expression_read(e, field(j, "expression"@)->0))),
{
    reveal_strlit("JSXElement");
    reveal_strlit("JSXFragment");
    reveal_strlit("JSXExpressionContainer");
    assert("JSXElement"@.len() == 10);
    assert("JSXFragment"@.len() == 11);
    assert("JSXExpressionContainer"@.len() == 22);
    if let JsxChild::Container(x) = c {
        assert(container_read(x, j));
    }
}

/// The attributes of an element are read with their names and values, and its children in
/// their order.
pub proof fn elements_are_read_with_their_parts(e: JsxElement, j: JsonView, i: int)
    requires
        element_node_read(e, j),
    ensures
        e.name_span == span_of(node_at(node_at(j, "openingElement"@), "name"@)),
        children_match(e.children@, list_at(j, "children"@)),
        field(j, "openingElement"@) matches Some(opening) ==> e.attributes@.len() == list_at(
            opening,
            "attributes"@,
        ).len() && (0 <= i < e.attributes@.len() ==> {
            let a = list_at(opening, "attributes"@)[i];
            node_type(a) == "JSXAttribute"@ ==> (
            e.attributes@[i] matches JsxAttributeItem::Attribute(x) && (node_type(
                node_at(a, "name"@),
            ) == "JSXIdentifier"@ ==> opt_text(x.name) == Some(name_of(node_at(a, "name"@)))) && (
            present(a, "value"@) matches Some(v) ==> (x.value matches Some(w)
                && attribute_value_read(w, v))))
        }),
{
    if let Some(opening) = field(j, "openingElement"@) {
        if 0 <= i < e.attributes@.len() {
            assert(attribute_read(e.attributes@[i], list_at(opening, "attributes"@)[i]));
        }
    }
}

} // verus!
