//! Nodes of programs, and which of them stand directly in which others.

use crate::ast::{
    Argument, Declaration, Expression, Function, JsxAttributeItem, JsxAttributeValue, JsxChild,
    JsxElement, ObjectMember, Span, Statement,
};
use crate::incident::IncidentView;
use vstd::prelude::*;

verus! {

/// A node of a program.
pub ghost enum Node {
    Statement(Statement),
    Declaration(Declaration),
    Expression(Expression),
    /// An expression in the braces of an attribute or of a child.
    Braced(Expression),
    Element(JsxElement),
    Attribute(JsxAttributeItem),
    Child(JsxChild),
    Member(ObjectMember),
    /// A text at a place.
    Text(Span, Seq<char>),
}

/// Whether a statement stands in the body of a function.
pub open spec fn in_body(f: Function, b: Node) -> bool {
    b matches Node::Statement(s) && f.body matches Some(body) && body@.contains(s)
}

/// What stands directly in a statement. The branches of a condition count where
/// `branches` holds.
pub open spec fn in_statement(s: Statement, b: Node, branches: bool) -> bool {
    match s {
        Statement::ExportDefaultFunction(f) => in_body(f, b),
        Statement::ExportNamed(x) => x.declaration matches Some(d) && b == Node::Declaration(d),
        Statement::Declaration(d) => b == Node::Declaration(d),
        Statement::Return(Some(e)) => b == Node::Expression(e),
        Statement::Expression(e) => b == Node::Expression(e),
        Statement::Block(v) => b matches Node::Statement(x) && v@.contains(x),
        Statement::If(x) => branches && (b == Node::Statement(x.consequent) || (
        x.alternate matches Some(a) && b == Node::Statement(a))),
        _ => false,
    }
}

/// What stands directly in a declaration: the body of a function, and what variables are
/// set to.
pub open spec fn in_declaration(d: Declaration, b: Node) -> bool {
    match d {
        Declaration::Function(f) => in_body(f, b),
        Declaration::Variable(v) => b matches Node::Expression(e) && exists|i: int|
            0 <= i < v@.len() && (#[trigger] v@[i]).init == Some(e),
        _ => false,
    }
}

/// What stands directly in an element: its attributes and its children.
pub open spec fn in_element(el: JsxElement, b: Node) -> bool {
    match b {
        Node::Attribute(a) => el.attributes@.contains(a),
        Node::Child(c) => el.children@.contains(c),
        _ => false,
    }
}

/// The expression in the braces of an attribute.
pub open spec fn in_attribute(a: JsxAttributeItem, b: Node) -> bool {
    a matches JsxAttributeItem::Attribute(x) && x.value matches Some(
        JsxAttributeValue::Container(k),
    ) && k.expression matches Some(e) && b == Node::Braced(e)
}

/// What stands directly in a child. What it holds in braces counts where `braces` holds.
pub open spec fn in_child(child: JsxChild, b: Node, braces: bool) -> bool {
    match child {
        JsxChild::Element(el) => b == Node::Element(*el),
        JsxChild::Fragment(v) => b matches Node::Child(c) && v@.contains(c),
        JsxChild::Container(k) => k.expression matches Some(e) && braces && b == Node::Braced(e),
        JsxChild::Other => false,
    }
}

/// An argument of a call. One that is spread counts where `spread` holds.
pub open spec fn in_arguments(v: Seq<Argument>, b: Node, spread: bool) -> bool {
    exists|i: int|
        0 <= i < v.len() && (spread || !(#[trigger] v[i]).spread) && b == Node::Expression(
            v[i].expression,
        )
}

// ── Incidents among others ──────────────────────────────────────────────

/// Whether all of some incidents are among others.
pub open spec fn all_among(a: Seq<IncidentView>, b: Seq<IncidentView>) -> bool {
    forall|i: int| 0 <= i < a.len() ==> b.contains(#[trigger] a[i])
}

pub(crate) proof fn lemma_among_itself(a: Seq<IncidentView>)
    ensures
        all_among(a, a),
{
}

pub(crate) proof fn lemma_among_more(
    a: Seq<IncidentView>,
    b: Seq<IncidentView>,
    c: Seq<IncidentView>,
)
    requires
        all_among(a, b),
        all_among(b, c),
    ensures
        all_among(a, c),
{
    assert forall|i: int| 0 <= i < a.len() implies c.contains(#[trigger] a[i]) by {
        assert(b.contains(a[i]));
        let k = choose|k: int| 0 <= k < b.len() && b[k] == a[i];
        assert(c.contains(b[k]));
    }
}

pub(crate) proof fn lemma_contained(a: Seq<IncidentView>, b: Seq<IncidentView>, x: IncidentView)
    requires
        all_among(a, b),
        a.contains(x),
    ensures
        b.contains(x),
{
    let k = choose|k: int| 0 <= k < a.len() && a[k] == x;
    assert(b.contains(a[k]));
}

pub(crate) proof fn lemma_among_joined(
    a: Seq<IncidentView>,
    b: Seq<IncidentView>,
)
    ensures
        all_among(a, a + b),
        all_among(b, a + b),
{
    assert forall|i: int| 0 <= i < a.len() implies (a + b).contains(#[trigger] a[i]) by {
        assert((a + b)[i] == a[i]);
    }
    assert forall|i: int| 0 <= i < b.len() implies (a + b).contains(#[trigger] b[i]) by {
        assert((a + b)[a.len() + i] == b[i]);
    }
}

} // verus!
