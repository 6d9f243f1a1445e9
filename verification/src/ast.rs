//! Syntax trees of JavaScript and TypeScript programs, as far as the scanners
//! look at them. Whatever they do not look at is `Other`.

use vstd::prelude::*;

verus! {

/// The bytes of the source that a node covers.
#[derive(Debug, Clone, Copy, PartialEq, Eq, Structural)]
pub struct Span {
    pub start: u32,
    pub end: u32,
}

/// A program: its statements without directives, and the calls in it whose callee has a
/// name, in the order of the source.
#[derive(Debug)]
pub struct Program {
    pub body: Vec<Statement>,
    pub calls: Vec<CallSite>,
}

/// A call of a named function, wherever it stands in a program.
#[derive(Debug)]
pub struct CallSite {
    pub name: String,
    pub span: Span,
}

pub ghost struct CallView {
    pub name: Seq<char>,
    pub span: Span,
}

impl CallSite {
    pub open spec fn view(&self) -> CallView {
        CallView { name: self.name@, span: self.span }
    }
}

#[derive(Debug)]
pub enum Statement {
    /// `export default function ...`
    ExportDefaultFunction(Function),
    /// `export <declaration>`, `export { a } from '...'`
    ExportNamed(ExportNamed),
    /// `export * from '...'`
    ExportAll(String),
    Declaration(Declaration),
    Return(Option<Expression>),
    Expression(Expression),
    Block(Vec<Statement>),
    If(Box<IfStatement>),
    Import(ImportDeclaration),
    Other,
}

#[derive(Debug)]
pub struct IfStatement {
    pub consequent: Statement,
    pub alternate: Option<Statement>,
}

#[derive(Debug)]
pub struct ExportNamed {
    pub declaration: Option<Declaration>,
    /// Where the names are re-exported from.
    pub source: Option<String>,
    /// The names as consumers see them.
    pub exported: Vec<String>,
}

#[derive(Debug)]
pub enum Declaration {
    Function(Function),
    Variable(Vec<VariableDeclarator>),
    TypeAlias(TypeAlias),
    Interface(Interface),
    Other,
}

#[derive(Debug)]
pub struct TypeAlias {
    pub name: String,
    pub name_span: Span,
    pub annotation: TsType,
}

#[derive(Debug)]
pub struct Interface {
    pub name: String,
    pub name_span: Span,
    pub extends: Vec<Heritage>,
}

/// One base of an interface.
#[derive(Debug, Clone, Copy)]
pub struct Heritage {
    pub span: Span,
    pub expression_span: Span,
}

#[derive(Debug)]
pub struct VariableDeclarator {
    pub id_span: Span,
    /// The name, of a declarator that binds a single name.
    pub name: Option<String>,
    pub annotation: Option<TsType>,
    pub init: Option<Expression>,
}

#[derive(Debug)]
pub enum TsType {
    Reference(TypeReference),
    Union(Vec<TsType>),
    Intersection(Vec<TsType>),
    Array(Box<TsType>),
    Other,
}

#[derive(Debug)]
pub struct TypeReference {
    pub name_span: Span,
    pub arguments: Vec<TsType>,
}

#[derive(Debug)]
pub struct ImportDeclaration {
    pub span: Span,
    pub source: String,
    pub specifiers: Vec<ImportSpecifier>,
}

#[derive(Debug)]
pub enum ImportKind {
    /// `{ imported as local }`
    Named(String),
    /// `local`
    Default,
    /// `* as local`
    Namespace,
}

#[derive(Debug)]
pub struct ImportSpecifier {
    pub span: Span,
    pub local: String,
    pub kind: ImportKind,
}

#[derive(Debug)]
pub struct Function {
    pub id: Option<String>,
    pub params: Vec<Param>,
    /// The types of the parameters and of the result, where they are annotated.
    pub signature: Vec<TsType>,
    pub body: Option<Vec<Statement>>,
}

#[derive(Debug)]
pub enum Param {
    Identifier,
    /// The plain keys of an object pattern; nothing for the others.
    ObjectPattern(Vec<Option<String>>),
    Other,
}

#[derive(Debug)]
pub struct Expression {
    pub span: Span,
    pub kind: ExpressionKind,
}

#[derive(Debug)]
pub enum ExpressionKind {
    StringLiteral(String),
    TemplateLiteral(Vec<TemplateElement>),
    Identifier(String),
    StaticMember(Box<StaticMember>),
    JsxElement(Box<JsxElement>),
    JsxFragment(Vec<JsxChild>),
    Parenthesized(Box<Expression>),
    Conditional(Box<Conditional>),
    Logical(Box<Logical>),
    Arrow(Box<Function>),
    Function(Box<Function>),
    Call(Box<Call>),
    /// `a?.b(...)`: the arguments of an optional call.
    ChainCall(Vec<Argument>),
    Object(Vec<ObjectMember>),
    /// The elements; nothing for holes and spreads.
    Array(Vec<Option<Expression>>),
    Sequence(Vec<Expression>),
    TsAs(Box<Expression>),
    TsSatisfies(Box<Expression>),
    TsNonNull(Box<Expression>),
    TsTypeAssertion(Box<Expression>),
    Other,
}

/// A literal piece of a template.
#[derive(Debug)]
pub struct TemplateElement {
    pub span: Span,
    pub raw: String,
}

#[derive(Debug)]
pub struct StaticMember {
    pub object: Expression,
    pub property: String,
}

#[derive(Debug)]
pub struct Conditional {
    pub consequent: Expression,
    pub alternate: Expression,
}

#[derive(Debug)]
pub struct Logical {
    pub left: Expression,
    pub right: Expression,
}

#[derive(Debug)]
pub struct Call {
    pub callee: Expression,
    pub arguments: Vec<Argument>,
}

#[derive(Debug)]
pub struct Argument {
    pub spread: bool,
    pub expression: Expression,
}

#[derive(Debug)]
pub enum ObjectMember {
    Property(ObjectProperty),
    Spread,
}

#[derive(Debug)]
pub struct ObjectProperty {
    pub key: PropertyKey,
    pub key_span: Span,
    pub value: Expression,
}

#[derive(Debug)]
pub enum PropertyKey {
    /// `{ name: ... }`
    Static(String),
    /// `{ "name": ... }`
    Str(String),
    Other,
}

#[derive(Debug)]
pub struct JsxElement {
    pub name: JsxName,
    pub name_span: Span,
    pub attributes: Vec<JsxAttributeItem>,
    pub children: Vec<JsxChild>,
}

#[derive(Debug)]
pub enum JsxName {
    Identifier(String),
    Namespaced(String, String),
    Member(Box<JsxName>, String),
    This,
}

#[derive(Debug)]
pub enum JsxAttributeItem {
    Attribute(JsxAttribute),
    Spread,
}

#[derive(Debug)]
pub struct JsxAttribute {
    /// The name, where it has no namespace.
    pub name: Option<String>,
    pub name_span: Span,
    pub value: Option<JsxAttributeValue>,
}

#[derive(Debug)]
pub enum JsxAttributeValue {
    Str(Span, String),
    Container(JsxContainer),
    Other,
}

/// `{ expression }`, or `{}`.
#[derive(Debug)]
pub struct JsxContainer {
    pub span: Span,
    pub expression: Option<Expression>,
}

#[derive(Debug)]
pub enum JsxChild {
    Element(Box<JsxElement>),
    Fragment(Vec<JsxChild>),
    Container(JsxContainer),
    Other,
}

} // verus!
