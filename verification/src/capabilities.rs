//! The capabilities of the provider and the conditions they take.
//!
//! - `referenced`: symbols in JavaScript and TypeScript (imports, JSX, props, types)
//! - `cssclass`: CSS class names
//! - `cssvar`: CSS custom properties
//! - `dependency`: dependencies in package manifests

use crate::text::same_text;
use vstd::prelude::*;

verus! {

/// The place in source code to search for references.
#[derive(Debug, Clone, Copy, PartialEq, Eq, Structural)]
pub enum ReferenceLocation {
    /// `import { X } from '...'`
    Import,
    /// `<Button ...>`
    JsxComponent,
    /// `<Button isActive={...}>`
    JsxProp,
    /// `useButton(...)`
    FunctionCall,
    /// `const x: ButtonProps = ...`
    TypeReference,
}

/// Condition for the `referenced` capability.
#[derive(Debug)]
pub struct ReferencedCondition {
    /// Expression to search for.
    pub pattern: String,
    /// Place to search. All places where absent.
    pub location: Option<ReferenceLocation>,
    /// Component that a prop must stand on.
    pub component: Option<String>,
    /// Component that must be the direct parent.
    pub parent: Option<String>,
    /// Module that the parent must be imported from.
    pub parent_from: Option<String>,
    /// Value that a prop must have.
    pub value: Option<String>,
    /// Module that the match must be imported from.
    pub from: Option<String>,
    /// Files to search.
    pub file_pattern: Option<String>,
}

/// Condition for the `cssclass` capability.
#[derive(Debug)]
pub struct CssClassCondition {
    pub pattern: String,
    pub file_pattern: Option<String>,
}

/// Condition for the `cssvar` capability.
#[derive(Debug)]
pub struct CssVarCondition {
    pub pattern: String,
    pub file_pattern: Option<String>,
}

/// Condition for the `dependency` capability.
#[derive(Debug)]
pub struct DependencyCondition {
    /// Dependency name, compared literally.
    pub name: Option<String>,
    /// Expression for the dependency name.
    pub nameregex: Option<String>,
    /// Match versions up to this one.
    pub upperbound: Option<String>,
    /// Match versions from this one.
    pub lowerbound: Option<String>,
}

/// A condition of any capability.
#[derive(Debug)]
pub enum ProviderCondition {
    Referenced(ReferencedCondition),
    CssClass(CssClassCondition),
    CssVar(CssVarCondition),
    Dependency(DependencyCondition),
}

/// The capabilities that a condition can be for.
#[derive(Debug, Clone, Copy, PartialEq, Eq, Structural)]
pub enum Capability {
    Referenced,
    CssClass,
    CssVar,
    Dependency,
}

/// The capability of a name.
pub open spec fn capability_named(name: Seq<char>) -> Option<Capability> {
    if name == "referenced"@ {
        Some(Capability::Referenced)
    } else if name == "cssclass"@ {
        Some(Capability::CssClass)
    } else if name == "cssvar"@ {
        Some(Capability::CssVar)
    } else if name == "dependency"@ {
        Some(Capability::Dependency)
    } else {
        None
    }
}

impl Capability {
    /// The capability of a name, where it has one.
    pub fn from_name(name: &str) -> (r: Option<Capability>)
        ensures
            r == capability_named(name@),
    {
        if same_text(name, "referenced") {
            Some(Capability::Referenced)
        } else if same_text(name, "cssclass") {
            Some(Capability::CssClass)
        } else if same_text(name, "cssvar") {
            Some(Capability::CssVar)
        } else if same_text(name, "dependency") {
            Some(Capability::Dependency)
        } else {
            None
        }
    }
}

/// All capabilities of this provider, by name.
pub open spec fn capability_names() -> Seq<Seq<char>> {
    seq!["referenced"@, "cssclass"@, "cssvar"@, "dependency"@]
}

/// Exactly the names of the capabilities have a capability.
pub proof fn capability_names_complete(name: Seq<char>)
    ensures
        capability_named(name) is Some <==> capability_names().contains(name),
{
    let names = capability_names();
    assert(names[0] == "referenced"@);
    assert(names[1] == "cssclass"@);
    assert(names[2] == "cssvar"@);
    assert(names[3] == "dependency"@);
}

} // verus!
