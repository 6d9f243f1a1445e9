//! The output of an analysis: rulesets with the violations that they found.

use crate::incident::{incident_views, Incident, IncidentView};
use crate::text::{opt_text, texts};
use crate::text_map::TextMap;
use vstd::prelude::*;

verus! {

/// How severe a violation is.
#[derive(Debug, Clone, Copy, PartialEq, Eq, Structural)]
pub enum Category {
    Mandatory,
    Optional,
    Potential,
}

/// A hyperlink of a rule.
#[derive(Debug, PartialEq, Eq)]
pub struct Link {
    pub url: String,
    pub title: Option<String>,
}

/// What a rule found.
#[derive(Debug)]
pub struct Violation {
    pub description: String,
    pub category: Option<Category>,
    pub labels: Vec<String>,
    pub incidents: Vec<Incident>,
    pub links: Vec<Link>,
    pub effort: Option<i32>,
}

/// The content of a link.
pub ghost struct RuleLinkView {
    pub url: Seq<char>,
    pub title: Option<Seq<char>>,
}

/// The content of a violation.
#[verifier::ext_equal]
pub ghost struct ViolationView {
    pub description: Seq<char>,
    pub category: Option<Category>,
    pub labels: Seq<Seq<char>>,
    pub incidents: Seq<IncidentView>,
    pub links: Seq<RuleLinkView>,
    pub effort: Option<i32>,
}

impl Link {
    pub open spec fn view(&self) -> RuleLinkView {
        RuleLinkView { url: self.url@, title: opt_text(self.title) }
    }
}

pub open spec fn rule_link_views(v: Seq<Link>) -> Seq<RuleLinkView> {
    Seq::new(v.len(), |i: int| v[i]@)
}

impl Violation {
    pub open spec fn view(&self) -> ViolationView {
        ViolationView {
            description: self.description@,
            category: self.category,
            labels: texts(self.labels@),
            incidents: incident_views(self.incidents@),
            links: rule_link_views(self.links@),
            effort: self.effort,
        }
    }
}

/// The violations of a ruleset, by rule.
pub open spec fn violations_view(m: TextMap<Violation>) -> Map<Seq<char>, ViolationView> {
    m@.map_values(|v: Violation| v@)
}

/// Texts by rule.
pub open spec fn texts_view(m: TextMap<String>) -> Map<Seq<char>, Seq<char>> {
    m@.map_values(|t: String| t@)
}

/// The results of a ruleset.
#[derive(Debug)]
pub struct RuleSet {
    pub name: String,
    pub description: String,
    pub tags: Vec<String>,
    pub violations: TextMap<Violation>,
    pub insights: TextMap<Violation>,
    pub errors: TextMap<String>,
    pub unmatched: Vec<String>,
    pub skipped: Vec<String>,
}

} // verus!
