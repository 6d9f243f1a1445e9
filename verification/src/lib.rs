//! Static analysis and fix planning for JavaScript, TypeScript, JSX and CSS projects.

pub mod analysis;
pub mod apply;
pub mod ast;
pub mod capabilities;
pub mod classnames;
pub mod css;
pub mod css_math;
pub mod css_vars;
pub mod dependency;
pub mod engine;
pub mod estree;
pub mod fix;
pub mod function_calls;
pub mod goose;
pub mod imports;
pub mod incident;
pub mod js_fix;
pub mod json;
pub mod jsx;
pub mod llm;
pub mod lockfile;
pub mod nodes;
pub mod paths;
pub mod pattern;
pub mod patternfly;
pub mod plan;
pub mod reexports;
pub mod references;
pub mod report;
pub mod resolve;
pub mod ruleset;
pub mod scan;
pub mod service;
pub mod sorting;
pub mod text;
pub mod text_map;
pub mod transparency;
pub mod type_refs;
pub mod yaml;
