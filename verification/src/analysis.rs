//! Rule evaluation: which incidents the rules of a ruleset find in a project.

use crate::ast::Program;
use crate::capabilities::ProviderCondition;
use crate::css::{
    class_matches, css_extensions, extension, extension_of, is_preprocessed, parsed_sheet,
    path_to_uri, scan_css_file_classes, scan_css_file_vars, selector_matches, uri_of_path,
    var_lines, CssErrorView, CssScanError,
};
use crate::dependency::{
    all_checked, check_dependencies, DependencyError, DependencyErrorView, ManifestText,
};
use crate::estree::{document_of, parse_program, program_read};
use crate::incident::{
    append_incidents, copy_variables, incident_views, lemma_incident_views_push, link_views,
    ExternalLink, Incident, IncidentView, LinkView,
};
use crate::nodes::{all_among, lemma_among_joined, lemma_among_more};
use crate::pattern::{compile, regex_is_match, regex_rejection, regex_text, regex_written};
use crate::references::{
    all_class_hits, all_var_hits, compile_optional, opt_regex, opt_rejection, query_error, query_of,
    reference_hits, scan_program_classnames, scan_program_css_vars, scan_program_referenced,
    QueryView, ReferenceQuery,
};
use crate::ruleset::{
    rule_link_views, texts_view, violations_view, Category, Link, RuleLinkView, RuleSet, Violation,
    ViolationView,
};
use crate::scan::TextScanView;
use crate::text::{
    copy_list, copy_opt, lemma_in_either, lemma_in_pushed, lemma_texts_push, lines, list_contains,
    opt_text, same_text, texts,
};
use crate::text_map::TextMap;
use vstd::prelude::*;

verus! {

/// A file of a project, with its text or the reason why it cannot be read.
#[derive(Debug)]
pub struct SourceFile {
    pub path: String,
    pub content: Result<String, String>,
}

/// What an analysis reads of a project.
#[derive(Debug)]
pub struct ProjectFiles {
    pub root: String,
    /// Stylesheets, in the order of a walk through the project.
    pub css_files: Vec<SourceFile>,
    /// JavaScript and TypeScript sources, in the order of a walk through the project.
    pub js_files: Vec<SourceFile>,
    /// Package manifests.
    pub manifests: Vec<ManifestText>,
}

pub open spec fn js_extensions() -> Seq<Seq<char>> {
    seq!["js"@, "jsx"@, "ts"@, "tsx"@, "mjs"@, "mts"@]
}

/// Whether a file is JavaScript or TypeScript, by its extension.
pub fn is_js_file(path: &str) -> (r: bool)
    ensures
        r == js_extensions().contains(extension_of(path@)),
{
    let mut known: Vec<String> = Vec::new();
    known.push("js".to_owned());
    known.push("jsx".to_owned());
    known.push("ts".to_owned());
    known.push("tsx".to_owned());
    known.push("mjs".to_owned());
    known.push("mts".to_owned());
    assert(texts(known@) =~= js_extensions());
    let ext = extension(path);
    list_contains(&known, ext.as_str())
}

/// What a condition finds, or why it cannot be evaluated.
pub type Outcome = Result<Seq<IncidentView>, Seq<char>>;

pub open spec fn outcome_of(r: Result<Vec<Incident>, String>) -> Outcome {
    match r {
        Ok(v) => Ok(incident_views(v@)),
        Err(m) => Err(m@),
    }
}

/// Two outcomes, one after the other: the first error ends it.
pub open spec fn joined(before: Outcome, next: Outcome) -> Outcome {
    match (before, next) {
        (Err(m), _) => Err(m),
        (Ok(_), Err(m)) => Err(m),
        (Ok(a), Ok(b)) => Ok(a + b),
    }
}

// ── Errors ──────────────────────────────────────────────────────────────

pub open spec fn css_message(e: CssErrorView) -> Seq<char> {
    match e {
        CssErrorView::InvalidExpression(m) => m,
        CssErrorView::NoDot => "a class match begins with no dot"@,
        CssErrorView::NoSuchLine => "a rule begins on a line that the file does not have"@,
    }
}

fn css_error_text(e: CssScanError) -> (r: String)
    ensures
        r@ == css_message(e@),
{
    match e {
        CssScanError::InvalidExpression(m) => m,
        CssScanError::NoDot => "a class match begins with no dot".to_owned(),
        CssScanError::NoSuchLine => "a rule begins on a line that the file does not have".to_owned(),
    }
}

pub open spec fn dependency_message(e: DependencyErrorView) -> Seq<char> {
    match e {
        DependencyErrorView::Unreadable(m) => m,
        DependencyErrorView::InvalidManifest(m) => m,
        DependencyErrorView::InvalidExpression(m) => m,
    }
}

fn dependency_error_text(e: DependencyError) -> (r: String)
    ensures
        r@ == dependency_message(e@),
{
    match e {
        DependencyError::Unreadable(m) => m,
        DependencyError::InvalidManifest(m) => m,
        DependencyError::InvalidExpression(m) => m,
    }
}

// ── Stylesheets ─────────────────────────────────────────────────────────

/// Whether a file is searched: any is where there is no expression for its path.
pub open spec fn is_searched(path: Seq<char>, file_pattern: Option<Seq<char>>) -> bool {
    match file_pattern {
        Some(e) => regex_is_match(e, path),
        None => true,
    }
}

fn is_file_searched(path: &str, file_pattern: &Option<regex::Regex>) -> (r: bool)
    ensures
        r == is_searched(path@, opt_regex(*file_pattern)),
{
    match file_pattern {
        Some(re) => re.is_match(path),
        None => true,
    }
}

/// What a stylesheet gives: its classes, or its custom properties.
pub open spec fn css_file_outcome(
    root: Seq<char>,
    file: SourceFile,
    classes: bool,
    pattern: Seq<char>,
) -> Outcome {
    let uri = uri_of_path(file.path@, root);
    let ext = extension_of(file.path@);
    match file.content {
        Err(m) => Err(m@),
        Ok(source) => if classes {
            let found = if ext == "css"@ {
                selector_matches(source@, uri, parsed_sheet(source@), pattern, pattern)
            } else if is_preprocessed(ext) {
                class_matches(source@, uri, pattern, pattern)
            } else {
                Ok(Seq::empty())
            };
            match found {
                Ok(v) => Ok(v),
                Err(e) => Err(css_message(e)),
            }
        } else if css_extensions().contains(ext) {
            Ok(var_lines(source@, uri, pattern, lines(source@).len() as int))
        } else {
            Ok(Seq::empty())
        },
    }
}

/// What the stylesheets that are searched give, one after the other.
pub open spec fn css_outcome(
    root: Seq<char>,
    files: Seq<SourceFile>,
    file_pattern: Option<Seq<char>>,
    classes: bool,
    pattern: Seq<char>,
) -> Outcome
    decreases files.len(),
{
    if files.len() == 0 {
        Ok(Seq::empty())
    } else {
        let before = css_outcome(root, files.drop_last(), file_pattern, classes, pattern);
        if is_searched(files.last().path@, file_pattern) {
            joined(before, css_file_outcome(root, files.last(), classes, pattern))
        } else {
            before
        }
    }
}

proof fn lemma_css_outcome_error(
    root: Seq<char>,
    files: Seq<SourceFile>,
    file_pattern: Option<Seq<char>>,
    classes: bool,
    pattern: Seq<char>,
    i: int,
)
    requires
        0 <= i <= files.len(),
        css_outcome(root, files.take(i), file_pattern, classes, pattern) is Err,
    ensures
        css_outcome(root, files, file_pattern, classes, pattern) == css_outcome(
            root,
            files.take(i),
            file_pattern,
            classes,
            pattern,
        ),
    decreases files.len() - i,
{
    if i < files.len() {
        assert(files.take(i + 1).drop_last() =~= files.take(i));
        lemma_css_outcome_error(root, files, file_pattern, classes, pattern, i + 1);
    } else {
        assert(files.take(i) =~= files);
    }
}

fn search_stylesheet(root: &str, file: &SourceFile, classes: bool, pattern: &regex::Regex) -> (r: Result<
    Vec<Incident>,
    String,
>)
    requires
        regex_written(*pattern) == regex_text(*pattern),
    ensures
        outcome_of(r) == css_file_outcome(root@, *file, classes, regex_text(*pattern)),
{
    match &file.content {
        Err(m) => Err(m.clone()),
        Ok(source) => if classes {
            match scan_css_file_classes(file.path.as_str(), root, source.as_str(), pattern) {
                Ok(v) => Ok(v),
                Err(e) => Err(css_error_text(e)),
            }
        } else {
            Ok(scan_css_file_vars(file.path.as_str(), root, source.as_str(), pattern))
        },
    }
}

fn search_stylesheets(
    project: &ProjectFiles,
    file_pattern: &Option<regex::Regex>,
    classes: bool,
    pattern: &regex::Regex,
) -> (r: Result<Vec<Incident>, String>)
    requires
        regex_written(*pattern) == regex_text(*pattern),
    ensures
        outcome_of(r) == css_outcome(
            project.root@,
            project.css_files@,
            opt_regex(*file_pattern),
            classes,
            regex_text(*pattern),
        ),
{
    let files = &project.css_files;
    let ghost v = files@;
    let ghost fp = opt_regex(*file_pattern);
    let ghost p = regex_text(*pattern);
    let mut out: Vec<Incident> = Vec::new();
    let mut i: usize = 0;
    assert(incident_views(out@) =~= Seq::<IncidentView>::empty());
    while i < files.len()
        invariant
            i <= files@.len(),
            files == &project.css_files,
            v == files@,
            fp == opt_regex(*file_pattern),
            p == regex_text(*pattern),
            regex_written(*pattern) == p,
            css_outcome(project.root@, v.take(i as int), fp, classes, p) == Ok::<
                Seq<IncidentView>,
                Seq<char>,
            >(incident_views(out@)),
        decreases files@.len() - i,
    {
        assert(v.take(i + 1).drop_last() =~= v.take(i as int));
        assert(v.take(i + 1).last() == files@[i as int]);
        if is_file_searched(files[i].path.as_str(), file_pattern) {
            match search_stylesheet(project.root.as_str(), &files[i], classes, pattern) {
                Ok(found) => {
                    append_incidents(&mut out, found);
                },
                Err(m) => {
                    proof {
                        lemma_css_outcome_error(project.root@, v, fp, classes, p, i + 1);
                    }
                    return Err(m);
                },
            }
        }
        i = i + 1;
    }
    assert(v.take(v.len() as int) =~= v);
    Ok(out)
}

// ── Sources ─────────────────────────────────────────────────────────────

/// What sources are searched for.
#[derive(Debug)]
pub enum JsSearch {
    Referenced(ReferenceQuery),
    ClassNames(regex::Regex),
    CssVars(regex::Regex),
}

pub ghost enum JsSearchView {
    Referenced(QueryView),
    ClassNames(Seq<char>),
    CssVars(Seq<char>),
}

impl JsSearch {
    pub open spec fn view(&self) -> JsSearchView {
        match self {
            JsSearch::Referenced(q) => JsSearchView::Referenced(q@),
            JsSearch::ClassNames(re) => JsSearchView::ClassNames(regex_text(*re)),
            JsSearch::CssVars(re) => JsSearchView::CssVars(regex_text(*re)),
        }
    }
}

/// What a search finds in a program.
pub open spec fn program_hits(
    program: Program,
    source: Seq<char>,
    file_uri: Seq<char>,
    search: JsSearchView,
) -> Seq<IncidentView> {
    match search {
        JsSearchView::Referenced(q) => reference_hits(program, source, file_uri, q),
        JsSearchView::ClassNames(pattern) => all_class_hits(
            (TextScanView { source, pattern, file_uri }),
            program.body@,
        ),
        JsSearchView::CssVars(pattern) => all_var_hits(
            (TextScanView { source, pattern, file_uri }),
            program.body@,
        ),
    }
}

/// Whether a search of a source has an outcome: what it finds in a program that the
/// source is read as, and nothing where there is no program.
pub open spec fn js_file_found(
    root: Seq<char>,
    file: SourceFile,
    search: JsSearchView,
    out: Outcome,
) -> bool {
    match file.content {
        Err(m) => out == Err::<Seq<IncidentView>, Seq<char>>(m@),
        Ok(source) => match document_of(source@) {
            None => out == Ok::<Seq<IncidentView>, Seq<char>>(Seq::empty()),
            Some(j) => exists|p: Program| #[trigger]
                program_read(p, j) && out == Ok::<Seq<IncidentView>, Seq<char>>(
                    program_hits(p, source@, uri_of_path(file.path@, root), search),
                ),
        },
    }
}

/// Whether searching a source after others leads from their outcome to another.
pub open spec fn js_step(
    root: Seq<char>,
    file: SourceFile,
    search: JsSearchView,
    before: Outcome,
    out: Outcome,
) -> bool {
    match before {
        Err(_) => out == before,
        Ok(_) => exists|o: Outcome| #[trigger]
            js_file_found(root, file, search, o) && out == joined(before, o),
    }
}

/// Whether a search of the sources that are searched, one after the other, has an
/// outcome.
pub open spec fn js_found(
    root: Seq<char>,
    files: Seq<SourceFile>,
    file_pattern: Option<Seq<char>>,
    search: JsSearchView,
    out: Outcome,
) -> bool
    decreases files.len(),
{
    if files.len() == 0 {
        out == Ok::<Seq<IncidentView>, Seq<char>>(Seq::empty())
    } else if is_searched(files.last().path@, file_pattern) {
        exists|before: Outcome|
            js_found(root, files.drop_last(), file_pattern, search, before) && #[trigger] js_step(
                root,
                files.last(),
                search,
                before,
                out,
            )
    } else {
        js_found(root, files.drop_last(), file_pattern, search, out)
    }
}

proof fn lemma_js_found_error(
    root: Seq<char>,
    files: Seq<SourceFile>,
    file_pattern: Option<Seq<char>>,
    search: JsSearchView,
    out: Outcome,
    i: int,
)
    requires
        0 <= i <= files.len(),
        out is Err,
        js_found(root, files.take(i), file_pattern, search, out),
    ensures
        js_found(root, files, file_pattern, search, out),
    decreases files.len() - i,
{
    if i < files.len() {
        assert(files.take(i + 1).drop_last() =~= files.take(i));
        let longer = files.take(i + 1);
        assert(js_found(root, longer.drop_last(), file_pattern, search, out));
        assert(js_step(root, longer.last(), search, out, out));
        lemma_js_found_error(root, files, file_pattern, search, out, i + 1);
    } else {
        assert(files.take(i) =~= files);
    }
}

/// Searches a program.
pub fn search_program(program: &Program, source: &str, file_uri: &str, search: &JsSearch) -> (r: Vec<Incident>)
    ensures
        incident_views(r@) == program_hits(*program, source@, file_uri@, search@),
{
    match search {
        JsSearch::Referenced(q) => scan_program_referenced(program, source, file_uri, q),
        JsSearch::ClassNames(re) => scan_program_classnames(program, source, re, file_uri),
        JsSearch::CssVars(re) => scan_program_css_vars(program, source, re, file_uri),
    }
}

/// Searches a source.
pub fn search_source(root: &str, file: &SourceFile, search: &JsSearch) -> (r: Result<Vec<Incident>, String>)
    ensures
        js_file_found(root@, *file, search@, outcome_of(r)),
{
    match &file.content {
        Err(m) => Err(m.clone()),
        Ok(source) => {
            let uri = path_to_uri(file.path.as_str(), root);
            match parse_program(source.as_str()) {
                Some(program) => Ok(search_program(&program, source.as_str(), uri.as_str(), search)),
                None => {
                    let none: Vec<Incident> = Vec::new();
                    assert(incident_views(none@) =~= Seq::<IncidentView>::empty());
                    Ok(none)
                },
            }
        },
    }
}

fn search_sources(project: &ProjectFiles, file_pattern: &Option<regex::Regex>, search: &JsSearch) -> (r: Result<
    Vec<Incident>,
    String,
>)
    ensures
        js_found(
            project.root@,
            project.js_files@,
            opt_regex(*file_pattern),
            search@,
            outcome_of(r),
        ),
{
    let files = &project.js_files;
    let ghost v = files@;
    let ghost fp = opt_regex(*file_pattern);
    let mut out: Vec<Incident> = Vec::new();
    let mut i: usize = 0;
    assert(incident_views(out@) =~= Seq::<IncidentView>::empty());
    while i < files.len()
        invariant
            i <= files@.len(),
            files == &project.js_files,
            v == files@,
            fp == opt_regex(*file_pattern),
            js_found(project.root@, v.take(i as int), fp, search@, Ok(incident_views(out@))),
        decreases files@.len() - i,
    {
        assert(v.take(i + 1).drop_last() =~= v.take(i as int));
        assert(v.take(i + 1).last() == files@[i as int]);
        if is_file_searched(files[i].path.as_str(), file_pattern) {
            let ghost before: Outcome = Ok(incident_views(out@));
            let found = search_source(project.root.as_str(), &files[i], search);
            let ghost o = outcome_of(found);
            assert(js_found(project.root@, v.take(i + 1).drop_last(), fp, search@, before));
            assert(js_step(project.root@, v.take(i + 1).last(), search@, before, joined(before, o)));
            assert(js_found(project.root@, v.take(i + 1), fp, search@, joined(before, o)));
            match found {
                Ok(more) => {
                    append_incidents(&mut out, more);
                },
                Err(m) => {
                    proof {
                        lemma_js_found_error(project.root@, v, fp, search@, joined(before, o), i + 1);
                    }
                    return Err(m);
                },
            }
        }
        i = i + 1;
    }
    assert(v.take(v.len() as int) =~= v);
    Ok(out)
}

// ── Conditions ──────────────────────────────────────────────────────────

/// What sources are searched for beside stylesheets.
pub open spec fn style_search(pattern: Seq<char>, classes: bool) -> JsSearchView {
    if classes {
        JsSearchView::ClassNames(pattern)
    } else {
        JsSearchView::CssVars(pattern)
    }
}

/// Whether a search of stylesheets, then sources, has an outcome.
pub open spec fn styles_found(
    project: ProjectFiles,
    pattern: Seq<char>,
    file_pattern: Option<Seq<char>>,
    classes: bool,
    out: Outcome,
) -> bool {
    if regex_rejection(pattern) is Some {
        out == Err::<Seq<IncidentView>, Seq<char>>(regex_rejection(pattern)->0)
    } else if opt_rejection(file_pattern) is Some {
        out == Err::<Seq<IncidentView>, Seq<char>>(opt_rejection(file_pattern)->0)
    } else {
        let css = css_outcome(project.root@, project.css_files@, file_pattern, classes, pattern);
        let search = style_search(pattern, classes);
        match css {
            Err(_) => out == css,
            Ok(_) => exists|js: Outcome| #[trigger]
                js_found(project.root@, project.js_files@, file_pattern, search, js) && out
                    == joined(css, js),
        }
    }
}

/// Whether a condition has an outcome in a project. Expressions are compiled before
/// anything is searched.
pub open spec fn condition_found(project: ProjectFiles, condition: ProviderCondition, out: Outcome) -> bool {
    match condition {
        ProviderCondition::Referenced(c) => if opt_rejection(opt_text(c.file_pattern)) is Some {
            out == Err::<Seq<IncidentView>, Seq<char>>(opt_rejection(opt_text(c.file_pattern))->0)
        } else if query_error(query_of(c)) is Some {
            out == Err::<Seq<IncidentView>, Seq<char>>(query_error(query_of(c))->0)
        } else {
            js_found(
                project.root@,
                project.js_files@,
                opt_text(c.file_pattern),
                JsSearchView::Referenced(query_of(c)),
                out,
            )
        },
        ProviderCondition::CssClass(c) => styles_found(
            project,
            c.pattern@,
            opt_text(c.file_pattern),
            true,
            out,
        ),
        ProviderCondition::CssVar(c) => styles_found(
            project,
            c.pattern@,
            opt_text(c.file_pattern),
            false,
            out,
        ),
        ProviderCondition::Dependency(c) => match all_checked(project.manifests@, c) {
            Ok(v) => out == Ok::<Seq<IncidentView>, Seq<char>>(v),
            Err(e) => out == Err::<Seq<IncidentView>, Seq<char>>(dependency_message(e)),
        },
    }
}

fn search_styles(
    project: &ProjectFiles,
    expression: &String,
    file_pattern: &Option<String>,
    classes: bool,
) -> (r: Result<Vec<Incident>, String>)
    ensures
        styles_found(*project, expression@, opt_text(*file_pattern), classes, outcome_of(r)),
{
    let pattern = match compile(expression.as_str()) {
        Ok(re) => re,
        Err(m) => {
            return Err(m);
        },
    };
    let files = match compile_optional(file_pattern) {
        Ok(re) => re,
        Err(m) => {
            return Err(m);
        },
    };
    let mut out = match search_stylesheets(project, &files, classes, &pattern) {
        Ok(v) => v,
        Err(m) => {
            return Err(m);
        },
    };
    let search = if classes {
        JsSearch::ClassNames(pattern)
    } else {
        JsSearch::CssVars(pattern)
    };
    let more = search_sources(project, &files, &search);
    let ghost js = outcome_of(more);
    assert(search@ == style_search(expression@, classes));
    assert(js_found(project.root@, project.js_files@, opt_text(*file_pattern), search@, js));
    match more {
        Ok(v) => {
            append_incidents(&mut out, v);
            Ok(out)
        },
        Err(m) => Err(m),
    }
}

/// Evaluates a condition in a project.
pub fn evaluate_provider_condition(project: &ProjectFiles, condition: &ProviderCondition) -> (r: Result<
    Vec<Incident>,
    String,
>)
    ensures
        condition_found(*project, *condition, outcome_of(r)),
{
    match condition {
        ProviderCondition::Referenced(c) => {
            let files = match compile_optional(&c.file_pattern) {
                Ok(re) => re,
                Err(m) => {
                    return Err(m);
                },
            };
            let query = match ReferenceQuery::new(c) {
                Ok(q) => q,
                Err(m) => {
                    return Err(m);
                },
            };
            let search = JsSearch::Referenced(query);
            search_sources(project, &files, &search)
        },
        ProviderCondition::CssClass(c) => search_styles(project, &c.pattern, &c.file_pattern, true),
        ProviderCondition::CssVar(c) => search_styles(project, &c.pattern, &c.file_pattern, false),
        ProviderCondition::Dependency(c) => match check_dependencies(&project.manifests, c) {
            Ok(v) => Ok(v),
            Err(e) => Err(dependency_error_text(e)),
        },
    }
}

// ── Sources that are passed over ────────────────────────────────────────

/// Whether a file can be read but is no program.
pub open spec fn is_unparsed(file: SourceFile) -> bool {
    file.content matches Ok(source) && document_of(source@) is None
}

/// The paths of the files that are searched and are no programs.
pub open spec fn unparsed_paths(
    files: Seq<SourceFile>,
    file_pattern: Option<Seq<char>>,
) -> Seq<Seq<char>>
    decreases files.len(),
{
    if files.len() == 0 {
        Seq::empty()
    } else {
        let before = unparsed_paths(files.drop_last(), file_pattern);
        if is_searched(files.last().path@, file_pattern) && is_unparsed(files.last()) {
            before.push(files.last().path@)
        } else {
            before
        }
    }
}

/// Which sources a condition passes over since they are no programs. One on dependencies
/// looks at none.
pub open spec fn passed_over(project: ProjectFiles, condition: ProviderCondition) -> Seq<Seq<char>> {
    let file_pattern = match condition {
        ProviderCondition::Referenced(c) => opt_text(c.file_pattern),
        ProviderCondition::CssClass(c) => opt_text(c.file_pattern),
        ProviderCondition::CssVar(c) => opt_text(c.file_pattern),
        ProviderCondition::Dependency(_) => None,
    };
    if condition is Dependency || opt_rejection(file_pattern) is Some {
        Seq::empty()
    } else {
        unparsed_paths(project.js_files@, file_pattern)
    }
}

fn list_unparsed(files: &Vec<SourceFile>, file_pattern: &Option<regex::Regex>) -> (r: Vec<String>)
    ensures
        texts(r@) == unparsed_paths(files@, opt_regex(*file_pattern)),
{
    let ghost v = files@;
    let ghost fp = opt_regex(*file_pattern);
    let mut out: Vec<String> = Vec::new();
    let mut i: usize = 0;
    assert(texts(out@) =~= unparsed_paths(v.take(0), fp));
    while i < files.len()
        invariant
            i <= files@.len(),
            v == files@,
            fp == opt_regex(*file_pattern),
            texts(out@) == unparsed_paths(v.take(i as int), fp),
        decreases files@.len() - i,
    {
        assert(v.take(i + 1).drop_last() =~= v.take(i as int));
        let file = &files[i];
        if let Ok(source) = &file.content {
            if is_file_searched(file.path.as_str(), file_pattern) {
                if parse_program(source.as_str()).is_none() {
                    let path = file.path.clone();
                    proof {
                        lemma_texts_push(out@, path);
                    }
                    out.push(path);
                }
            }
        }
        i = i + 1;
    }
    assert(v.take(v.len() as int) =~= v);
    out
}

/// Lists the sources that a condition passes over since they are no programs.
pub fn list_passed_over(project: &ProjectFiles, condition: &ProviderCondition) -> (r: Vec<String>)
    ensures
        texts(r@) == passed_over(*project, *condition),
{
    let expression = match condition {
        ProviderCondition::Referenced(c) => &c.file_pattern,
        ProviderCondition::CssClass(c) => &c.file_pattern,
        ProviderCondition::CssVar(c) => &c.file_pattern,
        ProviderCondition::Dependency(_) => {
            let none: Vec<String> = Vec::new();
            assert(texts(none@) =~= Seq::<Seq<char>>::empty());
            return none;
        },
    };
    match compile_optional(expression) {
        Ok(re) => list_unparsed(&project.js_files, &re),
        Err(_) => {
            let none: Vec<String> = Vec::new();
            assert(texts(none@) =~= Seq::<Seq<char>>::empty());
            none
        },
    }
}

/// A condition that a rule puts to a provider.
#[derive(Debug)]
pub struct ProviderWhen {
    pub provider: String,
    pub capability: String,
    /// The condition, or why it cannot be read.
    pub condition: Result<ProviderCondition, String>,
}

/// When a rule matches.
#[derive(Debug)]
pub enum WhenCondition {
    Provider(Vec<ProviderWhen>),
    And(Vec<WhenCondition>),
    Or(Vec<WhenCondition>),
}

/// The provider that this library stands for.
pub const PROVIDER_NAME: &'static str = "frontend";

pub open spec fn joins(before: Outcome, next: Outcome, out: Outcome) -> bool {
    out == joined(before, next)
}

/// Whether the condition of an entry has an outcome: conditions of other providers
/// find nothing here.
pub open spec fn entry_found(project: ProjectFiles, entry: ProviderWhen, out: Outcome) -> bool {
    if entry.provider@ != PROVIDER_NAME@ {
        out == Ok::<Seq<IncidentView>, Seq<char>>(Seq::empty())
    } else {
        match entry.condition {
            Err(m) => out == Err::<Seq<IncidentView>, Seq<char>>(m@),
            Ok(c) => condition_found(project, c, out),
        }
    }
}

/// Whether the first `n` entries, one after the other, have an outcome.
pub open spec fn entries_found(project: ProjectFiles, v: Seq<ProviderWhen>, n: int, out: Outcome) -> bool
    decreases n,
{
    if n <= 0 || n > v.len() {
        out == Ok::<Seq<IncidentView>, Seq<char>>(Seq::empty())
    } else {
        exists|before: Outcome, next: Outcome|
            entries_found(project, v, n - 1, before) && (before is Ok ==> entry_found(
                project,
                v[n - 1],
                next,
            )) && #[trigger] joins(before, next, out)
    }
}

/// Where a conjunction stands after its `n`th condition: an error and a condition that
/// finds nothing end it.
pub open spec fn follows(before: Outcome, n: int, next: Outcome, out: Outcome) -> bool {
    out == if before is Err || (n != 1 && before->Ok_0.len() == 0) {
        before
    } else {
        next
    }
}

/// Whether a conjunction goes on to its `n`th condition.
pub open spec fn goes_on(before: Outcome, n: int) -> bool {
    before is Ok && (n == 1 || before->Ok_0.len() > 0)
}

/// Whether a condition has an outcome in a project. A conjunction finds what its last
/// condition finds where every condition finds something, and a disjunction what any
/// of its conditions finds.
pub open spec fn when_found(project: ProjectFiles, condition: WhenCondition, out: Outcome) -> bool
    decreases condition, 0nat, 0int,
{
    match condition {
        WhenCondition::Provider(v) => entries_found(project, v@, v@.len() as int, out),
        WhenCondition::And(v) => and_found(project, v@, v@.len() as int, out),
        WhenCondition::Or(v) => or_found(project, v@, v@.len() as int, out),
    }
}

pub open spec fn and_found(project: ProjectFiles, v: Seq<WhenCondition>, n: int, out: Outcome) -> bool
    decreases v, 1nat, n,
{
    if n <= 0 || n > v.len() {
        out == Ok::<Seq<IncidentView>, Seq<char>>(Seq::empty())
    } else {
        proof {
            assert(decreases_to!(v => v[n - 1]));
        }
        exists|before: Outcome, next: Outcome|
            and_found(project, v, n - 1, before) && (goes_on(before, n) ==> when_found(
                project,
                v[n - 1],
                next,
            )) && #[trigger] follows(before, n, next, out)
    }
}

pub open spec fn or_found(project: ProjectFiles, v: Seq<WhenCondition>, n: int, out: Outcome) -> bool
    decreases v, 1nat, n,
{
    if n <= 0 || n > v.len() {
        out == Ok::<Seq<IncidentView>, Seq<char>>(Seq::empty())
    } else {
        proof {
            assert(decreases_to!(v => v[n - 1]));
        }
        exists|before: Outcome, next: Outcome|
            or_found(project, v, n - 1, before) && (before is Ok ==> when_found(
                project,
                v[n - 1],
                next,
            )) && #[trigger] joins(before, next, out)
    }
}

proof fn lemma_entries_error(project: ProjectFiles, v: Seq<ProviderWhen>, n: int, out: Outcome)
    requires
        0 <= n <= v.len(),
        out is Err,
        entries_found(project, v, n, out),
    ensures
        entries_found(project, v, v.len() as int, out),
    decreases v.len() - n,
{
    if n < v.len() {
        assert(joins(out, out, out));
        lemma_entries_error(project, v, n + 1, out);
    }
}

proof fn lemma_or_error(project: ProjectFiles, v: Seq<WhenCondition>, n: int, out: Outcome)
    requires
        0 <= n <= v.len(),
        out is Err,
        or_found(project, v, n, out),
    ensures
        or_found(project, v, v.len() as int, out),
    decreases v.len() - n,
{
    if n < v.len() {
        assert(joins(out, out, out));
        lemma_or_error(project, v, n + 1, out);
    }
}

proof fn lemma_and_ended(project: ProjectFiles, v: Seq<WhenCondition>, n: int, out: Outcome)
    requires
        0 < n <= v.len(),
        !goes_on(out, 2),
        and_found(project, v, n, out),
    ensures
        and_found(project, v, v.len() as int, out),
    decreases v.len() - n,
{
    if n < v.len() {
        assert(follows(out, n + 1, out, out));
        lemma_and_ended(project, v, n + 1, out);
    }
}

fn evaluate_entries(project: &ProjectFiles, entries: &Vec<ProviderWhen>) -> (r: Result<
    Vec<Incident>,
    String,
>)
    ensures
        entries_found(*project, entries@, entries@.len() as int, outcome_of(r)),
{
    let mut all: Vec<Incident> = Vec::new();
    let mut i: usize = 0;
    assert(incident_views(all@) =~= Seq::<IncidentView>::empty());
    while i < entries.len()
        invariant
            i <= entries@.len(),
            entries_found(*project, entries@, i as int, Ok(incident_views(all@))),
        decreases entries@.len() - i,
    {
        let ghost before: Outcome = Ok(incident_views(all@));
        let found: Result<Vec<Incident>, String> = if !same_text(
            entries[i].provider.as_str(),
            PROVIDER_NAME,
        ) {
            let none: Vec<Incident> = Vec::new();
            assert(incident_views(none@) =~= Seq::<IncidentView>::empty());
            Ok(none)
        } else {
            match &entries[i].condition {
                Ok(c) => evaluate_provider_condition(project, c),
                Err(m) => Err(m.clone()),
            }
        };
        let ghost next = outcome_of(found);
        assert(entry_found(*project, entries@[i as int], next));
        assert(joins(before, next, joined(before, next)));
        assert(entries_found(*project, entries@, i + 1, joined(before, next)));
        match found {
            Ok(more) => {
                append_incidents(&mut all, more);
            },
            Err(m) => {
                proof {
                    lemma_entries_error(*project, entries@, i + 1, joined(before, next));
                }
                return Err(m);
            },
        }
        i = i + 1;
    }
    Ok(all)
}

/// Evaluates when a rule matches.
pub fn evaluate_when(project: &ProjectFiles, condition: &WhenCondition) -> (r: Result<Vec<Incident>, String>)
    ensures
        when_found(*project, *condition, outcome_of(r)),
    decreases condition, 0nat,
{
    match condition {
        WhenCondition::Provider(entries) => evaluate_entries(project, entries),
        WhenCondition::And(conditions) => evaluate_all(project, conditions),
        WhenCondition::Or(conditions) => evaluate_any(project, conditions),
    }
}

fn evaluate_all(project: &ProjectFiles, conditions: &Vec<WhenCondition>) -> (r: Result<
    Vec<Incident>,
    String,
>)
    ensures
        and_found(*project, conditions@, conditions@.len() as int, outcome_of(r)),
    decreases conditions, 1nat,
{
    let mut last: Vec<Incident> = Vec::new();
    let mut i: usize = 0;
    assert(incident_views(last@) =~= Seq::<IncidentView>::empty());
    while i < conditions.len()
        invariant
            i <= conditions@.len(),
            i > 0 ==> last@.len() > 0,
            and_found(*project, conditions@, i as int, Ok(incident_views(last@))),
        decreases conditions@.len() - i,
    {
        let ghost before: Outcome = Ok(incident_views(last@));
        assert(decreases_to!(conditions@ => conditions@[i as int]));
        let found = evaluate_when(project, &conditions[i]);
        let ghost next = outcome_of(found);
        assert(follows(before, i + 1, next, next));
        assert(and_found(*project, conditions@, i + 1, next));
        match found {
            Ok(v) => {
                if v.len() == 0 {
                    proof {
                        lemma_and_ended(*project, conditions@, i + 1, next);
                    }
                    return Ok(v);
                }
                last = v;
            },
            Err(m) => {
                proof {
                    lemma_and_ended(*project, conditions@, i + 1, next);
                }
                return Err(m);
            },
        }
        i = i + 1;
    }
    Ok(last)
}

fn evaluate_any(project: &ProjectFiles, conditions: &Vec<WhenCondition>) -> (r: Result<
    Vec<Incident>,
    String,
>)
    ensures
        or_found(*project, conditions@, conditions@.len() as int, outcome_of(r)),
    decreases conditions, 1nat,
{
    let mut all: Vec<Incident> = Vec::new();
    let mut i: usize = 0;
    assert(incident_views(all@) =~= Seq::<IncidentView>::empty());
    while i < conditions.len()
        invariant
            i <= conditions@.len(),
            or_found(*project, conditions@, i as int, Ok(incident_views(all@))),
        decreases conditions@.len() - i,
    {
        let ghost before: Outcome = Ok(incident_views(all@));
        assert(decreases_to!(conditions@ => conditions@[i as int]));
        let found = evaluate_when(project, &conditions[i]);
        let ghost next = outcome_of(found);
        assert(joins(before, next, joined(before, next)));
        assert(or_found(*project, conditions@, i + 1, joined(before, next)));
        match found {
            Ok(more) => {
                append_incidents(&mut all, more);
            },
            Err(m) => {
                proof {
                    lemma_or_error(*project, conditions@, i + 1, joined(before, next));
                }
                return Err(m);
            },
        }
        i = i + 1;
    }
    Ok(all)
}

/// A conjunction that finds something is one of conditions that each find something.
pub proof fn and_needs_every_condition(
    project: ProjectFiles,
    v: Seq<WhenCondition>,
    n: int,
    found: Seq<IncidentView>,
    i: int,
)
    requires
        and_found(project, v, n, Ok(found)),
        found.len() > 0,
        0 <= i < n <= v.len(),
    ensures
        exists|own: Seq<IncidentView>| #[trigger] when_found(project, v[i], Ok(own)) && own.len() > 0,
    decreases n,
{
    let (before, next) = choose|before: Outcome, next: Outcome|
        and_found(project, v, n - 1, before) && (goes_on(before, n) ==> when_found(
            project,
            v[n - 1],
            next,
        )) && #[trigger] follows(before, n, next, Ok(found));
    assert(goes_on(before, n));
    if i == n - 1 {
        assert(when_found(project, v[i], Ok(found)));
    } else {
        and_needs_every_condition(project, v, n - 1, before->Ok_0, i);
    }
}

/// A disjunction finds all that each of its conditions finds.
pub proof fn or_keeps_every_incident(
    project: ProjectFiles,
    v: Seq<WhenCondition>,
    n: int,
    found: Seq<IncidentView>,
    i: int,
)
    requires
        or_found(project, v, n, Ok(found)),
        0 <= i < n <= v.len(),
    ensures
        exists|own: Seq<IncidentView>| #[trigger]
            when_found(project, v[i], Ok(own)) && (forall|k: int|
                0 <= k < own.len() ==> found.contains(#[trigger] own[k])),
    decreases n,
{
    let (before, next) = choose|before: Outcome, next: Outcome|
        or_found(project, v, n - 1, before) && (before is Ok ==> when_found(
            project,
            v[n - 1],
            next,
        )) && #[trigger] joins(before, next, Ok(found));
    let first = before->Ok_0;
    let own = next->Ok_0;
    assert(found == first + own);
    if i == n - 1 {
        assert(when_found(project, v[i], Ok(own)));
        assert forall|k: int| 0 <= k < own.len() implies found.contains(#[trigger] own[k]) by {
            assert(found[first.len() + k] == own[k]);
        }
    } else {
        or_keeps_every_incident(project, v, n - 1, first, i);
        let mine = choose|mine: Seq<IncidentView>| #[trigger]
            when_found(project, v[i], Ok(mine)) && (forall|k: int|
                0 <= k < mine.len() ==> first.contains(#[trigger] mine[k]));
        assert forall|k: int| 0 <= k < mine.len() implies found.contains(#[trigger] mine[k]) by {
            assert(first.contains(mine[k]));
            let at = choose|at: int| 0 <= at < first.len() && first[at] == mine[k];
            assert(found[at] == mine[k]);
        }
    }
}

/// Conditions of other providers find nothing here.
pub proof fn other_providers_are_skipped(
    project: ProjectFiles,
    v: Seq<ProviderWhen>,
    n: int,
    out: Outcome,
)
    requires
        entries_found(project, v, n, out),
        forall|i: int| 0 <= i < v.len() ==> #[trigger] v[i].provider@ != PROVIDER_NAME@,
    ensures
        out == Ok::<Seq<IncidentView>, Seq<char>>(Seq::empty()),
    decreases n,
{
    if 0 < n <= v.len() {
        let (before, next) = choose|before: Outcome, next: Outcome|
            entries_found(project, v, n - 1, before) && (before is Ok ==> entry_found(
                project,
                v[n - 1],
                next,
            )) && #[trigger] joins(before, next, out);
        other_providers_are_skipped(project, v, n - 1, before);
        assert(v[n - 1].provider@ != PROVIDER_NAME@);
        assert(Seq::<IncidentView>::empty() + Seq::<IncidentView>::empty() =~= Seq::<
            IncidentView,
        >::empty());
    }
}

// ── Rules ───────────────────────────────────────────────────────────────

/// A link of a rule.
#[derive(Debug, PartialEq, Eq)]
pub struct RuleLink {
    pub url: String,
    pub title: String,
}

/// A rule, and when it matches.
#[derive(Debug)]
pub struct Rule {
    pub rule_id: String,
    pub description: String,
    pub message: String,
    pub category: Option<String>,
    pub effort: Option<i32>,
    pub labels: Vec<String>,
    pub links: Vec<RuleLink>,
    pub condition: WhenCondition,
}

/// What a ruleset says of itself.
#[derive(Debug, PartialEq, Eq)]
pub struct RuleSetMeta {
    pub name: String,
    pub description: String,
}

/// A ruleset with its rules.
#[derive(Debug)]
pub struct LoadedRuleSet {
    pub meta: RuleSetMeta,
    pub rules: Vec<Rule>,
}

/// The category of a name.
pub open spec fn category_named(name: Seq<char>) -> Option<Category> {
    if name == "mandatory"@ {
        Some(Category::Mandatory)
    } else if name == "optional"@ {
        Some(Category::Optional)
    } else if name == "potential"@ {
        Some(Category::Potential)
    } else {
        None
    }
}

pub open spec fn category_of(category: Option<Seq<char>>) -> Option<Category> {
    match category {
        Some(name) => category_named(name),
        None => None,
    }
}

/// An incident as a rule reports it, with the message of the rule.
pub open spec fn reported(found: IncidentView, message: Seq<char>) -> IncidentView {
    IncidentView {
        file_uri: found.file_uri,
        line_number: found.line_number,
        code_location: None,
        message,
        code_snip: found.code_snip,
        variables: found.variables,
        effort: None,
        links: Seq::empty(),
        is_dependency_incident: false,
    }
}

pub open spec fn all_reported(found: Seq<IncidentView>, message: Seq<char>) -> Seq<IncidentView> {
    Seq::new(found.len(), |i: int| reported(found[i], message))
}

pub open spec fn titled(v: Seq<RuleLink>) -> Seq<RuleLinkView> {
    Seq::new(v.len(), |i: int| RuleLinkView { url: v[i].url@, title: Some(v[i].title@) })
}

/// The violation of a rule that found something.
pub open spec fn violation_of(rule: Rule, found: Seq<IncidentView>) -> ViolationView {
    ViolationView {
        description: rule.description@,
        category: category_of(opt_text(rule.category)),
        labels: texts(rule.labels@),
        incidents: all_reported(found, rule.message@),
        links: titled(rule.links@),
        effort: rule.effort,
    }
}

/// The violations of the first `n` rules: of those that found something.
pub open spec fn violations_of(rules: Seq<Rule>, outs: Seq<Outcome>, n: int) -> Map<
    Seq<char>,
    ViolationView,
>
    decreases n,
{
    if n <= 0 {
        Map::empty()
    } else {
        let before = violations_of(rules, outs, n - 1);
        match outs[n - 1] {
            Ok(found) => if found.len() > 0 {
                before.insert(rules[n - 1].rule_id@, violation_of(rules[n - 1], found))
            } else {
                before
            },
            Err(_) => before,
        }
    }
}

/// The errors of the first `n` rules.
pub open spec fn errors_of(rules: Seq<Rule>, outs: Seq<Outcome>, n: int) -> Map<Seq<char>, Seq<char>>
    decreases n,
{
    if n <= 0 {
        Map::empty()
    } else {
        let before = errors_of(rules, outs, n - 1);
        match outs[n - 1] {
            Ok(_) => before,
            Err(m) => before.insert(rules[n - 1].rule_id@, m),
        }
    }
}

/// Those of the first `n` rules that found nothing.
pub open spec fn unmatched_of(rules: Seq<Rule>, outs: Seq<Outcome>, n: int) -> Seq<Seq<char>>
    decreases n,
{
    if n <= 0 {
        Seq::empty()
    } else {
        let before = unmatched_of(rules, outs, n - 1);
        match outs[n - 1] {
            Ok(found) => if found.len() == 0 {
                before.push(rules[n - 1].rule_id@)
            } else {
                before
            },
            Err(_) => before,
        }
    }
}

/// Whether these are outcomes of the rules.
pub open spec fn rules_found(project: ProjectFiles, rules: Seq<Rule>, outs: Seq<Outcome>) -> bool {
    outs.len() == rules.len() && forall|i: int|
        0 <= i < rules.len() ==> #[trigger] when_found(project, rules[i].condition, outs[i])
}

/// Whether results are those of a ruleset whose rules have these outcomes.
pub open spec fn summed_up(rs: RuleSet, loaded: LoadedRuleSet, outs: Seq<Outcome>) -> bool {
    let n = loaded.rules@.len() as int;
    &&& rs.name@ == loaded.meta.name@
    &&& rs.description@ == loaded.meta.description@
    &&& rs.tags@.len() == 0
    &&& violations_view(rs.violations) == violations_of(loaded.rules@, outs, n)
    &&& violations_view(rs.insights) == Map::<Seq<char>, ViolationView>::empty()
    &&& texts_view(rs.errors) == errors_of(loaded.rules@, outs, n)
    &&& texts(rs.unmatched@) == unmatched_of(loaded.rules@, outs, n)
    &&& rs.skipped@.len() == 0
}

fn category_from(category: &Option<String>) -> (r: Option<Category>)
    ensures
        r == category_of(opt_text(*category)),
{
    match category {
        Some(name) => if same_text(name.as_str(), "mandatory") {
            Some(Category::Mandatory)
        } else if same_text(name.as_str(), "optional") {
            Some(Category::Optional)
        } else if same_text(name.as_str(), "potential") {
            Some(Category::Potential)
        } else {
            None
        },
        None => None,
    }
}

fn report_incident(found: &Incident, message: &String) -> (r: Incident)
    ensures
        r@ == reported(found@, message@),
{
    let links: Vec<ExternalLink> = Vec::new();
    assert(link_views(links@) =~= Seq::<LinkView>::empty());
    Incident {
        file_uri: found.file_uri.clone(),
        line_number: found.line_number,
        code_location: None,
        message: message.clone(),
        code_snip: copy_opt(&found.code_snip),
        variables: copy_variables(&found.variables),
        effort: None,
        links,
        is_dependency_incident: false,
    }
}

/// The violation of a rule, with what it found.
pub fn make_violation(rule: &Rule, found: &Vec<Incident>) -> (r: Violation)
    ensures
        r@ == violation_of(*rule, incident_views(found@)),
{
    let mut incidents: Vec<Incident> = Vec::new();
    let ghost want = all_reported(incident_views(found@), rule.message@);
    let mut i: usize = 0;
    assert(incident_views(incidents@) =~= want.take(0));
    while i < found.len()
        invariant
            i <= found@.len(),
            want == all_reported(incident_views(found@), rule.message@),
            incident_views(incidents@) == want.take(i as int),
        decreases found@.len() - i,
    {
        let incident = report_incident(&found[i], &rule.message);
        proof {
            lemma_incident_views_push(incidents@, incident);
        }
        incidents.push(incident);
        assert(incident_views(incidents@) =~= want.take(i + 1));
        i = i + 1;
    }
    assert(want.take(want.len() as int) =~= want);
    let mut links: Vec<Link> = Vec::new();
    let mut k: usize = 0;
    while k < rule.links.len()
        invariant
            k <= rule.links@.len(),
            rule_link_views(links@) == titled(rule.links@).take(k as int),
        decreases rule.links@.len() - k,
    {
        let link = Link {
            url: rule.links[k].url.clone(),
            title: Some(rule.links[k].title.clone()),
        };
        let ghost before = rule_link_views(links@);
        links.push(link);
        assert(rule_link_views(links@) =~= before.push(link@));
        assert(rule_link_views(links@) =~= titled(rule.links@).take(k + 1));
        k = k + 1;
    }
    assert(titled(rule.links@).take(rule.links@.len() as int) =~= titled(rule.links@));
    Violation {
        description: rule.description.clone(),
        category: category_from(&rule.category),
        labels: copy_list(&rule.labels),
        incidents,
        links,
        effort: rule.effort,
    }
}

/// Evaluates a rule in a project.
pub fn evaluate_rule(project: &ProjectFiles, rule: &Rule) -> (r: Result<Vec<Incident>, String>)
    ensures
        when_found(*project, rule.condition, outcome_of(r)),
{
    evaluate_when(project, &rule.condition)
}

/// Evaluates the rules of a ruleset in a project.
pub fn evaluate_ruleset(project: &ProjectFiles, ruleset: &LoadedRuleSet) -> (r: RuleSet)
    ensures
        exists|outs: Seq<Outcome>| #[trigger]
            rules_found(*project, ruleset.rules@, outs) && summed_up(r, *ruleset, outs),
{
    let rules = &ruleset.rules;
    let ghost v = rules@;
    let mut violations: TextMap<Violation> = TextMap::new();
    let mut errors: TextMap<String> = TextMap::new();
    let mut unmatched: Vec<String> = Vec::new();
    let ghost mut outs: Seq<Outcome> = Seq::empty();
    let mut i: usize = 0;
    assert(violations_view(violations) =~= violations_of(v, outs, 0));
    assert(texts_view(errors) =~= errors_of(v, outs, 0));
    assert(texts(unmatched@) =~= unmatched_of(v, outs, 0));
    while i < rules.len()
        invariant
            i <= rules@.len(),
            rules == &ruleset.rules,
            v == rules@,
            outs.len() == i,
            forall|k: int| 0 <= k < i ==> #[trigger] when_found(*project, v[k].condition, outs[k]),
            violations_view(violations) == violations_of(v, outs, i as int),
            texts_view(errors) == errors_of(v, outs, i as int),
            texts(unmatched@) == unmatched_of(v, outs, i as int),
        decreases rules@.len() - i,
    {
        let rule = &rules[i];
        let found = evaluate_rule(project, rule);
        let ghost before = outs;
        proof {
            outs = outs.push(outcome_of(found));
            lemma_results_prefix(v, before, outs, i as int);
            assert forall|k: int| 0 <= k < i + 1 implies #[trigger] when_found(
                *project,
                v[k].condition,
                outs[k],
            ) by {
                if k < i {
                    assert(when_found(*project, v[k].condition, before[k]));
                }
            }
        }
        match found {
            Ok(incidents) => {
                if incidents.len() == 0 {
                    proof {
                        lemma_texts_push(unmatched@, rule.rule_id);
                    }
                    unmatched.push(rule.rule_id.clone());
                    assert(texts(unmatched@) =~= unmatched_of(v, outs, i + 1));
                } else {
                    let violation = make_violation(rule, &incidents);
                    violations.insert(rule.rule_id.clone(), violation);
                    assert(violations_view(violations) =~= violations_of(v, outs, i + 1));
                }
            },
            Err(m) => {
                errors.insert(rule.rule_id.clone(), m);
                assert(texts_view(errors) =~= errors_of(v, outs, i + 1));
            },
        }
        i = i + 1;
    }
    let insights: TextMap<Violation> = TextMap::new();
    assert(violations_view(insights) =~= Map::<Seq<char>, ViolationView>::empty());
    let r = RuleSet {
        name: ruleset.meta.name.clone(),
        description: ruleset.meta.description.clone(),
        tags: Vec::new(),
        violations,
        insights,
        errors,
        unmatched,
        skipped: Vec::new(),
    };
    assert(rules_found(*project, ruleset.rules@, outs));
    r
}

proof fn lemma_results_prefix(rules: Seq<Rule>, a: Seq<Outcome>, b: Seq<Outcome>, n: int)
    requires
        n <= a.len(),
        n <= b.len(),
        forall|i: int| 0 <= i < n ==> a[i] == b[i],
    ensures
        violations_of(rules, a, n) == violations_of(rules, b, n),
        errors_of(rules, a, n) == errors_of(rules, b, n),
        unmatched_of(rules, a, n) == unmatched_of(rules, b, n),
    decreases n,
{
    if n > 0 {
        lemma_results_prefix(rules, a, b, n - 1);
    }
}

/// Runs an analysis: the results of the one ruleset that was loaded.
pub fn run_analysis(project: &ProjectFiles, ruleset: &LoadedRuleSet) -> (r: Vec<RuleSet>)
    ensures
        r@.len() == 1,
        exists|outs: Seq<Outcome>| #[trigger]
            rules_found(*project, ruleset.rules@, outs) && summed_up(r@[0], *ruleset, outs),
{
    let mut out: Vec<RuleSet> = Vec::new();
    let result = evaluate_ruleset(project, ruleset);
    out.push(result);
    assert(out@[0] == result);
    out
}

/// Every rule is accounted for: it has a violation, or an error, or is listed as
/// unmatched.
pub proof fn rules_are_accounted_for(rules: Seq<Rule>, outs: Seq<Outcome>, n: int, i: int)
    requires
        0 <= i < n <= rules.len(),
        outs.len() == rules.len(),
    ensures
        violations_of(rules, outs, n).dom().contains(rules[i].rule_id@) || errors_of(
            rules,
            outs,
            n,
        ).dom().contains(rules[i].rule_id@) || unmatched_of(rules, outs, n).contains(
            rules[i].rule_id@,
        ),
    decreases n,
{
    let before = unmatched_of(rules, outs, n - 1);
    let now = unmatched_of(rules, outs, n);
    if i < n - 1 {
        rules_are_accounted_for(rules, outs, n - 1, i);
        if before.contains(rules[i].rule_id@) {
            let k = choose|k: int| 0 <= k < before.len() && before[k] == rules[i].rule_id@;
            assert(now[k] == rules[i].rule_id@);
        }
    } else if now.len() > before.len() {
        assert(now[now.len() - 1] == rules[i].rule_id@);
    }
}

/// A violation holds at least one incident.
pub proof fn violations_hold_incidents(rules: Seq<Rule>, outs: Seq<Outcome>, n: int, id: Seq<char>)
    requires
        violations_of(rules, outs, n).dom().contains(id),
    ensures
        violations_of(rules, outs, n)[id].incidents.len() > 0,
    decreases n,
{
    if n > 0 && violations_of(rules, outs, n - 1).dom().contains(id) {
        violations_hold_incidents(rules, outs, n - 1, id);
    }
}

// ── What is searched ────────────────────────────────────────────────────

/// Whether a file is looked at: any where no expression is given for its path.
pub open spec fn is_looked_at(file: SourceFile, file_pattern: Option<Seq<char>>) -> bool {
    file_pattern matches Some(e) ==> regex_is_match(e, file.path@)
}

/// A search of stylesheets finds exactly what it finds in those whose paths match.
pub proof fn matching_stylesheets_are_searched(
    root: Seq<char>,
    files: Seq<SourceFile>,
    file_pattern: Option<Seq<char>>,
    classes: bool,
    pattern: Seq<char>,
    x: IncidentView,
)
    requires
        css_outcome(root, files, file_pattern, classes, pattern) is Ok,
    ensures
        css_outcome(root, files, file_pattern, classes, pattern)->Ok_0.contains(x) <==> exists|i: int|
            0 <= i < files.len() && is_looked_at(#[trigger] files[i], file_pattern)
                && css_file_outcome(root, files[i], classes, pattern)->Ok_0.contains(x),
        forall|i: int|
            0 <= i < files.len() && is_looked_at(#[trigger] files[i], file_pattern)
                ==> css_file_outcome(root, files[i], classes, pattern) is Ok,
    decreases files.len(),
{
    if files.len() > 0 {
        let rest = files.drop_last();
        let before = css_outcome(root, rest, file_pattern, classes, pattern);
        let last = css_file_outcome(root, files.last(), classes, pattern);
        assert(before is Ok);
        matching_stylesheets_are_searched(root, rest, file_pattern, classes, pattern, x);
        assert forall|i: int| 0 <= i < rest.len() implies rest[i] == #[trigger] files[i] by {}
        assert(files[files.len() - 1] == files.last());
        if is_looked_at(files.last(), file_pattern) {
            lemma_in_either(before->Ok_0, last->Ok_0, x);
        }
        if before->Ok_0.contains(x) {
            let i = choose|i: int|
                0 <= i < rest.len() && is_looked_at(#[trigger] rest[i], file_pattern)
                    && css_file_outcome(root, rest[i], classes, pattern)->Ok_0.contains(x);
            assert(is_looked_at(files[i], file_pattern));
        }
        if exists|i: int|
            0 <= i < files.len() && is_looked_at(#[trigger] files[i], file_pattern)
                && css_file_outcome(root, files[i], classes, pattern)->Ok_0.contains(x) {
            let i = choose|i: int|
                0 <= i < files.len() && is_looked_at(#[trigger] files[i], file_pattern)
                    && css_file_outcome(root, files[i], classes, pattern)->Ok_0.contains(x);
            if i < rest.len() {
                assert(is_looked_at(rest[i], file_pattern));
            }
        }
        assert forall|i: int|
            0 <= i < files.len() && is_looked_at(
                #[trigger] files[i],
                file_pattern,
            ) implies css_file_outcome(root, files[i], classes, pattern) is Ok by {
            if i < rest.len() {
                assert(is_looked_at(rest[i], file_pattern));
            }
        }
    }
}

/// A search of sources finds all that it finds in each one whose path matches.
pub proof fn matching_sources_are_searched(
    root: Seq<char>,
    files: Seq<SourceFile>,
    file_pattern: Option<Seq<char>>,
    search: JsSearchView,
    found: Seq<IncidentView>,
    i: int,
)
    requires
        js_found(root, files, file_pattern, search, Ok(found)),
        0 <= i < files.len(),
        is_looked_at(files[i], file_pattern),
    ensures
        exists|own: Seq<IncidentView>| #[trigger]
            js_file_found(root, files[i], search, Ok(own)) && all_among(own, found),
    decreases files.len(),
{
    let rest = files.drop_last();
    let out = Ok::<Seq<IncidentView>, Seq<char>>(found);
    if is_looked_at(files.last(), file_pattern) {
        let before = choose|before: Outcome|
            js_found(root, rest, file_pattern, search, before) && #[trigger] js_step(
                root,
                files.last(),
                search,
                before,
                out,
            );
        assert(before is Ok);
        let o = choose|o: Outcome| #[trigger]
            js_file_found(root, files.last(), search, o) && out == joined(before, o);
        lemma_among_joined(before->Ok_0, o->Ok_0);
        if i < rest.len() {
            assert(rest[i] == files[i]);
            assert(before == Ok::<Seq<IncidentView>, Seq<char>>(before->Ok_0));
            matching_sources_are_searched(root, rest, file_pattern, search, before->Ok_0, i);
            let own = choose|own: Seq<IncidentView>| #[trigger]
                js_file_found(root, rest[i], search, Ok(own)) && all_among(own, before->Ok_0);
            lemma_among_more(own, before->Ok_0, found);
            assert(js_file_found(root, files[i], search, Ok(own)));
        } else {
            assert(o == Ok::<Seq<IncidentView>, Seq<char>>(o->Ok_0));
            assert(js_file_found(root, files[i], search, Ok(o->Ok_0)));
        }
    } else {
        assert(rest[i] == files[i]);
        matching_sources_are_searched(root, rest, file_pattern, search, found, i);
    }
}

/// A search of sources finds nothing but what it finds in one whose path matches.
pub proof fn other_sources_are_not_searched(
    root: Seq<char>,
    files: Seq<SourceFile>,
    file_pattern: Option<Seq<char>>,
    search: JsSearchView,
    found: Seq<IncidentView>,
    x: IncidentView,
)
    requires
        js_found(root, files, file_pattern, search, Ok(found)),
        found.contains(x),
    ensures
        exists|i: int, own: Seq<IncidentView>|
            0 <= i < files.len() && is_looked_at(files[i], file_pattern) && #[trigger]
            js_file_found(root, files[i], search, Ok(own)) && own.contains(x),
    decreases files.len(),
{
    let out = Ok::<Seq<IncidentView>, Seq<char>>(found);
    if files.len() == 0 {
        assert(found.len() == 0);
    } else {
        let rest = files.drop_last();
        if is_looked_at(files.last(), file_pattern) {
            let before = choose|before: Outcome|
                js_found(root, rest, file_pattern, search, before) && #[trigger] js_step(
                    root,
                    files.last(),
                    search,
                    before,
                    out,
                );
            assert(before is Ok);
            let o = choose|o: Outcome| #[trigger]
                js_file_found(root, files.last(), search, o) && out == joined(before, o);
            lemma_in_either(before->Ok_0, o->Ok_0, x);
            assert(before == Ok::<Seq<IncidentView>, Seq<char>>(before->Ok_0));
            assert(o == Ok::<Seq<IncidentView>, Seq<char>>(o->Ok_0));
            if o->Ok_0.contains(x) {
                assert(js_file_found(root, files[files.len() - 1], search, Ok(o->Ok_0)));
            } else {
                other_sources_are_not_searched(root, rest, file_pattern, search, before->Ok_0, x);
                let (i, own) = choose|i: int, own: Seq<IncidentView>|
                    0 <= i < rest.len() && is_looked_at(rest[i], file_pattern) && #[trigger]
                    js_file_found(root, rest[i], search, Ok(own)) && own.contains(x);
                assert(js_file_found(root, files[i], search, Ok(own)));
            }
        } else {
            other_sources_are_not_searched(root, rest, file_pattern, search, found, x);
            let (i, own) = choose|i: int, own: Seq<IncidentView>|
                0 <= i < rest.len() && is_looked_at(rest[i], file_pattern) && #[trigger]
                js_file_found(root, rest[i], search, Ok(own)) && own.contains(x);
            assert(js_file_found(root, files[i], search, Ok(own)));
        }
    }
}

/// Whether something found is what a search of the stylesheets and a search of the sources
/// find together.
pub open spec fn holds_styles(
    project: ProjectFiles,
    file_pattern: Option<Seq<char>>,
    css: Outcome,
    search: JsSearchView,
    found: Seq<IncidentView>,
) -> bool {
    css is Ok && all_among(css->Ok_0, found) && exists|js: Seq<IncidentView>| #[trigger]
        js_found(project.root@, project.js_files@, file_pattern, search, Ok(js)) && all_among(
            js,
            found,
        ) && found.len() == css->Ok_0.len() + js.len()
}

/// A condition on classes, or on custom properties, finds what the search of the stylesheets
/// and the search of the sources find.
pub proof fn styles_are_searched_everywhere(
    project: ProjectFiles,
    condition: ProviderCondition,
    found: Seq<IncidentView>,
)
    requires
        condition_found(project, condition, Ok(found)),
    ensures
        condition matches ProviderCondition::CssClass(c) ==> holds_styles(
            project,
            opt_text(c.file_pattern),
            css_outcome(
                project.root@,
                project.css_files@,
                opt_text(c.file_pattern),
                true,
                c.pattern@,
            ),
            JsSearchView::ClassNames(c.pattern@),
            found,
        ),
        condition matches ProviderCondition::CssVar(c) ==> holds_styles(
            project,
            opt_text(c.file_pattern),
            css_outcome(
                project.root@,
                project.css_files@,
                opt_text(c.file_pattern),
                false,
                c.pattern@,
            ),
            JsSearchView::CssVars(c.pattern@),
            found,
        ),
{
    match condition {
        ProviderCondition::CssClass(c) => {
            lemma_styles(project, c.pattern@, opt_text(c.file_pattern), true, found);
        },
        ProviderCondition::CssVar(c) => {
            lemma_styles(project, c.pattern@, opt_text(c.file_pattern), false, found);
        },
        _ => {},
    }
}

proof fn lemma_styles(
    project: ProjectFiles,
    pattern: Seq<char>,
    files: Option<Seq<char>>,
    classes: bool,
    found: Seq<IncidentView>,
)
    requires
        styles_found(project, pattern, files, classes, Ok(found)),
    ensures
        holds_styles(
            project,
            files,
            css_outcome(project.root@, project.css_files@, files, classes, pattern),
            style_search(pattern, classes),
            found,
        ),
{
    let out = Ok::<Seq<IncidentView>, Seq<char>>(found);
    let css = css_outcome(project.root@, project.css_files@, files, classes, pattern);
    let search = style_search(pattern, classes);
    let js = choose|js: Outcome| #[trigger]
        js_found(project.root@, project.js_files@, files, search, js) && out == joined(css, js);
    lemma_among_joined(css->Ok_0, js->Ok_0);
    assert(js == Ok::<Seq<IncidentView>, Seq<char>>(js->Ok_0));
    assert(js_found(project.root@, project.js_files@, files, search, Ok(js->Ok_0)));
}

/// The sources that are passed over are those that are looked at, can be read and are no
/// programs, in their order.
pub proof fn unparsed_sources_are_told(files: Seq<SourceFile>, file_pattern: Option<Seq<char>>)
    ensures
        unparsed_paths(files, file_pattern) == files.filter(
            |f: SourceFile|
                is_looked_at(f, file_pattern) && (f.content matches Ok(t) && document_of(t@) is None),
        ).map_values(|f: SourceFile| f.path@),
    decreases files.len(),
{
    let wanted = |f: SourceFile|
        is_looked_at(f, file_pattern) && (f.content matches Ok(t) && document_of(t@) is None);
    reveal(Seq::filter);
    if files.len() > 0 {
        unparsed_sources_are_told(files.drop_last(), file_pattern);
        let before = files.drop_last().filter(wanted);
        assert(unparsed_paths(files.drop_last(), file_pattern) =~= before.map_values(
            |f: SourceFile| f.path@,
        ));
        assert(before.push(files.last()).map_values(|f: SourceFile| f.path@) =~= before.map_values(
            |f: SourceFile| f.path@,
        ).push(files.last().path@));
        assert(files.filter(wanted) == if wanted(files.last()) {
            before.push(files.last())
        } else {
            before
        });
        assert(unparsed_paths(files, file_pattern) =~= files.filter(wanted).map_values(
            |f: SourceFile| f.path@,
        ));
    } else {
        assert(files.filter(wanted) =~= Seq::empty());
        assert(unparsed_paths(files, file_pattern) =~= files.filter(wanted).map_values(
            |f: SourceFile| f.path@,
        ));
    }
}

// ── How conditions are combined ─────────────────────────────────────────

/// A conjunction that finds something finds what its last condition finds.
pub proof fn conjunctions_report_their_last_condition(
    project: ProjectFiles,
    conditions: Vec<WhenCondition>,
    found: Seq<IncidentView>,
)
    requires
        when_found(project, WhenCondition::And(conditions), Ok(found)),
        found.len() > 0,
    ensures
        conditions@.len() > 0,
        when_found(project, conditions@.last(), Ok(found)),
{
    let v = conditions@;
    let n = v.len() as int;
    let out = Ok::<Seq<IncidentView>, Seq<char>>(found);
    assert(and_found(project, v, n, out));
    if n > 0 {
        let (before, next) = choose|before: Outcome, next: Outcome|
            and_found(project, v, n - 1, before) && (goes_on(before, n) ==> when_found(
                project,
                v[n - 1],
                next,
            )) && #[trigger] follows(before, n, next, out);
        assert(next == out);
    }
}

/// A conjunction that finds nothing has a condition that finds nothing.
pub proof fn conjunctions_fail_with_a_condition(
    project: ProjectFiles,
    v: Seq<WhenCondition>,
    n: int,
    out: Outcome,
)
    requires
        and_found(project, v, n, out),
        0 < n <= v.len(),
        out is Err || out->Ok_0.len() == 0,
    ensures
        exists|i: int| 0 <= i < n && #[trigger] when_found(project, v[i], out),
    decreases n,
{
    let (before, next) = choose|before: Outcome, next: Outcome|
        and_found(project, v, n - 1, before) && (goes_on(before, n) ==> when_found(
            project,
            v[n - 1],
            next,
        )) && #[trigger] follows(before, n, next, out);
    if goes_on(before, n) {
        assert(when_found(project, v[n - 1], out));
    } else {
        if n == 1 {
            assert(before is Ok);
        }
        conjunctions_fail_with_a_condition(project, v, n - 1, before);
        let i = choose|i: int| 0 <= i < n - 1 && #[trigger] when_found(project, v[i], before);
        assert(when_found(project, v[i], out));
    }
}

/// A disjunction finds nothing but what one of its conditions finds.
pub proof fn disjunctions_add_nothing(
    project: ProjectFiles,
    v: Seq<WhenCondition>,
    n: int,
    found: Seq<IncidentView>,
    x: IncidentView,
)
    requires
        or_found(project, v, n, Ok(found)),
        0 <= n <= v.len(),
        found.contains(x),
    ensures
        exists|i: int, own: Seq<IncidentView>|
            0 <= i < n && #[trigger] when_found(project, v[i], Ok(own)) && own.contains(x),
    decreases n,
{
    if n > 0 {
        let out = Ok::<Seq<IncidentView>, Seq<char>>(found);
        let (before, next) = choose|before: Outcome, next: Outcome|
            or_found(project, v, n - 1, before) && (before is Ok ==> when_found(
                project,
                v[n - 1],
                next,
            )) && #[trigger] joins(before, next, out);
        lemma_in_either(before->Ok_0, next->Ok_0, x);
        assert(before == Ok::<Seq<IncidentView>, Seq<char>>(before->Ok_0));
        assert(next == Ok::<Seq<IncidentView>, Seq<char>>(next->Ok_0));
        if next->Ok_0.contains(x) {
            assert(when_found(project, v[n - 1], Ok(next->Ok_0)));
        } else {
            disjunctions_add_nothing(project, v, n - 1, before->Ok_0, x);
        }
    } else {
        assert(found.len() == 0);
    }
}

/// The conditions of this provider are all asked: what each finds is found.
pub proof fn conditions_of_this_provider_are_asked(
    project: ProjectFiles,
    v: Seq<ProviderWhen>,
    n: int,
    found: Seq<IncidentView>,
    i: int,
)
    requires
        entries_found(project, v, n, Ok(found)),
        0 <= i < n <= v.len(),
        v[i].provider@ == PROVIDER_NAME@,
    ensures
        v[i].condition is Ok,
        exists|own: Seq<IncidentView>| #[trigger]
            condition_found(project, v[i].condition->Ok_0, Ok(own)) && all_among(own, found),
    decreases n,
{
    let out = Ok::<Seq<IncidentView>, Seq<char>>(found);
    let (before, next) = choose|before: Outcome, next: Outcome|
        entries_found(project, v, n - 1, before) && (before is Ok ==> entry_found(
            project,
            v[n - 1],
            next,
        )) && #[trigger] joins(before, next, out);
    lemma_among_joined(before->Ok_0, next->Ok_0);
    assert(before == Ok::<Seq<IncidentView>, Seq<char>>(before->Ok_0));
    assert(next == Ok::<Seq<IncidentView>, Seq<char>>(next->Ok_0));
    if i < n - 1 {
        conditions_of_this_provider_are_asked(project, v, n - 1, before->Ok_0, i);
        let own = choose|own: Seq<IncidentView>| #[trigger]
            condition_found(project, v[i].condition->Ok_0, Ok(own)) && all_among(
                own,
                before->Ok_0,
            );
        lemma_among_more(own, before->Ok_0, found);
        assert(condition_found(project, v[i].condition->Ok_0, Ok(own)));
    } else {
        assert(condition_found(project, v[i].condition->Ok_0, Ok(next->Ok_0)));
    }
}

// ── What rules report ───────────────────────────────────────────────────

/// A rule that finds something has a violation with its own description, labels and effort,
/// which reports every incident at its place, with the message of the rule. Of rules of the
/// same id, the last one counts.
pub proof fn incidents_carry_the_message_of_their_rule(
    rules: Seq<Rule>,
    outs: Seq<Outcome>,
    n: int,
    i: int,
    k: int,
)
    requires
        0 <= i < n <= rules.len(),
        outs.len() == rules.len(),
        outs[i] is Ok,
        0 <= k < outs[i]->Ok_0.len(),
        forall|j: int| i < j < n ==> (#[trigger] rules[j]).rule_id@ != rules[i].rule_id@,
    ensures
        ({
            let m = violations_of(rules, outs, n);
            let v = m[rules[i].rule_id@];
            let x = outs[i]->Ok_0[k];
            &&& m.dom().contains(rules[i].rule_id@)
            &&& v.description == rules[i].description@
            &&& v.labels == texts(rules[i].labels@)
            &&& v.effort == rules[i].effort
            &&& v.incidents.len() == outs[i]->Ok_0.len()
            &&& v.incidents[k].message == rules[i].message@
            &&& v.incidents[k].file_uri == x.file_uri
            &&& v.incidents[k].line_number == x.line_number
            &&& v.incidents[k].code_snip == x.code_snip
            &&& v.incidents[k].variables == x.variables
        }),
    decreases n,
{
    if i < n - 1 {
        incidents_carry_the_message_of_their_rule(rules, outs, n - 1, i, k);
        assert(rules[n - 1].rule_id@ != rules[i].rule_id@);
    }
}

/// The violations, the errors and the unmatched rules are those of rules that found
/// something, failed, and found nothing.
pub proof fn results_come_from_rules(
    rules: Seq<Rule>,
    outs: Seq<Outcome>,
    n: int,
    id: Seq<char>,
)
    requires
        0 <= n <= rules.len(),
        outs.len() == rules.len(),
    ensures
        violations_of(rules, outs, n).dom().contains(id) <==> exists|i: int|
            0 <= i < n && (#[trigger] rules[i]).rule_id@ == id && outs[i] is Ok
                && outs[i]->Ok_0.len() > 0,
        errors_of(rules, outs, n).dom().contains(id) <==> exists|i: int|
            0 <= i < n && (#[trigger] rules[i]).rule_id@ == id && outs[i] is Err,
        errors_of(rules, outs, n).dom().contains(id) ==> exists|i: int|
            0 <= i < n && (#[trigger] rules[i]).rule_id@ == id && outs[i] == Err::<
                Seq<IncidentView>,
                Seq<char>,
            >(errors_of(rules, outs, n)[id]),
        unmatched_of(rules, outs, n).contains(id) <==> exists|i: int|
            0 <= i < n && (#[trigger] rules[i]).rule_id@ == id && outs[i] is Ok
                && outs[i]->Ok_0.len() == 0,
    decreases n,
{
    if n > 0 {
        results_come_from_rules(rules, outs, n - 1, id);
        lemma_in_pushed(unmatched_of(rules, outs, n - 1), rules[n - 1].rule_id@, id);
        let last = rules[n - 1];
        assert(last.rule_id@ == rules[n - 1].rule_id@);
    }
}

/// The violation of a rule describes the rule and holds an incident for each that was found.
pub proof fn violations_describe_their_rules(rule: Rule, found: Seq<IncidentView>)
    ensures
        ({
            let v = violation_of(rule, found);
            &&& v.description == rule.description@ && v.effort == rule.effort
            &&& v.labels.len() == rule.labels@.len() && forall|i: int|
                0 <= i < v.labels.len() ==> #[trigger] v.labels[i] == rule.labels@[i]@
            &&& v.links.len() == rule.links@.len() && forall|i: int|
                0 <= i < v.links.len() ==> (#[trigger] v.links[i]).url == rule.links@[i].url@
                    && v.links[i].title == Some(rule.links@[i].title@)
            &&& v.incidents.len() == found.len() && forall|i: int|
                0 <= i < found.len() ==> (#[trigger] v.incidents[i]).file_uri == found[i].file_uri
                    && v.incidents[i].line_number == found[i].line_number
                    && v.incidents[i].code_snip == found[i].code_snip
                    && v.incidents[i].variables == found[i].variables
                    && v.incidents[i].message == rule.message@
        }),
{
}

/// What is wrong with an expression is told before anything is searched, and what is wrong
/// with a manifest instead of the incidents.
pub proof fn conditions_that_cannot_be_asked_are_told(
    project: ProjectFiles,
    condition: ProviderCondition,
    out: Outcome,
)
    requires
        condition_found(project, condition, out),
    ensures
        condition matches ProviderCondition::Referenced(c) ==> {
            &&& (c.file_pattern matches Some(e) ==> (regex_rejection(e@) matches Some(m) ==> out
                == Outcome::Err(m)))
            &&& regex_rejection(c.pattern@) is Some ==> out is Err
        },
        condition matches ProviderCondition::Dependency(c) ==> {
            &&& out is Ok <==> all_checked(project.manifests@, c) is Ok
            &&& out is Ok ==> out->Ok_0 == all_checked(project.manifests@, c)->Ok_0
        },
{
}

} // verus!
