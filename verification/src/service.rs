//! What the provider answers: its capabilities, whether it is ready, the errors of an
//! evaluation, and the dependencies of a project.

use crate::capabilities::capability_names;
use crate::dependency::{is_section, section_of, strip_npm_prefix, without_operator, ManifestText};
use crate::incident::Incident;
use crate::json::{as_text, entry_views, json_denoted, parse_json, Json, JsonView};
use crate::lockfile::{
    lock_views, locked_in_project, parse_all_lockfiles, DirLockfiles, LockfileEntry,
    LockfileEntryView,
};
use crate::text::{
    cat2, cat3, contains, decimal, decimal_text, join, joined_texts_hold_their_parts, join_texts,
    lemma_in_either, lemma_in_pushed, lemma_stands_in_more, lemma_texts_push, opt_text, same_text,
    starts_with, starts_with_text, texts, trim,
};
use vstd::prelude::*;

verus! {

// ── The provider ────────────────────────────────────────────────────────

/// The provider: what it was set up with.
#[derive(Debug)]
pub struct FrontendProvider {
    /// The root of the project, once the provider is initialised.
    pub project_root: Option<String>,
    /// How many lines of context a snippet shows.
    pub context_lines: usize,
}

/// The answer to a request to initialise.
#[derive(Debug)]
pub struct InitOutcome {
    pub error: String,
    pub successful: bool,
    pub id: i64,
}

/// What is said to requests before the provider is initialised.
pub const NOT_INITIALIZED: &'static str = "Provider not initialized";

impl FrontendProvider {
    /// A provider that is not initialised.
    pub fn new(context_lines: usize) -> (r: FrontendProvider)
        ensures
            r.project_root is None,
            r.context_lines == context_lines,
    {
        FrontendProvider { project_root: None, context_lines }
    }

    /// The names of the capabilities.
    pub fn capabilities(&self) -> (r: Vec<String>)
        ensures
            texts(r@) == capability_names(),
    {
        let mut out: Vec<String> = Vec::new();
        out.push("referenced".to_owned());
        out.push("cssclass".to_owned());
        out.push("cssvar".to_owned());
        out.push("dependency".to_owned());
        assert(texts(out@) =~= capability_names());
        out
    }

    /// Sets the provider up for the project at a location. A location that does not
    /// exist is refused, and the provider stays as it was.
    pub fn init(&mut self, location: &str, exists: bool) -> (r: InitOutcome)
        ensures
            final(self).context_lines == old(self).context_lines,
            r.successful == exists,
            exists ==> opt_text(final(self).project_root) == Some(location@) && r.error@.len() == 0 && r.id
                == 1,
            !exists ==> final(self).project_root == old(self).project_root && r.error@
                == "Location does not exist: "@ + location@ && r.id == 0,
    {
        if exists {
            self.project_root = Some(location.to_owned());
            InitOutcome { error: String::new(), successful: true, id: 1 }
        } else {
            InitOutcome {
                error: cat2("Location does not exist: ", location),
                successful: false,
                id: 0,
            }
        }
    }

    /// The root of the project; an error before the provider is initialised.
    pub fn root(&self) -> (r: Result<String, String>)
        ensures
            match opt_text(self.project_root) {
                Some(p) => r is Ok && r->Ok_0@ == p,
                None => r is Err && r->Err_0@ == NOT_INITIALIZED@,
            },
    {
        match &self.project_root {
            Some(p) => Ok(p.clone()),
            None => Err(NOT_INITIALIZED.to_owned()),
        }
    }
}

// ── Evaluation ──────────────────────────────────────────────────────────

/// A file that could not be parsed.
#[derive(Debug)]
pub struct ParseError {
    pub file_path: String,
    pub message: String,
}

pub open spec fn error_lines(v: Seq<ParseError>) -> Seq<Seq<char>> {
    Seq::new(v.len(), |i: int| v[i].file_path@ + ": "@ + v[i].message@)
}

/// What is said of files that could not be parsed: nothing where there are none.
pub open spec fn parse_error_text(v: Seq<ParseError>) -> Seq<char> {
    if v.len() == 0 {
        Seq::empty()
    } else {
        decimal(v.len()) + " file(s) could not be parsed and were skipped:\n"@ + join(
            error_lines(v),
            "\n"@,
        )
    }
}

/// What is said of files that could not be parsed.
pub fn parse_error_summary(errors: &Vec<ParseError>) -> (r: String)
    ensures
        r@ == parse_error_text(errors@),
{
    if errors.len() == 0 {
        let s = String::new();
        assert(s@ =~= Seq::<char>::empty());
        return s;
    }
    let mut shown: Vec<String> = Vec::new();
    let mut i: usize = 0;
    while i < errors.len()
        invariant
            i <= errors@.len(),
            shown@.len() == i,
            forall|k: int| 0 <= k < i ==> (#[trigger] shown@[k])@ == error_lines(errors@)[k],
        decreases errors@.len() - i,
    {
        shown.push(cat3(errors[i].file_path.as_str(), ": ", errors[i].message.as_str()));
        i = i + 1;
    }
    assert(texts(shown@) =~= error_lines(errors@));
    let count = decimal_text(errors.len() as u64);
    let list = join_texts(&shown, "\n");
    cat3(count.as_str(), " file(s) could not be parsed and were skipped:\n", list.as_str())
}

/// What is said of a file that is no program.
pub const NOT_PARSED: &'static str = "Failed to parse";

/// The errors of files that could not be parsed.
pub fn parse_errors_of(paths: &Vec<String>) -> (r: Vec<ParseError>)
    ensures
        r@.len() == paths@.len(),
        forall|i: int|
            0 <= i < r@.len() ==> (#[trigger] r@[i]).file_path@ == paths@[i]@ && r@[i].message@
                == NOT_PARSED@,
{
    let mut out: Vec<ParseError> = Vec::new();
    let mut i: usize = 0;
    while i < paths.len()
        invariant
            i <= paths@.len(),
            out@.len() == i,
            forall|k: int|
                0 <= k < i ==> (#[trigger] out@[k]).file_path@ == paths@[k]@ && out@[k].message@
                    == NOT_PARSED@,
        decreases paths@.len() - i,
    {
        out.push(ParseError { file_path: paths[i].clone(), message: NOT_PARSED.to_owned() });
        i = i + 1;
    }
    out
}

/// What an evaluation found, and the files that it had to skip.
#[derive(Debug)]
pub struct Evaluated {
    pub incidents: Vec<Incident>,
    pub parse_errors: Vec<ParseError>,
}

/// The answer to a request to evaluate a condition.
#[derive(Debug)]
pub struct EvaluateOutcome {
    pub error: String,
    pub successful: bool,
    pub incidents: Option<Vec<Incident>>,
}

impl FrontendProvider {
    /// Answers a request to evaluate a condition, given how the evaluation went. It is
    /// refused before the provider is initialised. Files that could not be parsed are
    /// reported, and are no failure.
    pub fn evaluate(&self, result: Result<Evaluated, String>) -> (r: Result<EvaluateOutcome, String>)
        ensures
            match (opt_text(self.project_root), result, r) {
                (None, _, Err(m)) => m@ == NOT_INITIALIZED@,
                (Some(_), Ok(found), Ok(answer)) => answer.successful && answer.error@ == parse_error_text(
                    found.parse_errors@,
                ) && answer.incidents == Some(found.incidents),
                (Some(_), Err(m), Ok(answer)) => !answer.successful && answer.error@ == m@
                    && answer.incidents is None,
                _ => false,
            },
    {
        if self.project_root.is_none() {
            return Err(NOT_INITIALIZED.to_owned());
        }
        match result {
            Ok(found) => Ok(
                EvaluateOutcome {
                    error: parse_error_summary(&found.parse_errors),
                    successful: true,
                    incidents: Some(found.incidents),
                },
            ),
            Err(m) => Ok(EvaluateOutcome { error: m, successful: false, incidents: None }),
        }
    }
}

// ── Dependencies ────────────────────────────────────────────────────────

/// A dependency of a project.
#[derive(Debug)]
pub struct Dependency {
    pub name: String,
    pub version: String,
    /// The section of the manifest that declares it, or `lockfile`.
    pub dep_type: String,
    /// Whether a lockfile resolves it and no manifest declares it at this version.
    pub indirect: bool,
    /// The packages that depend on an indirect dependency, as a list.
    pub resolved_for: Option<String>,
}

/// The dependencies that a file lists.
#[derive(Debug)]
pub struct FileDep {
    pub file_uri: String,
    pub deps: Vec<Dependency>,
}

pub ghost struct DependencyView {
    pub name: Seq<char>,
    pub version: Seq<char>,
    pub dep_type: Seq<char>,
    pub indirect: bool,
    pub resolved_for: Option<Seq<char>>,
}

pub ghost struct FileDepView {
    pub file_uri: Seq<char>,
    pub deps: Seq<DependencyView>,
}

impl Dependency {
    pub open spec fn view(&self) -> DependencyView {
        DependencyView {
            name: self.name@,
            version: self.version@,
            dep_type: self.dep_type@,
            indirect: self.indirect,
            resolved_for: opt_text(self.resolved_for),
        }
    }
}

pub open spec fn dep_views(v: Seq<Dependency>) -> Seq<DependencyView> {
    Seq::new(v.len(), |i: int| v[i]@)
}

impl FileDep {
    pub open spec fn view(&self) -> FileDepView {
        FileDepView { file_uri: self.file_uri@, deps: dep_views(self.deps@) }
    }
}

pub open spec fn file_dep_views(v: Seq<FileDep>) -> Seq<FileDepView> {
    Seq::new(v.len(), |i: int| v[i]@)
}

/// The version that a manifest declares; `0.0.0` where it is no text.
pub open spec fn declared_version(j: JsonView) -> Seq<char> {
    match as_text(j) {
        Some(t) => t,
        None => "0.0.0"@,
    }
}

/// The dependencies of a section, with the versions that their ranges begin with.
/// Those of the workspace itself are left out.
pub open spec fn declared(section: Seq<char>, entries: Seq<(Seq<char>, JsonView)>) -> Seq<DependencyView>
    decreases entries.len(),
{
    if entries.len() == 0 {
        Seq::empty()
    } else {
        let before = declared(section, entries.drop_last());
        let raw = declared_version(entries.last().1);
        if starts_with(raw, "workspace:"@) {
            before
        } else {
            before.push(
                DependencyView {
                    name: entries.last().0,
                    version: without_operator(trim(raw)),
                    dep_type: section,
                    indirect: false,
                    resolved_for: None,
                },
            )
        }
    }
}

/// The dependencies that a manifest declares: its own, then those for development,
/// then peers.
pub open spec fn declared_in(manifest: JsonView) -> Seq<DependencyView> {
    declared("dependencies"@, section_of(manifest, "dependencies"@)) + declared(
        "devDependencies"@,
        section_of(manifest, "devDependencies"@),
    ) + declared("peerDependencies"@, section_of(manifest, "peerDependencies"@))
}

/// What a manifest holds, where it can be read and is JSON.
pub open spec fn manifest_read(m: ManifestText) -> Option<JsonView> {
    match m.content {
        Ok(text) => json_denoted(text@),
        Err(_) => None,
    }
}

/// What manifests declare, one file after the other. One that cannot be read or is not
/// JSON is passed over.
pub open spec fn declared_by(manifests: Seq<ManifestText>) -> Seq<FileDepView>
    decreases manifests.len(),
{
    if manifests.len() == 0 {
        Seq::empty()
    } else {
        let before = declared_by(manifests.drop_last());
        match manifest_read(manifests.last()) {
            Some(j) => before.push(
                FileDepView { file_uri: "file://"@ + manifests.last().path@, deps: declared_in(j) },
            ),
            None => before,
        }
    }
}

fn push_dep(v: &mut Vec<Dependency>, d: Dependency)
    ensures
        dep_views(final(v)@) == dep_views(old(v)@).push(d@),
{
    let ghost before = v@;
    v.push(d);
    assert(dep_views(v@) =~= dep_views(before).push(d@));
}

fn add_declared(out: &mut Vec<Dependency>, manifest: &Json, section: &str)
    ensures
        dep_views(final(out)@) == dep_views(old(out)@) + declared(section@, section_of(manifest@, section@)),
{
    let ghost before = dep_views(out@);
    let entries = match manifest.get(section) {
        Some(s) => match s.as_object() {
            Some(e) => e,
            None => {
                assert(dep_views(out@) =~= before + Seq::<DependencyView>::empty());
                return;
            },
        },
        None => {
            assert(dep_views(out@) =~= before + Seq::<DependencyView>::empty());
            return;
        },
    };
    let ghost v = entry_views(entries@);
    assert(v == section_of(manifest@, section@));
    let mut i: usize = 0;
    assert(dep_views(out@) =~= before + declared(section@, v.take(0)));
    while i < entries.len()
        invariant
            i <= entries@.len(),
            v == entry_views(entries@),
            dep_views(out@) == before + declared(section@, v.take(i as int)),
        decreases entries@.len() - i,
    {
        assert(v.take(i + 1).drop_last() =~= v.take(i as int));
        assert(v.take(i + 1).last() == v[i as int]);
        let raw = match entries[i].1.as_str() {
            Some(t) => t,
            None => "0.0.0",
        };
        if !starts_with_text(raw, "workspace:") {
            push_dep(
                out,
                Dependency {
                    name: entries[i].0.clone(),
                    version: strip_npm_prefix(raw),
                    dep_type: section.to_owned(),
                    indirect: false,
                    resolved_for: None,
                },
            );
            assert(dep_views(out@) =~= before + declared(section@, v.take(i + 1)));
        }
        i = i + 1;
    }
    assert(v.take(v.len() as int) =~= v);
}

/// What a manifest that was read as JSON declares.
pub fn declared_dependencies(manifest: &Json) -> (r: Vec<Dependency>)
    ensures
        dep_views(r@) == declared_in(manifest@),
{
    let mut deps: Vec<Dependency> = Vec::new();
    assert(dep_views(deps@) =~= Seq::<DependencyView>::empty());
    add_declared(&mut deps, manifest, "dependencies");
    add_declared(&mut deps, manifest, "devDependencies");
    add_declared(&mut deps, manifest, "peerDependencies");
    assert(dep_views(deps@) =~= declared_in(manifest@));
    deps
}

fn list_declared(manifests: &Vec<ManifestText>) -> (r: Vec<FileDep>)
    ensures
        file_dep_views(r@) == declared_by(manifests@),
{
    let mut out: Vec<FileDep> = Vec::new();
    let mut i: usize = 0;
    assert(file_dep_views(out@) =~= declared_by(manifests@.take(0)));
    while i < manifests.len()
        invariant
            i <= manifests@.len(),
            file_dep_views(out@) == declared_by(manifests@.take(i as int)),
        decreases manifests@.len() - i,
    {
        assert(manifests@.take(i + 1).drop_last() =~= manifests@.take(i as int));
        let manifest = match &manifests[i].content {
            Ok(text) => parse_json(text.as_str()),
            Err(_) => None,
        };
        if let Some(json) = manifest {
            let dep = FileDep {
                file_uri: cat2("file://", manifests[i].path.as_str()),
                deps: declared_dependencies(&json),
            };
            let ghost prior = out@;
            out.push(dep);
            assert(file_dep_views(out@) =~= file_dep_views(prior).push(dep@));
        }
        i = i + 1;
    }
    assert(manifests@.take(manifests@.len() as int) =~= manifests@);
    out
}

/// Whether some file lists a package at a version.
pub open spec fn lists(v: Seq<FileDepView>, name: Seq<char>, version: Seq<char>) -> bool {
    exists|i: int|
        0 <= i < v.len() && lists_dep((#[trigger] v[i]).deps, name, version)
}

pub open spec fn lists_dep(v: Seq<DependencyView>, name: Seq<char>, version: Seq<char>) -> bool {
    exists|i: int| 0 <= i < v.len() && (#[trigger] v[i]).name == name && v[i].version == version
}

/// The packages that depend on a package, as `name@version`, in order.
pub open spec fn dependents_of(v: Seq<LockfileEntryView>, name: Seq<char>) -> Seq<Seq<char>>
    decreases v.len(),
{
    if v.len() == 0 {
        Seq::empty()
    } else if v.last().dependencies.dom().contains(name) {
        dependents_of(v.drop_last(), name).push(v.last().name + "@"@ + v.last().version)
    } else {
        dependents_of(v.drop_last(), name)
    }
}

/// The indirect dependencies among the first `n` entries of a lockfile: those that no
/// manifest declares at their version, with the packages that they are resolved for.
pub open spec fn indirect(
    entries: Seq<LockfileEntryView>,
    direct: Seq<FileDepView>,
    n: int,
) -> Seq<DependencyView>
    decreases n,
{
    if n <= 0 {
        Seq::empty()
    } else {
        let before = indirect(entries, direct, n - 1);
        let e = entries[n - 1];
        let parents = dependents_of(entries, e.name);
        if lists(direct, e.name, e.version) {
            before
        } else {
            before.push(
                DependencyView {
                    name: e.name,
                    version: e.version,
                    dep_type: "lockfile"@,
                    indirect: true,
                    resolved_for: if parents.len() == 0 {
                        None
                    } else {
                        Some(join(parents, ", "@))
                    },
                },
            )
        }
    }
}

/// The dependencies of a project: what its manifests declare, and then, under the
/// first lockfile, what its lockfiles resolve beyond that.
pub open spec fn dependencies_of(
    root: Seq<char>,
    direct: Seq<FileDepView>,
    entries: Seq<LockfileEntryView>,
    paths: Seq<Seq<char>>,
) -> Seq<FileDepView> {
    let more = indirect(entries, direct, entries.len() as int);
    if more.len() == 0 {
        direct
    } else {
        direct.push(
            FileDepView {
                file_uri: if paths.len() == 0 {
                    "file://"@ + root + "/lockfile"@
                } else {
                    "file://"@ + paths[0]
                },
                deps: more,
            },
        )
    }
}

fn has_dep(v: &Vec<Dependency>, name: &str, version: &str) -> (r: bool)
    ensures
        r == lists_dep(dep_views(v@), name@, version@),
{
    let ghost d = dep_views(v@);
    let mut i: usize = 0;
    while i < v.len()
        invariant
            i <= v@.len(),
            d == dep_views(v@),
            forall|k: int| 0 <= k < i ==> !((#[trigger] d[k]).name == name@ && d[k].version == version@),
        decreases v@.len() - i,
    {
        if same_text(v[i].name.as_str(), name) && same_text(v[i].version.as_str(), version) {
            assert(d[i as int].name == name@ && d[i as int].version == version@);
            return true;
        }
        i = i + 1;
    }
    false
}

fn is_listed(v: &Vec<FileDep>, name: &str, version: &str) -> (r: bool)
    ensures
        r == lists(file_dep_views(v@), name@, version@),
{
    let ghost d = file_dep_views(v@);
    let mut i: usize = 0;
    while i < v.len()
        invariant
            i <= v@.len(),
            d == file_dep_views(v@),
            forall|k: int| 0 <= k < i ==> !lists_dep((#[trigger] d[k]).deps, name@, version@),
        decreases v@.len() - i,
    {
        if has_dep(&v[i].deps, name, version) {
            assert(lists_dep(d[i as int].deps, name@, version@));
            return true;
        }
        i = i + 1;
    }
    false
}

fn list_dependents(entries: &Vec<LockfileEntry>, name: &str) -> (r: Vec<String>)
    ensures
        texts(r@) == dependents_of(lock_views(entries@), name@),
{
    let ghost v = lock_views(entries@);
    let mut out: Vec<String> = Vec::new();
    let mut i: usize = 0;
    assert(texts(out@) =~= dependents_of(v.take(0), name@));
    while i < entries.len()
        invariant
            i <= entries@.len(),
            v == lock_views(entries@),
            texts(out@) == dependents_of(v.take(i as int), name@),
        decreases entries@.len() - i,
    {
        assert(v.take(i + 1).drop_last() =~= v.take(i as int));
        assert(v.take(i + 1).last() == entries@[i as int]@);
        if entries[i].dependencies.contains_key(name) {
            let s = cat3(entries[i].name.as_str(), "@", entries[i].version.as_str());
            proof {
                lemma_texts_push(out@, s);
            }
            out.push(s);
        }
        i = i + 1;
    }
    assert(v.take(v.len() as int) =~= v);
    out
}

fn list_indirect(entries: &Vec<LockfileEntry>, direct: &Vec<FileDep>) -> (r: Vec<Dependency>)
    ensures
        dep_views(r@) == indirect(
            lock_views(entries@),
            file_dep_views(direct@),
            entries@.len() as int,
        ),
{
    let ghost v = lock_views(entries@);
    let mut out: Vec<Dependency> = Vec::new();
    let mut i: usize = 0;
    assert(dep_views(out@) =~= Seq::<DependencyView>::empty());
    while i < entries.len()
        invariant
            i <= entries@.len(),
            v == lock_views(entries@),
            dep_views(out@) == indirect(v, file_dep_views(direct@), i as int),
        decreases entries@.len() - i,
    {
        let entry = &entries[i];
        assert(v[i as int] == entry@);
        if !is_listed(direct, entry.name.as_str(), entry.version.as_str()) {
            let parents = list_dependents(entries, entry.name.as_str());
            assert(texts(parents@).len() == parents@.len());
            let resolved_for = if parents.len() == 0 {
                None
            } else {
                Some(join_texts(&parents, ", "))
            };
            push_dep(
                &mut out,
                Dependency {
                    name: entry.name.clone(),
                    version: entry.version.clone(),
                    dep_type: "lockfile".to_owned(),
                    indirect: true,
                    resolved_for,
                },
            );
        }
        i = i + 1;
    }
    out
}

/// The dependencies of a project, given what its manifests declare and what its
/// lockfiles resolve.
pub fn combine_dependencies(
    root: &str,
    direct: Vec<FileDep>,
    entries: &Vec<LockfileEntry>,
    paths: &Vec<String>,
) -> (r: Vec<FileDep>)
    ensures
        file_dep_views(r@) == dependencies_of(
            root@,
            file_dep_views(direct@),
            lock_views(entries@),
            texts(paths@),
        ),
{
    let more = list_indirect(entries, &direct);
    assert(lock_views(entries@).len() == entries@.len());
    assert(dep_views(more@).len() == more@.len());
    let mut out = direct;
    if more.len() > 0 {
        let uri = if paths.len() == 0 {
            cat3("file://", root, "/lockfile")
        } else {
            cat2("file://", paths[0].as_str())
        };
        let dep = FileDep { file_uri: uri, deps: more };
        let ghost prior = out@;
        out.push(dep);
        assert(file_dep_views(out@) =~= file_dep_views(prior).push(dep@));
    }
    out
}

/// The dependencies of a project. `manifests` are its manifests, root and workspaces,
/// and `dirs` the lockfiles of their directories. Lockfiles that cannot
/// be read add nothing.
pub fn get_dependencies(
    root: &DirLockfiles,
    manifests: &Vec<ManifestText>,
    dirs: &Vec<DirLockfiles>,
) -> (r: Vec<FileDep>)
    ensures
        file_dep_views(r@) == match locked_in_project(*root, dirs@) {
            Ok(locked) => dependencies_of(root.dir@, declared_by(manifests@), locked.0, locked.1),
            Err(_) => declared_by(manifests@),
        },
{
    let direct = list_declared(manifests);
    match parse_all_lockfiles(root, dirs) {
        Ok((entries, paths)) => combine_dependencies(root.dir.as_str(), direct, &entries, &paths),
        Err(_) => direct,
    }
}

/// What manifests declare comes first and is never lost; whatever a lockfile adds is
/// marked as indirect and is not declared at its version.
pub proof fn declared_dependencies_come_first(
    root: Seq<char>,
    direct: Seq<FileDepView>,
    entries: Seq<LockfileEntryView>,
    paths: Seq<Seq<char>>,
)
    ensures
        direct.is_prefix_of(dependencies_of(root, direct, entries, paths)),
        dependencies_of(root, direct, entries, paths).len() <= direct.len() + 1,
        forall|i: int|
            0 <= i < indirect(entries, direct, entries.len() as int).len() ==> (#[trigger] indirect(
                entries,
                direct,
                entries.len() as int,
            )[i]).indirect && !lists(
                direct,
                indirect(entries, direct, entries.len() as int)[i].name,
                indirect(entries, direct, entries.len() as int)[i].version,
            ),
{
    lemma_indirect(entries, direct, entries.len() as int);
}

proof fn lemma_indirect(entries: Seq<LockfileEntryView>, direct: Seq<FileDepView>, n: int)
    ensures
        forall|i: int|
            0 <= i < indirect(entries, direct, n).len() ==> (#[trigger] indirect(
                entries,
                direct,
                n,
            )[i]).indirect && !lists(
                direct,
                indirect(entries, direct, n)[i].name,
                indirect(entries, direct, n)[i].version,
            ),
    decreases n,
{
    if n > 0 {
        lemma_indirect(entries, direct, n - 1);
    }
}

/// Whether a section of a manifest declares a dependency: what its range begins with is the
/// version, and ranges of the workspace do not count.
pub open spec fn declares(
    manifest: JsonView,
    section: Seq<char>,
    name: Seq<char>,
    range: Seq<char>,
) -> bool {
    &&& is_section(section)
    &&& !starts_with(range, "workspace:"@)
    &&& exists|k: int|
        0 <= k < section_of(manifest, section).len() && (#[trigger] section_of(
            manifest,
            section,
        )[k]).0 == name && match section_of(manifest, section)[k].1 {
            JsonView::Str(t) => t == range,
            _ => range == "0.0.0"@,
        }
}

proof fn lemma_declared(section: Seq<char>, entries: Seq<(Seq<char>, JsonView)>, x: DependencyView)
    ensures
        declared(section, entries).contains(x) <==> exists|k: int|
            0 <= k < entries.len() && !starts_with(
                declared_version((#[trigger] entries[k]).1),
                "workspace:"@,
            ) && x == (DependencyView {
                name: entries[k].0,
                version: without_operator(trim(declared_version(entries[k].1))),
                dep_type: section,
                indirect: false,
                resolved_for: None,
            }),
    decreases entries.len(),
{
    if entries.len() > 0 {
        let rest = entries.drop_last();
        lemma_declared(section, rest, x);
        let own = DependencyView {
            name: entries.last().0,
            version: without_operator(trim(declared_version(entries.last().1))),
            dep_type: section,
            indirect: false,
            resolved_for: None,
        };
        lemma_in_pushed(declared(section, rest), own, x);
        assert forall|k: int| 0 <= k < rest.len() implies rest[k] == #[trigger] entries[k] by {}
        assert(entries[entries.len() - 1] == entries.last());
        if declared(section, rest).contains(x) {
            let k = choose|k: int|
                0 <= k < rest.len() && !starts_with(
                    declared_version((#[trigger] rest[k]).1),
                    "workspace:"@,
                ) && x == (DependencyView {
                    name: rest[k].0,
                    version: without_operator(trim(declared_version(rest[k].1))),
                    dep_type: section,
                    indirect: false,
                    resolved_for: None,
                });
            assert(entries[k] == rest[k]);
        }
    }
}

/// Every dependency that a manifest declares is listed, with its section, as a direct one.
pub proof fn every_declared_dependency_is_listed(
    manifest: JsonView,
    section: Seq<char>,
    name: Seq<char>,
    range: Seq<char>,
)
    requires
        declares(manifest, section, name, range),
    ensures
        declared_in(manifest).contains(
            DependencyView {
                name,
                version: without_operator(trim(range)),
                dep_type: section,
                indirect: false,
                resolved_for: None,
            },
        ),
{
    let entries = section_of(manifest, section);
    let k = choose|k: int|
        0 <= k < entries.len() && (#[trigger] entries[k]).0 == name && match entries[k].1 {
            JsonView::Str(t) => t == range,
            _ => range == "0.0.0"@,
        };
    let x = DependencyView {
        name,
        version: without_operator(trim(range)),
        dep_type: section,
        indirect: false,
        resolved_for: None,
    };
    lemma_declared(section, entries, x);
    assert(declared_version(entries[k].1) == range);
    let a = declared("dependencies"@, section_of(manifest, "dependencies"@));
    let b = declared("devDependencies"@, section_of(manifest, "devDependencies"@));
    let c = declared("peerDependencies"@, section_of(manifest, "peerDependencies"@));
    lemma_in_either(a, b, x);
    lemma_in_either(a + b, c, x);
}

/// Every manifest that can be read has its list of dependencies, under its own URI.
pub proof fn every_manifest_is_listed(manifests: Seq<ManifestText>, i: int)
    requires
        0 <= i < manifests.len(),
    ensures
        manifests[i].content matches Ok(text) ==> json_denoted(text@) matches Some(j)
            ==> declared_by(manifests).contains(
            FileDepView { file_uri: "file://"@ + manifests[i].path@, deps: declared_in(j) },
        ),
    decreases manifests.len(),
{
    if let Ok(text) = manifests[i].content {
        if let Some(j) = json_denoted(text@) {
            let x = FileDepView {
                file_uri: "file://"@ + manifests[i].path@,
                deps: declared_in(j),
            };
            let rest = manifests.drop_last();
            let last = manifests.last();
            if let Some(own) = manifest_read(last) {
                lemma_in_pushed(
                    declared_by(rest),
                    FileDepView { file_uri: "file://"@ + last.path@, deps: declared_in(own) },
                    x,
                );
            }
            if i < rest.len() {
                every_manifest_is_listed(rest, i);
                assert(rest[i] == manifests[i]);
            }
        }
    }
}

/// Every package that a lockfile resolves and no manifest declares at its version is listed
/// as an indirect one, and it is resolved for each package that depends on it.
pub proof fn every_indirect_dependency_is_listed(
    entries: Seq<LockfileEntryView>,
    direct: Seq<FileDepView>,
    n: int,
    i: int,
    parent: int,
)
    requires
        0 <= i < n <= entries.len(),
        !lists(direct, entries[i].name, entries[i].version),
        0 <= parent < entries.len(),
    ensures
        exists|k: int|
            0 <= k < indirect(entries, direct, n).len() && {
                let d = #[trigger] indirect(entries, direct, n)[k];
                &&& d.name == entries[i].name
                &&& d.version == entries[i].version
                &&& d.indirect
                &&& entries[parent].dependencies.dom().contains(d.name) ==> (
                d.resolved_for matches Some(t) && contains(
                    t,
                    entries[parent].name + "@"@ + entries[parent].version,
                ))
            },
    decreases n,
{
    let all = indirect(entries, direct, n);
    let before = indirect(entries, direct, n - 1);
    if i < n - 1 {
        every_indirect_dependency_is_listed(entries, direct, n - 1, i, parent);
        assert forall|k: int| 0 <= k < before.len() implies #[trigger] before[k] == all[k] by {}
    } else {
        let parents = dependents_of(entries, entries[i].name);
        lemma_dependents(entries, entries[i].name, parent);
        if entries[parent].dependencies.dom().contains(entries[i].name) {
            let text = entries[parent].name + "@"@ + entries[parent].version;
            let k = choose|k: int| 0 <= k < parents.len() && parents[k] == text;
            joined_texts_hold_their_parts(parents, ", "@, k);
        }
        assert(all[all.len() - 1].name == entries[i].name);
    }
}

proof fn lemma_dependents(v: Seq<LockfileEntryView>, name: Seq<char>, i: int)
    requires
        0 <= i < v.len(),
    ensures
        v[i].dependencies.dom().contains(name) ==> dependents_of(v, name).contains(
            v[i].name + "@"@ + v[i].version,
        ),
    decreases v.len(),
{
    let rest = v.drop_last();
    lemma_in_pushed(
        dependents_of(rest, name),
        v.last().name + "@"@ + v.last().version,
        v[i].name + "@"@ + v[i].version,
    );
    if i < rest.len() {
        lemma_dependents(rest, name, i);
        assert(rest[i] == v[i]);
    }
}

/// What is said of files that could not be parsed names each one and tells why.
pub proof fn parse_errors_are_told(v: Seq<ParseError>, i: int)
    requires
        0 <= i < v.len(),
    ensures
        contains(parse_error_text(v), v[i].file_path@ + ": "@ + v[i].message@),
{
    let all = error_lines(v);
    let front = decimal(v.len()) + " file(s) could not be parsed and were skipped:\n"@;
    joined_texts_hold_their_parts(all, "\n"@, i);
    lemma_stands_in_more(front, join(all, "\n"@), Seq::empty(), all[i]);
    assert(front + join(all, "\n"@) + Seq::<char>::empty() =~= parse_error_text(v));
}

} // verus!
