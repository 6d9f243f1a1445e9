//! Transparency across files: the components that a file re-exports from others.

use crate::ast::Program;
use crate::estree::{document_of, parse_program, program_read};
use crate::js_fix::in_node_modules;
use crate::resolve::is_node_modules_path;
use crate::text_map::{PathMap, TextMap};
use crate::ruleset::texts_view;
use crate::transparency::{
    analyze_source_transparency, merge_reexported, reexport_sources, reexport_views,
    reexports_bring_components_in, reexports_in, transparency_view, transparent_components,
    transparent_in, with_named, with_reexported, ReexportKind, ReexportView, TransparencyMap,
};
use vstd::prelude::*;

verus! {

/// How many re-exports in a row are followed.
pub const MAX_REEXPORT_DEPTH: usize = 20;

/// What is said of a file that was not looked up.
pub const UNKNOWN_FILE: &'static str = "no such file was read";

/// What a source file gives to its importers.
#[derive(Debug)]
pub struct Module {
    /// The transparent components that it defines, or why it cannot be read.
    pub own: Result<TransparencyMap, String>,
    /// The modules that it re-exports from, with the names.
    pub reexports: Vec<(String, ReexportKind)>,
    /// The file that each of those modules is resolved to.
    pub resolved: TextMap<String>,
}

/// Source files by path.
pub type Modules = PathMap<Module>;

/// Transparent components by file.
pub type TransparencyCache = PathMap<TransparencyMap>;

pub type ComponentsView = Map<Seq<char>, Option<Seq<char>>>;

pub ghost struct ModuleView {
    pub own: Result<ComponentsView, Seq<char>>,
    pub reexports: Seq<(Seq<char>, ReexportView)>,
    pub resolved: Map<Seq<char>, Seq<char>>,
}

impl Module {
    pub open spec fn view(&self) -> ModuleView {
        ModuleView {
            own: match self.own {
                Ok(m) => Ok(transparency_view(m)),
                Err(e) => Err(e@),
            },
            reexports: reexport_views(self.reexports@),
            resolved: texts_view(self.resolved),
        }
    }
}

pub open spec fn modules_view(m: Modules) -> Map<Seq<char>, ModuleView> {
    m@.map_values(|x: Module| x@)
}

pub open spec fn cache_view(c: TransparencyCache) -> Map<Seq<char>, ComponentsView> {
    c@.map_values(|m: TransparencyMap| transparency_view(m))
}

/// Whether a module is what a text gives, with its re-exports resolved in this way.
pub open spec fn module_of(
    m: ModuleView,
    content: Result<String, String>,
    resolved: Map<Seq<char>, Seq<char>>,
) -> bool {
    m.resolved == resolved && match content {
        Err(e) => m.own == Err::<ComponentsView, Seq<char>>(e@) && m.reexports.len() == 0,
        Ok(source) => match document_of(source@) {
            Some(j) => exists|p: Program| #[trigger]
                program_read(p, j) && m.own == Ok::<ComponentsView, Seq<char>>(
                    transparent_in(p.body@),
                ) && m.reexports == reexports_in(p.body@),
            None => m.own == Ok::<ComponentsView, Seq<char>>(Map::empty()) && m.reexports.len() == 0,
        },
    }
}

/// Reads a source file as a module.
pub fn read_module(content: &Result<String, String>, resolved: TextMap<String>) -> (r: Module)
    ensures
        module_of(r@, *content, texts_view(resolved)),
{
    match content {
        Err(e) => Module { own: Err(e.clone()), reexports: Vec::new(), resolved },
        Ok(source) => match parse_program(source.as_str()) {
            Some(p) => Module {
                own: Ok(transparent_components(&p)),
                reexports: reexport_sources(&p),
                resolved,
            },
            None => {
                let none: TransparencyMap = TextMap::new();
                assert(transparency_view(none) =~= Map::<Seq<char>, Option<Seq<char>>>::empty());
                Module { own: Ok(none), reexports: Vec::new(), resolved }
            },
        },
    }
}

/// The transparent components that a source file defines.
pub fn analyze_file_transparency(content: &Result<String, String>) -> (r: Result<TransparencyMap, String>)
    ensures
        match (*content, r) {
            (Err(e), Err(m)) => m@ == e@,
            (Ok(source), Ok(m)) => match document_of(source@) {
                Some(j) => exists|p: Program| #[trigger]
                    program_read(p, j) && transparency_view(m) == transparent_in(p.body@),
                None => transparency_view(m) == Map::<Seq<char>, Option<Seq<char>>>::empty(),
            },
            _ => false,
        },
{
    match content {
        Err(e) => Err(e.clone()),
        Ok(source) => analyze_source_transparency(source.as_str()),
    }
}

// ── Following re-exports ────────────────────────────────────────────────

/// The components of a file with those that its first `n` re-exports add, and the
/// cache after that. Files in installed packages and modules that are not resolved add
/// nothing, nor do files that cannot be read.
pub open spec fn followed(
    modules: Map<Seq<char>, ModuleView>,
    m: ModuleView,
    n: int,
    cache: Map<Seq<char>, ComponentsView>,
    depth: nat,
) -> (ComponentsView, Map<Seq<char>, ComponentsView>)
    decreases MAX_REEXPORT_DEPTH + 1 - depth, 0nat, n,
{
    if n <= 0 || depth > MAX_REEXPORT_DEPTH {
        (m.own->Ok_0, cache)
    } else {
        let (found, before) = followed(modules, m, n - 1, cache, depth);
        let (specifier, kind) = m.reexports[n - 1];
        if m.resolved.dom().contains(specifier) && !in_node_modules(m.resolved[specifier]) {
            let (from, after) = walked(modules, m.resolved[specifier], before, depth + 1);
            let components = match from {
                Ok(c) => c,
                Err(_) => Map::empty(),
            };
            (with_reexported(found, components, kind), after)
        } else {
            (found, before)
        }
    }
}

/// The components that a file gives, and the cache after that. A file that is in the
/// cache gives what is there. While a file is analysed it counts as giving nothing, so
/// that files may re-export from each other.
pub open spec fn walked(
    modules: Map<Seq<char>, ModuleView>,
    path: Seq<char>,
    cache: Map<Seq<char>, ComponentsView>,
    depth: nat,
) -> (Result<ComponentsView, Seq<char>>, Map<Seq<char>, ComponentsView>)
    decreases MAX_REEXPORT_DEPTH + 1 - depth, 1nat, 0int,
{
    let marked = cache.insert(path, Map::empty());
    if cache.dom().contains(path) {
        (Ok(cache[path]), cache)
    } else if depth > MAX_REEXPORT_DEPTH {
        (Ok(Map::empty()), cache)
    } else if !modules.dom().contains(path) {
        (Err(UNKNOWN_FILE@), marked)
    } else {
        let m = modules[path];
        match m.own {
            Err(e) => (Err(e), marked),
            Ok(_) => {
                let (found, after) = followed(modules, m, m.reexports.len() as int, marked, depth);
                (Ok(found), after.insert(path, found))
            },
        }
    }
}

/// A copy of a map of components.
pub fn copy_components(m: &TransparencyMap) -> (r: TransparencyMap)
    ensures
        transparency_view(r) == transparency_view(*m),
{
    let mut r: TransparencyMap = TextMap::new();
    merge_reexported(&mut r, m, &ReexportKind::All);
    assert(transparency_view(r) =~= transparency_view(*m));
    r
}

/// The components that a file gives, with those that it re-exports. The cache holds
/// what is already known of files, and learns what this analysis finds; `depth` is how
/// many re-exports led to the file.
pub fn analyze_file_transparency_with_resolver(
    file_path: &str,
    modules: &Modules,
    cache: &mut TransparencyCache,
    depth: usize,
) -> (r: Result<TransparencyMap, String>)
    ensures
        (match r {
            Ok(m) => Ok::<ComponentsView, Seq<char>>(transparency_view(m)),
            Err(e) => Err(e@),
        }) == walked(modules_view(*modules), file_path@, cache_view(*old(cache)), depth as nat).0,
        cache_view(*final(cache)) == walked(
            modules_view(*modules),
            file_path@,
            cache_view(*old(cache)),
            depth as nat,
        ).1,
    decreases MAX_REEXPORT_DEPTH + 1 - depth,
{
    let ghost g = modules_view(*modules);
    let ghost before = cache_view(*cache);
    if let Some(known) = cache.get(file_path) {
        return Ok(copy_components(known));
    }
    if depth > MAX_REEXPORT_DEPTH {
        let none: TransparencyMap = TextMap::new();
        assert(transparency_view(none) =~= Map::<Seq<char>, Option<Seq<char>>>::empty());
        return Ok(none);
    }
    let marker: TransparencyMap = TextMap::new();
    assert(transparency_view(marker) =~= Map::<Seq<char>, Option<Seq<char>>>::empty());
    cache.insert(file_path.to_owned(), marker);
    let ghost marked = before.insert(file_path@, Map::<Seq<char>, Option<Seq<char>>>::empty());
    assert(cache_view(*cache) =~= marked);
    let module = match modules.get(file_path) {
        Some(m) => m,
        None => {
            return Err(UNKNOWN_FILE.to_owned());
        },
    };
    let ghost m = module@;
    assert(g[file_path@] == m);
    let mut found = match &module.own {
        Ok(own) => copy_components(own),
        Err(e) => {
            return Err(e.clone());
        },
    };
    let mut i: usize = 0;
    while i < module.reexports.len()
        invariant
            i <= module.reexports@.len(),
            depth <= MAX_REEXPORT_DEPTH,
            g == modules_view(*modules),
            m == module@,
            m.reexports.len() == module.reexports@.len(),
            (transparency_view(found), cache_view(*cache)) == followed(
                g,
                m,
                i as int,
                marked,
                depth as nat,
            ),
        decreases module.reexports@.len() - i,
    {
        let reexport = &module.reexports[i];
        let specifier = reexport.0.as_str();
        assert(m.reexports[i as int] == (specifier@, reexport.1@));
        if let Some(target) = module.resolved.get(specifier) {
            assert(m.resolved[specifier@] == target@);
            if !is_node_modules_path(target.as_str()) {
                let from = match analyze_file_transparency_with_resolver(
                    target.as_str(),
                    modules,
                    cache,
                    depth + 1,
                ) {
                    Ok(c) => c,
                    Err(_) => {
                        let none: TransparencyMap = TextMap::new();
                        assert(transparency_view(none) =~= Map::<Seq<char>, Option<Seq<char>>>::empty());
                        none
                    },
                };
                merge_reexported(&mut found, &from, &reexport.1);
            }
        }
        i = i + 1;
    }
    let ghost after = cache_view(*cache);
    let kept = copy_components(&found);
    cache.insert(file_path.to_owned(), kept);
    assert(cache_view(*cache) =~= after.insert(file_path@, transparency_view(found)));
    Ok(found)
}

/// What an analysis finds stays in the cache: a file that is known before is known
/// after, and so is a file that was analysed.
pub proof fn cache_only_grows(
    modules: Map<Seq<char>, ModuleView>,
    path: Seq<char>,
    cache: Map<Seq<char>, ComponentsView>,
    depth: nat,
)
    ensures
        cache.dom().subset_of(walked(modules, path, cache, depth).1.dom()),
        depth <= MAX_REEXPORT_DEPTH ==> walked(modules, path, cache, depth).1.dom().contains(path),
    decreases MAX_REEXPORT_DEPTH + 1 - depth, 1nat, 0int,
{
    if !cache.dom().contains(path) && depth <= MAX_REEXPORT_DEPTH && modules.dom().contains(path) {
        let marked = cache.insert(path, Map::empty());
        lemma_followed_grows(
            modules,
            modules[path],
            modules[path].reexports.len() as int,
            marked,
            depth,
        );
    }
}

proof fn lemma_followed_grows(
    modules: Map<Seq<char>, ModuleView>,
    m: ModuleView,
    n: int,
    cache: Map<Seq<char>, ComponentsView>,
    depth: nat,
)
    ensures
        cache.dom().subset_of(followed(modules, m, n, cache, depth).1.dom()),
        m.own->Ok_0.dom().subset_of(followed(modules, m, n, cache, depth).0.dom()),
    decreases MAX_REEXPORT_DEPTH + 1 - depth, 0nat, n,
{
    if n > 0 && depth <= MAX_REEXPORT_DEPTH {
        lemma_followed_grows(modules, m, n - 1, cache, depth);
        let (found, before) = followed(modules, m, n - 1, cache, depth);
        let (specifier, kind) = m.reexports[n - 1];
        if m.resolved.dom().contains(specifier) && !in_node_modules(m.resolved[specifier]) {
            cache_only_grows(modules, m.resolved[specifier], before, depth + 1);
            let (from, _) = walked(modules, m.resolved[specifier], before, depth + 1);
            let components = match from {
                Ok(c) => c,
                Err(_) => Map::empty(),
            };
            if let ReexportView::Named(names) = kind {
                lemma_named_grows(found, components, names, names.len() as int);
            }
        }
    }
}

proof fn lemma_named_grows(m: ComponentsView, from: ComponentsView, names: Seq<Seq<char>>, n: int)
    ensures
        m.dom().subset_of(with_named(m, from, names, n).dom()),
    decreases n,
{
    if n > 0 {
        lemma_named_grows(m, from, names, n - 1);
    }
}

/// The components that a file defines are among those that it gives.
pub proof fn own_components_are_kept(
    modules: Map<Seq<char>, ModuleView>,
    path: Seq<char>,
    cache: Map<Seq<char>, ComponentsView>,
    depth: nat,
)
    requires
        !cache.dom().contains(path),
        depth <= MAX_REEXPORT_DEPTH,
        modules.dom().contains(path),
        modules[path].own is Ok,
    ensures
        walked(modules, path, cache, depth).0 matches Ok(found)
            && modules[path].own->Ok_0.dom().subset_of(found.dom()),
{
    lemma_followed_grows(
        modules,
        modules[path],
        modules[path].reexports.len() as int,
        cache.insert(path, Map::empty()),
        depth,
    );
}

/// What a re-export brings in is found: each component that the file behind it gives, where
/// the re-export is of everything or names it, unless that file lies in an installed package.
pub proof fn reexports_are_followed(
    modules: Map<Seq<char>, ModuleView>,
    m: ModuleView,
    n: int,
    cache: Map<Seq<char>, ComponentsView>,
    depth: nat,
    k: int,
    name: Seq<char>,
)
    requires
        0 <= k < n <= m.reexports.len(),
        depth <= MAX_REEXPORT_DEPTH,
        m.resolved.dom().contains(m.reexports[k].0),
        !in_node_modules(m.resolved[m.reexports[k].0]),
        m.reexports[k].1 matches ReexportView::Named(names) ==> names.contains(name),
        walked(
            modules,
            m.resolved[m.reexports[k].0],
            followed(modules, m, k, cache, depth).1,
            depth + 1,
        ).0 matches Ok(found) && found.dom().contains(name),
    ensures
        followed(modules, m, n, cache, depth).0.dom().contains(name),
    decreases n,
{
    let (found, before) = followed(modules, m, n - 1, cache, depth);
    let (specifier, kind) = m.reexports[n - 1];
    if m.resolved.dom().contains(specifier) && !in_node_modules(m.resolved[specifier]) {
        let (from, after) = walked(modules, m.resolved[specifier], before, depth + 1);
        let components = match from {
            Ok(c) => c,
            Err(_) => Map::empty(),
        };
        reexports_bring_components_in(found, components, kind, name);
    }
    if k < n - 1 {
        reexports_are_followed(modules, m, n - 1, cache, depth, k, name);
    }
}

/// A file that was not analysed before gives what its re-exports add to its own components,
/// and that is remembered.
pub proof fn analysed_files_are_remembered(
    modules: Map<Seq<char>, ModuleView>,
    path: Seq<char>,
    cache: Map<Seq<char>, ComponentsView>,
    depth: nat,
)
    requires
        depth <= MAX_REEXPORT_DEPTH,
        modules.dom().contains(path),
        modules[path].own is Ok,
    ensures
        walked(modules, path, cache, depth).0 matches Ok(found) && walked(
            modules,
            path,
            cache,
            depth,
        ).1.dom().contains(path) && walked(modules, path, cache, depth).1[path] == found,
        cache.dom().contains(path) ==> walked(modules, path, cache, depth).0 == Ok::<
            ComponentsView,
            Seq<char>,
        >(cache[path]),
{
}

} // verus!
