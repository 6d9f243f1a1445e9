//! Import paths: which files an import may stand for, and which `tsconfig.json` covers
//! a source file.

use crate::engine::{join_path, joined_path};
use crate::js_fix::{in_node_modules, path_in_node_modules};
use crate::sorting::{
    in_order, in_stable_order, key_values, stable_order, stable_order_is_sorted, stable_sort,
};
use crate::text::{
    cat3, chars_of, ends_with, join, joined_texts_are_split_again, lemma_in_pushed,
    lemma_join_first, lemma_texts_push, occurs_at, opt_text, rfind_chars, rfind_from, same_text,
    split, split_text, starts_with, starts_with_text, string_of, texts,
};
use crate::text_map::PathMap;
use vstd::prelude::*;

verus! {

// ── Paths ───────────────────────────────────────────────────────────────

/// A path without the separators and single dots at its end.
pub open spec fn tidy_end(p: Seq<char>) -> Seq<char>
    decreases p.len(),
{
    if p.len() > 1 && (p.last() == '/' || (p.last() == '.' && p[p.len() - 2] == '/')) {
        tidy_end(p.drop_last())
    } else {
        p
    }
}

/// The position of the last separator.
pub open spec fn last_slash(p: Seq<char>) -> Option<int> {
    rfind_from(p, "/"@, p.len() as int)
}

/// The directory that a path lies in: none for the root and for the empty path.
pub open spec fn parent_of(path: Seq<char>) -> Option<Seq<char>> {
    let t = tidy_end(path);
    if t.len() == 0 || t == "/"@ {
        None
    } else {
        match last_slash(t) {
            Some(i) => if i == 0 {
                Some("/"@)
            } else {
                Some(tidy_end(t.take(i)))
            },
            None => Some(Seq::empty()),
        }
    }
}

/// Where the name of the file begins in a tidy path.
pub open spec fn name_start(t: Seq<char>) -> int {
    match last_slash(t) {
        Some(i) => i + 1,
        None => 0,
    }
}

/// The path with another extension in place of the one it has, if any. A path that
/// ends in no name stays as it is.
pub open spec fn with_extension(path: Seq<char>, extension: Seq<char>) -> Seq<char> {
    let t = tidy_end(path);
    let name = t.skip(name_start(t));
    if name.len() == 0 || name == ".."@ || t == "."@ {
        path
    } else {
        match rfind_from(name, "."@, name.len() as int) {
            Some(dot) => if dot > 0 {
                t.take(name_start(t) + dot) + "."@ + extension
            } else {
                t + "."@ + extension
            },
            None => t + "."@ + extension,
        }
    }
}

pub(crate) fn tidy(p: &str) -> (r: Vec<char>)
    ensures
        r@ == tidy_end(p@),
{
    let mut c = chars_of(p);
    loop
        invariant
            tidy_end(p@) == tidy_end(c@),
        decreases c@.len(),
    {
        let n: usize = c.len();
        if n > 1 && (c[n - 1] == '/' || (c[n - 1] == '.' && c[n - 2] == '/')) {
            let ghost before = c@;
            c.pop();
            assert(c@ =~= before.drop_last());
        } else {
            return c;
        }
    }
}

pub(crate) fn find_last_slash(p: &Vec<char>) -> (r: Option<usize>)
    ensures
        match r {
            Some(i) => last_slash(p@) == Some(i as int) && i < p@.len(),
            None => last_slash(p@) is None,
        },
{
    let slash = chars_of("/");
    proof {
        reveal_strlit("/");
    }
    rfind_chars(p.as_slice(), slash.as_slice())
}

fn head(p: &Vec<char>, n: usize) -> (r: String)
    requires
        n <= p@.len(),
    ensures
        r@ == p@.take(n as int),
{
    let s = vstd::slice::slice_subrange(p.as_slice(), 0, n);
    assert(s@ =~= p@.take(n as int));
    string_of(s)
}

/// The directory that a path lies in.
pub fn parent_dir(path: &str) -> (r: Option<String>)
    ensures
        opt_text(r) == parent_of(path@),
{
    let t = tidy(path);
    if t.len() == 0 {
        return None;
    }
    let text = string_of(t.as_slice());
    if same_text(text.as_str(), "/") {
        return None;
    }
    match find_last_slash(&t) {
        Some(i) => if i == 0 {
            Some("/".to_owned())
        } else {
            let h = head(&t, i);
            let rest = tidy(h.as_str());
            Some(string_of(rest.as_slice()))
        },
        None => {
            let s = String::new();
            assert(s@ =~= Seq::<char>::empty());
            Some(s)
        },
    }
}

/// The path with another extension.
pub fn replace_extension(path: &str, extension: &str) -> (r: String)
    ensures
        r@ == with_extension(path@, extension@),
{
    let t = tidy(path);
    let total: usize = t.len();
    let start: usize = match find_last_slash(&t) {
        Some(i) => i + 1,
        None => 0,
    };
    let name = vstd::slice::slice_subrange(t.as_slice(), start, total);
    assert(name@ =~= t@.skip(start as int));
    let name_text = string_of(name);
    let text = string_of(t.as_slice());
    if name.len() == 0 || same_text(name_text.as_str(), "..") || same_text(text.as_str(), ".") {
        return path.to_owned();
    }
    let dot = chars_of(".");
    match rfind_chars(name, dot.as_slice()) {
        Some(d) => if d > 0 {
            let stem = head(&t, start + d);
            cat3(stem.as_str(), ".", extension)
        } else {
            cat3(text.as_str(), ".", extension)
        },
        None => cat3(text.as_str(), ".", extension),
    }
}

/// Whether a resolved path lies in an installed package.
pub fn is_node_modules_path(path: &str) -> (r: bool)
    ensures
        r == in_node_modules(path@),
{
    path_in_node_modules(path)
}

// ── Relative imports ────────────────────────────────────────────────────

/// What stands at a path.
#[derive(Debug)]
pub enum PathEntry {
    /// A file, and its absolute path without links.
    File(String),
    Directory,
}

/// What stands at some paths of a file system.
pub type Disk = PathMap<PathEntry>;

/// The file at a path by its absolute path, if there is one.
pub open spec fn file_at(disk: Map<Seq<char>, PathEntry>, path: Seq<char>) -> Option<Seq<char>> {
    if disk.dom().contains(path) {
        match disk[path] {
            PathEntry::File(p) => Some(p@),
            PathEntry::Directory => None,
        }
    } else {
        None
    }
}

pub open spec fn is_directory(disk: Map<Seq<char>, PathEntry>, path: Seq<char>) -> bool {
    disk.dom().contains(path) && disk[path] is Directory
}

pub open spec fn is_relative(module_source: Seq<char>) -> bool {
    starts_with(module_source, "./"@) || starts_with(module_source, "../"@)
}

/// The paths that an import may stand for, in order: the path itself, the path with
/// each extension, and the index files below it.
pub open spec fn candidates(base: Seq<char>) -> Seq<Seq<char>> {
    seq![
        base,
        with_extension(base, "tsx"@),
        with_extension(base, "ts"@),
        with_extension(base, "jsx"@),
        with_extension(base, "js"@),
        joined_path(base, "index.tsx"@),
        joined_path(base, "index.ts"@),
        joined_path(base, "index.jsx"@),
        joined_path(base, "index.js"@),
    ]
}

/// The first file among candidates from `i` on. Index files count only in a directory.
pub open spec fn first_file(
    disk: Map<Seq<char>, PathEntry>,
    base: Seq<char>,
    i: int,
) -> Option<Seq<char>>
    decreases candidates(base).len() - i,
{
    if i < 0 || i >= candidates(base).len() {
        None
    } else if i >= 5 && !is_directory(disk, base) {
        None
    } else {
        match file_at(disk, candidates(base)[i]) {
            Some(p) => Some(p),
            None => first_file(disk, base, i + 1),
        }
    }
}

/// What a relative import in a file stands for.
pub open spec fn resolved(
    importing_file: Seq<char>,
    module_source: Seq<char>,
    disk: Map<Seq<char>, PathEntry>,
) -> Option<Seq<char>> {
    if !is_relative(module_source) {
        None
    } else {
        match parent_of(importing_file) {
            Some(dir) => first_file(disk, joined_path(dir, module_source), 0),
            None => None,
        }
    }
}

fn find_file(disk: &Disk, path: &str) -> (r: Option<String>)
    ensures
        opt_text(r) == file_at(disk@, path@),
{
    match disk.get(path) {
        Some(PathEntry::File(p)) => Some(p.clone()),
        Some(PathEntry::Directory) => None,
        None => None,
    }
}

fn list_candidates(base: &str) -> (r: Vec<String>)
    ensures
        texts(r@) == candidates(base@),
{
    let mut out: Vec<String> = Vec::new();
    out.push(base.to_owned());
    out.push(replace_extension(base, "tsx"));
    out.push(replace_extension(base, "ts"));
    out.push(replace_extension(base, "jsx"));
    out.push(replace_extension(base, "js"));
    out.push(join_path(base, "index.tsx"));
    out.push(join_path(base, "index.ts"));
    out.push(join_path(base, "index.jsx"));
    out.push(join_path(base, "index.js"));
    assert(texts(out@) =~= candidates(base@));
    out
}

/// The paths to look at for an import: none where it is not relative.
pub fn import_candidates(importing_file: &str, module_source: &str) -> (r: Vec<String>)
    ensures
        texts(r@) == (if is_relative(module_source@) && parent_of(importing_file@) is Some {
            candidates(joined_path(parent_of(importing_file@)->0, module_source@))
        } else {
            Seq::empty()
        }),
{
    let none: Vec<String> = Vec::new();
    assert(texts(none@) =~= Seq::<Seq<char>>::empty());
    if !starts_with_text(module_source, "./") && !starts_with_text(module_source, "../") {
        return none;
    }
    match parent_dir(importing_file) {
        Some(dir) => {
            let base = join_path(dir.as_str(), module_source);
            list_candidates(base.as_str())
        },
        None => none,
    }
}

/// Resolves a relative import to a file, given what stands at the paths that it may
/// stand for. Other imports are not resolved.
pub fn resolve_import(importing_file: &str, module_source: &str, disk: &Disk) -> (r: Option<String>)
    ensures
        opt_text(r) == resolved(importing_file@, module_source@, disk@),
{
    if !starts_with_text(module_source, "./") && !starts_with_text(module_source, "../") {
        return None;
    }
    let dir = match parent_dir(importing_file) {
        Some(d) => d,
        None => {
            return None;
        },
    };
    let base = join_path(dir.as_str(), module_source);
    let paths = list_candidates(base.as_str());
    let directory: bool = match disk.get(base.as_str()) {
        Some(PathEntry::Directory) => true,
        Some(PathEntry::File(_)) => false,
        None => false,
    };
    assert(texts(paths@).len() == 9);
    let mut i: usize = 0;
    while i < 9
        invariant
            i <= 9,
            paths@.len() == 9,
            texts(paths@) == candidates(base@),
            directory == is_directory(disk@, base@),
            resolved(importing_file@, module_source@, disk@) == first_file(disk@, base@, i as int),
        decreases 9 - i,
    {
        if i >= 5 && !directory {
            return None;
        }
        assert(texts(paths@)[i as int] == paths@[i as int]@);
        if let Some(found) = find_file(disk, paths[i].as_str()) {
            return Some(found);
        }
        i = i + 1;
    }
    None
}

/// Packages are never resolved to a file.
pub proof fn packages_are_not_resolved(
    importing_file: Seq<char>,
    module_source: Seq<char>,
    disk: Map<Seq<char>, PathEntry>,
)
    requires
        !is_relative(module_source),
    ensures
        resolved(importing_file, module_source, disk) is None,
{
}

/// The file that an import leads to: the one that a resolver found, else the one that it
/// stands for as a relative import.
pub open spec fn import_target(
    importing_file: Seq<char>,
    module_source: Seq<char>,
    found: Option<Seq<char>>,
    disk: Map<Seq<char>, PathEntry>,
) -> Option<Seq<char>> {
    match found {
        Some(p) => Some(p),
        None => resolved(importing_file, module_source, disk),
    }
}

/// A file that an import leads to.
#[derive(Debug)]
pub struct ImportTarget {
    pub path: String,
    /// Whether its own imports are looked at too: not in installed packages.
    pub followed: bool,
}

/// Chooses the file that an import leads to, given what a resolver found.
pub fn choose_target(
    importing_file: &str,
    module_source: &str,
    found: Option<String>,
    disk: &Disk,
) -> (r: Option<ImportTarget>)
    ensures
        match (r, import_target(importing_file@, module_source@, opt_text(found), disk@)) {
            (Some(t), Some(p)) => t.path@ == p && t.followed == !in_node_modules(p),
            (None, None) => true,
            _ => false,
        },
{
    let target = match found {
        Some(p) => Some(p),
        None => resolve_import(importing_file, module_source, disk),
    };
    match target {
        Some(path) => {
            let followed = !is_node_modules_path(path.as_str());
            Some(ImportTarget { path, followed })
        },
        None => None,
    }
}

// ── Nearest tsconfig ────────────────────────────────────────────────────

proof fn lemma_tidy_shorter(p: Seq<char>)
    ensures
        tidy_end(p).len() <= p.len(),
    decreases p.len(),
{
    if p.len() > 1 && (p.last() == '/' || (p.last() == '.' && p[p.len() - 2] == '/')) {
        lemma_tidy_shorter(p.drop_last());
    }
}

proof fn lemma_rfind_bound(s: Seq<char>, needle: Seq<char>, upto: int)
    ensures
        rfind_from(s, needle, upto) matches Some(p) ==> 0 <= p <= upto && occurs_at(s, needle, p),
    decreases upto + 1,
{
    if upto >= 0 && !occurs_at(s, needle, upto) {
        lemma_rfind_bound(s, needle, upto - 1);
    }
}

proof fn lemma_parent_shorter(path: Seq<char>)
    ensures
        parent_of(path) matches Some(d) ==> d.len() < path.len(),
{
    reveal_strlit("/");
    let t = tidy_end(path);
    lemma_tidy_shorter(path);
    lemma_rfind_bound(t, "/"@, t.len() as int);
    match last_slash(t) {
        Some(i) => {
            lemma_tidy_shorter(t.take(i));
            if i == 0 && t.len() == 1 {
                assert(t.subrange(0, 1) =~= t);
                assert(t =~= "/"@);
            }
        },
        None => {},
    }
}

/// The directories from `dir` up to the root.
pub open spec fn ancestors(dir: Seq<char>) -> Seq<Seq<char>>
    decreases dir.len(),
{
    match parent_of(dir) {
        Some(parent) => if parent.len() < dir.len() {
            seq![dir] + ancestors(parent)
        } else {
            seq![dir]
        },
        None => seq![dir],
    }
}

/// The `tsconfig.json` of the first directory from `i` on that has one.
pub open spec fn nearest_config(
    dirs: Seq<Seq<char>>,
    disk: Map<Seq<char>, PathEntry>,
    i: int,
) -> Option<Seq<char>>
    decreases dirs.len() - i,
{
    if i < 0 || i >= dirs.len() {
        None
    } else if file_at(disk, joined_path(dirs[i], "tsconfig.json"@)) is Some {
        Some(joined_path(dirs[i], "tsconfig.json"@))
    } else {
        nearest_config(dirs, disk, i + 1)
    }
}

/// The directories from `start_dir` up to the root.
pub fn list_ancestors(start_dir: &str) -> (r: Vec<String>)
    ensures
        texts(r@) == ancestors(start_dir@),
{
    let mut out: Vec<String> = Vec::new();
    let mut dir = start_dir.to_owned();
    assert(texts(out@) + ancestors(dir@) =~= ancestors(start_dir@));
    loop
        invariant
            texts(out@) + ancestors(dir@) == ancestors(start_dir@),
        decreases dir@.len(),
    {
        proof {
            lemma_parent_shorter(dir@);
        }
        let parent = parent_dir(dir.as_str());
        let ghost here = dir@;
        proof {
            lemma_texts_push(out@, dir);
        }
        out.push(dir);
        match parent {
            Some(p) => {
                dir = p;
                assert(texts(out@) + ancestors(dir@) =~= ancestors(start_dir@));
            },
            None => {
                assert(texts(out@) =~= ancestors(start_dir@));
                return out;
            },
        }
    }
}

/// The nearest `tsconfig.json` from a directory upwards, given which there are.
pub fn find_tsconfig(start_dir: &str, disk: &Disk) -> (r: Option<String>)
    ensures
        opt_text(r) == nearest_config(ancestors(start_dir@), disk@, 0),
{
    let dirs = list_ancestors(start_dir);
    let ghost t = ancestors(start_dir@);
    let mut i: usize = 0;
    while i < dirs.len()
        invariant
            i <= dirs@.len(),
            t == texts(dirs@),
            nearest_config(t, disk@, 0) == nearest_config(t, disk@, i as int),
            t == ancestors(start_dir@),
        decreases dirs@.len() - i,
    {
        assert(t[i as int] == dirs@[i as int]@);
        let candidate = join_path(dirs[i].as_str(), "tsconfig.json");
        if find_file(disk, candidate.as_str()).is_some() {
            return Some(candidate);
        }
        i = i + 1;
    }
    None
}

// ── All tsconfigs of a project ──────────────────────────────────────────

/// Whether a directory of this name is not searched.
pub open spec fn skips_name(name: Seq<char>) -> bool {
    name == "node_modules"@ || name == ".git"@ || name == "dist"@ || name == "build"@ || name
        == "target"@
}

pub fn is_skipped_dir(name: &str) -> (r: bool)
    ensures
        r == skips_name(name@),
{
    same_text(name, "node_modules") || same_text(name, ".git") || same_text(name, "dist")
        || same_text(name, "build") || same_text(name, "target")
}

/// A directory below the one that is searched.
#[derive(Debug)]
pub struct SubDirectory {
    pub path: String,
    pub name: String,
    /// Whether it holds a `tsconfig.json`.
    pub has_tsconfig: bool,
}

/// A search for all `tsconfig.json` files of a project, by breadth.
#[derive(Debug)]
pub struct TsconfigSearch {
    /// What was found, in order.
    pub found: Vec<String>,
    /// The directories to search, with their depth.
    pub queue: Vec<(String, usize)>,
    pub max_depth: usize,
}

#[verifier::ext_equal]
pub ghost struct SearchView {
    pub found: Seq<Seq<char>>,
    pub queue: Seq<(Seq<char>, nat)>,
    pub max_depth: nat,
}

pub open spec fn queue_view(q: Seq<(String, usize)>) -> Seq<(Seq<char>, nat)> {
    Seq::new(q.len(), |i: int| (q[i].0@, q[i].1 as nat))
}

impl TsconfigSearch {
    pub open spec fn view(&self) -> SearchView {
        SearchView {
            found: texts(self.found@),
            queue: queue_view(self.queue@),
            max_depth: self.max_depth as nat,
        }
    }
}

impl SearchView {
    /// This search with one more directory: its `tsconfig.json` is found, and it is
    /// searched in its turn unless it lies too deep.
    pub open spec fn with_dir(self, dir: SubDirectory, depth: nat) -> SearchView {
        if skips_name(dir.name@) {
            self
        } else {
            SearchView {
                found: if dir.has_tsconfig {
                    self.found.push(joined_path(dir.path@, "tsconfig.json"@))
                } else {
                    self.found
                },
                queue: if depth < self.max_depth {
                    self.queue.push((dir.path@, depth))
                } else {
                    self.queue
                },
                ..self
            }
        }
    }

    pub open spec fn with_dirs(self, dirs: Seq<SubDirectory>, depth: nat) -> SearchView
        decreases dirs.len(),
    {
        if dirs.len() == 0 {
            self
        } else {
            self.with_dirs(dirs.drop_last(), depth).with_dir(dirs.last(), depth)
        }
    }

    /// Every directory that waits lies within the depth of the search.
    pub open spec fn wf(self) -> bool {
        forall|i: int| 0 <= i < self.queue.len() ==> (#[trigger] self.queue[i]).1 < self.max_depth
    }
}

impl TsconfigSearch {
    /// Begins a search at the root of a project.
    pub fn start(root: &str, has_tsconfig: bool, max_depth: usize) -> (r: TsconfigSearch)
        ensures
            r@.wf(),
            r@ == (SearchView {
                found: if has_tsconfig {
                    seq![joined_path(root@, "tsconfig.json"@)]
                } else {
                    Seq::empty()
                },
                queue: if max_depth > 0 {
                    seq![(root@, 0nat)]
                } else {
                    Seq::empty()
                },
                max_depth: max_depth as nat,
            }),
    {
        let mut found: Vec<String> = Vec::new();
        if has_tsconfig {
            found.push(join_path(root, "tsconfig.json"));
        }
        let mut queue: Vec<(String, usize)> = Vec::new();
        if max_depth > 0 {
            queue.push((root.to_owned(), 0));
        }
        let r = TsconfigSearch { found, queue, max_depth };
        assert(r@.found =~= if has_tsconfig {
            seq![joined_path(root@, "tsconfig.json"@)]
        } else {
            Seq::empty()
        });
        assert(r@.queue =~= if max_depth > 0 {
            seq![(root@, 0nat)]
        } else {
            Seq::empty()
        });
        r
    }

    /// Takes the next directory to search, with its depth.
    pub fn next(&mut self) -> (r: Option<(String, usize)>)
        requires
            old(self)@.wf(),
        ensures
            final(self)@.wf(),
            match r {
                Some(d) => old(self)@.queue.len() > 0 && (d.0@, d.1 as nat) == old(self)@.queue[0]
                    && final(self)@ == (SearchView {
                    queue: old(self)@.queue.skip(1),
                    ..old(self)@
                }),
                None => old(self)@.queue.len() == 0 && final(self)@ == old(self)@,
            },
    {
        let ghost before = self@;
        if self.queue.len() == 0 {
            return None;
        }
        let d = self.queue.remove(0);
        assert(self@.queue =~= before.queue.skip(1));
        assert(self@ =~= (SearchView { queue: before.queue.skip(1), ..before }));
        assert forall|i: int| 0 <= i < self@.queue.len() implies (#[trigger] self@.queue[i]).1
            < self@.max_depth by {
            assert(before.queue[i + 1].1 < before.max_depth);
        }
        assert((d.0@, d.1 as nat) == before.queue[0]);
        Some(d)
    }

    /// Takes note of the directories in a directory at some depth.
    pub fn visit(&mut self, dirs: &Vec<SubDirectory>, depth: usize)
        requires
            old(self)@.wf(),
            depth < old(self)@.max_depth,
        ensures
            final(self)@.wf(),
            final(self)@ == old(self)@.with_dirs(dirs@, (depth + 1) as nat),
    {
        let ghost before = self@;
        let mut i: usize = 0;
        assert(dirs@.take(0) =~= Seq::<SubDirectory>::empty());
        while i < dirs.len()
            invariant
                i <= dirs@.len(),
                self@.wf(),
                self@.max_depth == before.max_depth,
                depth < before.max_depth,
                self@ == before.with_dirs(dirs@.take(i as int), (depth + 1) as nat),
            decreases dirs@.len() - i,
        {
            assert(dirs@.take(i + 1).drop_last() =~= dirs@.take(i as int));
            let dir = &dirs[i];
            let ghost prior = self@;
            if !is_skipped_dir(dir.name.as_str()) {
                if dir.has_tsconfig {
                    let path = join_path(dir.path.as_str(), "tsconfig.json");
                    proof {
                        lemma_texts_push(self.found@, path);
                    }
                    self.found.push(path);
                }
                if depth + 1 < self.max_depth {
                    self.queue.push((dir.path.clone(), depth + 1));
                    assert(self@.queue =~= prior.queue.push((dir.path@, (depth + 1) as nat)));
                }
            }
            assert(self@ =~= prior.with_dir(*dir, (depth + 1) as nat));
            i = i + 1;
        }
        assert(dirs@.take(dirs@.len() as int) =~= dirs@);
    }
}

// ── Routing ─────────────────────────────────────────────────────────────

/// The names among the pieces of a path from `i` on; only a dot at the very start
/// counts as one.
pub open spec fn names_from(pieces: Seq<Seq<char>>, i: int) -> Seq<Seq<char>>
    decreases pieces.len() - i,
{
    if i < 0 || i >= pieces.len() {
        Seq::empty()
    } else if pieces[i].len() == 0 || (pieces[i] == "."@ && i > 0) {
        names_from(pieces, i + 1)
    } else {
        seq![pieces[i]] + names_from(pieces, i + 1)
    }
}

/// The components of a path: the root, if it is absolute, and its names.
pub open spec fn components(path: Seq<char>) -> Seq<Seq<char>> {
    if starts_with(path, "/"@) {
        seq!["/"@] + names_from(split(path, '/'), 0)
    } else {
        names_from(split(path, '/'), 0)
    }
}

/// Whether a path lies in a directory.
pub open spec fn lies_in(path: Seq<char>, dir: Seq<char>) -> bool {
    components(dir).is_prefix_of(components(path))
}

fn list_components(path: &str) -> (r: Vec<String>)
    ensures
        texts(r@) == components(path@),
{
    let pieces = split_text(path, '/');
    let ghost t = split(path@, '/');
    let mut out: Vec<String> = Vec::new();
    if starts_with_text(path, "/") {
        out.push("/".to_owned());
    }
    let ghost root = texts(out@);
    assert(root =~= if starts_with(path@, "/"@) {
        seq!["/"@]
    } else {
        Seq::empty()
    });
    assert(root + names_from(t, 0) =~= components(path@));
    let mut i: usize = 0;
    while i < pieces.len()
        invariant
            i <= pieces@.len(),
            t == texts(pieces@),
            texts(out@) + names_from(t, i as int) == components(path@),
        decreases pieces@.len() - i,
    {
        assert(t[i as int] == pieces@[i as int]@);
        let ghost before = texts(out@);
        if !(pieces[i].as_str().unicode_len() == 0 || (same_text(pieces[i].as_str(), ".") && i > 0)) {
            let s = pieces[i].clone();
            proof {
                lemma_texts_push(out@, s);
            }
            out.push(s);
            assert(texts(out@) + names_from(t, i + 1) =~= before + (seq![t[i as int]] + names_from(
                t,
                i + 1,
            )));
        }
        i = i + 1;
    }
    assert(texts(out@) =~= components(path@));
    out
}

fn is_in(path: &str, dir: &str) -> (r: bool)
    ensures
        r == lies_in(path@, dir@),
{
    let p = list_components(path);
    let d = list_components(dir);
    let ghost pt = components(path@);
    let ghost dt = components(dir@);
    assert(pt.len() == p@.len() && dt.len() == d@.len());
    if d.len() > p.len() {
        return false;
    }
    let mut i: usize = 0;
    while i < d.len()
        invariant
            i <= d@.len() <= p@.len(),
            pt == texts(p@),
            dt == texts(d@),
            pt == components(path@),
            dt == components(dir@),
            forall|k: int| 0 <= k < i ==> dt[k] == pt[k],
        decreases d@.len() - i,
    {
        assert(dt[i as int] == d@[i as int]@ && pt[i as int] == p@[i as int]@);
        if !same_text(p[i].as_str(), d[i].as_str()) {
            assert(pt.subrange(0, dt.len() as int)[i as int] == pt[i as int]);
            return false;
        }
        i = i + 1;
    }
    assert(dt =~= pt.subrange(0, dt.len() as int));
    true
}

/// The directories that a `tsconfig.json` covers, the deepest first.
#[derive(Debug)]
pub struct ResolverMap {
    dirs: Vec<String>,
}

pub open spec fn depth_keys(dirs: Seq<Seq<char>>) -> Seq<int> {
    Seq::new(dirs.len(), |i: int| -(components(dirs[i]).len() as int))
}

/// Directories by depth, the deepest first; those of the same depth keep their order.
pub open spec fn deepest_first(dirs: Seq<Seq<char>>) -> Seq<Seq<char>> {
    in_stable_order(dirs, depth_keys(dirs))
}

/// The directories of some files, in order; a path without a directory has none.
pub open spec fn parents(files: Seq<Seq<char>>) -> Seq<Seq<char>>
    decreases files.len(),
{
    if files.len() == 0 {
        Seq::empty()
    } else {
        match parent_of(files.last()) {
            Some(d) => parents(files.drop_last()).push(d),
            None => parents(files.drop_last()),
        }
    }
}

/// The position of the first directory from `i` on that a file lies in.
pub open spec fn first_covering(dirs: Seq<Seq<char>>, file: Seq<char>, i: int) -> Option<int>
    decreases dirs.len() - i,
{
    if i < 0 || i >= dirs.len() {
        None
    } else if lies_in(file, dirs[i]) {
        Some(i)
    } else {
        first_covering(dirs, file, i + 1)
    }
}

impl ResolverMap {
    pub closed spec fn dirs(&self) -> Seq<Seq<char>> {
        texts(self.dirs@)
    }

    /// A map for some `tsconfig.json` files.
    pub fn new(tsconfigs: &Vec<String>) -> (r: ResolverMap)
        ensures
            r.dirs() == deepest_first(parents(texts(tsconfigs@))),
    {
        let ghost t = texts(tsconfigs@);
        let mut dirs: Vec<String> = Vec::new();
        let mut keys: Vec<i128> = Vec::new();
        let mut i: usize = 0;
        assert(texts(dirs@) =~= parents(t.take(0)));
        while i < tsconfigs.len()
            invariant
                i <= tsconfigs@.len(),
                t == texts(tsconfigs@),
                texts(dirs@) == parents(t.take(i as int)),
                keys@.len() == dirs@.len(),
                forall|k: int|
                    0 <= k < keys@.len() ==> #[trigger] keys@[k] as int == -(components(
                        texts(dirs@)[k],
                    ).len() as int),
            decreases tsconfigs@.len() - i,
        {
            assert(t.take(i + 1).drop_last() =~= t.take(i as int));
            assert(t.take(i + 1).last() == tsconfigs@[i as int]@);
            if let Some(dir) = parent_dir(tsconfigs[i].as_str()) {
                let parts = list_components(dir.as_str());
                let n: usize = parts.len();
                assert(texts(parts@).len() == n);
                let ghost prior = texts(dirs@);
                proof {
                    lemma_texts_push(dirs@, dir);
                }
                dirs.push(dir);
                keys.push(-(n as i128));
                assert forall|k: int| 0 <= k < keys@.len() implies #[trigger] keys@[k] as int == -(
                components(texts(dirs@)[k]).len() as int) by {
                    if k < prior.len() {
                        assert(texts(dirs@)[k] == prior[k]);
                    }
                }
            }
            i = i + 1;
        }
        assert(t.take(t.len() as int) =~= t);
        proof {
            let k = depth_keys(texts(dirs@));
            assert(key_values(keys@) =~= k);
            stable_order_is_sorted(k);
        }
        let ghost all = dirs@;
        let sorted = stable_sort(dirs, &keys);
        let r = ResolverMap { dirs: sorted };
        assert(r.dirs() =~= deepest_first(texts(all)));
        r
    }

    /// How many directories the map has.
    pub fn len(&self) -> (r: usize)
        ensures
            r == self.dirs().len(),
    {
        self.dirs.len()
    }

    /// The directory at a position.
    pub fn dir_at(&self, i: usize) -> (r: &String)
        requires
            i < self.dirs().len(),
        ensures
            r@ == self.dirs()[i as int],
    {
        &self.dirs[i]
    }

    /// The position of the directory whose `tsconfig.json` covers a file: the deepest
    /// that the file lies in. A file outside all of them has none.
    pub fn resolver_for_file(&self, file_path: &str) -> (r: Option<usize>)
        ensures
            match r {
                Some(k) => first_covering(self.dirs(), file_path@, 0) == Some(k as int) && k
                    < self.dirs().len(),
                None => first_covering(self.dirs(), file_path@, 0) is None,
            },
    {
        let ghost t = self.dirs();
        let mut i: usize = 0;
        while i < self.dirs.len()
            invariant
                i <= self.dirs@.len(),
                t == self.dirs(),
                t == texts(self.dirs@),
                first_covering(t, file_path@, 0) == first_covering(t, file_path@, i as int),
            decreases self.dirs@.len() - i,
        {
            assert(t[i as int] == self.dirs@[i as int]@);
            if is_in(file_path, self.dirs[i].as_str()) {
                return Some(i);
            }
            i = i + 1;
        }
        None
    }
}

proof fn lemma_first_covering(dirs: Seq<Seq<char>>, file: Seq<char>, i: int)
    requires
        0 <= i,
    ensures
        match first_covering(dirs, file, i) {
            Some(k) => i <= k < dirs.len() && lies_in(file, dirs[k]) && forall|j: int|
                i <= j < k ==> !lies_in(file, #[trigger] dirs[j]),
            None => forall|j: int| i <= j < dirs.len() ==> !lies_in(file, #[trigger] dirs[j]),
        },
    decreases dirs.len() - i,
{
    if i < dirs.len() && !lies_in(file, dirs[i]) {
        lemma_first_covering(dirs, file, i + 1);
    }
}

/// The longest match wins: the directory that a file is routed to contains it, and no
/// directory that contains it is deeper. A file is routed nowhere only if no directory
/// contains it.
pub proof fn longest_match_wins(dirs: Seq<Seq<char>>, file: Seq<char>)
    ensures
        match first_covering(deepest_first(dirs), file, 0) {
            Some(k) => 0 <= k < dirs.len() && lies_in(file, deepest_first(dirs)[k]) && forall|j: int|
                0 <= j < dirs.len() && lies_in(file, #[trigger] dirs[j]) ==> components(dirs[j]).len()
                    <= components(deepest_first(dirs)[k]).len(),
            None => forall|j: int| 0 <= j < dirs.len() ==> !lies_in(file, #[trigger] dirs[j]),
        },
{
    let keys = depth_keys(dirs);
    let order = stable_order(keys);
    let sorted = deepest_first(dirs);
    stable_order_is_sorted(keys);
    lemma_first_covering(sorted, file, 0);
    match first_covering(sorted, file, 0) {
        Some(k) => {
            assert forall|j: int| 0 <= j < dirs.len() && lies_in(file, #[trigger] dirs[j]) implies components(
                dirs[j],
            ).len() <= components(sorted[k]).len() by {
                assert(order.contains(j));
                let m = choose|m: int| 0 <= m < order.len() && order[m] == j;
                assert(sorted[m] == dirs[j]);
                if m < k {
                    assert(!lies_in(file, sorted[m]));
                } else if m > k {
                    assert(in_order(keys, order[k], order[m]));
                    assert(sorted[k] == dirs[order[k]]);
                    assert(keys[order[k]] == -(components(dirs[order[k]]).len() as int));
                    assert(keys[order[m]] == -(components(dirs[order[m]]).len() as int));
                }
            }
        },
        None => {
            assert forall|j: int| 0 <= j < dirs.len() implies !lies_in(file, #[trigger] dirs[j]) by {
                assert(order.contains(j));
                let m = choose|m: int| 0 <= m < order.len() && order[m] == j;
                assert(sorted[m] == dirs[j]);
                assert(!lies_in(file, sorted[m]));
            }
        },
    }
}

// ── Laws of paths ───────────────────────────────────────────────────────

proof fn lemma_no_place(s: Seq<char>, c: char, upto: int)
    requires
        forall|i: int| 0 <= i < s.len() ==> s[i] != c,
        upto <= s.len(),
    ensures
        rfind_from(s, seq![c], upto) is None,
    decreases upto + 1,
{
    if upto >= 0 {
        if occurs_at(s, seq![c], upto) {
            assert(s.subrange(upto, upto + 1)[0] == seq![c][0]);
        }
        lemma_no_place(s, c, upto - 1);
    }
}

proof fn lemma_last_place(s: Seq<char>, c: char, upto: int, at: int)
    requires
        0 <= at <= upto <= s.len(),
        at < s.len(),
        s[at] == c,
        forall|i: int| at < i < s.len() ==> s[i] != c,
    ensures
        rfind_from(s, seq![c], upto) == Some(at),
    decreases upto + 1,
{
    if upto > at {
        if occurs_at(s, seq![c], upto) {
            assert(s.subrange(upto, upto + 1)[0] == seq![c][0]);
        }
        lemma_last_place(s, c, upto - 1, at);
    } else {
        assert(s.subrange(at, at + 1) =~= seq![c]);
    }
}

/// Whether a text can be the name of a file: it is not empty, holds no separator, and is no
/// single dot.
pub open spec fn is_name(name: Seq<char>) -> bool {
    name.len() > 0 && !name.contains('/') && name != seq!['.']
}

proof fn lemma_named_path(dir: Seq<char>, name: Seq<char>)
    requires
        is_name(name),
    ensures
        ({
            let path = dir + seq!['/'] + name;
            &&& tidy_end(path) == path
            &&& last_slash(path) == Some(dir.len() as int)
            &&& path.skip(name_start(path)) == name
        }),
{
    let path = dir + seq!['/'] + name;
    assert(name.contains(name.last()));
    assert(path.last() == name.last());
    if name.len() == 1 {
        assert(name =~= seq![name[0]]);
    } else {
        assert(path[path.len() - 2] == name[name.len() - 2]);
        assert(name.contains(name[name.len() - 2]));
    }
    reveal_strlit("/");
    assert("/"@ =~= seq!['/']);
    assert forall|i: int| dir.len() < i < path.len() implies path[i] != '/' by {
        assert(path[i] == name[i - dir.len() - 1]);
        assert(name.contains(name[i - dir.len() - 1]));
    }
    lemma_last_place(path, '/', path.len() as int, dir.len() as int);
    let after: int = dir.len() as int + 1;
    assert(path.skip(after) =~= name);
}

/// The directory of a file is what stands before its name.
pub proof fn files_lie_in_their_directory(dir: Seq<char>, name: Seq<char>)
    requires
        is_name(name),
        dir.len() > 0,
        tidy_end(dir) == dir,
    ensures
        parent_of(dir + seq!['/'] + name) == Some(dir),
{
    let path = dir + seq!['/'] + name;
    lemma_named_path(dir, name);
    reveal_strlit("/");
    assert(path.take(dir.len() as int) =~= dir);
}

/// Another extension takes the place of the last one; a name without any gets one.
pub proof fn extensions_are_replaced(
    dir: Seq<char>,
    stem: Seq<char>,
    old_ext: Seq<char>,
    extension: Seq<char>,
)
    requires
        stem.len() > 0 && !stem.contains('/') && stem != seq!['.'],
        !old_ext.contains('/') && !old_ext.contains('.'),
        old_ext.len() > 0,
    ensures
        with_extension(dir + seq!['/'] + stem + seq!['.'] + old_ext, extension) == dir + seq!['/']
            + stem + seq!['.'] + extension,
        !stem.contains('.') ==> with_extension(dir + seq!['/'] + stem, extension) == dir
            + seq!['/'] + stem + seq!['.'] + extension,
{
    let name = stem + seq!['.'] + old_ext;
    let path = dir + seq!['/'] + name;
    reveal_strlit(".");
    reveal_strlit("..");
    assert("."@ =~= seq!['.']);
    assert(dir + seq!['/'] + stem + seq!['.'] + old_ext =~= path);
    assert(!name.contains('/')) by {
        if name.contains('/') {
            let k = choose|k: int| 0 <= k < name.len() && name[k] == '/';
            if k < stem.len() {
                assert(stem.contains(stem[k]));
            } else if k > stem.len() {
                assert(old_ext.contains(old_ext[k - stem.len() - 1]));
            }
        }
    }
    lemma_named_path(dir, name);
    assert(old_ext.contains(old_ext.last()));
    assert(name.last() == old_ext.last());
    assert(".."@[1] == '.');
    assert forall|i: int| stem.len() < i < name.len() implies name[i] != '.' by {
        assert(old_ext.contains(old_ext[i - stem.len() - 1]));
    }
    lemma_last_place(name, '.', name.len() as int, stem.len() as int);
    let cut: int = dir.len() + 1 + stem.len() as int;
    assert(path.take(cut) =~= dir + seq!['/'] + stem);
    assert(path.len() > 1);
    if !stem.contains('.') {
        let plain = dir + seq!['/'] + stem;
        lemma_named_path(dir, stem);
        assert forall|i: int| 0 <= i < stem.len() implies stem[i] != '.' by {
            assert(stem.contains(stem[i]));
        }
        lemma_no_place(stem, '.', stem.len() as int);
        assert(stem[0] != '.');
        assert(plain.last() == stem.last());
        if plain == "."@ {
            assert(plain.last() == '.');
            assert(stem.contains(stem.last()));
        }
    }
}

// ── Laws of imports ─────────────────────────────────────────────────────

/// What a relative import of a name without an extension may stand for, the first one first:
/// itself, with an extension, or an index file below it.
pub open spec fn options(base: Seq<char>) -> Seq<Seq<char>> {
    seq![
        base,
        base + ".tsx"@,
        base + ".ts"@,
        base + ".jsx"@,
        base + ".js"@,
        base + "/index.tsx"@,
        base + "/index.ts"@,
        base + "/index.jsx"@,
        base + "/index.js"@,
    ]
}

/// Each extension and each index file is tried, TypeScript before JavaScript.
pub proof fn imports_have_these_options(dir: Seq<char>, stem: Seq<char>)
    requires
        stem.len() > 0 && !stem.contains('/') && !stem.contains('.'),
    ensures
        candidates(dir + seq!['/'] + stem) == options(dir + seq!['/'] + stem),
{
    let base = dir + seq!['/'] + stem;
    let x = seq!['x'];
    assert(seq!['.'].contains('.')) by {
        assert(seq!['.'][0] == '.');
    }
    assert(stem != seq!['.']);
    extensions_are_replaced(dir, stem, x, "tsx"@);
    extensions_are_replaced(dir, stem, x, "ts"@);
    extensions_are_replaced(dir, stem, x, "jsx"@);
    extensions_are_replaced(dir, stem, x, "js"@);
    lemma_option_texts();
    assert(base + seq!['.'] + "tsx"@ =~= base + ".tsx"@);
    assert(base + seq!['.'] + "ts"@ =~= base + ".ts"@);
    assert(base + seq!['.'] + "jsx"@ =~= base + ".jsx"@);
    assert(base + seq!['.'] + "js"@ =~= base + ".js"@);
    lemma_index(base, stem, "index.tsx"@, "/index.tsx"@);
    lemma_index(base, stem, "index.ts"@, "/index.ts"@);
    lemma_index(base, stem, "index.jsx"@, "/index.jsx"@);
    lemma_index(base, stem, "index.js"@, "/index.js"@);
    assert(candidates(base) =~= options(base));
}

proof fn lemma_option_texts()
    ensures
        ".tsx"@ == seq!['.'] + "tsx"@,
        ".ts"@ == seq!['.'] + "ts"@,
        ".jsx"@ == seq!['.'] + "jsx"@,
        ".js"@ == seq!['.'] + "js"@,
        "/index.tsx"@ == seq!['/'] + "index.tsx"@ && "index.tsx"@[0] == 'i' && "index.tsx"@.len()
            > 0,
        "/index.ts"@ == seq!['/'] + "index.ts"@ && "index.ts"@[0] == 'i' && "index.ts"@.len() > 0,
        "/index.jsx"@ == seq!['/'] + "index.jsx"@ && "index.jsx"@[0] == 'i' && "index.jsx"@.len()
            > 0,
        "/index.js"@ == seq!['/'] + "index.js"@ && "index.js"@[0] == 'i' && "index.js"@.len() > 0,
{
    reveal_strlit("tsx");
    reveal_strlit("ts");
    reveal_strlit("jsx");
    reveal_strlit("js");
    reveal_strlit(".tsx");
    reveal_strlit(".ts");
    reveal_strlit(".jsx");
    reveal_strlit(".js");
    reveal_strlit("index.tsx");
    reveal_strlit("index.ts");
    reveal_strlit("index.jsx");
    reveal_strlit("index.js");
    reveal_strlit("/index.tsx");
    reveal_strlit("/index.ts");
    reveal_strlit("/index.jsx");
    reveal_strlit("/index.js");
    assert(".tsx"@ =~= seq!['.'] + "tsx"@);
    assert(".ts"@ =~= seq!['.'] + "ts"@);
    assert(".jsx"@ =~= seq!['.'] + "jsx"@);
    assert(".js"@ =~= seq!['.'] + "js"@);
    assert("/index.tsx"@ =~= seq!['/'] + "index.tsx"@);
    assert("/index.ts"@ =~= seq!['/'] + "index.ts"@);
    assert("/index.jsx"@ =~= seq!['/'] + "index.jsx"@);
    assert("/index.js"@ =~= seq!['/'] + "index.js"@);
}

proof fn lemma_index(base: Seq<char>, stem: Seq<char>, file: Seq<char>, below: Seq<char>)
    requires
        base.len() > 0 && stem.len() > 0,
        base.last() == stem.last() && !stem.contains('/'),
        file.len() > 0 && file[0] == 'i',
        below == seq!['/'] + file,
    ensures
        joined_path(base, file) == base + below,
{
    reveal_strlit("/");
    assert("/"@ =~= seq!['/']);
    assert(stem.contains(stem.last()));
    if starts_with(file, "/"@) {
        assert(file.subrange(0, 1)[0] == "/"@[0]);
    }
    if ends_with(base, "/"@) {
        assert(base.subrange(base.len() - 1, base.len() as int)[0] == "/"@[0]);
    }
    assert(base + "/"@ + file =~= base + below);
}

/// An import stands for the first of its options that is a file. Index files count only
/// where the path itself is a directory.
pub proof fn the_first_file_is_taken(
    disk: Map<Seq<char>, PathEntry>,
    base: Seq<char>,
    k: int,
    file: Seq<char>,
)
    requires
        0 <= k < candidates(base).len(),
        file_at(disk, candidates(base)[k]) == Some(file),
        forall|j: int| 0 <= j < k ==> file_at(disk, #[trigger] candidates(base)[j]) is None,
        k < 5 || (disk.dom().contains(base) && disk[base] is Directory),
    ensures
        first_file(disk, base, 0) == Some(file),
{
    lemma_first_file(disk, base, 0, k, file);
}

proof fn lemma_first_file(
    disk: Map<Seq<char>, PathEntry>,
    base: Seq<char>,
    i: int,
    k: int,
    file: Seq<char>,
)
    requires
        0 <= i <= k < candidates(base).len(),
        file_at(disk, candidates(base)[k]) == Some(file),
        forall|j: int| 0 <= j < k ==> file_at(disk, #[trigger] candidates(base)[j]) is None,
        k < 5 || is_directory(disk, base),
    ensures
        first_file(disk, base, i) == Some(file),
    decreases k - i,
{
    if i < k {
        lemma_first_file(disk, base, i + 1, k, file);
    }
}

/// A relative import of a file is resolved from the directory of the file.
pub proof fn imports_start_from_their_directory(
    dir: Seq<char>,
    name: Seq<char>,
    module_source: Seq<char>,
    disk: Map<Seq<char>, PathEntry>,
)
    requires
        is_name(name),
        dir.len() > 0,
        tidy_end(dir) == dir,
        starts_with(module_source, "./"@) || starts_with(module_source, "../"@),
        dir.last() != '/',
    ensures
        resolved(dir + seq!['/'] + name, module_source, disk) == first_file(
            disk,
            dir + seq!['/'] + module_source,
            0,
        ),
{
    files_lie_in_their_directory(dir, name);
    reveal_strlit("/");
    reveal_strlit("./");
    reveal_strlit("../");
    assert("/"@ =~= seq!['/']);
    assert(module_source[0] == '.') by {
        if starts_with(module_source, "./"@) {
            assert(module_source.subrange(0, 2)[0] == "./"@[0]);
        } else {
            assert(module_source.subrange(0, 3)[0] == "../"@[0]);
        }
    }
    if starts_with(module_source, "/"@) {
        assert(module_source.subrange(0, 1)[0] == "/"@[0]);
    }
    if ends_with(dir, "/"@) {
        assert(dir.subrange(dir.len() - 1, dir.len() as int)[0] == "/"@[0]);
    }
}

/// The configuration of a directory is that of the nearest one, from itself up, that has any.
pub proof fn the_nearest_configuration_counts(
    dirs: Seq<Seq<char>>,
    disk: Map<Seq<char>, PathEntry>,
    i: int,
    k: int,
)
    requires
        0 <= i <= k < dirs.len(),
        file_at(disk, joined_path(dirs[k], "tsconfig.json"@)) is Some,
        forall|j: int|
            i <= j < k ==> file_at(
                disk,
                joined_path(#[trigger] dirs[j], "tsconfig.json"@),
            ) is None,
    ensures
        nearest_config(dirs, disk, i) == Some(joined_path(dirs[k], "tsconfig.json"@)),
    decreases k - i,
{
    if i < k {
        the_nearest_configuration_counts(dirs, disk, i + 1, k);
    }
}

/// A search goes from a directory to the one that it lies in.
pub proof fn ancestors_go_up_one_by_one(dir: Seq<char>, name: Seq<char>)
    requires
        is_name(name),
        dir.len() > 0,
        tidy_end(dir) == dir,
    ensures
        ancestors(dir + seq!['/'] + name) == seq![dir + seq!['/'] + name] + ancestors(dir),
{
    files_lie_in_their_directory(dir, name);
}

/// Every directory that is searched gives its configuration, and waits to be searched below
/// where the depth allows. Installed packages, version control and build output are left out.
pub proof fn directories_give_their_configurations(
    search: SearchView,
    dirs: Seq<SubDirectory>,
    depth: nat,
    i: int,
)
    requires
        0 <= i < dirs.len(),
        dirs[i].name@ != "node_modules"@ && dirs[i].name@ != ".git"@ && dirs[i].name@ != "dist"@
            && dirs[i].name@ != "build"@ && dirs[i].name@ != "target"@,
    ensures
        dirs[i].has_tsconfig ==> search.with_dirs(dirs, depth).found.contains(
            joined_path(dirs[i].path@, "tsconfig.json"@),
        ),
        depth < search.max_depth ==> search.with_dirs(dirs, depth).queue.contains(
            (dirs[i].path@, depth),
        ),
        search.with_dirs(dirs, depth).max_depth == search.max_depth,
    decreases dirs.len(),
{
    let rest = dirs.drop_last();
    let before = search.with_dirs(rest, depth);
    let last = dirs.last();
    lemma_max_depth(search, rest, depth);
    lemma_in_pushed(
        before.found,
        joined_path(last.path@, "tsconfig.json"@),
        joined_path(dirs[i].path@, "tsconfig.json"@),
    );
    lemma_in_pushed(before.queue, (last.path@, depth), (dirs[i].path@, depth));
    if i < rest.len() {
        assert(rest[i] == dirs[i]);
        directories_give_their_configurations(search, rest, depth, i);
    }
}

proof fn lemma_max_depth(search: SearchView, dirs: Seq<SubDirectory>, depth: nat)
    ensures
        search.with_dirs(dirs, depth).max_depth == search.max_depth,
    decreases dirs.len(),
{
    if dirs.len() > 0 {
        lemma_max_depth(search, dirs.drop_last(), depth);
    }
}

/// Of directories that are left out, nothing is found.
pub proof fn skipped_directories_give_nothing(
    search: SearchView,
    dirs: Seq<SubDirectory>,
    depth: nat,
    x: Seq<char>,
)
    ensures
        search.with_dirs(dirs, depth).found.contains(x) ==> search.found.contains(x) || exists|i: int|
            0 <= i < dirs.len() && x == joined_path(
                (#[trigger] dirs[i]).path@,
                "tsconfig.json"@,
            ) && dirs[i].has_tsconfig && dirs[i].name@ != "node_modules"@ && dirs[i].name@
                != ".git"@ && dirs[i].name@ != "dist"@ && dirs[i].name@ != "build"@ && dirs[i].name@
                != "target"@,
    decreases dirs.len(),
{
    if dirs.len() > 0 {
        let rest = dirs.drop_last();
        let before = search.with_dirs(rest, depth);
        let last = dirs.last();
        skipped_directories_give_nothing(search, rest, depth, x);
        lemma_in_pushed(before.found, joined_path(last.path@, "tsconfig.json"@), x);
        assert(dirs[dirs.len() - 1] == last);
        if before.found.contains(x) && !search.found.contains(x) {
            let i = choose|i: int|
                0 <= i < rest.len() && x == joined_path(
                    (#[trigger] rest[i]).path@,
                    "tsconfig.json"@,
                ) && rest[i].has_tsconfig && rest[i].name@ != "node_modules"@ && rest[i].name@
                    != ".git"@ && rest[i].name@ != "dist"@ && rest[i].name@ != "build"@
                    && rest[i].name@ != "target"@;
            assert(dirs[i] == rest[i]);
        }
    }
}

/// Whether texts can be the names of a path.
pub open spec fn are_names(names: Seq<Seq<char>>) -> bool {
    names.len() > 0 && forall|i: int| 0 <= i < names.len() ==> is_name(#[trigger] names[i])
}

proof fn lemma_names(pieces: Seq<Seq<char>>, i: int)
    requires
        0 <= i <= pieces.len(),
        forall|k: int| i <= k < pieces.len() ==> is_name(#[trigger] pieces[k]),
    ensures
        names_from(pieces, i) == pieces.skip(i),
    decreases pieces.len() - i,
{
    reveal_strlit(".");
    assert("."@ =~= seq!['.']);
    if i < pieces.len() {
        assert(is_name(pieces[i]));
        lemma_names(pieces, i + 1);
        assert(seq![pieces[i]] + pieces.skip(i + 1) =~= pieces.skip(i));
    } else {
        assert(pieces.skip(i) =~= Seq::empty());
    }
}

/// The components of a path are its names, behind the root where it is absolute.
pub proof fn components_are_names(names: Seq<Seq<char>>)
    requires
        are_names(names),
    ensures
        components(join(names, seq!['/'])) == names,
        components(seq!['/'] + join(names, seq!['/'])) == seq!["/"@] + names,
{
    let path = join(names, seq!['/']);
    let none = Seq::<char>::empty();
    reveal_strlit("/");
    assert("/"@ =~= seq!['/']);
    assert forall|i: int| 0 <= i < names.len() implies !(#[trigger] names[i]).contains('/') by {
        assert(is_name(names[i]));
    }
    joined_texts_are_split_again(names, '/');
    lemma_names(names, 0);
    assert(names.skip(0) =~= names);
    lemma_starts_with_name(names);
    let all = seq![none] + names;
    assert forall|i: int| 0 <= i < all.len() implies !(#[trigger] all[i]).contains('/') by {
        if i > 0 {
            assert(all[i] == names[i - 1]);
        }
    }
    joined_texts_are_split_again(all, '/');
    lemma_join_first(all, seq!['/']);
    assert(all.skip(1) =~= names);
    assert(none + seq!['/'] + path =~= seq!['/'] + path);
    assert forall|k: int| 1 <= k < all.len() implies is_name(#[trigger] all[k]) by {
        assert(all[k] == names[k - 1]);
    }
    lemma_names(all, 1);
    assert(all[0].len() == 0);
    assert(names_from(all, 0) == names_from(all, 1));
    let rooted = seq!['/'] + path;
    assert(rooted.subrange(0, 1) =~= seq!['/']);
}

proof fn lemma_starts_with_name(names: Seq<Seq<char>>)
    requires
        are_names(names),
    ensures
        !starts_with(join(names, seq!['/']), "/"@),
{
    let path = join(names, seq!['/']);
    reveal_strlit("/");
    assert(is_name(names[0]));
    assert(names[0].contains(names[0][0]));
    if names.len() > 1 {
        lemma_join_first(names, seq!['/']);
    }
    assert(path[0] == names[0][0]);
    if starts_with(path, "/"@) {
        assert(path.subrange(0, 1)[0] == "/"@[0]);
    }
}

/// A file lies in every directory whose path its own begins with, name by name, and in no
/// other one.
pub proof fn files_lie_in_the_directories_above_them(
    names: Seq<Seq<char>>,
    dir: Seq<Seq<char>>,
)
    requires
        are_names(names),
        are_names(dir),
    ensures
        lies_in(join(names, seq!['/']), join(dir, seq!['/'])) <==> dir.is_prefix_of(names),
        lies_in(seq!['/'] + join(names, seq!['/']), seq!['/'] + join(dir, seq!['/']))
            <==> dir.is_prefix_of(names),
{
    components_are_names(names);
    components_are_names(dir);
    let a = seq!["/"@] + dir;
    let b = seq!["/"@] + names;
    if dir.is_prefix_of(names) {
        assert(a =~= b.subrange(0, a.len() as int));
    }
    if a.is_prefix_of(b) {
        assert(dir =~= names.subrange(0, dir.len() as int)) by {
            assert forall|i: int| 0 <= i < dir.len() implies dir[i] == names[i] by {
                assert(a[i + 1] == b.subrange(0, a.len() as int)[i + 1]);
            }
        }
    }
}

/// The directory of each configuration is known.
pub proof fn directories_of_files_are_known(files: Seq<Seq<char>>, i: int)
    requires
        0 <= i < files.len(),
    ensures
        parent_of(files[i]) matches Some(d) ==> parents(files).contains(d),
    decreases files.len(),
{
    let rest = files.drop_last();
    if let Some(d) = parent_of(files[i]) {
        if let Some(own) = parent_of(files.last()) {
            lemma_in_pushed(parents(rest), own, d);
        }
        if i < rest.len() {
            assert(rest[i] == files[i]);
            directories_of_files_are_known(rest, i);
        }
    }
}

} // verus!
