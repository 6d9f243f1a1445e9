//! Lockfiles of npm, yarn (berry) and pnpm: the packages that they resolve, and which
//! of them depend on a given package.

use crate::dependency::{
    drop_operator, is_at_most, is_operator, is_suffix, lemma_first_piece, lemma_range,
    lemma_trim_kept, written, loose_version, parse_loose_semver, version_at_most, without_operator,
    Version,
};
use crate::engine::{join_path, joined_path};
use crate::json::{
    as_entries, as_text, entry_views, field, json_denoted, opt_json, parse_json, Json, JsonView,
};
use crate::paths::{path_spelt, spell_path};
use crate::text::{
    chars_of, contains, contains_iff_occurs, ends_with, ends_with_text, find_chars, find_from,
    is_white, lemma_find_from, lemma_in_either, lemma_in_pushed, occurs_at, lines, lines_text,
    opt_text, rfind_chars, rfind_from, same_text, split, starts_with, starts_with_text, string_of,
    strip_prefix as without_prefix, strip_prefix_text, texts, trim, trim_chars, trimmed,
};
use crate::text_map::TextMap;
use crate::yaml::{
    as_mapping, opt_yaml, pair_views, parse_yaml, scalar_text, yaml_denoted, yaml_field, yaml_text,
    Yaml, YamlView,
};
use vstd::prelude::*;

verus! {

/// Versions or version ranges by package name.
pub type Ranges = TextMap<String>;

/// A package as a lockfile resolves it.
#[derive(Debug)]
pub struct LockfileEntry {
    pub name: String,
    /// The resolved version.
    pub version: String,
    /// The dependencies that the package declares, peer dependencies among them.
    pub dependencies: Ranges,
    /// The peer dependencies only.
    pub peer_dependencies: Ranges,
}

pub open spec fn ranges_view(m: Ranges) -> Map<Seq<char>, Seq<char>> {
    m@.map_values(|s: String| s@)
}

#[verifier::ext_equal]
pub ghost struct LockfileEntryView {
    pub name: Seq<char>,
    pub version: Seq<char>,
    pub dependencies: Map<Seq<char>, Seq<char>>,
    pub peer_dependencies: Map<Seq<char>, Seq<char>>,
}

impl LockfileEntry {
    pub open spec fn view(&self) -> LockfileEntryView {
        LockfileEntryView {
            name: self.name@,
            version: self.version@,
            dependencies: ranges_view(self.dependencies),
            peer_dependencies: ranges_view(self.peer_dependencies),
        }
    }
}

pub open spec fn lock_views(v: Seq<LockfileEntry>) -> Seq<LockfileEntryView> {
    Seq::new(v.len(), |i: int| v[i]@)
}

/// A mapping with one more entry, unless the key is there already.
pub open spec fn or_insert(
    m: Map<Seq<char>, Seq<char>>,
    key: Seq<char>,
    value: Seq<char>,
) -> Map<Seq<char>, Seq<char>> {
    if m.dom().contains(key) {
        m
    } else {
        m.insert(key, value)
    }
}

fn insert_new(m: &mut Ranges, key: &str, value: &str)
    ensures
        ranges_view(*final(m)) == or_insert(ranges_view(*old(m)), key@, value@),
{
    let ghost before = *m;
    if !m.contains_key(key) {
        let v = value.to_owned();
        m.insert(key.to_owned(), v);
        assert(ranges_view(*m) =~= ranges_view(before).insert(key@, value@));
    }
}

fn no_ranges() -> (r: Ranges)
    ensures
        ranges_view(r) == Map::<Seq<char>, Seq<char>>::empty(),
{
    let r: Ranges = TextMap::new();
    assert(ranges_view(r) =~= Map::<Seq<char>, Seq<char>>::empty());
    r
}

/// Whether every peer dependency is among the dependencies.
pub open spec fn peers_are_dependencies(e: LockfileEntryView) -> bool {
    e.peer_dependencies.dom().subset_of(e.dependencies.dom())
}

pub open spec fn all_peers_are_dependencies(v: Seq<LockfileEntryView>) -> bool {
    forall|i: int| 0 <= i < v.len() ==> peers_are_dependencies(#[trigger] v[i])
}

// ── Dependents ──────────────────────────────────────────────────────────

/// A range without blanks, the `npm:` before it, and its operator.
pub open spec fn range_base(s: Seq<char>) -> Seq<char> {
    without_operator(
        match without_prefix(trim(s), "npm:"@) {
            Some(rest) => rest,
            None => trim(s),
        },
    )
}

/// The version that a range begins with.
pub fn strip_prefix(s: &str) -> (r: String)
    ensures
        r@ == range_base(s@),
{
    let t = trimmed(s);
    match strip_prefix_text(t.as_str(), "npm:") {
        Some(rest) => drop_operator(rest.as_str()),
        None => drop_operator(t.as_str()),
    }
}

/// Reads a version loosely.
pub fn parse_semver(s: &str) -> (r: Option<Version>)
    ensures
        r == loose_version(s@),
{
    parse_loose_semver(s)
}

/// Whether the version that a range begins with is at most a bound. It is not where
/// either cannot be read.
pub open spec fn within_upperbound(constraint: Seq<char>, upperbound: Seq<char>) -> bool {
    match (loose_version(range_base(constraint)), loose_version(range_base(upperbound))) {
        (Some(c), Some(b)) => version_at_most(c, b),
        _ => false,
    }
}

/// Whether the version that a range begins with is at most a bound: `^5.1.1` is
/// within `5.99.99`, `^6.0.0` is not.
pub fn constraint_within_upperbound(constraint: &str, upperbound: &str) -> (r: bool)
    ensures
        r == within_upperbound(constraint@, upperbound@),
{
    let c = strip_prefix(constraint);
    let b = strip_prefix(upperbound);
    match (parse_semver(c.as_str()), parse_semver(b.as_str())) {
        (Some(x), Some(y)) => is_at_most(x, y),
        _ => false,
    }
}

/// A range within a bound is within every higher bound.
pub proof fn higher_bounds_admit_more(constraint: Seq<char>, upperbound: Seq<char>, higher: Seq<char>)
    requires
        within_upperbound(constraint, upperbound),
        within_upperbound(upperbound, higher),
    ensures
        within_upperbound(constraint, higher),
{
}

/// Whether a package other than the target depends on the target within a bound.
pub open spec fn is_dependent(
    e: LockfileEntryView,
    target: Seq<char>,
    upperbound: Option<Seq<char>>,
) -> bool {
    e.name != target && e.dependencies.dom().contains(target) && match upperbound {
        Some(u) => within_upperbound(e.dependencies[target], u),
        None => true,
    }
}

/// The packages that depend on a target, in order.
pub open spec fn dependents(
    v: Seq<LockfileEntryView>,
    target: Seq<char>,
    upperbound: Option<Seq<char>>,
) -> Seq<LockfileEntryView>
    decreases v.len(),
{
    if v.len() == 0 {
        Seq::empty()
    } else if is_dependent(v.last(), target, upperbound) {
        dependents(v.drop_last(), target, upperbound).push(v.last())
    } else {
        dependents(v.drop_last(), target, upperbound)
    }
}

pub open spec fn lock_ref_views(v: Seq<&LockfileEntry>) -> Seq<LockfileEntryView> {
    Seq::new(v.len(), |i: int| v[i]@)
}

/// The packages that depend on a target with a range that begins within a bound, in
/// order. The target is not among them.
pub fn find_dependents<'a>(
    entries: &'a Vec<LockfileEntry>,
    target_package: &str,
    upperbound: Option<&str>,
) -> (r: Vec<&'a LockfileEntry>)
    ensures
        lock_ref_views(r@) == dependents(
            lock_views(entries@),
            target_package@,
            crate::text::opt_str(upperbound),
        ),
{
    let ghost v = lock_views(entries@);
    let ghost u = crate::text::opt_str(upperbound);
    let mut out: Vec<&'a LockfileEntry> = Vec::new();
    let mut i: usize = 0;
    assert(lock_ref_views(out@) =~= dependents(v.take(0), target_package@, u));
    while i < entries.len()
        invariant
            i <= entries@.len(),
            v == lock_views(entries@),
            u == crate::text::opt_str(upperbound),
            lock_ref_views(out@) == dependents(v.take(i as int), target_package@, u),
        decreases entries@.len() - i,
    {
        assert(v.take(i + 1).drop_last() =~= v.take(i as int));
        assert(v.take(i + 1).last() == entries@[i as int]@);
        let entry = &entries[i];
        let chosen: bool = if same_text(entry.name.as_str(), target_package) {
            false
        } else {
            match entry.dependencies.get(target_package) {
                Some(range) => match upperbound {
                    Some(bound) => constraint_within_upperbound(range.as_str(), bound),
                    None => true,
                },
                None => false,
            }
        };
        assert(chosen == is_dependent(entry@, target_package@, u));
        if chosen {
            let ghost prior = out@;
            out.push(entry);
            assert(lock_ref_views(out@) =~= lock_ref_views(prior).push(entry@));
        }
        i = i + 1;
    }
    assert(v.take(v.len() as int) =~= v);
    out
}

/// The packages that depend on a target are those entries, other than the target,
/// that declare it within the bound: each is one of the entries, and none is left out.
pub proof fn dependents_are_complete(
    v: Seq<LockfileEntryView>,
    target: Seq<char>,
    upperbound: Option<Seq<char>>,
)
    ensures
        forall|i: int|
            0 <= i < dependents(v, target, upperbound).len() ==> is_dependent(
                #[trigger] dependents(v, target, upperbound)[i],
                target,
                upperbound,
            ) && v.contains(dependents(v, target, upperbound)[i]),
        forall|i: int|
            0 <= i < v.len() && is_dependent(#[trigger] v[i], target, upperbound) ==> dependents(
                v,
                target,
                upperbound,
            ).contains(v[i]),
    decreases v.len(),
{
    if v.len() > 0 {
        let rest = v.drop_last();
        let before = dependents(rest, target, upperbound);
        let now = dependents(v, target, upperbound);
        dependents_are_complete(rest, target, upperbound);
        assert forall|i: int| 0 <= i < now.len() implies is_dependent(#[trigger] now[i], target, upperbound)
            && v.contains(now[i]) by {
            if i < before.len() {
                assert(now[i] == before[i]);
                assert(rest.contains(before[i]));
                let k = choose|k: int| 0 <= k < rest.len() && rest[k] == before[i];
                assert(v[k] == now[i]);
            } else {
                assert(v[v.len() - 1] == now[i]);
            }
        }
        assert forall|i: int| 0 <= i < v.len() && is_dependent(#[trigger] v[i], target, upperbound) implies now.contains(
            v[i],
        ) by {
            if i < rest.len() {
                assert(rest[i] == v[i]);
                assert(before.contains(v[i]));
                let k = choose|k: int| 0 <= k < before.len() && before[k] == v[i];
                assert(now[k] == v[i]);
            } else {
                assert(now[now.len() - 1] == v[i]);
            }
        }
    }
}

// ── package-lock.json ───────────────────────────────────────────────────

/// The package name in a key: what follows the last `node_modules/`.
pub open spec fn npm_key_name(key: Seq<char>) -> Seq<char> {
    match rfind_from(key, "node_modules/"@, key.len() as int) {
        Some(p) => key.skip(p + "node_modules/"@.len()),
        None => key,
    }
}

/// The package name in a key of `packages`: `node_modules/a/node_modules/b` is `b`.
/// The key of the root project is empty, and so is its name.
pub fn extract_package_name_from_npm_key(key: &str) -> (r: String)
    ensures
        r@ == npm_key_name(key@),
{
    let c = chars_of(key);
    let needle = chars_of("node_modules/");
    match rfind_chars(c.as_slice(), needle.as_slice()) {
        Some(p) => {
            let end: usize = c.len();
            let start: usize = p + needle.len();
            let tail = vstd::slice::slice_subrange(c.as_slice(), start, end);
            assert(tail@ =~= key@.skip(p + needle@.len()));
            string_of(tail)
        },
        None => key.to_owned(),
    }
}

/// The text of a value; empty where it is no text.
pub open spec fn text_or_empty(j: Option<JsonView>) -> Seq<char> {
    match j {
        Some(x) => match as_text(x) {
            Some(t) => t,
            None => Seq::empty(),
        },
        None => Seq::empty(),
    }
}

/// `m` with the ranges of the first entries of a section that are not in it.
pub open spec fn with_ranges(
    m: Map<Seq<char>, Seq<char>>,
    entries: Seq<(Seq<char>, JsonView)>,
) -> Map<Seq<char>, Seq<char>>
    decreases entries.len(),
{
    if entries.len() == 0 {
        m
    } else {
        or_insert(
            with_ranges(m, entries.drop_last()),
            entries.last().0,
            text_or_empty(Some(entries.last().1)),
        )
    }
}

/// The entries of a section of a package.
pub open spec fn npm_section(package: JsonView, section: Seq<char>) -> Seq<(Seq<char>, JsonView)> {
    match field(package, section) {
        Some(s) => match as_entries(s) {
            Some(e) => e,
            None => Seq::empty(),
        },
        None => Seq::empty(),
    }
}

/// The entry for a package of a package lock: its own dependencies first, then its
/// peer dependencies.
pub open spec fn npm_entry(key: Seq<char>, package: JsonView) -> LockfileEntryView {
    let own = with_ranges(Map::empty(), npm_section(package, "dependencies"@));
    LockfileEntryView {
        name: npm_key_name(key),
        version: text_or_empty(field(package, "version"@)),
        dependencies: with_ranges(own, npm_section(package, "peerDependencies"@)),
        peer_dependencies: with_ranges(Map::empty(), npm_section(package, "peerDependencies"@)),
    }
}

/// The entries for some packages: those with a name and a version.
pub open spec fn npm_entries(packages: Seq<(Seq<char>, JsonView)>) -> Seq<LockfileEntryView>
    decreases packages.len(),
{
    if packages.len() == 0 {
        Seq::empty()
    } else {
        let before = npm_entries(packages.drop_last());
        let e = npm_entry(packages.last().0, packages.last().1);
        if e.name.len() == 0 || e.version.len() == 0 {
            before
        } else {
            before.push(e)
        }
    }
}

/// Why a lockfile gives no entries.
#[derive(Debug)]
pub enum LockfileError {
    /// The file at this path cannot be read.
    Unreadable(String),
    /// A `package-lock.json` is not JSON.
    InvalidPackageLock,
    /// A `pnpm-lock.yaml` is not YAML.
    InvalidPnpmLock,
}

pub ghost enum LockfileErrorView {
    Unreadable(Seq<char>),
    InvalidPackageLock,
    InvalidPnpmLock,
}

impl LockfileError {
    pub open spec fn view(&self) -> LockfileErrorView {
        match self {
            LockfileError::Unreadable(p) => LockfileErrorView::Unreadable(p@),
            LockfileError::InvalidPackageLock => LockfileErrorView::InvalidPackageLock,
            LockfileError::InvalidPnpmLock => LockfileErrorView::InvalidPnpmLock,
        }
    }

    /// What to tell the user.
    pub fn message(&self) -> (r: String)
        ensures
            r@ == match self@ {
                LockfileErrorView::Unreadable(p) => "Failed to read "@ + p,
                LockfileErrorView::InvalidPackageLock => "Failed to parse package-lock.json"@,
                LockfileErrorView::InvalidPnpmLock => "Failed to parse pnpm-lock.yaml"@,
            },
    {
        match self {
            LockfileError::Unreadable(p) => crate::text::cat2("Failed to read ", p.as_str()),
            LockfileError::InvalidPackageLock => "Failed to parse package-lock.json".to_owned(),
            LockfileError::InvalidPnpmLock => "Failed to parse pnpm-lock.yaml".to_owned(),
        }
    }
}

pub type EntriesView = Result<Seq<LockfileEntryView>, LockfileErrorView>;

pub open spec fn entries_result(r: Result<Vec<LockfileEntry>, LockfileError>) -> EntriesView {
    match r {
        Ok(v) => Ok(lock_views(v@)),
        Err(e) => Err(e@),
    }
}

/// What a package lock resolves.
pub open spec fn npm_locked(lock: Option<JsonView>) -> EntriesView {
    match lock {
        Some(j) => Ok(npm_entries(npm_section(j, "packages"@))),
        None => Err(LockfileErrorView::InvalidPackageLock),
    }
}

fn text_of(j: Option<&Json>) -> (r: String)
    ensures
        r@ == text_or_empty(
            match j {
                Some(x) => Some(x@),
                None => None,
            },
        ),
{
    match j {
        Some(x) => match x.as_str() {
            Some(t) => t.to_owned(),
            None => {
                let s = String::new();
                assert(s@ =~= Seq::<char>::empty());
                s
            },
        },
        None => {
            let s = String::new();
            assert(s@ =~= Seq::<char>::empty());
            s
        },
    }
}

fn add_section(m: &mut Ranges, package: &Json, section: &str)
    ensures
        ranges_view(*final(m)) == with_ranges(ranges_view(*old(m)), npm_section(package@, section@)),
{
    let ghost before = ranges_view(*m);
    let entries = match package.get(section) {
        Some(s) => match s.as_object() {
            Some(e) => e,
            None => {
                return;
            },
        },
        None => {
            return;
        },
    };
    let ghost v = entry_views(entries@);
    assert(v == npm_section(package@, section@));
    let mut i: usize = 0;
    assert(v.take(0) =~= Seq::<(Seq<char>, JsonView)>::empty());
    while i < entries.len()
        invariant
            i <= entries@.len(),
            v == entry_views(entries@),
            ranges_view(*m) == with_ranges(before, v.take(i as int)),
        decreases entries@.len() - i,
    {
        assert(v.take(i + 1).drop_last() =~= v.take(i as int));
        assert(v.take(i + 1).last() == v[i as int]);
        let range = text_of(Some(&entries[i].1));
        insert_new(m, entries[i].0.as_str(), range.as_str());
        i = i + 1;
    }
    assert(v.take(v.len() as int) =~= v);
}

fn make_npm_entry(key: &str, package: &Json) -> (r: LockfileEntry)
    ensures
        r@ == npm_entry(key@, package@),
{
    let name = extract_package_name_from_npm_key(key);
    let version = text_of(package.get("version"));
    let mut dependencies = no_ranges();
    let mut peer_dependencies = no_ranges();
    add_section(&mut dependencies, package, "dependencies");
    add_section(&mut dependencies, package, "peerDependencies");
    add_section(&mut peer_dependencies, package, "peerDependencies");
    LockfileEntry { name, version, dependencies, peer_dependencies }
}

fn push_lock(v: &mut Vec<LockfileEntry>, e: LockfileEntry)
    ensures
        lock_views(final(v)@) == lock_views(old(v)@).push(e@),
{
    let ghost before = v@;
    v.push(e);
    assert(lock_views(v@) =~= lock_views(before).push(e@));
}

/// What a package lock that was read as JSON resolves.
pub fn npm_entries_of(lock: &Option<Json>) -> (r: Result<Vec<LockfileEntry>, LockfileError>)
    ensures
        entries_result(r) == npm_locked(opt_json(*lock)),
{
    let json = match lock {
        Some(j) => j,
        None => {
            return Err(LockfileError::InvalidPackageLock);
        },
    };
    let mut out: Vec<LockfileEntry> = Vec::new();
    assert(lock_views(out@) =~= Seq::<LockfileEntryView>::empty());
    let packages = match json.get("packages") {
        Some(p) => match p.as_object() {
            Some(e) => e,
            None => {
                return Ok(out);
            },
        },
        None => {
            return Ok(out);
        },
    };
    let ghost v = entry_views(packages@);
    assert(v == npm_section(json@, "packages"@));
    let mut i: usize = 0;
    assert(lock_views(out@) =~= npm_entries(v.take(0)));
    while i < packages.len()
        invariant
            i <= packages@.len(),
            v == entry_views(packages@),
            lock_views(out@) == npm_entries(v.take(i as int)),
        decreases packages@.len() - i,
    {
        assert(v.take(i + 1).drop_last() =~= v.take(i as int));
        assert(v.take(i + 1).last() == v[i as int]);
        let entry = make_npm_entry(packages[i].0.as_str(), &packages[i].1);
        if entry.name.as_str().unicode_len() > 0 && entry.version.as_str().unicode_len() > 0 {
            push_lock(&mut out, entry);
        }
        i = i + 1;
    }
    assert(v.take(v.len() as int) =~= v);
    Ok(out)
}

/// What the text of a `package-lock.json` resolves: the packages with a name and a
/// version, in the order of their keys.
pub fn parse_package_lock_json(content: &str) -> (r: Result<Vec<LockfileEntry>, LockfileError>)
    ensures
        entries_result(r) == npm_locked(json_denoted(content@)),
{
    let lock = parse_json(content);
    npm_entries_of(&lock)
}

proof fn lemma_with_ranges_dom(
    m: Map<Seq<char>, Seq<char>>,
    n: Map<Seq<char>, Seq<char>>,
    entries: Seq<(Seq<char>, JsonView)>,
)
    requires
        m.dom().subset_of(n.dom()),
    ensures
        with_ranges(m, entries).dom().subset_of(with_ranges(n, entries).dom()),
    decreases entries.len(),
{
    if entries.len() > 0 {
        lemma_with_ranges_dom(m, n, entries.drop_last());
    }
}

/// Peer dependencies of a package lock are among the dependencies.
pub proof fn npm_peers_are_dependencies(packages: Seq<(Seq<char>, JsonView)>)
    ensures
        all_peers_are_dependencies(npm_entries(packages)),
    decreases packages.len(),
{
    if packages.len() > 0 {
        npm_peers_are_dependencies(packages.drop_last());
        let package = packages.last().1;
        lemma_with_ranges_dom(
            Map::empty(),
            with_ranges(Map::empty(), npm_section(package, "dependencies"@)),
            npm_section(package, "peerDependencies"@),
        );
    }
}

// ── yarn.lock ───────────────────────────────────────────────────────────

/// `s` without the character at its start, as often as it stands there.
pub open spec fn without_leading(s: Seq<char>, c: char) -> Seq<char>
    decreases s.len(),
{
    if s.len() > 0 && s[0] == c {
        without_leading(s.skip(1), c)
    } else {
        s
    }
}

pub open spec fn without_trailing(s: Seq<char>, c: char) -> Seq<char>
    decreases s.len(),
{
    if s.len() > 0 && s.last() == c {
        without_trailing(s.drop_last(), c)
    } else {
        s
    }
}

/// `s` without the quotes around it.
pub open spec fn unquoted(s: Seq<char>) -> Seq<char> {
    without_trailing(without_leading(s, '"'), '"')
}

/// `s` without a prefix, as often as it stands at the start.
pub open spec fn without_prefixes(s: Seq<char>, prefix: Seq<char>) -> Seq<char>
    decreases s.len(),
{
    if prefix.len() > 0 && starts_with(s, prefix) {
        without_prefixes(s.skip(prefix.len() as int), prefix)
    } else {
        s
    }
}

fn drop_leading(s: &[char], c: char) -> (r: &[char])
    ensures
        r@ == without_leading(s@, c),
{
    let total: usize = s.len();
    let mut i: usize = 0;
    assert(s@.skip(0) =~= s@);
    while i < total && s[i] == c
        invariant
            i <= total,
            total == s@.len(),
            without_leading(s@, c) == without_leading(s@.skip(i as int), c),
        decreases total - i,
    {
        assert(s@.skip(i as int).skip(1) =~= s@.skip(i + 1));
        i = i + 1;
    }
    let r = vstd::slice::slice_subrange(s, i, total);
    assert(r@ =~= s@.skip(i as int));
    r
}

fn drop_trailing(s: &[char], c: char) -> (r: &[char])
    ensures
        r@ == without_trailing(s@, c),
{
    let mut end: usize = s.len();
    assert(s@.take(end as int) =~= s@);
    while end > 0 && s[end - 1] == c
        invariant
            end <= s@.len(),
            without_trailing(s@, c) == without_trailing(s@.take(end as int), c),
        decreases end,
    {
        assert(s@.take(end as int).drop_last() =~= s@.take(end - 1));
        end = end - 1;
    }
    let r = vstd::slice::slice_subrange(s, 0, end);
    assert(r@ =~= s@.take(end as int));
    r
}

fn drop_quotes(s: &[char]) -> (r: &[char])
    ensures
        r@ == unquoted(s@),
{
    drop_trailing(drop_leading(s, '"'), '"')
}

fn drop_prefixes(s: &str, prefix: &str) -> (r: String)
    requires
        prefix@.len() > 0,
    ensures
        r@ == without_prefixes(s@, prefix@),
{
    let mut rest = s.to_owned();
    loop
        invariant
            prefix@.len() > 0,
            without_prefixes(s@, prefix@) == without_prefixes(rest@, prefix@),
        decreases rest@.len(),
    {
        match strip_prefix_text(rest.as_str(), prefix) {
            Some(tail) => {
                rest = tail;
            },
            None => {
                return rest;
            },
        }
    }
}

/// Where the name ends in a descriptor: before the last `@npm:`, else the last
/// `@workspace:`, else the last `@` that is not at the start.
pub open spec fn descriptor_name_end(d: Seq<char>) -> Option<int> {
    match rfind_from(d, "@npm:"@, d.len() as int) {
        Some(p) => Some(p),
        None => match rfind_from(d, "@workspace:"@, d.len() as int) {
            Some(p) => Some(p),
            None => match rfind_from(d, "@"@, d.len() as int) {
                Some(p) => if p > 0 {
                    Some(p)
                } else {
                    None
                },
                None => None,
            },
        },
    }
}

/// The package name in the header of an entry: the name in the first of its
/// descriptors.
pub open spec fn yarn_key_name(line: Seq<char>) -> Option<Seq<char>> {
    let first = split(without_leading(line, '"'), ',')[0];
    match descriptor_name_end(first) {
        Some(p) => {
            let name = trim(unquoted(first.take(p)));
            if name.len() == 0 {
                None
            } else {
                Some(name)
            }
        },
        None => None,
    }
}

fn find_descriptor_name_end(d: &Vec<char>) -> (r: Option<usize>)
    ensures
        match r {
            Some(p) => descriptor_name_end(d@) == Some(p as int) && p <= d@.len(),
            None => descriptor_name_end(d@) is None,
        },
{
    let npm = chars_of("@npm:");
    let workspace = chars_of("@workspace:");
    let at = chars_of("@");
    match rfind_chars(d.as_slice(), npm.as_slice()) {
        Some(p) => Some(p),
        None => match rfind_chars(d.as_slice(), workspace.as_slice()) {
            Some(p) => Some(p),
            None => match rfind_chars(d.as_slice(), at.as_slice()) {
                Some(p) => if p > 0 {
                    Some(p)
                } else {
                    None
                },
                None => None,
            },
        },
    }
}

/// The package name in the header of an entry:
/// `"@scope/name@npm:^1.0.0, @scope/name@npm:^1.2.0":` is for `@scope/name`.
pub fn extract_package_name_from_yarn_key(line: &str) -> (r: Option<String>)
    ensures
        opt_text(r) == yarn_key_name(line@),
{
    let c = chars_of(line);
    let body = drop_leading(c.as_slice(), '"');
    let first = crate::dependency::first_piece(body, ',');
    match find_descriptor_name_end(&first) {
        Some(p) => {
            let head = vstd::slice::slice_subrange(first.as_slice(), 0, p);
            assert(head@ =~= first@.take(p as int));
            let name = trim_chars(drop_quotes(head));
            if name.len() == 0 {
                None
            } else {
                Some(string_of(name))
            }
        },
        None => None,
    }
}

/// The package and range of a dependency line: what stands before and after the
/// first colon and blank, without quotes.
pub open spec fn yarn_dependency(line: Seq<char>) -> Option<(Seq<char>, Seq<char>)> {
    match find_from(line, ": "@, 0) {
        Some(p) => {
            let name = unquoted(trim(line.take(p)));
            let range = unquoted(trim(line.skip(p + ": "@.len())));
            if name.len() == 0 {
                None
            } else {
                Some((name, range))
            }
        },
        None => None,
    }
}

/// The package and range of a line such as `"@scope/name": "npm:^1.0.0"`.
pub fn parse_yarn_dep_line(line: &str) -> (r: Option<(String, String)>)
    ensures
        match r {
            Some(d) => yarn_dependency(line@) == Some((d.0@, d.1@)),
            None => yarn_dependency(line@) is None,
        },
{
    let c = chars_of(line);
    let sep = chars_of(": ");
    match find_chars(c.as_slice(), sep.as_slice(), 0) {
        Some(p) => {
            let end: usize = c.len();
            let start: usize = p + sep.len();
            let head = vstd::slice::slice_subrange(c.as_slice(), 0, p);
            let tail = vstd::slice::slice_subrange(c.as_slice(), start, end);
            assert(head@ =~= line@.take(p as int));
            assert(tail@ =~= line@.skip(p + sep@.len()));
            let name = drop_quotes(trim_chars(head));
            let range = drop_quotes(trim_chars(tail));
            if name.len() == 0 {
                None
            } else {
                Some((string_of(name), string_of(range)))
            }
        },
        None => None,
    }
}

/// Which list of dependencies is being read.
#[derive(Debug, Clone, Copy, PartialEq, Eq, Structural)]
pub enum YarnSection {
    Other,
    Dependencies,
    PeerDependencies,
}

/// How far a yarn lockfile was read: the entries so far and what is known of the
/// current one.
#[verifier::ext_equal]
pub ghost struct YarnState {
    pub entries: Seq<LockfileEntryView>,
    pub name: Option<Seq<char>>,
    pub version: Option<Seq<char>>,
    pub dependencies: Map<Seq<char>, Seq<char>>,
    pub peer_dependencies: Map<Seq<char>, Seq<char>>,
    pub section: YarnSection,
}

impl YarnState {
    /// The entries with the current one, if its name and version are known.
    pub open spec fn completed(self) -> Seq<LockfileEntryView> {
        if self.name is Some && self.version is Some {
            self.entries.push(
                LockfileEntryView {
                    name: self.name->0,
                    version: self.version->0,
                    dependencies: self.dependencies,
                    peer_dependencies: self.peer_dependencies,
                },
            )
        } else {
            self.entries
        }
    }

    /// What one line adds.
    pub open spec fn after(self, line: Seq<char>) -> YarnState {
        let t = trim(line);
        if starts_with(line, "\""@) && ends_with(line, ":"@) {
            YarnState {
                entries: self.completed(),
                name: yarn_key_name(line),
                version: None,
                dependencies: Map::empty(),
                peer_dependencies: Map::empty(),
                section: YarnSection::Other,
            }
        } else if starts_with(t, "version: "@) && self.name is Some {
            YarnState {
                version: Some(without_prefixes(t, "version: "@)),
                section: YarnSection::Other,
                ..self
            }
        } else if t == "dependencies:"@ {
            YarnState { section: YarnSection::Dependencies, ..self }
        } else if t == "peerDependencies:"@ {
            YarnState { section: YarnSection::PeerDependencies, ..self }
        } else if self.section == YarnSection::Other {
            self
        } else if !starts_with(line, "    "@) {
            YarnState { section: YarnSection::Other, ..self }
        } else {
            match yarn_dependency(t) {
                Some(d) => YarnState {
                    dependencies: or_insert(self.dependencies, d.0, d.1),
                    peer_dependencies: if self.section == YarnSection::PeerDependencies {
                        or_insert(self.peer_dependencies, d.0, d.1)
                    } else {
                        self.peer_dependencies
                    },
                    ..self
                },
                None => self,
            }
        }
    }
}

/// The state after the first lines of a yarn lockfile.
pub open spec fn yarn_state(all: Seq<Seq<char>>) -> YarnState
    decreases all.len(),
{
    if all.len() == 0 {
        YarnState {
            entries: Seq::empty(),
            name: None,
            version: None,
            dependencies: Map::empty(),
            peer_dependencies: Map::empty(),
            section: YarnSection::Other,
        }
    } else {
        yarn_state(all.drop_last()).after(all.last())
    }
}

/// What a yarn lockfile resolves.
pub open spec fn yarn_locked(content: Seq<char>) -> Seq<LockfileEntryView> {
    yarn_state(lines(content)).completed()
}

/// What is known of the current entry of a yarn lockfile.
struct YarnReader {
    entries: Vec<LockfileEntry>,
    name: Option<String>,
    version: Option<String>,
    dependencies: Ranges,
    peer_dependencies: Ranges,
    section: YarnSection,
}

impl YarnReader {
    spec fn view(&self) -> YarnState {
        YarnState {
            entries: lock_views(self.entries@),
            name: opt_text(self.name),
            version: opt_text(self.version),
            dependencies: ranges_view(self.dependencies),
            peer_dependencies: ranges_view(self.peer_dependencies),
            section: self.section,
        }
    }

    fn new() -> (r: YarnReader)
        ensures
            r@ == yarn_state(Seq::empty()),
    {
        let r = YarnReader {
            entries: Vec::new(),
            name: None,
            version: None,
            dependencies: no_ranges(),
            peer_dependencies: no_ranges(),
            section: YarnSection::Other,
        };
        assert(lock_views(r.entries@) =~= Seq::<LockfileEntryView>::empty());
        r
    }

    fn complete(self) -> (r: Vec<LockfileEntry>)
        ensures
            lock_views(r@) == self@.completed(),
    {
        let mut entries = self.entries;
        if let (Some(name), Some(version)) = (self.name, self.version) {
            let entry = LockfileEntry {
                name,
                version,
                dependencies: self.dependencies,
                peer_dependencies: self.peer_dependencies,
            };
            push_lock(&mut entries, entry);
        }
        entries
    }

    fn read_line(self, line: &str) -> (r: YarnReader)
        ensures
            r@ == self@.after(line@),
    {
        if starts_with_text(line, "\"") && ends_with_text(line, ":") {
            return YarnReader {
                entries: self.complete(),
                name: extract_package_name_from_yarn_key(line),
                version: None,
                dependencies: no_ranges(),
                peer_dependencies: no_ranges(),
                section: YarnSection::Other,
            };
        }
        let t = trimmed(line);
        if starts_with_text(t.as_str(), "version: ") && self.name.is_some() {
            proof {
                reveal_strlit("version: ");
            }
            return YarnReader {
                version: Some(drop_prefixes(t.as_str(), "version: ")),
                section: YarnSection::Other,
                ..self
            };
        }
        if same_text(t.as_str(), "dependencies:") {
            return YarnReader { section: YarnSection::Dependencies, ..self };
        }
        if same_text(t.as_str(), "peerDependencies:") {
            return YarnReader { section: YarnSection::PeerDependencies, ..self };
        }
        if self.section == YarnSection::Other {
            return self;
        }
        if !starts_with_text(line, "    ") {
            return YarnReader { section: YarnSection::Other, ..self };
        }
        let ghost before = self@;
        let mut reader = self;
        if let Some((name, range)) = parse_yarn_dep_line(t.as_str()) {
            insert_new(&mut reader.dependencies, name.as_str(), range.as_str());
            if reader.section == YarnSection::PeerDependencies {
                insert_new(&mut reader.peer_dependencies, name.as_str(), range.as_str());
            }
        }
        assert(reader@ =~= before.after(line@));
        reader
    }
}

/// What the text of a berry `yarn.lock` resolves: an entry for every quoted header
/// with a name and a version below it, in order.
pub fn parse_yarn_lock_berry(content: &str) -> (r: Result<Vec<LockfileEntry>, LockfileError>)
    ensures
        entries_result(r) == EntriesView::Ok(yarn_locked(content@)),
{
    let all = lines_text(content);
    let ghost t = lines(content@);
    let mut reader = YarnReader::new();
    let mut i: usize = 0;
    assert(t.take(0) =~= Seq::<Seq<char>>::empty());
    while i < all.len()
        invariant
            i <= all@.len(),
            t == texts(all@),
            reader@ == yarn_state(t.take(i as int)),
        decreases all@.len() - i,
    {
        assert(t.take(i + 1).drop_last() =~= t.take(i as int));
        assert(t.take(i + 1).last() == all@[i as int]@);
        reader = reader.read_line(all[i].as_str());
        i = i + 1;
    }
    assert(t.take(t.len() as int) =~= t);
    Ok(reader.complete())
}

proof fn lemma_yarn_state_peers(all: Seq<Seq<char>>)
    ensures
        all_peers_are_dependencies(yarn_state(all).entries),
        yarn_state(all).peer_dependencies.dom().subset_of(yarn_state(all).dependencies.dom()),
    decreases all.len(),
{
    if all.len() > 0 {
        lemma_yarn_state_peers(all.drop_last());
    }
}

/// Peer dependencies of a yarn lockfile are among the dependencies.
pub proof fn yarn_peers_are_dependencies(content: Seq<char>)
    ensures
        all_peers_are_dependencies(yarn_locked(content)),
{
    lemma_yarn_state_peers(lines(content));
}

// ── pnpm-lock.yaml ──────────────────────────────────────────────────────

/// `s` up to a character, if it occurs.
pub open spec fn upto(s: Seq<char>, stop: Seq<char>) -> Seq<char> {
    match find_from(s, stop, 0) {
        Some(p) => s.take(p),
        None => s,
    }
}

/// Where the version of a key begins: at the first `@`, in a scoped name at the first
/// one after the slash.
pub open spec fn pnpm_at(key: Seq<char>) -> Option<int> {
    if starts_with(key, "@"@) {
        match find_from(key, "/"@, 0) {
            Some(slash) => find_from(key, "@"@, slash + 1),
            None => None,
        }
    } else {
        find_from(key, "@"@, 0)
    }
}

/// The name and version in a key; what follows in parentheses is not part of it.
pub open spec fn pnpm_key(key: Seq<char>) -> Option<(Seq<char>, Seq<char>)> {
    match pnpm_at(key) {
        Some(p) => {
            let name = trim(key.take(p));
            let version = trim(upto(key.skip(p + 1), "("@));
            if name.len() == 0 || version.len() == 0 {
                None
            } else {
                Some((name, version))
            }
        },
        None => None,
    }
}

/// A version without the peers in parentheses behind it.
pub open spec fn without_peers(version: Seq<char>) -> Seq<char> {
    trim(upto(version, "("@))
}

fn chars_upto<'a>(s: &'a [char], stop: &str) -> (r: &'a [char])
    ensures
        r@ == upto(s@, stop@),
{
    let needle = chars_of(stop);
    match find_chars(s, needle.as_slice(), 0) {
        Some(p) => {
            let r = vstd::slice::slice_subrange(s, 0, p);
            assert(r@ =~= s@.take(p as int));
            r
        },
        None => s,
    }
}

fn find_pnpm_at(key: &Vec<char>) -> (r: Option<usize>)
    ensures
        match r {
            Some(p) => pnpm_at(key@) == Some(p as int) && p < key@.len(),
            None => pnpm_at(key@) is None,
        },
{
    let at = chars_of("@");
    proof {
        reveal_strlit("@");
        reveal_strlit("/");
    }
    if crate::text::occurs_at_chars(key.as_slice(), at.as_slice(), 0) {
        let slash = chars_of("/");
        match find_chars(key.as_slice(), slash.as_slice(), 0) {
            Some(p) => {
                let total: usize = key.len();
                assert(p < total);
                find_chars(key.as_slice(), at.as_slice(), p + 1)
            },
            None => None,
        }
    } else {
        find_chars(key.as_slice(), at.as_slice(), 0)
    }
}

/// The name and version in a key without its leading slash:
/// `@scope/name@1.0.0(react@18.2.0)` is version `1.0.0` of `@scope/name`.
pub fn extract_name_version_from_pnpm_key(key: &str) -> (r: Option<(String, String)>)
    ensures
        match r {
            Some(d) => pnpm_key(key@) == Some((d.0@, d.1@)),
            None => pnpm_key(key@) is None,
        },
{
    let c = chars_of(key);
    match find_pnpm_at(&c) {
        Some(p) => {
            let end: usize = c.len();
            let head = vstd::slice::slice_subrange(c.as_slice(), 0, p);
            let tail = vstd::slice::slice_subrange(c.as_slice(), p + 1, end);
            assert(head@ =~= key@.take(p as int));
            assert(tail@ =~= key@.skip(p + 1));
            let name = trim_chars(head);
            let version = trim_chars(chars_upto(tail, "("));
            if name.len() == 0 || version.len() == 0 {
                None
            } else {
                Some((string_of(name), string_of(version)))
            }
        },
        None => None,
    }
}

/// A version without the peers in parentheses behind it: `18.2.0(react@18.2.0)` is
/// `18.2.0`.
pub fn strip_pnpm_peer_suffix(version: &str) -> (r: String)
    ensures
        r@ == without_peers(version@),
{
    let c = chars_of(version);
    string_of(trim_chars(chars_upto(c.as_slice(), "(")))
}

/// `m` with the versions of the first entries of a section that are not in it.
/// Entries without a name, or with a value that is neither text nor number, are left
/// out.
pub open spec fn with_versions(
    m: Map<Seq<char>, Seq<char>>,
    entries: Seq<(YamlView, YamlView)>,
) -> Map<Seq<char>, Seq<char>>
    decreases entries.len(),
{
    if entries.len() == 0 {
        m
    } else {
        let before = with_versions(m, entries.drop_last());
        match (yaml_text(entries.last().0), scalar_text(entries.last().1)) {
            (Some(name), Some(version)) => or_insert(before, name, without_peers(version)),
            _ => before,
        }
    }
}

/// The entries of a section.
pub open spec fn pnpm_section(package: YamlView, section: Seq<char>) -> Seq<(YamlView, YamlView)> {
    match yaml_field(package, section) {
        Some(s) => match as_mapping(s) {
            Some(e) => e,
            None => Seq::empty(),
        },
        None => Seq::empty(),
    }
}

/// All dependencies of a package: its own, its peer and its optional ones.
pub open spec fn pnpm_dependencies(package: YamlView) -> Map<Seq<char>, Seq<char>> {
    with_versions(
        with_versions(
            with_versions(Map::empty(), pnpm_section(package, "dependencies"@)),
            pnpm_section(package, "peerDependencies"@),
        ),
        pnpm_section(package, "optionalDependencies"@),
    )
}

pub open spec fn pnpm_peers(package: YamlView) -> Map<Seq<char>, Seq<char>> {
    with_versions(Map::empty(), pnpm_section(package, "peerDependencies"@))
}

fn add_versions(m: &mut Ranges, package: &Yaml, section: &str)
    ensures
        ranges_view(*final(m)) == with_versions(ranges_view(*old(m)), pnpm_section(package@, section@)),
{
    let ghost before = ranges_view(*m);
    let entries = match package.get(section) {
        Some(s) => match s.as_mapping() {
            Some(e) => e,
            None => {
                return;
            },
        },
        None => {
            return;
        },
    };
    let ghost v = pair_views(entries@);
    assert(v == pnpm_section(package@, section@));
    let mut i: usize = 0;
    assert(v.take(0) =~= Seq::<(YamlView, YamlView)>::empty());
    while i < entries.len()
        invariant
            i <= entries@.len(),
            v == pair_views(entries@),
            ranges_view(*m) == with_versions(before, v.take(i as int)),
        decreases entries@.len() - i,
    {
        assert(v.take(i + 1).drop_last() =~= v.take(i as int));
        assert(v.take(i + 1).last() == v[i as int]);
        if let (Some(name), Some(raw)) = (entries[i].0.as_str(), entries[i].1.scalar()) {
            let version = strip_pnpm_peer_suffix(raw.as_str());
            insert_new(m, name, version.as_str());
        }
        i = i + 1;
    }
    assert(v.take(v.len() as int) =~= v);
}

/// All dependencies of a package, and the peer dependencies alone.
pub fn collect_pnpm_dependencies(value: &Yaml) -> (r: (Ranges, Ranges))
    ensures
        ranges_view(r.0) == pnpm_dependencies(value@),
        ranges_view(r.1) == pnpm_peers(value@),
{
    let mut all = no_ranges();
    let mut peers = no_ranges();
    add_versions(&mut all, value, "dependencies");
    add_versions(&mut all, value, "peerDependencies");
    add_versions(&mut all, value, "optionalDependencies");
    add_versions(&mut peers, value, "peerDependencies");
    (all, peers)
}

proof fn lemma_with_versions_dom(
    m: Map<Seq<char>, Seq<char>>,
    n: Map<Seq<char>, Seq<char>>,
    entries: Seq<(YamlView, YamlView)>,
)
    requires
        m.dom().subset_of(n.dom()),
    ensures
        with_versions(m, entries).dom().subset_of(with_versions(n, entries).dom()),
        n.dom().subset_of(with_versions(n, entries).dom()),
    decreases entries.len(),
{
    if entries.len() > 0 {
        lemma_with_versions_dom(m, n, entries.drop_last());
    }
}

proof fn lemma_pnpm_peers(package: YamlView)
    ensures
        pnpm_peers(package).dom().subset_of(pnpm_dependencies(package).dom()),
{
    let own = with_versions(Map::empty(), pnpm_section(package, "dependencies"@));
    let peers = pnpm_section(package, "peerDependencies"@);
    lemma_with_versions_dom(Map::empty(), own, peers);
    lemma_with_versions_dom(
        with_versions(own, peers),
        with_versions(own, peers),
        pnpm_section(package, "optionalDependencies"@),
    );
}

/// The key of a package: without a leading slash in the older format.
pub open spec fn pnpm_package_key(key: YamlView) -> Option<(Seq<char>, Seq<char>)> {
    match yaml_text(key) {
        Some(k) => pnpm_key(
            match without_prefix(k, "/"@) {
                Some(rest) => rest,
                None => k,
            },
        ),
        None => None,
    }
}

/// The entries of the older format: one for every package with a name and version.
pub open spec fn pnpm_v6_entries(packages: Seq<(YamlView, YamlView)>) -> Seq<LockfileEntryView>
    decreases packages.len(),
{
    if packages.len() == 0 {
        Seq::empty()
    } else {
        let before = pnpm_v6_entries(packages.drop_last());
        match pnpm_package_key(packages.last().0) {
            Some(k) => before.push(
                LockfileEntryView {
                    name: k.0,
                    version: k.1,
                    dependencies: pnpm_dependencies(packages.last().1),
                    peer_dependencies: pnpm_peers(packages.last().1),
                },
            ),
            None => before,
        }
    }
}

/// What a lockfile of the older format resolves.
pub fn parse_pnpm_v6(lock: &Yaml) -> (r: Vec<LockfileEntry>)
    ensures
        lock_views(r@) == pnpm_v6_entries(pnpm_section(lock@, "packages"@)),
{
    let mut out: Vec<LockfileEntry> = Vec::new();
    assert(lock_views(out@) =~= Seq::<LockfileEntryView>::empty());
    let packages = match lock.get("packages") {
        Some(p) => match p.as_mapping() {
            Some(e) => e,
            None => {
                return out;
            },
        },
        None => {
            return out;
        },
    };
    let ghost v = pair_views(packages@);
    assert(v == pnpm_section(lock@, "packages"@));
    let mut i: usize = 0;
    assert(lock_views(out@) =~= pnpm_v6_entries(v.take(0)));
    while i < packages.len()
        invariant
            i <= packages@.len(),
            v == pair_views(packages@),
            lock_views(out@) == pnpm_v6_entries(v.take(i as int)),
        decreases packages@.len() - i,
    {
        assert(v.take(i + 1).drop_last() =~= v.take(i as int));
        assert(v.take(i + 1).last() == v[i as int]);
        if let Some(k) = packages[i].0.as_str() {
            let parts = match strip_prefix_text(k, "/") {
                Some(rest) => extract_name_version_from_pnpm_key(rest.as_str()),
                None => extract_name_version_from_pnpm_key(k),
            };
            if let Some((name, version)) = parts {
                let (dependencies, peer_dependencies) = collect_pnpm_dependencies(&packages[i].1);
                push_lock(
                    &mut out,
                    LockfileEntry { name, version, dependencies, peer_dependencies },
                );
            }
        }
        i = i + 1;
    }
    assert(v.take(v.len() as int) =~= v);
    out
}

// The newer format lists packages with the peers that they declare under `packages`,
// and their dependencies under `snapshots`, which may hold a package several times.

/// The position from `i` on of the entry for a package and version.
pub open spec fn resolved_position(
    v: Seq<LockfileEntryView>,
    name: Seq<char>,
    version: Seq<char>,
    i: int,
) -> Option<int>
    decreases v.len() - i,
{
    if i < 0 || i >= v.len() {
        None
    } else if v[i].name == name && v[i].version == version {
        Some(i)
    } else {
        resolved_position(v, name, version, i + 1)
    }
}

/// `m` with the entries of `more` that are not in it.
pub open spec fn merged_ranges(
    m: Map<Seq<char>, Seq<char>>,
    more: Map<Seq<char>, Seq<char>>,
) -> Map<Seq<char>, Seq<char>> {
    more.union_prefer_right(m)
}

/// The entries for the keys of `packages`, each once, with the peer dependencies that
/// they declare and nothing else.
pub open spec fn listed_packages(packages: Seq<(YamlView, YamlView)>) -> Seq<LockfileEntryView>
    decreases packages.len(),
{
    if packages.len() == 0 {
        Seq::empty()
    } else {
        let before = listed_packages(packages.drop_last());
        match yaml_text(packages.last().0) {
            Some(text) => match pnpm_key(text) {
                Some(k) => match resolved_position(before, k.0, k.1, 0) {
                    Some(p) => before.update(
                        p,
                        LockfileEntryView {
                            peer_dependencies: merged_ranges(
                                before[p].peer_dependencies,
                                pnpm_peers(packages.last().1),
                            ),
                            ..before[p]
                        },
                    ),
                    None => before.push(
                        LockfileEntryView {
                            name: k.0,
                            version: k.1,
                            dependencies: Map::empty(),
                            peer_dependencies: pnpm_peers(packages.last().1),
                        },
                    ),
                },
                None => before,
            },
            None => before,
        }
    }
}

/// `v` with the dependencies of some snapshots: merged into the entry of the package,
/// or in an entry of its own where there is none.
pub open spec fn with_snapshots(
    v: Seq<LockfileEntryView>,
    snapshots: Seq<(YamlView, YamlView)>,
) -> Seq<LockfileEntryView>
    decreases snapshots.len(),
{
    if snapshots.len() == 0 {
        v
    } else {
        let before = with_snapshots(v, snapshots.drop_last());
        let snapshot = snapshots.last().1;
        match yaml_text(snapshots.last().0) {
            Some(text) => match pnpm_key(text) {
                Some(k) => match resolved_position(before, k.0, k.1, 0) {
                    Some(p) => before.update(
                        p,
                        LockfileEntryView {
                            dependencies: merged_ranges(
                                before[p].dependencies,
                                pnpm_dependencies(snapshot),
                            ),
                            peer_dependencies: merged_ranges(
                                before[p].peer_dependencies,
                                pnpm_peers(snapshot),
                            ),
                            ..before[p]
                        },
                    ),
                    None => before.push(
                        LockfileEntryView {
                            name: k.0,
                            version: k.1,
                            dependencies: pnpm_dependencies(snapshot),
                            peer_dependencies: pnpm_peers(snapshot),
                        },
                    ),
                },
                None => before,
            },
            None => before,
        }
    }
}

/// An entry whose peer dependencies are among its dependencies: a range that stands
/// there already is kept.
pub open spec fn with_peers(e: LockfileEntryView) -> LockfileEntryView {
    LockfileEntryView {
        dependencies: merged_ranges(e.dependencies, e.peer_dependencies),
        ..e
    }
}

pub open spec fn all_with_peers(v: Seq<LockfileEntryView>) -> Seq<LockfileEntryView> {
    Seq::new(v.len(), |i: int| with_peers(v[i]))
}

/// The entries of the newer format: the packages with the dependencies of their
/// snapshots and, where those name none, the peers that they declare.
pub open spec fn pnpm_v9_entries(
    packages: Seq<(YamlView, YamlView)>,
    snapshots: Seq<(YamlView, YamlView)>,
) -> Seq<LockfileEntryView> {
    all_with_peers(with_snapshots(listed_packages(packages), snapshots))
}

fn position_of_resolved(v: &Vec<LockfileEntry>, name: &str, version: &str) -> (r: Option<usize>)
    ensures
        match r {
            Some(k) => resolved_position(lock_views(v@), name@, version@, 0) == Some(k as int) && k
                < v@.len(),
            None => resolved_position(lock_views(v@), name@, version@, 0) is None,
        },
{
    let mut i: usize = 0;
    while i < v.len()
        invariant
            i <= v@.len(),
            resolved_position(lock_views(v@), name@, version@, 0) == resolved_position(
                lock_views(v@),
                name@,
                version@,
                i as int,
            ),
        decreases v@.len() - i,
    {
        if same_text(v[i].name.as_str(), name) && same_text(v[i].version.as_str(), version) {
            return Some(i);
        }
        i = i + 1;
    }
    None
}

fn merge_ranges(m: &mut Ranges, more: &Ranges)
    ensures
        ranges_view(*final(m)) == merged_ranges(ranges_view(*old(m)), ranges_view(*more)),
{
    let ghost before = ranges_view(*m);
    let n: usize = more.len();
    let ghost keys = more.keys();
    let mut i: usize = 0;
    while i < n
        invariant
            i <= n,
            n == keys.len(),
            keys == more.keys(),
            more.values().len() == n,
            forall|k: int|
                0 <= k < n ==> more@.dom().contains(#[trigger] keys[k]) && more@[keys[k]]
                    == more.values()[k],
            forall|x: Seq<char>|
                #[trigger] ranges_view(*m).dom().contains(x) <==> (before.dom().contains(x) || keys.take(
                    i as int,
                ).contains(x)),
            forall|x: Seq<char>| #[trigger]
                ranges_view(*m).dom().contains(x) ==> ranges_view(*m)[x] == (if before.dom().contains(
                    x,
                ) {
                    before[x]
                } else {
                    ranges_view(*more)[x]
                }),
        decreases n - i,
    {
        let ghost prior = ranges_view(*m);
        let ghost key = keys[i as int];
        insert_new(m, more.key_at(i).as_str(), more.value_at(i).as_str());
        proof {
            assert(ranges_view(*more)[key] == more.values()[i as int]@);
            assert(keys.take(i + 1) =~= keys.take(i as int).push(key));
            assert forall|x: Seq<char>|
                #[trigger] ranges_view(*m).dom().contains(x) <==> (before.dom().contains(x) || keys.take(
                    i + 1,
                ).contains(x)) by {
                assert(prior.dom().contains(x) <==> (before.dom().contains(x) || keys.take(
                    i as int,
                ).contains(x)));
                if keys.take(i as int).contains(x) {
                    let k = choose|k: int| 0 <= k < i && keys.take(i as int)[k] == x;
                    assert(keys.take(i + 1)[k] == x);
                }
                if x == key {
                    assert(keys.take(i + 1)[i as int] == x);
                }
            }
            assert forall|x: Seq<char>| #[trigger]
                ranges_view(*m).dom().contains(x) implies ranges_view(*m)[x] == (
            if before.dom().contains(x) {
                before[x]
            } else {
                ranges_view(*more)[x]
            }) by {
                if prior.dom().contains(x) {
                    assert(ranges_view(*m)[x] == prior[x]);
                }
            }
        }
        i = i + 1;
    }
    proof {
        assert(keys.take(n as int) =~= keys);
        assert forall|x: Seq<char>|
            ranges_view(*more).dom().contains(x) <==> #[trigger] keys.contains(x) by {
            assert(more@.dom().contains(x) <==> more.keys().contains(x));
        }
        assert(ranges_view(*m) =~= merged_ranges(before, ranges_view(*more)));
    }
}

fn list_packages(lock: &Yaml) -> (r: Vec<LockfileEntry>)
    ensures
        lock_views(r@) == listed_packages(pnpm_section(lock@, "packages"@)),
{
    let mut out: Vec<LockfileEntry> = Vec::new();
    assert(lock_views(out@) =~= Seq::<LockfileEntryView>::empty());
    let packages = match lock.get("packages") {
        Some(p) => match p.as_mapping() {
            Some(e) => e,
            None => {
                return out;
            },
        },
        None => {
            return out;
        },
    };
    let ghost v = pair_views(packages@);
    assert(v == pnpm_section(lock@, "packages"@));
    let mut i: usize = 0;
    assert(lock_views(out@) =~= listed_packages(v.take(0)));
    while i < packages.len()
        invariant
            i <= packages@.len(),
            v == pair_views(packages@),
            lock_views(out@) == listed_packages(v.take(i as int)),
        decreases packages@.len() - i,
    {
        assert(v.take(i + 1).drop_last() =~= v.take(i as int));
        assert(v.take(i + 1).last() == v[i as int]);
        if let Some(k) = packages[i].0.as_str() {
            if let Some((name, version)) = extract_name_version_from_pnpm_key(k) {
                let mut peers = no_ranges();
                add_versions(&mut peers, &packages[i].1, "peerDependencies");
                match position_of_resolved(&out, name.as_str(), version.as_str()) {
                    Some(p) => {
                        let ghost before = lock_views(out@);
                        let mut entry = out.remove(p);
                        merge_ranges(&mut entry.peer_dependencies, &peers);
                        let ghost now = entry@;
                        out.insert(p, entry);
                        assert(lock_views(out@) =~= before.update(p as int, now));
                    },
                    None => {
                        push_lock(
                            &mut out,
                            LockfileEntry {
                                name,
                                version,
                                dependencies: no_ranges(),
                                peer_dependencies: peers,
                            },
                        );
                    },
                }
            }
        }
        i = i + 1;
    }
    assert(v.take(v.len() as int) =~= v);
    out
}

/// The packages of a lockfile of the newer format with the dependencies of all their
/// snapshots.
fn list_snapshots(lock: &Yaml) -> (r: Vec<LockfileEntry>)
    ensures
        lock_views(r@) == with_snapshots(
            listed_packages(pnpm_section(lock@, "packages"@)),
            pnpm_section(lock@, "snapshots"@),
        ),
{
    let mut out = list_packages(lock);
    let ghost listed = lock_views(out@);
    let snapshots = match lock.get("snapshots") {
        Some(p) => match p.as_mapping() {
            Some(e) => e,
            None => {
                return out;
            },
        },
        None => {
            return out;
        },
    };
    let ghost v = pair_views(snapshots@);
    assert(v == pnpm_section(lock@, "snapshots"@));
    let mut i: usize = 0;
    assert(v.take(0) =~= Seq::<(YamlView, YamlView)>::empty());
    while i < snapshots.len()
        invariant
            i <= snapshots@.len(),
            v == pair_views(snapshots@),
            lock_views(out@) == with_snapshots(listed, v.take(i as int)),
        decreases snapshots@.len() - i,
    {
        assert(v.take(i + 1).drop_last() =~= v.take(i as int));
        assert(v.take(i + 1).last() == v[i as int]);
        if let Some(k) = snapshots[i].0.as_str() {
            if let Some((name, version)) = extract_name_version_from_pnpm_key(k) {
                let (dependencies, peers) = collect_pnpm_dependencies(&snapshots[i].1);
                match position_of_resolved(&out, name.as_str(), version.as_str()) {
                    Some(p) => {
                        let ghost before = lock_views(out@);
                        let mut entry = out.remove(p);
                        merge_ranges(&mut entry.dependencies, &dependencies);
                        merge_ranges(&mut entry.peer_dependencies, &peers);
                        let ghost now = entry@;
                        out.insert(p, entry);
                        assert(lock_views(out@) =~= before.update(p as int, now));
                    },
                    None => {
                        push_lock(
                            &mut out,
                            LockfileEntry { name, version, dependencies, peer_dependencies: peers },
                        );
                    },
                }
            }
        }
        i = i + 1;
    }
    assert(v.take(v.len() as int) =~= v);
    out
}

fn add_peers(v: Vec<LockfileEntry>) -> (r: Vec<LockfileEntry>)
    ensures
        lock_views(r@) == all_with_peers(lock_views(v@)),
{
    let ghost all = v@;
    let total: usize = v.len();
    let mut rest = v;
    let mut out: Vec<LockfileEntry> = Vec::new();
    let mut i: usize = 0;
    while i < total
        invariant
            i <= total,
            total == all.len(),
            rest@ == all.skip(i as int),
            out@.len() == i,
            forall|k: int| 0 <= k < i ==> (#[trigger] out@[k])@ == with_peers(all[k]@),
        decreases total - i,
    {
        let LockfileEntry { name, version, dependencies, peer_dependencies } = rest.remove(0);
        assert(rest@ =~= all.skip(i + 1));
        let mut merged = dependencies;
        merge_ranges(&mut merged, &peer_dependencies);
        out.push(LockfileEntry { name, version, dependencies: merged, peer_dependencies });
        i = i + 1;
    }
    assert(lock_views(out@) =~= all_with_peers(lock_views(all)));
    out
}

/// What a lockfile of the newer format resolves: every package and version once, with
/// the dependencies of all its snapshots and the peers that it declares.
pub fn parse_pnpm_v9(lock: &Yaml) -> (r: Vec<LockfileEntry>)
    ensures
        lock_views(r@) == pnpm_v9_entries(
            pnpm_section(lock@, "packages"@),
            pnpm_section(lock@, "snapshots"@),
        ),
{
    add_peers(list_snapshots(lock))
}

/// The version of the lockfile format, as text.
pub open spec fn format_version(lock: YamlView) -> Seq<char> {
    match yaml_field(lock, "lockfileVersion"@) {
        Some(v) => match scalar_text(v) {
            Some(t) => t,
            None => Seq::empty(),
        },
        None => Seq::empty(),
    }
}

/// What a pnpm lockfile resolves: versions of the format that begin with a nine are
/// read in the newer way, all others in the older.
pub open spec fn pnpm_locked(lock: Option<YamlView>) -> EntriesView {
    match lock {
        Some(y) => Ok(
            if starts_with(format_version(y), "9"@) {
                pnpm_v9_entries(pnpm_section(y, "packages"@), pnpm_section(y, "snapshots"@))
            } else {
                pnpm_v6_entries(pnpm_section(y, "packages"@))
            },
        ),
        None => Err(LockfileErrorView::InvalidPnpmLock),
    }
}

/// What a pnpm lockfile that was read as YAML resolves.
pub fn pnpm_entries_of(lock: &Option<Yaml>) -> (r: Result<Vec<LockfileEntry>, LockfileError>)
    ensures
        entries_result(r) == pnpm_locked(opt_yaml(*lock)),
{
    let yaml = match lock {
        Some(y) => y,
        None => {
            return Err(LockfileError::InvalidPnpmLock);
        },
    };
    let nothing = String::new();
    assert(nothing@ =~= Seq::<char>::empty());
    let version = match yaml.get("lockfileVersion") {
        Some(v) => match v.scalar() {
            Some(s) => s,
            None => &nothing,
        },
        None => &nothing,
    };
    if starts_with_text(version.as_str(), "9") {
        Ok(parse_pnpm_v9(yaml))
    } else {
        Ok(parse_pnpm_v6(yaml))
    }
}

/// What the text of a `pnpm-lock.yaml` resolves.
pub fn parse_pnpm_lock_yaml(content: &str) -> (r: Result<Vec<LockfileEntry>, LockfileError>)
    ensures
        entries_result(r) == pnpm_locked(yaml_denoted(content@)),
{
    let lock = parse_yaml(content);
    pnpm_entries_of(&lock)
}

/// Whether no package and version has two entries.
pub open spec fn resolved_once(v: Seq<LockfileEntryView>) -> bool {
    forall|i: int, j: int|
        0 <= i < j < v.len() ==> (#[trigger] v[i]).name != (#[trigger] v[j]).name || v[i].version
            != v[j].version
}

proof fn lemma_resolved_position(v: Seq<LockfileEntryView>, name: Seq<char>, version: Seq<char>, i: int)
    requires
        0 <= i,
    ensures
        match resolved_position(v, name, version, i) {
            Some(k) => i <= k < v.len() && v[k].name == name && v[k].version == version,
            None => forall|k: int|
                i <= k < v.len() ==> (#[trigger] v[k]).name != name || v[k].version != version,
        },
    decreases v.len() - i,
{
    if i < v.len() && !(v[i].name == name && v[i].version == version) {
        lemma_resolved_position(v, name, version, i + 1);
    }
}

proof fn lemma_listed_once(packages: Seq<(YamlView, YamlView)>)
    ensures
        resolved_once(listed_packages(packages)),
    decreases packages.len(),
{
    if packages.len() > 0 {
        lemma_listed_once(packages.drop_last());
        let before = listed_packages(packages.drop_last());
        let now = listed_packages(packages);
        if let Some(text) = yaml_text(packages.last().0) {
            if let Some(k) = pnpm_key(text) {
                lemma_resolved_position(before, k.0, k.1, 0);
                if resolved_position(before, k.0, k.1, 0) is Some {
                    lemma_still_once(before, now);
                }
            }
        }
    }
}

/// Entries that keep their names and versions stay distinct.
proof fn lemma_still_once(before: Seq<LockfileEntryView>, now: Seq<LockfileEntryView>)
    requires
        resolved_once(before),
        now.len() == before.len(),
        forall|i: int|
            0 <= i < now.len() ==> (#[trigger] now[i]).name == before[i].name && now[i].version
                == before[i].version,
    ensures
        resolved_once(now),
{
    assert forall|i: int, j: int| 0 <= i < j < now.len() implies (#[trigger] now[i]).name != (
    #[trigger] now[j]).name || now[i].version != now[j].version by {
        assert(before[i].name != before[j].name || before[i].version != before[j].version);
    }
}

proof fn lemma_snapshots_once(
    packages: Seq<(YamlView, YamlView)>,
    snapshots: Seq<(YamlView, YamlView)>,
)
    ensures
        resolved_once(with_snapshots(listed_packages(packages), snapshots)),
    decreases snapshots.len(),
{
    let listed = listed_packages(packages);
    if snapshots.len() == 0 {
        lemma_listed_once(packages);
    } else {
        lemma_snapshots_once(packages, snapshots.drop_last());
        let before = with_snapshots(listed, snapshots.drop_last());
        let now = with_snapshots(listed, snapshots);
        if let Some(text) = yaml_text(snapshots.last().0) {
            if let Some(k) = pnpm_key(text) {
                lemma_resolved_position(before, k.0, k.1, 0);
                if resolved_position(before, k.0, k.1, 0) is Some {
                    lemma_still_once(before, now);
                }
            }
        }
    }
}

/// A lockfile of the newer format resolves every package and version once, and its
/// peer dependencies are among the dependencies.
pub proof fn pnpm_resolves_once(
    packages: Seq<(YamlView, YamlView)>,
    snapshots: Seq<(YamlView, YamlView)>,
)
    ensures
        resolved_once(pnpm_v9_entries(packages, snapshots)),
        all_peers_are_dependencies(pnpm_v9_entries(packages, snapshots)),
{
    let found = with_snapshots(listed_packages(packages), snapshots);
    lemma_snapshots_once(packages, snapshots);
    lemma_still_once(found, all_with_peers(found));
}

/// The peers that a package of the newer format declares are kept: they are among the
/// peer dependencies of its entry.
pub proof fn pnpm_declared_peers_are_kept(
    packages: Seq<(YamlView, YamlView)>,
    snapshots: Seq<(YamlView, YamlView)>,
    i: int,
)
    requires
        0 <= i < packages.len(),
        yaml_text(packages[i].0) is Some,
        pnpm_key(yaml_text(packages[i].0)->0) is Some,
    ensures
        ({
            let k = pnpm_key(yaml_text(packages[i].0)->0)->0;
            let v = pnpm_v9_entries(packages, snapshots);
            resolved_position(v, k.0, k.1, 0) matches Some(p) && pnpm_peers(
                packages[i].1,
            ).dom().subset_of(v[p].peer_dependencies.dom())
        }),
{
    let k = pnpm_key(yaml_text(packages[i].0)->0)->0;
    let peers = pnpm_peers(packages[i].1).dom();
    let found = with_snapshots(listed_packages(packages), snapshots);
    let v = pnpm_v9_entries(packages, snapshots);
    lemma_listed_peers(packages, i);
    lemma_snapshot_peers(listed_packages(packages), snapshots, k, peers);
    lemma_snapshots_once(packages, snapshots);
    lemma_still_once(found, v);
    lemma_resolved_position(v, k.0, k.1, 0);
    let q = choose|q: int| #[trigger] holds_peers(found, k, peers, q);
    assert(v[q] == with_peers(found[q]));
    if resolved_position(v, k.0, k.1, 0) is Some {
        let p = resolved_position(v, k.0, k.1, 0)->0;
        let lo = if p < q { p } else { q };
        let hi = if p < q { q } else { p };
        if p != q {
            assert(v[lo].name != v[hi].name || v[lo].version != v[hi].version);
        }
    }
}

/// Whether the entry at `q` is that of a package and holds some peers.
spec fn holds_peers(
    v: Seq<LockfileEntryView>,
    k: (Seq<char>, Seq<char>),
    peers: Set<Seq<char>>,
    q: int,
) -> bool {
    0 <= q < v.len() && v[q].name == k.0 && v[q].version == k.1 && peers.subset_of(
        v[q].peer_dependencies.dom(),
    )
}

proof fn lemma_listed_peers(packages: Seq<(YamlView, YamlView)>, i: int)
    requires
        0 <= i < packages.len(),
        yaml_text(packages[i].0) is Some,
        pnpm_key(yaml_text(packages[i].0)->0) is Some,
    ensures
        exists|q: int| #[trigger]
            holds_peers(
                listed_packages(packages),
                pnpm_key(yaml_text(packages[i].0)->0)->0,
                pnpm_peers(packages[i].1).dom(),
                q,
            ),
    decreases packages.len(),
{
    let k = pnpm_key(yaml_text(packages[i].0)->0)->0;
    let peers = pnpm_peers(packages[i].1).dom();
    let rest = packages.drop_last();
    let before = listed_packages(rest);
    let now = listed_packages(packages);
    if i < rest.len() {
        assert(rest[i] == packages[i]);
        lemma_listed_peers(rest, i);
        let q = choose|q: int| #[trigger] holds_peers(before, k, peers, q);
        if let Some(text) = yaml_text(packages.last().0) {
            if let Some(last) = pnpm_key(text) {
                lemma_resolved_position(before, last.0, last.1, 0);
            }
        }
        assert(holds_peers(now, k, peers, q));
    } else {
        lemma_resolved_position(before, k.0, k.1, 0);
        match resolved_position(before, k.0, k.1, 0) {
            Some(p) => {
                assert(holds_peers(now, k, peers, p));
            },
            None => {
                assert(holds_peers(now, k, peers, before.len() as int));
            },
        }
    }
}

proof fn lemma_snapshot_peers(
    v: Seq<LockfileEntryView>,
    snapshots: Seq<(YamlView, YamlView)>,
    k: (Seq<char>, Seq<char>),
    peers: Set<Seq<char>>,
)
    requires
        exists|q: int| #[trigger] holds_peers(v, k, peers, q),
    ensures
        exists|q: int| #[trigger] holds_peers(with_snapshots(v, snapshots), k, peers, q),
    decreases snapshots.len(),
{
    if snapshots.len() > 0 {
        let before = with_snapshots(v, snapshots.drop_last());
        let now = with_snapshots(v, snapshots);
        lemma_snapshot_peers(v, snapshots.drop_last(), k, peers);
        let q = choose|q: int| #[trigger] holds_peers(before, k, peers, q);
        if let Some(text) = yaml_text(snapshots.last().0) {
            if let Some(last) = pnpm_key(text) {
                lemma_resolved_position(before, last.0, last.1, 0);
            }
        }
        assert(holds_peers(now, k, peers, q));
    } else {
        let q = choose|q: int| #[trigger] holds_peers(v, k, peers, q);
        assert(holds_peers(with_snapshots(v, snapshots), k, peers, q));
    }
}

/// Peer dependencies of a lockfile of the older format are among the dependencies.
pub proof fn pnpm_v6_peers_are_dependencies(packages: Seq<(YamlView, YamlView)>)
    ensures
        all_peers_are_dependencies(pnpm_v6_entries(packages)),
    decreases packages.len(),
{
    if packages.len() > 0 {
        pnpm_v6_peers_are_dependencies(packages.drop_last());
        lemma_pnpm_peers(packages.last().1);
    }
}

// ── Projects ────────────────────────────────────────────────────────────

/// The lockfiles in a directory: the content of each that is there, or why it could
/// not be read.
#[derive(Debug)]
pub struct DirLockfiles {
    pub dir: String,
    pub yarn_lock: Option<Result<String, String>>,
    pub package_lock: Option<Result<String, String>>,
    pub pnpm_lock: Option<Result<String, String>>,
}

/// The path of the lockfile that counts in a directory: yarn's before npm's before
/// pnpm's.
pub open spec fn lockfile_path(d: DirLockfiles) -> Option<Seq<char>> {
    if d.yarn_lock is Some {
        Some(joined_path(d.dir@, "yarn.lock"@))
    } else if d.package_lock is Some {
        Some(joined_path(d.dir@, "package-lock.json"@))
    } else if d.pnpm_lock is Some {
        Some(joined_path(d.dir@, "pnpm-lock.yaml"@))
    } else {
        None
    }
}

/// What the lockfile that counts in a directory resolves; nothing without one.
pub open spec fn locked_in(d: DirLockfiles) -> EntriesView {
    match (d.yarn_lock, d.package_lock, d.pnpm_lock) {
        (Some(Ok(text)), _, _) => Ok(yarn_locked(text@)),
        (Some(Err(_)), _, _) => Err(LockfileErrorView::Unreadable(joined_path(d.dir@, "yarn.lock"@))),
        (None, Some(Ok(text)), _) => npm_locked(json_denoted(text@)),
        (None, Some(Err(_)), _) => Err(
            LockfileErrorView::Unreadable(joined_path(d.dir@, "package-lock.json"@)),
        ),
        (None, None, Some(Ok(text))) => pnpm_locked(yaml_denoted(text@)),
        (None, None, Some(Err(_))) => Err(
            LockfileErrorView::Unreadable(joined_path(d.dir@, "pnpm-lock.yaml"@)),
        ),
        (None, None, None) => Ok(Seq::empty()),
    }
}

/// The path of the lockfile that counts in a directory.
pub fn discover_lockfile_path(dir: &DirLockfiles) -> (r: Option<String>)
    ensures
        opt_text(r) == lockfile_path(*dir),
{
    if dir.yarn_lock.is_some() {
        Some(join_path(dir.dir.as_str(), "yarn.lock"))
    } else if dir.package_lock.is_some() {
        Some(join_path(dir.dir.as_str(), "package-lock.json"))
    } else if dir.pnpm_lock.is_some() {
        Some(join_path(dir.dir.as_str(), "pnpm-lock.yaml"))
    } else {
        None
    }
}

/// What the lockfile of a directory resolves.
pub fn parse_lockfile(root: &DirLockfiles) -> (r: Result<Vec<LockfileEntry>, LockfileError>)
    ensures
        entries_result(r) == locked_in(*root),
{
    parse_lockfile_at(root)
}

/// What the lockfile that counts in a directory resolves. There are no entries
/// without a lockfile.
pub fn parse_lockfile_at(dir: &DirLockfiles) -> (r: Result<Vec<LockfileEntry>, LockfileError>)
    ensures
        entries_result(r) == locked_in(*dir),
{
    if let Some(lock) = &dir.yarn_lock {
        match lock {
            Ok(text) => parse_yarn_lock_berry(text.as_str()),
            Err(_) => Err(LockfileError::Unreadable(join_path(dir.dir.as_str(), "yarn.lock"))),
        }
    } else if let Some(lock) = &dir.package_lock {
        match lock {
            Ok(text) => parse_package_lock_json(text.as_str()),
            Err(_) => Err(LockfileError::Unreadable(join_path(dir.dir.as_str(), "package-lock.json"))),
        }
    } else if let Some(lock) = &dir.pnpm_lock {
        match lock {
            Ok(text) => parse_pnpm_lock_yaml(text.as_str()),
            Err(_) => Err(LockfileError::Unreadable(join_path(dir.dir.as_str(), "pnpm-lock.yaml"))),
        }
    } else {
        let none: Vec<LockfileEntry> = Vec::new();
        assert(lock_views(none@) =~= Seq::<LockfileEntryView>::empty());
        Ok(none)
    }
}

/// The first entry of every package and version.
pub open spec fn deduplicated(v: Seq<LockfileEntryView>) -> Seq<LockfileEntryView>
    decreases v.len(),
{
    if v.len() == 0 {
        Seq::empty()
    } else {
        let before = deduplicated(v.drop_last());
        if resolved_position(before, v.last().name, v.last().version, 0) is Some {
            before
        } else {
            before.push(v.last())
        }
    }
}

/// No package and version is left twice, and none is lost.
pub proof fn deduplication_keeps_each_once(v: Seq<LockfileEntryView>)
    ensures
        resolved_once(deduplicated(v)),
        forall|i: int|
            0 <= i < v.len() ==> resolved_position(
                deduplicated(v),
                (#[trigger] v[i]).name,
                v[i].version,
                0,
            ) is Some,
    decreases v.len(),
{
    if v.len() > 0 {
        let rest = v.drop_last();
        let before = deduplicated(rest);
        let now = deduplicated(v);
        let last = v.last();
        deduplication_keeps_each_once(rest);
        lemma_resolved_position(before, last.name, last.version, 0);
        assert forall|i: int| 0 <= i < v.len() implies resolved_position(
            now,
            (#[trigger] v[i]).name,
            v[i].version,
            0,
        ) is Some by {
            lemma_resolved_position(now, v[i].name, v[i].version, 0);
            if i < rest.len() {
                assert(rest[i] == v[i]);
                lemma_resolved_position(before, v[i].name, v[i].version, 0);
                let k = resolved_position(before, v[i].name, v[i].version, 0)->0;
                assert(now[k] == before[k]);
            } else if resolved_position(before, last.name, last.version, 0) is None {
                assert(now[now.len() - 1] == last);
            }
        }
    }
}

fn deduplicate(v: Vec<LockfileEntry>) -> (r: Vec<LockfileEntry>)
    ensures
        lock_views(r@) == deduplicated(lock_views(v@)),
{
    let ghost all = v@;
    let ghost views = lock_views(all);
    let total: usize = v.len();
    let mut rest = v;
    let mut out: Vec<LockfileEntry> = Vec::new();
    let mut i: usize = 0;
    assert(lock_views(out@) =~= deduplicated(views.take(0)));
    while i < total
        invariant
            i <= total,
            total == all.len(),
            views == lock_views(all),
            rest@ == all.skip(i as int),
            lock_views(out@) == deduplicated(views.take(i as int)),
        decreases total - i,
    {
        assert(views.take(i + 1).drop_last() =~= views.take(i as int));
        let entry = rest.remove(0);
        assert(entry == all[i as int]);
        assert(rest@ =~= all.skip(i + 1));
        assert(views.take(i + 1).last() == entry@);
        if position_of_resolved(&out, entry.name.as_str(), entry.version.as_str()).is_none() {
            push_lock(&mut out, entry);
        }
        i = i + 1;
    }
    assert(views.take(views.len() as int) =~= views);
    out
}

/// Whether directory `i` comes up for the first time and is not the root.
pub open spec fn is_new_dir(dirs: Seq<DirLockfiles>, root: Seq<char>, i: int) -> bool {
    &&& path_spelt(dirs[i].dir@) != path_spelt(root)
    &&& forall|k: int|
        0 <= k < i ==> path_spelt((#[trigger] dirs[k]).dir@) != path_spelt(dirs[i].dir@)
}

/// What the lockfiles of the first `n` directories resolve, and their paths. The root
/// and directories that came up before are passed over; the first error ends it.
pub open spec fn locked_below(
    root: Seq<char>,
    dirs: Seq<DirLockfiles>,
    n: int,
) -> Result<(Seq<LockfileEntryView>, Seq<Seq<char>>), LockfileErrorView>
    decreases n,
{
    if n <= 0 {
        Ok((Seq::empty(), Seq::empty()))
    } else {
        match locked_below(root, dirs, n - 1) {
            Err(e) => Err(e),
            Ok(before) => if !is_new_dir(dirs, root, n - 1) {
                Ok(before)
            } else {
                match locked_in(dirs[n - 1]) {
                    Err(e) => Err(e),
                    Ok(found) => match lockfile_path(dirs[n - 1]) {
                        Some(p) => Ok((before.0 + found, before.1.push(p))),
                        None => Ok(before),
                    },
                }
            },
        }
    }
}

/// What the lockfiles of a project resolve, and their paths: that of the root where it
/// has one, else those of the directories of its packages. Where there are several,
/// every package and version counts once.
pub open spec fn locked_in_project(
    root: DirLockfiles,
    dirs: Seq<DirLockfiles>,
) -> Result<(Seq<LockfileEntryView>, Seq<Seq<char>>), LockfileErrorView> {
    match locked_in(root) {
        Err(e) => Err(e),
        Ok(found) => match lockfile_path(root) {
            Some(p) => Ok((found, seq![p])),
            None => match locked_below(root.dir@, dirs, dirs.len() as int) {
                Err(e) => Err(e),
                Ok(below) => if below.1.len() > 1 {
                    Ok((deduplicated(below.0), below.1))
                } else {
                    Ok(below)
                },
            },
        },
    }
}

pub open spec fn project_result(
    r: Result<(Vec<LockfileEntry>, Vec<String>), LockfileError>,
) -> Result<(Seq<LockfileEntryView>, Seq<Seq<char>>), LockfileErrorView> {
    match r {
        Ok(p) => Ok((lock_views(p.0@), texts(p.1@))),
        Err(e) => Err(e@),
    }
}

fn comes_up_first(dirs: &Vec<DirLockfiles>, root: &str, i: usize) -> (r: bool)
    requires
        i < dirs@.len(),
    ensures
        r == is_new_dir(dirs@, root@, i as int),
{
    let dir = spell_path(dirs[i].dir.as_str());
    if same_text(dir.as_str(), spell_path(root).as_str()) {
        return false;
    }
    let mut k: usize = 0;
    while k < i
        invariant
            k <= i < dirs@.len(),
            dir@ == path_spelt(dirs@[i as int].dir@),
            forall|j: int| 0 <= j < k ==> path_spelt((#[trigger] dirs@[j]).dir@) != dir@,
        decreases i - k,
    {
        if same_text(spell_path(dirs[k].dir.as_str()).as_str(), dir.as_str()) {
            return false;
        }
        k = k + 1;
    }
    true
}

proof fn lemma_locked_below_error(root: Seq<char>, dirs: Seq<DirLockfiles>, n: int, m: int)
    requires
        0 <= n <= m,
        locked_below(root, dirs, n) is Err,
    ensures
        locked_below(root, dirs, m) == locked_below(root, dirs, n),
    decreases m - n,
{
    if n < m {
        lemma_locked_below_error(root, dirs, n, m - 1);
    }
}

/// What the lockfiles of a project resolve, and their paths. `dirs` are the directories
/// of the project's packages, with their lockfiles.
pub fn parse_all_lockfiles(
    root: &DirLockfiles,
    dirs: &Vec<DirLockfiles>,
) -> (r: Result<(Vec<LockfileEntry>, Vec<String>), LockfileError>)
    ensures
        project_result(r) == locked_in_project(*root, dirs@),
{
    let found = match parse_lockfile_at(root) {
        Ok(v) => v,
        Err(e) => {
            return Err(e);
        },
    };
    if let Some(p) = discover_lockfile_path(root) {
        let mut paths: Vec<String> = Vec::new();
        let ghost path = p@;
        paths.push(p);
        assert(texts(paths@) =~= seq![path]);
        return Ok((found, paths));
    }
    let mut entries: Vec<LockfileEntry> = Vec::new();
    let mut paths: Vec<String> = Vec::new();
    let mut i: usize = 0;
    assert(lock_views(entries@) =~= Seq::<LockfileEntryView>::empty());
    assert(texts(paths@) =~= Seq::<Seq<char>>::empty());
    let ghost base = root.dir@;
    while i < dirs.len()
        invariant
            i <= dirs@.len(),
            base == root.dir@,
            locked_in(*root) is Ok,
            lockfile_path(*root) is None,
            locked_below(base, dirs@, i as int) == Ok::<
                (Seq<LockfileEntryView>, Seq<Seq<char>>),
                LockfileErrorView,
            >((lock_views(entries@), texts(paths@))),
        decreases dirs@.len() - i,
    {
        if comes_up_first(dirs, root.dir.as_str(), i) {
            match parse_lockfile_at(&dirs[i]) {
                Ok(v) => {
                    let mut more = v;
                    if let Some(p) = discover_lockfile_path(&dirs[i]) {
                        proof {
                            crate::text::lemma_texts_push(paths@, p);
                        }
                        paths.push(p);
                        let ghost prior = entries@;
                        let ghost added = more@;
                        entries.append(&mut more);
                        assert(lock_views(entries@) =~= lock_views(prior) + lock_views(added));
                    }
                },
                Err(e) => {
                    proof {
                        lemma_locked_below_error(base, dirs@, i + 1, dirs@.len() as int);
                    }
                    return Err(e);
                },
            }
        }
        i = i + 1;
    }
    assert(texts(paths@).len() == paths@.len());
    if paths.len() > 1 {
        entries = deduplicate(entries);
    }
    Ok((entries, paths))
}

// ── Laws of lockfiles ───────────────────────────────────────────────────

/// A range keeps to a bound where the version that it begins with is no higher: the first
/// number that differs decides. An `npm:` before the range says nothing.
pub proof fn ranges_are_compared_by_their_versions(
    op: Seq<char>,
    v: Version,
    more: Seq<char>,
    upper: Version,
)
    requires
        is_operator(op),
        is_suffix(more),
    ensures
        ({
            let range = op + written(v, more);
            let bound = written(upper, Seq::empty());
            let within = v.0 < upper.0 || (v.0 == upper.0 && (v.1 < upper.1 || (v.1 == upper.1
                && v.2 <= upper.2)));
            &&& within_upperbound(range, bound) <==> within
            &&& within_upperbound("npm:"@ + range, bound) <==> within
        }),
{
    let range = op + written(v, more);
    let bound = written(upper, Seq::empty());
    let aliased = "npm:"@ + range;
    reveal_strlit("");
    reveal_strlit("npm:");
    lemma_range(op, v, more);
    lemma_range(""@, upper, Seq::empty());
    assert(""@ + bound =~= bound);
    lemma_trim_kept(range);
    lemma_trim_kept(bound);
    assert(aliased[0] == 'n' && aliased.last() == range.last());
    lemma_trim_kept(aliased);
    if starts_with(range, "npm:"@) {
        assert(range.subrange(0, 4)[0] == "npm:"@[0]);
    }
    if starts_with(bound, "npm:"@) {
        assert(bound.subrange(0, 4)[0] == "npm:"@[0]);
    }
    assert(aliased.subrange(0, 4) =~= "npm:"@);
    assert(aliased.skip(4) =~= range);
}

/// A package depends on a target exactly where it is another one that declares the target,
/// within the bound where there is one.
pub proof fn dependents_declare_the_target(
    v: Seq<LockfileEntryView>,
    target: Seq<char>,
    upperbound: Option<Seq<char>>,
    e: LockfileEntryView,
)
    ensures
        dependents(v, target, upperbound).contains(e) <==> v.contains(e) && e.name != target
            && e.dependencies.dom().contains(target) && (upperbound matches Some(u)
            ==> within_upperbound(e.dependencies[target], u)),
    decreases v.len(),
{
    if v.len() > 0 {
        let rest = v.drop_last();
        dependents_declare_the_target(rest, target, upperbound, e);
        lemma_in_pushed(rest, v.last(), e);
        assert(rest.push(v.last()) =~= v);
        lemma_in_pushed(dependents(rest, target, upperbound), v.last(), e);
    }
}

proof fn lemma_last_place(s: Seq<char>, needle: Seq<char>, upto: int, at: int)
    requires
        0 <= at <= upto,
        occurs_at(s, needle, at),
        forall|q: int| at < q <= upto ==> !occurs_at(s, needle, q),
    ensures
        rfind_from(s, needle, upto) == Some(at),
    decreases upto - at,
{
    if at < upto {
        lemma_last_place(s, needle, upto - 1, at);
    }
}

proof fn lemma_first_place(s: Seq<char>, needle: Seq<char>, from: int, at: int)
    requires
        0 <= from <= at,
        occurs_at(s, needle, at),
        forall|q: int| from <= q < at ==> !occurs_at(s, needle, q),
    ensures
        find_from(s, needle, from) == Some(at),
{
    lemma_find_from(s, needle, from);
}

/// The name of a package is what follows the last `node_modules/` of its key.
pub proof fn keys_end_with_their_names(front: Seq<char>, name: Seq<char>)
    requires
        !contains("ode_modules/"@ + name, "node_modules/"@),
    ensures
        npm_key_name(front + "node_modules/"@ + name) == name,
{
    let part = "node_modules/"@;
    let key = front + part + name;
    let at = front.len() as int;
    let tail = "ode_modules/"@ + name;
    reveal_strlit("node_modules/");
    reveal_strlit("ode_modules/");
    assert(key.subrange(at, at + part.len()) =~= part);
    contains_iff_occurs(tail, part);
    assert forall|q: int| at < q <= key.len() implies !occurs_at(key, part, q) by {
        if occurs_at(key, part, q) {
            let k = q - at - 1;
            assert(tail.subrange(k, k + part.len()) =~= key.subrange(q, q + part.len()));
            assert(occurs_at(tail, part, k));
        }
    }
    lemma_last_place(key, part, key.len() as int, at);
    assert(key.skip(at + part.len()) =~= name);
}

proof fn lemma_ranges(
    m: Map<Seq<char>, Seq<char>>,
    entries: Seq<(Seq<char>, JsonView)>,
    name: Seq<char>,
)
    ensures
        with_ranges(m, entries).dom().contains(name) <==> m.dom().contains(name) || exists|i: int|
            0 <= i < entries.len() && (#[trigger] entries[i]).0 == name,
        m.dom().contains(name) ==> with_ranges(m, entries)[name] == m[name],
        !m.dom().contains(name) && with_ranges(m, entries).dom().contains(name) ==> exists|i: int|
            0 <= i < entries.len() && (#[trigger] entries[i]).0 == name && with_ranges(
                m,
                entries,
            )[name] == text_or_empty(Some(entries[i].1)) && (forall|j: int|
                0 <= j < i ==> (#[trigger] entries[j]).0 != name),
    decreases entries.len(),
{
    if entries.len() > 0 {
        let rest = entries.drop_last();
        lemma_ranges(m, rest, name);
        assert forall|i: int| 0 <= i < rest.len() implies rest[i] == #[trigger] entries[i] by {}
        assert(entries[entries.len() - 1] == entries.last());
        if with_ranges(m, rest).dom().contains(name) && !m.dom().contains(name) {
            let i = choose|i: int|
                0 <= i < rest.len() && (#[trigger] rest[i]).0 == name && with_ranges(
                    m,
                    rest,
                )[name] == text_or_empty(Some(rest[i].1)) && (forall|j: int|
                    0 <= j < i ==> (#[trigger] rest[j]).0 != name);
            assert(entries[i] == rest[i]);
            assert forall|j: int| 0 <= j < i implies (#[trigger] entries[j]).0 != name by {
                assert(rest[j].0 != name);
            }
        } else if !m.dom().contains(name) && entries.last().0 == name {
            let i = entries.len() - 1;
            assert(entries[i].0 == name);
            assert forall|j: int| 0 <= j < i implies (#[trigger] entries[j]).0 != name by {
                assert(rest[j] == entries[j]);
            }
        }
    }
}

/// Every package of a package lock that has a name and a version is resolved. It depends on
/// what it lists under `dependencies` and under `peerDependencies`, and on nothing else; the
/// latter are its peers.
pub proof fn every_npm_package_is_resolved(
    packages: Seq<(Seq<char>, JsonView)>,
    i: int,
    dep: Seq<char>,
)
    requires
        0 <= i < packages.len(),
        npm_key_name(packages[i].0).len() > 0,
        text_or_empty(field(packages[i].1, "version"@)).len() > 0,
    ensures
        exists|k: int|
            0 <= k < npm_entries(packages).len() && {
                let e = #[trigger] npm_entries(packages)[k];
                let own = npm_section(packages[i].1, "dependencies"@);
                let peers = npm_section(packages[i].1, "peerDependencies"@);
                let is_own = exists|n: int| 0 <= n < own.len() && (#[trigger] own[n]).0 == dep;
                let is_peer = exists|n: int|
                    0 <= n < peers.len() && (#[trigger] peers[n]).0 == dep;
                &&& e.name == npm_key_name(packages[i].0)
                &&& field(packages[i].1, "version"@) == Some(JsonView::Str(e.version))
                &&& e.dependencies.dom().contains(dep) <==> is_own || is_peer
                &&& e.peer_dependencies.dom().contains(dep) <==> is_peer
            },
    decreases packages.len(),
{
    let all = npm_entries(packages);
    let before = npm_entries(packages.drop_last());
    if i < packages.len() - 1 {
        every_npm_package_is_resolved(packages.drop_last(), i, dep);
        assert(packages.drop_last()[i] == packages[i]);
        assert forall|k: int| 0 <= k < before.len() implies #[trigger] before[k] == all[k] by {}
    } else {
        let package = packages[i].1;
        let own = with_ranges(Map::empty(), npm_section(package, "dependencies"@));
        lemma_ranges(Map::empty(), npm_section(package, "dependencies"@), dep);
        lemma_ranges(own, npm_section(package, "peerDependencies"@), dep);
        lemma_ranges(Map::empty(), npm_section(package, "peerDependencies"@), dep);
        let e = npm_entry(packages[i].0, package);
        assert(all[all.len() - 1] == e);
    }
}

/// A package depends on the ranges that it lists: of two for the same package, the first one
/// counts, and its own come before those of its peers.
pub proof fn the_first_range_counts(key: Seq<char>, package: JsonView, n: int)
    requires
        0 <= n < npm_section(package, "dependencies"@).len(),
        forall|j: int|
            0 <= j < n ==> (#[trigger] npm_section(package, "dependencies"@)[j]).0 != npm_section(
                package,
                "dependencies"@,
            )[n].0,
    ensures
        ({
            let (dep, range) = npm_section(package, "dependencies"@)[n];
            npm_entry(key, package).dependencies[dep] == text_or_empty(Some(range))
        }),
{
    let entries = npm_section(package, "dependencies"@);
    let (dep, range) = entries[n];
    let own = with_ranges(Map::empty(), entries);
    lemma_ranges(Map::empty(), entries, dep);
    lemma_ranges(own, npm_section(package, "peerDependencies"@), dep);
    assert(entries[n].0 == dep);
    let i = choose|i: int|
        0 <= i < entries.len() && (#[trigger] entries[i]).0 == dep && own[dep] == text_or_empty(
            Some(entries[i].1),
        ) && (forall|j: int| 0 <= j < i ==> (#[trigger] entries[j]).0 != dep);
    if i < n {
        assert(entries[i].0 != dep);
    }
    if n < i {
        assert(entries[n].0 != dep);
    }
}

/// The header of an entry names its package before the range.
#[verifier::rlimit(50)]
#[verifier::spinoff_prover]
pub proof fn headers_name_their_packages(name: Seq<char>, range: Seq<char>)
    requires
        name.len() > 0,
        !is_white(name[0]) && !is_white(name.last()),
        !name.contains('"') && !name.contains(','),
        !range.contains('@') && !range.contains(','),
    ensures
        yarn_key_name("\""@ + name + "@npm:"@ + range + "\":"@) == Some(name),
{
    let line = "\""@ + name + "@npm:"@ + range + "\":"@;
    let first = name + "@npm:"@ + range + "\":"@;
    let part = "@npm:"@;
    reveal_strlit("\"");
    reveal_strlit("@npm:");
    reveal_strlit("\":");
    assert(line.skip(1) =~= first);
    assert(name.contains(name[0]) && name.contains(name.last()));
    assert(first[0] == name[0]);
    assert(without_leading(first, '"') == first);
    assert(line[0] == '"');
    assert(without_leading(line, '"') == first);
    assert forall|k: int| 0 <= k < first.len() implies first[k] != ',' by {
        if k < name.len() {
            assert(name.contains(name[k]));
        } else if name.len() + 5 <= k < name.len() + 5 + range.len() {
            assert(range.contains(range[k - name.len() - 5]));
        }
    }
    lemma_first_piece(first, Seq::empty(), ',');
    assert(first + Seq::<char>::empty() =~= first);
    let at = name.len() as int;
    assert(first.subrange(at, at + 5) =~= part);
    assert forall|q: int| at < q <= first.len() implies !occurs_at(first, part, q) by {
        if occurs_at(first, part, q) {
            assert(first.subrange(q, q + 5)[0] == part[0]);
            assert(first[q] == '@');
            if name.len() + 5 <= q < name.len() + 5 + range.len() {
                assert(range.contains(range[q - name.len() - 5]));
            }
        }
    }
    lemma_last_place(first, part, first.len() as int, at);
    assert(first.take(at) =~= name);
    assert(without_leading(name, '"') == name);
    assert(without_trailing(name, '"') == name);
    lemma_trim_kept(name);
}

/// A dependency line tells the package before its first colon and the range behind it.
pub proof fn dependency_lines_tell_their_ranges(name: Seq<char>, range: Seq<char>)
    requires
        name.len() > 0 && range.len() > 0,
        !is_white(name[0]) && !is_white(name.last()),
        !is_white(range[0]) && !is_white(range.last()),
        !name.contains('"') && !name.contains(':'),
        !range.contains('"'),
    ensures
        yarn_dependency(name + ": "@ + range) == Some((name, range)),
        yarn_dependency("\""@ + name + "\": \""@ + range + "\""@) == Some((name, range)),
{
    reveal_strlit("\"");
    reveal_strlit(": ");
    reveal_strlit("\": \"");
    assert(name.contains(name[0]) && name.contains(name.last()));
    assert(range.contains(range[0]) && range.contains(range.last()));
    assert(unquoted(name) == name && unquoted(range) == range);
    lemma_colon_apart(name, range);
    let held_name = "\""@ + name + "\""@;
    let held_range = "\""@ + range + "\""@;
    assert("\""@ + name + "\": \""@ + range + "\""@ =~= held_name + ": "@ + held_range);
    assert forall|k: int| 0 <= k < held_name.len() implies held_name[k] != ':' by {
        if 0 < k < held_name.len() - 1 {
            assert(name.contains(name[k - 1]));
        }
    }
    lemma_unquoted(name);
    lemma_unquoted(range);
    lemma_colon_apart(held_name, held_range);
}

proof fn lemma_colon_apart(name: Seq<char>, range: Seq<char>)
    requires
        name.len() > 0 && range.len() > 0,
        !is_white(name[0]) && !is_white(name.last()),
        !is_white(range[0]) && !is_white(range.last()),
        !name.contains(':'),
        unquoted(name).len() > 0,
    ensures
        yarn_dependency(name + ": "@ + range) == Some((unquoted(name), unquoted(range))),
{
    let line = name + ": "@ + range;
    let sep = ": "@;
    reveal_strlit(": ");
    let at = name.len() as int;
    assert(line.subrange(at, at + 2) =~= sep);
    assert forall|q: int| 0 <= q < at implies !occurs_at(line, sep, q) by {
        if occurs_at(line, sep, q) {
            assert(line.subrange(q, q + 2)[0] == sep[0]);
            assert(name.contains(name[q]));
        }
    }
    lemma_first_place(line, sep, 0, at);
    assert(line.take(at) =~= name && line.skip(at + 2) =~= range);
    lemma_trim_kept(name);
    lemma_trim_kept(range);
}

proof fn lemma_unquoted(s: Seq<char>)
    requires
        s.len() > 0,
        !s.contains('"'),
    ensures
        unquoted("\""@ + s + "\""@) == s,
{
    let q = "\""@ + s + "\""@;
    reveal_strlit("\"");
    assert(s.contains(s[0]) && s.contains(s.last()));
    let r = q.skip(1);
    assert(r =~= s + "\""@);
    assert(r[0] == s[0]);
    assert(without_leading(r, '"') == r);
    assert(without_leading(q, '"') == r);
    assert(r.drop_last() =~= s);
    assert(without_trailing(s, '"') == s);
    assert(without_trailing(r, '"') == s);
}

/// A block of a yarn lockfile gives its package at its version, with the dependency that it
/// lists; one that it lists as a peer is a peer too. Blocks before it are complete.
pub proof fn yarn_blocks_give_their_packages(
    before: Seq<Seq<char>>,
    header: Seq<char>,
    version_line: Seq<char>,
    section: Seq<char>,
    line: Seq<char>,
    name: Seq<char>,
    version: Seq<char>,
    dep: Seq<char>,
    range: Seq<char>,
)
    requires
        starts_with(header, "\""@) && ends_with(header, ":"@),
        yarn_key_name(header) == Some(name),
        trim(version_line) == "version: "@ + version && !starts_with(version_line, "\""@),
        version.len() > 0 && version[0] != 'v',
        trim(section) == "dependencies:"@ || trim(section) == "peerDependencies:"@,
        !starts_with(section, "\""@),
        starts_with(line, "    "@),
        trim(line).len() > 0 && trim(line)[0] != 'v',
        trim(line) != "dependencies:"@ && trim(line) != "peerDependencies:"@,
        yarn_dependency(trim(line)) == Some((dep, range)),
    ensures
        ({
            let done = yarn_state(before + seq![header, version_line, section, line]).completed();
            done == yarn_state(before).completed().push(
                LockfileEntryView {
                    name,
                    version,
                    dependencies: map![dep => range],
                    peer_dependencies: if trim(section) == "peerDependencies:"@ {
                        map![dep => range]
                    } else {
                        Map::empty()
                    },
                },
            )
        }),
{
    let all = before + seq![header, version_line, section, line];
    let one = before.push(header);
    let two = one.push(version_line);
    let three = two.push(section);
    assert(all =~= three.push(line));
    assert(all.drop_last() =~= three && all.last() == line);
    assert(three.drop_last() =~= two && three.last() == section);
    assert(two.drop_last() =~= one && two.last() == version_line);
    assert(one.drop_last() =~= before && one.last() == header);
    reveal_strlit("\"");
    reveal_strlit("    ");
    reveal_strlit("version: ");
    reveal_strlit("dependencies:");
    reveal_strlit("peerDependencies:");
    let s0 = yarn_state(before);
    let s1 = yarn_state(one);
    assert(s1 == s0.after(header));
    let t = trim(version_line);
    assert(t.subrange(0, 9) =~= "version: "@);
    assert(t.skip(9) =~= version);
    if starts_with(version, "version: "@) {
        assert(version.subrange(0, 9)[0] == "version: "@[0]);
    }
    assert(without_prefixes(version, "version: "@) == version);
    let s2 = yarn_state(two);
    assert(s2 == s1.after(version_line));
    assert(s2.version == Some(version));
    let s3 = yarn_state(three);
    assert(s3 == s2.after(section));
    if starts_with(trim(section), "version: "@) {
        assert(trim(section).subrange(0, 9)[0] == "version: "@[0]);
    }
    assert("dependencies:"@.len() == 13 && "peerDependencies:"@.len() == 17);
    let s4 = yarn_state(all);
    assert(s4 == s3.after(line));
    if starts_with(line, "\""@) {
        assert(line.subrange(0, 1)[0] == "\""@[0]);
        assert(line.subrange(0, 4)[0] == "    "@[0]);
    }
    if starts_with(trim(line), "version: "@) {
        assert(trim(line).subrange(0, 9)[0] == "version: "@[0]);
    }
    assert(s4.dependencies =~= map![dep => range]);
    assert(s4.peer_dependencies =~= if trim(section) == "peerDependencies:"@ {
        map![dep => range]
    } else {
        Map::empty()
    });
}

/// The key of a package tells its name and its version; the `@` of a scope is part of the
/// name, and what follows in parentheses is not part of the version.
pub proof fn pnpm_keys_tell_name_and_version(
    scope: Seq<char>,
    name: Seq<char>,
    version: Seq<char>,
    peers: Seq<char>,
)
    requires
        name.len() > 0 && version.len() > 0,
        !is_white(name[0]) && !is_white(name.last()),
        !is_white(version[0]) && !is_white(version.last()),
        !name.contains('@') && !scope.contains('/') && !version.contains('('),
        peers.len() > 0 ==> peers[0] == '(',
    ensures
        pnpm_key(name + "@"@ + version + peers) == Some((name, version)),
        pnpm_key("@"@ + scope + "/"@ + name + "@"@ + version + peers) == Some(
            ("@"@ + scope + "/"@ + name, version),
        ),
{
    lemma_plain_key(name, version, peers);
    lemma_scoped_key(scope, name, version, peers);
}

proof fn lemma_plain_key(name: Seq<char>, version: Seq<char>, peers: Seq<char>)
    requires
        name.len() > 0 && version.len() > 0,
        !is_white(name[0]) && !is_white(name.last()),
        !is_white(version[0]) && !is_white(version.last()),
        !name.contains('@') && !version.contains('('),
        peers.len() > 0 ==> peers[0] == '(',
    ensures
        pnpm_key(name + "@"@ + version + peers) == Some((name, version)),
{
    reveal_strlit("@");
    let plain = name + "@"@ + version + peers;
    assert(name.contains(name[0]));
    let at = name.len() as int;
    assert(plain.subrange(at, at + 1) =~= "@"@);
    if starts_with(plain, "@"@) {
        assert(plain.subrange(0, 1)[0] == "@"@[0]);
    }
    assert forall|q: int| 0 <= q < at implies !occurs_at(plain, "@"@, q) by {
        if occurs_at(plain, "@"@, q) {
            assert(plain.subrange(q, q + 1)[0] == "@"@[0]);
            assert(name.contains(name[q]));
        }
    }
    lemma_first_place(plain, "@"@, 0, at);
    lemma_key_parts(name, version, peers);
}

proof fn lemma_key_parts(name: Seq<char>, version: Seq<char>, peers: Seq<char>)
    requires
        name.len() > 0 && version.len() > 0,
        !is_white(name[0]) && !is_white(name.last()),
        !is_white(version[0]) && !is_white(version.last()),
        !version.contains('('),
        peers.len() > 0 ==> peers[0] == '(',
        pnpm_at(name + "@"@ + version + peers) == Some(name.len() as int),
    ensures
        pnpm_key(name + "@"@ + version + peers) == Some((name, version)),
{
    reveal_strlit("@");
    let key = name + "@"@ + version + peers;
    let at = name.len() as int;
    assert(key.take(at) =~= name);
    assert(key.skip(at + 1) =~= version + peers);
    lemma_version_upto(version, peers);
    lemma_trim_kept(name);
    lemma_trim_kept(version);
}

proof fn lemma_scoped_key(
    scope: Seq<char>,
    name: Seq<char>,
    version: Seq<char>,
    peers: Seq<char>,
)
    requires
        name.len() > 0 && version.len() > 0,
        !is_white(name[0]) && !is_white(name.last()),
        !is_white(version[0]) && !is_white(version.last()),
        !name.contains('@') && !scope.contains('/') && !version.contains('('),
        peers.len() > 0 ==> peers[0] == '(',
    ensures
        pnpm_key("@"@ + scope + "/"@ + name + "@"@ + version + peers) == Some(
            ("@"@ + scope + "/"@ + name, version),
        ),
{
    reveal_strlit("@");
    reveal_strlit("/");
    let full = "@"@ + scope + "/"@ + name;
    let scoped = full + "@"@ + version + peers;
    assert(scoped.subrange(0, 1) =~= "@"@);
    let slash = 1 + scope.len() as int;
    assert(scoped.subrange(slash, slash + 1) =~= "/"@);
    assert forall|q: int| 0 <= q < slash implies !occurs_at(scoped, "/"@, q) by {
        if occurs_at(scoped, "/"@, q) {
            assert(scoped.subrange(q, q + 1)[0] == "/"@[0]);
            assert(scoped[q] == '/');
            if q > 0 {
                assert(scope.contains(scope[q - 1]));
            }
        }
    }
    lemma_first_place(scoped, "/"@, 0, slash);
    let p = full.len() as int;
    assert(scoped.subrange(p, p + 1) =~= "@"@);
    assert forall|q: int| slash + 1 <= q < p implies !occurs_at(scoped, "@"@, q) by {
        if occurs_at(scoped, "@"@, q) {
            assert(scoped.subrange(q, q + 1)[0] == "@"@[0]);
            assert(name.contains(name[q - slash - 1]));
        }
    }
    lemma_first_place(scoped, "@"@, slash + 1, p);
    assert(full[0] == '@' && full.last() == name.last());
    lemma_key_parts(full, version, peers);
}

proof fn lemma_version_upto(version: Seq<char>, peers: Seq<char>)
    requires
        !version.contains('('),
        peers.len() > 0 ==> peers[0] == '(',
    ensures
        upto(version + peers, "("@) == version,
{
    let s = version + peers;
    reveal_strlit("(");
    let at = version.len() as int;
    assert forall|q: int| 0 <= q < at implies !occurs_at(s, "("@, q) by {
        if occurs_at(s, "("@, q) {
            assert(s.subrange(q, q + 1)[0] == "("@[0]);
            assert(version.contains(version[q]));
        }
    }
    lemma_find_from(s, "("@, 0);
    if peers.len() > 0 {
        assert(s.subrange(at, at + 1) =~= "("@);
        assert(occurs_at(s, "("@, at));
        assert(s.take(at) =~= version);
    } else {
        assert(s =~= version);
        if let Some(q) = find_from(s, "("@, 0) {
            assert(q + 1 <= s.len());
        }
    }
}

proof fn lemma_versions(
    m: Map<Seq<char>, Seq<char>>,
    entries: Seq<(YamlView, YamlView)>,
    name: Seq<char>,
)
    ensures
        with_versions(m, entries).dom().contains(name) <==> m.dom().contains(name) || lists_package(
            entries,
            name,
        ),
    decreases entries.len(),
{
    if entries.len() > 0 {
        let rest = entries.drop_last();
        lemma_versions(m, rest, name);
        assert forall|i: int| 0 <= i < rest.len() implies rest[i] == #[trigger] entries[i] by {}
        assert(entries[entries.len() - 1] == entries.last());
        if lists_package(rest, name) {
            let i = choose|i: int|
                0 <= i < rest.len() && yaml_text((#[trigger] rest[i]).0) == Some(name)
                    && scalar_text(rest[i].1) is Some;
            assert(entries[i] == rest[i]);
        }
    }
}

/// Whether a section lists a package: under its name stands a text or a number.
pub open spec fn lists_package(entries: Seq<(YamlView, YamlView)>, name: Seq<char>) -> bool {
    exists|i: int|
        0 <= i < entries.len() && yaml_text((#[trigger] entries[i]).0) == Some(name)
            && scalar_text(entries[i].1) is Some
}

/// A package depends on what any of its three sections lists, and its peers are those of the
/// section for them.
pub proof fn dependencies_come_from_their_sections(package: YamlView, name: Seq<char>)
    ensures
        pnpm_dependencies(package).dom().contains(name) <==> lists_package(
            pnpm_section(package, "dependencies"@),
            name,
        ) || lists_package(pnpm_section(package, "peerDependencies"@), name) || lists_package(
            pnpm_section(package, "optionalDependencies"@),
            name,
        ),
        pnpm_peers(package).dom().contains(name) <==> lists_package(
            pnpm_section(package, "peerDependencies"@),
            name,
        ),
{
    let none = Map::<Seq<char>, Seq<char>>::empty();
    let own = with_versions(none, pnpm_section(package, "dependencies"@));
    let more = with_versions(own, pnpm_section(package, "peerDependencies"@));
    lemma_versions(none, pnpm_section(package, "dependencies"@), name);
    lemma_versions(own, pnpm_section(package, "peerDependencies"@), name);
    lemma_versions(more, pnpm_section(package, "optionalDependencies"@), name);
    lemma_versions(none, pnpm_section(package, "peerDependencies"@), name);
}

/// Every package of the older format with a name and a version is resolved, with its
/// dependencies.
pub proof fn every_pnpm_package_is_resolved(packages: Seq<(YamlView, YamlView)>, i: int)
    requires
        0 <= i < packages.len(),
        pnpm_package_key(packages[i].0) is Some,
    ensures
        ({
            let (name, version) = pnpm_package_key(packages[i].0)->0;
            pnpm_v6_entries(packages).contains(
                LockfileEntryView {
                    name,
                    version,
                    dependencies: pnpm_dependencies(packages[i].1),
                    peer_dependencies: pnpm_peers(packages[i].1),
                },
            )
        }),
    decreases packages.len(),
{
    let rest = packages.drop_last();
    let (name, version) = pnpm_package_key(packages[i].0)->0;
    let x = LockfileEntryView {
        name,
        version,
        dependencies: pnpm_dependencies(packages[i].1),
        peer_dependencies: pnpm_peers(packages[i].1),
    };
    if let Some(k) = pnpm_package_key(packages.last().0) {
        let own = LockfileEntryView {
            name: k.0,
            version: k.1,
            dependencies: pnpm_dependencies(packages.last().1),
            peer_dependencies: pnpm_peers(packages.last().1),
        };
        lemma_in_pushed(pnpm_v6_entries(rest), own, x);
    }
    if i < rest.len() {
        every_pnpm_package_is_resolved(rest, i);
        assert(rest[i] == packages[i]);
    }
}

/// Whether an entry is for a package and version and has the given dependencies.
pub open spec fn holds_dependencies(
    v: Seq<LockfileEntryView>,
    k: (Seq<char>, Seq<char>),
    names: Set<Seq<char>>,
    q: int,
) -> bool {
    0 <= q < v.len() && v[q].name == k.0 && v[q].version == k.1 && names.subset_of(
        v[q].dependencies.dom(),
    )
}

/// The dependencies of every snapshot are among those of its package.
pub proof fn snapshots_are_merged_into_their_packages(
    packages: Seq<(YamlView, YamlView)>,
    snapshots: Seq<(YamlView, YamlView)>,
    i: int,
)
    requires
        0 <= i < snapshots.len(),
        yaml_text(snapshots[i].0) is Some,
        pnpm_key(yaml_text(snapshots[i].0)->0) is Some,
    ensures
        exists|q: int| #[trigger]
            holds_dependencies(
                pnpm_v9_entries(packages, snapshots),
                pnpm_key(yaml_text(snapshots[i].0)->0)->0,
                pnpm_dependencies(snapshots[i].1).dom(),
                q,
            ),
{
    let k = pnpm_key(yaml_text(snapshots[i].0)->0)->0;
    let names = pnpm_dependencies(snapshots[i].1).dom();
    let v = with_snapshots(listed_packages(packages), snapshots);
    lemma_snapshot_kept(listed_packages(packages), snapshots, i);
    let q = choose|q: int| #[trigger] holds_dependencies(v, k, names, q);
    assert(holds_dependencies(pnpm_v9_entries(packages, snapshots), k, names, q));
}

proof fn lemma_snapshot_kept(
    v: Seq<LockfileEntryView>,
    snapshots: Seq<(YamlView, YamlView)>,
    i: int,
)
    requires
        0 <= i < snapshots.len(),
        yaml_text(snapshots[i].0) is Some,
        pnpm_key(yaml_text(snapshots[i].0)->0) is Some,
    ensures
        exists|q: int| #[trigger]
            holds_dependencies(
                with_snapshots(v, snapshots),
                pnpm_key(yaml_text(snapshots[i].0)->0)->0,
                pnpm_dependencies(snapshots[i].1).dom(),
                q,
            ),
    decreases snapshots.len(),
{
    let k = pnpm_key(yaml_text(snapshots[i].0)->0)->0;
    let names = pnpm_dependencies(snapshots[i].1).dom();
    let rest = snapshots.drop_last();
    let before = with_snapshots(v, rest);
    let now = with_snapshots(v, snapshots);
    if i < rest.len() {
        assert(rest[i] == snapshots[i]);
        lemma_snapshot_kept(v, rest, i);
        let q = choose|q: int| #[trigger] holds_dependencies(before, k, names, q);
        if let Some(text) = yaml_text(snapshots.last().0) {
            if let Some(last) = pnpm_key(text) {
                lemma_resolved_position(before, last.0, last.1, 0);
            }
        }
        assert(holds_dependencies(now, k, names, q));
    } else {
        lemma_resolved_position(before, k.0, k.1, 0);
        match resolved_position(before, k.0, k.1, 0) {
            Some(p) => {
                assert(holds_dependencies(now, k, names, p));
            },
            None => {
                assert(holds_dependencies(now, k, names, before.len() as int));
            },
        }
    }
}

/// The lockfile of yarn counts before that of npm, and that before the one of pnpm.
pub proof fn lockfiles_count_in_order(d: DirLockfiles)
    ensures
        d.yarn_lock matches Some(Ok(text)) ==> locked_in(d) == Ok::<
            Seq<LockfileEntryView>,
            LockfileErrorView,
        >(yarn_locked(text@)) && lockfile_path(d) == Some(joined_path(d.dir@, "yarn.lock"@)),
        d.yarn_lock is None ==> (d.package_lock matches Some(Ok(text)) ==> locked_in(d)
            == npm_locked(json_denoted(text@)) && lockfile_path(d) == Some(
            joined_path(d.dir@, "package-lock.json"@),
        )),
        d.yarn_lock is None && d.package_lock is None ==> (d.pnpm_lock matches Some(Ok(text))
            ==> locked_in(d) == pnpm_locked(yaml_denoted(text@)) && lockfile_path(d) == Some(
            joined_path(d.dir@, "pnpm-lock.yaml"@),
        )),
{
}

/// Every directory with a lockfile is read once: what it resolves is among what is resolved,
/// and its lockfile is among those that were read.
pub proof fn every_directory_is_read(
    root: Seq<char>,
    dirs: Seq<DirLockfiles>,
    n: int,
    i: int,
    x: LockfileEntryView,
)
    requires
        0 <= i < n <= dirs.len(),
        locked_below(root, dirs, n) is Ok,
        path_spelt(dirs[i].dir@) != path_spelt(root),
        forall|k: int|
            0 <= k < i ==> path_spelt((#[trigger] dirs[k]).dir@) != path_spelt(dirs[i].dir@),
        lockfile_path(dirs[i]) is Some,
    ensures
        locked_in(dirs[i]) is Ok,
        locked_in(dirs[i])->Ok_0.contains(x) ==> locked_below(root, dirs, n)->Ok_0.0.contains(x),
        locked_below(root, dirs, n)->Ok_0.1.contains(lockfile_path(dirs[i])->0),
    decreases n,
{
    assert(locked_below(root, dirs, n - 1) is Ok);
    let before = locked_below(root, dirs, n - 1)->Ok_0;
    let p = lockfile_path(dirs[i])->0;
    if is_new_dir(dirs, root, n - 1) && lockfile_path(dirs[n - 1]) is Some {
        lemma_in_either(before.0, locked_in(dirs[n - 1])->Ok_0, x);
        lemma_in_pushed(before.1, lockfile_path(dirs[n - 1])->0, p);
    }
    if i < n - 1 {
        every_directory_is_read(root, dirs, n - 1, i, x);
    }
}

/// Of the entries of a package at a version, the first one is kept.
pub proof fn the_first_resolution_counts(v: Seq<LockfileEntryView>, i: int)
    requires
        0 <= i < v.len(),
        forall|k: int|
            0 <= k < i ==> (#[trigger] v[k]).name != v[i].name || v[k].version != v[i].version,
    ensures
        deduplicated(v).contains(v[i]),
    decreases v.len(),
{
    let rest = v.drop_last();
    let before = deduplicated(rest);
    lemma_in_pushed(before, v.last(), v[i]);
    if i < rest.len() {
        assert forall|k: int| 0 <= k < i implies (#[trigger] rest[k]).name != rest[i].name
            || rest[k].version != rest[i].version by {
            assert(rest[k] == v[k]);
        }
        the_first_resolution_counts(rest, i);
    } else {
        assert(v[i] == v.last());
        lemma_deduplicated_from(rest);
        if let Some(p) = resolved_position(before, v[i].name, v[i].version, 0) {
            lemma_position_found(before, v[i].name, v[i].version, 0);
            assert(rest.contains(before[p]));
            let k = choose|k: int| 0 <= k < rest.len() && rest[k] == before[p];
            assert(v[k] == rest[k]);
        }
    }
}

proof fn lemma_position_found(v: Seq<LockfileEntryView>, name: Seq<char>, version: Seq<char>, i: int)
    requires
        0 <= i,
    ensures
        resolved_position(v, name, version, i) matches Some(p) ==> 0 <= p < v.len() && v[p].name
            == name && v[p].version == version,
    decreases v.len() - i,
{
    if i < v.len() {
        lemma_position_found(v, name, version, i + 1);
    }
}

proof fn lemma_deduplicated_from(v: Seq<LockfileEntryView>)
    ensures
        forall|k: int|
            0 <= k < deduplicated(v).len() ==> v.contains(#[trigger] deduplicated(v)[k]),
    decreases v.len(),
{
    if v.len() > 0 {
        let rest = v.drop_last();
        let before = deduplicated(rest);
        let now = deduplicated(v);
        lemma_deduplicated_from(rest);
        assert forall|k: int| 0 <= k < now.len() implies v.contains(#[trigger] now[k]) by {
            if k < before.len() {
                assert(now[k] == before[k]);
                let j = choose|j: int| 0 <= j < rest.len() && rest[j] == before[k];
                assert(v[j] == rest[j]);
            } else {
                assert(v[v.len() - 1] == now[k]);
            }
        }
    }
}

/// A lockfile whose format begins with a nine is read with its snapshots, every other one
/// without.
pub proof fn formats_decide_how_lockfiles_are_read(lock: YamlView, version: Seq<char>)
    requires
        yaml_field(lock, "lockfileVersion"@) matches Some(y) && (y == YamlView::Str(version) || y
            == YamlView::Number(version)),
    ensures
        version.len() > 0 && version[0] == '9' ==> pnpm_locked(Some(lock)) == EntriesView::Ok(
            pnpm_v9_entries(pnpm_section(lock, "packages"@), pnpm_section(lock, "snapshots"@)),
        ),
        version.len() == 0 || version[0] != '9' ==> pnpm_locked(Some(lock)) == EntriesView::Ok(
            pnpm_v6_entries(pnpm_section(lock, "packages"@)),
        ),
        pnpm_locked(None) is Err,
{
    reveal_strlit("9");
    if version.len() > 0 {
        assert(version.subrange(0, 1)[0] == version[0]);
        if version[0] == '9' {
            assert(version.subrange(0, 1) =~= "9"@);
        }
    }
}

/// Whether an entry stands for the same package as another one and holds all its ranges.
pub open spec fn keeps_ranges(now: LockfileEntryView, before: LockfileEntryView) -> bool {
    &&& now.name == before.name && now.version == before.version
    &&& forall|n: Seq<char>| #[trigger]
        before.dependencies.dom().contains(n) ==> now.dependencies.dom().contains(n)
            && now.dependencies[n] == before.dependencies[n]
    &&& forall|n: Seq<char>| #[trigger]
        before.peer_dependencies.dom().contains(n) ==> now.peer_dependencies.dom().contains(n)
            && now.peer_dependencies[n] == before.peer_dependencies[n]
}

/// A peer dependency becomes a dependency with the range that was declared for it, unless one
/// stands there already.
pub proof fn known_ranges_are_not_replaced(e: LockfileEntryView, name: Seq<char>)
    ensures
        keeps_ranges(with_peers(e), e),
        with_peers(e).peer_dependencies == e.peer_dependencies,
        with_peers(e).dependencies.dom().contains(name) <==> e.dependencies.dom().contains(name)
            || e.peer_dependencies.dom().contains(name),
        e.peer_dependencies.dom().contains(name) && !e.dependencies.dom().contains(name)
            ==> with_peers(e).dependencies[name] == e.peer_dependencies[name],
{
}

/// Snapshots only add to what is resolved: every entry keeps its place and its ranges.
pub proof fn snapshots_only_add(
    v: Seq<LockfileEntryView>,
    snapshots: Seq<(YamlView, YamlView)>,
    p: int,
)
    requires
        0 <= p < v.len(),
    ensures
        with_snapshots(v, snapshots).len() >= v.len(),
        keeps_ranges(with_snapshots(v, snapshots)[p], v[p]),
    decreases snapshots.len(),
{
    if snapshots.len() > 0 {
        let before = with_snapshots(v, snapshots.drop_last());
        let now = with_snapshots(v, snapshots);
        snapshots_only_add(v, snapshots.drop_last(), p);
        assert(keeps_ranges(before[p], v[p]));
        if let Some(text) = yaml_text(snapshots.last().0) {
            if let Some(k) = pnpm_key(text) {
                if let Some(q) = resolved_position(before, k.0, k.1, 0) {
                    lemma_position_found(before, k.0, k.1, 0);
                }
            }
        }
        assert(now.len() >= before.len());
        assert(keeps_ranges(now[p], before[p]));
    }
}

/// A package that is listed keeps its place and its ranges when more are listed.
pub proof fn listed_packages_only_grow(
    packages: Seq<(YamlView, YamlView)>,
    more: (YamlView, YamlView),
    p: int,
)
    requires
        0 <= p < listed_packages(packages).len(),
    ensures
        listed_packages(packages.push(more)).len() >= listed_packages(packages).len(),
        keeps_ranges(listed_packages(packages.push(more))[p], listed_packages(packages)[p]),
{
    let all = packages.push(more);
    let before = listed_packages(packages);
    assert(all.drop_last() =~= packages);
    assert(all.last() == more);
    if let Some(text) = yaml_text(more.0) {
        if let Some(k) = pnpm_key(text) {
            if let Some(q) = resolved_position(before, k.0, k.1, 0) {
                lemma_position_found(before, k.0, k.1, 0);
            }
        }
    }
    assert(listed_packages(all).len() >= before.len());
    assert(keeps_ranges(listed_packages(all)[p], before[p]));
}

} // verus!
