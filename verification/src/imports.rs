//! Import declarations.

use crate::ast::{ImportDeclaration, ImportKind, ImportSpecifier, Program, Statement};
use crate::incident::{
    incident_at, incident_views, lemma_incident_views_push, lies_at, make_incident, Incident,
    IncidentView,
};
use crate::json::as_text;
use crate::pattern::{regex_is_match, regex_text};
use crate::text::{text_between, text_between_bytes};
use crate::text_map::TextMap;
use vstd::prelude::*;

verus! {

/// Local names with the modules that they are imported from.
pub type ImportMap = TextMap<String>;

/// The content of an import map.
pub open spec fn import_map_view(m: ImportMap) -> Map<Seq<char>, Seq<char>> {
    m@.map_values(|s: String| s@)
}

/// The names that the first `n` specifiers bring in, on top of `m`.
pub open spec fn with_specifiers(
    m: Map<Seq<char>, Seq<char>>,
    d: ImportDeclaration,
    n: int,
) -> Map<Seq<char>, Seq<char>>
    decreases n,
{
    if n <= 0 {
        m
    } else {
        with_specifiers(m, d, n - 1).insert(d.specifiers@[n - 1].local@, d.source@)
    }
}

/// The names that statements import: a later import of a name wins.
pub open spec fn imported_names(body: Seq<Statement>) -> Map<Seq<char>, Seq<char>>
    decreases body.len(),
{
    if body.len() == 0 {
        Map::empty()
    } else {
        let before = imported_names(body.drop_last());
        match body.last() {
            Statement::Import(d) => with_specifiers(before, d, d.specifiers@.len() as int),
            _ => before,
        }
    }
}

/// Builds the map from local names to modules of all import declarations.
pub fn build_import_map(program: &Program) -> (r: ImportMap)
    ensures
        import_map_view(r) == imported_names(program.body@),
{
    let mut map: ImportMap = TextMap::new();
    let mut i: usize = 0;
    assert(import_map_view(map) =~= Map::<Seq<char>, Seq<char>>::empty());
    while i < program.body.len()
        invariant
            i <= program.body@.len(),
            import_map_view(map) == imported_names(program.body@.take(i as int)),
        decreases program.body@.len() - i,
    {
        let ghost before = program.body@.take(i as int);
        assert(program.body@.take(i + 1).drop_last() =~= before);
        if let Statement::Import(d) = &program.body[i] {
            let mut k: usize = 0;
            while k < d.specifiers.len()
                invariant
                    k <= d.specifiers@.len(),
                    import_map_view(map) == with_specifiers(imported_names(before), *d, k as int),
                decreases d.specifiers@.len() - k,
            {
                let ghost old_map = map;
                map.insert(d.specifiers[k].local.clone(), d.source.clone());
                assert(import_map_view(map) =~= import_map_view(old_map).insert(
                    d.specifiers@[k as int].local@,
                    d.source@,
                ));
                k = k + 1;
            }
        }
        i = i + 1;
    }
    assert(program.body@.take(program.body@.len() as int) =~= program.body@);
    map
}

/// The imported name that an incident shows for a specifier.
pub open spec fn shown_name(s: ImportSpecifier) -> Seq<char> {
    match s.kind {
        ImportKind::Named(n) => n@,
        ImportKind::Default => s.local@,
        ImportKind::Namespace => "* as "@ + s.local@,
    }
}

/// Whether a specifier matches: by its local name, or by the name that it imports.
pub open spec fn specifier_matches(s: ImportSpecifier, pattern: Seq<char>) -> bool {
    ||| regex_is_match(pattern, s.local@)
    ||| s.kind matches ImportKind::Named(n) && regex_is_match(pattern, n@)
}

pub open spec fn specifier_incident(
    s: ImportSpecifier,
    module: Seq<char>,
    source: Seq<char>,
    file_uri: Seq<char>,
) -> IncidentView {
    let base = incident_at(source, file_uri, s.span.start, s.span.end).with_text(
        "importedName"@,
        shown_name(s),
    );
    let named = if s.kind is Named {
        base.with_text("localName"@, s.local@)
    } else {
        base
    };
    named.with_text("module"@, module)
}

/// The incidents of the first `n` specifiers.
pub open spec fn specifier_hits(
    d: ImportDeclaration,
    n: int,
    source: Seq<char>,
    pattern: Seq<char>,
    file_uri: Seq<char>,
) -> Seq<IncidentView>
    decreases n,
{
    if n <= 0 {
        Seq::empty()
    } else {
        let before = specifier_hits(d, n - 1, source, pattern, file_uri);
        let s = d.specifiers@[n - 1];
        if specifier_matches(s, pattern) {
            before.push(specifier_incident(s, d.source@, source, file_uri))
        } else {
            before
        }
    }
}

/// The incident of a whole import declaration.
pub open spec fn module_incident(
    d: ImportDeclaration,
    source: Seq<char>,
    file_uri: Seq<char>,
) -> IncidentView {
    incident_at(source, file_uri, d.span.start, d.span.end).with_text(
        "matchingText"@,
        text_between(source, d.span.start as int, d.span.end as int),
    ).with_text("module"@, d.source@)
}

/// The incidents of a statement: of an import, one for the declaration where the
/// module matches, else one for each specifier that does.
pub open spec fn import_hits(
    stmt: Statement,
    source: Seq<char>,
    pattern: Seq<char>,
    file_uri: Seq<char>,
) -> Seq<IncidentView> {
    match stmt {
        Statement::Import(d) => if regex_is_match(pattern, d.source@) {
            seq![module_incident(d, source, file_uri)]
        } else {
            specifier_hits(d, d.specifiers@.len() as int, source, pattern, file_uri)
        },
        _ => Seq::empty(),
    }
}

fn make_specifier_incident(
    s: &ImportSpecifier,
    module: &str,
    source: &str,
    file_uri: &str,
) -> (r: Incident)
    ensures
        r@ == specifier_incident(*s, module@, source@, file_uri@),
{
    let mut incident = make_incident(source, file_uri, s.span.start, s.span.end);
    match &s.kind {
        ImportKind::Named(n) => {
            incident.set_text("importedName", n.as_str());
            incident.set_text("localName", s.local.as_str());
        },
        ImportKind::Default => {
            incident.set_text("importedName", s.local.as_str());
        },
        ImportKind::Namespace => {
            let shown = "* as ".to_owned().concat(s.local.as_str());
            incident.set_text("importedName", shown.as_str());
        },
    }
    incident.set_text("module", module);
    incident
}

/// Scans a statement for import declarations that match the pattern.
pub fn scan_imports(
    stmt: &Statement,
    source: &str,
    pattern: &regex::Regex,
    file_uri: &str,
) -> (r: Vec<Incident>)
    ensures
        incident_views(r@) == import_hits(*stmt, source@, regex_text(*pattern), file_uri@),
{
    let mut incidents: Vec<Incident> = Vec::new();
    assert(incident_views(incidents@) =~= Seq::<IncidentView>::empty());
    if let Statement::Import(d) = stmt {
        if pattern.is_match(d.source.as_str()) {
            let mut incident = make_incident(source, file_uri, d.span.start, d.span.end);
            let text = text_between_bytes(source, d.span.start as u64, d.span.end as u64);
            incident.set_text("matchingText", text.as_str());
            incident.set_text("module", d.source.as_str());
            proof {
                lemma_incident_views_push(incidents@, incident);
            }
            incidents.push(incident);
            assert(incident_views(incidents@) =~= seq![module_incident(*d, source@, file_uri@)]);
            return incidents;
        }
        let mut k: usize = 0;
        while k < d.specifiers.len()
            invariant
                k <= d.specifiers@.len(),
                incident_views(incidents@) == specifier_hits(
                    *d,
                    k as int,
                    source@,
                    regex_text(*pattern),
                    file_uri@,
                ),
            decreases d.specifiers@.len() - k,
        {
            let s = &d.specifiers[k];
            let imported = match &s.kind {
                ImportKind::Named(n) => pattern.is_match(n.as_str()),
                _ => false,
            };
            if imported || pattern.is_match(s.local.as_str()) {
                let incident = make_specifier_incident(s, d.source.as_str(), source, file_uri);
                proof {
                    lemma_incident_views_push(incidents@, incident);
                }
                incidents.push(incident);
            }
            k = k + 1;
        }
    }
    incidents
}

// ── Laws of imports ─────────────────────────────────────────────────────

/// Whether an incident lies in a file and names the module of a declaration.
pub open spec fn names_module(i: IncidentView, module: Seq<char>, file_uri: Seq<char>) -> bool {
    &&& i.file_uri == file_uri
    &&& i.variables.dom().contains("module"@)
    &&& as_text(i.variables["module"@]) == Some(module)
}

/// Every incident of an import lies in the scanned file and names the module, by
/// which rules tell packages apart; there is at most one for each specifier, or one
/// for the whole declaration.
pub proof fn incidents_name_their_module(
    d: ImportDeclaration,
    source: Seq<char>,
    pattern: Seq<char>,
    file_uri: Seq<char>,
)
    ensures
        ({
            let hits = import_hits(Statement::Import(d), source, pattern, file_uri);
            &&& forall|i: int|
                0 <= i < hits.len() ==> names_module(#[trigger] hits[i], d.source@, file_uri)
            &&& hits.len() <= d.specifiers@.len() || hits.len() == 1
        }),
{
    if !regex_is_match(pattern, d.source@) {
        lemma_specifier_hits(d, d.specifiers@.len() as int, source, pattern, file_uri);
    }
}

proof fn lemma_specifier_hits(
    d: ImportDeclaration,
    n: int,
    source: Seq<char>,
    pattern: Seq<char>,
    file_uri: Seq<char>,
)
    requires
        0 <= n <= d.specifiers@.len(),
    ensures
        specifier_hits(d, n, source, pattern, file_uri).len() <= n,
        forall|i: int|
            0 <= i < specifier_hits(d, n, source, pattern, file_uri).len() ==> names_module(
                #[trigger] specifier_hits(d, n, source, pattern, file_uri)[i],
                d.source@,
                file_uri,
            ),
    decreases n,
{
    if n > 0 {
        lemma_specifier_hits(d, n - 1, source, pattern, file_uri);
        let before = specifier_hits(d, n - 1, source, pattern, file_uri);
        let now = specifier_hits(d, n, source, pattern, file_uri);
        assert forall|i: int| 0 <= i < now.len() implies names_module(
            #[trigger] now[i],
            d.source@,
            file_uri,
        ) by {
            if i < before.len() {
                assert(now[i] == before[i]);
            }
        }
    }
}

/// The names of an import stand for its module, until they are imported again.
pub proof fn imports_are_resolved(body: Seq<Statement>, d: ImportDeclaration, k: int)
    requires
        0 <= k < d.specifiers@.len(),
    ensures
        ({
            let names = imported_names(body.push(Statement::Import(d)));
            let local = d.specifiers@[k].local@;
            names.dom().contains(local) && names[local] == d.source@
        }),
{
    assert(body.push(Statement::Import(d)).drop_last() =~= body);
    lemma_with_specifiers(imported_names(body), d, d.specifiers@.len() as int, k);
}

proof fn lemma_with_specifiers(
    m: Map<Seq<char>, Seq<char>>,
    d: ImportDeclaration,
    n: int,
    k: int,
)
    requires
        0 <= k < n <= d.specifiers@.len(),
    ensures
        with_specifiers(m, d, n).dom().contains(d.specifiers@[k].local@),
        with_specifiers(m, d, n)[d.specifiers@[k].local@] == d.source@,
    decreases n,
{
    if k < n - 1 {
        lemma_with_specifiers(m, d, n - 1, k);
    }
}

/// Whether an incident is that of a specifier: it lies at the specifier and tells the
/// imported name, the module, and the local name where that may differ.
pub open spec fn is_of_specifier(
    i: IncidentView,
    s: ImportSpecifier,
    module: Seq<char>,
    source: Seq<char>,
    file_uri: Seq<char>,
) -> bool {
    &&& lies_at(i, source, file_uri, s.span.start, s.span.end)
    &&& tells(i, "module"@, module)
    &&& match s.kind {
        ImportKind::Named(n) => tells(i, "importedName"@, n@) && tells(i, "localName"@, s.local@),
        ImportKind::Default => tells(i, "importedName"@, s.local@),
        ImportKind::Namespace => tells(i, "importedName"@, "* as "@ + s.local@),
    }
}

/// Whether an incident has a variable with the given text.
pub open spec fn tells(i: IncidentView, key: Seq<char>, text: Seq<char>) -> bool {
    i.variables.dom().contains(key) && as_text(i.variables[key]) == Some(text)
}

proof fn lemma_specifier_found(
    d: ImportDeclaration,
    n: int,
    source: Seq<char>,
    pattern: Seq<char>,
    file_uri: Seq<char>,
    j: int,
)
    requires
        0 <= j < n <= d.specifiers@.len(),
        specifier_matches(d.specifiers@[j], pattern),
    ensures
        specifier_hits(d, n, source, pattern, file_uri).contains(
            specifier_incident(d.specifiers@[j], d.source@, source, file_uri),
        ),
    decreases n,
{
    let x = specifier_incident(d.specifiers@[j], d.source@, source, file_uri);
    let before = specifier_hits(d, n - 1, source, pattern, file_uri);
    let after = specifier_hits(d, n, source, pattern, file_uri);
    if j < n - 1 {
        lemma_specifier_found(d, n - 1, source, pattern, file_uri, j);
        let k = choose|k: int| 0 <= k < before.len() && before[k] == x;
        assert(after[k] == x);
    } else {
        assert(after[after.len() - 1] == x);
    }
}

/// Every import that matches is found: the whole declaration where its module does, else
/// each specifier whose local or imported name does.
pub proof fn every_import_is_found(
    d: ImportDeclaration,
    source: Seq<char>,
    pattern: Seq<char>,
    file_uri: Seq<char>,
    j: int,
)
    ensures
        regex_is_match(pattern, d.source@) ==> {
            let hits = import_hits(Statement::Import(d), source, pattern, file_uri);
            hits.len() == 1 && lies_at(hits[0], source, file_uri, d.span.start, d.span.end)
                && tells(hits[0], "module"@, d.source@) && tells(
                hits[0],
                "matchingText"@,
                text_between(source, d.span.start as int, d.span.end as int),
            )
        },
        !regex_is_match(pattern, d.source@) && 0 <= j < d.specifiers@.len() && (regex_is_match(
            pattern,
            d.specifiers@[j].local@,
        ) || (d.specifiers@[j].kind matches ImportKind::Named(n) && regex_is_match(pattern, n@)))
            ==> exists|k: int|
            0 <= k < import_hits(Statement::Import(d), source, pattern, file_uri).len()
                && is_of_specifier(
                #[trigger] import_hits(Statement::Import(d), source, pattern, file_uri)[k],
                d.specifiers@[j],
                d.source@,
                source,
                file_uri,
            ),
{
    reveal_strlit("module");
    reveal_strlit("importedName");
    reveal_strlit("localName");
    reveal_strlit("matchingText");
    assert("module"@.len() == 6 && "importedName"@.len() == 12 && "localName"@.len() == 9
        && "matchingText"@.len() == 12);
    if !regex_is_match(pattern, d.source@) && 0 <= j < d.specifiers@.len() && (regex_is_match(
        pattern,
        d.specifiers@[j].local@,
    ) || (d.specifiers@[j].kind matches ImportKind::Named(n) && regex_is_match(pattern, n@))) {
        let n = d.specifiers@.len() as int;
        lemma_specifier_found(d, n, source, pattern, file_uri, j);
        let all = import_hits(Statement::Import(d), source, pattern, file_uri);
        let x = specifier_incident(d.specifiers@[j], d.source@, source, file_uri);
        let k = choose|k: int| 0 <= k < all.len() && all[k] == x;
        assert(is_of_specifier(all[k], d.specifiers@[j], d.source@, source, file_uri));
    }
}

/// A name stands for a module only where an import of that module brings it in.
pub proof fn names_come_from_imports(body: Seq<Statement>, name: Seq<char>)
    requires
        imported_names(body).dom().contains(name),
    ensures
        exists|i: int|
            0 <= i < body.len() && brings_in(
                #[trigger] body[i],
                name,
                imported_names(body)[name],
            ),
    decreases body.len(),
{
    let before = imported_names(body.drop_last());
    if let Statement::Import(d) = body.last() {
        lemma_names_of_specifiers(before, d, d.specifiers@.len() as int, name);
        if !brings_in(body.last(), name, imported_names(body)[name]) {
            names_come_from_imports(body.drop_last(), name);
            let i = choose|i: int|
                0 <= i < body.drop_last().len() && brings_in(
                    #[trigger] body.drop_last()[i],
                    name,
                    before[name],
                );
            assert(body[i] == body.drop_last()[i]);
        } else {
            assert(body[body.len() - 1] == body.last());
        }
    } else {
        names_come_from_imports(body.drop_last(), name);
        let i = choose|i: int|
            0 <= i < body.drop_last().len() && brings_in(
                #[trigger] body.drop_last()[i],
                name,
                before[name],
            );
        assert(body[i] == body.drop_last()[i]);
    }
}

/// Whether a statement imports a name from a module.
pub open spec fn brings_in(s: Statement, name: Seq<char>, module: Seq<char>) -> bool {
    s matches Statement::Import(d) && d.source@ == module && exists|k: int|
        0 <= k < d.specifiers@.len() && (#[trigger] d.specifiers@[k]).local@ == name
}

proof fn lemma_names_of_specifiers(
    m: Map<Seq<char>, Seq<char>>,
    d: ImportDeclaration,
    n: int,
    name: Seq<char>,
)
    requires
        0 <= n <= d.specifiers@.len(),
        with_specifiers(m, d, n).dom().contains(name),
    ensures
        brings_in(Statement::Import(d), name, with_specifiers(m, d, n)[name]) || (m.dom().contains(
            name,
        ) && with_specifiers(m, d, n)[name] == m[name]),
    decreases n,
{
    if n > 0 {
        if d.specifiers@[n - 1].local@ != name {
            lemma_names_of_specifiers(m, d, n - 1, name);
        }
    }
}

} // verus!
