use frontend_analyzer::reexports::{
    analyze_file_transparency, analyze_file_transparency_with_resolver, read_module, Module,
    Modules, TransparencyCache, MAX_REEXPORT_DEPTH, UNKNOWN_FILE,
};
use frontend_analyzer::text_map::{PathMap, TextMap};

fn module(source: &str, resolved: &[(&str, &str)]) -> Module {
    let mut m = TextMap::new();
    for (specifier, path) in resolved {
        m.insert(specifier.to_string(), path.to_string());
    }
    read_module(&Ok(source.to_string()), m)
}

const WRAPPER: &str = "export const Wrapper = ({ children }) => <div>{children}</div>;";
const TABLE: &str = "export const Grid = ({ children }) => <Table>{children}</Table>;";

fn modules() -> Modules {
    let mut m: Modules = PathMap::new();
    m.insert("/p/Wrapper.tsx".to_string(), module(WRAPPER, &[]));
    m.insert("/p/Grid.tsx".to_string(), module(TABLE, &[]));
    m.insert(
        "/p/index.ts".to_string(),
        module(
            "export * from './Wrapper'; export { Grid, Missing } from './Grid'; export * from 'pkg'; export * from './gone';",
            &[
                ("./Wrapper", "/p/Wrapper.tsx"),
                ("./Grid", "/p/Grid.tsx"),
                ("pkg", "/p/node_modules/pkg/index.js"),
                ("./gone", "/p/gone.ts"),
            ],
        ),
    );
    m.insert("/p/node_modules/pkg/index.js".to_string(), module(WRAPPER, &[]));
    m
}

#[test]
fn single_files_give_what_they_define() {
    let own = analyze_file_transparency(&Ok(TABLE.to_string())).unwrap();
    assert_eq!(own.get("Grid"), Some(&Some("Table".to_string())));
    assert_eq!(
        analyze_file_transparency(&Err("no such file".to_string())).unwrap_err(),
        "no such file"
    );
}

#[test]
fn reexports_are_followed() {
    let mut cache: TransparencyCache = PathMap::new();
    let found = analyze_file_transparency_with_resolver("/p/index.ts", &modules(), &mut cache, 0).unwrap();
    assert_eq!(found.len(), 2);
    assert_eq!(found.get("Wrapper"), Some(&None));
    assert_eq!(found.get("Grid"), Some(&Some("Table".to_string())));
    // The files on the way are known now; installed packages were not looked at.
    assert!(cache.contains_key("/p/Wrapper.tsx"));
    assert!(cache.contains_key("/p/index.ts"));
    assert!(!cache.contains_key("/p/node_modules/pkg/index.js"));
}

#[test]
fn known_files_are_not_analysed_again() {
    let mut cache: TransparencyCache = PathMap::new();
    cache.insert("/p/Wrapper.tsx".to_string(), TextMap::new());
    let found = analyze_file_transparency_with_resolver("/p/index.ts", &modules(), &mut cache, 0).unwrap();
    assert!(!found.contains_key("Wrapper"));
    assert!(found.contains_key("Grid"));
}

#[test]
fn files_may_reexport_from_each_other() {
    let mut m: Modules = PathMap::new();
    m.insert(
        "/p/a.ts".to_string(),
        module("export * from './b'; export const A = ({ children }) => <>{children}</>;", &[("./b", "/p/b.ts")]),
    );
    m.insert(
        "/p/b.ts".to_string(),
        module("export * from './a'; export const B = ({ children }) => <>{children}</>;", &[("./a", "/p/a.ts")]),
    );
    let mut cache: TransparencyCache = PathMap::new();
    let found = analyze_file_transparency_with_resolver("/p/a.ts", &m, &mut cache, 0).unwrap();
    assert!(found.contains_key("A"));
    assert!(found.contains_key("B"));
}

#[test]
fn unknown_and_unreadable_files_are_errors() {
    let mut m: Modules = PathMap::new();
    m.insert(
        "/p/locked.ts".to_string(),
        read_module(&Err("permission denied".to_string()), TextMap::new()),
    );
    let mut cache: TransparencyCache = PathMap::new();
    assert_eq!(
        analyze_file_transparency_with_resolver("/p/locked.ts", &m, &mut cache, 0).unwrap_err(),
        "permission denied"
    );
    assert_eq!(
        analyze_file_transparency_with_resolver("/p/other.ts", &m, &mut cache, 0).unwrap_err(),
        UNKNOWN_FILE
    );
    assert!(analyze_file_transparency_with_resolver("/p/far.ts", &m, &mut cache, MAX_REEXPORT_DEPTH + 1)
        .unwrap()
        .is_empty());
}
