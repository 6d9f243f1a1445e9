use frontend_analyzer::resolve::{
    choose_target, find_tsconfig, import_candidates, is_node_modules_path, resolve_import, Disk,
    PathEntry, ResolverMap, SubDirectory, TsconfigSearch,
};
use frontend_analyzer::text_map::PathMap;

/// An absolute path without `.` and `..`.
fn normalized(path: &str) -> String {
    let mut parts: Vec<&str> = Vec::new();
    for part in path.split('/') {
        match part {
            "" | "." => {}
            ".." => {
                parts.pop();
            }
            other => parts.push(other),
        }
    }
    format!("/{}", parts.join("/"))
}

fn is_dir(files: &[&str], path: &str) -> bool {
    let prefix = format!("{}/", path);
    files.iter().any(|f| f.starts_with(prefix.as_str()))
}

/// What stands at the paths that are looked at, in a file system with these files.
fn probe(files: &[&str], paths: &[String]) -> Disk {
    let mut disk: Disk = PathMap::new();
    for path in paths {
        let real = normalized(path);
        if files.contains(&real.as_str()) {
            disk.insert(path.clone(), PathEntry::File(real));
        } else if is_dir(files, &real) {
            disk.insert(path.clone(), PathEntry::Directory);
        }
    }
    disk
}

fn resolve(files: &[&str], importing: &str, module_source: &str) -> Option<String> {
    let disk = probe(files, &import_candidates(importing, module_source));
    resolve_import(importing, module_source, &disk)
}

/// Searches a file system with these files for all `tsconfig.json` files.
fn find_all(files: &[&str], root: &str, max_depth: usize) -> Vec<String> {
    let has = |dir: &str| files.contains(&format!("{}/tsconfig.json", dir).as_str());
    let mut search = TsconfigSearch::start(root, has(root), max_depth);
    while let Some((dir, depth)) = search.next() {
        let prefix = format!("{}/", dir);
        let mut names: Vec<String> = Vec::new();
        for file in files {
            if let Some(rest) = file.strip_prefix(prefix.as_str()) {
                if let Some((name, _)) = rest.split_once('/') {
                    if !names.contains(&name.to_string()) {
                        names.push(name.to_string());
                    }
                }
            }
        }
        let dirs: Vec<SubDirectory> = names
            .into_iter()
            .map(|name| {
                let path = format!("{}{}", prefix, name);
                SubDirectory {
                    has_tsconfig: has(&path),
                    path,
                    name,
                }
            })
            .collect();
        search.visit(&dirs, depth);
    }
    search.found
}

#[test]
fn test_skip_npm_packages() {
    let importing = "/project/src/App.tsx";
    let disk: Disk = PathMap::new();
    assert!(resolve_import(importing, "@patternfly/react-core", &disk).is_none());
    assert!(resolve_import(importing, "react", &disk).is_none());
    assert!(resolve_import(importing, "lodash/merge", &disk).is_none());
}

#[test]
fn test_resolve_with_extension() {
    let files = ["/p/src/Wrapper.tsx", "/p/src/App.tsx"];
    let resolved = resolve(&files, "/p/src/App.tsx", "./Wrapper");
    assert_eq!(resolved, Some("/p/src/Wrapper.tsx".to_string()));
}

#[test]
fn test_resolve_exact_path() {
    let files = ["/p/src/Wrapper.tsx", "/p/src/App.tsx"];
    let resolved = resolve(&files, "/p/src/App.tsx", "./Wrapper.tsx");
    assert_eq!(resolved, Some("/p/src/Wrapper.tsx".to_string()));
}

#[test]
fn test_resolve_index_file() {
    let files = ["/p/src/components/index.tsx", "/p/src/App.tsx"];
    let resolved = resolve(&files, "/p/src/App.tsx", "./components");
    assert_eq!(resolved, Some("/p/src/components/index.tsx".to_string()));
}

#[test]
fn test_resolve_parent_directory() {
    let files = ["/p/src/Wrapper.tsx", "/p/src/views/Page.tsx"];
    let resolved = resolve(&files, "/p/src/views/Page.tsx", "../Wrapper");
    assert_eq!(resolved, Some("/p/src/Wrapper.tsx".to_string()));
}

#[test]
fn test_resolve_nonexistent() {
    let resolved = resolve(&["/p/App.tsx"], "/p/App.tsx", "./DoesNotExist");
    assert!(resolved.is_none());
}

#[test]
fn test_extension_priority_tsx_first() {
    let files = ["/p/src/Wrapper.tsx", "/p/src/Wrapper.ts"];
    let resolved = resolve(&files, "/p/src/App.tsx", "./Wrapper");
    assert_eq!(resolved, Some("/p/src/Wrapper.tsx".to_string()));
}

#[test]
fn test_is_node_modules_path() {
    assert!(is_node_modules_path(
        "/project/node_modules/@patternfly/react-core/dist/index.js"
    ));
    assert!(!is_node_modules_path("/project/src/components/Foo.tsx"));
}

#[test]
fn test_find_tsconfig() {
    let mut disk: Disk = PathMap::new();
    disk.insert(
        "/p/tsconfig.json".to_string(),
        PathEntry::File("/p/tsconfig.json".to_string()),
    );
    let found = find_tsconfig("/p/src/app", &disk);
    assert_eq!(found, Some("/p/tsconfig.json".to_string()));
}

#[test]
fn test_find_tsconfig_not_found() {
    let disk: Disk = PathMap::new();
    assert!(find_tsconfig("/p", &disk).is_none());
}

#[test]
fn test_find_all_tsconfigs_in_project() {
    let files = ["/p/client/tsconfig.json", "/p/common/tsconfig.json"];
    let found = find_all(&files, "/p", 3);
    assert_eq!(found.len(), 2, "Should find 2 tsconfig files");
    assert!(found.contains(&"/p/client/tsconfig.json".to_string()));
    assert!(found.contains(&"/p/common/tsconfig.json".to_string()));
}

#[test]
fn test_find_all_tsconfigs_skips_node_modules() {
    let found = find_all(&["/p/node_modules/pkg/tsconfig.json"], "/p", 3);
    assert!(found.is_empty());
}

#[test]
fn test_find_all_tsconfigs_includes_root() {
    let files = ["/p/tsconfig.json", "/p/client/tsconfig.json"];
    let found = find_all(&files, "/p", 3);
    assert_eq!(found.len(), 2, "Should find root + client tsconfig");
}

#[test]
fn tsconfigs_below_the_depth_are_not_found() {
    let files = ["/p/a/b/tsconfig.json"];
    assert!(find_all(&files, "/p", 1).is_empty());
    assert_eq!(find_all(&files, "/p", 2), vec!["/p/a/b/tsconfig.json"]);
    assert!(find_all(&files, "/p", 0).is_empty());
}

#[test]
fn test_resolver_map_fallback_for_unknown_files() {
    let map = ResolverMap::new(&vec!["/p/client/tsconfig.json".to_string()]);
    // A file outside any tsconfig dir should use fallback
    assert!(map.resolver_for_file("/p/scripts/tool.ts").is_none());
}

#[test]
fn test_resolver_map_empty_project() {
    let map = ResolverMap::new(&Vec::new());
    assert_eq!(map.len(), 0);
    assert!(map.resolver_for_file("/p/src/App.tsx").is_none());
}

#[test]
fn files_are_routed_to_the_deepest_tsconfig() {
    let map = ResolverMap::new(&vec![
        "/p/tsconfig.json".to_string(),
        "/p/client/tsconfig.json".to_string(),
        "/p/common/tsconfig.json".to_string(),
    ]);
    let dir_of = |file: &str| map.resolver_for_file(file).map(|i| map.dir_at(i).clone());
    assert_eq!(dir_of("/p/client/src/App.tsx"), Some("/p/client".to_string()));
    assert_eq!(dir_of("/p/common/src/Main.tsx"), Some("/p/common".to_string()));
    assert_eq!(dir_of("/p/clients/App.tsx"), Some("/p".to_string()));
    assert_eq!(dir_of("/q/App.tsx"), None);
}

#[test]
fn only_relative_imports_have_candidates() {
    assert!(import_candidates("/p/App.tsx", "react").is_empty());
    assert_eq!(
        import_candidates("/p/App.tsx", "./a"),
        vec![
            "/p/./a",
            "/p/./a.tsx",
            "/p/./a.ts",
            "/p/./a.jsx",
            "/p/./a.js",
            "/p/./a/index.tsx",
            "/p/./a/index.ts",
            "/p/./a/index.jsx",
            "/p/./a/index.js",
        ]
    );
}

#[test]
fn tsconfigs_are_found_in_hidden_directories() {
    let files = [
        "/p/.storybook/tsconfig.json",
        "/p/.git/tsconfig.json",
        "/p/dist/tsconfig.json",
        "/p/build/tsconfig.json",
        "/p/target/tsconfig.json",
    ];
    assert_eq!(find_all(&files, "/p", 3), vec!["/p/.storybook/tsconfig.json"]);
}

#[test]
fn what_a_resolver_finds_comes_first() {
    let files = ["/p/src/a.ts", "/p/src/b.ts"];
    let disk = probe(&files, &import_candidates("/p/src/a.ts", "./b"));
    let found = Some("/q/node_modules/b/index.js".to_string());
    let target = choose_target("/p/src/a.ts", "./b", found, &disk).unwrap();
    assert_eq!(target.path, "/q/node_modules/b/index.js");
    assert!(!target.followed);
    let target = choose_target("/p/src/a.ts", "./b", None, &disk).unwrap();
    assert_eq!(target.path, "/p/src/b.ts");
    assert!(target.followed);
    assert!(choose_target("/p/src/a.ts", "b", None, &disk).is_none());
}
