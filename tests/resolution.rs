use gpm::config_file::ConfigFile;
use gpm::package::{NpmConfig, NpmManifest, Package};
use gpm::resolve::{manifest_error, resolve, ManifestError, Registry, RegistryEntry, Requirement, ResolveError};

fn manifest(tag: &str) -> NpmManifest {
    NpmManifest { tarball: format!("https://example.org/{tag}.tgz"), integrity: format!("sha512-{tag}") }
}

fn req(name: &str, version: &str) -> Requirement {
    Requirement { name: name.to_string(), version: version.to_string() }
}

fn entry(name: &str, version: &str, deps: &[(&str, &str)]) -> RegistryEntry {
    RegistryEntry {
        name: name.to_string(),
        version: version.to_string(),
        manifest: manifest(name),
        dependencies: deps.iter().map(|(n, v)| req(n, v)).collect(),
    }
}

fn registry(entries: Vec<RegistryEntry>) -> Registry {
    let mut r = Registry::new();
    for e in entries {
        r.insert(e);
    }
    r
}

#[test]
fn install_directories_of_direct_and_indirect_packages() {
    let mut p = Package::new("a".to_string(), "1.0.0".to_string(), manifest("a"));
    assert_eq!(p.download_dir(), "addons/a");
    p.meta.indirect = true;
    assert_eq!(p.download_dir(), "addons/__gpm_deps/a/1.0.0");
}

#[test]
fn same_name_version_and_directness_share_a_directory() {
    let mut p = Package::new("c".to_string(), "2.0.0".to_string(), manifest("c"));
    let mut q = Package::new("c".to_string(), "2.0.0".to_string(), manifest("other"));
    p.meta.indirect = true;
    q.meta.indirect = true;
    assert_eq!(p.download_dir(), q.download_dir());
}

#[test]
fn package_display_name() {
    let p = Package::new("@scope/tool".to_string(), "1.2.3".to_string(), manifest("t"));
    assert_eq!(p.to_string(), "@scope/tool@1.2.3");
    assert!(!p.has_deps());
}

#[test]
fn declared_dependencies_become_indirect() {
    let mut p = Package::new("a".to_string(), "1.0.0".to_string(), manifest("a"));
    let c = Package::new("c".to_string(), "2.0.0".to_string(), manifest("c"));
    p.get_deps(NpmConfig::new(vec![c]));
    assert!(p.has_deps());
    assert_eq!(p.meta.dependencies.len(), 1);
    assert!(p.meta.dependencies[0].meta.indirect);
    assert!(!p.meta.indirect);
    assert_eq!(p.meta.dependencies[0].download_dir(), "addons/__gpm_deps/c/2.0.0");
}

#[test]
fn clone_keeps_the_whole_tree() {
    let mut p = Package::new("a".to_string(), "1.0.0".to_string(), manifest("a"));
    p.get_deps(NpmConfig::new(vec![Package::new("c".to_string(), "2.0.0".to_string(), manifest("c"))]));
    let q = p.clone();
    assert_eq!(q.name, "a");
    assert_eq!(q.meta.npm_manifest.integrity, "sha512-a");
    assert_eq!(q.meta.dependencies.len(), 1);
    assert_eq!(q.meta.dependencies[0].name, "c");
    assert!(q.meta.dependencies[0].meta.indirect);
}

#[test]
fn single_package_without_dependencies() {
    let reg = registry(vec![entry("a", "1.0.0", &[])]);
    let pkgs = resolve(&vec![req("a", "1.0.0")], &reg).ok().unwrap();
    assert_eq!(pkgs.len(), 1);
    assert_eq!(pkgs[0].download_dir(), "addons/a");
    assert!(!pkgs[0].has_deps());
    assert_eq!(pkgs[0].meta.npm_manifest.tarball, "https://example.org/a.tgz");
}

#[test]
fn transitive_dependency_goes_to_shared_cache() {
    let reg = registry(vec![entry("a", "1.0.0", &[("c", "2.0.0")]), entry("c", "2.0.0", &[])]);
    let pkgs = resolve(&vec![req("a", "1.0.0")], &reg).ok().unwrap();
    assert_eq!(pkgs.len(), 1);
    assert_eq!(pkgs[0].download_dir(), "addons/a");
    assert_eq!(pkgs[0].meta.dependencies.len(), 1);
    let c = &pkgs[0].meta.dependencies[0];
    assert!(c.meta.indirect);
    assert_eq!(c.download_dir(), "addons/__gpm_deps/c/2.0.0");
}

#[test]
fn one_root_per_declaration_in_order() {
    let reg = registry(vec![
        entry("b", "1.0.0", &[]),
        entry("a", "1.0.0", &[("b", "1.0.0")]),
    ]);
    let pkgs = resolve(&vec![req("b", "1.0.0"), req("a", "1.0.0")], &reg).ok().unwrap();
    assert_eq!(pkgs.len(), 2);
    assert_eq!(pkgs[0].name, "b");
    assert_eq!(pkgs[1].name, "a");
    assert_eq!(pkgs[0].download_dir(), "addons/b");
    assert_eq!(pkgs[1].meta.dependencies[0].download_dir(), "addons/__gpm_deps/b/1.0.0");
}

#[test]
fn shared_transitive_dependency_has_one_directory() {
    let reg = registry(vec![
        entry("a", "1.0.0", &[("c", "3.1.0")]),
        entry("b", "1.0.0", &[("c", "3.1.0")]),
        entry("c", "3.1.0", &[]),
    ]);
    let cfg = ConfigFile::new(&vec![req("a", "1.0.0"), req("b", "1.0.0")], &reg).ok().unwrap();
    let all = cfg.collect();
    let names: Vec<String> = all.iter().map(|p| p.name.clone()).collect();
    assert_eq!(names, vec!["a", "c", "b", "c"]);
    let indirect_dirs: Vec<String> = all.iter().filter(|p| p.meta.indirect).map(|p| p.download_dir()).collect();
    assert_eq!(indirect_dirs, vec!["addons/__gpm_deps/c/3.1.0", "addons/__gpm_deps/c/3.1.0"]);
}

#[test]
fn missing_package_is_reported() {
    let reg = registry(vec![entry("a", "1.0.0", &[("x", "9.9.9")])]);
    match resolve(&vec![req("a", "1.0.0")], &reg) {
        Err(ResolveError::NotFound { name, version }) => {
            assert_eq!(name, "x");
            assert_eq!(version, "9.9.9");
        },
        _ => panic!("expected a missing package"),
    }
}

#[test]
fn unknown_top_level_version_is_reported() {
    let reg = registry(vec![entry("a", "1.0.0", &[])]);
    match resolve(&vec![req("a", "2.0.0")], &reg) {
        Err(ResolveError::NotFound { name, version }) => {
            assert_eq!(name, "a");
            assert_eq!(version, "2.0.0");
        },
        _ => panic!("expected a missing package"),
    }
}

#[test]
fn dependency_cycle_is_reported() {
    let reg = registry(vec![entry("a", "1", &[("b", "1")]), entry("b", "1", &[("a", "1")])]);
    match resolve(&vec![req("a", "1")], &reg) {
        Err(ResolveError::Cycle { name, version }) => {
            assert_eq!(name, "a");
            assert_eq!(version, "1");
        },
        _ => panic!("expected a cycle"),
    }
}

#[test]
fn self_dependency_is_a_cycle() {
    let reg = registry(vec![entry("a", "1", &[("a", "1")])]);
    assert!(matches!(resolve(&vec![req("a", "1")], &reg), Err(ResolveError::Cycle { .. })));
}

#[test]
fn empty_declaration_resolves_to_nothing() {
    let reg = Registry::new();
    let pkgs = resolve(&vec![], &reg).ok().unwrap();
    assert!(pkgs.is_empty());
}

#[test]
fn registry_insert_replaces_same_key() {
    let mut reg = Registry::new();
    reg.insert(entry("a", "1", &[]));
    reg.insert(entry("a", "1", &[("b", "2")]));
    reg.insert(entry("a", "2", &[]));
    assert_eq!(reg.entries.len(), 2);
    assert_eq!(reg.entries[0].dependencies.len(), 1);
    assert_eq!(reg.find(&"a".to_string(), &"2".to_string()), Some(1));
    assert_eq!(reg.find(&"b".to_string(), &"2".to_string()), None);
}

#[test]
fn fetch_plan_walks_declarations_then_entries() {
    let declared = vec![req("a", "1.0.0")];
    let mut reg = Registry::new();
    assert_eq!(reg.next_fetch(&declared), Some(("a".to_string(), "1.0.0".to_string())));
    reg.insert(entry("a", "1.0.0", &[("c", "2.0.0"), ("d", "1.0.0")]));
    assert_eq!(reg.next_fetch(&declared), Some(("c".to_string(), "2.0.0".to_string())));
    reg.insert(entry("c", "2.0.0", &[]));
    assert_eq!(reg.next_fetch(&declared), Some(("d".to_string(), "1.0.0".to_string())));
    reg.insert(entry("d", "1.0.0", &[]));
    assert_eq!(reg.next_fetch(&declared), None);
}

#[test]
fn registry_replies_are_classified() {
    assert_eq!(manifest_error("\"Not Found\"", "1.0.0"), Some(ManifestError::NotFound));
    assert_eq!(manifest_error("\"version not found: 1.0.0\"", "1.0.0"), Some(ManifestError::VersionNotFound));
    assert_eq!(manifest_error("\"version not found: 1.0.0\"", "2.0.0"), None);
    assert_eq!(manifest_error("{\"dist\":{}}", "1.0.0"), None);
}

#[test]
fn collect_visits_each_package_before_its_dependencies() {
    let reg = registry(vec![
        entry("a", "1", &[("b", "1"), ("d", "1")]),
        entry("b", "1", &[("c", "1")]),
        entry("c", "1", &[]),
        entry("d", "1", &[]),
        entry("e", "1", &[]),
    ]);
    let cfg = ConfigFile::new(&vec![req("a", "1"), req("e", "1")], &reg).ok().unwrap();
    let names: Vec<String> = cfg.collect().iter().map(|p| p.to_string()).collect();
    assert_eq!(names, vec!["a@1", "b@1", "c@1", "d@1", "e@1"]);
    let visited = cfg.for_each(|p: &Package| p.download_dir());
    assert_eq!(
        visited,
        vec![
            "addons/a",
            "addons/__gpm_deps/b/1",
            "addons/__gpm_deps/c/1",
            "addons/__gpm_deps/d/1",
            "addons/e",
        ]
    );
}

#[test]
fn config_file_reports_resolution_failure() {
    let reg = Registry::new();
    assert!(matches!(ConfigFile::new(&vec![req("a", "1")], &reg), Err(ResolveError::NotFound { .. })));
}

#[test]
fn lock_entries_keep_installed_packages_once_per_name() {
    let reg = registry(vec![
        entry("a", "1", &[("c", "1")]),
        entry("b", "1", &[("c", "2")]),
        entry("c", "1", &[]),
        entry("c", "2", &[]),
    ]);
    let cfg = ConfigFile::new(&vec![req("a", "1"), req("b", "1")], &reg).ok().unwrap();
    // order: a, c@1, b, c@2
    let lines = cfg.lock_entries(&vec![true, true, false, true]);
    assert_eq!(lines.len(), 2);
    assert_eq!(lines[0].0, "a");
    assert_eq!(lines[0].1.version, "1");
    assert_eq!(lines[0].1.integrity, "sha512-a");
    assert_eq!(lines[1].0, "c");
    assert_eq!(lines[1].1.version, "2");
    let none = cfg.lock_entries(&vec![false, false, false, false]);
    assert!(none.is_empty());
}

#[test]
fn tree_drawing_of_nested_packages() {
    let reg = registry(vec![
        entry("a", "1", &[("b", "1"), ("d", "1")]),
        entry("b", "1", &[("c", "1")]),
        entry("c", "1", &[]),
        entry("d", "1", &[]),
        entry("e", "1", &[]),
    ]);
    let cfg = ConfigFile::new(&vec![req("a", "1"), req("e", "1")], &reg).ok().unwrap();
    assert_eq!(
        cfg.tree_lines(),
        vec![
            "├── a@1",
            "│   ├── b@1",
            "│   │   └── c@1",
            "│   └── d@1",
            "└── e@1",
        ]
    );
}
