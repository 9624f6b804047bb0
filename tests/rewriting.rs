use gpm::package::{NpmConfig, NpmManifest, Package};
use gpm::rewrite::{file_kind, find_references, FileKind};

fn manifest() -> NpmManifest {
    NpmManifest { tarball: String::new(), integrity: String::new() }
}

fn package_with(name: &str, deps: &[(&str, &str)]) -> Package {
    let mut p = Package::new(name.to_string(), "1.0.0".to_string(), manifest());
    let children: Vec<Package> =
        deps.iter().map(|(n, v)| Package::new(n.to_string(), v.to_string(), manifest())).collect();
    p.get_deps(NpmConfig::new(children));
    p
}

fn script(p: &Package, text: &str, cwd: &str, exists: Vec<bool>) -> Option<String> {
    p.modify_script_loads(&text.to_string(), &cwd.to_string(), &exists)
}

fn resource(p: &Package, text: &str, cwd: &str, exists: Vec<bool>) -> Option<String> {
    p.modify_tres_loads(&text.to_string(), &cwd.to_string(), &exists)
}

#[test]
fn file_kinds_by_extension() {
    assert_eq!(file_kind("tres"), Some(FileKind::TextResource));
    assert_eq!(file_kind("tscn"), Some(FileKind::TextResource));
    assert_eq!(file_kind("gd"), Some(FileKind::Script));
    assert_eq!(file_kind("gdscript"), Some(FileKind::Script));
    assert_eq!(file_kind("png"), None);
    assert_eq!(file_kind(""), None);
}

#[test]
fn script_references_are_found() {
    let text = "var a = preload('res://x.gd')\nvar b = load(\"y.gd\")\n".to_string();
    let refs = find_references(FileKind::Script, &text);
    assert_eq!(refs.len(), 2);
    assert!(refs[0].pre);
    assert_eq!(refs[0].path, "x.gd");
    assert_eq!(refs[0].open, '\'');
    assert!(!refs[1].pre);
    assert_eq!(refs[1].path, "y.gd");
    assert_eq!(&text[refs[1].start..refs[1].end], "load(\"y.gd\")");
}

#[test]
fn malformed_script_references_are_ignored() {
    for text in ["load(\"\")", "load(\"a(b)\")", "load(x.gd)", "load(\"never closed", "reload"] {
        assert!(find_references(FileKind::Script, &text.to_string()).is_empty(), "{text}");
    }
}

#[test]
fn resource_references_are_found() {
    let text = "[gd_scene]\n[ext_resource path=\"res://icon.png\" type=\"Texture\"]\n".to_string();
    let refs = find_references(FileKind::TextResource, &text);
    assert_eq!(refs.len(), 1);
    assert_eq!(refs[0].path, "icon.png");
    assert!(find_references(FileKind::TextResource, &"[ext_resource path=\"\"]".to_string()).is_empty());
}

#[test]
fn text_without_references_is_left_alone() {
    let p = package_with("a", &[]);
    assert_eq!(script(&p, "func _ready():\n\tpass\n", "addons/a", vec![]), None);
    assert_eq!(resource(&p, "[gd_scene]\n", "addons/a", vec![]), None);
    assert_eq!(script(&p, "", "addons/a", vec![]), None);
}

#[test]
fn unresolved_reference_stays_in_project_root_form() {
    let p = package_with("a", &[]);
    let text = "var b = load(\"res://b.gd\")";
    assert_eq!(script(&p, text, "addons/a", vec![false]), Some(text.to_string()));
    assert_eq!(p.alias_table().lookup("b.gd"), None);
    assert!(!p.alias_table().resolves("b.gd", false));
    assert!(p.alias_table().resolves("b.gd", true));
    assert!(p.alias_table().resolves("a/b.gd", false));
    assert_eq!(script(&p, "load('b.gd')", "addons/a", vec![false]), Some("load('res://b.gd')".to_string()));
}

#[test]
fn preload_into_dependency_prefers_shorter_relative_form() {
    let p = package_with("a", &[("c", "2.0.0")]);
    assert_eq!(
        script(&p, "const U = preload(\"c/util.gd\")", "addons/a", vec![false]),
        Some("const U = preload(\"../__gpm_deps/c/2.0.0/util.gd\")".to_string())
    );
}

#[test]
fn load_into_dependency_is_always_project_root_form() {
    let p = package_with("a", &[("c", "2.0.0")]);
    assert_eq!(
        script(&p, "load(\"res://c/util.gd\")", "addons/a", vec![false]),
        Some("load(\"res://addons/__gpm_deps/c/2.0.0/util.gd\")".to_string())
    );
}

#[test]
fn existing_path_keeps_its_place() {
    let p = package_with("a", &[("c", "2.0.0")]);
    assert_eq!(
        script(&p, "preload(\"addons/a/sub/x.gd\")", "addons/a", vec![true]),
        Some("preload(\"sub/x.gd\")".to_string())
    );
    assert_eq!(
        script(&p, "load(\"addons/a/sub/x.gd\")", "addons/a", vec![true]),
        Some("load(\"res://addons/a/sub/x.gd\")".to_string())
    );
    assert_eq!(
        script(&p, "preload(\"c.gd\")", "addons/a", vec![true]),
        Some("preload(\"res://c.gd\")".to_string())
    );
}

#[test]
fn own_name_refers_to_own_directory() {
    let p = package_with("a", &[]);
    assert_eq!(
        script(&p, "load(\"a/x.gd\")", "addons/a/sub", vec![false]),
        Some("load(\"res://addons/a/x.gd\")".to_string())
    );
}

#[test]
fn shared_dependency_is_reached_from_both_parents() {
    let a = package_with("a", &[("c", "3.1.0")]);
    let b = package_with("b", &[("c", "3.1.0")]);
    let expected = Some("load(\"res://addons/__gpm_deps/c/3.1.0/x.gd\")".to_string());
    assert_eq!(script(&a, "load(\"c/x.gd\")", "addons/a", vec![false]), expected);
    assert_eq!(script(&b, "load(\"c/x.gd\")", "addons/b", vec![false]), expected);
}

#[test]
fn scoped_package_reached_by_full_and_unscoped_name() {
    let p = package_with("a", &[("@scope/tool", "1.0.0")]);
    let expected = Some("load(\"res://addons/__gpm_deps/@scope/tool/1.0.0/thing.gd\")".to_string());
    assert_eq!(script(&p, "load(\"tool/thing.gd\")", "addons/a", vec![false]), expected);
    assert_eq!(script(&p, "load(\"@scope/tool/thing.gd\")", "addons/a", vec![false]), expected);
    let table = p.alias_table();
    assert_eq!(table.lookup("tool/thing.gd"), table.lookup("@scope/tool/thing.gd"));
}

#[test]
fn resource_reference_into_dependency() {
    let p = package_with("a", &[("c", "2.0.0")]);
    assert_eq!(
        resource(&p, "[ext_resource path=\"res://c/icon.png\" type=\"Texture\"]", "addons/a", vec![false]),
        Some("[ext_resource path=\"res://addons/__gpm_deps/c/2.0.0/icon.png\" type=\"Texture\"]".to_string())
    );
}

#[test]
fn rewritten_resource_is_stable_on_second_run() {
    let p = package_with("a", &[("c", "2.0.0")]);
    let once = resource(&p, "[ext_resource path=\"c/icon.png\"]\n[ext_resource path=\"res://a.png\"]", "addons/a", vec![false, true])
        .unwrap();
    assert_eq!(once, "[ext_resource path=\"res://addons/__gpm_deps/c/2.0.0/icon.png\"]\n[ext_resource path=\"res://a.png\"]");
    let twice = resource(&p, &once, "addons/a", vec![true, true]).unwrap();
    assert_eq!(twice, once);
}

#[test]
fn several_references_in_one_script() {
    let p = package_with("a", &[("c", "2.0.0")]);
    let text = "preload(\"c/u.gd\") + load('c/v.gd') + load(\"w.gd\")";
    assert_eq!(
        script(&p, text, "addons/a", vec![false, false, false]),
        Some("preload(\"../__gpm_deps/c/2.0.0/u.gd\") + load('res://addons/__gpm_deps/c/2.0.0/v.gd') + load(\"res://w.gd\")".to_string())
    );
}

#[test]
fn relative_form_is_used_only_when_shorter() {
    let p = package_with("a", &[("c", "2.0.0")]);
    // from deep inside the package the relative form is longer
    assert_eq!(
        script(&p, "preload(\"c/u.gd\")", "addons/a/one/two/three/four/five/six", vec![false]),
        Some("preload(\"res://addons/__gpm_deps/c/2.0.0/u.gd\")".to_string())
    );
}
