use gpm::paths::absolute_to_relative;

fn rel(path: &str, cwd: &str) -> String {
    absolute_to_relative(&path.to_string(), &cwd.to_string())
}

#[test]
fn relative_path_under_current_directory() {
    assert_eq!(rel("addons/a/x.gd", "addons/a"), "x.gd");
    assert_eq!(rel("addons/a/sub/x.gd", "addons/a"), "sub/x.gd");
}

#[test]
fn relative_path_is_shorter_and_joins_back() {
    let p = "addons/a/sub/x.gd";
    let cwd = "addons/a";
    let r = rel(p, cwd);
    assert!(r.len() < p.len());
    assert_eq!(format!("{}/{}", cwd, r), p);
}

#[test]
fn relative_path_climbs_to_sibling() {
    assert_eq!(rel("addons/b/y.gd", "addons/a"), "../b/y.gd");
    assert_eq!(rel("addons/__gpm_deps/c/2.0.0/util.gd", "addons/a/sub"), "../../__gpm_deps/c/2.0.0/util.gd");
}

#[test]
fn relative_path_of_the_directory_itself_is_empty() {
    assert_eq!(rel("addons/a", "addons/a"), "");
}

#[test]
fn relative_path_above_a_parent() {
    assert_eq!(rel("addons", "addons/a"), "..");
    assert_eq!(rel("addons", "addons/a/b"), "../..");
}

#[test]
fn relative_path_without_common_ancestor() {
    assert_eq!(rel("x.gd", "addons/a"), "../../x.gd");
}

#[test]
fn relative_path_respects_component_boundaries() {
    assert_eq!(rel("addons/ab/x.gd", "addons/a"), "../ab/x.gd");
}

#[test]
fn relative_path_with_trailing_separator_on_directory() {
    assert_eq!(rel("addons/a/x.gd", "addons/a/"), "x.gd");
    assert_eq!(rel("addons/b/y.gd", "addons/a/"), "../b/y.gd");
}
