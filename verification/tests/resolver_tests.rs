//! Module path resolution against a fixed set of existing files.

use renlang::resolver::{resolve_module, unresolved_module_path};

fn files(paths: &[&str]) -> Vec<String> {
    paths.iter().map(|p| p.to_string()).collect()
}

#[test]
fn relative_import_with_extension_added() {
    let fs = files(&["/r/a.ren", "/r/b.ren"]);
    let r = resolve_module(&"/r/a.ren".to_string(), &"./b".to_string(), &fs);
    assert_eq!(r, Some("/r/b.ren".to_string()));
}

#[test]
fn relative_import_literal_path_wins() {
    // the literal path is checked before the extension form
    let fs = files(&["/r/b", "/r/b.ren"]);
    let r = resolve_module(&"/r/a.ren".to_string(), &"./b".to_string(), &fs);
    assert_eq!(r, Some("/r/b".to_string()));
}

#[test]
fn relative_import_directory_index_form() {
    let fs = files(&["/r/b/index.ren"]);
    let r = resolve_module(&"/r/a.ren".to_string(), &"./b".to_string(), &fs);
    assert_eq!(r, Some("/r/b/index.ren".to_string()));
}

#[test]
fn relative_import_missing() {
    let fs = files(&["/r/a.ren"]);
    let r = resolve_module(&"/r/a.ren".to_string(), &"./b".to_string(), &fs);
    assert_eq!(r, None);
}

#[test]
fn package_import_in_module_directory() {
    let fs = files(&["/r/packages/lib.ren"]);
    let r = resolve_module(&"/r/a.ren".to_string(), &"lib".to_string(), &fs);
    assert_eq!(r, Some("/r/packages/lib.ren".to_string()));
}

#[test]
fn package_import_walks_ancestor_directories() {
    let fs = files(&["/packages/lib.ren"]);
    let r = resolve_module(&"/r/sub/a.ren".to_string(), &"lib".to_string(), &fs);
    assert_eq!(r, Some("/packages/lib.ren".to_string()));
}

#[test]
fn package_import_prefers_nearest_ancestor() {
    let fs = files(&["/r/packages/lib.ren", "/packages/lib.ren"]);
    let r = resolve_module(&"/r/a.ren".to_string(), &"lib".to_string(), &fs);
    assert_eq!(r, Some("/r/packages/lib.ren".to_string()));
}

#[test]
fn package_import_missing() {
    let fs = files(&["/r/a.ren"]);
    let r = resolve_module(&"/r/a.ren".to_string(), &"lib".to_string(), &fs);
    assert_eq!(r, None);
}

#[test]
fn unresolved_path_of_relative_import() {
    let r = unresolved_module_path(&"/r/a.ren".to_string(), &"./b".to_string());
    assert_eq!(r, "/r/b".to_string());
}

#[test]
fn unresolved_path_of_package_import_is_the_string_itself() {
    let r = unresolved_module_path(&"/r/a.ren".to_string(), &"b".to_string());
    assert_eq!(r, "b".to_string());
}
