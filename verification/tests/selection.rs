use coldpath::selection::{Selection, SelectionError, select};

fn owned(paths: &[&str]) -> Vec<String> {
    paths.iter().map(|p| p.to_string()).collect()
}

fn selected(paths: &[&str], root: Option<&str>) -> Selection {
    select(&owned(paths), root).expect("selection succeeds")
}

#[test]
fn selection_pairs_a_map_by_name() {
    let sel = selected(&["/p/dist/a.js", "/p/dist/b.mjs", "/p/dist/a.js.map"], None);
    assert_eq!(sel.root, "/p/dist");
    assert_eq!(sel.files, vec!["a.js".to_string(), "b.mjs".to_string()]);
    assert_eq!(sel.maps, vec![("a.js".to_string(), "/p/dist/a.js.map".to_string())]);
}

#[test]
fn selection_infers_the_shared_directory() {
    let sel = selected(&["/p/app/x.js", "/p/lib/deep/y.cjs"], None);
    assert_eq!(sel.root, "/p");
    assert_eq!(sel.files, vec!["app/x.js".to_string(), "lib/deep/y.cjs".to_string()]);
    assert!(sel.maps.is_empty());
}

#[test]
fn selection_keeps_a_given_root() {
    let sel = selected(&["/p/app/x.js"], Some("/p"));
    assert_eq!(sel.root, "/p");
    assert_eq!(sel.files, vec!["app/x.js".to_string()]);
}

#[test]
fn selection_pairs_the_only_map_with_the_only_script() {
    let sel = selected(&["/p/a.js", "/p/other.map"], None);
    assert_eq!(sel.maps, vec![("a.js".to_string(), "/p/other.map".to_string())]);
}

#[test]
fn selection_refuses_other_files() {
    assert_eq!(
        select(&owned(&["/p/a.js", "/p/notes.txt", "/p/b.css"]), None).unwrap_err(),
        SelectionError::Unsupported("/p/notes.txt".to_string())
    );
}

#[test]
fn selection_needs_a_script() {
    assert_eq!(select(&owned(&["/p/a.js.map"]), None).unwrap_err(), SelectionError::NoScripts);
}

#[test]
fn selection_refuses_scripts_outside_the_root() {
    assert_eq!(
        select(&owned(&["/p/a.js", "/q/b.js"]), Some("/p")).unwrap_err(),
        SelectionError::OutsideRoot("/q/b.js".to_string())
    );
}

#[test]
fn selection_refuses_an_unnamed_map_among_several_scripts() {
    assert_eq!(
        select(&owned(&["/p/a.js", "/p/b.js", "/p/c.map"]), None).unwrap_err(),
        SelectionError::CannotPair("/p/c.map".to_string())
    );
}

#[test]
fn selection_refuses_two_maps_for_one_script() {
    assert_eq!(
        select(&owned(&["/p/a.js", "/p/a.js.map", "/p/a.js.map"]), None).unwrap_err(),
        SelectionError::MultipleMaps("/p/a.js".to_string())
    );
}
