use thunk_links::hierarchy::SourcemapNode;
use thunk_links::normalizer::{file_paths_of, mutate_sourcemap};

fn node(name: &str, files: &[&str], children: Vec<SourcemapNode>) -> SourcemapNode {
    SourcemapNode {
        name: name.to_string(),
        class_name: format!("{}Class", name),
        file_paths: files.iter().map(|f| f.to_string()).collect(),
        children,
    }
}

fn words(list: &[&str]) -> Vec<String> {
    list.iter().map(|w| w.to_string()).collect()
}

fn tree() -> SourcemapNode {
    node(
        "root",
        &["default.project.json"],
        vec![
            node("A", &["src/A.meta.json", "src/A.lua"], vec![node("B", &["src/A/B.lua"], vec![])]),
            node("Empty", &[], vec![]),
            node("C", &["src/C.luau"], vec![]),
        ],
    )
}

#[test]
fn paths_are_listed_parents_first() {
    assert_eq!(
        file_paths_of(&tree()),
        words(&["default.project.json", "src/A.meta.json", "src/A.lua", "src/A/B.lua", "src/C.luau"])
    );
    assert_eq!(file_paths_of(&node("lonely", &[], vec![])), words(&[]));
}

#[test]
fn canonical_paths_replace_the_stored_ones() {
    let mut root = tree();
    let canonical =
        words(&["/p/default.project.json", "/p/src/A.meta.json", "/p/src/A.lua", "/p/src/A/B.lua", "/p/src/C.luau"]);
    assert!(mutate_sourcemap(&mut root, &canonical));
    assert_eq!(file_paths_of(&root), canonical);
    assert_eq!(root.file_paths, words(&["/p/default.project.json"]));
    assert_eq!(root.children[0].file_paths, words(&["/p/src/A.meta.json", "/p/src/A.lua"]));
    assert_eq!(root.children[0].children[0].file_paths, words(&["/p/src/A/B.lua"]));
    assert_eq!(root.children[1].file_paths, words(&[]));
    assert_eq!(root.children[2].file_paths, words(&["/p/src/C.luau"]));
}

#[test]
fn the_tree_keeps_names_and_order() {
    let mut root = tree();
    let canonical = words(&["1", "2", "3", "4", "5"]);
    assert!(mutate_sourcemap(&mut root, &canonical));
    assert_eq!(root.name, "root");
    assert_eq!(root.class_name, "rootClass");
    let names: Vec<&str> = root.children.iter().map(|c| c.name.as_str()).collect();
    assert_eq!(names, vec!["A", "Empty", "C"]);
    assert_eq!(root.children[0].class_name, "AClass");
    assert_eq!(root.children[0].children[0].name, "B");
    assert_eq!(root.children[0].children.len(), 1);
}

#[test]
fn a_list_of_another_length_changes_nothing() {
    let mut root = tree();
    assert!(!mutate_sourcemap(&mut root, &words(&["1", "2", "3", "4"])));
    assert_eq!(file_paths_of(&root), file_paths_of(&tree()));
    assert!(!mutate_sourcemap(&mut root, &words(&["1", "2", "3", "4", "5", "6"])));
    assert_eq!(file_paths_of(&root), file_paths_of(&tree()));
    assert!(!mutate_sourcemap(&mut root, &words(&[])));
    assert_eq!(file_paths_of(&root), file_paths_of(&tree()));
}

#[test]
fn a_tree_without_paths_takes_the_empty_list() {
    let mut root = node("root", &[], vec![node("A", &[], vec![])]);
    assert!(mutate_sourcemap(&mut root, &words(&[])));
    assert!(!mutate_sourcemap(&mut root, &words(&["x"])));
    assert_eq!(root.children[0].name, "A");
}
