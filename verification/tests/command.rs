use thunk_links::command::{find_required, is_index_directory, mutate_thunk, rewritten, Command};
use thunk_links::hierarchy::SourcemapNode;
use thunk_links::link_mutator::{LinkError, MutateLinkResult};
use thunk_links::resolver::ResolveError;

fn node(name: &str, files: &[&str], children: Vec<SourcemapNode>) -> SourcemapNode {
    SourcemapNode {
        name: name.to_string(),
        class_name: "ModuleScript".to_string(),
        file_paths: files.iter().map(|f| f.to_string()).collect(),
        children,
    }
}

fn words(list: &[&str]) -> Vec<String> {
    list.iter().map(|w| w.to_string()).collect()
}

fn project() -> SourcemapNode {
    node(
        "root",
        &[],
        vec![
            node("Foo", &["/pkg/Foo.lua"], vec![]),
            node(
                "A",
                &["/proj/A.lua"],
                vec![node("B", &["/proj/A/B.lua"], vec![]), node("C", &["/proj/A/C.lua"], vec![])],
            ),
            node(
                "_Index",
                &[],
                vec![node("pkg-1.0.0", &["/pkg/_Index/pkg-1.0.0/init.lua"], vec![])],
            ),
        ],
    )
}

const MODULE: &str = "return {}\n";

#[test]
fn command_holds_its_two_paths() {
    let command = Command {
        sourcemap: "sourcemap.json".to_string(),
        packages_folder: "Packages".to_string(),
    };
    assert_eq!(command.sourcemap, "sourcemap.json");
    assert_eq!(command.packages_folder, "Packages");
}

#[test]
fn index_directory_by_name() {
    assert!(is_index_directory(&"_Index".to_string()));
    assert!(!is_index_directory(&"_index".to_string()));
    assert!(!is_index_directory(&"Index".to_string()));
    assert!(!is_index_directory(&"_Index.lua".to_string()));
    assert!(!is_index_directory(&"".to_string()));
}

#[test]
fn thunk_resolves_to_its_module() {
    let root = project();
    let found =
        find_required(&"/pkg/Foo.lua".to_string(), &root, "return require(script.Parent.A.B)\n")
            .ok()
            .unwrap()
            .unwrap();
    assert_eq!(found.file, "/proj/A/B.lua");
    assert_eq!(found.link, words(&["script", "Parent", "A", "B"]));
}

#[test]
fn thunk_with_current_link_is_left_alone() {
    let root = project();
    let source = "return require(script.Parent.A.B)\n";
    let found = find_required(&"/pkg/Foo.lua".to_string(), &root, source).ok().unwrap().unwrap();
    assert_eq!(mutate_thunk(source, &found.link, MODULE), Ok(None));
}

#[test]
fn thunk_with_stale_link_is_rewritten_once() {
    let root = project();
    let path = "/pkg/Foo.lua".to_string();
    let source = "return require(script.Parent.A.C.Parent.B)\n";
    let found = find_required(&path, &root, source).ok().unwrap().unwrap();
    assert_eq!(found.file, "/proj/A/B.lua");
    let text = mutate_thunk(source, &found.link, MODULE).unwrap().unwrap();
    assert_eq!(text, "return require(script.Parent.A.B)\n");
    let again = find_required(&path, &root, &text).ok().unwrap().unwrap();
    assert_eq!(again.file, "/proj/A/B.lua");
    assert_eq!(again.link, found.link);
    assert_eq!(mutate_thunk(&text, &again.link, MODULE), Ok(None));
}

#[test]
fn thunk_in_the_index_resolves_like_any_other() {
    let root = project();
    let path = "/pkg/_Index/pkg-1.0.0/init.lua".to_string();
    let source = "return require(script.Parent.Parent.A)\n";
    let found = find_required(&path, &root, source).ok().unwrap().unwrap();
    assert_eq!(found.file, "/proj/A.lua");
    assert_eq!(found.link, words(&["script", "Parent", "Parent", "A"]));
    assert_eq!(mutate_thunk(source, &found.link, MODULE), Ok(None));
}

#[test]
fn link_that_cannot_be_analysed_is_skipped() {
    let root = project();
    let path = "/pkg/Foo.lua".to_string();
    assert!(find_required(&path, &root, "return require(script.Parent[name])\n").ok().unwrap().is_none());
    assert!(find_required(&path, &root, "return require(script.Parent:Find(\"A\"))\n")
        .ok()
        .unwrap()
        .is_none());
    assert!(find_required(&path, &root, "return 5\n").ok().unwrap().is_none());
}

#[test]
fn broken_thunks_are_errors() {
    let root = project();
    let path = "/pkg/Foo.lua".to_string();
    assert_eq!(find_required(&path, &root, "return require(").err(), Some(LinkError::Syntax));
    assert_eq!(
        find_required(&path, &root, "local x = 1\nreturn require(script.Parent.A)\n").err(),
        Some(LinkError::NotAThunk)
    );
    assert_eq!(find_required(&path, &root, "print(1)\n").err(), Some(LinkError::NotAThunk));
    assert_eq!(find_required(&path, &root, "").err(), Some(LinkError::NotAThunk));
}

#[test]
fn broken_references_are_errors() {
    let root = project();
    let path = "/pkg/Foo.lua".to_string();
    assert_eq!(
        find_required(&path, &root, "return require(script.Parent.Parent.A)\n").err(),
        Some(LinkError::Resolve(ResolveError::NoParent))
    );
    assert_eq!(
        find_required(&path, &root, "return require(script.Parent.Gone)\n").err(),
        Some(LinkError::Resolve(ResolveError::NoChild))
    );
    assert_eq!(
        find_required(&path, &root, "return require(script.Parent._Index)\n").err(),
        Some(LinkError::Resolve(ResolveError::NoModuleFile))
    );
    assert_eq!(
        find_required(&"/pkg/Else.lua".to_string(), &root, "return require(script.Parent.A)\n").err(),
        Some(LinkError::Resolve(ResolveError::NotInHierarchy))
    );
}

#[test]
fn mutate_thunk_reports_errors() {
    let link = words(&["script", "Parent", "A"]);
    assert_eq!(mutate_thunk("return require(", &link, MODULE), Err(LinkError::Syntax));
    assert_eq!(mutate_thunk("return 1, 2\n", &link, MODULE), Err(LinkError::NotAThunk));
    assert_eq!(
        mutate_thunk("return require(script.Parent.B)\n", &link, "local function"),
        Err(LinkError::TargetSyntax)
    );
    assert_eq!(
        mutate_thunk("return require(script.Parent.B)\n", &words(&["script", "a\\b"]), MODULE),
        Err(LinkError::Unrenderable)
    );
}

#[test]
fn rewritten_text_only_for_a_change() {
    assert_eq!(rewritten(&MutateLinkResult::Unchanged), None);
    let ast = full_moon::parse("return require(game.A)\n").unwrap();
    assert_eq!(
        rewritten(&MutateLinkResult::Changed(ast)),
        Some("return require(game.A)\n".to_string())
    );
}
