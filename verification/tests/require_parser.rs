use full_moon::ast::{Expression, LastStmt};
use thunk_links::link_mutator::path_of_source;
use thunk_links::require_parser::{expression_components, expression_to_components, match_require, Link};

fn words(list: &[&str]) -> Vec<String> {
    list.iter().map(|w| w.to_string()).collect()
}

fn name(text: &str) -> Link {
    Link::Name(text.to_string())
}

fn returned(source: &str) -> Expression {
    let ast = full_moon::parse(source).unwrap();
    match ast.nodes().last_stmt() {
        Some(LastStmt::Return(ret)) => ret.returns().iter().next().unwrap().clone(),
        _ => panic!("no return"),
    }
}

#[test]
fn chain_of_names_gives_components() {
    let links = vec![name("Parent"), name("A"), name("B")];
    assert_eq!(
        expression_to_components(&"script".to_string(), &links),
        Some(words(&["script", "Parent", "A", "B"]))
    );
    let links = vec![name("A")];
    assert_eq!(expression_to_components(&"game".to_string(), &links), Some(words(&["game", "A"])));
}

#[test]
fn chain_needs_an_anchor() {
    let links = vec![name("A")];
    assert_eq!(expression_to_components(&"workspace".to_string(), &links), None);
    assert_eq!(expression_to_components(&"Script".to_string(), &links), None);
    assert_eq!(expression_to_components(&"".to_string(), &links), None);
}

#[test]
fn chain_needs_a_link() {
    assert_eq!(expression_to_components(&"script".to_string(), &vec![]), None);
    assert_eq!(expression_to_components(&"game".to_string(), &vec![]), None);
}

#[test]
fn computed_index_is_not_applicable() {
    let links = vec![name("Parent"), Link::Computed, name("B")];
    assert_eq!(expression_to_components(&"script".to_string(), &links), None);
    let links = vec![Link::Computed];
    assert_eq!(expression_to_components(&"game".to_string(), &links), None);
}

#[test]
fn call_is_not_applicable() {
    let links = vec![name("Parent"), name("A"), Link::Call];
    assert_eq!(expression_to_components(&"script".to_string(), &links), None);
    let links = vec![Link::Call, name("A")];
    assert_eq!(expression_to_components(&"script".to_string(), &links), None);
}

#[test]
fn require_of_a_dotted_path() {
    let expression = returned("return require(script.Parent.A.B)");
    assert_eq!(match_require(&expression), Some(words(&["script", "Parent", "A", "B"])));
    let expression = returned("return require(game.ReplicatedStorage.Packages)");
    assert_eq!(
        match_require(&expression),
        Some(words(&["game", "ReplicatedStorage", "Packages"]))
    );
}

#[test]
fn require_with_quoted_names() {
    let expression =
        returned("return require(script.Parent._Index[\"evaera_promise@4.0.0\"][\"promise\"])");
    assert_eq!(
        match_require(&expression),
        Some(words(&["script", "Parent", "_Index", "evaera_promise@4.0.0", "promise"]))
    );
    let expression = returned("return require(script.Parent['my pkg'])");
    assert_eq!(match_require(&expression), Some(words(&["script", "Parent", "my pkg"])));
}

#[test]
fn require_ignores_layout_and_comments() {
    let expression = returned("return require( script . Parent --[[ up ]] . A )\n");
    assert_eq!(match_require(&expression), Some(words(&["script", "Parent", "A"])));
}

#[test]
fn require_with_computed_index() {
    assert_eq!(match_require(&returned("return require(script.Parent[name])")), None);
    assert_eq!(match_require(&returned("return require(script.Parent[1])")), None);
    assert_eq!(match_require(&returned("return require(script.Parent[\"a\" .. \"b\"])")), None);
    assert_eq!(match_require(&returned("return require(script.Parent[\"a\\\\b\"])")), None);
}

#[test]
fn require_with_call_in_the_path() {
    assert_eq!(match_require(&returned("return require(script.Parent:FindFirstChild(\"A\"))")), None);
    assert_eq!(match_require(&returned("return require(script.Parent.get().A)")), None);
    assert_eq!(match_require(&returned("return require(getModule())")), None);
}

#[test]
fn require_of_other_roots() {
    assert_eq!(match_require(&returned("return require(workspace.A)")), None);
    assert_eq!(match_require(&returned("return require((script).Parent.A)")), None);
    assert_eq!(match_require(&returned("return require(script)")), None);
    assert_eq!(match_require(&returned("return require(\"module\")")), None);
    assert_eq!(match_require(&returned("return require(12)")), None);
}

#[test]
fn only_a_plain_require_call_matches() {
    assert_eq!(match_require(&returned("return import(script.Parent.A)")), None);
    assert_eq!(match_require(&returned("return script.Parent.A")), None);
    assert_eq!(match_require(&returned("return require(script.Parent.A)()")), None);
    assert_eq!(match_require(&returned("return require(script.Parent.A).B")), None);
    assert_eq!(match_require(&returned("return require(script.Parent.A, 1)")), None);
    assert_eq!(match_require(&returned("return require()")), None);
    assert_eq!(match_require(&returned("return require \"script.Parent.A\"")), None);
    assert_eq!(match_require(&returned("return (require(script.Parent.A))")), None);
    assert_eq!(match_require(&returned("return 1 + 2")), None);
}

#[test]
fn components_of_a_bare_path() {
    assert_eq!(
        expression_components(&returned("return script.Parent.A")),
        Some(words(&["script", "Parent", "A"]))
    );
    assert_eq!(expression_components(&returned("return script")), None);
    assert_eq!(expression_components(&returned("return script.Parent()")), None);
    assert_eq!(expression_components(&returned("return other.Parent")), None);
}

#[test]
fn path_of_a_thunk_source() {
    assert_eq!(
        path_of_source("return require(script.Parent.A.B)\n"),
        Some(words(&["script", "Parent", "A", "B"]))
    );
    assert_eq!(
        path_of_source("-- generated\nreturn require(game.Packages.Lib);\n"),
        Some(words(&["game", "Packages", "Lib"]))
    );
}

#[test]
fn path_of_what_is_no_thunk() {
    assert_eq!(path_of_source("return require(script.Parent.A.B"), None);
    assert_eq!(path_of_source("local x = 1\nreturn require(script.Parent.A)\n"), None);
    assert_eq!(path_of_source("return require(script.Parent.A), 2\n"), None);
    assert_eq!(path_of_source("local x = require(script.Parent.A)\n"), None);
    assert_eq!(path_of_source("return\n"), None);
    assert_eq!(path_of_source(""), None);
}
