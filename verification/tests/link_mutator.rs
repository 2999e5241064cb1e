use thunk_links::resolver::ResolveError;
use thunk_links::link_mutator::{
    mutate_link, path_of_source, render_link, same_words, thunk_link, LinkError, MutateLinkResult,
};

fn words(list: &[&str]) -> Vec<String> {
    list.iter().map(|w| w.to_string()).collect()
}

fn changed(outcome: Result<MutateLinkResult, LinkError>) -> String {
    match outcome {
        Ok(MutateLinkResult::Changed(ast)) => ast.to_string(),
        Ok(MutateLinkResult::Unchanged) => panic!("unchanged"),
        Err(e) => panic!("error {:?}", e),
    }
}

fn is_unchanged(outcome: Result<MutateLinkResult, LinkError>) -> bool {
    matches!(outcome, Ok(MutateLinkResult::Unchanged))
}

fn error(outcome: Result<MutateLinkResult, LinkError>) -> Option<LinkError> {
    outcome.err()
}

const TARGET: &str = "local M = {}\nreturn M\n";

#[test]
fn render_a_dotted_path() {
    assert_eq!(
        render_link(&words(&["script", "Parent", "A", "B"])),
        Some("return require(script.Parent.A.B)\n".to_string())
    );
    assert_eq!(render_link(&words(&["game", "A"])), Some("return require(game.A)\n".to_string()));
}

#[test]
fn render_quotes_what_is_no_identifier() {
    assert_eq!(
        render_link(&words(&["script", "Parent", "_Index", "evaera_promise@4.0.0", "promise"])),
        Some("return require(script.Parent._Index[\"evaera_promise@4.0.0\"].promise)\n".to_string())
    );
    assert_eq!(
        render_link(&words(&["game", "1st", "my pkg", ""])),
        Some("return require(game[\"1st\"][\"my pkg\"][\"\"])\n".to_string())
    );
}

#[test]
fn render_quotes_reserved_words() {
    assert_eq!(
        render_link(&words(&["script", "end", "ending", "nil", "Nil"])),
        Some("return require(script[\"end\"].ending[\"nil\"].Nil)\n".to_string())
    );
    assert_eq!(
        render_link(&words(&["game", "and", "while", "return", "function"])),
        Some("return require(game[\"and\"][\"while\"][\"return\"][\"function\"])\n".to_string())
    );
}

#[test]
fn render_needs_anchor_and_steps() {
    assert_eq!(render_link(&words(&[])), None);
    assert_eq!(render_link(&words(&["script"])), None);
    assert_eq!(render_link(&words(&["workspace", "A"])), None);
    assert_eq!(render_link(&words(&["Parent", "A"])), None);
}

#[test]
fn render_refuses_names_it_cannot_quote() {
    assert_eq!(render_link(&words(&["script", "a\"b"])), None);
    assert_eq!(render_link(&words(&["script", "a\\b"])), None);
    assert_eq!(render_link(&words(&["script", "a\nb"])), None);
    assert_eq!(render_link(&words(&["script", "A", "a\rb", "B"])), None);
}

#[test]
fn rendered_links_read_back() {
    let link = words(&["script", "Parent", "_Index", "pkg@1.0.0", "end", "x y", "Z9"]);
    let source = render_link(&link).unwrap();
    assert_eq!(path_of_source(&source), Some(link));
}

#[test]
fn same_words_compares_every_word() {
    assert!(same_words(&words(&["a", "b"]), &words(&["a", "b"])));
    assert!(same_words(&words(&[]), &words(&[])));
    assert!(!same_words(&words(&["a", "b"]), &words(&["a"])));
    assert!(!same_words(&words(&["a", "b"]), &words(&["a", "c"])));
    assert!(!same_words(&words(&["a"]), &words(&["A"])));
}

#[test]
fn thunk_link_wants_one_returned_expression() {
    let ast = full_moon::parse("return require(script.Parent.A)\n").unwrap();
    assert_eq!(thunk_link(&ast).unwrap().to_string(), "require(script.Parent.A)\n");
    let ast = full_moon::parse("return 1, 2\n").unwrap();
    assert!(thunk_link(&ast).is_none());
    let ast = full_moon::parse("local a = 1\nreturn a\n").unwrap();
    assert!(thunk_link(&ast).is_none());
    let ast = full_moon::parse("print(1)\n").unwrap();
    assert!(thunk_link(&ast).is_none());
    let ast = full_moon::parse("while true do break end\n").unwrap();
    assert!(thunk_link(&ast).is_none());
}

#[test]
fn a_thunk_with_its_link_is_unchanged() {
    let ast = full_moon::parse("return require(script.Parent.A.B)\n").unwrap();
    assert!(is_unchanged(mutate_link(ast, &words(&["script", "Parent", "A", "B"]), TARGET)));
}

#[test]
fn layout_never_causes_a_rewrite() {
    let ast = full_moon::parse("-- link\nreturn  require( script.Parent[\"A\"] . B ) -- done\n").unwrap();
    assert!(is_unchanged(mutate_link(ast, &words(&["script", "Parent", "A", "B"]), TARGET)));
}

#[test]
fn a_stale_link_is_rewritten() {
    let ast = full_moon::parse("return require(script.Parent.A.C.Parent.B)\n").unwrap();
    let text = changed(mutate_link(ast, &words(&["script", "Parent", "A", "B"]), TARGET));
    assert_eq!(text, "return require(script.Parent.A.B)\n");
}

#[test]
fn only_the_returned_expression_is_replaced() {
    let source = "-- generated by the package manager\nreturn require(script.Parent.Old);\n-- end\n";
    let ast = full_moon::parse(source).unwrap();
    let text = changed(mutate_link(ast, &words(&["script", "Parent", "New"]), TARGET));
    assert_eq!(
        text,
        "-- generated by the package manager\nreturn require(script.Parent.New)\n;\n-- end\n"
    );
}

#[test]
fn a_link_that_cannot_be_read_is_replaced() {
    let ast = full_moon::parse("return require(script.Parent[name])\n").unwrap();
    let text = changed(mutate_link(ast, &words(&["game", "A"]), TARGET));
    assert_eq!(text, "return require(game.A)\n");
}

#[test]
fn a_rewritten_thunk_is_unchanged_afterwards() {
    let link = words(&["script", "Parent", "_Index", "pkg@1.0.0", "pkg"]);
    let ast = full_moon::parse("return require(script.Parent.pkg)\n").unwrap();
    let text = changed(mutate_link(ast, &link, TARGET));
    assert_eq!(text, "return require(script.Parent._Index[\"pkg@1.0.0\"].pkg)\n");
    let again = full_moon::parse(&text).unwrap();
    assert!(is_unchanged(mutate_link(again, &link, TARGET)));
}

#[test]
fn the_target_must_be_a_module() {
    let ast = full_moon::parse("return require(script.Parent.A)\n").unwrap();
    assert_eq!(
        error(mutate_link(ast, &words(&["script", "Parent", "A"]), "local = = 1")),
        Some(LinkError::TargetSyntax)
    );
    let ast = full_moon::parse("return require(script.Parent.A)\n").unwrap();
    assert_eq!(
        error(mutate_link(ast, &words(&["script", "Parent", "B"]), "return {")),
        Some(LinkError::TargetSyntax)
    );
}

#[test]
fn the_target_may_be_luau() {
    let ast = full_moon::parse("return require(script.Parent.A)\n").unwrap();
    let target = "export type T = { x: number }\nlocal M = {}\nreturn M\n";
    assert!(is_unchanged(mutate_link(ast, &words(&["script", "Parent", "A"]), target)));
}

#[test]
fn what_is_no_thunk_is_refused() {
    let ast = full_moon::parse("local a = 1\nreturn require(script.Parent.A)\n").unwrap();
    assert_eq!(
        error(mutate_link(ast, &words(&["script", "Parent", "A"]), TARGET)),
        Some(LinkError::NotAThunk)
    );
    let ast = full_moon::parse("return require(script.Parent.A), 1\n").unwrap();
    assert_eq!(
        error(mutate_link(ast, &words(&["script", "Parent", "A"]), TARGET)),
        Some(LinkError::NotAThunk)
    );
}

#[test]
fn a_link_that_cannot_be_written_is_refused() {
    let ast = full_moon::parse("return require(script.Parent.A)\n").unwrap();
    assert_eq!(
        error(mutate_link(ast, &words(&["script", "Parent", "a\"b"]), TARGET)),
        Some(LinkError::Unrenderable)
    );
    let ast = full_moon::parse("return require(script.Parent.A)\n").unwrap();
    assert_eq!(error(mutate_link(ast, &words(&["script"]), TARGET)), Some(LinkError::Unrenderable));
    let ast = full_moon::parse("return require(script.Parent.A)\n").unwrap();
    assert_eq!(
        error(mutate_link(ast, &words(&["workspace", "A"]), TARGET)),
        Some(LinkError::Unrenderable)
    );
}

#[test]
fn errors_have_messages() {
    assert_eq!(LinkError::Syntax.message(), "thunk is not valid Lua");
    assert_eq!(LinkError::NotAThunk.message(), "thunk is not a single return of one expression");
    assert_eq!(LinkError::TargetSyntax.message(), "required module is not valid Lua");
    assert_eq!(LinkError::Unrenderable.message(), "link cannot be written as a require expression");
    assert_eq!(LinkError::Resolve(ResolveError::NoParent).message(), "no parent available");
    assert_eq!(ResolveError::NoAnchor.message(), "path does not start with script or game");
    assert_eq!(ResolveError::NotInHierarchy.message(), "could not find node path");
    assert_eq!(ResolveError::NoChild.message(), "unable to find child");
    assert_eq!(ResolveError::NoModuleFile.message(), "no file path for require");
}
