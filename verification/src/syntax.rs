//! The boundary to the Lua parser: the parser's types, and one small call
//! for each question that the library asks of a syntax tree.
//!
//! Nothing in this file is proved. Each function states what the parser is
//! taken to do, mostly by naming its result.

use full_moon::ast::{Ast, Expression, Prefix, Suffix};
use vstd::prelude::*;

verus! {

#[verifier::external_type_specification]
#[verifier::external_body]
pub struct ExAst(Ast);

#[verifier::external_type_specification]
#[verifier::external_body]
pub struct ExExpression(Expression);

#[verifier::external_type_specification]
#[verifier::external_body]
pub struct ExPrefix(Prefix);

#[verifier::external_type_specification]
#[verifier::external_body]
pub struct ExSuffix(Suffix);

/// What one suffix of an access chain is.
pub enum SuffixShape {
    /// `.name`, with the name.
    Dot(String),
    /// `[expression]`, with the expression.
    Bracket(Expression),
    /// `(arguments)`, with the arguments.
    Arguments(Vec<Expression>),
    /// Any other suffix: a method call, or a call without parentheses.
    Other,
}

/// The syntax tree that the parser builds from `code`, if it accepts it.
pub uninterp spec fn parse_result(code: Seq<char>) -> Option<Ast>;

/// The source text that a syntax tree prints as.
pub uninterp spec fn printed(ast: Ast) -> Seq<char>;

/// The expressions that the last statement of a tree returns, if that
/// statement is a `return`.
pub uninterp spec fn returned_of(ast: Ast) -> Option<Seq<Expression>>;

/// The number of statements of a tree that stand before its last statement.
pub uninterp spec fn statements_before(ast: Ast) -> nat;

/// The prefix and the suffixes of an expression that is an access chain.
pub uninterp spec fn chain_of(expression: Expression) -> Option<(Prefix, Seq<Suffix>)>;

/// The name that a prefix consists of, if it is a name.
pub uninterp spec fn prefix_name_of(prefix: Prefix) -> Option<Seq<char>>;

/// The shape of a suffix.
pub uninterp spec fn suffix_shape_of(suffix: Suffix) -> SuffixShape;

/// The text between the quotes of an expression that is a string literal.
pub uninterp spec fn string_literal_of(expression: Expression) -> Option<Seq<char>>;

/// The tree with the expressions of its final `return` replaced by `link`.
pub uninterp spec fn relinked(ast: Ast, link: Expression) -> Ast;

/// Calls `full_moon::parse`, which depends on the text alone. A text that
/// the parser rejects gives `None`.
#[verifier::external_body]
pub(crate) fn parse_module(code: &str) -> (ast: Option<Ast>)
    ensures
        ast == parse_result(code@),
{
    full_moon::parse(code).ok()
}

/// Prints a tree through the `Display` impl of `Ast`.
#[verifier::external_body]
pub(crate) fn print_module(ast: &Ast) -> (text: String)
    ensures
        text@ == printed(*ast),
{
    ast.to_string()
}

/// Reads `Block::last_stmt` of the tree's block: for a `return`, copies of
/// the expressions of `Return::returns`, in order.
#[verifier::external_body]
pub(crate) fn returned(ast: &Ast) -> (list: Option<Vec<Expression>>)
    ensures
        match (list, returned_of(*ast)) {
            (Some(got), Some(want)) => got@ == want,
            (None, None) => true,
            _ => false,
        },
{
    match ast.nodes().last_stmt() {
        Some(full_moon::ast::LastStmt::Return(ret)) => Some(ret.returns().iter().cloned().collect()),
        _ => None,
    }
}

/// Counts what `Block::stmts` of the tree's block yields.
#[verifier::external_body]
pub(crate) fn count_statements(ast: &Ast) -> (count: usize)
    ensures
        count == statements_before(*ast),
{
    ast.nodes().stmts().count()
}

/// Takes `Expression::FunctionCall` and `Var::Expression` apart: a copy of
/// the prefix and copies of the suffixes, in order. Every other expression
/// gives `None`.
#[verifier::external_body]
pub(crate) fn chain_parts(expression: &Expression) -> (parts: Option<(Prefix, Vec<Suffix>)>)
    ensures
        match (parts, chain_of(*expression)) {
            (Some(got), Some(want)) => got.0 == want.0 && got.1@ == want.1,
            (None, None) => true,
            _ => false,
        },
{
    match expression {
        Expression::FunctionCall(call) => Some(
            (call.prefix().clone(), call.suffixes().cloned().collect()),
        ),
        Expression::Var(full_moon::ast::Var::Expression(var)) => Some(
            (var.prefix().clone(), var.suffixes().cloned().collect()),
        ),
        _ => None,
    }
}

/// Reads the token of `Prefix::Name`, without the trivia around it.
#[verifier::external_body]
pub(crate) fn prefix_name(prefix: &Prefix) -> (name: Option<String>)
    ensures
        match (name, prefix_name_of(*prefix)) {
            (Some(got), Some(want)) => got@ == want,
            (None, None) => true,
            _ => false,
        },
{
    match prefix {
        Prefix::Name(name) => Some(name.token().to_string()),
        _ => None,
    }
}

/// Tells the variants of `Suffix`, `Index`, `Call` and `FunctionArgs` apart
/// and copies what they hold.
#[verifier::external_body]
pub(crate) fn suffix_shape(suffix: &Suffix) -> (shape: SuffixShape)
    ensures
        shape == suffix_shape_of(*suffix),
{
    match suffix {
        Suffix::Index(full_moon::ast::Index::Dot { name, .. }) => SuffixShape::Dot(name.token().to_string()),
        Suffix::Index(full_moon::ast::Index::Brackets { expression, .. }) => SuffixShape::Bracket(
            expression.as_ref().clone(),
        ),
        Suffix::Call(full_moon::ast::Call::AnonymousCall(args)) => match args.as_ref() {
            full_moon::ast::FunctionArgs::Parentheses { arguments, .. } => SuffixShape::Arguments(
                arguments.iter().cloned().collect(),
            ),
            _ => SuffixShape::Other,
        },
        _ => SuffixShape::Other,
    }
}

/// Reads the `literal` of the `StringLiteral` token of `Expression::String`:
/// the text between the quotes, escapes left as they are written.
#[verifier::external_body]
pub(crate) fn string_literal(expression: &Expression) -> (text: Option<String>)
    ensures
        match (text, string_literal_of(*expression)) {
            (Some(got), Some(want)) => got@ == want,
            (None, None) => true,
            _ => false,
        },
{
    match expression {
        Expression::String(token) => match token.token_type() {
            full_moon::tokenizer::TokenType::StringLiteral { literal, .. } => Some(literal.to_string()),
            _ => None,
        },
        _ => None,
    }
}

/// Rebuilds the tree through `Return::with_returns`, `Block::with_last_stmt`
/// and `Ast::with_nodes`, with `link` as the only returned expression. A
/// tree that does not end in a `return` is handed back as it is.
#[verifier::external_body]
pub(crate) fn relink(ast: Ast, link: Expression) -> (new: Ast)
    ensures
        new == relinked(ast, link),
{
    let block = ast.nodes().clone();
    let last = match block.last_stmt_with_semicolon() {
        Some((full_moon::ast::LastStmt::Return(ret), semicolon)) => {
            let mut list = full_moon::ast::punctuated::Punctuated::new();
            list.push(full_moon::ast::punctuated::Pair::End(link));
            Some((full_moon::ast::LastStmt::Return(ret.clone().with_returns(list)), semicolon.clone()))
        },
        other => other.cloned(),
    };
    ast.with_nodes(block.with_last_stmt(last))
}

} // verus!
