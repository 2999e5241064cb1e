//! Deciding whether the link of a thunk has to be rewritten, and rewriting
//! it.

use crate::require_parser::{components_agree, is_anchor, match_require, plain_text, required_path};
use crate::resolver::{is_word, texts, ResolveError};
use crate::syntax::{
    count_statements, parse_module, parse_result, print_module, printed, relink, relinked, returned,
    returned_of, statements_before,
};
use full_moon::ast::{Ast, Expression};
use vstd::prelude::*;

verus! {

/// What became of a thunk.
pub enum MutateLinkResult {
    /// The link was rewritten: the new syntax tree of the thunk.
    Changed(Ast),
    /// The thunk holds the link it should hold, and stays as it is.
    Unchanged,
}

/// Why a thunk could not be handled.
#[derive(Clone, Copy, Debug, PartialEq, Eq, Structural)]
pub enum LinkError {
    /// The thunk is no Lua source text.
    Syntax,
    /// The thunk is more, or less, than the return of one expression.
    NotAThunk,
    /// The link of the thunk does not resolve.
    Resolve(ResolveError),
    /// The module that the link resolves to is no Lua source text.
    TargetSyntax,
    /// The link cannot be written down as an expression that reads back as
    /// the same link.
    Unrenderable,
}

impl LinkError {
    /// What `message` says of each error.
    pub open spec fn message_text(self) -> Seq<char> {
        match self {
            LinkError::Syntax => "thunk is not valid Lua"@,
            LinkError::NotAThunk => "thunk is not a single return of one expression"@,
            LinkError::Resolve(e) => e.message_text(),
            LinkError::TargetSyntax => "required module is not valid Lua"@,
            LinkError::Unrenderable => "link cannot be written as a require expression"@,
        }
    }

    /// A line that tells a user what went wrong.
    pub fn message(&self) -> (text: String)
        ensures
            text@ == self.message_text(),
    {
        match self {
            LinkError::Syntax => String::from_str("thunk is not valid Lua"),
            LinkError::NotAThunk => String::from_str("thunk is not a single return of one expression"),
            LinkError::Resolve(e) => e.message(),
            LinkError::TargetSyntax => String::from_str("required module is not valid Lua"),
            LinkError::Unrenderable => String::from_str(
                "link cannot be written as a require expression",
            ),
        }
    }
}

/// A letter of a Lua name: an ASCII letter or the underscore.
pub open spec fn is_letter(c: char) -> bool {
    ('a' as u32 <= c as u32 <= 'z' as u32) || ('A' as u32 <= c as u32 <= 'Z' as u32) || c == '_'
}

/// An ASCII digit.
pub open spec fn is_digit(c: char) -> bool {
    '0' as u32 <= c as u32 <= '9' as u32
}

/// A word that Lua reserves.
pub open spec fn is_keyword(word: Seq<char>) -> bool {
    ||| word == "and"@
    ||| word == "break"@
    ||| word == "do"@
    ||| word == "else"@
    ||| word == "elseif"@
    ||| word == "end"@
    ||| word == "false"@
    ||| word == "for"@
    ||| word == "function"@
    ||| word == "if"@
    ||| word == "in"@
    ||| word == "local"@
    ||| word == "nil"@
    ||| word == "not"@
    ||| word == "or"@
    ||| word == "repeat"@
    ||| word == "return"@
    ||| word == "then"@
    ||| word == "true"@
    ||| word == "until"@
    ||| word == "while"@
}

/// Letters, digits and underscores, the first of them no digit.
pub open spec fn is_name_shaped(word: Seq<char>) -> bool {
    &&& word.len() > 0
    &&& is_letter(word[0])
    &&& forall|i: int| 0 <= i < word.len() ==> is_letter(#[trigger] word[i]) || is_digit(word[i])
}

/// The word can stand behind a dot: it is shaped like a name and not
/// reserved.
pub open spec fn is_identifier(word: Seq<char>) -> bool {
    is_name_shaped(word) && !is_keyword(word)
}

/// The word can stand between double quotes as it is.
pub open spec fn is_quotable(word: Seq<char>) -> bool {
    plain_text(word) && forall|i: int| 0 <= i < word.len() ==> word[i] != '"'
}

/// One step of a path as source text: `.Name` where the name is an
/// identifier, `["Name"]` where it can at least be quoted.
pub open spec fn step_text(word: Seq<char>) -> Option<Seq<char>> {
    if is_identifier(word) {
        Some("."@ + word)
    } else if is_quotable(word) {
        Some("[\""@ + word + "\"]"@)
    } else {
        None
    }
}

/// The steps of a path as source text, one after the other.
pub open spec fn steps_text(words: Seq<Seq<char>>) -> Option<Seq<char>>
    decreases words.len(),
{
    if words.len() == 0 {
        Some(Seq::empty())
    } else {
        match (steps_text(words.drop_last()), step_text(words.last())) {
            (Some(front), Some(back)) => Some(front + back),
            _ => None,
        }
    }
}

/// The source text of a thunk that requires the path `components` and does
/// nothing else.
pub open spec fn link_source(components: Seq<Seq<char>>) -> Option<Seq<char>> {
    if components.len() >= 2 && is_anchor(components[0]) {
        match steps_text(components.skip(1)) {
            Some(steps) => Some("return require("@ + components[0] + steps + ")\n"@),
            None => None,
        }
    } else {
        None
    }
}

/// An executable text agrees with a specified one.
pub open spec fn text_agrees(got: Option<String>, want: Option<Seq<char>>) -> bool {
    match (got, want) {
        (Some(text), Some(chars)) => text@ == chars,
        (None, None) => true,
        _ => false,
    }
}

fn is_reserved(word: &String) -> (reserved: bool)
    ensures
        reserved == is_keyword(word@),
{
    is_word(word, "and") || is_word(word, "break") || is_word(word, "do") || is_word(word, "else")
        || is_word(word, "elseif") || is_word(word, "end") || is_word(word, "false") || is_word(
        word,
        "for",
    ) || is_word(word, "function") || is_word(word, "if") || is_word(word, "in") || is_word(
        word,
        "local",
    ) || is_word(word, "nil") || is_word(word, "not") || is_word(word, "or") || is_word(
        word,
        "repeat",
    ) || is_word(word, "return") || is_word(word, "then") || is_word(word, "true") || is_word(
        word,
        "until",
    ) || is_word(word, "while")
}

fn letter(c: char) -> (yes: bool)
    ensures
        yes == is_letter(c),
{
    let n = c as u32;
    (97 <= n && n <= 122) || (65 <= n && n <= 90) || n == 95
}

fn digit(c: char) -> (yes: bool)
    ensures
        yes == is_digit(c),
{
    let n = c as u32;
    48 <= n && n <= 57
}

fn name_shaped(word: &String) -> (yes: bool)
    ensures
        yes == is_name_shaped(word@),
{
    let slice = word.as_str();
    let len = slice.unicode_len();
    if len == 0 {
        return false;
    }
    if !letter(slice.get_char(0)) {
        return false;
    }
    let mut i: usize = 0;
    while i < len
        invariant
            0 <= i <= len,
            len == slice@.len(),
            slice@ == word@,
            forall|j: int| 0 <= j < i ==> is_letter(#[trigger] word@[j]) || is_digit(word@[j]),
        decreases len - i,
    {
        let c = slice.get_char(i);
        if !letter(c) && !digit(c) {
            return false;
        }
        i += 1;
    }
    true
}

fn quotable(word: &String) -> (yes: bool)
    ensures
        yes == is_quotable(word@),
{
    let slice = word.as_str();
    let len = slice.unicode_len();
    let mut i: usize = 0;
    while i < len
        invariant
            0 <= i <= len,
            len == slice@.len(),
            slice@ == word@,
            forall|j: int|
                0 <= j < i ==> word@[j] != '\\' && word@[j] != '\n' && word@[j] != '\r' && word@[j]
                    != '"',
        decreases len - i,
    {
        let c = slice.get_char(i);
        if c == '\\' || c == '\n' || c == '\r' || c == '"' {
            return false;
        }
        i += 1;
    }
    true
}

/// Writes the thunk that requires the path `components`, such as
/// `return require(script.Parent.Example)`.
///
/// There is none for a path without an anchor or without steps, nor for one
/// with a name that holds a double quote, a backslash or a line break.
pub fn render_link(components: &Vec<String>) -> (source: Option<String>)
    ensures
        text_agrees(source, link_source(texts(components@))),
{
    if components.len() < 2 {
        return None;
    }
    let ghost all = texts(components@);
    assert(all[0] == components@[0]@);
    if !is_word(&components[0], "script") && !is_word(&components[0], "game") {
        return None;
    }
    let ghost steps = all.skip(1);
    let mut text = String::from_str("return require(");
    text.append(components[0].as_str());
    let ghost head = "return require("@ + all[0];
    let mut i: usize = 1;
    assert(steps.subrange(0, 0) =~= Seq::empty());
    assert(text@ =~= head + Seq::empty());
    while i < components.len()
        invariant
            1 <= i <= components@.len(),
            all == texts(components@),
            steps == all.skip(1),
            steps_text(steps.subrange(0, i - 1)) matches Some(done) && text@ == head + done,
        decreases components@.len() - i,
    {
        let word = &components[i];
        let ghost done = steps_text(steps.subrange(0, i - 1)).unwrap();
        proof {
            assert(steps.subrange(0, i as int).drop_last() == steps.subrange(0, i - 1));
            assert(steps.subrange(0, i as int).last() == word@);
        }
        if name_shaped(word) && !is_reserved(word) {
            text.append(".");
            text.append(word.as_str());
            assert(text@ =~= head + (done + ("."@ + word@)));
        } else if quotable(word) {
            text.append("[\"");
            text.append(word.as_str());
            text.append("\"]");
            assert(text@ =~= head + (done + ("[\""@ + word@ + "\"]"@)));
        } else {
            proof {
                lemma_steps_text_fails(steps, i as int);
            }
            return None;
        }
        i += 1;
    }
    assert(steps.subrange(0, i - 1) == steps);
    text.append(")\n");
    assert(text@ =~= "return require("@ + all[0] + steps_text(steps).unwrap() + ")\n"@);
    Some(text)
}

/// Where the first steps of a path cannot be written, the path cannot.
pub proof fn lemma_steps_text_fails(words: Seq<Seq<char>>, upto: int)
    requires
        0 <= upto <= words.len(),
        steps_text(words.subrange(0, upto)) is None,
    ensures
        steps_text(words) is None,
    decreases words.len(),
{
    if upto < words.len() {
        let front = words.drop_last();
        assert(front.subrange(0, upto) == words.subrange(0, upto));
        lemma_steps_text_fails(front, upto);
    } else {
        assert(words.subrange(0, upto) == words);
    }
}

/// The expression that a thunk returns: the one expression of the `return`
/// that is all its tree consists of.
pub open spec fn thunk_expression(ast: Ast) -> Option<Expression> {
    match returned_of(ast) {
        Some(list) => if statements_before(ast) == 0 && list.len() == 1 {
            Some(list[0])
        } else {
            None
        },
        None => None,
    }
}

/// The path that a source text requires, if it is a thunk with a link that
/// can be analysed.
pub open spec fn source_path(source: Seq<char>) -> Option<Seq<Seq<char>>> {
    match parse_result(source) {
        Some(ast) => match thunk_expression(ast) {
            Some(expression) => required_path(expression),
            None => None,
        },
        None => None,
    }
}

/// The tree of a thunk with its link replaced by the path `link`, provided
/// that path can be written down and the new thunk, printed and parsed
/// again, requires exactly that path.
pub open spec fn replacement(ast: Ast, link: Seq<Seq<char>>) -> Option<Ast> {
    match link_source(link) {
        Some(text) => match parse_result(text) {
            Some(tree) => match thunk_expression(tree) {
                Some(expression) => if source_path(printed(relinked(ast, expression))) == Some(link) {
                    Some(relinked(ast, expression))
                } else {
                    None
                },
                None => None,
            },
            None => None,
        },
        None => None,
    }
}

/// What mutating a thunk gives: `Ok(None)` where it stays as it is,
/// `Ok(Some(tree))` where it is rewritten.
///
/// A thunk stays as it is exactly if its link already spells the path
/// `link`. Whether it does is read off the tree, never off the text, so
/// layout and comments never cause a rewrite.
pub open spec fn mutation(ast: Ast, link: Seq<Seq<char>>, contents: Seq<char>) -> Result<
    Option<Ast>,
    LinkError,
> {
    if parse_result(contents) is None {
        Err(LinkError::TargetSyntax)
    } else {
        match thunk_expression(ast) {
            None => Err(LinkError::NotAThunk),
            Some(expression) => if required_path(expression) == Some(link) {
                Ok(None)
            } else {
                match replacement(ast, link) {
                    Some(new) => Ok(Some(new)),
                    None => Err(LinkError::Unrenderable),
                }
            },
        }
    }
}

/// An executable outcome agrees with a specified one.
pub open spec fn outcome_agrees(
    got: Result<MutateLinkResult, LinkError>,
    want: Result<Option<Ast>, LinkError>,
) -> bool {
    match (got, want) {
        (Ok(MutateLinkResult::Unchanged), Ok(None)) => true,
        (Ok(MutateLinkResult::Changed(new)), Ok(Some(tree))) => new == tree,
        (Err(e), Err(f)) => e == f,
        _ => false,
    }
}

/// The expression that a thunk returns, if the tree is a thunk.
pub fn thunk_link(ast: &Ast) -> (link: Option<Expression>)
    ensures
        link == thunk_expression(*ast),
{
    match returned(ast) {
        Some(mut list) => {
            if count_statements(ast) == 0 && list.len() == 1 {
                list.pop()
            } else {
                None
            }
        },
        None => None,
    }
}

/// Whether two lists of words read the same.
pub fn same_words(left: &Vec<String>, right: &Vec<String>) -> (same: bool)
    ensures
        same == (texts(left@) == texts(right@)),
{
    if left.len() != right.len() {
        assert(texts(left@).len() != texts(right@).len());
        return false;
    }
    let mut i: usize = 0;
    while i < left.len()
        invariant
            0 <= i <= left@.len(),
            left@.len() == right@.len(),
            forall|j: int| 0 <= j < i ==> (#[trigger] left@[j])@ == right@[j]@,
        decreases left@.len() - i,
    {
        if left[i] != right[i] {
            assert(texts(left@)[i as int] != texts(right@)[i as int]);
            return false;
        }
        i += 1;
    }
    assert(texts(left@) =~= texts(right@));
    true
}

/// The path that a source text requires.
pub fn path_of_source(source: &str) -> (path: Option<Vec<String>>)
    ensures
        components_agree(path, source_path(source@)),
{
    match parse_module(source) {
        Some(ast) => match thunk_link(&ast) {
            Some(expression) => match_require(&expression),
            None => None,
        },
        None => None,
    }
}

fn replace_link(ast: Ast, link: &Vec<String>) -> (new: Option<Ast>)
    ensures
        new == replacement(ast, texts(link@)),
{
    let text = match render_link(link) {
        Some(text) => text,
        None => {
            return None;
        },
    };
    let tree = match parse_module(text.as_str()) {
        Some(tree) => tree,
        None => {
            return None;
        },
    };
    let expression = match thunk_link(&tree) {
        Some(expression) => expression,
        None => {
            return None;
        },
    };
    let new = relink(ast, expression);
    let reprinted = print_module(&new);
    match path_of_source(reprinted.as_str()) {
        Some(path) => if same_words(&path, link) {
            Some(new)
        } else {
            None
        },
        None => None,
    }
}

/// Makes the thunk `parsed_code` require the path `link`.
///
/// `pass_through_contents` is the text of the module that the link resolves
/// to; a thunk is never pointed at a text that is no Lua module. A thunk
/// whose link already spells `link` is left `Unchanged`. Any other is
/// `Changed`: only the expression of its `return` is replaced, and the new
/// thunk, printed and parsed again, requires `link`.
pub fn mutate_link(parsed_code: Ast, link: &Vec<String>, pass_through_contents: &str) -> (outcome:
    Result<MutateLinkResult, LinkError>)
    ensures
        outcome_agrees(outcome, mutation(parsed_code, texts(link@), pass_through_contents@)),
{
    if parse_module(pass_through_contents).is_none() {
        return Err(LinkError::TargetSyntax);
    }
    let expression = match thunk_link(&parsed_code) {
        Some(expression) => expression,
        None => {
            return Err(LinkError::NotAThunk);
        },
    };
    let unchanged = match match_require(&expression) {
        Some(current) => same_words(&current, link),
        None => false,
    };
    if unchanged {
        return Ok(MutateLinkResult::Unchanged);
    }
    match replace_link(parsed_code, link) {
        Some(new) => Ok(MutateLinkResult::Changed(new)),
        None => Err(LinkError::Unrenderable),
    }
}

} // verus!
