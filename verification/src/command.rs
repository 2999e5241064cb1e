//! One pass over a thunk: from its source text to the module it requires,
//! and from there to its new source text.
//!
//! Reading and writing files is the caller's part. The caller reads a thunk
//! and asks `find_required` what it requires, reads that module, asks
//! `mutate_thunk` for the new text, and writes it if there is one.

use crate::hierarchy::SourcemapNode;
use crate::link_mutator::{
    mutate_link, mutation, source_path, thunk_expression, thunk_link, LinkError, MutateLinkResult,
};
use crate::navigation::{
    lemma_shortest_reaches, requirement, requires_module, resolve_link, shortest, well_formed,
    Requirement,
};
use crate::require_parser::{match_require, required_path};
use crate::resolver::{is_word, lemma_walk_valid, starts_at, texts, valid_chain, walk, ResolveError};
use crate::syntax::{parse_module, parse_result, print_module, printed};
use vstd::prelude::*;

verus! {

/// What a run works on.
pub struct Command {
    /// Path to the sourcemap, the description of the hierarchy.
    pub sourcemap: String,
    /// Path to the directory that holds the thunks.
    pub packages_folder: String,
}

/// The name of the directory whose subdirectories are packages.
pub open spec fn index_word() -> Seq<char> {
    "_Index"@
}

/// Whether an entry of the packages directory is the directory of nested
/// packages, going by its file name. Every other entry is itself a thunk.
pub fn is_index_directory(file_name: &String) -> (index: bool)
    ensures
        index == (file_name@ == index_word()),
{
    is_word(file_name, "_Index")
}

/// What `find_required` may return for the thunk `source` at `path`.
///
/// A text that is no Lua source is an error, and so is one that is no
/// thunk. A thunk whose link cannot be analysed requires nothing that could
/// be mended: `Ok(None)`. Any other link is resolved.
pub open spec fn required_by(
    root: &SourcemapNode,
    path: Seq<char>,
    source: Seq<char>,
    found: Result<Option<Requirement>, LinkError>,
) -> bool {
    match parse_result(source) {
        None => found matches Err(LinkError::Syntax),
        Some(ast) => match thunk_expression(ast) {
            None => found matches Err(LinkError::NotAThunk),
            Some(expression) => match required_path(expression) {
                None => found matches Ok(None),
                Some(components) => match found {
                    Ok(Some(module)) => requires_module(root, path, components, Ok(module)),
                    Err(LinkError::Resolve(e)) => requires_module(root, path, components, Err(e)),
                    _ => false,
                },
            },
        },
    }
}

/// Finds the module that the thunk `source` requires. `path` is the
/// canonical path of the thunk, which is what `script` stands for.
pub fn find_required(path: &String, root: &SourcemapNode, source: &str) -> (found: Result<
    Option<Requirement>,
    LinkError,
>)
    ensures
        required_by(root, path@, source@, found),
{
    let ast = match parse_module(source) {
        Some(ast) => ast,
        None => {
            return Err(LinkError::Syntax);
        },
    };
    let expression = match thunk_link(&ast) {
        Some(expression) => expression,
        None => {
            return Err(LinkError::NotAThunk);
        },
    };
    let components = match match_require(&expression) {
        Some(components) => components,
        None => {
            return Ok(None);
        },
    };
    match resolve_link(path, root, &components) {
        Ok(module) => Ok(Some(module)),
        Err(e) => Err(LinkError::Resolve(e)),
    }
}

/// The new text of the thunk `source`, if it has to change to require the
/// path `link`.
pub open spec fn new_source(source: Seq<char>, link: Seq<Seq<char>>, contents: Seq<char>) -> Result<
    Option<Seq<char>>,
    LinkError,
> {
    match parse_result(source) {
        None => Err(LinkError::Syntax),
        Some(ast) => match mutation(ast, link, contents) {
            Err(e) => Err(e),
            Ok(None) => Ok(None),
            Ok(Some(new)) => Ok(Some(printed(new))),
        },
    }
}

/// An executable text or error agrees with a specified one.
pub open spec fn source_agrees(
    got: Result<Option<String>, LinkError>,
    want: Result<Option<Seq<char>>, LinkError>,
) -> bool {
    match (got, want) {
        (Ok(Some(text)), Ok(Some(chars))) => text@ == chars,
        (Ok(None), Ok(None)) => true,
        (Err(e), Err(f)) => e == f,
        _ => false,
    }
}

/// The text to write back for a mutated thunk: the printed tree where the
/// thunk changed, nothing where it did not, so that an unchanged thunk is
/// never written.
pub fn rewritten(outcome: &MutateLinkResult) -> (text: Option<String>)
    ensures
        match (outcome, text) {
            (MutateLinkResult::Unchanged, None) => true,
            (MutateLinkResult::Changed(new), Some(written)) => written@ == printed(*new),
            _ => false,
        },
{
    match outcome {
        MutateLinkResult::Changed(new) => Some(print_module(new)),
        MutateLinkResult::Unchanged => None,
    }
}

/// Makes the thunk `source` require the path `link`, which resolves to the
/// module with the text `pass_through_contents`.
///
/// Returns the new text of the thunk, or `None` where the thunk already
/// requires `link` and its file has to stay as it is.
pub fn mutate_thunk(source: &str, link: &Vec<String>, pass_through_contents: &str) -> (text: Result<
    Option<String>,
    LinkError,
>)
    ensures
        source_agrees(text, new_source(source@, texts(link@), pass_through_contents@)),
{
    let parsed_code = match parse_module(source) {
        Some(ast) => ast,
        None => {
            return Err(LinkError::Syntax);
        },
    };
    match mutate_link(parsed_code, link, pass_through_contents) {
        Ok(outcome) => Ok(rewritten(&outcome)),
        Err(e) => Err(e),
    }
}

/// A second pass changes nothing.
///
/// Take a thunk whose link `components` resolved, from `start`, to `file`
/// with the shortest link `link`, in a well-formed hierarchy in which the
/// steps can start nowhere else. If the first pass rewrote the thunk to
/// `rewritten`, then the second pass reads `link` off it, resolves it to
/// the same file and the same shortest link, and leaves the thunk as it is.
pub proof fn lemma_second_pass_unchanged(
    root: &SourcemapNode,
    path: Seq<char>,
    start: Seq<&SourcemapNode>,
    components: Seq<Seq<char>>,
    file: Seq<char>,
    link: Seq<Seq<char>>,
    source: Seq<char>,
    contents: Seq<char>,
    rewritten: Seq<char>,
)
    requires
        well_formed(root),
        valid_chain(root, start),
        components.len() > 0,
        starts_at(root, path, components, Ok(start)),
        forall|other: Seq<&SourcemapNode>| #[trigger]
            starts_at(root, path, components, Ok(other)) ==> other == start,
        requirement(start, components) == Ok::<(Seq<char>, Seq<Seq<char>>), ResolveError>(
            (file, link),
        ),
        new_source(source, link, contents) == Ok::<Option<Seq<char>>, LinkError>(Some(rewritten)),
    ensures
        source_path(rewritten) == Some(link),
        forall|again: Result<Seq<&SourcemapNode>, ResolveError>| #[trigger]
            starts_at(root, path, link, again) ==> again == Ok::<
                Seq<&SourcemapNode>,
                ResolveError,
            >(start),
        requirement(start, link) == Ok::<(Seq<char>, Seq<Seq<char>>), ResolveError>((file, link)),
        new_source(rewritten, link, contents) == Ok::<Option<Seq<char>>, LinkError>(None),
{
    let target = walk(start, components.skip(1)).unwrap();
    lemma_walk_valid(root, start, components.skip(1));
    lemma_shortest_reaches(root, start, target);
    assert(link == seq![components[0]] + shortest(start, target));
    assert(link[0] == components[0]);
    assert(link.skip(1) == shortest(start, target));
    assert forall|again: Result<Seq<&SourcemapNode>, ResolveError>| #[trigger]
        starts_at(root, path, link, again) implies again == Ok::<Seq<&SourcemapNode>, ResolveError>(
        start,
    ) by {
        match again {
            Ok(other) => {
                assert(starts_at(root, path, components, Ok(other)));
            },
            Err(e) => {
                assert(valid_chain(root, start));
            },
        }
    }
}

} // verus!
