//! Reading the components of an instance path off a require expression.

use crate::resolver::{game_word, is_word, lemma_texts_push, script_word, texts};
use crate::syntax::{
    chain_of, chain_parts, prefix_name, prefix_name_of, string_literal, string_literal_of,
    suffix_shape, suffix_shape_of, SuffixShape,
};
use full_moon::ast::{Expression, Suffix};
use vstd::prelude::*;

verus! {

/// One link of an access chain: what follows the name at its root, or
/// follows another link.
pub enum Link {
    /// A literal name: `.Name`, or `["Name"]` with a plain string.
    Name(String),
    /// An index that has to be computed: `[expression]`.
    Computed,
    /// A call of any form, or anything else that is no index.
    Call,
}

/// What a link is, with the text of its name.
pub enum LinkView {
    /// A literal name.
    Name(Seq<char>),
    /// A computed index.
    Computed,
    /// A call, or anything else that is no index.
    Call,
}

impl View for Link {
    type V = LinkView;

    open spec fn view(&self) -> LinkView {
        match self {
            Link::Name(name) => LinkView::Name(name@),
            Link::Computed => LinkView::Computed,
            Link::Call => LinkView::Call,
        }
    }
}

/// The views of a list of links.
pub open spec fn link_views(links: Seq<Link>) -> Seq<LinkView> {
    Seq::new(links.len(), |i: int| links[i]@)
}

/// The word is one of the two anchors, `script` and `game`.
pub open spec fn is_anchor(word: Seq<char>) -> bool {
    word == script_word() || word == game_word()
}

/// Every link is a literal name.
pub open spec fn all_names(links: Seq<LinkView>) -> bool {
    forall|i: int| 0 <= i < links.len() ==> (#[trigger] links[i]) is Name
}

/// The names of a chain of literal names.
pub open spec fn link_names(links: Seq<LinkView>) -> Seq<Seq<char>> {
    Seq::new(
        links.len(),
        |i: int|
            match links[i] {
                LinkView::Name(name) => name,
                _ => Seq::empty(),
            },
    )
}

/// The components of the instance path that a chain spells: the anchor at
/// its root, then the names of its links. A chain that is rooted elsewhere,
/// has no link, or has a link that is no literal name spells none.
pub open spec fn path_components(root: Seq<char>, links: Seq<LinkView>) -> Option<Seq<Seq<char>>> {
    if is_anchor(root) && links.len() > 0 && all_names(links) {
        Some(seq![root] + link_names(links))
    } else {
        None
    }
}

/// An executable list of components agrees with a specified one.
pub open spec fn components_agree(got: Option<Vec<String>>, want: Option<Seq<Seq<char>>>) -> bool {
    match (got, want) {
        (Some(words), Some(seqs)) => texts(words@) == seqs,
        (None, None) => true,
        _ => false,
    }
}

/// A chain with a computed index or a call spells no instance path, and
/// neither does one that is not rooted at an anchor.
pub proof fn lemma_unsupported_shape(root: Seq<char>, links: Seq<LinkView>, at: int)
    requires
        0 <= at < links.len(),
    ensures
        links[at] is Computed || links[at] is Call ==> path_components(root, links) is None,
        !is_anchor(root) ==> path_components(root, links) is None,
{
}

/// The components that a chain spells start with an anchor, which at least
/// one component follows.
pub proof fn lemma_components_anchored(root: Seq<char>, links: Seq<LinkView>)
    requires
        path_components(root, links) is Some,
    ensures
        path_components(root, links).unwrap().len() == links.len() + 1,
        path_components(root, links).unwrap().len() >= 2,
        is_anchor(path_components(root, links).unwrap()[0]),
{
}

fn is_anchor_word(word: &String) -> (anchor: bool)
    ensures
        anchor == is_anchor(word@),
{
    let script = String::from_str("script");
    let game = String::from_str("game");
    *word == script || *word == game
}

/// Reads the path components off an access chain that starts with the name
/// `root` and goes on with `links`.
///
/// The result is `None` for every chain that is no instance path: this is
/// how a link that cannot be analysed is told, and never an error.
pub fn expression_to_components(root: &String, links: &Vec<Link>) -> (components: Option<
    Vec<String>,
>)
    ensures
        components_agree(components, path_components(root@, link_views(links@))),
{
    if !is_anchor_word(root) || links.len() == 0 {
        return None;
    }
    let mut components: Vec<String> = Vec::new();
    let anchor = root.clone();
    components.push(anchor);
    let mut i: usize = 0;
    let ghost views = link_views(links@);
    assert(texts(components@) =~= seq![root@] + link_names(views).subrange(0, 0));
    while i < links.len()
        invariant
            0 <= i <= links@.len(),
            views == link_views(links@),
            forall|j: int| 0 <= j < i ==> (#[trigger] views[j]) is Name,
            texts(components@) == seq![root@] + link_names(views).subrange(0, i as int),
        decreases links@.len() - i,
    {
        let ghost before = components@;
        match &links[i] {
            Link::Name(name) => {
                let word = name.clone();
                proof {
                    lemma_texts_push(before, word);
                    assert(views[i as int] == links@[i as int]@);
                    assert(link_names(views)[i as int] == word@);
                    assert((seq![root@] + link_names(views).subrange(0, i as int)).push(word@)
                        =~= seq![root@] + link_names(views).subrange(0, i + 1));
                }
                components.push(word);
            },
            _ => {
                assert(!(views[i as int] is Name));
                return None;
            },
        }
        i += 1;
    }
    assert(link_names(views).subrange(0, i as int) == link_names(views));
    Some(components)
}


/// The name that is called to require a module.
pub open spec fn require_word() -> Seq<char> {
    "require"@
}

/// The text of a string literal is a name as it stands: it holds no escape
/// and no line break.
pub open spec fn plain_text(text: Seq<char>) -> bool {
    forall|i: int| 0 <= i < text.len() ==> text[i] != '\\' && text[i] != '\n' && text[i] != '\r'
}

/// The link that a suffix of a given shape is: a dot with its name and a
/// bracket around a plain string literal are literal names, any other
/// bracket is a computed index.
pub open spec fn link_of(shape: SuffixShape) -> LinkView {
    match shape {
        SuffixShape::Dot(name) => LinkView::Name(name@),
        SuffixShape::Bracket(index) => match string_literal_of(index) {
            Some(text) => if plain_text(text) {
                LinkView::Name(text)
            } else {
                LinkView::Computed
            },
            None => LinkView::Computed,
        },
        SuffixShape::Arguments(_) => LinkView::Call,
        SuffixShape::Other => LinkView::Call,
    }
}

/// The links that the suffixes of a chain are.
pub open spec fn links_of(suffixes: Seq<Suffix>) -> Seq<LinkView> {
    Seq::new(suffixes.len(), |i: int| link_of(suffix_shape_of(suffixes[i])))
}

/// The components of the instance path that an expression spells, if it is
/// a chain of literal names rooted at an anchor.
pub open spec fn spelled_path(expression: Expression) -> Option<Seq<Seq<char>>> {
    match chain_of(expression) {
        Some(parts) => match prefix_name_of(parts.0) {
            Some(root) => path_components(root, links_of(parts.1)),
            None => None,
        },
        None => None,
    }
}

/// The one argument of an expression that calls `require` with one argument
/// in parentheses, and does nothing else.
pub open spec fn require_argument(expression: Expression) -> Option<Expression> {
    match chain_of(expression) {
        Some(parts) => if prefix_name_of(parts.0) == Some(require_word()) && parts.1.len() == 1 {
            match suffix_shape_of(parts.1[0]) {
                SuffixShape::Arguments(arguments) => if arguments@.len() == 1 {
                    Some(arguments@[0])
                } else {
                    None
                },
                _ => None,
            }
        } else {
            None
        },
        None => None,
    }
}

/// The components of the instance path that an expression requires.
pub open spec fn required_path(expression: Expression) -> Option<Seq<Seq<char>>> {
    match require_argument(expression) {
        Some(argument) => spelled_path(argument),
        None => None,
    }
}

fn is_plain(text: &String) -> (plain: bool)
    ensures
        plain == plain_text(text@),
{
    let slice = text.as_str();
    let len = slice.unicode_len();
    let mut i: usize = 0;
    while i < len
        invariant
            0 <= i <= len,
            len == slice@.len(),
            slice@ == text@,
            forall|j: int| 0 <= j < i ==> text@[j] != '\\' && text@[j] != '\n' && text@[j] != '\r',
        decreases len - i,
    {
        let c = slice.get_char(i);
        if c == '\\' || c == '\n' || c == '\r' {
            return false;
        }
        i += 1;
    }
    true
}

fn lower(suffix: &Suffix) -> (link: Link)
    ensures
        link@ == link_of(suffix_shape_of(*suffix)),
{
    match suffix_shape(suffix) {
        SuffixShape::Dot(name) => Link::Name(name),
        SuffixShape::Bracket(index) => match string_literal(&index) {
            Some(text) => if is_plain(&text) {
                Link::Name(text)
            } else {
                Link::Computed
            },
            None => Link::Computed,
        },
        SuffixShape::Arguments(_) => Link::Call,
        SuffixShape::Other => Link::Call,
    }
}

/// Reads the path components off an expression such as
/// `script.Parent.Example`. Any expression of another shape gives `None`.
pub fn expression_components(expression: &Expression) -> (components: Option<Vec<String>>)
    ensures
        components_agree(components, spelled_path(*expression)),
{
    let (prefix, suffixes) = match chain_parts(expression) {
        Some(parts) => parts,
        None => {
            return None;
        },
    };
    let root = match prefix_name(&prefix) {
        Some(name) => name,
        None => {
            return None;
        },
    };
    let mut links: Vec<Link> = Vec::new();
    let mut i: usize = 0;
    while i < suffixes.len()
        invariant
            0 <= i <= suffixes@.len(),
            links@.len() == i,
            link_views(links@) == links_of(suffixes@).subrange(0, i as int),
        decreases suffixes@.len() - i,
    {
        let ghost before = links@;
        let link = lower(&suffixes[i]);
        links.push(link);
        proof {
            let want = links_of(suffixes@).subrange(0, i + 1);
            assert(links@ == before.push(link));
            assert forall|j: int| 0 <= j < want.len() implies link_views(links@)[j] == want[j] by {
                if j < i {
                    assert(links@[j] == before[j]);
                    assert(link_views(before)[j] == links_of(suffixes@).subrange(0, i as int)[j]);
                } else {
                    assert(links@[j] == link);
                }
            }
            assert(link_views(links@) =~= want);
        }
        i += 1;
    }
    assert(links_of(suffixes@).subrange(0, i as int) == links_of(suffixes@));
    expression_to_components(&root, &links)
}

/// Reads the path components off an expression that requires a module by
/// an instance path, such as `require(script.Parent.Example)`.
///
/// The result is `None` for every expression of another shape: a call of
/// something else, more or fewer arguments, or a path with a computed index
/// or a call in it.
pub fn match_require(expression: &Expression) -> (components: Option<Vec<String>>)
    ensures
        components_agree(components, required_path(*expression)),
{
    let (prefix, suffixes) = match chain_parts(expression) {
        Some(parts) => parts,
        None => {
            return None;
        },
    };
    let name = match prefix_name(&prefix) {
        Some(name) => name,
        None => {
            return None;
        },
    };
    if !is_word(&name, "require") || suffixes.len() != 1 {
        return None;
    }
    match suffix_shape(&suffixes[0]) {
        SuffixShape::Arguments(mut arguments) => {
            if arguments.len() != 1 {
                return None;
            }
            let argument = arguments.pop().unwrap();
            expression_components(&argument)
        },
        _ => None,
    }
}

} // verus!
