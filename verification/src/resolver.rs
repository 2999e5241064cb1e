//! Locating a file in the hierarchy and following an instance path from
//! there to the module file that the path names.

use crate::hierarchy::{is_child, SourcemapNode};
use vstd::prelude::*;

verus! {

/// The chain leads from `root` down to its last element: it starts with the
/// root, and every later element is a child of the one before it.
pub open spec fn valid_chain(root: &SourcemapNode, chain: Seq<&SourcemapNode>) -> bool {
    &&& chain.len() > 0
    &&& *chain[0] == *root
    &&& forall|i: int| 0 <= i < chain.len() - 1 ==> is_child(chain[i], #[trigger] chain[i + 1])
}

/// The number of nodes in the tree below and including `node`.
pub open spec fn tree_size(node: &SourcemapNode) -> nat
    decreases *node,
{
    1 + forest_size(node.children@)
}

/// The number of nodes in all the trees of `nodes` together.
pub open spec fn forest_size(nodes: Seq<SourcemapNode>) -> nat
    decreases nodes,
{
    if nodes.len() == 0 {
        0
    } else {
        tree_size(&nodes.last()) + forest_size(nodes.drop_last())
    }
}

/// The number of nodes that a worklist of chains still has to visit.
pub open spec fn pending(stack: Seq<Vec<&SourcemapNode>>) -> nat
    decreases stack.len(),
{
    if stack.len() == 0 {
        0
    } else {
        pending(stack.drop_last()) + if stack.last()@.len() > 0 {
            tree_size(stack.last()@.last())
        } else {
            0
        }
    }
}

/// Some chain of the worklist is a beginning of `chain`.
pub open spec fn covered(stack: Seq<Vec<&SourcemapNode>>, chain: Seq<&SourcemapNode>) -> bool {
    exists|i: int| 0 <= i < stack.len() && (#[trigger] stack[i])@.is_prefix_of(chain)
}

pub(crate) fn copy_chain<'a>(chain: &Vec<&'a SourcemapNode>) -> (copy: Vec<&'a SourcemapNode>)
    ensures
        copy@ == chain@,
{
    let mut copy: Vec<&'a SourcemapNode> = Vec::new();
    let mut i: usize = 0;
    while i < chain.len()
        invariant
            0 <= i <= chain@.len(),
            copy@ == chain@.subrange(0, i as int),
        decreases chain@.len() - i,
    {
        copy.push(chain[i]);
        i += 1;
    }
    copy
}

/// Finds the chain of nodes that leads from `root` to a node backed by the
/// file `path`.
///
/// The search keeps an explicit worklist of chains, so the depth of the tree
/// costs no call stack. Where several nodes hold the file, which of them is
/// found is left open; in a hierarchy that names each file once there is
/// only one.
pub fn find_node<'a>(root: &'a SourcemapNode, path: String) -> (found: Option<
    Vec<&'a SourcemapNode>,
>)
    ensures
        match found {
            Some(chain) => valid_chain(root, chain@) && chain@.last().holds_file(path@),
            None => forall|c: Seq<&SourcemapNode>| #[trigger]
                valid_chain(root, c) ==> !c.last().holds_file(path@),
        },
{
    let mut first: Vec<&'a SourcemapNode> = Vec::new();
    first.push(root);
    let mut stack: Vec<Vec<&'a SourcemapNode>> = Vec::new();
    stack.push(first);
    proof {
        assert forall|c: Seq<&SourcemapNode>|
            valid_chain(root, c) && c.last().holds_file(path@) implies covered(stack@, c) by {
            assert(stack@[0]@.is_prefix_of(c));
        }
    }
    while stack.len() > 0
        invariant
            forall|i: int| 0 <= i < stack@.len() ==> valid_chain(root, (#[trigger] stack@[i])@),
            forall|c: Seq<&SourcemapNode>|
                valid_chain(root, c) && c.last().holds_file(path@) ==> covered(stack@, c),
        decreases pending(stack@),
    {
        let ghost before = stack@;
        let node_path = stack.pop().unwrap();
        let node = node_path[node_path.len() - 1];
        if node.has_file(&path) {
            return Some(node_path);
        }
        let ghost popped = stack@;
        proof {
            assert(before.drop_last() == popped);
            assert(before.last() == node_path);
            assert(pending(before) == pending(popped) + tree_size(node));
            assert(node.children@.subrange(0, 0) =~= Seq::empty());
            assert forall|c: Seq<&SourcemapNode>|
                valid_chain(root, c) && c.last().holds_file(path@) implies covered(popped, c) || exists|
                j: int,
            |
                0 <= j < node.children@.len() && #[trigger] node_path@.push(
                    &node.children@[j],
                ).is_prefix_of(c) by {
                assert(covered(before, c));
                let i = choose|i: int| 0 <= i < before.len() && (#[trigger] before[i])@.is_prefix_of(c);
                if i < popped.len() {
                    assert(popped[i] == before[i]);
                } else {
                    let n = node_path@.len() as int;
                    assert(node_path@.is_prefix_of(c));
                    if c.len() == n {
                        assert(c =~= node_path@);
                    }
                    assert(c[n - 1] == node_path@[n - 1]);
                    assert(is_child(c[n - 1], c[n - 1 + 1]));
                    let j = choose|j: int|
                        0 <= j < c[n - 1].children@.len() && #[trigger] c[n - 1].children@[j] == *c[n];
                    assert(node_path@.push(&node.children@[j]) =~= c.subrange(0, n + 1));
                    assert(node_path@.push(&node.children@[j]).is_prefix_of(c));
                }
            }
        }
        let mut k: usize = 0;
        while k < node.children.len()
            invariant
                0 <= k <= node.children@.len(),
                valid_chain(root, node_path@),
                node_path@.len() > 0,
                node_path@.last() == node,
                forall|i: int| 0 <= i < stack@.len() ==> valid_chain(root, (#[trigger] stack@[i])@),
                pending(stack@) == pending(popped) + forest_size(node.children@.subrange(0, k as int)),
                forall|c: Seq<&SourcemapNode>|
                    valid_chain(root, c) && c.last().holds_file(path@) ==> covered(stack@, c) || exists|
                        j: int,
                    |
                        k <= j < node.children@.len() && #[trigger] node_path@.push(
                            &node.children@[j],
                        ).is_prefix_of(c),
            decreases node.children@.len() - k,
        {
            let ghost prior = stack@;
            let mut path_to_child = copy_chain(&node_path);
            path_to_child.push(&node.children[k]);
            stack.push(path_to_child);
            proof {
                let ki = k as int;
                assert(stack@.drop_last() == prior);
                assert(node.children@.subrange(0, ki + 1).drop_last() == node.children@.subrange(0, ki));
                assert(is_child(node, &node.children@[ki]));
                assert forall|i: int| 0 <= i < stack@.len() implies valid_chain(
                    root,
                    (#[trigger] stack@[i])@,
                ) by {
                    if i < prior.len() {
                        assert(stack@[i] == prior[i]);
                    }
                }
                assert forall|c: Seq<&SourcemapNode>|
                    valid_chain(root, c) && c.last().holds_file(path@) implies covered(stack@, c)
                    || exists|j: int|
                    k + 1 <= j < node.children@.len() && #[trigger] node_path@.push(
                        &node.children@[j],
                    ).is_prefix_of(c) by {
                    if covered(prior, c) {
                        let i = choose|i: int|
                            0 <= i < prior.len() && (#[trigger] prior[i])@.is_prefix_of(c);
                        assert(stack@[i] == prior[i]);
                    } else {
                        let j = choose|j: int|
                            k <= j < node.children@.len() && #[trigger] node_path@.push(
                                &node.children@[j],
                            ).is_prefix_of(c);
                        if j == k {
                            assert(stack@[prior.len() as int]@.is_prefix_of(c));
                        }
                    }
                }
            }
            k += 1;
        }
        proof {
            assert(node.children@.subrange(0, k as int) == node.children@);
        }
    }
    proof {
        assert forall|c: Seq<&SourcemapNode>| #[trigger] valid_chain(root, c) implies !c.last().holds_file(
            path@,
        ) by {
            if c.last().holds_file(path@) {
                assert(covered(stack@, c));
            }
        }
    }
    None
}


/// Why an instance path could not be resolved to a module file.
#[derive(Clone, Copy, Debug, PartialEq, Eq, Structural)]
pub enum ResolveError {
    /// The path is empty, or does not start with `script` or `game`.
    NoAnchor,
    /// No node of the hierarchy is backed by the file the path starts from.
    NotInHierarchy,
    /// A `Parent` step would leave the hierarchy through its root.
    NoParent,
    /// A step names a child that the node reached so far does not have.
    NoChild,
    /// The node reached has no module source file.
    NoModuleFile,
}

impl ResolveError {
    /// What `message` says of each error.
    pub open spec fn message_text(self) -> Seq<char> {
        match self {
            ResolveError::NoAnchor => "path does not start with script or game"@,
            ResolveError::NotInHierarchy => "could not find node path"@,
            ResolveError::NoParent => "no parent available"@,
            ResolveError::NoChild => "unable to find child"@,
            ResolveError::NoModuleFile => "no file path for require"@,
        }
    }

    /// A line that tells a user what went wrong.
    pub fn message(&self) -> (text: String)
        ensures
            text@ == self.message_text(),
    {
        match self {
            ResolveError::NoAnchor => String::from_str("path does not start with script or game"),
            ResolveError::NotInHierarchy => String::from_str("could not find node path"),
            ResolveError::NoParent => String::from_str("no parent available"),
            ResolveError::NoChild => String::from_str("unable to find child"),
            ResolveError::NoModuleFile => String::from_str("no file path for require"),
        }
    }
}

/// The component that steps up to the parent.
pub open spec fn parent_word() -> Seq<char> {
    "Parent"@
}

/// The anchor that stands for the module holding the link.
pub open spec fn script_word() -> Seq<char> {
    "script"@
}

/// The anchor that stands for the root of the hierarchy.
pub open spec fn game_word() -> Seq<char> {
    "game"@
}

/// The three reserved words are three different words.
pub proof fn lemma_words_differ()
    ensures
        script_word() != game_word(),
        script_word() != parent_word(),
        game_word() != parent_word(),
{
    reveal_strlit("script");
    reveal_strlit("game");
    reveal_strlit("Parent");
    assert(script_word().len() == 6 && game_word().len() == 4);
    assert(script_word()[0] == 's' && parent_word()[0] == 'P');
}

/// The texts of a list of strings.
pub open spec fn texts(words: Seq<String>) -> Seq<Seq<char>> {
    Seq::new(words.len(), |i: int| words[i]@)
}

/// The texts of a list with one more string are the texts with one more.
pub proof fn lemma_texts_push(words: Seq<String>, word: String)
    ensures
        texts(words.push(word)) == texts(words).push(word@),
{
    assert(texts(words.push(word)) =~= texts(words).push(word@));
}

/// `path` ends in a dot and `ext`, and the dot does not start the file name.
pub open spec fn has_extension(path: Seq<char>, ext: Seq<char>) -> bool {
    let n = path.len() as int;
    let k = ext.len() as int;
    &&& n >= k + 2
    &&& path.subrange(n - k, n) == ext
    &&& path[n - k - 1] == '.'
    &&& path[n - k - 2] != '/'
}

/// A path names a module source file if its extension is `lua` or `luau`.
pub open spec fn is_module_file(path: Seq<char>) -> bool {
    has_extension(path, seq!['l', 'u', 'a']) || has_extension(path, seq!['l', 'u', 'a', 'u'])
}

/// The position of the first module source file among `paths`, or their
/// number if there is none.
pub open spec fn first_module(paths: Seq<String>) -> int
    decreases paths.len(),
{
    if paths.len() == 0 {
        0
    } else if is_module_file(paths[0]@) {
        0
    } else {
        1 + first_module(paths.drop_first())
    }
}

/// `first_module` is the least position that holds a module source file.
pub proof fn lemma_first_module(paths: Seq<String>)
    ensures
        0 <= first_module(paths) <= paths.len(),
        first_module(paths) < paths.len() ==> is_module_file(paths[first_module(paths)]@),
        forall|j: int| 0 <= j < first_module(paths) ==> !is_module_file((#[trigger] paths[j])@),
    decreases paths.len(),
{
    if paths.len() > 0 && !is_module_file(paths[0]@) {
        let rest = paths.drop_first();
        lemma_first_module(rest);
        assert forall|j: int| 0 <= j < first_module(paths) implies !is_module_file(
            (#[trigger] paths[j])@,
        ) by {
            if j > 0 {
                assert(paths[j] == rest[j - 1]);
            }
        }
    }
}

/// The module source file of a node: the first of its files that is one.
pub open spec fn module_file(node: &SourcemapNode) -> Option<Seq<char>> {
    let k = first_module(node.file_paths@);
    if k < node.file_paths@.len() {
        Some(node.file_paths@[k]@)
    } else {
        None
    }
}

/// The module source file of a node is one of its files and has a module
/// extension. A file with any other extension, such as `json`, is never it,
/// wherever it stands among the node's files.
pub proof fn lemma_module_file_is_module(node: &SourcemapNode, other: Seq<char>)
    requires
        other.len() > 0,
        other != seq!['l', 'u', 'a'],
        other != seq!['l', 'u', 'a', 'u'],
        forall|i: int| 0 <= i < other.len() ==> other[i] != '.',
    ensures
        module_file(node) matches Some(file) ==> is_module_file(file) && node.holds_file(file)
            && !has_extension(file, other),
        (exists|j: int|
            0 <= j < node.file_paths@.len() && is_module_file((#[trigger] node.file_paths@[j])@))
            ==> module_file(node) is Some,
{
    lemma_first_module(node.file_paths@);
    match module_file(node) {
        Some(file) => {
            if has_extension(file, other) {
                if has_extension(file, seq!['l', 'u', 'a']) {
                    lemma_one_extension(file, seq!['l', 'u', 'a'], other);
                } else {
                    lemma_one_extension(file, seq!['l', 'u', 'a', 'u'], other);
                }
            }
        },
        None => {},
    }
}

/// A path has one extension: two words without a dot that both are its
/// extension are the same word.
pub proof fn lemma_one_extension(path: Seq<char>, first: Seq<char>, second: Seq<char>)
    requires
        forall|i: int| 0 <= i < first.len() ==> first[i] != '.',
        forall|i: int| 0 <= i < second.len() ==> second[i] != '.',
        has_extension(path, first),
        has_extension(path, second),
    ensures
        first == second,
{
    let n = path.len() as int;
    let a = first.len() as int;
    let b = second.len() as int;
    if a < b {
        assert(path.subrange(n - b, n)[b - a - 1] == path[n - a - 1]);
    } else if b < a {
        assert(path.subrange(n - a, n)[a - b - 1] == path[n - b - 1]);
    } else {
        assert(first =~= second);
    }
}

/// Where the steps lead from the end of `chain`: `Parent` drops the last
/// node of the chain, any other step appends the child of that name.
pub open spec fn walk(chain: Seq<&SourcemapNode>, steps: Seq<Seq<char>>) -> Result<
    Seq<&SourcemapNode>,
    ResolveError,
>
    decreases steps.len(),
{
    if steps.len() == 0 {
        Ok(chain)
    } else if steps[0] == parent_word() {
        if chain.len() <= 1 {
            Err(ResolveError::NoParent)
        } else {
            walk(chain.drop_last(), steps.drop_first())
        }
    } else if chain.len() == 0 {
        Err(ResolveError::NoChild)
    } else {
        match chain.last().child_named(steps[0]) {
            Some(child) => walk(chain.push(&child), steps.drop_first()),
            None => Err(ResolveError::NoChild),
        }
    }
}

/// The module file that the steps lead to from the end of `chain`.
pub open spec fn resolved(chain: Seq<&SourcemapNode>, steps: Seq<Seq<char>>) -> Result<
    Seq<char>,
    ResolveError,
> {
    match walk(chain, steps) {
        Err(e) => Err(e),
        Ok(end) => if end.len() == 0 {
            Err(ResolveError::NoModuleFile)
        } else {
            match module_file(end.last()) {
                Some(file) => Ok(file),
                None => Err(ResolveError::NoModuleFile),
            }
        },
    }
}

/// An executable result agrees with a specified one: the same error, or a
/// string with the specified text.
pub open spec fn agrees(got: Result<String, ResolveError>, want: Result<Seq<char>, ResolveError>) -> bool {
    match (got, want) {
        (Ok(file), Ok(text)) => file@ == text,
        (Err(e), Err(f)) => e == f,
        _ => false,
    }
}

/// Whether `text` reads `word`.
pub fn is_word(text: &String, word: &str) -> (same: bool)
    ensures
        same == (text@ == word@),
{
    let other = String::from_str(word);
    *text == other
}

fn ends_with_extension(path: &str, len: usize, ext: &[char]) -> (ends: bool)
    requires
        len == path@.len(),
    ensures
        ends == has_extension(path@, ext@),
{
    let k = ext.len();
    if len < 2 || len - 2 < k {
        return false;
    }
    let start = len - k;
    if path.get_char(start - 1) != '.' || path.get_char(start - 2) == '/' {
        return false;
    }
    let mut i: usize = 0;
    while i < k
        invariant
            0 <= i <= k,
            k == ext@.len(),
            start + k == len,
            len == path@.len(),
            forall|j: int| 0 <= j < i ==> path@[start + j] == #[trigger] ext@[j],
        decreases k - i,
    {
        if path.get_char(start + i) != ext[i] {
            proof {
                assert(path@.subrange(start as int, len as int)[i as int] != ext@[i as int]);
            }
            return false;
        }
        i += 1;
    }
    proof {
        assert(path@.subrange(start as int, len as int) =~= ext@);
    }
    true
}

/// Whether `path` names a module source file: one with the extension `lua`
/// or `luau`. Files of any other kind that back a node are never required.
pub fn lua_files_filter(path: &String) -> (module: bool)
    ensures
        module == is_module_file(path@),
{
    let text = path.as_str();
    let len = text.unicode_len();
    let lua: [char; 3] = ['l', 'u', 'a'];
    let luau: [char; 4] = ['l', 'u', 'a', 'u'];
    proof {
        assert(lua@ =~= seq!['l', 'u', 'a']);
        assert(luau@ =~= seq!['l', 'u', 'a', 'u']);
    }
    ends_with_extension(text, len, lua.as_slice()) || ends_with_extension(text, len, luau.as_slice())
}


/// Steps that start from a chain of the hierarchy end in one.
pub proof fn lemma_walk_valid(root: &SourcemapNode, chain: Seq<&SourcemapNode>, steps: Seq<Seq<char>>)
    requires
        valid_chain(root, chain),
    ensures
        walk(chain, steps) matches Ok(end) ==> valid_chain(root, end),
    decreases steps.len(),
{
    if steps.len() > 0 {
        if steps[0] == parent_word() {
            if chain.len() > 1 {
                lemma_walk_valid(root, chain.drop_last(), steps.drop_first());
            }
        } else {
            crate::hierarchy::lemma_first_named(chain.last().children@, steps[0]);
            match chain.last().child_named(steps[0]) {
                Some(child) => {
                    let longer = chain.push(&child);
                    assert(is_child(chain.last(), &child));
                    assert forall|i: int| 0 <= i < longer.len() - 1 implies is_child(
                        longer[i],
                        #[trigger] longer[i + 1],
                    ) by {
                        if i < chain.len() - 1 {
                            assert(longer[i + 1] == chain[i + 1]);
                        }
                    }
                    lemma_walk_valid(root, longer, steps.drop_first());
                },
                None => {},
            }
        }
    }
}

/// An executable chain agrees with a specified one.
pub open spec fn chain_agrees(
    got: Result<Vec<&SourcemapNode>, ResolveError>,
    want: Result<Seq<&SourcemapNode>, ResolveError>,
) -> bool {
    match (got, want) {
        (Ok(chain), Ok(nodes)) => chain@ == nodes,
        (Err(e), Err(f)) => e == f,
        _ => false,
    }
}

pub(crate) fn walk_from<'a>(start: Vec<&'a SourcemapNode>, components: &Vec<String>, from: usize) -> (end:
    Result<Vec<&'a SourcemapNode>, ResolveError>)
    requires
        from <= components@.len(),
    ensures
        chain_agrees(end, walk(start@, texts(components@).skip(from as int))),
{
    let ghost all = texts(components@);
    let ghost origin = start@;
    let mut chain = start;
    let mut i: usize = from;
    while i < components.len()
        invariant
            from <= i <= components@.len(),
            all == texts(components@),
            origin == start@,
            walk(origin, all.skip(from as int)) == walk(chain@, all.skip(i as int)),
        decreases components@.len() - i,
    {
        let component = &components[i];
        proof {
            assert(all.skip(i as int)[0] == component@);
            assert(all.skip(i as int).drop_first() == all.skip(i + 1));
        }
        if is_word(component, "Parent") {
            if chain.len() <= 1 {
                return Err(ResolveError::NoParent);
            }
            let ghost longer = chain@;
            chain.pop();
            assert(chain@ == longer.drop_last());
        } else {
            if chain.len() == 0 {
                return Err(ResolveError::NoChild);
            }
            let tail = chain[chain.len() - 1];
            match tail.find_child(component.clone()) {
                Some(child) => {
                    chain.push(child);
                },
                None => {
                    return Err(ResolveError::NoChild);
                },
            }
        }
        i += 1;
    }
    Ok(chain)
}

/// The module source file of `node`, if it has one: the first of its files
/// with a module extension, whatever other files stand before it.
pub fn module_file_of(node: &SourcemapNode) -> (file: Option<&String>)
    ensures
        match (file, module_file(node)) {
            (Some(found), Some(text)) => found@ == text,
            (None, None) => true,
            _ => false,
        },
{
    let mut i: usize = 0;
    while i < node.file_paths.len()
        invariant
            0 <= i <= node.file_paths@.len(),
            forall|j: int| 0 <= j < i ==> !is_module_file((#[trigger] node.file_paths@[j])@),
        decreases node.file_paths@.len() - i,
    {
        if lua_files_filter(&node.file_paths[i]) {
            proof {
                lemma_first_module(node.file_paths@);
            }
            return Some(&node.file_paths[i]);
        }
        i += 1;
    }
    proof {
        lemma_first_module(node.file_paths@);
    }
    None
}

pub(crate) fn module_file_at(chain: &Vec<&SourcemapNode>) -> (file: Result<String, ResolveError>)
    ensures
        agrees(
            file,
            if chain@.len() == 0 {
                Err(ResolveError::NoModuleFile)
            } else {
                match module_file(chain@.last()) {
                    Some(text) => Ok(text),
                    None => Err(ResolveError::NoModuleFile),
                }
            },
        ),
{
    if chain.len() == 0 {
        return Err(ResolveError::NoModuleFile);
    }
    match module_file_of(chain[chain.len() - 1]) {
        Some(file) => Ok(file.clone()),
        None => Err(ResolveError::NoModuleFile),
    }
}

/// Follows `steps` from the end of the chain `start` and returns the module
/// file of the node they lead to.
///
/// A `Parent` step that would leave the chain through its first node fails
/// with `NoParent`, a step that names no child with `NoChild`, and a
/// destination without a module source file with `NoModuleFile`. The first
/// step that fails decides. An empty chain has no node to step down from,
/// and none that could have a module file.
pub fn resolve<'a>(start: Vec<&'a SourcemapNode>, steps: &Vec<String>) -> (file: Result<
    String,
    ResolveError,
>)
    ensures
        agrees(file, resolved(start@, texts(steps@))),
{
    proof {
        assert(texts(steps@).skip(0) == texts(steps@));
    }
    match walk_from(start, steps, 0) {
        Ok(end) => module_file_at(&end),
        Err(e) => Err(e),
    }
}

/// Where the steps of a path start, going by its anchor: from `game` at
/// the root, from `script` at a node backed by the file `path`. There is no
/// start without an anchor, nor where no node is backed by that file.
pub open spec fn starts_at(
    root: &SourcemapNode,
    path: Seq<char>,
    components: Seq<Seq<char>>,
    start: Result<Seq<&SourcemapNode>, ResolveError>,
) -> bool {
    if components.len() == 0 {
        start == Err::<Seq<&SourcemapNode>, ResolveError>(ResolveError::NoAnchor)
    } else if components[0] == game_word() {
        start == Ok::<Seq<&SourcemapNode>, ResolveError>(seq![root])
    } else if components[0] == script_word() {
        match start {
            Ok(chain) => valid_chain(root, chain) && chain.last().holds_file(path),
            Err(e) => e == ResolveError::NotInHierarchy && forall|c: Seq<&SourcemapNode>| #[trigger]
                valid_chain(root, c) ==> !c.last().holds_file(path),
        }
    } else {
        start == Err::<Seq<&SourcemapNode>, ResolveError>(ResolveError::NoAnchor)
    }
}

/// The view of an executable chain or error.
pub open spec fn chain_view(start: Result<Vec<&SourcemapNode>, ResolveError>) -> Result<
    Seq<&SourcemapNode>,
    ResolveError,
> {
    match start {
        Ok(chain) => Ok(chain@),
        Err(e) => Err(e),
    }
}

/// Finds the chain at whose end the steps of `components` start.
pub fn start_chain<'a>(path: &String, root: &'a SourcemapNode, components: &Vec<String>) -> (start:
    Result<Vec<&'a SourcemapNode>, ResolveError>)
    ensures
        starts_at(root, path@, texts(components@), chain_view(start)),
        start matches Ok(chain) ==> valid_chain(root, chain@),
{
    if components.len() == 0 {
        return Err(ResolveError::NoAnchor);
    }
    proof {
        lemma_words_differ();
    }
    let first_in_chain = &components[0];
    assert(texts(components@)[0] == first_in_chain@);
    if is_word(first_in_chain, "script") {
        match find_node(root, path.clone()) {
            Some(chain) => Ok(chain),
            None => Err(ResolveError::NotInHierarchy),
        }
    } else if is_word(first_in_chain, "game") {
        let mut chain: Vec<&SourcemapNode> = Vec::new();
        chain.push(root);
        assert(chain@ == seq![root]);
        Ok(chain)
    } else {
        Err(ResolveError::NoAnchor)
    }
}

/// What resolving `components` for the module file `path` may return: the
/// module file that the steps after the anchor lead to from where they
/// start, or the reason why there is no start.
pub open spec fn resolves_to(
    root: &SourcemapNode,
    path: Seq<char>,
    components: Seq<Seq<char>>,
    file: Result<String, ResolveError>,
) -> bool {
    exists|start: Result<Seq<&SourcemapNode>, ResolveError>| #[trigger]
        starts_at(root, path, components, start) && agrees(
            file,
            match start {
                Ok(chain) => resolved(chain, components.skip(1)),
                Err(e) => Err(e),
            },
        )
}

/// Resolves the components of a require path, such as `script`, `Parent`,
/// `Example`, to the module file they name.
///
/// `path` is the canonical path of the file that holds the link; it is what
/// `script` stands for.
pub fn file_path_from_components(
    path: &String,
    root: &SourcemapNode,
    path_components: Vec<String>,
) -> (file: Result<String, ResolveError>)
    ensures
        resolves_to(root, path@, texts(path_components@), file),
{
    let start = start_chain(path, root, &path_components);
    let ghost origin = chain_view(start);
    let file = match start {
        Ok(chain) => match walk_from(chain, &path_components, 1) {
            Ok(end) => module_file_at(&end),
            Err(e) => Err(e),
        },
        Err(e) => Err(e),
    };
    assert(starts_at(root, path@, texts(path_components@), origin));
    file
}

} // verus!
