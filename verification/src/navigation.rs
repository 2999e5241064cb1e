//! The shortest instance path between two nodes of the hierarchy, and what
//! holds of walking such paths.

use crate::hierarchy::{first_named, is_child, lemma_first_named, SourcemapNode};
use crate::resolver::{
    lemma_texts_push, module_file, module_file_at, parent_word, resolved, start_chain, starts_at,
    texts, valid_chain, walk, walk_from, ResolveError,
};
use vstd::prelude::*;

verus! {

/// `count` steps up.
pub open spec fn ups(count: nat) -> Seq<Seq<char>> {
    Seq::new(count, |i: int| parent_word())
}

/// The names of the nodes of a chain, in order.
pub open spec fn names(chain: Seq<&SourcemapNode>) -> Seq<Seq<char>> {
    Seq::new(chain.len(), |i: int| chain[i].name@)
}

/// No two of the children share a name.
pub open spec fn distinct_names(children: Seq<SourcemapNode>) -> bool {
    forall|i: int, j: int|
        0 <= i < children.len() && 0 <= j < children.len() && (#[trigger] children[i]).name@ == (
        #[trigger] children[j]).name@ ==> i == j
}

/// Every node below `node` can be addressed from its parent by its name: no
/// two siblings share a name, and none is called `Parent`, which a path
/// reads as a step up.
pub open spec fn well_formed(node: &SourcemapNode) -> bool
    decreases *node,
{
    &&& distinct_names(node.children@)
    &&& forall|i: int|
        0 <= i < node.children@.len() ==> (#[trigger] node.children@[i]).name@ != parent_word()
            && well_formed(&node.children@[i])
}

/// How many nodes two chains share at their beginning, going by the names.
pub open spec fn shared(a: Seq<&SourcemapNode>, b: Seq<&SourcemapNode>) -> nat
    decreases a.len(),
{
    if a.len() == 0 || b.len() == 0 || a[0].name@ != b[0].name@ {
        0
    } else {
        1 + shared(a.drop_first(), b.drop_first())
    }
}

/// The steps from the end of `start` to the end of `target`: up to the last
/// node that the two chains share, then down by name.
pub open spec fn shortest(start: Seq<&SourcemapNode>, target: Seq<&SourcemapNode>) -> Seq<Seq<char>> {
    let k = shared(start, target);
    ups((start.len() - k) as nat) + names(target.skip(k as int))
}

/// `shared` counts the positions up to the first at which the names differ
/// or one of the chains ends.
pub proof fn lemma_shared(a: Seq<&SourcemapNode>, b: Seq<&SourcemapNode>)
    ensures
        shared(a, b) <= a.len(),
        shared(a, b) <= b.len(),
        forall|i: int| 0 <= i < shared(a, b) ==> (#[trigger] a[i]).name@ == b[i].name@,
        shared(a, b) < a.len() && shared(a, b) < b.len() ==> a[shared(a, b) as int].name@ != b[shared(
            a,
            b,
        ) as int].name@,
    decreases a.len(),
{
    if a.len() == 0 || b.len() == 0 || a[0].name@ != b[0].name@ {
    } else {
        let ra = a.drop_first();
        let rb = b.drop_first();
        lemma_shared(ra, rb);
        assert forall|i: int| 0 <= i < shared(a, b) implies (#[trigger] a[i]).name@ == b[i].name@ by {
            if i > 0 {
                assert(a[i] == ra[i - 1]);
                assert(b[i] == rb[i - 1]);
            }
        }
        let k = shared(ra, rb) as int;
        if k < ra.len() && k < rb.len() {
            assert(ra[k] == a[k + 1]);
            assert(rb[k] == b[k + 1]);
        }
    }
}

/// Any position up to which the names agree, and at which they stop
/// agreeing, is the one that `shared` counts.
pub proof fn lemma_shared_is(a: Seq<&SourcemapNode>, b: Seq<&SourcemapNode>, k: int)
    requires
        0 <= k <= a.len(),
        k <= b.len(),
        forall|i: int| 0 <= i < k ==> (#[trigger] a[i]).name@ == b[i].name@,
        k < a.len() && k < b.len() ==> a[k].name@ != b[k].name@,
    ensures
        shared(a, b) == k,
{
    lemma_shared(a, b);
    let s = shared(a, b) as int;
    if s < k {
        assert(a[s].name@ == b[s].name@);
    } else if s > k {
        assert(a[k].name@ == b[k].name@);
    }
}

/// Walking `first + second` is walking `first` and then `second`.
pub proof fn lemma_walk_concat(
    chain: Seq<&SourcemapNode>,
    first: Seq<Seq<char>>,
    second: Seq<Seq<char>>,
)
    ensures
        walk(chain, first + second) == match walk(chain, first) {
            Ok(middle) => walk(middle, second),
            Err(e) => Err(e),
        },
    decreases first.len(),
{
    if first.len() == 0 {
        assert(first + second == second);
    } else {
        let all = first + second;
        assert(all[0] == first[0]);
        assert(all.drop_first() == first.drop_first() + second);
        if first[0] == parent_word() {
            if chain.len() > 1 {
                lemma_walk_concat(chain.drop_last(), first.drop_first(), second);
            }
        } else if chain.len() > 0 {
            match chain.last().child_named(first[0]) {
                Some(child) => {
                    lemma_walk_concat(chain.push(&child), first.drop_first(), second);
                },
                None => {},
            }
        }
    }
}

/// Fewer steps up than the chain has nodes above its end lead to the node
/// that many levels up; one more than lead to the first node fails.
pub proof fn lemma_walk_ups(chain: Seq<&SourcemapNode>, count: nat)
    requires
        chain.len() > 0,
    ensures
        count < chain.len() ==> walk(chain, ups(count)) == Ok::<Seq<&SourcemapNode>, ResolveError>(
            chain.subrange(0, chain.len() - count),
        ),
        count >= chain.len() ==> walk(chain, ups(count)) == Err::<Seq<&SourcemapNode>, ResolveError>(
            ResolveError::NoParent,
        ),
    decreases count,
{
    if count == 0 {
        assert(chain.subrange(0, chain.len() as int) == chain);
    } else {
        assert(ups(count)[0] == parent_word());
        assert(ups(count).drop_first() == ups((count - 1) as nat));
        if chain.len() > 1 {
            let shorter = chain.drop_last();
            lemma_walk_ups(shorter, (count - 1) as nat);
            if count < chain.len() {
                assert(shorter.subrange(0, shorter.len() - (count - 1)) == chain.subrange(
                    0,
                    chain.len() - count,
                ));
            }
        }
    }
}

/// In a well-formed hierarchy every node of a chain is well-formed.
pub proof fn lemma_chain_well_formed(root: &SourcemapNode, chain: Seq<&SourcemapNode>, at: int)
    requires
        well_formed(root),
        valid_chain(root, chain),
        0 <= at < chain.len(),
    ensures
        well_formed(chain[at]),
        at > 0 ==> chain[at].name@ != parent_word(),
    decreases at,
{
    if at > 0 {
        lemma_chain_well_formed(root, chain, at - 1);
        assert(is_child(chain[at - 1], chain[at - 1 + 1]));
    }
}

/// In a well-formed hierarchy a descent by a child's name reaches that child.
pub proof fn lemma_child_by_name(parent: &SourcemapNode, child: &SourcemapNode)
    requires
        distinct_names(parent.children@),
        is_child(parent, child),
    ensures
        parent.child_named(child.name@) == Some(*child),
{
    lemma_first_named(parent.children@, child.name@);
    let j = choose|j: int| 0 <= j < parent.children@.len() && #[trigger] parent.children@[j] == *child;
    let k = first_named(parent.children@, child.name@);
    assert(k <= j) by {
        if j < k {
            assert(parent.children@[j].name@ != child.name@);
        }
    }
    assert(parent.children@[k].name@ == parent.children@[j].name@);
}

/// From the first `from` nodes of a chain, the names of the others lead
/// down to its end.
pub proof fn lemma_walk_down(root: &SourcemapNode, target: Seq<&SourcemapNode>, from: int)
    requires
        well_formed(root),
        valid_chain(root, target),
        1 <= from <= target.len(),
    ensures
        walk(target.subrange(0, from), names(target.skip(from))) == Ok::<
            Seq<&SourcemapNode>,
            ResolveError,
        >(target),
    decreases target.len() - from,
{
    let steps = names(target.skip(from));
    let chain = target.subrange(0, from);
    if from == target.len() {
        assert(chain == target);
    } else {
        lemma_chain_well_formed(root, target, from - 1);
        lemma_chain_well_formed(root, target, from);
        assert(is_child(target[from - 1], target[from - 1 + 1]));
        lemma_child_by_name(target[from - 1], target[from]);
        assert(steps[0] == target[from].name@);
        assert(chain.last() == target[from - 1]);
        assert(steps.drop_first() == names(target.skip(from + 1)));
        assert(chain.push(target[from]) == target.subrange(0, from + 1));
        lemma_walk_down(root, target, from + 1);
    }
}

/// From the end of one chain of a well-formed hierarchy, the way up to the
/// root and then down by the names of another chain ends at the end of that
/// other chain, and resolves to the module file of the node there. One step
/// up more than lead to the root fails, whatever follows it.
pub proof fn lemma_up_then_down(
    root: &SourcemapNode,
    start: Seq<&SourcemapNode>,
    target: Seq<&SourcemapNode>,
    rest: Seq<Seq<char>>,
)
    requires
        well_formed(root),
        valid_chain(root, start),
        valid_chain(root, target),
    ensures
        walk(start, ups((start.len() - 1) as nat) + names(target.skip(1))) == Ok::<
            Seq<&SourcemapNode>,
            ResolveError,
        >(target),
        resolved(start, ups((start.len() - 1) as nat) + names(target.skip(1))) == match module_file(
            target.last(),
        ) {
            Some(file) => Ok::<Seq<char>, ResolveError>(file),
            None => Err::<Seq<char>, ResolveError>(ResolveError::NoModuleFile),
        },
        walk(start, ups(start.len()) + rest) == Err::<Seq<&SourcemapNode>, ResolveError>(
            ResolveError::NoParent,
        ),
        resolved(start, ups(start.len()) + rest) == Err::<Seq<char>, ResolveError>(
            ResolveError::NoParent,
        ),
{
    lemma_walk_ups(start, (start.len() - 1) as nat);
    lemma_walk_ups(start, start.len());
    lemma_walk_concat(start, ups((start.len() - 1) as nat), names(target.skip(1)));
    lemma_walk_concat(start, ups(start.len()), rest);
    assert(start.subrange(0, 1) == target.subrange(0, 1));
    lemma_walk_down(root, target, 1);
}

/// Two chains of a well-formed hierarchy that agree in their names up to a
/// position are the same chain up to there.
pub proof fn lemma_same_names_same_nodes(
    root: &SourcemapNode,
    a: Seq<&SourcemapNode>,
    b: Seq<&SourcemapNode>,
    upto: int,
)
    requires
        well_formed(root),
        valid_chain(root, a),
        valid_chain(root, b),
        0 <= upto <= a.len(),
        upto <= b.len(),
        forall|i: int| 0 <= i < upto ==> (#[trigger] a[i]).name@ == b[i].name@,
    ensures
        a.subrange(0, upto) == b.subrange(0, upto),
    decreases upto,
{
    if upto <= 1 {
        assert(a.subrange(0, upto) =~= b.subrange(0, upto));
    } else {
        lemma_same_names_same_nodes(root, a, b, upto - 1);
        let p = upto - 2;
        assert(a.subrange(0, upto - 1)[p] == b.subrange(0, upto - 1)[p]);
        assert(is_child(a[p], a[p + 1]));
        assert(is_child(b[p], b[p + 1]));
        lemma_chain_well_formed(root, a, p);
        lemma_child_by_name(a[p], a[p + 1]);
        lemma_child_by_name(b[p], b[p + 1]);
        assert(*a[upto - 1] == *b[upto - 1]);
        assert forall|i: int| 0 <= i < upto implies a.subrange(0, upto)[i] == b.subrange(0, upto)[i] by {
            if i < upto - 1 {
                assert(a.subrange(0, upto - 1)[i] == b.subrange(0, upto - 1)[i]);
            }
        }
        assert(a.subrange(0, upto) =~= b.subrange(0, upto));
    }
}

/// In a well-formed hierarchy the shortest steps from the end of one chain
/// lead to the end of the other.
pub proof fn lemma_shortest_reaches(
    root: &SourcemapNode,
    start: Seq<&SourcemapNode>,
    target: Seq<&SourcemapNode>,
)
    requires
        well_formed(root),
        valid_chain(root, start),
        valid_chain(root, target),
    ensures
        walk(start, shortest(start, target)) == Ok::<Seq<&SourcemapNode>, ResolveError>(target),
{
    lemma_shared(start, target);
    let k = shared(start, target);
    assert(k >= 1) by {
        if k == 0 {
            assert(start[0].name@ == target[0].name@);
        }
    }
    lemma_same_names_same_nodes(root, start, target, k as int);
    lemma_walk_ups(start, (start.len() - k) as nat);
    lemma_walk_concat(start, ups((start.len() - k) as nat), names(target.skip(k as int)));
    lemma_walk_down(root, target, k as int);
}


/// One more node at the end of a chain adds at most one to what the chain
/// shares with another, and takes nothing away.
pub proof fn lemma_shared_push(
    chain: Seq<&SourcemapNode>,
    node: &SourcemapNode,
    other: Seq<&SourcemapNode>,
)
    ensures
        shared(chain, other) <= shared(chain.push(node), other) <= shared(chain, other) + 1,
{
    lemma_shared(chain, other);
    let k = shared(chain, other) as int;
    let longer = chain.push(node);
    if k == chain.len() && k < other.len() && node.name@ == other[k].name@ {
        assert forall|i: int| 0 <= i < k + 1 implies (#[trigger] longer[i]).name@ == other[i].name@ by {
            if i < k {
                assert(longer[i] == chain[i]);
            }
        }
        lemma_shared_is(longer, other, k + 1);
    } else {
        assert forall|i: int| 0 <= i < k implies (#[trigger] longer[i]).name@ == other[i].name@ by {
            assert(longer[i] == chain[i]);
        }
        if k < chain.len() {
            assert(longer[k] == chain[k]);
        }
        lemma_shared_is(longer, other, k);
    }
}

/// How far the ends of two chains are apart: the nodes of either that the
/// other does not share.
pub open spec fn distance(a: Seq<&SourcemapNode>, b: Seq<&SourcemapNode>) -> int {
    a.len() + b.len() - 2 * shared(a, b)
}

/// A step changes the distance to any chain by one, so steps that lead
/// from one chain to another are at least as many as the two are apart.
pub proof fn lemma_steps_at_least(
    chain: Seq<&SourcemapNode>,
    steps: Seq<Seq<char>>,
    target: Seq<&SourcemapNode>,
)
    requires
        walk(chain, steps) == Ok::<Seq<&SourcemapNode>, ResolveError>(target),
    ensures
        steps.len() >= distance(chain, target),
    decreases steps.len(),
{
    if steps.len() == 0 {
        lemma_shared_is(target, target, target.len() as int);
    } else if steps[0] == parent_word() {
        let shorter = chain.drop_last();
        lemma_steps_at_least(shorter, steps.drop_first(), target);
        lemma_shared_push(shorter, chain.last(), target);
        assert(shorter.push(chain.last()) == chain);
    } else {
        let child = chain.last().child_named(steps[0]).unwrap();
        lemma_steps_at_least(chain.push(&child), steps.drop_first(), target);
        lemma_shared_push(chain, &child, target);
    }
}

/// No steps that lead from the end of `start` to the end of `target` are
/// fewer than the shortest steps.
pub proof fn lemma_shortest_is_shortest(
    start: Seq<&SourcemapNode>,
    steps: Seq<Seq<char>>,
    target: Seq<&SourcemapNode>,
)
    requires
        walk(start, steps) == Ok::<Seq<&SourcemapNode>, ResolveError>(target),
    ensures
        shortest(start, target).len() <= steps.len(),
{
    lemma_shared(start, target);
    lemma_steps_at_least(start, steps, target);
}

/// Whatever steps led from `start` to a node of a well-formed hierarchy, the
/// shortest steps lead to the same node, and they are the shortest steps to
/// the node they lead to.
pub proof fn lemma_shortest_stable(
    root: &SourcemapNode,
    start: Seq<&SourcemapNode>,
    steps: Seq<Seq<char>>,
)
    requires
        well_formed(root),
        valid_chain(root, start),
        walk(start, steps) is Ok,
    ensures
        walk(start, shortest(start, walk(start, steps).unwrap())) == walk(start, steps),
        shortest(start, walk(start, shortest(start, walk(start, steps).unwrap())).unwrap())
            == shortest(start, walk(start, steps).unwrap()),
{
    crate::resolver::lemma_walk_valid(root, start, steps);
    lemma_shortest_reaches(root, start, walk(start, steps).unwrap());
}

/// The shortest steps from the end of `start` to the end of `target`: one
/// `Parent` for each node of `start` below the last node that the two chains
/// share, then the names of the nodes of `target` below it.
pub fn shortest_steps(start: &Vec<&SourcemapNode>, target: &Vec<&SourcemapNode>) -> (steps: Vec<
    String,
>)
    ensures
        texts(steps@) == shortest(start@, target@),
{
    let mut k: usize = 0;
    while k < start.len() && k < target.len() && start[k].name == target[k].name
        invariant
            0 <= k <= start@.len(),
            k <= target@.len(),
            forall|i: int| 0 <= i < k ==> (#[trigger] start@[i]).name@ == target@[i].name@,
        decreases start@.len() - k,
    {
        k += 1;
    }
    proof {
        lemma_shared_is(start@, target@, k as int);
    }
    let mut steps: Vec<String> = Vec::new();
    let mut i: usize = k;
    while i < start.len()
        invariant
            k <= i <= start@.len(),
            texts(steps@) == ups((i - k) as nat),
        decreases start@.len() - i,
    {
        let ghost before = steps@;
        let word = String::from_str("Parent");
        proof {
            lemma_texts_push(before, word);
        }
        steps.push(word);
        i += 1;
        assert(ups((i - k - 1) as nat).push(parent_word()) =~= ups((i - k) as nat));
    }
    let ghost climb = ups((start@.len() - k) as nat);
    let ghost descent = names(target@.skip(k as int));
    let mut j: usize = k;
    assert(texts(steps@) =~= climb + descent.subrange(0, 0));
    while j < target.len()
        invariant
            k <= j <= target@.len(),
            descent == names(target@.skip(k as int)),
            texts(steps@) == climb + descent.subrange(0, j - k),
        decreases target@.len() - j,
    {
        let ghost before = steps@;
        let word = target[j].name.clone();
        proof {
            lemma_texts_push(before, word);
            assert(descent[j - k] == target@[j as int].name@);
        }
        steps.push(word);
        j += 1;
        assert((climb + descent.subrange(0, j - k - 1)).push(word@) =~= climb + descent.subrange(
            0,
            j - k,
        ));
    }
    assert(descent.subrange(0, j - k) == descent);
    steps
}


/// The module that a link requires, and the link in its shortest form.
pub struct Requirement {
    /// The module source file that the link resolves to.
    pub file: String,
    /// The components of the shortest path to that module: the anchor of
    /// the link, then the shortest steps.
    pub link: Vec<String>,
}

/// The module file that the steps after the anchor lead to from the end of
/// `start`, and the anchor with the shortest steps that lead there.
pub open spec fn requirement(start: Seq<&SourcemapNode>, components: Seq<Seq<char>>) -> Result<
    (Seq<char>, Seq<Seq<char>>),
    ResolveError,
> {
    match walk(start, components.skip(1)) {
        Err(e) => Err(e),
        Ok(target) => if target.len() == 0 {
            Err(ResolveError::NoModuleFile)
        } else {
            match module_file(target.last()) {
                Some(file) => Ok((file, seq![components[0]] + shortest(start, target))),
                None => Err(ResolveError::NoModuleFile),
            }
        },
    }
}

/// An executable requirement agrees with a specified one.
pub open spec fn requirement_agrees(
    got: Result<Requirement, ResolveError>,
    want: Result<(Seq<char>, Seq<Seq<char>>), ResolveError>,
) -> bool {
    match (got, want) {
        (Ok(found), Ok(pair)) => found.file@ == pair.0 && texts(found.link@) == pair.1,
        (Err(e), Err(f)) => e == f,
        _ => false,
    }
}

/// What resolving the link `components` of the module file `path` may
/// return: the requirement from where its steps start, or the reason why
/// there is no start.
pub open spec fn requires_module(
    root: &SourcemapNode,
    path: Seq<char>,
    components: Seq<Seq<char>>,
    found: Result<Requirement, ResolveError>,
) -> bool {
    exists|start: Result<Seq<&SourcemapNode>, ResolveError>| #[trigger]
        starts_at(root, path, components, start) && requirement_agrees(
            found,
            match start {
                Ok(chain) => requirement(chain, components),
                Err(e) => Err(e),
            },
        )
}

/// Resolves the link `components` of the module file `path` to the module
/// it requires, and works out the shortest form of the link.
pub fn resolve_link(path: &String, root: &SourcemapNode, components: &Vec<String>) -> (found:
    Result<Requirement, ResolveError>)
    ensures
        requires_module(root, path@, texts(components@), found),
{
    let start = match start_chain(path, root, components) {
        Ok(chain) => chain,
        Err(e) => {
            assert(starts_at(
                root,
                path@,
                texts(components@),
                Err::<Seq<&SourcemapNode>, ResolveError>(e),
            ));
            return Err(e);
        },
    };
    let ghost origin = start@;
    assert(starts_at(
        root,
        path@,
        texts(components@),
        Ok::<Seq<&SourcemapNode>, ResolveError>(origin),
    ));
    let kept = crate::resolver::copy_chain(&start);
    let target = match walk_from(start, components, 1) {
        Ok(end) => end,
        Err(e) => {
            return Err(e);
        },
    };
    let file = match module_file_at(&target) {
        Ok(file) => file,
        Err(e) => {
            return Err(e);
        },
    };
    let steps = shortest_steps(&kept, &target);
    let mut link: Vec<String> = Vec::new();
    link.push(components[0].clone());
    let mut i: usize = 0;
    assert(texts(link@) =~= seq![texts(components@)[0]] + texts(steps@).subrange(0, 0));
    while i < steps.len()
        invariant
            0 <= i <= steps@.len(),
            components@.len() > 0,
            texts(link@) == seq![texts(components@)[0]] + texts(steps@).subrange(0, i as int),
        decreases steps@.len() - i,
    {
        let ghost before = link@;
        let word = steps[i].clone();
        proof {
            lemma_texts_push(before, word);
            assert((seq![texts(components@)[0]] + texts(steps@).subrange(0, i as int)).push(word@)
                =~= seq![texts(components@)[0]] + texts(steps@).subrange(0, i + 1));
        }
        link.push(word);
        i += 1;
    }
    assert(texts(steps@).subrange(0, i as int) == texts(steps@));
    Ok(Requirement { file, link })
}

} // verus!
