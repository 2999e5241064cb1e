//! Bringing the file paths of a hierarchy into canonical form.
//!
//! Only the file system can say what the canonical form of a path is. So
//! the work is split: `file_paths_of` lists every path of a hierarchy, the
//! caller canonicalizes each of them, and `mutate_sourcemap` puts the
//! results where the paths came from.

use crate::hierarchy::SourcemapNode;
use crate::resolver::{lemma_texts_push, texts};
use vstd::prelude::*;

verus! {

/// Every file path below and including `node`: the node's own paths, then
/// those of each child's tree, in order.
pub open spec fn tree_paths(node: &SourcemapNode) -> Seq<Seq<char>>
    decreases *node,
{
    texts(node.file_paths@) + forest_paths(node.children@)
}

/// Every file path of the trees of `nodes`, tree after tree.
pub open spec fn forest_paths(nodes: Seq<SourcemapNode>) -> Seq<Seq<char>>
    decreases nodes,
{
    if nodes.len() == 0 {
        Seq::empty()
    } else {
        forest_paths(nodes.drop_last()) + tree_paths(&nodes.last())
    }
}

/// Two trees are the same but for what their file paths read: the same
/// names and class names, as many paths at each node, and the same children
/// in the same order.
pub open spec fn same_skeleton(a: &SourcemapNode, b: &SourcemapNode) -> bool
    decreases *a,
{
    &&& a.name@ == b.name@
    &&& a.class_name@ == b.class_name@
    &&& a.file_paths@.len() == b.file_paths@.len()
    &&& a.children@.len() == b.children@.len()
    &&& forall|i: int|
        0 <= i < a.children@.len() ==> same_skeleton(
            &(#[trigger] a.children@[i]),
            &b.children@[i],
        )
}

/// The paths of the first trees of a forest are the beginning of its paths.
pub proof fn lemma_forest_paths_prefix(nodes: Seq<SourcemapNode>, upto: int)
    requires
        0 <= upto <= nodes.len(),
    ensures
        forest_paths(nodes.subrange(0, upto)).is_prefix_of(forest_paths(nodes)),
    decreases nodes.len() - upto,
{
    if upto == nodes.len() {
        assert(nodes.subrange(0, upto) == nodes);
    } else {
        lemma_forest_paths_prefix(nodes, upto + 1);
        let longer = nodes.subrange(0, upto + 1);
        assert(longer.drop_last() == nodes.subrange(0, upto));
        assert(longer.last() == nodes[upto]);
        assert(forest_paths(nodes.subrange(0, upto)).is_prefix_of(forest_paths(longer)));
    }
}

/// A tree that differs from a well-formed one only in what its file paths
/// read is well-formed.
pub proof fn lemma_skeleton_well_formed(a: &SourcemapNode, b: &SourcemapNode)
    requires
        same_skeleton(a, b),
        crate::navigation::well_formed(a),
    ensures
        crate::navigation::well_formed(b),
    decreases *a,
{
    assert forall|i: int| 0 <= i < b.children@.len() implies (#[trigger] b.children@[i]).name@
        != crate::resolver::parent_word() && crate::navigation::well_formed(&b.children@[i]) by {
        assert(same_skeleton(&a.children@[i], &b.children@[i]));
        lemma_skeleton_well_formed(&a.children@[i], &b.children@[i]);
    }
    assert forall|i: int, j: int|
        0 <= i < b.children@.len() && 0 <= j < b.children@.len() && (#[trigger] b.children@[i]).name@
            == (#[trigger] b.children@[j]).name@ implies i == j by {
        assert(same_skeleton(&a.children@[i], &b.children@[i]));
        assert(same_skeleton(&a.children@[j], &b.children@[j]));
    }
}

fn collect_into(node: &SourcemapNode, out: &mut Vec<String>)
    ensures
        texts(final(out)@) == texts(old(out)@) + tree_paths(node),
    decreases *node,
{
    let ghost before = texts(out@);
    let mut i: usize = 0;
    assert(texts(node.file_paths@).subrange(0, 0) =~= Seq::empty());
    assert(texts(out@) =~= before + Seq::empty());
    while i < node.file_paths.len()
        invariant
            0 <= i <= node.file_paths@.len(),
            texts(out@) == before + texts(node.file_paths@).subrange(0, i as int),
        decreases node.file_paths@.len() - i,
    {
        let ghost so_far = out@;
        let path = node.file_paths[i].clone();
        proof {
            lemma_texts_push(so_far, path);
            assert((before + texts(node.file_paths@).subrange(0, i as int)).push(path@) =~= before
                + texts(node.file_paths@).subrange(0, i + 1));
        }
        out.push(path);
        i += 1;
    }
    assert(texts(node.file_paths@).subrange(0, i as int) == texts(node.file_paths@));
    let ghost own = before + texts(node.file_paths@);
    let mut k: usize = 0;
    assert(node.children@.subrange(0, 0) =~= Seq::empty());
    assert(texts(out@) =~= own + forest_paths(node.children@.subrange(0, 0)));
    while k < node.children.len()
        invariant
            0 <= k <= node.children@.len(),
            texts(out@) == own + forest_paths(node.children@.subrange(0, k as int)),
        decreases node.children@.len() - k,
    {
        let ghost so_far = texts(out@);
        collect_into(&node.children[k], out);
        proof {
            let longer = node.children@.subrange(0, k + 1);
            assert(longer.drop_last() == node.children@.subrange(0, k as int));
            assert(longer.last() == node.children@[k as int]);
            assert(texts(out@) =~= own + forest_paths(longer));
        }
        k += 1;
    }
    assert(node.children@.subrange(0, k as int) == node.children@);
    assert(texts(out@) =~= before + tree_paths(node));
}

/// Lists every file path of the hierarchy, in the order in which
/// `mutate_sourcemap` takes their canonical forms.
pub fn file_paths_of(root: &SourcemapNode) -> (paths: Vec<String>)
    ensures
        texts(paths@) == tree_paths(root),
{
    let mut paths: Vec<String> = Vec::new();
    assert(texts(paths@) =~= Seq::empty());
    collect_into(root, &mut paths);
    assert(texts(paths@) =~= tree_paths(root));
    paths
}

fn install(node: &SourcemapNode, canonical: &Vec<String>, from: usize) -> (done: Option<
    (SourcemapNode, usize),
>)
    requires
        from <= canonical@.len(),
    ensures
        match done {
            Some((new, next)) => {
                &&& next == from + tree_paths(node).len()
                &&& next <= canonical@.len()
                &&& same_skeleton(node, &new)
                &&& tree_paths(&new) == texts(canonical@).subrange(from as int, next as int)
            },
            None => from + tree_paths(node).len() > canonical@.len(),
        },
    decreases *node,
{
    let ghost all = texts(canonical@);
    let mut next: usize = from;
    let mut file_paths: Vec<String> = Vec::new();
    let mut i: usize = 0;
    assert(texts(file_paths@) =~= all.subrange(from as int, next as int));
    while i < node.file_paths.len()
        invariant
            0 <= i <= node.file_paths@.len(),
            all == texts(canonical@),
            next == from + i,
            next <= canonical@.len(),
            file_paths@.len() == i,
            texts(file_paths@) == all.subrange(from as int, next as int),
        decreases node.file_paths@.len() - i,
    {
        if next >= canonical.len() {
            return None;
        }
        let ghost so_far = file_paths@;
        let path = canonical[next].clone();
        proof {
            lemma_texts_push(so_far, path);
            assert(all.subrange(from as int, next as int).push(path@) =~= all.subrange(
                from as int,
                next + 1,
            ));
        }
        file_paths.push(path);
        next += 1;
        i += 1;
    }
    let own = next;
    let mut children: Vec<SourcemapNode> = Vec::new();
    let mut k: usize = 0;
    assert(children@.subrange(0, 0) =~= children@);
    assert(node.children@.subrange(0, 0) =~= Seq::empty());
    assert(forest_paths(children@) =~= all.subrange(own as int, next as int));
    while k < node.children.len()
        invariant
            0 <= k <= node.children@.len(),
            all == texts(canonical@),
            own == from + node.file_paths@.len(),
            children@.len() == k,
            own <= next <= canonical@.len(),
            next == own + forest_paths(node.children@.subrange(0, k as int)).len(),
            forall|j: int|
                0 <= j < k ==> same_skeleton(&(#[trigger] node.children@[j]), &children@[j]),
            forest_paths(children@) == all.subrange(own as int, next as int),
        decreases node.children@.len() - k,
    {
        let ghost built = children@;
        let ghost longer = node.children@.subrange(0, k + 1);
        proof {
            assert(longer.drop_last() == node.children@.subrange(0, k as int));
            assert(longer.last() == node.children@[k as int]);
            lemma_forest_paths_prefix(node.children@, k + 1);
        }
        match install(&node.children[k], canonical, next) {
            None => {
                return None;
            },
            Some((child, after)) => {
                children.push(child);
                proof {
                    assert(children@.drop_last() == built);
                    assert(forest_paths(children@) =~= all.subrange(own as int, after as int));
                    assert forall|j: int| 0 <= j < k + 1 implies same_skeleton(
                        &(#[trigger] node.children@[j]),
                        &children@[j],
                    ) by {
                        if j < k {
                            assert(children@[j] == built[j]);
                        }
                    }
                }
                next = after;
            },
        }
        k += 1;
    }
    assert(node.children@.subrange(0, k as int) == node.children@);
    let new = SourcemapNode {
        name: node.name.clone(),
        class_name: node.class_name.clone(),
        file_paths,
        children,
    };
    assert(tree_paths(&new) =~= all.subrange(from as int, next as int));
    Some((new, next))
}

/// Replaces every file path of the hierarchy by its canonical form.
///
/// `canonical` holds the canonical form of each path of `file_paths_of`, in
/// that order. The hierarchy keeps its nodes, names and order; each path is
/// replaced once. Where `canonical` is not as long as the hierarchy has
/// paths, nothing changes and the result is `false`.
pub fn mutate_sourcemap(sourcemap: &mut SourcemapNode, canonical: &Vec<String>) -> (done: bool)
    ensures
        done == (canonical@.len() == tree_paths(old(sourcemap)).len()),
        done ==> same_skeleton(old(sourcemap), final(sourcemap)) && tree_paths(final(sourcemap))
            == texts(canonical@),
        !done ==> *final(sourcemap) == *old(sourcemap),
{
    match install(sourcemap, canonical, 0) {
        Some((new, next)) => {
            if next == canonical.len() {
                assert(texts(canonical@).subrange(0, next as int) == texts(canonical@));
                *sourcemap = new;
                true
            } else {
                false
            }
        },
        None => false,
    }
}

} // verus!
