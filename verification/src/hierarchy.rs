//! The instance hierarchy: a rooted tree of named nodes, each optionally
//! backed by files on disk.

use vstd::prelude::*;

verus! {

/// One instance of the project hierarchy.
///
/// A node owns its children. A node's position is the chain of nodes that
/// leads from the root down to it; its parent is the element before it in
/// that chain, so no node stores a reference to its parent.
pub struct SourcemapNode {
    /// The instance name, by which a parent addresses this child.
    pub name: String,
    /// The instance type label. Informational only.
    pub class_name: String,
    /// The files that back this node, module sources and others alike.
    pub file_paths: Vec<String>,
    /// The children, in the order in which the hierarchy lists them.
    pub children: Vec<SourcemapNode>,
}

/// `child` is one of the children of `parent`.
pub open spec fn is_child(parent: &SourcemapNode, child: &SourcemapNode) -> bool {
    exists|j: int| 0 <= j < parent.children@.len() && #[trigger] parent.children@[j] == *child
}

/// The position of the first child of `parent` called `name`, or the number
/// of children if there is none.
pub open spec fn first_named(children: Seq<SourcemapNode>, name: Seq<char>) -> int
    decreases children.len(),
{
    if children.len() == 0 {
        0
    } else if children[0].name@ == name {
        0
    } else {
        1 + first_named(children.drop_first(), name)
    }
}

/// `first_named` is the least position that holds the name.
pub proof fn lemma_first_named(children: Seq<SourcemapNode>, name: Seq<char>)
    ensures
        0 <= first_named(children, name) <= children.len(),
        first_named(children, name) < children.len() ==> children[first_named(
            children,
            name,
        )].name@ == name,
        forall|j: int| 0 <= j < first_named(children, name) ==> (#[trigger] children[j]).name@ != name,
    decreases children.len(),
{
    if children.len() > 0 && children[0].name@ != name {
        let rest = children.drop_first();
        lemma_first_named(rest, name);
        assert forall|j: int| 0 <= j < first_named(children, name) implies (#[trigger] children[j]).name@
            != name by {
            if j > 0 {
                assert(children[j] == rest[j - 1]);
            }
        }
    }
}

impl SourcemapNode {
    /// The child that a descent by `name` reaches: the first one of that name.
    pub open spec fn child_named(&self, name: Seq<char>) -> Option<SourcemapNode> {
        let k = first_named(self.children@, name);
        if k < self.children@.len() {
            Some(self.children@[k])
        } else {
            None
        }
    }

    /// Whether `path` is one of the files that back this node.
    pub open spec fn holds_file(&self, path: Seq<char>) -> bool {
        exists|j: int| 0 <= j < self.file_paths@.len() && (#[trigger] self.file_paths@[j])@ == path
    }

    /// Finds the child called `name`. Where several children share the name,
    /// the first one is found.
    pub fn find_child(&self, name: String) -> (found: Option<&SourcemapNode>)
        ensures
            found.is_some() == self.child_named(name@).is_some(),
            found.is_some() ==> *found.unwrap() == self.child_named(name@).unwrap(),
            found.is_some() ==> is_child(self, found.unwrap()) && found.unwrap().name@ == name@,
            found.is_none() ==> forall|j: int|
                0 <= j < self.children@.len() ==> (#[trigger] self.children@[j]).name@ != name@,
    {
        let mut i: usize = 0;
        while i < self.children.len()
            invariant
                0 <= i <= self.children@.len(),
                forall|j: int| 0 <= j < i ==> (#[trigger] self.children@[j]).name@ != name@,
            decreases self.children@.len() - i,
        {
            if self.children[i].name == name {
                proof {
                    lemma_first_named(self.children@, name@);
                }
                return Some(&self.children[i]);
            }
            i += 1;
        }
        proof {
            lemma_first_named(self.children@, name@);
        }
        None
    }

    /// Whether `path` is among this node's files.
    pub fn has_file(&self, path: &String) -> (held: bool)
        ensures
            held == self.holds_file(path@),
    {
        let mut i: usize = 0;
        while i < self.file_paths.len()
            invariant
                0 <= i <= self.file_paths@.len(),
                forall|j: int| 0 <= j < i ==> (#[trigger] self.file_paths@[j])@ != path@,
            decreases self.file_paths@.len() - i,
        {
            if self.file_paths[i] == *path {
                return true;
            }
            i += 1;
        }
        false
    }
}

} // verus!
