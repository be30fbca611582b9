//! The mathematical model of a changed-file tree: what a tree is, and what
//! building, collapsing and laying one out mean.

use vstd::prelude::*;
use crate::text::{lex_lt, segments};

verus! {

/// One path segment's node: a file or a directory, with its children in
/// display order. The root is a directory without a name.
pub struct Tree {
    pub is_file: bool,
    pub children: Seq<(Seq<char>, Tree)>,
}

/// A node without children.
pub open spec fn leaf(is_file: bool) -> Tree {
    Tree { is_file, children: Seq::empty() }
}

/// The first index at or after `i` whose child is named `name`, or the
/// number of children when there is none.
pub open spec fn find_from(children: Seq<(Seq<char>, Tree)>, name: Seq<char>, i: int) -> int
    decreases children.len() - i,
{
    if i < 0 || i >= children.len() {
        children.len() as int
    } else if children[i].0 == name {
        i
    } else {
        find_from(children, name, i + 1)
    }
}

/// The first index at or after `i` whose child sorts strictly after `name`,
/// or the number of children when there is none: where a child of that name
/// is put.
pub open spec fn slot_from(children: Seq<(Seq<char>, Tree)>, name: Seq<char>, i: int) -> int
    decreases children.len() - i,
{
    if i < 0 || i >= children.len() {
        children.len() as int
    } else if lex_lt(name, children[i].0) {
        i
    } else {
        slot_from(children, name, i + 1)
    }
}

/// `children` with one more child, put before the first that sorts after it.
pub open spec fn place(children: Seq<(Seq<char>, Tree)>, name: Seq<char>, node: Tree) -> Seq<
    (Seq<char>, Tree),
> {
    children.insert(slot_from(children, name, 0), (name, node))
}

/// The tree after one path, given by its segments, has been entered: each
/// segment finds the child of its name or makes it, and only a node made by
/// the last segment is a file.
pub open spec fn insert_path(t: Tree, path: Seq<Seq<char>>) -> Tree
    decreases path.len(),
{
    if path.len() == 0 {
        t
    } else {
        let name = path[0];
        let rest = path.drop_first();
        let i = find_from(t.children, name, 0);
        if i < t.children.len() {
            Tree {
                is_file: t.is_file,
                children: t.children.update(i, (name, insert_path(t.children[i].1, rest))),
            }
        } else {
            Tree {
                is_file: t.is_file,
                children: place(t.children, name, insert_path(leaf(rest.len() == 0), rest)),
            }
        }
    }
}

/// The tree built from `paths`, entered one after the other into an empty
/// root.
pub open spec fn build(paths: Seq<Seq<char>>) -> Tree
    decreases paths.len(),
{
    if paths.len() == 0 {
        leaf(false)
    } else {
        insert_path(build(paths.drop_last()), segments(paths.last()))
    }
}

/// A directory whose only child is a directory: the two show as one line.
pub open spec fn is_chain(t: Tree) -> bool {
    !t.is_file && t.children.len() == 1 && !t.children[0].1.is_file
}

/// The name of a directory and of its only child, as one name.
pub open spec fn joined(dir: Seq<char>, child: Seq<char>) -> Seq<char> {
    dir + seq!['/'] + child
}

/// What stands for the child `name` once the subtree below it, `node`, has
/// been collapsed: a chain gives way to its only child, under the joined name.
pub open spec fn merged(name: Seq<char>, node: Tree) -> (Seq<char>, Tree) {
    if is_chain(node) {
        (joined(name, node.children[0].0), node.children[0].1)
    } else {
        (name, node)
    }
}

/// The tree with every chain of single directories below the root merged into
/// one node, bottom-up; the children of each node are in order of their new
/// names.
pub open spec fn collapse(t: Tree) -> Tree
    decreases t, 1int, 0int,
{
    Tree { is_file: t.is_file, children: collapse_first(t, t.children.len() as int) }
}

/// The collapsed children that the first `n` children of `t` give.
pub open spec fn collapse_first(t: Tree, n: int) -> Seq<(Seq<char>, Tree)>
    decreases t, 0int, n,
{
    if n <= 0 || n > t.children.len() {
        Seq::empty()
    } else {
        let child = t.children[n - 1];
        let entry = merged(child.0, collapse(child.1));
        place(collapse_first(t, n - 1), entry.0, entry.1)
    }
}

/// No node below `t` is a chain: nothing is left to collapse.
pub open spec fn is_collapsed(t: Tree) -> bool
    decreases t,
{
    forall|i: int|
        0 <= i < t.children.len() ==> !is_chain((#[trigger] t.children[i]).1) && is_collapsed(
            t.children[i].1,
        )
}

/// One line of the rendered tree, before any styling: the node's name and
/// kind, whether it is the last of its siblings, and for each ancestor below
/// the root, outermost first, whether siblings of it are still to come.
pub struct Row {
    pub guides: Seq<bool>,
    pub last: bool,
    pub name: Seq<char>,
    pub is_file: bool,
}

/// The rows of the nodes below `t`, depth-first, each node before its
/// children, siblings in their order.
pub open spec fn rows(t: Tree, guides: Seq<bool>) -> Seq<Row>
    decreases t, 1int, 0int,
{
    rows_first(t, guides, t.children.len() as int)
}

/// The rows that the first `n` children of `t` and their subtrees give.
pub open spec fn rows_first(t: Tree, guides: Seq<bool>, n: int) -> Seq<Row>
    decreases t, 0int, n,
{
    if n <= 0 || n > t.children.len() {
        Seq::empty()
    } else {
        let child = t.children[n - 1];
        let last = n == t.children.len();
        rows_first(t, guides, n - 1) + seq![
            Row { guides, last, name: child.0, is_file: child.1.is_file },
        ] + rows(child.1, guides.push(!last))
    }
}

} // verus!
