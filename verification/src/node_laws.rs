//! What stands where in a built tree: a path that was entered is there and
//! entering it again changes nothing; and files have no children, in the
//! tree of a list in which no path runs through another one's file.

use vstd::prelude::*;
use crate::build_laws::{
    entry_point, is_proper_prefix, lemma_build_well_formed, lemma_child_after_path, prefix_free,
};
use crate::order::lemma_lex_lt_irreflexive;
use crate::text::{lex_lt, segments};
use crate::tree_laws::{child_of, lemma_find, lemma_slot, well_formed};
use crate::tree_model::{
    build, collapse, collapse_first, find_from, insert_path, is_chain, leaf, merged, slot_from,
    Tree,
};

verus! {

/// No file of the tree has children.
pub open spec fn files_are_leaves(t: Tree) -> bool
    decreases t,
{
    forall|i: int|
        0 <= i < t.children.len() ==> {
            let node = (#[trigger] t.children[i]).1;
            (node.is_file ==> node.children.len() == 0) && files_are_leaves(node)
        }
}

/// The node that a path of names leads to from `t`, if the tree holds one.
pub open spec fn node_at(t: Tree, path: Seq<Seq<char>>) -> Option<Tree>
    decreases path.len(),
{
    if path.len() == 0 {
        Some(t)
    } else {
        match child_of(t.children, path[0]) {
            Some(node) => node_at(node, path.drop_first()),
            None => None,
        }
    }
}

proof fn lemma_insert_keeps_kind(t: Tree, path: Seq<Seq<char>>)
    ensures
        insert_path(t, path).is_file == t.is_file,
    decreases path.len(),
{
}

proof fn lemma_node_at_leaf(is_file: bool, at: Seq<Seq<char>>)
    requires
        at.len() > 0,
    ensures
        node_at(leaf(is_file), at) is None,
{
}

/// What the node at a path is after another path was entered: below the
/// entered path's first name the node in the subtree that the rest was
/// entered into, elsewhere the node that was there.
proof fn lemma_node_after_path(t: Tree, entered: Seq<Seq<char>>, at: Seq<Seq<char>>)
    requires
        entered.len() > 0,
        at.len() > 0,
    ensures
        node_at(insert_path(t, entered), at) == if at[0] == entered[0] {
            node_at(
                insert_path(entry_point(t, entered), entered.drop_first()),
                at.drop_first(),
            )
        } else {
            node_at(t, at)
        },
        at[0] == entered[0] && child_of(t.children, at[0]) is Some ==> node_at(t, at) == node_at(
            entry_point(t, entered),
            at.drop_first(),
        ),
{
    lemma_child_after_path(t, entered, at[0]);
}

/// A file of the tree after a path was entered is the node at which the path
/// ends, or was a file before.
proof fn lemma_file_after_path(t: Tree, entered: Seq<Seq<char>>, at: Seq<Seq<char>>)
    requires
        entered.len() > 0,
        at.len() > 0,
        node_at(insert_path(t, entered), at) is Some,
        node_at(insert_path(t, entered), at).unwrap().is_file,
    ensures
        at == entered || (node_at(t, at) is Some && node_at(t, at).unwrap().is_file),
    decreases at.len(),
{
    lemma_node_after_path(t, entered, at);
    if at[0] == entered[0] {
        let start = entry_point(t, entered);
        let rest = entered.drop_first();
        let below = at.drop_first();
        let fresh = child_of(t.children, at[0]) is None;
        lemma_insert_keeps_kind(start, rest);
        if below.len() == 0 {
            assert(node_at(insert_path(start, rest), below) == Some(insert_path(start, rest)));
            assert(node_at(start, below) == Some(start));
            if fresh {
                assert(entered.len() == 1);
                assert(at =~= entered);
            }
        } else if rest.len() > 0 {
            lemma_file_after_path(start, rest, below);
            if below == rest {
                assert(at =~= seq![at[0]] + below);
                assert(entered =~= seq![entered[0]] + rest);
            } else if fresh {
                lemma_node_at_leaf(entered.len() == 1, below);
            }
        } else {
            assert(insert_path(start, rest) == start);
            if fresh {
                lemma_node_at_leaf(entered.len() == 1, below);
            }
        }
    }
}

/// A node with children in the tree after a path was entered is one that the
/// path runs through, or had children before.
proof fn lemma_parent_after_path(t: Tree, entered: Seq<Seq<char>>, at: Seq<Seq<char>>)
    requires
        entered.len() > 0,
        at.len() > 0,
        node_at(insert_path(t, entered), at) is Some,
        node_at(insert_path(t, entered), at).unwrap().children.len() > 0,
    ensures
        is_proper_prefix(at, entered) || (node_at(t, at) is Some && node_at(
            t,
            at,
        ).unwrap().children.len() > 0),
    decreases at.len(),
{
    lemma_node_after_path(t, entered, at);
    if at[0] == entered[0] {
        let start = entry_point(t, entered);
        let rest = entered.drop_first();
        let below = at.drop_first();
        let fresh = child_of(t.children, at[0]) is None;
        if below.len() == 0 {
            assert(node_at(insert_path(start, rest), below) == Some(insert_path(start, rest)));
            assert(node_at(start, below) == Some(start));
            if rest.len() > 0 {
                assert(entered.take(1) =~= at);
            } else {
                assert(insert_path(start, rest) == start);
            }
        } else if rest.len() > 0 {
            lemma_parent_after_path(start, rest, below);
            if is_proper_prefix(below, rest) {
                assert(entered.take(at.len() as int) =~= seq![entered[0]] + rest.take(
                    below.len() as int,
                ));
                assert(at =~= seq![at[0]] + below);
            } else if fresh {
                lemma_node_at_leaf(entered.len() == 1, below);
            }
        } else {
            assert(insert_path(start, rest) == start);
            if fresh {
                lemma_node_at_leaf(entered.len() == 1, below);
            }
        }
    }
}

/// Entering a path that the tree holds changes nothing.
pub proof fn lemma_insert_held(t: Tree, path: Seq<Seq<char>>)
    requires
        node_at(t, path) is Some,
    ensures
        insert_path(t, path) == t,
    decreases path.len(),
{
    if path.len() > 0 {
        let i = find_from(t.children, path[0], 0);
        lemma_find(t.children, path[0], 0);
        lemma_insert_held(t.children[i].1, path.drop_first());
        assert(insert_path(t, path).children =~= t.children);
    }
}

/// A path that was entered is held.
pub proof fn lemma_entered_is_held(t: Tree, path: Seq<Seq<char>>)
    ensures
        node_at(insert_path(t, path), path) is Some,
    decreases path.len(),
{
    if path.len() > 0 {
        lemma_node_after_path(t, path, path);
        lemma_entered_is_held(entry_point(t, path), path.drop_first());
    }
}

/// A path that the tree holds is held after any path was entered.
pub proof fn lemma_held_stays(t: Tree, entered: Seq<Seq<char>>, path: Seq<Seq<char>>)
    requires
        node_at(t, path) is Some,
    ensures
        node_at(insert_path(t, entered), path) is Some,
    decreases path.len(),
{
    if path.len() > 0 && entered.len() > 0 {
        lemma_node_after_path(t, entered, path);
        if path[0] == entered[0] {
            lemma_held_stays(entry_point(t, entered), entered.drop_first(), path.drop_first());
        }
    }
}

/// A tree built from paths holds each of them.
pub proof fn lemma_built_holds(paths: Seq<Seq<char>>, i: int)
    requires
        0 <= i < paths.len(),
    ensures
        node_at(build(paths), segments(paths[i])) is Some,
    decreases paths.len(),
{
    let head = paths.drop_last();
    if i == paths.len() - 1 {
        lemma_entered_is_held(build(head), segments(paths[i]));
    } else {
        lemma_built_holds(head, i);
        assert(head[i] == paths[i]);
        lemma_held_stays(build(head), segments(paths.last()), segments(paths[i]));
    }
}

/// A path that is entered a second time changes nothing: the list with one of
/// its paths once more at its end gives the same tree.
pub proof fn lemma_entered_twice(paths: Seq<Seq<char>>, i: int)
    requires
        0 <= i < paths.len(),
    ensures
        build(paths.push(paths[i])) == build(paths),
{
    let longer = paths.push(paths[i]);
    assert(longer.drop_last() =~= paths);
    lemma_built_holds(paths, i);
    lemma_insert_held(build(paths), segments(paths[i]));
}

/// In a tree built from paths, a file stands where one of the paths ends, and
/// a node with children stands where one of the paths runs through.
pub proof fn lemma_built_nodes(paths: Seq<Seq<char>>, at: Seq<Seq<char>>)
    requires
        at.len() > 0,
        node_at(build(paths), at) is Some,
    ensures
        node_at(build(paths), at).unwrap().is_file ==> exists|i: int|
            0 <= i < paths.len() && segments(#[trigger] paths[i]) == at,
        node_at(build(paths), at).unwrap().children.len() > 0 ==> exists|i: int|
            0 <= i < paths.len() && is_proper_prefix(at, segments(#[trigger] paths[i])),
    decreases paths.len(),
{
    if paths.len() > 0 {
        let head = paths.drop_last();
        let last = segments(paths.last());
        crate::build_laws::lemma_segments_are_plain(paths.last());
        let node = node_at(build(paths), at).unwrap();
        if node.is_file {
            lemma_file_after_path(build(head), last, at);
            if at == last {
                assert(segments(paths[paths.len() - 1]) == at);
            } else {
                lemma_built_nodes(head, at);
                let i = choose|i: int| 0 <= i < head.len() && segments(#[trigger] head[i]) == at;
                assert(segments(paths[i]) == at);
            }
        }
        if node.children.len() > 0 {
            lemma_parent_after_path(build(head), last, at);
            if is_proper_prefix(at, last) {
                assert(is_proper_prefix(at, segments(paths[paths.len() - 1])));
            } else {
                lemma_built_nodes(head, at);
                let i = choose|i: int|
                    0 <= i < head.len() && is_proper_prefix(at, segments(#[trigger] head[i]));
                assert(is_proper_prefix(at, segments(paths[i])));
            }
        }
    }
}

proof fn lemma_leaves_from_nodes(t: Tree)
    requires
        well_formed(t),
        forall|at: Seq<Seq<char>>|
            at.len() > 0 && #[trigger] node_at(t, at) is Some ==> !(node_at(t, at).unwrap().is_file
                && node_at(t, at).unwrap().children.len() > 0),
    ensures
        files_are_leaves(t),
    decreases t,
{
    assert forall|i: int| 0 <= i < t.children.len() implies {
        let node = (#[trigger] t.children[i]).1;
        (node.is_file ==> node.children.len() == 0) && files_are_leaves(node)
    } by {
        let name = t.children[i].0;
        let node = t.children[i].1;
        lemma_find(t.children, name, 0);
        let found = find_from(t.children, name, 0);
        if found < i {
            assert(lex_lt(t.children[found].0, t.children[i].0));
            lemma_lex_lt_irreflexive(name);
        }
        assert(child_of(t.children, name) == Some(node));
        let one = seq![name];
        assert(one.drop_first() =~= Seq::<Seq<char>>::empty());
        assert(node_at(node, one.drop_first()) == Some(node));
        assert(node_at(t, one) == Some(node));
        assert forall|at: Seq<Seq<char>>|
            at.len() > 0 && #[trigger] node_at(node, at) is Some implies !(node_at(
            node,
            at,
        ).unwrap().is_file && node_at(node, at).unwrap().children.len() > 0) by {
            let longer = seq![name] + at;
            assert(longer.drop_first() =~= at);
            assert(node_at(t, longer) == node_at(node, at));
        }
        lemma_leaves_from_nodes(node);
    }
}

proof fn lemma_leaves_first(t: Tree, n: int)
    requires
        files_are_leaves(t),
        0 <= n <= t.children.len(),
    ensures
        collapse_first(t, n).len() == n,
        forall|k: int|
            0 <= k < n ==> {
                let node = (#[trigger] collapse_first(t, n)[k]).1;
                (node.is_file ==> node.children.len() == 0) && files_are_leaves(node)
            },
    decreases t, 0int, n,
{
    if n > 0 {
        lemma_leaves_first(t, n - 1);
        let child = t.children[n - 1];
        lemma_collapse_keeps_leaves(child.1);
        lemma_leaves_first(child.1, child.1.children.len() as int);
        let below = collapse(child.1);
        let entry = merged(child.0, below);
        if is_chain(below) {
            assert(entry.1 == below.children[0].1);
        }
        let before = collapse_first(t, n - 1);
        lemma_slot(before, entry.0, 0);
        let slot = slot_from(before, entry.0, 0);
        let after = collapse_first(t, n);
        assert(after == before.insert(slot, entry));
        assert forall|k: int| 0 <= k < n implies {
            let node = (#[trigger] after[k]).1;
            (node.is_file ==> node.children.len() == 0) && files_are_leaves(node)
        } by {
            if k < slot {
                assert(after[k] == before[k]);
            } else if k > slot {
                assert(after[k] == before[k - 1]);
            }
        }
    }
}

/// Collapsing gives no file a child.
pub proof fn lemma_collapse_keeps_leaves(t: Tree)
    requires
        files_are_leaves(t),
    ensures
        files_are_leaves(collapse(t)),
    decreases t, 1int, 0int,
{
    lemma_leaves_first(t, t.children.len() as int);
}

/// In the tree of a list of paths of which none runs through the node at
/// which another one ends, no file has children; nor has one after
/// collapsing.
pub proof fn lemma_files_are_leaves(paths: Seq<Seq<char>>)
    requires
        prefix_free(paths),
    ensures
        files_are_leaves(build(paths)),
        files_are_leaves(collapse(build(paths))),
{
    let t = build(paths);
    lemma_build_well_formed(paths);
    assert forall|at: Seq<Seq<char>>| at.len() > 0 && #[trigger] node_at(t, at) is Some implies 
        !(node_at(t, at).unwrap().is_file && node_at(t, at).unwrap().children.len() > 0) by {
        lemma_built_nodes(paths, at);
        let node = node_at(t, at).unwrap();
        if node.is_file && node.children.len() > 0 {
            let i = choose|i: int| 0 <= i < paths.len() && segments(#[trigger] paths[i]) == at;
            let j = choose|j: int|
                0 <= j < paths.len() && is_proper_prefix(at, segments(#[trigger] paths[j]));
            assert(is_proper_prefix(segments(paths[i]), segments(paths[j])));
        }
    }
    lemma_leaves_from_nodes(t);
    lemma_collapse_keeps_leaves(t);
}

} // verus!
