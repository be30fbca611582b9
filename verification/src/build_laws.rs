//! Building: a built tree keeps its names in strict order and apart, also
//! after collapsing; and the order in which the paths are entered does not
//! matter, for lists in which no path runs through another one's file.

use vstd::prelude::*;
use crate::collapse_laws::{lemma_collapse_keeps_names_apart, lemma_collapse_shape};
use crate::order::{lemma_lex_lt_asymmetric, lemma_lex_lt_irreflexive};
use crate::text::{lex_lt, segments};
use crate::tree_laws::{
    child_of, head, is_deep_keyed, is_sorted, lemma_find, lemma_head_len, lemma_place_sorted,
    lemma_slot, well_formed,
};
use crate::tree_model::{
    build, collapse, find_from, insert_path, is_collapsed, leaf, slot_from, Tree,
};

verus! {

/// Entering a path keeps every node's children in strict order.
pub proof fn lemma_insert_well_formed(t: Tree, path: Seq<Seq<char>>)
    requires
        well_formed(t),
    ensures
        well_formed(insert_path(t, path)),
    decreases path.len(),
{
    if path.len() > 0 {
        let name = path[0];
        let rest = path.drop_first();
        let i = find_from(t.children, name, 0);
        lemma_find(t.children, name, 0);
        let after = insert_path(t, path);
        if i < t.children.len() {
            lemma_insert_well_formed(t.children[i].1, rest);
            assert forall|a: int, b: int| 0 <= a < b < after.children.len() implies lex_lt(
                (#[trigger] after.children[a]).0,
                (#[trigger] after.children[b]).0,
            ) by {
                assert(after.children[a].0 == t.children[a].0);
                assert(after.children[b].0 == t.children[b].0);
            }
            assert forall|k: int| 0 <= k < after.children.len() implies well_formed(
                (#[trigger] after.children[k]).1,
            ) by {
                if k != i {
                    assert(after.children[k] == t.children[k]);
                }
            }
        } else {
            let fresh = insert_path(leaf(rest.len() == 0), rest);
            lemma_insert_well_formed(leaf(rest.len() == 0), rest);
            lemma_place_sorted(t.children, name, fresh);
            lemma_slot(t.children, name, 0);
            let slot = slot_from(t.children, name, 0);
            assert forall|k: int| 0 <= k < after.children.len() implies well_formed(
                (#[trigger] after.children[k]).1,
            ) by {
                if k < slot {
                    assert(after.children[k] == t.children[k]);
                } else if k > slot {
                    assert(after.children[k] == t.children[k - 1]);
                }
            }
        }
    }
}

/// A tree built from paths has every node's children in strict order.
pub proof fn lemma_build_well_formed(paths: Seq<Seq<char>>)
    ensures
        well_formed(build(paths)),
    decreases paths.len(),
{
    if paths.len() > 0 {
        lemma_build_well_formed(paths.drop_last());
        lemma_insert_well_formed(build(paths.drop_last()), segments(paths.last()));
    }
}

proof fn lemma_find_same_names(
    a: Seq<(Seq<char>, Tree)>,
    b: Seq<(Seq<char>, Tree)>,
    name: Seq<char>,
    i: int,
)
    requires
        a.len() == b.len(),
        forall|k: int| 0 <= k < a.len() ==> (#[trigger] a[k]).0 == b[k].0,
        0 <= i <= a.len(),
    ensures
        find_from(a, name, i) == find_from(b, name, i),
    decreases a.len() - i,
{
    if i < a.len() {
        assert(a[i].0 == b[i].0);
        if a[i].0 != name {
            lemma_find_same_names(a, b, name, i + 1);
        }
    }
}

/// After a child has been replaced by one of the same name, that name finds
/// the new child and every other name finds what it found before.
proof fn lemma_child_after_update(
    children: Seq<(Seq<char>, Tree)>,
    i: int,
    node: Tree,
    name: Seq<char>,
)
    requires
        0 <= i < children.len(),
        i == find_from(children, children[i].0, 0),
    ensures
        child_of(children.update(i, (children[i].0, node)), name) == if name == children[i].0 {
            Some(node)
        } else {
            child_of(children, name)
        },
{
    let after = children.update(i, (children[i].0, node));
    assert forall|k: int| 0 <= k < children.len() implies (#[trigger] children[k]).0
        == after[k].0 by {}
    lemma_find_same_names(children, after, name, 0);
    lemma_find(children, name, 0);
    let r = find_from(children, name, 0);
    if r < children.len() && r != i {
        assert(after[r] == children[r]);
        if name == children[i].0 {
            lemma_find(children, children[i].0, 0);
        }
    }
}

/// After a child of a new name has been put in, that name finds the new
/// child and every other name finds what it found before.
proof fn lemma_child_after_insert(
    children: Seq<(Seq<char>, Tree)>,
    slot: int,
    fresh: Seq<char>,
    node: Tree,
    name: Seq<char>,
)
    requires
        0 <= slot <= children.len(),
        find_from(children, fresh, 0) == children.len(),
    ensures
        child_of(children.insert(slot, (fresh, node)), name) == if name == fresh {
            Some(node)
        } else {
            child_of(children, name)
        },
{
    let after = children.insert(slot, (fresh, node));
    lemma_find(children, name, 0);
    lemma_find(children, fresh, 0);
    lemma_find(after, name, 0);
    let r = find_from(children, name, 0);
    let q = find_from(after, name, 0);
    assert(after[slot] == (fresh, node));
    assert forall|k: int| 0 <= k < slot implies (#[trigger] after[k]) == children[k] by {}
    assert forall|k: int| slot < k < after.len() implies (#[trigger] after[k]) == children[k
        - 1] by {}
    if name == fresh {
        if q < slot {
            assert(after[q] == children[q]);
            assert(children[q].0 != fresh);
        } else if q > slot {
            assert(after[slot].0 != name);
        }
    } else {
        if q < after.len() {
            assert(q != slot);
            let back = if q < slot {
                q
            } else {
                q - 1
            };
            assert(after[q] == children[back]);
            if r > back {
                assert(children[back].0 != name);
            }
            if r < back {
                let forth = if r < slot {
                    r
                } else {
                    r + 1
                };
                assert(after[forth] == children[r]);
                assert(after[forth].0 != name);
            }
        } else {
            if r < children.len() {
                let forth = if r < slot {
                    r
                } else {
                    r + 1
                };
                assert(after[forth] == children[r]);
                assert(after[forth].0 != name);
            }
        }
    }
}

/// The node that a path's first segment starts from: the child of that name,
/// or a new node, which is a file where the path ends with it.
pub open spec fn entry_point(t: Tree, path: Seq<Seq<char>>) -> Tree {
    match child_of(t.children, path[0]) {
        Some(node) => node,
        None => leaf(path.len() == 1),
    }
}

/// After a path has been entered, its first segment finds the node that the
/// rest of the path was entered into, and every other name finds what it
/// found before.
pub proof fn lemma_child_after_path(t: Tree, path: Seq<Seq<char>>, name: Seq<char>)
    requires
        path.len() > 0,
    ensures
        insert_path(t, path).is_file == t.is_file,
        child_of(insert_path(t, path).children, name) == if name == path[0] {
            Some(insert_path(entry_point(t, path), path.drop_first()))
        } else {
            child_of(t.children, name)
        },
{
    let first = path[0];
    let rest = path.drop_first();
    let i = find_from(t.children, first, 0);
    lemma_find(t.children, first, 0);
    if i < t.children.len() {
        lemma_child_after_update(t.children, i, insert_path(t.children[i].1, rest), name);
    } else {
        lemma_slot(t.children, first, 0);
        lemma_child_after_insert(
            t.children,
            slot_from(t.children, first, 0),
            first,
            insert_path(leaf(rest.len() == 0), rest),
            name,
        );
    }
}

proof fn lemma_find_shift(children: Seq<(Seq<char>, Tree)>, name: Seq<char>, i: int)
    requires
        children.len() > 0,
        0 <= i < children.len(),
    ensures
        find_from(children.drop_first(), name, i) == find_from(children, name, i + 1) - 1,
    decreases children.len() - i,
{
    let tail = children.drop_first();
    if i < tail.len() {
        assert(tail[i] == children[i + 1]);
        if tail[i].0 != name {
            lemma_find_shift(children, name, i + 1);
        }
    }
}

/// Below the first of children in strict order, the first's name finds
/// nothing and every other name finds what it finds among them all.
proof fn lemma_child_of_tail(children: Seq<(Seq<char>, Tree)>, name: Seq<char>)
    requires
        children.len() > 0,
        is_sorted(children),
    ensures
        child_of(children.drop_first(), name) == if name == children[0].0 {
            None
        } else {
            child_of(children, name)
        },
{
    let tail = children.drop_first();
    lemma_find_shift(children, name, 0);
    lemma_find(tail, name, 0);
    let r = find_from(tail, name, 0);
    if name == children[0].0 {
        if r < tail.len() {
            assert(tail[r] == children[r + 1]);
            assert(lex_lt(children[0].0, children[r + 1].0));
            lemma_lex_lt_irreflexive(name);
        }
    } else {
        if r < tail.len() {
            assert(tail[r] == children[r + 1]);
        }
    }
}

proof fn lemma_sorted_tail(children: Seq<(Seq<char>, Tree)>)
    requires
        children.len() > 0,
        is_sorted(children),
    ensures
        is_sorted(children.drop_first()),
{
    let tail = children.drop_first();
    assert forall|i: int, j: int| 0 <= i < j < tail.len() implies lex_lt(
        (#[trigger] tail[i]).0,
        (#[trigger] tail[j]).0,
    ) by {
        assert(tail[i] == children[i + 1]);
        assert(tail[j] == children[j + 1]);
    }
}

/// Children in strict order are the same when every name finds the same
/// child in both.
pub proof fn lemma_same_children(a: Seq<(Seq<char>, Tree)>, b: Seq<(Seq<char>, Tree)>)
    requires
        is_sorted(a),
        is_sorted(b),
        forall|name: Seq<char>| #[trigger] child_of(a, name) == child_of(b, name),
    ensures
        a == b,
    decreases a.len(),
{
    if a.len() == 0 {
        if b.len() > 0 {
            assert(child_of(a, b[0].0) == child_of(b, b[0].0));
        }
        assert(a =~= b);
    } else {
        let first = a[0].0;
        assert(child_of(a, first) == child_of(b, first));
        lemma_find(b, first, 0);
        let j = find_from(b, first, 0);
        assert(j < b.len());
        let other = b[0].0;
        assert(child_of(a, other) == child_of(b, other));
        lemma_find(a, other, 0);
        let i = find_from(a, other, 0);
        assert(i < a.len());
        if j > 0 {
            assert(lex_lt(b[0].0, b[j].0));
            if i > 0 {
                assert(lex_lt(a[0].0, a[i].0));
                lemma_lex_lt_asymmetric(other, first);
            } else {
                lemma_lex_lt_irreflexive(first);
            }
        }
        assert(a[0] == b[0]);
        lemma_sorted_tail(a);
        lemma_sorted_tail(b);
        assert forall|name: Seq<char>| #[trigger]
            child_of(a.drop_first(), name) == child_of(b.drop_first(), name) by {
            lemma_child_of_tail(a, name);
            lemma_child_of_tail(b, name);
            assert(child_of(a, name) == child_of(b, name));
        }
        lemma_same_children(a.drop_first(), b.drop_first());
        assert(a =~= seq![a[0]] + a.drop_first());
        assert(b =~= seq![b[0]] + b.drop_first());
    }
}

/// The name holds no `/`.
pub open spec fn has_no_slash(name: Seq<char>) -> bool {
    forall|i: int| 0 <= i < name.len() ==> name[i] != '/'
}

/// No name in the tree holds a `/`: each is one segment of a path.
pub open spec fn has_plain_names(t: Tree) -> bool
    decreases t,
{
    forall|i: int|
        0 <= i < t.children.len() ==> has_no_slash((#[trigger] t.children[i]).0)
            && has_plain_names(t.children[i].1)
}

/// A path has at least one segment, and no segment holds a `/`.
pub proof fn lemma_segments_are_plain(path: Seq<char>)
    ensures
        segments(path).len() >= 1,
        forall|k: int| 0 <= k < segments(path).len() ==> has_no_slash(#[trigger] segments(path)[k]),
    decreases path.len(),
{
    if path.len() > 0 {
        lemma_segments_are_plain(path.drop_last());
        let before = segments(path.drop_last());
        let all = segments(path);
        assert forall|k: int| 0 <= k < all.len() implies has_no_slash(#[trigger] all[k]) by {
            if k < before.len() - 1 {
                assert(all[k] == before[k]);
            } else if path.last() != '/' {
                assert(has_no_slash(before[before.len() - 1]));
            } else if k < before.len() {
                assert(all[k] == before[k]);
            }
        }
    }
}

proof fn lemma_insert_keeps_plain(t: Tree, path: Seq<Seq<char>>)
    requires
        has_plain_names(t),
        forall|k: int| 0 <= k < path.len() ==> has_no_slash(#[trigger] path[k]),
    ensures
        has_plain_names(insert_path(t, path)),
    decreases path.len(),
{
    if path.len() > 0 {
        let name = path[0];
        let rest = path.drop_first();
        assert forall|k: int| 0 <= k < rest.len() implies has_no_slash(#[trigger] rest[k]) by {
            assert(rest[k] == path[k + 1]);
        }
        let i = find_from(t.children, name, 0);
        lemma_find(t.children, name, 0);
        let after = insert_path(t, path);
        if i < t.children.len() {
            lemma_insert_keeps_plain(t.children[i].1, rest);
            assert forall|k: int| 0 <= k < after.children.len() implies has_no_slash(
                (#[trigger] after.children[k]).0,
            ) && has_plain_names(after.children[k].1) by {
                if k != i {
                    assert(after.children[k] == t.children[k]);
                }
            }
        } else {
            lemma_insert_keeps_plain(leaf(rest.len() == 0), rest);
            lemma_slot(t.children, name, 0);
            let slot = slot_from(t.children, name, 0);
            assert forall|k: int| 0 <= k < after.children.len() implies has_no_slash(
                (#[trigger] after.children[k]).0,
            ) && has_plain_names(after.children[k].1) by {
                if k < slot {
                    assert(after.children[k] == t.children[k]);
                } else if k > slot {
                    assert(after.children[k] == t.children[k - 1]);
                }
            }
        }
    }
}

/// In a tree built from paths every name is one segment.
pub proof fn lemma_build_has_plain_names(paths: Seq<Seq<char>>)
    ensures
        has_plain_names(build(paths)),
    decreases paths.len(),
{
    if paths.len() > 0 {
        lemma_build_has_plain_names(paths.drop_last());
        lemma_segments_are_plain(paths.last());
        lemma_insert_keeps_plain(build(paths.drop_last()), segments(paths.last()));
    }
}

proof fn lemma_plain_head(name: Seq<char>)
    requires
        has_no_slash(name),
    ensures
        head(name) == name,
{
    lemma_head_len(name);
    assert(name.take(name.len() as int) =~= name);
}

/// Where every name is one segment and no name occurs twice among the
/// children of a node, no two children begin with the same segment.
pub proof fn lemma_plain_is_keyed(t: Tree)
    requires
        has_plain_names(t),
        well_formed(t),
    ensures
        is_deep_keyed(t),
    decreases t,
{
    assert forall|i: int, j: int| 0 <= i < j < t.children.len() implies head(
        (#[trigger] t.children[i]).0,
    ) != head((#[trigger] t.children[j]).0) by {
        lemma_plain_head(t.children[i].0);
        lemma_plain_head(t.children[j].0);
        assert(lex_lt(t.children[i].0, t.children[j].0));
        lemma_lex_lt_irreflexive(t.children[i].0);
    }
    assert forall|i: int| 0 <= i < t.children.len() implies is_deep_keyed(
        (#[trigger] t.children[i]).1,
    ) by {
        lemma_plain_is_keyed(t.children[i].1);
    }
}

/// The collapsed tree of a list of paths is still a tree of named children:
/// at every node the children are in strict order of name, so that no name
/// occurs twice, and nothing is left to collapse.
pub proof fn lemma_collapsed_build_is_well_formed(paths: Seq<Seq<char>>)
    ensures
        well_formed(collapse(build(paths))),
        is_collapsed(collapse(build(paths))),
{
    lemma_build_well_formed(paths);
    lemma_build_has_plain_names(paths);
    lemma_plain_is_keyed(build(paths));
    lemma_collapse_keeps_names_apart(build(paths));
    lemma_collapse_shape(build(paths));
}

/// `p` is the beginning of `q` and shorter: `q` runs through the node at
/// which `p` ends.
pub open spec fn is_proper_prefix(p: Seq<Seq<char>>, q: Seq<Seq<char>>) -> bool {
    p.len() < q.len() && q.take(p.len() as int) == p
}

/// Neither path runs through the node at which the other ends.
pub open spec fn agree(p: Seq<Seq<char>>, q: Seq<Seq<char>>) -> bool {
    !is_proper_prefix(p, q) && !is_proper_prefix(q, p)
}

proof fn lemma_agree_rest(p: Seq<Seq<char>>, q: Seq<Seq<char>>)
    requires
        p.len() > 0,
        q.len() > 0,
        p[0] == q[0],
        agree(p, q),
    ensures
        agree(p.drop_first(), q.drop_first()),
        (p.len() == 1) == (q.len() == 1),
{
    let pr = p.drop_first();
    let qr = q.drop_first();
    if is_proper_prefix(pr, qr) {
        assert(q.take(p.len() as int) =~= seq![q[0]] + qr.take(pr.len() as int));
        assert(p =~= seq![p[0]] + pr);
    }
    if is_proper_prefix(qr, pr) {
        assert(p.take(q.len() as int) =~= seq![p[0]] + pr.take(qr.len() as int));
        assert(q =~= seq![q[0]] + qr);
    }
    if p.len() == 1 && q.len() > 1 {
        assert(q.take(1) =~= p);
    }
    if q.len() == 1 && p.len() > 1 {
        assert(p.take(1) =~= q);
    }
}

/// Two paths of which neither runs through the other's end can be entered in
/// either order.
pub proof fn lemma_insert_commutes(t: Tree, p: Seq<Seq<char>>, q: Seq<Seq<char>>)
    requires
        well_formed(t),
        agree(p, q),
    ensures
        insert_path(insert_path(t, p), q) == insert_path(insert_path(t, q), p),
    decreases p.len() + q.len(),
{
    if p.len() > 0 && q.len() > 0 {
        let tp = insert_path(t, p);
        let tq = insert_path(t, q);
        let left = insert_path(tp, q);
        let right = insert_path(tq, p);
        lemma_insert_well_formed(t, p);
        lemma_insert_well_formed(t, q);
        lemma_insert_well_formed(tp, q);
        lemma_insert_well_formed(tq, p);
        assert forall|name: Seq<char>| #[trigger]
            child_of(left.children, name) == child_of(right.children, name) by {
            lemma_child_after_path(tp, q, name);
            lemma_child_after_path(tq, p, name);
            lemma_child_after_path(t, p, name);
            lemma_child_after_path(t, q, name);
            if p[0] == q[0] && name == p[0] {
                lemma_agree_rest(p, q);
                let start = entry_point(t, p);
                assert(start == entry_point(t, q));
                lemma_find(t.children, name, 0);
                assert(well_formed(start));
                lemma_insert_commutes(start, p.drop_first(), q.drop_first());
            }
        }
        lemma_child_after_path(tp, q, p[0]);
        lemma_child_after_path(tq, p, p[0]);
        lemma_child_after_path(t, p, p[0]);
        lemma_child_after_path(t, q, p[0]);
        lemma_same_children(left.children, right.children);
    }
}

/// No path of the list runs through the node at which another one ends: no
/// name is asked to be a file and a directory at once.
pub open spec fn prefix_free(paths: Seq<Seq<char>>) -> bool {
    forall|i: int, j: int|
        0 <= i < paths.len() && 0 <= j < paths.len() ==> !is_proper_prefix(
            segments(#[trigger] paths[i]),
            segments(#[trigger] paths[j]),
        )
}

/// The tree of a list is the tree of the list without one of its paths, with
/// that path entered last.
proof fn lemma_move_to_end(paths: Seq<Seq<char>>, j: int)
    requires
        prefix_free(paths),
        0 <= j < paths.len(),
    ensures
        build(paths) == insert_path(build(paths.remove(j)), segments(paths[j])),
    decreases paths.len(),
{
    if j == paths.len() - 1 {
        assert(paths.remove(j) =~= paths.drop_last());
    } else {
        let head = paths.drop_last();
        let last = paths.last();
        assert forall|a: int, b: int| 0 <= a < head.len() && 0 <= b < head.len() implies 
            !is_proper_prefix(segments(#[trigger] head[a]), segments(#[trigger] head[b])) by {
            assert(head[a] == paths[a]);
            assert(head[b] == paths[b]);
        }
        lemma_move_to_end(head, j);
        lemma_build_well_formed(head.remove(j));
        assert(head[j] == paths[j]);
        assert(last == paths[paths.len() - 1]);
        lemma_insert_commutes(build(head.remove(j)), segments(paths[j]), segments(last));
        let rest = paths.remove(j);
        assert(rest.drop_last() =~= head.remove(j));
        assert(rest.last() == last);
    }
}

/// Building a tree does not depend on the order in which the paths come: a
/// list and any rearrangement of it give the same tree, as long as no path
/// of the list runs through the node at which another one ends.
pub proof fn lemma_build_order_independent(a: Seq<Seq<char>>, b: Seq<Seq<char>>)
    requires
        a.to_multiset() == b.to_multiset(),
        prefix_free(a),
    ensures
        build(a) == build(b),
    decreases a.len(),
{
    a.to_multiset_ensures();
    b.to_multiset_ensures();
    if a.len() > 0 {
        let x = a.last();
        assert(a.contains(x));
        assert(a.to_multiset().count(x) > 0);
        assert(b.to_multiset().count(x) > 0);
        assert(b.contains(x));
        let j = choose|j: int| 0 <= j < b.len() && b[j] == x;
        assert forall|m: int, n: int| 0 <= m < b.len() && 0 <= n < b.len() implies 
            !is_proper_prefix(segments(#[trigger] b[m]), segments(#[trigger] b[n])) by {
            assert(b.contains(b[m]));
            assert(b.contains(b[n]));
            assert(b.to_multiset().count(b[m]) > 0);
            assert(b.to_multiset().count(b[n]) > 0);
            assert(a.to_multiset().count(b[m]) > 0);
            assert(a.to_multiset().count(b[n]) > 0);
            assert(a.contains(b[m]));
            assert(a.contains(b[n]));
            let m0 = choose|k: int| 0 <= k < a.len() && a[k] == b[m];
            let n0 = choose|k: int| 0 <= k < a.len() && a[k] == b[n];
            assert(!is_proper_prefix(segments(a[m0]), segments(a[n0])));
        }
        lemma_move_to_end(b, j);
        let head = a.drop_last();
        assert(head =~= a.remove(a.len() - 1));
        assert(head.to_multiset() =~= b.remove(j).to_multiset());
        assert forall|m: int, n: int| 0 <= m < head.len() && 0 <= n < head.len() implies 
            !is_proper_prefix(segments(#[trigger] head[m]), segments(#[trigger] head[n])) by {
            assert(head[m] == a[m]);
            assert(head[n] == a[n]);
        }
        lemma_build_order_independent(head, b.remove(j));
    } else {
        assert(b.len() == 0);
    }
}

} // verus!
