//! Collapsing: what a collapsed tree looks like, and that a second pass
//! changes nothing.

use vstd::prelude::*;
use crate::text::lex_lt;
use crate::tree_laws::{
    head, in_order, is_deep_keyed, is_keyed, is_ordered, is_sorted, lemma_find,
    lemma_head_of_longer, lemma_place_in_order, lemma_place_sorted, lemma_slot, well_formed,
};
use crate::tree_model::{
    collapse, collapse_first, find_from, is_chain, is_collapsed, merged, slot_from, Tree,
};

verus! {

proof fn lemma_collapse_first(t: Tree, n: int)
    requires
        0 <= n <= t.children.len(),
    ensures
        collapse_first(t, n).len() == n,
        in_order(collapse_first(t, n)),
        forall|k: int|
            0 <= k < n ==> {
                let node = (#[trigger] collapse_first(t, n)[k]).1;
                !is_chain(node) && is_collapsed(node) && is_ordered(node)
            },
    decreases t, 0int, n,
{
    if n > 0 {
        lemma_collapse_first(t, n - 1);
        let child = t.children[n - 1];
        let below = collapse(child.1);
        lemma_collapse_shape(child.1);
        let entry = merged(child.0, below);
        if is_chain(below) {
            assert(entry.1 == below.children[0].1);
        }
        let before = collapse_first(t, n - 1);
        lemma_slot(before, entry.0, 0);
        lemma_place_in_order(before, entry.0, entry.1);
        let slot = slot_from(before, entry.0, 0);
        let after = collapse_first(t, n);
        assert(after == before.insert(slot, entry));
        assert forall|k: int| 0 <= k < n implies {
            let node = (#[trigger] after[k]).1;
            !is_chain(node) && is_collapsed(node) && is_ordered(node)
        } by {
            if k < slot {
                assert(after[k] == before[k]);
            } else if k > slot {
                assert(after[k] == before[k - 1]);
            }
        }
    }
}

/// A collapsed tree holds no chain below its root, and at every node its
/// children are in order of name.
pub proof fn lemma_collapse_shape(t: Tree)
    ensures
        is_collapsed(collapse(t)),
        is_ordered(collapse(t)),
    decreases t, 1int, 0int,
{
    lemma_collapse_first(t, t.children.len() as int);
}

proof fn lemma_fixed_first(t: Tree, n: int)
    requires
        is_collapsed(t),
        is_ordered(t),
        0 <= n <= t.children.len(),
    ensures
        collapse_first(t, n) == t.children.take(n),
    decreases t, 0int, n,
{
    if n > 0 {
        lemma_fixed_first(t, n - 1);
        let child = t.children[n - 1];
        lemma_collapsed_is_fixed(child.1);
        let before = t.children.take(n - 1);
        lemma_slot(before, child.0, 0);
        let slot = slot_from(before, child.0, 0);
        if slot < n - 1 {
            assert(before[slot] == t.children[slot]);
            assert(!lex_lt(t.children[n - 1].0, t.children[slot].0));
        }
        assert(before.insert(n - 1, child) =~= t.children.take(n));
    } else {
        assert(collapse_first(t, n) =~= t.children.take(n));
    }
}

/// Collapsing changes nothing in a tree that holds no chain and whose
/// children are in order.
pub proof fn lemma_collapsed_is_fixed(t: Tree)
    requires
        is_collapsed(t),
        is_ordered(t),
    ensures
        collapse(t) == t,
    decreases t, 1int, 0int,
{
    lemma_fixed_first(t, t.children.len() as int);
    assert(t.children.take(t.children.len() as int) =~= t.children);
}

/// Collapsing is idempotent: a second pass leaves the tree as the first pass
/// made it.
pub proof fn lemma_collapse_idempotent(t: Tree)
    ensures
        collapse(collapse(t)) == collapse(t),
{
    lemma_collapse_shape(t);
    lemma_collapsed_is_fixed(collapse(t));
}

proof fn lemma_keyed_first(t: Tree, n: int)
    requires
        is_deep_keyed(t),
        0 <= n <= t.children.len(),
    ensures
        collapse_first(t, n).len() == n,
        is_keyed(collapse_first(t, n)),
        is_sorted(collapse_first(t, n)),
        forall|k: int|
            0 <= k < n ==> exists|m: int|
                0 <= m < n && head((#[trigger] collapse_first(t, n)[k]).0) == head(
                    t.children[m].0,
                ),
        forall|k: int|
            0 <= k < n ==> {
                let node = (#[trigger] collapse_first(t, n)[k]).1;
                is_deep_keyed(node) && well_formed(node)
            },
    decreases t, 0int, n,
{
    if n > 0 {
        lemma_keyed_first(t, n - 1);
        let child = t.children[n - 1];
        let below = collapse(child.1);
        lemma_collapse_keeps_names_apart(child.1);
        let entry = merged(child.0, below);
        if is_chain(below) {
            assert(entry.1 == below.children[0].1);
            lemma_head_of_longer(child.0, below.children[0].0);
            assert(entry.0 =~= child.0 + seq!['/'] + below.children[0].0);
        }
        assert(head(entry.0) == head(child.0));
        let before = collapse_first(t, n - 1);
        let slot = slot_from(before, entry.0, 0);
        lemma_slot(before, entry.0, 0);
        lemma_find(before, entry.0, 0);
        let found = find_from(before, entry.0, 0);
        if found < before.len() {
            let m = choose|m: int|
                0 <= m < n - 1 && head(before[found].0) == head(t.children[m].0);
            assert(head(t.children[m].0) != head(t.children[n - 1].0));
        }
        lemma_place_sorted(before, entry.0, entry.1);
        let after = collapse_first(t, n);
        assert(after == before.insert(slot, entry));
        assert forall|k: int| 0 <= k < n implies exists|m: int|
            0 <= m < n && head((#[trigger] after[k]).0) == head(t.children[m].0) by {
            if k < slot {
                assert(after[k] == before[k]);
                let m = choose|m: int|
                    0 <= m < n - 1 && head(before[k].0) == head(t.children[m].0);
                assert(0 <= m < n && head(after[k].0) == head(t.children[m].0));
            } else if k > slot {
                assert(after[k] == before[k - 1]);
                let m = choose|m: int|
                    0 <= m < n - 1 && head(before[k - 1].0) == head(t.children[m].0);
                assert(0 <= m < n && head(after[k].0) == head(t.children[m].0));
            } else {
                assert(0 <= n - 1 < n && head(after[k].0) == head(t.children[n - 1].0));
            }
        }
        assert forall|k: int| 0 <= k < n implies {
            let node = (#[trigger] after[k]).1;
            is_deep_keyed(node) && well_formed(node)
        } by {
            if k < slot {
                assert(after[k] == before[k]);
            } else if k > slot {
                assert(after[k] == before[k - 1]);
            }
        }
        assert forall|i: int, j: int| 0 <= i < j < after.len() implies head(
            (#[trigger] after[i]).0,
        ) != head((#[trigger] after[j]).0) by {
            let i0 = if i < slot {
                i
            } else {
                i - 1
            };
            let j0 = if j < slot {
                j
            } else {
                j - 1
            };
            if i == slot {
                assert(after[j] == before[j0]);
                let m = choose|m: int|
                    0 <= m < n - 1 && head(before[j0].0) == head(t.children[m].0);
                assert(head(t.children[m].0) != head(t.children[n - 1].0));
            } else if j == slot {
                assert(after[i] == before[i0]);
                let m = choose|m: int|
                    0 <= m < n - 1 && head(before[i0].0) == head(t.children[m].0);
                assert(head(t.children[m].0) != head(t.children[n - 1].0));
            } else {
                assert(after[i] == before[i0]);
                assert(after[j] == before[j0]);
            }
        }
    }
}

/// In a tree where no two children of a node begin with the same segment,
/// collapsing leaves it so, and leaves no name twice among the children of a
/// node: they are in strict order.
pub proof fn lemma_collapse_keeps_names_apart(t: Tree)
    requires
        is_deep_keyed(t),
    ensures
        is_deep_keyed(collapse(t)),
        well_formed(collapse(t)),
    decreases t, 1int, 0int,
{
    lemma_keyed_first(t, t.children.len() as int);
}

} // verus!
