//! The rendered tree has one line for each node.

use vstd::prelude::*;
use crate::tree_model::{rows, rows_first, Tree};

verus! {

/// How many nodes stand below `t`.
pub open spec fn count_below(t: Tree) -> nat
    decreases t, 1int, 0int,
{
    count_first(t, t.children.len() as int)
}

/// How many nodes the first `n` children of `t` and their subtrees hold.
pub open spec fn count_first(t: Tree, n: int) -> nat
    decreases t, 0int, n,
{
    if n <= 0 || n > t.children.len() {
        0
    } else {
        count_first(t, n - 1) + 1 + count_below(t.children[n - 1].1)
    }
}

proof fn lemma_rows_first_count(t: Tree, guides: Seq<bool>, n: int)
    requires
        0 <= n <= t.children.len(),
    ensures
        rows_first(t, guides, n).len() == count_first(t, n),
    decreases t, 0int, n,
{
    if n > 0 {
        lemma_rows_first_count(t, guides, n - 1);
        lemma_rows_count(t.children[n - 1].1, guides.push(n != t.children.len()));
    }
}

/// The layout of a tree has one row for each node below its root.
pub proof fn lemma_rows_count(t: Tree, guides: Seq<bool>)
    ensures
        rows(t, guides).len() == count_below(t),
    decreases t, 1int, 0int,
{
    lemma_rows_first_count(t, guides, t.children.len() as int);
}

} // verus!
