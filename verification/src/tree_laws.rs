//! Orders of children, and what finding and placing a child among them
//! does: the ground for the laws of building and collapsing.

use vstd::prelude::*;
use crate::order::{lemma_lex_lt_asymmetric, lemma_lex_lt_total, lemma_lex_lt_transitive};
use crate::text::lex_lt;
use crate::tree_model::{find_from, place, slot_from, Tree};

verus! {

/// The children are in order of name; equal names may follow each other.
pub open spec fn in_order(children: Seq<(Seq<char>, Tree)>) -> bool {
    forall|i: int, j: int|
        0 <= i < j < children.len() ==> !lex_lt(
            (#[trigger] children[j]).0,
            (#[trigger] children[i]).0,
        )
}

/// At every node of the tree the children are in order of name.
pub open spec fn is_ordered(t: Tree) -> bool
    decreases t,
{
    in_order(t.children) && forall|i: int|
        0 <= i < t.children.len() ==> is_ordered((#[trigger] t.children[i]).1)
}

/// Where `slot_from` points: not before `i`, past every child from `i` on
/// that does not sort after `name`, and at one that does, if it points at any.
pub proof fn lemma_slot(children: Seq<(Seq<char>, Tree)>, name: Seq<char>, i: int)
    requires
        0 <= i <= children.len(),
    ensures
        i <= slot_from(children, name, i) <= children.len(),
        forall|k: int|
            i <= k < slot_from(children, name, i) ==> !lex_lt(name, (#[trigger] children[k]).0),
        slot_from(children, name, i) < children.len() ==> lex_lt(
            name,
            children[slot_from(children, name, i)].0,
        ),
    decreases children.len() - i,
{
    if i < children.len() && !lex_lt(name, children[i].0) {
        lemma_slot(children, name, i + 1);
    }
}

/// Where `find_from` points: not before `i`, past every child from `i` on
/// with another name, and at one named `name`, if it points at any.
pub proof fn lemma_find(children: Seq<(Seq<char>, Tree)>, name: Seq<char>, i: int)
    requires
        0 <= i <= children.len(),
    ensures
        i <= find_from(children, name, i) <= children.len(),
        forall|k: int|
            i <= k < find_from(children, name, i) ==> (#[trigger] children[k]).0 != name,
        find_from(children, name, i) < children.len() ==> children[find_from(
            children,
            name,
            i,
        )].0 == name,
    decreases children.len() - i,
{
    if i < children.len() && children[i].0 != name {
        lemma_find(children, name, i + 1);
    }
}

/// A child put into children that are in order leaves them in order.
pub proof fn lemma_place_in_order(children: Seq<(Seq<char>, Tree)>, name: Seq<char>, node: Tree)
    requires
        in_order(children),
    ensures
        in_order(place(children, name, node)),
{
    let slot = slot_from(children, name, 0);
    lemma_slot(children, name, 0);
    let after = place(children, name, node);
    assert forall|i: int, j: int| 0 <= i < j < after.len() implies !lex_lt(
        (#[trigger] after[j]).0,
        (#[trigger] after[i]).0,
    ) by {
        if j == slot {
            assert(after[i] == children[i]);
        } else if i == slot {
            assert(after[j] == children[j - 1]);
            if lex_lt(after[j].0, name) {
                lemma_lex_lt_transitive(after[j].0, name, children[slot].0);
                if j - 1 == slot {
                    lemma_lex_lt_asymmetric(name, children[slot].0);
                } else {
                    assert(!lex_lt(children[j - 1].0, children[slot].0));
                }
            }
        } else {
            let i0 = if i < slot {
                i
            } else {
                i - 1
            };
            let j0 = if j < slot {
                j
            } else {
                j - 1
            };
            assert(after[i] == children[i0]);
            assert(after[j] == children[j0]);
        }
    }
}

/// The children are in strict order of name: no name occurs twice.
pub open spec fn is_sorted(children: Seq<(Seq<char>, Tree)>) -> bool {
    forall|i: int, j: int|
        0 <= i < j < children.len() ==> lex_lt(
            (#[trigger] children[i]).0,
            (#[trigger] children[j]).0,
        )
}

/// At every node of the tree the children are in strict order of name.
pub open spec fn well_formed(t: Tree) -> bool
    decreases t,
{
    is_sorted(t.children) && forall|i: int|
        0 <= i < t.children.len() ==> well_formed((#[trigger] t.children[i]).1)
}

/// The first child named `name`, if there is one.
pub open spec fn child_of(children: Seq<(Seq<char>, Tree)>, name: Seq<char>) -> Option<Tree> {
    let i = find_from(children, name, 0);
    if i < children.len() {
        Some(children[i].1)
    } else {
        None
    }
}

/// A child of a new name, put into children in strict order, leaves them in
/// strict order.
pub proof fn lemma_place_sorted(children: Seq<(Seq<char>, Tree)>, name: Seq<char>, node: Tree)
    requires
        is_sorted(children),
        find_from(children, name, 0) == children.len(),
    ensures
        is_sorted(place(children, name, node)),
{
    let slot = slot_from(children, name, 0);
    lemma_slot(children, name, 0);
    lemma_find(children, name, 0);
    let after = place(children, name, node);
    assert forall|i: int, j: int| 0 <= i < j < after.len() implies lex_lt(
        (#[trigger] after[i]).0,
        (#[trigger] after[j]).0,
    ) by {
        if j == slot {
            assert(after[i] == children[i]);
            assert(children[i].0 != name);
            lemma_lex_lt_total(children[i].0, name);
        } else if i == slot {
            assert(after[j] == children[j - 1]);
            if j - 1 > slot {
                assert(lex_lt(children[slot].0, children[j - 1].0));
                lemma_lex_lt_transitive(name, children[slot].0, children[j - 1].0);
            }
        } else {
            let i0 = if i < slot {
                i
            } else {
                i - 1
            };
            let j0 = if j < slot {
                j
            } else {
                j - 1
            };
            assert(after[i] == children[i0]);
            assert(after[j] == children[j0]);
        }
    }
}

/// How many characters of a name stand before its first `/`.
pub open spec fn head_len(name: Seq<char>) -> int
    decreases name.len(),
{
    if name.len() == 0 || name[0] == '/' {
        0
    } else {
        1 + head_len(name.drop_first())
    }
}

/// The first segment of a name: what stands before its first `/`.
pub open spec fn head(name: Seq<char>) -> Seq<char> {
    name.take(head_len(name))
}

/// No two children begin with the same segment.
pub open spec fn is_keyed(children: Seq<(Seq<char>, Tree)>) -> bool {
    forall|i: int, j: int|
        0 <= i < j < children.len() ==> head((#[trigger] children[i]).0) != head(
            (#[trigger] children[j]).0,
        )
}

/// At every node of the tree no two children begin with the same segment.
pub open spec fn is_deep_keyed(t: Tree) -> bool
    decreases t,
{
    is_keyed(t.children) && forall|i: int|
        0 <= i < t.children.len() ==> is_deep_keyed((#[trigger] t.children[i]).1)
}

/// A name's first segment is a beginning of the name.
pub proof fn lemma_head_len(name: Seq<char>)
    ensures
        0 <= head_len(name) <= name.len(),
        forall|i: int| 0 <= i < head_len(name) ==> name[i] != '/',
        head_len(name) < name.len() ==> name[head_len(name)] == '/',
    decreases name.len(),
{
    if name.len() > 0 && name[0] != '/' {
        let rest = name.drop_first();
        lemma_head_len(rest);
        assert forall|i: int| 0 <= i < head_len(name) implies name[i] != '/' by {
            if i > 0 {
                assert(name[i] == rest[i - 1]);
            }
        }
        if head_len(name) < name.len() {
            assert(name[head_len(name)] == rest[head_len(rest)]);
        }
    }
}

/// What follows a name's first `/` has no part in its first segment.
pub proof fn lemma_head_of_longer(name: Seq<char>, more: Seq<char>)
    ensures
        head(name + seq!['/'] + more) == head(name),
    decreases name.len(),
{
    let long = name + seq!['/'] + more;
    if name.len() == 0 {
        assert(long[0] == '/');
    } else {
        assert(long[0] == name[0]);
        if name[0] != '/' {
            assert(long.drop_first() =~= name.drop_first() + seq!['/'] + more);
            lemma_head_of_longer(name.drop_first(), more);
            lemma_head_len(name.drop_first());
            lemma_head_len(long.drop_first());
            let rest = name.drop_first();
            let long_rest = long.drop_first();
            assert(head(long_rest).len() == head(rest).len());
            assert(head_len(long) == head_len(name));
        }
    }
    lemma_head_len(name);
    assert(long.take(head_len(name)) =~= name.take(head_len(name)));
}

} // verus!
