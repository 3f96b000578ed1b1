//! Laws of the engine: properties that span several operations or whole
//! states, stated over the model and proved once and for all.

use vstd::prelude::*;

use crate::model::TodoItem;
use crate::model::anc;
use crate::model::completion_update;
use crate::model::count_group;
use crate::model::derived_completed;
use crate::model::has_id;
use crate::model::idx_of;
use crate::model::in_subtree;
use crate::model::is_anc;
use crate::model::lemma_anc_depth;
use crate::model::lemma_anc_fuel_mono;
use crate::model::lemma_anc_unfold;
use crate::model::lemma_count_group_bounds;
use crate::model::lemma_count_group_member;
use crate::model::lemma_count_group_push;
use crate::model::lemma_count_group_take_step;
use crate::model::lemma_delete_keeps;
use crate::model::lemma_delete_wf;
use crate::model::lemma_depth_parent;
use crate::model::lemma_idx_of;
use crate::model::lemma_is_anc_irrefl;
use crate::model::lemma_is_anc_trans;
use crate::model::lemma_parent_not_self;
use crate::model::lemma_take_full;
use crate::model::node_of;
use crate::model::parent_of;
use crate::model::remove_subtree;
use crate::model::rooted;
use crate::model::same_but_completed;
use crate::model::unique_ids;
use crate::model::wf;

verus! {

/// The set of sibling positions used by the direct children of `par`.
pub open spec fn group_positions(s: Seq<TodoItem>, par: Option<u32>) -> Set<int> {
    Set::new(
        |p: int|
            exists|i: int|
                0 <= i < s.len() && (#[trigger] s[i]).parent_id == par && s[i].position as int
                    == p,
    )
}

/// The set of indices of the direct children of `par`, below bound `n`, has
/// as many elements as the group count of the prefix.
proof fn lemma_index_set_card(s: Seq<TodoItem>, par: Option<u32>, n: int)
    requires
        0 <= n <= s.len(),
    ensures
        Set::new(|i: int| 0 <= i < n && s[i].parent_id == par).finite(),
        Set::new(|i: int| 0 <= i < n && s[i].parent_id == par).len() == count_group(
            s.take(n),
            par,
        ),
    decreases n,
{
    broadcast use vstd::set::group_set_axioms;

    let a = Set::new(|i: int| 0 <= i < n && s[i].parent_id == par);
    if n == 0 {
        assert(a =~= Set::<int>::empty());
        assert(s.take(0).len() == 0);
    } else {
        lemma_index_set_card(s, par, n - 1);
        let b = Set::new(|i: int| 0 <= i < n - 1 && s[i].parent_id == par);
        lemma_count_group_take_step(s, par, n - 1);
        if s[n - 1].parent_id == par {
            assert(a =~= b.insert(n - 1));
            assert(!b.contains(n - 1));
        } else {
            assert(a =~= b);
        }
    }
}

/// In a well-formed forest, every sibling group occupies exactly the
/// positions `{0, ..., k-1}` where `k` is the number of its members: no
/// gaps, no duplicates. This holds of every reachable store state, in
/// particular before and after every move.
pub proof fn lemma_group_positions_contiguous(s: Seq<TodoItem>, par: Option<u32>)
    requires
        wf(s),
    ensures
        group_positions(s, par) =~= vstd::set_lib::set_int_range(0, count_group(s, par)),
{
    broadcast use vstd::set::group_set_axioms;

    let k = count_group(s, par);
    lemma_count_group_bounds(s, par);
    let a = Set::new(|i: int| 0 <= i < s.len() && s[i].parent_id == par);
    lemma_take_full(s);
    lemma_index_set_card(s, par, s.len() as int);
    assert(a.finite() && a.len() == k);
    let f = |i: int| s[i].position as int;
    assert(vstd::relations::injective_on(f, a)) by {
        assert forall|x: int, y: int|
            #![trigger a.contains(x), a.contains(y)]
            a.contains(x) && a.contains(y) && x != y implies f(x) != f(y) by {
            assert(s[x].parent_id == s[y].parent_id);
            assert(s[x].position != s[y].position);
        }
    }
    let p = a.map(f);
    vstd::set_lib::lemma_map_size(a, p, f);
    let r = vstd::set_lib::set_int_range(0, k);
    vstd::set_lib::lemma_int_range(0, k);
    assert(p.subset_of(r)) by {
        assert forall|q: int| p.contains(q) implies r.contains(q) by {
            let i = choose|i: int| a.contains(i) && f(i) == q;
            assert(0 <= s[i].position && (s[i].position as int) < count_group(s, s[i].parent_id));
        }
    }
    assert forall|q: int| r.contains(q) implies p.contains(q) by {
        if !p.contains(q) {
            assert(p.subset_of(r.remove(q)));
            vstd::set_lib::lemma_len_subset(p, r.remove(q));
            assert(r.remove(q).len() == k - 1);
            assert(false);
        }
    }
    assert forall|q: int| group_positions(s, par).contains(q) implies p.contains(q) by {
        let i = choose|i: int|
            0 <= i < s.len() && (#[trigger] s[i]).parent_id == par && s[i].position as int == q;
        assert(a.contains(i));
        assert(p.contains(f(i)));
    }
    assert forall|q: int| p.contains(q) implies group_positions(s, par).contains(q) by {
        let i = choose|i: int| a.contains(i) && f(i) == q;
        assert(0 <= i < s.len() && s[i].parent_id == par && s[i].position as int == q);
    }
    assert(group_positions(s, par) =~= p);
}

/// Consecutive creates in the same (root) sibling group receive strictly
/// increasing positions, each one more than the previous: a create is
/// placed at the current group size, and grows that size by one.
pub proof fn lemma_create_positions_sequential(s: Seq<TodoItem>, t1: TodoItem, t2: TodoItem)
    requires
        t1.parent_id == Option::<u32>::None,
        t2.parent_id == Option::<u32>::None,
        t1.position as int == count_group(s, Option::None),
        t2.position as int == count_group(s.push(t1), Option::None),
    ensures
        t2.position == t1.position + 1,
{
    lemma_count_group_push(s, t1, Option::None);
    lemma_count_group_bounds(s, Option::None);
}

/// A well-formed forest has no orphans: every parent reference points at
/// a present node.
pub proof fn lemma_no_orphans(s: Seq<TodoItem>)
    requires
        wf(s),
    ensures
        forall|j: int|
            0 <= j < s.len() ==> match (#[trigger] s[j]).parent_id {
                Option::None => true,
                Option::Some(p) => has_id(s, p),
            },
{
    assert forall|j: int|
        0 <= j < s.len() implies match (#[trigger] s[j]).parent_id {
        Option::None => true,
        Option::Some(p) => has_id(s, p),
    } by {
        let x = s[j].id;
        assert(rooted(s, x, s.len() as nat));
        lemma_idx_of(s, x);
        assert(node_of(s, x) == s[j]);
        match s[j].parent_id {
            Option::None => {},
            Option::Some(p) => {
                assert(rooted(s, p, (s.len() - 1) as nat));
            },
        }
    }
}

/// Deleting a node removes it and its whole subtree, and the remaining
/// forest has no orphans: every surviving parent reference points at a
/// surviving node.
pub proof fn lemma_delete_no_orphans(pre: Seq<TodoItem>, id: u32)
    requires
        wf(pre),
        has_id(pre, id),
    ensures
        !has_id(remove_subtree(pre, id), id),
        forall|x: u32| in_subtree(pre, id, x) ==> !has_id(remove_subtree(pre, id), x),
        forall|j: int|
            0 <= j < remove_subtree(pre, id).len() ==> match (#[trigger] remove_subtree(
                pre,
                id,
            )[j]).parent_id {
                Option::None => true,
                Option::Some(p) => has_id(remove_subtree(pre, id), p),
            },
{
    lemma_delete_keeps(pre, id);
    lemma_delete_wf(pre, id);
    lemma_no_orphans(remove_subtree(pre, id));
}

/// After `set_completed` on a node, its parent carries exactly the
/// recomputed flag: completed precisely when the written flag is true and
/// every other child was already complete. Marking children one at a time
/// therefore completes the parent exactly at the last child, and unmarking
/// any child immediately un-completes the parent.
pub proof fn lemma_cascade_parent_exact(
    pre: Seq<TodoItem>,
    post: Seq<TodoItem>,
    id: u32,
    p: u32,
    c: bool,
)
    requires
        wf(pre),
        has_id(pre, id),
        parent_of(pre, id) == Option::Some(p),
        completion_update(pre, post, id, c),
    ensures
        has_id(post, p),
        node_of(post, p).completed == (c && (forall|j: int|
            0 <= j < pre.len() && (#[trigger] pre[j]).parent_id == Option::Some(p) && pre[j].id
                != id ==> pre[j].completed)),
{
    let lp = pre.len() as nat;
    lemma_idx_of(pre, id);
    let k = idx_of(pre, id);
    assert(pre[k].id == id);
    assert(rooted(pre, id, lp));
    lemma_depth_parent(pre, id, p, lp);
    assert(has_id(pre, p));
    lemma_idx_of(pre, p);
    let pi = idx_of(pre, p);
    assert(same_but_completed(pre, post));
    assert(unique_ids(post)) by {
        assert forall|i: int, j: int|
            0 <= i < post.len() && 0 <= j < post.len() && i != j implies (#[trigger] post[i]).id
            != (#[trigger] post[j]).id by {
            assert(post[i] == (TodoItem { completed: post[i].completed, ..pre[i] }));
            assert(post[j] == (TodoItem { completed: post[j].completed, ..pre[j] }));
        }
    }
    assert(post[pi] == (TodoItem { completed: post[pi].completed, ..pre[pi] }));
    assert(post[pi].id == p);
    assert(has_id(post, p));
    lemma_idx_of(post, p);
    assert(node_of(post, p) == post[pi]);
    assert(anc(pre, p, id, lp));
    assert(is_anc(pre, p, id));
    assert(post[pi].completed == derived_completed(post, p));
    assert(post[k] == (TodoItem { completed: post[k].completed, ..pre[k] }));
    assert(post[k].parent_id == Option::Some(p));
    lemma_count_group_member(post, k);
    assert(in_subtree(pre, id, post[k].id));
    assert(post[k].completed == c);
    // Any child of `p` other than the node itself is outside the subtree
    // and outside the ancestor chain, so its flag is untouched.
    assert forall|j: int|
        0 <= j < pre.len() && (#[trigger] pre[j]).parent_id == Option::Some(p) && pre[j].id != id
        implies post[j].completed == pre[j].completed by {
        let x = pre[j].id;
        lemma_idx_of(pre, x);
        assert(node_of(pre, x) == pre[j]);
        assert(rooted(pre, x, lp));
        assert(!in_subtree(pre, id, x)) by {
            if is_anc(pre, id, x) {
                lemma_anc_unfold(pre, id, x, lp);
                if p == id {
                    lemma_parent_not_self(pre, id);
                    assert(false);
                } else {
                    assert(anc(pre, id, p, (lp - 1) as nat));
                    lemma_anc_fuel_mono(pre, id, p, (lp - 1) as nat, lp);
                    lemma_is_anc_trans(pre, id, p, id);
                    lemma_is_anc_irrefl(pre, id);
                    assert(false);
                }
            }
        }
        assert(!is_anc(pre, x, id)) by {
            if is_anc(pre, x, id) {
                lemma_anc_depth(pre, x, id, lp);
                lemma_depth_parent(pre, x, p, lp);
            }
        }
        assert(post[j].id == x);
    }
    // The two sides of the equality.
    if c && (forall|j: int|
        0 <= j < pre.len() && (#[trigger] pre[j]).parent_id == Option::Some(p) && pre[j].id != id
            ==> pre[j].completed) {
        assert forall|j: int|
            0 <= j < post.len() && (#[trigger] post[j]).parent_id == Option::Some(p)
            implies post[j].completed by {
            assert(post[j] == (TodoItem { completed: post[j].completed, ..pre[j] }));
            if pre[j].id == id {
                assert(j == k);
            } else {
                assert(pre[j].parent_id == Option::Some(p));
            }
        }
        assert(derived_completed(post, p));
    }
    if derived_completed(post, p) {
        assert(post[k].completed);
        assert(c);
        assert forall|j: int|
            0 <= j < pre.len() && (#[trigger] pre[j]).parent_id == Option::Some(p) && pre[j].id
                != id implies pre[j].completed by {
            assert(post[j].parent_id == Option::Some(p));
            assert(post[j].completed);
        }
    }
}

/// The completion cascade recomputes every strict ancestor of the toggled
/// node, however far up the chain, from its own children's final flags: a
/// grandparent becomes complete only through the same children rule
/// applied at its level.
pub proof fn lemma_cascade_whole_chain(
    pre: Seq<TodoItem>,
    post: Seq<TodoItem>,
    id: u32,
    a: u32,
    c: bool,
)
    requires
        wf(pre),
        has_id(pre, id),
        is_anc(pre, a, id),
        completion_update(pre, post, id, c),
    ensures
        has_id(post, a),
        node_of(post, a).completed == derived_completed(post, a),
{
    let lp = pre.len() as nat;
    lemma_idx_of(pre, id);
    assert(pre[idx_of(pre, id)].id == id);
    assert(rooted(pre, id, lp));
    lemma_anc_depth(pre, a, id, lp);
    assert(has_id(pre, a));
    lemma_idx_of(pre, a);
    let pi = idx_of(pre, a);
    assert(same_but_completed(pre, post));
    assert(unique_ids(post)) by {
        assert forall|i: int, j: int|
            0 <= i < post.len() && 0 <= j < post.len() && i != j implies (#[trigger] post[i]).id
            != (#[trigger] post[j]).id by {
            assert(post[i] == (TodoItem { completed: post[i].completed, ..pre[i] }));
            assert(post[j] == (TodoItem { completed: post[j].completed, ..pre[j] }));
        }
    }
    assert(post[pi] == (TodoItem { completed: post[pi].completed, ..pre[pi] }));
    assert(post[pi].id == a);
    assert(has_id(post, a));
    lemma_idx_of(post, a);
    assert(node_of(post, a) == post[pi]);
    assert(post[pi].completed == derived_completed(post, a));
}

} // verus!
