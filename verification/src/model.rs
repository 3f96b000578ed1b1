//! The mathematical model of the todo forest: the item type, the spec-level
//! view of a forest as a sequence of items, the parent/ancestor relation with
//! explicit fuel, and the well-formedness predicate that every store
//! operation preserves.

use vstd::prelude::*;

verus! {

/// One todo node. `parent_id` of `None` means the node is at root level;
/// `position` orders a node among the direct children of its parent.
/// `target_count` of `None` means the node is an ordinary checkbox; when it
/// is `Some(t)`, `current_count` counts down from `t` toward zero.
pub struct TodoItem {
    pub id: u32,
    pub text: String,
    pub completed: bool,
    pub parent_id: Option<u32>,
    pub position: i32,
    pub target_count: Option<i32>,
    pub current_count: i32,
}

impl Clone for TodoItem {
    fn clone(&self) -> (res: Self)
        ensures
            res == *self,
    {
        TodoItem {
            id: self.id,
            text: self.text.clone(),
            completed: self.completed,
            parent_id: self.parent_id,
            position: self.position,
            target_count: self.target_count,
            current_count: self.current_count,
        }
    }
}

/// Whether a node with the given id is present in the forest.
pub open spec fn has_id(s: Seq<TodoItem>, id: u32) -> bool {
    exists|i: int| 0 <= i < s.len() && (#[trigger] s[i]).id == id
}

/// The index of the node with the given id (meaningful under `unique_ids`
/// when `has_id` holds).
pub open spec fn idx_of(s: Seq<TodoItem>, id: u32) -> int {
    choose|i: int| 0 <= i < s.len() && (#[trigger] s[i]).id == id
}

/// The node with the given id.
pub open spec fn node_of(s: Seq<TodoItem>, id: u32) -> TodoItem {
    s[idx_of(s, id)]
}

/// The parent reference of the node with the given id.
pub open spec fn parent_of(s: Seq<TodoItem>, id: u32) -> Option<u32> {
    node_of(s, id).parent_id
}

/// No two nodes share an id.
pub open spec fn unique_ids(s: Seq<TodoItem>) -> bool {
    forall|i: int, j: int|
        0 <= i < s.len() && 0 <= j < s.len() && i != j ==> (#[trigger] s[i]).id != (#[trigger] s[j]).id
}

/// Walking up from `x`, a root (a node without a parent) is reached within
/// `fuel` steps, and every node passed on the way is present.
pub open spec fn rooted(s: Seq<TodoItem>, x: u32, fuel: nat) -> bool
    decreases fuel,
{
    has_id(s, x) && match parent_of(s, x) {
        Option::None => true,
        Option::Some(p) => fuel > 0 && rooted(s, p, (fuel - 1) as nat),
    }
}

/// The number of edges on the walk from `x` up to its root, computed with
/// the given fuel (meaningful when `rooted(s, x, fuel)` holds).
pub open spec fn depth(s: Seq<TodoItem>, x: u32, fuel: nat) -> nat
    decreases fuel,
{
    match parent_of(s, x) {
        Option::None => 0,
        Option::Some(p) => if fuel > 0 {
            (depth(s, p, (fuel - 1) as nat) + 1) as nat
        } else {
            0
        },
    }
}

/// `a` occurs strictly above `x` on `x`'s walk toward the root, reachable
/// within `fuel` steps beyond the first.
pub open spec fn anc(s: Seq<TodoItem>, a: u32, x: u32, fuel: nat) -> bool
    decreases fuel,
{
    has_id(s, x) && match parent_of(s, x) {
        Option::None => false,
        Option::Some(p) => p == a || (fuel > 0 && anc(s, a, p, (fuel - 1) as nat)),
    }
}

/// `a` is a strict ancestor of `x` (canonical fuel: the forest size).
pub open spec fn is_anc(s: Seq<TodoItem>, a: u32, x: u32) -> bool {
    anc(s, a, x, s.len() as nat)
}

/// `x` lies in the subtree rooted at `root`: it is `root` itself or a
/// strict descendant of it.
pub open spec fn in_subtree(s: Seq<TodoItem>, root: u32, x: u32) -> bool {
    x == root || is_anc(s, root, x)
}

/// Every node of the forest reaches a root: the parent relation is a forest
/// (acyclic, with all parent references present).
pub open spec fn all_rooted(s: Seq<TodoItem>) -> bool {
    forall|i: int| 0 <= i < s.len() ==> rooted(s, (#[trigger] s[i]).id, s.len() as nat)
}

/// The number of direct children of the given parent group (`None` is the
/// root group).
pub open spec fn count_group(s: Seq<TodoItem>, par: Option<u32>) -> int
    decreases s.len(),
{
    if s.len() == 0 {
        0
    } else {
        count_group(s.drop_last(), par) + if s.last().parent_id == par {
            1int
        } else {
            0int
        }
    }
}

/// Sibling positions are distinct within each parent group and lie in
/// `[0, k)` where `k` is the size of the group; together this makes every
/// group's positions exactly the contiguous range `{0, ..., k-1}`.
pub open spec fn positions_ok(s: Seq<TodoItem>) -> bool {
    &&& forall|i: int|
        0 <= i < s.len() ==> 0 <= (#[trigger] s[i]).position
            && (s[i].position as int) < count_group(s, s[i].parent_id)
    &&& forall|i: int, j: int|
        0 <= i < s.len() && 0 <= j < s.len() && i != j && (#[trigger] s[i]).parent_id
            == (#[trigger] s[j]).parent_id ==> s[i].position != s[j].position
}

/// The countdown overlay is in range: with no target the current count is
/// zero, with a target `t` it lies in `[0, t]`.
pub open spec fn counts_ok(s: Seq<TodoItem>) -> bool {
    forall|i: int|
        0 <= i < s.len() ==> match (#[trigger] s[i]).target_count {
            Option::None => s[i].current_count == 0,
            Option::Some(t) => 0 <= s[i].current_count <= t,
        }
}

/// Well-formedness of the forest: the invariant every operation preserves.
pub open spec fn wf(s: Seq<TodoItem>) -> bool {
    unique_ids(s) && all_rooted(s) && positions_ok(s) && counts_ok(s)
}

/// Group sizes are bounded by the forest size.
pub proof fn lemma_count_group_bounds(s: Seq<TodoItem>, par: Option<u32>)
    ensures
        0 <= count_group(s, par) <= s.len(),
    decreases s.len(),
{
    if s.len() > 0 {
        lemma_count_group_bounds(s.drop_last(), par);
    }
}

/// Extending a prefix by one element grows the group count by one exactly
/// when the element belongs to the group.
pub proof fn lemma_count_group_take_step(s: Seq<TodoItem>, par: Option<u32>, i: int)
    requires
        0 <= i < s.len(),
    ensures
        count_group(s.take(i + 1), par) == count_group(s.take(i), par) + if s[i].parent_id == par {
            1int
        } else {
            0int
        },
{
    assert(s.take(i + 1).drop_last() =~= s.take(i));
    assert(s.take(i + 1).last() == s[i]);
}

/// The whole sequence is its own full prefix.
pub proof fn lemma_take_full(s: Seq<TodoItem>)
    ensures
        s.take(s.len() as int) == s,
{
    assert(s.take(s.len() as int) =~= s);
}

/// Appending a node grows exactly its own group by one.
pub proof fn lemma_count_group_push(s: Seq<TodoItem>, t: TodoItem, par: Option<u32>)
    ensures
        count_group(s.push(t), par) == count_group(s, par) + if t.parent_id == par {
            1int
        } else {
            0int
        },
{
    assert(s.push(t).drop_last() =~= s);
    assert(s.push(t).last() == t);
}

/// Group counts agree between forests whose parent references agree
/// pointwise.
pub proof fn lemma_count_group_pointwise(s1: Seq<TodoItem>, s2: Seq<TodoItem>, par: Option<u32>)
    requires
        s1.len() == s2.len(),
        forall|i: int| 0 <= i < s1.len() ==> (#[trigger] s2[i]).parent_id == s1[i].parent_id,
    ensures
        count_group(s2, par) == count_group(s1, par),
    decreases s1.len(),
{
    if s1.len() > 0 {
        lemma_count_group_pointwise(s1.drop_last(), s2.drop_last(), par);
        assert(s2.last().parent_id == s1.last().parent_id);
    }
}

/// Replacing the node at `i` moves one unit of group count from its old
/// group to its new group.
pub proof fn lemma_count_group_update(s: Seq<TodoItem>, i: int, t: TodoItem, par: Option<u32>)
    requires
        0 <= i < s.len(),
    ensures
        count_group(s.update(i, t), par) == count_group(s, par) - (if s[i].parent_id == par {
            1int
        } else {
            0int
        }) + (if t.parent_id == par {
            1int
        } else {
            0int
        }),
    decreases s.len(),
{
    let s2 = s.update(i, t);
    if i == s.len() - 1 {
        assert(s2.drop_last() =~= s.drop_last());
        assert(s2.last() == t);
    } else {
        assert(s2.drop_last() =~= s.drop_last().update(i, t));
        assert(s2.last() == s.last());
        lemma_count_group_update(s.drop_last(), i, t, par);
    }
}

/// The node's parent has at least one child: the node itself. More
/// precisely, any group holding a node at index `i` has positive count.
pub proof fn lemma_count_group_member(s: Seq<TodoItem>, i: int)
    requires
        0 <= i < s.len(),
    ensures
        count_group(s, s[i].parent_id) > 0,
    decreases s.len(),
{
    if i == s.len() - 1 {
        lemma_count_group_bounds(s.drop_last(), s[i].parent_id);
    } else {
        lemma_count_group_member(s.drop_last(), i);
    }
}

/// The index returned by `idx_of` is the one index carrying `id`.
pub proof fn lemma_idx_of(s: Seq<TodoItem>, id: u32)
    requires
        unique_ids(s),
        has_id(s, id),
    ensures
        0 <= idx_of(s, id) < s.len(),
        s[idx_of(s, id)].id == id,
        node_of(s, id).id == id,
        forall|i: int| 0 <= i < s.len() && (#[trigger] s[i]).id == id ==> i == idx_of(s, id),
{
}

/// Reaching a root within `f` steps also reaches it within any larger fuel.
pub proof fn lemma_rooted_fuel_mono(s: Seq<TodoItem>, x: u32, f: nat, g: nat)
    requires
        rooted(s, x, f),
        f <= g,
    ensures
        rooted(s, x, g),
    decreases f,
{
    match parent_of(s, x) {
        Option::None => {},
        Option::Some(p) => {
            lemma_rooted_fuel_mono(s, p, (f - 1) as nat, (g - 1) as nat);
        },
    }
}

/// An ancestor found within `f` steps is found within any larger fuel.
pub proof fn lemma_anc_fuel_mono(s: Seq<TodoItem>, a: u32, x: u32, f: nat, g: nat)
    requires
        anc(s, a, x, f),
        f <= g,
    ensures
        anc(s, a, x, g),
    decreases f,
{
    match parent_of(s, x) {
        Option::None => {},
        Option::Some(p) => {
            if p != a {
                lemma_anc_fuel_mono(s, a, p, (f - 1) as nat, (g - 1) as nat);
            }
        },
    }
}

/// Once the root is reachable, the measured depth no longer depends on the
/// fuel.
pub proof fn lemma_depth_stable(s: Seq<TodoItem>, x: u32, f: nat, g: nat)
    requires
        rooted(s, x, f),
        f <= g,
    ensures
        rooted(s, x, g),
        depth(s, x, g) == depth(s, x, f),
    decreases f,
{
    match parent_of(s, x) {
        Option::None => {},
        Option::Some(p) => {
            lemma_depth_stable(s, p, (f - 1) as nat, (g - 1) as nat);
        },
    }
}

/// Stepping to the parent keeps the node rooted and decreases the depth by
/// exactly one (both measured at the same fuel).
pub proof fn lemma_depth_parent(s: Seq<TodoItem>, x: u32, p: u32, f: nat)
    requires
        rooted(s, x, f),
        parent_of(s, x) == Option::Some(p),
    ensures
        f > 0,
        rooted(s, p, f),
        depth(s, x, f) == depth(s, p, f) + 1,
{
    lemma_depth_stable(s, p, (f - 1) as nat, f);
}

/// An ancestor is itself rooted, strictly closer to the root.
pub proof fn lemma_anc_depth(s: Seq<TodoItem>, a: u32, x: u32, f: nat)
    requires
        anc(s, a, x, f),
        rooted(s, x, f),
    ensures
        rooted(s, a, f),
        depth(s, a, f) < depth(s, x, f),
    decreases f,
{
    let p = parent_of(s, x)->Some_0;
    lemma_depth_parent(s, x, p, f);
    if p == a {
    } else {
        lemma_anc_depth(s, a, p, (f - 1) as nat);
        lemma_depth_stable(s, a, (f - 1) as nat, f);
        lemma_depth_stable(s, p, (f - 1) as nat, f);
    }
}

/// No rooted node is its own strict ancestor.
pub proof fn lemma_anc_irrefl(s: Seq<TodoItem>, x: u32, f: nat)
    requires
        rooted(s, x, f),
    ensures
        !anc(s, x, x, f),
{
    if anc(s, x, x, f) {
        lemma_anc_depth(s, x, x, f);
    }
}

/// An ancestor is already found with any fuel at least the node's depth.
pub proof fn lemma_anc_tight(s: Seq<TodoItem>, a: u32, x: u32, f: nat)
    requires
        anc(s, a, x, f),
        rooted(s, x, f),
    ensures
        forall|g: nat| g >= depth(s, x, f) ==> anc(s, a, x, g),
    decreases f,
{
    let p = parent_of(s, x)->Some_0;
    lemma_depth_parent(s, x, p, f);
    if p == a {
    } else {
        lemma_anc_tight(s, a, p, (f - 1) as nat);
        lemma_depth_stable(s, p, (f - 1) as nat, f);
        assert forall|g: nat| g >= depth(s, x, f) implies anc(s, a, x, g) by {
            assert(anc(s, a, p, (g - 1) as nat));
        }
    }
}

/// Ancestry composes: an ancestor of an ancestor is an ancestor.
pub proof fn lemma_anc_trans(s: Seq<TodoItem>, a: u32, b: u32, c: u32, f: nat, g: nat)
    requires
        anc(s, a, b, f),
        anc(s, b, c, g),
    ensures
        anc(s, a, c, (f + g + 1) as nat),
    decreases g,
{
    let p = parent_of(s, c)->Some_0;
    if p == b {
        lemma_anc_fuel_mono(s, a, b, f, (f + g) as nat);
    } else {
        lemma_anc_trans(s, a, b, p, f, (g - 1) as nat);
    }
}

/// The walk from a node up to its root, as a sequence of ids, beginning at
/// the node itself.
pub open spec fn chain(s: Seq<TodoItem>, x: u32, fuel: nat) -> Seq<u32>
    decreases fuel,
{
    match parent_of(s, x) {
        Option::None => seq![x],
        Option::Some(p) => if fuel > 0 {
            seq![x] + chain(s, p, (fuel - 1) as nat)
        } else {
            seq![x]
        },
    }
}

/// Shape of the walk of a rooted node: one id per depth level, each present
/// and rooted.
pub proof fn lemma_chain_props(s: Seq<TodoItem>, x: u32, f: nat)
    requires
        rooted(s, x, f),
    ensures
        chain(s, x, f).len() == depth(s, x, f) + 1,
        forall|i: int|
            0 <= i < chain(s, x, f).len() ==> has_id(s, #[trigger] chain(s, x, f)[i]) && rooted(
                s,
                chain(s, x, f)[i],
                f,
            ) && depth(s, chain(s, x, f)[i], f) == depth(s, x, f) - i,
    decreases f,
{
    match parent_of(s, x) {
        Option::None => {},
        Option::Some(p) => {
            lemma_chain_props(s, p, (f - 1) as nat);
            lemma_depth_parent(s, x, p, f);
            let cp = chain(s, p, (f - 1) as nat);
            let cx = chain(s, x, f);
            assert forall|i: int|
                0 <= i < cx.len() implies has_id(s, #[trigger] cx[i]) && rooted(s, cx[i], f)
                && depth(s, cx[i], f) == depth(s, x, f) - i by {
                if i > 0 {
                    assert(cx[i] == cp[i - 1]);
                    assert(rooted(s, cp[i - 1], (f - 1) as nat));
                    lemma_depth_stable(s, cp[i - 1], (f - 1) as nat, f);
                }
            }
        },
    }
}

/// In a forest with unique ids, the depth of any rooted node is strictly
/// below the number of nodes.
pub proof fn lemma_depth_bound(s: Seq<TodoItem>, x: u32, f: nat)
    requires
        unique_ids(s),
        rooted(s, x, f),
    ensures
        depth(s, x, f) < s.len(),
{
    lemma_chain_props(s, x, f);
    let c = chain(s, x, f);
    assert forall|i: int, j: int| 0 <= i < c.len() && 0 <= j < c.len() && i != j implies c[i]
        != c[j] by {
        assert(depth(s, c[i], f) == depth(s, x, f) - i);
        assert(depth(s, c[j], f) == depth(s, x, f) - j);
    }
    assert(c.no_duplicates());
    c.unique_seq_to_set();
    let ids = s.map_values(|t: TodoItem| t.id);
    assert(c.to_set().subset_of(ids.to_set())) by {
        assert forall|e: u32| c.to_set().contains(e) implies ids.to_set().contains(e) by {
            assert(c.contains(e));
            assert(has_id(s, e));
            let i = choose|i: int| 0 <= i < s.len() && (#[trigger] s[i]).id == e;
            assert(ids[i] == e);
            assert(ids.contains(e));
        }
    }
    ids.lemma_cardinality_of_set();
    broadcast use vstd::seq_lib::seq_to_set_is_finite;

    vstd::set_lib::lemma_len_subset(c.to_set(), ids.to_set());
}

/// One explicit unfolding of `anc`, for use inside quantified proofs.
pub proof fn lemma_anc_unfold(s: Seq<TodoItem>, a: u32, x: u32, fuel: nat)
    ensures
        anc(s, a, x, fuel) <==> (has_id(s, x) && (parent_of(s, x) matches Option::Some(p) && (p
            == a || (fuel > 0 && anc(s, a, p, (fuel - 1) as nat))))),
{
}

/// Two forests with the same ids and the same parent references in the same
/// order (the other fields may differ).
pub open spec fn same_shape(s1: Seq<TodoItem>, s2: Seq<TodoItem>) -> bool {
    s1.len() == s2.len() && forall|i: int|
        0 <= i < s1.len() ==> (#[trigger] s2[i]).id == s1[i].id && s2[i].parent_id
            == s1[i].parent_id
}

/// Lookups agree between forests of the same shape.
pub proof fn lemma_same_shape_lookup(s1: Seq<TodoItem>, s2: Seq<TodoItem>, x: u32)
    requires
        unique_ids(s1),
        same_shape(s1, s2),
    ensures
        unique_ids(s2),
        has_id(s2, x) == has_id(s1, x),
        has_id(s1, x) ==> idx_of(s2, x) == idx_of(s1, x) && node_of(s2, x).id == x && node_of(
            s2,
            x,
        ).parent_id == node_of(s1, x).parent_id,
{
    if has_id(s1, x) {
        lemma_idx_of(s1, x);
        assert(has_id(s2, x)) by {
            assert(s2[idx_of(s1, x)].id == x);
        }
        lemma_idx_of(s2, x);
    }
    if has_id(s2, x) {
        let i = idx_of(s2, x);
        lemma_idx_of(s2, x);
        assert(s1[i].id == x);
    }
}

/// Chains agree between forests of the same shape.
pub proof fn lemma_same_shape_chain(s1: Seq<TodoItem>, s2: Seq<TodoItem>, x: u32, fuel: nat)
    requires
        unique_ids(s1),
        same_shape(s1, s2),
    ensures
        rooted(s2, x, fuel) == rooted(s1, x, fuel),
        forall|a: u32| anc(s2, a, x, fuel) == anc(s1, a, x, fuel),
        rooted(s1, x, fuel) ==> depth(s2, x, fuel) == depth(s1, x, fuel),
    decreases fuel,
{
    lemma_same_shape_lookup(s1, s2, x);
    if has_id(s1, x) {
        match parent_of(s1, x) {
            Option::None => {},
            Option::Some(p) => {
                if fuel > 0 {
                    lemma_same_shape_chain(s1, s2, p, (fuel - 1) as nat);
                } else {
                    lemma_same_shape_lookup(s1, s2, p);
                }
            },
        }
    }
    assert forall|a: u32| anc(s2, a, x, fuel) == anc(s1, a, x, fuel) by {
        lemma_anc_unfold(s1, a, x, fuel);
        lemma_anc_unfold(s2, a, x, fuel);
    }
}

/// Appending a node with a fresh id leaves the chains of the nodes already
/// present untouched.
pub proof fn lemma_push_fresh_chain(s: Seq<TodoItem>, t: TodoItem, x: u32, fuel: nat)
    requires
        unique_ids(s),
        !has_id(s, t.id),
        rooted(s, x, fuel),
    ensures
        rooted(s.push(t), x, fuel),
        depth(s.push(t), x, fuel) == depth(s, x, fuel),
        forall|a: u32| anc(s.push(t), a, x, fuel) == anc(s, a, x, fuel),
    decreases fuel,
{
    let s2 = s.push(t);
    lemma_push_fresh_lookup(s, t, x);
    match parent_of(s, x) {
        Option::None => {},
        Option::Some(p) => {
            lemma_push_fresh_chain(s, t, p, (fuel - 1) as nat);
        },
    }
    assert forall|a: u32| anc(s2, a, x, fuel) == anc(s, a, x, fuel) by {
        lemma_anc_unfold(s, a, x, fuel);
        lemma_anc_unfold(s2, a, x, fuel);
    }
}

/// Lookups of present ids are unchanged by appending a fresh node, and the
/// appended node is found at its own id.
pub proof fn lemma_push_fresh_lookup(s: Seq<TodoItem>, t: TodoItem, x: u32)
    requires
        unique_ids(s),
        !has_id(s, t.id),
    ensures
        unique_ids(s.push(t)),
        has_id(s.push(t), x) == (has_id(s, x) || x == t.id),
        has_id(s, x) ==> idx_of(s.push(t), x) == idx_of(s, x) && node_of(s.push(t), x) == node_of(
            s,
            x,
        ),
        node_of(s.push(t), t.id) == t,
{
    let s2 = s.push(t);
    assert(unique_ids(s2)) by {
        assert forall|i: int, j: int|
            0 <= i < s2.len() && 0 <= j < s2.len() && i != j implies (#[trigger] s2[i]).id
            != (#[trigger] s2[j]).id by {
            if i < s.len() && j < s.len() {
                assert(s2[i] == s[i] && s2[j] == s[j]);
            } else if i < s.len() {
                assert(s2[i] == s[i] && s2[j] == t);
                assert(has_id(s, s[i].id));
            } else {
                assert(s2[i] == t && s2[j] == s[j]);
                assert(has_id(s, s[j].id));
            }
        }
    }
    assert(s2[s.len() as int] == t);
    if has_id(s, x) {
        lemma_idx_of(s, x);
        assert(s2[idx_of(s, x)].id == x);
        lemma_idx_of(s2, x);
    }
    if has_id(s2, x) && x != t.id {
        let i = idx_of(s2, x);
        lemma_idx_of(s2, x);
        assert(i < s.len() && s[i].id == x);
    }
    lemma_idx_of(s2, t.id);
}

/// Every node of `s2` is (whole, fields and all) a node of `s`.
pub open spec fn sub_items(s2: Seq<TodoItem>, s: Seq<TodoItem>) -> bool {
    forall|j: int| 0 <= j < s2.len() ==> exists|i: int| 0 <= i < s.len() && s[i] == #[trigger] s2[j]
}

/// Lookups in a sub-forest agree with the ambient forest.
pub proof fn lemma_sub_lookup(s: Seq<TodoItem>, s2: Seq<TodoItem>, x: u32)
    requires
        unique_ids(s),
        unique_ids(s2),
        sub_items(s2, s),
        has_id(s2, x),
    ensures
        has_id(s, x),
        node_of(s2, x) == node_of(s, x),
{
    let j = idx_of(s2, x);
    lemma_idx_of(s2, x);
    let i = choose|i: int| 0 <= i < s.len() && s[i] == s2[j];
    assert(s[i].id == x);
    lemma_idx_of(s, x);
}

/// A node of a sub-forest whose ancestors are all kept has the same chain
/// there as in the ambient forest.
pub proof fn lemma_sub_chain(s: Seq<TodoItem>, s2: Seq<TodoItem>, x: u32, fuel: nat)
    requires
        unique_ids(s),
        unique_ids(s2),
        sub_items(s2, s),
        rooted(s, x, fuel),
        has_id(s2, x),
        forall|a: u32| anc(s, a, x, fuel) ==> has_id(s2, a),
    ensures
        rooted(s2, x, fuel),
        depth(s2, x, fuel) == depth(s, x, fuel),
        forall|a: u32| anc(s2, a, x, fuel) == anc(s, a, x, fuel),
    decreases fuel,
{
    lemma_sub_lookup(s, s2, x);
    match parent_of(s, x) {
        Option::None => {},
        Option::Some(p) => {
            assert(anc(s, p, x, fuel));
            assert forall|a: u32| anc(s, a, p, (fuel - 1) as nat) implies has_id(s2, a) by {
                assert(anc(s, a, x, fuel));
            }
            lemma_sub_chain(s, s2, p, (fuel - 1) as nat);
        },
    }
    assert forall|a: u32| anc(s2, a, x, fuel) == anc(s, a, x, fuel) by {
        lemma_anc_unfold(s, a, x, fuel);
        lemma_anc_unfold(s2, a, x, fuel);
    }
}

/// Two forests with the same ids in the same order, where parent references
/// agree except possibly at the node `mid`.
pub open spec fn same_except_parent(s1: Seq<TodoItem>, s2: Seq<TodoItem>, mid: u32) -> bool {
    s1.len() == s2.len() && forall|i: int|
        0 <= i < s1.len() ==> (#[trigger] s2[i]).id == s1[i].id && (s1[i].id != mid
            ==> s2[i].parent_id == s1[i].parent_id)
}

/// Lookups agree between forests that differ only at `mid`'s parent.
pub proof fn lemma_reparent_lookup(s1: Seq<TodoItem>, s2: Seq<TodoItem>, mid: u32, x: u32)
    requires
        unique_ids(s1),
        same_except_parent(s1, s2, mid),
    ensures
        unique_ids(s2),
        has_id(s2, x) == has_id(s1, x),
        has_id(s1, x) ==> idx_of(s2, x) == idx_of(s1, x) && node_of(s2, x).id == x,
        has_id(s1, x) && x != mid ==> node_of(s2, x).parent_id == node_of(s1, x).parent_id,
{
    if has_id(s1, x) {
        lemma_idx_of(s1, x);
        assert(has_id(s2, x)) by {
            assert(s2[idx_of(s1, x)].id == x);
        }
        lemma_idx_of(s2, x);
    }
    if has_id(s2, x) {
        let i = idx_of(s2, x);
        lemma_idx_of(s2, x);
        assert(s1[i].id == x);
    }
}

/// A node outside `mid`'s subtree keeps its chain when only `mid`'s parent
/// reference changes.
pub proof fn lemma_reparent_untouched(
    s1: Seq<TodoItem>,
    s2: Seq<TodoItem>,
    mid: u32,
    x: u32,
    fuel: nat,
)
    requires
        unique_ids(s1),
        same_except_parent(s1, s2, mid),
        rooted(s1, x, fuel),
        x != mid,
        !anc(s1, mid, x, fuel),
    ensures
        rooted(s2, x, fuel),
        depth(s2, x, fuel) == depth(s1, x, fuel),
        forall|a: u32| anc(s2, a, x, fuel) == anc(s1, a, x, fuel),
    decreases fuel,
{
    lemma_reparent_lookup(s1, s2, mid, x);
    match parent_of(s1, x) {
        Option::None => {},
        Option::Some(p) => {
            assert(p != mid) by {
                if p == mid {
                    assert(anc(s1, mid, x, fuel));
                }
            }
            assert(!anc(s1, mid, p, (fuel - 1) as nat)) by {
                if anc(s1, mid, p, (fuel - 1) as nat) {
                    assert(anc(s1, mid, x, fuel));
                }
            }
            lemma_reparent_untouched(s1, s2, mid, p, (fuel - 1) as nat);
        },
    }
    assert forall|a: u32| anc(s2, a, x, fuel) == anc(s1, a, x, fuel) by {
        lemma_anc_unfold(s1, a, x, fuel);
        lemma_anc_unfold(s2, a, x, fuel);
    }
}


/// Two forests with the same ids, parent references and positions in the
/// same order (text, completion and counters may differ).
pub open spec fn same_structure(s1: Seq<TodoItem>, s2: Seq<TodoItem>) -> bool {
    s1.len() == s2.len() && forall|i: int|
        0 <= i < s1.len() ==> (#[trigger] s2[i]).id == s1[i].id && s2[i].parent_id
            == s1[i].parent_id && s2[i].position == s1[i].position
}

/// Well-formedness carries over to a forest of the same structure whose
/// counters are in range.
pub proof fn lemma_same_structure_wf(s1: Seq<TodoItem>, s2: Seq<TodoItem>)
    requires
        wf(s1),
        same_structure(s1, s2),
        counts_ok(s2),
    ensures
        wf(s2),
{
    assert forall|i: int| 0 <= i < s2.len() implies rooted(
        s2,
        (#[trigger] s2[i]).id,
        s2.len() as nat,
    ) by {
        assert(rooted(s1, s1[i].id, s1.len() as nat));
        lemma_same_shape_chain(s1, s2, s1[i].id, s1.len() as nat);
    }
    assert forall|i: int|
        0 <= i < s2.len() implies 0 <= (#[trigger] s2[i]).position && (s2[i].position as int)
        < count_group(s2, s2[i].parent_id) by {
        lemma_count_group_pointwise(s1, s2, s2[i].parent_id);
        assert(s1[i].position == s2[i].position);
    }
}

/// The recomputed completion state of a parent: it has at least one direct
/// child and every direct child is completed.
pub open spec fn derived_completed(s: Seq<TodoItem>, pid: u32) -> bool {
    count_group(s, Option::Some(pid)) > 0 && forall|j: int|
        0 <= j < s.len() && (#[trigger] s[j]).parent_id == Option::Some(pid) ==> s[j].completed
}


/// Appending a fresh node at the end of its sibling group preserves
/// well-formedness.
pub proof fn lemma_append_root_wf(s: Seq<TodoItem>, t: TodoItem)
    requires
        wf(s),
        !has_id(s, t.id),
        t.parent_id == Option::<u32>::None,
        t.position as int == count_group(s, Option::None),
        (match t.target_count {
            Option::None => t.current_count == 0,
            Option::Some(tc) => 0 <= t.current_count <= tc,
        }),
        count_group(s, Option::None) < 0x7fff_ffff,
    ensures
        wf(s.push(t)),
{
    let s2 = s.push(t);
    lemma_push_fresh_lookup(s, t, t.id);
    assert forall|i: int| 0 <= i < s2.len() implies rooted(
        s2,
        (#[trigger] s2[i]).id,
        s2.len() as nat,
    ) by {
        if i < s.len() {
            assert(s2[i] == s[i]);
            assert(rooted(s, s[i].id, s.len() as nat));
            lemma_push_fresh_chain(s, t, s[i].id, s.len() as nat);
            lemma_rooted_fuel_mono(s2, s[i].id, s.len() as nat, s2.len() as nat);
        } else {
            assert(s2[i] == t);
            assert(node_of(s2, t.id) == t);
        }
    }
    assert forall|i: int|
        0 <= i < s2.len() implies 0 <= (#[trigger] s2[i]).position && ((s2[i].position as int)
        < count_group(s2, s2[i].parent_id)) by {
        lemma_count_group_push(s, t, s2[i].parent_id);
        lemma_count_group_bounds(s, Option::Some(t.id));
        if i < s.len() {
            assert(s2[i] == s[i]);
            lemma_count_group_bounds(s, s[i].parent_id);
        } else {
            assert(s2[i] == t);
            lemma_count_group_bounds(s, Option::None);
        }
    }
    assert forall|i: int, j: int|
        0 <= i < s2.len() && 0 <= j < s2.len() && i != j && (#[trigger] s2[i]).parent_id
            == (#[trigger] s2[j]).parent_id implies s2[i].position != s2[j].position by {
        if i < s.len() && j < s.len() {
            assert(s2[i] == s[i] && s2[j] == s[j]);
        } else if i < s.len() {
            assert(s2[i] == s[i] && s2[j] == t);
        } else {
            assert(s2[i] == t && s2[j] == s[j]);
        }
    }
    assert(counts_ok(s2)) by {
        assert forall|i: int|
            0 <= i < s2.len() implies match (#[trigger] s2[i]).target_count {
            Option::None => s2[i].current_count == 0,
            Option::Some(tc) => 0 <= s2[i].current_count <= tc,
        } by {
            if i < s.len() {
                assert(s2[i] == s[i]);
            } else {
                assert(s2[i] == t);
            }
        }
    }
}


/// Two forests that agree everywhere except possibly in the stored
/// completion flags.
pub open spec fn same_but_completed(s1: Seq<TodoItem>, s2: Seq<TodoItem>) -> bool {
    s1.len() == s2.len() && forall|i: int|
        0 <= i < s1.len() ==> (#[trigger] s2[i]) == (TodoItem { completed: s2[i].completed, ..s1[i] })
}

/// Flipping completion flags preserves well-formedness.
pub proof fn lemma_same_but_completed_wf(s1: Seq<TodoItem>, s2: Seq<TodoItem>)
    requires
        wf(s1),
        same_but_completed(s1, s2),
    ensures
        wf(s2),
{
    assert(counts_ok(s2)) by {
        assert forall|i: int|
            0 <= i < s2.len() implies match (#[trigger] s2[i]).target_count {
            Option::None => s2[i].current_count == 0,
            Option::Some(t) => 0 <= s2[i].current_count <= t,
        } by {
            assert(s2[i] == (TodoItem { completed: s2[i].completed, ..s1[i] }));
            assert(match s1[i].target_count {
                Option::None => s1[i].current_count == 0,
                Option::Some(t) => 0 <= s1[i].current_count <= t,
            });
        }
    }
    lemma_same_structure_wf(s1, s2);
}

/// One step up the chain: `cur`'s ancestors are exactly its parent and the
/// parent's ancestors, and the parent sits one level higher.
pub proof fn lemma_anc_parent_step(s: Seq<TodoItem>, needle: u32, cur: u32, p: u32)
    requires
        unique_ids(s),
        rooted(s, cur, s.len() as nat),
        parent_of(s, cur) == Option::Some(p),
    ensures
        rooted(s, p, s.len() as nat),
        depth(s, p, s.len() as nat) < depth(s, cur, s.len() as nat),
        is_anc(s, needle, cur) == (p == needle || is_anc(s, needle, p)),
{
    let len = s.len() as nat;
    lemma_depth_parent(s, cur, p, len);
    if is_anc(s, needle, p) && p != needle {
        lemma_anc_tight(s, needle, p, len);
        lemma_depth_bound(s, p, len);
        assert(anc(s, needle, p, depth(s, p, len)));
        lemma_anc_fuel_mono(s, needle, p, depth(s, p, len), (len - 1) as nat);
        assert(anc(s, needle, cur, len));
    }
    if anc(s, needle, cur, len) && p != needle {
        assert(anc(s, needle, p, (len - 1) as nat));
        lemma_anc_fuel_mono(s, needle, p, (len - 1) as nat, len);
    }
}

/// Strict ancestry composes at the canonical fuel.
pub proof fn lemma_is_anc_trans(s: Seq<TodoItem>, a: u32, b: u32, c: u32)
    requires
        unique_ids(s),
        rooted(s, c, s.len() as nat),
        is_anc(s, a, b),
        is_anc(s, b, c),
    ensures
        is_anc(s, a, c),
{
    let len = s.len() as nat;
    let big = (len + len + 1) as nat;
    lemma_anc_trans(s, a, b, c, len, len);
    lemma_rooted_fuel_mono(s, c, len, big);
    lemma_depth_stable(s, c, len, big);
    lemma_anc_tight(s, a, c, big);
    lemma_depth_bound(s, c, len);
    assert(anc(s, a, c, len));
}

/// A rooted node is not its own strict ancestor, at the canonical fuel.
pub proof fn lemma_is_anc_irrefl(s: Seq<TodoItem>, x: u32)
    requires
        rooted(s, x, s.len() as nat),
    ensures
        !is_anc(s, x, x),
{
    lemma_anc_irrefl(s, x, s.len() as nat);
}

/// Which nodes the completion cascade has already rewritten, while the
/// upward walk stands at `cur`: the strict ancestors of `id` at or below
/// `cur`.
pub open spec fn cascade_done(s: Seq<TodoItem>, id: u32, cur: u32, x: u32) -> bool {
    is_anc(s, x, id) && !is_anc(s, x, cur)
}

/// The full effect of `set_completed` (self, cascade down, cascade up):
/// structure, text and counters are untouched; the whole subtree of `id`
/// carries the written flag; every strict ancestor of `id` carries its
/// recomputed flag, evaluated in the final state; everything else is
/// unchanged.
pub open spec fn completion_update(pre: Seq<TodoItem>, post: Seq<TodoItem>, id: u32, c: bool) -> bool {
    &&& same_but_completed(pre, post)
    &&& forall|i: int|
        0 <= i < post.len() && in_subtree(pre, id, (#[trigger] post[i]).id) ==> post[i].completed
            == c
    &&& forall|i: int|
        0 <= i < post.len() && !in_subtree(pre, id, (#[trigger] post[i]).id) && !is_anc(
            pre,
            post[i].id,
            id,
        ) ==> post[i].completed == pre[i].completed
    &&& forall|i: int|
        0 <= i < post.len() && is_anc(pre, (#[trigger] post[i]).id, id) ==> post[i].completed
            == derived_completed(post, post[i].id)
}


/// Replacing one node with a twin in another group's terms: if the replaced
/// node is not a child of `pid` and keeps its parent, the recomputed
/// completion of `pid` is unchanged.
pub proof fn lemma_derived_unchanged(s: Seq<TodoItem>, k: int, t: TodoItem, pid: u32)
    requires
        0 <= k < s.len(),
        t.parent_id == s[k].parent_id,
        s[k].parent_id != Option::Some(pid),
    ensures
        derived_completed(s.update(k, t), pid) == derived_completed(s, pid),
{
    let s2 = s.update(k, t);
    lemma_count_group_pointwise(s, s2, Option::Some(pid));
    assert forall|j: int|
        0 <= j < s.len() && (#[trigger] s[j]).parent_id == Option::Some(pid) implies s[j].completed
        == s2[j].completed by {
        assert(j != k);
    }
    assert forall|j: int|
        0 <= j < s2.len() && (#[trigger] s2[j]).parent_id == Option::Some(pid) implies s2[j].completed
        == s[j].completed by {
        assert(j != k);
    }
}

/// A rooted node is never its own parent.
pub proof fn lemma_parent_not_self(s: Seq<TodoItem>, x: u32)
    requires
        rooted(s, x, s.len() as nat),
    ensures
        parent_of(s, x) != Option::Some(x),
{
    if parent_of(s, x) == Option::Some(x) {
        assert(anc(s, x, x, s.len() as nat));
        lemma_anc_irrefl(s, x, s.len() as nat);
    }
}

/// The state of the upward cascade walk while it stands at `cur`, after
/// writing `c` on the whole subtree of `id`: ancestors at or below `cur`
/// already carry their recomputed flag, everything else outside the subtree
/// is untouched.
pub open spec fn cascade_inv(
    pre: Seq<TodoItem>,
    s: Seq<TodoItem>,
    id: u32,
    cur: u32,
    c: bool,
) -> bool {
    &&& same_but_completed(pre, s)
    &&& forall|j: int|
        0 <= j < pre.len() && in_subtree(pre, id, (#[trigger] pre[j]).id) ==> s[j].completed == c
    &&& forall|j: int|
        0 <= j < pre.len() && !in_subtree(pre, id, (#[trigger] pre[j]).id) && !cascade_done(
            pre,
            id,
            cur,
            pre[j].id,
        ) ==> s[j].completed == pre[j].completed
    &&& forall|j: int|
        0 <= j < pre.len() && cascade_done(pre, id, cur, (#[trigger] pre[j]).id) ==> s[j].completed
            == derived_completed(s, pre[j].id)
}

/// One step of the upward cascade: writing the recomputed flag on `cur`'s
/// parent `p` carries the walk invariant from `cur` to `p`.
pub proof fn lemma_cascade_step(
    pre: Seq<TodoItem>,
    s: Seq<TodoItem>,
    s2: Seq<TodoItem>,
    id: u32,
    cur: u32,
    p: u32,
    c: bool,
    d: bool,
)
    requires
        wf(pre),
        has_id(pre, id),
        rooted(pre, cur, pre.len() as nat),
        cur == id || is_anc(pre, cur, id),
        parent_of(pre, cur) == Option::Some(p),
        cascade_inv(pre, s, id, cur, c),
        d == derived_completed(s, p),
        s2 == s.update(idx_of(pre, p), (TodoItem { completed: d, ..pre[idx_of(pre, p)] })),
    ensures
        rooted(pre, p, pre.len() as nat),
        depth(pre, p, pre.len() as nat) < depth(pre, cur, pre.len() as nat),
        has_id(pre, p),
        is_anc(pre, p, id),
        p != id,
        !in_subtree(pre, id, p),
        cascade_inv(pre, s2, id, p, c),
{
    let len = pre.len() as nat;
    let pip = idx_of(pre, p);
    lemma_anc_parent_step(pre, p, cur, p);
    assert(is_anc(pre, p, cur));
    lemma_idx_of(pre, id);
    assert(rooted(pre, id, len));
    lemma_idx_of(pre, p);
    // `p` is a strict ancestor of `id`.
    if cur == id {
        assert(anc(pre, p, id, len));
    } else {
        lemma_is_anc_trans(pre, p, cur, id);
    }
    // `p` is outside the subtree of `id`.
    lemma_is_anc_irrefl(pre, id);
    assert(p != id);
    if is_anc(pre, id, p) {
        lemma_is_anc_trans(pre, id, p, id);
        assert(false);
    }
    // The ancestor set of `cur` splits into `p` and the ancestors of `p`.
    assert forall|x: u32| is_anc(pre, x, cur) == (x == p || is_anc(pre, x, p)) by {
        lemma_anc_parent_step(pre, x, cur, p);
    }
    lemma_is_anc_irrefl(pre, p);
    // The written twin keeps everything but the flag.
    assert(same_but_completed(pre, s2)) by {
        assert forall|i: int|
            0 <= i < pre.len() implies (#[trigger] s2[i]) == (TodoItem {
            completed: s2[i].completed,
            ..pre[i]
        }) by {
            if i != pip {
                assert(s2[i] == s[i]);
            }
        }
    }
    // `p` is not its own parent, so `p`'s children keep their flags.
    assert(pre[pip].parent_id != Option::Some(p)) by {
        lemma_parent_not_self(pre, p);
    }
    assert(s[pip].parent_id == pre[pip].parent_id);
    lemma_derived_unchanged(s, pip, (TodoItem { completed: d, ..pre[pip] }), p);
    assert(s2[pip].completed == derived_completed(s2, p));
    // Subtree flags are untouched by the write.
    assert forall|j: int|
        0 <= j < pre.len() && in_subtree(pre, id, (#[trigger] pre[j]).id) implies s2[j].completed
        == c by {
        assert(pre[j].id != p);
        assert(j != pip);
        assert(s2[j] == s[j]);
    }
    // Flags outside the subtree and outside the processed set are untouched.
    assert forall|j: int|
        0 <= j < pre.len() && !in_subtree(pre, id, (#[trigger] pre[j]).id) && !cascade_done(
            pre,
            id,
            p,
            pre[j].id,
        ) implies s2[j].completed == pre[j].completed by {
        let x = pre[j].id;
        assert(is_anc(pre, x, cur) == (x == p || is_anc(pre, x, p)));
        if j == pip {
            assert(x == p);
            assert(cascade_done(pre, id, p, p));
            assert(false);
        } else {
            assert(s2[j] == s[j]);
            assert(!cascade_done(pre, id, cur, x));
        }
    }
    // Processed ancestors carry their recomputed flag, now including `p`.
    assert forall|j: int|
        0 <= j < pre.len() && cascade_done(pre, id, p, (#[trigger] pre[j]).id) implies s2[j].completed
        == derived_completed(s2, pre[j].id) by {
        let x = pre[j].id;
        if j == pip {
        } else {
            assert(x != p);
            assert(s2[j] == s[j]);
            assert(is_anc(pre, x, cur) == (x == p || is_anc(pre, x, p)));
            assert(cascade_done(pre, id, cur, x));
            assert(s[j].completed == derived_completed(s, x));
            // The rewritten node `p` is not a child of `x`.
            assert(pre[pip].parent_id != Option::Some(x)) by {
                if pre[pip].parent_id == Option::Some(x) {
                    assert(parent_of(pre, p) == Option::Some(x));
                    assert(anc(pre, x, p, len));
                    assert(!is_anc(pre, x, p));
                    assert(false);
                }
            }
            lemma_derived_unchanged(s, pip, (TodoItem { completed: d, ..pre[pip] }), x);
        }
    }
}

/// When the walk reaches a root, the invariant is the full contract of the
/// completion cascade.
pub proof fn lemma_cascade_finish(
    pre: Seq<TodoItem>,
    s: Seq<TodoItem>,
    id: u32,
    cur: u32,
    c: bool,
)
    requires
        wf(pre),
        has_id(pre, id),
        has_id(pre, cur),
        parent_of(pre, cur) == Option::<u32>::None,
        cur == id || is_anc(pre, cur, id),
        cascade_inv(pre, s, id, cur, c),
    ensures
        completion_update(pre, s, id, c),
{
    assert forall|x: u32| !is_anc(pre, x, cur) by {
        lemma_anc_unfold(pre, x, cur, pre.len() as nat);
    }
    assert forall|i: int|
        0 <= i < s.len() && in_subtree(pre, id, (#[trigger] s[i]).id) implies s[i].completed
        == c by {
        assert(s[i].id == pre[i].id);
    }
    assert forall|i: int|
        0 <= i < s.len() && !in_subtree(pre, id, (#[trigger] s[i]).id) && !is_anc(
            pre,
            s[i].id,
            id,
        ) implies s[i].completed == pre[i].completed by {
        assert(s[i].id == pre[i].id);
        assert(!cascade_done(pre, id, cur, pre[i].id));
    }
    assert forall|i: int|
        0 <= i < s.len() && is_anc(pre, (#[trigger] s[i]).id, id) implies s[i].completed
            == derived_completed(s, s[i].id) by {
        assert(s[i].id == pre[i].id);
        assert(cascade_done(pre, id, cur, pre[i].id));
    }
}


/// A rooted node stays rooted with any fuel at least its depth.
pub proof fn lemma_rooted_tight(s: Seq<TodoItem>, x: u32, f: nat)
    requires
        rooted(s, x, f),
    ensures
        forall|g: nat| g >= depth(s, x, f) ==> rooted(s, x, g),
    decreases f,
{
    match parent_of(s, x) {
        Option::None => {},
        Option::Some(p) => {
            lemma_rooted_tight(s, p, (f - 1) as nat);
            lemma_depth_parent(s, x, p, f);
            assert forall|g: nat| g >= depth(s, x, f) implies rooted(s, x, g) by {
                assert(rooted(s, p, (g - 1) as nat));
            }
        },
    }
}

/// The number of direct children of `par` that fail `pred`.
pub open spec fn count_group_del(
    s: Seq<TodoItem>,
    par: Option<u32>,
    pred: spec_fn(TodoItem) -> bool,
) -> int
    decreases s.len(),
{
    if s.len() == 0 {
        0
    } else {
        count_group_del(s.drop_last(), par, pred) + if s.last().parent_id == par && !pred(
            s.last(),
        ) {
            1int
        } else {
            0int
        }
    }
}

/// Filtering removes exactly the failing children from each group count.
pub proof fn lemma_count_group_filter(
    s: Seq<TodoItem>,
    pred: spec_fn(TodoItem) -> bool,
    par: Option<u32>,
)
    ensures
        count_group(s.filter(pred), par) == count_group(s, par) - count_group_del(s, par, pred),
    decreases s.len(),
{
    reveal(Seq::filter);
    if s.len() > 0 {
        lemma_count_group_filter(s.drop_last(), pred, par);
        if pred(s.last()) {
            lemma_count_group_push(s.drop_last().filter(pred), s.last(), par);
        }
    }
}

/// Nothing fails: nothing is removed from the group.
pub proof fn lemma_count_group_del_zero(
    s: Seq<TodoItem>,
    par: Option<u32>,
    pred: spec_fn(TodoItem) -> bool,
)
    requires
        forall|j: int|
            0 <= j < s.len() ==> !((#[trigger] s[j]).parent_id == par && !pred(s[j])),
    ensures
        count_group_del(s, par, pred) == 0,
    decreases s.len(),
{
    if s.len() > 0 {
        assert(s.last() == s[s.len() - 1]);
        assert forall|j: int|
            0 <= j < s.drop_last().len() implies !((#[trigger] s.drop_last()[j]).parent_id == par
            && !pred(s.drop_last()[j])) by {
            assert(s.drop_last()[j] == s[j]);
        }
        lemma_count_group_del_zero(s.drop_last(), par, pred);
    }
}

/// Exactly one child fails: exactly one is removed from the group.
pub proof fn lemma_count_group_del_single(
    s: Seq<TodoItem>,
    par: Option<u32>,
    pred: spec_fn(TodoItem) -> bool,
    k: int,
)
    requires
        0 <= k < s.len(),
        s[k].parent_id == par && !pred(s[k]),
        forall|j: int|
            0 <= j < s.len() && j != k ==> !((#[trigger] s[j]).parent_id == par && !pred(s[j])),
    ensures
        count_group_del(s, par, pred) == 1,
    decreases s.len(),
{
    if k == s.len() - 1 {
        assert(s.last() == s[k]);
        assert forall|j: int|
            0 <= j < s.drop_last().len() implies !((#[trigger] s.drop_last()[j]).parent_id == par
            && !pred(s.drop_last()[j])) by {
            assert(s.drop_last()[j] == s[j]);
        }
        lemma_count_group_del_zero(s.drop_last(), par, pred);
    } else {
        assert(s.last() == s[s.len() - 1]);
        assert(s.drop_last()[k] == s[k]);
        assert forall|j: int|
            0 <= j < s.drop_last().len() && j != k implies !((#[trigger] s.drop_last()[j]).parent_id
            == par && !pred(s.drop_last()[j])) by {
            assert(s.drop_last()[j] == s[j]);
        }
        lemma_count_group_del_single(s.drop_last(), par, pred, k);
    }
}

/// Every element of a filtered sequence is an element of the unfiltered one.
pub proof fn lemma_filter_members(s: Seq<TodoItem>, pred: spec_fn(TodoItem) -> bool)
    ensures
        forall|j: int|
            0 <= j < s.filter(pred).len() ==> exists|i: int|
                0 <= i < s.len() && s[i] == #[trigger] s.filter(pred)[j],
    decreases s.len(),
{
    reveal(Seq::filter);
    if s.len() > 0 {
        lemma_filter_members(s.drop_last(), pred);
        let fs = s.filter(pred);
        let fd = s.drop_last().filter(pred);
        assert forall|j: int|
            0 <= j < fs.len() implies exists|i: int| 0 <= i < s.len() && s[i] == #[trigger] fs[j] by {
            if j < fd.len() {
                assert(fs[j] == fd[j]);
                let i = choose|i: int| 0 <= i < s.drop_last().len() && s.drop_last()[i] == fd[j];
                assert(s[i] == fs[j]);
            } else {
                assert(fs[j] == s.last());
                assert(s[s.len() - 1] == fs[j]);
            }
        }
    }
}

/// Filtering a forest with unique ids keeps the ids unique.
pub proof fn lemma_filter_unique(s: Seq<TodoItem>, pred: spec_fn(TodoItem) -> bool)
    requires
        unique_ids(s),
    ensures
        unique_ids(s.filter(pred)),
    decreases s.len(),
{
    reveal(Seq::filter);
    if s.len() > 0 {
        let d = s.drop_last();
        assert forall|i: int, j: int|
            0 <= i < d.len() && 0 <= j < d.len() && i != j implies (#[trigger] d[i]).id
            != (#[trigger] d[j]).id by {
            assert(d[i] == s[i] && d[j] == s[j]);
        }
        lemma_filter_unique(d, pred);
        lemma_filter_members(d, pred);
        if pred(s.last()) {
            let fd = d.filter(pred);
            let fs = s.filter(pred);
            assert forall|i: int, j: int|
                0 <= i < fs.len() && 0 <= j < fs.len() && i != j implies (#[trigger] fs[i]).id
                != (#[trigger] fs[j]).id by {
                if i < fd.len() && j < fd.len() {
                    assert(fs[i] == fd[i] && fs[j] == fd[j]);
                } else if i < fd.len() {
                    assert(fs[i] == fd[i] && fs[j] == s.last());
                    let i0 = choose|i0: int| 0 <= i0 < d.len() && d[i0] == fd[i];
                    assert(s[i0] == fd[i] && s[s.len() - 1] == s.last());
                } else {
                    assert(fs[i] == s.last() && fs[j] == fd[j]);
                    let j0 = choose|j0: int| 0 <= j0 < d.len() && d[j0] == fd[j];
                    assert(s[j0] == fd[j] && s[s.len() - 1] == s.last());
                }
            }
        }
    }
}

/// A node as it appears after deleting the subtree of `id`: nodes after
/// the deleted node in its sibling group close the gap by one position.
pub open spec fn shifted_after_delete(pre: Seq<TodoItem>, id: u32, t: TodoItem) -> TodoItem {
    if t.parent_id == parent_of(pre, id) && t.position > node_of(pre, id).position {
        TodoItem { position: (t.position - 1) as i32, ..t }
    } else {
        t
    }
}

/// The forest after deleting `id` and its whole subtree: the other nodes,
/// in order, with the deleted node's sibling group compacted.
pub open spec fn remove_subtree(pre: Seq<TodoItem>, id: u32) -> Seq<TodoItem> {
    pre.filter(|t: TodoItem| !in_subtree(pre, id, t.id)).map_values(
        |t: TodoItem| shifted_after_delete(pre, id, t),
    )
}


/// Deleting a subtree keeps exactly the nodes outside it, each equal to its
/// old self up to the one-position shift in the deleted node's group.
pub proof fn lemma_delete_keeps(pre: Seq<TodoItem>, id: u32)
    requires
        wf(pre),
        has_id(pre, id),
    ensures
        remove_subtree(pre, id).len() <= pre.len(),
        unique_ids(remove_subtree(pre, id)),
        forall|x: u32|
            has_id(remove_subtree(pre, id), x) == (has_id(pre, x) && !in_subtree(pre, id, x)),
        forall|j: int|
            0 <= j < remove_subtree(pre, id).len() ==> has_id(
                pre,
                (#[trigger] remove_subtree(pre, id)[j]).id,
            ) && !in_subtree(pre, id, remove_subtree(pre, id)[j].id) && remove_subtree(pre, id)[j]
                == shifted_after_delete(pre, id, node_of(pre, remove_subtree(pre, id)[j].id)),
{
    let keep = |t: TodoItem| !in_subtree(pre, id, t.id);
    let fs = pre.filter(keep);
    let post = remove_subtree(pre, id);
    broadcast use vstd::seq_lib::group_filter_ensures;

    lemma_filter_members(pre, keep);
    lemma_filter_unique(pre, keep);
    assert(post.len() == fs.len());
    assert(unique_ids(post)) by {
        assert forall|i: int, j: int|
            0 <= i < post.len() && 0 <= j < post.len() && i != j implies (#[trigger] post[i]).id
            != (#[trigger] post[j]).id by {
            assert(post[i] == shifted_after_delete(pre, id, fs[i]));
            assert(post[j] == shifted_after_delete(pre, id, fs[j]));
        }
    }
    assert forall|j: int|
        0 <= j < post.len() implies has_id(pre, (#[trigger] post[j]).id) && !in_subtree(
        pre,
        id,
        post[j].id,
    ) && post[j] == shifted_after_delete(pre, id, node_of(pre, post[j].id)) by {
        assert(post[j] == shifted_after_delete(pre, id, fs[j]));
        let i = choose|i: int| 0 <= i < pre.len() && pre[i] == fs[j];
        assert(pre[i].id == post[j].id);
        assert(has_id(pre, post[j].id));
        lemma_idx_of(pre, post[j].id);
        assert(node_of(pre, post[j].id) == pre[i]);
        assert(keep(fs[j]));
    }
    assert forall|x: u32| has_id(post, x) == (has_id(pre, x) && !in_subtree(pre, id, x)) by {
        if has_id(post, x) {
            let j = choose|j: int| 0 <= j < post.len() && (#[trigger] post[j]).id == x;
            assert(has_id(pre, post[j].id) && !in_subtree(pre, id, post[j].id));
        }
        if has_id(pre, x) && !in_subtree(pre, id, x) {
            let i = choose|i: int| 0 <= i < pre.len() && (#[trigger] pre[i]).id == x;
            assert(keep(pre[i]));
            assert(fs.contains(pre[i]));
            let j = choose|j: int| 0 <= j < fs.len() && fs[j] == pre[i];
            assert(post[j] == shifted_after_delete(pre, id, fs[j]));
            assert(post[j].id == x);
        }
    }
}

/// After deleting a subtree, every kept node still reaches a root.
pub proof fn lemma_delete_rooted(pre: Seq<TodoItem>, id: u32)
    requires
        wf(pre),
        has_id(pre, id),
    ensures
        all_rooted(remove_subtree(pre, id)),
{
    let keep = |t: TodoItem| !in_subtree(pre, id, t.id);
    let fs = pre.filter(keep);
    let post = remove_subtree(pre, id);
    let lp = pre.len() as nat;
    broadcast use vstd::seq_lib::group_filter_ensures;

    lemma_filter_members(pre, keep);
    lemma_filter_unique(pre, keep);
    lemma_delete_keeps(pre, id);
    assert(sub_items(fs, pre));
    assert(same_shape(fs, post)) by {
        assert forall|i: int|
            0 <= i < fs.len() implies (#[trigger] post[i]).id == fs[i].id && post[i].parent_id
            == fs[i].parent_id by {
            assert(post[i] == shifted_after_delete(pre, id, fs[i]));
        }
    }
    assert forall|j: int| 0 <= j < post.len() implies rooted(
        post,
        (#[trigger] post[j]).id,
        post.len() as nat,
    ) by {
        let x = post[j].id;
        assert(post[j] == shifted_after_delete(pre, id, fs[j]));
        assert(fs[j].id == x);
        assert(has_id(fs, x));
        assert(has_id(pre, x) && !in_subtree(pre, id, x));
        lemma_idx_of(pre, x);
        assert(pre[idx_of(pre, x)].id == x);
        assert(rooted(pre, x, lp));
        assert forall|a: u32| anc(pre, a, x, lp) implies has_id(fs, a) by {
            lemma_anc_depth(pre, a, x, lp);
            assert(has_id(pre, a));
            if a == id {
                assert(is_anc(pre, id, x));
                assert(false);
            }
            if is_anc(pre, id, a) {
                lemma_is_anc_trans(pre, id, a, x);
                assert(false);
            }
            assert(has_id(fs, a) == (has_id(pre, a) && !in_subtree(pre, id, a)));
        }
        lemma_sub_chain(pre, fs, x, lp);
        lemma_depth_bound(fs, x, lp);
        lemma_rooted_tight(fs, x, lp);
        assert(rooted(fs, x, fs.len() as nat));
        lemma_same_shape_chain(fs, post, x, fs.len() as nat);
    }
}

/// In the sibling group of a node that survives the deletion of `id`'s
/// subtree, the only deleted member can be `id` itself.
pub proof fn lemma_kept_group_member(pre: Seq<TodoItem>, id: u32, x: u32, j2: int)
    requires
        wf(pre),
        has_id(pre, id),
        has_id(pre, x),
        !in_subtree(pre, id, x),
        0 <= j2 < pre.len(),
        pre[j2].parent_id == parent_of(pre, x),
        in_subtree(pre, id, pre[j2].id),
    ensures
        pre[j2].id == id,
{
    let lp = pre.len() as nat;
    let c = pre[j2].id;
    lemma_idx_of(pre, c);
    assert(node_of(pre, c) == pre[j2]);
    lemma_idx_of(pre, x);
    assert(pre[idx_of(pre, x)].id == x);
    assert(rooted(pre, x, lp));
    lemma_idx_of(pre, id);
    assert(pre[idx_of(pre, id)].id == id);
    assert(rooted(pre, id, lp));
    if c != id {
        assert(is_anc(pre, id, c));
        lemma_anc_unfold(pre, id, c, lp);
        match parent_of(pre, x) {
            Option::None => {
                assert(false);
            },
            Option::Some(w) => {
                assert(anc(pre, w, x, lp));
                if w == id {
                    assert(is_anc(pre, id, x));
                    assert(false);
                } else {
                    assert(anc(pre, id, w, (lp - 1) as nat));
                    lemma_anc_fuel_mono(pre, id, w, (lp - 1) as nat, lp);
                    lemma_is_anc_trans(pre, id, w, x);
                    assert(false);
                }
            },
        }
    }
}

/// After deleting a subtree, sibling positions are again contiguous in
/// every group.
pub proof fn lemma_delete_positions(pre: Seq<TodoItem>, id: u32)
    requires
        wf(pre),
        has_id(pre, id),
    ensures
        positions_ok(remove_subtree(pre, id)),
{
    let keep = |t: TodoItem| !in_subtree(pre, id, t.id);
    let fs = pre.filter(keep);
    let post = remove_subtree(pre, id);
    let lp = pre.len() as nat;
    broadcast use vstd::seq_lib::group_filter_ensures;

    lemma_filter_members(pre, keep);
    lemma_filter_unique(pre, keep);
    lemma_delete_keeps(pre, id);
    lemma_idx_of(pre, id);
    let k = idx_of(pre, id);
    let q = parent_of(pre, id);
    let p0 = node_of(pre, id).position;
    assert(pre[k].id == id);
    assert(rooted(pre, id, lp));
    // Position bounds per node.
    assert forall|j: int|
        0 <= j < post.len() implies 0 <= (#[trigger] post[j]).position && ((post[j].position as int)
        < count_group(post, post[j].parent_id)) by {
        let x = node_of(pre, post[j].id);
        assert(post[j] == shifted_after_delete(pre, id, x));
        let par = x.parent_id;
        lemma_idx_of(pre, post[j].id);
        let i0 = idx_of(pre, post[j].id);
        assert(pre[i0] == x);
        assert(0 <= x.position && (x.position as int) < count_group(pre, par));
        assert(same_shape(fs, post)) by {
            assert forall|i: int|
                0 <= i < fs.len() implies (#[trigger] post[i]).id == fs[i].id && post[i].parent_id
                == fs[i].parent_id by {
                assert(post[i] == shifted_after_delete(pre, id, fs[i]));
            }
        }
        assert(post[j].parent_id == par);
        lemma_count_group_pointwise(fs, post, par);
        lemma_count_group_filter(pre, keep, par);
        if par == q {
            assert(pre[k].parent_id == q);
            assert(!keep(pre[k]));
            assert forall|j2: int|
                0 <= j2 < pre.len() && j2 != k implies !((#[trigger] pre[j2]).parent_id == q
                && !keep(pre[j2])) by {
                if pre[j2].parent_id == q && !keep(pre[j2]) {
                    assert(parent_of(pre, post[j].id) == par);
                    lemma_kept_group_member(pre, id, post[j].id, j2);
                    assert(pre[j2].id == id);
                    lemma_idx_of(pre, id);
                    assert(j2 == k);
                    assert(false);
                }
            }
            lemma_count_group_del_single(pre, q, keep, k);
            assert(count_group(post, q) == count_group(pre, q) - 1);
            assert(x.position != p0) by {
                assert(i0 != k);
                assert(pre[i0].parent_id == pre[k].parent_id);
            }
        } else {
            assert forall|j2: int|
                0 <= j2 < pre.len() implies !((#[trigger] pre[j2]).parent_id == par && !keep(
                pre[j2],
            )) by {
                if pre[j2].parent_id == par && !keep(pre[j2]) {
                    assert(parent_of(pre, post[j].id) == par);
                    lemma_kept_group_member(pre, id, post[j].id, j2);
                    assert(pre[j2].id == id);
                    lemma_idx_of(pre, id);
                    assert(j2 == k);
                    assert(false);
                }
            }
            lemma_count_group_del_zero(pre, par, keep);
            assert(count_group(post, par) == count_group(pre, par));
        }
    }
    // Distinctness per pair.
    assert forall|j1: int, j2: int|
        0 <= j1 < post.len() && 0 <= j2 < post.len() && j1 != j2 && (#[trigger] post[j1]).parent_id
            == (#[trigger] post[j2]).parent_id implies post[j1].position != post[j2].position by {
        let x1 = node_of(pre, post[j1].id);
        let x2 = node_of(pre, post[j2].id);
        assert(post[j1] == shifted_after_delete(pre, id, x1));
        assert(post[j2] == shifted_after_delete(pre, id, x2));
        assert(post[j1].id != post[j2].id);
        lemma_idx_of(pre, post[j1].id);
        lemma_idx_of(pre, post[j2].id);
        let i1 = idx_of(pre, post[j1].id);
        let i2 = idx_of(pre, post[j2].id);
        assert(i1 != i2);
        assert(pre[i1] == x1 && pre[i2] == x2);
        assert(x1.parent_id == x2.parent_id);
        assert(x1.position != x2.position);
        if x1.parent_id == q {
            assert(pre[i1].id != id && pre[i2].id != id);
            assert(pre[k].id == id);
            assert(i1 != k && i2 != k);
            assert(pre[i1].parent_id == pre[k].parent_id);
            assert(pre[i2].parent_id == pre[k].parent_id);
            assert(x1.position != p0);
            assert(x2.position != p0);
        }
    }
}

/// Deleting a subtree preserves well-formedness.
pub proof fn lemma_delete_wf(pre: Seq<TodoItem>, id: u32)
    requires
        wf(pre),
        has_id(pre, id),
    ensures
        wf(remove_subtree(pre, id)),
{
    let post = remove_subtree(pre, id);
    lemma_delete_keeps(pre, id);
    lemma_delete_rooted(pre, id);
    lemma_delete_positions(pre, id);
    assert(counts_ok(post)) by {
        assert forall|j: int|
            0 <= j < post.len() implies match (#[trigger] post[j]).target_count {
            Option::None => post[j].current_count == 0,
            Option::Some(t) => 0 <= post[j].current_count <= t,
        } by {
            let x = node_of(pre, post[j].id);
            assert(post[j] == shifted_after_delete(pre, id, x));
            lemma_idx_of(pre, post[j].id);
            let i0 = idx_of(pre, post[j].id);
            assert(pre[i0] == x);
            assert(match pre[i0].target_count {
                Option::None => pre[i0].current_count == 0,
                Option::Some(t) => 0 <= pre[i0].current_count <= t,
            });
        }
    }
}


/// The reason a `move` request was rejected instead of applied.
#[derive(Clone, Copy, PartialEq, Eq, Structural, Debug)]
pub enum MoveError {
    /// The requested parent id is not present in the forest.
    ParentNotFound,
    /// The requested parent lies in the moved node's own subtree, so the
    /// move would create a cycle.
    CycleDetected,
    /// The requested position does not fit the destination sibling group.
    PositionOutOfRange,
}

/// A node other than the moved one, as it stands after a move: first the
/// source group closes the gap at the old position, then the destination
/// group opens a gap at the requested position.
pub open spec fn shifted_for_move(
    t: TodoItem,
    cur_par: Option<u32>,
    cur_pos: i32,
    tgt_par: Option<u32>,
    tgt_pos: i32,
) -> TodoItem {
    let p1: i32 = if t.parent_id == cur_par && t.position > cur_pos {
        ((t.position - 1) as i32)
    } else {
        t.position
    };
    let p2: i32 = if t.parent_id == tgt_par && p1 >= tgt_pos {
        ((p1 + 1) as i32)
    } else {
        p1
    };
    TodoItem { position: p2, ..t }
}

/// Whether a requested move is accepted, and if not, why: the new parent
/// must exist, must not lie in the moved node's own subtree, and the
/// requested position must fit the destination group (whose size is taken
/// without the moved node itself).
pub open spec fn move_check(
    pre: Seq<TodoItem>,
    id: u32,
    tgt_par: Option<u32>,
    tgt_pos: i32,
) -> Result<(), MoveError> {
    let cur_par = node_of(pre, id).parent_id;
    let m = count_group(pre, tgt_par) - if cur_par == tgt_par {
        1int
    } else {
        0int
    };
    if tgt_par matches Option::Some(tp) && !has_id(pre, tp) {
        Result::Err(MoveError::ParentNotFound)
    } else if tgt_par matches Option::Some(tp) && in_subtree(pre, id, tp) {
        Result::Err(MoveError::CycleDetected)
    } else if !(0 <= tgt_pos && tgt_pos as int <= m) {
        Result::Err(MoveError::PositionOutOfRange)
    } else {
        Result::Ok(())
    }
}

/// The forest after an accepted move: the moved node carries its new
/// parent and position, everyone else is shifted by the two gap moves.
pub open spec fn apply_move(
    pre: Seq<TodoItem>,
    id: u32,
    tgt_par: Option<u32>,
    tgt_pos: i32,
) -> Seq<TodoItem> {
    let k = idx_of(pre, id);
    let cur_par = pre[k].parent_id;
    let cur_pos = pre[k].position;
    Seq::new(
        pre.len(),
        |i: int|
            if i == k {
                TodoItem { parent_id: tgt_par, position: tgt_pos, ..pre[k] }
            } else {
                shifted_for_move(pre[i], cur_par, cur_pos, tgt_par, tgt_pos)
            },
    )
}

/// Rebasing: after the move, an old descendant of the moved node reaches a
/// root through it.
pub proof fn lemma_rebase(
    pre: Seq<TodoItem>,
    post: Seq<TodoItem>,
    mid: u32,
    y: u32,
    f: nat,
    g: nat,
)
    requires
        unique_ids(pre),
        same_except_parent(pre, post, mid),
        anc(pre, mid, y, f),
        rooted(pre, y, f),
        rooted(post, mid, g),
    ensures
        rooted(post, y, (g + f + 1) as nat),
    decreases f,
{
    lemma_anc_depth(pre, mid, y, f);
    assert(y != mid);
    lemma_reparent_lookup(pre, post, mid, y);
    let p = parent_of(pre, y)->Some_0;
    assert(parent_of(post, y) == Option::Some(p));
    if p == mid {
        lemma_rooted_fuel_mono(post, mid, g, (g + f) as nat);
    } else {
        lemma_rebase(pre, post, mid, p, (f - 1) as nat, g);
    }
}

/// An accepted move preserves well-formedness.
pub proof fn lemma_move_wf(pre: Seq<TodoItem>, id: u32, tgt_par: Option<u32>, tgt_pos: i32)
    requires
        wf(pre),
        has_id(pre, id),
        move_check(pre, id, tgt_par, tgt_pos) == Result::<(), MoveError>::Ok(()),
        pre.len() < 0x7fff_ffff,
    ensures
        wf(apply_move(pre, id, tgt_par, tgt_pos)),
{
    let post = apply_move(pre, id, tgt_par, tgt_pos);
    let lp = pre.len() as nat;
    lemma_idx_of(pre, id);
    let k = idx_of(pre, id);
    let cur_par = pre[k].parent_id;
    let cur_pos = pre[k].position;
    assert(pre[k].id == id);
    assert(rooted(pre, id, lp));
    assert(same_except_parent(pre, post, id)) by {
        assert forall|i: int|
            0 <= i < pre.len() implies (#[trigger] post[i]).id == pre[i].id && (pre[i].id != id
            ==> post[i].parent_id == pre[i].parent_id) by {
            if i != k {
                assert(post[i] == shifted_for_move(pre[i], cur_par, cur_pos, tgt_par, tgt_pos));
            }
        }
    }
    lemma_reparent_lookup(pre, post, id, id);
    assert(unique_ids(post));
    // Rootedness: the moved node hangs under its (acyclic) new parent.
    assert(rooted(post, id, lp)) by {
        assert(node_of(post, id) == post[k]);
        match tgt_par {
            Option::None => {
                assert(parent_of(post, id) == Option::<u32>::None);
            },
            Option::Some(tp) => {
                assert(has_id(pre, tp));
                assert(!in_subtree(pre, id, tp));
                lemma_idx_of(pre, tp);
                assert(pre[idx_of(pre, tp)].id == tp);
                assert(rooted(pre, tp, lp));
                lemma_reparent_untouched(pre, post, id, tp, lp);
                lemma_depth_bound(pre, tp, lp);
                lemma_rooted_tight(post, tp, lp);
                let d = depth(post, tp, lp);
                assert(rooted(post, tp, d));
                assert(parent_of(post, id) == Option::Some(tp));
                assert(rooted(post, id, (d + 1) as nat));
                lemma_rooted_fuel_mono(post, id, (d + 1) as nat, lp);
            },
        }
    }
    assert forall|i: int| 0 <= i < post.len() implies rooted(
        post,
        (#[trigger] post[i]).id,
        post.len() as nat,
    ) by {
        let y = post[i].id;
        assert(pre[i].id == y);
        assert(rooted(pre, y, lp));
        if y == id {
        } else if is_anc(pre, id, y) {
            lemma_rebase(pre, post, id, y, lp, lp);
            lemma_depth_bound(post, y, (lp + lp + 1) as nat);
            lemma_rooted_tight(post, y, (lp + lp + 1) as nat);
            assert(depth(post, y, (lp + lp + 1) as nat) < post.len());
            assert(rooted(post, y, post.len() as nat));
        } else {
            lemma_reparent_untouched(pre, post, id, y, lp);
        }
    }
    // Positions: group counts move one unit from the source group to the
    // destination group.
    let midseq = pre.update(k, (TodoItem { parent_id: tgt_par, position: tgt_pos, ..pre[k] }));
    assert forall|par: Option<u32>| #[trigger] count_group(post, par) == count_group(pre, par) - (
    if cur_par == par {
        1int
    } else {
        0int
    }) + (if tgt_par == par {
        1int
    } else {
        0int
    }) by {
        lemma_count_group_update(pre, k, (TodoItem { parent_id: tgt_par, position: tgt_pos, ..pre[k] }), par);
        lemma_count_group_pointwise(midseq, post, par);
    }
    let mcnt = count_group(pre, tgt_par) - if cur_par == tgt_par {
        1int
    } else {
        0int
    };
    assert(0 <= tgt_pos && tgt_pos as int <= mcnt);
    assert forall|i: int|
        0 <= i < post.len() implies 0 <= (#[trigger] post[i]).position && ((post[i].position as int)
        < count_group(post, post[i].parent_id)) by {
        lemma_count_group_bounds(pre, post[i].parent_id);
        lemma_count_group_bounds(pre, tgt_par);
        if i == k {
        } else {
            assert(post[i] == shifted_for_move(pre[i], cur_par, cur_pos, tgt_par, tgt_pos));
            assert(0 <= pre[i].position && (pre[i].position as int) < count_group(
                pre,
                pre[i].parent_id,
            ));
            if pre[i].parent_id == cur_par {
                assert(pre[i].position != cur_pos);
                assert(0 <= cur_pos && (cur_pos as int) < count_group(pre, cur_par));
            }
        }
    }
    assert forall|i: int, j: int|
        0 <= i < post.len() && 0 <= j < post.len() && i != j && (#[trigger] post[i]).parent_id
            == (#[trigger] post[j]).parent_id implies post[i].position != post[j].position by {
        lemma_count_group_bounds(pre, tgt_par);
        lemma_count_group_bounds(pre, cur_par);
        if i != k && j != k {
            assert(post[i] == shifted_for_move(pre[i], cur_par, cur_pos, tgt_par, tgt_pos));
            assert(post[j] == shifted_for_move(pre[j], cur_par, cur_pos, tgt_par, tgt_pos));
            lemma_count_group_bounds(pre, pre[i].parent_id);
            assert(0 <= pre[i].position && (pre[i].position as int) < count_group(
                pre,
                pre[i].parent_id,
            ));
            assert(0 <= pre[j].position && (pre[j].position as int) < count_group(
                pre,
                pre[j].parent_id,
            ));
            assert(pre[i].parent_id == pre[j].parent_id);
            assert(pre[i].position != pre[j].position);
            if pre[i].parent_id == cur_par {
                assert(pre[i].position != cur_pos && pre[j].position != cur_pos);
                assert(0 <= cur_pos);
            }
        } else {
            let o = if i == k {
                j
            } else {
                i
            };
            assert(post[o] == shifted_for_move(pre[o], cur_par, cur_pos, tgt_par, tgt_pos));
            assert(post[k].parent_id == tgt_par && post[k].position == tgt_pos);
            assert(pre[o].parent_id == tgt_par);
            lemma_count_group_bounds(pre, pre[o].parent_id);
            assert(0 <= pre[o].position && (pre[o].position as int) < count_group(
                pre,
                pre[o].parent_id,
            ));
            if pre[o].parent_id == cur_par {
                assert(pre[o].position != cur_pos);
                assert(0 <= cur_pos);
            }
        }
    }
    // Counters are untouched.
    assert forall|i: int|
        0 <= i < post.len() implies match (#[trigger] post[i]).target_count {
        Option::None => post[i].current_count == 0,
        Option::Some(t) => 0 <= post[i].current_count <= t,
    } by {
        if i != k {
            assert(post[i] == shifted_for_move(pre[i], cur_par, cur_pos, tgt_par, tgt_pos));
        }
        assert(match pre[i].target_count {
            Option::None => pre[i].current_count == 0,
            Option::Some(t) => 0 <= pre[i].current_count <= t,
        });
    }
}

} // verus!
