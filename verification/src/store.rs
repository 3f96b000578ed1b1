//! The todo store: the verified engine over the forest model.
//!
//! Every mutating operation preserves the forest invariant (`wf`): unique
//! ids, an acyclic parent relation with no dangling references, contiguous
//! sibling positions in every group, and in-range countdown counters.

use vstd::prelude::*;

use crate::model::MoveError;
use crate::model::TodoItem;
use crate::model::cascade_inv;
use crate::model::completion_update;
use crate::model::count_group;
use crate::model::depth;
use crate::model::derived_completed;
use crate::model::has_id;
use crate::model::idx_of;
use crate::model::in_subtree;
use crate::model::is_anc;
use crate::model::lemma_anc_parent_step;
use crate::model::lemma_anc_unfold;
use crate::model::lemma_append_root_wf;
use crate::model::lemma_cascade_finish;
use crate::model::lemma_cascade_step;
use crate::model::lemma_count_group_bounds;
use crate::model::lemma_count_group_take_step;
use crate::model::lemma_delete_keeps;
use crate::model::lemma_delete_wf;
use crate::model::lemma_move_wf;
use crate::model::apply_move;
use crate::model::move_check;
use crate::model::remove_subtree;
use crate::model::shifted_after_delete;
use crate::model::lemma_idx_of;
use crate::model::lemma_same_but_completed_wf;
use crate::model::lemma_same_shape_chain;
use crate::model::lemma_same_shape_lookup;
use crate::model::lemma_same_structure_wf;
use crate::model::lemma_take_full;
use crate::model::node_of;
use crate::model::parent_of;
use crate::model::rooted;
use crate::model::same_but_completed;
use crate::model::wf;
use vstd::pervasive::unreached;

verus! {

/// The index of the node with the given id in a plain item list, if
/// present.
fn find_in(items: &Vec<TodoItem>, id: u32) -> (r: Option<usize>)
    ensures
        (match r {
            Option::Some(i) => i < items@.len() && items@[i as int].id == id,
            Option::None => !has_id(items@, id),
        }),
{
    let n = items.len();
    let mut i: usize = 0;
    while i < n
        invariant
            i <= n,
            n == items@.len(),
            forall|j: int| 0 <= j < i ==> (#[trigger] items@[j]).id != id,
        decreases n - i,
    {
        if items[i].id == id {
            return Option::Some(i);
        }
        i = i + 1;
    }
    Option::None
}

/// The number of direct children of the given parent group in a plain
/// item list.
fn count_in(items: &Vec<TodoItem>, par: Option<u32>) -> (r: i32)
    requires
        items@.len() < 0x7fff_ffff,
    ensures
        r as int == count_group(items@, par),
{
    let n = items.len();
    let mut cnt: i32 = 0;
    let mut i: usize = 0;
    proof {
        lemma_count_group_bounds(items@.take(0), par);
    }
    while i < n
        invariant
            i <= n,
            n == items@.len(),
            n < 0x7fff_ffff,
            cnt as int == count_group(items@.take(i as int), par),
            0 <= cnt <= i,
        decreases n - i,
    {
        proof {
            lemma_count_group_take_step(items@, par, i as int);
            lemma_count_group_bounds(items@.take(i as int), par);
        }
        let is_member = match (items[i].parent_id, par) {
            (Option::Some(a), Option::Some(b)) => a == b,
            (Option::None, Option::None) => true,
            _ => false,
        };
        if is_member {
            cnt = cnt + 1;
        }
        i = i + 1;
    }
    proof {
        lemma_take_full(items@);
    }
    cnt
}

/// Whether the node `x` of a plain item list reaches a root within `fuel`
/// steps (meaningful once the ids are known to be unique).
fn check_rooted(items: &Vec<TodoItem>, x: u32, fuel: usize) -> (r: bool)
    requires
        crate::model::unique_ids(items@),
    ensures
        r == rooted(items@, x, fuel as nat),
    decreases fuel,
{
    match find_in(items, x) {
        Option::None => false,
        Option::Some(i) => {
            proof {
                lemma_idx_of(items@, x);
                assert(items@[i as int] == node_of(items@, x));
            }
            match items[i].parent_id {
                Option::None => true,
                Option::Some(p) => fuel > 0 && check_rooted(items, p, fuel - 1),
            }
        },
    }
}

/// The persistent state: the todo forest, the id counter, and the single
/// scalar note.
pub struct TodoStore {
    pub todos: Vec<TodoItem>,
    pub next_id: u32,
    pub note: String,
}

impl TodoStore {
    /// The store invariant: the forest is well formed, ids are assigned
    /// below the id counter, and the counter starts at one.
    pub open spec fn inv(self) -> bool {
        &&& wf(self.todos@)
        &&& 1 <= self.next_id
        &&& forall|i: int| 0 <= i < self.todos@.len() ==> (#[trigger] self.todos@[i]).id < self.next_id
    }

    /// A fresh store: no todos, an empty note, ids starting at one.
    pub fn new() -> (s: Self)
        ensures
            s.inv(),
            s.todos@.len() == 0,
            s.next_id == 1,
            s.note@ == Seq::<char>::empty(),
    {
        TodoStore { todos: Vec::new(), next_id: 1, note: String::new() }
    }

    /// Build a store from already-persisted rows. The rows are checked
    /// against the forest invariant — unique ids, every parent reference
    /// present and acyclic, contiguous sibling positions in each group,
    /// counters in range — and `None` is returned exactly when they fail
    /// it, when the list is too large for position arithmetic, or when an
    /// id leaves no room for fresh ones.
    pub fn from_items(items: Vec<TodoItem>, note: String) -> (r: Option<TodoStore>)
        ensures
            (match r {
                Option::Some(st) => st.inv() && st.todos@ == items@ && st.note@ == note@ && wf(
                    items@,
                ) && items@.len() < 0x7fff_ffff,
                Option::None => !(wf(items@) && items@.len() < 0x7fff_ffff && (forall|i: int|
                    0 <= i < items@.len() ==> (#[trigger] items@[i]).id < 0xffff_ffff_u32)),
            }),
    {
        let n = items.len();
        if n >= 0x7fff_ffff {
            return Option::None;
        }
        // Unique ids.
        let mut i: usize = 0;
        while i < n
            invariant
                i <= n,
                n == items@.len(),
                forall|a: int, b: int|
                    0 <= a < i && a < b < n ==> (#[trigger] items@[a]).id != (#[trigger] items@[b]).id,
            decreases n - i,
        {
            let mut j: usize = i + 1;
            while j < n
                invariant
                    i < j <= n,
                    i < n,
                    n == items@.len(),
                    forall|b: int| i < b < j ==> (#[trigger] items@[b]).id != items@[i as int].id,
                decreases n - j,
            {
                if items[j].id == items[i].id {
                    proof {
                        assert(!crate::model::unique_ids(items@));
                    }
                    return Option::None;
                }
                j = j + 1;
            }
            i = i + 1;
        }
        proof {
            assert(crate::model::unique_ids(items@));
        }
        // Every node reaches a root.
        let mut i2: usize = 0;
        while i2 < n
            invariant
                i2 <= n,
                n == items@.len(),
                crate::model::unique_ids(items@),
                forall|j: int|
                    0 <= j < i2 ==> rooted(items@, (#[trigger] items@[j]).id, items@.len() as nat),
            decreases n - i2,
        {
            let xid = items[i2].id;
            if !check_rooted(&items, xid, n) {
                proof {
                    assert(!crate::model::all_rooted(items@));
                }
                return Option::None;
            }
            i2 = i2 + 1;
        }
        // Contiguous positions: bounds, then distinctness within groups.
        let mut i3: usize = 0;
        while i3 < n
            invariant
                i3 <= n,
                n == items@.len(),
                n < 0x7fff_ffff,
                forall|j: int|
                    0 <= j < i3 ==> 0 <= (#[trigger] items@[j]).position && (
                    items@[j].position as int) < count_group(items@, items@[j].parent_id),
            decreases n - i3,
        {
            let cnt = count_in(&items, items[i3].parent_id);
            if items[i3].position < 0 || items[i3].position >= cnt {
                proof {
                    assert(!crate::model::positions_ok(items@));
                }
                return Option::None;
            }
            i3 = i3 + 1;
        }
        let mut i4: usize = 0;
        while i4 < n
            invariant
                i4 <= n,
                n == items@.len(),
                forall|a: int, b: int|
                    0 <= a < i4 && a < b < n && (#[trigger] items@[a]).parent_id == (
                    #[trigger] items@[b]).parent_id ==> items@[a].position != items@[b].position,
            decreases n - i4,
        {
            let mut j4: usize = i4 + 1;
            while j4 < n
                invariant
                    i4 < j4 <= n,
                    i4 < n,
                    n == items@.len(),
                    forall|b: int|
                        i4 < b < j4 && (#[trigger] items@[b]).parent_id == items@[i4 as int].parent_id
                            ==> items@[b].position != items@[i4 as int].position,
                decreases n - j4,
            {
                let same_group = match (items[i4].parent_id, items[j4].parent_id) {
                    (Option::Some(a), Option::Some(b)) => a == b,
                    (Option::None, Option::None) => true,
                    _ => false,
                };
                if same_group && items[i4].position == items[j4].position {
                    proof {
                        assert(!crate::model::positions_ok(items@));
                    }
                    return Option::None;
                }
                j4 = j4 + 1;
            }
            i4 = i4 + 1;
        }
        // Counters in range, and ids leaving room for fresh ones.
        let mut maxid: u32 = 0;
        let mut i5: usize = 0;
        while i5 < n
            invariant
                i5 <= n,
                n == items@.len(),
                maxid < 0xffff_ffff_u32,
                forall|j: int| 0 <= j < i5 ==> (#[trigger] items@[j]).id <= maxid,
                forall|j: int|
                    0 <= j < i5 ==> match (#[trigger] items@[j]).target_count {
                        Option::None => items@[j].current_count == 0,
                        Option::Some(t) => 0 <= items@[j].current_count <= t,
                    },
            decreases n - i5,
        {
            let ok = match items[i5].target_count {
                Option::None => items[i5].current_count == 0,
                Option::Some(t) => 0 <= items[i5].current_count && items[i5].current_count <= t,
            };
            if !ok {
                proof {
                    assert(!crate::model::counts_ok(items@));
                }
                return Option::None;
            }
            if items[i5].id == 0xffff_ffff_u32 {
                return Option::None;
            }
            if items[i5].id > maxid {
                maxid = items[i5].id;
            }
            i5 = i5 + 1;
        }
        Option::Some(TodoStore { todos: items, next_id: maxid + 1, note })
    }

    /// The stored note.
    pub fn get_note(&self) -> (r: String)
        ensures
            r@ == self.note@,
    {
        self.note.clone()
    }

    /// Replace the note.
    pub fn save_note(&mut self, content: String)
        ensures
            final(self).note@ == content@,
            final(self).todos == old(self).todos,
            final(self).next_id == old(self).next_id,
    {
        self.note = content;
    }

    /// The index of the node with the given id, if present.
    fn find_idx(&self, id: u32) -> (r: Option<usize>)
        ensures
            (match r {
                Option::Some(i) => i < self.todos@.len() && self.todos@[i as int].id == id,
                Option::None => !has_id(self.todos@, id),
            }),
    {
        let n = self.todos.len();
        let mut i: usize = 0;
        while i < n
            invariant
                i <= n,
                n == self.todos@.len(),
                forall|j: int| 0 <= j < i ==> (#[trigger] self.todos@[j]).id != id,
            decreases n - i,
        {
            if self.todos[i].id == id {
                return Option::Some(i);
            }
            i = i + 1;
        }
        Option::None
    }

    /// Whether the node `x` lies in the subtree rooted at `needle`,
    /// computed by walking up `x`'s parent chain.
    fn chain_hits(&self, x: u32, needle: u32) -> (r: bool)
        requires
            wf(self.todos@),
            has_id(self.todos@, x),
        ensures
            r == in_subtree(self.todos@, needle, x),
    {
        let ghost s = self.todos@;
        let ghost len = s.len() as nat;
        let mut cur = x;
        proof {
            lemma_idx_of(s, x);
            assert(rooted(s, cur, len));
        }
        loop
            invariant
                s == self.todos@,
                len == s.len() as nat,
                wf(s),
                has_id(s, cur),
                rooted(s, cur, len),
                in_subtree(s, needle, x) == in_subtree(s, needle, cur),
            decreases depth(s, cur, len),
        {
            if cur == needle {
                return true;
            }
            let i = match self.find_idx(cur) {
                Option::Some(i) => i,
                Option::None => { unreached() },
            };
            proof {
                lemma_idx_of(s, cur);
                assert(self.todos@[i as int] == node_of(s, cur));
            }
            match self.todos[i].parent_id {
                Option::None => {
                    proof {
                        lemma_anc_unfold(s, needle, cur, len);
                        assert(!is_anc(s, needle, cur));
                    }
                    return false;
                },
                Option::Some(p) => {
                    proof {
                        lemma_anc_parent_step(s, needle, cur, p);
                        assert(rooted(s, p, len));
                        assert(has_id(s, p));
                    }
                    cur = p;
                },
            }
        }
    }

    /// The recomputed completion flag of the group under `pid`: at least
    /// one direct child exists and every direct child is completed.
    fn derived_for(&self, pid: u32) -> (r: bool)
        ensures
            r == derived_completed(self.todos@, pid),
    {
        let n = self.todos.len();
        let mut found = false;
        let mut allc = true;
        let mut i: usize = 0;
        proof {
            lemma_count_group_bounds(self.todos@.take(0), Option::Some(pid));
        }
        while i < n
            invariant
                i <= n,
                n == self.todos@.len(),
                found == (count_group(self.todos@.take(i as int), Option::Some(pid)) > 0),
                allc == (forall|j: int|
                    0 <= j < i && (#[trigger] self.todos@[j]).parent_id == Option::Some(pid)
                        ==> self.todos@[j].completed),
            decreases n - i,
        {
            proof {
                lemma_count_group_take_step(self.todos@, Option::Some(pid), i as int);
                lemma_count_group_bounds(self.todos@.take(i as int), Option::Some(pid));
            }
            let is_child = match self.todos[i].parent_id {
                Option::Some(q) => q == pid,
                Option::None => false,
            };
            if is_child {
                found = true;
                if !self.todos[i].completed {
                    allc = false;
                }
            }
            i = i + 1;
        }
        proof {
            lemma_take_full(self.todos@);
        }
        found && allc
    }

    /// Write `completed` on the node with the given id, force the same
    /// flag on every node of its subtree, then walk up from the node and
    /// recompute each ancestor's flag from its direct children (complete
    /// exactly when it has children and they are all complete). A missing
    /// id is a silent no-op.
    pub fn update_todo(&mut self, id: u32, completed: bool)
        requires
            old(self).inv(),
        ensures
            final(self).inv(),
            final(self).next_id == old(self).next_id,
            final(self).note == old(self).note,
            !has_id(old(self).todos@, id) ==> final(self).todos@ == old(self).todos@,
            has_id(old(self).todos@, id) ==> completion_update(
                old(self).todos@,
                final(self).todos@,
                id,
                completed,
            ),
    {
        let ghost pre = old(self).todos@;
        let ghost len = pre.len() as nat;
        let r = self.find_idx(id);
        match r {
            Option::None => {
                return ;
            },
            Option::Some(_) => {},
        }
        proof {
            lemma_idx_of(pre, id);
        }
        // Self and cascade down: force the flag on the whole subtree.
        let n = self.todos.len();
        let mut i: usize = 0;
        while i < n
            invariant
                i <= n,
                n == pre.len(),
                pre == old(self).todos@,
                len == pre.len() as nat,
                old(self).inv(),
                self.next_id == old(self).next_id,
                self.note == old(self).note,
                same_but_completed(pre, self.todos@),
                wf(self.todos@),
                has_id(pre, id),
                forall|j: int|
                    0 <= j < i && in_subtree(pre, id, (#[trigger] pre[j]).id)
                        ==> self.todos@[j].completed == completed,
                forall|j: int|
                    0 <= j < i && !in_subtree(pre, id, (#[trigger] pre[j]).id)
                        ==> self.todos@[j].completed == pre[j].completed,
                forall|j: int| i <= j < n ==> self.todos@[j] == pre[j],
            decreases n - i,
        {
            let xid = self.todos[i].id;
            let hit = self.chain_hits(xid, id);
            proof {
                lemma_same_shape_chain(pre, self.todos@, xid, len);
                assert(in_subtree(self.todos@, id, xid) == in_subtree(pre, id, xid));
                assert(pre[i as int].id == xid);
            }
            if hit {
                let node = &self.todos[i];
                let new_item = TodoItem {
                    id: node.id,
                    text: node.text.clone(),
                    completed,
                    parent_id: node.parent_id,
                    position: node.position,
                    target_count: node.target_count,
                    current_count: node.current_count,
                };
                self.todos[i] = new_item;
            }
            proof {
                lemma_same_but_completed_wf(pre, self.todos@);
            }
            i = i + 1;
        }
        // Cascade up: recompute each ancestor from its children.
        let mut cur = id;
        proof {
            assert(rooted(pre, cur, len)) by {
                assert(pre[idx_of(pre, id)].id == id);
            }
        }
        loop
            invariant
                pre == old(self).todos@,
                len == pre.len() as nat,
                old(self).inv(),
                self.next_id == old(self).next_id,
                self.note == old(self).note,
                wf(self.todos@),
                has_id(pre, id),
                has_id(pre, cur),
                rooted(pre, cur, len),
                cur == id || is_anc(pre, cur, id),
                cascade_inv(pre, self.todos@, id, cur, completed),
            decreases depth(pre, cur, len),
        {
            let i = match self.find_idx(cur) {
                Option::Some(i) => i,
                Option::None => {
                    proof {
                        lemma_same_shape_lookup(pre, self.todos@, cur);
                    }
                    unreached()
                },
            };
            proof {
                lemma_same_shape_lookup(pre, self.todos@, cur);
                lemma_idx_of(self.todos@, cur);
                lemma_idx_of(pre, cur);
                assert(self.todos@[i as int] == node_of(self.todos@, cur));
                assert(node_of(self.todos@, cur).parent_id == parent_of(pre, cur));
            }
            match self.todos[i].parent_id {
                Option::None => {
                    proof {
                        lemma_cascade_finish(pre, self.todos@, id, cur, completed);
                        assert forall|k: int| 0 <= k < self.todos@.len() implies (#[trigger] self.todos@[k]).id
                            < self.next_id by {
                            assert(self.todos@[k] == (TodoItem {
                                completed: self.todos@[k].completed,
                                ..pre[k]
                            }));
                        }
                    }
                    return ;
                },
                Option::Some(p) => {
                    let d = self.derived_for(p);
                    proof {
                        lemma_anc_parent_step(pre, p, cur, p);
                        lemma_idx_of(pre, p);
                        lemma_same_shape_lookup(pre, self.todos@, p);
                    }
                    let pi = match self.find_idx(p) {
                        Option::Some(pi) => pi,
                        Option::None => { unreached() },
                    };
                    proof {
                        lemma_idx_of(self.todos@, p);
                        assert(pi as int == idx_of(self.todos@, p));
                        assert(pi as int == idx_of(pre, p));
                        assert(self.todos@[pi as int] == (TodoItem {
                            completed: self.todos@[pi as int].completed,
                            ..pre[pi as int]
                        }));
                    }
                    let ghost s_before = self.todos@;
                    let node = &self.todos[pi];
                    let new_item = TodoItem {
                        id: node.id,
                        text: node.text.clone(),
                        completed: d,
                        parent_id: node.parent_id,
                        position: node.position,
                        target_count: node.target_count,
                        current_count: node.current_count,
                    };
                    self.todos[pi] = new_item;
                    proof {
                        assert(self.todos@ == s_before.update(
                            pi as int,
                            (TodoItem { completed: d, ..pre[idx_of(pre, p)] }),
                        ));
                        lemma_cascade_step(
                            pre,
                            s_before,
                            self.todos@,
                            id,
                            cur,
                            p,
                            completed,
                            d,
                        );
                        lemma_same_but_completed_wf(pre, self.todos@);
                    }
                    cur = p;
                },
            }
        }
    }

    /// Create a new root-level node holding `text`, appended at the end of
    /// the root sibling group, and return its freshly assigned id.
    pub fn save_todo(&mut self, text: String) -> (id: u32)
        requires
            old(self).inv(),
            old(self).next_id < 0xffff_ffff_u32,
            old(self).todos@.len() < 0x7fff_ffff,
        ensures
            final(self).inv(),
            id == old(self).next_id,
            final(self).next_id == old(self).next_id + 1,
            final(self).note == old(self).note,
            final(self).todos@ == old(self).todos@.push(
                (TodoItem {
                    id: old(self).next_id,
                    text: text,
                    completed: false,
                    parent_id: Option::None,
                    position: count_group(old(self).todos@, Option::None) as i32,
                    target_count: Option::None,
                    current_count: 0,
                }),
            ),
    {
        let n = self.todos.len();
        let mut cnt: i32 = 0;
        let mut i: usize = 0;
        proof {
            lemma_count_group_bounds(self.todos@.take(0), Option::None);
        }
        while i < n
            invariant
                i <= n,
                n == self.todos@.len(),
                n < 0x7fff_ffff,
                cnt as int == count_group(self.todos@.take(i as int), Option::None),
                0 <= cnt <= i,
            decreases n - i,
        {
            proof {
                lemma_count_group_take_step(self.todos@, Option::None, i as int);
            }
            if self.todos[i].parent_id.is_none() {
                cnt = cnt + 1;
            }
            i = i + 1;
        }
        proof {
            lemma_take_full(self.todos@);
        }
        let id = self.next_id;
        let item = TodoItem {
            id,
            text,
            completed: false,
            parent_id: Option::None,
            position: cnt,
            target_count: Option::None,
            current_count: 0,
        };
        let ghost titem = item;
        proof {
            assert(!has_id(self.todos@, id));
            lemma_append_root_wf(self.todos@, titem);
        }
        self.todos.push(item);
        self.next_id = self.next_id + 1;
        proof {
            let s = old(self).todos@;
            let s2 = self.todos@;
            assert forall|k: int| 0 <= k < s2.len() implies (#[trigger] s2[k]).id
                < self.next_id by {
                if k < s.len() {
                    assert(s2[k] == s[k]);
                } else {
                    assert(s2[k] == titem);
                }
            }
        }
        id
    }

    /// The number of direct children of the given parent group.
    fn count_of(&self, par: Option<u32>) -> (r: i32)
        requires
            self.todos@.len() < 0x7fff_ffff,
        ensures
            r as int == count_group(self.todos@, par),
    {
        let n = self.todos.len();
        let mut cnt: i32 = 0;
        let mut i: usize = 0;
        proof {
            lemma_count_group_bounds(self.todos@.take(0), par);
        }
        while i < n
            invariant
                i <= n,
                n == self.todos@.len(),
                n < 0x7fff_ffff,
                cnt as int == count_group(self.todos@.take(i as int), par),
                0 <= cnt <= i,
            decreases n - i,
        {
            proof {
                lemma_count_group_take_step(self.todos@, par, i as int);
                lemma_count_group_bounds(self.todos@.take(i as int), par);
            }
            let is_member = match (self.todos[i].parent_id, par) {
                (Option::Some(a), Option::Some(b)) => a == b,
                (Option::None, Option::None) => true,
                _ => false,
            };
            if is_member {
                cnt = cnt + 1;
            }
            i = i + 1;
        }
        proof {
            lemma_take_full(self.todos@);
        }
        cnt
    }

    /// Move a node to a new parent (or the root group) at the given
    /// position among its new siblings. The position is the index in the
    /// destination group counted with the moved node already taken out of
    /// its old place, so a caller moving a node downward within the same
    /// group passes the post-removal index. The move is rejected when the
    /// requested parent does not exist, when it lies in the moved node's
    /// own subtree (the parent relation must stay acyclic), or when the
    /// position does not fit the destination group; a missing id is a
    /// silent no-op.
    pub fn move_todo(
        &mut self,
        id: u32,
        target_parent_id: Option<u32>,
        target_position: i32,
    ) -> (r: Result<(), MoveError>)
        requires
            old(self).inv(),
            old(self).todos@.len() < 0x7fff_ffff,
        ensures
            final(self).inv(),
            final(self).next_id == old(self).next_id,
            final(self).note == old(self).note,
            !has_id(old(self).todos@, id) ==> r == Result::<(), MoveError>::Ok(())
                && final(self).todos@ == old(self).todos@,
            has_id(old(self).todos@, id) ==> r == move_check(
                old(self).todos@,
                id,
                target_parent_id,
                target_position,
            ),
            has_id(old(self).todos@, id) && r.is_err() ==> final(self).todos@ == old(self).todos@,
            has_id(old(self).todos@, id) && r == Result::<(), MoveError>::Ok(())
                ==> final(self).todos@ == apply_move(
                old(self).todos@,
                id,
                target_parent_id,
                target_position,
            ),
    {
        let ghost pre = old(self).todos@;
        let k = match self.find_idx(id) {
            Option::Some(k) => k,
            Option::None => {
                return Result::Ok(());
            },
        };
        proof {
            lemma_idx_of(pre, id);
            assert(k as int == idx_of(pre, id));
            assert(self.todos@[k as int] == node_of(pre, id));
        }
        match target_parent_id {
            Option::Some(tp) => {
                match self.find_idx(tp) {
                    Option::None => {
                        return Result::Err(MoveError::ParentNotFound);
                    },
                    Option::Some(_) => {},
                }
                if self.chain_hits(tp, id) {
                    return Result::Err(MoveError::CycleDetected);
                }
            },
            Option::None => {},
        }
        let cur_par = self.todos[k].parent_id;
        let cur_pos = self.todos[k].position;
        let cnt = self.count_of(target_parent_id);
        let same = match (cur_par, target_parent_id) {
            (Option::Some(a), Option::Some(b)) => a == b,
            (Option::None, Option::None) => true,
            _ => false,
        };
        proof {
            assert(same == (cur_par == target_parent_id));
            if same {
                crate::model::lemma_count_group_member(pre, k as int);
            }
        }
        let m = if same {
            cnt - 1
        } else {
            cnt
        };
        if target_position < 0 || target_position > m {
            return Result::Err(MoveError::PositionOutOfRange);
        }
        let ghost postspec = apply_move(pre, id, target_parent_id, target_position);
        let n = self.todos.len();
        let mut i: usize = 0;
        while i < n
            invariant
                i <= n,
                n == pre.len(),
                n < 0x7fff_ffff,
                pre == old(self).todos@,
                pre.len() == self.todos@.len(),
                old(self).inv(),
                self.next_id == old(self).next_id,
                self.note == old(self).note,
                has_id(pre, id),
                k < n,
                k as int == idx_of(pre, id),
                cur_par == pre[k as int].parent_id,
                cur_pos == pre[k as int].position,
                postspec == apply_move(pre, id, target_parent_id, target_position),
                forall|j: int| 0 <= j < i ==> self.todos@[j] == postspec[j],
                forall|j: int| i <= j < n ==> self.todos@[j] == pre[j],
            decreases n - i,
        {
            let node = &self.todos[i];
            let new_item: TodoItem;
            if i == k {
                new_item = TodoItem {
                    id: node.id,
                    text: node.text.clone(),
                    completed: node.completed,
                    parent_id: target_parent_id,
                    position: target_position,
                    target_count: node.target_count,
                    current_count: node.current_count,
                };
            } else {
                proof {
                    assert(self.todos@[i as int] == pre[i as int]);
                    assert(0 <= pre[i as int].position && (pre[i as int].position as int)
                        < count_group(pre, pre[i as int].parent_id));
                    assert(0 <= pre[k as int].position);
                    lemma_count_group_bounds(pre, pre[i as int].parent_id);
                }
                let in_src = match (node.parent_id, cur_par) {
                    (Option::Some(a), Option::Some(b)) => a == b,
                    (Option::None, Option::None) => true,
                    _ => false,
                } && node.position > cur_pos;
                let p1 = if in_src {
                    node.position - 1
                } else {
                    node.position
                };
                let in_tgt = match (node.parent_id, target_parent_id) {
                    (Option::Some(a), Option::Some(b)) => a == b,
                    (Option::None, Option::None) => true,
                    _ => false,
                } && p1 >= target_position;
                let p2 = if in_tgt {
                    p1 + 1
                } else {
                    p1
                };
                new_item = TodoItem {
                    id: node.id,
                    text: node.text.clone(),
                    completed: node.completed,
                    parent_id: node.parent_id,
                    position: p2,
                    target_count: node.target_count,
                    current_count: node.current_count,
                };
                proof {
                    assert(new_item == crate::model::shifted_for_move(
                        pre[i as int],
                        cur_par,
                        cur_pos,
                        target_parent_id,
                        target_position,
                    ));
                }
            }
            self.todos[i] = new_item;
            proof {
                assert(self.todos@[i as int] == postspec[i as int]);
            }
            i = i + 1;
        }
        proof {
            lemma_move_wf(pre, id, target_parent_id, target_position);
            assert(self.todos@ =~= postspec);
            assert forall|j: int| 0 <= j < self.todos@.len() implies (#[trigger] self.todos@[j]).id
                < self.next_id by {
                assert(postspec[j].id == pre[j].id);
                assert(pre[j].id < self.next_id);
            }
        }
        Result::Ok(())
    }

    /// Delete the node with the given id together with every transitive
    /// descendant (no dangling parent reference survives), and close the
    /// position gap left in its sibling group, so sibling positions stay
    /// contiguous. A missing id is a silent no-op: delete is idempotent.
    pub fn delete_todo(&mut self, id: u32)
        requires
            old(self).inv(),
        ensures
            final(self).inv(),
            final(self).next_id == old(self).next_id,
            final(self).note == old(self).note,
            !has_id(old(self).todos@, id) ==> final(self).todos@ == old(self).todos@,
            has_id(old(self).todos@, id) ==> final(self).todos@ == remove_subtree(
                old(self).todos@,
                id,
            ),
    {
        let ghost pre = old(self).todos@;
        let di = match self.find_idx(id) {
            Option::Some(i) => i,
            Option::None => {
                return ;
            },
        };
        proof {
            lemma_idx_of(pre, id);
            assert(di as int == idx_of(pre, id));
            assert(self.todos@[di as int] == node_of(pre, id));
        }
        let del_parent = self.todos[di].parent_id;
        let del_pos = self.todos[di].position;
        let n = self.todos.len();
        let mut out: Vec<TodoItem> = Vec::new();
        let mut i: usize = 0;
        proof {
            reveal(Seq::filter);
            assert(pre.take(0) =~= Seq::<TodoItem>::empty());
            assert(out@ =~= pre.take(0).filter(
                |t: TodoItem| !in_subtree(pre, id, t.id),
            ).map_values(|t: TodoItem| shifted_after_delete(pre, id, t)));
        }
        while i < n
            invariant
                i <= n,
                n == pre.len(),
                pre == self.todos@,
                old(self).inv(),
                del_parent == parent_of(pre, id),
                del_pos == node_of(pre, id).position,
                has_id(pre, id),
                out@ == pre.take(i as int).filter(
                    |t: TodoItem| !in_subtree(pre, id, t.id),
                ).map_values(|t: TodoItem| shifted_after_delete(pre, id, t)),
            decreases n - i,
        {
            let ghost keep = |t: TodoItem| !in_subtree(pre, id, t.id);
            let ghost shiftf = |t: TodoItem| shifted_after_delete(pre, id, t);
            let xid = self.todos[i].id;
            let hit = self.chain_hits(xid, id);
            proof {
                reveal(Seq::filter);
                assert(pre.take(i as int + 1).drop_last() =~= pre.take(i as int));
                assert(pre.take(i as int + 1).last() == pre[i as int]);
                assert(pre.take(i as int + 1).filter(keep) == if keep(pre[i as int]) {
                    pre.take(i as int).filter(keep).push(pre[i as int])
                } else {
                    pre.take(i as int).filter(keep)
                });
            }
            if !hit {
                let node = &self.todos[i];
                let same_group = match (node.parent_id, del_parent) {
                    (Option::Some(a), Option::Some(b)) => a == b,
                    (Option::None, Option::None) => true,
                    _ => false,
                };
                let new_pos = if same_group && node.position > del_pos {
                    proof {
                        assert(0 <= node_of(pre, id).position);
                    }
                    node.position - 1
                } else {
                    node.position
                };
                let new_item = TodoItem {
                    id: node.id,
                    text: node.text.clone(),
                    completed: node.completed,
                    parent_id: node.parent_id,
                    position: new_pos,
                    target_count: node.target_count,
                    current_count: node.current_count,
                };
                let ghost out_before = out@;
                out.push(new_item);
                proof {
                    assert(new_item == shiftf(pre[i as int]));
                    assert(out@ =~= out_before.push(shiftf(pre[i as int])));
                    assert(pre.take(i as int).filter(keep).push(pre[i as int]).map_values(shiftf)
                        =~= pre.take(i as int).filter(keep).map_values(shiftf).push(shiftf(
                        pre[i as int],
                    )));
                }
            }
            i = i + 1;
        }
        proof {
            lemma_take_full(pre);
        }
        self.todos = out;
        proof {
            lemma_delete_wf(pre, id);
            lemma_delete_keeps(pre, id);
            assert(self.todos@ == remove_subtree(pre, id));
            assert forall|j: int| 0 <= j < self.todos@.len() implies (#[trigger] self.todos@[j]).id
                < self.next_id by {
                assert(has_id(pre, self.todos@[j].id));
                let i0 = choose|i0: int|
                    0 <= i0 < pre.len() && (#[trigger] pre[i0]).id == self.todos@[j].id;
                assert(pre[i0].id < self.next_id);
            }
        }
    }

    /// Decrement the node's countdown by one, floored at zero; when the
    /// count thereby is (or already was) zero, the node is completed
    /// through the full cascade of `update_todo`. A missing id is a silent
    /// no-op.
    pub fn decrement_todo(&mut self, id: u32)
        requires
            old(self).inv(),
        ensures
            final(self).inv(),
            final(self).next_id == old(self).next_id,
            final(self).note == old(self).note,
            !has_id(old(self).todos@, id) ==> final(self).todos@ == old(self).todos@,
            has_id(old(self).todos@, id) ==> ({
                let k = idx_of(old(self).todos@, id);
                let oldc = old(self).todos@[k].current_count;
                let newc: i32 = if oldc > 0 {
                    (oldc - 1) as i32
                } else {
                    0i32
                };
                let mid = old(self).todos@.update(
                    k,
                    (TodoItem { current_count: newc, ..old(self).todos@[k] }),
                );
                if newc <= 0 {
                    completion_update(mid, final(self).todos@, id, true)
                } else {
                    final(self).todos@ == mid
                }
            }),
    {
        let ghost pre = old(self).todos@;
        let r = self.find_idx(id);
        let i = match r {
            Option::Some(i) => i,
            Option::None => {
                return ;
            },
        };
        proof {
            lemma_idx_of(pre, id);
        }
        let oldc = self.todos[i].current_count;
        let newc: i32 = if oldc > 0 {
            oldc - 1
        } else {
            0
        };
        let node = &self.todos[i];
        let new_item = TodoItem {
            id: node.id,
            text: node.text.clone(),
            completed: node.completed,
            parent_id: node.parent_id,
            position: node.position,
            target_count: node.target_count,
            current_count: newc,
        };
        self.todos[i] = new_item;
        proof {
            let mid = self.todos@;
            assert forall|j: int|
                0 <= j < mid.len() implies match (#[trigger] mid[j]).target_count {
                Option::None => mid[j].current_count == 0,
                Option::Some(t) => 0 <= mid[j].current_count <= t,
            } by {
                assert(match pre[j].target_count {
                    Option::None => pre[j].current_count == 0,
                    Option::Some(t) => 0 <= pre[j].current_count <= t,
                });
            }
            lemma_same_structure_wf(pre, mid);
            assert forall|j: int| 0 <= j < mid.len() implies (#[trigger] mid[j]).id
                < self.next_id by {
                assert(pre[j].id < self.next_id);
            }
        }
        if newc <= 0 {
            proof {
                lemma_same_shape_lookup(pre, self.todos@, id);
            }
            self.update_todo(id, true);
        }
    }

    /// A snapshot of every node, ordered by `position` ascending; within
    /// each parent group (positions there being distinct) this is exactly
    /// the display order, so callers rebuild the tree by grouping on
    /// `parent_id`.
    pub fn get_todos(&self) -> (r: Vec<TodoItem>)
        ensures
            r@.len() == self.todos@.len(),
            r@.to_multiset() == self.todos@.to_multiset(),
            forall|j1: int, j2: int|
                0 <= j1 < j2 < r@.len() ==> (#[trigger] r@[j1]).position <= (#[trigger] r@[j2]).position,
    {
        let n = self.todos.len();
        let mut out: Vec<TodoItem> = Vec::new();
        let mut i: usize = 0;
        proof {
            broadcast use vstd::seq_lib::group_to_multiset_ensures;

            assert(out@.to_multiset() =~= self.todos@.take(0).to_multiset());
        }
        while i < n
            invariant
                i <= n,
                n == self.todos@.len(),
                out@.len() == i,
                out@.to_multiset() == self.todos@.take(i as int).to_multiset(),
                forall|j1: int, j2: int|
                    0 <= j1 < j2 < out@.len() ==> (#[trigger] out@[j1]).position
                        <= (#[trigger] out@[j2]).position,
            decreases n - i,
        {
            let item = self.todos[i].clone();
            let ghost titem = item;
            let mut k: usize = 0;
            let outlen = out.len();
            while k < outlen && out[k].position <= item.position
                invariant
                    k <= outlen,
                    outlen == out@.len(),
                    titem == item,
                    forall|j: int| 0 <= j < k ==> (#[trigger] out@[j]).position <= titem.position,
                decreases outlen - k,
            {
                k = k + 1;
            }
            let ghost out_before = out@;
            out.insert(k, item);
            proof {
                broadcast use vstd::seq_lib::group_to_multiset_ensures;

                assert(out@ == out_before.insert(k as int, titem));
                out_before.insert_ensures(k as int, titem);
                assert(self.todos@.take(i as int + 1).drop_last() =~= self.todos@.take(i as int));
                assert(self.todos@.take(i as int + 1) =~= self.todos@.take(i as int).push(
                    self.todos@[i as int],
                ));
                assert(titem == self.todos@[i as int]);
                assert(out@.to_multiset() == self.todos@.take(i as int + 1).to_multiset());
                assert forall|j1: int, j2: int|
                    0 <= j1 < j2 < out@.len() implies (#[trigger] out@[j1]).position
                    <= (#[trigger] out@[j2]).position by {
                    if j1 < k && j2 == k {
                        assert(out@[j1] == out_before[j1]);
                    } else if j1 == k && j2 > k {
                        assert(out@[j2] == out_before[j2 - 1]);
                        assert(k < out_before.len() ==> out_before[k as int].position
                            > titem.position);
                        if j2 - 1 > k {
                            assert(out_before[k as int].position <= out_before[j2 - 1].position);
                        }
                    } else if j1 < k && j2 > k {
                        assert(out@[j1] == out_before[j1]);
                        assert(out@[j2] == out_before[j2 - 1]);
                    } else if j1 > k && j2 > k {
                        assert(out@[j1] == out_before[j1 - 1]);
                        assert(out@[j2] == out_before[j2 - 1]);
                    }
                }
            }
            i = i + 1;
        }
        proof {
            lemma_take_full(self.todos@);
        }
        out
    }

    /// Rename the node with the given id in place; a missing id is a
    /// silent no-op.
    pub fn update_todo_text(&mut self, id: u32, text: String)
        requires
            old(self).inv(),
        ensures
            final(self).inv(),
            final(self).next_id == old(self).next_id,
            final(self).note == old(self).note,
            !has_id(old(self).todos@, id) ==> final(self).todos@ == old(self).todos@,
            has_id(old(self).todos@, id) ==> final(self).todos@ == old(self).todos@.update(
                idx_of(old(self).todos@, id),
                (TodoItem { text: text, ..old(self).todos@[idx_of(old(self).todos@, id)] }),
            ),
    {
        let r = self.find_idx(id);
        match r {
            Option::None => {},
            Option::Some(i) => {
                proof {
                    lemma_idx_of(self.todos@, id);
                }
                let node = &self.todos[i];
                let new_item = TodoItem {
                    id: node.id,
                    text,
                    completed: node.completed,
                    parent_id: node.parent_id,
                    position: node.position,
                    target_count: node.target_count,
                    current_count: node.current_count,
                };
                self.todos[i] = new_item;
                proof {
                    lemma_same_structure_wf(old(self).todos@, self.todos@);
                }
            },
        }
    }

    /// Arm or clear the countdown counter of the node with the given id:
    /// the target is set as requested and the current count restarts at the
    /// target (or at zero when cleared). The stored completion flag is left
    /// as it is; a missing id is a silent no-op.
    pub fn set_todo_count(&mut self, id: u32, count: Option<i32>)
        requires
            old(self).inv(),
            (match count {
                Option::Some(c) => c >= 0,
                Option::None => true,
            }),
        ensures
            final(self).inv(),
            final(self).next_id == old(self).next_id,
            final(self).note == old(self).note,
            !has_id(old(self).todos@, id) ==> final(self).todos@ == old(self).todos@,
            has_id(old(self).todos@, id) ==> final(self).todos@ == old(self).todos@.update(
                idx_of(old(self).todos@, id),
                (TodoItem {
                    target_count: count,
                    current_count: (match count {
                        Option::Some(c) => c,
                        Option::None => 0i32,
                    }),
                    ..old(self).todos@[idx_of(old(self).todos@, id)]
                }),
            ),
    {
        let r = self.find_idx(id);
        match r {
            Option::None => {},
            Option::Some(i) => {
                proof {
                    lemma_idx_of(self.todos@, id);
                }
                let cur = match count {
                    Option::Some(c) => c,
                    Option::None => 0i32,
                };
                let node = &self.todos[i];
                let new_item = TodoItem {
                    id: node.id,
                    text: node.text.clone(),
                    completed: node.completed,
                    parent_id: node.parent_id,
                    position: node.position,
                    target_count: count,
                    current_count: cur,
                };
                self.todos[i] = new_item;
                proof {
                    lemma_same_structure_wf(old(self).todos@, self.todos@);
                }
            },
        }
    }

    /// Reset every node to incomplete and restart every countdown at its
    /// target (or zero where none is set). Structure and text are
    /// untouched.
    pub fn reset_all_todos(&mut self)
        requires
            old(self).inv(),
        ensures
            final(self).inv(),
            final(self).next_id == old(self).next_id,
            final(self).note == old(self).note,
            final(self).todos@.len() == old(self).todos@.len(),
            forall|i: int|
                0 <= i < old(self).todos@.len() ==> final(self).todos@[i] == (TodoItem {
                    completed: false,
                    current_count: (match old(self).todos@[i].target_count {
                        Option::Some(t) => t,
                        Option::None => 0i32,
                    }),
                    ..old(self).todos@[i]
                }),
    {
        let n = self.todos.len();
        let mut i: usize = 0;
        while i < n
            invariant
                i <= n,
                n == self.todos@.len(),
                self.todos@.len() == old(self).todos@.len(),
                self.next_id == old(self).next_id,
                self.note == old(self).note,
                old(self).inv(),
                forall|j: int|
                    0 <= j < i ==> self.todos@[j] == (TodoItem {
                        completed: false,
                        current_count: (match old(self).todos@[j].target_count {
                            Option::Some(t) => t,
                            Option::None => 0i32,
                        }),
                        ..old(self).todos@[j]
                    }),
                forall|j: int| i <= j < n ==> self.todos@[j] == old(self).todos@[j],
            decreases n - i,
        {
            let node = &self.todos[i];
            let cur = match node.target_count {
                Option::Some(t) => t,
                Option::None => 0i32,
            };
            let new_item = TodoItem {
                id: node.id,
                text: node.text.clone(),
                completed: false,
                parent_id: node.parent_id,
                position: node.position,
                target_count: node.target_count,
                current_count: cur,
            };
            self.todos[i] = new_item;
            i = i + 1;
        }
        proof {
            let s = old(self).todos@;
            let s2 = self.todos@;
            assert forall|j: int|
                0 <= j < s2.len() implies match (#[trigger] s2[j]).target_count {
                Option::None => s2[j].current_count == 0,
                Option::Some(t) => 0 <= s2[j].current_count <= t,
            } by {
                assert(match s[j].target_count {
                    Option::None => s[j].current_count == 0,
                    Option::Some(t) => 0 <= s[j].current_count <= t,
                });
            }
            lemma_same_structure_wf(s, s2);
        }
    }
}

} // verus!
