use todo_tree::MoveError;
use todo_tree::TodoItem;
use todo_tree::TodoStore;

fn node(todos: &[TodoItem], id: u32) -> &TodoItem {
    todos.iter().find(|t| t.id == id).expect("node must be present")
}

fn root_order(todos: &[TodoItem]) -> Vec<u32> {
    let mut roots: Vec<&TodoItem> = todos.iter().filter(|t| t.parent_id.is_none()).collect();
    roots.sort_by_key(|t| t.position);
    roots.iter().map(|t| t.id).collect()
}

fn children_order(todos: &[TodoItem], parent: u32) -> Vec<u32> {
    let mut kids: Vec<&TodoItem> =
        todos.iter().filter(|t| t.parent_id == Some(parent)).collect();
    kids.sort_by_key(|t| t.position);
    kids.iter().map(|t| t.id).collect()
}

#[test]
fn create_assigns_sequential_root_positions() {
    let mut st = TodoStore::new();
    let a = st.save_todo("first".to_string());
    let b = st.save_todo("second".to_string());
    let c = st.save_todo("third".to_string());
    let todos = st.get_todos();
    assert_eq!(node(&todos, a).position, 0);
    assert_eq!(node(&todos, b).position, 1);
    assert_eq!(node(&todos, c).position, 2);
}

#[test]
fn create_returns_fresh_increasing_ids() {
    let mut st = TodoStore::new();
    let a = st.save_todo("a".to_string());
    let b = st.save_todo("b".to_string());
    assert_eq!(a, 1);
    assert_eq!(b, 2);
    st.delete_todo(b);
    let c = st.save_todo("c".to_string());
    assert_eq!(c, 3, "ids are never reused");
}

#[test]
fn round_trip_create_then_read() {
    let mut st = TodoStore::new();
    let id = st.save_todo("buy milk".to_string());
    let todos = st.get_todos();
    let it = node(&todos, id);
    assert_eq!(it.text, "buy milk");
    assert!(!it.completed);
    assert_eq!(it.parent_id, None);
    assert_eq!(it.target_count, None);
    assert_eq!(it.current_count, 0);
}

#[test]
fn get_todos_is_sorted_by_position() {
    let mut st = TodoStore::new();
    let a = st.save_todo("a".to_string());
    let b = st.save_todo("b".to_string());
    let c = st.save_todo("c".to_string());
    st.move_todo(c, None, 0).unwrap();
    let todos = st.get_todos();
    for w in todos.windows(2) {
        assert!(w[0].position <= w[1].position);
    }
    assert_eq!(root_order(&todos), vec![c, a, b]);
}

#[test]
fn update_text_renames_in_place() {
    let mut st = TodoStore::new();
    let a = st.save_todo("old".to_string());
    let b = st.save_todo("other".to_string());
    st.update_todo_text(a, "new".to_string());
    let todos = st.get_todos();
    assert_eq!(node(&todos, a).text, "new");
    assert_eq!(node(&todos, b).text, "other");
    assert_eq!(node(&todos, a).position, 0);
}

#[test]
fn mutations_on_missing_ids_are_silent_noops() {
    let mut st = TodoStore::new();
    let a = st.save_todo("a".to_string());
    st.update_todo(999, true);
    st.update_todo_text(999, "x".to_string());
    st.set_todo_count(999, Some(3));
    st.decrement_todo(999);
    st.delete_todo(999);
    assert_eq!(st.move_todo(999, None, 0), Ok(()));
    let todos = st.get_todos();
    assert_eq!(todos.len(), 1);
    assert_eq!(node(&todos, a).text, "a");
    assert!(!node(&todos, a).completed);
}

#[test]
fn note_round_trip() {
    let mut st = TodoStore::new();
    assert_eq!(st.get_note(), "");
    st.save_note("# shopping\nmilk".to_string());
    assert_eq!(st.get_note(), "# shopping\nmilk");
}

#[test]
fn move_rejects_missing_parent() {
    let mut st = TodoStore::new();
    let a = st.save_todo("a".to_string());
    assert_eq!(st.move_todo(a, Some(42), 0), Err(MoveError::ParentNotFound));
    let todos = st.get_todos();
    assert_eq!(node(&todos, a).parent_id, None);
}

#[test]
fn move_rejects_cycles() {
    let mut st = TodoStore::new();
    let a = st.save_todo("a".to_string());
    let b = st.save_todo("b".to_string());
    let c = st.save_todo("c".to_string());
    st.move_todo(b, Some(a), 0).unwrap();
    st.move_todo(c, Some(b), 0).unwrap();
    assert_eq!(st.move_todo(a, Some(a), 0), Err(MoveError::CycleDetected));
    assert_eq!(st.move_todo(a, Some(b), 0), Err(MoveError::CycleDetected));
    assert_eq!(st.move_todo(a, Some(c), 0), Err(MoveError::CycleDetected));
    // the other direction is fine: a child may move under a deeper sibling tree
    assert_eq!(st.move_todo(c, Some(a), 1), Ok(()));
}

#[test]
fn move_rejects_out_of_range_positions() {
    let mut st = TodoStore::new();
    let a = st.save_todo("a".to_string());
    let b = st.save_todo("b".to_string());
    // root group without `a` holds one node, so valid positions are 0..=1
    assert_eq!(st.move_todo(a, None, 2), Err(MoveError::PositionOutOfRange));
    assert_eq!(st.move_todo(a, None, -1), Err(MoveError::PositionOutOfRange));
    // an empty destination group accepts only position 0
    assert_eq!(st.move_todo(a, Some(b), 1), Err(MoveError::PositionOutOfRange));
    assert_eq!(st.move_todo(a, Some(b), 0), Ok(()));
}

#[test]
fn move_down_within_group_uses_post_removal_index() {
    let mut st = TodoStore::new();
    let a = st.save_todo("a".to_string());
    let b = st.save_todo("b".to_string());
    let c = st.save_todo("c".to_string());
    // moving the first node to the end of its own group: the index is
    // counted with the node already taken out, so the last slot is 2
    st.move_todo(a, None, 2).unwrap();
    let todos = st.get_todos();
    assert_eq!(root_order(&todos), vec![b, c, a]);
    let positions: Vec<i32> = {
        let mut ps: Vec<i32> =
            todos.iter().filter(|t| t.parent_id.is_none()).map(|t| t.position).collect();
        ps.sort();
        ps
    };
    assert_eq!(positions, vec![0, 1, 2]);
}

#[test]
fn move_keeps_group_positions_contiguous() {
    let mut st = TodoStore::new();
    let a = st.save_todo("a".to_string());
    let b = st.save_todo("b".to_string());
    let c = st.save_todo("c".to_string());
    let d = st.save_todo("d".to_string());
    st.move_todo(b, Some(a), 0).unwrap();
    st.move_todo(c, Some(a), 1).unwrap();
    st.move_todo(d, Some(a), 1).unwrap();
    let todos = st.get_todos();
    assert_eq!(children_order(&todos, a), vec![b, d, c]);
    let mut kid_positions: Vec<i32> =
        todos.iter().filter(|t| t.parent_id == Some(a)).map(|t| t.position).collect();
    kid_positions.sort();
    assert_eq!(kid_positions, vec![0, 1, 2]);
    let mut root_positions: Vec<i32> =
        todos.iter().filter(|t| t.parent_id.is_none()).map(|t| t.position).collect();
    root_positions.sort();
    assert_eq!(root_positions, vec![0]);
}

#[test]
fn delete_removes_whole_subtree_and_leaves_no_orphans() {
    let mut st = TodoStore::new();
    let a = st.save_todo("a".to_string());
    let b = st.save_todo("b".to_string());
    let c = st.save_todo("c".to_string());
    let d = st.save_todo("d".to_string());
    st.move_todo(c, Some(a), 0).unwrap();
    st.move_todo(d, Some(c), 0).unwrap();
    st.delete_todo(a);
    let todos = st.get_todos();
    let ids: Vec<u32> = todos.iter().map(|t| t.id).collect();
    assert_eq!(ids, vec![b]);
    for t in &todos {
        if let Some(p) = t.parent_id {
            assert!(todos.iter().any(|u| u.id == p), "dangling parent reference");
        }
    }
}

#[test]
fn delete_compacts_the_sibling_group() {
    let mut st = TodoStore::new();
    let a = st.save_todo("a".to_string());
    let b = st.save_todo("b".to_string());
    let c = st.save_todo("c".to_string());
    st.delete_todo(b);
    let todos = st.get_todos();
    assert_eq!(node(&todos, a).position, 0);
    assert_eq!(node(&todos, c).position, 1, "delete closes the gap it leaves");
}

#[test]
fn reset_all_clears_flags_and_rearms_counters() {
    let mut st = TodoStore::new();
    let a = st.save_todo("a".to_string());
    let b = st.save_todo("b".to_string());
    st.update_todo(a, true);
    st.set_todo_count(b, Some(5));
    st.decrement_todo(b);
    st.decrement_todo(b);
    st.reset_all_todos();
    let todos = st.get_todos();
    assert!(!node(&todos, a).completed);
    assert!(!node(&todos, b).completed);
    assert_eq!(node(&todos, b).target_count, Some(5));
    assert_eq!(node(&todos, b).current_count, 5);
    assert_eq!(node(&todos, a).current_count, 0);
}
