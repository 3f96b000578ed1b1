use todo_tree::TodoItem;
use todo_tree::TodoStore;

fn node(todos: &[TodoItem], id: u32) -> &TodoItem {
    todos.iter().find(|t| t.id == id).expect("node must be present")
}

fn completed(st: &TodoStore, id: u32) -> bool {
    node(&st.get_todos(), id).completed
}

fn plain(id: u32, text: &str, parent: Option<u32>, position: i32) -> TodoItem {
    TodoItem {
        id,
        text: text.to_string(),
        completed: false,
        parent_id: parent,
        position,
        target_count: None,
        current_count: 0,
    }
}

#[test]
fn parent_completes_exactly_with_its_last_child() {
    let mut st = TodoStore::new();
    let p = st.save_todo("parent".to_string());
    let c1 = st.save_todo("one".to_string());
    let c2 = st.save_todo("two".to_string());
    let c3 = st.save_todo("three".to_string());
    st.move_todo(c1, Some(p), 0).unwrap();
    st.move_todo(c2, Some(p), 1).unwrap();
    st.move_todo(c3, Some(p), 2).unwrap();
    st.update_todo(c1, true);
    assert!(!completed(&st, p), "two children are still open");
    st.update_todo(c2, true);
    assert!(!completed(&st, p), "one child is still open");
    st.update_todo(c3, true);
    assert!(completed(&st, p), "the last child completes the parent");
    st.update_todo(c2, false);
    assert!(!completed(&st, p), "unmarking any child reopens the parent");
    assert!(completed(&st, c1) && completed(&st, c3));
}

#[test]
fn completing_a_parent_forces_its_subtree() {
    let mut st = TodoStore::new();
    let p = st.save_todo("parent".to_string());
    let c1 = st.save_todo("one".to_string());
    let c2 = st.save_todo("two".to_string());
    st.move_todo(c1, Some(p), 0).unwrap();
    st.move_todo(c2, Some(c1), 0).unwrap();
    st.update_todo(p, true);
    assert!(completed(&st, p) && completed(&st, c1) && completed(&st, c2));
    st.update_todo(p, false);
    assert!(!completed(&st, p) && !completed(&st, c1) && !completed(&st, c2));
}

#[test]
fn cascade_climbs_the_whole_chain() {
    let mut st = TodoStore::new();
    let g = st.save_todo("grandparent".to_string());
    let p = st.save_todo("parent".to_string());
    let c = st.save_todo("child".to_string());
    let s = st.save_todo("sibling of parent".to_string());
    st.move_todo(p, Some(g), 0).unwrap();
    st.move_todo(s, Some(g), 1).unwrap();
    st.move_todo(c, Some(p), 0).unwrap();
    st.update_todo(c, true);
    assert!(completed(&st, p), "the only child completes the parent");
    assert!(!completed(&st, g), "the grandparent still has an open child");
    st.update_todo(s, true);
    assert!(completed(&st, g), "the grandparent completes through its own rule");
    st.update_todo(c, false);
    assert!(!completed(&st, p) && !completed(&st, g), "reopening a leaf reopens the chain");
}

#[test]
fn countdown_completes_at_zero_and_never_goes_negative() {
    let mut st = TodoStore::new();
    let id = st.save_todo("laps".to_string());
    st.set_todo_count(id, Some(3));
    let todos = st.get_todos();
    assert_eq!(node(&todos, id).target_count, Some(3));
    assert_eq!(node(&todos, id).current_count, 3);
    st.decrement_todo(id);
    st.decrement_todo(id);
    assert_eq!(node(&st.get_todos(), id).current_count, 1);
    assert!(!completed(&st, id));
    st.decrement_todo(id);
    let todos = st.get_todos();
    assert_eq!(node(&todos, id).current_count, 0);
    assert!(node(&todos, id).completed, "reaching zero completes the node");
    st.decrement_todo(id);
    let todos = st.get_todos();
    assert_eq!(node(&todos, id).current_count, 0, "the count is floored at zero");
    assert!(node(&todos, id).completed);
}

#[test]
fn countdown_exhaustion_cascades_to_the_parent() {
    let mut st = TodoStore::new();
    let p = st.save_todo("parent".to_string());
    let c = st.save_todo("laps".to_string());
    st.move_todo(c, Some(p), 0).unwrap();
    st.set_todo_count(c, Some(2));
    st.decrement_todo(c);
    assert!(!completed(&st, p));
    st.decrement_todo(c);
    assert!(completed(&st, c) && completed(&st, p));
}

#[test]
fn rearming_a_counter_keeps_the_stored_flag() {
    let mut st = TodoStore::new();
    let id = st.save_todo("laps".to_string());
    st.set_todo_count(id, Some(1));
    st.decrement_todo(id);
    assert!(completed(&st, id));
    // re-arming resets only the count; the completion flag stays as it is
    st.set_todo_count(id, Some(2));
    let todos = st.get_todos();
    assert_eq!(todos[0].current_count, 2);
    assert!(todos[0].completed);
    // clearing the counter leaves the flag alone too
    st.set_todo_count(id, None);
    let todos = st.get_todos();
    assert_eq!(todos[0].target_count, None);
    assert_eq!(todos[0].current_count, 0);
    assert!(todos[0].completed);
}

#[test]
fn decrement_without_a_counter_completes_the_node() {
    let mut st = TodoStore::new();
    let id = st.save_todo("plain checkbox".to_string());
    st.decrement_todo(id);
    let todos = st.get_todos();
    assert_eq!(node(&todos, id).current_count, 0);
    assert!(node(&todos, id).completed, "a decrement at zero triggers completion");
}

#[test]
fn move_child_between_roots_scenario() {
    let mut st = TodoStore::new();
    let a = st.save_todo("A".to_string());
    let b = st.save_todo("B".to_string());
    let c = st.save_todo("C".to_string());
    st.move_todo(c, Some(a), 0).unwrap();
    // move C to root level between A and B
    st.move_todo(c, None, 1).unwrap();
    let todos = st.get_todos();
    let mut roots: Vec<&TodoItem> = todos.iter().filter(|t| t.parent_id.is_none()).collect();
    roots.sort_by_key(|t| t.position);
    let order: Vec<u32> = roots.iter().map(|t| t.id).collect();
    assert_eq!(order, vec![a, c, b]);
    let positions: Vec<i32> = roots.iter().map(|t| t.position).collect();
    assert_eq!(positions, vec![0, 1, 2]);
}

#[test]
fn deleting_the_last_child_leaves_the_parent_flag_alone() {
    let mut st = TodoStore::new();
    let a = st.save_todo("A".to_string());
    let c = st.save_todo("C".to_string());
    st.move_todo(c, Some(a), 0).unwrap();
    st.update_todo(c, true);
    assert!(completed(&st, a), "the only child completes the parent");
    st.delete_todo(c);
    let todos = st.get_todos();
    assert!(todos.iter().all(|t| t.parent_id != Some(a)));
    // a now-childless node keeps its stored flag: delete does not recompute
    assert!(node(&todos, a).completed);
}

#[test]
fn from_items_accepts_a_well_formed_forest() {
    let items = vec![
        plain(1, "A", None, 0),
        plain(2, "B", None, 1),
        plain(3, "C", Some(1), 0),
    ];
    let st = TodoStore::from_items(items, "memo".to_string()).expect("forest is well formed");
    assert_eq!(st.get_note(), "memo");
    let todos = st.get_todos();
    assert_eq!(todos.len(), 3);
    assert_eq!(node(&todos, 3).parent_id, Some(1));
    let mut st = st;
    let d = st.save_todo("D".to_string());
    assert_eq!(d, 4, "fresh ids start above the loaded ones");
    assert_eq!(node(&st.get_todos(), d).position, 2);
}

#[test]
fn from_items_rejects_broken_forests() {
    // duplicate ids
    let dup = vec![plain(1, "A", None, 0), plain(1, "B", None, 1)];
    assert!(TodoStore::from_items(dup, String::new()).is_none());
    // dangling parent reference
    let dangling = vec![plain(1, "A", Some(9), 0)];
    assert!(TodoStore::from_items(dangling, String::new()).is_none());
    // a parent cycle
    let cycle = vec![plain(1, "A", Some(2), 0), plain(2, "B", Some(1), 0)];
    assert!(TodoStore::from_items(cycle, String::new()).is_none());
    // a gap in sibling positions
    let gap = vec![plain(1, "A", None, 0), plain(2, "B", None, 2)];
    assert!(TodoStore::from_items(gap, String::new()).is_none());
    // duplicate positions within a group
    let clash = vec![plain(1, "A", None, 0), plain(2, "B", None, 0)];
    assert!(TodoStore::from_items(clash, String::new()).is_none());
    // a countdown outside its range
    let mut bad_count = vec![plain(1, "A", None, 0)];
    bad_count[0].target_count = Some(2);
    bad_count[0].current_count = 3;
    assert!(TodoStore::from_items(bad_count, String::new()).is_none());
}

#[test]
fn persistence_round_trip_through_snapshot() {
    let mut st = TodoStore::new();
    let a = st.save_todo("A".to_string());
    let b = st.save_todo("B".to_string());
    let c = st.save_todo("C".to_string());
    st.move_todo(c, Some(a), 0).unwrap();
    st.move_todo(b, Some(c), 0).unwrap();
    st.set_todo_count(b, Some(4));
    st.decrement_todo(b);
    st.update_todo(a, true);
    st.save_note("remember".to_string());
    // the ordered snapshot is exactly what gets persisted; loading it back
    // must reproduce the same forest, whatever order the rows come in
    let snapshot = st.get_todos();
    let reloaded = TodoStore::from_items(snapshot, st.get_note())
        .expect("a snapshot of a live store is well formed");
    assert_eq!(reloaded.get_note(), "remember");
    let before = st.get_todos();
    let after = reloaded.get_todos();
    assert_eq!(before.len(), after.len());
    for t in &before {
        let u = node(&after, t.id);
        assert_eq!(t.text, u.text);
        assert_eq!(t.completed, u.completed);
        assert_eq!(t.parent_id, u.parent_id);
        assert_eq!(t.position, u.position);
        assert_eq!(t.target_count, u.target_count);
        assert_eq!(t.current_count, u.current_count);
    }
    // fresh ids continue above everything that was loaded
    let mut reloaded = reloaded;
    let d = reloaded.save_todo("D".to_string());
    assert!(d > c);
}
