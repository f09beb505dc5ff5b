use myoso::models::{Item, ItemKind, ScaffoldState};
use myoso::tree::{validate, StepTree, TreeError};

const NOW: i64 = 1_700_000_000_000;
const MINUTE: i64 = 60_000;
const DAY: i64 = 24 * 60 * MINUTE;

fn item(id: &str, pos: i32, parent: Option<&str>, due_in_min: i64) -> Item {
    Item {
        id: id.into(),
        card_id: "c".into(),
        position: pos,
        parent_id: parent.map(str::to_string),
        kind: ItemKind::Step,
        prompt: format!("Step {pos}"),
        answer: format!("answer {id}"),
        due_at: NOW + due_in_min * MINUTE,
        last_reviewed_at: None,
        lapses: 0,
        review_count: 0,
        image_path: None,
        consecutive_fails: 0,
        consecutive_hards: 0,
        scaffold_state: ScaffoldState::Normal,
        scaffold_passes: 0,
        scaffold_pass_date: None,
        weak_spans: Vec::new(),
    }
}

fn ids(t: &StepTree, v: &[usize]) -> Vec<String> {
    v.iter().map(|&i| t.item(i).id.clone()).collect()
}

// root
//  |- a1 - a2 - a3
//  |- b1 - b2
fn two_root_paths(due: [i64; 5]) -> Vec<Item> {
    vec![
        item("a1", 1, None, due[0]),
        item("a2", 2, Some("a1"), due[1]),
        item("b1", 3, None, due[2]),
        item("b2", 4, Some("b1"), due[3]),
        item("a3", 5, Some("a2"), due[4]),
    ]
}

//  t1 - t2 - a1 - a2
//          |- b1
fn forked() -> Vec<Item> {
    vec![
        item("t1", 1, None, -1),
        item("t2", 2, Some("t1"), -1),
        item("a1", 3, Some("t2"), -1),
        item("a2", 4, Some("a1"), -1),
        item("b1", 5, Some("t2"), -1),
    ]
}

#[test]
fn legacy_chain_derives_parents_from_position() {
    let mut items = vec![
        item("s1", 1, None, -1),
        item("s2", 2, Some("nonsense"), -1),
        item("s3", 3, None, -1),
    ];
    items[2].parent_id = Some("s1".into());
    let t = StepTree::new(false, &items);
    assert_eq!(t.roots(), &[0]);
    assert_eq!(t.parent(1), Some(0));
    assert_eq!(t.parent(2), Some(1));
    assert_eq!(t.depth(2), 2);
}

#[test]
fn legacy_chain_is_ordered_by_position_not_slice_order() {
    let items = vec![item("s3", 3, None, -1), item("s1", 1, None, -1), item("s2", 2, None, -1)];
    let t = StepTree::new(false, &items);
    assert_eq!(ids(&t, &t.path_to(0)), ["s1", "s2", "s3"]);
}

#[test]
fn tree_parents_children_and_order() {
    let items = forked();
    let t = StepTree::new(true, &items);
    assert_eq!(t.roots(), &[0]);
    assert_eq!(ids(&t, t.children(1)), ["a1", "b1"]);
    assert_eq!(ids(&t, &t.dfs_order()), ["t1", "t2", "a1", "a2", "b1"]);
    assert_eq!(t.depth(3), 3);
    assert_eq!(ids(&t, &t.path_to(3)), ["t1", "t2", "a1", "a2"]);
}

#[test]
fn descendants_of_trunk_cover_both_branches_but_leaf_is_isolated() {
    let items = forked();
    let t = StepTree::new(true, &items);
    let trunk = t.index_of("t2").unwrap();
    assert_eq!(ids(&t, &t.descendants(trunk)), ["a1", "a2", "b1"]);
    let a1 = t.index_of("a1").unwrap();
    assert_eq!(ids(&t, &t.descendants(a1)), ["a2"]);
    assert!(t.descendants(t.index_of("b1").unwrap()).is_empty());
}

#[test]
fn leaf_paths_walk_each_branch_from_the_root() {
    let items = forked();
    let t = StepTree::new(true, &items);
    let paths: Vec<Vec<String>> = t.leaf_paths().iter().map(|p| ids(&t, p)).collect();
    assert_eq!(paths, vec![vec!["t1", "t2", "a1", "a2"], vec!["t1", "t2", "b1"]]);
}

#[test]
fn frontier_is_first_due_step_for_a_linear_chain() {
    for first_due in 0..4 {
        let items: Vec<Item> = (0..4)
            .map(|i| {
                let due = if i >= first_due { -1 } else { 60 };
                item(&format!("s{i}"), i as i32 + 1, None, due)
            })
            .collect();
        let t = StepTree::new(false, &items);
        let f = t.frontier(NOW);
        assert_eq!(f, vec![first_due], "first_due={first_due}");
        let paths = t.due_paths(NOW);
        assert_eq!(paths.len(), 1);
        let got: Vec<&str> = paths[0].iter().map(|i| i.id.as_str()).collect();
        let want: Vec<String> = (0..=first_due).map(|i| format!("s{i}")).collect();
        assert_eq!(got, want.iter().map(String::as_str).collect::<Vec<_>>());
    }
}

#[test]
fn frontier_nothing_due() {
    let items: Vec<Item> = (0..3).map(|i| item(&format!("s{i}"), i + 1, None, 60)).collect();
    assert!(StepTree::new(false, &items).frontier(NOW).is_empty());
}

#[test]
fn brand_new_root_fork_targets_both_paths() {
    let items = two_root_paths([-1, -1, -1, -1, -1]);
    let t = StepTree::new(true, &items);
    assert_eq!(ids(&t, &t.frontier(NOW)), ["a1", "b1"]);
    let paths = t.due_paths(NOW);
    assert!(paths.iter().all(|p| p.len() == 1));
}

#[test]
fn frontier_skips_gated_descendants_and_finds_independent_branches() {
    let mut items = forked();
    items[0].due_at = NOW + 3 * DAY;
    items[1].due_at = NOW + 3 * DAY;
    items[4].due_at = NOW + 3 * DAY;
    let t = StepTree::new(true, &items);
    assert_eq!(ids(&t, &t.frontier(NOW)), ["a1"]);
    let paths = t.due_paths(NOW);
    let got: Vec<&str> = paths[0].iter().map(|i| i.id.as_str()).collect();
    assert_eq!(got, ["t1", "t2", "a1"]);
}

#[test]
fn frontier_two_branches_due_at_once() {
    let mut items = forked();
    items[0].due_at = NOW + 3 * DAY;
    items[1].due_at = NOW + 3 * DAY;
    let t = StepTree::new(true, &items);
    assert_eq!(ids(&t, &t.frontier(NOW)), ["a1", "b1"]);
}

#[test]
fn due_trunk_gates_everything_below_it() {
    let mut items = forked();
    items[2].due_at = NOW - 5 * MINUTE;
    items[3].due_at = NOW - 5 * MINUTE;
    items[4].due_at = NOW - 5 * MINUTE;
    items[0].due_at = NOW + 3 * DAY;
    items[1].due_at = NOW - MINUTE;
    let t = StepTree::new(true, &items);
    assert_eq!(ids(&t, &t.frontier(NOW)), ["t2"]);
}

#[test]
fn dangling_parent_becomes_root_and_self_parent_is_ignored() {
    let items = vec![item("x", 1, Some("ghost"), -1), item("y", 2, Some("y"), -1)];
    let t = StepTree::new(true, &items);
    assert_eq!(t.roots(), &[0, 1]);
}

#[test]
fn cycles_are_cut_not_looped() {
    let items = vec![
        item("a", 1, Some("c"), -1),
        item("b", 2, Some("a"), -1),
        item("c", 3, Some("b"), -1),
        item("tail", 4, Some("c"), -1),
    ];
    let t = StepTree::new(true, &items);
    assert_eq!(t.roots().len(), 1, "exactly one cycle member is promoted to root");
    assert_eq!(t.dfs_order().len(), 4, "every node is reachable exactly once");
    let tail = t.index_of("tail").unwrap();
    assert_eq!(t.parent(tail), Some(t.index_of("c").unwrap()));
}

#[test]
fn validate_accepts_good_and_rejects_bad_trees() {
    assert_eq!(validate(&forked()), Ok(()));
    assert_eq!(validate(&two_root_paths([0; 5])), Ok(()));

    let bad = vec![item("a", 1, Some("nope"), 0)];
    assert!(matches!(validate(&bad), Err(TreeError::UnknownParent { .. })));

    let me = vec![item("a", 1, Some("a"), 0)];
    assert_eq!(validate(&me), Err(TreeError::SelfParent("a".into())));

    let cyc = vec![item("a", 1, Some("b"), 0), item("b", 2, Some("a"), 0)];
    assert!(matches!(validate(&cyc), Err(TreeError::Cycle(_))));

    let dup = vec![item("a", 1, None, 0), item("a", 2, None, 0)];
    assert_eq!(validate(&dup), Err(TreeError::DuplicateId("a".into())));
}

// ~~ further cases ~~

#[test]
fn every_step_is_visited_once_in_depth_first_order() {
    let items = two_root_paths([0; 5]);
    let t = StepTree::new(true, &items);
    assert_eq!(ids(&t, &t.dfs_order()), ["a1", "a2", "a3", "b1", "b2"]);
}

#[test]
fn failing_a_step_relocks_exactly_its_subtree() {
    let items = two_root_paths([0; 5]);
    let t = StepTree::new(true, &items);
    let a1 = t.index_of("a1").unwrap();
    assert_eq!(ids(&t, &t.descendants(a1)), ["a2", "a3"]);
    let b1 = t.index_of("b1").unwrap();
    assert_eq!(ids(&t, &t.descendants(b1)), ["b2"]);
}

#[test]
fn tree_error_messages_name_the_step() {
    assert_eq!(TreeError::DuplicateId("a".into()).message(), "duplicate step id a");
    assert_eq!(
        TreeError::UnknownParent { item: "a".into(), parent: "p".into() }.message(),
        "step a points at parent p, which is not in the same card"
    );
    assert_eq!(TreeError::SelfParent("a".into()).message(), "step a is its own parent");
    assert_eq!(TreeError::Cycle("a".into()).message(), "step a is part of a parent cycle");
}

#[test]
fn a_step_hanging_below_a_cycle_is_reported_as_a_cycle() {
    let items = vec![
        item("a", 1, Some("b"), 0),
        item("b", 2, Some("a"), 0),
        item("tail", 3, Some("b"), 0),
    ];
    assert_eq!(validate(&items), Err(TreeError::Cycle("a".into())));
}

#[test]
fn empty_tree_has_no_frontier() {
    let items: Vec<Item> = Vec::new();
    let t = StepTree::new(true, &items);
    assert!(t.is_empty());
    assert!(t.frontier(NOW).is_empty());
    assert!(t.dfs_order().is_empty());
}
