use myoso::drafts::{
    add_child, check_branch_names, child_count, draft_depths, drafts_from_items, index_of_key,
    insert_after, is_linear, next_key, normalize_order, outline, prune_blank, remove_splice,
    remove_subtree, subtree_end,
};
use myoso::models::{Item, ItemKind, ScaffoldState, StepDraft};

fn item(id: &str, pos: i32, parent: Option<&str>) -> Item {
    Item {
        id: id.into(),
        card_id: "c".into(),
        position: pos,
        parent_id: parent.map(str::to_string),
        kind: ItemKind::Step,
        prompt: format!("Step {pos}"),
        answer: format!("answer {id}"),
        due_at: 0,
        last_reviewed_at: None,
        lapses: 0,
        review_count: 0,
        image_path: None,
        consecutive_fails: 0,
        consecutive_hards: 0,
        scaffold_state: ScaffoldState::Normal,
        scaffold_passes: 0,
        scaffold_pass_date: None,
        weak_spans: Vec::new(),
    }
}

fn forked() -> Vec<Item> {
    vec![
        item("t1", 1, None),
        item("t2", 2, Some("t1")),
        item("a1", 3, Some("t2")),
        item("a2", 4, Some("a1")),
        item("b1", 5, Some("t2")),
    ]
}

fn draft(name: &str, answer: &str) -> StepDraft {
    StepDraft { key: 0, db_id: None, parent: None, name: name.into(), answer: answer.into(), image: None }
}

fn names(d: &[StepDraft]) -> Vec<String> {
    d.iter().map(|x| if x.name.is_empty() { x.answer.clone() } else { x.name.clone() }).collect()
}

fn parent_names(d: &[StepDraft]) -> Vec<Option<String>> {
    let nm = |k: u32| d.iter().find(|x| x.key == k).map(|x| x.answer.clone()).unwrap();
    d.iter().map(|x| x.parent.map(nm)).collect()
}

fn guides(d: &[StepDraft]) -> Vec<String> {
    outline(d).into_iter().map(|r| r.guide).collect()
}

#[test]
fn drafts_roundtrip_from_items_keeps_ids_and_strips_auto_labels() {
    let mut items = forked();
    items[4].prompt = "HDD".into();
    items[2].prompt = "Step 3".into();
    let d = drafts_from_items(true, &items);
    assert_eq!(d.iter().map(|x| x.db_id.clone().unwrap()).collect::<Vec<_>>(), ["t1", "t2", "a1", "a2", "b1"]);
    assert!(d[0].name.is_empty() && d[2].name.is_empty());
    assert_eq!(d[4].name, "HDD");
    assert_eq!(d[0].parent, None);
    assert_eq!(d[1].parent, Some(d[0].key));
    assert_eq!(d[4].parent, Some(d[1].key));
}

#[test]
fn add_child_extends_then_branches() {
    let mut d = Vec::new();
    let r = add_child(&mut d, None, draft("", "root"));
    let rk = d[r].key;
    let a = add_child(&mut d, Some(rk), draft("", "a"));
    let a_key = d[a].key;
    add_child(&mut d, Some(rk), draft("B", "b"));
    add_child(&mut d, Some(a_key), draft("", "a2"));
    assert_eq!(names(&d), ["root", "a", "a2", "B"]);
    assert_eq!(check_branch_names(&d), Err("Every branch needs a name (steps that share a parent, or several top-level paths) so you can tell them apart in review."));
    d[1].name = "A".into();
    assert!(check_branch_names(&d).is_ok());
    assert!(!is_linear(&d));
}

#[test]
fn add_child_with_none_parent_creates_a_second_root_path() {
    let mut d = Vec::new();
    add_child(&mut d, None, draft("SSD", "s1"));
    let s1 = d[0].key;
    add_child(&mut d, Some(s1), draft("", "s2"));
    add_child(&mut d, None, draft("HDD", "h1"));
    assert_eq!(names(&d), ["SSD", "s2", "HDD"]);
    assert_eq!(child_count(&d, None), 2);
}

#[test]
fn insert_after_splices_and_adopts_children() {
    let mut d = Vec::new();
    add_child(&mut d, None, draft("", "s1"));
    let k1 = d[0].key;
    add_child(&mut d, Some(k1), draft("", "s2"));
    insert_after(&mut d, 0, draft("", "new"));
    assert_eq!(names(&d), ["s1", "new", "s2"]);
    assert_eq!(parent_names(&d), [None, Some("s1".into()), Some("new".into())]);
    assert!(is_linear(&d));
}

#[test]
fn remove_splice_keeps_children_and_restores_contiguity() {
    let mut d = Vec::new();
    add_child(&mut d, None, draft("", "root"));
    let rk = d[0].key;
    add_child(&mut d, Some(rk), draft("A", "A"));
    let ak = d[1].key;
    add_child(&mut d, Some(rk), draft("B", "B"));
    add_child(&mut d, Some(ak), draft("", "a"));
    assert_eq!(names(&d), ["root", "A", "a", "B"]);
    remove_splice(&mut d, 1);
    assert_eq!(names(&d), ["root", "a", "B"]);
    assert_eq!(parent_names(&d), [None, Some("root".into()), Some("root".into())]);
}

#[test]
fn remove_subtree_drops_the_whole_branch() {
    let mut d = Vec::new();
    add_child(&mut d, None, draft("", "root"));
    let rk = d[0].key;
    add_child(&mut d, Some(rk), draft("A", "A"));
    let ak = d[1].key;
    add_child(&mut d, Some(ak), draft("", "a"));
    add_child(&mut d, Some(rk), draft("B", "B"));
    assert_eq!(remove_subtree(&mut d, 1), 2);
    assert_eq!(names(&d), ["root", "B"]);
}

#[test]
fn prune_blank_promotes_children_of_dropped_steps() {
    let mut d = Vec::new();
    add_child(&mut d, None, draft("", "s1"));
    let k1 = d[0].key;
    add_child(&mut d, Some(k1), draft("", "   "));
    let kb = d[1].key;
    add_child(&mut d, Some(kb), draft("", "s3"));
    let p = prune_blank(&d);
    assert_eq!(names(&p), ["s1", "s3"]);
    assert_eq!(parent_names(&p), [None, Some("s1".into())]);
}

#[test]
fn outline_keeps_chains_flat_and_indents_forks() {
    let mut d = Vec::new();
    add_child(&mut d, None, draft("", "root"));
    let rk = d[0].key;
    add_child(&mut d, Some(rk), draft("A", "A"));
    let ak = d[1].key;
    add_child(&mut d, Some(ak), draft("", "a"));
    add_child(&mut d, Some(rk), draft("B", "B"));
    assert_eq!(guides(&d), ["", "├─ ", "│  ", "└─ "]);
    let o = outline(&d);
    assert_eq!(o.iter().map(|r| r.step_no).collect::<Vec<_>>(), [1, 2, 3, 2]);
    assert_eq!(o.iter().map(|r| r.branch).collect::<Vec<_>>(), [None, Some(false), None, Some(true)]);
}

#[test]
fn outline_draws_root_alternatives_as_a_bracket_with_a_nested_fork() {
    let mut d = Vec::new();
    add_child(&mut d, None, draft("A", "a1"));
    let a1 = d[0].key;
    add_child(&mut d, Some(a1), draft("", "a2"));
    let a2 = d[1].key;
    add_child(&mut d, Some(a2), draft("one", "a3-one"));
    add_child(&mut d, Some(a2), draft("two", "a3-two"));
    add_child(&mut d, None, draft("B", "b1"));
    let b1 = d.last().unwrap().key;
    add_child(&mut d, Some(b1), draft("", "b2"));
    assert_eq!(names(&d), ["A", "a2", "one", "two", "B", "b2"]);
    assert_eq!(guides(&d), ["┌─ ", "│  ", "│  ├─ ", "│  └─ ", "└─ ", "   "]);
}

#[test]
fn outline_uses_a_middle_connector_for_three_root_paths() {
    let mut d = Vec::new();
    for n in ["A", "B", "C"] {
        add_child(&mut d, None, draft(n, &n.to_lowercase()));
    }
    assert_eq!(guides(&d), ["┌─ ", "├─ ", "└─ "]);
}

#[test]
fn outline_rails_end_after_the_last_sibling() {
    let mut d = Vec::new();
    add_child(&mut d, None, draft("", "root"));
    let rk = d[0].key;
    add_child(&mut d, Some(rk), draft("A", "A"));
    add_child(&mut d, Some(rk), draft("B", "B"));
    let bk = d[2].key;
    add_child(&mut d, Some(bk), draft("", "b2"));
    assert_eq!(guides(&d), ["", "├─ ", "└─ ", "   "]);
}

#[test]
fn outline_of_a_plain_chain_has_no_guides_and_no_branches() {
    let d = StepDraft::chain(&[
        ("".into(), "a".into(), None),
        ("".into(), "b".into(), None),
        ("".into(), "c".into(), None),
    ]);
    let o = outline(&d);
    assert!(o.iter().all(|r| r.guide.is_empty() && r.branch.is_none()));
    assert_eq!(o.iter().map(|r| r.step_no).collect::<Vec<_>>(), [1, 2, 3]);
    assert!(is_linear(&d));
}

// ~~ further cases ~~

#[test]
fn next_key_is_one_past_the_largest() {
    assert_eq!(next_key(&[]), 0);
    let mut d = vec![draft("", "a"), draft("", "b")];
    d[0].key = 7;
    d[1].key = 3;
    assert_eq!(next_key(&d), 8);
}

#[test]
fn index_of_key_finds_the_first_match() {
    let mut d = vec![draft("", "a"), draft("", "b"), draft("", "c")];
    d[0].key = 4;
    d[1].key = 9;
    d[2].key = 9;
    assert_eq!(index_of_key(&d, 9), Some(1));
    assert_eq!(index_of_key(&d, 5), None);
}

#[test]
fn subtree_end_stops_at_the_next_sibling() {
    let mut d = Vec::new();
    add_child(&mut d, None, draft("", "root"));
    let rk = d[0].key;
    add_child(&mut d, Some(rk), draft("A", "A"));
    let ak = d[1].key;
    add_child(&mut d, Some(ak), draft("", "a"));
    add_child(&mut d, Some(rk), draft("B", "B"));
    assert_eq!(subtree_end(&d, 0), 4);
    assert_eq!(subtree_end(&d, 1), 3);
    assert_eq!(subtree_end(&d, 3), 4);
}

#[test]
fn add_child_under_an_unknown_key_starts_a_root_path() {
    let mut d = Vec::new();
    add_child(&mut d, None, draft("", "root"));
    let at = add_child(&mut d, Some(42), draft("", "orphan"));
    assert_eq!(at, 1);
    assert_eq!(d[1].parent, None);
    assert_eq!(d[1].key, 1);
}

#[test]
fn depths_follow_parent_links() {
    let mut d = Vec::new();
    add_child(&mut d, None, draft("", "root"));
    let rk = d[0].key;
    add_child(&mut d, Some(rk), draft("A", "A"));
    let ak = d[1].key;
    add_child(&mut d, Some(ak), draft("", "a"));
    add_child(&mut d, Some(rk), draft("B", "B"));
    assert_eq!(draft_depths(&d), vec![0, 1, 2, 1]);
}

#[test]
fn looping_links_are_counted_only_so_far() {
    let mut d = vec![draft("", "a"), draft("", "b")];
    d[0].key = 0;
    d[0].parent = Some(1);
    d[1].key = 1;
    d[1].parent = Some(0);
    assert_eq!(draft_depths(&d), vec![3, 3]);
}

#[test]
fn normalize_order_moves_children_behind_their_parent() {
    let mut d = vec![draft("", "child"), draft("", "root"), draft("", "stray")];
    d[0].key = 0;
    d[0].parent = Some(1);
    d[1].key = 1;
    d[1].parent = None;
    d[2].key = 2;
    d[2].parent = Some(99);
    normalize_order(&mut d);
    assert_eq!(names(&d), ["root", "child", "stray"]);
    assert_eq!(d[2].parent, None);
}

#[test]
fn normalize_order_leaves_a_loop_in_place() {
    let mut d = vec![draft("", "a"), draft("", "b"), draft("", "c")];
    d[0].key = 0;
    d[0].parent = Some(1);
    d[1].key = 1;
    d[1].parent = Some(0);
    d[2].key = 2;
    d[2].parent = Some(2);
    normalize_order(&mut d);
    assert_eq!(names(&d), ["a", "b", "c"]);
    assert_eq!(d[2].parent, None);
}

#[test]
fn a_single_root_path_needs_no_name() {
    let d = StepDraft::chain(&[("".into(), "a".into(), None), ("".into(), "b".into(), None)]);
    assert!(check_branch_names(&d).is_ok());
}
