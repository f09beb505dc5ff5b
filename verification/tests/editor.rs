use myoso::drafts::{check_branch_names, child_count, is_linear, outline, plan_step_rows, prune_blank};
use myoso::editor::{AddCardState, AddKind};
use myoso::models::{Card, CardKind, Item, ItemKind, ReviewMode, ScaffoldState, StepDraft};

fn draft(key: u32, parent: Option<u32>, name: &str, answer: &str) -> StepDraft {
    StepDraft { key, db_id: None, parent, name: name.into(), answer: answer.into(), image: None }
}

/// t1 - t2 -+- a1 - a2   (branches "A" / "B")
///          +- b1
fn fork() -> Vec<StepDraft> {
    vec![
        draft(0, None, "", "t1"),
        draft(1, Some(0), "", "t2"),
        draft(2, Some(1), "A", "a1"),
        draft(3, Some(2), "", "a2"),
        draft(4, Some(1), "B", "b1"),
    ]
}

fn chain(answers: &[&str]) -> Vec<StepDraft> {
    answers
        .iter()
        .enumerate()
        .map(|(i, a)| draft(i as u32, if i == 0 { None } else { Some(i as u32 - 1) }, "", a))
        .collect()
}

fn step_item(id: &str, pos: i32, parent: Option<String>, prompt: &str, answer: &str) -> Item {
    Item {
        id: id.into(),
        card_id: "card".into(),
        position: pos,
        parent_id: parent,
        kind: ItemKind::Step,
        prompt: prompt.into(),
        answer: answer.into(),
        due_at: 0,
        last_reviewed_at: None,
        lapses: 0,
        review_count: 0,
        image_path: None,
        consecutive_fails: 0,
        consecutive_hards: 0,
        scaffold_state: ScaffoldState::Normal,
        scaffold_passes: 0,
        scaffold_pass_date: None,
        weak_spans: Vec::new(),
    }
}

fn card() -> Card {
    Card {
        id: "card".into(),
        deck: "Deck".into(),
        kind: CardKind::Multi,
        question: "Q?".into(),
        reversible: false,
        show_chain: true,
        review_mode: ReviewMode::SpacedRepetition,
        tags: Vec::new(),
        is_tree: true,
    }
}

/// What saving the drafts stores: the rows the store writes for them,
/// existing rows kept by id and new ones under fresh ids.
fn save(steps: &[StepDraft], existing: &[Item]) -> Vec<Item> {
    let drafts = prune_blank(steps);
    assert!(!drafts.is_empty());
    check_branch_names(&drafts).unwrap();
    let have: Vec<String> = existing.iter().map(|i| i.id.clone()).collect();
    let fresh: Vec<String> = (0..drafts.len()).map(|k| format!("new{}_{}", existing.len(), k)).collect();
    let (rows, _) = plan_step_rows(&drafts, &have, &fresh);
    rows.into_iter()
        .map(|r| step_item(&r.id, r.position, r.parent_id, &r.label, &r.answer))
        .collect()
}

fn add(d: &[StepDraft]) -> Vec<Item> {
    save(d, &[])
}

fn editor_for(items: &[Item]) -> AddCardState {
    AddCardState::for_edit(&card(), items, vec![], vec![])
}

fn step_answers(s: &AddCardState) -> Vec<&str> {
    s.steps.iter().map(|d| d.answer.as_str()).collect()
}

fn type_step(s: &mut AddCardState, name: &str, answer: &str) {
    s.step_name_buf = name.into();
    s.step_buf = answer.into();
    s.commit_step();
}

#[test]
fn typing_steps_one_after_another_builds_a_chain_even_on_an_existing_card() {
    let items = add(&chain(&["s1", "s2", "s3"]));
    let mut s = editor_for(&items);
    assert_eq!(s.step_selected, Some(0)); // for_edit selects the first step
    type_step(&mut s, "", "s4"); // must APPEND, not fork under s1
    type_step(&mut s, "", "s5");
    assert_eq!(step_answers(&s), ["s1", "s2", "s3", "s4", "s5"]);
    assert!(is_linear(&s.steps));
    assert!(s.validate().is_ok());
}

#[test]
fn branch_key_forks_under_the_selected_step_and_names_are_required() {
    let items = add(&chain(&["s1", "s2", "s3"]));
    let mut s = editor_for(&items);
    s.step_selected = Some(0);
    s.begin_branch();
    assert_eq!(s.focused, 2);
    assert_eq!(s.attach_hint().as_deref(), Some("new branch under 1. s1"));
    type_step(&mut s, "", "alt");

    assert_eq!(step_answers(&s), ["s1", "s2", "s3", "alt"]);
    assert_eq!(s.steps[3].parent, Some(s.steps[0].key));
    assert!(s.validate().is_err(), "two children of s1, neither named");

    s.steps[1].name = "Main".into();
    s.steps[3].name = "Alt".into();
    assert!(s.validate().is_ok());

    // saving it produces a real fork
    let saved = save(&s.steps, &items);
    let s1 = saved.iter().find(|i| i.answer == "s1").unwrap();
    assert_eq!(saved.iter().filter(|i| i.parent_id.as_deref() == Some(s1.id.as_str())).count(), 2);
}

#[test]
fn root_path_key_adds_an_alternative_answer_to_the_question() {
    let items = add(&chain(&["s1", "s2"]));
    let mut s = editor_for(&items);
    s.begin_root_path();
    assert_eq!(s.attach_hint().as_deref(), Some("new top-level path"));
    type_step(&mut s, "Other way", "o1");
    assert_eq!(child_count(&s.steps, None), 2);
    assert!(s.validate().is_err(), "the two root paths need names");
    s.steps[0].name = "First way".into();
    assert!(s.validate().is_ok());
    // the following step continues the NEW path (selection moved to it)
    type_step(&mut s, "", "o2");
    assert_eq!(s.steps.last().unwrap().parent, Some(s.steps[s.steps.len() - 2].key));
}

#[test]
fn navigating_the_list_cancels_a_pending_branch_target() {
    let items = add(&chain(&["s1", "s2"]));
    let mut s = editor_for(&items);
    s.begin_branch();
    assert!(s.pending_parent.is_some());
    s.pending_parent = None; // what Up/Down do in the key handler
    type_step(&mut s, "", "s3");
    assert!(is_linear(&s.steps));
}

#[test]
fn delete_keys_remove_one_step_or_a_whole_branch() {
    let items = add(&fork());
    let mut s = editor_for(&items);
    let a1 = s.steps.iter().position(|d| d.answer == "a1").unwrap();

    s.step_selected = Some(a1);
    s.delete_selected_step(false); // just a1: a2 moves up under t2
    assert_eq!(step_answers(&s).len(), 4);
    let a2 = s.steps.iter().find(|d| d.answer == "a2").unwrap();
    let t2 = s.steps.iter().find(|d| d.answer == "t2").unwrap();
    assert_eq!(a2.parent, Some(t2.key));

    let t2_idx = s.steps.iter().position(|d| d.answer == "t2").unwrap();
    s.step_selected = Some(t2_idx);
    s.delete_selected_step(true); // t2 and everything below it
    assert_eq!(step_answers(&s), ["t1"]);
    assert_eq!(s.step_selected, Some(0));
}

#[test]
fn insert_then_cancel_restores_the_original_chain() {
    let items = add(&chain(&["s1", "s2", "s3"]));
    let mut s = editor_for(&items);
    s.step_selected = Some(0);
    s.insert_step_after_selected();
    assert_eq!(s.steps.len(), 4);
    assert!(s.editing_step_idx.is_some());
    s.commit_step(); // blank answer = cancel
    assert_eq!(step_answers(&s), ["s1", "s2", "s3"]);
    assert!(is_linear(&s.steps));
    assert_eq!(s.steps[1].parent, Some(s.steps[0].key), "s2 re-attached to s1");
}

#[test]
fn a_saved_tree_reopens_in_the_editor_in_the_same_shape() {
    let items = add(&fork());
    let s = editor_for(&items);
    assert_eq!(step_answers(&s), ["t1", "t2", "a1", "a2", "b1"]);
    let rows = outline(&s.steps);
    assert_eq!(rows[2].branch, Some(false));
    assert_eq!(rows[4].branch, Some(true));
    assert_eq!(s.steps[2].name, "A");
    assert!(s.steps[0].name.is_empty(), "auto label is not shown as a name");
}

// ~~ more of the editor ~~

#[test]
fn a_new_form_starts_on_the_type_picker_with_the_decks() {
    let s = AddCardState::new(vec!["Rust".into(), "Rust::Traits".into()]);
    assert_eq!(s.kind, AddKind::Simple);
    assert_eq!(s.focused, 0);
    assert!(s.steps.is_empty());
    assert_eq!(s.decks.len(), 2);
}

#[test]
fn a_blank_deck_is_refused_before_anything_else() {
    let mut s = AddCardState::new(vec![]);
    s.deck = "   ".into();
    assert_eq!(s.validate(), Err("Deck name cannot be empty."));
}

#[test]
fn tags_are_split_cleaned_and_lowercased() {
    let mut s = AddCardState::new(vec![]);
    s.tags_buf = " #Rust, traits  ,, ##Async ".into();
    assert_eq!(s.parsed_tags(), ["rust", "traits", "async"]);
}

#[test]
fn deck_suggestions_follow_the_typed_deck() {
    let mut s = AddCardState::new(vec!["Rust".into(), "Go".into(), "Rust::Traits".into()]);
    s.deck = "rust".into();
    assert_eq!(s.filtered_decks(), ["Rust", "Rust::Traits"]);
    s.deck_list_idx = Some(1);
    assert_eq!(s.selected_suggestion().as_deref(), Some("Rust::Traits"));
}

#[test]
fn typing_goes_to_the_focused_field() {
    let mut s = AddCardState::new(vec![]);
    s.push_char('D');
    s.push_char('k');
    s.pop_char();
    assert_eq!(s.deck, "D");
    s.next_field();
    s.push_char('Q');
    assert_eq!(s.simple_question, "Q");
}

#[test]
fn clicks_in_the_editor_focus_fields_steps_and_suggestions() {
    let mut s = AddCardState::new(vec!["Rust".into(), "Go".into(), "Rust::Traits".into()]);
    s.deck = "rust".into();
    assert!(s.click_suggestion(1));
    assert_eq!((s.focused, s.deck_list_idx), (0, Some(1)));
    assert!(!s.click_suggestion(2), "only two decks match");
    s.click_field(0);
    assert_eq!(s.deck_list_idx, Some(1), "the deck field keeps its suggestion");
    s.click_field(2);
    assert_eq!((s.focused, s.deck_list_idx), (2, None));

    s.kind = AddKind::Multi;
    s.steps = chain(&["a", "b"]);
    assert!(s.click_step_row(1));
    assert_eq!((s.focused, s.step_selected), (5, Some(1)));
    assert!(!s.click_step_row(2));
    assert_eq!(s.step_selected, Some(1));
}

#[test]
fn an_outside_edit_replaces_the_focused_multiline_field() {
    let mut s = AddCardState::new(vec![]);
    assert_eq!(s.multiline_text(), None, "the deck field is a single line");
    s.simple_question = "old".into();
    s.focused = 1;
    assert_eq!(s.multiline_text().as_deref(), Some("old"));
    s.take_external_edit("new text\n\n");
    assert_eq!(s.simple_question, "new text");
    s.take_external_edit("\n");
    assert_eq!(s.simple_question, "new text", "an empty result changes nothing");
    s.kind = AddKind::Multi;
    s.focused = 3;
    s.take_external_edit("step\nanswer\n");
    assert_eq!(s.step_buf, "step\nanswer");
    assert_eq!(s.simple_question, "new text");
}

#[test]
fn the_step_of_a_stored_item_is_found_and_split() {
    let mut s = AddCardState::new(vec![]);
    s.kind = AddKind::Multi;
    s.steps = chain(&["s1", "s2", "s3"]);
    for (k, d) in s.steps.iter_mut().enumerate() {
        d.db_id = Some(format!("item{k}"));
    }
    assert!(!s.select_stored_step("nope"));
    assert!(s.select_stored_step("item1"));
    assert_eq!(s.step_selected, Some(1));
    s.insert_step_after_selected();
    let answers: Vec<&str> = s.steps.iter().map(|d| d.answer.as_str()).collect();
    assert_eq!(answers, ["s1", "s2", "", "s3"]);
    assert_eq!(s.editing_step_idx, Some(2));
}

#[test]
fn typing_clears_the_error_and_the_deck_suggestion() {
    let mut s = AddCardState::new(vec!["Rust".into()]);
    s.error = Some("x".into());
    s.deck_list_idx = Some(0);
    s.type_char('R');
    assert_eq!((s.error.clone(), s.deck_list_idx, s.deck.as_str()), (None, None, "R"));
    s.backspace();
    assert_eq!(s.deck, "");
    s.pick_kind(AddKind::Multi);
    assert_eq!(s.kind, AddKind::Multi);
    s.click_control(4);
    assert_eq!(s.focused, 4);
}
