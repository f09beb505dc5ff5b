use myoso::cloze::{blank_text, cloze_choice, highlight_pieces, select_cloze_phrases, time_until};
use myoso::decks::deck_listing;
use myoso::keys::{
    click_command, ClickCommand, ClickList, deck_mode_after, exported_status, failure_status, hit_test, imported_status, menu_choice, Area, CardsAction,
    DecksAction, ExportAction, ImportAction, Key, MenuChoice,
};
use myoso::models::{CardKind, CardSummary, Item, ItemKind, ReviewMode, ScaffoldState, WeakSpan};
use myoso::screens::{
    ClickTarget, menu_down, menu_up, with_cursor, ExportFocus, ExportState, ImportFocus, ImportState, ListCardsState,
    ListDecksState, SearchScope,
};

fn summary(id: &str, deck: &str, question: &str, tags: &[&str], mode: ReviewMode) -> CardSummary {
    CardSummary {
        card_id: id.into(),
        kind: CardKind::Simple,
        deck: deck.into(),
        question: question.into(),
        reversible: false,
        item_count: 1,
        due_at: 0,
        review_mode: mode,
        tags: tags.iter().map(|t| t.to_string()).collect(),
        answers_text: format!("answer of {id}"),
    }
}

fn cards() -> Vec<CardSummary> {
    vec![
        summary("c1", "Rust", "What is a Trait?", &["lang"], ReviewMode::SpacedRepetition),
        summary("c2", "Go", "What is a goroutine?", &[], ReviewMode::Daily),
        summary("c3", "Rust::Async", "What is a Future?", &["lang", "async"], ReviewMode::SpacedRepetition),
    ]
}

fn shown_ids(s: &ListCardsState) -> Vec<String> {
    s.filtered_cards().into_iter().map(|k| s.cards[k].card_id.clone()).collect()
}

#[test]
fn the_card_search_ignores_case_and_resets_the_highlight() {
    let mut s = ListCardsState::new(cards(), None);
    s.selected = Some(2);
    assert!(matches!(s.on_key(Key::Char('/')), CardsAction::Stay));
    assert!(s.search_active);
    for c in "TRAIT".chars() {
        s.on_key(Key::Char(c));
    }
    assert_eq!(shown_ids(&s), ["c1"]);
    assert_eq!(s.selected, Some(0));
    s.on_key(Key::Tab);
    assert_eq!(s.search_scope, SearchScope::Answers);
    assert!(shown_ids(&s).is_empty());
    assert_eq!(s.selected, None);
    s.on_key(Key::Esc);
    assert!(!s.search_active);
    assert_eq!(s.search_query, "");
    assert_eq!(s.search_scope, SearchScope::Questions);
    assert_eq!(shown_ids(&s).len(), 3);
}

#[test]
fn the_tag_picker_filters_by_every_chosen_tag() {
    let mut s = ListCardsState::new(cards(), None);
    assert!(matches!(s.on_key(Key::Char('#')), CardsAction::OpenTagPicker));
    s.open_tag_picker(vec!["async".into(), "lang".into()]);
    assert!(s.tag_picker_active);
    assert_eq!(s.tag_picker_selected, Some(0));
    s.on_key(Key::Char(' '));
    assert_eq!(s.tag_filter, ["async"]);
    s.on_key(Key::Down);
    s.on_key(Key::Down);
    assert_eq!(s.tag_picker_selected, Some(1), "stops at the last tag");
    s.on_key(Key::Char(' '));
    s.on_key(Key::Enter);
    assert!(!s.tag_picker_active);
    assert_eq!(shown_ids(&s), ["c3"]);
    // toggling a chosen tag takes it out again
    s.on_key(Key::Char('#'));
    s.open_tag_picker(vec!["async".into(), "lang".into()]);
    s.on_key(Key::Up);
    s.on_key(Key::Char(' '));
    assert_eq!(s.tag_filter, ["lang"]);
}

#[test]
fn card_list_actions_name_the_highlighted_card() {
    let mut s = ListCardsState::new(cards(), None);
    s.on_key(Key::Char('j'));
    assert_eq!(s.selected, Some(1));
    match s.on_key(Key::Char('m')) {
        CardsAction::SwitchMode(id, mode) => {
            assert_eq!(id, "c2");
            assert_eq!(mode, ReviewMode::SpacedRepetition);
        },
        _ => panic!("expected a mode switch"),
    }
    match s.on_key(Key::Char('e')) {
        CardsAction::EditCard(id) => assert_eq!(id, "c2"),
        _ => panic!("expected an edit"),
    }
    s.on_key(Key::Char('d'));
    assert!(s.confirm_delete);
    match s.on_key(Key::Char('y')) {
        CardsAction::DeleteCard(id) => assert_eq!(id, "c2"),
        _ => panic!("expected a delete"),
    }
    s.on_key(Key::Char('n'));
    assert!(!s.confirm_delete);
    assert!(matches!(s.on_key(Key::Char('q')), CardsAction::GoBack));
    // the list wraps around
    s.on_key(Key::Up);
    s.on_key(Key::Up);
    assert_eq!(s.selected, Some(2));
}

#[test]
fn a_reloaded_card_list_keeps_the_filter_and_the_row() {
    let s = ListCardsState::reloaded(cards(), None, vec!["lang".into()], Some(5));
    assert_eq!(s.tag_filter, ["lang"]);
    assert_eq!(s.selected, Some(1), "the last of the two shown rows");
    let s = ListCardsState::reloaded(cards(), None, vec![], None);
    assert_eq!(s.selected, Some(0));
}

#[test]
fn deck_list_keys() {
    let mut s = ListDecksState::new(vec!["Go".into(), "Rust".into(), "Rust::Async".into()]);
    s.on_key(Key::Char('/'));
    s.on_key(Key::Char('r'));
    match s.on_key(Key::Enter) {
        DecksAction::Review(d) => assert_eq!(d, "Go"),
        _ => panic!("expected a review"),
    }
    s.on_key(Key::Esc);
    for c in "async".chars() {
        s.on_key(Key::Char(c));
    }
    // 'r' while searching reviews; the search stays
    s.on_key(Key::Char('/'));
    s.on_key(Key::Char('u'));
    assert_eq!(s.search_query, "u");
    s.on_key(Key::Esc);
    s.on_key(Key::Down);
    match s.on_key(Key::Char('l')) {
        DecksAction::ListCards(d) => assert_eq!(d, "Rust"),
        _ => panic!("expected a card list"),
    }
    match s.on_key(Key::Char('M')) {
        DecksAction::SwitchDeckMode(d) => assert_eq!(d, "Rust"),
        _ => panic!("expected a mode switch"),
    }
    s.on_key(Key::Delete);
    match s.on_key(Key::Char('Y')) {
        DecksAction::DeleteDeck(d) => assert_eq!(d, "Rust"),
        _ => panic!("expected a delete"),
    }
    s.on_key(Key::Esc);
    assert!(!s.confirm_delete);
    assert!(matches!(s.on_key(Key::Esc), DecksAction::GoBack));
}

#[test]
fn a_deck_goes_daily_unless_half_of_it_already_is() {
    let c = cards();
    assert_eq!(deck_mode_after(&c), ReviewMode::Daily);
    assert_eq!(deck_mode_after(&c[1..]), ReviewMode::SpacedRepetition);
    assert_eq!(deck_mode_after(&[]), ReviewMode::SpacedRepetition);
}

#[test]
fn export_form_keys() {
    let mut s = ExportState::new(vec!["Rust::Async".into()]);
    assert_eq!(s.path, "export.json");
    s.on_key(Key::Char('j'));
    assert_eq!(s.selected, Some(1));
    assert_eq!(s.path, "export_Rust-Async.json");
    s.on_key(Key::Tab);
    assert_eq!(s.focus, ExportFocus::ResetToggle);
    s.on_key(Key::Char(' '));
    assert!(s.reset_metadata);
    s.on_key(Key::Tab);
    s.on_key(Key::Char('x'));
    assert_eq!(s.path, "export_Rust-Async.jsonx");
    assert!(s.path_edited);
    s.on_key(Key::Backspace);
    s.on_key(Key::BackTab);
    assert_eq!(s.focus, ExportFocus::ResetToggle);
    s.on_key(Key::Tab);
    s.on_key(Key::Tab);
    match s.on_key(Key::Enter) {
        ExportAction::Export(deck, reset, path) => {
            assert_eq!(deck.as_deref(), Some("Rust::Async"));
            assert!(reset);
            assert_eq!(path, "export_Rust-Async.json");
        },
        _ => panic!("expected an export"),
    }
    assert!(matches!(s.on_key(Key::Char('b')), ExportAction::Browse));
    assert!(matches!(s.on_key(Key::Esc), ExportAction::GoBack));
}

#[test]
fn a_blank_export_path_falls_back_to_the_default() {
    let mut s = ExportState::new(vec![]);
    s.path = "   ".into();
    s.focus = ExportFocus::ConfirmBtn;
    match s.on_key(Key::Enter) {
        ExportAction::Export(None, false, path) => assert_eq!(path, "export.json"),
        _ => panic!("expected an export of every deck"),
    }
}

#[test]
fn import_form_keys() {
    let mut s = ImportState::new();
    for c in " cards.json ".chars() {
        s.on_key(Key::Char(c));
    }
    s.on_key(Key::Tab);
    assert_eq!(s.focus, ImportFocus::ConfirmBtn);
    match s.on_key(Key::Enter) {
        ImportAction::Import(p) => assert_eq!(p, "cards.json"),
        _ => panic!("expected an import"),
    }
}

#[test]
fn status_lines() {
    assert_eq!(exported_status(None, "export.json"), "\u{2713}  Exported all decks  \u{2192}  export.json");
    assert_eq!(exported_status(Some("Rust"), "r.json"), "\u{2713}  Exported Rust  \u{2192}  r.json");
    assert_eq!(failure_status("no such file"), "\u{2717}  no such file");
    assert_eq!(imported_status(2, 1, 17), "\u{2713}  2 card(s) added, 1 replaced, 17 item(s) total");
}

#[test]
fn the_menu_wraps_and_picks_screens() {
    assert_eq!(menu_down(Some(7)), 0);
    assert_eq!(menu_up(Some(0)), 7);
    assert_eq!(menu_down(None), 0);
    assert_eq!(menu_choice(Some(0)), MenuChoice::Review);
    assert_eq!(menu_choice(Some(6)), MenuChoice::Import);
    assert_eq!(menu_choice(Some(7)), MenuChoice::Quit);
}

#[test]
fn clicks_land_on_the_region_drawn_last() {
    let regions = [
        Area { x: 0, y: 0, width: 10, height: 10 },
        Area { x: 2, y: 2, width: 3, height: 3 },
    ];
    assert_eq!(hit_test(&regions, 3, 3), Some(1));
    assert_eq!(hit_test(&regions, 8, 8), Some(0));
    assert_eq!(hit_test(&regions, 10, 0), None);
}

#[test]
fn focused_fields_show_a_cursor() {
    assert_eq!(with_cursor("abc", true), "abc\u{258C}");
    assert_eq!(with_cursor("abc", false), "abc");
}

// ~~ what a scaffolded item shows ~~

fn item_with(answer: &str, spans: &[(&str, u32)]) -> Item {
    Item {
        id: "i".into(),
        card_id: "c".into(),
        position: 1,
        parent_id: None,
        kind: ItemKind::Step,
        prompt: "p".into(),
        answer: answer.into(),
        due_at: 0,
        last_reviewed_at: None,
        lapses: 0,
        review_count: 0,
        image_path: None,
        consecutive_fails: 0,
        consecutive_hards: 0,
        scaffold_state: ScaffoldState::Scaffolded,
        scaffold_passes: 0,
        scaffold_pass_date: None,
        weak_spans: spans.iter().map(|(p, w)| WeakSpan { phrase: p.to_string(), weight: *w }).collect(),
    }
}

#[test]
fn the_heaviest_three_phrases_in_the_answer_are_blanked_longest_first() {
    let it = item_with(
        "a trait object uses dynamic dispatch through a vtable",
        &[("vtable", 1), ("missing", 9), ("dynamic dispatch", 3), ("trait", 3), ("object", 5)],
    );
    assert_eq!(cloze_choice(&it.answer, &it.weak_spans), [2, 4, 3]);
    assert_eq!(select_cloze_phrases(&it), ["dynamic dispatch", "object", "trait"]);
}

#[test]
fn blanks_are_as_wide_as_the_phrase_and_at_least_three() {
    assert_eq!(blank_text("go to it", &["to".into()]), "go \u{2581}\u{2581}\u{2581} it");
    assert_eq!(blank_text("aaaa", &["aa".into(), "".into()]), "\u{2581}\u{2581}\u{2581}\u{2581}\u{2581}\u{2581}");
    assert_eq!(blank_text("keep", &[]), "keep");
}

#[test]
fn the_tested_phrases_are_marked_line_by_line() {
    let r = highlight_pieces("one two one\r\n\nthree\n", &["one".into()]);
    assert_eq!(r.len(), 3);
    assert_eq!(r[0], vec![("one".to_string(), true), (" two ".to_string(), false), ("one".to_string(), true)]);
    assert!(r[1].is_empty(), "an empty line has nothing to mark");
    assert_eq!(r[2], vec![("three".to_string(), false)]);
    let r = highlight_pieces("", &[]);
    assert!(r.is_empty());
}

#[test]
fn countdowns() {
    assert_eq!(time_until(0), "now");
    assert_eq!(time_until(-5), "now");
    assert_eq!(time_until(30), "1m");
    assert_eq!(time_until(45 * 60), "45m");
    assert_eq!(time_until(3 * 3600), "3h");
    assert_eq!(time_until(3 * 3600 + 15 * 60), "3h 15m");
    assert_eq!(time_until(4 * 86_400), "4d");
    assert_eq!(time_until(4 * 86_400 + 2 * 3600 + 59), "4d 2h");
}

#[test]
fn the_deck_list_adds_the_decks_above_and_sorts() {
    let l = deck_listing(&["Rust::Async::Tokio".into(), "Go".into(), "Rust".into()]);
    assert_eq!(l, ["Go", "Rust", "Rust::Async", "Rust::Async::Tokio"]);
    assert!(deck_listing(&[]).is_empty());
}

#[test]
fn clicks_on_list_rows_highlight_only_rows_that_are_shown() {
    let mut d = ListDecksState::new(vec!["Go".into(), "Rust".into(), "Rust::Async".into()]);
    d.click_row(2);
    assert_eq!(d.selected, Some(2));
    d.search_query = "async".into();
    d.click_row(1);
    assert_eq!(d.selected, Some(2), "only one deck is shown");
    d.click_row(0);
    assert_eq!(d.selected, Some(0));

    let mut c = ListCardsState::new(cards(), None);
    c.click_row(1);
    assert_eq!(c.selected, Some(1));
    c.click_row(99);
    assert_eq!(c.selected, Some(1));
    c.open_tag_picker(vec!["async".into(), "lang".into()]);
    assert!(c.click_tag_row(1));
    assert_eq!(c.tag_picker_selected, Some(1));
    assert!(!c.click_tag_row(2));
    assert_eq!(c.tag_picker_selected, Some(1));
}

#[test]
fn a_click_on_an_export_row_moves_the_default_path_along() {
    let mut s = ExportState::new(vec!["Rust::Async".into()]);
    s.focus = ExportFocus::PathField;
    s.click_deck_row(1);
    assert_eq!((s.focus, s.selected), (ExportFocus::DeckList, Some(1)));
    assert_eq!(s.path, "export_Rust-Async.json");
    s.click_deck_row(2);
    assert_eq!(s.selected, Some(1), "past the last row");
    s.click_deck_row(0);
    assert_eq!(s.path, "export.json");
    s.path = "mine.json".into();
    s.path_edited = true;
    s.click_deck_row(1);
    assert_eq!(s.path, "mine.json", "a typed path stays");
}

#[test]
fn each_click_target_asks_for_its_action() {
    assert_eq!(click_command(ClickTarget::MenuList), ClickCommand::Row(ClickList::Menu));
    assert_eq!(click_command(ClickTarget::AddCardToggle(4)), ClickCommand::PressControl(4, Key::Char(' ')));
    assert_eq!(click_command(ClickTarget::AddCardButton(6)), ClickCommand::PressControl(6, Key::Enter));
    assert_eq!(click_command(ClickTarget::ReviewRate(3)), ClickCommand::ReviewKey(Key::Char('3')));
    assert_eq!(click_command(ClickTarget::ReviewRate(12)), ClickCommand::Nothing);
    assert_eq!(click_command(ClickTarget::LeechSplit), ClickCommand::ReviewKey(Key::Char('2')));
    assert_eq!(
        click_command(ClickTarget::ExportToggle),
        ClickCommand::ExportControl(ExportFocus::ResetToggle, Some(Key::Char(' ')))
    );
    assert_eq!(click_command(ClickTarget::ImportPathField), ClickCommand::ImportControl(ImportFocus::PathField, None));
}
