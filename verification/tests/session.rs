use myoso::drafts::{check_branch_names, drafts_from_items, insert_after, plan_step_rows, prune_blank, remove_splice, remove_subtree};
use myoso::keys::Key;
use myoso::models::{
    Card, CardKind, Item, ItemKind, LeechStatus, ReviewCard, ReviewMode, ScaffoldState, SessionLimits, StepDraft,
};
use myoso::review::{
    daily_paths, day_of, due_paths_for_card, is_new_card, leech_status, rate_outcome, relock_ids, session_order, RatingFacts,
    Schedule, LEECH_LOOKBACK_EVENTS,
};
use myoso::tree::StepTree;
use myoso::screens::{ReviewFocus, ReviewPhase};
use myoso::session::{crumbs, step_label, Crumb, ReviewCommand, ReviewState, WeakSpanPrompt};

const NOW: i64 = 1_700_000_000_000;

fn card() -> Card {
    Card {
        id: "c".into(),
        deck: "Deck".into(),
        kind: CardKind::Multi,
        question: "Q?".into(),
        reversible: false,
        show_chain: true,
        review_mode: ReviewMode::SpacedRepetition,
        tags: Vec::new(),
        is_tree: true,
    }
}

fn step(id: &str, pos: i32, parent: Option<&str>) -> Item {
    Item {
        id: id.into(),
        card_id: "c".into(),
        position: pos,
        parent_id: parent.map(str::to_string),
        kind: ItemKind::Step,
        prompt: format!("Step {pos}"),
        answer: id.into(),
        due_at: NOW - 1000,
        last_reviewed_at: None,
        lapses: 0,
        review_count: 0,
        image_path: None,
        consecutive_fails: 0,
        consecutive_hards: 0,
        scaffold_state: ScaffoldState::Normal,
        scaffold_passes: 0,
        scaffold_pass_date: None,
        weak_spans: Vec::new(),
    }
}

fn path(items: &[&Item]) -> ReviewCard {
    ReviewCard { card: card(), items: items.iter().map(|i| (*i).clone()).collect() }
}

fn queued_paths(rs: &ReviewState) -> Vec<Vec<String>> {
    rs.session[rs.card_idx..].iter().map(|rc| rc.items.iter().map(|i| i.answer.clone()).collect()).collect()
}

/// Rates every remaining item 3 with no leech and no new paths, checking
/// that only items of `alive` are ever rated.
fn finish_with_good_ratings(rs: &mut ReviewState, alive: &[&str]) {
    for _ in 0..100 {
        if rs.is_done() {
            assert_eq!(rs.done_items, rs.total_items);
            return;
        }
        let subject = rs.rating_subject().unwrap();
        assert!(alive.contains(&subject.item_id.as_str()), "rated a deleted step {}", subject.item_id);
        rs.record_rating(subject, 3, LeechStatus::Clear);
    }
    panic!("session never finished");
}

#[test]
fn refresh_card_survives_deleted_steps_mid_review() {
    // t1 - t2 -+- a1 - a2
    //          +- b1
    let t1 = step("t1", 1, None);
    let t2 = step("t2", 2, Some("t1"));
    let a1 = step("a1", 3, Some("t2"));
    let a2 = step("a2", 4, Some("a1"));
    let b1 = step("b1", 5, Some("t2"));
    let mut rs = ReviewState::new(vec![path(&[&t1, &t2, &a1]), path(&[&t1, &t2, &b1])]);
    assert_eq!(queued_paths(&rs), vec![vec!["t1", "t2", "a1"], vec!["t1", "t2", "b1"]]);
    rs.item_idx = 1; // looking at t2

    // delete branch B: its queued path goes, the on-screen path is untouched
    let fresh = vec![t1.clone(), t2.clone(), a1.clone(), a2.clone()];
    let requeue = rs.refresh_card("c", card(), fresh);
    assert!(requeue);
    assert_eq!(queued_paths(&rs), vec![vec!["t1", "t2", "a1"]]);
    assert_eq!(rs.item_idx, 1);

    // delete the step ON SCREEN (t2), the cursor lands on the next surviving step
    let mut a1_moved = a1.clone();
    a1_moved.parent_id = Some("t1".into());
    let fresh = vec![t1.clone(), a1_moved, a2.clone()];
    rs.refresh_card("c", card(), fresh);
    assert_eq!(queued_paths(&rs), vec![vec!["t1", "a1"]]);
    assert_eq!(rs.item_idx, 1);
    assert_eq!(rs.session[0].items[rs.item_idx].answer, "a1");
    assert_eq!(rs.phase, ReviewPhase::Thinking);

    // and the session can be finished without touching a deleted id
    finish_with_good_ratings(&mut rs, &["t1", "a1", "a2"]);
}

#[test]
fn refresh_card_ends_the_session_cleanly_when_the_target_is_deleted() {
    let s1 = step("s1", 1, None);
    let s2 = step("s2", 2, Some("s1"));
    let mut rs = ReviewState::new(vec![path(&[&s1])]);
    assert_eq!(queued_paths(&rs), vec![vec!["s1"]]);

    // delete s1 (splice): s2 becomes the only step
    let mut s2_root = s2.clone();
    s2_root.parent_id = None;
    let fresh = vec![s2_root];
    let requeue = rs.refresh_card("c", card(), fresh.clone());
    assert!(requeue);
    assert!(rs.is_done());
    // the old path's target is gone, and s2 is newly due, so it is queued instead
    let due: Vec<ReviewCard> = due_paths_for_card(&card(), &fresh, NOW)
        .into_iter()
        .map(|items| ReviewCard { card: card(), items })
        .collect();
    rs.requeue("c", due);
    assert_eq!(queued_paths(&rs), vec![vec!["s2"]]);
    finish_with_good_ratings(&mut rs, &["s2"]);
}

// ~~ the session's own bookkeeping ~~

#[test]
fn a_new_session_counts_every_item_of_every_path() {
    let a = step("a", 1, None);
    let b = step("b", 2, Some("a"));
    let rs = ReviewState::new(vec![path(&[&a]), path(&[&a, &b])]);
    assert_eq!(rs.total_items, 3);
    assert_eq!(rs.done_items, 0);
    assert_eq!((rs.card_idx, rs.item_idx), (0, 0));
    assert!(!rs.is_done());
}

#[test]
fn requeue_skips_a_path_that_is_still_waiting() {
    let a = step("a", 1, None);
    let b = step("b", 2, Some("a"));
    let h = step("h", 3, None);
    let mut rs = ReviewState::new(vec![path(&[&a]), path(&[&h])]);
    // a queued path with the same target is not added again, another one is
    rs.requeue("c", vec![path(&[&h]), path(&[&a, &b])]);
    assert_eq!(queued_paths(&rs), vec![vec!["a"], vec!["h"], vec!["a", "b"]]);
    assert_eq!(rs.total_items, 4);
}

#[test]
fn a_finished_path_can_come_back_when_due_again() {
    let a = step("a", 1, None);
    let mut rs = ReviewState::new(vec![path(&[&a])]);
    let s = rs.rating_subject().unwrap();
    assert_eq!(rs.record_rating(s, 3, LeechStatus::Clear).as_deref(), Some("c"));
    assert!(rs.is_done());
    rs.requeue("c", vec![path(&[&a])]);
    assert_eq!(queued_paths(&rs), vec![vec!["a"]]);
    assert_eq!(rs.total_items, 2);
}

#[test]
fn failing_a_step_skips_the_rest_of_its_path() {
    let a = step("a", 1, None);
    let b = step("b", 2, Some("a"));
    let c = step("c3", 3, Some("b"));
    let mut rs = ReviewState::new(vec![path(&[&a, &b, &c])]);
    let s = rs.rating_subject().unwrap();
    assert_eq!(rs.record_rating(s, 1, LeechStatus::Clear).as_deref(), Some("c"));
    assert!(rs.is_done());
    assert_eq!(rs.done_items, 1);
    assert_eq!(rs.total_items, 1);
}

#[test]
fn a_passed_step_moves_on_and_only_the_last_step_asks_for_more() {
    let a = step("a", 1, None);
    let b = step("b", 2, Some("a"));
    let mut rs = ReviewState::new(vec![path(&[&a, &b])]);
    rs.show_answer();
    assert_eq!(rs.phase, ReviewPhase::Revealed);
    let s = rs.rating_subject().unwrap();
    assert!(!s.is_last_item);
    assert_eq!(rs.record_rating(s, 3, LeechStatus::Clear), None);
    assert_eq!((rs.card_idx, rs.item_idx), (0, 1));
    assert_eq!(rs.phase, ReviewPhase::Thinking);
    let s = rs.rating_subject().unwrap();
    assert!(s.is_last_item);
    assert_eq!(rs.record_rating(s, 4, LeechStatus::Clear).as_deref(), Some("c"));
    assert!(rs.is_done());
}

#[test]
fn a_second_rating_of_a_step_in_one_session_is_a_reexposure() {
    let a = step("a", 1, None);
    let mut rs = ReviewState::new(vec![path(&[&a]), path(&[&a])]);
    assert!(!rs.is_reexposure("a", true));
    let s = rs.rating_subject().unwrap();
    rs.record_rating(s, 3, LeechStatus::Clear);
    assert!(rs.is_reexposure("a", true));
    assert!(!rs.is_reexposure("a", false), "only steps are re-exposed");
    assert_eq!(rs.session_rated, vec!["a".to_string()]);
}

#[test]
fn a_leech_waits_for_its_prompt_and_blocks_ratings() {
    let a = step("a", 1, None);
    let b = step("b", 2, Some("a"));
    let mut rs = ReviewState::new(vec![path(&[&a, &b])]);
    let s = rs.rating_subject().unwrap();
    assert_eq!(rs.record_rating(s, 1, LeechStatus::Leech), None);
    assert!(rs.leech_prompt.is_some());
    assert_eq!(rs.leech_prompt.as_ref().unwrap().confidence, 1);
    assert!(rs.rating_subject().is_none(), "ratings wait for the prompt");
    assert_eq!((rs.card_idx, rs.item_idx), (0, 0));
    assert_eq!(rs.done_items, 1);
    // ignoring it finishes the failed rating: the path ends
    assert_eq!(rs.resolve_leech_prompt(false).as_deref(), Some("c"));
    assert!(rs.leech_prompt.is_none());
    assert!(rs.is_done());
    assert_eq!(rs.done_items, rs.total_items);
}

#[test]
fn marking_a_blind_spot_opens_the_word_picker_and_commits_phrases() {
    let mut a = step("a", 1, None);
    a.answer = "the borrow checker rejects aliasing".into();
    let mut rs = ReviewState::new(vec![path(&[&a])]);
    let s = rs.rating_subject().unwrap();
    rs.record_rating(s, 2, LeechStatus::Leech);
    assert_eq!(rs.resolve_leech_prompt(true), None);
    let w = rs.weak_span_prompt.as_ref().unwrap();
    assert_eq!(w.words(), &vec!["the", "borrow", "checker", "rejects", "aliasing"]);
    rs.weak_span_move_cursor(1);
    rs.weak_span_toggle_cursor();
    rs.weak_span_move_cursor(1);
    rs.weak_span_toggle_cursor();
    assert_eq!(rs.weak_span_commit(), Some(("a".to_string(), "borrow checker".to_string())));
    assert!(rs.weak_span_prompt.as_ref().unwrap().committed_any());
    assert_eq!(rs.weak_span_commit(), None, "nothing selected any more");
    // closing it finishes the rating
    assert_eq!(rs.resolve_weak_span_prompt().as_deref(), Some("c"));
    assert!(rs.is_done());
}

#[test]
fn the_word_cursor_wraps_both_ways() {
    let mut p = WeakSpanPrompt::new("i".into(), "c".into(), true, true, 1, "one two three");
    p.move_cursor(-1);
    assert_eq!(p.cursor(), 2);
    p.move_cursor(1);
    assert_eq!(p.cursor(), 0);
    p.move_cursor(7);
    assert_eq!(p.cursor(), 1);
    p.toggle_cursor();
    assert!(p.is_selected(1));
    p.toggle_cursor();
    assert!(!p.is_selected(1));
    assert_eq!(p.phrase(), None);
}

#[test]
fn the_scratchpad_takes_keys_only_while_it_has_the_focus() {
    let a = step("a", 1, None);
    let mut rs = ReviewState::new(vec![path(&[&a])]);
    rs.scratchpad_push_char('x');
    assert_eq!(rs.scratchpad, "");
    rs.toggle_scratchpad();
    assert!(rs.scratchpad_open);
    assert_eq!(rs.focus, ReviewFocus::Scratchpad);
    rs.scratchpad_push_char('h');
    rs.scratchpad_push_char('i');
    rs.scratchpad_newline();
    rs.scratchpad_backspace();
    assert_eq!(rs.scratchpad, "hi");
    rs.cycle_review_focus();
    assert_eq!(rs.focus, ReviewFocus::Card);
    rs.toggle_scratchpad();
    assert!(!rs.scratchpad_open);
    assert_eq!(rs.scratchpad, "hi", "hiding keeps what was written");
    // a new path starts with a fresh pad
    let s = rs.rating_subject().unwrap();
    rs.record_rating(s, 3, LeechStatus::Clear);
    assert_eq!(rs.scratchpad, "");
}

#[test]
fn keys_on_the_review_screen() {
    let mut a = step("a", 1, None);
    let b = step("b", 2, Some("a"));
    let mut rs = ReviewState::new(vec![path(&[&a, &b])]);
    assert_eq!(rs.review_command(Key::Char(' ')), ReviewCommand::ShowAnswer);
    assert_eq!(rs.review_command(Key::Char('3')), ReviewCommand::Nothing, "rate only a shown answer");
    rs.show_answer();
    assert_eq!(rs.review_command(Key::Char('3')), ReviewCommand::Rate(3));
    assert_eq!(rs.review_command(Key::Char('q')), ReviewCommand::GoBack);
    assert_eq!(rs.review_command(Key::Down), ReviewCommand::ScrollDown);
    assert_eq!(rs.review_command(Key::Char('f')), ReviewCommand::TogglePad);
    rs.toggle_scratchpad();
    assert_eq!(rs.review_command(Key::Char('q')), ReviewCommand::PadChar('q'));
    assert_eq!(rs.review_command(Key::Tab), ReviewCommand::PadFocus);

    // a scaffolded item only takes pass / fail once shown
    a.scaffold_state = ScaffoldState::Scaffolded;
    let mut rs = ReviewState::new(vec![path(&[&a])]);
    rs.show_answer();
    assert_eq!(rs.review_command(Key::Char('2')), ReviewCommand::Nothing);
    assert_eq!(rs.review_command(Key::Char('1')), ReviewCommand::Rate(1));
    let s = rs.rating_subject().unwrap();
    rs.record_rating(s, 1, LeechStatus::Leech);
    assert_eq!(rs.review_command(Key::Char('1')), ReviewCommand::MarkBlindSpot);
    assert_eq!(rs.review_command(Key::Char('c')), ReviewCommand::IgnoreLeech);
}

#[test]
fn scrolling_stops_at_the_top() {
    let a = step("a", 1, None);
    let mut rs = ReviewState::new(vec![path(&[&a])]);
    rs.scroll_up();
    assert_eq!(rs.answer_scroll, 0);
    rs.scroll_down();
    rs.scroll_down();
    rs.scroll_up();
    assert_eq!(rs.answer_scroll, 1);
}

// ~~ whole sessions against a store kept in memory ~~
//
// The store below keeps what the database keeps for a step and asks the
// library every question the real store asks it; the memory model is
// replaced by a plain doubling interval (a failed step comes back ten
// minutes later), and the clock stands still at NOW.

struct MemStore {
    card: Card,
    items: Vec<Item>,
    intervals: Vec<i64>,
    log: Vec<(String, u8)>,
    next_id: usize,
}

const DAY: i64 = 86_400_000;

impl MemStore {
    fn with(drafts: &[StepDraft]) -> MemStore {
        MemStore::with_mode(drafts, ReviewMode::SpacedRepetition).unwrap()
    }

    fn with_mode(drafts: &[StepDraft], mode: ReviewMode) -> Result<MemStore, String> {
        let mut store =
            MemStore { card: card(), items: Vec::new(), intervals: Vec::new(), log: Vec::new(), next_id: 0 };
        store.card.review_mode = mode;
        store.save(drafts)?;
        Ok(store)
    }

    /// What saving the editor does: the library plans the rows, a stored
    /// step keeps its id and its schedule, a new one is due at once, and a
    /// step no draft names any more is deleted.
    fn save(&mut self, drafts: &[StepDraft]) -> Result<(), String> {
        let drafts = prune_blank(drafts);
        if drafts.is_empty() {
            return Err("multi-step cards need at least one step".into());
        }
        check_branch_names(&drafts)?;
        let existing: Vec<String> = self.items.iter().map(|i| i.id.clone()).collect();
        let fresh: Vec<String> = (0..drafts.len()).map(|i| format!("id{}", self.next_id + i)).collect();
        self.next_id += drafts.len();
        let (rows, _) = plan_step_rows(&drafts, &existing, &fresh);
        let mut kept: Vec<(Item, i64)> = Vec::new();
        for r in &rows {
            let (mut it, interval) = match self.items.iter().position(|i| i.id == r.id) {
                Some(k) if r.update => (self.items[k].clone(), self.intervals[k]),
                _ => {
                    let mut it = step(&r.id, r.position, None);
                    it.due_at = NOW;
                    (it, 0)
                }
            };
            it.position = r.position;
            it.parent_id = r.parent_id.clone();
            it.prompt = r.label.clone();
            it.answer = r.answer.clone();
            it.image_path = r.image.clone();
            kept.push((it, interval));
        }
        kept.sort_by_key(|(i, _)| i.position);
        self.items = kept.iter().map(|(i, _)| i.clone()).collect();
        self.intervals = kept.iter().map(|(_, d)| *d).collect();
        self.card.is_tree = true;
        Ok(())
    }

    /// A card from before branching: a chain ordered by position alone.
    fn make_legacy(&mut self) {
        self.card.is_tree = false;
        for it in &mut self.items {
            it.parent_id = None;
        }
    }

    fn set_due(&mut self, answer: &str, due_at: i64) {
        let k = self.items.iter().position(|i| i.answer == answer).unwrap();
        self.items[k].due_at = due_at;
    }

    fn rate_answer(&mut self, answer: &str, confidence: u8) {
        let id = self.item(answer).id.clone();
        self.record_review(&id, confidence, false);
    }

    fn is_due(&self, answer: &str) -> bool {
        self.item(answer).due_at <= NOW
    }

    fn item(&self, answer: &str) -> &Item {
        self.items.iter().find(|i| i.answer == answer).unwrap()
    }

    fn interval_of(&self, answer: &str) -> i64 {
        let k = self.items.iter().position(|i| i.answer == answer).unwrap();
        self.intervals[k]
    }

    fn review_card_if_due(&self) -> Vec<ReviewCard> {
        let paths = if self.card.review_mode.is_daily() {
            daily_paths(&self.card, &self.items, day_of(NOW))
        } else {
            due_paths_for_card(&self.card, &self.items, NOW)
        };
        paths.into_iter().map(|items| ReviewCard { card: self.card.clone(), items }).collect()
    }

    fn due_session(&self) -> Vec<ReviewCard> {
        due_session_of(&[self], &SessionLimits::default())
    }

    fn record_review(&mut self, item_id: &str, confidence: u8, chain_reexposure: bool) -> LeechStatus {
        let k = self.items.iter().position(|i| i.id == item_id).unwrap();
        let item = self.items[k].clone();
        let facts = RatingFacts {
            confidence,
            chain_reexposure,
            due_at: item.due_at,
            now: NOW,
            today: day_of(NOW),
            is_daily: self.card.review_mode.is_daily(),
            kind: item.kind,
            consecutive_fails: item.consecutive_fails,
            consecutive_hards: item.consecutive_hards,
            scaffold_state: item.scaffold_state,
            scaffold_passes: item.scaffold_passes,
            scaffold_pass_date: item.scaffold_pass_date,
        };
        let out = rate_outcome(&facts);
        {
            let it = &mut self.items[k];
            it.review_count += 1;
            it.last_reviewed_at = Some(NOW);
            if out.schedule == Schedule::Full {
                if confidence <= 1 {
                    it.lapses += 1;
                    self.intervals[k] = 0;
                    it.due_at = NOW + 600_000;
                } else {
                    self.intervals[k] = if self.intervals[k] == 0 { 1 } else { self.intervals[k] * 2 };
                    it.due_at = NOW + self.intervals[k] * DAY;
                }
            }
            it.consecutive_fails = out.consecutive_fails;
            it.consecutive_hards = out.consecutive_hards;
            it.scaffold_state = out.scaffold_state;
            it.scaffold_passes = out.scaffold_passes;
            it.scaffold_pass_date = out.scaffold_pass_date;
        }
        if out.relock_below {
            let items = self.items.clone();
            let tree = StepTree::new(self.card.is_tree, &items);
            for id in relock_ids(&tree, item_id) {
                let j = self.items.iter().position(|i| i.id == id).unwrap();
                self.items[j].due_at = NOW;
            }
        }
        self.log.push((item_id.to_string(), confidence));
        let recent: Vec<u8> = self
            .log
            .iter()
            .rev()
            .filter(|(id, _)| id == item_id)
            .take(LEECH_LOOKBACK_EVENTS)
            .map(|(_, c)| *c)
            .collect();
        leech_status(!out.check_leech, out.consecutive_fails, &recent)
    }
}

/// A session over several cards: daily cards first, then cards seen
/// before, then new ones, within the limits.
fn due_session_of(stores: &[&MemStore], limits: &SessionLimits) -> Vec<ReviewCard> {
    let (mut daily, mut reviews, mut fresh) = (Vec::new(), Vec::new(), Vec::new());
    for store in stores {
        let group = store.review_card_if_due();
        if store.card.review_mode.is_daily() {
            daily.push(group);
        } else if group.is_empty() {
            continue;
        } else if is_new_card(&store.items) {
            fresh.push(group);
        } else {
            reviews.push(group);
        }
    }
    session_order(daily, reviews, fresh, limits)
}

/// One rating as the review screen makes it: the store records it, the
/// session moves on, and a finished path brings in what became due.
fn rate(rs: &mut ReviewState, store: &mut MemStore, confidence: u8) {
    let Some(subject) = rs.rating_subject() else {
        return;
    };
    let reexposure = rs.is_reexposure(&subject.item_id, subject.is_step);
    let status = store.record_review(&subject.item_id, confidence, reexposure);
    if let Some(card) = rs.record_rating(subject, confidence, status) {
        let fresh = store.review_card_if_due();
        rs.requeue(&card, fresh);
    }
}

fn run_to_end(rs: &mut ReviewState, store: &mut MemStore, confidence: u8) {
    for _ in 0..100 {
        if rs.is_done() {
            return;
        }
        rate(rs, store, confidence);
    }
    panic!("session never finished");
}

fn draft(key: u32, parent: Option<u32>, name: &str, answer: &str) -> StepDraft {
    StepDraft { key, db_id: None, parent, name: name.into(), answer: answer.into(), image: None }
}

/// t1 - t2 -+- a1 - a2   (branches "A" / "B")
///          +- b1
fn fork() -> Vec<StepDraft> {
    vec![
        draft(0, None, "", "t1"),
        draft(1, Some(0), "", "t2"),
        draft(2, Some(1), "A", "a1"),
        draft(3, Some(2), "", "a2"),
        draft(4, Some(1), "B", "b1"),
    ]
}

fn root_fork() -> Vec<StepDraft> {
    vec![
        draft(0, None, "SSD", "s1"),
        draft(1, Some(0), "", "s2"),
        draft(2, None, "HDD", "h1"),
        draft(3, Some(2), "", "h2"),
    ]
}

fn chain(answers: &[&str]) -> Vec<StepDraft> {
    answers
        .iter()
        .enumerate()
        .map(|(i, a)| draft(i as u32, if i == 0 { None } else { Some(i as u32 - 1) }, "", a))
        .collect()
}

#[test]
fn a_root_fork_session_walks_both_paths_without_inflating_the_trunk() {
    let mut store = MemStore::with(&root_fork());
    let mut rs = ReviewState::new(store.due_session());
    assert_eq!(queued_paths(&rs), vec![vec!["s1"], vec!["h1"]]);

    run_to_end(&mut rs, &mut store, 3);

    for a in ["s1", "s2", "h1", "h2"] {
        let it = store.item(a);
        assert!(it.due_at > NOW, "{a} should be scheduled ahead");
        assert!(rs.session_rated.contains(&it.id), "{a} was rated");
    }
    // s1 / h1 were shown twice (alone, then as context for step 2), but the second
    // showing is a re-exposure, still a first-Good interval, not a compounded one
    assert_eq!(store.item("s1").review_count, 2);
    assert_eq!(store.interval_of("s1"), store.interval_of("s2"));
    // progress bookkeeping ends consistent
    assert_eq!(rs.done_items, rs.total_items);
    assert!(store.due_session().is_empty());
}

#[test]
fn failing_a_trunk_step_queues_both_branches_for_rebuild() {
    let mut store = MemStore::with(&fork());
    for a in ["t1", "t2", "a1", "a2", "b1"] {
        let id = store.item(a).id.clone();
        store.record_review(&id, 3, false);
    }
    // make the trunk due again and fail it
    let t2 = store.item("t2").id.clone();
    store.record_review(&t2, 1, false);
    // t2 was rescheduled ahead but everything under it is now due
    let mut rs = ReviewState::new(store.review_card_if_due());
    assert_eq!(queued_paths(&rs), vec![vec!["t1", "t2", "a1"], vec!["t1", "t2", "b1"]]);

    // fail t1 on screen mid-path, the rest of THIS path is skipped, and the card is requeued
    rate(&mut rs, &mut store, 3); // t1 (re-exposure of a well-known step)
    rate(&mut rs, &mut store, 3); // t2 (re-exposure)
    rate(&mut rs, &mut store, 1); // a1: fail
    let queued = queued_paths(&rs);
    assert!(
        queued.contains(&vec!["t1".to_string(), "t2".to_string(), "b1".to_string()]),
        "b1 path still queued: {queued:?}"
    );
    assert!(rs.total_items >= rs.done_items);
    run_to_end(&mut rs, &mut store, 3);
    assert!(rs.is_done());
}

#[test]
fn requeue_does_not_duplicate_a_queued_path_but_keeps_sibling_paths() {
    let mut store = MemStore::with(&root_fork());
    let mut rs = ReviewState::new(store.due_session());
    rate(&mut rs, &mut store, 3); // s1
    // [h1] still queued, [s1,s2] appended
    assert_eq!(queued_paths(&rs), vec![vec!["h1"], vec!["s1", "s2"]]);
    rate(&mut rs, &mut store, 3); // h1
    assert_eq!(queued_paths(&rs), vec![vec!["s1", "s2"], vec!["h1", "h2"]]);
}

#[test]
fn linear_card_still_produces_one_growing_path() {
    let mut store = MemStore::with(&chain(&["s1", "s2", "s3"]));
    let mut rs = ReviewState::new(store.due_session());
    assert_eq!(queued_paths(&rs), vec![vec!["s1"]]);
    rate(&mut rs, &mut store, 3);
    assert_eq!(queued_paths(&rs), vec![vec!["s1", "s2"]]);
    rate(&mut rs, &mut store, 3);
    rate(&mut rs, &mut store, 3);
    assert_eq!(queued_paths(&rs), vec![vec!["s1", "s2", "s3"]]);
    run_to_end(&mut rs, &mut store, 3);
    assert!(rs.is_done());
}

// A single Hard on a step that is only being re-shown as context must not
// re-lock the steps below it: those could never become un-due again (a
// re-exposure rating doesn't reschedule), and the session would requeue
// them forever.
fn assert_finishes_after_one_hard_on_context(drafts: Vec<StepDraft>, hard_on: usize) {
    let mut store = MemStore::with(&drafts);
    let mut rs = ReviewState::new(store.due_session());
    let mut n: usize = 0;
    while !rs.is_done() {
        assert!(n < 300, "session never finishes: queued now = {:?}", queued_paths(&rs));
        // the hard_on-th rating overall is a Hard; every other one is a 3
        let c: u8 = if n == hard_on { 2 } else { 3 };
        rate(&mut rs, &mut store, c);
        n += 1;
    }
}

#[test]
fn one_hard_on_a_context_step_cannot_make_a_linear_session_endless() {
    // ratings: s1 | s1 s2 | s1(HARD, context) ...
    assert_finishes_after_one_hard_on_context(chain(&["s1", "s2", "s3"]), 3);
}

#[test]
fn one_hard_on_a_context_step_cannot_make_a_tree_session_endless() {
    assert_finishes_after_one_hard_on_context(fork(), 3);
    assert_finishes_after_one_hard_on_context(fork(), 6);
    assert_finishes_after_one_hard_on_context(root_fork(), 3);
}

// ~~ what a store asks of the library, over whole cards ~~

fn answers(path: &[Item]) -> Vec<&str> {
    path.iter().map(|i| i.answer.as_str()).collect()
}

/// The rule for a chain before branching: everything up to the first due step.
fn old_due_items_for_multi(items: &[Item], now: i64) -> Vec<Item> {
    match items.iter().position(|it| it.due_at <= now) {
        Some(idx) => items[..=idx].to_vec(),
        None => vec![],
    }
}

#[test]
fn legacy_chain_selection_matches_the_old_rule_for_every_due_pattern() {
    let mut store = MemStore::with(&chain(&["s1", "s2", "s3", "s4", "s5"]));
    store.make_legacy();
    assert!(!store.card.is_tree);
    for mask in 0u32..32 {
        for i in 0..5 {
            let due = if mask & (1 << i) != 0 { NOW - 5 * 60_000 } else { NOW + 2 * DAY };
            store.items[i].due_at = due;
        }
        let want = old_due_items_for_multi(&store.items, NOW);
        let got = due_paths_for_card(&store.card, &store.items, NOW);
        if want.is_empty() {
            assert!(got.is_empty(), "mask {mask:05b}");
        } else {
            assert_eq!(got.len(), 1, "mask {mask:05b}");
            assert_eq!(answers(&got[0]), answers(&want), "mask {mask:05b}");
        }
    }
}

#[test]
fn legacy_chain_deunlock_hits_exactly_the_later_steps() {
    let mut store = MemStore::with(&chain(&["s1", "s2", "s3", "s4"]));
    store.make_legacy();
    for a in ["s1", "s2", "s3", "s4"] {
        store.rate_answer(a, 3);
    }
    assert!(["s1", "s2", "s3", "s4"].iter().all(|a| !store.is_due(a)));

    store.rate_answer("s2", 1);
    assert!(!store.is_due("s1"));
    assert!(!store.is_due("s2"), "the failed step itself is rescheduled");
    assert!(store.is_due("s3"));
    assert!(store.is_due("s4"));
}

#[test]
fn root_fork_surfaces_both_paths_then_unlocks_each_independently() {
    let mut store = MemStore::with(&root_fork());
    assert!(store.card.is_tree);

    let session = store.due_session();
    assert_eq!(session.len(), 2, "one review path per root");
    assert!(session.iter().all(|rc| rc.card.id == "c" && rc.items.len() == 1));
    let mut targets: Vec<&str> = session.iter().map(|rc| rc.items[0].answer.as_str()).collect();
    targets.sort();
    assert_eq!(targets, ["h1", "s1"]);

    // passing SSD step 1 unlocks SSD step 2 (with step 1 as context) and leaves HDD as it was
    store.rate_answer("s1", 3);
    let next = store.review_card_if_due();
    let paths: Vec<Vec<&str>> = next.iter().map(|rc| answers(&rc.items)).collect();
    assert_eq!(paths, vec![vec!["s1", "s2"], vec!["h1"]]);
}

#[test]
fn failing_one_root_path_does_not_disturb_the_other() {
    let mut store = MemStore::with(&root_fork());
    for a in ["s1", "s2", "h1", "h2"] {
        store.rate_answer(a, 3);
    }
    store.rate_answer("s1", 1); // forget the first SSD step
    assert!(store.is_due("s2"), "below the failure");
    assert!(!store.is_due("h1") && !store.is_due("h2"), "other path untouched");
}

#[test]
fn deunlock_is_scoped_to_descendants() {
    let mut store = MemStore::with(&fork());
    for a in ["t1", "t2", "a1", "a2", "b1"] {
        store.rate_answer(a, 3);
    }
    assert!(["t1", "t2", "a1", "a2", "b1"].iter().all(|a| !store.is_due(a)));

    // forgetting a leaf-side step only re-locks what is below it
    store.rate_answer("a1", 1);
    assert!(store.is_due("a2"));
    assert!(!store.is_due("b1"), "sibling branch untouched");
    assert!(!store.is_due("t2") && !store.is_due("t1"), "ancestors untouched");

    // forgetting the trunk re-locks BOTH branches
    store.rate_answer("t2", 2);
    assert!(store.is_due("a1") && store.is_due("a2") && store.is_due("b1"));
    assert!(!store.is_due("t1"));

    // and the next session targets the two children of t2, each after its trunk
    let next = store.review_card_if_due();
    let paths: Vec<Vec<&str>> = next.iter().map(|rc| answers(&rc.items)).collect();
    assert_eq!(paths, vec![vec!["t1", "t2", "a1"], vec!["t1", "t2", "b1"]]);
}

#[test]
fn a_due_item_below_a_not_due_trunk_is_reached_through_the_trunk() {
    let mut store = MemStore::with(&fork());
    for a in ["t1", "t2", "a1", "a2", "b1"] {
        store.rate_answer(a, 3);
    }
    store.set_due("a2", NOW - 60_000);
    let next = store.review_card_if_due();
    assert_eq!(next.len(), 1);
    assert_eq!(answers(&next[0].items), ["t1", "t2", "a1", "a2"]);
}

#[test]
fn card_caps_count_cards_not_paths() {
    let stores: Vec<MemStore> = (0..3).map(|_| MemStore::with(&root_fork())).collect();
    let limits = SessionLimits { max_reviews: 200, new_cards: 2 };
    let session = due_session_of(&stores.iter().collect::<Vec<_>>(), &limits);
    assert_eq!(session.len(), 4, "2 cards x 2 paths");
}

#[test]
fn daily_tree_offers_each_path_and_skips_the_ones_done_today() {
    let mut store = MemStore::with_mode(&fork(), ReviewMode::Daily).unwrap();
    let session = store.due_session();
    let paths: Vec<Vec<&str>> = session.iter().map(|rc| answers(&rc.items)).collect();
    assert_eq!(paths, vec![vec!["t1", "t2", "a1", "a2"], vec!["t1", "t2", "b1"]]);

    // review the first path today (daily mode only stamps last_reviewed_at)
    for a in ["t1", "t2", "a1", "a2"] {
        store.rate_answer(a, 3);
    }
    let again = store.review_card_if_due();
    let paths: Vec<Vec<&str>> = again.iter().map(|rc| answers(&rc.items)).collect();
    assert_eq!(paths, vec![vec!["t1", "t2", "b1"]], "only the branch not yet reviewed today");

    store.rate_answer("b1", 3);
    assert!(store.review_card_if_due().is_empty());
}

#[test]
fn inserting_a_step_mid_chain_keeps_the_other_steps_schedules() {
    let mut store = MemStore::with(&chain(&["s1", "s2", "s3"]));
    store.make_legacy();
    for a in ["s1", "s2", "s3"] {
        store.rate_answer(a, 3);
    }
    let (s2_before, s3_before) = (store.item("s2").clone(), store.item("s3").clone());
    let (s2_interval, s3_interval) = (store.interval_of("s2"), store.interval_of("s3"));

    // what the editor does: derive drafts from the (legacy) card, splice a step in, save
    let mut drafts = drafts_from_items(store.card.is_tree, &store.items);
    insert_after(&mut drafts, 0, draft(0, None, "", "X"));
    store.save(&drafts).unwrap();

    assert_eq!(answers(&store.items), ["s1", "X", "s2", "s3"], "position follows the chain");
    let (s2, s3) = (store.item("s2"), store.item("s3"));
    assert_eq!((s2.id.as_str(), store.interval_of("s2"), s2.due_at), (s2_before.id.as_str(), s2_interval, s2_before.due_at));
    assert_eq!((s3.id.as_str(), store.interval_of("s3"), s3.due_at), (s3_before.id.as_str(), s3_interval, s3_before.due_at));
    let x = store.item("X");
    assert_eq!(x.review_count, 0);
    assert!(x.due_at <= NOW, "a new step is immediately due");

    assert_eq!(store.item("X").parent_id.as_deref(), Some(store.item("s1").id.as_str()));
    assert_eq!(store.item("s2").parent_id.as_deref(), Some(store.item("X").id.as_str()));
    assert!(store.card.is_tree, "converted on save");
    // labels are by depth: s2 is now the third step of its path
    assert_eq!(store.item("s2").prompt, "Step 3");
}

#[test]
fn removing_a_branch_deletes_only_that_subtree() {
    let mut store = MemStore::with(&fork());
    let mut drafts = drafts_from_items(store.card.is_tree, &store.items);
    let a1 = drafts.iter().position(|d| d.answer == "a1").unwrap();
    remove_subtree(&mut drafts, a1);
    store.save(&drafts).unwrap();
    assert_eq!(answers(&store.items), ["t1", "t2", "b1"]);
}

#[test]
fn splice_removing_a_step_keeps_its_children_and_their_history() {
    let mut store = MemStore::with(&chain(&["s1", "s2", "s3"]));
    for a in ["s1", "s2", "s3"] {
        store.rate_answer(a, 3);
    }
    let s3_before = store.item("s3").clone();
    let s3_interval = store.interval_of("s3");

    let mut drafts = drafts_from_items(store.card.is_tree, &store.items);
    remove_splice(&mut drafts, 1); // drop s2
    store.save(&drafts).unwrap();

    assert_eq!(answers(&store.items), ["s1", "s3"]);
    let s3 = store.item("s3");
    assert_eq!((store.interval_of("s3"), s3.review_count), (s3_interval, s3_before.review_count));
    assert_eq!(s3.parent_id.as_deref(), Some(store.item("s1").id.as_str()));
}

#[test]
fn saving_a_fork_without_branch_names_is_refused() {
    let mut d = fork();
    d[2].name.clear(); // the two children of t2 need names
    assert!(MemStore::with_mode(&d, ReviewMode::SpacedRepetition).is_err());
    let mut store = MemStore::with(&fork());
    assert!(store.save(&d).is_err());
}

#[test]
fn a_step_is_titled_by_its_place_unless_it_has_a_name() {
    assert_eq!(step_label("Step 2", 2), "Step 2");
    assert_eq!(step_label("Step 2", 3), "3. Step 2");
    assert_eq!(step_label("SSD", 1), "1. SSD");
    assert_eq!(step_label("", 12), "12. ");
    assert_eq!(crumbs(4, 1), vec![Crumb::Passed, Crumb::Current, Crumb::Ahead, Crumb::Ahead]);
    assert!(crumbs(0, 0).is_empty());
}

#[test]
fn resetting_progress_keeps_the_step_and_forgets_its_history() {
    let mut it = step("s1", 3, Some("t"));
    it.review_count = 5;
    it.lapses = 2;
    it.consecutive_fails = 1;
    it.scaffold_state = ScaffoldState::Scaffolded;
    it.scaffold_passes = 2;
    it.scaffold_pass_date = Some(19_000);
    it.last_reviewed_at = Some(NOW);
    it.reset_progress(NOW - 1000);
    assert_eq!((it.review_count, it.lapses, it.consecutive_fails, it.scaffold_passes), (0, 0, 0, 0));
    assert_eq!(it.scaffold_state, ScaffoldState::Normal);
    assert_eq!((it.scaffold_pass_date, it.last_reviewed_at, it.due_at), (None, None, NOW - 1000));
    assert_eq!((it.id.as_str(), it.position, it.parent_id.as_deref(), it.answer.as_str()), ("s1", 3, Some("t"), "s1"));
}

#[test]
fn a_leeching_step_can_be_split_from_its_prompt() {
    let a = step("a", 1, None);
    let mut rs = ReviewState::new(vec![path(&[&a])]);
    let s = rs.rating_subject().unwrap();
    rs.record_rating(s, 1, LeechStatus::Leech);
    assert_eq!(rs.review_command(Key::Char('2')), ReviewCommand::SplitStep);
    assert!(rs.leech_prompt.is_some(), "the prompt waits for its answer");
    rs.leech_prompt.as_mut().unwrap().is_step = false;
    assert_eq!(rs.review_command(Key::Char('2')), ReviewCommand::Nothing, "only a step is split");
}
