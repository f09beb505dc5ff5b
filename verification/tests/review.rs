use myoso::models::{
    Card, CardKind, Item, ItemKind, LeechStatus, ReviewCard, ReviewMode, ScaffoldState, SessionLimits, WeakSpan,
};
use myoso::review::{
    daily_paths, day_of, due_paths_for_card, is_new_card, leech_status, mark_weak_span, rate_outcome, relock_ids,
    session_order, to_fsrs_rating, RatingFacts, Schedule,
};
use myoso::tree::StepTree;

const DAY: i64 = 86_400_000;
const NOW: i64 = 19_000 * DAY + 3_600_000;

fn facts(confidence: u8) -> RatingFacts {
    RatingFacts {
        confidence,
        chain_reexposure: false,
        due_at: NOW - 1,
        now: NOW,
        today: day_of(NOW),
        is_daily: false,
        kind: ItemKind::Step,
        consecutive_fails: 0,
        consecutive_hards: 0,
        scaffold_state: ScaffoldState::Normal,
        scaffold_passes: 0,
        scaffold_pass_date: None,
    }
}

fn item(id: &str, kind: ItemKind, parent: Option<&str>, due_at: i64) -> Item {
    Item {
        id: id.into(),
        card_id: "c".into(),
        position: 1,
        parent_id: parent.map(str::to_string),
        kind,
        prompt: "p".into(),
        answer: id.into(),
        due_at,
        last_reviewed_at: None,
        lapses: 0,
        review_count: 0,
        image_path: None,
        consecutive_fails: 0,
        consecutive_hards: 0,
        scaffold_state: ScaffoldState::Normal,
        scaffold_passes: 0,
        scaffold_pass_date: None,
        weak_spans: Vec::new(),
    }
}

fn card(kind: CardKind) -> Card {
    Card {
        id: "c".into(),
        deck: "D".into(),
        kind,
        question: "Q".into(),
        reversible: false,
        show_chain: false,
        review_mode: ReviewMode::SpacedRepetition,
        tags: Vec::new(),
        is_tree: true,
    }
}

#[test]
fn confidences_map_onto_the_four_ratings() {
    assert_eq!(to_fsrs_rating(0), 1);
    assert_eq!(to_fsrs_rating(1), 1);
    assert_eq!(to_fsrs_rating(3), 3);
    assert_eq!(to_fsrs_rating(9), 4);
}

#[test]
fn a_due_failure_counts_and_relocks_the_steps_below() {
    let mut f = facts(1);
    f.consecutive_fails = 2;
    f.consecutive_hards = 3;
    let o = rate_outcome(&f);
    assert!(!o.reexposure);
    assert_eq!(o.schedule, Schedule::Full);
    assert_eq!((o.consecutive_fails, o.consecutive_hards), (3, 0));
    assert!(o.relock_below);
    assert!(o.check_leech);
}

#[test]
fn a_hard_rating_extends_the_hard_streak_and_a_good_one_clears_both() {
    let mut f = facts(2);
    f.consecutive_fails = 1;
    f.consecutive_hards = 1;
    let o = rate_outcome(&f);
    assert_eq!((o.consecutive_fails, o.consecutive_hards), (1, 2));
    f.confidence = 3;
    let o = rate_outcome(&f);
    assert_eq!((o.consecutive_fails, o.consecutive_hards), (0, 0));
    assert!(!o.relock_below);
}

#[test]
fn a_reexposure_of_a_step_not_yet_due_leaves_its_schedule() {
    let mut f = facts(1);
    f.chain_reexposure = true;
    f.due_at = NOW + DAY;
    f.consecutive_fails = 1;
    let o = rate_outcome(&f);
    assert!(o.reexposure);
    assert_eq!(o.schedule, Schedule::AnalyticsOnly);
    assert_eq!(o.consecutive_fails, 1);
    // a re-shown step that is due again is rated for real
    f.due_at = NOW - 1;
    assert!(!rate_outcome(&f).reexposure);
}

#[test]
fn daily_cards_never_reschedule_or_relock() {
    let mut f = facts(1);
    f.is_daily = true;
    let o = rate_outcome(&f);
    assert_eq!(o.schedule, Schedule::AnalyticsOnly);
    assert!(!o.relock_below);
}

#[test]
fn scaffolded_passes_count_once_a_day_and_graduate() {
    let mut f = facts(3);
    f.scaffold_state = ScaffoldState::Scaffolded;
    f.scaffold_passes = 3;
    f.scaffold_pass_date = Some(day_of(NOW) - 1);
    let o = rate_outcome(&f);
    assert_eq!(o.scaffold_passes, 4);
    assert_eq!(o.scaffold_state, ScaffoldState::Normal);
    assert_eq!(o.scaffold_pass_date, Some(day_of(NOW)));
    assert!(!o.check_leech);
    // a second pass on the same day does not count
    f.scaffold_passes = 2;
    f.scaffold_pass_date = Some(day_of(NOW));
    let o = rate_outcome(&f);
    assert_eq!(o.scaffold_passes, 2);
    assert_eq!(o.scaffold_state, ScaffoldState::Scaffolded);
    // a failure starts the count over
    f.confidence = 1;
    let o = rate_outcome(&f);
    assert_eq!((o.scaffold_passes, o.scaffold_pass_date), (0, None));
}

#[test]
fn leeches_come_from_streaks_or_a_bad_window() {
    assert_eq!(leech_status(false, 4, &[]), LeechStatus::Leech);
    assert_eq!(leech_status(false, 1, &[1, 2, 2, 1, 3, 3]), LeechStatus::Leech);
    assert_eq!(leech_status(false, 1, &[1, 2, 2, 2, 3, 3]), LeechStatus::Clear, "only one Again");
    assert_eq!(leech_status(false, 0, &[3, 3, 3, 3, 3, 3, 1, 1, 1, 1]), LeechStatus::Clear, "outside the window");
    assert_eq!(leech_status(true, 9, &[1, 1, 1, 1]), LeechStatus::Clear, "never while scaffolded");
}

#[test]
fn marking_a_phrase_adds_it_or_raises_its_weight() {
    let pool = vec![WeakSpan { phrase: "borrow".into(), weight: 2 }];
    assert!(mark_weak_span(&pool, "   ").is_none());
    let p = mark_weak_span(&pool, " borrow ").unwrap();
    assert_eq!(p, vec![WeakSpan { phrase: "borrow".into(), weight: 3 }]);
    let p = mark_weak_span(&pool, "lifetime").unwrap();
    assert_eq!(p[1], WeakSpan { phrase: "lifetime".into(), weight: 1 });
}

#[test]
fn days_are_counted_from_the_epoch_in_utc() {
    assert_eq!(day_of(0), 0);
    assert_eq!(day_of(DAY - 1), 0);
    assert_eq!(day_of(DAY), 1);
    assert_eq!(day_of(-1), -1);
}

#[test]
fn a_simple_card_offers_its_due_items_as_one_path() {
    let items = vec![
        item("fwd", ItemKind::Forward, None, NOW - 1),
        item("rev", ItemKind::Reverse, None, NOW + DAY),
    ];
    let paths = due_paths_for_card(&card(CardKind::Simple), &items, NOW);
    assert_eq!(paths.len(), 1);
    assert_eq!(paths[0].iter().map(|i| i.id.as_str()).collect::<Vec<_>>(), ["fwd"]);
    assert!(due_paths_for_card(&card(CardKind::Simple), &items, NOW - 10).is_empty());
}

#[test]
fn a_step_card_offers_the_path_to_its_first_due_step() {
    let items = vec![
        item("s1", ItemKind::Step, None, NOW + DAY),
        item("s2", ItemKind::Step, Some("s1"), NOW - 1),
        item("s3", ItemKind::Step, Some("s2"), NOW - 1),
    ];
    let paths = due_paths_for_card(&card(CardKind::Multi), &items, NOW);
    assert_eq!(paths.len(), 1);
    assert_eq!(paths[0].iter().map(|i| i.id.as_str()).collect::<Vec<_>>(), ["s1", "s2"]);
}

#[test]
fn a_daily_card_skips_paths_fully_done_today() {
    let mut a = item("a", ItemKind::Step, None, NOW);
    let mut b = item("b", ItemKind::Step, Some("a"), NOW);
    let c = item("c2", ItemKind::Step, Some("a"), NOW);
    a.last_reviewed_at = Some(NOW - 1000);
    b.last_reviewed_at = Some(NOW - 1000);
    let paths = daily_paths(&card(CardKind::Multi), &[a, b, c], day_of(NOW));
    assert_eq!(paths.len(), 1);
    assert_eq!(paths[0].iter().map(|i| i.id.as_str()).collect::<Vec<_>>(), ["a", "c2"]);
}

#[test]
fn a_card_is_new_until_any_item_was_reviewed() {
    let mut items = vec![item("a", ItemKind::Step, None, NOW), item("b", ItemKind::Step, Some("a"), NOW)];
    assert!(is_new_card(&items));
    items[1].review_count = 1;
    assert!(!is_new_card(&items));
}

#[test]
fn sessions_put_dailies_first_and_cap_cards_not_paths() {
    let rc = |id: &str| ReviewCard { card: card(CardKind::Multi), items: vec![item(id, ItemKind::Step, None, NOW)] };
    let daily = vec![vec![rc("d1")]];
    let reviews = vec![vec![rc("r1a"), rc("r1b")], vec![rc("r2")]];
    let fresh = vec![vec![rc("n1")], vec![rc("n2")]];
    let limits = SessionLimits { max_reviews: 1, new_cards: 1 };
    let s = session_order(daily, reviews, fresh, &limits);
    let ids: Vec<&str> = s.iter().map(|r| r.items[0].id.as_str()).collect();
    assert_eq!(ids, ["d1", "r1a", "r1b", "n1"]);
}

#[test]
fn forgetting_a_step_relocks_the_steps_below_it() {
    let items = vec![
        item("t", ItemKind::Step, None, NOW),
        item("a", ItemKind::Step, Some("t"), NOW),
        item("b", ItemKind::Step, Some("a"), NOW),
        item("x", ItemKind::Step, Some("t"), NOW),
    ];
    let tree = StepTree::new(true, &items);
    let mut below = relock_ids(&tree, "a");
    below.sort();
    assert_eq!(below, ["b"]);
    assert_eq!(relock_ids(&tree, "t").len(), 3);
    assert!(relock_ids(&tree, "missing").is_empty());
}
