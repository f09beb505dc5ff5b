//! The rules applied when a step is rated: whether the rating moves the
//! schedule, the weak-step counters, scaffold graduation, re-locking the
//! steps below a forgotten one, and leech detection. The memory model that
//! computes the next interval lives with the program; these rules decide
//! when it is consulted.

use vstd::prelude::*;
use crate::models::{ScaffoldState, LeechStatus, ItemKind, WeakSpan, Card, CardKind, Item, ReviewCard, SessionLimits, same_item};
use crate::tree::StepTree;
use crate::text::{trim, trimmed, same_text};

verus! {

/// Shared threshold for leech detection and scaffold graduation.
pub const LEECH_STREAK_THRESHOLD: u32 = 4;

/// How many of the most recent ratings are inspected for an oscillating
/// Again/Hard pattern that never builds a clean streak of either kind.
pub const LEECH_LOOKBACK_EVENTS: usize = 6;

/// A confidence as one of the four scheduler ratings (Again, Hard, Good,
/// Easy): clamped to 1..=4.
pub fn to_fsrs_rating(confidence: u8) -> (r: u8)
    ensures
        r == if confidence < 1 {
            1
        } else if confidence > 4 {
            4
        } else {
            confidence
        },
{
    if confidence < 1 {
        1
    } else if confidence > 4 {
        4
    } else {
        confidence
    }
}

/// What a rating does to the schedule.
#[derive(Debug, Clone, Copy, PartialEq, Eq, Structural)]
pub enum Schedule {
    /// the memory state is left untouched; only the review count, the
    /// average confidence and the last-review time are updated
    AnalyticsOnly,
    /// the memory model computes the next interval
    Full,
}

/// What is known when a step is rated.
#[derive(Debug, Clone, Copy)]
pub struct RatingFacts {
    /// 1 Again, 2 Hard, 3 Good, 4 Easy
    pub confidence: u8,
    /// the step was already fully scheduled earlier in this session
    pub chain_reexposure: bool,
    /// when the step was due, and now, in milliseconds
    pub due_at: i64,
    pub now: i64,
    /// today's day number
    pub today: i64,
    pub is_daily: bool,
    pub kind: ItemKind,
    pub consecutive_fails: i32,
    pub consecutive_hards: i32,
    pub scaffold_state: ScaffoldState,
    pub scaffold_passes: i32,
    pub scaffold_pass_date: Option<i64>,
}

/// What the rating changes.
#[derive(Debug, Clone, Copy)]
pub struct RatingOutcome {
    /// the rating counts as a re-exposure (logged as such)
    pub reexposure: bool,
    pub schedule: Schedule,
    pub consecutive_fails: i32,
    pub consecutive_hards: i32,
    pub scaffold_state: ScaffoldState,
    pub scaffold_passes: i32,
    pub scaffold_pass_date: Option<i64>,
    /// every step below this one becomes due now
    pub relock_below: bool,
    /// the leech check runs (it is suppressed while scaffolded)
    pub check_leech: bool,
}

/// A re-exposure is a step re-shown as context that is already scheduled
/// ahead. A step that is due right now (re-locked by a forgotten ancestor)
/// must get a real rating even if it was rated earlier this session.
pub open spec fn is_reexposure(f: RatingFacts) -> bool {
    f.chain_reexposure && f.due_at > f.now
}

/// The rules of a rating.
pub open spec fn rated(f: RatingFacts) -> RatingOutcome {
    let re = is_reexposure(f);
    let scaffolded = f.scaffold_state == ScaffoldState::Scaffolded;
    let weak = re || scaffolded;
    let (fails, hards) = if weak {
        (f.consecutive_fails, f.consecutive_hards)
    } else if f.confidence == 1 {
        ((f.consecutive_fails + 1) as i32, 0i32)
    } else if f.confidence == 2 {
        (f.consecutive_fails, (f.consecutive_hards + 1) as i32)
    } else {
        (0i32, 0i32)
    };
    let (state, passes, pass_date) = if scaffolded {
        if f.confidence >= 3 {
            let passes = if f.scaffold_pass_date == Some(f.today) {
                f.scaffold_passes
            } else {
                (f.scaffold_passes + 1) as i32
            };
            if passes as u32 >= LEECH_STREAK_THRESHOLD {
                (ScaffoldState::Normal, passes, Some(f.today))
            } else {
                (ScaffoldState::Scaffolded, passes, Some(f.today))
            }
        } else {
            (ScaffoldState::Scaffolded, 0i32, None)
        }
    } else {
        (f.scaffold_state, f.scaffold_passes, f.scaffold_pass_date)
    };
    RatingOutcome {
        reexposure: re,
        schedule: if f.is_daily || weak {
            Schedule::AnalyticsOnly
        } else {
            Schedule::Full
        },
        consecutive_fails: fails,
        consecutive_hards: hards,
        scaffold_state: state,
        scaffold_passes: passes,
        scaffold_pass_date: pass_date,
        relock_below: !f.is_daily && f.kind == ItemKind::Step && f.confidence <= 2,
        check_leech: !scaffolded,
    }
}

/// Decides what a rating changes:
///  * a daily card, a re-exposure and a scaffolded (hint-assisted) rating
///    leave the memory state untouched; anything else is scheduled fully;
///  * Again adds to the fail streak and ends the hard streak, Hard adds to
///    the hard streak, Good or Easy ends both; a re-exposure or a scaffolded
///    rating leaves both as they were;
///  * a scaffolded pass counts at most once a day, and the step graduates
///    back to normal after `LEECH_STREAK_THRESHOLD` of them; a scaffolded
///    failure starts the count over;
///  * Again or Hard on a step (outside daily mode) makes every step below
///    it due again.
pub fn rate_outcome(f: &RatingFacts) -> (r: RatingOutcome)
    requires
        f.consecutive_fails < i32::MAX,
        f.consecutive_hards < i32::MAX,
        f.scaffold_passes < i32::MAX,
    ensures
        r == rated(*f),
{
    let re = f.chain_reexposure && f.due_at > f.now;
    let scaffolded = match f.scaffold_state {
        ScaffoldState::Scaffolded => true,
        _ => false,
    };
    let weak = re || scaffolded;
    let (fails, hards) = if weak {
        (f.consecutive_fails, f.consecutive_hards)
    } else if f.confidence == 1 {
        (f.consecutive_fails + 1, 0)
    } else if f.confidence == 2 {
        (f.consecutive_fails, f.consecutive_hards + 1)
    } else {
        (0, 0)
    };
    let (state, passes, pass_date) = if scaffolded {
        if f.confidence >= 3 {
            let already_today = match f.scaffold_pass_date {
                Some(d) => d == f.today,
                None => false,
            };
            let passes = if already_today {
                f.scaffold_passes
            } else {
                f.scaffold_passes + 1
            };
            if passes as u32 >= LEECH_STREAK_THRESHOLD {
                (ScaffoldState::Normal, passes, Some(f.today))
            } else {
                (ScaffoldState::Scaffolded, passes, Some(f.today))
            }
        } else {
            (ScaffoldState::Scaffolded, 0, None)
        }
    } else {
        (f.scaffold_state, f.scaffold_passes, f.scaffold_pass_date)
    };
    let is_step = match f.kind {
        ItemKind::Step => true,
        _ => false,
    };
    RatingOutcome {
        reexposure: re,
        schedule: if f.is_daily || weak {
            Schedule::AnalyticsOnly
        } else {
            Schedule::Full
        },
        consecutive_fails: fails,
        consecutive_hards: hards,
        scaffold_state: state,
        scaffold_passes: passes,
        scaffold_pass_date: pass_date,
        relock_below: !f.is_daily && is_step && f.confidence <= 2,
        check_leech: !scaffolded,
    }
}

/// How many of the first `k` ratings satisfy `weak` (Again or Hard) or,
/// when `only_again`, are Again.
pub open spec fn count_ratings(recent: Seq<u8>, k: int, only_again: bool) -> nat
    decreases k,
{
    if k <= 0 {
        0
    } else {
        count_ratings(recent, k - 1, only_again) + if (only_again && recent[k - 1] == 1) || (!only_again
            && recent[k - 1] <= 2) {
            1nat
        } else {
            0nat
        }
    }
}

/// The part of the most recent ratings (newest first) that the leech check
/// looks at.
pub open spec fn lookback(recent: Seq<u8>) -> int {
    if recent.len() < LEECH_LOOKBACK_EVENTS {
        recent.len() as int
    } else {
        LEECH_LOOKBACK_EVENTS as int
    }
}

/// Whether a step keeps failing: never while it is scaffolded; it is a
/// leech once the run of consecutive Again ratings reaches
/// `LEECH_STREAK_THRESHOLD`, or when the lookback window holds that many
/// Again-or-Hard ratings, at least two of them Again.
pub open spec fn leech_verdict(scaffolded: bool, fails: i32, recent: Seq<u8>) -> LeechStatus {
    if scaffolded {
        LeechStatus::Clear
    } else if fails as u32 >= LEECH_STREAK_THRESHOLD {
        LeechStatus::Leech
    } else if count_ratings(recent, lookback(recent), false) >= LEECH_STREAK_THRESHOLD && count_ratings(
        recent,
        lookback(recent),
        true,
    ) >= 2 {
        LeechStatus::Leech
    } else {
        LeechStatus::Clear
    }
}

/// Whether a step has become a leech after a rating. `recent` holds its
/// most recent ratings, newest first (the one just given among them).
pub fn leech_status(scaffolded: bool, fails: i32, recent: &[u8]) -> (r: LeechStatus)
    ensures
        r == leech_verdict(scaffolded, fails, recent@),
{
    if scaffolded {
        return LeechStatus::Clear;
    }
    if fails as u32 >= LEECH_STREAK_THRESHOLD {
        return LeechStatus::Leech;
    }
    let n = if recent.len() < LEECH_LOOKBACK_EVENTS {
        recent.len()
    } else {
        LEECH_LOOKBACK_EVENTS
    };
    let mut weak: u32 = 0;
    let mut again: u32 = 0;
    let mut k: usize = 0;
    while k < n
        invariant
            n == lookback(recent@),
            n <= recent@.len(),
            n <= LEECH_LOOKBACK_EVENTS,
            k <= n,
            weak == count_ratings(recent@, k as int, false),
            again == count_ratings(recent@, k as int, true),
            weak <= k,
            again <= k,
        decreases n - k,
    {
        if recent[k] <= 2 {
            weak += 1;
        }
        if recent[k] == 1 {
            again += 1;
        }
        k += 1;
    }
    if weak >= LEECH_STREAK_THRESHOLD && again >= 2 {
        LeechStatus::Leech
    } else {
        LeechStatus::Clear
    }
}

/// A step that is due right now (for instance re-locked because something
/// above it was forgotten) always gets a real rating: it is never a
/// re-exposure, and outside daily mode and scaffolding it is scheduled fully.
pub proof fn lemma_due_step_rating_counts(f: RatingFacts)
    requires
        f.due_at <= f.now,
    ensures
        !rated(f).reexposure,
        !f.is_daily && f.scaffold_state != ScaffoldState::Scaffolded ==> rated(f).schedule == Schedule::Full,
{
}

/// A re-exposure (a step replayed as context, already scheduled ahead)
/// cannot inflate the schedule: the memory state and the weak-step
/// counters stay as they were.
pub proof fn lemma_reexposure_leaves_schedule(f: RatingFacts)
    requires
        f.chain_reexposure,
        f.due_at > f.now,
    ensures
        rated(f).reexposure,
        rated(f).schedule == Schedule::AnalyticsOnly,
        rated(f).consecutive_fails == f.consecutive_fails,
        rated(f).consecutive_hards == f.consecutive_hards,
{
}

/// Scaffolded (cloze) reviews never touch the normal schedule: the memory
/// state and the weak-step counters stay, and no leech check runs.
pub proof fn lemma_scaffolded_leaves_schedule(f: RatingFacts)
    requires
        f.scaffold_state == ScaffoldState::Scaffolded,
    ensures
        rated(f).schedule == Schedule::AnalyticsOnly,
        rated(f).consecutive_fails == f.consecutive_fails,
        rated(f).consecutive_hards == f.consecutive_hards,
        !rated(f).check_leech,
{
}

/// Daily cards keep their schedule frozen and never re-lock the steps below.
pub proof fn lemma_daily_is_frozen(f: RatingFacts)
    requires
        f.is_daily,
    ensures
        rated(f).schedule == Schedule::AnalyticsOnly,
        !rated(f).relock_below,
{
}

/// Scaffolded passes count at most once a day.
pub proof fn lemma_one_pass_a_day(f: RatingFacts)
    requires
        f.scaffold_state == ScaffoldState::Scaffolded,
        f.confidence >= 3,
        f.scaffold_pass_date == Some(f.today),
    ensures
        rated(f).scaffold_passes == f.scaffold_passes,
{
}

/// A scaffolded step goes back to normal review exactly on the pass that
/// brings its passes (one a day) to `LEECH_STREAK_THRESHOLD`; a failure
/// keeps it scaffolded and starts the count over.
pub proof fn lemma_graduation(f: RatingFacts)
    requires
        f.scaffold_state == ScaffoldState::Scaffolded,
        f.scaffold_passes >= 0,
        f.scaffold_passes < i32::MAX,
    ensures
        f.confidence < 3 ==> rated(f).scaffold_state == ScaffoldState::Scaffolded && rated(f).scaffold_passes == 0
            && rated(f).scaffold_pass_date is None,
        f.confidence >= 3 ==> rated(f).scaffold_pass_date == Some(f.today) && rated(f).scaffold_passes == (if f.scaffold_pass_date
            == Some(f.today) {
            f.scaffold_passes as int
        } else {
            f.scaffold_passes + 1
        }),
        rated(f).scaffold_state == ScaffoldState::Normal <==> (f.confidence >= 3 && rated(f).scaffold_passes
            >= LEECH_STREAK_THRESHOLD),
{
}

/// Only Again or Hard on a step re-locks what lies below it.
pub proof fn lemma_relock_only_on_a_lapse(f: RatingFacts)
    ensures
        rated(f).relock_below ==> f.confidence <= 2 && f.kind == ItemKind::Step,
{
}

/// A rating that is not in daily mode, not scaffolded and not a replay of
/// a step already rated this session reaches the memory model, whether or
/// not the step was due yet (a step shown on the way to a due one counts).
pub proof fn lemma_plain_rating_schedules_fully(f: RatingFacts)
    requires
        !f.is_daily,
        f.scaffold_state != ScaffoldState::Scaffolded,
        !f.chain_reexposure,
    ensures
        rated(f).schedule == Schedule::Full,
        !rated(f).reexposure,
{
}

/// `count_ratings` counts the ratings of the first `k` that pass the test.
proof fn lemma_count_is_filter(recent: Seq<u8>, k: int, only_again: bool)
    requires
        0 <= k <= recent.len(),
    ensures
        count_ratings(recent, k, only_again) == (if only_again {
            recent.take(k).filter(|c: u8| c == 1).len()
        } else {
            recent.take(k).filter(|c: u8| c <= 2).len()
        }),
    decreases k,
{
    reveal_with_fuel(Seq::filter, 1);
    if k > 0 {
        lemma_count_is_filter(recent, k - 1, only_again);
        assert(recent.take(k).drop_last() =~= recent.take(k - 1));
        assert(recent.take(k).last() == recent[k - 1]);
    } else {
        assert(recent.take(k) =~= Seq::<u8>::empty());
    }
}

/// Leeches told from the ratings themselves: outside scaffolding a step is
/// a leech exactly when its run of Again ratings has reached four, or when
/// among its six most recent ratings (all of them, if fewer) at least four
/// are Again or Hard and at least two are Again. Older ratings never count.
pub proof fn lemma_leech_window(scaffolded: bool, fails: i32, recent: Seq<u8>)
    ensures
        ({
            let w = recent.take(if recent.len() < 6 {
                recent.len() as int
            } else {
                6
            });
            let weak = w.filter(|c: u8| c <= 2).len();
            let again = w.filter(|c: u8| c == 1).len();
            leech_verdict(scaffolded, fails, recent) == if !scaffolded && (fails as u32 >= 4 || (weak >= 4
                && again >= 2)) {
                LeechStatus::Leech
            } else {
                LeechStatus::Clear
            }
        }),
{
    let n = if recent.len() < 6 {
        recent.len() as int
    } else {
        6
    };
    assert(lookback(recent) == n);
    lemma_count_is_filter(recent, n, false);
    lemma_count_is_filter(recent, n, true);
}

// ~~~ the cloze pool ~~~~~~~~~~~~~~~~~~~~~~~~~~~~~~~~~~~~~~~~~~~~~~~~~~~~~~~~~~~~

/// The first span of the pool with this phrase.
pub open spec fn span_at(pool: Seq<WeakSpan>, phrase: Seq<char>, k: int) -> Option<int>
    decreases k,
{
    if k <= 0 {
        None
    } else {
        match span_at(pool, phrase, k - 1) {
            Some(i) => Some(i),
            None => if pool[k - 1].phrase@ == phrase {
                Some(k - 1)
            } else {
                None
            },
        }
    }
}

/// Marking `phrase` as a blind spot: nothing for a blank phrase; else the
/// trimmed phrase's weight goes up by one, or it joins the pool with
/// weight one.
pub open spec fn marked(pool: Seq<WeakSpan>, phrase: Seq<char>) -> Option<Seq<(Seq<char>, u32)>> {
    let p = trim(phrase);
    let v = pool.map_values(|s: WeakSpan| (s.phrase@, s.weight));
    if p.len() == 0 {
        None
    } else {
        match span_at(pool, p, pool.len() as int) {
            Some(i) => Some(v.update(i, (p, (pool[i].weight + 1) as u32))),
            None => Some(v.push((p, 1u32))),
        }
    }
}

proof fn lemma_span_at(pool: Seq<WeakSpan>, phrase: Seq<char>, k: int)
    requires
        0 <= k <= pool.len(),
    ensures
        match span_at(pool, phrase, k) {
            Some(i) => 0 <= i < k && pool[i].phrase@ == phrase,
            None => forall|j: int| 0 <= j < k ==> #[trigger] pool[j].phrase@ != phrase,
        },
    decreases k,
{
    if k > 0 {
        lemma_span_at(pool, phrase, k - 1);
    }
}

proof fn lemma_span_stays(pool: Seq<WeakSpan>, phrase: Seq<char>, k: int, to: int)
    requires
        0 <= k <= to,
        span_at(pool, phrase, k) is Some,
    ensures
        span_at(pool, phrase, to) == span_at(pool, phrase, k),
    decreases to - k,
{
    if to > k {
        lemma_span_stays(pool, phrase, k, to - 1);
    }
}

/// Marks `phrase` as a blind spot of the step: `None` for a blank phrase
/// (nothing changes), else the new pool.
pub fn mark_weak_span(pool: &Vec<WeakSpan>, phrase: &str) -> (r: Option<Vec<WeakSpan>>)
    requires
        match span_at(pool@, trim(phrase@), pool@.len() as int) {
            Some(i) => pool@[i].weight < u32::MAX,
            None => true,
        },
    ensures
        match r {
            Some(v) => marked(pool@, phrase@) == Some(v@.map_values(|s: WeakSpan| (s.phrase@, s.weight))),
            None => marked(pool@, phrase@) is None,
        },
{
    let p = trimmed(phrase);
    if p.as_str().is_empty() {
        return None;
    }
    let n = pool.len();
    let mut out: Vec<WeakSpan> = Vec::new();
    let mut i: usize = 0;
    while i < n
        invariant
            n == pool@.len(),
            i <= n,
            p@ == trim(phrase@),
            trim(phrase@).len() > 0,
            match span_at(pool@, trim(phrase@), n as int) {
                Some(q) => pool@[q].weight < u32::MAX,
                None => true,
            },
            span_at(pool@, p@, i as int) is None,
            out@.map_values(|s: WeakSpan| (s.phrase@, s.weight)) == pool@.take(i as int).map_values(
                |s: WeakSpan| (s.phrase@, s.weight),
            ),
            out@.len() == i,
        decreases n - i,
    {
        if same_text(pool[i].phrase.as_str(), p.as_str()) {
            proof {
                lemma_span_stays(pool@, p@, i + 1, n as int);
            }
            let ghost before = out@.map_values(|s: WeakSpan| (s.phrase@, s.weight));
            let ghost pv = p@;
            out.push(WeakSpan { phrase: p, weight: pool[i].weight + 1 });
            proof {
                assert(out@.map_values(|s: WeakSpan| (s.phrase@, s.weight)) =~= before.push(
                    (pv, (pool@[i as int].weight + 1) as u32),
                ));
                assert(pool@.take(i + 1).map_values(|s: WeakSpan| (s.phrase@, s.weight)).update(
                    i as int,
                    (trim(phrase@), (pool@[i as int].weight + 1) as u32),
                ) =~= before.push((trim(phrase@), (pool@[i as int].weight + 1) as u32)));
            }
            let mut j = i + 1;
            while j < n
                invariant
                    n == pool@.len(),
                    i < j <= n,
                    out@.len() == j,
                    out@.map_values(|s: WeakSpan| (s.phrase@, s.weight)) == pool@.take(j as int).map_values(
                        |s: WeakSpan| (s.phrase@, s.weight),
                    ).update(i as int, (trim(phrase@), (pool@[i as int].weight + 1) as u32)),
                decreases n - j,
            {
                let ghost b2 = out@.map_values(|s: WeakSpan| (s.phrase@, s.weight));
                out.push(pool[j].duplicate());
                proof {
                    assert(out@.map_values(|s: WeakSpan| (s.phrase@, s.weight)) =~= b2.push(
                        (pool@[j as int].phrase@, pool@[j as int].weight),
                    ));
                    assert(pool@.take(j + 1).map_values(|s: WeakSpan| (s.phrase@, s.weight)).update(
                        i as int,
                        (trim(phrase@), (pool@[i as int].weight + 1) as u32),
                    ) =~= b2.push((pool@[j as int].phrase@, pool@[j as int].weight)));
                }
                j += 1;
            }
            proof {
                lemma_span_stays(pool@, pv, i + 1, n as int);
                assert(pool@.take(n as int) =~= pool@);
                assert(span_at(pool@, trim(phrase@), pool@.len() as int) == Some(i as int));
                let v = pool@.map_values(|s: WeakSpan| (s.phrase@, s.weight));
                assert(out@.map_values(|s: WeakSpan| (s.phrase@, s.weight)) =~= v.update(
                    i as int,
                    (trim(phrase@), (pool@[i as int].weight + 1) as u32),
                ));
                assert(trim(phrase@).len() != 0);
            }
            return Some(out);
        }
        let ghost before = out@.map_values(|s: WeakSpan| (s.phrase@, s.weight));
        out.push(pool[i].duplicate());
        proof {
            assert(out@.map_values(|s: WeakSpan| (s.phrase@, s.weight)) =~= before.push(
                (pool@[i as int].phrase@, pool@[i as int].weight),
            ));
            assert(pool@.take(i + 1).map_values(|s: WeakSpan| (s.phrase@, s.weight)) =~= before.push(
                (pool@[i as int].phrase@, pool@[i as int].weight),
            ));
        }
        i += 1;
    }
    let ghost before = out@.map_values(|s: WeakSpan| (s.phrase@, s.weight));
    out.push(WeakSpan { phrase: p, weight: 1 });
    proof {
        assert(pool@.take(n as int) =~= pool@);
        assert(out@.map_values(|s: WeakSpan| (s.phrase@, s.weight)) =~= before.push((trim(phrase@), 1u32)));
    }
    Some(out)
}

// ~~~ what a session asks ~~~~~~~~~~~~~~~~~~~~~~~~~~~~~~~~~~~~~~~~~~~~~~~~~~~~~~

/// `r` holds, for each target, the items along the tree path to it.
pub open spec fn paths_to(t: StepTree, targets: Seq<usize>, r: Seq<Vec<Item>>) -> bool {
    &&& r.len() == targets.len()
    &&& forall|k: int| 0 <= k < r.len() ==> (#[trigger] r[k])@.len() == t.path(targets[k] as int).len()
    &&& forall|k: int, j: int|
        0 <= k < r.len() && 0 <= j < r[k]@.len() ==> same_item(
            #[trigger] r[k]@[j],
            t.item_seq()[t.path(targets[k] as int)[j] as int],
        )
}

/// The due items of a simple card, in order.
pub open spec fn due_items(items: Seq<Item>, now: i64) -> Seq<Item> {
    items.filter(|it: Item| it.due_at <= now)
}

/// The review paths of a card: for a multi-step card one path per frontier
/// step (root to target); for a simple card all its due items as one path,
/// or none.
pub fn due_paths_for_card(card: &Card, items: &[Item], now: i64) -> (r: Vec<Vec<Item>>)
    ensures
        card.kind == CardKind::Multi ==> exists|t: StepTree|
            #[trigger] t.made_from(card.is_tree, items@) && paths_to(t, t.frontier_seq(now), r@),
        card.kind == CardKind::Simple ==> (if due_items(items@, now).len() == 0 {
            r@.len() == 0
        } else {
            r@.len() == 1 && r@[0]@.len() == due_items(items@, now).len() && forall|j: int|
                0 <= j < r@[0]@.len() ==> same_item(#[trigger] r@[0]@[j], due_items(items@, now)[j])
        }),
{
    match card.kind {
        CardKind::Multi => {
            let tree = StepTree::new(card.is_tree, items);
            let r = tree.due_paths(now);
            assert(paths_to(tree, tree.frontier_seq(now), r@));
            r
        },
        CardKind::Simple => {
            let ghost pred = |it: Item| it.due_at <= now;
            let mut due: Vec<Item> = Vec::new();
            let mut k: usize = 0;
            while k < items.len()
                invariant
                    k <= items@.len(),
                    pred == (|it: Item| it.due_at <= now),
                    due@.len() == items@.take(k as int).filter(pred).len(),
                    forall|j: int| 0 <= j < due@.len() ==> same_item(#[trigger] due@[j], items@.take(k as int).filter(pred)[j]),
                decreases items@.len() - k,
            {
                proof {
                    assert(items@.take(k + 1) =~= items@.take(k as int).push(items@[k as int]));
                    items@.take(k as int).lemma_filter_push(items@[k as int], pred);
                }
                if items[k].due_at <= now {
                    due.push(items[k].duplicate());
                }
                k += 1;
            }
            assert(items@.take(items@.len() as int) =~= items@);
            if due.len() == 0 {
                Vec::new()
            } else {
                let mut r: Vec<Vec<Item>> = Vec::new();
                r.push(due);
                r
            }
        },
    }
}

/// The day a time falls on, counted from the epoch (UTC).
pub open spec fn day_of_spec(ms: i64) -> int {
    ms as int / 86400000
}

/// The day a time falls on, counted from the epoch (UTC).
pub fn day_of(ms: i64) -> (d: i64)
    ensures
        d == day_of_spec(ms),
{
    if ms >= 0 {
        ms / 86400000
    } else {
        let d = -((-(ms + 1)) / 86400000) - 1;
        assert(d == day_of_spec(ms)) by (nonlinear_arith)
            requires
                ms < 0,
                d == -((-(ms + 1)) / 86400000) - 1,
        {
        }
        d
    }
}

/// The item was not reviewed today.
pub open spec fn not_today(it: Item, today: i64) -> bool {
    match it.last_reviewed_at {
        Some(t) => day_of_spec(t) != today,
        None => true,
    }
}

/// Some step on the path to leaf `x` was not reviewed today.
pub open spec fn path_open_today(t: StepTree, x: usize, today: i64) -> bool {
    exists|j: int|
        0 <= j < t.path(x as int).len() && not_today(#[trigger] t.item_seq()[t.path(x as int)[j] as int], today)
}

fn reviewed_today(it: &Item, today: i64) -> (b: bool)
    ensures
        b == !not_today(*it, today),
{
    match it.last_reviewed_at {
        Some(t) => day_of(t) == today,
        None => false,
    }
}

/// The paths a daily card offers today: every root-to-leaf path (all items,
/// for a simple card) that still has something not reviewed today.
pub fn daily_paths(card: &Card, items: &[Item], today: i64) -> (r: Vec<Vec<Item>>)
    ensures
        card.kind == CardKind::Multi ==> exists|t: StepTree|
            #[trigger] t.made_from(card.is_tree, items@) && paths_to(
                t,
                t.leaves().filter(|x: usize| path_open_today(t, x, today)),
                r@,
            ),
        card.kind == CardKind::Simple ==> (if exists|j: int| 0 <= j < items@.len() && not_today(#[trigger] items@[j], today) {
            r@.len() == 1 && r@[0]@.len() == items@.len() && forall|j: int|
                0 <= j < items@.len() ==> same_item(#[trigger] r@[0]@[j], items@[j])
        } else {
            r@.len() == 0
        }),
{
    match card.kind {
        CardKind::Simple => {
            let mut any = false;
            let mut all: Vec<Item> = Vec::new();
            let mut k: usize = 0;
            while k < items.len()
                invariant
                    k <= items@.len(),
                    all@.len() == k,
                    forall|j: int| 0 <= j < k ==> same_item(#[trigger] all@[j], items@[j]),
                    any == exists|j: int| 0 <= j < k && not_today(#[trigger] items@[j], today),
                decreases items@.len() - k,
            {
                if !reviewed_today(&items[k], today) {
                    any = true;
                }
                all.push(items[k].duplicate());
                k += 1;
            }
            if any {
                let mut r: Vec<Vec<Item>> = Vec::new();
                r.push(all);
                r
            } else {
                Vec::new()
            }
        },
        CardKind::Multi => {
            let tree = StepTree::new(card.is_tree, items);
            let lp = tree.leaf_paths();
            proof {
                tree.lemma_leaves_in_range();
            }
            let ghost leaves = tree.leaves();
            let ghost pred = |x: usize| path_open_today(tree, x, today);
            let mut out: Vec<Vec<Item>> = Vec::new();
            let mut k: usize = 0;
            while k < lp.len()
                invariant
                    tree.wf(),
                    tree.made_from(card.is_tree, items@),
                    leaves == tree.leaves(),
                    lp@.len() == leaves.len(),
                    forall|q: int| 0 <= q < lp@.len() ==> (#[trigger] lp@[q])@ == tree.path(leaves[q] as int),
                    forall|q: int| 0 <= q < leaves.len() ==> #[trigger] leaves[q] < tree.n(),
                    pred == (|x: usize| path_open_today(tree, x, today)),
                    k <= lp@.len(),
                    paths_to(tree, leaves.take(k as int).filter(pred), out@),
                decreases lp@.len() - k,
            {
                proof {
                    assert(leaves.take(k + 1) =~= leaves.take(k as int).push(leaves[k as int]));
                    leaves.take(k as int).lemma_filter_push(leaves[k as int], pred);
                    tree.lemma_parent_in_range(leaves[k as int] as int);
                }
                let p = &lp[k];
                let mut open = false;
                let mut its: Vec<Item> = Vec::new();
                let mut j: usize = 0;
                while j < p.len()
                    invariant
                        tree.wf(),
                        p@ == tree.path(leaves[k as int] as int),
                        forall|q: int| 0 <= q < p@.len() ==> #[trigger] p@[q] < tree.n(),
                        j <= p@.len(),
                        its@.len() == j,
                        forall|q: int| 0 <= q < j ==> same_item(#[trigger] its@[q], tree.item_seq()[p@[q] as int]),
                        open == exists|q: int| 0 <= q < j && not_today(#[trigger] tree.item_seq()[p@[q] as int], today),
                    decreases p@.len() - j,
                {
                    let it = tree.item(p[j]);
                    if !reviewed_today(it, today) {
                        open = true;
                    }
                    its.push(it.duplicate());
                    j += 1;
                }
                assert(open == path_open_today(tree, leaves[k as int], today));
                if open {
                    let ghost before = out@;
                    out.push(its);
                    proof {
                        let tg = leaves.take(k + 1).filter(pred);
                        assert(tg =~= leaves.take(k as int).filter(pred).push(leaves[k as int]));
                        assert forall|q: int, jj: int| 0 <= q < out@.len() && 0 <= jj < out@[q]@.len() implies same_item(
                            #[trigger] out@[q]@[jj],
                            tree.item_seq()[tree.path(tg[q] as int)[jj] as int],
                        ) by {
                            if q < before.len() {
                                assert(out@[q] == before[q]);
                            }
                        }
                    }
                }
                k += 1;
            }
            assert(leaves.take(lp@.len() as int) =~= leaves);
            out
        },
    }
}

/// Every item of the card is still new: never reviewed.
pub fn is_new_card(items: &[Item]) -> (b: bool)
    ensures
        b == forall|j: int| 0 <= j < items@.len() ==> #[trigger] items@[j].review_count == 0,
{
    let mut k: usize = 0;
    while k < items.len()
        invariant
            k <= items@.len(),
            forall|j: int| 0 <= j < k ==> #[trigger] items@[j].review_count == 0,
        decreases items@.len() - k,
    {
        if items[k].review_count != 0 {
            return false;
        }
        k += 1;
    }
    true
}

/// The paths of several cards one after another.
pub open spec fn flatten(groups: Seq<Vec<ReviewCard>>) -> Seq<ReviewCard>
    decreases groups.len(),
{
    if groups.len() == 0 {
        seq![]
    } else {
        flatten(groups.drop_last()) + groups.last()@
    }
}

/// At most `cap` of the groups, from the front.
pub open spec fn capped(groups: Seq<Vec<ReviewCard>>, cap: usize) -> Seq<Vec<ReviewCard>> {
    if groups.len() <= cap {
        groups
    } else {
        groups.take(cap as int)
    }
}

fn append_groups(out: &mut Vec<ReviewCard>, groups: Vec<Vec<ReviewCard>>, cap: usize)
    ensures
        final(out)@ == old(out)@ + flatten(capped(groups@, cap)),
{
    let ghost start = out@;
    let ghost g0 = groups@;
    let ghost gs = capped(groups@, cap);
    let mut groups = groups;
    let n = if groups.len() <= cap {
        groups.len()
    } else {
        cap
    };
    assert(gs.len() == n);
    let mut k: usize = 0;
    while k < n
        invariant
            n <= g0.len(),
            gs == capped(g0, cap),
            gs.len() == n,
            groups@ == g0.skip(k as int),
            k <= n,
            out@ == start + flatten(gs.take(k as int)),
        decreases n - k,
    {
        assert(groups@[0] == g0[k as int]);
        let mut g = groups.remove(0);
        assert(g == gs[k as int]);
        out.append(&mut g);
        proof {
            assert(groups@ =~= g0.skip(k + 1));
            assert(gs.take(k + 1).drop_last() =~= gs.take(k as int));
            assert(out@ =~= start + flatten(gs.take(k + 1)));
        }
        k += 1;
    }
    assert(gs.take(n as int) =~= gs);
}

/// A review session: the daily cards' paths first, then the paths of at
/// most `max_reviews` cards seen before (most urgent first, as given), then
/// those of at most `new_cards` new cards. Caps count cards, not paths.
pub fn session_order(
    daily: Vec<Vec<ReviewCard>>,
    reviews: Vec<Vec<ReviewCard>>,
    fresh: Vec<Vec<ReviewCard>>,
    limits: &SessionLimits,
) -> (r: Vec<ReviewCard>)
    ensures
        r@ == flatten(daily@) + flatten(capped(reviews@, limits.max_reviews)) + flatten(
            capped(fresh@, limits.new_cards),
        ),
{
    let mut out: Vec<ReviewCard> = Vec::new();
    let ghost d = daily@;
    let nd = daily.len();
    append_groups(&mut out, daily, nd);
    assert(capped(d, nd) == d);
    append_groups(&mut out, reviews, limits.max_reviews);
    append_groups(&mut out, fresh, limits.new_cards);
    assert(out@ =~= flatten(d) + flatten(capped(reviews@, limits.max_reviews)) + flatten(
        capped(fresh@, limits.new_cards),
    ));
    out
}

/// The ids of the steps below `target` in the tree (what re-locks when it
/// is forgotten); none when no step has that id.
pub fn relock_ids(tree: &StepTree, target: &str) -> (r: Vec<String>)
    requires
        tree.wf(),
    ensures
        match tree.first_with_id(target@) {
            Some(i) => r@.len() == tree.below(i).len() && forall|k: int|
                0 <= k < r@.len() ==> (#[trigger] r@[k])@ == tree.item_seq()[tree.below(i)[k] as int].id@,
            None => r@.len() == 0,
        },
{
    match tree.index_of(target) {
        None => {
            assert(tree.first_with_id(target@) is None);
            Vec::new()
        },
        Some(i) => {
            assert(tree.first_with_id(target@) == Some(i as int));
            let below = tree.descendants(i);
            proof {
                tree.lemma_below_in_range(i as int);
            }
            let mut out: Vec<String> = Vec::new();
            let mut k: usize = 0;
            while k < below.len()
                invariant
                    tree.wf(),
                    below@ == tree.below(i as int),
                    forall|q: int| 0 <= q < below@.len() ==> #[trigger] below@[q] < tree.n(),
                    k <= below@.len(),
                    out@.len() == k,
                    forall|q: int| 0 <= q < k ==> (#[trigger] out@[q])@ == tree.item_seq()[below@[q] as int].id@,
                decreases below@.len() - k,
            {
                out.push(tree.item(below[k]).id.clone());
                k += 1;
            }
            out
        },
    }
}

} // verus!
