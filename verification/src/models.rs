//! The card model: card and item kinds, review modes, the item and card
//! records the review logic reads, editor drafts, and deck paths.
//!
//! Times are milliseconds since the Unix epoch (UTC) and calendar days are
//! whole days since the epoch; the program converts to and from dates at its
//! edge.

use vstd::prelude::*;
use crate::text::{chars_of, concat, occurs_at, rfind, same_text};

verus! {

// ~~~ Card kind ~~~~~~~~~~~~~~~~~~~~~~~~~~~~~~~~~~~~~~~~~~~~~~~~~~~~~~~~~~~~~~~~

#[derive(Debug, Clone, Copy, PartialEq, Eq, Structural)]
pub enum CardKind {
    Simple,
    Multi,
}

impl CardKind {
    pub open spec fn name(self) -> Seq<char> {
        match self {
            CardKind::Simple => "simple"@,
            CardKind::Multi => "multi"@,
        }
    }

    pub fn as_str(&self) -> (s: &'static str)
        ensures
            s@ == self.name(),
    {
        match self {
            CardKind::Simple => "simple",
            CardKind::Multi => "multi",
        }
    }

    /// The kind a stored name stands for.
    pub fn parse(s: &str) -> (r: Result<CardKind, String>)
        ensures
            r matches Ok(k) ==> k.name() == s@,
            r is Err <==> (s@ != CardKind::Simple.name() && s@ != CardKind::Multi.name()),
            r matches Err(e) ==> e@ == "unknown card kind: "@ + s@,
    {
        if same_text(s, "simple") {
            Ok(CardKind::Simple)
        } else if same_text(s, "multi") {
            Ok(CardKind::Multi)
        } else {
            Err(concat("unknown card kind: ", s))
        }
    }
}

impl std::str::FromStr for CardKind {
    type Err = String;

    fn from_str(s: &str) -> (r: Result<CardKind, String>)
        ensures
            r matches Ok(k) ==> k.name() == s@,
            r is Err <==> (s@ != CardKind::Simple.name() && s@ != CardKind::Multi.name()),
            r matches Err(e) ==> e@ == "unknown card kind: "@ + s@,
    {
        CardKind::parse(s)
    }
}

// ~~~ Item kind ~~~~~~~~~~~~~~~~~~~~~~~~~~~~~~~~~~~~~~~~~~~~~~~~~~~~~~~~~~~~~~~~

#[derive(Debug, Clone, Copy, PartialEq, Eq, Structural)]
pub enum ItemKind {
    Forward,
    Reverse,
    Step,
}

impl ItemKind {
    pub open spec fn name(self) -> Seq<char> {
        match self {
            ItemKind::Forward => "forward"@,
            ItemKind::Reverse => "reverse"@,
            ItemKind::Step => "step"@,
        }
    }

    pub fn as_str(&self) -> (s: &'static str)
        ensures
            s@ == self.name(),
    {
        match self {
            ItemKind::Forward => "forward",
            ItemKind::Reverse => "reverse",
            ItemKind::Step => "step",
        }
    }

    /// The kind a stored name stands for.
    pub fn parse(s: &str) -> (r: Result<ItemKind, String>)
        ensures
            r matches Ok(k) ==> k.name() == s@,
            r is Err <==> (s@ != ItemKind::Forward.name() && s@ != ItemKind::Reverse.name() && s@
                != ItemKind::Step.name()),
            r matches Err(e) ==> e@ == "unknown item kind: "@ + s@,
    {
        if same_text(s, "forward") {
            Ok(ItemKind::Forward)
        } else if same_text(s, "reverse") {
            Ok(ItemKind::Reverse)
        } else if same_text(s, "step") {
            Ok(ItemKind::Step)
        } else {
            Err(concat("unknown item kind: ", s))
        }
    }
}

impl std::str::FromStr for ItemKind {
    type Err = String;

    fn from_str(s: &str) -> (r: Result<ItemKind, String>)
        ensures
            r matches Ok(k) ==> k.name() == s@,
            r is Err <==> (s@ != ItemKind::Forward.name() && s@ != ItemKind::Reverse.name() && s@
                != ItemKind::Step.name()),
            r matches Err(e) ==> e@ == "unknown item kind: "@ + s@,
    {
        ItemKind::parse(s)
    }
}

// ~~~ weak-step handling ~~~~~~~~~~~~~~~~~~~~~~~~~~~~~~~~~~~~~~~~~~~~~~~~~~~~~~~~

/// What a rating says about a step that keeps failing.
#[derive(Debug, Clone, Copy, PartialEq, Eq, Structural)]
pub enum LeechStatus {
    /// nothing to report
    Clear,
    /// a streak of failures, or failures mixed with hard ratings
    Leech,
    /// a streak of hard ratings only: known but effortful
    HardStreak,
}

#[derive(Debug, Clone, Copy, PartialEq, Eq, Structural)]
pub enum ScaffoldState {
    Normal,
    Scaffolded,
}

impl ScaffoldState {
    pub open spec fn name(self) -> Seq<char> {
        match self {
            ScaffoldState::Normal => "normal"@,
            ScaffoldState::Scaffolded => "scaffolded"@,
        }
    }

    pub fn as_str(&self) -> (s: &'static str)
        ensures
            s@ == self.name(),
    {
        match self {
            ScaffoldState::Normal => "normal",
            ScaffoldState::Scaffolded => "scaffolded",
        }
    }

    pub fn is_scaffolded(&self) -> (b: bool)
        ensures
            b == (*self == ScaffoldState::Scaffolded),
    {
        *self == ScaffoldState::Scaffolded
    }

    /// Any name but `scaffolded` reads as `Normal`.
    pub fn parse(s: &str) -> (r: ScaffoldState)
        ensures
            (r == ScaffoldState::Scaffolded) == (s@ == ScaffoldState::Scaffolded.name()),
    {
        if same_text(s, "scaffolded") {
            ScaffoldState::Scaffolded
        } else {
            ScaffoldState::Normal
        }
    }
}

impl std::default::Default for ScaffoldState {
    fn default() -> (r: ScaffoldState)
        ensures
            r == ScaffoldState::Normal,
    {
        ScaffoldState::Normal
    }
}

impl std::str::FromStr for ScaffoldState {
    type Err = String;

    fn from_str(s: &str) -> (r: Result<ScaffoldState, String>)
        ensures
            r matches Ok(st) && (st == ScaffoldState::Scaffolded) == (s@ == ScaffoldState::Scaffolded.name()),
    {
        Ok(ScaffoldState::parse(s))
    }
}

/// One entry of an item's cloze pool: a phrase of the answer that the
/// learner marked as a blind spot, weighted by how often it was marked.
#[derive(Debug, Clone, PartialEq, Eq)]
pub struct WeakSpan {
    pub phrase: String,
    pub weight: u32,
}

impl WeakSpan {
    pub fn duplicate(&self) -> (r: WeakSpan)
        ensures
            r == *self,
    {
        WeakSpan { phrase: self.phrase.clone(), weight: self.weight }
    }
}

/// A copy of a pool of weak spans.
pub fn copy_spans(v: &Vec<WeakSpan>) -> (r: Vec<WeakSpan>)
    ensures
        r@ == v@,
{
    let mut r: Vec<WeakSpan> = Vec::new();
    let mut i: usize = 0;
    while i < v.len()
        invariant
            i <= v.len(),
            r@ == v@.take(i as int),
        decreases v.len() - i,
    {
        r.push(v[i].duplicate());
        i += 1;
        assert(r@ =~= v@.take(i as int));
    }
    assert(v@.take(v.len() as int) =~= v@);
    r
}

// ~~~ Review mode ~~~~~~~~~~~~~~~~~~~~~~~~~~~~~~~~~~~~~~~~~~~~~~~~~~~~~~~~~~~~~~

#[derive(Debug, Clone, Copy, PartialEq, Eq, Structural)]
pub enum ReviewMode {
    SpacedRepetition,
    Daily,
}

impl ReviewMode {
    pub open spec fn name(self) -> Seq<char> {
        match self {
            ReviewMode::SpacedRepetition => "spaced_repetition"@,
            ReviewMode::Daily => "daily"@,
        }
    }

    pub fn as_str(&self) -> (s: &'static str)
        ensures
            s@ == self.name(),
    {
        match self {
            ReviewMode::SpacedRepetition => "spaced_repetition",
            ReviewMode::Daily => "daily",
        }
    }

    pub fn is_daily(&self) -> (b: bool)
        ensures
            b == (*self == ReviewMode::Daily),
    {
        *self == ReviewMode::Daily
    }

    /// Any name but `daily` reads as spaced repetition.
    pub fn parse(s: &str) -> (r: ReviewMode)
        ensures
            (r == ReviewMode::Daily) == (s@ == ReviewMode::Daily.name()),
    {
        if same_text(s, "daily") {
            ReviewMode::Daily
        } else {
            ReviewMode::SpacedRepetition
        }
    }
}

impl std::default::Default for ReviewMode {
    fn default() -> (r: ReviewMode)
        ensures
            r == ReviewMode::SpacedRepetition,
    {
        ReviewMode::SpacedRepetition
    }
}

impl std::str::FromStr for ReviewMode {
    type Err = String;

    fn from_str(s: &str) -> (r: Result<ReviewMode, String>)
        ensures
            r matches Ok(m) && (m == ReviewMode::Daily) == (s@ == ReviewMode::Daily.name()),
    {
        Ok(ReviewMode::parse(s))
    }
}

// ~~~ Core records ~~~~~~~~~~~~~~~~~~~~~~~~~~~~~~~~~~~~~~~~~~~~~~~~~~~~~~~~~~~~~~

/// A card as the review logic sees it.
#[derive(Debug, Clone)]
pub struct Card {
    pub id: String,
    pub deck: String,
    pub kind: CardKind,
    pub question: String,
    pub reversible: bool,
    pub show_chain: bool,
    pub review_mode: ReviewMode,
    pub tags: Vec<String>,
    /// `false`: a legacy chain, each step's parent is the previous one by
    /// position; `true`: `Item::parent_id` is authoritative
    pub is_tree: bool,
}

/// `a` and `b` hold the same values.
pub open spec fn same_card(a: Card, b: Card) -> bool {
    &&& a.id == b.id
    &&& a.deck == b.deck
    &&& a.kind == b.kind
    &&& a.question == b.question
    &&& a.reversible == b.reversible
    &&& a.show_chain == b.show_chain
    &&& a.review_mode == b.review_mode
    &&& a.tags@ == b.tags@
    &&& a.is_tree == b.is_tree
}

fn copy_strings(v: &Vec<String>) -> (r: Vec<String>)
    ensures
        r@ == v@,
{
    let mut r: Vec<String> = Vec::new();
    let mut i: usize = 0;
    while i < v.len()
        invariant
            i <= v.len(),
            r@ == v@.take(i as int),
        decreases v.len() - i,
    {
        r.push(v[i].clone());
        i += 1;
        assert(r@ =~= v@.take(i as int));
    }
    assert(v@.take(v.len() as int) =~= v@);
    r
}

pub fn copy_opt_string(s: &Option<String>) -> (r: Option<String>)
    ensures
        r == *s,
{
    match s {
        Some(x) => Some(x.clone()),
        None => None,
    }
}

impl Card {
    pub fn duplicate(&self) -> (r: Card)
        ensures
            same_card(r, *self),
    {
        Card {
            id: self.id.clone(),
            deck: self.deck.clone(),
            kind: self.kind,
            question: self.question.clone(),
            reversible: self.reversible,
            show_chain: self.show_chain,
            review_mode: self.review_mode,
            tags: copy_strings(&self.tags),
            is_tree: self.is_tree,
        }
    }
}

/// A single reviewable unit of a card: the forward or reverse side of a
/// simple card, or one step of a multi-step card. The scheduler's
/// floating-point memory model (stability, difficulty, interval, average
/// confidence) is kept by the program, next to these fields.
#[derive(Debug, Clone)]
pub struct Item {
    pub id: String,
    pub card_id: String,
    pub position: i32,
    /// tree cards only; `None` = attached to the card's question
    pub parent_id: Option<String>,
    pub kind: ItemKind,
    pub prompt: String,
    pub answer: String,
    /// milliseconds since the epoch
    pub due_at: i64,
    pub last_reviewed_at: Option<i64>,
    pub lapses: i32,
    pub review_count: i32,
    pub image_path: Option<String>,
    /// consecutive `Again` ratings, reset by any rating of 3 or more
    pub consecutive_fails: i32,
    /// consecutive `Hard` ratings, reset by any rating of 3 or more
    pub consecutive_hards: i32,
    pub scaffold_state: ScaffoldState,
    /// scaffolded passes toward graduation, at most one per day
    pub scaffold_passes: i32,
    /// the day of the last scaffolded pass
    pub scaffold_pass_date: Option<i64>,
    pub weak_spans: Vec<WeakSpan>,
}

impl Item {
    /// The item as an export without review history carries it: due at
    /// `due_at`, never reviewed, no lapses, streaks, scaffolding or weak
    /// spans; what it asks and where it stands are kept.
    pub fn reset_progress(&mut self, due_at: i64)
        ensures
            *final(self) == (Item {
                due_at,
                last_reviewed_at: None,
                lapses: 0,
                review_count: 0,
                consecutive_fails: 0,
                consecutive_hards: 0,
                scaffold_state: ScaffoldState::Normal,
                scaffold_passes: 0,
                scaffold_pass_date: None,
                weak_spans: final(self).weak_spans,
                ..*old(self)
            }),
            final(self).weak_spans@.len() == 0,
    {
        self.due_at = due_at;
        self.last_reviewed_at = None;
        self.lapses = 0;
        self.review_count = 0;
        self.consecutive_fails = 0;
        self.consecutive_hards = 0;
        self.scaffold_state = ScaffoldState::Normal;
        self.scaffold_passes = 0;
        self.scaffold_pass_date = None;
        self.weak_spans = Vec::new();
    }
}

/// `a` and `b` hold the same values.
pub open spec fn same_item(a: Item, b: Item) -> bool {
    &&& a.id == b.id
    &&& a.card_id == b.card_id
    &&& a.position == b.position
    &&& a.parent_id == b.parent_id
    &&& a.kind == b.kind
    &&& a.prompt == b.prompt
    &&& a.answer == b.answer
    &&& a.due_at == b.due_at
    &&& a.last_reviewed_at == b.last_reviewed_at
    &&& a.lapses == b.lapses
    &&& a.review_count == b.review_count
    &&& a.image_path == b.image_path
    &&& a.consecutive_fails == b.consecutive_fails
    &&& a.consecutive_hards == b.consecutive_hards
    &&& a.scaffold_state == b.scaffold_state
    &&& a.scaffold_passes == b.scaffold_passes
    &&& a.scaffold_pass_date == b.scaffold_pass_date
    &&& a.weak_spans@ == b.weak_spans@
}

impl Item {
    pub fn duplicate(&self) -> (r: Item)
        ensures
            same_item(r, *self),
    {
        Item {
            id: self.id.clone(),
            card_id: self.card_id.clone(),
            position: self.position,
            parent_id: copy_opt_string(&self.parent_id),
            kind: self.kind,
            prompt: self.prompt.clone(),
            answer: self.answer.clone(),
            due_at: self.due_at,
            last_reviewed_at: self.last_reviewed_at,
            lapses: self.lapses,
            review_count: self.review_count,
            image_path: copy_opt_string(&self.image_path),
            consecutive_fails: self.consecutive_fails,
            consecutive_hards: self.consecutive_hards,
            scaffold_state: self.scaffold_state,
            scaffold_passes: self.scaffold_passes,
            scaffold_pass_date: self.scaffold_pass_date,
            weak_spans: copy_spans(&self.weak_spans),
        }
    }
}

/// A card together with one review path of its items: walked front to back,
/// the last item is the one being tested.
#[derive(Debug, Clone)]
pub struct ReviewCard {
    pub card: Card,
    pub items: Vec<Item>,
}

/// Lightweight row for the card list.
#[derive(Debug, Clone)]
pub struct CardSummary {
    pub card_id: String,
    pub kind: CardKind,
    pub deck: String,
    pub question: String,
    pub reversible: bool,
    pub item_count: i32,
    /// the earliest due time of the card's items
    pub due_at: i64,
    pub review_mode: ReviewMode,
    pub tags: Vec<String>,
    /// the items' answers joined with spaces, for answer searches
    pub answers_text: String,
}

/// Aggregate counts for the statistics screen.
#[derive(Debug, Default)]
pub struct Stats {
    pub cards: i64,
    pub items: i64,
    pub due_items: i64,
    pub review_logs: i64,
    pub daily_cards: i64,
    pub daily_due: i64,
}

#[derive(Debug, Default)]
pub struct ImportSummary {
    pub cards_imported: usize,
    pub items_imported: usize,
    /// cards whose id already existed
    pub cards_replaced: usize,
}

/// How many cards may enter one review session. Daily cards are never
/// capped.
#[derive(Debug, Clone, Copy)]
pub struct SessionLimits {
    /// cards seen before
    pub max_reviews: usize,
    /// cards introduced for the first time
    pub new_cards: usize,
}

impl std::default::Default for SessionLimits {
    fn default() -> (r: SessionLimits)
        ensures
            r.max_reviews == 200,
            r.new_cards == 20,
    {
        SessionLimits { max_reviews: 200, new_cards: 20 }
    }
}

/// `show_chain` of a card read from an export that predates the field.
pub fn default_show_chain() -> (b: bool)
    ensures
        b,
{
    true
}

// ~~~ Editor drafts ~~~~~~~~~~~~~~~~~~~~~~~~~~~~~~~~~~~~~~~~~~~~~~~~~~~~~~~~~~~~

/// One step while a card is being edited. Parents are draft keys, which
/// stay put while steps are inserted, moved and removed.
#[derive(Debug, Clone, PartialEq, Eq)]
pub struct StepDraft {
    pub key: u32,
    /// the stored step this draft edits, if any
    pub db_id: Option<String>,
    pub parent: Option<u32>,
    pub name: String,
    pub answer: String,
    pub image: Option<String>,
}

impl StepDraft {
    pub fn duplicate(&self) -> (r: StepDraft)
        ensures
            r == *self,
    {
        StepDraft {
            key: self.key,
            db_id: copy_opt_string(&self.db_id),
            parent: self.parent,
            name: self.name.clone(),
            answer: self.answer.clone(),
            image: copy_opt_string(&self.image),
        }
    }

    /// A straight chain: draft `i` gets key `i`, and each draft after the
    /// first hangs under the one before it.
    pub fn chain(steps: &[(String, String, Option<String>)]) -> (r: Vec<StepDraft>)
        requires
            steps@.len() <= u32::MAX,
        ensures
            r@.len() == steps@.len(),
            forall|i: int|
                0 <= i < r@.len() ==> {
                    &&& (#[trigger] r@[i]).key == i
                    &&& r@[i].parent == (if i == 0 {
                        None::<u32>
                    } else {
                        Some((i - 1) as u32)
                    })
                    &&& r@[i].db_id is None
                    &&& r@[i].name == steps@[i].0
                    &&& r@[i].answer == steps@[i].1
                    &&& r@[i].image == steps@[i].2
                },
    {
        let mut r: Vec<StepDraft> = Vec::new();
        let mut i: usize = 0;
        while i < steps.len()
            invariant
                i <= steps@.len() <= u32::MAX,
                r@.len() == i,
                forall|k: int|
                    0 <= k < i ==> {
                        &&& (#[trigger] r@[k]).key == k
                        &&& r@[k].parent == (if k == 0 {
                            None::<u32>
                        } else {
                            Some((k - 1) as u32)
                        })
                        &&& r@[k].db_id is None
                        &&& r@[k].name == steps@[k].0
                        &&& r@[k].answer == steps@[k].1
                        &&& r@[k].image == steps@[k].2
                    },
            decreases steps@.len() - i,
        {
            let parent = if i == 0 {
                None
            } else {
                Some((i - 1) as u32)
            };
            r.push(
                StepDraft {
                    key: i as u32,
                    db_id: None,
                    parent,
                    name: steps[i].0.clone(),
                    answer: steps[i].1.clone(),
                    image: copy_opt_string(&steps[i].2),
                },
            );
            i += 1;
        }
        r
    }
}

impl std::default::Default for StepDraft {
    fn default() -> (r: StepDraft)
        ensures
            r.key == 0,
            r.db_id is None,
            r.parent is None,
            r.name@.len() == 0,
            r.answer@.len() == 0,
            r.image is None,
    {
        StepDraft {
            key: 0,
            db_id: None,
            parent: None,
            name: String::new(),
            answer: String::new(),
            image: None,
        }
    }
}

// ~~~ Sub-decks ~~~~~~~~~~~~~~~~~~~~~~~~~~~~~~~~~~~~~~~~~~~~~~~~~~~~~~~~~~~~~~~~~
// deck names use '::' separators: "Math::Calculus::Integrals"

pub open spec fn sep() -> Seq<char> {
    seq![':', ':']
}

/// How many `::` separators `str::split` finds, scanning left to right.
pub open spec fn sep_count(s: Seq<char>) -> nat
    decreases s.len(),
{
    if s.len() >= 2 && s[0] == ':' && s[1] == ':' {
        1 + sep_count(s.skip(2))
    } else if s.len() == 0 {
        0
    } else {
        sep_count(s.skip(1))
    }
}

/// 0 for a top-level deck, 1 for one sub-level, ...
pub fn deck_depth(deck: &str) -> (d: usize)
    ensures
        d == sep_count(deck@),
{
    let v = chars_of(deck);
    let mut i: usize = 0;
    let mut d: usize = 0;
    proof {
        assert(v@.skip(0) =~= v@);
    }
    while i < v.len()
        invariant
            v@ == deck@,
            i <= v.len(),
            d + sep_count(v@.skip(i as int)) == sep_count(deck@),
            d <= i,
        decreases v.len() - i,
    {
        let ghost t = v@.skip(i as int);
        if i + 1 < v.len() && v[i] == ':' && v[i + 1] == ':' {
            assert(t.skip(2) =~= v@.skip(i + 2));
            d += 1;
            i += 2;
        } else {
            assert(t.skip(1) =~= v@.skip(i + 1));
            i += 1;
        }
    }
    d
}

pub fn sep_chars() -> (v: Vec<char>)
    ensures
        v@ == sep(),
{
    let mut v: Vec<char> = Vec::new();
    v.push(':');
    v.push(':');
    assert(v@ =~= sep());
    v
}

/// The last part of a deck path: "Math::Calc::Limits" -> "Limits".
pub fn deck_leaf(deck: &str) -> (r: &str)
    ensures
        match last_sep(deck@) {
            Some(at) => r@ == deck@.skip(at + 2),
            None => r@ == deck@,
        },
{
    let v = chars_of(deck);
    let s = sep_chars();
    match rfind(&v, &s) {
        Some(at) => {
            proof {
                lemma_last_sep(deck@, at as int);
            }
            assert(sep().len() == 2);
            assert(at + 2 <= v.len());
            assert(deck@.subrange(at + 2, deck@.len() as int) =~= deck@.skip(at + 2));
            deck.substring_char(at + 2, v.len())
        },
        None => deck,
    }
}

/// Where the last `::` of `s` starts.
pub open spec fn last_sep(s: Seq<char>) -> Option<int> {
    if exists|at: int| occurs_at(s, at, sep()) {
        Some(choose|at: int| occurs_at(s, at, sep()) && forall|q: int| at < q ==> !occurs_at(s, q, sep()))
    } else {
        None
    }
}

proof fn lemma_last_sep(s: Seq<char>, at: int)
    requires
        occurs_at(s, at, sep()),
        forall|q: int| at < q ==> !occurs_at(s, q, sep()),
    ensures
        last_sep(s) == Some(at),
{
    let c = choose|a: int| occurs_at(s, a, sep()) && forall|q: int| a < q ==> !occurs_at(s, q, sep());
    assert(occurs_at(s, c, sep()));
    if c < at {
    } else if at < c {
    }
}

/// The enclosing deck: "Math::Calculus::Integrals" -> Some("Math::Calculus"),
/// "Math" -> None.
pub fn deck_parent(deck: &str) -> (r: Option<&str>)
    ensures
        match last_sep(deck@) {
            Some(at) => r matches Some(p) && p@ == deck@.take(at),
            None => r is None,
        },
{
    let v = chars_of(deck);
    let s = sep_chars();
    match rfind(&v, &s) {
        Some(at) => {
            proof {
                lemma_last_sep(deck@, at as int);
            }
            assert(deck@.subrange(0, at as int) =~= deck@.take(at as int));
            Some(deck.substring_char(0, at))
        },
        None => None,
    }
}

} // verus!
