//! A running review session: the queue of review paths, the cursor in it,
//! progress counts, the leech and weak-span prompts, and the scratchpad.
//! Storing ratings and reading what is due again are done by the program;
//! these functions decide what the session does with the answers.

use vstd::prelude::*;
use crate::models::{ReviewCard, Item, LeechStatus, Card, CardKind, same_item, same_card};
use crate::screens::{ReviewPhase, ReviewFocus};
use crate::text::{chars_of, string_of, is_ws, is_whitespace, words, push_all, same_text, occurs_at, push_decimal, decimal};
use crate::drafts::auto_label;
use crate::review::flatten;
use crate::keys::Key;
use crate::models::ScaffoldState;

verus! {

/// A pending leech intervention: the rating that triggered it is finished
/// only once the prompt is answered.
pub struct LeechPrompt {
    pub item_id: String,
    pub card_id: String,
    pub prompt_text: String,
    pub answer_text: String,
    pub is_step: bool,
    pub is_last_item: bool,
    pub confidence: u8,
}

/// Marking the exact words that tripped the learner up.
pub struct WeakSpanPrompt {
    pub(crate) item_id: String,
    pub(crate) card_id: String,
    pub(crate) is_step: bool,
    pub(crate) is_last_item: bool,
    pub(crate) confidence: u8,
    /// the answer's words, in order
    pub(crate) words: Vec<String>,
    /// the words toggled on, in increasing order
    pub(crate) selected: Vec<usize>,
    pub(crate) cursor: usize,
    /// at least one phrase was marked in this prompt
    pub(crate) committed_any: bool,
}

/// Strictly increasing.
pub open spec fn increasing(s: Seq<usize>) -> bool {
    forall|a: int, b: int| 0 <= a < b < s.len() ==> #[trigger] s[a] < #[trigger] s[b]
}

/// The whitespace-separated words of `s`, one string each.
pub fn split_words(s: &str) -> (r: Vec<String>)
    ensures
        r@.map_values(|w: String| w@) == words(s@),
{
    let v = chars_of(s);
    let n = v.len();
    let mut out: Vec<String> = Vec::new();
    let mut cur: Vec<char> = Vec::new();
    let mut i: usize = 0;
    while i < n
        invariant
            n == v@.len(),
            v@ == s@,
            i <= n,
            cur@.len() > 0 ==> i > 0 && !is_ws(v@[i - 1]),
            (i > 0 && !is_ws(v@[i - 1])) ==> cur@.len() > 0,
            words(v@.take(i as int)) == if cur@.len() > 0 {
                out@.map_values(|w: String| w@).push(cur@)
            } else {
                out@.map_values(|w: String| w@)
            },
        decreases n - i,
    {
        let c = v[i];
        let ghost t1 = v@.take(i + 1);
        assert(t1.drop_last() =~= v@.take(i as int));
        assert(t1.last() == c);
        if is_whitespace(c) {
            if cur.len() > 0 {
                let ghost before = out@.map_values(|w: String| w@);
                let w = string_of(&cur);
                out.push(w);
                assert(out@.map_values(|w: String| w@) =~= before.push(cur@));
                cur = Vec::new();
            }
        } else {
            if cur.len() > 0 {
                assert(t1[t1.len() - 2] == v@[i - 1]);
                let ghost before = cur@;
                cur.push(c);
                proof {
                    let ws = out@.map_values(|w: String| w@).push(before);
                    assert(ws.update(ws.len() - 1, ws.last().push(c)) =~= out@.map_values(|w: String| w@).push(
                        cur@,
                    ));
                }
            } else {
                if i > 0 {
                    assert(t1[t1.len() - 2] == v@[i - 1]);
                }
                cur.push(c);
                assert(cur@ =~= seq![c]);
            }
        }
        i += 1;
    }
    assert(v@.take(n as int) =~= v@);
    if cur.len() > 0 {
        let ghost before = out@.map_values(|w: String| w@);
        let w = string_of(&cur);
        out.push(w);
        assert(out@.map_values(|w: String| w@) =~= before.push(cur@));
    }
    out
}

impl WeakSpanPrompt {
    /// The selection lists word positions in increasing order, and the
    /// cursor stands on a word whenever there is one.
    #[verifier::type_invariant]
    pub(crate) closed spec fn well_formed(&self) -> bool {
        &&& increasing(self.selected@)
        &&& forall|k: int| 0 <= k < self.selected@.len() ==> #[trigger] self.selected@[k] < self.words@.len()
        &&& (self.words@.len() > 0 ==> self.cursor < self.words@.len())
    }

    /// The item whose answer is being marked.
    pub closed spec fn item_key(&self) -> Seq<char> {
        self.item_id@
    }

    pub closed spec fn card_key(&self) -> Seq<char> {
        self.card_id@
    }

    /// The rating that is finished once the prompt is closed: whether the
    /// item is a step, whether it ends its path, and the confidence given.
    pub closed spec fn rating(&self) -> (bool, bool, u8) {
        (self.is_step, self.is_last_item, self.confidence)
    }

    /// The answer's words, in order.
    pub closed spec fn word_views(&self) -> Seq<Seq<char>> {
        self.words@.map_values(|w: String| w@)
    }

    /// The positions of the words toggled on, in increasing order.
    pub closed spec fn picked(&self) -> Seq<usize> {
        self.selected@
    }

    pub closed spec fn cursor_at(&self) -> usize {
        self.cursor
    }

    /// At least one phrase was marked in this prompt.
    pub closed spec fn marked_any(&self) -> bool {
        self.committed_any
    }

    pub fn item_id(&self) -> (r: &String)
        ensures
            r@ == self.item_key(),
    {
        &self.item_id
    }

    pub fn card_id(&self) -> (r: &String)
        ensures
            r@ == self.card_key(),
    {
        &self.card_id
    }

    pub fn words(&self) -> (r: &Vec<String>)
        ensures
            r@.map_values(|w: String| w@) == self.word_views(),
    {
        &self.words
    }

    pub fn cursor(&self) -> (r: usize)
        ensures
            r == self.cursor_at(),
    {
        self.cursor
    }

    /// Whether the word at position `i` is toggled on.
    pub fn is_selected(&self, i: usize) -> (b: bool)
        ensures
            b == self.picked().contains(i),
    {
        let mut k: usize = 0;
        while k < self.selected.len()
            invariant
                k <= self.selected@.len(),
                forall|q: int| 0 <= q < k ==> self.selected@[q] != i,
            decreases self.selected@.len() - k,
        {
            if self.selected[k] == i {
                return true;
            }
            k += 1;
        }
        false
    }

    /// Whether the item is a step, whether it ends its path, and the
    /// confidence it was given.
    pub fn finishing(&self) -> (r: (bool, bool, u8))
        ensures
            r == self.rating(),
    {
        (self.is_step, self.is_last_item, self.confidence)
    }

    pub fn committed_any(&self) -> (b: bool)
        ensures
            b == self.marked_any(),
    {
        self.committed_any
    }

    /// A prompt over the answer's words, nothing selected yet.
    pub fn new(item_id: String, card_id: String, is_step: bool, is_last_item: bool, confidence: u8, answer: &str) -> (p: WeakSpanPrompt)
        ensures
            p.item_key() == item_id@,
            p.card_key() == card_id@,
            p.rating() == (is_step, is_last_item, confidence),
            p.word_views() == words(answer@),
            p.picked().len() == 0,
            p.cursor_at() == 0,
            !p.marked_any(),
    {
        WeakSpanPrompt {
            item_id,
            card_id,
            is_step,
            is_last_item,
            confidence,
            words: split_words(answer),
            selected: Vec::new(),
            cursor: 0,
            committed_any: false,
        }
    }

    /// Everything but the cursor and the selection is left as it was.
    pub open spec fn same_answer(&self, other: WeakSpanPrompt) -> bool {
        &&& self.item_key() == other.item_key()
        &&& self.card_key() == other.card_key()
        &&& self.rating() == other.rating()
        &&& self.word_views() == other.word_views()
    }

    /// The cursor moved by `delta` words, wrapping around; unchanged when
    /// there are no words.
    pub fn move_cursor(&mut self, delta: i32)
        requires
            old(self).word_views().len() <= i32::MAX,
            old(self).cursor_at() + delta <= i32::MAX,
        ensures
            final(self).cursor_at() == if old(self).word_views().len() == 0 {
                old(self).cursor_at() as int
            } else {
                (old(self).cursor_at() + delta) % (old(self).word_views().len() as int)
            },
            final(self).same_answer(*old(self)),
            final(self).picked() == old(self).picked(),
            final(self).marked_any() == old(self).marked_any(),
    {
        proof {
            use_type_invariant(&*self);
        }
        let n = self.words.len();
        if n == 0 {
            return;
        }
        let c = self.cursor % n;
        let e: usize;
        if delta >= 0 {
            let d = (delta as usize) % n;
            e = (c + d) % n;
            proof {
                vstd::arithmetic::div_mod::lemma_add_mod_noop(self.cursor as int, delta as int, n as int);
            }
        } else {
            let big: i64 = delta as i64;
            let d = ((-big) as usize) % n;
            e = (c + n - d) % n;
            proof {
                let ni = n as int;
                vstd::arithmetic::div_mod::lemma_sub_mod_noop(self.cursor as int, -(delta as int), ni);
                vstd::arithmetic::div_mod::lemma_mod_add_multiples_vanish(c - d, ni);
            }
        }
        self.cursor = e as usize;
    }

    /// Toggles the word under the cursor.
    pub fn toggle_cursor(&mut self)
        ensures
            final(self).same_answer(*old(self)),
            final(self).cursor_at() == old(self).cursor_at(),
            final(self).marked_any() == old(self).marked_any(),
            old(self).word_views().len() == 0 ==> final(self).picked() == old(self).picked(),
            old(self).word_views().len() > 0 ==> forall|x: usize|
                #[trigger] final(self).picked().contains(x) <==> (if x == old(self).cursor_at() {
                    !old(self).picked().contains(x)
                } else {
                    old(self).picked().contains(x)
                }),
    {
        proof {
            use_type_invariant(&*self);
        }
        if self.words.len() == 0 {
            return;
        }
        let c = self.cursor;
        let ghost old_sel = self.selected@;
        let mut sel: Vec<usize> = Vec::new();
        std::mem::swap(&mut sel, &mut self.selected);
        let n = sel.len();
        let mut k: usize = 0;
        while k < n && sel[k] < c
            invariant
                n == sel@.len(),
                k <= n,
                sel@ == old_sel,
                forall|j: int| 0 <= j < k ==> sel@[j] < c,
            decreases n - k,
        {
            k += 1;
        }
        if k < n && sel[k] == c {
            sel.remove(k);
            proof {
                assert forall|a: int, b: int| 0 <= a < b < sel@.len() implies #[trigger] sel@[a]
                    < #[trigger] sel@[b] by {
                    let oa = if a < k { a } else { a + 1 };
                    let ob = if b < k { b } else { b + 1 };
                    assert(sel@[a] == old_sel[oa]);
                    assert(sel@[b] == old_sel[ob]);
                }
                assert forall|x: usize| #[trigger] sel@.contains(x) <==> (if x == c {
                    !old_sel.contains(x)
                } else {
                    old_sel.contains(x)
                }) by {
                    if sel@.contains(x) {
                        let j = choose|j: int| 0 <= j < sel@.len() && sel@[j] == x;
                        if j < k {
                            assert(sel@[j] == old_sel[j]);
                        } else {
                            assert(sel@[j] == old_sel[j + 1]);
                            assert(old_sel[k as int] < old_sel[j + 1]);
                        }
                    }
                    if x != c && old_sel.contains(x) {
                        let j = choose|j: int| 0 <= j < old_sel.len() && old_sel[j] == x;
                        if j < k {
                            assert(sel@[j] == x);
                        } else if j > k {
                            assert(sel@[j - 1] == x);
                        }
                    }
                    if x == c && old_sel.contains(x) {
                        let j = choose|j: int| 0 <= j < old_sel.len() && old_sel[j] == x;
                        if j != k {
                            if j < k {
                            } else {
                                assert(old_sel[k as int] < old_sel[j]);
                            }
                        }
                    }
                }
            }
        } else {
            sel.insert(k, c);
            proof {
                assert forall|x: usize| #[trigger] sel@.contains(x) <==> (if x == c {
                    !old_sel.contains(x)
                } else {
                    old_sel.contains(x)
                }) by {
                    if x == c {
                        assert(sel@[k as int] == c);
                        if old_sel.contains(x) {
                            let j = choose|j: int| 0 <= j < old_sel.len() && old_sel[j] == x;
                            if j < k {
                            } else if j >= k && k < n {
                                assert(old_sel[k as int] <= old_sel[j]);
                            }
                        }
                    } else {
                        if sel@.contains(x) {
                            let j = choose|j: int| 0 <= j < sel@.len() && sel@[j] == x;
                            if j < k {
                                assert(old_sel[j] == x);
                            } else if j > k {
                                assert(old_sel[j - 1] == x);
                            }
                        }
                        if old_sel.contains(x) {
                            let j = choose|j: int| 0 <= j < old_sel.len() && old_sel[j] == x;
                            if j < k {
                                assert(sel@[j] == x);
                            } else {
                                assert(sel@[j + 1] == x);
                            }
                        }
                    }
                }
                assert forall|a: int, b: int| 0 <= a < b < sel@.len() implies #[trigger] sel@[a]
                    < #[trigger] sel@[b] by {
                    if b < k {
                    } else if a < k && b == k {
                    } else if a < k && b > k {
                        assert(sel@[b] == old_sel[b - 1]);
                        if k < n {
                            assert(old_sel[k as int] >= c);
                            assert(old_sel[k as int] != c);
                        }
                    } else if a == k {
                        assert(sel@[b] == old_sel[b - 1]);
                        assert(old_sel[k as int] >= c);
                        assert(old_sel[k as int] != c);
                    } else {
                        assert(sel@[a] == old_sel[a - 1]);
                        assert(sel@[b] == old_sel[b - 1]);
                    }
                }
            }
        }
        proof {
            assert forall|q: int| 0 <= q < sel@.len() implies #[trigger] sel@[q] < self.words@.len() by {
                let x = sel@[q];
                assert(sel@.contains(x));
                if x != c {
                    let j = choose|j: int| 0 <= j < old_sel.len() && old_sel[j] == x;
                }
            }
        }
        self.selected = sel;
    }

    /// The phrase the selected words form (in the order they stand in the
    /// answer, joined with spaces); `None` when nothing is selected.
    pub open spec fn phrase_spec(&self) -> Option<Seq<char>> {
        if self.picked().len() == 0 {
            None
        } else {
            Some(crate::editor::joined(self.picked().map_values(|i: usize| self.word_views()[i as int])))
        }
    }

    /// The phrase to mark, if any words are selected.
    pub fn phrase(&self) -> (r: Option<String>)
        ensures
            match r {
                Some(p) => self.phrase_spec() == Some(p@),
                None => self.phrase_spec() is None,
            },
    {
        proof {
            use_type_invariant(self);
        }
        if self.selected.len() == 0 {
            return None;
        }
        let ghost ws = self.selected@.map_values(|i: usize| self.words@[i as int]@);
        let mut p = String::new();
        let mut k: usize = 0;
        while k < self.selected.len()
            invariant
                ws == self.selected@.map_values(|i: usize| self.words@[i as int]@),
                forall|q: int| 0 <= q < self.selected@.len() ==> #[trigger] self.selected@[q] < self.words@.len(),
                k <= self.selected@.len(),
                p@ == crate::editor::joined(ws.take(k as int)),
            decreases self.selected@.len() - k,
        {
            if k > 0 {
                push_all(&mut p, " ");
            }
            let w = self.selected[k];
            push_all(&mut p, self.words[w].as_str());
            proof {
                let t = ws.take(k + 1);
                assert(t.drop_last() =~= ws.take(k as int));
                assert(ws[k as int] == self.words@[w as int]@);
                assert(p@ =~= crate::editor::joined(t));
            }
            k += 1;
        }
        assert(ws.take(k as int) =~= ws);
        assert(ws =~= self.picked().map_values(|i: usize| self.word_views()[i as int]));
        Some(p)
    }

    /// After the phrase was stored: the selection is cleared.
    pub fn committed(&mut self)
        ensures
            final(self).picked().len() == 0,
            final(self).marked_any(),
            final(self).same_answer(*old(self)),
            final(self).cursor_at() == old(self).cursor_at(),
    {
        proof {
            use_type_invariant(&*self);
        }
        self.selected = Vec::new();
        self.committed_any = true;
    }
}

/// The running review session.
pub struct ReviewState {
    pub session: Vec<ReviewCard>,
    pub card_idx: usize,
    pub item_idx: usize,
    pub phase: ReviewPhase,
    pub total_items: usize,
    pub done_items: usize,
    pub answer_scroll: u16,
    /// the items fully scheduled once in this session; a later rating of
    /// one is a re-exposure
    pub session_rated: Vec<String>,
    pub leech_prompt: Option<LeechPrompt>,
    pub weak_span_prompt: Option<WeakSpanPrompt>,
    pub scratchpad: String,
    pub scratchpad_open: bool,
    pub focus: ReviewFocus,
}

/// The number of items of the paths.
pub open spec fn item_total(s: Seq<ReviewCard>) -> nat
    decreases s.len(),
{
    if s.len() == 0 {
        0
    } else {
        item_total(s.drop_last()) + s.last().items@.len()
    }
}

/// The id of a path's target (its last item).
pub open spec fn target_of(rc: ReviewCard) -> Option<Seq<char>> {
    if rc.items@.len() == 0 {
        None
    } else {
        Some(rc.items@.last().id@)
    }
}

/// A path for `card_id` with this target is already waiting at or after
/// position `from`.
pub open spec fn queued(s: Seq<ReviewCard>, from: int, card_id: Seq<char>, target: Option<Seq<char>>) -> bool {
    exists|k: int| from <= k < s.len() && #[trigger] s[k].card.id@ == card_id && target_of(s[k]) == target
}

/// Requeueing `fresh` one path after another: a path is skipped when one for
/// the same card and target still waits in the queue.
pub open spec fn requeued(s: Seq<ReviewCard>, from: int, card_id: Seq<char>, fresh: Seq<ReviewCard>) -> Seq<ReviewCard>
    decreases fresh.len(),
{
    if fresh.len() == 0 {
        s
    } else {
        let before = requeued(s, from, card_id, fresh.drop_last());
        if queued(before, from, card_id, target_of(fresh.last())) {
            before
        } else {
            before.push(fresh.last())
        }
    }
}

impl ReviewState {
    /// A session over the given paths, at its first item.
    pub fn new(session: Vec<ReviewCard>) -> (s: ReviewState)
        requires
            item_total(session@) <= usize::MAX,
        ensures
            s.session == session,
            s.card_idx == 0,
            s.item_idx == 0,
            s.phase == ReviewPhase::Thinking,
            s.total_items == item_total(session@),
            s.done_items == 0,
            s.answer_scroll == 0,
            s.session_rated@.len() == 0,
            s.leech_prompt is None,
            s.weak_span_prompt is None,
            s.scratchpad@.len() == 0,
            !s.scratchpad_open,
            s.focus == ReviewFocus::Card,
            (forall|k: int| 0 <= k < session@.len() ==> (#[trigger] session@[k]).items@.len() > 0) ==> consistent(s),
    {
        let mut total: usize = 0;
        let mut k: usize = 0;
        while k < session.len()
            invariant
                k <= session@.len(),
                item_total(session@) <= usize::MAX,
                total == item_total(session@.take(k as int)),
            decreases session@.len() - k,
        {
            proof {
                assert(session@.take(k + 1).drop_last() =~= session@.take(k as int));
                lemma_item_total_prefix(session@, k + 1);
            }
            total = total + session[k].items.len();
            k += 1;
        }
        assert(session@.take(k as int) =~= session@);
        proof {
            lemma_ahead_nonneg(session@, 0);
            assert(session@.skip(0) =~= session@);
        }
        ReviewState {
            session,
            card_idx: 0,
            item_idx: 0,
            phase: ReviewPhase::Thinking,
            total_items: total,
            done_items: 0,
            answer_scroll: 0,
            session_rated: Vec::new(),
            leech_prompt: None,
            weak_span_prompt: None,
            scratchpad: String::new(),
            scratchpad_open: false,
            focus: ReviewFocus::Card,
        }
    }

    pub fn is_done(&self) -> (b: bool)
        ensures
            b == (self.card_idx >= self.session@.len()),
    {
        self.card_idx >= self.session.len()
    }

    /// Shows the answer, scrolled to the top.
    pub fn show_answer(&mut self)
        ensures
            final(self).phase == ReviewPhase::Revealed,
            final(self).answer_scroll == 0,
            final(self).session == old(self).session,
            final(self).card_idx == old(self).card_idx,
            final(self).item_idx == old(self).item_idx,
            consistent(*old(self)) ==> consistent(*final(self)),
    {
        self.phase = ReviewPhase::Revealed;
        self.answer_scroll = 0;
    }

    /// Appends a path for every branch of `card_id` that has something due
    /// (`fresh`, as the store reports them). A path is identified by its
    /// target, so a card can have several paths queued, but the same path
    /// is never queued twice: only the part of the session not yet reviewed
    /// is checked, so a path just finished can come back when due again.
    pub fn requeue(&mut self, card_id: &str, fresh: Vec<ReviewCard>)
        requires
            old(self).total_items + item_total(fresh@) <= usize::MAX,
        ensures
            final(self).session@ == requeued(old(self).session@, old(self).card_idx as int, card_id@, fresh@),
            final(self).total_items == old(self).total_items + item_total(final(self).session@) - item_total(
                old(self).session@,
            ),
            final(self).card_idx == old(self).card_idx,
            final(self).item_idx == old(self).item_idx,
            final(self).done_items == old(self).done_items,
            final(self).session_rated == old(self).session_rated,
            final(self).leech_prompt == old(self).leech_prompt,
            final(self).weak_span_prompt == old(self).weak_span_prompt,
            consistent(*old(self)) && (forall|q: int| 0 <= q < fresh@.len() ==> (#[trigger] fresh@[q]).items@.len() > 0)
                ==> consistent(*final(self)),
    {
        let ghost o = *self;
        let ghost s0 = self.session@;
        let ghost t0 = self.total_items;
        let mut fresh = fresh;
        let ghost f0 = fresh@;
        let n = fresh.len();
        let mut k: usize = 0;
        while k < n
            invariant
                n == f0.len(),
                k <= n,
                fresh@ == f0.skip(k as int),
                self.session@ == requeued(s0, self.card_idx as int, card_id@, f0.take(k as int)),
                self.total_items == t0 + item_total(self.session@) - item_total(s0),
                item_total(self.session@) - item_total(s0) <= item_total(f0.take(k as int)),
                t0 + item_total(f0) <= usize::MAX,
                self.card_idx == old(self).card_idx,
                self.item_idx == old(self).item_idx,
                self.done_items == old(self).done_items,
                self.session_rated == o.session_rated,
                self.leech_prompt == o.leech_prompt,
                self.weak_span_prompt == o.weak_span_prompt,
                t0 == old(self).total_items,
                s0 == old(self).session@,
                o == *old(self),
            decreases n - k,
        {
            let rc = fresh.remove(0);
            assert(rc == f0[k as int]);
            proof {
                assert(f0.take(k + 1).drop_last() =~= f0.take(k as int));
                assert(fresh@ =~= f0.skip(k + 1));
                lemma_item_total_prefix(f0, k + 1);
                lemma_item_total_prefix(f0, n as int);
            }
            let already = self.is_queued(card_id, &rc);
            if !already {
                proof {
                    lemma_item_total_push(self.session@, rc);
                }
                self.total_items = self.total_items + rc.items.len();
                self.session.push(rc);
            }
            k += 1;
        }
        assert(f0.take(n as int) =~= f0);
        proof {
            if consistent(o) && (forall|q: int| 0 <= q < f0.len() ==> (#[trigger] f0[q]).items@.len() > 0) {
                lemma_requeued(s0, o.card_idx as int, card_id@, f0);
                let r = self.session@;
                let extra = r.skip(s0.len() as int);
                assert(r =~= s0 + extra);
                lemma_item_total_concat(s0, extra);
                let c = o.card_idx as int;
                if c < s0.len() {
                    assert(r.skip(c) =~= s0.skip(c) + extra);
                    lemma_item_total_concat(s0.skip(c), extra);
                    assert(r[c] == s0[c]);
                } else {
                    lemma_ahead_nonneg(r, c);
                    assert(r.skip(c) =~= extra);
                    if c < r.len() {
                        assert(f0.contains(r[c]));
                    }
                }
                assert forall|k: int| c <= k < r.len() implies (#[trigger] r[k]).items@.len() > 0 by {
                    if k < s0.len() {
                        assert(r[k] == s0[k]);
                    } else {
                        assert(f0.contains(r[k]));
                    }
                }
            }
        }
    }

    fn is_queued(&self, card_id: &str, rc: &ReviewCard) -> (b: bool)
        ensures
            b == queued(self.session@, self.card_idx as int, card_id@, target_of(*rc)),
    {
        let n = self.session.len();
        let mut k = self.card_idx;
        while k < n
            invariant
                n == self.session@.len(),
                self.card_idx <= k || k >= n,
                forall|j: int|
                    self.card_idx <= j < k && j < n ==> !(#[trigger] self.session@[j].card.id@ == card_id@ && target_of(
                        self.session@[j],
                    ) == target_of(*rc)),
            decreases n - k,
        {
            let other = &self.session[k];
            if same_text(other.card.id.as_str(), card_id) && same_target(other, rc) {
                return true;
            }
            k += 1;
        }
        false
    }

    /// What `rate` asks the store to record; `None` while the session is
    /// over or a prompt is waiting (rating keys are then ignored).
    pub fn rating_subject(&self) -> (r: Option<LeechPrompt>)
        requires
            self.card_idx < self.session@.len() ==> self.item_idx < self.session@[self.card_idx as int].items@.len(),
        ensures
            (self.card_idx >= self.session@.len() || self.leech_prompt is Some || self.weak_span_prompt is Some)
                <==> r is None,
            r matches Some(p) ==> {
                let it = self.session@[self.card_idx as int].items@[self.item_idx as int];
                &&& p.item_id == it.id
                &&& p.card_id == self.session@[self.card_idx as int].card.id
                &&& p.prompt_text == it.prompt
                &&& p.answer_text == it.answer
                &&& p.is_step == (it.kind == crate::models::ItemKind::Step)
                &&& p.is_last_item == (self.item_idx == self.session@[self.card_idx as int].items@.len() - 1)
            },
    {
        if self.card_idx >= self.session.len() || self.leech_prompt.is_some() || self.weak_span_prompt.is_some() {
            return None;
        }
        let rc = &self.session[self.card_idx];
        let it = &rc.items[self.item_idx];
        let is_step = match it.kind {
            crate::models::ItemKind::Step => true,
            _ => false,
        };
        Some(
            LeechPrompt {
                item_id: it.id.clone(),
                card_id: rc.card.id.clone(),
                prompt_text: it.prompt.clone(),
                answer_text: it.answer.clone(),
                is_step,
                is_last_item: self.item_idx == rc.items.len() - 1,
                confidence: 0,
            },
        )
    }

    /// A step is a re-exposure when it was already fully scheduled earlier
    /// in this session (simple cards' items are never shown twice).
    pub fn is_reexposure(&self, item_id: &str, is_step: bool) -> (b: bool)
        ensures
            b == (is_step && self.session_rated@.map_values(|x: String| x@).contains(item_id@)),
    {
        is_step && text_listed(&self.session_rated, item_id)
    }
}

/// The scratchpad is emptied and closed, and keys go to the card again.
pub open spec fn pad_cleared(st: ReviewState) -> bool {
    &&& st.scratchpad@.len() == 0
    &&& !st.scratchpad_open
    &&& st.focus == ReviewFocus::Card
}

/// `a` and `b` have the same scratchpad.
pub open spec fn same_pad(a: ReviewState, b: ReviewState) -> bool {
    &&& a.scratchpad == b.scratchpad
    &&& a.scratchpad_open == b.scratchpad_open
    &&& a.focus == b.focus
}

/// `a` and `b` have the same queue, counts and prompts.
pub open spec fn same_queue(a: ReviewState, b: ReviewState) -> bool {
    &&& a.session == b.session
    &&& a.total_items == b.total_items
    &&& a.done_items == b.done_items
    &&& a.session_rated == b.session_rated
    &&& a.leech_prompt == b.leech_prompt
    &&& a.weak_span_prompt == b.weak_span_prompt
}

/// Moving on from the item on screen: to the next item of the path, or to
/// the next path once this one is through; a new path starts with the answer
/// scrolled to the top and an empty, closed scratchpad.
pub open spec fn advanced(a: ReviewState, b: ReviewState) -> bool {
    let through = a.card_idx < a.session@.len() && a.item_idx + 1 >= a.session@[a.card_idx as int].items@.len();
    &&& same_queue(a, b)
    &&& b.phase == ReviewPhase::Thinking
    &&& b.card_idx == if through { a.card_idx + 1 } else { a.card_idx as int }
    &&& b.item_idx == if through { 0 } else { a.item_idx + 1 }
    &&& through ==> b.answer_scroll == 0 && pad_cleared(b)
    &&& !through ==> b.answer_scroll == a.answer_scroll && same_pad(a, b)
}

/// A failed step ends its path: the rest of it is dropped from the count and
/// the next path starts.
pub open spec fn path_failed(a: ReviewState, b: ReviewState) -> bool {
    let skipped = a.session@[a.card_idx as int].items@.len() - a.item_idx - 1;
    &&& b.session == a.session
    &&& b.done_items == a.done_items
    &&& b.session_rated == a.session_rated
    &&& b.leech_prompt == a.leech_prompt
    &&& b.weak_span_prompt == a.weak_span_prompt
    &&& b.total_items == a.total_items - skipped
    &&& b.card_idx == a.card_idx + 1
    &&& b.item_idx == 0
    &&& b.phase == ReviewPhase::Thinking
    &&& b.answer_scroll == 0
    &&& pad_cleared(b)
}

/// What finishing a rating does to the session (the prompts are already
/// closed): a failed step ends its path, anything else moves on by one.
/// The card is to be requeued after a failed step and after the last step
/// of a path.
pub open spec fn finished(a: ReviewState, b: ReviewState, card_id: Seq<char>, confidence: u8, is_step: bool, is_last_item: bool, requeue: Option<String>) -> bool {
    if is_step && confidence == 1 {
        &&& path_failed(a, b)
        &&& requeue matches Some(c) && c@ == card_id
    } else {
        &&& advanced(a, b)
        &&& if is_last_item && is_step { requeue matches Some(c) && c@ == card_id } else { requeue is None }
    }
}

/// The item on screen, and what a failed step would take off the count.
pub open spec fn can_finish(st: ReviewState, confidence: u8, is_step: bool) -> bool {
    &&& st.card_idx < st.session@.len()
    &&& st.item_idx < st.session@[st.card_idx as int].items@.len()
    &&& (is_step && confidence == 1) ==> st.total_items >= st.session@[st.card_idx as int].items@.len() - st.item_idx - 1
}

impl ReviewState {
    fn clear_scratchpad(&mut self)
        ensures
            pad_cleared(*final(self)),
            same_queue(*old(self), *final(self)),
            final(self).card_idx == old(self).card_idx,
            final(self).item_idx == old(self).item_idx,
            final(self).phase == old(self).phase,
            final(self).answer_scroll == old(self).answer_scroll,
    {
        self.scratchpad = String::new();
        self.scratchpad_open = false;
        self.focus = ReviewFocus::Card;
    }

    /// Moves on from the item just rated.
    pub fn advance(&mut self)
        requires
            old(self).item_idx < usize::MAX,
        ensures
            advanced(*old(self), *final(self)),
    {
        let prev_card_idx = self.card_idx;
        self.item_idx = self.item_idx + 1;
        self.phase = ReviewPhase::Thinking;
        if self.card_idx < self.session.len() {
            if self.item_idx >= self.session[self.card_idx].items.len() {
                self.card_idx = self.card_idx + 1;
                self.item_idx = 0;
            }
        }
        if self.card_idx != prev_card_idx {
            self.answer_scroll = 0;
            self.clear_scratchpad();
        }
    }

    fn finish_rating(&mut self, card_id: String, confidence: u8, is_step: bool, is_last_item: bool) -> (requeue: Option<String>)
        requires
            can_finish(*old(self), confidence, is_step),
        ensures
            finished(*old(self), *final(self), card_id@, confidence, is_step, is_last_item, requeue),
    {
        let _n = self.session.len();
        let _m = self.session[self.card_idx].items.len();
        if is_step && confidence == 1 {
            let skipped = self.session[self.card_idx].items.len() - self.item_idx - 1;
            self.total_items = self.total_items - skipped;
            self.card_idx = self.card_idx + 1;
            self.item_idx = 0;
            self.phase = ReviewPhase::Thinking;
            self.answer_scroll = 0;
            self.clear_scratchpad();
            Some(card_id)
        } else {
            self.advance();
            if is_last_item && is_step {
                Some(card_id)
            } else {
                None
            }
        }
    }

    /// After the store recorded the rating that `rating_subject` described
    /// (`subject`), with the given confidence and the leech verdict it
    /// returned: the item counts as done and as scheduled in this session;
    /// a leech opens the intervention prompt and the rating waits for it,
    /// anything else finishes the rating. Returns the card to requeue, if
    /// the store may now have more of it due.
    pub fn record_rating(&mut self, subject: LeechPrompt, confidence: u8, status: LeechStatus) -> (requeue: Option<String>)
        requires
            can_finish(*old(self), confidence, subject.is_step),
            old(self).leech_prompt is None,
            old(self).weak_span_prompt is None,
            old(self).done_items < usize::MAX,
        ensures
            final(self).session_rated@.map_values(|x: String| x@).to_set() == old(self).session_rated@.map_values(
                |x: String| x@,
            ).to_set().insert(subject.item_id@),
            status == LeechStatus::Leech ==> {
                &&& final(self).leech_prompt == Some(LeechPrompt { confidence, ..subject })
                &&& final(self).done_items == old(self).done_items + 1
                &&& final(self).session == old(self).session
                &&& final(self).total_items == old(self).total_items
                &&& final(self).card_idx == old(self).card_idx
                &&& final(self).item_idx == old(self).item_idx
                &&& final(self).phase == old(self).phase
                &&& final(self).weak_span_prompt is None
                &&& requeue is None
            },
            status != LeechStatus::Leech ==> exists|mid: ReviewState| {
                &&& mid.session == old(self).session
                &&& mid.card_idx == old(self).card_idx
                &&& mid.item_idx == old(self).item_idx
                &&& mid.total_items == old(self).total_items
                &&& mid.done_items == old(self).done_items + 1
                &&& mid.leech_prompt is None
                &&& mid.weak_span_prompt is None
                &&& finished(mid, *final(self), subject.card_id@, confidence, subject.is_step, subject.is_last_item, requeue)
            },
            consistent(*old(self)) ==> consistent(*final(self)),
    {
        let ghost o = *self;
        let ghost before = self.session_rated@.map_values(|x: String| x@);
        if !text_listed(&self.session_rated, subject.item_id.as_str()) {
            self.session_rated.push(subject.item_id.clone());
            assert(self.session_rated@.map_values(|x: String| x@) =~= before.push(subject.item_id@));
        } else {
            assert(before.contains(subject.item_id@));
        }
        proof {
            let after = self.session_rated@.map_values(|x: String| x@);
            assert(after.to_set() =~= before.to_set().insert(subject.item_id@)) by {
                assert forall|x: Seq<char>| after.to_set().contains(x) <==> before.to_set().insert(subject.item_id@).contains(x) by {
                    if after.contains(x) && x != subject.item_id@ {
                        let j = choose|j: int| 0 <= j < after.len() && after[j] == x;
                        if j < before.len() {
                            assert(before[j] == x);
                        }
                    }
                    if before.contains(x) {
                        let j = choose|j: int| 0 <= j < before.len() && before[j] == x;
                        if after.len() > before.len() {
                            assert(after[j] == x);
                        }
                    }
                    if x == subject.item_id@ && after.len() > before.len() {
                        assert(after[before.len() as int] == x);
                    }
                }
            }
        }
        self.done_items = self.done_items + 1;
        match status {
            LeechStatus::Leech => {
                self.leech_prompt = Some(LeechPrompt { confidence, ..subject });
                None
            },
            _ => {
                let ghost mid = *self;
                let r = self.finish_rating(subject.card_id, confidence, subject.is_step, subject.is_last_item);
                proof {
                    if consistent(o) {
                        lemma_finished_consistent(mid, *self, subject.card_id@, confidence, subject.is_step, subject.is_last_item, r);
                    }
                }
                r
            },
        }
    }

    /// Answers the leech intervention. Marking the blind spot opens the
    /// weak-span prompt over the answer, and the rating waits for it;
    /// otherwise the rating is finished. Returns the card to requeue, if any.
    pub fn resolve_leech_prompt(&mut self, mark_blind_spot: bool) -> (requeue: Option<String>)
        requires
            old(self).leech_prompt matches Some(p) ==> can_finish(*old(self), p.confidence, p.is_step),
        ensures
            final(self).leech_prompt is None,
            final(self).session_rated == old(self).session_rated,
            match old(self).leech_prompt {
                None => *final(self) == *old(self) && requeue is None,
                Some(p) => if mark_blind_spot {
                    &&& final(self).weak_span_prompt matches Some(w) && {
                        &&& w.item_key() == p.item_id@
                        &&& w.card_key() == p.card_id@
                        &&& w.rating() == (p.is_step, p.is_last_item, p.confidence)
                        &&& w.word_views() == words(p.answer_text@)
                        &&& w.picked().len() == 0
                        &&& w.cursor_at() == 0
                        &&& !w.marked_any()
                    }
                    &&& final(self).session == old(self).session
                    &&& final(self).card_idx == old(self).card_idx
                    &&& final(self).item_idx == old(self).item_idx
                    &&& final(self).total_items == old(self).total_items
                    &&& final(self).done_items == old(self).done_items
                    &&& requeue is None
                } else {
                    exists|mid: ReviewState| {
                        &&& mid.session == old(self).session
                        &&& mid.card_idx == old(self).card_idx
                        &&& mid.item_idx == old(self).item_idx
                        &&& mid.total_items == old(self).total_items
                        &&& mid.done_items == old(self).done_items
                        &&& mid.leech_prompt is None
                        &&& mid.weak_span_prompt == old(self).weak_span_prompt
                        &&& finished(mid, *final(self), p.card_id@, p.confidence, p.is_step, p.is_last_item, requeue)
                    }
                },
            },
            consistent(*old(self)) ==> consistent(*final(self)),
    {
        let ghost o = *self;
        match self.leech_prompt.take() {
            None => None,
            Some(p) => {
                if mark_blind_spot {
                    self.weak_span_prompt = Some(
                        WeakSpanPrompt::new(p.item_id, p.card_id, p.is_step, p.is_last_item, p.confidence, p.answer_text.as_str()),
                    );
                    None
                } else {
                    let ghost mid = *self;
                    let r = self.finish_rating(p.card_id, p.confidence, p.is_step, p.is_last_item);
                    proof {
                        if consistent(o) {
                            lemma_finished_consistent(mid, *self, p.card_id@, p.confidence, p.is_step, p.is_last_item, r);
                        }
                    }
                    r
                }
            },
        }
    }

    /// Closes the weak-span prompt and finishes the rating it held. Returns
    /// the card to requeue, if any.
    pub fn resolve_weak_span_prompt(&mut self) -> (requeue: Option<String>)
        requires
            old(self).weak_span_prompt matches Some(w) ==> can_finish(*old(self), w.rating().2, w.rating().0),
        ensures
            final(self).weak_span_prompt is None,
            match old(self).weak_span_prompt {
                None => *final(self) == *old(self) && requeue is None,
                Some(w) => exists|mid: ReviewState| {
                    &&& mid.session == old(self).session
                    &&& mid.card_idx == old(self).card_idx
                    &&& mid.item_idx == old(self).item_idx
                    &&& mid.total_items == old(self).total_items
                    &&& mid.done_items == old(self).done_items
                    &&& mid.leech_prompt == old(self).leech_prompt
                    &&& mid.weak_span_prompt is None
                    &&& finished(mid, *final(self), w.card_key(), w.rating().2, w.rating().0, w.rating().1, requeue)
                },
            },
            consistent(*old(self)) ==> consistent(*final(self)),
    {
        let ghost o = *self;
        match self.weak_span_prompt.take() {
            None => None,
            Some(w) => {
                let ghost mid = *self;
                let (is_step, is_last_item, confidence) = w.finishing();
                let card_id = w.card_id().clone();
                let r = self.finish_rating(card_id, confidence, is_step, is_last_item);
                proof {
                    if consistent(o) {
                        lemma_finished_consistent(mid, *self, w.card_key(), confidence, is_step, is_last_item, r);
                    }
                }
                r
            },
        }
    }

    /// Moves the weak-span cursor, when that prompt is open.
    pub fn weak_span_move_cursor(&mut self, delta: i32)
        requires
            old(self).weak_span_prompt matches Some(w) ==> w.word_views().len() <= i32::MAX && w.cursor_at() + delta
                <= i32::MAX,
        ensures
            match old(self).weak_span_prompt {
                None => *final(self) == *old(self),
                Some(w) => final(self).weak_span_prompt matches Some(v) && {
                    &&& v.same_answer(w)
                    &&& v.picked() == w.picked()
                    &&& v.marked_any() == w.marked_any()
                    &&& v.cursor_at() == if w.word_views().len() == 0 {
                        w.cursor_at() as int
                    } else {
                        (w.cursor_at() + delta) % (w.word_views().len() as int)
                    }
                },
            },
            final(self).session == old(self).session,
            final(self).card_idx == old(self).card_idx,
            final(self).item_idx == old(self).item_idx,
            consistent(*old(self)) ==> consistent(*final(self)),
    {
        match self.weak_span_prompt.take() {
            None => {},
            Some(mut w) => {
                w.move_cursor(delta);
                self.weak_span_prompt = Some(w);
            },
        }
    }

    /// Toggles the word under the weak-span cursor, when that prompt is open.
    pub fn weak_span_toggle_cursor(&mut self)
        ensures
            match old(self).weak_span_prompt {
                None => *final(self) == *old(self),
                Some(w) => final(self).weak_span_prompt matches Some(v) && {
                    &&& v.same_answer(w)
                    &&& v.cursor_at() == w.cursor_at()
                    &&& v.marked_any() == w.marked_any()
                    &&& w.word_views().len() == 0 ==> v.picked() == w.picked()
                    &&& w.word_views().len() > 0 ==> forall|x: usize|
                        #[trigger] v.picked().contains(x) <==> (if x == w.cursor_at() {
                            !w.picked().contains(x)
                        } else {
                            w.picked().contains(x)
                        })
                },
            },
            final(self).session == old(self).session,
            final(self).card_idx == old(self).card_idx,
            final(self).item_idx == old(self).item_idx,
            consistent(*old(self)) ==> consistent(*final(self)),
    {
        match self.weak_span_prompt.take() {
            None => {},
            Some(mut w) => {
                w.toggle_cursor();
                self.weak_span_prompt = Some(w);
            },
        }
    }

    /// Takes the toggled words as one phrase: returns the item and the phrase
    /// for the store to mark, and clears the selection. Nothing happens when
    /// no word is toggled or the prompt is not open.
    pub fn weak_span_commit(&mut self) -> (r: Option<(String, String)>)
        ensures
            match old(self).weak_span_prompt {
                None => *final(self) == *old(self) && r is None,
                Some(w) => match w.phrase_spec() {
                    None => *final(self) == *old(self) && r is None,
                    Some(ph) => {
                        &&& r matches Some((id, p)) && id@ == w.item_key() && p@ == ph
                        &&& final(self).weak_span_prompt matches Some(v) && {
                            &&& v.same_answer(w)
                            &&& v.cursor_at() == w.cursor_at()
                            &&& v.picked().len() == 0
                            &&& v.marked_any()
                        }
                    },
                },
            },
            final(self).session == old(self).session,
            final(self).card_idx == old(self).card_idx,
            final(self).item_idx == old(self).item_idx,
            consistent(*old(self)) ==> consistent(*final(self)),
    {
        let ph = match &self.weak_span_prompt {
            None => None,
            Some(w) => w.phrase(),
        };
        match ph {
            None => None,
            Some(p) => {
                match self.weak_span_prompt.take() {
                    None => None,
                    Some(mut w) => {
                        let id = w.item_id().clone();
                        w.committed();
                        self.weak_span_prompt = Some(w);
                        Some((id, p))
                    },
                }
            },
        }
    }

    /// Opens or hides the scratchpad; only while keys go to the card.
    /// Opening it sends the keys to it; hiding keeps what was written.
    pub fn toggle_scratchpad(&mut self)
        ensures
            same_queue(*old(self), *final(self)),
            final(self).card_idx == old(self).card_idx,
            final(self).item_idx == old(self).item_idx,
            final(self).scratchpad == old(self).scratchpad,
            old(self).focus != ReviewFocus::Card ==> *final(self) == *old(self),
            old(self).focus == ReviewFocus::Card && old(self).scratchpad_open ==> !final(self).scratchpad_open
                && final(self).focus == ReviewFocus::Card,
            old(self).focus == ReviewFocus::Card && !old(self).scratchpad_open ==> final(self).scratchpad_open
                && final(self).focus == ReviewFocus::Scratchpad,
            consistent(*old(self)) ==> consistent(*final(self)),
    {
        if self.focus != ReviewFocus::Card {
            return;
        }
        if self.scratchpad_open {
            self.scratchpad_open = false;
        } else {
            self.scratchpad_open = true;
            self.focus = ReviewFocus::Scratchpad;
        }
    }

    /// While the scratchpad is open, swaps where the keys go.
    pub fn cycle_review_focus(&mut self)
        ensures
            same_queue(*old(self), *final(self)),
            final(self).scratchpad == old(self).scratchpad,
            final(self).scratchpad_open == old(self).scratchpad_open,
            !old(self).scratchpad_open ==> *final(self) == *old(self),
            old(self).scratchpad_open ==> final(self).focus == if old(self).focus == ReviewFocus::Card {
                ReviewFocus::Scratchpad
            } else {
                ReviewFocus::Card
            },
            consistent(*old(self)) ==> consistent(*final(self)),
    {
        if !self.scratchpad_open {
            return;
        }
        self.focus = match self.focus {
            ReviewFocus::Card => ReviewFocus::Scratchpad,
            ReviewFocus::Scratchpad => ReviewFocus::Card,
        };
    }

    /// Types a character into the scratchpad, when it has the keys.
    pub fn scratchpad_push_char(&mut self, c: char)
        ensures
            final(self).scratchpad@ == if old(self).focus == ReviewFocus::Scratchpad {
                old(self).scratchpad@.push(c)
            } else {
                old(self).scratchpad@
            },
            final(self).focus == old(self).focus,
            final(self).scratchpad_open == old(self).scratchpad_open,
            same_queue(*old(self), *final(self)),
            consistent(*old(self)) ==> consistent(*final(self)),
    {
        if self.focus == ReviewFocus::Scratchpad {
            self.scratchpad.push(c);
        }
    }

    /// Starts a new line in the scratchpad, when it has the keys.
    pub fn scratchpad_newline(&mut self)
        ensures
            final(self).scratchpad@ == if old(self).focus == ReviewFocus::Scratchpad {
                old(self).scratchpad@.push('\n')
            } else {
                old(self).scratchpad@
            },
            final(self).focus == old(self).focus,
            final(self).scratchpad_open == old(self).scratchpad_open,
            same_queue(*old(self), *final(self)),
            consistent(*old(self)) ==> consistent(*final(self)),
    {
        if self.focus == ReviewFocus::Scratchpad {
            self.scratchpad.push('\n');
        }
    }

    /// Deletes the scratchpad's last character, when it has the keys.
    pub fn scratchpad_backspace(&mut self)
        ensures
            final(self).scratchpad@ == if old(self).focus == ReviewFocus::Scratchpad && old(self).scratchpad@.len() > 0 {
                old(self).scratchpad@.drop_last()
            } else {
                old(self).scratchpad@
            },
            final(self).focus == old(self).focus,
            final(self).scratchpad_open == old(self).scratchpad_open,
            same_queue(*old(self), *final(self)),
            consistent(*old(self)) ==> consistent(*final(self)),
    {
        if self.focus == ReviewFocus::Scratchpad {
            crate::editor::edit_text(&mut self.scratchpad, None);
        }
    }
}

// ~~~ bringing the session back in line with an edited card ~~~~~~~~~~~~~~~~~~~

/// The position of the last item of `fresh` with this id (the copy that a
/// lookup by id finds).
pub open spec fn last_with_id(fresh: Seq<Item>, id: Seq<char>) -> Option<int>
    decreases fresh.len(),
{
    if fresh.len() == 0 {
        None
    } else if fresh.last().id@ == id {
        Some(fresh.len() - 1)
    } else {
        last_with_id(fresh.drop_last(), id)
    }
}

/// The item still exists after the edit.
pub open spec fn survives(fresh: Seq<Item>) -> spec_fn(Item) -> bool {
    |it: Item| last_with_id(fresh, it.id@) is Some
}

/// The items of a path that still exist, in the path's order.
pub open spec fn kept_of(items: Seq<Item>, fresh: Seq<Item>) -> Seq<Item> {
    items.filter(survives(fresh))
}

/// The first `m` items of the path, or all of them.
pub open spec fn first_items(items: Seq<Item>, m: int) -> Seq<Item> {
    if m < items.len() {
        items.take(m)
    } else {
        items
    }
}

/// `n` is what becomes of the path `o`: a path of another card is kept as it
/// is; a path of the edited card gets the card's new values and the fresh
/// copies of its surviving items.
pub open spec fn path_refreshed(o: ReviewCard, n: ReviewCard, card_id: Seq<char>, card: Card, fresh: Seq<Item>) -> bool {
    if o.card.id@ != card_id {
        n == o
    } else {
        let kept = kept_of(o.items@, fresh);
        &&& same_card(n.card, card)
        &&& n.items@.len() == kept.len()
        &&& n.items@.len() > 0
        &&& forall|k: int|
            0 <= k < kept.len() ==> same_item(
                #[trigger] n.items@[k],
                fresh[last_with_id(fresh, kept[k].id@)->0],
            )
    }
}

/// Walking the not yet finished part of the session from position `j`,
/// one path after another, while edits of `card_id` are taken in. `first`:
/// the path at `j` is the one on screen (every path before it in the walk
/// was dropped). Carried along: the item index on screen, whether the
/// on-screen item has to be shown afresh, whether the scratchpad was
/// cleared, and the positions of the paths that stay. A path of the card
/// goes when its target (last item) is gone, when none of its items is
/// left, or, for the path on screen, when no item at or after the cursor is
/// left; when the path on screen goes, the next one starts from its first
/// item. When it stays, the cursor keeps to the item on screen, or to the
/// next one that survived.
pub open spec fn walk(
    s: Seq<ReviewCard>,
    card_id: Seq<char>,
    fresh: Seq<Item>,
    j: int,
    first: bool,
    item_idx: int,
    reset: bool,
    cleared: bool,
    kept: Seq<int>,
) -> (Seq<int>, int, bool, bool)
    decreases s.len() - j,
{
    if j < 0 || j >= s.len() {
        (kept, item_idx, reset, cleared)
    } else if s[j].card.id@ != card_id {
        walk(s, card_id, fresh, j + 1, false, item_idx, reset, cleared, kept.push(j))
    } else {
        let items = s[j].items@;
        let k = kept_of(items, fresh).len();
        let before = if first {
            kept_of(first_items(items, item_idx), fresh).len() as int
        } else {
            0
        };
        let gone = items.len() == 0 || last_with_id(fresh, items.last().id@) is None;
        if gone || k == 0 || (first && before >= k) {
            if first {
                walk(s, card_id, fresh, j + 1, true, 0, true, true, kept)
            } else {
                walk(s, card_id, fresh, j + 1, false, item_idx, reset, cleared, kept)
            }
        } else if first {
            let on_screen = 0 <= item_idx < items.len() && last_with_id(fresh, items[item_idx].id@) is Some;
            walk(s, card_id, fresh, j + 1, false, before, reset || !on_screen, cleared, kept.push(j))
        } else {
            walk(s, card_id, fresh, j + 1, false, item_idx, reset, cleared, kept.push(j))
        }
    }
}

/// The items of the paths from position `c` on, less the ones before the
/// cursor on the path at `c`: what is still ahead in the session.
pub open spec fn ahead(s: Seq<ReviewCard>, c: int, item_idx: int) -> int {
    if c < 0 || c >= s.len() {
        0
    } else {
        let first = s[c].items@.len();
        item_total(s.skip(c)) - if item_idx < first {
            item_idx
        } else {
            first as int
        }
    }
}

/// What `last_with_id` finds is an item with that id.
pub proof fn lemma_last_with_id(fresh: Seq<Item>, id: Seq<char>)
    ensures
        last_with_id(fresh, id) matches Some(k) ==> 0 <= k < fresh.len() && fresh[k].id@ == id,
        last_with_id(fresh, id) is None ==> forall|k: int| 0 <= k < fresh.len() ==> #[trigger] fresh[k].id@ != id,
    decreases fresh.len(),
{
    if fresh.len() > 0 {
        lemma_last_with_id(fresh.drop_last(), id);
        if last_with_id(fresh, id) is None {
            assert forall|k: int| 0 <= k < fresh.len() implies #[trigger] fresh[k].id@ != id by {
                if k < fresh.len() - 1 {
                    assert(fresh.drop_last()[k] == fresh[k]);
                }
            }
        }
    }
}

fn find_fresh(fresh: &Vec<Item>, id: &str) -> (r: Option<usize>)
    ensures
        match r {
            Some(k) => last_with_id(fresh@, id@) == Some(k as int) && k < fresh@.len() && fresh@[k as int].id@ == id@,
            None => last_with_id(fresh@, id@) is None,
        },
{
    let mut k = fresh.len();
    assert(fresh@.take(k as int) =~= fresh@);
    while k > 0
        invariant
            k <= fresh@.len(),
            last_with_id(fresh@, id@) == last_with_id(fresh@.take(k as int), id@),
        decreases k,
    {
        assert(fresh@.take(k as int).drop_last() =~= fresh@.take(k - 1));
        if same_text(fresh[k - 1].id.as_str(), id) {
            proof {
                lemma_last_with_id(fresh@, id@);
            }
            return Some(k - 1);
        }
        k -= 1;
    }
    None
}

/// The fresh copies of the surviving items of a path, and how many of them
/// stand among its first `upto` items.
fn refresh_items(items: &Vec<Item>, fresh: &Vec<Item>, upto: usize) -> (r: (Vec<Item>, usize))
    ensures
        r.0@.len() == kept_of(items@, fresh@).len(),
        forall|k: int|
            0 <= k < r.0@.len() ==> same_item(
                #[trigger] r.0@[k],
                fresh@[last_with_id(fresh@, kept_of(items@, fresh@)[k].id@)->0],
            ),
        r.1 == kept_of(first_items(items@, upto as int), fresh@).len(),
{
    let ghost pred = survives(fresh@);
    let mut out: Vec<Item> = Vec::new();
    let mut before: usize = 0;
    let mut k: usize = 0;
    while k < items.len()
        invariant
            k <= items@.len(),
            pred == survives(fresh@),
            out@.len() == items@.take(k as int).filter(pred).len(),
            forall|q: int|
                0 <= q < out@.len() ==> same_item(
                    #[trigger] out@[q],
                    fresh@[last_with_id(fresh@, items@.take(k as int).filter(pred)[q].id@)->0],
                ),
            before == items@.take(if k < upto { k as int } else { upto as int }).filter(pred).len(),
            before <= k,
        decreases items@.len() - k,
    {
        proof {
            assert(items@.take(k + 1) =~= items@.take(k as int).push(items@[k as int]));
            items@.take(k as int).lemma_filter_push(items@[k as int], pred);
        }
        match find_fresh(fresh, items[k].id.as_str()) {
            Some(f) => {
                if k < upto {
                    before = before + 1;
                }
                out.push(fresh[f].duplicate());
            },
            None => {},
        }
        k += 1;
    }
    proof {
        assert(items@.take(k as int) =~= items@);
        if upto < items@.len() {
        } else {
            assert(items@.take(items@.len() as int) =~= items@);
        }
    }
    (out, before)
}

impl ReviewState {
    /// Brings the session back in line with a card that was just edited
    /// from inside the review; `card` and `fresh` are the card and its items
    /// as they are stored now. Every not yet finished path of the card is
    /// rebuilt as `walk` says: surviving items get their fresh values, in
    /// the same order, deleted ones are dropped, and a path whose target is
    /// gone, or that has nothing left to review, is removed. Paths of other
    /// cards and finished paths stay as they are, and the counts are set to
    /// what was done plus what is still ahead. Returns whether the card is a
    /// multi-step card, whose newly due paths are then to be requeued.
    pub fn refresh_card(&mut self, card_id: &str, card: Card, fresh: Vec<Item>) -> (requeue: bool)
        requires
            old(self).done_items + item_total(old(self).session@) <= usize::MAX,
        ensures
            ({
                let w = walk(
                    old(self).session@,
                    card_id@,
                    fresh@,
                    old(self).card_idx as int,
                    true,
                    old(self).item_idx as int,
                    false,
                    false,
                    seq![],
                );
                let c = if old(self).card_idx <= old(self).session@.len() {
                    old(self).card_idx as int
                } else {
                    old(self).session@.len() as int
                };
                &&& final(self).session@.len() == c + w.0.len()
                &&& forall|q: int| 0 <= q < c ==> #[trigger] final(self).session@[q] == old(self).session@[q]
                &&& forall|q: int|
                    c <= q < final(self).session@.len() ==> path_refreshed(
                        old(self).session@[w.0[q - c]],
                        #[trigger] final(self).session@[q],
                        card_id@,
                        card,
                        fresh@,
                    )
                &&& final(self).item_idx == w.1
                &&& w.2 ==> final(self).phase == ReviewPhase::Thinking && final(self).answer_scroll == 0
                &&& !w.2 ==> final(self).phase == old(self).phase && final(self).answer_scroll == old(self).answer_scroll
                &&& w.3 ==> pad_cleared(*final(self))
                &&& !w.3 ==> same_pad(*old(self), *final(self))
            }),
            final(self).card_idx == old(self).card_idx,
            final(self).done_items == old(self).done_items,
            final(self).session_rated == old(self).session_rated,
            final(self).leech_prompt == old(self).leech_prompt,
            final(self).weak_span_prompt == old(self).weak_span_prompt,
            final(self).total_items == final(self).done_items + ahead(
                final(self).session@,
                final(self).card_idx as int,
                final(self).item_idx as int,
            ),
            requeue == (card.kind == CardKind::Multi),
            consistent(*old(self)) && pending(*old(self)) == 0 ==> consistent(*final(self)),
    {
        let ghost o = *self;
        let ghost ok = consistent(*self);
        let ghost s0 = self.session@;
        let ghost c0 = self.card_idx as int;
        let ghost w0 = walk(s0, card_id@, fresh@, c0, true, self.item_idx as int, false, false, seq![]);
        let mut i = self.card_idx;
        let ghost mut j: int = c0;
        let ghost mut first: bool = true;
        let ghost mut reset: bool = false;
        let ghost mut cleared: bool = false;
        let ghost mut kidx: Seq<int> = seq![];
        while i < self.session.len()
            invariant
                w0 == walk(s0, card_id@, fresh@, j, first, self.item_idx as int, reset, cleared, kidx),
                s0 == o.session@,
                c0 == o.card_idx,
                self.card_idx == o.card_idx,
                self.done_items == o.done_items,
                self.total_items == o.total_items,
                self.session_rated == o.session_rated,
                self.leech_prompt == o.leech_prompt,
                self.weak_span_prompt == o.weak_span_prompt,
                i as int == c0 + kidx.len(),
                c0 <= j,
                c0 <= s0.len() ==> j <= s0.len(),
                c0 > s0.len() ==> j == c0 && kidx.len() == 0,
                self.session@.len() == i + (s0.len() - j),
                forall|q: int| 0 <= q < c0 && q < s0.len() ==> #[trigger] self.session@[q] == s0[q],
                forall|q: int|
                    c0 <= q < i ==> path_refreshed(s0[kidx[q - c0]], #[trigger] self.session@[q], card_id@, card, fresh@),
                forall|q: int| i <= q < self.session@.len() ==> #[trigger] self.session@[q] == s0[j + (q - i)],
                first <==> kidx.len() == 0,
                reset ==> self.phase == ReviewPhase::Thinking && self.answer_scroll == 0,
                !reset ==> self.phase == o.phase && self.answer_scroll == o.answer_scroll,
                cleared ==> pad_cleared(*self),
                !cleared ==> same_pad(o, *self),
                item_total(self.session@) <= item_total(s0),
                forall|q: int| 0 <= q < kidx.len() ==> c0 <= #[trigger] kidx[q] < j,
                ok == consistent(o),
                ok && kidx.len() > 0 ==> self.item_idx < self.session@[c0].items@.len(),
                ok && first ==> (j == c0 && self.item_idx == o.item_idx) || self.item_idx == 0,
            decreases self.session@.len() - i,
        {
            assert(self.session@[i as int] == s0[j]);
            if !same_text(self.session[i].card.id.as_str(), card_id) {
                proof {
                    kidx = kidx.push(j);
                    j = j + 1;
                    first = false;
                }
                i = i + 1;
            } else {
                let is_current = i == self.card_idx;
                let upto = if is_current {
                    self.item_idx
                } else {
                    0
                };
                let (kept, before) = refresh_items(&self.session[i].items, &fresh, upto);
                let m = self.session[i].items.len();
                let cursor_survived = is_current && self.item_idx < m && find_fresh(
                    &fresh,
                    self.session[i].items[self.item_idx].id.as_str(),
                ).is_some();
                let target_gone = m == 0 || find_fresh(&fresh, self.session[i].items[m - 1].id.as_str()).is_none();
                proof {
                    let items = s0[j].items@;
                    if !first {
                        if items.len() > 0 {
                            assert(items.take(0) =~= Seq::<Item>::empty());
                        }
                        assert(Seq::<Item>::empty().filter(survives(fresh@)) =~= Seq::<Item>::empty()) by {
                            reveal(Seq::filter);
                        }
                    }
                    if m > 0 {
                        assert(items.last() == items[m - 1]);
                    }
                    items.lemma_filter_len(survives(fresh@));
                }
                if target_gone || kept.len() == 0 || (is_current && before >= kept.len()) {
                    proof {
                        lemma_item_total_change(self.session@, i as int, self.session@[i as int]);
                    }
                    self.session.remove(i);
                    if is_current {
                        self.item_idx = 0;
                        self.phase = ReviewPhase::Thinking;
                        self.answer_scroll = 0;
                        self.clear_scratchpad();
                        proof {
                            reset = true;
                            cleared = true;
                        }
                    }
                    proof {
                        j = j + 1;
                    }
                } else {
                    let rc = ReviewCard { card: card.duplicate(), items: kept };
                    proof {
                        lemma_item_total_change(self.session@, i as int, rc);
                    }
                    self.session.set(i, rc);
                    if is_current {
                        self.item_idx = before;
                        if !cursor_survived {
                            self.phase = ReviewPhase::Thinking;
                            self.answer_scroll = 0;
                            proof {
                                reset = true;
                            }
                        }
                    }
                    proof {
                        kidx = kidx.push(j);
                        j = j + 1;
                        first = false;
                    }
                    i = i + 1;
                }
            }
        }
        proof {
            assert(w0 == (kidx, self.item_idx as int, reset, cleared));
            let c = if c0 <= s0.len() {
                c0
            } else {
                s0.len() as int
            };
            assert(self.session@.len() == c + kidx.len());
            assert forall|q: int| c <= q < self.session@.len() implies path_refreshed(
                s0[w0.0[q - c]],
                #[trigger] self.session@[q],
                card_id@,
                card,
                fresh@,
            ) by {
                assert(c == c0);
            }
        }
        let n = self.session.len();
        let mut remaining: usize = 0;
        if self.card_idx < n {
            let c = self.card_idx;
            let first_len = self.session[c].items.len();
            remaining = if first_len > self.item_idx {
                first_len - self.item_idx
            } else {
                0
            };
            let mut q = c + 1;
            proof {
                let sub = self.session@.subrange(c as int, q as int);
                assert(sub =~= seq![self.session@[c as int]]);
                assert(sub.drop_last() =~= Seq::<ReviewCard>::empty());
                assert(item_total(sub.drop_last()) == 0);
                assert(sub.last() == self.session@[c as int]);
                assert(item_total(sub) == first_len);
            }
            while q < n
                invariant
                    c < q <= n,
                    n == self.session@.len(),
                    c == self.card_idx,
                    first_len == self.session@[c as int].items@.len(),
                    remaining == item_total(self.session@.subrange(c as int, q as int)) - if self.item_idx < first_len {
                        self.item_idx as int
                    } else {
                        first_len as int
                    },
                    self.done_items + item_total(self.session@) <= usize::MAX,
                decreases n - q,
            {
                proof {
                    let s = self.session@;
                    assert(s.subrange(c as int, q + 1).drop_last() =~= s.subrange(c as int, q as int));
                    assert(s =~= s.take(c as int) + s.subrange(c as int, q + 1) + s.skip(q + 1));
                    lemma_item_total_concat(s.take(c as int) + s.subrange(c as int, q + 1), s.skip(q + 1));
                    lemma_item_total_concat(s.take(c as int), s.subrange(c as int, q + 1));
                }
                remaining = remaining + self.session[q].items.len();
                q = q + 1;
            }
            proof {
                let s = self.session@;
                assert(s.subrange(c as int, n as int) =~= s.skip(c as int));
                assert(s =~= s.take(c as int) + s.skip(c as int));
                lemma_item_total_concat(s.take(c as int), s.skip(c as int));
            }
        }
        self.total_items = self.done_items + remaining;
        proof {
            if ok && pending(o) == 0 {
                let c = c0;
                assert forall|k: int| c <= k < self.session@.len() implies (#[trigger] self.session@[k]).items@.len() > 0 by {
                    assert(path_refreshed(s0[kidx[k - c]], self.session@[k], card_id@, card, fresh@));
                    assert(c0 <= kidx[k - c] < s0.len());
                    assert(s0[kidx[k - c]].items@.len() > 0);
                }
            }
        }
        match card.kind {
            CardKind::Multi => true,
            _ => false,
        }
    }
}

/// The items of `a` and `b` together.
pub proof fn lemma_item_total_concat(a: Seq<ReviewCard>, b: Seq<ReviewCard>)
    ensures
        item_total(a + b) == item_total(a) + item_total(b),
    decreases b.len(),
{
    if b.len() == 0 {
        assert(a + b =~= a);
    } else {
        assert((a + b).drop_last() =~= a + b.drop_last());
        lemma_item_total_concat(a, b.drop_last());
    }
}

/// Replacing or removing the path at `i` changes the total by the
/// difference of the paths' items.
pub proof fn lemma_item_total_change(s: Seq<ReviewCard>, i: int, x: ReviewCard)
    requires
        0 <= i < s.len(),
    ensures
        item_total(s.update(i, x)) == item_total(s) - s[i].items@.len() + x.items@.len(),
        item_total(s.remove(i)) == item_total(s) - s[i].items@.len(),
{
    let pre = s.take(i);
    let post = s.skip(i + 1);
    assert(s =~= pre + seq![s[i]] + post);
    assert(s.update(i, x) =~= pre + seq![x] + post);
    assert(s.remove(i) =~= pre + post);
    assert(seq![s[i]].drop_last() =~= Seq::<ReviewCard>::empty());
    assert(item_total(seq![s[i]].drop_last()) == 0);
    assert(seq![s[i]].last() == s[i]);
    assert(item_total(seq![s[i]]) == s[i].items@.len());
    assert(seq![x].drop_last() =~= Seq::<ReviewCard>::empty());
    lemma_item_total_concat(pre + seq![s[i]], post);
    lemma_item_total_concat(pre, seq![s[i]]);
    lemma_item_total_concat(pre + seq![x], post);
    lemma_item_total_concat(pre, seq![x]);
    lemma_item_total_concat(pre, post);
    assert(item_total(s) == item_total(pre) + s[i].items@.len() + item_total(post));
}

// ~~~ keys on the review screen ~~~~~~~~~~~~~~~~~~~~~~~~~~~~~~~~~~~~~~~~~~~~~~~

/// What a key asks of the review screen; the program carries it out with
/// the session's methods (and the store where a rating is involved).
#[derive(Debug, Clone, Copy, PartialEq, Eq, Structural)]
pub enum ReviewCommand {
    Nothing,
    GoBack,
    /// answer the leech prompt by marking the blind spot
    MarkBlindSpot,
    /// answer the leech prompt by moving on
    IgnoreLeech,
    /// answer the leech prompt of a step by splitting the step in two in
    /// the card editor (the prompt stays until it is answered otherwise)
    SplitStep,
    SpanCursor(i32),
    SpanToggle,
    SpanCommit,
    /// close the weak-span prompt
    SpanDone,
    Rate(u8),
    ShowAnswer,
    ScrollDown,
    ScrollUp,
    /// open the item's image
    OpenImage,
    /// edit the card on screen
    EditCard,
    TogglePad,
    PadFocus,
    PadChar(char),
    PadNewline,
    PadBackspace,
}

/// The item on screen is scaffolded.
pub open spec fn on_screen_scaffolded(st: ReviewState) -> bool {
    &&& st.card_idx < st.session@.len()
    &&& st.item_idx < st.session@[st.card_idx as int].items@.len()
    &&& st.session@[st.card_idx as int].items@[st.item_idx as int].scaffold_state == ScaffoldState::Scaffolded
}

/// The confidence a digit key gives, 1 to 4.
pub open spec fn digit_rating(key: Key) -> Option<u8> {
    if key == Key::Char('1') {
        Some(1u8)
    } else if key == Key::Char('2') {
        Some(2u8)
    } else if key == Key::Char('3') {
        Some(3u8)
    } else if key == Key::Char('4') {
        Some(4u8)
    } else {
        None
    }
}

/// What a key does on the review screen. The leech prompt, when open, takes
/// every key: `1` marks the blind spot, `2` splits a step in two, `c`, Esc
/// or Enter move on. The
/// weak-span prompt next: `j`/`l`/Down/Right and `k`/`h`/Up/Left move the
/// cursor, space toggles a word, Enter marks the phrase, Esc closes it.
/// While the scratchpad has the keys, characters, Enter and Backspace edit
/// it and Tab gives the keys back to the card. Otherwise: a scaffolded
/// item, once shown, takes only `1` (fail) and `3` (pass); `q` or Esc go
/// back; Enter or space show the answer; `1` to `4` rate a shown answer;
/// `j`/Down and `k`/Up scroll; `o` opens a shown answer's image; `e` edits
/// the card; `f` opens or hides the scratchpad, and Tab moves the keys to it.
pub open spec fn review_command_spec(st: ReviewState, key: Key) -> ReviewCommand {
    let done = st.card_idx >= st.session@.len();
    let shown = st.phase == ReviewPhase::Revealed;
    if st.leech_prompt is Some {
        if key == Key::Char('1') {
            ReviewCommand::MarkBlindSpot
        } else if key == Key::Char('2') && st.leech_prompt->0.is_step {
            ReviewCommand::SplitStep
        } else if key == Key::Char('c') || key == Key::Esc || key == Key::Enter {
            ReviewCommand::IgnoreLeech
        } else {
            ReviewCommand::Nothing
        }
    } else if st.weak_span_prompt is Some {
        if key == Key::Char('j') || key == Key::Down || key == Key::Char('l') || key == Key::Right {
            ReviewCommand::SpanCursor(1i32)
        } else if key == Key::Char('k') || key == Key::Up || key == Key::Char('h') || key == Key::Left {
            ReviewCommand::SpanCursor(-1i32)
        } else if key == Key::Char(' ') {
            ReviewCommand::SpanToggle
        } else if key == Key::Enter {
            ReviewCommand::SpanCommit
        } else if key == Key::Esc {
            ReviewCommand::SpanDone
        } else {
            ReviewCommand::Nothing
        }
    } else if st.scratchpad_open && st.focus == ReviewFocus::Scratchpad {
        match key {
            Key::Tab => ReviewCommand::PadFocus,
            Key::Enter => ReviewCommand::PadNewline,
            Key::Backspace => ReviewCommand::PadBackspace,
            Key::Char(c) => ReviewCommand::PadChar(c),
            _ => ReviewCommand::Nothing,
        }
    } else if on_screen_scaffolded(st) && shown && (key == Key::Char('1') || key == Key::Char('3')) {
        ReviewCommand::Rate(digit_rating(key)->0)
    } else if on_screen_scaffolded(st) && shown && (key == Key::Char('2') || key == Key::Char('4')) {
        ReviewCommand::Nothing
    } else if key == Key::Char('q') || key == Key::Esc {
        ReviewCommand::GoBack
    } else if (key == Key::Enter || key == Key::Char(' ')) && !done {
        ReviewCommand::ShowAnswer
    } else if digit_rating(key) is Some && !done && shown {
        ReviewCommand::Rate(digit_rating(key)->0)
    } else if key == Key::Char('j') || key == Key::Down {
        ReviewCommand::ScrollDown
    } else if key == Key::Char('k') || key == Key::Up {
        ReviewCommand::ScrollUp
    } else if key == Key::Char('o') && shown && !done {
        ReviewCommand::OpenImage
    } else if key == Key::Char('e') && !done {
        ReviewCommand::EditCard
    } else if key == Key::Char('f') {
        ReviewCommand::TogglePad
    } else if key == Key::Tab {
        ReviewCommand::PadFocus
    } else {
        ReviewCommand::Nothing
    }
}

fn digit_key(key: Key) -> (r: Option<u8>)
    ensures
        r == digit_rating(key),
{
    if key == Key::Char('1') {
        Some(1)
    } else if key == Key::Char('2') {
        Some(2)
    } else if key == Key::Char('3') {
        Some(3)
    } else if key == Key::Char('4') {
        Some(4)
    } else {
        None
    }
}

impl ReviewState {
    /// What a key asks of the review screen (see `review_command_spec`).
    pub fn review_command(&self, key: Key) -> (c: ReviewCommand)
        ensures
            c == review_command_spec(*self, key),
    {
        let done = self.card_idx >= self.session.len();
        let shown = self.phase == ReviewPhase::Revealed;
        if self.leech_prompt.is_some() {
            let is_step = match &self.leech_prompt {
                Some(p) => p.is_step,
                None => false,
            };
            if key == Key::Char('1') {
                ReviewCommand::MarkBlindSpot
            } else if key == Key::Char('2') && is_step {
                ReviewCommand::SplitStep
            } else if key == Key::Char('c') || key == Key::Esc || key == Key::Enter {
                ReviewCommand::IgnoreLeech
            } else {
                ReviewCommand::Nothing
            }
        } else if self.weak_span_prompt.is_some() {
            if key == Key::Char('j') || key == Key::Down || key == Key::Char('l') || key == Key::Right {
                ReviewCommand::SpanCursor(1i32)
            } else if key == Key::Char('k') || key == Key::Up || key == Key::Char('h') || key == Key::Left {
                ReviewCommand::SpanCursor(-1i32)
            } else if key == Key::Char(' ') {
                ReviewCommand::SpanToggle
            } else if key == Key::Enter {
                ReviewCommand::SpanCommit
            } else if key == Key::Esc {
                ReviewCommand::SpanDone
            } else {
                ReviewCommand::Nothing
            }
        } else if self.scratchpad_open && self.focus == ReviewFocus::Scratchpad {
            match key {
                Key::Tab => ReviewCommand::PadFocus,
                Key::Enter => ReviewCommand::PadNewline,
                Key::Backspace => ReviewCommand::PadBackspace,
                Key::Char(c) => ReviewCommand::PadChar(c),
                _ => ReviewCommand::Nothing,
            }
        } else {
            let scaffolded = !done && self.item_idx < self.session[self.card_idx].items.len()
                && self.session[self.card_idx].items[self.item_idx].scaffold_state.is_scaffolded();
            let digit = digit_key(key);
            if scaffolded && shown && (key == Key::Char('1') || key == Key::Char('3')) {
                ReviewCommand::Rate(if key == Key::Char('1') {
                    1
                } else {
                    3
                })
            } else if scaffolded && shown && (key == Key::Char('2') || key == Key::Char('4')) {
                ReviewCommand::Nothing
            } else if key == Key::Char('q') || key == Key::Esc {
                ReviewCommand::GoBack
            } else if (key == Key::Enter || key == Key::Char(' ')) && !done {
                ReviewCommand::ShowAnswer
            } else if digit.is_some() && !done && shown {
                ReviewCommand::Rate(digit.unwrap())
            } else if key == Key::Char('j') || key == Key::Down {
                ReviewCommand::ScrollDown
            } else if key == Key::Char('k') || key == Key::Up {
                ReviewCommand::ScrollUp
            } else if key == Key::Char('o') && shown && !done {
                ReviewCommand::OpenImage
            } else if key == Key::Char('e') && !done {
                ReviewCommand::EditCard
            } else if key == Key::Char('f') {
                ReviewCommand::TogglePad
            } else if key == Key::Tab {
                ReviewCommand::PadFocus
            } else {
                ReviewCommand::Nothing
            }
        }
    }

    /// Scrolls the answer one line down (up to the largest offset).
    pub fn scroll_down(&mut self)
        ensures
            *final(self) == (ReviewState {
                answer_scroll: if old(self).answer_scroll < u16::MAX {
                    (old(self).answer_scroll + 1) as u16
                } else {
                    u16::MAX
                },
                ..*old(self)
            }),
    {
        self.answer_scroll = if self.answer_scroll < u16::MAX {
            self.answer_scroll + 1
        } else {
            u16::MAX
        };
    }

    /// Scrolls the answer one line up (down to the top).
    pub fn scroll_up(&mut self)
        ensures
            *final(self) == (ReviewState {
                answer_scroll: if old(self).answer_scroll > 0 {
                    (old(self).answer_scroll - 1) as u16
                } else {
                    0u16
                },
                ..*old(self)
            }),
    {
        self.answer_scroll = if self.answer_scroll > 0 {
            self.answer_scroll - 1
        } else {
            0
        };
    }
}

// ~~~ the progress counts ~~~~~~~~~~~~~~~~~~~~~~~~~~~~~~~~~~~~~~~~~~~~~~~~~~~~~

/// 1 while a rating waits on a prompt, else 0.
pub open spec fn pending(st: ReviewState) -> int {
    if st.leech_prompt is Some || st.weak_span_prompt is Some {
        1
    } else {
        0
    }
}

/// The session's bookkeeping is in order: the cursor stands on an item of
/// a path (or past the last path), every path still ahead has items, at
/// most one prompt is open, and the total is what was done plus what is
/// still ahead (a rating waiting on a prompt is already counted as done
/// while its item is still under the cursor).
pub open spec fn consistent(st: ReviewState) -> bool {
    &&& st.card_idx <= st.session@.len()
    &&& forall|k: int| st.card_idx <= k < st.session@.len() ==> (#[trigger] st.session@[k]).items@.len() > 0
    &&& st.card_idx < st.session@.len() ==> st.item_idx < st.session@[st.card_idx as int].items@.len()
    &&& st.card_idx == st.session@.len() ==> st.item_idx == 0 && pending(st) == 0
    &&& !(st.leech_prompt is Some && st.weak_span_prompt is Some)
    &&& st.total_items + pending(st) == st.done_items + ahead(st.session@, st.card_idx as int, st.item_idx as int)
}

/// A consistent session never counts more done than in total, and once it
/// is over the two are equal.
pub proof fn lemma_consistent_counts(st: ReviewState)
    requires
        consistent(st),
    ensures
        st.done_items <= st.total_items,
        st.card_idx >= st.session@.len() ==> st.done_items == st.total_items,
{
    if st.card_idx < st.session@.len() {
        lemma_ahead_next(st.session@, st.card_idx as int, st.item_idx as int);
        lemma_ahead_nonneg(st.session@, st.card_idx + 1);
    }
}

proof fn lemma_item_total_single(x: ReviewCard)
    ensures
        item_total(seq![x]) == x.items@.len(),
{
    assert(seq![x].drop_last() =~= Seq::<ReviewCard>::empty());
    assert(item_total(seq![x].drop_last()) == 0);
}

proof fn lemma_ahead_nonneg(s: Seq<ReviewCard>, c: int)
    ensures
        ahead(s, c, 0) >= 0,
        0 <= c <= s.len() ==> ahead(s, c, 0) == item_total(s.skip(c)),
{
    if 0 <= c < s.len() {
        assert(s =~= s.take(c) + s.skip(c));
        lemma_item_total_concat(s.take(c), s.skip(c));
        lemma_item_total_nonneg(s.take(c));
        lemma_item_total_nonneg(s.skip(c));
    }
    if c == s.len() {
        assert(s.skip(c) =~= Seq::<ReviewCard>::empty());
    }
}

proof fn lemma_item_total_nonneg(s: Seq<ReviewCard>)
    ensures
        item_total(s) >= 0,
{
}

/// Stepping over the path at `c`: what is ahead from item `i` of it is the
/// rest of that path plus everything from the next path on.
pub proof fn lemma_ahead_next(s: Seq<ReviewCard>, c: int, i: int)
    requires
        0 <= c < s.len(),
        0 <= i < s[c].items@.len(),
    ensures
        ahead(s, c, i) == s[c].items@.len() - i + ahead(s, c + 1, 0),
{
    assert(s.skip(c) =~= seq![s[c]] + s.skip(c + 1));
    lemma_item_total_concat(seq![s[c]], s.skip(c + 1));
    lemma_item_total_single(s[c]);
    lemma_ahead_nonneg(s, c + 1);
}

/// Finishing a rating whose item is already counted as done puts the counts
/// back in order.
proof fn lemma_finished_consistent(a: ReviewState, b: ReviewState, card_id: Seq<char>, confidence: u8, is_step: bool, is_last_item: bool, requeue: Option<String>)
    requires
        a.card_idx < a.session@.len(),
        a.item_idx < a.session@[a.card_idx as int].items@.len(),
        forall|k: int| a.card_idx <= k < a.session@.len() ==> (#[trigger] a.session@[k]).items@.len() > 0,
        a.leech_prompt is None,
        a.weak_span_prompt is None,
        a.total_items + 1 == a.done_items + ahead(a.session@, a.card_idx as int, a.item_idx as int),
        finished(a, b, card_id, confidence, is_step, is_last_item, requeue),
    ensures
        consistent(b),
{
    let s = a.session@;
    let c = a.card_idx as int;
    lemma_ahead_next(s, c, a.item_idx as int);
    if a.item_idx + 1 < s[c].items@.len() && !(is_step && confidence == 1) {
        lemma_ahead_next(s, c, a.item_idx + 1);
    }
}

/// No two paths waiting from position `from` on are for the same card and
/// the same target.
pub open spec fn never_twice(s: Seq<ReviewCard>, from: int) -> bool {
    forall|a: int, b: int|
        from <= a < b < s.len() ==> !(#[trigger] s[a].card.id@ == #[trigger] s[b].card.id@ && target_of(s[a])
            == target_of(s[b]))
}

/// Requeueing the due paths of a card never queues the same path twice:
/// when no path waits twice before, none does after.
pub proof fn lemma_requeue_never_twice(s: Seq<ReviewCard>, from: int, card_id: Seq<char>, fresh: Seq<ReviewCard>)
    requires
        0 <= from,
        never_twice(s, from),
        forall|k: int| 0 <= k < fresh.len() ==> (#[trigger] fresh[k]).card.id@ == card_id,
    ensures
        never_twice(requeued(s, from, card_id, fresh), from),
    decreases fresh.len(),
{
    if fresh.len() > 0 {
        let before = requeued(s, from, card_id, fresh.drop_last());
        assert forall|k: int| 0 <= k < fresh.drop_last().len() implies (#[trigger] fresh.drop_last()[k]).card.id@
            == card_id by {
            assert(fresh.drop_last()[k] == fresh[k]);
        }
        lemma_requeue_never_twice(s, from, card_id, fresh.drop_last());
        let last = fresh.last();
        assert(last == fresh[fresh.len() - 1]);
        if !queued(before, from, card_id, target_of(last)) {
            let r = before.push(last);
            assert(requeued(s, from, card_id, fresh) == r);
            assert forall|a: int, b: int| from <= a < b < r.len() implies !(#[trigger] r[a].card.id@
                == #[trigger] r[b].card.id@ && target_of(r[a]) == target_of(r[b])) by {
                if b == r.len() - 1 {
                    assert(r[a] == before[a]);
                    assert(r[b] == last);
                    if r[a].card.id@ == r[b].card.id@ && target_of(r[a]) == target_of(r[b]) {
                        assert(before[a].card.id@ == card_id);
                        assert(queued(before, from, card_id, target_of(last)));
                    }
                } else {
                    assert(r[a] == before[a] && r[b] == before[b]);
                }
            }
        }
    }
}

/// Requeueing only appends, and only paths it was given.
pub proof fn lemma_requeued(s: Seq<ReviewCard>, from: int, card_id: Seq<char>, fresh: Seq<ReviewCard>)
    ensures
        s.len() <= requeued(s, from, card_id, fresh).len(),
        requeued(s, from, card_id, fresh).take(s.len() as int) == s,
        forall|k: int|
            s.len() <= k < requeued(s, from, card_id, fresh).len() ==> fresh.contains(
                #[trigger] requeued(s, from, card_id, fresh)[k],
            ),
    decreases fresh.len(),
{
    let r = requeued(s, from, card_id, fresh);
    if fresh.len() == 0 {
        assert(s.take(s.len() as int) =~= s);
    } else {
        let before = requeued(s, from, card_id, fresh.drop_last());
        lemma_requeued(s, from, card_id, fresh.drop_last());
        assert forall|k: int| s.len() <= k < r.len() implies fresh.contains(#[trigger] r[k]) by {
            if k < before.len() {
                assert(r[k] == before[k]);
                assert(fresh.drop_last().contains(before[k]));
                let q = choose|q: int| 0 <= q < fresh.drop_last().len() && fresh.drop_last()[q] == before[k];
                assert(fresh[q] == r[k]);
            } else {
                assert(r[k] == fresh.last());
                assert(fresh[fresh.len() - 1] == r[k]);
            }
        }
        assert(r.take(s.len() as int) =~= s) by {
            assert(before.take(s.len() as int) =~= s);
        }
    }
}

fn text_listed(v: &Vec<String>, s: &str) -> (b: bool)
    ensures
        b == v@.map_values(|x: String| x@).contains(s@),
{
    let ghost names = v@.map_values(|x: String| x@);
    let mut k: usize = 0;
    while k < v.len()
        invariant
            names == v@.map_values(|x: String| x@),
            k <= v@.len(),
            forall|q: int| 0 <= q < k ==> names[q] != s@,
        decreases v@.len() - k,
    {
        if same_text(v[k].as_str(), s) {
            assert(names[k as int] == s@);
            return true;
        }
        k += 1;
    }
    false
}

fn same_target(a: &ReviewCard, b: &ReviewCard) -> (r: bool)
    ensures
        r == (target_of(*a) == target_of(*b)),
{
    let na = a.items.len();
    let nb = b.items.len();
    if na == 0 || nb == 0 {
        return na == 0 && nb == 0;
    }
    same_text(a.items[na - 1].id.as_str(), b.items[nb - 1].id.as_str())
}

proof fn lemma_item_total_prefix(s: Seq<ReviewCard>, k: int)
    requires
        0 <= k <= s.len(),
    ensures
        item_total(s.take(k)) <= item_total(s),
    decreases s.len(),
{
    if k < s.len() {
        assert(s.drop_last().take(k) =~= s.take(k));
        lemma_item_total_prefix(s.drop_last(), k);
    } else {
        assert(s.take(k) =~= s);
    }
}

proof fn lemma_item_total_push(s: Seq<ReviewCard>, rc: ReviewCard)
    ensures
        item_total(s.push(rc)) == item_total(s) + rc.items@.len(),
{
    assert(s.push(rc).drop_last() =~= s);
}

// ~~~ what the review screen shows of a path ~~~~~~~~~~~~~~~~~~~~~~~~~~~~~~~~~~~

/// How step `n` (counted from 1) of a path is titled: an automatic
/// "Step N" label as it is, a named step as "N. name".
pub open spec fn step_title(prompt: Seq<char>, n: nat) -> Seq<char> {
    if n >= 1 && prompt == auto_label((n - 1) as nat) {
        prompt
    } else {
        decimal(n) + ". "@ + prompt
    }
}

pub fn step_label(prompt: &str, n: usize) -> (r: String)
    requires
        n >= 1,
    ensures
        r@ == step_title(prompt@, n as nat),
{
    let mut auto = String::new();
    push_all(&mut auto, "Step ");
    push_decimal(&mut auto, n);
    assert(auto@ =~= auto_label((n - 1) as nat));
    if same_text(prompt, auto.as_str()) {
        auto
    } else {
        let mut r = String::new();
        push_decimal(&mut r, n);
        push_all(&mut r, ". ");
        push_all(&mut r, prompt);
        assert(r@ =~= decimal(n as nat) + ". "@ + prompt@);
        r
    }
}

/// Where a step of the path on screen stands.
#[derive(Debug, Clone, Copy, PartialEq, Eq, Structural)]
pub enum Crumb {
    /// already passed in this walk of the path
    Passed,
    /// the step being asked now
    Current,
    /// still to come
    Ahead,
}

pub open spec fn crumb_at(k: int, current: int) -> Crumb {
    if k < current {
        Crumb::Passed
    } else if k == current {
        Crumb::Current
    } else {
        Crumb::Ahead
    }
}

/// One mark per step of a path of `n` steps whose step `current` is asked.
pub fn crumbs(n: usize, current: usize) -> (r: Vec<Crumb>)
    ensures
        r@.len() == n,
        forall|k: int| 0 <= k < n ==> #[trigger] r@[k] == crumb_at(k, current as int),
{
    let mut r: Vec<Crumb> = Vec::new();
    let mut k: usize = 0;
    while k < n
        invariant
            k <= n,
            r@.len() == k,
            forall|j: int| 0 <= j < k ==> #[trigger] r@[j] == crumb_at(j, current as int),
        decreases n - k,
    {
        let c = if k < current {
            Crumb::Passed
        } else if k == current {
            Crumb::Current
        } else {
            Crumb::Ahead
        };
        r.push(c);
        k += 1;
    }
    r
}

} // verus!
