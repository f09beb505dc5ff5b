//! The card editor: the form fields, the step tree under construction, and
//! where the next new step attaches.

use vstd::prelude::*;
use crate::models::{Card, CardKind, Item, ItemKind, ReviewMode, StepDraft, copy_opt_string};
use crate::drafts::{
    add_child, insert_after, remove_splice, remove_subtree, child_count, outline, check_branch_names,
    prune_blank, drafts_from_items, max_key, count_children, draft_depth, fresh_key, normalized,
    prune_from, unnamed_branch, is_linear, attach_point, full_view, tree_draft, first_key, index_of_key,
    relink_all, subtree_end_spec, links_known, spliced_in, lemma_insert_then_splice_restores, with_link,
};
use crate::tree::StepTree;
use crate::text::{
    chars_of, string_of, trim, trimmed, blank, is_blank, lowercase, to_lower, push_all, decimal,
    push_decimal, concat, has_substring, contains, edited, edited_text, same_text,
};
use crate::models::same_item;

verus! {

/// The kind of card being written.
#[derive(Debug, Clone, Copy, PartialEq, Eq, Structural)]
pub enum AddKind {
    Simple,
    Multi,
}

/// The editor first asks for the kind, then shows the form.
#[derive(Debug, Clone, Copy, PartialEq, Eq, Structural)]
pub enum AddPhase {
    PickType,
    FillForm,
}

/// The state of the card editor.
pub struct AddCardState {
    pub phase: AddPhase,
    pub kind: AddKind,
    /// the card being edited, when not writing a new one
    pub editing_card_id: Option<String>,
    pub deck: String,
    pub simple_question: String,
    pub multi_question: String,
    pub answer: String,
    pub reversible: bool,
    /// multi only: show the preceding steps' answers during review
    pub show_chain: bool,
    pub answer_image_path: Option<String>,
    pub step_image_path: Option<String>,
    /// the steps, a tree kept as a flat list in depth-first order
    pub steps: Vec<StepDraft>,
    /// where the next new step attaches, once set by a key: `Some(Some(key))`
    /// under that step, `Some(None)` as a new top-level path; `None` means
    /// the default (extend the selected step, or the end of the outline)
    pub pending_parent: Option<Option<u32>>,
    pub step_name_buf: String,
    pub step_buf: String,
    /// the highlighted row of the steps list
    pub step_selected: Option<usize>,
    pub editing_step_idx: Option<usize>,
    pub focused: usize,
    pub error: Option<String>,
    pub decks: Vec<String>,
    pub deck_list_idx: Option<usize>,
    pub review_mode: ReviewMode,
    /// opened from inside a review session, so saving returns there
    pub editing_from_review: bool,
    pub tags_buf: String,
}

/// The message when the deck is blank.
pub open spec fn deck_missing() -> Seq<char> {
    "Deck name cannot be empty."@
}

/// The first of the first `k` drafts stored as item `id`.
pub open spec fn first_stored(s: Seq<StepDraft>, id: Seq<char>, k: int) -> Option<int>
    decreases k,
{
    if k <= 0 {
        None
    } else {
        match first_stored(s, id, k - 1) {
            Some(j) => Some(j),
            None => if s[k - 1].db_id matches Some(x) && x@ == id {
                Some(k - 1)
            } else {
                None
            },
        }
    }
}

proof fn lemma_first_stored_found(s: Seq<StepDraft>, id: Seq<char>, k: int, n: int)
    requires
        0 <= k < n <= s.len(),
        first_stored(s, id, k) is None,
        s[k].db_id matches Some(x) && x@ == id,
    ensures
        first_stored(s, id, n) == Some(k),
    decreases n - k,
{
    if n > k + 1 {
        lemma_first_stored_found(s, id, k, n - 1);
    }
}

impl AddCardState {
    /// A fresh editor, asking for the kind of card.
    pub fn new(decks: Vec<String>) -> (s: AddCardState)
        ensures
            s.phase == AddPhase::PickType,
            s.kind == AddKind::Simple,
            s.editing_card_id is None,
            s.deck@.len() == 0,
            s.simple_question@.len() == 0,
            s.multi_question@.len() == 0,
            s.answer@.len() == 0,
            !s.reversible,
            s.show_chain,
            s.answer_image_path is None,
            s.step_image_path is None,
            s.steps@.len() == 0,
            s.pending_parent is None,
            s.step_name_buf@.len() == 0,
            s.step_buf@.len() == 0,
            s.step_selected is None,
            s.editing_step_idx is None,
            s.focused == 0,
            s.error is None,
            s.decks == decks,
            s.deck_list_idx is None,
            s.review_mode == ReviewMode::SpacedRepetition,
            !s.editing_from_review,
            s.tags_buf@.len() == 0,
    {
        AddCardState {
            phase: AddPhase::PickType,
            kind: AddKind::Simple,
            editing_card_id: None,
            deck: String::new(),
            simple_question: String::new(),
            multi_question: String::new(),
            answer: String::new(),
            reversible: false,
            show_chain: true,
            answer_image_path: None,
            step_image_path: None,
            steps: Vec::new(),
            pending_parent: None,
            step_name_buf: String::new(),
            step_buf: String::new(),
            step_selected: None,
            editing_step_idx: None,
            focused: 0,
            error: None,
            decks,
            deck_list_idx: None,
            review_mode: ReviewMode::SpacedRepetition,
            editing_from_review: false,
            tags_buf: String::new(),
        }
    }

    // ~~ form fields ~~

    /// How many fields the form has. Simple: deck, question, answer,
    /// reversible, daily, tags, Save. Multi: deck, question, step name,
    /// step answer, Add step, steps list, show chain, daily, tags, Save.
    pub open spec fn field_count_spec(&self) -> usize {
        match self.kind {
            AddKind::Simple => 7,
            AddKind::Multi => 10,
        }
    }

    pub fn field_count(&self) -> (n: usize)
        ensures
            n == self.field_count_spec(),
    {
        match self.kind {
            AddKind::Simple => 7,
            AddKind::Multi => 10,
        }
    }

    /// Focus moves to the next field, wrapping around.
    pub fn next_field(&mut self)
        requires
            old(self).focused < usize::MAX,
        ensures
            final(self).focused == (old(self).focused + 1) % old(self).field_count_spec() as int,
            *final(self) == (AddCardState { focused: final(self).focused, ..*old(self) }),
    {
        let n = self.field_count();
        self.focused = (self.focused + 1) % n;
    }

    /// Focus moves to the previous field, wrapping around.
    pub fn prev_field(&mut self)
        ensures
            final(self).focused == if old(self).focused == 0 {
                old(self).field_count_spec() - 1
            } else {
                old(self).focused - 1
            },
            *final(self) == (AddCardState { focused: final(self).focused, ..*old(self) }),
    {
        let n = self.field_count();
        self.focused = if self.focused == 0 {
            n - 1
        } else {
            self.focused - 1
        };
    }

    pub fn is_save(&self) -> (b: bool)
        ensures
            b == (self.focused == self.field_count_spec() - 1),
    {
        self.focused == self.field_count() - 1
    }

    pub fn is_reversible(&self) -> (b: bool)
        ensures
            b == (self.kind == AddKind::Simple && self.focused == 3),
    {
        self.kind == AddKind::Simple && self.focused == 3
    }

    pub fn is_daily_toggle(&self) -> (b: bool)
        ensures
            b == match self.kind {
                AddKind::Simple => self.focused == 4,
                AddKind::Multi => self.focused == 7,
            },
    {
        match self.kind {
            AddKind::Simple => self.focused == 4,
            AddKind::Multi => self.focused == 7,
        }
    }

    pub fn is_step_name(&self) -> (b: bool)
        ensures
            b == (self.kind == AddKind::Multi && self.focused == 2),
    {
        self.kind == AddKind::Multi && self.focused == 2
    }

    pub fn is_add_step_button(&self) -> (b: bool)
        ensures
            b == (self.kind == AddKind::Multi && self.focused == 4),
    {
        self.kind == AddKind::Multi && self.focused == 4
    }

    pub fn is_steps_list(&self) -> (b: bool)
        ensures
            b == (self.kind == AddKind::Multi && self.focused == 5),
    {
        self.kind == AddKind::Multi && self.focused == 5
    }

    pub fn is_show_chain(&self) -> (b: bool)
        ensures
            b == (self.kind == AddKind::Multi && self.focused == 6),
    {
        self.kind == AddKind::Multi && self.focused == 6
    }

    /// The fields that take several lines: question and answer (simple),
    /// question and step answer (multi).
    pub fn is_multiline_field(&self) -> (b: bool)
        ensures
            b == match self.kind {
                AddKind::Simple => self.focused == 1 || self.focused == 2,
                AddKind::Multi => self.focused == 1 || self.focused == 3,
            },
    {
        match self.kind {
            AddKind::Simple => self.focused == 1 || self.focused == 2,
            AddKind::Multi => self.focused == 1 || self.focused == 3,
        }
    }

    /// The text field that has the focus: 0 deck, 1 simple question,
    /// 2 answer, 3 tags (simple); 0 deck, 4 multi question, 5 step name,
    /// 6 step answer, 3 tags (multi); none for buttons, toggles and lists.
    pub open spec fn active_field(&self) -> Option<int> {
        match self.kind {
            AddKind::Simple => if self.focused == 0 {
                Some(0)
            } else if self.focused == 1 {
                Some(1)
            } else if self.focused == 2 {
                Some(2)
            } else if self.focused == 5 {
                Some(3)
            } else {
                None
            },
            AddKind::Multi => if self.focused == 0 {
                Some(0)
            } else if self.focused == 1 {
                Some(4)
            } else if self.focused == 2 {
                Some(5)
            } else if self.focused == 3 {
                Some(6)
            } else if self.focused == 8 {
                Some(3)
            } else {
                None
            },
        }
    }

    /// The text of field `f` (as numbered by `active_field`).
    pub open spec fn field_text(&self, f: int) -> Seq<char> {
        if f == 0 {
            self.deck@
        } else if f == 1 {
            self.simple_question@
        } else if f == 2 {
            self.answer@
        } else if f == 3 {
            self.tags_buf@
        } else if f == 4 {
            self.multi_question@
        } else if f == 5 {
            self.step_name_buf@
        } else {
            self.step_buf@
        }
    }

    /// Applies `edit` to the focused text field.
    fn edit_active(&mut self, c: Option<char>)
        ensures
            final(self).error == old(self).error,
            final(self).deck_list_idx == old(self).deck_list_idx,
            final(self).kind == old(self).kind,
            final(self).focused == old(self).focused,
            final(self).steps == old(self).steps,
            forall|f: int|
                0 <= f < 7 ==> #[trigger] final(self).field_text(f) == if old(self).active_field() == Some(f) {
                    match c {
                        Some(ch) => old(self).field_text(f).push(ch),
                        None => if old(self).field_text(f).len() > 0 {
                            old(self).field_text(f).drop_last()
                        } else {
                            old(self).field_text(f)
                        },
                    }
                } else {
                    old(self).field_text(f)
                },
    {
        let simple = match self.kind {
            AddKind::Simple => true,
            AddKind::Multi => false,
        };
        let f = self.focused;
        if simple {
            if f == 0 {
                edit_text(&mut self.deck, c);
            } else if f == 1 {
                edit_text(&mut self.simple_question, c);
            } else if f == 2 {
                edit_text(&mut self.answer, c);
            } else if f == 5 {
                edit_text(&mut self.tags_buf, c);
            }
        } else {
            if f == 0 {
                edit_text(&mut self.deck, c);
            } else if f == 1 {
                edit_text(&mut self.multi_question, c);
            } else if f == 2 {
                edit_text(&mut self.step_name_buf, c);
            } else if f == 3 {
                edit_text(&mut self.step_buf, c);
            } else if f == 8 {
                edit_text(&mut self.tags_buf, c);
            }
        }
    }

    /// Types a character into the focused text field (if any).
    pub fn push_char(&mut self, c: char)
        ensures
            final(self).kind == old(self).kind,
            final(self).focused == old(self).focused,
            forall|f: int|
                0 <= f < 7 ==> #[trigger] final(self).field_text(f) == if old(self).active_field() == Some(f) {
                    old(self).field_text(f).push(c)
                } else {
                    old(self).field_text(f)
                },
    {
        self.edit_active(Some(c));
    }

    /// Deletes the last character of the focused text field (if any).
    pub fn pop_char(&mut self)
        ensures
            final(self).kind == old(self).kind,
            final(self).focused == old(self).focused,
            forall|f: int|
                0 <= f < 7 ==> #[trigger] final(self).field_text(f) == if old(self).active_field() == Some(f)
                    && old(self).field_text(f).len() > 0 {
                    old(self).field_text(f).drop_last()
                } else {
                    old(self).field_text(f)
                },
    {
        self.edit_active(None);
    }

    /// The text of the focused multi-line field, to hand to an outside
    /// editor.
    pub fn multiline_text(&self) -> (r: Option<String>)
        ensures
            r is Some == match self.kind {
                AddKind::Simple => self.focused == 1 || self.focused == 2,
                AddKind::Multi => self.focused == 1 || self.focused == 3,
            },
            r matches Some(t) ==> self.active_field() is Some && t@ == self.field_text(self.active_field()->0),
    {
        match self.kind {
            AddKind::Simple => if self.focused == 1 {
                Some(self.simple_question.clone())
            } else if self.focused == 2 {
                Some(self.answer.clone())
            } else {
                None
            },
            AddKind::Multi => if self.focused == 1 {
                Some(self.multi_question.clone())
            } else if self.focused == 3 {
                Some(self.step_buf.clone())
            } else {
                None
            },
        }
    }

    /// Puts what an outside editor handed back into the focused multi-line
    /// field (as `edited_text` reads it); every other field stays.
    pub fn take_external_edit(&mut self, result: &str)
        ensures
            final(self).kind == old(self).kind,
            final(self).focused == old(self).focused,
            final(self).steps == old(self).steps,
            forall|f: int|
                0 <= f < 7 ==> #[trigger] final(self).field_text(f) == if old(self).active_field() == Some(f) && match old(
                    self,
                ).kind {
                    AddKind::Simple => old(self).focused == 1 || old(self).focused == 2,
                    AddKind::Multi => old(self).focused == 1 || old(self).focused == 3,
                } {
                    edited_text(old(self).field_text(f), result@)
                } else {
                    old(self).field_text(f)
                },
    {
        match self.kind {
            AddKind::Simple => if self.focused == 1 {
                self.simple_question = edited(self.simple_question.as_str(), result);
            } else if self.focused == 2 {
                self.answer = edited(self.answer.as_str(), result);
            },
            AddKind::Multi => if self.focused == 1 {
                self.multi_question = edited(self.multi_question.as_str(), result);
            } else if self.focused == 3 {
                self.step_buf = edited(self.step_buf.as_str(), result);
            },
        }
    }

    /// A typed character: any error shown is cleared, typing into the deck
    /// field drops the highlighted suggestion, and the character goes to
    /// the focused field (as `push_char` says).
    pub fn type_char(&mut self, c: char)
        ensures
            final(self).error is None,
            final(self).deck_list_idx == if old(self).focused == 0 {
                None
            } else {
                old(self).deck_list_idx
            },
            final(self).kind == old(self).kind,
            final(self).focused == old(self).focused,
            final(self).steps == old(self).steps,
            forall|f: int|
                0 <= f < 7 ==> #[trigger] final(self).field_text(f) == if old(self).active_field() == Some(f) {
                    old(self).field_text(f).push(c)
                } else {
                    old(self).field_text(f)
                },
    {
        if self.focused == 0 {
            self.deck_list_idx = None;
        }
        self.error = None;
        self.edit_active(Some(c));
    }

    /// Backspace: any error shown is cleared, in the deck field the
    /// highlighted suggestion is dropped, and the focused field loses its
    /// last character (as `pop_char` says).
    pub fn backspace(&mut self)
        ensures
            final(self).error is None,
            final(self).deck_list_idx == if old(self).focused == 0 {
                None
            } else {
                old(self).deck_list_idx
            },
            final(self).kind == old(self).kind,
            final(self).focused == old(self).focused,
            final(self).steps == old(self).steps,
            forall|f: int|
                0 <= f < 7 ==> #[trigger] final(self).field_text(f) == if old(self).active_field() == Some(f)
                    && old(self).field_text(f).len() > 0 {
                    old(self).field_text(f).drop_last()
                } else {
                    old(self).field_text(f)
                },
    {
        if self.focused == 0 {
            self.deck_list_idx = None;
        }
        self.error = None;
        self.edit_active(None);
    }

    /// A new line in a multi-line field: any error shown is cleared and the
    /// line break goes to the focused field.
    pub fn newline(&mut self)
        ensures
            final(self).error is None,
            final(self).deck_list_idx == old(self).deck_list_idx,
            final(self).kind == old(self).kind,
            final(self).focused == old(self).focused,
            final(self).steps == old(self).steps,
            forall|f: int|
                0 <= f < 7 ==> #[trigger] final(self).field_text(f) == if old(self).active_field() == Some(f) {
                    old(self).field_text(f).push('\n')
                } else {
                    old(self).field_text(f)
                },
    {
        self.error = None;
        self.edit_active(Some('\n'));
    }

    /// A click on one of the type picker's choices: that kind of card, and
    /// on to the form.
    pub fn pick_kind(&mut self, kind: AddKind)
        ensures
            *final(self) == (AddCardState { kind, phase: AddPhase::FillForm, ..*old(self) }),
    {
        self.kind = kind;
        self.phase = AddPhase::FillForm;
    }

    /// The type picker's highlight moves to `kind`.
    pub fn choose_kind(&mut self, kind: AddKind)
        ensures
            *final(self) == (AddCardState { kind, ..*old(self) }),
    {
        self.kind = kind;
    }

    /// From the type picker on to the form.
    pub fn start_form(&mut self)
        ensures
            *final(self) == (AddCardState { phase: AddPhase::FillForm, ..*old(self) }),
    {
        self.phase = AddPhase::FillForm;
    }

    /// A click on a toggle or a button: it takes the focus (the click then
    /// acts as the key that presses it).
    pub fn click_control(&mut self, idx: usize)
        ensures
            *final(self) == (AddCardState { focused: idx, ..*old(self) }),
    {
        self.focused = idx;
    }

    /// Highlights the first step stored as item `id`. Says whether there is
    /// one; without one nothing changes.
    pub fn select_stored_step(&mut self, id: &str) -> (found: bool)
        ensures
            found == (first_stored(old(self).steps@, id@, old(self).steps@.len() as int) is Some),
            *final(self) == match first_stored(old(self).steps@, id@, old(self).steps@.len() as int) {
                Some(k) => (AddCardState { step_selected: Some(k as usize), ..*old(self) }),
                None => *old(self),
            },
    {
        let n = self.steps.len();
        let mut k: usize = 0;
        while k < n
            invariant
                *self == *old(self),
                n == self.steps@.len(),
                k <= n,
                first_stored(self.steps@, id@, k as int) is None,
            decreases n - k,
        {
            let hit = match &self.steps[k].db_id {
                Some(x) => same_text(x.as_str(), id),
                None => false,
            };
            if hit {
                proof {
                    lemma_first_stored_found(self.steps@, id@, k as int, n as int);
                }
                self.step_selected = Some(k);
                return true;
            }
            k += 1;
        }
        false
    }

    /// A click on text field `idx`: it takes the focus, and leaving the
    /// deck field drops the highlighted suggestion.
    pub fn click_field(&mut self, idx: usize)
        ensures
            *final(self) == (AddCardState {
                focused: idx,
                deck_list_idx: if idx != 0 {
                    None
                } else {
                    old(self).deck_list_idx
                },
                ..*old(self)
            }),
    {
        self.focused = idx;
        if idx != 0 {
            self.deck_list_idx = None;
        }
    }

    /// A click on row `i` of the steps list: a row that is a step takes the
    /// focus and the highlight. Says whether it was one.
    pub fn click_step_row(&mut self, i: usize) -> (hit: bool)
        ensures
            hit == (i < old(self).steps@.len()),
            *final(self) == if hit {
                (AddCardState { focused: 5, step_selected: Some(i), ..*old(self) })
            } else {
                *old(self)
            },
    {
        if i < self.steps.len() {
            self.focused = 5;
            self.step_selected = Some(i);
            true
        } else {
            false
        }
    }

    /// A click on row `i` of the deck suggestions: a row that is a
    /// suggestion takes the focus and the highlight. Says whether it was one.
    pub fn click_suggestion(&mut self, i: usize) -> (hit: bool)
        ensures
            hit == (i < old(self).deck_matches().len()),
            *final(self) == if hit {
                (AddCardState { focused: 0, deck_list_idx: Some(i), ..*old(self) })
            } else {
                *old(self)
            },
    {
        let n = self.filtered_decks().len();
        if i < n {
            self.focused = 0;
            self.deck_list_idx = Some(i);
            true
        } else {
            false
        }
    }

    // ~~ the step tree ~~

    /// The highlighted step, when the highlight is on a step.
    pub open spec fn selected_spec(&self) -> Option<int> {
        match self.step_selected {
            Some(i) => if i < self.steps@.len() {
                Some(i as int)
            } else {
                None
            },
            None => None,
        }
    }

    pub fn selected_step(&self) -> (r: Option<usize>)
        ensures
            match r {
                Some(i) => self.selected_spec() == Some(i as int),
                None => self.selected_spec() is None,
            },
    {
        match self.step_selected {
            Some(i) => if i < self.steps.len() {
                Some(i)
            } else {
                None
            },
            None => None,
        }
    }

    /// Where a new step goes when no branch was asked for: under the
    /// selected step if it has no children (extending its chain), else
    /// after the last step of the outline (always a leaf), so a plain chain
    /// simply grows.
    pub open spec fn default_parent_spec(&self) -> Option<u32> {
        match self.selected_spec() {
            Some(i) => if count_children(self.steps@, Some(self.steps@[i].key)) == 0 {
                Some(self.steps@[i].key)
            } else if self.steps@.len() > 0 {
                Some(self.steps@.last().key)
            } else {
                None
            },
            None => if self.steps@.len() > 0 {
                Some(self.steps@.last().key)
            } else {
                None
            },
        }
    }

    pub fn default_parent(&self) -> (r: Option<u32>)
        ensures
            r == self.default_parent_spec(),
    {
        match self.selected_step() {
            Some(i) => {
                if child_count(self.steps.as_slice(), Some(self.steps[i].key)) == 0 {
                    return Some(self.steps[i].key);
                }
            },
            None => {},
        }
        let n = self.steps.len();
        if n > 0 {
            Some(self.steps[n - 1].key)
        } else {
            None
        }
    }

    /// The parent the next new step attaches to.
    pub open spec fn attach_parent(&self) -> Option<u32> {
        match self.pending_parent {
            Some(p) => p,
            None => self.default_parent_spec(),
        }
    }

    /// The key for a branch: the next step becomes a child of the selected
    /// step (a new branch when it already has children).
    pub fn begin_branch(&mut self)
        ensures
            match old(self).selected_spec() {
                Some(i) => {
                    &&& final(self).pending_parent == Some(Some(old(self).steps@[i].key))
                    &&& final(self).editing_step_idx is None
                    &&& final(self).step_name_buf@.len() == 0
                    &&& final(self).step_buf@.len() == 0
                    &&& final(self).step_image_path is None
                    &&& final(self).focused == 2
                },
                None => *final(self) == *old(self),
            },
            final(self).steps == old(self).steps,
            final(self).step_selected == old(self).step_selected,
            final(self).kind == old(self).kind,
    {
        match self.selected_step() {
            Some(i) => {
                self.pending_parent = Some(Some(self.steps[i].key));
                self.editing_step_idx = None;
                self.step_name_buf = String::new();
                self.step_buf = String::new();
                self.step_image_path = None;
                self.focused = 2;
            },
            None => {},
        }
    }

    /// The key for a new top-level path: the next step is an alternative
    /// answer to the question itself.
    pub fn begin_root_path(&mut self)
        ensures
            final(self).pending_parent == Some(None::<u32>),
            final(self).editing_step_idx is None,
            final(self).step_name_buf@.len() == 0,
            final(self).step_buf@.len() == 0,
            final(self).step_image_path is None,
            final(self).focused == 2,
            final(self).steps == old(self).steps,
            final(self).step_selected == old(self).step_selected,
            final(self).kind == old(self).kind,
    {
        self.pending_parent = Some(None);
        self.editing_step_idx = None;
        self.step_name_buf = String::new();
        self.step_buf = String::new();
        self.step_image_path = None;
        self.focused = 2;
    }

    /// Removes the selected step: alone (its children move up, nothing else
    /// is lost) or, `with_branch`, together with everything below it. The
    /// highlight stays on the same row (or the last one); a half-finished
    /// edit or pending target is dropped, since indices moved.
    pub fn delete_selected_step(&mut self, with_branch: bool)
        ensures
            match old(self).selected_spec() {
                Some(i) => {
                    let k = old(self).steps@[i].key;
                    &&& final(self).steps@ == if with_branch {
                        old(self).steps@.take(i) + old(self).steps@.skip(
                            crate::drafts::subtree_end_spec(old(self).steps@, i),
                        )
                    } else {
                        normalized(
                            crate::drafts::relink_all(old(self).steps@, Some(k), old(self).steps@[i].parent).remove(i),
                        )
                    }
                    &&& final(self).step_selected == if final(self).steps@.len() == 0 {
                        None
                    } else if i < final(self).steps@.len() {
                        Some(i as usize)
                    } else {
                        Some((final(self).steps@.len() - 1) as usize)
                    }
                    &&& final(self).editing_step_idx is None
                    &&& final(self).pending_parent is None
                    &&& final(self).step_name_buf@.len() == 0
                    &&& final(self).step_buf@.len() == 0
                },
                None => *final(self) == *old(self),
            },
            final(self).kind == old(self).kind,
    {
        let i = match self.selected_step() {
            Some(i) => i,
            None => {
                return;
            },
        };
        if with_branch {
            remove_subtree(&mut self.steps, i);
        } else {
            remove_splice(&mut self.steps, i);
        }
        let n = self.steps.len();
        self.step_selected = if n == 0 {
            None
        } else if i < n {
            Some(i)
        } else {
            Some(n - 1)
        };
        self.editing_step_idx = None;
        self.pending_parent = None;
        self.step_name_buf = String::new();
        self.step_buf = String::new();
    }

    /// The message of the first failed check before saving, if any.
    pub open spec fn validation(&self) -> Option<Seq<char>> {
        let q = match self.kind {
            AddKind::Simple => self.simple_question@,
            AddKind::Multi => self.multi_question@,
        };
        if is_blank(self.deck@) {
            Some(deck_missing())
        } else if is_blank(q) {
            Some("Question cannot be empty."@)
        } else {
            match self.kind {
                AddKind::Simple => if is_blank(self.answer@) {
                    Some("Answer cannot be empty."@)
                } else {
                    None
                },
                AddKind::Multi => if self.steps@.len() == 0 {
                    Some("Add at least one step (type in the step field, then press the Add step button)."@)
                } else if forall|k: int| 0 <= k < self.steps@.len() ==> is_blank(#[trigger] self.steps@[k].answer@) {
                    Some("Add at least one step with content."@)
                } else if exists|k: int|
                    0 <= k < normalized(prune_from(self.steps@, 0)).len() && #[trigger] unnamed_branch(
                        normalized(prune_from(self.steps@, 0)),
                        k,
                    ) {
                    Some(crate::drafts::branch_message())
                } else {
                    None
                },
            }
        }
    }

    /// Checks the form before saving: deck, question, answer or steps, and
    /// that sibling branches are named.
    pub fn validate(&self) -> (r: Result<(), &'static str>)
        ensures
            match r {
                Ok(()) => self.validation() is None,
                Err(m) => self.validation() == Some(m@),
            },
    {
        if blank(self.deck.as_str()) {
            return Err("Deck name cannot be empty.");
        }
        let q = match self.kind {
            AddKind::Simple => &self.simple_question,
            AddKind::Multi => &self.multi_question,
        };
        if blank(q.as_str()) {
            return Err("Question cannot be empty.");
        }
        match self.kind {
            AddKind::Simple => {
                if blank(self.answer.as_str()) {
                    Err("Answer cannot be empty.")
                } else {
                    Ok(())
                }
            },
            AddKind::Multi => {
                if self.steps.len() == 0 {
                    return Err("Add at least one step (type in the step field, then press the Add step button).");
                }
                let mut k: usize = 0;
                let mut all_blank = true;
                while k < self.steps.len()
                    invariant
                        k <= self.steps@.len(),
                        all_blank == forall|j: int| 0 <= j < k ==> is_blank(#[trigger] self.steps@[j].answer@),
                    decreases self.steps@.len() - k,
                {
                    if !blank(self.steps[k].answer.as_str()) {
                        all_blank = false;
                    }
                    k += 1;
                }
                if all_blank {
                    return Err("Add at least one step with content.");
                }
                let pruned = prune_blank(self.steps.as_slice());
                check_branch_names(pruned.as_slice())
            },
        }
    }
}

/// The text before the first line break.
pub open spec fn first_line(s: Seq<char>) -> Seq<char>
    decreases s.len(),
{
    if s.len() == 0 {
        s
    } else if s[0] == '\n' {
        seq![]
    } else {
        seq![s[0]] + first_line(s.drop_first())
    }
}

/// A label cut to at most 22 characters (21 and an ellipsis).
pub open spec fn short_label(l: Seq<char>) -> Seq<char> {
    if l.len() > 22 {
        l.take(21) + seq!['…']
    } else {
        l
    }
}

/// The hint for where the next new step attaches.
pub open spec fn hint_spec(s: AddCardState) -> Option<Seq<char>> {
    if s.editing_step_idx is Some || s.steps@.len() == 0 {
        None
    } else {
        match s.attach_parent() {
            None => Some("new top-level path"@),
            Some(key) => match first_key(s.steps@, key) {
                None => None,
                Some(i) => {
                    let d = s.steps@[i];
                    let label = if is_blank(d.name@) {
                        trim(first_line(d.answer@))
                    } else {
                        trim(d.name@)
                    };
                    Some(
                        (if count_children(s.steps@, Some(key)) > 0 {
                            "new branch under"@
                        } else {
                            "after"@
                        }) + " "@ + decimal(draft_depth(s.steps@, i) + 1) + ". "@ + short_label(label),
                    )
                },
            },
        }
    }
}

fn first_line_of(s: &str) -> (r: Vec<char>)
    ensures
        r@ == first_line(s@),
{
    let v = chars_of(s);
    let mut r: Vec<char> = Vec::new();
    let mut k: usize = 0;
    assert(v@.skip(0) =~= v@);
    assert(r@ + first_line(v@.skip(0)) =~= first_line(s@));
    while k < v.len() && v[k] != '\n'
        invariant
            v@ == s@,
            k <= v@.len(),
            forall|j: int| 0 <= j < k ==> v@[j] != '\n',
            r@ == v@.take(k as int),
            first_line(s@) == r@ + first_line(v@.skip(k as int)),
        decreases v@.len() - k,
    {
        proof {
            assert(v@.skip(k as int).drop_first() =~= v@.skip(k + 1));
            assert(v@.skip(k as int)[0] == v@[k as int]);
        }
        r.push(v[k]);
        k += 1;
        assert(r@ =~= v@.take(k as int));
        assert(first_line(s@) =~= r@ + first_line(v@.skip(k as int)));
    }
    proof {
        if k < v@.len() {
            assert(v@.skip(k as int)[0] == '\n');
        } else {
            assert(v@.skip(k as int).len() == 0);
        }
        assert(first_line(s@) =~= r@);
    }
    r
}

impl AddCardState {
    /// A short description of where the next new step will attach, for the
    /// step name box; `None` when there is nothing to say (no steps yet, or
    /// a step is being edited).
    pub fn attach_hint(&self) -> (r: Option<String>)
        requires
            self.steps@.len() + 1 < usize::MAX,
        ensures
            match r {
                Some(h) => hint_spec(*self) == Some(h@),
                None => hint_spec(*self) is None,
            },
    {
        if self.editing_step_idx.is_some() || self.steps.len() == 0 {
            return None;
        }
        let parent = match self.pending_parent {
            Some(p) => p,
            None => self.default_parent(),
        };
        let key = match parent {
            None => {
                let h = concat("new top-level path", "");
                proof {
                    reveal_strlit("");
                    assert(h@ =~= "new top-level path"@);
                }
                return Some(h);
            },
            Some(k) => k,
        };
        let i = match index_of_key(self.steps.as_slice(), key) {
            None => {
                return None;
            },
            Some(i) => i,
        };
        let rows = outline(self.steps.as_slice());
        let step_no = rows[i].step_no;
        let d = &self.steps[i];
        let label: Vec<char> = if blank(d.name.as_str()) {
            let fl = first_line_of(d.answer.as_str());
            let t = crate::text::trim_chars(&fl);
            t
        } else {
            chars_of(trimmed(d.name.as_str()).as_str())
        };
        let mut short: Vec<char> = Vec::new();
        if label.len() > 22 {
            let mut k: usize = 0;
            while k < 21
                invariant
                    label@.len() > 22,
                    k <= 21,
                    short@ == label@.take(k as int),
                decreases 21 - k,
            {
                short.push(label[k]);
                k += 1;
                assert(short@ =~= label@.take(k as int));
            }
            short.push('…');
        } else {
            short = label;
        }
        assert(short@ =~= short_label(label@));
        let has_kids = child_count(self.steps.as_slice(), Some(key)) > 0;
        let mut h = String::new();
        if has_kids {
            push_all(&mut h, "new branch under");
        } else {
            push_all(&mut h, "after");
        }
        push_all(&mut h, " ");
        push_decimal(&mut h, step_no);
        push_all(&mut h, ". ");
        let sl = string_of(&short);
        push_all(&mut h, sl.as_str());
        proof {
            assert(h@ =~= (if count_children(self.steps@, Some(key)) > 0 {
                "new branch under"@
            } else {
                "after"@
            }) + " "@ + decimal(draft_depth(self.steps@, i as int) + 1) + ". "@ + short_label(label@));
            reveal_strlit("");
        }
        Some(h)
    }

    /// What `commit_step` makes of the editor `s` (see there).
    pub open spec fn step_committed(s: AddCardState, t: AddCardState) -> bool {
        &&& t.step_image_path is None
        &&& t.kind == s.kind
        &&& ({
            let answer = trim(s.step_buf@);
            let name = trim(s.step_name_buf@);
            let img = s.step_image_path;
            if answer.len() > 0 {
                &&& t.step_name_buf@.len() == 0
                &&& t.step_buf@.len() == 0
                &&& match s.editing_step_idx {
                    Some(idx) => {
                        &&& t.editing_step_idx is None
                        &&& t.focused == 5
                        &&& t.pending_parent == s.pending_parent
                        &&& t.step_selected == s.step_selected
                        &&& if idx < s.steps@.len() {
                            &&& t.steps@.len() == s.steps@.len()
                            &&& forall|k: int|
                                0 <= k < s.steps@.len() && k != idx ==> #[trigger] t.steps@[k]
                                    == s.steps@[k]
                            &&& t.steps@[idx as int].key == s.steps@[idx as int].key
                            &&& t.steps@[idx as int].parent == s.steps@[idx as int].parent
                            &&& t.steps@[idx as int].db_id == s.steps@[idx as int].db_id
                            &&& t.steps@[idx as int].name@ == name
                            &&& t.steps@[idx as int].answer@ == answer
                            &&& t.steps@[idx as int].image == img
                        } else {
                            t.steps@ == s.steps@
                        }
                    },
                    None => {
                        let (par, at) = attach_point(s.steps@, s.attach_parent());
                        &&& t.pending_parent is None
                        &&& t.editing_step_idx is None
                        &&& t.focused == 3
                        &&& t.step_selected == Some(at as usize)
                        &&& t.steps@.len() == s.steps@.len() + 1
                        &&& forall|k: int| 0 <= k < at ==> #[trigger] t.steps@[k] == s.steps@[k]
                        &&& forall|k: int|
                            at < k <= s.steps@.len() ==> #[trigger] t.steps@[k] == s.steps@[k - 1]
                        &&& full_view(t.steps@[at]) == (
                            fresh_key(s.steps@) as u32,
                            None::<Seq<char>>,
                            par,
                            name,
                            answer,
                            match img {
                                Some(x) => Some(x@),
                                None => None,
                            },
                        )
                    },
                }
            } else {
                match s.editing_step_idx {
                    Some(idx) => {
                        &&& t.editing_step_idx is None
                        &&& t.step_name_buf@.len() == 0
                        &&& t.step_buf@.len() == 0
                        &&& t.focused == 5
                        &&& t.pending_parent == s.pending_parent
                        &&& if idx < s.steps@.len() && s.steps@[idx as int].answer@.len() == 0 {
                            let k = s.steps@[idx as int].key;
                            &&& t.steps@ == normalized(
                                relink_all(s.steps@, Some(k), s.steps@[idx as int].parent).remove(
                                    idx as int,
                                ),
                            )
                            &&& t.step_selected == if t.steps@.len() == 0 {
                                None
                            } else if idx < t.steps@.len() {
                                Some(idx)
                            } else {
                                Some((t.steps@.len() - 1) as usize)
                            }
                        } else {
                            &&& t.steps@ == s.steps@
                            &&& t.step_selected == s.step_selected
                        }
                    },
                    None => {
                        &&& t.steps@ == s.steps@
                        &&& t.editing_step_idx == s.editing_step_idx
                        &&& t.step_name_buf@ == s.step_name_buf@
                        &&& t.step_buf@ == s.step_buf@
                        &&& t.focused == s.focused
                        &&& t.pending_parent == s.pending_parent
                        &&& t.step_selected == s.step_selected
                    },
                }
            }
        })
    }

    /// Takes the typed step: with an answer it either replaces the step
    /// being edited (keeping its place and identity) or is added where the
    /// next step attaches; with a blank answer it cancels an edit (taking
    /// back out a step that was spliced in and never filled).
    pub fn commit_step(&mut self)
        requires
            trim(old(self).step_buf@).len() > 0 && old(self).editing_step_idx is None ==> max_key(old(self).steps@)
                < u32::MAX,
        ensures
            Self::step_committed(*old(self), *final(self)),
    {
        let answer = trimmed(self.step_buf.as_str());
        let name = trimmed(self.step_name_buf.as_str());
        let img = copy_opt_string(&self.step_image_path);
        self.step_image_path = None;
        if !answer.as_str().is_empty() {
            match self.editing_step_idx {
                Some(idx) => {
                    if idx < self.steps.len() {
                        self.steps[idx].name = name;
                        self.steps[idx].answer = answer;
                        self.steps[idx].image = img;
                    }
                    self.editing_step_idx = None;
                    self.focused = 5;
                },
                None => {
                    let parent = match self.pending_parent {
                        Some(p) => p,
                        None => self.default_parent(),
                    };
                    self.pending_parent = None;
                    let d = StepDraft { key: 0, db_id: None, parent: None, name, answer, image: img };
                    let at = add_child(&mut self.steps, parent, d);
                    self.step_selected = Some(at);
                    self.focused = 3;
                },
            }
            self.step_name_buf = String::new();
            self.step_buf = String::new();
        } else {
            match self.editing_step_idx {
                Some(idx) => {
                    if idx < self.steps.len() && self.steps[idx].answer.as_str().is_empty() {
                        remove_splice(&mut self.steps, idx);
                        let n = self.steps.len();
                        self.step_selected = if n == 0 {
                            None
                        } else if idx < n {
                            Some(idx)
                        } else {
                            Some(n - 1)
                        };
                    }
                    self.editing_step_idx = None;
                    self.step_name_buf = String::new();
                    self.step_buf = String::new();
                    self.focused = 5;
                },
                None => {},
            }
        }
    }

    /// What `insert_step_after_selected` makes of the editor `s` (see there).
    pub open spec fn step_inserted(s: AddCardState, t: AddCardState) -> bool {
        &&& t.steps@.len() == s.steps@.len() + 1
        &&& match s.selected_spec() {
            Some(i) => t.editing_step_idx == Some((i + 1) as usize) && t.steps@
                == crate::drafts::relink_all(
                s.steps@,
                Some(s.steps@[i].key),
                Some(fresh_key(s.steps@) as u32),
            ).insert(i + 1, t.steps@[i + 1]) && full_view(t.steps@[i + 1]) == (
                fresh_key(s.steps@) as u32,
                None::<Seq<char>>,
                Some(s.steps@[i].key),
                Seq::<char>::empty(),
                Seq::<char>::empty(),
                None::<Seq<char>>,
            ),
            None => {
                let (par, at) = attach_point(s.steps@, s.default_parent_spec());
                &&& t.editing_step_idx == Some(at as usize)
                &&& t.steps@ == s.steps@.insert(at, t.steps@[at])
                &&& full_view(t.steps@[at]) == (
                    fresh_key(s.steps@) as u32,
                    None::<Seq<char>>,
                    par,
                    Seq::<char>::empty(),
                    Seq::<char>::empty(),
                    None::<Seq<char>>,
                )
            },
        }
        &&& t.step_selected == t.editing_step_idx
        &&& t.pending_parent is None
        &&& t.step_name_buf@.len() == 0
        &&& t.step_buf@.len() == 0
        &&& t.focused == 2
        &&& t.kind == s.kind
    }

    /// Inserting a step after the selected one and then committing it blank
    /// (cancelling it) gives back the steps as they were, when they stood in
    /// the order `normalize_order` keeps and every parent link names a step;
    /// the editor ends with no step being edited and the steps list focused.
    pub proof fn lemma_insert_then_cancel(s0: AddCardState, s1: AddCardState, s2: AddCardState)
        requires
            s0.selected_spec() is Some,
            s0.steps@.len() < usize::MAX,
            max_key(s0.steps@) < u32::MAX,
            links_known(s0.steps@),
            normalized(s0.steps@) == s0.steps@,
            Self::step_inserted(s0, s1),
            Self::step_committed(s1, s2),
        ensures
            s2.steps@ == s0.steps@,
            s2.editing_step_idx is None,
            s2.focused == 5,
    {
        let i = s0.selected_spec()->0;
        let d = s1.steps@[i + 1];
        Self::lemma_inserted_after(s0, s1);
        Self::lemma_cancelled(s1, s2, (i + 1) as usize);
        lemma_insert_then_splice_restores(s0.steps@, i, d);
    }

    proof fn lemma_inserted_after(s0: AddCardState, s1: AddCardState)
        requires
            s0.selected_spec() is Some,
            s0.steps@.len() < usize::MAX,
            Self::step_inserted(s0, s1),
        ensures
            ({
                let i = s0.selected_spec()->0;
                &&& s1.steps@ == spliced_in(s0.steps@, i, s1.steps@[i + 1])
                &&& s1.editing_step_idx == Some((i + 1) as usize)
                &&& i + 1 < s1.steps@.len()
                &&& s1.steps@[i + 1].answer@.len() == 0
                &&& s1.step_buf@.len() == 0
            }),
    {
        let i = s0.selected_spec()->0;
        let d = s1.steps@[i + 1];
        assert(with_link(d, fresh_key(s0.steps@) as u32, Some(s0.steps@[i].key)) == d);
        assert(full_view(d).4 == d.answer@);
    }

    proof fn lemma_cancelled(s1: AddCardState, s2: AddCardState, idx: usize)
        requires
            s1.editing_step_idx == Some(idx),
            0 <= idx < s1.steps@.len(),
            s1.steps@[idx as int].answer@.len() == 0,
            s1.step_buf@.len() == 0,
            Self::step_committed(s1, s2),
        ensures
            s2.steps@ == normalized(
                relink_all(s1.steps@, Some(s1.steps@[idx as int].key), s1.steps@[idx as int].parent).remove(idx as int),
            ),
            s2.editing_step_idx is None,
            s2.focused == 5,
    {
        assert(trim(s1.step_buf@) =~= Seq::<char>::empty());
    }

    /// Inserts a blank step right after the selected one (it takes that
    /// step's place in the chain and adopts its children), or where the next
    /// step attaches when nothing is selected, and starts editing it.
    pub fn insert_step_after_selected(&mut self)
        requires
            max_key(old(self).steps@) < u32::MAX,
        ensures
            Self::step_inserted(*old(self), *final(self)),
    {
        let d = StepDraft { key: 0, db_id: None, parent: None, name: String::new(), answer: String::new(), image: None };
        let at = match self.selected_step() {
            Some(i) => insert_after(&mut self.steps, i, d),
            None => {
                let parent = self.default_parent();
                add_child(&mut self.steps, parent, d)
            },
        };
        self.pending_parent = None;
        self.editing_step_idx = Some(at);
        self.step_selected = Some(at);
        self.step_name_buf = String::new();
        self.step_buf = String::new();
        self.focused = 2;
    }
}

/// The step items of a card.
pub open spec fn step_items(items: Seq<Item>) -> Seq<Item> {
    items.filter(|it: Item| it.kind == ItemKind::Step)
}

/// Texts joined with single spaces.
pub open spec fn joined(ts: Seq<Seq<char>>) -> Seq<char>
    decreases ts.len(),
{
    if ts.len() == 0 {
        seq![]
    } else if ts.len() == 1 {
        ts[0]
    } else {
        joined(ts.drop_last()) + " "@ + ts.last()
    }
}

fn join_spaces(ts: &Vec<String>) -> (r: String)
    ensures
        r@ == joined(ts@.map_values(|t: String| t@)),
{
    let ghost v = ts@.map_values(|t: String| t@);
    let mut r = String::new();
    let mut k: usize = 0;
    while k < ts.len()
        invariant
            v == ts@.map_values(|t: String| t@),
            k <= ts@.len(),
            r@ == joined(v.take(k as int)),
        decreases ts@.len() - k,
    {
        if k > 0 {
            push_all(&mut r, " ");
        }
        push_all(&mut r, ts[k].as_str());
        proof {
            let t = v.take(k + 1);
            assert(t.drop_last() =~= v.take(k as int));
            assert(v[k as int] == ts@[k as int]@);
            assert(r@ =~= joined(t));
        }
        k += 1;
    }
    assert(v.take(k as int) =~= v);
    r
}

fn copy_step_items(items: &[Item]) -> (r: Vec<Item>)
    ensures
        r@.len() == step_items(items@).len(),
        forall|k: int| 0 <= k < r@.len() ==> same_item(#[trigger] r@[k], step_items(items@)[k]),
{
    let ghost pred = |it: Item| it.kind == ItemKind::Step;
    let mut r: Vec<Item> = Vec::new();
    let mut k: usize = 0;
    while k < items.len()
        invariant
            k <= items@.len(),
            pred == (|it: Item| it.kind == ItemKind::Step),
            r@.len() == items@.take(k as int).filter(pred).len(),
            forall|j: int| 0 <= j < r@.len() ==> same_item(#[trigger] r@[j], items@.take(k as int).filter(pred)[j]),
        decreases items@.len() - k,
    {
        proof {
            assert(items@.take(k + 1) =~= items@.take(k as int).push(items@[k as int]));
            items@.take(k as int).lemma_filter_push(items@[k as int], pred);
        }
        if items[k].kind == ItemKind::Step {
            r.push(items[k].duplicate());
        }
        k += 1;
    }
    assert(items@.take(items@.len() as int) =~= items@);
    r
}

/// The first forward item of a card.
pub open spec fn forward_item(items: Seq<Item>, k: int) -> Option<int>
    decreases k,
{
    if k <= 0 {
        None
    } else {
        match forward_item(items, k - 1) {
            Some(i) => Some(i),
            None => if items[k - 1].kind == ItemKind::Forward {
                Some(k - 1)
            } else {
                None
            },
        }
    }
}

impl AddCardState {
    /// The editor filled in from an existing card, straight on the form.
    /// The steps of a multi-step card come back in the shape they were saved
    /// in, automatic "Step N" labels as blank names.
    pub fn for_edit(card: &Card, items: &[Item], decks: Vec<String>, tags: Vec<String>) -> (s: AddCardState)
        ensures
            s.editing_card_id == Some(card.id),
            s.phase == AddPhase::FillForm,
            s.deck == card.deck,
            s.reversible == card.reversible,
            s.review_mode == card.review_mode,
            s.tags_buf@ == joined(tags@.map_values(|t: String| t@)),
            s.decks == decks,
            s.focused == 0,
            s.pending_parent is None,
            s.editing_step_idx is None,
            card.kind == CardKind::Simple ==> {
                &&& s.kind == AddKind::Simple
                &&& s.simple_question == card.question
                &&& s.steps@.len() == 0
                &&& match forward_item(items@, items@.len() as int) {
                    Some(i) => s.answer == items@[i].answer && s.answer_image_path == items@[i].image_path,
                    None => s.answer@.len() == 0 && s.answer_image_path is None,
                }
            },
            card.kind == CardKind::Multi ==> {
                &&& s.kind == AddKind::Multi
                &&& s.multi_question == card.question
                &&& s.show_chain == card.show_chain
                &&& s.steps@.len() == step_items(items@).len()
                &&& s.step_selected == if s.steps@.len() > 0 {
                    Some(0usize)
                } else {
                    None
                }
                &&& exists|v: Seq<Item>, t: StepTree|
                    {
                        &&& v.len() == step_items(items@).len()
                        &&& forall|k: int| 0 <= k < v.len() ==> same_item(#[trigger] v[k], step_items(items@)[k])
                        &&& #[trigger] t.made_from(card.is_tree, v)
                        &&& forall|k: int| 0 <= k < s.steps@.len() ==> full_view(#[trigger] s.steps@[k]) == tree_draft(t, k)
                    }
            },
    {
        let mut s = AddCardState::new(decks);
        s.editing_card_id = Some(card.id.clone());
        s.phase = AddPhase::FillForm;
        s.deck = card.deck.clone();
        s.reversible = card.reversible;
        s.review_mode = card.review_mode;
        s.tags_buf = join_spaces(&tags);
        match card.kind {
            CardKind::Simple => {
                s.kind = AddKind::Simple;
                s.simple_question = card.question.clone();
                match find_forward(items) {
                    Some(k) => {
                        s.answer = items[k].answer.clone();
                        s.answer_image_path = copy_opt_string(&items[k].image_path);
                    },
                    None => {},
                }
            },
            CardKind::Multi => {
                s.kind = AddKind::Multi;
                s.multi_question = card.question.clone();
                s.show_chain = card.show_chain;
                let v = copy_step_items(items);
                s.steps = drafts_from_items(card.is_tree, v.as_slice());
                if s.steps.len() > 0 {
                    s.step_selected = Some(0);
                }
                proof {
                    let t = choose|t: StepTree| #[trigger] t.made_from(card.is_tree, v@) && forall|k: int|
                        0 <= k < s.steps@.len() ==> full_view(#[trigger] s.steps@[k]) == tree_draft(t, k);
                    assert(v@.len() == step_items(items@).len() && (forall|k: int|
                        0 <= k < v@.len() ==> same_item(#[trigger] v@[k], step_items(items@)[k])) && t.made_from(
                        card.is_tree,
                        v@,
                    ) && forall|k: int| 0 <= k < s.steps@.len() ==> full_view(#[trigger] s.steps@[k]) == tree_draft(t, k));
                }
            },
        }
        s
    }

    /// The known decks whose name contains the typed deck text (trimmed),
    /// ignoring case; all of them while nothing is typed.
    pub open spec fn deck_matches(&self) -> Seq<Seq<char>> {
        let q = lowercase(trim(self.deck@));
        self.decks@.map_values(|d: String| d@).filter(|d: Seq<char>| q.len() == 0 || has_substring(lowercase(d), q))
    }

    pub fn filtered_decks(&self) -> (r: Vec<String>)
        ensures
            r@.map_values(|d: String| d@) == self.deck_matches(),
    {
        let t = trimmed(self.deck.as_str());
        let q = to_lower(t.as_str());
        filter_containing(&self.decks, &q)
    }

    /// The highlighted deck suggestion.
    pub fn selected_suggestion(&self) -> (r: Option<String>)
        ensures
            match r {
                Some(d) => self.deck_list_idx matches Some(i) && i < self.deck_matches().len() && d@
                    == self.deck_matches()[i as int],
                None => match self.deck_list_idx {
                    Some(i) => i >= self.deck_matches().len(),
                    None => true,
                },
            },
    {
        match self.deck_list_idx {
            None => None,
            Some(i) => {
                let f = self.filtered_decks();
                if i < f.len() {
                    assert(f@.map_values(|d: String| d@)[i as int] == f@[i as int]@);
                    Some(f[i].clone())
                } else {
                    None
                }
            },
        }
    }

    /// The typed tags: split on commas and spaces, leading `#` dropped,
    /// trimmed and lower-cased, blanks left out.
    pub fn parsed_tags(&self) -> (r: Vec<String>)
        ensures
            r@.map_values(|t: String| t@) == tag_words(self.tags_buf@),
    {
        parse_tag_list(self.tags_buf.as_str())
    }
}

fn find_forward(items: &[Item]) -> (r: Option<usize>)
    ensures
        match r {
            Some(k) => forward_item(items@, items@.len() as int) == Some(k as int) && k < items@.len(),
            None => forward_item(items@, items@.len() as int) is None,
        },
{
    let mut k: usize = 0;
    while k < items.len()
        invariant
            k <= items@.len(),
            forward_item(items@, k as int) is None,
        decreases items@.len() - k,
    {
        if items[k].kind == ItemKind::Forward {
            proof {
                lemma_forward_stays(items@, k + 1, items@.len() as int);
            }
            return Some(k);
        }
        k += 1;
    }
    None
}

proof fn lemma_forward_stays(items: Seq<Item>, k: int, to: int)
    requires
        0 <= k <= to,
        forward_item(items, k) is Some,
    ensures
        forward_item(items, to) == forward_item(items, k),
    decreases to - k,
{
    if to > k {
        lemma_forward_stays(items, k, to - 1);
    }
}

/// The names of `v` that contain `q` ignoring case (all when `q` is empty).
pub fn filter_containing(v: &Vec<String>, q: &String) -> (r: Vec<String>)
    ensures
        r@.map_values(|d: String| d@) == v@.map_values(|d: String| d@).filter(
            |d: Seq<char>| q@.len() == 0 || has_substring(lowercase(d), q@),
        ),
{
    let ghost names = v@.map_values(|d: String| d@);
    let ghost pred = |d: Seq<char>| q@.len() == 0 || has_substring(lowercase(d), q@);
    let qc = chars_of(q.as_str());
    let mut r: Vec<String> = Vec::new();
    let mut k: usize = 0;
    while k < v.len()
        invariant
            names == v@.map_values(|d: String| d@),
            pred == (|d: Seq<char>| q@.len() == 0 || has_substring(lowercase(d), q@)),
            qc@ == q@,
            k <= v@.len(),
            r@.map_values(|d: String| d@) == names.take(k as int).filter(pred),
        decreases v@.len() - k,
    {
        proof {
            assert(names.take(k + 1) =~= names.take(k as int).push(names[k as int]));
            names.take(k as int).lemma_filter_push(names[k as int], pred);
            assert(names[k as int] == v@[k as int]@);
        }
        let low = to_lower(v[k].as_str());
        let lc = chars_of(low.as_str());
        let keep = qc.len() == 0 || contains(&lc, &qc);
        if keep {
            let ghost before = r@.map_values(|d: String| d@);
            r.push(v[k].clone());
            assert(r@.map_values(|d: String| d@) =~= before.push(v@[k as int]@));
        }
        k += 1;
    }
    assert(names.take(v@.len() as int) =~= names);
    r
}

/// A tag as typed: leading `#` signs dropped, then trimmed and lower-cased.
pub open spec fn clean_tag(t: Seq<char>) -> Seq<char> {
    lowercase(trim(strip_hashes(t)))
}

/// `t` without its leading `#` signs.
pub open spec fn strip_hashes(t: Seq<char>) -> Seq<char>
    decreases t.len(),
{
    if t.len() > 0 && t[0] == '#' {
        strip_hashes(t.drop_first())
    } else {
        t
    }
}

/// Splitting `s[i..]` on commas and spaces, with `cur` the piece so far.
pub open spec fn tag_pieces(s: Seq<char>, i: int, cur: Seq<char>) -> Seq<Seq<char>>
    decreases s.len() - i,
{
    if i < 0 || i >= s.len() {
        seq![cur]
    } else if s[i] == ',' || s[i] == ' ' {
        seq![cur] + tag_pieces(s, i + 1, seq![])
    } else {
        tag_pieces(s, i + 1, cur.push(s[i]))
    }
}

/// The tags of a typed tag list.
pub open spec fn tag_words(s: Seq<char>) -> Seq<Seq<char>> {
    tag_pieces(s, 0, seq![]).map_values(|t: Seq<char>| clean_tag(t)).filter(|t: Seq<char>| t.len() > 0)
}

fn clean_one_tag(piece: &Vec<char>) -> (r: String)
    ensures
        r@ == clean_tag(piece@),
{
    let mut k: usize = 0;
    assert(piece@.skip(0) =~= piece@);
    while k < piece.len() && piece[k] == '#'
        invariant
            k <= piece@.len(),
            strip_hashes(piece@) == strip_hashes(piece@.skip(k as int)),
        decreases piece@.len() - k,
    {
        assert(piece@.skip(k as int).drop_first() =~= piece@.skip(k + 1));
        k += 1;
    }
    let mut rest: Vec<char> = Vec::new();
    let start = k;
    while k < piece.len()
        invariant
            start <= k <= piece@.len(),
            rest@ == piece@.subrange(start as int, k as int),
        decreases piece@.len() - k,
    {
        rest.push(piece[k]);
        k += 1;
        assert(rest@ =~= piece@.subrange(start as int, k as int));
    }
    assert(rest@ =~= piece@.skip(start as int));
    let t = crate::text::trim_chars(&rest);
    let ts = string_of(&t);
    to_lower(ts.as_str())
}

/// The tags of a typed tag list: split on commas and spaces, each with its
/// leading `#` signs dropped, trimmed and lower-cased, blanks left out.
pub fn parse_tag_list(s: &str) -> (r: Vec<String>)
    ensures
        r@.map_values(|t: String| t@) == tag_words(s@),
{
    let cs = chars_of(s);
    let n = cs.len();
    let ghost pieces = tag_pieces(s@, 0, seq![]);
    let ghost pred = |t: Seq<char>| t.len() > 0;
    let ghost f = |t: Seq<char>| clean_tag(t);
    let mut out: Vec<String> = Vec::new();
    let ghost mut done: Seq<Seq<char>> = seq![];
    let mut cur: Vec<char> = Vec::new();
    let mut i: usize = 0;
    while i < n
        invariant
            n == cs@.len(),
            cs@ == s@,
            i <= n,
            pieces == tag_pieces(s@, 0, seq![]),
            pred == (|t: Seq<char>| t.len() > 0),
            f == (|t: Seq<char>| clean_tag(t)),
            done + tag_pieces(cs@, i as int, cur@) == pieces,
            out@.map_values(|t: String| t@) == done.map_values(f).filter(pred),
        decreases n - i,
    {
        if cs[i] == ',' || cs[i] == ' ' {
            let t = clean_one_tag(&cur);
            let ghost before = out@.map_values(|t: String| t@);
            proof {
                done.map_values(f).lemma_filter_push(clean_tag(cur@), pred);
                assert(done.push(cur@).map_values(f) =~= done.map_values(f).push(clean_tag(cur@)));
            }
            if !t.as_str().is_empty() {
                out.push(t);
                assert(out@.map_values(|t: String| t@) =~= before.push(clean_tag(cur@)));
            }
            proof {
                assert(done.push(cur@) + tag_pieces(cs@, i + 1, seq![]) =~= done + tag_pieces(cs@, i as int, cur@));
                done = done.push(cur@);
            }
            cur = Vec::new();
        } else {
            cur.push(cs[i]);
        }
        i += 1;
    }
    let t = clean_one_tag(&cur);
    let ghost before = out@.map_values(|t: String| t@);
    proof {
        done.map_values(f).lemma_filter_push(clean_tag(cur@), pred);
        assert(done.push(cur@).map_values(f) =~= done.map_values(f).push(clean_tag(cur@)));
        assert(done + tag_pieces(cs@, i as int, cur@) =~= done.push(cur@));
    }
    if !t.as_str().is_empty() {
        out.push(t);
        assert(out@.map_values(|t: String| t@) =~= before.push(clean_tag(cur@)));
    }
    out
}

/// Appends `c` to `s`, or (for `None`) drops its last character.
pub(crate) fn edit_text(s: &mut String, c: Option<char>)
    ensures
        final(s)@ == match c {
            Some(ch) => old(s)@.push(ch),
            None => if old(s)@.len() > 0 {
                old(s)@.drop_last()
            } else {
                old(s)@
            },
        },
{
    match c {
        Some(ch) => s.push(ch),
        None => {
            let v = chars_of(s.as_str());
            let n = v.len();
            if n > 0 {
                let mut w: Vec<char> = Vec::new();
                let mut k: usize = 0;
                while k < n - 1
                    invariant
                        v@ == old(s)@,
                        n == v@.len(),
                        n > 0,
                        k <= n - 1,
                        w@ == v@.take(k as int),
                    decreases v@.len() - k,
                {
                    w.push(v[k]);
                    k += 1;
                    assert(w@ =~= v@.take(k as int));
                }
                assert(w@ =~= old(s)@.drop_last());
                *s = string_of(&w);
            }
        },
    }
}

} // verus!
