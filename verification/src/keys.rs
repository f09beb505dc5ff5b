//! What a key press does on the menu, the list screens and the export and
//! import forms. The screen's own state changes here; work that needs the
//! store, the file system or another screen comes back as an action for the
//! program to carry out.

use vstd::prelude::*;
use crate::models::{CardSummary, ReviewMode};
use crate::editor::{AddCardState, AddKind, AddPhase};
use crate::screens::{ListCardsState, ListDecksState, ExportState, ExportFocus, ImportState, ImportFocus, SearchScope, has_tag, export_path, Screen, ClickTarget};
use crate::text::{same_text, chars_of, trim, trimmed, push_all, decimal, push_decimal, digit, digit_char};

verus! {

/// A key press, as the screens see it.
#[derive(Debug, Clone, Copy, PartialEq, Eq, Structural)]
pub enum Key {
    Char(char),
    Enter,
    Esc,
    Backspace,
    Tab,
    BackTab,
    Up,
    Down,
    Left,
    Right,
    Delete,
    Other,
}

/// Down, or `j`.
pub open spec fn is_down(k: Key) -> bool {
    k == Key::Down || k == Key::Char('j')
}

/// Up, or `k`.
pub open spec fn is_up(k: Key) -> bool {
    k == Key::Up || k == Key::Char('k')
}

fn down_key(k: Key) -> (b: bool)
    ensures
        b == is_down(k),
{
    k == Key::Down || k == Key::Char('j')
}

fn up_key(k: Key) -> (b: bool)
    ensures
        b == is_up(k),
{
    k == Key::Up || k == Key::Char('k')
}

/// The first row, when there is one.
pub open spec fn first_row(n: nat) -> Option<usize> {
    if n > 0 {
        Some(0usize)
    } else {
        None
    }
}

/// What the card list asks of the program.
pub enum CardsAction {
    Stay,
    GoBack,
    /// load every tag and hand it to `open_tag_picker`
    OpenTagPicker,
    /// delete the card, then rebuild the list with `reloaded`
    DeleteCard(String),
    /// open the card in the editor
    EditCard(String),
    /// store the card under the other review mode, then rebuild the list
    SwitchMode(String, ReviewMode),
}

/// The names of the filter tags.
pub open spec fn filter_names(s: ListCardsState) -> Seq<Seq<char>> {
    s.tag_filter@.map_values(|t: String| t@)
}

/// The position, among all cards, of the highlighted card.
pub open spec fn selected_card(s: ListCardsState) -> Option<int> {
    match s.selected {
        Some(i) => if i < s.shown().len() {
            Some(s.shown()[i as int])
        } else {
            None
        },
        None => None,
    }
}

/// `a` and `b` differ at most in the search and the highlight.
pub open spec fn same_but_search(a: ListCardsState, b: ListCardsState) -> bool {
    &&& a.cards == b.cards
    &&& a.deck == b.deck
    &&& a.confirm_delete == b.confirm_delete
    &&& a.tag_filter == b.tag_filter
    &&& a.tag_picker_active == b.tag_picker_active
    &&& a.tag_picker_tags == b.tag_picker_tags
    &&& a.tag_picker_selected == b.tag_picker_selected
}

/// `a` and `b` differ at most in the tag picker, the filter and the highlight.
pub open spec fn same_but_picker(a: ListCardsState, b: ListCardsState) -> bool {
    &&& a.cards == b.cards
    &&& a.deck == b.deck
    &&& a.confirm_delete == b.confirm_delete
    &&& a.search_query == b.search_query
    &&& a.search_active == b.search_active
    &&& a.search_scope == b.search_scope
    &&& a.tag_picker_tags == b.tag_picker_tags
}

/// The tag picker is open: move in it, toggle the highlighted tag in the
/// filter with space, close it with Enter or Esc (the highlight goes back
/// to the first shown card).
pub open spec fn picker_key(o: ListCardsState, key: Key, f: ListCardsState) -> bool {
    let n = o.tag_picker_tags@.len();
    &&& same_but_picker(o, f)
    &&& if key == Key::Esc || key == Key::Enter {
        &&& !f.tag_picker_active
        &&& f.selected == first_row(o.shown().len())
        &&& f.tag_filter == o.tag_filter
        &&& f.tag_picker_selected == o.tag_picker_selected
    } else if is_down(key) {
        &&& f.tag_picker_active == o.tag_picker_active
        &&& f.selected == o.selected
        &&& f.tag_filter == o.tag_filter
        &&& f.tag_picker_selected == if n > 0 {
            Some(
                match o.tag_picker_selected {
                    Some(i) => if i + 1 < n {
                        (i + 1) as usize
                    } else {
                        (n - 1) as usize
                    },
                    None => 0usize,
                },
            )
        } else {
            o.tag_picker_selected
        }
    } else if is_up(key) {
        &&& f.tag_picker_active == o.tag_picker_active
        &&& f.selected == o.selected
        &&& f.tag_filter == o.tag_filter
        &&& f.tag_picker_selected == if n > 0 {
            Some(
                match o.tag_picker_selected {
                    Some(i) => if i > 0 {
                        (i - 1) as usize
                    } else {
                        0usize
                    },
                    None => 0usize,
                },
            )
        } else {
            o.tag_picker_selected
        }
    } else if key == Key::Char(' ') {
        &&& f.tag_picker_active == o.tag_picker_active
        &&& f.selected == o.selected
        &&& f.tag_picker_selected == o.tag_picker_selected
        &&& match o.tag_picker_selected {
            Some(i) => if i < n {
                let t = o.tag_picker_tags@[i as int]@;
                filter_names(f) == if filter_names(o).contains(t) {
                    filter_names(o).filter(|x: Seq<char>| x != t)
                } else {
                    filter_names(o).push(t)
                }
            } else {
                f.tag_filter == o.tag_filter
            },
            None => f.tag_filter == o.tag_filter,
        }
    } else {
        f == o
    }
}

/// Typing a search: Enter keeps the search and leaves it, Esc clears and
/// leaves it, Backspace and characters edit it, Tab changes where it looks,
/// Down/`j` and Up/`k` move the highlight. Every change of the search puts
/// the highlight on the first shown card.
pub open spec fn search_key(o: ListCardsState, key: Key, f: ListCardsState) -> bool {
    &&& same_but_search(o, f)
    &&& if key == Key::Enter {
        &&& !f.search_active
        &&& f.search_query == o.search_query
        &&& f.search_scope == o.search_scope
        &&& f.selected == first_row(o.shown().len())
    } else if key == Key::Esc {
        &&& !f.search_active
        &&& f.search_query@.len() == 0
        &&& f.search_scope == SearchScope::Questions
        &&& f.selected == first_row(f.shown().len())
    } else if key == Key::Backspace {
        &&& f.search_active == o.search_active
        &&& f.search_query@ == if o.search_query@.len() > 0 {
            o.search_query@.drop_last()
        } else {
            o.search_query@
        }
        &&& f.search_scope == o.search_scope
        &&& f.selected == first_row(f.shown().len())
    } else if is_down(key) || is_up(key) {
        &&& f.search_active == o.search_active
        &&& f.search_query == o.search_query
        &&& f.search_scope == o.search_scope
        &&& f.selected == moved(o.selected, o.shown().len(), is_down(key))
    } else if key == Key::Tab {
        &&& f.search_active == o.search_active
        &&& f.search_query == o.search_query
        &&& f.search_scope == o.search_scope.next_spec()
        &&& f.selected == first_row(f.shown().len())
    } else {
        match key {
            Key::Char(c) => {
                &&& f.search_active == o.search_active
                &&& f.search_query@ == o.search_query@.push(c)
                &&& f.search_scope == o.search_scope
                &&& f.selected == first_row(f.shown().len())
            },
            _ => f == o,
        }
    }
}

/// The highlight moved one row down or up among `n` rows, wrapping.
pub open spec fn moved(sel: Option<usize>, n: nat, down: bool) -> Option<usize> {
    if n == 0 {
        sel
    } else if down {
        Some(
            match sel {
                Some(i) => ((i + 1) % n as int) as usize,
                None => 0usize,
            },
        )
    } else {
        Some(
            match sel {
                Some(i) => if i == 0 {
                    (n - 1) as usize
                } else {
                    (i - 1) as usize
                },
                None => 0usize,
            },
        )
    }
}

/// What a key does on the card list, `a` being what the program is to do.
pub open spec fn cards_key(o: ListCardsState, key: Key, f: ListCardsState, a: CardsAction) -> bool {
    if o.tag_picker_active {
        a is Stay && picker_key(o, key, f)
    } else if o.search_active {
        a is Stay && search_key(o, key, f)
    } else if o.confirm_delete {
        if key == Key::Char('y') || key == Key::Char('Y') {
            match selected_card(o) {
                Some(k) => f == o && (a matches CardsAction::DeleteCard(id) && id@ == o.cards@[k].card_id@),
                None => f == o && a is Stay,
            }
        } else {
            f == ListCardsState { confirm_delete: false, ..o } && a is Stay
        }
    } else if is_down(key) || is_up(key) {
        &&& a is Stay
        &&& f == ListCardsState { selected: moved(o.selected, o.shown().len(), is_down(key)), ..o }
    } else if key == Key::Char('/') {
        &&& a is Stay
        &&& f == ListCardsState { search_active: true, selected: first_row(o.shown().len()), ..o }
    } else if key == Key::Esc {
        if o.search_query@.len() > 0 {
            &&& a is Stay
            &&& same_but_search(o, f)
            &&& f.search_active == o.search_active
            &&& f.search_query@.len() == 0
            &&& f.search_scope == SearchScope::Questions
            &&& f.selected == first_row(f.shown().len())
        } else {
            f == o && a is GoBack
        }
    } else if key == Key::Char('q') {
        f == o && a is GoBack
    } else if key == Key::Char('#') {
        f == o && a is OpenTagPicker
    } else if key == Key::Char('d') || key == Key::Delete {
        &&& a is Stay
        &&& f == ListCardsState { confirm_delete: o.shown().len() > 0 && o.selected is Some, ..o }
    } else if key == Key::Char('e') {
        &&& f == o
        &&& match selected_card(o) {
            Some(k) => a matches CardsAction::EditCard(id) && id@ == o.cards@[k].card_id@,
            None => a is Stay,
        }
    } else if key == Key::Char('m') {
        &&& f == o
        &&& match selected_card(o) {
            Some(k) => a matches CardsAction::SwitchMode(id, m) && id@ == o.cards@[k].card_id@ && m == if o.cards@[k].review_mode == ReviewMode::Daily {
                ReviewMode::SpacedRepetition
            } else {
                ReviewMode::Daily
            },
            None => a is Stay,
        }
    } else {
        f == o && a is Stay
    }
}

fn without(v: &Vec<String>, t: &String) -> (r: Vec<String>)
    ensures
        r@.map_values(|x: String| x@) == v@.map_values(|x: String| x@).filter(|x: Seq<char>| x != t@),
{
    let ghost names = v@.map_values(|x: String| x@);
    let ghost pred = |x: Seq<char>| x != t@;
    let mut r: Vec<String> = Vec::new();
    let mut k: usize = 0;
    while k < v.len()
        invariant
            names == v@.map_values(|x: String| x@),
            pred == (|x: Seq<char>| x != t@),
            k <= v@.len(),
            r@.map_values(|x: String| x@) == names.take(k as int).filter(pred),
        decreases v@.len() - k,
    {
        proof {
            assert(names.take(k + 1) =~= names.take(k as int).push(names[k as int]));
            names.take(k as int).lemma_filter_push(names[k as int], pred);
        }
        if !same_text(v[k].as_str(), t.as_str()) {
            let ghost before = r@.map_values(|x: String| x@);
            r.push(v[k].clone());
            assert(r@.map_values(|x: String| x@) =~= before.push(names[k as int]));
        }
        k += 1;
    }
    assert(names.take(k as int) =~= names);
    r
}

impl ListCardsState {
    fn select_first(&mut self)
        ensures
            *final(self) == (ListCardsState { selected: first_row(old(self).shown().len()), ..*old(self) }),
    {
        let n = self.filtered_cards().len();
        self.selected = if n > 0 {
            Some(0)
        } else {
            None
        };
    }

    /// The card position of the highlighted card.
    fn highlighted(&self) -> (r: Option<usize>)
        ensures
            match r {
                Some(k) => selected_card(*self) == Some(k as int) && k < self.cards@.len(),
                None => selected_card(*self) is None,
            },
    {
        match self.selected {
            None => None,
            Some(i) => {
                let f = self.filtered_cards();
                if i < f.len() {
                    assert(f@.map_values(|k: usize| k as int)[i as int] == f@[i as int] as int);
                    Some(f[i])
                } else {
                    None
                }
            },
        }
    }

    /// What a key does on the card list (see `cards_key`).
    pub fn on_key(&mut self, key: Key) -> (a: CardsAction)
        ensures
            cards_key(*old(self), key, *final(self), a),
    {
        if self.tag_picker_active {
            let n = self.tag_picker_tags.len();
            if key == Key::Esc || key == Key::Enter {
                self.tag_picker_active = false;
                self.select_first();
            } else if down_key(key) {
                if n > 0 {
                    self.tag_picker_selected = Some(
                        match self.tag_picker_selected {
                            Some(i) => if i < n - 1 {
                                i + 1
                            } else {
                                n - 1
                            },
                            None => 0,
                        },
                    );
                }
            } else if up_key(key) {
                if n > 0 {
                    self.tag_picker_selected = Some(
                        match self.tag_picker_selected {
                            Some(i) => if i > 0 {
                                i - 1
                            } else {
                                0
                            },
                            None => 0,
                        },
                    );
                }
            } else if key == Key::Char(' ') {
                match self.tag_picker_selected {
                    Some(i) => {
                        if i < n {
                            let tag = self.tag_picker_tags[i].clone();
                            let ghost t = self.tag_picker_tags@[i as int]@;
                            assert(tag@ == t);
                            if has_tag(&self.tag_filter, &tag) {
                                self.tag_filter = without(&self.tag_filter, &tag);
                                assert((|x: Seq<char>| x != tag@) =~= (|x: Seq<char>| x != t));
                            } else {
                                let ghost before = self.tag_filter@.map_values(|x: String| x@);
                                self.tag_filter.push(tag);
                                assert(self.tag_filter@.map_values(|x: String| x@) =~= before.push(
                                    self.tag_picker_tags@[i as int]@,
                                ));
                            }
                        }
                    },
                    None => {},
                }
            }
            return CardsAction::Stay;
        }
        if self.search_active {
            if key == Key::Enter {
                self.search_active = false;
                self.select_first();
            } else if key == Key::Esc {
                self.search_query = String::new();
                self.search_active = false;
                self.search_scope = SearchScope::Questions;
                self.select_first();
            } else if key == Key::Backspace {
                crate::editor::edit_text(&mut self.search_query, None);
                self.select_first();
            } else if down_key(key) {
                self.next();
            } else if up_key(key) {
                self.prev();
            } else if key == Key::Tab {
                self.search_scope = self.search_scope.next();
                self.select_first();
            } else {
                match key {
                    Key::Char(c) => {
                        self.search_query.push(c);
                        self.select_first();
                    },
                    _ => {},
                }
            }
            return CardsAction::Stay;
        }
        if self.confirm_delete {
            if key == Key::Char('y') || key == Key::Char('Y') {
                return match self.highlighted() {
                    Some(k) => CardsAction::DeleteCard(self.cards[k].card_id.clone()),
                    None => CardsAction::Stay,
                };
            } else {
                self.confirm_delete = false;
                return CardsAction::Stay;
            }
        }
        if down_key(key) {
            self.next();
            CardsAction::Stay
        } else if up_key(key) {
            self.prev();
            CardsAction::Stay
        } else if key == Key::Char('/') {
            self.search_active = true;
            self.select_first();
            CardsAction::Stay
        } else if key == Key::Esc {
            if crate::text::chars_of(self.search_query.as_str()).len() > 0 {
                self.search_query = String::new();
                self.search_scope = SearchScope::Questions;
                self.select_first();
                CardsAction::Stay
            } else {
                CardsAction::GoBack
            }
        } else if key == Key::Char('q') {
            CardsAction::GoBack
        } else if key == Key::Char('#') {
            CardsAction::OpenTagPicker
        } else if key == Key::Char('d') || key == Key::Delete {
            let n = self.filtered_cards().len();
            self.confirm_delete = n > 0 && self.selected.is_some();
            CardsAction::Stay
        } else if key == Key::Char('e') {
            match self.highlighted() {
                Some(k) => CardsAction::EditCard(self.cards[k].card_id.clone()),
                None => CardsAction::Stay,
            }
        } else if key == Key::Char('m') {
            match self.highlighted() {
                Some(k) => {
                    let m = if self.cards[k].review_mode.is_daily() {
                        ReviewMode::SpacedRepetition
                    } else {
                        ReviewMode::Daily
                    };
                    CardsAction::SwitchMode(self.cards[k].card_id.clone(), m)
                },
                None => CardsAction::Stay,
            }
        } else {
            CardsAction::Stay
        }
    }
}

impl ListCardsState {
    /// Opens the tag picker over `tags` (every tag there is), unless there
    /// are none; the picker's highlight starts on the first tag.
    pub fn open_tag_picker(&mut self, tags: Vec<String>)
        ensures
            tags@.len() == 0 ==> *final(self) == *old(self),
            tags@.len() > 0 ==> *final(self) == (ListCardsState {
                tag_picker_tags: tags,
                tag_picker_selected: if old(self).tag_picker_selected is None {
                    Some(0usize)
                } else {
                    old(self).tag_picker_selected
                },
                tag_picker_active: true,
                ..*old(self)
            }),
    {
        if tags.len() > 0 {
            self.tag_picker_tags = tags;
            if self.tag_picker_selected.is_none() {
                self.tag_picker_selected = Some(0);
            }
            self.tag_picker_active = true;
        }
    }

    /// The list rebuilt over `cards` after a change in the store, keeping
    /// the tag filter; with `keep`, the highlight stays on that row (or the
    /// last row of the list).
    pub fn reloaded(cards: Vec<CardSummary>, deck: Option<String>, tag_filter: Vec<String>, keep: Option<usize>) -> (s: ListCardsState)
        ensures
            s.cards == cards,
            s.deck == deck,
            s.tag_filter == tag_filter,
            !s.confirm_delete,
            s.search_query@.len() == 0,
            !s.search_active,
            s.search_scope == SearchScope::Questions,
            !s.tag_picker_active,
            s.tag_picker_tags@.len() == 0,
            s.tag_picker_selected is None,
            s.selected == match keep {
                Some(i) => Some(
                    if i < s.shown().len() {
                        i
                    } else if s.shown().len() > 0 {
                        (s.shown().len() - 1) as usize
                    } else {
                        0usize
                    },
                ),
                None => first_row(cards@.len()),
            },
    {
        let mut s = ListCardsState::new(cards, deck);
        s.tag_filter = tag_filter;
        match keep {
            Some(i) => {
                let n = s.filtered_cards().len();
                s.selected = Some(
                    if i < n {
                        i
                    } else if n > 0 {
                        n - 1
                    } else {
                        0
                    },
                );
            },
            None => {},
        }
        s
    }
}

// ~~~ the deck list ~~~~~~~~~~~~~~~~~~~~~~~~~~~~~~~~~~~~~~~~~~~~~~~~~~~~~~~~~~~~~

/// What the deck list asks of the program.
pub enum DecksAction {
    Stay,
    GoBack,
    /// start a review of the deck
    Review(String),
    /// open the deck's card list
    ListCards(String),
    /// delete the deck, then rebuild the list
    DeleteDeck(String),
    /// switch the deck's review mode (see `deck_mode_after`)
    SwitchDeckMode(String),
}

/// The highlighted deck.
pub open spec fn selected_deck_of(s: ListDecksState) -> Option<Seq<char>> {
    match s.selected {
        Some(i) => if i < s.shown().len() {
            Some(s.shown()[i as int])
        } else {
            None
        },
        None => None,
    }
}

/// `a` holds the highlighted deck in the given variant, or is `Stay`.
pub open spec fn with_deck(s: ListDecksState, a: DecksAction, which: int) -> bool {
    match selected_deck_of(s) {
        Some(d) => match a {
            DecksAction::Review(x) => which == 0 && x@ == d,
            DecksAction::ListCards(x) => which == 1 && x@ == d,
            DecksAction::DeleteDeck(x) => which == 2 && x@ == d,
            DecksAction::SwitchDeckMode(x) => which == 3 && x@ == d,
            _ => false,
        },
        None => a is Stay,
    }
}

/// What a key does on the deck list: in the search, Esc clears and leaves
/// it, Backspace and characters edit it, Down/`j` and Up/`k` move, and
/// Enter or `r` reviews the highlighted deck; when a delete waits for
/// confirmation, `y` asks for it and any other key cancels; otherwise `q`
/// and Esc go back, `/` starts a fresh search, `d` asks to delete, Enter or
/// `r` reviews, `l` lists the deck's cards and `M` switches its mode.
pub open spec fn decks_key(o: ListDecksState, key: Key, f: ListDecksState, a: DecksAction) -> bool {
    if o.search_active {
        if key == Key::Esc {
            &&& a is Stay
            &&& f.decks == o.decks && !f.search_active && f.search_query@.len() == 0
            &&& f.confirm_delete == o.confirm_delete
            &&& f.selected == first_row(f.shown().len())
        } else if key == Key::Backspace {
            &&& a is Stay
            &&& f.decks == o.decks && f.search_active == o.search_active
            &&& f.confirm_delete == o.confirm_delete
            &&& f.search_query@ == if o.search_query@.len() > 0 {
                o.search_query@.drop_last()
            } else {
                o.search_query@
            }
            &&& f.selected == first_row(f.shown().len())
        } else if is_down(key) || is_up(key) {
            a is Stay && f == (ListDecksState { selected: moved(o.selected, o.shown().len(), is_down(key)), ..o })
        } else if key == Key::Enter || key == Key::Char('r') {
            f == o && with_deck(o, a, 0)
        } else {
            match key {
                Key::Char(c) => {
                    &&& a is Stay
                    &&& f.decks == o.decks && f.search_active == o.search_active
                    &&& f.confirm_delete == o.confirm_delete
                    &&& f.search_query@ == o.search_query@.push(c)
                    &&& f.selected == first_row(f.shown().len())
                },
                _ => f == o && a is Stay,
            }
        }
    } else if o.confirm_delete {
        if key == Key::Char('y') || key == Key::Char('Y') {
            f == o && with_deck(o, a, 2)
        } else {
            f == (ListDecksState { confirm_delete: false, ..o }) && a is Stay
        }
    } else if key == Key::Char('q') || key == Key::Esc {
        f == o && a is GoBack
    } else if is_down(key) || is_up(key) {
        a is Stay && f == (ListDecksState { selected: moved(o.selected, o.shown().len(), is_down(key)), ..o })
    } else if key == Key::Char('/') {
        &&& a is Stay
        &&& f.decks == o.decks && f.search_active && f.search_query@.len() == 0
        &&& f.confirm_delete == o.confirm_delete
        &&& f.selected == first_row(f.shown().len())
    } else if key == Key::Char('d') || key == Key::Delete {
        a is Stay && f == (ListDecksState { confirm_delete: o.shown().len() > 0 && o.selected is Some, ..o })
    } else if key == Key::Enter || key == Key::Char('r') {
        f == o && with_deck(o, a, 0)
    } else if key == Key::Char('l') {
        f == o && with_deck(o, a, 1)
    } else if key == Key::Char('M') {
        f == o && with_deck(o, a, 3)
    } else {
        f == o && a is Stay
    }
}

impl ListDecksState {
    fn select_first(&mut self)
        ensures
            *final(self) == (ListDecksState { selected: first_row(old(self).shown().len()), ..*old(self) }),
    {
        let n = self.filtered_decks().len();
        self.selected = if n > 0 {
            Some(0)
        } else {
            None
        };
    }

    fn deck_action(&self, which: u8) -> (a: DecksAction)
        requires
            which < 4,
        ensures
            with_deck(*self, a, which as int),
    {
        match self.selected_deck() {
            None => DecksAction::Stay,
            Some(d) => if which == 0 {
                DecksAction::Review(d)
            } else if which == 1 {
                DecksAction::ListCards(d)
            } else if which == 2 {
                DecksAction::DeleteDeck(d)
            } else {
                DecksAction::SwitchDeckMode(d)
            },
        }
    }

    /// What a key does on the deck list (see `decks_key`).
    pub fn on_key(&mut self, key: Key) -> (a: DecksAction)
        ensures
            decks_key(*old(self), key, *final(self), a),
    {
        if self.search_active {
            if key == Key::Esc {
                self.search_query = String::new();
                self.search_active = false;
                self.select_first();
                DecksAction::Stay
            } else if key == Key::Backspace {
                crate::editor::edit_text(&mut self.search_query, None);
                self.select_first();
                DecksAction::Stay
            } else if down_key(key) {
                self.next();
                DecksAction::Stay
            } else if up_key(key) {
                self.prev();
                DecksAction::Stay
            } else if key == Key::Enter || key == Key::Char('r') {
                self.deck_action(0)
            } else {
                match key {
                    Key::Char(c) => {
                        self.search_query.push(c);
                        self.select_first();
                    },
                    _ => {},
                }
                DecksAction::Stay
            }
        } else if self.confirm_delete {
            if key == Key::Char('y') || key == Key::Char('Y') {
                self.deck_action(2)
            } else {
                self.confirm_delete = false;
                DecksAction::Stay
            }
        } else if key == Key::Char('q') || key == Key::Esc {
            DecksAction::GoBack
        } else if down_key(key) {
            self.next();
            DecksAction::Stay
        } else if up_key(key) {
            self.prev();
            DecksAction::Stay
        } else if key == Key::Char('/') {
            self.search_active = true;
            self.search_query = String::new();
            self.select_first();
            DecksAction::Stay
        } else if key == Key::Char('d') || key == Key::Delete {
            let n = self.filtered_decks().len();
            self.confirm_delete = n > 0 && self.selected.is_some();
            DecksAction::Stay
        } else if key == Key::Enter || key == Key::Char('r') {
            self.deck_action(0)
        } else if key == Key::Char('l') {
            self.deck_action(1)
        } else if key == Key::Char('M') {
            self.deck_action(3)
        } else {
            DecksAction::Stay
        }
    }
}

/// How many of the cards are daily cards.
pub open spec fn daily_count(cards: Seq<CardSummary>) -> nat
    decreases cards.len(),
{
    if cards.len() == 0 {
        0
    } else {
        daily_count(cards.drop_last()) + if cards.last().review_mode == ReviewMode::Daily {
            1nat
        } else {
            0nat
        }
    }
}

/// The mode a deck is switched to: spaced repetition when at least half of
/// its cards are daily cards, else daily.
pub fn deck_mode_after(cards: &[CardSummary]) -> (m: ReviewMode)
    ensures
        m == if daily_count(cards@) * 2 >= cards@.len() {
            ReviewMode::SpacedRepetition
        } else {
            ReviewMode::Daily
        },
{
    let mut d: usize = 0;
    let mut k: usize = 0;
    while k < cards.len()
        invariant
            k <= cards@.len(),
            d == daily_count(cards@.take(k as int)),
            d <= k,
        decreases cards@.len() - k,
    {
        assert(cards@.take(k + 1).drop_last() =~= cards@.take(k as int));
        if cards[k].review_mode.is_daily() {
            d += 1;
        }
        k += 1;
    }
    assert(cards@.take(k as int) =~= cards@);
    if d >= cards.len() - d {
        ReviewMode::SpacedRepetition
    } else {
        ReviewMode::Daily
    }
}

// ~~~ the export and import forms ~~~~~~~~~~~~~~~~~~~~~~~~~~~~~~~~~~~~~~~~~~~~~~~

/// What the export form asks of the program.
pub enum ExportAction {
    Stay,
    GoBack,
    /// pick the path in a file dialog
    Browse,
    /// write the export of the deck (`None`: every deck), with the review
    /// history reset or not, to the path
    Export(Option<String>, bool, String),
}

/// The path to write to: the typed one, trimmed, or `export.json`.
pub open spec fn export_target(path: Seq<char>) -> Seq<char> {
    if trim(path).len() == 0 {
        "export.json"@
    } else {
        trim(path)
    }
}

/// The export form's focus after Tab (forward) or Shift-Tab.
pub open spec fn export_focus_after(f: ExportFocus, forward: bool) -> ExportFocus {
    match f {
        ExportFocus::DeckList => if forward {
            ExportFocus::ResetToggle
        } else {
            ExportFocus::ConfirmBtn
        },
        ExportFocus::ResetToggle => if forward {
            ExportFocus::PathField
        } else {
            ExportFocus::DeckList
        },
        ExportFocus::PathField => if forward {
            ExportFocus::ConfirmBtn
        } else {
            ExportFocus::ResetToggle
        },
        ExportFocus::ConfirmBtn => if forward {
            ExportFocus::DeckList
        } else {
            ExportFocus::PathField
        },
    }
}

/// What a key does on the export form: `b` browses and `q` or Esc goes back
/// whatever has the focus; Tab and Shift-Tab move the focus; on the deck
/// list Down/`j` and Up/`k` move the highlight (and the default path with
/// it); space flips the reset toggle; on the path field characters and
/// Backspace edit the path; Enter on the button exports.
pub open spec fn export_key(o: ExportState, key: Key, f: ExportState, a: ExportAction) -> bool {
    if key == Key::Char('b') {
        f == o && a is Browse
    } else if key == Key::Char('q') || key == Key::Esc {
        f == o && a is GoBack
    } else if key == Key::Tab || key == Key::BackTab {
        a is Stay && f == (ExportState { focus: export_focus_after(o.focus, key == Key::Tab), ..o })
    } else if is_down(key) && o.focus == ExportFocus::DeckList {
        &&& a is Stay
        &&& f.decks == o.decks && f.focus == o.focus && f.reset_metadata == o.reset_metadata
        &&& f.path_edited == o.path_edited && f.status == o.status
        &&& f.selected == Some(
            match o.selected {
                Some(i) => if i + 1 < o.decks@.len() + 1 {
                    (i + 1) as usize
                } else {
                    o.decks@.len() as usize
                },
                None => 0usize,
            },
        )
        &&& f.path@ == if o.path_edited {
            o.path@
        } else {
            export_path(f.selected_deck_spec())
        }
    } else if is_up(key) && o.focus == ExportFocus::DeckList {
        &&& a is Stay
        &&& f.decks == o.decks && f.focus == o.focus && f.reset_metadata == o.reset_metadata
        &&& f.path_edited == o.path_edited && f.status == o.status
        &&& f.selected == Some(
            match o.selected {
                Some(i) => if i == 0 {
                    0usize
                } else {
                    (i - 1) as usize
                },
                None => 0usize,
            },
        )
        &&& f.path@ == if o.path_edited {
            o.path@
        } else {
            export_path(f.selected_deck_spec())
        }
    } else if key == Key::Char(' ') && o.focus == ExportFocus::ResetToggle {
        a is Stay && f == (ExportState { reset_metadata: !o.reset_metadata, ..o })
    } else if key == Key::Backspace && o.focus == ExportFocus::PathField {
        &&& a is Stay
        &&& f.decks == o.decks && f.focus == o.focus && f.reset_metadata == o.reset_metadata
        &&& f.selected == o.selected && f.status is None
        &&& f.path@ == if o.path@.len() > 0 {
            o.path@.drop_last()
        } else {
            o.path@
        }
        &&& f.path_edited == (f.path@.len() > 0)
    } else if key == Key::Enter && o.focus == ExportFocus::ConfirmBtn {
        &&& f == o
        &&& a matches ExportAction::Export(deck, reset, path) && {
            &&& match deck {
                Some(d) => o.selected_deck_spec() == Some(d@),
                None => o.selected_deck_spec() is None,
            }
            &&& reset == o.reset_metadata
            &&& path@ == export_target(o.path@)
        }
    } else {
        match key {
            Key::Char(c) => if o.focus == ExportFocus::PathField {
                &&& a is Stay
                &&& f.decks == o.decks && f.focus == o.focus && f.reset_metadata == o.reset_metadata
                &&& f.selected == o.selected && f.status is None
                &&& f.path@ == o.path@.push(c)
                &&& f.path_edited
            } else {
                f == o && a is Stay
            },
            _ => f == o && a is Stay,
        }
    }
}

impl ExportState {
    /// What a key does on the export form (see `export_key`).
    pub fn on_key(&mut self, key: Key) -> (a: ExportAction)
        requires
            old(self).decks@.len() < usize::MAX,
        ensures
            export_key(*old(self), key, *final(self), a),
    {
        if key == Key::Char('b') {
            ExportAction::Browse
        } else if key == Key::Char('q') || key == Key::Esc {
            ExportAction::GoBack
        } else if key == Key::Tab || key == Key::BackTab {
            let forward = key == Key::Tab;
            self.focus = match self.focus {
                ExportFocus::DeckList => if forward {
                    ExportFocus::ResetToggle
                } else {
                    ExportFocus::ConfirmBtn
                },
                ExportFocus::ResetToggle => if forward {
                    ExportFocus::PathField
                } else {
                    ExportFocus::DeckList
                },
                ExportFocus::PathField => if forward {
                    ExportFocus::ConfirmBtn
                } else {
                    ExportFocus::ResetToggle
                },
                ExportFocus::ConfirmBtn => if forward {
                    ExportFocus::DeckList
                } else {
                    ExportFocus::PathField
                },
            };
            ExportAction::Stay
        } else if down_key(key) && self.focus == ExportFocus::DeckList {
            self.list_next();
            ExportAction::Stay
        } else if up_key(key) && self.focus == ExportFocus::DeckList {
            self.list_prev();
            ExportAction::Stay
        } else if key == Key::Char(' ') && self.focus == ExportFocus::ResetToggle {
            self.reset_metadata = !self.reset_metadata;
            ExportAction::Stay
        } else if key == Key::Backspace && self.focus == ExportFocus::PathField {
            crate::editor::edit_text(&mut self.path, None);
            self.path_edited = chars_of(self.path.as_str()).len() > 0;
            self.status = None;
            ExportAction::Stay
        } else if key == Key::Enter && self.focus == ExportFocus::ConfirmBtn {
            let deck = self.selected_deck();
            let p = trimmed(self.path.as_str());
            let path = if chars_of(p.as_str()).len() == 0 {
                crate::text::concat("export.json", "")
            } else {
                p
            };
            proof {
                reveal_strlit("");
                assert("export.json"@ + ""@ =~= "export.json"@);
            }
            ExportAction::Export(deck, self.reset_metadata, path)
        } else {
            match key {
                Key::Char(c) => {
                    if self.focus == ExportFocus::PathField {
                        self.path.push(c);
                        self.path_edited = true;
                        self.status = None;
                    }
                },
                _ => {},
            }
            ExportAction::Stay
        }
    }
}

/// What the import form asks of the program.
pub enum ImportAction {
    Stay,
    GoBack,
    /// pick the file in a file dialog
    Browse,
    /// read and import the file at the path
    Import(String),
}

/// What a key does on the import form: `b` browses and `q` or Esc goes back
/// whatever has the focus; Tab and Shift-Tab switch between the path and
/// the button; on the path field characters and Backspace edit the path;
/// Enter on the button imports the file at the trimmed path.
pub open spec fn import_key(o: ImportState, key: Key, f: ImportState, a: ImportAction) -> bool {
    if key == Key::Char('b') {
        f == o && a is Browse
    } else if key == Key::Char('q') || key == Key::Esc {
        f == o && a is GoBack
    } else if key == Key::Tab || key == Key::BackTab {
        &&& a is Stay
        &&& f == (ImportState {
            focus: if o.focus == ImportFocus::PathField {
                ImportFocus::ConfirmBtn
            } else {
                ImportFocus::PathField
            },
            ..o
        })
    } else if key == Key::Backspace && o.focus == ImportFocus::PathField {
        &&& a is Stay
        &&& f.focus == o.focus && f.status is None
        &&& f.path@ == if o.path@.len() > 0 {
            o.path@.drop_last()
        } else {
            o.path@
        }
    } else if key == Key::Enter && o.focus == ImportFocus::ConfirmBtn {
        f == o && (a matches ImportAction::Import(p) && p@ == trim(o.path@))
    } else {
        match key {
            Key::Char(c) => if o.focus == ImportFocus::PathField {
                &&& a is Stay
                &&& f.focus == o.focus && f.status is None
                &&& f.path@ == o.path@.push(c)
            } else {
                f == o && a is Stay
            },
            _ => f == o && a is Stay,
        }
    }
}

impl ImportState {
    /// What a key does on the import form (see `import_key`).
    pub fn on_key(&mut self, key: Key) -> (a: ImportAction)
        ensures
            import_key(*old(self), key, *final(self), a),
    {
        if key == Key::Char('b') {
            ImportAction::Browse
        } else if key == Key::Char('q') || key == Key::Esc {
            ImportAction::GoBack
        } else if key == Key::Tab || key == Key::BackTab {
            self.focus = if self.focus == ImportFocus::PathField {
                ImportFocus::ConfirmBtn
            } else {
                ImportFocus::PathField
            };
            ImportAction::Stay
        } else if key == Key::Backspace && self.focus == ImportFocus::PathField {
            crate::editor::edit_text(&mut self.path, None);
            self.status = None;
            ImportAction::Stay
        } else if key == Key::Enter && self.focus == ImportFocus::ConfirmBtn {
            ImportAction::Import(trimmed(self.path.as_str()))
        } else {
            match key {
                Key::Char(c) => {
                    if self.focus == ImportFocus::PathField {
                        self.path.push(c);
                        self.status = None;
                    }
                },
                _ => {},
            }
            ImportAction::Stay
        }
    }
}

/// The status line after a successful export.
pub open spec fn exported_text(deck: Option<Seq<char>>, path: Seq<char>) -> Seq<char> {
    "\u{2713}  Exported "@ + match deck {
        Some(d) => d,
        None => "all decks"@,
    } + "  \u{2192}  "@ + path
}

/// The status line after a successful export.
pub fn exported_status(deck: Option<&str>, path: &str) -> (r: String)
    ensures
        r@ == exported_text(
            match deck {
                Some(d) => Some(d@),
                None => None,
            },
            path@,
        ),
{
    let mut r = String::new();
    push_all(&mut r, "\u{2713}  Exported ");
    match deck {
        Some(d) => push_all(&mut r, d),
        None => push_all(&mut r, "all decks"),
    }
    push_all(&mut r, "  \u{2192}  ");
    push_all(&mut r, path);
    r
}

/// The status line after a failed export or import.
pub fn failure_status(e: &str) -> (r: String)
    ensures
        r@ == "\u{2717}  "@ + e@,
{
    let mut r = String::new();
    push_all(&mut r, "\u{2717}  ");
    push_all(&mut r, e);
    r
}

/// The status line after an import.
pub open spec fn imported_text(added: nat, replaced: nat, items: nat) -> Seq<char> {
    "\u{2713}  "@ + decimal(added) + " card(s) added, "@ + decimal(replaced) + " replaced, "@ + decimal(items)
        + " item(s) total"@
}

/// The status line after an import.
pub fn imported_status(added: usize, replaced: usize, items: usize) -> (r: String)
    ensures
        r@ == imported_text(added as nat, replaced as nat, items as nat),
{
    let mut r = String::new();
    push_all(&mut r, "\u{2713}  ");
    push_decimal(&mut r, added);
    push_all(&mut r, " card(s) added, ");
    push_decimal(&mut r, replaced);
    push_all(&mut r, " replaced, ");
    push_decimal(&mut r, items);
    push_all(&mut r, " item(s) total");
    r
}

// ~~~ the main menu ~~~~~~~~~~~~~~~~~~~~~~~~~~~~~~~~~~~~~~~~~~~~~~~~~~~~~~~~~~~~~

/// What choosing a menu entry does.
#[derive(Debug, Clone, Copy, PartialEq, Eq, Structural)]
pub enum MenuChoice {
    Review,
    AddCard,
    ListDecks,
    ListCards,
    Stats,
    Export,
    Import,
    Quit,
}

/// The entry under the highlight: the seven screens in menu order, anything
/// else quits.
pub open spec fn menu_choice_spec(selected: Option<usize>) -> MenuChoice {
    match selected {
        Some(i) => if i == 0 {
            MenuChoice::Review
        } else if i == 1 {
            MenuChoice::AddCard
        } else if i == 2 {
            MenuChoice::ListDecks
        } else if i == 3 {
            MenuChoice::ListCards
        } else if i == 4 {
            MenuChoice::Stats
        } else if i == 5 {
            MenuChoice::Export
        } else if i == 6 {
            MenuChoice::Import
        } else {
            MenuChoice::Quit
        },
        None => MenuChoice::Quit,
    }
}

pub fn menu_choice(selected: Option<usize>) -> (c: MenuChoice)
    ensures
        c == menu_choice_spec(selected),
{
    match selected {
        Some(0) => MenuChoice::Review,
        Some(1) => MenuChoice::AddCard,
        Some(2) => MenuChoice::ListDecks,
        Some(3) => MenuChoice::ListCards,
        Some(4) => MenuChoice::Stats,
        Some(5) => MenuChoice::Export,
        Some(6) => MenuChoice::Import,
        _ => MenuChoice::Quit,
    }
}

/// A screen region, in terminal cells.
#[derive(Debug, Clone, Copy, PartialEq, Eq, Structural)]
pub struct Area {
    pub x: u16,
    pub y: u16,
    pub width: u16,
    pub height: u16,
}

/// The cell lies inside the region.
pub open spec fn inside(r: Area, col: u16, row: u16) -> bool {
    r.x <= col < r.x + r.width && r.y <= row < r.y + r.height
}

/// The rows of a bordered list drawn in `r`: from the row below the top
/// border up to (not including) the bottom border.
pub open spec fn list_rows(r: Area) -> (int, int) {
    (r.y + 1, r.y + if r.height > 0 { r.height - 1 } else { 0 })
}

/// The entry of a bordered list (drawn in `r`, scrolled down by `offset`
/// entries) under a click on row `row`; `None` on a border or outside.
pub fn list_row(r: Area, offset: usize, row: u16) -> (i: Option<usize>)
    requires
        r.y < u16::MAX,
        r.y + r.height <= u16::MAX,
        offset + u16::MAX <= usize::MAX,
    ensures
        i == (if list_rows(r).0 <= row < list_rows(r).1 {
            Some((offset + row - list_rows(r).0) as usize)
        } else {
            None
        }),
{
    let top = r.y + 1;
    let bottom = r.y + if r.height > 0 {
        r.height - 1
    } else {
        0
    };
    if row < top || row >= bottom {
        None
    } else {
        Some(offset + (row - top) as usize)
    }
}

/// The region a click at (`col`, `row`) lands on: the last registered one
/// that contains the cell (the one drawn on top).
pub fn hit_test(regions: &[Area], col: u16, row: u16) -> (r: Option<usize>)
    requires
        forall|k: int|
            0 <= k < regions@.len() ==> (#[trigger] regions@[k]).x + regions@[k].width <= u16::MAX
                && regions@[k].y + regions@[k].height <= u16::MAX,
    ensures
        match r {
            Some(k) => k < regions@.len() && inside(regions@[k as int], col, row) && forall|j: int|
                k < j < regions@.len() ==> !inside(#[trigger] regions@[j], col, row),
            None => forall|j: int| 0 <= j < regions@.len() ==> !inside(#[trigger] regions@[j], col, row),
        },
{
    let mut k = regions.len();
    while k > 0
        invariant
            k <= regions@.len(),
            forall|j: int| k <= j < regions@.len() ==> !inside(#[trigger] regions@[j], col, row),
            forall|j: int|
                0 <= j < regions@.len() ==> (#[trigger] regions@[j]).x + regions@[j].width <= u16::MAX
                    && regions@[j].y + regions@[j].height <= u16::MAX,
        decreases k,
    {
        let a = regions[k - 1];
        if col >= a.x && col < a.x + a.width && row >= a.y && row < a.y + a.height {
            return Some(k - 1);
        }
        k -= 1;
    }
    None
}

// ~~~ the card editor ~~~~~~~~~~~~~~~~~~~~~~~~~~~~~~~~~~~~~~~~~~~~~~~~~~~~~~~~~~~~~

/// What a key asks of the card editor; the program carries it out with the
/// editor's methods (and the store for `Save`, and the screens for
/// `GoBack` and `CloseEditor`).
#[derive(Debug, Clone, Copy, PartialEq, Eq, Structural)]
pub enum AddCommand {
    Nothing,
    GoBack,
    /// leave the editor of an existing card
    CloseEditor,
    BackToPicker,
    PickSimple,
    PickMulti,
    StartForm,
    SuggestDown,
    SuggestUp,
    InsertStep,
    Branch,
    RootPath,
    DeleteStep,
    DeleteBranch,
    StepDown,
    StepUp,
    EditStep,
    NextField,
    PrevField,
    ToggleReversible,
    ToggleChain,
    ToggleDaily,
    TakeSuggestion,
    CommitStep,
    Newline,
    Save,
    Backspace,
    Type(char),
}

/// What a key does in the card editor. Picking the kind: Up, Left, `h` or
/// `1` for a simple card, Down, Right, `l` or `2` for a step card, Enter to
/// go on, Esc to leave. In the form: Esc leaves the editor of an existing
/// card or goes back to picking the kind; on the deck field Down and Up
/// walk the deck suggestions and Enter takes one; on the steps list `i`
/// inserts a step after the highlighted one, `b` starts a branch under it,
/// `r` a new path from the question, `d` removes it (its children move up),
/// `D` removes it with everything below, Down and Up move the highlight and
/// Enter edits the step; Tab and Shift-Tab move between fields; space flips
/// the toggle that has the focus; Enter adds the step on the button, breaks
/// the line in a multi-line field, saves on the button and otherwise moves
/// on; Backspace and characters edit the focused field.
pub open spec fn add_command_spec(s: AddCardState, key: Key) -> AddCommand {
    let deck_field = s.focused == 0;
    let steps = s.kind == AddKind::Multi && s.focused == 5;
    let rev = s.kind == AddKind::Simple && s.focused == 3;
    let chain = s.kind == AddKind::Multi && s.focused == 6;
    let daily = match s.kind {
        AddKind::Simple => s.focused == 4,
        AddKind::Multi => s.focused == 7,
    };
    let save = s.focused == s.field_count_spec() - 1;
    let add_step = s.kind == AddKind::Multi && s.focused == 4;
    let multiline = match s.kind {
        AddKind::Simple => s.focused == 1 || s.focused == 2,
        AddKind::Multi => s.focused == 1 || s.focused == 3,
    };
    if s.phase == AddPhase::PickType {
        if key == Key::Esc {
            AddCommand::GoBack
        } else if key == Key::Up || key == Key::Left || key == Key::Char('h') || key == Key::Char('1') {
            AddCommand::PickSimple
        } else if key == Key::Down || key == Key::Right || key == Key::Char('l') || key == Key::Char('2') {
            AddCommand::PickMulti
        } else if key == Key::Enter {
            AddCommand::StartForm
        } else {
            AddCommand::Nothing
        }
    } else if key == Key::Esc {
        if s.editing_card_id is Some {
            AddCommand::CloseEditor
        } else {
            AddCommand::BackToPicker
        }
    } else if key == Key::Down && deck_field {
        AddCommand::SuggestDown
    } else if key == Key::Up && deck_field {
        AddCommand::SuggestUp
    } else if steps && key == Key::Char('i') {
        AddCommand::InsertStep
    } else if steps && key == Key::Char('b') {
        AddCommand::Branch
    } else if steps && key == Key::Char('r') {
        AddCommand::RootPath
    } else if steps && (key == Key::Char('d') || key == Key::Delete) {
        AddCommand::DeleteStep
    } else if steps && key == Key::Char('D') {
        AddCommand::DeleteBranch
    } else if steps && key == Key::Down {
        AddCommand::StepDown
    } else if steps && key == Key::Up {
        AddCommand::StepUp
    } else if key == Key::Tab {
        AddCommand::NextField
    } else if key == Key::BackTab {
        AddCommand::PrevField
    } else if key == Key::Char(' ') && rev {
        AddCommand::ToggleReversible
    } else if key == Key::Char(' ') && chain {
        AddCommand::ToggleChain
    } else if key == Key::Char(' ') && daily {
        AddCommand::ToggleDaily
    } else if key == Key::Enter && steps {
        AddCommand::EditStep
    } else if key == Key::Enter && deck_field && s.deck_list_idx is Some {
        AddCommand::TakeSuggestion
    } else if key == Key::Enter && add_step {
        AddCommand::CommitStep
    } else if key == Key::Enter && multiline {
        AddCommand::Newline
    } else if key == Key::Enter && save {
        AddCommand::Save
    } else if key == Key::Enter {
        AddCommand::NextField
    } else if key == Key::Backspace {
        AddCommand::Backspace
    } else {
        match key {
            Key::Char(c) => if !rev && !chain && !daily && !save {
                AddCommand::Type(c)
            } else {
                AddCommand::Nothing
            },
            _ => AddCommand::Nothing,
        }
    }
}

impl AddCardState {
    /// What a key asks of the card editor (see `add_command_spec`).
    pub fn add_command(&self, key: Key) -> (c: AddCommand)
        ensures
            c == add_command_spec(*self, key),
    {
        let deck_field = self.focused == 0;
        let steps = self.is_steps_list();
        let rev = self.is_reversible();
        let chain = self.is_show_chain();
        let daily = self.is_daily_toggle();
        let save = self.is_save();
        let add_step = self.is_add_step_button();
        let multiline = self.is_multiline_field();
        if self.phase == AddPhase::PickType {
            if key == Key::Esc {
                AddCommand::GoBack
            } else if key == Key::Up || key == Key::Left || key == Key::Char('h') || key == Key::Char('1') {
                AddCommand::PickSimple
            } else if key == Key::Down || key == Key::Right || key == Key::Char('l') || key == Key::Char('2') {
                AddCommand::PickMulti
            } else if key == Key::Enter {
                AddCommand::StartForm
            } else {
                AddCommand::Nothing
            }
        } else if key == Key::Esc {
            if self.editing_card_id.is_some() {
                AddCommand::CloseEditor
            } else {
                AddCommand::BackToPicker
            }
        } else if key == Key::Down && deck_field {
            AddCommand::SuggestDown
        } else if key == Key::Up && deck_field {
            AddCommand::SuggestUp
        } else if steps && key == Key::Char('i') {
            AddCommand::InsertStep
        } else if steps && key == Key::Char('b') {
            AddCommand::Branch
        } else if steps && key == Key::Char('r') {
            AddCommand::RootPath
        } else if steps && (key == Key::Char('d') || key == Key::Delete) {
            AddCommand::DeleteStep
        } else if steps && key == Key::Char('D') {
            AddCommand::DeleteBranch
        } else if steps && key == Key::Down {
            AddCommand::StepDown
        } else if steps && key == Key::Up {
            AddCommand::StepUp
        } else if key == Key::Tab {
            AddCommand::NextField
        } else if key == Key::BackTab {
            AddCommand::PrevField
        } else if key == Key::Char(' ') && rev {
            AddCommand::ToggleReversible
        } else if key == Key::Char(' ') && chain {
            AddCommand::ToggleChain
        } else if key == Key::Char(' ') && daily {
            AddCommand::ToggleDaily
        } else if key == Key::Enter && steps {
            AddCommand::EditStep
        } else if key == Key::Enter && deck_field && self.deck_list_idx.is_some() {
            AddCommand::TakeSuggestion
        } else if key == Key::Enter && add_step {
            AddCommand::CommitStep
        } else if key == Key::Enter && multiline {
            AddCommand::Newline
        } else if key == Key::Enter && save {
            AddCommand::Save
        } else if key == Key::Enter {
            AddCommand::NextField
        } else if key == Key::Backspace {
            AddCommand::Backspace
        } else {
            match key {
                Key::Char(c) => if !rev && !chain && !daily && !save {
                    AddCommand::Type(c)
                } else {
                    AddCommand::Nothing
                },
                _ => AddCommand::Nothing,
            }
        }
    }

    /// Back from the form to picking the kind, focus on the first field and
    /// the error cleared.
    pub fn back_to_picker(&mut self)
        ensures
            *final(self) == (AddCardState { phase: AddPhase::PickType, focused: 0, error: None, ..*old(self) }),
    {
        self.phase = AddPhase::PickType;
        self.focused = 0;
        self.error = None;
    }

    /// The highlight one down the deck suggestions (stopping at the last);
    /// nothing when there are none.
    pub fn suggest_down(&mut self)
        ensures
            *final(self) == (AddCardState {
                deck_list_idx: if old(self).deck_matches().len() > 0 {
                    Some(
                        match old(self).deck_list_idx {
                            Some(i) => if i + 1 < old(self).deck_matches().len() {
                                (i + 1) as usize
                            } else {
                                (old(self).deck_matches().len() - 1) as usize
                            },
                            None => 0usize,
                        },
                    )
                } else {
                    old(self).deck_list_idx
                },
                ..*old(self)
            }),
    {
        let n = self.filtered_decks().len();
        if n > 0 {
            self.deck_list_idx = Some(
                match self.deck_list_idx {
                    Some(i) => if i < n - 1 {
                        i + 1
                    } else {
                        n - 1
                    },
                    None => 0,
                },
            );
        }
    }

    /// The highlight one up the deck suggestions; off them from the first.
    pub fn suggest_up(&mut self)
        ensures
            *final(self) == (AddCardState {
                deck_list_idx: match old(self).deck_list_idx {
                    Some(i) => if i == 0 {
                        None
                    } else {
                        Some((i - 1) as usize)
                    },
                    None => None,
                },
                ..*old(self)
            }),
    {
        self.deck_list_idx = match self.deck_list_idx {
            Some(i) => if i == 0 {
                None
            } else {
                Some(i - 1)
            },
            None => None,
        };
    }

    /// The steps list's highlight one down (stopping at the last); a
    /// pending branch or path target is dropped.
    pub fn step_down(&mut self)
        ensures
            *final(self) == (AddCardState {
                step_selected: if old(self).steps@.len() > 0 {
                    Some(
                        match old(self).step_selected {
                            Some(i) => if i + 1 < old(self).steps@.len() {
                                (i + 1) as usize
                            } else {
                                (old(self).steps@.len() - 1) as usize
                            },
                            None => 0usize,
                        },
                    )
                } else {
                    old(self).step_selected
                },
                pending_parent: None,
                ..*old(self)
            }),
    {
        let n = self.steps.len();
        if n > 0 {
            self.step_selected = Some(
                match self.step_selected {
                    Some(i) => if i < n - 1 {
                        i + 1
                    } else {
                        n - 1
                    },
                    None => 0,
                },
            );
        }
        self.pending_parent = None;
    }

    /// The steps list's highlight one up (stopping at the first; from no
    /// highlight, the last row); a pending branch or path target is dropped.
    pub fn step_up(&mut self)
        ensures
            *final(self) == (AddCardState {
                step_selected: if old(self).steps@.len() > 0 {
                    Some(
                        match old(self).step_selected {
                            Some(i) => if i > 0 {
                                (i - 1) as usize
                            } else {
                                0usize
                            },
                            None => (old(self).steps@.len() - 1) as usize,
                        },
                    )
                } else {
                    old(self).step_selected
                },
                pending_parent: None,
                ..*old(self)
            }),
    {
        let n = self.steps.len();
        if n > 0 {
            self.step_selected = Some(
                match self.step_selected {
                    Some(i) => if i > 0 {
                        i - 1
                    } else {
                        0
                    },
                    None => n - 1,
                },
            );
        }
        self.pending_parent = None;
    }

    /// Opens the highlighted step in the step fields for editing, focus on
    /// its name.
    pub fn edit_selected_step(&mut self)
        ensures
            match old(self).step_selected {
                Some(i) => if i < old(self).steps@.len() {
                    let d = old(self).steps@[i as int];
                    &&& final(self).step_name_buf@ == d.name@
                    &&& final(self).step_buf@ == d.answer@
                    &&& final(self).step_image_path == d.image
                    &&& *final(self) == (AddCardState {
                        step_name_buf: final(self).step_name_buf,
                        step_buf: final(self).step_buf,
                        step_image_path: final(self).step_image_path,
                        editing_step_idx: Some(i),
                        focused: 2,
                        ..*old(self)
                    })
                } else {
                    *final(self) == *old(self)
                },
                None => *final(self) == *old(self),
            },
    {
        match self.step_selected {
            Some(i) => {
                if i < self.steps.len() {
                    let d = self.steps[i].duplicate();
                    self.step_name_buf = d.name;
                    self.step_buf = d.answer;
                    self.step_image_path = d.image;
                    self.editing_step_idx = Some(i);
                    self.focused = 2;
                }
            },
            None => {},
        }
    }

    /// Tab or Shift-Tab: the deck suggestions close and the focus moves.
    pub fn move_focus(&mut self, forward: bool)
        requires
            old(self).focused < usize::MAX,
        ensures
            *final(self) == (AddCardState {
                deck_list_idx: None,
                focused: if forward {
                    ((old(self).focused + 1) % old(self).field_count_spec() as int) as usize
                } else if old(self).focused == 0 {
                    (old(self).field_count_spec() - 1) as usize
                } else {
                    (old(self).focused - 1) as usize
                },
                ..*old(self)
            }),
    {
        self.deck_list_idx = None;
        if forward {
            self.next_field();
        } else {
            self.prev_field();
        }
    }

    /// Flips the toggle with the focus: reversible (simple cards), show
    /// chain (step cards) or the review mode.
    pub fn flip_toggle(&mut self, which: AddCommand)
        ensures
            which == AddCommand::ToggleReversible ==> *final(self) == (AddCardState {
                reversible: !old(self).reversible,
                ..*old(self)
            }),
            which == AddCommand::ToggleChain ==> *final(self) == (AddCardState {
                show_chain: !old(self).show_chain,
                ..*old(self)
            }),
            which == AddCommand::ToggleDaily ==> *final(self) == (AddCardState {
                review_mode: if old(self).review_mode == ReviewMode::Daily {
                    ReviewMode::SpacedRepetition
                } else {
                    ReviewMode::Daily
                },
                ..*old(self)
            }),
            which != AddCommand::ToggleReversible && which != AddCommand::ToggleChain && which
                != AddCommand::ToggleDaily ==> *final(self) == *old(self),
    {
        if which == AddCommand::ToggleReversible {
            self.reversible = !self.reversible;
        } else if which == AddCommand::ToggleChain {
            self.show_chain = !self.show_chain;
        } else if which == AddCommand::ToggleDaily {
            self.review_mode = if self.review_mode.is_daily() {
                ReviewMode::SpacedRepetition
            } else {
                ReviewMode::Daily
            };
        }
    }

    /// Takes the highlighted deck suggestion as the deck and moves on.
    pub fn take_suggestion(&mut self)
        requires
            old(self).focused < usize::MAX,
        ensures
            match old(self).deck_list_idx {
                Some(i) => if i < old(self).deck_matches().len() {
                    &&& final(self).deck@ == old(self).deck_matches()[i as int]
                    &&& *final(self) == (AddCardState {
                        deck: final(self).deck,
                        deck_list_idx: None,
                        focused: ((old(self).focused + 1) % old(self).field_count_spec() as int) as usize,
                        ..*old(self)
                    })
                } else {
                    *final(self) == *old(self)
                },
                None => *final(self) == *old(self),
            },
    {
        match self.selected_suggestion() {
            Some(d) => {
                self.deck = d;
                self.deck_list_idx = None;
                self.next_field();
            },
            None => {},
        }
    }

    /// After Enter on the add-step button added nothing, the focus goes
    /// back to the step answer.
    pub fn refocus_step_answer(&mut self)
        ensures
            *final(self) == (AddCardState {
                focused: if old(self).focused == 4 {
                    3
                } else {
                    old(self).focused
                },
                ..*old(self)
            }),
    {
        if self.focused == 4 {
            self.focused = 3;
        }
    }
}

// ~~~ clicks ~~~~~~~~~~~~~~~~~~~~~~~~~~~~~~~~~~~~~~~~~~~~~~~~~~~~~~~~~~~~~~~~~~~~

/// The lists whose rows a click can land on.
#[derive(Debug, Clone, Copy, PartialEq, Eq, Structural)]
pub enum ClickList {
    Menu,
    Steps,
    DeckSuggestions,
    Decks,
    Cards,
    TagPicker,
    ExportDecks,
}

/// What a click asks for.
#[derive(Debug, Clone, Copy, PartialEq, Eq, Structural)]
pub enum ClickCommand {
    Nothing,
    /// a row of a list, found from where the click landed
    Row(ClickList),
    /// the type picker's choice: that kind, and on to the form
    PickKind(AddKind),
    /// a text field of the card form takes the focus
    FocusField(usize),
    /// a toggle or button of the card form takes the focus and the key
    /// presses it
    PressControl(usize, Key),
    /// the review screen acts as on this key
    ReviewKey(Key),
    /// a part of the export form takes the focus, and a key may press it
    ExportControl(ExportFocus, Option<Key>),
    /// a part of the import form takes the focus, and a key may press it
    ImportControl(ImportFocus, Option<Key>),
}

/// What a click on each target does: rows of lists are looked up where the
/// click landed; the type picker picks; a form field takes the focus; a
/// toggle is pressed with space and a button with Enter; on the review
/// screen the card shows the answer (space), a rating button rates with
/// its digit, and the leech prompt's lines answer with `1`, `2` or `c`;
/// the export toggle is pressed with space and the confirm buttons with
/// Enter, the path fields only take the focus.
pub open spec fn click_command_spec(t: ClickTarget) -> ClickCommand {
    match t {
        ClickTarget::MenuList => ClickCommand::Row(ClickList::Menu),
        ClickTarget::PickSimple => ClickCommand::PickKind(AddKind::Simple),
        ClickTarget::PickMulti => ClickCommand::PickKind(AddKind::Multi),
        ClickTarget::AddCardField(i) => ClickCommand::FocusField(i),
        ClickTarget::AddCardToggle(i) => ClickCommand::PressControl(i, Key::Char(' ')),
        ClickTarget::AddCardButton(i) => ClickCommand::PressControl(i, Key::Enter),
        ClickTarget::StepsList => ClickCommand::Row(ClickList::Steps),
        ClickTarget::DeckSuggestions => ClickCommand::Row(ClickList::DeckSuggestions),
        ClickTarget::ReviewCard => ClickCommand::ReviewKey(Key::Char(' ')),
        ClickTarget::ReviewRate(n) => if n < 10 {
            ClickCommand::ReviewKey(Key::Char(digit(n as nat)))
        } else {
            ClickCommand::Nothing
        },
        ClickTarget::LeechMarkBlindSpot => ClickCommand::ReviewKey(Key::Char('1')),
        ClickTarget::LeechSplit => ClickCommand::ReviewKey(Key::Char('2')),
        ClickTarget::LeechIgnore => ClickCommand::ReviewKey(Key::Char('c')),
        ClickTarget::DecksList => ClickCommand::Row(ClickList::Decks),
        ClickTarget::CardsList => ClickCommand::Row(ClickList::Cards),
        ClickTarget::TagPickerList => ClickCommand::Row(ClickList::TagPicker),
        ClickTarget::ExportDeckList => ClickCommand::Row(ClickList::ExportDecks),
        ClickTarget::ExportToggle => ClickCommand::ExportControl(ExportFocus::ResetToggle, Some(Key::Char(' '))),
        ClickTarget::ExportPathField => ClickCommand::ExportControl(ExportFocus::PathField, None),
        ClickTarget::ExportConfirmBtn => ClickCommand::ExportControl(ExportFocus::ConfirmBtn, Some(Key::Enter)),
        ClickTarget::ImportPathField => ClickCommand::ImportControl(ImportFocus::PathField, None),
        ClickTarget::ImportConfirmBtn => ClickCommand::ImportControl(ImportFocus::ConfirmBtn, Some(Key::Enter)),
    }
}

/// What a click on `t` does (see `click_command_spec`).
pub fn click_command(t: ClickTarget) -> (c: ClickCommand)
    ensures
        c == click_command_spec(t),
{
    match t {
        ClickTarget::MenuList => ClickCommand::Row(ClickList::Menu),
        ClickTarget::PickSimple => ClickCommand::PickKind(AddKind::Simple),
        ClickTarget::PickMulti => ClickCommand::PickKind(AddKind::Multi),
        ClickTarget::AddCardField(i) => ClickCommand::FocusField(i),
        ClickTarget::AddCardToggle(i) => ClickCommand::PressControl(i, Key::Char(' ')),
        ClickTarget::AddCardButton(i) => ClickCommand::PressControl(i, Key::Enter),
        ClickTarget::StepsList => ClickCommand::Row(ClickList::Steps),
        ClickTarget::DeckSuggestions => ClickCommand::Row(ClickList::DeckSuggestions),
        ClickTarget::ReviewCard => ClickCommand::ReviewKey(Key::Char(' ')),
        ClickTarget::ReviewRate(n) => if n < 10 {
            ClickCommand::ReviewKey(Key::Char(digit_char(n as usize)))
        } else {
            ClickCommand::Nothing
        },
        ClickTarget::LeechMarkBlindSpot => ClickCommand::ReviewKey(Key::Char('1')),
        ClickTarget::LeechSplit => ClickCommand::ReviewKey(Key::Char('2')),
        ClickTarget::LeechIgnore => ClickCommand::ReviewKey(Key::Char('c')),
        ClickTarget::DecksList => ClickCommand::Row(ClickList::Decks),
        ClickTarget::CardsList => ClickCommand::Row(ClickList::Cards),
        ClickTarget::TagPickerList => ClickCommand::Row(ClickList::TagPicker),
        ClickTarget::ExportDeckList => ClickCommand::Row(ClickList::ExportDecks),
        ClickTarget::ExportToggle => ClickCommand::ExportControl(ExportFocus::ResetToggle, Some(Key::Char(' '))),
        ClickTarget::ExportPathField => ClickCommand::ExportControl(ExportFocus::PathField, None),
        ClickTarget::ExportConfirmBtn => ClickCommand::ExportControl(ExportFocus::ConfirmBtn, Some(Key::Enter)),
        ClickTarget::ImportPathField => ClickCommand::ImportControl(ImportFocus::PathField, None),
        ClickTarget::ImportConfirmBtn => ClickCommand::ImportControl(ImportFocus::ConfirmBtn, Some(Key::Enter)),
    }
}

} // verus!
