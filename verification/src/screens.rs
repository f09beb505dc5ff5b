//! The screens of the program and the plain state behind them: which screen
//! is showing, the menu, the card and deck lists with their searches, the
//! export and import forms.

use vstd::prelude::*;
use crate::models::CardSummary;
use crate::text::{chars_of, string_of, lowercase, to_lower, has_substring, contains, push_all, concat, alphanumeric, is_alphanumeric};
use crate::editor::filter_containing;

verus! {

/// The screens.
#[derive(Debug, Clone, Copy, PartialEq, Eq, Structural)]
pub enum Screen {
    MainMenu,
    Stats,
    Review,
    AddCard,
    ListDecks,
    ListCards,
    Export,
    Import,
}

/// Which screen shows, and the one to go back to.
pub struct Nav {
    pub screen: Screen,
    pub prev_screen: Screen,
}

impl Nav {
    /// Starts on the main menu.
    pub fn new() -> (n: Nav)
        ensures
            n.screen == Screen::MainMenu,
            n.prev_screen == Screen::MainMenu,
    {
        Nav { screen: Screen::MainMenu, prev_screen: Screen::MainMenu }
    }

    /// Goes to a screen, remembering where it came from.
    pub fn go_to(&mut self, screen: Screen)
        ensures
            final(self).screen == screen,
            final(self).prev_screen == old(self).screen,
    {
        self.prev_screen = self.screen;
        self.screen = screen;
    }

    /// Goes back one level; after that, back leads to the main menu.
    pub fn go_back(&mut self)
        ensures
            final(self).screen == old(self).prev_screen,
            final(self).prev_screen == Screen::MainMenu,
    {
        let dest = self.prev_screen;
        self.prev_screen = Screen::MainMenu;
        self.screen = dest;
    }
}

/// How many entries the main menu has.
pub const MENU_ITEMS: usize = 8;

/// The menu highlight one down, wrapping around (the first entry when none).
pub fn menu_down(selected: Option<usize>) -> (r: usize)
    ensures
        r == match selected {
            Some(i) => (i + 1) % (MENU_ITEMS as int),
            None => 0,
        },
{
    match selected {
        Some(i) => {
            if i < MENU_ITEMS {
                (i + 1) % MENU_ITEMS
            } else {
                ((i % MENU_ITEMS) + 1) % MENU_ITEMS
            }
        },
        None => 0,
    }
}

/// The menu highlight one up, wrapping around (the first entry when none).
pub fn menu_up(selected: Option<usize>) -> (r: usize)
    ensures
        r == match selected {
            Some(i) => if i == 0 {
                MENU_ITEMS - 1
            } else {
                i - 1
            },
            None => 0,
        },
{
    match selected {
        Some(i) => if i == 0 {
            MENU_ITEMS - 1
        } else {
            i - 1
        },
        None => 0,
    }
}

/// A review card's two phases.
#[derive(Debug, Clone, Copy, PartialEq, Eq, Structural)]
pub enum ReviewPhase {
    Thinking,
    Revealed,
}

/// Where typing goes during review while the scratchpad is open.
#[derive(Debug, Clone, Copy, PartialEq, Eq, Structural)]
pub enum ReviewFocus {
    Card,
    Scratchpad,
}

/// Where the card search looks.
#[derive(Debug, Clone, Copy, PartialEq, Eq, Structural)]
pub enum SearchScope {
    /// question and deck
    Questions,
    /// the items' answers
    Answers,
    /// question, deck and answers
    Both,
}

impl SearchScope {
    pub open spec fn label_spec(self) -> Seq<char> {
        match self {
            SearchScope::Questions => "Q"@,
            SearchScope::Answers => "A"@,
            SearchScope::Both => "Q+A"@,
        }
    }

    /// The scope's short name in the search bar.
    pub fn label(self) -> (r: &'static str)
        ensures
            r@ == self.label_spec(),
    {
        match self {
            SearchScope::Questions => "Q",
            SearchScope::Answers => "A",
            SearchScope::Both => "Q+A",
        }
    }

    /// The scopes in turn: questions, answers, both, questions again.
    pub open spec fn next_spec(self) -> SearchScope {
        match self {
            SearchScope::Questions => SearchScope::Answers,
            SearchScope::Answers => SearchScope::Both,
            SearchScope::Both => SearchScope::Questions,
        }
    }

    /// The scopes in turn: questions, answers, both, questions again.
    pub fn next(self) -> (r: SearchScope)
        ensures
            r == self.next_spec(),
    {
        match self {
            SearchScope::Questions => SearchScope::Answers,
            SearchScope::Answers => SearchScope::Both,
            SearchScope::Both => SearchScope::Questions,
        }
    }
}

impl std::default::Default for SearchScope {
    fn default() -> (r: SearchScope)
        ensures
            r == SearchScope::Questions,
    {
        SearchScope::Questions
    }
}

/// The highlight one down a list of `n`, wrapping (the first row when none);
/// unchanged for an empty list.
pub fn list_next(selected: Option<usize>, n: usize) -> (r: Option<usize>)
    ensures
        r == if n == 0 {
            selected
        } else {
            Some(
                match selected {
                    Some(i) => ((i + 1) % (n as int)) as usize,
                    None => 0usize,
                },
            )
        },
{
    if n == 0 {
        return selected;
    }
    match selected {
        Some(i) => {
            if i < n {
                Some((i + 1) % n)
            } else {
                let r = ((i % n) + 1) % n;
                assert(r == (i + 1) % (n as int)) by (nonlinear_arith)
                    requires
                        n > 0,
                        r == ((i % n) + 1) % (n as int),
                {
                    vstd::arithmetic::div_mod::lemma_add_mod_noop(i as int, 1, n as int);
                }
                Some(r)
            }
        },
        None => Some(0),
    }
}

/// The highlight one up a list of `n`, wrapping (the first row when none);
/// unchanged for an empty list.
pub fn list_prev(selected: Option<usize>, n: usize) -> (r: Option<usize>)
    ensures
        r == if n == 0 {
            selected
        } else {
            Some(
                match selected {
                    Some(i) => if i == 0 {
                        (n - 1) as usize
                    } else {
                        (i - 1) as usize
                    },
                    None => 0usize,
                },
            )
        },
{
    if n == 0 {
        return selected;
    }
    match selected {
        Some(i) => if i == 0 {
            Some(n - 1)
        } else {
            Some(i - 1)
        },
        None => Some(0),
    }
}

/// The state of the card list.
pub struct ListCardsState {
    pub cards: Vec<CardSummary>,
    pub selected: Option<usize>,
    pub deck: Option<String>,
    pub confirm_delete: bool,
    pub search_query: String,
    pub search_active: bool,
    pub search_scope: SearchScope,
    pub tag_filter: Vec<String>,
    pub tag_picker_active: bool,
    pub tag_picker_tags: Vec<String>,
    pub tag_picker_selected: Option<usize>,
}

/// A card passes the search: the lower-cased query occurs, ignoring case,
/// in what the scope looks at, and the card carries every filter tag.
pub open spec fn card_shown(c: CardSummary, q: Seq<char>, scope: SearchScope, tags: Seq<Seq<char>>) -> bool {
    let text_ok = q.len() == 0 || match scope {
        SearchScope::Questions => has_substring(lowercase(c.question@), q) || has_substring(lowercase(c.deck@), q),
        SearchScope::Answers => has_substring(lowercase(c.answers_text@), q),
        SearchScope::Both => has_substring(lowercase(c.question@), q) || has_substring(lowercase(c.deck@), q)
            || has_substring(lowercase(c.answers_text@), q),
    };
    let tag_ok = tags.len() == 0 || forall|k: int|
        0 <= k < tags.len() ==> c.tags@.map_values(|t: String| t@).contains(#[trigger] tags[k]);
    text_ok && tag_ok
}

fn text_contains(hay: &String, q: &Vec<char>) -> (b: bool)
    ensures
        b == has_substring(lowercase(hay@), q@),
{
    let low = to_lower(hay.as_str());
    let lc = chars_of(low.as_str());
    contains(&lc, q)
}

pub(crate) fn has_tag(tags: &Vec<String>, t: &String) -> (b: bool)
    ensures
        b == tags@.map_values(|x: String| x@).contains(t@),
{
    let ghost names = tags@.map_values(|x: String| x@);
    let mut k: usize = 0;
    while k < tags.len()
        invariant
            names == tags@.map_values(|x: String| x@),
            k <= tags@.len(),
            forall|q: int| 0 <= q < k ==> names[q] != t@,
        decreases tags@.len() - k,
    {
        if crate::text::same_text(tags[k].as_str(), t.as_str()) {
            assert(names[k as int] == t@);
            return true;
        }
        k += 1;
    }
    false
}

impl ListCardsState {
    /// The list over `cards`, the first row highlighted when there is one.
    pub fn new(cards: Vec<CardSummary>, deck: Option<String>) -> (s: ListCardsState)
        ensures
            s.cards == cards,
            s.deck == deck,
            s.selected == if cards@.len() > 0 {
                Some(0usize)
            } else {
                None
            },
            !s.confirm_delete,
            s.search_query@.len() == 0,
            !s.search_active,
            s.search_scope == SearchScope::Questions,
            s.tag_filter@.len() == 0,
            !s.tag_picker_active,
            s.tag_picker_tags@.len() == 0,
            s.tag_picker_selected is None,
    {
        let selected = if cards.len() > 0 {
            Some(0)
        } else {
            None
        };
        ListCardsState {
            cards,
            selected,
            deck,
            confirm_delete: false,
            search_query: String::new(),
            search_active: false,
            search_scope: SearchScope::Questions,
            tag_filter: Vec::new(),
            tag_picker_active: false,
            tag_picker_tags: Vec::new(),
            tag_picker_selected: None,
        }
    }

    /// The positions of the cards that pass the search and the tag filter.
    pub open spec fn shown(&self) -> Seq<int> {
        Seq::new(self.cards@.len(), |k: int| k).filter(
            |k: int|
                card_shown(
                    self.cards@[k],
                    lowercase(self.search_query@),
                    self.search_scope,
                    self.tag_filter@.map_values(|t: String| t@),
                ),
        )
    }

    /// A click on row `i` of the list: a row that shows a card takes the
    /// highlight.
    pub fn click_row(&mut self, i: usize)
        ensures
            *final(self) == if i < old(self).shown().len() {
                (ListCardsState { selected: Some(i), ..*old(self) })
            } else {
                *old(self)
            },
    {
        let n = self.filtered_cards().len();
        if i < n {
            self.selected = Some(i);
        }
    }

    /// A click on row `i` of the tag picker: a row that shows a tag takes
    /// the highlight. Says whether it was one.
    pub fn click_tag_row(&mut self, i: usize) -> (hit: bool)
        ensures
            hit == (i < old(self).tag_picker_tags@.len()),
            *final(self) == if hit {
                (ListCardsState { tag_picker_selected: Some(i), ..*old(self) })
            } else {
                *old(self)
            },
    {
        if i < self.tag_picker_tags.len() {
            self.tag_picker_selected = Some(i);
            true
        } else {
            false
        }
    }

    /// The positions of the cards that pass the search and the tag filter.
    pub fn filtered_cards(&self) -> (r: Vec<usize>)
        ensures
            r@.map_values(|k: usize| k as int) == self.shown(),
            forall|j: int| 0 <= j < r@.len() ==> #[trigger] r@[j] < self.cards@.len(),
    {
        let q = to_lower(self.search_query.as_str());
        let qc = chars_of(q.as_str());
        let ghost tags = self.tag_filter@.map_values(|t: String| t@);
        let ghost pred = |k: int|
            card_shown(self.cards@[k], lowercase(self.search_query@), self.search_scope, tags);
        let ghost all = Seq::new(self.cards@.len(), |k: int| k);
        let mut r: Vec<usize> = Vec::new();
        let mut k: usize = 0;
        while k < self.cards.len()
            invariant
                qc@ == lowercase(self.search_query@),
                tags == self.tag_filter@.map_values(|t: String| t@),
                pred == (|k: int| card_shown(self.cards@[k], lowercase(self.search_query@), self.search_scope, tags)),
                all == Seq::new(self.cards@.len(), |k: int| k),
                k <= self.cards@.len(),
                r@.map_values(|k: usize| k as int) == all.take(k as int).filter(pred),
                forall|j: int| 0 <= j < r@.len() ==> #[trigger] r@[j] < k,
            decreases self.cards@.len() - k,
        {
            proof {
                assert(all.take(k + 1) =~= all.take(k as int).push(k as int));
                all.take(k as int).lemma_filter_push(k as int, pred);
            }
            let c = &self.cards[k];
            let text_ok = qc.len() == 0 || match self.search_scope {
                SearchScope::Questions => text_contains(&c.question, &qc) || text_contains(&c.deck, &qc),
                SearchScope::Answers => text_contains(&c.answers_text, &qc),
                SearchScope::Both => text_contains(&c.question, &qc) || text_contains(&c.deck, &qc)
                    || text_contains(&c.answers_text, &qc),
            };
            let mut tag_ok = true;
            let mut j: usize = 0;
            while j < self.tag_filter.len()
                invariant
                    tags == self.tag_filter@.map_values(|t: String| t@),
                    j <= self.tag_filter@.len(),
                    tag_ok == forall|q: int|
                        0 <= q < j ==> c.tags@.map_values(|t: String| t@).contains(#[trigger] tags[q]),
                decreases self.tag_filter@.len() - j,
            {
                assert(tags[j as int] == self.tag_filter@[j as int]@);
                if !has_tag(&c.tags, &self.tag_filter[j]) {
                    tag_ok = false;
                }
                j += 1;
            }
            if text_ok && tag_ok {
                let ghost before = r@.map_values(|k: usize| k as int);
                r.push(k);
                assert(r@.map_values(|k: usize| k as int) =~= before.push(k as int));
            }
            k += 1;
        }
        assert(all.take(self.cards@.len() as int) =~= all);
        r
    }

    /// The highlight one row down among the shown cards, wrapping.
    pub fn next(&mut self)
        ensures
            final(self).selected == if old(self).shown().len() == 0 {
                old(self).selected
            } else {
                Some(
                    match old(self).selected {
                        Some(i) => ((i + 1) % old(self).shown().len() as int) as usize,
                        None => 0usize,
                    },
                )
            },
            *final(self) == (ListCardsState { selected: final(self).selected, ..*old(self) }),
    {
        let n = self.filtered_cards().len();
        self.selected = list_next(self.selected, n);
    }

    /// The highlight one row up among the shown cards, wrapping.
    pub fn prev(&mut self)
        ensures
            final(self).selected == if old(self).shown().len() == 0 {
                old(self).selected
            } else {
                Some(
                    match old(self).selected {
                        Some(i) => if i == 0 {
                            (old(self).shown().len() - 1) as usize
                        } else {
                            (i - 1) as usize
                        },
                        None => 0usize,
                    },
                )
            },
            *final(self) == (ListCardsState { selected: final(self).selected, ..*old(self) }),
    {
        let n = self.filtered_cards().len();
        self.selected = list_prev(self.selected, n);
    }
}

/// The state of the deck list.
pub struct ListDecksState {
    pub decks: Vec<String>,
    pub selected: Option<usize>,
    pub confirm_delete: bool,
    pub search_query: String,
    pub search_active: bool,
}

impl ListDecksState {
    /// The list over `decks`, the first row highlighted when there is one.
    pub fn new(decks: Vec<String>) -> (s: ListDecksState)
        ensures
            s.decks == decks,
            s.selected == if decks@.len() > 0 {
                Some(0usize)
            } else {
                None
            },
            !s.confirm_delete,
            s.search_query@.len() == 0,
            !s.search_active,
    {
        let selected = if decks.len() > 0 {
            Some(0)
        } else {
            None
        };
        ListDecksState { decks, selected, confirm_delete: false, search_query: String::new(), search_active: false }
    }

    /// The decks whose name contains the search, ignoring case.
    pub open spec fn shown(&self) -> Seq<Seq<char>> {
        let q = lowercase(self.search_query@);
        self.decks@.map_values(|d: String| d@).filter(|d: Seq<char>| q.len() == 0 || has_substring(lowercase(d), q))
    }

    /// A click on row `i` of the list: a row that shows a deck takes the
    /// highlight.
    pub fn click_row(&mut self, i: usize)
        ensures
            *final(self) == if i < old(self).shown().len() {
                (ListDecksState { selected: Some(i), ..*old(self) })
            } else {
                *old(self)
            },
    {
        let n = self.filtered_decks().len();
        if i < n {
            self.selected = Some(i);
        }
    }

    pub fn filtered_decks(&self) -> (r: Vec<String>)
        ensures
            r@.map_values(|d: String| d@) == self.shown(),
    {
        let q = to_lower(self.search_query.as_str());
        filter_containing(&self.decks, &q)
    }

    /// The highlight one row down among the shown decks, wrapping.
    pub fn next(&mut self)
        ensures
            final(self).selected == if old(self).shown().len() == 0 {
                old(self).selected
            } else {
                Some(
                    match old(self).selected {
                        Some(i) => ((i + 1) % old(self).shown().len() as int) as usize,
                        None => 0usize,
                    },
                )
            },
            *final(self) == (ListDecksState { selected: final(self).selected, ..*old(self) }),
    {
        let n = self.filtered_decks().len();
        self.selected = list_next(self.selected, n);
    }

    /// The highlight one row up among the shown decks, wrapping.
    pub fn prev(&mut self)
        ensures
            final(self).selected == if old(self).shown().len() == 0 {
                old(self).selected
            } else {
                Some(
                    match old(self).selected {
                        Some(i) => if i == 0 {
                            (old(self).shown().len() - 1) as usize
                        } else {
                            (i - 1) as usize
                        },
                        None => 0usize,
                    },
                )
            },
            *final(self) == (ListDecksState { selected: final(self).selected, ..*old(self) }),
    {
        let n = self.filtered_decks().len();
        self.selected = list_prev(self.selected, n);
    }

    /// The highlighted deck among the shown ones.
    pub fn selected_deck(&self) -> (r: Option<String>)
        ensures
            match r {
                Some(d) => self.selected matches Some(i) && i < self.shown().len() && d@ == self.shown()[i as int],
                None => match self.selected {
                    Some(i) => i >= self.shown().len(),
                    None => true,
                },
            },
    {
        match self.selected {
            None => None,
            Some(i) => {
                let f = self.filtered_decks();
                if i < f.len() {
                    assert(f@.map_values(|d: String| d@)[i as int] == f@[i as int]@);
                    Some(f[i].clone())
                } else {
                    None
                }
            },
        }
    }
}

/// The parts of the export form.
#[derive(Debug, Clone, Copy, PartialEq, Eq, Structural)]
pub enum ExportFocus {
    DeckList,
    ResetToggle,
    PathField,
    ConfirmBtn,
}

/// The state of the export form. Row 0 of the list is "every deck", row
/// `k + 1` the deck `decks[k]`.
pub struct ExportState {
    pub decks: Vec<String>,
    pub selected: Option<usize>,
    pub reset_metadata: bool,
    pub focus: ExportFocus,
    pub path: String,
    pub path_edited: bool,
    pub status: Option<String>,
}

/// A file name for exporting a deck: `::` becomes `-`, and every other
/// character that is neither alphanumeric nor `-` becomes `_`.
pub open spec fn slug_from(d: Seq<char>, i: int) -> Seq<char>
    decreases d.len() - i,
{
    if i < 0 || i >= d.len() {
        seq![]
    } else if i + 1 < d.len() && d[i] == ':' && d[i + 1] == ':' {
        seq!['-'] + slug_from(d, i + 2)
    } else {
        seq![if alphanumeric(d[i]) || d[i] == '-' {
            d[i]
        } else {
            '_'
        }] + slug_from(d, i + 1)
    }
}

/// The default export path for a deck (or for every deck).
pub open spec fn export_path(deck: Option<Seq<char>>) -> Seq<char> {
    match deck {
        None => "export.json"@,
        Some(d) => "export_"@ + slug_from(d, 0) + ".json"@,
    }
}

fn slug(d: &str) -> (r: Vec<char>)
    ensures
        r@ == slug_from(d@, 0),
{
    let cs = chars_of(d);
    let n = cs.len();
    let mut out: Vec<char> = Vec::new();
    let mut i: usize = 0;
    while i < n
        invariant
            n == cs@.len(),
            cs@ == d@,
            i <= n,
            out@ + slug_from(cs@, i as int) == slug_from(d@, 0),
        decreases n - i,
    {
        if i + 1 < n && cs[i] == ':' && cs[i + 1] == ':' {
            out.push('-');
            proof {
                assert(out@ + slug_from(cs@, i + 2) =~= out@.drop_last() + slug_from(cs@, i as int));
            }
            i += 2;
        } else {
            let c = cs[i];
            let keep = is_alphanumeric(c) || c == '-';
            out.push(if keep {
                c
            } else {
                '_'
            });
            proof {
                assert(out@ + slug_from(cs@, i + 1) =~= out@.drop_last() + slug_from(cs@, i as int));
            }
            i += 1;
        }
    }
    assert(out@ + slug_from(cs@, i as int) =~= out@);
    out
}

impl ExportState {
    /// The form with "every deck" highlighted and the default path.
    pub fn new(decks: Vec<String>) -> (s: ExportState)
        ensures
            s.decks == decks,
            s.selected == Some(0usize),
            !s.reset_metadata,
            s.focus == ExportFocus::DeckList,
            s.path@ == "export.json"@,
            !s.path_edited,
            s.status is None,
    {
        proof {
            reveal_strlit("");
            assert("export.json"@ + ""@ =~= "export.json"@);
        }
        ExportState {
            decks,
            selected: Some(0),
            reset_metadata: false,
            focus: ExportFocus::DeckList,
            path: concat("export.json", ""),
            path_edited: false,
            status: None,
        } 
    }

    /// The deck of the highlighted row; `None` for "every deck".
    pub open spec fn selected_deck_spec(&self) -> Option<Seq<char>> {
        match self.selected {
            Some(i) => if i == 0 {
                None
            } else if i - 1 < self.decks@.len() {
                Some(self.decks@[i - 1]@)
            } else {
                None
            },
            None => None,
        }
    }

    pub fn selected_deck(&self) -> (r: Option<String>)
        ensures
            match r {
                Some(d) => self.selected_deck_spec() == Some(d@),
                None => self.selected_deck_spec() is None,
            },
    {
        match self.selected {
            Some(i) => if i == 0 {
                None
            } else if i - 1 < self.decks.len() {
                Some(self.decks[i - 1].clone())
            } else {
                None
            },
            None => None,
        }
    }

    /// The rows: "every deck" and each deck.
    pub fn list_len(&self) -> (n: usize)
        requires
            self.decks@.len() < usize::MAX,
        ensures
            n == self.decks@.len() + 1,
    {
        self.decks.len() + 1
    }

    /// A click on row `i` of the deck list: a row of the list takes the
    /// focus and the highlight, and the path follows it as
    /// `refresh_default_path` says.
    pub fn click_deck_row(&mut self, i: usize)
        requires
            old(self).decks@.len() < usize::MAX,
        ensures
            i <= old(self).decks@.len() ==> *final(self) == (ExportState {
                focus: ExportFocus::DeckList,
                selected: Some(i),
                path: final(self).path,
                ..*old(self)
            }) && final(self).path@ == if old(self).path_edited {
                old(self).path@
            } else {
                export_path(final(self).selected_deck_spec())
            },
            i > old(self).decks@.len() ==> *final(self) == *old(self),
    {
        if i < self.list_len() {
            self.focus = ExportFocus::DeckList;
            self.selected = Some(i);
            self.refresh_default_path();
        }
    }

    /// Keeps the path in step with the highlighted deck, unless the user has
    /// typed a path of their own.
    pub fn refresh_default_path(&mut self)
        ensures
            final(self).path@ == if old(self).path_edited {
                old(self).path@
            } else {
                export_path(old(self).selected_deck_spec())
            },
            *final(self) == (ExportState { path: final(self).path, ..*old(self) }),
    {
        if !self.path_edited {
            self.path = match self.selected_deck() {
                None => concat("export.json", ""),
                Some(d) => {
                    let mut p = String::new();
                    push_all(&mut p, "export_");
                    let sl = slug(d.as_str());
                    let ss = string_of(&sl);
                    push_all(&mut p, ss.as_str());
                    push_all(&mut p, ".json");
                    assert(p@ =~= "export_"@ + slug_from(d@, 0) + ".json"@);
                    p
                },
            };
            proof {
                reveal_strlit("");
                assert("export.json"@ + ""@ =~= "export.json"@);
            }
        }
    }

    /// The highlight one row down (stopping at the last).
    pub fn list_next(&mut self)
        requires
            old(self).decks@.len() < usize::MAX,
        ensures
            final(self).selected == Some(
                match old(self).selected {
                    Some(i) => if i + 1 < old(self).decks@.len() + 1 {
                        (i + 1) as usize
                    } else {
                        old(self).decks@.len() as usize
                    },
                    None => 0usize,
                },
            ),
            *final(self) == (ExportState { selected: final(self).selected, path: final(self).path, ..*old(self) }),
            old(self).path_edited ==> final(self).path@ == old(self).path@,
            !old(self).path_edited ==> final(self).path@ == export_path(final(self).selected_deck_spec()),
    {
        let n = self.list_len();
        let i = match self.selected {
            Some(i) => if i < n - 1 {
                i + 1
            } else {
                n - 1
            },
            None => 0,
        };
        self.selected = Some(i);
        self.refresh_default_path();
    }

    /// The highlight one row up (stopping at the first).
    pub fn list_prev(&mut self)
        ensures
            final(self).selected == Some(
                match old(self).selected {
                    Some(i) => if i == 0 {
                        0usize
                    } else {
                        (i - 1) as usize
                    },
                    None => 0usize,
                },
            ),
            *final(self) == (ExportState { selected: final(self).selected, path: final(self).path, ..*old(self) }),
            old(self).path_edited ==> final(self).path@ == old(self).path@,
            !old(self).path_edited ==> final(self).path@ == export_path(final(self).selected_deck_spec()),
    {
        let i = match self.selected {
            Some(i) => if i == 0 {
                0
            } else {
                i - 1
            },
            None => 0,
        };
        self.selected = Some(i);
        self.refresh_default_path();
    }
}

/// The parts of the import form.
#[derive(Debug, Clone, Copy, PartialEq, Eq, Structural)]
pub enum ImportFocus {
    PathField,
    ConfirmBtn,
}

/// The state of the import form.
pub struct ImportState {
    pub path: String,
    pub focus: ImportFocus,
    pub status: Option<String>,
}

impl ImportState {
    /// An empty path field with the focus.
    pub fn new() -> (s: ImportState)
        ensures
            s.path@.len() == 0,
            s.focus == ImportFocus::PathField,
            s.status is None,
    {
        ImportState { path: String::new(), focus: ImportFocus::PathField, status: None }
    }
}

/// What a mouse click lands on.
#[derive(Debug, Clone, Copy, PartialEq, Eq, Structural)]
pub enum ClickTarget {
    MenuList,
    PickSimple,
    PickMulti,
    /// focus a text field or row by its index
    AddCardField(usize),
    /// focus and toggle (reversible, show chain, daily)
    AddCardToggle(usize),
    /// focus and press (Add step, Save)
    AddCardButton(usize),
    StepsList,
    DeckSuggestions,
    ReviewCard,
    ReviewRate(u8),
    LeechMarkBlindSpot,
    LeechSplit,
    LeechIgnore,
    DecksList,
    CardsList,
    TagPickerList,
    ExportDeckList,
    ExportToggle,
    ExportPathField,
    ExportConfirmBtn,
    ImportPathField,
    ImportConfirmBtn,
}

/// A text field's content with the cursor mark after it when focused.
pub fn with_cursor(s: &str, focused: bool) -> (r: String)
    ensures
        r@ == if focused {
            s@.push('\u{258C}')
        } else {
            s@
        },
{
    let mut r = String::new();
    push_all(&mut r, s);
    if focused {
        r.push('\u{258C}');
    }
    assert(r@ =~= if focused {
        s@.push('\u{258C}')
    } else {
        s@
    });
    r
}

} // verus!
