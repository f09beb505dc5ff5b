//! The syntax highlighter the code blocks are drawn with: finding a
//! code block's syntax in a syntax set, looking up a theme, and
//! highlighting lines one after another.
//!
//! A syntax can only be parsed with the set it came from, so a syntax is
//! handed out together with its set (`SyntaxChoice`), and a highlighter
//! keeps the set it was made with (`Highlighter`). The fields of both are
//! private to this module, where only the calls into syntect fill them.

use vstd::prelude::*;
use crate::text::chars_of;
use syntect::easy::HighlightLines;
use syntect::highlighting::{Theme, ThemeSet};
use syntect::parsing::{SyntaxReference, SyntaxSet};

verus! {

#[verifier::external_type_specification]
#[verifier::external_body]
pub struct ExSyntaxSet(SyntaxSet);

#[verifier::external_type_specification]
#[verifier::external_body]
pub struct ExSyntaxReference(SyntaxReference);

#[verifier::external_type_specification]
#[verifier::external_body]
pub struct ExThemeSet(ThemeSet);

#[verifier::external_type_specification]
#[verifier::external_body]
pub struct ExTheme(Theme);

#[verifier::external_type_specification]
#[verifier::external_body]
pub struct ExHighlightLines<'a>(HighlightLines<'a>);

/// The syntaxes a syntax set holds, in the order the set keeps them.
pub uninterp spec fn syntax_refs(ss: SyntaxSet) -> Seq<SyntaxReference>;

/// The name and file extensions of one syntax of a set.
pub uninterp spec fn syntax_entry(sr: SyntaxReference) -> (Seq<char>, Seq<Seq<char>>);

/// Each syntax of a set as its name and file extensions, in order.
pub open spec fn syntax_list(ss: SyntaxSet) -> Seq<(Seq<char>, Seq<Seq<char>>)> {
    syntax_refs(ss).map_values(|r: SyntaxReference| syntax_entry(r))
}

/// The names of the themes a theme set holds (the keys of its `themes`).
pub uninterp spec fn theme_names(ts: ThemeSet) -> Set<Seq<char>>;

/// The theme a theme set holds under a name.
pub uninterp spec fn theme_of_name(ts: ThemeSet, name: Seq<char>) -> Theme;

/// What syntect's highlighter, made from syntax `sr` of set `ss` and theme
/// `th`, gives for `line` after the lines `before`: each piece's text and
/// foreground colour, and no pieces where it fails.
pub uninterp spec fn line_pieces(
    ss: SyntaxSet,
    sr: SyntaxReference,
    th: Theme,
    before: Seq<Seq<char>>,
    line: Seq<char>,
) -> Seq<(Seq<char>, u8, u8, u8)>;

/// `c` with an ASCII capital turned into its small letter.
pub open spec fn ascii_lower(c: char) -> char {
    if 'A' <= c <= 'Z' {
        ((c as u32) + 32) as char
    } else {
        c
    }
}

/// The same text once ASCII letters are compared ignoring case.
pub open spec fn same_ignoring_ascii_case(a: Seq<char>, b: Seq<char>) -> bool {
    &&& a.len() == b.len()
    &&& forall|i: int| 0 <= i < a.len() ==> #[trigger] ascii_lower(a[i]) == ascii_lower(b[i])
}

/// Where the last syntax of `l` with this name stands.
pub open spec fn last_named(l: Seq<(Seq<char>, Seq<Seq<char>>)>, name: Seq<char>) -> Option<int>
    decreases l.len(),
{
    if l.len() == 0 {
        None
    } else if l.last().0 == name {
        Some(l.len() - 1)
    } else {
        last_named(l.drop_last(), name)
    }
}

/// Where the last syntax of `l` that lists this file extension (ignoring
/// ASCII case) stands.
pub open spec fn last_with_ext(l: Seq<(Seq<char>, Seq<Seq<char>>)>, ext: Seq<char>) -> Option<int>
    decreases l.len(),
{
    if l.len() == 0 {
        None
    } else if exists|k: int| 0 <= k < l.last().1.len() && same_ignoring_ascii_case(#[trigger] l.last().1[k], ext) {
        Some(l.len() - 1)
    } else {
        last_with_ext(l.drop_last(), ext)
    }
}

/// Where the syntax a code block's language picks stands: with no language,
/// plain text; else the syntax for that file extension, else the one of
/// that name, else plain text.
pub open spec fn picked_syntax(l: Seq<(Seq<char>, Seq<Seq<char>>)>, lang: Seq<char>) -> Option<int> {
    if lang.len() == 0 {
        last_named(l, "Plain Text"@)
    } else {
        match last_with_ext(l, lang) {
            Some(e) => Some(e),
            None => match last_named(l, lang) {
                Some(e) => Some(e),
                None => last_named(l, "Plain Text"@),
            },
        }
    }
}

/// A syntax together with the set it belongs to.
pub struct SyntaxChoice<'a> {
    set: &'a SyntaxSet,
    syntax: &'a SyntaxReference,
}

impl<'a> SyntaxChoice<'a> {
    /// The set the syntax belongs to.
    pub closed spec fn set_of(&self) -> SyntaxSet {
        *self.set
    }

    /// The chosen syntax.
    pub closed spec fn syntax_of(&self) -> SyntaxReference {
        *self.syntax
    }
}

/// A highlighter part way through a block of code: the syntax set its
/// syntax came from, the syntax, the theme, and the lines highlighted so
/// far.
pub struct Highlighter<'a> {
    set: &'a SyntaxSet,
    syntax: &'a SyntaxReference,
    theme: &'a Theme,
    lines: HighlightLines<'a>,
    before: Ghost<Seq<Seq<char>>>,
}

impl<'a> Highlighter<'a> {
    pub closed spec fn set_of(&self) -> SyntaxSet {
        *self.set
    }

    pub closed spec fn syntax_of(&self) -> SyntaxReference {
        *self.syntax
    }

    pub closed spec fn theme_of(&self) -> Theme {
        *self.theme
    }

    /// The lines highlighted so far, in order.
    pub closed spec fn before(&self) -> Seq<Seq<char>> {
        self.before@
    }
}

/// Calls syntect's `SyntaxSet::find_syntax_by_extension`, which walks the
/// set from its end and takes the first syntax listing the extension
/// (`eq_ignore_ascii_case`); the syntax is handed out with its set.
#[verifier::external_body]
fn syntax_by_extension<'a>(ss: &'a SyntaxSet, ext: &str) -> (r: Option<SyntaxChoice<'a>>)
    ensures
        match r {
            Some(c) => last_with_ext(syntax_list(*ss), ext@) matches Some(i) && *c.set == *ss && *c.syntax
                == syntax_refs(*ss)[i] && syntax_entry(*c.syntax) == syntax_list(*ss)[i],
            None => last_with_ext(syntax_list(*ss), ext@) is None,
        },
{
    match ss.find_syntax_by_extension(ext) {
        Some(syntax) => Some(SyntaxChoice { set: ss, syntax }),
        None => None,
    }
}

/// Calls syntect's `SyntaxSet::find_syntax_by_name`, which walks the set
/// from its end and takes the first syntax with exactly that name; the
/// syntax is handed out with its set.
#[verifier::external_body]
fn syntax_by_name<'a>(ss: &'a SyntaxSet, name: &str) -> (r: Option<SyntaxChoice<'a>>)
    ensures
        match r {
            Some(c) => last_named(syntax_list(*ss), name@) matches Some(i) && *c.set == *ss && *c.syntax
                == syntax_refs(*ss)[i] && syntax_entry(*c.syntax) == syntax_list(*ss)[i],
            None => last_named(syntax_list(*ss), name@) is None,
        },
{
    match ss.find_syntax_by_name(name) {
        Some(syntax) => Some(SyntaxChoice { set: ss, syntax }),
        None => None,
    }
}

/// The syntax a code block's language picks, as `picked_syntax` says, with
/// its set.
pub(crate) fn choose_syntax<'a>(ss: &'a SyntaxSet, lang: &str) -> (r: Option<SyntaxChoice<'a>>)
    ensures
        match r {
            Some(c) => picked_syntax(syntax_list(*ss), lang@) matches Some(i) && c.set_of() == *ss
                && c.syntax_of() == syntax_refs(*ss)[i],
            None => picked_syntax(syntax_list(*ss), lang@) is None,
        },
{
    if chars_of(lang).len() == 0 {
        syntax_by_name(ss, "Plain Text")
    } else {
        match syntax_by_extension(ss, lang) {
            Some(s) => Some(s),
            None => match syntax_by_name(ss, lang) {
                Some(s) => Some(s),
                None => syntax_by_name(ss, "Plain Text"),
            },
        }
    }
}

/// Looks a theme up by its name in syntect's `ThemeSet::themes` (a
/// `BTreeMap::get`): found exactly when the set holds a theme of that
/// name, and then it is that theme.
#[verifier::external_body]
pub(crate) fn theme_named<'a>(ts: &'a ThemeSet, name: &str) -> (r: Option<&'a Theme>)
    ensures
        r is Some <==> theme_names(*ts).contains(name@),
        r matches Some(t) ==> *t == theme_of_name(*ts, name@),
{
    ts.themes.get(name)
}

/// Calls syntect's `HighlightLines::new` on the chosen syntax and the
/// theme; the highlighter keeps the syntax, its set and the theme, and has
/// highlighted no line yet.
#[verifier::external_body]
pub(crate) fn line_highlighter<'a>(choice: &SyntaxChoice<'a>, theme: &'a Theme) -> (h: Highlighter<'a>)
    ensures
        h.set_of() == choice.set_of(),
        h.syntax_of() == choice.syntax_of(),
        h.theme_of() == *theme,
        h.before() == Seq::<Seq<char>>::empty(),
{
    Highlighter {
        set: choice.set,
        syntax: choice.syntax,
        theme,
        lines: HighlightLines::new(choice.syntax, theme),
        before: Ghost(Seq::empty()),
    }
}

/// A line's pieces as plain values: text and foreground colour.
pub open spec fn pieces_view(v: Seq<(String, u8, u8, u8)>) -> Seq<(Seq<char>, u8, u8, u8)> {
    v.map_values(|p: (String, u8, u8, u8)| (p.0@, p.1, p.2, p.3))
}

/// The text of some pieces, one after another.
pub open spec fn pieces_text(ps: Seq<(Seq<char>, u8, u8, u8)>) -> Seq<char>
    decreases ps.len(),
{
    if ps.len() == 0 {
        seq![]
    } else {
        ps[0].0 + pieces_text(ps.drop_first())
    }
}

/// Calls syntect's `HighlightLines::highlight_line` with the highlighter's
/// own syntax set, and keeps each piece's text and foreground colour; a
/// failure gives no pieces (`unwrap_or_default`). What comes back is
/// named `line_pieces`: it depends on the set, the syntax, the theme, the
/// lines highlighted before and the line alone; where syntect succeeds the
/// pieces' texts make up the line.
#[verifier::external_body]
pub(crate) fn highlight_line(h: &mut Highlighter, line: &str) -> (r: Vec<(String, u8, u8, u8)>)
    ensures
        pieces_view(r@) == line_pieces(
            old(h).set_of(),
            old(h).syntax_of(),
            old(h).theme_of(),
            old(h).before(),
            line@,
        ),
        r@.len() == 0 || pieces_text(pieces_view(r@)) == line@,
        final(h).set_of() == old(h).set_of(),
        final(h).syntax_of() == old(h).syntax_of(),
        final(h).theme_of() == old(h).theme_of(),
        final(h).before() == old(h).before().push(line@),
{
    h.before = Ghost(h.before@.push(line@));
    h.lines.highlight_line(line, h.set)
        .unwrap_or_default()
        .into_iter()
        .map(|(st, t)| (t.to_string(), st.foreground.r, st.foreground.g, st.foreground.b))
        .collect()
}

} // verus!
