//! Turning the events of a Markdown parser into styled lines for the
//! terminal: headings, bold, italic and struck-through text, inline code,
//! nested lists (numbered or bulleted), block quotes with a gutter,
//! horizontal rules and line breaks. Fenced code blocks are left as a
//! block of code and its language, for a syntax highlighter to draw.

use vstd::prelude::*;
use crate::text::{push_all, decimal, push_decimal_u64, trim, blank, chars_of, string_of, trim_nl, trim_newlines};
use crate::cloze::{lines_from, text_lines, copy_range};
use pulldown_cmark::{CodeBlockKind, Event, Tag, TagEnd};
use syntect::highlighting::ThemeSet;
use syntect::parsing::SyntaxSet;
use crate::highlight::{
    syntax_list, syntax_refs, theme_names, theme_of_name, line_pieces, picked_syntax, pieces_view, pieces_text,
    choose_syntax, theme_named, line_highlighter, highlight_line,
};

verus! {

/// The colours the text is drawn in.
#[derive(Debug, Clone, Copy, PartialEq, Eq, Structural)]
pub enum MdColor {
    Plain,
    Green,
    Cyan,
    Blue,
    Magenta,
    Yellow,
    DarkGray,
    /// a colour the syntax highlighter chose
    Rgb(u8, u8, u8),
}

/// How a piece of text is drawn.
#[derive(Debug, Clone, Copy, PartialEq, Eq, Structural)]
pub struct MdStyle {
    pub color: MdColor,
    pub bold: bool,
    pub italic: bool,
    pub underlined: bool,
    pub crossed_out: bool,
}

/// What opens.
pub enum MdTag {
    /// level 1 to 6
    Heading(u8),
    Strong,
    Emphasis,
    Strikethrough,
    BlockQuote,
    /// ordered lists carry their first number
    List(Option<u64>),
    Item,
    /// a code block and its language (empty when none is given)
    CodeBlock(String),
    Other,
}

/// What closes.
#[derive(Debug, Clone, Copy, PartialEq, Eq, Structural)]
pub enum MdTagEnd {
    Heading,
    Paragraph,
    Item,
    List,
    Strong,
    Emphasis,
    Strikethrough,
    BlockQuote,
    CodeBlock,
    Other,
}

/// One event of the parser.
pub enum MdEvent {
    Start(MdTag),
    End(MdTagEnd),
    Text(String),
    Code(String),
    SoftBreak,
    HardBreak,
    Rule,
    Other,
}

/// A line of styled pieces, or a code block and its language.
pub enum MdRow {
    Line(Vec<(String, MdStyle)>),
    Code(String, String),
}

/// The renderer's state between events.
pub struct MdRenderer {
    pub out: Vec<MdRow>,
    /// the pieces of the line being built
    pub cur: Vec<(String, MdStyle)>,
    pub style_stack: Vec<MdStyle>,
    pub in_code: bool,
    pub code_lang: String,
    pub code_buf: String,
    /// one entry per open list: `None` bulleted, `Some(n)` numbered, `n`
    /// the number of the current item
    pub list_stack: Vec<Option<u64>>,
    /// a new list item has had no text yet
    pub at_item_start: bool,
    pub bq_depth: u32,
}

pub open spec fn style_of(color: MdColor) -> MdStyle {
    MdStyle { color, bold: false, italic: false, underlined: false, crossed_out: false }
}

/// The style of a heading: level 1 cyan, bold and underlined, level 2
/// blue and bold, deeper levels magenta and bold.
pub open spec fn heading_style(level: u8) -> MdStyle {
    if level <= 1 {
        MdStyle { color: MdColor::Cyan, bold: true, italic: false, underlined: true, crossed_out: false }
    } else if level == 2 {
        MdStyle { bold: true, ..style_of(MdColor::Blue) }
    } else {
        MdStyle { bold: true, ..style_of(MdColor::Magenta) }
    }
}

/// A piece as plain values.
pub open spec fn span_view(p: (String, MdStyle)) -> (Seq<char>, MdStyle) {
    (p.0@, p.1)
}

pub open spec fn spans_view(v: Seq<(String, MdStyle)>) -> Seq<(Seq<char>, MdStyle)> {
    v.map_values(|p: (String, MdStyle)| span_view(p))
}

/// A row as plain values: a line's pieces, or a code block's code and
/// language.
pub open spec fn row_view(r: MdRow) -> (bool, Seq<(Seq<char>, MdStyle)>, Seq<char>, Seq<char>) {
    match r {
        MdRow::Line(v) => (false, spans_view(v@), seq![], seq![]),
        MdRow::Code(c, l) => (true, seq![], c@, l@),
    }
}

pub open spec fn rows_view(v: Seq<MdRow>) -> Seq<(bool, Seq<(Seq<char>, MdStyle)>, Seq<char>, Seq<char>)> {
    v.map_values(|r: MdRow| row_view(r))
}

pub open spec fn line_row(spans: Seq<(Seq<char>, MdStyle)>) -> (bool, Seq<(Seq<char>, MdStyle)>, Seq<char>, Seq<char>) {
    (false, spans, seq![], seq![])
}

/// An empty line.
pub open spec fn blank_row() -> (bool, Seq<(Seq<char>, MdStyle)>, Seq<char>, Seq<char>) {
    line_row(seq![(seq![], style_of(MdColor::Plain))])
}

/// `n` copies of `s`.
pub open spec fn repeated(s: Seq<char>, n: nat) -> Seq<char>
    decreases n,
{
    if n == 0 {
        seq![]
    } else {
        repeated(s, (n - 1) as nat) + s
    }
}

/// The gutter in front of quoted lines: one `│ ` per quote level.
pub open spec fn gutter(depth: u32) -> Seq<(Seq<char>, MdStyle)> {
    if depth > 0 {
        seq![(repeated(seq!['\u{2502}', ' '], depth as nat), style_of(MdColor::DarkGray))]
    } else {
        seq![]
    }
}

/// The style text is written in: the top of the stack.
pub open spec fn cur_style(r: MdRenderer) -> MdStyle {
    if r.style_stack@.len() > 0 {
        r.style_stack@.last()
    } else {
        style_of(MdColor::Plain)
    }
}

/// The line being built, finished.
pub open spec fn flushed(r: MdRenderer) -> (bool, Seq<(Seq<char>, MdStyle)>, Seq<char>, Seq<char>) {
    line_row(gutter(r.bq_depth) + spans_view(r.cur@))
}

/// The separator above and below a code block.
pub open spec fn code_sep() -> Seq<char> {
    seq![' ', ' '] + repeated(seq!['\u{2500}'], 30)
}

/// The text of `t` from `start`, split at each `\n` (scanning from `i`).
pub open spec fn split_nl(t: Seq<char>, start: int, i: int) -> Seq<Seq<char>>
    decreases t.len() - i,
{
    if i < start || start < 0 || i >= t.len() {
        if 0 <= start <= t.len() {
            seq![t.subrange(start, t.len() as int)]
        } else {
            seq![]
        }
    } else if t[i] == '\n' {
        seq![t.subrange(start, i)] + split_nl(t, i + 1, i + 1)
    } else {
        split_nl(t, start, i + 1)
    }
}

/// Writing the parts of a text: the first part goes on the line being
/// built; each later part starts a new line, after the finished one (with
/// the gutter `g`) is written out; empty parts add no piece.
pub open spec fn after_parts(
    out: Seq<(bool, Seq<(Seq<char>, MdStyle)>, Seq<char>, Seq<char>)>,
    cur: Seq<(Seq<char>, MdStyle)>,
    g: Seq<(Seq<char>, MdStyle)>,
    parts: Seq<Seq<char>>,
    style: MdStyle,
) -> (Seq<(bool, Seq<(Seq<char>, MdStyle)>, Seq<char>, Seq<char>)>, Seq<(Seq<char>, MdStyle)>)
    decreases parts.len(),
{
    if parts.len() == 0 {
        (out, cur)
    } else {
        let p = parts[0];
        let cur1 = if p.len() > 0 {
            cur.push((p, style))
        } else {
            cur
        };
        if parts.len() == 1 {
            (out, cur1)
        } else {
            after_parts(out.push(line_row(g + cur1)), seq![], g, parts.drop_first(), style)
        }
    }
}

/// Splitting always gives at least one part.
pub proof fn lemma_split_nl_nonempty(t: Seq<char>, start: int, i: int)
    requires
        0 <= start <= i <= t.len(),
    ensures
        split_nl(t, start, i).len() >= 1,
    decreases t.len() - i,
{
    if i < t.len() && t[i] != '\n' {
        lemma_split_nl_nonempty(t, start, i + 1);
    }
}

/// The marker of a new list item: indented two spaces per nesting level
/// below the first, the item's number and a dot, or a bullet.
pub open spec fn item_marker(lists: Seq<Option<u64>>) -> Seq<char> {
    let depth = if lists.len() > 0 { lists.len() - 1 } else { 0 };
    repeated(seq![' ', ' '], depth as nat) + match (if lists.len() > 0 { lists.last() } else { None }) {
        Some(n) => decimal(n as nat) + seq!['.'],
        None => seq!['\u{2022}'],
    } + seq![' ']
}

/// The style of a list item's marker.
pub open spec fn marker_style() -> MdStyle {
    MdStyle { bold: true, ..style_of(MdColor::Cyan) }
}

/// What writing text does, outside code blocks: a new item first gets its
/// marker, then the text's lines go in, in the current style.
pub open spec fn text_written(o: MdRenderer, t: Seq<char>, f: MdRenderer) -> bool {
    let cur0 = if o.at_item_start {
        spans_view(o.cur@).push((item_marker(o.list_stack@), marker_style()))
    } else {
        spans_view(o.cur@)
    };
    let r = after_parts(rows_view(o.out@), cur0, gutter(o.bq_depth), split_nl(t, 0, 0), cur_style(o));
    &&& rows_view(f.out@) == r.0
    &&& spans_view(f.cur@) == r.1
    &&& !f.at_item_start
    &&& f.style_stack == o.style_stack
    &&& f.in_code == o.in_code
    &&& f.code_lang == o.code_lang
    &&& f.code_buf == o.code_buf
    &&& f.list_stack == o.list_stack
    &&& f.bq_depth == o.bq_depth
}

/// `f` is `o` with a line flushed when one is being built.
pub open spec fn flushed_if_any(o: MdRenderer, f_out: Seq<(bool, Seq<(Seq<char>, MdStyle)>, Seq<char>, Seq<char>)>) -> bool {
    f_out == if o.cur@.len() > 0 {
        rows_view(o.out@).push(flushed(o))
    } else {
        rows_view(o.out@)
    }
}

/// What one event does to the renderer (see the module's description).
#[verifier::opaque]
pub open spec fn md_step(o: MdRenderer, ev: MdEvent, f: MdRenderer) -> bool {
    let same_rest = f.in_code == o.in_code && f.code_lang == o.code_lang && f.code_buf == o.code_buf
        && f.at_item_start == o.at_item_start;
    match ev {
        MdEvent::Start(tag) => match tag {
            MdTag::Heading(l) => f == (MdRenderer { style_stack: f.style_stack, ..o }) && f.style_stack@ == o.style_stack@.push(heading_style(l)),
            MdTag::Strong => f == (MdRenderer { style_stack: f.style_stack, ..o }) && f.style_stack@ == o.style_stack@.push(MdStyle { bold: true, ..cur_style(o) }),
            MdTag::Emphasis => f == (MdRenderer { style_stack: f.style_stack, ..o }) && f.style_stack@ == o.style_stack@.push(MdStyle { italic: true, ..cur_style(o) }),
            MdTag::Strikethrough => f == (MdRenderer { style_stack: f.style_stack, ..o }) && f.style_stack@ == o.style_stack@.push(MdStyle { crossed_out: true, ..cur_style(o) }),
            MdTag::BlockQuote => f == (MdRenderer { bq_depth: (o.bq_depth + 1) as u32, ..o }),
            MdTag::List(start) => f == (MdRenderer { list_stack: f.list_stack, ..o }) && f.list_stack@ == o.list_stack@.push(match start {
                Some(n) => Some(if n > 0 { (n - 1) as u64 } else { 0u64 }),
                None => None,
            }),
            MdTag::Item => {
                &&& f.list_stack@ == if o.list_stack@.len() > 0 && o.list_stack@.last() is Some {
                    o.list_stack@.update(o.list_stack@.len() - 1, Some((o.list_stack@.last()->0 + 1) as u64))
                } else {
                    o.list_stack@
                }
                &&& flushed_if_any(o, rows_view(f.out@))
                &&& f.cur@.len() == 0
                &&& f.at_item_start
                &&& f.style_stack == o.style_stack && f.in_code == o.in_code && f.code_lang == o.code_lang
                &&& f.code_buf == o.code_buf && f.bq_depth == o.bq_depth
            },
            MdTag::CodeBlock(lang) => f == (MdRenderer { in_code: true, code_lang: f.code_lang, code_buf: f.code_buf, ..o })
                && f.code_lang@ == lang@ && f.code_buf@.len() == 0,
            MdTag::Other => f == o,
        },
        MdEvent::End(t) => if t == MdTagEnd::Heading || t == MdTagEnd::Paragraph || t == MdTagEnd::BlockQuote {
            &&& rows_view(f.out@) == (if o.cur@.len() > 0 {
                rows_view(o.out@).push(flushed(o))
            } else {
                rows_view(o.out@)
            }).push(blank_row())
            &&& f.cur@.len() == 0
            &&& f.style_stack@ == if t == MdTagEnd::Heading && o.style_stack@.len() > 0 {
                o.style_stack@.drop_last()
            } else {
                o.style_stack@
            }
            &&& f.bq_depth == if t == MdTagEnd::BlockQuote && o.bq_depth > 0 {
                (o.bq_depth - 1) as u32
            } else {
                o.bq_depth
            }
            &&& f.list_stack == o.list_stack && same_rest
        } else if t == MdTagEnd::Item {
            &&& flushed_if_any(o, rows_view(f.out@))
            &&& f.cur@.len() == 0
            &&& f.style_stack == o.style_stack && f.bq_depth == o.bq_depth && f.list_stack == o.list_stack && same_rest
        } else if t == MdTagEnd::List {
            &&& f.list_stack@ == if o.list_stack@.len() > 0 { o.list_stack@.drop_last() } else { o.list_stack@ }
            &&& rows_view(f.out@) == if f.list_stack@.len() == 0 {
                rows_view(o.out@).push(blank_row())
            } else {
                rows_view(o.out@)
            }
            &&& f.cur == o.cur && f.style_stack == o.style_stack && f.bq_depth == o.bq_depth && same_rest
        } else if t == MdTagEnd::Strong || t == MdTagEnd::Emphasis || t == MdTagEnd::Strikethrough {
            f == (MdRenderer { style_stack: f.style_stack, ..o }) && f.style_stack@ == if o.style_stack@.len() > 0 {
                o.style_stack@.drop_last()
            } else {
                o.style_stack@
            }
        } else if t == MdTagEnd::CodeBlock {
            let sep = line_row(seq![(code_sep(), style_of(MdColor::DarkGray))]);
            &&& rows_view(f.out@) == rows_view(o.out@).push(sep).push((true, seq![], o.code_buf@, o.code_lang@)).push(sep).push(blank_row())
            &&& !f.in_code && f.code_lang@.len() == 0 && f.code_buf@.len() == 0
            &&& f.cur == o.cur && f.style_stack == o.style_stack && f.bq_depth == o.bq_depth
            &&& f.list_stack == o.list_stack && f.at_item_start == o.at_item_start
        } else {
            f == o
        },
        MdEvent::Text(t) => if o.in_code {
            f == (MdRenderer { code_buf: f.code_buf, ..o }) && f.code_buf@ == o.code_buf@ + t@
        } else {
            text_written(o, t@, f)
        },
        MdEvent::Code(t) => {
            &&& spans_view(f.cur@) == spans_view(o.cur@).push((seq!['`'] + t@ + seq!['`'], style_of(MdColor::Yellow)))
            &&& f.out == o.out && f.style_stack == o.style_stack && f.list_stack == o.list_stack
            &&& f.bq_depth == o.bq_depth && same_rest
        },
        MdEvent::SoftBreak => {
            &&& spans_view(f.cur@) == spans_view(o.cur@).push((seq![' '], style_of(MdColor::Plain)))
            &&& f.out == o.out && f.style_stack == o.style_stack && f.list_stack == o.list_stack
            &&& f.bq_depth == o.bq_depth && same_rest
        },
        MdEvent::HardBreak => {
            &&& rows_view(f.out@) == rows_view(o.out@).push(flushed(o))
            &&& f.cur@.len() == 0
            &&& f.style_stack == o.style_stack && f.list_stack == o.list_stack && f.bq_depth == o.bq_depth && same_rest
        },
        MdEvent::Rule => {
            &&& rows_view(f.out@) == rows_view(o.out@).push(line_row(seq![(repeated(seq!['\u{2500}'], 48), style_of(MdColor::DarkGray))])).push(blank_row())
            &&& f.cur == o.cur && f.style_stack == o.style_stack && f.list_stack == o.list_stack
            &&& f.bq_depth == o.bq_depth && same_rest
        },
        MdEvent::Other => f == o,
    }
}

/// A line that shows nothing: every piece is blank.
pub open spec fn blank_line(r: (bool, Seq<(Seq<char>, MdStyle)>, Seq<char>, Seq<char>)) -> bool {
    !r.0 && forall|k: int| 0 <= k < r.1.len() ==> trim(#[trigger] r.1[k].0).len() == 0
}

/// The rows without the blank lines at their end.
pub open spec fn without_trailing_blanks(rows: Seq<(bool, Seq<(Seq<char>, MdStyle)>, Seq<char>, Seq<char>)>) -> Seq<
    (bool, Seq<(Seq<char>, MdStyle)>, Seq<char>, Seq<char>),
>
    decreases rows.len(),
{
    if rows.len() > 0 && blank_line(rows.last()) {
        without_trailing_blanks(rows.drop_last())
    } else {
        rows
    }
}

/// What the renderer ends with: the line being built is finished, and
/// blank lines at the end are dropped.
pub open spec fn finished_rows(r: MdRenderer) -> Seq<(bool, Seq<(Seq<char>, MdStyle)>, Seq<char>, Seq<char>)> {
    without_trailing_blanks(
        if r.cur@.len() > 0 {
            rows_view(r.out@).push(flushed(r))
        } else {
            rows_view(r.out@)
        },
    )
}

/// What `feed` needs: counters that can still count up.
pub open spec fn can_take(r: MdRenderer, ev: MdEvent) -> bool {
    match ev {
        MdEvent::Start(MdTag::BlockQuote) => r.bq_depth < u32::MAX,
        MdEvent::Start(MdTag::Item) => r.list_stack@.len() > 0 ==> (r.list_stack@.last() matches Some(n) ==> n < u64::MAX),
        _ => true,
    }
}

fn plain_style(color: MdColor) -> (s: MdStyle)
    ensures
        s == style_of(color),
{
    MdStyle { color, bold: false, italic: false, underlined: false, crossed_out: false }
}

fn blank_line_row() -> (r: MdRow)
    ensures
        row_view(r) == blank_row(),
{
    let mut v: Vec<(String, MdStyle)> = Vec::new();
    v.push((String::new(), plain_style(MdColor::Plain)));
    assert(spans_view(v@) =~= seq![(Seq::<char>::empty(), style_of(MdColor::Plain))]);
    MdRow::Line(v)
}

fn repeat_text(s: &str, n: usize) -> (r: String)
    ensures
        r@ == repeated(s@, n as nat),
{
    let mut r = String::new();
    let mut k: usize = 0;
    while k < n
        invariant
            k <= n,
            r@ == repeated(s@, k as nat),
        decreases n - k,
    {
        push_all(&mut r, s);
        k += 1;
    }
    r
}

impl MdRenderer {
    /// A renderer with nothing written, text in green.
    pub fn new() -> (r: MdRenderer)
        ensures
            r.out@.len() == 0,
            r.cur@.len() == 0,
            r.style_stack@ == seq![style_of(MdColor::Green)],
            !r.in_code,
            r.code_lang@.len() == 0,
            r.code_buf@.len() == 0,
            r.list_stack@.len() == 0,
            !r.at_item_start,
            r.bq_depth == 0,
    {
        let mut st: Vec<MdStyle> = Vec::new();
        st.push(plain_style(MdColor::Green));
        MdRenderer {
            out: Vec::new(),
            cur: Vec::new(),
            style_stack: st,
            in_code: false,
            code_lang: String::new(),
            code_buf: String::new(),
            list_stack: Vec::new(),
            at_item_start: false,
            bq_depth: 0,
        }
    }

    fn current_style(&self) -> (s: MdStyle)
        ensures
            s == cur_style(*self),
    {
        let n = self.style_stack.len();
        if n > 0 {
            self.style_stack[n - 1]
        } else {
            plain_style(MdColor::Plain)
        }
    }

    /// Finishes the line being built (with the quote gutter).
    fn flush(&mut self)
        ensures
            rows_view(final(self).out@) == rows_view(old(self).out@).push(flushed(*old(self))),
            final(self).cur@.len() == 0,
            final(self).style_stack == old(self).style_stack,
            final(self).in_code == old(self).in_code,
            final(self).code_lang == old(self).code_lang,
            final(self).code_buf == old(self).code_buf,
            final(self).list_stack == old(self).list_stack,
            final(self).at_item_start == old(self).at_item_start,
            final(self).bq_depth == old(self).bq_depth,
    {
        let mut spans: Vec<(String, MdStyle)> = Vec::new();
        if self.bq_depth > 0 {
            let bar = repeat_text("\u{2502} ", self.bq_depth as usize);
            proof {
                reveal_strlit("\u{2502} ");
                assert("\u{2502} "@ =~= seq!['\u{2502}', ' ']);
            }
            spans.push((bar, plain_style(MdColor::DarkGray)));
            assert(spans_view(spans@) =~= seq![(repeated(seq!['\u{2502}', ' '], self.bq_depth as nat), style_of(MdColor::DarkGray))]);
        }
        let ghost g = spans_view(spans@);
        assert(g =~= gutter(self.bq_depth)) by {
            if self.bq_depth == 0 {
                assert(spans@.len() == 0);
            }
        }
        let mut cur: Vec<(String, MdStyle)> = Vec::new();
        std::mem::swap(&mut cur, &mut self.cur);
        let ghost c0 = cur@;
        let mut k: usize = 0;
        while k < cur.len()
            invariant
                k <= c0.len(),
                cur@ == c0,
                spans_view(spans@) == g + spans_view(c0.take(k as int)),
            decreases c0.len() - k,
        {
            let ghost before = spans_view(spans@);
            let (t, st) = &cur[k];
            spans.push((t.clone(), *st));
            assert(spans_view(spans@) =~= before.push(span_view(c0[k as int])));
            assert(spans_view(c0.take(k + 1)) =~= spans_view(c0.take(k as int)).push(span_view(c0[k as int])));
            k += 1;
        }
        assert(c0.take(k as int) =~= c0);
        let ghost before = rows_view(self.out@);
        self.out.push(MdRow::Line(spans));
        assert(rows_view(self.out@) =~= before.push(flushed(*old(self))));
    }

    fn flush_if_any(&mut self)
        ensures
            flushed_if_any(*old(self), rows_view(final(self).out@)),
            final(self).cur@.len() == 0,
            final(self).style_stack == old(self).style_stack,
            final(self).in_code == old(self).in_code,
            final(self).code_lang == old(self).code_lang,
            final(self).code_buf == old(self).code_buf,
            final(self).list_stack == old(self).list_stack,
            final(self).at_item_start == old(self).at_item_start,
            final(self).bq_depth == old(self).bq_depth,
    {
        if self.cur.len() > 0 {
            self.flush();
        }
    }

    fn push_blank(&mut self)
        ensures
            rows_view(final(self).out@) == rows_view(old(self).out@).push(blank_row()),
            *final(self) == (MdRenderer { out: final(self).out, ..*old(self) }),
    {
        let ghost before = rows_view(self.out@);
        self.out.push(blank_line_row());
        assert(rows_view(self.out@) =~= before.push(blank_row()));
    }

    fn push_span(&mut self, t: String, st: MdStyle)
        ensures
            spans_view(final(self).cur@) == spans_view(old(self).cur@).push((t@, st)),
            *final(self) == (MdRenderer { cur: final(self).cur, ..*old(self) }),
    {
        let ghost before = spans_view(self.cur@);
        self.cur.push((t, st));
        assert(spans_view(self.cur@) =~= before.push((t@, st)));
    }

    /// Writes text outside code blocks (see `text_written`).
    fn push_text(&mut self, text: &str)
        ensures
            text_written(*old(self), text@, *final(self)),
    {
        let style = self.current_style();
        if self.at_item_start {
            self.at_item_start = false;
            let n = self.list_stack.len();
            let depth = if n > 0 {
                n - 1
            } else {
                0
            };
            let mut marker = repeat_text("  ", depth);
            proof {
                reveal_strlit("  ");
                assert("  "@ =~= seq![' ', ' ']);
            }
            let last = if n > 0 {
                self.list_stack[n - 1]
            } else {
                None
            };
            match last {
                Some(k) => {
                    push_decimal_u64(&mut marker, k);
                    marker.push('.');
                },
                None => marker.push('\u{2022}'),
            }
            marker.push(' ');
            assert(marker@ =~= item_marker(self.list_stack@));
            let ms = MdStyle { color: MdColor::Cyan, bold: true, italic: false, underlined: false, crossed_out: false };
            self.push_span(marker, ms);
        }
        let cs = chars_of(text);
        let m = cs.len();
        let ghost g = gutter(self.bq_depth);
        let ghost goal = after_parts(rows_view(self.out@), spans_view(self.cur@), g, split_nl(text@, 0, 0), style);
        let mut piece: Vec<char> = Vec::new();
        let mut start: usize = 0;
        let mut i: usize = 0;
        while i < m
            invariant
                m == cs@.len(),
                cs@ == text@,
                start <= i <= m,
                piece@ == text@.subrange(start as int, i as int),
                g == gutter(self.bq_depth),
                goal == after_parts(rows_view(self.out@), spans_view(self.cur@), g, split_nl(text@, start as int, i as int), style),
                !self.at_item_start,
                self.style_stack == old(self).style_stack,
                self.in_code == old(self).in_code,
                self.code_lang == old(self).code_lang,
                self.code_buf == old(self).code_buf,
                self.list_stack == old(self).list_stack,
                self.bq_depth == old(self).bq_depth,
                style == cur_style(*old(self)),
            decreases m - i,
        {
            if cs[i] == '\n' {
                let ghost rest = split_nl(text@, i + 1, i + 1);
                let ghost sub = text@.subrange(start as int, i as int);
                let ghost o_out = rows_view(self.out@);
                let ghost o_cur = spans_view(self.cur@);
                let ghost cur1 = if sub.len() > 0 {
                    o_cur.push((sub, style))
                } else {
                    o_cur
                };
                proof {
                    assert(split_nl(text@, start as int, i as int) == seq![sub] + rest);
                    lemma_split_nl_nonempty(text@, i + 1, i + 1);
                    let parts = seq![sub] + rest;
                    assert(parts[0] == sub);
                    assert(parts.drop_first() =~= rest);
                    assert(after_parts(o_out, o_cur, g, parts, style) == after_parts(
                        o_out.push(line_row(g + cur1)),
                        seq![],
                        g,
                        rest,
                        style,
                    ));
                }
                if piece.len() > 0 {
                    let p = string_of(&piece);
                    self.push_span(p, style);
                }
                assert(spans_view(self.cur@) == cur1);
                self.flush();
                assert(spans_view(self.cur@) =~= Seq::<(Seq<char>, MdStyle)>::empty());
                piece = Vec::new();
                i = i + 1;
                start = i;
                assert(piece@ =~= text@.subrange(start as int, i as int));
            } else {
                piece.push(cs[i]);
                i = i + 1;
                assert(piece@ =~= text@.subrange(start as int, i as int));
            }
        }
        proof {
            let sub = text@.subrange(start as int, m as int);
            assert(split_nl(text@, start as int, i as int) == seq![sub]);
            assert(seq![sub][0] == sub);
        }
        if piece.len() > 0 {
            let p = string_of(&piece);
            self.push_span(p, style);
        }
    }
}

impl MdRenderer {
    fn push_style(&mut self, st: MdStyle)
        ensures
            final(self).style_stack@ == old(self).style_stack@.push(st),
            *final(self) == (MdRenderer { style_stack: final(self).style_stack, ..*old(self) }),
    {
        self.style_stack.push(st);
    }

    fn pop_style(&mut self)
        ensures
            final(self).style_stack@ == if old(self).style_stack@.len() > 0 {
                old(self).style_stack@.drop_last()
            } else {
                old(self).style_stack@
            },
            *final(self) == (MdRenderer { style_stack: final(self).style_stack, ..*old(self) }),
    {
        if self.style_stack.len() > 0 {
            self.style_stack.pop();
        }
    }

    fn push_line(&mut self, t: String, st: MdStyle)
        ensures
            rows_view(final(self).out@) == rows_view(old(self).out@).push(line_row(seq![(t@, st)])),
            *final(self) == (MdRenderer { out: final(self).out, ..*old(self) }),
    {
        let mut v: Vec<(String, MdStyle)> = Vec::new();
        let ghost tv = t@;
        v.push((t, st));
        assert(spans_view(v@) =~= seq![(tv, st)]);
        let ghost before = rows_view(self.out@);
        self.out.push(MdRow::Line(v));
        assert(rows_view(self.out@) =~= before.push(line_row(seq![(tv, st)])));
    }

    /// Takes one event (see `md_step`).
    pub fn feed(&mut self, ev: MdEvent)
        requires
            can_take(*old(self), ev),
        ensures
            md_step(*old(self), ev, *final(self)),
    {
        reveal(md_step);
        match ev {
            MdEvent::Start(tag) => match tag {
                MdTag::Heading(l) => {
                    let st = if l <= 1 {
                        MdStyle { color: MdColor::Cyan, bold: true, italic: false, underlined: true, crossed_out: false }
                    } else if l == 2 {
                        MdStyle { color: MdColor::Blue, bold: true, italic: false, underlined: false, crossed_out: false }
                    } else {
                        MdStyle { color: MdColor::Magenta, bold: true, italic: false, underlined: false, crossed_out: false }
                    };
                    self.push_style(st);
                },
                MdTag::Strong => {
                    let c = self.current_style();
                    self.push_style(MdStyle { bold: true, ..c });
                },
                MdTag::Emphasis => {
                    let c = self.current_style();
                    self.push_style(MdStyle { italic: true, ..c });
                },
                MdTag::Strikethrough => {
                    let c = self.current_style();
                    self.push_style(MdStyle { crossed_out: true, ..c });
                },
                MdTag::BlockQuote => {
                    self.bq_depth = self.bq_depth + 1;
                },
                MdTag::List(start) => {
                    let first = match start {
                        Some(n) => Some(if n > 0 {
                            n - 1
                        } else {
                            0
                        }),
                        None => None,
                    };
                    self.list_stack.push(first);
                },
                MdTag::Item => {
                    let n = self.list_stack.len();
                    if n > 0 {
                        match self.list_stack[n - 1] {
                            Some(k) => {
                                self.list_stack.set(n - 1, Some(k + 1));
                            },
                            None => {},
                        }
                    }
                    self.flush_if_any();
                    self.at_item_start = true;
                },
                MdTag::CodeBlock(lang) => {
                    self.in_code = true;
                    self.code_lang = lang;
                    self.code_buf = String::new();
                },
                MdTag::Other => {},
            },
            MdEvent::End(t) => {
                if t == MdTagEnd::Heading || t == MdTagEnd::Paragraph || t == MdTagEnd::BlockQuote {
                    self.flush_if_any();
                    if t == MdTagEnd::Heading {
                        self.pop_style();
                    }
                    if t == MdTagEnd::BlockQuote && self.bq_depth > 0 {
                        self.bq_depth = self.bq_depth - 1;
                    }
                    self.push_blank();
                } else if t == MdTagEnd::Item {
                    self.flush_if_any();
                } else if t == MdTagEnd::List {
                    if self.list_stack.len() > 0 {
                        self.list_stack.pop();
                    }
                    if self.list_stack.len() == 0 {
                        self.push_blank();
                    }
                } else if t == MdTagEnd::Strong || t == MdTagEnd::Emphasis || t == MdTagEnd::Strikethrough {
                    self.pop_style();
                } else if t == MdTagEnd::CodeBlock {
                    let sep = code_separator();
                    self.push_line(sep, plain_style(MdColor::DarkGray));
                    let mut code = String::new();
                    let mut lang = String::new();
                    std::mem::swap(&mut code, &mut self.code_buf);
                    std::mem::swap(&mut lang, &mut self.code_lang);
                    let ghost before = rows_view(self.out@);
                    self.out.push(MdRow::Code(code, lang));
                    assert(rows_view(self.out@) =~= before.push((true, seq![], old(self).code_buf@, old(self).code_lang@)));
                    let sep2 = code_separator();
                    self.push_line(sep2, plain_style(MdColor::DarkGray));
                    self.push_blank();
                    self.in_code = false;
                }
            },
            MdEvent::Text(t) => {
                if self.in_code {
                    push_all(&mut self.code_buf, t.as_str());
                } else {
                    self.push_text(t.as_str());
                }
            },
            MdEvent::Code(t) => {
                let mut c = String::new();
                c.push('`');
                push_all(&mut c, t.as_str());
                c.push('`');
                assert(c@ =~= seq!['`'] + t@ + seq!['`']);
                self.push_span(c, plain_style(MdColor::Yellow));
            },
            MdEvent::SoftBreak => {
                let mut c = String::new();
                c.push(' ');
                assert(c@ =~= seq![' ']);
                self.push_span(c, plain_style(MdColor::Plain));
            },
            MdEvent::HardBreak => {
                self.flush();
            },
            MdEvent::Rule => {
                let mut c = String::new();
                let mut k: usize = 0;
                while k < 48
                    invariant
                        k <= 48,
                        c@ == repeated(seq!['\u{2500}'], k as nat),
                    decreases 48 - k,
                {
                    c.push('\u{2500}');
                    k += 1;
                }
                self.push_line(c, plain_style(MdColor::DarkGray));
                self.push_blank();
            },
            MdEvent::Other => {},
        }
    }

    /// The rows written: the line being built is finished, and blank lines
    /// at the end are dropped.
    pub fn finish(self) -> (r: Vec<MdRow>)
        ensures
            rows_view(r@) == finished_rows(self),
    {
        let mut me = self;
        me.flush_if_any();
        let mut out = me.out;
        let ghost all = rows_view(out@);
        assert(all == (if self.cur@.len() > 0 {
            rows_view(self.out@).push(flushed(self))
        } else {
            rows_view(self.out@)
        }));
        while out.len() > 0 && row_is_blank(&out[out.len() - 1])
            invariant
                without_trailing_blanks(all) == without_trailing_blanks(rows_view(out@)),
            decreases out@.len(),
        {
            let ghost before = rows_view(out@);
            out.pop();
            assert(rows_view(out@) =~= before.drop_last());
        }
        out
    }
}

/// The separator above and below a code block.
fn code_separator() -> (s: String)
    ensures
        s@ == code_sep(),
{
    let mut c = String::new();
    c.push(' ');
    c.push(' ');
    let mut k: usize = 0;
    while k < 30
        invariant
            k <= 30,
            c@ == seq![' ', ' '] + repeated(seq!['\u{2500}'], k as nat),
        decreases 30 - k,
    {
        c.push('\u{2500}');
        k += 1;
        assert(c@ =~= seq![' ', ' '] + repeated(seq!['\u{2500}'], k as nat));
    }
    c
}

fn row_is_blank(r: &MdRow) -> (b: bool)
    ensures
        b == blank_line(row_view(*r)),
{
    match r {
        MdRow::Code(_, _) => false,
        MdRow::Line(v) => {
            let ghost rv = row_view(*r);
            assert(rv.1 == spans_view(v@) && !rv.0);
            let mut k: usize = 0;
            while k < v.len()
                invariant
                    rv == row_view(*r),
                    rv.1 == spans_view(v@),
                    !rv.0,
                    k <= v@.len(),
                    forall|q: int| 0 <= q < k ==> trim(#[trigger] spans_view(v@)[q].0).len() == 0,
                decreases v@.len() - k,
            {
                if !blank(v[k].0.as_str()) {
                    assert(spans_view(v@)[k as int].0 == v@[k as int].0@);
                    assert(row_view(*r).1 == spans_view(v@));
                    assert(trim(row_view(*r).1[k as int].0).len() != 0);
                    return false;
                }
                k += 1;
            }
            true
        },
    }
}

// ~~~ a whole text ~~~~~~~~~~~~~~~~~~~~~~~~~~~~~~~~~~~~~~~~~~~~~~~~~~~~~~~~~~~~

impl MdRenderer {
    /// Whether `feed` can take the event: the counter it raises is below
    /// its limit.
    pub fn takes(&self, ev: &MdEvent) -> (b: bool)
        ensures
            b == can_take(*self, *ev),
    {
        match ev {
            MdEvent::Start(MdTag::BlockQuote) => self.bq_depth < u32::MAX,
            MdEvent::Start(MdTag::Item) => {
                let n = self.list_stack.len();
                if n > 0 {
                    match self.list_stack[n - 1] {
                        Some(k) => k < u64::MAX,
                        None => true,
                    }
                } else {
                    true
                }
            },
            _ => true,
        }
    }
}

/// The renderer as `new` makes it.
pub open spec fn fresh(r: MdRenderer) -> bool {
    &&& r.out@.len() == 0
    &&& r.cur@.len() == 0
    &&& r.style_stack@ == seq![style_of(MdColor::Green)]
    &&& !r.in_code
    &&& r.code_lang@.len() == 0
    &&& r.code_buf@.len() == 0
    &&& r.list_stack@.len() == 0
    &&& !r.at_item_start
    &&& r.bq_depth == 0
}

/// `states` is a run of the renderer over `evs`: it starts fresh, and each
/// event, taken within the counters' limits, leads from one state to the
/// next.
pub open spec fn md_run(evs: Seq<MdEvent>, states: Seq<MdRenderer>) -> bool {
    &&& states.len() == evs.len() + 1
    &&& fresh(states[0])
    &&& forall|i: int|
        0 <= i < evs.len() ==> can_take(#[trigger] states[i], evs[i]) && md_step(states[i], evs[i], states[i + 1])
}

/// The rows a run of the renderer over `evs` ends with.
pub open spec fn drawn(evs: Seq<MdEvent>, rows: Seq<(bool, Seq<(Seq<char>, MdStyle)>, Seq<char>, Seq<char>)>) -> bool {
    exists|states: Seq<MdRenderer>| #[trigger] md_run(evs, states) && rows == finished_rows(states.last())
}

/// `states` runs the renderer over the events before the last state's, and
/// the next event would raise a counter past its limit.
pub open spec fn stuck_at(evs: Seq<MdEvent>, states: Seq<MdRenderer>) -> bool {
    &&& 1 <= states.len() <= evs.len()
    &&& md_run(evs.take(states.len() - 1), states)
    &&& !can_take(states.last(), evs[states.len() - 1])
}

/// A run over the first events reaches one that would raise a counter past
/// its limit.
pub open spec fn overflows(evs: Seq<MdEvent>) -> bool {
    exists|states: Seq<MdRenderer>| #[trigger] stuck_at(evs, states)
}

/// Draws a whole run of events; `None` where an event would raise a
/// counter past its limit.
pub fn render_events(evs: Vec<MdEvent>) -> (r: Option<Vec<MdRow>>)
    ensures
        r matches Some(rows) ==> drawn(evs@, rows_view(rows@)),
        r is None ==> overflows(evs@),
{
    let ghost all = evs@;
    let mut pending = evs;
    let mut r = MdRenderer::new();
    let ghost mut states: Seq<MdRenderer> = seq![r];
    let mut k: usize = 0;
    let n0 = pending.len();
    assert(all.take(0) =~= Seq::<MdEvent>::empty());
    assert(all.skip(0) =~= all);
    while pending.len() > 0
        invariant
            all == evs@,
            all.len() == n0,
            k <= all.len(),
            pending@ == all.skip(k as int),
            md_run(all.take(k as int), states),
            states.last() == r,
        decreases pending@.len(),
    {
        let ev = pending.remove(0);
        assert(ev == all[k as int]);
        assert(pending@ =~= all.skip(k + 1));
        if !r.takes(&ev) {
            assert(all.take(k as int) =~= all.take(states.len() - 1));
            assert(stuck_at(all, states));
            return None;
        }
        let ghost before = states;
        let ghost pre = r;
        r.feed(ev);
        proof {
            states = states.push(r);
            let t = all.take(k + 1);
            assert forall|i: int| 0 <= i < t.len() implies can_take(#[trigger] states[i], t[i]) && md_step(
                states[i],
                t[i],
                states[i + 1],
            ) by {
                if i < k {
                    assert(t[i] == all.take(k as int)[i]);
                    assert(states[i] == before[i]);
                    assert(states[i + 1] == before[i + 1]);
                    assert(can_take(before[i], all.take(k as int)[i]));
                } else {
                    assert(states[i] == pre);
                    assert(states[i + 1] == r);
                }
            }
        }
        k += 1;
    }
    assert(all.take(k as int) =~= all);
    let rows = r.finish();
    Some(rows)
}

// ~~~ the outside parser ~~~~~~~~~~~~~~~~~~~~~~~~~~~~~~~~~~~~~~~~~~~~~~~~~~~~~~

#[verifier::external_type_specification]
#[verifier::external_body]
pub struct ExCmarkEvent<'a>(Event<'a>);

#[verifier::external_type_specification]
#[verifier::external_body]
pub struct ExCmarkTag<'a>(Tag<'a>);

#[verifier::external_type_specification]
#[verifier::external_body]
pub struct ExCmarkTagEnd(TagEnd);

/// The events pulldown_cmark's parser gives for a text (strikethrough on,
/// tables off), each as an `MdEvent`.
pub uninterp spec fn cmark_events(text: Seq<char>) -> Seq<MdEvent>;

/// Runs pulldown_cmark's `Parser::new_ext` over the text with
/// `Options::ENABLE_STRIKETHROUGH` alone and converts each event with
/// `event_value`. The events depend on the text alone; their sequence is
/// named `cmark_events` and nothing more is claimed of it.
#[verifier::external_body]
fn parse_markdown(text: &str) -> (evs: Vec<MdEvent>)
    ensures
        evs@ == cmark_events(text@),
{
    let mut opts = pulldown_cmark::Options::empty();
    opts.insert(pulldown_cmark::Options::ENABLE_STRIKETHROUGH);
    pulldown_cmark::Parser::new_ext(text, opts).map(event_value).collect()
}

/// Converts one pulldown_cmark event variant for variant; the events not
/// drawn here become `MdEvent::Other`. Claims nothing.
#[verifier::external_body]
fn event_value(ev: Event) -> MdEvent {
    match ev {
        Event::Start(t) => MdEvent::Start(tag_value(t)),
        Event::End(t) => MdEvent::End(tag_end_value(t)),
        Event::Text(t) => MdEvent::Text(t.to_string()),
        Event::Code(t) => MdEvent::Code(t.to_string()),
        Event::SoftBreak => MdEvent::SoftBreak,
        Event::HardBreak => MdEvent::HardBreak,
        Event::Rule => MdEvent::Rule,
        _ => MdEvent::Other,
    }
}

/// Converts an opening tag variant for variant (a heading by its level's
/// number, a code block by its fence's language). Claims nothing.
#[verifier::external_body]
fn tag_value(tag: Tag) -> MdTag {
    match tag {
        Tag::Heading { level, .. } => MdTag::Heading(level as u8),
        Tag::Strong => MdTag::Strong,
        Tag::Emphasis => MdTag::Emphasis,
        Tag::Strikethrough => MdTag::Strikethrough,
        Tag::BlockQuote(_) => MdTag::BlockQuote,
        Tag::List(start) => MdTag::List(start),
        Tag::Item => MdTag::Item,
        Tag::CodeBlock(CodeBlockKind::Fenced(lang)) => MdTag::CodeBlock(lang.to_string()),
        Tag::CodeBlock(CodeBlockKind::Indented) => MdTag::CodeBlock(String::new()),
        _ => MdTag::Other,
    }
}

/// Converts a closing tag variant for variant. Claims nothing.
#[verifier::external_body]
fn tag_end_value(end: TagEnd) -> MdTagEnd {
    match end {
        TagEnd::Heading(_) => MdTagEnd::Heading,
        TagEnd::Paragraph => MdTagEnd::Paragraph,
        TagEnd::Item => MdTagEnd::Item,
        TagEnd::List(_) => MdTagEnd::List,
        TagEnd::Strong => MdTagEnd::Strong,
        TagEnd::Emphasis => MdTagEnd::Emphasis,
        TagEnd::Strikethrough => MdTagEnd::Strikethrough,
        TagEnd::BlockQuote(_) => MdTagEnd::BlockQuote,
        TagEnd::CodeBlock => MdTagEnd::CodeBlock,
        _ => MdTagEnd::Other,
    }
}

// ~~~ highlighting code blocks ~~~~~~~~~~~~~~~~~~~~~~~~~~~~~~~~~~~~~~~~~~~~~~~~~


/// A highlighted piece as drawn: its text without the `\n`s at its end, in
/// the colour syntect gave it (plain where nothing is left of the text).
pub open spec fn piece_span(p: (Seq<char>, u8, u8, u8)) -> (Seq<char>, MdStyle) {
    let t = trim_nl(p.0);
    (
        t,
        if t.len() == 0 {
            style_of(MdColor::Plain)
        } else {
            style_of(MdColor::Rgb(p.1, p.2, p.3))
        },
    )
}

/// The two spaces a line of code starts with.
pub open spec fn code_indent() -> (Seq<char>, MdStyle) {
    (seq![' ', ' '], style_of(MdColor::Plain))
}

/// A line of code drawn from the highlighter's pieces: two spaces, then
/// each piece as `piece_span` draws it.
pub open spec fn pieces_row(ps: Seq<(Seq<char>, u8, u8, u8)>) -> (bool, Seq<(Seq<char>, MdStyle)>, Seq<char>, Seq<char>) {
    line_row(seq![code_indent()] + ps.map_values(|p: (Seq<char>, u8, u8, u8)| piece_span(p)))
}

/// The text of some spans, one after another.
pub open spec fn spans_text(spans: Seq<(Seq<char>, MdStyle)>) -> Seq<char>
    decreases spans.len(),
{
    if spans.len() == 0 {
        seq![]
    } else {
        spans[0].0 + spans_text(spans.drop_first())
    }
}

proof fn lemma_empty_pieces(ps: Seq<(Seq<char>, u8, u8, u8)>)
    requires
        pieces_text(ps).len() == 0,
    ensures
        spans_text(ps.map_values(|p: (Seq<char>, u8, u8, u8)| piece_span(p))).len() == 0,
    decreases ps.len(),
{
    if ps.len() > 0 {
        assert(ps[0].0.len() == 0);
        assert(trim_nl(ps[0].0) == ps[0].0);
        assert(ps.map_values(|p: (Seq<char>, u8, u8, u8)| piece_span(p)).drop_first() =~= ps.drop_first().map_values(
            |p: (Seq<char>, u8, u8, u8)| piece_span(p),
        ));
        lemma_empty_pieces(ps.drop_first());
    }
}

/// A line drawn from highlighter pieces that make up the line and its
/// `\n` shows exactly the line after the two spaces.
pub proof fn lemma_highlighted_text(line: Seq<char>, ps: Seq<(Seq<char>, u8, u8, u8)>)
    requires
        forall|q: int| 0 <= q < line.len() ==> line[q] != '\n',
        pieces_text(ps) == line.push('\n'),
    ensures
        spans_text(pieces_row(ps).1.drop_first()) == line,
    decreases ps.len(),
{
    let sp = ps.map_values(|p: (Seq<char>, u8, u8, u8)| piece_span(p));
    assert(pieces_row(ps).1.drop_first() =~= sp);
    lemma_pieces_line(line, ps);
}

proof fn lemma_pieces_line(w: Seq<char>, ps: Seq<(Seq<char>, u8, u8, u8)>)
    requires
        forall|q: int| 0 <= q < w.len() ==> w[q] != '\n',
        pieces_text(ps) == w.push('\n'),
    ensures
        spans_text(ps.map_values(|p: (Seq<char>, u8, u8, u8)| piece_span(p))) == w,
    decreases ps.len(),
{
    let sp = ps.map_values(|p: (Seq<char>, u8, u8, u8)| piece_span(p));
    if ps.len() == 0 {
        assert(pieces_text(ps).len() == 0);
        assert(w.push('\n').len() > 0);
    }
    let p = ps[0].0;
    let r = pieces_text(ps.drop_first());
    assert(p + r == w.push('\n'));
    assert(sp.drop_first() =~= ps.drop_first().map_values(|p: (Seq<char>, u8, u8, u8)| piece_span(p)));
    if r.len() == 0 {
        assert(p =~= w.push('\n'));
        assert(p.drop_last() =~= w);
        if w.len() > 0 {
            assert(w.last() != '\n');
        }
        assert(trim_nl(w) == w);
        assert(trim_nl(p) == w);
        lemma_empty_pieces(ps.drop_first());
        assert(spans_text(sp) =~= w + spans_text(sp.drop_first()));
    } else {
        let d = p.len() as int;
        assert((p + r).last() == r.last());
        assert(w.push('\n').last() == '\n');
        assert(r.last() == '\n');
        assert(d <= w.len()) by {
            if d > w.len() {
                assert((p + r).len() == w.len() + 1);
            }
        }
        let full = w.push('\n');
        assert forall|q: int| 0 <= q < d implies p[q] == w.take(d)[q] by {
            assert((p + r)[q] == p[q]);
            assert(full[q] == w[q]);
        }
        assert(p =~= w.take(d));
        assert(r.len() == w.skip(d).push('\n').len());
        assert forall|q: int| 0 <= q < r.len() implies r[q] == w.skip(d).push('\n')[q] by {
            assert((p + r)[d + q] == r[q]);
            if d + q < w.len() {
                assert(full[d + q] == w[d + q]);
            }
        }
        assert(r =~= w.skip(d).push('\n'));
        if p.len() > 0 {
            assert(p.last() == w[d - 1]);
        }
        assert(trim_nl(p) == p);
        lemma_pieces_line(w.skip(d), ps.drop_first());
        assert(spans_text(sp) =~= p + w.skip(d));
        assert(w.take(d) + w.skip(d) =~= w);
    }
}

/// A line of code drawn without a highlighter: two spaces and the line,
/// plain.
pub open spec fn plain_code_row(line: Seq<char>) -> (bool, Seq<(Seq<char>, MdStyle)>, Seq<char>, Seq<char>) {
    line_row(seq![code_indent(), (line, style_of(MdColor::Plain))])
}

/// The theme code blocks are highlighted with.
pub open spec fn code_theme() -> Seq<char> {
    "base16-ocean.dark"@
}

/// Whether a code block in `lang` is highlighted: the syntax set has a
/// syntax for it and the theme set holds the theme.
pub open spec fn code_colored(lang: Seq<char>, ss: SyntaxSet, ts: ThemeSet) -> bool {
    picked_syntax(syntax_list(ss), lang) is Some && theme_names(ts).contains(code_theme())
}

/// Lines with their `\n`, as they are handed to the highlighter.
pub open spec fn with_newlines(ls: Seq<Seq<char>>) -> Seq<Seq<char>> {
    ls.map_values(|l: Seq<char>| l.push('\n'))
}

/// Line `k` of a code block highlighted: drawn from the pieces syntect
/// gives for it, with the syntax the language picks and the theme, after
/// the block's earlier lines.
pub open spec fn highlighted_line(
    ss: SyntaxSet,
    ts: ThemeSet,
    lang: Seq<char>,
    ls: Seq<Seq<char>>,
    k: int,
) -> (bool, Seq<(Seq<char>, MdStyle)>, Seq<char>, Seq<char>) {
    pieces_row(
        line_pieces(
            ss,
            syntax_refs(ss)[picked_syntax(syntax_list(ss), lang)->0],
            theme_of_name(ts, code_theme()),
            with_newlines(ls.take(k)),
            ls[k].push('\n'),
        ),
    )
}

/// A code block in language `lang` drawn one row per line, the lines as
/// `str::lines` gives them: each line highlighted when `code_colored`, else
/// each drawn plain.
pub open spec fn code_drawn(
    code: Seq<char>,
    lang: Seq<char>,
    ss: SyntaxSet,
    ts: ThemeSet,
    rows: Seq<(bool, Seq<(Seq<char>, MdStyle)>, Seq<char>, Seq<char>)>,
) -> bool {
    let ls = lines_from(code, 0, 0);
    &&& rows.len() == ls.len()
    &&& forall|k: int|
        #![trigger rows[k]]
        0 <= k < rows.len() ==> if code_colored(lang, ss, ts) {
            rows[k] == highlighted_line(ss, ts, lang, ls, k)
        } else {
            rows[k] == plain_code_row(ls[k])
        }
}

fn indent_span() -> (r: (String, MdStyle))
    ensures
        (r.0@, r.1) == code_indent(),
{
    let mut t = String::new();
    t.push(' ');
    t.push(' ');
    assert(t@ =~= seq![' ', ' ']);
    (t, plain_style(MdColor::Plain))
}

/// A line of code drawn from the highlighter's pieces (see `pieces_row`).
pub fn code_row(pieces: &Vec<(String, u8, u8, u8)>) -> (r: MdRow)
    ensures
        row_view(r) == pieces_row(pieces_view(pieces@)),
{
    let ghost pv = pieces_view(pieces@);
    let mut spans: Vec<(String, MdStyle)> = Vec::new();
    spans.push(indent_span());
    let mut j: usize = 0;
    while j < pieces.len()
        invariant
            j <= pieces@.len(),
            pv == pieces_view(pieces@),
            spans_view(spans@) == seq![code_indent()] + pv.take(j as int).map_values(
                |p: (Seq<char>, u8, u8, u8)| piece_span(p),
            ),
        decreases pieces@.len() - j,
    {
        let tc = trim_newlines(pieces[j].0.as_str());
        let style = if tc.len() == 0 {
            plain_style(MdColor::Plain)
        } else {
            let (_, r, g, b) = &pieces[j];
            plain_style(MdColor::Rgb(*r, *g, *b))
        };
        let t = string_of(&tc);
        let ghost before = spans_view(spans@);
        spans.push((t, style));
        proof {
            assert(pv[j as int] == (pieces@[j as int].0@, pieces@[j as int].1, pieces@[j as int].2, pieces@[j as int].3));
            assert(piece_span(pv[j as int]) == (tc@, style));
            assert(pv.take(j + 1) =~= pv.take(j as int).push(pv[j as int]));
            assert(spans_view(spans@) =~= before.push((tc@, style)));
            assert(spans_view(spans@) =~= seq![code_indent()] + pv.take(j + 1).map_values(
                |p: (Seq<char>, u8, u8, u8)| piece_span(p),
            ));
        }
        j += 1;
    }
    assert(pv.take(j as int) =~= pv);
    MdRow::Line(spans)
}

/// A line of code drawn without a highlighter (see `plain_code_row`).
fn plain_code_line(line: &String) -> (r: MdRow)
    ensures
        row_view(r) == plain_code_row(line@),
{
    let mut spans: Vec<(String, MdStyle)> = Vec::new();
    spans.push(indent_span());
    spans.push((line.clone(), plain_style(MdColor::Plain)));
    proof {
        assert(spans_view(spans@) =~= seq![code_indent(), (line@, style_of(MdColor::Plain))]);
    }
    MdRow::Line(spans)
}

/// Highlights a code block in its language, one row per line, with
/// syntect's bundled "base16-ocean.dark" theme; where the language's
/// syntax or the theme is missing from the sets given, the lines are drawn
/// plain (see `code_drawn`).
pub fn highlight_code(code: &str, lang: &str, syntaxes: &SyntaxSet, themes: &ThemeSet) -> (rows: Vec<MdRow>)
    ensures
        code_drawn(code@, lang@, *syntaxes, *themes, rows_view(rows@)),
{
    let lines = text_lines(code);
    let ghost ls = lines_from(code@, 0, 0);
    let ghost on = code_colored(lang@, *syntaxes, *themes);
    let syntax = choose_syntax(syntaxes, lang);
    let theme = theme_named(themes, "base16-ocean.dark");
    let mut hl = match syntax {
        Some(c) => match theme {
            Some(t) => Some(line_highlighter(&c, t)),
            None => None,
        },
        None => None,
    };
    let ghost sr = syntax_refs(*syntaxes)[picked_syntax(syntax_list(*syntaxes), lang@)->0];
    let ghost th = theme_of_name(*themes, code_theme());
    assert(hl is Some <==> on);
    assert(ls.take(0) =~= Seq::<Seq<char>>::empty());
    assert(with_newlines(ls.take(0)) =~= Seq::<Seq<char>>::empty());
    let mut rows: Vec<MdRow> = Vec::new();
    let mut k: usize = 0;
    while k < lines.len()
        invariant
            ls == lines_from(code@, 0, 0),
            lines@.map_values(|l: String| l@) == ls,
            k <= lines@.len(),
            rows@.len() == k,
            hl is Some <==> on,
            on == code_colored(lang@, *syntaxes, *themes),
            on ==> sr == syntax_refs(*syntaxes)[picked_syntax(syntax_list(*syntaxes), lang@)->0],
            on ==> th == theme_of_name(*themes, code_theme()),
            hl matches Some(h) ==> h.set_of() == *syntaxes && h.syntax_of() == sr && h.theme_of() == th
                && h.before() == with_newlines(ls.take(k as int)),
            forall|q: int|
                #![trigger rows@[q]]
                0 <= q < k ==> if on {
                    row_view(rows@[q]) == highlighted_line(*syntaxes, *themes, lang@, ls, q)
                } else {
                    row_view(rows@[q]) == plain_code_row(ls[q])
                },
        decreases lines@.len() - k,
    {
        assert(lines@[k as int]@ == ls[k as int]);
        let row = match &mut hl {
            Some(h) => {
                let mut ln = lines[k].clone();
                ln.push('\n');
                assert(ln@ == ls[k as int].push('\n'));
                let ps = highlight_line(h, ln.as_str());
                let r = code_row(&ps);
                proof {
                    assert(ls.take(k + 1) =~= ls.take(k as int).push(ls[k as int]));
                    assert(with_newlines(ls.take(k + 1)) =~= with_newlines(ls.take(k as int)).push(
                        ls[k as int].push('\n'),
                    ));
                    assert(row_view(r) == highlighted_line(*syntaxes, *themes, lang@, ls, k as int));
                }
                r
            },
            None => plain_code_line(&lines[k]),
        };
        rows.push(row);
        k += 1;
    }
    assert(rows_view(rows@).len() == ls.len());
    assert forall|q: int| 0 <= q < rows_view(rows@).len() implies (if on {
        rows_view(rows@)[q] == highlighted_line(*syntaxes, *themes, lang@, ls, q)
    } else {
        rows_view(rows@)[q] == plain_code_row(ls[q])
    }) by {
        assert(rows_view(rows@)[q] == row_view(rows@[q]));
    }
    rows
}

// ~~~ the whole text ~~~~~~~~~~~~~~~~~~~~~~~~~~~~~~~~~~~~~~~~~~~~~~~~~~~~~~~~~~

/// Groups of rows, one after another.
pub open spec fn concat_rows(groups: Seq<Seq<(bool, Seq<(Seq<char>, MdStyle)>, Seq<char>, Seq<char>)>>) -> Seq<(bool, Seq<(Seq<char>, MdStyle)>, Seq<char>, Seq<char>)>
    decreases groups.len(),
{
    if groups.len() == 0 {
        seq![]
    } else {
        concat_rows(groups.drop_last()) + groups.last()
    }
}

/// `groups` holds, for each row, the row itself, or for a code block the
/// rows it is highlighted into.
pub open spec fn code_expanded(
    rows: Seq<(bool, Seq<(Seq<char>, MdStyle)>, Seq<char>, Seq<char>)>,
    groups: Seq<Seq<(bool, Seq<(Seq<char>, MdStyle)>, Seq<char>, Seq<char>)>>,
    ss: SyntaxSet,
    ts: ThemeSet,
) -> bool {
    &&& groups.len() == rows.len()
    &&& forall|i: int|
        0 <= i < rows.len() ==> if rows[i].0 {
            code_drawn(rows[i].2, rows[i].3, ss, ts, #[trigger] groups[i])
        } else {
            groups[i] == seq![rows[i]]
        }
}

/// `out` is `rows` with every code block highlighted in its place.
pub open spec fn highlighted(
    rows: Seq<(bool, Seq<(Seq<char>, MdStyle)>, Seq<char>, Seq<char>)>,
    out: Seq<(bool, Seq<(Seq<char>, MdStyle)>, Seq<char>, Seq<char>)>,
    ss: SyntaxSet,
    ts: ThemeSet,
) -> bool {
    exists|groups: Seq<Seq<(bool, Seq<(Seq<char>, MdStyle)>, Seq<char>, Seq<char>)>>|
        #[trigger] code_expanded(rows, groups, ss, ts) && out == concat_rows(groups)
}

/// Highlights every code block among the rows, in its place.
pub fn highlight_rows(rows: Vec<MdRow>, syntaxes: &SyntaxSet, themes: &ThemeSet) -> (r: Vec<MdRow>)
    ensures
        highlighted(
            rows_view(rows@),
            rows_view(r@),
            *syntaxes, *themes,
        ),
{
    let ghost all = rows_view(rows@);
    let mut pending = rows;
    let n0 = pending.len();
    let mut out: Vec<MdRow> = Vec::new();
    let ghost mut groups: Seq<Seq<(bool, Seq<(Seq<char>, MdStyle)>, Seq<char>, Seq<char>)>> = seq![];
    let mut k: usize = 0;
    assert(all.skip(0) =~= all);
    assert(all.take(0) =~= Seq::<(bool, Seq<(Seq<char>, MdStyle)>, Seq<char>, Seq<char>)>::empty());
    while pending.len() > 0
        invariant
            all == rows_view(rows@),
            all.len() == n0,
            k <= all.len(),
            rows_view(pending@) == all.skip(k as int),
            code_expanded(all.take(k as int), groups, *syntaxes, *themes),
            rows_view(out@) == concat_rows(groups),
        decreases pending@.len(),
    {
        let ghost pv = pending@;
        let row = pending.remove(0);
        assert(rows_view(pv).len() == pv.len());
        assert(k < all.len());
        assert(rows_view(pv)[0] == row_view(row));
        assert(all.skip(k as int)[0] == all[k as int]);
        assert(row_view(row) == all[k as int]);
        assert(rows_view(pending@).len() == all.skip(k + 1).len());
        assert forall|i: int| 0 <= i < rows_view(pending@).len() implies rows_view(pending@)[i] == all.skip(k + 1)[i] by {
            assert(pending@[i] == pv[i + 1]);
            assert(rows_view(pv)[i + 1] == all.skip(k as int)[i + 1]);
        }
        assert(rows_view(pending@) =~= all.skip(k + 1));
        let ghost before = rows_view(out@);
        let ghost g0 = groups;
        let ghost rv = row_view(row);
        match row {
            MdRow::Code(code, lang) => {
                let mut lines = highlight_code(code.as_str(), lang.as_str(), syntaxes, themes);
                let ghost lv = rows_view(lines@);
                let ghost ov = out@;
                out.append(&mut lines);
                proof {
                    groups = groups.push(lv);
                    assert(rows_view(out@) =~= before + lv);
                    assert(rv.0 && rv.2 == code@ && rv.3 == lang@);
                }
            },
            MdRow::Line(v) => {
                out.push(MdRow::Line(v));
                proof {
                    groups = groups.push(seq![rv]);
                    assert(rows_view(out@) =~= before + seq![rv]);
                    assert(!rv.0);
                }
            },
        }
        proof {
            assert(groups.drop_last() =~= g0);
            let t = all.take(k + 1);
            assert forall|i: int| 0 <= i < t.len() implies (if t[i].0 {
                code_drawn(t[i].2, t[i].3, *syntaxes, *themes, #[trigger] groups[i])
            } else {
                groups[i] == seq![t[i]]
            }) by {
                if i < k {
                    assert(t[i] == all.take(k as int)[i]);
                    assert(groups[i] == g0[i]);
                } else {
                    assert(t[i] == rv);
                }
            }
        }
        k += 1;
    }
    assert(all.take(k as int) =~= all);
    out
}

/// Renders Markdown for the terminal: pulldown_cmark's events drawn by the
/// renderer, then each code block highlighted in its place. `None` where
/// an event would raise a counter past its limit.
pub fn render(src: &str, syntaxes: &SyntaxSet, themes: &ThemeSet) -> (r: Option<Vec<MdRow>>)
    ensures
        r matches Some(rows) ==> exists|plain: Seq<(bool, Seq<(Seq<char>, MdStyle)>, Seq<char>, Seq<char>)>|
            #[trigger] drawn(cmark_events(src@), plain) && highlighted(
                plain,
                rows_view(rows@),
                *syntaxes, *themes,
            ),
        r is None ==> overflows(cmark_events(src@)),
{
    let evs = parse_markdown(src);
    match render_events(evs) {
        Some(rows) => {
            let ghost plain = rows_view(rows@);
            let out = highlight_rows(rows, syntaxes, themes);
            assert(drawn(cmark_events(src@), plain) && highlighted(
                plain,
                rows_view(out@),
                *syntaxes, *themes,
            ));
            Some(out)
        },
        None => None,
    }
}

} // verus!
