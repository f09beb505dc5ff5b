//! The outline import format: a compact way to write cards by hand (or to
//! have an AI write them). An outline holds only content, one card per JSON
//! object, in three shapes:
//!
//!   {"deck":"C::Pointers","question":"What does *p++ do?","answer":"..."}
//!
//!   {"deck":"C::Memory","question":"Heap lifecycle?",
//!    "steps":["malloc and check NULL",
//!             {"answer":"use it","branches":[
//!                {"name":"Grow","steps":["realloc, use the returned pointer"]},
//!                {"name":"Done","steps":["free once, then set to NULL"]}]}]}
//!
//!   {"deck":"Systems","question":"SSD or HDD?",
//!    "paths":[{"name":"SSD","steps":["..."]},{"name":"HDD","steps":["..."]}]}
//!
//! Optional on any card: "tags". On a simple card only: "reversible". A step
//! is either a plain string or {"name"?, "answer", "branches"?}.
//!
//!  * one object per line is the recommended layout, but pretty-printed
//!    objects, a surrounding array, code fences and chatter between the cards
//!    are all fine;
//!  * raw newlines and tabs inside strings are repaired;
//!  * a card that is broken or cut off is reported with its line number and
//!    skipped, the rest are still imported.

use vstd::prelude::*;
use crate::models::StepDraft;
use crate::drafts::{check_branch_names, unnamed_branch, branch_message};
use serde_json::Value;
use crate::text::{trim_start, is_whitespace, has_substring, contains, same_text, blank, is_blank, chars_of, occurs_at, find_from, string_of, trim, trimmed, trim_chars, collapse_ws, collapse_whitespace, lowercase, to_lower, decimal, push_decimal, push_all, concat};

verus! {

/// A card with more steps than this is almost certainly a mistake.
pub const MAX_STEPS_PER_CARD: usize = 100;

/// Longest question, answer or step text accepted.
pub const MAX_TEXT_LEN: usize = 20000;

// ~~~ splitting text into card records ~~~~~~~~~~~~~~~~~~~~~~~~~~~~~~~~~~~~~~~~

/// One `{ ... }` found in the text.
pub struct Record {
    /// 1-based line the record starts on
    pub line: usize,
    /// the record's text, raw newlines and tabs inside strings escaped
    pub text: String,
    /// the brackets balanced before the text ended or the next card began
    pub complete: bool,
}

/// A record as plain values: its line, text and completeness.
pub open spec fn record_view(r: Record) -> (int, Seq<char>, bool) {
    (r.line as int, r.text@, r.complete)
}

/// A lower-case hexadecimal digit.
pub open spec fn hex(d: nat) -> char {
    if d < 10 {
        (48 + d) as char
    } else {
        (87 + d) as char
    }
}

/// What a character inside a string adds to the record: a carriage return
/// nothing, a tab the escape `\t`, another control character a `\u00XX`
/// escape, anything else itself.
pub open spec fn in_string_text(c: char) -> Seq<char> {
    if c == '\r' {
        seq![]
    } else if c == '\t' {
        seq!['\\', 't']
    } else if (c as u32) < 0x20 {
        seq!['\\', 'u', '0', '0', hex((c as u32 / 16) as nat), hex((c as u32 % 16) as nat)]
    } else {
        seq![c]
    }
}

/// The first index at or after `j` that is not a space, tab or carriage return.
pub open spec fn spaces_end(cs: Seq<char>, j: int) -> int
    decreases cs.len() - j,
{
    if 0 <= j < cs.len() && (cs[j] == ' ' || cs[j] == '\t' || cs[j] == '\r') {
        spaces_end(cs, j + 1)
    } else {
        j
    }
}

/// A new card begins at `j`.
pub open spec fn card_starts(cs: Seq<char>, j: int) -> bool {
    occurs_at(cs, j, "{\"deck\""@)
}

/// Scanning one record from index `i` (on line `line`), with the record's
/// text so far, its bracket depth, and whether the scan is inside a string
/// and right after a backslash there. Gives the record's text, whether its
/// brackets closed, and the index and line the scan stopped at. A line
/// break inside a record that is followed by the start of a new card ends
/// the record, unfinished.
pub open spec fn scan_record(
    cs: Seq<char>,
    i: int,
    line: int,
    buf: Seq<char>,
    depth: int,
    in_str: bool,
    esc: bool,
) -> (Seq<char>, bool, int, int)
    decreases cs.len() - i,
{
    if i < 0 || i >= cs.len() {
        (buf, false, i, line)
    } else {
        let c = cs[i];
        if c == '\n' {
            let buf2 = buf + if in_str {
                seq!['\\', 'n']
            } else {
                seq!['\n']
            };
            if card_starts(cs, spaces_end(cs, i + 1)) {
                (buf2, false, i + 1, line + 1)
            } else {
                scan_record(cs, i + 1, line + 1, buf2, depth, in_str, false)
            }
        } else if in_str {
            if esc {
                scan_record(cs, i + 1, line, buf.push(c), depth, true, false)
            } else if c == '\\' {
                scan_record(cs, i + 1, line, buf.push(c), depth, true, true)
            } else if c == '"' {
                scan_record(cs, i + 1, line, buf.push(c), depth, false, false)
            } else {
                scan_record(cs, i + 1, line, buf + in_string_text(c), depth, true, false)
            }
        } else if c == '"' {
            scan_record(cs, i + 1, line, buf.push(c), depth, true, esc)
        } else if c == '{' || c == '[' {
            scan_record(cs, i + 1, line, buf.push(c), depth + 1, false, esc)
        } else if c == '}' || c == ']' {
            if depth - 1 <= 0 {
                (buf.push(c), true, i + 1, line)
            } else {
                scan_record(cs, i + 1, line, buf.push(c), depth - 1, false, esc)
            }
        } else if c == '\r' {
            scan_record(cs, i + 1, line, buf, depth, false, esc)
        } else {
            scan_record(cs, i + 1, line, buf.push(c), depth, false, esc)
        }
    }
}

/// A record scan ends within the text and past where it starts, and
/// counts at most one new line per character it reads.
pub proof fn lemma_scan_advances(
    cs: Seq<char>,
    i: int,
    line: int,
    buf: Seq<char>,
    depth: int,
    in_str: bool,
    esc: bool,
)
    requires
        0 <= i <= cs.len(),
    ensures
        ({
            let r = scan_record(cs, i, line, buf, depth, in_str, esc);
            &&& i <= r.2 <= cs.len()
            &&& i < cs.len() ==> i < r.2
            &&& line <= r.3
            &&& r.3 - line <= r.2 - i
        }),
    decreases cs.len() - i,
{
    if i < cs.len() {
        let c = cs[i];
        let b1 = buf.push(c);
        if c == '\n' {
            let buf2 = buf + if in_str {
                seq!['\\', 'n']
            } else {
                seq!['\n']
            };
            lemma_scan_advances(cs, i + 1, line + 1, buf2, depth, in_str, false);
        } else if in_str {
            if esc {
                lemma_scan_advances(cs, i + 1, line, b1, depth, true, false);
            } else if c == '\\' {
                lemma_scan_advances(cs, i + 1, line, b1, depth, true, true);
            } else if c == '"' {
                lemma_scan_advances(cs, i + 1, line, b1, depth, false, false);
            } else {
                lemma_scan_advances(cs, i + 1, line, buf + in_string_text(c), depth, true, false);
            }
        } else if c == '"' {
            lemma_scan_advances(cs, i + 1, line, b1, depth, true, esc);
        } else if c == '{' || c == '[' {
            lemma_scan_advances(cs, i + 1, line, b1, depth + 1, false, esc);
        } else if c == '}' || c == ']' {
            if depth - 1 > 0 {
                lemma_scan_advances(cs, i + 1, line, b1, depth - 1, false, esc);
            }
        } else if c == '\r' {
            lemma_scan_advances(cs, i + 1, line, buf, depth, false, esc);
        } else {
            lemma_scan_advances(cs, i + 1, line, b1, depth, false, esc);
        }
    }
}

/// Every top-level `{ ... }` of the text from index `i` on (line `line`):
/// its starting line, its text and whether it closed. Anything outside
/// brackets is skipped.
pub open spec fn records(cs: Seq<char>, i: int, line: int) -> Seq<(int, Seq<char>, bool)>
    decreases cs.len() - i,
{
    if i < 0 || i >= cs.len() {
        seq![]
    } else if cs[i] == '\n' {
        records(cs, i + 1, line + 1)
    } else if cs[i] != '{' {
        records(cs, i + 1, line)
    } else {
        let r = scan_record(cs, i, line, seq![], 0, false, false);
        proof {
            lemma_scan_advances(cs, i, line, seq![], 0, false, false);
        }
        seq![(line, r.0, r.1)] + records(cs, r.2, r.3)
    }
}

fn hex_char(d: u32) -> (c: char)
    requires
        d < 16,
    ensures
        c == hex(d as nat),
{
    if d == 0 {
        '0'
    } else if d == 1 {
        '1'
    } else if d == 2 {
        '2'
    } else if d == 3 {
        '3'
    } else if d == 4 {
        '4'
    } else if d == 5 {
        '5'
    } else if d == 6 {
        '6'
    } else if d == 7 {
        '7'
    } else if d == 8 {
        '8'
    } else if d == 9 {
        '9'
    } else if d == 10 {
        'a'
    } else if d == 11 {
        'b'
    } else if d == 12 {
        'c'
    } else if d == 13 {
        'd'
    } else if d == 14 {
        'e'
    } else {
        'f'
    }
}

/// Whether the characters of `pat` stand in `chars` from `at` on.
pub fn starts_with_at(chars: &Vec<char>, at: usize, pat: &str) -> (b: bool)
    ensures
        b == occurs_at(chars@, at as int, pat@),
{
    let p = chars_of(pat);
    let n = chars.len();
    let mut k: usize = 0;
    while k < p.len()
        invariant
            p@ == pat@,
            n == chars@.len(),
            k <= p@.len(),
            forall|q: int| 0 <= q < k ==> at + q < n && chars@[at + q] == #[trigger] p@[q],
        decreases p@.len() - k,
    {
        if at >= n || k >= n - at || chars[at + k] != p[k] {
            return false;
        }
        k += 1;
    }
    if p.len() > 0 {
        assert(chars@[at + (p@.len() - 1)] == p@[p@.len() - 1]);
    } else if at > n {
        return false;
    }
    assert(chars@.subrange(at as int, at + p@.len()) =~= p@);
    true
}

fn skip_spaces(cs: &Vec<char>, j: usize) -> (r: usize)
    requires
        j <= cs@.len(),
    ensures
        r as int == spaces_end(cs@, j as int),
        j <= r <= cs@.len(),
    decreases cs@.len() - j,
{
    if j < cs.len() && (cs[j] == ' ' || cs[j] == '\t' || cs[j] == '\r') {
        skip_spaces(cs, j + 1)
    } else {
        j
    }
}

fn push_in_string(buf: &mut String, c: char)
    ensures
        final(buf)@ == old(buf)@ + in_string_text(c),
{
    let u = c as u32;
    if c == '\r' {
        assert(old(buf)@ + in_string_text(c) =~= old(buf)@);
    } else if c == '\t' {
        buf.push('\\');
        buf.push('t');
        assert(buf@ =~= old(buf)@ + in_string_text(c));
    } else if u < 0x20 {
        buf.push('\\');
        buf.push('u');
        buf.push('0');
        buf.push('0');
        buf.push(hex_char(u / 16));
        buf.push(hex_char(u % 16));
        assert(buf@ =~= old(buf)@ + in_string_text(c));
    } else {
        buf.push(c);
        assert(buf@ =~= old(buf)@ + in_string_text(c));
    }
}

/// Scans one record starting at the `{` at index `i`.
fn scan_one(cs: &Vec<char>, i: usize, line: usize) -> (r: (String, bool, usize, usize))
    requires
        i < cs@.len() < usize::MAX,
        line <= i + 1,
        cs@[i as int] == '{',
    ensures
        (r.0@, r.1, r.2 as int, r.3 as int) == scan_record(cs@, i as int, line as int, seq![], 0, false, false),
        r.3 <= r.2 + 1,
{
    let n = cs.len();
    let ghost target = scan_record(cs@, i as int, line as int, seq![], 0, false, false);
    let mut buf = String::new();
    let mut depth: usize = 0;
    let mut in_str = false;
    let mut esc = false;
    let mut k = i;
    let mut ln = line;
    while k < n
        invariant
            n == cs@.len() < usize::MAX,
            i <= k <= n,
            ln <= k + 1,
            depth <= k - i,
            target == scan_record(cs@, i as int, line as int, seq![], 0, false, false),
            scan_record(cs@, k as int, ln as int, buf@, depth as int, in_str, esc) == target,
        decreases n - k,
    {
        let c = cs[k];
        if c == '\n' {
            ln += 1;
            let ghost before = buf@;
            if in_str {
                buf.push('\\');
                buf.push('n');
            } else {
                buf.push('\n');
            }
            assert(buf@ =~= before + if in_str {
                seq!['\\', 'n']
            } else {
                seq!['\n']
            });
            esc = false;
            k += 1;
            let j = skip_spaces(cs, k);
            let starts = starts_with_at(cs, j, "{\"deck\"");
            assert(starts == card_starts(cs@, spaces_end(cs@, k as int)));
            if starts {
                return (buf, false, k, ln);
            }
        } else {
            if in_str {
                if esc {
                    buf.push(c);
                    esc = false;
                } else if c == '\\' {
                    buf.push(c);
                    esc = true;
                } else if c == '"' {
                    buf.push(c);
                    in_str = false;
                } else {
                    push_in_string(&mut buf, c);
                }
            } else {
                if c == '"' {
                    buf.push(c);
                    in_str = true;
                } else if c == '{' || c == '[' {
                    depth += 1;
                    buf.push(c);
                } else if c == '}' || c == ']' {
                    buf.push(c);
                    if depth <= 1 {
                        return (buf, true, k + 1, ln);
                    }
                    depth -= 1;
                } else if c == '\r' {
                } else {
                    buf.push(c);
                }
            }
            k += 1;
        }
    }
    (buf, false, k, ln)
}

/// Finds each top-level `{ ... }` in `text`. Anything outside brackets
/// (fences, commas, a wrapping `[`, chatter) is ignored. Inside a record the
/// scan knows strings, so brackets in code samples do not confuse it, and
/// raw newlines and tabs inside strings are escaped on the way through. If a
/// card is left open and the next line begins a new card (`{"deck"`), the
/// open one is closed off as incomplete, so one broken card cannot swallow
/// the ones after it.
pub fn split_records(text: &str) -> (r: Vec<Record>)
    requires
        text@.len() < usize::MAX,
    ensures
        r@.map_values(|x: Record| record_view(x)) == records(text@, 0, 1),
{
    let cs = chars_of(text);
    let n = cs.len();
    let mut out: Vec<Record> = Vec::new();
    let mut i: usize = 0;
    let mut line: usize = 1;
    while i < n
        invariant
            n == cs@.len() < usize::MAX,
            cs@ == text@,
            i <= n,
            1 <= line <= i + 1,
            out@.map_values(|x: Record| record_view(x)) + records(cs@, i as int, line as int) == records(
                cs@,
                0,
                1,
            ),
        decreases n - i,
    {
        let ghost before = out@.map_values(|x: Record| record_view(x));
        let c = cs[i];
        if c == '\n' {
            line += 1;
            i += 1;
        } else if c != '{' {
            i += 1;
        } else {
            let (t, ok, j, l) = scan_one(&cs, i, line);
            proof {
                lemma_scan_advances(cs@, i as int, line as int, seq![], 0, false, false);
            }
            out.push(Record { line, text: t, complete: ok });
            proof {
                let after = out@.map_values(|x: Record| record_view(x));
                assert(after =~= before.push((line as int, t@, ok)));
                assert(before.push((line as int, t@, ok)) + records(cs@, j as int, l as int) =~= before
                    + records(cs@, i as int, line as int));
            }
            i = j;
            line = l;
        }
    }
    proof {
        assert(out@.map_values(|x: Record| record_view(x)) + records(cs@, i as int, line as int)
            =~= out@.map_values(|x: Record| record_view(x)));
    }
    out
}

// ~~~ naming a broken card ~~~~~~~~~~~~~~~~~~~~~~~~~~~~~~~~~~~~~~~~~~~~~~~~~~~~

/// The first place at or after `from` where `pat` occurs.
pub open spec fn first_occurrence(s: Seq<char>, from: int, pat: Seq<char>) -> Option<int> {
    if exists|q: int| from <= q && #[trigger] occurs_at(s, q, pat) {
        Some(
            choose|q: int|
                from <= q && #[trigger] occurs_at(s, q, pat) && forall|r: int|
                    from <= r < q ==> !#[trigger] occurs_at(s, r, pat),
        )
    } else {
        None
    }
}

proof fn lemma_first_occurrence(s: Seq<char>, from: int, pat: Seq<char>, at: int)
    requires
        from <= at,
        occurs_at(s, at, pat),
        forall|r: int| from <= r < at ==> !#[trigger] occurs_at(s, r, pat),
    ensures
        first_occurrence(s, from, pat) == Some(at),
{
    let q = choose|q: int|
        from <= q && #[trigger] occurs_at(s, q, pat) && forall|r: int| from <= r < q ==> !#[trigger] occurs_at(s, r, pat);
    assert(from <= at && occurs_at(s, at, pat) && forall|r: int| from <= r < at ==> !#[trigger] occurs_at(s, r, pat));
    if q < at {
        assert(!occurs_at(s, q, pat));
    } else if q > at {
        assert(!occurs_at(s, at, pat));
    }
}

/// Reading a quoted text from index `k`, with `out` read so far and
/// whether the previous character was a backslash: the text up to the
/// closing quote, or, when the text ends or runs past 200 characters, what
/// was read if anything.
pub open spec fn read_quoted(cs: Seq<char>, k: int, out: Seq<char>, esc: bool) -> Option<Seq<char>>
    decreases cs.len() - k,
{
    if k < 0 || k >= cs.len() {
        if out.len() > 0 {
            Some(out)
        } else {
            None
        }
    } else {
        let c = cs[k];
        if !esc && c == '"' {
            Some(out)
        } else {
            let o = if !esc && c == '\\' {
                out
            } else {
                out.push(c)
            };
            if o.len() > 200 {
                Some(o)
            } else {
                read_quoted(cs, k + 1, o, !esc && c == '\\')
            }
        }
    }
}

/// The `"question": "..."` of a text that is not valid JSON, so an error
/// can say which card it is about.
pub open spec fn guessed_question(cs: Seq<char>) -> Option<Seq<char>> {
    match first_occurrence(cs, 0, "\"question\""@) {
        None => None,
        Some(q) => match first_occurrence(cs, q + 10, "\""@) {
            None => None,
            Some(o) => read_quoted(cs, o + 1, seq![], false),
        },
    }
}

fn read_quoted_from(cs: &Vec<char>, k: usize) -> (r: Option<String>)
    requires
        k <= cs@.len(),
    ensures
        match r {
            Some(t) => read_quoted(cs@, k as int, seq![], false) == Some(t@),
            None => read_quoted(cs@, k as int, seq![], false) is None,
        },
{
    let n = cs.len();
    let ghost target = read_quoted(cs@, k as int, seq![], false);
    let mut out = String::new();
    let mut count: usize = 0;
    let mut esc = false;
    let mut j = k;
    while j < n
        invariant
            n == cs@.len(),
            k <= j <= n,
            count == out@.len() <= 200,
            target == read_quoted(cs@, k as int, seq![], false),
            read_quoted(cs@, j as int, out@, esc) == target,
        decreases n - j,
    {
        let c = cs[j];
        if !esc && c == '"' {
            return Some(out);
        }
        if esc || c != '\\' {
            out.push(c);
            count += 1;
        }
        esc = !esc && c == '\\';
        if count > 200 {
            return Some(out);
        }
        j += 1;
    }
    if count > 0 {
        Some(out)
    } else {
        None
    }
}

/// Attempts to read the `"question": "..."` out of a text that is not
/// valid JSON, so the error can say which card it is.
pub fn guess_question(text: &str) -> (r: Option<String>)
    ensures
        match r {
            Some(t) => guessed_question(text@) == Some(t@),
            None => guessed_question(text@) is None,
        },
{
    let cs = chars_of(text);
    let n = cs.len();
    let key = chars_of("\"question\"");
    let quote = chars_of("\"");
    match find_from(&cs, 0, &key) {
        None => {
            proof {
                if exists|q: int| 0 <= q && #[trigger] occurs_at(cs@, q, key@) {
                    let q = choose|q: int| 0 <= q && #[trigger] occurs_at(cs@, q, key@);
                }
            }
            None
        },
        Some(q) => {
            proof {
                lemma_first_occurrence(cs@, 0, key@, q as int);
                reveal_strlit("\"question\"");
            }
            let at = q + 10;
            match find_from(&cs, at, &quote) {
                None => {
                    proof {
                        if exists|r: int| at <= r && #[trigger] occurs_at(cs@, r, quote@) {
                            let r = choose|r: int| at <= r && #[trigger] occurs_at(cs@, r, quote@);
                        }
                    }
                    None
                },
                Some(o) => {
                    proof {
                        lemma_first_occurrence(cs@, at as int, quote@, o as int);
                        reveal_strlit("\"");
                        assert(quote@.len() == 1);
                        assert(occurs_at(cs@, o as int, quote@));
                        assert(o + 1 <= cs@.len());
                    }
                    read_quoted_from(&cs, o + 1)
                },
            }
        },
    }
}

// ~~~ cleaning text ~~~~~~~~~~~~~~~~~~~~~~~~~~~~~~~~~~~~~~~~~~~~~~~~~~~~~~~~~~~~

/// `s` on one line, cut to `max` characters with an ellipsis.
pub open spec fn shortened(s: Seq<char>, max: nat) -> Seq<char> {
    let one = collapse_ws(s);
    if one.len() <= max {
        one
    } else {
        one.take(if max >= 1 {
            max - 1
        } else {
            0
        }) + seq!['…']
    }
}

/// `s` on one line (whitespace runs become single spaces), cut to `max`
/// characters with a trailing ellipsis when longer.
pub fn shorten(s: &str, max: usize) -> (r: String)
    ensures
        r@ == shortened(s@, max as nat),
{
    let one = collapse_whitespace(s);
    let cs = chars_of(one.as_str());
    if cs.len() <= max {
        return one;
    }
    let keep = if max >= 1 {
        max - 1
    } else {
        0
    };
    let mut out = String::new();
    let mut k: usize = 0;
    while k < keep
        invariant
            keep < cs@.len(),
            k <= keep,
            out@ == cs@.take(k as int),
        decreases keep - k,
    {
        out.push(cs[k]);
        k += 1;
        assert(out@ =~= cs@.take(k as int));
    }
    out.push('…');
    assert(out@ =~= shortened(s@, max as nat));
    out
}

/// What `clean_text` makes of a text: trimmed, and refused when empty or
/// too long (the message says which field, after the context).
pub open spec fn cleaned(raw: Seq<char>, what: Seq<char>, ctx: Seq<char>) -> Result<Seq<char>, Seq<char>> {
    let t = trim(raw);
    if t.len() == 0 {
        Err(ctx + what + " is empty"@)
    } else if t.len() > MAX_TEXT_LEN {
        Err(ctx + what + " is longer than "@ + decimal(MAX_TEXT_LEN as nat) + " characters"@)
    } else {
        Ok(t)
    }
}

/// Trims a text and refuses it when it is empty or longer than
/// `MAX_TEXT_LEN` characters.
pub fn clean_text(raw: &str, what: &str, ctx: &str) -> (r: Result<String, String>)
    ensures
        match r {
            Ok(t) => cleaned(raw@, what@, ctx@) == Ok::<Seq<char>, Seq<char>>(t@),
            Err(e) => cleaned(raw@, what@, ctx@) == Err::<Seq<char>, Seq<char>>(e@),
        },
{
    let v = chars_of(raw);
    let t = trim_chars(&v);
    if t.len() == 0 {
        let mut e = concat(ctx, what);
        push_all(&mut e, " is empty");
        assert(e@ =~= ctx@ + what@ + " is empty"@);
        return Err(e);
    }
    if t.len() > MAX_TEXT_LEN {
        let mut e = concat(ctx, what);
        push_all(&mut e, " is longer than ");
        push_decimal(&mut e, MAX_TEXT_LEN);
        push_all(&mut e, " characters");
        assert(e@ =~= ctx@ + what@ + " is longer than "@ + decimal(MAX_TEXT_LEN as nat) + " characters"@);
        return Err(e);
    }
    Ok(string_of(&t))
}

/// Splitting `s[i..]` on `::`, with `cur` the part read so far.
pub open spec fn split_from(s: Seq<char>, i: int, cur: Seq<char>) -> Seq<Seq<char>>
    decreases s.len() - i,
{
    if i < 0 || i >= s.len() {
        seq![cur]
    } else if i + 1 < s.len() && s[i] == ':' && s[i + 1] == ':' {
        seq![cur] + split_from(s, i + 2, seq![])
    } else {
        split_from(s, i + 1, cur.push(s[i]))
    }
}

/// The parts of a deck path (`str::split("::")`).
pub open spec fn deck_parts(s: Seq<char>) -> Seq<Seq<char>> {
    split_from(s, 0, seq![])
}

/// Parts joined with `::`.
pub open spec fn join_path(ps: Seq<Seq<char>>) -> Seq<char>
    decreases ps.len(),
{
    if ps.len() == 0 {
        seq![]
    } else if ps.len() == 1 {
        ps[0]
    } else {
        join_path(ps.drop_last()) + "::"@ + ps.last()
    }
}

/// What `clean_deck` makes of a deck path: every part trimmed, refused when
/// a part is empty.
pub open spec fn cleaned_deck(raw: Seq<char>) -> Result<Seq<char>, Seq<char>> {
    let parts = deck_parts(raw).map_values(|p: Seq<char>| trim(p));
    if exists|k: int| 0 <= k < parts.len() && #[trigger] parts[k].len() == 0 {
        Err("deck \""@ + raw + "\" has an empty part. Use names like \"Math\" or \"Math::Calculus\""@)
    } else {
        Ok(join_path(parts))
    }
}

fn deck_parts_exec(cs: &Vec<char>) -> (r: Vec<Vec<char>>)
    ensures
        r@.len() == deck_parts(cs@).len(),
        forall|k: int| 0 <= k < r@.len() ==> (#[trigger] r@[k])@ == deck_parts(cs@)[k],
{
    let n = cs.len();
    let mut out: Vec<Vec<char>> = Vec::new();
    let mut cur: Vec<char> = Vec::new();
    let mut i: usize = 0;
    while i < n
        invariant
            n == cs@.len(),
            i <= n,
            forall|k: int| 0 <= k < out@.len() ==> #[trigger] out@[k]@ == (out@.map_values(|v: Vec<char>| v@))[k],
            out@.map_values(|v: Vec<char>| v@) + split_from(cs@, i as int, cur@) == deck_parts(cs@),
        decreases n - i,
    {
        if i + 1 < n && cs[i] == ':' && cs[i + 1] == ':' {
            let ghost before = out@.map_values(|v: Vec<char>| v@);
            let part = cur;
            out.push(part);
            cur = Vec::new();
            proof {
                assert(out@.map_values(|v: Vec<char>| v@) =~= before.push(part@));
                assert(before.push(part@) + split_from(cs@, i + 2, seq![]) =~= before + split_from(
                    cs@,
                    i as int,
                    part@,
                ));
            }
            i += 2;
        } else {
            cur.push(cs[i]);
            i += 1;
        }
    }
    let ghost before = out@.map_values(|v: Vec<char>| v@);
    let last = cur;
    out.push(last);
    proof {
        assert(out@.map_values(|v: Vec<char>| v@) =~= before.push(last@));
        assert(before + split_from(cs@, i as int, last@) =~= before.push(last@));
        assert forall|k: int| 0 <= k < out@.len() implies (#[trigger] out@[k])@ == deck_parts(cs@)[k] by {
            assert(out@.map_values(|v: Vec<char>| v@)[k] == out@[k]@);
        }
    }
    out
}

/// Each part of a deck path trimmed; refused when a part is empty.
pub fn clean_deck(raw: &str) -> (r: Result<String, String>)
    ensures
        match r {
            Ok(t) => cleaned_deck(raw@) == Ok::<Seq<char>, Seq<char>>(t@),
            Err(e) => cleaned_deck(raw@) == Err::<Seq<char>, Seq<char>>(e@),
        },
{
    let cs = chars_of(raw);
    let parts = deck_parts_exec(&cs);
    let ghost trimmed_parts = deck_parts(raw@).map_values(|p: Seq<char>| trim(p));
    let mut out = String::new();
    let mut k: usize = 0;
    while k < parts.len()
        invariant
            cs@ == raw@,
            parts@.len() == deck_parts(cs@).len() == trimmed_parts.len(),
            trimmed_parts == deck_parts(raw@).map_values(|p: Seq<char>| trim(p)),
            forall|q: int| 0 <= q < parts@.len() ==> (#[trigger] parts@[q])@ == deck_parts(cs@)[q],
            k <= parts@.len(),
            forall|q: int| 0 <= q < k ==> #[trigger] trimmed_parts[q].len() > 0,
            out@ == join_path(trimmed_parts.take(k as int)),
        decreases parts@.len() - k,
    {
        let t = trim_chars(&parts[k]);
        assert(t@ == trimmed_parts[k as int]);
        if t.len() == 0 {
            let mut e = String::new();
            push_all(&mut e, "deck \"");
            push_all(&mut e, raw);
            push_all(&mut e, "\" has an empty part. Use names like \"Math\" or \"Math::Calculus\"");
            assert(e@ =~= "deck \""@ + raw@ + "\" has an empty part. Use names like \"Math\" or \"Math::Calculus\""@);
            return Err(e);
        }
        let ghost before = out@;
        if k > 0 {
            push_all(&mut out, "::");
        }
        let ts = string_of(&t);
        push_all(&mut out, ts.as_str());
        proof {
            let tk = trimmed_parts.take(k + 1);
            assert(tk.drop_last() =~= trimmed_parts.take(k as int));
            if k == 0 {
                assert(out@ =~= join_path(tk));
            } else {
                assert(out@ =~= join_path(tk));
            }
        }
        k += 1;
    }
    proof {
        assert(trimmed_parts.take(k as int) =~= trimmed_parts);
    }
    Ok(out)
}

/// Two cards are the same card if they are in the same deck and ask the
/// same question, ignoring case and spacing; this makes re-imports harmless.
pub fn dup_key(deck: &str, question: &str) -> (r: (String, String))
    ensures
        r.0@ == lowercase(trim(deck@)),
        r.1@ == lowercase(collapse_ws(question@)),
{
    let d = trimmed(deck);
    let q = collapse_whitespace(question);
    (to_lower(d.as_str()), to_lower(q.as_str()))
}

// ~~~ reporting ~~~~~~~~~~~~~~~~~~~~~~~~~~~~~~~~~~~~~~~~~~~~~~~~~~~~~~~~~~~~~~~~

/// A card that could not be imported.
#[derive(Debug, Clone, PartialEq, Eq)]
pub struct LineError {
    pub line: usize,
    /// the card's question, when it could be read, to make the message findable
    pub label: Option<String>,
    pub message: String,
}

impl LineError {
    pub open spec fn text_spec(&self) -> Seq<char> {
        match self.label {
            Some(q) => "line "@ + decimal(self.line as nat) + " (\""@ + shortened(q@, 40) + "\"): "@
                + self.message@,
            None => "line "@ + decimal(self.line as nat) + ": "@ + self.message@,
        }
    }

    /// The error as one line of text: where, which card, what.
    pub fn to_text(&self) -> (r: String)
        ensures
            r@ == self.text_spec(),
    {
        let mut r = String::new();
        push_all(&mut r, "line ");
        push_decimal(&mut r, self.line);
        match &self.label {
            Some(q) => {
                push_all(&mut r, " (\"");
                let sh = shorten(q.as_str(), 40);
                push_all(&mut r, sh.as_str());
                push_all(&mut r, "\"): ");
            },
            None => {
                push_all(&mut r, ": ");
            },
        }
        push_all(&mut r, self.message.as_str());
        assert(r@ =~= self.text_spec());
        r
    }
}

/// What an import did, for the user.
pub struct OutlineSummary {
    pub cards_imported: usize,
    pub simple_cards: usize,
    /// multi-step cards that are one straight chain
    pub chain_cards: usize,
    /// multi-step cards with at least one fork
    pub branching_cards: usize,
    pub steps_imported: usize,
    pub decks: usize,
    pub duplicates_skipped: usize,
    pub errors: Vec<LineError>,
}

/// The lines of `es` joined with line breaks.
pub open spec fn report_lines(es: Seq<LineError>) -> Seq<char>
    decreases es.len(),
{
    if es.len() == 0 {
        seq![]
    } else if es.len() == 1 {
        es[0].text_spec()
    } else {
        report_lines(es.drop_last()) + "\n"@ + es.last().text_spec()
    }
}

impl OutlineSummary {
    pub open spec fn headline_spec(&self) -> Seq<char> {
        if self.cards_imported == 0 {
            if self.duplicates_skipped > 0 && self.errors@.len() == 0 {
                "✓  nothing new: all "@ + decimal(self.duplicates_skipped as nat)
                    + " card(s) are already in your decks"@
            } else {
                "✗  no cards were imported"@
            }
        } else {
            "✓  "@ + decimal(self.cards_imported as nat) + " card(s) added to "@ + decimal(
                self.decks as nat,
            ) + " deck(s): "@ + decimal(self.simple_cards as nat) + " simple, "@ + decimal(
                self.chain_cards as nat,
            ) + " chain(s), "@ + decimal(self.branching_cards as nat) + " branching  ("@ + decimal(
                self.steps_imported as nat,
            ) + " steps)"@ + if self.duplicates_skipped > 0 {
                "  ·  "@ + decimal(self.duplicates_skipped as nat) + " duplicate(s) skipped"@
            } else {
                seq![]
            }
        }
    }

    /// One line for the status area; it starts with ✓ or ✗.
    pub fn headline(&self) -> (r: String)
        ensures
            r@ == self.headline_spec(),
    {
        let mut s = String::new();
        if self.cards_imported == 0 {
            if self.duplicates_skipped > 0 && self.errors.len() == 0 {
                push_all(&mut s, "✓  nothing new: all ");
                push_decimal(&mut s, self.duplicates_skipped);
                push_all(&mut s, " card(s) are already in your decks");
            } else {
                push_all(&mut s, "✗  no cards were imported");
            }
            assert(s@ =~= self.headline_spec());
            return s;
        }
        push_all(&mut s, "✓  ");
        push_decimal(&mut s, self.cards_imported);
        push_all(&mut s, " card(s) added to ");
        push_decimal(&mut s, self.decks);
        push_all(&mut s, " deck(s): ");
        push_decimal(&mut s, self.simple_cards);
        push_all(&mut s, " simple, ");
        push_decimal(&mut s, self.chain_cards);
        push_all(&mut s, " chain(s), ");
        push_decimal(&mut s, self.branching_cards);
        push_all(&mut s, " branching  (");
        push_decimal(&mut s, self.steps_imported);
        push_all(&mut s, " steps)");
        if self.duplicates_skipped > 0 {
            push_all(&mut s, "  ·  ");
            push_decimal(&mut s, self.duplicates_skipped);
            push_all(&mut s, " duplicate(s) skipped");
        }
        assert(s@ =~= self.headline_spec());
        s
    }

    /// Every problem, one per line, in a form that can be pasted back to an AI.
    pub fn error_report(&self) -> (r: String)
        ensures
            r@ == report_lines(self.errors@),
    {
        let mut s = String::new();
        let mut k: usize = 0;
        while k < self.errors.len()
            invariant
                k <= self.errors@.len(),
                s@ == report_lines(self.errors@.take(k as int)),
            decreases self.errors@.len() - k,
        {
            let ghost before = s@;
            if k > 0 {
                push_all(&mut s, "\n");
            }
            let line = self.errors[k].to_text();
            push_all(&mut s, line.as_str());
            proof {
                let t = self.errors@.take(k + 1);
                assert(t.drop_last() =~= self.errors@.take(k as int));
                assert(s@ =~= report_lines(t));
            }
            k += 1;
        }
        assert(self.errors@.take(k as int) =~= self.errors@);
        s
    }
}

// ~~~ the JSON value of one card ~~~~~~~~~~~~~~~~~~~~~~~~~~~~~~~~~~~~~~~~~~~~~~~

/// A JSON value as the card reader sees it: numbers keep their text, an
/// object keeps its entries in the order the parser gives them.
pub enum Json {
    Null,
    Bool(bool),
    Number(String),
    Str(String),
    Array(Vec<Json>),
    Object(Vec<(String, Json)>),
}

/// The value under `key` among the first `k` entries of an object.
pub open spec fn entry_upto(m: Seq<(String, Json)>, key: Seq<char>, k: int) -> Option<Json>
    decreases k,
{
    if k <= 0 {
        None
    } else {
        match entry_upto(m, key, k - 1) {
            Some(v) => Some(v),
            None => if m[k - 1].0@ == key {
                Some(m[k - 1].1)
            } else {
                None
            },
        }
    }
}

/// The value under `key` in an object.
pub open spec fn entry(m: Seq<(String, Json)>, key: Seq<char>) -> Option<Json> {
    entry_upto(m, key, m.len() as int)
}

/// The index of the entry under `key`.
fn find_entry(m: &Vec<(String, Json)>, key: &str) -> (r: Option<usize>)
    ensures
        match r {
            Some(i) => i < m@.len() && entry(m@, key@) == Some(m@[i as int].1),
            None => entry(m@, key@) is None,
        },
{
    let n = m.len();
    let mut i: usize = 0;
    while i < n
        invariant
            n == m@.len(),
            i <= n,
            entry_upto(m@, key@, i as int) is None,
        decreases n - i,
    {
        if same_text(m[i].0.as_str(), key) {
            proof {
                lemma_entry_stays(m@, key@, i + 1, n as int);
            }
            return Some(i);
        }
        i += 1;
    }
    None
}

proof fn lemma_entry_stays(m: Seq<(String, Json)>, key: Seq<char>, k: int, to: int)
    requires
        0 <= k <= to,
        entry_upto(m, key, k) is Some,
    ensures
        entry_upto(m, key, to) == entry_upto(m, key, k),
    decreases to - k,
{
    if to > k {
        lemma_entry_stays(m, key, k, to - 1);
    }
}

/// Whether the object has an entry under `key` (a `null` counts).
fn has_entry(m: &Vec<(String, Json)>, key: &str) -> (b: bool)
    ensures
        b == entry(m@, key@) is Some,
{
    find_entry(m, key).is_some()
}

/// The names of a list, each in double quotes, separated by commas.
pub open spec fn quoted_list(names: Seq<Seq<char>>) -> Seq<char>
    decreases names.len(),
{
    if names.len() == 0 {
        seq![]
    } else if names.len() == 1 {
        "\""@ + names[0] + "\""@
    } else {
        quoted_list(names.drop_last()) + ", \""@ + names.last() + "\""@
    }
}

/// The first key of the first `k` entries that is not allowed.
pub open spec fn stray_key(m: Seq<(String, Json)>, allowed: Seq<Seq<char>>, k: int) -> Option<Seq<char>>
    decreases k,
{
    if k <= 0 {
        None
    } else {
        match stray_key(m, allowed, k - 1) {
            Some(x) => Some(x),
            None => if allowed.contains(m[k - 1].0@) {
                None
            } else {
                Some(m[k - 1].0@)
            },
        }
    }
}

/// An object may only hold the allowed keys; the first other key is refused.
pub open spec fn keys_check(m: Seq<(String, Json)>, allowed: Seq<Seq<char>>, ctx: Seq<char>) -> Result<(), Seq<char>> {
    match stray_key(m, allowed, m.len() as int) {
        Some(k) => Err(ctx + "unknown field \""@ + k + "\" (allowed here: "@ + quoted_list(allowed) + ")"@),
        None => Ok(()),
    }
}

fn quoted_names(allowed: &[&str]) -> (r: String)
    ensures
        r@ == quoted_list(allowed@.map_values(|a: &str| a@)),
{
    let ghost names = allowed@.map_values(|a: &str| a@);
    let mut r = String::new();
    let mut k: usize = 0;
    while k < allowed.len()
        invariant
            names == allowed@.map_values(|a: &str| a@),
            k <= allowed@.len(),
            r@ == quoted_list(names.take(k as int)),
        decreases allowed@.len() - k,
    {
        if k > 0 {
            push_all(&mut r, ", \"");
        } else {
            push_all(&mut r, "\"");
        }
        push_all(&mut r, allowed[k]);
        push_all(&mut r, "\"");
        proof {
            assert(names[k as int] == allowed@[k as int]@);
            let t = names.take(k + 1);
            assert(t.drop_last() =~= names.take(k as int));
            assert(r@ =~= quoted_list(t));
        }
        k += 1;
    }
    assert(names.take(k as int) =~= names);
    r
}

fn is_allowed(allowed: &[&str], key: &str) -> (b: bool)
    ensures
        b == allowed@.map_values(|a: &str| a@).contains(key@),
{
    let ghost names = allowed@.map_values(|a: &str| a@);
    let mut k: usize = 0;
    while k < allowed.len()
        invariant
            names == allowed@.map_values(|a: &str| a@),
            k <= allowed@.len(),
            forall|q: int| 0 <= q < k ==> names[q] != key@,
        decreases allowed@.len() - k,
    {
        if same_text(allowed[k], key) {
            assert(names[k as int] == key@);
            return true;
        }
        k += 1;
    }
    false
}

/// Refuses the first key of the object that is not among `allowed`.
pub fn only_keys(m: &Vec<(String, Json)>, allowed: &[&str], ctx: &str) -> (r: Result<(), String>)
    ensures
        match r {
            Ok(()) => keys_check(m@, allowed@.map_values(|a: &str| a@), ctx@) is Ok,
            Err(e) => keys_check(m@, allowed@.map_values(|a: &str| a@), ctx@) == Err::<(), Seq<char>>(e@),
        },
{
    let ghost names = allowed@.map_values(|a: &str| a@);
    let n = m.len();
    let mut i: usize = 0;
    while i < n
        invariant
            n == m@.len(),
            i <= n,
            names == allowed@.map_values(|a: &str| a@),
            stray_key(m@, names, i as int) is None,
        decreases n - i,
    {
        if !is_allowed(allowed, m[i].0.as_str()) {
            proof {
                lemma_stray_stays(m@, names, i + 1, n as int);
            }
            let mut e = String::new();
            push_all(&mut e, ctx);
            push_all(&mut e, "unknown field \"");
            push_all(&mut e, m[i].0.as_str());
            push_all(&mut e, "\" (allowed here: ");
            let q = quoted_names(allowed);
            push_all(&mut e, q.as_str());
            push_all(&mut e, ")");
            assert(e@ =~= ctx@ + "unknown field \""@ + m@[i as int].0@ + "\" (allowed here: "@ + quoted_list(names) + ")"@);
            return Err(e);
        }
        i += 1;
    }
    Ok(())
}

proof fn lemma_stray_stays(m: Seq<(String, Json)>, allowed: Seq<Seq<char>>, k: int, to: int)
    requires
        0 <= k <= to,
        stray_key(m, allowed, k) is Some,
    ensures
        stray_key(m, allowed, to) == stray_key(m, allowed, k),
    decreases to - k,
{
    if to > k {
        lemma_stray_stays(m, allowed, k, to - 1);
    }
}

/// `"key"`, quoted.
pub open spec fn quoted(key: Seq<char>) -> Seq<char> {
    "\""@ + key + "\""@
}

/// A text that must be there.
pub open spec fn required_spec(m: Seq<(String, Json)>, key: Seq<char>, ctx: Seq<char>) -> Result<Seq<char>, Seq<char>> {
    match entry(m, key) {
        None => Err(ctx + "missing "@ + quoted(key)),
        Some(Json::Str(s)) => cleaned(s@, quoted(key), ctx),
        Some(_) => Err(ctx + quoted(key) + " must be text"@),
    }
}

/// A text that may be left out (absent, `null` or blank).
pub open spec fn optional_spec(m: Seq<(String, Json)>, key: Seq<char>, ctx: Seq<char>) -> Result<Option<Seq<char>>, Seq<char>> {
    match entry(m, key) {
        None => Ok(None),
        Some(Json::Null) => Ok(None),
        Some(Json::Str(s)) => if is_blank(s@) {
            Ok(None)
        } else {
            match cleaned(s@, quoted(key), ctx) {
                Ok(t) => Ok(Some(t)),
                Err(e) => Err(e),
            }
        },
        Some(_) => Err(ctx + quoted(key) + " must be text"@),
    }
}

fn quoted_key(key: &str) -> (r: String)
    ensures
        r@ == quoted(key@),
{
    let mut r = String::new();
    push_all(&mut r, "\"");
    push_all(&mut r, key);
    push_all(&mut r, "\"");
    assert(r@ =~= quoted(key@));
    r
}

fn must_be_text(key: &str, ctx: &str) -> (e: String)
    ensures
        e@ == ctx@ + quoted(key@) + " must be text"@,
{
    let mut e = String::new();
    push_all(&mut e, ctx);
    let q = quoted_key(key);
    push_all(&mut e, q.as_str());
    push_all(&mut e, " must be text");
    assert(e@ =~= ctx@ + quoted(key@) + " must be text"@);
    e
}

/// Reads a text that must be there, trimmed and checked.
pub fn required_text(m: &Vec<(String, Json)>, key: &str, ctx: &str) -> (r: Result<String, String>)
    ensures
        match r {
            Ok(t) => required_spec(m@, key@, ctx@) == Ok::<Seq<char>, Seq<char>>(t@),
            Err(e) => required_spec(m@, key@, ctx@) == Err::<Seq<char>, Seq<char>>(e@),
        },
{
    match find_entry(m, key) {
        None => {
            let mut e = String::new();
            push_all(&mut e, ctx);
            push_all(&mut e, "missing ");
            let q = quoted_key(key);
            push_all(&mut e, q.as_str());
            assert(e@ =~= ctx@ + "missing "@ + quoted(key@));
            Err(e)
        },
        Some(i) => match &m[i].1 {
            Json::Str(s) => {
                let q = quoted_key(key);
                clean_text(s.as_str(), q.as_str(), ctx)
            },
            _ => Err(must_be_text(key, ctx)),
        },
    }
}

/// Reads a text that may be left out: absent, `null` or blank is `None`.
pub fn optional_text(m: &Vec<(String, Json)>, key: &str, ctx: &str) -> (r: Result<Option<String>, String>)
    ensures
        match r {
            Ok(Some(t)) => optional_spec(m@, key@, ctx@) == Ok::<Option<Seq<char>>, Seq<char>>(Some(t@)),
            Ok(None) => optional_spec(m@, key@, ctx@) == Ok::<Option<Seq<char>>, Seq<char>>(None),
            Err(e) => optional_spec(m@, key@, ctx@) == Err::<Option<Seq<char>>, Seq<char>>(e@),
        },
{
    match find_entry(m, key) {
        None => Ok(None),
        Some(i) => match &m[i].1 {
            Json::Null => Ok(None),
            Json::Str(s) => {
                if blank(s.as_str()) {
                    Ok(None)
                } else {
                    let q = quoted_key(key);
                    match clean_text(s.as_str(), q.as_str(), ctx) {
                        Ok(t) => Ok(Some(t)),
                        Err(e) => Err(e),
                    }
                }
            },
            _ => Err(must_be_text(key, ctx)),
        },
    }
}

/// The message for tags that are not a list of text.
pub open spec fn tags_message() -> Seq<char> {
    "\"tags\" must be a list of text"@
}

/// Reading the tags from the first `k` elements: each trimmed and
/// lower-cased, blanks and repeats dropped.
pub open spec fn tags_upto(arr: Seq<Json>, k: int) -> Result<Seq<Seq<char>>, Seq<char>>
    decreases k,
{
    if k <= 0 {
        Ok(seq![])
    } else {
        match tags_upto(arr, k - 1) {
            Err(e) => Err(e),
            Ok(out) => match arr[k - 1] {
                Json::Str(t) => {
                    let s = lowercase(trim(t@));
                    if s.len() > 0 && !out.contains(s) {
                        Ok(out.push(s))
                    } else {
                        Ok(out)
                    }
                },
                _ => Err(tags_message()),
            },
        }
    }
}

/// What `clean_tags` makes of the `tags` entry.
pub open spec fn tags_spec(v: Option<Json>) -> Result<Seq<Seq<char>>, Seq<char>> {
    match v {
        None => Ok(seq![]),
        Some(Json::Array(arr)) => tags_upto(arr@, arr@.len() as int),
        Some(_) => Err(tags_message()),
    }
}

fn contains_text(v: &Vec<String>, s: &str) -> (b: bool)
    ensures
        b == v@.map_values(|x: String| x@).contains(s@),
{
    let ghost names = v@.map_values(|x: String| x@);
    let mut k: usize = 0;
    while k < v.len()
        invariant
            names == v@.map_values(|x: String| x@),
            k <= v@.len(),
            forall|q: int| 0 <= q < k ==> names[q] != s@,
        decreases v@.len() - k,
    {
        if same_text(v[k].as_str(), s) {
            assert(names[k as int] == s@);
            return true;
        }
        k += 1;
    }
    false
}

fn tags_from(arr: &Vec<Json>) -> (r: Result<Vec<String>, String>)
    ensures
        match r {
            Ok(t) => tags_upto(arr@, arr@.len() as int) == Ok::<Seq<Seq<char>>, Seq<char>>(
                t@.map_values(|x: String| x@),
            ),
            Err(e) => tags_upto(arr@, arr@.len() as int) == Err::<Seq<Seq<char>>, Seq<char>>(e@),
        },
{
    let mut out: Vec<String> = Vec::new();
    assert(out@.map_values(|x: String| x@) =~= Seq::<Seq<char>>::empty());
    let mut k: usize = 0;
    while k < arr.len()
        invariant
            k <= arr@.len(),
            tags_upto(arr@, k as int) == Ok::<Seq<Seq<char>>, Seq<char>>(out@.map_values(|x: String| x@)),
        decreases arr@.len() - k,
    {
        match &arr[k] {
            Json::Str(t) => {
                let tt = trimmed(t.as_str());
                let s = to_lower(tt.as_str());
                let ghost before = out@.map_values(|x: String| x@);
                if !s.as_str().is_empty() && !contains_text(&out, s.as_str()) {
                    out.push(s);
                    assert(out@.map_values(|x: String| x@) =~= before.push(lowercase(trim(t@))));
                }
            },
            _ => {
                proof {
                    lemma_tags_err_stays(arr@, k + 1, arr@.len() as int);
                }
                let mut e = String::new();
                push_all(&mut e, "\"tags\" must be a list of text");
                return Err(e);
            },
        }
        k += 1;
    }
    Ok(out)
}

/// Reads the tags: a list of text, each trimmed and lower-cased, blanks and
/// repeats dropped.
pub fn clean_tags(v: Option<&Json>) -> (r: Result<Vec<String>, String>)
    ensures
        match r {
            Ok(t) => tags_spec(match v {
                Some(j) => Some(*j),
                None => None,
            }) == Ok::<Seq<Seq<char>>, Seq<char>>(t@.map_values(|x: String| x@)),
            Err(e) => tags_spec(match v {
                Some(j) => Some(*j),
                None => None,
            }) == Err::<Seq<Seq<char>>, Seq<char>>(e@),
        },
{
    match v {
        None => {
            let out: Vec<String> = Vec::new();
            assert(out@.map_values(|x: String| x@) =~= Seq::<Seq<char>>::empty());
            Ok(out)
        },
        Some(Json::Array(arr)) => tags_from(arr),
        Some(_) => {
            let mut e = String::new();
            push_all(&mut e, "\"tags\" must be a list of text");
            Err(e)
        },
    }
}

proof fn lemma_tags_err_stays(arr: Seq<Json>, k: int, to: int)
    requires
        0 <= k <= to,
        tags_upto(arr, k) is Err,
    ensures
        tags_upto(arr, to) == tags_upto(arr, k),
    decreases to - k,
{
    if to > k {
        lemma_tags_err_stays(arr, k, to - 1);
    }
}

// ~~~ building the steps of a card ~~~~~~~~~~~~~~~~~~~~~~~~~~~~~~~~~~~~~~~~~~~~~~

/// How much there is in a JSON value; a part is always smaller than the whole.
pub open spec fn json_size(j: Json) -> nat
    decreases j,
{
    match j {
        Json::Array(v) => 1 + seq_size(v@),
        Json::Object(m) => 1 + entries_size(m@),
        _ => 1,
    }
}

pub open spec fn seq_size(s: Seq<Json>) -> nat
    decreases s,
{
    if s.len() == 0 {
        0
    } else {
        seq_size(s.drop_last()) + json_size(s.last())
    }
}

pub open spec fn entries_size(m: Seq<(String, Json)>) -> nat
    decreases m,
{
    if m.len() == 0 {
        0
    } else {
        entries_size(m.drop_last()) + json_size(m.last().1)
    }
}

/// An element of a list is no larger than the list.
pub proof fn lemma_elem_size(s: Seq<Json>, k: int)
    requires
        0 <= k < s.len(),
    ensures
        json_size(s[k]) <= seq_size(s),
    decreases s.len(),
{
    if k < s.len() - 1 {
        lemma_elem_size(s.drop_last(), k);
        assert(s.drop_last()[k] == s[k]);
    }
}

/// The value found under a key is no larger than the object.
pub proof fn lemma_entry_size(m: Seq<(String, Json)>, key: Seq<char>, k: int)
    requires
        0 <= k <= m.len(),
        entry_upto(m, key, k) is Some,
    ensures
        json_size(entry_upto(m, key, k)->0) <= entries_size(m),
    decreases m.len(), k,
{
    if m.len() > 0 {
        if k == m.len() && entry_upto(m, key, k - 1) is None {
        } else {
            let j = if k == m.len() {
                k - 1
            } else {
                k
            };
            assert(entry_upto(m, key, j) == entry_upto(m, key, k)) by {
                if k == m.len() {
                }
            }
            lemma_entry_upto_prefix(m, key, j);
            lemma_entry_size(m.drop_last(), key, j);
        }
    }
}

proof fn lemma_entry_upto_prefix(m: Seq<(String, Json)>, key: Seq<char>, k: int)
    requires
        0 <= k < m.len(),
    ensures
        entry_upto(m.drop_last(), key, k) == entry_upto(m, key, k),
    decreases k,
{
    if k > 0 {
        lemma_entry_upto_prefix(m, key, k - 1);
    }
}

/// A draft as plain values: key, parent, name and answer.
pub open spec fn draft_view(d: StepDraft) -> (u32, Option<u32>, Seq<char>, Seq<char>) {
    (d.key, d.parent, d.name@, d.answer@)
}

/// The message for a card with too many steps.
pub open spec fn too_many_steps() -> Seq<char> {
    "more than 100 steps in one card: split it into several cards"@
}

/// Appending a step: its key is its index; a card may not have more than
/// `MAX_STEPS_PER_CARD` steps.
pub open spec fn push_spec(
    ds: Seq<(u32, Option<u32>, Seq<char>, Seq<char>)>,
    parent: Option<u32>,
    name: Seq<char>,
    answer: Seq<char>,
) -> Result<Seq<(u32, Option<u32>, Seq<char>, Seq<char>)>, Seq<char>> {
    if ds.len() >= MAX_STEPS_PER_CARD {
        Err(too_many_steps())
    } else {
        Ok(ds.push((ds.len() as u32, parent, name, answer)))
    }
}

/// The keys a step object may have.
pub open spec fn step_keys() -> Seq<Seq<char>> {
    seq!["name"@, "answer"@, "branches"@]
}

/// The keys a branch or path object may have.
pub open spec fn branch_keys() -> Seq<Seq<char>> {
    seq!["name"@, "steps"@]
}

/// The parts of one step: its own name, its answer and its branches.
pub open spec fn step_parts(s: Json, sctx: Seq<char>) -> Result<(Seq<char>, Seq<char>, Option<Json>), Seq<char>> {
    match s {
        Json::Str(t) => match cleaned(t@, "the step"@, sctx) {
            Ok(a) => Ok((seq![], a, None)),
            Err(e) => Err(e),
        },
        Json::Object(m) => match keys_check(m@, step_keys(), sctx) {
            Err(e) => Err(e),
            Ok(_) => match optional_spec(m@, "name"@, sctx) {
                Err(e) => Err(e),
                Ok(n) => match required_spec(m@, "answer"@, sctx) {
                    Err(e) => Err(e),
                    Ok(a) => Ok(
                        (
                            match n {
                                Some(x) => x,
                                None => seq![],
                            },
                            a,
                            entry(m@, "branches"@),
                        ),
                    ),
                },
            },
        },
        _ => Err(sctx + "a step must be text, or an object with an \"answer\""@),
    }
}

/// The context of step `i` of a list.
pub open spec fn step_ctx(ctx: Seq<char>, i: nat) -> Seq<char> {
    ctx + "steps["@ + decimal(i) + "]: "@
}

/// The context of alternative `j` of a list called `label`.
pub open spec fn alt_ctx(ctx: Seq<char>, label: Seq<char>, j: nat) -> Seq<char> {
    ctx + label + "["@ + decimal(j) + "]: "@
}

/// The message for branches that are not on the last step.
pub open spec fn branches_not_last() -> Seq<char> {
    "\"branches\" must be on the LAST step of a list. The steps after it can't belong to any branch, so move them into one of the branches"@
}

/// The message for an unnamed alternative.
pub open spec fn needs_name() -> Seq<char> {
    "needs a \"name\". Alternatives under the same step must each be named (like \"SSD\" / \"HDD\") so they can be told apart in review"@
}

/// A `steps` list: each step follows the one before it, pushed in
/// depth-first order (a step, then everything below it). `first_name`
/// names the first step (a branch's name).
pub open spec fn chain_spec(
    ds: Seq<(u32, Option<u32>, Seq<char>, Seq<char>)>,
    steps: Json,
    parent: Option<u32>,
    first_name: Option<Seq<char>>,
    ctx: Seq<char>,
) -> Result<Seq<(u32, Option<u32>, Seq<char>, Seq<char>)>, Seq<char>>
    decreases json_size(steps), 0int,
{
    match steps {
        Json::Array(arr) => if arr@.len() == 0 {
            Err(ctx + "\"steps\" is empty"@)
        } else {
            chain_from(ds, arr@, 0, parent, first_name, ctx)
        },
        _ => Err(ctx + "\"steps\" must be a list"@),
    }
}

/// The steps of a list from index `i` on, hanging under `parent`.
pub open spec fn chain_from(
    ds: Seq<(u32, Option<u32>, Seq<char>, Seq<char>)>,
    arr: Seq<Json>,
    i: int,
    parent: Option<u32>,
    first_name: Option<Seq<char>>,
    ctx: Seq<char>,
) -> Result<Seq<(u32, Option<u32>, Seq<char>, Seq<char>)>, Seq<char>>
    decreases seq_size(arr), arr.len() - i,
{
    if i < 0 || i >= arr.len() {
        Ok(ds)
    } else {
        let sctx = step_ctx(ctx, i as nat);
        match step_parts(arr[i], sctx) {
            Err(e) => Err(e),
            Ok(parts) => {
                let name = match first_name {
                    Some(n) => if i == 0 && !is_blank(n) {
                        trim(n)
                    } else {
                        parts.0
                    },
                    None => parts.0,
                };
                match push_spec(ds, parent, name, parts.1) {
                    Err(e) => Err(e),
                    Ok(ds2) => {
                        let key = ds.len() as u32;
                        match parts.2 {
                            None => chain_from(ds2, arr, i + 1, Some(key), first_name, ctx),
                            Some(b) => if i + 1 != arr.len() {
                                Err(sctx + branches_not_last())
                            } else {
                                match b {
                                    Json::Array(list) => if list@.len() == 0 {
                                        Err(sctx + "\"branches\" is empty"@)
                                    } else {
                                        proof {
                                            lemma_branches_smaller(arr, i, sctx);
                                        }
                                        match fork_from(ds2, list@, 0, Some(key), "branches"@, sctx, seq![]) {
                                            Err(e) => Err(e),
                                            Ok(ds3) => chain_from(ds3, arr, i + 1, Some(key), first_name, ctx),
                                        }
                                    },
                                    _ => Err(sctx + "\"branches\" must be a list"@),
                                }
                            },
                        }
                    },
                }
            },
        }
    }
}

/// The name a branch is known by: its own, else its first step's.
pub open spec fn effective_name(name: Option<Seq<char>>, steps: Json) -> Option<Seq<char>> {
    match name {
        Some(n) => Some(n),
        None => match steps {
            Json::Array(a) => if a@.len() > 0 {
                match a@[0] {
                    Json::Object(m) => match entry(m@, "name"@) {
                        Some(Json::Str(n)) => if trim(n@).len() > 0 {
                            Some(trim(n@))
                        } else {
                            None
                        },
                        _ => None,
                    },
                    _ => None,
                }
            } else {
                None
            },
            _ => None,
        },
    }
}

/// Several alternatives under one parent (`None`: the question itself),
/// from index `j` on; `seen` holds the lower-cased names taken so far.
pub open spec fn fork_from(
    ds: Seq<(u32, Option<u32>, Seq<char>, Seq<char>)>,
    list: Seq<Json>,
    j: int,
    parent: Option<u32>,
    label: Seq<char>,
    ctx: Seq<char>,
    seen: Seq<Seq<char>>,
) -> Result<Seq<(u32, Option<u32>, Seq<char>, Seq<char>)>, Seq<char>>
    decreases seq_size(list), list.len() - j,
{
    if j < 0 || j >= list.len() {
        Ok(ds)
    } else {
        let bctx = alt_ctx(ctx, label, j as nat);
        match list[j] {
            Json::Object(m) => match keys_check(m@, branch_keys(), bctx) {
                Err(e) => Err(e),
                Ok(_) => match entry(m@, "steps"@) {
                    None => Err(bctx + "missing \"steps\""@),
                    Some(steps) => match optional_spec(m@, "name"@, bctx) {
                        Err(e) => Err(e),
                        Ok(name) => {
                            let naming: Result<Seq<Seq<char>>, Seq<char>> = if list.len() > 1 {
                                match effective_name(name, steps) {
                                    None => Err(bctx + needs_name()),
                                    Some(eff) => if seen.contains(lowercase(eff)) {
                                        Err(bctx + "another alternative is already named \""@ + eff + "\""@)
                                    } else {
                                        Ok(seen.push(lowercase(eff)))
                                    },
                                }
                            } else {
                                Ok(seen)
                            };
                            match naming {
                                Err(e) => Err(e),
                                Ok(seen2) => {
                                    proof {
                                        lemma_steps_smaller(list, j);
                                    }
                                    match chain_spec(ds, steps, parent, name, bctx) {
                                        Err(e) => Err(e),
                                        Ok(ds2) => fork_from(ds2, list, j + 1, parent, label, ctx, seen2),
                                    }
                                },
                            }
                        },
                    },
                },
            },
            _ => Err(bctx + "expected an object { ... }"@),
        }
    }
}

/// A step's branch list is smaller than the list that holds the step.
pub proof fn lemma_branches_smaller(arr: Seq<Json>, i: int, sctx: Seq<char>)
    requires
        0 <= i < arr.len(),
        step_parts(arr[i], sctx) matches Ok(parts) && parts.2 matches Some(Json::Array(list)),
    ensures
        step_parts(arr[i], sctx) matches Ok(parts) && parts.2 matches Some(Json::Array(list)) && seq_size(
            list@,
        ) < seq_size(arr),
{
    lemma_elem_size(arr, i);
    match arr[i] {
        Json::Object(m) => {
            lemma_entry_size(m@, "branches"@, m@.len() as int);
        },
        _ => {},
    }
}

/// A branch's step list is smaller than the list that holds the branch.
pub proof fn lemma_steps_smaller(list: Seq<Json>, j: int)
    requires
        0 <= j < list.len(),
        list[j] matches Json::Object(m) && entry(m@, "steps"@) is Some,
    ensures
        list[j] matches Json::Object(m) && entry(m@, "steps"@) matches Some(steps) && json_size(steps) < seq_size(
            list,
        ),
{
    lemma_elem_size(list, j);
    match list[j] {
        Json::Object(m) => {
            lemma_entry_size(m@, "steps"@, m@.len() as int);
        },
        _ => {},
    }
}

/// An optional borrowed text as plain characters.
pub open spec fn opt_text(o: Option<&str>) -> Option<Seq<char>> {
    match o {
        Some(n) => Some(n@),
        None => None,
    }
}

/// Collects the steps of one card, in depth-first order.
pub struct Builder {
    pub drafts: Vec<StepDraft>,
}

fn err_with(ctx: &str, msg: &str) -> (e: String)
    ensures
        e@ == ctx@ + msg@,
{
    let e = concat(ctx, msg);
    e
}

fn step_ctx_text(ctx: &str, i: usize) -> (r: String)
    ensures
        r@ == step_ctx(ctx@, i as nat),
{
    let mut r = String::new();
    push_all(&mut r, ctx);
    push_all(&mut r, "steps[");
    push_decimal(&mut r, i);
    push_all(&mut r, "]: ");
    assert(r@ =~= step_ctx(ctx@, i as nat));
    r
}

fn alt_ctx_text(ctx: &str, label: &str, j: usize) -> (r: String)
    ensures
        r@ == alt_ctx(ctx@, label@, j as nat),
{
    let mut r = String::new();
    push_all(&mut r, ctx);
    push_all(&mut r, label);
    push_all(&mut r, "[");
    push_decimal(&mut r, j);
    push_all(&mut r, "]: ");
    assert(r@ =~= alt_ctx(ctx@, label@, j as nat));
    r
}

fn step_key_list() -> (r: Vec<&'static str>)
    ensures
        r@.map_values(|a: &str| a@) == step_keys(),
{
    let r = vec!["name", "answer", "branches"];
    assert(r@.map_values(|a: &str| a@) =~= step_keys());
    r
}

fn branch_key_list() -> (r: Vec<&'static str>)
    ensures
        r@.map_values(|a: &str| a@) == branch_keys(),
{
    let r = vec!["name", "steps"];
    assert(r@.map_values(|a: &str| a@) =~= branch_keys());
    r
}

/// The parts of one step: its own name, its answer and its branches.
fn read_step<'a>(s: &'a Json, sctx: &str) -> (r: Result<(String, String, Option<&'a Json>), String>)
    ensures
        match r {
            Ok(parts) => step_parts(*s, sctx@) == Ok::<(Seq<char>, Seq<char>, Option<Json>), Seq<char>>(
                (
                    parts.0@,
                    parts.1@,
                    match parts.2 {
                        Some(b) => Some(*b),
                        None => None,
                    },
                ),
            ),
            Err(e) => step_parts(*s, sctx@) == Err::<(Seq<char>, Seq<char>, Option<Json>), Seq<char>>(e@),
        },
{
    match s {
        Json::Str(t) => match clean_text(t.as_str(), "the step", sctx) {
            Ok(a) => {
                let own = String::new();
                Ok((own, a, None))
            },
            Err(e) => Err(e),
        },
        Json::Object(m) => {
            let keys = step_key_list();
            match only_keys(m, keys.as_slice(), sctx) {
                Err(e) => {
                    return Err(e);
                },
                Ok(()) => {},
            }
            let own = match optional_text(m, "name", sctx) {
                Err(e) => {
                    return Err(e);
                },
                Ok(Some(n)) => n,
                Ok(None) => String::new(),
            };
            let answer = match required_text(m, "answer", sctx) {
                Err(e) => {
                    return Err(e);
                },
                Ok(a) => a,
            };
            let branches = match find_entry(m, "branches") {
                Some(k) => Some(&m[k].1),
                None => None,
            };
            Ok((own, answer, branches))
        },
        _ => Err(err_with(sctx, "a step must be text, or an object with an \"answer\"")),
    }
}

/// The name a branch is known by: its own, else its first step's.
fn branch_name(name: &Option<String>, steps: &Json) -> (r: Option<String>)
    ensures
        match r {
            Some(n) => effective_name(
                match name {
                    Some(x) => Some(x@),
                    None => None,
                },
                *steps,
            ) == Some(n@),
            None => effective_name(
                match name {
                    Some(x) => Some(x@),
                    None => None,
                },
                *steps,
            ) is None,
        },
{
    match name {
        Some(n) => Some(n.clone()),
        None => match steps {
            Json::Array(a) => {
                if a.len() > 0 {
                    match &a[0] {
                        Json::Object(m) => match find_entry(m, "name") {
                            Some(k) => match &m[k].1 {
                                Json::Str(n) => {
                                    let t = trimmed(n.as_str());
                                    if t.as_str().is_empty() {
                                        None
                                    } else {
                                        Some(t)
                                    }
                                },
                                _ => None,
                            },
                            None => None,
                        },
                        _ => None,
                    }
                } else {
                    None
                }
            },
            _ => None,
        },
    }
}

impl Builder {
    /// The steps collected so far, as plain values.
    pub open spec fn steps_view(&self) -> Seq<(u32, Option<u32>, Seq<char>, Seq<char>)> {
        self.drafts@.map_values(|d: StepDraft| draft_view(d))
    }

    /// No collected step is tied to a stored item or carries an image.
    pub open spec fn fresh_steps(&self) -> bool {
        forall|k: int|
            0 <= k < self.drafts@.len() ==> (#[trigger] self.drafts@[k]).db_id is None
                && self.drafts@[k].image is None
    }

    /// Appends a step under `parent` and returns its key (its index); a card
    /// may not have more than `MAX_STEPS_PER_CARD` steps.
    pub fn push(&mut self, parent: Option<u32>, name: String, answer: String) -> (r: Result<u32, String>)
        requires
            old(self).fresh_steps(),
        ensures
            final(self).fresh_steps(),
            match r {
                Ok(k) => push_spec(old(self).steps_view(), parent, name@, answer@) == Ok::<
                    Seq<(u32, Option<u32>, Seq<char>, Seq<char>)>,
                    Seq<char>,
                >(final(self).steps_view()) && k == old(self).drafts@.len(),
                Err(e) => push_spec(old(self).steps_view(), parent, name@, answer@) == Err::<
                    Seq<(u32, Option<u32>, Seq<char>, Seq<char>)>,
                    Seq<char>,
                >(e@) && final(self).drafts@ == old(self).drafts@,
            },
    {
        if self.drafts.len() >= MAX_STEPS_PER_CARD {
            let mut e = String::new();
            push_all(&mut e, "more than ");
            push_decimal(&mut e, MAX_STEPS_PER_CARD);
            push_all(&mut e, " steps in one card: split it into several cards");
            proof {
                reveal_strlit("more than ");
                reveal_strlit(" steps in one card: split it into several cards");
                reveal_strlit("more than 100 steps in one card: split it into several cards");
                assert(decimal(100) =~= seq!['1', '0', '0']) by {
                    assert(decimal(1) == seq!['1']);
                    assert(decimal(10) =~= seq!['1', '0']);
                }
                assert(e@ =~= too_many_steps());
            }
            return Err(e);
        }
        let key = self.drafts.len() as u32;
        let ghost before = self.steps_view();
        self.drafts.push(StepDraft { key, db_id: None, parent, name, answer, image: None });
        proof {
            assert(self.steps_view() =~= before.push((key, parent, name@, answer@)));
        }
        Ok(key)
    }

    /// A `steps` list: each step follows the one before it, pushed in
    /// depth-first order. `first_name` names the first step (a branch's
    /// name).
    pub fn chain(&mut self, steps: &Json, parent: Option<u32>, first_name: Option<&str>, ctx: &str) -> (r: Result<(), String>)
        requires
            old(self).fresh_steps(),
        ensures
            final(self).fresh_steps(),
            match r {
                Ok(()) => chain_spec(old(self).steps_view(), *steps, parent, opt_text(first_name), ctx@) == Ok::<
                    Seq<(u32, Option<u32>, Seq<char>, Seq<char>)>,
                    Seq<char>,
                >(final(self).steps_view()),
                Err(e) => chain_spec(old(self).steps_view(), *steps, parent, opt_text(first_name), ctx@)
                    == Err::<Seq<(u32, Option<u32>, Seq<char>, Seq<char>)>, Seq<char>>(e@),
            },
        decreases json_size(*steps), 0int,
    {
        match steps {
            Json::Array(arr) => {
                if arr.len() == 0 {
                    return Err(err_with(ctx, "\"steps\" is empty"));
                }
                let ghost target = chain_spec(old(self).steps_view(), *steps, parent, opt_text(first_name), ctx@);
                let mut above = parent;
                let mut i: usize = 0;
                while i < arr.len()
                    invariant
                        *steps == Json::Array(*arr),
                        arr@.len() > 0,
                        target == chain_spec(old(self).steps_view(), *steps, parent, opt_text(first_name), ctx@),
                        i <= arr@.len(),
                        self.fresh_steps(),
                        chain_from(self.steps_view(), arr@, i as int, above, opt_text(first_name), ctx@) == target,
                    decreases arr@.len() - i,
                {
                    let sctx = step_ctx_text(ctx, i);
                    let (own, answer, branches) = match read_step(&arr[i], sctx.as_str()) {
                        Err(e) => {
                            return Err(e);
                        },
                        Ok(parts) => parts,
                    };
                    let name = match first_name {
                        Some(n) => {
                            if i == 0 && !blank(n) {
                                trimmed(n)
                            } else {
                                own
                            }
                        },
                        None => own,
                    };
                    let key = match self.push(above, name, answer) {
                        Err(e) => {
                            return Err(e);
                        },
                        Ok(k) => k,
                    };
                    above = Some(key);
                    match branches {
                        None => {},
                        Some(b) => {
                            if i + 1 != arr.len() {
                                let mut e = sctx;
                                push_all(
                                    &mut e,
                                    "\"branches\" must be on the LAST step of a list. The steps after it can't belong to any branch, so move them into one of the branches",
                                );
                                return Err(e);
                            }
                            match b {
                                Json::Array(list) => {
                                    if list.len() == 0 {
                                        return Err(err_with(sctx.as_str(), "\"branches\" is empty"));
                                    }
                                    proof {
                                        lemma_branches_smaller(arr@, i as int, sctx@);
                                    }
                                    match self.fork(list, Some(key), "branches", sctx.as_str()) {
                                        Err(e) => {
                                            return Err(e);
                                        },
                                        Ok(()) => {},
                                    }
                                },
                                _ => {
                                    return Err(err_with(sctx.as_str(), "\"branches\" must be a list"));
                                },
                            }
                        },
                    }
                    i += 1;
                }
                Ok(())
            },
            _ => Err(err_with(ctx, "\"steps\" must be a list")),
        }
    }

    /// Several alternatives under one parent (`None`: the question itself).
    /// With more than one, each needs a name (its own or its first step's),
    /// and no two may share a name, ignoring case.
    pub fn fork(&mut self, list: &Vec<Json>, parent: Option<u32>, label: &str, ctx: &str) -> (r: Result<(), String>)
        requires
            old(self).fresh_steps(),
        ensures
            final(self).fresh_steps(),
            match r {
                Ok(()) => fork_from(old(self).steps_view(), list@, 0, parent, label@, ctx@, seq![]) == Ok::<
                    Seq<(u32, Option<u32>, Seq<char>, Seq<char>)>,
                    Seq<char>,
                >(final(self).steps_view()),
                Err(e) => fork_from(old(self).steps_view(), list@, 0, parent, label@, ctx@, seq![]) == Err::<
                    Seq<(u32, Option<u32>, Seq<char>, Seq<char>)>,
                    Seq<char>,
                >(e@),
            },
        decreases seq_size(list@), 1int,
    {
        let ghost target = fork_from(old(self).steps_view(), list@, 0, parent, label@, ctx@, seq![]);
        let need_names = list.len() > 1;
        let mut seen: Vec<String> = Vec::new();
        assert(seen@.map_values(|x: String| x@) =~= Seq::<Seq<char>>::empty());
        let mut j: usize = 0;
        while j < list.len()
            invariant
                j <= list@.len(),
                target == fork_from(old(self).steps_view(), list@, 0, parent, label@, ctx@, seq![]),
                need_names == (list@.len() > 1),
                self.fresh_steps(),
                fork_from(self.steps_view(), list@, j as int, parent, label@, ctx@, seen@.map_values(|x: String| x@))
                    == target,
            decreases list@.len() - j,
        {
            let bctx = alt_ctx_text(ctx, label, j);
            match &list[j] {
                Json::Object(m) => {
                    let keys = branch_key_list();
                    match only_keys(m, keys.as_slice(), bctx.as_str()) {
                        Err(e) => {
                            return Err(e);
                        },
                        Ok(()) => {},
                    }
                    let steps = match find_entry(m, "steps") {
                        Some(k) => &m[k].1,
                        None => {
                            return Err(err_with(bctx.as_str(), "missing \"steps\""));
                        },
                    };
                    let name = match optional_text(m, "name", bctx.as_str()) {
                        Err(e) => {
                            return Err(e);
                        },
                        Ok(n) => n,
                    };
                    if need_names {
                        match branch_name(&name, steps) {
                            None => {
                                return Err(
                                    err_with(
                                        bctx.as_str(),
                                        "needs a \"name\". Alternatives under the same step must each be named (like \"SSD\" / \"HDD\") so they can be told apart in review",
                                    ),
                                );
                            },
                            Some(eff) => {
                                let lower = to_lower(eff.as_str());
                                if contains_text(&seen, lower.as_str()) {
                                    let mut e = bctx;
                                    push_all(&mut e, "another alternative is already named \"");
                                    push_all(&mut e, eff.as_str());
                                    push_all(&mut e, "\"");
                                    proof {
                                        assert(e@ =~= alt_ctx(ctx@, label@, j as nat)
                                            + "another alternative is already named \""@ + eff@ + "\""@);
                                    }
                                    return Err(e);
                                }
                                let ghost before = seen@.map_values(|x: String| x@);
                                seen.push(lower);
                                assert(seen@.map_values(|x: String| x@) =~= before.push(lowercase(eff@)));
                            },
                        }
                    }
                    proof {
                        lemma_steps_smaller(list@, j as int);
                    }
                    let fname: Option<&str> = match &name {
                        Some(n) => Some(n.as_str()),
                        None => None,
                    };
                    match self.chain(steps, parent, fname, bctx.as_str()) {
                        Err(e) => {
                            return Err(e);
                        },
                        Ok(()) => {},
                    }
                },
                _ => {
                    return Err(err_with(bctx.as_str(), "expected an object { ... }"));
                },
            }
            j += 1;
        }
        Ok(())
    }
}

// ~~~ one card ~~~~~~~~~~~~~~~~~~~~~~~~~~~~~~~~~~~~~~~~~~~~~~~~~~~~~~~~~~~~~~~~~

/// What a card holds besides its deck, question and tags.
pub enum Body {
    Simple { answer: String, reversible: bool },
    /// steps in depth-first pre-order, ready to be stored
    Chain { steps: Vec<StepDraft> },
}

/// One card read from an outline.
pub struct OutlineCard {
    /// 1-based line of the file the card starts on
    pub line: usize,
    pub deck: String,
    pub question: String,
    pub tags: Vec<String>,
    pub body: Body,
}

/// A card read from an outline has no step tied to a stored item and no
/// step with an image.
pub open spec fn fresh_card(c: OutlineCard) -> bool {
    match c.body {
        Body::Chain { steps } => forall|k: int|
            0 <= k < steps@.len() ==> (#[trigger] steps@[k]).db_id is None && steps@[k].image is None,
        Body::Simple { .. } => true,
    }
}


/// The keys a card object may have.
pub open spec fn card_keys() -> Seq<Seq<char>> {
    seq!["deck"@, "question"@, "answer"@, "steps"@, "paths"@, "tags"@, "reversible"@]
}

/// A card as plain values: deck, question, tags, the simple answer with its
/// reversible flag (for a simple card), and the steps (for a chain).
pub open spec fn card_view(c: OutlineCard) -> (
    Seq<char>,
    Seq<char>,
    Seq<Seq<char>>,
    Option<(Seq<char>, bool)>,
    Seq<(u32, Option<u32>, Seq<char>, Seq<char>)>,
) {
    (
        c.deck@,
        c.question@,
        c.tags@.map_values(|t: String| t@),
        match c.body {
            Body::Simple { answer, reversible } => Some((answer@, reversible)),
            Body::Chain { .. } => None,
        },
        match c.body {
            Body::Chain { steps } => steps@.map_values(|d: StepDraft| draft_view(d)),
            Body::Simple { .. } => seq![],
        },
    )
}

/// How many of `answer`, `steps` and `paths` the card has.
pub open spec fn shape_count(m: Seq<(String, Json)>) -> int {
    (if entry(m, "answer"@) is Some {
        1int
    } else {
        0int
    }) + (if entry(m, "steps"@) is Some {
        1int
    } else {
        0int
    }) + (if entry(m, "paths"@) is Some {
        1int
    } else {
        0int
    })
}

/// Some step has no name but shares its parent with another step.
pub open spec fn has_unnamed_branch(ds: Seq<(u32, Option<u32>, Seq<char>, Seq<char>)>) -> bool {
    exists|i: int|
        0 <= i < ds.len() && is_blank(#[trigger] ds[i].2) && exists|j: int|
            0 <= j < ds.len() && j != i && #[trigger] ds[j].1 == ds[i].1
}

/// The steps of a card with `steps` or `paths`.
pub open spec fn built_steps(m: Seq<(String, Json)>) -> Result<Seq<(u32, Option<u32>, Seq<char>, Seq<char>)>, Seq<char>> {
    if entry(m, "steps"@) is Some {
        chain_spec(seq![], entry(m, "steps"@)->0, None, None, seq![])
    } else {
        match entry(m, "paths"@) {
            Some(Json::Array(list)) => if list@.len() == 0 {
                Err("\"paths\" is empty"@)
            } else {
                fork_from(seq![], list@, 0, None, "paths"@, seq![], seq![])
            },
            _ => Err("\"paths\" must be a list"@),
        }
    }
}

/// What `convert` makes of one JSON value.
pub open spec fn converted(v: Json) -> Result<
    (Seq<char>, Seq<char>, Seq<Seq<char>>, Option<(Seq<char>, bool)>, Seq<(u32, Option<u32>, Seq<char>, Seq<char>)>),
    Seq<char>,
> {
    match v {
        Json::Object(m) => match keys_check(m@, card_keys(), seq![]) {
            Err(e) => Err(e),
            Ok(_) => match required_spec(m@, "deck"@, seq![]) {
                Err(e) => Err(e),
                Ok(d0) => match cleaned_deck(d0) {
                    Err(e) => Err(e),
                    Ok(deck) => match required_spec(m@, "question"@, seq![]) {
                        Err(e) => Err(e),
                        Ok(question) => match tags_spec(entry(m@, "tags"@)) {
                            Err(e) => Err(e),
                            Ok(tags) => if shape_count(m@) == 0 {
                                Err(
                                    "needs one of \"answer\" (a simple card), \"steps\" (a chain), or \"paths\" (alternative chains)"@,
                                )
                            } else if shape_count(m@) > 1 {
                                Err("use only ONE of \"answer\", \"steps\" and \"paths\" on a card"@)
                            } else if entry(m@, "reversible"@) is Some && entry(m@, "answer"@) is None {
                                Err("\"reversible\" only applies to simple cards (those with an \"answer\")"@)
                            } else if entry(m@, "answer"@) is Some {
                                let rev: Result<bool, Seq<char>> = match entry(m@, "reversible"@) {
                                    None => Ok(false),
                                    Some(Json::Null) => Ok(false),
                                    Some(Json::Bool(b)) => Ok(b),
                                    Some(_) => Err("\"reversible\" must be true or false"@),
                                };
                                match rev {
                                    Err(e) => Err(e),
                                    Ok(r) => match required_spec(m@, "answer"@, seq![]) {
                                        Err(e) => Err(e),
                                        Ok(a) => Ok((deck, question, tags, Some((a, r)), seq![])),
                                    },
                                }
                            } else {
                                match built_steps(m@) {
                                    Err(e) => Err(e),
                                    Ok(ds) => if has_unnamed_branch(ds) {
                                        Err(branch_message())
                                    } else {
                                        Ok((deck, question, tags, None, ds))
                                    },
                                }
                            },
                        },
                    },
                },
            },
        },
        _ => Err("expected an object { ... }"@),
    }
}

fn empty_ctx() -> (r: &'static str)
    ensures
        r@ == Seq::<char>::empty(),
{
    proof {
        reveal_strlit("");
    }
    ""
}

fn card_key_list() -> (r: Vec<&'static str>)
    ensures
        r@.map_values(|a: &str| a@) == card_keys(),
{
    let r = vec!["deck", "question", "answer", "steps", "paths", "tags", "reversible"];
    assert(r@.map_values(|a: &str| a@) =~= card_keys());
    r
}

fn text_of(s: &str) -> (r: String)
    ensures
        r@ == s@,
{
    concat(s, empty_ctx())
}

fn build_steps(m: &Vec<(String, Json)>) -> (r: Result<Vec<StepDraft>, String>)
    ensures
        match r {
            Ok(ds) => built_steps(m@) == Ok::<Seq<(u32, Option<u32>, Seq<char>, Seq<char>)>, Seq<char>>(
                ds@.map_values(|d: StepDraft| draft_view(d)),
            ) && forall|k: int| 0 <= k < ds@.len() ==> (#[trigger] ds@[k]).db_id is None && ds@[k].image is None,
            Err(e) => built_steps(m@) == Err::<Seq<(u32, Option<u32>, Seq<char>, Seq<char>)>, Seq<char>>(e@),
        },
{
    let mut b = Builder { drafts: Vec::new() };
    assert(b.steps_view() =~= Seq::<(u32, Option<u32>, Seq<char>, Seq<char>)>::empty());
    let ctx = empty_ctx();
    match find_entry(m, "steps") {
        Some(k) => {
            match b.chain(&m[k].1, None, None, ctx) {
                Err(e) => Err(e),
                Ok(()) => Ok(b.drafts),
            }
        },
        None => match find_entry(m, "paths") {
            Some(k) => match &m[k].1 {
                Json::Array(list) => {
                    if list.len() == 0 {
                        return Err(text_of("\"paths\" is empty"));
                    }
                    match b.fork(list, None, "paths", ctx) {
                        Err(e) => Err(e),
                        Ok(()) => Ok(b.drafts),
                    }
                },
                _ => Err(text_of("\"paths\" must be a list")),
            },
            None => Err(text_of("\"paths\" must be a list")),
        },
    }
}

/// Reads one card from its JSON value; the card's line is left at 0.
pub fn convert(v: &Json) -> (r: Result<OutlineCard, String>)
    ensures
        match r {
            Ok(c) => converted(*v) == Ok::<
                (Seq<char>, Seq<char>, Seq<Seq<char>>, Option<(Seq<char>, bool)>, Seq<(u32, Option<u32>, Seq<char>, Seq<char>)>),
                Seq<char>,
            >(card_view(c)) && c.line == 0 && fresh_card(c),
            Err(e) => converted(*v) == Err::<
                (Seq<char>, Seq<char>, Seq<Seq<char>>, Option<(Seq<char>, bool)>, Seq<(u32, Option<u32>, Seq<char>, Seq<char>)>),
                Seq<char>,
            >(e@),
        },
{
    let m = match v {
        Json::Object(m) => m,
        _ => {
            return Err(text_of("expected an object { ... }"));
        },
    };
    let ctx = empty_ctx();
    let keys = card_key_list();
    match only_keys(m, keys.as_slice(), ctx) {
        Err(e) => {
            return Err(e);
        },
        Ok(()) => {},
    }
    let d0 = match required_text(m, "deck", ctx) {
        Err(e) => {
            return Err(e);
        },
        Ok(d) => d,
    };
    let deck = match clean_deck(d0.as_str()) {
        Err(e) => {
            return Err(e);
        },
        Ok(d) => d,
    };
    let question = match required_text(m, "question", ctx) {
        Err(e) => {
            return Err(e);
        },
        Ok(q) => q,
    };
    let tag_entry: Option<&Json> = match find_entry(m, "tags") {
        Some(k) => Some(&m[k].1),
        None => None,
    };
    let tags = match clean_tags(tag_entry) {
        Err(e) => {
            return Err(e);
        },
        Ok(t) => t,
    };
    let has_answer = has_entry(m, "answer");
    let has_steps = has_entry(m, "steps");
    let has_paths = has_entry(m, "paths");
    let shapes: usize = (if has_answer {
        1
    } else {
        0
    }) + (if has_steps {
        1
    } else {
        0
    }) + (if has_paths {
        1
    } else {
        0
    });
    if shapes == 0 {
        return Err(
            text_of(
                "needs one of \"answer\" (a simple card), \"steps\" (a chain), or \"paths\" (alternative chains)",
            ),
        );
    }
    if shapes > 1 {
        return Err(text_of("use only ONE of \"answer\", \"steps\" and \"paths\" on a card"));
    }
    let rev_at = find_entry(m, "reversible");
    if rev_at.is_some() && !has_answer {
        return Err(text_of("\"reversible\" only applies to simple cards (those with an \"answer\")"));
    }
    let body = if has_answer {
        let reversible = match rev_at {
            None => false,
            Some(k) => match &m[k].1 {
                Json::Null => false,
                Json::Bool(b) => *b,
                _ => {
                    return Err(text_of("\"reversible\" must be true or false"));
                },
            },
        };
        let answer = match required_text(m, "answer", ctx) {
            Err(e) => {
                return Err(e);
            },
            Ok(a) => a,
        };
        Body::Simple { answer, reversible }
    } else {
        let steps = match build_steps(m) {
            Err(e) => {
                return Err(e);
            },
            Ok(ds) => ds,
        };
        match check_branch_names(steps.as_slice()) {
            Err(msg) => {
                proof {
                    let ds = steps@.map_values(|d: StepDraft| draft_view(d));
                    let i = choose|i: int| 0 <= i < steps@.len() && #[trigger] unnamed_branch(steps@, i);
                    let j = choose|j: int| 0 <= j < steps@.len() && j != i && #[trigger] steps@[j].parent == steps@[i].parent;
                    assert(ds[i].2 == steps@[i].name@);
                    assert(ds[j].1 == ds[i].1);
                    assert(has_unnamed_branch(ds));
                }
                return Err(text_of(msg));
            },
            Ok(()) => {
                proof {
                    let ds = steps@.map_values(|d: StepDraft| draft_view(d));
                    if has_unnamed_branch(ds) {
                        let i = choose|i: int|
                            0 <= i < ds.len() && is_blank(#[trigger] ds[i].2) && exists|j: int|
                                0 <= j < ds.len() && j != i && #[trigger] ds[j].1 == ds[i].1;
                        let j = choose|j: int| 0 <= j < ds.len() && j != i && #[trigger] ds[j].1 == ds[i].1;
                        assert(steps@[j].parent == steps@[i].parent);
                        assert(unnamed_branch(steps@, i));
                    }
                }
            },
        }
        Body::Chain { steps }
    };
    Ok(OutlineCard { line: 0, deck, question, tags, body })
}

// ~~~ a whole outline ~~~~~~~~~~~~~~~~~~~~~~~~~~~~~~~~~~~~~~~~~~~~~~~~~~~~~~~~

/// The cards read from an outline and the ones that could not be.
pub struct Parsed {
    pub cards: Vec<OutlineCard>,
    pub errors: Vec<LineError>,
}

/// An error as plain values: line, label and message.
pub open spec fn error_view(e: LineError) -> (int, Option<Seq<char>>, Seq<char>) {
    (
        e.line as int,
        match e.label {
            Some(l) => Some(l@),
            None => None,
        },
        e.message@,
    )
}

/// A card as plain values, with its line.
pub open spec fn placed_card(c: OutlineCard) -> (
    int,
    (Seq<char>, Seq<char>, Seq<Seq<char>>, Option<(Seq<char>, bool)>, Seq<(u32, Option<u32>, Seq<char>, Seq<char>)>),
) {
    (c.line as int, card_view(c))
}

/// The message for a card whose brackets never close.
pub open spec fn cut_off_message() -> Seq<char> {
    "the card is cut off: its JSON never closes (output that hit a length limit, or a missing quote or bracket). Ask the AI to resend it"@
}

/// The message for a file without a single card.
pub open spec fn no_cards_message() -> Seq<char> {
    "no cards found. Expected one JSON object per line, like {\"deck\": \"...\", \"question\": \"...\", \"answer\": \"...\"}"@
}

/// The question of a JSON value, when it has one as text.
pub open spec fn question_label(v: Json) -> Option<Seq<char>> {
    match v {
        Json::Object(m) => match entry(m@, "question"@) {
            Some(Json::Str(q)) => Some(q@),
            _ => None,
        },
        _ => None,
    }
}

/// What becomes of one record, given what the JSON parser made of its text
/// (looked at only when the record is complete): a card on the record's
/// line, or an error there.
#[verifier::opaque]
pub open spec fn outcome(rec: (int, Seq<char>, bool), parsed: Result<Json, String>) -> Result<
    (
        int,
        (Seq<char>, Seq<char>, Seq<Seq<char>>, Option<(Seq<char>, bool)>, Seq<(u32, Option<u32>, Seq<char>, Seq<char>)>),
    ),
    (int, Option<Seq<char>>, Seq<char>),
> {
    if !rec.2 {
        Err((rec.0, guessed_question(rec.1), cut_off_message()))
    } else {
        match parsed {
            Err(e) => Err((rec.0, guessed_question(rec.1), "not valid JSON: "@ + e@)),
            Ok(v) => match converted(v) {
                Ok(c) => Ok((rec.0, c)),
                Err(msg) => Err((rec.0, question_label(v), msg)),
            },
        }
    }
}

/// The cards and the errors of the first `k` records, in order.
pub open spec fn read_upto(recs: Seq<(int, Seq<char>, bool)>, ps: Seq<Result<Json, String>>, k: int) -> (
    Seq<
        (
            int,
            (Seq<char>, Seq<char>, Seq<Seq<char>>, Option<(Seq<char>, bool)>, Seq<(u32, Option<u32>, Seq<char>, Seq<char>)>),
        ),
    >,
    Seq<(int, Option<Seq<char>>, Seq<char>)>,
)
    decreases k,
{
    if k <= 0 {
        (seq![], seq![])
    } else {
        let before = read_upto(recs, ps, k - 1);
        match outcome(recs[k - 1], ps[k - 1]) {
            Ok(c) => (before.0.push(c), before.1),
            Err(e) => (before.0, before.1.push(e)),
        }
    }
}

/// What an outline gives: every record read in order; when nothing at all
/// was found, one error says so.
pub open spec fn outline_result(recs: Seq<(int, Seq<char>, bool)>, ps: Seq<Result<Json, String>>) -> (
    Seq<
        (
            int,
            (Seq<char>, Seq<char>, Seq<Seq<char>>, Option<(Seq<char>, bool)>, Seq<(u32, Option<u32>, Seq<char>, Seq<char>)>),
        ),
    >,
    Seq<(int, Option<Seq<char>>, Seq<char>)>,
) {
    let r = read_upto(recs, ps, recs.len() as int);
    if r.0.len() == 0 && r.1.len() == 0 {
        (r.0, seq![(1int, None, no_cards_message())])
    } else {
        r
    }
}

fn question_of(v: &Json) -> (r: Option<String>)
    ensures
        match r {
            Some(q) => question_label(*v) == Some(q@),
            None => question_label(*v) is None,
        },
{
    match v {
        Json::Object(m) => match find_entry(m, "question") {
            Some(k) => match &m[k].1 {
                Json::Str(q) => Some(q.clone()),
                _ => None,
            },
            None => None,
        },
        _ => None,
    }
}

/// Reads one record, given what the JSON parser made of its text (which
/// is looked at only when the record is complete).
pub fn read_record(rec: &Record, parsed: &Result<Json, String>) -> (r: Result<OutlineCard, LineError>)
    ensures
        r matches Ok(c) ==> fresh_card(c),
        match r {
            Ok(c) => outcome(record_view(*rec), *parsed) == Ok::<
                (
                    int,
                    (Seq<char>, Seq<char>, Seq<Seq<char>>, Option<(Seq<char>, bool)>, Seq<(u32, Option<u32>, Seq<char>, Seq<char>)>),
                ),
                (int, Option<Seq<char>>, Seq<char>),
            >(placed_card(c)),
            Err(e) => outcome(record_view(*rec), *parsed) == Err::<
                (
                    int,
                    (Seq<char>, Seq<char>, Seq<Seq<char>>, Option<(Seq<char>, bool)>, Seq<(u32, Option<u32>, Seq<char>, Seq<char>)>),
                ),
                (int, Option<Seq<char>>, Seq<char>),
            >(error_view(e)),
        },
{
    reveal(outcome);
    if !rec.complete {
        return Err(
            LineError {
                line: rec.line,
                label: guess_question(rec.text.as_str()),
                message: text_of(
                    "the card is cut off: its JSON never closes (output that hit a length limit, or a missing quote or bracket). Ask the AI to resend it",
                ),
            },
        );
    }
    match parsed {
        Err(e) => Err(
            LineError {
                line: rec.line,
                label: guess_question(rec.text.as_str()),
                message: concat("not valid JSON: ", e.as_str()),
            },
        ),
        Ok(v) => match convert(v) {
            Ok(card) => {
                let mut card = card;
                card.line = rec.line;
                Ok(card)
            },
            Err(message) => Err(LineError { line: rec.line, label: question_of(v), message }),
        },
    }
}

/// Puts an outline together from its records and, for each record, what
/// the JSON parser made of its text. Never fails as a whole: broken cards
/// become errors; a file without any card gets one error saying so.
pub fn assemble(records: &Vec<Record>, parsed: &Vec<Result<Json, String>>) -> (r: Parsed)
    requires
        parsed@.len() == records@.len(),
    ensures
        (r.cards@.map_values(|c: OutlineCard| placed_card(c)), r.errors@.map_values(|e: LineError| error_view(e)))
            == outline_result(records@.map_values(|x: Record| record_view(x)), parsed@),
        forall|k: int| 0 <= k < r.cards@.len() ==> fresh_card(#[trigger] r.cards@[k]),
{
    let ghost recs = records@.map_values(|x: Record| record_view(x));
    let mut cards: Vec<OutlineCard> = Vec::new();
    let mut errors: Vec<LineError> = Vec::new();
    let mut k: usize = 0;
    while k < records.len()
        invariant
            parsed@.len() == records@.len(),
            recs == records@.map_values(|x: Record| record_view(x)),
            k <= records@.len(),
            (cards@.map_values(|c: OutlineCard| placed_card(c)), errors@.map_values(|e: LineError| error_view(e)))
                == read_upto(recs, parsed@, k as int),
            forall|q: int| 0 <= q < cards@.len() ==> fresh_card(#[trigger] cards@[q]),
        decreases records@.len() - k,
    {
        let ghost cb = cards@.map_values(|c: OutlineCard| placed_card(c));
        let ghost eb = errors@.map_values(|e: LineError| error_view(e));
        assert(recs[k as int] == record_view(records@[k as int]));
        match read_record(&records[k], &parsed[k]) {
            Ok(c) => {
                cards.push(c);
                assert(cards@.map_values(|c: OutlineCard| placed_card(c)) =~= cb.push(placed_card(c)));
                assert(errors@.map_values(|e: LineError| error_view(e)) =~= eb);
            },
            Err(e) => {
                errors.push(e);
                assert(errors@.map_values(|e: LineError| error_view(e)) =~= eb.push(error_view(e)));
                assert(cards@.map_values(|c: OutlineCard| placed_card(c)) =~= cb);
            },
        }
        k += 1;
    }
    if cards.len() == 0 && errors.len() == 0 {
        let ghost cb = cards@.map_values(|c: OutlineCard| placed_card(c));
        errors.push(
            LineError {
                line: 1,
                label: None,
                message: text_of(
                    "no cards found. Expected one JSON object per line, like {\"deck\": \"...\", \"question\": \"...\", \"answer\": \"...\"}",
                ),
            },
        );
        assert(errors@.map_values(|e: LineError| error_view(e)) =~= seq![(1int, None, no_cards_message())]);
        assert(cards@.map_values(|c: OutlineCard| placed_card(c)) =~= cb);
    }
    Parsed { cards, errors }
}

/// The text without a leading byte-order mark.
pub fn strip_bom(text: &str) -> (r: String)
    ensures
        r@ == if text@.len() > 0 && text@[0] == '\u{feff}' {
            text@.skip(1)
        } else {
            text@
        },
{
    let cs = chars_of(text);
    let mut out = String::new();
    let mut k: usize = if cs.len() > 0 && cs[0] == '\u{feff}' {
        1
    } else {
        0
    };
    let start = k;
    while k < cs.len()
        invariant
            start <= k <= cs@.len(),
            cs@ == text@,
            out@ == cs@.subrange(start as int, k as int),
        decreases cs@.len() - k,
    {
        out.push(cs[k]);
        k += 1;
        assert(out@ =~= cs@.subrange(start as int, k as int));
    }
    assert(cs@.subrange(start as int, cs@.len() as int) =~= if text@.len() > 0 && text@[0] == '\u{feff}' {
        text@.skip(1)
    } else {
        text@
    });
    out
}

// ~~~ the JSON parser ~~~~~~~~~~~~~~~~~~~~~~~~~~~~~~~~~~~~~~~~~~~~~~~~~~~~~~~~~

#[verifier::external_type_specification]
#[verifier::external_body]
pub struct ExJsonValue(Value);

/// What serde_json makes of a text: the value, read as a `Json`, or the
/// parser's message for what is wrong with the text.
pub uninterp spec fn json_reading(text: Seq<char>) -> Result<Json, String>;

/// Parses the text with `serde_json::from_str::<Value>` and converts the
/// value with `json_value`; an error becomes its message (`Display`). What
/// comes out depends on the text alone; it is named `json_reading` and
/// nothing more is claimed of it.
#[verifier::external_body]
fn read_json(text: &str) -> (r: Result<Json, String>)
    ensures
        r == json_reading(text@),
{
    match serde_json::from_str::<Value>(text) {
        Ok(v) => Ok(json_value(v)),
        Err(e) => Err(e.to_string()),
    }
}

/// Converts a serde_json value variant for variant: a number keeps its
/// text, an object its entries in the order of serde_json's map. Claims
/// nothing.
#[verifier::external_body]
fn json_value(v: Value) -> Json {
    match v {
        Value::Null => Json::Null,
        Value::Bool(b) => Json::Bool(b),
        Value::Number(n) => Json::Number(n.to_string()),
        Value::String(t) => Json::Str(t),
        Value::Array(a) => Json::Array(a.into_iter().map(json_value).collect()),
        Value::Object(o) => Json::Object(o.into_iter().map(|(k, x)| (k, json_value(x))).collect()),
    }
}

// ~~~ reading an outline file ~~~~~~~~~~~~~~~~~~~~~~~~~~~~~~~~~~~~~~~~~~~~~~~~~~

/// The text an outline is read from: without a leading byte-order mark.
pub open spec fn unmarked(s: Seq<char>) -> Seq<char> {
    if s.len() > 0 && s[0] == '\u{feff}' {
        s.skip(1)
    } else {
        s
    }
}

/// What the JSON parser makes of each record's text.
pub open spec fn readings(recs: Seq<(int, Seq<char>, bool)>) -> Seq<Result<Json, String>> {
    Seq::new(recs.len(), |i: int| json_reading(recs[i].1))
}

/// What an outline file gives: its records, each read with what the JSON
/// parser makes of its text (see `outline_result`).
pub open spec fn outline_of(text: Seq<char>) -> (
    Seq<
        (
            int,
            (Seq<char>, Seq<char>, Seq<Seq<char>>, Option<(Seq<char>, bool)>, Seq<(u32, Option<u32>, Seq<char>, Seq<char>)>),
        ),
    >,
    Seq<(int, Option<Seq<char>>, Seq<char>)>,
) {
    let recs = records(unmarked(text), 0, 1);
    outline_result(recs, readings(recs))
}

/// Only what the parser made of complete records counts.
proof fn lemma_read_upto_agree(
    recs: Seq<(int, Seq<char>, bool)>,
    ps1: Seq<Result<Json, String>>,
    ps2: Seq<Result<Json, String>>,
    k: int,
)
    requires
        0 <= k <= recs.len(),
        ps1.len() >= k,
        ps2.len() >= k,
        forall|i: int| 0 <= i < k && recs[i].2 ==> ps1[i] == ps2[i],
    ensures
        read_upto(recs, ps1, k) == read_upto(recs, ps2, k),
    decreases k,
{
    reveal(outcome);
    if k > 0 {
        lemma_read_upto_agree(recs, ps1, ps2, k - 1);
        assert(outcome(recs[k - 1], ps1[k - 1]) == outcome(recs[k - 1], ps2[k - 1]));
    }
}

/// Parses an outline file. Never fails as a whole: each record becomes a
/// card or an error with its line; a file without any card gets one error
/// saying so.
pub fn parse(text: &str) -> (r: Parsed)
    requires
        text@.len() < usize::MAX,
    ensures
        (r.cards@.map_values(|c: OutlineCard| placed_card(c)), r.errors@.map_values(|e: LineError| error_view(e)))
            == outline_of(text@),
        forall|k: int| 0 <= k < r.cards@.len() ==> fresh_card(#[trigger] r.cards@[k]),
{
    let t = strip_bom(text);
    assert(t@ == unmarked(text@));
    let recs = split_records(t.as_str());
    let ghost rv = recs@.map_values(|x: Record| record_view(x));
    let mut parsed: Vec<Result<Json, String>> = Vec::new();
    let mut k: usize = 0;
    while k < recs.len()
        invariant
            rv == recs@.map_values(|x: Record| record_view(x)),
            k <= recs@.len(),
            parsed@.len() == k,
            forall|i: int| 0 <= i < k && rv[i].2 ==> #[trigger] parsed@[i] == json_reading(rv[i].1),
        decreases recs@.len() - k,
    {
        assert(rv[k as int] == record_view(recs@[k as int]));
        if recs[k].complete {
            let p = read_json(recs[k].text.as_str());
            parsed.push(p);
        } else {
            parsed.push(Err(String::new()));
        }
        k += 1;
    }
    let r = assemble(&recs, &parsed);
    proof {
        lemma_read_upto_agree(rv, parsed@, readings(rv), rv.len() as int);
    }
    r
}

/// The text is a full export rather than an outline: it may be one (see
/// `may_be_export`), and the JSON parser reads it as an object with a
/// `cards` list and no `question` of its own.
pub open spec fn export_looking(s: Seq<char>) -> bool {
    may_be_export(s) && (json_reading(export_text(s)) matches Ok(v) && export_value(v))
}

/// Whether the text is a full export rather than an outline.
pub fn looks_like_export(text: &str) -> (b: bool)
    ensures
        b == export_looking(text@),
{
    match export_candidate(text) {
        None => false,
        Some(t) => match read_json(t.as_str()) {
            Ok(v) => is_export_value(&v),
            Err(_) => false,
        },
    }
}

// ~~~ telling a full export from an outline ~~~~~~~~~~~~~~~~~~~~~~~~~~~~~~~~~~~~

/// `s` without its leading byte-order marks.
pub open spec fn strip_marks(s: Seq<char>) -> Seq<char>
    decreases s.len(),
{
    if s.len() > 0 && s[0] == '\u{feff}' {
        strip_marks(s.drop_first())
    } else {
        s
    }
}

/// The text an export check looks at: without leading marks and whitespace.
pub open spec fn export_text(s: Seq<char>) -> Seq<char> {
    trim_start(strip_marks(s))
}

/// The text opens an object and mentions `"cards"`, so it may be a full
/// export rather than an outline.
pub open spec fn may_be_export(s: Seq<char>) -> bool {
    let t = export_text(s);
    t.len() > 0 && t[0] == '{' && has_substring(t, "\"cards\""@)
}

/// If the text may be a full export, the part to hand to the JSON parser.
pub fn export_candidate(text: &str) -> (r: Option<String>)
    ensures
        match r {
            Some(t) => may_be_export(text@) && t@ == export_text(text@),
            None => !may_be_export(text@),
        },
{
    let cs = chars_of(text);
    let n = cs.len();
    let mut k: usize = 0;
    assert(cs@.skip(0) =~= cs@);
    while k < n && cs[k] == '\u{feff}'
        invariant
            n == cs@.len(),
            k <= n,
            cs@ == text@,
            strip_marks(text@) == strip_marks(cs@.skip(k as int)),
        decreases n - k,
    {
        assert(cs@.skip(k as int).drop_first() =~= cs@.skip(k + 1));
        k += 1;
    }
    assert(strip_marks(cs@.skip(k as int)) == cs@.skip(k as int));
    while k < n && is_whitespace(cs[k])
        invariant
            n == cs@.len(),
            k <= n,
            cs@ == text@,
            export_text(text@) == trim_start(cs@.skip(k as int)),
        decreases n - k,
    {
        assert(cs@.skip(k as int).drop_first() =~= cs@.skip(k + 1));
        k += 1;
    }
    let mut t: Vec<char> = Vec::new();
    let start = k;
    while k < n
        invariant
            n == cs@.len(),
            start <= k <= n,
            t@ == cs@.subrange(start as int, k as int),
        decreases n - k,
    {
        t.push(cs[k]);
        k += 1;
        assert(t@ =~= cs@.subrange(start as int, k as int));
    }
    assert(t@ =~= cs@.skip(start as int));
    assert(t@ == export_text(text@));
    let pat = chars_of("\"cards\"");
    if t.len() > 0 && t[0] == '{' && contains(&t, &pat) {
        Some(string_of(&t))
    } else {
        None
    }
}

/// A parsed value is a full export: an object with a `cards` list and no
/// `question` of its own.
pub open spec fn export_value(v: Json) -> bool {
    match v {
        Json::Object(m) => (entry(m@, "cards"@) matches Some(Json::Array(_))) && entry(m@, "question"@) is None,
        _ => false,
    }
}

/// Whether a parsed value is a full export rather than an outline card.
pub fn is_export_value(v: &Json) -> (b: bool)
    ensures
        b == export_value(*v),
{
    match v {
        Json::Object(m) => {
            let cards = match find_entry(m, "cards") {
                Some(k) => match &m[k].1 {
                    Json::Array(_) => true,
                    _ => false,
                },
                None => false,
            };
            cards && !has_entry(m, "question")
        },
        _ => false,
    }
}

// ~~~ laws ~~~~~~~~~~~~~~~~~~~~~~~~~~~~~~~~~~~~~~~~~~~~~~~~~~~~~~~~~~~~~~~~~~~~~~

/// Each record of an outline gives exactly one card or one error: a broken
/// card is reported and skipped, the rest are still read.
pub proof fn lemma_every_record_accounted(recs: Seq<(int, Seq<char>, bool)>, ps: Seq<Result<Json, String>>, k: int)
    requires
        0 <= k <= recs.len(),
    ensures
        read_upto(recs, ps, k).0.len() + read_upto(recs, ps, k).1.len() == k,
    decreases k,
{
    if k > 0 {
        lemma_every_record_accounted(recs, ps, k - 1);
    }
}

/// Steps are numbered by their place, and every step's parent comes before it.
pub open spec fn numbered_in_order(ds: Seq<(u32, Option<u32>, Seq<char>, Seq<char>)>) -> bool {
    forall|i: int|
        0 <= i < ds.len() ==> (#[trigger] ds[i]).0 == i && (ds[i].1 matches Some(p) ==> p < i)
}

/// A parent that is already among the steps (or the question itself).
pub open spec fn parent_ok(ds: Seq<(u32, Option<u32>, Seq<char>, Seq<char>)>, parent: Option<u32>) -> bool {
    parent matches Some(p) ==> p < ds.len()
}

proof fn lemma_push_in_order(
    ds: Seq<(u32, Option<u32>, Seq<char>, Seq<char>)>,
    parent: Option<u32>,
    name: Seq<char>,
    answer: Seq<char>,
)
    requires
        numbered_in_order(ds),
        parent_ok(ds, parent),
    ensures
        push_spec(ds, parent, name, answer) matches Ok(ds2) ==> numbered_in_order(ds2) && ds2.len() == ds.len() + 1,
{
    if ds.len() < MAX_STEPS_PER_CARD {
        let ds2 = ds.push((ds.len() as u32, parent, name, answer));
        assert forall|i: int| 0 <= i < ds2.len() implies (#[trigger] ds2[i]).0 == i && (ds2[i].1 matches Some(p) ==> p < i) by {
            if i < ds.len() {
                assert(ds2[i] == ds[i]);
            }
        }
    }
}

/// Building a chain keeps the steps in depth-first order: numbered by
/// place, parents first.
pub proof fn lemma_chain_in_order(
    ds: Seq<(u32, Option<u32>, Seq<char>, Seq<char>)>,
    steps: Json,
    parent: Option<u32>,
    first_name: Option<Seq<char>>,
    ctx: Seq<char>,
)
    requires
        numbered_in_order(ds),
        parent_ok(ds, parent),
    ensures
        chain_spec(ds, steps, parent, first_name, ctx) matches Ok(ds2) ==> numbered_in_order(ds2) && ds.len()
            <= ds2.len(),
    decreases json_size(steps), 0int,
{
    match steps {
        Json::Array(arr) => {
            if arr@.len() > 0 {
                lemma_chain_from_in_order(ds, arr@, 0, parent, first_name, ctx);
            }
        },
        _ => {},
    }
}

proof fn lemma_chain_from_in_order(
    ds: Seq<(u32, Option<u32>, Seq<char>, Seq<char>)>,
    arr: Seq<Json>,
    i: int,
    parent: Option<u32>,
    first_name: Option<Seq<char>>,
    ctx: Seq<char>,
)
    requires
        numbered_in_order(ds),
        parent_ok(ds, parent),
    ensures
        chain_from(ds, arr, i, parent, first_name, ctx) matches Ok(ds2) ==> numbered_in_order(ds2) && ds.len()
            <= ds2.len(),
    decreases seq_size(arr), arr.len() - i,
{
    if 0 <= i < arr.len() {
        let sctx = step_ctx(ctx, i as nat);
        match step_parts(arr[i], sctx) {
            Err(e) => {},
            Ok(parts) => {
                let name = match first_name {
                    Some(n) => if i == 0 && !is_blank(n) {
                        trim(n)
                    } else {
                        parts.0
                    },
                    None => parts.0,
                };
                lemma_push_in_order(ds, parent, name, parts.1);
                match push_spec(ds, parent, name, parts.1) {
                    Err(e) => {},
                    Ok(ds2) => {
                        let key = ds.len() as u32;
                        match parts.2 {
                            None => {
                                lemma_chain_from_in_order(ds2, arr, i + 1, Some(key), first_name, ctx);
                            },
                            Some(b) => {
                                if i + 1 == arr.len() {
                                    match b {
                                        Json::Array(list) => {
                                            if list@.len() > 0 {
                                                lemma_branches_smaller(arr, i, sctx);
                                                lemma_fork_in_order(ds2, list@, 0, Some(key), "branches"@, sctx, seq![]);
                                                match fork_from(ds2, list@, 0, Some(key), "branches"@, sctx, seq![]) {
                                                    Err(e) => {},
                                                    Ok(ds3) => {
                                                        lemma_chain_from_in_order(ds3, arr, i + 1, Some(key), first_name, ctx);
                                                    },
                                                }
                                            }
                                        },
                                        _ => {},
                                    }
                                }
                            },
                        }
                    },
                }
            },
        }
    }
}

proof fn lemma_fork_in_order(
    ds: Seq<(u32, Option<u32>, Seq<char>, Seq<char>)>,
    list: Seq<Json>,
    j: int,
    parent: Option<u32>,
    label: Seq<char>,
    ctx: Seq<char>,
    seen: Seq<Seq<char>>,
)
    requires
        numbered_in_order(ds),
        parent_ok(ds, parent),
    ensures
        fork_from(ds, list, j, parent, label, ctx, seen) matches Ok(ds2) ==> numbered_in_order(ds2) && ds.len()
            <= ds2.len(),
    decreases seq_size(list), list.len() - j,
{
    if 0 <= j < list.len() {
        let bctx = alt_ctx(ctx, label, j as nat);
        match list[j] {
            Json::Object(m) => match entry(m@, "steps"@) {
                Some(steps) => match optional_spec(m@, "name"@, bctx) {
                    Ok(name) => {
                        lemma_steps_smaller(list, j);
                        lemma_chain_in_order(ds, steps, parent, name, bctx);
                        let naming: Result<Seq<Seq<char>>, Seq<char>> = if list.len() > 1 {
                            match effective_name(name, steps) {
                                None => Err(bctx + needs_name()),
                                Some(eff) => if seen.contains(lowercase(eff)) {
                                    Err(bctx + "another alternative is already named \""@ + eff + "\""@)
                                } else {
                                    Ok(seen.push(lowercase(eff)))
                                },
                            }
                        } else {
                            Ok(seen)
                        };
                        match naming {
                            Ok(seen2) => match chain_spec(ds, steps, parent, name, bctx) {
                                Ok(ds2) => {
                                    lemma_fork_in_order(ds2, list, j + 1, parent, label, ctx, seen2);
                                },
                                Err(e) => {},
                            },
                            Err(e) => {},
                        }
                    },
                    Err(e) => {},
                },
                None => {},
            },
            _ => {},
        }
    }
}

/// The steps of every card read from an outline are in depth-first order:
/// numbered by place, each parent before its children.
pub proof fn lemma_outline_steps_in_order(v: Json)
    ensures
        converted(v) matches Ok(c) ==> numbered_in_order(c.4),
{
    match v {
        Json::Object(m) => {
            let e: Seq<(u32, Option<u32>, Seq<char>, Seq<char>)> = seq![];
            if entry(m@, "steps"@) is Some {
                lemma_chain_in_order(e, entry(m@, "steps"@)->0, None, None, seq![]);
            } else {
                match entry(m@, "paths"@) {
                    Some(Json::Array(list)) => {
                        lemma_fork_in_order(e, list@, 0, None, "paths"@, seq![], seq![]);
                    },
                    _ => {},
                }
            }
        },
        _ => {},
    }
}

} // verus!
