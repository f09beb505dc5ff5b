//! Character-level helpers shared by the parsers, the editor and the lists:
//! Unicode whitespace, trimming, word collapsing, decimal numbers, substring
//! search and case folding.

use vstd::prelude::*;

verus! {

pub assume_specification[ String::push ](s: &mut String, ch: char)
    ensures
        final(s)@ == old(s)@.push(ch),
;

/// The characters of `s`, in order.
pub fn chars_of(s: &str) -> (v: Vec<char>)
    ensures
        v@ == s@,
{
    let mut v: Vec<char> = Vec::new();
    for c in it: s.chars()
        invariant
            v@ == it.seq().take(it.index() as int),
    {
        v.push(c);
    }
    v
}

/// A string holding exactly the characters of `v`.
pub fn string_of(v: &Vec<char>) -> (s: String)
    ensures
        s@ == v@,
{
    let mut s = String::new();
    let mut i: usize = 0;
    while i < v.len()
        invariant
            i <= v.len(),
            s@ == v@.take(i as int),
        decreases v.len() - i,
    {
        s.push(v[i]);
        i += 1;
        assert(v@.take(i as int) == v@.take(i - 1).push(v@[i - 1]));
    }
    assert(v@.take(v.len() as int) == v@);
    s
}

/// Appends the characters of `t` to `s`.
pub fn push_all(s: &mut String, t: &str)
    ensures
        final(s)@ == old(s)@ + t@,
{
    let v = chars_of(t);
    let mut i: usize = 0;
    while i < v.len()
        invariant
            i <= v.len(),
            v@ == t@,
            s@ == old(s)@ + v@.take(i as int),
        decreases v.len() - i,
    {
        s.push(v[i]);
        i += 1;
        assert(v@.take(i as int) == v@.take(i - 1).push(v@[i - 1]));
    }
    assert(v@.take(v.len() as int) == v@);
}

/// The Unicode `White_Space` property, which is what `char::is_whitespace`
/// tests.
pub open spec fn is_ws(c: char) -> bool {
    let u = c as u32;
    ||| 9 <= u <= 13
    ||| u == 32
    ||| u == 0x85
    ||| u == 0xA0
    ||| u == 0x1680
    ||| 0x2000 <= u <= 0x200A
    ||| u == 0x2028
    ||| u == 0x2029
    ||| u == 0x202F
    ||| u == 0x205F
    ||| u == 0x3000
}

pub fn is_whitespace(c: char) -> (b: bool)
    ensures
        b == is_ws(c),
{
    let u = c as u32;
    (9 <= u && u <= 13) || u == 32 || u == 0x85 || u == 0xA0 || u == 0x1680 || (0x2000 <= u
        && u <= 0x200A) || u == 0x2028 || u == 0x2029 || u == 0x202F || u == 0x205F || u == 0x3000
}

/// `s` without its leading whitespace.
pub open spec fn trim_start(s: Seq<char>) -> Seq<char>
    decreases s.len(),
{
    if s.len() > 0 && is_ws(s[0]) {
        trim_start(s.drop_first())
    } else {
        s
    }
}

/// `s` without its trailing whitespace.
pub open spec fn trim_end(s: Seq<char>) -> Seq<char>
    decreases s.len(),
{
    if s.len() > 0 && is_ws(s.last()) {
        trim_end(s.drop_last())
    } else {
        s
    }
}

/// `s` without leading and trailing whitespace (`str::trim`).
pub open spec fn trim(s: Seq<char>) -> Seq<char> {
    trim_end(trim_start(s))
}

/// Nothing but whitespace (or nothing at all).
pub open spec fn is_blank(s: Seq<char>) -> bool {
    forall|i: int| 0 <= i < s.len() ==> is_ws(#[trigger] s[i])
}

proof fn lemma_trim_start_skip(s: Seq<char>, i: int)
    requires
        0 <= i <= s.len(),
        forall|k: int| 0 <= k < i ==> is_ws(#[trigger] s[k]),
    ensures
        trim_start(s) == trim_start(s.skip(i)),
    decreases i,
{
    if i > 0 {
        assert(s.drop_first().skip(i - 1) =~= s.skip(i));
        assert forall|k: int| 0 <= k < i - 1 implies is_ws(#[trigger] s.drop_first()[k]) by {
            assert(s.drop_first()[k] == s[k + 1]);
        }
        lemma_trim_start_skip(s.drop_first(), i - 1);
    } else {
        assert(s.skip(0) =~= s);
    }
}

proof fn lemma_trim_end_take(s: Seq<char>, j: int)
    requires
        0 <= j <= s.len(),
        forall|k: int| j <= k < s.len() ==> is_ws(#[trigger] s[k]),
    ensures
        trim_end(s) == trim_end(s.take(j)),
    decreases s.len() - j,
{
    if j < s.len() {
        assert(s.drop_last().take(j) =~= s.take(j));
        lemma_trim_end_take(s.drop_last(), j);
    } else {
        assert(s.take(j) =~= s);
    }
}

/// Blank exactly when trimming leaves nothing.
pub proof fn lemma_blank_iff_trim_empty(s: Seq<char>)
    ensures
        is_blank(s) <==> trim(s).len() == 0,
    decreases s.len(),
{
    if s.len() > 0 && is_ws(s[0]) {
        lemma_blank_iff_trim_empty(s.drop_first());
        if is_blank(s.drop_first()) {
            assert forall|i: int| 0 <= i < s.len() implies is_ws(#[trigger] s[i]) by {
                if i > 0 {
                    assert(s[i] == s.drop_first()[i - 1]);
                }
            }
        }
        if is_blank(s) {
            assert forall|i: int| 0 <= i < s.drop_first().len() implies is_ws(
                #[trigger] s.drop_first()[i],
            ) by {
                assert(s.drop_first()[i] == s[i + 1]);
            }
        }
    } else if s.len() > 0 {
        lemma_trim_end_keeps_first(s);
    }
}

proof fn lemma_trim_end_keeps_first(s: Seq<char>)
    requires
        s.len() > 0,
        !is_ws(s[0]),
    ensures
        trim_end(s).len() > 0,
        trim_end(s)[0] == s[0],
    decreases s.len(),
{
    if is_ws(s.last()) {
        lemma_trim_end_keeps_first(s.drop_last());
    }
}

/// `s` trimmed of whitespace at both ends (`str::trim`).
pub fn trim_chars(s: &Vec<char>) -> (r: Vec<char>)
    ensures
        r@ == trim(s@),
{
    let n = s.len();
    let mut i: usize = 0;
    while i < n && is_whitespace(s[i])
        invariant
            n == s.len(),
            i <= n,
            forall|k: int| 0 <= k < i ==> is_ws(#[trigger] s@[k]),
        decreases n - i,
    {
        i += 1;
    }
    proof {
        lemma_trim_start_skip(s@, i as int);
    }
    let mut j: usize = n;
    while j > i && is_whitespace(s[j - 1])
        invariant
            n == s.len(),
            i <= j <= n,
            forall|k: int| j <= k < n ==> is_ws(#[trigger] s@[k]),
        decreases j,
    {
        j -= 1;
    }
    let mut r: Vec<char> = Vec::new();
    let mut k: usize = i;
    while k < j
        invariant
            i <= k <= j <= n,
            n == s.len(),
            r@ == s@.subrange(i as int, k as int),
        decreases j - k,
    {
        r.push(s[k]);
        k += 1;
        assert(s@.subrange(i as int, k as int) == s@.subrange(i as int, k - 1).push(s@[k - 1]));
    }
    proof {
        let t = s@.skip(i as int);
        // trim_start(s) == trim_start(t) and t starts with a non-space (or is empty)
        if i < n {
            assert(t[0] == s@[i as int]);
        }
        assert(trim_start(t) == t);
        assert forall|q: int| (j - i) <= q < t.len() implies is_ws(#[trigger] t[q]) by {
            assert(t[q] == s@[q + i]);
        }
        lemma_trim_end_take(t, j - i);
        assert(t.take(j - i) =~= s@.subrange(i as int, j as int));
        if j > i {
            assert(!is_ws(t.take(j - i).last()));
        }
    }
    r
}

/// `str::trim` on an owned string.
pub fn trimmed(s: &str) -> (r: String)
    ensures
        r@ == trim(s@),
{
    let v = chars_of(s);
    let t = trim_chars(&v);
    string_of(&t)
}

/// Whether `s` holds nothing but whitespace.
pub fn blank(s: &str) -> (b: bool)
    ensures
        b == is_blank(s@),
        b == (trim(s@).len() == 0),
{
    proof {
        lemma_blank_iff_trim_empty(s@);
    }
    let v = chars_of(s);
    let mut i: usize = 0;
    while i < v.len()
        invariant
            i <= v.len(),
            v@ == s@,
            forall|k: int| 0 <= k < i ==> is_ws(#[trigger] v@[k]),
        decreases v.len() - i,
    {
        if !is_whitespace(v[i]) {
            assert(!is_ws(s@[i as int]));
            proof {
                lemma_blank_iff_trim_empty(s@);
            }
            return false;
        }
        i += 1;
    }
    true
}

// ~~~ words ~~~~~~~~~~~~~~~~~~~~~~~~~~~~~~~~~~~~~~~~~~~~~~~~~~~~~~~~~~~~~~~~~~~~~

/// The whitespace-separated words of `s` (`str::split_whitespace`), read
/// from the end: the last character either extends the last word, starts a
/// new one, or separates.
pub open spec fn words(s: Seq<char>) -> Seq<Seq<char>>
    decreases s.len(),
{
    if s.len() == 0 {
        Seq::empty()
    } else if is_ws(s.last()) {
        words(s.drop_last())
    } else if s.len() >= 2 && !is_ws(s[s.len() - 2]) {
        let w = words(s.drop_last());
        w.update(w.len() - 1, w.last().push(s.last()))
    } else {
        words(s.drop_last()).push(seq![s.last()])
    }
}

/// The words joined with single spaces.
pub open spec fn join_spaced(ws: Seq<Seq<char>>) -> Seq<char>
    decreases ws.len(),
{
    if ws.len() == 0 {
        Seq::empty()
    } else if ws.len() == 1 {
        ws[0]
    } else {
        join_spaced(ws.drop_last()) + seq![' '] + ws.last()
    }
}

/// `s.split_whitespace().collect::<Vec<_>>().join(" ")`.
pub open spec fn collapse_ws(s: Seq<char>) -> Seq<char> {
    join_spaced(words(s))
}

proof fn lemma_words_shape(s: Seq<char>)
    ensures
        forall|k: int| 0 <= k < words(s).len() ==> #[trigger] words(s)[k].len() > 0,
        s.len() > 0 && !is_ws(s.last()) ==> words(s).len() > 0,
    decreases s.len(),
{
    if s.len() > 0 {
        lemma_words_shape(s.drop_last());
        if !is_ws(s.last()) && s.len() >= 2 && !is_ws(s[s.len() - 2]) {
            assert(s.drop_last().last() == s[s.len() - 2]);
        }
    }
}

proof fn lemma_join_nonempty(ws: Seq<Seq<char>>)
    requires
        forall|k: int| 0 <= k < ws.len() ==> #[trigger] ws[k].len() > 0,
    ensures
        (join_spaced(ws).len() == 0) == (ws.len() == 0),
    decreases ws.len(),
{
    if ws.len() > 1 {
        lemma_join_nonempty(ws.drop_last());
    }
}

proof fn lemma_join_extend_last(ws: Seq<Seq<char>>, c: char)
    requires
        ws.len() > 0,
    ensures
        join_spaced(ws.update(ws.len() - 1, ws.last().push(c))) == join_spaced(ws).push(c),
{
    let w2 = ws.update(ws.len() - 1, ws.last().push(c));
    if ws.len() == 1 {
    } else {
        assert(w2.drop_last() =~= ws.drop_last());
        assert(join_spaced(w2) =~= join_spaced(ws).push(c));
    }
}

/// Runs of whitespace collapsed to one space, none at either end.
pub fn collapse_whitespace(s: &str) -> (r: String)
    ensures
        r@ == collapse_ws(s@),
{
    let v = chars_of(s);
    let mut out = String::new();
    let mut i: usize = 0;
    while i < v.len()
        invariant
            i <= v.len(),
            v@ == s@,
            out@ == join_spaced(words(v@.take(i as int))),
        decreases v.len() - i,
    {
        let c = v[i];
        let ghost t = v@.take(i as int);
        let ghost t1 = v@.take(i + 1);
        assert(t1.drop_last() =~= t);
        assert(t1.last() == c);
        proof {
            lemma_words_shape(t);
            lemma_join_nonempty(words(t));
        }
        if is_whitespace(c) {
        } else if i >= 1 && !is_whitespace(v[i - 1]) {
            assert(t1[t1.len() - 2] == v@[i - 1]);
            assert(t.last() == v@[i - 1]);
            proof {
                lemma_join_extend_last(words(t), c);
            }
            out.push(c);
        } else {
            if i >= 1 {
                assert(t1[t1.len() - 2] == v@[i - 1]);
            }
            let ghost before = out@;
            if !out.as_str().is_empty() {
                out.push(' ');
            }
            out.push(c);
            proof {
                let w = words(t);
                let w2 = w.push(seq![c]);
                assert(w2.drop_last() =~= w);
                if w.len() == 0 {
                    assert(out@ =~= seq![c]);
                } else {
                    assert(out@ =~= before + seq![' '] + seq![c]);
                }
            }
        }
        i += 1;
    }
    assert(v@.take(v.len() as int) =~= v@);
    out
}

// ~~~ case folding ~~~~~~~~~~~~~~~~~~~~~~~~~~~~~~~~~~~~~~~~~~~~~~~~~~~~~~~~~~~~~~

/// What `str::to_lowercase` returns for the characters `s` (Unicode case
/// mapping, the same on every machine).
pub uninterp spec fn lowercase(s: Seq<char>) -> Seq<char>;

/// Calls `str::to_lowercase`: the result is the Unicode lower-case mapping of
/// the argument, which is not stated here beyond its name.
#[verifier::external_body]
pub(crate) fn to_lower(s: &str) -> (r: String)
    ensures
        r@ == lowercase(s@),
{
    s.to_lowercase()
}

/// What `char::is_alphanumeric` says of `c` (Unicode `Alphabetic` or `N*`).
pub uninterp spec fn alphanumeric(c: char) -> bool;

/// Calls `char::is_alphanumeric`: whether `c` is a Unicode letter or number,
/// which is not stated here beyond its name.
#[verifier::external_body]
pub(crate) fn is_alphanumeric(c: char) -> (b: bool)
    ensures
        b == alphanumeric(c),
{
    c.is_alphanumeric()
}

// ~~~ substrings ~~~~~~~~~~~~~~~~~~~~~~~~~~~~~~~~~~~~~~~~~~~~~~~~~~~~~~~~~~~~~~~~

/// `pat` occurs in `s` starting at `at`.
pub open spec fn occurs_at(s: Seq<char>, at: int, pat: Seq<char>) -> bool {
    0 <= at && at + pat.len() <= s.len() && s.subrange(at, at + pat.len()) == pat
}

/// `pat` occurs somewhere in `s` (`str::contains`).
pub open spec fn has_substring(s: Seq<char>, pat: Seq<char>) -> bool {
    exists|at: int| occurs_at(s, at, pat)
}

/// Whether `pat` occurs in `s` starting at `at`; `false` past the end.
pub fn matches_at(s: &Vec<char>, at: usize, pat: &Vec<char>) -> (b: bool)
    ensures
        b == occurs_at(s@, at as int, pat@),
{
    if at > s.len() || pat.len() > s.len() - at {
        return false;
    }
    let mut k: usize = 0;
    while k < pat.len()
        invariant
            k <= pat.len(),
            at + pat.len() <= s.len(),
            forall|q: int| 0 <= q < k ==> s@[at + q] == pat@[q],
        decreases pat.len() - k,
    {
        if s[at + k] != pat[k] {
            assert(s@.subrange(at as int, at + pat.len())[k as int] != pat@[k as int]);
            return false;
        }
        k += 1;
    }
    assert(s@.subrange(at as int, at + pat.len()) =~= pat@);
    true
}

/// The first position at or after `from` where `pat` occurs.
pub fn find_from(s: &Vec<char>, from: usize, pat: &Vec<char>) -> (r: Option<usize>)
    ensures
        match r {
            Some(at) => from <= at && occurs_at(s@, at as int, pat@) && forall|q: int|
                from <= q < at ==> !occurs_at(s@, q, pat@),
            None => forall|q: int| from <= q ==> !occurs_at(s@, q, pat@),
        },
{
    if from > s.len() {
        return None;
    }
    let mut at = from;
    while at < s.len()
        invariant
            from <= at <= s.len(),
            forall|q: int| from <= q < at ==> !occurs_at(s@, q, pat@),
        decreases s.len() - at,
    {
        if matches_at(s, at, pat) {
            return Some(at);
        }
        at += 1;
    }
    if matches_at(s, at, pat) {
        return Some(at);
    }
    None
}

/// The last position where `pat` occurs (`str::rfind`).
pub fn rfind(s: &Vec<char>, pat: &Vec<char>) -> (r: Option<usize>)
    ensures
        match r {
            Some(at) => occurs_at(s@, at as int, pat@) && forall|q: int|
                at < q ==> !occurs_at(s@, q, pat@),
            None => forall|q: int| !occurs_at(s@, q, pat@),
        },
{
    if pat.len() > s.len() {
        return None;
    }
    let mut at: usize = s.len() - pat.len();
    loop
        invariant
            at <= s.len() - pat.len(),
            pat.len() <= s.len(),
            forall|q: int| at < q ==> !occurs_at(s@, q, pat@),
        decreases at,
    {
        if matches_at(s, at, pat) {
            return Some(at);
        }
        if at == 0 {
            return None;
        }
        at -= 1;
    }
}

/// Whether `pat` occurs anywhere in `s`.
pub fn contains(s: &Vec<char>, pat: &Vec<char>) -> (b: bool)
    ensures
        b == has_substring(s@, pat@),
{
    match find_from(s, 0, pat) {
        Some(at) => true,
        None => {
            assert forall|q: int| !occurs_at(s@, q, pat@) by {
                if q >= 0 {
                }
            }
            false
        },
    }
}

// ~~~ numbers ~~~~~~~~~~~~~~~~~~~~~~~~~~~~~~~~~~~~~~~~~~~~~~~~~~~~~~~~~~~~~~~~~~~

pub open spec fn digit(d: nat) -> char {
    (48 + d) as char
}

/// The decimal digits of `n`, as `format!("{n}")` writes them.
pub open spec fn decimal(n: nat) -> Seq<char>
    decreases n,
{
    if n < 10 {
        seq![digit(n)]
    } else {
        decimal(n / 10).push(digit(n % 10))
    }
}

pub(crate) fn digit_char(d: usize) -> (c: char)
    requires
        d < 10,
    ensures
        c == digit(d as nat),
{
    if d == 0 {
        '0'
    } else if d == 1 {
        '1'
    } else if d == 2 {
        '2'
    } else if d == 3 {
        '3'
    } else if d == 4 {
        '4'
    } else if d == 5 {
        '5'
    } else if d == 6 {
        '6'
    } else if d == 7 {
        '7'
    } else if d == 8 {
        '8'
    } else {
        '9'
    }
}

/// Appends the decimal digits of `n` to `s`.
pub fn push_decimal(s: &mut String, n: usize)
    ensures
        final(s)@ == old(s)@ + decimal(n as nat),
{
    push_decimal_u64(s, n as u64);
}

/// Appends the decimal digits of `n` to `s`.
pub fn push_decimal_u64(s: &mut String, n: u64)
    ensures
        final(s)@ == old(s)@ + decimal(n as nat),
    decreases n,
{
    if n < 10 {
        s.push(digit_char(n as usize));
        assert(old(s)@.push(digit(n as nat)) =~= old(s)@ + decimal(n as nat));
    } else {
        push_decimal_u64(s, n / 10);
        s.push(digit_char((n % 10) as usize));
        assert(s@ =~= old(s)@ + decimal(n as nat));
    }
}

/// The string `a` followed by `b`.
pub fn concat(a: &str, b: &str) -> (r: String)
    ensures
        r@ == a@ + b@,
{
    let mut r = String::new();
    push_all(&mut r, a);
    push_all(&mut r, b);
    assert(r@ =~= a@ + b@);
    r
}

/// Whether two strings hold the same characters.
pub fn same_text(a: &str, b: &str) -> (r: bool)
    ensures
        r == (a@ == b@),
{
    let x = chars_of(a);
    let y = chars_of(b);
    if x.len() != y.len() {
        return false;
    }
    let mut i: usize = 0;
    while i < x.len()
        invariant
            i <= x.len() == y.len(),
            x@ == a@,
            y@ == b@,
            forall|k: int| 0 <= k < i ==> x@[k] == y@[k],
        decreases x.len() - i,
    {
        if x[i] != y[i] {
            return false;
        }
        i += 1;
    }
    assert(x@ =~= y@);
    true
}

/// `s` without the `\n`s at its end.
pub open spec fn trim_nl(s: Seq<char>) -> Seq<char>
    decreases s.len(),
{
    if s.len() > 0 && s.last() == '\n' {
        trim_nl(s.drop_last())
    } else {
        s
    }
}

/// The characters of `s` without the `\n`s at its end.
pub(crate) fn trim_newlines(s: &str) -> (r: Vec<char>)
    ensures
        r@ == trim_nl(s@),
{
    let cs = chars_of(s);
    let mut n = cs.len();
    assert(cs@.take(n as int) =~= cs@);
    while n > 0 && cs[n - 1] == '\n'
        invariant
            n <= cs@.len(),
            cs@ == s@,
            trim_nl(s@) == trim_nl(cs@.take(n as int)),
        decreases n,
    {
        assert(cs@.take(n as int).drop_last() =~= cs@.take(n - 1));
        n -= 1;
    }
    let mut r: Vec<char> = Vec::new();
    let mut k: usize = 0;
    while k < n
        invariant
            k <= n <= cs@.len(),
            r@ == cs@.take(k as int),
        decreases n - k,
    {
        r.push(cs[k]);
        k += 1;
        assert(r@ =~= cs@.take(k as int));
    }
    r
}

/// What an outside editor hands back, as the field takes it: the
/// newlines at its end dropped, and nothing at all read as no change.
pub open spec fn edited_text(current: Seq<char>, result: Seq<char>) -> Seq<char> {
    if trim_nl(result).len() == 0 {
        current
    } else {
        trim_nl(result)
    }
}

pub fn edited(current: &str, result: &str) -> (r: String)
    ensures
        r@ == edited_text(current@, result@),
{
    let t = trim_newlines(result);
    if t.len() == 0 {
        string_of(&chars_of(current))
    } else {
        string_of(&t)
    }
}

} // verus!
