//! What a scaffolded item shows: which of the learner's weak spans are
//! blanked out of the answer, the answer with them blanked, and the
//! countdown shown for the next due item.

use vstd::prelude::*;
use crate::models::{Item, WeakSpan};
use crate::text::{chars_of, string_of, occurs_at, has_substring, matches_at, contains, decimal, push_decimal_u64};

verus! {

/// `s` from position `i` on, with every occurrence of `pat` (found left to
/// right, never overlapping) replaced by `rep`: what `str::replace` gives.
/// An empty `pat` replaces nothing.
pub open spec fn replaced_from(s: Seq<char>, pat: Seq<char>, rep: Seq<char>, i: int) -> Seq<char>
    decreases s.len() - i,
{
    if i < 0 || i >= s.len() {
        seq![]
    } else if pat.len() > 0 && occurs_at(s, i, pat) {
        rep + replaced_from(s, pat, rep, i + pat.len())
    } else {
        seq![s[i]] + replaced_from(s, pat, rep, i + 1)
    }
}

/// The blank that stands for a phrase: as many `▁` as the phrase has
/// characters, and at least three.
pub open spec fn bar(p: Seq<char>) -> Seq<char> {
    Seq::new(if p.len() < 3 { 3 } else { p.len() }, |k: int| '\u{2581}')
}

/// The answer with each phrase in turn replaced by its blank (empty
/// phrases are skipped).
pub open spec fn blanked(answer: Seq<char>, phrases: Seq<Seq<char>>) -> Seq<char>
    decreases phrases.len(),
{
    if phrases.len() == 0 {
        answer
    } else {
        let prev = blanked(answer, phrases.drop_last());
        let p = phrases.last();
        if p.len() == 0 {
            prev
        } else {
            replaced_from(prev, p, bar(p), 0)
        }
    }
}

fn replace_all(s: &Vec<char>, pat: &Vec<char>, rep: &Vec<char>) -> (r: Vec<char>)
    requires
        pat@.len() > 0,
    ensures
        r@ == replaced_from(s@, pat@, rep@, 0),
{
    let n = s.len();
    let mut out: Vec<char> = Vec::new();
    let mut i: usize = 0;
    while i < n
        invariant
            n == s@.len(),
            pat@.len() > 0,
            i <= n,
            out@ + replaced_from(s@, pat@, rep@, i as int) == replaced_from(s@, pat@, rep@, 0),
        decreases n - i,
    {
        if matches_at(s, i, pat) {
            let ghost before = out@;
            let mut k: usize = 0;
            while k < rep.len()
                invariant
                    k <= rep@.len(),
                    out@ == before + rep@.take(k as int),
                decreases rep@.len() - k,
            {
                out.push(rep[k]);
                k += 1;
                assert(out@ =~= before + rep@.take(k as int));
            }
            assert(rep@.take(k as int) =~= rep@);
            assert(out@ + replaced_from(s@, pat@, rep@, i + pat@.len()) =~= before + replaced_from(
                s@,
                pat@,
                rep@,
                i as int,
            ));
            i = i + pat.len();
        } else {
            let ghost before = out@;
            out.push(s[i]);
            assert(out@ + replaced_from(s@, pat@, rep@, i + 1) =~= before + replaced_from(s@, pat@, rep@, i as int));
            i = i + 1;
        }
    }
    assert(out@ + replaced_from(s@, pat@, rep@, i as int) =~= out@);
    out
}

/// The blank for a phrase of `len` characters.
fn bar_of(len: usize) -> (r: Vec<char>)
    ensures
        r@ == Seq::new(if len < 3 { 3 } else { len as nat }, |k: int| '\u{2581}'),
{
    let n = if len < 3 {
        3
    } else {
        len
    };
    let mut r: Vec<char> = Vec::new();
    let mut k: usize = 0;
    while k < n
        invariant
            k <= n,
            r@ == Seq::new(k as nat, |q: int| '\u{2581}'),
        decreases n - k,
    {
        r.push('\u{2581}');
        k += 1;
        assert(r@ =~= Seq::new(k as nat, |q: int| '\u{2581}'));
    }
    r
}

/// No character of `p` is the blank's `▁`.
pub open spec fn bar_free(p: Seq<char>) -> bool {
    forall|k: int| 0 <= k < p.len() ==> p[k] != '\u{2581}'
}

/// Where the text after replacing from `i` starts with `m` characters none
/// of which is a `▁`, those are copied from the text unchanged.
proof fn lemma_copied_window(s: Seq<char>, q: Seq<char>, i: int, m: int)
    requires
        0 <= i <= s.len(),
        0 <= m <= replaced_from(s, q, bar(q), i).len(),
        bar_free(replaced_from(s, q, bar(q), i).take(m)),
    ensures
        i + m <= s.len(),
        replaced_from(s, q, bar(q), i).take(m) == s.subrange(i, i + m),
    decreases s.len() - i,
{
    let out = replaced_from(s, q, bar(q), i);
    if m == 0 {
        assert(out.take(0) =~= s.subrange(i, i));
    } else {
        assert(i < s.len());
        if q.len() > 0 && occurs_at(s, i, q) {
            assert(out[0] == bar(q)[0]);
            assert(out.take(m)[0] == out[0]);
        } else {
            let rest = replaced_from(s, q, bar(q), i + 1);
            assert(out == seq![s[i]] + rest);
            assert(rest.take(m - 1) =~= out.take(m).drop_first());
            assert(bar_free(rest.take(m - 1))) by {
                assert forall|k: int| 0 <= k < m - 1 implies #[trigger] rest.take(m - 1)[k] != '\u{2581}' by {
                    assert(rest.take(m - 1)[k] == out.take(m)[k + 1]);
                }
            }
            lemma_copied_window(s, q, i + 1, m - 1);
            assert forall|k: int| 0 <= k < m implies #[trigger] out.take(m)[k] == s.subrange(i, i + m)[k] by {
                if k > 0 {
                    assert(out.take(m)[k] == rest.take(m - 1)[k - 1]);
                    assert(rest.take(m - 1)[k - 1] == s.subrange(i + 1, i + m)[k - 1]);
                }
            }
            assert(out.take(m) =~= s.subrange(i, i + m));
        }
    }
}

/// Replacing a phrase creates no new occurrence of a phrase without `▁`:
/// an occurrence in the result is one in the text.
proof fn lemma_no_new_occurrence(s: Seq<char>, q: Seq<char>, p: Seq<char>, i: int, at: int)
    requires
        0 <= i <= s.len(),
        p.len() > 0,
        bar_free(p),
        occurs_at(replaced_from(s, q, bar(q), i), at, p),
    ensures
        has_substring(s, p),
    decreases s.len() - i,
{
    let out = replaced_from(s, q, bar(q), i);
    assert(i < s.len());
    assert(out.subrange(at, at + p.len()) == p);
    assert(out[at] == p[0]);
    if q.len() > 0 && occurs_at(s, i, q) {
        let r = bar(q);
        let rest = replaced_from(s, q, r, i + q.len());
        assert(out == r + rest);
        if at < r.len() {
            assert(out[at] == r[at]);
        } else {
            assert(rest.subrange(at - r.len(), at - r.len() + p.len()) =~= out.subrange(at, at + p.len()));
            lemma_no_new_occurrence(s, q, p, i + q.len(), at - r.len());
        }
    } else {
        let rest = replaced_from(s, q, bar(q), i + 1);
        assert(out == seq![s[i]] + rest);
        if at == 0 {
            assert(out.take(p.len() as int) =~= p);
            lemma_copied_window(s, q, i, p.len() as int);
            assert(occurs_at(s, i, p));
        } else {
            assert(rest.subrange(at - 1, at - 1 + p.len()) =~= out.subrange(at, at + p.len()));
            lemma_no_new_occurrence(s, q, p, i + 1, at - 1);
        }
    }
}

/// After replacing a phrase without `▁`, it occurs nowhere in the result.
proof fn lemma_replaced_gone(s: Seq<char>, q: Seq<char>, i: int, at: int)
    requires
        0 <= i <= s.len(),
        q.len() > 0,
        bar_free(q),
    ensures
        !occurs_at(replaced_from(s, q, bar(q), i), at, q),
    decreases s.len() - i,
{
    let out = replaced_from(s, q, bar(q), i);
    if occurs_at(out, at, q) {
        assert(i < s.len());
        assert(out.subrange(at, at + q.len()) == q);
        assert(out[at] == q[0]);
        if occurs_at(s, i, q) {
            let r = bar(q);
            let rest = replaced_from(s, q, r, i + q.len());
            assert(out == r + rest);
            if at < r.len() {
                assert(out[at] == r[at]);
            } else {
                assert(rest.subrange(at - r.len(), at - r.len() + q.len()) =~= out.subrange(at, at + q.len()));
                lemma_replaced_gone(s, q, i + q.len(), at - r.len());
            }
        } else {
            let rest = replaced_from(s, q, bar(q), i + 1);
            assert(out == seq![s[i]] + rest);
            if at == 0 {
                assert(out.take(q.len() as int) =~= q);
                lemma_copied_window(s, q, i, q.len() as int);
            } else {
                assert(rest.subrange(at - 1, at - 1 + q.len()) =~= out.subrange(at, at + q.len()));
                lemma_replaced_gone(s, q, i + 1, at - 1);
            }
        }
    }
}

/// Replacing a phrase that does not occur changes nothing.
proof fn lemma_replace_absent(s: Seq<char>, q: Seq<char>, i: int)
    requires
        0 <= i <= s.len(),
        !has_substring(s, q),
    ensures
        replaced_from(s, q, bar(q), i) == s.skip(i),
    decreases s.len() - i,
{
    if i < s.len() {
        assert(!occurs_at(s, i, q));
        lemma_replace_absent(s, q, i + 1);
        assert(seq![s[i]] + s.skip(i + 1) =~= s.skip(i));
    } else {
        assert(s.skip(i) =~= Seq::<char>::empty());
    }
}

/// A phrase without `▁` that is not in the answer is in no blanked text of
/// it either.
proof fn lemma_blanked_keeps_absent(answer: Seq<char>, phrases: Seq<Seq<char>>, p: Seq<char>)
    requires
        p.len() > 0,
        bar_free(p),
        !has_substring(answer, p),
    ensures
        !has_substring(blanked(answer, phrases), p),
    decreases phrases.len(),
{
    if phrases.len() > 0 {
        lemma_blanked_keeps_absent(answer, phrases.drop_last(), p);
        let prev = blanked(answer, phrases.drop_last());
        let q = phrases.last();
        if q.len() > 0 && has_substring(blanked(answer, phrases), p) {
            let at = choose|at: int| occurs_at(replaced_from(prev, q, bar(q), 0), at, p);
            lemma_no_new_occurrence(prev, q, p, 0, at);
        }
    }
}

/// Every phrase is blanked on top of the blanks made for the phrases before
/// it: blanking one more phrase replaces it in what the earlier phrases
/// left, so earlier blanks are kept.
pub proof fn lemma_blank_one_more(answer: Seq<char>, phrases: Seq<Seq<char>>, p: Seq<char>)
    requires
        p.len() > 0,
    ensures
        blanked(answer, phrases.push(p)) == replaced_from(blanked(answer, phrases), p, bar(p), 0),
{
    assert(phrases.push(p).drop_last() =~= phrases);
}

/// A phrase that is not in the answer (and holds no `▁`) blanks nothing:
/// adding it to the phrases leaves the blanked text as it was.
pub proof fn lemma_blank_absent_phrase(answer: Seq<char>, phrases: Seq<Seq<char>>, p: Seq<char>)
    requires
        p.len() > 0,
        bar_free(p),
        !has_substring(answer, p),
    ensures
        blanked(answer, phrases.push(p)) == blanked(answer, phrases),
{
    assert(phrases.push(p).drop_last() =~= phrases);
    lemma_blanked_keeps_absent(answer, phrases, p);
    lemma_replace_absent(blanked(answer, phrases), p, 0);
    assert(blanked(answer, phrases).skip(0) =~= blanked(answer, phrases));
}

/// No phrase that was selected (non-empty, holding no `▁`) is left
/// anywhere in the blanked text.
pub proof fn lemma_blanked_hides_every_phrase(answer: Seq<char>, phrases: Seq<Seq<char>>, j: int)
    requires
        0 <= j < phrases.len(),
        phrases[j].len() > 0,
        bar_free(phrases[j]),
    ensures
        !has_substring(blanked(answer, phrases), phrases[j]),
    decreases phrases.len(),
{
    let q = phrases.last();
    let prev = blanked(answer, phrases.drop_last());
    let p = phrases[j];
    if j == phrases.len() - 1 {
        if has_substring(blanked(answer, phrases), p) {
            let at = choose|at: int| occurs_at(replaced_from(prev, p, bar(p), 0), at, p);
            lemma_replaced_gone(prev, p, 0, at);
        }
    } else {
        assert(phrases.drop_last()[j] == p);
        lemma_blanked_hides_every_phrase(answer, phrases.drop_last(), j);
        if q.len() > 0 && has_substring(blanked(answer, phrases), p) {
            let at = choose|at: int| occurs_at(replaced_from(prev, q, bar(q), 0), at, p);
            lemma_no_new_occurrence(prev, q, p, 0, at);
        }
    }
}

/// Before the reveal: the answer with each phrase replaced by a blank as
/// wide as the phrase (at least three cells).
pub fn blank_text(answer: &str, phrases: &[String]) -> (r: String)
    ensures
        r@ == blanked(answer@, phrases@.map_values(|p: String| p@)),
{
    let ghost ps = phrases@.map_values(|p: String| p@);
    let mut out = chars_of(answer);
    let mut k: usize = 0;
    while k < phrases.len()
        invariant
            ps == phrases@.map_values(|p: String| p@),
            k <= phrases@.len(),
            out@ == blanked(answer@, ps.take(k as int)),
        decreases phrases@.len() - k,
    {
        assert(ps.take(k + 1).drop_last() =~= ps.take(k as int));
        let p = chars_of(phrases[k].as_str());
        if p.len() > 0 {
            let b = bar_of(p.len());
            out = replace_all(&out, &p, &b);
        }
        k += 1;
    }
    assert(ps.take(k as int) =~= ps);
    string_of(&out)
}

// ~~~ choosing the phrases ~~~~~~~~~~~~~~~~~~~~~~~~~~~~~~~~~~~~~~~~~~~~~~~~~~~~~~~

/// Ordering positions by two keys, both larger first, then by position:
/// `i` comes before `j`.
pub open spec fn ranks_before(k1: Seq<u64>, k2: Seq<u64>, i: int, j: int) -> bool {
    ||| k1[i] > k1[j]
    ||| (k1[i] == k1[j] && k2[i] > k2[j])
    ||| (k1[i] == k1[j] && k2[i] == k2[j] && i < j)
}

/// `r` lists the positions of `idx` in the order above.
pub open spec fn ranked(k1: Seq<u64>, k2: Seq<u64>, idx: Seq<usize>, r: Seq<usize>) -> bool {
    &&& r.len() == idx.len()
    &&& forall|x: usize| r.contains(x) <==> idx.contains(x)
    &&& forall|a: int, b: int| 0 <= a < b < r.len() ==> ranks_before(k1, k2, #[trigger] r[a] as int, #[trigger] r[b] as int)
}

/// Sorts distinct positions by the two keys (see `ranks_before`).
fn rank(k1: &Vec<u64>, k2: &Vec<u64>, idx: &Vec<usize>) -> (r: Vec<usize>)
    requires
        k1@.len() == k2@.len(),
        forall|a: int| 0 <= a < idx@.len() ==> #[trigger] idx@[a] < k1@.len(),
        forall|a: int, b: int| 0 <= a < b < idx@.len() ==> #[trigger] idx@[a] != #[trigger] idx@[b],
    ensures
        ranked(k1@, k2@, idx@, r@),
        forall|a: int| 0 <= a < r@.len() ==> #[trigger] r@[a] < k1@.len(),
{
    let mut r: Vec<usize> = Vec::new();
    let mut k: usize = 0;
    while k < idx.len()
        invariant
            k1@.len() == k2@.len(),
            forall|a: int| 0 <= a < idx@.len() ==> #[trigger] idx@[a] < k1@.len(),
            forall|a: int, b: int| 0 <= a < b < idx@.len() ==> #[trigger] idx@[a] != #[trigger] idx@[b],
            k <= idx@.len(),
            r@.len() == k,
            forall|x: usize| r@.contains(x) <==> idx@.take(k as int).contains(x),
            forall|a: int, b: int|
                0 <= a < b < r@.len() ==> ranks_before(k1@, k2@, #[trigger] r@[a] as int, #[trigger] r@[b] as int),
            forall|a: int| 0 <= a < r@.len() ==> #[trigger] r@[a] < k1@.len(),
        decreases idx@.len() - k,
    {
        let x = idx[k];
        let mut p: usize = 0;
        while p < r.len() && !(k1[x] > k1[r[p]] || (k1[x] == k1[r[p]] && k2[x] > k2[r[p]]) || (k1[x] == k1[r[p]]
            && k2[x] == k2[r[p]] && x < r[p]))
            invariant
                p <= r@.len(),
                x < k1@.len(),
                k1@.len() == k2@.len(),
                forall|a: int| 0 <= a < r@.len() ==> #[trigger] r@[a] < k1@.len(),
                forall|a: int| 0 <= a < p ==> !ranks_before(k1@, k2@, x as int, #[trigger] r@[a] as int),
            decreases r@.len() - p,
        {
            p += 1;
        }
        proof {
            assert(!idx@.take(k as int).contains(x)) by {
                if idx@.take(k as int).contains(x) {
                    let j = choose|j: int| 0 <= j < k && idx@.take(k as int)[j] == x;
                    assert(idx@[j] == idx@[k as int]);
                }
            }
            assert(!r@.contains(x));
        }
        let ghost old_r = r@;
        r.insert(p, x);
        proof {
            assert(idx@.take(k + 1) =~= idx@.take(k as int).push(x));
            assert forall|y: usize| r@.contains(y) <==> idx@.take(k + 1).contains(y) by {
                if r@.contains(y) {
                    let j = choose|j: int| 0 <= j < r@.len() && r@[j] == y;
                    if j < p {
                        assert(old_r[j] == y);
                        assert(old_r.contains(y));
                    } else if j > p {
                        assert(old_r[j - 1] == y);
                        assert(old_r.contains(y));
                    }
                    if y != x {
                        assert(old_r.contains(y));
                        assert(idx@.take(k as int).contains(y));
                        let j2 = choose|j2: int| 0 <= j2 < k && idx@.take(k as int)[j2] == y;
                        assert(idx@.take(k + 1)[j2] == y);
                    } else {
                        assert(idx@.take(k + 1)[k as int] == y);
                    }
                }
                if idx@.take(k + 1).contains(y) && y != x {
                    assert(idx@.take(k as int).contains(y));
                    assert(old_r.contains(y));
                    let j = choose|j: int| 0 <= j < old_r.len() && old_r[j] == y;
                    if j < p {
                        assert(r@[j] == y);
                    } else {
                        assert(r@[j + 1] == y);
                    }
                }
                if y == x {
                    assert(r@[p as int] == x);
                }
            }
            assert forall|a: int, b: int| 0 <= a < b < r@.len() implies ranks_before(
                k1@,
                k2@,
                #[trigger] r@[a] as int,
                #[trigger] r@[b] as int,
            ) by {
                if b < p {
                    assert(r@[a] == old_r[a] && r@[b] == old_r[b]);
                } else if b == p {
                    assert(r@[a] == old_r[a]);
                    assert(!ranks_before(k1@, k2@, x as int, old_r[a] as int));
                    assert(old_r[a] != x);
                } else if a < p {
                    assert(r@[a] == old_r[a] && r@[b] == old_r[b - 1]);
                } else if a == p {
                    assert(r@[b] == old_r[b - 1]);
                    if p < old_r.len() {
                        assert(ranks_before(k1@, k2@, x as int, old_r[p as int] as int));
                        if b - 1 > p {
                            assert(ranks_before(k1@, k2@, old_r[p as int] as int, old_r[b - 1] as int));
                        }
                    }
                } else {
                    assert(r@[a] == old_r[a - 1] && r@[b] == old_r[b - 1]);
                }
            }
        }
        k += 1;
    }
    assert(idx@.take(k as int) =~= idx@);
    r
}

/// The phrases of the pool that occur in the answer, by position.
pub open spec fn cloze_candidates(answer: Seq<char>, spans: Seq<WeakSpan>) -> Seq<usize> {
    Seq::new(spans.len(), |k: int| k as usize).filter(|k: usize| has_substring(answer, spans[k as int].phrase@))
}

/// `sel` (positions in `spans`) is the choice of phrases to blank: up to
/// three of the phrases that occur in the answer, the heaviest ones (on a
/// tie, the earlier one), listed longest first (on a tie, heavier first,
/// then earlier first).
pub open spec fn is_cloze_choice(answer: Seq<char>, spans: Seq<WeakSpan>, sel: Seq<usize>) -> bool {
    let cands = cloze_candidates(answer, spans);
    let w = spans.map_values(|s: WeakSpan| s.weight as u64);
    let zero = Seq::new(spans.len(), |k: int| 0u64);
    let len = spans.map_values(|s: WeakSpan| s.phrase@.len() as u64);
    &&& sel.len() == if cands.len() < 3 { cands.len() } else { 3 }
    &&& forall|a: int| 0 <= a < sel.len() ==> cands.contains(#[trigger] sel[a])
    &&& forall|a: int, c: usize|
        #![trigger sel[a], cands.contains(c)]
        0 <= a < sel.len() && cands.contains(c) && !sel.contains(c) ==> ranks_before(w, zero, sel[a] as int, c as int)
    &&& forall|a: int, b: int| 0 <= a < b < sel.len() ==> ranks_before(len, w, #[trigger] sel[a] as int, #[trigger] sel[b] as int)
}

fn char_count(s: &String) -> (n: usize)
    ensures
        n == s@.len(),
{
    chars_of(s.as_str()).len()
}

/// The positions of the phrases to blank (see `is_cloze_choice`).
pub fn cloze_choice(answer: &str, spans: &Vec<WeakSpan>) -> (sel: Vec<usize>)
    ensures
        is_cloze_choice(answer@, spans@, sel@),
        forall|a: int| 0 <= a < sel@.len() ==> #[trigger] sel@[a] < spans@.len(),
{
    let ghost pred = |k: usize| has_substring(answer@, spans@[k as int].phrase@);
    let ghost all = Seq::new(spans@.len(), |k: int| k as usize);
    let text = chars_of(answer);
    let mut cands: Vec<usize> = Vec::new();
    let mut w: Vec<u64> = Vec::new();
    let mut zero: Vec<u64> = Vec::new();
    let mut len: Vec<u64> = Vec::new();
    let mut k: usize = 0;
    while k < spans.len()
        invariant
            k <= spans@.len(),
            text@ == answer@,
            pred == (|k: usize| has_substring(answer@, spans@[k as int].phrase@)),
            all == Seq::new(spans@.len(), |k: int| k as usize),
            cands@ == all.take(k as int).filter(pred),
            forall|a: int| 0 <= a < cands@.len() ==> #[trigger] cands@[a] < k,
            forall|a: int, b: int| 0 <= a < b < cands@.len() ==> #[trigger] cands@[a] < #[trigger] cands@[b],
            w@ == spans@.take(k as int).map_values(|s: WeakSpan| s.weight as u64),
            zero@ == Seq::new(k as nat, |q: int| 0u64),
            len@ == spans@.take(k as int).map_values(|s: WeakSpan| s.phrase@.len() as u64),
        decreases spans@.len() - k,
    {
        proof {
            assert(all.take(k + 1) =~= all.take(k as int).push(k));
            all.take(k as int).lemma_filter_push(k, pred);
        }
        let p = chars_of(spans[k].phrase.as_str());
        if contains(&text, &p) {
            cands.push(k);
        }
        w.push(spans[k].weight as u64);
        zero.push(0);
        len.push(char_count(&spans[k].phrase) as u64);
        proof {
            assert(w@ =~= spans@.take(k + 1).map_values(|s: WeakSpan| s.weight as u64));
            assert(zero@ =~= Seq::new((k + 1) as nat, |q: int| 0u64));
            assert(len@ =~= spans@.take(k + 1).map_values(|s: WeakSpan| s.phrase@.len() as u64));
        }
        k += 1;
    }
    proof {
        assert(all.take(k as int) =~= all);
        assert(spans@.take(k as int) =~= spans@);
    }
    let by_weight = rank(&w, &zero, &cands);
    let m = if by_weight.len() < 3 {
        by_weight.len()
    } else {
        3
    };
    let mut top: Vec<usize> = Vec::new();
    let mut q: usize = 0;
    while q < m
        invariant
            q <= m <= by_weight@.len(),
            top@ == by_weight@.take(q as int),
        decreases m - q,
    {
        top.push(by_weight[q]);
        q += 1;
        assert(top@ =~= by_weight@.take(q as int));
    }
    proof {
        assert forall|a: int, b: int| 0 <= a < b < top@.len() implies #[trigger] top@[a] != #[trigger] top@[b] by {
            assert(ranks_before(w@, zero@, by_weight@[a] as int, by_weight@[b] as int));
        }
    }
    let sel = rank(&len, &w, &top);
    proof {
        let cs = cloze_candidates(answer@, spans@);
        assert(cs == cands@);
        assert forall|a: int| 0 <= a < sel@.len() implies cs.contains(#[trigger] sel@[a]) by {
            assert(top@.contains(sel@[a]));
            let j = choose|j: int| 0 <= j < top@.len() && top@[j] == sel@[a];
            assert(by_weight@.contains(by_weight@[j]));
        }
        assert forall|a: int, c: usize|
            #![trigger sel@[a], cs.contains(c)]
            0 <= a < sel@.len() && cs.contains(c) && !sel@.contains(c) implies ranks_before(
            w@,
            zero@,
            sel@[a] as int,
            c as int,
        ) by {
            assert(top@.contains(sel@[a]));
            let j = choose|j: int| 0 <= j < top@.len() && top@[j] == sel@[a];
            assert(by_weight@.contains(c));
            let jc = choose|jc: int| 0 <= jc < by_weight@.len() && by_weight@[jc] == c;
            if jc < m {
                assert(top@[jc] == c);
                assert(top@.contains(c));
            }
            assert(jc >= m);
            assert(j < jc);
        }
    }
    sel
}

/// The phrases to blank for a scaffolded item (see `is_cloze_choice`).
pub fn select_cloze_phrases(item: &Item) -> (r: Vec<String>)
    ensures
        exists|sel: Seq<usize>|
            is_cloze_choice(item.answer@, item.weak_spans@, sel) && r@.len() == sel.len() && forall|a: int|
                0 <= a < sel.len() ==> (#[trigger] r@[a])@ == item.weak_spans@[sel[a] as int].phrase@,
{
    let sel = cloze_choice(item.answer.as_str(), &item.weak_spans);
    let mut r: Vec<String> = Vec::new();
    let mut k: usize = 0;
    while k < sel.len()
        invariant
            k <= sel@.len(),
            forall|a: int| 0 <= a < sel@.len() ==> #[trigger] sel@[a] < item.weak_spans@.len(),
            r@.len() == k,
            forall|a: int| 0 <= a < k ==> (#[trigger] r@[a])@ == item.weak_spans@[sel@[a] as int].phrase@,
        decreases sel@.len() - k,
    {
        r.push(item.weak_spans[sel[k]].phrase.clone());
        k += 1;
    }
    r
}

// ~~~ the countdown ~~~~~~~~~~~~~~~~~~~~~~~~~~~~~~~~~~~~~~~~~~~~~~~~~~~~~~~~~~~~~~

/// How long until something falls due, `secs` seconds away: "now" when it
/// is not ahead; else days and hours ("4d 2h", or "4d" on the hour), hours
/// and minutes ("3h 15m", or "3h"), or minutes ("45m", never less than
/// "1m").
pub open spec fn countdown(secs: int) -> Seq<char> {
    let days = secs / 86400;
    let hours = (secs % 86400) / 3600;
    let mins = (secs % 3600) / 60;
    if secs <= 0 {
        seq!['n', 'o', 'w']
    } else if days >= 1 && hours > 0 {
        decimal(days as nat) + seq!['d', ' '] + decimal(hours as nat) + seq!['h']
    } else if days >= 1 {
        decimal(days as nat) + seq!['d']
    } else if hours >= 1 && mins > 0 {
        decimal(hours as nat) + seq!['h', ' '] + decimal(mins as nat) + seq!['m']
    } else if hours >= 1 {
        decimal(hours as nat) + seq!['h']
    } else {
        decimal(if mins < 1 { 1 } else { mins as nat }) + seq!['m']
    }
}

/// The readable countdown to a due time `secs` seconds away (see
/// `countdown`).
pub fn time_until(secs: i64) -> (r: String)
    ensures
        r@ == countdown(secs as int),
{
    let mut r = String::new();
    if secs <= 0 {
        r.push('n');
        r.push('o');
        r.push('w');
        assert(r@ =~= seq!['n', 'o', 'w']);
        return r;
    }
    let days = secs / 86400;
    let hours = (secs % 86400) / 3600;
    let mins = (secs % 3600) / 60;
    if days >= 1 && hours > 0 {
        push_decimal_u64(&mut r, days as u64);
        r.push('d');
        r.push(' ');
        push_decimal_u64(&mut r, hours as u64);
        r.push('h');
    } else if days >= 1 {
        push_decimal_u64(&mut r, days as u64);
        r.push('d');
    } else if hours >= 1 && mins > 0 {
        push_decimal_u64(&mut r, hours as u64);
        r.push('h');
        r.push(' ');
        push_decimal_u64(&mut r, mins as u64);
        r.push('m');
    } else if hours >= 1 {
        push_decimal_u64(&mut r, hours as u64);
        r.push('h');
    } else {
        push_decimal_u64(&mut r, if mins < 1 {
            1
        } else {
            mins as u64
        });
        r.push('m');
    }
    assert(r@ =~= countdown(secs as int));
    r
}

// ~~~ marking the tested phrases after the reveal ~~~~~~~~~~~~~~~~~~~~~~~~~~~~~~~~

/// The lines of `s` from `start` on (`i` scans for the line end), as
/// `str::lines` gives them: split after each `\n`, a `\r` right before it
/// dropped, and no empty last line after a final `\n`.
pub open spec fn lines_from(s: Seq<char>, start: int, i: int) -> Seq<Seq<char>>
    decreases s.len() - i,
{
    if i < start || start < 0 || i >= s.len() {
        if 0 <= start < s.len() {
            seq![s.subrange(start, s.len() as int)]
        } else {
            seq![]
        }
    } else if s[i] == '\n' {
        let line = s.subrange(start, i);
        seq![if line.len() > 0 && line.last() == '\r' { line.drop_last() } else { line }] + lines_from(s, i + 1, i + 1)
    } else {
        lines_from(s, start, i + 1)
    }
}

/// No line that `lines_from` gives holds a `\n`, as long as none stands
/// between `start` and `i`.
pub proof fn lemma_lines_without_newline(s: Seq<char>, start: int, i: int)
    requires
        0 <= start <= i,
        forall|j: int| start <= j < i && j < s.len() ==> s[j] != '\n',
    ensures
        forall|k: int, j: int|
            0 <= k < lines_from(s, start, i).len() && 0 <= j < lines_from(s, start, i)[k].len()
                ==> #[trigger] lines_from(s, start, i)[k][j] != '\n',
    decreases s.len() - i,
{
    if i >= s.len() {
        if start < s.len() {
            let line = s.subrange(start, s.len() as int);
            assert(lines_from(s, start, i) == seq![line]);
            assert forall|k: int, j: int|
                0 <= k < lines_from(s, start, i).len() && 0 <= j < lines_from(s, start, i)[k].len()
                    implies #[trigger] lines_from(s, start, i)[k][j] != '\n' by {
                assert(lines_from(s, start, i)[k] == line);
                assert(line[j] == s[start + j]);
            }
        }
    } else if s[i] == '\n' {
        lemma_lines_without_newline(s, i + 1, i + 1);
        let line = s.subrange(start, i);
        let head = if line.len() > 0 && line.last() == '\r' {
            line.drop_last()
        } else {
            line
        };
        let rest = lines_from(s, i + 1, i + 1);
        assert(lines_from(s, start, i) == seq![head] + rest);
        assert forall|k: int, j: int|
            0 <= k < lines_from(s, start, i).len() && 0 <= j < lines_from(s, start, i)[k].len()
                implies #[trigger] lines_from(s, start, i)[k][j] != '\n' by {
            if k == 0 {
                assert(lines_from(s, start, i)[k] == head);
                assert(head[j] == s[start + j]);
            } else {
                assert(lines_from(s, start, i)[k] == rest[k - 1]);
            }
        }
    } else {
        lemma_lines_without_newline(s, start, i + 1);
        assert(lines_from(s, start, i) == lines_from(s, start, i + 1));
    }
}

/// The pieces of `s` from `i` on when `pat` is marked (`start` begins the
/// unmarked run being scanned): each occurrence, found left to right and
/// never overlapping, marked, and the text between occurrences unmarked,
/// left out where it is empty.
pub open spec fn pieces_from(s: Seq<char>, pat: Seq<char>, start: int, i: int) -> Seq<(Seq<char>, bool)>
    decreases s.len() - i,
{
    if i < start || start < 0 || i >= s.len() {
        if 0 <= start < s.len() {
            seq![(s.subrange(start, s.len() as int), false)]
        } else {
            seq![]
        }
    } else if pat.len() > 0 && occurs_at(s, i, pat) {
        (if start < i {
            seq![(s.subrange(start, i), false)]
        } else {
            seq![]
        }) + seq![(pat, true)] + pieces_from(s, pat, i + pat.len(), i + pat.len())
    } else {
        pieces_from(s, pat, start, i + 1)
    }
}

/// One marking pass: marked pieces stay, unmarked ones are split at the
/// occurrences of `pat`.
pub open spec fn marked_pass(segs: Seq<(Seq<char>, bool)>, pat: Seq<char>) -> Seq<(Seq<char>, bool)>
    decreases segs.len(),
{
    if segs.len() == 0 {
        seq![]
    } else {
        marked_pass(segs.drop_last(), pat) + if segs.last().1 {
            seq![segs.last()]
        } else {
            pieces_from(segs.last().0, pat, 0, 0)
        }
    }
}

/// A line's pieces once every (non-empty) phrase in turn has been marked.
pub open spec fn line_pieces(line: Seq<char>, phrases: Seq<Seq<char>>) -> Seq<(Seq<char>, bool)>
    decreases phrases.len(),
{
    if phrases.len() == 0 {
        seq![(line, false)]
    } else {
        let prev = line_pieces(line, phrases.drop_last());
        if phrases.last().len() == 0 {
            prev
        } else {
            marked_pass(prev, phrases.last())
        }
    }
}

/// A piece as plain values.
pub open spec fn piece_view(p: (String, bool)) -> (Seq<char>, bool) {
    (p.0@, p.1)
}

/// The pieces as plain values.
pub open spec fn pieces_view(v: Seq<(String, bool)>) -> Seq<(Seq<char>, bool)> {
    v.map_values(|p: (String, bool)| piece_view(p))
}

pub(crate) fn copy_range(s: &Vec<char>, a: usize, b: usize) -> (r: String)
    requires
        a <= b <= s@.len(),
    ensures
        r@ == s@.subrange(a as int, b as int),
{
    let mut v: Vec<char> = Vec::new();
    let mut k = a;
    while k < b
        invariant
            a <= k <= b <= s@.len(),
            v@ == s@.subrange(a as int, k as int),
        decreases b - k,
    {
        v.push(s[k]);
        k += 1;
        assert(v@ =~= s@.subrange(a as int, k as int));
    }
    string_of(&v)
}

/// Splits one unmarked text at the occurrences of `pat`, appending the
/// pieces to `out`.
fn split_marked(s: &String, pat: &Vec<char>, out: &mut Vec<(String, bool)>)
    requires
        pat@.len() > 0,
    ensures
        pieces_view(final(out)@) == pieces_view(old(out)@) + pieces_from(s@, pat@, 0, 0),
{
    let cs = chars_of(s.as_str());
    let n = cs.len();
    let ghost base = pieces_view(out@);
    let mut start: usize = 0;
    let mut i: usize = 0;
    while i < n
        invariant
            n == cs@.len(),
            cs@ == s@,
            pat@.len() > 0,
            start <= i <= n,
            base + pieces_from(s@, pat@, 0, 0) == pieces_view(out@) + pieces_from(s@, pat@, start as int, i as int),
        decreases n - i,
    {
        if matches_at(&cs, i, pat) {
            let ghost before = pieces_view(out@);
            if start < i {
                let t = copy_range(&cs, start, i);
                out.push((t, false));
            }
            let p = string_of(pat);
            out.push((p, true));
            proof {
                let tail = pieces_from(s@, pat@, i + pat@.len(), i + pat@.len());
                let head = if start < i {
                    seq![(s@.subrange(start as int, i as int), false)]
                } else {
                    seq![]
                };
                assert(pieces_view(out@) =~= before + head + seq![(pat@, true)]);
                assert(pieces_from(s@, pat@, start as int, i as int) == head + seq![(pat@, true)] + tail);
                assert(pieces_view(out@) + tail =~= before + (head + seq![(pat@, true)] + tail));
            }
            i = i + pat.len();
            start = i;
        } else {
            i = i + 1;
        }
    }
    if start < n {
        let ghost before = pieces_view(out@);
        let t = copy_range(&cs, start, n);
        out.push((t, false));
        assert(pieces_view(out@) =~= before + seq![(s@.subrange(start as int, n as int), false)]);
    } else {
        assert(pieces_view(out@) + seq![] =~= pieces_view(out@));
    }
}

/// One marking pass over the pieces (see `marked_pass`).
fn mark_pass(segs: Vec<(String, bool)>, pat: &Vec<char>) -> (r: Vec<(String, bool)>)
    requires
        pat@.len() > 0,
    ensures
        pieces_view(r@) == marked_pass(pieces_view(segs@), pat@),
{
    let ghost sv = pieces_view(segs@);
    let mut out: Vec<(String, bool)> = Vec::new();
    let mut k: usize = 0;
    while k < segs.len()
        invariant
            pat@.len() > 0,
            sv == pieces_view(segs@),
            k <= segs@.len(),
            pieces_view(out@) == marked_pass(sv.take(k as int), pat@),
        decreases segs@.len() - k,
    {
        assert(sv.take(k + 1).drop_last() =~= sv.take(k as int));
        assert(sv.take(k + 1).last() == piece_view(segs@[k as int]));
        let (text, marked) = &segs[k];
        if *marked {
            let ghost before = pieces_view(out@);
            out.push((text.clone(), true));
            assert(pieces_view(out@) =~= before + seq![piece_view(segs@[k as int])]);
        } else {
            split_marked(text, pat, &mut out);
        }
        k += 1;
    }
    assert(sv.take(k as int) =~= sv);
    out
}

/// The lines of a text as `str::lines` gives them.
pub(crate) fn text_lines(s: &str) -> (r: Vec<String>)
    ensures
        r@.map_values(|l: String| l@) == lines_from(s@, 0, 0),
{
    let cs = chars_of(s);
    let n = cs.len();
    let ghost ls = lines_from(s@, 0, 0);
    let mut lines: Vec<String> = Vec::new();
    let mut start: usize = 0;
    let mut i: usize = 0;
    while i < n
        invariant
            n == cs@.len(),
            cs@ == s@,
            ls == lines_from(s@, 0, 0),
            start <= i <= n,
            ls == lines@.map_values(|l: String| l@) + lines_from(s@, start as int, i as int),
        decreases n - i,
    {
        if cs[i] == '\n' {
            let ghost before = lines@.map_values(|l: String| l@);
            let mut end = i;
            if end > start && cs[end - 1] == '\r' {
                end = end - 1;
            }
            let l = copy_range(&cs, start, end);
            lines.push(l);
            proof {
                let line = s@.subrange(start as int, i as int);
                if line.len() > 0 && line.last() == '\r' {
                    assert(line.drop_last() =~= s@.subrange(start as int, end as int));
                } else {
                    assert(line =~= s@.subrange(start as int, end as int));
                }
                assert(lines@.map_values(|l: String| l@) =~= before.push(l@));
                assert(lines_from(s@, start as int, i as int) == seq![l@] + lines_from(s@, i + 1, i + 1));
                assert(lines@.map_values(|l: String| l@) + lines_from(s@, i + 1, i + 1) =~= before + lines_from(
                    s@,
                    start as int,
                    i as int,
                ));
            }
            i = i + 1;
            start = i;
        } else {
            i = i + 1;
        }
    }
    if start < n {
        let ghost before = lines@.map_values(|l: String| l@);
        let l = copy_range(&cs, start, n);
        lines.push(l);
        assert(lines@.map_values(|l: String| l@) =~= before.push(l@));
    } else {
        assert(lines@.map_values(|l: String| l@) + seq![] =~= lines@.map_values(|l: String| l@));
    }
    lines
}

/// After the reveal: for each line of the answer, its pieces with every
/// tested phrase marked, so the reader can hold their recall against
/// exactly what was asked.
pub fn highlight_pieces(answer: &str, phrases: &[String]) -> (r: Vec<Vec<(String, bool)>>)
    ensures
        r@.len() == lines_from(answer@, 0, 0).len(),
        forall|k: int|
            0 <= k < r@.len() ==> pieces_view((#[trigger] r@[k])@) == line_pieces(
                lines_from(answer@, 0, 0)[k],
                phrases@.map_values(|p: String| p@),
            ),
{
    let ghost ps = phrases@.map_values(|p: String| p@);
    let ghost ls = lines_from(answer@, 0, 0);
    let lines = text_lines(answer);
    let ghost lv = lines@.map_values(|l: String| l@);
    assert(lv == ls);
    let mut r: Vec<Vec<(String, bool)>> = Vec::new();
    let mut k: usize = 0;
    while k < lines.len()
        invariant
            ps == phrases@.map_values(|p: String| p@),
            lv == lines@.map_values(|l: String| l@),
            lv == ls,
            k <= lines@.len(),
            r@.len() == k,
            forall|q: int| 0 <= q < k ==> pieces_view((#[trigger] r@[q])@) == line_pieces(ls[q], ps),
        decreases lines@.len() - k,
    {
        let mut segs: Vec<(String, bool)> = Vec::new();
        segs.push((lines[k].clone(), false));
        assert(pieces_view(segs@) =~= seq![(ls[k as int], false)]);
        let mut j: usize = 0;
        while j < phrases.len()
            invariant
                ps == phrases@.map_values(|p: String| p@),
                lv == lines@.map_values(|l: String| l@),
                lv == ls,
                k < lines@.len(),
                j <= phrases@.len(),
                pieces_view(segs@) == line_pieces(ls[k as int], ps.take(j as int)),
            decreases phrases@.len() - j,
        {
            assert(ps.take(j + 1).drop_last() =~= ps.take(j as int));
            let p = chars_of(phrases[j].as_str());
            if p.len() > 0 {
                segs = mark_pass(segs, &p);
            }
            j += 1;
        }
        assert(ps.take(j as int) =~= ps);
        r.push(segs);
        k += 1;
    }
    r
}

} // verus!
