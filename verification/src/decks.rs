//! The deck list: every deck that holds cards, together with every deck
//! above one (`A::B::C` lists `A` and `A::B` too), each once, in string
//! order.

use vstd::prelude::*;
use crate::text::chars_of;

verus! {

/// String order: character by character by code point, a proper prefix
/// first.
pub open spec fn lex_lt(a: Seq<char>, b: Seq<char>) -> bool
    decreases a.len(),
{
    if a.len() == 0 {
        b.len() > 0
    } else if b.len() == 0 {
        false
    } else if a[0] != b[0] {
        (a[0] as int) < (b[0] as int)
    } else {
        lex_lt(a.skip(1), b.skip(1))
    }
}

/// Exactly one of `a < b`, `a == b`, `b < a` holds.
pub proof fn lemma_lex_total(a: Seq<char>, b: Seq<char>)
    ensures
        a == b || lex_lt(a, b) || lex_lt(b, a),
        !(lex_lt(a, b) && lex_lt(b, a)),
        !lex_lt(a, a),
    decreases a.len(),
{
    if a.len() > 0 && b.len() > 0 && a[0] == b[0] {
        lemma_lex_total(a.skip(1), b.skip(1));
        if a.skip(1) == b.skip(1) {
            assert(a =~= seq![a[0]] + a.skip(1));
            assert(b =~= seq![b[0]] + b.skip(1));
        }
    }
    if a.len() > 0 {
        lemma_lex_total(a.skip(1), a.skip(1));
    }
    if a.len() == 0 && b.len() == 0 {
        assert(a =~= b);
    }
}

/// String order is transitive.
pub proof fn lemma_lex_trans(a: Seq<char>, b: Seq<char>, c: Seq<char>)
    requires
        lex_lt(a, b),
        lex_lt(b, c),
    ensures
        lex_lt(a, c),
    decreases a.len(),
{
    if a.len() > 0 && b.len() > 0 && c.len() > 0 && a[0] == b[0] && b[0] == c[0] {
        lemma_lex_trans(a.skip(1), b.skip(1), c.skip(1));
    }
}

/// Where `::` separates the parts of a deck name, scanning from `i` as
/// `str::split` does (left to right, never overlapping).
pub open spec fn seps_from(s: Seq<char>, i: int) -> Seq<int>
    decreases s.len() - i,
{
    if i < 0 || i + 1 >= s.len() {
        seq![]
    } else if s[i] == ':' && s[i + 1] == ':' {
        seq![i] + seps_from(s, i + 2)
    } else {
        seps_from(s, i + 1)
    }
}

/// The decks above `s`: its name up to each separator.
pub open spec fn ancestors(s: Seq<char>) -> Seq<Seq<char>> {
    seps_from(s, 0).map_values(|p: int| s.subrange(0, p))
}

/// `d` is one of the decks or a deck above one of them.
pub open spec fn listed(decks: Seq<Seq<char>>, d: Seq<char>) -> bool {
    decks.contains(d) || exists|k: int| 0 <= k < decks.len() && #[trigger] ancestors(decks[k]).contains(d)
}

/// The names held by character vectors.
pub open spec fn names(r: Seq<Vec<char>>) -> Seq<Seq<char>> {
    r.map_values(|v: Vec<char>| v@)
}

/// The names held by strings.
pub open spec fn string_names(r: Seq<String>) -> Seq<Seq<char>> {
    r.map_values(|d: String| d@)
}

/// Strictly increasing in string order.
pub open spec fn sorted_names(r: Seq<Seq<char>>) -> bool {
    forall|a: int, b: int| 0 <= a < b < r.len() ==> lex_lt(#[trigger] r[a], #[trigger] r[b])
}

fn lex_less(a: &Vec<char>, b: &Vec<char>) -> (r: bool)
    ensures
        r == lex_lt(a@, b@),
{
    let mut i: usize = 0;
    assert(a@.skip(0) =~= a@);
    assert(b@.skip(0) =~= b@);
    while i < a.len() && i < b.len() && a[i] == b[i]
        invariant
            i <= a@.len(),
            i <= b@.len(),
            lex_lt(a@, b@) == lex_lt(a@.skip(i as int), b@.skip(i as int)),
        decreases a@.len() - i,
    {
        assert(a@.skip(i as int).skip(1) =~= a@.skip(i + 1));
        assert(b@.skip(i as int).skip(1) =~= b@.skip(i + 1));
        i += 1;
    }
    let ghost x = a@.skip(i as int);
    let ghost y = b@.skip(i as int);
    if i == a.len() {
        assert(x.len() == 0);
        i < b.len()
    } else if i == b.len() {
        assert(x.len() > 0 && y.len() == 0);
        false
    } else {
        assert(x[0] == a@[i as int]);
        assert(y[0] == b@[i as int]);
        assert(x[0] != y[0]);
        let r = a[i] < b[i];
        assert(r == ((x[0] as int) < (y[0] as int)));
        r
    }
}

/// Inserts `x` into a strictly increasing list, unless it is there.
fn insert_sorted(r: &mut Vec<Vec<char>>, x: Vec<char>)
    requires
        sorted_names(names(old(r)@)),
    ensures
        sorted_names(names(final(r)@)),
        forall|y: Seq<char>|
            #[trigger] names(final(r)@).contains(y) <==> (names(old(r)@).contains(y)
                || y == x@),
{
    let ghost before = names(r@);
    let mut p: usize = 0;
    while p < r.len() && lex_less(&r[p], &x)
        invariant
            p <= r@.len(),
            before == names(r@),
            forall|a: int| 0 <= a < p ==> lex_lt(#[trigger] before[a], x@),
        decreases r@.len() - p,
    {
        p += 1;
    }
    if p < r.len() && !lex_less(&x, &r[p]) {
        proof {
            lemma_lex_total(before[p as int], x@);
            assert(before[p as int] == x@);
        }
        return;
    }
    proof {
        if p < before.len() {
            lemma_lex_total(before[p as int], x@);
        }
    }
    let ghost xv = x@;
    r.insert(p, x);
    proof {
        let after = names(r@);
        assert(after =~= before.insert(p as int, xv));
        assert forall|a: int, b: int| 0 <= a < b < after.len() implies lex_lt(#[trigger] after[a], #[trigger] after[b]) by {
            if b < p {
            } else if b == p {
            } else if a < p {
                assert(after[b] == before[b - 1]);
                lemma_lex_trans(before[a], xv, before[p as int]);
                if b - 1 > p {
                    lemma_lex_trans(before[a], before[p as int], before[b - 1]);
                }
            } else if a == p {
                assert(after[b] == before[b - 1]);
                if b - 1 > p {
                    lemma_lex_trans(xv, before[p as int], before[b - 1]);
                }
            } else {
                assert(after[a] == before[a - 1] && after[b] == before[b - 1]);
            }
        }
        assert forall|y: Seq<char>| #[trigger] after.contains(y) <==> (before.contains(y) || y == xv) by {
            if after.contains(y) {
                let j = choose|j: int| 0 <= j < after.len() && after[j] == y;
                if j < p {
                    assert(before[j] == y);
                } else if j > p {
                    assert(before[j - 1] == y);
                }
            }
            if before.contains(y) {
                let j = choose|j: int| 0 <= j < before.len() && before[j] == y;
                if j < p {
                    assert(after[j] == y);
                } else {
                    assert(after[j + 1] == y);
                }
            }
            if y == xv {
                assert(after[p as int] == y);
            }
        }
    }
}

/// The deck list shown for the decks that hold cards: each of them and
/// each deck above one, once, in string order.
pub fn deck_listing(decks: &[String]) -> (r: Vec<String>)
    ensures
        sorted_names(string_names(r@)),
        forall|d: Seq<char>|
            #[trigger] string_names(r@).contains(d) <==> listed(string_names(decks@), d),
{
    let ghost ds = string_names(decks@);
    let mut acc: Vec<Vec<char>> = Vec::new();
    let mut k: usize = 0;
    while k < decks.len()
        invariant
            ds == string_names(decks@),
            k <= decks@.len(),
            sorted_names(names(acc@)),
            forall|d: Seq<char>|
                #[trigger] names(acc@).contains(d) <==> listed(ds.take(k as int), d),
        decreases decks@.len() - k,
    {
        let ghost prev = ds.take(k as int);
        let ghost cur = ds.take(k + 1);
        let s = chars_of(decks[k].as_str());
        assert(s@ == ds[k as int]);
        let ghost anc = ancestors(s@);
        let ghost seps = seps_from(s@, 0);
        // the deck itself
        insert_sorted(&mut acc, chars_of(decks[k].as_str()));
        // the decks above it
        let n = s.len();
        let mut i: usize = 0;
        let mut prefix: Vec<char> = Vec::new();
        let ghost mut seen: int = 0;
        while i < n && n - i > 1
            invariant
                n == s@.len(),
                i <= n,
                prefix@ == s@.take(i as int),
                seps == seps_from(s@, 0),
                0 <= seen <= seps.len(),
                seps.skip(seen) == seps_from(s@, i as int),
                sorted_names(names(acc@)),
                forall|d: Seq<char>|
                    #[trigger] names(acc@).contains(d) <==> (listed(prev, d) || d == s@ || exists|q: int|
                        0 <= q < seen && d == s@.subrange(0, seps[q])),
            decreases n - i,
        {
            if s[i] == ':' && s[i + 1] == ':' {
                let ghost p_before = names(acc@);
                let mut copy: Vec<char> = Vec::new();
                let mut q: usize = 0;
                while q < i
                    invariant
                        q <= i <= prefix@.len(),
                        copy@ == prefix@.take(q as int),
                    decreases i - q,
                {
                    copy.push(prefix[q]);
                    q += 1;
                    assert(copy@ =~= prefix@.take(q as int));
                }
                assert(copy@ =~= s@.subrange(0, i as int));
                insert_sorted(&mut acc, copy);
                proof {
                    assert(seps_from(s@, i as int) == seq![i as int] + seps_from(s@, i + 2));
                    assert(seps.skip(seen).len() > 0);
                    assert(seps.skip(seen)[0] == seps[seen]);
                    assert(seps[seen] == i);
                    assert(seps.skip(seen + 1) =~= seps.skip(seen).skip(1));
                    assert((seq![i as int] + seps_from(s@, i + 2)).skip(1) =~= seps_from(s@, i + 2));
                    assert(seps.skip(seen + 1) =~= seps_from(s@, i + 2));
                    seen = seen + 1;
                }
                prefix.push(s[i]);
                prefix.push(s[i + 1]);
                assert(prefix@ =~= s@.take(i + 2));
                i = i + 2;
            } else {
                prefix.push(s[i]);
                assert(prefix@ =~= s@.take(i + 1));
                i = i + 1;
            }
        }
        proof {
            assert(seps_from(s@, i as int) =~= Seq::<int>::empty());
            assert(seen == seps.len());
            assert(cur.drop_last() =~= prev);
            assert forall|d: Seq<char>| listed(cur, d) <==> (listed(prev, d) || d == s@ || exists|q: int|
                0 <= q < seps.len() && d == s@.subrange(0, seps[q])) by {
                if listed(cur, d) {
                    if cur.contains(d) {
                        let j = choose|j: int| 0 <= j < cur.len() && cur[j] == d;
                        if j < k {
                            assert(prev[j] == d);
                        }
                    } else {
                        let j = choose|j: int| 0 <= j < cur.len() && #[trigger] ancestors(cur[j]).contains(d);
                        if j < k {
                            assert(prev[j] == cur[j]);
                        } else {
                            let q = choose|q: int| 0 <= q < anc.len() && anc[q] == d;
                            assert(anc[q] == s@.subrange(0, seps[q]));
                        }
                    }
                }
                if listed(prev, d) {
                    if prev.contains(d) {
                        let j = choose|j: int| 0 <= j < prev.len() && prev[j] == d;
                        assert(cur[j] == d);
                    } else {
                        let j = choose|j: int| 0 <= j < prev.len() && #[trigger] ancestors(prev[j]).contains(d);
                        assert(cur[j] == prev[j]);
                    }
                }
                if d == s@ {
                    assert(cur[k as int] == d);
                }
                if exists|q: int| 0 <= q < seps.len() && d == s@.subrange(0, seps[q]) {
                    let q = choose|q: int| 0 <= q < seps.len() && d == s@.subrange(0, seps[q]);
                    assert(anc[q] == d);
                    assert(ancestors(cur[k as int]).contains(d));
                }
            }
        }
        k += 1;
    }
    assert(ds.take(k as int) =~= ds);
    let mut r: Vec<String> = Vec::new();
    let mut j: usize = 0;
    while j < acc.len()
        invariant
            j <= acc@.len(),
            string_names(r@) == names(acc@).take(j as int),
        decreases acc@.len() - j,
    {
        let ghost before = string_names(r@);
        let t = crate::text::string_of(&acc[j]);
        assert(t@ == names(acc@)[j as int]);
        r.push(t);
        assert(string_names(r@) =~= before.push(t@));
        assert(names(acc@).take(j + 1) =~= names(acc@).take(j as int).push(names(acc@)[j as int]));
        j += 1;
    }
    assert(names(acc@).take(j as int) =~= names(acc@));
    r
}

} // verus!
