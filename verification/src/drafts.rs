//! The card editor works on a flat list of step drafts kept in depth-first
//! pre-order. Parent links are draft keys (stable while editing, unlike
//! indices); in a well-kept list every draft's parent appears earlier and
//! each subtree is one contiguous run.

use vstd::prelude::*;
use crate::models::{StepDraft, Item, copy_opt_string};
use crate::tree::StepTree;
use crate::text::{blank, is_blank, push_all, decimal, push_decimal, same_text, trim, trimmed};

verus! {

// ~~~ keys ~~~~~~~~~~~~~~~~~~~~~~~~~~~~~~~~~~~~~~~~~~~~~~~~~~~~~~~~~~~~~~~~~~~~

/// The largest key among the drafts (0 when there are none).
pub open spec fn max_key(s: Seq<StepDraft>) -> nat
    decreases s.len(),
{
    if s.len() == 0 {
        0
    } else {
        let m = max_key(s.drop_last());
        if s.last().key > m {
            s.last().key as nat
        } else {
            m
        }
    }
}

/// The key a new draft gets: one past the largest, 0 for an empty list.
pub open spec fn fresh_key(s: Seq<StepDraft>) -> nat {
    if s.len() == 0 {
        0
    } else {
        max_key(s) + 1
    }
}

/// The first draft among `s[..k]` with this key.
pub open spec fn key_pos(s: Seq<StepDraft>, key: u32, k: int) -> Option<int>
    decreases k,
{
    if k <= 0 {
        None
    } else {
        match key_pos(s, key, k - 1) {
            Some(i) => Some(i),
            None => if s[k - 1].key == key {
                Some(k - 1)
            } else {
                None
            },
        }
    }
}

/// The first draft with this key.
pub open spec fn first_key(s: Seq<StepDraft>, key: u32) -> Option<int> {
    key_pos(s, key, s.len() as int)
}

/// The last draft among `s[..k]` with this key (what a key-to-index map
/// built in order ends up holding).
pub open spec fn last_key_pos(s: Seq<StepDraft>, key: u32, k: int) -> Option<int>
    decreases k,
{
    if k <= 0 {
        None
    } else if s[k - 1].key == key {
        Some(k - 1)
    } else {
        last_key_pos(s, key, k - 1)
    }
}

/// Some draft carries this key.
pub open spec fn has_key(s: Seq<StepDraft>, key: u32) -> bool {
    exists|i: int| 0 <= i < s.len() && #[trigger] s[i].key == key
}

/// `max_key` is the largest key, and a draft carries it.
pub proof fn lemma_max_key(s: Seq<StepDraft>)
    ensures
        forall|i: int| 0 <= i < s.len() ==> #[trigger] s[i].key <= max_key(s),
        s.len() > 0 ==> exists|i: int| 0 <= i < s.len() && #[trigger] s[i].key == max_key(s),
    decreases s.len(),
{
    if s.len() > 0 {
        lemma_max_key(s.drop_last());
        assert forall|i: int| 0 <= i < s.len() implies #[trigger] s[i].key <= max_key(s) by {
            if i < s.len() - 1 {
                assert(s.drop_last()[i] == s[i]);
            }
        }
        if s.last().key <= max_key(s.drop_last()) && s.len() > 1 {
            let j = choose|j: int| 0 <= j < s.len() - 1 && #[trigger] s.drop_last()[j].key == max_key(s.drop_last());
            assert(s[j] == s.drop_last()[j]);
        }
    }
}

/// A fresh key is carried by no draft.
pub proof fn lemma_fresh_key(s: Seq<StepDraft>)
    ensures
        !has_key(s, fresh_key(s) as u32) || fresh_key(s) > u32::MAX,
        forall|i: int| 0 <= i < s.len() ==> #[trigger] s[i].key < fresh_key(s),
{
    lemma_max_key(s);
}

proof fn lemma_key_pos(s: Seq<StepDraft>, key: u32, k: int)
    requires
        0 <= k <= s.len(),
    ensures
        match key_pos(s, key, k) {
            Some(i) => 0 <= i < k && s[i].key == key && forall|j: int| 0 <= j < i ==> #[trigger] s[j].key != key,
            None => forall|j: int| 0 <= j < k ==> #[trigger] s[j].key != key,
        },
    decreases k,
{
    if k > 0 {
        lemma_key_pos(s, key, k - 1);
    }
}

proof fn lemma_last_key_pos(s: Seq<StepDraft>, key: u32, k: int)
    requires
        0 <= k <= s.len(),
    ensures
        match last_key_pos(s, key, k) {
            Some(i) => 0 <= i < k && s[i].key == key && forall|j: int| i < j < k ==> #[trigger] s[j].key != key,
            None => forall|j: int| 0 <= j < k ==> #[trigger] s[j].key != key,
        },
    decreases k,
{
    if k > 0 {
        lemma_last_key_pos(s, key, k - 1);
    }
}

/// One past the largest key, the key the next new draft gets.
pub fn next_key(drafts: &[StepDraft]) -> (k: u32)
    requires
        max_key(drafts@) < u32::MAX,
    ensures
        k == fresh_key(drafts@),
{
    let mut best: Option<u32> = None;
    let mut i: usize = 0;
    while i < drafts.len()
        invariant
            i <= drafts@.len(),
            max_key(drafts@) < u32::MAX,
            match best {
                Some(m) => i > 0 && m == max_key(drafts@.take(i as int)),
                None => i == 0,
            },
        decreases drafts@.len() - i,
    {
        let k = drafts[i].key;
        assert(drafts@.take(i + 1).drop_last() =~= drafts@.take(i as int));
        assert(drafts@.take(i + 1).last() == drafts@[i as int]);
        best = match best {
            Some(m) => if k > m {
                Some(k)
            } else {
                Some(m)
            },
            None => Some(k),
        };
        proof {
            let t = drafts@.take(i + 1);
            assert(max_key(t) == (if t.last().key > max_key(t.drop_last()) {
                t.last().key as nat
            } else {
                max_key(t.drop_last())
            }));
            assert(t.len() > 0);
        }
        i += 1;
    }
    assert(drafts@.take(drafts@.len() as int) =~= drafts@);
    match best {
        Some(m) => m + 1,
        None => 0,
    }
}

/// The index of the first draft with this key.
pub fn index_of_key(drafts: &[StepDraft], key: u32) -> (r: Option<usize>)
    ensures
        r matches Some(i) ==> first_key(drafts@, key) == Some(i as int),
        r is None ==> first_key(drafts@, key) is None,
        r matches Some(i) ==> i < drafts@.len() && drafts@[i as int].key == key,
        r is None <==> !has_key(drafts@, key),
{
    proof {
        lemma_key_pos(drafts@, key, drafts@.len() as int);
    }
    let mut i: usize = 0;
    while i < drafts.len()
        invariant
            i <= drafts@.len(),
            key_pos(drafts@, key, i as int) is None,
        decreases drafts@.len() - i,
    {
        if drafts[i].key == key {
            proof {
                lemma_key_pos_stays(drafts@, key, i + 1, drafts@.len() as int);
            }
            return Some(i);
        }
        i += 1;
    }
    proof {
        lemma_key_pos(drafts@, key, drafts@.len() as int);
    }
    None
}

proof fn lemma_key_pos_stays(s: Seq<StepDraft>, key: u32, k: int, m: int)
    requires
        0 <= k <= m,
        key_pos(s, key, k) is Some,
    ensures
        key_pos(s, key, m) == key_pos(s, key, k),
    decreases m - k,
{
    if m > k {
        lemma_key_pos_stays(s, key, k, m - 1);
    }
}

/// Index of the last draft with this key, what a key-to-index map built in
/// order holds.
fn last_index_of_key(drafts: &[StepDraft], key: u32) -> (r: Option<usize>)
    ensures
        r matches Some(i) ==> last_key_pos(drafts@, key, drafts@.len() as int) == Some(i as int),
        r is None ==> last_key_pos(drafts@, key, drafts@.len() as int) is None,
{
    let mut k = drafts.len();
    while k > 0
        invariant
            k <= drafts@.len(),
            last_key_pos(drafts@, key, drafts@.len() as int) == last_key_pos(drafts@, key, k as int),
        decreases k,
    {
        if drafts[k - 1].key == key {
            return Some(k - 1);
        }
        k -= 1;
    }
    None
}

// ~~~ subtrees ~~~~~~~~~~~~~~~~~~~~~~~~~~~~~~~~~~~~~~~~~~~~~~~~~~~~~~~~~~~~~~~~

/// Draft `e` hangs under one of the drafts `s[i..e]`.
pub open spec fn hangs_in(s: Seq<StepDraft>, i: int, e: int) -> bool {
    match s[e].parent {
        Some(p) => exists|k: int| i <= k < e && #[trigger] s[k].key == p,
        None => false,
    }
}

/// Extending the run that starts at `i` from `e` on, while each next draft
/// hangs under the run.
pub open spec fn run_end(s: Seq<StepDraft>, i: int, e: int) -> int
    decreases s.len() - e,
{
    if e < s.len() && hangs_in(s, i, e) {
        run_end(s, i, e + 1)
    } else {
        e
    }
}

/// `[i, end)` is the subtree rooted at draft `i`.
pub open spec fn subtree_end_spec(s: Seq<StepDraft>, i: int) -> int {
    run_end(s, i, i + 1)
}

proof fn lemma_run_end(s: Seq<StepDraft>, i: int, e: int)
    requires
        i < e <= s.len(),
    ensures
        e <= run_end(s, i, e) <= s.len(),
        forall|f: int| e <= f < run_end(s, i, e) ==> #[trigger] hangs_in(s, i, f),
        run_end(s, i, e) == s.len() || !hangs_in(s, i, run_end(s, i, e)),
    decreases s.len() - e,
{
    if e < s.len() && hangs_in(s, i, e) {
        lemma_run_end(s, i, e + 1);
    }
}

/// Whether one of the drafts `s[lo..hi]` carries this key.
fn key_in(drafts: &[StepDraft], lo: usize, hi: usize, key: u32) -> (b: bool)
    requires
        lo <= hi <= drafts@.len(),
    ensures
        b == exists|k: int| lo <= k < hi && #[trigger] drafts@[k].key == key,
{
    let mut k = lo;
    while k < hi
        invariant
            lo <= k <= hi <= drafts@.len(),
            forall|j: int| lo <= j < k ==> #[trigger] drafts@[j].key != key,
        decreases hi - k,
    {
        if drafts[k].key == key {
            return true;
        }
        k += 1;
    }
    false
}

/// `[i, end)` is the subtree rooted at draft `i`.
pub fn subtree_end(drafts: &[StepDraft], i: usize) -> (e: usize)
    requires
        i < drafts@.len(),
    ensures
        e == subtree_end_spec(drafts@, i as int),
        i < e <= drafts@.len(),
{
    let n = drafts.len();
    let mut end = i + 1;
    while end < n
        invariant
            n == drafts@.len(),
            i < end <= n,
            run_end(drafts@, i as int, i + 1) == run_end(drafts@, i as int, end as int),
        decreases n - end,
    {
        match drafts[end].parent {
            Some(p) => {
                if key_in(drafts, i, end, p) {
                    end += 1;
                } else {
                    return end;
                }
            },
            None => {
                return end;
            },
        }
    }
    end
}

/// How many drafts have `parent` as their parent.
pub open spec fn count_children(s: Seq<StepDraft>, parent: Option<u32>) -> nat
    decreases s.len(),
{
    if s.len() == 0 {
        0
    } else {
        count_children(s.drop_last(), parent) + if s.last().parent == parent {
            1nat
        } else {
            0nat
        }
    }
}

/// How many drafts hang directly under `key` (`None`: how many root paths).
pub fn child_count(drafts: &[StepDraft], key: Option<u32>) -> (n: usize)
    ensures
        n == count_children(drafts@, key),
{
    let mut n: usize = 0;
    let mut i: usize = 0;
    while i < drafts.len()
        invariant
            i <= drafts@.len(),
            n == count_children(drafts@.take(i as int), key),
            n <= i,
        decreases drafts@.len() - i,
    {
        assert(drafts@.take(i + 1).drop_last() =~= drafts@.take(i as int));
        if drafts[i].parent == key {
            n += 1;
        }
        i += 1;
    }
    assert(drafts@.take(drafts@.len() as int) =~= drafts@);
    n
}

// ~~~ editing ~~~~~~~~~~~~~~~~~~~~~~~~~~~~~~~~~~~~~~~~~~~~~~~~~~~~~~~~~~~~~~~~~

/// `d` with a new key and parent link.
pub open spec fn with_link(d: StepDraft, key: u32, parent: Option<u32>) -> StepDraft {
    StepDraft { key, parent, db_id: d.db_id, name: d.name, answer: d.answer, image: d.image }
}

/// `x`, moved under `to` if it hung under `from`.
pub open spec fn relink(x: StepDraft, from: Option<u32>, to: Option<u32>) -> StepDraft {
    if x.parent == from {
        with_link(x, x.key, to)
    } else {
        x
    }
}

/// Every draft of `s` relinked from `from` to `to`.
pub open spec fn relink_all(s: Seq<StepDraft>, from: Option<u32>, to: Option<u32>) -> Seq<StepDraft> {
    s.map_values(|x: StepDraft| relink(x, from, to))
}

/// Where a new last child of `parent` goes: the parent it really gets (an
/// unknown parent key makes it a new root path) and the index it is
/// inserted at (right after the parent's subtree, else at the very end).
pub open spec fn attach_point(s: Seq<StepDraft>, parent: Option<u32>) -> (Option<u32>, int) {
    match parent {
        Some(p) => match first_key(s, p) {
            Some(pi) => (Some(p), subtree_end_spec(s, pi)),
            None => (None, s.len() as int),
        },
        None => (None, s.len() as int),
    }
}

/// The drafts after adding `d` as the last child of `parent`.
pub open spec fn added(s: Seq<StepDraft>, parent: Option<u32>, d: StepDraft) -> Seq<StepDraft> {
    s.insert(attach_point(s, parent).1, with_link(d, fresh_key(s) as u32, attach_point(s, parent).0))
}

/// The drafts after splicing `d` in right after draft `sel`.
pub open spec fn spliced_in(s: Seq<StepDraft>, sel: int, d: StepDraft) -> Seq<StepDraft> {
    relink_all(s, Some(s[sel].key), Some(fresh_key(s) as u32)).insert(
        sel + 1,
        with_link(d, fresh_key(s) as u32, Some(s[sel].key)),
    )
}

/// Moves every draft hanging under `from` to `to`.
fn relink_children(drafts: &mut Vec<StepDraft>, from: Option<u32>, to: Option<u32>)
    ensures
        final(drafts)@ == relink_all(old(drafts)@, from, to),
{
    let ghost start = drafts@;
    let n = drafts.len();
    let mut j: usize = 0;
    while j < n
        invariant
            n == drafts@.len() == start.len(),
            j <= n,
            forall|k: int| 0 <= k < j ==> #[trigger] drafts@[k] == relink(start[k], from, to),
            forall|k: int| j <= k < n ==> #[trigger] drafts@[k] == start[k],
        decreases n - j,
    {
        if drafts[j].parent == from {
            drafts[j].parent = to;
        }
        j += 1;
    }
    assert(drafts@ =~= relink_all(start, from, to));
}

/// Adds `d` as the last child of `parent` (`None`: a new root path) and
/// returns its index. Under a childless parent this extends the chain;
/// under a parent with children it opens a new branch.
pub fn add_child(drafts: &mut Vec<StepDraft>, parent: Option<u32>, d: StepDraft) -> (at: usize)
    requires
        max_key(old(drafts)@) < u32::MAX,
    ensures
        at == attach_point(old(drafts)@, parent).1,
        at <= old(drafts)@.len(),
        final(drafts)@ == added(old(drafts)@, parent, d),
{
    let mut d = d;
    d.key = next_key(drafts.as_slice());
    d.parent = parent;
    let at = match parent {
        Some(p) => match index_of_key(drafts.as_slice(), p) {
            Some(pi) => subtree_end(drafts.as_slice(), pi),
            None => {
                d.parent = None;
                drafts.len()
            },
        },
        None => drafts.len(),
    };
    drafts.insert(at, d);
    at
}

/// Splices `d` in right after draft `sel`: it becomes the only child of
/// `sel` and adopts all of `sel`'s children. In a chain this inserts a
/// step after the selected one. Returns the new draft's index.
pub fn insert_after(drafts: &mut Vec<StepDraft>, sel: usize, d: StepDraft) -> (at: usize)
    requires
        sel < old(drafts)@.len(),
        max_key(old(drafts)@) < u32::MAX,
    ensures
        at == sel + 1,
        final(drafts)@ == spliced_in(old(drafts)@, sel as int, d),
{
    let n = drafts.len();
    let sel_key = drafts[sel].key;
    let mut d = d;
    d.key = next_key(drafts.as_slice());
    d.parent = Some(sel_key);
    let new_key = d.key;
    let at = sel + 1;
    relink_children(drafts, Some(sel_key), Some(new_key));
    drafts.insert(at, d);
    at
}

/// Removes draft `i` and everything below it; returns how many drafts went.
pub fn remove_subtree(drafts: &mut Vec<StepDraft>, i: usize) -> (removed: usize)
    requires
        i < old(drafts)@.len(),
    ensures
        removed == subtree_end_spec(old(drafts)@, i as int) - i,
        final(drafts)@ == old(drafts)@.take(i as int) + old(drafts)@.skip(
            subtree_end_spec(old(drafts)@, i as int),
        ),
{
    let ghost start = drafts@;
    let end = subtree_end(drafts.as_slice(), i);
    let mut k: usize = i;
    while k < end
        invariant
            i <= k <= end <= start.len(),
            end == subtree_end_spec(start, i as int),
            drafts@ == start.take(i as int) + start.skip(k as int),
        decreases end - k,
    {
        assert(drafts@[i as int] == start[k as int]);
        drafts.remove(i);
        assert(drafts@ =~= start.take(i as int) + start.skip(k + 1));
        k += 1;
    }
    end - i
}

/// Every parent link names a draft of the list.
pub open spec fn links_known(s: Seq<StepDraft>) -> bool {
    forall|i: int| 0 <= i < s.len() ==> (#[trigger] s[i].parent matches Some(p) ==> has_key(s, p))
}

/// After `insert_after`, the new step is the only child of the selected one
/// and has adopted exactly the selected step's former children.
pub proof fn lemma_insert_after_adopts(s: Seq<StepDraft>, sel: int, d: StepDraft)
    requires
        0 <= sel < s.len(),
        max_key(s) < u32::MAX,
        links_known(s),
    ensures
        ({
            let t = spliced_in(s, sel, d);
            let k = s[sel].key;
            let f = fresh_key(s) as u32;
            &&& t.len() == s.len() + 1
            &&& t[sel + 1].key == f
            &&& t[sel + 1].parent == Some(k)
            &&& forall|j: int| 0 <= j < t.len() && j != sel + 1 ==> #[trigger] t[j].parent != Some(k)
            &&& forall|j: int|
                0 <= j < s.len() ==> (#[trigger] s[j].parent == Some(k) <==> t[if j <= sel {
                    j
                } else {
                    j + 1
                }].parent == Some(f))
        }),
{
    lemma_fresh_key(s);
    let t = spliced_in(s, sel, d);
    let k = s[sel].key;
    let f = fresh_key(s) as u32;
    let r = relink_all(s, Some(k), Some(f));
    assert forall|j: int| 0 <= j < s.len() implies (#[trigger] s[j].parent == Some(k) <==> t[if j <= sel {
        j
    } else {
        j + 1
    }].parent == Some(f)) by {
        let tj = if j <= sel {
            j
        } else {
            j + 1
        };
        assert(t[tj] == r[j]);
        if s[j].parent == Some(f) {
            assert(has_key(s, f));
        }
    }
    assert forall|j: int| 0 <= j < t.len() && j != sel + 1 implies #[trigger] t[j].parent != Some(k) by {
        let sj = if j <= sel {
            j
        } else {
            j - 1
        };
        assert(t[j] == r[sj]);
    }
}

proof fn lemma_count_concat(a: Seq<StepDraft>, b: Seq<StepDraft>, par: Option<u32>)
    ensures
        count_children(a + b, par) == count_children(a, par) + count_children(b, par),
    decreases b.len(),
{
    if b.len() > 0 {
        assert((a + b).drop_last() =~= a + b.drop_last());
        lemma_count_concat(a, b.drop_last(), par);
    } else {
        assert(a + b =~= a);
    }
}

/// `add_child` adds one child to the parent it attaches to, with a key no
/// other draft carries.
pub proof fn lemma_add_child_adds_one(s: Seq<StepDraft>, parent: Option<u32>, d: StepDraft)
    requires
        max_key(s) < u32::MAX,
    ensures
        ({
            let t = added(s, parent, d);
            let (par, at) = attach_point(s, parent);
            &&& t.len() == s.len() + 1
            &&& t[at].key == fresh_key(s)
            &&& !has_key(s, t[at].key)
            &&& t[at].parent == par
            &&& count_children(t, par) == count_children(s, par) + 1
        }),
{
    lemma_fresh_key(s);
    let (par, at) = attach_point(s, parent);
    if parent is Some {
        match first_key(s, parent->0) {
            Some(pi) => {
                lemma_key_pos(s, parent->0, s.len() as int);
                lemma_run_end(s, pi, pi + 1);
            },
            None => {},
        }
    }
    let x = with_link(d, fresh_key(s) as u32, par);
    let t = added(s, parent, d);
    assert(t =~= s.take(at) + seq![x] + s.skip(at));
    assert(s =~= s.take(at) + s.skip(at));
    lemma_count_concat(s.take(at), s.skip(at), par);
    lemma_count_concat(s.take(at) + seq![x], s.skip(at), par);
    lemma_count_concat(s.take(at), seq![x], par);
    assert(seq![x].drop_last() =~= Seq::<StepDraft>::empty());
    assert(count_children(Seq::<StepDraft>::empty(), par) == 0);
    assert(count_children(seq![x], par) == 1);
    assert(count_children(s, par) == count_children(s.take(at), par) + count_children(s.skip(at), par));
}

// ~~~ shape checks ~~~~~~~~~~~~~~~~~~~~~~~~~~~~~~~~~~~~~~~~~~~~~~~~~~~~~~~~~~~~

/// The drafts form a single chain: no two share a parent (two root paths
/// share the parent `None`).
pub open spec fn linear(s: Seq<StepDraft>) -> bool {
    forall|a: int, b: int| 0 <= a < b < s.len() ==> #[trigger] s[a].parent != #[trigger] s[b].parent
}

/// True if the drafts form a single chain, with no fork anywhere.
pub fn is_linear(drafts: &[StepDraft]) -> (b: bool)
    ensures
        b == linear(drafts@),
{
    let n = drafts.len();
    let mut b: usize = 1;
    while b < n
        invariant
            n == drafts@.len(),
            1 <= b,
            forall|x: int, y: int| 0 <= x < y < b && y < n ==> #[trigger] drafts@[x].parent != #[trigger] drafts@[y].parent,
        decreases n - b,
    {
        let mut a: usize = 0;
        while a < b
            invariant
                n == drafts@.len(),
                a <= b < n,
                forall|x: int, y: int| 0 <= x < y < b ==> #[trigger] drafts@[x].parent != #[trigger] drafts@[y].parent,
                forall|x: int| 0 <= x < a ==> #[trigger] drafts@[x].parent != drafts@[b as int].parent,
            decreases b - a,
        {
            if drafts[a].parent == drafts[b].parent {
                return false;
            }
            a += 1;
        }
        b += 1;
    }
    true
}

/// Draft `i` has no name but shares its parent with another draft, so the
/// learner could not tell the branches apart in review.
pub open spec fn unnamed_branch(s: Seq<StepDraft>, i: int) -> bool {
    &&& is_blank(s[i].name@)
    &&& exists|j: int| 0 <= j < s.len() && j != i && #[trigger] s[j].parent == s[i].parent
}

/// The message for an unnamed branch.
pub open spec fn branch_message() -> Seq<char> {
    "Every branch needs a name (steps that share a parent, or several top-level paths) so you can tell them apart in review."@
}

/// When a step has several children (or there are several root paths) the
/// learner must tell them apart in review, so every one of them needs a name.
pub fn check_branch_names(drafts: &[StepDraft]) -> (r: Result<(), &'static str>)
    ensures
        r is Ok <==> forall|i: int| 0 <= i < drafts@.len() ==> !#[trigger] unnamed_branch(drafts@, i),
        r matches Err(m) ==> m@ == branch_message(),
{
    let n = drafts.len();
    let mut i: usize = 0;
    while i < n
        invariant
            n == drafts@.len(),
            i <= n,
            forall|k: int| 0 <= k < i ==> !#[trigger] unnamed_branch(drafts@, k),
        decreases n - i,
    {
        if blank(drafts[i].name.as_str()) {
            let mut j: usize = 0;
            while j < n
                invariant
                    n == drafts@.len(),
                    i < n,
                    j <= n,
                    is_blank(drafts@[i as int].name@),
                    forall|k: int| 0 <= k < j && k != i ==> #[trigger] drafts@[k].parent != drafts@[i as int].parent,
                decreases n - j,
            {
                if j != i && drafts[j].parent == drafts[i].parent {
                    assert(is_blank(drafts@[i as int].name@));
                    assert(drafts@[j as int].parent == drafts@[i as int].parent);
                    assert(unnamed_branch(drafts@, i as int));
                    return Err(
                        "Every branch needs a name (steps that share a parent, or several top-level paths) so you can tell them apart in review.",
                    );
                }
                j += 1;
            }
        }
        i += 1;
    }
    true_ok()
}

fn true_ok() -> (r: Result<(), &'static str>)
    ensures
        r is Ok,
{
    Ok(())
}

// ~~~ depths ~~~~~~~~~~~~~~~~~~~~~~~~~~~~~~~~~~~~~~~~~~~~~~~~~~~~~~~~~~~~~~~~~~

/// One link up from the parent key `p`: the parent of the draft with key
/// `p` (the last such draft), `None` past a root or at an unknown key.
pub open spec fn up_key(s: Seq<StepDraft>, p: u32) -> Option<u32> {
    match last_key_pos(s, p, s.len() as int) {
        Some(i) => s[i].parent,
        None => None,
    }
}

/// How many parent links lead up from a draft whose parent is `cur`,
/// counting at most `fuel` of them.
pub open spec fn link_count(s: Seq<StepDraft>, cur: Option<u32>, fuel: nat) -> nat
    decreases fuel,
{
    match cur {
        None => 0,
        Some(p) => if fuel <= 1 {
            1
        } else {
            1 + link_count(s, up_key(s, p), (fuel - 1) as nat)
        },
    }
}

/// The depth of draft `i` (0 for a root path), counted along parent links
/// and capped one past the number of drafts when the links loop.
pub open spec fn draft_depth(s: Seq<StepDraft>, i: int) -> nat {
    link_count(s, s[i].parent, s.len() + 1)
}

fn up_from(drafts: &[StepDraft], p: u32) -> (r: Option<u32>)
    ensures
        r == up_key(drafts@, p),
{
    proof {
        lemma_last_key_pos(drafts@, p, drafts@.len() as int);
    }
    match last_index_of_key(drafts, p) {
        Some(i) => drafts[i].parent,
        None => None,
    }
}

fn depth_of(drafts: &[StepDraft], i: usize) -> (d: usize)
    requires
        i < drafts@.len() < usize::MAX,
    ensures
        d == draft_depth(drafts@, i as int),
{
    let n = drafts.len();
    let ghost target = draft_depth(drafts@, i as int);
    let mut depth: usize = 0;
    let mut cur = drafts[i].parent;
    while depth <= n
        invariant
            n == drafts@.len() < usize::MAX,
            depth <= n + 1,
            target == draft_depth(drafts@, i as int),
            depth <= n ==> depth + link_count(drafts@, cur, (n + 1 - depth) as nat) == target,
            depth > n ==> depth == target,
        decreases n + 1 - depth,
    {
        match cur {
            None => {
                return depth;
            },
            Some(p) => {
                depth += 1;
                cur = up_from(drafts, p);
            },
        }
    }
    depth
}

/// The depth of every draft (0 = a root path), by parent links.
pub fn draft_depths(drafts: &[StepDraft]) -> (r: Vec<usize>)
    requires
        drafts@.len() < usize::MAX,
    ensures
        r@.len() == drafts@.len(),
        forall|i: int| 0 <= i < r@.len() ==> #[trigger] r@[i] == draft_depth(drafts@, i),
{
    let n = drafts.len();
    let mut r: Vec<usize> = Vec::new();
    let mut i: usize = 0;
    while i < n
        invariant
            n == drafts@.len() < usize::MAX,
            i <= n,
            r@.len() == i,
            forall|k: int| 0 <= k < i ==> #[trigger] r@[k] == draft_depth(drafts@, k),
        decreases n - i,
    {
        r.push(depth_of(drafts, i));
        i += 1;
    }
    r
}

// ~~~ re-deriving the order ~~~~~~~~~~~~~~~~~~~~~~~~~~~~~~~~~~~~~~~~~~~~~~~~~

/// `x`, made a root path if its parent link names no draft or itself.
pub open spec fn fix_link(s: Seq<StepDraft>, x: StepDraft) -> StepDraft {
    match x.parent {
        Some(p) => if !has_key(s, p) || p == x.key {
            with_link(x, x.key, None)
        } else {
            x
        },
        None => x,
    }
}

/// Every dangling or self parent link of `s` dropped.
pub open spec fn fix_links(s: Seq<StepDraft>) -> Seq<StepDraft> {
    s.map_values(|x: StepDraft| fix_link(s, x))
}

/// The indices of the drafts among `s[..k]` whose parent is `par`, in order.
pub open spec fn kids(s: Seq<StepDraft>, par: Option<u32>, k: int) -> Seq<usize>
    decreases k,
{
    if k <= 0 {
        seq![]
    } else {
        kids(s, par, k - 1) + if s[k - 1].parent == par {
            seq![(k - 1) as usize]
        } else {
            seq![]
        }
    }
}

/// The indices of the drafts whose parent is `par`, in order.
pub open spec fn children_of(s: Seq<StepDraft>, par: Option<u32>) -> Seq<usize> {
    kids(s, par, s.len() as int)
}

/// Pre-order of the subtrees under the sibling drafts `cs`, in their order,
/// going at most `fuel` levels down.
pub open spec fn forest(s: Seq<StepDraft>, cs: Seq<usize>, fuel: nat) -> Seq<usize>
    decreases fuel, cs.len(),
{
    if cs.len() == 0 || fuel == 0 {
        seq![]
    } else {
        seq![cs[0]] + forest(s, children_of(s, Some(s[cs[0] as int].key)), (fuel - 1) as nat) + forest(
            s,
            cs.drop_first(),
            fuel,
        )
    }
}

/// The depth-first pre-order of the drafts by their parent links: root
/// paths in order, each followed by its subtree, siblings in order. A
/// subtree cut off from every root path (a loop of links) is not reached.
pub open spec fn dfs_drafts(s: Seq<StepDraft>) -> Seq<usize> {
    forest(s, children_of(s, None), s.len())
}

/// `o` without repeats: each index kept where it first occurs.
pub open spec fn first_occurrences(o: Seq<usize>) -> Seq<usize>
    decreases o.len(),
{
    if o.len() == 0 {
        seq![]
    } else if o.drop_last().contains(o.last()) {
        first_occurrences(o.drop_last())
    } else {
        first_occurrences(o.drop_last()).push(o.last())
    }
}

/// What `normalize_order` makes of `s`: dangling and self links dropped,
/// then the drafts in depth-first order (a draft reached a second time, as
/// happens only when two drafts share a key, is taken once), unless the
/// walk does not come out at one entry per draft, in which case the order
/// is left as it was.
pub open spec fn normalized(s: Seq<StepDraft>) -> Seq<StepDraft> {
    let f = fix_links(s);
    let o = dfs_drafts(f);
    if o.len() == s.len() {
        first_occurrences(o).map_values(|i: usize| f[i as int])
    } else {
        f
    }
}

fn fix_parents(drafts: &mut Vec<StepDraft>)
    ensures
        final(drafts)@ == fix_links(old(drafts)@),
{
    let ghost start = drafts@;
    let n = drafts.len();
    let mut j: usize = 0;
    while j < n
        invariant
            n == drafts@.len() == start.len(),
            j <= n,
            forall|k: int| 0 <= k < n ==> #[trigger] drafts@[k].key == start[k].key,
            forall|k: int| 0 <= k < j ==> #[trigger] drafts@[k] == fix_link(start, start[k]),
            forall|k: int| j <= k < n ==> #[trigger] drafts@[k] == start[k],
        decreases n - j,
    {
        match drafts[j].parent {
            Some(p) => {
                let known = key_in(drafts.as_slice(), 0, n, p);
                proof {
                    if known {
                        let k = choose|k: int| 0 <= k < n && #[trigger] drafts@[k].key == p;
                        assert(start[k].key == p);
                    }
                    if has_key(start, p) {
                        let k = choose|k: int| 0 <= k < n && #[trigger] start[k].key == p;
                        assert(drafts@[k].key == p);
                    }
                }
                if !known || p == drafts[j].key {
                    drafts[j].parent = None;
                }
            },
            None => {},
        }
        j += 1;
    }
    assert(drafts@ =~= fix_links(start));
}

fn children_idx(drafts: &[StepDraft], par: Option<u32>) -> (r: Vec<usize>)
    ensures
        r@ == children_of(drafts@, par),
        forall|k: int| 0 <= k < r@.len() ==> #[trigger] r@[k] < drafts@.len(),
{
    let n = drafts.len();
    let mut r: Vec<usize> = Vec::new();
    let mut i: usize = 0;
    while i < n
        invariant
            n == drafts@.len(),
            i <= n,
            r@ == kids(drafts@, par, i as int),
            forall|k: int| 0 <= k < r@.len() ==> #[trigger] r@[k] < i,
        decreases n - i,
    {
        if drafts[i].parent == par {
            r.push(i);
        }
        i += 1;
    }
    r
}

fn visit(drafts: &[StepDraft], cs: &Vec<usize>, j: usize, fuel: usize, out: &mut Vec<usize>)
    requires
        j <= cs@.len(),
        forall|k: int| 0 <= k < cs@.len() ==> #[trigger] cs@[k] < drafts@.len(),
    ensures
        final(out)@ == old(out)@ + forest(drafts@, cs@.skip(j as int), fuel as nat),
    decreases fuel, cs@.len() - j,
{
    if j >= cs.len() || fuel == 0 {
        assert(old(out)@ + forest(drafts@, cs@.skip(j as int), fuel as nat) =~= old(out)@);
        return;
    }
    let c = cs[j];
    out.push(c);
    let below = children_idx(drafts, Some(drafts[c].key));
    visit(drafts, &below, 0, fuel - 1, out);
    visit(drafts, cs, j + 1, fuel, out);
    proof {
        let rest = cs@.skip(j as int);
        assert(rest.drop_first() =~= cs@.skip(j + 1));
        assert(below@.skip(0) =~= below@);
        assert(out@ =~= old(out)@ + forest(drafts@, rest, fuel as nat));
    }
}

/// Re-derives depth-first pre-order from the parent links; siblings keep
/// their relative order. Dangling and self links become root paths first.
/// If some draft cannot be reached from a root path (its links loop), the
/// order is left as it was.
pub fn normalize_order(drafts: &mut Vec<StepDraft>)
    ensures
        final(drafts)@ == normalized(old(drafts)@),
{
    let ghost start = drafts@;
    fix_parents(drafts);
    let n = drafts.len();
    let roots = children_idx(drafts.as_slice(), None);
    let mut order: Vec<usize> = Vec::new();
    visit(drafts.as_slice(), &roots, 0, n, &mut order);
    proof {
        assert(roots@.skip(0) =~= roots@);
        assert(order@ =~= dfs_drafts(drafts@));
    }
    if order.len() == n {
        proof {
            lemma_forest_in_range(drafts@, roots@, n as nat);
        }
        let mut out: Vec<StepDraft> = Vec::new();
        let mut taken: Vec<bool> = Vec::new();
        let mut t: usize = 0;
        while t < n
            invariant
                t <= n,
                taken@.len() == t,
                forall|x: int| 0 <= x < t ==> !#[trigger] taken@[x],
            decreases n - t,
        {
            taken.push(false);
            t += 1;
        }
        let mut k: usize = 0;
        assert(order@.take(0) =~= Seq::<usize>::empty());
        while k < n
            invariant
                n == drafts@.len() == order@.len() == taken@.len(),
                k <= n,
                forall|q: int| 0 <= q < n ==> #[trigger] order@[q] < n,
                forall|x: int| 0 <= x < n ==> #[trigger] taken@[x] == order@.take(k as int).contains(x as usize),
                out@ == first_occurrences(order@.take(k as int)).map_values(|i: usize| drafts@[i as int]),
            decreases n - k,
        {
            let i = order[k];
            let ghost before = order@.take(k as int);
            let ghost after = order@.take(k + 1);
            assert(after.drop_last() =~= before);
            assert(after.last() == i);
            assert(taken@[i as int] == before.contains(i));
            if !taken[i] {
                let ghost fo = first_occurrences(before).map_values(|j: usize| drafts@[j as int]);
                out.push(drafts[i].duplicate());
                taken.set(i, true);
                assert(out@ =~= first_occurrences(after).map_values(|j: usize| drafts@[j as int])) by {
                    assert(first_occurrences(after) == first_occurrences(before).push(i));
                }
            } else {
                assert(first_occurrences(after) == first_occurrences(before));
            }
            assert forall|x: int| 0 <= x < n implies #[trigger] taken@[x] == after.contains(x as usize) by {
                if after.contains(x as usize) {
                    let w = choose|w: int| 0 <= w < after.len() && after[w] == x as usize;
                    if w < k {
                        assert(before[w] == x as usize);
                    }
                }
                if before.contains(x as usize) {
                    let w = choose|w: int| 0 <= w < before.len() && before[w] == x as usize;
                    assert(after[w] == x as usize);
                }
                if x == i as int {
                    assert(after[k as int] == i);
                }
            }
            k += 1;
        }
        assert(order@.take(n as int) =~= order@);
        *drafts = out;
    }
}

proof fn lemma_kids_in_range(s: Seq<StepDraft>, par: Option<u32>, k: int)
    requires
        k <= s.len() <= usize::MAX,
    ensures
        forall|q: int| 0 <= q < kids(s, par, k).len() ==> #[trigger] kids(s, par, k)[q] < s.len(),
    decreases k,
{
    if k > 0 {
        lemma_kids_in_range(s, par, k - 1);
        let a = kids(s, par, k - 1);
        assert forall|q: int| 0 <= q < kids(s, par, k).len() implies #[trigger] kids(s, par, k)[q] < s.len() by {
            if q < a.len() {
                assert(kids(s, par, k)[q] == a[q]);
            }
        }
    }
}

proof fn lemma_forest_in_range(s: Seq<StepDraft>, cs: Seq<usize>, fuel: nat)
    requires
        s.len() <= usize::MAX,
        forall|q: int| 0 <= q < cs.len() ==> #[trigger] cs[q] < s.len(),
    ensures
        forall|q: int| 0 <= q < forest(s, cs, fuel).len() ==> #[trigger] forest(s, cs, fuel)[q] < s.len(),
    decreases fuel, cs.len(),
{
    if cs.len() > 0 && fuel > 0 {
        let below = children_of(s, Some(s[cs[0] as int].key));
        lemma_kids_in_range(s, Some(s[cs[0] as int].key), s.len() as int);
        lemma_forest_in_range(s, below, (fuel - 1) as nat);
        lemma_forest_in_range(s, cs.drop_first(), fuel);
        let f = forest(s, cs, fuel);
        assert forall|q: int| 0 <= q < f.len() implies #[trigger] f[q] < s.len() by {
            let a = forest(s, below, (fuel - 1) as nat);
            let b = forest(s, cs.drop_first(), fuel);
            assert(f == seq![cs[0]] + a + b);
            if q == 0 {
            } else if q < 1 + a.len() {
                assert(f[q] == a[q - 1]);
            } else {
                assert(f[q] == b[q - 1 - a.len()]);
            }
        }
    }
}

/// Splicing a step in after `sel` and then removing just that step again
/// (as cancelling a blank inserted step does) gives back the drafts as they
/// were, when they stood in the order `normalize_order` keeps.
pub proof fn lemma_insert_then_splice_restores(s: Seq<StepDraft>, sel: int, d: StepDraft)
    requires
        0 <= sel < s.len(),
        max_key(s) < u32::MAX,
        links_known(s),
        normalized(s) == s,
    ensures
        ({
            let t = spliced_in(s, sel, d);
            normalized(relink_all(t, Some(t[sel + 1].key), t[sel + 1].parent).remove(sel + 1)) == s
        }),
{
    lemma_fresh_key(s);
    let t = spliced_in(s, sel, d);
    let k = s[sel].key;
    let f = fresh_key(s) as u32;
    let r = relink_all(s, Some(k), Some(f));
    let u = relink_all(t, Some(f), Some(k)).remove(sel + 1);
    assert(t[sel + 1].key == f && t[sel + 1].parent == Some(k));
    assert forall|j: int| 0 <= j < s.len() implies #[trigger] u[j] == s[j] by {
        let tj = if j <= sel {
            j
        } else {
            j + 1
        };
        assert(t[tj] == r[j]);
        assert(u[j] == relink(t[tj], Some(f), Some(k)));
        if s[j].parent == Some(f) {
            assert(has_key(s, f));
        }
    }
    assert(u =~= s);
}

/// Removes only draft `i`; its children move up to its parent, so no other
/// step is lost. The order is then re-derived (the promoted children may
/// have ended up after later siblings of `i`).
pub fn remove_splice(drafts: &mut Vec<StepDraft>, i: usize)
    requires
        i < old(drafts)@.len(),
    ensures
        final(drafts)@ == normalized(
            relink_all(old(drafts)@, Some(old(drafts)@[i as int].key), old(drafts)@[i as int].parent).remove(
                i as int,
            ),
        ),
{
    let key = drafts[i].key;
    let parent = drafts[i].parent;
    relink_children(drafts, Some(key), parent);
    drafts.remove(i);
    normalize_order(drafts);
}

/// Drops, from index `i` on, every draft with a blank answer; the children
/// of a dropped draft move up to its parent.
pub open spec fn prune_from(s: Seq<StepDraft>, i: int) -> Seq<StepDraft>
    decreases s.len() - i,
{
    if i < 0 || i >= s.len() {
        s
    } else if is_blank(s[i].answer@) {
        prune_from(relink_all(s, Some(s[i].key), s[i].parent).remove(i), i)
    } else {
        prune_from(s, i + 1)
    }
}

/// Blank-answer drafts are dropped when saving, but their children are
/// kept: they move up to the dropped step's parent.
pub fn prune_blank(drafts: &[StepDraft]) -> (r: Vec<StepDraft>)
    ensures
        r@ == normalized(prune_from(drafts@, 0)),
{
    let mut out: Vec<StepDraft> = Vec::new();
    let mut k: usize = 0;
    while k < drafts.len()
        invariant
            k <= drafts@.len(),
            out@ == drafts@.take(k as int),
        decreases drafts@.len() - k,
    {
        out.push(drafts[k].duplicate());
        k += 1;
        assert(out@ =~= drafts@.take(k as int));
    }
    assert(drafts@.take(drafts@.len() as int) =~= drafts@);
    let mut i: usize = 0;
    while i < out.len()
        invariant
            i <= out@.len(),
            prune_from(out@, i as int) == prune_from(drafts@, 0),
        decreases out@.len() - i,
    {
        if blank(out[i].answer.as_str()) {
            let key = out[i].key;
            let parent = out[i].parent;
            relink_children(&mut out, Some(key), parent);
            out.remove(i);
        } else {
            i += 1;
        }
    }
    normalize_order(&mut out);
    out
}

// ~~~ drafts of stored steps ~~~~~~~~~~~~~~~~~~~~~~~~~~~~~~~~~~~~~~~~~~~~~~~~~~

/// A draft as plain values: key, stored id, parent, name, answer, image.
pub open spec fn full_view(d: StepDraft) -> (u32, Option<Seq<char>>, Option<u32>, Seq<char>, Seq<char>, Option<Seq<char>>) {
    (
        d.key,
        match d.db_id {
            Some(x) => Some(x@),
            None => None,
        },
        d.parent,
        d.name@,
        d.answer@,
        match d.image {
            Some(x) => Some(x@),
            None => None,
        },
    )
}

/// The label a step gets when it has no name: its place in its path.
pub open spec fn auto_label(depth: nat) -> Seq<char> {
    "Step "@ + decimal(depth + 1)
}

/// Where `x` stands in `o`.
pub open spec fn place_of(o: Seq<usize>, x: usize) -> int {
    choose|q: int| 0 <= q < o.len() && o[q] == x
}

/// Draft `k` made from a tree: the `k`-th step in depth-first order, keyed
/// by that place, its parent by the parent's place, its stored id kept, and
/// an automatic "Step N" label turned back into no name.
pub open spec fn tree_draft(t: StepTree, k: int) -> (u32, Option<Seq<char>>, Option<u32>, Seq<char>, Seq<char>, Option<Seq<char>>) {
    let o = t.dfs_seq();
    let i = o[k] as int;
    let it = t.item_seq()[i];
    (
        k as u32,
        Some(it.id@),
        match t.parent_of(i) {
            Some(p) => Some(place_of(o, p) as u32),
            None => None,
        },
        if it.prompt@ == auto_label((t.path(i).len() - 1) as nat) {
            seq![]
        } else {
            it.prompt@
        },
        it.answer@,
        match it.image_path {
            Some(x) => Some(x@),
            None => None,
        },
    )
}

/// The drafts of a tree's steps, in depth-first order.
pub fn drafts_from_tree(tree: &StepTree) -> (r: Vec<StepDraft>)
    requires
        tree.wf(),
    ensures
        r@.len() == tree.n(),
        forall|k: int| 0 <= k < r@.len() ==> full_view(#[trigger] r@[k]) == tree_draft(*tree, k),
{
    proof {
        tree.lemma_every_step_once();
    }
    let order = tree.dfs_order();
    let n = tree.len();
    let ghost o = order@;
    assert(o.len() == n) by {
        assert forall|x: int| 0 <= x < n implies #[trigger] o.contains(x as usize) by {}
        lemma_nodup_cover(o, n as int);
    }
    // place[i] = where step i stands in the order
    let mut place: Vec<usize> = Vec::new();
    let mut q: usize = 0;
    while q < n
        invariant
            place@.len() == q <= n,
            forall|x: int| 0 <= x < q ==> #[trigger] place@[x] == 0,
        decreases n - q,
    {
        place.push(0);
        q += 1;
    }
    let mut k: usize = 0;
    while k < n
        invariant
            o == order@,
            o.len() == n,
            o.no_duplicates(),
            forall|j: int| 0 <= j < n ==> #[trigger] o[j] < n,
            place@.len() == n,
            k <= n,
            forall|j: int| 0 <= j < k ==> #[trigger] place@[o[j] as int] == j,
        decreases n - k,
    {
        let i = order[k];
        place.set(i, k);
        proof {
            assert forall|j: int| 0 <= j < k + 1 implies #[trigger] place@[o[j] as int] == j by {
                if j < k {
                    assert(o[j] != o[k as int]);
                }
            }
        }
        k += 1;
    }
    let mut out: Vec<StepDraft> = Vec::new();
    let mut k: usize = 0;
    while k < n
        invariant
            tree.wf(),
            n == tree.n(),
            o == order@,
            o == tree.dfs_seq(),
            o.len() == n,
            o.no_duplicates(),
            forall|j: int| 0 <= j < n ==> #[trigger] o[j] < n,
            forall|x: int| 0 <= x < n ==> #[trigger] o.contains(x as usize),
            place@.len() == n,
            forall|j: int| 0 <= j < n ==> #[trigger] place@[o[j] as int] == j,
            k <= n,
            out@.len() == k,
            forall|j: int| 0 <= j < k ==> full_view(#[trigger] out@[j]) == tree_draft(*tree, j),
        decreases n - k,
    {
        let i = order[k];
        let it = tree.item(i);
        proof {
            tree.lemma_parent_in_range(i as int);
        }
        let parent = match tree.parent(i) {
            Some(p) => {
                proof {
                    assert(o.contains((p as int) as usize));
                    assert(o.contains(p));
                    let q = choose|q: int| 0 <= q < o.len() && o[q] == p;
                    assert(place@[o[q] as int] == q);
                    assert(place_of(o, p) == q) by {
                        let c = place_of(o, p);
                        assert(o[c] == p);
                        if c != q {
                            assert(o[c] == o[q]);
                        }
                    }
                }
                Some(place[p] as u32)
            },
            None => None,
        };
        let path = tree.path_to(i);
        let mut label = String::new();
        push_all(&mut label, "Step ");
        push_decimal(&mut label, path.len());
        assert(label@ =~= auto_label((tree.path(i as int).len() - 1) as nat));
        let name = if same_text(it.prompt.as_str(), label.as_str()) {
            String::new()
        } else {
            it.prompt.clone()
        };
        let d = StepDraft {
            key: k as u32,
            db_id: Some(it.id.clone()),
            parent,
            name,
            answer: it.answer.clone(),
            image: copy_opt_string(&it.image_path),
        };
        out.push(d);
        k += 1;
    }
    out
}

proof fn lemma_nodup_cover(o: Seq<usize>, n: int)
    requires
        o.no_duplicates(),
        forall|j: int| 0 <= j < o.len() ==> #[trigger] o[j] < n,
        forall|x: int| 0 <= x < n ==> #[trigger] o.contains(x as usize),
        0 <= n <= usize::MAX,
    ensures
        o.len() == n,
{
    let s = o.to_set();
    let full = Set::new(|x: usize| 0 <= x < n);
    assert(s =~= full) by {
        assert forall|x: usize| s.contains(x) <==> full.contains(x) by {
            if s.contains(x) {
                let j = choose|j: int| 0 <= j < o.len() && o[j] == x;
                assert(o[j] < n);
            }
            if full.contains(x) {
                assert(o.contains(x as usize));
            }
        }
    }
    o.unique_seq_to_set();
    lemma_range_set_len(n);
}

proof fn lemma_range_set_len(n: int)
    requires
        0 <= n <= usize::MAX + 1,
    ensures
        Set::new(|x: usize| 0 <= x < n).len() == n,
        Set::new(|x: usize| 0 <= x < n).finite(),
    decreases n,
{
    let s = Set::new(|x: usize| 0 <= x < n);
    if n == 0 {
        assert(s =~= Set::empty());
    } else {
        lemma_range_set_len(n - 1);
        let t = Set::new(|x: usize| 0 <= x < n - 1);
        assert(s =~= t.insert((n - 1) as usize));
    }
}

/// Stored steps as drafts, in depth-first order, each keeping its stored
/// id; automatic "Step N" labels are turned back into blank names.
pub fn drafts_from_items(is_tree: bool, items: &[Item]) -> (r: Vec<StepDraft>)
    ensures
        r@.len() == items@.len(),
        exists|t: StepTree| #[trigger] t.made_from(is_tree, items@) && forall|k: int|
            0 <= k < r@.len() ==> full_view(#[trigger] r@[k]) == tree_draft(t, k),
{
    let tree = StepTree::new(is_tree, items);
    let r = drafts_from_tree(&tree);
    assert(tree.made_from(is_tree, items@));
    r
}

// ~~~ saving drafts ~~~~~~~~~~~~~~~~~~~~~~~~~~~~~~~~~~~~~~~~~~~~~~~~~~~~~~~~~~~

/// One stored step row, as a save writes it.
pub struct StepRow {
    pub id: String,
    pub parent_id: Option<String>,
    /// 1-based place in depth-first order
    pub position: i32,
    /// the step's name, or "Step N" (its place in its path) when unnamed
    pub label: String,
    pub answer: String,
    pub image: Option<String>,
    /// the row exists and is updated in place (else it is inserted)
    pub update: bool,
}

/// The row ids of the first `k` drafts: a draft keeps its stored id when
/// that row exists and no earlier draft claimed it, else it takes the next
/// fresh id.
pub open spec fn row_ids(s: Seq<StepDraft>, existing: Seq<Seq<char>>, fresh: Seq<Seq<char>>, k: int) -> Seq<Seq<char>>
    decreases k,
{
    if k <= 0 {
        seq![]
    } else {
        let ids = row_ids(s, existing, fresh, k - 1);
        let x = match s[k - 1].db_id {
            Some(d) => if existing.contains(d@) && !ids.contains(d@) {
                d@
            } else {
                fresh[k - 1]
            },
            None => fresh[k - 1],
        };
        ids.push(x)
    }
}

/// Row `k` as plain values: id, parent id, position, label, answer,
/// image, update. A key names the last draft carrying it.
pub open spec fn planned_row(s: Seq<StepDraft>, existing: Seq<Seq<char>>, fresh: Seq<Seq<char>>, k: int) -> (
    Seq<char>,
    Option<Seq<char>>,
    int,
    Seq<char>,
    Seq<char>,
    Option<Seq<char>>,
    bool,
) {
    let ids = row_ids(s, existing, fresh, s.len() as int);
    let id = ids[last_key_pos(s, s[k].key, s.len() as int)->0];
    (
        id,
        match s[k].parent {
            Some(p) => match last_key_pos(s, p, s.len() as int) {
                Some(j) => Some(ids[j]),
                None => None,
            },
            None => None,
        },
        k + 1,
        if is_blank(s[k].name@) {
            auto_label(draft_depth(s, k))
        } else {
            trim(s[k].name@)
        },
        s[k].answer@,
        match s[k].image {
            Some(x) => Some(x@),
            None => None,
        },
        existing.contains(id),
    )
}

/// A row as plain values.
pub open spec fn row_view(r: StepRow) -> (Seq<char>, Option<Seq<char>>, int, Seq<char>, Seq<char>, Option<Seq<char>>, bool) {
    (
        r.id@,
        match r.parent_id {
            Some(x) => Some(x@),
            None => None,
        },
        r.position as int,
        r.label@,
        r.answer@,
        match r.image {
            Some(x) => Some(x@),
            None => None,
        },
        r.update,
    )
}

fn text_in(v: &Vec<String>, s: &str) -> (b: bool)
    ensures
        b == v@.map_values(|x: String| x@).contains(s@),
{
    let ghost names = v@.map_values(|x: String| x@);
    let mut k: usize = 0;
    while k < v.len()
        invariant
            names == v@.map_values(|x: String| x@),
            k <= v@.len(),
            forall|q: int| 0 <= q < k ==> names[q] != s@,
        decreases v@.len() - k,
    {
        if same_text(v[k].as_str(), s) {
            assert(names[k as int] == s@);
            return true;
        }
        k += 1;
    }
    false
}

/// Plans the rows a save writes for `drafts`: which stored row each draft
/// keeps (ids in `existing` can be kept, each by one draft) or which fresh
/// id it takes (`fresh[k]` for draft `k`), parent ids, positions and
/// labels. Also gives every id used.
pub fn plan_step_rows(drafts: &[StepDraft], existing: &Vec<String>, fresh: &Vec<String>) -> (r: (Vec<StepRow>, Vec<String>))
    requires
        fresh@.len() >= drafts@.len(),
        drafts@.len() + 1 < i32::MAX,
    ensures
        r.1@.map_values(|x: String| x@) == row_ids(
            drafts@,
            existing@.map_values(|x: String| x@),
            fresh@.map_values(|x: String| x@),
            drafts@.len() as int,
        ),
        r.0@.len() == drafts@.len(),
        forall|k: int|
            0 <= k < drafts@.len() ==> row_view(#[trigger] r.0@[k]) == planned_row(
                drafts@,
                existing@.map_values(|x: String| x@),
                fresh@.map_values(|x: String| x@),
                k,
            ),
{
    let ghost ex = existing@.map_values(|x: String| x@);
    let ghost fr = fresh@.map_values(|x: String| x@);
    let n = drafts.len();
    let depths = draft_depths(drafts);
    let mut used: Vec<String> = Vec::new();
    let mut k: usize = 0;
    while k < n
        invariant
            n == drafts@.len(),
            fresh@.len() >= n,
            ex == existing@.map_values(|x: String| x@),
            fr == fresh@.map_values(|x: String| x@),
            k <= n,
            used@.len() == k,
            used@.map_values(|x: String| x@) == row_ids(drafts@, ex, fr, k as int),
        decreases n - k,
    {
        let ghost before = used@.map_values(|x: String| x@);
        let id = match &drafts[k].db_id {
            Some(d) => {
                if text_in(existing, d.as_str()) && !text_in(&used, d.as_str()) {
                    d.clone()
                } else {
                    fresh[k].clone()
                }
            },
            None => fresh[k].clone(),
        };
        used.push(id);
        proof {
            assert(used@.map_values(|x: String| x@) =~= before.push(used@[k as int]@));
        }
        k += 1;
    }
    let ghost ids = used@.map_values(|x: String| x@);
    let mut rows: Vec<StepRow> = Vec::new();
    let mut i: usize = 0;
    while i < n
        invariant
            n == drafts@.len(),
            n + 1 < i32::MAX,
            ex == existing@.map_values(|x: String| x@),
            fr == fresh@.map_values(|x: String| x@),
            used@.len() == n,
            ids == used@.map_values(|x: String| x@),
            ids == row_ids(drafts@, ex, fr, n as int),
            depths@.len() == n,
            forall|q: int| 0 <= q < n ==> #[trigger] depths@[q] == draft_depth(drafts@, q),
            i <= n,
            rows@.len() == i,
            forall|q: int| 0 <= q < i ==> row_view(#[trigger] rows@[q]) == planned_row(drafts@, ex, fr, q),
        decreases n - i,
    {
        let d = &drafts[i];
        proof {
            lemma_last_key_pos(drafts@, d.key, n as int);
        }
        let at = match last_index_of_key(drafts, d.key) {
            Some(a) => a,
            None => i,
        };
        assert(ids[at as int] == used@[at as int]@);
        let id = used[at].clone();
        let parent_id = match d.parent {
            Some(p) => {
                proof {
                    lemma_last_key_pos(drafts@, p, n as int);
                }
                match last_index_of_key(drafts, p) {
                    Some(j) => {
                        assert(ids[j as int] == used@[j as int]@);
                        Some(used[j].clone())
                    },
                    None => None,
                }
            },
            None => None,
        };
        let label = if blank(d.name.as_str()) {
            proof {
                lemma_link_count_bound(drafts@, drafts@[i as int].parent, (n + 1) as nat);
            }
            let mut l = String::new();
            push_all(&mut l, "Step ");
            push_decimal(&mut l, depths[i] + 1);
            assert(l@ =~= auto_label(draft_depth(drafts@, i as int)));
            l
        } else {
            trimmed(d.name.as_str())
        };
        let update = text_in(existing, id.as_str());
        rows.push(
            StepRow {
                id,
                parent_id,
                position: (i + 1) as i32,
                label,
                answer: d.answer.clone(),
                image: copy_opt_string(&d.image),
                update,
            },
        );
        i += 1;
    }
    (rows, used)
}

// ~~~ outline ~~~~~~~~~~~~~~~~~~~~~~~~~~~~~~~~~~~~~~~~~~~~~~~~~~~~~~~~~~~~~~~~~

/// How one draft is drawn in the editor outline.
#[derive(Debug, Clone, PartialEq, Eq)]
pub struct OutlineRow {
    /// Text drawn before the step number: the tree rails and, for the first
    /// step of a branch, its connector. A plain chain has none (it stays
    /// flat); only forks add columns. Two alternative root paths where the
    /// first continues and then forks again are drawn as
    ///
    /// ┌─ 1. path A            head of the first alternative
    /// │  2. ...               chain continues, rail stays on
    /// │  ├─ 3. ...            first branch of a fork under step 2
    /// │  └─ 3....             last branch
    /// └─ 1. path B            head of the last alternative
    ///    2. ...               rail ends, nothing is left below it
    pub guide: String,
    /// 1-based position within its path (review calls it "step N")
    pub step_no: usize,
    /// `Some(is_last_sibling)` if this step is one of several siblings
    pub branch: Option<bool>,
}

/// A rail kept on beside the children of a branch that has later siblings.
pub open spec fn rail() -> Seq<char> {
    "│  "@
}

/// The blank column beside the children of a last branch.
pub open spec fn gap() -> Seq<char> {
    "   "@
}

/// The keys of the drafts among `s[..k]` whose parent is `par`, in order.
pub open spec fn sib_keys(s: Seq<StepDraft>, par: Option<u32>, k: int) -> Seq<u32>
    decreases k,
{
    if k <= 0 {
        seq![]
    } else {
        sib_keys(s, par, k - 1) + if s[k - 1].parent == par {
            seq![s[k - 1].key]
        } else {
            seq![]
        }
    }
}

/// The keys of the drafts that share draft `i`'s parent, `i` among them.
pub open spec fn siblings(s: Seq<StepDraft>, i: int) -> Seq<u32> {
    sib_keys(s, s[i].parent, s.len() as int)
}

/// Draft `i` is one of several siblings.
pub open spec fn forked(s: Seq<StepDraft>, i: int) -> bool {
    siblings(s, i).len() > 1
}

/// Draft `i` is its parent's last child.
pub open spec fn last_sibling(s: Seq<StepDraft>, i: int) -> bool {
    siblings(s, i).last() == s[i].key
}

/// The rails a row inherits from the row of its parent (none for a root
/// path, or when the parent is not drawn above it).
pub open spec fn lead(s: Seq<StepDraft>, i: int) -> Seq<char>
    decreases i, 0int,
{
    match s[i].parent {
        Some(p) => match last_key_pos(s, p, s.len() as int) {
            Some(pi) => if 0 <= pi < i {
                hand_down(s, pi)
            } else {
                seq![]
            },
            None => seq![],
        },
        None => seq![],
    }
}

/// What the row of draft `i` hands to its children: its own lead and,
/// below a branch, a rail while later siblings follow (a blank column after
/// the last one).
pub open spec fn hand_down(s: Seq<StepDraft>, i: int) -> Seq<char>
    decreases i, 1int,
{
    if forked(s, i) {
        lead(s, i) + if last_sibling(s, i) {
            gap()
        } else {
            rail()
        }
    } else {
        lead(s, i)
    }
}

/// The connector of a branch: several root paths have no row above them to
/// hang from, so the first one opens a bracket and the rest hang off it.
pub open spec fn connector(s: Seq<StepDraft>, i: int) -> Seq<char> {
    if s[i].parent is None && siblings(s, i)[0] == s[i].key {
        "┌─ "@
    } else if last_sibling(s, i) {
        "└─ "@
    } else {
        "├─ "@
    }
}

/// The guide of draft `i`'s row.
pub open spec fn guide_of(s: Seq<StepDraft>, i: int) -> Seq<char> {
    if forked(s, i) {
        lead(s, i) + connector(s, i)
    } else {
        lead(s, i)
    }
}

/// The branch mark of draft `i`'s row.
pub open spec fn branch_of(s: Seq<StepDraft>, i: int) -> Option<bool> {
    if forked(s, i) {
        Some(last_sibling(s, i))
    } else {
        None
    }
}

fn sibling_keys(drafts: &[StepDraft], par: Option<u32>) -> (r: Vec<u32>)
    ensures
        r@ == sib_keys(drafts@, par, drafts@.len() as int),
{
    let n = drafts.len();
    let mut r: Vec<u32> = Vec::new();
    let mut i: usize = 0;
    while i < n
        invariant
            n == drafts@.len(),
            i <= n,
            r@ == sib_keys(drafts@, par, i as int),
        decreases n - i,
    {
        if drafts[i].parent == par {
            r.push(drafts[i].key);
        }
        i += 1;
    }
    r
}

/// How every draft is drawn in the editor outline: its guide, its step
/// number along its path, and whether it is a (last) branch.
pub fn outline(drafts: &[StepDraft]) -> (rows: Vec<OutlineRow>)
    requires
        drafts@.len() + 1 < usize::MAX,
    ensures
        rows@.len() == drafts@.len(),
        forall|i: int|
            0 <= i < rows@.len() ==> {
                &&& (#[trigger] rows@[i]).guide@ == guide_of(drafts@, i)
                &&& rows@[i].step_no == draft_depth(drafts@, i) + 1
                &&& rows@[i].branch == branch_of(drafts@, i)
            },
{
    let n = drafts.len();
    let depths = draft_depths(drafts);
    let mut handed: Vec<String> = Vec::new();
    let mut rows: Vec<OutlineRow> = Vec::new();
    let mut i: usize = 0;
    while i < n
        invariant
            n == drafts@.len(),
            n + 1 < usize::MAX,
            i <= n,
            depths@.len() == n,
            forall|k: int| 0 <= k < n ==> #[trigger] depths@[k] == draft_depth(drafts@, k),
            handed@.len() == i,
            forall|k: int| 0 <= k < i ==> (#[trigger] handed@[k])@ == hand_down(drafts@, k),
            rows@.len() == i,
            forall|k: int|
                0 <= k < i ==> {
                    &&& (#[trigger] rows@[k]).guide@ == guide_of(drafts@, k)
                    &&& rows@[k].step_no == draft_depth(drafts@, k) + 1
                    &&& rows@[k].branch == branch_of(drafts@, k)
                },
        decreases n - i,
    {
        proof {
            lemma_link_count_bound(drafts@, drafts@[i as int].parent, (n + 1) as nat);
        }
        let prefix: String = match drafts[i].parent {
            Some(p) => match last_index_of_key(drafts, p) {
                Some(pi) => if pi < i {
                    handed[pi].clone()
                } else {
                    String::new()
                },
                None => String::new(),
            },
            None => String::new(),
        };
        proof {
            lemma_last_key_pos(drafts@, drafts@[i as int].parent->0, n as int);
        }
        assert(prefix@ == lead(drafts@, i as int));
        let group = sibling_keys(drafts, drafts[i].parent);
        let step_no = depths[i] + 1;
        if group.len() > 1 {
            let first = group[0] == drafts[i].key;
            let last = group[group.len() - 1] == drafts[i].key;
            let mut down = prefix.clone();
            if last {
                push_all(&mut down, "   ");
            } else {
                push_all(&mut down, "│  ");
            }
            handed.push(down);
            let mut guide = prefix;
            if drafts[i].parent.is_none() && first {
                push_all(&mut guide, "┌─ ");
            } else if last {
                push_all(&mut guide, "└─ ");
            } else {
                push_all(&mut guide, "├─ ");
            }
            rows.push(OutlineRow { guide, step_no, branch: Some(last) });
        } else {
            handed.push(prefix.clone());
            rows.push(OutlineRow { guide: prefix, step_no, branch: None });
        }
        i += 1;
    }
    rows
}

proof fn lemma_link_count_bound(s: Seq<StepDraft>, cur: Option<u32>, fuel: nat)
    requires
        fuel >= 1,
    ensures
        link_count(s, cur, fuel) <= fuel,
    decreases fuel,
{
    if fuel > 1 {
        match cur {
            Some(p) => lemma_link_count_bound(s, up_key(s, p), (fuel - 1) as nat),
            None => {},
        }
    }
}

} // verus!
