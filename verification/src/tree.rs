//! The steps of a multi-step card form a tree: a step may have several
//! children (branches), and several steps may hang directly under the
//! question (root paths). A linear chain is the tree in which every step has
//! one child.
//!
//!  * `is_tree == false`: a legacy chain, the parent of a step is the
//!    previous step by position;
//!  * `is_tree == true`: `Item::parent_id` is authoritative, `None` = a root
//!    path.
//!
//! The frontier is the set of due steps with no due ancestor: an ancestor
//! must be recalled before anything below it is asked, and failing an
//! ancestor makes every descendant due.

use vstd::prelude::*;
use crate::models::{Item, same_item};
use crate::text::{concat, push_all, same_text};

verus! {

/// A runtime tree over the stored items of one card.
pub struct StepTree<'a> {
    items: &'a [Item],
    parent: Vec<Option<usize>>,
    /// children of each step, in display order
    children: Vec<Vec<usize>>,
    /// the steps attached to the question, in display order
    roots: Vec<usize>,
    /// a witness that the parent links have no cycle: a parent's rank is
    /// below its child's
    rank: Ghost<Seq<nat>>,
    rank_bound: Ghost<nat>,
    /// every step once, in display order
    display: Ghost<Seq<usize>>,
}

/// `a` is displayed before `b`: by position, then by place in the slice.
pub open spec fn displayed_before(items: Seq<Item>, a: int, b: int) -> bool {
    items[a].position < items[b].position || (items[a].position == items[b].position && a < b)
}

/// The last step of `items[..k]` whose id is `id`.
pub open spec fn last_with_id(items: Seq<Item>, id: Seq<char>, k: int) -> Option<usize>
    decreases k,
{
    if k <= 0 {
        None
    } else if items[k - 1].id@ == id {
        Some((k - 1) as usize)
    } else {
        last_with_id(items, id, k - 1)
    }
}

/// The parent that `items[i]` names: the last step carrying that id, unless
/// that is `i` itself (a dangling or self parent means a root path).
pub open spec fn declared_parent(items: Seq<Item>, i: int) -> Option<usize> {
    match items[i].parent_id {
        Some(p) => match last_with_id(items, p@, items.len() as int) {
            Some(j) => if j == i {
                None
            } else {
                Some(j)
            },
            None => None,
        },
        None => None,
    }
}

/// Following declared parents `k` times from `i`.
pub open spec fn declared_iter(items: Seq<Item>, i: int, k: nat) -> Option<usize>
    decreases k,
{
    if k == 0 {
        Some(i as usize)
    } else {
        match declared_iter(items, i, (k - 1) as nat) {
            Some(j) => if j < items.len() {
                declared_parent(items, j as int)
            } else {
                None
            },
            None => None,
        }
    }
}

/// `i` lies on a cycle of declared parents.
pub open spec fn on_declared_cycle(items: Seq<Item>, i: int) -> bool {
    exists|k: nat| k >= 1 && declared_iter(items, i, k) == Some(i as usize)
}

/// Following declared parents from `a` reaches `b` (in no steps or more).
pub open spec fn declared_reaches(items: Seq<Item>, a: int, b: int) -> bool {
    exists|k: nat| #[trigger] declared_iter(items, a, k) == Some(b as usize)
}

/// Of every cycle of declared parents, at most one step lost its link
/// under `parent`: no two cut steps reach one another.
pub open spec fn one_cut_per_cycle(items: Seq<Item>, parent: Seq<Option<usize>>) -> bool {
    forall|a: int, b: int|
        #![trigger declared_reaches(items, a, b)]
        0 <= a < items.len() && 0 <= b < items.len() && a != b && parent[a] != declared_parent(items, a)
            && parent[b] != declared_parent(items, b) ==> !declared_reaches(items, a, b)
}

/// Declared parents are steps.
proof fn lemma_declared_parent_in_range(items: Seq<Item>, i: int)
    requires
        0 <= i < items.len(),
    ensures
        declared_parent(items, i) matches Some(p) ==> p < items.len(),
{
    match items[i].parent_id {
        Some(pid) => lemma_last_with_id_range(items, pid@, items.len() as int),
        None => {},
    }
}

/// Following `k1` and then `k2` declared parents.
proof fn lemma_iter_add(items: Seq<Item>, a: int, k1: nat, k2: nat, c: usize)
    requires
        declared_iter(items, a, k1) == Some(c),
        c < items.len(),
    ensures
        declared_iter(items, a, k1 + k2) == declared_iter(items, c as int, k2),
    decreases k2,
{
    if k2 > 0 {
        lemma_iter_add(items, a, k1, (k2 - 1) as nat, c);
        assert((k1 + k2 - 1) as nat == k1 + (k2 - 1) as nat);
    }
}

/// Going round a cycle any number of times comes back.
proof fn lemma_iter_period(items: Seq<Item>, b: usize, len: nat, t: nat)
    requires
        b < items.len(),
        declared_iter(items, b as int, len) == Some(b),
    ensures
        declared_iter(items, b as int, len * t) == Some(b),
    decreases t,
{
    if t == 0 {
        assert(len * t == 0) by (nonlinear_arith)
            requires
                t == 0,
        ;
        assert(declared_iter(items, b as int, 0) == Some(b));
    } else {
        let t1 = (t - 1) as nat;
        lemma_iter_period(items, b, len, t1);
        let k1: nat = len * t1;
        assert(k1 + len == len * t) by (nonlinear_arith)
            requires
                t1 + 1 == t,
                k1 == len * t1,
        ;
        lemma_iter_add(items, b as int, k1, len, b);
        assert(declared_iter(items, b as int, k1 + len) == Some(b));
    }
}

/// A step on a cycle that reaches another step is reached back by it.
proof fn lemma_cycle_reached_back(items: Seq<Item>, b: usize, c: usize)
    requires
        b < items.len(),
        c < items.len(),
        on_declared_cycle(items, b as int),
        declared_reaches(items, b as int, c as int),
    ensures
        declared_reaches(items, c as int, b as int),
{
    let len = choose|k: nat| k >= 1 && declared_iter(items, b as int, k) == Some(b);
    let k1 = choose|k: nat| #[trigger] declared_iter(items, b as int, k) == Some(c);
    lemma_iter_period(items, b, len, k1);
    let m: nat = ((len - 1) as nat * k1) as nat;
    let total: nat = len * k1;
    assert(k1 + m == total) by (nonlinear_arith)
        requires
            len >= 1,
            m == (len - 1) as nat * k1,
            total == len * k1,
    ;
    lemma_iter_add(items, b as int, k1, m, c);
    assert(declared_iter(items, b as int, total) == Some(b));
    assert(declared_iter(items, b as int, k1 + m) == Some(b));
    assert(declared_iter(items, c as int, m) == Some(b));
}

/// Walking on from the start of a cycle of the walk stays on that cycle.
proof fn lemma_walk_orbit(items: Seq<Item>, walk: Seq<usize>, m: int, k: nat)
    requires
        0 <= m < walk.len(),
        forall|j: int| 0 <= j < walk.len() ==> #[trigger] walk[j] < items.len(),
        forall|j: int|
            0 <= j < walk.len() - 1 ==> declared_parent(items, #[trigger] walk[j] as int) == Some(
                walk[j + 1],
            ),
        declared_parent(items, walk.last() as int) == Some(walk[m]),
    ensures
        exists|j: int| m <= j < walk.len() && declared_iter(items, walk[m] as int, k) == Some(#[trigger] walk[j]),
    decreases k,
{
    if k == 0 {
        assert(declared_iter(items, walk[m] as int, k) == Some(walk[m]));
    } else {
        lemma_walk_orbit(items, walk, m, (k - 1) as nat);
        let j = choose|j: int| m <= j < walk.len() && declared_iter(items, walk[m] as int, (k - 1) as nat) == Some(#[trigger] walk[j]);
        if j < walk.len() - 1 {
            assert(declared_iter(items, walk[m] as int, k) == Some(walk[j + 1]));
        } else {
            assert(declared_iter(items, walk[m] as int, k) == Some(walk[m]));
        }
    }
}

/// `o` lists every step once, in display order.
pub open spec fn is_display_order(items: Seq<Item>, o: Seq<usize>) -> bool {
    &&& o.len() == items.len()
    &&& forall|k: int| 0 <= k < o.len() ==> #[trigger] o[k] < items.len()
    &&& forall|a: int, b: int|
        0 <= a < b < o.len() ==> displayed_before(items, #[trigger] o[a] as int, #[trigger] o[b] as int)
    &&& forall|x: int| 0 <= x < items.len() ==> #[trigger] o.contains(x as usize)
}

spec fn zeros(s: Seq<u8>) -> nat
    decreases s.len(),
{
    if s.len() == 0 {
        0
    } else {
        zeros(s.drop_last()) + if s.last() == 0 {
            1nat
        } else {
            0nat
        }
    }
}

proof fn lemma_zeros_update(s: Seq<u8>, i: int, v: u8)
    requires
        0 <= i < s.len(),
        s[i] == 0,
        v != 0,
    ensures
        zeros(s.update(i, v)) < zeros(s),
    decreases s.len(),
{
    let t = s.update(i, v);
    if i == s.len() - 1 {
        assert(t.drop_last() =~= s.drop_last());
    } else {
        assert(t.drop_last() =~= s.drop_last().update(i, v));
        lemma_zeros_update(s.drop_last(), i, v);
    }
}

fn find_last_id(items: &[Item], id: &str) -> (r: Option<usize>)
    ensures
        r == last_with_id(items@, id@, items@.len() as int),
{
    let mut k = items.len();
    while k > 0
        invariant
            k <= items@.len(),
            last_with_id(items@, id@, items@.len() as int) == last_with_id(items@, id@, k as int),
        decreases k,
    {
        if crate::text::same_text(items[k - 1].id.as_str(), id) {
            return Some(k - 1);
        }
        k -= 1;
    }
    None
}

/// Step indices in display order: by position, then by place in the slice.
fn display_order(items: &[Item]) -> (o: Vec<usize>)
    ensures
        is_display_order(items@, o@),
{
    let n = items.len();
    let mut order: Vec<usize> = Vec::new();
    let mut i: usize = 0;
    while i < n
        invariant
            n == items@.len(),
            i <= n,
            order@.len() == i,
            forall|k: int| 0 <= k < order@.len() ==> #[trigger] order@[k] < i,
            forall|a: int, b: int|
                0 <= a < b < order@.len() ==> displayed_before(
                    items@,
                    #[trigger] order@[a] as int,
                    #[trigger] order@[b] as int,
                ),
            forall|x: int| 0 <= x < i ==> #[trigger] order@.contains(x as usize),
        decreases n - i,
    {
        let mut k: usize = 0;
        while k < order.len() && items[order[k]].position <= items[i].position
            invariant
                n == items@.len(),
                i < n,
                k <= order@.len(),
                forall|q: int| 0 <= q < order@.len() ==> #[trigger] order@[q] < i,
                forall|q: int| 0 <= q < k ==> items@[#[trigger] order@[q] as int].position
                    <= items@[i as int].position,
            decreases order@.len() - k,
        {
            k += 1;
        }
        let ghost old_order = order@;
        order.insert(k, i);
        proof {
            let o = order@;
            assert(o =~= old_order.subrange(0, k as int).push(i) + old_order.subrange(
                k as int,
                old_order.len() as int,
            ));
            assert forall|q: int| 0 <= q < o.len() implies #[trigger] o[q] < i + 1 by {
                if q < k {
                    assert(o[q] == old_order[q]);
                } else if q > k {
                    assert(o[q] == old_order[q - 1]);
                }
            }
            assert forall|a: int, b: int| 0 <= a < b < o.len() implies displayed_before(
                items@,
                #[trigger] o[a] as int,
                #[trigger] o[b] as int,
            ) by {
                if b < k {
                    assert(o[a] == old_order[a] && o[b] == old_order[b]);
                } else if b == k {
                    assert(o[a] == old_order[a]);
                } else if a == k {
                    assert(o[b] == old_order[b - 1]);
                    assert(items@[old_order[k as int] as int].position > items@[i as int].position);
                    if b - 1 > k {
                        assert(displayed_before(
                            items@,
                            old_order[k as int] as int,
                            old_order[b - 1] as int,
                        ));
                    }
                } else if a < k {
                    assert(o[a] == old_order[a] && o[b] == old_order[b - 1]);
                } else {
                    assert(o[a] == old_order[a - 1] && o[b] == old_order[b - 1]);
                }
            }
            assert forall|x: int| 0 <= x < i + 1 implies #[trigger] o.contains(x as usize) by {
                if x == i {
                    assert(o[k as int] == i);
                } else {
                    assert(old_order.contains(x as usize));
                    let q = choose|q: int| 0 <= q < old_order.len() && old_order[q] == x as usize;
                    if q < k {
                        assert(o[q] == x as usize);
                    } else {
                        assert(o[q + 1] == x as usize);
                    }
                }
            }
        }
        i += 1;
    }
    order
}

/// The entries of `order` whose parent is `target`, in order.
fn with_parent(order: &Vec<usize>, parent: &Vec<Option<usize>>, target: Option<usize>) -> (r:
    Vec<usize>)
    requires
        forall|k: int| 0 <= k < order@.len() ==> #[trigger] order@[k] < parent@.len(),
    ensures
        r@ == order@.filter(|x: usize| parent@[x as int] == target),
{
    let ghost pred = |x: usize| parent@[x as int] == target;
    let mut r: Vec<usize> = Vec::new();
    let mut k: usize = 0;
    while k < order.len()
        invariant
            k <= order@.len(),
            forall|q: int| 0 <= q < order@.len() ==> #[trigger] order@[q] < parent@.len(),
            r@ == order@.take(k as int).filter(pred),
            pred == (|x: usize| parent@[x as int] == target),
        decreases order@.len() - k,
    {
        proof {
            assert(order@.take(k + 1) =~= order@.take(k as int).push(order@[k as int]));
            order@.take(k as int).lemma_filter_push(order@[k as int], pred);
        }
        let pv = parent[order[k]];
        let hit = match pv {
            Some(a) => match target {
                Some(b) => a == b,
                None => false,
            },
            None => target.is_none(),
        };
        if hit {
            r.push(order[k]);
        }
        k += 1;
    }
    assert(order@.take(order@.len() as int) =~= order@);
    r
}

fn declared_parents(items: &[Item]) -> (r: Vec<Option<usize>>)
    ensures
        r@.len() == items@.len(),
        forall|i: int| 0 <= i < items@.len() ==> #[trigger] r@[i] == declared_parent(items@, i),
        forall|i: int|
            0 <= i < items@.len() ==> match #[trigger] r@[i] {
                Some(p) => p < items@.len(),
                None => true,
            },
{
    let n = items.len();
    let mut r: Vec<Option<usize>> = Vec::new();
    let mut i: usize = 0;
    while i < n
        invariant
            n == items@.len(),
            i <= n,
            r@.len() == i,
            forall|q: int| 0 <= q < i ==> #[trigger] r@[q] == declared_parent(items@, q),
            forall|q: int|
                0 <= q < i ==> match #[trigger] r@[q] {
                    Some(p) => p < items@.len(),
                    None => true,
                },
        decreases n - i,
    {
        let d = match &items[i].parent_id {
            Some(pid) => match find_last_id(items, pid.as_str()) {
                Some(j) => if j == i {
                    None
                } else {
                    Some(j)
                },
                None => None,
            },
            None => None,
        };
        proof {
            lemma_last_with_id_range(items@, match items@[i as int].parent_id {
                Some(p) => p@,
                None => Seq::empty(),
            }, n as int);
        }
        r.push(d);
        i += 1;
    }
    r
}

proof fn lemma_last_with_id_range(items: Seq<Item>, id: Seq<char>, k: int)
    requires
        k <= items.len(),
    ensures
        last_with_id(items, id, k) matches Some(j) ==> j < k,
    decreases k,
{
    if k > 0 {
        lemma_last_with_id_range(items, id, k - 1);
    }
}

/// A cycle of declared parents closes at `walk[m]`: following declared
/// parents from `walk[m]` passes through the rest of the walk and comes back.
proof fn lemma_walk_cycle(items: Seq<Item>, walk: Seq<usize>, m: int)
    requires
        0 <= m < walk.len(),
        forall|j: int| 0 <= j < walk.len() ==> #[trigger] walk[j] < items.len(),
        forall|j: int|
            0 <= j < walk.len() - 1 ==> declared_parent(items, #[trigger] walk[j] as int) == Some(
                walk[j + 1],
            ),
        declared_parent(items, walk.last() as int) == Some(walk[m]),
    ensures
        on_declared_cycle(items, walk[m] as int),
{
    let c = walk[m] as int;
    assert forall|t: nat| t < walk.len() - m implies #[trigger] declared_iter(items, c, t) == Some(
        walk[m + t],
    ) by {
        lemma_walk_iter(items, walk, m, t);
    }
    let len = (walk.len() - m) as nat;
    lemma_walk_iter(items, walk, m, (len - 1) as nat);
    assert(declared_iter(items, c, len) == declared_parent(items, walk.last() as int));
    assert(declared_iter(items, c, len) == Some(c as usize));
}

proof fn lemma_walk_iter(items: Seq<Item>, walk: Seq<usize>, m: int, t: nat)
    requires
        0 <= m,
        m + t < walk.len(),
        forall|j: int| 0 <= j < walk.len() ==> #[trigger] walk[j] < items.len(),
        forall|j: int|
            0 <= j < walk.len() - 1 ==> declared_parent(items, #[trigger] walk[j] as int) == Some(
                walk[j + 1],
            ),
    ensures
        declared_iter(items, walk[m] as int, t) == Some(walk[m + t]),
    decreases t,
{
    if t > 0 {
        lemma_walk_iter(items, walk, m, (t - 1) as nat);
        assert(walk[m + t - 1] < items.len());
    }
}

/// Cutting the step `c` at which a walk closes into a cycle leaves at most
/// one cut step on each cycle, when every step cut before is finished
/// (state 2) and the walk is all unfinished (state 1).
proof fn lemma_cut_keeps_one(
    items: Seq<Item>,
    parent: Seq<Option<usize>>,
    state: Seq<u8>,
    walk: Seq<usize>,
    m: int,
)
    requires
        items.len() <= usize::MAX,
        parent.len() == items.len(),
        state.len() == items.len(),
        one_cut_per_cycle(items, parent),
        forall|i: int| 0 <= i < items.len() && parent[i] != declared_parent(items, i) ==> #[trigger] state[i] == 2,
        forall|i: int|
            0 <= i < items.len() ==> #[trigger] parent[i] == declared_parent(items, i) || (parent[i] is None
                && on_declared_cycle(items, i)),
        0 <= m < walk.len(),
        forall|j: int| 0 <= j < walk.len() ==> #[trigger] walk[j] < items.len() && state[walk[j] as int] == 1,
        forall|j: int|
            0 <= j < walk.len() - 1 ==> declared_parent(items, #[trigger] walk[j] as int) == Some(walk[j + 1]),
        declared_parent(items, walk.last() as int) == Some(walk[m]),
    ensures
        one_cut_per_cycle(items, parent.update(walk[m] as int, None)),
{
    let c = walk[m];
    let p2 = parent.update(c as int, None);
    assert forall|a: int, b: int|
        #![trigger declared_reaches(items, a, b)]
        0 <= a < items.len() && 0 <= b < items.len() && a != b && p2[a] != declared_parent(items, a)
            && p2[b] != declared_parent(items, b) implies !declared_reaches(items, a, b) by {
        if a != c as int && b != c as int {
            assert(p2[a] == parent[a] && p2[b] == parent[b]);
        } else if a == c as int {
            assert(p2[b] == parent[b]);
            assert(state[b] == 2);
            if declared_reaches(items, a, b) {
                let k = choose|k: nat| #[trigger] declared_iter(items, a, k) == Some(b as usize);
                lemma_walk_orbit(items, walk, m, k);
                let j = choose|j: int| m <= j < walk.len() && declared_iter(items, walk[m] as int, k) == Some(#[trigger] walk[j]);
                assert(state[walk[j] as int] == 1);
            }
        } else {
            assert(p2[a] == parent[a]);
            assert(state[a] == 2);
            assert(on_declared_cycle(items, a));
            if declared_reaches(items, a, b) {
                lemma_cycle_reached_back(items, a as usize, c);
                let k = choose|k: nat| #[trigger] declared_iter(items, c as int, k) == Some(a as usize);
                lemma_walk_orbit(items, walk, m, k);
                let j = choose|j: int| m <= j < walk.len() && declared_iter(items, walk[m] as int, k) == Some(#[trigger] walk[j]);
                assert(state[walk[j] as int] == 1);
            }
        }
    }
}

/// Along a stretch of declared parents that were all kept, the rank falls
/// by at least one a step.
proof fn lemma_kept_orbit_rank(items: Seq<Item>, parent: Seq<Option<usize>>, rank: Seq<nat>, i: int, k: nat)
    requires
        items.len() <= usize::MAX,
        0 <= i < items.len(),
        parent.len() == items.len(),
        rank.len() == items.len(),
        forall|x: int|
            0 <= x < items.len() ==> match #[trigger] parent[x] {
                Some(p) => p < items.len() && rank[p as int] < rank[x],
                None => true,
            },
        forall|j: int| declared_reaches(items, i, j) && 0 <= j < items.len() ==> parent[j] == declared_parent(items, j),
        declared_iter(items, i, k) is Some,
    ensures
        declared_iter(items, i, k) matches Some(x) && x < items.len() && rank[x as int] + k <= rank[i],
    decreases k,
{
    if k > 0 {
        let k1 = (k - 1) as nat;
        if declared_iter(items, i, k1) is None {
            assert(declared_iter(items, i, k) is None);
        }
        lemma_kept_orbit_rank(items, parent, rank, i, k1);
        let x = declared_iter(items, i, k1)->0;
        assert(declared_reaches(items, i, x as int));
        assert(parent[x as int] == declared_parent(items, x as int));
        assert(declared_iter(items, i, k) == declared_parent(items, x as int));
        lemma_declared_parent_in_range(items, x as int);
        match parent[x as int] {
            Some(y) => {
                assert(rank[y as int] < rank[x as int]);
            },
            None => {},
        }
    }
}

/// Every cycle of declared parents lost at least one link: with ranks that
/// fall from child to parent, some step the cycle reaches was cut.
proof fn lemma_cycle_cut(items: Seq<Item>, parent: Seq<Option<usize>>, rank: Seq<nat>, i: int)
    requires
        items.len() <= usize::MAX,
        0 <= i < items.len(),
        parent.len() == items.len(),
        rank.len() == items.len(),
        forall|x: int|
            0 <= x < items.len() ==> match #[trigger] parent[x] {
                Some(p) => p < items.len() && rank[p as int] < rank[x],
                None => true,
            },
        on_declared_cycle(items, i),
    ensures
        exists|j: int| 0 <= j < items.len() && #[trigger] declared_reaches(items, i, j) && parent[j] != declared_parent(items, j),
{
    if !exists|j: int| 0 <= j < items.len() && #[trigger] declared_reaches(items, i, j) && parent[j] != declared_parent(items, j) {
        let len = choose|k: nat| k >= 1 && declared_iter(items, i, k) == Some(i as usize);
        assert forall|j: int| declared_reaches(items, i, j) && 0 <= j < items.len() implies parent[j] == declared_parent(items, j) by {}
        lemma_kept_orbit_rank(items, parent, rank, i, len);
    }
}

/// Filtering keeps only the first element when no other passes.
proof fn lemma_filter_only_first(s: Seq<usize>, p: spec_fn(usize) -> bool)
    requires
        s.len() > 0,
        p(s[0]),
        forall|k: int| 1 <= k < s.len() ==> !p(#[trigger] s[k]),
    ensures
        s.filter(p) == seq![s[0]],
    decreases s.len(),
{
    reveal_with_fuel(Seq::filter, 2);
    if s.len() == 1 {
        assert(s.drop_last() =~= Seq::<usize>::empty());
        assert(s.drop_last().filter(p) =~= Seq::<usize>::empty());
        assert(s.filter(p) =~= seq![s[0]]);
    } else {
        let t = s.drop_last();
        assert forall|k: int| 1 <= k < t.len() implies !p(#[trigger] t[k]) by {
            assert(t[k] == s[k]);
        }
        lemma_filter_only_first(t, p);
        assert(!p(s.last()));
        assert(s.filter(p) == t.filter(p));
    }
}

/// Cuts every cycle of declared parents: walking up from each step in turn,
/// reaching a step that is already on the current walk means a cycle, and
/// that step becomes a root. Returns a rank that shows the links acyclic.
fn cut_cycles(items: &[Item], parent: &mut Vec<Option<usize>>) -> (res: (
    Ghost<Seq<nat>>,
    Ghost<nat>,
))
    requires
        old(parent)@.len() == items@.len(),
        forall|i: int| 0 <= i < items@.len() ==> #[trigger] old(parent)@[i] == declared_parent(items@, i),
        forall|i: int|
            0 <= i < items@.len() ==> match #[trigger] old(parent)@[i] {
                Some(p) => p < items@.len(),
                None => true,
            },
    ensures
        final(parent)@.len() == items@.len(),
        res.0@.len() == items@.len(),
        forall|i: int| 0 <= i < items@.len() ==> #[trigger] res.0@[i] < res.1@,
        forall|i: int|
            0 <= i < items@.len() ==> match #[trigger] final(parent)@[i] {
                Some(p) => p < items@.len() && res.0@[p as int] < res.0@[i],
                None => true,
            },
        forall|i: int|
            0 <= i < items@.len() ==> #[trigger] final(parent)@[i] == declared_parent(items@, i) || (
            final(parent)@[i] is None && on_declared_cycle(items@, i)),
        one_cut_per_cycle(items@, final(parent)@),
{
    let n = items.len();
    let mut state: Vec<u8> = Vec::new();
    let mut q: usize = 0;
    while q < n
        invariant
            q <= n,
            state@.len() == q,
            forall|k: int| 0 <= k < q ==> #[trigger] state@[k] == 0,
        decreases n - q,
    {
        state.push(0);
        q += 1;
    }
    let ghost mut rank: Seq<nat> = Seq::new(n as nat, |i: int| 0nat);
    let ghost mut next: nat = 0;
    let mut start: usize = 0;
    while start < n
        invariant
            n == items@.len(),
            start <= n,
            parent@.len() == n,
            state@.len() == n,
            rank.len() == n,
            forall|i: int| 0 <= i < n ==> #[trigger] state@[i] == 0 || state@[i] == 2,
            forall|i: int| 0 <= i < start ==> #[trigger] state@[i] == 2,
            forall|i: int| 0 <= i < n && #[trigger] state@[i] == 0 ==> parent@[i] == declared_parent(items@, i),
            forall|i: int|
                0 <= i < n && #[trigger] state@[i] == 2 ==> rank[i] < next && match parent@[i] {
                    Some(p) => p < n && state@[p as int] == 2 && rank[p as int] < rank[i],
                    None => true,
                },
            forall|i: int|
                0 <= i < n ==> #[trigger] parent@[i] == declared_parent(items@, i) || (parent@[i] is None
                    && on_declared_cycle(items@, i)),
            forall|i: int|
                0 <= i < n ==> match #[trigger] parent@[i] {
                    Some(p) => p < n,
                    None => true,
                },
            forall|i: int| 0 <= i < n && parent@[i] != declared_parent(items@, i) ==> #[trigger] state@[i] == 2,
            one_cut_per_cycle(items@, parent@),
        decreases n - start,
    {
        let mut walk: Vec<usize> = Vec::new();
        let mut cur: Option<usize> = Some(start);
        let ghost mut widx: Seq<int> = Seq::new(n as nat, |i: int| 0int);
        let ghost mut cut: Option<usize> = None;
        loop
            invariant_except_break
                cut is None,
            invariant
                n == items@.len(),
                start < n,
                parent@.len() == n,
                state@.len() == n,
                rank.len() == n,
                widx.len() == n,
                forall|i: int| 0 <= i < n ==> #[trigger] state@[i] == 0 || state@[i] == 1 || state@[i] == 2,
                forall|i: int| 0 <= i < start ==> #[trigger] state@[i] == 2,
                forall|i: int|
                    0 <= i < n && #[trigger] state@[i] == 0 ==> parent@[i] == declared_parent(items@, i),
                forall|i: int|
                    0 <= i < n && #[trigger] state@[i] == 1 ==> 0 <= widx[i] < walk@.len() && walk@[widx[i]] == i,
                forall|j: int|
                    0 <= j < walk@.len() ==> #[trigger] walk@[j] < n && state@[walk@[j] as int] == 1
                        && widx[walk@[j] as int] == j,
                forall|j: int|
                    0 <= j < walk@.len() ==> (cut != Some(#[trigger] walk@[j]) ==> parent@[walk@[j] as int]
                        == declared_parent(items@, walk@[j] as int)),
                forall|j: int|
                    0 <= j < walk@.len() - 1 ==> declared_parent(items@, #[trigger] walk@[j] as int) == Some(
                        walk@[j + 1],
                    ),
                forall|i: int|
                    0 <= i < n && #[trigger] state@[i] == 2 ==> rank[i] < next && match parent@[i] {
                        Some(p) => p < n && state@[p as int] == 2 && rank[p as int] < rank[i],
                        None => true,
                    },
                forall|i: int|
                    0 <= i < n ==> #[trigger] parent@[i] == declared_parent(items@, i) || (parent@[i] is None
                        && on_declared_cycle(items@, i)),
                forall|i: int|
                    0 <= i < n ==> match #[trigger] parent@[i] {
                        Some(p) => p < n,
                        None => true,
                    },
                forall|i: int|
                    0 <= i < n && parent@[i] != declared_parent(items@, i) ==> #[trigger] state@[i] == 2 || cut
                        == Some(i as usize),
                one_cut_per_cycle(items@, parent@),
                walk@.len() == 0 ==> cur == Some(start) && cut is None,
                walk@.len() > 0 ==> walk@[0] == start,
                walk@.len() > 0 && cut is None ==> cur == declared_parent(items@, walk@.last() as int),
                cut matches Some(c) ==> c < n && state@[c as int] == 1 && parent@[c as int] is None
                    && walk@.len() > 0 && declared_parent(items@, walk@.last() as int) == Some(c),
                cut is None ==> match cur {
                    Some(c) => c < n,
                    None => true,
                },
            ensures
                cut is None ==> match cur {
                    Some(c) => state@[c as int] == 2,
                    None => true,
                },
            decreases zeros(state@),
        {
            match cur {
                None => {
                    break;
                },
                Some(c) => {
                    if state[c] == 2 {
                        break;
                    } else if state[c] == 1 {
                        proof {
                            lemma_walk_cycle(items@, walk@, widx[c as int]);
                            lemma_cut_keeps_one(items@, parent@, state@, walk@, widx[c as int]);
                        }
                        parent.set(c, None);
                        proof {
                            cut = Some(c);
                        }
                        break;
                    } else {
                        proof {
                            lemma_zeros_update(state@, c as int, 1);
                            widx = widx.update(c as int, walk@.len() as int);
                        }
                        let ghost old_walk = walk@;
                        state.set(c, 1);
                        walk.push(c);
                        cur = parent[c];
                        assert(walk@.last() == c);
                        assert forall|j: int| 0 <= j < walk@.len() - 1 implies declared_parent(
                            items@,
                            #[trigger] walk@[j] as int,
                        ) == Some(walk@[j + 1]) by {
                            if j == walk@.len() - 2 {
                                assert(walk@[j] == old_walk.last());
                            } else {
                                assert(walk@[j] == old_walk[j] && walk@[j + 1] == old_walk[j + 1]);
                            }
                        }
                    }
                },
            }
        }
        // every step of the walk is finished now; rank them so that parents
        // rank below children
        let ghost old_state = state@;
        let ghost len = walk@.len();
        let mut k: usize = 0;
        while k < walk.len()
            invariant
                n == items@.len(),
                state@.len() == n,
                k <= walk@.len(),
                forall|j: int| 0 <= j < walk@.len() ==> #[trigger] walk@[j] < n,
                forall|i: int|
                    0 <= i < n ==> #[trigger] state@[i] == if old_state[i] == 1 && widx[i] < k {
                        2u8
                    } else {
                        old_state[i]
                    },
                forall|i: int|
                    0 <= i < n && #[trigger] old_state[i] == 1 ==> 0 <= widx[i] < walk@.len() && walk@[widx[i]] == i,
                forall|j: int|
                    0 <= j < walk@.len() ==> old_state[#[trigger] walk@[j] as int] == 1 && widx[walk@[j] as int] == j,
                forall|i: int|
                    0 <= i < n && parent@[i] != declared_parent(items@, i) ==> #[trigger] old_state[i] == 2 || cut
                        == Some(i as usize),
                one_cut_per_cycle(items@, parent@),
            decreases walk@.len() - k,
        {
            state.set(walk[k], 2);
            k += 1;
        }
        proof {
            let new_rank = Seq::new(n as nat, |x: int| if old_state[x] == 1 {
                if cut == Some(x as usize) {
                    next
                } else {
                    (next + 1 + (len - 1 - widx[x])) as nat
                }
            } else {
                rank[x]
            });
            let new_next = next + 1 + len;
            assert forall|i: int|
                0 <= i < n && #[trigger] state@[i] == 2 implies new_rank[i] < new_next && match parent@[i] {
                    Some(p) => p < n && state@[p as int] == 2 && new_rank[p as int] < new_rank[i],
                    None => true,
                } by {
                if old_state[i] == 1 {
                    let j = widx[i];
                    assert(walk@[j] == i);
                    if cut == Some(i as usize) {
                    } else if j < len - 1 {
                        let w = walk@[j + 1];
                        assert(parent@[i] == declared_parent(items@, i));
                        assert(declared_parent(items@, walk@[j] as int) == Some(w));
                        assert(old_state[w as int] == 1 && widx[w as int] == j + 1);
                    } else {
                        assert(parent@[i] == declared_parent(items@, i));
                        match cut {
                            Some(c) => {
                                assert(walk@.last() == i as usize);
                                assert(old_state[c as int] == 1);
                            },
                            None => {
                                match cur {
                                    Some(c) => {
                                        assert(old_state[c as int] == 2);
                                    },
                                    None => {},
                                }
                            },
                        }
                    }
                } else {
                    assert(state@[i] == old_state[i]);
                    assert(old_state[i] == 2);
                    match parent@[i] {
                        Some(p) => {
                            assert(old_state[p as int] == 2);
                        },
                        None => {},
                    }
                }
            }
            assert forall|i: int| 0 <= i < n && parent@[i] != declared_parent(items@, i) implies #[trigger] state@[i]
                == 2 by {
                if cut == Some(i as usize) {
                    assert(old_state[i] == 1);
                    assert(widx[i] < len);
                }
            }
            rank = new_rank;
            next = new_next;
            assert forall|i: int| 0 <= i < start + 1 implies #[trigger] state@[i] == 2 by {
                if i == start {
                    if old_state[i] != 1 {
                        if walk@.len() > 0 {
                            assert(old_state[walk@[0] as int] == 1);
                        }
                        assert(old_state[i] == 2);
                    }
                }
            }
        }
        start += 1;
    }
    assert forall|i: int| 0 <= i < n implies #[trigger] rank[i] < next && match parent@[i] {
        Some(p) => p < n && rank[p as int] < rank[i],
        None => true,
    } by {
        assert(state@[i] == 2);
    }
    (Ghost(rank), Ghost(next))
}

proof fn lemma_positions(order: Seq<usize>, n: int, pos: Seq<int>)
    requires
        order.len() == n,
        n <= usize::MAX,
        pos.len() == n,
        forall|x: int| 0 <= x < n ==> pos[x] == choose|k: int| 0 <= k < n && order[k] == x,
        forall|k: int| 0 <= k < n ==> #[trigger] order[k] < n,
        forall|a: int, b: int| 0 <= a < b < n ==> #[trigger] order[a] != #[trigger] order[b],
        forall|x: int| 0 <= x < n ==> #[trigger] order.contains(x as usize),
    ensures
        forall|k: int| 0 <= k < n ==> #[trigger] pos[order[k] as int] == k,
        forall|x: int| 0 <= x < n ==> 0 <= #[trigger] pos[x] < n && order[pos[x]] == x,
{
    assert forall|x: int| 0 <= x < n implies 0 <= #[trigger] pos[x] < n && order[pos[x]] == x by {
        assert(order.contains(x as usize));
        let w = choose|k: int| 0 <= k < order.len() && order[k] == x as usize;
        assert(0 <= w < n && order[w] == x);
    }
    assert forall|k: int| 0 <= k < n implies #[trigger] pos[order[k] as int] == k by {
        let x = order[k] as int;
        let c = pos[x];
        assert(0 <= c < n && order[c] == x);
        if c < k {
            assert(order[c] != order[k]);
        } else if c > k {
            assert(order[k] != order[c]);
        }
    }
}

/// Parents of a legacy chain: each step hangs under the one displayed
/// before it.
fn chain_parents(order: &Vec<usize>, n: usize) -> (r: (Vec<Option<usize>>, Ghost<Seq<nat>>))
    requires
        order@.len() == n,
        forall|k: int| 0 <= k < n ==> #[trigger] order@[k] < n,
        forall|a: int, b: int| 0 <= a < b < n ==> #[trigger] order@[a] != #[trigger] order@[b],
        forall|x: int| 0 <= x < n ==> #[trigger] order@.contains(x as usize),
    ensures
        r.0@.len() == n,
        r.1@.len() == n,
        forall|k: int|
            0 <= k < n ==> r.0@[#[trigger] order@[k] as int] == if k == 0 {
                None
            } else {
                Some(order@[k - 1])
            },
        forall|i: int| 0 <= i < n ==> #[trigger] r.1@[i] < n,
        forall|i: int|
            0 <= i < n ==> match #[trigger] r.0@[i] {
                Some(p) => p < n && r.1@[p as int] < r.1@[i],
                None => true,
            },
{
    let mut parent: Vec<Option<usize>> = Vec::new();
    let mut q: usize = 0;
    while q < n
        invariant
            q <= n,
            parent@.len() == q,
            forall|k: int| 0 <= k < q ==> #[trigger] parent@[k] is None,
        decreases n - q,
    {
        parent.push(None);
        q += 1;
    }
    let ghost pos = Seq::new(n as nat, |x: int| choose|k: int| 0 <= k < n && order@[k] == x);
    proof {
        lemma_positions(order@, n as int, pos);
    }
    let mut k: usize = 1;
    while k < n
        invariant
            1 <= k || n == 0,
            order@.len() == n,
            parent@.len() == n,
            forall|j: int| 0 <= j < n ==> #[trigger] order@[j] < n,
            forall|a: int, b: int| 0 <= a < b < n ==> #[trigger] order@[a] != #[trigger] order@[b],
            forall|j: int|
                0 <= j < n ==> parent@[#[trigger] order@[j] as int] == if 1 <= j < k {
                    Some(order@[j - 1])
                } else {
                    None
                },
        decreases n - k,
    {
        parent.set(order[k], Some(order[k - 1]));
        assert forall|j: int| 0 <= j < n implies parent@[#[trigger] order@[j] as int] == if 1 <= j < k + 1 {
            Some(order@[j - 1])
        } else {
            None
        } by {
            if j != k {
                if j < k {
                    assert(order@[j] != order@[k as int]);
                } else {
                    assert(order@[k as int] != order@[j]);
                }
            }
        }
        k += 1;
    }
    let ghost rank = Seq::new(n as nat, |x: int| pos[x] as nat);
    assert forall|i: int| 0 <= i < n implies rank[i] < n && match #[trigger] parent@[i] {
        Some(p) => p < n && rank[p as int] < rank[i],
        None => true,
    } by {
        let c = pos[i];
        assert(0 <= c < n && order@[c] == i);
        assert(parent@[order@[c] as int] == if 1 <= c < n {
            Some(order@[c - 1])
        } else {
            None
        });
        if c >= 1 {
            assert(pos[order@[c - 1] as int] == c - 1);
        }
    }
    (parent, Ghost(rank))
}

proof fn lemma_filter_nodup(s: Seq<usize>, p: spec_fn(usize) -> bool)
    requires
        s.no_duplicates(),
    ensures
        s.filter(p).no_duplicates(),
    decreases s.len(),
{
    if s.len() > 0 {
        let t = s.drop_last();
        let e = s.last();
        assert(t.push(e) =~= s);
        assert(t.no_duplicates()) by {
            assert forall|a: int, b: int| 0 <= a < t.len() && 0 <= b < t.len() && a != b implies t[a] != t[b] by {
                assert(t[a] == s[a] && t[b] == s[b]);
            }
        }
        lemma_filter_nodup(t, p);
        t.lemma_filter_push(e, p);
        if p(e) {
            let f = t.filter(p);
            assert forall|a: int, b: int| 0 <= a < f.push(e).len() && 0 <= b < f.push(e).len() && a != b implies f.push(e)[a] != f.push(e)[b] by {
                if a == f.len() || b == f.len() {
                    let other = if a == f.len() { b } else { a };
                    assert(f.contains(f[other]));
                    t.lemma_filter_contains_rev(p, f[other]);
                    if f[other] == e {
                        let q = choose|q: int| 0 <= q < t.len() && t[q] == e;
                        assert(s[q] == e && s[s.len() - 1] == e);
                    }
                }
            }
        }
    }
}

impl<'a> StepTree<'a> {
    pub closed spec fn n(&self) -> nat {
        self.items@.len()
    }

    pub closed spec fn parent_of(&self, i: int) -> Option<usize> {
        self.parent@[i]
    }

    pub closed spec fn children_of(&self, i: int) -> Seq<usize> {
        self.children@[i]@
    }

    pub closed spec fn roots_seq(&self) -> Seq<usize> {
        self.roots@
    }

    pub closed spec fn item_seq(&self) -> Seq<Item> {
        self.items@
    }

    pub closed spec fn rank_of(&self, i: int) -> nat {
        self.rank@[i]
    }

    pub closed spec fn wf(&self) -> bool {
        let n = self.items@.len();
        &&& n <= usize::MAX
        &&& self.parent@.len() == n
        &&& self.children@.len() == n
        &&& self.rank@.len() == n
        &&& forall|i: int| 0 <= i < n ==> #[trigger] self.rank@[i] < self.rank_bound@
        &&& forall|i: int|
            0 <= i < n ==> match #[trigger] self.parent@[i] {
                Some(p) => p < n && self.rank@[p as int] < self.rank@[i],
                None => true,
            }
        &&& forall|p: int, j: int|
            0 <= p < n && 0 <= j < self.children@[p]@.len() ==> {
                &&& #[trigger] self.children@[p]@[j] < n
                &&& self.parent@[self.children@[p]@[j] as int] == Some(p as usize)
            }
        &&& forall|p: int| 0 <= p < n ==> (#[trigger] self.children@[p])@.no_duplicates()
        &&& self.roots@.no_duplicates()
        &&& forall|j: int|
            0 <= j < self.roots@.len() ==> {
                &&& #[trigger] self.roots@[j] < n
                &&& self.parent@[self.roots@[j] as int] is None
            }
        &&& forall|i: int|
            0 <= i < n ==> match #[trigger] self.parent@[i] {
                Some(p) => self.children@[p as int]@.contains(i as usize),
                None => self.roots@.contains(i as usize),
            }
    }

    /// `root -> ... -> i`, following parent links.
    pub closed spec fn path(&self, i: int) -> Seq<usize>
        decreases self.rank_of(i),
    {
        match self.parent@[i] {
            Some(p) => if 0 <= p < self.rank@.len() && self.rank@[p as int] < self.rank@[i] {
                self.path(p as int).push(i as usize)
            } else {
                seq![i as usize]
            },
            None => seq![i as usize],
        }
    }

    /// `a` is `x` or one of its ancestors.
    pub closed spec fn is_ancestor_or_self(&self, a: int, x: int) -> bool
        decreases self.rank_of(x),
    {
        a == x || match self.parent@[x] {
            Some(p) => 0 <= p < self.rank@.len() && self.rank@[p as int] < self.rank@[x]
                && self.is_ancestor_or_self(a, p as int),
            None => false,
        }
    }

    /// Pre-order over the subtrees of the steps `cs`, in order. `b` bounds
    /// the ranks involved, so that the definition terminates.
    pub closed spec fn pre(&self, cs: Seq<usize>, lo: int) -> Seq<usize>
        decreases self.bound() - lo, cs.len(),
    {
        if cs.len() == 0 {
            Seq::empty()
        } else {
            let c = cs[0] as int;
            let sub = if 0 <= c < self.rank@.len() && c < self.children@.len() && lo
                < self.rank@[c] < self.bound() {
                self.pre(self.children@[c]@, self.rank@[c] as int)
            } else {
                Seq::empty()
            };
            seq![cs[0]] + sub + self.pre(cs.drop_first(), lo)
        }
    }

    pub closed spec fn bound(&self) -> int {
        self.rank_bound@ as int
    }

    /// Every step, parents before children, siblings in display order.
    pub closed spec fn dfs_seq(&self) -> Seq<usize> {
        self.pre(self.roots@, -1)
    }

    /// Everything below `i`, in pre-order.
    pub closed spec fn below(&self, i: int) -> Seq<usize> {
        self.pre(self.children@[i]@, self.rank@[i] as int)
    }

    /// The due steps with no due ancestor, in display order: like `pre`, but
    /// a due step is not descended into.
    pub closed spec fn front(&self, cs: Seq<usize>, lo: int, now: i64) -> Seq<usize>
        decreases self.bound() - lo, cs.len(),
    {
        if cs.len() == 0 {
            Seq::empty()
        } else {
            let c = cs[0] as int;
            let head = if 0 <= c < self.items@.len() && self.items@[c].due_at <= now {
                seq![cs[0]]
            } else if 0 <= c < self.rank@.len() && c < self.children@.len() && lo < self.rank@[c]
                < self.bound() {
                self.front(self.children@[c]@, self.rank@[c] as int, now)
            } else {
                Seq::empty()
            };
            head + self.front(cs.drop_first(), lo, now)
        }
    }

    pub closed spec fn frontier_seq(&self, now: i64) -> Seq<usize> {
        self.front(self.roots@, -1, now)
    }

    pub closed spec fn is_leaf_spec(&self, i: int) -> bool {
        self.children@[i]@.len() == 0
    }

    // ~~~ lemmas about pre-order ~~~~~~~~~~~~~~~~~~~~~~~~~~~~~~~~~~~~~~~~~~~~~

    proof fn lemma_pre_bound(&self, cs: Seq<usize>, b1: int, b2: int)
        requires
            self.wf(),
            forall|k: int| 0 <= k < cs.len() ==> #[trigger] cs[k] < self.n(),
            forall|k: int|
                0 <= k < cs.len() ==> #[trigger] self.rank@[cs[k] as int] > b1 && self.rank@[cs[k] as int] > b2,
        ensures
            self.pre(cs, b1) == self.pre(cs, b2),
        decreases cs.len(),
    {
        if cs.len() > 0 {
            assert(cs[0] < self.n());
            assert forall|k: int| 0 <= k < cs.drop_first().len() implies #[trigger] cs.drop_first()[k] < self.n()
                && self.rank@[cs.drop_first()[k] as int] > b1 && self.rank@[cs.drop_first()[k] as int] > b2 by {
                assert(cs.drop_first()[k] == cs[k + 1]);
            }
            self.lemma_pre_bound(cs.drop_first(), b1, b2);
        }
    }

    proof fn lemma_pre_split(&self, cs: Seq<usize>, b: int)
        requires
            cs.len() > 0,
        ensures
            self.pre(cs, b) == self.pre(seq![cs[0]], b) + self.pre(cs.drop_first(), b),
    {
        let one = seq![cs[0]];
        assert(one.drop_first() =~= Seq::<usize>::empty());
        assert(self.pre(one.drop_first(), b) == Seq::<usize>::empty());
        assert(self.pre(cs, b) =~= self.pre(one, b) + self.pre(cs.drop_first(), b));
    }

    proof fn lemma_front_split(&self, cs: Seq<usize>, b: int, now: i64)
        requires
            cs.len() > 0,
        ensures
            self.front(cs, b, now) == self.front(seq![cs[0]], b, now) + self.front(
                cs.drop_first(),
                b,
                now,
            ),
    {
        let one = seq![cs[0]];
        assert(one.drop_first() =~= Seq::<usize>::empty());
        assert(self.front(one.drop_first(), b, now) == Seq::<usize>::empty());
        assert(self.front(one, b, now) =~= self.front(one, b, now) + Seq::<usize>::empty());
    }

    proof fn lemma_front_bound(&self, cs: Seq<usize>, b1: int, b2: int, now: i64)
        requires
            self.wf(),
            forall|k: int| 0 <= k < cs.len() ==> #[trigger] cs[k] < self.n(),
            forall|k: int|
                0 <= k < cs.len() ==> #[trigger] self.rank@[cs[k] as int] > b1 && self.rank@[cs[k] as int] > b2,
        ensures
            self.front(cs, b1, now) == self.front(cs, b2, now),
        decreases cs.len(),
    {
        if cs.len() > 0 {
            assert(cs[0] < self.n());
            assert forall|k: int| 0 <= k < cs.drop_first().len() implies #[trigger] cs.drop_first()[k] < self.n()
                && self.rank@[cs.drop_first()[k] as int] > b1 && self.rank@[cs.drop_first()[k] as int] > b2 by {
                assert(cs.drop_first()[k] == cs[k + 1]);
            }
            self.lemma_front_bound(cs.drop_first(), b1, b2, now);
        }
    }

    /// The pre-order of what remains on a depth-first stack (top = last).
    closed spec fn pre_stack(&self, st: Seq<usize>) -> Seq<usize>
        decreases st.len(),
    {
        if st.len() == 0 {
            Seq::empty()
        } else {
            self.pre(seq![st.last()], -1) + self.pre_stack(st.drop_last())
        }
    }

    closed spec fn front_stack(&self, st: Seq<usize>, now: i64) -> Seq<usize>
        decreases st.len(),
    {
        if st.len() == 0 {
            Seq::empty()
        } else {
            self.front(seq![st.last()], -1, now) + self.front_stack(st.drop_last(), now)
        }
    }

    /// Pushing `cs` in reverse onto a stack puts its pre-order first.
    proof fn lemma_push_reversed(&self, st: Seq<usize>, cs: Seq<usize>, k: int, now: i64)
        requires
            self.wf(),
            0 <= k <= cs.len(),
            forall|j: int| 0 <= j < cs.len() ==> #[trigger] cs[j] < self.n(),
        ensures
            self.pre_stack(st + cs.skip(k).reverse()) == self.pre(cs.skip(k), -1)
                + self.pre_stack(st),
            self.front_stack(st + cs.skip(k).reverse(), now) == self.front(
                cs.skip(k),
                -1,
                now,
            ) + self.front_stack(st, now),
        decreases cs.len() - k,
    {
        if k == cs.len() {
            assert(cs.skip(k).reverse() =~= Seq::<usize>::empty());
            assert(st + cs.skip(k).reverse() =~= st);
            assert(cs.skip(k) =~= Seq::<usize>::empty());
            assert(self.pre(cs.skip(k), -1) + self.pre_stack(st) =~= self.pre_stack(
                st,
            ));
            assert(self.front(cs.skip(k), -1, now) + self.front_stack(st, now)
                =~= self.front_stack(st, now));
        } else {
            self.lemma_push_reversed(st, cs, k + 1, now);
            let t = cs.skip(k);
            assert(t.drop_first() =~= cs.skip(k + 1));
            let x = st + cs.skip(k).reverse();
            assert(x.last() == cs[k]);
            assert(x.drop_last() =~= st + cs.skip(k + 1).reverse());
            self.lemma_pre_split(t, -1);
            self.lemma_front_split(t, -1, now);
            assert(t[0] == cs[k]);
            assert(seq![x.last()] =~= seq![t[0]]);
            assert(self.pre_stack(x) =~= self.pre(t, -1) + self.pre_stack(st));
            assert(self.front_stack(x, now) =~= self.front(t, -1, now)
                + self.front_stack(st, now));
        }
    }

    /// The pre-order of one step, then of the children below it.
    proof fn lemma_pre_one(&self, c: usize)
        requires
            self.wf(),
            c < self.n(),
        ensures
            self.pre(seq![c], -1) == seq![c] + self.pre(self.children@[c as int]@, -1),
            self.pre(self.children@[c as int]@, -1) == self.pre(
                self.children@[c as int]@,
                self.rank@[c as int] as int,
            ),
    {
        let cs = self.children@[c as int]@;
        self.lemma_children_ranks(c);
        self.lemma_pre_bound(cs, self.rank@[c as int] as int, -1);
        assert(seq![c].drop_first() =~= Seq::<usize>::empty());
        assert(self.pre(seq![c].drop_first(), -1) == Seq::<usize>::empty());
        assert(self.pre(seq![c], -1) =~= seq![c] + self.pre(cs, self.rank@[c as int] as int));
    }

    proof fn lemma_children_ranks(&self, c: usize)
        requires
            self.wf(),
            c < self.n(),
        ensures
            forall|k: int|
                0 <= k < self.children@[c as int]@.len() ==> #[trigger] self.children@[c as int]@[k]
                    < self.n() && self.rank@[self.children@[c as int]@[k] as int] > self.rank@[c as int]
                    && self.rank@[self.children@[c as int]@[k] as int] > -1,
    {
        assert forall|k: int| 0 <= k < self.children@[c as int]@.len() implies #[trigger] self.children@[c as int]@[k]
            < self.n() && self.rank@[self.children@[c as int]@[k] as int] > self.rank@[c as int]
            && self.rank@[self.children@[c as int]@[k] as int] > -1 by {
            let x = self.children@[c as int]@[k];
            assert(self.parent@[x as int] == Some(c));
        }
    }

    proof fn lemma_front_one(&self, c: usize, now: i64)
        requires
            self.wf(),
            c < self.n(),
        ensures
            self.front(seq![c], -1, now) == if self.items@[c as int].due_at <= now {
                seq![c]
            } else {
                self.front(self.children@[c as int]@, -1, now)
            },
            self.front(self.children@[c as int]@, -1, now) == self.front(
                self.children@[c as int]@,
                self.rank@[c as int] as int,
                now,
            ),
    {
        let cs = self.children@[c as int]@;
        self.lemma_children_ranks(c);
        self.lemma_front_bound(cs, self.rank@[c as int] as int, -1, now);
        assert(seq![c].drop_first() =~= Seq::<usize>::empty());
        assert(self.front(seq![c].drop_first(), -1, now) == Seq::<usize>::empty());
        if self.items@[c as int].due_at <= now {
            assert(self.front(seq![c], -1, now) =~= seq![c]);
        } else {
            assert(self.front(seq![c], -1, now) =~= self.front(cs, self.rank@[c as int] as int, now));
        }
    }

    pub closed spec fn display(&self) -> Seq<usize> {
        self.display@
    }

    /// What `new` promises of the tree it builds over `items`.
    pub open spec fn made_from(&self, is_tree: bool, items: Seq<Item>) -> bool {
        &&& self.wf()
        &&& self.item_seq() == items
        &&& self.n() == items.len()
        &&& is_display_order(items, self.display())
        &&& forall|p: int|
            0 <= p < items.len() ==> #[trigger] self.children_of(p) == self.display().filter(
                |x: usize| self.parent_of(x as int) == Some(p as usize),
            )
        &&& self.roots_seq() == self.display().filter(|x: usize| self.parent_of(x as int) is None)
        &&& !is_tree ==> forall|k: int|
            0 <= k < items.len() ==> self.parent_of(#[trigger] self.display()[k] as int) == if k == 0 {
                None
            } else {
                Some(self.display()[k - 1])
            }
        &&& is_tree ==> forall|i: int|
            0 <= i < items.len() ==> #[trigger] self.parent_of(i) == declared_parent(items, i) || (
            self.parent_of(i) is None && on_declared_cycle(items, i))
    }

    /// A parent is one of the steps, and every step's path has it at the end.
    pub proof fn lemma_parent_in_range(&self, i: int)
        requires
            self.wf(),
            0 <= i < self.n(),
        ensures
            self.parent_of(i) matches Some(p) ==> p < self.n(),
            self.path(i).len() >= 1,
            self.path(i).last() == i,
            forall|k: int| 0 <= k < self.path(i).len() ==> #[trigger] self.path(i)[k] < self.n(),
    {
        self.lemma_path_shape(i);
    }

    /// Every leaf is a step.
    pub proof fn lemma_leaves_in_range(&self)
        requires
            self.wf(),
        ensures
            forall|k: int| 0 <= k < self.leaves().len() ==> #[trigger] self.leaves()[k] < self.n(),
    {
        self.lemma_every_step_once();
        assert forall|k: int| 0 <= k < self.leaves().len() implies #[trigger] self.leaves()[k] < self.n() by {
            let e = self.leaves()[k];
            assert(self.leaves().contains(e));
            self.dfs_seq().lemma_filter_contains_rev(|x: usize| self.children@[x as int]@.len() == 0, e);
            assert(self.dfs_seq().contains(e));
        }
    }

    /// Builds the tree over `items`, all the items of one card.
    pub fn new(is_tree: bool, items: &'a [Item]) -> (t: StepTree<'a>)
        ensures
            t.made_from(is_tree, items@),
            t.wf(),
            t.item_seq() == items@,
            is_display_order(items@, t.display()),
            forall|p: int|
                0 <= p < items@.len() ==> #[trigger] t.children_of(p) == t.display().filter(
                    |x: usize| t.parent_of(x as int) == Some(p as usize),
                ),
            t.roots_seq() == t.display().filter(|x: usize| t.parent_of(x as int) is None),
            !is_tree ==> forall|k: int|
                0 <= k < items@.len() ==> t.parent_of(#[trigger] t.display()[k] as int) == if k
                    == 0 {
                    None
                } else {
                    Some(t.display()[k - 1])
                },
            is_tree ==> forall|i: int|
                0 <= i < items@.len() ==> #[trigger] t.parent_of(i) == declared_parent(items@, i) || (
                t.parent_of(i) is None && on_declared_cycle(items@, i)),
            is_tree ==> forall|a: int, b: int|
                #![trigger declared_reaches(items@, a, b)]
                0 <= a < items@.len() && 0 <= b < items@.len() && a != b && t.parent_of(a) != declared_parent(items@, a)
                    && t.parent_of(b) != declared_parent(items@, b) ==> !declared_reaches(items@, a, b),
            is_tree ==> forall|i: int|
                0 <= i < items@.len() && #[trigger] on_declared_cycle(items@, i) ==> exists|j: int|
                    0 <= j < items@.len() && #[trigger] declared_reaches(items@, i, j) && t.parent_of(j)
                        != declared_parent(items@, j),
    {
        let n = items.len();
        let order = display_order(items);
        assert forall|a: int, b: int| 0 <= a < b < n implies #[trigger] order@[a] != #[trigger] order@[b] by {
            assert(displayed_before(items@, order@[a] as int, order@[b] as int));
        }
        let parent: Vec<Option<usize>>;
        let rank: Ghost<Seq<nat>>;
        let bound: Ghost<nat>;
        if is_tree {
            let mut p = declared_parents(items);
            let (r, b) = cut_cycles(items, &mut p);
            proof {
                assert forall|i: int| 0 <= i < n && #[trigger] on_declared_cycle(items@, i) implies exists|j: int|
                    0 <= j < n && #[trigger] declared_reaches(items@, i, j) && p@[j] != declared_parent(items@, j) by {
                    lemma_cycle_cut(items@, p@, r@, i);
                }
            }
            parent = p;
            rank = r;
            bound = b;
        } else {
            let (p, r) = chain_parents(&order, n);
            parent = p;
            rank = r;
            bound = Ghost(n as nat);
        }
        let mut children: Vec<Vec<usize>> = Vec::new();
        let mut q: usize = 0;
        while q < n
            invariant
                n == items@.len(),
                q <= n,
                parent@.len() == n,
                is_display_order(items@, order@),
                children@.len() == q,
                forall|c: int|
                    0 <= c < q ==> #[trigger] children@[c]@ == order@.filter(
                        |x: usize| parent@[x as int] == Some(c as usize),
                    ),
            decreases n - q,
        {
            let ch = with_parent(&order, &parent, Some(q));
            children.push(ch);
            q += 1;
        }
        let roots = with_parent(&order, &parent, None);
        proof {
            let f1 = |x: usize| parent@[x as int] == None::<usize>;
            let f2 = |x: usize| parent@[x as int] is None;
            assert(f1 =~= f2);
            assert(roots@ == order@.filter(f2));
        }
        let t = StepTree {
            items,
            parent,
            children,
            roots,
            rank,
            rank_bound: bound,
            display: Ghost(order@),
        };
        proof {
            t.lemma_new_wf(order@);
            assert forall|p: int| 0 <= p < items@.len() implies #[trigger] t.children_of(p)
                == t.display().filter(|x: usize| t.parent_of(x as int) == Some(p as usize)) by {
                let f1 = |x: usize| t.parent@[x as int] == Some(p as usize);
                let f2 = |x: usize| t.parent_of(x as int) == Some(p as usize);
                assert(f1 =~= f2);
            }
            let g1 = |x: usize| t.parent@[x as int] is None;
            let g2 = |x: usize| t.parent_of(x as int) is None;
            assert(g1 =~= g2);
        }
        t
    }

    proof fn lemma_new_wf(&self, order: Seq<usize>)
        requires
            self.items@.len() <= usize::MAX,
            self.parent@.len() == self.items@.len(),
            self.children@.len() == self.items@.len(),
            self.rank@.len() == self.items@.len(),
            is_display_order(self.items@, order),
            forall|i: int| 0 <= i < self.items@.len() ==> #[trigger] self.rank@[i] < self.rank_bound@,
            forall|i: int|
                0 <= i < self.items@.len() ==> match #[trigger] self.parent@[i] {
                    Some(p) => p < self.items@.len() && self.rank@[p as int] < self.rank@[i],
                    None => true,
                },
            forall|c: int|
                0 <= c < self.items@.len() ==> #[trigger] self.children@[c]@ == order.filter(
                    |x: usize| self.parent@[x as int] == Some(c as usize),
                ),
            self.roots@ == order.filter(|x: usize| self.parent@[x as int] is None),
        ensures
            self.wf(),
    {
        let n = self.items@.len();
        assert(order.no_duplicates()) by {
            assert forall|a: int, b: int| 0 <= a < order.len() && 0 <= b < order.len() && a != b implies order[a] != order[b] by {
                if a < b {
                    assert(displayed_before(self.items@, order[a] as int, order[b] as int));
                } else {
                    assert(displayed_before(self.items@, order[b] as int, order[a] as int));
                }
            }
        }
        assert forall|p: int| 0 <= p < n implies (#[trigger] self.children@[p])@.no_duplicates() by {
            lemma_filter_nodup(order, |x: usize| self.parent@[x as int] == Some(p as usize));
        }
        lemma_filter_nodup(order, |x: usize| self.parent@[x as int] is None);
        assert forall|p: int, j: int|
            0 <= p < n && 0 <= j < self.children@[p]@.len() implies {
                &&& #[trigger] self.children@[p]@[j] < n
                &&& self.parent@[self.children@[p]@[j] as int] == Some(p as usize)
            } by {
            let pred = |x: usize| self.parent@[x as int] == Some(p as usize);
            order.lemma_filter_pred(pred, j);
            let e = order.filter(pred)[j];
            order.lemma_filter_contains_rev(pred, e);
            let k = choose|k: int| 0 <= k < order.len() && order[k] == e;
        }
        assert forall|j: int| 0 <= j < self.roots@.len() implies {
            &&& #[trigger] self.roots@[j] < n
            &&& self.parent@[self.roots@[j] as int] is None
        } by {
            let pred = |x: usize| self.parent@[x as int] is None;
            order.lemma_filter_pred(pred, j);
            let e = order.filter(pred)[j];
            order.lemma_filter_contains_rev(pred, e);
            let k = choose|k: int| 0 <= k < order.len() && order[k] == e;
        }
        assert forall|i: int| 0 <= i < n implies match #[trigger] self.parent@[i] {
            Some(p) => self.children@[p as int]@.contains(i as usize),
            None => self.roots@.contains(i as usize),
        } by {
            assert(order.contains(i as usize));
            let k = choose|k: int| 0 <= k < order.len() && order[k] == i as usize;
            match self.parent@[i] {
                Some(p) => {
                    let pred = |x: usize| self.parent@[x as int] == Some(p as usize);
                    order.lemma_filter_contains(pred, k);
                },
                None => {
                    let pred = |x: usize| self.parent@[x as int] is None;
                    order.lemma_filter_contains(pred, k);
                },
            }
        }
    }

    // ~~~ accessors ~~~~~~~~~~~~~~~~~~~~~~~~~~~~~~~~~~~~~~~~~~~~~~~~~~~~~~~~~~

    pub fn len(&self) -> (r: usize)
        ensures
            r == self.n(),
    {
        self.items.len()
    }

    pub fn is_empty(&self) -> (r: bool)
        ensures
            r == (self.n() == 0),
    {
        self.items.len() == 0
    }

    pub fn item(&self, i: usize) -> (r: &Item)
        requires
            i < self.n(),
        ensures
            *r == self.item_seq()[i as int],
    {
        &self.items[i]
    }

    pub fn parent(&self, i: usize) -> (r: Option<usize>)
        requires
            self.wf(),
            i < self.n(),
        ensures
            r == self.parent_of(i as int),
    {
        self.parent[i]
    }

    pub fn children(&self, i: usize) -> (r: &[usize])
        requires
            self.wf(),
            i < self.n(),
        ensures
            r@ == self.children_of(i as int),
    {
        self.children[i].as_slice()
    }

    pub fn roots(&self) -> (r: &[usize])
        ensures
            r@ == self.roots_seq(),
    {
        self.roots.as_slice()
    }

    pub fn is_leaf(&self, i: usize) -> (r: bool)
        requires
            self.wf(),
            i < self.n(),
        ensures
            r == self.is_leaf_spec(i as int),
    {
        self.children[i].len() == 0
    }

    /// 0 for a root, 1 for its children, ...
    /// On a card that predates branching the steps form one chain in
    /// display order (position, then stored order): the path to the `k`-th
    /// step is the first `k + 1` steps, so its depth is `k`.
    pub proof fn lemma_chain_paths(&self, items: Seq<Item>, k: int)
        requires
            self.made_from(false, items),
            0 <= k < items.len(),
        ensures
            self.path(self.display()[k] as int) == self.display().take(k + 1),
            self.path(self.display()[k] as int).len() - 1 == k,
        decreases k,
    {
        let d = self.display();
        let i = d[k] as int;
        assert(self.parent_of(i) == if k == 0 {
            None
        } else {
            Some(d[k - 1])
        });
        if k == 0 {
            assert(self.path(i) == seq![i as usize]);
            assert(d.take(1) =~= seq![d[0]]);
        } else {
            self.lemma_chain_paths(items, k - 1);
            let p = d[k - 1];
            assert(p < self.n());
            assert(self.rank@[p as int] < self.rank@[i]);
            assert(self.path(i) == self.path(p as int).push(i as usize));
            assert(d.take(k + 1) =~= d.take(k).push(d[k]));
        }
    }

    /// On a card that predates branching with at least one step, the
    /// first step in display order is the only root.
    pub proof fn lemma_chain_root(&self, items: Seq<Item>)
        requires
            self.made_from(false, items),
            items.len() > 0,
        ensures
            self.roots_seq() == seq![self.display()[0]],
    {
        let d = self.display();
        let p = |x: usize| self.parent_of(x as int) is None;
        assert(self.parent_of(d[0] as int) is None);
        assert forall|k: int| 1 <= k < d.len() implies !p(#[trigger] d[k]) by {
            assert(self.parent_of(d[k] as int) == Some(d[k - 1]));
        }
        lemma_filter_only_first(d, p);
    }

    pub fn depth(&self, i: usize) -> (d: usize)
        requires
            self.wf(),
            i < self.n(),
        ensures
            d == self.path(i as int).len() - 1,
    {
        let p = self.path_to(i);
        p.len() - 1
    }

    proof fn lemma_path_shape(&self, i: int)
        requires
            self.wf(),
            0 <= i < self.n(),
        ensures
            self.path(i).len() >= 1,
            self.path(i).len() <= self.rank@[i] + 1,
            self.path(i).last() == i,
            self.parent@[self.path(i)[0] as int] is None,
            forall|k: int| 0 <= k < self.path(i).len() ==> #[trigger] self.path(i)[k] < self.n(),
            forall|k: int|
                0 < k < self.path(i).len() ==> self.parent@[#[trigger] self.path(i)[k] as int]
                    == Some(self.path(i)[k - 1]),
        decreases self.rank_of(i),
    {
        match self.parent@[i] {
            Some(p) => {
                self.lemma_path_shape(p as int);
                let pp = self.path(p as int);
                assert(self.path(i) == pp.push(i as usize));
                assert(self.path(i).last() == i as usize);
                assert forall|k: int| 0 < k < self.path(i).len() implies self.parent@[
                    #[trigger] self.path(i)[k] as int] == Some(self.path(i)[k - 1]) by {
                    if k == pp.len() {
                    } else {
                        assert(self.path(i)[k] == pp[k]);
                        assert(self.path(i)[k - 1] == pp[k - 1]);
                    }
                }
            },
            None => {},
        }
    }

    /// `root -> ... -> i`, inclusive.
    pub fn path_to(&self, i: usize) -> (r: Vec<usize>)
        requires
            self.wf(),
            i < self.n(),
        ensures
            r@ == self.path(i as int),
    {
        let mut rev_path: Vec<usize> = Vec::new();
        rev_path.push(i);
        let mut cur = i;
        proof {
            self.lemma_path_shape(i as int);
        }
        while self.parent[cur].is_some()
            invariant
                self.wf(),
                cur < self.n(),
                rev_path@.len() >= 1,
                rev_path@.last() == cur,
                self.path(cur as int) + rev_path@.reverse().drop_first() == self.path(i as int),
            decreases self.rank@[cur as int],
        {
            let p = self.parent[cur].unwrap();
            let ghost before = rev_path@;
            rev_path.push(p);
            proof {
                assert(self.path(cur as int) == self.path(p as int).push(cur));
                assert(before.reverse()[0] == before.last());
                assert(rev_path@.reverse() =~= seq![p] + before.reverse());
                assert(rev_path@.reverse().drop_first() =~= before.reverse());
                assert(before.reverse() =~= seq![cur] + before.reverse().drop_first());
                assert(self.path(p as int) + rev_path@.reverse().drop_first() =~= self.path(
                    cur as int,
                ) + before.reverse().drop_first());
            }
            cur = p;
        }
        let mut out: Vec<usize> = Vec::new();
        let mut k = rev_path.len();
        while k > 0
            invariant
                k <= rev_path@.len(),
                out@ == rev_path@.skip(k as int).reverse(),
            decreases k,
        {
            k -= 1;
            out.push(rev_path[k]);
            assert(rev_path@.skip(k as int).reverse() =~= rev_path@.skip(k + 1).reverse().push(
                rev_path@[k as int],
            ));
        }
        assert(rev_path@.skip(0) =~= rev_path@);
        proof {
            assert(self.path(cur as int) == seq![cur]);
            assert(rev_path@.reverse()[0] == rev_path@.last());
            assert(rev_path@.reverse() =~= seq![cur] + rev_path@.reverse().drop_first());
        }
        out
    }

    /// Pre-order over the subtrees of `start`, by an explicit stack.
    fn preorder(&self, start: &Vec<usize>) -> (out: Vec<usize>)
        requires
            self.wf(),
            forall|k: int| 0 <= k < start@.len() ==> #[trigger] start@[k] < self.n(),
        ensures
            out@ == self.pre(start@, -1),
    {
        let mut stack: Vec<usize> = Vec::new();
        let mut k = start.len();
        while k > 0
            invariant
                k <= start@.len(),
                stack@ == start@.skip(k as int).reverse(),
            decreases k,
        {
            k -= 1;
            stack.push(start[k]);
            assert(stack@ =~= start@.skip(k as int).reverse()) by {
                assert(start@.skip(k as int) =~= seq![start@[k as int]] + start@.skip(k + 1));
            }
        }
        proof {
            self.lemma_push_reversed(Seq::empty(), start@, 0, 0);
            assert(Seq::<usize>::empty() + start@.skip(0).reverse() =~= stack@);
            assert(start@.skip(0) =~= start@);
            assert(self.pre_stack(Seq::empty()) == Seq::<usize>::empty());
        }
        let mut out: Vec<usize> = Vec::new();
        while stack.len() > 0
            invariant
                self.wf(),
                forall|j: int| 0 <= j < stack@.len() ==> #[trigger] stack@[j] < self.n(),
                out@ + self.pre_stack(stack@) =~= self.pre(start@, -1),
            decreases self.pre_stack(stack@).len(),
        {
            let ghost before = stack@;
            let c = stack.pop().unwrap();
            let ghost rest = stack@;
            proof {
                assert(before =~= rest.push(c));
                assert(before.last() == c);
                assert(before.drop_last() =~= rest);
                self.lemma_pre_one(c);
                self.lemma_children_ranks(c);
            }
            out.push(c);
            let ch = &self.children[c];
            let mut j = ch.len();
            while j > 0
                invariant
                    self.wf(),
                    c < self.n(),
                    ch@ == self.children@[c as int]@,
                    j <= ch@.len(),
                    stack@ == rest + ch@.skip(j as int).reverse(),
                    forall|q: int| 0 <= q < ch@.len() ==> #[trigger] ch@[q] < self.n(),
                    forall|q: int| 0 <= q < rest.len() ==> #[trigger] rest[q] < self.n(),
                decreases j,
            {
                j -= 1;
                stack.push(ch[j]);
                assert(stack@ =~= rest + ch@.skip(j as int).reverse()) by {
                    assert(ch@.skip(j as int) =~= seq![ch@[j as int]] + ch@.skip(j + 1));
                }
            }
            proof {
                self.lemma_push_reversed(rest, ch@, 0, 0);
                assert(ch@.skip(0) =~= ch@);
                assert forall|q: int| 0 <= q < stack@.len() implies #[trigger] stack@[q] < self.n() by {
                    if q >= rest.len() {
                        assert(stack@[q] == ch@.reverse()[q - rest.len()]);
                    }
                }
            }
        }
        proof {
            assert(self.pre_stack(stack@) == Seq::<usize>::empty());
        }
        out
    }

    /// Like `preorder`, but a due step is reported and not descended into.
    fn frontier_from(&self, start: &Vec<usize>, now: i64) -> (out: Vec<usize>)
        requires
            self.wf(),
            forall|k: int| 0 <= k < start@.len() ==> #[trigger] start@[k] < self.n(),
        ensures
            out@ == self.front(start@, -1, now),
    {
        let mut stack: Vec<usize> = Vec::new();
        let mut k = start.len();
        while k > 0
            invariant
                k <= start@.len(),
                stack@ == start@.skip(k as int).reverse(),
            decreases k,
        {
            k -= 1;
            stack.push(start[k]);
            assert(stack@ =~= start@.skip(k as int).reverse()) by {
                assert(start@.skip(k as int) =~= seq![start@[k as int]] + start@.skip(k + 1));
            }
        }
        proof {
            self.lemma_push_reversed(Seq::empty(), start@, 0, now);
            assert(Seq::<usize>::empty() + start@.skip(0).reverse() =~= stack@);
            assert(start@.skip(0) =~= start@);
            assert(self.front_stack(Seq::empty(), now) == Seq::<usize>::empty());
        }
        let mut out: Vec<usize> = Vec::new();
        while stack.len() > 0
            invariant
                self.wf(),
                forall|j: int| 0 <= j < stack@.len() ==> #[trigger] stack@[j] < self.n(),
                out@ + self.front_stack(stack@, now) =~= self.front(start@, -1, now),
            decreases self.pre_stack(stack@).len(),
        {
            let ghost before = stack@;
            let c = stack.pop().unwrap();
            let ghost rest = stack@;
            proof {
                assert(before =~= rest.push(c));
                assert(before.last() == c);
                assert(before.drop_last() =~= rest);
                self.lemma_front_one(c, now);
                self.lemma_pre_one(c);
                self.lemma_children_ranks(c);
            }
            if self.items[c].due_at <= now {
                out.push(c);
            } else {
                let ch = &self.children[c];
                let mut j = ch.len();
                while j > 0
                    invariant
                        self.wf(),
                        c < self.n(),
                        ch@ == self.children@[c as int]@,
                        j <= ch@.len(),
                        stack@ == rest + ch@.skip(j as int).reverse(),
                        forall|q: int| 0 <= q < ch@.len() ==> #[trigger] ch@[q] < self.n(),
                        forall|q: int| 0 <= q < rest.len() ==> #[trigger] rest[q] < self.n(),
                    decreases j,
                {
                    j -= 1;
                    stack.push(ch[j]);
                    assert(stack@ =~= rest + ch@.skip(j as int).reverse()) by {
                        assert(ch@.skip(j as int) =~= seq![ch@[j as int]] + ch@.skip(j + 1));
                    }
                }
                proof {
                    self.lemma_push_reversed(rest, ch@, 0, now);
                    assert(ch@.skip(0) =~= ch@);
                    assert(stack@.len() == rest.len() + ch@.len());
                    assert forall|q: int| 0 <= q < stack@.len() implies #[trigger] stack@[q] < self.n() by {
                        if q >= rest.len() {
                            assert(stack@[q] == ch@.reverse()[q - rest.len()]);
                        }
                    }
                }
            }
        }
        proof {
            assert(self.front_stack(stack@, now) == Seq::<usize>::empty());
        }
        out
    }

    /// Everything below `i` (not `i` itself), in pre-order.
    pub fn descendants(&self, i: usize) -> (r: Vec<usize>)
        requires
            self.wf(),
            i < self.n(),
        ensures
            r@ == self.below(i as int),
    {
        proof {
            self.lemma_pre_one(i);
            self.lemma_children_ranks(i);
        }
        let ch = self.children[i].clone();
        assert(ch@ == self.children@[i as int]@);
        self.preorder(&ch)
    }

    /// Every step, parents before children, siblings in display order.
    pub fn dfs_order(&self) -> (r: Vec<usize>)
        requires
            self.wf(),
        ensures
            r@ == self.dfs_seq(),
    {
        let roots = self.roots.clone();
        assert(roots@ == self.roots@);
        self.preorder(&roots)
    }

    /// The steps a session must target right now: due steps with no due
    /// ancestor, in display order. For a linear chain this is at most one.
    pub fn frontier(&self, now: i64) -> (r: Vec<usize>)
        requires
            self.wf(),
        ensures
            r@ == self.frontier_seq(now),
    {
        let roots = self.roots.clone();
        assert(roots@ == self.roots@);
        self.frontier_from(&roots, now)
    }

    proof fn lemma_pre_in_range(&self, cs: Seq<usize>, lo: int)
        requires
            self.wf(),
            forall|k: int| 0 <= k < cs.len() ==> #[trigger] cs[k] < self.n(),
        ensures
            forall|k: int| 0 <= k < self.pre(cs, lo).len() ==> #[trigger] self.pre(cs, lo)[k] < self.n(),
        decreases self.bound() - lo, cs.len(),
    {
        if cs.len() > 0 {
            let c = cs[0] as int;
            assert forall|k: int| 0 <= k < cs.drop_first().len() implies #[trigger] cs.drop_first()[k] < self.n() by {
                assert(cs.drop_first()[k] == cs[k + 1]);
            }
            self.lemma_pre_in_range(cs.drop_first(), lo);
            let sub = if 0 <= c < self.rank@.len() && c < self.children@.len() && lo
                < self.rank@[c] < self.bound() {
                self.pre(self.children@[c]@, self.rank@[c] as int)
            } else {
                Seq::empty()
            };
            if lo < self.rank@[c] < self.bound() {
                self.lemma_children_ranks(cs[0]);
                self.lemma_pre_in_range(self.children@[c]@, self.rank@[c] as int);
            }
            let rest = self.pre(cs.drop_first(), lo);
            assert(self.pre(cs, lo) == seq![cs[0]] + sub + rest);
            assert forall|k: int| 0 <= k < self.pre(cs, lo).len() implies #[trigger] self.pre(cs, lo)[k] < self.n() by {
                if k == 0 {
                } else if k < 1 + sub.len() {
                    assert(self.pre(cs, lo)[k] == sub[k - 1]);
                } else {
                    assert(self.pre(cs, lo)[k] == rest[k - 1 - sub.len()]);
                }
            }
        }
    }

    proof fn lemma_front_in_range(&self, cs: Seq<usize>, lo: int, now: i64)
        requires
            self.wf(),
            forall|k: int| 0 <= k < cs.len() ==> #[trigger] cs[k] < self.n(),
        ensures
            forall|k: int| 0 <= k < self.front(cs, lo, now).len() ==> #[trigger] self.front(cs, lo, now)[k] < self.n(),
        decreases self.bound() - lo, cs.len(),
    {
        if cs.len() > 0 {
            let c = cs[0] as int;
            assert forall|k: int| 0 <= k < cs.drop_first().len() implies #[trigger] cs.drop_first()[k] < self.n() by {
                assert(cs.drop_first()[k] == cs[k + 1]);
            }
            self.lemma_front_in_range(cs.drop_first(), lo, now);
            let head = if 0 <= c < self.items@.len() && self.items@[c].due_at <= now {
                seq![cs[0]]
            } else if 0 <= c < self.rank@.len() && c < self.children@.len() && lo < self.rank@[c]
                < self.bound() {
                self.front(self.children@[c]@, self.rank@[c] as int, now)
            } else {
                Seq::empty()
            };
            if lo < self.rank@[c] < self.bound() {
                self.lemma_children_ranks(cs[0]);
                self.lemma_front_in_range(self.children@[c]@, self.rank@[c] as int, now);
            }
            let rest = self.front(cs.drop_first(), lo, now);
            assert(self.front(cs, lo, now) == head + rest);
            assert forall|k: int| 0 <= k < self.front(cs, lo, now).len() implies #[trigger] self.front(cs, lo, now)[k] < self.n() by {
                if k < head.len() {
                    assert(self.front(cs, lo, now)[k] == head[k]);
                } else {
                    assert(self.front(cs, lo, now)[k] == rest[k - head.len()]);
                }
            }
        }
    }

    /// The first step whose id is `id`.
    pub fn index_of(&self, id: &str) -> (r: Option<usize>)
        ensures
            match r {
                Some(i) => i < self.n() && self.item_seq()[i as int].id@ == id@ && forall|j: int|
                    0 <= j < i ==> self.item_seq()[j].id@ != id@,
                None => forall|j: int| 0 <= j < self.n() ==> self.item_seq()[j].id@ != id@,
            },
            match r {
                Some(i) => self.first_with_id(id@) == Some(i as int),
                None => self.first_with_id(id@) is None,
            },
    {
        let mut i: usize = 0;
        while i < self.items.len()
            invariant
                i <= self.items@.len(),
                forall|j: int| 0 <= j < i ==> self.items@[j].id@ != id@,
            decreases self.items@.len() - i,
        {
            if crate::text::same_text(self.items[i].id.as_str(), id) {
                proof {
                    self.lemma_index_of_first(id@, i as int);
                }
                return Some(i);
            }
            i += 1;
        }
        None
    }

    /// The first step carrying `id`.
    pub open spec fn first_with_id(&self, id: Seq<char>) -> Option<int> {
        if exists|i: int| 0 <= i < self.n() && #[trigger] self.item_seq()[i].id@ == id {
            Some(
                choose|i: int|
                    0 <= i < self.n() && #[trigger] self.item_seq()[i].id@ == id && forall|j: int|
                        0 <= j < i ==> #[trigger] self.item_seq()[j].id@ != id,
            )
        } else {
            None
        }
    }

    /// `index_of` finds the first step carrying the id.
    pub proof fn lemma_index_of_first(&self, id: Seq<char>, i: int)
        requires
            0 <= i < self.n(),
            self.item_seq()[i].id@ == id,
            forall|j: int| 0 <= j < i ==> self.item_seq()[j].id@ != id,
        ensures
            self.first_with_id(id) == Some(i),
    {
        assert(self.item_seq()[i].id@ == id);
        let c = choose|c: int|
            0 <= c < self.n() && #[trigger] self.item_seq()[c].id@ == id && forall|j: int|
                0 <= j < c ==> #[trigger] self.item_seq()[j].id@ != id;
        assert(0 <= i < self.n() && self.item_seq()[i].id@ == id && forall|j: int|
            0 <= j < i ==> #[trigger] self.item_seq()[j].id@ != id);
        if c < i {
            assert(self.item_seq()[c].id@ != id);
        } else if c > i {
            assert(self.item_seq()[i].id@ != id);
        }
    }

    /// The steps below `i` are steps.
    pub proof fn lemma_below_in_range(&self, i: int)
        requires
            self.wf(),
            0 <= i < self.n(),
        ensures
            forall|k: int| 0 <= k < self.below(i).len() ==> #[trigger] self.below(i)[k] < self.n(),
    {
        self.lemma_children_in_range(i);
        self.lemma_pre_in_range(self.children@[i]@, self.rank@[i] as int);
    }

    proof fn lemma_children_in_range(&self, i: int)
        requires
            self.wf(),
            0 <= i < self.n(),
        ensures
            forall|k: int| 0 <= k < self.children@[i]@.len() ==> #[trigger] self.children@[i]@[k] < self.n(),
    {
    }

    /// The leaves in pre-order.
    pub closed spec fn leaves(&self) -> Seq<usize> {
        self.dfs_seq().filter(|x: usize| self.children@[x as int]@.len() == 0)
    }

    /// One root -> leaf path per leaf, in display order.
    pub fn leaf_paths(&self) -> (r: Vec<Vec<usize>>)
        requires
            self.wf(),
        ensures
            r@.len() == self.leaves().len(),
            forall|k: int| 0 <= k < r@.len() ==> (#[trigger] r@[k])@ == self.path(self.leaves()[k] as int),
    {
        let order = self.dfs_order();
        proof {
            self.lemma_pre_in_range(self.roots@, -1);
        }
        let ghost pred = |x: usize| self.children@[x as int]@.len() == 0;
        let mut out: Vec<Vec<usize>> = Vec::new();
        let mut k: usize = 0;
        while k < order.len()
            invariant
                self.wf(),
                order@ == self.dfs_seq(),
                forall|q: int| 0 <= q < order@.len() ==> #[trigger] order@[q] < self.n(),
                k <= order@.len(),
                pred == (|x: usize| self.children@[x as int]@.len() == 0),
                out@.len() == order@.take(k as int).filter(pred).len(),
                forall|q: int| 0 <= q < out@.len() ==> (#[trigger] out@[q])@ == self.path(
                    order@.take(k as int).filter(pred)[q] as int,
                ),
            decreases order@.len() - k,
        {
            proof {
                assert(order@.take(k + 1) =~= order@.take(k as int).push(order@[k as int]));
                order@.take(k as int).lemma_filter_push(order@[k as int], pred);
            }
            if self.is_leaf(order[k]) {
                let p = self.path_to(order[k]);
                out.push(p);
            }
            k += 1;
        }
        assert(order@.take(order@.len() as int) =~= order@);
        out
    }

    /// One review path per frontier step, root -> target, so the last item
    /// is always the target.
    pub fn due_paths(&self, now: i64) -> (r: Vec<Vec<Item>>)
        requires
            self.wf(),
        ensures
            r@.len() == self.frontier_seq(now).len(),
            forall|k: int|
                0 <= k < r@.len() ==> (#[trigger] r@[k])@.len() == self.path(
                    self.frontier_seq(now)[k] as int,
                ).len(),
            forall|k: int, j: int|
                0 <= k < r@.len() && 0 <= j < r@[k]@.len() ==> same_item(
                    #[trigger] r@[k]@[j],
                    self.item_seq()[self.path(self.frontier_seq(now)[k] as int)[j] as int],
                ),
    {
        let f = self.frontier(now);
        proof {
            self.lemma_front_in_range(self.roots@, -1, now);
        }
        let mut out: Vec<Vec<Item>> = Vec::new();
        let mut k: usize = 0;
        while k < f.len()
            invariant
                self.wf(),
                f@ == self.frontier_seq(now),
                forall|q: int| 0 <= q < f@.len() ==> #[trigger] f@[q] < self.n(),
                k <= f@.len(),
                out@.len() == k,
                forall|q: int| 0 <= q < k ==> (#[trigger] out@[q])@.len() == self.path(f@[q] as int).len(),
                forall|q: int, j: int|
                    0 <= q < k && 0 <= j < out@[q]@.len() ==> same_item(
                        #[trigger] out@[q]@[j],
                        self.items@[self.path(f@[q] as int)[j] as int],
                    ),
            decreases f@.len() - k,
        {
            let p = self.path_to(f[k]);
            proof {
                self.lemma_path_shape(f@[k as int] as int);
            }
            let mut its: Vec<Item> = Vec::new();
            let mut j: usize = 0;
            while j < p.len()
                invariant
                    self.wf(),
                    forall|q: int| 0 <= q < p@.len() ==> #[trigger] p@[q] < self.n(),
                    j <= p@.len(),
                    its@.len() == j,
                    forall|q: int| 0 <= q < j ==> same_item(#[trigger] its@[q], self.items@[p@[q] as int]),
                decreases p@.len() - j,
            {
                its.push(self.items[p[j]].duplicate());
                j += 1;
            }
            out.push(its);
            k += 1;
        }
        out
    }

    // ~~~ ancestry ~~~~~~~~~~~~~~~~~~~~~~~~~~~~~~~~~~~~~~~~~~~~~~~~~~~~~~~~~~~

    pub closed spec fn due(&self, x: int, now: i64) -> bool {
        self.items@[x].due_at <= now
    }

    proof fn lemma_anc_rank(&self, a: int, x: int)
        requires
            self.wf(),
            0 <= x < self.n(),
            self.is_ancestor_or_self(a, x),
        ensures
            0 <= a < self.n(),
            self.rank@[a] <= self.rank@[x],
            a != x ==> self.rank@[a] < self.rank@[x],
        decreases self.rank@[x],
    {
        if a != x {
            let p = self.parent@[x]->0 as int;
            self.lemma_anc_rank(a, p);
        }
    }

    proof fn lemma_anc_up(&self, a: int, x: int)
        requires
            self.wf(),
            0 <= x < self.n(),
            self.is_ancestor_or_self(a, x),
            a != x,
        ensures
            self.parent@[x] is Some,
            self.is_ancestor_or_self(a, self.parent@[x]->0 as int),
    {
    }

    proof fn lemma_parent_anc(&self, d: int, c: int)
        requires
            self.wf(),
            0 <= d < self.n(),
            0 <= c < self.n(),
            self.parent@[d] == Some(c as usize),
        ensures
            self.is_ancestor_or_self(c, d),
    {
        assert(self.is_ancestor_or_self(c, c));
    }

    proof fn lemma_anc_trans(&self, a: int, b: int, c: int)
        requires
            self.wf(),
            0 <= c < self.n(),
            self.is_ancestor_or_self(a, b),
            self.is_ancestor_or_self(b, c),
        ensures
            self.is_ancestor_or_self(a, c),
        decreases self.rank@[c],
    {
        if b != c {
            let p = self.parent@[c]->0 as int;
            self.lemma_anc_trans(a, b, p);
        }
    }

    proof fn lemma_step_down(&self, c: int, x: int) -> (d: int)
        requires
            self.wf(),
            0 <= x < self.n(),
            self.is_ancestor_or_self(c, x),
            x != c,
        ensures
            0 <= d < self.n(),
            self.parent@[d] == Some(c as usize),
            self.is_ancestor_or_self(d, x),
        decreases self.rank@[x],
    {
        let p = self.parent@[x]->0 as int;
        if p == c {
            assert(self.is_ancestor_or_self(x, x));
            x
        } else {
            let d = self.lemma_step_down(c, p);
            self.lemma_parent_anc(x, p);
            self.lemma_anc_trans(d, p, x);
            d
        }
    }

    proof fn lemma_anc_total(&self, a: int, b: int, x: int)
        requires
            self.wf(),
            0 <= x < self.n(),
            self.is_ancestor_or_self(a, x),
            self.is_ancestor_or_self(b, x),
        ensures
            self.is_ancestor_or_self(a, b) || self.is_ancestor_or_self(b, a),
        decreases self.rank@[x],
    {
        if a != x && b != x {
            let p = self.parent@[x]->0 as int;
            self.lemma_anc_total(a, b, p);
        }
    }

    proof fn lemma_siblings_unrelated(&self, c: int, e: int)
        requires
            self.wf(),
            0 <= c < self.n(),
            0 <= e < self.n(),
            c != e,
            self.parent@[c] == self.parent@[e],
        ensures
            !self.is_ancestor_or_self(c, e),
            !self.is_ancestor_or_self(e, c),
    {
        if self.is_ancestor_or_self(c, e) {
            let p = self.parent@[e]->0 as int;
            self.lemma_parent_anc(c, p);
            self.lemma_anc_rank(c, p);
            self.lemma_anc_rank(p, c);
        }
        if self.is_ancestor_or_self(e, c) {
            let p = self.parent@[c]->0 as int;
            self.lemma_parent_anc(e, p);
            self.lemma_anc_rank(e, p);
            self.lemma_anc_rank(p, e);
        }
    }

    proof fn lemma_has_root(&self, x: int) -> (r: int)
        requires
            self.wf(),
            0 <= x < self.n(),
        ensures
            0 <= r < self.n(),
            self.roots@.contains(r as usize),
            self.parent@[r] is None,
            self.is_ancestor_or_self(r, x),
        decreases self.rank@[x],
    {
        match self.parent@[x] {
            None => x,
            Some(p) => {
                let r = self.lemma_has_root(p as int);
                self.lemma_parent_anc(x, p as int);
                self.lemma_anc_trans(r, p as int, x);
                r
            },
        }
    }

    proof fn lemma_concat_contains(a: Seq<usize>, b: Seq<usize>, x: usize)
        ensures
            (a + b).contains(x) <==> (a.contains(x) || b.contains(x)),
    {
        if (a + b).contains(x) {
            let k = choose|k: int| 0 <= k < (a + b).len() && (a + b)[k] == x;
            if k >= a.len() {
                assert(b[k - a.len()] == x);
            }
        }
        if a.contains(x) {
            let k = choose|k: int| 0 <= k < a.len() && a[k] == x;
            assert((a + b)[k] == x);
        }
        if b.contains(x) {
            let k = choose|k: int| 0 <= k < b.len() && b[k] == x;
            assert((a + b)[k + a.len()] == x);
        }
    }

    proof fn lemma_concat_nodup(a: Seq<usize>, b: Seq<usize>)
        requires
            a.no_duplicates(),
            b.no_duplicates(),
            forall|x: usize| a.contains(x) ==> !b.contains(x),
        ensures
            (a + b).no_duplicates(),
    {
        let s = a + b;
        assert forall|i: int, j: int| 0 <= i < s.len() && 0 <= j < s.len() && i != j implies s[i] != s[j] by {
            if i < a.len() && j >= a.len() {
                assert(a.contains(s[i]));
                assert(b[j - a.len()] == s[j]);
                assert(b.contains(s[j]));
            } else if j < a.len() && i >= a.len() {
                assert(a.contains(s[j]));
                assert(b[i - a.len()] == s[i]);
                assert(b.contains(s[i]));
            } else if i >= a.len() && j >= a.len() {
                assert(b[i - a.len()] == s[i] && b[j - a.len()] == s[j]);
            }
        }
    }

    /// What pre-order over `cs` reaches: exactly the steps below some member
    /// of `cs` (or the member itself).
    proof fn lemma_pre_members(&self, cs: Seq<usize>, lo: int, x: usize)
        requires
            self.wf(),
            x < self.n(),
            forall|k: int| 0 <= k < cs.len() ==> #[trigger] cs[k] < self.n() && lo < self.rank@[cs[k] as int],
        ensures
            self.pre(cs, lo).contains(x) <==> exists|k: int|
                0 <= k < cs.len() && self.is_ancestor_or_self(#[trigger] cs[k] as int, x as int),
        decreases self.bound() - lo, cs.len(),
    {
        if cs.len() == 0 {
        } else {
            let c = cs[0] as int;
            let rest = cs.drop_first();
            assert forall|k: int| 0 <= k < rest.len() implies #[trigger] rest[k] < self.n() && lo < self.rank@[rest[k] as int] by {
                assert(rest[k] == cs[k + 1]);
            }
            self.lemma_pre_members(rest, lo, x);
            self.lemma_children_ranks(cs[0]);
            let ch = self.children@[c]@;
            self.lemma_pre_members(ch, self.rank@[c] as int, x);
            let sub = self.pre(ch, self.rank@[c] as int);
            let tail = self.pre(rest, lo);
            assert(self.pre(cs, lo) == seq![cs[0]] + sub + tail);
            Self::lemma_concat_contains(seq![cs[0]] + sub, tail, x);
            Self::lemma_concat_contains(seq![cs[0]], sub, x);
            if self.pre(cs, lo).contains(x) {
                if x == cs[0] {
                    assert(self.is_ancestor_or_self(cs[0] as int, x as int));
                } else if sub.contains(x) {
                    let j = choose|j: int| 0 <= j < ch.len() && self.is_ancestor_or_self(#[trigger] ch[j] as int, x as int);
                    let d = ch[j] as int;
                    assert(self.parent@[d] == Some(c as usize));
                    self.lemma_parent_anc(d, c);
                    self.lemma_anc_rank(d, x as int);
                    self.lemma_anc_trans(c, d, x as int);
                } else {
                    assert(tail.contains(x));
                    let j = choose|j: int| 0 <= j < rest.len() && self.is_ancestor_or_self(#[trigger] rest[j] as int, x as int);
                    assert(rest[j] == cs[j + 1]);
                }
            }
            if exists|k: int| 0 <= k < cs.len() && self.is_ancestor_or_self(#[trigger] cs[k] as int, x as int) {
                let k = choose|k: int| 0 <= k < cs.len() && self.is_ancestor_or_self(#[trigger] cs[k] as int, x as int);
                if k == 0 {
                    if x as int == c {
                        assert(seq![cs[0]][0] == x);
                    } else {
                        self.lemma_anc_rank(c, x as int);
                        let d = self.lemma_step_down(c, x as int);
                        assert(self.children@[c]@.contains(d as usize));
                        let j = choose|j: int| 0 <= j < ch.len() && ch[j] == d as usize;
                        assert(self.is_ancestor_or_self(ch[j] as int, x as int));
                    }
                } else {
                    assert(rest[k - 1] == cs[k]);
                    assert(self.is_ancestor_or_self(rest[k - 1] as int, x as int));
                }
            }
        }
    }

    /// Pre-order over a list of distinct siblings visits no step twice.
    proof fn lemma_pre_nodup(&self, cs: Seq<usize>, lo: int)
        requires
            self.wf(),
            forall|k: int| 0 <= k < cs.len() ==> #[trigger] cs[k] < self.n() && lo < self.rank@[cs[k] as int],
            cs.no_duplicates(),
            forall|k: int, j: int|
                0 <= k < cs.len() && 0 <= j < cs.len() ==> self.parent@[#[trigger] cs[k] as int]
                    == self.parent@[#[trigger] cs[j] as int],
        ensures
            self.pre(cs, lo).no_duplicates(),
        decreases self.bound() - lo, cs.len(),
    {
        if cs.len() > 0 {
            let c = cs[0] as int;
            let rest = cs.drop_first();
            assert forall|k: int| 0 <= k < rest.len() implies #[trigger] rest[k] < self.n() && lo < self.rank@[rest[k] as int] by {
                assert(rest[k] == cs[k + 1]);
            }
            assert forall|k: int, j: int|
                0 <= k < rest.len() && 0 <= j < rest.len() implies self.parent@[#[trigger] rest[k] as int]
                    == self.parent@[#[trigger] rest[j] as int] by {
                assert(rest[k] == cs[k + 1] && rest[j] == cs[j + 1]);
            }
            self.lemma_pre_nodup(rest, lo);
            self.lemma_children_ranks(cs[0]);
            let ch = self.children@[c]@;
            assert forall|k: int, j: int|
                0 <= k < ch.len() && 0 <= j < ch.len() implies self.parent@[#[trigger] ch[k] as int]
                    == self.parent@[#[trigger] ch[j] as int] by {
            }
            self.lemma_pre_nodup(ch, self.rank@[c] as int);
            let sub = self.pre(ch, self.rank@[c] as int);
            let tail = self.pre(rest, lo);
            assert(self.pre(cs, lo) == seq![cs[0]] + sub + tail);
            // the head is not below itself, nor below a sibling
            assert forall|x: usize| seq![cs[0]].contains(x) implies !sub.contains(x) by {
                assert(x == cs[0]);
                self.lemma_pre_members(ch, self.rank@[c] as int, x);
                if sub.contains(x) {
                    let j = choose|j: int| 0 <= j < ch.len() && self.is_ancestor_or_self(#[trigger] ch[j] as int, x as int);
                    self.lemma_anc_rank(ch[j] as int, x as int);
                }
            }
            Self::lemma_concat_nodup(seq![cs[0]], sub);
            assert forall|x: usize| (seq![cs[0]] + sub).contains(x) implies !tail.contains(x) by {
                Self::lemma_concat_contains(seq![cs[0]], sub, x);
                self.lemma_pre_in_range(ch, self.rank@[c] as int);
                if sub.contains(x) {
                    let q = choose|q: int| 0 <= q < sub.len() && sub[q] == x;
                }
                if seq![cs[0]].contains(x) {
                    assert(seq![cs[0]][0] == x);
                }
                self.lemma_pre_members(rest, lo, x);
                self.lemma_pre_members(ch, self.rank@[c] as int, x);
                if tail.contains(x) {
                    let j = choose|j: int| 0 <= j < rest.len() && self.is_ancestor_or_self(#[trigger] rest[j] as int, x as int);
                    let e = rest[j] as int;
                    assert(rest[j] == cs[j + 1]);
                    assert(cs[0] != cs[j + 1]);
                    self.lemma_siblings_unrelated(c, e);
                    if x as int == c {
                    } else {
                        let i = choose|i: int| 0 <= i < ch.len() && self.is_ancestor_or_self(#[trigger] ch[i] as int, x as int);
                        let d = ch[i] as int;
                        self.lemma_parent_anc(d, c);
                        self.lemma_anc_rank(d, x as int);
                        self.lemma_anc_trans(c, d, x as int);
                        self.lemma_anc_rank(e, x as int);
                        self.lemma_anc_total(c, e, x as int);
                    }
                }
            }
            Self::lemma_concat_nodup(seq![cs[0]] + sub, tail);
        }
    }

    /// Every step is reached exactly once by the depth-first order.
    pub proof fn lemma_every_step_once(&self)
        requires
            self.wf(),
        ensures
            self.dfs_seq().no_duplicates(),
            forall|x: int| 0 <= x < self.n() ==> #[trigger] self.dfs_seq().contains(x as usize),
            forall|k: int| 0 <= k < self.dfs_seq().len() ==> #[trigger] self.dfs_seq()[k] < self.n(),
    {
        let roots = self.roots@;
        assert forall|k: int| 0 <= k < roots.len() implies #[trigger] roots[k] < self.n() && -1 < self.rank@[roots[k] as int] by {
        }
        self.lemma_pre_nodup(roots, -1);
        self.lemma_pre_in_range(roots, -1);
        assert forall|x: int| 0 <= x < self.n() implies #[trigger] self.dfs_seq().contains(x as usize) by {
            let r = self.lemma_has_root(x);
            self.lemma_pre_members(roots, -1, x as usize);
            let k = choose|k: int| 0 <= k < roots.len() && roots[k] == r as usize;
            assert(self.is_ancestor_or_self(roots[k] as int, x));
        }
    }

    /// The steps below `i` are exactly those that have `i` as a proper
    /// ancestor: failing a step re-locks its whole subtree and nothing else.
    pub proof fn lemma_below_is_subtree(&self, i: int, x: usize)
        requires
            self.wf(),
            0 <= i < self.n(),
        ensures
            self.below(i).contains(x) <==> (x != i && 0 <= x < self.n() && self.is_ancestor_or_self(
                i,
                x as int,
            )),
    {
        self.lemma_children_ranks(i as usize);
        let ch = self.children@[i]@;
        self.lemma_pre_in_range(ch, self.rank@[i] as int);
        if x >= self.n() {
            if self.below(i).contains(x) {
                let k = choose|k: int| 0 <= k < self.below(i).len() && self.below(i)[k] == x;
            }
            return;
        }
        self.lemma_pre_members(ch, self.rank@[i] as int, x);
        if self.below(i).contains(x) {
            let j = choose|j: int| 0 <= j < ch.len() && self.is_ancestor_or_self(#[trigger] ch[j] as int, x as int);
            let d = ch[j] as int;
            let k = choose|k: int| 0 <= k < self.below(i).len() && self.below(i)[k] == x;
            assert(x < self.n());
            self.lemma_parent_anc(d, i);
            self.lemma_anc_rank(d, x as int);
            self.lemma_anc_trans(i, d, x as int);
        }
        if x != i && 0 <= x < self.n() && self.is_ancestor_or_self(i, x as int) {
            let d = self.lemma_step_down(i, x as int);
            assert(self.children@[i]@.contains(d as usize));
            let j = choose|j: int| 0 <= j < ch.len() && ch[j] == d as usize;
            assert(self.is_ancestor_or_self(ch[j] as int, x as int));
        }
    }

    /// No step strictly between `c` (included) and `x` (excluded) is due.
    pub closed spec fn clear_between(&self, c: int, x: int, now: i64) -> bool {
        forall|y: int|
            0 <= y < self.n() && #[trigger] self.is_ancestor_or_self(c, y) && self.is_ancestor_or_self(
                y,
                x,
            ) && y != x ==> !self.due(y, now)
    }

    pub closed spec fn front_hit(&self, c: int, x: int, now: i64) -> bool {
        &&& self.is_ancestor_or_self(c, x)
        &&& self.due(x, now)
        &&& self.clear_between(c, x, now)
    }

    proof fn lemma_front_members(&self, cs: Seq<usize>, lo: int, x: usize, now: i64)
        requires
            self.wf(),
            x < self.n(),
            forall|k: int| 0 <= k < cs.len() ==> #[trigger] cs[k] < self.n() && lo < self.rank@[cs[k] as int],
        ensures
            self.front(cs, lo, now).contains(x) <==> exists|k: int|
                0 <= k < cs.len() && self.front_hit(#[trigger] cs[k] as int, x as int, now),
        decreases self.bound() - lo, cs.len(),
    {
        if cs.len() > 0 {
            let c = cs[0] as int;
            let rest = cs.drop_first();
            assert forall|k: int| 0 <= k < rest.len() implies #[trigger] rest[k] < self.n() && lo < self.rank@[rest[k] as int] by {
                assert(rest[k] == cs[k + 1]);
            }
            self.lemma_front_members(rest, lo, x, now);
            self.lemma_children_ranks(cs[0]);
            let ch = self.children@[c]@;
            self.lemma_front_members(ch, self.rank@[c] as int, x, now);
            let head = if self.due(c, now) {
                seq![cs[0]]
            } else {
                self.front(ch, self.rank@[c] as int, now)
            };
            let tail = self.front(rest, lo, now);
            assert(self.front(cs, lo, now) == head + tail);
            Self::lemma_concat_contains(head, tail, x);
            if self.front(cs, lo, now).contains(x) {
                if head.contains(x) {
                    if self.due(c, now) {
                        assert(head[0] == x);
                        assert(self.is_ancestor_or_self(c, c));
                        assert forall|y: int|
                            0 <= y < self.n() && #[trigger] self.is_ancestor_or_self(c, y) && self.is_ancestor_or_self(y, c)
                                && y != c implies !self.due(y, now) by {
                            self.lemma_anc_rank(c, y);
                            self.lemma_anc_rank(y, c);
                        }
                        assert(self.front_hit(cs[0] as int, x as int, now));
                    } else {
                        let j = choose|j: int| 0 <= j < ch.len() && self.front_hit(#[trigger] ch[j] as int, x as int, now);
                        let d = ch[j] as int;
                        self.lemma_parent_anc(d, c);
                        self.lemma_anc_trans(c, d, x as int);
                        assert forall|y: int|
                            0 <= y < self.n() && #[trigger] self.is_ancestor_or_self(c, y) && self.is_ancestor_or_self(y, x as int)
                                && y != x implies !self.due(y, now) by {
                            if y != c {
                                self.lemma_anc_total(d, y, x as int);
                                if !self.is_ancestor_or_self(d, y) {
                                    // y is above d, hence at or above c
                                    if y != d {
                                        self.lemma_anc_up(y, d);
                                        self.lemma_anc_rank(c, y);
                                        self.lemma_anc_rank(y, c);
                                    }
                                }
                            }
                        }
                        assert(self.front_hit(cs[0] as int, x as int, now));
                    }
                } else {
                    let j = choose|j: int| 0 <= j < rest.len() && self.front_hit(#[trigger] rest[j] as int, x as int, now);
                    assert(rest[j] == cs[j + 1]);
                }
            }
            if exists|k: int| 0 <= k < cs.len() && self.front_hit(#[trigger] cs[k] as int, x as int, now) {
                let k = choose|k: int| 0 <= k < cs.len() && self.front_hit(#[trigger] cs[k] as int, x as int, now);
                if k == 0 {
                    if self.due(c, now) {
                        if x as int != c {
                            assert(self.is_ancestor_or_self(c, c));
                            assert(!self.due(c, now));
                        }
                        assert(head[0] == x);
                    } else {
                        assert(x as int != c);
                        let d = self.lemma_step_down(c, x as int);
                        self.lemma_parent_anc(d, c);
                        assert forall|y: int|
                            0 <= y < self.n() && #[trigger] self.is_ancestor_or_self(d, y) && self.is_ancestor_or_self(y, x as int)
                                && y != x implies !self.due(y, now) by {
                            self.lemma_anc_trans(c, d, y);
                        }
                        assert(self.children@[c]@.contains(d as usize));
                        let j = choose|j: int| 0 <= j < ch.len() && ch[j] == d as usize;
                        assert(self.front_hit(ch[j] as int, x as int, now));
                    }
                } else {
                    assert(rest[k - 1] == cs[k]);
                    assert(self.front_hit(rest[k - 1] as int, x as int, now));
                }
            }
        }
    }

    /// The frontier holds exactly the due steps none of whose ancestors is
    /// due: a step is only asked once everything above it is recalled.
    pub proof fn lemma_frontier_is_first_due(&self, x: usize, now: i64)
        requires
            self.wf(),
        ensures
            self.frontier_seq(now).contains(x) <==> (x < self.n() && self.due(x as int, now) && forall|y: int|
                0 <= y < self.n() && #[trigger] self.is_ancestor_or_self(y, x as int) && y != x ==> !self.due(y, now)),
    {
        let roots = self.roots@;
        self.lemma_front_in_range(roots, -1, now);
        if x >= self.n() {
            if self.frontier_seq(now).contains(x) {
                let k = choose|k: int| 0 <= k < self.frontier_seq(now).len() && self.frontier_seq(now)[k] == x;
            }
            return;
        }
        self.lemma_front_members(roots, -1, x, now);
        if self.frontier_seq(now).contains(x) {
            let k = choose|k: int| 0 <= k < roots.len() && self.front_hit(#[trigger] roots[k] as int, x as int, now);
            let r = roots[k] as int;
            assert forall|y: int|
                0 <= y < self.n() && #[trigger] self.is_ancestor_or_self(y, x as int) && y != x implies !self.due(y, now) by {
                self.lemma_anc_total(r, y, x as int);
                if !self.is_ancestor_or_self(r, y) {
                    if y != r {
                        self.lemma_anc_up(y, r);
                    }
                }
            }
        }
        if self.due(x as int, now) && forall|y: int|
            0 <= y < self.n() && #[trigger] self.is_ancestor_or_self(y, x as int) && y != x ==> !self.due(y, now) {
            let r = self.lemma_has_root(x as int);
            let k = choose|k: int| 0 <= k < roots.len() && roots[k] == r as usize;
            assert(self.front_hit(roots[k] as int, x as int, now));
        }
    }
}

// ~~~ Strict validation (import) ~~~~~~~~~~~~~~~~~~~~~~~~~~~~~~~~~~~~~~~~~~~~~~~

#[derive(Debug, Clone, PartialEq, Eq)]
pub enum TreeError {
    DuplicateId(String),
    UnknownParent { item: String, parent: String },
    SelfParent(String),
    Cycle(String),
}

impl TreeError {
    pub open spec fn message_spec(&self) -> Seq<char> {
        match self {
            TreeError::DuplicateId(id) => "duplicate step id "@ + id@,
            TreeError::UnknownParent { item, parent } => "step "@ + item@ + " points at parent "@
                + parent@ + ", which is not in the same card"@,
            TreeError::SelfParent(id) => "step "@ + id@ + " is its own parent"@,
            TreeError::Cycle(id) => "step "@ + id@ + " is part of a parent cycle"@,
        }
    }

    /// The error as a sentence for the user.
    pub fn message(&self) -> (r: String)
        ensures
            r@ == self.message_spec(),
    {
        match self {
            TreeError::DuplicateId(id) => concat("duplicate step id ", id.as_str()),
            TreeError::UnknownParent { item, parent } => {
                let mut r = concat("step ", item.as_str());
                push_all(&mut r, " points at parent ");
                push_all(&mut r, parent.as_str());
                push_all(&mut r, ", which is not in the same card");
                assert(r@ =~= self.message_spec());
                r
            },
            TreeError::SelfParent(id) => {
                let mut r = concat("step ", id.as_str());
                push_all(&mut r, " is its own parent");
                r
            },
            TreeError::Cycle(id) => {
                let mut r = concat("step ", id.as_str());
                push_all(&mut r, " is part of a parent cycle");
                r
            },
        }
    }
}

/// Some earlier step carries the id of step `i`.
pub open spec fn id_seen_before(items: Seq<Item>, i: int) -> bool {
    exists|j: int| 0 <= j < i && items[j].id@ == items[i].id@
}

/// Some step carries `id`.
pub open spec fn id_present(items: Seq<Item>, id: Seq<char>) -> bool {
    exists|j: int| 0 <= j < items.len() && items[j].id@ == id
}

/// The parent link of step `i` is broken: it names the step itself, or a
/// step that is not in the card.
pub open spec fn bad_parent(items: Seq<Item>, i: int) -> bool {
    match items[i].parent_id {
        Some(p) => p@ == items[i].id@ || !id_present(items, p@),
        None => false,
    }
}

/// One parent link up from step `c` (a root stays where it is).
pub open spec fn up(items: Seq<Item>, c: int) -> int {
    match items[c].parent_id {
        Some(p) => match last_with_id(items, p@, items.len() as int) {
            Some(j) => j as int,
            None => c,
        },
        None => c,
    }
}

/// Where climbing `k` parent links from step `i` ends (stopping at a root).
pub open spec fn climb(items: Seq<Item>, i: int, k: nat) -> int
    decreases k,
{
    if k == 0 {
        i
    } else {
        up(items, climb(items, i, (k - 1) as nat))
    }
}

/// Step `i` is on, or hangs below, a cycle: `len + 1` climbs still end at a
/// step that has a parent.
pub open spec fn in_cycle(items: Seq<Item>, i: int) -> bool {
    items[climb(items, i, (items.len() + 1) as nat)].parent_id is Some
}

/// The three kinds of fault `validate` looks for, in the order it looks.
pub open spec fn faulty(items: Seq<Item>, kind: int, i: int) -> bool {
    if kind == 0 {
        id_seen_before(items, i)
    } else if kind == 1 {
        bad_parent(items, i)
    } else {
        in_cycle(items, i)
    }
}

/// Some step has a fault of this kind.
pub open spec fn has_fault(items: Seq<Item>, kind: int) -> bool {
    exists|i: int| 0 <= i < items.len() && #[trigger] faulty(items, kind, i)
}

/// The first step with a fault of this kind.
pub open spec fn first_fault(items: Seq<Item>, kind: int) -> int {
    choose|i: int|
        0 <= i < items.len() && #[trigger] faulty(items, kind, i) && forall|j: int|
            0 <= j < i ==> !#[trigger] faulty(items, kind, j)
}

/// What `validate` reports: the first duplicate id; else the first broken
/// parent link; else the first step caught in a cycle.
pub open spec fn validation(items: Seq<Item>) -> Result<(), TreeError> {
    if has_fault(items, 0) {
        Err(TreeError::DuplicateId(items[first_fault(items, 0)].id))
    } else if has_fault(items, 1) {
        let i = first_fault(items, 1);
        let p = items[i].parent_id->0;
        if p@ == items[i].id@ {
            Err(TreeError::SelfParent(items[i].id))
        } else {
            Err(TreeError::UnknownParent { item: items[i].id, parent: p })
        }
    } else if has_fault(items, 2) {
        Err(TreeError::Cycle(items[first_fault(items, 2)].id))
    } else {
        Ok(())
    }
}

/// Strict check of the items of one tree card: unique ids, every parent in
/// the same card, no cycles.
pub fn validate(items: &[Item]) -> (r: Result<(), TreeError>)
    ensures
        r == validation(items@),
{
    let n = items.len();
    // duplicate ids
    let mut i: usize = 0;
    while i < n
        invariant
            n == items@.len(),
            i <= n,
            forall|j: int| 0 <= j < i ==> !id_seen_before(items@, j),
        decreases n - i,
    {
        let mut j: usize = 0;
        while j < i
            invariant
                i < n == items@.len(),
                j <= i,
                forall|q: int| 0 <= q < i ==> !id_seen_before(items@, q),
                forall|q: int| 0 <= q < j ==> items@[q].id@ != items@[i as int].id@,
            decreases i - j,
        {
            if same_text(items[j].id.as_str(), items[i].id.as_str()) {
                proof {
                    lemma_first_choice(items@, 0, i as int);
                }
                return Err(TreeError::DuplicateId(items[i].id.clone()));
            }
            j += 1;
        }
        i += 1;
    }
    // broken parent links
    let mut i: usize = 0;
    while i < n
        invariant
            n == items@.len(),
            i <= n,
            forall|j: int| 0 <= j < n ==> !id_seen_before(items@, j),
            forall|j: int| 0 <= j < i ==> !bad_parent(items@, j),
        decreases n - i,
    {
        match &items[i].parent_id {
            Some(p) => {
                if same_text(p.as_str(), items[i].id.as_str()) {
                    proof {
                        lemma_first_choice(items@, 1, i as int);
                    }
                    return Err(TreeError::SelfParent(items[i].id.clone()));
                }
                match find_last_id(items, p.as_str()) {
                    None => {
                        proof {
                            lemma_last_with_id_none(items@, p@, n as int);
                            lemma_first_choice(items@, 1, i as int);
                        }
                        return Err(
                            TreeError::UnknownParent {
                                item: items[i].id.clone(),
                                parent: p.clone(),
                            },
                        );
                    },
                    Some(q) => {
                        proof {
                            lemma_last_with_id_some(items@, p@, n as int);
                        }
                    },
                }
            },
            None => {},
        }
        i += 1;
    }
    // cycles
    let mut i: usize = 0;
    while i < n
        invariant
            n == items@.len(),
            i <= n,
            forall|j: int| 0 <= j < n ==> !id_seen_before(items@, j),
            forall|j: int| 0 <= j < n ==> !bad_parent(items@, j),
            forall|j: int| 0 <= j < i ==> !in_cycle(items@, j),
        decreases n - i,
    {
        let mut cur: usize = i;
        let mut k: usize = 0;
        while k < n
            invariant
                n == items@.len(),
                i < n,
                k <= n,
                cur < n,
                cur as int == climb(items@, i as int, k as nat),
            decreases n - k,
        {
            cur = step_up(items, cur);
            k += 1;
        }
        cur = step_up(items, cur);
        assert(cur as int == climb(items@, i as int, (n + 1) as nat));
        if items[cur].parent_id.is_some() {
            proof {
                lemma_first_choice(items@, 2, i as int);
            }
            return Err(TreeError::Cycle(items[i].id.clone()));
        }
        i += 1;
    }
    proof {
        assert(!has_fault(items@, 0));
        assert(!has_fault(items@, 1));
        assert(!has_fault(items@, 2));
    }
    Ok(())
}

proof fn lemma_first_choice(items: Seq<Item>, kind: int, i: int)
    requires
        0 <= i < items.len(),
        faulty(items, kind, i),
        forall|j: int| 0 <= j < i ==> !#[trigger] faulty(items, kind, j),
    ensures
        has_fault(items, kind),
        first_fault(items, kind) == i,
{
    assert(has_fault(items, kind));
    let k = first_fault(items, kind);
    if k < i {
        assert(!faulty(items, kind, k));
    } else if k > i {
        assert(!faulty(items, kind, i));
    }
}

proof fn lemma_last_with_id_none(items: Seq<Item>, id: Seq<char>, k: int)
    requires
        k <= items.len(),
        last_with_id(items, id, k) is None,
    ensures
        forall|j: int| 0 <= j < k ==> items[j].id@ != id,
    decreases k,
{
    if k > 0 {
        lemma_last_with_id_none(items, id, k - 1);
    }
}

proof fn lemma_last_with_id_some(items: Seq<Item>, id: Seq<char>, k: int)
    requires
        0 <= k <= items.len() <= usize::MAX,
        last_with_id(items, id, k) is Some,
    ensures
        items[last_with_id(items, id, k)->0 as int].id@ == id,
        last_with_id(items, id, k)->0 < k,
    decreases k,
{
    if k > 0 && items[k - 1].id@ != id {
        assert(last_with_id(items, id, k) == last_with_id(items, id, k - 1));
        lemma_last_with_id_some(items, id, k - 1);
    }
}

/// One parent link up from step `cur`.
fn step_up(items: &[Item], cur: usize) -> (r: usize)
    requires
        cur < items@.len(),
    ensures
        r as int == up(items@, cur as int),
        r < items@.len(),
{
    match &items[cur].parent_id {
        Some(p) => match find_last_id(items, p.as_str()) {
            Some(q) => {
                proof {
                    lemma_last_with_id_range(items@, p@, items@.len() as int);
                }
                q
            },
            None => cur,
        },
        None => cur,
    }
}

} // verus!
