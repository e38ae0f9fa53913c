//! The planned grouping of a path section is unique: the plan that the
//! rebuild computes is the only grouping with the properties it promises,
//! so planning the same points twice gives the same groups.
use vstd::prelude::*;
use crate::rebuild::{
    PlanPoint, all_placed, anchored, chunk_limit, continues, cycle_walk, distinct_points, ends_maximal, first_remaining,
    first_start, group_facts, in_before, layout_ok, lemma_link_pred, lemma_pos, link_ok, links_checked, maximal_grouping,
    on_unvisited_cycle, placed_before, planned_grouping, pos, pred, seeded_in_order, starts_maximal, succ,
};

verus! {

/// The point whose single link leads into `y`: the position of its first
/// recorded predecessor.
pub open spec fn back_of(ps: Seq<PlanPoint>, y: int) -> int {
    match pos(ps, pred(ps, y)[0]) {
        Some(k) => k,
        None => -1,
    }
}

/// `n` steps back from `y` over `back_of`.
pub open spec fn back_n(ps: Seq<PlanPoint>, y: int, n: nat) -> int
    decreases n,
{
    if n == 0 {
        y
    } else {
        back_of(ps, back_n(ps, y, (n - 1) as nat))
    }
}

proof fn lemma_back_of_link(ps: Seq<PlanPoint>, routes: bool, x: int, y: int)
    requires
        distinct_points(ps),
        links_checked(ps, routes),
        0 <= x < ps.len(),
        0 <= y < ps.len(),
        link_ok(ps, x, y, routes),
    ensures
        back_of(ps, y) == x,
{
    lemma_link_pred(ps, routes, x, y);
    lemma_pos(ps, ps[x].entity);
}

proof fn lemma_back_shift(ps: Seq<PlanPoint>, p: int, t: nat)
    ensures
        back_n(ps, p, t + 1) == back_n(ps, back_of(ps, p), t),
    decreases t,
{
    assert(back_n(ps, p, t + 1) == back_of(ps, back_n(ps, p, t)));
    if t > 0 {
        lemma_back_shift(ps, p, (t - 1) as nat);
        assert(back_n(ps, back_of(ps, p), t) == back_of(ps, back_n(ps, back_of(ps, p), (t - 1) as nat)));
    } else {
        assert(back_n(ps, p, 0) == p);
        assert(back_n(ps, back_of(ps, p), 0) == back_of(ps, p));
    }
}

/// A point sits in one slot of a layout only.
proof fn lemma_one_slot(
    ps: Seq<PlanPoint>,
    routes: bool,
    gs: Seq<Seq<usize>>,
    wh: Seq<Option<(int, int)>>,
    i: int,
    k: int,
    j: int,
    l: int,
)
    requires
        layout_ok(ps, routes, chunk_limit(routes), all_placed(ps.len()), gs, wh),
        0 <= i < gs.len(),
        0 <= k < gs[i].len(),
        0 <= j < gs.len(),
        0 <= l < gs[j].len(),
        gs[i][k] == gs[j][l],
    ensures
        i == j && k == l,
{
    assert(wh[gs[i][k] as int] == Some((i, k)));
    assert(wh[gs[j][l] as int] == Some((j, l)));
}

/// A point of group `kg >= i` is held by no group before `i`.
proof fn lemma_not_before(
    ps: Seq<PlanPoint>,
    routes: bool,
    gs: Seq<Seq<usize>>,
    wh: Seq<Option<(int, int)>>,
    i: int,
    kg: int,
    kp: int,
)
    requires
        layout_ok(ps, routes, chunk_limit(routes), all_placed(ps.len()), gs, wh),
        0 <= i <= kg < gs.len(),
        0 <= kp < gs[kg].len(),
    ensures
        !in_before(gs, i, gs[kg][kp]),
{
    if in_before(gs, i, gs[kg][kp]) {
        let j = choose|j: int| 0 <= j < i && #[trigger] gs[j].contains(gs[kg][kp]);
        let l = choose|l: int| 0 <= l < gs[j].len() && gs[j][l] == gs[kg][kp];
        lemma_one_slot(ps, routes, gs, wh, kg, kp, j, l);
    }
}

/// Step `t` back from `p` is a single link from a point outside the groups
/// before `i`.
pub open spec fn back_step_ok(ps: Seq<PlanPoint>, routes: bool, gs: Seq<Seq<usize>>, i: int, p: int, t: nat) -> bool {
    &&& link_ok(ps, back_n(ps, p, t + 1), back_n(ps, p, t), routes)
    &&& 0 <= back_n(ps, p, t + 1) < ps.len()
    &&& !in_before(gs, i, back_n(ps, p, t + 1) as usize)
}

/// A point in a run of groups `i..=j` joined by `continues` leads back over
/// single links, through points outside the groups before `i`, to the run's
/// first point.
proof fn lemma_run_back(
    ps: Seq<PlanPoint>,
    routes: bool,
    gs: Seq<Seq<usize>>,
    wh: Seq<Option<(int, int)>>,
    i: int,
    j: int,
    kg: int,
    kp: int,
) -> (d: nat)
    requires
        distinct_points(ps),
        links_checked(ps, routes),
        layout_ok(ps, routes, chunk_limit(routes), all_placed(ps.len()), gs, wh),
        0 <= i <= kg <= j < gs.len(),
        forall|k: int| i < k <= j ==> #[trigger] continues(ps, routes, gs, k),
        0 <= kp < gs[kg].len(),
    ensures
        back_n(ps, gs[kg][kp] as int, d) == gs[i][0],
        forall|t: nat| t < d ==> #[trigger] back_step_ok(ps, routes, gs, i, gs[kg][kp] as int, t),
    decreases kg, kp,
{
    let p = gs[kg][kp] as int;
    if kp == 0 && kg == i {
        0
    } else {
        let (xg, xp) = if kp > 0 {
            (kg, kp - 1)
        } else {
            (kg - 1, gs[kg - 1].len() - 1)
        };
        let x = gs[xg][xp] as int;
        if kp > 0 {
            assert(link_ok(ps, gs[kg][kp - 1] as int, gs[kg][kp - 1 + 1] as int, routes));
        } else {
            assert(continues(ps, routes, gs, kg));
            assert(gs[kg - 1].last() == gs[kg - 1][gs[kg - 1].len() - 1]);
        }
        assert(link_ok(ps, x, p, routes));
        assert(x < ps.len() && p < ps.len());
        lemma_back_of_link(ps, routes, x, p);
        lemma_not_before(ps, routes, gs, wh, i, xg, xp);
        let d0 = lemma_run_back(ps, routes, gs, wh, i, j, xg, xp);
        assert forall|t: nat| t <= d0 implies #[trigger] back_n(ps, p, t + 1) == back_n(ps, x, t) by {
            lemma_back_shift(ps, p, t);
        }
        assert forall|t: nat| t < d0 + 1 implies #[trigger] back_step_ok(ps, routes, gs, i, p, t) by {
            if t == 0 {
                assert(back_n(ps, p, 0) == p);
                assert(back_n(ps, p, 1) == back_of(ps, back_n(ps, p, 0)));
                assert(back_n(ps, p, 1) == x);
            } else {
                let u = (t - 1) as nat;
                assert(back_n(ps, p, u + 1) == back_n(ps, x, u));
                assert(back_n(ps, p, t + 1) == back_n(ps, x, t));
                assert(back_step_ok(ps, routes, gs, i, x, u));
            }
        }
        let d = d0 + 1;
        assert(back_n(ps, p, d) == gs[i][0]) by {
            lemma_back_shift(ps, p, d0);
        }
        d
    }
}

/// Going back round a cycle through `q` stays on the cycle: every step is a
/// single link through a point the cycle holds.
proof fn lemma_cycle_back(ps: Seq<PlanPoint>, routes: bool, vis: Seq<bool>, q: int, w: Seq<usize>, t: nat) -> (k: int)
    requires
        distinct_points(ps),
        links_checked(ps, routes),
        cycle_walk(ps, routes, vis, q, w),
    ensures
        0 <= k < w.len() - 1,
        back_n(ps, q, t) == w[k],
        link_ok(ps, back_n(ps, q, t + 1), back_n(ps, q, t), routes),
        0 <= back_n(ps, q, t + 1) < ps.len(),
        !vis[back_n(ps, q, t + 1)],
    decreases t,
{
    let k0: int = if t == 0 {
        assert(back_n(ps, q, 0) == q);
        0
    } else {
        let kp = lemma_cycle_back(ps, routes, vis, q, w, (t - 1) as nat);
        assert(link_ok(ps, w[kp + 1] as int, w[kp] as int, routes));
        assert(w[kp] < ps.len() && w[kp + 1] < ps.len());
        lemma_back_of_link(ps, routes, w[kp + 1] as int, w[kp] as int);
        assert(back_n(ps, q, t) == back_of(ps, back_n(ps, q, (t - 1) as nat)));
        assert(back_n(ps, q, t) == w[kp + 1]);
        if kp + 1 == w.len() - 1 {
            assert(w[kp + 1] == w[0]);
            0
        } else {
            kp + 1
        }
    };
    assert(link_ok(ps, w[k0 + 1] as int, w[k0] as int, routes));
    assert(w[k0] < ps.len() && w[k0 + 1] < ps.len());
    lemma_back_of_link(ps, routes, w[k0 + 1] as int, w[k0] as int);
    assert(back_n(ps, q, t + 1) == back_of(ps, back_n(ps, q, t)));
    assert(back_n(ps, q, t + 1) == w[k0 + 1]);
    assert(!vis[w[k0 + 1] as int]);
    k0
}

/// Some point is the first, in editor order, that no group before `i` holds.
proof fn lemma_first_remaining_exists(ps: Seq<PlanPoint>, gs: Seq<Seq<usize>>, i: int, a: int) -> (q: int)
    requires
        0 <= a < ps.len(),
        !in_before(gs, i, a as usize),
    ensures
        first_remaining(ps, gs, i, q),
    decreases a,
{
    if forall|r: int| 0 <= r < a ==> #[trigger] in_before(gs, i, r as usize) {
        a
    } else {
        let r = choose|r: int| 0 <= r < a && !#[trigger] in_before(gs, i, r as usize);
        lemma_first_remaining_exists(ps, gs, i, r)
    }
}

proof fn lemma_first_remaining_unique(ps: Seq<PlanPoint>, gs: Seq<Seq<usize>>, i: int, q1: int, q2: int)
    requires
        first_remaining(ps, gs, i, q1),
        first_remaining(ps, gs, i, q2),
    ensures
        q1 == q2,
{
    if q1 < q2 {
        assert(in_before(gs, i, q1 as usize));
    } else if q2 < q1 {
        assert(in_before(gs, i, q2 as usize));
    }
}

/// Some overall start comes first in editor order.
proof fn lemma_first_start_exists(ps: Seq<PlanPoint>, a: int) -> (s: int)
    requires
        0 <= a < ps.len(),
        ps[a].overall_start,
    ensures
        first_start(ps, s),
    decreases a,
{
    if forall|t: int| 0 <= t < a ==> !(#[trigger] ps[t]).overall_start {
        a
    } else {
        let t = choose|t: int| 0 <= t < a && (#[trigger] ps[t]).overall_start;
        lemma_first_start_exists(ps, t)
    }
}

/// The first `i` groups of both groupings are the same.
pub open spec fn same_prefix(g1: Seq<Seq<usize>>, g2: Seq<Seq<usize>>, i: int) -> bool {
    &&& 0 <= i <= g1.len()
    &&& i <= g2.len()
    &&& forall|j: int| 0 <= j < i ==> #[trigger] g1[j] == g2[j]
}

proof fn lemma_prefix_in_before(g1: Seq<Seq<usize>>, g2: Seq<Seq<usize>>, i: int, q: usize)
    requires
        same_prefix(g1, g2, i),
    ensures
        in_before(g1, i, q) == in_before(g2, i, q),
{
    if in_before(g1, i, q) {
        let j = choose|j: int| 0 <= j < i && #[trigger] g1[j].contains(q);
        assert(g2[j] == g1[j]);
    }
    if in_before(g2, i, q) {
        let j = choose|j: int| 0 <= j < i && #[trigger] g2[j].contains(q);
        assert(g2[j] == g1[j]);
    }
}

/// Both groupings hold the properties of a plan, with these layouts.
pub open spec fn both_planned(
    ps: Seq<PlanPoint>,
    routes: bool,
    g1: Seq<Seq<usize>>,
    wh1: Seq<Option<(int, int)>>,
    g2: Seq<Seq<usize>>,
    wh2: Seq<Option<(int, int)>>,
) -> bool {
    &&& distinct_points(ps)
    &&& links_checked(ps, routes)
    &&& ps.len() <= usize::MAX
    &&& layout_ok(ps, routes, chunk_limit(routes), all_placed(ps.len()), g1, wh1)
    &&& layout_ok(ps, routes, chunk_limit(routes), all_placed(ps.len()), g2, wh2)
    &&& planned_grouping(ps, routes, g1)
    &&& planned_grouping(ps, routes, g2)
}

/// Where the first point `a` of group `i` of one grouping is `d1` steps back
/// from the first remaining point `q`, and the other grouping starts group
/// `i` at `b`, `d2 >= d1` steps back over single links from outside the
/// earlier groups, the two starts agree.
proof fn lemma_same_start_core(
    ps: Seq<PlanPoint>,
    routes: bool,
    g1: Seq<Seq<usize>>,
    g2: Seq<Seq<usize>>,
    i: int,
    q: int,
    d1: nat,
    d2: nat,
)
    requires
        distinct_points(ps),
        links_checked(ps, routes),
        same_prefix(g1, g2, i),
        i < g1.len(),
        i < g2.len(),
        starts_maximal(ps, routes, g1, i, anchored(ps, routes)),
        starts_maximal(ps, routes, g2, i, anchored(ps, routes)),
        !continues(ps, routes, g1, i),
        !continues(ps, routes, g2, i),
        !(i == 0 && anchored(ps, routes)),
        first_remaining(ps, g1, i, q),
        d1 <= d2,
        back_n(ps, q, d1) == g1[i][0],
        back_n(ps, q, d2) == g2[i][0],
        forall|t: nat| t < d2 ==> #[trigger] back_step_ok(ps, routes, g2, i, q, t),
    ensures
        g1[i][0] == g2[i][0],
{
    if d1 < d2 {
        let a = g1[i][0] as int;
        let b = g2[i][0] as int;
        assert(back_step_ok(ps, routes, g2, i, q, d1));
        let x = back_n(ps, q, d1 + 1);
        lemma_prefix_in_before(g1, g2, i, x as usize);
        assert(link_ok(ps, x, a, routes));
        assert(first_remaining(ps, g1, i, a));
        lemma_first_remaining_unique(ps, g1, i, a, q);
        let vis = placed_before(ps, g1, i);
        assert(placed_before(ps, g2, i) =~= vis) by {
            assert forall|r: int| 0 <= r < ps.len() implies #[trigger] placed_before(ps, g2, i)[r] == vis[r] by {
                lemma_prefix_in_before(g1, g2, i, r as usize);
            }
        }
        assert(on_unvisited_cycle(ps, routes, vis, q));
        let w = choose|w: Seq<usize>| #[trigger] cycle_walk(ps, routes, vis, q, w);
        let k = lemma_cycle_back(ps, routes, vis, q, w, d2);
        let y = back_n(ps, q, d2 + 1);
        assert(!vis[y]);
        assert(!in_before(g2, i, y as usize));
        assert(link_ok(ps, y, b, routes));
        assert(first_remaining(ps, g2, i, b));
        assert forall|r: int| #[trigger] first_remaining(ps, g2, i, r) implies first_remaining(ps, g1, i, r) by {
            if 0 <= r < ps.len() {
                lemma_prefix_in_before(g1, g2, i, r as usize);
                assert forall|u: int| 0 <= u < r implies #[trigger] in_before(g1, i, u as usize) by {
                    lemma_prefix_in_before(g1, g2, i, u as usize);
                }
            }
        }
        lemma_first_remaining_unique(ps, g1, i, b, q);
    }
}

/// A run of groups from `i` that reaches the first remaining point `q`
/// gives how many steps back from `q` group `i` starts.
proof fn lemma_run_to_first(
    ps: Seq<PlanPoint>,
    routes: bool,
    gs: Seq<Seq<usize>>,
    wh: Seq<Option<(int, int)>>,
    i: int,
    q: int,
) -> (d: nat)
    requires
        distinct_points(ps),
        links_checked(ps, routes),
        layout_ok(ps, routes, chunk_limit(routes), all_placed(ps.len()), gs, wh),
        maximal_grouping(ps, routes, gs),
        0 <= i < gs.len(),
        !continues(ps, routes, gs, i),
        !(i == 0 && anchored(ps, routes)),
        first_remaining(ps, gs, i, q),
        ps.len() <= usize::MAX,
    ensures
        back_n(ps, q, d) == gs[i][0],
        forall|t: nat| t < d ==> #[trigger] back_step_ok(ps, routes, gs, i, q, t),
{
    assert(group_facts(ps, routes, gs, i, anchored(ps, routes)));
    assert(seeded_in_order(ps, routes, gs, i, anchored(ps, routes)));
    assert(exists|j: int|
        i <= j < gs.len() && gs[j].contains(q as usize) && forall|k: int| i < k <= j ==> #[trigger] continues(ps, routes, gs, k));
    let j = choose|j: int|
        i <= j < gs.len() && gs[j].contains(q as usize) && forall|k: int| i < k <= j ==> #[trigger] continues(ps, routes, gs, k);
    let l = choose|l: int| 0 <= l < gs[j].len() && gs[j][l] == q as usize;
    let d = lemma_run_back(ps, routes, gs, wh, i, j, j, l);
    assert(gs[j][l] as int == q);
    assert forall|t: nat| t < d implies #[trigger] back_step_ok(ps, routes, gs, i, q, t) by {
        assert(back_step_ok(ps, routes, gs, i, gs[j][l] as int, t));
    }
    d
}

/// Two planned groupings that agree before group `i` start group `i` at
/// the same point.
proof fn lemma_same_first(
    ps: Seq<PlanPoint>,
    routes: bool,
    g1: Seq<Seq<usize>>,
    wh1: Seq<Option<(int, int)>>,
    g2: Seq<Seq<usize>>,
    wh2: Seq<Option<(int, int)>>,
    i: int,
)
    requires
        both_planned(ps, routes, g1, wh1, g2, wh2),
        same_prefix(g1, g2, i),
        i < g1.len(),
        i < g2.len(),
    ensures
        g1[i][0] == g2[i][0],
{
    let a = g1[i][0] as int;
    let b = g2[i][0] as int;
    let anch = anchored(ps, routes);
    assert(group_facts(ps, routes, g1, i, anch));
    assert(group_facts(ps, routes, g2, i, anch));
    lemma_not_before(ps, routes, g1, wh1, i, i, 0);
    lemma_not_before(ps, routes, g2, wh2, i, i, 0);
    lemma_prefix_in_before(g1, g2, i, a as usize);
    lemma_prefix_in_before(g1, g2, i, b as usize);
    assert(a < ps.len() && b < ps.len());
    if continues(ps, routes, g1, i) {
        assert(g2[i - 1] == g1[i - 1]);
        assert(group_facts(ps, routes, g2, i - 1, anch));
        assert(ends_maximal(ps, routes, g2, i - 1));
    } else if continues(ps, routes, g2, i) {
        assert(g2[i - 1] == g1[i - 1]);
        assert(group_facts(ps, routes, g1, i - 1, anch));
        assert(ends_maximal(ps, routes, g1, i - 1));
    } else if i == 0 && anch {
        let s0 = choose|s: int| 0 <= s < ps.len() && #[trigger] ps[s].overall_start;
        let s = lemma_first_start_exists(ps, s0);
        assert(g1[0][0] == s);
        assert(g2[0][0] == s);
    } else {
        let q = lemma_first_remaining_exists(ps, g1, i, a);
        assert(first_remaining(ps, g2, i, q)) by {
            lemma_prefix_in_before(g1, g2, i, q as usize);
            assert forall|u: int| 0 <= u < q implies #[trigger] in_before(g2, i, u as usize) by {
                lemma_prefix_in_before(g1, g2, i, u as usize);
            }
        }
        let d1 = lemma_run_to_first(ps, routes, g1, wh1, i, q);
        let d2 = lemma_run_to_first(ps, routes, g2, wh2, i, q);
        if d1 <= d2 {
            lemma_same_start_core(ps, routes, g1, g2, i, q, d1, d2);
        } else {
            lemma_same_start_core(ps, routes, g2, g1, i, q, d2, d1);
        }
    }
}

/// Groups that agree before `i` and start group `i` at the same point agree
/// on its first `k` points: each next point is the one single link on.
proof fn lemma_same_run(
    ps: Seq<PlanPoint>,
    routes: bool,
    g1: Seq<Seq<usize>>,
    wh1: Seq<Option<(int, int)>>,
    g2: Seq<Seq<usize>>,
    wh2: Seq<Option<(int, int)>>,
    i: int,
    k: int,
)
    requires
        both_planned(ps, routes, g1, wh1, g2, wh2),
        0 <= i < g1.len(),
        i < g2.len(),
        g1[i][0] == g2[i][0],
        0 <= k < g1[i].len(),
        k < g2[i].len(),
    ensures
        g1[i][k] == g2[i][k],
    decreases k,
{
    if k > 0 {
        lemma_same_run(ps, routes, g1, wh1, g2, wh2, i, k - 1);
        let y = g1[i][k - 1] as int;
        assert(link_ok(ps, g1[i][k - 1] as int, g1[i][k - 1 + 1] as int, routes));
        assert(link_ok(ps, g2[i][k - 1] as int, g2[i][k - 1 + 1] as int, routes));
        let a = g1[i][k] as int;
        let b = g2[i][k] as int;
        assert(a < ps.len() && b < ps.len());
        assert(succ(ps, y)[0] == ps[a].entity);
        assert(succ(ps, y)[0] == ps[b].entity);
        if a < b {
            assert(ps[a].entity != ps[b].entity);
        } else if b < a {
            assert(ps[b].entity != ps[a].entity);
        }
    }
}

/// Group `i` of the first grouping is no shorter than that of the second:
/// it only ends where its single link cannot go on.
proof fn lemma_not_shorter(
    ps: Seq<PlanPoint>,
    routes: bool,
    g1: Seq<Seq<usize>>,
    wh1: Seq<Option<(int, int)>>,
    g2: Seq<Seq<usize>>,
    wh2: Seq<Option<(int, int)>>,
    i: int,
)
    requires
        both_planned(ps, routes, g1, wh1, g2, wh2),
        same_prefix(g1, g2, i),
        i < g1.len(),
        i < g2.len(),
        g1[i][0] == g2[i][0],
    ensures
        g1[i].len() >= g2[i].len(),
{
    let n = g1[i].len() as int;
    if n < g2[i].len() {
        lemma_same_run(ps, routes, g1, wh1, g2, wh2, i, n - 1);
        let l = g1[i][n - 1] as int;
        assert(g1[i].last() == g1[i][n - 1]);
        let q = g2[i][n] as int;
        assert(link_ok(ps, g2[i][n - 1] as int, g2[i][n - 1 + 1] as int, routes));
        assert(q < ps.len());
        assert(group_facts(ps, routes, g1, i, anchored(ps, routes)));
        assert(ends_maximal(ps, routes, g1, i));
        assert(link_ok(ps, l, q, routes));
        if in_before(g1, i + 1, q as usize) {
            let j = choose|j: int| 0 <= j < i + 1 && #[trigger] g1[j].contains(q as usize);
            let m = choose|m: int| 0 <= m < g1[j].len() && g1[j][m] == q as usize;
            if j < i {
                assert(g2[j] == g1[j]);
                lemma_one_slot(ps, routes, g2, wh2, j, m, i, n);
            } else {
                lemma_same_run(ps, routes, g1, wh1, g2, wh2, i, m);
                lemma_one_slot(ps, routes, g2, wh2, i, m, i, n);
            }
        } else {
            assert(g2[i].len() <= chunk_limit(routes));
        }
    }
}

/// The prefixes of two planned groupings agree up to `i`.
proof fn lemma_prefix_agrees(
    ps: Seq<PlanPoint>,
    routes: bool,
    g1: Seq<Seq<usize>>,
    wh1: Seq<Option<(int, int)>>,
    g2: Seq<Seq<usize>>,
    wh2: Seq<Option<(int, int)>>,
    i: int,
)
    requires
        both_planned(ps, routes, g1, wh1, g2, wh2),
        0 <= i <= g1.len(),
        i <= g2.len(),
    ensures
        same_prefix(g1, g2, i),
    decreases i,
{
    if i > 0 {
        let h = i - 1;
        lemma_prefix_agrees(ps, routes, g1, wh1, g2, wh2, h);
        lemma_same_first(ps, routes, g1, wh1, g2, wh2, h);
        lemma_not_shorter(ps, routes, g1, wh1, g2, wh2, h);
        lemma_not_shorter(ps, routes, g2, wh2, g1, wh1, h);
        assert forall|k: int| 0 <= k < g1[h].len() implies g1[h][k] == g2[h][k] by {
            lemma_same_run(ps, routes, g1, wh1, g2, wh2, h, k);
        }
        assert(g1[h] =~= g2[h]);
    }
}

/// The first grouping has no fewer groups than the second: the first
/// point of any further group of the second is placed by the first in a
/// group they share.
proof fn lemma_not_fewer(
    ps: Seq<PlanPoint>,
    routes: bool,
    g1: Seq<Seq<usize>>,
    wh1: Seq<Option<(int, int)>>,
    g2: Seq<Seq<usize>>,
    wh2: Seq<Option<(int, int)>>,
)
    requires
        both_planned(ps, routes, g1, wh1, g2, wh2),
        g1.len() <= g2.len(),
        same_prefix(g1, g2, g1.len() as int),
    ensures
        g1.len() == g2.len(),
{
    let n = g1.len() as int;
    if n < g2.len() {
        let p = g2[n][0] as int;
        assert(p < ps.len());
        assert(all_placed(ps.len())[p]);
        assert(wh1[p] is Some);
        let (j, l) = wh1[p]->Some_0;
        assert(g1[j][l] == p);
        assert(g2[j] == g1[j]);
        lemma_one_slot(ps, routes, g2, wh2, j, l, n, 0);
    }
}

/// Planning is deterministic: two groupings with everything a plan
/// promises (each point placed once, runs of single links maximal up to the
/// group size, seeded in editor order, and the overall start first) are the
/// same grouping.
pub proof fn lemma_planned_grouping_unique(ps: Seq<PlanPoint>, routes: bool, g1: Seq<Seq<usize>>, g2: Seq<Seq<usize>>)
    requires
        distinct_points(ps),
        links_checked(ps, routes),
        ps.len() <= usize::MAX,
        planned_grouping(ps, routes, g1),
        planned_grouping(ps, routes, g2),
    ensures
        g1 == g2,
{
    let wh1 = choose|wh: Seq<Option<(int, int)>>| #[trigger] layout_ok(ps, routes, chunk_limit(routes), all_placed(ps.len()), g1, wh);
    let wh2 = choose|wh: Seq<Option<(int, int)>>| #[trigger] layout_ok(ps, routes, chunk_limit(routes), all_placed(ps.len()), g2, wh);
    assert(both_planned(ps, routes, g1, wh1, g2, wh2));
    assert(both_planned(ps, routes, g2, wh2, g1, wh1));
    if g1.len() <= g2.len() {
        lemma_prefix_agrees(ps, routes, g1, wh1, g2, wh2, g1.len() as int);
        lemma_not_fewer(ps, routes, g1, wh1, g2, wh2);
    } else {
        lemma_prefix_agrees(ps, routes, g2, wh2, g1, wh1, g2.len() as int);
        lemma_not_fewer(ps, routes, g2, wh2, g1, wh1);
    }
    if g1.len() <= g2.len() {
        assert forall|j: int| 0 <= j < g1.len() implies g1[j] == g2[j] by {}
    } else {
        assert forall|j: int| 0 <= j < g2.len() implies g1[j] == g2[j] by {
            assert(g2[j] == g1[j]);
        }
    }
    assert(g1 =~= g2);
}

} // verus!
