//! Rebuild planning: the checked decomposition of a path section into
//! serialized groups (ENPH, ITPH, CKPH and POTI), with the links between
//! groups, and the packing of group headers and checkpoint neighbours.
use vstd::prelude::*;
use crate::error::KmpError;
use crate::graph::{EntityId, KmpPathNode};
use crate::traverse::{ascending, insert_sorted};
use crate::document::PathGroup;
use crate::grouping::lemma_planned_grouping_unique;

verus! {

broadcast use vstd::std_specs::vec::group_vec_axioms;

/// A point of the section being planned, in editor order.
#[derive(Debug)]
pub struct PlanPoint {
    pub entity: EntityId,
    /// Its graph component, if it has one.
    pub node: Option<KmpPathNode>,
    /// It is the overall start of its path.
    pub overall_start: bool,
}

/// Points of a section are distinct entities.
pub open spec fn distinct_points(ps: Seq<PlanPoint>) -> bool {
    forall|a: int, b: int| 0 <= a < b < ps.len() ==> ps[a].entity != ps[b].entity
}

/// Position of entity `e` among the points, searching from `i`.
pub open spec fn pos_from(ps: Seq<PlanPoint>, e: EntityId, i: int) -> Option<int>
    decreases ps.len() - i,
{
    if i < 0 || i >= ps.len() {
        None
    } else if ps[i].entity == e {
        Some(i)
    } else {
        pos_from(ps, e, i + 1)
    }
}

/// Position of entity `e` among the points.
pub open spec fn pos(ps: Seq<PlanPoint>, e: EntityId) -> Option<int> {
    pos_from(ps, e, 0)
}

/// `e` is one of the points.
pub open spec fn member(ps: Seq<PlanPoint>, e: EntityId) -> bool {
    pos(ps, e) is Some
}

/// Successors recorded at point `p` (none without a graph component).
pub open spec fn succ(ps: Seq<PlanPoint>, p: int) -> Seq<EntityId> {
    match ps[p].node {
        Some(n) => n.next_nodes@,
        None => Seq::empty(),
    }
}

/// Predecessors recorded at point `p` (none without a graph component).
pub open spec fn pred(ps: Seq<PlanPoint>, p: int) -> Seq<EntityId> {
    match ps[p].node {
        Some(n) => n.prev_nodes@,
        None => Seq::empty(),
    }
}

/// The most links a point may have on each side: routes cannot branch.
pub open spec fn link_limit(routes: bool) -> int {
    if routes {
        1
    } else {
        6
    }
}

/// What is wrong with the link from point `i` to `t` (forward: `t` is a
/// successor; else a predecessor), if anything.
pub open spec fn target_error(ps: Seq<PlanPoint>, i: int, t: EntityId, forward: bool) -> Option<KmpError> {
    if !member(ps, t) {
        Some(KmpError::StaleEdge)
    } else if ps[pos(ps, t)->Some_0].node is None {
        Some(KmpError::LinkedPointMissingComponent)
    } else if !(if forward {
        pred(ps, pos(ps, t)->Some_0).contains(ps[i].entity)
    } else {
        succ(ps, pos(ps, t)->Some_0).contains(ps[i].entity)
    }) {
        Some(KmpError::AsymmetricEdge)
    } else {
        None
    }
}

/// The first faulty link among `ts[k..]`.
pub open spec fn targets_error(ps: Seq<PlanPoint>, i: int, ts: Seq<EntityId>, forward: bool, k: int) -> Option<
    KmpError,
>
    decreases ts.len() - k,
{
    if k < 0 || k >= ts.len() {
        None
    } else {
        match target_error(ps, i, ts[k], forward) {
            Some(x) => Some(x),
            None => targets_error(ps, i, ts, forward, k + 1),
        }
    }
}

/// What is wrong with point `i`, if anything: no graph component, too many
/// links, or a faulty successor and then predecessor link.
pub open spec fn point_error(ps: Seq<PlanPoint>, i: int, routes: bool) -> Option<KmpError> {
    match ps[i].node {
        None => Some(KmpError::MissingGraphComponent),
        Some(n) => if n.prev_nodes@.len() > link_limit(routes) || n.next_nodes@.len() > link_limit(routes) {
            Some(KmpError::TooManyLinks)
        } else {
            match targets_error(ps, i, n.next_nodes@, true, 0) {
                Some(x) => Some(x),
                None => targets_error(ps, i, n.prev_nodes@, false, 0),
            }
        },
    }
}

/// The first faulty point from `k` on, in editor order.
pub open spec fn links_error(ps: Seq<PlanPoint>, routes: bool, k: int) -> Option<KmpError>
    decreases ps.len() - k,
{
    if k < 0 || k >= ps.len() {
        None
    } else {
        match point_error(ps, k, routes) {
            Some(x) => Some(x),
            None => links_error(ps, routes, k + 1),
        }
    }
}

/// A link fault is one of the link refusals.
pub open spec fn is_link_fault(x: KmpError) -> bool {
    x == KmpError::MissingGraphComponent || x == KmpError::TooManyLinks || x == KmpError::StaleEdge || x
        == KmpError::LinkedPointMissingComponent || x == KmpError::AsymmetricEdge
}

proof fn lemma_targets_fault(ps: Seq<PlanPoint>, i: int, ts: Seq<EntityId>, forward: bool, k: int)
    ensures
        targets_error(ps, i, ts, forward, k) matches Some(x) ==> is_link_fault(x),
    decreases ts.len() - k,
{
    if 0 <= k < ts.len() {
        lemma_targets_fault(ps, i, ts, forward, k + 1);
    }
}

/// The faults that `links_error` reports are link faults.
proof fn lemma_links_fault(ps: Seq<PlanPoint>, routes: bool, k: int)
    ensures
        links_error(ps, routes, k) matches Some(x) ==> is_link_fault(x),
    decreases ps.len() - k,
{
    if 0 <= k < ps.len() {
        lemma_links_fault(ps, routes, k + 1);
        if let Some(n) = ps[k].node {
            lemma_targets_fault(ps, k, n.next_nodes@, true, 0);
            lemma_targets_fault(ps, k, n.prev_nodes@, false, 0);
        }
    }
}

/// Every point has a graph component within the link limit, and every link
/// joins two points of the section and is recorded at both ends.
#[verifier::opaque]
pub open spec fn links_checked(ps: Seq<PlanPoint>, routes: bool) -> bool {
    &&& forall|p: int| 0 <= p < ps.len() ==> (#[trigger] ps[p]).node is Some
    &&& forall|p: int| 0 <= p < ps.len() ==> #[trigger] succ(ps, p).len() <= link_limit(routes) && pred(ps, p).len() <= link_limit(routes)
    &&& forall|p: int, k: int|
        0 <= p < ps.len() && 0 <= k < succ(ps, p).len() ==> member(ps, #[trigger] succ(ps, p)[k]) && pred(
            ps,
            pos(ps, succ(ps, p)[k])->Some_0,
        ).contains(ps[p].entity)
    &&& forall|p: int, k: int|
        0 <= p < ps.len() && 0 <= k < pred(ps, p).len() ==> member(ps, #[trigger] pred(ps, p)[k]) && succ(
            ps,
            pos(ps, pred(ps, p)[k])->Some_0,
        ).contains(ps[p].entity)
}

pub proof fn lemma_pos_from(ps: Seq<PlanPoint>, e: EntityId, i: int)
    requires
        0 <= i,
    ensures
        pos_from(ps, e, i) matches Some(k) ==> i <= k < ps.len() && ps[k].entity == e,
        pos_from(ps, e, i) is None ==> forall|k: int| i <= k < ps.len() ==> ps[k].entity != e,
    decreases ps.len() - i,
{
    if 0 <= i < ps.len() && ps[i].entity != e {
        lemma_pos_from(ps, e, i + 1);
    }
}

/// With distinct points, the position of a point's entity is that point.
pub proof fn lemma_pos(ps: Seq<PlanPoint>, e: EntityId)
    requires
        distinct_points(ps),
    ensures
        pos(ps, e) matches Some(k) ==> 0 <= k < ps.len() && ps[k].entity == e,
        pos(ps, e) is None ==> forall|k: int| 0 <= k < ps.len() ==> ps[k].entity != e,
        forall|k: int| 0 <= k < ps.len() && ps[k].entity == e ==> pos(ps, e) == Some(k),
{
    lemma_pos_from(ps, e, 0);
}

/// The position of entity `e` among the points.
pub fn find_point(points: &Vec<PlanPoint>, e: EntityId) -> (r: Option<usize>)
    ensures
        r matches Some(i) ==> pos(points@, e) == Some(i as int) && i < points@.len(),
        r is None ==> pos(points@, e) is None,
{
    proof {
        lemma_pos_from(points@, e, 0);
    }
    let mut i: usize = 0;
    while i < points.len()
        invariant
            i <= points@.len(),
            pos(points@, e) == pos_from(points@, e, i as int),
        decreases points@.len() - i,
    {
        if points[i].entity == e {
            return Some(i);
        }
        i += 1;
    }
    None
}

fn ids_contain(v: &Vec<EntityId>, x: EntityId) -> (r: bool)
    ensures
        r == v@.contains(x),
{
    let mut i: usize = 0;
    while i < v.len()
        invariant
            i <= v@.len(),
            forall|k: int| 0 <= k < i ==> v@[k] != x,
        decreases v@.len() - i,
    {
        if v[i] == x {
            proof {
                assert(v@[i as int] == x);
            }
            return true;
        }
        i += 1;
    }
    false
}

fn check_targets(points: &Vec<PlanPoint>, i: usize, ts: &Vec<EntityId>, forward: bool) -> (r: Result<(), KmpError>)
    requires
        i < points@.len(),
    ensures
        r is Ok <==> targets_error(points@, i as int, ts@, forward, 0) is None,
        r matches Err(x) ==> targets_error(points@, i as int, ts@, forward, 0) == Some(x),
{
    let e = points[i].entity;
    let mut k: usize = 0;
    while k < ts.len()
        invariant
            i < points@.len(),
            e == points@[i as int].entity,
            k <= ts@.len(),
            targets_error(points@, i as int, ts@, forward, 0) == targets_error(points@, i as int, ts@, forward, k as int),
        decreases ts@.len() - k,
    {
        let t = ts[k];
        match find_point(points, t) {
            None => {
                return Err(KmpError::StaleEdge);
            },
            Some(tp) => match &points[tp].node {
                None => {
                    return Err(KmpError::LinkedPointMissingComponent);
                },
                Some(other) => {
                    let ok = if forward {
                        ids_contain(&other.prev_nodes, e)
                    } else {
                        ids_contain(&other.next_nodes, e)
                    };
                    if !ok {
                        return Err(KmpError::AsymmetricEdge);
                    }
                },
            },
        }
        k += 1;
    }
    Ok(())
}

proof fn lemma_targets_ok(ps: Seq<PlanPoint>, i: int, ts: Seq<EntityId>, forward: bool, k: int)
    requires
        0 <= k,
        targets_error(ps, i, ts, forward, k) is None,
    ensures
        forall|m: int| k <= m < ts.len() ==> #[trigger] target_error(ps, i, ts[m], forward) is None,
    decreases ts.len() - k,
{
    if k < ts.len() {
        lemma_targets_ok(ps, i, ts, forward, k + 1);
    }
}

proof fn lemma_links_ok(ps: Seq<PlanPoint>, routes: bool, k: int)
    requires
        0 <= k,
        links_error(ps, routes, k) is None,
    ensures
        forall|p: int| k <= p < ps.len() ==> #[trigger] point_error(ps, p, routes) is None,
    decreases ps.len() - k,
{
    if k < ps.len() {
        lemma_links_ok(ps, routes, k + 1);
    }
}

/// Check every point's links in editor order: a graph component, at most the
/// link limit on each side, and successor then predecessor links that join
/// points of this section and are recorded at both ends.
pub fn check_links(points: &Vec<PlanPoint>, routes: bool) -> (r: Result<(), KmpError>)
    ensures
        r is Ok <==> links_error(points@, routes, 0) is None,
        r matches Err(x) ==> links_error(points@, routes, 0) == Some(x),
        r is Ok ==> links_checked(points@, routes),
{
    let limit: usize = if routes {
        1
    } else {
        6
    };
    let mut i: usize = 0;
    while i < points.len()
        invariant
            limit == link_limit(routes),
            i <= points@.len(),
            links_error(points@, routes, 0) == links_error(points@, routes, i as int),
        decreases points@.len() - i,
    {
        match &points[i].node {
            None => {
                return Err(KmpError::MissingGraphComponent);
            },
            Some(node) => {
                if node.prev_nodes.len() > limit || node.next_nodes.len() > limit {
                    return Err(KmpError::TooManyLinks);
                }
                match check_targets(points, i, &node.next_nodes, true) {
                    Err(x) => {
                        return Err(x);
                    },
                    Ok(()) => {},
                }
                match check_targets(points, i, &node.prev_nodes, false) {
                    Err(x) => {
                        return Err(x);
                    },
                    Ok(()) => {},
                }
            },
        }
        i += 1;
    }
    proof {
        reveal(links_checked);
        let ps = points@;
        lemma_links_ok(ps, routes, 0);
        assert forall|p: int| 0 <= p < ps.len() implies (#[trigger] ps[p]).node is Some by {
            assert(point_error(ps, p, routes) is None);
        }
        assert forall|p: int| 0 <= p < ps.len() implies #[trigger] succ(ps, p).len() <= link_limit(routes) && pred(ps, p).len()
            <= link_limit(routes) by {
            assert(point_error(ps, p, routes) is None);
        }
        assert forall|p: int, k: int|
            0 <= p < ps.len() && 0 <= k < succ(ps, p).len() implies member(ps, #[trigger] succ(ps, p)[k]) && pred(
            ps,
            pos(ps, succ(ps, p)[k])->Some_0,
        ).contains(ps[p].entity) by {
            assert(point_error(ps, p, routes) is None);
            lemma_targets_ok(ps, p, succ(ps, p), true, 0);
            assert(target_error(ps, p, succ(ps, p)[k], true) is None);
        }
        assert forall|p: int, k: int|
            0 <= p < ps.len() && 0 <= k < pred(ps, p).len() implies member(ps, #[trigger] pred(ps, p)[k]) && succ(
            ps,
            pos(ps, pred(ps, p)[k])->Some_0,
        ).contains(ps[p].entity) by {
            assert(point_error(ps, p, routes) is None);
            lemma_targets_ok(ps, p, succ(ps, p), true, 0);
            lemma_targets_ok(ps, p, pred(ps, p), false, 0);
            assert(target_error(ps, p, pred(ps, p)[k], false) is None);
        }
    }
    Ok(())
}

/// Distinct positions below `n` are at most `n`.
pub proof fn lemma_distinct_bound(s: Seq<usize>, n: int)
    requires
        0 <= n,
        s.no_duplicates(),
        forall|k: int| 0 <= k < s.len() ==> s[k] < n,
    ensures
        s.len() <= n,
{
    s.unique_seq_to_set();
    let f = |x: usize| x as int;
    let img = s.to_set().map(f);
    assert(vstd::relations::injective_on(f, s.to_set()));
    vstd::set_lib::lemma_map_size(s.to_set(), img, f);
    vstd::set_lib::lemma_int_range(0, n);
    assert(img.subset_of(vstd::set_lib::set_int_range(0, n))) by {
        assert forall|x: int| img.contains(x) implies vstd::set_lib::set_int_range(0, n).contains(x) by {
            let y = choose|y: usize| s.to_set().contains(y) && f(y) == x;
            let k = choose|k: int| 0 <= k < s.len() && s[k] == y;
        }
    }
    vstd::set_lib::lemma_len_subset(img, vstd::set_lib::set_int_range(0, n));
}

/// Point `b` follows point `a` in a serialized chain: `b` is the only
/// successor of `a`, `a` the only predecessor of `b`, and (outside routes)
/// `b` is not an overall start.
pub open spec fn link_ok(ps: Seq<PlanPoint>, a: int, b: int, routes: bool) -> bool {
    &&& succ(ps, a) == seq![ps[b].entity]
    &&& pred(ps, b).len() == 1
    &&& (!routes ==> !ps[b].overall_start)
}

/// A walk back from `seed` to `start` over single links through unvisited
/// points, each step leaving a point that is not an overall start (outside
/// routes).
#[verifier::opaque]
pub open spec fn trail_ok(ps: Seq<PlanPoint>, routes: bool, vis: Seq<bool>, seed: int, start: int, t: Seq<usize>) -> bool {
    &&& t.len() >= 1
    &&& t[0] == seed
    &&& t.last() == start
    &&& t.no_duplicates()
    &&& forall|k: int| 0 <= k < t.len() ==> #[trigger] t[k] < ps.len() && !vis[t[k] as int]
    &&& forall|k: int|
        0 <= k < t.len() - 1 ==> pred(ps, #[trigger] t[k] as int) == seq![ps[t[k + 1] as int].entity] && succ(
            ps,
            t[k + 1] as int,
        ).len() == 1 && (!routes ==> !ps[t[k] as int].overall_start)
}

/// A cycle of single backward links: each point's only predecessor is the next.
pub open spec fn back_cycle(ps: Seq<PlanPoint>, w: Seq<usize>) -> bool {
    &&& w.len() >= 2
    &&& w[0] == w.last()
    &&& forall|k: int| 0 <= k < w.len() ==> #[trigger] w[k] < ps.len()
    &&& forall|k: int| 0 <= k < w.len() - 1 ==> pred(ps, #[trigger] w[k] as int) == seq![ps[w[k + 1] as int].entity]
}

/// The points contain a cycle of single backward links.
pub open spec fn has_back_cycle(ps: Seq<PlanPoint>) -> bool {
    exists|w: Seq<usize>| back_cycle(ps, w)
}

fn list_has(v: &Vec<usize>, x: usize) -> (r: bool)
    ensures
        r == v@.contains(x),
{
    let mut i: usize = 0;
    while i < v.len()
        invariant
            i <= v@.len(),
            forall|k: int| 0 <= k < i ==> v@[k] != x,
        decreases v@.len() - i,
    {
        if v[i] == x {
            proof {
                assert(v@[i as int] == x);
            }
            return true;
        }
        i += 1;
    }
    false
}

proof fn lemma_trail_single(ps: Seq<PlanPoint>, routes: bool, vis: Seq<bool>, seed: usize)
    requires
        seed < ps.len(),
        !vis[seed as int],
    ensures
        trail_ok(ps, routes, vis, seed as int, seed as int, seq![seed]),
{
    reveal(trail_ok);
}

proof fn lemma_trail_facts(ps: Seq<PlanPoint>, routes: bool, vis: Seq<bool>, seed: int, start: int, t: Seq<usize>)
    requires
        trail_ok(ps, routes, vis, seed, start, t),
    ensures
        t.no_duplicates(),
        forall|k: int| 0 <= k < t.len() ==> #[trigger] t[k] < ps.len(),
        t.len() >= 1,
        t.last() == start,
{
    reveal(trail_ok);
}

proof fn lemma_trail_steps(ps: Seq<PlanPoint>, routes: bool, vis: Seq<bool>, seed: int, start: int, t: Seq<usize>)
    requires
        trail_ok(ps, routes, vis, seed, start, t),
    ensures
        forall|k: int| 0 <= k < t.len() - 1 ==> pred(ps, #[trigger] t[k] as int) == seq![ps[t[k + 1] as int].entity],
{
    reveal(trail_ok);
}

#[verifier::rlimit(40)]
proof fn lemma_trail_cycle(ps: Seq<PlanPoint>, routes: bool, vis: Seq<bool>, seed: int, start: int, t: Seq<usize>, pp: usize)
    requires
        trail_ok(ps, routes, vis, seed, start, t),
        pp < ps.len(),
        pred(ps, start) == seq![ps[pp as int].entity],
        t.contains(pp),
    ensures
        has_back_cycle(ps),
{
    lemma_trail_steps(ps, routes, vis, seed, start, t);
    lemma_trail_facts(ps, routes, vis, seed, start, t);
    let m = choose|m: int| 0 <= m < t.len() && t[m] == pp;
    let w = t.subrange(m, t.len() as int).push(pp);
    assert forall|k: int| 0 <= k < w.len() implies #[trigger] w[k] < ps.len() by {
        if k < w.len() - 1 {
            assert(w[k] == t[m + k]);
        }
    }
    assert forall|k: int| 0 <= k < w.len() - 1 implies pred(ps, #[trigger] w[k] as int) == seq![
        ps[w[k + 1] as int].entity
    ] by {
        if k < w.len() - 2 {
            assert(w[k] == t[m + k] && w[k + 1] == t[m + k + 1]);
        } else {
            assert(w[k] == t.last());
        }
    }
    assert(back_cycle(ps, w));
}

#[verifier::rlimit(40)]
proof fn lemma_trail_push(ps: Seq<PlanPoint>, routes: bool, vis: Seq<bool>, seed: int, start: int, t: Seq<usize>, pp: usize)
    requires
        trail_ok(ps, routes, vis, seed, start, t),
        pp < ps.len(),
        !vis[pp as int],
        !t.contains(pp),
        pred(ps, start) == seq![ps[pp as int].entity],
        succ(ps, pp as int).len() == 1,
        !routes ==> !ps[start].overall_start,
    ensures
        trail_ok(ps, routes, vis, seed, pp as int, t.push(pp)),
{
    reveal(trail_ok);
    let t2 = t.push(pp);
    assert forall|a: int, b: int| 0 <= a < b < t2.len() implies t2[a] != t2[b] by {
        if b == t.len() {
            assert(t2[a] == t[a]);
        }
    }
    assert forall|k: int| 0 <= k < t2.len() - 1 implies pred(ps, #[trigger] t2[k] as int) == seq![
        ps[t2[k + 1] as int].entity
    ] && succ(ps, t2[k + 1] as int).len() == 1 && (!routes ==> !ps[t2[k] as int].overall_start) by {
        if k < t.len() - 1 {
            assert(t2[k] == t[k] && t2[k + 1] == t[k + 1]);
        } else {
            assert(t2[k] == start && t2[k + 1] == pp);
        }
    }
    assert forall|k: int| 0 <= k < t2.len() implies #[trigger] t2[k] < ps.len() && !vis[t2[k] as int] by {
        if k < t.len() {
            assert(t2[k] == t[k]);
        }
    }
}

/// With checked links, a point that `x` leads into by `link_ok` has `x` as
/// its only predecessor.
pub(crate) proof fn lemma_link_pred(ps: Seq<PlanPoint>, routes: bool, x: int, s: int)
    requires
        distinct_points(ps),
        links_checked(ps, routes),
        0 <= x < ps.len(),
        0 <= s < ps.len(),
        link_ok(ps, x, s, routes),
    ensures
        pred(ps, s) == seq![ps[x].entity],
{
    lemma_checked_succ(ps, routes, x, 0);
    lemma_pos(ps, ps[s].entity);
    assert(pred(ps, s).contains(ps[x].entity));
    assert(pred(ps, s) =~= seq![ps[x].entity]);
}

/// `w` walks back from `a` over single links, through points not yet
/// visited, and comes round to `a` again.
pub open spec fn cycle_walk(ps: Seq<PlanPoint>, routes: bool, vis: Seq<bool>, a: int, w: Seq<usize>) -> bool {
    &&& w.len() >= 2
    &&& w[0] == a
    &&& w.last() == a
    &&& forall|k: int| 0 <= k < w.len() ==> #[trigger] w[k] < ps.len() && !vis[w[k] as int]
    &&& forall|k: int| 0 <= k < w.len() - 1 ==> #[trigger] link_ok(ps, w[k + 1] as int, w[k] as int, routes)
}

/// Point `a` lies on a cycle of single links through unvisited points.
pub open spec fn on_unvisited_cycle(ps: Seq<PlanPoint>, routes: bool, vis: Seq<bool>, a: int) -> bool {
    exists|w: Seq<usize>| #[trigger] cycle_walk(ps, routes, vis, a, w)
}

/// A point whose one successor `b` has it as its only predecessor links
/// into `b` by a single link.
proof fn lemma_single_link(ps: Seq<PlanPoint>, routes: bool, a: int, b: int)
    requires
        distinct_points(ps),
        links_checked(ps, routes),
        0 <= a < ps.len(),
        0 <= b < ps.len(),
        pred(ps, b) == seq![ps[a].entity],
        succ(ps, a).len() == 1,
    ensures
        succ(ps, a) == seq![ps[b].entity],
{
    lemma_checked_pred(ps, routes, b, 0);
    lemma_pos(ps, ps[a].entity);
    assert(succ(ps, a).contains(ps[b].entity));
    assert(succ(ps, a) =~= seq![ps[b].entity]);
}

/// Meeting the trail again closes a cycle through its seed: the point met
/// can only be the seed, since every later trail point already has its one
/// successor inside the trail.
/// One step of a trail is a single link into the point before it.
proof fn lemma_trail_link(ps: Seq<PlanPoint>, routes: bool, vis: Seq<bool>, seed: int, start: int, t: Seq<usize>, k: int)
    requires
        distinct_points(ps),
        links_checked(ps, routes),
        trail_ok(ps, routes, vis, seed, start, t),
        0 <= k < t.len() - 1,
    ensures
        link_ok(ps, t[k + 1] as int, t[k] as int, routes),
        t[k] < ps.len() && !vis[t[k] as int],
        t[k + 1] < ps.len() && !vis[t[k + 1] as int],
        pred(ps, t[k] as int) == seq![ps[t[k + 1] as int].entity],
        succ(ps, t[k + 1] as int).len() == 1,
{
    reveal(trail_ok);
    lemma_single_link(ps, routes, t[k + 1] as int, t[k] as int);
}

/// Meeting the trail again, the point met is the seed: every later trail
/// point already has its one successor inside the trail.
proof fn lemma_trail_meets_seed(ps: Seq<PlanPoint>, routes: bool, vis: Seq<bool>, seed: int, start: int, t: Seq<usize>, pp: usize)
    requires
        distinct_points(ps),
        links_checked(ps, routes),
        trail_ok(ps, routes, vis, seed, start, t),
        pp < ps.len(),
        pred(ps, start) == seq![ps[pp as int].entity],
        succ(ps, pp as int).len() == 1,
        t.contains(pp),
    ensures
        pp as int == seed,
{
    lemma_trail_facts(ps, routes, vis, seed, start, t);
    let n = t.len() as int;
    let m = choose|m: int| 0 <= m < n && t[m] == pp;
    lemma_single_link(ps, routes, pp as int, start);
    if m > 0 {
        lemma_trail_link(ps, routes, vis, seed, start, t, m - 1);
        let c = t[m - 1] as int;
        assert(t[m] == pp);
        lemma_single_link(ps, routes, pp as int, c);
        assert(succ(ps, pp as int)[0] == ps[c].entity);
        assert(succ(ps, pp as int)[0] == ps[start].entity);
        assert(ps[c].entity == ps[start].entity);
        assert(c == start) by {
            if c < start {
                assert(ps[c].entity != ps[start].entity);
            } else if start < c {
                assert(ps[start].entity != ps[c].entity);
            }
        }
        assert(t[m - 1] == t[n - 1]);
        assert(false);
    }
    reveal(trail_ok);
}

/// Meeting the trail again closes a cycle through its seed.
proof fn lemma_trail_closes(ps: Seq<PlanPoint>, routes: bool, vis: Seq<bool>, seed: int, start: int, t: Seq<usize>, pp: usize)
    requires
        distinct_points(ps),
        links_checked(ps, routes),
        trail_ok(ps, routes, vis, seed, start, t),
        pp < ps.len(),
        pred(ps, start) == seq![ps[pp as int].entity],
        succ(ps, pp as int).len() == 1,
        t.contains(pp),
        !routes ==> !ps[start].overall_start,
    ensures
        pp as int == seed,
        on_unvisited_cycle(ps, routes, vis, seed),
{
    lemma_trail_meets_seed(ps, routes, vis, seed, start, t, pp);
    lemma_trail_facts(ps, routes, vis, seed, start, t);
    lemma_single_link(ps, routes, pp as int, start);
    let n = t.len() as int;
    let w = t.push(pp);
    assert(w[0] == seed) by {
        reveal(trail_ok);
    }
    assert forall|k: int| 0 <= k < w.len() implies #[trigger] w[k] < ps.len() && !vis[w[k] as int] by {
        if k < n {
            assert(w[k] == t[k]);
            reveal(trail_ok);
        } else {
            assert(w[k] == t[0]) by {
                reveal(trail_ok);
            }
            reveal(trail_ok);
        }
    }
    assert forall|k: int| 0 <= k < w.len() - 1 implies #[trigger] link_ok(ps, w[k + 1] as int, w[k] as int, routes) by {
        if k < n - 1 {
            assert(w[k] == t[k] && w[k + 1] == t[k + 1]);
            lemma_trail_link(ps, routes, vis, seed, start, t, k);
        } else {
            assert(w[k] == start && w[k + 1] == pp);
        }
    }
    assert(cycle_walk(ps, routes, vis, seed, w));
}

/// Every point that leads by `link_ok` into `first` was visited already,
/// unless (outside routes) `first` is the seed the walk began at and lies on
/// a cycle of unvisited points.
pub open spec fn opens_walk(ps: Seq<PlanPoint>, routes: bool, vis: Seq<bool>, first: int, seed: int) -> bool {
    forall|x: int|
        0 <= x < ps.len() && #[trigger] link_ok(ps, x, first, routes) ==> vis[x] || (first == seed && !routes
            && on_unvisited_cycle(ps, routes, vis, seed))
}

/// Walk back from an unvisited `seed` to the start of its chain: over a
/// single predecessor whose only successor it is, while that predecessor is
/// unvisited and (outside routes) the current point is not an overall start.
/// Meeting the walk again is a cycle: an error for routes, otherwise the
/// chain starts at the seed.
fn walk_back(points: &Vec<PlanPoint>, routes: bool, visited: &Vec<bool>, seed: usize) -> (r: Result<(usize, Ghost<Seq<usize>>), KmpError>)
    requires
        distinct_points(points@),
        links_checked(points@, routes),
        visited@.len() == points@.len(),
        seed < points@.len(),
        !visited@[seed as int],
    ensures
        r matches Ok((first, t)) ==> trail_ok(points@, routes, visited@, seed as int, first as int, t@),
        r matches Ok((first, t)) ==> opens_walk(points@, routes, visited@, first as int, seed as int),
        r matches Ok((first, t)) ==> (!routes && points@[seed as int].overall_start ==> first == seed),
        r matches Err(x) ==> x == KmpError::RouteCycle && routes && has_back_cycle(points@),
{
    let ghost ps = points@;
    let n = points.len();
    if !routes && points[seed].overall_start {
        proof {
            lemma_trail_single(ps, routes, visited@, seed);
        }
        let ghost single = seq![seed];
        return Ok((seed, Ghost(single)));
    }
    let mut start = seed;
    let mut backwards: Vec<usize> = Vec::new();
    let ghost mut trail: Seq<usize> = seq![seed];
    backwards.push(seed);
    proof {
        lemma_trail_single(ps, routes, visited@, seed);
        assert(backwards@ == seq![seed]);
    }
    while routes || !points[start].overall_start
        invariant_except_break
            trail_ok(ps, routes, visited@, seed as int, start as int, backwards@),
            trail == backwards@,
        invariant
            ps == points@,
            n == ps.len(),
            distinct_points(ps),
            links_checked(ps, routes),
            visited@.len() == n,
            seed < n,
            !visited@[seed as int],
            start < n,
        ensures
            trail_ok(ps, routes, visited@, seed as int, start as int, trail),
            opens_walk(ps, routes, visited@, start as int, seed as int),
        decreases n - backwards@.len(),
    {
        proof {
            lemma_trail_facts(ps, routes, visited@, seed as int, start as int, backwards@);
            lemma_distinct_bound(backwards@, n as int);
        }
        let prev = match &points[start].node {
            Some(node) => &node.prev_nodes,
            None => {
                break;
            },
        };
        if prev.len() != 1 {
            break;
        }
        let previous = prev[0];
        let pp = match find_point(points, previous) {
            Some(pp) => pp,
            None => {
                proof {
                    assert forall|x: int| 0 <= x < ps.len() && #[trigger] link_ok(ps, x, start as int, routes) implies visited@[x]
                        || (start == seed && !routes && on_unvisited_cycle(ps, routes, visited@, seed as int)) by {
                        lemma_link_pred(ps, routes, x, start as int);
                        lemma_pos(ps, ps[x].entity);
                    }
                }
                break;
            },
        };
        let pn = match &points[pp].node {
            Some(node) => node.next_nodes.len(),
            None => {
                proof {
                    assert forall|x: int| 0 <= x < ps.len() && #[trigger] link_ok(ps, x, start as int, routes) implies visited@[x]
                        || (start == seed && !routes && on_unvisited_cycle(ps, routes, visited@, seed as int)) by {
                        lemma_link_pred(ps, routes, x, start as int);
                        lemma_pos(ps, ps[x].entity);
                    }
                }
                break;
            },
        };
        if pn != 1 || visited[pp] {
            proof {
                assert forall|x: int| 0 <= x < ps.len() && #[trigger] link_ok(ps, x, start as int, routes) implies visited@[x]
                    || (start == seed && !routes && on_unvisited_cycle(ps, routes, visited@, seed as int)) by {
                    lemma_link_pred(ps, routes, x, start as int);
                    lemma_pos(ps, ps[x].entity);
                    assert(ps[x].entity == previous);
                }
            }
            break;
        }
        proof {
            lemma_pos(ps, previous);
            assert(pred(ps, start as int) =~= seq![ps[pp as int].entity]);
        }
        if list_has(&backwards, pp) {
            if routes {
                proof {
                    lemma_trail_cycle(ps, routes, visited@, seed as int, start as int, backwards@, pp);
                }
                return Err(KmpError::RouteCycle);
            }
            proof {
                lemma_trail_closes(ps, routes, visited@, seed as int, start as int, backwards@, pp);
            }
            start = seed;
            proof {
                lemma_trail_single(ps, routes, visited@, seed);
                trail = seq![seed];
            }
            break;
        }
        proof {
            lemma_trail_push(ps, routes, visited@, seed as int, start as int, backwards@, pp);
        }
        backwards.push(pp);
        start = pp;
        proof {
            trail = backwards@;
            lemma_trail_facts(ps, routes, visited@, seed as int, start as int, backwards@);
            lemma_distinct_bound(backwards@, n as int);
        }
    }
    Ok((start, Ghost(trail)))
}

/// A checked point has a graph component within the link limit.
pub proof fn lemma_checked_node(ps: Seq<PlanPoint>, routes: bool, p: int)
    requires
        links_checked(ps, routes),
        0 <= p < ps.len(),
    ensures
        ps[p].node is Some,
        succ(ps, p).len() <= link_limit(routes),
        pred(ps, p).len() <= link_limit(routes),
{
    reveal(links_checked);
    assert(succ(ps, p).len() <= link_limit(routes));
}

/// A checked successor link is a point recorded back at its target.
pub proof fn lemma_checked_succ(ps: Seq<PlanPoint>, routes: bool, p: int, k: int)
    requires
        links_checked(ps, routes),
        0 <= p < ps.len(),
        0 <= k < succ(ps, p).len(),
    ensures
        member(ps, succ(ps, p)[k]),
        pred(ps, pos(ps, succ(ps, p)[k])->Some_0).contains(ps[p].entity),
{
    reveal(links_checked);
}

/// A checked predecessor link is a point recorded back at its source.
pub proof fn lemma_checked_pred(ps: Seq<PlanPoint>, routes: bool, p: int, k: int)
    requires
        links_checked(ps, routes),
        0 <= p < ps.len(),
        0 <= k < pred(ps, p).len(),
    ensures
        member(ps, pred(ps, p)[k]),
        succ(ps, pos(ps, pred(ps, p)[k])->Some_0).contains(ps[p].entity),
{
    reveal(links_checked);
}

/// Along a checked trail, the point before each step is the only successor
/// of the point after it.
proof fn lemma_trail_next(
    ps: Seq<PlanPoint>,
    routes: bool,
    vis: Seq<bool>,
    seed: int,
    start: int,
    t: Seq<usize>,
    k: int,
)
    requires
        distinct_points(ps),
        links_checked(ps, routes),
        trail_ok(ps, routes, vis, seed, start, t),
        0 <= k < t.len() - 1,
    ensures
        succ(ps, t[k + 1] as int) == seq![ps[t[k] as int].entity],
        pred(ps, t[k] as int).len() == 1,
        !routes ==> !ps[t[k] as int].overall_start,
        t[k] < ps.len(),
        !vis[t[k] as int],
{
    reveal(trail_ok);
    let a = t[k] as int;
    let b = t[k + 1] as int;
    assert(pred(ps, a)[0] == ps[b].entity);
    lemma_checked_pred(ps, routes, a, 0);
    lemma_pos(ps, ps[b].entity);
    assert(succ(ps, b).contains(ps[a].entity));
    assert(succ(ps, b).len() == 1);
    assert(succ(ps, b) =~= seq![ps[a].entity]);
}

proof fn lemma_trail_ends(ps: Seq<PlanPoint>, routes: bool, vis: Seq<bool>, seed: int, start: int, t: Seq<usize>)
    requires
        trail_ok(ps, routes, vis, seed, start, t),
    ensures
        t.len() >= 1,
        t[0] == seed,
        t.last() == start,
        t.no_duplicates(),
        forall|k: int| 0 <= k < t.len() ==> #[trigger] t[k] < ps.len() && !vis[t[k] as int],
{
    reveal(trail_ok);
}

/// Follow single links forward from `start` through unvisited points (outside
/// routes, never into an overall start), marking them visited. The chain
/// retraces the trail walked back from `seed`, so it contains the seed.
fn build_chain(
    points: &Vec<PlanPoint>,
    routes: bool,
    visited: &mut Vec<bool>,
    start: usize,
    Ghost(seed): Ghost<usize>,
    Ghost(trail): Ghost<Seq<usize>>,
) -> (chain: Vec<usize>)
    requires
        distinct_points(points@),
        links_checked(points@, routes),
        old(visited)@.len() == points@.len(),
        trail_ok(points@, routes, old(visited)@, seed as int, start as int, trail),
    ensures
        chain@.len() >= 1,
        chain@[0] == start,
        chain@.contains(seed),
        chain@.no_duplicates(),
        forall|k: int| 0 <= k < chain@.len() ==> #[trigger] chain@[k] < points@.len() && !old(visited)@[chain@[k] as int],
        final(visited)@.len() == old(visited)@.len(),
        forall|p: int| 0 <= p < points@.len() ==> #[trigger] final(visited)@[p] == (old(visited)@[p] || chain@.contains(p as usize)),
        forall|k: int| 0 <= k < chain@.len() - 1 ==> #[trigger] link_ok(points@, chain@[k] as int, chain@[k + 1] as int, routes),
        forall|q: int|
            0 <= q < points@.len() && #[trigger] link_ok(points@, chain@.last() as int, q, routes) ==> old(visited)@[q]
                || chain@.contains(q as usize),
{
    let ghost ps = points@;
    let ghost vis0 = visited@;
    let ghost m = trail.len() - 1;
    let n = points.len();
    proof {
        lemma_trail_ends(ps, routes, vis0, seed as int, start as int, trail);
    }
    let mut chain: Vec<usize> = Vec::new();
    let mut current = start;
    loop
        invariant_except_break
            current < n,
            !visited@[current as int],
            !vis0[current as int],
            !chain@.contains(current),
            chain@.len() > 0 ==> link_ok(ps, chain@.last() as int, current as int, routes),
            chain@.len() == 0 ==> current == start,
            chain@.len() <= m ==> current == trail[m - chain@.len()],
        invariant
            ps == points@,
            n == ps.len(),
            distinct_points(ps),
            links_checked(ps, routes),
            trail_ok(ps, routes, vis0, seed as int, start as int, trail),
            m == trail.len() - 1,
            trail.len() >= 1,
            trail[0] == seed,
            trail.last() == start,
            trail.no_duplicates(),
            forall|k: int| 0 <= k < trail.len() ==> #[trigger] trail[k] < n && !vis0[trail[k] as int],
            visited@.len() == n,
            chain@.no_duplicates(),
            forall|k: int| 0 <= k < chain@.len() ==> #[trigger] chain@[k] < n && !vis0[chain@[k] as int],
            forall|p: int| 0 <= p < n ==> #[trigger] visited@[p] == (vis0[p] || chain@.contains(p as usize)),
            forall|k: int| 0 <= k < chain@.len() - 1 ==> #[trigger] link_ok(ps, chain@[k] as int, chain@[k + 1] as int, routes),
            chain@.len() > 0 ==> chain@[0] == start,
            forall|q: int| 0 <= q < chain@.len() && q <= m ==> chain@[q] == trail[m - q],
        ensures
            chain@.len() >= 1,
            chain@[0] == start,
            chain@.len() > m,
            chain@.no_duplicates(),
            forall|k: int| 0 <= k < chain@.len() ==> #[trigger] chain@[k] < n && !vis0[chain@[k] as int],
            forall|p: int| 0 <= p < n ==> #[trigger] visited@[p] == (vis0[p] || chain@.contains(p as usize)),
            forall|k: int| 0 <= k < chain@.len() - 1 ==> #[trigger] link_ok(ps, chain@[k] as int, chain@[k + 1] as int, routes),
            forall|q: int| 0 <= q < chain@.len() && q <= m ==> chain@[q] == trail[m - q],
            forall|q: int|
                0 <= q < n && #[trigger] link_ok(ps, chain@.last() as int, q, routes) ==> vis0[q] || chain@.contains(
                    q as usize,
                ),
        decreases n - chain@.len(),
    {
        proof {
            lemma_distinct_bound(chain@.push(current), n as int);
        }
        let ghost c0 = chain@;
        visited.set(current, true);
        chain.push(current);
        proof {
            assert forall|a: int, b: int| 0 <= a < b < chain@.len() implies chain@[a] != chain@[b] by {
                if b == c0.len() {
                    assert(chain@[a] == c0[a]);
                    assert(c0.contains(c0[a]));
                }
            }
            assert forall|p: int| 0 <= p < n implies #[trigger] visited@[p] == (vis0[p] || chain@.contains(p as usize)) by {
                if chain@.contains(p as usize) && p != current {
                    let k = choose|k: int| 0 <= k < chain@.len() && chain@[k] == p as usize;
                    assert(c0[k] == p as usize);
                }
                if c0.contains(p as usize) {
                    let k = choose|k: int| 0 <= k < c0.len() && c0[k] == p as usize;
                    assert(chain@[k] == p as usize);
                }
                if p == current {
                    assert(chain@[c0.len() as int] == current);
                }
            }
            assert forall|k: int| 0 <= k < chain@.len() - 1 implies #[trigger] link_ok(ps, chain@[k] as int, chain@[k + 1] as int, routes) by {
                if k < c0.len() - 1 {
                    assert(chain@[k] == c0[k] && chain@[k + 1] == c0[k + 1]);
                } else {
                    assert(chain@[k] == c0.last() && chain@[k + 1] == current);
                }
            }
            assert forall|k: int| 0 <= k < chain@.len() implies #[trigger] chain@[k] < n && !vis0[chain@[k] as int] by {
                if k < c0.len() {
                    assert(chain@[k] == c0[k]);
                }
            }
            lemma_checked_node(ps, routes, current as int);
            if c0.len() < m {
                let k = m - c0.len() - 1;
                lemma_trail_next(ps, routes, vis0, seed as int, start as int, trail, k);
                lemma_pos(ps, ps[trail[k] as int].entity);
                assert(!chain@.contains(trail[k])) by {
                    if chain@.contains(trail[k]) {
                        let j = choose|j: int| 0 <= j < chain@.len() && chain@[j] == trail[k];
                        assert(chain@[j] == trail[m - j]);
                    }
                }
                assert(!visited@[trail[k] as int]);
            }
        }
        let ghost q = c0.len() as int;
        let next = match &points[current].node {
            Some(node) => &node.next_nodes,
            None => {
                proof {
                    assert forall|q: int| 0 <= q < n && #[trigger] link_ok(ps, chain@.last() as int, q, routes) implies vis0[q]
                        || chain@.contains(q as usize) by {
                        lemma_pos(ps, ps[q].entity);
                        assert(chain@.last() == current);
                    }
                }
                break;
            },
        };
        if next.len() != 1 {
            proof {
                assert forall|q: int| 0 <= q < n && #[trigger] link_ok(ps, chain@.last() as int, q, routes) implies vis0[q]
                    || chain@.contains(q as usize) by {
                    lemma_pos(ps, ps[q].entity);
                    assert(chain@.last() == current);
                }
            }
            break;
        }
        let ne = next[0];
        let np = match find_point(points, ne) {
            Some(np) => np,
            None => {
                proof {
                    assert forall|q: int| 0 <= q < n && #[trigger] link_ok(ps, chain@.last() as int, q, routes) implies vis0[q]
                        || chain@.contains(q as usize) by {
                        lemma_pos(ps, ps[q].entity);
                        assert(chain@.last() == current);
                    }
                }
                break;
            },
        };
        if visited[np] {
            proof {
                assert forall|q: int| 0 <= q < n && #[trigger] link_ok(ps, chain@.last() as int, q, routes) implies vis0[q]
                    || chain@.contains(q as usize) by {
                    lemma_pos(ps, ps[q].entity);
                    assert(chain@.last() == current);
                }
            }
            break;
        }
        let pn = match &points[np].node {
            Some(node) => node.prev_nodes.len(),
            None => {
                proof {
                    assert forall|q: int| 0 <= q < n && #[trigger] link_ok(ps, chain@.last() as int, q, routes) implies vis0[q]
                        || chain@.contains(q as usize) by {
                        lemma_pos(ps, ps[q].entity);
                        assert(chain@.last() == current);
                    }
                }
                break;
            },
        };
        if pn != 1 || (!routes && points[np].overall_start) {
            proof {
                assert forall|q: int| 0 <= q < n && #[trigger] link_ok(ps, chain@.last() as int, q, routes) implies vis0[q]
                    || chain@.contains(q as usize) by {
                    lemma_pos(ps, ps[q].entity);
                    assert(chain@.last() == current);
                }
            }
            break;
        }
        proof {
            lemma_pos(ps, ne);
            assert(succ(ps, current as int) =~= seq![ps[np as int].entity]);
            assert(!chain@.contains(np)) by {
                if chain@.contains(np) {
                    let k = choose|k: int| 0 <= k < chain@.len() && chain@[k] == np;
                    assert(visited@[np as int]);
                }
            }
            if q < m {
                assert(current == trail[m - q]);
                assert(succ(ps, trail[m - q] as int) == seq![ps[trail[m - q - 1] as int].entity]);
                assert(ps[np as int].entity == ps[trail[m - q - 1] as int].entity);
                assert(np == trail[m - q - 1]);
            }
        }
        current = np;
    }
    proof {
        assert(chain@[m] == trail[0]);
    }
    chain
}

/// The groups of positions laid out so far: each group holds between one
/// and `chunk` points joined by `link_ok`, and `wh` records where each
/// visited point lies (no other point lies anywhere).
pub open spec fn layout_ok(
    ps: Seq<PlanPoint>,
    routes: bool,
    chunk: int,
    vis: Seq<bool>,
    gs: Seq<Seq<usize>>,
    wh: Seq<Option<(int, int)>>,
) -> bool {
    &&& vis.len() == ps.len()
    &&& wh.len() == ps.len()
    &&& forall|i: int| 0 <= i < gs.len() ==> 1 <= (#[trigger] gs[i]).len() <= chunk
    &&& forall|i: int, k: int|
        0 <= i < gs.len() && 0 <= k < gs[i].len() ==> #[trigger] gs[i][k] < ps.len() && wh[gs[i][k] as int] == Some(
            (i, k),
        )
    &&& forall|p: int| 0 <= p < ps.len() ==> (#[trigger] wh[p] is Some <==> vis[p])
    &&& forall|p: int|
        0 <= p < ps.len() && #[trigger] wh[p] is Some ==> 0 <= wh[p]->Some_0.0 < gs.len() && 0 <= wh[p]->Some_0.1
            < gs[wh[p]->Some_0.0].len() && gs[wh[p]->Some_0.0][wh[p]->Some_0.1] == p
    &&& forall|i: int, k: int|
        0 <= i < gs.len() && 0 <= k < gs[i].len() - 1 ==> #[trigger] link_ok(ps, gs[i][k] as int, gs[i][k + 1] as int, routes)
}

/// The groups as sequences of positions.
pub open spec fn group_views(gs: Seq<Vec<usize>>) -> Seq<Seq<usize>> {
    Seq::new(gs.len(), |i: int| gs[i]@)
}

/// Placing the unvisited point `p` at the end of the last group keeps the
/// layout, when it follows that group's last point (or the group is new).
proof fn lemma_layout_place(
    ps: Seq<PlanPoint>,
    routes: bool,
    chunk: int,
    vis: Seq<bool>,
    gs: Seq<Seq<usize>>,
    wh: Seq<Option<(int, int)>>,
    p: usize,
    fresh: bool,
)
    requires
        layout_ok(ps, routes, chunk, vis, gs, wh),
        p < ps.len(),
        !vis[p as int],
        chunk >= 1,
        fresh || (gs.len() >= 1 && gs.last().len() < chunk && link_ok(ps, gs.last().last() as int, p as int, routes)),
    ensures
        ({
            let gs2 = if fresh {
                gs.push(seq![p])
            } else {
                gs.update(gs.len() - 1, gs.last().push(p))
            };
            let wh2 = wh.update(p as int, Some((gs2.len() - 1, gs2.last().len() - 1)));
            layout_ok(ps, routes, chunk, vis.update(p as int, true), gs2, wh2)
        }),
{
    let gs2 = if fresh {
        gs.push(seq![p])
    } else {
        gs.update(gs.len() - 1, gs.last().push(p))
    };
    let last = gs2.len() - 1;
    let wh2 = wh.update(p as int, Some((last, gs2.last().len() - 1)));
    let vis2 = vis.update(p as int, true);
    assert(wh[p as int] is None);
    assert forall|i: int| 0 <= i < gs2.len() implies 1 <= (#[trigger] gs2[i]).len() <= chunk by {
        if i < last {
            assert(gs2[i] == gs[i]);
        }
    }
    assert forall|i: int, k: int| 0 <= i < gs2.len() && 0 <= k < gs2[i].len() implies #[trigger] gs2[i][k]
        < ps.len() && wh2[gs2[i][k] as int] == Some((i, k)) by {
        if i < last || (!fresh && k < gs2[i].len() - 1) {
            assert(gs2[i][k] == gs[i][k]);
            assert(wh[gs[i][k] as int] == Some((i, k)));
            assert(gs[i][k] != p);
        }
    }
    assert forall|q: int| 0 <= q < ps.len() implies (#[trigger] wh2[q] is Some <==> vis2[q]) by {}
    assert forall|q: int|
        0 <= q < ps.len() && #[trigger] wh2[q] is Some implies 0 <= wh2[q]->Some_0.0 < gs2.len() && 0
            <= wh2[q]->Some_0.1 < gs2[wh2[q]->Some_0.0].len() && gs2[wh2[q]->Some_0.0][wh2[q]->Some_0.1] == q by {
        if q != p {
            let (i, k) = wh[q]->Some_0;
            assert(gs[i][k] == q);
            if i == last && !fresh {
                assert(gs2[i][k] == gs[i][k]);
            } else if i < last {
                assert(gs2[i] == gs[i]);
            }
        }
    }
    assert forall|i: int, k: int| 0 <= i < gs2.len() && 0 <= k < gs2[i].len() - 1 implies #[trigger] link_ok(
        ps,
        gs2[i][k] as int,
        gs2[i][k + 1] as int,
        routes,
    ) by {
        if i < last {
            assert(gs2[i] == gs[i]);
        } else if !fresh {
            if k < gs2[i].len() - 2 {
                assert(gs2[i][k] == gs[i][k] && gs2[i][k + 1] == gs[i][k + 1]);
                assert(link_ok(ps, gs[i][k] as int, gs[i][k + 1] as int, routes));
            } else {
                assert(gs2[i][k] == gs.last().last() && gs2[i][k + 1] == p);
            }
        }
    }
}

/// Split a chain into groups of at most `chunk` points and append them.
fn add_chain(
    gpos: &mut Vec<Vec<usize>>,
    chain: &Vec<usize>,
    chunk: usize,
    Ghost(ps): Ghost<Seq<PlanPoint>>,
    Ghost(routes): Ghost<bool>,
    Ghost(vis): Ghost<Seq<bool>>,
    Ghost(wh): Ghost<Seq<Option<(int, int)>>>,
) -> (wh2: Ghost<Seq<Option<(int, int)>>>)
    requires
        chunk >= 1,
        ps.len() <= usize::MAX,
        layout_ok(ps, routes, chunk as int, vis, group_views(old(gpos)@), wh),
        chain@.len() >= 1,
        chain@.no_duplicates(),
        forall|k: int| 0 <= k < chain@.len() ==> #[trigger] chain@[k] < ps.len() && !vis[chain@[k] as int],
        forall|k: int| 0 <= k < chain@.len() - 1 ==> #[trigger] link_ok(ps, chain@[k] as int, chain@[k + 1] as int, routes),
    ensures
        layout_ok(
            ps,
            routes,
            chunk as int,
            Seq::new(vis.len(), |q: int| vis[q] || chain@.contains(q as usize)),
            group_views(final(gpos)@),
            wh2@,
        ),
        final(gpos)@.len() > old(gpos)@.len(),
        forall|i: int| 0 <= i < old(gpos)@.len() ==> final(gpos)@[i]@ == old(gpos)@[i]@,
        final(gpos)@[old(gpos)@.len() as int]@[0] == chain@[0],
        final(gpos)@.last()@.last() == chain@.last(),
        forall|k: int|
            old(gpos)@.len() < k < final(gpos)@.len() ==> (#[trigger] final(gpos)@[k - 1]@).len() == chunk && link_ok(
                ps,
                final(gpos)@[k - 1]@.last() as int,
                final(gpos)@[k]@[0] as int,
                routes,
            ),
{
    let ghost g0 = group_views(gpos@);
    let ghost n0 = gpos@.len();
    let mut cur: Vec<usize> = Vec::new();
    cur.push(chain[0]);
    let ghost mut w = wh;
    let ghost mut v = vis;
    proof {
        lemma_layout_place(ps, routes, chunk as int, vis, g0, wh, chain@[0], true);
        w = wh.update(chain@[0] as int, Some((g0.len() as int, 0int)));
        v = vis.update(chain@[0] as int, true);
        assert(g0.push(seq![chain@[0]]) =~= group_views(gpos@).push(cur@));
        assert(chain@.subrange(0, 1) =~= seq![chain@[0]]);
        assert forall|q: int| 0 <= q < vis.len() implies #[trigger] v[q] == (vis[q] || chain@.subrange(0, 1).contains(q as usize)) by {
            if chain@.subrange(0, 1).contains(q as usize) {
                let j = choose|j: int| 0 <= j < 1 && chain@.subrange(0, 1)[j] == q as usize;
            }
            if q == chain@[0] as int {
                assert(chain@.subrange(0, 1)[0] == chain@[0]);
            }
        }
    }
    let mut k: usize = 1;
    while k < chain.len()
        invariant
            chunk >= 1,
            ps.len() <= usize::MAX,
            vis.len() == ps.len(),
            1 <= k <= chain@.len(),
            chain@.no_duplicates(),
            forall|j: int| 0 <= j < chain@.len() ==> #[trigger] chain@[j] < ps.len() && !vis[chain@[j] as int],
            forall|j: int| 0 <= j < chain@.len() - 1 ==> #[trigger] link_ok(ps, chain@[j] as int, chain@[j + 1] as int, routes),
            layout_ok(ps, routes, chunk as int, v, group_views(gpos@).push(cur@), w),
            v.len() == vis.len(),
            forall|q: int| 0 <= q < vis.len() ==> #[trigger] v[q] == (vis[q] || chain@.subrange(0, k as int).contains(q as usize)),
            cur@.len() >= 1,
            cur@.last() == chain@[k - 1],
            gpos@.len() >= n0,
            forall|i: int| 0 <= i < n0 ==> gpos@[i]@ == g0[i],
            gpos@.len() == n0 ==> cur@[0] == chain@[0],
            gpos@.len() > n0 ==> gpos@[n0 as int]@[0] == chain@[0],
            forall|t: int|
                n0 < t < gpos@.len() ==> (#[trigger] gpos@[t - 1]@).len() == chunk && link_ok(
                    ps,
                    gpos@[t - 1]@.last() as int,
                    gpos@[t]@[0] as int,
                    routes,
                ),
            gpos@.len() > n0 ==> gpos@.last()@.len() == chunk && link_ok(
                ps,
                gpos@.last()@.last() as int,
                cur@[0] as int,
                routes,
            ),
        decreases chain@.len() - k,
    {
        let ghost gs = group_views(gpos@).push(cur@);
        let p = chain[k];
        proof {
            assert(!v[p as int]) by {
                if chain@.subrange(0, k as int).contains(p) {
                    let j = choose|j: int| 0 <= j < k && chain@.subrange(0, k as int)[j] == p;
                    assert(chain@[j] == chain@[k as int]);
                }
            }
            let j = k - 1;
            assert(link_ok(ps, chain@[j] as int, chain@[j + 1] as int, routes));
        }
        if cur.len() == chunk {
            let full = cur;
            let ghost gpos0 = gpos@;
            let ghost cur0 = full@;
            gpos.push(full);
            cur = Vec::new();
            cur.push(p);
            proof {
                assert(group_views(gpos@) =~= gs);
                lemma_layout_place(ps, routes, chunk as int, v, gs, w, p, true);
                assert(group_views(gpos@).push(cur@) =~= gs.push(seq![p]));
                w = w.update(p as int, Some((gs.len() as int, 0int)));
                assert(gpos@.last()@ == cur0);
                assert(cur0.last() == chain@[k - 1]);
                assert forall|t: int| n0 < t < gpos@.len() implies (#[trigger] gpos@[t - 1]@).len() == chunk && link_ok(
                    ps,
                    gpos@[t - 1]@.last() as int,
                    gpos@[t]@[0] as int,
                    routes,
                ) by {
                    if t < gpos@.len() - 1 {
                        assert(gpos@[t - 1] == gpos0[t - 1] && gpos@[t] == gpos0[t]);
                    } else {
                        assert(gpos@[t - 1] == gpos0.last());
                        assert(gpos@[t]@ == cur0);
                    }
                }
            }
        } else {
            cur.push(p);
            proof {
                lemma_layout_place(ps, routes, chunk as int, v, gs, w, p, false);
                assert(group_views(gpos@).push(cur@) =~= gs.update(gs.len() - 1, gs.last().push(p)));
                w = w.update(p as int, Some((gs.len() - 1, gs.last().len() as int)));
            }
        }
        proof {
            let v0 = v;
            v = v.update(p as int, true);
            let s0 = chain@.subrange(0, k as int);
            let s1 = chain@.subrange(0, k + 1);
            assert(s1 =~= s0.push(p));
            assert forall|q: int| 0 <= q < vis.len() implies #[trigger] v[q] == (vis[q] || s1.contains(q as usize)) by {
                if q != p as int {
                    assert(v0[q] == (vis[q] || s0.contains(q as usize)));
                    if s0.contains(q as usize) {
                        let j = choose|j: int| 0 <= j < s0.len() && s0[j] == q as usize;
                        assert(s1[j] == q as usize);
                    }
                    if s1.contains(q as usize) {
                        let j = choose|j: int| 0 <= j < s1.len() && s1[j] == q as usize;
                        if j < k {
                            assert(s0[j] == q as usize);
                        }
                    }
                } else {
                    assert(s1[k as int] == p);
                }
            }
        }
        k += 1;
    }
    let ghost before = group_views(gpos@).push(cur@);
    let ghost gpos1 = gpos@;
    let ghost cur1 = cur@;
    gpos.push(cur);
    proof {
        assert(gpos@.last()@ == cur1);
        assert(chain@.last() == chain@[chain@.len() - 1]);
        assert forall|t: int| n0 < t < gpos@.len() implies (#[trigger] gpos@[t - 1]@).len() == chunk && link_ok(
            ps,
            gpos@[t - 1]@.last() as int,
            gpos@[t]@[0] as int,
            routes,
        ) by {
            if t < gpos@.len() - 1 {
                assert(gpos@[t - 1] == gpos1[t - 1] && gpos@[t] == gpos1[t]);
            } else {
                assert(gpos@[t - 1] == gpos1.last());
                assert(gpos@[t]@ == cur1);
            }
        }
        assert(group_views(gpos@) =~= before);
        assert forall|i: int| 0 <= i < n0 implies gpos@[i]@ == old(gpos)@[i]@ by {
            assert(gpos@[i]@ == before[i]);
            assert(g0[i] == old(gpos)@[i]@);
        }
        assert(chain@.subrange(0, chain@.len() as int) =~= chain@);
        assert(v =~= Seq::new(vis.len(), |q: int| vis[q] || chain@.contains(q as usize)));
    }
    Ghost(w)
}

/// Points per serialized group: a chain longer than this is split.
pub open spec fn chunk_limit(routes: bool) -> int {
    if routes {
        65535
    } else {
        255
    }
}

/// Point `s` is the first overall start in editor order.
pub open spec fn first_start(ps: Seq<PlanPoint>, s: int) -> bool {
    &&& 0 <= s < ps.len()
    &&& ps[s].overall_start
    &&& forall|t: int| 0 <= t < s ==> !(#[trigger] ps[t]).overall_start
}

/// Some group before `i` holds point `q`.
pub open spec fn in_before(gs: Seq<Seq<usize>>, i: int, q: usize) -> bool {
    exists|j: int| 0 <= j < i && #[trigger] gs[j].contains(q)
}

/// Group `i` carries on a full group `i - 1` over a single link.
pub open spec fn continues(ps: Seq<PlanPoint>, routes: bool, gs: Seq<Seq<usize>>, i: int) -> bool {
    &&& 0 < i < gs.len()
    &&& gs[i - 1].len() == chunk_limit(routes)
    &&& link_ok(ps, gs[i - 1].last() as int, gs[i][0] as int, routes)
}

/// `q` is the first point, in editor order, that no group before `i` holds.
pub open spec fn first_remaining(ps: Seq<PlanPoint>, gs: Seq<Seq<usize>>, i: int, q: int) -> bool {
    &&& 0 <= q < ps.len()
    &&& !in_before(gs, i, q as usize)
    &&& forall|r: int| 0 <= r < q ==> #[trigger] in_before(gs, i, r as usize)
}

/// Group `i` ends only where its single link cannot go on: the point it
/// would go on to is in this or an earlier group, or the group is full and
/// the next group goes on from it.
pub open spec fn ends_maximal(ps: Seq<PlanPoint>, routes: bool, gs: Seq<Seq<usize>>, i: int) -> bool {
    forall|q: int|
        0 <= q < ps.len() && #[trigger] link_ok(ps, gs[i].last() as int, q, routes) ==> in_before(gs, i + 1, q as usize) || (i
            + 1 < gs.len() && gs[i].len() == chunk_limit(routes) && gs[i + 1][0] == q)
}

/// Which points the groups before `i` hold.
pub open spec fn placed_before(ps: Seq<PlanPoint>, gs: Seq<Seq<usize>>, i: int) -> Seq<bool> {
    Seq::new(ps.len(), |q: int| in_before(gs, i, q as usize))
}

/// Group `i` starts where no single link leads in from a point outside the
/// earlier groups, unless it carries on the group before, opens at the
/// overall start, or (outside routes) starts at the first remaining point in
/// editor order that lies on a cycle of points outside the earlier groups
/// (a cycle starts there).
pub open spec fn starts_maximal(ps: Seq<PlanPoint>, routes: bool, gs: Seq<Seq<usize>>, i: int, anchored: bool) -> bool {
    forall|x: int|
        0 <= x < ps.len() && #[trigger] link_ok(ps, x, gs[i][0] as int, routes) ==> in_before(gs, i, x as usize)
            || continues(ps, routes, gs, i) || (i == 0 && anchored) || (!routes && first_remaining(ps, gs, i, gs[i][0] as int)
            && on_unvisited_cycle(ps, routes, placed_before(ps, gs, i), gs[i][0] as int))
}

/// Group `i` carries on the group before, opens at the overall start, or
/// begins the run that holds the first remaining point in editor order.
pub open spec fn seeded_in_order(ps: Seq<PlanPoint>, routes: bool, gs: Seq<Seq<usize>>, i: int, anchored: bool) -> bool {
    ||| continues(ps, routes, gs, i)
    ||| (i == 0 && anchored)
    ||| forall|q: int|
        #[trigger] first_remaining(ps, gs, i, q) ==> exists|j: int|
            i <= j < gs.len() && gs[j].contains(q as usize) && forall|k: int| i < k <= j ==> #[trigger] continues(ps, routes, gs, k)
}

/// What holds of group `i` of a planned section.
pub open spec fn group_facts(ps: Seq<PlanPoint>, routes: bool, gs: Seq<Seq<usize>>, i: int, anchored: bool) -> bool {
    &&& ends_maximal(ps, routes, gs, i)
    &&& starts_maximal(ps, routes, gs, i, anchored)
    &&& seeded_in_order(ps, routes, gs, i, anchored)
}

/// Outside routes, some point is an overall start.
pub open spec fn anchored(ps: Seq<PlanPoint>, routes: bool) -> bool {
    !routes && exists|s: int| 0 <= s < ps.len() && #[trigger] ps[s].overall_start
}

/// The groups are the runs of single links, maximal up to the group size,
/// seeded in editor order (the first overall start first) and each walked
/// back to where its run begins.
pub open spec fn maximal_grouping(ps: Seq<PlanPoint>, routes: bool, gs: Seq<Seq<usize>>) -> bool {
    forall|i: int| 0 <= i < gs.len() ==> #[trigger] group_facts(ps, routes, gs, i, anchored(ps, routes))
}

/// Facts of group `i` still hold once more groups follow.
proof fn lemma_facts_prefix(
    ps: Seq<PlanPoint>,
    routes: bool,
    gs0: Seq<Seq<usize>>,
    gs1: Seq<Seq<usize>>,
    i: int,
    anch: bool,
)
    requires
        gs0.len() <= gs1.len(),
        forall|j: int| 0 <= j < gs0.len() ==> #[trigger] gs1[j] == gs0[j],
        0 <= i < gs0.len(),
        group_facts(ps, routes, gs0, i, anch),
    ensures
        group_facts(ps, routes, gs1, i, anch),
{
    assert forall|m: int, q: usize| 0 <= m <= gs0.len() implies #[trigger] in_before(gs1, m, q) == in_before(gs0, m, q) by {
        if in_before(gs1, m, q) {
            let j = choose|j: int| 0 <= j < m && #[trigger] gs1[j].contains(q);
            assert(gs0[j] == gs1[j]);
        }
        if in_before(gs0, m, q) {
            let j = choose|j: int| 0 <= j < m && #[trigger] gs0[j].contains(q);
            assert(gs0[j] == gs1[j]);
        }
    }
    assert forall|k: int| 0 < k < gs0.len() implies #[trigger] continues(ps, routes, gs1, k) == continues(ps, routes, gs0, k) by {
        assert(gs1[k - 1] == gs0[k - 1] && gs1[k] == gs0[k]);
    }
    assert forall|q: int| #[trigger] first_remaining(ps, gs1, i, q) == first_remaining(ps, gs0, i, q) by {
        if 0 <= q < ps.len() {
            assert(in_before(gs1, i, q as usize) == in_before(gs0, i, q as usize));
            if first_remaining(ps, gs0, i, q) {
                assert forall|r: int| 0 <= r < q implies #[trigger] in_before(gs1, i, r as usize) by {
                    assert(in_before(gs0, i, r as usize));
                }
            }
            if first_remaining(ps, gs1, i, q) {
                assert forall|r: int| 0 <= r < q implies #[trigger] in_before(gs0, i, r as usize) by {
                    assert(in_before(gs1, i, r as usize));
                }
            }
        }
    }
    assert(gs1[i] == gs0[i]);
    assert forall|q: int| 0 <= q < ps.len() && #[trigger] link_ok(ps, gs1[i].last() as int, q, routes) implies in_before(
        gs1,
        i + 1,
        q as usize,
    ) || (i + 1 < gs1.len() && gs1[i].len() == chunk_limit(routes) && gs1[i + 1][0] == q) by {
        assert(in_before(gs1, i + 1, q as usize) == in_before(gs0, i + 1, q as usize));
        if i + 1 < gs0.len() {
            assert(gs1[i + 1] == gs0[i + 1]);
        }
    }
    assert forall|x: int| 0 <= x < ps.len() && #[trigger] link_ok(ps, x, gs1[i][0] as int, routes) implies in_before(
        gs1,
        i,
        x as usize,
    ) || continues(ps, routes, gs1, i) || (i == 0 && anch) || (!routes && first_remaining(ps, gs1, i, gs1[i][0] as int)
        && on_unvisited_cycle(ps, routes, placed_before(ps, gs1, i), gs1[i][0] as int)) by {
        assert(in_before(gs1, i, x as usize) == in_before(gs0, i, x as usize));
        assert(placed_before(ps, gs1, i) =~= placed_before(ps, gs0, i)) by {
            assert forall|q: int| 0 <= q < ps.len() implies #[trigger] placed_before(ps, gs1, i)[q] == placed_before(ps, gs0, i)[q] by {
                assert(in_before(gs1, i, q as usize) == in_before(gs0, i, q as usize));
            }
        }
        if i > 0 {
            assert(continues(ps, routes, gs1, i) == continues(ps, routes, gs0, i));
        }
    }
    if !(continues(ps, routes, gs0, i) || (i == 0 && anch)) {
        assert forall|q: int| #[trigger] first_remaining(ps, gs1, i, q) implies exists|j: int|
            i <= j < gs1.len() && gs1[j].contains(q as usize) && forall|k: int| i < k <= j ==> #[trigger] continues(ps, routes, gs1, k) by {
            assert(first_remaining(ps, gs0, i, q));
            let j = choose|j: int|
                i <= j < gs0.len() && gs0[j].contains(q as usize) && forall|k: int| i < k <= j ==> #[trigger] continues(ps, routes, gs0, k);
            assert(gs1[j] == gs0[j]);
            assert forall|k: int| i < k <= j implies #[trigger] continues(ps, routes, gs1, k) by {
                assert(continues(ps, routes, gs0, k));
            }
        }
    } else if i > 0 {
        assert(continues(ps, routes, gs1, i) == continues(ps, routes, gs0, i));
    }
}

/// A point visited under a layout lies in one of its groups, and only there.
proof fn lemma_visited_in_groups(
    ps: Seq<PlanPoint>,
    routes: bool,
    vis: Seq<bool>,
    gs: Seq<Seq<usize>>,
    wh: Seq<Option<(int, int)>>,
    q: int,
)
    requires
        layout_ok(ps, routes, chunk_limit(routes), vis, gs, wh),
        0 <= q < ps.len(),
        ps.len() <= usize::MAX,
    ensures
        vis[q] <==> in_before(gs, gs.len() as int, q as usize),
{
    if vis[q] {
        assert(wh[q] is Some);
        let (j, k) = wh[q]->Some_0;
        assert(gs[j][k] == q);
        assert(gs[j].contains(q as usize));
    }
    if in_before(gs, gs.len() as int, q as usize) {
        let j = choose|j: int| 0 <= j < gs.len() && #[trigger] gs[j].contains(q as usize);
        let k = choose|k: int| 0 <= k < gs[j].len() && gs[j][k] == q as usize;
        assert(wh[gs[j][k] as int] == Some((j, k)));
        assert(gs[j][k] as int == q);
        assert(wh[q] is Some);
    }
}

/// The groups that a new chain adds satisfy the facts of a planned section.
#[verifier::rlimit(60)]
proof fn lemma_chain_groups(
    ps: Seq<PlanPoint>,
    routes: bool,
    vis0: Seq<bool>,
    vis1: Seq<bool>,
    gs0: Seq<Seq<usize>>,
    gs1: Seq<Seq<usize>>,
    wh0: Seq<Option<(int, int)>>,
    wh1: Seq<Option<(int, int)>>,
    chain: Seq<usize>,
    seed: int,
    anch: bool,
)
    requires
        distinct_points(ps),
        links_checked(ps, routes),
        ps.len() <= usize::MAX,
        layout_ok(ps, routes, chunk_limit(routes), vis0, gs0, wh0),
        layout_ok(ps, routes, chunk_limit(routes), vis1, gs1, wh1),
        gs1.len() > gs0.len(),
        forall|j: int| 0 <= j < gs0.len() ==> #[trigger] gs1[j] == gs0[j],
        gs1[gs0.len() as int][0] == chain[0],
        gs1.last().last() == chain.last(),
        forall|k: int|
            gs0.len() < k < gs1.len() ==> (#[trigger] gs1[k - 1]).len() == chunk_limit(routes) && link_ok(
                ps,
                gs1[k - 1].last() as int,
                gs1[k][0] as int,
                routes,
            ),
        chain.len() >= 1,
        chain.contains(seed as usize),
        forall|k: int| 0 <= k < chain.len() ==> #[trigger] chain[k] < ps.len() && !vis0[chain[k] as int],
        forall|q: int| 0 <= q < ps.len() ==> #[trigger] vis1[q] == (vis0[q] || chain.contains(q as usize)),
        forall|q: int|
            0 <= q < ps.len() && #[trigger] link_ok(ps, chain.last() as int, q, routes) ==> vis0[q] || chain.contains(q as usize),
        opens_walk(ps, routes, vis0, chain[0] as int, seed),
        (gs0.len() == 0 && anch) || (0 <= seed < ps.len() && forall|r: int| 0 <= r < seed ==> vis0[r]),
    ensures
        forall|i: int| gs0.len() <= i < gs1.len() ==> #[trigger] group_facts(ps, routes, gs1, i, anch),
{
    let n0 = gs0.len() as int;
    let n1 = gs1.len() as int;
    assert forall|q: int| 0 <= q < ps.len() implies #[trigger] in_before(gs1, n0, q as usize) == vis0[q] by {
        lemma_visited_in_groups(ps, routes, vis0, gs0, wh0, q);
        if in_before(gs1, n0, q as usize) {
            let j = choose|j: int| 0 <= j < n0 && #[trigger] gs1[j].contains(q as usize);
            assert(gs0[j] == gs1[j]);
        }
        if in_before(gs0, n0, q as usize) {
            let j = choose|j: int| 0 <= j < n0 && #[trigger] gs0[j].contains(q as usize);
            assert(gs0[j] == gs1[j]);
        }
    }
    assert forall|i: int| n0 <= i < n1 implies #[trigger] group_facts(ps, routes, gs1, i, anch) by {
        // ends
        assert forall|q: int| 0 <= q < ps.len() && #[trigger] link_ok(ps, gs1[i].last() as int, q, routes) implies in_before(
            gs1,
            i + 1,
            q as usize,
        ) || (i + 1 < gs1.len() && gs1[i].len() == chunk_limit(routes) && gs1[i + 1][0] == q) by {
            if i + 1 < n1 {
                let k = i + 1;
                assert(gs1[k - 1].len() == chunk_limit(routes));
                assert(link_ok(ps, gs1[i].last() as int, gs1[i + 1][0] as int, routes));
                assert(gs1[i + 1][0] < ps.len());
                lemma_pos(ps, ps[q].entity);
                lemma_pos(ps, ps[gs1[i + 1][0] as int].entity);
                assert(succ(ps, gs1[i].last() as int)[0] == ps[q].entity);
                assert(ps[gs1[i + 1][0] as int].entity == ps[q].entity);
                assert(gs1[i + 1][0] as int == q);
            } else {
                assert(gs1[i] == gs1.last());
                assert(link_ok(ps, chain.last() as int, q, routes));
                assert(vis0[q] || chain.contains(q as usize));
                assert(vis1[q]);
                lemma_visited_in_groups(ps, routes, vis1, gs1, wh1, q);
                let j = choose|j: int| 0 <= j < n1 && #[trigger] gs1[j].contains(q as usize);
                assert(0 <= j < i + 1);
            }
        }
        // starts
        if i == n0 && !(i == 0 && anch) {
            assert(0 <= seed < ps.len());
            assert(!vis0[seed]) by {
                let k = choose|k: int| 0 <= k < chain.len() && chain[k] == seed as usize;
            }
            assert forall|x: int| 0 <= x < ps.len() && #[trigger] link_ok(ps, x, gs1[i][0] as int, routes) implies in_before(
                gs1,
                i,
                x as usize,
            ) || continues(ps, routes, gs1, i) || (i == 0 && anch) || (!routes && first_remaining(ps, gs1, i, gs1[i][0] as int)
                && on_unvisited_cycle(ps, routes, placed_before(ps, gs1, i), gs1[i][0] as int)) by {
                if !vis0[x] {
                    assert(chain[0] as int == seed);
                    assert(placed_before(ps, gs1, i) =~= vis0);
                    assert forall|r: int| 0 <= r < seed implies #[trigger] in_before(gs1, i, r as usize) by {
                        assert(vis0[r]);
                    }
                }
            }
            assert forall|q: int| #[trigger] first_remaining(ps, gs1, i, q) implies exists|j: int|
                i <= j < gs1.len() && gs1[j].contains(q as usize) && forall|k: int| i < k <= j ==> #[trigger] continues(ps, routes, gs1, k) by {
                if q < seed {
                    assert(vis0[q]);
                } else if q > seed {
                    assert(!in_before(gs1, i, seed as usize));
                    assert(in_before(gs1, i, seed as usize));
                }
                assert(q == seed);
                assert(vis1[q]);
                lemma_visited_in_groups(ps, routes, vis1, gs1, wh1, q);
                let j = choose|j: int| 0 <= j < n1 && #[trigger] gs1[j].contains(q as usize);
                if j < n0 {
                    assert(gs0[j] == gs1[j]);
                    assert(in_before(gs1, n0, q as usize));
                }
                assert forall|k: int| i < k <= j implies #[trigger] continues(ps, routes, gs1, k) by {
                    assert(gs1[k - 1].len() == chunk_limit(routes));
                }
            }
        } else if i > n0 {
            assert(gs1[i - 1].len() == chunk_limit(routes));
            assert(continues(ps, routes, gs1, i));
        }
    }
}

/// Walk every point into a chain, seeds in editor order (the first overall
/// start first, outside routes), and split the chains into groups.
fn decompose(points: &Vec<PlanPoint>, routes: bool, first: Option<usize>) -> (r: Result<
    (Vec<Vec<usize>>, Ghost<Seq<Option<(int, int)>>>),
    KmpError,
>)
    requires
        distinct_points(points@),
        links_checked(points@, routes),
        first matches Some(s) ==> s < points@.len() && points@[s as int].overall_start && !routes,
        first is None ==> !anchored(points@, routes),
    ensures
        r matches Ok((gs, wh)) ==> maximal_grouping(points@, routes, group_views(gs@)),
        r matches Ok((gs, wh)) ==> layout_ok(
            points@,
            routes,
            chunk_limit(routes),
            Seq::new(points@.len(), |q: int| true),
            group_views(gs@),
            wh@,
        ),
        r matches Ok((gs, wh)) ==> (first is Some ==> gs@.len() >= 1 && gs@[0]@[0] == first->Some_0),
        r matches Err(x) ==> x == KmpError::RouteCycle && routes && has_back_cycle(points@),
{
    let ghost ps = points@;
    let n = points.len();
    let chunk: usize = if routes {
        65535
    } else {
        255
    };
    let mut visited: Vec<bool> = Vec::new();
    while visited.len() < n
        invariant
            visited@.len() <= n,
            forall|q: int| 0 <= q < visited@.len() ==> !visited@[q],
        decreases n - visited@.len(),
    {
        visited.push(false);
    }
    let mut gpos: Vec<Vec<usize>> = Vec::new();
    let ghost mut wh: Seq<Option<(int, int)>> = Seq::new(n as nat, |q: int| None);
    proof {
        assert(layout_ok(ps, routes, chunk as int, visited@, group_views(gpos@), wh));
    }
    if let Some(s) = first {
        let ghost vis0 = visited@;
        let (start, Ghost(trail)) = match walk_back(points, routes, &visited, s) {
            Ok(x) => x,
            Err(x) => {
                return Err(x);
            },
        };
        let chain = build_chain(points, routes, &mut visited, start, Ghost(s), Ghost(trail));
        let ghost gv0 = group_views(gpos@);
        let Ghost(w) = add_chain(&mut gpos, &chain, chunk, Ghost(ps), Ghost(routes), Ghost(vis0), Ghost(wh));
        proof {
            let wh0 = wh;
            wh = w;
            assert(visited@ =~= Seq::new(vis0.len(), |q: int| vis0[q] || chain@.contains(q as usize)));
            let gv1 = group_views(gpos@);
            assert forall|k: int| gv0.len() < k < gv1.len() implies (#[trigger] gv1[k - 1]).len() == chunk_limit(routes) && link_ok(
                ps,
                gv1[k - 1].last() as int,
                gv1[k][0] as int,
                routes,
            ) by {
                assert(gpos@[k - 1]@.len() == chunk);
            }
            lemma_chain_groups(ps, routes, vis0, visited@, gv0, gv1, wh0, wh, chain@, s as int, true);
        }
    }
    let mut p: usize = 0;
    while p < n
        invariant
            ps == points@,
            n == ps.len(),
            chunk as int == chunk_limit(routes),
            distinct_points(ps),
            links_checked(ps, routes),
            visited@.len() == n,
            p <= n,
            forall|q: int| 0 <= q < p ==> visited@[q],
            layout_ok(ps, routes, chunk as int, visited@, group_views(gpos@), wh),
            first matches Some(s) ==> gpos@.len() >= 1 && gpos@[0]@[0] == s,
            forall|i: int|
                0 <= i < gpos@.len() ==> #[trigger] group_facts(ps, routes, group_views(gpos@), i, first is Some),
        decreases n - p,
    {
        if !visited[p] {
            let ghost vis0 = visited@;
            let ghost g0 = gpos@;
            let (start, Ghost(trail)) = match walk_back(points, routes, &visited, p) {
                Ok(x) => x,
                Err(x) => {
                    return Err(x);
                },
            };
            let chain = build_chain(points, routes, &mut visited, start, Ghost(p), Ghost(trail));
            let ghost gv0 = group_views(gpos@);
            let Ghost(w) = add_chain(&mut gpos, &chain, chunk, Ghost(ps), Ghost(routes), Ghost(vis0), Ghost(wh));
            proof {
                let wh0 = wh;
                wh = w;
                let gv1 = group_views(gpos@);
                assert forall|k: int| gv0.len() < k < gv1.len() implies (#[trigger] gv1[k - 1]).len() == chunk_limit(routes)
                    && link_ok(ps, gv1[k - 1].last() as int, gv1[k][0] as int, routes) by {
                    assert(gpos@[k - 1]@.len() == chunk);
                }
                assert forall|jj: int| 0 <= jj < gv0.len() implies #[trigger] gv1[jj] == gv0[jj] by {}
                assert(visited@ =~= Seq::new(vis0.len(), |q: int| vis0[q] || chain@.contains(q as usize)));
                lemma_chain_groups(ps, routes, vis0, visited@, gv0, gv1, wh0, wh, chain@, p as int, first is Some);
                assert forall|i: int| 0 <= i < gv1.len() implies #[trigger] group_facts(ps, routes, gv1, i, first is Some) by {
                    if i < gv0.len() {
                        lemma_facts_prefix(ps, routes, gv0, gv1, i, first is Some);
                    }
                }
                assert(visited@ =~= Seq::new(vis0.len(), |q: int| vis0[q] || chain@.contains(q as usize)));
                if first is Some {
                    assert(gpos@[0]@ == g0[0]@);
                }
                assert(visited@[p as int]);
            }
        }
        p += 1;
    }
    proof {
        assert(visited@ =~= Seq::new(n as nat, |q: int| true));
        if first is Some {
            let s = first->Some_0;
            assert(ps[s as int].overall_start);
            assert(anchored(ps, routes));
        }
        assert(anchored(ps, routes) == (first is Some));
    }
    Ok((gpos, Ghost(wh)))
}

/// The plan of one path section: its groups of points, the groups linked
/// before and after each (ascending), and where each group starts in the
/// serialized section.
#[derive(Debug)]
pub struct GraphPlan {
    pub groups: Vec<Vec<EntityId>>,
    pub previous: Vec<Vec<usize>>,
    pub next: Vec<Vec<usize>>,
    pub group_starts: Vec<usize>,
}

/// The groups of a plan as entity sequences.
pub open spec fn plan_groups(plan: GraphPlan) -> Seq<Seq<EntityId>> {
    Seq::new(plan.groups@.len(), |i: int| plan.groups@[i]@)
}

/// Total length of the first `upto` groups.
pub open spec fn sum_lens(gs: Seq<Seq<EntityId>>, upto: int) -> int
    decreases upto,
{
    if upto <= 0 {
        0
    } else {
        sum_lens(gs, upto - 1) + gs[upto - 1].len()
    }
}

/// Most groups a section can index.
pub open spec fn group_limit(routes: bool) -> int {
    if routes {
        65535
    } else {
        255
    }
}

/// `e` lies in some group.
pub open spec fn in_groups(gs: Seq<Seq<EntityId>>, e: EntityId) -> bool {
    exists|i: int, k: int| 0 <= i < gs.len() && 0 <= k < gs[i].len() && #[trigger] gs[i][k] == e
}

/// Group `j` starts at a successor of the last point of group `i`.
pub open spec fn group_follows(ps: Seq<PlanPoint>, gs: Seq<Seq<EntityId>>, i: int, j: int) -> bool {
    0 <= j < gs.len() && succ(ps, pos(ps, gs[i].last())->Some_0).contains(gs[j][0])
}

/// Some group starts at `x`.
pub open spec fn group_starts_at(gs: Seq<Seq<EntityId>>, x: EntityId) -> bool {
    exists|j: int| 0 <= j < gs.len() && gs[j][0] == x
}

/// What a successful plan of `ps` satisfies.
pub open spec fn plan_ok(ps: Seq<PlanPoint>, routes: bool, plan: GraphPlan) -> bool {
    let gs = plan_groups(plan);
    &&& gs.len() <= group_limit(routes)
    &&& forall|i: int| 0 <= i < gs.len() ==> 1 <= (#[trigger] gs[i]).len() <= chunk_limit(routes)
    &&& forall|i: int, k: int| 0 <= i < gs.len() && 0 <= k < gs[i].len() ==> member(ps, #[trigger] gs[i][k])
    &&& forall|i: int, k: int, j: int, m: int|
        0 <= i < gs.len() && 0 <= k < gs[i].len() && 0 <= j < gs.len() && 0 <= m < gs[j].len() && #[trigger] gs[i][k]
            == #[trigger] gs[j][m] ==> i == j && k == m
    &&& forall|p: int| 0 <= p < ps.len() ==> in_groups(gs, #[trigger] ps[p].entity)
    &&& forall|i: int, k: int|
        0 <= i < gs.len() && 0 <= k < gs[i].len() - 1 ==> #[trigger] link_ok(
            ps,
            pos(ps, gs[i][k])->Some_0,
            pos(ps, gs[i][k + 1])->Some_0,
            routes,
        )
    &&& plan.group_starts@.len() == gs.len()
    &&& forall|i: int| 0 <= i < gs.len() ==> #[trigger] plan.group_starts@[i] == sum_lens(gs, i)
    &&& !routes ==> forall|i: int| 0 <= i < gs.len() ==> #[trigger] plan.group_starts@[i] <= 255
    &&& plan.next@.len() == gs.len()
    &&& plan.previous@.len() == gs.len()
    &&& forall|i: int| 0 <= i < gs.len() ==> ascending(#[trigger] plan.next@[i]@) && ascending(plan.previous@[i]@)
    &&& forall|i: int, j: usize|
        0 <= i < gs.len() ==> (#[trigger] plan.next@[i]@.contains(j) <==> group_follows(ps, gs, i, j as int))
    &&& forall|i: int, j: usize|
        0 <= i < gs.len() ==> (#[trigger] plan.previous@[i]@.contains(j) <==> (j as int) < gs.len() && group_follows(
            ps,
            gs,
            j as int,
            i,
        ))
    &&& forall|i: int, k: int|
        0 <= i < gs.len() && 0 <= k < succ(ps, pos(ps, gs[i].last())->Some_0).len() ==> group_starts_at(
            gs,
            #[trigger] succ(ps, pos(ps, gs[i].last())->Some_0)[k],
        )
    &&& !routes ==> forall|i: int| 0 <= i < gs.len() ==> (#[trigger] plan.next@[i]@).len() <= 6 && plan.previous@[i]@.len() <= 6
    &&& !routes ==> forall|s: int| first_start(ps, s) ==> gs.len() >= 1 && gs[0][0] == ps[s].entity
}

/// How many points are overall starts.
pub open spec fn count_starts(ps: Seq<PlanPoint>, upto: int) -> int
    decreases upto,
{
    if upto <= 0 {
        0
    } else {
        count_starts(ps, upto - 1) + if ps[upto - 1].overall_start {
            1int
        } else {
            0int
        }
    }
}

/// A successor of the last point of a group is the first point of its own
/// group: no checked link enters a group in its middle.
proof fn lemma_edge_to_first(
    ps: Seq<PlanPoint>,
    routes: bool,
    gs: Seq<Seq<usize>>,
    wh: Seq<Option<(int, int)>>,
    i: int,
    tp: int,
)
    requires
        distinct_points(ps),
        links_checked(ps, routes),
        layout_ok(ps, routes, chunk_limit(routes), Seq::new(ps.len(), |q: int| true), gs, wh),
        0 <= i < gs.len(),
        0 <= tp < ps.len(),
        succ(ps, gs[i].last() as int).contains(ps[tp].entity),
    ensures
        wh[tp] is Some,
        wh[tp]->Some_0.1 == 0,
{
    let last = gs[i].last() as int;
    assert(gs[i][gs[i].len() - 1] == gs[i].last());
    assert(last < ps.len());
    assert(Seq::new(ps.len(), |q: int| true)[tp]);
    let (j, m) = wh[tp]->Some_0;
    if m > 0 {
        let k0 = m - 1;
        let c = gs[j][k0] as int;
        assert(0 <= j < gs.len() && m < gs[j].len() && gs[j][m] == tp);
        assert(link_ok(ps, gs[j][k0] as int, gs[j][k0 + 1] as int, routes));
        let k = choose|k: int| 0 <= k < succ(ps, last).len() && succ(ps, last)[k] == ps[tp].entity;
        lemma_checked_succ(ps, routes, last, k);
        lemma_pos(ps, ps[tp].entity);
        assert(pred(ps, tp).contains(ps[last].entity));
        assert(succ(ps, c) == seq![ps[tp].entity]);
        lemma_checked_succ(ps, routes, c, 0);
        assert(pred(ps, tp).contains(ps[c].entity));
        assert(pred(ps, tp).len() == 1);
        assert(ps[c].entity == ps[last].entity);
        assert(c == last);
        assert(wh[c] == Some((j, m - 1)));
        assert(wh[last] == Some((i, gs[i].len() - 1)));
    }
}

/// The positions of the first `u` groups, one after another.
pub open spec fn flat(gs: Seq<Seq<usize>>, u: int) -> Seq<usize>
    decreases u,
{
    if u <= 0 {
        Seq::empty()
    } else {
        flat(gs, u - 1) + gs[u - 1]
    }
}

/// Total length of the first `upto` groups of positions.
pub open spec fn sum_pos(gs: Seq<Seq<usize>>, upto: int) -> int
    decreases upto,
{
    if upto <= 0 {
        0
    } else {
        sum_pos(gs, upto - 1) + gs[upto - 1].len()
    }
}

proof fn lemma_flat(
    ps: Seq<PlanPoint>,
    routes: bool,
    chunk: int,
    vis: Seq<bool>,
    gs: Seq<Seq<usize>>,
    wh: Seq<Option<(int, int)>>,
    u: int,
)
    requires
        layout_ok(ps, routes, chunk, vis, gs, wh),
        0 <= u <= gs.len(),
    ensures
        flat(gs, u).no_duplicates(),
        flat(gs, u).len() == sum_pos(gs, u),
        forall|x: int| 0 <= x < flat(gs, u).len() ==> #[trigger] flat(gs, u)[x] < ps.len() && wh[flat(gs, u)[x] as int]->Some_0.0 < u,
    decreases u,
{
    if u > 0 {
        lemma_flat(ps, routes, chunk, vis, gs, wh, u - 1);
        let a = flat(gs, u - 1);
        let b = gs[u - 1];
        let f = a + b;
        assert forall|x: int| 0 <= x < f.len() implies #[trigger] f[x] < ps.len() && wh[f[x] as int]->Some_0.0 < u by {
            if x >= a.len() {
                assert(f[x] == b[x - a.len()]);
                assert(wh[b[x - a.len()] as int] == Some((u - 1, x - a.len())));
            }
        }
        assert forall|x: int, y: int| 0 <= x < y < f.len() implies f[x] != f[y] by {
            if y >= a.len() {
                assert(f[y] == b[y - a.len()]);
                assert(wh[b[y - a.len()] as int] == Some((u - 1, y - a.len())));
                if x >= a.len() {
                    assert(f[x] == b[x - a.len()]);
                    assert(wh[b[x - a.len()] as int] == Some((u - 1, x - a.len())));
                } else {
                    assert(f[x] == a[x]);
                }
            } else {
                assert(f[x] == a[x] && f[y] == a[y]);
            }
        }
    }
}

/// Groups laid out over `n` points hold at most `n` points, and there are at
/// most `n` of them.
proof fn lemma_layout_bounds(
    ps: Seq<PlanPoint>,
    routes: bool,
    chunk: int,
    vis: Seq<bool>,
    gs: Seq<Seq<usize>>,
    wh: Seq<Option<(int, int)>>,
)
    requires
        layout_ok(ps, routes, chunk, vis, gs, wh),
    ensures
        gs.len() <= ps.len(),
        forall|u: int| 0 <= u <= gs.len() ==> #[trigger] sum_pos(gs, u) <= ps.len(),
        forall|u: int| 0 <= u < gs.len() ==> #[trigger] sum_pos(gs, u) + gs[u].len() <= ps.len(),
{
    assert forall|u: int| 0 <= u <= gs.len() implies #[trigger] sum_pos(gs, u) <= ps.len() by {
        lemma_flat(ps, routes, chunk, vis, gs, wh, u);
        lemma_distinct_bound(flat(gs, u), ps.len() as int);
    }
    assert forall|u: int| 0 <= u < gs.len() implies #[trigger] sum_pos(gs, u) + gs[u].len() <= ps.len() by {
        assert(sum_pos(gs, u + 1) == sum_pos(gs, u) + gs[u].len());
        lemma_flat(ps, routes, chunk, vis, gs, wh, u + 1);
        lemma_distinct_bound(flat(gs, u + 1), ps.len() as int);
    }
    let firsts = Seq::new(gs.len(), |i: int| gs[i][0]);
    assert forall|x: int, y: int| 0 <= x < y < firsts.len() implies firsts[x] != firsts[y] by {
        assert(wh[gs[x][0] as int] == Some((x, 0int)));
        assert(wh[gs[y][0] as int] == Some((y, 0int)));
    }
    assert forall|x: int| 0 <= x < firsts.len() implies firsts[x] < ps.len() by {
        assert(gs[x][0] < ps.len());
    }
    lemma_distinct_bound(firsts, ps.len() as int);
}

/// The serialized start of each group; outside routes a group must start
/// within the 8-bit index range.
fn group_starts_of(gpos: &Vec<Vec<usize>>, routes: bool, Ghost(n): Ghost<int>) -> (r: Result<Vec<usize>, KmpError>)
    requires
        forall|u: int| 0 <= u < gpos@.len() ==> #[trigger] sum_pos(group_views(gpos@), u) + gpos@[u]@.len() <= n,
        n <= usize::MAX,
    ensures
        r matches Ok(v) ==> v@.len() == gpos@.len() && forall|i: int|
            0 <= i < gpos@.len() ==> #[trigger] v@[i] == sum_pos(group_views(gpos@), i) && (!routes ==> v@[i] <= 255),
        r matches Err(x) ==> x == KmpError::GroupStartOutOfRange && !routes && exists|i: int|
            0 <= i < gpos@.len() && #[trigger] sum_pos(group_views(gpos@), i) > 255,
{
    let ghost gs = group_views(gpos@);
    let mut v: Vec<usize> = Vec::new();
    let mut offset: usize = 0;
    let mut i: usize = 0;
    while i < gpos.len()
        invariant
            gs == group_views(gpos@),
            forall|u: int| 0 <= u < gpos@.len() ==> #[trigger] sum_pos(gs, u) + gpos@[u]@.len() <= n,
            n <= usize::MAX,
            i <= gpos@.len(),
            offset == sum_pos(gs, i as int),
            v@.len() == i,
            forall|k: int| 0 <= k < i ==> #[trigger] v@[k] == sum_pos(gs, k) && (!routes ==> v@[k] <= 255),
        decreases gpos@.len() - i,
    {
        if !routes && offset > 255 {
            return Err(KmpError::GroupStartOutOfRange);
        }
        v.push(offset);
        proof {
            assert(gs[i as int] == gpos@[i as int]@);
            assert(sum_pos(gs, i as int) + gpos@[i as int]@.len() <= n);
        }
        offset = offset + gpos[i].len();
        i += 1;
    }
    Ok(v)
}

/// Some group starts at entity `x`.
pub open spec fn starts_group(ps: Seq<PlanPoint>, gs: Seq<Seq<usize>>, x: EntityId) -> bool {
    exists|j: int| 0 <= j < gs.len() && ps[gs[j][0] as int].entity == x
}

/// Group `j` starts at a successor of the last point of group `i` (positions).
pub open spec fn pos_follows(ps: Seq<PlanPoint>, gs: Seq<Seq<usize>>, i: int, j: int) -> bool {
    0 <= j < gs.len() && succ(ps, gs[i].last() as int).contains(ps[gs[j][0] as int].entity)
}

fn copy_list(v: &Vec<usize>) -> (r: Vec<usize>)
    ensures
        r@ == v@,
{
    let mut r: Vec<usize> = Vec::new();
    let mut i: usize = 0;
    while i < v.len()
        invariant
            i <= v@.len(),
            r@ == v@.subrange(0, i as int),
        decreases v@.len() - i,
    {
        r.push(v[i]);
        i += 1;
    }
    proof {
        assert(r@ =~= v@);
    }
    r
}

/// The group of each point.
fn groups_of(gpos: &Vec<Vec<usize>>, n: usize, Ghost(ps): Ghost<Seq<PlanPoint>>, Ghost(routes): Ghost<bool>, Ghost(wh): Ghost<Seq<Option<(int, int)>>>) -> (r: Vec<usize>)
    requires
        n == ps.len(),
        layout_ok(ps, routes, chunk_limit(routes), Seq::new(ps.len(), |q: int| true), group_views(gpos@), wh),
    ensures
        r@.len() == n,
        forall|p: int| 0 <= p < n ==> #[trigger] r@[p] == wh[p]->Some_0.0,
{
    let ghost gs = group_views(gpos@);
    let mut r: Vec<usize> = Vec::new();
    while r.len() < n
        invariant
            r@.len() <= n,
        decreases n - r@.len(),
    {
        r.push(0);
    }
    let mut i: usize = 0;
    while i < gpos.len()
        invariant
            gs == group_views(gpos@),
            n == ps.len(),
            layout_ok(ps, routes, chunk_limit(routes), Seq::new(ps.len(), |q: int| true), gs, wh),
            r@.len() == n,
            i <= gpos@.len(),
            forall|p: int| 0 <= p < n && wh[p]->Some_0.0 < i ==> #[trigger] r@[p] == wh[p]->Some_0.0,
        decreases gpos@.len() - i,
    {
        let mut k: usize = 0;
        while k < gpos[i].len()
            invariant
                gs == group_views(gpos@),
                n == ps.len(),
                layout_ok(ps, routes, chunk_limit(routes), Seq::new(ps.len(), |q: int| true), gs, wh),
                r@.len() == n,
                i < gpos@.len(),
                k <= gpos@[i as int]@.len(),
                forall|p: int|
                    0 <= p < n && (wh[p]->Some_0.0 < i || (wh[p]->Some_0.0 == i && wh[p]->Some_0.1 < k)) ==> #[trigger] r@[p]
                        == wh[p]->Some_0.0,
            decreases gpos@[i as int]@.len() - k,
        {
            let p = gpos[i][k];
            proof {
                assert(gs[i as int][k as int] == p);
                assert(wh[p as int] == Some((i as int, k as int)));
            }
            r.set(p, i);
            proof {
                assert forall|q: int|
                    0 <= q < n && (wh[q]->Some_0.0 < i || (wh[q]->Some_0.0 == i && wh[q]->Some_0.1 < k + 1)) implies #[trigger] r@[q]
                    == wh[q]->Some_0.0 by {
                    if q != p as int {
                        assert(Seq::new(ps.len(), |q: int| true)[q]);
                        assert(wh[q] is Some);
                    }
                }
            }
            k += 1;
        }
        proof {
            assert forall|q: int| 0 <= q < n && wh[q]->Some_0.0 < i + 1 implies #[trigger] r@[q] == wh[q]->Some_0.0 by {
                assert(Seq::new(ps.len(), |q: int| true)[q]);
                assert(wh[q] is Some);
                if wh[q]->Some_0.0 == i {
                    assert(wh[q]->Some_0.1 < gs[i as int].len());
                }
            }
        }
        i += 1;
    }
    proof {
        assert forall|p: int| 0 <= p < n implies #[trigger] r@[p] == wh[p]->Some_0.0 by {
            assert(Seq::new(ps.len(), |q: int| true)[p]);
            assert(wh[p] is Some);
        }
    }
    r
}

/// The links between groups: list `i` of the first result holds, ascending,
/// the groups that start at a successor of the last point of group `i`; list
/// `j` of the second the groups whose list holds `j`.
fn link_lists(
    points: &Vec<PlanPoint>,
    routes: bool,
    gpos: &Vec<Vec<usize>>,
    Ghost(wh): Ghost<Seq<Option<(int, int)>>>,
) -> (r: (Vec<Vec<usize>>, Vec<Vec<usize>>))
    requires
        distinct_points(points@),
        links_checked(points@, routes),
        layout_ok(points@, routes, chunk_limit(routes), Seq::new(points@.len(), |q: int| true), group_views(gpos@), wh),
    ensures
        r.0@.len() == gpos@.len(),
        r.1@.len() == gpos@.len(),
        forall|i: int| 0 <= i < gpos@.len() ==> ascending(#[trigger] r.0@[i]@) && ascending(r.1@[i]@),
        forall|i: int, j: usize|
            0 <= i < gpos@.len() ==> (#[trigger] r.0@[i]@.contains(j) <==> pos_follows(points@, group_views(gpos@), i, j as int)),
        forall|i: int, j: usize|
            0 <= i < gpos@.len() ==> (#[trigger] r.1@[i]@.contains(j) <==> j < gpos@.len() && pos_follows(
                points@,
                group_views(gpos@),
                j as int,
                i,
            )),
        forall|i: int| 0 <= i < gpos@.len() ==> (#[trigger] r.0@[i]@).len() <= succ(points@, gpos@[i]@.last() as int).len(),
        forall|i: int, k: int|
            0 <= i < gpos@.len() && 0 <= k < succ(points@, gpos@[i]@.last() as int).len() ==> starts_group(
                points@,
                group_views(gpos@),
                #[trigger] succ(points@, gpos@[i]@.last() as int)[k],
            ),
{
    let ghost ps = points@;
    let ghost gs = group_views(gpos@);
    let n = points.len();
    let ng = gpos.len();
    let group_of = groups_of(gpos, n, Ghost(ps), Ghost(routes), Ghost(wh));
    let mut next: Vec<Vec<usize>> = Vec::new();
    let mut prev: Vec<Vec<usize>> = Vec::new();
    while prev.len() < ng
        invariant
            prev@.len() <= ng,
            forall|j: int| 0 <= j < prev@.len() ==> prev@[j]@.len() == 0,
        decreases ng - prev@.len(),
    {
        prev.push(Vec::new());
    }
    let mut i: usize = 0;
    while i < ng
        invariant
            ps == points@,
            gs == group_views(gpos@),
            n == ps.len(),
            ng == gs.len(),
            distinct_points(ps),
            links_checked(ps, routes),
            layout_ok(ps, routes, chunk_limit(routes), Seq::new(ps.len(), |q: int| true), gs, wh),
            group_of@.len() == n,
            forall|p: int| 0 <= p < n ==> #[trigger] group_of@[p] == wh[p]->Some_0.0,
            i <= ng,
            next@.len() == i,
            prev@.len() == ng,
            forall|a: int| 0 <= a < i ==> ascending(#[trigger] next@[a]@),
            forall|a: int| 0 <= a < ng ==> ascending(#[trigger] prev@[a]@),
            forall|a: int, j: usize| 0 <= a < i ==> (#[trigger] next@[a]@.contains(j) <==> pos_follows(ps, gs, a, j as int)),
            forall|a: int, j: usize|
                0 <= a < ng ==> (#[trigger] prev@[a]@.contains(j) <==> j < i && pos_follows(ps, gs, j as int, a)),
            forall|a: int| 0 <= a < i ==> (#[trigger] next@[a]@).len() <= succ(ps, gs[a].last() as int).len(),
            forall|a: int, k: int|
                0 <= a < i && 0 <= k < succ(ps, gs[a].last() as int).len() ==> starts_group(
                    ps,
                    gs,
                    #[trigger] succ(ps, gs[a].last() as int)[k],
                ),
        decreases ng - i,
    {
        let len = gpos[i].len();
        proof {
            assert(gs[i as int] == gpos@[i as int]@);
            assert(1 <= gs[i as int].len());
        }
        let last = gpos[i][len - 1];
        proof {
            assert(gs[i as int][len - 1] == gs[i as int].last());
            assert(last < n);
            lemma_checked_node(ps, routes, last as int);
        }
        let succs = match &points[last].node {
            Some(node) => &node.next_nodes,
            None => {
                proof {
                    assert(false);
                }
                return (next, prev);
            },
        };
        let mut cur: Vec<usize> = Vec::new();
        let mut k: usize = 0;
        while k < succs.len()
            invariant
                ps == points@,
                gs == group_views(gpos@),
                n == ps.len(),
                ng == gs.len(),
                distinct_points(ps),
                links_checked(ps, routes),
                layout_ok(ps, routes, chunk_limit(routes), Seq::new(ps.len(), |q: int| true), gs, wh),
                group_of@.len() == n,
                forall|p: int| 0 <= p < n ==> #[trigger] group_of@[p] == wh[p]->Some_0.0,
                i < ng,
                last == gs[i as int].last(),
                succs@ == succ(ps, last as int),
                k <= succs@.len(),
                prev@.len() == ng,
                ascending(cur@),
                cur@.len() <= k,
                forall|j: usize| #[trigger] cur@.contains(j) <==> (j < ng && exists|m: int| 0 <= m < k && succs@[m] == ps[gs[j as int][0] as int].entity),
                forall|a: int| 0 <= a < ng ==> ascending(#[trigger] prev@[a]@),
                forall|a: int, j: usize|
                    0 <= a < ng ==> (#[trigger] prev@[a]@.contains(j) <==> (j < i && pos_follows(ps, gs, j as int, a)) || (j == i
                        && exists|m: int| 0 <= m < k && succs@[m] == ps[gs[a][0] as int].entity)),
                forall|m: int| 0 <= m < k ==> starts_group(ps, gs, #[trigger] succs@[m]),
                forall|a: int, m: int|
                    0 <= a < i && 0 <= m < succ(ps, gs[a].last() as int).len() ==> starts_group(
                        ps,
                        gs,
                        #[trigger] succ(ps, gs[a].last() as int)[m],
                    ),
            decreases succs@.len() - k,
        {
            let t = succs[k];
            proof {
                lemma_checked_succ(ps, routes, last as int, k as int);
            }
            let tp = match find_point(points, t) {
                Some(tp) => tp,
                None => {
                    proof {
                        assert(false);
                    }
                    return (next, prev);
                },
            };
            proof {
                lemma_pos(ps, t);
                assert(succ(ps, gs[i as int].last() as int).contains(ps[tp as int].entity)) by {
                    assert(succ(ps, last as int)[k as int] == t);
                }
                lemma_edge_to_first(ps, routes, gs, wh, i as int, tp as int);
            }
            let j = group_of[tp];
            proof {
                assert(Seq::new(ps.len(), |q: int| true)[tp as int]);
                assert(gs[j as int][0] == tp);
                assert(j < ng);
            }
            let ghost cur0 = cur@;
            insert_sorted(&mut cur, j);
            let mut pl = copy_list(&prev[j]);
            let ghost pl0 = pl@;
            insert_sorted(&mut pl, i);
            let ghost prev0 = prev@;
            prev.set(j, pl);
            proof {
                assert forall|j2: usize| #[trigger] cur@.contains(j2) <==> (j2 < ng && exists|m: int| 0 <= m < k + 1 && succs@[m] == ps[gs[j2 as int][0] as int].entity) by {
                    if j2 < ng && exists|m: int| 0 <= m < k + 1 && succs@[m] == ps[gs[j2 as int][0] as int].entity {
                        let m = choose|m: int| 0 <= m < k + 1 && succs@[m] == ps[gs[j2 as int][0] as int].entity;
                        if m == k {
                            lemma_pos(ps, t);
                            assert(gs[j2 as int][0] == tp);
                            assert(wh[tp as int] == Some((j2 as int, 0int)));
                        } else {
                            assert(cur0.contains(j2));
                        }
                    }
                    if j2 == j {
                        assert(succs@[k as int] == ps[gs[j2 as int][0] as int].entity);
                    }
                }
                assert forall|a: int, j2: usize|
                    0 <= a < ng implies (#[trigger] prev@[a]@.contains(j2) <==> (j2 < i && pos_follows(ps, gs, j2 as int, a)) || (j2 == i
                        && exists|m: int| 0 <= m < k + 1 && succs@[m] == ps[gs[a][0] as int].entity)) by {
                    if a != j as int {
                        assert(prev@[a] == prev0[a]);
                        if j2 == i && exists|m: int| 0 <= m < k + 1 && succs@[m] == ps[gs[a][0] as int].entity {
                            let m = choose|m: int| 0 <= m < k + 1 && succs@[m] == ps[gs[a][0] as int].entity;
                            if m == k {
                                lemma_pos(ps, t);
                                assert(gs[a][0] == tp);
                                assert(wh[tp as int] == Some((a, 0int)));
                            }
                        }
                    } else {
                        if j2 == i {
                            assert(succs@[k as int] == ps[gs[a][0] as int].entity);
                        }
                    }
                }
                assert(ps[gs[j as int][0] as int].entity == succs@[k as int]);
                assert(starts_group(ps, gs, succs@[k as int]));
            }
            k += 1;
        }
        next.push(cur);
        proof {
            assert forall|a: int, j: usize| 0 <= a < i + 1 implies (#[trigger] next@[a]@.contains(j) <==> pos_follows(ps, gs, a, j as int)) by {
                if a == i {
                    if pos_follows(ps, gs, a, j as int) {
                        let m = choose|m: int| 0 <= m < succs@.len() && succs@[m] == ps[gs[j as int][0] as int].entity;
                    }
                }
            }
            assert forall|a: int, j: usize|
                0 <= a < ng implies (#[trigger] prev@[a]@.contains(j) <==> j < i + 1 && pos_follows(ps, gs, j as int, a)) by {
                if j == i && pos_follows(ps, gs, j as int, a) {
                    let m = choose|m: int| 0 <= m < succs@.len() && succs@[m] == ps[gs[a][0] as int].entity;
                }
            }
            assert forall|a: int, m: int|
                0 <= a < i + 1 && 0 <= m < succ(ps, gs[a].last() as int).len() implies starts_group(
                    ps,
                    gs,
                    #[trigger] succ(ps, gs[a].last() as int)[m],
                ) by {
                if a == i {
                    assert(succ(ps, gs[a].last() as int)[m] == succs@[m]);
                }
            }
        }
        i += 1;
    }
    proof {
        assert forall|a: int, m: int|
            0 <= a < gpos@.len() && 0 <= m < succ(points@, gpos@[a]@.last() as int).len() implies starts_group(
                points@,
                group_views(gpos@),
                #[trigger] succ(points@, gpos@[a]@.last() as int)[m],
            ) by {
            assert(gs[a] == gpos@[a]@);
        }
        assert forall|a: int| 0 <= a < gpos@.len() implies (#[trigger] next@[a]@).len() <= succ(points@, gpos@[a]@.last() as int).len() by {
            assert(gs[a] == gpos@[a]@);
        }
    }
    (next, prev)
}

/// A group is linked from at most as many groups as its first point has
/// predecessors: distinct groups end at distinct points.
proof fn lemma_prev_bound(
    ps: Seq<PlanPoint>,
    routes: bool,
    gs: Seq<Seq<usize>>,
    wh: Seq<Option<(int, int)>>,
    j: int,
    list: Seq<usize>,
)
    requires
        distinct_points(ps),
        links_checked(ps, routes),
        layout_ok(ps, routes, chunk_limit(routes), Seq::new(ps.len(), |q: int| true), gs, wh),
        0 <= j < gs.len(),
        ascending(list),
        forall|x: usize| #[trigger] list.contains(x) ==> x < gs.len() && pos_follows(ps, gs, x as int, j),
    ensures
        list.len() <= pred(ps, gs[j][0] as int).len(),
{
    let first = gs[j][0] as int;
    let pr = pred(ps, first);
    assert(first < ps.len());
    lemma_checked_node(ps, routes, first);
    assert forall|t: int| 0 <= t < list.len() implies #[trigger] list[t] < gs.len() && pos_follows(ps, gs, list[t] as int, j) by {
        assert(list.contains(list[t]));
    }
    assert(pr.len() <= 6);
    let c = Seq::new(
        list.len(),
        |t: int| (choose|c: int| 0 <= c < pr.len() && pr[c] == ps[gs[list[t] as int].last() as int].entity) as usize,
    );
    assert forall|t: int| 0 <= t < list.len() implies 0 <= (choose|c: int| 0 <= c < pr.len() && pr[c] == ps[gs[list[t] as int].last() as int].entity) < pr.len()
        && pr[choose|c: int| 0 <= c < pr.len() && pr[c] == ps[gs[list[t] as int].last() as int].entity] == ps[gs[list[t] as int].last() as int].entity by {
        let x = list[t] as int;
        let last = gs[x].last() as int;
        assert(gs[x][gs[x].len() - 1] == gs[x].last());
        assert(last < ps.len());
        let k = choose|k: int| 0 <= k < succ(ps, last).len() && succ(ps, last)[k] == ps[first].entity;
        lemma_checked_succ(ps, routes, last, k);
        lemma_pos(ps, ps[first].entity);
        assert(pr.contains(ps[last].entity));
    }
    assert forall|a: int, b: int| 0 <= a < b < c.len() implies c[a] != c[b] by {
        let xa = list[a] as int;
        let xb = list[b] as int;
        assert(list[a] < list[b]);
        let la = gs[xa].last() as int;
        let lb = gs[xb].last() as int;
        assert(gs[xa][gs[xa].len() - 1] == gs[xa].last());
        assert(gs[xb][gs[xb].len() - 1] == gs[xb].last());
        assert(wh[la] == Some((xa, gs[xa].len() - 1)));
        assert(wh[lb] == Some((xb, gs[xb].len() - 1)));
        assert(la != lb);
        assert(ps[la].entity != ps[lb].entity) by {
            if la < lb {
                assert(ps[la].entity != ps[lb].entity);
            } else {
                assert(ps[lb].entity != ps[la].entity);
            }
        }
        let ca = choose|c: int| 0 <= c < pr.len() && pr[c] == ps[gs[list[a] as int].last() as int].entity;
        let cb = choose|c: int| 0 <= c < pr.len() && pr[c] == ps[gs[list[b] as int].last() as int].entity;
        assert(0 <= ca < pr.len() && pr[ca] == ps[la].entity);
        assert(0 <= cb < pr.len() && pr[cb] == ps[lb].entity);
        assert(c[a] == ca as usize && c[b] == cb as usize);
    }
    assert forall|t: int| 0 <= t < c.len() implies c[t] < pr.len() by {}
    lemma_distinct_bound(c, pr.len() as int);
}

fn entity_groups(points: &Vec<PlanPoint>, gpos: &Vec<Vec<usize>>) -> (r: Vec<Vec<EntityId>>)
    requires
        forall|i: int, k: int| 0 <= i < gpos@.len() && 0 <= k < gpos@[i]@.len() ==> #[trigger] gpos@[i]@[k] < points@.len(),
    ensures
        r@.len() == gpos@.len(),
        forall|i: int| 0 <= i < gpos@.len() ==> (#[trigger] r@[i])@.len() == gpos@[i]@.len(),
        forall|i: int, k: int|
            0 <= i < gpos@.len() && 0 <= k < gpos@[i]@.len() ==> #[trigger] r@[i]@[k] == points@[gpos@[i]@[k] as int].entity,
{
    let mut r: Vec<Vec<EntityId>> = Vec::new();
    let mut i: usize = 0;
    while i < gpos.len()
        invariant
            forall|i: int, k: int| 0 <= i < gpos@.len() && 0 <= k < gpos@[i]@.len() ==> #[trigger] gpos@[i]@[k] < points@.len(),
            i <= gpos@.len(),
            r@.len() == i,
            forall|a: int| 0 <= a < i ==> (#[trigger] r@[a])@.len() == gpos@[a]@.len(),
            forall|a: int, k: int|
                0 <= a < i && 0 <= k < gpos@[a]@.len() ==> #[trigger] r@[a]@[k] == points@[gpos@[a]@[k] as int].entity,
        decreases gpos@.len() - i,
    {
        let mut g: Vec<EntityId> = Vec::new();
        let mut k: usize = 0;
        while k < gpos[i].len()
            invariant
                forall|i: int, k: int| 0 <= i < gpos@.len() && 0 <= k < gpos@[i]@.len() ==> #[trigger] gpos@[i]@[k] < points@.len(),
                i < gpos@.len(),
                k <= gpos@[i as int]@.len(),
                g@.len() == k,
                forall|m: int| 0 <= m < k ==> #[trigger] g@[m] == points@[gpos@[i as int]@[m] as int].entity,
            decreases gpos@[i as int]@.len() - k,
        {
            let p = gpos[i][k];
            g.push(points[p].entity);
            k += 1;
        }
        r.push(g);
        i += 1;
    }
    r
}

proof fn lemma_sum_lens(gs: Seq<Seq<EntityId>>, gp: Seq<Seq<usize>>, u: int)
    requires
        gs.len() == gp.len(),
        forall|i: int| 0 <= i < gs.len() ==> #[trigger] gs[i].len() == gp[i].len(),
        0 <= u <= gs.len(),
    ensures
        sum_lens(gs, u) == sum_pos(gp, u),
    decreases u,
{
    if u > 0 {
        lemma_sum_lens(gs, gp, u - 1);
    }
}

/// The plan assembled from a complete layout satisfies `plan_ok`.
#[verifier::rlimit(60)]
proof fn lemma_plan_from_layout(
    ps: Seq<PlanPoint>,
    routes: bool,
    gp: Seq<Seq<usize>>,
    wh: Seq<Option<(int, int)>>,
    plan: GraphPlan,
    first: Option<usize>,
)
    requires
        distinct_points(ps),
        links_checked(ps, routes),
        layout_ok(ps, routes, chunk_limit(routes), Seq::new(ps.len(), |q: int| true), gp, wh),
        gp.len() <= group_limit(routes),
        plan.groups@.len() == gp.len(),
        forall|i: int| 0 <= i < gp.len() ==> plan.groups@[i]@.len() == gp[i].len(),
        forall|i: int, k: int| 0 <= i < gp.len() && 0 <= k < gp[i].len() ==> #[trigger] plan.groups@[i]@[k] == ps[gp[i][k] as int].entity,
        plan.group_starts@.len() == gp.len(),
        forall|i: int| 0 <= i < gp.len() ==> #[trigger] plan.group_starts@[i] == sum_pos(gp, i) && (!routes ==> plan.group_starts@[i] <= 255),
        plan.next@.len() == gp.len(),
        plan.previous@.len() == gp.len(),
        forall|i: int| 0 <= i < gp.len() ==> ascending(#[trigger] plan.next@[i]@) && ascending(plan.previous@[i]@),
        forall|i: int, j: usize| 0 <= i < gp.len() ==> (#[trigger] plan.next@[i]@.contains(j) <==> pos_follows(ps, gp, i, j as int)),
        forall|i: int, j: usize| 0 <= i < gp.len() ==> (#[trigger] plan.previous@[i]@.contains(j) <==> j < gp.len() && pos_follows(ps, gp, j as int, i)),
        forall|i: int, k: int| 0 <= i < gp.len() && 0 <= k < succ(ps, gp[i].last() as int).len() ==> starts_group(ps, gp, #[trigger] succ(ps, gp[i].last() as int)[k]),
        !routes ==> forall|i: int| 0 <= i < gp.len() ==> (#[trigger] plan.next@[i]@).len() <= 6 && plan.previous@[i]@.len() <= 6,
        first matches Some(f) ==> first_start(ps, f as int) && gp.len() >= 1 && gp[0][0] == f,
        !routes && first is None ==> forall|t: int| 0 <= t < ps.len() ==> !(#[trigger] ps[t]).overall_start,
    ensures
        plan_ok(ps, routes, plan),
{
    let all = Seq::new(ps.len(), |q: int| true);
        let gs = plan_groups(plan);
    assert forall|i: int, k: int| 0 <= i < gs.len() && 0 <= k < gs[i].len() implies gs[i][k] == ps[gp[i][k] as int].entity
        && pos(ps, gs[i][k]) == Some(gp[i][k] as int) by {
        assert(gp[i][k] < ps.len());
        lemma_pos(ps, ps[gp[i][k] as int].entity);
    }
    assert forall|i: int| 0 <= i < gs.len() implies 1 <= (#[trigger] gs[i]).len() <= chunk_limit(routes) by {
        assert(gp[i].len() == gs[i].len());
    }
    assert forall|i: int, k: int| 0 <= i < gs.len() && 0 <= k < gs[i].len() implies member(ps, #[trigger] gs[i][k]) by {
        assert(pos(ps, gs[i][k]) == Some(gp[i][k] as int));
    }
    assert forall|i: int, k: int, j: int, m: int|
        0 <= i < gs.len() && 0 <= k < gs[i].len() && 0 <= j < gs.len() && 0 <= m < gs[j].len() && #[trigger] gs[i][k]
            == #[trigger] gs[j][m] implies i == j && k == m by {
        assert(pos(ps, gs[i][k]) == Some(gp[i][k] as int));
        assert(pos(ps, gs[j][m]) == Some(gp[j][m] as int));
        assert(wh[gp[i][k] as int] == Some((i, k)));
        assert(wh[gp[j][m] as int] == Some((j, m)));
    }
    assert forall|p: int| 0 <= p < ps.len() implies in_groups(gs, #[trigger] ps[p].entity) by {
        assert(all[p]);
        let (i, k) = wh[p]->Some_0;
        assert(gp[i][k] == p);
        assert(gs[i][k] == ps[p].entity);
    }
    assert forall|i: int, k: int| 0 <= i < gs.len() && 0 <= k < gs[i].len() - 1 implies #[trigger] link_ok(
        ps,
        pos(ps, gs[i][k])->Some_0,
        pos(ps, gs[i][k + 1])->Some_0,
        routes,
    ) by {
        assert(pos(ps, gs[i][k]) == Some(gp[i][k] as int));
        assert(pos(ps, gs[i][k + 1]) == Some(gp[i][k + 1] as int));
        assert(link_ok(ps, gp[i][k] as int, gp[i][k + 1] as int, routes));
    }
    assert forall|i: int| 0 <= i < gs.len() implies #[trigger] plan.group_starts@[i] == sum_lens(gs, i) by {
        assert forall|a: int| 0 <= a < gs.len() implies #[trigger] gs[a].len() == gp[a].len() by {}
        lemma_sum_lens(gs, gp, i);
    }
    assert forall|i: int| 0 <= i < gs.len() implies gs[i].last() == ps[gp[i].last() as int].entity && pos(ps, gs[i].last())
        == Some(gp[i].last() as int) by {
        assert(gs[i][gs[i].len() - 1] == ps[gp[i][gp[i].len() - 1] as int].entity);
        assert(pos(ps, gs[i][gs[i].len() - 1]) == Some(gp[i][gp[i].len() - 1] as int));
    }
    assert forall|i: int, j: int| 0 <= i < gs.len() && 0 <= j < gs.len() implies (pos_follows(ps, gp, i, j)
        <==> group_follows(ps, gs, i, j)) by {
        assert(gs[j][0] == ps[gp[j][0] as int].entity);
    }
    assert forall|i: int, j: usize| 0 <= i < gs.len() implies (#[trigger] plan.next@[i]@.contains(j) <==> group_follows(
        ps,
        gs,
        i,
        j as int,
    )) by {
        if (j as int) < gs.len() {
            assert(pos_follows(ps, gp, i, j as int) <==> group_follows(ps, gs, i, j as int));
        }
    }
    assert forall|i: int, j: usize| 0 <= i < gs.len() implies (#[trigger] plan.previous@[i]@.contains(j) <==> (j as int)
        < gs.len() && group_follows(ps, gs, j as int, i)) by {
        if (j as int) < gs.len() {
            assert(pos_follows(ps, gp, j as int, i) <==> group_follows(ps, gs, j as int, i));
        }
    }
    assert forall|i: int, k: int|
        0 <= i < gs.len() && 0 <= k < succ(ps, pos(ps, gs[i].last())->Some_0).len() implies group_starts_at(
            gs,
            #[trigger] succ(ps, pos(ps, gs[i].last())->Some_0)[k],
        ) by {
        assert(starts_group(ps, gp, succ(ps, gp[i].last() as int)[k]));
        let j = choose|j: int| 0 <= j < gp.len() && ps[gp[j][0] as int].entity == succ(ps, gp[i].last() as int)[k];
        assert(gs[j][0] == ps[gp[j][0] as int].entity);
    }
    assert(!routes ==> forall|i: int| 0 <= i < gs.len() ==> (#[trigger] plan.next@[i]@).len() <= 6 && plan.previous@[i]@.len()
        <= 6);
    assert forall|s: int| !routes && first_start(ps, s) implies gs.len() >= 1 && gs[0][0] == ps[s].entity by {
        {
            assert(first is Some);
            let f = first->Some_0 as int;
            assert(first_start(ps, f));
            if s < f {
                assert(!ps[s].overall_start);
            }
            if f < s {
                assert(!ps[f].overall_start);
            }
            assert(gp[0][0] == f);
        }
    }
    assert(gs.len() <= group_limit(routes));
    assert(plan.group_starts@.len() == gs.len());
    assert(!routes ==> forall|i: int| 0 <= i < gs.len() ==> #[trigger] plan.group_starts@[i] <= 255);
    assert(plan.next@.len() == gs.len());
    assert(plan.previous@.len() == gs.len());
    assert(forall|i: int| 0 <= i < gs.len() ==> ascending(#[trigger] plan.next@[i]@) && ascending(plan.previous@[i]@));
}

fn find_first_start(points: &Vec<PlanPoint>) -> (r: (Option<usize>, usize))
    ensures
        r.1 == count_starts(points@, points@.len() as int),
        r.0 matches Some(s) ==> first_start(points@, s as int),
        r.0 is None ==> forall|t: int| 0 <= t < points@.len() ==> !(#[trigger] points@[t]).overall_start,
{
    let mut first: Option<usize> = None;
    let mut count: usize = 0;
    let mut i: usize = 0;
    while i < points.len()
        invariant
            i <= points@.len(),
            count == count_starts(points@, i as int),
            count <= i,
            first matches Some(s) ==> first_start(points@, s as int) && s < i,
            first is None ==> forall|t: int| 0 <= t < i ==> !(#[trigger] points@[t]).overall_start,
        decreases points@.len() - i,
    {
        if points[i].overall_start {
            if first.is_none() {
                first = Some(i);
            }
            count = count + 1;
        }
        i += 1;
    }
    (first, count)
}

/// Every one of `n` points placed.
pub open spec fn all_placed(n: nat) -> Seq<bool> {
    Seq::new(n, |q: int| true)
}

/// The groups of entities as groups of point positions.
pub open spec fn plan_positions(ps: Seq<PlanPoint>, gs: Seq<Seq<EntityId>>) -> Seq<Seq<usize>> {
    Seq::new(gs.len(), |i: int| Seq::new(gs[i].len(), |k: int| pos(ps, gs[i][k])->Some_0 as usize))
}

/// `gs` splits every point into groups of linked runs as a plan does: each
/// point in exactly one group, at most a group's size in each, consecutive
/// points joined by single links, the groups maximal and seeded in editor
/// order, and (outside routes) the overall start opening the first group.
pub open spec fn planned_grouping(ps: Seq<PlanPoint>, routes: bool, gs: Seq<Seq<usize>>) -> bool {
    &&& exists|wh: Seq<Option<(int, int)>>| #[trigger] layout_ok(ps, routes, chunk_limit(routes), all_placed(ps.len()), gs, wh)
    &&& maximal_grouping(ps, routes, gs)
    &&& forall|s: int| !routes && #[trigger] first_start(ps, s) ==> gs.len() >= 1 && gs[0][0] == s
}

/// Where the back cycle `w` goes from its `m`-th point: the next index of
/// the cycle, read round its closing point.
pub open spec fn cycle_step(w: Seq<usize>, m: int) -> int {
    if m < w.len() - 1 {
        m + 1
    } else {
        1
    }
}

proof fn lemma_cycle_step(ps: Seq<PlanPoint>, w: Seq<usize>, m: int)
    requires
        back_cycle(ps, w),
        0 <= m < w.len(),
    ensures
        0 <= cycle_step(w, m) < w.len(),
        w[m] < ps.len(),
        w[cycle_step(w, m)] < ps.len(),
        pred(ps, w[m] as int) == seq![ps[w[cycle_step(w, m)] as int].entity],
{
    if m == w.len() - 1 {
        assert(w[m] == w[0]);
        assert(pred(ps, w[0] as int) == seq![ps[w[1] as int].entity]);
    } else {
        assert(pred(ps, w[m] as int) == seq![ps[w[m + 1] as int].entity]);
    }
}

/// Inside a group the cycle can only be met at the group's first point:
/// a point's single link into the group comes from the point before it.
#[verifier::rlimit(60)]
proof fn lemma_cycle_back_in_group(ps: Seq<PlanPoint>, g: Seq<usize>, w: Seq<usize>, k: int)
    requires
        distinct_points(ps),
        links_checked(ps, true),
        forall|a: int| 0 <= a < g.len() ==> #[trigger] g[a] < ps.len(),
        forall|a: int| 0 <= a < g.len() - 1 ==> #[trigger] link_ok(ps, g[a] as int, g[a + 1] as int, true),
        back_cycle(ps, w),
        0 <= k < g.len(),
        w.contains(g[k]),
    ensures
        w.contains(g[0]),
    decreases k,
{
    if k > 0 {
        let m = choose|m: int| 0 <= m < w.len() && w[m] == g[k];
        lemma_cycle_step(ps, w, m);
        let m2 = cycle_step(w, m);
        let a = g[k - 1] as int;
        let b = g[k] as int;
        let c = w[m2] as int;
        assert(ps[c].entity == ps[a].entity) by {
            assert(link_ok(ps, g[k - 1] as int, g[k - 1 + 1] as int, true));
            lemma_link_pred(ps, true, a, b);
            assert(pred(ps, b)[0] == ps[a].entity);
            assert(pred(ps, b)[0] == ps[c].entity);
        }
        assert(c == a) by {
            if c < a {
                assert(ps[c].entity != ps[a].entity);
            } else if a < c {
                assert(ps[a].entity != ps[c].entity);
            }
        }
        assert(w.contains(g[k - 1])) by {
            assert(w[m2] == g[k - 1]);
        }
        lemma_cycle_back_in_group(ps, g, w, k - 1);
    }
}

/// No point of a planned route group lies on a cycle of single links: the
/// first cycle point met would start its group, yet its single predecessor
/// on the cycle leads into it from outside the earlier groups.
#[verifier::rlimit(60)]
#[verifier::spinoff_prover]
proof fn lemma_route_group_off_cycle(
    ps: Seq<PlanPoint>,
    gs: Seq<Seq<usize>>,
    wh: Seq<Option<(int, int)>>,
    w: Seq<usize>,
    i: int,
)
    requires
        distinct_points(ps),
        links_checked(ps, true),
        layout_ok(ps, true, chunk_limit(true), all_placed(ps.len()), gs, wh),
        maximal_grouping(ps, true, gs),
        back_cycle(ps, w),
        0 <= i < gs.len(),
    ensures
        forall|k: int| 0 <= k < gs[i].len() ==> !w.contains(#[trigger] gs[i][k]),
    decreases i,
{
    assert forall|j: int, k: int| 0 <= j < i && 0 <= k < gs[j].len() implies !w.contains(#[trigger] gs[j][k]) by {
        lemma_route_group_off_cycle(ps, gs, wh, w, j);
    }
    if w.contains(gs[i][0]) {
        let f = gs[i][0] as int;
        let m = choose|m: int| 0 <= m < w.len() && w[m] == gs[i][0];
        lemma_cycle_step(ps, w, m);
        let x = w[cycle_step(w, m)] as int;
        assert(w.contains(x as usize));
        lemma_checked_pred(ps, true, f, 0);
        lemma_pos(ps, ps[x].entity);
        lemma_checked_node(ps, true, x);
        assert(succ(ps, x).contains(ps[f].entity));
        assert(succ(ps, x) =~= seq![ps[f].entity]);
        assert(link_ok(ps, x, f, true));
        assert(group_facts(ps, true, gs, i, anchored(ps, true)));
        if in_before(gs, i, x as usize) {
            let j = choose|j: int| 0 <= j < i && #[trigger] gs[j].contains(x as usize);
            let k = choose|k: int| 0 <= k < gs[j].len() && gs[j][k] == x as usize;
            assert(!w.contains(gs[j][k]));
        } else {
            assert(continues(ps, true, gs, i));
            let l = gs[i - 1].last() as int;
            assert(gs[i - 1][gs[i - 1].len() - 1] == l);
            lemma_link_pred(ps, true, l, f);
            assert(ps[x].entity == ps[l].entity);
            assert(!w.contains(gs[i - 1][gs[i - 1].len() - 1]));
        }
    }
    assert forall|k: int| 0 <= k < gs[i].len() implies !w.contains(#[trigger] gs[i][k]) by {
        if w.contains(gs[i][k]) {
            let g = gs[i];
            assert forall|a: int| 0 <= a < g.len() - 1 implies #[trigger] link_ok(ps, g[a] as int, g[a + 1] as int, true) by {
                assert(link_ok(ps, gs[i][a] as int, gs[i][a + 1] as int, true));
            }
            assert forall|a: int| 0 <= a < g.len() implies #[trigger] g[a] < ps.len() by {
                assert(gs[i][a] < ps.len());
            }
            lemma_cycle_back_in_group(ps, g, w, k);
        }
    }
}

/// A planned route grouping leaves no cycle of single links: every point
/// is in a group, and no group point lies on such a cycle.
pub proof fn lemma_planned_routes_acyclic(ps: Seq<PlanPoint>, gs: Seq<Seq<usize>>)
    requires
        distinct_points(ps),
        links_checked(ps, true),
        planned_grouping(ps, true, gs),
    ensures
        !has_back_cycle(ps),
{
    let wh = choose|wh: Seq<Option<(int, int)>>| #[trigger] layout_ok(ps, true, chunk_limit(true), all_placed(ps.len()), gs, wh);
    if has_back_cycle(ps) {
        let w = choose|w: Seq<usize>| back_cycle(ps, w);
        let p = w[0] as int;
        assert(p < ps.len());
        assert(all_placed(ps.len())[p]);
        assert(wh[p] is Some);
        let (i, k) = wh[p]->Some_0;
        lemma_route_group_off_cycle(ps, gs, wh, w, i);
        assert(gs[i][k] == p);
        assert(w.contains(w[0]));
    }
}

/// The groups fit the section's index widths: not too many groups and,
/// outside routes, every group starting within the 8-bit range.
pub open spec fn fits(routes: bool, gs: Seq<Seq<usize>>) -> bool {
    &&& gs.len() <= group_limit(routes)
    &&& !routes ==> forall|i: int| 0 <= i < gs.len() ==> #[trigger] sum_pos(gs, i) <= 255
}

/// Plan the serialized groups of a path section from its points in editor
/// order. Every link is checked first (see `links_error`); outside routes at
/// most one overall start is allowed. Chains of single links become groups,
/// seeded in editor order (the overall start first), each walked back to its
/// start; a cycle outside routes starts at its seed, a route cycle is an
/// error. Long chains are split into groups of at most 255 points (65535 for
/// routes); outside routes at most 255 groups, each starting within the
/// 8-bit range, with at most six links on each side. The groups are the
/// only grouping with these properties, so planning is deterministic.
#[verifier::loop_isolation(false)]
#[verifier::rlimit(80)]
#[verifier::spinoff_prover]
pub fn graph(points: &Vec<PlanPoint>, routes: bool) -> (r: Result<GraphPlan, KmpError>)
    requires
        distinct_points(points@),
    ensures
        links_error(points@, routes, 0) matches Some(x) ==> r == Err::<GraphPlan, KmpError>(x),
        links_error(points@, routes, 0) is None && !routes && count_starts(points@, points@.len() as int) > 1 ==> r
            == Err::<GraphPlan, KmpError>(KmpError::MultipleStarts),
        links_error(points@, routes, 0) is None && routes && has_back_cycle(points@) ==> r == Err::<GraphPlan, KmpError>(
            KmpError::RouteCycle,
        ),
        r matches Ok(plan) ==> plan_ok(points@, routes, plan),
        r matches Err(x) ==> links_error(points@, routes, 0) == Some(x) || (x == KmpError::MultipleStarts && !routes
            && count_starts(points@, points@.len() as int) > 1) || (x == KmpError::RouteCycle && routes && has_back_cycle(
            points@,
        )) || (x == KmpError::TooManyGroups && points@.len() > group_limit(routes)) || (x
            == KmpError::GroupStartOutOfRange && !routes && points@.len() > 256),
        links_error(points@, routes, 0) is None && (routes || count_starts(points@, points@.len() as int) <= 1) && !(routes
            && has_back_cycle(points@)) && points@.len() <= group_limit(routes) ==> r is Ok,
        r matches Ok(plan) ==> planned_grouping(points@, routes, plan_positions(points@, plan_groups(plan))),
        r matches Ok(plan) ==> forall|gs: Seq<Seq<usize>>| #[trigger]
            planned_grouping(points@, routes, gs) ==> gs == plan_positions(points@, plan_groups(plan)),
        r == Err::<GraphPlan, KmpError>(KmpError::TooManyGroups) ==> exists|gs: Seq<Seq<usize>>|
            planned_grouping(points@, routes, gs) && gs.len() > group_limit(routes),
        r == Err::<GraphPlan, KmpError>(KmpError::GroupStartOutOfRange) ==> exists|gs: Seq<Seq<usize>>|
            planned_grouping(points@, routes, gs) && !fits(routes, gs),
        links_error(points@, routes, 0) is None && (routes || count_starts(points@, points@.len() as int) <= 1) && !(routes
            && has_back_cycle(points@)) && (forall|gs: Seq<Seq<usize>>| #[trigger] planned_grouping(points@, routes, gs)
            ==> fits(routes, gs)) ==> r is Ok,
{
    let ghost ps = points@;
    match check_links(points, routes) {
        Err(x) => {
            proof {
                lemma_links_fault(ps, routes, 0);
            }
            return Err(x);
        },
        Ok(()) => {},
    }
    let (first, count) = find_first_start(points);
    if !routes && count > 1 {
        return Err(KmpError::MultipleStarts);
    }
    let seed_first = if routes {
        None
    } else {
        first
    };
    let (gpos, Ghost(wh)) = match decompose(points, routes, seed_first) {
        Ok(x) => x,
        Err(x) => {
            return Err(x);
        },
    };
    let ghost gp = group_views(gpos@);
    let ghost all = Seq::new(ps.len(), |q: int| true);
    proof {
        lemma_layout_bounds(ps, routes, chunk_limit(routes), all, gp, wh);
    }
    let limit: usize = if routes {
        65535
    } else {
        255
    };
    proof {
        assert(all_placed(ps.len()) == all);
        assert(layout_ok(ps, routes, chunk_limit(routes), all_placed(ps.len()), gp, wh));
        assert forall|s: int| !routes && #[trigger] first_start(ps, s) implies gp.len() >= 1 && gp[0][0] == s by {
            let f = first->Some_0 as int;
            assert(first_start(ps, f));
            if s < f {
                assert(!ps[s].overall_start);
            }
            if f < s {
                assert(!ps[f].overall_start);
            }
        }
        assert(planned_grouping(ps, routes, gp));
        if routes {
            lemma_planned_routes_acyclic(ps, gp);
        }
    }
    if gpos.len() > limit {
        return Err(KmpError::TooManyGroups);
    }
    let n = points.len();
    proof {
        assert forall|u: int| 0 <= u < gpos@.len() implies #[trigger] sum_pos(group_views(gpos@), u) + gpos@[u]@.len() <= n by {
            assert(gp[u] == gpos@[u]@);
        }
    }
    let group_starts = match group_starts_of(&gpos, routes, Ghost(n as int)) {
        Ok(v) => v,
        Err(x) => {
            proof {
                let i = choose|i: int| 0 <= i < gpos@.len() && #[trigger] sum_pos(group_views(gpos@), i) > 255;
                assert(sum_pos(gp, i) + gp[i].len() <= ps.len());
                assert(gp[i].len() >= 1);
                assert(!fits(routes, gp));
            }
            return Err(x);
        },
    };
    let (next, previous) = link_lists(points, routes, &gpos, Ghost(wh));
    proof {
        assert forall|a: int| 0 <= a < gpos@.len() implies ascending(previous@[a]@) by {
            assert(ascending(next@[a]@));
        }
    }
    if !routes {
        let mut i: usize = 0;
        while i < previous.len()
            invariant
                previous@.len() == gpos@.len(),
                forall|a: int| 0 <= a < gpos@.len() ==> ascending(previous@[a]@),
                i <= previous@.len(),
                forall|a: int| 0 <= a < i ==> (#[trigger] previous@[a]@).len() <= 6,
            decreases previous@.len() - i,
        {
            if previous[i].len() > 6 {
                proof {
                    lemma_prev_bound(ps, routes, gp, wh, i as int, previous@[i as int]@);
                    lemma_checked_node(ps, routes, gp[i as int][0] as int);
                    assert(gp[i as int][0] < ps.len());
                }
                return Err(KmpError::TooManyGroupLinks);
            }
            i += 1;
        }
        let mut i: usize = 0;
        while i < next.len()
            invariant
                i <= next@.len(),
                forall|a: int| 0 <= a < i ==> (#[trigger] next@[a]@).len() <= 6,
            decreases next@.len() - i,
        {
            if next[i].len() > 6 {
                proof {
                    assert(gp[i as int] == gpos@[i as int]@);
                    assert(gp[i as int][gp[i as int].len() - 1] == gp[i as int].last());
                    lemma_checked_node(ps, routes, gp[i as int].last() as int);
                }
                return Err(KmpError::TooManyGroupLinks);
            }
            i += 1;
        }
    }
    proof {
        assert forall|i: int, k: int| 0 <= i < gpos@.len() && 0 <= k < gpos@[i]@.len() implies #[trigger] gpos@[i]@[k] < points@.len() by {
            assert(gp[i] == gpos@[i]@);
            assert(gp[i][k] < ps.len());
        }
    }
    let groups = entity_groups(points, &gpos);
    let plan = GraphPlan { groups, previous, next, group_starts };
    proof {
        let fs = if routes { None } else { first };
        assert forall|i: int| 0 <= i < gp.len() implies #[trigger] plan.group_starts@[i] == sum_pos(gp, i) && (!routes
            ==> plan.group_starts@[i] <= 255) by {}
        assert forall|i: int| 0 <= i < gp.len() implies (#[trigger] plan.next@[i]@).len() <= succ(ps, gp[i].last() as int).len() by {
            assert(gp[i] == gpos@[i]@);
        }
        assert forall|i: int, j: usize| 0 <= i < gp.len() implies (#[trigger] plan.next@[i]@.contains(j) <==> pos_follows(ps, gp, i, j as int)) by {}
        assert forall|i: int, j: usize| 0 <= i < gp.len() implies (#[trigger] plan.previous@[i]@.contains(j) <==> j < gp.len() && pos_follows(ps, gp, j as int, i)) by {}
        assert forall|i: int, k: int| 0 <= i < gp.len() && 0 <= k < succ(ps, gp[i].last() as int).len() implies starts_group(ps, gp, #[trigger] succ(ps, gp[i].last() as int)[k]) by {
            assert(gp[i] == gpos@[i]@);
        }
        assert forall|i: int| 0 <= i < gp.len() implies plan.groups@[i]@.len() == gp[i].len() by {
            assert(gp[i] == gpos@[i]@);
        }
        assert forall|i: int, k: int| 0 <= i < gp.len() && 0 <= k < gp[i].len() implies #[trigger] plan.groups@[i]@[k] == ps[gp[i][k] as int].entity by {
            assert(gp[i] == gpos@[i]@);
        }
        lemma_plan_from_layout(ps, routes, gp, wh, plan, fs);
        assert forall|i: int| 0 <= i < gp.len() implies #[trigger] plan_positions(ps, plan_groups(plan))[i] == gp[i] by {
            assert forall|k: int| 0 <= k < gp[i].len() implies plan_positions(ps, plan_groups(plan))[i][k] == gp[i][k] by {
                lemma_pos(ps, ps[gp[i][k] as int].entity);
            }
            assert(plan_positions(ps, plan_groups(plan))[i] =~= gp[i]);
        }
        assert(plan_positions(ps, plan_groups(plan)) =~= gp);
        assert forall|gs: Seq<Seq<usize>>| #[trigger] planned_grouping(ps, routes, gs) implies gs == plan_positions(
            ps,
            plan_groups(plan),
        ) by {
            lemma_planned_grouping_unique(ps, routes, gs, gp);
        }
    }
    Ok(plan)
}

/// `b` follows `a` inside a group.
pub open spec fn group_neighbours(gs: Seq<Seq<EntityId>>, a: EntityId, b: EntityId) -> bool {
    exists|i: int, k: int| 0 <= i < gs.len() && 0 <= k < gs[i].len() - 1 && #[trigger] gs[i][k] == a && gs[i][k + 1] == b
}

/// `a` ends a group that links to a group starting at `b`.
pub open spec fn group_linked(plan: GraphPlan, a: EntityId, b: EntityId) -> bool {
    let gs = plan_groups(plan);
    exists|i: int, j: usize|
        0 <= i < gs.len() && (j as int) < gs.len() && gs[i].last() == a && gs[j as int][0] == b && #[trigger] plan.next@[i]@.contains(j)
}

/// A plan keeps every link exactly: a point's successors are its neighbour
/// in its group, or (for the last point of a group) the first points of the
/// groups that group links to, and nothing else.
pub proof fn lemma_plan_keeps_links(ps: Seq<PlanPoint>, routes: bool, plan: GraphPlan, a: EntityId, b: EntityId)
    requires
        plan_ok(ps, routes, plan),
        member(ps, a),
    ensures
        succ(ps, pos(ps, a)->Some_0).contains(b) <==> group_neighbours(plan_groups(plan), a, b) || group_linked(plan, a, b),
{
    let gs = plan_groups(plan);
    let pa = pos(ps, a)->Some_0;
    lemma_pos_from(ps, a, 0);
    assert(in_groups(gs, ps[pa].entity));
    let (i, k) = choose|i: int, k: int| 0 <= i < gs.len() && 0 <= k < gs[i].len() && #[trigger] gs[i][k] == a;
    assert(gs[i][k] == a);
    if k < gs[i].len() - 1 {
        let nb = gs[i][k + 1];
        assert(link_ok(ps, pos(ps, gs[i][k])->Some_0, pos(ps, gs[i][k + 1])->Some_0, routes));
        lemma_pos_from(ps, nb, 0);
        assert(member(ps, gs[i][k + 1]));
        assert(succ(ps, pa) == seq![nb]);
        if succ(ps, pa).contains(b) {
            assert(b == nb);
            assert(group_neighbours(gs, a, b));
        }
        if group_neighbours(gs, a, b) {
            let (i2, k2) = choose|i2: int, k2: int|
                0 <= i2 < gs.len() && 0 <= k2 < gs[i2].len() - 1 && #[trigger] gs[i2][k2] == a && gs[i2][k2 + 1] == b;
            assert(gs[i2][k2] == gs[i][k]);
            assert(succ(ps, pa)[0] == b);
        }
        if group_linked(plan, a, b) {
            let (i2, j) = choose|i2: int, j: usize|
                0 <= i2 < gs.len() && (j as int) < gs.len() && gs[i2].last() == a && gs[j as int][0] == b && #[trigger] plan.next@[i2]@.contains(j);
            assert(gs[i2][gs[i2].len() - 1] == gs[i][k]);
        }
    } else {
        assert(gs[i].last() == a);
        if succ(ps, pa).contains(b) {
            let m = choose|m: int| 0 <= m < succ(ps, pa).len() && succ(ps, pa)[m] == b;
            assert(group_starts_at(gs, succ(ps, pos(ps, gs[i].last())->Some_0)[m]));
            let j = choose|j: int| 0 <= j < gs.len() && gs[j][0] == b;
            assert(group_follows(ps, gs, i, j));
            assert(plan.next@[i]@.contains(j as usize));
            assert(group_linked(plan, a, b));
        }
        if group_neighbours(gs, a, b) {
            let (i2, k2) = choose|i2: int, k2: int|
                0 <= i2 < gs.len() && 0 <= k2 < gs[i2].len() - 1 && #[trigger] gs[i2][k2] == a && gs[i2][k2 + 1] == b;
            assert(gs[i2][k2] == gs[i][k]);
        }
        if group_linked(plan, a, b) {
            let (i2, j) = choose|i2: int, j: usize|
                0 <= i2 < gs.len() && (j as int) < gs.len() && gs[i2].last() == a && gs[j as int][0] == b && #[trigger] plan.next@[i2]@.contains(j);
            assert(gs[i2][gs[i2].len() - 1] == gs[i][k]);
            assert(group_follows(ps, gs, i2, j as int));
        }
    }
}

/// Six link bytes: the listed groups, then 255 for none; `None` when a
/// listed group (among the first six) does not fit in a byte.
pub open spec fn link_bytes(list: Seq<usize>) -> Option<Seq<u8>> {
    if forall|k: int| 0 <= k < list.len() && k < 6 ==> #[trigger] list[k] <= 255 {
        Some(Seq::new(6, |k: int| if k < list.len() { list[k] as u8 } else { 255u8 }))
    } else {
        None
    }
}

fn pack_links(list: &Vec<usize>) -> (r: Result<Vec<u8>, KmpError>)
    ensures
        r matches Ok(v) ==> link_bytes(list@) == Some(v@),
        r matches Err(x) ==> x == KmpError::ByteOverflow && link_bytes(list@) is None,
{
    let mut v: Vec<u8> = Vec::new();
    let mut k: usize = 0;
    while k < 6
        invariant
            k <= 6,
            v@.len() == k,
            forall|m: int| 0 <= m < k && m < list@.len() ==> #[trigger] list@[m] <= 255,
            forall|m: int| 0 <= m < k ==> #[trigger] v@[m] == if m < list@.len() { list@[m] as u8 } else { 255u8 },
        decreases 6 - k,
    {
        if k < list.len() {
            if list[k] > 255 {
                return Err(KmpError::ByteOverflow);
            }
            v.push(list[k] as u8);
        } else {
            v.push(255);
        }
        k += 1;
    }
    proof {
        assert(v@ =~= Seq::new(6, |k: int| if k < list@.len() { list@[k] as u8 } else { 255u8 }));
    }
    Ok(v)
}

/// The ENPH, ITPH or CKPH header of group `i` of a plan: where it starts,
/// its length, and its links padded with 255.
pub open spec fn header_of(plan: GraphPlan, i: int) -> Option<(u8, u8, Seq<u8>, Seq<u8>)> {
    let start = plan.group_starts@[i];
    let len = plan.groups@[i]@.len();
    if start <= 255 && len <= 255 && link_bytes(plan.previous@[i]@) is Some && link_bytes(plan.next@[i]@) is Some {
        Some((start as u8, len as u8, link_bytes(plan.previous@[i]@)->Some_0, link_bytes(plan.next@[i]@)->Some_0))
    } else {
        None
    }
}

/// The headers of a planned section are contiguous: the first group starts
/// at point 0 and each next group starts where the one before ends, so the
/// groups together cover the first `sum_lens` points in order.
pub proof fn lemma_headers_contiguous(ps: Seq<PlanPoint>, routes: bool, plan: GraphPlan, hs: Seq<PathGroup>)
    requires
        plan_ok(ps, routes, plan),
        hs.len() == plan.groups@.len(),
        forall|i: int|
            0 <= i < hs.len() ==> #[trigger] header_of(plan, i) == Some(
                (hs[i].start, hs[i].group_length, hs[i].prev_group@, hs[i].next_group@),
            ),
    ensures
        hs.len() > 0 ==> hs[0].start == 0,
        forall|i: int| 0 <= i < hs.len() ==> #[trigger] hs[i].start == sum_lens(plan_groups(plan), i) && hs[i].group_length
            == plan.groups@[i]@.len(),
        forall|i: int| 0 <= i < hs.len() - 1 ==> #[trigger] hs[i + 1].start == hs[i].start + hs[i].group_length,
{
    let gs = plan_groups(plan);
    assert forall|i: int| 0 <= i < hs.len() implies #[trigger] hs[i].start == sum_lens(gs, i) && hs[i].group_length
        == plan.groups@[i]@.len() by {
        assert(header_of(plan, i) is Some);
        assert(plan.group_starts@[i] == sum_lens(gs, i));
    }
    assert forall|i: int| 0 <= i < hs.len() - 1 implies #[trigger] hs[i + 1].start == hs[i].start + hs[i].group_length by {
        assert(hs[i + 1].start == sum_lens(gs, i + 1));
        assert(hs[i].start == sum_lens(gs, i));
        assert(gs[i] == plan.groups@[i]@);
    }
    if hs.len() > 0 {
        assert(hs[0].start == sum_lens(gs, 0));
    }
}

/// The group headers of a plan, in group order; a start, length or link
/// that does not fit in a byte is refused.
pub fn group_headers(plan: &GraphPlan) -> (r: Result<Vec<PathGroup>, KmpError>)
    requires
        plan.group_starts@.len() == plan.groups@.len(),
        plan.previous@.len() == plan.groups@.len(),
        plan.next@.len() == plan.groups@.len(),
    ensures
        r matches Ok(hs) ==> hs@.len() == plan.groups@.len() && forall|i: int|
            0 <= i < hs@.len() ==> #[trigger] header_of(*plan, i) == Some(
                (hs@[i].start, hs@[i].group_length, hs@[i].prev_group@, hs@[i].next_group@),
            ) && hs@[i].unknown == 0,
        r matches Err(x) ==> x == KmpError::ByteOverflow && exists|i: int|
            0 <= i < plan.groups@.len() && #[trigger] header_of(*plan, i) is None,
        (forall|i: int| 0 <= i < plan.groups@.len() ==> #[trigger] header_of(*plan, i) is Some) ==> r is Ok,
{
    let mut hs: Vec<PathGroup> = Vec::new();
    let mut i: usize = 0;
    while i < plan.groups.len()
        invariant
            plan.group_starts@.len() == plan.groups@.len(),
            plan.previous@.len() == plan.groups@.len(),
            plan.next@.len() == plan.groups@.len(),
            i <= plan.groups@.len(),
            hs@.len() == i,
            forall|a: int| 0 <= a < i ==> #[trigger] header_of(*plan, a) == Some(
                (hs@[a].start, hs@[a].group_length, hs@[a].prev_group@, hs@[a].next_group@),
            ) && hs@[a].unknown == 0,
        decreases plan.groups@.len() - i,
    {
        let start = plan.group_starts[i];
        let len = plan.groups[i].len();
        if start > 255 || len > 255 {
            proof {
                assert(header_of(*plan, i as int) is None);
            }
            return Err(KmpError::ByteOverflow);
        }
        let prev = match pack_links(&plan.previous[i]) {
            Ok(v) => v,
            Err(x) => {
                proof {
                    assert(header_of(*plan, i as int) is None);
                }
                return Err(x);
            },
        };
        let next = match pack_links(&plan.next[i]) {
            Ok(v) => v,
            Err(x) => {
                proof {
                    assert(header_of(*plan, i as int) is None);
                }
                return Err(x);
            },
        };
        hs.push(PathGroup { start: start as u8, group_length: len as u8, prev_group: prev, next_group: next, unknown: 0 });
        i += 1;
    }
    Ok(hs)
}

/// The checkpoint neighbours of the `o`-th point of a group of `len` points
/// starting at `start`: none (255) at either end of the group, else the
/// serialized index beside it.
pub open spec fn checkpoint_neighbours(start: int, o: int, len: int) -> Option<(u8, u8)> {
    let prev = if o == 0 {
        Some(255u8)
    } else if start + o - 1 <= 255 {
        Some((start + o - 1) as u8)
    } else {
        None::<u8>
    };
    let next = if o + 1 == len {
        Some(255u8)
    } else if start + o + 1 <= 255 {
        Some((start + o + 1) as u8)
    } else {
        None::<u8>
    };
    match (prev, next) {
        (Some(p), Some(n)) => Some((p, n)),
        _ => None,
    }
}

/// Checkpoint neighbours are serialized indices: the point at offset `o` of
/// a group starting at serialized index `start` links back to index
/// `start + o - 1` and on to `start + o + 1`, the points beside it in the
/// same group, and to 255 (none) at the group's ends; they are encodable
/// exactly when those indices fit in a byte.
pub proof fn lemma_checkpoint_neighbours_are_adjacent(start: int, o: int, len: int)
    requires
        0 <= start,
        0 <= o < len,
    ensures
        checkpoint_neighbours(start, o, len) is Some <==> ((o == 0 || start + o - 1 <= 255) && (o + 1 == len || start + o + 1
            <= 255)),
        checkpoint_neighbours(start, o, len) matches Some((p, n)) ==> (o == 0 ==> p == 255) && (o > 0 ==> p == start + o - 1)
            && (o + 1 == len ==> n == 255) && (o + 1 < len ==> n == start + o + 1),
{
}

/// The CKPT `prev_cp`/`next_cp` bytes of every point of a plan, group by
/// group: neighbours within the group, 255 at its ends; an index that does
/// not fit in a byte is refused.
pub fn checkpoint_links(plan: &GraphPlan) -> (r: Result<Vec<Vec<(u8, u8)>>, KmpError>)
    requires
        plan.group_starts@.len() == plan.groups@.len(),
        forall|i: int| 0 <= i < plan.groups@.len() ==> #[trigger] plan.group_starts@[i] + plan.groups@[i]@.len() <= usize::MAX,
    ensures
        r matches Ok(v) ==> v@.len() == plan.groups@.len() && forall|i: int|
            0 <= i < v@.len() ==> (#[trigger] v@[i])@.len() == plan.groups@[i]@.len() && forall|o: int|
                0 <= o < v@[i]@.len() ==> checkpoint_neighbours(
                    plan.group_starts@[i] as int,
                    o,
                    plan.groups@[i]@.len() as int,
                ) == Some(#[trigger] v@[i]@[o]),
        r matches Err(x) ==> x == KmpError::ByteOverflow && exists|i: int, o: int|
            0 <= i < plan.groups@.len() && 0 <= o < plan.groups@[i]@.len() && #[trigger] checkpoint_neighbours(
                plan.group_starts@[i] as int,
                o,
                plan.groups@[i]@.len() as int,
            ) is None,
        (forall|i: int, o: int|
            0 <= i < plan.groups@.len() && 0 <= o < plan.groups@[i]@.len() ==> #[trigger] checkpoint_neighbours(
                plan.group_starts@[i] as int,
                o,
                plan.groups@[i]@.len() as int,
            ) is Some) ==> r is Ok,
{
    let mut v: Vec<Vec<(u8, u8)>> = Vec::new();
    let mut i: usize = 0;
    while i < plan.groups.len()
        invariant
            plan.group_starts@.len() == plan.groups@.len(),
            forall|i: int| 0 <= i < plan.groups@.len() ==> #[trigger] plan.group_starts@[i] + plan.groups@[i]@.len() <= usize::MAX,
            i <= plan.groups@.len(),
            v@.len() == i,
            forall|a: int|
                0 <= a < i ==> (#[trigger] v@[a])@.len() == plan.groups@[a]@.len() && forall|o: int|
                    0 <= o < v@[a]@.len() ==> checkpoint_neighbours(
                        plan.group_starts@[a] as int,
                        o,
                        plan.groups@[a]@.len() as int,
                    ) == Some(#[trigger] v@[a]@[o]),
        decreases plan.groups@.len() - i,
    {
        let start = plan.group_starts[i];
        let len = plan.groups[i].len();
        proof {
            assert(start + len <= usize::MAX);
        }
        let mut g: Vec<(u8, u8)> = Vec::new();
        let mut o: usize = 0;
        while o < len
            invariant
                i < plan.groups@.len(),
                start == plan.group_starts@[i as int],
                len == plan.groups@[i as int]@.len(),
                start + len <= usize::MAX,
                o <= len,
                g@.len() == o,
                forall|m: int| 0 <= m < o ==> checkpoint_neighbours(start as int, m, len as int) == Some(#[trigger] g@[m]),
            decreases len - o,
        {
            let prev: u8 = if o == 0 {
                255
            } else if start + o - 1 <= 255 {
                (start + o - 1) as u8
            } else {
                proof {
                    assert(checkpoint_neighbours(plan.group_starts@[i as int] as int, o as int, plan.groups@[i as int]@.len() as int) is None);
                }
                return Err(KmpError::ByteOverflow);
            };
            let next: u8 = if o + 1 == len {
                255
            } else if start + o + 1 <= 255 {
                (start + o + 1) as u8
            } else {
                proof {
                    assert(checkpoint_neighbours(plan.group_starts@[i as int] as int, o as int, plan.groups@[i as int]@.len() as int) is None);
                }
                return Err(KmpError::ByteOverflow);
            };
            g.push((prev, next));
            o += 1;
        }
        v.push(g);
        i += 1;
    }
    Ok(v)
}

/// Outside the byte range, checkpoint neighbours cannot be encoded: every
/// point of a group of two or more must have a serialized index below 255.
pub fn check_checkpoint_adjacency(plan: &GraphPlan) -> (r: Result<(), KmpError>)
    requires
        plan.group_starts@.len() == plan.groups@.len(),
    ensures
        r is Ok <==> forall|i: int|
            0 <= i < plan.groups@.len() && #[trigger] plan.groups@[i]@.len() >= 2 ==> plan.group_starts@[i]
                + plan.groups@[i]@.len() - 1 < 255,
        r matches Err(x) ==> x == KmpError::CheckpointAdjacencyOutOfRange,
{
    let mut i: usize = 0;
    while i < plan.groups.len()
        invariant
            plan.group_starts@.len() == plan.groups@.len(),
            i <= plan.groups@.len(),
            forall|a: int|
                0 <= a < i && #[trigger] plan.groups@[a]@.len() >= 2 ==> plan.group_starts@[a] + plan.groups@[a]@.len() - 1 < 255,
        decreases plan.groups@.len() - i,
    {
        let len = plan.groups[i].len();
        if len >= 2 && (len - 1 >= 255 || plan.group_starts[i] >= 255 - (len - 1)) {
            return Err(KmpError::CheckpointAdjacencyOutOfRange);
        }
        i += 1;
    }
    Ok(())
}

} // verus!
