//! Decomposition of a path graph into path groups: maximal chains of points
//! joined by single links, as the KMP format stores them, together with the
//! links between groups.
use vstd::prelude::*;
use crate::graph::{EntityId, EntryView, PathGraph, find, find_entry, has, lemma_find, lemma_points_bound, node, reciprocal, well_formed};

verus! {

broadcast use vstd::std_specs::vec::group_vec_axioms;

/// One path group: its points in order and the groups linked before and
/// after it (ascending, without repeats).
#[derive(Debug)]
pub struct EntityPathGroup {
    pub path: Vec<EntityId>,
    pub prev_paths: Vec<usize>,
    pub next_paths: Vec<usize>,
}

/// Display order of entry `i`; a point without one sorts last.
pub open spec fn order_key(g: Seq<EntryView>, i: int) -> u32 {
    match g[i].order {
        Some(o) => o,
        None => 0xffff_ffffu32,
    }
}

/// Entry `i` comes before entry `j` in editor order, with the entity
/// breaking ties.
pub open spec fn before(g: Seq<EntryView>, i: int, j: int) -> bool {
    order_key(g, i) < order_key(g, j) || (order_key(g, i) == order_key(g, j) && g[i].entity < g[j].entity)
}

/// Unhandled marker for points not yet in a group.
pub const UNHANDLED: usize = usize::MAX;

fn key_before(g: &PathGraph, i: usize, j: usize) -> (r: bool)
    requires
        i < g@.len(),
        j < g@.len(),
    ensures
        r == before(g@, i as int, j as int),
{
    let oi = match g.entries[i].order {
        Some(o) => o,
        None => 0xffff_ffffu32,
    };
    let oj = match g.entries[j].order {
        Some(o) => o,
        None => 0xffff_ffffu32,
    };
    oi < oj || (oi == oj && g.entries[i].entity < g.entries[j].entity)
}

/// The first entry in editor order among unhandled entries (and, when
/// `starts` is set, among overall starts).
fn first_in_order(g: &PathGraph, slot: &Vec<usize>, starts: bool) -> (r: Option<usize>)
    requires
        slot@.len() == g@.len(),
    ensures
        r matches Some(i) ==> i < g@.len() && slot@[i as int] == UNHANDLED && (starts ==> g@[i as int].overall_start)
            && forall|j: int|
            0 <= j < g@.len() && slot@[j] == UNHANDLED && (starts ==> g@[j].overall_start) ==> !before(
                g@,
                j,
                i as int,
            ),
        r is None ==> forall|j: int|
            0 <= j < g@.len() ==> !(slot@[j] == UNHANDLED && (starts ==> g@[j].overall_start)),
{
    let mut best: Option<usize> = None;
    let mut i: usize = 0;
    while i < g.entries.len()
        invariant
            i <= g@.len(),
            g@.len() == g.entries@.len(),
            slot@.len() == g@.len(),
            best matches Some(b) ==> b < i && slot@[b as int] == UNHANDLED && (starts ==> g@[b as int].overall_start)
                && forall|j: int|
                0 <= j < i && slot@[j] == UNHANDLED && (starts ==> g@[j].overall_start) ==> !before(
                    g@,
                    j,
                    b as int,
                ),
            best is None ==> forall|j: int|
                0 <= j < i ==> !(slot@[j] == UNHANDLED && (starts ==> g@[j].overall_start)),
        decreases g@.len() - i,
    {
        if slot[i] == UNHANDLED && (!starts || g.entries[i].overall_start) {
            match best {
                None => {
                    best = Some(i);
                },
                Some(b) => {
                    if key_before(g, i, b) {
                        proof {
                            assert forall|j: int|
                                0 <= j < i + 1 && slot@[j] == UNHANDLED && (starts ==> g@[j].overall_start)
                                    implies !before(g@, j, i as int) by {
                                if j < i {
                                    assert(!before(g@, j, b as int));
                                }
                            }
                        }
                        best = Some(i);
                    }
                },
            }
        }
        i += 1;
    }
    best
}

/// The chains found so far: every listed point is a live point whose slot
/// names its chain, and every handled slot names a chain that lists its point.
pub open spec fn chains_ok(g: Seq<EntryView>, slot: Seq<usize>, paths: Seq<Seq<EntityId>>) -> bool {
    &&& slot.len() == g.len()
    &&& forall|p: int, k: int|
        0 <= p < paths.len() && 0 <= k < paths[p].len() ==> has(g, #[trigger] paths[p][k]) && slot[find(
            g,
            paths[p][k],
        )->Some_0] == p
    &&& forall|i: int|
        #![trigger slot[i]]
        0 <= i < g.len() && slot[i] != UNHANDLED ==> slot[i] < paths.len() && paths[slot[i] as int].contains(g[i].entity)
    &&& forall|p: int| 0 <= p < paths.len() ==> (#[trigger] paths[p]).len() >= 1 && paths[p].no_duplicates()
    &&& forall|p: int, k: int|
        0 <= p < paths.len() && 0 <= k < paths[p].len() - 1 ==> #[trigger] single_link(g, paths[p][k], paths[p][k + 1])
}

/// `a` has the single successor `b`, and `b` a single predecessor.
pub open spec fn single_link(g: Seq<EntryView>, a: EntityId, b: EntityId) -> bool {
    &&& node(g, a).next == seq![b]
    &&& node(g, b).prev.len() == 1
}

/// Every point lies in exactly one chain, at exactly one position.
pub open spec fn partition(g: Seq<EntryView>, paths: Seq<Seq<EntityId>>) -> bool {
    &&& forall|p: int, k: int| 0 <= p < paths.len() && 0 <= k < paths[p].len() ==> has(g, #[trigger] paths[p][k])
    &&& forall|p: int, q: int, k: int, m: int|
        0 <= p < paths.len() && 0 <= q < paths.len() && 0 <= k < paths[p].len() && 0 <= m < paths[q].len()
            && #[trigger] paths[p][k] == #[trigger] paths[q][m] ==> p == q && k == m
    &&& forall|i: int| 0 <= i < g.len() ==> #[trigger] covered(paths, g[i].entity)
}

/// Some chain lists `e`.
pub open spec fn covered(paths: Seq<Seq<EntityId>>, e: EntityId) -> bool {
    exists|p: int| 0 <= p < paths.len() && #[trigger] paths[p].contains(e)
}

/// Chain `j` starts at a successor of the last point of chain `i`.
pub open spec fn chain_follows(g: Seq<EntryView>, paths: Seq<Seq<EntityId>>, i: int, j: int) -> bool {
    exists|n: EntityId| #[trigger] node(g, paths[i].last()).next.contains(n) && paths[j].contains(n)
}

proof fn lemma_chain_points_unique(g: Seq<EntryView>, slot: Seq<usize>, paths: Seq<Seq<EntityId>>)
    requires
        well_formed(g),
        chains_ok(g, slot, paths),
    ensures
        forall|p: int, q: int, k: int, m: int|
            0 <= p < paths.len() && 0 <= q < paths.len() && 0 <= k < paths[p].len() && 0 <= m < paths[q].len()
                && #[trigger] paths[p][k] == #[trigger] paths[q][m] ==> p == q && k == m,
{
    assert forall|p: int, q: int, k: int, m: int|
        0 <= p < paths.len() && 0 <= q < paths.len() && 0 <= k < paths[p].len() && 0 <= m < paths[q].len()
            && #[trigger] paths[p][k] == #[trigger] paths[q][m] implies p == q && k == m by {
        assert(slot[find(g, paths[p][k])->Some_0] == p);
        assert(slot[find(g, paths[q][m])->Some_0] == q);
        assert(paths[p].no_duplicates());
    }
}

/// Handled points are exactly those listed in `all`, which holds live points
/// once each.
pub open spec fn handled_ok(g: Seq<EntryView>, slot: Seq<usize>, all: Seq<EntityId>) -> bool {
    &&& slot.len() == g.len()
    &&& all.no_duplicates()
    &&& forall|k: int| 0 <= k < all.len() ==> has(g, #[trigger] all[k])
    &&& forall|i: int| 0 <= i < g.len() ==> (slot[i] != UNHANDLED <==> all.contains(#[trigger] g[i].entity))
}

/// Walk back from `seed` over single links to the start of its chain,
/// stopping before handled points; an unanchored cycle starts at `seed`.
fn walk_back(g: &PathGraph, slot: &Vec<usize>, seed: usize) -> (start: usize)
    requires
        well_formed(g@),
        slot@.len() == g@.len(),
        seed < g@.len(),
        slot@[seed as int] == UNHANDLED,
    ensures
        start < g@.len(),
        slot@[start as int] == UNHANDLED,
        single_prev(g@, g@[start as int].entity) matches Some(x) ==> slot@[find(g@, x)->Some_0] != UNHANDLED || (
        start == seed && back_cycles(g@, g@[seed as int].entity)),
        start != seed ==> exists|k: nat|
            1 <= k && back_from(g@, g@[seed as int].entity, k) == Some(g@[start as int].entity) && #[trigger] back_path_ok(
                g@,
                slot@,
                g@[seed as int].entity,
                k,
            ),
{
    let mut start = seed;
    let mut visited: Vec<EntityId> = Vec::new();
    let ghost se = g@[seed as int].entity;
    visited.push(g.entries[seed].entity);
    proof {
        lemma_find(g@, g@[seed as int].entity);
        assert(slot@[find(g@, visited@[0])->Some_0] == UNHANDLED);
        assert(back_from(g@, se, 0) == Some(se));
    }
    loop
        invariant_except_break
            g@[start as int].entity == visited@.last(),
        invariant
            well_formed(g@),
            slot@.len() == g@.len(),
            seed < g@.len(),
            se == g@[seed as int].entity,
            slot@[seed as int] == UNHANDLED,
            start < g@.len(),
            slot@[start as int] == UNHANDLED,
            visited@.no_duplicates(),
            visited@.len() >= 1,
            forall|k: int| 0 <= k < visited@.len() ==> has(g@, #[trigger] visited@[k]),
            forall|k: int| 0 <= k < visited@.len() ==> back_from(g@, se, k as nat) == Some(#[trigger] visited@[k]),
            forall|k: int| 0 <= k < visited@.len() ==> slot@[find(g@, #[trigger] visited@[k])->Some_0] == UNHANDLED,
        ensures
            start < g@.len(),
            slot@[start as int] == UNHANDLED,
            single_prev(g@, g@[start as int].entity) matches Some(x) ==> slot@[find(g@, x)->Some_0] != UNHANDLED || (
            start == seed && back_cycles(g@, se)),
            start != seed ==> exists|k: nat|
                1 <= k && back_from(g@, se, k) == Some(g@[start as int].entity) && #[trigger] back_path_ok(g@, slot@, se, k),
        decreases g@.len() - visited@.len(),
    {
        proof {
            lemma_find(g@, g@[start as int].entity);
            if start != seed {
                let kk = (visited@.len() - 1) as nat;
                if visited@.len() == 1 {
                    assert(g@[start as int].entity == g@[seed as int].entity);
                }
                assert(back_from(g@, se, kk) == Some(visited@[kk as int]));
                assert forall|i: nat| i <= kk implies #[trigger] back_from(g@, se, i) is Some && has(
                    g@,
                    back_from(g@, se, i)->Some_0,
                ) && slot@[find(g@, back_from(g@, se, i)->Some_0)->Some_0] == UNHANDLED by {
                    assert(back_from(g@, se, i) == Some(visited@[i as int]));
                }
                assert forall|i: nat, j: nat| i < j <= kk implies #[trigger] back_from(g@, se, i) != #[trigger] back_from(
                    g@,
                    se,
                    j,
                ) by {
                    assert(back_from(g@, se, i) == Some(visited@[i as int]));
                    assert(back_from(g@, se, j) == Some(visited@[j as int]));
                }
                assert(back_path_ok(g@, slot@, se, kk));
            }
        }
        proof {
            lemma_points_bound(g@, visited@);
        }
        if g.entries[start].node.prev_nodes.len() != 1 {
            break;
        }
        let pe = g.entries[start].node.prev_nodes[0];
        let pi = match find_entry(g, pe) {
            Some(i) => i,
            None => break,
        };
        if g.entries[pi].node.next_nodes.len() != 1 {
            break;
        }
        if slot[pi] != UNHANDLED {
            break;
        }
        proof {
            lemma_find(g@, pe);
            assert(single_prev(g@, g@[start as int].entity) == Some(pe));
            assert(back_from(g@, se, visited@.len()) == Some(pe)) by {
                assert(back_from(g@, se, (visited@.len() - 1) as nat) == Some(visited@.last()));
            }
        }
        if crate::graph::contains(&visited, pe) {
            proof {
                let m = choose|m: int| 0 <= m < visited@.len() && visited@[m] == pe;
                assert(back_from(g@, se, m as nat) == Some(visited@[m]));
                assert(back_from(g@, se, m as nat) == back_from(g@, se, visited@.len()));
            }
            start = seed;
            break;
        }
        let ghost before = visited@;
        visited.push(pe);
        proof {
            assert forall|k: int| 0 <= k < visited@.len() implies slot@[find(g@, #[trigger] visited@[k])->Some_0] == UNHANDLED by {
                if k < before.len() {
                    assert(visited@[k] == before[k]);
                }
            }
            assert forall|k: int| 0 <= k < visited@.len() implies back_from(g@, se, k as nat) == Some(#[trigger] visited@[k]) by {
                if k < before.len() {
                    assert(visited@[k] == before[k]);
                }
            }
            assert forall|a: int, b: int| 0 <= a < b < visited@.len() implies visited@[a] != visited@[b] by {
                if b == before.len() {
                    assert(visited@[a] == before[a]);
                } else {
                    assert(visited@[a] == before[a] && visited@[b] == before[b]);
                }
            }
            assert forall|k: int| 0 <= k < visited@.len() implies has(g@, #[trigger] visited@[k]) by {
                if k < before.len() {
                    assert(visited@[k] == before[k]);
                }
            }
        }
        start = pi;
        proof {
            lemma_points_bound(g@, visited@);
        }
    }
    start
}

/// Opening a new chain at the unhandled entry `si` keeps the bookkeeping.
proof fn lemma_chain_open(
    g: Seq<EntryView>,
    slot0: Seq<usize>,
    slot: Seq<usize>,
    paths: Seq<Seq<EntityId>>,
    all: Seq<EntityId>,
    si: int,
    pidx: usize,
)
    requires
        well_formed(g),
        chains_ok(g, slot0, paths),
        handled_ok(g, slot0, all),
        pidx == paths.len(),
        pidx < UNHANDLED,
        0 <= si < g.len(),
        slot0[si] == UNHANDLED,
        slot == slot0.update(si, pidx),
    ensures
        chains_ok(g, slot, paths.push(seq![g[si].entity])),
        handled_ok(g, slot, all + seq![g[si].entity]),
{
    let e = g[si].entity;
    let path = seq![e];
    lemma_find(g, e);
    let ps = paths.push(path);
    assert forall|p: int, k: int| 0 <= p < ps.len() && 0 <= k < ps[p].len() implies has(
        g,
        #[trigger] ps[p][k],
    ) && slot[find(g, ps[p][k])->Some_0] == p by {
        if p < paths.len() {
            assert(ps[p] == paths[p]);
            assert(slot0[find(g, paths[p][k])->Some_0] == p);
            lemma_find(g, paths[p][k]);
        }
    }
    assert forall|i: int| #![trigger slot[i]]
        0 <= i < g.len() && slot[i] != UNHANDLED implies slot[i] < ps.len()
        && ps[slot[i] as int].contains(g[i].entity) by {
        if i == si {
            assert(ps[pidx as int][0] == e);
        } else {
            assert(slot0[i] != UNHANDLED);
            assert(paths[slot0[i] as int].contains(g[i].entity));
        }
    }
    assert forall|p: int| 0 <= p < ps.len() implies (#[trigger] ps[p]).len() >= 1 && ps[p].no_duplicates() by {
        if p < paths.len() {
            assert(ps[p] == paths[p]);
        }
    }
    assert forall|p: int, k: int| 0 <= p < ps.len() && 0 <= k < ps[p].len() - 1 implies #[trigger] single_link(
        g,
        ps[p][k],
        ps[p][k + 1],
    ) by {
        assert(ps[p] == paths[p]);
    }
    let all1 = all + path;
    assert(!all.contains(e)) by {
        assert(slot0[si] == UNHANDLED);
    }
    assert forall|a: int, b: int| 0 <= a < b < all1.len() implies all1[a] != all1[b] by {
        if b == all.len() {
            assert(all1[a] == all[a]);
        }
    }
    assert forall|k: int| 0 <= k < all1.len() implies has(g, #[trigger] all1[k]) by {
        if k < all.len() {
            assert(all1[k] == all[k]);
        }
    }
    assert forall|i: int| 0 <= i < g.len() implies (slot[i] != UNHANDLED <==> all1.contains(
        #[trigger] g[i].entity,
    )) by {
        if i == si {
            assert(all1[all.len() as int] == e);
        } else {
            assert(g[i].entity != e);
            if all.contains(g[i].entity) {
                let k = choose|k: int| 0 <= k < all.len() && all[k] == g[i].entity;
                assert(all1[k] == g[i].entity);
            }
            if all1.contains(g[i].entity) {
                let k = choose|k: int| 0 <= k < all1.len() && all1[k] == g[i].entity;
                if k < all.len() {
                    assert(all[k] == g[i].entity);
                }
            }
        }
    }
}

/// Extending the newest chain by the unhandled entry `ni`, the single
/// successor of its last point, keeps the bookkeeping.
proof fn lemma_chain_extend(
    g: Seq<EntryView>,
    slot1: Seq<usize>,
    slot: Seq<usize>,
    paths: Seq<Seq<EntityId>>,
    path1: Seq<EntityId>,
    all: Seq<EntityId>,
    ni: int,
    pidx: usize,
)
    requires
        well_formed(g),
        chains_ok(g, slot1, paths.push(path1)),
        handled_ok(g, slot1, all + path1),
        pidx == paths.len(),
        pidx < UNHANDLED,
        0 <= ni < g.len(),
        slot1[ni] == UNHANDLED,
        slot == slot1.update(ni, pidx),
        single_link(g, path1.last(), g[ni].entity),
    ensures
        chains_ok(g, slot, paths.push(path1.push(g[ni].entity))),
        handled_ok(g, slot, all + path1.push(g[ni].entity)),
{
    let ne = g[ni].entity;
    let path = path1.push(ne);
    let all1 = all + path1;
    lemma_find(g, ne);
    let ps1 = paths.push(path1);
    let ps = paths.push(path);
    assert(ps1[pidx as int] == path1);
    assert(path1.len() >= 1);
    assert(!all1.contains(ne));
    assert forall|p: int, k: int| 0 <= p < ps.len() && 0 <= k < ps[p].len() implies has(
        g,
        #[trigger] ps[p][k],
    ) && slot[find(g, ps[p][k])->Some_0] == p by {
        if p < paths.len() {
            assert(ps[p] == ps1[p]);
            assert(slot1[find(g, ps1[p][k])->Some_0] == p);
            lemma_find(g, ps1[p][k]);
        } else if k < path1.len() {
            assert(ps[p][k] == ps1[p][k]);
            assert(slot1[find(g, ps1[p][k])->Some_0] == p);
            lemma_find(g, ps1[p][k]);
        } else {
            assert(ps[p][k] == ne);
        }
    }
    assert forall|i: int| #![trigger slot[i]]
        0 <= i < g.len() && slot[i] != UNHANDLED implies slot[i] < ps.len()
        && ps[slot[i] as int].contains(g[i].entity) by {
        if i == ni {
            assert(ps[pidx as int][path1.len() as int] == ne);
        } else {
            assert(slot1[i] != UNHANDLED);
            assert(ps1[slot1[i] as int].contains(g[i].entity));
            let k = choose|k: int| 0 <= k < ps1[slot1[i] as int].len() && ps1[slot1[i] as int][k] == g[i].entity;
            assert(ps[slot1[i] as int][k] == g[i].entity);
        }
    }
    assert forall|p: int| 0 <= p < ps.len() implies (#[trigger] ps[p]).len() >= 1 && ps[p].no_duplicates() by {
        if p < paths.len() {
            assert(ps[p] == ps1[p]);
        } else {
            assert forall|a: int, b: int| 0 <= a < b < path.len() implies path[a] != path[b] by {
                if b == path1.len() {
                    assert(path[a] == path1[a]);
                    assert(all1[all.len() + a] == path1[a]);
                } else {
                    assert(path[a] == path1[a] && path[b] == path1[b]);
                }
            }
        }
    }
    assert forall|p: int, k: int| 0 <= p < ps.len() && 0 <= k < ps[p].len() - 1 implies #[trigger] single_link(
        g,
        ps[p][k],
        ps[p][k + 1],
    ) by {
        if p < paths.len() {
            assert(ps[p] == ps1[p]);
        } else if k < path1.len() - 1 {
            assert(ps[p][k] == ps1[p][k] && ps[p][k + 1] == ps1[p][k + 1]);
            assert(single_link(g, ps1[p][k], ps1[p][k + 1]));
        } else {
            assert(ps[p][k] == path1.last());
            assert(ps[p][k + 1] == ne);
        }
    }
    let all2 = all + path;
    assert(all2 =~= all1.push(ne));
    assert forall|a: int, b: int| 0 <= a < b < all2.len() implies all2[a] != all2[b] by {
        if b == all1.len() {
            assert(all2[a] == all1[a]);
        } else {
            assert(all2[a] == all1[a] && all2[b] == all1[b]);
        }
    }
    assert forall|k: int| 0 <= k < all2.len() implies has(g, #[trigger] all2[k]) by {
        if k < all1.len() {
            assert(all2[k] == all1[k]);
        }
    }
    assert forall|i: int| 0 <= i < g.len() implies (slot[i] != UNHANDLED <==> all2.contains(
        #[trigger] g[i].entity,
    )) by {
        if i == ni {
            assert(all2[all1.len() as int] == ne);
        } else {
            assert(g[i].entity != ne);
            if all1.contains(g[i].entity) {
                let k = choose|k: int| 0 <= k < all1.len() && all1[k] == g[i].entity;
                assert(all2[k] == g[i].entity);
            }
            if all2.contains(g[i].entity) {
                let k = choose|k: int| 0 <= k < all2.len() && all2[k] == g[i].entity;
                if k < all1.len() {
                    assert(all1[k] == g[i].entity);
                }
            }
        }
    }
}

/// The single successor of `a`, when `a` has one successor, which is a path
/// point with a single predecessor.
pub open spec fn single_next(g: Seq<EntryView>, a: EntityId) -> Option<EntityId> {
    if node(g, a).next.len() == 1 && has(g, node(g, a).next[0]) && node(g, node(g, a).next[0]).prev.len() == 1 {
        Some(node(g, a).next[0])
    } else {
        None
    }
}

/// The single predecessor of `a`, when `a` has one predecessor, which is a
/// path point with a single successor.
pub open spec fn single_prev(g: Seq<EntryView>, a: EntityId) -> Option<EntityId> {
    if node(g, a).prev.len() == 1 && has(g, node(g, a).prev[0]) && node(g, node(g, a).prev[0]).next.len() == 1 {
        Some(node(g, a).prev[0])
    } else {
        None
    }
}

/// The point `k` single predecessors back from `a`, if the walk gets there.
pub open spec fn back_from(g: Seq<EntryView>, a: EntityId, k: nat) -> Option<EntityId>
    decreases k,
{
    if k == 0 {
        Some(a)
    } else {
        match back_from(g, a, (k - 1) as nat) {
            Some(b) => single_prev(g, b),
            None => None,
        }
    }
}

/// Walking back from `a` over single predecessors comes round to a point
/// already passed.
pub open spec fn back_cycles(g: Seq<EntryView>, a: EntityId) -> bool {
    exists|i: nat, j: nat| i < j && back_from(g, a, j) is Some && #[trigger] back_from(g, a, i) == #[trigger] back_from(g, a, j)
}

/// The first `k` steps back from `se` reach live, unhandled, distinct points.
spec fn back_path_ok(g: Seq<EntryView>, slot: Seq<usize>, se: EntityId, k: nat) -> bool {
    &&& forall|i: nat|
        i <= k ==> #[trigger] back_from(g, se, i) is Some && has(g, back_from(g, se, i)->Some_0) && slot[find(
            g,
            back_from(g, se, i)->Some_0,
        )->Some_0] == UNHANDLED
    &&& forall|i: nat, j: nat| i < j <= k ==> #[trigger] back_from(g, se, i) != #[trigger] back_from(g, se, j)
}

/// With links recorded at both ends, the single predecessor of `x` has `x`
/// as its single successor.
proof fn lemma_prev_then_next(g: Seq<EntryView>, x: EntityId)
    requires
        well_formed(g),
        reciprocal(g),
        has(g, x),
        single_prev(g, x) is Some,
    ensures
        single_next(g, single_prev(g, x)->Some_0) == Some(x),
        node(g, single_prev(g, x)->Some_0).next == seq![x],
{
    lemma_find(g, x);
    let i = find(g, x)->Some_0;
    let y = single_prev(g, x)->Some_0;
    assert(g[i].prev[0] == y);
    assert(node(g, g[i].prev[0]).next.contains(g[i].entity));
    assert(node(g, y).next =~= seq![x]);
}

/// Positions along a chain opened `k` steps back from `se` retrace the walk.
proof fn lemma_chain_retraces(
    g: Seq<EntryView>,
    slot1: Seq<usize>,
    paths: Seq<Seq<EntityId>>,
    path: Seq<EntityId>,
    se: EntityId,
    k: nat,
    slot0: Seq<usize>,
    t: nat,
)
    requires
        well_formed(g),
        reciprocal(g),
        chains_ok(g, slot1, paths.push(path)),
        back_from(g, se, k) == Some(path[0]),
        back_path_ok(g, slot0, se, k),
        t < path.len(),
        t <= k,
    ensures
        back_from(g, se, (k - t) as nat) == Some(path[t as int]),
    decreases t,
{
    if t > 0 {
        lemma_chain_retraces(g, slot1, paths, path, se, k, slot0, (t - 1) as nat);
        let m = (k - t) as nat;
        assert(back_from(g, se, m) is Some);
        let y = back_from(g, se, m)->Some_0;
        assert(back_from(g, se, (m + 1) as nat) == single_prev(g, y));
        assert((k - (t - 1)) as nat == (m + 1) as nat);
        lemma_prev_then_next(g, y);
        let pl = paths.len() as int;
        assert(paths.push(path)[pl] == path);
        assert(single_link(g, paths.push(path)[pl][t - 1], paths.push(path)[pl][t - 1 + 1]));
    }
}

/// A chain opened `k` steps back from `se` over unhandled points runs forward
/// through `se`, when links are recorded at both ends.
proof fn lemma_chain_reaches_seed(
    g: Seq<EntryView>,
    slot0: Seq<usize>,
    slot1: Seq<usize>,
    paths: Seq<Seq<EntityId>>,
    path: Seq<EntityId>,
    se: EntityId,
    k: nat,
)
    requires
        well_formed(g),
        reciprocal(g),
        chains_ok(g, slot0, paths),
        chains_ok(g, slot1, paths.push(path)),
        paths.len() < UNHANDLED,
        path.len() >= 1,
        back_from(g, se, k) == Some(path[0]),
        back_path_ok(g, slot0, se, k),
        forward_closed(g, slot1, paths.len() as int, path.last()),
    ensures
        path.contains(se),
{
    let pidx = paths.len() as int;
    if path.len() > k {
        lemma_chain_retraces(g, slot1, paths, path, se, k, slot0, k);
        assert(back_from(g, se, 0) == Some(se));
        assert(path[k as int] == se);
    } else {
        let l = path.len() as nat;
        lemma_chain_retraces(g, slot1, paths, path, se, k, slot0, (l - 1) as nat);
        let m = (k - l) as nat;
        let x = path.last();
        assert(back_from(g, se, (m + 1) as nat) == Some(x));
        assert(back_from(g, se, m) is Some);
        let y = back_from(g, se, m)->Some_0;
        assert(back_from(g, se, (m + 1) as nat) == single_prev(g, y));
        lemma_prev_then_next(g, y);
        lemma_find(g, y);
        let fy = find(g, y)->Some_0;
        assert(slot0[fy] == UNHANDLED);
        assert(slot1[fy] <= pidx);
        let q = slot1[fy] as int;
        assert(paths.push(path)[q].contains(g[fy].entity));
        if q < pidx {
            let pos = choose|pos: int| 0 <= pos < paths[q].len() && paths[q][pos] == y;
            assert(slot0[find(g, paths[q][pos])->Some_0] == q);
            assert(false);
        } else {
            assert(paths.push(path)[q] == path);
            let tp = choose|tp: int| 0 <= tp < path.len() && path[tp] == y;
            lemma_chain_retraces(g, slot1, paths, path, se, k, slot0, tp as nat);
            assert(back_from(g, se, (k - tp) as nat) == Some(y));
            assert(m < (k - tp) as nat);
            assert(back_from(g, se, m) != back_from(g, se, (k - tp) as nat));
        }
    }
}

/// A chain ending at `a` stops only where its single link cannot continue or
/// where the next point is already in chain `p` or an earlier one.
spec fn forward_closed(g: Seq<EntryView>, slot: Seq<usize>, p: int, a: EntityId) -> bool {
    single_next(g, a) matches Some(b) ==> slot[find(g, b)->Some_0] <= p
}

/// A chain starting at `a` opens there only where no single link leads in,
/// where the point before is in an earlier chain, where walking back comes
/// round, or at the overall start of the first chain.
spec fn backward_closed(g: Seq<EntryView>, slot: Seq<usize>, p: int, a: EntityId, anchored: bool, se: EntityId) -> bool {
    single_prev(g, a) matches Some(x) ==> slot[find(g, x)->Some_0] < p || (back_cycles(g, a) && a == se) || (p == 0
        && anchored)
}

/// Chain `p` opens where no single link leads in from a point outside the
/// earlier chains, unless walking back from its first point comes round (a
/// cycle then opens at its first point in editor order that no earlier chain
/// holds) or it is the first chain, opened at the overall start.
pub open spec fn opens_after(g: Seq<EntryView>, paths: Seq<Seq<EntityId>>, p: int) -> bool {
    single_prev(g, paths[p][0]) matches Some(x) ==> (exists|q: int| 0 <= q < p && #[trigger] paths[q].contains(x))
        || (back_cycles(g, paths[p][0]) && first_in_rest(g, paths, p, paths[p][0])) || (p == 0 && exists|f: int|
        is_first_start(g, f))
}

/// `e` is the first point, in editor order, that no chain before `p` holds.
pub open spec fn first_in_rest(g: Seq<EntryView>, paths: Seq<Seq<EntityId>>, p: int, e: EntityId) -> bool {
    exists|i: int|
        0 <= i < g.len() && g[i].entity == e && in_no_group_before(paths, p, e) && forall|j: int|
            0 <= j < g.len() && #[trigger] in_no_group_before(paths, p, g[j].entity) ==> !before(g, j, i)
}

/// No chain before `p` holds `e`.
pub open spec fn in_no_group_before(paths: Seq<Seq<EntityId>>, p: int, e: EntityId) -> bool {
    forall|q: int| 0 <= q < p ==> !(#[trigger] paths[q].contains(e))
}

/// Chain `p` holds the first point in editor order that no earlier chain
/// holds.
pub open spec fn holds_first_remaining(g: Seq<EntryView>, paths: Seq<Seq<EntityId>>, p: int) -> bool {
    forall|i: int|
        #![trigger in_no_group_before(paths, p, g[i].entity)]
        0 <= i < g.len() && in_no_group_before(paths, p, g[i].entity) && (forall|j: int|
            0 <= j < g.len() && #[trigger] in_no_group_before(paths, p, g[j].entity) ==> !before(g, j, i)) ==> paths[p].contains(
            g[i].entity,
        )
}

/// Entry `s` is in no chain before `p`, and first in editor order among the
/// points that no earlier chain holds.
spec fn seed_min(g: Seq<EntryView>, views: Seq<Seq<EntityId>>, p: int, s: int) -> bool {
    &&& 0 <= s < g.len()
    &&& in_no_group_before(views, p, g[s].entity)
    &&& forall|j: int| 0 <= j < g.len() && #[trigger] in_no_group_before(views, p, g[j].entity) ==> !before(g, j, s)
}

/// Entry `s` seeded chain `p`: it is in that chain and first in editor order
/// among the points that no earlier chain holds.
spec fn seed_ok(g: Seq<EntryView>, views: Seq<Seq<EntityId>>, p: int, s: int) -> bool {
    &&& seed_min(g, views, p, s)
    &&& views[p].contains(g[s].entity)
}

/// Views of the chains.
pub open spec fn chain_views(paths: Seq<Vec<EntityId>>) -> Seq<Seq<EntityId>> {
    Seq::new(paths.len(), |i: int| paths[i]@)
}

/// Start a chain at `start` and extend it over single links through
/// unhandled points, marking its points with the chain's index.
fn extend_chain(
    g: &PathGraph,
    slot: &mut Vec<usize>,
    start: usize,
    pidx: usize,
    Ghost(paths): Ghost<Seq<Seq<EntityId>>>,
    Ghost(all): Ghost<Seq<EntityId>>,
) -> (path: Vec<EntityId>)
    requires
        well_formed(g@),
        chains_ok(g@, old(slot)@, paths),
        handled_ok(g@, old(slot)@, all),
        pidx == paths.len(),
        pidx < UNHANDLED,
        start < g@.len(),
        old(slot)@[start as int] == UNHANDLED,
    ensures
        chains_ok(g@, final(slot)@, paths.push(path@)),
        handled_ok(g@, final(slot)@, all + path@),
        path@.len() >= 1,
        path@[0] == g@[start as int].entity,
        forall|i: int| 0 <= i < g@.len() && old(slot)@[i] != UNHANDLED ==> #[trigger] final(slot)@[i] == old(slot)@[i],
        forward_closed(g@, final(slot)@, pidx as int, path@.last()),
{
    let mut path: Vec<EntityId> = Vec::new();
    let e = g.entries[start].entity;
    let ghost slot0 = slot@;
    path.push(e);
    slot.set(start, pidx);
    proof {
        assert(path@ =~= seq![e]);
        lemma_chain_open(g@, slot0, slot@, paths, all, start as int, pidx);
    }
    let mut cur = start;
    loop
        invariant
            well_formed(g@),
            chains_ok(g@, slot@, paths.push(path@)),
            handled_ok(g@, slot@, all + path@),
            pidx == paths.len(),
            pidx < UNHANDLED,
            cur < g@.len(),
            path@.len() >= 1,
            path@[0] == g@[start as int].entity,
            path@.last() == g@[cur as int].entity,
            slot@.len() == old(slot)@.len(),
            forall|i: int| 0 <= i < g@.len() && old(slot)@[i] != UNHANDLED ==> #[trigger] slot@[i] == old(slot)@[i],
        ensures
            forward_closed(g@, slot@, pidx as int, path@.last()),
        decreases g@.len() - (all + path@).len(),
    {
        proof {
            lemma_points_bound(g@, all + path@);
        }
        proof {
            lemma_find(g@, g@[cur as int].entity);
            assert(node(g@, path@.last()) == g@[cur as int]);
        }
        if g.entries[cur].node.next_nodes.len() != 1 {
            break;
        }
        let ne = g.entries[cur].node.next_nodes[0];
        let ni = match find_entry(g, ne) {
            Some(i) => i,
            None => break,
        };
        proof {
            lemma_find(g@, ne);
            assert(node(g@, ne) == g@[ni as int]);
        }
        if slot[ni] != UNHANDLED {
            proof {
                assert(slot@[ni as int] < paths.len() + 1);
            }
            break;
        }
        if g.entries[ni].node.prev_nodes.len() != 1 {
            break;
        }
        let ghost slot1 = slot@;
        let ghost path1 = path@;
        proof {
            lemma_find(g@, ne);
            lemma_find(g@, g@[cur as int].entity);
            assert(g@[ni as int].entity == ne);
            assert(node(g@, path1.last()) == g@[cur as int]);
            assert(g@[cur as int].next =~= seq![ne]);
            assert(node(g@, ne) == g@[ni as int]);
        }
        path.push(ne);
        slot.set(ni, pidx);
        cur = ni;
        proof {
            lemma_chain_extend(g@, slot1, slot@, paths, path1, all, ni as int, pidx);
            lemma_points_bound(g@, all + path@);
        }
    }
    path
}

/// Strictly ascending.
pub open spec fn ascending(v: Seq<usize>) -> bool {
    forall|a: int, b: int| 0 <= a < b < v.len() ==> v[a] < v[b]
}

/// Add `x` to an ascending list unless it is listed.
pub fn insert_sorted(v: &mut Vec<usize>, x: usize)
    requires
        ascending(old(v)@),
    ensures
        ascending(final(v)@),
        forall|y: usize| final(v)@.contains(y) <==> old(v)@.contains(y) || y == x,
        final(v)@.len() <= old(v)@.len() + 1,
{
    let mut i: usize = 0;
    while i < v.len() && v[i] < x
        invariant
            i <= v@.len(),
            v@ == old(v)@,
            forall|k: int| 0 <= k < i ==> v@[k] < x,
        decreases v@.len() - i,
    {
        i += 1;
    }
    if i < v.len() && v[i] == x {
        return;
    }
    let ghost before = v@;
    v.insert(i, x);
    proof {
        assert(forall|k: int| 0 <= k < i ==> v@[k] == before[k]);
        assert(v@[i as int] == x);
        assert(forall|k: int| i < k < v@.len() ==> v@[k] == before[k - 1]);
        assert forall|a: int, b: int| 0 <= a < b < v@.len() implies v@[a] < v@[b] by {
            if b < i {
            } else if b == i {
            } else if a < i {
                assert(before[a] < x);
                assert(x <= before[i as int]);
            } else if a == i {
                assert(x <= before[i as int]);
                assert(before[i as int] <= before[b - 1]);
            } else {
                assert(before[a - 1] < before[b - 1]);
            }
        }
        assert forall|y: usize| v@.contains(y) <==> before.contains(y) || y == x by {
            if before.contains(y) {
                let k = choose|k: int| 0 <= k < before.len() && before[k] == y;
                if k < i {
                    assert(v@[k] == y);
                } else {
                    assert(v@[k + 1] == y);
                }
            }
            if v@.contains(y) && y != x {
                let k = choose|k: int| 0 <= k < v@.len() && v@[k] == y;
                if k < i {
                    assert(before[k] == y);
                } else if k > i {
                    assert(before[k - 1] == y);
                }
            }
        }
    }
}

proof fn lemma_member_chain(g: Seq<EntryView>, slot: Seq<usize>, views: Seq<Seq<EntityId>>, ne: EntityId, j: int)
    requires
        well_formed(g),
        chains_ok(g, slot, views),
        0 <= j < views.len(),
        views[j].contains(ne),
    ensures
        has(g, ne),
        slot[find(g, ne)->Some_0] == j,
{
    let k = choose|k: int| 0 <= k < views[j].len() && views[j][k] == ne;
    assert(has(g, views[j][k]));
}

/// The chains' links: list `i` holds, ascending, the chains that start at a
/// successor of the last point of chain `i`.
fn next_links(g: &PathGraph, slot: &Vec<usize>, paths: &Vec<Vec<EntityId>>) -> (lists: Vec<Vec<usize>>)
    requires
        well_formed(g@),
        chains_ok(g@, slot@, chain_views(paths@)),
        forall|j: int| 0 <= j < g@.len() ==> slot@[j] != UNHANDLED,
    ensures
        lists@.len() == paths@.len(),
        forall|a: int| 0 <= a < lists@.len() ==> ascending(#[trigger] lists@[a]@),
        forall|a: int, j: usize|
            0 <= a < lists@.len() ==> ((#[trigger] lists@[a]@.contains(j)) <==> (j < paths@.len()
                && chain_follows(g@, chain_views(paths@), a, j as int))),
{
    let ghost views = chain_views(paths@);
    let np = paths.len();
    let mut lists: Vec<Vec<usize>> = Vec::new();
    let mut i: usize = 0;
    while i < np
        invariant
            well_formed(g@),
            np == paths@.len(),
            views == chain_views(paths@),
            chains_ok(g@, slot@, views),
            forall|j: int| 0 <= j < g@.len() ==> slot@[j] != UNHANDLED,
            i <= np,
            lists@.len() == i,
            forall|a: int| 0 <= a < i ==> ascending(#[trigger] lists@[a]@),
            forall|a: int, j: usize|
                0 <= a < i ==> ((#[trigger] lists@[a]@.contains(j)) <==> (j < np && chain_follows(
                    g@,
                    views,
                    a,
                    j as int,
                ))),
        decreases np - i,
    {
        assert(views[i as int] == paths@[i as int]@);
        assert(views[i as int].len() >= 1);
        let last = paths[i][paths[i].len() - 1];
        assert(views[i as int].last() == last);
        assert(has(g@, views[i as int][views[i as int].len() - 1]));
        let li = find_entry(g, last).unwrap();
        proof {
            lemma_find(g@, last);
            assert(node(g@, last) == g@[li as int]);
        }
        let succ = &g.entries[li].node.next_nodes;
        let mut list: Vec<usize> = Vec::new();
        let mut k: usize = 0;
        while k < succ.len()
            invariant
                well_formed(g@),
                np == paths@.len(),
                views == chain_views(paths@),
                chains_ok(g@, slot@, views),
                forall|j: int| 0 <= j < g@.len() ==> slot@[j] != UNHANDLED,
                i < np,
                succ@ == node(g@, views[i as int].last()).next,
                k <= succ@.len(),
                ascending(list@),
                forall|j: usize|
                    (#[trigger] list@.contains(j)) <==> (j < np && exists|m: int|
                        0 <= m < k && views[j as int].contains(#[trigger] succ@[m])),
            decreases succ@.len() - k,
        {
            let ne = succ[k];
            match find_entry(g, ne) {
                Some(ni) => {
                    proof {
                        lemma_find(g@, ne);
                    }
                    let j = slot[ni];
                    proof {
                        assert(slot@[ni as int] != UNHANDLED);
                        assert(views[j as int].contains(g@[ni as int].entity));
                    }
                    let ghost before = list@;
                    insert_sorted(&mut list, j);
                    proof {
                        assert forall|j2: usize|
                            (#[trigger] list@.contains(j2)) <==> (j2 < np && exists|m: int|
                                0 <= m < k + 1 && views[j2 as int].contains(#[trigger] succ@[m])) by {
                            if j2 < np && views[j2 as int].contains(ne) {
                                lemma_member_chain(g@, slot@, views, ne, j2 as int);
                            }
                            if j2 == j {
                                assert(views[j2 as int].contains(succ@[k as int]));
                            }
                            if j2 < np && exists|m: int| 0 <= m < k + 1 && views[j2 as int].contains(#[trigger] succ@[m]) {
                                let m = choose|m: int| 0 <= m < k + 1 && views[j2 as int].contains(#[trigger] succ@[m]);
                                if m < k {
                                    assert(before.contains(j2));
                                }
                            }
                        }
                    }
                },
                None => {
                    proof {
                        assert forall|j2: usize|
                            (#[trigger] list@.contains(j2)) <==> (j2 < np && exists|m: int|
                                0 <= m < k + 1 && views[j2 as int].contains(#[trigger] succ@[m])) by {
                            if j2 < np && views[j2 as int].contains(ne) {
                                lemma_member_chain(g@, slot@, views, ne, j2 as int);
                            }
                            if j2 < np && exists|m: int| 0 <= m < k + 1 && views[j2 as int].contains(#[trigger] succ@[m]) {
                                let m = choose|m: int| 0 <= m < k + 1 && views[j2 as int].contains(#[trigger] succ@[m]);
                                if m == k {
                                    lemma_member_chain(g@, slot@, views, ne, j2 as int);
                                }
                            }
                        }
                    }
                },
            }
            k += 1;
        }
        proof {
            assert forall|j: usize|
                (#[trigger] list@.contains(j)) <==> (j < np && chain_follows(g@, views, i as int, j as int)) by {
                if j < np && chain_follows(g@, views, i as int, j as int) {
                    let nn = choose|nn: EntityId| #[trigger] node(g@, views[i as int].last()).next.contains(nn)
                        && views[j as int].contains(nn);
                    let m = choose|m: int| 0 <= m < succ@.len() && succ@[m] == nn;
                    assert(views[j as int].contains(succ@[m]));
                }
                if list@.contains(j) {
                    let m = choose|m: int| 0 <= m < succ@.len() && views[j as int].contains(#[trigger] succ@[m]);
                    assert(node(g@, views[i as int].last()).next.contains(succ@[m]));
                }
            }
        }
        lists.push(list);
        i += 1;
    }
    lists
}

/// `i` is the first overall start in editor order.
pub open spec fn is_first_start(g: Seq<EntryView>, i: int) -> bool {
    &&& 0 <= i < g.len()
    &&& g[i].overall_start
    &&& forall|j: int| 0 <= j < g.len() && g[j].overall_start ==> !before(g, j, i)
}

/// The point lists of the groups.
pub open spec fn group_paths(groups: Seq<EntityPathGroup>) -> Seq<Seq<EntityId>> {
    Seq::new(groups.len(), |i: int| groups[i].path@)
}

fn list_contains(v: &Vec<usize>, x: usize) -> (r: bool)
    ensures
        r == v@.contains(x),
{
    let mut i: usize = 0;
    while i < v.len()
        invariant
            i <= v@.len(),
            forall|k: int| 0 <= k < i ==> v@[k] != x,
        decreases v@.len() - i,
    {
        if v[i] == x {
            return true;
        }
        i += 1;
    }
    false
}

/// The reverse links: list `j` holds, ascending, every `i` whose list holds `j`.
fn prev_links(nexts: &Vec<Vec<usize>>) -> (prevs: Vec<Vec<usize>>)
    ensures
        prevs@.len() == nexts@.len(),
        forall|a: int| 0 <= a < prevs@.len() ==> ascending(#[trigger] prevs@[a]@),
        forall|a: int, i: usize|
            0 <= a < prevs@.len() ==> ((#[trigger] prevs@[a]@.contains(i)) <==> (i < nexts@.len()
                && nexts@[i as int]@.contains(a as usize))),
{
    let n = nexts.len();
    let mut prevs: Vec<Vec<usize>> = Vec::new();
    let mut j: usize = 0;
    while j < n
        invariant
            n == nexts@.len(),
            j <= n,
            prevs@.len() == j,
            forall|a: int| 0 <= a < j ==> ascending(#[trigger] prevs@[a]@),
            forall|a: int, i: usize|
                0 <= a < j ==> ((#[trigger] prevs@[a]@.contains(i)) <==> (i < n && nexts@[i as int]@.contains(
                    a as usize,
                ))),
        decreases n - j,
    {
        let mut list: Vec<usize> = Vec::new();
        let mut i: usize = 0;
        while i < n
            invariant
                n == nexts@.len(),
                j < n,
                i <= n,
                ascending(list@),
                forall|k: int| 0 <= k < list@.len() ==> list@[k] < i,
                forall|x: usize| (#[trigger] list@.contains(x)) <==> (x < i && nexts@[x as int]@.contains(j)),
            decreases n - i,
        {
            if list_contains(&nexts[i], j) {
                let ghost before = list@;
                list.push(i);
                proof {
                    assert forall|x: usize| (#[trigger] list@.contains(x)) <==> (x < i + 1 && nexts@[x as int]@.contains(j)) by {
                        if x == i {
                            assert(list@[before.len() as int] == i);
                        }
                        if list@.contains(x) && x != i {
                            let k = choose|k: int| 0 <= k < list@.len() && list@[k] == x;
                            assert(before[k] == x);
                            assert(before.contains(x));
                        }
                        if x < i && nexts@[x as int]@.contains(j) {
                            assert(before.contains(x));
                            let k = choose|k: int| 0 <= k < before.len() && before[k] == x;
                            assert(list@[k] == x);
                        }
                    }
                }
            }
            i += 1;
        }
        prevs.push(list);
        proof {
            assert(prevs@[j as int]@ == list@);
        }
        j += 1;
    }
    prevs
}

/// Decompose the path graph into groups: maximal runs of points joined by
/// single links, with the links between groups. The first group starts at
/// the first overall start; every other group is seeded by the first point,
/// in editor order, that no earlier group holds, walked back to where its run
/// begins (a run that comes round in a cycle begins at its seed).
pub fn traverse(g: &PathGraph) -> (groups: Vec<EntityPathGroup>)
    requires
        well_formed(g@),
        g@.len() < UNHANDLED,
    ensures
        partition(g@, group_paths(groups@)),
        forall|p: int| 0 <= p < groups@.len() ==> (#[trigger] groups@[p]).path@.len() >= 1,
        forall|p: int, k: int|
            0 <= p < groups@.len() && 0 <= k < groups@[p].path@.len() - 1 ==> #[trigger] single_link(
                g@,
                groups@[p].path@[k],
                groups@[p].path@[k + 1],
            ),
        forall|p: int|
            0 <= p < groups@.len() ==> ascending((#[trigger] groups@[p]).next_paths@) && ascending(
                groups@[p].prev_paths@,
            ),
        forall|p: int, j: usize|
            0 <= p < groups@.len() ==> ((#[trigger] groups@[p].next_paths@.contains(j)) <==> (j < groups@.len()
                && chain_follows(g@, group_paths(groups@), p, j as int))),
        forall|p: int, j: usize|
            0 <= p < groups@.len() ==> ((#[trigger] groups@[p].prev_paths@.contains(j)) <==> (j < groups@.len()
                && chain_follows(g@, group_paths(groups@), j as int, p))),
        g@.len() == 0 <==> groups@.len() == 0,
        forall|f: int| is_first_start(g@, f) ==> groups@[0].path@[0] == g@[f].entity,
        forall|p: int|
            0 <= p < groups@.len() ==> (single_next(g@, (#[trigger] groups@[p]).path@.last()) matches Some(b) ==> exists|q: int|
                0 <= q <= p && groups@[q].path@.contains(b)),
        forall|p: int| 0 <= p < groups@.len() ==> #[trigger] opens_after(g@, group_paths(groups@), p),
        reciprocal(g@) ==> forall|p: int|
            0 <= p < groups@.len() && !(p == 0 && exists|f: int| is_first_start(g@, f)) ==> #[trigger] holds_first_remaining(
                g@,
                group_paths(groups@),
                p,
            ),
{
    let n = g.entries.len();
    let mut slot: Vec<usize> = Vec::new();
    while slot.len() < n
        invariant
            n == g@.len(),
            slot@.len() <= n,
            forall|k: int| 0 <= k < slot@.len() ==> slot@[k] == UNHANDLED,
        decreases n - slot@.len(),
    {
        slot.push(UNHANDLED);
    }
    let first = first_in_order(g, &slot, true);
    proof {
        assert forall|j: int| 0 <= j < g@.len() implies slot@[j] == UNHANDLED by {}
        if first is None {
            assert forall|j: int| 0 <= j < g@.len() implies !g@[j].overall_start by {
                assert(slot@[j] == UNHANDLED);
            }
        }
    }
    let mut paths: Vec<Vec<EntityId>> = Vec::new();
    let ghost mut all: Seq<EntityId> = Seq::empty();
    let ghost mut seeds: Seq<int> = Seq::empty();
    proof {
        assert(chains_ok(g@, slot@, chain_views(paths@)));
        assert(handled_ok(g@, slot@, all));
    }
    loop
        invariant
            well_formed(g@),
            n == g@.len(),
            n < UNHANDLED,
            chains_ok(g@, slot@, chain_views(paths@)),
            handled_ok(g@, slot@, all),
            paths@.len() <= all.len(),
            first matches Some(f) ==> is_first_start(g@, f as int),
            first is None ==> forall|j: int| 0 <= j < g@.len() ==> !g@[j].overall_start,
            paths@.len() == 0 ==> forall|j: int| 0 <= j < g@.len() ==> slot@[j] == UNHANDLED,
            paths@.len() > 0 && first is Some ==> paths@[0]@[0] == g@[first->Some_0 as int].entity,
            n > 0 ==> paths@.len() > 0 || all.len() == 0,
            forall|p: int| 0 <= p < paths@.len() ==> forward_closed(g@, slot@, p, #[trigger] paths@[p]@.last()),
            forall|p: int|
                0 <= p < paths@.len() ==> backward_closed(
                    g@,
                    slot@,
                    p,
                    #[trigger] paths@[p]@[0],
                    first is Some,
                    g@[seeds[p]].entity,
                ),
            seeds.len() == paths@.len(),
            forall|p: int| 0 <= p < paths@.len() ==> 0 <= #[trigger] seeds[p] < g@.len(),
            forall|p: int|
                0 <= p < paths@.len() && !(p == 0 && first is Some) ==> #[trigger] seed_min(
                    g@,
                    chain_views(paths@),
                    p,
                    seeds[p],
                ),
            reciprocal(g@) ==> forall|p: int|
                0 <= p < paths@.len() && !(p == 0 && first is Some) ==> #[trigger] seed_ok(
                    g@,
                    chain_views(paths@),
                    p,
                    seeds[p],
                ),
        ensures
            forall|j: int| 0 <= j < g@.len() ==> slot@[j] != UNHANDLED,
        decreases n - all.len(),
    {
        proof {
            lemma_points_bound(g@, all);
        }
        let seed = match first_in_order(g, &slot, false) {
            Some(s) => s,
            None => break,
        };
        let start = if paths.len() == 0 && first.is_some() {
            first.unwrap()
        } else {
            walk_back(g, &slot, seed)
        };
        let ghost views0 = chain_views(paths@);
        let pidx = paths.len();
        let ghost slot_before = slot@;
        let path = extend_chain(g, &mut slot, start, pidx, Ghost(views0), Ghost(all));
        let ghost path_view = path@;
        proof {
            if !(pidx == 0 && first is Some) {
                assert forall|q: int| 0 <= q < pidx implies !(#[trigger] views0[q].contains(g@[seed as int].entity)) by {
                    if views0[q].contains(g@[seed as int].entity) {
                        let pos = choose|pos: int| 0 <= pos < views0[q].len() && views0[q][pos] == g@[seed as int].entity;
                        lemma_find(g@, g@[seed as int].entity);
                        assert(slot_before[find(g@, views0[q][pos])->Some_0] == q);
                    }
                }
                assert forall|j: int| 0 <= j < g@.len() && in_no_group_before(views0, pidx as int, g@[j].entity) implies !before(
                    g@,
                    j,
                    seed as int,
                ) by {
                    if slot_before[j] != UNHANDLED {
                        assert(views0[slot_before[j] as int].contains(g@[j].entity));
                    }
                }
                assert(seed_min(g@, views0.push(path@), pidx as int, seed as int)) by {
                    assert forall|e: EntityId| #[trigger] in_no_group_before(views0.push(path@), pidx as int, e)
                        == in_no_group_before(views0, pidx as int, e) by {
                        assert forall|q: int| 0 <= q < pidx implies views0.push(path@)[q] == views0[q] by {}
                    }
                }
            }
            if reciprocal(g@) && !(pidx == 0 && first is Some) {
                lemma_find(g@, g@[seed as int].entity);
                if start != seed {
                    let k = choose|k: nat|
                        1 <= k && back_from(g@, g@[seed as int].entity, k) == Some(g@[start as int].entity)
                            && #[trigger] back_path_ok(g@, slot_before, g@[seed as int].entity, k);
                    lemma_chain_reaches_seed(g@, slot_before, slot@, views0, path@, g@[seed as int].entity, k);
                } else {
                    assert(path@[0] == g@[seed as int].entity);
                }
                assert forall|q: int| 0 <= q < pidx implies !(#[trigger] views0[q].contains(g@[seed as int].entity)) by {
                    if views0[q].contains(g@[seed as int].entity) {
                        let pos = choose|pos: int| 0 <= pos < views0[q].len() && views0[q][pos] == g@[seed as int].entity;
                        assert(slot_before[find(g@, views0[q][pos])->Some_0] == q);
                    }
                }
                assert forall|j: int| 0 <= j < g@.len() && in_no_group_before(views0, pidx as int, g@[j].entity) implies !before(
                    g@,
                    j,
                    seed as int,
                ) by {
                    if slot_before[j] != UNHANDLED {
                        assert(views0[slot_before[j] as int].contains(g@[j].entity));
                    }
                }
            }
        }
        proof {
            assert forall|p: int| 0 <= p < paths@.len() implies backward_closed(
                g@,
                slot@,
                p,
                #[trigger] paths@[p]@[0],
                first is Some,
                g@[seeds[p]].entity,
            ) by {
                assert(backward_closed(g@, slot_before, p, paths@[p]@[0], first is Some, g@[seeds[p]].entity));
                if single_prev(g@, paths@[p]@[0]) is Some {
                    let x = single_prev(g@, paths@[p]@[0])->Some_0;
                    lemma_find(g@, x);
                    let xi = find(g@, x)->Some_0;
                    if slot_before[xi] < p {
                        assert(slot@[xi] == slot_before[xi]);
                    }
                }
            }
            if single_prev(g@, path@[0]) is Some {
                let x = single_prev(g@, path@[0])->Some_0;
                lemma_find(g@, x);
                let xi = find(g@, x)->Some_0;
                if slot_before[xi] != UNHANDLED {
                    assert(slot_before[xi] < pidx);
                    assert(slot@[xi] == slot_before[xi]);
                }
            }
            assert(backward_closed(g@, slot@, pidx as int, path@[0], first is Some, g@[seed as int].entity));
        }
        proof {
            assert forall|p: int| 0 <= p < paths@.len() implies forward_closed(g@, slot@, p, #[trigger] paths@[p]@.last()) by {
                assert(forward_closed(g@, slot_before, p, paths@[p]@.last()));
                if single_next(g@, paths@[p]@.last()) is Some {
                    let b = single_next(g@, paths@[p]@.last())->Some_0;
                    lemma_find(g@, b);
                    let bi = find(g@, b)->Some_0;
                    assert(slot_before[bi] <= p);
                    assert(slot@[bi] == slot_before[bi]);
                }
            }
        }
        proof {
            all = all + path@;
            seeds = seeds.push(seed as int);
        }
        let ghost paths_before = paths@;
        paths.push(path);
        proof {
            assert(chain_views(paths@) =~= views0.push(paths@[pidx as int]@));
            assert(paths@[pidx as int]@ == path_view);
            assert forall|p: int| 0 <= p < paths@.len() && !(p == 0 && first is Some) implies #[trigger] seed_min(
                g@,
                chain_views(paths@),
                p,
                seeds[p],
            ) by {
                let vs = chain_views(paths@);
                assert forall|e: EntityId| #[trigger] in_no_group_before(vs, p, e) == in_no_group_before(views0, p, e) by {
                    assert forall|q: int| 0 <= q < p implies vs[q] == views0[q] by {}
                }
                if p < pidx {
                    assert(seed_min(g@, views0, p, seeds[p]));
                } else {
                    assert(vs == views0.push(path_view));
                }
            }
            if reciprocal(g@) {
                let vs = chain_views(paths@);
                assert(vs =~= views0.push(paths@[pidx as int]@));
                assert forall|p: int| 0 <= p < paths@.len() && !(p == 0 && first is Some) implies #[trigger] seed_ok(
                    g@,
                    chain_views(paths@),
                    p,
                    seeds[p],
                ) by {
                    assert forall|e: EntityId| #[trigger] in_no_group_before(vs, p, e) == in_no_group_before(views0, p, e) by {
                        assert forall|q: int| 0 <= q < p implies vs[q] == views0[q] by {}
                    }
                    if p < pidx {
                        assert(seed_ok(g@, views0, p, seeds[p]));
                        assert(vs[p] == views0[p]);
                    } else {
                        assert(vs[p] == path@);
                    }
                }
            }
            assert(chain_views(paths@) =~= views0.push(paths@[pidx as int]@));
            lemma_points_bound(g@, all);
            assert forall|p: int| 0 <= p < paths@.len() implies forward_closed(g@, slot@, p, #[trigger] paths@[p]@.last()) by {
                if p < pidx {
                    assert(paths@[p] == paths_before[p]);
                }
            }
            assert forall|p: int| 0 <= p < paths@.len() implies backward_closed(
                g@,
                slot@,
                p,
                #[trigger] paths@[p]@[0],
                first is Some,
                g@[seeds[p]].entity,
            ) by {
                if p < pidx {
                    assert(paths@[p] == paths_before[p]);
                }
            }
        }
    }
    // every point is in a chain
    let ghost views = chain_views(paths@);
    proof {
        lemma_points_bound(g@, all);
        if n > 0 {
            assert(slot@[0] != UNHANDLED);
        }
        lemma_chain_points_unique(g@, slot@, views);
        assert forall|i: int| 0 <= i < g@.len() implies #[trigger] covered(views, g@[i].entity) by {
            assert(slot@[i] != UNHANDLED);
            assert(views[slot@[i] as int].contains(g@[i].entity));
        }
        assert(partition(g@, views));
    }
    let nexts = next_links(g, &slot, &paths);
    let prevs = prev_links(&nexts);
    let np = paths.len();
    let ghost paths0 = paths@;
    let ghost nexts0 = nexts@;
    let ghost prevs0 = prevs@;
    let mut paths = paths;
    let mut nexts = nexts;
    let mut prevs = prevs;
    let mut groups: Vec<EntityPathGroup> = Vec::new();
    let mut p: usize = 0;
    while p < np
        invariant
            np == paths0.len(),
            np == nexts0.len(),
            np == prevs0.len(),
            p <= np,
            paths@ == paths0.subrange(p as int, np as int),
            nexts@ == nexts0.subrange(p as int, np as int),
            prevs@ == prevs0.subrange(p as int, np as int),
            groups@.len() == p,
            forall|q: int|
                0 <= q < p ==> (#[trigger] groups@[q]).path@ == paths0[q]@ && groups@[q].next_paths@
                    == nexts0[q]@ && groups@[q].prev_paths@ == prevs0[q]@,
        decreases np - p,
    {
        let path = paths.remove(0);
        let next_paths = nexts.remove(0);
        let prev_paths = prevs.remove(0);
        groups.push(EntityPathGroup { path, prev_paths, next_paths });
        p += 1;
    }
    proof {
        assert(group_paths(groups@) =~= views);
        assert forall|p: int| 0 <= p < groups@.len() implies (#[trigger] groups@[p]).path@.len() >= 1 by {
            assert(groups@[p].path@ == views[p]);
        }
        assert forall|p: int, k: int|
            0 <= p < groups@.len() && 0 <= k < groups@[p].path@.len() - 1 implies #[trigger] single_link(
                g@,
                groups@[p].path@[k],
                groups@[p].path@[k + 1],
            ) by {
            assert(groups@[p].path@ == views[p]);
        }
        assert forall|p: int|
            0 <= p < groups@.len() implies (single_next(g@, (#[trigger] groups@[p]).path@.last()) matches Some(b) ==> exists|q: int|
                0 <= q <= p && groups@[q].path@.contains(b)) by {
            assert(groups@[p].path@ == views[p]);
            assert(paths0[p]@ == views[p]);
            if single_next(g@, views[p].last()) is Some {
                let b = single_next(g@, views[p].last())->Some_0;
                lemma_find(g@, b);
                let bi = find(g@, b)->Some_0;
                assert(forward_closed(g@, slot@, p, paths0[p]@.last()));
                assert(slot@[bi] <= p);
                assert(slot@[bi] != UNHANDLED);
                assert(views[slot@[bi] as int].contains(g@[bi].entity));
                assert(groups@[slot@[bi] as int].path@ == views[slot@[bi] as int]);
            }
        }
        assert forall|p: int| 0 <= p < groups@.len() implies #[trigger] opens_after(g@, group_paths(groups@), p) by {
            assert(groups@[p].path@ == views[p]);
            assert(paths0[p]@ == views[p]);
            assert(group_paths(groups@)[p] == views[p]);
            assert(backward_closed(g@, slot@, p, paths0[p]@[0], first is Some, g@[seeds[p]].entity));
            if single_prev(g@, views[p][0]) is Some {
                if !(p == 0 && first is Some) {
                    let sd = seeds[p];
                    assert(seed_min(g@, views, p, sd));
                    if views[p][0] == g@[sd].entity {
                        assert(first_in_rest(g@, views, p, views[p][0]));
                    }
                }
                let x = single_prev(g@, views[p][0])->Some_0;
                lemma_find(g@, x);
                let xi = find(g@, x)->Some_0;
                if slot@[xi] < p {
                    let q = slot@[xi] as int;
                    assert(views[q].contains(g@[xi].entity));
                    assert(group_paths(groups@)[q] == views[q]);
                    assert(group_paths(groups@)[q].contains(x));
                }
                if p == 0 && first is Some {
                    assert(is_first_start(g@, first->Some_0 as int));
                }
            }
        }
        if reciprocal(g@) {
            assert forall|p: int|
                0 <= p < groups@.len() && !(p == 0 && exists|f: int| is_first_start(g@, f)) implies #[trigger] holds_first_remaining(
                g@,
                group_paths(groups@),
                p,
            ) by {
                if p == 0 && first is Some {
                    assert(is_first_start(g@, first->Some_0 as int));
                }
                assert(group_paths(groups@) == views);
                let sd = seeds[p];
                assert(seed_ok(g@, views, p, sd));
                assert forall|i: int|
                    #![trigger in_no_group_before(views, p, g@[i].entity)]
                    0 <= i < g@.len() && in_no_group_before(views, p, g@[i].entity) && (forall|j: int|
                        0 <= j < g@.len() && #[trigger] in_no_group_before(views, p, g@[j].entity) ==> !before(g@, j, i))
                        implies views[p].contains(g@[i].entity) by {
                    assert(in_no_group_before(views, p, g@[sd].entity));
                    assert(!before(g@, sd, i));
                    assert(!before(g@, i, sd));
                    if i != sd {
                        assert(g@[i].entity != g@[sd].entity);
                    }
                }
            }
        }
        assert forall|f: int| is_first_start(g@, f) implies groups@[0].path@[0] == g@[f].entity by {
            let f0 = first->Some_0 as int;
            assert(!before(g@, f, f0) && !before(g@, f0, f));
            if f != f0 {
                assert(g@[f].entity != g@[f0].entity);
            }
        }
    }
    groups
}

} // verus!
