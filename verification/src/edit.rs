//! Editing commands on path points: the two sides of a checkpoint, the
//! selected checkpoints, and unlinking the selected points from their
//! neighbours.
use vstd::prelude::*;
use crate::document::link_of;
use crate::graph::{
    EntityId, EntryView, KmpPathNode, PathGraph, bad, find, find_entry, fresh_edges, has, lemma_edge_added,
    lemma_edge_removed, lemma_find, lemma_link_keeps_well_formed, lemma_same_points_find, lemma_same_points_wf,
    link_allowed, linked, node, reaches, same_links, same_points, well_formed, with_edges, with_link,
};

verus! {

broadcast use vstd::std_specs::vec::group_vec_axioms;

/// The checkpoint halves of the editor: each left side with the right side
/// it names, and each right side with the left side it names.
#[derive(Debug)]
pub struct CheckpointSides {
    pub lefts: Vec<(EntityId, EntityId)>,
    pub rights: Vec<(EntityId, EntityId)>,
}

/// `e` is a left checkpoint side.
pub open spec fn is_left(sides: CheckpointSides, e: EntityId) -> bool {
    link_of(sides.lefts@, e, 0) is Some
}

/// `e` is a right checkpoint side.
pub open spec fn is_right(sides: CheckpointSides, e: EntityId) -> bool {
    link_of(sides.rights@, e, 0) is Some
}

/// Both sides of the checkpoint that `e` is a side of (meaningful when `e`
/// is a left or a right side).
pub open spec fn both_sides(sides: CheckpointSides, e: EntityId) -> (EntityId, EntityId) {
    (
        if is_left(sides, e) {
            e
        } else {
            link_of(sides.rights@, e, 0)->Some_0
        },
        if is_right(sides, e) {
            e
        } else {
            link_of(sides.lefts@, e, 0)->Some_0
        },
    )
}

fn find_pair(v: &Vec<(EntityId, EntityId)>, e: EntityId) -> (r: Option<EntityId>)
    ensures
        r == link_of(v@, e, 0),
{
    let mut i: usize = 0;
    while i < v.len()
        invariant
            i <= v@.len(),
            link_of(v@, e, 0) == link_of(v@, e, i as int),
        decreases v@.len() - i,
    {
        if v[i].0 == e {
            return Some(v[i].1);
        }
        i += 1;
    }
    None
}

/// Both sides of a checkpoint from either one of them: a left side names
/// its right side, a right side its left side.
pub fn get_both_cp_nodes(sides: &CheckpointSides, e: EntityId) -> (r: (EntityId, EntityId))
    requires
        is_left(*sides, e) || is_right(*sides, e),
    ensures
        r == both_sides(*sides, e),
{
    let as_left = find_pair(&sides.lefts, e);
    let as_right = find_pair(&sides.rights, e);
    let left = match as_left {
        Some(_) => e,
        None => as_right.unwrap(),
    };
    let right = match as_right {
        Some(_) => e,
        None => as_left.unwrap(),
    };
    (left, right)
}

/// The checkpoints, each with whether its left side is selected, and the
/// left sides named by the selected right sides.
#[derive(Debug)]
pub struct GetSelectedCheckpoints {
    pub checkpoints: Vec<(EntityId, bool)>,
    pub selected_right_lefts: Vec<EntityId>,
}

impl GetSelectedCheckpoints {
    /// The checkpoints that are selected by either side, in checkpoint order.
    pub fn get_entities(&self) -> (r: Vec<EntityId>)
        ensures
            forall|e: EntityId|
                r@.contains(e) <==> exists|i: int|
                    0 <= i < self.checkpoints@.len() && #[trigger] self.checkpoints@[i].0 == e && (self.checkpoints@[i].1
                        || self.selected_right_lefts@.contains(e)),
            r@.len() <= self.checkpoints@.len(),
    {
        let mut r: Vec<EntityId> = Vec::new();
        let mut i: usize = 0;
        while i < self.checkpoints.len()
            invariant
                i <= self.checkpoints@.len(),
                r@.len() <= i,
                forall|e: EntityId|
                    r@.contains(e) <==> exists|k: int|
                        0 <= k < i && #[trigger] self.checkpoints@[k].0 == e && (self.checkpoints@[k].1
                            || self.selected_right_lefts@.contains(e)),
            decreases self.checkpoints@.len() - i,
        {
            let (e, selected) = self.checkpoints[i];
            let mut by_right = false;
            let mut j: usize = 0;
            while j < self.selected_right_lefts.len()
                invariant
                    j <= self.selected_right_lefts@.len(),
                    by_right == exists|q: int| 0 <= q < j && self.selected_right_lefts@[q] == e,
                decreases self.selected_right_lefts@.len() - j,
            {
                if self.selected_right_lefts[j] == e {
                    by_right = true;
                }
                j += 1;
            }
            let ghost before = r@;
            if selected || by_right {
                r.push(e);
            }
            proof {
                assert(by_right == self.selected_right_lefts@.contains(e));
                assert forall|x: EntityId|
                    r@.contains(x) <==> exists|k: int|
                        0 <= k < i + 1 && #[trigger] self.checkpoints@[k].0 == x && (self.checkpoints@[k].1
                            || self.selected_right_lefts@.contains(x)) by {
                    if selected || by_right {
                        assert(r@ == before.push(e));
                        if r@.contains(x) && x != e {
                            let q = choose|q: int| 0 <= q < r@.len() && r@[q] == x;
                            assert(before[q] == x);
                        }
                        if before.contains(x) {
                            let q = choose|q: int| 0 <= q < before.len() && before[q] == x;
                            assert(r@[q] == x);
                        }
                        if x == e {
                            assert(r@[before.len() as int] == e);
                            assert(self.checkpoints@[i as int].0 == x);
                        }
                    } else {
                        if exists|k: int|
                            0 <= k < i + 1 && #[trigger] self.checkpoints@[k].0 == x && (self.checkpoints@[k].1
                                || self.selected_right_lefts@.contains(x)) {
                            let k = choose|k: int|
                                0 <= k < i + 1 && #[trigger] self.checkpoints@[k].0 == x && (self.checkpoints@[k].1
                                    || self.selected_right_lefts@.contains(x));
                            assert(k < i);
                        }
                    }
                }
            }
            i += 1;
        }
        r
    }
}

/// The unlink commands queued for selected point `s`: its link from each
/// predecessor and to each successor, as the graph records them.
pub open spec fn node_cmds(g: Seq<EntryView>, s: EntityId) -> Seq<(EntityId, EntityId)> {
    if has(g, s) {
        node(g, s).prev.map_values(|p: EntityId| (p, s)) + node(g, s).next.map_values(|n: EntityId| (s, n))
    } else {
        Seq::empty()
    }
}

/// The unlink commands queued for the first `upto` selected points.
pub open spec fn unlink_cmds(g: Seq<EntryView>, sel: Seq<EntityId>, upto: int) -> Seq<(EntityId, EntityId)>
    decreases upto,
{
    if upto <= 0 {
        Seq::empty()
    } else {
        unlink_cmds(g, sel, upto - 1) + node_cmds(g, sel[upto - 1])
    }
}

/// A command between checkpoints (from a left side, or to a right side)
/// unlinks both sides.
pub open spec fn via_sides(sides: CheckpointSides, c: (EntityId, EntityId)) -> bool {
    is_left(sides, c.0) || is_right(sides, c.1)
}

/// `e` is a checkpoint side.
pub open spec fn is_side(sides: CheckpointSides, e: EntityId) -> bool {
    is_left(sides, e) || is_right(sides, e)
}

/// The links that a command removes: none unless both points are path
/// points; for checkpoints the links between their left sides and between
/// their right sides.
pub open spec fn cmd_edges(g: Seq<EntryView>, sides: CheckpointSides, c: (EntityId, EntityId)) -> Seq<(EntityId, EntityId)> {
    if !(has(g, c.0) && has(g, c.1)) {
        Seq::empty()
    } else if via_sides(sides, c) {
        seq![(both_sides(sides, c.0).0, both_sides(sides, c.1).0), (both_sides(sides, c.0).1, both_sides(sides, c.1).1)]
    } else {
        seq![c]
    }
}

/// The links that the first `upto` commands remove.
pub open spec fn cmds_edges(g: Seq<EntryView>, sides: CheckpointSides, cmds: Seq<(EntityId, EntityId)>, upto: int) -> Seq<(EntityId, EntityId)>
    decreases upto,
{
    if upto <= 0 {
        Seq::empty()
    } else {
        cmds_edges(g, sides, cmds, upto - 1) + cmd_edges(g, sides, cmds[upto - 1])
    }
}

/// Every checkpoint command names two checkpoint sides.
pub open spec fn unlink_safe(g: Seq<EntryView>, sides: CheckpointSides, cmds: Seq<(EntityId, EntityId)>) -> bool {
    forall|k: int|
        0 <= k < cmds.len() && has(g, (#[trigger] cmds[k]).0) && has(g, cmds[k].1) && via_sides(sides, cmds[k]) ==> is_side(
            sides,
            cmds[k].0,
        ) && is_side(sides, cmds[k].1)
}

/// `g1` is `g0` without the records of the links in `edges` between path points.
pub open spec fn edges_removed(g0: Seq<EntryView>, g1: Seq<EntryView>, edges: Seq<(EntityId, EntityId)>) -> bool {
    &&& same_points(g0, g1)
    &&& forall|i: int, y: EntityId|
        0 <= i < g0.len() ==> ((#[trigger] g1[i].prev.contains(y)) <==> g0[i].prev.contains(y) && !(edges.contains(
            (y, g0[i].entity),
        ) && has(g0, y) && has(g0, g0[i].entity)))
    &&& forall|i: int, y: EntityId|
        0 <= i < g0.len() ==> ((#[trigger] g1[i].next.contains(y)) <==> g0[i].next.contains(y) && !(edges.contains(
            (g0[i].entity, y),
        ) && has(g0, g0[i].entity) && has(g0, y)))
}

/// Remove the link `p -> n` at both ends if both are path points.
fn unlink_edge(g: &mut PathGraph, p: EntityId, n: EntityId) -> (r: bool)
    requires
        well_formed(old(g)@),
    ensures
        well_formed(final(g)@),
        edges_removed(old(g)@, final(g)@, seq![(p, n)]),
        r ==> has(old(g)@, p) && has(old(g)@, n) && linked(old(g)@, p, n),
        !r ==> final(g)@ == old(g)@,
{
    let ghost g0 = g@;
    let r = KmpPathNode::unlink_nodes(p, n, g);
    proof {
        let g1 = g@;
        let es = seq![(p, n)];
        assert forall|a: EntityId, b: EntityId| es.contains((a, b)) <==> a == p && b == n by {
            if es.contains((a, b)) {
                let q = choose|q: int| 0 <= q < es.len() && es[q] == (a, b);
                assert(q == 0);
            }
            if a == p && b == n {
                assert(es[0] == (a, b));
            }
        }
        lemma_find(g0, p);
        lemma_find(g0, n);
        if r {
            assert(same_points(g0, g1));
            lemma_same_points_wf(g0, g1);
        } else {
            assert forall|i: int| 0 <= i < g0.len() implies (#[trigger] g0[i]).prev.no_duplicates() && g0[i].next.no_duplicates() by {}
            assert forall|i: int, y: EntityId| 0 <= i < g0.len() implies ((#[trigger] g1[i].prev.contains(y)) <==> g0[i].prev.contains(y)
                && !(es.contains((y, g0[i].entity)) && has(g0, y) && has(g0, g0[i].entity))) by {
                if y == p && g0[i].entity == n && has(g0, p) && has(g0, n) {
                    assert(node(g0, n) == g0[i]);
                }
            }
            assert forall|i: int, y: EntityId| 0 <= i < g0.len() implies ((#[trigger] g1[i].next.contains(y)) <==> g0[i].next.contains(y)
                && !(es.contains((g0[i].entity, y)) && has(g0, g0[i].entity) && has(g0, y))) by {
                if y == n && g0[i].entity == p && has(g0, p) && has(g0, n) {
                    assert(node(g0, p) == g0[i]);
                }
            }
        }
    }
    r
}

fn is_left_side(sides: &CheckpointSides, e: EntityId) -> (r: bool)
    ensures
        r == is_left(*sides, e),
{
    find_pair(&sides.lefts, e).is_some()
}

fn is_right_side(sides: &CheckpointSides, e: EntityId) -> (r: bool)
    ensures
        r == is_right(*sides, e),
{
    find_pair(&sides.rights, e).is_some()
}

proof fn lemma_linked_in_source(g0: Seq<EntryView>, g: Seq<EntryView>, edges: Seq<(EntityId, EntityId)>, p: EntityId, n: EntityId)
    requires
        well_formed(g0),
        edges_removed(g0, g, edges),
        has(g, p),
        has(g, n),
        linked(g, p, n),
    ensures
        has(g0, p) && has(g0, n) && linked(g0, p, n),
{
    lemma_same_points_find(g0, g, p, 0);
    lemma_same_points_find(g0, g, n, 0);
    let pi = find(g0, p)->Some_0;
    let ni = find(g0, n)->Some_0;
    lemma_find(g0, p);
    lemma_find(g0, n);
    assert(node(g, p) == g[pi] && node(g, n) == g[ni]);
    assert(node(g0, p) == g0[pi] && node(g0, n) == g0[ni]);
    if g[pi].prev.contains(n) {
        assert(g0[pi].prev.contains(n));
    }
    if g[ni].next.contains(p) {
        assert(g0[ni].next.contains(p));
    }
    if g[pi].next.contains(n) {
        assert(g0[pi].next.contains(n));
    }
    if g[ni].prev.contains(p) {
        assert(g0[ni].prev.contains(p));
    }
}

/// Unlinking with the U key: every link of each selected point (to each
/// predecessor and each successor, as recorded when the key is pressed) is
/// removed at both ends; a link of a checkpoint side removes the links of
/// both sides. Reports whether any link was removed.
pub fn unlink_points(g: &mut PathGraph, sides: &CheckpointSides, selected: &Vec<EntityId>) -> (changed: bool)
    requires
        well_formed(old(g)@),
        unlink_safe(old(g)@, *sides, unlink_cmds(old(g)@, selected@, selected@.len() as int)),
    ensures
        well_formed(final(g)@),
        edges_removed(
            old(g)@,
            final(g)@,
            cmds_edges(
                old(g)@,
                *sides,
                unlink_cmds(old(g)@, selected@, selected@.len() as int),
                unlink_cmds(old(g)@, selected@, selected@.len() as int).len() as int,
            ),
        ),
        !same_links(old(g)@, final(g)@) ==> changed,
        changed ==> exists|e: (EntityId, EntityId)|
            #[trigger] cmds_edges(
                old(g)@,
                *sides,
                unlink_cmds(old(g)@, selected@, selected@.len() as int),
                unlink_cmds(old(g)@, selected@, selected@.len() as int).len() as int,
            ).contains(e) && has(old(g)@, e.0) && has(old(g)@, e.1) && linked(old(g)@, e.0, e.1),
{
    let ghost g0 = g@;
    let ghost sel = selected@;
    let mut cmds: Vec<(EntityId, EntityId)> = Vec::new();
    let mut i: usize = 0;
    while i < selected.len()
        invariant
            g@ == g0,
            sel == selected@,
            i <= sel.len(),
            cmds@ == unlink_cmds(g0, sel, i as int),
        decreases sel.len() - i,
    {
        let s = selected[i];
        let ghost before = cmds@;
        match find_entry(g, s) {
            None => {
                assert(cmds@ =~= unlink_cmds(g0, sel, i + 1));
            },
            Some(si) => {
                assert(node(g0, s) == g0[si as int]);
                let ghost pv = node(g0, s).prev;
                let ghost nx = node(g0, s).next;
                let mut k: usize = 0;
                while k < g.entries[si].node.prev_nodes.len()
                    invariant
                        g@ == g0,
                        si < g0.len(),
                        pv == g0[si as int].prev,
                        k <= pv.len(),
                        cmds@ == before + pv.subrange(0, k as int).map_values(|p: EntityId| (p, s)),
                    decreases pv.len() - k,
                {
                    cmds.push((g.entries[si].node.prev_nodes[k], s));
                    proof {
                        assert(cmds@ =~= before + pv.subrange(0, k as int + 1).map_values(|p: EntityId| (p, s)));
                    }
                    k += 1;
                }
                let ghost mid = cmds@;
                proof {
                    assert(pv.subrange(0, pv.len() as int) == pv);
                }
                let mut k: usize = 0;
                while k < g.entries[si].node.next_nodes.len()
                    invariant
                        g@ == g0,
                        si < g0.len(),
                        nx == g0[si as int].next,
                        k <= nx.len(),
                        cmds@ == mid + nx.subrange(0, k as int).map_values(|n: EntityId| (s, n)),
                    decreases nx.len() - k,
                {
                    cmds.push((s, g.entries[si].node.next_nodes[k]));
                    proof {
                        assert(cmds@ =~= mid + nx.subrange(0, k as int + 1).map_values(|n: EntityId| (s, n)));
                    }
                    k += 1;
                }
                proof {
                    assert(nx.subrange(0, nx.len() as int) == nx);
                    assert(cmds@ =~= unlink_cmds(g0, sel, i + 1));
                }
            },
        }
        i += 1;
    }
    let ghost cs = cmds@;
    let mut changed = false;
    let mut k: usize = 0;
    proof {
        assert(cmds_edges(g0, *sides, cs, 0) =~= Seq::<(EntityId, EntityId)>::empty());
        assert(edges_removed(g0, g0, Seq::empty())) by {
            assert forall|i: int| 0 <= i < g0.len() implies (#[trigger] g0[i]).prev.no_duplicates() && g0[i].next.no_duplicates() by {}
        }
    }
    while k < cmds.len()
        invariant
            well_formed(g0),
            cs == cmds@,
            cs == unlink_cmds(g0, sel, sel.len() as int),
            unlink_safe(g0, *sides, cs),
            k <= cs.len(),
            well_formed(g@),
            edges_removed(g0, g@, cmds_edges(g0, *sides, cs, k as int)),
            !changed ==> g@ == g0,
            changed ==> exists|e: (EntityId, EntityId)|
                #[trigger] cmds_edges(g0, *sides, cs, k as int).contains(e) && has(g0, e.0) && has(g0, e.1) && linked(g0, e.0, e.1),
        decreases cs.len() - k,
    {
        let (a, b) = cmds[k];
        let ghost gb = g@;
        let ghost eb = cmds_edges(g0, *sides, cs, k as int);
        let ghost ec = cmd_edges(g0, *sides, cs[k as int]);
        let ghost ek = cmds_edges(g0, *sides, cs, k as int + 1);
        proof {
            assert(ek == eb + ec);
            lemma_same_points_wf(g0, gb);
            assert forall|x: EntityId| #[trigger] has(gb, x) == has(g0, x) by {}
            assert forall|e: (EntityId, EntityId)| #[trigger] ek.contains(e) <==> eb.contains(e) || ec.contains(e) by {
                if ek.contains(e) {
                    let q = choose|q: int| 0 <= q < ek.len() && ek[q] == e;
                    if q < eb.len() {
                        assert(eb[q] == e);
                    } else {
                        assert(ec[q - eb.len()] == e);
                    }
                }
                if eb.contains(e) {
                    let q = choose|q: int| 0 <= q < eb.len() && eb[q] == e;
                    assert(ek[q] == e);
                }
                if ec.contains(e) {
                    let q = choose|q: int| 0 <= q < ec.len() && ec[q] == e;
                    assert(ek[eb.len() + q] == e);
                }
            }
        }
        proof {
            assert(cs[k as int] == (a, b));
        }
        let live = find_entry(g, a).is_some() && find_entry(g, b).is_some();
        assert(live == (has(gb, a) && has(gb, b)));
        assert(live == (has(g0, a) && has(g0, b)));
        if !live {
            proof {
                assert(ec =~= Seq::<(EntityId, EntityId)>::empty());
                assert(edges_removed(g0, g@, ek)) by {
                    assert forall|i: int, y: EntityId| 0 <= i < g0.len() implies ((#[trigger] g@[i].prev.contains(y)) <==> g0[i].prev.contains(y)
                        && !(ek.contains((y, g0[i].entity)) && has(g0, y) && has(g0, g0[i].entity))) by {
                        assert(ek.contains((y, g0[i].entity)) == eb.contains((y, g0[i].entity)));
                    }
                    assert forall|i: int, y: EntityId| 0 <= i < g0.len() implies ((#[trigger] g@[i].next.contains(y)) <==> g0[i].next.contains(y)
                        && !(ek.contains((g0[i].entity, y)) && has(g0, g0[i].entity) && has(g0, y))) by {
                        assert(ek.contains((g0[i].entity, y)) == eb.contains((g0[i].entity, y)));
                    }
                }
                if changed {
                    let e = choose|e: (EntityId, EntityId)| #[trigger] eb.contains(e) && has(g0, e.0) && has(g0, e.1) && linked(g0, e.0, e.1);
                    assert(ek.contains(e));
                }
            }
        } else if is_left_side(sides, a) || is_right_side(sides, b) {
            proof {
                assert(is_side(*sides, a) && is_side(*sides, b));
            }
            let (al, ar) = get_both_cp_nodes(sides, a);
            let (bl, br) = get_both_cp_nodes(sides, b);
            let left = unlink_edge(g, al, bl);
            let ghost gm = g@;
            let right = unlink_edge(g, ar, br);
            proof {
                let g1 = g@;
                assert(ec == seq![(al, bl), (ar, br)]);
                assert forall|e: (EntityId, EntityId)| ec.contains(e) <==> e == (al, bl) || e == (ar, br) by {
                    if ec.contains(e) {
                        let q = choose|q: int| 0 <= q < ec.len() && ec[q] == e;
                    }
                    if e == (al, bl) {
                        assert(ec[0] == e);
                    }
                    if e == (ar, br) {
                        assert(ec[1] == e);
                    }
                }
                assert forall|e: (EntityId, EntityId)| seq![(al, bl)].contains(e) <==> e == (al, bl) by {
                    if seq![(al, bl)].contains(e) {
                        let q = choose|q: int| 0 <= q < 1 && seq![(al, bl)][q] == e;
                    }
                    if e == (al, bl) {
                        assert(seq![(al, bl)][0] == e);
                    }
                }
                assert forall|e: (EntityId, EntityId)| seq![(ar, br)].contains(e) <==> e == (ar, br) by {
                    if seq![(ar, br)].contains(e) {
                        let q = choose|q: int| 0 <= q < 1 && seq![(ar, br)][q] == e;
                    }
                    if e == (ar, br) {
                        assert(seq![(ar, br)][0] == e);
                    }
                }
                lemma_same_points_wf(gb, gm);
                lemma_same_points_wf(gm, g1);
                assert forall|x: EntityId| #[trigger] has(gm, x) == has(g0, x) by {
                    lemma_same_points_wf(g0, gb);
                }
                assert(same_points(g0, g1)) by {
                    assert forall|i: int| 0 <= i < g0.len() implies (#[trigger] g1[i]).entity == g0[i].entity
                        && g1[i].max == g0[i].max && g1[i].overall_start == g0[i].overall_start
                        && g1[i].route_start == g0[i].route_start && g1[i].order == g0[i].order
                        && g1[i].prev.no_duplicates() && g1[i].next.no_duplicates() by {
                        assert(gb[i].entity == g0[i].entity && gm[i].entity == gb[i].entity);
                        assert(gb[i].max == g0[i].max && gm[i].max == gb[i].max);
                        assert(gb[i].overall_start == g0[i].overall_start && gm[i].overall_start == gb[i].overall_start);
                        assert(gb[i].route_start == g0[i].route_start && gm[i].route_start == gb[i].route_start);
                        assert(gb[i].order == g0[i].order && gm[i].order == gb[i].order);
                    }
                }
                assert forall|i: int, y: EntityId| 0 <= i < g0.len() implies ((#[trigger] g1[i].prev.contains(y)) <==> g0[i].prev.contains(y)
                    && !(ek.contains((y, g0[i].entity)) && has(g0, y) && has(g0, g0[i].entity))) by {
                    assert(gb[i].entity == g0[i].entity && gm[i].entity == gb[i].entity);
                    assert(gb[i].prev.contains(y) <==> g0[i].prev.contains(y) && !(eb.contains((y, g0[i].entity)) && has(g0, y) && has(g0, g0[i].entity)));
                    assert(gm[i].prev.contains(y) <==> gb[i].prev.contains(y) && !(seq![(al, bl)].contains((y, gb[i].entity)) && has(gb, y) && has(gb, gb[i].entity)));
                    assert(g1[i].prev.contains(y) <==> gm[i].prev.contains(y) && !(seq![(ar, br)].contains((y, gm[i].entity)) && has(gm, y) && has(gm, gm[i].entity)));
                }
                assert forall|i: int, y: EntityId| 0 <= i < g0.len() implies ((#[trigger] g1[i].next.contains(y)) <==> g0[i].next.contains(y)
                    && !(ek.contains((g0[i].entity, y)) && has(g0, g0[i].entity) && has(g0, y))) by {
                    assert(gb[i].entity == g0[i].entity && gm[i].entity == gb[i].entity);
                    assert(gb[i].next.contains(y) <==> g0[i].next.contains(y) && !(eb.contains((g0[i].entity, y)) && has(g0, g0[i].entity) && has(g0, y)));
                    assert(gm[i].next.contains(y) <==> gb[i].next.contains(y) && !(seq![(al, bl)].contains((gb[i].entity, y)) && has(gb, gb[i].entity) && has(gb, y)));
                    assert(g1[i].next.contains(y) <==> gm[i].next.contains(y) && !(seq![(ar, br)].contains((gm[i].entity, y)) && has(gm, gm[i].entity) && has(gm, y)));
                }
                if left {
                    lemma_linked_in_source(g0, gb, eb, al, bl);
                    assert(ek.contains((al, bl)));
                }
                if right {
                    assert(edges_removed(g0, gm, eb + seq![(al, bl)])) by {
                        assert forall|e: (EntityId, EntityId)| #[trigger] (eb + seq![(al, bl)]).contains(e) <==> eb.contains(e) || e == (al, bl) by {
                            let s2 = eb + seq![(al, bl)];
                            if s2.contains(e) {
                                let q = choose|q: int| 0 <= q < s2.len() && s2[q] == e;
                                if q < eb.len() {
                                    assert(eb[q] == e);
                                }
                            }
                            if eb.contains(e) {
                                let q = choose|q: int| 0 <= q < eb.len() && eb[q] == e;
                                assert(s2[q] == e);
                            }
                            if e == (al, bl) {
                                assert(s2[eb.len() as int] == e);
                            }
                        }
                        assert forall|i: int, y: EntityId| 0 <= i < g0.len() implies ((#[trigger] gm[i].prev.contains(y)) <==> g0[i].prev.contains(y)
                            && !((eb + seq![(al, bl)]).contains((y, g0[i].entity)) && has(g0, y) && has(g0, g0[i].entity))) by {
                            assert(gb[i].entity == g0[i].entity);
                            assert(gb[i].prev.contains(y) <==> g0[i].prev.contains(y) && !(eb.contains((y, g0[i].entity)) && has(g0, y) && has(g0, g0[i].entity)));
                        }
                        assert forall|i: int, y: EntityId| 0 <= i < g0.len() implies ((#[trigger] gm[i].next.contains(y)) <==> g0[i].next.contains(y)
                            && !((eb + seq![(al, bl)]).contains((g0[i].entity, y)) && has(g0, g0[i].entity) && has(g0, y))) by {
                            assert(gb[i].entity == g0[i].entity);
                            assert(gb[i].next.contains(y) <==> g0[i].next.contains(y) && !(eb.contains((g0[i].entity, y)) && has(g0, g0[i].entity) && has(g0, y)));
                        }
                        assert forall|i: int| 0 <= i < g0.len() implies (#[trigger] gm[i]).entity == g0[i].entity
                            && gm[i].max == g0[i].max && gm[i].overall_start == g0[i].overall_start
                            && gm[i].route_start == g0[i].route_start && gm[i].order == g0[i].order
                            && gm[i].prev.no_duplicates() && gm[i].next.no_duplicates() by {
                            assert(gb[i].entity == g0[i].entity);
                            assert(gb[i].max == g0[i].max);
                            assert(gb[i].overall_start == g0[i].overall_start);
                            assert(gb[i].route_start == g0[i].route_start);
                            assert(gb[i].order == g0[i].order);
                        }
                    }
                    lemma_linked_in_source(g0, gm, eb + seq![(al, bl)], ar, br);
                    assert(ek.contains((ar, br)));
                }
                if changed {
                    let e = choose|e: (EntityId, EntityId)| #[trigger] eb.contains(e) && has(g0, e.0) && has(g0, e.1) && linked(g0, e.0, e.1);
                    assert(ek.contains(e));
                }
            }
            changed = changed || left || right;
        } else {
            let c = unlink_edge(g, a, b);
            proof {
                let g1 = g@;
                assert(ec == seq![(a, b)]);
                assert forall|e: (EntityId, EntityId)| ec.contains(e) <==> e == (a, b) by {
                    if ec.contains(e) {
                        let q = choose|q: int| 0 <= q < ec.len() && ec[q] == e;
                    }
                    if e == (a, b) {
                        assert(ec[0] == e);
                    }
                }
                lemma_same_points_wf(gb, g1);
                assert forall|x: EntityId| #[trigger] has(gb, x) == has(g0, x) by {
                    lemma_same_points_wf(g0, gb);
                }
                assert(same_points(g0, g1)) by {
                    assert forall|i: int| 0 <= i < g0.len() implies (#[trigger] g1[i]).entity == g0[i].entity
                        && g1[i].max == g0[i].max && g1[i].overall_start == g0[i].overall_start
                        && g1[i].route_start == g0[i].route_start && g1[i].order == g0[i].order
                        && g1[i].prev.no_duplicates() && g1[i].next.no_duplicates() by {
                        assert(gb[i].entity == g0[i].entity);
                        assert(gb[i].max == g0[i].max);
                        assert(gb[i].overall_start == g0[i].overall_start);
                        assert(gb[i].route_start == g0[i].route_start);
                        assert(gb[i].order == g0[i].order);
                    }
                }
                assert forall|i: int, y: EntityId| 0 <= i < g0.len() implies ((#[trigger] g1[i].prev.contains(y)) <==> g0[i].prev.contains(y)
                    && !(ek.contains((y, g0[i].entity)) && has(g0, y) && has(g0, g0[i].entity))) by {
                    assert(gb[i].entity == g0[i].entity);
                    assert(gb[i].prev.contains(y) <==> g0[i].prev.contains(y) && !(eb.contains((y, g0[i].entity)) && has(g0, y) && has(g0, g0[i].entity)));
                    assert(g1[i].prev.contains(y) <==> gb[i].prev.contains(y) && !(ec.contains((y, gb[i].entity)) && has(gb, y) && has(gb, gb[i].entity)));
                }
                assert forall|i: int, y: EntityId| 0 <= i < g0.len() implies ((#[trigger] g1[i].next.contains(y)) <==> g0[i].next.contains(y)
                    && !(ek.contains((g0[i].entity, y)) && has(g0, g0[i].entity) && has(g0, y))) by {
                    assert(gb[i].entity == g0[i].entity);
                    assert(gb[i].next.contains(y) <==> g0[i].next.contains(y) && !(eb.contains((g0[i].entity, y)) && has(g0, g0[i].entity) && has(g0, y)));
                    assert(g1[i].next.contains(y) <==> gb[i].next.contains(y) && !(ec.contains((gb[i].entity, y)) && has(gb, gb[i].entity) && has(gb, y)));
                }
                if c {
                    lemma_linked_in_source(g0, gb, eb, a, b);
                    assert(ek.contains((a, b)));
                }
                if changed {
                    let e = choose|e: (EntityId, EntityId)| #[trigger] eb.contains(e) && has(g0, e.0) && has(g0, e.1) && linked(g0, e.0, e.1);
                    assert(ek.contains(e));
                }
            }
            changed = changed || c;
        }
        k += 1;
    }
    proof {
        if !changed {
            assert(same_links(g0, g@)) by {
                assert forall|i: int| 0 <= i < g0.len() implies (#[trigger] g0[i]).prev.no_duplicates() && g0[i].next.no_duplicates() by {}
            }
        }
    }
    changed
}

/// Link-select mode for respawn points: each listed checkpoint takes
/// `respawn_e` as its respawn point, when `respawn_e` is a respawn point.
/// `checkpoints` holds each checkpoint with its respawn link.
pub fn create_respawn_link(
    respawn_points: &Vec<EntityId>,
    checkpoints: &mut Vec<(EntityId, Option<EntityId>)>,
    respawn_e: EntityId,
    cps: &Vec<EntityId>,
)
    ensures
        !respawn_points@.contains(respawn_e) ==> final(checkpoints)@ == old(checkpoints)@,
        respawn_points@.contains(respawn_e) ==> final(checkpoints)@.len() == old(checkpoints)@.len() && forall|i: int|
            0 <= i < old(checkpoints)@.len() ==> (#[trigger] final(checkpoints)@[i]).0 == old(checkpoints)@[i].0
                && final(checkpoints)@[i].1 == if cps@.contains(old(checkpoints)@[i].0) {
                Some(respawn_e)
            } else {
                old(checkpoints)@[i].1
            },
{
    let mut is_respawn = false;
    let mut k: usize = 0;
    while k < respawn_points.len()
        invariant
            k <= respawn_points@.len(),
            is_respawn == respawn_points@.subrange(0, k as int).contains(respawn_e),
        decreases respawn_points@.len() - k,
    {
        proof {
            let s0 = respawn_points@.subrange(0, k as int);
            let s1 = respawn_points@.subrange(0, k as int + 1);
            assert(s1 == s0.push(respawn_points@[k as int]));
            assert(s1.contains(respawn_e) <==> s0.contains(respawn_e) || respawn_points@[k as int] == respawn_e) by {
                if s1.contains(respawn_e) && respawn_points@[k as int] != respawn_e {
                    let q = choose|q: int| 0 <= q < s1.len() && s1[q] == respawn_e;
                    assert(s0[q] == respawn_e);
                }
                if s0.contains(respawn_e) {
                    let q = choose|q: int| 0 <= q < s0.len() && s0[q] == respawn_e;
                    assert(s1[q] == respawn_e);
                }
                if respawn_points@[k as int] == respawn_e {
                    assert(s1[k as int] == respawn_e);
                }
            }
        }
        if respawn_points[k] == respawn_e {
            is_respawn = true;
        }
        k += 1;
    }
    proof {
        assert(respawn_points@.subrange(0, respawn_points@.len() as int) == respawn_points@);
    }
    if !is_respawn {
        return;
    }
    let ghost c0 = checkpoints@;
    let mut i: usize = 0;
    while i < checkpoints.len()
        invariant
            i <= c0.len(),
            checkpoints@.len() == c0.len(),
            forall|j: int|
                0 <= j < c0.len() ==> (#[trigger] checkpoints@[j]).0 == c0[j].0 && checkpoints@[j].1 == if j < i
                    && cps@.contains(c0[j].0) {
                    Some(respawn_e)
                } else {
                    c0[j].1
                },
        decreases c0.len() - i,
    {
        let e = checkpoints[i].0;
        let mut listed = false;
        let mut k: usize = 0;
        while k < cps.len()
            invariant
                k <= cps@.len(),
                listed == cps@.subrange(0, k as int).contains(e),
            decreases cps@.len() - k,
        {
            proof {
                let s0 = cps@.subrange(0, k as int);
                let s1 = cps@.subrange(0, k as int + 1);
                assert(s1 == s0.push(cps@[k as int]));
                assert(s1.contains(e) <==> s0.contains(e) || cps@[k as int] == e) by {
                    if s1.contains(e) && cps@[k as int] != e {
                        let q = choose|q: int| 0 <= q < s1.len() && s1[q] == e;
                        assert(s0[q] == e);
                    }
                    if s0.contains(e) {
                        let q = choose|q: int| 0 <= q < s0.len() && s0[q] == e;
                        assert(s1[q] == e);
                    }
                    if cps@[k as int] == e {
                        assert(s1[k as int] == e);
                    }
                }
            }
            if cps[k] == e {
                listed = true;
            }
            k += 1;
        }
        proof {
            assert(cps@.subrange(0, cps@.len() as int) == cps@);
        }
        if listed {
            checkpoints.set(i, (e, Some(respawn_e)));
        }
        i += 1;
    }
}

/// The two links between checkpoints `p` and `n`: left side to left side,
/// then right side to right side.
pub open spec fn pair_edges(sides: CheckpointSides, p: EntityId, n: EntityId) -> Seq<(EntityId, EntityId)> {
    seq![(both_sides(sides, p).0, both_sides(sides, n).0), (both_sides(sides, p).1, both_sides(sides, n).1)]
}

/// The graph after linking checkpoint `p` before checkpoint `n`.
pub open spec fn with_pair_link(g: Seq<EntryView>, sides: CheckpointSides, p: EntityId, n: EntityId) -> Seq<EntryView> {
    with_link(
        with_link(g, both_sides(sides, p).0, both_sides(sides, n).0),
        both_sides(sides, p).1,
        both_sides(sides, n).1,
    )
}

/// Both sides of checkpoint `p` may be linked before those of `n`, in turn.
pub open spec fn pair_link_allowed(g: Seq<EntryView>, sides: CheckpointSides, p: EntityId, n: EntityId) -> bool {
    let (pl, pr) = both_sides(sides, p);
    let (nl, nr) = both_sides(sides, n);
    link_allowed(g, pl, nl) && link_allowed(with_link(g, pl, nl), pr, nr)
}

/// Before each of the two links, no defective point can be reached from its
/// target.
pub open spec fn pair_link_clean(g: Seq<EntryView>, sides: CheckpointSides, p: EntityId, n: EntityId) -> bool {
    let (pl, pr) = both_sides(sides, p);
    let (nl, nr) = both_sides(sides, n);
    &&& forall|x: EntityId| reaches(g, nl, x) ==> !#[trigger] bad(g, x)
    &&& forall|x: EntityId| reaches(with_link(g, pl, nl), nr, x) ==> !#[trigger] bad(with_link(g, pl, nl), x)
}

/// Link checkpoint `prev_e` before checkpoint `next_e`: their left sides and
/// their right sides. Either both links are made, or neither (a link made on
/// one side is removed again when the other side refuses).
pub fn link_checkpoint_pair(g: &mut PathGraph, sides: &CheckpointSides, prev_e: EntityId, next_e: EntityId) -> (r: bool)
    requires
        well_formed(old(g)@),
        is_side(*sides, prev_e),
        is_side(*sides, next_e),
    ensures
        well_formed(final(g)@),
        r ==> pair_link_allowed(old(g)@, *sides, prev_e, next_e) && final(g)@ == with_pair_link(old(g)@, *sides, prev_e, next_e),
        !r ==> same_links(old(g)@, final(g)@),
        pair_link_allowed(old(g)@, *sides, prev_e, next_e) && pair_link_clean(old(g)@, *sides, prev_e, next_e) ==> r,
{
    let ghost g0 = g@;
    let (pl, pr) = get_both_cp_nodes(sides, prev_e);
    let (nl, nr) = get_both_cp_nodes(sides, next_e);
    let left = KmpPathNode::link_nodes(pl, nl, g);
    let ghost g1 = g@;
    proof {
        if left {
            lemma_link_keeps_well_formed(g0, pl, nl);
        }
    }
    let right = KmpPathNode::link_nodes(pr, nr, g);
    let ghost g2 = g@;
    proof {
        if right {
            lemma_link_keeps_well_formed(g1, pr, nr);
        }
        assert forall|i: int| 0 <= i < g0.len() implies (#[trigger] g0[i]).prev.no_duplicates() && g0[i].next.no_duplicates() by {}
    }
    if left != right {
        if left {
            proof {
                assert(g2 == g1);
            }
            proof {
                lemma_link_keeps_well_formed(g0, pl, nl);
                lemma_find(g0, nl);
                lemma_find(g0, pl);
                lemma_same_points_find(g0, g1, nl, 0);
                lemma_same_points_find(g0, g1, pl, 0);
                let ni = find(g0, nl)->Some_0;
                assert(node(g1, nl) == g1[ni]);
                assert(g1[ni].prev == g0[ni].prev.push(pl));
                assert(g1[ni].prev[g0[ni].prev.len() as int] == pl);
                assert(linked(g1, pl, nl));
                assert(has(g1, pl) && has(g1, nl));
            }
            let removed = KmpPathNode::unlink_nodes(pl, nl, g);
            proof {
                assert(removed);
                crate::graph::lemma_unlink_undoes_link(g0, g@, pl, nl);
                assert(same_points(g0, g@)) by {
                    assert forall|i: int| 0 <= i < g0.len() implies (#[trigger] g@[i]).entity == g0[i].entity && g@[i].max == g0[i].max
                        && g@[i].overall_start == g0[i].overall_start && g@[i].route_start == g0[i].route_start
                        && g@[i].order == g0[i].order && g@[i].prev.no_duplicates() && g@[i].next.no_duplicates() by {
                        assert(g1[i].entity == g0[i].entity);
                    }
                }
                lemma_same_points_wf(g0, g@);
            }
        }
        if right {
            proof {
                assert(g1 == g0);
            }
            proof {
                lemma_link_keeps_well_formed(g0, pr, nr);
                lemma_find(g0, nr);
                lemma_find(g0, pr);
                lemma_same_points_find(g0, g2, nr, 0);
                lemma_same_points_find(g0, g2, pr, 0);
                let ni = find(g0, nr)->Some_0;
                assert(node(g2, nr) == g2[ni]);
                assert(g2[ni].prev == g0[ni].prev.push(pr));
                assert(g2[ni].prev[g0[ni].prev.len() as int] == pr);
                assert(linked(g2, pr, nr));
                assert(has(g2, pr) && has(g2, nr));
            }
            let removed = KmpPathNode::unlink_nodes(pr, nr, g);
            proof {
                assert(removed);
                crate::graph::lemma_unlink_undoes_link(g0, g@, pr, nr);
                assert(same_points(g0, g@)) by {
                    assert forall|i: int| 0 <= i < g0.len() implies (#[trigger] g@[i]).entity == g0[i].entity && g@[i].max == g0[i].max
                        && g@[i].overall_start == g0[i].overall_start && g@[i].route_start == g0[i].route_start
                        && g@[i].order == g0[i].order && g@[i].prev.no_duplicates() && g@[i].next.no_duplicates() by {
                        assert(g2[i].entity == g0[i].entity);
                    }
                }
                lemma_same_points_wf(g0, g@);
            }
        }
        return false;
    }
    left
}

/// The graph after linking each checkpoint of `ps`, in turn, before `c`.
pub open spec fn with_pair_links(g: Seq<EntryView>, sides: CheckpointSides, ps: Seq<EntityId>, c: EntityId) -> Seq<EntryView>
    decreases ps.len(),
{
    if ps.len() == 0 {
        g
    } else {
        with_pair_link(with_pair_links(g, sides, ps.drop_last(), c), sides, ps.last(), c)
    }
}

/// Each checkpoint of `ps`, in turn, may be linked before `c`.
pub open spec fn pair_links_allowed(g: Seq<EntryView>, sides: CheckpointSides, ps: Seq<EntityId>, c: EntityId) -> bool
    decreases ps.len(),
{
    ps.len() == 0 || (pair_links_allowed(g, sides, ps.drop_last(), c) && pair_link_allowed(
        with_pair_links(g, sides, ps.drop_last(), c),
        sides,
        ps.last(),
        c,
    ))
}

/// Before each link, no defective point can be reached from its target.
pub open spec fn pair_links_clean(g: Seq<EntryView>, sides: CheckpointSides, ps: Seq<EntityId>, c: EntityId) -> bool
    decreases ps.len(),
{
    ps.len() == 0 || (pair_links_clean(g, sides, ps.drop_last(), c) && pair_link_clean(
        with_pair_links(g, sides, ps.drop_last(), c),
        sides,
        ps.last(),
        c,
    ))
}

/// The links made by linking each checkpoint of `ps` before `c`, in order.
pub open spec fn pair_edge_list(sides: CheckpointSides, ps: Seq<EntityId>, c: EntityId) -> Seq<(EntityId, EntityId)>
    decreases ps.len(),
{
    if ps.len() == 0 {
        Seq::empty()
    } else {
        pair_edge_list(sides, ps.drop_last(), c) + pair_edges(sides, ps.last(), c)
    }
}

proof fn lemma_pair_prefix(g: Seq<EntryView>, sides: CheckpointSides, ps: Seq<EntityId>, c: EntityId, m: int)
    requires
        0 <= m <= ps.len(),
    ensures
        pair_links_allowed(g, sides, ps, c) ==> pair_links_allowed(g, sides, ps.subrange(0, m), c),
        pair_links_clean(g, sides, ps, c) ==> pair_links_clean(g, sides, ps.subrange(0, m), c),
    decreases ps.len(),
{
    if m < ps.len() {
        lemma_pair_prefix(g, sides, ps.drop_last(), c, m);
        assert(ps.drop_last().subrange(0, m) == ps.subrange(0, m));
    } else {
        assert(ps.subrange(0, m) == ps);
    }
}

proof fn lemma_same_links_edges(g0: Seq<EntryView>, g: Seq<EntryView>, g1: Seq<EntryView>, es: Seq<(EntityId, EntityId)>)
    requires
        with_edges(g0, g, es),
        same_links(g, g1),
    ensures
        with_edges(g0, g1, es),
{
    assert forall|i: int| 0 <= i < g0.len() implies (#[trigger] g1[i]).entity == g0[i].entity && g1[i].max == g0[i].max
        && g1[i].overall_start == g0[i].overall_start && g1[i].route_start == g0[i].route_start && g1[i].order
        == g0[i].order && g1[i].prev.no_duplicates() && g1[i].next.no_duplicates() by {
        assert(g[i].entity == g0[i].entity);
    }
    assert forall|i: int, y: EntityId| 0 <= i < g0.len() implies ((#[trigger] g1[i].prev.contains(y)) <==> g0[i].prev.contains(y)
        || es.contains((y, g0[i].entity))) by {
        assert(g[i].entity == g0[i].entity);
        assert(g1[i].prev.contains(y) == g[i].prev.contains(y));
    }
    assert forall|i: int, y: EntityId| 0 <= i < g0.len() implies ((#[trigger] g1[i].next.contains(y)) <==> g0[i].next.contains(y)
        || es.contains((g0[i].entity, y))) by {
        assert(g[i].entity == g0[i].entity);
        assert(g1[i].next.contains(y) == g[i].next.contains(y));
    }
}

/// One alt-click linking the selected checkpoints, in turn, before the
/// clicked one, as a transaction: either every pair of links is made, or
/// those made by this click are removed again and the graph keeps the links
/// it had. Success is owed when each link is allowed and, before each, no
/// defective point can be reached from its target.
pub fn link_checkpoint_points(g: &mut PathGraph, sides: &CheckpointSides, selected: &Vec<EntityId>, clicked: EntityId) -> (r: bool)
    requires
        well_formed(old(g)@),
        is_side(*sides, clicked),
        forall|k: int| 0 <= k < selected@.len() ==> is_side(*sides, #[trigger] selected@[k]),
    ensures
        well_formed(final(g)@),
        r ==> pair_links_allowed(old(g)@, *sides, selected@, clicked) && final(g)@ == with_pair_links(
            old(g)@,
            *sides,
            selected@,
            clicked,
        ),
        !r ==> same_links(old(g)@, final(g)@),
        pair_links_allowed(old(g)@, *sides, selected@, clicked) && pair_links_clean(old(g)@, *sides, selected@, clicked) ==> r,
{
    let ghost g0 = g@;
    let ghost sel = selected@;
    let ghost sd = *sides;
    proof {
        assert(sel.subrange(0, 0) =~= Seq::<EntityId>::empty());
        assert(with_edges(g0, g0, Seq::empty())) by {
            assert forall|i: int| 0 <= i < g0.len() implies (#[trigger] g0[i]).prev.no_duplicates() && g0[i].next.no_duplicates() by {}
        }
    }
    let mut k: usize = 0;
    while k < selected.len()
        invariant
            well_formed(g0),
            g0 == old(g)@,
            sel == selected@,
            sd == *sides,
            is_side(sd, clicked),
            forall|q: int| 0 <= q < sel.len() ==> is_side(sd, #[trigger] sel[q]),
            k <= sel.len(),
            well_formed(g@),
            g@ == with_pair_links(g0, sd, sel.subrange(0, k as int), clicked),
            pair_links_allowed(g0, sd, sel.subrange(0, k as int), clicked),
            with_edges(g0, g@, pair_edge_list(sd, sel.subrange(0, k as int), clicked)),
            fresh_edges(g0, pair_edge_list(sd, sel.subrange(0, k as int), clicked)),
        decreases sel.len() - k,
    {
        let p = selected[k];
        let ghost gb = g@;
        let ghost pre = sel.subrange(0, k as int);
        let ghost pre1 = sel.subrange(0, k as int + 1);
        let ghost es = pair_edge_list(sd, pre, clicked);
        proof {
            assert(pre1.drop_last() == pre);
            assert(pre1.last() == p);
            lemma_pair_prefix(g0, sd, sel, clicked, k as int + 1);
        }
        if !link_checkpoint_pair(g, sides, p, clicked) {
            proof {
                if pair_links_allowed(g0, sd, sel, clicked) && pair_links_clean(g0, sd, sel, clicked) {
                    assert(pair_links_allowed(g0, sd, pre1, clicked));
                    assert(pair_links_clean(g0, sd, pre1, clicked));
                    assert(false);
                }
                lemma_same_links_edges(g0, gb, g@, es);
                lemma_same_points_wf(g0, g@);
            }
            rollback_pairs(g, sides, selected, k, clicked, Ghost(g0));
            return false;
        }
        proof {
            let (pl, pr) = both_sides(sd, p);
            let (nl, nr) = both_sides(sd, clicked);
            assert(pair_link_allowed(gb, sd, p, clicked));
            lemma_edge_added(g0, gb, es, pl, nl);
            lemma_edge_added(g0, with_link(gb, pl, nl), es.push((pl, nl)), pr, nr);
            assert(es.push((pl, nl)).push((pr, nr)) =~= pair_edge_list(sd, pre1, clicked));
        }
        k += 1;
    }
    proof {
        assert(sel.subrange(0, sel.len() as int) == sel);
    }
    true
}

/// Remove the links made for the first `k` selected checkpoints by one click,
/// pair by pair, in the order they were made.
fn rollback_pairs(g: &mut PathGraph, sides: &CheckpointSides, selected: &Vec<EntityId>, k: usize, c: EntityId, Ghost(g0): Ghost<Seq<EntryView>>)
    requires
        well_formed(g0),
        well_formed(old(g)@),
        k <= selected@.len(),
        is_side(*sides, c),
        forall|q: int| 0 <= q < selected@.len() ==> is_side(*sides, #[trigger] selected@[q]),
        with_edges(g0, old(g)@, pair_edge_list(*sides, selected@.subrange(0, k as int), c)),
        fresh_edges(g0, pair_edge_list(*sides, selected@.subrange(0, k as int), c)),
    ensures
        well_formed(final(g)@),
        same_links(g0, final(g)@),
{
    let ghost es = pair_edge_list(*sides, selected@.subrange(0, k as int), c);
    let ghost sd = *sides;
    let (cl, cr) = get_both_cp_nodes(sides, c);
    proof {
        let ps = selected@.subrange(0, k as int);
        lemma_pair_edge_list_shape(sd, ps, c);
        assert forall|q: int| 0 <= q < k implies es[2 * q] == (both_sides(sd, #[trigger] selected@[q]).0, cl) && es[2 * q + 1] == (
            both_sides(sd, selected@[q]).1,
            cr,
        ) by {
            assert(ps[q] == selected@[q]);
        }
        assert(es.subrange(0, es.len() as int) == es);
    }
    let mut j: usize = 0;
    while j < k
        invariant
            well_formed(g0),
            well_formed(g@),
            j <= k <= selected@.len(),
            sd == *sides,
            (cl, cr) == both_sides(sd, c),
            forall|q: int| 0 <= q < selected@.len() ==> is_side(sd, #[trigger] selected@[q]),
            es == pair_edge_list(sd, selected@.subrange(0, k as int), c),
            es.len() == 2 * k,
            forall|q: int| 0 <= q < k ==> es[2 * q] == (both_sides(sd, #[trigger] selected@[q]).0, cl) && es[2 * q + 1] == (
                both_sides(sd, selected@[q]).1,
                cr,
            ),
            fresh_edges(g0, es),
            with_edges(g0, g@, es.subrange(2 * j as int, es.len() as int)),
            fresh_edges(g0, es.subrange(2 * j as int, es.len() as int)),
        decreases k - j,
    {
        let (pl, pr) = get_both_cp_nodes(sides, selected[j]);
        let ghost rest = es.subrange(2 * j as int, es.len() as int);
        let ghost gb = g@;
        proof {
            assert(rest[0] == (pl, cl));
            assert(rest[1] == (pr, cr));
            assert(rest.drop_first() == es.subrange(2 * j + 1, es.len() as int));
            let pi = find(g0, pl)->Some_0;
            lemma_find(g0, cl);
            lemma_find(gb, cl);
            lemma_same_points_wf(g0, gb);
            lemma_same_points_find(g0, gb, cl, 0);
            lemma_same_points_find(g0, gb, pl, 0);
            let ci = find(g0, cl)->Some_0;
            assert(rest.contains((pl, cl)));
            assert(gb[ci].prev.contains(pl));
            assert(node(gb, cl) == gb[ci]);
            assert(linked(gb, pl, cl));
        }
        let left = KmpPathNode::unlink_nodes(pl, cl, g);
        proof {
            assert(left);
            lemma_edge_removed(g0, gb, g@, rest);
        }
        let ghost gm = g@;
        let ghost rest1 = es.subrange(2 * j + 1, es.len() as int);
        proof {
            assert(rest1[0] == (pr, cr));
            assert(rest1.drop_first() == es.subrange(2 * j + 2, es.len() as int));
            lemma_find(g0, cr);
            lemma_find(gm, cr);
            lemma_same_points_find(g0, gm, cr, 0);
            lemma_same_points_find(g0, gm, pr, 0);
            lemma_same_points_wf(g0, gm);
            let ci = find(g0, cr)->Some_0;
            assert(rest1.contains((pr, cr)));
            assert(gm[ci].prev.contains(pr));
            assert(node(gm, cr) == gm[ci]);
            assert(linked(gm, pr, cr));
        }
        let right = KmpPathNode::unlink_nodes(pr, cr, g);
        proof {
            assert(right);
            lemma_edge_removed(g0, gm, g@, rest1);
        }
        j += 1;
    }
    proof {
        assert(es.subrange(2 * k as int, es.len() as int) =~= Seq::<(EntityId, EntityId)>::empty());
        let g1 = g@;
        assert(same_links(g0, g1));
    }
}

proof fn lemma_pair_edge_list_shape(sides: CheckpointSides, ps: Seq<EntityId>, c: EntityId)
    ensures
        pair_edge_list(sides, ps, c).len() == 2 * ps.len(),
        forall|q: int|
            0 <= q < ps.len() ==> pair_edge_list(sides, ps, c)[2 * q] == (both_sides(sides, #[trigger] ps[q]).0, both_sides(
                sides,
                c,
            ).0) && pair_edge_list(sides, ps, c)[2 * q + 1] == (both_sides(sides, ps[q]).1, both_sides(sides, c).1),
    decreases ps.len(),
{
    if ps.len() > 0 {
        lemma_pair_edge_list_shape(sides, ps.drop_last(), c);
        let prev = pair_edge_list(sides, ps.drop_last(), c);
        assert forall|q: int| 0 <= q < ps.len() implies pair_edge_list(sides, ps, c)[2 * q] == (both_sides(sides, #[trigger] ps[q]).0, both_sides(
            sides,
            c,
        ).0) && pair_edge_list(sides, ps, c)[2 * q + 1] == (both_sides(sides, ps[q]).1, both_sides(sides, c).1) by {
            if q < ps.len() - 1 {
                assert(ps.drop_last()[q] == ps[q]);
                assert(pair_edge_list(sides, ps, c)[2 * q] == prev[2 * q]);
                assert(pair_edge_list(sides, ps, c)[2 * q + 1] == prev[2 * q + 1]);
            }
        }
    }
}

} // verus!
