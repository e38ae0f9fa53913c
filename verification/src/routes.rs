//! Routes: finding the point that starts a route by walking back along its
//! links, and moving the links that other points hold to a route start.
use vstd::prelude::*;
use crate::graph::{EntityId, EntryView, PathGraph, contains, find_entry, has, insert_one, lemma_points_bound, node, remove_one};

verus! {

broadcast use vstd::std_specs::vec::group_vec_axioms;

/// The point before `e` on its route: its first recorded predecessor, when
/// that is a path point which records `e` as a successor.
pub open spec fn back_step(g: Seq<EntryView>, e: EntityId) -> Option<EntityId> {
    if has(g, e) && node(g, e).prev.len() > 0 {
        let p = node(g, e).prev[0];
        if has(g, p) && node(g, p).next.contains(e) {
            Some(p)
        } else {
            None
        }
    } else {
        None
    }
}

/// Where the walk back from `e` is after `n` steps (it stays put once no
/// step is possible).
pub open spec fn walk_back(g: Seq<EntryView>, e: EntityId, n: nat) -> EntityId
    decreases n,
{
    if n == 0 {
        e
    } else {
        match back_step(g, walk_back(g, e, (n - 1) as nat)) {
            Some(p) => p,
            None => walk_back(g, e, (n - 1) as nat),
        }
    }
}

/// The walk back from `e` ends after `m` steps: no step is possible there,
/// or the point was already met.
pub open spec fn stops_at(g: Seq<EntryView>, e: EntityId, m: nat) -> bool {
    ||| back_step(g, walk_back(g, e, m)) is None
    ||| exists|k: nat| k < m && #[trigger] walk_back(g, e, k) == walk_back(g, e, m)
}

/// `m` is the first step count at which the walk back from `e` ends.
pub open spec fn first_stop(g: Seq<EntryView>, e: EntityId, m: nat) -> bool {
    stops_at(g, e, m) && forall|k: nat| k < m ==> !#[trigger] stops_at(g, e, k)
}

/// `r` is the start of the route through `e`: where the walk back ends.
pub open spec fn is_route_start(g: Seq<EntryView>, e: EntityId, r: EntityId) -> bool {
    exists|m: nat| #[trigger] first_stop(g, e, m) && r == walk_back(g, e, m)
}

/// The route start of a point is unique.
pub proof fn lemma_route_start_unique(g: Seq<EntryView>, e: EntityId, r1: EntityId, r2: EntityId)
    requires
        is_route_start(g, e, r1),
        is_route_start(g, e, r2),
    ensures
        r1 == r2,
{
    let m1 = choose|m: nat| #[trigger] first_stop(g, e, m) && r1 == walk_back(g, e, m);
    let m2 = choose|m: nat| #[trigger] first_stop(g, e, m) && r2 == walk_back(g, e, m);
    if m1 < m2 {
        assert(!stops_at(g, e, m1));
    } else if m2 < m1 {
        assert(!stops_at(g, e, m2));
    }
}

fn back_step_of(g: &PathGraph, e: EntityId) -> (r: Option<EntityId>)
    ensures
        r == back_step(g@, e),
{
    match find_entry(g, e) {
        None => None,
        Some(i) => {
            assert(node(g@, e) == g@[i as int]);
            if g.entries[i].node.prev_nodes.len() == 0 {
                None
            } else {
                let p = g.entries[i].node.prev_nodes[0];
                match find_entry(g, p) {
                    None => None,
                    Some(j) => {
                        assert(node(g@, p) == g@[j as int]);
                        if contains(&g.entries[j].node.next_nodes, e) {
                            Some(p)
                        } else {
                            None
                        }
                    },
                }
            }
        },
    }
}

/// The path points of the editor and the route points that are selected.
pub struct GetRouteStart {
    pub points: PathGraph,
    pub selected: Vec<EntityId>,
}

impl GetRouteStart {
    /// The start of the route through `e`: follow the first predecessor while
    /// it links back to the current point, and stop at a point met before.
    pub fn get_entity(&self, e: EntityId) -> (r: EntityId)
        ensures
            is_route_start(self.points@, e, r),
    {
        let g = &self.points;
        let mut visited: Vec<EntityId> = Vec::new();
        let mut cur = e;
        let ghost mut n: nat = 0;
        loop
            invariant
                g@ == self.points@,
                cur == walk_back(g@, e, n),
                visited@.len() == n,
                forall|k: int| 0 <= k < n ==> visited@[k] == walk_back(g@, e, k as nat),
                visited@.no_duplicates(),
                forall|k: nat| k < n ==> !#[trigger] stops_at(g@, e, k),
                forall|k: int| 1 <= k < n ==> has(g@, #[trigger] visited@[k]),
                n >= 1 ==> has(g@, cur),
            decreases g@.len() + 1 - n,
        {
            if contains(&visited, cur) {
                proof {
                    let k = choose|k: int| 0 <= k < visited@.len() && visited@[k] == cur;
                    assert(walk_back(g@, e, k as nat) == walk_back(g@, e, n));
                    assert(stops_at(g@, e, n));
                    assert(first_stop(g@, e, n));
                    assert(is_route_start(g@, e, cur));
                }
                return cur;
            }
            let ghost before = visited@;
            visited.push(cur);
            proof {
                assert forall|a: int, b: int| 0 <= a < b < visited@.len() implies visited@[a]
                    != visited@[b] by {
                    if b == n {
                        assert(visited@[a] == before[a]);
                        assert(before.contains(before[a]));
                    } else {
                        assert(before[a] != before[b]);
                    }
                }
            }
            match back_step_of(g, cur) {
                None => {
                    assert(first_stop(g@, e, n));
                    assert(is_route_start(g@, e, cur));
                    return cur;
                },
                Some(p) => {
                    proof {
                        assert forall|k: nat| k < n + 1 implies !#[trigger] stops_at(g@, e, k) by {
                            if k == n {
                                assert forall|j: nat| j < n implies walk_back(g@, e, j) != walk_back(
                                    g@,
                                    e,
                                    n,
                                ) by {
                                    assert(visited@[j as int] == walk_back(g@, e, j));
                                    assert(before[j as int] == walk_back(g@, e, j));
                                    assert(before.contains(before[j as int]));
                                }
                            }
                        }
                        let tail = visited@.subrange(1, n as int + 1);
                        assert forall|k: int| 0 <= k < tail.len() implies has(g@, #[trigger] tail[k]) by {
                            assert(tail[k] == visited@[k + 1]);
                        }
                        assert(tail.no_duplicates()) by {
                            assert forall|a: int, b: int| 0 <= a < b < tail.len() implies tail[a]
                                != tail[b] by {
                                assert(tail[a] == visited@[a + 1] && tail[b] == visited@[b + 1]);
                            }
                        }
                        lemma_points_bound(g@, tail);
                        assert(walk_back(g@, e, n + 1) == p);
                    }
                    cur = p;
                    proof {
                        n = n + 1;
                    }
                },
            }
        }
    }

    /// The distinct route starts of the given points.
    pub fn get_multiple_entities(&self, entities: &Vec<EntityId>) -> (r: Vec<EntityId>)
        ensures
            r@.no_duplicates(),
            forall|x: EntityId|
                r@.contains(x) <==> exists|i: int|
                    0 <= i < entities@.len() && #[trigger] is_route_start(self.points@, entities@[i], x),
    {
        let mut starts: Vec<EntityId> = Vec::new();
        let mut i: usize = 0;
        while i < entities.len()
            invariant
                i <= entities@.len(),
                starts@.no_duplicates(),
                forall|x: EntityId|
                    starts@.contains(x) <==> exists|k: int|
                        0 <= k < i && #[trigger] is_route_start(self.points@, entities@[k], x),
            decreases entities@.len() - i,
        {
            let s = self.get_entity(entities[i]);
            let ghost before = starts@;
            insert_one(&mut starts, s);
            proof {
                assert forall|x: EntityId|
                    starts@.contains(x) <==> exists|k: int|
                        0 <= k < i + 1 && #[trigger] is_route_start(self.points@, entities@[k], x) by {
                    if starts@.contains(x) && x != s {
                        assert(before.contains(x)) by {
                            if !before.contains(s) {
                                assert(starts@ == before.push(s));
                                let j = choose|j: int| 0 <= j < starts@.len() && starts@[j] == x;
                                assert(j < before.len());
                                assert(before[j] == x);
                            }
                        }
                    }
                    if starts@.contains(x) && x == s {
                        assert(is_route_start(self.points@, entities@[i as int], x));
                    }
                    if exists|k: int| 0 <= k < i + 1 && #[trigger] is_route_start(self.points@, entities@[k], x) {
                        let k = choose|k: int| 0 <= k < i + 1 && #[trigger] is_route_start(self.points@, entities@[k], x);
                        if k == i {
                            lemma_route_start_unique(self.points@, entities@[k], x, s);
                            if before.contains(s) {
                            } else {
                                assert(starts@ == before.push(s));
                                assert(starts@[before.len() as int] == s);
                            }
                        } else {
                            assert(before.contains(x));
                            if !before.contains(s) {
                                assert(starts@ == before.push(s));
                                let j = choose|j: int| 0 <= j < before.len() && before[j] == x;
                                assert(starts@[j] == x);
                            }
                        }
                    }
                }
            }
            i += 1;
        }
        starts
    }

    /// The distinct route starts of the selected route points.
    pub fn get_selected(&self) -> (r: Vec<EntityId>)
        ensures
            r@.no_duplicates(),
            forall|x: EntityId|
                r@.contains(x) <==> exists|i: int|
                    0 <= i < self.selected@.len() && #[trigger] is_route_start(self.points@, self.selected@[i], x),
    {
        self.get_multiple_entities(&self.selected)
    }
}

/// The route start that a point (an object, area or camera) is linked to.
#[derive(Clone, Copy, Debug)]
pub struct RouteLink(pub EntityId);

/// The points linked to a route start.
#[derive(Debug)]
pub struct RouteLinkedEntities(pub Vec<EntityId>);

/// A live entity of the editor, with its route link and, for a route start,
/// the points linked to it.
#[derive(Debug)]
pub struct RouteEntity {
    pub entity: EntityId,
    pub link: Option<RouteLink>,
    pub linked: Option<RouteLinkedEntities>,
}

/// Mathematical value of a [`RouteEntity`].
pub struct RouteEntityView {
    pub entity: EntityId,
    pub link: Option<EntityId>,
    pub linked: Option<Seq<EntityId>>,
}

impl RouteEntity {
    pub open spec fn view(&self) -> RouteEntityView {
        RouteEntityView {
            entity: self.entity,
            link: match self.link {
                Some(l) => Some(l.0),
                None => None,
            },
            linked: match &self.linked {
                Some(l) => Some(l.0@),
                None => None,
            },
        }
    }
}

/// The live entities of the editor, as far as routes are concerned.
#[derive(Debug)]
pub struct RouteWorld {
    pub entities: Vec<RouteEntity>,
}

impl RouteWorld {
    pub open spec fn view(&self) -> Seq<RouteEntityView> {
        Seq::new(self.entities@.len(), |i: int| self.entities@[i].view())
    }
}

/// Each live entity is listed once, and each set of linked points lists a
/// point once.
pub open spec fn route_world_ok(w: Seq<RouteEntityView>) -> bool {
    &&& forall|i: int, j: int| 0 <= i < j < w.len() ==> w[i].entity != w[j].entity
    &&& forall|i: int| 0 <= i < w.len() ==> set_ok(#[trigger] w[i].linked)
}

/// A set of linked points, if any, lists each point once.
pub open spec fn set_ok(linked: Option<Seq<EntityId>>) -> bool {
    linked matches Some(s) ==> s.no_duplicates()
}

/// `e` is a live entity.
pub open spec fn is_live(w: Seq<RouteEntityView>, e: EntityId) -> bool {
    exists|i: int| 0 <= i < w.len() && #[trigger] w[i].entity == e
}

/// `y` is a live entity whose route link points at `s`.
pub open spec fn links_to(w: Seq<RouteEntityView>, y: EntityId, s: EntityId) -> bool {
    exists|i: int| 0 <= i < w.len() && #[trigger] w[i].entity == y && w[i].link == Some(s)
}

/// `w1` is `w0` after the links in `set` that point at `from` were moved to
/// `to`: those points now link to `to`, `from` lost its linked points, and
/// `to` holds exactly the moved points.
pub open spec fn moved_route_start(
    w0: Seq<RouteEntityView>,
    w1: Seq<RouteEntityView>,
    set: Seq<EntityId>,
    from: EntityId,
    to: EntityId,
) -> bool {
    &&& w1.len() == w0.len()
    &&& forall|i: int|
        0 <= i < w0.len() ==> {
            &&& (#[trigger] w1[i]).entity == w0[i].entity
            &&& w1[i].link == if w0[i].link == Some(from) && set.contains(w0[i].entity) {
                Some(to)
            } else {
                w0[i].link
            }
            &&& w0[i].entity != to ==> w1[i].linked == if w0[i].entity == from {
                None
            } else {
                w0[i].linked
            }
            &&& w0[i].entity == to ==> holds_moved(w1[i].linked, w0, set, from)
        }
}

/// `linked` lists, once each, the points of `set` that link to `from` in `w0`.
pub open spec fn holds_moved(
    linked: Option<Seq<EntityId>>,
    w0: Seq<RouteEntityView>,
    set: Seq<EntityId>,
    from: EntityId,
) -> bool {
    linked matches Some(m) && m.no_duplicates() && forall|y: EntityId|
        #[trigger] m.contains(y) <==> set.contains(y) && links_to(w0, y, from)
}

fn find_route_entity(w: &RouteWorld, e: EntityId) -> (r: Option<usize>)
    ensures
        r matches Some(i) ==> i < w@.len() && w@[i as int].entity == e,
        r is None ==> !is_live(w@, e),
{
    let mut i: usize = 0;
    while i < w.entities.len()
        invariant
            i <= w@.len(),
            w@.len() == w.entities@.len(),
            forall|k: int| 0 <= k < i ==> w@[k].entity != e,
        decreases w@.len() - i,
    {
        if w.entities[i].entity == e {
            return Some(i);
        }
        i += 1;
    }
    None
}

fn set_link(w: &mut RouteWorld, i: usize, link: Option<RouteLink>)
    requires
        i < old(w)@.len(),
    ensures
        final(w)@ == old(w)@.update(
            i as int,
            RouteEntityView {
                link: match link {
                    Some(l) => Some(l.0),
                    None => None,
                },
                ..old(w)@[i as int]
            },
        ),
{
    let mut ent = w.entities.remove(i);
    ent.link = link;
    w.entities.insert(i, ent);
    proof {
        assert(w@ =~= old(w)@.update(
            i as int,
            RouteEntityView {
                link: match link {
                    Some(l) => Some(l.0),
                    None => None,
                },
                ..old(w)@[i as int]
            },
        ));
    }
}

fn set_linked(w: &mut RouteWorld, i: usize, linked: Option<RouteLinkedEntities>)
    requires
        i < old(w)@.len(),
    ensures
        final(w)@ == old(w)@.update(
            i as int,
            RouteEntityView {
                linked: match &linked {
                    Some(l) => Some(l.0@),
                    None => None,
                },
                ..old(w)@[i as int]
            },
        ),
{
    let ghost lv = match &linked {
        Some(l) => Some(l.0@),
        None => None,
    };
    let mut ent = w.entities.remove(i);
    ent.linked = linked;
    w.entities.insert(i, ent);
    proof {
        assert(w@ =~= old(w)@.update(i as int, RouteEntityView { linked: lv, ..old(w)@[i as int] }));
    }
}

/// The state part way through moving links from `from` to `to`: the points
/// of `done` that linked to `from` now link to `to`, and `from` lost its
/// linked points.
spec fn relinked(
    w0: Seq<RouteEntityView>,
    w: Seq<RouteEntityView>,
    done: Seq<EntityId>,
    from: EntityId,
    to: EntityId,
) -> bool {
    &&& w.len() == w0.len()
    &&& forall|i: int|
        0 <= i < w0.len() ==> {
            &&& (#[trigger] w[i]).entity == w0[i].entity
            &&& w[i].link == if w0[i].link == Some(from) && done.contains(w0[i].entity) {
                Some(to)
            } else {
                w0[i].link
            }
            &&& w[i].linked == if w0[i].entity == from {
                None
            } else {
                w0[i].linked
            }
        }
}

impl RouteLinkedEntities {
    /// Move the route start from `self_e` to `new_e`: when `new_e` is live,
    /// `self_e` loses its linked points, each listed point that links to
    /// `self_e` is relinked to `new_e`, and `new_e` holds exactly those points.
    pub fn move_route_start(&self, world: &mut RouteWorld, self_e: EntityId, new_e: EntityId)
        requires
            route_world_ok(old(world)@),
        ensures
            route_world_ok(final(world)@),
            !is_live(old(world)@, new_e) ==> final(world)@ == old(world)@,
            is_live(old(world)@, new_e) ==> moved_route_start(old(world)@, final(world)@, self.0@, self_e, new_e),
    {
        let ghost w0 = world@;
        let new_i = match find_route_entity(world, new_e) {
            None => return,
            Some(i) => i,
        };
        match find_route_entity(world, self_e) {
            Some(old_i) => set_linked(world, old_i, None),
            None => {},
        }
        proof {
            assert forall|i: int| 0 <= i < w0.len() implies (#[trigger] world@[i]).linked == if w0[i].entity
                == self_e {
                None
            } else {
                w0[i].linked
            } by {
                if w0[i].entity == self_e {
                    assert(is_live(w0, self_e));
                }
            }
            assert(relinked(w0, world@, self.0@.subrange(0, 0), self_e, new_e));
        }
        let mut moved: Vec<EntityId> = Vec::new();
        let mut k: usize = 0;
        while k < self.0.len()
            invariant
                k <= self.0@.len(),
                route_world_ok(w0),
                new_i < w0.len(),
                w0[new_i as int].entity == new_e,
                relinked(w0, world@, self.0@.subrange(0, k as int), self_e, new_e),
                moved@.no_duplicates(),
                forall|y: EntityId|
                    #[trigger] moved@.contains(y) <==> self.0@.subrange(0, k as int).contains(y) && links_to(
                        w0,
                        y,
                        self_e,
                    ),
            decreases self.0@.len() - k,
        {
            let y = self.0[k];
            let ghost done0 = self.0@.subrange(0, k as int);
            let ghost done1 = self.0@.subrange(0, k as int + 1);
            proof {
                assert(done1 == done0.push(y));
                assert forall|x: EntityId| done1.contains(x) <==> done0.contains(x) || x == y by {
                    if done1.contains(x) && x != y {
                        let j = choose|j: int| 0 <= j < done1.len() && done1[j] == x;
                        assert(j < done0.len() && done0[j] == x);
                    }
                    if done0.contains(x) {
                        let j = choose|j: int| 0 <= j < done0.len() && done0[j] == x;
                        assert(done1[j] == x);
                    }
                    if x == y {
                        assert(done1[k as int] == y);
                    }
                }
            }
            match find_route_entity(world, y) {
                Some(j) => {
                    let relink = match world.entities[j].link {
                        Some(l) => l.0 == self_e,
                        None => false,
                    };
                    if relink {
                        let ghost wb = world@;
                        set_link(world, j, Some(RouteLink(new_e)));
                        let ghost mb = moved@;
                        insert_one(&mut moved, y);
                        proof {
                            assert(w0[j as int].entity == y);
                            assert(w0[j as int].link == Some(self_e)) by {
                                if !(w0[j as int].link == Some(self_e) && done0.contains(y)) {
                                } else {
                                    assert(wb[j as int].link == Some(new_e));
                                }
                            }
                            assert(links_to(w0, y, self_e));
                            assert forall|i: int| 0 <= i < w0.len() implies {
                                &&& (#[trigger] world@[i]).entity == w0[i].entity
                                &&& world@[i].link == if w0[i].link == Some(self_e) && done1.contains(
                                    w0[i].entity,
                                ) {
                                    Some(new_e)
                                } else {
                                    w0[i].link
                                }
                                &&& world@[i].linked == if w0[i].entity == self_e {
                                    None
                                } else {
                                    w0[i].linked
                                }
                            } by {
                                if i != j {
                                    assert(wb[i] == world@[i]);
                                    assert(w0[i].entity != y);
                                }
                            }
                            assert forall|x: EntityId|
                                #[trigger] moved@.contains(x) <==> done1.contains(x) && links_to(w0, x, self_e) by {
                                if !mb.contains(y) {
                                    assert(moved@ == mb.push(y));
                                    if moved@.contains(x) && x != y {
                                        let q = choose|q: int| 0 <= q < moved@.len() && moved@[q] == x;
                                        assert(mb[q] == x);
                                    }
                                    if mb.contains(x) {
                                        let q = choose|q: int| 0 <= q < mb.len() && mb[q] == x;
                                        assert(moved@[q] == x);
                                    }
                                    if x == y {
                                        assert(moved@[mb.len() as int] == y);
                                    }
                                }
                            }
                        }
                    } else {
                        proof {
                            let wb = world@;
                            assert(w0[j as int].entity == y);
                            if w0[j as int].link == Some(self_e) {
                                assert(done0.contains(y));
                                assert(new_e != self_e);
                            }
                            assert forall|x: EntityId|
                                #[trigger] moved@.contains(x) <==> done1.contains(x) && links_to(w0, x, self_e) by {
                                if x == y && links_to(w0, x, self_e) {
                                    let q = choose|q: int| 0 <= q < w0.len() && #[trigger] w0[q].entity == x && w0[q].link == Some(self_e);
                                    assert(q == j as int);
                                    assert(done0.contains(y));
                                }
                            }
                            assert forall|i: int| 0 <= i < w0.len() implies {
                                &&& (#[trigger] world@[i]).entity == w0[i].entity
                                &&& world@[i].link == if w0[i].link == Some(self_e) && done1.contains(
                                    w0[i].entity,
                                ) {
                                    Some(new_e)
                                } else {
                                    w0[i].link
                                }
                                &&& world@[i].linked == if w0[i].entity == self_e {
                                    None
                                } else {
                                    w0[i].linked
                                }
                            } by {
                                if i == j {
                                    assert(w0[i].entity == y);
                                }
                            }
                        }
                    }
                },
                None => {
                    proof {
                        assert(!links_to(w0, y, self_e)) by {
                            if links_to(w0, y, self_e) {
                                let q = choose|q: int| 0 <= q < w0.len() && #[trigger] w0[q].entity == y && w0[q].link == Some(self_e);
                                assert(world@[q].entity == y);
                            }
                        }
                        assert forall|i: int| 0 <= i < w0.len() implies {
                            &&& (#[trigger] world@[i]).entity == w0[i].entity
                            &&& world@[i].link == if w0[i].link == Some(self_e) && done1.contains(
                                w0[i].entity,
                            ) {
                                Some(new_e)
                            } else {
                                w0[i].link
                            }
                            &&& world@[i].linked == if w0[i].entity == self_e {
                                None
                            } else {
                                w0[i].linked
                            }
                        } by {
                            assert(w0[i].entity != y) by {
                                if w0[i].entity == y {
                                    assert(is_live(world@, y));
                                }
                            }
                        }
                    }
                },
            }
            k += 1;
        }
        proof {
            assert(self.0@.subrange(0, self.0@.len() as int) == self.0@);
        }
        let ghost wl = world@;
        let ghost mv = moved@;
        set_linked(world, new_i, Some(RouteLinkedEntities(moved)));
        proof {
            assert forall|i: int| 0 <= i < w0.len() implies {
                &&& (#[trigger] world@[i]).entity == w0[i].entity
                &&& world@[i].link == if w0[i].link == Some(self_e) && self.0@.contains(w0[i].entity) {
                    Some(new_e)
                } else {
                    w0[i].link
                }
                &&& w0[i].entity != new_e ==> world@[i].linked == if w0[i].entity == self_e {
                    None
                } else {
                    w0[i].linked
                }
                &&& w0[i].entity == new_e ==> holds_moved(world@[i].linked, w0, self.0@, self_e)
            } by {
                assert(wl[i].entity == w0[i].entity);
                if i == new_i as int {
                    assert(world@[i].linked == Some(mv));
                } else {
                    assert(world@[i] == wl[i]);
                    assert(w0[i].entity != new_e);
                }
            }
        }
    }
}

/// `y` is a live entity without a route link.
pub open spec fn unlinked_point(w: Seq<RouteEntityView>, y: EntityId) -> bool {
    exists|i: int| 0 <= i < w.len() && #[trigger] w[i].entity == y && w[i].link is None
}

/// The linked points of route start `e` were made reciprocal in `w1`: each
/// listed live point without a route link now links to `e`; `e` keeps the
/// listed points that link to it or were just linked, and drops the rest.
pub open spec fn linked_entities_added(w0: Seq<RouteEntityView>, w1: Seq<RouteEntityView>, e: EntityId, set: Seq<EntityId>) -> bool {
    &&& w1.len() == w0.len()
    &&& forall|i: int|
        0 <= i < w0.len() ==> {
            &&& (#[trigger] w1[i]).entity == w0[i].entity
            &&& w1[i].link == if w0[i].link is None && set.contains(w0[i].entity) {
                Some(e)
            } else {
                w0[i].link
            }
            &&& w0[i].entity != e ==> w1[i].linked == w0[i].linked
            &&& w0[i].entity == e ==> kept_linked(w1[i].linked, w0, set, e)
        }
}

/// `linked` lists, once each, the points of `set` that link to `e` or have
/// no route link in `w0`.
pub open spec fn kept_linked(linked: Option<Seq<EntityId>>, w0: Seq<RouteEntityView>, set: Seq<EntityId>, e: EntityId) -> bool {
    linked matches Some(m) && m.no_duplicates() && forall|y: EntityId|
        #[trigger] m.contains(y) <==> set.contains(y) && (links_to(w0, y, e) || unlinked_point(w0, y))
}

fn copy_entities(v: &Vec<EntityId>) -> (r: Vec<EntityId>)
    ensures
        r@ == v@,
{
    let mut r: Vec<EntityId> = Vec::new();
    let mut i: usize = 0;
    while i < v.len()
        invariant
            i <= v@.len(),
            r@ == v@.subrange(0, i as int),
        decreases v@.len() - i,
    {
        r.push(v[i]);
        i += 1;
    }
    assert(r@ =~= v@);
    r
}

/// Take the linked set of entry `i` out, leaving none.
fn take_linked(w: &mut RouteWorld, i: usize) -> (r: Option<RouteLinkedEntities>)
    requires
        i < old(w)@.len(),
    ensures
        final(w)@ == old(w)@.update(i as int, RouteEntityView { linked: None, ..old(w)@[i as int] }),
        match r {
            Some(l) => old(w)@[i as int].linked == Some(l.0@),
            None => old(w)@[i as int].linked is None,
        },
{
    let mut ent = w.entities.remove(i);
    let r = ent.linked.take();
    w.entities.insert(i, ent);
    proof {
        assert(w@ =~= old(w)@.update(i as int, RouteEntityView { linked: None, ..old(w)@[i as int] }));
    }
    r
}

/// A route start `e` received its linked points: make each link reciprocal
/// where the point is live and has no route link, and drop from the set the
/// points that are gone or linked to another route. Nothing changes when `e`
/// is not live or holds no linked set.
pub fn on_add_route_linked_entities(world: &mut RouteWorld, e: EntityId)
    requires
        route_world_ok(old(world)@),
    ensures
        route_world_ok(final(world)@),
        match (if is_live(old(world)@, e) {
            old(world)@[find_route_entity_spec(old(world)@, e)].linked
        } else {
            None
        }) {
            Some(set) => linked_entities_added(old(world)@, final(world)@, e, set),
            None => final(world)@ == old(world)@,
        },
{
    let ghost w0 = world@;
    let ei = match find_route_entity(world, e) {
        None => return,
        Some(i) => i,
    };
    proof {
        lemma_route_entity_unique(w0, e, ei as int);
    }
    let mut set = match take_linked(world, ei) {
        None => {
            proof {
                assert(world@ =~= w0);
            }
            return;
        },
        Some(l) => l.0,
    };
    let ghost s0 = set@;
    proof {
        assert(set_ok(w0[ei as int].linked));
    }
    let snapshot = copy_entities(&set);
    let mut k: usize = 0;
    while k < snapshot.len()
        invariant
            route_world_ok(w0),
            ei < w0.len(),
            w0[ei as int].entity == e,
            w0[ei as int].linked == Some(s0),
            s0.no_duplicates(),
            snapshot@ == s0,
            k <= s0.len(),
            set@.no_duplicates(),
            world@.len() == w0.len(),
            forall|i: int|
                0 <= i < w0.len() ==> {
                    &&& (#[trigger] world@[i]).entity == w0[i].entity
                    &&& world@[i].link == if w0[i].link is None && s0.subrange(0, k as int).contains(w0[i].entity) {
                        Some(e)
                    } else {
                        w0[i].link
                    }
                    &&& world@[i].linked == if i == ei {
                        None
                    } else {
                        w0[i].linked
                    }
                },
            forall|y: EntityId|
                #[trigger] set@.contains(y) <==> s0.contains(y) && (!s0.subrange(0, k as int).contains(y) || links_to(
                    w0,
                    y,
                    e,
                ) || unlinked_point(w0, y)),
        decreases s0.len() - k,
    {
        let y = snapshot[k];
        let ghost wb = world@;
        let ghost sb = set@;
        let ghost d0 = s0.subrange(0, k as int);
        let ghost d1 = s0.subrange(0, k as int + 1);
        proof {
            assert(d1 == d0.push(y));
            assert forall|x: EntityId| d1.contains(x) <==> d0.contains(x) || x == y by {
                if d1.contains(x) && x != y {
                    let q = choose|q: int| 0 <= q < d1.len() && d1[q] == x;
                    assert(d0[q] == x);
                }
                if d0.contains(x) {
                    let q = choose|q: int| 0 <= q < d0.len() && d0[q] == x;
                    assert(d1[q] == x);
                }
                if x == y {
                    assert(d1[k as int] == y);
                }
            }
            assert(!d0.contains(y)) by {
                if d0.contains(y) {
                    let q = choose|q: int| 0 <= q < d0.len() && d0[q] == y;
                    assert(s0[q] == s0[k as int]);
                }
            }
            assert(s0.contains(y)) by {
                assert(s0[k as int] == y);
            }
        }
        let keep: bool = match find_route_entity(world, y) {
            None => {
                proof {
                    assert(!links_to(w0, y, e) && !unlinked_point(w0, y)) by {
                        if links_to(w0, y, e) {
                            let q = choose|q: int| 0 <= q < w0.len() && #[trigger] w0[q].entity == y && w0[q].link == Some(e);
                            assert(wb[q].entity == y);
                        }
                        if unlinked_point(w0, y) {
                            let q = choose|q: int| 0 <= q < w0.len() && #[trigger] w0[q].entity == y && w0[q].link is None;
                            assert(wb[q].entity == y);
                        }
                    }
                }
                false
            },
            Some(j) => {
                proof {
                    assert(wb[j as int].entity == y);
                    assert(w0[j as int].entity == y);
                    assert(wb[j as int].link == w0[j as int].link);
                }
                match world.entities[j].link {
                    Some(l) => {
                        proof {
                            assert(w0[j as int].link == Some(l.0));
                            if l.0 != e {
                                assert(!links_to(w0, y, e)) by {
                                    if links_to(w0, y, e) {
                                        let q = choose|q: int| 0 <= q < w0.len() && #[trigger] w0[q].entity == y && w0[q].link == Some(e);
                                        assert(q == j as int);
                                    }
                                }
                                assert(!unlinked_point(w0, y)) by {
                                    if unlinked_point(w0, y) {
                                        let q = choose|q: int| 0 <= q < w0.len() && #[trigger] w0[q].entity == y && w0[q].link is None;
                                        assert(q == j as int);
                                    }
                                }
                            } else {
                                assert(links_to(w0, y, e));
                            }
                        }
                        l.0 == e
                    },
                    None => {
                        set_link(world, j, Some(RouteLink(e)));
                        proof {
                            assert(unlinked_point(w0, y));
                        }
                        true
                    },
                }
            },
        };
        if !keep {
            remove_one(&mut set, y);
        }
        proof {
            assert forall|i: int| 0 <= i < w0.len() implies {
                &&& (#[trigger] world@[i]).entity == w0[i].entity
                &&& world@[i].link == if w0[i].link is None && d1.contains(w0[i].entity) {
                    Some(e)
                } else {
                    w0[i].link
                }
                &&& world@[i].linked == if i == ei {
                    None
                } else {
                    w0[i].linked
                }
            } by {
                assert(wb[i].entity == w0[i].entity);
                if w0[i].entity == y {
                    assert(is_live(wb, y));
                } else {
                    if world@[i] != wb[i] {
                        assert(w0[i].entity == y);
                    }
                }
            }
            assert forall|x: EntityId|
                #[trigger] set@.contains(x) <==> s0.contains(x) && (!d1.contains(x) || links_to(w0, x, e)
                    || unlinked_point(w0, x)) by {
                assert(sb.contains(x) <==> s0.contains(x) && (!d0.contains(x) || links_to(w0, x, e) || unlinked_point(w0, x)));
            }
        }
        k += 1;
    }
    proof {
        assert(s0.subrange(0, s0.len() as int) == s0);
    }
    let ghost wl = world@;
    let ghost sv = set@;
    set_linked(world, ei, Some(RouteLinkedEntities(set)));
    proof {
        assert forall|i: int| 0 <= i < w0.len() implies set_ok(#[trigger] world@[i].linked) by {
            if i != ei {
                assert(world@[i] == wl[i]);
                assert(set_ok(w0[i].linked));
            }
        }
        assert forall|i: int, j: int| 0 <= i < j < world@.len() implies world@[i].entity != world@[j].entity by {
            assert(wl[i].entity == w0[i].entity && wl[j].entity == w0[j].entity);
        }
        assert forall|i: int| 0 <= i < w0.len() implies {
            &&& (#[trigger] world@[i]).entity == w0[i].entity
            &&& world@[i].link == if w0[i].link is None && s0.contains(w0[i].entity) {
                Some(e)
            } else {
                w0[i].link
            }
            &&& w0[i].entity != e ==> world@[i].linked == w0[i].linked
            &&& w0[i].entity == e ==> kept_linked(world@[i].linked, w0, s0, e)
        } by {
            assert(wl[i].entity == w0[i].entity);
            if i == ei {
                assert(world@[i].linked == Some(sv));
            } else {
                assert(world@[i] == wl[i]);
                assert(w0[i].entity != e);
            }
        }
        assert(linked_entities_added(w0, world@, e, s0));
    }
}

/// The place of live entity `e` (meaningful when `is_live(w, e)`).
pub open spec fn find_route_entity_spec(w: Seq<RouteEntityView>, e: EntityId) -> int {
    choose|i: int| 0 <= i < w.len() && #[trigger] w[i].entity == e
}

proof fn lemma_route_entity_unique(w: Seq<RouteEntityView>, e: EntityId, i: int)
    requires
        route_world_ok(w),
        0 <= i < w.len(),
        w[i].entity == e,
    ensures
        is_live(w, e),
        find_route_entity_spec(w, e) == i,
{
    assert(is_live(w, e));
    let k = find_route_entity_spec(w, e);
    if k != i {
        if k < i {
            assert(w[k].entity != w[i].entity);
        } else {
            assert(w[i].entity != w[k].entity);
        }
    }
}

/// `linked` lists, once each, the points of `set` and `e`.
pub open spec fn set_with(linked: Option<Seq<EntityId>>, set: Seq<EntityId>, e: EntityId) -> bool {
    linked matches Some(m) && m.no_duplicates() && forall|y: EntityId| #[trigger] m.contains(y) <==> set.contains(y) || y == e
}

/// `linked` lists, once each, the points of `set` other than `e`.
pub open spec fn set_without(linked: Option<Seq<EntityId>>, set: Seq<EntityId>, e: EntityId) -> bool {
    linked matches Some(m) && m.no_duplicates() && forall|y: EntityId| #[trigger] m.contains(y) <==> set.contains(y) && y != e
}

/// The route start that live entity `e` links to, if any.
pub open spec fn link_target(w: Seq<RouteEntityView>, e: EntityId) -> Option<EntityId> {
    if is_live(w, e) {
        w[find_route_entity_spec(w, e)].link
    } else {
        None
    }
}

/// `t` is a live entity that holds a set of linked points.
pub open spec fn holds_links(w: Seq<RouteEntityView>, t: EntityId) -> bool {
    is_live(w, t) && w[find_route_entity_spec(w, t)].linked is Some
}

/// After the route link of `e` was added: `e` joined the linked points of
/// the route start it names, or, when that is not a live route start, lost
/// the link again.
pub open spec fn route_link_added(w0: Seq<RouteEntityView>, w1: Seq<RouteEntityView>, e: EntityId) -> bool {
    &&& w1.len() == w0.len()
    &&& forall|i: int|
        0 <= i < w0.len() ==> {
            &&& (#[trigger] w1[i]).entity == w0[i].entity
            &&& match link_target(w0, e) {
                None => w1[i] == w0[i],
                Some(t) => if holds_links(w0, t) {
                    &&& w1[i].link == w0[i].link
                    &&& w0[i].entity != t ==> w1[i].linked == w0[i].linked
                    &&& w0[i].entity == t ==> set_with(w1[i].linked, w0[i].linked->Some_0, e)
                } else {
                    &&& w1[i].linked == w0[i].linked
                    &&& w1[i].link == if w0[i].entity == e {
                        None
                    } else {
                        w0[i].link
                    }
                },
            }
        }
}

/// After the route link of `e` was removed: `e` left the linked points of the
/// route start it named, and has no link.
pub open spec fn route_link_removed(w0: Seq<RouteEntityView>, w1: Seq<RouteEntityView>, e: EntityId) -> bool {
    &&& w1.len() == w0.len()
    &&& forall|i: int|
        0 <= i < w0.len() ==> {
            &&& (#[trigger] w1[i]).entity == w0[i].entity
            &&& w1[i].link == if w0[i].entity == e {
                None
            } else {
                w0[i].link
            }
            &&& match link_target(w0, e) {
                Some(t) => if w0[i].entity == t && w0[i].linked is Some {
                    set_without(w1[i].linked, w0[i].linked->Some_0, e)
                } else {
                    w1[i].linked == w0[i].linked
                },
                None => w1[i].linked == w0[i].linked,
            }
        }
}

/// The links in `set` that pointed at `from` were removed in `w1`; nothing
/// else changed.
pub open spec fn links_released(w0: Seq<RouteEntityView>, w1: Seq<RouteEntityView>, set: Seq<EntityId>, from: EntityId) -> bool {
    &&& w1.len() == w0.len()
    &&& forall|i: int|
        0 <= i < w0.len() ==> {
            &&& (#[trigger] w1[i]).entity == w0[i].entity
            &&& w1[i].link == if w0[i].link == Some(from) && set.contains(w0[i].entity) {
                None
            } else {
                w0[i].link
            }
            &&& w1[i].linked == w0[i].linked
        }
}

/// The linked points of route start `e` were removed from it. When `e` is
/// still live this is housekeeping and nothing changes. When `e` was
/// despawned, its links move to `next` (its successor, if that is still a
/// route point with a path node, as the caller determines); without one, the
/// points that linked to `e` lose their route link.
pub fn on_remove_route_linked_entities(world: &mut RouteWorld, e: EntityId, removed: &RouteLinkedEntities, next: Option<EntityId>)
    requires
        route_world_ok(old(world)@),
    ensures
        route_world_ok(final(world)@),
        is_live(old(world)@, e) ==> final(world)@ == old(world)@,
        !is_live(old(world)@, e) ==> match next {
            Some(n) => if is_live(old(world)@, n) {
                moved_route_start(old(world)@, final(world)@, removed.0@, e, n)
            } else {
                final(world)@ == old(world)@
            },
            None => links_released(old(world)@, final(world)@, removed.0@, e),
        },
{
    match find_route_entity(world, e) {
        Some(_) => return,
        None => {},
    }
    match next {
        Some(n) => {
            removed.move_route_start(world, e, n);
        },
        None => {
            let ghost w0 = world@;
            let mut k: usize = 0;
            while k < removed.0.len()
                invariant
                    route_world_ok(w0),
                    k <= removed.0@.len(),
                    links_released(w0, world@, removed.0@.subrange(0, k as int), e),
                decreases removed.0@.len() - k,
            {
                let y = removed.0[k];
                let ghost wb = world@;
                let ghost d0 = removed.0@.subrange(0, k as int);
                let ghost d1 = removed.0@.subrange(0, k as int + 1);
                proof {
                    assert(d1 == d0.push(y));
                    assert forall|x: EntityId| d1.contains(x) <==> d0.contains(x) || x == y by {
                        if d1.contains(x) && x != y {
                            let q = choose|q: int| 0 <= q < d1.len() && d1[q] == x;
                            assert(d0[q] == x);
                        }
                        if d0.contains(x) {
                            let q = choose|q: int| 0 <= q < d0.len() && d0[q] == x;
                            assert(d1[q] == x);
                        }
                        if x == y {
                            assert(d1[k as int] == y);
                        }
                    }
                }
                match find_route_entity(world, y) {
                    Some(j) => {
                        let release = match world.entities[j].link {
                            Some(l) => l.0 == e,
                            None => false,
                        };
                        if release {
                            set_link(world, j, None);
                        }
                        proof {
                            assert(wb[j as int].entity == w0[j as int].entity);
                            assert forall|i: int| 0 <= i < w0.len() implies {
                                &&& (#[trigger] world@[i]).entity == w0[i].entity
                                &&& world@[i].link == if w0[i].link == Some(e) && d1.contains(w0[i].entity) {
                                    None
                                } else {
                                    w0[i].link
                                }
                                &&& world@[i].linked == w0[i].linked
                            } by {
                                assert(wb[i].entity == w0[i].entity);
                                if i != j as int {
                                    assert(world@[i] == wb[i]);
                                    assert(w0[i].entity != y);
                                }
                            }
                        }
                    },
                    None => {
                        proof {
                            assert forall|i: int| 0 <= i < w0.len() implies {
                                &&& (#[trigger] world@[i]).entity == w0[i].entity
                                &&& world@[i].link == if w0[i].link == Some(e) && d1.contains(w0[i].entity) {
                                    None
                                } else {
                                    w0[i].link
                                }
                                &&& world@[i].linked == w0[i].linked
                            } by {
                                assert(wb[i].entity == w0[i].entity);
                                if w0[i].entity == y {
                                    assert(is_live(world@, y));
                                }
                            }
                        }
                    },
                }
                k += 1;
            }
            proof {
                assert(removed.0@.subrange(0, removed.0@.len() as int) == removed.0@);
                assert forall|i: int| 0 <= i < world@.len() implies set_ok(#[trigger] world@[i].linked) by {
                    assert(set_ok(w0[i].linked));
                }
                assert forall|i: int, j: int| 0 <= i < j < world@.len() implies world@[i].entity != world@[j].entity by {
                    assert(world@[i].entity == w0[i].entity && world@[j].entity == w0[j].entity);
                }
            }
        },
    }
}

/// The route link of `e` was added: `e` joins the linked points of the route
/// start it names, or, when that entity is not a live route start, the link
/// is removed again. Nothing changes when `e` is not live or has no link.
pub fn on_add_route_link(world: &mut RouteWorld, e: EntityId)
    requires
        route_world_ok(old(world)@),
    ensures
        route_world_ok(final(world)@),
        route_link_added(old(world)@, final(world)@, e),
{
    let ghost w0 = world@;
    let ei = match find_route_entity(world, e) {
        None => return,
        Some(i) => i,
    };
    proof {
        lemma_route_entity_unique(w0, e, ei as int);
    }
    let t = match world.entities[ei].link {
        None => return,
        Some(l) => l.0,
    };
    let ti = match find_route_entity(world, t) {
        Some(ti) => {
            proof {
                lemma_route_entity_unique(w0, t, ti as int);
            }
            if world.entities[ti].linked.is_some() {
                ti
            } else {
                set_link(world, ei, None);
                proof {
                    assert forall|i: int, j: int| 0 <= i < j < world@.len() implies world@[i].entity != world@[j].entity by {
                        assert(world@[i].entity == w0[i].entity && world@[j].entity == w0[j].entity);
                    }
                    assert forall|i: int| 0 <= i < world@.len() implies set_ok(#[trigger] world@[i].linked) by {
                        assert(set_ok(w0[i].linked));
                    }
                }
                return;
            }
        },
        None => {
            set_link(world, ei, None);
            proof {
                assert forall|i: int, j: int| 0 <= i < j < world@.len() implies world@[i].entity != world@[j].entity by {
                    assert(world@[i].entity == w0[i].entity && world@[j].entity == w0[j].entity);
                }
                assert forall|i: int| 0 <= i < world@.len() implies set_ok(#[trigger] world@[i].linked) by {
                    assert(set_ok(w0[i].linked));
                }
            }
            return;
        },
    };
    let mut set = match take_linked(world, ti) {
        Some(l) => l.0,
        None => {
            proof {
                assert(false);
            }
            return;
        },
    };
    let ghost s0 = set@;
    proof {
        assert(set_ok(w0[ti as int].linked));
    }
    insert_one(&mut set, e);
    let ghost s1 = set@;
    set_linked(world, ti, Some(RouteLinkedEntities(set)));
    proof {
        assert forall|y: EntityId| s1.contains(y) <==> s0.contains(y) || y == e by {
            if !s0.contains(e) {
                assert(s1 == s0.push(e));
                if s1.contains(y) && y != e {
                    let q = choose|q: int| 0 <= q < s1.len() && s1[q] == y;
                    assert(s0[q] == y);
                }
                if s0.contains(y) {
                    let q = choose|q: int| 0 <= q < s0.len() && s0[q] == y;
                    assert(s1[q] == y);
                }
                if y == e {
                    assert(s1[s0.len() as int] == e);
                }
            }
        }
        assert forall|i: int, j: int| 0 <= i < j < world@.len() implies world@[i].entity != world@[j].entity by {
            assert(world@[i].entity == w0[i].entity && world@[j].entity == w0[j].entity);
        }
        assert forall|i: int| 0 <= i < world@.len() implies set_ok(#[trigger] world@[i].linked) by {
            assert(set_ok(w0[i].linked));
        }
    }
}

/// The route link of `e` is being removed: `e` leaves the linked points of
/// the route start it named (if that is a live route start), and loses the
/// link. Nothing changes when `e` is not live.
pub fn on_remove_route_link(world: &mut RouteWorld, e: EntityId)
    requires
        route_world_ok(old(world)@),
    ensures
        route_world_ok(final(world)@),
        route_link_removed(old(world)@, final(world)@, e),
{
    let ghost w0 = world@;
    let ei = match find_route_entity(world, e) {
        None => {
            proof {
                assert forall|i: int| 0 <= i < w0.len() implies w0[i].entity != e by {
                    if w0[i].entity == e {
                        assert(is_live(w0, e));
                    }
                }
            }
            return;
        },
        Some(i) => i,
    };
    proof {
        lemma_route_entity_unique(w0, e, ei as int);
    }
    match world.entities[ei].link {
        None => {},
        Some(l) => {
            let t = l.0;
            match find_route_entity(world, t) {
                Some(ti) => {
                    proof {
                        lemma_route_entity_unique(w0, t, ti as int);
                    }
                    match take_linked(world, ti) {
                        Some(linked) => {
                            let mut set = linked.0;
                            let ghost s0 = set@;
                            proof {
                                assert(set_ok(w0[ti as int].linked));
                            }
                            remove_one(&mut set, e);
                            set_linked(world, ti, Some(RouteLinkedEntities(set)));
                        },
                        None => {
                            proof {
                                assert(world@ =~= w0);
                            }
                        },
                    }
                },
                None => {
                    proof {
                        assert forall|i: int| 0 <= i < w0.len() implies w0[i].entity != t by {
                            if w0[i].entity == t {
                                assert(is_live(w0, t));
                            }
                        }
                    }
                },
            }
        },
    }
    let ghost wm = world@;
    set_link(world, ei, None);
    proof {
        assert forall|i: int, j: int| 0 <= i < j < world@.len() implies world@[i].entity != world@[j].entity by {
            assert(world@[i].entity == w0[i].entity && world@[j].entity == w0[j].entity);
        }
        assert forall|i: int| 0 <= i < world@.len() implies set_ok(#[trigger] world@[i].linked) by {
            assert(set_ok(w0[i].linked));
        }
    }
}

/// A route point was added: it starts a route (and gets a fresh route start:
/// default settings, no linked points) when it has no predecessor.
pub fn on_add_route_pt(g: &PathGraph, e: EntityId) -> (r: bool)
    ensures
        r == (has(g@, e) && node(g@, e).prev.len() == 0),
{
    match find_entry(g, e) {
        None => false,
        Some(i) => {
            assert(node(g@, e) == g@[i as int]);
            g.entries[i].node.prev_nodes.len() == 0
        },
    }
}

/// A route point is being removed: its successor (the first listed; routes
/// do not branch), if that is still a path point, starts a new route and
/// gets a fresh route start.
pub fn on_remove_route_pt(g: &PathGraph, e: EntityId) -> (r: Option<EntityId>)
    ensures
        r == if has(g@, e) && node(g@, e).next.len() > 0 && has(g@, node(g@, e).next[0]) {
            Some(node(g@, e).next[0])
        } else {
            None
        },
{
    match find_entry(g, e) {
        None => None,
        Some(i) => {
            assert(node(g@, e) == g@[i as int]);
            if g.entries[i].node.next_nodes.len() == 0 {
                None
            } else {
                let n = g.entries[i].node.next_nodes[0];
                match find_entry(g, n) {
                    Some(_) => Some(n),
                    None => None,
                }
            }
        },
    }
}

/// The point after `e` on its route: its first recorded successor, when `e`
/// is a path point and that successor is a route point.
pub open spec fn forward_step(g: Seq<EntryView>, e: EntityId) -> Option<EntityId> {
    if has(g, e) && node(g, e).next.len() > 0 && has(g, node(g, e).next[0]) {
        Some(node(g, e).next[0])
    } else {
        None
    }
}

/// `r` is the route from `e` as it is written out: `e`, then each next
/// point in turn, until there is none or the next one was already written.
pub open spec fn route_from(g: Seq<EntryView>, e: EntityId, r: Seq<EntityId>) -> bool {
    &&& r.len() >= 1
    &&& r[0] == e
    &&& r.no_duplicates()
    &&& forall|k: int| 0 <= k < r.len() - 1 ==> forward_step(g, #[trigger] r[k]) == Some(r[k + 1])
    &&& match forward_step(g, r.last()) {
        None => true,
        Some(n) => r.contains(n),
    }
}

/// The points of the route that starts at `e`, in order, stopping at a
/// point already met (malformed data may hold a cycle) or at a successor
/// that is not a route point. `g` holds the route points.
pub fn route_points(g: &PathGraph, e: EntityId) -> (r: Vec<EntityId>)
    ensures
        route_from(g@, e, r@),
{
    let mut r: Vec<EntityId> = Vec::new();
    r.push(e);
    let mut cur = e;
    loop
        invariant
            r@.len() >= 1,
            r@[0] == e,
            cur == r@.last(),
            r@.no_duplicates(),
            forall|k: int| 0 <= k < r@.len() - 1 ==> forward_step(g@, #[trigger] r@[k]) == Some(r@[k + 1]),
            forall|k: int| 1 <= k < r@.len() ==> has(g@, #[trigger] r@[k]),
        decreases g@.len() + 1 - r@.len(),
    {
        let next = match find_entry(g, cur) {
            None => None,
            Some(i) => {
                assert(node(g@, cur) == g@[i as int]);
                if g.entries[i].node.next_nodes.len() == 0 {
                    None
                } else {
                    let n = g.entries[i].node.next_nodes[0];
                    match find_entry(g, n) {
                        Some(_) => Some(n),
                        None => None,
                    }
                }
            },
        };
        assert(next == forward_step(g@, cur));
        let n = match next {
            None => return r,
            Some(n) => n,
        };
        if contains(&r, n) {
            return r;
        }
        proof {
            let tail = r@.subrange(1, r@.len() as int).push(n);
            assert forall|k: int| 0 <= k < tail.len() implies has(g@, #[trigger] tail[k]) by {
                if k < r@.len() - 1 {
                    assert(tail[k] == r@[k + 1]);
                }
            }
            assert(tail.no_duplicates()) by {
                assert forall|a: int, b: int| 0 <= a < b < tail.len() implies tail[a] != tail[b] by {
                    if b == tail.len() - 1 {
                        assert(tail[a] == r@[a + 1]);
                        assert(r@.contains(r@[a + 1]));
                    } else {
                        assert(tail[a] == r@[a + 1] && tail[b] == r@[b + 1]);
                    }
                }
            }
            lemma_points_bound(g@, tail);
        }
        let ghost before = r@;
        r.push(n);
        proof {
            assert forall|a: int, b: int| 0 <= a < b < r@.len() implies r@[a] != r@[b] by {
                if b == before.len() {
                    assert(before.contains(before[a]));
                } else {
                    assert(before[a] != before[b]);
                }
            }
            assert forall|k: int| 0 <= k < r@.len() - 1 implies forward_step(g@, #[trigger] r@[k]) == Some(r@[k + 1]) by {
                if k < before.len() - 1 {
                    assert(r@[k] == before[k] && r@[k + 1] == before[k + 1]);
                } else {
                    assert(r@[k] == cur);
                }
            }
        }
        cur = n;
    }
}

/// The start of the route through `e` (see [`is_route_start`]).
pub open spec fn route_start_fn(g: Seq<EntryView>, e: EntityId) -> EntityId {
    choose|r: EntityId| is_route_start(g, e, r)
}

/// `e` is a path point that carries route settings.
pub open spec fn has_settings(g: Seq<EntryView>, e: EntityId) -> bool {
    has(g, e) && node(g, e).route_start
}

/// The linked set of live entity `e`, if it holds one.
pub open spec fn linked_of(w: Seq<RouteEntityView>, e: EntityId) -> Option<Seq<EntityId>> {
    if is_live(w, e) {
        w[find_route_entity_spec(w, e)].linked
    } else {
        None
    }
}

/// What a pass of [`update_routes`] leaves to be done afterwards.
#[derive(Debug, Clone, Copy, PartialEq, Eq, Structural)]
pub enum RouteUpdate {
    /// Give this route start default settings and an empty linked set.
    InsertStart(EntityId),
    /// Take the settings and linked set off this point, which no longer
    /// starts its route.
    RemoveStart(EntityId),
}

/// The decision for route point `e`: a start that lacks settings or a linked
/// set gets a fresh route start; otherwise a point that holds a linked set
/// but has a predecessor hands its links to the real start and loses its
/// route start.
pub open spec fn route_decision(w0: Seq<RouteEntityView>, g: Seq<EntryView>, e: EntityId) -> Option<RouteUpdate> {
    let s = route_start_fn(g, e);
    if !(has_settings(g, s) && linked_of(w0, s) is Some) {
        Some(RouteUpdate::InsertStart(s))
    } else if linked_of(w0, e) is Some && has(g, e) && node(g, e).prev.len() > 0 {
        Some(RouteUpdate::RemoveStart(e))
    } else {
        None
    }
}

/// The decisions for the first `upto` route points, in order.
pub open spec fn route_decisions(w0: Seq<RouteEntityView>, g: Seq<EntryView>, points: Seq<EntityId>, upto: int) -> Seq<RouteUpdate>
    decreases upto,
{
    if upto <= 0 {
        Seq::empty()
    } else {
        let d = route_decisions(w0, g, points, upto - 1);
        match route_decision(w0, g, points[upto - 1]) {
            Some(u) => d.push(u),
            None => d,
        }
    }
}

/// `s` with `x` added unless it is listed.
pub open spec fn set_insert(s: Seq<EntityId>, x: EntityId) -> Seq<EntityId> {
    if s.contains(x) {
        s
    } else {
        s.push(x)
    }
}

/// `set` with each of the first `upto` points of `l` that link to `e` added.
pub open spec fn moved_into(w: Seq<RouteEntityView>, e: EntityId, set: Seq<EntityId>, l: Seq<EntityId>, upto: int) -> Seq<EntityId>
    decreases upto,
{
    if upto <= 0 {
        set
    } else {
        let acc = moved_into(w, e, set, l, upto - 1);
        if links_to(w, l[upto - 1], e) {
            set_insert(acc, l[upto - 1])
        } else {
            acc
        }
    }
}

/// `w` after stale start `e` handed its links to start `s`: each point of
/// `e`'s set that links to `e` links to `s` and joins `s`'s set.
pub open spec fn transfer_view(w: Seq<RouteEntityView>, e: EntityId, s: EntityId) -> Seq<RouteEntityView> {
    let l = linked_of(w, e)->Some_0;
    let si = find_route_entity_spec(w, s);
    Seq::new(
        w.len(),
        |i: int|
            RouteEntityView {
                entity: w[i].entity,
                link: if w[i].link == Some(e) && l.contains(w[i].entity) {
                    Some(s)
                } else {
                    w[i].link
                },
                linked: if i == si {
                    Some(moved_into(w, e, w[si].linked->Some_0, l, l.len() as int))
                } else {
                    w[i].linked
                },
            },
    )
}

/// The entities after the first `upto` route points were handled.
pub open spec fn routes_updated(w0: Seq<RouteEntityView>, g: Seq<EntryView>, points: Seq<EntityId>, upto: int) -> Seq<RouteEntityView>
    decreases upto,
{
    if upto <= 0 {
        w0
    } else {
        let w = routes_updated(w0, g, points, upto - 1);
        match route_decision(w0, g, points[upto - 1]) {
            Some(RouteUpdate::RemoveStart(e)) => transfer_view(w, e, route_start_fn(g, e)),
            _ => w,
        }
    }
}

/// The same entities, each with the same linked set present or absent.
spec fn same_shape(w0: Seq<RouteEntityView>, w: Seq<RouteEntityView>) -> bool {
    &&& w.len() == w0.len()
    &&& forall|i: int| 0 <= i < w0.len() ==> (#[trigger] w[i]).entity == w0[i].entity && (w[i].linked is Some
        <==> w0[i].linked is Some)
}

proof fn lemma_same_shape_linked(w0: Seq<RouteEntityView>, w: Seq<RouteEntityView>, x: EntityId)
    requires
        route_world_ok(w0),
        same_shape(w0, w),
    ensures
        is_live(w, x) == is_live(w0, x),
        is_live(w0, x) ==> find_route_entity_spec(w, x) == find_route_entity_spec(w0, x),
        (linked_of(w, x) is Some) == (linked_of(w0, x) is Some),
{
    if is_live(w0, x) {
        let i = find_route_entity_spec(w0, x);
        assert(w[i].entity == x);
        assert(is_live(w, x));
        let j = find_route_entity_spec(w, x);
        assert(w0[j].entity == x);
        if i != j {
            if i < j {
                assert(w0[i].entity != w0[j].entity);
            } else {
                assert(w0[j].entity != w0[i].entity);
            }
        }
    }
    if is_live(w, x) {
        let j = find_route_entity_spec(w, x);
        assert(w0[j].entity == x);
    }
}

proof fn lemma_transfer_shape(w: Seq<RouteEntityView>, e: EntityId, s: EntityId)
    requires
        route_world_ok(w),
        linked_of(w, s) is Some,
    ensures
        same_shape(w, transfer_view(w, e, s)),
{
    let t = transfer_view(w, e, s);
    let si = find_route_entity_spec(w, s);
    assert forall|i: int| 0 <= i < w.len() implies (#[trigger] t[i]).entity == w[i].entity && (t[i].linked is Some
        <==> w[i].linked is Some) by {
        if i == si {
            assert(w[si].linked is Some);
        }
    }
}

/// Hand the links of stale start `e` to start `s` (see [`transfer_view`]).
fn transfer_links(world: &mut RouteWorld, e: EntityId, s: EntityId)
    requires
        route_world_ok(old(world)@),
        linked_of(old(world)@, e) is Some,
        linked_of(old(world)@, s) is Some,
    ensures
        route_world_ok(final(world)@),
        final(world)@ == transfer_view(old(world)@, e, s),
{
    let ghost w0 = world@;
    let ei = find_route_entity(world, e).unwrap();
    let si = find_route_entity(world, s).unwrap();
    proof {
        lemma_route_entity_unique(w0, e, ei as int);
        lemma_route_entity_unique(w0, s, si as int);
    }
    let l = copy_entities(&world.entities[ei].linked.as_ref().unwrap().0);
    let ghost lv = l@;
    proof {
        assert(lv == linked_of(w0, e)->Some_0);
        assert(set_ok(w0[ei as int].linked));
    }
    let mut set = take_linked(world, si).unwrap().0;
    let ghost s0 = set@;
    proof {
        assert(s0 == w0[si as int].linked->Some_0);
        assert(set_ok(w0[si as int].linked));
    }
    let mut k: usize = 0;
    while k < l.len()
        invariant
            route_world_ok(w0),
            si < w0.len(),
            w0[si as int].entity == s,
            ei < w0.len(),
            w0[ei as int].entity == e,
            lv == l@,
            lv.no_duplicates(),
            k <= lv.len(),
            set@.no_duplicates(),
            set@ == moved_into(w0, e, s0, lv, k as int),
            world@.len() == w0.len(),
            forall|i: int|
                0 <= i < w0.len() ==> {
                    &&& (#[trigger] world@[i]).entity == w0[i].entity
                    &&& world@[i].link == if w0[i].link == Some(e) && lv.subrange(0, k as int).contains(w0[i].entity) {
                        Some(s)
                    } else {
                        w0[i].link
                    }
                    &&& world@[i].linked == if i == si {
                        None
                    } else {
                        w0[i].linked
                    }
                },
        decreases lv.len() - k,
    {
        let y = l[k];
        let ghost wb = world@;
        let ghost d0 = lv.subrange(0, k as int);
        let ghost d1 = lv.subrange(0, k as int + 1);
        proof {
            assert(d1 == d0.push(y));
            assert forall|x: EntityId| d1.contains(x) <==> d0.contains(x) || x == y by {
                if d1.contains(x) && x != y {
                    let q = choose|q: int| 0 <= q < d1.len() && d1[q] == x;
                    assert(d0[q] == x);
                }
                if d0.contains(x) {
                    let q = choose|q: int| 0 <= q < d0.len() && d0[q] == x;
                    assert(d1[q] == x);
                }
                if x == y {
                    assert(d1[k as int] == y);
                }
            }
            assert(!d0.contains(y)) by {
                if d0.contains(y) {
                    let q = choose|q: int| 0 <= q < d0.len() && d0[q] == y;
                    assert(lv[q] == lv[k as int]);
                }
            }
        }
        match find_route_entity(world, y) {
            Some(j) => {
                proof {
                    assert(w0[j as int].entity == y);
                    assert(wb[j as int].link == w0[j as int].link);
                }
                let relink = match world.entities[j].link {
                    Some(l0) => l0.0 == e,
                    None => false,
                };
                proof {
                    assert(relink == links_to(w0, y, e)) by {
                        if links_to(w0, y, e) {
                            let q = choose|q: int| 0 <= q < w0.len() && #[trigger] w0[q].entity == y && w0[q].link == Some(e);
                            if q != j as int {
                                if q < j {
                                    assert(w0[q].entity != w0[j as int].entity);
                                } else {
                                    assert(w0[j as int].entity != w0[q].entity);
                                }
                            }
                        }
                    }
                }
                if relink {
                    set_link(world, j, Some(RouteLink(s)));
                    let ghost sb = set@;
                    insert_one(&mut set, y);
                    proof {
                        assert(set@ == set_insert(sb, y));
                    }
                }
                proof {
                    assert forall|i: int| 0 <= i < w0.len() implies {
                        &&& (#[trigger] world@[i]).entity == w0[i].entity
                        &&& world@[i].link == if w0[i].link == Some(e) && d1.contains(w0[i].entity) {
                            Some(s)
                        } else {
                            w0[i].link
                        }
                        &&& world@[i].linked == if i == si {
                            None
                        } else {
                            w0[i].linked
                        }
                    } by {
                        assert(wb[i].entity == w0[i].entity);
                        if i != j as int {
                            assert(w0[i].entity != y);
                            if relink {
                                assert(world@[i] == wb[i]);
                            }
                        }
                    }
                }
            },
            None => {
                proof {
                    assert(!links_to(w0, y, e)) by {
                        if links_to(w0, y, e) {
                            let q = choose|q: int| 0 <= q < w0.len() && #[trigger] w0[q].entity == y && w0[q].link == Some(e);
                            assert(wb[q].entity == y);
                        }
                    }
                    assert forall|i: int| 0 <= i < w0.len() implies {
                        &&& (#[trigger] world@[i]).entity == w0[i].entity
                        &&& world@[i].link == if w0[i].link == Some(e) && d1.contains(w0[i].entity) {
                            Some(s)
                        } else {
                            w0[i].link
                        }
                        &&& world@[i].linked == if i == si {
                            None
                        } else {
                            w0[i].linked
                        }
                    } by {
                        assert(wb[i].entity == w0[i].entity);
                        if w0[i].entity == y {
                            assert(is_live(world@, y));
                        }
                    }
                }
            },
        }
        k += 1;
    }
    proof {
        assert(lv.subrange(0, lv.len() as int) == lv);
    }
    let ghost wl = world@;
    let ghost sv = set@;
    set_linked(world, si, Some(RouteLinkedEntities(set)));
    proof {
        let t = transfer_view(w0, e, s);
        assert(find_route_entity_spec(w0, s) == si as int);
        assert(linked_of(w0, e) == Some(lv));
        assert forall|i: int| 0 <= i < w0.len() implies world@[i] == t[i] by {
            assert(wl[i].entity == w0[i].entity);
            if i != si as int {
                assert(world@[i] == wl[i]);
            }
        }
        assert(world@ =~= t);
        assert forall|i: int, j: int| 0 <= i < j < world@.len() implies world@[i].entity != world@[j].entity by {
            assert(world@[i].entity == w0[i].entity && world@[j].entity == w0[j].entity);
        }
        assert forall|i: int| 0 <= i < world@.len() implies set_ok(#[trigger] world@[i].linked) by {
            if i != si as int {
                assert(set_ok(w0[i].linked));
            }
        }
    }
}

/// One pass of route upkeep over the route points (in `points`' order): a
/// route start that lacks its settings or linked set is to get a fresh one;
/// a point that holds a linked set although it has a predecessor hands the
/// links that still point at it to the real start of its route, at once, and
/// is to lose its route start. The insertions and removals are returned in
/// order, to be applied after the pass; they depend only on the state before
/// the pass.
pub fn update_routes(starts: &GetRouteStart, world: &mut RouteWorld, points: &Vec<EntityId>) -> (r: Vec<RouteUpdate>)
    requires
        route_world_ok(old(world)@),
    ensures
        route_world_ok(final(world)@),
        r@ == route_decisions(old(world)@, starts.points@, points@, points@.len() as int),
        final(world)@ == routes_updated(old(world)@, starts.points@, points@, points@.len() as int),
{
    let ghost w0 = world@;
    let ghost g = starts.points@;
    let mut r: Vec<RouteUpdate> = Vec::new();
    let mut i: usize = 0;
    while i < points.len()
        invariant
            route_world_ok(w0),
            g == starts.points@,
            i <= points@.len(),
            route_world_ok(world@),
            same_shape(w0, world@),
            world@ == routes_updated(w0, g, points@, i as int),
            r@ == route_decisions(w0, g, points@, i as int),
        decreases points@.len() - i,
    {
        let e = points[i];
        let s = starts.get_entity(e);
        proof {
            let c = route_start_fn(g, e);
            assert(is_route_start(g, e, c));
            lemma_route_start_unique(g, e, s, c);
        }
        let settings = match find_entry(&starts.points, s) {
            Some(k) => {
                assert(node(g, s) == g[k as int]);
                starts.points.entries[k].route_start
            },
            None => false,
        };
        let ghost wb = world@;
        proof {
            lemma_same_shape_linked(w0, wb, s);
            lemma_same_shape_linked(w0, wb, e);
        }
        let s_linked = match find_route_entity(world, s) {
            Some(k) => {
                proof {
                    lemma_route_entity_unique(wb, s, k as int);
                }
                world.entities[k].linked.is_some()
            },
            None => false,
        };
        assert(s_linked == (linked_of(wb, s) is Some));
        if !(settings && s_linked) {
            r.push(RouteUpdate::InsertStart(s));
            proof {
                assert(route_decision(w0, g, e) == Some(RouteUpdate::InsertStart(s)));
                assert(r@ == route_decisions(w0, g, points@, i + 1));
                assert(world@ == routes_updated(w0, g, points@, i + 1));
            }
        } else {
            let e_linked = match find_route_entity(world, e) {
                Some(k) => {
                    proof {
                        lemma_route_entity_unique(wb, e, k as int);
                    }
                    world.entities[k].linked.is_some()
                },
                None => false,
            };
            assert(e_linked == (linked_of(wb, e) is Some));
            let has_prev = match find_entry(&starts.points, e) {
                Some(k) => {
                    assert(node(g, e) == g[k as int]);
                    starts.points.entries[k].node.prev_nodes.len() > 0
                },
                None => false,
            };
            if e_linked && has_prev {
                transfer_links(world, e, s);
                r.push(RouteUpdate::RemoveStart(e));
                proof {
                    assert(route_decision(w0, g, e) == Some(RouteUpdate::RemoveStart(e)));
                    assert(r@ == route_decisions(w0, g, points@, i + 1));
                    assert(world@ == routes_updated(w0, g, points@, i + 1));
                    lemma_transfer_shape(wb, e, s);
                    let w1 = world@;
                    assert forall|k: int| 0 <= k < w0.len() implies (#[trigger] w1[k]).entity == w0[k].entity && (w1[k].linked is Some
                        <==> w0[k].linked is Some) by {
                        assert(wb[k].entity == w0[k].entity);
                        assert(w1[k].entity == wb[k].entity);
                    }
                }
            } else {
                proof {
                    assert(route_decision(w0, g, e) is None);
                    assert(r@ == route_decisions(w0, g, points@, i + 1));
                    assert(world@ == routes_updated(w0, g, points@, i + 1));
                }
            }
        }
        i += 1;
    }
    r
}

/// `w1` is `w0` after the live points of `pts` were linked to route start
/// `s`: each now links to `s`, and those that had no route link joined the
/// linked set of `s` (a point that already had a link only has it replaced).
pub open spec fn linked_to_route(w0: Seq<RouteEntityView>, w1: Seq<RouteEntityView>, s: EntityId, pts: Seq<EntityId>) -> bool {
    &&& w1.len() == w0.len()
    &&& forall|i: int|
        0 <= i < w0.len() ==> {
            &&& (#[trigger] w1[i]).entity == w0[i].entity
            &&& w1[i].link == if pts.contains(w0[i].entity) {
                Some(s)
            } else {
                w0[i].link
            }
            &&& w0[i].entity != s ==> w1[i].linked == w0[i].linked
            &&& w0[i].entity == s ==> (w1[i].linked matches Some(m) && m.no_duplicates() && forall|y: EntityId|
                #[trigger] m.contains(y) <==> w0[i].linked->Some_0.contains(y) || (pts.contains(y) && unlinked_point(w0, y)))
        }
}

/// The route a point belongs to in link-select mode: `pts` are linked to the
/// start of the route through `route_e`. Nothing changes when `route_e` is
/// not a route point or its start holds no linked set.
pub fn create_route_link(starts: &GetRouteStart, world: &mut RouteWorld, route_e: EntityId, pts: &Vec<EntityId>)
    requires
        route_world_ok(old(world)@),
    ensures
        route_world_ok(final(world)@),
        !(has(starts.points@, route_e) && linked_of(old(world)@, route_start_fn(starts.points@, route_e)) is Some)
            ==> final(world)@ == old(world)@,
        has(starts.points@, route_e) && linked_of(old(world)@, route_start_fn(starts.points@, route_e)) is Some
            ==> linked_to_route(old(world)@, final(world)@, route_start_fn(starts.points@, route_e), pts@),
{
    let ghost w0 = world@;
    let s = starts.get_entity(route_e);
    proof {
        let c = route_start_fn(starts.points@, route_e);
        assert(is_route_start(starts.points@, route_e, c));
        lemma_route_start_unique(starts.points@, route_e, s, c);
    }
    if find_entry(&starts.points, route_e).is_none() {
        return;
    }
    let si = match find_route_entity(world, s) {
        None => return,
        Some(i) => i,
    };
    proof {
        lemma_route_entity_unique(w0, s, si as int);
    }
    let mut set = match take_linked(world, si) {
        None => {
            proof {
                assert(world@ =~= w0);
            }
            return;
        },
        Some(l) => l.0,
    };
    let ghost s0 = set@;
    proof {
        assert(set_ok(w0[si as int].linked));
    }
    let mut k: usize = 0;
    while k < pts.len()
        invariant
            route_world_ok(w0),
            si < w0.len(),
            w0[si as int].entity == s,
            w0[si as int].linked == Some(s0),
            k <= pts@.len(),
            set@.no_duplicates(),
            forall|y: EntityId|
                #[trigger] set@.contains(y) <==> s0.contains(y) || (pts@.subrange(0, k as int).contains(y) && unlinked_point(w0, y)),
            world@.len() == w0.len(),
            forall|i: int|
                0 <= i < w0.len() ==> {
                    &&& (#[trigger] world@[i]).entity == w0[i].entity
                    &&& world@[i].link == if pts@.subrange(0, k as int).contains(w0[i].entity) {
                        Some(s)
                    } else {
                        w0[i].link
                    }
                    &&& world@[i].linked == if i == si {
                        None
                    } else {
                        w0[i].linked
                    }
                },
        decreases pts@.len() - k,
    {
        let y = pts[k];
        let ghost wb = world@;
        let ghost sb = set@;
        let ghost d0 = pts@.subrange(0, k as int);
        let ghost d1 = pts@.subrange(0, k as int + 1);
        proof {
            assert(d1 == d0.push(y));
            assert forall|x: EntityId| d1.contains(x) <==> d0.contains(x) || x == y by {
                if d1.contains(x) && x != y {
                    let q = choose|q: int| 0 <= q < d1.len() && d1[q] == x;
                    assert(d0[q] == x);
                }
                if d0.contains(x) {
                    let q = choose|q: int| 0 <= q < d0.len() && d0[q] == x;
                    assert(d1[q] == x);
                }
                if x == y {
                    assert(d1[k as int] == y);
                }
            }
        }
        match find_route_entity(world, y) {
            Some(j) => {
                proof {
                    assert(w0[j as int].entity == y);
                }
                let fresh = world.entities[j].link.is_none();
                proof {
                    assert(fresh ==> !d0.contains(y) && w0[j as int].link is None);
                    assert(unlinked_point(w0, y) == (w0[j as int].link is None)) by {
                        if unlinked_point(w0, y) {
                            let q = choose|q: int| 0 <= q < w0.len() && #[trigger] w0[q].entity == y && w0[q].link is None;
                            if q != j as int {
                                if q < j {
                                    assert(w0[q].entity != w0[j as int].entity);
                                } else {
                                    assert(w0[j as int].entity != w0[q].entity);
                                }
                            }
                        }
                    }
                    if !fresh && w0[j as int].link is None {
                        assert(d0.contains(y));
                        assert(sb.contains(y));
                    }
                }
                set_link(world, j, Some(RouteLink(s)));
                if fresh {
                    insert_one(&mut set, y);
                }
                proof {
                    assert forall|x: EntityId| #[trigger] set@.contains(x) <==> s0.contains(x) || (d1.contains(x)
                        && unlinked_point(w0, x)) by {
                        if fresh && !sb.contains(y) {
                            assert(set@ == sb.push(y));
                            if set@.contains(x) && x != y {
                                let q = choose|q: int| 0 <= q < set@.len() && set@[q] == x;
                                assert(sb[q] == x);
                            }
                            if sb.contains(x) {
                                let q = choose|q: int| 0 <= q < sb.len() && sb[q] == x;
                                assert(set@[q] == x);
                            }
                            if x == y {
                                assert(set@[sb.len() as int] == y);
                            }
                        }
                    }
                    assert forall|i: int| 0 <= i < w0.len() implies {
                        &&& (#[trigger] world@[i]).entity == w0[i].entity
                        &&& world@[i].link == if d1.contains(w0[i].entity) {
                            Some(s)
                        } else {
                            w0[i].link
                        }
                        &&& world@[i].linked == if i == si {
                            None
                        } else {
                            w0[i].linked
                        }
                    } by {
                        assert(wb[i].entity == w0[i].entity);
                        if i != j as int {
                            assert(world@[i] == wb[i]);
                            assert(w0[i].entity != y);
                        }
                    }
                }
            },
            None => {
                proof {
                    assert(!unlinked_point(w0, y)) by {
                        if unlinked_point(w0, y) {
                            let q = choose|q: int| 0 <= q < w0.len() && #[trigger] w0[q].entity == y && w0[q].link is None;
                            assert(wb[q].entity == y);
                        }
                    }
                    assert forall|i: int| 0 <= i < w0.len() implies {
                        &&& (#[trigger] world@[i]).entity == w0[i].entity
                        &&& world@[i].link == if d1.contains(w0[i].entity) {
                            Some(s)
                        } else {
                            w0[i].link
                        }
                        &&& world@[i].linked == if i == si {
                            None
                        } else {
                            w0[i].linked
                        }
                    } by {
                        assert(wb[i].entity == w0[i].entity);
                        if w0[i].entity == y {
                            assert(is_live(world@, y));
                        }
                    }
                }
            },
        }
        k += 1;
    }
    proof {
        assert(pts@.subrange(0, pts@.len() as int) == pts@);
    }
    let ghost wl = world@;
    let ghost sv = set@;
    set_linked(world, si, Some(RouteLinkedEntities(set)));
    proof {
        assert(find_route_entity_spec(w0, s) == si as int);
        assert forall|i: int, j: int| 0 <= i < j < world@.len() implies world@[i].entity != world@[j].entity by {
            assert(wl[i].entity == w0[i].entity && wl[j].entity == w0[j].entity);
        }
        assert forall|i: int| 0 <= i < world@.len() implies set_ok(#[trigger] world@[i].linked) by {
            if i != si as int {
                assert(world@[i] == wl[i]);
                assert(set_ok(w0[i].linked));
            }
        }
        assert forall|i: int| 0 <= i < w0.len() implies {
            &&& (#[trigger] world@[i]).entity == w0[i].entity
            &&& world@[i].link == if pts@.contains(w0[i].entity) {
                Some(s)
            } else {
                w0[i].link
            }
            &&& w0[i].entity != s ==> world@[i].linked == w0[i].linked
            &&& w0[i].entity == s ==> (world@[i].linked matches Some(m) && m.no_duplicates() && forall|y: EntityId|
                #[trigger] m.contains(y) <==> w0[i].linked->Some_0.contains(y) || (pts@.contains(y) && unlinked_point(w0, y)))
        } by {
            assert(wl[i].entity == w0[i].entity);
            if i == si as int {
                assert(world@[i].linked == Some(sv));
            } else {
                assert(world@[i] == wl[i]);
                assert(w0[i].entity != s);
            }
        }
    }
}

} // verus!
