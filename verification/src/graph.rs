//! Path graphs of KMP points (enemy, item, checkpoint and route paths): the
//! links between points, their validity, reachability, and the editing
//! operations that add or remove links.
use vstd::prelude::*;

verus! {

broadcast use vstd::std_specs::vec::group_vec_axioms;

/// An editor entity, by its identity bits.
pub type EntityId = u64;

/// The links of one path point: the points before and after it, and the
/// most of each it may have when linked interactively.
#[derive(Debug)]
pub struct KmpPathNode {
    pub max: u8,
    pub prev_nodes: Vec<EntityId>,
    pub next_nodes: Vec<EntityId>,
}

impl Default for KmpPathNode {
    /// The interactive default: at most six links each way.
    fn default() -> (r: KmpPathNode)
        ensures
            r.max == 6,
            r.prev_nodes@ == Seq::<EntityId>::empty(),
            r.next_nodes@ == Seq::<EntityId>::empty(),
    {
        KmpPathNode { max: 6, prev_nodes: Vec::new(), next_nodes: Vec::new() }
    }
}

/// A path point of the editor and the markers that matter for its path.
#[derive(Debug)]
pub struct GraphEntry {
    pub entity: EntityId,
    pub node: KmpPathNode,
    /// The point is the overall start of its course path.
    pub overall_start: bool,
    /// The point carries route settings (it starts a route).
    pub route_start: bool,
    /// Editor display order, if assigned.
    pub order: Option<u32>,
}

/// The path points of the editor. Entities that are not listed have no path
/// component (for instance, they were despawned).
#[derive(Debug)]
pub struct PathGraph {
    pub entries: Vec<GraphEntry>,
}

/// Mathematical value of one graph entry.
pub struct EntryView {
    pub entity: EntityId,
    pub max: u8,
    pub prev: Seq<EntityId>,
    pub next: Seq<EntityId>,
    pub overall_start: bool,
    pub route_start: bool,
    pub order: Option<u32>,
}

impl GraphEntry {
    pub open spec fn view(&self) -> EntryView {
        EntryView {
            entity: self.entity,
            max: self.node.max,
            prev: self.node.prev_nodes@,
            next: self.node.next_nodes@,
            overall_start: self.overall_start,
            route_start: self.route_start,
            order: self.order,
        }
    }
}

impl PathGraph {
    pub open spec fn view(&self) -> Seq<EntryView> {
        Seq::new(self.entries@.len(), |i: int| self.entries@[i].view())
    }
}

/// Entities are listed once, and no link set lists a point twice.
pub open spec fn well_formed(g: Seq<EntryView>) -> bool {
    &&& forall|i: int, j: int| 0 <= i < j < g.len() ==> g[i].entity != g[j].entity
    &&& forall|i: int| 0 <= i < g.len() ==> (#[trigger] g[i]).prev.no_duplicates() && g[i].next.no_duplicates()
}

/// Position of entity `e`, searching from `i`.
pub open spec fn find_from(g: Seq<EntryView>, e: EntityId, i: int) -> Option<int>
    decreases g.len() - i,
{
    if i < 0 || i >= g.len() {
        None
    } else if g[i].entity == e {
        Some(i)
    } else {
        find_from(g, e, i + 1)
    }
}

/// Position of entity `e`, if it is a path point.
pub open spec fn find(g: Seq<EntryView>, e: EntityId) -> Option<int> {
    find_from(g, e, 0)
}

/// `e` is a path point.
pub open spec fn has(g: Seq<EntryView>, e: EntityId) -> bool {
    find(g, e) is Some
}

/// The links of path point `e` (meaningful when `has(g, e)`).
pub open spec fn node(g: Seq<EntryView>, e: EntityId) -> EntryView {
    g[find(g, e)->Some_0]
}

/// A directed link from `a` to `b`, as recorded at `a`.
pub open spec fn edge(g: Seq<EntryView>, a: EntityId, b: EntityId) -> bool {
    has(g, a) && node(g, a).next.contains(b)
}

/// The links of `e` are within its limits and reciprocated by live points.
pub open spec fn links_valid(g: Seq<EntryView>, e: EntityId) -> bool {
    &&& has(g, e)
    &&& node(g, e).prev.len() <= node(g, e).max
    &&& node(g, e).next.len() <= node(g, e).max
    &&& forall|k: int|
        0 <= k < node(g, e).next.len() ==> has(g, #[trigger] node(g, e).next[k]) && node(
            g,
            node(g, e).next[k],
        ).prev.contains(e)
    &&& forall|k: int|
        0 <= k < node(g, e).prev.len() ==> has(g, #[trigger] node(g, e).prev[k]) && node(
            g,
            node(g, e).prev[k],
        ).next.contains(e)
}

pub proof fn lemma_find_from(g: Seq<EntryView>, e: EntityId, i: int)
    requires
        0 <= i,
    ensures
        find_from(g, e, i) matches Some(k) ==> i <= k < g.len() && 0 <= k && g[k].entity == e,
        find_from(g, e, i) is None ==> forall|k: int| i <= k < g.len() && 0 <= k ==> g[k].entity != e,
    decreases g.len() - i,
{
    if 0 <= i < g.len() && g[i].entity != e {
        lemma_find_from(g, e, i + 1);
    }
}

/// In a well-formed graph the position of an entity is the only one that lists it.
pub proof fn lemma_find(g: Seq<EntryView>, e: EntityId)
    requires
        well_formed(g),
    ensures
        find(g, e) matches Some(k) ==> 0 <= k < g.len() && g[k].entity == e,
        find(g, e) is None ==> forall|k: int| 0 <= k < g.len() ==> g[k].entity != e,
        forall|k: int| 0 <= k < g.len() && g[k].entity == e ==> find(g, e) == Some(k),
{
    lemma_find_from(g, e, 0);
}

impl KmpPathNode {
    /// A node with no links and the given limit.
    pub fn new(max: u8) -> (r: KmpPathNode)
        ensures
            r.max == max,
            r.prev_nodes@ == Seq::<EntityId>::empty(),
            r.next_nodes@ == Seq::<EntityId>::empty(),
    {
        KmpPathNode { max, prev_nodes: Vec::new(), next_nodes: Vec::new() }
    }


    /// Add successors, ignoring ones already listed.
    pub fn with_next(self, next: Vec<EntityId>) -> (r: KmpPathNode)
        requires
            self.next_nodes@.no_duplicates(),
        ensures
            r.max == self.max,
            r.prev_nodes@ == self.prev_nodes@,
            r.next_nodes@.no_duplicates(),
            forall|x: EntityId| r.next_nodes@.contains(x) <==> self.next_nodes@.contains(x) || next@.contains(x),
    {
        let KmpPathNode { max, prev_nodes, next_nodes } = self;
        let next_nodes = insert_all(next_nodes, &next);
        KmpPathNode { max, prev_nodes, next_nodes }
    }

    /// Add predecessors, ignoring ones already listed.
    pub fn with_prev(self, prev: Vec<EntityId>) -> (r: KmpPathNode)
        requires
            self.prev_nodes@.no_duplicates(),
        ensures
            r.max == self.max,
            r.next_nodes@ == self.next_nodes@,
            r.prev_nodes@.no_duplicates(),
            forall|x: EntityId| r.prev_nodes@.contains(x) <==> self.prev_nodes@.contains(x) || prev@.contains(x),
    {
        let KmpPathNode { max, prev_nodes, next_nodes } = self;
        let prev_nodes = insert_all(prev_nodes, &prev);
        KmpPathNode { max, prev_nodes, next_nodes }
    }

    /// A copy of the successors.
    pub fn get_next(&self) -> (r: Vec<EntityId>)
        ensures
            r@ == self.next_nodes@,
    {
        vstd::slice::slice_to_vec(self.next_nodes.as_slice())
    }

    /// A copy of the predecessors.
    pub fn get_previous(&self) -> (r: Vec<EntityId>)
        ensures
            r@ == self.prev_nodes@,
    {
        vstd::slice::slice_to_vec(self.prev_nodes.as_slice())
    }

    /// `self` (entity `self_e`) follows `other` (entity `other_e`), as recorded
    /// at either end.
    pub fn is_next_node_of(&self, self_e: EntityId, other: &KmpPathNode, other_e: EntityId) -> (r: bool)
        ensures
            r == (self.prev_nodes@.contains(other_e) || other.next_nodes@.contains(self_e)),
    {
        contains(&self.prev_nodes, other_e) || contains(&other.next_nodes, self_e)
    }

    /// `self` precedes `other`, as recorded at either end.
    pub fn is_prev_node_of(&self, self_e: EntityId, other: &KmpPathNode, other_e: EntityId) -> (r: bool)
        ensures
            r == (self.next_nodes@.contains(other_e) || other.prev_nodes@.contains(self_e)),
    {
        contains(&self.next_nodes, other_e) || contains(&other.prev_nodes, self_e)
    }

    /// The two points are linked in either direction.
    pub fn is_linked_with(&self, self_e: EntityId, other: &KmpPathNode, other_e: EntityId) -> (r: bool)
        ensures
            r == (self.prev_nodes@.contains(other_e) || other.next_nodes@.contains(self_e)
                || self.next_nodes@.contains(other_e) || other.prev_nodes@.contains(self_e)),
    {
        self.is_next_node_of(self_e, other, other_e) || self.is_prev_node_of(self_e, other, other_e)
    }

    /// No further successor may be linked interactively.
    pub fn at_max_next(&self) -> (r: bool)
        ensures
            r == (self.next_nodes@.len() >= self.max),
    {
        self.next_nodes.len() >= self.max as usize
    }
}

/// `x` is listed in `v`.
pub fn contains(v: &Vec<EntityId>, x: EntityId) -> (r: bool)
    ensures
        r == v@.contains(x),
{
    let mut i: usize = 0;
    while i < v.len()
        invariant
            i <= v@.len(),
            forall|k: int| 0 <= k < i ==> v@[k] != x,
        decreases v@.len() - i,
    {
        if v[i] == x {
            return true;
        }
        i += 1;
    }
    false
}

/// Add `x` to a duplicate-free list unless it is listed.
pub fn insert_one(v: &mut Vec<EntityId>, x: EntityId)
    requires
        old(v)@.no_duplicates(),
    ensures
        final(v)@.no_duplicates(),
        final(v)@ == if old(v)@.contains(x) {
            old(v)@
        } else {
            old(v)@.push(x)
        },
{
    if !contains(v, x) {
        v.push(x);
    }
}

/// Remove `x` from a duplicate-free list.
pub fn remove_one(v: &mut Vec<EntityId>, x: EntityId)
    requires
        old(v)@.no_duplicates(),
    ensures
        final(v)@.no_duplicates(),
        forall|y: EntityId| final(v)@.contains(y) <==> old(v)@.contains(y) && y != x,
        final(v)@.len() <= old(v)@.len(),
{
    let mut i: usize = 0;
    while i < v.len()
        invariant
            i <= v@.len(),
            v@ == old(v)@,
            old(v)@.no_duplicates(),
            forall|k: int| 0 <= k < i ==> v@[k] != x,
        decreases v@.len() - i,
    {
        if v[i] == x {
            let ghost before = v@;
            v.remove(i);
            assert(forall|k: int| 0 <= k < i ==> v@[k] == before[k]);
            assert(forall|k: int| i <= k < v@.len() ==> v@[k] == before[k + 1]);
            assert forall|a: int, b: int| 0 <= a < b < v@.len() implies v@[a] != v@[b] by {
                let a2 = if a < i { a } else { a + 1 };
                let b2 = if b < i { b } else { b + 1 };
                assert(v@[a] == before[a2]);
                assert(v@[b] == before[b2]);
            }
            assert forall|y: EntityId| v@.contains(y) <==> before.contains(y) && y != x by {
                if before.contains(y) && y != x {
                    let k = choose|k: int| 0 <= k < before.len() && before[k] == y;
                    assert(k != i);
                    if k < i {
                        assert(v@[k] == y);
                    } else {
                        assert(v@[k - 1] == y);
                    }
                }
                if v@.contains(y) {
                    let k = choose|k: int| 0 <= k < v@.len() && v@[k] == y;
                    if k < i {
                        assert(before[k] == y);
                    } else {
                        assert(before[k + 1] == y);
                        assert(k + 1 != i);
                    }
                }
            }
            return;
        }
        i += 1;
    }
}

fn insert_all(v: Vec<EntityId>, xs: &Vec<EntityId>) -> (r: Vec<EntityId>)
    requires
        v@.no_duplicates(),
    ensures
        r@.no_duplicates(),
        forall|x: EntityId| r@.contains(x) <==> v@.contains(x) || xs@.contains(x),
{
    let mut r = v;
    let mut i: usize = 0;
    while i < xs.len()
        invariant
            i <= xs@.len(),
            r@.no_duplicates(),
            forall|x: EntityId|
                r@.contains(x) <==> v@.contains(x) || exists|k: int| 0 <= k < i && #[trigger] xs@[k] == x,
        decreases xs@.len() - i,
    {
        let ghost before = r@;
        insert_one(&mut r, xs[i]);
        assert forall|y: EntityId| r@.contains(y) <==> before.contains(y) || y == xs@[i as int] by {
            if !before.contains(xs@[i as int]) {
                if before.contains(y) {
                    let k = choose|k: int| 0 <= k < before.len() && before[k] == y;
                    assert(r@[k] == y);
                }
                if y == xs@[i as int] {
                    assert(r@[before.len() as int] == y);
                }
                if r@.contains(y) {
                    let k = choose|k: int| 0 <= k < r@.len() && r@[k] == y;
                    if k < before.len() {
                        assert(before[k] == y);
                    }
                }
            }
        }
        assert forall|x: EntityId|
            r@.contains(x) <==> v@.contains(x) || exists|k: int| 0 <= k < i + 1 && #[trigger] xs@[k] == x by {
            assert(before.contains(x) <==> v@.contains(x) || exists|k: int| 0 <= k < i && #[trigger] xs@[k] == x);
            assert(r@.contains(x) <==> before.contains(x) || x == xs@[i as int]);
            if x == xs@[i as int] {
                assert(0 <= i < i + 1 && xs@[i as int] == x);
            } else if exists|k: int| 0 <= k < i + 1 && #[trigger] xs@[k] == x {
                let k = choose|k: int| 0 <= k < i + 1 && #[trigger] xs@[k] == x;
                assert(k < i);
                assert(exists|k: int| 0 <= k < i && #[trigger] xs@[k] == x);
            }
        }
        i += 1;
    }
    r
}

/// A walk along recorded successor links.
pub open spec fn is_walk(g: Seq<EntryView>, w: Seq<EntityId>) -> bool {
    &&& w.len() >= 1
    &&& forall|i: int| 0 <= i < w.len() - 1 ==> #[trigger] edge(g, w[i], w[i + 1])
}

/// `b` can be reached from `a` (possibly `a` itself).
pub open spec fn reaches(g: Seq<EntryView>, a: EntityId, b: EntityId) -> bool {
    exists|w: Seq<EntityId>| #[trigger] is_walk(g, w) && w[0] == a && w.last() == b
}

/// `b` can be reached from `a` by at least one link.
pub open spec fn reaches_plus(g: Seq<EntryView>, a: EntityId, b: EntityId) -> bool {
    exists|w: Seq<EntityId>| #[trigger] is_walk(g, w) && w.len() >= 2 && w[0] == a && w.last() == b
}

/// A point whose links are stale, asymmetric or over its limit, or that lies
/// on a cycle.
pub open spec fn bad(g: Seq<EntryView>, x: EntityId) -> bool {
    !links_valid(g, x) || reaches_plus(g, x, x)
}

/// Every listed point is a path point whose successors are listed too.
pub open spec fn closed(g: Seq<EntryView>, vs: Seq<EntityId>) -> bool {
    forall|v: EntityId|
        #[trigger] vs.contains(v) ==> has(g, v) && forall|s: EntityId|
            node(g, v).next.contains(s) ==> vs.contains(s)
}

proof fn lemma_reaches_self(g: Seq<EntryView>, a: EntityId)
    ensures
        reaches(g, a, a),
{
    let w = seq![a];
    assert(is_walk(g, w));
}

proof fn lemma_reaches_step(g: Seq<EntryView>, a: EntityId, b: EntityId, c: EntityId)
    requires
        reaches(g, a, b),
        edge(g, b, c),
    ensures
        reaches(g, a, c),
        reaches_plus(g, a, c),
{
    let w = choose|w: Seq<EntityId>| #[trigger] is_walk(g, w) && w[0] == a && w.last() == b;
    let w2 = w.push(c);
    assert forall|i: int| 0 <= i < w2.len() - 1 implies #[trigger] edge(g, w2[i], w2[i + 1]) by {
        if i < w.len() - 1 {
            assert(edge(g, w[i], w[i + 1]));
        }
    }
    assert(is_walk(g, w2));
}

proof fn lemma_reaches_plus_step(g: Seq<EntryView>, a: EntityId, b: EntityId, c: EntityId)
    requires
        reaches_plus(g, a, b),
        edge(g, b, c),
    ensures
        reaches_plus(g, a, c),
{
    let w = choose|w: Seq<EntityId>| #[trigger] is_walk(g, w) && w.len() >= 2 && w[0] == a && w.last() == b;
    let w2 = w.push(c);
    assert forall|i: int| 0 <= i < w2.len() - 1 implies #[trigger] edge(g, w2[i], w2[i + 1]) by {
        if i < w.len() - 1 {
            assert(edge(g, w[i], w[i + 1]));
        }
    }
    assert(is_walk(g, w2));
}

proof fn lemma_reaches_prepend(g: Seq<EntryView>, a: EntityId, b: EntityId, c: EntityId)
    requires
        edge(g, a, b),
        reaches(g, b, c),
    ensures
        reaches(g, a, c),
{
    let w = choose|w: Seq<EntityId>| #[trigger] is_walk(g, w) && w[0] == b && w.last() == c;
    let w2 = seq![a] + w;
    assert forall|i: int| 0 <= i < w2.len() - 1 implies #[trigger] edge(g, w2[i], w2[i + 1]) by {
        if i > 0 {
            let j = i - 1;
            assert(edge(g, w[j], w[j + 1]));
            assert(w2[i] == w[j] && w2[i + 1] == w[j + 1]);
        }
    }
    assert(is_walk(g, w2));
}

proof fn lemma_closed_walk(g: Seq<EntryView>, vs: Seq<EntityId>, w: Seq<EntityId>, i: int)
    requires
        closed(g, vs),
        is_walk(g, w),
        vs.contains(w[0]),
        0 <= i < w.len(),
    ensures
        vs.contains(w[i]),
    decreases i,
{
    if i > 0 {
        lemma_closed_walk(g, vs, w, i - 1);
        let j = i - 1;
        assert(edge(g, w[j], w[j + 1]));
    }
}

/// Nothing outside a closed set can be reached from inside it.
proof fn lemma_closed_unreachable(g: Seq<EntryView>, vs: Seq<EntityId>, a: EntityId, b: EntityId)
    requires
        closed(g, vs),
        vs.contains(a),
        !vs.contains(b),
    ensures
        !reaches(g, a, b),
{
    if reaches(g, a, b) {
        let w = choose|w: Seq<EntityId>| #[trigger] is_walk(g, w) && w[0] == a && w.last() == b;
        lemma_closed_walk(g, vs, w, w.len() - 1);
    }
}

/// A duplicate-free list of path points is no longer than the graph.
pub proof fn lemma_points_bound(g: Seq<EntryView>, vs: Seq<EntityId>)
    requires
        vs.no_duplicates(),
        forall|k: int| 0 <= k < vs.len() ==> has(g, #[trigger] vs[k]),
    ensures
        vs.len() <= g.len(),
{
    let ents = Seq::new(g.len(), |i: int| g[i].entity);
    assert forall|v: EntityId| vs.to_set().contains(v) implies ents.to_set().contains(v) by {
        let k = choose|k: int| 0 <= k < vs.len() && vs[k] == v;
        assert(has(g, vs[k]));
        lemma_find_from(g, v, 0);
        let j = find(g, v)->Some_0;
        assert(ents[j] == v);
    }
    vs.unique_seq_to_set();
    ents.lemma_cardinality_of_set();
    vstd::seq_lib::seq_to_set_is_finite(ents);
    vstd::set_lib::lemma_len_subset(vs.to_set(), ents.to_set());
}

/// Position of entity `e` in the graph.
pub fn find_entry(g: &PathGraph, e: EntityId) -> (r: Option<usize>)
    ensures
        r matches Some(i) ==> find(g@, e) == Some(i as int) && i < g@.len(),
        r is None ==> find(g@, e) is None,
{
    let mut i: usize = 0;
    while i < g.entries.len()
        invariant
            i <= g@.len(),
            g@.len() == g.entries@.len(),
            find(g@, e) == find_from(g@, e, i as int),
        decreases g@.len() - i,
    {
        if g.entries[i].entity == e {
            assert(g@[i as int].entity == e);
            return Some(i);
        }
        assert(g@[i as int].entity != e);
        i += 1;
    }
    None
}

fn all_reciprocal(g: &PathGraph, e: EntityId, list: &Vec<EntityId>, forward: bool) -> (r: bool)
    requires
        well_formed(g@),
    ensures
        r == forall|k: int|
            0 <= k < list@.len() ==> has(g@, #[trigger] list@[k]) && (if forward {
                node(g@, list@[k]).prev.contains(e)
            } else {
                node(g@, list@[k]).next.contains(e)
            }),
{
    let mut k: usize = 0;
    while k < list.len()
        invariant
            well_formed(g@),
            k <= list@.len(),
            forall|m: int|
                0 <= m < k ==> has(g@, #[trigger] list@[m]) && (if forward {
                    node(g@, list@[m]).prev.contains(e)
                } else {
                    node(g@, list@[m]).next.contains(e)
                }),
        decreases list@.len() - k,
    {
        let other = match find_entry(g, list[k]) {
            Some(i) => i,
            None => return false,
        };
        let ok = if forward {
            contains(&g.entries[other].node.prev_nodes, e)
        } else {
            contains(&g.entries[other].node.next_nodes, e)
        };
        assert(node(g@, list@[k as int]) == g@[other as int]);
        if !ok {
            return false;
        }
        k += 1;
    }
    true
}

impl KmpPathNode {
    /// The links of `entity` are within its limits and reciprocated by live points.
    pub fn links_are_valid(entity: EntityId, g: &PathGraph) -> (r: bool)
        requires
            well_formed(g@),
        ensures
            r == links_valid(g@, entity),
    {
        let i = match find_entry(g, entity) {
            Some(i) => i,
            None => return false,
        };
        let links = &g.entries[i].node;
        assert(node(g@, entity) == g@[i as int]);
        if links.prev_nodes.len() > links.max as usize || links.next_nodes.len() > links.max as usize {
            return false;
        }
        all_reciprocal(g, entity, &links.next_nodes, true) && all_reciprocal(g, entity, &links.prev_nodes, false)
    }
}

/// The depth-first search for `target` from `cur` along successor links, in
/// the order the links are recorded: `visiting` is the search path, `visited`
/// the points fully explored without finding the target. The result is
/// `Some(true)` when the target is met, `Some(false)` when the search ends
/// without it, `None` when it meets a stale, asymmetric or over-full point or
/// a point on the search path; with the explored points after a `Some(false)`.
pub open spec fn search(g: Seq<EntryView>, cur: EntityId, target: EntityId, visiting: Seq<EntityId>, visited: Seq<EntityId>) -> (
    Option<bool>,
    Seq<EntityId>,
)
    decreases g.len() - visiting.len(), 0nat, 0nat,
{
    if cur == target {
        (Some(true), visited)
    } else if visited.contains(cur) {
        (Some(false), visited)
    } else if visiting.contains(cur) || !(has(g, cur)) || !links_valid(g, cur) || visiting.len() >= g.len() {
        (None, visited)
    } else {
        match search_succ(g, cur, target, visiting.push(cur), visited, 0) {
            (Some(false), v) => (Some(false), v.push(cur)),
            other => other,
        }
    }
}

/// The search through the successors of `cur` from the `k`-th on.
pub open spec fn search_succ(
    g: Seq<EntryView>,
    cur: EntityId,
    target: EntityId,
    visiting: Seq<EntityId>,
    visited: Seq<EntityId>,
    k: int,
) -> (Option<bool>, Seq<EntityId>)
    decreases g.len() - visiting.len(), 1nat, node(g, cur).next.len() - k,
{
    if k < 0 || k >= node(g, cur).next.len() {
        (Some(false), visited)
    } else {
        match search(g, node(g, cur).next[k], target, visiting, visited) {
            (Some(false), v) => search_succ(g, cur, target, visiting, v, k + 1),
            other => other,
        }
    }
}

/// Whether the user may link `prev` before `next`: the local conditions,
/// then the search from `next` for `prev`: a link that does not close a
/// cycle is allowed; one that closes a cycle only from a path's last point
/// to its start; a defect met by the search refuses the link.
pub open spec fn can_link(g: Seq<EntryView>, prev: EntityId, next: EntityId) -> bool {
    may_link(g, prev, next) && match search(g, next, prev, Seq::empty(), Seq::empty()).0 {
        Some(false) => true,
        Some(true) => closes_at_start(g, prev, next),
        None => false,
    }
}

/// Depth-first search along successor links from `current` for `target`.
/// `visiting` is the current search path; `visited` holds points fully
/// explored without finding `target`. The answer is `Some(true)` when the
/// target is reachable, `Some(false)` when it is not, and `None` when the
/// search met a stale, asymmetric or over-full point, or a cycle.
fn reaches_target(
    current: EntityId,
    target: EntityId,
    g: &PathGraph,
    visiting: &mut Vec<EntityId>,
    visited: &mut Vec<EntityId>,
    Ghost(root): Ghost<EntityId>,
) -> (r: Option<bool>)
    requires
        well_formed(g@),
        old(visiting)@.no_duplicates(),
        forall|k: int| 0 <= k < old(visiting)@.len() ==> has(g@, #[trigger] old(visiting)@[k]),
        forall|k: int|
            0 <= k < old(visiting)@.len() ==> reaches_plus(g@, #[trigger] old(visiting)@[k], current),
        reaches(g@, root, current),
        closed(g@, old(visited)@),
        !old(visited)@.contains(target),
    ensures
        r == Some(true) ==> reaches(g@, current, target),
        r == Some(false) ==> {
            &&& final(visiting)@ == old(visiting)@
            &&& closed(g@, final(visited)@)
            &&& !final(visited)@.contains(target)
            &&& final(visited)@.contains(current)
            &&& forall|x: EntityId| old(visited)@.contains(x) ==> #[trigger] final(visited)@.contains(x)
        },
        r is None ==> exists|x: EntityId| reaches(g@, root, x) && #[trigger] bad(g@, x),
        r == search(g@, current, target, old(visiting)@, old(visited)@).0,
        r == Some(false) ==> final(visited)@ == search(g@, current, target, old(visiting)@, old(visited)@).1,
    decreases g@.len() - old(visiting)@.len(),
{
    proof {
        lemma_points_bound(g@, visiting@);
    }
    if current == target {
        proof {
            lemma_reaches_self(g@, current);
        }
        return Some(true);
    }
    if contains(visited, current) {
        return Some(false);
    }
    if contains(visiting, current) {
        proof {
            let k = choose|k: int| 0 <= k < visiting@.len() && visiting@[k] == current;
            assert(reaches_plus(g@, visiting@[k], current));
            assert(bad(g@, current));
        }
        return None;
    }
    let idx = match find_entry(g, current) {
        Some(i) => i,
        None => {
            assert(bad(g@, current));
            return None;
        },
    };
    proof {
        lemma_find(g@, current);
    }
    if !KmpPathNode::links_are_valid(current, g) {
        assert(bad(g@, current));
        return None;
    }
    let ghost before_visiting = visiting@;
    let ghost visited0 = visited@;
    visiting.push(current);
    proof {
        assert(node(g@, current) == g@[idx as int]);
        assert forall|k: int| 0 <= k < visiting@.len() implies has(g@, #[trigger] visiting@[k]) by {
            if k < before_visiting.len() {
                assert(visiting@[k] == before_visiting[k]);
            }
        }
        lemma_points_bound(g@, visiting@);
    }
    let n = g.entries[idx].node.next_nodes.len();
    proof {
        assert(!before_visiting.contains(current));
        assert(links_valid(g@, current));
        assert(before_visiting.len() < g@.len());
        assert(visiting@ == before_visiting.push(current));
    }
    let mut k: usize = 0;
    while k < n
        invariant
            well_formed(g@),
            idx < g@.len(),
            g@[idx as int].entity == current,
            node(g@, current) == g@[idx as int],
            n == g@[idx as int].next.len(),
            has(g@, current),
            k <= n,
            visiting@ == before_visiting.push(current),
            before_visiting == old(visiting)@,
            forall|x: EntityId| visited0.contains(x) ==> #[trigger] visited@.contains(x),
            visited0 == old(visited)@,
            before_visiting.no_duplicates(),
            !before_visiting.contains(current),
            visiting@.len() <= g@.len(),
            forall|m: int| 0 <= m < visiting@.len() ==> has(g@, #[trigger] visiting@[m]),
            forall|m: int|
                0 <= m < before_visiting.len() ==> reaches_plus(g@, #[trigger] before_visiting[m], current),
            reaches(g@, root, current),
            closed(g@, visited@),
            !visited@.contains(target),
            forall|m: int| 0 <= m < k ==> visited@.contains(#[trigger] g@[idx as int].next[m]),
            current != target,
            search(g@, current, target, before_visiting, visited0) == match search_succ(
                g@,
                current,
                target,
                visiting@,
                visited0,
                0,
            ) {
                (Some(false), v) => (Some(false), v.push(current)),
                other => other,
            },
            search_succ(g@, current, target, visiting@, visited0, 0) == search_succ(
                g@,
                current,
                target,
                visiting@,
                visited@,
                k as int,
            ),
        decreases n - k,
    {
        let next = g.entries[idx].node.next_nodes[k];
        proof {
            assert(g@[idx as int].next[k as int] == next);
            assert(edge(g@, current, next));
            lemma_reaches_step(g@, root, current, next);
            assert forall|m: int| 0 <= m < visiting@.len() implies reaches_plus(
                g@,
                #[trigger] visiting@[m],
                next,
            ) by {
                if m < before_visiting.len() {
                    assert(visiting@[m] == before_visiting[m]);
                    lemma_reaches_plus_step(g@, before_visiting[m], current, next);
                } else {
                    lemma_reaches_self(g@, current);
                    lemma_reaches_step(g@, current, current, next);
                }
            }
            assert(visiting@.no_duplicates()) by {
                assert forall|a: int, b: int| 0 <= a < b < visiting@.len() implies visiting@[a]
                    != visiting@[b] by {
                    if b == before_visiting.len() {
                        assert(before_visiting[a] != current);
                    } else {
                        assert(visiting@[a] == before_visiting[a]);
                        assert(visiting@[b] == before_visiting[b]);
                    }
                }
            }
        }
        let ghost vk = visited@;
        let ghost vis_k = visiting@;
        proof {
            assert(search_succ(g@, current, target, vis_k, vk, k as int) == match search(g@, next, target, vis_k, vk) {
                (Some(false), v) => search_succ(g@, current, target, vis_k, v, k + 1),
                other => other,
            });
        }
        match reaches_target(next, target, g, visiting, visited, Ghost(root)) {
            Some(true) => {
                proof {
                    lemma_reaches_prepend(g@, current, next, target);
                }
                return Some(true);
            },
            Some(false) => {
                proof {
                    assert forall|m: int| 0 <= m < k + 1 implies visited@.contains(
                        #[trigger] g@[idx as int].next[m],
                    ) by {
                        if m < k {
                            assert(visited@.contains(g@[idx as int].next[m]));
                        }
                    }
                }
            },
            None => return None,
        }
        k += 1;
    }
    proof {
        assert(search_succ(g@, current, target, visiting@, visited@, n as int) == (Some(false), visited@));
    }
    visiting.pop();
    assert(visiting@ =~= before_visiting);
    let ghost explored = visited@;
    visited.push(current);
    proof {
        assert forall|v: EntityId| #[trigger] visited@.contains(v) implies has(g@, v) && forall|s: EntityId|
            node(g@, v).next.contains(s) ==> visited@.contains(s) by {
            if v == current {
                assert forall|s: EntityId| node(g@, v).next.contains(s) implies visited@.contains(s) by {
                    let m = choose|m: int| 0 <= m < n && g@[idx as int].next[m] == s;
                    assert(explored.contains(g@[idx as int].next[m]));
                    let j = choose|j: int| 0 <= j < explored.len() && explored[j] == s;
                    assert(visited@[j] == s);
                }
            } else {
                let j = choose|j: int| 0 <= j < visited@.len() && visited@[j] == v;
                assert(j < explored.len());
                assert(explored[j] == v);
                assert(explored.contains(v));
                assert forall|s: EntityId| node(g@, v).next.contains(s) implies visited@.contains(s) by {
                    assert(explored.contains(s));
                    let i2 = choose|i2: int| 0 <= i2 < explored.len() && explored[i2] == s;
                    assert(visited@[i2] == s);
                }
            }
        }
        assert(visited@[explored.len() as int] == current);
        assert forall|x: EntityId| old(visited)@.contains(x) implies #[trigger] visited@.contains(x) by {
            assert(explored.contains(x));
            let j = choose|j: int| 0 <= j < explored.len() && explored[j] == x;
            assert(visited@[j] == x);
        }
        if visited@.contains(target) {
            let j = choose|j: int| 0 <= j < visited@.len() && visited@[j] == target;
            if j < explored.len() {
                assert(explored[j] == target);
            }
        }
    }
    Some(false)
}

/// The two points are linked in either direction, as recorded at either end.
pub open spec fn linked(g: Seq<EntryView>, p: EntityId, n: EntityId) -> bool {
    node(g, p).prev.contains(n) || node(g, n).next.contains(p) || node(g, p).next.contains(n) || node(
        g,
        n,
    ).prev.contains(p)
}

/// The local conditions for linking `p` before `n` interactively: distinct
/// live points with valid links, not yet linked, each with room for the link.
pub open spec fn may_link(g: Seq<EntryView>, p: EntityId, n: EntityId) -> bool {
    &&& p != n
    &&& links_valid(g, p)
    &&& links_valid(g, n)
    &&& !linked(g, p, n)
    &&& node(g, p).next.len() < node(g, p).max
    &&& node(g, n).prev.len() < node(g, n).max
}

/// The link would close a cycle legally: `p` ends its path and `n` is the
/// course's overall start or a route start.
pub open spec fn closes_at_start(g: Seq<EntryView>, p: EntityId, n: EntityId) -> bool {
    node(g, p).next.len() == 0 && (node(g, n).overall_start || node(g, n).route_start)
}

/// A link that would close a cycle (the search from `n` finds `p`) is
/// allowed exactly from a point with no successor into the overall start or
/// a route start: a terminal point may close its route into a loop, and no
/// other cycle can be made.
pub proof fn lemma_closing_link_rule(g: Seq<EntryView>, p: EntityId, n: EntityId)
    requires
        may_link(g, p, n),
        search(g, n, p, Seq::empty(), Seq::empty()).0 == Some(true),
    ensures
        can_link(g, p, n) <==> (node(g, p).next.len() == 0 && (node(g, n).overall_start || node(g, n).route_start)),
{
}

/// A link that closes no cycle (the search from `n` ends without finding
/// `p`) is allowed whenever the local conditions hold.
pub proof fn lemma_open_link_rule(g: Seq<EntryView>, p: EntityId, n: EntityId)
    requires
        may_link(g, p, n),
        search(g, n, p, Seq::empty(), Seq::empty()).0 == Some(false),
    ensures
        can_link(g, p, n),
{
}

impl KmpPathNode {
    /// Whether `prev` may be linked before `next` by the user. Besides the local
    /// conditions, a link that closes a cycle is allowed only from a path's last
    /// point back to its start; a stale, asymmetric or already cyclic reachable
    /// graph refuses the link. When no such defect is reachable from `next`, the
    /// answer is exact.
    pub fn can_link_nodes(prev: EntityId, next: EntityId, g: &PathGraph) -> (r: bool)
        requires
            well_formed(g@),
        ensures
            r ==> may_link(g@, prev, next) && (!reaches(g@, next, prev) || closes_at_start(g@, prev, next)),
            may_link(g@, prev, next) && (forall|x: EntityId| reaches(g@, next, x) ==> !#[trigger] bad(g@, x))
                ==> (r == (!reaches(g@, next, prev) || closes_at_start(g@, prev, next))),
            r == can_link(g@, prev, next),
            may_link(g@, prev, next) && (forall|x: EntityId| reaches(g@, next, x) ==> !#[trigger] bad(g@, x)) && reaches(
                g@,
                next,
                prev,
            ) ==> (r == (node(g@, prev).next.len() == 0 && (node(g@, next).overall_start || node(g@, next).route_start))),
    {
        if prev == next {
            return false;
        }
        let pi = match find_entry(g, prev) {
            Some(i) => i,
            None => return false,
        };
        let ni = match find_entry(g, next) {
            Some(i) => i,
            None => return false,
        };
        assert(node(g@, prev) == g@[pi as int]);
        assert(node(g@, next) == g@[ni as int]);
        let prev_node = &g.entries[pi].node;
        let next_node = &g.entries[ni].node;
        if !KmpPathNode::links_are_valid(prev, g) || !KmpPathNode::links_are_valid(next, g) || prev_node.is_linked_with(
            prev,
            next_node,
            next,
        ) || prev_node.next_nodes.len() >= prev_node.max as usize || next_node.prev_nodes.len()
            >= next_node.max as usize {
            return false;
        }
        let mut visiting: Vec<EntityId> = Vec::new();
        let mut visited: Vec<EntityId> = Vec::new();
        proof {
            lemma_reaches_self(g@, next);
        }
        match reaches_target(next, prev, g, &mut visiting, &mut visited, Ghost(next)) {
            Some(false) => {
                proof {
                    lemma_closed_unreachable(g@, visited@, next, prev);
                }
                true
            },
            Some(true) => prev_node.next_nodes.len() == 0 && (g.entries[ni].overall_start
                || g.entries[ni].route_start),
            None => false,
        }
    }
}

/// The graph after recording the link `p -> n` at both ends.
pub open spec fn with_link(g: Seq<EntryView>, p: EntityId, n: EntityId) -> Seq<EntryView> {
    Seq::new(
        g.len(),
        |i: int|
            EntryView {
                prev: if g[i].entity == n {
                    g[i].prev.push(p)
                } else {
                    g[i].prev
                },
                next: if g[i].entity == p {
                    g[i].next.push(n)
                } else {
                    g[i].next
                },
                ..g[i]
            },
    )
}

/// `g1` is `g0` with `p` dropped from the predecessors of `n` and `n` dropped
/// from the successors of `p`; everything else is unchanged.
pub open spec fn unlinked(g0: Seq<EntryView>, g1: Seq<EntryView>, p: EntityId, n: EntityId) -> bool {
    &&& g1.len() == g0.len()
    &&& forall|i: int|
        0 <= i < g0.len() ==> {
            &&& (#[trigger] g1[i]).entity == g0[i].entity
            &&& g1[i].max == g0[i].max
            &&& g1[i].overall_start == g0[i].overall_start
            &&& g1[i].route_start == g0[i].route_start
            &&& g1[i].order == g0[i].order
            &&& g1[i].prev.no_duplicates()
            &&& g1[i].next.no_duplicates()
            &&& if g0[i].entity == n {
                forall|y: EntityId| g1[i].prev.contains(y) <==> g0[i].prev.contains(y) && y != p
            } else {
                g1[i].prev == g0[i].prev
            }
            &&& if g0[i].entity == p {
                forall|y: EntityId| g1[i].next.contains(y) <==> g0[i].next.contains(y) && y != n
            } else {
                g1[i].next == g0[i].next
            }
        }
}

fn add_link_end(g: &mut PathGraph, i: usize, x: EntityId, to_prev: bool)
    requires
        i < old(g)@.len(),
        well_formed(old(g)@),
        !(if to_prev { old(g)@[i as int].prev } else { old(g)@[i as int].next }).contains(x),
    ensures
        final(g)@ == old(g)@.update(
            i as int,
            if to_prev {
                EntryView { prev: old(g)@[i as int].prev.push(x), ..old(g)@[i as int] }
            } else {
                EntryView { next: old(g)@[i as int].next.push(x), ..old(g)@[i as int] }
            },
        ),
{
    let mut entry = g.entries.remove(i);
    assert(entry@ == old(g)@[i as int]);
    if to_prev {
        entry.node.prev_nodes.push(x);
    } else {
        entry.node.next_nodes.push(x);
    }
    g.entries.insert(i, entry);
    assert(g@ =~= old(g)@.update(
        i as int,
        if to_prev {
            EntryView { prev: old(g)@[i as int].prev.push(x), ..old(g)@[i as int] }
        } else {
            EntryView { next: old(g)@[i as int].next.push(x), ..old(g)@[i as int] }
        },
    ));
}

fn drop_link_end(g: &mut PathGraph, i: usize, x: EntityId, from_prev: bool)
    requires
        i < old(g)@.len(),
        well_formed(old(g)@),
    ensures
        final(g)@.len() == old(g)@.len(),
        forall|j: int| 0 <= j < old(g)@.len() && j != i ==> final(g)@[j] == old(g)@[j],
        final(g)@[i as int].entity == old(g)@[i as int].entity,
        final(g)@[i as int].max == old(g)@[i as int].max,
        final(g)@[i as int].overall_start == old(g)@[i as int].overall_start,
        final(g)@[i as int].route_start == old(g)@[i as int].route_start,
        final(g)@[i as int].order == old(g)@[i as int].order,
        final(g)@[i as int].prev.no_duplicates(),
        final(g)@[i as int].next.no_duplicates(),
        from_prev ==> final(g)@[i as int].next == old(g)@[i as int].next && forall|y: EntityId|
            final(g)@[i as int].prev.contains(y) <==> old(g)@[i as int].prev.contains(y) && y != x,
        !from_prev ==> final(g)@[i as int].prev == old(g)@[i as int].prev && forall|y: EntityId|
            final(g)@[i as int].next.contains(y) <==> old(g)@[i as int].next.contains(y) && y != x,
{
    assert(old(g)@[i as int].prev.no_duplicates() && old(g)@[i as int].next.no_duplicates());
    let mut entry = g.entries.remove(i);
    assert(entry@ == old(g)@[i as int]);
    if from_prev {
        remove_one(&mut entry.node.prev_nodes, x);
    } else {
        remove_one(&mut entry.node.next_nodes, x);
    }
    g.entries.insert(i, entry);
    assert forall|j: int| 0 <= j < old(g)@.len() && j != i implies g@[j] == old(g)@[j] by {
        assert(g.entries@[j] == old(g).entries@[j]);
    }
}

impl KmpPathNode {
    /// Record the link `prev -> next` at both ends when `can_link_nodes` allows
    /// it; otherwise change nothing.
    pub fn link_nodes(prev: EntityId, next: EntityId, g: &mut PathGraph) -> (r: bool)
        requires
            well_formed(old(g)@),
        ensures
            r ==> may_link(old(g)@, prev, next) && (!reaches(old(g)@, next, prev) || closes_at_start(
                old(g)@,
                prev,
                next,
            )),
            may_link(old(g)@, prev, next) && (forall|x: EntityId|
                reaches(old(g)@, next, x) ==> !#[trigger] bad(old(g)@, x)) ==> (r == (!reaches(
                old(g)@,
                next,
                prev,
            ) || closes_at_start(old(g)@, prev, next))),
            final(g)@ == if r {
                with_link(old(g)@, prev, next)
            } else {
                old(g)@
            },
            r == can_link(old(g)@, prev, next),
    {
        if !KmpPathNode::can_link_nodes(prev, next, g) {
            return false;
        }
        let ghost g0 = g@;
        let ni = find_entry(g, next).unwrap();
        let pi = find_entry(g, prev).unwrap();
        proof {
            lemma_find(g0, next);
            lemma_find(g0, prev);
        }
        add_link_end(g, ni, prev, true);
        proof {
            assert(g@[pi as int] == g0[pi as int]);
        }
        add_link_end(g, pi, next, false);
        proof {
            assert(g@ =~= with_link(g0, prev, next));
        }
        true
    }
}

impl KmpPathNode {
    /// Remove a link between two live points, if they are linked in either
    /// direction: `prev` leaves the predecessors of `next` and `next` leaves the
    /// successors of `prev`.
    pub fn unlink_nodes(prev: EntityId, next: EntityId, g: &mut PathGraph) -> (r: bool)
        requires
            well_formed(old(g)@),
        ensures
            r == (has(old(g)@, prev) && has(old(g)@, next) && linked(old(g)@, prev, next)),
            r ==> unlinked(old(g)@, final(g)@, prev, next),
            !r ==> final(g)@ == old(g)@,
    {
        let ni = match find_entry(g, next) {
            Some(i) => i,
            None => return false,
        };
        let pi = match find_entry(g, prev) {
            Some(i) => i,
            None => return false,
        };
        let ghost g0 = g@;
        proof {
            lemma_find(g0, next);
            lemma_find(g0, prev);
            assert(node(g0, prev) == g0[pi as int]);
            assert(node(g0, next) == g0[ni as int]);
        }
        if !g.entries[pi].node.is_linked_with(prev, &g.entries[ni].node, next) {
            return false;
        }
        drop_link_end(g, ni, prev, true);
        let ghost g1 = g@;
        drop_link_end(g, pi, next, false);
        proof {
            assert forall|i: int| 0 <= i < g0.len() implies {
                &&& (#[trigger] g@[i]).entity == g0[i].entity
                &&& g@[i].max == g0[i].max
                &&& g@[i].overall_start == g0[i].overall_start
                &&& g@[i].route_start == g0[i].route_start
                &&& g@[i].order == g0[i].order
                &&& g@[i].prev.no_duplicates()
                &&& g@[i].next.no_duplicates()
                &&& if g0[i].entity == next {
                    forall|y: EntityId| g@[i].prev.contains(y) <==> g0[i].prev.contains(y) && y != prev
                } else {
                    g@[i].prev == g0[i].prev
                }
                &&& if g0[i].entity == prev {
                    forall|y: EntityId| g@[i].next.contains(y) <==> g0[i].next.contains(y) && y != next
                } else {
                    g@[i].next == g0[i].next
                }
            } by {
                assert(g0[i].entity == next <==> i == ni);
                assert(g0[i].entity == prev <==> i == pi);
                assert(g0[i].prev.no_duplicates() && g0[i].next.no_duplicates());
            }
        }
        true
    }
}

/// Every recorded link is recorded at both ends, between live points.
pub open spec fn reciprocal(g: Seq<EntryView>) -> bool {
    &&& forall|i: int, k: int|
        0 <= i < g.len() && 0 <= k < g[i].next.len() ==> has(g, #[trigger] g[i].next[k]) && node(
            g,
            g[i].next[k],
        ).prev.contains(g[i].entity)
    &&& forall|i: int, k: int|
        0 <= i < g.len() && 0 <= k < g[i].prev.len() ==> has(g, #[trigger] g[i].prev[k]) && node(
            g,
            g[i].prev[k],
        ).next.contains(g[i].entity)
}

proof fn lemma_find_from_same_entities(g0: Seq<EntryView>, g1: Seq<EntryView>, e: EntityId, i: int)
    requires
        g0.len() == g1.len(),
        forall|j: int| 0 <= j < g0.len() ==> (#[trigger] g0[j]).entity == g1[j].entity,
    ensures
        find_from(g0, e, i) == find_from(g1, e, i),
    decreases g0.len() - i,
{
    if 0 <= i < g0.len() {
        assert(g0[i].entity == g1[i].entity);
        lemma_find_from_same_entities(g0, g1, e, i + 1);
    }
}

proof fn lemma_same_entities(g0: Seq<EntryView>, g1: Seq<EntryView>)
    requires
        g0.len() == g1.len(),
        forall|j: int| 0 <= j < g0.len() ==> (#[trigger] g0[j]).entity == g1[j].entity,
    ensures
        forall|e: EntityId| find(g0, e) == #[trigger] find(g1, e),
{
    assert forall|e: EntityId| find(g0, e) == #[trigger] find(g1, e) by {
        lemma_find_from_same_entities(g0, g1, e, 0);
    }
}

proof fn lemma_with_link_shape(g: Seq<EntryView>, p: EntityId, n: EntityId)
    requires
        well_formed(g),
    ensures
        forall|e: EntityId| find(g, e) == #[trigger] find(with_link(g, p, n), e),
        forall|a: EntityId, b: EntityId|
            #[trigger] edge(with_link(g, p, n), a, b) <==> edge(g, a, b) || (a == p && b == n && has(g, p)),
{
    let g1 = with_link(g, p, n);
    lemma_same_entities(g, g1);
    assert forall|a: EntityId, b: EntityId|
        #[trigger] edge(g1, a, b) <==> edge(g, a, b) || (a == p && b == n && has(g, p)) by {
        lemma_find(g, a);
        if has(g, a) {
            let i = find(g, a)->Some_0;
            assert(node(g1, a) == g1[i]);
            if a == p {
                assert(g1[i].next == g[i].next.push(n));
                if g[i].next.contains(b) {
                    let k = choose|k: int| 0 <= k < g[i].next.len() && g[i].next[k] == b;
                    assert(g1[i].next[k] == b);
                }
                if b == n {
                    assert(g1[i].next[g[i].next.len() as int] == n);
                }
                if g1[i].next.contains(b) && b != n {
                    let k = choose|k: int| 0 <= k < g1[i].next.len() && g1[i].next[k] == b;
                    assert(k < g[i].next.len());
                    assert(g[i].next[k] == b);
                }
            } else {
                assert(g1[i].next == g[i].next);
            }
        }
    }
}

/// Linking keeps every link recorded at both ends between live points.
pub proof fn lemma_link_keeps_links_reciprocal(g: Seq<EntryView>, p: EntityId, n: EntityId)
    requires
        well_formed(g),
        reciprocal(g),
        may_link(g, p, n),
    ensures
        reciprocal(with_link(g, p, n)),
{
    let g1 = with_link(g, p, n);
    lemma_with_link_shape(g, p, n);
    lemma_find(g, p);
    lemma_find(g, n);
    let pi = find(g, p)->Some_0;
    let ni = find(g, n)->Some_0;
    assert forall|i: int, k: int| 0 <= i < g1.len() && 0 <= k < g1[i].next.len() implies has(
        g1,
        #[trigger] g1[i].next[k],
    ) && node(g1, g1[i].next[k]).prev.contains(g1[i].entity) by {
        let y = g1[i].next[k];
        let x = g[i].entity;
        if x == p && k == g[i].next.len() {
            assert(y == n);
            assert(node(g1, n) == g1[ni]);
            assert(g1[ni].prev[g[ni].prev.len() as int] == p);
        } else {
            assert(y == g[i].next[k]);
            assert(has(g, y) && node(g, y).prev.contains(x));
            lemma_find(g, y);
            let j = find(g, y)->Some_0;
            assert(node(g1, y) == g1[j]);
            let m = choose|m: int| 0 <= m < g[j].prev.len() && g[j].prev[m] == x;
            assert(g1[j].prev[m] == g[j].prev[m]);
            assert(g1[j].prev[m] == x);
        }
    }
    assert forall|i: int, k: int| 0 <= i < g1.len() && 0 <= k < g1[i].prev.len() implies has(
        g1,
        #[trigger] g1[i].prev[k],
    ) && node(g1, g1[i].prev[k]).next.contains(g1[i].entity) by {
        let y = g1[i].prev[k];
        let x = g[i].entity;
        if x == n && k == g[i].prev.len() {
            assert(y == p);
            assert(node(g1, p) == g1[pi]);
            assert(g1[pi].next[g[pi].next.len() as int] == n);
        } else {
            assert(y == g[i].prev[k]);
            assert(has(g, y) && node(g, y).next.contains(x));
            lemma_find(g, y);
            let j = find(g, y)->Some_0;
            assert(node(g1, y) == g1[j]);
            let m = choose|m: int| 0 <= m < g[j].next.len() && g[j].next[m] == x;
            assert(g1[j].next[m] == g[j].next[m]);
            assert(g1[j].next[m] == x);
        }
    }
}

/// Removing a link just made restores every link set of the graph.
pub proof fn lemma_unlink_undoes_link(g0: Seq<EntryView>, g2: Seq<EntryView>, p: EntityId, n: EntityId)
    requires
        well_formed(g0),
        may_link(g0, p, n),
        unlinked(with_link(g0, p, n), g2, p, n),
    ensures
        g2.len() == g0.len(),
        forall|i: int|
            0 <= i < g0.len() ==> (#[trigger] g2[i]).entity == g0[i].entity && (forall|y: EntityId|
                g2[i].prev.contains(y) <==> g0[i].prev.contains(y)) && (forall|y: EntityId|
                g2[i].next.contains(y) <==> g0[i].next.contains(y)),
{
    let g1 = with_link(g0, p, n);
    lemma_find(g0, p);
    lemma_find(g0, n);
    let pi = find(g0, p)->Some_0;
    let ni = find(g0, n)->Some_0;
    assert forall|i: int| 0 <= i < g0.len() implies (#[trigger] g2[i]).entity == g0[i].entity && (forall|
        y: EntityId,
    | g2[i].prev.contains(y) <==> g0[i].prev.contains(y)) && (forall|y: EntityId|
        g2[i].next.contains(y) <==> g0[i].next.contains(y)) by {
        assert(g1[i].entity == g0[i].entity);
        assert forall|y: EntityId| g2[i].prev.contains(y) <==> g0[i].prev.contains(y) by {
            if g0[i].entity == n {
                assert(i == ni);
                assert(!g0[ni].prev.contains(p));
                assert(g1[i].prev == g0[i].prev.push(p));
                if g0[i].prev.contains(y) {
                    let k = choose|k: int| 0 <= k < g0[i].prev.len() && g0[i].prev[k] == y;
                    assert(g1[i].prev[k] == y);
                }
                if g1[i].prev.contains(y) && y != p {
                    let k = choose|k: int| 0 <= k < g1[i].prev.len() && g1[i].prev[k] == y;
                    assert(k < g0[i].prev.len());
                    assert(g0[i].prev[k] == y);
                }
            }
        }
        assert forall|y: EntityId| g2[i].next.contains(y) <==> g0[i].next.contains(y) by {
            if g0[i].entity == p {
                assert(i == pi);
                assert(!g0[pi].next.contains(n));
                assert(g1[i].next == g0[i].next.push(n));
                if g0[i].next.contains(y) {
                    let k = choose|k: int| 0 <= k < g0[i].next.len() && g0[i].next[k] == y;
                    assert(g1[i].next[k] == y);
                }
                if g1[i].next.contains(y) && y != n {
                    let k = choose|k: int| 0 <= k < g1[i].next.len() && g1[i].next[k] == y;
                    assert(k < g0[i].next.len());
                    assert(g0[i].next[k] == y);
                }
            }
        }
    }
}

proof fn lemma_reaches_trans(g: Seq<EntryView>, a: EntityId, b: EntityId, c: EntityId)
    requires
        reaches(g, a, b),
        reaches(g, b, c),
    ensures
        reaches(g, a, c),
{
    let w1 = choose|w: Seq<EntityId>| #[trigger] is_walk(g, w) && w[0] == a && w.last() == b;
    let w2 = choose|w: Seq<EntityId>| #[trigger] is_walk(g, w) && w[0] == b && w.last() == c;
    let w = w1 + w2.drop_first();
    assert forall|i: int| 0 <= i < w.len() - 1 implies #[trigger] edge(g, w[i], w[i + 1]) by {
        if i < w1.len() - 1 {
            assert(edge(g, w1[i], w1[i + 1]));
        } else if i == w1.len() - 1 {
            assert(edge(g, w2[0], w2[1]));
        } else {
            let j = i - w1.len() + 1;
            assert(edge(g, w2[j], w2[j + 1]));
        }
    }
    assert(is_walk(g, w));
}

proof fn lemma_plus_reaches(g: Seq<EntryView>, a: EntityId, b: EntityId)
    requires
        reaches_plus(g, a, b),
    ensures
        reaches(g, a, b),
{
    let w = choose|w: Seq<EntityId>| #[trigger] is_walk(g, w) && w.len() >= 2 && w[0] == a && w.last() == b;
    assert(is_walk(g, w) && w[0] == a && w.last() == b);
}

proof fn lemma_walk_after_link(g: Seq<EntryView>, p: EntityId, n: EntityId, w: Seq<EntityId>)
    requires
        well_formed(g),
        has(g, p),
        is_walk(with_link(g, p, n), w),
        w.len() >= 2,
    ensures
        reaches_plus(g, w[0], w.last()) || (reaches(g, w[0], p) && reaches(g, n, w.last())),
    decreases w.len(),
{
    let g1 = with_link(g, p, n);
    lemma_with_link_shape(g, p, n);
    let a = w[0];
    let c = w.last();
    let b = w[w.len() - 2];
    assert(edge(g1, w[w.len() - 2], w[w.len() - 2 + 1]));
    assert(edge(g1, b, c));
    if w.len() == 2 {
        if edge(g, a, c) {
            let w0 = seq![a, c];
            assert(edge(g, w0[0], w0[1]));
            assert(is_walk(g, w0));
        } else {
            lemma_reaches_self(g, p);
            lemma_reaches_self(g, n);
        }
    } else {
        let w1 = w.drop_last();
        assert forall|i: int| 0 <= i < w1.len() - 1 implies #[trigger] edge(g1, w1[i], w1[i + 1]) by {
            assert(edge(g1, w[i], w[i + 1]));
        }
        lemma_walk_after_link(g, p, n, w1);
        assert(w1[0] == a && w1.last() == b);
        if edge(g, b, c) {
            if reaches_plus(g, a, b) {
                lemma_reaches_plus_step(g, a, b, c);
            } else {
                lemma_reaches_step(g, n, b, c);
            }
        } else {
            assert(b == p && c == n);
            lemma_reaches_self(g, n);
            if reaches_plus(g, a, b) {
                lemma_plus_reaches(g, a, b);
            }
        }
    }
}

/// Linking `p -> n` creates a cycle through a point only if the graph already
/// had a way from `n` back to `p`. Since `link_nodes` refuses that case unless
/// `p` ends its path and `n` is a course or route start, interactive linking
/// never creates an inner cycle.
pub proof fn lemma_link_creates_no_inner_cycle(g: Seq<EntryView>, p: EntityId, n: EntityId, x: EntityId)
    requires
        well_formed(g),
        has(g, p),
        reaches_plus(with_link(g, p, n), x, x),
        !reaches_plus(g, x, x),
    ensures
        reaches(g, n, p),
{
    let g1 = with_link(g, p, n);
    let w = choose|w: Seq<EntityId>| #[trigger] is_walk(g1, w) && w.len() >= 2 && w[0] == x && w.last() == x;
    lemma_walk_after_link(g, p, n, w);
    lemma_reaches_trans(g, n, x, p);
}

/// `s` with `x` added unless it is listed.
pub open spec fn insert_link(s: Seq<EntityId>, x: EntityId) -> Seq<EntityId> {
    if s.contains(x) {
        s
    } else {
        s.push(x)
    }
}

/// The graph after recording an imported link `a -> b` at both ends.
pub open spec fn with_imported_link(g: Seq<EntryView>, a: EntityId, b: EntityId) -> Seq<EntryView> {
    Seq::new(
        g.len(),
        |i: int|
            EntryView {
                prev: if g[i].entity == b {
                    insert_link(g[i].prev, a)
                } else {
                    g[i].prev
                },
                next: if g[i].entity == a {
                    insert_link(g[i].next, b)
                } else {
                    g[i].next
                },
                ..g[i]
            },
    )
}

fn insert_link_end(g: &mut PathGraph, i: usize, x: EntityId, to_prev: bool)
    requires
        i < old(g)@.len(),
        well_formed(old(g)@),
    ensures
        final(g)@ == old(g)@.update(
            i as int,
            if to_prev {
                EntryView { prev: insert_link(old(g)@[i as int].prev, x), ..old(g)@[i as int] }
            } else {
                EntryView { next: insert_link(old(g)@[i as int].next, x), ..old(g)@[i as int] }
            },
        ),
{
    assert(old(g)@[i as int].prev.no_duplicates() && old(g)@[i as int].next.no_duplicates());
    let mut entry = g.entries.remove(i);
    assert(entry@ == old(g)@[i as int]);
    if to_prev {
        insert_one(&mut entry.node.prev_nodes, x);
    } else {
        insert_one(&mut entry.node.next_nodes, x);
    }
    g.entries.insert(i, entry);
    assert(g@ =~= old(g)@.update(
        i as int,
        if to_prev {
            EntryView { prev: insert_link(old(g)@[i as int].prev, x), ..old(g)@[i as int] }
        } else {
            EntryView { next: insert_link(old(g)@[i as int].next, x), ..old(g)@[i as int] }
        },
    ));
}

proof fn lemma_insert_link_no_dup(s: Seq<EntityId>, x: EntityId)
    requires
        s.no_duplicates(),
    ensures
        insert_link(s, x).no_duplicates(),
        forall|y: EntityId| insert_link(s, x).contains(y) <==> s.contains(y) || y == x,
{
    if !s.contains(x) {
        let t = s.push(x);
        assert forall|y: EntityId| t.contains(y) <==> s.contains(y) || y == x by {
            if s.contains(y) {
                let k = choose|k: int| 0 <= k < s.len() && s[k] == y;
                assert(t[k] == y);
            }
            if y == x {
                assert(t[s.len() as int] == x);
            }
            if t.contains(y) {
                let k = choose|k: int| 0 <= k < t.len() && t[k] == y;
                if k < s.len() {
                    assert(s[k] == y);
                }
            }
        }
    }
}

/// Record a link read from a file. Imported topology is not an interactive
/// edit: reverse links, self-links, cycles and more links than the
/// interactive limit are all kept. Both ends must be live points; otherwise
/// nothing changes.
pub fn link_imported_nodes(g: &mut PathGraph, previous: EntityId, next: EntityId) -> (r: bool)
    requires
        well_formed(old(g)@),
    ensures
        r == (has(old(g)@, previous) && has(old(g)@, next)),
        final(g)@ == if r {
            with_imported_link(old(g)@, previous, next)
        } else {
            old(g)@
        },
        well_formed(final(g)@),
{
    let pi = match find_entry(g, previous) {
        Some(i) => i,
        None => return false,
    };
    let ni = match find_entry(g, next) {
        Some(i) => i,
        None => return false,
    };
    let ghost g0 = g@;
    proof {
        lemma_find(g0, previous);
        lemma_find(g0, next);
    }
    insert_link_end(g, pi, next, false);
    let ghost g1 = g@;
    insert_link_end(g, ni, previous, true);
    proof {
        assert(g@ =~= with_imported_link(g0, previous, next));
        let g2 = with_imported_link(g0, previous, next);
        assert forall|i: int| 0 <= i < g2.len() implies (#[trigger] g2[i]).prev.no_duplicates()
            && g2[i].next.no_duplicates() by {
            assert(g0[i].prev.no_duplicates() && g0[i].next.no_duplicates());
            lemma_insert_link_no_dup(g0[i].prev, previous);
            lemma_insert_link_no_dup(g0[i].next, next);
        }
    }
    true
}

/// Points of one imported path group, and the groups that follow it.
#[derive(Debug)]
pub struct EntityGroup {
    pub entities: Vec<EntityId>,
    pub next_groups: Vec<u8>,
}

/// Group `i` links `a -> b` between its consecutive points `1..upto`.
pub open spec fn chain_link(groups: Seq<EntityGroup>, i: int, a: EntityId, b: EntityId, upto: int) -> bool {
    exists|k: int|
        1 <= k < upto && k < groups[i].entities@.len() && #[trigger] groups[i].entities@[k] == b
            && groups[i].entities@[k - 1] == a
}

/// Group `i` links its last point `a` to the first point `b` of one of its
/// first `upto` listed next groups that exists and is not empty.
pub open spec fn next_link(groups: Seq<EntityGroup>, i: int, a: EntityId, b: EntityId, upto: int) -> bool {
    &&& groups[i].entities@.len() > 0
    &&& groups[i].entities@.last() == a
    &&& exists|m: int|
        0 <= m < upto && m < groups[i].next_groups@.len() && {
            let t = #[trigger] groups[i].next_groups@[m] as int;
            t < groups.len() && groups[t].entities@.len() > 0 && groups[t].entities@[0] == b
        }
}

/// The links that importing group `i` records.
pub open spec fn group_link(groups: Seq<EntityGroup>, i: int, a: EntityId, b: EntityId) -> bool {
    chain_link(groups, i, a, b, groups[i].entities@.len() as int) || next_link(
        groups,
        i,
        a,
        b,
        groups[i].next_groups@.len() as int,
    )
}

/// The links that importing the first `upto` groups records.
pub open spec fn imported_link(groups: Seq<EntityGroup>, upto: int, a: EntityId, b: EntityId) -> bool {
    exists|i: int| 0 <= i < upto && #[trigger] group_link(groups, i, a, b)
}

/// `g1` is `g0` with every link of `links` between live points added.
pub open spec fn adds_links(g0: Seq<EntryView>, g1: Seq<EntryView>, links: spec_fn(EntityId, EntityId) -> bool) -> bool {
    &&& g1.len() == g0.len()
    &&& forall|i: int|
        0 <= i < g0.len() ==> {
            &&& (#[trigger] g1[i]).entity == g0[i].entity
            &&& g1[i].max == g0[i].max
            &&& g1[i].overall_start == g0[i].overall_start
            &&& g1[i].route_start == g0[i].route_start
            &&& g1[i].order == g0[i].order
            &&& forall|y: EntityId|
                #![trigger g1[i].next.contains(y)]
                #![trigger g0[i].next.contains(y)]
                g1[i].next.contains(y) <==> g0[i].next.contains(y) || (links(g0[i].entity, y) && has(g0, y))
            &&& forall|y: EntityId|
                #![trigger g1[i].prev.contains(y)]
                #![trigger g0[i].prev.contains(y)]
                g1[i].prev.contains(y) <==> g0[i].prev.contains(y) || (links(y, g0[i].entity) && has(g0, y))
        }
}

proof fn lemma_adds_links_ext(
    g0: Seq<EntryView>,
    g1: Seq<EntryView>,
    f1: spec_fn(EntityId, EntityId) -> bool,
    f2: spec_fn(EntityId, EntityId) -> bool,
)
    requires
        adds_links(g0, g1, f1),
        forall|x: EntityId, y: EntityId| #[trigger] f1(x, y) == f2(x, y),
    ensures
        adds_links(g0, g1, f2),
{
    assert forall|i: int| 0 <= i < g0.len() implies {
        &&& (#[trigger] g1[i]).entity == g0[i].entity
        &&& g1[i].max == g0[i].max
        &&& g1[i].overall_start == g0[i].overall_start
        &&& g1[i].route_start == g0[i].route_start
        &&& g1[i].order == g0[i].order
        &&& forall|y: EntityId|
            g1[i].next.contains(y) <==> g0[i].next.contains(y) || (f2(g0[i].entity, y) && has(g0, y))
        &&& forall|y: EntityId|
            g1[i].prev.contains(y) <==> g0[i].prev.contains(y) || (f2(y, g0[i].entity) && has(g0, y))
    } by {
        assert(g1[i].entity == g0[i].entity);
        assert forall|y: EntityId| #[trigger] f1(g0[i].entity, y) == f2(g0[i].entity, y) by {}
        assert forall|y: EntityId| #[trigger] f1(y, g0[i].entity) == f2(y, g0[i].entity) by {}
    }
}

proof fn lemma_adds_one_more(
    g0: Seq<EntryView>,
    g1: Seq<EntryView>,
    links: spec_fn(EntityId, EntityId) -> bool,
    more: spec_fn(EntityId, EntityId) -> bool,
    a: EntityId,
    b: EntityId,
    added: bool,
    g2: Seq<EntryView>,
)
    requires
        well_formed(g0),
        well_formed(g1),
        adds_links(g0, g1, links),
        forall|x: EntityId, y: EntityId| #[trigger] more(x, y) <==> links(x, y) || (x == a && y == b),
        added == (has(g1, a) && has(g1, b)),
        g2 == if added {
            with_imported_link(g1, a, b)
        } else {
            g1
        },
    ensures
        adds_links(g0, g2, more),
{
    lemma_same_entities(g0, g1);
    assert forall|i: int| 0 <= i < g0.len() implies {
        &&& (#[trigger] g2[i]).entity == g0[i].entity
        &&& g2[i].max == g0[i].max
        &&& g2[i].overall_start == g0[i].overall_start
        &&& g2[i].route_start == g0[i].route_start
        &&& g2[i].order == g0[i].order
        &&& forall|y: EntityId|
            g2[i].next.contains(y) <==> g0[i].next.contains(y) || (more(g0[i].entity, y) && has(g0, y))
        &&& forall|y: EntityId|
            g2[i].prev.contains(y) <==> g0[i].prev.contains(y) || (more(y, g0[i].entity) && has(g0, y))
    } by {
        let e = g0[i].entity;
        assert(g1[i].entity == e);
        lemma_find(g0, e);
        assert(has(g0, e));
        assert(has(g1, e));
        assert(find(g0, a) == find(g1, a));
        assert(find(g0, b) == find(g1, b));
        assert(g1[i].prev.no_duplicates() && g1[i].next.no_duplicates());
        lemma_insert_link_no_dup(g1[i].next, b);
        lemma_insert_link_no_dup(g1[i].prev, a);
        assert forall|y: EntityId|
            g2[i].next.contains(y) <==> g0[i].next.contains(y) || (more(e, y) && has(g0, y)) by {
            assert(find(g0, y) == find(g1, y));
            assert(more(e, y) <==> links(e, y) || (e == a && y == b));
            assert(g1[i].next.contains(y) <==> g0[i].next.contains(y) || (links(e, y) && has(g0, y)));
            if added && e == a {
                assert(g2[i].next == insert_link(g1[i].next, b));
                assert(g2[i].next.contains(y) <==> g1[i].next.contains(y) || y == b);
            } else {
                assert(g2[i].next == g1[i].next);
            }
        }
        assert forall|y: EntityId|
            g2[i].prev.contains(y) <==> g0[i].prev.contains(y) || (more(y, e) && has(g0, y)) by {
            assert(find(g0, y) == find(g1, y));
            assert(more(y, e) <==> links(y, e) || (y == a && e == b));
            assert(g1[i].prev.contains(y) <==> g0[i].prev.contains(y) || (links(y, e) && has(g0, y)));
            if added && e == b {
                assert(g2[i].prev == insert_link(g1[i].prev, a));
                assert(g2[i].prev.contains(y) <==> g1[i].prev.contains(y) || y == a);
            } else {
                assert(g2[i].prev == g1[i].prev);
            }
        }
    }
}

/// Link imported groups of points: consecutive points of a group, then the
/// last point of each group to the first point of each listed next group.
/// Links to missing or empty groups are skipped, as are links to stale
/// points; all other links are recorded, including reverse links, self-links
/// and cycles.
pub fn link_entity_groups(g: &mut PathGraph, groups: &Vec<EntityGroup>)
    requires
        well_formed(old(g)@),
    ensures
        well_formed(final(g)@),
        adds_links(
            old(g)@,
            final(g)@,
            |a: EntityId, b: EntityId| imported_link(groups@, groups@.len() as int, a, b),
        ),
{
    let ghost g0 = g@;
    proof {
        assert forall|i: int| 0 <= i < g0.len() implies (#[trigger] g0[i]).entity == g0[i].entity by {}
        assert(adds_links(g0, g0, |a: EntityId, b: EntityId| imported_link(groups@, 0, a, b)));
    }
    let mut gi: usize = 0;
    while gi < groups.len()
        invariant
            gi <= groups@.len(),
            well_formed(g0),
            well_formed(g@),
            adds_links(g0, g@, |a: EntityId, b: EntityId| imported_link(groups@, gi as int, a, b)),
        decreases groups@.len() - gi,
    {
        let ents = &groups[gi].entities;
        let ghost before = |a: EntityId, b: EntityId| imported_link(groups@, gi as int, a, b);
        proof {
            lemma_adds_links_ext(g0, g@, before, |a: EntityId, b: EntityId| before(a, b) || chain_link(groups@, gi as int, a, b, 1));
        }
        let mut k: usize = 1;
        while k < ents.len()
            invariant
                1 <= k,
                k <= ents@.len() || ents@.len() == 0,
                ents == groups@[gi as int].entities,
                gi < groups@.len(),
                well_formed(g0),
                well_formed(g@),
                adds_links(
                    g0,
                    g@,
                    |a: EntityId, b: EntityId| before(a, b) || chain_link(groups@, gi as int, a, b, k as int),
                ),
            decreases ents@.len() - k,
        {
            let ghost g1 = g@;
            let a = ents[k - 1];
            let b = ents[k];
            proof {
                lemma_same_entities(g0, g1);
            }
            let added = link_imported_nodes(g, a, b);
            proof {
                let more = |x: EntityId, y: EntityId| before(x, y) || chain_link(groups@, gi as int, x, y, k + 1);
                assert forall|x: EntityId, y: EntityId| #[trigger] more(x, y) <==> (before(x, y) || chain_link(groups@, gi as int, x, y, k as int)) || (x == a && y == b) by {
                    if chain_link(groups@, gi as int, x, y, k + 1) && !chain_link(groups@, gi as int, x, y, k as int) {
                        let j = choose|j: int| 1 <= j < k + 1 && j < groups@[gi as int].entities@.len() && #[trigger] groups@[gi as int].entities@[j] == y && groups@[gi as int].entities@[j - 1] == x;
                        assert(j == k);
                    }
                    if x == a && y == b {
                        assert(groups@[gi as int].entities@[k as int] == y);
                    }
                    if chain_link(groups@, gi as int, x, y, k as int) {
                        let j = choose|j: int| 1 <= j < k && j < groups@[gi as int].entities@.len() && #[trigger] groups@[gi as int].entities@[j] == y && groups@[gi as int].entities@[j - 1] == x;
                        assert(groups@[gi as int].entities@[j] == y);
                    }
                }
                lemma_same_entities(g0, g1);
                lemma_adds_one_more(g0, g1, |x: EntityId, y: EntityId| before(x, y) || chain_link(groups@, gi as int, x, y, k as int), more, a, b, added, g@);
            }
            k += 1;
        }
        let ghost chained = |a: EntityId, b: EntityId| before(a, b) || chain_link(groups@, gi as int, a, b, groups@[gi as int].entities@.len() as int);
        proof {
            if ents@.len() > 0 {
                assert(k == ents@.len());
            }
            assert forall|x: EntityId, y: EntityId| #[trigger] chain_link(groups@, gi as int, x, y, k as int) <==> chain_link(groups@, gi as int, x, y, groups@[gi as int].entities@.len() as int) by {
                if chain_link(groups@, gi as int, x, y, groups@[gi as int].entities@.len() as int) {
                    let j = choose|j: int| 1 <= j < groups@[gi as int].entities@.len() && j < groups@[gi as int].entities@.len() && #[trigger] groups@[gi as int].entities@[j] == y && groups@[gi as int].entities@[j - 1] == x;
                    assert(groups@[gi as int].entities@[j] == y);
                }
                if chain_link(groups@, gi as int, x, y, k as int) {
                    let j = choose|j: int| 1 <= j < k && j < groups@[gi as int].entities@.len() && #[trigger] groups@[gi as int].entities@[j] == y && groups@[gi as int].entities@[j - 1] == x;
                    assert(groups@[gi as int].entities@[j] == y);
                }
            }
            assert(adds_links(g0, g@, chained)) by {
                assert forall|x: EntityId, y: EntityId| #[trigger] chained(x, y) <==> (before(x, y) || chain_link(groups@, gi as int, x, y, k as int)) by {}
            }
        }
        if ents.len() > 0 {
            let last = ents[ents.len() - 1];
            let nexts = &groups[gi].next_groups;
            proof {
                lemma_adds_links_ext(g0, g@, chained, |a: EntityId, b: EntityId| chained(a, b) || next_link(groups@, gi as int, a, b, 0));
            }
            let mut m: usize = 0;
            while m < nexts.len()
                invariant
                    m <= nexts@.len(),
                    nexts == groups@[gi as int].next_groups,
                    ents == groups@[gi as int].entities,
                    ents@.len() > 0,
                    last == ents@.last(),
                    gi < groups@.len(),
                    well_formed(g0),
                    well_formed(g@),
                    adds_links(
                        g0,
                        g@,
                        |a: EntityId, b: EntityId| chained(a, b) || next_link(groups@, gi as int, a, b, m as int),
                    ),
                decreases nexts@.len() - m,
            {
                let t = nexts[m] as usize;
                let ghost cur = |a: EntityId, b: EntityId| chained(a, b) || next_link(groups@, gi as int, a, b, m as int);
                let ghost more = |a: EntityId, b: EntityId| chained(a, b) || next_link(groups@, gi as int, a, b, m + 1);
                if t < groups.len() && groups[t].entities.len() > 0 {
                    let ghost g1 = g@;
                    let first = groups[t].entities[0];
                    let added = link_imported_nodes(g, last, first);
                    proof {
                        assert forall|x: EntityId, y: EntityId| #[trigger] more(x, y) <==> cur(x, y) || (x == last && y == first) by {
                            if next_link(groups@, gi as int, x, y, m + 1) && !next_link(groups@, gi as int, x, y, m as int) {
                                let j = choose|j: int| 0 <= j < m + 1 && j < groups@[gi as int].next_groups@.len() && {
                                    let t2 = #[trigger] groups@[gi as int].next_groups@[j] as int;
                                    t2 < groups@.len() && groups@[t2].entities@.len() > 0 && groups@[t2].entities@[0] == y
                                };
                                assert(j == m);
                            }
                            if x == last && y == first {
                                assert(groups@[gi as int].next_groups@[m as int] as int == t);
                            }
                            if next_link(groups@, gi as int, x, y, m as int) {
                                let j = choose|j: int| 0 <= j < m && j < groups@[gi as int].next_groups@.len() && {
                                    let t2 = #[trigger] groups@[gi as int].next_groups@[j] as int;
                                    t2 < groups@.len() && groups@[t2].entities@.len() > 0 && groups@[t2].entities@[0] == y
                                };
                                assert(groups@[gi as int].next_groups@[j] == groups@[gi as int].next_groups@[j]);
                            }
                        }
                        lemma_adds_one_more(g0, g1, cur, more, last, first, added, g@);
                    }
                } else {
                    proof {
                        assert forall|x: EntityId, y: EntityId| #[trigger] more(x, y) <==> cur(x, y) by {
                            if next_link(groups@, gi as int, x, y, m + 1) {
                                let j = choose|j: int| 0 <= j < m + 1 && j < groups@[gi as int].next_groups@.len() && {
                                    let t2 = #[trigger] groups@[gi as int].next_groups@[j] as int;
                                    t2 < groups@.len() && groups@[t2].entities@.len() > 0 && groups@[t2].entities@[0] == y
                                };
                                assert(j != m);
                                assert(groups@[gi as int].next_groups@[j] == groups@[gi as int].next_groups@[j]);
                            }
                            if next_link(groups@, gi as int, x, y, m as int) {
                                let j = choose|j: int| 0 <= j < m && j < groups@[gi as int].next_groups@.len() && {
                                    let t2 = #[trigger] groups@[gi as int].next_groups@[j] as int;
                                    t2 < groups@.len() && groups@[t2].entities@.len() > 0 && groups@[t2].entities@[0] == y
                                };
                                assert(groups@[gi as int].next_groups@[j] == groups@[gi as int].next_groups@[j]);
                            }
                        }
                        assert(adds_links(g0, g@, more));
                    }
                }
                m += 1;
            }
        }
        proof {
            let after = |a: EntityId, b: EntityId| imported_link(groups@, gi + 1, a, b);
            let fin = |a: EntityId, b: EntityId| chained(a, b) || next_link(groups@, gi as int, a, b, groups@[gi as int].next_groups@.len() as int);
            assert forall|x: EntityId, y: EntityId| #[trigger] after(x, y) <==> fin(x, y) by {
                if imported_link(groups@, gi + 1, x, y) && !imported_link(groups@, gi as int, x, y) {
                    let i = choose|i: int| 0 <= i < gi + 1 && #[trigger] group_link(groups@, i, x, y);
                    assert(i == gi);
                }
                if group_link(groups@, gi as int, x, y) {
                    assert(0 <= gi < gi + 1);
                }
                if imported_link(groups@, gi as int, x, y) {
                    let i = choose|i: int| 0 <= i < gi && #[trigger] group_link(groups@, i, x, y);
                    assert(group_link(groups@, i, x, y));
                }
            }
            if ents@.len() == 0 {
                assert forall|x: EntityId, y: EntityId| !#[trigger] next_link(groups@, gi as int, x, y, groups@[gi as int].next_groups@.len() as int) by {}
            }
            assert(adds_links(g0, g@, fin));
            assert(adds_links(g0, g@, after));
        }
        gi += 1;
    }
}

/// `g1` has the points of `g0`, in the same places, with duplicate-free link
/// lists; only the link lists may differ.
pub open spec fn same_points(g0: Seq<EntryView>, g1: Seq<EntryView>) -> bool {
    &&& g1.len() == g0.len()
    &&& forall|i: int|
        0 <= i < g0.len() ==> {
            &&& (#[trigger] g1[i]).entity == g0[i].entity
            &&& g1[i].max == g0[i].max
            &&& g1[i].overall_start == g0[i].overall_start
            &&& g1[i].route_start == g0[i].route_start
            &&& g1[i].order == g0[i].order
            &&& g1[i].prev.no_duplicates()
            &&& g1[i].next.no_duplicates()
        }
}

/// `g1` is `g0` once the links of the newly added point `e` (successors `ns`,
/// predecessors `ps`) are recorded at the live points they name, and the
/// links of `e` to points that do not exist are dropped.
pub open spec fn attached(g0: Seq<EntryView>, g1: Seq<EntryView>, e: EntityId, ns: Seq<EntityId>, ps: Seq<EntityId>) -> bool {
    &&& same_points(g0, g1)
    &&& forall|i: int, y: EntityId|
        0 <= i < g0.len() ==> ((#[trigger] g1[i].prev.contains(y)) <==> (g0[i].prev.contains(y) && (g0[i].entity
            != e || has(g0, y))) || (y == e && ns.contains(g0[i].entity)))
    &&& forall|i: int, y: EntityId|
        0 <= i < g0.len() ==> ((#[trigger] g1[i].next.contains(y)) <==> (g0[i].next.contains(y) && (g0[i].entity
            != e || has(g0, y))) || (y == e && ps.contains(g0[i].entity)))
}

pub proof fn lemma_same_points_find(g0: Seq<EntryView>, g1: Seq<EntryView>, x: EntityId, i: int)
    requires
        same_points(g0, g1),
        0 <= i,
    ensures
        find_from(g1, x, i) == find_from(g0, x, i),
    decreases g0.len() - i,
{
    if 0 <= i < g0.len() {
        assert(g1[i].entity == g0[i].entity);
        lemma_same_points_find(g0, g1, x, i + 1);
    }
}

pub proof fn lemma_same_points_wf(g0: Seq<EntryView>, g1: Seq<EntryView>)
    requires
        well_formed(g0),
        same_points(g0, g1),
    ensures
        well_formed(g1),
        forall|x: EntityId| #[trigger] has(g1, x) == has(g0, x),
{
    assert forall|i: int, j: int| 0 <= i < j < g1.len() implies g1[i].entity != g1[j].entity by {
        assert(g1[i].entity == g0[i].entity && g1[j].entity == g0[j].entity);
    }
    assert forall|i: int| 0 <= i < g1.len() implies (#[trigger] g1[i]).prev.no_duplicates() && g1[i].next.no_duplicates() by {
        assert(g1[i] == g1[i]);
    }
    assert forall|x: EntityId| #[trigger] has(g1, x) == has(g0, x) by {
        lemma_same_points_find(g0, g1, x, 0);
    }
}

/// Record `x` in a link list of entry `i` unless it is listed.
fn insert_end(g: &mut PathGraph, i: usize, x: EntityId, to_prev: bool)
    requires
        i < old(g)@.len(),
        well_formed(old(g)@),
    ensures
        same_points(old(g)@, final(g)@),
        forall|j: int| 0 <= j < old(g)@.len() && j != i ==> final(g)@[j] == old(g)@[j],
        to_prev ==> final(g)@[i as int].next == old(g)@[i as int].next && forall|y: EntityId|
            final(g)@[i as int].prev.contains(y) <==> old(g)@[i as int].prev.contains(y) || y == x,
        !to_prev ==> final(g)@[i as int].prev == old(g)@[i as int].prev && forall|y: EntityId|
            final(g)@[i as int].next.contains(y) <==> old(g)@[i as int].next.contains(y) || y == x,
{
    let listed = if to_prev {
        contains(&g.entries[i].node.prev_nodes, x)
    } else {
        contains(&g.entries[i].node.next_nodes, x)
    };
    assert(old(g)@[i as int].prev.no_duplicates() && old(g)@[i as int].next.no_duplicates());
    if !listed {
        add_link_end(g, i, x, to_prev);
        proof {
            let l = if to_prev { old(g)@[i as int].prev } else { old(g)@[i as int].next };
            assert(l.push(x).no_duplicates()) by {
                assert forall|a: int, b: int| 0 <= a < b < l.push(x).len() implies l.push(x)[a] != l.push(x)[b] by {
                    if b == l.len() {
                        assert(l.contains(l[a]));
                    }
                }
            }
            assert forall|y: EntityId| l.push(x).contains(y) <==> l.contains(y) || y == x by {
                if l.push(x).contains(y) && y != x {
                    let k = choose|k: int| 0 <= k < l.push(x).len() && l.push(x)[k] == y;
                    assert(l[k] == y);
                }
                if l.contains(y) {
                    let k = choose|k: int| 0 <= k < l.len() && l[k] == y;
                    assert(l.push(x)[k] == y);
                }
                if y == x {
                    assert(l.push(x)[l.len() as int] == x);
                }
            }
        }
    }
}

fn copy_ids(v: &Vec<EntityId>) -> (r: Vec<EntityId>)
    ensures
        r@ == v@,
{
    let mut r: Vec<EntityId> = Vec::new();
    let mut i: usize = 0;
    while i < v.len()
        invariant
            i <= v@.len(),
            r@ == v@.subrange(0, i as int),
        decreases v@.len() - i,
    {
        r.push(v[i]);
        i += 1;
    }
    assert(r@ =~= v@);
    r
}

/// Keep only the live points of a link list of entry `i`.
fn retain_live_end(g: &mut PathGraph, i: usize, from_prev: bool)
    requires
        i < old(g)@.len(),
        well_formed(old(g)@),
    ensures
        same_points(old(g)@, final(g)@),
        forall|j: int| 0 <= j < old(g)@.len() && j != i ==> final(g)@[j] == old(g)@[j],
        from_prev ==> final(g)@[i as int].next == old(g)@[i as int].next && forall|y: EntityId|
            final(g)@[i as int].prev.contains(y) <==> old(g)@[i as int].prev.contains(y) && has(old(g)@, y),
        !from_prev ==> final(g)@[i as int].prev == old(g)@[i as int].prev && forall|y: EntityId|
            final(g)@[i as int].next.contains(y) <==> old(g)@[i as int].next.contains(y) && has(old(g)@, y),
{
    let ghost g0 = g@;
    let list = if from_prev {
        copy_ids(&g.entries[i].node.prev_nodes)
    } else {
        copy_ids(&g.entries[i].node.next_nodes)
    };
    assert(list@.no_duplicates()) by {
        assert(g0[i as int].prev.no_duplicates() && g0[i as int].next.no_duplicates());
    }
    let mut kept: Vec<EntityId> = Vec::new();
    let mut k: usize = 0;
    while k < list.len()
        invariant
            g@ == g0,
            k <= list@.len(),
            list@.no_duplicates(),
            kept@.no_duplicates(),
            forall|y: EntityId| #[trigger] kept@.contains(y) ==> exists|m: int| 0 <= m < k && list@[m] == y,
            forall|y: EntityId| #[trigger] kept@.contains(y) <==> list@.subrange(0, k as int).contains(y) && has(g0, y),
        decreases list@.len() - k,
    {
        let y = list[k];
        let ghost before = kept@;
        let live = find_entry(g, y).is_some();
        assert(live == has(g0, y));
        if live {
            kept.push(y);
            proof {
                assert forall|a: int, b: int| 0 <= a < b < kept@.len() implies kept@[a] != kept@[b] by {
                    if b == before.len() {
                        assert(before.contains(before[a]));
                        let m = choose|m: int| 0 <= m < k && list@[m] == before[a];
                        assert(list@[m] != list@[k as int]);
                    } else {
                        assert(before[a] != before[b]);
                    }
                }
            }
        }
        proof {
            let s0 = list@.subrange(0, k as int);
            let s1 = list@.subrange(0, k as int + 1);
            assert(s1 == s0.push(y));
            assert forall|z: EntityId| #[trigger] kept@.contains(z) implies exists|m: int| 0 <= m < k + 1 && list@[m] == z by {
                if !before.contains(z) {
                    if live {
                        assert(kept@ == before.push(y));
                        let q = choose|q: int| 0 <= q < kept@.len() && kept@[q] == z;
                        assert(q == before.len());
                        assert(list@[k as int] == z);
                    }
                }
            }
            assert forall|z: EntityId| s1.contains(z) <==> s0.contains(z) || z == y by {
                if s1.contains(z) && z != y {
                    let q = choose|q: int| 0 <= q < s1.len() && s1[q] == z;
                    assert(s0[q] == z);
                }
                if s0.contains(z) {
                    let q = choose|q: int| 0 <= q < s0.len() && s0[q] == z;
                    assert(s1[q] == z);
                }
                if z == y {
                    assert(s1[k as int] == y);
                }
            }
            if live {
                assert(kept@ == before.push(y));
                assert forall|z: EntityId| kept@.contains(z) <==> before.contains(z) || z == y by {
                    if kept@.contains(z) && z != y {
                        let q = choose|q: int| 0 <= q < kept@.len() && kept@[q] == z;
                        assert(before[q] == z);
                    }
                    if before.contains(z) {
                        let q = choose|q: int| 0 <= q < before.len() && before[q] == z;
                        assert(kept@[q] == z);
                    }
                    if z == y {
                        assert(kept@[before.len() as int] == y);
                    }
                }
            } else {
                assert(kept@ == before);
            }
            assert forall|z: EntityId| kept@.contains(z) <==> s1.contains(z) && has(g0, z) by {
                assert(before.contains(z) <==> s0.contains(z) && has(g0, z));
            }
        }
        k += 1;
    }
    proof {
        assert(list@.subrange(0, list@.len() as int) == list@);
    }
    let mut entry = g.entries.remove(i);
    assert(entry@ == g0[i as int]);
    if from_prev {
        entry.node.prev_nodes = kept;
    } else {
        entry.node.next_nodes = kept;
    }
    g.entries.insert(i, entry);
    assert forall|j: int| 0 <= j < g0.len() && j != i implies g@[j] == g0[j] by {
        assert(g.entries@[j] == old(g).entries@[j]);
    }
    assert(same_points(g0, g@)) by {
        assert forall|j: int| 0 <= j < g0.len() implies (#[trigger] g@[j]).prev.no_duplicates() && g@[j].next.no_duplicates() by {
            if j != i {
                assert(g0[j].prev.no_duplicates() && g0[j].next.no_duplicates());
            } else {
                assert(g0[j].prev.no_duplicates() && g0[j].next.no_duplicates());
            }
        }
    }
}

impl KmpPathNode {
    /// A point `e` received its path node: record its links at the live
    /// points they name (it becomes a predecessor of each successor and a
    /// successor of each predecessor), and drop its links to points that do
    /// not exist. Nothing changes when `e` is not a path point.
    pub fn on_add_kmp_path_node(e: EntityId, g: &mut PathGraph)
        requires
            well_formed(old(g)@),
        ensures
            well_formed(final(g)@),
            !(has(old(g)@, e)) ==> final(g)@ == old(g)@,
            has(old(g)@, e) ==> attached(old(g)@, final(g)@, e, node(old(g)@, e).next, node(old(g)@, e).prev),
    {
        let ghost g0 = g@;
        let ei = match find_entry(g, e) {
            None => return,
            Some(i) => i,
        };
        proof {
            lemma_find(g0, e);
        }
        let next = copy_ids(&g.entries[ei].node.next_nodes);
        let prev = copy_ids(&g.entries[ei].node.prev_nodes);
        let ghost ns = next@;
        let ghost ps = prev@;
        let mut k: usize = 0;
        while k < next.len()
            invariant
                well_formed(g0),
                ei < g0.len(),
                g0[ei as int].entity == e,
                ns == next@,
                k <= ns.len(),
                same_points(g0, g@),
                forall|i: int| 0 <= i < g0.len() ==> (#[trigger] g@[i]).next == g0[i].next,
                forall|i: int, y: EntityId|
                    0 <= i < g0.len() ==> ((#[trigger] g@[i].prev.contains(y)) <==> g0[i].prev.contains(y) || (y == e
                        && ns.subrange(0, k as int).contains(g0[i].entity))),
            decreases ns.len() - k,
        {
            let n = next[k];
            let ghost gb = g@;
            proof {
                lemma_same_points_wf(g0, gb);
                let s0 = ns.subrange(0, k as int);
                let s1 = ns.subrange(0, k as int + 1);
                assert(s1 == s0.push(n));
                assert forall|x: EntityId| s1.contains(x) <==> s0.contains(x) || x == n by {
                    if s1.contains(x) && x != n {
                        let q = choose|q: int| 0 <= q < s1.len() && s1[q] == x;
                        assert(s0[q] == x);
                    }
                    if s0.contains(x) {
                        let q = choose|q: int| 0 <= q < s0.len() && s0[q] == x;
                        assert(s1[q] == x);
                    }
                    if x == n {
                        assert(s1[k as int] == n);
                    }
                }
            }
            match find_entry(g, n) {
                Some(j) => {
                    proof {
                        lemma_find(gb, n);
                    }
                    insert_end(g, j, e, true);
                    proof {
                        assert forall|i: int| 0 <= i < g0.len() implies (#[trigger] g@[i]).entity == g0[i].entity
                            && g@[i].max == g0[i].max && g@[i].overall_start == g0[i].overall_start
                            && g@[i].route_start == g0[i].route_start && g@[i].order == g0[i].order
                            && g@[i].prev.no_duplicates() && g@[i].next.no_duplicates() by {
                            assert(gb[i].entity == g0[i].entity);
                        }
                        assert forall|i: int, y: EntityId|
                            0 <= i < g0.len() implies ((#[trigger] g@[i].prev.contains(y)) <==> g0[i].prev.contains(y) || (y
                                == e && ns.subrange(0, k as int + 1).contains(g0[i].entity))) by {
                            assert(gb[i].entity == g0[i].entity);
                            if i == j as int {
                                assert(g0[i].entity == n);
                            } else {
                                assert(g0[i].entity != n);
                                assert(g@[i] == gb[i]);
                            }
                        }
                        assert forall|i: int| 0 <= i < g0.len() implies (#[trigger] g@[i]).next == g0[i].next by {
                            assert(gb[i].next == g0[i].next);
                        }
                    }
                },
                None => {
                    proof {
                        assert forall|i: int, y: EntityId|
                            0 <= i < g0.len() implies ((#[trigger] g@[i].prev.contains(y)) <==> g0[i].prev.contains(y) || (y
                                == e && ns.subrange(0, k as int + 1).contains(g0[i].entity))) by {
                            assert(gb[i].entity == g0[i].entity);
                            if g0[i].entity == n {
                                lemma_find(gb, n);
                            }
                        }
                    }
                },
            }
            k += 1;
        }
        let ghost g_mid = g@;
        proof {
            assert(ns.subrange(0, ns.len() as int) == ns);
        }
        let mut k: usize = 0;
        while k < prev.len()
            invariant
                well_formed(g0),
                ei < g0.len(),
                g0[ei as int].entity == e,
                ns == next@,
                ps == prev@,
                k <= ps.len(),
                same_points(g0, g@),
                forall|i: int, y: EntityId|
                    0 <= i < g0.len() ==> ((#[trigger] g@[i].prev.contains(y)) <==> g0[i].prev.contains(y) || (y == e
                        && ns.contains(g0[i].entity))),
                forall|i: int, y: EntityId|
                    0 <= i < g0.len() ==> ((#[trigger] g@[i].next.contains(y)) <==> g0[i].next.contains(y) || (y == e
                        && ps.subrange(0, k as int).contains(g0[i].entity))),
            decreases ps.len() - k,
        {
            let p = prev[k];
            let ghost gb = g@;
            proof {
                lemma_same_points_wf(g0, gb);
                let s0 = ps.subrange(0, k as int);
                let s1 = ps.subrange(0, k as int + 1);
                assert(s1 == s0.push(p));
                assert forall|x: EntityId| s1.contains(x) <==> s0.contains(x) || x == p by {
                    if s1.contains(x) && x != p {
                        let q = choose|q: int| 0 <= q < s1.len() && s1[q] == x;
                        assert(s0[q] == x);
                    }
                    if s0.contains(x) {
                        let q = choose|q: int| 0 <= q < s0.len() && s0[q] == x;
                        assert(s1[q] == x);
                    }
                    if x == p {
                        assert(s1[k as int] == p);
                    }
                }
            }
            match find_entry(g, p) {
                Some(j) => {
                    proof {
                        lemma_find(gb, p);
                    }
                    insert_end(g, j, e, false);
                    proof {
                        assert forall|i: int| 0 <= i < g0.len() implies (#[trigger] g@[i]).entity == g0[i].entity
                            && g@[i].max == g0[i].max && g@[i].overall_start == g0[i].overall_start
                            && g@[i].route_start == g0[i].route_start && g@[i].order == g0[i].order
                            && g@[i].prev.no_duplicates() && g@[i].next.no_duplicates() by {
                            assert(gb[i].entity == g0[i].entity);
                        }
                        assert forall|i: int, y: EntityId|
                            0 <= i < g0.len() implies ((#[trigger] g@[i].next.contains(y)) <==> g0[i].next.contains(y) || (y
                                == e && ps.subrange(0, k as int + 1).contains(g0[i].entity))) by {
                            assert(gb[i].entity == g0[i].entity);
                            if i == j as int {
                                assert(g0[i].entity == p);
                            } else {
                                assert(g0[i].entity != p);
                                assert(g@[i] == gb[i]);
                            }
                        }
                        assert forall|i: int, y: EntityId|
                            0 <= i < g0.len() implies ((#[trigger] g@[i].prev.contains(y)) <==> g0[i].prev.contains(y) || (y
                                == e && ns.contains(g0[i].entity))) by {
                            assert(gb[i].entity == g0[i].entity);
                            if i != j as int {
                                assert(g@[i] == gb[i]);
                            }
                            assert(gb[i].prev.contains(y) == g@[i].prev.contains(y));
                        }
                    }
                },
                None => {
                    proof {
                        assert forall|i: int, y: EntityId|
                            0 <= i < g0.len() implies ((#[trigger] g@[i].next.contains(y)) <==> g0[i].next.contains(y) || (y
                                == e && ps.subrange(0, k as int + 1).contains(g0[i].entity))) by {
                            assert(gb[i].entity == g0[i].entity);
                            if g0[i].entity == p {
                                lemma_find(gb, p);
                            }
                        }
                    }
                },
            }
            k += 1;
        }
        proof {
            assert(ps.subrange(0, ps.len() as int) == ps);
            lemma_same_points_wf(g0, g@);
        }
        let ghost g2 = g@;
        retain_live_end(g, ei, false);
        let ghost g3 = g@;
        proof {
            lemma_same_points_wf(g2, g3);
        }
        retain_live_end(g, ei, true);
        proof {
            let g4 = g@;
            lemma_same_points_wf(g3, g4);
            assert(same_points(g0, g4)) by {
                assert forall|i: int| 0 <= i < g0.len() implies (#[trigger] g4[i]).entity == g0[i].entity
                    && g4[i].max == g0[i].max && g4[i].overall_start == g0[i].overall_start
                    && g4[i].route_start == g0[i].route_start && g4[i].order == g0[i].order
                    && g4[i].prev.no_duplicates() && g4[i].next.no_duplicates() by {
                    assert(g2[i].entity == g0[i].entity && g3[i].entity == g2[i].entity);
                    assert(g2[i].max == g0[i].max && g3[i].max == g2[i].max);
                    assert(g2[i].overall_start == g0[i].overall_start && g3[i].overall_start == g2[i].overall_start);
                    assert(g2[i].route_start == g0[i].route_start && g3[i].route_start == g2[i].route_start);
                    assert(g2[i].order == g0[i].order && g3[i].order == g2[i].order);
                }
            }
            assert forall|x: EntityId| has(g2, x) == has(g0, x) && has(g3, x) == has(g0, x) by {
                lemma_same_points_wf(g0, g2);
            }
            assert forall|i: int, y: EntityId|
                0 <= i < g0.len() implies ((#[trigger] g4[i].prev.contains(y)) <==> (g0[i].prev.contains(y) && (g0[i].entity
                    != e || has(g0, y))) || (y == e && ns.contains(g0[i].entity))) by {
                if i == ei as int {
                    assert(g0[i].entity == e);
                    assert(g3[i].prev == g2[i].prev);
                    assert(has(g3, y) == has(g0, y));
                    assert(has(g0, e));
                } else {
                    assert(g0[i].entity != e);
                    assert(g4[i] == g2[i]);
                }
            }
            assert forall|i: int, y: EntityId|
                0 <= i < g0.len() implies ((#[trigger] g4[i].next.contains(y)) <==> (g0[i].next.contains(y) && (g0[i].entity
                    != e || has(g0, y))) || (y == e && ps.contains(g0[i].entity))) by {
                if i == ei as int {
                    assert(g0[i].entity == e);
                    assert(g4[i].next == g3[i].next);
                    assert(has(g2, y) == has(g0, y));
                    assert(has(g0, e));
                } else {
                    assert(g0[i].entity != e);
                    assert(g4[i] == g2[i]);
                }
            }
        }
    }
}

/// `g1` is `g0` without the point `e` (found at `k`) once `e` is dropped from
/// the predecessors of its successors `ns` and from the successors of its
/// predecessors `ps`.
pub open spec fn detached(g0: Seq<EntryView>, g1: Seq<EntryView>, e: EntityId, ns: Seq<EntityId>, ps: Seq<EntityId>, k: int) -> bool {
    &&& g1.len() + 1 == g0.len()
    &&& forall|i: int|
        0 <= i < g1.len() ==> {
            let o = if i < k {
                i
            } else {
                i + 1
            };
            &&& (#[trigger] g1[i]).entity == g0[o].entity
            &&& g1[i].max == g0[o].max
            &&& g1[i].overall_start == g0[o].overall_start
            &&& g1[i].route_start == g0[o].route_start
            &&& g1[i].order == g0[o].order
            &&& g1[i].prev.no_duplicates()
            &&& g1[i].next.no_duplicates()
            &&& forall|y: EntityId|
                #[trigger] g1[i].prev.contains(y) <==> g0[o].prev.contains(y) && !(y == e && ns.contains(g0[o].entity))
            &&& forall|y: EntityId|
                #[trigger] g1[i].next.contains(y) <==> g0[o].next.contains(y) && !(y == e && ps.contains(g0[o].entity))
        }
}

/// Drop `x` from a link list of entry `i`, keeping the others.
fn remove_end(g: &mut PathGraph, i: usize, x: EntityId, from_prev: bool)
    requires
        i < old(g)@.len(),
        well_formed(old(g)@),
    ensures
        same_points(old(g)@, final(g)@),
        forall|j: int| 0 <= j < old(g)@.len() && j != i ==> final(g)@[j] == old(g)@[j],
        from_prev ==> final(g)@[i as int].next == old(g)@[i as int].next && forall|y: EntityId|
            final(g)@[i as int].prev.contains(y) <==> old(g)@[i as int].prev.contains(y) && y != x,
        !from_prev ==> final(g)@[i as int].prev == old(g)@[i as int].prev && forall|y: EntityId|
            final(g)@[i as int].next.contains(y) <==> old(g)@[i as int].next.contains(y) && y != x,
{
    drop_link_end(g, i, x, from_prev);
    proof {
        assert forall|j: int| 0 <= j < old(g)@.len() implies (#[trigger] g@[j]).prev.no_duplicates()
            && g@[j].next.no_duplicates() by {
            assert(old(g)@[j].prev.no_duplicates() && old(g)@[j].next.no_duplicates());
        }
    }
}

impl KmpPathNode {
    /// The path node of `e` is being removed: drop `e` from the predecessors
    /// of its successors and from the successors of its predecessors, then
    /// remove the point. Nothing changes when `e` is not a path point.
    pub fn on_remove_kmp_path_node(e: EntityId, g: &mut PathGraph)
        requires
            well_formed(old(g)@),
        ensures
            well_formed(final(g)@),
            !(has(old(g)@, e)) ==> final(g)@ == old(g)@,
            has(old(g)@, e) ==> detached(
                old(g)@,
                final(g)@,
                e,
                node(old(g)@, e).next,
                node(old(g)@, e).prev,
                find(old(g)@, e)->Some_0,
            ),
    {
        let ghost g0 = g@;
        let ei = match find_entry(g, e) {
            None => return,
            Some(i) => i,
        };
        proof {
            lemma_find(g0, e);
        }
        let next = copy_ids(&g.entries[ei].node.next_nodes);
        let prev = copy_ids(&g.entries[ei].node.prev_nodes);
        let ghost ns = next@;
        let ghost ps = prev@;
        let mut k: usize = 0;
        while k < next.len()
            invariant
                well_formed(g0),
                ei < g0.len(),
                g0[ei as int].entity == e,
                ns == next@,
                k <= ns.len(),
                same_points(g0, g@),
                forall|i: int| 0 <= i < g0.len() ==> (#[trigger] g@[i]).next == g0[i].next,
                forall|i: int, y: EntityId|
                    0 <= i < g0.len() ==> ((#[trigger] g@[i].prev.contains(y)) <==> g0[i].prev.contains(y) && !(y == e
                        && ns.subrange(0, k as int).contains(g0[i].entity))),
            decreases ns.len() - k,
        {
            let n = next[k];
            let ghost gb = g@;
            proof {
                lemma_same_points_wf(g0, gb);
                let s0 = ns.subrange(0, k as int);
                let s1 = ns.subrange(0, k as int + 1);
                assert(s1 == s0.push(n));
                assert forall|x: EntityId| s1.contains(x) <==> s0.contains(x) || x == n by {
                    if s1.contains(x) && x != n {
                        let q = choose|q: int| 0 <= q < s1.len() && s1[q] == x;
                        assert(s0[q] == x);
                    }
                    if s0.contains(x) {
                        let q = choose|q: int| 0 <= q < s0.len() && s0[q] == x;
                        assert(s1[q] == x);
                    }
                    if x == n {
                        assert(s1[k as int] == n);
                    }
                }
            }
            match find_entry(g, n) {
                Some(j) => {
                    proof {
                        lemma_find(gb, n);
                    }
                    remove_end(g, j, e, true);
                    proof {
                        assert forall|i: int| 0 <= i < g0.len() implies (#[trigger] g@[i]).entity == g0[i].entity
                            && g@[i].max == g0[i].max && g@[i].overall_start == g0[i].overall_start
                            && g@[i].route_start == g0[i].route_start && g@[i].order == g0[i].order
                            && g@[i].prev.no_duplicates() && g@[i].next.no_duplicates() by {
                            assert(gb[i].entity == g0[i].entity);
                        }
                        assert forall|i: int, y: EntityId|
                            0 <= i < g0.len() implies ((#[trigger] g@[i].prev.contains(y)) <==> g0[i].prev.contains(y) && !(y
                                == e && ns.subrange(0, k as int + 1).contains(g0[i].entity))) by {
                            assert(gb[i].entity == g0[i].entity);
                            if i == j as int {
                                assert(g0[i].entity == n);
                            } else {
                                assert(g0[i].entity != n);
                                assert(g@[i] == gb[i]);
                            }
                        }
                        assert forall|i: int| 0 <= i < g0.len() implies (#[trigger] g@[i]).next == g0[i].next by {
                            assert(gb[i].next == g0[i].next);
                        }
                    }
                },
                None => {
                    proof {
                        assert forall|i: int, y: EntityId|
                            0 <= i < g0.len() implies ((#[trigger] g@[i].prev.contains(y)) <==> g0[i].prev.contains(y) && !(y
                                == e && ns.subrange(0, k as int + 1).contains(g0[i].entity))) by {
                            assert(gb[i].entity == g0[i].entity);
                            if g0[i].entity == n {
                                lemma_find(gb, n);
                            }
                        }
                    }
                },
            }
            k += 1;
        }
        proof {
            assert(ns.subrange(0, ns.len() as int) == ns);
        }
        let mut k: usize = 0;
        while k < prev.len()
            invariant
                well_formed(g0),
                ei < g0.len(),
                g0[ei as int].entity == e,
                ns == next@,
                ps == prev@,
                k <= ps.len(),
                same_points(g0, g@),
                forall|i: int, y: EntityId|
                    0 <= i < g0.len() ==> ((#[trigger] g@[i].prev.contains(y)) <==> g0[i].prev.contains(y) && !(y == e
                        && ns.contains(g0[i].entity))),
                forall|i: int, y: EntityId|
                    0 <= i < g0.len() ==> ((#[trigger] g@[i].next.contains(y)) <==> g0[i].next.contains(y) && !(y == e
                        && ps.subrange(0, k as int).contains(g0[i].entity))),
            decreases ps.len() - k,
        {
            let p = prev[k];
            let ghost gb = g@;
            proof {
                lemma_same_points_wf(g0, gb);
                let s0 = ps.subrange(0, k as int);
                let s1 = ps.subrange(0, k as int + 1);
                assert(s1 == s0.push(p));
                assert forall|x: EntityId| s1.contains(x) <==> s0.contains(x) || x == p by {
                    if s1.contains(x) && x != p {
                        let q = choose|q: int| 0 <= q < s1.len() && s1[q] == x;
                        assert(s0[q] == x);
                    }
                    if s0.contains(x) {
                        let q = choose|q: int| 0 <= q < s0.len() && s0[q] == x;
                        assert(s1[q] == x);
                    }
                    if x == p {
                        assert(s1[k as int] == p);
                    }
                }
            }
            match find_entry(g, p) {
                Some(j) => {
                    proof {
                        lemma_find(gb, p);
                    }
                    remove_end(g, j, e, false);
                    proof {
                        assert forall|i: int| 0 <= i < g0.len() implies (#[trigger] g@[i]).entity == g0[i].entity
                            && g@[i].max == g0[i].max && g@[i].overall_start == g0[i].overall_start
                            && g@[i].route_start == g0[i].route_start && g@[i].order == g0[i].order
                            && g@[i].prev.no_duplicates() && g@[i].next.no_duplicates() by {
                            assert(gb[i].entity == g0[i].entity);
                        }
                        assert forall|i: int, y: EntityId|
                            0 <= i < g0.len() implies ((#[trigger] g@[i].next.contains(y)) <==> g0[i].next.contains(y) && !(y
                                == e && ps.subrange(0, k as int + 1).contains(g0[i].entity))) by {
                            assert(gb[i].entity == g0[i].entity);
                            if i == j as int {
                                assert(g0[i].entity == p);
                            } else {
                                assert(g0[i].entity != p);
                                assert(g@[i] == gb[i]);
                            }
                        }
                        assert forall|i: int, y: EntityId|
                            0 <= i < g0.len() implies ((#[trigger] g@[i].prev.contains(y)) <==> g0[i].prev.contains(y) && !(y
                                == e && ns.contains(g0[i].entity))) by {
                            assert(gb[i].entity == g0[i].entity);
                            if i != j as int {
                                assert(g@[i] == gb[i]);
                            }
                            assert(gb[i].prev.contains(y) == g@[i].prev.contains(y));
                        }
                    }
                },
                None => {
                    proof {
                        assert forall|i: int, y: EntityId|
                            0 <= i < g0.len() implies ((#[trigger] g@[i].next.contains(y)) <==> g0[i].next.contains(y) && !(y
                                == e && ps.subrange(0, k as int + 1).contains(g0[i].entity))) by {
                            assert(gb[i].entity == g0[i].entity);
                            if g0[i].entity == p {
                                lemma_find(gb, p);
                            }
                        }
                    }
                },
            }
            k += 1;
        }
        proof {
            assert(ps.subrange(0, ps.len() as int) == ps);
            lemma_same_points_wf(g0, g@);
        }
        let ghost g2 = g@;
        g.entries.remove(ei);
        proof {
            let g3 = g@;
            assert forall|i: int, j: int| 0 <= i < j < g3.len() implies g3[i].entity != g3[j].entity by {
                let oi = if i < ei { i } else { i + 1 };
                let oj = if j < ei { j } else { j + 1 };
                assert(g3[i] == g2[oi] && g3[j] == g2[oj]);
                assert(g2[oi].entity == g0[oi].entity && g2[oj].entity == g0[oj].entity);
            }
            assert forall|i: int| 0 <= i < g3.len() implies (#[trigger] g3[i]).prev.no_duplicates() && g3[i].next.no_duplicates() by {
                let oi = if i < ei { i } else { i + 1 };
                assert(g3[i] == g2[oi]);
            }
            assert(detached(g0, g3, e, ns, ps, ei as int)) by {
                assert forall|i: int| 0 <= i < g3.len() implies {
                    let o = if i < ei {
                        i
                    } else {
                        i + 1
                    };
                    &&& (#[trigger] g3[i]).entity == g0[o].entity
                    &&& g3[i].max == g0[o].max
                    &&& g3[i].overall_start == g0[o].overall_start
                    &&& g3[i].route_start == g0[o].route_start
                    &&& g3[i].order == g0[o].order
                    &&& g3[i].prev.no_duplicates()
                    &&& g3[i].next.no_duplicates()
                    &&& forall|y: EntityId|
                        #[trigger] g3[i].prev.contains(y) <==> g0[o].prev.contains(y) && !(y == e && ns.contains(g0[o].entity))
                    &&& forall|y: EntityId|
                        #[trigger] g3[i].next.contains(y) <==> g0[o].next.contains(y) && !(y == e && ps.contains(g0[o].entity))
                } by {
                    let o = if i < ei { i } else { i + 1 };
                    assert(g3[i] == g2[o]);
                    assert forall|y: EntityId| #[trigger] g3[i].prev.contains(y) <==> g0[o].prev.contains(y) && !(y == e
                        && ns.contains(g0[o].entity)) by {
                        assert(g2[o].prev.contains(y) <==> g0[o].prev.contains(y) && !(y == e && ns.contains(g0[o].entity)));
                    }
                    assert forall|y: EntityId| #[trigger] g3[i].next.contains(y) <==> g0[o].next.contains(y) && !(y == e
                        && ps.contains(g0[o].entity)) by {
                        assert(g2[o].next.contains(y) <==> g0[o].next.contains(y) && !(y == e && ps.contains(g0[o].entity)));
                    }
                }
            }
        }
    }
}

/// `g1` records the same links as `g0`, at the same points.
pub open spec fn same_links(g0: Seq<EntryView>, g1: Seq<EntryView>) -> bool {
    &&& same_points(g0, g1)
    &&& forall|i: int, y: EntityId|
        0 <= i < g0.len() ==> ((#[trigger] g1[i].prev.contains(y)) <==> g0[i].prev.contains(y))
    &&& forall|i: int, y: EntityId|
        0 <= i < g0.len() ==> ((#[trigger] g1[i].next.contains(y)) <==> g0[i].next.contains(y))
}

/// The user may link `p` before `n` (see [`KmpPathNode::can_link_nodes`]).
pub open spec fn link_allowed(g: Seq<EntryView>, p: EntityId, n: EntityId) -> bool {
    may_link(g, p, n) && (!reaches(g, n, p) || closes_at_start(g, p, n))
}

/// The graph after linking each of `ps`, in turn, before `n`.
pub open spec fn with_links(g: Seq<EntryView>, ps: Seq<EntityId>, n: EntityId) -> Seq<EntryView>
    decreases ps.len(),
{
    if ps.len() == 0 {
        g
    } else {
        with_link(with_links(g, ps.drop_last(), n), ps.last(), n)
    }
}

/// Each of `ps`, in turn, may be linked before `n`.
pub open spec fn links_allowed(g: Seq<EntryView>, ps: Seq<EntityId>, n: EntityId) -> bool
    decreases ps.len(),
{
    ps.len() == 0 || (links_allowed(g, ps.drop_last(), n) && link_allowed(with_links(g, ps.drop_last(), n), ps.last(), n))
}

/// Before each of the links of `ps` to `n`, no defective point (stale,
/// asymmetric, over its limit, or on a cycle) can be reached from `n`.
pub open spec fn links_clean(g: Seq<EntryView>, ps: Seq<EntityId>, n: EntityId) -> bool
    decreases ps.len(),
{
    ps.len() == 0 || (links_clean(g, ps.drop_last(), n) && forall|x: EntityId|
        reaches(with_links(g, ps.drop_last(), n), n, x) ==> !#[trigger] bad(with_links(g, ps.drop_last(), n), x))
}

proof fn lemma_links_prefix(g: Seq<EntryView>, ps: Seq<EntityId>, n: EntityId, m: int)
    requires
        0 <= m <= ps.len(),
    ensures
        links_allowed(g, ps, n) ==> links_allowed(g, ps.subrange(0, m), n),
        links_clean(g, ps, n) ==> links_clean(g, ps.subrange(0, m), n),
    decreases ps.len(),
{
    if m < ps.len() {
        lemma_links_prefix(g, ps.drop_last(), n, m);
        assert(ps.drop_last().subrange(0, m) == ps.subrange(0, m));
    } else {
        assert(ps.subrange(0, m) == ps);
    }
}

/// `g` is `g0` plus the links from each point of `rest` to `c`.
spec fn rolled(g0: Seq<EntryView>, g: Seq<EntryView>, c: EntityId, rest: Seq<EntityId>) -> bool {
    &&& same_points(g0, g)
    &&& forall|i: int, y: EntityId|
        0 <= i < g0.len() ==> ((#[trigger] g[i].prev.contains(y)) <==> g0[i].prev.contains(y) || (g0[i].entity == c
            && rest.contains(y)))
    &&& forall|i: int, y: EntityId|
        0 <= i < g0.len() ==> ((#[trigger] g[i].next.contains(y)) <==> g0[i].next.contains(y) || (y == c
            && rest.contains(g0[i].entity)))
}

/// The points of `rest` are distinct live points other than `c`, none of
/// them linked to `c` in `g0`.
spec fn fresh_links(g0: Seq<EntryView>, c: EntityId, rest: Seq<EntityId>) -> bool {
    &&& rest.no_duplicates()
    &&& has(g0, c)
    &&& forall|k: int|
        0 <= k < rest.len() ==> {
            &&& has(g0, #[trigger] rest[k])
            &&& rest[k] != c
            &&& !node(g0, c).prev.contains(rest[k])
            &&& !node(g0, rest[k]).next.contains(c)
        }
}

proof fn lemma_link_step(g0: Seq<EntryView>, g: Seq<EntryView>, c: EntityId, rest: Seq<EntityId>, p: EntityId)
    requires
        well_formed(g0),
        rolled(g0, g, c, rest),
        fresh_links(g0, c, rest),
        may_link(g, p, c),
    ensures
        rolled(g0, with_link(g, p, c), c, rest.push(p)),
        fresh_links(g0, c, rest.push(p)),
        well_formed(with_link(g, p, c)),
{
    let g1 = with_link(g, p, c);
    let r1 = rest.push(p);
    lemma_same_points_wf(g0, g);
    lemma_find(g, p);
    lemma_find(g, c);
    lemma_find(g0, p);
    lemma_find(g0, c);
    assert forall|x: EntityId| #[trigger] find(g, x) == find(g0, x) by {
        lemma_same_points_find(g0, g, x, 0);
    }
    let pi = find(g, p)->Some_0;
    let ci = find(g, c)->Some_0;
    assert(g[pi].entity == p && g0[pi].entity == p);
    assert(g[ci].entity == c && g0[ci].entity == c);
    assert(!g[ci].prev.contains(p) && !g[pi].next.contains(c));
    assert(!g0[ci].prev.contains(p) && !rest.contains(p));
    assert(!g0[pi].next.contains(c));
    assert forall|y: EntityId| r1.contains(y) <==> rest.contains(y) || y == p by {
        if r1.contains(y) && y != p {
            let q = choose|q: int| 0 <= q < r1.len() && r1[q] == y;
            assert(rest[q] == y);
        }
        if rest.contains(y) {
            let q = choose|q: int| 0 <= q < rest.len() && rest[q] == y;
            assert(r1[q] == y);
        }
        if y == p {
            assert(r1[rest.len() as int] == p);
        }
    }
    assert forall|i: int| 0 <= i < g0.len() implies {
        &&& (#[trigger] g1[i]).entity == g0[i].entity
        &&& g1[i].max == g0[i].max
        &&& g1[i].overall_start == g0[i].overall_start
        &&& g1[i].route_start == g0[i].route_start
        &&& g1[i].order == g0[i].order
        &&& g1[i].prev.no_duplicates()
        &&& g1[i].next.no_duplicates()
    } by {
        assert(g[i].entity == g0[i].entity);
        let l = g[i].prev;
        if g[i].entity == c {
            assert(i == ci);
            assert forall|a: int, b: int| 0 <= a < b < l.push(p).len() implies l.push(p)[a] != l.push(p)[b] by {
                if b == l.len() {
                    assert(l.contains(l[a]));
                }
            }
        }
        let m = g[i].next;
        if g[i].entity == p {
            assert(i == pi);
            assert forall|a: int, b: int| 0 <= a < b < m.push(c).len() implies m.push(c)[a] != m.push(c)[b] by {
                if b == m.len() {
                    assert(m.contains(m[a]));
                }
            }
        }
    }
    assert forall|i: int, y: EntityId| 0 <= i < g0.len() implies ((#[trigger] g1[i].prev.contains(y)) <==> g0[i].prev.contains(y)
        || (g0[i].entity == c && r1.contains(y))) by {
        assert(g[i].entity == g0[i].entity);
        let l = g[i].prev;
        if g[i].entity == c {
            assert(g1[i].prev == l.push(p));
            if l.push(p).contains(y) && y != p {
                let q = choose|q: int| 0 <= q < l.push(p).len() && l.push(p)[q] == y;
                assert(l[q] == y);
            }
            if l.contains(y) {
                let q = choose|q: int| 0 <= q < l.len() && l[q] == y;
                assert(l.push(p)[q] == y);
            }
            if y == p {
                assert(l.push(p)[l.len() as int] == p);
            }
        }
    }
    assert forall|i: int, y: EntityId| 0 <= i < g0.len() implies ((#[trigger] g1[i].next.contains(y)) <==> g0[i].next.contains(y)
        || (y == c && r1.contains(g0[i].entity))) by {
        assert(g[i].entity == g0[i].entity);
        let m = g[i].next;
        if g[i].entity == p {
            assert(g1[i].next == m.push(c));
            if m.push(c).contains(y) && y != c {
                let q = choose|q: int| 0 <= q < m.push(c).len() && m.push(c)[q] == y;
                assert(m[q] == y);
            }
            if m.contains(y) {
                let q = choose|q: int| 0 <= q < m.len() && m[q] == y;
                assert(m.push(c)[q] == y);
            }
            if y == c {
                assert(m.push(c)[m.len() as int] == c);
            }
        } else {
            assert(g0[i].entity != p);
        }
    }
    assert(rolled(g0, g1, c, r1));
    assert(r1.no_duplicates()) by {
        assert forall|a: int, b: int| 0 <= a < b < r1.len() implies r1[a] != r1[b] by {
            if b == rest.len() {
                assert(rest.contains(rest[a]));
            }
        }
    }
    assert forall|k: int| 0 <= k < r1.len() implies {
        &&& has(g0, #[trigger] r1[k])
        &&& r1[k] != c
        &&& !node(g0, c).prev.contains(r1[k])
        &&& !node(g0, r1[k]).next.contains(c)
    } by {
        if k == rest.len() {
            assert(r1[k] == p);
            assert(node(g0, p) == g0[pi]);
            assert(node(g0, c) == g0[ci]);
        } else {
            assert(r1[k] == rest[k]);
        }
    }
    lemma_same_points_wf(g0, g1);
}

/// One alt-click linking the selected points, in turn, before the clicked
/// point, as a transaction: either every link is made, or any link made
/// by this click is removed again and the graph keeps the links it had.
/// Success is owed when each link is allowed and, before each, no
/// defective point can be reached from the clicked one.
pub fn link_points(g: &mut PathGraph, selected: &Vec<EntityId>, clicked: EntityId) -> (r: bool)
    requires
        well_formed(old(g)@),
    ensures
        well_formed(final(g)@),
        r ==> links_allowed(old(g)@, selected@, clicked) && final(g)@ == with_links(old(g)@, selected@, clicked),
        !r ==> same_links(old(g)@, final(g)@),
        links_allowed(old(g)@, selected@, clicked) && links_clean(old(g)@, selected@, clicked) ==> r,
{
    let ghost g0 = g@;
    let ghost sel = selected@;
    proof {
        assert(sel.subrange(0, 0) =~= Seq::<EntityId>::empty());
        assert(rolled(g0, g0, clicked, Seq::empty())) by {
            assert forall|i: int| 0 <= i < g0.len() implies (#[trigger] g0[i]).prev.no_duplicates() && g0[i].next.no_duplicates() by {
            }
        }
    }
    let mut k: usize = 0;
    while k < selected.len()
        invariant
            well_formed(g0),
            g0 == old(g)@,
            sel == selected@,
            k <= sel.len(),
            well_formed(g@),
            g@ == with_links(g0, sel.subrange(0, k as int), clicked),
            links_allowed(g0, sel.subrange(0, k as int), clicked),
            rolled(g0, g@, clicked, sel.subrange(0, k as int)),
            k > 0 ==> fresh_links(g0, clicked, sel.subrange(0, k as int)),
        decreases sel.len() - k,
    {
        let p = selected[k];
        let ghost gb = g@;
        let ghost pre = sel.subrange(0, k as int);
        let ghost pre1 = sel.subrange(0, k as int + 1);
        proof {
            assert(pre1.drop_last() == pre);
            assert(pre1.last() == p);
            lemma_links_prefix(g0, sel, clicked, k as int + 1);
        }
        if !KmpPathNode::link_nodes(p, clicked, g) {
            proof {
                if links_allowed(g0, sel, clicked) && links_clean(g0, sel, clicked) {
                    assert(links_allowed(g0, pre1, clicked));
                    assert(links_clean(g0, pre1, clicked));
                    assert(link_allowed(gb, p, clicked));
                    assert(false);
                }
            }
            rollback(g, selected, k, clicked, Ghost(g0));
            return false;
        }
        proof {
            assert(link_allowed(gb, p, clicked));
            assert(links_allowed(g0, pre1, clicked));
            if k == 0 {
                assert(has(g0, clicked)) by {
                    lemma_same_points_wf(g0, gb);
                }
                assert(fresh_links(g0, clicked, pre)) by {
                    assert(pre =~= Seq::<EntityId>::empty());
                }
            }
            lemma_link_step(g0, gb, clicked, pre, p);
            assert(pre.push(p) == pre1);
        }
        k += 1;
    }
    proof {
        assert(sel.subrange(0, sel.len() as int) == sel);
    }
    true
}

/// Remove the links from the first `k` selected points to `c`, made by
/// one click, in the order they were made.
fn rollback(g: &mut PathGraph, selected: &Vec<EntityId>, k: usize, c: EntityId, Ghost(g0): Ghost<Seq<EntryView>>)
    requires
        well_formed(g0),
        well_formed(old(g)@),
        k <= selected@.len(),
        rolled(g0, old(g)@, c, selected@.subrange(0, k as int)),
        k > 0 ==> fresh_links(g0, c, selected@.subrange(0, k as int)),
    ensures
        well_formed(final(g)@),
        same_links(g0, final(g)@),
{
    let mut j: usize = 0;
    while j < k
        invariant
            well_formed(g0),
            well_formed(g@),
            j <= k <= selected@.len(),
            rolled(g0, g@, c, selected@.subrange(j as int, k as int)),
            k > 0 ==> fresh_links(g0, c, selected@.subrange(0, k as int)),
        decreases k - j,
    {
        let p = selected[j];
        let ghost gb = g@;
        let ghost rest = selected@.subrange(j as int, k as int);
        let ghost rest1 = selected@.subrange(j as int + 1, k as int);
        let ghost all = selected@.subrange(0, k as int);
        proof {
            assert(rest[0] == p);
            assert(all[j as int] == p);
            assert forall|y: EntityId| rest.contains(y) <==> rest1.contains(y) || y == p by {
                if rest.contains(y) && y != p {
                    let q = choose|q: int| 0 <= q < rest.len() && rest[q] == y;
                    assert(q > 0);
                    assert(rest1[q - 1] == y);
                }
                if rest1.contains(y) {
                    let q = choose|q: int| 0 <= q < rest1.len() && rest1[q] == y;
                    assert(rest[q + 1] == y);
                }
                if y == p {
                    assert(rest[0] == p);
                }
            }
            assert(!rest1.contains(p)) by {
                if rest1.contains(p) {
                    let q = choose|q: int| 0 <= q < rest1.len() && rest1[q] == p;
                    assert(all[j + 1 + q] == p);
                    assert(all[j as int] == all[j + 1 + q]);
                }
            }
            lemma_same_points_wf(g0, gb);
            lemma_find(g0, p);
            lemma_find(g0, c);
            assert forall|x: EntityId| #[trigger] find(gb, x) == find(g0, x) by {
                lemma_same_points_find(g0, gb, x, 0);
            }
            let ci = find(g0, c)->Some_0;
            assert(gb[ci].prev.contains(p));
            assert(node(gb, c) == gb[ci]);
            assert(linked(gb, p, c));
        }
        let removed = KmpPathNode::unlink_nodes(p, c, g);
        proof {
            let g1 = g@;
            assert(removed);
            let ci = find(g0, c)->Some_0;
            let pi = find(g0, p)->Some_0;
            assert(!g0[ci].prev.contains(p)) by {
                assert(node(g0, c) == g0[ci]);
            }
            assert(!g0[pi].next.contains(c)) by {
                assert(node(g0, p) == g0[pi]);
            }
            assert(same_points(g0, g1)) by {
                assert forall|i: int| 0 <= i < g0.len() implies (#[trigger] g1[i]).entity == g0[i].entity by {
                    assert(gb[i].entity == g0[i].entity);
                }
            }
            assert forall|i: int, y: EntityId| 0 <= i < g0.len() implies ((#[trigger] g1[i].prev.contains(y))
                <==> g0[i].prev.contains(y) || (g0[i].entity == c && rest1.contains(y))) by {
                assert(gb[i].entity == g0[i].entity);
                if g0[i].entity == c {
                    assert(i == ci);
                }
            }
            assert forall|i: int, y: EntityId| 0 <= i < g0.len() implies ((#[trigger] g1[i].next.contains(y))
                <==> g0[i].next.contains(y) || (y == c && rest1.contains(g0[i].entity))) by {
                assert(gb[i].entity == g0[i].entity);
                if g0[i].entity == p {
                    assert(i == pi);
                }
            }
            lemma_same_points_wf(g0, g1);
        }
        j += 1;
    }
    proof {
        let g1 = g@;
        assert(selected@.subrange(k as int, k as int) =~= Seq::<EntityId>::empty());
        assert(same_links(g0, g1));
    }
}

/// A link the user may make keeps the graph well formed.
pub proof fn lemma_link_keeps_well_formed(g: Seq<EntryView>, p: EntityId, n: EntityId)
    requires
        well_formed(g),
        may_link(g, p, n),
    ensures
        well_formed(with_link(g, p, n)),
        same_points(g, with_link(g, p, n)),
{
    let g1 = with_link(g, p, n);
    lemma_find(g, p);
    lemma_find(g, n);
    let pi = find(g, p)->Some_0;
    let ni = find(g, n)->Some_0;
    assert(!g[ni].prev.contains(p)) by {
        assert(node(g, n) == g[ni]);
    }
    assert(!g[pi].next.contains(n)) by {
        assert(node(g, p) == g[pi]);
    }
    assert forall|i: int| 0 <= i < g.len() implies {
        &&& (#[trigger] g1[i]).entity == g[i].entity
        &&& g1[i].max == g[i].max
        &&& g1[i].overall_start == g[i].overall_start
        &&& g1[i].route_start == g[i].route_start
        &&& g1[i].order == g[i].order
        &&& g1[i].prev.no_duplicates()
        &&& g1[i].next.no_duplicates()
    } by {
        let l = g[i].prev;
        if g[i].entity == n {
            assert(i == ni);
            assert forall|a: int, b: int| 0 <= a < b < l.push(p).len() implies l.push(p)[a] != l.push(p)[b] by {
                if b == l.len() {
                    assert(l.contains(l[a]));
                }
            }
        }
        let m = g[i].next;
        if g[i].entity == p {
            assert(i == pi);
            assert forall|a: int, b: int| 0 <= a < b < m.push(n).len() implies m.push(n)[a] != m.push(n)[b] by {
                if b == m.len() {
                    assert(m.contains(m[a]));
                }
            }
        }
    }
    lemma_same_points_wf(g, g1);
}

/// `g` is `g0` plus the links in `es`, as recorded at both ends.
pub open spec fn with_edges(g0: Seq<EntryView>, g: Seq<EntryView>, es: Seq<(EntityId, EntityId)>) -> bool {
    &&& same_points(g0, g)
    &&& forall|i: int, y: EntityId|
        0 <= i < g0.len() ==> ((#[trigger] g[i].prev.contains(y)) <==> g0[i].prev.contains(y) || es.contains(
            (y, g0[i].entity),
        ))
    &&& forall|i: int, y: EntityId|
        0 <= i < g0.len() ==> ((#[trigger] g[i].next.contains(y)) <==> g0[i].next.contains(y) || es.contains(
            (g0[i].entity, y),
        ))
}

/// The links in `es` are distinct, between distinct live points, and not
/// recorded at either end in `g0`.
pub open spec fn fresh_edges(g0: Seq<EntryView>, es: Seq<(EntityId, EntityId)>) -> bool {
    &&& es.no_duplicates()
    &&& forall|k: int|
        0 <= k < es.len() ==> {
            &&& has(g0, (#[trigger] es[k]).0)
            &&& has(g0, es[k].1)
            &&& es[k].0 != es[k].1
            &&& !node(g0, es[k].1).prev.contains(es[k].0)
            &&& !node(g0, es[k].0).next.contains(es[k].1)
        }
}

/// Making a link the user may make adds it to the links made since `g0`.
pub proof fn lemma_edge_added(g0: Seq<EntryView>, g: Seq<EntryView>, es: Seq<(EntityId, EntityId)>, p: EntityId, n: EntityId)
    requires
        well_formed(g0),
        with_edges(g0, g, es),
        fresh_edges(g0, es),
        may_link(g, p, n),
    ensures
        with_edges(g0, with_link(g, p, n), es.push((p, n))),
        fresh_edges(g0, es.push((p, n))),
        well_formed(with_link(g, p, n)),
{
    let g1 = with_link(g, p, n);
    let e1 = es.push((p, n));
    lemma_same_points_wf(g0, g);
    lemma_link_keeps_well_formed(g, p, n);
    lemma_find(g, p);
    lemma_find(g, n);
    lemma_find(g0, p);
    lemma_find(g0, n);
    assert forall|x: EntityId| #[trigger] find(g, x) == find(g0, x) by {
        lemma_same_points_find(g0, g, x, 0);
    }
    let pi = find(g, p)->Some_0;
    let ni = find(g, n)->Some_0;
    assert(g[pi].entity == p && g0[pi].entity == p);
    assert(g[ni].entity == n && g0[ni].entity == n);
    assert(node(g, p) == g[pi] && node(g, n) == g[ni]);
    assert(node(g0, p) == g0[pi] && node(g0, n) == g0[ni]);
    assert(!g[ni].prev.contains(p) && !g[pi].next.contains(n));
    assert(!es.contains((p, n)));
    assert forall|e: (EntityId, EntityId)| e1.contains(e) <==> es.contains(e) || e == (p, n) by {
        if e1.contains(e) && e != (p, n) {
            let q = choose|q: int| 0 <= q < e1.len() && e1[q] == e;
            assert(es[q] == e);
        }
        if es.contains(e) {
            let q = choose|q: int| 0 <= q < es.len() && es[q] == e;
            assert(e1[q] == e);
        }
        if e == (p, n) {
            assert(e1[es.len() as int] == e);
        }
    }
    assert forall|i: int, y: EntityId| 0 <= i < g0.len() implies ((#[trigger] g1[i].prev.contains(y)) <==> g0[i].prev.contains(y)
        || e1.contains((y, g0[i].entity))) by {
        assert(g[i].entity == g0[i].entity);
        let l = g[i].prev;
        if g[i].entity == n {
            assert(g1[i].prev == l.push(p));
            if l.push(p).contains(y) && y != p {
                let q = choose|q: int| 0 <= q < l.push(p).len() && l.push(p)[q] == y;
                assert(l[q] == y);
            }
            if l.contains(y) {
                let q = choose|q: int| 0 <= q < l.len() && l[q] == y;
                assert(l.push(p)[q] == y);
            }
            if y == p {
                assert(l.push(p)[l.len() as int] == p);
            }
        }
    }
    assert forall|i: int, y: EntityId| 0 <= i < g0.len() implies ((#[trigger] g1[i].next.contains(y)) <==> g0[i].next.contains(y)
        || e1.contains((g0[i].entity, y))) by {
        assert(g[i].entity == g0[i].entity);
        let m = g[i].next;
        if g[i].entity == p {
            assert(g1[i].next == m.push(n));
            if m.push(n).contains(y) && y != n {
                let q = choose|q: int| 0 <= q < m.push(n).len() && m.push(n)[q] == y;
                assert(m[q] == y);
            }
            if m.contains(y) {
                let q = choose|q: int| 0 <= q < m.len() && m[q] == y;
                assert(m.push(n)[q] == y);
            }
            if y == n {
                assert(m.push(n)[m.len() as int] == n);
            }
        }
    }
    assert(same_points(g0, g1)) by {
        assert forall|i: int| 0 <= i < g0.len() implies (#[trigger] g1[i]).entity == g0[i].entity by {
            assert(g[i].entity == g0[i].entity);
        }
    }
    assert(e1.no_duplicates()) by {
        assert forall|a: int, b: int| 0 <= a < b < e1.len() implies e1[a] != e1[b] by {
            if b == es.len() {
                assert(es.contains(es[a]));
            }
        }
    }
    assert forall|k: int| 0 <= k < e1.len() implies {
        &&& has(g0, (#[trigger] e1[k]).0)
        &&& has(g0, e1[k].1)
        &&& e1[k].0 != e1[k].1
        &&& !node(g0, e1[k].1).prev.contains(e1[k].0)
        &&& !node(g0, e1[k].0).next.contains(e1[k].1)
    } by {
        if k < es.len() {
            assert(e1[k] == es[k]);
        }
    }
}

/// Removing the first of the links made since `g0` leaves the others.
pub proof fn lemma_edge_removed(g0: Seq<EntryView>, g: Seq<EntryView>, g1: Seq<EntryView>, es: Seq<(EntityId, EntityId)>)
    requires
        well_formed(g0),
        es.len() > 0,
        with_edges(g0, g, es),
        fresh_edges(g0, es),
        unlinked(g, g1, es[0].0, es[0].1),
    ensures
        with_edges(g0, g1, es.drop_first()),
        fresh_edges(g0, es.drop_first()),
        well_formed(g1),
{
    let (p, n) = es[0];
    let rest = es.drop_first();
    lemma_find(g0, p);
    lemma_find(g0, n);
    let pi = find(g0, p)->Some_0;
    let ni = find(g0, n)->Some_0;
    assert(node(g0, p) == g0[pi] && node(g0, n) == g0[ni]);
    assert(!rest.contains((p, n))) by {
        if rest.contains((p, n)) {
            let q = choose|q: int| 0 <= q < rest.len() && rest[q] == (p, n);
            assert(es[q + 1] == es[0]);
        }
    }
    assert forall|e: (EntityId, EntityId)| es.contains(e) <==> rest.contains(e) || e == (p, n) by {
        if es.contains(e) && e != (p, n) {
            let q = choose|q: int| 0 <= q < es.len() && es[q] == e;
            assert(q > 0);
            assert(rest[q - 1] == e);
        }
        if rest.contains(e) {
            let q = choose|q: int| 0 <= q < rest.len() && rest[q] == e;
            assert(es[q + 1] == e);
        }
        if e == (p, n) {
            assert(es[0] == e);
        }
    }
    assert forall|i: int, y: EntityId| 0 <= i < g0.len() implies ((#[trigger] g1[i].prev.contains(y)) <==> g0[i].prev.contains(y)
        || rest.contains((y, g0[i].entity))) by {
        assert(g[i].entity == g0[i].entity);
        if g0[i].entity == n {
            assert(i == ni);
        }
    }
    assert forall|i: int, y: EntityId| 0 <= i < g0.len() implies ((#[trigger] g1[i].next.contains(y)) <==> g0[i].next.contains(y)
        || rest.contains((g0[i].entity, y))) by {
        assert(g[i].entity == g0[i].entity);
        if g0[i].entity == p {
            assert(i == pi);
        }
    }
    assert(same_points(g0, g1)) by {
        assert forall|i: int| 0 <= i < g0.len() implies (#[trigger] g1[i]).entity == g0[i].entity && g1[i].max == g0[i].max
            && g1[i].overall_start == g0[i].overall_start && g1[i].route_start == g0[i].route_start && g1[i].order
            == g0[i].order && g1[i].prev.no_duplicates() && g1[i].next.no_duplicates() by {
            assert(g[i].entity == g0[i].entity);
        }
    }
    assert(rest.no_duplicates()) by {
        assert forall|a: int, b: int| 0 <= a < b < rest.len() implies rest[a] != rest[b] by {
            assert(es[a + 1] != es[b + 1]);
        }
    }
    assert forall|k: int| 0 <= k < rest.len() implies {
        &&& has(g0, (#[trigger] rest[k]).0)
        &&& has(g0, rest[k].1)
        &&& rest[k].0 != rest[k].1
        &&& !node(g0, rest[k].1).prev.contains(rest[k].0)
        &&& !node(g0, rest[k].0).next.contains(rest[k].1)
    } by {
        assert(rest[k] == es[k + 1]);
    }
    lemma_same_points_wf(g0, g1);
}

} // verus!
