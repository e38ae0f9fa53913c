//! The drawn links between path points: which link entities stay, which go
//! and which point pairs still need one, and the requests to recompute paths.
use vstd::prelude::*;
use crate::graph::{EntityId, EntryView, PathGraph, contains};

verus! {

broadcast use vstd::std_specs::vec::group_vec_axioms;

/// The path a point or a drawn link belongs to.
#[derive(Clone, Copy, Debug, PartialEq, Eq, Structural)]
pub enum PathType {
    Enemy,
    Item,
    Checkpoint { right: bool },
    Route,
}

/// A drawn link from one path point to the next.
#[derive(Clone, Copy, Debug, PartialEq, Eq, Structural)]
pub struct KmpPathNodeLink {
    pub prev_node: EntityId,
    pub next_node: EntityId,
    pub kind: PathType,
}

/// Point `i` of the graph records the link from `a` to `b`, at either end.
pub open spec fn pair_at(g: Seq<EntryView>, i: int, a: EntityId, b: EntityId) -> bool {
    ||| g[i].entity == b && g[i].prev.contains(a)
    ||| g[i].entity == a && g[i].next.contains(b)
}

/// Some point records the link from `a` to `b`: it should be drawn.
pub open spec fn wanted(g: Seq<EntryView>, a: EntityId, b: EntityId) -> bool {
    exists|i: int| 0 <= i < g.len() && #[trigger] pair_at(g, i, a, b)
}

/// Drawn link `j` is of kind `kind` and joins `a` to `b`.
pub open spec fn drawn(links: Seq<(EntityId, KmpPathNodeLink)>, j: int, kind: PathType, a: EntityId, b: EntityId) -> bool {
    &&& links[j].1.kind == kind
    &&& links[j].1.prev_node == a
    &&& links[j].1.next_node == b
}

/// One of the first `n` drawn links is of kind `kind` and joins `a` to `b`.
pub open spec fn drawn_before(
    links: Seq<(EntityId, KmpPathNodeLink)>,
    n: int,
    kind: PathType,
    a: EntityId,
    b: EntityId,
) -> bool {
    exists|j: int| 0 <= j < n && #[trigger] drawn(links, j, kind, a, b)
}

/// Drawn link `i` stays: it is of kind `kind`, its pair is wanted, and no
/// earlier link of that kind already stands for the pair.
pub open spec fn kept(g: Seq<EntryView>, links: Seq<(EntityId, KmpPathNodeLink)>, kind: PathType, i: int) -> bool {
    &&& links[i].1.kind == kind
    &&& wanted(g, links[i].1.prev_node, links[i].1.next_node)
    &&& !drawn_before(links, i, kind, links[i].1.prev_node, links[i].1.next_node)
}

/// The link entities among the first `n` that go, in their order.
pub open spec fn despawned(
    g: Seq<EntryView>,
    links: Seq<(EntityId, KmpPathNodeLink)>,
    kind: PathType,
    n: int,
) -> Seq<EntityId>
    decreases n,
{
    if n <= 0 {
        Seq::empty()
    } else if links[n - 1].1.kind == kind && !kept(g, links, kind, n - 1) {
        despawned(g, links, kind, n - 1).push(links[n - 1].0)
    } else {
        despawned(g, links, kind, n - 1)
    }
}

/// Whether some point records the link from `a` to `b`.
fn is_wanted(g: &PathGraph, a: EntityId, b: EntityId) -> (r: bool)
    ensures
        r == wanted(g@, a, b),
{
    let mut i: usize = 0;
    while i < g.entries.len()
        invariant
            i <= g@.len(),
            forall|k: int| 0 <= k < i ==> !#[trigger] pair_at(g@, k, a, b),
        decreases g@.len() - i,
    {
        let entry = &g.entries[i];
        let here = (entry.entity == b && contains(&entry.node.prev_nodes, a)) || (entry.entity == a
            && contains(&entry.node.next_nodes, b));
        if here {
            proof {
                assert(pair_at(g@, i as int, a, b));
            }
            return true;
        }
        i += 1;
    }
    false
}

/// Whether one of the first `n` drawn links is of kind `kind` and joins `a`
/// to `b`.
fn is_drawn_before(links: &Vec<(EntityId, KmpPathNodeLink)>, n: usize, kind: PathType, a: EntityId, b: EntityId) -> (r: bool)
    requires
        n <= links@.len(),
    ensures
        r == drawn_before(links@, n as int, kind, a, b),
{
    let mut j: usize = 0;
    while j < n
        invariant
            j <= n <= links@.len(),
            forall|k: int| 0 <= k < j ==> !#[trigger] drawn(links@, k, kind, a, b),
        decreases n - j,
    {
        let l = links[j].1;
        if l.kind == kind && l.prev_node == a && l.next_node == b {
            proof {
                assert(drawn(links@, j as int, kind, a, b));
            }
            return true;
        }
        j += 1;
    }
    false
}

/// `(a, b)` is listed in `v`.
fn contains_pair(v: &Vec<(EntityId, EntityId)>, a: EntityId, b: EntityId) -> (r: bool)
    ensures
        r == v@.contains((a, b)),
{
    let mut i: usize = 0;
    while i < v.len()
        invariant
            i <= v@.len(),
            forall|k: int| 0 <= k < i ==> v@[k] != (a, b),
        decreases v@.len() - i,
    {
        if v[i].0 == a && v[i].1 == b {
            return true;
        }
        i += 1;
    }
    false
}

/// Ask for a link from `a` to `b` unless one of kind `kind` is drawn or it is
/// asked for already.
fn ask_for(
    spawn: &mut Vec<(EntityId, EntityId)>,
    links: &Vec<(EntityId, KmpPathNodeLink)>,
    kind: PathType,
    a: EntityId,
    b: EntityId,
)
    requires
        old(spawn)@.no_duplicates(),
    ensures
        final(spawn)@.no_duplicates(),
        forall|p: (EntityId, EntityId)|
            #[trigger] final(spawn)@.contains(p) <==> (old(spawn)@.contains(p) || (p == (a, b)
                && !drawn_before(links@, links@.len() as int, kind, a, b))),
{
    if !is_drawn_before(links, links.len(), kind, a, b) && !contains_pair(spawn, a, b) {
        spawn.push((a, b));
        proof {
            assert forall|p: (EntityId, EntityId)|
                #[trigger] spawn@.contains(p) <==> (old(spawn)@.contains(p) || p == (a, b)) by {
                if spawn@.contains(p) {
                    let k = choose|k: int| 0 <= k < spawn@.len() && spawn@[k] == p;
                    if k < old(spawn)@.len() {
                        assert(old(spawn)@[k] == p);
                    }
                }
                if old(spawn)@.contains(p) {
                    let k = choose|k: int| 0 <= k < old(spawn)@.len() && old(spawn)@[k] == p;
                    assert(spawn@[k] == p);
                }
                if p == (a, b) {
                    assert(spawn@[spawn@.len() - 1] == p);
                }
            }
        }
    }
}

/// If a link of kind `kind` among the first `n` joins `a` to `b`, the first
/// such link has none before it.
proof fn lemma_first_drawn(links: Seq<(EntityId, KmpPathNodeLink)>, n: int, kind: PathType, a: EntityId, b: EntityId)
    requires
        drawn_before(links, n, kind, a, b),
    ensures
        exists|j: int| 0 <= j < n && #[trigger] drawn(links, j, kind, a, b) && !drawn_before(links, j, kind, a, b),
    decreases n,
{
    if drawn_before(links, n - 1, kind, a, b) {
        lemma_first_drawn(links, n - 1, kind, a, b);
        let j = choose|j: int| 0 <= j < n - 1 && #[trigger] drawn(links, j, kind, a, b) && !drawn_before(links, j, kind, a, b);
        assert(0 <= j < n && drawn(links, j, kind, a, b));
    } else {
        let j = choose|j: int| 0 <= j < n && #[trigger] drawn(links, j, kind, a, b);
        assert(j == n - 1);
    }
}

/// What reconciling the drawn links of one path kind asks for: the link
/// entities to remove, and the point pairs that need a new link.
#[derive(Debug)]
pub struct LinkChanges {
    pub despawn: Vec<EntityId>,
    pub spawn: Vec<(EntityId, EntityId)>,
}

/// Reconcile the drawn links of kind `kind` with the links that the points of
/// that kind record. A drawn link stays when its pair is recorded and no
/// earlier link stands for it; the others of that kind go, in their order.
/// Every recorded pair that no link of that kind joins is asked for once.
/// Links of other kinds are left alone.
pub fn reconcile_node_links(g: &PathGraph, links: &Vec<(EntityId, KmpPathNodeLink)>, kind: PathType) -> (r:
    LinkChanges)
    ensures
        r.despawn@ == despawned(g@, links@, kind, links@.len() as int),
        r.spawn@.no_duplicates(),
        forall|a: EntityId, b: EntityId|
            #[trigger] r.spawn@.contains((a, b)) <==> (wanted(g@, a, b) && !drawn_before(
                links@,
                links@.len() as int,
                kind,
                a,
                b,
            )),
        forall|a: EntityId, b: EntityId|
            wanted(g@, a, b) ==> (r.spawn@.contains((a, b)) || exists|i: int|
                0 <= i < links@.len() && #[trigger] kept(g@, links@, kind, i) && links@[i].1.prev_node == a
                    && links@[i].1.next_node == b),
        forall|i: int|
            0 <= i < links@.len() && #[trigger] kept(g@, links@, kind, i) ==> !r.spawn@.contains(
                (links@[i].1.prev_node, links@[i].1.next_node),
            ),
        forall|i: int, j: int|
            0 <= i < j < links@.len() && #[trigger] kept(g@, links@, kind, i) && #[trigger] kept(g@, links@, kind, j)
                ==> links@[i].1.prev_node != links@[j].1.prev_node || links@[i].1.next_node
                != links@[j].1.next_node,
{
    let mut despawn: Vec<EntityId> = Vec::new();
    let mut i: usize = 0;
    while i < links.len()
        invariant
            i <= links@.len(),
            despawn@ == despawned(g@, links@, kind, i as int),
        decreases links@.len() - i,
    {
        let (e, l) = links[i];
        if l.kind == kind {
            let stays = is_wanted(g, l.prev_node, l.next_node) && !is_drawn_before(
                links,
                i,
                kind,
                l.prev_node,
                l.next_node,
            );
            if !stays {
                despawn.push(e);
            }
        }
        i += 1;
    }
    let mut spawn: Vec<(EntityId, EntityId)> = Vec::new();
    let ghost total = links@.len() as int;
    let mut i: usize = 0;
    while i < g.entries.len()
        invariant
            i <= g@.len(),
            total == links@.len(),
            spawn@.no_duplicates(),
            forall|p: (EntityId, EntityId)|
                #[trigger] spawn@.contains(p) ==> wanted(g@, p.0, p.1) && !drawn_before(
                    links@,
                    total,
                    kind,
                    p.0,
                    p.1,
                ),
            forall|j: int, a: EntityId, b: EntityId|
                0 <= j < i && #[trigger] pair_at(g@, j, a, b) && !drawn_before(links@, total, kind, a, b)
                    ==> spawn@.contains((a, b)),
        decreases g@.len() - i,
    {
        let entry = &g.entries[i];
        let ghost gi = g@[i as int];
        let mut k: usize = 0;
        while k < entry.node.prev_nodes.len()
            invariant
                i < g@.len(),
                gi == g@[i as int],
                entry.entity == gi.entity,
                entry.node.prev_nodes@ == gi.prev,
                k <= gi.prev.len(),
                total == links@.len(),
                spawn@.no_duplicates(),
                forall|p: (EntityId, EntityId)|
                    #[trigger] spawn@.contains(p) ==> wanted(g@, p.0, p.1) && !drawn_before(
                        links@,
                        total,
                        kind,
                        p.0,
                        p.1,
                    ),
                forall|j: int, a: EntityId, b: EntityId|
                    0 <= j < i && #[trigger] pair_at(g@, j, a, b) && !drawn_before(links@, total, kind, a, b)
                        ==> spawn@.contains((a, b)),
                forall|m: int|
                    0 <= m < k && !drawn_before(links@, total, kind, gi.prev[m], gi.entity) ==> spawn@.contains(
                        (#[trigger] gi.prev[m], gi.entity),
                    ),
            decreases gi.prev.len() - k,
        {
            let a = entry.node.prev_nodes[k];
            proof {
                assert(pair_at(g@, i as int, a, gi.entity));
            }
            ask_for(&mut spawn, links, kind, a, entry.entity);
            k += 1;
        }
        let mut k: usize = 0;
        while k < entry.node.next_nodes.len()
            invariant
                i < g@.len(),
                gi == g@[i as int],
                entry.entity == gi.entity,
                entry.node.next_nodes@ == gi.next,
                k <= gi.next.len(),
                total == links@.len(),
                spawn@.no_duplicates(),
                forall|p: (EntityId, EntityId)|
                    #[trigger] spawn@.contains(p) ==> wanted(g@, p.0, p.1) && !drawn_before(
                        links@,
                        total,
                        kind,
                        p.0,
                        p.1,
                    ),
                forall|j: int, a: EntityId, b: EntityId|
                    0 <= j < i && #[trigger] pair_at(g@, j, a, b) && !drawn_before(links@, total, kind, a, b)
                        ==> spawn@.contains((a, b)),
                forall|m: int|
                    0 <= m < gi.prev.len() && !drawn_before(links@, total, kind, gi.prev[m], gi.entity)
                        ==> spawn@.contains((#[trigger] gi.prev[m], gi.entity)),
                forall|m: int|
                    0 <= m < k && !drawn_before(links@, total, kind, gi.entity, gi.next[m]) ==> spawn@.contains(
                        (gi.entity, #[trigger] gi.next[m]),
                    ),
            decreases gi.next.len() - k,
        {
            let b = entry.node.next_nodes[k];
            proof {
                assert(pair_at(g@, i as int, gi.entity, b));
            }
            ask_for(&mut spawn, links, kind, entry.entity, b);
            k += 1;
        }
        proof {
            assert forall|j: int, a: EntityId, b: EntityId|
                0 <= j < i + 1 && #[trigger] pair_at(g@, j, a, b) && !drawn_before(links@, total, kind, a, b)
                    implies spawn@.contains((a, b)) by {
                if j == i {
                    if gi.entity == b && gi.prev.contains(a) {
                        let m = choose|m: int| 0 <= m < gi.prev.len() && gi.prev[m] == a;
                        assert(spawn@.contains((gi.prev[m], gi.entity)));
                    } else {
                        let m = choose|m: int| 0 <= m < gi.next.len() && gi.next[m] == b;
                        assert(spawn@.contains((gi.entity, gi.next[m])));
                    }
                }
            }
        }
        i += 1;
    }
    proof {
        let n = links@.len() as int;
        assert forall|a: EntityId, b: EntityId|
            wanted(g@, a, b) implies (spawn@.contains((a, b)) || exists|i: int|
                0 <= i < n && #[trigger] kept(g@, links@, kind, i) && links@[i].1.prev_node == a
                    && links@[i].1.next_node == b) by {
            if !spawn@.contains((a, b)) {
                if !drawn_before(links@, n, kind, a, b) {
                    let j = choose|j: int| 0 <= j < g@.len() && #[trigger] pair_at(g@, j, a, b);
                    assert(spawn@.contains((a, b)));
                }
                lemma_first_drawn(links@, n, kind, a, b);
                let j = choose|j: int| 0 <= j < n && #[trigger] drawn(links@, j, kind, a, b) && !drawn_before(links@, j, kind, a, b);
                assert(kept(g@, links@, kind, j));
            }
        }
        assert forall|i: int| 0 <= i < n && #[trigger] kept(g@, links@, kind, i) implies !spawn@.contains(
            (links@[i].1.prev_node, links@[i].1.next_node),
        ) by {
            assert(drawn(links@, i, kind, links@[i].1.prev_node, links@[i].1.next_node));
        }
        assert forall|i: int, j: int|
            0 <= i < j < n && #[trigger] kept(g@, links@, kind, i) && #[trigger] kept(g@, links@, kind, j)
                implies links@[i].1.prev_node != links@[j].1.prev_node || links@[i].1.next_node
                != links@[j].1.next_node by {
            if links@[i].1.prev_node == links@[j].1.prev_node && links@[i].1.next_node == links@[j].1.next_node {
                assert(drawn(links@, i, kind, links@[j].1.prev_node, links@[j].1.next_node));
            }
        }
    }
    LinkChanges { despawn, spawn }
}

/// The links of kind `kind` match the recorded pairs one to one: each joins a
/// recorded pair, no two join the same pair, and every recorded pair has one.
pub open spec fn one_to_one(g: Seq<EntryView>, links: Seq<(EntityId, KmpPathNodeLink)>, kind: PathType) -> bool {
    &&& forall|j: int|
        0 <= j < links.len() && links[j].1.kind == kind ==> wanted(g, links[j].1.prev_node, links[j].1.next_node)
    &&& forall|i: int, j: int|
        0 <= i < j < links.len() && links[j].1.kind == kind ==> !#[trigger] drawn(
            links,
            i,
            kind,
            links[j].1.prev_node,
            links[j].1.next_node,
        )
    &&& forall|a: EntityId, b: EntityId| wanted(g, a, b) ==> drawn_before(links, links.len() as int, kind, a, b)
}

/// No link among the first `n` goes exactly when every one of them of kind
/// `kind` stays.
proof fn lemma_none_despawned(g: Seq<EntryView>, links: Seq<(EntityId, KmpPathNodeLink)>, kind: PathType, n: int)
    requires
        0 <= n <= links.len(),
    ensures
        despawned(g, links, kind, n).len() == 0 <==> forall|j: int|
            0 <= j < n && links[j].1.kind == kind ==> #[trigger] kept(g, links, kind, j),
    decreases n,
{
    if n > 0 {
        lemma_none_despawned(g, links, kind, n - 1);
    }
}

/// Reconciliation asks for nothing, neither removing a link nor adding one,
/// exactly when the links of the kind match the recorded pairs one to one.
pub proof fn lemma_settled_iff_one_to_one(g: Seq<EntryView>, links: Seq<(EntityId, KmpPathNodeLink)>, kind: PathType)
    ensures
        one_to_one(g, links, kind) <==> (despawned(g, links, kind, links.len() as int).len() == 0 && forall|
            a: EntityId,
            b: EntityId,
        | !(#[trigger] wanted(g, a, b) && !drawn_before(links, links.len() as int, kind, a, b))),
{
    let n = links.len() as int;
    lemma_none_despawned(g, links, kind, n);
    if one_to_one(g, links, kind) {
        assert forall|j: int| 0 <= j < n && links[j].1.kind == kind implies #[trigger] kept(g, links, kind, j) by {
            if drawn_before(links, j, kind, links[j].1.prev_node, links[j].1.next_node) {
                let i = choose|i: int| 0 <= i < j && #[trigger] drawn(links, i, kind, links[j].1.prev_node, links[j].1.next_node);
            }
        }
    }
    if despawned(g, links, kind, n).len() == 0 && forall|a: EntityId, b: EntityId|
        !(#[trigger] wanted(g, a, b) && !drawn_before(links, n, kind, a, b)) {
        assert forall|j: int| 0 <= j < n && links[j].1.kind == kind implies wanted(g, links[j].1.prev_node, links[j].1.next_node) by {
            assert(kept(g, links, kind, j));
        }
        assert forall|i: int, j: int|
            0 <= i < j < n && links[j].1.kind == kind implies !#[trigger] drawn(
                links,
                i,
                kind,
                links[j].1.prev_node,
                links[j].1.next_node,
            ) by {
            assert(kept(g, links, kind, j));
        }
        assert forall|a: EntityId, b: EntityId| wanted(g, a, b) implies drawn_before(links, n, kind, a, b) by {
            assert(!(wanted(g, a, b) && !drawn_before(links, n, kind, a, b)));
        }
    }
}

/// The drawn links among the first `n` that stay, in their order: those of
/// other kinds and those of kind `kind` that are kept.
pub open spec fn survivors(
    g: Seq<EntryView>,
    links: Seq<(EntityId, KmpPathNodeLink)>,
    kind: PathType,
    n: int,
) -> Seq<(EntityId, KmpPathNodeLink)>
    decreases n,
{
    if n <= 0 {
        Seq::empty()
    } else if links[n - 1].1.kind == kind && !kept(g, links, kind, n - 1) {
        survivors(g, links, kind, n - 1)
    } else {
        survivors(g, links, kind, n - 1).push(links[n - 1])
    }
}

/// The links drawn for the asked-for pairs, with the given entities.
pub open spec fn new_links(spawn: Seq<(EntityId, EntityId)>, fresh: Seq<EntityId>, kind: PathType) -> Seq<
    (EntityId, KmpPathNodeLink),
> {
    Seq::new(
        spawn.len(),
        |k: int| (fresh[k], KmpPathNodeLink { prev_node: spawn[k].0, next_node: spawn[k].1, kind }),
    )
}

/// What holds of the links that stay among the first `n`: each of kind
/// `kind` joins a recorded pair of a kept link, no two of them join the same
/// pair, and every kept link's pair is among them.
spec fn survivor_facts(
    g: Seq<EntryView>,
    links: Seq<(EntityId, KmpPathNodeLink)>,
    kind: PathType,
    n: int,
    s: Seq<(EntityId, KmpPathNodeLink)>,
) -> bool {
    &&& forall|u: int|
        0 <= u < s.len() && s[u].1.kind == kind ==> wanted(g, s[u].1.prev_node, s[u].1.next_node) && exists|i: int|
            0 <= i < n && #[trigger] kept(g, links, kind, i) && links[i].1.prev_node == s[u].1.prev_node
                && links[i].1.next_node == s[u].1.next_node
    &&& forall|u: int, v: int|
        0 <= u < v < s.len() && s[v].1.kind == kind ==> !#[trigger] drawn(s, u, kind, s[v].1.prev_node, s[v].1.next_node)
    &&& forall|i: int|
        0 <= i < n && #[trigger] kept(g, links, kind, i) ==> drawn_before(
            s,
            s.len() as int,
            kind,
            links[i].1.prev_node,
            links[i].1.next_node,
        )
}

proof fn lemma_survivor_facts(g: Seq<EntryView>, links: Seq<(EntityId, KmpPathNodeLink)>, kind: PathType, n: int)
    requires
        0 <= n <= links.len(),
    ensures
        survivor_facts(g, links, kind, n, survivors(g, links, kind, n)),
    decreases n,
{
    if n > 0 {
        lemma_survivor_facts(g, links, kind, n - 1);
        let s = survivors(g, links, kind, n - 1);
        let e = links[n - 1];
        if !(e.1.kind == kind && !kept(g, links, kind, n - 1)) {
            let t = s.push(e);
            assert(survivors(g, links, kind, n) == t);
            assert forall|u: int|
                0 <= u < t.len() && t[u].1.kind == kind implies wanted(g, t[u].1.prev_node, t[u].1.next_node) && exists|i: int|
                    0 <= i < n && #[trigger] kept(g, links, kind, i) && links[i].1.prev_node == t[u].1.prev_node
                        && links[i].1.next_node == t[u].1.next_node by {
                if u < s.len() {
                    assert(t[u] == s[u]);
                    let i = choose|i: int|
                        0 <= i < n - 1 && #[trigger] kept(g, links, kind, i) && links[i].1.prev_node == s[u].1.prev_node
                            && links[i].1.next_node == s[u].1.next_node;
                } else {
                    assert(kept(g, links, kind, n - 1));
                }
            }
            assert forall|u: int, v: int|
                0 <= u < v < t.len() && t[v].1.kind == kind implies !#[trigger] drawn(
                t,
                u,
                kind,
                t[v].1.prev_node,
                t[v].1.next_node,
            ) by {
                assert(t[u] == s[u]);
                if v < s.len() {
                    assert(t[v] == s[v]);
                    assert(!drawn(s, u, kind, s[v].1.prev_node, s[v].1.next_node));
                } else if drawn(t, u, kind, t[v].1.prev_node, t[v].1.next_node) {
                    assert(t[v] == e);
                    assert(kept(g, links, kind, n - 1));
                    let i = choose|i: int|
                        0 <= i < n - 1 && #[trigger] kept(g, links, kind, i) && links[i].1.prev_node == s[u].1.prev_node
                            && links[i].1.next_node == s[u].1.next_node;
                    assert(drawn(links, i, kind, e.1.prev_node, e.1.next_node));
                    assert(!kept(g, links, kind, n - 1));
                }
            }
            assert forall|i: int|
                0 <= i < n && #[trigger] kept(g, links, kind, i) implies drawn_before(
                t,
                t.len() as int,
                kind,
                links[i].1.prev_node,
                links[i].1.next_node,
            ) by {
                if i < n - 1 {
                    let j = choose|j: int|
                        0 <= j < s.len() && #[trigger] drawn(s, j, kind, links[i].1.prev_node, links[i].1.next_node);
                    assert(t[j] == s[j]);
                    assert(drawn(t, j, kind, links[i].1.prev_node, links[i].1.next_node));
                } else {
                    assert(drawn(t, s.len() as int, kind, links[i].1.prev_node, links[i].1.next_node));
                }
            }
        } else {
            assert(survivors(g, links, kind, n) == s);
            assert forall|u: int|
                0 <= u < s.len() && s[u].1.kind == kind implies wanted(g, s[u].1.prev_node, s[u].1.next_node) && exists|i: int|
                    0 <= i < n && #[trigger] kept(g, links, kind, i) && links[i].1.prev_node == s[u].1.prev_node
                        && links[i].1.next_node == s[u].1.next_node by {
                let i = choose|i: int|
                    0 <= i < n - 1 && #[trigger] kept(g, links, kind, i) && links[i].1.prev_node == s[u].1.prev_node
                        && links[i].1.next_node == s[u].1.next_node;
            }
        }
    }
}

/// Applying what reconciliation asks for settles the links: keeping the links
/// that stay, dropping the others of kind `kind`, and drawing one link of that
/// kind for each asked-for pair (with any entities) leaves links that match
/// the recorded pairs one to one, so reconciling them again asks for nothing.
pub proof fn lemma_applied_changes_settle(
    g: Seq<EntryView>,
    links: Seq<(EntityId, KmpPathNodeLink)>,
    kind: PathType,
    spawn: Seq<(EntityId, EntityId)>,
    fresh: Seq<EntityId>,
)
    requires
        spawn.no_duplicates(),
        forall|a: EntityId, b: EntityId|
            #[trigger] spawn.contains((a, b)) <==> (wanted(g, a, b) && !drawn_before(
                links,
                links.len() as int,
                kind,
                a,
                b,
            )),
        fresh.len() == spawn.len(),
    ensures
        one_to_one(g, survivors(g, links, kind, links.len() as int) + new_links(spawn, fresh, kind), kind),
        despawned(
            g,
            survivors(g, links, kind, links.len() as int) + new_links(spawn, fresh, kind),
            kind,
            (survivors(g, links, kind, links.len() as int) + new_links(spawn, fresh, kind)).len() as int,
        ).len() == 0,
{
    let n = links.len() as int;
    let s = survivors(g, links, kind, n);
    let nl = new_links(spawn, fresh, kind);
    let after = s + nl;
    lemma_survivor_facts(g, links, kind, n);
    assert forall|j: int|
        0 <= j < after.len() && after[j].1.kind == kind implies wanted(g, after[j].1.prev_node, after[j].1.next_node) by {
        if j >= s.len() {
            let k = j - s.len();
            assert(after[j] == nl[k]);
            assert(spawn.contains(spawn[k]));
            assert(spawn[k] == (spawn[k].0, spawn[k].1));
        } else {
            assert(after[j] == s[j]);
        }
    }
    assert forall|i: int, j: int|
        0 <= i < j < after.len() && after[j].1.kind == kind implies !#[trigger] drawn(
        after,
        i,
        kind,
        after[j].1.prev_node,
        after[j].1.next_node,
    ) by {
        if j < s.len() {
            assert(after[i] == s[i] && after[j] == s[j]);
            assert(!drawn(s, i, kind, s[j].1.prev_node, s[j].1.next_node));
        } else {
            let k = j - s.len();
            assert(after[j] == nl[k]);
            assert(spawn.contains(spawn[k]));
            assert(spawn[k] == (spawn[k].0, spawn[k].1));
            if i < s.len() {
                assert(after[i] == s[i]);
                if drawn(after, i, kind, after[j].1.prev_node, after[j].1.next_node) {
                    let i2 = choose|i2: int|
                        0 <= i2 < n && #[trigger] kept(g, links, kind, i2) && links[i2].1.prev_node == s[i].1.prev_node
                            && links[i2].1.next_node == s[i].1.next_node;
                    assert(drawn(links, i2, kind, spawn[k].0, spawn[k].1));
                }
            } else {
                let k1 = i - s.len();
                assert(after[i] == nl[k1]);
                if drawn(after, i, kind, after[j].1.prev_node, after[j].1.next_node) {
                    assert(spawn[k1] == spawn[k]);
                }
            }
        }
    }
    assert forall|a: EntityId, b: EntityId| wanted(g, a, b) implies drawn_before(after, after.len() as int, kind, a, b) by {
        if spawn.contains((a, b)) {
            let k = choose|k: int| 0 <= k < spawn.len() && spawn[k] == (a, b);
            assert(after[s.len() + k] == nl[k]);
            assert(drawn(after, s.len() + k, kind, a, b));
        } else {
            lemma_first_drawn(links, n, kind, a, b);
            let j = choose|j: int| 0 <= j < n && #[trigger] drawn(links, j, kind, a, b) && !drawn_before(links, j, kind, a, b);
            assert(kept(g, links, kind, j));
            let u = choose|u: int| 0 <= u < s.len() && #[trigger] drawn(s, u, kind, a, b);
            assert(after[u] == s[u]);
            assert(drawn(after, u, kind, a, b));
        }
    }
    assert(one_to_one(g, after, kind));
    lemma_settled_iff_one_to_one(g, after, kind);
}

/// Which kinds of path to traverse again.
#[derive(Clone, Copy, Debug, PartialEq, Eq, Structural)]
pub struct RecalcPaths {
    pub do_enemy: bool,
    pub do_item: bool,
    pub do_cp: bool,
    pub do_route: bool,
}

impl RecalcPaths {
    /// Recompute the paths of the kind of `path_type` only; both checkpoint
    /// sides recompute the checkpoint paths.
    pub fn for_path_type(path_type: PathType) -> (r: RecalcPaths)
        ensures
            r.do_enemy == (path_type is Enemy),
            r.do_item == (path_type is Item),
            r.do_cp == (path_type is Checkpoint),
            r.do_route == (path_type is Route),
    {
        match path_type {
            PathType::Enemy => Self::enemy(),
            PathType::Item => Self::item(),
            PathType::Checkpoint { .. } => Self::cp(),
            PathType::Route => Self::route(),
        }
    }

    /// Recompute the enemy paths only.
    pub fn enemy() -> (r: RecalcPaths)
        ensures
            r == (RecalcPaths { do_enemy: true, do_item: false, do_cp: false, do_route: false }),
    {
        RecalcPaths { do_enemy: true, do_item: false, do_cp: false, do_route: false }
    }

    /// Recompute the item paths only.
    pub fn item() -> (r: RecalcPaths)
        ensures
            r == (RecalcPaths { do_enemy: false, do_item: true, do_cp: false, do_route: false }),
    {
        RecalcPaths { do_enemy: false, do_item: true, do_cp: false, do_route: false }
    }

    /// Recompute the checkpoint paths only.
    pub fn cp() -> (r: RecalcPaths)
        ensures
            r == (RecalcPaths { do_enemy: false, do_item: false, do_cp: true, do_route: false }),
    {
        RecalcPaths { do_enemy: false, do_item: false, do_cp: true, do_route: false }
    }

    /// Recompute the routes only.
    pub fn route() -> (r: RecalcPaths)
        ensures
            r == (RecalcPaths { do_enemy: false, do_item: false, do_cp: false, do_route: true }),
    {
        RecalcPaths { do_enemy: false, do_item: false, do_cp: false, do_route: true }
    }

    /// Recompute every kind of path.
    pub fn all() -> (r: RecalcPaths)
        ensures
            r == (RecalcPaths { do_enemy: true, do_item: true, do_cp: true, do_route: true }),
    {
        RecalcPaths { do_enemy: true, do_item: true, do_cp: true, do_route: true }
    }
}

} // verus!
