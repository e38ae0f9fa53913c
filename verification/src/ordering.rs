//! Editor display order: points carry order ids that are renumbered densely,
//! and sorted lists are described by the rank of each point.
use vstd::prelude::*;
use crate::graph::EntityId;

verus! {

broadcast use vstd::std_specs::vec::group_vec_axioms;

/// A point of one editor section and its display order id, if it has one.
#[derive(Debug, Clone, Copy, PartialEq, Eq, Structural)]
pub struct OrderedPoint {
    pub entity: EntityId,
    pub order: Option<u32>,
}

/// `lt` is a strict order on the positions `0..n`.
pub open spec fn strict_order(lt: spec_fn(int, int) -> bool, n: int) -> bool {
    &&& forall|a: int| 0 <= a < n ==> !#[trigger] lt(a, a)
    &&& forall|a: int, b: int, c: int|
        0 <= a < n && 0 <= b < n && 0 <= c < n && #[trigger] lt(a, b) && #[trigger] lt(b, c) ==> lt(a, c)
}

/// How many of the positions `0..upto` come before position `i`.
pub open spec fn count_below(lt: spec_fn(int, int) -> bool, i: int, upto: int) -> nat
    decreases upto,
{
    if upto <= 0 {
        0
    } else {
        count_below(lt, i, upto - 1) + if lt(upto - 1, i) {
            1nat
        } else {
            0nat
        }
    }
}

/// How many of the positions `0..upto` satisfy `dom`.
pub open spec fn count_in(dom: spec_fn(int) -> bool, upto: int) -> nat
    decreases upto,
{
    if upto <= 0 {
        0
    } else {
        count_in(dom, upto - 1) + if dom(upto - 1) {
            1nat
        } else {
            0nat
        }
    }
}

/// A position below another has fewer positions below it.
pub proof fn lemma_count_below_increases(lt: spec_fn(int, int) -> bool, n: int, i: int, j: int, u: int)
    requires
        strict_order(lt, n),
        0 <= i < n,
        0 <= j < n,
        lt(i, j),
        0 <= u <= n,
    ensures
        count_below(lt, i, u) + (if i < u {
            1int
        } else {
            0int
        }) <= count_below(lt, j, u),
    decreases u,
{
    if u > 0 {
        lemma_count_below_increases(lt, n, i, j, u - 1);
        let k = u - 1;
        if lt(k, i) {
            assert(lt(k, j));
        }
    }
}

/// Only positions in `dom` come before anything, and nothing comes before
/// itself: a position in `dom` has fewer positions below it than `dom` has.
pub proof fn lemma_count_below_bounded(
    lt: spec_fn(int, int) -> bool,
    dom: spec_fn(int) -> bool,
    n: int,
    i: int,
    u: int,
)
    requires
        strict_order(lt, n),
        forall|a: int, b: int| 0 <= a < n && 0 <= b < n && #[trigger] lt(a, b) ==> dom(a),
        0 <= i < n,
        dom(i),
        0 <= u <= n,
    ensures
        count_below(lt, i, u) + (if i < u {
            1int
        } else {
            0int
        }) <= count_in(dom, u),
    decreases u,
{
    if u > 0 {
        lemma_count_below_bounded(lt, dom, n, i, u - 1);
    }
}

/// Nothing comes before itself, so fewer than `u` positions of `0..u` come
/// before a position inside it.
pub proof fn lemma_count_below_fewer(lt: spec_fn(int, int) -> bool, i: int, u: int)
    requires
        !lt(i, i),
        0 <= u,
    ensures
        count_below(lt, i, u) + (if 0 <= i < u {
            1int
        } else {
            0int
        }) <= u,
    decreases u,
{
    if u > 0 {
        lemma_count_below_fewer(lt, i, u - 1);
    }
}

/// A strict order that relates any two distinct positions of `0..n` gives
/// each position its own rank below `n`.
pub proof fn lemma_total_order_ranks(lt: spec_fn(int, int) -> bool, n: int)
    requires
        strict_order(lt, n),
        forall|a: int, b: int| 0 <= a < n && 0 <= b < n && a != b ==> #[trigger] lt(a, b) || lt(b, a),
    ensures
        forall|i: int| 0 <= i < n ==> #[trigger] count_below(lt, i, n) < n,
        forall|i: int, j: int|
            0 <= i < n && 0 <= j < n && i != j ==> #[trigger] count_below(lt, i, n) != #[trigger] count_below(
                lt,
                j,
                n,
            ),
{
    assert forall|i: int| 0 <= i < n implies #[trigger] count_below(lt, i, n) < n by {
        lemma_count_below_fewer(lt, i, n);
    }
    assert forall|i: int, j: int| 0 <= i < n && 0 <= j < n && i != j implies #[trigger] count_below(
        lt,
        i,
        n,
    ) != #[trigger] count_below(lt, j, n) by {
        if lt(i, j) {
            lemma_count_below_increases(lt, n, i, j, n);
        } else {
            assert(lt(j, i));
            lemma_count_below_increases(lt, n, j, i, n);
        }
    }
}

/// Every place `0..n` is the rank of some position when ranks are distinct
/// and below `n`.
pub proof fn lemma_ranks_onto(lt: spec_fn(int, int) -> bool, n: int, p: int)
    requires
        0 <= p < n,
        forall|i: int| 0 <= i < n ==> #[trigger] count_below(lt, i, n) < n,
        forall|i: int, j: int|
            0 <= i < n && 0 <= j < n && i != j ==> #[trigger] count_below(lt, i, n) != #[trigger] count_below(
                lt,
                j,
                n,
            ),
    ensures
        exists|i: int| 0 <= i < n && #[trigger] count_below(lt, i, n) == p,
{
    let dom = vstd::set_lib::set_int_range(0, n);
    let f = |i: int| count_below(lt, i, n) as int;
    vstd::set_lib::lemma_int_range(0, n);
    let img = dom.map(f);
    assert(vstd::relations::injective_on(f, dom));
    vstd::set_lib::lemma_map_size(dom, img, f);
    assert(img.subset_of(dom)) by {
        assert forall|x: int| img.contains(x) implies dom.contains(x) by {
            let i = choose|i: int| dom.contains(i) && f(i) == x;
        }
    }
    vstd::set_lib::lemma_subset_equality(img, dom);
    assert(img.contains(p));
    let i = choose|i: int| dom.contains(i) && f(i) == p;
    assert(count_below(lt, i, n) == p);
}

/// Two sequences that place every item at its rank are equal.
pub proof fn lemma_placement_unique<A>(lt: spec_fn(int, int) -> bool, items: Seq<A>, r1: Seq<A>, r2: Seq<A>)
    requires
        forall|i: int| 0 <= i < items.len() ==> #[trigger] count_below(lt, i, items.len() as int) < items.len(),
        forall|i: int, j: int|
            0 <= i < items.len() && 0 <= j < items.len() && i != j ==> #[trigger] count_below(
                lt,
                i,
                items.len() as int,
            ) != #[trigger] count_below(lt, j, items.len() as int),
        r1.len() == items.len(),
        r2.len() == items.len(),
        forall|i: int| 0 <= i < items.len() ==> r1[count_below(lt, i, items.len() as int) as int] == items[i],
        forall|i: int| 0 <= i < items.len() ==> r2[count_below(lt, i, items.len() as int) as int] == items[i],
    ensures
        r1 == r2,
{
    let n = items.len() as int;
    assert forall|p: int| 0 <= p < n implies r1[p] == r2[p] by {
        lemma_ranks_onto(lt, n, p);
        let i = choose|i: int| 0 <= i < n && #[trigger] count_below(lt, i, n) == p;
        assert(r1[count_below(lt, i, n) as int] == items[i]);
        assert(r2[count_below(lt, i, n) as int] == items[i]);
    }
    assert(r1 =~= r2);
}

/// Renumbering order: point `j` precedes point `i` when both have ids and `j`
/// has the lower id, or the same id and an earlier place in the list.
pub open spec fn renumbered_before(s: Seq<OrderedPoint>, j: int, i: int) -> bool {
    &&& s[j].order is Some
    &&& s[i].order is Some
    &&& (s[j].order->Some_0 < s[i].order->Some_0 || (s[j].order->Some_0 == s[i].order->Some_0 && j < i))
}

/// The renumbering order as a relation on positions.
pub open spec fn renumber_lt(s: Seq<OrderedPoint>) -> spec_fn(int, int) -> bool {
    |j: int, i: int| renumbered_before(s, j, i)
}

/// Positions of points that have an order id.
pub open spec fn has_order(s: Seq<OrderedPoint>) -> spec_fn(int) -> bool {
    |k: int| s[k].order is Some
}

/// The new id of point `i`: how many points precede it.
pub open spec fn new_id(s: Seq<OrderedPoint>, i: int) -> nat {
    count_below(renumber_lt(s), i, s.len() as int)
}

/// How many points have an order id.
pub open spec fn numbered(s: Seq<OrderedPoint>) -> nat {
    count_in(has_order(s), s.len() as int)
}

/// The points after renumbering: every id is replaced by the point's place
/// among the numbered points; points without an id keep none.
pub open spec fn refreshed(s: Seq<OrderedPoint>) -> Seq<OrderedPoint> {
    Seq::new(
        s.len(),
        |i: int|
            if s[i].order is Some {
                OrderedPoint { entity: s[i].entity, order: Some(new_id(s, i) as u32) }
            } else {
                s[i]
            },
    )
}

proof fn lemma_renumber_order(s: Seq<OrderedPoint>)
    ensures
        strict_order(renumber_lt(s), s.len() as int),
        forall|a: int, b: int|
            0 <= a < s.len() && 0 <= b < s.len() && #[trigger] renumber_lt(s)(a, b) ==> has_order(s)(a),
{
}

/// Renumbering is dense and keeps the order: numbered points get distinct
/// ids below the number of numbered points, and a point that sorted before
/// another still does.
pub proof fn lemma_refresh_dense(s: Seq<OrderedPoint>, i: int, j: int)
    requires
        0 <= i < s.len(),
        0 <= j < s.len(),
        s[i].order is Some,
        s[j].order is Some,
    ensures
        new_id(s, i) < numbered(s),
        renumbered_before(s, i, j) ==> new_id(s, i) < new_id(s, j),
        i != j ==> new_id(s, i) != new_id(s, j),
{
    let n = s.len() as int;
    lemma_renumber_order(s);
    assert(has_order(s)(i));
    lemma_count_below_bounded(renumber_lt(s), has_order(s), n, i, n);
    if renumbered_before(s, i, j) {
        assert(renumber_lt(s)(i, j));
        lemma_count_below_increases(renumber_lt(s), n, i, j, n);
    }
    if i != j {
        if renumbered_before(s, i, j) {
            assert(renumber_lt(s)(i, j));
            lemma_count_below_increases(renumber_lt(s), n, i, j, n);
        } else {
            assert(renumber_lt(s)(j, i));
            lemma_count_below_increases(renumber_lt(s), n, j, i, n);
        }
    }
}

/// Count the positions `0..n` below `i` in the renumbering order.
fn renumber_rank(points: &Vec<OrderedPoint>, i: usize) -> (r: u32)
    requires
        i < points@.len(),
        points@.len() <= u32::MAX,
    ensures
        r == new_id(points@, i as int),
{
    let ghost s = points@;
    let mut count: u32 = 0;
    let mut j: usize = 0;
    while j < points.len()
        invariant
            s == points@,
            i < s.len(),
            s.len() <= u32::MAX,
            j <= s.len(),
            count == count_below(renumber_lt(s), i as int, j as int),
            count <= j,
        decreases s.len() - j,
    {
        let before = match (points[j].order, points[i].order) {
            (Some(a), Some(b)) => a < b || (a == b && j < i),
            _ => false,
        };
        assert(before == renumber_lt(s)(j as int, i as int));
        if before {
            count = count + 1;
        }
        j += 1;
    }
    count
}

/// Renumber the order ids densely from zero, in id order with ties kept in
/// list order, and return the next free id (the number of numbered points).
/// Points without an id are left alone.
pub fn refresh_order(points: &mut Vec<OrderedPoint>) -> (next: u32)
    requires
        old(points)@.len() <= u32::MAX,
    ensures
        final(points)@ == refreshed(old(points)@),
        next == numbered(old(points)@),
{
    let ghost s = points@;
    let n = points.len();
    let mut ranks: Vec<u32> = Vec::new();
    let mut i: usize = 0;
    while i < n
        invariant
            s == points@,
            n == s.len(),
            n <= u32::MAX,
            i <= n,
            ranks@.len() == i,
            forall|k: int| 0 <= k < i ==> ranks@[k] == new_id(s, k),
        decreases n - i,
    {
        let r = renumber_rank(points, i);
        ranks.push(r);
        i += 1;
    }
    let mut next: u32 = 0;
    let mut i: usize = 0;
    while i < n
        invariant
            n == s.len(),
            n <= u32::MAX,
            points@.len() == n,
            i <= n,
            ranks@.len() == n,
            forall|k: int| 0 <= k < n ==> ranks@[k] == new_id(s, k),
            forall|k: int| 0 <= k < i ==> points@[k] == refreshed(s)[k],
            forall|k: int| i <= k < n ==> points@[k] == s[k],
            next == count_in(has_order(s), i as int),
            next <= i,
        decreases n - i,
    {
        let p = points[i];
        if p.order.is_some() {
            points.set(i, OrderedPoint { entity: p.entity, order: Some(ranks[i]) });
            next = next + 1;
        }
        i += 1;
    }
    proof {
        assert(points@ =~= refreshed(s));
    }
    next
}

/// The order id that the next point created in a section gets.
#[derive(Debug)]
pub struct NextOrderID {
    pub id: u32,
}

impl Default for NextOrderID {
    /// Numbering starts at zero.
    fn default() -> (r: NextOrderID)
        ensures
            r.id == 0,
    {
        NextOrderID { id: 0 }
    }
}

impl NextOrderID {
    /// Continue numbering from `id`.
    pub fn set(&mut self, id: u32)
        ensures
            final(self).id == id,
    {
        self.id = id;
    }

    /// Hand out the next id and advance the counter, wrapping past the
    /// largest id.
    pub fn get(&mut self) -> (r: u32)
        ensures
            r == old(self).id,
            final(self).id == (if old(self).id == u32::MAX {
                0
            } else {
                old(self).id + 1
            }),
    {
        let r = self.id;
        self.id = self.id.wrapping_add(1);
        r
    }
}

} // verus!
