//! The loaded document: the editor order of its sections, the source order of
//! grouped points, the structure that field-only saving must keep, and the
//! bookkeeping of the bytes saved to each destination.
use vstd::prelude::*;
use crate::error::KmpError;
use crate::graph::{EntityId, KmpPathNode};
use crate::field_save::{FieldSaveInput, bytes_result, field_save_outcome};
use crate::patch::DocumentMerge;
use crate::ordering::{
    count_below, lemma_placement_unique, lemma_ranks_onto, lemma_total_order_ranks, numbered, refresh_order, refreshed, strict_order,
    OrderedPoint,
};

verus! {

broadcast use vstd::std_specs::vec::group_vec_axioms;

/// Document order of points `j` and `i`: points without an order id come
/// first, then ascending ids; the entity and then the place in the list
/// break ties.
pub open spec fn doc_before(s: Seq<OrderedPoint>, j: int, i: int) -> bool {
    let tie = s[j].entity < s[i].entity || (s[j].entity == s[i].entity && j < i);
    match s[j].order {
        None => match s[i].order {
            None => tie,
            Some(_) => true,
        },
        Some(a) => match s[i].order {
            None => false,
            Some(b) => a < b || (a == b && tie),
        },
    }
}

/// Document order as a relation on positions.
pub open spec fn doc_lt(s: Seq<OrderedPoint>) -> spec_fn(int, int) -> bool {
    |j: int, i: int| doc_before(s, j, i)
}

/// The place of point `i` once the points are sorted in document order.
pub open spec fn doc_position(s: Seq<OrderedPoint>, i: int) -> nat {
    count_below(doc_lt(s), i, s.len() as int)
}

proof fn lemma_doc_order(s: Seq<OrderedPoint>)
    ensures
        strict_order(doc_lt(s), s.len() as int),
        forall|a: int, b: int|
            0 <= a < s.len() && 0 <= b < s.len() && a != b ==> #[trigger] doc_lt(s)(a, b) || doc_lt(s)(b, a),
        forall|i: int| 0 <= i < s.len() ==> #[trigger] doc_position(s, i) < s.len(),
        forall|i: int, j: int|
            0 <= i < s.len() && 0 <= j < s.len() && i != j ==> #[trigger] doc_position(s, i) != #[trigger] doc_position(
                s,
                j,
            ),
{
    let n = s.len() as int;
    assert forall|a: int, b: int, c: int|
        0 <= a < n && 0 <= b < n && 0 <= c < n && #[trigger] doc_lt(s)(a, b) && #[trigger] doc_lt(s)(b, c) implies doc_lt(
        s,
    )(a, c) by {
        assert(doc_before(s, a, b) && doc_before(s, b, c));
    }
    lemma_total_order_ranks(doc_lt(s), n);
}

/// Whether point `j` comes before point `i` in document order.
fn doc_precedes(points: &Vec<OrderedPoint>, j: usize, i: usize) -> (r: bool)
    requires
        j < points@.len(),
        i < points@.len(),
    ensures
        r == doc_before(points@, j as int, i as int),
{
    let a = points[j];
    let b = points[i];
    let tie = a.entity < b.entity || (a.entity == b.entity && j < i);
    match a.order {
        None => match b.order {
            None => tie,
            Some(_) => true,
        },
        Some(x) => match b.order {
            None => false,
            Some(y) => x < y || (x == y && tie),
        },
    }
}

/// The place of point `i` in document order.
fn doc_rank(points: &Vec<OrderedPoint>, i: usize) -> (r: usize)
    requires
        i < points@.len(),
    ensures
        r == doc_position(points@, i as int),
{
    let ghost s = points@;
    let mut count: usize = 0;
    let mut j: usize = 0;
    while j < points.len()
        invariant
            s == points@,
            i < s.len(),
            j <= s.len(),
            count == count_below(doc_lt(s), i as int, j as int),
            count <= j,
        decreases s.len() - j,
    {
        if doc_precedes(points, j, i) {
            count = count + 1;
        }
        j += 1;
    }
    count
}

/// The entities of a section in document order: the point at place `p`
/// of the sorted list is the one with `doc_position` `p`.
pub fn ordered(points: &Vec<OrderedPoint>) -> (r: Vec<EntityId>)
    ensures
        r@.len() == points@.len(),
        forall|i: int| 0 <= i < points@.len() ==> r@[doc_position(points@, i) as int] == points@[i].entity,
{
    let ghost s = points@;
    let n = points.len();
    let mut r: Vec<EntityId> = Vec::new();
    while r.len() < n
        invariant
            r@.len() <= n,
        decreases n - r@.len(),
    {
        r.push(0);
    }
    proof {
        lemma_doc_order(s);
    }
    let mut i: usize = 0;
    while i < n
        invariant
            s == points@,
            n == s.len(),
            r@.len() == n,
            i <= n,
            forall|k: int| 0 <= k < s.len() ==> #[trigger] doc_position(s, k) < s.len(),
            forall|a: int, b: int|
                0 <= a < s.len() && 0 <= b < s.len() && a != b ==> #[trigger] doc_position(s, a)
                    != #[trigger] doc_position(s, b),
            forall|k: int| 0 <= k < i ==> r@[doc_position(s, k) as int] == s[k].entity,
        decreases n - i,
    {
        let p = doc_rank(points, i);
        r.set(p, points[i].entity);
        proof {
            assert forall|k: int| 0 <= k < i + 1 implies r@[doc_position(s, k) as int] == s[k].entity by {
                if k < i {
                    assert(doc_position(s, k) != doc_position(s, i as int));
                }
            }
        }
        i += 1;
    }
    r
}

/// Ascending order of values, the place in the list breaking ties.
pub open spec fn value_lt(v: Seq<EntityId>) -> spec_fn(int, int) -> bool {
    |j: int, i: int| v[j] < v[i] || (v[j] == v[i] && j < i)
}

/// The place of value `i` once the values are sorted.
pub open spec fn value_position(v: Seq<EntityId>, i: int) -> nat {
    count_below(value_lt(v), i, v.len() as int)
}

proof fn lemma_value_order(v: Seq<EntityId>)
    ensures
        forall|i: int| 0 <= i < v.len() ==> #[trigger] value_position(v, i) < v.len(),
        forall|i: int, j: int|
            0 <= i < v.len() && 0 <= j < v.len() && i != j ==> #[trigger] value_position(v, i)
                != #[trigger] value_position(v, j),
{
    let n = v.len() as int;
    assert forall|a: int, b: int, c: int|
        0 <= a < n && 0 <= b < n && 0 <= c < n && #[trigger] value_lt(v)(a, b) && #[trigger] value_lt(v)(b, c) implies value_lt(
        v,
    )(a, c) by {}
    assert forall|a: int, b: int| 0 <= a < n && 0 <= b < n && a != b implies #[trigger] value_lt(v)(a, b)
        || value_lt(v)(b, a) by {}
    lemma_total_order_ranks(value_lt(v), n);
}

/// The values in ascending order: value `i` lands at `value_position` `i`.
#[verifier::loop_isolation(false)]
pub fn sorted_ids(v: &Vec<EntityId>) -> (r: Vec<EntityId>)
    ensures
        r@.len() == v@.len(),
        forall|i: int| 0 <= i < v@.len() ==> r@[value_position(v@, i) as int] == v@[i],
{
    let ghost s = v@;
    let n = v.len();
    let mut r: Vec<EntityId> = Vec::new();
    while r.len() < n
        invariant
            r@.len() <= n,
        decreases n - r@.len(),
    {
        r.push(0);
    }
    proof {
        lemma_value_order(s);
    }
    let mut i: usize = 0;
    while i < n
        invariant
            s == v@,
            n == s.len(),
            r@.len() == n,
            i <= n,
            forall|k: int| 0 <= k < s.len() ==> #[trigger] value_position(s, k) < s.len(),
            forall|a: int, b: int|
                0 <= a < s.len() && 0 <= b < s.len() && a != b ==> #[trigger] value_position(s, a)
                    != #[trigger] value_position(s, b),
            forall|k: int| 0 <= k < i ==> r@[value_position(s, k) as int] == s[k],
        decreases n - i,
    {
        let mut count: usize = 0;
        let mut j: usize = 0;
        while j < n
            invariant
                s == v@,
                n == s.len(),
                i < n,
                j <= n,
                count == count_below(value_lt(s), i as int, j as int),
                count <= j,
            decreases n - j,
        {
            if v[j] < v[i] || (v[j] == v[i] && j < i) {
                count = count + 1;
            }
            j += 1;
        }
        assert(count == value_position(s, i as int));
        r.set(count, v[i]);
        proof {
            assert forall|k: int| 0 <= k < i + 1 implies r@[value_position(s, k) as int] == s[k] by {
                if k < i {
                    assert(value_position(s, k) != value_position(s, i as int));
                }
            }
        }
        i += 1;
    }
    r
}

/// The header of one path group (ENPH, ITPH or CKPH record): where its points
/// start, how many there are, and the groups linked before and after it.
#[derive(Debug)]
pub struct PathGroup {
    pub start: u8,
    pub group_length: u8,
    pub prev_group: Vec<u8>,
    pub next_group: Vec<u8>,
    /// The trailing 16-bit field, carried as it is.
    pub unknown: u16,
}

/// The source indices covered by one group, or none when its range does not
/// fit in a section of `count` points.
pub open spec fn group_indices(g: PathGroup, count: int) -> Seq<usize> {
    if g.start + g.group_length <= count {
        Seq::new(g.group_length as nat, |k: int| (g.start + k) as usize)
    } else {
        Seq::empty()
    }
}

/// The indices covered by the first `upto` groups, group by group.
pub open spec fn indices_upto(groups: Seq<PathGroup>, count: int, upto: int) -> Seq<usize>
    decreases upto,
{
    if upto <= 0 {
        Seq::empty()
    } else {
        indices_upto(groups, count, upto - 1) + group_indices(groups[upto - 1], count)
    }
}

/// Source indices of grouped points in the order the importer spawns them:
/// group by group, each group's range in turn; a range that does not fit in
/// `count` points contributes nothing, and overlapping groups repeat indices.
pub fn source_indices(groups: &Vec<PathGroup>, count: usize) -> (r: Vec<usize>)
    ensures
        r@ == indices_upto(groups@, count as int, groups@.len() as int),
{
    let mut r: Vec<usize> = Vec::new();
    let mut i: usize = 0;
    while i < groups.len()
        invariant
            i <= groups@.len(),
            r@ == indices_upto(groups@, count as int, i as int),
        decreases groups@.len() - i,
    {
        let start = groups[i].start as usize;
        let end = start + groups[i].group_length as usize;
        let ghost before = r@;
        if end <= count {
            let mut k = start;
            while k < end
                invariant
                    start <= k <= end,
                    start == groups@[i as int].start,
                    end == groups@[i as int].start + groups@[i as int].group_length,
                    r@ == before + Seq::new((k - start) as nat, |m: int| (start + m) as usize),
                decreases end - k,
            {
                r.push(k);
                proof {
                    assert(r@ =~= before + Seq::new((k + 1 - start) as nat, |m: int| (start + m) as usize));
                }
                k += 1;
            }
        }
        proof {
            assert(r@ =~= indices_upto(groups@, count as int, i + 1));
        }
        i += 1;
    }
    r
}

/// The rows of a grouped section that one group header imports, and the
/// groups that follow it.
#[derive(Debug)]
pub struct KmpDataGroup {
    pub nodes: Vec<usize>,
    pub next_groups: Vec<u8>,
}

/// The listed follow-up groups, without the unused (0xff) slots.
pub open spec fn used_links(links: Seq<u8>) -> Seq<u8> {
    links.filter(|x: u8| x != 0xff)
}

/// What each group header of a grouped section imports: its rows (none when
/// its range does not fit in the section's `count` rows; the group keeps its
/// slot so later group numbers stay valid) and its used follow-up groups.
pub fn get_kmp_data_and_component_groups(groups: &Vec<PathGroup>, count: usize) -> (r: Vec<KmpDataGroup>)
    ensures
        r@.len() == groups@.len(),
        forall|i: int|
            0 <= i < groups@.len() ==> (#[trigger] r@[i]).nodes@ == group_indices(groups@[i], count as int)
                && r@[i].next_groups@ == used_links(groups@[i].next_group@),
{
    let mut r: Vec<KmpDataGroup> = Vec::new();
    let mut i: usize = 0;
    while i < groups.len()
        invariant
            i <= groups@.len(),
            r@.len() == i,
            forall|k: int|
                0 <= k < i ==> (#[trigger] r@[k]).nodes@ == group_indices(groups@[k], count as int)
                    && r@[k].next_groups@ == used_links(groups@[k].next_group@),
        decreases groups@.len() - i,
    {
        let g = &groups[i];
        let mut next_groups: Vec<u8> = Vec::new();
        let mut k: usize = 0;
        while k < g.next_group.len()
            invariant
                k <= g.next_group@.len(),
                next_groups@ == used_links(g.next_group@.subrange(0, k as int)),
            decreases g.next_group@.len() - k,
        {
            let x = g.next_group[k];
            proof {
                let s = g.next_group@.subrange(0, k as int + 1);
                assert(s == g.next_group@.subrange(0, k as int).push(x));
                reveal(Seq::filter);
                assert(used_links(s) == if x != 0xff {
                    used_links(g.next_group@.subrange(0, k as int)).push(x)
                } else {
                    used_links(g.next_group@.subrange(0, k as int))
                }) by {
                    assert(s.drop_last() == g.next_group@.subrange(0, k as int));
                }
            }
            if x != 0xff {
                next_groups.push(x);
            }
            k += 1;
        }
        proof {
            assert(g.next_group@.subrange(0, g.next_group@.len() as int) == g.next_group@);
        }
        let start = g.start as usize;
        let end = start + g.group_length as usize;
        let mut nodes: Vec<usize> = Vec::new();
        if end <= count {
            let mut k = start;
            while k < end
                invariant
                    start <= k <= end,
                    start == g.start,
                    end == g.start + g.group_length,
                    nodes@ == Seq::new((k - start) as nat, |m: int| (start + m) as usize),
                decreases end - k,
            {
                nodes.push(k);
                proof {
                    assert(nodes@ =~= Seq::new((k + 1 - start) as nat, |m: int| (start + m) as usize));
                }
                k += 1;
            }
        }
        proof {
            assert(nodes@ =~= group_indices(groups@[i as int], count as int));
        }
        r.push(KmpDataGroup { nodes, next_groups });
        i += 1;
    }
    r
}

/// The two halves of a checkpoint: the left point, its right point, and the
/// right point's order id.
#[derive(Debug, Clone, Copy, PartialEq, Eq, Structural)]
pub struct CheckpointPair {
    pub left: EntityId,
    pub right: EntityId,
    pub right_order: Option<u32>,
}

/// Positions of the ordered sections in `EditorOrder::sections`.
pub const START_POINTS: usize = 0;
pub const ENEMY_POINTS: usize = 1;
pub const ITEM_POINTS: usize = 2;
pub const CHECKPOINTS: usize = 3;
/// How many sections the editor orders: start points, enemy, item and
/// checkpoint paths, routes, objects, areas, cameras, respawns, cannons and
/// battle finish points.
pub const ORDERED_SECTIONS: usize = 11;

/// The order ids of the editor: one list of points per ordered section, the
/// checkpoint pairs, and the next free id of each section.
#[derive(Debug)]
pub struct EditorOrder {
    pub sections: Vec<Vec<OrderedPoint>>,
    pub pairs: Vec<CheckpointPair>,
    pub next_ids: Vec<u32>,
}

/// The group headers of the source's grouped sections and their point counts.
#[derive(Debug)]
pub struct SourceGroups {
    pub enph: Vec<PathGroup>,
    pub enpt_count: usize,
    pub itph: Vec<PathGroup>,
    pub itpt_count: usize,
    pub ckph: Vec<PathGroup>,
    pub ckpt_count: usize,
}

/// The points of a section of the editor.
pub open spec fn section_views(sections: Seq<Vec<OrderedPoint>>) -> Seq<Seq<OrderedPoint>> {
    Seq::new(sections.len(), |k: int| sections[k]@)
}

/// The source indices of a group table, in spawn order.
pub open spec fn spawn_indices(groups: Seq<PathGroup>, count: usize) -> Seq<usize> {
    indices_upto(groups, count as int, groups.len() as int)
}

/// The points after the `k`-th in document order gets source index `idx[k]`
/// as its order id; points past the end of `idx` keep theirs.
pub open spec fn source_ordered(s: Seq<OrderedPoint>, idx: Seq<usize>) -> Seq<OrderedPoint> {
    Seq::new(
        s.len(),
        |i: int|
            if doc_position(s, i) < idx.len() {
                OrderedPoint { entity: s[i].entity, order: Some(idx[doc_position(s, i) as int] as u32) }
            } else {
                s[i]
            },
    )
}

/// The first point of `s`, from `i` on, whose entity is `e`.
pub open spec fn find_point_from(s: Seq<OrderedPoint>, e: EntityId, i: int) -> Option<int>
    decreases s.len() - i,
{
    if i < 0 || i >= s.len() {
        None
    } else if s[i].entity == e {
        Some(i)
    } else {
        find_point_from(s, e, i + 1)
    }
}

/// The pairs after right halves take the order id given to their left half.
pub open spec fn paired(pairs: Seq<CheckpointPair>, s: Seq<OrderedPoint>, idx: Seq<usize>) -> Seq<CheckpointPair> {
    Seq::new(
        pairs.len(),
        |p: int|
            match find_point_from(s, pairs[p].left, 0) {
                Some(i) => if doc_position(s, i) < idx.len() {
                    CheckpointPair {
                        left: pairs[p].left,
                        right: pairs[p].right,
                        right_order: Some(idx[doc_position(s, i) as int] as u32),
                    }
                } else {
                    pairs[p]
                },
                None => pairs[p],
            },
    )
}

/// The sections and pairs once grouped section `k` has taken its source order.
pub open spec fn source_step(
    secs: Seq<Seq<OrderedPoint>>,
    pairs: Seq<CheckpointPair>,
    k: int,
    idx: Seq<usize>,
) -> (Seq<Seq<OrderedPoint>>, Seq<CheckpointPair>) {
    (secs.update(k, source_ordered(secs[k], idx)), paired(pairs, secs[k], idx))
}

/// The sections and pairs once enemy, item and checkpoint points have taken
/// their source order, in that order.
pub open spec fn source_steps(
    secs: Seq<Seq<OrderedPoint>>,
    pairs: Seq<CheckpointPair>,
    kmp: SourceGroups,
) -> (Seq<Seq<OrderedPoint>>, Seq<CheckpointPair>) {
    let a = source_step(secs, pairs, 1, spawn_indices(kmp.enph@, kmp.enpt_count));
    let b = source_step(a.0, a.1, 2, spawn_indices(kmp.itph@, kmp.itpt_count));
    source_step(b.0, b.1, 3, spawn_indices(kmp.ckph@, kmp.ckpt_count))
}

fn copy_points(v: &Vec<OrderedPoint>) -> (r: Vec<OrderedPoint>)
    ensures
        r@ == v@,
{
    let mut r: Vec<OrderedPoint> = Vec::new();
    let mut i: usize = 0;
    while i < v.len()
        invariant
            i <= v@.len(),
            r@ == v@.subrange(0, i as int),
        decreases v@.len() - i,
    {
        r.push(v[i]);
        i += 1;
    }
    proof {
        assert(r@ =~= v@);
    }
    r
}

fn find_point(s: &Vec<OrderedPoint>, e: EntityId) -> (r: Option<usize>)
    ensures
        r matches Some(i) ==> find_point_from(s@, e, 0) == Some(i as int),
        r is None ==> find_point_from(s@, e, 0) is None,
{
    let mut i: usize = 0;
    while i < s.len()
        invariant
            i <= s@.len(),
            find_point_from(s@, e, 0) == find_point_from(s@, e, i as int),
        decreases s@.len() - i,
    {
        if s[i].entity == e {
            return Some(i);
        }
        i += 1;
    }
    None
}

/// Give the points of one grouped section their source indices as order ids,
/// in document order, and pass each index on to the right half of a pair.
fn source_order(points: &mut Vec<OrderedPoint>, pairs: &mut Vec<CheckpointPair>, idx: &Vec<usize>)
    requires
        forall|k: int| 0 <= k < idx@.len() ==> idx@[k] <= u32::MAX,
    ensures
        final(points)@ == source_ordered(old(points)@, idx@),
        final(pairs)@ == paired(old(pairs)@, old(points)@, idx@),
{
    let ghost s = points@;
    let ghost ps = pairs@;
    let source = copy_points(points);
    let n = source.len();
    let mut i: usize = 0;
    while i < n
        invariant
            source@ == s,
            n == s.len(),
            points@.len() == n,
            i <= n,
            forall|k: int| 0 <= k < idx@.len() ==> idx@[k] <= u32::MAX,
            forall|k: int| 0 <= k < i ==> points@[k] == source_ordered(s, idx@)[k],
            forall|k: int| i <= k < n ==> points@[k] == s[k],
        decreases n - i,
    {
        let p = doc_rank(&source, i);
        if p < idx.len() {
            points.set(i, OrderedPoint { entity: source[i].entity, order: Some(idx[p] as u32) });
        }
        i += 1;
    }
    proof {
        assert(points@ =~= source_ordered(s, idx@));
    }
    let m = pairs.len();
    let mut q: usize = 0;
    while q < m
        invariant
            source@ == s,
            m == ps.len(),
            pairs@.len() == m,
            q <= m,
            forall|k: int| 0 <= k < idx@.len() ==> idx@[k] <= u32::MAX,
            forall|k: int| 0 <= k < q ==> pairs@[k] == paired(ps, s, idx@)[k],
            forall|k: int| q <= k < m ==> pairs@[k] == ps[k],
        decreases m - q,
    {
        let pair = pairs[q];
        match find_point(&source, pair.left) {
            Some(i) => {
                proof {
                    lemma_find_point(s, pair.left, 0);
                }
                let p = doc_rank(&source, i);
                if p < idx.len() {
                    pairs.set(
                        q,
                        CheckpointPair { left: pair.left, right: pair.right, right_order: Some(idx[p] as u32) },
                    );
                }
            },
            None => {},
        }
        q += 1;
    }
    proof {
        assert(pairs@ =~= paired(ps, s, idx@));
    }
}

proof fn lemma_find_point(s: Seq<OrderedPoint>, e: EntityId, i: int)
    requires
        0 <= i,
    ensures
        find_point_from(s, e, i) matches Some(k) ==> i <= k < s.len() && s[k].entity == e,
    decreases s.len() - i,
{
    if 0 <= i < s.len() && s[i].entity != e {
        lemma_find_point(s, e, i + 1);
    }
}

proof fn lemma_indices_small(groups: Seq<PathGroup>, count: int, upto: int)
    requires
        0 <= upto <= groups.len(),
    ensures
        forall|k: int| 0 <= k < indices_upto(groups, count, upto).len() ==> #[trigger] indices_upto(groups, count, upto)[k] < 510,
    decreases upto,
{
    if upto > 0 {
        lemma_indices_small(groups, count, upto - 1);
        let a = indices_upto(groups, count, upto - 1);
        let b = group_indices(groups[upto - 1], count);
        assert forall|k: int| 0 <= k < (a + b).len() implies #[trigger] (a + b)[k] < 510 by {
            if k >= a.len() {
                assert(b[k - a.len()] < 510);
            }
        }
    }
}

/// Restore source order for grouped points, then renumber every ordered
/// section densely. Enemy, item and checkpoint points, taken in document
/// order, receive the source indices of their section in spawn order, and a
/// checkpoint's right half receives its left half's index; then each of the
/// eleven sections is renumbered from zero and its next free id recorded.
pub fn normalize_ordering(state: &mut EditorOrder, kmp: &SourceGroups)
    requires
        old(state).sections@.len() == ORDERED_SECTIONS,
        forall|k: int| 0 <= k < ORDERED_SECTIONS ==> (#[trigger] old(state).sections@[k])@.len() <= u32::MAX,
    ensures
        ({
            let steps = source_steps(section_views(old(state).sections@), old(state).pairs@, *kmp);
            &&& section_views(final(state).sections@) == Seq::new(
                ORDERED_SECTIONS as nat,
                |k: int| refreshed(steps.0[k]),
            )
            &&& final(state).pairs@ == steps.1
            &&& final(state).next_ids@ == Seq::new(ORDERED_SECTIONS as nat, |k: int| numbered(steps.0[k]) as u32)
        }),
{
    let ghost s0 = section_views(state.sections@);
    let ghost p0 = state.pairs@;
    let en = source_indices(&kmp.enph, kmp.enpt_count);
    let it = source_indices(&kmp.itph, kmp.itpt_count);
    let ck = source_indices(&kmp.ckph, kmp.ckpt_count);
    proof {
        lemma_indices_small(kmp.enph@, kmp.enpt_count as int, kmp.enph@.len() as int);
        lemma_indices_small(kmp.itph@, kmp.itpt_count as int, kmp.itph@.len() as int);
        lemma_indices_small(kmp.ckph@, kmp.ckpt_count as int, kmp.ckph@.len() as int);
    }
    let mut sec = copy_points(&state.sections[ENEMY_POINTS]);
    source_order(&mut sec, &mut state.pairs, &en);
    state.sections.set(ENEMY_POINTS, sec);
    let ghost s1 = section_views(state.sections@);
    proof {
        assert(s1 =~= source_step(s0, p0, 1, en@).0);
    }
    let mut sec = copy_points(&state.sections[ITEM_POINTS]);
    source_order(&mut sec, &mut state.pairs, &it);
    state.sections.set(ITEM_POINTS, sec);
    let ghost s2 = section_views(state.sections@);
    proof {
        assert(s2 =~= source_step(s1, source_step(s0, p0, 1, en@).1, 2, it@).0);
    }
    let mut sec = copy_points(&state.sections[CHECKPOINTS]);
    source_order(&mut sec, &mut state.pairs, &ck);
    state.sections.set(CHECKPOINTS, sec);
    let ghost s3 = section_views(state.sections@);
    let ghost steps = source_steps(s0, p0, *kmp);
    proof {
        assert(s3 =~= steps.0);
        assert(state.pairs@ == steps.1);
    }
    let mut next_ids: Vec<u32> = Vec::new();
    let mut k: usize = 0;
    while k < ORDERED_SECTIONS
        invariant
            state.sections@.len() == ORDERED_SECTIONS,
            steps.0.len() == ORDERED_SECTIONS,
            forall|j: int| 0 <= j < ORDERED_SECTIONS ==> (#[trigger] steps.0[j]).len() <= u32::MAX,
            k <= ORDERED_SECTIONS,
            next_ids@.len() == k,
            forall|j: int| 0 <= j < k ==> state.sections@[j]@ == refreshed(steps.0[j]),
            forall|j: int| k <= j < ORDERED_SECTIONS ==> state.sections@[j]@ == steps.0[j],
            forall|j: int| 0 <= j < k ==> next_ids@[j] == numbered(steps.0[j]) as u32,
            state.pairs@ == steps.1,
        decreases ORDERED_SECTIONS - k,
    {
        let mut sec = copy_points(&state.sections[k]);
        assert(sec@ == steps.0[k as int]);
        let next = refresh_order(&mut sec);
        state.sections.set(k, sec);
        next_ids.push(next);
        k += 1;
    }
    state.next_ids = next_ids;
    proof {
        assert(section_views(state.sections@) =~= Seq::new(
            ORDERED_SECTIONS as nat,
            |k: int| refreshed(steps.0[k]),
        ));
        assert(state.next_ids@ =~= Seq::new(ORDERED_SECTIONS as nat, |k: int| numbered(steps.0[k]) as u32));
    }
}

/// The editor sections whose points the structure records, in the order it
/// records them.
#[derive(Debug, Clone, Copy, PartialEq, Eq, Structural)]
pub enum SectionName {
    StartPoint,
    EnemyPathPoint,
    ItemPathPoint,
    Checkpoint,
    CheckpointRight,
    Object,
    RoutePoint,
    RouteSettings,
    AreaPoint,
    KmpCamera,
    RespawnPoint,
    CannonPoint,
    BattleFinishPoint,
}

/// The points of one editor section.
#[derive(Debug)]
pub struct SectionPoints {
    pub name: SectionName,
    pub points: Vec<OrderedPoint>,
}

/// An entity with a path node, an overall-start marker, or both.
#[derive(Debug)]
pub struct NodeRecord {
    pub entity: EntityId,
    pub node: Option<KmpPathNode>,
    pub overall_start: bool,
}

/// What the structure is read from: the sections' points, the path-node
/// entities and the checkpoint pairs (left half, right half).
#[derive(Debug)]
pub struct StructureSource {
    pub sections: Vec<SectionPoints>,
    pub nodes: Vec<NodeRecord>,
    pub checkpoint_lefts: Vec<(EntityId, EntityId)>,
}

/// The entities of one section in document order.
#[derive(Debug)]
pub struct SectionEntities {
    pub name: SectionName,
    pub entities: Vec<EntityId>,
}

/// One entity's links, each list ascending, and its overall-start marker.
#[derive(Debug)]
pub struct GraphRecord {
    pub entity: EntityId,
    pub prev: Vec<EntityId>,
    pub next: Vec<EntityId>,
    pub start: bool,
}

/// Mathematical value of a graph record.
pub struct GraphRecordView {
    pub entity: EntityId,
    pub prev: Seq<EntityId>,
    pub next: Seq<EntityId>,
    pub start: bool,
}

impl GraphRecord {
    pub open spec fn view(&self) -> GraphRecordView {
        GraphRecordView { entity: self.entity, prev: self.prev@, next: self.next@, start: self.start }
    }
}

/// Entity identity, export order and connectivity that field-only saving
/// must not change.
#[derive(Debug)]
pub struct StructuralSignature {
    pub sections: Vec<SectionEntities>,
    pub graph: Vec<GraphRecord>,
    pub checkpoint_pairs: Vec<(EntityId, EntityId)>,
}

/// The entity lists of the sections.
pub open spec fn section_lists(s: Seq<SectionEntities>) -> Seq<(SectionName, Seq<EntityId>)> {
    Seq::new(s.len(), |k: int| (s[k].name, s[k].entities@))
}

/// The graph records as values.
pub open spec fn graph_views(g: Seq<GraphRecord>) -> Seq<GraphRecordView> {
    Seq::new(g.len(), |k: int| g[k]@)
}

/// `r` holds the values of `v` in ascending order.
pub open spec fn sorted_as(v: Seq<EntityId>, r: Seq<EntityId>) -> bool {
    &&& r.len() == v.len()
    &&& forall|i: int| 0 <= i < v.len() ==> r[value_position(v, i) as int] == v[i]
}

/// The predecessors of a node record (none without a node).
pub open spec fn record_prev(n: NodeRecord) -> Seq<EntityId> {
    match n.node {
        Some(node) => node.prev_nodes@,
        None => Seq::empty(),
    }
}

/// The successors of a node record (none without a node).
pub open spec fn record_next(n: NodeRecord) -> Seq<EntityId> {
    match n.node {
        Some(node) => node.next_nodes@,
        None => Seq::empty(),
    }
}

/// Node records that enter the structure: those with a node or a start marker.
pub open spec fn kept_nodes(nodes: Seq<NodeRecord>) -> Seq<NodeRecord> {
    nodes.filter(|n: NodeRecord| n.node is Some || n.overall_start)
}

/// Records sort by entity, then by their place in the list.
pub open spec fn record_lt(k: Seq<NodeRecord>) -> spec_fn(int, int) -> bool {
    |j: int, i: int| k[j].entity < k[i].entity || (k[j].entity == k[i].entity && j < i)
}

/// Pairs sort by left half, then right half, then place in the list.
pub open spec fn pair_lt(p: Seq<(EntityId, EntityId)>) -> spec_fn(int, int) -> bool {
    |j: int, i: int|
        p[j].0 < p[i].0 || (p[j].0 == p[i].0 && (p[j].1 < p[i].1 || (p[j].1 == p[i].1 && j < i)))
}

/// `g` records the kept node records, sorted by entity, with sorted links.
pub open spec fn captures_graph(nodes: Seq<NodeRecord>, g: Seq<GraphRecordView>) -> bool {
    let k = kept_nodes(nodes);
    &&& g.len() == k.len()
    &&& forall|i: int|
        0 <= i < k.len() ==> {
            let r = #[trigger] g[count_below(record_lt(k), i, k.len() as int) as int];
            &&& r.entity == k[i].entity
            &&& r.start == k[i].overall_start
            &&& sorted_as(record_prev(k[i]), r.prev)
            &&& sorted_as(record_next(k[i]), r.next)
        }
}

/// `sig` is the structure of `world`: each section's entities in document
/// order, the graph records, and the checkpoint pairs in ascending order.
pub open spec fn captures(world: StructureSource, sig: StructuralSignature) -> bool {
    &&& sig.sections@.len() == world.sections@.len()
    &&& forall|k: int|
        0 <= k < world.sections@.len() ==> {
            let e = #[trigger] sig.sections@[k];
            &&& e.name == world.sections@[k].name
            &&& e.entities@.len() == world.sections@[k].points@.len()
            &&& forall|i: int|
                0 <= i < world.sections@[k].points@.len() ==> e.entities@[doc_position(
                    world.sections@[k].points@,
                    i,
                ) as int] == world.sections@[k].points@[i].entity
        }
    &&& captures_graph(world.nodes@, graph_views(sig.graph@))
    &&& sig.checkpoint_pairs@.len() == world.checkpoint_lefts@.len()
    &&& forall|i: int|
        0 <= i < world.checkpoint_lefts@.len() ==> sig.checkpoint_pairs@[count_below(
            pair_lt(world.checkpoint_lefts@),
            i,
            world.checkpoint_lefts@.len() as int,
        ) as int] == world.checkpoint_lefts@[i]
}

fn record_of(n: &NodeRecord) -> (r: GraphRecord)
    ensures
        r.entity == n.entity,
        r.start == n.overall_start,
        sorted_as(record_prev(*n), r.prev@),
        sorted_as(record_next(*n), r.next@),
{
    let (prev, next) = match &n.node {
        Some(node) => (node.get_previous(), node.get_next()),
        None => (Vec::new(), Vec::new()),
    };
    GraphRecord { entity: n.entity, prev: sorted_ids(&prev), next: sorted_ids(&next), start: n.overall_start }
}

proof fn lemma_record_order(k: Seq<NodeRecord>)
    ensures
        forall|i: int| 0 <= i < k.len() ==> #[trigger] count_below(record_lt(k), i, k.len() as int) < k.len(),
        forall|i: int, j: int|
            0 <= i < k.len() && 0 <= j < k.len() && i != j ==> #[trigger] count_below(record_lt(k), i, k.len() as int)
                != #[trigger] count_below(record_lt(k), j, k.len() as int),
{
    let n = k.len() as int;
    assert forall|a: int, b: int, c: int|
        0 <= a < n && 0 <= b < n && 0 <= c < n && #[trigger] record_lt(k)(a, b) && #[trigger] record_lt(k)(b, c) implies record_lt(
        k,
    )(a, c) by {}
    assert forall|a: int, b: int| 0 <= a < n && 0 <= b < n && a != b implies #[trigger] record_lt(k)(a, b)
        || record_lt(k)(b, a) by {}
    lemma_total_order_ranks(record_lt(k), n);
}

proof fn lemma_pair_order(p: Seq<(EntityId, EntityId)>)
    ensures
        forall|i: int| 0 <= i < p.len() ==> #[trigger] count_below(pair_lt(p), i, p.len() as int) < p.len(),
        forall|i: int, j: int|
            0 <= i < p.len() && 0 <= j < p.len() && i != j ==> #[trigger] count_below(pair_lt(p), i, p.len() as int)
                != #[trigger] count_below(pair_lt(p), j, p.len() as int),
{
    let n = p.len() as int;
    assert forall|a: int, b: int, c: int|
        0 <= a < n && 0 <= b < n && 0 <= c < n && #[trigger] pair_lt(p)(a, b) && #[trigger] pair_lt(p)(b, c) implies pair_lt(
        p,
    )(a, c) by {}
    assert forall|a: int, b: int| 0 <= a < n && 0 <= b < n && a != b implies #[trigger] pair_lt(p)(a, b)
        || pair_lt(p)(b, a) by {}
    lemma_total_order_ranks(pair_lt(p), n);
}

/// The kept node records, in list order.
fn keep_nodes(nodes: &Vec<NodeRecord>) -> (r: Vec<&NodeRecord>)
    ensures
        r@.len() == kept_nodes(nodes@).len(),
        forall|i: int| 0 <= i < r@.len() ==> *r@[i] == kept_nodes(nodes@)[i],
{
    let mut r: Vec<&NodeRecord> = Vec::new();
    let mut i: usize = 0;
    while i < nodes.len()
        invariant
            i <= nodes@.len(),
            r@.len() == kept_nodes(nodes@.subrange(0, i as int)).len(),
            forall|k: int| 0 <= k < r@.len() ==> *r@[k] == kept_nodes(nodes@.subrange(0, i as int))[k],
        decreases nodes@.len() - i,
    {
        let ghost before = nodes@.subrange(0, i as int);
        let ghost after = nodes@.subrange(0, i + 1);
        proof {
            reveal(Seq::filter);
            assert(after.drop_last() =~= before);
            assert(after.last() == nodes@[i as int]);
        }
        let n = &nodes[i];
        if n.node.is_some() || n.overall_start {
            r.push(n);
        }
        i += 1;
    }
    proof {
        assert(nodes@.subrange(0, nodes@.len() as int) =~= nodes@);
    }
    r
}

impl StructuralSignature {
    /// Record the structure without editable values: each section's entities
    /// in document order, every path-node entity with its links sorted, in
    /// entity order, and the checkpoint pairs in ascending order, so that the
    /// order in which the editor lists things cannot look like a change.
    pub fn capture(world: &StructureSource) -> (sig: StructuralSignature)
        ensures
            captures(*world, sig),
    {
        let mut sections: Vec<SectionEntities> = Vec::new();
        let mut k: usize = 0;
        while k < world.sections.len()
            invariant
                k <= world.sections@.len(),
                sections@.len() == k,
                forall|j: int|
                    0 <= j < k ==> {
                        let e = #[trigger] sections@[j];
                        &&& e.name == world.sections@[j].name
                        &&& e.entities@.len() == world.sections@[j].points@.len()
                        &&& forall|i: int|
                            0 <= i < world.sections@[j].points@.len() ==> e.entities@[doc_position(
                                world.sections@[j].points@,
                                i,
                            ) as int] == world.sections@[j].points@[i].entity
                    },
            decreases world.sections@.len() - k,
        {
            let entities = ordered(&world.sections[k].points);
            sections.push(SectionEntities { name: world.sections[k].name, entities });
            k += 1;
        }
        let kept = keep_nodes(&world.nodes);
        let ghost kn = kept_nodes(world.nodes@);
        let n = kept.len();
        let mut graph: Vec<GraphRecord> = Vec::new();
        while graph.len() < n
            invariant
                graph@.len() <= n,
            decreases n - graph@.len(),
        {
            graph.push(GraphRecord { entity: 0, prev: Vec::new(), next: Vec::new(), start: false });
        }
        proof {
            lemma_record_order(kn);
        }
        let mut i: usize = 0;
        while i < n
            invariant
                n == kn.len(),
                kept@.len() == n,
                forall|j: int| 0 <= j < n ==> *kept@[j] == kn[j],
                graph@.len() == n,
                i <= n,
                forall|j: int| 0 <= j < kn.len() ==> #[trigger] count_below(record_lt(kn), j, kn.len() as int) < kn.len(),
                forall|a: int, b: int|
                    0 <= a < kn.len() && 0 <= b < kn.len() && a != b ==> #[trigger] count_below(
                        record_lt(kn),
                        a,
                        kn.len() as int,
                    ) != #[trigger] count_below(record_lt(kn), b, kn.len() as int),
                forall|j: int|
                    0 <= j < i ==> {
                        let r = #[trigger] graph@[count_below(record_lt(kn), j, kn.len() as int) as int]@;
                        &&& r.entity == kn[j].entity
                        &&& r.start == kn[j].overall_start
                        &&& sorted_as(record_prev(kn[j]), r.prev)
                        &&& sorted_as(record_next(kn[j]), r.next)
                    },
            decreases n - i,
        {
            let mut count: usize = 0;
            let mut j: usize = 0;
            while j < n
                invariant
                    n == kn.len(),
                    kept@.len() == n,
                    forall|m: int| 0 <= m < n ==> *kept@[m] == kn[m],
                    i < n,
                    j <= n,
                    count == count_below(record_lt(kn), i as int, j as int),
                    count <= j,
                decreases n - j,
            {
                if kept[j].entity < kept[i].entity || (kept[j].entity == kept[i].entity && j < i) {
                    count = count + 1;
                }
                j += 1;
            }
            let rec = record_of(kept[i]);
            assert(count == count_below(record_lt(kn), i as int, kn.len() as int));
            graph.set(count, rec);
            proof {
                assert forall|j: int|
                    0 <= j < i + 1 implies {
                        let r = #[trigger] graph@[count_below(record_lt(kn), j, kn.len() as int) as int]@;
                        &&& r.entity == kn[j].entity
                        &&& r.start == kn[j].overall_start
                        &&& sorted_as(record_prev(kn[j]), r.prev)
                        &&& sorted_as(record_next(kn[j]), r.next)
                    } by {
                    if j < i {
                        assert(count_below(record_lt(kn), j, kn.len() as int) != count_below(
                            record_lt(kn),
                            i as int,
                            kn.len() as int,
                        ));
                    }
                }
            }
            i += 1;
        }
        let lefts = &world.checkpoint_lefts;
        let ghost ps = lefts@;
        let m = lefts.len();
        let mut pairs: Vec<(EntityId, EntityId)> = Vec::new();
        while pairs.len() < m
            invariant
                pairs@.len() <= m,
            decreases m - pairs@.len(),
        {
            pairs.push((0, 0));
        }
        proof {
            lemma_pair_order(ps);
        }
        let mut i: usize = 0;
        while i < m
            invariant
                ps == lefts@,
                m == ps.len(),
                pairs@.len() == m,
                i <= m,
                forall|j: int| 0 <= j < ps.len() ==> #[trigger] count_below(pair_lt(ps), j, ps.len() as int) < ps.len(),
                forall|a: int, b: int|
                    0 <= a < ps.len() && 0 <= b < ps.len() && a != b ==> #[trigger] count_below(
                        pair_lt(ps),
                        a,
                        ps.len() as int,
                    ) != #[trigger] count_below(pair_lt(ps), b, ps.len() as int),
                forall|j: int| 0 <= j < i ==> pairs@[count_below(pair_lt(ps), j, ps.len() as int) as int] == ps[j],
            decreases m - i,
        {
            let mut count: usize = 0;
            let mut j: usize = 0;
            while j < m
                invariant
                    ps == lefts@,
                    m == ps.len(),
                    i < m,
                    j <= m,
                    count == count_below(pair_lt(ps), i as int, j as int),
                    count <= j,
                decreases m - j,
            {
                let a = lefts[j];
                let b = lefts[i];
                if a.0 < b.0 || (a.0 == b.0 && (a.1 < b.1 || (a.1 == b.1 && j < i))) {
                    count = count + 1;
                }
                j += 1;
            }
            assert(count == count_below(pair_lt(ps), i as int, ps.len() as int));
            pairs.set(count, lefts[i]);
            proof {
                assert forall|j: int| 0 <= j < i + 1 implies pairs@[count_below(pair_lt(ps), j, ps.len() as int) as int]
                    == ps[j] by {
                    if j < i {
                        assert(count_below(pair_lt(ps), j, ps.len() as int) != count_below(
                            pair_lt(ps),
                            i as int,
                            ps.len() as int,
                        ));
                    }
                }
            }
            i += 1;
        }
        let sig = StructuralSignature { sections, graph, checkpoint_pairs: pairs };
        proof {
            assert(graph_views(sig.graph@).len() == kn.len());
        }
        sig
    }
}

/// The first section, from `k` on, whose entities differ between `a` and `b`.
pub open spec fn first_section_change(
    a: Seq<(SectionName, Seq<EntityId>)>,
    b: Seq<(SectionName, Seq<EntityId>)>,
    k: int,
) -> Option<int>
    decreases a.len() - k,
{
    if k < 0 || k >= a.len() || k >= b.len() {
        None
    } else if a[k].1 != b[k].1 {
        Some(k)
    } else {
        first_section_change(a, b, k + 1)
    }
}

/// Past `k`, no section's entities change exactly when the two lists agree
/// from `k` on (their names agreeing).
proof fn lemma_no_section_change(a: Seq<(SectionName, Seq<EntityId>)>, b: Seq<(SectionName, Seq<EntityId>)>, k: int)
    requires
        a.len() == b.len(),
        forall|i: int| 0 <= i < a.len() ==> (#[trigger] a[i]).0 == b[i].0,
        0 <= k <= a.len(),
    ensures
        first_section_change(a, b, k) is None <==> forall|i: int| k <= i < a.len() ==> #[trigger] a[i] == b[i],
    decreases a.len() - k,
{
    if k < a.len() {
        lemma_no_section_change(a, b, k + 1);
        if a[k].1 == b[k].1 {
            assert(a[k] == b[k]);
        }
    }
}

/// Validation accepts exactly an unchanged structure: for two signatures
/// with the same sections (as every capture has), `validation` is `Ok`
/// exactly when the entity lists, the graph records and the checkpoint
/// pairs are all equal; in particular a signature validates against itself.
pub proof fn lemma_validation_exact(loaded: StructuralSignature, current: StructuralSignature)
    requires
        loaded.sections@.len() == current.sections@.len(),
        forall|i: int| 0 <= i < loaded.sections@.len() ==> (#[trigger] loaded.sections@[i]).name == current.sections@[i].name,
    ensures
        validation(loaded, current) is Ok <==> (section_lists(loaded.sections@) == section_lists(current.sections@)
            && graph_views(loaded.graph@) == graph_views(current.graph@) && loaded.checkpoint_pairs@
            == current.checkpoint_pairs@),
        validation(loaded, loaded) is Ok,
{
    let a = section_lists(loaded.sections@);
    let b = section_lists(current.sections@);
    assert forall|i: int| 0 <= i < a.len() implies (#[trigger] a[i]).0 == b[i].0 by {
        assert(loaded.sections@[i].name == current.sections@[i].name);
    }
    lemma_no_section_change(a, b, 0);
    if first_section_change(a, b, 0) is None {
        assert(a =~= b);
    }
    if a == b {
        assert forall|i: int| 0 <= i < a.len() implies #[trigger] a[i] == b[i] by {}
    }
    assert forall|i: int| 0 <= i < a.len() implies (#[trigger] a[i]).0 == a[i].0 by {}
    lemma_no_section_change(a, a, 0);
}

/// What validating `current` against the loaded structure `loaded` gives:
/// the first section whose entities changed, else a change of the graph or
/// of the checkpoint pairs, else nothing.
pub open spec fn validation(loaded: StructuralSignature, current: StructuralSignature) -> Result<(), KmpError> {
    match first_section_change(section_lists(loaded.sections@), section_lists(current.sections@), 0) {
        Some(k) => Err(KmpError::StructuralSectionChanged(loaded.sections@[k].name)),
        None => if graph_views(loaded.graph@) == graph_views(current.graph@) && loaded.checkpoint_pairs@
            == current.checkpoint_pairs@ {
            Ok(())
        } else {
            Err(KmpError::StructuralTopologyChanged)
        },
    }
}

/// Whether two lists of entities are equal.
pub fn ids_equal(a: &Vec<EntityId>, b: &Vec<EntityId>) -> (r: bool)
    ensures
        r == (a@ == b@),
{
    if a.len() != b.len() {
        return false;
    }
    let mut i: usize = 0;
    while i < a.len()
        invariant
            a@.len() == b@.len(),
            i <= a@.len(),
            forall|k: int| 0 <= k < i ==> a@[k] == b@[k],
        decreases a@.len() - i,
    {
        if a[i] != b[i] {
            return false;
        }
        i += 1;
    }
    proof {
        assert(a@ =~= b@);
    }
    true
}

fn graphs_equal(a: &Vec<GraphRecord>, b: &Vec<GraphRecord>) -> (r: bool)
    ensures
        r == (graph_views(a@) == graph_views(b@)),
{
    if a.len() != b.len() {
        proof {
            assert(graph_views(a@).len() != graph_views(b@).len());
        }
        return false;
    }
    let mut i: usize = 0;
    while i < a.len()
        invariant
            a@.len() == b@.len(),
            i <= a@.len(),
            forall|k: int| 0 <= k < i ==> a@[k]@ == b@[k]@,
        decreases a@.len() - i,
    {
        let x = &a[i];
        let y = &b[i];
        if x.entity != y.entity || x.start != y.start || !ids_equal(&x.prev, &y.prev) || !ids_equal(&x.next, &y.next) {
            proof {
                assert(graph_views(a@)[i as int] != graph_views(b@)[i as int]);
            }
            return false;
        }
        i += 1;
    }
    proof {
        assert(graph_views(a@) =~= graph_views(b@));
    }
    true
}

fn pairs_equal(a: &Vec<(EntityId, EntityId)>, b: &Vec<(EntityId, EntityId)>) -> (r: bool)
    ensures
        r == (a@ == b@),
{
    if a.len() != b.len() {
        return false;
    }
    let mut i: usize = 0;
    while i < a.len()
        invariant
            a@.len() == b@.len(),
            i <= a@.len(),
            forall|k: int| 0 <= k < i ==> a@[k] == b@[k],
        decreases a@.len() - i,
    {
        if a[i].0 != b[i].0 || a[i].1 != b[i].1 {
            return false;
        }
        i += 1;
    }
    proof {
        assert(a@ =~= b@);
    }
    true
}

impl StructuralSignature {
    /// Refuse structural changes: the first section whose entities were
    /// added, removed or reordered (sections are compared in order, as far as
    /// both lists go), else any change of path topology, overall starts or
    /// checkpoint pairing.
    pub fn validate(&self, current: &StructuralSignature) -> (r: Result<(), KmpError>)
        ensures
            r == validation(*self, *current),
    {
        let ghost a = section_lists(self.sections@);
        let ghost b = section_lists(current.sections@);
        let mut k: usize = 0;
        while k < self.sections.len() && k < current.sections.len()
            invariant
                a == section_lists(self.sections@),
                b == section_lists(current.sections@),
                k <= a.len(),
                first_section_change(a, b, 0) == first_section_change(a, b, k as int),
            decreases a.len() - k,
        {
            if !ids_equal(&self.sections[k].entities, &current.sections[k].entities) {
                return Err(KmpError::StructuralSectionChanged(self.sections[k].name));
            }
            k += 1;
        }
        if graphs_equal(&self.graph, &current.graph) && pairs_equal(&self.checkpoint_pairs, &current.checkpoint_pairs) {
            Ok(())
        } else {
            Err(KmpError::StructuralTopologyChanged)
        }
    }
}

proof fn lemma_no_change_from(a: Seq<(SectionName, Seq<EntityId>)>, k: int)
    requires
        0 <= k,
    ensures
        first_section_change(a, a, k) is None,
    decreases a.len() - k,
{
    if k < a.len() {
        lemma_no_change_from(a, k + 1);
    }
}

/// An unchanged structure validates.
pub proof fn lemma_unchanged_structure_validates(sig: StructuralSignature)
    ensures
        validation(sig, sig) == Ok::<(), KmpError>(()),
{
    lemma_no_change_from(section_lists(sig.sections@), 0);
}

proof fn lemma_sorted_as_unique(v: Seq<EntityId>, r1: Seq<EntityId>, r2: Seq<EntityId>)
    requires
        sorted_as(v, r1),
        sorted_as(v, r2),
    ensures
        r1 == r2,
{
    lemma_value_order(v);
    lemma_placement_unique(value_lt(v), v, r1, r2);
}

/// The structure is a function of the editor state: capturing the same state
/// twice gives the same structure, so an untouched editor validates against
/// the structure captured when the document was loaded.
pub proof fn lemma_unchanged_editor_validates(world: StructureSource, loaded: StructuralSignature, current: StructuralSignature)
    requires
        captures(world, loaded),
        captures(world, current),
    ensures
        section_lists(loaded.sections@) == section_lists(current.sections@),
        graph_views(loaded.graph@) == graph_views(current.graph@),
        loaded.checkpoint_pairs@ == current.checkpoint_pairs@,
        validation(loaded, current) == Ok::<(), KmpError>(()),
{
    let ws = world.sections@;
    assert forall|k: int| 0 <= k < ws.len() implies loaded.sections@[k].entities@ == current.sections@[k].entities@ by {
        let pts = ws[k].points@;
        let items = Seq::new(pts.len(), |i: int| pts[i].entity);
        lemma_doc_order(pts);
        let e1 = loaded.sections@[k];
        let e2 = current.sections@[k];
        assert forall|i: int| 0 <= i < items.len() implies e1.entities@[count_below(doc_lt(pts), i, items.len() as int) as int] == items[i] by {
            assert(doc_position(pts, i) == count_below(doc_lt(pts), i, items.len() as int));
        }
        assert forall|i: int| 0 <= i < items.len() implies e2.entities@[count_below(doc_lt(pts), i, items.len() as int) as int] == items[i] by {
            assert(doc_position(pts, i) == count_below(doc_lt(pts), i, items.len() as int));
        }
        assert forall|i: int| 0 <= i < items.len() implies #[trigger] count_below(doc_lt(pts), i, items.len() as int) < items.len() by {
            assert(doc_position(pts, i) == count_below(doc_lt(pts), i, items.len() as int));
        }
        assert forall|i: int, j: int| 0 <= i < items.len() && 0 <= j < items.len() && i != j implies #[trigger] count_below(doc_lt(pts), i, items.len() as int) != #[trigger] count_below(doc_lt(pts), j, items.len() as int) by {
            assert(doc_position(pts, i) == count_below(doc_lt(pts), i, items.len() as int));
            assert(doc_position(pts, j) == count_below(doc_lt(pts), j, items.len() as int));
        }
        lemma_placement_unique(doc_lt(pts), items, e1.entities@, e2.entities@);
    }
    assert(section_lists(loaded.sections@) =~= section_lists(current.sections@));
    let kn = kept_nodes(world.nodes@);
    let g1 = graph_views(loaded.graph@);
    let g2 = graph_views(current.graph@);
    lemma_record_order(kn);
    let items = Seq::new(kn.len(), |i: int| g1[count_below(record_lt(kn), i, kn.len() as int) as int]);
    assert forall|i: int| 0 <= i < kn.len() implies g2[count_below(record_lt(kn), i, kn.len() as int) as int] == items[i] by {
        let r1 = g1[count_below(record_lt(kn), i, kn.len() as int) as int];
        let r2 = g2[count_below(record_lt(kn), i, kn.len() as int) as int];
        lemma_sorted_as_unique(record_prev(kn[i]), r1.prev, r2.prev);
        lemma_sorted_as_unique(record_next(kn[i]), r1.next, r2.next);
    }
    lemma_placement_unique(record_lt(kn), items, g1, g2);
    let ps = world.checkpoint_lefts@;
    lemma_pair_order(ps);
    lemma_placement_unique(pair_lt(ps), ps, loaded.checkpoint_pairs@, current.checkpoint_pairs@);
    lemma_no_change_from(section_lists(loaded.sections@), 0);
}

/// The bytes last read from or written to one destination.
#[derive(Debug)]
pub struct DiskVersion {
    pub path: Vec<u8>,
    pub bytes: Vec<u8>,
}

/// The loaded document's bookkeeping: its source bytes, the structure captured
/// when it was loaded, and the bytes known to be on each destination.
#[derive(Debug)]
pub struct LoadedKmp {
    pub original_bytes: Vec<u8>,
    pub signature: StructuralSignature,
    pub disk_versions: Vec<DiskVersion>,
    /// The group headers and point counts of the source's grouped sections.
    pub source: SourceGroups,
    /// The source ids of routes and respawn points, and the links as loaded.
    pub links: LoadedLinks,
}

/// The source ids of route starts and respawn points, and the route and
/// respawn links as they were when the document was loaded.
#[derive(Debug)]
pub struct LoadedLinks {
    pub route_ids: Vec<(EntityId, u32)>,
    pub respawn_ids: Vec<(EntityId, u32)>,
    pub route_links: Vec<(EntityId, EntityId)>,
    pub respawn_links: Vec<(EntityId, EntityId)>,
}

impl Default for LoadedLinks {
    /// No ids and no links.
    fn default() -> (r: LoadedLinks)
        ensures
            r.route_ids@.len() == 0,
            r.respawn_ids@.len() == 0,
            r.route_links@.len() == 0,
            r.respawn_links@.len() == 0,
    {
        LoadedLinks { route_ids: Vec::new(), respawn_ids: Vec::new(), route_links: Vec::new(), respawn_links: Vec::new() }
    }
}

/// The first recorded version for `path`, from `i` on.
pub open spec fn version_from(versions: Seq<DiskVersion>, path: Seq<u8>, i: int) -> Option<int>
    decreases versions.len() - i,
{
    if i < 0 || i >= versions.len() {
        None
    } else if versions[i].path@ == path {
        Some(i)
    } else {
        version_from(versions, path, i + 1)
    }
}

/// The first recorded version for `path`.
pub open spec fn version_of(versions: Seq<DiskVersion>, path: Seq<u8>) -> Option<int> {
    version_from(versions, path, 0)
}

proof fn lemma_version_from(versions: Seq<DiskVersion>, path: Seq<u8>, i: int)
    requires
        0 <= i,
    ensures
        version_from(versions, path, i) matches Some(k) ==> i <= k < versions.len() && versions[k].path@ == path,
        version_from(versions, path, i) is None ==> forall|k: int| i <= k < versions.len() ==> versions[k].path@ != path,
    decreases versions.len() - i,
{
    if 0 <= i < versions.len() && versions[i].path@ != path {
        lemma_version_from(versions, path, i + 1);
    }
}

/// Where the bytes for `path` are recorded, if anywhere.
pub fn find_version(versions: &Vec<DiskVersion>, path: &Vec<u8>) -> (r: Option<usize>)
    ensures
        r matches Some(i) ==> version_of(versions@, path@) == Some(i as int) && i < versions@.len(),
        r is None ==> version_of(versions@, path@) is None,
{
    let mut i: usize = 0;
    while i < versions.len()
        invariant
            i <= versions@.len(),
            version_of(versions@, path@) == version_from(versions@, path@, i as int),
        decreases versions@.len() - i,
    {
        if ids_equal_bytes(&versions[i].path, path) {
            return Some(i);
        }
        i += 1;
    }
    None
}

/// Whether two byte strings are equal.
pub fn ids_equal_bytes(a: &Vec<u8>, b: &Vec<u8>) -> (r: bool)
    ensures
        r == (a@ == b@),
{
    if a.len() != b.len() {
        return false;
    }
    let mut i: usize = 0;
    while i < a.len()
        invariant
            a@.len() == b@.len(),
            i <= a@.len(),
            forall|k: int| 0 <= k < i ==> a@[k] == b@[k],
        decreases a@.len() - i,
    {
        if a[i] != b[i] {
            return false;
        }
        i += 1;
    }
    proof {
        assert(a@ =~= b@);
    }
    true
}

/// Whether the editor would write different bytes than those known to be on
/// the active destination (`active`, resolved). What it would write is the
/// field-only save of the document (`LoadedKmp::field_save`, whatever the
/// save mode), so editor-only state that no record holds is never unsaved,
/// and a refusal of that save is passed on. Without a loaded document
/// nothing is unsaved; a destination without recorded bytes is an error.
pub fn has_unsaved_changes<F: Fn(DocumentMerge) -> Result<Vec<u8>, KmpError>>(
    document: Option<&LoadedKmp>,
    input: &FieldSaveInput,
    encode: F,
    active: &Vec<u8>,
) -> (r: Result<bool, KmpError>)
    requires
        input.original@.len() == 15,
        input.baseline@.len() == 15,
        input.current_sections@.len() == 15,
        forall|m: DocumentMerge| #[trigger] encode.requires((m,)),
    ensures
        document is None ==> r == Ok::<bool, KmpError>(false),
        document matches Some(d) ==> exists|res: Result<Seq<u8>, KmpError>|
            #[trigger] field_save_outcome(*d, *input, encode, res) && r == match res {
                Err(e) => Err::<bool, KmpError>(e),
                Ok(b) => match version_of(d.disk_versions@, active@) {
                    None => Err(KmpError::NoSavedVersion),
                    Some(i) => Ok(b != d.disk_versions@[i].bytes@),
                },
            },
{
    match document {
        None => Ok(false),
        Some(d) => {
            let projected = d.field_save(input, encode);
            let ghost res = bytes_result(projected);
            match projected {
                Err(e) => Err(e),
                Ok(bytes) => match find_version(&d.disk_versions, active) {
                    None => Err(KmpError::NoSavedVersion),
                    Some(i) => Ok(!ids_equal_bytes(&bytes, &d.disk_versions[i].bytes)),
                },
            }
        },
    }
}

/// Byte `b` separates path components.
pub open spec fn is_separator(b: u8) -> bool {
    b == 47
}

/// Where the component ending at `end` starts: just after the separator
/// before it, or at the start of the path.
pub open spec fn component_start(p: Seq<u8>, end: int) -> int
    decreases end,
{
    if end <= 0 {
        0
    } else if is_separator(p[end - 1]) {
        end
    } else {
        component_start(p, end - 1)
    }
}

/// The bounds of the last component of `p[..end]`, skipping separators and
/// `.` components; none when nothing is left.
pub open spec fn last_component(p: Seq<u8>, end: int) -> Option<(int, int)>
    decreases end,
{
    if end <= 0 {
        None
    } else if is_separator(p[end - 1]) {
        last_component(p, end - 1)
    } else {
        let start = component_start(p, end);
        if end - start == 1 && p[start] == 46 {
            if start < end {
                last_component(p, start)
            } else {
                None
            }
        } else {
            Some((start, end))
        }
    }
}

/// The file name of a `/`-separated path: its last component, none when that
/// is `..` or there is none.
pub open spec fn file_name(p: Seq<u8>) -> Option<Seq<u8>> {
    match last_component(p, p.len() as int) {
        None => None,
        Some((s, e)) => if e - s == 2 && p[s] == 46 && p[s + 1] == 46 {
            None
        } else {
            Some(p.subrange(s, e))
        },
    }
}

/// The position of the last `.` in `name[..end]`.
pub open spec fn last_dot(name: Seq<u8>, end: int) -> Option<int>
    decreases end,
{
    if end <= 0 {
        None
    } else if name[end - 1] == 46 {
        Some(end - 1)
    } else {
        last_dot(name, end - 1)
    }
}

/// The extension of a file name: what follows its last `.`, none without a
/// `.` or when the only `.` starts the name.
pub open spec fn extension(name: Seq<u8>) -> Option<Seq<u8>> {
    match last_dot(name, name.len() as int) {
        None => None,
        Some(k) => if k == 0 {
            None
        } else {
            Some(name.subrange(k + 1, name.len() as int))
        },
    }
}

/// The path names a `.kmp` file.
pub open spec fn kmp_path(p: Seq<u8>) -> bool {
    match file_name(p) {
        Some(name) => extension(name) == Some(seq![107u8, 109u8, 112u8]),
        None => false,
    }
}

proof fn lemma_component_start(p: Seq<u8>, end: int)
    requires
        0 <= end <= p.len(),
    ensures
        0 <= component_start(p, end) <= end,
        forall|k: int| component_start(p, end) <= k < end ==> !is_separator(#[trigger] p[k]),
    decreases end,
{
    if end > 0 && !is_separator(p[end - 1]) {
        lemma_component_start(p, end - 1);
    }
}

proof fn lemma_last_component(p: Seq<u8>, end: int)
    requires
        0 <= end <= p.len(),
    ensures
        last_component(p, end) matches Some((s, e)) ==> 0 <= s < e <= end,
    decreases end,
{
    if end > 0 {
        if is_separator(p[end - 1]) {
            lemma_last_component(p, end - 1);
        } else {
            lemma_component_start(p, end);
            lemma_component_start(p, end - 1);
            let start = component_start(p, end);
            if end - start == 1 && p[start] == 46 {
                lemma_last_component(p, start);
            }
        }
    }
}

fn component_bounds(p: &Vec<u8>) -> (r: Option<(usize, usize)>)
    ensures
        r matches Some((s, e)) ==> last_component(p@, p@.len() as int) == Some((s as int, e as int)),
        r is None ==> last_component(p@, p@.len() as int) is None,
{
    let mut end = p.len();
    loop
        invariant
            end <= p@.len(),
            last_component(p@, p@.len() as int) == last_component(p@, end as int),
        decreases end,
    {
        if end == 0 {
            return None;
        }
        if p[end - 1] == 47 {
            end = end - 1;
        } else {
            let mut start = end - 1;
            while start > 0 && p[start - 1] != 47
                invariant
                    start < end <= p@.len(),
                    component_start(p@, end as int) == component_start(p@, start as int),
                decreases start,
            {
                start = start - 1;
            }
            proof {
                lemma_component_start(p@, end as int);
            }
            if end - start == 1 && p[start] == 46 {
                end = start;
            } else {
                return Some((start, end));
            }
        }
    }
}

/// Whether the path names a `.kmp` file.
pub fn has_kmp_extension(p: &Vec<u8>) -> (r: bool)
    ensures
        r == kmp_path(p@),
{
    proof {
        lemma_last_component(p@, p@.len() as int);
    }
    match component_bounds(p) {
        None => false,
        Some((s, e)) => {
            if e - s == 2 && p[s] == 46 && p[s + 1] == 46 {
                return false;
            }
            let ghost name = p@.subrange(s as int, e as int);
            let mut k = e;
            while k > s && p[k - 1] != 46
                invariant
                    s <= k <= e <= p@.len(),
                    name == p@.subrange(s as int, e as int),
                    last_dot(name, name.len() as int) == last_dot(name, k - s),
                decreases k,
            {
                k = k - 1;
            }
            if k == s {
                return false;
            }
            // the last dot is at k - 1
            if k - 1 == s {
                return false;
            }
            let r = e - k == 3 && p[k] == 107 && p[k + 1] == 109 && p[k + 2] == 112;
            proof {
                let ext = name.subrange(k - s, name.len() as int);
                if r {
                    assert(ext =~= seq![107u8, 109u8, 112u8]);
                } else {
                    assert(ext.len() != 3 || ext[0] != 107 || ext[1] != 109 || ext[2] != 112);
                }
            }
            r
        },
    }
}

/// What a save will do: the destination, and whether it patches fields
/// (`true`) or rebuilds the file.
#[derive(Debug)]
pub struct SavePlan {
    pub path: Vec<u8>,
    pub patch_saving: bool,
}

/// Plan a save: the destination is the one given, else the open file; it
/// must name a `.kmp` file, and a document must be loaded. Patch saving is
/// used only when the settings exist and ask for it.
pub fn save(destination: Option<Vec<u8>>, current: Option<Vec<u8>>, document: Option<&LoadedKmp>, patch_saving: Option<
    bool,
>) -> (r: Result<SavePlan, KmpError>)
    ensures
        destination is None && current is None ==> r == Err::<SavePlan, KmpError>(KmpError::NoDestination),
        ({
            let chosen = match destination {
                Some(d) => Some(d),
                None => current,
            };
            chosen matches Some(path) ==> {
                &&& !kmp_path(path@) ==> r == Err::<SavePlan, KmpError>(KmpError::NotKmpExtension)
                &&& kmp_path(path@) && document is None ==> r == Err::<SavePlan, KmpError>(KmpError::NoDocument)
                &&& kmp_path(path@) && document is Some ==> (r matches Ok(plan) && plan.path@ == path@
                    && plan.patch_saving == (patch_saving == Some(true)))
            }
        }),
{
    let path = match destination {
        Some(d) => d,
        None => match current {
            Some(c) => c,
            None => {
                return Err(KmpError::NoDestination);
            },
        },
    };
    if !has_kmp_extension(&path) {
        return Err(KmpError::NotKmpExtension);
    }
    if document.is_none() {
        return Err(KmpError::NoDocument);
    }
    let patch = match patch_saving {
        Some(b) => b,
        None => false,
    };
    Ok(SavePlan { path, patch_saving: patch })
}

/// After bytes were committed to `target`: replace the bytes recorded for it,
/// or record it as a new destination.
pub fn record_saved(document: &mut LoadedKmp, target: Vec<u8>, bytes: Vec<u8>)
    ensures
        final(document).original_bytes == old(document).original_bytes,
        final(document).signature == old(document).signature,
        final(document).source == old(document).source,
        final(document).links == old(document).links,
        match version_of(old(document).disk_versions@, target@) {
            Some(i) => final(document).disk_versions@.len() == old(document).disk_versions@.len()
                && final(document).disk_versions@[i].bytes@ == bytes@
                && final(document).disk_versions@[i].path@ == target@
                && forall|k: int|
                0 <= k < old(document).disk_versions@.len() && k != i ==> final(document).disk_versions@[k]
                    == old(document).disk_versions@[k],
            None => final(document).disk_versions@.len() == old(document).disk_versions@.len() + 1
                && final(document).disk_versions@.last().path@ == target@
                && final(document).disk_versions@.last().bytes@ == bytes@
                && forall|k: int|
                0 <= k < old(document).disk_versions@.len() ==> final(document).disk_versions@[k]
                    == old(document).disk_versions@[k],
        },
{
    match find_version(&document.disk_versions, &target) {
        Some(i) => {
            proof {
                lemma_version_from(document.disk_versions@, target@, 0);
            }
            document.disk_versions.set(i, DiskVersion { path: target, bytes });
        },
        None => {
            document.disk_versions.push(DiskVersion { path: target, bytes });
        },
    }
}

/// The entities recorded for section `name`, from the `i`-th list on.
pub open spec fn loaded_section_from(s: Seq<SectionEntities>, name: SectionName, i: int) -> Option<Seq<EntityId>>
    decreases s.len() - i,
{
    if i < 0 || i >= s.len() {
        None
    } else if s[i].name == name {
        Some(s[i].entities@)
    } else {
        loaded_section_from(s, name, i + 1)
    }
}

/// The entities recorded for section `name` when the document was loaded.
pub open spec fn loaded_section(s: Seq<SectionEntities>, name: SectionName) -> Option<Seq<EntityId>> {
    loaded_section_from(s, name, 0)
}

/// The first place of `e` in `v`, from `i` on.
pub open spec fn place_from(v: Seq<EntityId>, e: EntityId, i: int) -> Option<int>
    decreases v.len() - i,
{
    if i < 0 || i >= v.len() {
        None
    } else if v[i] == e {
        Some(i)
    } else {
        place_from(v, e, i + 1)
    }
}

/// The first place of `e` in `v`.
pub open spec fn place(v: Seq<EntityId>, e: EntityId) -> Option<int> {
    place_from(v, e, 0)
}

/// The source indices of a grouped section in spawn order; `None` for a
/// section whose points were spawned one per source record.
pub open spec fn grouped_source(src: SourceGroups, name: SectionName) -> Option<Seq<usize>> {
    match name {
        SectionName::EnemyPathPoint => Some(spawn_indices(src.enph@, src.enpt_count)),
        SectionName::ItemPathPoint => Some(spawn_indices(src.itph@, src.itpt_count)),
        SectionName::Checkpoint => Some(spawn_indices(src.ckph@, src.ckpt_count)),
        _ => None,
    }
}

/// Source indices as entity-width values, for sorting.
pub open spec fn wide(v: Seq<usize>) -> Seq<EntityId> {
    Seq::new(v.len(), |k: int| v[k] as EntityId)
}

/// The value at place `p` once `v` is sorted ascending.
pub open spec fn sorted_at(v: Seq<usize>, p: int) -> usize {
    v[choose|i: int| 0 <= i < v.len() && #[trigger] value_position(wide(v), i) == p]
}

/// The source row behind a loaded entity: its place in the loaded list of its
/// section, which for a grouped section selects among the section's source
/// indices in ascending order (groups may leave holes or repeat rows).
pub open spec fn original_index_of(doc: LoadedKmp, name: SectionName, e: EntityId) -> Option<usize> {
    match loaded_section(doc.signature.sections@, name) {
        None => None,
        Some(ents) => match place(ents, e) {
            None => None,
            Some(p) => match grouped_source(doc.source, name) {
                None => Some(p as usize),
                Some(idx) => if p < idx.len() {
                    Some(sorted_at(idx, p))
                } else {
                    None
                },
            },
        },
    }
}

/// The first loaded entity of `ents`, from `i` on, whose source row is `index`.
pub open spec fn source_entity_from(doc: LoadedKmp, name: SectionName, ents: Seq<EntityId>, index: usize, i: int) -> Option<EntityId>
    decreases ents.len() - i,
{
    if i < 0 || i >= ents.len() {
        None
    } else if original_index_of(doc, name, ents[i]) == Some(index) {
        Some(ents[i])
    } else {
        source_entity_from(doc, name, ents, index, i + 1)
    }
}

/// The loaded entity behind source row `index` of a section, if any.
pub open spec fn source_entity_of(doc: LoadedKmp, name: SectionName, index: usize) -> Option<EntityId> {
    match loaded_section(doc.signature.sections@, name) {
        None => None,
        Some(ents) => source_entity_from(doc, name, ents, index, 0),
    }
}

fn find_loaded_section(sections: &Vec<SectionEntities>, name: SectionName) -> (r: Option<usize>)
    ensures
        r matches Some(i) ==> i < sections@.len() && loaded_section(sections@, name) == Some(sections@[i as int].entities@),
        r is None ==> loaded_section(sections@, name) is None,
{
    let mut i: usize = 0;
    while i < sections.len()
        invariant
            i <= sections@.len(),
            loaded_section(sections@, name) == loaded_section_from(sections@, name, i as int),
        decreases sections@.len() - i,
    {
        if sections[i].name == name {
            return Some(i);
        }
        i += 1;
    }
    None
}

/// The first place of `e` in `v`.
pub fn find_place(v: &Vec<EntityId>, e: EntityId) -> (r: Option<usize>)
    ensures
        r matches Some(i) ==> place(v@, e) == Some(i as int) && i < v@.len(),
        r is None ==> place(v@, e) is None,
{
    let mut i: usize = 0;
    while i < v.len()
        invariant
            i <= v@.len(),
            place(v@, e) == place_from(v@, e, i as int),
        decreases v@.len() - i,
    {
        if v[i] == e {
            return Some(i);
        }
        i += 1;
    }
    None
}

fn widen(v: &Vec<usize>) -> (r: Vec<EntityId>)
    ensures
        r@ == wide(v@),
{
    let mut r: Vec<EntityId> = Vec::new();
    let mut i: usize = 0;
    while i < v.len()
        invariant
            i <= v@.len(),
            r@ == wide(v@).subrange(0, i as int),
        decreases v@.len() - i,
    {
        r.push(v[i] as EntityId);
        i += 1;
    }
    proof {
        assert(r@ =~= wide(v@));
    }
    r
}

impl LoadedKmp {
    /// The source row behind a loaded entity. Editor order ids can change
    /// after deletions, so references are remapped through the list frozen at
    /// load time; in a grouped section the rows are the section's source
    /// indices in ascending order, which may have holes or repeats.
    pub fn original_index(&self, section: SectionName, entity: EntityId) -> (r: Option<usize>)
        ensures
            r == original_index_of(*self, section, entity),
    {
        let si = match find_loaded_section(&self.signature.sections, section) {
            None => return None,
            Some(i) => i,
        };
        let position = match find_place(&self.signature.sections[si].entities, entity) {
            None => return None,
            Some(p) => p,
        };
        let indices = match section {
            SectionName::EnemyPathPoint => source_indices(&self.source.enph, self.source.enpt_count),
            SectionName::ItemPathPoint => source_indices(&self.source.itph, self.source.itpt_count),
            SectionName::Checkpoint => source_indices(&self.source.ckph, self.source.ckpt_count),
            _ => return Some(position),
        };
        let ghost idx = indices@;
        proof {
            assert(grouped_source(self.source, section) == Some(idx));
        }
        if position >= indices.len() {
            return None;
        }
        let ids = widen(&indices);
        let sorted = sorted_ids(&ids);
        proof {
            lemma_value_order(ids@);
            lemma_ranks_onto(value_lt(ids@), ids@.len() as int, position as int);
            let i = choose|i: int| 0 <= i < idx.len() && #[trigger] value_position(wide(idx), i) == position as int;
            assert(sorted@[position as int] == ids@[i]);
            assert(ids@[i] == idx[i] as EntityId);
            assert(sorted_at(idx, position as int) == idx[i]);
        }
        Some(sorted[position] as usize)
    }

    /// The loaded entity behind source row `index` of a section: the first
    /// entity of the section's loaded list whose source row it is. A source
    /// row that no entity represents gives `None`.
    pub fn source_entity(&self, section: SectionName, index: usize) -> (r: Option<EntityId>)
        ensures
            r == source_entity_of(*self, section, index),
    {
        let si = match find_loaded_section(&self.signature.sections, section) {
            None => return None,
            Some(i) => i,
        };
        let ents = &self.signature.sections[si].entities;
        let mut i: usize = 0;
        while i < ents.len()
            invariant
                i <= ents@.len(),
                loaded_section(self.signature.sections@, section) == Some(ents@),
                source_entity_of(*self, section, index) == source_entity_from(*self, section, ents@, index, i as int),
            decreases ents@.len() - i,
        {
            let e = ents[i];
            match self.original_index(section, e) {
                Some(k) => if k == index {
                    return Some(e);
                },
                None => {},
            }
            i += 1;
        }
        None
    }
}

/// The entity that `e` links to, the first listed for it.
pub open spec fn link_of(v: Seq<(EntityId, EntityId)>, e: EntityId, i: int) -> Option<EntityId>
    decreases v.len() - i,
{
    if i < 0 || i >= v.len() {
        None
    } else if v[i].0 == e {
        Some(v[i].1)
    } else {
        link_of(v, e, i + 1)
    }
}

/// The source id of `e`, the first listed for it.
pub open spec fn id_of(v: Seq<(EntityId, u32)>, e: EntityId, i: int) -> Option<u32>
    decreases v.len() - i,
{
    if i < 0 || i >= v.len() {
        None
    } else if v[i].0 == e {
        Some(v[i].1)
    } else {
        id_of(v, e, i + 1)
    }
}

/// The first refusal that `check` gives among the first `upto` items.
pub open spec fn first_failure<T>(items: Seq<T>, check: spec_fn(T) -> Option<KmpError>, upto: int) -> Option<KmpError>
    decreases upto,
{
    if upto <= 0 {
        None
    } else {
        match first_failure(items, check, upto - 1) {
            Some(e) => Some(e),
            None => check(items[upto - 1]),
        }
    }
}

proof fn lemma_first_failure_stays<T>(items: Seq<T>, check: spec_fn(T) -> Option<KmpError>, k: int, m: int)
    requires
        0 <= k <= m,
        first_failure(items, check, k) is Some,
    ensures
        first_failure(items, check, m) == first_failure(items, check, k),
    decreases m - k,
{
    if k < m {
        lemma_first_failure_stays(items, check, k, m - 1);
    }
}

/// Route ids of objects use 16 bits; those of areas and cameras 8 bits, with
/// the all-ones value meaning no route.
pub open spec fn route_id_fits(objects: Seq<EntityId>, e: EntityId, id: u32) -> bool {
    id < if objects.contains(e) {
        65535u32
    } else {
        255u32
    }
}

/// A loaded route link that no longer holds must have an original route id
/// within its section's range.
pub open spec fn loaded_route_error(links: LoadedLinks, current: Seq<(EntityId, EntityId)>, objects: Seq<EntityId>, x: (EntityId, EntityId)) -> Option<KmpError> {
    if link_of(current, x.0, 0) != Some(x.1) && !(id_of(links.route_ids@, x.1, 0) matches Some(id) && route_id_fits(objects, x.0, id)) {
        Some(KmpError::RouteLinkOriginalOutOfRange)
    } else {
        None
    }
}

/// A loaded respawn link must still exist, and one that changed must have an
/// original id within 8 bits.
pub open spec fn loaded_respawn_error(links: LoadedLinks, current: Seq<(EntityId, EntityId)>, x: (EntityId, EntityId)) -> Option<KmpError> {
    if link_of(current, x.0, 0) is None {
        Some(KmpError::RespawnLinkRemoved)
    } else if link_of(current, x.0, 0) != Some(x.1) && !(id_of(links.respawn_ids@, x.1, 0) matches Some(id) && id <= 255) {
        Some(KmpError::RespawnLinkOriginalOutOfRange)
    } else {
        None
    }
}

/// A new or changed route link must target a known route within its
/// section's range.
pub open spec fn current_route_error(links: LoadedLinks, objects: Seq<EntityId>, x: (EntityId, EntityId)) -> Option<KmpError> {
    if link_of(links.route_links@, x.0, 0) != Some(x.1) {
        match id_of(links.route_ids@, x.1, 0) {
            None => Some(KmpError::RouteLinkUnknownTarget),
            Some(id) => if route_id_fits(objects, x.0, id) {
                None
            } else {
                Some(KmpError::RouteLinkTargetOutOfRange(id))
            },
        }
    } else {
        None
    }
}

/// A new or changed respawn link must target a known point within 8 bits.
pub open spec fn current_respawn_error(links: LoadedLinks, x: (EntityId, EntityId)) -> Option<KmpError> {
    if link_of(links.respawn_links@, x.0, 0) != Some(x.1) {
        match id_of(links.respawn_ids@, x.1, 0) {
            None => Some(KmpError::RespawnLinkUnknownTarget),
            Some(id) => if id <= 255 {
                None
            } else {
                Some(KmpError::RespawnLinkTargetOutOfRange(id))
            },
        }
    } else {
        None
    }
}

/// The outcome of checking links before field-only saving: the loaded route
/// links, the loaded respawn links, the current route links and the current
/// respawn links are checked in turn, each list in its order.
pub open spec fn links_validation(
    links: LoadedLinks,
    route: Seq<(EntityId, EntityId)>,
    respawn: Seq<(EntityId, EntityId)>,
    objects: Seq<EntityId>,
) -> Result<(), KmpError> {
    let c1 = |x: (EntityId, EntityId)| loaded_route_error(links, route, objects, x);
    let c2 = |x: (EntityId, EntityId)| loaded_respawn_error(links, respawn, x);
    let c3 = |x: (EntityId, EntityId)| current_route_error(links, objects, x);
    let c4 = |x: (EntityId, EntityId)| current_respawn_error(links, x);
    match first_failure(links.route_links@, c1, links.route_links@.len() as int) {
        Some(e) => Err(e),
        None => match first_failure(links.respawn_links@, c2, links.respawn_links@.len() as int) {
            Some(e) => Err(e),
            None => match first_failure(route, c3, route.len() as int) {
                Some(e) => Err(e),
                None => match first_failure(respawn, c4, respawn.len() as int) {
                    Some(e) => Err(e),
                    None => Ok(()),
                },
            },
        },
    }
}

fn find_link(v: &Vec<(EntityId, EntityId)>, e: EntityId) -> (r: Option<EntityId>)
    ensures
        r == link_of(v@, e, 0),
{
    let mut i: usize = 0;
    while i < v.len()
        invariant
            i <= v@.len(),
            link_of(v@, e, 0) == link_of(v@, e, i as int),
        decreases v@.len() - i,
    {
        if v[i].0 == e {
            return Some(v[i].1);
        }
        i += 1;
    }
    None
}

/// The source id of `e`, the first listed for it.
pub fn find_id(v: &Vec<(EntityId, u32)>, e: EntityId) -> (r: Option<u32>)
    ensures
        r == id_of(v@, e, 0),
{
    let mut i: usize = 0;
    while i < v.len()
        invariant
            i <= v@.len(),
            id_of(v@, e, 0) == id_of(v@, e, i as int),
        decreases v@.len() - i,
    {
        if v[i].0 == e {
            return Some(v[i].1);
        }
        i += 1;
    }
    None
}

fn same_link(a: Option<EntityId>, b: EntityId) -> (r: bool)
    ensures
        r == (a == Some(b)),
{
    match a {
        Some(x) => x == b,
        None => false,
    }
}

fn route_fits(objects: &Vec<EntityId>, e: EntityId, id: u32) -> (r: bool)
    ensures
        r == route_id_fits(objects@, e, id),
{
    let mut i: usize = 0;
    let mut object = false;
    while i < objects.len()
        invariant
            i <= objects@.len(),
            object == objects@.subrange(0, i as int).contains(e),
        decreases objects@.len() - i,
    {
        proof {
            let s0 = objects@.subrange(0, i as int);
            let s1 = objects@.subrange(0, i as int + 1);
            assert(s1 == s0.push(objects@[i as int]));
            assert(s1.contains(e) <==> s0.contains(e) || objects@[i as int] == e) by {
                if s1.contains(e) && objects@[i as int] != e {
                    let q = choose|q: int| 0 <= q < s1.len() && s1[q] == e;
                    assert(s0[q] == e);
                }
                if s0.contains(e) {
                    let q = choose|q: int| 0 <= q < s0.len() && s0[q] == e;
                    assert(s1[q] == e);
                }
                if objects@[i as int] == e {
                    assert(s1[i as int] == e);
                }
            }
        }
        if objects[i] == e {
            object = true;
        }
        i += 1;
    }
    proof {
        assert(objects@.subrange(0, objects@.len() as int) == objects@);
    }
    if object {
        id < 65535
    } else {
        id < 255
    }
}

impl LoadedKmp {
    /// Check route and respawn links before field-only saving, so that no
    /// reference is narrowed: objects store 16-bit route ids, areas and
    /// cameras 8-bit ones (all ones meaning no route), respawn ids use the
    /// full byte. An unchanged reference is kept as it is, but changing one
    /// needs its old and new targets to be representable. `route` and
    /// `respawn` list the current links (entity, target); `objects` the
    /// entities that are objects. See [`links_validation`].
    /// What a field-only save checks before it exports anything, in this
    /// order: the structure is unchanged (`validate` against the `current`
    /// capture); every recorded point still has its transform and order id
    /// (`incomplete` names the first section where one lacks them); every
    /// recorded path point still has its path node (`nodes_kept`); and the
    /// route and respawn links pass `validate_links`. A refusal comes before
    /// any byte is written.
    pub fn check_field_save(
        &self,
        current: &StructuralSignature,
        incomplete: Option<SectionName>,
        nodes_kept: bool,
        route: &Vec<(EntityId, EntityId)>,
        respawn: &Vec<(EntityId, EntityId)>,
        objects: &Vec<EntityId>,
    ) -> (r: Result<(), KmpError>)
        ensures
            r == match validation(self.signature, *current) {
                Err(e) => Err(e),
                Ok(()) => match incomplete {
                    Some(s) => Err(KmpError::IncompletePoint(s)),
                    None => if !nodes_kept {
                        Err(KmpError::PathNodeRemoved)
                    } else {
                        links_validation(self.links, route@, respawn@, objects@)
                    },
                },
            },
    {
        match self.signature.validate(current) {
            Err(e) => return Err(e),
            Ok(()) => {},
        }
        match incomplete {
            Some(s) => return Err(KmpError::IncompletePoint(s)),
            None => {},
        }
        if !nodes_kept {
            return Err(KmpError::PathNodeRemoved);
        }
        self.validate_links(route, respawn, objects)
    }

    #[verifier::loop_isolation(false)]
    pub fn validate_links(
        &self,
        route: &Vec<(EntityId, EntityId)>,
        respawn: &Vec<(EntityId, EntityId)>,
        objects: &Vec<EntityId>,
    ) -> (r: Result<(), KmpError>)
        ensures
            r == links_validation(self.links, route@, respawn@, objects@),
    {
        let ghost links = self.links;
        let ghost c1 = |x: (EntityId, EntityId)| loaded_route_error(links, route@, objects@, x);
        let ghost c2 = |x: (EntityId, EntityId)| loaded_respawn_error(links, respawn@, x);
        let ghost c3 = |x: (EntityId, EntityId)| current_route_error(links, objects@, x);
        let ghost c4 = |x: (EntityId, EntityId)| current_respawn_error(links, x);
        let v1 = &self.links.route_links;
        let mut i: usize = 0;
        while i < v1.len()
            invariant
                i <= v1@.len(),
                first_failure(v1@, c1, i as int) is None,
            decreases v1@.len() - i,
        {
            let (e, target) = v1[i];
            let changed = !same_link(find_link(route, e), target);
            let ok = match find_id(&self.links.route_ids, target) {
                Some(id) => route_fits(objects, e, id),
                None => false,
            };
            if changed && !ok {
                proof {
                    assert(first_failure(v1@, c1, i + 1) == Some(KmpError::RouteLinkOriginalOutOfRange));
                    lemma_first_failure_stays(v1@, c1, i + 1, v1@.len() as int);
                }
                return Err(KmpError::RouteLinkOriginalOutOfRange);
            }
            assert(first_failure(v1@, c1, i + 1) is None);
            i += 1;
        }
        let v2 = &self.links.respawn_links;
        let mut i: usize = 0;
        while i < v2.len()
            invariant
                i <= v2@.len(),
                first_failure(v1@, c1, v1@.len() as int) is None,
                first_failure(v2@, c2, i as int) is None,
            decreases v2@.len() - i,
        {
            let (e, target) = v2[i];
            let cur = find_link(respawn, e);
            if cur.is_none() {
                proof {
                    assert(first_failure(v2@, c2, i + 1) == Some(KmpError::RespawnLinkRemoved));
                    lemma_first_failure_stays(v2@, c2, i + 1, v2@.len() as int);
                }
                return Err(KmpError::RespawnLinkRemoved);
            }
            let changed = !same_link(cur, target);
            let ok = match find_id(&self.links.respawn_ids, target) {
                Some(id) => id <= 255,
                None => false,
            };
            if changed && !ok {
                proof {
                    assert(first_failure(v2@, c2, i + 1) == Some(KmpError::RespawnLinkOriginalOutOfRange));
                    lemma_first_failure_stays(v2@, c2, i + 1, v2@.len() as int);
                }
                return Err(KmpError::RespawnLinkOriginalOutOfRange);
            }
            assert(first_failure(v2@, c2, i + 1) is None);
            i += 1;
        }
        let mut i: usize = 0;
        while i < route.len()
            invariant
                i <= route@.len(),
                first_failure(v1@, c1, v1@.len() as int) is None,
                first_failure(v2@, c2, v2@.len() as int) is None,
                first_failure(route@, c3, i as int) is None,
            decreases route@.len() - i,
        {
            let (e, target) = route[i];
            if !same_link(find_link(&self.links.route_links, e), target) {
                let bad = match find_id(&self.links.route_ids, target) {
                    None => Some(KmpError::RouteLinkUnknownTarget),
                    Some(id) => if route_fits(objects, e, id) {
                        None
                    } else {
                        Some(KmpError::RouteLinkTargetOutOfRange(id))
                    },
                };
                proof {
                    assert(first_failure(route@, c3, i + 1) == bad);
                }
                match bad {
                    Some(x) => {
                        proof {
                            lemma_first_failure_stays(route@, c3, i + 1, route@.len() as int);
                        }
                        return Err(x);
                    },
                    None => {},
                }
            }
            assert(first_failure(route@, c3, i + 1) is None);
            i += 1;
        }
        let mut i: usize = 0;
        while i < respawn.len()
            invariant
                i <= respawn@.len(),
                first_failure(v1@, c1, v1@.len() as int) is None,
                first_failure(v2@, c2, v2@.len() as int) is None,
                first_failure(route@, c3, route@.len() as int) is None,
                first_failure(respawn@, c4, i as int) is None,
            decreases respawn@.len() - i,
        {
            let (e, target) = respawn[i];
            if !same_link(find_link(&self.links.respawn_links, e), target) {
                let bad = match find_id(&self.links.respawn_ids, target) {
                    None => Some(KmpError::RespawnLinkUnknownTarget),
                    Some(id) => if id <= 255 {
                        None
                    } else {
                        Some(KmpError::RespawnLinkTargetOutOfRange(id))
                    },
                };
                proof {
                    assert(first_failure(respawn@, c4, i + 1) == bad);
                }
                match bad {
                    Some(x) => {
                        proof {
                            lemma_first_failure_stays(respawn@, c4, i + 1, respawn@.len() as int);
                        }
                        return Err(x);
                    },
                    None => {},
                }
            }
            assert(first_failure(respawn@, c4, i + 1) is None);
            i += 1;
        }
        Ok(())
    }
}

} // verus!
