//! What a rebuild checks and resolves before it converts records: the order
//! of each section's points, numeric references between sections, route and
//! checkpoint links, and the camera section header.
use vstd::prelude::*;
use crate::document::{find_id, find_place, id_of, place, source_entity_of, LoadedKmp, SectionName};
use crate::error::KmpError;
use crate::graph::{EntityId, EntryView, PathGraph, find_entry, has, node};
use crate::ordering::{count_below, lemma_total_order_ranks};
use crate::records::{CheckpointKind, RouteLoopStyle, RouteSettings};

verus! {

broadcast use vstd::std_specs::vec::group_vec_axioms;

/// Whether a point's transform is usable: all of its numbers are finite, and
/// its rotation is a unit quaternion.
#[derive(Debug, Clone, Copy)]
pub struct TransformCheck {
    pub finite: bool,
    pub rotation_normalized: bool,
}

/// A point of a section as the rebuild reads it: its entity, its order id and
/// the state of its transform, each if present.
#[derive(Debug, Clone, Copy)]
pub struct RebuildPoint {
    pub entity: EntityId,
    pub order: Option<u32>,
    pub transform: Option<TransformCheck>,
}

/// Why a point cannot be exported, if it cannot.
pub open spec fn point_error(p: RebuildPoint) -> Option<KmpError> {
    match p.order {
        None => Some(KmpError::MissingOrderId),
        Some(_) => match p.transform {
            None => Some(KmpError::MissingTransform),
            Some(t) => if !t.finite {
                Some(KmpError::NonFiniteTransform)
            } else if !t.rotation_normalized {
                Some(KmpError::InvalidRotation)
            } else {
                None
            },
        },
    }
}

/// The first refusal among the first `upto` points.
pub open spec fn points_error(ps: Seq<RebuildPoint>, upto: int) -> Option<KmpError>
    decreases upto,
{
    if upto <= 0 {
        None
    } else {
        match points_error(ps, upto - 1) {
            Some(e) => Some(e),
            None => point_error(ps[upto - 1]),
        }
    }
}

/// Export order: by order id, then by entity, then by place in the list.
pub open spec fn export_lt(ps: Seq<RebuildPoint>) -> spec_fn(int, int) -> bool {
    |j: int, i: int|
        {
            let (oj, oi) = (ps[j].order->Some_0, ps[i].order->Some_0);
            oj < oi || (oj == oi && (ps[j].entity < ps[i].entity || (ps[j].entity == ps[i].entity && j < i)))
        }
}

/// The place of point `i` in export order.
pub open spec fn export_position(ps: Seq<RebuildPoint>, i: int) -> nat {
    count_below(export_lt(ps), i, ps.len() as int)
}

/// `v` lists the points' entities in export order.
pub open spec fn in_export_order(ps: Seq<RebuildPoint>, v: Seq<EntityId>) -> bool {
    &&& v.len() == ps.len()
    &&& forall|i: int| 0 <= i < ps.len() ==> v[export_position(ps, i) as int] == ps[i].entity
}

proof fn lemma_export_order(ps: Seq<RebuildPoint>)
    ensures
        forall|i: int| 0 <= i < ps.len() ==> #[trigger] export_position(ps, i) < ps.len(),
        forall|i: int, j: int|
            0 <= i < ps.len() && 0 <= j < ps.len() && i != j ==> #[trigger] export_position(ps, i)
                != #[trigger] export_position(ps, j),
{
    let n = ps.len() as int;
    assert forall|a: int, b: int, c: int|
        0 <= a < n && 0 <= b < n && 0 <= c < n && #[trigger] export_lt(ps)(a, b) && #[trigger] export_lt(ps)(b, c) implies export_lt(
        ps,
    )(a, c) by {}
    assert forall|a: int, b: int| 0 <= a < n && 0 <= b < n && a != b implies #[trigger] export_lt(ps)(a, b)
        || export_lt(ps)(b, a) by {}
    lemma_total_order_ranks(export_lt(ps), n);
}

/// The points of a section in export order: by order id, then by entity.
/// Refused when a point lacks its order id or transform, when a transform is
/// not finite or its rotation not normalized (the first such point in list
/// order decides), or when there are more than 65535 points.
#[verifier::loop_isolation(false)]
pub fn ordered(points: &Vec<RebuildPoint>) -> (r: Result<Vec<EntityId>, KmpError>)
    ensures
        points_error(points@, points@.len() as int) matches Some(e) ==> r == Err::<Vec<EntityId>, KmpError>(e),
        points_error(points@, points@.len() as int) is None && points@.len() > 65535 ==> r
            == Err::<Vec<EntityId>, KmpError>(KmpError::TooManyPoints),
        points_error(points@, points@.len() as int) is None && points@.len() <= 65535 ==> r is Ok,
        r matches Ok(v) ==> in_export_order(points@, v@),
{
    let ghost s = points@;
    let n = points.len();
    let mut i: usize = 0;
    while i < n
        invariant
            s == points@,
            n == s.len(),
            i <= n,
            points_error(s, i as int) is None,
        decreases n - i,
    {
        let p = points[i];
        proof {
            assert(points_error(s, i + 1) == point_error(s[i as int]));
            if point_error(s[i as int]) is Some {
                lemma_points_error_stays(s, i + 1, n as int);
            }
        }
        match p.order {
            None => return Err(KmpError::MissingOrderId),
            Some(_) => {},
        }
        match p.transform {
            None => return Err(KmpError::MissingTransform),
            Some(t) => {
                if !t.finite {
                    return Err(KmpError::NonFiniteTransform);
                }
                if !t.rotation_normalized {
                    return Err(KmpError::InvalidRotation);
                }
            },
        }
        i += 1;
    }
    if n > 65535 {
        return Err(KmpError::TooManyPoints);
    }
    proof {
        assert forall|k: int| 0 <= k < n implies #[trigger] s[k].order is Some by {
            lemma_points_error(s, k, n as int);
        }
    }
    let mut r: Vec<EntityId> = Vec::new();
    while r.len() < n
        invariant
            r@.len() <= n,
        decreases n - r@.len(),
    {
        r.push(0);
    }
    proof {
        lemma_export_order(s);
    }
    let mut i: usize = 0;
    while i < n
        invariant
            s == points@,
            n == s.len(),
            r@.len() == n,
            i <= n,
            forall|k: int| 0 <= k < n ==> #[trigger] s[k].order is Some,
            forall|k: int| 0 <= k < s.len() ==> #[trigger] export_position(s, k) < s.len(),
            forall|a: int, b: int|
                0 <= a < s.len() && 0 <= b < s.len() && a != b ==> #[trigger] export_position(s, a)
                    != #[trigger] export_position(s, b),
            forall|k: int| 0 <= k < i ==> r@[export_position(s, k) as int] == s[k].entity,
        decreases n - i,
    {
        let oi = points[i].order.unwrap();
        let ei = points[i].entity;
        let mut count: usize = 0;
        let mut j: usize = 0;
        while j < n
            invariant
                s == points@,
                n == s.len(),
                i < n,
                j <= n,
                oi == s[i as int].order->Some_0,
                ei == s[i as int].entity,
                count == count_below(export_lt(s), i as int, j as int),
                count <= j,
            decreases n - j,
        {
            let oj = points[j].order.unwrap();
            let ej = points[j].entity;
            if oj < oi || (oj == oi && (ej < ei || (ej == ei && j < i))) {
                count = count + 1;
            }
            j += 1;
        }
        assert(count == export_position(s, i as int));
        r.set(count, ei);
        proof {
            assert forall|k: int| 0 <= k < i + 1 implies r@[export_position(s, k) as int] == s[k].entity by {
                if k < i {
                    assert(export_position(s, k) != export_position(s, i as int));
                }
            }
        }
        i += 1;
    }
    Ok(r)
}

proof fn lemma_points_error_stays(ps: Seq<RebuildPoint>, k: int, m: int)
    requires
        0 <= k <= m,
        points_error(ps, k) is Some,
    ensures
        points_error(ps, m) == points_error(ps, k),
    decreases m - k,
{
    if k < m {
        lemma_points_error_stays(ps, k, m - 1);
    }
}

proof fn lemma_points_error(ps: Seq<RebuildPoint>, k: int, upto: int)
    requires
        0 <= k < upto <= ps.len(),
        points_error(ps, upto) is None,
    ensures
        point_error(ps[k]) is None,
    decreases upto,
{
    if k < upto - 1 {
        lemma_points_error(ps, k, upto - 1);
    }
}

/// Where a numeric reference into `section` points after a rebuild.
/// 255 means no target. An edited number must name a current row; an
/// unchanged one (equal to the loaded `baseline`) follows the source row
/// `original` to the same entity, even if that entity moved. The target's
/// place in `final_order` is the new number; a target that has no place is
/// written as 255 when the reference is optional and refused otherwise.
pub open spec fn raw_target_of(
    value: u8,
    baseline: Option<u8>,
    original: Option<u8>,
    source: LoadedKmp,
    section: SectionName,
    current: Seq<EntityId>,
    final_order: Seq<EntityId>,
    optional: bool,
) -> Result<u8, KmpError> {
    if value == 255 {
        Ok(255)
    } else if !(baseline == Some(value) || value < current.len()) {
        Err(KmpError::EditedIndexMissing(section, value))
    } else {
        let target = if baseline == Some(value) {
            match original {
                Some(i) => source_entity_of(source, section, i as usize),
                None => None,
            }
        } else {
            Some(current[value as int])
        };
        match match target {
            Some(e) => place(final_order, e),
            None => None,
        } {
            Some(i) => if i < 255 {
                Ok(i as u8)
            } else {
                Err(KmpError::ReferenceOutOfRange(section))
            },
            None => if optional {
                Ok(255)
            } else {
                Err(KmpError::ReferenceUnavailable(section))
            },
        }
    }
}

/// Resolve a numeric reference for a rebuild; see [`raw_target_of`].
pub fn raw_target(
    value: u8,
    baseline: Option<u8>,
    original: Option<u8>,
    source: &LoadedKmp,
    section: SectionName,
    current: &Vec<EntityId>,
    final_order: &Vec<EntityId>,
    optional: bool,
) -> (r: Result<u8, KmpError>)
    ensures
        r == raw_target_of(value, baseline, original, *source, section, current@, final_order@, optional),
{
    if value == 255 {
        return Ok(255);
    }
    let unchanged = match baseline {
        Some(b) => b == value,
        None => false,
    };
    if !(unchanged || (value as usize) < current.len()) {
        return Err(KmpError::EditedIndexMissing(section, value));
    }
    let target = if unchanged {
        match original {
            Some(i) => source.source_entity(section, i as usize),
            None => None,
        }
    } else {
        Some(current[value as usize])
    };
    let index = match target {
        Some(e) => find_place(final_order, e),
        None => None,
    };
    match index {
        Some(i) => if i < 255 {
            Ok(i as u8)
        } else {
            Err(KmpError::ReferenceOutOfRange(section))
        },
        None => if optional {
            Ok(255)
        } else {
            Err(KmpError::ReferenceUnavailable(section))
        },
    }
}

/// The settings that a route point carries, the first listed for it.
pub open spec fn settings_of(settings: Seq<(EntityId, RouteSettings)>, e: EntityId, i: int) -> Option<RouteSettings>
    decreases settings.len() - i,
{
    if i < 0 || i >= settings.len() {
        None
    } else if settings[i].0 == e {
        Some(settings[i].1)
    } else {
        settings_of(settings, e, i + 1)
    }
}

/// The settings of the first member of `group`, from `i` on, that carries any.
pub open spec fn group_settings(group: Seq<EntityId>, settings: Seq<(EntityId, RouteSettings)>, i: int) -> Option<RouteSettings>
    decreases group.len() - i,
{
    if i < 0 || i >= group.len() {
        None
    } else {
        match settings_of(settings, group[i], 0) {
            Some(s) => Some(s),
            None => group_settings(group, settings, i + 1),
        }
    }
}

fn find_settings(settings: &Vec<(EntityId, RouteSettings)>, e: EntityId) -> (r: Option<RouteSettings>)
    ensures
        r == settings_of(settings@, e, 0),
{
    let mut i: usize = 0;
    while i < settings.len()
        invariant
            i <= settings@.len(),
            settings_of(settings@, e, 0) == settings_of(settings@, e, i as int),
        decreases settings@.len() - i,
    {
        if settings[i].0 == e {
            return Some(settings[i].1);
        }
        i += 1;
    }
    None
}

/// The settings a rebuilt route gets: those of its first point that carries
/// settings (the chain start if it still does), else the default of a new
/// route (no smoothing, cyclic).
pub fn route_settings(group: &Vec<EntityId>, settings: &Vec<(EntityId, RouteSettings)>) -> (r: RouteSettings)
    ensures
        r == match group_settings(group@, settings@, 0) {
            Some(s) => s,
            None => RouteSettings { smooth_motion: false, loop_style: RouteLoopStyle::Cyclic },
        },
{
    let mut i: usize = 0;
    while i < group.len()
        invariant
            i <= group@.len(),
            group_settings(group@, settings@, 0) == group_settings(group@, settings@, i as int),
        decreases group@.len() - i,
    {
        match find_settings(settings, group[i]) {
            Some(s) => return s,
            None => {},
        }
        i += 1;
    }
    RouteSettings::default()
}

/// The route a point belongs to: the first group that lists it.
pub open spec fn route_of(groups: Seq<Seq<EntityId>>, e: EntityId, i: int) -> Option<int>
    decreases groups.len() - i,
{
    if i < 0 || i >= groups.len() {
        None
    } else if groups[i].contains(e) {
        Some(i)
    } else {
        route_of(groups, e, i + 1)
    }
}

/// A route link of an object, area or camera: the linking entity, the route
/// point it names, and whether the entity is an object (objects store 16-bit
/// route ids, areas and cameras 8-bit ones).
#[derive(Debug, Clone, Copy)]
pub struct RouteReference {
    pub entity: EntityId,
    pub target: EntityId,
    pub object: bool,
}

/// Why a route link cannot be written, if it cannot.
pub open spec fn route_reference_error(groups: Seq<Seq<EntityId>>, r: RouteReference) -> Option<KmpError> {
    match route_of(groups, r.target, 0) {
        None => Some(KmpError::RouteTargetDeleted),
        Some(id) => if id < (if r.object {
            65535int
        } else {
            255int
        }) {
            None
        } else {
            Some(KmpError::RouteReferenceOutOfRange)
        },
    }
}

/// The first refusal among the first `upto` route links.
pub open spec fn route_references_error(groups: Seq<Seq<EntityId>>, refs: Seq<RouteReference>, upto: int) -> Option<KmpError>
    decreases upto,
{
    if upto <= 0 {
        None
    } else {
        match route_references_error(groups, refs, upto - 1) {
            Some(e) => Some(e),
            None => route_reference_error(groups, refs[upto - 1]),
        }
    }
}

/// Groups as entity sequences.
pub open spec fn group_seqs(groups: Seq<Vec<EntityId>>) -> Seq<Seq<EntityId>> {
    Seq::new(groups.len(), |i: int| groups[i]@)
}

fn list_has(v: &Vec<EntityId>, e: EntityId) -> (r: bool)
    ensures
        r == v@.contains(e),
{
    let mut i: usize = 0;
    while i < v.len()
        invariant
            i <= v@.len(),
            forall|k: int| 0 <= k < i ==> v@[k] != e,
        decreases v@.len() - i,
    {
        if v[i] == e {
            return true;
        }
        i += 1;
    }
    false
}

/// The route (group) a route point belongs to in a rebuild plan.
pub fn find_route(groups: &Vec<Vec<EntityId>>, e: EntityId) -> (r: Option<usize>)
    ensures
        r matches Some(i) ==> route_of(group_seqs(groups@), e, 0) == Some(i as int),
        r is None ==> route_of(group_seqs(groups@), e, 0) is None,
{
    let ghost gs = group_seqs(groups@);
    let mut i: usize = 0;
    while i < groups.len()
        invariant
            gs == group_seqs(groups@),
            i <= groups@.len(),
            route_of(gs, e, 0) == route_of(gs, e, i as int),
        decreases groups@.len() - i,
    {
        if list_has(&groups[i], e) {
            return Some(i);
        }
        i += 1;
    }
    None
}

/// Every route link of objects, areas and cameras names a rebuilt route
/// whose id fits the linking section's width; otherwise the first link that
/// does not is refused.
pub fn check_route_references(refs: &Vec<RouteReference>, groups: &Vec<Vec<EntityId>>) -> (r: Result<(), KmpError>)
    ensures
        r == match route_references_error(group_seqs(groups@), refs@, refs@.len() as int) {
            Some(e) => Err(e),
            None => Ok::<(), KmpError>(()),
        },
{
    let ghost gs = group_seqs(groups@);
    let mut i: usize = 0;
    while i < refs.len()
        invariant
            gs == group_seqs(groups@),
            i <= refs@.len(),
            route_references_error(gs, refs@, i as int) is None,
        decreases refs@.len() - i,
    {
        let rf = refs[i];
        let bad = match find_route(groups, rf.target) {
            None => Some(KmpError::RouteTargetDeleted),
            Some(id) => if id < (if rf.object { 65535 } else { 255 }) {
                None
            } else {
                Some(KmpError::RouteReferenceOutOfRange)
            },
        };
        proof {
            assert(bad == route_reference_error(gs, refs@[i as int]));
            assert(route_references_error(gs, refs@, i + 1) == bad);
        }
        match bad {
            Some(e) => {
                proof {
                    lemma_route_errors_stay(gs, refs@, i + 1, refs@.len() as int);
                }
                return Err(e);
            },
            None => {},
        }
        i += 1;
    }
    Ok(())
}

proof fn lemma_route_errors_stay(groups: Seq<Seq<EntityId>>, refs: Seq<RouteReference>, k: int, m: int)
    requires
        0 <= k <= m,
        route_references_error(groups, refs, k) is Some,
    ensures
        route_references_error(groups, refs, m) == route_references_error(groups, refs, k),
    decreases m - k,
{
    if k < m {
        lemma_route_errors_stay(groups, refs, k, m - 1);
    }
}

/// A checkpoint as the rebuild reads it: its entity, the right side it names,
/// whether that right side has a transform and whether it is finite, its
/// respawn target and its kind.
#[derive(Debug, Clone, Copy)]
pub struct CheckpointFacts {
    pub entity: EntityId,
    pub pair_right: Option<EntityId>,
    pub right_transform_finite: Option<bool>,
    pub respawn: Option<EntityId>,
    pub kind: CheckpointKind,
}

/// The left side that a right side names, the first listed for it.
pub open spec fn left_of(rights: Seq<(EntityId, EntityId)>, right: EntityId, i: int) -> Option<EntityId>
    decreases rights.len() - i,
{
    if i < 0 || i >= rights.len() {
        None
    } else if rights[i].0 == right {
        Some(rights[i].1)
    } else {
        left_of(rights, right, i + 1)
    }
}

/// Why a checkpoint cannot be written, if it cannot: checked in turn are its
/// pair (present, not itself, named back by the right side), the right
/// side's transform, its respawn target (present, live, within 8 bits) and a
/// key id within 1 to 127.
pub open spec fn checkpoint_error(
    f: CheckpointFacts,
    rights: Seq<(EntityId, EntityId)>,
    respawns: Seq<EntityId>,
) -> Option<KmpError> {
    match f.pair_right {
        None => Some(KmpError::MissingCheckpointPair),
        Some(right) => if right == f.entity || left_of(rights, right, 0) != Some(f.entity) {
            Some(KmpError::CheckpointPairNotReciprocal)
        } else {
            match f.right_transform_finite {
                None => Some(KmpError::MissingCheckpointRightTransform),
                Some(false) => Some(KmpError::NonFiniteCheckpointRight),
                Some(true) => match f.respawn {
                    None => Some(KmpError::MissingRespawnLink),
                    Some(t) => match place(respawns, t) {
                        None => Some(KmpError::RespawnTargetDeleted),
                        Some(id) => if id > 255 {
                            Some(KmpError::RespawnOutOfRange)
                        } else {
                            match f.kind {
                                CheckpointKind::Key(k) => if 1 <= k <= 127 {
                                    None
                                } else {
                                    Some(KmpError::InvalidKeyId)
                                },
                                _ => None,
                            }
                        },
                    },
                },
            }
        },
    }
}

/// The first refusal among the first `upto` checkpoints.
pub open spec fn checkpoints_error(
    cps: Seq<CheckpointFacts>,
    rights: Seq<(EntityId, EntityId)>,
    respawns: Seq<EntityId>,
    upto: int,
) -> Option<KmpError>
    decreases upto,
{
    if upto <= 0 {
        None
    } else {
        match checkpoints_error(cps, rights, respawns, upto - 1) {
            Some(e) => Some(e),
            None => checkpoint_error(cps[upto - 1], rights, respawns),
        }
    }
}

proof fn lemma_checkpoint_errors_stay(
    cps: Seq<CheckpointFacts>,
    rights: Seq<(EntityId, EntityId)>,
    respawns: Seq<EntityId>,
    k: int,
    m: int,
)
    requires
        0 <= k <= m,
        checkpoints_error(cps, rights, respawns, k) is Some,
    ensures
        checkpoints_error(cps, rights, respawns, m) == checkpoints_error(cps, rights, respawns, k),
    decreases m - k,
{
    if k < m {
        lemma_checkpoint_errors_stay(cps, rights, respawns, k, m - 1);
    }
}

fn find_left(rights: &Vec<(EntityId, EntityId)>, right: EntityId) -> (r: Option<EntityId>)
    ensures
        r == left_of(rights@, right, 0),
{
    let mut i: usize = 0;
    while i < rights.len()
        invariant
            i <= rights@.len(),
            left_of(rights@, right, 0) == left_of(rights@, right, i as int),
        decreases rights@.len() - i,
    {
        if rights[i].0 == right {
            return Some(rights[i].1);
        }
        i += 1;
    }
    None
}

fn checkpoint_check(f: CheckpointFacts, rights: &Vec<(EntityId, EntityId)>, respawns: &Vec<EntityId>) -> (r: Option<KmpError>)
    ensures
        r == checkpoint_error(f, rights@, respawns@),
{
    let right = match f.pair_right {
        None => return Some(KmpError::MissingCheckpointPair),
        Some(right) => right,
    };
    let named_back = match find_left(rights, right) {
        Some(l) => l == f.entity,
        None => false,
    };
    if right == f.entity || !named_back {
        return Some(KmpError::CheckpointPairNotReciprocal);
    }
    match f.right_transform_finite {
        None => return Some(KmpError::MissingCheckpointRightTransform),
        Some(finite) => if !finite {
            return Some(KmpError::NonFiniteCheckpointRight);
        },
    }
    let target = match f.respawn {
        None => return Some(KmpError::MissingRespawnLink),
        Some(t) => t,
    };
    let id = match find_place(respawns, target) {
        None => return Some(KmpError::RespawnTargetDeleted),
        Some(id) => id,
    };
    if id > 255 {
        return Some(KmpError::RespawnOutOfRange);
    }
    match f.kind {
        CheckpointKind::Key(k) => if 1 <= k && k <= 127 {
            None
        } else {
            Some(KmpError::InvalidKeyId)
        },
        _ => None,
    }
}

/// Every checkpoint is written with a reciprocal pair, a usable right side,
/// a live respawn target within 8 bits and, for a key checkpoint, an id
/// within 1 to 127; otherwise the first checkpoint that fails is refused for
/// its first failing check. `rights` lists each right side with the left
/// side it names; `respawns` the respawn points in export order.
pub fn check_checkpoints(
    cps: &Vec<CheckpointFacts>,
    rights: &Vec<(EntityId, EntityId)>,
    respawns: &Vec<EntityId>,
) -> (r: Result<(), KmpError>)
    ensures
        r == match checkpoints_error(cps@, rights@, respawns@, cps@.len() as int) {
            Some(e) => Err(e),
            None => Ok::<(), KmpError>(()),
        },
{
    let mut i: usize = 0;
    while i < cps.len()
        invariant
            i <= cps@.len(),
            checkpoints_error(cps@, rights@, respawns@, i as int) is None,
        decreases cps@.len() - i,
    {
        let bad = checkpoint_check(cps[i], rights, respawns);
        proof {
            assert(checkpoints_error(cps@, rights@, respawns@, i + 1) == bad);
        }
        match bad {
            Some(e) => {
                proof {
                    lemma_checkpoint_errors_stay(cps@, rights@, respawns@, i + 1, cps@.len() as int);
                }
                return Err(e);
            },
            None => {},
        }
        i += 1;
    }
    Ok(())
}

/// The right side that a checkpoint names, the first listed for it.
pub open spec fn right_of(cps: Seq<CheckpointFacts>, left: EntityId, i: int) -> Option<Option<EntityId>>
    decreases cps.len() - i,
{
    if i < 0 || i >= cps.len() {
        None
    } else if cps[i].entity == left {
        Some(cps[i].pair_right)
    } else {
        right_of(cps, left, i + 1)
    }
}

/// A right side is orphaned unless the left side it names is a rebuilt
/// checkpoint that names it back.
pub open spec fn orphaned(cps: Seq<CheckpointFacts>, right: (EntityId, EntityId)) -> bool {
    right_of(cps, right.1, 0) != Some(Some(right.0))
}

fn find_right(cps: &Vec<CheckpointFacts>, left: EntityId) -> (r: Option<Option<EntityId>>)
    ensures
        r == right_of(cps@, left, 0),
{
    let mut i: usize = 0;
    while i < cps.len()
        invariant
            i <= cps@.len(),
            right_of(cps@, left, 0) == right_of(cps@, left, i as int),
        decreases cps@.len() - i,
    {
        if cps[i].entity == left {
            return Some(cps[i].pair_right);
        }
        i += 1;
    }
    None
}

/// No right side is orphaned: each names a rebuilt checkpoint that names it
/// back.
pub fn check_checkpoint_rights(rights: &Vec<(EntityId, EntityId)>, cps: &Vec<CheckpointFacts>) -> (r: Result<(), KmpError>)
    ensures
        r is Ok <==> forall|k: int| 0 <= k < rights@.len() ==> !#[trigger] orphaned(cps@, rights@[k]),
        r is Err ==> r == Err::<(), KmpError>(KmpError::OrphanedCheckpointRight),
{
    let mut i: usize = 0;
    while i < rights.len()
        invariant
            i <= rights@.len(),
            forall|k: int| 0 <= k < i ==> !#[trigger] orphaned(cps@, rights@[k]),
        decreases rights@.len() - i,
    {
        let (right, left) = rights[i];
        let ok = match find_right(cps, left) {
            Some(Some(r)) => r == right,
            _ => false,
        };
        if !ok {
            assert(orphaned(cps@, rights@[i as int]));
            return Err(KmpError::OrphanedCheckpointRight);
        }
        i += 1;
    }
    Ok(())
}

/// The intro camera's index in the camera header: 255 without an intro
/// marker; refused for several markers, a marker not on a camera, or a
/// camera at index 255 or past it.
pub open spec fn intro_index(intros: Seq<EntityId>, cameras: Seq<EntityId>) -> Result<u16, KmpError> {
    if intros.len() > 1 {
        Err(KmpError::MultipleIntroCameras)
    } else if intros.len() == 0 {
        Ok(255)
    } else {
        match place(cameras, intros[0]) {
            None => Err(KmpError::IntroNotCamera),
            Some(id) => if id < 255 {
                Ok(id as u16)
            } else {
                Err(KmpError::IntroCameraOutOfRange)
            },
        }
    }
}

/// The intro camera's index; see [`intro_index`]. `intros` lists the
/// entities marked as the intro start, `cameras` the cameras in export order.
pub fn intro_camera(intros: &Vec<EntityId>, cameras: &Vec<EntityId>) -> (r: Result<u16, KmpError>)
    ensures
        r == intro_index(intros@, cameras@),
{
    if intros.len() > 1 {
        return Err(KmpError::MultipleIntroCameras);
    }
    if intros.len() == 0 {
        return Ok(255);
    }
    match find_place(cameras, intros[0]) {
        None => Err(KmpError::IntroNotCamera),
        Some(id) => if id < 255 {
            Ok(id as u16)
        } else {
            Err(KmpError::IntroCameraOutOfRange)
        },
    }
}

/// The selection camera after a rebuild: the source's selection byte follows
/// its camera to that camera's new index (255 when it is gone or past 8
/// bits); a byte that named no loaded camera is kept.
pub open spec fn selection_camera(old_header: u16, source: LoadedKmp, cameras: Seq<EntityId>) -> u8 {
    let old = (old_header % 256) as u8;
    match source_entity_of(source, SectionName::KmpCamera, old as usize) {
        Some(e) => match place(cameras, e) {
            Some(id) => if id < 255 {
                id as u8
            } else {
                255
            },
            None => 255,
        },
        None => old,
    }
}

/// The rebuilt camera section header: the intro camera in the high byte and
/// the selection camera in the low byte.
pub fn camera_header(intro: u16, old_header: u16, source: &LoadedKmp, cameras: &Vec<EntityId>) -> (r: u16)
    requires
        intro <= 255,
    ensures
        r == intro * 256 + selection_camera(old_header, *source, cameras@),
{
    let old = (old_header & 0xff) as u8;
    proof {
        assert((old_header & 0xff) == old_header % 256) by (bit_vector);
    }
    let selection: u8 = match source.source_entity(SectionName::KmpCamera, old as usize) {
        Some(e) => match find_place(cameras, e) {
            Some(id) => if id < 255 {
                id as u8
            } else {
                255
            },
            None => 255,
        },
        None => old,
    };
    let sel = selection as u16;
    let r = (intro << 8u16) | sel;
    proof {
        assert(intro <= 255 && sel <= 255 ==> (intro << 8u16) | sel == intro * 256 + sel) by (bit_vector);
    }
    r
}

/// The previous checkpoint that a field-only save records for `e`: its single
/// predecessor, by order id (low byte), when that predecessor has `e` as its
/// single successor and `e` does not start the course path; otherwise 255.
pub open spec fn serialized_prev(g: Seq<EntryView>, e: EntityId) -> u8 {
    let n = node(g, e);
    if n.prev.len() == 1 && has(g, n.prev[0]) && node(g, n.prev[0]).next.len() == 1 && !n.overall_start {
        (node(g, n.prev[0]).order->Some_0 % 256) as u8
    } else {
        255
    }
}

/// The next checkpoint that a field-only save records for `e`: its single
/// successor, by order id (low byte), when that successor has `e` as its
/// single predecessor and does not start the course path; otherwise 255.
pub open spec fn serialized_next(g: Seq<EntryView>, e: EntityId) -> u8 {
    let n = node(g, e);
    if n.next.len() == 1 && has(g, n.next[0]) && node(g, n.next[0]).prev.len() == 1 && !node(g, n.next[0]).overall_start {
        (node(g, n.next[0]).order->Some_0 % 256) as u8
    } else {
        255
    }
}

/// The order ids that the serialized neighbours need are present.
pub open spec fn neighbour_orders_ok(g: Seq<EntryView>, e: EntityId) -> bool {
    let n = node(g, e);
    &&& (n.prev.len() == 1 && has(g, n.prev[0]) && node(g, n.prev[0]).next.len() == 1 && !n.overall_start) ==> node(
        g,
        n.prev[0],
    ).order is Some
    &&& (n.next.len() == 1 && has(g, n.next[0]) && node(g, n.next[0]).prev.len() == 1 && !node(g, n.next[0]).overall_start)
        ==> node(g, n.next[0]).order is Some
}

/// The respawn point number a checkpoint record holds: its respawn target's
/// id when that fits a byte, otherwise 0.
pub open spec fn respawn_pos_of(respawn: Option<EntityId>, ids: Seq<(EntityId, u32)>) -> u8 {
    match respawn {
        None => 0,
        Some(t) => match id_of(ids, t, 0) {
            Some(id) => if id <= 255 {
                id as u8
            } else {
                0
            },
            None => 0,
        },
    }
}

/// The link fields of a checkpoint record as a field-only save writes them.
#[derive(Debug, Clone, Copy, PartialEq, Eq, Structural)]
pub struct CheckpointLinks {
    pub respawn_pos: u8,
    pub prev_cp: u8,
    pub next_cp: u8,
}

fn order_byte(g: &PathGraph, e: EntityId) -> (r: u8)
    requires
        has(g@, e),
        node(g@, e).order is Some,
    ensures
        r == (node(g@, e).order->Some_0 % 256) as u8,
{
    let i = find_entry(g, e).unwrap();
    assert(node(g@, e) == g@[i as int]);
    let o = g.entries[i].order.unwrap();
    (o % 256) as u8
}

/// The link fields of checkpoint `e` in a field-only save: its respawn
/// point number (see [`respawn_pos_of`]) and its serialized neighbours (see
/// [`serialized_prev`] and [`serialized_next`]). `respawn_ids` gives the
/// export id of each respawn point.
pub fn checkpoint_links_of(
    g: &PathGraph,
    e: EntityId,
    respawn: Option<EntityId>,
    respawn_ids: &Vec<(EntityId, u32)>,
) -> (r: CheckpointLinks)
    requires
        has(g@, e),
        neighbour_orders_ok(g@, e),
    ensures
        r.respawn_pos == respawn_pos_of(respawn, respawn_ids@),
        r.prev_cp == serialized_prev(g@, e),
        r.next_cp == serialized_next(g@, e),
{
    let respawn_pos: u8 = match respawn {
        None => 0,
        Some(t) => match find_id(respawn_ids, t) {
            Some(id) => if id <= 255 {
                id as u8
            } else {
                0
            },
            None => 0,
        },
    };
    let ei = find_entry(g, e).unwrap();
    assert(node(g@, e) == g@[ei as int]);
    let n = &g.entries[ei].node;
    let prev_cp: u8 = if n.prev_nodes.len() == 1 && !g.entries[ei].overall_start {
        let p = n.prev_nodes[0];
        match find_entry(g, p) {
            Some(pi) => {
                assert(node(g@, p) == g@[pi as int]);
                if g.entries[pi].node.next_nodes.len() == 1 {
                    order_byte(g, p)
                } else {
                    255
                }
            },
            None => 255,
        }
    } else {
        255
    };
    let next_cp: u8 = if n.next_nodes.len() == 1 {
        let x = n.next_nodes[0];
        match find_entry(g, x) {
            Some(xi) => {
                assert(node(g@, x) == g@[xi as int]);
                if g.entries[xi].node.prev_nodes.len() == 1 && !g.entries[xi].overall_start {
                    order_byte(g, x)
                } else {
                    255
                }
            },
            None => 255,
        }
    } else {
        255
    };
    CheckpointLinks { respawn_pos, prev_cp, next_cp }
}

/// The route number an object record holds: the export id of the route its
/// link names, or 0xffff for none (no link, or a route that is not exported).
pub open spec fn object_route_of(link: Option<EntityId>, route_ids: Seq<(EntityId, u16)>) -> u16 {
    match link {
        None => 0xffff,
        Some(t) => match route_id_of(route_ids, t, 0) {
            Some(id) => id,
            None => 0xffff,
        },
    }
}

/// The export id of route start `e`, the first listed for it.
pub open spec fn route_id_of(v: Seq<(EntityId, u16)>, e: EntityId, i: int) -> Option<u16>
    decreases v.len() - i,
{
    if i < 0 || i >= v.len() {
        None
    } else if v[i].0 == e {
        Some(v[i].1)
    } else {
        route_id_of(v, e, i + 1)
    }
}

/// The route number of an object record; see [`object_route_of`].
pub fn object_route(link: Option<EntityId>, route_ids: &Vec<(EntityId, u16)>) -> (r: u16)
    ensures
        r == object_route_of(link, route_ids@),
{
    match link {
        None => 0xffff,
        Some(t) => {
            let mut i: usize = 0;
            while i < route_ids.len()
                invariant
                    i <= route_ids@.len(),
                    link == Some(t),
                    route_id_of(route_ids@, t, 0) == route_id_of(route_ids@, t, i as int),
                decreases route_ids@.len() - i,
            {
                if route_ids[i].0 == t {
                    assert(route_id_of(route_ids@, t, i as int) == Some(route_ids@[i as int].1));
                    return route_ids[i].1;
                }
                i += 1;
            }
            0xffff
        },
    }
}

/// What a full rebuild checks of the counts before planning any path: the
/// loaded file has a STGI record, and the enemy and item sections hold at
/// most 255 points each.
pub fn check_rebuild_counts(stgi_records: usize, enemy_points: usize, item_points: usize) -> (r: Result<(), KmpError>)
    ensures
        r == if stgi_records == 0 {
            Err::<(), KmpError>(KmpError::NoTrackInfo)
        } else if enemy_points > 255 || item_points > 255 {
            Err::<(), KmpError>(KmpError::TooManyPathPoints)
        } else {
            Ok::<(), KmpError>(())
        },
{
    if stgi_records == 0 {
        return Err(KmpError::NoTrackInfo);
    }
    if enemy_points > 255 || item_points > 255 {
        return Err(KmpError::TooManyPathPoints);
    }
    Ok(())
}

/// The header of one rebuilt route record: its number of points and its
/// two settings bytes.
#[derive(Debug, Clone, Copy, PartialEq, Eq, Structural)]
pub struct RouteHeader {
    pub num_points: u16,
    pub setting_1: u8,
    pub setting_2: u8,
}

/// The route (POTI) records of a rebuild, one per planned route group with
/// its point count and settings, and the section's total point count.
pub fn route_headers(group_lengths: &Vec<usize>, settings: &Vec<RouteSettings>) -> (r: Result<(Vec<RouteHeader>, u16), KmpError>)
    requires
        group_lengths@.len() == settings@.len(),
    ensures
        (forall|i: int| 0 <= i < group_lengths@.len() ==> group_lengths@[i] <= u16::MAX) && sum_of(
            group_lengths@,
            group_lengths@.len() as int,
        ) <= u16::MAX <==> r is Ok,
        r matches Ok((hs, total)) ==> total == sum_of(group_lengths@, group_lengths@.len() as int) && hs@.len()
            == group_lengths@.len() && forall|i: int|
            0 <= i < hs@.len() ==> (#[trigger] hs@[i]).num_points == group_lengths@[i] && hs@[i].setting_1 == (if settings@[i].smooth_motion {
                1u8
            } else {
                0u8
            }) && hs@[i].setting_2 == (if settings@[i].loop_style == RouteLoopStyle::Mirror {
                1u8
            } else {
                0u8
            }),
{
    let mut hs: Vec<RouteHeader> = Vec::new();
    let mut total: usize = 0;
    let mut i: usize = 0;
    while i < group_lengths.len()
        invariant
            i <= group_lengths@.len(),
            group_lengths@.len() == settings@.len(),
            total == sum_of(group_lengths@, i as int),
            total <= u16::MAX,
            forall|k: int| 0 <= k < i ==> group_lengths@[k] <= u16::MAX,
            hs@.len() == i,
            forall|k: int|
                0 <= k < i ==> (#[trigger] hs@[k]).num_points == group_lengths@[k] && hs@[k].setting_1 == (if settings@[k].smooth_motion {
                    1u8
                } else {
                    0u8
                }) && hs@[k].setting_2 == (if settings@[k].loop_style == RouteLoopStyle::Mirror {
                    1u8
                } else {
                    0u8
                }),
        decreases group_lengths@.len() - i,
    {
        let len = group_lengths[i];
        if len > 0xffff || total + len > 0xffff {
            proof {
                lemma_sum_of_grows(group_lengths@, i as int + 1, group_lengths@.len() as int);
            }
            return Err(KmpError::TooManyPoints);
        }
        let (s1, s2) = settings[i].raw();
        hs.push(RouteHeader { num_points: len as u16, setting_1: s1, setting_2: s2 });
        total = total + len;
        i += 1;
    }
    Ok((hs, total as u16))
}

/// Total of the first `n` lengths.
pub open spec fn sum_of(lens: Seq<usize>, n: int) -> int
    decreases n,
{
    if n <= 0 {
        0
    } else {
        sum_of(lens, n - 1) + lens[n - 1]
    }
}

proof fn lemma_sum_of_grows(lens: Seq<usize>, m: int, n: int)
    requires
        0 <= m <= n <= lens.len(),
    ensures
        sum_of(lens, m) <= sum_of(lens, n),
    decreases n - m,
{
    if m < n {
        lemma_sum_of_grows(lens, m, n - 1);
    }
}

/// The canonical ids of a rebuilt section whose records carry their own
/// index (JGPT respawn ids, CNPT and MSPT ids): each record's position.
pub fn canonical_ids(count: usize) -> (r: Result<Vec<u16>, KmpError>)
    ensures
        count <= 65536 <==> r is Ok,
        r matches Ok(ids) ==> ids@.len() == count && forall|i: int| 0 <= i < count ==> ids@[i] == i,
        r matches Err(e) ==> e == KmpError::TooManyPoints,
{
    if count > 65536 {
        return Err(KmpError::TooManyPoints);
    }
    let mut ids: Vec<u16> = Vec::new();
    let mut i: usize = 0;
    while i < count
        invariant
            i <= count <= 65536,
            ids@.len() == i,
            forall|k: int| 0 <= k < i ==> ids@[k] == k,
        decreases count - i,
    {
        ids.push(i as u16);
        i += 1;
    }
    Ok(ids)
}


/// The sizes of the sections of a rebuild: point counts of the plain
/// sections, and the group lengths of the enemy, item, checkpoint and route
/// plans.
#[derive(Debug)]
pub struct RebuildSizes {
    pub start_points: usize,
    pub objects: usize,
    pub areas: usize,
    pub cameras: usize,
    pub respawns: usize,
    pub cannons: usize,
    pub finishes: usize,
    pub enemy_groups: Vec<usize>,
    pub item_groups: Vec<usize>,
    pub checkpoint_groups: Vec<usize>,
    pub route_groups: Vec<usize>,
}

/// The record counts of a rebuilt file in offset-table order (KTPT, ENPT,
/// ENPH, ITPT, ITPH, CKPT, CKPH, GOBJ, POTI, AREA, CAME, JGPT, CNPT, MSPT,
/// STGI): a grouped section holds the points of all its groups and one
/// header per group, POTI one record per route, and STGI a single record.
pub open spec fn count_table(z: RebuildSizes) -> Seq<int> {
    seq![
        z.start_points as int,
        sum_of(z.enemy_groups@, z.enemy_groups@.len() as int),
        z.enemy_groups@.len() as int,
        sum_of(z.item_groups@, z.item_groups@.len() as int),
        z.item_groups@.len() as int,
        sum_of(z.checkpoint_groups@, z.checkpoint_groups@.len() as int),
        z.checkpoint_groups@.len() as int,
        z.objects as int,
        z.route_groups@.len() as int,
        z.areas as int,
        z.cameras as int,
        z.respawns as int,
        z.cannons as int,
        z.finishes as int,
        1,
    ]
}

/// The sum of `v`, or `None` past `cap`.
fn capped_sum(v: &Vec<usize>, cap: usize) -> (r: Option<usize>)
    ensures
        r matches Some(t) ==> t == sum_of(v@, v@.len() as int) && t <= cap,
        r is None ==> sum_of(v@, v@.len() as int) > cap,
{
    let mut t: usize = 0;
    let mut i: usize = 0;
    while i < v.len()
        invariant
            i <= v@.len(),
            t == sum_of(v@, i as int),
            t <= cap,
        decreases v@.len() - i,
    {
        if v[i] > cap - t {
            proof {
                lemma_sum_of_grows(v@, i as int + 1, v@.len() as int);
            }
            return None;
        }
        t = t + v[i];
        i += 1;
    }
    Some(t)
}

/// The record counts of a rebuilt file (see `count_table`). The loaded file
/// must have a STGI record and the enemy and item sections at most 255
/// points each (see `check_rebuild_counts`); a section past 65535 records is
/// refused.
#[verifier::loop_isolation(false)]
pub fn rebuild_counts(stgi_records: usize, z: &RebuildSizes) -> (r: Result<Vec<usize>, KmpError>)
    ensures
        stgi_records == 0 ==> r == Err::<Vec<usize>, KmpError>(KmpError::NoTrackInfo),
        stgi_records > 0 && (sum_of(z.enemy_groups@, z.enemy_groups@.len() as int) > 255 || sum_of(
            z.item_groups@,
            z.item_groups@.len() as int,
        ) > 255) ==> r == Err::<Vec<usize>, KmpError>(KmpError::TooManyPathPoints),
        stgi_records > 0 && sum_of(z.enemy_groups@, z.enemy_groups@.len() as int) <= 255 && sum_of(
            z.item_groups@,
            z.item_groups@.len() as int,
        ) <= 255 ==> (r is Ok <==> forall|k: int| 0 <= k < 15 ==> #[trigger] count_table(*z)[k] <= 65535),
        r matches Err(e) ==> e == KmpError::NoTrackInfo || e == KmpError::TooManyPathPoints || e == KmpError::TooManyPoints,
        r matches Ok(c) ==> c@.len() == 15 && forall|k: int| 0 <= k < 15 ==> #[trigger] c@[k] == count_table(*z)[k],
{
    if stgi_records == 0 {
        return Err(KmpError::NoTrackInfo);
    }
    let enemy = capped_sum(&z.enemy_groups, 255);
    let item = capped_sum(&z.item_groups, 255);
    let (enemy, item) = match (enemy, item) {
        (Some(e), Some(i)) => (e, i),
        _ => {
            return Err(KmpError::TooManyPathPoints);
        },
    };
    let checkpoint = match capped_sum(&z.checkpoint_groups, 65535) {
        Some(c) => c,
        None => {
            proof {
                assert(count_table(*z)[5] > 65535);
            }
            return Err(KmpError::TooManyPoints);
        },
    };
    let c: Vec<usize> = vec![
        z.start_points,
        enemy,
        z.enemy_groups.len(),
        item,
        z.item_groups.len(),
        checkpoint,
        z.checkpoint_groups.len(),
        z.objects,
        z.route_groups.len(),
        z.areas,
        z.cameras,
        z.respawns,
        z.cannons,
        z.finishes,
        1,
    ];
    let mut k: usize = 0;
    while k < 15
        invariant
            k <= 15,
            c@.len() == 15,
            forall|t: int| 0 <= t < 15 ==> #[trigger] c@[t] == count_table(*z)[t],
            forall|t: int| 0 <= t < k ==> #[trigger] count_table(*z)[t] <= 65535,
        decreases 15 - k,
    {
        if c[k] > 65535 {
            return Err(KmpError::TooManyPoints);
        }
        k += 1;
    }
    Ok(c)
}

} // verus!
