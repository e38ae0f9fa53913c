use kmpeek::export::{canonical_ids, check_rebuild_counts, rebuild_counts, route_headers, RebuildSizes, RouteHeader};
use kmpeek::document::{LoadedKmp, LoadedLinks, SectionEntities, SectionName, SourceGroups, StructuralSignature};
use kmpeek::error::KmpError;
use kmpeek::export::{
    camera_header, check_checkpoint_rights, check_checkpoints, check_route_references, checkpoint_links_of, find_route,
    intro_camera, object_route, ordered, raw_target, route_settings, CheckpointFacts, CheckpointLinks, RebuildPoint,
    RouteReference, TransformCheck,
};
use kmpeek::graph::{GraphEntry, KmpPathNode, PathGraph};
use kmpeek::json::{finite_scalars, JsonField, JsonNumber, JsonValue};
use kmpeek::records::{CheckpointKind, RouteLoopStyle, RouteSettings};

const GOOD: TransformCheck = TransformCheck { finite: true, rotation_normalized: true };

fn pt(entity: u64, order: u32) -> RebuildPoint {
    RebuildPoint { entity, order: Some(order), transform: Some(GOOD) }
}

fn cameras_doc(cameras: Vec<u64>) -> LoadedKmp {
    LoadedKmp {
        original_bytes: vec![],
        signature: StructuralSignature {
            sections: vec![SectionEntities { name: SectionName::KmpCamera, entities: cameras }],
            graph: vec![],
            checkpoint_pairs: vec![],
        },
        disk_versions: vec![],
        source: SourceGroups { enph: vec![], enpt_count: 0, itph: vec![], itpt_count: 0, ckph: vec![], ckpt_count: 0 },
        links: LoadedLinks::default(),
    }
}

fn checkpoint(entity: u64, right: u64, respawn: u64) -> CheckpointFacts {
    CheckpointFacts {
        entity,
        pair_right: Some(right),
        right_transform_finite: Some(true),
        respawn: Some(respawn),
        kind: CheckpointKind::Normal,
    }
}

#[test]
fn rebuild_order_follows_order_ids_then_entities() {
    let r = ordered(&vec![pt(5, 70000), pt(9, 10), pt(3, 10), pt(1, 80000)]).unwrap();
    assert_eq!(r, vec![3, 9, 5, 1]);
}

#[test]
fn rebuild_order_refuses_unusable_points_first_in_list_order() {
    let mut bad_rotation = pt(2, 1);
    bad_rotation.transform = Some(TransformCheck { finite: true, rotation_normalized: false });
    let mut no_order = pt(3, 1);
    no_order.order = None;
    assert_eq!(ordered(&vec![pt(1, 0), bad_rotation, no_order]), Err(KmpError::InvalidRotation));
    assert_eq!(ordered(&vec![no_order, bad_rotation]), Err(KmpError::MissingOrderId));
    let mut no_transform = pt(4, 1);
    no_transform.transform = None;
    assert_eq!(ordered(&vec![no_transform]), Err(KmpError::MissingTransform));
    let mut infinite = pt(4, 1);
    infinite.transform = Some(TransformCheck { finite: false, rotation_normalized: true });
    assert_eq!(ordered(&vec![infinite]), Err(KmpError::NonFiniteTransform));
    let many: Vec<RebuildPoint> = (0..65536u64).map(|e| pt(e, 0)).collect();
    assert_eq!(ordered(&many), Err(KmpError::TooManyPoints));
}

#[test]
fn raw_targets_follow_unchanged_sources_and_edited_rows() {
    let doc = cameras_doc(vec![100, 101, 102]);
    let current = vec![102, 101, 100];
    let final_order = vec![102, 100, 101];
    // 255 is no target
    assert_eq!(raw_target(255, None, None, &doc, SectionName::KmpCamera, &current, &final_order, false), Ok(255));
    // an unchanged number follows its source row: row 1 is entity 101, now third
    assert_eq!(raw_target(1, Some(1), Some(1), &doc, SectionName::KmpCamera, &current, &final_order, false), Ok(2));
    // an edited number names a current row: row 1 is entity 101 too
    assert_eq!(raw_target(0, Some(1), Some(1), &doc, SectionName::KmpCamera, &current, &final_order, false), Ok(0));
    // an edited number past the rows is refused
    assert_eq!(
        raw_target(7, Some(1), Some(1), &doc, SectionName::KmpCamera, &current, &final_order, true),
        Err(KmpError::EditedIndexMissing(SectionName::KmpCamera, 7))
    );
    // an unchanged reference whose target is gone is cleared when optional
    assert_eq!(raw_target(9, Some(9), Some(9), &doc, SectionName::KmpCamera, &current, &final_order, true), Ok(255));
    assert_eq!(
        raw_target(9, Some(9), Some(9), &doc, SectionName::KmpCamera, &current, &final_order, false),
        Err(KmpError::ReferenceUnavailable(SectionName::KmpCamera))
    );
}

#[test]
fn raw_targets_past_eight_bits_are_refused() {
    let doc = cameras_doc(vec![]);
    let current: Vec<u64> = (0..300).collect();
    let final_order = current.clone();
    assert_eq!(raw_target(254, None, None, &doc, SectionName::KmpCamera, &current, &final_order, true), Ok(254));
    let mut shifted = vec![1000];
    shifted.extend(current.iter().copied());
    assert_eq!(
        raw_target(254, None, None, &doc, SectionName::KmpCamera, &current, &shifted, true),
        Err(KmpError::ReferenceOutOfRange(SectionName::KmpCamera))
    );
}

#[test]
fn route_settings_come_from_the_first_member_that_has_them() {
    let mirror = RouteSettings { smooth_motion: true, loop_style: RouteLoopStyle::Mirror };
    let plain = RouteSettings { smooth_motion: false, loop_style: RouteLoopStyle::Mirror };
    assert_eq!(route_settings(&vec![1, 2, 3], &vec![(3, plain), (2, mirror)]), mirror);
    assert_eq!(
        route_settings(&vec![1], &vec![(3, plain)]),
        RouteSettings { smooth_motion: false, loop_style: RouteLoopStyle::Cyclic }
    );
}

#[test]
fn object_route_ids_are_not_narrowed_to_eight_bits() {
    let mut groups: Vec<Vec<u64>> = (0..256u64).map(|g| vec![g]).collect();
    groups.push(vec![999]);
    assert_eq!(find_route(&groups, 999), Some(256));
    let object = RouteReference { entity: 1, target: 999, object: true };
    assert_eq!(check_route_references(&vec![object], &groups), Ok(()));
    let area = RouteReference { entity: 2, target: 999, object: false };
    assert_eq!(check_route_references(&vec![object, area], &groups), Err(KmpError::RouteReferenceOutOfRange));
    let deleted = RouteReference { entity: 3, target: 5000, object: true };
    assert_eq!(check_route_references(&vec![deleted, area], &groups), Err(KmpError::RouteTargetDeleted));
}

#[test]
fn checkpoints_need_reciprocal_pairs_live_respawns_and_key_ids() {
    let rights = vec![(11, 1), (12, 2)];
    let respawns = vec![50, 51];
    assert_eq!(check_checkpoints(&vec![checkpoint(1, 11, 50), checkpoint(2, 12, 51)], &rights, &respawns), Ok(()));
    let mut missing = checkpoint(1, 11, 50);
    missing.pair_right = None;
    assert_eq!(check_checkpoints(&vec![missing], &rights, &respawns), Err(KmpError::MissingCheckpointPair));
    assert_eq!(
        check_checkpoints(&vec![checkpoint(1, 12, 50)], &rights, &respawns),
        Err(KmpError::CheckpointPairNotReciprocal)
    );
    let mut infinite = checkpoint(1, 11, 50);
    infinite.right_transform_finite = Some(false);
    assert_eq!(check_checkpoints(&vec![infinite], &rights, &respawns), Err(KmpError::NonFiniteCheckpointRight));
    assert_eq!(
        check_checkpoints(&vec![checkpoint(1, 11, 77)], &rights, &respawns),
        Err(KmpError::RespawnTargetDeleted)
    );
    let mut key = checkpoint(1, 11, 50);
    key.kind = CheckpointKind::Key(128);
    assert_eq!(check_checkpoints(&vec![key], &rights, &respawns), Err(KmpError::InvalidKeyId));
    key.kind = CheckpointKind::Key(127);
    assert_eq!(check_checkpoints(&vec![key], &rights, &respawns), Ok(()));
    let far: Vec<u64> = (0..300).collect();
    assert_eq!(check_checkpoints(&vec![checkpoint(1, 11, 256)], &rights, &far), Err(KmpError::RespawnOutOfRange));
}

#[test]
fn orphaned_checkpoint_right_sides_are_refused() {
    let cps = vec![checkpoint(1, 11, 50)];
    assert_eq!(check_checkpoint_rights(&vec![(11, 1)], &cps), Ok(()));
    assert_eq!(check_checkpoint_rights(&vec![(11, 1), (12, 1)], &cps), Err(KmpError::OrphanedCheckpointRight));
}

#[test]
fn intro_camera_and_selection_byte_fill_the_camera_header() {
    assert_eq!(intro_camera(&vec![], &vec![1, 2]), Ok(255));
    assert_eq!(intro_camera(&vec![2], &vec![1, 2]), Ok(1));
    assert_eq!(intro_camera(&vec![1, 2], &vec![1, 2]), Err(KmpError::MultipleIntroCameras));
    assert_eq!(intro_camera(&vec![9], &vec![1, 2]), Err(KmpError::IntroNotCamera));
    let doc = cameras_doc(vec![100, 101]);
    // the old selection byte 1 named entity 101, which is now first
    assert_eq!(camera_header(0, 0x0301, &doc, &vec![101, 100]), 0x0000);
    // a byte that named no loaded camera is kept
    assert_eq!(camera_header(2, 0x0007, &doc, &vec![101, 100]), 0x0207);
    // a camera that is gone gives 255
    assert_eq!(camera_header(255, 0x0000, &doc, &vec![101]), 0xffff);
}

#[test]
fn finite_scalars_reject_nulls_anywhere() {
    let field = |k: &str, v: JsonValue| JsonField { key: k.as_bytes().to_vec(), value: v };
    let good = JsonValue::Object(vec![
        field("a", JsonValue::Number(JsonNumber::PosInt(1))),
        field("b", JsonValue::Array(vec![JsonValue::Bool(true)])),
    ]);
    assert!(finite_scalars(&good));
    let bad = JsonValue::Object(vec![field("b", JsonValue::Array(vec![JsonValue::Null]))]);
    assert!(!finite_scalars(&bad));
    assert!(!finite_scalars(&JsonValue::Null));
}

fn cp(entity: u64, prev: Vec<u64>, next: Vec<u64>, order: u32, overall_start: bool) -> GraphEntry {
    GraphEntry {
        entity,
        node: KmpPathNode::default().with_prev(prev).with_next(next),
        overall_start,
        route_start: false,
        order: Some(order),
    }
}

#[test]
fn field_only_checkpoint_links_use_neighbour_order_ids() {
    let g = PathGraph {
        entries: vec![cp(1, vec![], vec![2], 0, true), cp(2, vec![1], vec![3], 257, false), cp(3, vec![2], vec![1], 2, false)],
    };
    let links = checkpoint_links_of(&g, 2, Some(50), &vec![(50, 7)]);
    assert_eq!(links, CheckpointLinks { respawn_pos: 7, prev_cp: 0, next_cp: 2 });
    // the first checkpoint starts the course path: no previous checkpoint
    let first = checkpoint_links_of(&g, 1, None, &vec![]);
    assert_eq!(first.prev_cp, 255);
    assert_eq!(first.respawn_pos, 0);
    // the last one leads back to the start: no next checkpoint; order 257 is written as its low byte
    let last = checkpoint_links_of(&g, 3, Some(51), &vec![(51, 300)]);
    assert_eq!(last, CheckpointLinks { respawn_pos: 0, prev_cp: 1, next_cp: 255 });
}

#[test]
fn object_route_numbers_fall_back_to_none() {
    assert_eq!(object_route(Some(5), &vec![(5, 256)]), 256);
    assert_eq!(object_route(Some(6), &vec![(5, 256)]), 0xffff);
    assert_eq!(object_route(None, &vec![(5, 256)]), 0xffff);
}

#[test]
fn raw_reference_identity_differs_from_edited_numeric_order() {
    let (a, b) = (1, 2);
    let source = cameras_doc(vec![a, b]);
    let current = vec![b, a];
    let indices = current.clone();
    assert_eq!(raw_target(1, Some(1), Some(1), &source, SectionName::KmpCamera, &current, &indices, true), Ok(0));
    assert_eq!(raw_target(0, Some(1), Some(1), &source, SectionName::KmpCamera, &current, &indices, true), Ok(0));
    let deleted = vec![a];
    assert_eq!(raw_target(1, Some(1), Some(1), &source, SectionName::KmpCamera, &deleted, &deleted, true), Ok(255));
    assert_eq!(
        raw_target(1, Some(1), Some(1), &source, SectionName::KmpCamera, &deleted, &deleted, false),
        Err(KmpError::ReferenceUnavailable(SectionName::KmpCamera))
    );
    assert!(KmpError::ReferenceUnavailable(SectionName::KmpCamera).message().contains("relink"));
    assert_eq!(raw_target(255, None, None, &source, SectionName::KmpCamera, &vec![], &vec![], false), Ok(255));
}

#[test]
fn rebuild_counts_route_headers_and_canonical_ids() {
    assert_eq!(check_rebuild_counts(0, 1, 1), Err(KmpError::NoTrackInfo));
    assert_eq!(check_rebuild_counts(1, 255, 255), Ok(()));
    assert_eq!(check_rebuild_counts(1, 10, 256), Err(KmpError::TooManyPathPoints));
    let mirror = RouteSettings { smooth_motion: true, loop_style: RouteLoopStyle::Mirror };
    let plain = RouteSettings { smooth_motion: false, loop_style: RouteLoopStyle::Cyclic };
    let (headers, total) = route_headers(&vec![2, 1], &vec![mirror, plain]).unwrap();
    assert_eq!(
        headers,
        vec![
            RouteHeader { num_points: 2, setting_1: 1, setting_2: 1 },
            RouteHeader { num_points: 1, setting_1: 0, setting_2: 0 },
        ]
    );
    assert_eq!(total, 3);
    assert_eq!(route_headers(&vec![40000, 40000], &vec![plain, plain]), Err(KmpError::TooManyPoints));
    assert_eq!(canonical_ids(3), Ok(vec![0, 1, 2]));
    assert_eq!(canonical_ids(65537), Err(KmpError::TooManyPoints));
}

#[test]
fn malformed_points_pairs_missing_track_and_stale_routes_fail_without_panicking() {
    // a start point without order id or transform
    let malformed = RebuildPoint { entity: 1, order: None, transform: None };
    assert_eq!(ordered(&vec![malformed]), Err(KmpError::MissingOrderId));
    // a checkpoint without its right side
    let mut lone = checkpoint(2, 12, 50);
    lone.pair_right = None;
    let refused = check_checkpoints(&vec![lone], &vec![], &vec![50]).unwrap_err();
    assert!(refused.message().contains("pair"));
    // an object linked to a route point that no longer exists
    let stale = RouteReference { entity: 3, target: 999, object: true };
    let refused = check_route_references(&vec![stale], &vec![vec![10]]).unwrap_err();
    assert_eq!(refused, KmpError::RouteTargetDeleted);
    assert!(refused.message().contains("relink"));
    // a source without track information
    assert_eq!(check_rebuild_counts(0, 0, 0), Err(KmpError::NoTrackInfo));
}

#[test]
fn canonical_point_ids_ignore_sparse_editor_order_and_raw_ids() {
    // one cannon, one battle finish and one respawn point with sparse order ids
    assert_eq!(ordered(&vec![pt(1, 70000)]), Ok(vec![1]));
    assert_eq!(ordered(&vec![pt(2, 90000)]), Ok(vec![2]));
    assert_eq!(ordered(&vec![pt(3, 80000)]), Ok(vec![3]));
    // whatever raw ids they held (1234, 4321, 2222), each gets its final position
    assert_eq!(canonical_ids(1), Ok(vec![0]));
}

#[test]
fn whole_file_counts_follow_the_planned_groups() {
    let sizes = RebuildSizes {
        start_points: 1,
        objects: 2,
        areas: 0,
        cameras: 3,
        respawns: 1,
        cannons: 1,
        finishes: 1,
        enemy_groups: vec![2, 1],
        item_groups: vec![],
        checkpoint_groups: vec![2],
        route_groups: vec![3, 1],
    };
    assert_eq!(rebuild_counts(1, &sizes), Ok(vec![1, 3, 2, 0, 0, 2, 1, 2, 2, 0, 3, 1, 1, 1, 1]));
    assert_eq!(rebuild_counts(0, &sizes), Err(KmpError::NoTrackInfo));
    let crowded = RebuildSizes { item_groups: vec![255, 1], ..sizes };
    assert_eq!(rebuild_counts(1, &crowded), Err(KmpError::TooManyPathPoints));
}
