use kmpeek::document::{PathGroup, SectionName};
use kmpeek::error::KmpError;
use kmpeek::export::CheckpointLinks;
use kmpeek::json::{json_eq, JsonNumber, JsonValue};
use kmpeek::snapshot::{narrow_source_ids, place_exported_points, snapshot_checkpoint_links, sorted_source_indices};

fn num(n: u64) -> JsonValue {
    JsonValue::Number(JsonNumber::PosInt(n))
}

fn group(start: u8, group_length: u8) -> PathGroup {
    PathGroup { start, group_length, prev_group: vec![0xff; 6], next_group: vec![0xff; 6], unknown: 0 }
}

fn same_rows(a: &[JsonValue], b: &[JsonValue]) -> bool {
    a.len() == b.len() && a.iter().zip(b).all(|(x, y)| json_eq(x, y))
}

#[test]
fn source_indices_of_overlapping_groups_come_sorted_with_repeats() {
    let groups = vec![group(2, 2), group(0, 3), group(4, 9)];
    assert_eq!(sorted_source_indices(&groups, 5), vec![0, 1, 2, 2, 3]);
}

#[test]
fn exported_points_go_back_to_their_source_rows() {
    let rows = vec![num(10), num(11), num(12), num(13)];
    let out = place_exported_points(&rows, &vec![0, 2, 2], &vec![num(20), num(22), num(22)], SectionName::EnemyPathPoint)
        .unwrap();
    assert!(same_rows(&out, &[num(20), num(11), num(22), num(13)]));
}

#[test]
fn differing_edits_to_a_shared_row_are_refused() {
    let rows = vec![num(10), num(11), num(12)];
    let r = place_exported_points(&rows, &vec![0, 2, 2], &vec![num(20), num(22), num(23)], SectionName::Checkpoint);
    assert_eq!(r.unwrap_err(), KmpError::ConflictingSharedEdit(SectionName::Checkpoint, 2));
}

#[test]
fn a_changed_point_count_is_refused() {
    let rows = vec![num(10), num(11)];
    let r = place_exported_points(&rows, &vec![0, 1], &vec![num(20)], SectionName::ItemPathPoint);
    assert_eq!(r.unwrap_err(), KmpError::SnapshotCountChanged(SectionName::ItemPathPoint));
    assert_eq!(KmpError::SnapshotCountChanged(SectionName::ItemPathPoint).message(), "itpt snapshot point count changed");
    assert_eq!(
        KmpError::ConflictingSharedEdit(SectionName::EnemyPathPoint, 12).message(),
        "Conflicting edits to shared enpt point 12; no file was written"
    );
    assert_eq!(
        KmpError::IncompletePoint(SectionName::Object).message(),
        "Cannot save Object: a point is missing its transform or ordering component"
    );
}

#[test]
fn checkpoint_snapshot_keeps_source_adjacency_and_unchanged_respawn() {
    let exported = CheckpointLinks { respawn_pos: 0, prev_cp: 7, next_cp: 8 };
    let source = CheckpointLinks { respawn_pos: 200, prev_cp: 1, next_cp: 2 };
    let kept = snapshot_checkpoint_links(exported, source, Some(5), Some(5));
    assert_eq!(kept, CheckpointLinks { respawn_pos: 200, prev_cp: 1, next_cp: 2 });
    let unresolved = snapshot_checkpoint_links(exported, source, None, None);
    assert_eq!(unresolved.respawn_pos, 200);
    let linked_to_zero = snapshot_checkpoint_links(exported, source, Some(6), None);
    assert_eq!(linked_to_zero.respawn_pos, 0);
    let relinked = snapshot_checkpoint_links(exported, source, Some(6), Some(5));
    assert_eq!(relinked, CheckpointLinks { respawn_pos: 0, prev_cp: 1, next_cp: 2 });
}

#[test]
fn source_ids_past_sixteen_bits_are_left_out() {
    let ids = vec![(1, 5), (2, 70000), (3, 65535)];
    assert_eq!(narrow_source_ids(&ids), vec![(1, 5), (3, 65535)]);
}

#[test]
fn snapshots_preserve_unrepresented_points_and_detect_link_to_respawn_zero() {
    // three enemy rows; the third is referenced by no group, so no editor point exports it
    let rows = vec![num(10), num(11), num(1234)];
    let groups = vec![group(0, 2)];
    let indices = sorted_source_indices(&groups, rows.len());
    assert_eq!(indices, vec![0, 1]);
    let out = place_exported_points(&rows, &indices, &vec![num(10), num(11)], SectionName::EnemyPathPoint).unwrap();
    assert!(json_eq(&out[2], &num(1234)));
    // the source checkpoint's respawn byte is 200 and unresolved; linking it to respawn point zero is an edit
    let source = CheckpointLinks { respawn_pos: 200, prev_cp: 255, next_cp: 255 };
    let exported = CheckpointLinks { respawn_pos: 0, prev_cp: 255, next_cp: 255 };
    assert_eq!(snapshot_checkpoint_links(exported, source, Some(7), None).respawn_pos, 0);
}
