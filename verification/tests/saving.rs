use kmpeek::document::{has_unsaved_changes, record_saved, DiskVersion, LoadedKmp, LoadedLinks, PathGroup, SectionName, SourceGroups, StructuralSignature};
use kmpeek::field_save::{patch_document, FieldSaveInput};
use kmpeek::error::KmpError;
use kmpeek::json::{json_eq, merge, FieldKey, JsonField, JsonNumber, JsonValue, MergeContext};
use kmpeek::layout::{patch_bytes, section_starts};
use kmpeek::patch::{begin_field_save, came_additional_value, check_snapshot, transfer_edits, DocumentMerge};

/// A minimal KMP image: a 76-byte header, fifteen 8-byte section headers and
/// the given payload lengths, then `trailing` extra bytes.
fn image(payloads: [usize; 15], trailing: usize) -> Vec<u8> {
    let mut bytes = vec![0u8; 76];
    bytes[0..4].copy_from_slice(b"RKMD");
    bytes[10] = 0;
    bytes[11] = 76;
    let mut offset = 0u32;
    for (i, len) in payloads.iter().enumerate() {
        bytes[16 + 4 * i..20 + 4 * i].copy_from_slice(&offset.to_be_bytes());
        offset += 8 + *len as u32;
    }
    for (i, len) in payloads.iter().enumerate() {
        let mut section = vec![i as u8; 8];
        section.extend((0..*len).map(|k| (k as u8) ^ 0x5a));
        bytes.extend(section);
    }
    bytes.extend(vec![0xee; trailing]);
    bytes
}

#[test]
fn section_starts_follow_the_declared_header_and_offsets() {
    let bytes = image([2; 15], 0);
    let starts = section_starts(&bytes).unwrap();
    assert_eq!(starts.len(), 15);
    assert_eq!(starts[0], 76);
    assert_eq!(starts[1], 86);
    assert_eq!(starts[14], 76 + 14 * 10);
    assert!(matches!(section_starts(&bytes[..75]), Err(KmpError::TruncatedHeader)));
    let mut short_header = bytes.clone();
    short_header[11] = 70;
    assert!(matches!(section_starts(&short_header), Err(KmpError::InvalidHeaderLength)));
    let mut far = bytes.clone();
    far[16..20].copy_from_slice(&10_000u32.to_be_bytes());
    assert!(matches!(section_starts(&far), Err(KmpError::InvalidSectionOffset)));
}

#[test]
fn no_op_preserves_every_byte() {
    let packed = image([3; 15], 0);
    let physical = image([3; 15], 5);
    assert_eq!(patch_bytes(&physical, &packed, &packed).unwrap(), physical);
}

#[test]
fn edits_transfer_payload_bytes_and_the_intro_camera_byte_only() {
    let packed = image([3; 15], 0);
    let physical = image([3; 15], 4);
    let mut edited = packed.clone();
    let starts = section_starts(&packed).unwrap();
    edited[starts[0] + 9] ^= 0xff; // a payload byte
    edited[starts[3] + 1] ^= 0xff; // a section header byte: never written
    edited[starts[10] + 6] ^= 0xff; // CAME's intro camera byte
    let result = patch_bytes(&physical, &packed, &edited).unwrap();
    let mut expected = physical.clone();
    expected[starts[0] + 9] = edited[starts[0] + 9];
    expected[starts[10] + 6] = edited[starts[10] + 6];
    assert_eq!(result, expected);
}

#[test]
fn rejects_structural_edits_and_inconsistent_snapshots() {
    let packed = image([3; 15], 0);
    let longer = image([4, 3, 3, 3, 3, 3, 3, 3, 3, 3, 3, 3, 3, 3, 2], 0);
    assert!(matches!(patch_bytes(&packed, &packed, &longer), Err(KmpError::SectionLengthsChanged)));
    let mut grown = packed.clone();
    grown.push(0);
    assert!(matches!(patch_bytes(&packed, &packed, &grown), Err(KmpError::LengthChanged)));
    assert!(check_snapshot(&packed, &packed).is_ok());
    assert!(matches!(check_snapshot(&grown, &packed), Err(KmpError::SnapshotMismatch)));
}

#[test]
fn came_intro_byte_comes_from_the_editor_only_when_edited() {
    assert_eq!(came_additional_value(0x12ab, 0x0500, 0x0700), 0x07ab);
    assert_eq!(came_additional_value(0x12ab, 0x0500, 0x05ff), 0x12ab);
}

fn num(n: u64) -> JsonValue {
    JsonValue::Number(JsonNumber::PosInt(n))
}

fn object(fields: Vec<(&str, JsonValue)>) -> JsonValue {
    JsonValue::Object(fields.into_iter().map(|(k, v)| JsonField { key: k.as_bytes().to_vec(), value: v }).collect())
}

fn ctx() -> MergeContext {
    MergeContext { itpt: false, stgi: false, entries_root: false, key: FieldKey::Other }
}

#[test]
fn edits_merge_whole_scalars_and_preserve_unknown_data() {
    let original = object(vec![("a", num(1)), ("b", num(2)), ("unknown", num(99))]);
    let baseline = object(vec![("a", num(1)), ("b", num(2)), ("unknown", num(0))]);
    let current = object(vec![("a", num(5)), ("b", num(2)), ("unknown", num(0))]);
    let merged = merge(original, &baseline, &current, ctx()).unwrap();
    let expected = object(vec![("a", num(5)), ("b", num(2)), ("unknown", num(99))]);
    assert!(json_eq(&merged, &expected));
}

#[test]
fn structural_and_type_changes_are_refused() {
    let original = JsonValue::Array(vec![num(1)]);
    let baseline = JsonValue::Array(vec![num(1)]);
    let current = JsonValue::Array(vec![num(1), num(2)]);
    assert!(matches!(merge(original, &baseline, &current, ctx()), Err(KmpError::StructuralEdit)));
    let text = JsonValue::Text(b"x".to_vec());
    assert!(matches!(merge(num(1), &num(1), &text, ctx()), Err(KmpError::UnsupportedScalar)));
    let missing = object(vec![("a", num(1))]);
    let renamed = object(vec![("b", num(1))]);
    assert!(matches!(
        merge(object(vec![("a", num(1))]), &missing, &renamed, ctx()),
        Err(KmpError::MissingCurrentField)
    ));
}

#[test]
fn item_flags_merge_only_the_toggled_bits() {
    let setting = MergeContext { itpt: true, stgi: false, entries_root: false, key: FieldKey::Setting2 };
    // the source has unknown bit 0x8000; the editor toggled bit 1
    let merged = merge(num(0x8001), &num(0x0001), &num(0x0003), setting).unwrap();
    assert!(json_eq(&merged, &num(0x8003)));
}

fn float(x: f64) -> JsonValue {
    JsonValue::Number(JsonNumber::Float(x.to_bits()))
}

#[test]
fn edited_rotation_replaces_whole_canonical_orientation() {
    let rot = |a: f64, b: f64, c: f64| JsonValue::Array(vec![float(a), float(b), float(c)]);
    let rotation = MergeContext { itpt: false, stgi: false, entries_root: false, key: FieldKey::Rotation };
    let merged = merge(rot(0.0, 270.0, 0.0), &rot(180.0, -90.0, 180.0), &rot(180.0, -80.0, 180.0), rotation).unwrap();
    assert!(json_eq(&merged, &rot(180.0, -80.0, 180.0)));
}

#[test]
fn signed_zero_is_a_whole_scalar_edit() {
    // the source position is 1.234567; the editor saw 0.0 and now holds -0.0
    let source = float(1.234567f32 as f64);
    let merged = merge(source, &float(0.0), &float(-0.0), ctx()).unwrap();
    assert!(json_eq(&merged, &float(-0.0)));
    // the merged scalar is written whole: the edited encoding's bytes replace the source's
    let packed = image([4; 15], 0);
    let mut edited = packed.clone();
    let start = section_starts(&packed).unwrap()[0] + 8;
    edited[start..start + 4].copy_from_slice(&(-0.0f32).to_be_bytes());
    let patched = patch_bytes(&packed, &packed, &edited).unwrap();
    assert_eq!(u32::from_be_bytes(patched[start..start + 4].try_into().unwrap()), (-0.0f32).to_bits());
}

#[test]
fn sections_out_of_table_order_are_refused_without_panicking() {
    let packed = image([3; 15], 0);
    assert_eq!(transfer_edits(&packed, &packed, &packed).unwrap(), packed);
    let mut swapped = packed.clone();
    // make section 1 start before section 0
    swapped[16..20].copy_from_slice(&20u32.to_be_bytes());
    swapped[20..24].copy_from_slice(&0u32.to_be_bytes());
    assert!(matches!(transfer_edits(&swapped, &swapped, &swapped), Err(KmpError::SectionsOutOfOrder)));
}

#[test]
fn an_unedited_document_merges_unchanged() {
    let sections = || (0..15).map(|i| JsonValue::Array(vec![object(vec![("a", num(i))])])).collect::<Vec<_>>();
    let packed = image([3; 15], 0);
    let merged = begin_field_save(&packed, &packed, sections(), &sections(), &sections(), 0x1234, 0x0500, 0x0500).unwrap();
    assert!(merged.unchanged);
    assert_eq!(merged.came_additional, 0x1234);
    let mut other = packed.clone();
    other.push(0);
    assert!(matches!(
        begin_field_save(&other, &packed, sections(), &sections(), &sections(), 0, 0, 0),
        Err(KmpError::SnapshotMismatch)
    ));
}

fn copy(v: &JsonValue) -> JsonValue {
    match v {
        JsonValue::Number(n) => JsonValue::Number(*n),
        JsonValue::Array(xs) => JsonValue::Array(xs.iter().map(copy).collect()),
        JsonValue::Object(fs) => JsonValue::Object(fs.iter().map(|f| JsonField { key: f.key.clone(), value: copy(&f.value) }).collect()),
        JsonValue::Bool(b) => JsonValue::Bool(*b),
        JsonValue::Text(t) => JsonValue::Text(t.clone()),
        JsonValue::Null => JsonValue::Null,
    }
}

fn loaded(source: &[u8], path: &[u8], groups: SourceGroups) -> LoadedKmp {
    LoadedKmp {
        original_bytes: source.to_vec(),
        signature: StructuralSignature { sections: vec![], graph: vec![], checkpoint_pairs: vec![] },
        disk_versions: vec![DiskVersion { path: path.to_vec(), bytes: source.to_vec() }],
        source: groups,
        links: LoadedLinks::default(),
    }
}

fn no_groups() -> SourceGroups {
    SourceGroups { enph: vec![], enpt_count: 0, itph: vec![], itpt_count: 0, ckph: vec![], ckpt_count: 0 }
}

fn input(packed: &[u8], original: &[JsonValue], baseline: &[JsonValue], current: &[JsonValue]) -> FieldSaveInput {
    FieldSaveInput {
        current: StructuralSignature { sections: vec![], graph: vec![], checkpoint_pairs: vec![] },
        incomplete: None,
        nodes_kept: true,
        route: vec![],
        respawn: vec![],
        objects: vec![],
        reparsed_packed: packed.to_vec(),
        original_packed: packed.to_vec(),
        original: original.iter().map(copy).collect(),
        baseline: baseline.iter().map(copy).collect(),
        current_sections: current.iter().map(copy).collect(),
        enemy: vec![],
        item: vec![],
        checkpoint: vec![],
        original_came: 0,
        baseline_came: 0,
        current_came: 0,
    }
}

#[test]
fn unsaved_changes_track_persisted_output_not_editor_only_state() {
    let path = b"/tracks/course.kmp".to_vec();
    let source = image([4; 15], 0);
    let mut doc = loaded(&source, &path, no_groups());
    let track = |laps: u64| -> Vec<JsonValue> {
        (0..15).map(|i| JsonValue::Array(vec![object(vec![("lap_count", num(if i == 14 { laps } else { 0 }))])])).collect()
    };
    let baseline = track(3);
    // the encoder writes the merged lap count into the STGI payload
    let stgi = section_starts(&source).unwrap()[14] + 8;
    let encoded = source.clone();
    let encode = move |m: DocumentMerge| -> Result<Vec<u8>, KmpError> {
        let mut bytes = encoded.clone();
        if let JsonValue::Array(rows) = &m.sections[14] {
            if let JsonValue::Object(fields) = &rows[0] {
                if let JsonValue::Number(JsonNumber::PosInt(n)) = fields[0].value {
                    bytes[stgi] = n as u8;
                }
            }
        }
        Ok(bytes)
    };
    // an editor-only change (nothing any record holds) is not unsaved
    assert!(!has_unsaved_changes(Some(&doc), &input(&source, &baseline, &baseline, &baseline), &encode, &path).unwrap());
    // changing the lap count is
    let edit = input(&source, &baseline, &baseline, &track(7));
    assert!(has_unsaved_changes(Some(&doc), &edit, &encode, &path).unwrap());
    let saved = doc.field_save(&edit, &encode).unwrap();
    assert_eq!(saved[stgi], 7);
    record_saved(&mut doc, path.clone(), saved.clone());
    assert!(!has_unsaved_changes(Some(&doc), &edit, &encode, &path).unwrap());
    // reverting to the loaded value differs from what was saved
    assert!(has_unsaved_changes(Some(&doc), &input(&source, &baseline, &baseline, &baseline), &encode, &path).unwrap());
}

#[test]
fn overlapping_groups_roundtrip_but_conflicting_edits_are_refused() {
    let path = b"/tracks/course.kmp".to_vec();
    let source = image([4; 15], 0);
    // ENPH exposes ENPT row 0 twice: groups (0, 2) and (0, 1)
    let groups = SourceGroups {
        enph: vec![
            PathGroup { start: 0, group_length: 2, prev_group: vec![255; 6], next_group: vec![255; 6], unknown: 0 },
            PathGroup { start: 0, group_length: 1, prev_group: vec![255; 6], next_group: vec![255; 6], unknown: 0 },
        ],
        enpt_count: 2,
        ..no_groups()
    };
    let doc = loaded(&source, &path, groups);
    let point = |leniency: u64| object(vec![("leniency", num(leniency))]);
    let mut sections: Vec<JsonValue> = (0..15).map(|_| JsonValue::Array(vec![])).collect();
    sections[1] = JsonValue::Array(vec![point(10), point(20)]);
    let encode = |_: DocumentMerge| -> Result<Vec<u8>, KmpError> { Err(KmpError::EncodingFailed) };
    // exported in editor order, matched to source rows 0, 0, 1
    let same = FieldSaveInput { enemy: vec![point(10), point(10), point(20)], ..input(&source, &sections, &sections, &sections) };
    assert_eq!(doc.field_save(&same, &encode), Ok(source.clone()));
    assert!(!has_unsaved_changes(Some(&doc), &same, &encode, &path).unwrap());
    let conflicting = FieldSaveInput { enemy: vec![point(25), point(10), point(20)], ..input(&source, &sections, &sections, &sections) };
    let refused = doc.field_save(&conflicting, &encode).unwrap_err();
    assert_eq!(refused, KmpError::ConflictingSharedEdit(SectionName::EnemyPathPoint, 0));
    assert!(refused.message().contains("Conflicting edits"));
    let fewer = FieldSaveInput { enemy: vec![point(10)], ..input(&source, &sections, &sections, &sections) };
    assert_eq!(doc.field_save(&fewer, &encode), Err(KmpError::SnapshotCountChanged(SectionName::EnemyPathPoint)));
}

#[test]
fn a_field_patch_keeps_the_source_bytes_or_transfers_the_edits() {
    let source = image([4; 15], 2);
    let sections = |v: u64| -> Vec<JsonValue> { (0..15).map(|i| JsonValue::Array(vec![object(vec![("v", num(if i == 0 { v } else { 0 }))])])).collect() };
    let mut edited = source.clone();
    let ktpt = section_starts(&source).unwrap()[0] + 8;
    edited[ktpt] = 0x99;
    let encode = |_: DocumentMerge| -> Result<Vec<u8>, KmpError> { Ok(edited.clone()) };
    let kept = patch_document(&source, &source, &source, &sections(1), &sections(1), &sections(1), (0, 0, 0), &encode).unwrap();
    assert_eq!(kept, source);
    let patched = patch_document(&source, &source, &source, &sections(1), &sections(1), &sections(2), (0, 0, 0), &encode).unwrap();
    assert_eq!(patched, edited);
    let failing = |_: DocumentMerge| -> Result<Vec<u8>, KmpError> { Err(KmpError::EncodingFailed) };
    assert_eq!(
        patch_document(&source, &source, &source, &sections(1), &sections(1), &sections(2), (0, 0, 0), &failing),
        Err(KmpError::EncodingFailed)
    );
}
