use kmpeek::document::{
    get_kmp_data_and_component_groups, has_kmp_extension, has_unsaved_changes, normalize_ordering, ordered, record_saved, save, source_indices, CheckpointPair,
    DiskVersion, EditorOrder, LoadedKmp, LoadedLinks, NodeRecord, PathGroup, SectionEntities, SectionName, SectionPoints, SourceGroups,
    StructuralSignature,
    StructureSource,
};
use kmpeek::error::KmpError;
use kmpeek::field_save::FieldSaveInput;
use kmpeek::graph::KmpPathNode;
use kmpeek::json::JsonValue;
use kmpeek::patch::DocumentMerge;
use kmpeek::ordering::{refresh_order, OrderedPoint};

fn pt(entity: u64, order: Option<u32>) -> OrderedPoint {
    OrderedPoint { entity, order }
}

fn group(start: u8, group_length: u8) -> PathGroup {
    PathGroup { start, group_length, prev_group: vec![255; 6], next_group: vec![255; 6], unknown: 0 }
}

#[test]
fn document_order_puts_missing_ids_first_and_breaks_ties_by_entity() {
    let points = vec![pt(1, Some(30)), pt(2, None), pt(4, Some(10)), pt(3, Some(10))];
    assert_eq!(ordered(&points), vec![2, 3, 4, 1]);
    assert_eq!(ordered(&vec![]), Vec::<u64>::new());
}

#[test]
fn import_ranges_widen_before_addition_and_keep_invalid_slots() {
    let groups = vec![group(250, 10), group(255, 10), group(0, 1)];
    let indices = source_indices(&groups, 260);
    assert_eq!(indices.len(), 11);
    assert_eq!(indices[..10].to_vec(), (250..260).collect::<Vec<usize>>());
    assert_eq!(indices[10], 0);
    // overlapping groups repeat indices
    assert_eq!(source_indices(&vec![group(0, 2), group(1, 1)], 2), vec![0, 1, 1]);
}

#[test]
fn refresh_order_renumbers_densely_keeping_order_and_list_ties() {
    let mut points = vec![pt(1, Some(5)), pt(2, None), pt(3, Some(5)), pt(4, Some(2))];
    let next = refresh_order(&mut points);
    assert_eq!(next, 3);
    assert_eq!(points, vec![pt(1, Some(1)), pt(2, None), pt(3, Some(2)), pt(4, Some(0))]);
    // renumbering is idempotent
    let again = refresh_order(&mut points);
    assert_eq!(again, 3);
    assert_eq!(points, vec![pt(1, Some(1)), pt(2, None), pt(3, Some(2)), pt(4, Some(0))]);
}

#[test]
fn normalize_ordering_restores_source_order_then_renumbers() {
    let mut sections: Vec<Vec<OrderedPoint>> = (0..11).map(|_| Vec::new()).collect();
    sections[0] = vec![pt(1, Some(7))];
    sections[1] = vec![pt(10, Some(5)), pt(11, Some(1))];
    sections[3] = vec![pt(20, None)];
    let mut state = EditorOrder {
        sections,
        pairs: vec![CheckpointPair { left: 20, right: 21, right_order: None }],
        next_ids: vec![],
    };
    let kmp = SourceGroups {
        enph: vec![group(1, 1), group(0, 1)],
        enpt_count: 2,
        itph: vec![],
        itpt_count: 0,
        ckph: vec![group(0, 1)],
        ckpt_count: 1,
    };
    normalize_ordering(&mut state, &kmp);
    assert_eq!(state.sections[0], vec![pt(1, Some(0))]);
    // point 11 comes first in document order and takes source index 1
    assert_eq!(state.sections[1], vec![pt(10, Some(0)), pt(11, Some(1))]);
    assert_eq!(state.sections[3], vec![pt(20, Some(0))]);
    assert_eq!(state.pairs[0].right_order, Some(0));
    assert_eq!(state.next_ids, vec![1, 2, 0, 1, 0, 0, 0, 0, 0, 0, 0]);
}

fn world(order: u32, linked: bool) -> StructureSource {
    let mut node = KmpPathNode::default();
    if linked {
        node.next_nodes.push(3);
    }
    StructureSource {
        sections: vec![
            SectionPoints { name: SectionName::StartPoint, points: vec![pt(1, Some(0))] },
            SectionPoints { name: SectionName::EnemyPathPoint, points: vec![pt(2, Some(order)), pt(3, Some(1))] },
        ],
        nodes: vec![
            NodeRecord { entity: 2, node: Some(node), overall_start: true },
            NodeRecord { entity: 3, node: None, overall_start: false },
            NodeRecord { entity: 4, node: None, overall_start: true },
        ],
        checkpoint_lefts: vec![(9, 8), (5, 6)],
    }
}

#[test]
fn structural_signature_refuses_reordering_and_topology_changes() {
    let loaded = StructuralSignature::capture(&world(0, false));
    let same = StructuralSignature::capture(&world(0, false));
    assert!(loaded.validate(&same).is_ok());
    assert_eq!(loaded.sections[1].entities, vec![2, 3]);
    assert_eq!(loaded.graph.len(), 2);
    assert_eq!(loaded.checkpoint_pairs, vec![(5, 6), (9, 8)]);
    let reordered = StructuralSignature::capture(&world(2, false));
    assert!(matches!(loaded.validate(&reordered), Err(KmpError::StructuralSectionChanged(SectionName::EnemyPathPoint))));
    assert!(KmpError::StructuralSectionChanged(SectionName::EnemyPathPoint)
        .message()
        .contains("EnemyPathPoint points were added, removed, or reordered"));
    let relinked = StructuralSignature::capture(&world(0, true));
    assert!(matches!(loaded.validate(&relinked), Err(KmpError::StructuralTopologyChanged)));
}

fn bytes(s: &str) -> Vec<u8> {
    s.as_bytes().to_vec()
}

fn document(versions: Vec<(&str, Vec<u8>)>) -> LoadedKmp {
    LoadedKmp {
        original_bytes: vec![],
        signature: StructuralSignature { sections: vec![], graph: vec![], checkpoint_pairs: vec![] },
        disk_versions: versions.into_iter().map(|(p, b)| DiskVersion { path: bytes(p), bytes: b }).collect(),
        source: no_groups(),
        links: LoadedLinks::default(),
    }
}

#[test]
fn kmp_extension_follows_the_last_path_component() {
    assert!(has_kmp_extension(&bytes("course.kmp")));
    assert!(has_kmp_extension(&bytes("dir/course.kmp")));
    assert!(has_kmp_extension(&bytes("dir/course.kmp/.")));
    assert!(has_kmp_extension(&bytes("dir/.hidden.kmp")));
    assert!(!has_kmp_extension(&bytes("dir/.kmp")));
    assert!(!has_kmp_extension(&bytes("course.kmp.bak")));
    assert!(!has_kmp_extension(&bytes("course.KMP")));
    assert!(!has_kmp_extension(&bytes("dir/..")));
    assert!(!has_kmp_extension(&bytes("")));
}

#[test]
fn save_plans_destination_extension_document_and_mode() {
    let doc = document(vec![]);
    let plan = save(Some(bytes("new.kmp")), Some(bytes("old.kmp")), Some(&doc), Some(true)).unwrap();
    assert_eq!(plan.path, bytes("new.kmp"));
    assert!(plan.patch_saving);
    let plan = save(None, Some(bytes("old.kmp")), Some(&doc), None).unwrap();
    assert_eq!(plan.path, bytes("old.kmp"));
    assert!(!plan.patch_saving);
    assert!(matches!(save(None, None, Some(&doc), None), Err(KmpError::NoDestination)));
    assert!(matches!(save(Some(bytes("a.txt")), None, Some(&doc), None), Err(KmpError::NotKmpExtension)));
    assert!(matches!(save(Some(bytes("a.kmp")), None, None, None), Err(KmpError::NoDocument)));
}

/// A save input where nothing was edited: empty sections, no links.
fn untouched(current: StructuralSignature) -> FieldSaveInput {
    let sections = || (0..15).map(|_| JsonValue::Array(vec![])).collect::<Vec<_>>();
    FieldSaveInput {
        current,
        incomplete: None,
        nodes_kept: true,
        route: vec![],
        respawn: vec![],
        objects: vec![],
        reparsed_packed: vec![],
        original_packed: vec![],
        original: sections(),
        baseline: sections(),
        current_sections: sections(),
        enemy: vec![],
        item: vec![],
        checkpoint: vec![],
        original_came: 0,
        baseline_came: 0,
        current_came: 0,
    }
}

fn empty_signature() -> StructuralSignature {
    StructuralSignature { sections: vec![], graph: vec![], checkpoint_pairs: vec![] }
}

fn never_encoded(_: DocumentMerge) -> Result<Vec<u8>, KmpError> {
    panic!("an unedited document is not encoded")
}

#[test]
fn unsaved_changes_compare_against_the_bytes_on_the_active_destination() {
    let doc = LoadedKmp { original_bytes: vec![1, 2], ..document(vec![("/x/a.kmp", vec![1, 2]), ("/x/b.kmp", vec![3])]) };
    let input = untouched(empty_signature());
    assert_eq!(has_unsaved_changes(None, &input, never_encoded, &bytes("/x/a.kmp")).unwrap(), false);
    assert_eq!(has_unsaved_changes(Some(&doc), &input, never_encoded, &bytes("/x/a.kmp")).unwrap(), false);
    assert_eq!(has_unsaved_changes(Some(&doc), &input, never_encoded, &bytes("/x/b.kmp")).unwrap(), true);
    assert!(matches!(has_unsaved_changes(Some(&doc), &input, never_encoded, &bytes("/x/c.kmp")), Err(KmpError::NoSavedVersion)));
    // a refused save is passed on
    let broken = FieldSaveInput { nodes_kept: false, ..untouched(empty_signature()) };
    assert_eq!(has_unsaved_changes(Some(&doc), &broken, never_encoded, &bytes("/x/a.kmp")), Err(KmpError::PathNodeRemoved));
}

#[test]
fn saving_records_the_committed_bytes_per_destination() {
    let mut doc = document(vec![("/x/a.kmp", vec![1, 2])]);
    record_saved(&mut doc, bytes("/x/a.kmp"), vec![5]);
    assert_eq!(doc.disk_versions.len(), 1);
    assert_eq!(doc.disk_versions[0].bytes, vec![5]);
    record_saved(&mut doc, bytes("/x/b.kmp"), vec![6]);
    assert_eq!(doc.disk_versions.len(), 2);
    assert_eq!(doc.disk_versions[1].path, bytes("/x/b.kmp"));
    let doc = LoadedKmp { original_bytes: vec![6], ..doc };
    assert_eq!(has_unsaved_changes(Some(&doc), &untouched(empty_signature()), never_encoded, &bytes("/x/b.kmp")).unwrap(), false);
}

fn no_groups() -> SourceGroups {
    SourceGroups { enph: vec![], enpt_count: 0, itph: vec![], itpt_count: 0, ckph: vec![], ckpt_count: 0 }
}

fn loaded_with(sections: Vec<(SectionName, Vec<u64>)>, source: SourceGroups) -> LoadedKmp {
    LoadedKmp {
        original_bytes: vec![],
        signature: StructuralSignature {
            sections: sections.into_iter().map(|(name, entities)| SectionEntities { name, entities }).collect(),
            graph: vec![],
            checkpoint_pairs: vec![],
        },
        disk_versions: vec![],
        source,
        links: LoadedLinks::default(),
    }
}

#[test]
fn source_identity_mapping_preserves_orphan_holes() {
    let entity = 7;
    let source = SourceGroups { enph: vec![group(1, 1)], enpt_count: 2, ..no_groups() };
    let doc = loaded_with(vec![(SectionName::EnemyPathPoint, vec![entity])], source);
    assert_eq!(doc.source_entity(SectionName::EnemyPathPoint, 0), None);
    assert_eq!(doc.source_entity(SectionName::EnemyPathPoint, 1), Some(entity));
    assert_eq!(doc.original_index(SectionName::EnemyPathPoint, entity), Some(1));
}

#[test]
fn grouped_source_rows_follow_ascending_source_indices() {
    let source = SourceGroups { itph: vec![group(2, 2), group(0, 1), group(0, 1)], itpt_count: 4, ..no_groups() };
    let doc = loaded_with(vec![(SectionName::ItemPathPoint, vec![10, 11, 12, 13, 14])], source);
    assert_eq!(doc.original_index(SectionName::ItemPathPoint, 10), Some(0));
    assert_eq!(doc.original_index(SectionName::ItemPathPoint, 11), Some(0));
    assert_eq!(doc.original_index(SectionName::ItemPathPoint, 12), Some(2));
    assert_eq!(doc.original_index(SectionName::ItemPathPoint, 13), Some(3));
    assert_eq!(doc.original_index(SectionName::ItemPathPoint, 14), None);
    assert_eq!(doc.source_entity(SectionName::ItemPathPoint, 0), Some(10));
    assert_eq!(doc.source_entity(SectionName::ItemPathPoint, 1), None);
}

#[test]
fn ungrouped_source_rows_are_places_in_the_loaded_list() {
    let doc = loaded_with(vec![(SectionName::KmpCamera, vec![5, 6, 7])], no_groups());
    assert_eq!(doc.original_index(SectionName::KmpCamera, 6), Some(1));
    assert_eq!(doc.original_index(SectionName::KmpCamera, 9), None);
    assert_eq!(doc.original_index(SectionName::AreaPoint, 6), None);
    assert_eq!(doc.source_entity(SectionName::KmpCamera, 2), Some(7));
    assert_eq!(doc.source_entity(SectionName::KmpCamera, 3), None);
}

#[test]
fn import_groups_keep_invalid_slots_and_drop_unused_links() {
    let mut bad = group(250, 10);
    bad.next_group = vec![1, 255, 0, 255, 255, 255];
    let groups = vec![group(0, 2), bad, group(2, 1)];
    let r = get_kmp_data_and_component_groups(&groups, 3);
    assert_eq!(r.len(), 3);
    assert_eq!(r[0].nodes, vec![0, 1]);
    assert!(r[0].next_groups.is_empty());
    assert!(r[1].nodes.is_empty());
    assert_eq!(r[1].next_groups, vec![1, 0]);
    assert_eq!(r[2].nodes, vec![2]);
}

fn linked_doc(links: LoadedLinks) -> LoadedKmp {
    LoadedKmp { links, ..document(vec![]) }
}

#[test]
fn unchanged_links_are_kept_even_when_their_ids_are_wide() {
    let links = LoadedLinks {
        route_ids: vec![(100, 300)],
        respawn_ids: vec![(200, 400)],
        route_links: vec![(1, 100)],
        respawn_links: vec![(2, 200)],
    };
    let doc = linked_doc(links);
    assert_eq!(doc.validate_links(&vec![(1, 100)], &vec![(2, 200)], &vec![]), Ok(()));
}

#[test]
fn object_route_links_may_use_sixteen_bit_ids_others_eight() {
    let links = LoadedLinks {
        route_ids: vec![(100, 0), (101, 256)],
        respawn_ids: vec![],
        route_links: vec![(1, 100)],
        respawn_links: vec![],
    };
    let doc = linked_doc(links);
    // object 1 relinked to route id 256
    assert_eq!(doc.validate_links(&vec![(1, 101)], &vec![], &vec![1]), Ok(()));
    // a camera may not
    assert_eq!(doc.validate_links(&vec![(1, 101)], &vec![], &vec![]), Err(KmpError::RouteLinkTargetOutOfRange(256)));
    assert_eq!(
        KmpError::RouteLinkTargetOutOfRange(256).message(),
        "Changed route link targets route 256, outside this section's supported range"
    );
    // a new link to an unknown route
    assert_eq!(doc.validate_links(&vec![(1, 100), (5, 999)], &vec![], &vec![]), Err(KmpError::RouteLinkUnknownTarget));
}

#[test]
fn changing_links_with_wide_original_ids_or_removing_respawns_is_refused() {
    let links = LoadedLinks {
        route_ids: vec![(100, 300), (101, 1)],
        respawn_ids: vec![(200, 400), (201, 1)],
        route_links: vec![(1, 100)],
        respawn_links: vec![(2, 200)],
    };
    let doc = linked_doc(links);
    assert_eq!(doc.validate_links(&vec![(1, 101)], &vec![(2, 200)], &vec![]), Err(KmpError::RouteLinkOriginalOutOfRange));
    assert_eq!(doc.validate_links(&vec![(1, 100)], &vec![], &vec![]), Err(KmpError::RespawnLinkRemoved));
    assert_eq!(doc.validate_links(&vec![(1, 100)], &vec![(2, 201)], &vec![]), Err(KmpError::RespawnLinkOriginalOutOfRange));
}

#[test]
fn structural_edits_are_refused_before_a_field_save_writes() {
    let loaded = StructuralSignature::capture(&world(0, false));
    let doc = LoadedKmp { signature: loaded, ..document(vec![]) };
    let same = StructuralSignature::capture(&world(0, false));
    assert_eq!(doc.check_field_save(&same, None, true, &vec![], &vec![], &vec![]), Ok(()));
    let reordered = StructuralSignature::capture(&world(2, false));
    assert_eq!(
        doc.check_field_save(&reordered, None, true, &vec![], &vec![], &vec![]),
        Err(KmpError::StructuralSectionChanged(SectionName::EnemyPathPoint))
    );
    assert_eq!(
        doc.check_field_save(&same, Some(SectionName::Object), true, &vec![], &vec![], &vec![]),
        Err(KmpError::IncompletePoint(SectionName::Object))
    );
    assert_eq!(doc.check_field_save(&same, None, false, &vec![], &vec![], &vec![]), Err(KmpError::PathNodeRemoved));
    // the whole field-only save refuses before it encodes anything
    let doc = LoadedKmp { original_bytes: vec![7, 7], ..doc };
    assert_eq!(doc.field_save(&untouched(StructuralSignature::capture(&world(0, false))), never_encoded), Ok(vec![7, 7]));
    assert_eq!(
        doc.field_save(&untouched(StructuralSignature::capture(&world(2, false))), never_encoded),
        Err(KmpError::StructuralSectionChanged(SectionName::EnemyPathPoint))
    );
    let incomplete = FieldSaveInput { incomplete: Some(SectionName::Object), ..untouched(StructuralSignature::capture(&world(0, false))) };
    assert_eq!(doc.field_save(&incomplete, never_encoded), Err(KmpError::IncompletePoint(SectionName::Object)));
    assert_eq!(
        doc.check_field_save(&same, None, true, &vec![(1, 5)], &vec![], &vec![]),
        Err(KmpError::RouteLinkUnknownTarget)
    );
}
