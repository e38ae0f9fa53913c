use kmpeek::graph::{link_entity_groups, link_imported_nodes, EntityGroup, GraphEntry, KmpPathNode, PathGraph};
use kmpeek::traverse::{traverse, EntityPathGroup};

fn entry(entity: u64, overall_start: bool, order: Option<u32>) -> GraphEntry {
    GraphEntry { entity, node: KmpPathNode::default(), overall_start, route_start: false, order }
}

fn graph_of(entries: Vec<GraphEntry>) -> PathGraph {
    PathGraph { entries }
}

fn node(g: &PathGraph, e: u64) -> &KmpPathNode {
    &g.entries.iter().find(|x| x.entity == e).unwrap().node
}

fn path_containing(paths: &[EntityPathGroup], e: u64) -> usize {
    paths.iter().position(|p| p.path.contains(&e)).expect("entity should belong to a traversed path")
}

#[test]
fn traverse_linear_path() {
    let mut g = graph_of(vec![entry(1, true, None), entry(2, false, None), entry(3, false, None)]);
    assert!(KmpPathNode::link_nodes(1, 2, &mut g));
    assert!(KmpPathNode::link_nodes(2, 3, &mut g));
    let paths = traverse(&g);
    assert_eq!(paths.len(), 1);
    assert_eq!(paths[0].path, vec![1, 2, 3]);
    assert!(paths[0].prev_paths.is_empty());
    assert!(paths[0].next_paths.is_empty());
}

#[test]
fn traverse_branch_creates_separate_groups() {
    let (a, branch, left, right) = (1, 2, 3, 4);
    let mut g = graph_of(vec![entry(a, true, None), entry(branch, false, None), entry(left, false, None), entry(right, false, None)]);
    assert!(KmpPathNode::link_nodes(a, branch, &mut g));
    assert!(KmpPathNode::link_nodes(branch, left, &mut g));
    assert!(KmpPathNode::link_nodes(branch, right, &mut g));
    let paths = traverse(&g);
    let root_path = path_containing(&paths, a);
    let left_path = path_containing(&paths, left);
    let right_path = path_containing(&paths, right);
    assert_eq!(paths.len(), 3);
    assert_eq!(paths[root_path].path, vec![a, branch]);
    assert_eq!(paths[root_path].next_paths.len(), 2);
    assert!(paths[root_path].next_paths.contains(&left_path));
    assert!(paths[root_path].next_paths.contains(&right_path));
    assert_eq!(paths[left_path].prev_paths, vec![root_path]);
    assert_eq!(paths[right_path].prev_paths, vec![root_path]);
}

#[test]
fn traverse_disconnected_nodes_creates_separate_groups() {
    let g = graph_of(vec![entry(1, true, None), entry(2, false, None)]);
    let paths = traverse(&g);
    assert_eq!(paths.len(), 2);
    assert_ne!(path_containing(&paths, 1), path_containing(&paths, 2));
}

#[test]
fn traverse_singleton_including_self_link() {
    let mut g = graph_of(vec![entry(1, true, None)]);
    let paths = traverse(&g);
    assert_eq!(paths.len(), 1);
    assert_eq!(paths[0].path, vec![1]);
    link_imported_nodes(&mut g, 1, 1);
    let paths = traverse(&g);
    assert_eq!(paths[0].path, vec![1]);
    assert_eq!(paths[0].prev_paths, vec![0]);
    assert_eq!(paths[0].next_paths, vec![0]);
}

#[test]
fn unanchored_cycle_starts_at_lowest_order_id() {
    let (a, b, c) = (1, 2, 3);
    let mut g = graph_of(vec![entry(a, false, Some(30)), entry(b, false, Some(10)), entry(c, false, Some(20))]);
    for (previous, next) in [(a, b), (b, c), (c, a)] {
        link_imported_nodes(&mut g, previous, next);
    }
    let paths = traverse(&g);
    assert_eq!(paths.len(), 1);
    assert_eq!(paths[0].path, vec![b, c, a]);
    assert_eq!(paths[0].next_paths, vec![0]);
}

#[test]
fn traverse_imported_cycle_terminates_and_links_group_to_itself() {
    let (a, b, c) = (1, 2, 3);
    let mut g = graph_of(vec![entry(a, true, None), entry(b, false, None), entry(c, false, None)]);
    assert!(KmpPathNode::link_nodes(a, b, &mut g));
    assert!(KmpPathNode::link_nodes(b, c, &mut g));
    // cyclic data as imported from a file: interactive linking rejects it
    g.entries[2].node.next_nodes.push(a);
    g.entries[0].node.prev_nodes.push(c);
    let paths = traverse(&g);
    assert_eq!(paths.len(), 1);
    assert_eq!(paths[0].path.len(), 3);
    assert_eq!(paths[0].next_paths, vec![0]);
    assert_eq!(paths[0].prev_paths, vec![0]);
}

#[test]
fn linking_allows_terminal_node_to_close_main_cycle() {
    let (a, b, c) = (1, 2, 3);
    let mut g = graph_of(vec![entry(a, true, None), entry(b, false, None), entry(c, false, None)]);
    assert!(KmpPathNode::link_nodes(a, b, &mut g));
    assert!(KmpPathNode::link_nodes(b, c, &mut g));
    assert!(KmpPathNode::link_nodes(c, a, &mut g));
    assert!(node(&g, c).next_nodes.contains(&a));
    assert!(node(&g, a).prev_nodes.contains(&c));
}

#[test]
fn linking_rejects_inner_cycle_without_mutating_graph() {
    let (a, b, c, d) = (1, 2, 3, 4);
    let mut g = graph_of(vec![entry(a, true, None), entry(b, false, None), entry(c, false, None), entry(d, false, None)]);
    assert!(KmpPathNode::link_nodes(a, b, &mut g));
    assert!(KmpPathNode::link_nodes(b, c, &mut g));
    assert!(KmpPathNode::link_nodes(c, d, &mut g));
    assert!(!KmpPathNode::link_nodes(d, b, &mut g));
    assert!(!node(&g, d).next_nodes.contains(&b));
    assert!(!node(&g, b).prev_nodes.contains(&d));
}

#[test]
fn linking_rejects_full_endpoints() {
    let mut g = graph_of(vec![
        GraphEntry { entity: 1, node: KmpPathNode::new(0), overall_start: false, route_start: false, order: None },
        entry(2, false, None),
    ]);
    assert!(!KmpPathNode::link_nodes(1, 2, &mut g));
    assert!(node(&g, 1).next_nodes.is_empty());
    assert!(node(&g, 2).prev_nodes.is_empty());
}

#[test]
fn imported_edges_allow_reverse_self_cycles_and_ignore_invalid_targets() {
    let (a, b, c) = (1, 2, 3);
    let mut g = graph_of(vec![entry(a, false, None), entry(b, false, None), entry(c, false, None)]);
    link_entity_groups(
        &mut g,
        &vec![
            EntityGroup { entities: vec![a], next_groups: vec![0, 1, 1, 3, 99] },
            EntityGroup { entities: vec![b], next_groups: vec![0, 2] },
            EntityGroup { entities: vec![c], next_groups: vec![0] },
            EntityGroup { entities: vec![], next_groups: vec![] },
        ],
    );
    for (previous, next) in [(a, a), (a, b), (b, a), (b, c), (c, a)] {
        assert!(node(&g, previous).next_nodes.contains(&next));
        assert!(node(&g, next).prev_nodes.contains(&previous));
    }
    assert_eq!(node(&g, a).next_nodes.len(), 2);
    let stale = 1000;
    let before = node(&g, a).next_nodes.clone();
    assert!(!link_imported_nodes(&mut g, a, stale));
    assert_eq!(node(&g, a).next_nodes, before);
    assert!(!KmpPathNode::can_link_nodes(a, a, &g));
    let paths = traverse(&g);
    assert_eq!(paths.iter().map(|p| p.path.len()).sum::<usize>(), 3);
}

#[test]
fn unlinking_undoes_a_link() {
    let mut g = graph_of(vec![entry(1, true, None), entry(2, false, None)]);
    assert!(KmpPathNode::link_nodes(1, 2, &mut g));
    assert!(KmpPathNode::unlink_nodes(1, 2, &mut g));
    assert!(node(&g, 1).next_nodes.is_empty());
    assert!(node(&g, 2).prev_nodes.is_empty());
    assert!(!KmpPathNode::unlink_nodes(1, 2, &mut g));
}

fn linked_entry(entity: u64, prev: Vec<u64>, next: Vec<u64>) -> GraphEntry {
    GraphEntry {
        entity,
        node: KmpPathNode::default().with_prev(prev).with_next(next),
        overall_start: false,
        route_start: false,
        order: None,
    }
}

#[test]
fn adding_a_path_node_makes_its_links_reciprocal_and_drops_stale_ones() {
    let mut g = graph_of(vec![linked_entry(1, vec![], vec![]), linked_entry(2, vec![1, 9], vec![3, 8]), linked_entry(3, vec![], vec![])]);
    KmpPathNode::on_add_kmp_path_node(2, &mut g);
    assert_eq!(node(&g, 1).next_nodes, vec![2]);
    assert_eq!(node(&g, 3).prev_nodes, vec![2]);
    assert_eq!(node(&g, 2).prev_nodes, vec![1]);
    assert_eq!(node(&g, 2).next_nodes, vec![3]);
}

#[test]
fn adding_a_self_linked_path_node_records_both_ends() {
    let mut g = graph_of(vec![linked_entry(4, vec![], vec![4])]);
    KmpPathNode::on_add_kmp_path_node(4, &mut g);
    assert_eq!(node(&g, 4).prev_nodes, vec![4]);
    assert_eq!(node(&g, 4).next_nodes, vec![4]);
}

#[test]
fn removing_a_path_node_unlinks_its_neighbours() {
    let mut g = graph_of(vec![linked_entry(1, vec![], vec![2]), linked_entry(2, vec![1], vec![3]), linked_entry(3, vec![2], vec![])]);
    KmpPathNode::on_remove_kmp_path_node(2, &mut g);
    assert_eq!(g.entries.len(), 2);
    assert!(node(&g, 1).next_nodes.is_empty());
    assert!(node(&g, 3).prev_nodes.is_empty());
    let before = g.entries.len();
    KmpPathNode::on_remove_kmp_path_node(7, &mut g);
    assert_eq!(g.entries.len(), before);
}

#[test]
fn adding_node_discards_stale_links() {
    let stale = 99;
    let node_e = 1;
    let mut g = graph_of(vec![linked_entry(node_e, vec![], vec![stale])]);
    KmpPathNode::on_add_kmp_path_node(node_e, &mut g);
    assert!(node(&g, node_e).next_nodes.is_empty());
}

#[test]
fn groups_follow_editor_order_and_walk_back_to_their_run_start() {
    let mut g = graph_of(vec![
        entry(10, false, Some(5)),
        entry(11, false, Some(6)),
        entry(20, false, Some(2)),
        entry(21, false, Some(1)),
        entry(30, false, Some(7)),
        entry(31, false, Some(3)),
        entry(32, false, Some(8)),
    ]);
    assert!(KmpPathNode::link_nodes(10, 11, &mut g));
    assert!(KmpPathNode::link_nodes(20, 21, &mut g));
    assert!(KmpPathNode::link_nodes(30, 31, &mut g));
    assert!(KmpPathNode::link_nodes(31, 32, &mut g));
    let paths = traverse(&g);
    assert_eq!(paths.len(), 3);
    assert_eq!(paths[0].path, vec![20, 21]);
    assert_eq!(paths[1].path, vec![30, 31, 32]);
    assert_eq!(paths[2].path, vec![10, 11]);
}
