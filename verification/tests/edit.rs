use kmpeek::edit::{
    create_respawn_link, get_both_cp_nodes, link_checkpoint_pair, link_checkpoint_points, unlink_points, CheckpointSides,
    GetSelectedCheckpoints,
};
use kmpeek::graph::{link_points, GraphEntry, KmpPathNode, PathGraph};

fn entry(entity: u64) -> GraphEntry {
    GraphEntry { entity, node: KmpPathNode::default(), overall_start: false, route_start: false, order: None }
}

fn node(g: &PathGraph, e: u64) -> &KmpPathNode {
    &g.entries.iter().find(|x| x.entity == e).unwrap().node
}

fn no_sides() -> CheckpointSides {
    CheckpointSides { lefts: vec![], rights: vec![] }
}

#[test]
fn checkpoint_sides_are_found_from_either_half() {
    let sides = CheckpointSides { lefts: vec![(1, 11), (2, 12)], rights: vec![(11, 1), (12, 2)] };
    assert_eq!(get_both_cp_nodes(&sides, 1), (1, 11));
    assert_eq!(get_both_cp_nodes(&sides, 12), (2, 12));
}

#[test]
fn checkpoints_are_selected_by_either_side() {
    let q = GetSelectedCheckpoints { checkpoints: vec![(1, false), (2, true), (3, false)], selected_right_lefts: vec![3] };
    assert_eq!(q.get_entities(), vec![2, 3]);
}

#[test]
fn one_click_links_every_selected_point() {
    let mut g = PathGraph { entries: vec![entry(1), entry(2), entry(3)] };
    assert!(link_points(&mut g, &vec![1, 2], 3));
    assert_eq!(node(&g, 3).prev_nodes, vec![1, 2]);
    assert_eq!(node(&g, 1).next_nodes, vec![3]);
    assert_eq!(node(&g, 2).next_nodes, vec![3]);
}

#[test]
fn one_click_that_cannot_link_every_point_links_none() {
    let mut g = PathGraph { entries: vec![entry(1), entry(2), entry(3)] };
    // the clicked point itself cannot be linked to itself, so the earlier link is rolled back
    assert!(!link_points(&mut g, &vec![1, 3], 3));
    assert!(node(&g, 3).prev_nodes.is_empty());
    assert!(node(&g, 1).next_nodes.is_empty());
    // a link that would close a cycle away from the start is refused too
    assert!(link_points(&mut g, &vec![1], 2));
    assert!(!link_points(&mut g, &vec![3, 2], 1));
    assert!(node(&g, 1).prev_nodes.is_empty());
    assert!(node(&g, 3).next_nodes.is_empty());
    assert_eq!(node(&g, 2).prev_nodes, vec![1]);
}

#[test]
fn unlinking_removes_every_link_of_the_selected_points() {
    let mut g = PathGraph { entries: vec![entry(1), entry(2), entry(3), entry(4)] };
    assert!(link_points(&mut g, &vec![1], 2));
    assert!(link_points(&mut g, &vec![2], 3));
    assert!(link_points(&mut g, &vec![3], 4));
    assert!(unlink_points(&mut g, &no_sides(), &vec![2]));
    assert!(node(&g, 1).next_nodes.is_empty());
    assert!(node(&g, 2).prev_nodes.is_empty() && node(&g, 2).next_nodes.is_empty());
    assert!(node(&g, 3).prev_nodes.is_empty());
    assert_eq!(node(&g, 3).next_nodes, vec![4]);
    assert!(!unlink_points(&mut g, &no_sides(), &vec![2]));
}

#[test]
fn unlinking_a_checkpoint_unlinks_both_sides() {
    let mut g = PathGraph { entries: vec![entry(1), entry(11), entry(2), entry(12)] };
    let sides = CheckpointSides { lefts: vec![(1, 11), (2, 12)], rights: vec![(11, 1), (12, 2)] };
    assert!(link_points(&mut g, &vec![1], 2));
    assert!(link_points(&mut g, &vec![11], 12));
    assert!(unlink_points(&mut g, &sides, &vec![2]));
    assert!(node(&g, 1).next_nodes.is_empty());
    assert!(node(&g, 11).next_nodes.is_empty());
    assert!(node(&g, 12).prev_nodes.is_empty());
}

#[test]
fn link_select_mode_sets_respawn_points_of_checkpoints() {
    let mut cps = vec![(1, None), (2, Some(40)), (3, None)];
    create_respawn_link(&vec![40, 41], &mut cps, 41, &vec![1, 2]);
    assert_eq!(cps, vec![(1, Some(41)), (2, Some(41)), (3, None)]);
    create_respawn_link(&vec![40, 41], &mut cps, 99, &vec![3]);
    assert_eq!(cps[2], (3, None));
}

fn checkpoints_graph() -> (PathGraph, CheckpointSides) {
    let g = PathGraph { entries: vec![entry(1), entry(11), entry(2), entry(12), entry(3), entry(13)] };
    let sides = CheckpointSides { lefts: vec![(1, 11), (2, 12), (3, 13)], rights: vec![(11, 1), (12, 2), (13, 3)] };
    (g, sides)
}

#[test]
fn linking_checkpoints_links_both_sides() {
    let (mut g, sides) = checkpoints_graph();
    // clicking the right side of checkpoint 2 links the whole pair
    assert!(link_checkpoint_pair(&mut g, &sides, 1, 12));
    assert_eq!(node(&g, 1).next_nodes, vec![2]);
    assert_eq!(node(&g, 11).next_nodes, vec![12]);
}

#[test]
fn a_checkpoint_pair_refused_on_one_side_is_not_linked_on_the_other() {
    let (mut g, sides) = checkpoints_graph();
    // the right sides are already linked, so the pair link is refused and the left link undone
    assert!(link_points(&mut g, &vec![11], 12));
    assert!(!link_checkpoint_pair(&mut g, &sides, 1, 2));
    assert!(node(&g, 1).next_nodes.is_empty());
    assert!(node(&g, 2).prev_nodes.is_empty());
    assert_eq!(node(&g, 11).next_nodes, vec![12]);
}

#[test]
fn one_click_on_a_checkpoint_links_every_selected_pair_or_none() {
    let (mut g, sides) = checkpoints_graph();
    assert!(link_checkpoint_points(&mut g, &sides, &vec![1, 12], 3));
    assert_eq!(node(&g, 3).prev_nodes, vec![1, 2]);
    assert_eq!(node(&g, 13).prev_nodes, vec![11, 12]);
    let (mut g, sides) = checkpoints_graph();
    assert!(!link_checkpoint_points(&mut g, &sides, &vec![1, 13], 3));
    assert!(node(&g, 3).prev_nodes.is_empty());
    assert!(node(&g, 13).prev_nodes.is_empty());
    assert!(node(&g, 1).next_nodes.is_empty());
}
