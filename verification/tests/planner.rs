use kmpeek::error::KmpError;
use kmpeek::graph::KmpPathNode;
use kmpeek::export::{check_rebuild_counts, check_route_references, object_route, route_headers, route_settings, RouteReference};
use kmpeek::records::{RouteLoopStyle, RouteSettings};
use kmpeek::rebuild::{check_checkpoint_adjacency, checkpoint_links, graph, group_headers, GraphPlan, PlanPoint};
use std::collections::HashSet;

fn point(entity: u64) -> PlanPoint {
    PlanPoint { entity, node: Some(KmpPathNode::default()), overall_start: false }
}

fn node_mut(points: &mut [PlanPoint], e: u64) -> &mut KmpPathNode {
    points.iter_mut().find(|p| p.entity == e).unwrap().node.as_mut().unwrap()
}

fn link(points: &mut [PlanPoint], from: u64, to: u64) {
    node_mut(points, from).next_nodes.push(to);
    node_mut(points, to).prev_nodes.push(from);
}

fn plan(points: &Vec<PlanPoint>, routes: bool) -> GraphPlan {
    match graph(points, routes) {
        Ok(p) => p,
        Err(e) => panic!("planning failed: {:?}", e),
    }
}

#[test]
fn branches_cycles_singletons_are_deterministic_and_covered_once() {
    // editor order: b (10), d (20), c (30), a (40), lone (50)
    let (a, b, c, d, lone) = (1, 2, 3, 4, 5);
    let mut points = vec![point(b), point(d), point(c), point(a), point(lone)];
    points[3].overall_start = true;
    for (from, to) in [(a, b), (b, c), (b, d), (c, a), (d, a), (lone, lone)] {
        link(&mut points, from, to);
    }
    let first = plan(&points, false);
    let second = plan(&points, false);
    assert_eq!(first.groups, second.groups);
    assert_eq!(first.groups[0], vec![a, b]);
    assert_eq!(first.groups.iter().map(Vec::len).sum::<usize>(), 5);
    assert_eq!(first.groups.iter().flatten().collect::<HashSet<_>>().len(), 5);
    assert_eq!(first.next[0], vec![1, 2]);
    assert_eq!(first.next[3], vec![3]);
    assert_eq!(first.group_starts, vec![0, 2, 3, 4]);
}

#[test]
fn every_three_node_topology_preserves_exact_edges_and_membership() {
    for anchored in [false, true] {
        for bits in 0..512u32 {
            let mut points: Vec<PlanPoint> = (0..3).map(point).collect();
            if anchored {
                points[1].overall_start = true;
            }
            let mut expected = HashSet::new();
            for from in 0..3u64 {
                for to in 0..3u64 {
                    if bits & (1 << (from * 3 + to)) != 0 {
                        link(&mut points, from, to);
                        expected.insert((from, to));
                    }
                }
            }
            let p = plan(&points, false);
            assert_eq!(p.groups.iter().map(Vec::len).sum::<usize>(), 3);
            let mut actual = HashSet::new();
            for (id, group) in p.groups.iter().enumerate() {
                for pair in group.windows(2) {
                    actual.insert((pair[0], pair[1]));
                }
                for &next in &p.next[id] {
                    actual.insert((*group.last().unwrap(), p.groups[next][0]));
                }
            }
            assert_eq!(actual, expected, "graph {bits}, anchored {anchored}");
        }
    }
}

#[test]
fn stale_asymmetric_cross_section_and_excess_links_are_errors() {
    let (a, b) = (1, 2);
    let mut points = vec![point(a), point(b)];
    node_mut(&mut points, a).next_nodes.push(b);
    assert!(matches!(graph(&points, false), Err(KmpError::AsymmetricEdge)));
    node_mut(&mut points, b).prev_nodes.push(a);
    let only_a = vec![PlanPoint { entity: a, node: points[0].node.as_ref().map(copy_node), overall_start: false }];
    assert!(matches!(graph(&only_a, false), Err(KmpError::StaleEdge)));
    for e in 3..9 {
        points.push(point(e));
        link(&mut points, a, e);
    }
    assert!(matches!(graph(&points, false), Err(KmpError::TooManyLinks)));
    let missing = vec![PlanPoint { entity: a, node: None, overall_start: false }];
    assert!(matches!(graph(&missing, false), Err(KmpError::MissingGraphComponent)));
}

fn copy_node(n: &KmpPathNode) -> KmpPathNode {
    KmpPathNode { max: n.max, prev_nodes: n.prev_nodes.clone(), next_nodes: n.next_nodes.clone() }
}

#[test]
fn width_limits_and_long_chain_splitting_are_checked() {
    let mut points: Vec<PlanPoint> = (0..256).map(point).collect();
    for e in 0..255u64 {
        link(&mut points, e, e + 1);
    }
    let p = plan(&points, false);
    assert_eq!(p.groups.iter().map(Vec::len).collect::<Vec<_>>(), vec![255, 1]);
    assert_eq!(p.next[0], vec![1]);
    assert_eq!(p.previous[1], vec![0]);
    // a rebuild refuses more than 255 enemy points before planning
    let refused = check_rebuild_counts(1, points.len(), 0).unwrap_err();
    assert_eq!(refused, KmpError::TooManyPathPoints);
    assert!(refused.message().contains("at most 255"));
    // a disconnected group after a 256-point chain cannot encode its start
    points.push(point(256));
    assert!(matches!(graph(&points, false), Err(KmpError::GroupStartOutOfRange)));
}

#[test]
fn multiple_overall_starts_are_refused_outside_routes() {
    let mut points = vec![point(1), point(2)];
    points[0].overall_start = true;
    points[1].overall_start = true;
    assert!(matches!(graph(&points, false), Err(KmpError::MultipleStarts)));
    assert!(graph(&points, true).is_ok());
}

#[test]
fn routes_refuse_cycles_and_branches_but_follow_the_actual_start() {
    let (tail, head) = (1, 2);
    let mut points = vec![point(tail), point(head)];
    link(&mut points, head, tail);
    let p = plan(&points, true);
    assert_eq!(p.groups, vec![vec![head, tail]]);
    link(&mut points, tail, head);
    assert!(matches!(graph(&points, true), Err(KmpError::RouteCycle)));
    let mut branching = vec![point(1), point(2), point(3)];
    link(&mut branching, 1, 2);
    link(&mut branching, 1, 3);
    assert!(matches!(graph(&branching, true), Err(KmpError::TooManyLinks)));
}

#[test]
fn unanchored_cycle_outside_routes_starts_at_its_first_seed() {
    // editor order b, c, a; links a -> b -> c -> a
    let (a, b, c) = (1, 2, 3);
    let mut points = vec![point(b), point(c), point(a)];
    for (from, to) in [(a, b), (b, c), (c, a)] {
        link(&mut points, from, to);
    }
    let p = plan(&points, false);
    assert_eq!(p.groups, vec![vec![b, c, a]]);
    assert_eq!(p.next[0], vec![0]);
    assert_eq!(p.previous[0], vec![0]);
}

#[test]
fn group_headers_pack_starts_lengths_and_padded_links() {
    let (a, b, c, d) = (1, 2, 3, 4);
    let mut points = vec![point(a), point(b), point(c), point(d)];
    points[0].overall_start = true;
    link(&mut points, a, b);
    link(&mut points, b, c);
    link(&mut points, b, d);
    let p = plan(&points, false);
    let headers = group_headers(&p).unwrap();
    assert_eq!(headers.len(), 3);
    assert_eq!((headers[0].start, headers[0].group_length), (0, 2));
    assert_eq!(headers[0].next_group, vec![1, 2, 255, 255, 255, 255]);
    assert_eq!(headers[0].prev_group, vec![255; 6]);
    assert_eq!(headers[1].prev_group, vec![0, 255, 255, 255, 255, 255]);
    assert_eq!((headers[2].start, headers[2].group_length, headers[2].unknown), (3, 1, 0));
}

#[test]
fn checkpoint_export_uses_serialized_indices_not_order_ids() {
    // a closed checkpoint cycle starting at the overall start
    let (x, y, z) = (7, 8, 9);
    let mut points = vec![point(x), point(y), point(z)];
    points[0].overall_start = true;
    link(&mut points, x, y);
    link(&mut points, y, z);
    link(&mut points, z, x);
    let p = plan(&points, false);
    assert_eq!(p.groups.len(), 1);
    let links = checkpoint_links(&p).unwrap();
    assert_eq!(links[0], vec![(0xff, 1), (0, 2), (1, 0xff)]);
    assert!(check_checkpoint_adjacency(&p).is_ok());
}

#[test]
fn checkpoint_neighbours_past_the_byte_range_are_refused() {
    let p = GraphPlan {
        groups: vec![vec![1, 2, 3]],
        previous: vec![vec![]],
        next: vec![vec![]],
        group_starts: vec![254],
    };
    assert!(matches!(checkpoint_links(&p), Err(KmpError::ByteOverflow)));
    assert!(matches!(check_checkpoint_adjacency(&p), Err(KmpError::CheckpointAdjacencyOutOfRange)));
    let single = GraphPlan { groups: vec![vec![1]], previous: vec![vec![]], next: vec![vec![]], group_starts: vec![300] };
    assert_eq!(checkpoint_links(&single).unwrap(), vec![vec![(0xff, 0xff)]]);
    assert!(check_checkpoint_adjacency(&single).is_ok());
    assert!(matches!(group_headers(&single), Err(KmpError::ByteOverflow)));
}

#[test]
fn two_linked_points_form_one_group() {
    let (a, b) = (1, 2);
    let mut points = vec![point(a), point(b)];
    points[0].overall_start = true;
    link(&mut points, a, b);
    let p = plan(&points, false);
    assert_eq!(p.groups, vec![vec![a, b]]);
    assert!(p.next[0].is_empty() && p.previous[0].is_empty());
}

#[test]
fn groups_are_seeded_in_editor_order() {
    // editor order: x (first), then the chain y -> z
    let (x, y, z) = (1, 2, 3);
    let mut points = vec![point(z), point(x), point(y)];
    link(&mut points, y, z);
    let p = plan(&points, false);
    assert_eq!(p.groups, vec![vec![y, z], vec![x]]);
}

#[test]
fn a_long_chain_fits_when_its_groups_do() {
    let mut points: Vec<PlanPoint> = (0..510).map(point).collect();
    for e in 0..509u64 {
        link(&mut points, e, e + 1);
    }
    let p = plan(&points, false);
    assert_eq!(p.groups.iter().map(Vec::len).collect::<Vec<_>>(), vec![255, 255]);
    assert_eq!(p.group_starts, vec![0, 255]);
}

#[test]
fn singleton_exports_one_point_and_one_group() {
    let mut points = vec![point(42)];
    points[0].overall_start = true;
    let p = plan(&points, false);
    assert_eq!(p.groups, vec![vec![42]]);
    let headers = group_headers(&p).unwrap();
    assert_eq!(headers.len(), 1);
    assert_eq!((headers[0].start, headers[0].group_length), (0, 1));
}

#[test]
fn export_is_ordered_and_byte_stable_across_spawn_and_link_order() {
    fn export(reverse: bool) -> (Vec<Vec<u64>>, Vec<(u8, u8, Vec<u8>, Vec<u8>)>) {
        let mut points: Vec<PlanPoint> = (0..4).map(point).collect();
        let targets = if reverse { vec![2, 1] } else { vec![1, 2] };
        for t in targets {
            link(&mut points, 0, t);
        }
        let p = plan(&points, false);
        let headers = group_headers(&p).unwrap();
        assert_eq!(headers[0].next_group, vec![1, 2, 0xff, 0xff, 0xff, 0xff]);
        (p.groups, headers.into_iter().map(|h| (h.start, h.group_length, h.prev_group, h.next_group)).collect())
    }
    assert_eq!(export(false).0, vec![vec![0], vec![1], vec![2], vec![3]]);
    assert_eq!(export(false), export(true));
}

#[test]
fn routes_find_actual_start_keep_member_settings_and_nonstart_links() {
    let (tail, head) = (0u64, 9u64);
    // editor order: tail first, then head; head -> tail
    let mut points = vec![point(tail), point(head)];
    link(&mut points, head, tail);
    let p = plan(&points, true);
    assert_eq!(p.groups, vec![vec![head, tail]]);
    let mirror = RouteSettings { smooth_motion: true, loop_style: RouteLoopStyle::Mirror };
    let settings = route_settings(&p.groups[0], &vec![(tail, mirror)]);
    assert_eq!(settings, mirror);
    let (headers, total) = route_headers(&vec![p.groups[0].len()], &vec![settings]).unwrap();
    assert_eq!((headers[0].setting_1, headers[0].setting_2), (1, 1));
    assert_eq!(total, 2);
    assert_eq!(object_route(Some(tail), &vec![(head, 0), (tail, 0)]), 0);
    link(&mut points, tail, head);
    let refused = graph(&points, true).unwrap_err();
    assert_eq!(refused, KmpError::RouteCycle);
    assert!(refused.message().contains("cycle"));
}

#[test]
fn route_indices_are_u16_for_objects_but_checked_u8_for_cameras() {
    let points: Vec<PlanPoint> = (0..257).map(point).collect();
    let p = plan(&points, true);
    assert_eq!(p.groups.len(), 257);
    let ids: Vec<(u64, u16)> = p.groups.iter().enumerate().map(|(i, g)| (g[0], i as u16)).collect();
    assert_eq!(object_route(Some(256), &ids), 256);
    let object = RouteReference { entity: 1000, target: 256, object: true };
    assert_eq!(check_route_references(&vec![object], &p.groups), Ok(()));
    let camera = RouteReference { entity: 1001, target: 256, object: false };
    let refused = check_route_references(&vec![object, camera], &p.groups).unwrap_err();
    assert_eq!(refused, KmpError::RouteReferenceOutOfRange);
    assert!(refused.message().contains("index width"));
}

fn unlink(points: &mut [PlanPoint], from: u64, to: u64) {
    node_mut(points, from).next_nodes.retain(|&e| e != to);
    node_mut(points, to).prev_nodes.retain(|&e| e != from);
}

#[test]
fn route_split_merge_and_delete_rebuild_current_members_only() {
    // editor order: c (0), b (1), a (2); route a -> b -> c
    let (a, b, c) = (1, 2, 3);
    let mut points = vec![point(c), point(b), point(a)];
    link(&mut points, a, b);
    link(&mut points, b, c);
    let lengths = |p: &GraphPlan| p.groups.iter().map(Vec::len).collect::<Vec<_>>();
    let plain = RouteSettings { smooth_motion: false, loop_style: RouteLoopStyle::Cyclic };
    let p = plan(&points, true);
    assert_eq!(p.groups, vec![vec![a, b, c]]);
    let (headers, _) = route_headers(&lengths(&p), &vec![plain]).unwrap();
    assert_eq!(headers[0].num_points, 3);
    // split
    unlink(&mut points, a, b);
    assert_eq!(plan(&points, true).groups.len(), 2);
    // merge again
    link(&mut points, a, b);
    assert_eq!(plan(&points, true).groups.len(), 1);
    // cut off and delete the last member
    unlink(&mut points, b, c);
    points.retain(|p| p.entity != c);
    let p = plan(&points, true);
    let (headers, total) = route_headers(&lengths(&p), &vec![plain]).unwrap();
    assert_eq!(headers[0].num_points, 2);
    assert_eq!(total, 2);
    // routes cannot branch
    points.push(point(10));
    link(&mut points, a, 10);
    let refused = graph(&points, true).unwrap_err();
    assert!(refused.message().contains("cannot branch"));
}

#[test]
fn group_headers_are_contiguous() {
    let mut points: Vec<PlanPoint> = (0..5).map(point).collect();
    points[0].overall_start = true;
    link(&mut points, 0, 1);
    link(&mut points, 1, 2);
    link(&mut points, 1, 3);
    let p = plan(&points, false);
    let headers = group_headers(&p).unwrap();
    assert_eq!(headers[0].start, 0);
    for w in headers.windows(2) {
        assert_eq!(w[1].start, w[0].start + w[0].group_length);
    }
    assert_eq!(headers.iter().map(|h| h.group_length as usize).sum::<usize>(), 5);
}
