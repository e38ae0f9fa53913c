use kmpeek::graph::{GraphEntry, KmpPathNode, PathGraph};
use kmpeek::ordering::NextOrderID;
use kmpeek::path_links::{reconcile_node_links, KmpPathNodeLink, PathType, RecalcPaths};

fn entry(entity: u64, prev: Vec<u64>, next: Vec<u64>) -> GraphEntry {
    let node = KmpPathNode { max: 6, prev_nodes: prev, next_nodes: next };
    GraphEntry { entity, node, overall_start: false, route_start: false, order: None }
}

fn link(prev_node: u64, next_node: u64, kind: PathType) -> KmpPathNodeLink {
    KmpPathNodeLink { prev_node, next_node, kind }
}

#[test]
fn reconcile_keeps_one_link_per_pair_and_asks_for_missing_ones() {
    let (a, b, c) = (1, 2, 3);
    let g = PathGraph { entries: vec![entry(a, vec![], vec![b]), entry(b, vec![a], vec![c]), entry(c, vec![b], vec![])] };
    let links = vec![
        (10, link(a, b, PathType::Enemy)),
        (11, link(a, b, PathType::Enemy)),
        (12, link(c, a, PathType::Enemy)),
        (13, link(b, c, PathType::Item)),
    ];
    let changes = reconcile_node_links(&g, &links, PathType::Enemy);
    assert_eq!(changes.despawn, vec![11, 12]);
    assert_eq!(changes.spawn, vec![(b, c)]);
}

#[test]
fn reconcile_accepts_a_link_recorded_at_one_end_only() {
    let (a, b) = (1, 2);
    let g = PathGraph { entries: vec![entry(a, vec![], vec![b])] };
    let changes = reconcile_node_links(&g, &vec![], PathType::Route);
    assert!(changes.despawn.is_empty());
    assert_eq!(changes.spawn, vec![(a, b)]);
}

#[test]
fn reconcile_leaves_links_of_other_kinds_alone() {
    let g = PathGraph { entries: vec![] };
    let links = vec![
        (20, link(1, 2, PathType::Checkpoint { right: false })),
        (21, link(1, 2, PathType::Checkpoint { right: true })),
    ];
    let changes = reconcile_node_links(&g, &links, PathType::Checkpoint { right: true });
    assert_eq!(changes.despawn, vec![21]);
    assert!(changes.spawn.is_empty());
}

#[test]
fn reconcile_of_matching_links_changes_nothing() {
    let (a, b) = (1, 2);
    let g = PathGraph { entries: vec![entry(a, vec![], vec![b]), entry(b, vec![a], vec![])] };
    let links = vec![(30, link(a, b, PathType::Item))];
    let changes = reconcile_node_links(&g, &links, PathType::Item);
    assert!(changes.despawn.is_empty());
    assert!(changes.spawn.is_empty());
}

#[test]
fn recalc_paths_for_each_path_type() {
    assert_eq!(RecalcPaths::for_path_type(PathType::Enemy), RecalcPaths::enemy());
    assert_eq!(RecalcPaths::for_path_type(PathType::Item), RecalcPaths::item());
    assert_eq!(RecalcPaths::for_path_type(PathType::Checkpoint { right: true }), RecalcPaths::cp());
    assert_eq!(RecalcPaths::for_path_type(PathType::Checkpoint { right: false }), RecalcPaths::cp());
    assert_eq!(RecalcPaths::for_path_type(PathType::Route), RecalcPaths::route());
    let all = RecalcPaths::all();
    assert!(all.do_enemy && all.do_item && all.do_cp && all.do_route);
    let cp = RecalcPaths::cp();
    assert!(!cp.do_enemy && !cp.do_item && cp.do_cp && !cp.do_route);
}

#[test]
fn next_order_id_counts_up_from_the_set_value() {
    let mut next = NextOrderID::default();
    assert_eq!(next.get(), 0);
    assert_eq!(next.get(), 1);
    next.set(7);
    assert_eq!(next.get(), 7);
    assert_eq!(next.id, 8);
    next.set(u32::MAX);
    assert_eq!(next.get(), u32::MAX);
    assert_eq!(next.id, 0);
}

#[test]
fn reconcile_after_applying_its_changes_changes_nothing() {
    let (a, b, c) = (1, 2, 3);
    let g = PathGraph { entries: vec![entry(a, vec![c], vec![b]), entry(b, vec![a], vec![c]), entry(c, vec![b], vec![a])] };
    let links = vec![
        (10, link(b, a, PathType::Enemy)),
        (11, link(a, b, PathType::Enemy)),
        (12, link(a, b, PathType::Enemy)),
        (13, link(a, b, PathType::Item)),
    ];
    let changes = reconcile_node_links(&g, &links, PathType::Enemy);
    let mut after: Vec<(u64, KmpPathNodeLink)> = links.into_iter().filter(|(e, _)| !changes.despawn.contains(e)).collect();
    for (k, &(p, n)) in changes.spawn.iter().enumerate() {
        after.push((100 + k as u64, link(p, n, PathType::Enemy)));
    }
    assert_eq!(after.len(), 4);
    let again = reconcile_node_links(&g, &after, PathType::Enemy);
    assert!(again.despawn.is_empty());
    assert!(again.spawn.is_empty());
}
