use kmpeek::graph::{GraphEntry, KmpPathNode, PathGraph};
use kmpeek::routes::{
    on_add_route_link, on_add_route_linked_entities, on_add_route_pt, on_remove_route_link, on_remove_route_linked_entities,
    create_route_link, on_remove_route_pt, route_points, update_routes, GetRouteStart, RouteEntity, RouteLink, RouteLinkedEntities, RouteUpdate,
    RouteWorld,
};

fn point(entity: u64, prev: Vec<u64>, next: Vec<u64>) -> GraphEntry {
    GraphEntry {
        entity,
        node: KmpPathNode::new(1).with_prev(prev).with_next(next),
        overall_start: false,
        route_start: false,
        order: None,
    }
}

fn starts(points: Vec<GraphEntry>) -> GetRouteStart {
    GetRouteStart { points: PathGraph { entries: points }, selected: Vec::new() }
}

fn live(entity: u64, link: Option<u64>) -> RouteEntity {
    RouteEntity { entity, link: link.map(RouteLink), linked: None }
}

fn get<'a>(world: &'a RouteWorld, e: u64) -> &'a RouteEntity {
    world.entities.iter().find(|x| x.entity == e).unwrap()
}

#[test]
fn moving_route_start_drops_stale_linked_entities() {
    let (old_start, new_start, linked, stale) = (1, 2, 3, 4);
    let mut world = RouteWorld { entities: vec![live(old_start, None), live(new_start, None), live(linked, Some(old_start))] };
    let links = RouteLinkedEntities(vec![linked, stale]);
    links.move_route_start(&mut world, old_start, new_start);

    assert_eq!(get(&world, linked).link.unwrap().0, new_start);
    let moved_links = &get(&world, new_start).linked.as_ref().unwrap().0;
    assert_eq!(moved_links.len(), 1);
    assert!(moved_links.contains(&linked));
}

#[test]
fn route_start_traversal_stops_at_stale_predecessor() {
    let (stale, route_point) = (1, 2);
    let s = starts(vec![point(route_point, vec![stale], vec![])]);
    assert_eq!(s.get_entity(route_point), route_point);
}

#[test]
fn route_start_walks_back_to_the_first_point() {
    let s = starts(vec![point(1, vec![], vec![2]), point(2, vec![1], vec![3]), point(3, vec![2], vec![])]);
    assert_eq!(s.get_entity(3), 1);
    assert_eq!(s.get_entity(2), 1);
    assert_eq!(s.get_entity(1), 1);
}

#[test]
fn route_start_stops_where_the_predecessor_does_not_link_back() {
    let s = starts(vec![point(1, vec![], vec![]), point(2, vec![1], vec![])]);
    assert_eq!(s.get_entity(2), 2);
}

#[test]
fn route_start_of_a_closed_loop_is_where_the_walk_meets_itself() {
    let s = starts(vec![point(1, vec![3], vec![2]), point(2, vec![1], vec![3]), point(3, vec![2], vec![1])]);
    assert_eq!(s.get_entity(2), 2);
    assert_eq!(s.get_entity(1), 1);
}

#[test]
fn multiple_route_starts_are_listed_once() {
    let mut s = starts(vec![
        point(1, vec![], vec![2]),
        point(2, vec![1], vec![]),
        point(5, vec![], vec![6]),
        point(6, vec![5], vec![]),
    ]);
    let r = s.get_multiple_entities(&vec![2, 1, 6, 9]);
    assert_eq!(r, vec![1, 5, 9]);
    s.selected = vec![6, 5];
    assert_eq!(s.get_selected(), vec![5]);
}

#[test]
fn moving_route_start_to_a_missing_entity_changes_nothing() {
    let mut world = RouteWorld { entities: vec![live(1, None), live(3, Some(1))] };
    world.entities[0].linked = Some(RouteLinkedEntities(vec![3]));
    RouteLinkedEntities(vec![3]).move_route_start(&mut world, 1, 7);
    assert_eq!(get(&world, 3).link.unwrap().0, 1);
    assert_eq!(get(&world, 1).linked.as_ref().unwrap().0, vec![3]);
}

#[test]
fn moving_route_start_keeps_links_to_other_starts() {
    let mut world = RouteWorld { entities: vec![live(1, None), live(2, None), live(3, Some(1)), live(4, Some(8))] };
    world.entities[0].linked = Some(RouteLinkedEntities(vec![3, 4]));
    RouteLinkedEntities(vec![3, 4]).move_route_start(&mut world, 1, 2);
    assert!(get(&world, 1).linked.is_none());
    assert_eq!(get(&world, 3).link.unwrap().0, 2);
    assert_eq!(get(&world, 4).link.unwrap().0, 8);
    assert_eq!(get(&world, 2).linked.as_ref().unwrap().0, vec![3]);
}

fn start(entity: u64, linked: Vec<u64>) -> RouteEntity {
    RouteEntity { entity, link: None, linked: Some(RouteLinkedEntities(linked)) }
}

#[test]
fn added_linked_entities_become_reciprocal_and_stale_ones_are_dropped() {
    // 3 has no link, 4 links here, 5 links to another route, 6 is gone
    let mut world = RouteWorld { entities: vec![start(1, vec![3, 4, 5, 6]), live(3, None), live(4, Some(1)), live(5, Some(2))] };
    on_add_route_linked_entities(&mut world, 1);
    assert_eq!(get(&world, 3).link.unwrap().0, 1);
    assert_eq!(get(&world, 4).link.unwrap().0, 1);
    assert_eq!(get(&world, 5).link.unwrap().0, 2);
    assert_eq!(get(&world, 1).linked.as_ref().unwrap().0, vec![3, 4]);
}

#[test]
fn removing_stale_route_start_from_live_point_does_not_move_links() {
    let (canonical_start, linked, stale_start) = (1, 2, 3);
    let mut world = RouteWorld {
        entities: vec![start(canonical_start, vec![linked]), live(linked, Some(canonical_start)), live(stale_start, None)],
    };
    on_remove_route_linked_entities(&mut world, stale_start, &RouteLinkedEntities(vec![]), Some(canonical_start));
    assert_eq!(get(&world, canonical_start).linked.as_ref().unwrap().0, vec![linked]);
    assert!(get(&world, stale_start).linked.is_none());
}

#[test]
fn despawned_route_start_moves_links_to_its_successor_or_releases_them() {
    let mut world = RouteWorld { entities: vec![live(2, None), live(5, Some(1))] };
    on_remove_route_linked_entities(&mut world, 1, &RouteLinkedEntities(vec![5]), Some(2));
    assert_eq!(get(&world, 5).link.unwrap().0, 2);
    assert_eq!(get(&world, 2).linked.as_ref().unwrap().0, vec![5]);

    let mut world = RouteWorld { entities: vec![live(5, Some(1)), live(6, Some(9))] };
    on_remove_route_linked_entities(&mut world, 1, &RouteLinkedEntities(vec![5, 6]), None);
    assert!(get(&world, 5).link.is_none());
    assert_eq!(get(&world, 6).link.unwrap().0, 9);
}

#[test]
fn route_links_join_and_leave_the_linked_set_of_their_start() {
    let mut world = RouteWorld { entities: vec![start(1, vec![]), live(5, Some(1)), live(6, Some(7)), live(7, None)] };
    on_add_route_link(&mut world, 5);
    assert_eq!(get(&world, 1).linked.as_ref().unwrap().0, vec![5]);
    // 7 is no route start: the link is removed again
    on_add_route_link(&mut world, 6);
    assert!(get(&world, 6).link.is_none());
    on_remove_route_link(&mut world, 5);
    assert!(get(&world, 1).linked.as_ref().unwrap().0.is_empty());
    assert!(get(&world, 5).link.is_none());
}

#[test]
fn route_points_start_routes_when_they_have_no_predecessor() {
    let g = PathGraph { entries: vec![point(1, vec![], vec![2]), point(2, vec![1], vec![])] };
    assert!(on_add_route_pt(&g, 1));
    assert!(!on_add_route_pt(&g, 2));
    assert!(!on_add_route_pt(&g, 3));
    assert_eq!(on_remove_route_pt(&g, 1), Some(2));
    assert_eq!(on_remove_route_pt(&g, 2), None);
}

#[test]
fn exported_route_follows_successors_and_stops_at_a_cycle() {
    let g = PathGraph { entries: vec![point(1, vec![3], vec![2]), point(2, vec![1], vec![3]), point(3, vec![2], vec![1])] };
    assert_eq!(route_points(&g, 1), vec![1, 2, 3]);
    let g = PathGraph { entries: vec![point(1, vec![], vec![2]), point(2, vec![1], vec![9])] };
    assert_eq!(route_points(&g, 1), vec![1, 2]);
    assert_eq!(route_points(&g, 7), vec![7]);
}

fn route_point(entity: u64, prev: Vec<u64>, next: Vec<u64>, settings: bool) -> GraphEntry {
    GraphEntry {
        entity,
        node: KmpPathNode::new(1).with_prev(prev).with_next(next),
        overall_start: false,
        route_start: settings,
        order: None,
    }
}

#[test]
fn stale_route_starts_hand_their_links_to_the_real_start() {
    // route 1 -> 2 -> 3; 1 is the start, 2 still holds a linked set with object 7
    let s = GetRouteStart {
        points: PathGraph {
            entries: vec![route_point(1, vec![], vec![2], true), route_point(2, vec![1], vec![3], true), route_point(3, vec![2], vec![], false)],
        },
        selected: vec![],
    };
    let mut world = RouteWorld { entities: vec![start(1, vec![]), start(2, vec![7]), live(3, None), live(7, Some(2))] };
    let updates = update_routes(&s, &mut world, &vec![1, 2, 3]);
    assert_eq!(updates, vec![RouteUpdate::RemoveStart(2)]);
    assert_eq!(get(&world, 7).link.unwrap().0, 1);
    assert_eq!(get(&world, 1).linked.as_ref().unwrap().0, vec![7]);
}

#[test]
fn a_route_start_without_settings_gets_a_fresh_one() {
    let s = GetRouteStart {
        points: PathGraph { entries: vec![route_point(1, vec![], vec![2], false), route_point(2, vec![1], vec![], false)] },
        selected: vec![],
    };
    let mut world = RouteWorld { entities: vec![live(1, None), live(2, None)] };
    let updates = update_routes(&s, &mut world, &vec![1, 2]);
    assert_eq!(updates, vec![RouteUpdate::InsertStart(1), RouteUpdate::InsertStart(1)]);
}

#[test]
fn link_select_mode_links_points_to_the_route_start() {
    let s = GetRouteStart {
        points: PathGraph { entries: vec![route_point(1, vec![], vec![2], true), route_point(2, vec![1], vec![], false)] },
        selected: vec![],
    };
    let mut world = RouteWorld { entities: vec![start(1, vec![]), live(2, None), live(7, None), live(8, Some(5))] };
    create_route_link(&s, &mut world, 2, &vec![7, 8, 9]);
    assert_eq!(get(&world, 7).link.unwrap().0, 1);
    assert_eq!(get(&world, 8).link.unwrap().0, 1);
    // only the point that had no link joins the set; a replaced link does not
    assert_eq!(get(&world, 1).linked.as_ref().unwrap().0, vec![7]);
    // clicking something that is not a route point changes nothing
    create_route_link(&s, &mut world, 42, &vec![2]);
    assert!(get(&world, 2).link.is_none());
}
