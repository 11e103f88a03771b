use planner::geometry::{Coordinate, MultiPolygon, Polygon};
use planner::mpi::Mpi;
use planner::nav_graph::create::nav_graph_of_nodes;
use planner::nav_graph::node_index::NodeIndexMap;
use planner::nav_graph::{
    add_coord_to_nav_graph, calculate_shortest_path, calculate_shortest_path_between_coords,
    create_nav_graph, Edge, FeatureError, Features, NavGraph, NodeData, VisibilityOptimizationMode,
};

fn c(x: i32, y: i32) -> Coordinate {
    Coordinate { x, y }
}

fn square(x: i32, y: i32, side: i32) -> Vec<Coordinate> {
    vec![c(x, y), c(x + side, y), c(x + side, y + side), c(x, y + side), c(x, y)]
}

const MODES: [VisibilityOptimizationMode; 3] = [
    VisibilityOptimizationMode::Naive,
    VisibilityOptimizationMode::Sweep,
    VisibilityOptimizationMode::OptimizedSweep,
];

#[test]
fn a_ring_with_fewer_than_three_vertices_is_rejected() {
    let empty = MultiPolygon::new(vec![]);
    let two = MultiPolygon::new(vec![Polygon::new(vec![c(0, 0), c(5, 0), c(0, 0)], vec![])]);
    assert_eq!(Features::new(two, empty).unwrap_err(), FeatureError::RingTooShort);
    let empty = MultiPolygon::new(vec![]);
    let none = MultiPolygon::new(vec![Polygon::new(vec![], vec![])]);
    assert_eq!(Features::new(empty, none).unwrap_err(), FeatureError::RingTooShort);
    let empty = MultiPolygon::new(vec![]);
    let short_hole = MultiPolygon::new(vec![Polygon::new(
        square(0, 0, 100),
        vec![vec![c(10, 10), c(20, 20), c(10, 10)]],
    )]);
    assert_eq!(Features::new(short_hole, empty).unwrap_err(), FeatureError::RingTooShort);
}

#[test]
fn rings_are_closed_and_without_repeated_points() {
    let empty = MultiPolygon::new(vec![]);
    let open = MultiPolygon::new(vec![Polygon::new(vec![c(0, 0), c(5, 0), c(5, 5), c(0, 5)], vec![])]);
    assert_eq!(Features::new(open, empty).unwrap_err(), FeatureError::RingNotClosed);
    let empty = MultiPolygon::new(vec![]);
    let stutter = MultiPolygon::new(vec![Polygon::new(
        vec![c(0, 0), c(5, 0), c(5, 0), c(5, 5), c(0, 0)],
        vec![],
    )]);
    assert_eq!(Features::new(empty, stutter).unwrap_err(), FeatureError::ZeroLengthEdge);
    // a triangle is the least there is
    let empty = MultiPolygon::new(vec![]);
    let triangle = MultiPolygon::new(vec![Polygon::new(vec![c(0, 0), c(5, 0), c(5, 5), c(0, 0)], vec![])]);
    let features = Features::new(triangle, empty).unwrap();
    assert_eq!(features.iter().len(), 3);
    assert_eq!(features.arbitrary, vec![]);
}

fn sample_features() -> Features {
    // an obstacle with a recharge polygon partly inside it
    let obstacles = MultiPolygon::new(vec![Polygon::new(square(0, 0, 1000), vec![])]);
    let waters = MultiPolygon::new(vec![Polygon::new(
        vec![c(500, 500), c(3000, 500), c(3000, 3000), c(1000, 3000), c(500, 500)],
        vec![],
    )]);
    Features::new(obstacles, waters).unwrap()
}

fn water(coord_index: usize) -> NodeData {
    NodeData::PartOfWater(Mpi { polygon_index: 0, ring_index: 0, coord_index })
}

fn obstacle(coord_index: usize) -> NodeData {
    NodeData::PartOfObstacle(Mpi { polygon_index: 0, ring_index: 0, coord_index })
}

#[test]
fn features_enumerate_their_nodes() {
    let mut features = sample_features();
    features.arbitrary.push(c(7, 7));
    assert_eq!(
        features.iter(),
        vec![
            obstacle(0),
            obstacle(1),
            obstacle(2),
            obstacle(3),
            water(0),
            water(1),
            water(2),
            water(3),
            NodeData::Arbitrary(0),
        ]
    );
    assert_eq!(features.coord(&obstacle(2)), c(1000, 1000));
    assert_eq!(features.coord(&water(3)), c(1000, 3000));
    assert_eq!(features.coord(&NodeData::Arbitrary(0)), c(7, 7));
    assert!(features.is_node_valid(&water(3)));
    assert!(!features.is_node_valid(&water(4)));
    assert!(!features.is_node_valid(&NodeData::Arbitrary(1)));
}

#[test]
fn nodes_inside_an_obstacle_are_left_out() {
    for mode in MODES {
        let graph = create_nav_graph(sample_features(), mode);
        // water vertex 0 lies inside the obstacle
        let nodes: Vec<NodeData> =
            (0..graph.node_count()).map(|i| graph.node_weight(i).unwrap()).collect();
        assert_eq!(
            nodes,
            vec![obstacle(0), obstacle(1), obstacle(2), obstacle(3), water(1), water(2), water(3)]
        );
        assert_eq!(graph.node_weight(7), None);
        assert_eq!(graph.node_index(&water(2)), Some(5));
        assert_eq!(graph.node_index(&water(0)), None);
        assert_eq!(graph.node_coord(6), c(1000, 3000));
    }
}

fn all_edges(graph: &NavGraph) -> Vec<(usize, usize, u64)> {
    let mut edges = Vec::new();
    for a in 0..graph.node_count() {
        for (b, length) in graph.neighbors(a) {
            assert_ne!(a, b);
            assert!(graph.contains_edge(a, b));
            assert!(graph.contains_edge(b, a));
            if a < b {
                edges.push((a, b, length));
            }
        }
    }
    edges.sort();
    edges
}

#[test]
fn edges_carry_the_distance_of_their_ends() {
    for mode in MODES {
        let mut graph = create_nav_graph(sample_features(), mode);
        add_coord_to_nav_graph(c(-500, -500), &mut graph, mode);
        add_coord_to_nav_graph(c(4000, 4000), &mut graph, mode);
        let edges = all_edges(&graph);
        assert!(!edges.is_empty());
        for (a, b, length) in &edges {
            let from = graph.node_coord(*a);
            let to = graph.node_coord(*b);
            assert_eq!(*length, from.euclidean_distance(&to));
            let exact = (((to.x - from.x) as f64).powi(2) + ((to.y - from.y) as f64).powi(2)).sqrt();
            assert!(exact <= *length as f64 && (*length as f64) < exact + 1.0);
        }
        // no pair is joined twice
        let mut pairs: Vec<(usize, usize)> = edges.iter().map(|(a, b, _)| (*a, *b)).collect();
        pairs.dedup();
        assert_eq!(pairs.len(), edges.len());
        assert_eq!(graph.graph.edge_count(), edges.len());
    }
}

#[test]
fn the_graph_of_the_sample() {
    let graph = create_nav_graph(sample_features(), VisibilityOptimizationMode::Naive);
    assert_eq!(
        all_edges(&graph),
        vec![
            // the sides of the obstacle
            (0, 1, 1000),
            (0, 3, 1000),
            // from the upper corners of the obstacle out to the water
            (1, 2, 1000),
            (1, 4, 2062),
            (1, 5, 3606),
            // straight up along the side of the obstacle, and on
            (1, 6, 3000),
            (2, 3, 1000),
            (2, 4, 2062),
            (2, 5, 2829),
            (2, 6, 2000),
            (3, 5, 3606),
            (3, 6, 2237),
            // between the vertices of the water
            (4, 5, 2500),
            (4, 6, 3202),
            (5, 6, 2000),
        ]
    );
}

#[test]
fn a_query_point_keeps_its_coordinate() {
    for mode in MODES {
        let mut graph = create_nav_graph(sample_features(), mode);
        let before = all_edges(&graph);
        let (node, handle) = add_coord_to_nav_graph(c(-123, 456), &mut graph, mode);
        assert_eq!(node, NodeData::Arbitrary(0));
        assert_eq!(handle, 7);
        assert_eq!(graph.node_weight(handle), Some(node));
        assert_eq!(graph.features.coord(&node), c(-123, 456));
        assert_eq!(graph.node_coord(handle), c(-123, 456));
        // the edges that were there are untouched
        let after: Vec<(usize, usize, u64)> =
            all_edges(&graph).into_iter().filter(|(a, b, _)| *a != handle && *b != handle).collect();
        assert_eq!(after, before);
        // the point sees the left side of the obstacle
        assert_eq!(
            graph.neighbors(handle).iter().map(|(b, _)| *b).collect::<Vec<_>>().len(),
            graph.graph.edges(petgraph::graph::NodeIndex::new(handle)).count()
        );
        assert!(graph.contains_edge(handle, 0));
        assert!(graph.contains_edge(handle, 3));
        assert!(!graph.contains_edge(handle, 1));
        let (second, second_handle) = add_coord_to_nav_graph(c(-123, 456), &mut graph, mode);
        assert_eq!(second, NodeData::Arbitrary(1));
        assert_eq!(second_handle, 8);
    }
}

#[test]
fn a_query_point_on_a_node_is_joined_to_it() {
    for mode in MODES {
        let mut graph = create_nav_graph(sample_features(), mode);
        // on the corner of the obstacle
        let (_, on_corner) = add_coord_to_nav_graph(c(1000, 1000), &mut graph, mode);
        assert!(graph.contains_edge(on_corner, 2));
        assert_eq!(graph.neighbors(2).iter().find(|(b, _)| *b == on_corner).unwrap().1, 0);
        // within half a metre of a recharge vertex, inside the obstacle or not
        let (_, near_water) = add_coord_to_nav_graph(c(3030, 540), &mut graph, mode);
        assert!(graph.contains_edge(near_water, 4));
        assert_eq!(graph.neighbors(near_water).iter().find(|(b, _)| *b == 4).unwrap().1, 50);
        // a query point is added wherever it lies
        let (_, inside) = add_coord_to_nav_graph(c(500, 500), &mut graph, mode);
        assert_eq!(graph.node_coord(inside), c(500, 500));
    }
}

#[test]
fn shortest_path_between_coordinates() {
    for mode in MODES {
        let obstacles = MultiPolygon::new(vec![Polygon::new(square(0, 0, 1000), vec![])]);
        let features = Features::new(obstacles, MultiPolygon::new(vec![])).unwrap();
        let mut graph = create_nav_graph(features, mode);
        let found =
            calculate_shortest_path_between_coords(&mut graph, c(-500, 400), c(1500, 400), mode);
        // round the lower corners: 640.4, 1000 and 640.4 units
        assert_eq!(found, Some((Edge { length: 641 + 1000 + 641 }, vec![4, 0, 1, 5])));
        assert_eq!(graph.node_count(), 6);
        assert_eq!(graph.node_coord(4), c(-500, 400));
        assert_eq!(graph.node_coord(5), c(1500, 400));
        // from a node to itself
        assert_eq!(calculate_shortest_path(&graph, 4, 4), Some((Edge::new(0), vec![4])));
    }
}

#[test]
fn no_path_into_an_obstacle() {
    for mode in MODES {
        let obstacles = MultiPolygon::new(vec![Polygon::new(square(0, 0, 1000), vec![])]);
        let features = Features::new(obstacles, MultiPolygon::new(vec![])).unwrap();
        let mut graph = create_nav_graph(features, mode);
        let found = calculate_shortest_path_between_coords(&mut graph, c(-500, 400), c(500, 500), mode);
        assert_eq!(found, None, "{:?}", mode);
    }
}

#[test]
fn the_first_defect_is_reported() {
    let good = || Polygon::new(square(0, 0, 100), vec![]);
    let open = || Polygon::new(vec![c(0, 0), c(5, 0), c(5, 5), c(0, 5)], vec![]);
    let short = || Polygon::new(vec![c(0, 0), c(5, 0), c(0, 0)], vec![]);
    let stutter_in_hole = || {
        Polygon::new(square(0, 0, 100), vec![square(10, 10, 10), vec![c(1, 1), c(1, 1), c(2, 2), c(1, 1)]])
    };
    // polygon by polygon
    let obstacles = MultiPolygon::new(vec![good(), open(), short()]);
    assert_eq!(
        Features::new(obstacles, MultiPolygon::new(vec![short()])).unwrap_err(),
        FeatureError::RingNotClosed
    );
    // the exterior ring before the holes
    let obstacles = MultiPolygon::new(vec![good(), stutter_in_hole(), open()]);
    assert_eq!(
        Features::new(obstacles, MultiPolygon::new(vec![])).unwrap_err(),
        FeatureError::ZeroLengthEdge
    );
    // the obstacles before the waters
    let waters = MultiPolygon::new(vec![good(), short()]);
    assert_eq!(
        Features::new(MultiPolygon::new(vec![good()]), waters).unwrap_err(),
        FeatureError::RingTooShort
    );
}

#[test]
fn the_index_map_keeps_handles() {
    let mut map = NodeIndexMap::new();
    let far = NodeData::PartOfObstacle(Mpi { polygon_index: 3, ring_index: 2, coord_index: 5 });
    let near = NodeData::PartOfObstacle(Mpi { polygon_index: 3, ring_index: 2, coord_index: 4 });
    let same_in_water = NodeData::PartOfWater(Mpi { polygon_index: 3, ring_index: 2, coord_index: 5 });
    assert_eq!(map.get(&far), None);
    map.insert(far, 7);
    assert_eq!(map.get(&far), Some(7));
    assert_eq!(map.get(&near), None);
    assert_eq!(map.get(&same_in_water), None);
    assert_eq!(map.get(&NodeData::Arbitrary(0)), None);
    map.insert(same_in_water, 8);
    map.insert(NodeData::Arbitrary(2), 9);
    map.insert(near, 10);
    map.insert(far, 11);
    assert_eq!(map.get(&far), Some(11));
    assert_eq!(map.get(&near), Some(10));
    assert_eq!(map.get(&same_in_water), Some(8));
    assert_eq!(map.get(&NodeData::Arbitrary(2)), Some(9));
    assert_eq!(map.get(&NodeData::Arbitrary(1)), None);
    assert_eq!(map.get(&NodeData::Arbitrary(3)), None);
    assert_eq!(
        map.get(&NodeData::PartOfObstacle(Mpi { polygon_index: 4, ring_index: 0, coord_index: 0 })),
        None
    );
}

#[test]
fn every_node_is_found_by_its_identity() {
    for mode in MODES {
        let mut graph = create_nav_graph(sample_features(), mode);
        add_coord_to_nav_graph(c(-500, -500), &mut graph, mode);
        add_coord_to_nav_graph(c(4000, 4000), &mut graph, mode);
        for handle in 0..graph.node_count() {
            let node = graph.node_weight(handle).unwrap();
            assert_eq!(graph.node_index(&node), Some(handle));
            assert_eq!(graph.node_data_index_map.get(&node), Some(handle));
        }
        assert_eq!(graph.node_index(&NodeData::Arbitrary(2)), None);
    }
}

#[test]
fn a_graph_on_chosen_nodes() {
    for mode in MODES {
        let nodes = vec![water(3), obstacle(2), obstacle(0), water(1)];
        let graph = nav_graph_of_nodes(sample_features(), nodes.clone(), mode);
        let found: Vec<NodeData> =
            (0..graph.node_count()).map(|i| graph.node_weight(i).unwrap()).collect();
        assert_eq!(found, nodes);
        assert_eq!(graph.node_index(&obstacle(0)), Some(2));
        assert_eq!(graph.node_index(&obstacle(1)), None);
        // the obstacle hides its far corner from the others
        assert_eq!(all_edges(&graph), vec![(0, 1, 2000), (0, 3, 3202), (1, 3, 2062)]);
        let none = nav_graph_of_nodes(sample_features(), vec![], mode);
        assert_eq!(none.node_count(), 0);
    }
    // a node inside the obstacle is taken as it is given; the way from it to
    // a corner of the obstacle leads through the obstacle
    let nodes = vec![water(3), water(0), obstacle(2), obstacle(0)];
    let graph = nav_graph_of_nodes(sample_features(), nodes, VisibilityOptimizationMode::Naive);
    assert_eq!(graph.node_index(&water(0)), Some(1));
    assert_eq!(all_edges(&graph), vec![(0, 2, 2000)]);
}

#[test]
fn the_range_of_a_feature_set() {
    assert!(sample_features().is_in_contains_range());
    let far = 0x4000_0000;
    let wide = MultiPolygon::new(vec![Polygon::new(square(far - 10, 0, 10), vec![])]);
    let features = Features::new(MultiPolygon::new(vec![]), wide).unwrap();
    assert!(!features.is_in_contains_range());
    let wide = MultiPolygon::new(vec![Polygon::new(square(far - 11, 1 - far, 10), vec![])]);
    let features = Features::new(wide, MultiPolygon::new(vec![])).unwrap();
    assert!(features.is_in_contains_range());
    let mut graph = create_nav_graph(features, VisibilityOptimizationMode::Sweep);
    assert_eq!(graph.node_count(), 4);
    add_coord_to_nav_graph(c(far, 0), &mut graph, VisibilityOptimizationMode::Sweep);
    assert!(!graph.features.is_in_contains_range());
}
