use netpaths::net::{Net, NetErrors};
use netpaths::node::{Node, NodeBuilder};
use netpaths::path::{Path, PathBuilder};
use netpaths::point::{identifier, points_match, Point};

const A: char = 'A';
const B: char = 'B';
const C: char = 'C';
const D: char = 'D';

#[derive(Copy, Clone, PartialEq, Debug)]
struct SimplePoint {
    name: char,
}

impl Point for SimplePoint {
    type Identifier = char;

    fn id(&self) -> char {
        self.name
    }
}

fn format_path_kebab(path: &Path<SimplePoint>) -> String {
    return format!("{}", path.to_string());
}

fn format_list_of_paths(paths: Vec<Path<SimplePoint>>) -> String {
    let mut formatted_and_ordered_paths: Vec<String> =
        paths.iter().map(|path| format_path_kebab(path)).collect();

    formatted_and_ordered_paths.sort();

    formatted_and_ordered_paths[..].join(" + ")
}

fn format_in_order(paths: &Vec<Path<SimplePoint>>) -> Vec<String> {
    paths.iter().map(|path| path.to_string()).collect()
}

fn simple_point(name: char) -> SimplePoint {
    SimplePoint { name: name.clone() }
}

fn node(from: SimplePoint, to: SimplePoint) -> Node<SimplePoint> {
    NodeBuilder::new().point(&from).connected_point(&to).build().unwrap()
}

fn node_connected_to(point: SimplePoint, point_connected: Vec<SimplePoint>) -> Node<SimplePoint> {
    NodeBuilder::new().point(&point).connected_points(&point_connected).build().unwrap()
}

fn non_connected_node(point: SimplePoint) -> Node<SimplePoint> {
    NodeBuilder::new().point(&point).build().unwrap()
}

fn diamond_net() -> Net<SimplePoint> {
    let point_a = simple_point(A);
    let point_b = simple_point(B);
    let point_c = simple_point(C);
    let point_d = simple_point(D);
    Net {
        nodes: vec![
            node_connected_to(point_a, vec![point_b, point_d]),
            node_connected_to(point_b, vec![point_a, point_c, point_d]),
            node_connected_to(point_c, vec![point_b, point_d]),
            node_connected_to(point_d, vec![point_a, point_c, point_b]),
        ],
    }
}

// Given this net:
// A - B
#[test]
fn find_paths_from_a_point_not_in_the_net_should_throw_an_exception() {
    let point_a = simple_point(A);
    let point_b = simple_point(B);
    let point_c = simple_point(C);

    let node_a = node(point_a, point_b);
    let node_b = node(point_b, point_a);

    let a_b_net: Net<SimplePoint> = Net { nodes: vec![node_a, node_b] };

    let paths = a_b_net.find_paths(&point_c, &point_a);

    assert!(
        paths.is_err(),
        "Should not be able to find the path from a point that does not exists in the net"
    );
}

// Given this net:
// A - B
#[test]
fn find_paths_to_a_point_not_in_the_net_should_throw_an_exception() {
    let point_a = simple_point(A);
    let point_b = simple_point(B);
    let point_c = simple_point(C);

    let node_a = node(point_a, point_b);
    let node_b = node(point_b, point_a);

    let a_b_net: Net<SimplePoint> = Net { nodes: vec![node_a, node_b] };

    let paths = a_b_net.find_paths(&point_a, &point_c);

    assert!(
        paths.is_err(),
        "Should not be able to find the path to a point that does not exists in the net"
    );
}

// Given this net:
// A - B
#[test]
fn in_a_b_net_find_path_should_find_a_path_from_a_to_b() {
    let point_a = simple_point(A);
    let point_b = simple_point(B);

    let node_a = node(point_a, point_b);
    let node_b = node(point_b, point_a);

    let a_b_net: Net<SimplePoint> = Net { nodes: vec![node_a, node_b] };

    let paths = a_b_net.find_paths(&point_a, &point_b).expect("Unexpected error while finding path");

    assert_eq!(format_list_of_paths(paths), "A-B", "Found path should be A-B");
}

// Given this net of non connected points:
// A  B
#[test]
fn in_there_is_no_path_from_a_to_b_find_path_should_throw() {
    let point_a = simple_point(A);
    let point_b = simple_point(B);

    let node_a = non_connected_node(point_a);
    let node_b = non_connected_node(point_b);

    let a_b_net: Net<SimplePoint> = Net { nodes: vec![node_a, node_b] };

    let paths = a_b_net.find_paths(&point_a, &point_b);

    match paths {
        Ok(_) => panic!("should throw an error"),
        Err(ref err) => match err {
            NetErrors::NoPathFound => assert!(true),
            _ => panic!("NoPathFound exception expected"),
        },
    }
}

// Given this net of points:
// A - B - C
#[test]
fn in_an_a_b_c_net_should_find_a_path_from_a_to_c() {
    let point_a = simple_point(A);
    let point_b = simple_point(B);
    let point_c = simple_point(C);

    let node_a = node(point_a, point_b);
    let node_b = node_connected_to(point_b, vec![point_a, point_c]);
    let node_c = node(point_c, point_b);

    let a_b_c_net: Net<SimplePoint> = Net { nodes: vec![node_a, node_b, node_c] };

    let paths = a_b_c_net.find_paths(&point_a, &point_c).expect(
        &format!("should not throw exception finding path a to c in net {:?}", a_b_c_net)
            .into_boxed_str(),
    );

    assert_eq!("A-B-C", format_list_of_paths(paths), "found path should be A-B-C");
}

// Given this net of points:
// A - B - C
//  \     /
//   \   /
//     D
#[test]
fn in_triangle_net_should_find_two_paths_from_a_to_c() {
    let point_a = simple_point(A);
    let point_b = simple_point(B);
    let point_c = simple_point(C);
    let point_d = simple_point(D);

    let node_a = node_connected_to(point_a, vec![point_b, point_d]);
    let node_b = node_connected_to(point_b, vec![point_a, point_c]);
    let node_c = node_connected_to(point_c, vec![point_b, point_d]);
    let node_d = node_connected_to(point_d, vec![point_a, point_c]);

    let triangle_net: Net<SimplePoint> = Net { nodes: vec![node_a, node_b, node_c, node_d] };

    let paths = triangle_net.find_paths(&point_a, &point_c).expect(
        &format!("should not throw exception finding path a to c in net {:?}", triangle_net)
            .into_boxed_str(),
    );

    let formatted_paths = format_list_of_paths(paths);

    assert_eq!(formatted_paths, "A-B-C + A-D-C", "should find A-B-C and A-D-C paths");
}

// Given this net of points:
// A - B - C
//  \  |  /
//   \ | /
//     D
#[test]
fn should_find_all_feasible_paths_from_a_to_c() {
    let point_a = simple_point(A);
    let point_b = simple_point(B);
    let point_c = simple_point(C);
    let point_d = simple_point(D);

    let node_a = node_connected_to(point_a, vec![point_b, point_d]);
    let node_b = node_connected_to(point_b, vec![point_a, point_c, point_d]);
    let node_c = node_connected_to(point_c, vec![point_b, point_d]);
    let node_d = node_connected_to(point_d, vec![point_a, point_c, point_b]);

    let triangle_net: Net<SimplePoint> = Net { nodes: vec![node_a, node_b, node_c, node_d] };

    let paths = triangle_net.find_paths(&point_a, &point_c).expect(
        &format!("should not throw exception finding path a to c in net {:?}", triangle_net)
            .into_boxed_str(),
    );

    let formatted_paths = format_list_of_paths(paths);

    assert_eq!(
        formatted_paths, "A-B-C + A-B-D-C + A-D-B-C + A-D-C",
        "should find the four feasible paths"
    );
}

#[test]
fn points_with_equal_identifiers_match() {
    assert!(points_match(&simple_point(A), &simple_point(A)));
    assert!(!points_match(&simple_point(A), &simple_point(B)));
    assert_eq!(identifier(&simple_point(C)), 'C');
}

#[test]
fn unknown_origin_gives_point_not_found_with_its_identifier() {
    let net = diamond_net();
    match net.find_paths(&simple_point('Z'), &simple_point(A)) {
        Err(NetErrors::PointNotFound(text)) => assert_eq!(text, "Z"),
        other => panic!("PointNotFound expected, got {:?}", other),
    }
    assert_eq!(net.find_paths(&simple_point('Z'), &simple_point(A)).unwrap_err().message(),
        "The point with id \"Z\" could not be found");
}

#[test]
fn unknown_destination_gives_no_path_found() {
    let net = diamond_net();
    match net.find_paths(&simple_point(A), &simple_point('Z')) {
        Err(NetErrors::NoPathFound) => {}
        other => panic!("NoPathFound expected, got {:?}", other),
    }
    assert_eq!(NetErrors::NoPathFound.message(), "No path found between points");
}

#[test]
fn origin_equal_to_destination_gives_no_path_found() {
    let net = diamond_net();
    assert!(matches!(
        net.find_paths(&simple_point(A), &simple_point(A)),
        Err(NetErrors::NoPathFound)
    ));
}

#[test]
fn paths_come_in_the_order_of_the_connected_points() {
    let net = diamond_net();
    let paths = net.find_paths(&simple_point(A), &simple_point(C)).unwrap();
    assert_eq!(format_in_order(&paths), vec!["A-B-C", "A-B-D-C", "A-D-C", "A-D-B-C"]);
}

#[test]
fn found_paths_never_visit_a_point_twice() {
    let net = diamond_net();
    let paths = net.find_paths(&simple_point(A), &simple_point(C)).unwrap();
    for path in paths.iter() {
        for i in 0..path.len() {
            for j in (i + 1)..path.len() {
                assert_ne!(path.point_at(i).id(), path.point_at(j).id());
            }
        }
    }
}

#[test]
fn found_paths_lead_from_origin_to_destination_by_links() {
    let net = diamond_net();
    let paths = net.find_paths(&simple_point(D), &simple_point(B)).unwrap();
    assert_eq!(format_in_order(&paths), vec!["D-A-B", "D-C-B", "D-B"]);
    for path in paths.iter() {
        assert_eq!(path.point_at(0).id(), D);
        assert!(path.ends_with(&simple_point(B)));
        for i in 0..path.len() - 1 {
            let from = net.find_node_or_panic(&path.point_at(i));
            let open_ways = from
                .connected_points_not_in_path(&PathBuilder::new().point(&path.point_at(i)).build().unwrap())
                .unwrap();
            assert!(open_ways.iter().any(|p| p.id() == path.point_at(i + 1).id()));
        }
    }
}

#[test]
fn repeated_queries_give_the_same_paths() {
    let net = diamond_net();
    let first = net.find_paths(&simple_point(A), &simple_point(C)).unwrap();
    let second = net.find_paths(&simple_point(A), &simple_point(C)).unwrap();
    assert_eq!(format_in_order(&first), format_in_order(&second));
}

#[test]
fn the_first_node_of_a_point_is_the_one_found() {
    let point_a = simple_point(A);
    let net: Net<SimplePoint> = Net {
        nodes: vec![
            node(simple_point(B), point_a),
            node(point_a, simple_point(B)),
            node(point_a, simple_point(C)),
            non_connected_node(simple_point(C)),
        ],
    };
    let found = net.find_node_or_throws(&point_a).unwrap();
    assert!(found.point_is(&point_a));
    assert_eq!(found.point().id(), A);
    let start = PathBuilder::new().point(&point_a).build().unwrap();
    let ways = found.connected_points_not_in_path(&start).unwrap();
    assert_eq!(ways.len(), 1);
    assert_eq!(ways[0].id(), B);
    assert!(matches!(
        net.find_node_or_throws(&simple_point(D)),
        Err(NetErrors::PointNotFound(ref text)) if text == "D"
    ));
}

#[test]
fn connected_points_on_the_path_are_left_out() {
    let point_a = simple_point(A);
    let point_b = simple_point(B);
    let point_c = simple_point(C);
    let from_b = node_connected_to(point_b, vec![point_a, point_c, point_a]);
    let start = PathBuilder::new().point(&point_a).build().unwrap();
    let ways = from_b.connected_points_not_in_path(&start).unwrap();
    assert_eq!(ways.len(), 1);
    assert_eq!(ways[0].id(), C);
    let longer = start.with_point_at_the_end(&point_c);
    assert!(from_b.connected_points_not_in_path(&longer).is_none());
    assert!(non_connected_node(point_a).connected_points_not_in_path(&start).is_none());
}

#[test]
fn appending_leaves_the_path_unchanged_and_accepts_any_point() {
    let point_a = simple_point(A);
    let point_b = simple_point(B);
    let start = PathBuilder::new().point(&point_a).build().unwrap();
    let longer = start.with_point_at_the_end(&point_b);
    assert_eq!(start.len(), 1);
    assert_eq!(start.to_string(), "A");
    assert_eq!(longer.to_string(), "A-B");
    assert!(longer.contains(&point_a));
    assert!(longer.contains(&point_b));
    assert!(!start.contains(&point_b));
    assert!(longer.ends_with(&point_b));
    assert!(!longer.ends_with(&point_a));
    let twice = longer.with_point_at_the_end(&point_a);
    assert_eq!(twice.to_string(), "A-B-A");
    assert_eq!(twice.len(), 3);
}

#[test]
fn builders_without_a_point_fail() {
    assert_eq!(
        PathBuilder::<SimplePoint>::new().build().unwrap_err(),
        "A path needs a point to start with"
    );
    assert_eq!(NodeBuilder::<SimplePoint>::new().build().unwrap_err(), "A node needs a point");
    assert_eq!(
        NodeBuilder::new().connected_point(&simple_point(B)).build().unwrap_err(),
        "A node needs a point"
    );
    assert_eq!(
        NetErrors::PathCannotBeBuilt(String::from("no seed")).message(),
        "Path cannot be built: no seed"
    );
}

#[test]
fn a_link_to_a_point_without_a_node_is_noticed() {
    assert!(diamond_net().every_link_resolves());
    let empty: Net<SimplePoint> = Net { nodes: vec![] };
    assert!(empty.every_link_resolves());
    let dangling: Net<SimplePoint> = Net {
        nodes: vec![node(simple_point(A), simple_point(B)), node(simple_point(B), simple_point(C))],
    };
    assert!(!dangling.every_link_resolves());
    let ways = dangling.nodes[1].connected_points();
    assert_eq!(ways.len(), 1);
    assert_eq!(ways[0].id(), C);
}
