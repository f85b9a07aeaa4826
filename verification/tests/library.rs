use pathfinder::canvas::Canvas;
use pathfinder::coordinates::{ceil_isqrt, gen_radius, isqrt, place_on_radius};
use pathfinder::image_map::{gen_map_dimensions, gen_stuff, min_max};
use pathfinder::tools::{border, plot, shade};
use pathfinder::{Circle, Color, Coordinate, Draw, Group, ImageMap, Link, Location, Network, Node, Shape,
    Square, Triangle};

fn c(x: i16, y: i16) -> Coordinate {
    Coordinate::new(x, y)
}

fn pts(v: &[(i16, i16)]) -> Vec<Coordinate> {
    v.iter().map(|&(x, y)| c(x, y)).collect()
}

#[test]
fn coordinate_new_holds_its_values() {
    let p = Coordinate::new(-3, 7);
    assert_eq!(p.x, -3);
    assert_eq!(p.y, 7);
}

#[test]
fn coordinate_diff_is_distance_per_axis() {
    assert_eq!(c(3, 4).diff(c(1, 10)), (2, 6));
    assert_eq!(c(1, 10).diff(c(3, 4)), (2, 6));
    assert_eq!(c(-5, -5).diff(c(-5, -5)), (0, 0));
    assert_eq!(c(-16000, 16000).diff(c(16000, -16000)), (32000, 32000));
}

#[test]
fn coordinate_from_list_keeps_order() {
    let list = [(0, 0), (10, 10), (15, -15)];
    assert_eq!(Coordinate::from_list(&list), pts(&list));
    assert!(Coordinate::from_list(&[]).is_empty());
}

#[test]
fn node_from_list_gives_one_node_per_pair() {
    let list = [(0, 0), (10, 10), (15, 15)];
    let nodes = Node::from_list(&list);
    assert_eq!(nodes.len(), 3);
    assert_eq!(nodes[2].geo, c(15, 15));
}

#[test]
fn node_from_list_names_nodes_by_letter() {
    let nodes = Node::from_list(&[(1, 1), (2, 2), (3, 3)]);
    assert_eq!(nodes[0].hash, Node::new("A", c(0, 0)).hash);
    assert_eq!(nodes[1].hash, Node::new("B", c(0, 0)).hash);
    assert_eq!(nodes[2].hash, Node::new("C", c(0, 0)).hash);
    assert_ne!(nodes[0].hash, nodes[1].hash);
}

#[test]
fn node_new_is_black_without_radius_or_links() {
    let n = Node::new("N", c(4, 5));
    assert_eq!(n.geo, c(4, 5));
    assert_eq!(n.color, Color { data: [0, 0, 0, 255] });
    assert_eq!(n.radius, None);
    assert!(n.connections.is_empty());
    assert_eq!(n.hash, Node::new("N", c(9, 9)).hash);
    assert_ne!(n.hash, Node::new("M", c(4, 5)).hash);
}

#[test]
fn node_link_connects() {
    let b: Node = Node::new("B", c(100, 100));
    let mut a: Node = Node::new("A", c(0, 0));
    assert!(!a.is_connected(&b));
    a.link(&b);
    assert!(a.is_connected(&b));
    assert_eq!(a.connections.len(), 1);
}

#[test]
fn node_is_connected_follows_links() {
    let d = Node::new("D", c(30, 30));
    let mut c3 = Node::new("C", c(20, 20));
    c3.link(&d);
    let mut b = Node::new("B", c(10, 10));
    b.link(&c3);
    let mut a = Node::new("A", c(0, 0));
    a.link(&b);
    assert!(a.is_connected(&d));
    assert!(a.is_connected(&c3));
    assert!(!d.is_connected(&a));
    let e = Node::new("E", c(0, 0));
    assert!(!a.is_connected(&e));
}

#[test]
fn nodes_and_links_compare_by_hash() {
    let a = Node::new("A", c(0, 0));
    let a2 = Node::new("A", c(5, 5));
    let b = Node::new("B", c(0, 0));
    assert!(a == a2);
    assert!(a != b);
    assert!(Link::new(&a) == Link::new(&a2));
    assert!(Link::new(&a) != Link::new(&b));
}

#[test]
fn group_from_list_gives_one_group_per_pair() {
    let list = [(0, 0), (10, 10), (15, 15)];
    let groups = Group::from_list(&list);
    assert_eq!(groups.len(), 3);
    assert_eq!(groups[1].settings.hash, Node::new("B", c(0, 0)).hash);
}

#[test]
fn group_link_links_settings() {
    let group_b: Group = Group::new("B", c(100, 100));
    let mut group_a: Group = Group::new("A", c(0, 0));
    group_a.link::<Node>(&group_b);
    assert_eq!(group_a.settings.connections[0].to.get_coordinate(), group_b.settings.get_coordinate());
}

#[test]
fn group_dynamic_radius_grows_with_nodes() {
    let mut g = Group::new_simple(0, 0);
    assert_eq!(g.get_dynamic_radius(), 7);
    for i in 0..5 {
        g.push(Node::new(&i.to_string(), c(i, i)));
    }
    assert_eq!(g.get_dynamic_radius(), 9);
    g.settings.radius = Some(3);
    assert_eq!(g.get_dynamic_radius(), 3);
}

#[test]
fn group_get_size_is_largest_node_plus_radius() {
    let mut g = Group::new("G", c(0, 0));
    assert_eq!(g.get_size(), 0);
    g.push(Node::new("a", c(1, 1)));
    assert_eq!(g.get_size(), 4);
    let mut big = Node::new("b", c(2, 2));
    big.radius = Some(9);
    g.push(big);
    assert_eq!(g.get_size(), 9);
    g.settings.radius = Some(3);
    assert_eq!(g.get_size(), 12);
    assert_eq!(g.get_nodes().len(), 2);
}

#[test]
fn group_get_parameters_bounds_nodes_and_origin() {
    let mut g = Group::new("G", c(50, 50));
    assert_eq!(g.get_parameters(), (c(0, 0), c(0, 0)));
    g.push(Node::new("a", c(-3, 5)));
    g.push(Node::new("b", c(7, -2)));
    assert_eq!(g.get_parameters(), (c(-3, -2), c(7, 5)));
    assert_eq!(g.get_coordinate(), c(50, 50));
}

#[test]
fn group_new_node_inner_adds_a_shaded_node() {
    let mut g = Group::new("G", c(0, 0));
    g.settings.radius = Some(6);
    let color = Color { data: [1, 2, 3, 4] };
    let n = g.new_node_inner(c(3, 4), "x", color);
    assert_eq!(n.geo, c(3, 4));
    assert_eq!(n.color, color);
    assert_eq!(n.radius, Some(6));
    assert_eq!(g.nodes.len(), 1);
}

#[test]
fn group_new_node_min_max_places_within_range() {
    let mut g = Group::new("G", c(100, 100));
    for i in 0..50 {
        let name = format!("n{}", i);
        let n = g.new_node_min_max(&name, 3, 6, &|p: Coordinate| Color { data: [p.x as u8, 0, 0, 255] });
        let dx = (n.geo.x - 100) as i32;
        let dy = (n.geo.y - 100) as i32;
        assert!(dx * dx + dy * dy < 36);
        assert!(dx * dx + dy * dy >= 9);
        assert_eq!(n.color.data[0], n.geo.x as u8);
    }
    assert_eq!(g.nodes.len(), 50);
    g.new_node("extra", &|_p: Coordinate| Color { data: [9, 9, 9, 9] });
    assert_eq!(g.nodes.len(), 51);
    assert_eq!(g.nodes[50].color, Color { data: [9, 9, 9, 9] });
    let n = g.new_node_min_auto("auto", 0, &|_p: Coordinate| Color { data: [1, 1, 1, 1] });
    let dx = (n.geo.x - 100) as i32;
    let dy = (n.geo.y - 100) as i32;
    assert!(dx * dx + dy * dy < 25);
}

#[test]
fn gen_radius_stays_on_a_radius_in_range() {
    for _ in 0..200 {
        let p = gen_radius(c(0, 0), 2, 5);
        let dx = p.x as i32;
        let dy = p.y as i32;
        assert!(dx * dx + dy * dy < 25);
        assert!(dx * dx + dy * dy >= 4);
    }
    for _ in 0..50 {
        let p = gen_radius(c(10, 10), 3, 4);
        let dx = (p.x - 10) as i32;
        let dy = (p.y - 10) as i32;
        assert!(dx * dx + dy * dy >= 9 && dx * dx + dy * dy < 16);
    }
    assert_eq!(gen_radius(c(7, -7), 0, 1), c(7, -7));
}

#[test]
fn place_on_radius_rounds_away_from_the_centre() {
    assert_eq!(place_on_radius(c(0, 0), 5, 3, false, false), c(3, 4));
    assert_eq!(place_on_radius(c(0, 0), 5, 2, false, true), c(2, -5));
    assert_eq!(place_on_radius(c(10, 20), 5, 2, true, false), c(8, 25));
    assert_eq!(place_on_radius(c(0, 0), 5, 5, true, true), c(-5, 0));
    assert_eq!(place_on_radius(c(0, 0), 0, 0, false, false), c(0, 0));
}

#[test]
fn ceil_isqrt_is_ceiling_of_square_root() {
    assert_eq!(ceil_isqrt(0), 0);
    assert_eq!(ceil_isqrt(1), 1);
    assert_eq!(ceil_isqrt(15), 4);
    assert_eq!(ceil_isqrt(16), 4);
    assert_eq!(ceil_isqrt(17), 5);
    assert_eq!(ceil_isqrt(0x1_0000_0000), 0x1_0000);
}

#[test]
fn isqrt_is_floor_of_square_root() {
    assert_eq!(isqrt(0), 0);
    assert_eq!(isqrt(15), 3);
    assert_eq!(isqrt(16), 4);
    assert_eq!(isqrt(0x1_0000_0000), 0x1_0000);
}

#[test]
fn plot_follows_bresenham() {
    assert_eq!(plot(c(0, 0), c(4, 2)), pts(&[(0, 0), (1, 1), (2, 1), (3, 2), (4, 2)]));
    assert_eq!(plot(c(0, 0), c(0, -3)), pts(&[(0, 0), (0, -1), (0, -2), (0, -3)]));
    assert_eq!(plot(c(5, 5), c(5, 5)), pts(&[(5, 5)]));
    assert_eq!(plot(c(2, 0), c(0, 4)), pts(&[(2, 0), (1, 1), (1, 2), (0, 3), (0, 4)]));
}

#[test]
fn plot_runs_from_first_to_second_without_gaps() {
    let ends = [(-7, 3), (12, -9), (0, 0), (30, 31), (-20, -1), (4, 4)];
    for &(ax, ay) in ends.iter() {
        for &(bx, by) in ends.iter() {
            let line = plot(c(ax, ay), c(bx, by));
            assert_eq!(line[0], c(ax, ay));
            assert_eq!(*line.last().unwrap(), c(bx, by));
            let steps = std::cmp::max((bx - ax).abs(), (by - ay).abs());
            assert_eq!(line.len(), steps as usize + 1);
            for w in line.windows(2) {
                assert!((w[1].x - w[0].x).abs() <= 1 && (w[1].y - w[0].y).abs() <= 1);
            }
        }
    }
    let long = plot(c(-32768, -32768), c(32767, 32767));
    assert_eq!(long.len(), 65536);
}

#[test]
fn square_area_covers_the_square() {
    let sq = Square::new();
    assert_eq!(sq.area(2), pts(&[(0, 0), (0, 1), (1, 0), (1, 1)]));
    assert!(sq.area(0).is_empty());
    let a = sq.area(5);
    assert_eq!(a.len(), 25);
    for x in 0..5 {
        for y in 0..5 {
            assert!(a.contains(&c(x, y)));
        }
    }
}

#[test]
fn triangle_area_joins_apex_to_base() {
    let t = Triangle::new();
    assert_eq!(t.area(2), pts(&[(1, 0), (0, 1), (0, 2), (1, 0), (1, 1), (1, 2)]));
    assert!(t.area(0).is_empty());
    let a = t.area(6);
    for i in 0..6 {
        assert!(a.contains(&c(i, 6)));
    }
    assert!(a.iter().all(|p| 0 <= p.x && p.x < 6 && 0 <= p.y && p.y <= 6));
    assert!(t.area(40000).is_empty());
}

#[test]
fn circle_area_small_sizes() {
    let circle = Circle::new();
    assert_eq!(circle.area(1), pts(&[(0, 0), (0, 0), (0, 0), (0, 0)]));
    let a = circle.area(2);
    assert_eq!(a.len(), 24);
    assert_eq!(&a[0..3], &pts(&[(1, 0), (0, 0), (-1, 0)])[..]);
}

#[test]
fn circle_area_is_symmetric_and_bounded() {
    let circle = Circle::new();
    for size in [3u32, 7, 12, 40] {
        let a = circle.area(size);
        assert!(a.contains(&c(0, 0)));
        assert!(a.contains(&c(size as i16 - 1, 0)));
        assert!(a.contains(&c(1 - size as i16, 0)));
        for p in a.iter() {
            assert!(p.x.abs() < size as i16 && p.y.abs() < size as i16);
            assert!(a.contains(&c(-p.x, p.y)));
            assert!(a.contains(&c(p.x, -p.y)));
            assert!(a.contains(&c(p.y, p.x)));
        }
    }
}

#[test]
fn circle_area_sees_size_modulo_65536() {
    let circle = Circle::new();
    assert_eq!(circle.area(65536 + 3), circle.area(3));
    assert!(circle.area(40000).is_empty());
    assert!(circle.area(65536).is_empty());
}

#[test]
fn border_clamps_to_u8() {
    assert_eq!(border(250, 10), 255);
    assert_eq!(border(5, -10), 0);
    assert_eq!(border(100, 20), 120);
    assert_eq!(border(0, i32::MAX), 255);
    assert_eq!(border(255, i32::MIN), 0);
}

#[test]
fn shade_moves_colour_channels() {
    assert_eq!(shade(Color { data: [100, 100, 100, 255] }, -30), Color { data: [70, 70, 70, 255] });
    assert_eq!(shade(Color { data: [250, 10, 0, 7] }, 10), Color { data: [255, 20, 10, 7] });
}

fn node_at<'a>(name: &str, x: i16, y: i16) -> Node<'a> {
    Node::new(name, c(x, y))
}

#[test]
fn network_finds_elements_by_name() {
    let net = Network::new(vec![node_at("A", 0, 0), node_at("B", 1, 1), node_at("B", 2, 2)]);
    assert!(net.contains(&node_at("B", 9, 9)));
    assert!(!net.contains(&node_at("C", 0, 0)));
    assert_eq!(net.contains_index(&node_at("B", 0, 0)), Some(1));
    assert_eq!(net.contains_index(&node_at("Z", 0, 0)), None);
    assert_eq!(net.get_element("B").unwrap().geo, c(1, 1));
    assert!(net.get_element("C").is_none());
}

#[test]
fn network_contains_agrees_with_contains_index() {
    let net = Network::new(vec![node_at("A", 0, 0), node_at("B", 1, 1)]);
    for name in ["A", "B", "C", ""] {
        let probe = node_at(name, 0, 0);
        assert_eq!(net.contains(&probe), net.contains_index(&probe).is_some());
    }
}

#[test]
fn path_shortest_leg_follows_first_links() {
    let cc = node_at("C", 20, 20);
    let mut b = node_at("B", 10, 10);
    b.link(&cc);
    let mut a = node_at("A", 0, 0);
    a.link(&b);
    let net = Network::new(vec![a.clone(), b.clone(), cc.clone()]);
    let path = Network::path_shortest_leg(&net, "A", "C");
    let geos: Vec<Coordinate> = path.iter().map(|p| p.1.geo).collect();
    assert_eq!(geos, pts(&[(0, 0), (10, 10), (20, 20)]));
    assert!(path.iter().all(|p| p.0 == 0));
    assert_eq!(Network::path_shortest_leg(&net, "A", "A").len(), 1);
    assert!(Network::try_path_shortest_leg(&net, "C", "A").is_none());
    assert!(Network::try_path_shortest_leg(&net, "A", "Q").is_none());
    assert_eq!(Network::try_path_shortest_leg(&net, "B", "C").unwrap().len(), 2);
}

#[test]
fn path_uses_the_algorithm_unless_start_has_no_links() {
    let cc = node_at("C", 20, 20);
    let mut b = node_at("B", 10, 10);
    b.link(&cc);
    let net = Network::new(vec![b.clone(), cc.clone()]);
    let p = net.path("B", "C", &Network::path_shortest_leg);
    assert_eq!(p.len(), 2);
    let q = net.path("C", "B", &Network::path_shortest_leg);
    assert!(q.is_empty());
    assert!(net.try_path("B", "X", &Network::path_shortest_leg).is_none());
    assert_eq!(net.try_path("B", "C", &Network::path_shortest_leg).unwrap().len(), 2);
}

fn pixel(img: &Canvas, x: u32, y: u32) -> [u8; 4] {
    img.pixel(x, y).unwrap()
}

#[test]
fn map_draws_nodes_as_squares() {
    let nodes: Vec<Node> = vec![Node::new("1", c(0, 0)), Node::new("2", c(5, 5))];
    let mut map = ImageMap::new();
    map = map.map(&nodes);
    assert_eq!(map.add, (4, 4));
    let img = map.image.as_ref().unwrap();
    assert_eq!(img.dimensions(), (14, 14));
    assert_eq!(pixel(img, 4, 4), [0, 0, 0, 255]);
    assert_eq!(pixel(img, 7, 7), [0, 0, 0, 255]);
    assert_eq!(pixel(img, 12, 12), [0, 0, 0, 255]);
    assert_eq!(pixel(img, 8, 4), [0, 0, 0, 0]);
    assert_eq!(pixel(img, 0, 0), [0, 0, 0, 0]);
}

#[test]
fn map_doc_example_draws_without_panicking() {
    let nodes: Vec<Node> = vec![Node::new("1", c(0, 0)), Node::new("2", c(100, 100))];
    let mut map = ImageMap::new();
    map = map.map(&nodes);
    assert!(map.image.is_some());
}

#[test]
fn map_draws_links_in_their_colour() {
    let b = Node::new("B", c(6, 0));
    let mut a = Node::new("A", c(0, 0));
    a.link(&b);
    a.connections[0].color = Color { data: [200, 0, 0, 255] };
    a.color = Color { data: [0, 0, 200, 255] };
    let map = ImageMap::new().map(&[a, b.clone()]);
    let img = map.image.as_ref().unwrap();
    let (ax, ay) = (map.add.0 as u32, map.add.1 as u32);
    assert_eq!((ax, ay), (4, 4));
    assert_eq!(pixel(img, ax + 5, ay + 2), [200, 0, 0, 255]);
    assert_eq!(pixel(img, ax + 2, ay + 2), [0, 0, 200, 255]);
}

#[test]
fn map_with_image_keeps_offset() {
    let nodes: Vec<Node> = vec![Node::new("1", c(0, 0))];
    let map = ImageMap::new().map(&nodes);
    let add = map.add;
    let again = map.map(&[Node::new("2", c(1, 1))]);
    assert_eq!(again.add, add);
    let img = again.image.as_ref().unwrap();
    assert_eq!(pixel(img, add.0 as u32 + 4, add.1 as u32 + 4), [0, 0, 0, 255]);
}

#[test]
fn empty_group_draws_nothing() {
    let map = ImageMap::new().map(&[Node::new("1", c(0, 0))]);
    let before = map.image.clone().unwrap();
    let g = Group::new("G", c(0, 0));
    let after = g.draw(map.image.unwrap(), 0, 0, 4, &Square::new());
    for x in 0..before.dimensions().0 {
        for y in 0..before.dimensions().1 {
            assert_eq!(pixel(&before, x, y), pixel(&after, x, y));
        }
    }
}

#[test]
fn group_draws_its_nodes() {
    let mut g = Group::new("G", c(0, 0));
    g.push(Node::new("a", c(1, 1)));
    let map = ImageMap::new().map(&[g]);
    let img = map.image.as_ref().unwrap();
    let (ax, ay) = (map.add.0 as u32, map.add.1 as u32);
    assert_eq!(pixel(img, ax + 1, ay + 1), [0, 0, 0, 255]);
}

#[test]
fn min_max_and_dimensions() {
    let nodes = vec![node_at("a", -3, 5), node_at("b", 7, -2)];
    let mm = min_max(&nodes);
    assert_eq!(mm, ((-7, 11), (-6, 9)));
    assert_eq!(gen_stuff(mm), (7, 6));
    assert_eq!(gen_map_dimensions(mm), (19, 16));
}

#[test]
fn image_map_default_and_new() {
    let d = ImageMap::default();
    assert!(d.image.is_none());
    assert_eq!(d.size, 0);
    let n = ImageMap::new();
    assert_eq!(n.size, 4);
    assert_eq!(n.add, (0, 0));
}

#[test]
fn node_get_size_and_links() {
    let b = Node::new("B", c(1, 1));
    let mut a = Node::new("A", c(0, 0));
    assert_eq!(a.get_size(), 4);
    a.radius = Some(11);
    assert_eq!(a.get_size(), 11);
    a.link(&b);
    assert_eq!(a.get_links().len(), 1);
    assert_eq!(a.get_parameters(), (c(0, 0), c(0, 0)));
}

#[test]
fn canvas_pixel_is_none_outside_the_image() {
    let img = pathfinder::image_map::gen_canvas(3, 2);
    assert_eq!(img.dimensions(), (3, 2));
    assert_eq!(img.pixel(2, 1), Some([0, 0, 0, 0]));
    assert_eq!(img.pixel(3, 0), None);
    assert_eq!(img.pixel(0, 2), None);
}

#[test]
fn try_path_by_first_links_reports_missing_paths() {
    let cc = node_at("C", 20, 20);
    let dd = node_at("D", 30, 30);
    let mut b = node_at("B", 10, 10);
    b.link(&cc);
    let net = Network::new(vec![b.clone(), cc.clone(), dd.clone()]);
    let p = net.try_path_by_first_links("B", "C").unwrap();
    let geos: Vec<Coordinate> = p.iter().map(|s| s.1.geo).collect();
    assert_eq!(geos, pts(&[(10, 10), (20, 20)]));
    assert!(net.try_path_by_first_links("C", "B").unwrap().is_empty());
    assert!(net.try_path_by_first_links("B", "D").is_none());
    assert!(net.try_path_by_first_links("X", "C").is_none());
    assert!(net.try_path_by_first_links("B", "X").is_none());
}

#[test]
fn mapping_the_same_elements_twice_changes_nothing() {
    let cc = node_at("C", 6, 2);
    let mut a = node_at("A", 0, 0);
    a.link(&cc);
    a.color = Color { data: [200, 10, 10, 255] };
    let elements = vec![a.clone(), cc.clone()];
    let once = ImageMap::new().map(&elements);
    let twice = once.clone().map(&elements);
    assert_eq!(twice.add, once.add);
    assert_eq!(twice.size, once.size);
    let (i1, i2) = (once.image.as_ref().unwrap(), twice.image.as_ref().unwrap());
    assert_eq!(i1.dimensions(), i2.dimensions());
    for x in 0..i1.dimensions().0 {
        for y in 0..i1.dimensions().1 {
            assert_eq!(pixel(i1, x, y), pixel(i2, x, y));
        }
    }
}
