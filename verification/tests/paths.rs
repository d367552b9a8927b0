use path_navigator::components::{SphereConnection, SpherePoint};
use path_navigator::data::CelestialObject;
use path_navigator::dijkstra::{find_shortest_path, get_closest_point};
use path_navigator::errors::ErrorKind;
use path_navigator::vertex::VertexBuffer;

/// Cost units per kilometer handed to the library: one unit per millimeter.
const COST_UNITS_PER_KM: f64 = 1_000_000.0;

fn point(lat: f64, lng: f64) -> SpherePoint {
    SpherePoint::new(lat.to_bits(), lng.to_bits())
}

fn radius_km(celestial_object: &CelestialObject) -> f64 {
    match celestial_object {
        CelestialObject::MERCURY => 2_439.7,
        CelestialObject::VENUS => 6_051.8,
        CelestialObject::EARTH => 6_371.0,
        CelestialObject::MARS => 3_389.5,
        CelestialObject::JUPITER => 69_911.0,
        CelestialObject::SATURN => 58_232.0,
        CelestialObject::URANUS => 25_362.0,
        CelestialObject::NEPTUNE => 24_622.0,
    }
}

/// Haversine great-circle distance between two points, in kilometers.
fn haversine_km(start: &SpherePoint, finish: &SpherePoint, radius: f64) -> f64 {
    let start_lat = f64::from_bits(start.lat_bits);
    let start_lng = f64::from_bits(start.lng_bits);
    let finish_lat = f64::from_bits(finish.lat_bits);
    let finish_lng = f64::from_bits(finish.lng_bits);
    let fi = (finish_lat - start_lat).to_radians();
    let fi_1 = start_lat.to_radians();
    let fi_2 = finish_lat.to_radians();
    let lambda = (finish_lng - start_lng).to_radians();
    let a = (fi / 2_f64).sin().powi(2) + fi_1.cos() * fi_2.cos() * (lambda / 2_f64).sin().powi(2);
    let c = 2_f64 * a.sqrt().atan2((1_f64 - a).sqrt());
    radius * c
}

fn cost_units(connection: &SphereConnection, radius: f64) -> u64 {
    (haversine_km(&connection.start, &connection.finish, radius) * COST_UNITS_PER_KM) as u64
}

fn connection_costs(connections: &[SphereConnection], celestial_object: &CelestialObject) -> Vec<u64> {
    let radius = radius_km(celestial_object);
    connections.iter().map(|connection| cost_units(connection, radius)).collect()
}

fn node_distances(query: &SpherePoint, vertex: &VertexBuffer) -> Vec<u64> {
    let radius = radius_km(&vertex.celestial_object);
    vertex
        .vector
        .iter()
        .map(|node| cost_units(&SphereConnection::new(*query, node.coordinates), radius))
        .collect()
}

fn build(connections: Vec<SphereConnection>, celestial_object: CelestialObject) -> Result<VertexBuffer, ErrorKind> {
    let costs = connection_costs(&connections, &celestial_object);
    VertexBuffer::new(connections, costs, celestial_object)
}

fn query(start: &SpherePoint, finish: &SpherePoint, vertex: &VertexBuffer) -> Option<Vec<SphereConnection>> {
    let start_distances = node_distances(start, vertex);
    let finish_distances = node_distances(finish, vertex);
    find_shortest_path(start, finish, vertex, &start_distances, &finish_distances)
}

#[test]
fn test_it_works() {
    assert_eq!(2 + 2, 4);
}

#[test]
fn test_point() {
    let point_0 = point(20.99, 10.12);
    let point_1 = point(20_98_f64, 10.12_f64);
    let point_2 = point(20.99_f64, 10.12_f64);
    assert!(point_0 != point_1);
    assert!(point_0 == point_2);
}

#[test]
fn test_long_connection() {
    let point_0 = point(33.3386, 44.3939); // Bagdad
    let point_1 = point(34.6937, 135.502); // Osaka
    let point_2 = point(-36.8667, 174.767); // Warsaw
    let point_3 = point(52.25, 21_f64); // Aucklan
    let point_4 = point(13.75, 100.517); // Bangkok
    let point_5 = point(55.7522, 37.6156); // Moscow
    let point_6 = point(54.4167, 13.4333); // Bergen
    let point_7 = point(54.35, 18.6667); // Gdansk
    let point_8 = point(43.000350, -75.499900); // New York
    let point_9 = point(59.91273, 10.74609); // Oslo
    let connection_0 = SphereConnection::new(point_0, point_1);
    let connection_1 = SphereConnection::new(point_2, point_3);
    let connection_2 = SphereConnection::new(point_4, point_5);
    let connection_3 = SphereConnection::new(point_6, point_7);
    let connection_4 = SphereConnection::new(point_8, point_9);
    let radius = radius_km(&CelestialObject::EARTH);
    // test Bagdad to Osaka
    assert_eq!(8069, haversine_km(&connection_0.start, &connection_0.finish, radius) as u32);
    // test Warsaw to Auckland
    assert_eq!(17349, haversine_km(&connection_1.start, &connection_1.finish, radius) as u32);
    // test Bangkok to Moscow
    assert_eq!(7065, haversine_km(&connection_2.start, &connection_2.finish, radius) as u32);
    // test Gdansk to Bergen
    assert_eq!(338, haversine_km(&connection_3.start, &connection_3.finish, radius) as u32);
    // test New York to Oslo
    assert_eq!(5794, haversine_km(&connection_4.start, &connection_4.finish, radius) as u32);
}

#[test]
fn test_short_connection() {
    let point_0 = point(54.424579, 18.595444);
    let point_1 = point(54.426383, 18.592333);
    let short_connection = SphereConnection::new(point_0, point_1);
    let radius = radius_km(&CelestialObject::EARTH);
    assert_eq!(
        284,
        (haversine_km(&short_connection.start, &short_connection.finish, radius) * 1000_f64) as u32
    );
}

#[test]
fn test_distance_symmetry() {
    let pairs = [
        (point(33.3386, 44.3939), point(34.6937, 135.502)),
        (point(-36.8667, 174.767), point(52.25, 21.0)),
        (point(0.0, 0.0), point(10.0, 10.0)),
    ];
    for (a, b) in pairs.iter() {
        for radius in [2_439.7, 6_371.0, 69_911.0] {
            assert_eq!(
                haversine_km(a, b, radius).to_bits(),
                haversine_km(b, a, radius).to_bits()
            );
        }
    }
}

#[test]
fn test_zero_self_distance() {
    for p in [point(0.0, 0.0), point(-36.8667, 174.767), point(54.35, 18.6667)] {
        for radius in [2_439.7, 6_371.0, 69_911.0] {
            assert_eq!(0.0, haversine_km(&p, &p, radius));
        }
    }
}

#[test]
fn test_vertex_creation() {
    // given
    let mut connections_correct: Vec<SphereConnection> = Vec::new();
    let mut connections_incorrect: Vec<SphereConnection> = Vec::new();
    let first_point = point(0.00, 0.00);
    let second_point = point(1.0, 2.0);
    // when
    connections_correct.push(SphereConnection::new(first_point, second_point));
    connections_incorrect.push(SphereConnection::new(first_point, first_point));
    let vertex_buffer_correct = build(connections_correct, CelestialObject::SATURN);
    let vertex_buffer_incorrect = build(connections_incorrect, CelestialObject::SATURN);
    // then
    assert!(vertex_buffer_correct.is_ok());
    assert!(vertex_buffer_incorrect.is_err());
}

#[test]
fn test_vertex_creation_rejects_empty_list() {
    let result = build(Vec::new(), CelestialObject::EARTH);
    assert_eq!(result.unwrap_err(), ErrorKind::DataItemIncorrect);
}

#[test]
fn test_vertex_creation_rejects_self_loop() {
    let good = SphereConnection::new(point(0.0, 0.0), point(1.0, 1.0));
    let bad = SphereConnection::new(point(5.0, 5.0), point(5.0, 5.0));
    let result = build(vec![good, bad], CelestialObject::EARTH);
    assert_eq!(result.unwrap_err(), ErrorKind::DataItemIncorrect);
}

#[test]
fn test_vertex_for_single_line() {
    // given
    let mut connections: Vec<SphereConnection> = Vec::new();
    let mut first_lat = 0.00_f64;
    let mut first_lng = 0.00_f64;
    let mut second_lat = 5.00_f64;
    let mut second_lng = 15.00_f64;
    for _ in 0..100 {
        let connection =
            SphereConnection::new(point(first_lat, first_lng), point(second_lat, second_lng));
        connections.push(connection);
        first_lat = second_lat;
        first_lng = second_lng;
        second_lat += 5.00_f64;
        second_lng += 15.00_f64;
    }
    // when
    let vertex_buffer = build(connections.clone(), CelestialObject::MARS);
    // then
    assert!(vertex_buffer.is_ok());
    assert_eq!(connections.len() + 1, vertex_buffer.unwrap().len());
}

#[test]
fn test_node_count_deduplicates_coordinates() {
    // three connections over three distinct coordinates
    let a = point(0.0, 0.0);
    let b = point(1.0, 0.0);
    let c = point(0.0, 1.0);
    let connections = vec![
        SphereConnection::new(a, b),
        SphereConnection::new(b, c),
        SphereConnection::new(c, a),
    ];
    let vertex = build(connections, CelestialObject::EARTH).unwrap();
    assert_eq!(3, vertex.len());
}

#[test]
fn test_adjacency_is_symmetric_with_equal_costs() {
    let a = point(0.0, 0.0);
    let b = point(1.0, 0.0);
    let c = point(0.0, 1.0);
    let connections = vec![SphereConnection::new(a, b), SphereConnection::new(b, c)];
    let vertex = build(connections, CelestialObject::EARTH).unwrap();
    for (i, node) in vertex.vector.iter().enumerate() {
        for relation in node.graphs.iter() {
            let mirrored = vertex.vector[relation.vertex_index]
                .graphs
                .iter()
                .any(|back| back.vertex_index == i && back.cost == relation.cost);
            assert!(mirrored);
        }
    }
}

#[test]
fn test_repeated_connection_is_recorded_once() {
    let a = point(0.0, 0.0);
    let b = point(1.0, 0.0);
    let connections = vec![SphereConnection::new(a, b), SphereConnection::new(a, b)];
    let vertex = build(connections, CelestialObject::EARTH).unwrap();
    assert_eq!(2, vertex.len());
    assert_eq!(1, vertex.vector[0].graphs.len());
    assert_eq!(1, vertex.vector[1].graphs.len());
}

#[test]
fn test_closest_point_ties_resolve_to_first() {
    let distances = vec![7_u64, 3, 5, 3, 9];
    assert_eq!(1, get_closest_point(&distances));
    let all_equal = vec![4_u64, 4, 4];
    assert_eq!(0, get_closest_point(&all_equal));
}

#[test]
fn test_shortest_path_calculations() {
    // given:
    let mut paths: Vec<SphereConnection> = Vec::new();
    let mut known_shortest_path: Vec<SphereConnection> = Vec::new();
    // calculate left arm
    let mut point_b = point(0.0, 0.0);
    for i in 1..10 {
        let point_a = point_b;
        point_b = point(i as f64, 0.0);
        paths.push(SphereConnection::new(point_a, point_b));
    }
    paths.push(SphereConnection::new(point_b, point(10.0, 10.0)));

    // calculate right arm
    point_b = point(0.0, 0.0);
    for i in 1..10 {
        let point_a = point_b;
        point_b = point(0.0, i as f64);
        paths.push(SphereConnection::new(point_a, point_b));
    }
    paths.push(SphereConnection::new(point_b, point(10.0, 10.0)));

    // calculate diagonal
    point_b = point(0.0, 0.0);
    for i in 1..11 {
        let point_a = point_b;
        point_b = point(i as f64, i as f64);
        paths.push(SphereConnection::new(point_a, point_b));
        known_shortest_path.push(SphereConnection::new(point_a, point_b));
    }

    // when:
    let vertex = build(paths, CelestialObject::MERCURY).unwrap();

    // then:
    let shortest_path = query(&point(0.0, 0.0), &point(10.0, 10.0), &vertex).unwrap();
    assert_eq!(known_shortest_path, shortest_path);
    let radius = radius_km(&CelestialObject::MERCURY);
    let mut calc_cost = 0.0_f64;
    let mut known_cost = 0.0_f64;
    for i in 0..10 {
        calc_cost += haversine_km(&shortest_path[i].start, &shortest_path[i].finish, radius);
        known_cost +=
            haversine_km(&known_shortest_path[i].start, &known_shortest_path[i].finish, radius);
    }
    assert_eq!(known_cost.to_bits(), calc_cost.to_bits());
}

#[test]
fn test_shortest_path_not_possible_to_find() {
    //  when:
    let mut path: Vec<SphereConnection> = Vec::new();
    path.push(SphereConnection::new(point(0.0, 0.0), point(10.0, 10.0)));
    let vertex = build(path, CelestialObject::URANUS).unwrap();
    // given:
    let far_point = point(123.123, 456.123);
    let point_very_close = point(124.1, 456.1);

    // then:
    let is_path_calculated = match query(&far_point, &far_point, &vertex) {
        Some(_) => true,
        None => false,
    };
    assert_eq!(is_path_calculated, false);
    let is_path_calculated = match query(&far_point, &point_very_close, &vertex) {
        Some(_) => true,
        None => false,
    };
    assert_eq!(is_path_calculated, false);
}

#[test]
fn test_disconnected_components_have_no_path() {
    // two separate islands: (0,0)-(1,1) and (50,50)-(51,51)
    let connections = vec![
        SphereConnection::new(point(0.0, 0.0), point(1.0, 1.0)),
        SphereConnection::new(point(50.0, 50.0), point(51.0, 51.0)),
    ];
    let vertex = build(connections, CelestialObject::EARTH).unwrap();
    let route = query(&point(0.0, 0.0), &point(51.0, 51.0), &vertex);
    assert!(route.is_none());
}

#[test]
fn test_cheaper_detour_beats_expensive_direct_edge() {
    // costs are supplied directly: the direct edge is ten times more
    // expensive than the two-step detour, so the detour must be returned
    let a = point(0.0, 0.0);
    let b = point(1.0, 1.0);
    let c = point(2.0, 2.0);
    let connections = vec![
        SphereConnection::new(a, c),
        SphereConnection::new(a, b),
        SphereConnection::new(b, c),
    ];
    let costs = vec![100_u64, 10, 10];
    let vertex = VertexBuffer::new(connections, costs, CelestialObject::EARTH).unwrap();
    // node order: a = 0, c = 1, b = 2
    let start_distances = vec![0_u64, 9, 5];
    let finish_distances = vec![9_u64, 0, 5];
    let route = find_shortest_path(&a, &c, &vertex, &start_distances, &finish_distances).unwrap();
    assert_eq!(
        vec![SphereConnection::new(a, b), SphereConnection::new(b, c)],
        route
    );
}

#[test]
fn test_connected_pair_has_direct_path() {
    let a = point(0.0, 0.0);
    let b = point(10.0, 10.0);
    let connections = vec![SphereConnection::new(a, b)];
    let vertex = build(connections, CelestialObject::EARTH).unwrap();
    let route = query(&a, &b, &vertex).unwrap();
    assert_eq!(vec![SphereConnection::new(a, b)], route);
}
