use polycubes::generator::generate_polycubes;
use polycubes::polycube::Polycube;
use polycubes::position::Pos;
use polycubes::summary::{
    calculate_measures, get_dimensionality_order, max_dimension_counts, get_summary_data, polycube_to_string, surface_area, BenchmarkResult,
};

#[test]
fn summary_of_size_four() {
    let s = get_summary_data(&generate_polycubes(4));
    assert_eq!(s.linear_count, 1);
    assert_eq!(s.planar_count, 4);
    assert_eq!(s.three_d_count, 3);
    assert_eq!(s.single_layer_count, 5);
    assert_eq!(s.multi_layer_count, 3);
}

#[test]
fn dimensionality_orders() {
    assert_eq!(get_dimensionality_order(&Polycube::domino()), 1);
    let ell = Polycube::new(vec![Pos::new(0, 0, 0), Pos::new(1, 0, 0), Pos::new(1, 1, 0)]);
    assert_eq!(get_dimensionality_order(&ell), 2);
    let corner = Polycube::new(vec![Pos::new(0, 0, 0), Pos::new(1, 0, 0), Pos::new(0, 1, 0), Pos::new(0, 0, 1)]);
    assert_eq!(get_dimensionality_order(&corner), 3);
}

#[test]
fn benchmark_records_compare_with_known_counts() {
    let ok = BenchmarkResult::from_run(5, 29, 12);
    assert_eq!(ok.expected, Some(29));
    assert!(ok.matches_expected);
    let bad = BenchmarkResult::from_run(5, 28, 12);
    assert!(!bad.matches_expected);
    let unknown = BenchmarkResult::from_run(30, 7, 1);
    assert_eq!(unknown.expected, None);
    assert!(unknown.matches_expected);
}

#[test]
fn measures_of_an_ell() {
    let ell = Polycube::new(vec![Pos::new(0, 0, 0), Pos::new(1, 0, 0), Pos::new(1, 1, 0)]);
    let m = calculate_measures(&ell);
    assert_eq!((m.dimension_x, m.dimension_y, m.dimension_z), (2, 2, 1));
    assert!(!m.is_linear);
    assert!(m.is_flat);
    assert_eq!(m.surface_area, 14);
    assert_eq!(m.volume, 3);
    assert_eq!(surface_area(&Polycube::unit_cube()), 6);
    assert_eq!(surface_area(&Polycube::domino()), 10);
}

#[test]
fn extents_are_measured_from_the_least_coordinate() {
    let s = Polycube::new(vec![Pos::new(3, 5, 7), Pos::new(4, 5, 7)]);
    let m = calculate_measures(&s);
    assert_eq!((m.dimension_x, m.dimension_y, m.dimension_z), (2, 1, 1));
    assert!(m.is_linear);
}

#[test]
fn drawing_of_shapes() {
    assert_eq!(polycube_to_string(&Polycube::new(vec![])), "Empty polycube");
    let ell = Polycube::new(vec![Pos::new(0, 0, 0), Pos::new(1, 0, 0), Pos::new(1, 1, 0)]);
    assert_eq!(polycube_to_string(&ell), "Layer z=0\n.#\n##\n\n");
    let tower = Polycube::new(vec![Pos::new(0, 0, 10), Pos::new(0, 0, 11)]);
    assert_eq!(polycube_to_string(&tower), "Layer z=10\n#\n\nLayer z=11\n#\n\n");
}

#[test]
fn drawing_accepts_negative_coordinates() {
    let s = Polycube::new(vec![Pos::new(-1, -2, -3), Pos::new(0, -2, -3)]);
    assert_eq!(polycube_to_string(&s), "Layer z=-3\n##\n\n");
}

#[test]
fn measures_accept_negative_coordinates() {
    let s = Polycube::new(vec![Pos::new(-5, 0, 0), Pos::new(-5, -1, 0), Pos::new(-4, -1, 0)]);
    let m = calculate_measures(&s);
    assert_eq!((m.dimension_x, m.dimension_y, m.dimension_z), (2, 2, 1));
    assert_eq!(m.surface_area, 14);
}

#[test]
fn distribution_by_largest_extent() {
    assert_eq!(max_dimension_counts(&generate_polycubes(4)), vec![0, 0, 4, 3, 1]);
    assert_eq!(max_dimension_counts(&vec![]), vec![0]);
}
