use polycubes::polycube::{positions_connected, Polycube};
use polycubes::position::{lexicographically_smaller, sort_positions, Pos};

fn shape(points: &[(i8, i8, i8)]) -> Polycube {
    Polycube::new(points.iter().map(|&(x, y, z)| Pos::new(x, y, z)).collect())
}

#[test]
fn adjacent_positions_are_the_six_face_neighbours() {
    let p = Pos::new(2, -3, 5);
    let adj = p.adjacent_positions();
    assert_eq!(
        adj,
        vec![
            Pos::new(3, -3, 5),
            Pos::new(1, -3, 5),
            Pos::new(2, -2, 5),
            Pos::new(2, -4, 5),
            Pos::new(2, -3, 6),
            Pos::new(2, -3, 4),
        ]
    );
}

#[test]
fn base_shapes() {
    assert_eq!(Polycube::unit_cube().cubes, vec![Pos::new(0, 0, 0)]);
    assert_eq!(Polycube::domino().cubes, vec![Pos::new(0, 0, 0), Pos::new(1, 0, 0)]);
}

#[test]
fn normalize_moves_minimum_to_origin_and_keeps_order() {
    let s = shape(&[(3, -2, 7), (4, -2, 7), (4, -1, 7)]);
    let n = s.normalize();
    assert_eq!(n.cubes, vec![Pos::new(0, 0, 0), Pos::new(1, 0, 0), Pos::new(1, 1, 0)]);
    assert_eq!(shape(&[]).normalize().cubes, vec![]);
}

#[test]
fn expand_appends_the_position() {
    let d = Polycube::domino().expand(Pos::new(0, 1, 0));
    assert_eq!(d.cubes, vec![Pos::new(0, 0, 0), Pos::new(1, 0, 0), Pos::new(0, 1, 0)]);
}

#[test]
fn expansion_positions_of_unit_cube_are_its_neighbours() {
    let mut f = Polycube::unit_cube().get_expansion_positions();
    sort_positions(&mut f);
    let mut expected = Pos::new(0, 0, 0).adjacent_positions();
    sort_positions(&mut expected);
    assert_eq!(f, expected);
}

#[test]
fn expansion_positions_of_domino() {
    let f = Polycube::domino().get_expansion_positions();
    assert_eq!(f.len(), 10);
    assert!(!f.contains(&Pos::new(0, 0, 0)));
    assert!(!f.contains(&Pos::new(1, 0, 0)));
    assert!(f.contains(&Pos::new(-1, 0, 0)));
    assert!(f.contains(&Pos::new(2, 0, 0)));
    assert!(f.contains(&Pos::new(1, 1, 0)));
}

#[test]
fn face_connectivity() {
    assert!(shape(&[]).is_face_connected());
    assert!(Polycube::unit_cube().is_face_connected());
    assert!(shape(&[(0, 0, 0), (1, 0, 0), (1, 1, 0), (1, 1, 1)]).is_face_connected());
    assert!(!shape(&[(0, 0, 0), (1, 1, 0)]).is_face_connected());
    assert!(!shape(&[(0, 0, 0), (1, 0, 0), (3, 0, 0), (4, 0, 0)]).is_face_connected());
    assert!(!shape(&[(0, 0, 0), (1, 0, 0), (0, 0, 0)]).is_face_connected());
    assert!(positions_connected(&vec![Pos::new(5, 5, 5), Pos::new(5, 6, 5), Pos::new(5, 6, 4)]));
}

#[test]
fn dimensions_and_classification() {
    let line = shape(&[(0, 0, 0), (1, 0, 0), (2, 0, 0)]);
    assert_eq!(line.get_dimensions(), (3, 1, 1));
    assert!(line.is_linear());
    assert!(line.is_flat());
    let ell = shape(&[(0, 0, 0), (1, 0, 0), (1, 1, 0)]);
    assert_eq!(ell.get_dimensions(), (2, 2, 1));
    assert!(!ell.is_linear());
    assert!(ell.is_flat());
    let corner = shape(&[(0, 0, 0), (1, 0, 0), (0, 1, 0), (0, 0, 1)]);
    assert_eq!(corner.get_dimensions(), (2, 2, 2));
    assert!(!corner.is_flat());
    assert_eq!(shape(&[]).get_dimensions(), (0, 0, 0));
}

#[test]
fn lexicographic_comparison() {
    let a = [Pos::new(0, 0, 0), Pos::new(0, 1, 0)];
    let b = [Pos::new(0, 0, 0), Pos::new(1, 0, 0)];
    assert!(lexicographically_smaller(&a, &b));
    assert!(!lexicographically_smaller(&b, &a));
    assert!(!lexicographically_smaller(&a, &a));
    assert!(lexicographically_smaller(&a[..1], &a));
    assert!(lexicographically_smaller(&[Pos::new(0, 0, -1)], &[Pos::new(0, 0, 0)]));
}

#[test]
fn sorting_orders_by_x_then_y_then_z() {
    let mut v = vec![Pos::new(1, 0, 0), Pos::new(0, 2, 0), Pos::new(0, 1, 5), Pos::new(0, 1, -1)];
    sort_positions(&mut v);
    assert_eq!(v, vec![Pos::new(0, 1, -1), Pos::new(0, 1, 5), Pos::new(0, 2, 0), Pos::new(1, 0, 0)]);
}
