use polycubes::polycube::Polycube;
use polycubes::position::Pos;
use polycubes::rotation::{all_rotations, generate_rotation_matrices};

fn shape(points: &[(i8, i8, i8)]) -> Polycube {
    Polycube::new(points.iter().map(|&(x, y, z)| Pos::new(x, y, z)).collect())
}

fn det(m: &[[i8; 3]; 3]) -> i32 {
    let e = |r: usize, c: usize| m[r][c] as i32;
    e(0, 0) * (e(1, 1) * e(2, 2) - e(1, 2) * e(2, 1)) - e(0, 1) * (e(1, 0) * e(2, 2) - e(1, 2) * e(2, 0))
        + e(0, 2) * (e(1, 0) * e(2, 1) - e(1, 1) * e(2, 0))
}

#[test]
fn there_are_24_distinct_proper_rotations() {
    let ms = generate_rotation_matrices();
    assert_eq!(ms.len(), 24);
    for (i, a) in ms.iter().enumerate() {
        assert_eq!(det(a), 1);
        for b in &ms[i + 1..] {
            assert_ne!(a, b);
        }
    }
    assert_eq!(ms[0], [[1, 0, 0], [0, 1, 0], [0, 0, 1]]);
}

#[test]
fn apply_rotation_maps_each_cube() {
    let s = shape(&[(1, 2, 3), (-1, 0, 4)]);
    let r = s.apply_rotation(&[[0, 1, 0], [0, 0, -1], [-1, 0, 0]]);
    assert_eq!(r.cubes, vec![Pos::new(2, -3, -1), Pos::new(0, -4, 1)]);
}

#[test]
fn all_rotations_are_normalized() {
    let s = shape(&[(0, 0, 0), (1, 0, 0), (1, 1, 0), (1, 1, 1)]);
    let rs = all_rotations(&s);
    assert_eq!(rs.len(), 24);
    for r in &rs {
        assert_eq!(r.cubes.iter().map(|p| p.x).min(), Some(0));
        assert_eq!(r.cubes.iter().map(|p| p.y).min(), Some(0));
        assert_eq!(r.cubes.iter().map(|p| p.z).min(), Some(0));
    }
}

#[test]
fn canonical_form_is_least_sorted_rotation() {
    let line = shape(&[(0, 0, 2), (0, 0, 0), (0, 0, 1)]);
    assert_eq!(line.get_canonical_form(), vec![Pos::new(0, 0, 0), Pos::new(0, 0, 1), Pos::new(0, 0, 2)]);
    let ell = shape(&[(0, 0, 0), (1, 0, 0), (1, 1, 0)]);
    assert_eq!(ell.get_canonical_form(), vec![Pos::new(0, 0, 0), Pos::new(0, 0, 1), Pos::new(0, 1, 0)]);
}

#[test]
fn canonical_signature_is_rotation_invariant() {
    let shapes = [
        shape(&[(0, 0, 0), (1, 0, 0), (1, 1, 0), (1, 1, 1)]),
        shape(&[(0, 0, 0), (1, 0, 0), (2, 0, 0), (2, 1, 0), (2, 1, 1)]),
        shape(&[(3, 3, 3), (3, 4, 3), (4, 4, 3), (4, 4, 2), (5, 4, 2)]),
    ];
    for s in &shapes {
        let h = s.get_canonical_hash();
        let f = s.get_canonical_form();
        for m in generate_rotation_matrices() {
            let r = s.apply_rotation(&m);
            assert_eq!(r.get_canonical_hash(), h);
            assert_eq!(r.get_canonical_form(), f);
        }
    }
}

#[test]
fn canonicalize_is_idempotent() {
    let s = shape(&[(2, 0, 0), (1, 0, 0), (1, 1, 0), (1, 1, 1), (0, 1, 1)]);
    let (c1, h1) = s.canonicalize();
    let (c2, h2) = c1.canonicalize();
    assert_eq!(c1.cubes, c2.cubes);
    assert_eq!(h1, h2);
}

#[test]
fn mirror_images_are_distinct() {
    let left = shape(&[(0, 0, 0), (1, 0, 0), (1, 1, 0), (1, 1, 1)]);
    let right = shape(&[(0, 0, 0), (1, 0, 0), (1, 1, 0), (1, 1, -1)]);
    assert_ne!(left.get_canonical_form(), right.get_canonical_form());
    assert_ne!(left.get_canonical_hash(), right.get_canonical_hash());
}
