use polycubes::generator::{base_candidates, generate_polycubes, get_known_count, grow_polycubes, is_growable};
use polycubes::polycube::Polycube;
use polycubes::position::Pos;

#[test]
fn generate_sizes_zero_to_two() {
    assert!(generate_polycubes(0).is_empty());
    let one = generate_polycubes(1);
    assert_eq!(one.len(), 1);
    assert_eq!(one[0].cubes, vec![Pos::new(0, 0, 0)]);
    let two = generate_polycubes(2);
    assert_eq!(two.len(), 1);
    assert_eq!(two[0].cubes, vec![Pos::new(0, 0, 0), Pos::new(1, 0, 0)]);
}

#[test]
fn generate_three_gives_two_shapes() {
    assert_eq!(generate_polycubes(3).len(), 2);
}

#[test]
fn generate_four_gives_eight_shapes() {
    assert_eq!(generate_polycubes(4).len(), 8);
}

#[test]
fn generate_matches_known_counts() {
    for n in 1..=8u8 {
        assert_eq!(generate_polycubes(n).len() as u64, get_known_count(n).unwrap(), "size {}", n);
    }
}

#[test]
fn generate_nine_matches_known_count() {
    assert_eq!(generate_polycubes(9).len() as u64, 48311);
}

#[test]
fn generated_shapes_pass_connectivity_and_are_distinct() {
    let shapes = generate_polycubes(6);
    let mut forms = Vec::new();
    for s in &shapes {
        assert_eq!(s.cubes.len(), 6);
        assert!(s.is_face_connected());
        assert_eq!(s.cubes.iter().map(|p| p.x).min(), Some(0));
        let f = s.get_canonical_form();
        assert!(!forms.contains(&f));
        forms.push(f);
    }
}

#[test]
fn known_counts_table() {
    assert_eq!(get_known_count(0), None);
    assert_eq!(get_known_count(1), Some(1));
    assert_eq!(get_known_count(6), Some(166));
    assert_eq!(get_known_count(12), Some(18598427));
    assert_eq!(get_known_count(18), Some(3847265309118));
    assert_eq!(get_known_count(19), None);
}

#[test]
fn candidates_of_domino() {
    let list = base_candidates(&Polycube::domino());
    assert_eq!(list.len(), 10);
    for (sig, shape) in &list {
        assert_eq!(*sig, shape.get_canonical_hash());
        assert_eq!(shape.cubes.len(), 3);
    }
}

#[test]
fn growing_the_same_base_twice_keeps_one_of_each() {
    let bases = vec![Polycube::domino(), Polycube::domino()];
    assert_eq!(grow_polycubes(&bases).len(), 2);
}

#[test]
fn growable_check() {
    assert!(is_growable(&Polycube::domino()));
    assert!(!is_growable(&Polycube::new(vec![])));
    assert!(!is_growable(&Polycube::new(vec![Pos::new(0, 0, 0), Pos::new(2, 0, 0)])));
    assert!(!is_growable(&Polycube::new(vec![Pos::new(-1, 0, 0), Pos::new(0, 0, 0)])));
}
