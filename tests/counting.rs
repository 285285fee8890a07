use polycubes::counter::{
    canonicalize_in_place, count_extensions_from, count_from_seed, count_fixed_polycubes, count_fixed_polycubes_improved, count_fixed_polycubes_parallel,
    count_free_polycubes, count_polycubes, free_count_from_fixed, generate_starting_polycubes, sum_counts,
    CounterConfig,
};
use polycubes::generator::generate_polycubes;
use polycubes::position::Pos;

fn single_thread() -> CounterConfig {
    CounterConfig { threads: 1, show_progress: false }
}

#[test]
fn translation_canonical_form() {
    let mut v = vec![Pos::new(5, 3, 1), Pos::new(4, 3, 1), Pos::new(4, 4, 2)];
    canonicalize_in_place(&mut v);
    assert_eq!(v, vec![Pos::new(0, 0, 0), Pos::new(0, 1, 1), Pos::new(1, 0, 0)]);
}

#[test]
fn starting_shapes_are_the_fixed_polycubes() {
    assert_eq!(generate_starting_polycubes(1), vec![vec![Pos::new(0, 0, 0)]]);
    assert_eq!(generate_starting_polycubes(2), vec![vec![Pos::new(0, 0, 0), Pos::new(1, 0, 0)]]);
    assert_eq!(generate_starting_polycubes(3).len(), 15);
    assert_eq!(generate_starting_polycubes(4).len(), 86);
}

#[test]
fn breadth_first_fixed_counts() {
    let c = single_thread();
    assert_eq!(count_fixed_polycubes_improved(1, &c), 1);
    assert_eq!(count_fixed_polycubes_improved(3, &c), 15);
    assert_eq!(count_fixed_polycubes_improved(5, &c), 534);
    assert_eq!(count_fixed_polycubes_improved(6, &c), 3481);
}

#[test]
fn extensions_from_a_complete_shape() {
    let c = single_thread();
    assert_eq!(count_from_seed(&vec![Pos::new(0, 0, 0)], 1, &c), 1);
    assert_eq!(count_from_seed(&vec![Pos::new(0, 0, 0)], 2, &c), 3);
    assert_eq!(count_extensions_from(&vec![Pos::new(0, 0, 0)], 0, &c), 1);
    assert_eq!(count_extensions_from(&vec![Pos::new(0, 0, 0)], 1, &c), 3);
    assert_eq!(count_extensions_from(&vec![Pos::new(0, 0, 0)], 3, &c), 86);
}

#[test]
fn counts_saturate() {
    assert_eq!(sum_counts(&vec![1, 2, 3]), 6);
    assert_eq!(sum_counts(&vec![u64::MAX, 2]), u64::MAX);
    assert_eq!(sum_counts(&vec![]), 0);
}

#[test]
fn free_count_from_fixed_values() {
    assert_eq!(free_count_from_fixed(1, 99), 1);
    assert_eq!(free_count_from_fixed(7, 99), 1023);
    assert_eq!(free_count_from_fixed(12, 99), 18598427);
    assert_eq!(free_count_from_fixed(13, 240), 10);
}

#[test]
fn free_counts_for_small_sizes() {
    assert_eq!(count_free_polycubes(2, Some(single_thread())), 1);
    assert_eq!(count_free_polycubes(9, Some(single_thread())), 48311);
}

#[test]
fn count_six_with_symmetry() {
    assert_eq!(count_polycubes(6, true), 166);
}

#[test]
fn count_without_symmetry_matches_generation_up_to_seven() {
    for n in 0..=7usize {
        assert_eq!(count_polycubes(n, false), generate_polycubes(n as u8).len() as u64, "size {}", n);
    }
}

#[test]
fn count_eight_fixed_exceeds_free() {
    assert!(count_polycubes(8, false) > count_polycubes(8, true));
}

#[test]
fn fixed_count_dispatch() {
    assert_eq!(count_fixed_polycubes(2, Some(single_thread())), 1);
    assert_eq!(count_fixed_polycubes(5, Some(single_thread())), 29);
    assert_eq!(count_fixed_polycubes(8, Some(single_thread())), 162913);
}

#[test]
fn default_config_shows_progress() {
    assert!(CounterConfig::default().show_progress);
}

#[test]
fn extensions_from_a_domino() {
    let c = single_thread();
    let domino = vec![Pos::new(0, 0, 0), Pos::new(1, 0, 0)];
    assert_eq!(count_from_seed(&domino, 3, &c), 9);
}

#[test]
fn parallel_count_for_three_cubes_is_the_fixed_count() {
    let c = CounterConfig { threads: 4, show_progress: false };
    assert_eq!(count_fixed_polycubes_parallel(3, &c), 15);
    assert_eq!(count_fixed_polycubes_parallel(2, &c), 1);
}
