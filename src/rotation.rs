//! The 24 proper rotations of the cube and the rotation-canonical form of a
//! shape: the least, in lexicographic order, of its sorted rotations moved to
//! the origin.
use vstd::prelude::*;

use crate::hashing::{fx_hash_of, fx_hash_positions};
use crate::polycube::{
    coord, copy_positions, lemma_min_coord, lemma_min_coord_unique, min_coord, normalize_seq,
    span_fits, Polycube,
};
use crate::position::{
    lemma_seq_lt_irreflexive, lemma_seq_lt_total, lemma_seq_lt_transitive, lemma_sort_seq,
    lemma_sorted_is_sort_seq, lexicographically_smaller, seq_lt, shifted, sort_positions, sort_seq,
    Pos,
};

verus! {

/// Where rotation `k` of the fixed table sends a position.
pub open spec fn rotate_pos(k: int, p: Pos) -> Pos {
    let (x, y, z) = (p.x as int, p.y as int, p.z as int);
    if k == 0 {
        Pos { x: (x) as i8, y: (y) as i8, z: (z) as i8 }
    } else if k == 1 {
        Pos { x: (x) as i8, y: (-z) as i8, z: (y) as i8 }
    } else if k == 2 {
        Pos { x: (x) as i8, y: (-y) as i8, z: (-z) as i8 }
    } else if k == 3 {
        Pos { x: (x) as i8, y: (z) as i8, z: (-y) as i8 }
    } else if k == 4 {
        Pos { x: (-x) as i8, y: (y) as i8, z: (-z) as i8 }
    } else if k == 5 {
        Pos { x: (-x) as i8, y: (z) as i8, z: (y) as i8 }
    } else if k == 6 {
        Pos { x: (-x) as i8, y: (-y) as i8, z: (z) as i8 }
    } else if k == 7 {
        Pos { x: (-x) as i8, y: (-z) as i8, z: (-y) as i8 }
    } else if k == 8 {
        Pos { x: (y) as i8, y: (-x) as i8, z: (z) as i8 }
    } else if k == 9 {
        Pos { x: (y) as i8, y: (-z) as i8, z: (-x) as i8 }
    } else if k == 10 {
        Pos { x: (y) as i8, y: (x) as i8, z: (-z) as i8 }
    } else if k == 11 {
        Pos { x: (y) as i8, y: (z) as i8, z: (x) as i8 }
    } else if k == 12 {
        Pos { x: (-y) as i8, y: (x) as i8, z: (z) as i8 }
    } else if k == 13 {
        Pos { x: (-y) as i8, y: (-z) as i8, z: (x) as i8 }
    } else if k == 14 {
        Pos { x: (-y) as i8, y: (-x) as i8, z: (-z) as i8 }
    } else if k == 15 {
        Pos { x: (-y) as i8, y: (z) as i8, z: (-x) as i8 }
    } else if k == 16 {
        Pos { x: (z) as i8, y: (y) as i8, z: (-x) as i8 }
    } else if k == 17 {
        Pos { x: (z) as i8, y: (x) as i8, z: (y) as i8 }
    } else if k == 18 {
        Pos { x: (z) as i8, y: (-y) as i8, z: (x) as i8 }
    } else if k == 19 {
        Pos { x: (z) as i8, y: (-x) as i8, z: (-y) as i8 }
    } else if k == 20 {
        Pos { x: (-z) as i8, y: (y) as i8, z: (x) as i8 }
    } else if k == 21 {
        Pos { x: (-z) as i8, y: (-x) as i8, z: (y) as i8 }
    } else if k == 22 {
        Pos { x: (-z) as i8, y: (-y) as i8, z: (-x) as i8 }
    } else {
        Pos { x: (-z) as i8, y: (x) as i8, z: (-y) as i8 }
    }
}

/// The axis that row `a` of rotation `k` reads.
pub open spec fn row_axis(k: int, a: int) -> int {
    if k == 0 {
        if a == 0 {
            0
        } else if a == 1 {
            1
        } else {
            2
        }
    } else if k == 1 {
        if a == 0 {
            0
        } else if a == 1 {
            2
        } else {
            1
        }
    } else if k == 2 {
        if a == 0 {
            0
        } else if a == 1 {
            1
        } else {
            2
        }
    } else if k == 3 {
        if a == 0 {
            0
        } else if a == 1 {
            2
        } else {
            1
        }
    } else if k == 4 {
        if a == 0 {
            0
        } else if a == 1 {
            1
        } else {
            2
        }
    } else if k == 5 {
        if a == 0 {
            0
        } else if a == 1 {
            2
        } else {
            1
        }
    } else if k == 6 {
        if a == 0 {
            0
        } else if a == 1 {
            1
        } else {
            2
        }
    } else if k == 7 {
        if a == 0 {
            0
        } else if a == 1 {
            2
        } else {
            1
        }
    } else if k == 8 {
        if a == 0 {
            1
        } else if a == 1 {
            0
        } else {
            2
        }
    } else if k == 9 {
        if a == 0 {
            1
        } else if a == 1 {
            2
        } else {
            0
        }
    } else if k == 10 {
        if a == 0 {
            1
        } else if a == 1 {
            0
        } else {
            2
        }
    } else if k == 11 {
        if a == 0 {
            1
        } else if a == 1 {
            2
        } else {
            0
        }
    } else if k == 12 {
        if a == 0 {
            1
        } else if a == 1 {
            0
        } else {
            2
        }
    } else if k == 13 {
        if a == 0 {
            1
        } else if a == 1 {
            2
        } else {
            0
        }
    } else if k == 14 {
        if a == 0 {
            1
        } else if a == 1 {
            0
        } else {
            2
        }
    } else if k == 15 {
        if a == 0 {
            1
        } else if a == 1 {
            2
        } else {
            0
        }
    } else if k == 16 {
        if a == 0 {
            2
        } else if a == 1 {
            1
        } else {
            0
        }
    } else if k == 17 {
        if a == 0 {
            2
        } else if a == 1 {
            0
        } else {
            1
        }
    } else if k == 18 {
        if a == 0 {
            2
        } else if a == 1 {
            1
        } else {
            0
        }
    } else if k == 19 {
        if a == 0 {
            2
        } else if a == 1 {
            0
        } else {
            1
        }
    } else if k == 20 {
        if a == 0 {
            2
        } else if a == 1 {
            1
        } else {
            0
        }
    } else if k == 21 {
        if a == 0 {
            2
        } else if a == 1 {
            0
        } else {
            1
        }
    } else if k == 22 {
        if a == 0 {
            2
        } else if a == 1 {
            1
        } else {
            0
        }
    } else {
        if a == 0 {
            2
        } else if a == 1 {
            0
        } else {
            1
        }
    }
}

/// The sign with which row `a` of rotation `k` reads its axis.
pub open spec fn row_sign(k: int, a: int) -> int {
    if k == 0 {
        if a == 0 {
            1
        } else if a == 1 {
            1
        } else {
            1
        }
    } else if k == 1 {
        if a == 0 {
            1
        } else if a == 1 {
            -1
        } else {
            1
        }
    } else if k == 2 {
        if a == 0 {
            1
        } else if a == 1 {
            -1
        } else {
            -1
        }
    } else if k == 3 {
        if a == 0 {
            1
        } else if a == 1 {
            1
        } else {
            -1
        }
    } else if k == 4 {
        if a == 0 {
            -1
        } else if a == 1 {
            1
        } else {
            -1
        }
    } else if k == 5 {
        if a == 0 {
            -1
        } else if a == 1 {
            1
        } else {
            1
        }
    } else if k == 6 {
        if a == 0 {
            -1
        } else if a == 1 {
            -1
        } else {
            1
        }
    } else if k == 7 {
        if a == 0 {
            -1
        } else if a == 1 {
            -1
        } else {
            -1
        }
    } else if k == 8 {
        if a == 0 {
            1
        } else if a == 1 {
            -1
        } else {
            1
        }
    } else if k == 9 {
        if a == 0 {
            1
        } else if a == 1 {
            -1
        } else {
            -1
        }
    } else if k == 10 {
        if a == 0 {
            1
        } else if a == 1 {
            1
        } else {
            -1
        }
    } else if k == 11 {
        if a == 0 {
            1
        } else if a == 1 {
            1
        } else {
            1
        }
    } else if k == 12 {
        if a == 0 {
            -1
        } else if a == 1 {
            1
        } else {
            1
        }
    } else if k == 13 {
        if a == 0 {
            -1
        } else if a == 1 {
            -1
        } else {
            1
        }
    } else if k == 14 {
        if a == 0 {
            -1
        } else if a == 1 {
            -1
        } else {
            -1
        }
    } else if k == 15 {
        if a == 0 {
            -1
        } else if a == 1 {
            1
        } else {
            -1
        }
    } else if k == 16 {
        if a == 0 {
            1
        } else if a == 1 {
            1
        } else {
            -1
        }
    } else if k == 17 {
        if a == 0 {
            1
        } else if a == 1 {
            1
        } else {
            1
        }
    } else if k == 18 {
        if a == 0 {
            1
        } else if a == 1 {
            -1
        } else {
            1
        }
    } else if k == 19 {
        if a == 0 {
            1
        } else if a == 1 {
            -1
        } else {
            -1
        }
    } else if k == 20 {
        if a == 0 {
            -1
        } else if a == 1 {
            1
        } else {
            1
        }
    } else if k == 21 {
        if a == 0 {
            -1
        } else if a == 1 {
            -1
        } else {
            1
        }
    } else if k == 22 {
        if a == 0 {
            -1
        } else if a == 1 {
            -1
        } else {
            -1
        }
    } else {
        if a == 0 {
            -1
        } else if a == 1 {
            1
        } else {
            -1
        }
    }
}

/// Entry (`a`, `b`) of rotation matrix `k` of the fixed table.
pub open spec fn rotation_entry(k: int, a: int, b: int) -> int {
    if b == row_axis(k, a) {
        row_sign(k, a)
    } else {
        0
    }
}

/// The index in the fixed table of the rotation that takes axis `a0` with
/// sign `s0` to x, `a1` with `s1` to y and `a2` with `s2` to z; 24 if none.
pub open spec fn table_index(a0: int, s0: int, a1: int, s1: int, a2: int, s2: int) -> int {
    if a0 == 0 && s0 == 1 && a1 == 1 && s1 == 1 && a2 == 2 && s2 == 1 {
        0
    } else if a0 == 0 && s0 == 1 && a1 == 2 && s1 == -1 && a2 == 1 && s2 == 1 {
        1
    } else if a0 == 0 && s0 == 1 && a1 == 1 && s1 == -1 && a2 == 2 && s2 == -1 {
        2
    } else if a0 == 0 && s0 == 1 && a1 == 2 && s1 == 1 && a2 == 1 && s2 == -1 {
        3
    } else if a0 == 0 && s0 == -1 && a1 == 1 && s1 == 1 && a2 == 2 && s2 == -1 {
        4
    } else if a0 == 0 && s0 == -1 && a1 == 2 && s1 == 1 && a2 == 1 && s2 == 1 {
        5
    } else if a0 == 0 && s0 == -1 && a1 == 1 && s1 == -1 && a2 == 2 && s2 == 1 {
        6
    } else if a0 == 0 && s0 == -1 && a1 == 2 && s1 == -1 && a2 == 1 && s2 == -1 {
        7
    } else if a0 == 1 && s0 == 1 && a1 == 0 && s1 == -1 && a2 == 2 && s2 == 1 {
        8
    } else if a0 == 1 && s0 == 1 && a1 == 2 && s1 == -1 && a2 == 0 && s2 == -1 {
        9
    } else if a0 == 1 && s0 == 1 && a1 == 0 && s1 == 1 && a2 == 2 && s2 == -1 {
        10
    } else if a0 == 1 && s0 == 1 && a1 == 2 && s1 == 1 && a2 == 0 && s2 == 1 {
        11
    } else if a0 == 1 && s0 == -1 && a1 == 0 && s1 == 1 && a2 == 2 && s2 == 1 {
        12
    } else if a0 == 1 && s0 == -1 && a1 == 2 && s1 == -1 && a2 == 0 && s2 == 1 {
        13
    } else if a0 == 1 && s0 == -1 && a1 == 0 && s1 == -1 && a2 == 2 && s2 == -1 {
        14
    } else if a0 == 1 && s0 == -1 && a1 == 2 && s1 == 1 && a2 == 0 && s2 == -1 {
        15
    } else if a0 == 2 && s0 == 1 && a1 == 1 && s1 == 1 && a2 == 0 && s2 == -1 {
        16
    } else if a0 == 2 && s0 == 1 && a1 == 0 && s1 == 1 && a2 == 1 && s2 == 1 {
        17
    } else if a0 == 2 && s0 == 1 && a1 == 1 && s1 == -1 && a2 == 0 && s2 == 1 {
        18
    } else if a0 == 2 && s0 == 1 && a1 == 0 && s1 == -1 && a2 == 1 && s2 == -1 {
        19
    } else if a0 == 2 && s0 == -1 && a1 == 1 && s1 == 1 && a2 == 0 && s2 == 1 {
        20
    } else if a0 == 2 && s0 == -1 && a1 == 0 && s1 == -1 && a2 == 1 && s2 == 1 {
        21
    } else if a0 == 2 && s0 == -1 && a1 == 1 && s1 == -1 && a2 == 0 && s2 == -1 {
        22
    } else if a0 == 2 && s0 == -1 && a1 == 0 && s1 == 1 && a2 == 1 && s2 == -1 {
        23
    } else {
        24
    }
}

/// The rotation that applies rotation `k` and then rotation `j`.
pub open spec fn compose(j: int, k: int) -> int {
    table_index(
        row_axis(k, row_axis(j, 0)),
        row_sign(j, 0) * row_sign(k, row_axis(j, 0)),
        row_axis(k, row_axis(j, 1)),
        row_sign(j, 1) * row_sign(k, row_axis(j, 1)),
        row_axis(k, row_axis(j, 2)),
        row_sign(j, 2) * row_sign(k, row_axis(j, 2)),
    )
}

/// The rotation that undoes rotation `k`.
pub open spec fn inverse(k: int) -> int {
    if k == 0 {
        0
    } else if k == 1 {
        3
    } else if k == 2 {
        2
    } else if k == 3 {
        1
    } else if k == 4 {
        4
    } else if k == 5 {
        5
    } else if k == 6 {
        6
    } else if k == 7 {
        7
    } else if k == 8 {
        12
    } else if k == 9 {
        23
    } else if k == 10 {
        10
    } else if k == 11 {
        17
    } else if k == 12 {
        8
    } else if k == 13 {
        19
    } else if k == 14 {
        14
    } else if k == 15 {
        21
    } else if k == 16 {
        20
    } else if k == 17 {
        11
    } else if k == 18 {
        18
    } else if k == 19 {
        13
    } else if k == 20 {
        16
    } else if k == 21 {
        15
    } else if k == 22 {
        22
    } else {
        9
    }
}

/// Rotating by `k` and then by `j` is rotating by `compose(j, k)`.
#[verifier::rlimit(100)]
pub proof fn lemma_compose(j: int, k: int, p: Pos)
    requires
        0 <= j < 24,
        0 <= k < 24,
        p.x > -128 && p.y > -128 && p.z > -128,
    ensures
        0 <= compose(j, k) < 24,
        rotate_pos(j, rotate_pos(k, p)) == rotate_pos(compose(j, k), p),
{
    if j == 0 {
        if k == 0 {
        } else if k == 1 {
        } else if k == 2 {
        } else if k == 3 {
        } else if k == 4 {
        } else if k == 5 {
        } else if k == 6 {
        } else if k == 7 {
        } else if k == 8 {
        } else if k == 9 {
        } else if k == 10 {
        } else if k == 11 {
        } else if k == 12 {
        } else if k == 13 {
        } else if k == 14 {
        } else if k == 15 {
        } else if k == 16 {
        } else if k == 17 {
        } else if k == 18 {
        } else if k == 19 {
        } else if k == 20 {
        } else if k == 21 {
        } else if k == 22 {
        } else if k == 23 {
        }
    } else if j == 1 {
        if k == 0 {
        } else if k == 1 {
        } else if k == 2 {
        } else if k == 3 {
        } else if k == 4 {
        } else if k == 5 {
        } else if k == 6 {
        } else if k == 7 {
        } else if k == 8 {
        } else if k == 9 {
        } else if k == 10 {
        } else if k == 11 {
        } else if k == 12 {
        } else if k == 13 {
        } else if k == 14 {
        } else if k == 15 {
        } else if k == 16 {
        } else if k == 17 {
        } else if k == 18 {
        } else if k == 19 {
        } else if k == 20 {
        } else if k == 21 {
        } else if k == 22 {
        } else if k == 23 {
        }
    } else if j == 2 {
        if k == 0 {
        } else if k == 1 {
        } else if k == 2 {
        } else if k == 3 {
        } else if k == 4 {
        } else if k == 5 {
        } else if k == 6 {
        } else if k == 7 {
        } else if k == 8 {
        } else if k == 9 {
        } else if k == 10 {
        } else if k == 11 {
        } else if k == 12 {
        } else if k == 13 {
        } else if k == 14 {
        } else if k == 15 {
        } else if k == 16 {
        } else if k == 17 {
        } else if k == 18 {
        } else if k == 19 {
        } else if k == 20 {
        } else if k == 21 {
        } else if k == 22 {
        } else if k == 23 {
        }
    } else if j == 3 {
        if k == 0 {
        } else if k == 1 {
        } else if k == 2 {
        } else if k == 3 {
        } else if k == 4 {
        } else if k == 5 {
        } else if k == 6 {
        } else if k == 7 {
        } else if k == 8 {
        } else if k == 9 {
        } else if k == 10 {
        } else if k == 11 {
        } else if k == 12 {
        } else if k == 13 {
        } else if k == 14 {
        } else if k == 15 {
        } else if k == 16 {
        } else if k == 17 {
        } else if k == 18 {
        } else if k == 19 {
        } else if k == 20 {
        } else if k == 21 {
        } else if k == 22 {
        } else if k == 23 {
        }
    } else if j == 4 {
        if k == 0 {
        } else if k == 1 {
        } else if k == 2 {
        } else if k == 3 {
        } else if k == 4 {
        } else if k == 5 {
        } else if k == 6 {
        } else if k == 7 {
        } else if k == 8 {
        } else if k == 9 {
        } else if k == 10 {
        } else if k == 11 {
        } else if k == 12 {
        } else if k == 13 {
        } else if k == 14 {
        } else if k == 15 {
        } else if k == 16 {
        } else if k == 17 {
        } else if k == 18 {
        } else if k == 19 {
        } else if k == 20 {
        } else if k == 21 {
        } else if k == 22 {
        } else if k == 23 {
        }
    } else if j == 5 {
        if k == 0 {
        } else if k == 1 {
        } else if k == 2 {
        } else if k == 3 {
        } else if k == 4 {
        } else if k == 5 {
        } else if k == 6 {
        } else if k == 7 {
        } else if k == 8 {
        } else if k == 9 {
        } else if k == 10 {
        } else if k == 11 {
        } else if k == 12 {
        } else if k == 13 {
        } else if k == 14 {
        } else if k == 15 {
        } else if k == 16 {
        } else if k == 17 {
        } else if k == 18 {
        } else if k == 19 {
        } else if k == 20 {
        } else if k == 21 {
        } else if k == 22 {
        } else if k == 23 {
        }
    } else if j == 6 {
        if k == 0 {
        } else if k == 1 {
        } else if k == 2 {
        } else if k == 3 {
        } else if k == 4 {
        } else if k == 5 {
        } else if k == 6 {
        } else if k == 7 {
        } else if k == 8 {
        } else if k == 9 {
        } else if k == 10 {
        } else if k == 11 {
        } else if k == 12 {
        } else if k == 13 {
        } else if k == 14 {
        } else if k == 15 {
        } else if k == 16 {
        } else if k == 17 {
        } else if k == 18 {
        } else if k == 19 {
        } else if k == 20 {
        } else if k == 21 {
        } else if k == 22 {
        } else if k == 23 {
        }
    } else if j == 7 {
        if k == 0 {
        } else if k == 1 {
        } else if k == 2 {
        } else if k == 3 {
        } else if k == 4 {
        } else if k == 5 {
        } else if k == 6 {
        } else if k == 7 {
        } else if k == 8 {
        } else if k == 9 {
        } else if k == 10 {
        } else if k == 11 {
        } else if k == 12 {
        } else if k == 13 {
        } else if k == 14 {
        } else if k == 15 {
        } else if k == 16 {
        } else if k == 17 {
        } else if k == 18 {
        } else if k == 19 {
        } else if k == 20 {
        } else if k == 21 {
        } else if k == 22 {
        } else if k == 23 {
        }
    } else if j == 8 {
        if k == 0 {
        } else if k == 1 {
        } else if k == 2 {
        } else if k == 3 {
        } else if k == 4 {
        } else if k == 5 {
        } else if k == 6 {
        } else if k == 7 {
        } else if k == 8 {
        } else if k == 9 {
        } else if k == 10 {
        } else if k == 11 {
        } else if k == 12 {
        } else if k == 13 {
        } else if k == 14 {
        } else if k == 15 {
        } else if k == 16 {
        } else if k == 17 {
        } else if k == 18 {
        } else if k == 19 {
        } else if k == 20 {
        } else if k == 21 {
        } else if k == 22 {
        } else if k == 23 {
        }
    } else if j == 9 {
        if k == 0 {
        } else if k == 1 {
        } else if k == 2 {
        } else if k == 3 {
        } else if k == 4 {
        } else if k == 5 {
        } else if k == 6 {
        } else if k == 7 {
        } else if k == 8 {
        } else if k == 9 {
        } else if k == 10 {
        } else if k == 11 {
        } else if k == 12 {
        } else if k == 13 {
        } else if k == 14 {
        } else if k == 15 {
        } else if k == 16 {
        } else if k == 17 {
        } else if k == 18 {
        } else if k == 19 {
        } else if k == 20 {
        } else if k == 21 {
        } else if k == 22 {
        } else if k == 23 {
        }
    } else if j == 10 {
        if k == 0 {
        } else if k == 1 {
        } else if k == 2 {
        } else if k == 3 {
        } else if k == 4 {
        } else if k == 5 {
        } else if k == 6 {
        } else if k == 7 {
        } else if k == 8 {
        } else if k == 9 {
        } else if k == 10 {
        } else if k == 11 {
        } else if k == 12 {
        } else if k == 13 {
        } else if k == 14 {
        } else if k == 15 {
        } else if k == 16 {
        } else if k == 17 {
        } else if k == 18 {
        } else if k == 19 {
        } else if k == 20 {
        } else if k == 21 {
        } else if k == 22 {
        } else if k == 23 {
        }
    } else if j == 11 {
        if k == 0 {
        } else if k == 1 {
        } else if k == 2 {
        } else if k == 3 {
        } else if k == 4 {
        } else if k == 5 {
        } else if k == 6 {
        } else if k == 7 {
        } else if k == 8 {
        } else if k == 9 {
        } else if k == 10 {
        } else if k == 11 {
        } else if k == 12 {
        } else if k == 13 {
        } else if k == 14 {
        } else if k == 15 {
        } else if k == 16 {
        } else if k == 17 {
        } else if k == 18 {
        } else if k == 19 {
        } else if k == 20 {
        } else if k == 21 {
        } else if k == 22 {
        } else if k == 23 {
        }
    } else if j == 12 {
        if k == 0 {
        } else if k == 1 {
        } else if k == 2 {
        } else if k == 3 {
        } else if k == 4 {
        } else if k == 5 {
        } else if k == 6 {
        } else if k == 7 {
        } else if k == 8 {
        } else if k == 9 {
        } else if k == 10 {
        } else if k == 11 {
        } else if k == 12 {
        } else if k == 13 {
        } else if k == 14 {
        } else if k == 15 {
        } else if k == 16 {
        } else if k == 17 {
        } else if k == 18 {
        } else if k == 19 {
        } else if k == 20 {
        } else if k == 21 {
        } else if k == 22 {
        } else if k == 23 {
        }
    } else if j == 13 {
        if k == 0 {
        } else if k == 1 {
        } else if k == 2 {
        } else if k == 3 {
        } else if k == 4 {
        } else if k == 5 {
        } else if k == 6 {
        } else if k == 7 {
        } else if k == 8 {
        } else if k == 9 {
        } else if k == 10 {
        } else if k == 11 {
        } else if k == 12 {
        } else if k == 13 {
        } else if k == 14 {
        } else if k == 15 {
        } else if k == 16 {
        } else if k == 17 {
        } else if k == 18 {
        } else if k == 19 {
        } else if k == 20 {
        } else if k == 21 {
        } else if k == 22 {
        } else if k == 23 {
        }
    } else if j == 14 {
        if k == 0 {
        } else if k == 1 {
        } else if k == 2 {
        } else if k == 3 {
        } else if k == 4 {
        } else if k == 5 {
        } else if k == 6 {
        } else if k == 7 {
        } else if k == 8 {
        } else if k == 9 {
        } else if k == 10 {
        } else if k == 11 {
        } else if k == 12 {
        } else if k == 13 {
        } else if k == 14 {
        } else if k == 15 {
        } else if k == 16 {
        } else if k == 17 {
        } else if k == 18 {
        } else if k == 19 {
        } else if k == 20 {
        } else if k == 21 {
        } else if k == 22 {
        } else if k == 23 {
        }
    } else if j == 15 {
        if k == 0 {
        } else if k == 1 {
        } else if k == 2 {
        } else if k == 3 {
        } else if k == 4 {
        } else if k == 5 {
        } else if k == 6 {
        } else if k == 7 {
        } else if k == 8 {
        } else if k == 9 {
        } else if k == 10 {
        } else if k == 11 {
        } else if k == 12 {
        } else if k == 13 {
        } else if k == 14 {
        } else if k == 15 {
        } else if k == 16 {
        } else if k == 17 {
        } else if k == 18 {
        } else if k == 19 {
        } else if k == 20 {
        } else if k == 21 {
        } else if k == 22 {
        } else if k == 23 {
        }
    } else if j == 16 {
        if k == 0 {
        } else if k == 1 {
        } else if k == 2 {
        } else if k == 3 {
        } else if k == 4 {
        } else if k == 5 {
        } else if k == 6 {
        } else if k == 7 {
        } else if k == 8 {
        } else if k == 9 {
        } else if k == 10 {
        } else if k == 11 {
        } else if k == 12 {
        } else if k == 13 {
        } else if k == 14 {
        } else if k == 15 {
        } else if k == 16 {
        } else if k == 17 {
        } else if k == 18 {
        } else if k == 19 {
        } else if k == 20 {
        } else if k == 21 {
        } else if k == 22 {
        } else if k == 23 {
        }
    } else if j == 17 {
        if k == 0 {
        } else if k == 1 {
        } else if k == 2 {
        } else if k == 3 {
        } else if k == 4 {
        } else if k == 5 {
        } else if k == 6 {
        } else if k == 7 {
        } else if k == 8 {
        } else if k == 9 {
        } else if k == 10 {
        } else if k == 11 {
        } else if k == 12 {
        } else if k == 13 {
        } else if k == 14 {
        } else if k == 15 {
        } else if k == 16 {
        } else if k == 17 {
        } else if k == 18 {
        } else if k == 19 {
        } else if k == 20 {
        } else if k == 21 {
        } else if k == 22 {
        } else if k == 23 {
        }
    } else if j == 18 {
        if k == 0 {
        } else if k == 1 {
        } else if k == 2 {
        } else if k == 3 {
        } else if k == 4 {
        } else if k == 5 {
        } else if k == 6 {
        } else if k == 7 {
        } else if k == 8 {
        } else if k == 9 {
        } else if k == 10 {
        } else if k == 11 {
        } else if k == 12 {
        } else if k == 13 {
        } else if k == 14 {
        } else if k == 15 {
        } else if k == 16 {
        } else if k == 17 {
        } else if k == 18 {
        } else if k == 19 {
        } else if k == 20 {
        } else if k == 21 {
        } else if k == 22 {
        } else if k == 23 {
        }
    } else if j == 19 {
        if k == 0 {
        } else if k == 1 {
        } else if k == 2 {
        } else if k == 3 {
        } else if k == 4 {
        } else if k == 5 {
        } else if k == 6 {
        } else if k == 7 {
        } else if k == 8 {
        } else if k == 9 {
        } else if k == 10 {
        } else if k == 11 {
        } else if k == 12 {
        } else if k == 13 {
        } else if k == 14 {
        } else if k == 15 {
        } else if k == 16 {
        } else if k == 17 {
        } else if k == 18 {
        } else if k == 19 {
        } else if k == 20 {
        } else if k == 21 {
        } else if k == 22 {
        } else if k == 23 {
        }
    } else if j == 20 {
        if k == 0 {
        } else if k == 1 {
        } else if k == 2 {
        } else if k == 3 {
        } else if k == 4 {
        } else if k == 5 {
        } else if k == 6 {
        } else if k == 7 {
        } else if k == 8 {
        } else if k == 9 {
        } else if k == 10 {
        } else if k == 11 {
        } else if k == 12 {
        } else if k == 13 {
        } else if k == 14 {
        } else if k == 15 {
        } else if k == 16 {
        } else if k == 17 {
        } else if k == 18 {
        } else if k == 19 {
        } else if k == 20 {
        } else if k == 21 {
        } else if k == 22 {
        } else if k == 23 {
        }
    } else if j == 21 {
        if k == 0 {
        } else if k == 1 {
        } else if k == 2 {
        } else if k == 3 {
        } else if k == 4 {
        } else if k == 5 {
        } else if k == 6 {
        } else if k == 7 {
        } else if k == 8 {
        } else if k == 9 {
        } else if k == 10 {
        } else if k == 11 {
        } else if k == 12 {
        } else if k == 13 {
        } else if k == 14 {
        } else if k == 15 {
        } else if k == 16 {
        } else if k == 17 {
        } else if k == 18 {
        } else if k == 19 {
        } else if k == 20 {
        } else if k == 21 {
        } else if k == 22 {
        } else if k == 23 {
        }
    } else if j == 22 {
        if k == 0 {
        } else if k == 1 {
        } else if k == 2 {
        } else if k == 3 {
        } else if k == 4 {
        } else if k == 5 {
        } else if k == 6 {
        } else if k == 7 {
        } else if k == 8 {
        } else if k == 9 {
        } else if k == 10 {
        } else if k == 11 {
        } else if k == 12 {
        } else if k == 13 {
        } else if k == 14 {
        } else if k == 15 {
        } else if k == 16 {
        } else if k == 17 {
        } else if k == 18 {
        } else if k == 19 {
        } else if k == 20 {
        } else if k == 21 {
        } else if k == 22 {
        } else if k == 23 {
        }
    } else if j == 23 {
        if k == 0 {
        } else if k == 1 {
        } else if k == 2 {
        } else if k == 3 {
        } else if k == 4 {
        } else if k == 5 {
        } else if k == 6 {
        } else if k == 7 {
        } else if k == 8 {
        } else if k == 9 {
        } else if k == 10 {
        } else if k == 11 {
        } else if k == 12 {
        } else if k == 13 {
        } else if k == 14 {
        } else if k == 15 {
        } else if k == 16 {
        } else if k == 17 {
        } else if k == 18 {
        } else if k == 19 {
        } else if k == 20 {
        } else if k == 21 {
        } else if k == 22 {
        } else if k == 23 {
        }
    }
}

/// Rotating by `k` and then by its inverse changes nothing.
pub proof fn lemma_inverse(k: int)
    requires
        0 <= k < 24,
    ensures
        0 <= inverse(k) < 24,
        compose(inverse(k), k) == 0,
{
    if k == 0 {
    } else if k == 1 {
    } else if k == 2 {
    } else if k == 3 {
    } else if k == 4 {
    } else if k == 5 {
    } else if k == 6 {
    } else if k == 7 {
    } else if k == 8 {
    } else if k == 9 {
    } else if k == 10 {
    } else if k == 11 {
    } else if k == 12 {
    } else if k == 13 {
    } else if k == 14 {
    } else if k == 15 {
    } else if k == 16 {
    } else if k == 17 {
    } else if k == 18 {
    } else if k == 19 {
    } else if k == 20 {
    } else if k == 21 {
    } else if k == 22 {
    } else if k == 23 {
    }
}


/// Every candidate has the shape's length.
pub proof fn lemma_candidate_len(k: int, s: Seq<Pos>)
    ensures
        candidate(k, s).len() == s.len(),
{
    lemma_sort_seq(normalize_seq(rotated_seq(k, s)));
}

/// The least of the first `n` candidates is one of them and no candidate
/// among them comes before it.
pub proof fn lemma_least_candidate(s: Seq<Pos>, n: nat)
    requires
        1 <= n,
    ensures
        exists|k: int| 0 <= k < n && least_candidate(s, n) == #[trigger] candidate(k, s),
        forall|k: int| 0 <= k < n ==> !seq_lt(#[trigger] candidate(k, s), least_candidate(s, n)),
    decreases n,
{
    if n == 1 {
        assert(least_candidate(s, n) == candidate(0, s));
        lemma_seq_lt_irreflexive(candidate(0, s));
    } else {
        let prev = least_candidate(s, (n - 1) as nat);
        let c = candidate(n - 1, s);
        lemma_least_candidate(s, (n - 1) as nat);
        if seq_lt(c, prev) {
            assert forall|k: int| 0 <= k < n implies !seq_lt(#[trigger] candidate(k, s), c) by {
                if k < n - 1 {
                    if seq_lt(candidate(k, s), c) {
                        lemma_seq_lt_transitive(candidate(k, s), c, prev);
                    }
                } else {
                    lemma_seq_lt_irreflexive(c);
                }
            }
        } else {
            let k0 = choose|k: int| 0 <= k < n - 1 && prev == #[trigger] candidate(k, s);
            assert(least_candidate(s, n) == candidate(k0, s));
        }
    }
}

/// The rotated shape's candidates are candidates of the shape.
pub proof fn lemma_candidate_of_rotated(j: int, r: int, s: Seq<Pos>)
    requires
        0 <= j < 24,
        0 <= r < 24,
        no_min_byte(s),
    ensures
        candidate(j, rotated_seq(r, s)) == candidate(compose(j, r), s),
        0 <= compose(j, r) < 24,
{
    assert forall|i: int| 0 <= i < s.len() implies rotated_seq(j, rotated_seq(r, s))[i]
        == rotated_seq(compose(j, r), s)[i] by {
        assert(s[i].x > -128 && s[i].y > -128 && s[i].z > -128);
        lemma_compose(j, r, s[i]);
    }
    assert(rotated_seq(j, rotated_seq(r, s)) =~= rotated_seq(compose(j, r), s));
    if s.len() == 0 {
        lemma_compose(j, r, Pos { x: 0, y: 0, z: 0 });
    }
}

/// The canonical form of a rotated shape does not come before the shape's own.
proof fn lemma_rotated_not_before(s: Seq<Pos>, r: int)
    requires
        0 <= r < 24,
        bounded(s),
    ensures
        !seq_lt(canonical_form(rotated_seq(r, s)), canonical_form(s)),
{
    let t = rotated_seq(r, s);
    lemma_least_candidate(t, 24);
    lemma_least_candidate(s, 24);
    let j = choose|j: int| 0 <= j < 24 && least_candidate(t, 24) == #[trigger] candidate(j, t);
    lemma_candidate_of_rotated(j, r, s);
    assert(!seq_lt(candidate(compose(j, r), s), least_candidate(s, 24)));
}

/// Rotating by `0` changes nothing.
proof fn lemma_rotate_identity(s: Seq<Pos>)
    requires
        no_min_byte(s),
    ensures
        rotated_seq(0, s) == s,
{
    assert forall|i: int| 0 <= i < s.len() implies rotated_seq(0, s)[i] == s[i] by {
        assert(s[i].x > -128 && s[i].y > -128 && s[i].z > -128);
    }
    assert(rotated_seq(0, s) =~= s);
}

/// The canonical form is the same for a shape and every rotation of it by
/// the 24 rotations, so their signatures agree.
pub proof fn lemma_canonical_rotation_invariant(s: Seq<Pos>, r: int)
    requires
        0 <= r < 24,
        bounded(s),
    ensures
        canonical_form(rotated_seq(r, s)) == canonical_form(s),
        fx_hash_of(canonical_form(rotated_seq(r, s))) == fx_hash_of(canonical_form(s)),
{
    let t = rotated_seq(r, s);
    lemma_rotation_bounded(r, s);
    lemma_rotated_not_before(s, r);
    lemma_inverse(r);
    lemma_rotated_not_before(t, inverse(r));
    assert(rotated_seq(inverse(r), t) == s) by {
        assert forall|i: int| 0 <= i < s.len() implies rotated_seq(inverse(r), t)[i] == s[i] by {
            assert(s[i].x > -128 && s[i].y > -128 && s[i].z > -128);
            lemma_compose(inverse(r), r, s[i]);
        }
        assert(rotated_seq(inverse(r), t) =~= rotated_seq(0, s));
        lemma_rotate_identity(s);
    }
    lemma_least_candidate(t, 24);
    lemma_least_candidate(s, 24);
    let a = choose|k: int| 0 <= k < 24 && least_candidate(t, 24) == #[trigger] candidate(k, t);
    let b = choose|k: int| 0 <= k < 24 && least_candidate(s, 24) == #[trigger] candidate(k, s);
    lemma_candidate_len(a, t);
    lemma_candidate_len(b, s);
    if canonical_form(t) != canonical_form(s) {
        lemma_seq_lt_total(canonical_form(t), canonical_form(s));
    }
}


/// Applying one map to two arrangements of the same elements gives two
/// arrangements of the same elements.
pub proof fn lemma_map_multiset(s: Seq<Pos>, t: Seq<Pos>, f: spec_fn(Pos) -> Pos)
    requires
        s.to_multiset() == t.to_multiset(),
    ensures
        s.map_values(f).to_multiset() == t.map_values(f).to_multiset(),
    decreases s.len(),
{
    broadcast use vstd::seq_lib::group_to_multiset_ensures;

    s.to_multiset_ensures();
    t.to_multiset_ensures();
    if s.len() == 0 {
        assert(t.len() == 0);
        assert(s.map_values(f) =~= t.map_values(f));
    } else {
        let x = s.last();
        let s1 = s.drop_last();
        assert(s =~= s1.push(x));
        assert(t.to_multiset().count(x) > 0);
        let i = choose|i: int| 0 <= i < t.len() && t[i] == x;
        let t1 = t.remove(i);
        vstd::seq_lib::to_multiset_remove(t, i);
        vstd::seq_lib::to_multiset_build(s1, x);
        assert(s1.to_multiset() =~= s.to_multiset().remove(x));
        lemma_map_multiset(s1, t1, f);
        assert(s.map_values(f) =~= s1.map_values(f).push(f(x)));
        vstd::seq_lib::to_multiset_build(s1.map_values(f), f(x));
        assert(t =~= t1.insert(i, x));
        assert(t.map_values(f) =~= t1.map_values(f).insert(i, f(x)));
        vstd::seq_lib::to_multiset_insert(t1.map_values(f), i, f(x));
    }
}

/// Two arrangements of the same elements have the same least coordinates.
proof fn lemma_min_coord_perm(s: Seq<Pos>, t: Seq<Pos>, a: int)
    requires
        s.len() > 0,
        s.to_multiset() == t.to_multiset(),
    ensures
        t.len() > 0,
        min_coord(s, a) == min_coord(t, a),
{
    broadcast use vstd::seq_lib::group_to_multiset_ensures;

    s.to_multiset_ensures();
    t.to_multiset_ensures();
    lemma_min_coord(s, a);
    let i = choose|i: int| 0 <= i < s.len() && min_coord(s, a) == coord(#[trigger] s[i], a);
    assert(t.to_multiset().count(s[i]) > 0);
    assert forall|j: int| 0 <= j < t.len() implies min_coord(s, a) <= coord(#[trigger] t[j], a) by {
        assert(s.to_multiset().count(t[j]) > 0);
        let k = choose|k: int| 0 <= k < s.len() && s[k] == t[j];
    }
    lemma_min_coord_unique(t, a, min_coord(s, a));
}

/// Moving two arrangements of the same elements to the origin gives two
/// arrangements of the same elements.
pub proof fn lemma_normalize_perm(s: Seq<Pos>, t: Seq<Pos>)
    requires
        s.to_multiset() == t.to_multiset(),
    ensures
        normalize_seq(s).to_multiset() == normalize_seq(t).to_multiset(),
{
    s.to_multiset_ensures();
    t.to_multiset_ensures();
    if s.len() > 0 {
        lemma_min_coord_perm(s, t, 0);
        lemma_min_coord_perm(s, t, 1);
        lemma_min_coord_perm(s, t, 2);
        let g = |p: Pos| shifted(p, -min_coord(s, 0), -min_coord(s, 1), -min_coord(s, 2));
        lemma_map_multiset(s, t, g);
        assert(normalize_seq(s) == s.map_values(g));
        assert(normalize_seq(t) == t.map_values(g));
    } else {
        assert(t.to_multiset().len() == 0);
        assert(s =~= t);
    }
}

/// Two arrangements of the same elements have the same candidates.
pub proof fn lemma_candidate_perm(k: int, s: Seq<Pos>, t: Seq<Pos>)
    requires
        s.to_multiset() == t.to_multiset(),
    ensures
        candidate(k, s) == candidate(k, t),
{
    let f = |p: Pos| rotate_pos(k, p);
    lemma_map_multiset(s, t, f);
    let rs = rotated_seq(k, s);
    let rt = rotated_seq(k, t);
    lemma_normalize_perm(rs, rt);
    lemma_sort_seq(normalize_seq(rs));
    lemma_sort_seq(normalize_seq(rt));
    lemma_sorted_is_sort_seq(normalize_seq(rt), sort_seq(normalize_seq(rs)));
}

/// Rotation commutes with moving by an offset.
proof fn lemma_rotate_shifted(k: int, p: Pos, m: Pos)
    requires
        0 <= k < 24,
        0 <= p.x - m.x <= 127 && 0 <= p.y - m.y <= 127 && 0 <= p.z - m.z <= 127,
        p.x > -128 && p.y > -128 && p.z > -128,
        m.x > -128 && m.y > -128 && m.z > -128,
    ensures
        rotate_pos(k, shifted(p, -m.x, -m.y, -m.z)) == shifted(
            rotate_pos(k, p),
            -rotate_pos(k, m).x,
            -rotate_pos(k, m).y,
            -rotate_pos(k, m).z,
        ),
        -127 <= rotate_pos(k, p).x - rotate_pos(k, m).x <= 127,
        -127 <= rotate_pos(k, p).y - rotate_pos(k, m).y <= 127,
        -127 <= rotate_pos(k, p).z - rotate_pos(k, m).z <= 127,
{
    if k == 0 {
    } else if k == 1 {
    } else if k == 2 {
    } else if k == 3 {
    } else if k == 4 {
    } else if k == 5 {
    } else if k == 6 {
    } else if k == 7 {
    } else if k == 8 {
    } else if k == 9 {
    } else if k == 10 {
    } else if k == 11 {
    } else if k == 12 {
    } else if k == 13 {
    } else if k == 14 {
    } else if k == 15 {
    } else if k == 16 {
    } else if k == 17 {
    } else if k == 18 {
    } else if k == 19 {
    } else if k == 20 {
    } else if k == 21 {
    } else if k == 22 {
    } else if k == 23 {
    }
}

/// A shape moved by a fixed offset is moved to the same place by normalization.
pub proof fn lemma_normalize_shifted(y: Seq<Pos>, z: Seq<Pos>, c: Pos)
    requires
        y.len() > 0,
        z.len() == y.len(),
        span_fits(y),
        forall|i: int| 0 <= i < y.len() ==> #[trigger] z[i] == shifted(y[i], -c.x, -c.y, -c.z),
        forall|i: int| 0 <= i < y.len() ==> -128 <= (#[trigger] y[i]).x - c.x <= 127 && -128 <= y[i].y - c.y <= 127 && -128 <= y[i].z - c.z <= 127,
    ensures
        normalize_seq(z) == normalize_seq(y),
{
    lemma_min_coord(y, 0);
    lemma_min_coord(y, 1);
    lemma_min_coord(y, 2);
    assert forall|a: int| 0 <= a < 3 implies min_coord(z, a) == min_coord(y, a) - coord(c, a) by {
        let j = choose|j: int| 0 <= j < y.len() && min_coord(y, a) == coord(#[trigger] y[j], a);
        assert(z[j] == shifted(y[j], -c.x, -c.y, -c.z));
        assert forall|i: int| 0 <= i < z.len() implies min_coord(y, a) - coord(c, a) <= coord(#[trigger] z[i], a) by {
            assert(z[i] == shifted(y[i], -c.x, -c.y, -c.z));
            assert(min_coord(y, a) <= coord(y[i], a));
        }
        lemma_min_coord_unique(z, a, min_coord(y, a) - coord(c, a));
    }
    assert forall|i: int| 0 <= i < y.len() implies normalize_seq(z)[i] == normalize_seq(y)[i] by {
        assert(z[i] == shifted(y[i], -c.x, -c.y, -c.z));
        assert(min_coord(y, 0) <= coord(y[i], 0) && min_coord(y, 1) <= coord(y[i], 1) && min_coord(y, 2) <= coord(y[i], 2));
        let j0 = choose|j: int| 0 <= j < y.len() && min_coord(y, 0) == coord(#[trigger] y[j], 0);
        let j1 = choose|j: int| 0 <= j < y.len() && min_coord(y, 1) == coord(#[trigger] y[j], 1);
        let j2 = choose|j: int| 0 <= j < y.len() && min_coord(y, 2) == coord(#[trigger] y[j], 2);
        assert(y[i].x - y[j0].x <= 127 && y[i].y - y[j1].y <= 127 && y[i].z - y[j2].z <= 127);
    }
    assert(normalize_seq(z) =~= normalize_seq(y));
}

/// One cube of a shape moved to the origin, then rotated.
proof fn lemma_rotated_normalized_at(k: int, x: Seq<Pos>, m: Pos, i: int)
    requires
        0 <= k < 24,
        x.len() > 0,
        0 <= i < x.len(),
        bounded(x),
        m.x == min_coord(x, 0) && m.y == min_coord(x, 1) && m.z == min_coord(x, 2),
        m.x > -128 && m.y > -128 && m.z > -128,
        0 <= x[i].x - m.x <= 127 && 0 <= x[i].y - m.y <= 127 && 0 <= x[i].z - m.z <= 127,
    ensures
        rotated_seq(k, normalize_seq(x))[i] == shifted(
            rotated_seq(k, x)[i],
            -rotate_pos(k, m).x,
            -rotate_pos(k, m).y,
            -rotate_pos(k, m).z,
        ),
        -127 <= rotated_seq(k, x)[i].x - rotate_pos(k, m).x <= 127,
        -127 <= rotated_seq(k, x)[i].y - rotate_pos(k, m).y <= 127,
        -127 <= rotated_seq(k, x)[i].z - rotate_pos(k, m).z <= 127,
{
    assert(normalize_seq(x)[i] == shifted(x[i], -m.x, -m.y, -m.z));
    assert(x[i].x > -128 && x[i].y > -128 && x[i].z > -128);
    lemma_rotate_shifted(k, x[i], m);
}

/// Rotating a shape already at the origin and moving it back there is the
/// same as rotating the shape and moving it to the origin.
proof fn lemma_normalize_rotated_normalized(k: int, x: Seq<Pos>)
    requires
        0 <= k < 24,
        bounded(x),
    ensures
        normalize_seq(rotated_seq(k, normalize_seq(x))) == normalize_seq(rotated_seq(k, x)),
{
    if x.len() > 0 {
        lemma_min_coord(x, 0);
        lemma_min_coord(x, 1);
        lemma_min_coord(x, 2);
        let m = Pos { x: min_coord(x, 0) as i8, y: min_coord(x, 1) as i8, z: min_coord(x, 2) as i8 };
        let i0 = choose|i: int| 0 <= i < x.len() && min_coord(x, 0) == coord(#[trigger] x[i], 0);
        let i1 = choose|i: int| 0 <= i < x.len() && min_coord(x, 1) == coord(#[trigger] x[i], 1);
        let i2 = choose|i: int| 0 <= i < x.len() && min_coord(x, 2) == coord(#[trigger] x[i], 2);
        assert(x[i0].x > -128 && x[i1].y > -128 && x[i2].z > -128);
        let y = rotated_seq(k, x);
        let z = rotated_seq(k, normalize_seq(x));
        let c = rotate_pos(k, m);
        assert forall|i: int| 0 <= i < x.len() implies #[trigger] z[i] == shifted(y[i], -c.x, -c.y, -c.z)
            && -128 <= y[i].x - c.x <= 127 && -128 <= y[i].y - c.y <= 127 && -128 <= y[i].z - c.z <= 127 by {
            assert(x[i].x - x[i0].x <= 127 && x[i].y - x[i1].y <= 127 && x[i].z - x[i2].z <= 127);
            assert(min_coord(x, 0) <= coord(x[i], 0) && min_coord(x, 1) <= coord(x[i], 1) && min_coord(x, 2) <= coord(x[i], 2));
            lemma_rotated_normalized_at(k, x, m, i);
        }
        lemma_rotation_bounded(k, x);
        lemma_normalize_shifted(y, z, c);
    }
}

/// Moving a shape to the origin first does not change its candidates.
pub proof fn lemma_candidate_normalize(k: int, x: Seq<Pos>)
    requires
        0 <= k < 24,
        bounded(x),
    ensures
        candidate(k, normalize_seq(x)) == candidate(k, x),
{
    lemma_normalize_rotated_normalized(k, x);
}

/// Shapes with the same candidates have the same least candidate.
proof fn lemma_least_pointwise(s: Seq<Pos>, t: Seq<Pos>, n: nat)
    requires
        forall|k: int| 0 <= k < n ==> #[trigger] candidate(k, s) == candidate(k, t),
        1 <= n,
    ensures
        least_candidate(s, n) == least_candidate(t, n),
    decreases n,
{
    assert(candidate(0, s) == candidate(0, t));
    if n > 1 {
        assert(candidate(n - 1, s) == candidate(n - 1, t));
        lemma_least_pointwise(s, t, (n - 1) as nat);
    }
}

/// Canonicalizing a canonical form gives it back: the canonical form of the
/// canonical form is the canonical form, and so is its signature.
pub proof fn lemma_canonical_idempotent(s: Seq<Pos>)
    requires
        bounded(s),
    ensures
        canonical_form(canonical_form(s)) == canonical_form(s),
        fx_hash_of(canonical_form(canonical_form(s))) == fx_hash_of(canonical_form(s)),
{
    lemma_least_candidate(s, 24);
    let k = choose|k: int| 0 <= k < 24 && least_candidate(s, 24) == #[trigger] candidate(k, s);
    let r = rotated_seq(k, s);
    let n = normalize_seq(r);
    let c = canonical_form(s);
    lemma_rotation_bounded(k, s);
    lemma_sort_seq(n);
    assert forall|j: int| 0 <= j < 24 implies #[trigger] candidate(j, c) == candidate(j, r) by {
        lemma_candidate_perm(j, c, n);
        lemma_candidate_normalize(j, r);
    }
    lemma_least_pointwise(c, r, 24);
    lemma_canonical_rotation_invariant(s, k);
}


/// A shape moved to the origin and sorted is bounded, with every
/// coordinate in `0 ..= 127`.
proof fn lemma_sorted_normalized_bounded(x: Seq<Pos>)
    requires
        bounded(x),
    ensures
        bounded(sort_seq(normalize_seq(x))),
        bounded(normalize_seq(x)),
{
    let n = normalize_seq(x);
    if x.len() > 0 {
        lemma_min_coord(x, 0);
        lemma_min_coord(x, 1);
        lemma_min_coord(x, 2);
        let i0 = choose|i: int| 0 <= i < x.len() && min_coord(x, 0) == coord(#[trigger] x[i], 0);
        let i1 = choose|i: int| 0 <= i < x.len() && min_coord(x, 1) == coord(#[trigger] x[i], 1);
        let i2 = choose|i: int| 0 <= i < x.len() && min_coord(x, 2) == coord(#[trigger] x[i], 2);
        assert forall|i: int| 0 <= i < n.len() implies 0 <= (#[trigger] n[i]).x <= 127 && 0 <= n[i].y
            <= 127 && 0 <= n[i].z <= 127 by {
            assert(min_coord(x, 0) <= coord(x[i], 0) && min_coord(x, 1) <= coord(x[i], 1)
                && min_coord(x, 2) <= coord(x[i], 2));
            assert(x[i].x - x[i0].x <= 127 && x[i].y - x[i1].y <= 127 && x[i].z - x[i2].z <= 127);
        }
    }
    let t = sort_seq(n);
    lemma_sort_seq(n);
    n.to_multiset_ensures();
    t.to_multiset_ensures();
    assert forall|i: int| 0 <= i < t.len() implies 0 <= (#[trigger] t[i]).x <= 127 && 0 <= t[i].y
        <= 127 && 0 <= t[i].z <= 127 by {
        assert(n.to_multiset().count(t[i]) > 0);
        let j = choose|j: int| 0 <= j < n.len() && n[j] == t[i];
    }
}

/// The canonical form of a bounded shape is bounded.
pub proof fn lemma_canonical_bounded(s: Seq<Pos>)
    requires
        bounded(s),
    ensures
        bounded(canonical_form(s)),
        canonical_form(s).len() == s.len(),
{
    lemma_least_candidate(s, 24);
    let k = choose|k: int| 0 <= k < 24 && least_candidate(s, 24) == #[trigger] candidate(k, s);
    lemma_rotation_bounded(k, s);
    lemma_sorted_normalized_bounded(rotated_seq(k, s));
    lemma_candidate_len(k, s);
}


/// Applying any of the 24 table matrices leaves the canonical form, and so
/// the signature, unchanged.
pub proof fn lemma_canonical_matrix_invariant(s: Seq<Pos>, m: [[i8; 3]; 3], r: int)
    requires
        0 <= r < 24,
        is_table_matrix(m, r),
        bounded(s),
    ensures
        canonical_form(s.map_values(|p: Pos| matrix_pos(m, p))) == canonical_form(s),
        fx_hash_of(canonical_form(s.map_values(|p: Pos| matrix_pos(m, p)))) == fx_hash_of(
            canonical_form(s),
        ),
{
    assert forall|i: int| 0 <= i < s.len() implies s.map_values(|p: Pos| matrix_pos(m, p))[i]
        == rotated_seq(r, s)[i] by {
        assert(s[i].x > -128 && s[i].y > -128 && s[i].z > -128);
        lemma_table_matrix(m, r, s[i]);
    }
    assert(s.map_values(|p: Pos| matrix_pos(m, p)) =~= rotated_seq(r, s));
    lemma_canonical_rotation_invariant(s, r);
}

/// Moving a shape by an offset leaves its canonical form unchanged.
pub proof fn lemma_canonical_translation_invariant(s: Seq<Pos>, t: Seq<Pos>, c: Pos)
    requires
        s.len() > 0,
        t.len() == s.len(),
        bounded(s),
        bounded(t),
        forall|i: int| 0 <= i < s.len() ==> #[trigger] t[i] == shifted(s[i], -c.x, -c.y, -c.z),
        forall|i: int|
            0 <= i < s.len() ==> -128 <= (#[trigger] s[i]).x - c.x <= 127 && -128 <= s[i].y - c.y
                <= 127 && -128 <= s[i].z - c.z <= 127,
    ensures
        canonical_form(t) == canonical_form(s),
{
    lemma_normalize_shifted(s, t, c);
    assert forall|k: int| 0 <= k < 24 implies #[trigger] candidate(k, t) == candidate(k, s) by {
        lemma_candidate_normalize(k, s);
        lemma_candidate_normalize(k, t);
    }
    lemma_least_pointwise(t, s, 24);
}

/// The order in which a shape lists its cubes does not change its canonical form.
pub proof fn lemma_canonical_order_invariant(s: Seq<Pos>, t: Seq<Pos>)
    requires
        s.to_multiset() == t.to_multiset(),
    ensures
        canonical_form(t) == canonical_form(s),
{
    assert forall|k: int| 0 <= k < 24 implies #[trigger] candidate(k, t) == candidate(k, s) by {
        lemma_candidate_perm(k, s, t);
    }
    lemma_least_pointwise(t, s, 24);
}


/// Equal canonical forms come only from shapes that one rotation of the
/// table, followed by moving to the origin, takes one onto the other (up to
/// the order in which cubes are listed).
pub proof fn lemma_same_canonical_related(a: Seq<Pos>, b: Seq<Pos>)
    requires
        bounded(a),
        bounded(b),
        canonical_form(a) == canonical_form(b),
    ensures
        exists|m: int|
            0 <= m < 24 && (#[trigger] normalize_seq(rotated_seq(m, a))).to_multiset()
                == normalize_seq(b).to_multiset(),
{
    lemma_least_candidate(a, 24);
    lemma_least_candidate(b, 24);
    let ka = choose|k: int| 0 <= k < 24 && least_candidate(a, 24) == #[trigger] candidate(k, a);
    let kb = choose|k: int| 0 <= k < 24 && least_candidate(b, 24) == #[trigger] candidate(k, b);
    let x = normalize_seq(rotated_seq(ka, a));
    let y = normalize_seq(rotated_seq(kb, b));
    lemma_sort_seq(x);
    lemma_sort_seq(y);
    assert(x.to_multiset() == y.to_multiset());
    lemma_inverse(kb);
    let j = inverse(kb);
    lemma_map_multiset(x, y, |p: Pos| rotate_pos(j, p));
    lemma_normalize_perm(rotated_seq(j, x), rotated_seq(j, y));
    lemma_rotation_bounded(ka, a);
    lemma_rotation_bounded(kb, b);
    lemma_normalize_rotated_normalized(j, rotated_seq(ka, a));
    lemma_normalize_rotated_normalized(j, rotated_seq(kb, b));
    let m = compose(j, ka);
    assert(rotated_seq(j, rotated_seq(ka, a)) =~= rotated_seq(m, a)) by {
        assert forall|i: int| 0 <= i < a.len() implies rotated_seq(j, rotated_seq(ka, a))[i]
            == rotated_seq(m, a)[i] by {
            assert(a[i].x > -128 && a[i].y > -128 && a[i].z > -128);
            lemma_compose(j, ka, a[i]);
        }
    }
    assert(rotated_seq(j, rotated_seq(kb, b)) =~= b) by {
        assert forall|i: int| 0 <= i < b.len() implies rotated_seq(j, rotated_seq(kb, b))[i]
            == b[i] by {
            assert(b[i].x > -128 && b[i].y > -128 && b[i].z > -128);
            lemma_compose(j, kb, b[i]);
        }
        lemma_rotate_identity(b);
    }
    if a.len() == 0 {
        lemma_compose(j, ka, Pos { x: 0, y: 0, z: 0 });
    }
    assert(0 <= m < 24) by {
        lemma_compose(j, ka, Pos { x: 0, y: 0, z: 0 });
    }
}

/// A row with a single non-zero entry, which is 1 or -1.
pub open spec fn unit_row(r: [i8; 3]) -> bool {
    ||| (r[0] == 1 || r[0] == -1) && r[1] == 0 && r[2] == 0
    ||| r[0] == 0 && (r[1] == 1 || r[1] == -1) && r[2] == 0
    ||| r[0] == 0 && r[1] == 0 && (r[2] == 1 || r[2] == -1)
}

/// Every row of the matrix picks one axis, possibly negated.
pub open spec fn unit_rows(m: [[i8; 3]; 3]) -> bool {
    unit_row(m[0]) && unit_row(m[1]) && unit_row(m[2])
}

/// `m * v`, spelled out for the entries a rotation matrix can hold.
pub open spec fn entry_times(m: int, v: int) -> int {
    if m == 0 {
        0
    } else if m == 1 {
        v
    } else if m == -1 {
        -v
    } else {
        m * v
    }
}

/// One row of a matrix applied to a position.
pub open spec fn row_apply(r: [i8; 3], p: Pos) -> int {
    entry_times(r[0] as int, p.x as int) + entry_times(r[1] as int, p.y as int) + entry_times(
        r[2] as int,
        p.z as int,
    )
}

/// A matrix applied to a position.
pub open spec fn matrix_pos(m: [[i8; 3]; 3], p: Pos) -> Pos {
    Pos { x: row_apply(m[0], p) as i8, y: row_apply(m[1], p) as i8, z: row_apply(m[2], p) as i8 }
}

/// The matrix is rotation `k` of the fixed table.
pub open spec fn is_table_matrix(m: [[i8; 3]; 3], k: int) -> bool {
    forall|a: int, b: int| 0 <= a < 3 && 0 <= b < 3 ==> #[trigger] m[a][b] == rotation_entry(k, a, b)
}

/// No coordinate is the least byte value, so negating one stays in a byte.
pub open spec fn no_min_byte(s: Seq<Pos>) -> bool {
    forall|i: int| 0 <= i < s.len() ==> (#[trigger] s[i]).x > -128 && s[i].y > -128 && s[i].z > -128
}

/// The shape can be rotated and moved to the origin without leaving the byte range.
pub open spec fn bounded(s: Seq<Pos>) -> bool {
    no_min_byte(s) && span_fits(s)
}

/// Rotation `k` applied to every position.
pub open spec fn rotated_seq(k: int, s: Seq<Pos>) -> Seq<Pos> {
    s.map_values(|p: Pos| rotate_pos(k, p))
}

/// Rotation `k` of the shape, moved to the origin and sorted.
pub open spec fn candidate(k: int, s: Seq<Pos>) -> Seq<Pos> {
    sort_seq(normalize_seq(rotated_seq(k, s)))
}

/// The least of the candidates for rotations `0 .. k`; an earlier one wins a tie.
pub open spec fn least_candidate(s: Seq<Pos>, k: nat) -> Seq<Pos>
    decreases k,
{
    if k <= 1 {
        candidate(0, s)
    } else {
        let prev = least_candidate(s, (k - 1) as nat);
        let c = candidate(k - 1, s);
        if seq_lt(c, prev) {
            c
        } else {
            prev
        }
    }
}

/// The rotation-canonical form: the least candidate over all 24 rotations.
pub open spec fn canonical_form(s: Seq<Pos>) -> Seq<Pos> {
    least_candidate(s, 24)
}

/// A table matrix acts on positions as the table's rotation.
pub proof fn lemma_table_matrix(m: [[i8; 3]; 3], k: int, p: Pos)
    requires
        0 <= k < 24,
        is_table_matrix(m, k),
        p.x > -128 && p.y > -128 && p.z > -128,
    ensures
        matrix_pos(m, p) == rotate_pos(k, p),
        unit_rows(m),
{
    assert(m[0][0] == rotation_entry(k, 0, 0));
    assert(m[0][1] == rotation_entry(k, 0, 1));
    assert(m[0][2] == rotation_entry(k, 0, 2));
    assert(m[1][0] == rotation_entry(k, 1, 0));
    assert(m[1][1] == rotation_entry(k, 1, 1));
    assert(m[1][2] == rotation_entry(k, 1, 2));
    assert(m[2][0] == rotation_entry(k, 2, 0));
    assert(m[2][1] == rotation_entry(k, 2, 1));
    assert(m[2][2] == rotation_entry(k, 2, 2));
    if k == 0 {
    } else if k == 1 {
    } else if k == 2 {
    } else if k == 3 {
    } else if k == 4 {
    } else if k == 5 {
    } else if k == 6 {
    } else if k == 7 {
    } else if k == 8 {
    } else if k == 9 {
    } else if k == 10 {
    } else if k == 11 {
    } else if k == 12 {
    } else if k == 13 {
    } else if k == 14 {
    } else if k == 15 {
    } else if k == 16 {
    } else if k == 17 {
    } else if k == 18 {
    } else if k == 19 {
    } else if k == 20 {
    } else if k == 21 {
    } else if k == 22 {
    } else if k == 23 {
    }
}

/// A rotated shape is again bounded.
pub proof fn lemma_rotation_bounded(k: int, s: Seq<Pos>)
    requires
        0 <= k < 24,
        bounded(s),
    ensures
        bounded(rotated_seq(k, s)),
        rotated_seq(k, s).len() == s.len(),
{
    let r = rotated_seq(k, s);
    assert forall|i: int, j: int| 0 <= i < r.len() && 0 <= j < r.len() implies {
        &&& #[trigger] r[i].x - #[trigger] r[j].x <= 127
        &&& r[i].y - r[j].y <= 127
        &&& r[i].z - r[j].z <= 127
    } by {
        assert(s[i].x - s[j].x <= 127 && s[j].x - s[i].x <= 127);
        assert(s[i].y - s[j].y <= 127 && s[j].y - s[i].y <= 127);
        assert(s[i].z - s[j].z <= 127 && s[j].z - s[i].z <= 127);
    }
    assert forall|i: int| 0 <= i < r.len() implies (#[trigger] r[i]).x > -128 && r[i].y > -128
        && r[i].z > -128 by {
        assert(s[i].x > -128 && s[i].y > -128 && s[i].z > -128);
    }
}

/// `m * v` for a matrix entry `m` in -1 ..= 1.
fn unit_mul(m: i8, v: i8) -> (r: i8)
    requires
        -1 <= m <= 1,
        v > -128,
    ensures
        r == entry_times(m as int, v as int),
{
    if m == 1 {
        v
    } else if m == -1 {
        -v
    } else {
        0
    }
}

/// One row of the matrix applied to a position.
fn apply_row(r: &[i8; 3], p: Pos) -> (c: i8)
    requires
        unit_row(*r),
        p.x > -128 && p.y > -128 && p.z > -128,
    ensures
        c == row_apply(*r, p),
{
    unit_mul(r[0], p.x) + unit_mul(r[1], p.y) + unit_mul(r[2], p.z)
}

/// The 24 rotation matrices, four about each face direction (+x, -x, +y, -y, +z, -z).
pub fn generate_rotation_matrices() -> (r: Vec<[[i8; 3]; 3]>)
    ensures
        r.len() == 24,
        forall|k: int| 0 <= k < 24 ==> is_table_matrix(#[trigger] r[k], k),
{
    let mut matrices: Vec<[[i8; 3]; 3]> = Vec::new();
    matrices.push([[1, 0, 0], [0, 1, 0], [0, 0, 1]]);
    matrices.push([[1, 0, 0], [0, 0, -1], [0, 1, 0]]);
    matrices.push([[1, 0, 0], [0, -1, 0], [0, 0, -1]]);
    matrices.push([[1, 0, 0], [0, 0, 1], [0, -1, 0]]);
    matrices.push([[-1, 0, 0], [0, 1, 0], [0, 0, -1]]);
    matrices.push([[-1, 0, 0], [0, 0, 1], [0, 1, 0]]);
    matrices.push([[-1, 0, 0], [0, -1, 0], [0, 0, 1]]);
    matrices.push([[-1, 0, 0], [0, 0, -1], [0, -1, 0]]);
    matrices.push([[0, 1, 0], [-1, 0, 0], [0, 0, 1]]);
    matrices.push([[0, 1, 0], [0, 0, -1], [-1, 0, 0]]);
    matrices.push([[0, 1, 0], [1, 0, 0], [0, 0, -1]]);
    matrices.push([[0, 1, 0], [0, 0, 1], [1, 0, 0]]);
    matrices.push([[0, -1, 0], [1, 0, 0], [0, 0, 1]]);
    matrices.push([[0, -1, 0], [0, 0, -1], [1, 0, 0]]);
    matrices.push([[0, -1, 0], [-1, 0, 0], [0, 0, -1]]);
    matrices.push([[0, -1, 0], [0, 0, 1], [-1, 0, 0]]);
    matrices.push([[0, 0, 1], [0, 1, 0], [-1, 0, 0]]);
    matrices.push([[0, 0, 1], [1, 0, 0], [0, 1, 0]]);
    matrices.push([[0, 0, 1], [0, -1, 0], [1, 0, 0]]);
    matrices.push([[0, 0, 1], [-1, 0, 0], [0, -1, 0]]);
    matrices.push([[0, 0, -1], [0, 1, 0], [1, 0, 0]]);
    matrices.push([[0, 0, -1], [-1, 0, 0], [0, 1, 0]]);
    matrices.push([[0, 0, -1], [0, -1, 0], [-1, 0, 0]]);
    matrices.push([[0, 0, -1], [1, 0, 0], [0, -1, 0]]);
    proof {
        assert forall|k: int| 0 <= k < 24 implies is_table_matrix(#[trigger] matrices[k], k) by {
            assert forall|a: int, b: int| 0 <= a < 3 && 0 <= b < 3 implies #[trigger] matrices[k][a][b]
                == rotation_entry(k, a, b) by {
                assert(0 <= 3 * a + b < 9);
            }
        }
    }
    matrices
}

impl Polycube {
    /// Every cube moved by the rotation matrix.
    pub fn apply_rotation(&self, rotation: &[[i8; 3]; 3]) -> (r: Polycube)
        requires
            unit_rows(*rotation),
            no_min_byte(self@),
        ensures
            r@ == self@.map_values(|p: Pos| matrix_pos(*rotation, p)),
    {
        let ghost s = self@;
        let mut cubes: Vec<Pos> = Vec::new();
        let mut i: usize = 0;
        while i < self.cubes.len()
            invariant
                i <= self.cubes.len(),
                s == self@,
                unit_rows(*rotation),
                no_min_byte(s),
                cubes@ == s.subrange(0, i as int).map_values(|p: Pos| matrix_pos(*rotation, p)),
            decreases self.cubes.len() - i,
        {
            let p = self.cubes[i];
            assert(p == s[i as int]);
            let x = apply_row(&rotation[0], p);
            let y = apply_row(&rotation[1], p);
            let z = apply_row(&rotation[2], p);
            cubes.push(Pos::new(x, y, z));
            i = i + 1;
            assert(cubes@ =~= s.subrange(0, i as int).map_values(
                |p: Pos| matrix_pos(*rotation, p),
            ));
        }
        assert(s.subrange(0, s.len() as int) =~= s);
        Polycube::new(cubes)
    }
}

/// The shape under each of the 24 rotations, each moved to the origin.
pub fn all_rotations(polycube: &Polycube) -> (r: Vec<Polycube>)
    requires
        bounded(polycube@),
    ensures
        r.len() == 24,
        forall|k: int| 0 <= k < 24 ==> (#[trigger] r[k])@ == normalize_seq(rotated_seq(k, polycube@)),
{
    let matrices = generate_rotation_matrices();
    let mut rotations: Vec<Polycube> = Vec::new();
    let mut k: usize = 0;
    while k < 24
        invariant
            k <= 24,
            matrices.len() == 24,
            forall|j: int| 0 <= j < 24 ==> is_table_matrix(#[trigger] matrices[j], j),
            bounded(polycube@),
            rotations.len() == k,
            forall|j: int| 0 <= j < k ==> (#[trigger] rotations[j])@ == normalize_seq(
                rotated_seq(j, polycube@),
            ),
        decreases 24 - k,
    {
        let rotated = rotate_table(polycube, &matrices[k], Ghost(k as int));
        rotations.push(rotated.normalize());
        k = k + 1;
    }
    rotations
}

/// The shape under table rotation `k`, given its matrix.
fn rotate_table(polycube: &Polycube, m: &[[i8; 3]; 3], Ghost(k): Ghost<int>) -> (r: Polycube)
    requires
        0 <= k < 24,
        is_table_matrix(*m, k),
        bounded(polycube@),
    ensures
        r@ == rotated_seq(k, polycube@),
        bounded(r@),
{
    let ghost s = polycube@;
    proof {
        if s.len() > 0 {
            assert(s[0].x > -128 && s[0].y > -128 && s[0].z > -128);
            lemma_table_matrix(*m, k, s[0]);
        } else {
            lemma_table_matrix(*m, k, Pos { x: 0, y: 0, z: 0 });
        }
    }
    let r = polycube.apply_rotation(m);
    proof {
        assert forall|i: int| 0 <= i < s.len() implies r@[i] == rotated_seq(k, s)[i] by {
            assert(s[i].x > -128 && s[i].y > -128 && s[i].z > -128);
            lemma_table_matrix(*m, k, s[i]);
        }
        assert(r@ =~= rotated_seq(k, s));
        lemma_rotation_bounded(k, s);
    }
    r
}

impl Polycube {
    /// The rotation-canonical form: of the 24 rotations, each moved to the
    /// origin and sorted, the lexicographically least.
    pub fn get_canonical_form(&self) -> (r: Vec<Pos>)
        requires
            bounded(self@),
        ensures
            r@ == canonical_form(self@),
            bounded(r@),
    {
        proof {
            lemma_canonical_bounded(self@);
        }
        let rotations = all_rotations(self);
        let mut smallest: Vec<Pos> = Vec::new();
        let mut k: usize = 0;
        while k < 24
            invariant
                k <= 24,
                rotations.len() == 24,
                forall|j: int| 0 <= j < 24 ==> (#[trigger] rotations[j])@ == normalize_seq(
                    rotated_seq(j, self@),
                ),
                k > 0 ==> smallest@ == least_candidate(self@, k as nat),
            decreases 24 - k,
        {
            let mut positions = copy_positions(&rotations[k].cubes);
            sort_positions(&mut positions);
            assert(positions@ == candidate(k as int, self@));
            if k == 0 || lexicographically_smaller(positions.as_slice(), smallest.as_slice()) {
                smallest = positions;
            }
            k = k + 1;
        }
        smallest
    }

    /// A 64-bit digest of the rotation-canonical form: equal for shapes that
    /// are rotations and translations of each other.
    pub fn get_canonical_hash(&self) -> (r: u64)
        requires
            bounded(self@),
        ensures
            r == fx_hash_of(canonical_form(self@)),
    {
        let canonical = self.get_canonical_form();
        fx_hash_positions(canonical.as_slice())
    }

    /// The canonical representative of the shape, with its digest.
    pub fn canonicalize(&self) -> (r: (Polycube, u64))
        requires
            bounded(self@),
        ensures
            r.0@ == canonical_form(self@),
            r.1 == fx_hash_of(canonical_form(self@)),
            bounded(r.0@),
    {
        let canonical = self.get_canonical_form();
        let signature = fx_hash_positions(canonical.as_slice());
        (Polycube::new(canonical), signature)
    }
}

} // verus!
