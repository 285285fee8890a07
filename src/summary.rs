//! Classification of generated shapes by extent, and the record of one
//! benchmark run checked against the known counts.
use vstd::prelude::*;
use vstd::string::StringExecFns;

use crate::generator::{get_known_count, known_count};
use crate::generator::coords_within;
use crate::polycube::{
    all_steppable, below_top, coord, dimensions_of, flat_dims, greatest_coord, least_coord,
    lemma_max_coord, lemma_min_coord, linear_dims, max_coord, min_coord, position_in, Polycube,
};
use crate::position::{neighbours, steppable, Pos};

verus! {

/// 1 for a straight line, 2 for another shape one cube thick, 3 otherwise.
pub open spec fn shape_class(s: Seq<Pos>) -> int {
    if linear_dims(dimensions_of(s)) {
        1
    } else if flat_dims(dimensions_of(s)) {
        2
    } else {
        3
    }
}

/// How many shapes of the sequence are of class `c`.
pub open spec fn count_class(v: Seq<Polycube>, c: int) -> nat
    decreases v.len(),
{
    if v.len() == 0 {
        0
    } else {
        count_class(v.drop_last(), c) + if shape_class(v.last()@) == c {
            1nat
        } else {
            0nat
        }
    }
}

proof fn lemma_count_class_bound(v: Seq<Polycube>)
    ensures
        count_class(v, 1) + count_class(v, 2) + count_class(v, 3) == v.len(),
    decreases v.len(),
{
    if v.len() > 0 {
        lemma_count_class_bound(v.drop_last());
    }
}

/// Counts of shapes by how many axes they extend along.
pub struct SummaryData {
    pub linear_count: usize,
    pub planar_count: usize,
    pub three_d_count: usize,
    pub single_layer_count: usize,
    pub multi_layer_count: usize,
}

/// The dimensionality of a shape that starts at zero: 1 for a straight
/// line, 2 for another shape one cube thick, 3 otherwise.
pub fn get_dimensionality_order(p: &Polycube) -> (r: i32)
    requires
        below_top(p@),
    ensures
        r == shape_class(p@),
{
    if p.is_linear() {
        return 1;
    }
    if p.is_flat() {
        return 2;
    }
    3
}

/// Counts the shapes (each starting at zero) by class: lines, other
/// one-cube-thick shapes, and the rest; single-layer shapes are the first two.
pub fn get_summary_data(polycubes: &Vec<Polycube>) -> (r: SummaryData)
    requires
        forall|i: int| 0 <= i < polycubes.len() ==> below_top(#[trigger] polycubes[i]@),
    ensures
        r.linear_count == count_class(polycubes@, 1),
        r.planar_count == count_class(polycubes@, 2),
        r.three_d_count == count_class(polycubes@, 3),
        r.single_layer_count == r.linear_count + r.planar_count,
        r.multi_layer_count == r.three_d_count,
{
    let mut linear_count: usize = 0;
    let mut planar_count: usize = 0;
    let mut three_d_count: usize = 0;
    let mut i: usize = 0;
    while i < polycubes.len()
        invariant
            i <= polycubes.len(),
            forall|k: int| 0 <= k < polycubes.len() ==> below_top(#[trigger] polycubes[k]@),
            linear_count == count_class(polycubes@.subrange(0, i as int), 1),
            planar_count == count_class(polycubes@.subrange(0, i as int), 2),
            three_d_count == count_class(polycubes@.subrange(0, i as int), 3),
        decreases polycubes.len() - i,
    {
        proof {
            let pre = polycubes@.subrange(0, i as int);
            let next = polycubes@.subrange(0, i + 1);
            assert(next.drop_last() =~= pre);
            lemma_count_class_bound(pre);
        }
        let order = get_dimensionality_order(&polycubes[i]);
        if order == 1 {
            linear_count = linear_count + 1;
        } else if order == 2 {
            planar_count = planar_count + 1;
        } else {
            three_d_count = three_d_count + 1;
        }
        i = i + 1;
    }
    assert(polycubes@.subrange(0, polycubes.len() as int) =~= polycubes@);
    proof {
        lemma_count_class_bound(polycubes@);
    }
    SummaryData {
        linear_count,
        planar_count,
        three_d_count,
        single_layer_count: linear_count + planar_count,
        multi_layer_count: three_d_count,
    }
}

/// One generation run: its size, how many shapes it gave, how long it took,
/// and whether that matches the known count (a size without a known count
/// matches).
pub struct BenchmarkResult {
    pub size: u8,
    pub count: usize,
    pub expected: Option<u64>,
    pub time_ms: u128,
    pub matches_expected: bool,
}

impl BenchmarkResult {
    /// The record of a run, with the known count looked up and compared.
    pub fn from_run(size: u8, count: usize, time_ms: u128) -> (r: BenchmarkResult)
        ensures
            r.size == size,
            r.count == count,
            r.time_ms == time_ms,
            r.expected == known_count(size as int),
            r.matches_expected == match known_count(size as int) {
                Some(c) => c == count,
                None => true,
            },
    {
        let expected = get_known_count(size);
        let matches_expected = match expected {
            Some(c) => count as u64 == c,
            None => true,
        };
        BenchmarkResult { size, count, expected, time_ms, matches_expected }
    }
}

/// How many faces of the cube at `p` touch no cube of the shape.
pub open spec fn open_faces_of(s: Seq<Pos>, p: Pos) -> nat {
    let n = neighbours(p);
    (if s.contains(n[0]) { 0nat } else { 1nat }) + (if s.contains(n[1]) { 0nat } else { 1nat }) + (
    if s.contains(n[2]) { 0nat } else { 1nat }) + (if s.contains(n[3]) { 0nat } else { 1nat }) + (
    if s.contains(n[4]) { 0nat } else { 1nat }) + (if s.contains(n[5]) { 0nat } else { 1nat })
}

/// Exposed faces of the first `k` cubes.
pub open spec fn open_faces(s: Seq<Pos>, k: int) -> nat
    decreases k,
{
    if k <= 0 {
        0
    } else {
        open_faces(s, k - 1) + open_faces_of(s, s[k - 1])
    }
}

proof fn lemma_open_faces_bound(s: Seq<Pos>, k: int)
    requires
        0 <= k <= s.len(),
    ensures
        open_faces(s, k) <= 6 * k,
    decreases k,
{
    if k > 0 {
        lemma_open_faces_bound(s, k - 1);
    }
}

/// The extent of a shape on each axis: greatest minus least coordinate plus
/// one; (1, 1, 1) for no cubes.
pub open spec fn extent_of(s: Seq<Pos>) -> (int, int, int) {
    if s.len() == 0 {
        (1, 1, 1)
    } else {
        (
            max_coord(s, 0) - min_coord(s, 0) + 1,
            max_coord(s, 1) - min_coord(s, 1) + 1,
            max_coord(s, 2) - min_coord(s, 2) + 1,
        )
    }
}

/// Integer measures of a shape for a catalogue.
pub struct ShapeMeasures {
    pub dimension_x: i8,
    pub dimension_y: i8,
    pub dimension_z: i8,
    pub is_linear: bool,
    pub is_flat: bool,
    pub surface_area: usize,
    pub volume: usize,
}

/// Exposed faces of the cubes, each cube of the sequence counted.
pub fn surface_area(p: &Polycube) -> (r: usize)
    requires
        all_steppable(p@),
        p@.len() <= usize::MAX / 6,
    ensures
        r == open_faces(p@, p@.len() as int),
{
    let mut total: usize = 0;
    let mut i: usize = 0;
    while i < p.cubes.len()
        invariant
            i <= p.cubes.len(),
            p@.len() <= usize::MAX / 6,
            all_steppable(p@),
            total == open_faces(p@, i as int),
        decreases p.cubes.len() - i,
    {
        proof {
            lemma_open_faces_bound(p@, i + 1);
        }
        let cube = p.cubes[i];
        assert(steppable(p@[i as int]));
        let adj = cube.adjacent_positions();
        let mut faces: usize = 0;
        let mut d: usize = 0;
        while d < 6
            invariant
                d <= 6,
                adj@ == neighbours(cube),
                faces <= d,
                faces == (if d > 0 && !p@.contains(adj@[0]) { 1nat } else { 0nat }) + (if d > 1
                    && !p@.contains(adj@[1]) { 1nat } else { 0nat }) + (if d > 2 && !p@.contains(
                    adj@[2],
                ) { 1nat } else { 0nat }) + (if d > 3 && !p@.contains(adj@[3]) { 1nat } else { 0nat })
                    + (if d > 4 && !p@.contains(adj@[4]) { 1nat } else { 0nat }) + (if d > 5
                    && !p@.contains(adj@[5]) { 1nat } else { 0nat }),
            decreases 6 - d,
        {
            if !position_in(&p.cubes, adj[d]) {
                faces = faces + 1;
            }
            d = d + 1;
        }
        total = total + faces;
        i = i + 1;
    }
    total
}

/// On every axis the coordinates lie within 126 of each other, so that an
/// extent fits in a byte.
pub open spec fn extents_fit(s: Seq<Pos>) -> bool {
    forall|i: int, j: int|
        0 <= i < s.len() && 0 <= j < s.len() ==> {
            &&& #[trigger] s[i].x - #[trigger] s[j].x <= 126
            &&& s[i].y - s[j].y <= 126
            &&& s[i].z - s[j].z <= 126
        }
}

/// Extents, classification, exposed faces and volume of a shape.
pub fn calculate_measures(p: &Polycube) -> (r: ShapeMeasures)
    requires
        all_steppable(p@),
        extents_fit(p@),
        p@.len() <= usize::MAX / 6,
    ensures
        (r.dimension_x as int, r.dimension_y as int, r.dimension_z as int) == extent_of(p@),
        r.is_linear == linear_dims(extent_of(p@)),
        r.is_flat == flat_dims(extent_of(p@)),
        r.surface_area == open_faces(p@, p@.len() as int),
        r.volume == p@.len(),
{
    let (dimension_x, dimension_y, dimension_z) = extents(p);
    let is_linear = dimension_x == 1 && dimension_y == 1 || dimension_x == 1 && dimension_z == 1
        || dimension_y == 1 && dimension_z == 1;
    let is_flat = dimension_x == 1 || dimension_y == 1 || dimension_z == 1;
    let surface_area = surface_area(p);
    ShapeMeasures {
        dimension_x,
        dimension_y,
        dimension_z,
        is_linear,
        is_flat,
        surface_area,
        volume: p.cubes.len(),
    }
}

/// Greatest minus least coordinate plus one on each axis.
fn extents(p: &Polycube) -> (r: (i8, i8, i8))
    requires
        extents_fit(p@),
    ensures
        (r.0 as int, r.1 as int, r.2 as int) == extent_of(p@),
{
    if p.cubes.len() == 0 {
        return (1, 1, 1);
    }
    proof {
        lemma_min_coord(p@, 0);
        lemma_min_coord(p@, 1);
        lemma_min_coord(p@, 2);
        lemma_max_coord(p@, 0);
        lemma_max_coord(p@, 1);
        lemma_max_coord(p@, 2);
        let i = choose|i: int| 0 <= i < p@.len() && min_coord(p@, 0) == coord(#[trigger] p@[i], 0);
        let j = choose|i: int| 0 <= i < p@.len() && max_coord(p@, 0) == coord(#[trigger] p@[i], 0);
        assert(p@[j].x - p@[i].x <= 126);
        let i = choose|i: int| 0 <= i < p@.len() && min_coord(p@, 1) == coord(#[trigger] p@[i], 1);
        let j = choose|i: int| 0 <= i < p@.len() && max_coord(p@, 1) == coord(#[trigger] p@[i], 1);
        assert(p@[j].y - p@[i].y <= 126);
        let i = choose|i: int| 0 <= i < p@.len() && min_coord(p@, 2) == coord(#[trigger] p@[i], 2);
        let j = choose|i: int| 0 <= i < p@.len() && max_coord(p@, 2) == coord(#[trigger] p@[i], 2);
        assert(p@[j].z - p@[i].z <= 126);
        assert(min_coord(p@, 0) <= coord(p@[0], 0) <= max_coord(p@, 0));
        assert(min_coord(p@, 1) <= coord(p@[0], 1) <= max_coord(p@, 1));
        assert(min_coord(p@, 2) <= coord(p@[0], 2) <= max_coord(p@, 2));
    }
    let w = greatest_coord(&p.cubes, 0) - least_coord(&p.cubes, 0) + 1;
    let h = greatest_coord(&p.cubes, 1) - least_coord(&p.cubes, 1) + 1;
    let d = greatest_coord(&p.cubes, 2) - least_coord(&p.cubes, 2) + 1;
    (w, h, d)
}

/// The largest extent of a shape that starts at zero.
pub open spec fn max_dimension(s: Seq<Pos>) -> int {
    let d = dimensions_of(s);
    if d.0 >= d.1 && d.0 >= d.2 {
        d.0
    } else if d.1 >= d.2 {
        d.1
    } else {
        d.2
    }
}

/// The greatest largest extent over the shapes; zero for none.
pub open spec fn greatest_dimension(v: Seq<Polycube>) -> int
    decreases v.len(),
{
    if v.len() == 0 {
        0
    } else {
        let rest = greatest_dimension(v.drop_last());
        let d = max_dimension(v.last()@);
        if d > rest {
            d
        } else {
            rest
        }
    }
}

/// How many shapes have largest extent `d`.
pub open spec fn count_dimension(v: Seq<Polycube>, d: int) -> nat
    decreases v.len(),
{
    if v.len() == 0 {
        0
    } else {
        count_dimension(v.drop_last(), d) + if max_dimension(v.last()@) == d {
            1nat
        } else {
            0nat
        }
    }
}

proof fn lemma_count_dimension_bound(v: Seq<Polycube>, d: int)
    ensures
        count_dimension(v, d) <= v.len(),
    decreases v.len(),
{
    if v.len() > 0 {
        lemma_count_dimension_bound(v.drop_last(), d);
    }
}

proof fn lemma_greatest_dimension(v: Seq<Polycube>)
    requires
        forall|i: int| 0 <= i < v.len() ==> 0 <= max_dimension(#[trigger] v[i]@) <= 127,
    ensures
        0 <= greatest_dimension(v) <= 127,
        forall|i: int| 0 <= i < v.len() ==> max_dimension(#[trigger] v[i]@) <= greatest_dimension(v),
        forall|d: int| d > greatest_dimension(v) ==> count_dimension(v, d) == 0,
    decreases v.len(),
{
    if v.len() > 0 {
        let w = v.drop_last();
        assert forall|i: int| 0 <= i < w.len() implies 0 <= max_dimension(#[trigger] w[i]@) <= 127 by {
            assert(w[i] == v[i]);
        }
        lemma_greatest_dimension(w);
        assert forall|i: int| 0 <= i < v.len() implies max_dimension(#[trigger] v[i]@) <= greatest_dimension(v) by {
            if i < w.len() {
                assert(w[i] == v[i]);
            }
        }
        assert(v.last() == v[v.len() - 1]);
        assert forall|d: int| d > greatest_dimension(v) implies count_dimension(v, d) == 0 by {
            assert(count_dimension(w, d) == 0);
            assert(max_dimension(v.last()@) <= greatest_dimension(v));
        }
    }
}

/// For each largest extent from zero up to the greatest, how many of the
/// shapes (each starting at zero) have it.
pub fn max_dimension_counts(polycubes: &Vec<Polycube>) -> (r: Vec<usize>)
    requires
        forall|i: int| 0 <= i < polycubes.len() ==> coords_within(#[trigger] polycubes[i]@, 126),
    ensures
        r.len() == greatest_dimension(polycubes@) + 1,
        forall|d: int| 0 <= d < r.len() ==> #[trigger] r[d] == count_dimension(polycubes@, d),
        forall|d: int| d >= r.len() ==> count_dimension(polycubes@, d) == 0,
{
    let ghost v = polycubes@;
    proof {
        assert forall|i: int| 0 <= i < v.len() implies 0 <= max_dimension(#[trigger] v[i]@) <= 127 by {
            let s = v[i]@;
            if s.len() > 0 {
                lemma_max_coord(s, 0);
                lemma_max_coord(s, 1);
                lemma_max_coord(s, 2);
                let a = choose|k: int| 0 <= k < s.len() && max_coord(s, 0) == coord(#[trigger] s[k], 0);
                let b = choose|k: int| 0 <= k < s.len() && max_coord(s, 1) == coord(#[trigger] s[k], 1);
                let c = choose|k: int| 0 <= k < s.len() && max_coord(s, 2) == coord(#[trigger] s[k], 2);
                assert(0 <= s[a].x <= 126 && 0 <= s[b].y <= 126 && 0 <= s[c].z <= 126);
            }
        }
        lemma_greatest_dimension(v);
    }
    let mut largest: usize = 0;
    let mut i: usize = 0;
    while i < polycubes.len()
        invariant
            i <= polycubes.len(),
            v == polycubes@,
            forall|k: int| 0 <= k < v.len() ==> coords_within(#[trigger] v[k]@, 126),
            forall|k: int| 0 <= k < v.len() ==> 0 <= max_dimension(#[trigger] v[k]@) <= 127,
            largest == greatest_dimension(v.subrange(0, i as int)),
        decreases polycubes.len() - i,
    {
        assert(v.subrange(0, i + 1).drop_last() =~= v.subrange(0, i as int));
        assert(v.subrange(0, i + 1).last() == v[i as int]);
        let d = largest_extent(&polycubes[i]);
        if d > largest {
            largest = d;
        }
        i = i + 1;
    }
    assert(v.subrange(0, v.len() as int) =~= v);
    let mut r: Vec<usize> = Vec::new();
    while r.len() <= largest
        invariant
            largest == greatest_dimension(v),
            largest <= 127,
            r.len() <= largest + 1,
            forall|d: int| 0 <= d < r.len() ==> #[trigger] r[d] == 0,
        decreases largest + 1 - r.len(),
    {
        r.push(0);
    }
    let mut i: usize = 0;
    while i < polycubes.len()
        invariant
            i <= polycubes.len(),
            v == polycubes@,
            largest == greatest_dimension(v),
            r.len() == largest + 1,
            forall|k: int| 0 <= k < v.len() ==> coords_within(#[trigger] v[k]@, 126),
            forall|k: int| 0 <= k < v.len() ==> max_dimension(#[trigger] v[k]@) <= greatest_dimension(v),
            forall|k: int| 0 <= k < v.len() ==> 0 <= max_dimension(#[trigger] v[k]@),
            forall|d: int| 0 <= d < r.len() ==> #[trigger] r[d] == count_dimension(v.subrange(0, i as int), d),
        decreases polycubes.len() - i,
    {
        let ghost pre = v.subrange(0, i as int);
        assert(v.subrange(0, i + 1).drop_last() =~= pre);
        assert(v.subrange(0, i + 1).last() == v[i as int]);
        let d = largest_extent(&polycubes[i]);
        proof {
            lemma_count_dimension_bound(pre, d as int);
        }
        r.set(d, r[d] + 1);
        i = i + 1;
    }
    assert(v.subrange(0, v.len() as int) =~= v);
    r
}

/// The largest extent of a shape that starts at zero.
fn largest_extent(p: &Polycube) -> (r: usize)
    requires
        coords_within(p@, 126),
    ensures
        r == max_dimension(p@),
{
    proof {
        assert forall|i: int| 0 <= i < p@.len() implies (#[trigger] p@[i]).x < 127 && p@[i].y < 127 && p@[i].z < 127 by {
        }
        if p@.len() > 0 {
            lemma_max_coord(p@, 0);
            lemma_max_coord(p@, 1);
            lemma_max_coord(p@, 2);
            assert(coord(p@[0], 0) <= max_coord(p@, 0) && coord(p@[0], 1) <= max_coord(p@, 1) && coord(p@[0], 2) <= max_coord(p@, 2));
        }
    }
    let (x, y, z) = p.get_dimensions();
    let m = if x >= y && x >= z {
        x
    } else if y >= z {
        y
    } else {
        z
    };
    m as usize
}

/// The decimal digit for `d` in `0 ..= 9`.
pub open spec fn digit_char(d: nat) -> char {
    if d == 0 {
        '0'
    } else if d == 1 {
        '1'
    } else if d == 2 {
        '2'
    } else if d == 3 {
        '3'
    } else if d == 4 {
        '4'
    } else if d == 5 {
        '5'
    } else if d == 6 {
        '6'
    } else if d == 7 {
        '7'
    } else if d == 8 {
        '8'
    } else {
        '9'
    }
}

/// The decimal digits of `n`, without leading zeros.
pub open spec fn digits(n: nat) -> Seq<char>
    decreases n,
{
    if n < 10 {
        seq![digit_char(n)]
    } else {
        digits(n / 10) + seq![digit_char(n % 10)]
    }
}

/// The decimal text of `v`, with a minus sign when negative.
pub open spec fn decimal(v: int) -> Seq<char> {
    if v < 0 {
        seq!['-'] + digits((-v) as nat)
    } else {
        digits(v as nat)
    }
}

/// Appends the decimal digit `d`.
fn push_digit(out: &mut String, d: u8)
    requires
        d < 10,
    ensures
        final(out)@ == old(out)@ + seq![digit_char(d as nat)],
{
    if d == 0 {
        out.append("0");
        proof {
            reveal_strlit("0");
        }
    } else if d == 1 {
        out.append("1");
        proof {
            reveal_strlit("1");
        }
    } else if d == 2 {
        out.append("2");
        proof {
            reveal_strlit("2");
        }
    } else if d == 3 {
        out.append("3");
        proof {
            reveal_strlit("3");
        }
    } else if d == 4 {
        out.append("4");
        proof {
            reveal_strlit("4");
        }
    } else if d == 5 {
        out.append("5");
        proof {
            reveal_strlit("5");
        }
    } else if d == 6 {
        out.append("6");
        proof {
            reveal_strlit("6");
        }
    } else if d == 7 {
        out.append("7");
        proof {
            reveal_strlit("7");
        }
    } else if d == 8 {
        out.append("8");
        proof {
            reveal_strlit("8");
        }
    } else if d == 9 {
        out.append("9");
        proof {
            reveal_strlit("9");
        }
    }
}

/// The decimal text of `v`, with a minus sign when negative.
fn decimal_text(v: i8) -> (r: String)
    ensures
        r@ == decimal(v as int),
{
    let mut out = String::new();
    let mut n: i16 = v as i16;
    if n < 0 {
        out.append("-");
        proof {
            reveal_strlit("-");
        }
        n = -n;
    }
    let m = n as u8;
    let ghost head = out@;
    proof {
        assert(head == if v < 0 { seq!['-'] } else { Seq::<char>::empty() });
        assert(m as int == if v < 0 { -(v as int) } else { v as int });
    }
    if m >= 100 {
        push_digit(&mut out, m / 100);
        push_digit(&mut out, (m / 10) % 10);
        push_digit(&mut out, m % 10);
        proof {
            assert(digits((m / 100) as nat) == seq![digit_char((m / 100) as nat)]);
            assert(digits((m / 10) as nat) == digits((m / 100) as nat) + seq![digit_char(((m / 10) % 10) as nat)]);
            assert(digits(m as nat) == digits((m / 10) as nat) + seq![digit_char((m % 10) as nat)]);
        }
    } else if m >= 10 {
        push_digit(&mut out, m / 10);
        push_digit(&mut out, m % 10);
        proof {
            assert(digits((m / 10) as nat) == seq![digit_char((m / 10) as nat)]);
            assert(digits(m as nat) == digits((m / 10) as nat) + seq![digit_char((m % 10) as nat)]);
        }
    } else {
        push_digit(&mut out, m);
        proof {
            assert(digits(m as nat) == seq![digit_char(m as nat)]);
        }
    }
    proof {
        assert(out@ =~= head + digits(m as nat));
    }
    out
}

/// `#` where the shape has a cube, `.` elsewhere.
pub open spec fn cell_text(s: Seq<Pos>, x: int, y: int, z: int) -> Seq<char> {
    if s.contains(Pos { x: x as i8, y: y as i8, z: z as i8 }) {
        "#"@
    } else {
        "."@
    }
}

/// The cells of row `y` of layer `z` for `x` from `lo` up to `x_end`, exclusive.
pub open spec fn row_cells(s: Seq<Pos>, y: int, z: int, lo: int, x_end: int) -> Seq<char>
    decreases x_end - lo,
{
    if x_end <= lo {
        Seq::empty()
    } else {
        row_cells(s, y, z, lo, x_end - 1) + cell_text(s, x_end - 1, y, z)
    }
}

/// The first `k` rows of layer `z`, from the greatest y down.
pub open spec fn layer_rows(s: Seq<Pos>, z: int, k: int) -> Seq<char>
    decreases k,
{
    if k <= 0 {
        Seq::empty()
    } else {
        layer_rows(s, z, k - 1) + row_cells(
            s,
            max_coord(s, 1) - (k - 1),
            z,
            min_coord(s, 0),
            max_coord(s, 0) + 1,
        ) + "\n"@
    }
}

/// Layer `z` drawn with its heading and a blank line after it.
pub open spec fn layer_text(s: Seq<Pos>, z: int) -> Seq<char> {
    "Layer z="@ + decimal(z) + "\n"@ + layer_rows(s, z, max_coord(s, 1) - min_coord(s, 1) + 1) + "\n"@
}

/// The first `k` layers, from the least z up.
pub open spec fn layers_text(s: Seq<Pos>, k: int) -> Seq<char>
    decreases k,
{
    if k <= 0 {
        Seq::empty()
    } else {
        layers_text(s, k - 1) + layer_text(s, min_coord(s, 2) + (k - 1))
    }
}

/// The drawing of a shape layer by layer.
pub open spec fn drawing(s: Seq<Pos>) -> Seq<char> {
    if s.len() == 0 {
        "Empty polycube"@
    } else {
        layers_text(s, max_coord(s, 2) - min_coord(s, 2) + 1)
    }
}

/// Draws the shape one z layer at a time, least z first: a heading, then
/// one line per y from the greatest down, `#` for a cube and `.` for none.
pub fn polycube_to_string(polycube: &Polycube) -> (r: String)
    ensures
        r@ == drawing(polycube@),
{
    let ghost s = polycube@;
    if polycube.cubes.len() == 0 {
        return String::from_str("Empty polycube");
    }
    proof {
        lemma_min_coord(s, 0);
        lemma_min_coord(s, 1);
        lemma_min_coord(s, 2);
        lemma_max_coord(s, 0);
        lemma_max_coord(s, 1);
        lemma_max_coord(s, 2);
        assert(min_coord(s, 0) <= coord(s[0], 0) <= max_coord(s, 0));
        assert(min_coord(s, 1) <= coord(s[0], 1) <= max_coord(s, 1));
        assert(min_coord(s, 2) <= coord(s[0], 2) <= max_coord(s, 2));
    }
    let min_x = least_coord(&polycube.cubes, 0) as i16;
    let max_x = greatest_coord(&polycube.cubes, 0) as i16;
    let min_y = least_coord(&polycube.cubes, 1) as i16;
    let max_y = greatest_coord(&polycube.cubes, 1) as i16;
    let min_z = least_coord(&polycube.cubes, 2) as i16;
    let max_z = greatest_coord(&polycube.cubes, 2) as i16;
    let mut result = String::new();
    let mut z: i16 = min_z;
    while z <= max_z
        invariant
            s == polycube@,
            -128 <= min_x <= max_x <= 127,
            -128 <= min_y <= max_y <= 127,
            -128 <= min_z <= z <= max_z + 1,
            max_z <= 127,
            min_x == min_coord(s, 0) && max_x == max_coord(s, 0),
            min_y == min_coord(s, 1) && max_y == max_coord(s, 1),
            min_z == min_coord(s, 2) && max_z == max_coord(s, 2),
            result@ == layers_text(s, z - min_z),
        decreases max_z + 1 - z,
    {
        let ghost before = result@;
        result.append("Layer z=");
        let label = decimal_text(z as i8);
        result.append(label.as_str());
        result.append("\n");
        let ghost head = result@;
        let mut y: i16 = max_y;
        while y >= min_y
            invariant
                s == polycube@,
                -128 <= min_x <= max_x <= 127,
                -128 <= min_y <= max_y <= 127,
                min_y - 1 <= y <= max_y,
                -128 <= z <= 127,
                min_x == min_coord(s, 0) && max_x == max_coord(s, 0),
                min_y == min_coord(s, 1) && max_y == max_coord(s, 1),
                result@ == head + layer_rows(s, z as int, max_y - y),
            decreases y - min_y + 1,
        {
            let ghost row_start = result@;
            let mut x: i16 = min_x;
            while x <= max_x
                invariant
                    s == polycube@,
                    -128 <= min_x <= x <= max_x + 1,
                    max_x <= 127,
                    -128 <= y <= 127,
                    -128 <= z <= 127,
                    result@ == row_start + row_cells(s, y as int, z as int, min_x as int, x as int),
                decreases max_x + 1 - x,
            {
                if position_in(&polycube.cubes, Pos::new(x as i8, y as i8, z as i8)) {
                    result.append("#");
                } else {
                    result.append(".");
                }
                x = x + 1;
            }
            result.append("\n");
            proof {
                assert(max_y - (y - 1) - 1 == max_y - y);
            }
            y = y - 1;
        }
        result.append("\n");
        proof {
            assert(result@ =~= before + layer_text(s, z as int));
        }
        z = z + 1;
    }
    result
}

} // verus!
