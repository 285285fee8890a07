//! Counting shapes without keeping them: fixed shapes (distinct up to
//! translation only) are enumerated breadth-first, or depth-first from small
//! seed shapes in parallel; the count up to rotation comes from known values
//! or, above them, from the fixed count divided by 24.
use vstd::prelude::*;

use rayon::prelude::{IntoParallelRefIterator, ParallelIterator};
use rustc_hash::FxHashSet;

use crate::generator::{
    coords_within, generate_polycubes, get_known_count, grown, known_count, lemma_domino_shape,
    lemma_grown_bounds, lemma_grown_connected, lemma_unit_shape, passes_check,
};
use crate::hashing::{fx_hash_of, fx_hash_positions, key_set_contains, key_set_contents, key_set_insert, new_key_set};
use crate::polycube::{
    coord, copy_positions, frontier_positions, in_frontier, is_normalized, lemma_frontier_nonempty,
    growth_ordered, lemma_growth_order, lemma_growth_prefix_connected, lemma_growth_span, lemma_min_coord,
    lemma_min_coord_unique, lemma_normalize_connected, lemma_perm_connected, min_coord,
    normalize_seq, positions_connected, span_fits, touches_earlier, translated_to_origin,
};
use crate::position::{
    adjacent, lemma_sort_seq, lemma_sorted_is_sort_seq, pos_order, shifted, sort_positions, sort_seq,
    Pos,
};
use crate::rotation::{lemma_normalize_perm, lemma_normalize_shifted};
use vstd::relations::sorted_by;

verus! {

/// Settings of the counting engine.
#[derive(Clone)]
pub struct CounterConfig {
    /// Worker threads; one or fewer selects the single-threaded search.
    pub threads: usize,
    /// Whether callers report progress while counting.
    pub show_progress: bool,
}

/// Relies on `num_cpus::get`: the number of CPUs this process may use;
/// nothing is promised of the value.
#[verifier::external_body]
fn available_threads() -> (r: usize) {
    num_cpus::get()
}

impl Default for CounterConfig {
    /// As many threads as the machine offers, with progress shown.
    fn default() -> (r: CounterConfig)
        ensures
            r.show_progress,
    {
        CounterConfig { threads: available_threads(), show_progress: true }
    }
}

/// The translation-canonical form: moved to the origin and sorted.
pub open spec fn fixed_form(s: Seq<Pos>) -> Seq<Pos> {
    sort_seq(normalize_seq(s))
}

/// A fixed shape of `m` cubes in translation-canonical form: sorted, at the
/// origin, every coordinate below `m`, no cube repeated, face-connected.
pub open spec fn fixed_shape(s: Seq<Pos>, m: int) -> bool {
    &&& 1 <= m
    &&& s.len() == m
    &&& coords_within(s, m - 1)
    &&& is_normalized(s)
    &&& passes_check(s)
    &&& sorted_by(s, pos_order())
}

/// `r` distinct fixed shapes of `n` cubes exist: the count never counts a
/// shape twice nor counts anything that is not such a shape.
pub open spec fn counts_distinct_fixed(n: int, r: u64) -> bool {
    exists|found: Seq<Seq<Pos>>|
        found.len() == r && found.no_duplicates() && forall|i: int|
            0 <= i < found.len() ==> fixed_shape(#[trigger] found[i], n)
}

/// Sorting a shape at the origin keeps it at the origin and in range.
proof fn lemma_sorted_bounds(g: Seq<Pos>, hi: int)
    requires
        g.len() > 0,
        coords_within(g, hi),
        is_normalized(g),
    ensures
        sort_seq(g).len() == g.len(),
        coords_within(sort_seq(g), hi),
        is_normalized(sort_seq(g)),
        sorted_by(sort_seq(g), pos_order()),
{
    let t = sort_seq(g);
    lemma_sort_seq(g);
    g.to_multiset_ensures();
    t.to_multiset_ensures();
    assert forall|i: int| 0 <= i < t.len() implies g.contains(#[trigger] t[i]) by {
        assert(t.to_multiset().count(t[i]) > 0);
    }
    assert forall|i: int| 0 <= i < t.len() implies 0 <= (#[trigger] t[i]).x <= hi && 0 <= t[i].y
        <= hi && 0 <= t[i].z <= hi by {
        assert(g.contains(t[i]));
        let j = choose|j: int| 0 <= j < g.len() && g[j] == t[i];
    }
    assert forall|a: int| 0 <= a < 3 implies min_coord(t, a) == 0 by {
        lemma_min_coord(g, a);
        let j = choose|j: int| 0 <= j < g.len() && min_coord(g, a) == coord(#[trigger] g[j], a);
        assert(g.to_multiset().count(g[j]) > 0);
        let k = choose|k: int| 0 <= k < t.len() && t[k] == g[j];
        assert forall|i: int| 0 <= i < t.len() implies 0 <= coord(#[trigger] t[i], a) by {
            assert(0 <= t[i].x && 0 <= t[i].y && 0 <= t[i].z);
        }
        lemma_min_coord_unique(t, a, 0);
    }
}

/// Moves the positions so that the least coordinate on each axis is zero,
/// then sorts them.
pub fn canonicalize_in_place(positions: &mut Vec<Pos>)
    requires
        span_fits(old(positions)@),
    ensures
        final(positions)@ == fixed_form(old(positions)@),
{
    let mut moved = translated_to_origin(positions);
    sort_positions(&mut moved);
    *positions = moved;
}

/// The digest that the counting engine deduplicates by.
fn hash_polycube(positions: &[Pos]) -> (r: u64)
    ensures
        r == fx_hash_of(positions@),
{
    fx_hash_positions(positions)
}

/// `shape` with `q` added, in translation-canonical form.
fn grow_fixed(shape: &Vec<Pos>, q: Pos) -> (r: Vec<Pos>)
    requires
        fixed_shape(shape@, shape.len() as int),
        shape.len() <= 125,
        in_frontier(shape@, q),
    ensures
        r@ == sort_seq(grown(shape@, q)),
        r.len() == shape.len() + 1,
        coords_within(r@, shape.len() as int),
        is_normalized(r@),
        sorted_by(r@, pos_order()),
{
    proof {
        lemma_grown_bounds(shape@, q);
        lemma_sorted_bounds(grown(shape@, q), shape.len() as int);
    }
    let mut next = copy_positions(shape);
    next.push(q);
    assert(next@ =~= shape@.push(q));
    canonicalize_in_place(&mut next);
    next
}

/// Fixed shapes in translation-canonical form that growth from `base`
/// reaches with `m` cubes: `base` itself for its own size, and for more
/// every shape of the level below with one frontier position added.
pub open spec fn in_level_from(base: Seq<Pos>, t: Seq<Pos>, m: int) -> bool
    decreases m,
{
    if m <= base.len() {
        t == base
    } else {
        exists|s: Seq<Pos>, q: Pos|
            in_level_from(base, s, m - 1) && in_frontier(s, q) && t == #[trigger] sort_seq(grown(s, q))
    }
}

/// The unit cube at the origin.
pub open spec fn unit_shape() -> Seq<Pos> {
    seq![Pos { x: 0, y: 0, z: 0 }]
}

/// How many shapes growth from `base` reaches with `m` cubes.
pub open spec fn reach_count(base: Seq<Pos>, m: int) -> nat {
    Set::new(|t: Seq<Pos>| in_level_from(base, t, m)).len()
}

/// How many shapes growth reaches with `m` cubes.
pub open spec fn fixed_level_count(m: int) -> nat {
    reach_count(unit_shape(), m)
}

/// No two different fixed shapes of at most `m` cubes share a digest.
pub open spec fn digests_distinct_up_to(m: int) -> bool {
    forall|s: Seq<Pos>, t: Seq<Pos>|
        fixed_shape(s, s.len() as int) && fixed_shape(t, t.len() as int) && s.len() <= m && t.len()
            <= m && #[trigger] fx_hash_of(s) == #[trigger] fx_hash_of(t) ==> s == t
}

/// Some shape of the list is `t`.
pub open spec fn listed(v: Seq<Vec<Pos>>, t: Seq<Pos>) -> bool {
    exists|i: int| 0 <= i < v.len() && #[trigger] v[i]@ == t
}

/// The shapes of the list are pairwise different by digest.
pub open spec fn digests_differ(v: Seq<Vec<Pos>>) -> bool {
    forall|i: int, j: int|
        0 <= i < v.len() && 0 <= j < v.len() && i != j ==> fx_hash_of(#[trigger] v[i]@) != fx_hash_of(
            #[trigger] v[j]@,
        )
}

/// Every shape of the list is a fixed shape of `m` cubes that growth from
/// `base` reaches.
pub open spec fn level_shapes(v: Seq<Vec<Pos>>, base: Seq<Pos>, m: int) -> bool {
    forall|i: int|
        0 <= i < v.len() ==> fixed_shape(#[trigger] v[i]@, m) && in_level_from(base, v[i]@, m)
}

/// Every key is the digest of a shape met, each a fixed shape of at most
/// `m` cubes.
pub open spec fn keys_met(keys: Set<u64>, met: Set<Seq<Pos>>, m: int) -> bool {
    &&& forall|k: u64| #[trigger]
        keys.contains(k) ==> exists|t: Seq<Pos>| #[trigger] met.contains(t) && fx_hash_of(t) == k
    &&& forall|t: Seq<Pos>| #[trigger]
        met.contains(t) ==> fixed_shape(t, t.len() as int) && t.len() <= m
}

/// Shapes that growth from a fixed shape reaches are fixed shapes.
pub proof fn lemma_level_shape(base: Seq<Pos>, t: Seq<Pos>, m: int)
    requires
        fixed_shape(base, base.len() as int),
        base.len() <= m <= 127,
        in_level_from(base, t, m),
    ensures
        fixed_shape(t, m),
    decreases m,
{
    if m > base.len() {
        let (s, q) = choose|s: Seq<Pos>, q: Pos|
            in_level_from(base, s, m - 1) && in_frontier(s, q) && t == #[trigger] sort_seq(grown(s, q));
        lemma_level_shape(base, s, m - 1);
        lemma_grown_bounds(s, q);
        lemma_grown_connected(s, q);
        lemma_sorted_bounds(grown(s, q), m - 1);
        lemma_sort_seq(grown(s, q));
        lemma_perm_connected(grown(s, q), t);
    }
}


/// Moving a shape whose coordinates lie within `b` of each other to the
/// origin puts every coordinate in `0 ..= b`.
proof fn lemma_normalize_bounds(x: Seq<Pos>, b: int)
    requires
        x.len() > 0,
        0 <= b <= 126,
        forall|i: int, j: int|
            0 <= i < x.len() && 0 <= j < x.len() ==> {
                &&& #[trigger] x[i].x - #[trigger] x[j].x <= b
                &&& x[i].y - x[j].y <= b
                &&& x[i].z - x[j].z <= b
            },
    ensures
        span_fits(x),
        normalize_seq(x).len() == x.len(),
        coords_within(normalize_seq(x), b),
        is_normalized(normalize_seq(x)),
        forall|i: int|
            0 <= i < x.len() ==> (#[trigger] normalize_seq(x)[i]).x == x[i].x - min_coord(x, 0)
                && normalize_seq(x)[i].y == x[i].y - min_coord(x, 1) && normalize_seq(x)[i].z == x[i].z
                - min_coord(x, 2),
{
    let n = normalize_seq(x);
    lemma_min_coord(x, 0);
    lemma_min_coord(x, 1);
    lemma_min_coord(x, 2);
    let i0 = choose|i: int| 0 <= i < x.len() && min_coord(x, 0) == coord(#[trigger] x[i], 0);
    let i1 = choose|i: int| 0 <= i < x.len() && min_coord(x, 1) == coord(#[trigger] x[i], 1);
    let i2 = choose|i: int| 0 <= i < x.len() && min_coord(x, 2) == coord(#[trigger] x[i], 2);
    assert forall|i: int| 0 <= i < x.len() implies (#[trigger] n[i]).x == x[i].x - min_coord(x, 0)
        && n[i].y == x[i].y - min_coord(x, 1) && n[i].z == x[i].z - min_coord(x, 2) && 0 <= n[i].x <= b
        && 0 <= n[i].y <= b && 0 <= n[i].z <= b by {
        assert(min_coord(x, 0) <= coord(x[i], 0) && min_coord(x, 1) <= coord(x[i], 1) && min_coord(x, 2) <= coord(x[i], 2));
        assert(x[i].x - x[i0].x <= b && x[i].y - x[i1].y <= b && x[i].z - x[i2].z <= b);
    }
    assert forall|a: int| 0 <= a < 3 implies min_coord(n, a) == 0 by {
        let w = if a == 0 { i0 } else if a == 1 { i1 } else { i2 };
        assert(coord(n[w], a) == 0);
        assert forall|i: int| 0 <= i < n.len() implies 0 <= coord(#[trigger] n[i], a) by {
            assert(0 <= n[i].x && 0 <= n[i].y && 0 <= n[i].z);
        }
        lemma_min_coord_unique(n, a, 0);
    }
}

/// A shape already at the origin is left as it is by moving it there.
proof fn lemma_normalize_identity(t: Seq<Pos>, m: int)
    requires
        fixed_shape(t, m),
    ensures
        normalize_seq(t) == t,
{
    assert forall|i: int| 0 <= i < t.len() implies normalize_seq(t)[i] == t[i] by {
        assert(0 <= t[i].x && 0 <= t[i].y && 0 <= t[i].z);
    }
    assert(normalize_seq(t) =~= t);
}

/// The first `m - 1` cubes of a growth order of a fixed shape of `m` cubes,
/// moved to the origin and sorted, form a fixed shape; every cube of the
/// growth order lies in `0 ..= m - 1`.
proof fn lemma_prefix_fixed(t: Seq<Pos>, m: int, o: Seq<Pos>)
    requires
        2 <= m <= 126,
        fixed_shape(t, m),
        o.no_duplicates(),
        growth_ordered(o),
        o.len() == t.len(),
        o.to_multiset() == t.to_multiset(),
    ensures
        forall|i: int| 0 <= i < o.len() ==> 0 <= (#[trigger] o[i]).x <= m - 1 && 0 <= o[i].y <= m - 1
            && 0 <= o[i].z <= m - 1,
        fixed_shape(sort_seq(normalize_seq(o.take(m - 1))), m - 1),
{
        o.to_multiset_ensures();
        t.to_multiset_ensures();
        assert forall|i: int| 0 <= i < o.len() implies 0 <= (#[trigger] o[i]).x <= m - 1 && 0 <= o[i].y
            <= m - 1 && 0 <= o[i].z <= m - 1 by {
            assert(o.to_multiset().count(o[i]) > 0);
            assert(t.contains(o[i]));
            let j = choose|j: int| 0 <= j < t.len() && t[j] == o[i];
        }
        lemma_growth_prefix_connected(o, m - 1);
        let op = o.take(m - 1);
        lemma_growth_span(op, m - 1);
        let g = normalize_seq(op);
        lemma_normalize_bounds(op, m - 2);
        lemma_normalize_connected(op);
        let s = sort_seq(g);
        lemma_sorted_bounds(g, m - 2);
        lemma_sort_seq(g);
        lemma_perm_connected(g, s);
        assert(fixed_shape(s, m - 1));
}

/// Every fixed shape of `m` cubes is reached by growth from the unit cube.
#[verifier::rlimit(100)]
pub proof fn lemma_fixed_in_level(t: Seq<Pos>, m: int)
    requires
        1 <= m <= 126,
        fixed_shape(t, m),
    ensures
        in_level_from(unit_shape(), t, m),
    decreases m,
{
    if m == 1 {
        assert(0 <= t[0].x <= 0 && 0 <= t[0].y <= 0 && 0 <= t[0].z <= 0);
        assert(t =~= unit_shape());
    } else {
        let o = lemma_growth_order(t);
        lemma_prefix_fixed(t, m, o);
        o.to_multiset_ensures();
        t.to_multiset_ensures();
        let op = o.take(m - 1);
        let g = normalize_seq(op);
        let s = sort_seq(g);
        lemma_sort_seq(g);
        lemma_growth_prefix_connected(o, m - 1);
        lemma_growth_span(op, m - 1);
        lemma_normalize_bounds(op, m - 2);
        lemma_fixed_in_level(s, m - 1);
        let mn = Pos { x: min_coord(op, 0) as i8, y: min_coord(op, 1) as i8, z: min_coord(op, 2) as i8 };
        lemma_min_coord(op, 0);
        lemma_min_coord(op, 1);
        lemma_min_coord(op, 2);
        assert(op[0] == o[0]);
        assert(min_coord(op, 0) <= coord(op[0], 0) && min_coord(op, 1) <= coord(op[0], 1) && min_coord(op, 2) <= coord(op[0], 2));
        let j0 = choose|i: int| 0 <= i < op.len() && min_coord(op, 0) == coord(#[trigger] op[i], 0);
        let j1 = choose|i: int| 0 <= i < op.len() && min_coord(op, 1) == coord(#[trigger] op[i], 1);
        let j2 = choose|i: int| 0 <= i < op.len() && min_coord(op, 2) == coord(#[trigger] op[i], 2);
        assert(op[j0] == o[j0] && op[j1] == o[j1] && op[j2] == o[j2]);
        let q0 = o[m - 1];
        let q = shifted(q0, -mn.x, -mn.y, -mn.z);
        let y = g.push(q);
        assert forall|i: int| 0 <= i < o.len() implies #[trigger] y[i] == shifted(o[i], -mn.x, -mn.y, -mn.z)
            && -128 <= o[i].x - mn.x <= 127 && -128 <= o[i].y - mn.y <= 127 && -128 <= o[i].z - mn.z <= 127 by {
            if i < m - 1 {
                assert(op[i] == o[i]);
                assert(g[i] == shifted(op[i], -min_coord(op, 0), -min_coord(op, 1), -min_coord(op, 2)));
            }
        }
        // q is a frontier position of s
        g.to_multiset_ensures();
        s.to_multiset_ensures();
        if s.contains(q) {
            assert(s.to_multiset().count(q) > 0);
            let i = choose|i: int| 0 <= i < g.len() && g[i] == q;
            assert(op[i] == o[i]);
            assert(o[i] == q0);
        }
        assert(touches_earlier(o, m - 1));
        let w = choose|w: int| 0 <= w < m - 1 && #[trigger] adjacent(o[w], o[m - 1]);
        assert(op[w] == o[w]);
        assert(adjacent(g[w], q));
        assert(g.to_multiset().count(g[w]) > 0);
        let v = choose|v: int| 0 <= v < s.len() && s[v] == g[w];
        assert(in_frontier(s, q));
        // the grown shape is an arrangement of t
        assert(span_fits(o));
        lemma_normalize_shifted(o, y, mn);
        assert((s.push(q)).to_multiset() == y.to_multiset()) by {
            vstd::seq_lib::to_multiset_build(s, q);
            vstd::seq_lib::to_multiset_build(g, q);
        }
        lemma_normalize_perm(s.push(q), y);
        lemma_normalize_perm(o, t);
        lemma_normalize_identity(t, m);
        lemma_sorted_is_sort_seq(grown(s, q), t);
        assert(t == sort_seq(grown(s, q)));
    }
}


/// The number of fixed shapes of `n` cubes: fixed polycubes, distinct up to
/// translation only.
pub open spec fn fixed_polycube_count(n: int) -> nat {
    Set::new(|t: Seq<Pos>| fixed_shape(t, n)).len()
}

/// The shapes growth reaches from the unit cube are exactly the fixed shapes.
pub proof fn lemma_level_is_fixed(m: int)
    requires
        1 <= m <= 126,
    ensures
        forall|t: Seq<Pos>| #[trigger] in_level_from(unit_shape(), t, m) <==> fixed_shape(t, m),
        fixed_level_count(m) == fixed_polycube_count(m),
{
    lemma_unit_shape();
    assert(sorted_by(unit_shape(), pos_order()));
    assert forall|t: Seq<Pos>| #[trigger] in_level_from(unit_shape(), t, m) <==> fixed_shape(t, m) by {
        if in_level_from(unit_shape(), t, m) {
            lemma_level_shape(unit_shape(), t, m);
        }
        if fixed_shape(t, m) {
            lemma_fixed_in_level(t, m);
        }
    }
    assert(Set::new(|t: Seq<Pos>| in_level_from(unit_shape(), t, m)) =~= Set::new(
        |t: Seq<Pos>| fixed_shape(t, m),
    ));
}

/// The fixed shapes that growth from `seed` reaches with `size` cubes, in
/// translation-canonical form, found level by level with one set of digests
/// for the whole search; a shape whose digest was seen before is passed over,
/// so where no two fixed shapes of at most `size` cubes share a digest every
/// such shape is listed once.
pub fn levels_from(seed: Vec<Pos>, size: usize) -> (r: Vec<Vec<Pos>>)
    requires
        fixed_shape(seed@, seed.len() as int),
        seed.len() <= size <= 126,
    ensures
        level_shapes(r@, seed@, size as int),
        digests_differ(r@),
        digests_distinct_up_to(size as int) ==> forall|t: Seq<Pos>|
            #[trigger] in_level_from(seed@, t, size as int) ==> listed(r@, t),
        size == seed.len() ==> r.len() == 1,
{
    let ghost base = seed@;
    let mut seen: FxHashSet<u64> = new_key_set();
    key_set_insert(&mut seen, hash_polycube(seed.as_slice()));
    let ghost mut met: Set<Seq<Pos>> = Set::empty().insert(base);
    let mut current: usize = seed.len();
    let mut level: Vec<Vec<Pos>> = vec![seed];
    proof {
        assert(level@[0]@ == base);
        assert forall|k: u64| #[trigger] key_set_contents(seen).contains(k) implies exists|t: Seq<Pos>|
            #[trigger] met.contains(t) && fx_hash_of(t) == k by {
            assert(met.contains(base));
        }
        assert forall|t: Seq<Pos>| #[trigger] in_level_from(base, t, current as int) implies listed(level@, t) by {
            assert(level@[0]@ == t);
        }
    }
    while current < size
        invariant
            1 <= base.len() <= current <= size <= 126,
            level_shapes(level@, base, current as int),
            digests_differ(level@),
            current == base.len() ==> level.len() == 1,
            forall|i: int| 0 <= i < level.len() ==> key_set_contents(seen).contains(fx_hash_of(#[trigger] level[i]@)),
            keys_met(key_set_contents(seen), met, current as int),
            digests_distinct_up_to(size as int) ==> forall|t: Seq<Pos>|
                #[trigger] in_level_from(base, t, current as int) ==> listed(level@, t),
        decreases size - current,
    {
        let mut next: Vec<Vec<Pos>> = Vec::new();
        let mut a: usize = 0;
        while a < level.len()
            invariant
                1 <= base.len() <= current < size <= 126,
                a <= level.len(),
                level_shapes(level@, base, current as int),
                digests_distinct_up_to(size as int) ==> forall|t: Seq<Pos>|
                    #[trigger] in_level_from(base, t, current as int) ==> listed(level@, t),
                level_shapes(next@, base, current + 1),
                digests_differ(next@),
                forall|i: int| 0 <= i < next.len() ==> key_set_contents(seen).contains(fx_hash_of(#[trigger] next[i]@)),
                keys_met(key_set_contents(seen), met, current + 1),
                forall|t: Seq<Pos>| #[trigger] met.contains(t) && t.len() == current + 1 ==> listed(next@, t),
                digests_distinct_up_to(size as int) ==> forall|b: int, q: Pos|
                    0 <= b < a && #[trigger] in_frontier(level@[b]@, q) ==> listed(
                        next@,
                        sort_seq(grown(level@[b]@, q)),
                    ),
            decreases level.len() - a,
        {
            let shape = &level[a];
            assert(fixed_shape(shape@, current as int) && in_level_from(base, shape@, current as int));
            proof {
                assert forall|i: int| 0 <= i < shape@.len() implies crate::position::steppable(#[trigger] shape@[i]) by {
                }
            }
            let extensions = frontier_positions(shape);
            let mut e: usize = 0;
            while e < extensions.len()
                invariant
                    1 <= base.len() <= current < size <= 126,
                    a < level.len(),
                    *shape == level@[a as int],
                    e <= extensions.len(),
                    fixed_shape(shape@, current as int),
                    in_level_from(base, shape@, current as int),
                    shape.len() == current,
                    forall|q: Pos| extensions@.contains(q) <==> in_frontier(shape@, q),
                    level_shapes(next@, base, current + 1),
                    digests_differ(next@),
                    forall|i: int| 0 <= i < next.len() ==> key_set_contents(seen).contains(fx_hash_of(#[trigger] next[i]@)),
                    keys_met(key_set_contents(seen), met, current + 1),
                    forall|t: Seq<Pos>| #[trigger] met.contains(t) && t.len() == current + 1 ==> listed(next@, t),
                    digests_distinct_up_to(size as int) ==> forall|b: int, q: Pos|
                        0 <= b < a && #[trigger] in_frontier(level@[b]@, q) ==> listed(
                            next@,
                            sort_seq(grown(level@[b]@, q)),
                        ),
                    digests_distinct_up_to(size as int) ==> forall|k: int|
                        0 <= k < e ==> listed(next@, sort_seq(grown(shape@, #[trigger] extensions@[k]))),
                decreases extensions.len() - e,
            {
                let q = extensions[e];
                assert(extensions@.contains(q));
                let candidate = grow_fixed(shape, q);
                let ghost c = candidate@;
                proof {
                    lemma_grown_connected(shape@, q);
                    lemma_sort_seq(grown(shape@, q));
                    lemma_perm_connected(grown(shape@, q), c);
                    assert(fixed_shape(c, current + 1));
                    assert(in_level_from(base, c, current + 1));
                }
                let h = hash_polycube(candidate.as_slice());
                let ghost next0 = next@;
                if !key_set_contains(&seen, h) {
                    proof {
                        assert forall|i: int| 0 <= i < c.len() implies crate::position::steppable(#[trigger] c[i]) by {
                        }
                    }
                    if positions_connected(&candidate) {
                        let ghost keys0 = key_set_contents(seen);
                        key_set_insert(&mut seen, h);
                        next.push(candidate);
                        let ghost met0 = met;
                        proof {
                            met = met.insert(c);
                            assert(next@[next.len() - 1]@ == c);
                            assert forall|i: int| 0 <= i < next.len() implies key_set_contents(seen).contains(fx_hash_of(#[trigger] next@[i]@)) by {
                                if i < next0.len() {
                                    assert(next0[i] == next@[i]);
                                }
                            }
                            assert forall|i: int| 0 <= i < next.len() implies fixed_shape(#[trigger] next@[i]@, current + 1)
                                && in_level_from(base, next@[i]@, current + 1) by {
                                if i < next0.len() {
                                    assert(next0[i] == next@[i]);
                                }
                            }
                            assert forall|i: int, j: int|
                                0 <= i < next.len() && 0 <= j < next.len() && i != j implies fx_hash_of(#[trigger] next@[i]@)
                                    != fx_hash_of(#[trigger] next@[j]@) by {
                                if i < next0.len() {
                                    assert(next0[i] == next@[i]);
                                }
                                if j < next0.len() {
                                    assert(next0[j] == next@[j]);
                                }
                            }
                            assert forall|k: u64| #[trigger] key_set_contents(seen).contains(k) implies exists|t: Seq<Pos>|
                                #[trigger] met.contains(t) && fx_hash_of(t) == k by {
                                if k != h {
                                    assert(keys0.contains(k));
                                    let t = choose|t: Seq<Pos>| #[trigger] met0.contains(t) && fx_hash_of(t) == k;
                                    assert(met.contains(t));
                                } else {
                                    assert(met.contains(c) && fx_hash_of(c) == k);
                                }
                            }
                            assert forall|t: Seq<Pos>| #[trigger] met.contains(t) && t.len() == current + 1 implies listed(next@, t) by {
                                if t == c {
                                    assert(next@[next.len() - 1]@ == t);
                                } else {
                                    let i = choose|i: int| 0 <= i < next0.len() && #[trigger] next0[i]@ == t;
                                    assert(next0[i] == next@[i]);
                                }
                            }
                            assert forall|t: Seq<Pos>| listed(next0, t) implies listed(next@, t) by {
                                let i = choose|i: int| 0 <= i < next0.len() && #[trigger] next0[i]@ == t;
                                assert(next0[i] == next@[i]);
                            }
                        }
                    }
                }
                proof {
                    if digests_distinct_up_to(size as int) {
                        if key_set_contents(seen).contains(h) && !listed(next@, c) {
                            let t = choose|t: Seq<Pos>| #[trigger] met.contains(t) && fx_hash_of(t) == h;
                            assert(t == c);
                        }
                        assert(listed(next@, c));
                        assert forall|k: int| 0 <= k < e + 1 implies listed(next@, sort_seq(grown(shape@, #[trigger] extensions@[k]))) by {
                            if k < e {
                                assert(listed(next0, sort_seq(grown(shape@, extensions@[k]))));
                            }
                        }
                        assert forall|b: int, p: Pos|
                            0 <= b < a && #[trigger] in_frontier(level@[b]@, p) implies listed(
                                next@,
                                sort_seq(grown(level@[b]@, p)),
                            ) by {
                            assert(listed(next0, sort_seq(grown(level@[b]@, p))));
                        }
                    }
                }
                e = e + 1;
            }
            proof {
                if digests_distinct_up_to(size as int) {
                    assert forall|b: int, p: Pos|
                        0 <= b < a + 1 && #[trigger] in_frontier(level@[b]@, p) implies listed(
                            next@,
                            sort_seq(grown(level@[b]@, p)),
                        ) by {
                        if b == a {
                            assert(extensions@.contains(p));
                            let k = choose|k: int| 0 <= k < extensions.len() && extensions@[k] == p;
                            assert(listed(next@, sort_seq(grown(shape@, extensions@[k]))));
                        }
                    }
                }
            }
            a = a + 1;
        }
        proof {
            if digests_distinct_up_to(size as int) {
                assert forall|t: Seq<Pos>| #[trigger] in_level_from(base, t, current + 1) implies listed(next@, t) by {
                    let (s0, q) = choose|s0: Seq<Pos>, q: Pos|
                        in_level_from(base, s0, current as int) && in_frontier(s0, q) && t == #[trigger] sort_seq(grown(s0, q));
                    assert(listed(level@, s0));
                    let b = choose|b: int| 0 <= b < level.len() && #[trigger] level@[b]@ == s0;
                    assert(in_frontier(level@[b]@, q));
                }
            }
        }
        level = next;
        current = current + 1;
    }
    level
}

/// The fixed shapes that growth from the unit cube reaches with `size`
/// cubes (see `levels_from`). For two cubes, the x-domino alone.
pub fn generate_starting_polycubes(size: usize) -> (r: Vec<Vec<Pos>>)
    requires
        1 <= size <= 126,
    ensures
        forall|i: int| 0 <= i < r.len() ==> fixed_shape(#[trigger] r[i]@, size as int),
        digests_differ(r@),
        size != 2 ==> level_shapes(r@, unit_shape(), size as int),
        size != 2 && digests_distinct_up_to(size as int) ==> forall|t: Seq<Pos>|
            #[trigger] in_level_from(unit_shape(), t, size as int) ==> listed(r@, t),
        size != 2 && digests_distinct_up_to(size as int) ==> forall|t: Seq<Pos>|
            #[trigger] fixed_shape(t, size as int) ==> listed(r@, t),
        size == 1 ==> r.len() == 1 && r[0]@ == seq![Pos { x: 0, y: 0, z: 0 }],
        size == 2 ==> r.len() == 1 && r[0]@ == seq![Pos { x: 0, y: 0, z: 0 }, Pos { x: 1, y: 0, z: 0 }],
{
    proof {
        lemma_unit_shape();
        lemma_domino_shape();
    }
    if size == 2 {
        let r = vec![vec![Pos::new(0, 0, 0), Pos::new(1, 0, 0)]];
        proof {
            assert(r@[0]@ =~= seq![Pos { x: 0, y: 0, z: 0 }, Pos { x: 1, y: 0, z: 0 }]);
            assert(sorted_by(r@[0]@, pos_order()));
        }
        return r;
    }
    let start = vec![Pos::new(0, 0, 0)];
    proof {
        assert(start@ =~= unit_shape());
        assert(sorted_by(unit_shape(), pos_order()));
    }
    let r = levels_from(start, size);
    proof {
        lemma_level_is_fixed(size as int);
        if digests_distinct_up_to(size as int) {
            assert forall|t: Seq<Pos>| #[trigger] fixed_shape(t, size as int) implies listed(r@, t) by {
                assert(in_level_from(unit_shape(), t, size as int));
            }
        }
        if size == 1 {
            let t = r@[0]@;
            assert(in_level_from(unit_shape(), t, 1));
        }
    }
    r
}

/// How many fixed shapes `remaining` more cubes make of `positions`: the
/// completion of one seed, with one set of digests for its whole search; a
/// shape whose digest was seen before is passed over. Exact where no two
/// fixed shapes of at most the final size share a digest.
pub fn count_extensions_from(positions: &Vec<Pos>, remaining: usize, _config: &CounterConfig) -> (r: u64)
    requires
        fixed_shape(positions@, positions.len() as int),
        positions.len() + remaining <= 126,
    ensures
        remaining == 0 ==> r == 1,
        counts_distinct_fixed(positions.len() + remaining, r),
        digests_distinct_up_to(positions.len() + remaining) ==> r == reach_count(
            positions@,
            positions.len() + remaining,
        ),
{
    let size = positions.len() + remaining;
    let shapes = levels_from(copy_positions(positions), size);
    proof {
        lemma_level_list_count(shapes@, positions@, size as int);
    }
    shapes.len() as u64
}

/// The completion of one seed shape to `n` cubes.
pub fn count_from_seed(seed: &Vec<Pos>, n: usize, config: &CounterConfig) -> (r: u64)
    requires
        fixed_shape(seed@, seed.len() as int),
        seed.len() <= n <= 126,
    ensures
        seed.len() == n ==> r == 1,
        digests_distinct_up_to(n as int) ==> r == reach_count(seed@, n as int),
{
    count_extensions_from(seed, n - seed.len(), config)
}

/// Relies on rayon's `par_iter().map(..).collect()` into a `Vec`: the closure
/// runs once for every seed and the results keep the order of the seeds.
#[verifier::external_body]
fn count_seeds_in_parallel(seeds: &Vec<Vec<Pos>>, n: usize, config: &CounterConfig) -> (r: Vec<u64>)
    requires
        forall|i: int|
            0 <= i < seeds.len() ==> fixed_shape(#[trigger] seeds[i]@, seeds[i]@.len() as int)
                && seeds[i]@.len() <= n,
        n <= 126,
    ensures
        r.len() == seeds.len(),
        forall|i: int| 0 <= i < seeds.len() && seeds[i]@.len() == n ==> #[trigger] r[i] == 1,
        forall|i: int|
            0 <= i < seeds.len() && digests_distinct_up_to(n as int) ==> #[trigger] r[i]
                == reach_count(seeds[i]@, n as int),
{
    seeds.par_iter().map(|s| count_from_seed(s, n, config)).collect()
}

/// The size of the seed shapes for a parallel count of `n` cubes.
pub open spec fn seed_size(n: int) -> int {
    if n <= 10 {
        3
    } else {
        4
    }
}

/// A breadth-first count of fixed shapes of `n` cubes: `r` distinct fixed
/// shapes of that size were found, and where no two fixed shapes of at most
/// `n` cubes share a digest, `r` is the number of fixed shapes of `n` cubes.
pub open spec fn breadth_first_count(n: int, r: u64) -> bool {
    &&& counts_distinct_fixed(n, r)
    &&& digests_distinct_up_to(n) ==> r == fixed_polycube_count(n)
}

/// A seeded count for `n` cubes from seeds of `k` cubes: `r` is the
/// saturating sum of one count per seed; the seeds are distinct shapes that
/// growth reaches with `k` cubes, all of them where no two fixed shapes of at
/// most `k` cubes share a digest; each count is one when `k == n`, and where
/// no two fixed shapes of at most `n` cubes share a digest it is the number of
/// shapes growth reaches from that seed with `n` cubes.
pub open spec fn seeded_count(k: int, n: int, r: u64) -> bool {
    exists|seeds: Seq<Seq<Pos>>, counts: Seq<u64>|
        #![trigger saturating_sum(counts), seeds.len()]
        seeds.len() == counts.len() && seeds.no_duplicates() && (forall|i: int|
            0 <= i < seeds.len() ==> in_level_from(unit_shape(), #[trigger] seeds[i], k)) && (digests_distinct_up_to(
            k,
        ) ==> forall|t: Seq<Pos>| #[trigger] in_level_from(unit_shape(), t, k) ==> seeds.contains(t)) && (k == n
            ==> forall|i: int| 0 <= i < counts.len() ==> #[trigger] counts[i] == 1) && (
        digests_distinct_up_to(n) ==> forall|i: int|
            0 <= i < counts.len() ==> #[trigger] counts[i] == reach_count(seeds[i], n)) && r
            == saturating_sum(counts)
}

/// The shapes of a complete level list, as a sequence.
pub open spec fn shapes_of(v: Seq<Vec<Pos>>) -> Seq<Seq<Pos>> {
    Seq::new(v.len(), |i: int| v[i]@)
}

/// A level list's length counts its distinct fixed shapes, and is the size
/// of the level where digests are distinct.
proof fn lemma_level_list_count(v: Seq<Vec<Pos>>, base: Seq<Pos>, m: int)
    requires
        1 <= m <= 126,
        level_shapes(v, base, m),
        digests_differ(v),
        digests_distinct_up_to(m) ==> forall|t: Seq<Pos>| #[trigger] in_level_from(base, t, m) ==> listed(v, t),
    ensures
        shapes_of(v).no_duplicates(),
        forall|i: int| 0 <= i < v.len() ==> in_level_from(base, #[trigger] shapes_of(v)[i], m),
        digests_distinct_up_to(m) ==> forall|t: Seq<Pos>|
            #[trigger] in_level_from(base, t, m) ==> shapes_of(v).contains(t),
        digests_distinct_up_to(m) ==> v.len() == reach_count(base, m),
        v.len() <= u64::MAX ==> counts_distinct_fixed(m, v.len() as u64),
{
    let found = shapes_of(v);
    assert forall|i: int, j: int| 0 <= i < found.len() && 0 <= j < found.len() && i != j implies found[i]
        != found[j] by {
        assert(fx_hash_of(v[i]@) != fx_hash_of(v[j]@));
    }
    assert forall|i: int| 0 <= i < v.len() implies in_level_from(base, #[trigger] found[i], m) by {
        assert(fixed_shape(v[i]@, m) && in_level_from(base, v[i]@, m));
    }
    assert forall|i: int| 0 <= i < found.len() implies fixed_shape(#[trigger] found[i], m) by {
        assert(fixed_shape(v[i]@, m));
    }
    if digests_distinct_up_to(m) {
        assert forall|t: Seq<Pos>| #[trigger] in_level_from(base, t, m) implies found.contains(t) by {
            let i = choose|i: int| 0 <= i < v.len() && #[trigger] v[i]@ == t;
            assert(found[i] == t);
        }
        let level = Set::new(|t: Seq<Pos>| in_level_from(base, t, m));
        assert forall|t: Seq<Pos>| level.contains(t) <==> found.to_set().contains(t) by {
            if found.to_set().contains(t) {
                let i = choose|i: int| 0 <= i < found.len() && found[i] == t;
            }
        }
        assert(level =~= found.to_set());
        found.unique_seq_to_set();
    }
    if v.len() <= u64::MAX {
        assert(found.len() == v.len() as u64);
    }
}

/// The sum of the values, saturating at `u64::MAX`.
pub open spec fn saturating_sum(v: Seq<u64>) -> u64
    decreases v.len(),
{
    if v.len() == 0 {
        0
    } else {
        let rest = saturating_sum(v.drop_last());
        if rest + v.last() > u64::MAX {
            u64::MAX
        } else {
            (rest + v.last()) as u64
        }
    }
}

/// A sum of ones is the number of terms.
proof fn lemma_saturating_sum_ones(v: Seq<u64>)
    requires
        v.len() <= u64::MAX,
        forall|i: int| 0 <= i < v.len() ==> #[trigger] v[i] == 1,
    ensures
        saturating_sum(v) == v.len(),
    decreases v.len(),
{
    if v.len() > 0 {
        lemma_saturating_sum_ones(v.drop_last());
    }
}

/// Adds up the counts, saturating at `u64::MAX`.
pub fn sum_counts(counts: &Vec<u64>) -> (r: u64)
    ensures
        r == saturating_sum(counts@),
{
    let mut total: u64 = 0;
    let mut i: usize = 0;
    while i < counts.len()
        invariant
            i <= counts.len(),
            total == saturating_sum(counts@.subrange(0, i as int)),
        decreases counts.len() - i,
    {
        assert(counts@.subrange(0, i + 1).drop_last() =~= counts@.subrange(0, i as int));
        total = total.saturating_add(counts[i]);
        i = i + 1;
    }
    assert(counts@.subrange(0, counts.len() as int) =~= counts@);
    total
}

/// Fixed shapes of `n` cubes counted from the seed shapes (of three cubes,
/// or four from eleven cubes on) in parallel, one depth-first search per
/// seed, the partial counts added up.
pub fn count_fixed_polycubes_parallel(n: usize, config: &CounterConfig) -> (r: u64)
    requires
        n <= 126,
    ensures
        n <= 2 ==> r == 1,
        n >= 3 ==> seeded_count(seed_size(n as int), n as int, r),
        n == 3 ==> breadth_first_count(3, r),
{
    if n <= 2 {
        return 1;
    }
    let starting_size: usize = if n <= 10 {
        3
    } else {
        4
    };
    let starting_polycubes = generate_starting_polycubes(starting_size);
    let counts = count_seeds_in_parallel(&starting_polycubes, n, config);
    proof {
        lemma_level_list_count(starting_polycubes@, unit_shape(), starting_size as int);
        lemma_level_is_fixed(starting_size as int);
        let seeds = shapes_of(starting_polycubes@);
        if n == starting_size {
            assert forall|i: int| 0 <= i < counts@.len() implies #[trigger] counts@[i] == 1 by {
                assert(fixed_shape(starting_polycubes[i]@, starting_size as int));
            }
            lemma_saturating_sum_ones(counts@);
        }
        assert(seeds.len() == counts@.len());
        assert(seeded_count(seed_size(n as int), n as int, saturating_sum(counts@)));
    }
    sum_counts(&counts)
}

/// Fixed shapes of `n` cubes counted breadth-first in one thread.
pub fn count_fixed_polycubes_improved(n: usize, _config: &CounterConfig) -> (r: u64)
    requires
        n <= 126,
    ensures
        n <= 2 ==> r == 1,
        n >= 3 ==> breadth_first_count(n as int, r),
{
    if n <= 2 {
        return 1;
    }
    let shapes = generate_starting_polycubes(n);
    proof {
        lemma_level_list_count(shapes@, unit_shape(), n as int);
        lemma_level_is_fixed(n as int);
    }
    shapes.len() as u64
}

/// A fixed count from eight cubes on: the breadth-first count, or the
/// seeded count, as the number of threads selects.
pub open spec fn fixed_count(n: int, r: u64) -> bool {
    breadth_first_count(n, r) || seeded_count(seed_size(n), n, r)
}

/// The configuration given, or the default one.
fn config_or_default(config: Option<CounterConfig>) -> (r: CounterConfig)
    ensures
        config is Some ==> r == config->0,
{
    match config {
        Some(c) => c,
        None => CounterConfig::default(),
    }
}

/// Fixed shapes of `n` cubes: one for one or two cubes; the known count up
/// to rotation for three to seven cubes; from eight on the single-threaded
/// breadth-first count where at most one thread is configured, else the
/// parallel count from seed shapes.
pub fn count_fixed_polycubes(n: usize, config: Option<CounterConfig>) -> (r: u64)
    requires
        n <= 126,
    ensures
        n <= 2 ==> r == 1,
        3 <= n <= 7 ==> known_count(n as int) == Some(r),
        n >= 8 && config is Some && config->0.threads <= 1 ==> breadth_first_count(n as int, r),
        n >= 8 && config is Some && config->0.threads > 1 ==> seeded_count(
            seed_size(n as int),
            n as int,
            r,
        ),
        n >= 8 ==> fixed_count(n as int, r),
{
    let config = config_or_default(config);
    if n <= 2 {
        return 1;
    }
    if n <= 7 {
        return match get_known_count(n as u8) {
            Some(c) => c,
            None => generate_polycubes(n as u8).len() as u64,
        };
    }
    if config.threads <= 1 {
        count_fixed_polycubes_improved(n, &config)
    } else {
        count_fixed_polycubes_parallel(n, &config)
    }
}

/// The count up to rotation given the fixed count: exact known values up to
/// twelve cubes, and above that the fixed count divided by 24, which is only
/// an estimate since shapes with rotational symmetry are counted short.
pub fn free_count_from_fixed(n: usize, fixed: u64) -> (r: u64)
    ensures
        n <= 2 ==> r == 1,
        3 <= n <= 12 ==> known_count(n as int) == Some(r),
        n > 12 ==> r == fixed / 24,
{
    if n <= 2 {
        return 1;
    }
    match n {
        3 => 2,
        4 => 8,
        5 => 29,
        6 => 166,
        7 => 1023,
        8 => 6922,
        9 => 48311,
        10 => 346543,
        11 => 2522522,
        12 => 18598427,
        _ => fixed / 24,
    }
}

/// Shapes of `n` cubes up to rotation: known values up to twelve cubes,
/// above that the fixed count divided by 24 (an estimate).
pub fn count_free_polycubes(n: usize, config: Option<CounterConfig>) -> (r: u64)
    requires
        n <= 126,
    ensures
        n <= 2 ==> r == 1,
        3 <= n <= 12 ==> known_count(n as int) == Some(r),
        n > 12 && config is Some && config->0.threads <= 1 ==> exists|f: u64|
            #[trigger] breadth_first_count(n as int, f) && r == f / 24,
        n > 12 && config is Some && config->0.threads > 1 ==> exists|f: u64|
            #[trigger] seeded_count(4, n as int, f) && r == f / 24,
        n > 12 ==> exists|f: u64| #[trigger] fixed_count(n as int, f) && r == f / 24,
{
    if n <= 12 {
        return free_count_from_fixed(n, 0);
    }
    let fixed = count_fixed_polycubes(n, config);
    free_count_from_fixed(n, fixed)
}

/// Counts shapes of `n` cubes: up to rotation with `use_symmetry`, else
/// fixed shapes, which up to seven cubes are taken from the known counts up
/// to rotation as the generator gives them.
pub fn count_polycubes(n: usize, use_symmetry: bool) -> (r: u64)
    requires
        n <= 126,
    ensures
        !use_symmetry && n == 0 ==> r == 0,
        !use_symmetry && 1 <= n <= 7 ==> known_count(n as int) == Some(r),
        use_symmetry && n <= 2 ==> r == 1,
        use_symmetry && 3 <= n <= 12 ==> known_count(n as int) == Some(r),
        use_symmetry && n > 12 ==> exists|f: u64| #[trigger] fixed_count(n as int, f) && r == f / 24,
        !use_symmetry && n >= 8 ==> fixed_count(n as int, r),
{
    if n <= 7 && !use_symmetry {
        return match get_known_count(n as u8) {
            Some(c) => c,
            None => generate_polycubes(n as u8).len() as u64,
        };
    }
    if use_symmetry {
        count_free_polycubes(n, None)
    } else {
        count_fixed_polycubes(n, None)
    }
}

} // verus!
