//! Shapes made of unit cubes: growth frontier, translation to the origin,
//! face-connectivity and bounding-box measures.
use vstd::prelude::*;
use vstd::set_lib::lemma_len_subset;

use crate::position::{adjacent, lemma_neighbours_adjacent, neighbours, shifted, steppable, Pos};

verus! {

/// A shape as an ordered sequence of cube positions.
#[derive(Debug, Clone, PartialEq, Eq)]
pub struct Polycube {
    pub cubes: Vec<Pos>,
}

impl View for Polycube {
    type V = Seq<Pos>;

    open spec fn view(&self) -> Seq<Pos> {
        self.cubes@
    }
}

/// Coordinate `a` (0 for x, 1 for y, 2 for z) of a position.
pub open spec fn coord(p: Pos, a: int) -> int {
    if a == 0 {
        p.x as int
    } else if a == 1 {
        p.y as int
    } else {
        p.z as int
    }
}

/// The least value of coordinate `a` over a non-empty sequence.
pub open spec fn min_coord(s: Seq<Pos>, a: int) -> int
    decreases s.len(),
{
    if s.len() <= 1 {
        coord(s[0], a)
    } else {
        let rest = min_coord(s.drop_first(), a);
        if coord(s[0], a) <= rest {
            coord(s[0], a)
        } else {
            rest
        }
    }
}

/// The greatest value of coordinate `a` over a non-empty sequence.
pub open spec fn max_coord(s: Seq<Pos>, a: int) -> int
    decreases s.len(),
{
    if s.len() <= 1 {
        coord(s[0], a)
    } else {
        let rest = max_coord(s.drop_first(), a);
        if coord(s[0], a) >= rest {
            coord(s[0], a)
        } else {
            rest
        }
    }
}

/// Every position moved by the same offsets.
pub open spec fn translate_seq(s: Seq<Pos>, dx: int, dy: int, dz: int) -> Seq<Pos> {
    s.map_values(|p: Pos| shifted(p, dx, dy, dz))
}

/// The shape moved so that its least coordinate on every axis is zero.
pub open spec fn normalize_seq(s: Seq<Pos>) -> Seq<Pos> {
    if s.len() == 0 {
        s
    } else {
        translate_seq(s, -min_coord(s, 0), -min_coord(s, 1), -min_coord(s, 2))
    }
}

/// On every axis any two coordinates lie within a byte of each other, so
/// that moving the shape to the origin keeps every coordinate in a byte.
pub open spec fn span_fits(s: Seq<Pos>) -> bool {
    forall|i: int, j: int|
        0 <= i < s.len() && 0 <= j < s.len() ==> {
            &&& #[trigger] s[i].x - #[trigger] s[j].x <= 127
            &&& s[i].y - s[j].y <= 127
            &&& s[i].z - s[j].z <= 127
        }
}

/// Least coordinate zero on every axis.
pub open spec fn is_normalized(s: Seq<Pos>) -> bool {
    s.len() > 0 ==> min_coord(s, 0) == 0 && min_coord(s, 1) == 0 && min_coord(s, 2) == 0
}

/// Every position of the shape can take a step in any direction.
pub open spec fn all_steppable(s: Seq<Pos>) -> bool {
    forall|i: int| 0 <= i < s.len() ==> steppable(#[trigger] s[i])
}

/// The least coordinate is attained and is below every other.
pub proof fn lemma_min_coord(s: Seq<Pos>, a: int)
    requires
        s.len() > 0,
    ensures
        forall|i: int| 0 <= i < s.len() ==> min_coord(s, a) <= coord(#[trigger] s[i], a),
        exists|i: int| 0 <= i < s.len() && min_coord(s, a) == coord(#[trigger] s[i], a),
    decreases s.len(),
{
    if s.len() > 1 {
        lemma_min_coord(s.drop_first(), a);
        assert forall|i: int| 0 <= i < s.len() implies min_coord(s, a) <= coord(
            #[trigger] s[i],
            a,
        ) by {
            if i > 0 {
                assert(s[i] == s.drop_first()[i - 1]);
            }
        }
        let k = choose|k: int|
            0 <= k < s.drop_first().len() && min_coord(s.drop_first(), a) == coord(
                #[trigger] s.drop_first()[k],
                a,
            );
        if min_coord(s, a) != coord(s[0], a) {
            assert(s[k + 1] == s.drop_first()[k]);
        }
    } else {
        assert(min_coord(s, a) == coord(s[0], a));
    }
}

/// The greatest coordinate is attained and is above every other.
pub proof fn lemma_max_coord(s: Seq<Pos>, a: int)
    requires
        s.len() > 0,
    ensures
        forall|i: int| 0 <= i < s.len() ==> coord(#[trigger] s[i], a) <= max_coord(s, a),
        exists|i: int| 0 <= i < s.len() && max_coord(s, a) == coord(#[trigger] s[i], a),
    decreases s.len(),
{
    if s.len() > 1 {
        lemma_max_coord(s.drop_first(), a);
        assert forall|i: int| 0 <= i < s.len() implies coord(#[trigger] s[i], a) <= max_coord(
            s,
            a,
        ) by {
            if i > 0 {
                assert(s[i] == s.drop_first()[i - 1]);
            }
        }
        let k = choose|k: int|
            0 <= k < s.drop_first().len() && max_coord(s.drop_first(), a) == coord(
                #[trigger] s.drop_first()[k],
                a,
            );
        if max_coord(s, a) != coord(s[0], a) {
            assert(s[k + 1] == s.drop_first()[k]);
        }
    } else {
        assert(max_coord(s, a) == coord(s[0], a));
    }
}

/// A value that bounds every coordinate from below and is attained is the least one.
pub proof fn lemma_min_coord_unique(s: Seq<Pos>, a: int, m: int)
    requires
        s.len() > 0,
        forall|i: int| 0 <= i < s.len() ==> m <= coord(#[trigger] s[i], a),
        exists|i: int| 0 <= i < s.len() && m == coord(#[trigger] s[i], a),
    ensures
        min_coord(s, a) == m,
{
    lemma_min_coord(s, a);
}


/// The set `c` is closed under face-adjacency within the shape `s`.
pub open spec fn closed_within(s: Seq<Pos>, c: Set<Pos>) -> bool {
    forall|p: Pos, q: Pos|
        #![trigger c.contains(p), s.contains(q), adjacent(p, q)]
        c.contains(p) && s.contains(q) && adjacent(p, q) ==> c.contains(q)
}

/// Every cube is reachable from every other through face-adjacent cubes of
/// the shape: a set that is closed under adjacency within the shape and
/// meets it holds all of it.
pub open spec fn face_connected(s: Seq<Pos>) -> bool {
    forall|c: Set<Pos>|
        #![trigger closed_within(s, c)]
        closed_within(s, c) && (exists|i: int| 0 <= i < s.len() && c.contains(#[trigger] s[i]))
            ==> (forall|j: int| 0 <= j < s.len() ==> c.contains(#[trigger] s[j]))
}

/// The growth frontier: empty positions that share a face with a cube.
pub open spec fn in_frontier(s: Seq<Pos>, q: Pos) -> bool {
    !s.contains(q) && exists|i: int| 0 <= i < s.len() && adjacent(#[trigger] s[i], q)
}

/// Face adjacency is symmetric.
pub proof fn lemma_adjacent_symmetric(p: Pos, q: Pos)
    ensures
        adjacent(p, q) == adjacent(q, p),
{
}

/// Where everything reachable from the first cube is in every closed set
/// holding it, and every cube is reachable, the shape is connected.
proof fn lemma_connected_from_first(s: Seq<Pos>)
    requires
        s.len() > 0,
        forall|c: Set<Pos>|
            #![trigger closed_within(s, c)]
            closed_within(s, c) && c.contains(s[0]) ==> (forall|j: int|
                0 <= j < s.len() ==> c.contains(#[trigger] s[j])),
    ensures
        face_connected(s),
{
    assert forall|c: Set<Pos>|
        #![trigger closed_within(s, c)]
        closed_within(s, c) && (exists|i: int| 0 <= i < s.len() && c.contains(#[trigger] s[i]))
            implies (forall|j: int| 0 <= j < s.len() ==> c.contains(#[trigger] s[j])) by {
        if !c.contains(s[0]) {
            let i = choose|i: int| 0 <= i < s.len() && c.contains(#[trigger] s[i]);
            let d = Set::new(|p: Pos| s.contains(p) && !c.contains(p));
            assert forall|p: Pos, q: Pos|
                #![trigger d.contains(p), s.contains(q), adjacent(p, q)]
                d.contains(p) && s.contains(q) && adjacent(p, q) implies d.contains(q) by {
                lemma_adjacent_symmetric(p, q);
                if c.contains(q) {
                    assert(c.contains(q) && s.contains(p) && adjacent(q, p));
                }
            }
            assert(closed_within(s, d));
            assert(d.contains(s[0]));
            assert(d.contains(s[i]));
        }
    }
}

/// Adding a frontier position to a connected shape keeps it connected and
/// free of repeats.
pub proof fn lemma_push_connected(base: Seq<Pos>, q: Pos)
    requires
        base.no_duplicates(),
        face_connected(base),
        in_frontier(base, q),
    ensures
        base.push(q).no_duplicates(),
        face_connected(base.push(q)),
{
    let e = base.push(q);
    let k = choose|k: int| 0 <= k < base.len() && adjacent(#[trigger] base[k], q);
    assert(e[base.len() as int] == q);
    assert forall|i: int, j: int| 0 <= i < e.len() && 0 <= j < e.len() && i != j implies e[i] != e[j] by {
        if i < base.len() && j < base.len() {
            assert(e[i] == base[i] && e[j] == base[j]);
        } else if i < base.len() {
            assert(e[i] == base[i]);
        } else {
            assert(e[j] == base[j]);
        }
    }
    assert forall|c: Set<Pos>|
        #![trigger closed_within(e, c)]
        closed_within(e, c) && (exists|i: int| 0 <= i < e.len() && c.contains(#[trigger] e[i]))
            implies (forall|j: int| 0 <= j < e.len() ==> c.contains(#[trigger] e[j])) by {
        assert forall|p: Pos, t: Pos|
            #![trigger c.contains(p), base.contains(t), adjacent(p, t)]
            c.contains(p) && base.contains(t) && adjacent(p, t) implies c.contains(t) by {
            let w = choose|w: int| 0 <= w < base.len() && base[w] == t;
            assert(e[w] == t);
            assert(e.contains(t));
        }
        assert(closed_within(base, c));
        let i = choose|i: int| 0 <= i < e.len() && c.contains(#[trigger] e[i]);
        assert(e.contains(base[k])) by {
            assert(e[k] == base[k]);
        }
        if i == base.len() {
            lemma_adjacent_symmetric(base[k], q);
            assert(c.contains(q) && e.contains(base[k]) && adjacent(q, base[k]));
        } else {
            assert(e[i] == base[i]);
        }
        assert(c.contains(base[k]));
        assert(c.contains(q)) by {
            assert(e.contains(q));
        }
        assert forall|j: int| 0 <= j < e.len() implies c.contains(#[trigger] e[j]) by {
            if j < base.len() {
                assert(e[j] == base[j]);
            }
        }
    }
}

/// Moving a shape to the origin keeps it connected and free of repeats.
pub proof fn lemma_normalize_connected(x: Seq<Pos>)
    requires
        x.no_duplicates(),
        face_connected(x),
        span_fits(x),
    ensures
        normalize_seq(x).no_duplicates(),
        face_connected(normalize_seq(x)),
{
    let n = normalize_seq(x);
    if x.len() == 0 {
        return;
    }
    lemma_min_coord(x, 0);
    lemma_min_coord(x, 1);
    lemma_min_coord(x, 2);
    let i0 = choose|i: int| 0 <= i < x.len() && min_coord(x, 0) == coord(#[trigger] x[i], 0);
    let i1 = choose|i: int| 0 <= i < x.len() && min_coord(x, 1) == coord(#[trigger] x[i], 1);
    let i2 = choose|i: int| 0 <= i < x.len() && min_coord(x, 2) == coord(#[trigger] x[i], 2);
    assert forall|i: int| 0 <= i < x.len() implies (#[trigger] n[i]).x == x[i].x - min_coord(x, 0)
        && n[i].y == x[i].y - min_coord(x, 1) && n[i].z == x[i].z - min_coord(x, 2) by {
        assert(min_coord(x, 0) <= coord(x[i], 0) && min_coord(x, 1) <= coord(x[i], 1) && min_coord(x, 2) <= coord(x[i], 2));
        assert(x[i].x - x[i0].x <= 127 && x[i].y - x[i1].y <= 127 && x[i].z - x[i2].z <= 127);
    }
    assert forall|i: int, j: int| 0 <= i < n.len() && 0 <= j < n.len() && i != j implies n[i] != n[j] by {
        assert(x[i] != x[j]);
    }
    assert forall|c: Set<Pos>|
        #![trigger closed_within(n, c)]
        closed_within(n, c) && (exists|i: int| 0 <= i < n.len() && c.contains(#[trigger] n[i]))
            implies (forall|j: int| 0 <= j < n.len() ==> c.contains(#[trigger] n[j])) by {
        let d = Set::new(|p: Pos| exists|j: int| 0 <= j < x.len() && x[j] == p && c.contains(#[trigger] n[j]));
        assert forall|p: Pos, t: Pos|
            #![trigger d.contains(p), x.contains(t), adjacent(p, t)]
            d.contains(p) && x.contains(t) && adjacent(p, t) implies d.contains(t) by {
            let j = choose|j: int| 0 <= j < x.len() && x[j] == p && c.contains(#[trigger] n[j]);
            let w = choose|w: int| 0 <= w < x.len() && x[w] == t;
            assert(adjacent(n[j], n[w]));
            assert(n.contains(n[w]));
            assert(c.contains(n[w]));
        }
        assert(closed_within(x, d));
        let i = choose|i: int| 0 <= i < n.len() && c.contains(#[trigger] n[i]);
        assert(d.contains(x[i]));
        assert forall|j: int| 0 <= j < n.len() implies c.contains(#[trigger] n[j]) by {
            assert(d.contains(x[j]));
            let w = choose|w: int| 0 <= w < x.len() && x[w] == x[j] && c.contains(#[trigger] n[w]);
            assert(w == j);
        }
    }
}

/// Rearranging a shape keeps it connected and free of repeats.
pub proof fn lemma_perm_connected(s: Seq<Pos>, t: Seq<Pos>)
    requires
        s.to_multiset() == t.to_multiset(),
        s.no_duplicates(),
        face_connected(s),
    ensures
        t.no_duplicates(),
        face_connected(t),
{
    broadcast use vstd::seq_lib::group_to_multiset_ensures;

    s.lemma_multiset_has_no_duplicates();
    t.lemma_multiset_has_no_duplicates_conv();
    s.to_multiset_ensures();
    t.to_multiset_ensures();
    assert forall|p: Pos| s.contains(p) <==> t.contains(p) by {
        assert(s.to_multiset().count(p) == t.to_multiset().count(p));
        if s.contains(p) {
            assert(s.to_multiset().count(p) > 0);
        }
        if t.contains(p) {
            assert(t.to_multiset().count(p) > 0);
        }
    }
    assert forall|c: Set<Pos>|
        #![trigger closed_within(t, c)]
        closed_within(t, c) && (exists|i: int| 0 <= i < t.len() && c.contains(#[trigger] t[i]))
            implies (forall|j: int| 0 <= j < t.len() ==> c.contains(#[trigger] t[j])) by {
        assert forall|p: Pos, q: Pos|
            #![trigger c.contains(p), s.contains(q), adjacent(p, q)]
            c.contains(p) && s.contains(q) && adjacent(p, q) implies c.contains(q) by {
            assert(t.contains(q));
        }
        assert(closed_within(s, c));
        let i = choose|i: int| 0 <= i < t.len() && c.contains(#[trigger] t[i]);
        assert(t.contains(t[i]));
        let w = choose|w: int| 0 <= w < s.len() && s[w] == t[i];
        assert forall|j: int| 0 <= j < t.len() implies c.contains(#[trigger] t[j]) by {
            assert(t.contains(t[j]));
            let v = choose|v: int| 0 <= v < s.len() && s[v] == t[j];
        }
    }
}

/// A non-empty shape has a frontier: one step along x from a cube with the
/// greatest x.
pub proof fn lemma_frontier_nonempty(s: Seq<Pos>)
    requires
        s.len() > 0,
        all_steppable(s),
    ensures
        exists|q: Pos| in_frontier(s, q),
{
    lemma_max_coord(s, 0);
    let i = choose|i: int| 0 <= i < s.len() && max_coord(s, 0) == coord(#[trigger] s[i], 0);
    assert(steppable(s[i]));
    let q = shifted(s[i], 1, 0, 0);
    assert(adjacent(s[i], q));
    if s.contains(q) {
        let j = choose|j: int| 0 <= j < s.len() && s[j] == q;
        assert(coord(s[j], 0) <= max_coord(s, 0));
    }
    assert(in_frontier(s, q));
}

/// Each position after the first shares a face with an earlier one.
pub open spec fn growth_ordered(o: Seq<Pos>) -> bool {
    forall|i: int| 1 <= i < o.len() ==> #[trigger] touches_earlier(o, i)
}

/// Position `i` shares a face with an earlier position.
pub open spec fn touches_earlier(o: Seq<Pos>, i: int) -> bool {
    exists|j: int| 0 <= j < i && #[trigger] adjacent(o[j], o[i])
}

/// A connected shape can be listed in growth order from its first cube.
proof fn lemma_growth_order_from(t: Seq<Pos>, p: Seq<Pos>) -> (o: Seq<Pos>)
    requires
        t.no_duplicates(),
        face_connected(t),
        1 <= p.len() <= t.len(),
        p[0] == t[0],
        p.no_duplicates(),
        growth_ordered(p),
        forall|i: int| 0 <= i < p.len() ==> t.contains(#[trigger] p[i]),
    ensures
        o.no_duplicates(),
        growth_ordered(o),
        o.len() == t.len(),
        o[0] == t[0],
        forall|i: int| 0 <= i < o.len() ==> t.contains(#[trigger] o[i]),
    decreases t.len() - p.len(),
{
    if p.len() == t.len() {
        p
    } else {
        let c = p.to_set();
        if closed_within(t, c) {
            assert(c.contains(t[0])) by {
                assert(p[0] == t[0]);
            }
            assert(c.contains(t[0]) && exists|i: int| 0 <= i < t.len() && c.contains(#[trigger] t[i]));
            assert(t.to_set().subset_of(c)) by {
                assert forall|x: Pos| t.to_set().contains(x) implies c.contains(x) by {
                    let j = choose|j: int| 0 <= j < t.len() && t[j] == x;
                    assert(c.contains(t[j]));
                }
            }
            t.unique_seq_to_set();
            p.unique_seq_to_set();
            lemma_len_subset(t.to_set(), c);
            assert(false);
        }
        let (p0, q) = choose|p0: Pos, q: Pos|
            #![trigger c.contains(p0), t.contains(q), adjacent(p0, q)]
            c.contains(p0) && t.contains(q) && adjacent(p0, q) && !c.contains(q);
        let k = choose|k: int| 0 <= k < p.len() && p[k] == p0;
        let p2 = p.push(q);
        assert(p2[p.len() as int] == q);
        assert forall|i: int| 1 <= i < p2.len() implies #[trigger] touches_earlier(p2, i) by {
            if i < p.len() {
                assert(touches_earlier(p, i));
                let j = choose|j: int| 0 <= j < i && #[trigger] adjacent(p[j], p[i]);
                assert(p2[j] == p[j] && p2[i] == p[i]);
            } else {
                assert(p2[k] == p0);
                assert(adjacent(p2[k], p2[i]));
            }
        }
        assert forall|a: int, b: int| 0 <= a < p2.len() && 0 <= b < p2.len() && a != b implies p2[a] != p2[b] by {
            if a < p.len() && b < p.len() {
                assert(p2[a] == p[a] && p2[b] == p[b]);
            } else if a < p.len() {
                assert(p2[a] == p[a]);
                assert(c.contains(p[a]));
            } else {
                assert(p2[b] == p[b]);
                assert(c.contains(p[b]));
            }
        }
        assert forall|i: int| 0 <= i < p2.len() implies t.contains(#[trigger] p2[i]) by {
            if i < p.len() {
                assert(p2[i] == p[i]);
            }
        }
        lemma_growth_order_from(t, p2)
    }
}

/// A connected shape without repeats can be listed in growth order.
pub proof fn lemma_growth_order(t: Seq<Pos>) -> (o: Seq<Pos>)
    requires
        t.no_duplicates(),
        face_connected(t),
        t.len() >= 1,
    ensures
        o.no_duplicates(),
        growth_ordered(o),
        o.len() == t.len(),
        o.to_multiset() == t.to_multiset(),
{
    let p = seq![t[0]];
    assert(t.contains(t[0]));
    let o = lemma_growth_order_from(t, p);
    lemma_same_elements_multiset(o, t);
    o
}

/// Two sequences without repeats and with the same length, the first's
/// elements all in the second, hold the same elements.
pub proof fn lemma_same_elements_multiset(o: Seq<Pos>, t: Seq<Pos>)
    requires
        o.no_duplicates(),
        t.no_duplicates(),
        o.len() == t.len(),
        forall|i: int| 0 <= i < o.len() ==> t.contains(#[trigger] o[i]),
    ensures
        o.to_multiset() == t.to_multiset(),
{
    broadcast use vstd::seq_lib::group_to_multiset_ensures;

    o.to_multiset_ensures();
    t.to_multiset_ensures();
    o.lemma_multiset_has_no_duplicates();
    t.lemma_multiset_has_no_duplicates();
    assert(o.to_set().subset_of(t.to_set())) by {
        assert forall|x: Pos| o.to_set().contains(x) implies t.to_set().contains(x) by {
            let i = choose|i: int| 0 <= i < o.len() && o[i] == x;
        }
    }
    o.unique_seq_to_set();
    t.unique_seq_to_set();
    vstd::set_lib::lemma_subset_equality(o.to_set(), t.to_set());
    assert forall|x: Pos| o.to_multiset().count(x) == t.to_multiset().count(x) by {
        if o.contains(x) {
            assert(o.to_set().contains(x));
            assert(t.to_set().contains(x));
        } else if t.contains(x) {
            assert(t.to_set().contains(x));
            assert(o.to_set().contains(x));
        }
    }
    assert(o.to_multiset() =~= t.to_multiset());
}

/// Every prefix of a growth-ordered sequence without repeats is connected.
pub proof fn lemma_growth_prefix_connected(o: Seq<Pos>, k: int)
    requires
        o.no_duplicates(),
        growth_ordered(o),
        1 <= k <= o.len(),
    ensures
        o.take(k).no_duplicates(),
        face_connected(o.take(k)),
        growth_ordered(o.take(k)),
    decreases k,
{
    let p = o.take(k);
    assert forall|i: int| 1 <= i < p.len() implies #[trigger] touches_earlier(p, i) by {
        assert(touches_earlier(o, i));
        let j = choose|j: int| 0 <= j < i && #[trigger] adjacent(o[j], o[i]);
        assert(p[j] == o[j] && p[i] == o[i]);
        assert(adjacent(p[j], p[i]));
    }
    if k == 1 {
        lemma_small_connected(p);
    } else {
        lemma_growth_prefix_connected(o, k - 1);
        let b = o.take(k - 1);
        let q = o[k - 1];
        assert(p =~= b.push(q));
        assert(touches_earlier(o, k - 1));
        let j = choose|j: int| 0 <= j < k - 1 && #[trigger] adjacent(o[j], o[k - 1]);
        assert(b[j] == o[j]);
        if b.contains(q) {
            let w = choose|w: int| 0 <= w < b.len() && b[w] == q;
            assert(o[w] == o[k - 1]);
        }
        assert(in_frontier(b, q));
        lemma_push_connected(b, q);
    }
}

/// On each axis the coordinates of a growth-ordered sequence lie within its
/// length less one of each other.
pub proof fn lemma_growth_span(o: Seq<Pos>, k: int)
    requires
        growth_ordered(o),
        1 <= k <= o.len(),
    ensures
        forall|i: int, j: int|
            0 <= i < k && 0 <= j < k ==> {
                &&& #[trigger] o[i].x - #[trigger] o[j].x <= k - 1
                &&& o[i].y - o[j].y <= k - 1
                &&& o[i].z - o[j].z <= k - 1
            },
    decreases k,
{
    if k > 1 {
        lemma_growth_span(o, k - 1);
        assert(touches_earlier(o, k - 1));
        let w = choose|w: int| 0 <= w < k - 1 && #[trigger] adjacent(o[w], o[k - 1]);
        assert forall|i: int, j: int| 0 <= i < k && 0 <= j < k implies {
            &&& #[trigger] o[i].x - #[trigger] o[j].x <= k - 1
            &&& o[i].y - o[j].y <= k - 1
            &&& o[i].z - o[j].z <= k - 1
        } by {
            if i == k - 1 && j < k - 1 {
                assert(o[w].x - o[j].x <= k - 2 && o[w].y - o[j].y <= k - 2 && o[w].z - o[j].z <= k - 2);
            } else if j == k - 1 && i < k - 1 {
                assert(o[i].x - o[w].x <= k - 2 && o[i].y - o[w].y <= k - 2 && o[i].z - o[w].z <= k - 2);
            }
        }
    }
}

/// Position `p` is in the sequence.
pub fn position_in(v: &Vec<Pos>, p: Pos) -> (r: bool)
    ensures
        r == v@.contains(p),
{
    let mut i: usize = 0;
    while i < v.len()
        invariant
            i <= v.len(),
            forall|k: int| 0 <= k < i ==> v@[k] != p,
        decreases v.len() - i,
    {
        if v[i] == p {
            return true;
        }
        i = i + 1;
    }
    false
}

/// A copy of the positions, element by element.
pub fn copy_positions(v: &Vec<Pos>) -> (r: Vec<Pos>)
    ensures
        r@ == v@,
{
    let mut r: Vec<Pos> = Vec::new();
    let mut i: usize = 0;
    while i < v.len()
        invariant
            i <= v.len(),
            r@ == v@.subrange(0, i as int),
        decreases v.len() - i,
    {
        r.push(v[i]);
        i = i + 1;
    }
    assert(r@ =~= v@);
    r
}

/// The least value of coordinate `a` over a non-empty vector.
pub fn least_coord(v: &Vec<Pos>, a: u8) -> (r: i8)
    requires
        v.len() > 0,
        a < 3,
    ensures
        r == min_coord(v@, a as int),
{
    let ghost s = v@;
    let mut best: i8 = if a == 0 {
        v[0].x
    } else if a == 1 {
        v[0].y
    } else {
        v[0].z
    };
    let mut i: usize = 1;
    while i < v.len()
        invariant
            1 <= i <= v.len(),
            s == v@,
            a < 3,
            forall|k: int| 0 <= k < i ==> best <= coord(#[trigger] s[k], a as int),
            exists|k: int| 0 <= k < i && best == coord(#[trigger] s[k], a as int),
        decreases v.len() - i,
    {
        let c = if a == 0 {
            v[i].x
        } else if a == 1 {
            v[i].y
        } else {
            v[i].z
        };
        assert(c == coord(s[i as int], a as int));
        if c < best {
            best = c;
        }
        i = i + 1;
    }
    proof {
        lemma_min_coord_unique(s, a as int, best as int);
    }
    best
}


/// How many flags are set.
pub open spec fn count_true(f: Seq<bool>) -> nat
    decreases f.len(),
{
    if f.len() == 0 {
        0
    } else {
        count_true(f.drop_last()) + if f.last() {
            1nat
        } else {
            0nat
        }
    }
}

proof fn lemma_count_true_bound(f: Seq<bool>)
    ensures
        count_true(f) <= f.len(),
        count_true(f) == f.len() ==> forall|k: int| 0 <= k < f.len() ==> #[trigger] f[k],
        (forall|k: int| 0 <= k < f.len() ==> #[trigger] f[k]) ==> count_true(f) == f.len(),
    decreases f.len(),
{
    if f.len() > 0 {
        lemma_count_true_bound(f.drop_last());
        if forall|k: int| 0 <= k < f.len() ==> #[trigger] f[k] {
            assert forall|k: int| 0 <= k < f.drop_last().len() implies #[trigger] f.drop_last()[k] by {
                assert(f[k]);
            }
            assert(f.last());
        }
        if count_true(f) == f.len() {
            assert forall|k: int| 0 <= k < f.len() implies #[trigger] f[k] by {
                if k < f.len() - 1 {
                    assert(f.drop_last()[k] == f[k]);
                }
            }
        }
    }
}

proof fn lemma_count_true_set(f: Seq<bool>, k: int)
    requires
        0 <= k < f.len(),
        !f[k],
    ensures
        count_true(f.update(k, true)) == count_true(f) + 1,
    decreases f.len(),
{
    let g = f.update(k, true);
    if k == f.len() - 1 {
        assert(g.drop_last() =~= f.drop_last());
    } else {
        assert(g.drop_last() =~= f.drop_last().update(k, true));
        lemma_count_true_set(f.drop_last(), k);
    }
}

proof fn lemma_count_none(f: Seq<bool>)
    requires
        forall|k: int| 0 <= k < f.len() ==> !f[k],
    ensures
        count_true(f) == 0,
    decreases f.len(),
{
    if f.len() > 0 {
        lemma_count_none(f.drop_last());
    }
}

/// A shape of at most one cube is connected.
pub proof fn lemma_small_connected(s: Seq<Pos>)
    requires
        s.len() <= 1,
    ensures
        s.no_duplicates(),
        face_connected(s),
{
    assert forall|c: Set<Pos>|
        #![trigger closed_within(s, c)]
        closed_within(s, c) && (exists|i: int| 0 <= i < s.len() && c.contains(#[trigger] s[i]))
            implies (forall|j: int| 0 <= j < s.len() ==> c.contains(#[trigger] s[j])) by {
        let i = choose|i: int| 0 <= i < s.len() && c.contains(#[trigger] s[i]);
        assert forall|j: int| 0 <= j < s.len() implies c.contains(#[trigger] s[j]) by {
            assert(j == i);
        }
    }
}

/// The first index at which `p` occurs, or the length where it does not.
fn first_index(v: &Vec<Pos>, p: Pos) -> (r: usize)
    ensures
        r <= v.len(),
        r < v.len() ==> v@[r as int] == p,
        forall|k: int| 0 <= k < r ==> v@[k] != p,
{
    let mut i: usize = 0;
    while i < v.len()
        invariant
            i <= v.len(),
            forall|k: int| 0 <= k < i ==> v@[k] != p,
        decreases v.len() - i,
    {
        if v[i] == p {
            return i;
        }
        i = i + 1;
    }
    i
}

/// The positions that the traversal has reached.
pub open spec fn reached(s: Seq<Pos>, flags: Seq<bool>, q: Pos) -> bool {
    exists|m: int| 0 <= m < s.len() && flags[m] && s[m] == q
}

/// Whether the positions are pairwise distinct and form one face-connected
/// cluster: a traversal from the first position over face-adjacent positions
/// of the sequence reaches all of them.
pub fn positions_connected(cubes: &Vec<Pos>) -> (r: bool)
    requires
        all_steppable(cubes@),
    ensures
        r == (cubes@.no_duplicates() && face_connected(cubes@)),
{
    let ghost s = cubes@;
    if cubes.len() <= 1 {
        proof {
            lemma_small_connected(s);
        }
        return true;
    }
    let n = cubes.len();
    let mut flags: Vec<bool> = Vec::new();
    while flags.len() < n
        invariant
            flags.len() <= n,
            forall|k: int| 0 <= k < flags.len() ==> !flags@[k],
        decreases n - flags.len(),
    {
        flags.push(false);
    }
    proof {
        assert(count_true(flags@) == 0) by {
            lemma_count_none(flags@);
        }
        lemma_count_true_set(flags@, 0);
    }
    flags.set(0, true);
    let mut count: usize = 1;
    let mut stack: Vec<usize> = vec![0];
    while stack.len() > 0
        invariant
            s == cubes@,
            n == s.len(),
            n > 1,
            all_steppable(s),
            flags.len() == n,
            flags@[0],
            count == count_true(flags@),
            count <= n,
            forall|k: int| 0 <= k < stack.len() ==> (#[trigger] stack@[k] as int) < n && flags@[stack@[k] as int],
            forall|m: int, k: int| 0 <= k < m < n && flags@[m] ==> #[trigger] s[k] != #[trigger] s[m],
            forall|k: int, q: Pos|
                #![trigger flags@[k], adjacent(s[k], q)]
                0 <= k < n && flags@[k] && !stack@.contains(k as usize) && s.contains(q) && adjacent(s[k], q)
                    ==> reached(s, flags@, q),
            forall|c: Set<Pos>, m: int|
                #![trigger closed_within(s, c), flags@[m]]
                closed_within(s, c) && c.contains(s[0]) && 0 <= m < n && flags@[m] ==> c.contains(s[m]),
        decreases n - count, stack.len(),
    {
        let ghost st_before = stack@;
        let cur_idx = stack.pop().unwrap();
        proof {
            assert(st_before =~= stack@.push(cur_idx));
            assert forall|k: int| 0 <= k < n && !stack@.contains(k as usize) && k != cur_idx
                implies !(#[trigger] st_before.contains(k as usize)) by {
                if st_before.contains(k as usize) {
                    let w = choose|w: int| 0 <= w < st_before.len() && st_before[w] == k as usize;
                    if w < stack.len() {
                        assert(stack@[w] == k as usize);
                    }
                }
            }
        }
        let cur = cubes[cur_idx];
        let adj = cur.adjacent_positions();
        let ghost count0 = count;
        let ghost len0 = stack.len();
        let mut j: usize = 0;
        while j < adj.len()
            invariant
                s == cubes@,
                n == s.len(),
                n > 1,
                all_steppable(s),
                cur_idx < n,
                cur == s[cur_idx as int],
                flags@[cur_idx as int],
                adj@ == neighbours(cur),
                j <= adj.len(),
                flags.len() == n,
                flags@[0],
                count == count_true(flags@),
                count <= n,
                count0 <= count,
                stack.len() == len0 + (count - count0),
                forall|k: int| 0 <= k < stack.len() ==> (#[trigger] stack@[k] as int) < n && flags@[stack@[k] as int],
                forall|m: int, k: int| 0 <= k < m < n && flags@[m] ==> #[trigger] s[k] != #[trigger] s[m],
                forall|k: int, q: Pos|
                    #![trigger flags@[k], adjacent(s[k], q)]
                    0 <= k < n && flags@[k] && !stack@.contains(k as usize) && k != cur_idx
                        && s.contains(q) && adjacent(s[k], q) ==> reached(s, flags@, q),
                forall|m: int| 0 <= m < j && s.contains(#[trigger] adj@[m]) ==> reached(s, flags@, adj@[m]),
                forall|c: Set<Pos>, m: int|
                    #![trigger closed_within(s, c), flags@[m]]
                    closed_within(s, c) && c.contains(s[0]) && 0 <= m < n && flags@[m] ==> c.contains(s[m]),
            decreases adj.len() - j,
        {
            let q = adj[j];
            let m = first_index(cubes, q);
            if m < n && !flags[m] {
                proof {
                    lemma_count_true_bound(flags@.update(m as int, true));
                    lemma_count_true_set(flags@, m as int);
                    assert forall|c: Set<Pos>|
                        closed_within(s, c) && c.contains(s[0]) implies c.contains(s[m as int]) by {
                        if closed_within(s, c) && c.contains(s[0]) {
                            assert(c.contains(s[cur_idx as int]));
                            assert(s.contains(q)) by {
                                assert(s[m as int] == q);
                            }
                            lemma_neighbours_adjacent(cur, q);
                            assert(neighbours(cur)[j as int] == q);
                        }
                    }
                }
                let ghost f0 = flags@;
                let ghost st0 = stack@;
                flags.set(m, true);
                count = count + 1;
                stack.push(m);
                proof {
                    assert forall|t: Pos| reached(s, f0, t) implies reached(s, flags@, t) by {
                        let w = choose|w: int| 0 <= w < s.len() && f0[w] && s[w] == t;
                        assert(flags@[w]);
                    }
                    assert forall|k: int, t: Pos|
                        #![trigger flags@[k], adjacent(s[k], t)]
                        0 <= k < n && flags@[k] && !stack@.contains(k as usize) && k != cur_idx
                            && s.contains(t) && adjacent(s[k], t) implies reached(s, flags@, t) by {
                        assert(stack@[stack.len() - 1] == m);
                        if k != m {
                            if st0.contains(k as usize) {
                                let w = choose|w: int| 0 <= w < st0.len() && st0[w] == k as usize;
                                assert(stack@[w] == k as usize);
                            }
                            assert(f0[k]);
                            assert(reached(s, f0, t));
                        }
                    }
                    assert forall|k: int| 0 <= k < stack.len() implies (#[trigger] stack@[k] as int) < n
                        && flags@[stack@[k] as int] by {
                        if k < st0.len() {
                            assert(stack@[k] == st0[k]);
                        }
                    }
                    assert forall|a: int| 0 <= a < j && s.contains(#[trigger] adj@[a]) implies reached(
                        s,
                        flags@,
                        adj@[a],
                    ) by {
                        assert(reached(s, f0, adj@[a]));
                    }
                }
            }
            proof {
                if s.contains(q) {
                    let w = choose|w: int| 0 <= w < n && s[w] == q;
                    assert(m <= w);
                    assert(flags@[m as int]);
                }
            }
            j = j + 1;
        }
        proof {
            assert forall|t: Pos| s.contains(t) && adjacent(cur, t) implies reached(s, flags@, t) by {
                lemma_neighbours_adjacent(cur, t);
                let w = choose|w: int| 0 <= w < 6 && neighbours(cur)[w] == t;
                assert(adj@[w] == t);
            }
        }
    }
    proof {
        lemma_count_true_bound(flags@);
    }
    if count == n {
        proof {
            assert forall|i: int, k: int| 0 <= i < n && 0 <= k < n && i != k implies s[i] != s[k] by {
                assert(flags@[i] && flags@[k]);
                if i < k {
                    assert(s[i] != s[k]);
                } else {
                    assert(s[k] != s[i]);
                }
            }
            assert(s.no_duplicates());
            assert forall|c: Set<Pos>|
                #![trigger closed_within(s, c)]
                closed_within(s, c) && c.contains(s[0]) implies (forall|j: int|
                    0 <= j < s.len() ==> c.contains(#[trigger] s[j])) by {
                assert forall|j: int| 0 <= j < s.len() implies c.contains(#[trigger] s[j]) by {
                    assert(flags@[j]);
                }
            }
            lemma_connected_from_first(s);
        }
        true
    } else {
        proof {
            if s.no_duplicates() {
                assert(!forall|k: int| 0 <= k < n ==> #[trigger] flags@[k]);
                let k = choose|k: int| 0 <= k < n && !flags@[k];
                let c = Set::new(|q: Pos| reached(s, flags@, q));
                assert forall|p: Pos, q: Pos|
                    #![trigger c.contains(p), s.contains(q), adjacent(p, q)]
                    c.contains(p) && s.contains(q) && adjacent(p, q) implies c.contains(q) by {
                    let m = choose|m: int| 0 <= m < s.len() && flags@[m] && s[m] == p;
                    assert(!stack@.contains(m as usize));
                }
                assert(closed_within(s, c));
                assert(c.contains(s[0]));
                if c.contains(s[k]) {
                    let m = choose|m: int| 0 <= m < s.len() && flags@[m] && s[m] == s[k];
                    assert(m == k);
                }
            }
        }
        false
    }
}

/// The greatest value of coordinate `a` over a non-empty vector.
pub fn greatest_coord(v: &Vec<Pos>, a: u8) -> (r: i8)
    requires
        v.len() > 0,
        a < 3,
    ensures
        r == max_coord(v@, a as int),
{
    let ghost s = v@;
    let mut best: i8 = if a == 0 {
        v[0].x
    } else if a == 1 {
        v[0].y
    } else {
        v[0].z
    };
    let mut i: usize = 1;
    while i < v.len()
        invariant
            1 <= i <= v.len(),
            s == v@,
            a < 3,
            forall|k: int| 0 <= k < i ==> coord(#[trigger] s[k], a as int) <= best,
            exists|k: int| 0 <= k < i && best == coord(#[trigger] s[k], a as int),
        decreases v.len() - i,
    {
        let c = if a == 0 {
            v[i].x
        } else if a == 1 {
            v[i].y
        } else {
            v[i].z
        };
        assert(c == coord(s[i as int], a as int));
        if c > best {
            best = c;
        }
        i = i + 1;
    }
    proof {
        lemma_max_coord(s, a as int);
    }
    best
}

/// The extent on each axis of a shape that starts at zero: greatest coordinate plus one.
pub open spec fn dimensions_of(s: Seq<Pos>) -> (int, int, int) {
    if s.len() == 0 {
        (0, 0, 0)
    } else {
        (max_coord(s, 0) + 1, max_coord(s, 1) + 1, max_coord(s, 2) + 1)
    }
}

/// No coordinate is at the top of the byte range.
pub open spec fn below_top(s: Seq<Pos>) -> bool {
    forall|i: int| 0 <= i < s.len() ==> (#[trigger] s[i]).x < 127 && s[i].y < 127 && s[i].z < 127
}

/// Extent one on at least two axes: a straight line.
pub open spec fn linear_dims(d: (int, int, int)) -> bool {
    (d.0 == 1 && d.1 == 1) || (d.0 == 1 && d.2 == 1) || (d.1 == 1 && d.2 == 1)
}

/// Extent one on at least one axis: a single layer.
pub open spec fn flat_dims(d: (int, int, int)) -> bool {
    d.0 == 1 || d.1 == 1 || d.2 == 1
}

/// Empty positions that share a face with some cube, each listed once.
pub fn frontier_positions(cubes: &Vec<Pos>) -> (r: Vec<Pos>)
    requires
        all_steppable(cubes@),
    ensures
        r@.no_duplicates(),
        forall|q: Pos| r@.contains(q) <==> in_frontier(cubes@, q),
{
    let ghost s = cubes@;
    let mut r: Vec<Pos> = Vec::new();
    let mut i: usize = 0;
    while i < cubes.len()
        invariant
            i <= cubes.len(),
            s == cubes@,
            all_steppable(s),
            r@.no_duplicates(),
            forall|q: Pos|
                #![trigger r@.contains(q)]
                r@.contains(q) <==> !s.contains(q) && exists|k: int|
                    0 <= k < i && adjacent(#[trigger] s[k], q),
        decreases cubes.len() - i,
    {
        let cube = cubes[i];
        let adj = cube.adjacent_positions();
        let mut j: usize = 0;
        while j < adj.len()
            invariant
                i < cubes.len(),
                j <= adj.len(),
                s == cubes@,
                cube == s[i as int],
                steppable(cube),
                adj@ == neighbours(cube),
                r@.no_duplicates(),
                forall|q: Pos|
                    #![trigger r@.contains(q)]
                    r@.contains(q) <==> !s.contains(q) && ((exists|k: int|
                        0 <= k < i && adjacent(#[trigger] s[k], q)) || exists|m: int|
                        0 <= m < j && #[trigger] adj@[m] == q),
            decreases adj.len() - j,
        {
            let q = adj[j];
            let ghost old_r = r@;
            if !position_in(&cubes, q) && !position_in(&r, q) {
                r.push(q);
            }
            proof {
                assert forall|t: Pos|
                    #![trigger r@.contains(t)]
                    r@.contains(t) <==> !s.contains(t) && ((exists|k: int|
                        0 <= k < i && adjacent(#[trigger] s[k], t)) || exists|m: int|
                        0 <= m < j + 1 && #[trigger] adj@[m] == t) by {
                    assert(old_r.contains(t) <==> !s.contains(t) && ((exists|k: int|
                        0 <= k < i && adjacent(#[trigger] s[k], t)) || exists|m: int|
                        0 <= m < j && #[trigger] adj@[m] == t));
                    if r@.contains(t) && t != q {
                        let k = choose|k: int| 0 <= k < r@.len() && r@[k] == t;
                        assert(old_r[k] == t);
                    }
                    if old_r.contains(t) {
                        let k = choose|k: int| 0 <= k < old_r.len() && old_r[k] == t;
                        assert(r@[k] == t);
                    }
                    if t == q && r@.len() > old_r.len() {
                        assert(r@[old_r.len() as int] == t);
                    }
                    if exists|m: int| 0 <= m < j + 1 && #[trigger] adj@[m] == t {
                        let m = choose|m: int| 0 <= m < j + 1 && #[trigger] adj@[m] == t;
                        if m < j {
                            assert(exists|m: int| 0 <= m < j && #[trigger] adj@[m] == t);
                        } else {
                            assert(t == q);
                        }
                    }
                    if t == q {
                        assert(adj@[j as int] == t);
                    }
                }
            }
            j = j + 1;
        }
        proof {
            assert forall|q: Pos|
                r@.contains(q) <==> !s.contains(q) && exists|k: int|
                    0 <= k < i + 1 && adjacent(#[trigger] s[k], q) by {
                assert(r@.contains(q) <==> !s.contains(q) && ((exists|k: int|
                    0 <= k < i && adjacent(#[trigger] s[k], q)) || exists|m: int|
                    0 <= m < 6 && #[trigger] adj@[m] == q));
                lemma_neighbours_adjacent(cube, q);
                if neighbours(cube).contains(q) {
                    let m = choose|m: int| 0 <= m < 6 && neighbours(cube)[m] == q;
                    assert(adj@[m] == q);
                }
                if exists|m: int| 0 <= m < 6 && #[trigger] adj@[m] == q {
                    let m = choose|m: int| 0 <= m < 6 && #[trigger] adj@[m] == q;
                    assert(neighbours(cube)[m] == q);
                }
                if adjacent(s[i as int], q) {
                    assert(exists|k: int| 0 <= k < i + 1 && adjacent(#[trigger] s[k], q));
                }
                if exists|k: int| 0 <= k < i + 1 && adjacent(#[trigger] s[k], q) {
                    let k = choose|k: int| 0 <= k < i + 1 && adjacent(#[trigger] s[k], q);
                    if k < i {
                        assert(exists|k: int| 0 <= k < i && adjacent(#[trigger] s[k], q));
                    }
                }
            }
        }
        i = i + 1;
    }
    r
}


/// The positions moved so that the least coordinate on each axis is zero;
/// their order is kept.
pub fn translated_to_origin(cubes: &Vec<Pos>) -> (r: Vec<Pos>)
    requires
        span_fits(cubes@),
    ensures
        r@ == normalize_seq(cubes@),
{
    if cubes.len() == 0 {
        return Vec::new();
    }
    let min_x = least_coord(&cubes, 0);
    let min_y = least_coord(&cubes, 1);
    let min_z = least_coord(&cubes, 2);
    let ghost s = cubes@;
    proof {
        lemma_min_coord(s, 0);
        lemma_min_coord(s, 1);
        lemma_min_coord(s, 2);
    }
    let mut out: Vec<Pos> = Vec::new();
    let mut i: usize = 0;
    while i < cubes.len()
        invariant
            i <= cubes.len(),
            s == cubes@,
            s.len() > 0,
            span_fits(s),
            min_x == min_coord(s, 0),
            min_y == min_coord(s, 1),
            min_z == min_coord(s, 2),
            forall|k: int| 0 <= k < s.len() ==> min_x <= (#[trigger] s[k]).x,
            forall|k: int| 0 <= k < s.len() ==> min_y <= (#[trigger] s[k]).y,
            forall|k: int| 0 <= k < s.len() ==> min_z <= (#[trigger] s[k]).z,
            exists|k: int| 0 <= k < s.len() && min_x == (#[trigger] s[k]).x,
            exists|k: int| 0 <= k < s.len() && min_y == (#[trigger] s[k]).y,
            exists|k: int| 0 <= k < s.len() && min_z == (#[trigger] s[k]).z,
            out@ == normalize_seq(s).subrange(0, i as int),
        decreases cubes.len() - i,
    {
        let p = cubes[i];
        proof {
            let kx = choose|k: int| 0 <= k < s.len() && min_x == (#[trigger] s[k]).x;
            let ky = choose|k: int| 0 <= k < s.len() && min_y == (#[trigger] s[k]).y;
            let kz = choose|k: int| 0 <= k < s.len() && min_z == (#[trigger] s[k]).z;
            assert(s[i as int].x - s[kx].x <= 127);
            assert(s[i as int].y - s[ky].y <= 127);
            assert(s[i as int].z - s[kz].z <= 127);
        }
        out.push(Pos::new(p.x - min_x, p.y - min_y, p.z - min_z));
        i = i + 1;
        assert(out@ =~= normalize_seq(s).subrange(0, i as int));
    }
    assert(out@ =~= normalize_seq(s));
    out
}


impl Polycube {
    pub fn new(cubes: Vec<Pos>) -> (r: Polycube)
        ensures
            r@ == cubes@,
    {
        Polycube { cubes }
    }

    /// The shape with one more cube at `position`, placed last.
    pub fn expand(&self, position: Pos) -> (r: Polycube)
        ensures
            r@ == self@.push(position),
    {
        let mut cubes = copy_positions(&self.cubes);
        cubes.push(position);
        Polycube::new(cubes)
    }


    /// Empty positions that share a face with some cube, each listed once.
    pub fn get_expansion_positions(&self) -> (r: Vec<Pos>)
        requires
            all_steppable(self@),
        ensures
            r@.no_duplicates(),
            forall|q: Pos| r@.contains(q) <==> in_frontier(self@, q),
    {
        frontier_positions(&self.cubes)
    }

    /// Whether the cubes are pairwise distinct and face-connected.
    pub fn is_face_connected(&self) -> (r: bool)
        requires
            all_steppable(self@),
        ensures
            r == (self@.no_duplicates() && face_connected(self@)),
    {
        positions_connected(&self.cubes)
    }

    /// The same shape moved so that its least coordinate on each axis is zero;
    /// the order of the cubes is kept.
    pub fn normalize(&self) -> (r: Polycube)
        requires
            span_fits(self@),
        ensures
            r@ == normalize_seq(self@),
    {
        Polycube::new(translated_to_origin(&self.cubes))
    }

    /// The single cube at the origin.
    pub fn unit_cube() -> (r: Polycube)
        ensures
            r@ == seq![Pos { x: 0, y: 0, z: 0 }],
    {
        let r = Polycube::new(vec![Pos::new(0, 0, 0)]);
        assert(r@ =~= seq![Pos { x: 0, y: 0, z: 0 }]);
        r
    }

    /// Two cubes side by side along x.
    pub fn domino() -> (r: Polycube)
        ensures
            r@ == seq![Pos { x: 0, y: 0, z: 0 }, Pos { x: 1, y: 0, z: 0 }],
    {
        let r = Polycube::new(vec![Pos::new(0, 0, 0), Pos::new(1, 0, 0)]);
        assert(r@ =~= seq![Pos { x: 0, y: 0, z: 0 }, Pos { x: 1, y: 0, z: 0 }]);
        r
    }
    /// Width, height and depth of a shape that starts at zero on every axis.
    pub fn get_dimensions(&self) -> (r: (i8, i8, i8))
        requires
            below_top(self@),
        ensures
            (r.0 as int, r.1 as int, r.2 as int) == dimensions_of(self@),
    {
        if self.cubes.len() == 0 {
            return (0, 0, 0);
        }
        let max_x = greatest_coord(&self.cubes, 0);
        let max_y = greatest_coord(&self.cubes, 1);
        let max_z = greatest_coord(&self.cubes, 2);
        proof {
            lemma_max_coord(self@, 0);
            lemma_max_coord(self@, 1);
            lemma_max_coord(self@, 2);
        }
        (max_x + 1, max_y + 1, max_z + 1)
    }

    /// A straight line of cubes.
    pub fn is_linear(&self) -> (r: bool)
        requires
            below_top(self@),
        ensures
            r == linear_dims(dimensions_of(self@)),
    {
        let (width, height, depth) = self.get_dimensions();
        (width == 1 && height == 1) || (width == 1 && depth == 1) || (height == 1 && depth == 1)
    }

    /// A shape one cube thick on some axis.
    pub fn is_flat(&self) -> (r: bool)
        requires
            below_top(self@),
        ensures
            r == flat_dims(dimensions_of(self@)),
    {
        let (width, height, depth) = self.get_dimensions();
        width == 1 || height == 1 || depth == 1
    }
}

} // verus!
