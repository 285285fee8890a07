//! Grid positions and the face-adjacency relation between them.
use vstd::prelude::*;
use vstd::relations::sorted_by;
use vstd::seq_lib::lemma_sorted_unique;

verus! {

/// A unit cube's position on the integer grid.
#[derive(Debug, Clone, Copy, PartialEq, Eq, Hash, Structural)]
pub struct Pos {
    pub x: i8,
    pub y: i8,
    pub z: i8,
}

/// Two positions share a face: they differ by one on exactly one axis.
pub open spec fn adjacent(p: Pos, q: Pos) -> bool {
    let dx = q.x - p.x;
    let dy = q.y - p.y;
    let dz = q.z - p.z;
    ||| (dx == 1 || dx == -1) && dy == 0 && dz == 0
    ||| dx == 0 && (dy == 1 || dy == -1) && dz == 0
    ||| dx == 0 && dy == 0 && (dz == 1 || dz == -1)
}

/// Every neighbour of the position is again a byte-sized position.
pub open spec fn steppable(p: Pos) -> bool {
    -128 < p.x < 127 && -128 < p.y < 127 && -128 < p.z < 127
}

/// The position moved by the given offsets.
pub open spec fn shifted(p: Pos, dx: int, dy: int, dz: int) -> Pos {
    Pos { x: (p.x + dx) as i8, y: (p.y + dy) as i8, z: (p.z + dz) as i8 }
}

/// The six face neighbours, in the order +x, -x, +y, -y, +z, -z.
pub open spec fn neighbours(p: Pos) -> Seq<Pos> {
    seq![
        shifted(p, 1, 0, 0),
        shifted(p, -1, 0, 0),
        shifted(p, 0, 1, 0),
        shifted(p, 0, -1, 0),
        shifted(p, 0, 0, 1),
        shifted(p, 0, 0, -1),
    ]
}

/// Lexicographic order on positions: by x, then y, then z.
pub open spec fn pos_lt(a: Pos, b: Pos) -> bool {
    ||| a.x < b.x
    ||| a.x == b.x && a.y < b.y
    ||| a.x == b.x && a.y == b.y && a.z < b.z
}

pub open spec fn pos_leq(a: Pos, b: Pos) -> bool {
    pos_lt(a, b) || a == b
}

/// Lexicographic order on sequences of positions; a proper prefix comes first.
pub open spec fn seq_lt(a: Seq<Pos>, b: Seq<Pos>) -> bool
    decreases a.len(),
{
    if a.len() == 0 {
        b.len() > 0
    } else if b.len() == 0 {
        false
    } else if pos_lt(a[0], b[0]) {
        true
    } else if a[0] == b[0] {
        seq_lt(a.drop_first(), b.drop_first())
    } else {
        false
    }
}

/// `pos_leq` is a total order.
pub proof fn lemma_pos_leq_total()
    ensures
        vstd::relations::total_ordering(|a: Pos, b: Pos| pos_leq(a, b)),
{
}

/// Neighbours are exactly the adjacent positions.
pub proof fn lemma_neighbours_adjacent(p: Pos, q: Pos)
    requires
        steppable(p),
    ensures
        neighbours(p).contains(q) <==> adjacent(p, q),
{
    if adjacent(p, q) {
        let n = neighbours(p);
        if q.x == p.x + 1 {
            assert(n[0] == q);
        } else if q.x == p.x - 1 {
            assert(n[1] == q);
        } else if q.y == p.y + 1 {
            assert(n[2] == q);
        } else if q.y == p.y - 1 {
            assert(n[3] == q);
        } else if q.z == p.z + 1 {
            assert(n[4] == q);
        } else {
            assert(n[5] == q);
        }
    }
}

/// `pos_leq` as a relation value, for sorting.
pub open spec fn pos_order() -> spec_fn(Pos, Pos) -> bool {
    |a: Pos, b: Pos| pos_leq(a, b)
}

/// The positions in ascending lexicographic order.
pub open spec fn sort_seq(s: Seq<Pos>) -> Seq<Pos> {
    s.sort_by(pos_order())
}

/// Sorting keeps the elements and yields the one ascending arrangement of them.
pub proof fn lemma_sort_seq(s: Seq<Pos>)
    ensures
        sort_seq(s).to_multiset() == s.to_multiset(),
        sorted_by(sort_seq(s), pos_order()),
        sort_seq(s).len() == s.len(),
{
    lemma_pos_leq_total();
    s.lemma_sort_by_ensures(pos_order());
    s.to_multiset_ensures();
    sort_seq(s).to_multiset_ensures();
}

/// A sorted arrangement of the elements of `s` is the sorted sequence.
pub proof fn lemma_sorted_is_sort_seq(s: Seq<Pos>, t: Seq<Pos>)
    requires
        sorted_by(t, pos_order()),
        t.to_multiset() == s.to_multiset(),
    ensures
        t == sort_seq(s),
{
    lemma_sort_seq(s);
    lemma_pos_leq_total();
    lemma_sorted_unique(t, sort_seq(s), pos_order());
}

/// Sorts the positions in place, ascending by x, then y, then z.
pub fn sort_positions(v: &mut Vec<Pos>)
    ensures
        final(v)@ == sort_seq(old(v)@),
{
    let ghost s = v@;
    let mut r: Vec<Pos> = Vec::new();
    let mut i: usize = 0;
    proof {
        assert(s.subrange(0, 0) =~= r@);
    }
    while i < v.len()
        invariant
            i <= v.len(),
            v@ == s,
            sorted_by(r@, pos_order()),
            r@.to_multiset() == s.subrange(0, i as int).to_multiset(),
        decreases v.len() - i,
    {
        let e = v[i];
        let mut k: usize = 0;
        while k < r.len() && pos_leq_exec(r[k], e)
            invariant
                k <= r.len(),
                forall|t: int| 0 <= t < k ==> pos_leq(#[trigger] r@[t], e),
            decreases r.len() - k,
        {
            k = k + 1;
        }
        let ghost before = r@;
        r.insert(k, e);
        proof {
            assert forall|a: int, b: int| 0 <= a < b < r@.len() implies (#[trigger] pos_order()(
                r@[a],
                r@[b],
            )) by {
                if b < k {
                    assert(pos_order()(before[a], before[b]));
                } else if a < k && b == k {
                } else if a < k {
                    assert(pos_order()(before[a], before[b - 1]));
                } else if a == k {
                    if k < before.len() {
                        assert(!pos_leq(before[k as int], e));
                        assert(pos_order()(before[k as int], before[b - 1]));
                    }
                } else {
                    assert(pos_order()(before[a - 1], before[b - 1]));
                }
            }
            vstd::seq_lib::to_multiset_insert(before, k as int, e);
            assert(s.subrange(0, i + 1) =~= s.subrange(0, i as int).push(e));
            vstd::seq_lib::to_multiset_build(s.subrange(0, i as int), e);
        }
        i = i + 1;
    }
    proof {
        assert(s.subrange(0, s.len() as int) =~= s);
        lemma_sorted_is_sort_seq(s, r@);
    }
    *v = r;
}

/// `pos_leq`, computed.
fn pos_leq_exec(a: Pos, b: Pos) -> (r: bool)
    ensures
        r == pos_leq(a, b),
{
    a.x < b.x || (a.x == b.x && (a.y < b.y || (a.y == b.y && a.z <= b.z)))
}

/// `a` comes strictly before `b` in lexicographic order.
pub fn lexicographically_smaller(a: &[Pos], b: &[Pos]) -> (r: bool)
    ensures
        r == seq_lt(a@, b@),
{
    let len = if a.len() < b.len() {
        a.len()
    } else {
        b.len()
    };
    let mut i: usize = 0;
    proof {
        assert(a@.subrange(0, a@.len() as int) =~= a@);
        assert(b@.subrange(0, b@.len() as int) =~= b@);
    }
    while i < len
        invariant
            i <= len,
            len <= a@.len(),
            len <= b@.len(),
            len == a@.len() || len == b@.len(),
            seq_lt(a@, b@) == seq_lt(a@.subrange(i as int, a@.len() as int), b@.subrange(
                i as int,
                b@.len() as int,
            )),
        decreases len - i,
    {
        let ghost sa = a@.subrange(i as int, a@.len() as int);
        let ghost sb = b@.subrange(i as int, b@.len() as int);
        assert(sa[0] == a@[i as int] && sb[0] == b@[i as int]);
        if a[i].x < b[i].x {
            return true;
        } else if a[i].x > b[i].x {
            return false;
        }
        if a[i].y < b[i].y {
            return true;
        } else if a[i].y > b[i].y {
            return false;
        }
        if a[i].z < b[i].z {
            return true;
        } else if a[i].z > b[i].z {
            return false;
        }
        assert(sa.drop_first() =~= a@.subrange(i + 1, a@.len() as int));
        assert(sb.drop_first() =~= b@.subrange(i + 1, b@.len() as int));
        i = i + 1;
    }
    a.len() < b.len()
}

/// No sequence comes before itself.
pub proof fn lemma_seq_lt_irreflexive(a: Seq<Pos>)
    ensures
        !seq_lt(a, a),
    decreases a.len(),
{
    if a.len() > 0 {
        lemma_seq_lt_irreflexive(a.drop_first());
    }
}

/// The lexicographic order is transitive.
pub proof fn lemma_seq_lt_transitive(a: Seq<Pos>, b: Seq<Pos>, c: Seq<Pos>)
    requires
        seq_lt(a, b),
        seq_lt(b, c),
    ensures
        seq_lt(a, c),
    decreases a.len(),
{
    if a.len() > 0 && b.len() > 0 && c.len() > 0 && a[0] == b[0] && b[0] == c[0] {
        lemma_seq_lt_transitive(a.drop_first(), b.drop_first(), c.drop_first());
    }
}

/// Of two different sequences of one length, one comes first.
pub proof fn lemma_seq_lt_total(a: Seq<Pos>, b: Seq<Pos>)
    requires
        a.len() == b.len(),
        a != b,
    ensures
        seq_lt(a, b) || seq_lt(b, a),
    decreases a.len(),
{
    if a.len() > 0 && a[0] == b[0] {
        if a.drop_first() == b.drop_first() {
            assert(a =~= b) by {
                assert forall|i: int| 0 <= i < a.len() implies a[i] == b[i] by {
                    if i > 0 {
                        assert(a[i] == a.drop_first()[i - 1]);
                        assert(b[i] == b.drop_first()[i - 1]);
                    }
                }
            }
        }
        lemma_seq_lt_total(a.drop_first(), b.drop_first());
    } else if a.len() == 0 {
        assert(a =~= b);
    }
}

impl Pos {
    pub fn new(x: i8, y: i8, z: i8) -> (r: Pos)
        ensures
            r == (Pos { x, y, z }),
    {
        Pos { x, y, z }
    }

    /// The six face-adjacent positions.
    pub fn adjacent_positions(&self) -> (r: Vec<Pos>)
        requires
            steppable(*self),
        ensures
            r@ == neighbours(*self),
    {
        let r = vec![
            Pos::new(self.x + 1, self.y, self.z),
            Pos::new(self.x - 1, self.y, self.z),
            Pos::new(self.x, self.y + 1, self.z),
            Pos::new(self.x, self.y - 1, self.z),
            Pos::new(self.x, self.y, self.z + 1),
            Pos::new(self.x, self.y, self.z - 1),
        ];
        assert(r@ =~= neighbours(*self));
        r
    }
}

} // verus!
