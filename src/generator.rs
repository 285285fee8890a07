//! Growth of all shapes of one size from those of the size below, with
//! duplicates under rotation removed by canonical signature.
use vstd::prelude::*;

use rayon::prelude::{IntoParallelRefIterator, ParallelIterator};
use rustc_hash::FxHashSet;

use crate::hashing::{fx_hash_of, key_set_contents, key_set_insert, new_key_set};
use crate::polycube::{
    all_steppable, below_top, coord, copy_positions, face_connected, in_frontier, is_normalized,
    lemma_frontier_nonempty, lemma_min_coord, lemma_min_coord_unique, lemma_normalize_connected,
    lemma_push_connected, lemma_small_connected, min_coord, normalize_seq, span_fits, translate_seq,
    Polycube,
};
use crate::position::{adjacent, shifted, Pos};
use crate::rotation::{bounded, canonical_form};

verus! {

/// Every coordinate lies in `0 ..= hi`.
pub open spec fn coords_within(s: Seq<Pos>, hi: int) -> bool {
    forall|i: int|
        0 <= i < s.len() ==> 0 <= (#[trigger] s[i]).x <= hi && 0 <= s[i].y <= hi && 0 <= s[i].z
            <= hi
}

/// The signature that decides when two shapes are the same: the digest of
/// the rotation-canonical form.
pub open spec fn signature_of(s: Seq<Pos>) -> u64 {
    fx_hash_of(canonical_form(s))
}

/// Known counts of shapes up to rotation, by size.
pub open spec fn known_count(n: int) -> Option<u64> {
    if n == 1 {
        Some(1)
    } else if n == 2 {
        Some(1)
    } else if n == 3 {
        Some(2)
    } else if n == 4 {
        Some(8)
    } else if n == 5 {
        Some(29)
    } else if n == 6 {
        Some(166)
    } else if n == 7 {
        Some(1023)
    } else if n == 8 {
        Some(6922)
    } else if n == 9 {
        Some(48311)
    } else if n == 10 {
        Some(346543)
    } else if n == 11 {
        Some(2522522)
    } else if n == 12 {
        Some(18598427)
    } else if n == 13 {
        Some(139333147)
    } else if n == 14 {
        Some(1056657611)
    } else if n == 15 {
        Some(8107839447)
    } else if n == 16 {
        Some(62709211271)
    } else if n == 17 {
        Some(489997729602)
    } else if n == 18 {
        Some(3847265309118)
    } else {
        None
    }
}

/// A shape that may be grown: `m` cubes with every coordinate in `0 .. m`.
pub open spec fn growable(s: Seq<Pos>) -> bool {
    1 <= s.len() <= 126 && coords_within(s, s.len() - 1)
}

/// The shape with `q` added, moved to the origin.
pub open spec fn grown(base: Seq<Pos>, q: Pos) -> Seq<Pos> {
    normalize_seq(base.push(q))
}

/// Growing a shape by a frontier position keeps it growable, one size up,
/// and leaves it at the origin.
pub proof fn lemma_grown_bounds(base: Seq<Pos>, q: Pos)
    requires
        growable(base),
        in_frontier(base, q),
    ensures
        span_fits(base.push(q)),
        all_steppable(base),
        coords_within(grown(base, q), base.len() as int),
        is_normalized(grown(base, q)),
        grown(base, q).len() == base.len() + 1,
        all_steppable(grown(base, q)),
        below_top(grown(base, q)),
        bounded(grown(base, q)),
        growable(grown(base, q)) || base.len() == 126,
{
    let m = base.len() as int;
    let e = base.push(q);
    let k = choose|k: int| 0 <= k < base.len() && adjacent(#[trigger] base[k], q);
    assert(e[m] == q);
    assert forall|i: int| 0 <= i < e.len() implies -1 <= (#[trigger] e[i]).x <= m && -1 <= e[i].y
        <= m && -1 <= e[i].z <= m by {
        if i < m {
            assert(e[i] == base[i]);
        }
    }
    assert(-1 <= q.x <= m && -1 <= q.y <= m && -1 <= q.z <= m) by {
        assert(0 <= base[k].x <= m - 1 && 0 <= base[k].y <= m - 1 && 0 <= base[k].z <= m - 1);
    }
    assert(span_fits(e));
    assert forall|i: int| 0 <= i < base.len() implies crate::position::steppable(#[trigger] base[i]) by {
    }
    lemma_min_coord(e, 0);
    lemma_min_coord(e, 1);
    lemma_min_coord(e, 2);
    let g = grown(base, q);
    let mx = min_coord(e, 0);
    let my = min_coord(e, 1);
    let mz = min_coord(e, 2);
    assert(g == translate_seq(e, -mx, -my, -mz));
    assert forall|i: int| 0 <= i < e.len() implies -1 <= coord(#[trigger] e[i], 0) && -1 <= coord(
        e[i],
        1,
    ) && -1 <= coord(e[i], 2) by {
        assert(-1 <= e[i].x && -1 <= e[i].y && -1 <= e[i].z);
    }
    assert(e[0] == base[0]);
    assert(0 <= base[0].x && 0 <= base[0].y && 0 <= base[0].z);
    assert(mx <= coord(e[0], 0) && my <= coord(e[0], 1) && mz <= coord(e[0], 2));
    assert(-1 <= mx && -1 <= my && -1 <= mz);
    assert forall|i: int| 0 <= i < g.len() implies 0 <= (#[trigger] g[i]).x <= m && 0 <= g[i].y <= m
        && 0 <= g[i].z <= m by {
        assert(mx <= coord(e[i], 0) && my <= coord(e[i], 1) && mz <= coord(e[i], 2));
        assert(g[i] == shifted(e[i], -mx, -my, -mz));
        if i < m {
            assert(e[i] == base[i]);
        } else {
            assert(e[i] == q);
            if mx == -1 {
                let t = choose|t: int| 0 <= t < e.len() && mx == coord(#[trigger] e[t], 0);
                if t < m {
                    assert(e[t] == base[t]);
                }
            }
            if my == -1 {
                let t = choose|t: int| 0 <= t < e.len() && my == coord(#[trigger] e[t], 1);
                if t < m {
                    assert(e[t] == base[t]);
                }
            }
            if mz == -1 {
                let t = choose|t: int| 0 <= t < e.len() && mz == coord(#[trigger] e[t], 2);
                if t < m {
                    assert(e[t] == base[t]);
                }
            }
        }
    }
    let ix = choose|i: int| 0 <= i < e.len() && mx == coord(#[trigger] e[i], 0);
    let iy = choose|i: int| 0 <= i < e.len() && my == coord(#[trigger] e[i], 1);
    let iz = choose|i: int| 0 <= i < e.len() && mz == coord(#[trigger] e[i], 2);
    assert(g[ix] == shifted(e[ix], -mx, -my, -mz));
    assert(g[iy] == shifted(e[iy], -mx, -my, -mz));
    assert(g[iz] == shifted(e[iz], -mx, -my, -mz));
    assert forall|i: int| 0 <= i < g.len() implies 0 <= coord(#[trigger] g[i], 0) by {
    }
    assert forall|i: int| 0 <= i < g.len() implies 0 <= coord(#[trigger] g[i], 1) by {
    }
    assert forall|i: int| 0 <= i < g.len() implies 0 <= coord(#[trigger] g[i], 2) by {
    }
    lemma_min_coord_unique(g, 0, 0);
    lemma_min_coord_unique(g, 1, 0);
    lemma_min_coord_unique(g, 2, 0);
}


/// A grown shape with its signature, checked connected.
pub open spec fn good_candidate(base: Seq<Pos>, c: (u64, Polycube)) -> bool {
    &&& exists|q: Pos| in_frontier(base, q) && c.1@ == grown(base, q)
    &&& c.0 == signature_of(c.1@)
    &&& c.1@.no_duplicates()
    &&& face_connected(c.1@)
}

/// The shape passes the connectivity check.
pub open spec fn passes_check(s: Seq<Pos>) -> bool {
    s.no_duplicates() && face_connected(s)
}

/// `list` holds a candidate for every frontier position whose grown shape
/// passes the check, and nothing else.
pub open spec fn candidate_list(base: Seq<Pos>, list: Seq<(u64, Polycube)>) -> bool {
    &&& forall|i: int| 0 <= i < list.len() ==> good_candidate(base, #[trigger] list[i])
    &&& forall|q: Pos|
        in_frontier(base, q) && passes_check(#[trigger] grown(base, q)) ==> exists|i: int|
            0 <= i < list.len() && (#[trigger] list[i]).1@ == grown(base, q)
}

/// Every shape that one cube more makes of `base`, each moved to the origin,
/// checked connected and paired with its signature.
pub fn base_candidates(base: &Polycube) -> (r: Vec<(u64, Polycube)>)
    requires
        growable(base@),
    ensures
        candidate_list(base@, r@),
{
    let ghost b = base@;
    proof {
        assert forall|i: int| 0 <= i < b.len() implies crate::position::steppable(#[trigger] b[i]) by {
        }
    }
    let positions = base.get_expansion_positions();
    let mut list: Vec<(u64, Polycube)> = Vec::new();
    let mut j: usize = 0;
    while j < positions.len()
        invariant
            j <= positions.len(),
            b == base@,
            growable(b),
            forall|q: Pos| positions@.contains(q) <==> in_frontier(b, q),
            forall|i: int| 0 <= i < list.len() ==> good_candidate(b, #[trigger] list@[i]),
            forall|t: int|
                0 <= t < j && passes_check(grown(b, #[trigger] positions@[t])) ==> exists|i: int|
                    0 <= i < list.len() && (#[trigger] list@[i]).1@ == grown(b, positions@[t]),
        decreases positions.len() - j,
    {
        let q = positions[j];
        assert(positions@.contains(q));
        proof {
            lemma_grown_bounds(b, q);
        }
        let expanded = base.expand(q);
        let normalized = expanded.normalize();
        let ghost list0 = list@;
        let ghost g0 = normalized@;
        if normalized.is_face_connected() {
            let signature = normalized.get_canonical_hash();
            let ghost g = normalized@;
            list.push((signature, normalized));
            proof {
                assert(list@[list.len() - 1].1@ == g);
                assert(good_candidate(b, list@[list.len() - 1]));
            }
        }
        proof {
            assert(g0 == grown(b, q));
            assert forall|t: int|
                0 <= t < j + 1 && passes_check(grown(b, #[trigger] positions@[t])) implies exists|i: int|
                    0 <= i < list.len() && (#[trigger] list@[i]).1@ == grown(b, positions@[t]) by {
                if t < j {
                    let i = choose|i: int| 0 <= i < list0.len() && (#[trigger] list0[i]).1@ == grown(b, positions@[t]);
                    assert(list@[i] == list0[i]);
                } else {
                    assert(list@[list.len() - 1].1@ == grown(b, q));
                }
            }
        }
        j = j + 1;
    }
    proof {
        assert forall|q: Pos|
            in_frontier(b, q) && passes_check(#[trigger] grown(b, q)) implies exists|i: int|
                0 <= i < list.len() && (#[trigger] list@[i]).1@ == grown(b, q) by {
            assert(positions@.contains(q));
            let t = choose|t: int| 0 <= t < positions.len() && positions@[t] == q;
        }
    }
    list
}

/// Relies on rayon's `par_iter().map(..).collect()` into a `Vec`: the
/// closure runs once for every base and the results keep the order of the
/// bases.
#[verifier::external_body]
fn candidates_in_parallel(bases: &Vec<Polycube>) -> (r: Vec<Vec<(u64, Polycube)>>)
    requires
        forall|i: int| 0 <= i < bases.len() ==> growable(#[trigger] bases[i]@),
    ensures
        r.len() == bases.len(),
        forall|i: int| 0 <= i < bases.len() ==> candidate_list(bases[i]@, #[trigger] r[i]@),
{
    bases.par_iter().map(|b| base_candidates(b)).collect()
}

/// The shape is the shape of some item of the lists.
pub open spec fn shape_in_lists(lists: Seq<Vec<(u64, Polycube)>>, s: Seq<Pos>) -> bool {
    exists|x: int, y: int|
        0 <= x < lists.len() && 0 <= y < lists[x]@.len() && #[trigger] lists[x]@[y].1@ == s
}

/// Some kept shape has signature `k`.
pub open spec fn signature_kept(kept: Seq<Polycube>, k: u64) -> bool {
    exists|i: int| 0 <= i < kept.len() && signature_of((#[trigger] kept[i])@) == k
}

/// Every item's key is its shape's signature.
pub open spec fn keyed_by_signature(lists: Seq<Vec<(u64, Polycube)>>) -> bool {
    forall|x: int, y: int|
        0 <= x < lists.len() && 0 <= y < lists[x]@.len() ==> (#[trigger] lists[x]@[y]).0
            == signature_of(lists[x]@[y].1@)
}

/// No two shapes share a signature.
pub open spec fn distinct_signatures(r: Seq<Polycube>) -> bool {
    forall|i: int, j: int|
        0 <= i < r.len() && 0 <= j < r.len() && i != j ==> signature_of(#[trigger] r[i]@)
            != signature_of(#[trigger] r[j]@)
}

/// The shapes of the lists, keeping the first shape of each signature met:
/// one survivor per signature, whatever the order of discovery.
pub fn keep_first_of_each(lists: &Vec<Vec<(u64, Polycube)>>) -> (r: Vec<Polycube>)
    requires
        keyed_by_signature(lists@),
    ensures
        forall|i: int| 0 <= i < r.len() ==> shape_in_lists(lists@, #[trigger] r[i]@),
        distinct_signatures(r@),
        forall|x: int, y: int|
            0 <= x < lists.len() && 0 <= y < lists[x].len() ==> signature_kept(
                r@,
                signature_of((#[trigger] lists[x][y]).1@),
            ),
{
    let mut seen: FxHashSet<u64> = new_key_set();
    let mut kept: Vec<Polycube> = Vec::new();
    let mut a: usize = 0;
    while a < lists.len()
        invariant
            a <= lists.len(),
            keyed_by_signature(lists@),
            forall|k: u64| key_set_contents(seen).contains(k) <==> #[trigger] signature_kept(kept@, k),
            forall|i: int| 0 <= i < kept.len() ==> shape_in_lists(lists@, #[trigger] kept[i]@),
            distinct_signatures(kept@),
            forall|x: int, y: int|
                0 <= x < a && 0 <= y < lists[x].len() ==> key_set_contents(seen).contains(
                    (#[trigger] lists[x][y]).0,
                ),
        decreases lists.len() - a,
    {
        let list = &lists[a];
        let mut b: usize = 0;
        while b < list.len()
            invariant
                a < lists.len(),
                b <= list.len(),
                *list == lists[a as int],
                keyed_by_signature(lists@),
                forall|k: u64| key_set_contents(seen).contains(k) <==> #[trigger] signature_kept(kept@, k),
                forall|i: int| 0 <= i < kept.len() ==> shape_in_lists(lists@, #[trigger] kept[i]@),
                distinct_signatures(kept@),
                forall|x: int, y: int|
                    0 <= x < a && 0 <= y < lists[x].len() ==> key_set_contents(seen).contains(
                        (#[trigger] lists[x][y]).0,
                    ),
                forall|y: int| 0 <= y < b ==> key_set_contents(seen).contains((#[trigger] list[y]).0),
            decreases list.len() - b,
        {
            let item = &list[b];
            assert(*item == lists@[a as int]@[b as int]);
            let ghost seen0 = key_set_contents(seen);
            let ghost kept0 = kept@;
            if key_set_insert(&mut seen, item.0) {
                let shape = Polycube::new(copy_positions(&item.1.cubes));
                kept.push(shape);
                proof {
                    let n = kept.len() - 1;
                    assert(kept@[n]@ == lists@[a as int]@[b as int].1@);
                    assert(shape_in_lists(lists@, kept@[n]@));
                    assert forall|k: u64|
                        key_set_contents(seen).contains(k) <==> #[trigger] signature_kept(kept@, k) by {
                        if signature_kept(kept@, k) {
                            let i = choose|i: int| 0 <= i < kept.len() && signature_of((#[trigger] kept@[i])@) == k;
                            if i < n {
                                assert(kept0[i] == kept@[i]);
                                assert(signature_kept(kept0, k));
                            }
                        }
                        if seen0.contains(k) {
                            assert(signature_kept(kept0, k));
                            let i = choose|i: int| 0 <= i < kept0.len() && signature_of((#[trigger] kept0[i])@) == k;
                            assert(kept0[i] == kept@[i]);
                        }
                        if k == item.0 {
                            assert(signature_of(kept@[n]@) == k);
                        }
                    }
                    assert forall|i: int| 0 <= i < kept.len() implies shape_in_lists(lists@, #[trigger] kept@[i]@) by {
                        if i < n {
                            assert(kept0[i] == kept@[i]);
                        }
                    }
                    assert forall|i: int, j: int|
                        0 <= i < kept.len() && 0 <= j < kept.len() && i != j implies signature_of(
                            #[trigger] kept@[i]@,
                        ) != signature_of(#[trigger] kept@[j]@) by {
                        if i < n {
                            assert(kept0[i] == kept@[i]);
                        }
                        if j < n {
                            assert(kept0[j] == kept@[j]);
                        }
                        if i == n {
                            assert(!signature_kept(kept0, signature_of(kept@[i]@)));
                        }
                        if j == n {
                            assert(!signature_kept(kept0, signature_of(kept@[j]@)));
                        }
                    }
                }
            }
            b = b + 1;
        }
        a = a + 1;
    }
    proof {
        assert forall|x: int, y: int|
            0 <= x < lists.len() && 0 <= y < lists[x].len() implies signature_kept(
                kept@,
                signature_of((#[trigger] lists[x][y]).1@),
            ) by {
            assert(key_set_contents(seen).contains(lists[x][y].0));
        }
    }
    kept
}


/// The shape is `base` grown by one frontier position, for some base of the list.
pub open spec fn grown_from(bases: Seq<Polycube>, s: Seq<Pos>) -> bool {
    exists|b: int, q: Pos| 0 <= b < bases.len() && in_frontier(bases[b]@, q) && s == #[trigger] grown(bases[b]@, q)
}

/// A shape of `n` cubes as generation yields it: at the origin, every
/// coordinate below `n`, no cube repeated, face-connected.
pub open spec fn generated_shape(s: Seq<Pos>, n: int) -> bool {
    &&& s.len() == n
    &&& coords_within(s, n - 1)
    &&& is_normalized(s)
    &&& passes_check(s)
}

/// All shapes of one size more than the bases: every shape grown from a base
/// by one frontier position, one survivor for each signature.
pub fn grow_polycubes(base_cubes: &Vec<Polycube>) -> (r: Vec<Polycube>)
    requires
        forall|i: int|
            0 <= i < base_cubes.len() ==> growable(#[trigger] base_cubes[i]@) && passes_check(
                base_cubes[i]@,
            ),
    ensures
        forall|i: int| 0 <= i < r.len() ==> grown_from(base_cubes@, #[trigger] r[i]@),
        forall|i: int| 0 <= i < r.len() ==> passes_check(#[trigger] r[i]@),
        distinct_signatures(r@),
        forall|b: int, q: Pos|
            0 <= b < base_cubes.len() && #[trigger] in_frontier(base_cubes[b]@, q) ==> signature_kept(
                r@,
                signature_of(grown(base_cubes[b]@, q)),
            ),
        base_cubes.len() > 0 ==> r.len() > 0,
{
    let lists = candidates_in_parallel(base_cubes);
    proof {
        assert forall|x: int, y: int|
            0 <= x < lists@.len() && 0 <= y < lists@[x]@.len() implies (#[trigger] lists@[x]@[y]).0
                == signature_of(lists@[x]@[y].1@) by {
            assert(candidate_list(base_cubes[x]@, lists[x]@));
            assert(good_candidate(base_cubes[x]@, lists[x]@[y]));
        }
    }
    let r = keep_first_of_each(&lists);
    proof {
        assert forall|i: int| 0 <= i < r.len() implies grown_from(base_cubes@, #[trigger] r[i]@)
            && passes_check(r[i]@) by {
            assert(shape_in_lists(lists@, r[i]@));
            let (x, y) = choose|x: int, y: int|
                0 <= x < lists@.len() && 0 <= y < lists@[x]@.len() && #[trigger] lists@[x]@[y].1@
                    == r[i]@;
            assert(candidate_list(base_cubes[x]@, lists[x]@));
            assert(good_candidate(base_cubes[x]@, lists[x]@[y]));
            let q = choose|q: Pos| in_frontier(base_cubes[x]@, q) && lists[x]@[y].1@ == grown(base_cubes[x]@, q);
            assert(base_cubes@[x] == base_cubes[x]);
        }
        assert forall|b: int, q: Pos|
            0 <= b < base_cubes.len() && #[trigger] in_frontier(base_cubes[b]@, q) implies signature_kept(
                r@,
                signature_of(grown(base_cubes[b]@, q)),
            ) by {
            lemma_grown_connected(base_cubes[b]@, q);
            assert(candidate_list(base_cubes[b]@, lists[b]@));
            let y = choose|y: int| 0 <= y < lists[b]@.len() && (#[trigger] lists[b]@[y]).1@ == grown(base_cubes[b]@, q);
            assert(lists[b][y] == lists@[b]@[y]);
        }
        if base_cubes.len() > 0 {
            let b0 = base_cubes[0]@;
            assert(growable(b0));
            assert forall|i: int| 0 <= i < b0.len() implies crate::position::steppable(#[trigger] b0[i]) by {
            }
            lemma_frontier_nonempty(b0);
            let q = choose|q: Pos| in_frontier(b0, q);
            assert(in_frontier(base_cubes[0]@, q));
            assert(signature_kept(r@, signature_of(grown(base_cubes[0]@, q))));
        }
    }
    r
}


/// `next` is the growth of `prev` by one cube, complete by signature: every
/// shape of `prev` (a non-empty set of generated shapes of `n - 1` cubes,
/// distinct by signature) grown by any frontier position has its signature
/// among `next`, and every shape of `next` is so grown.
pub open spec fn complete_growth(prev: Seq<Polycube>, next: Seq<Polycube>, n: int) -> bool {
    &&& prev.len() >= 1
    &&& forall|i: int| 0 <= i < prev.len() ==> generated_shape(#[trigger] prev[i]@, n - 1)
    &&& distinct_signatures(prev)
    &&& forall|i: int| 0 <= i < next.len() ==> grown_from(prev, #[trigger] next[i]@)
    &&& forall|b: int, q: Pos|
        0 <= b < prev.len() && #[trigger] in_frontier(prev[b]@, q) ==> signature_kept(
            next,
            signature_of(grown(prev[b]@, q)),
        )
}

/// The shapes of `n` cubes as generation yields them: the domino for two,
/// and for more the complete growth, by signature, of a generation of one
/// cube fewer.
pub open spec fn complete_generation(v: Seq<Polycube>, n: int) -> bool
    decreases n,
{
    if n <= 2 {
        v.len() == 1 && v[0]@ == seq![Pos { x: 0, y: 0, z: 0 }, Pos { x: 1, y: 0, z: 0 }]
    } else {
        exists|prev: Seq<Polycube>| complete_generation(prev, n - 1) && #[trigger] complete_growth(prev, v, n)
    }
}

/// The unit cube as generation yields it.
pub proof fn lemma_unit_shape()
    ensures
        generated_shape(seq![Pos { x: 0, y: 0, z: 0 }], 1),
{
    let s = seq![Pos { x: 0, y: 0, z: 0 }];
    lemma_small_connected(s);
    assert(coord(s[0], 0) == 0 && coord(s[0], 1) == 0 && coord(s[0], 2) == 0);
    lemma_min_coord_unique(s, 0, 0);
    lemma_min_coord_unique(s, 1, 0);
    lemma_min_coord_unique(s, 2, 0);
}

/// The domino as generation yields it.
pub proof fn lemma_domino_shape()
    ensures
        generated_shape(seq![Pos { x: 0, y: 0, z: 0 }, Pos { x: 1, y: 0, z: 0 }], 2),
{
    let s = seq![Pos { x: 0, y: 0, z: 0 }, Pos { x: 1, y: 0, z: 0 }];
    assert(coord(s[0], 0) == 0 && coord(s[1], 0) == 1);
    assert(coord(s[0], 1) == 0 && coord(s[0], 2) == 0 && coord(s[1], 1) == 0 && coord(s[1], 2) == 0);
    lemma_min_coord_unique(s, 0, 0);
    lemma_min_coord_unique(s, 1, 0);
    lemma_min_coord_unique(s, 2, 0);
    assert forall|c: Set<Pos>|
        #![trigger crate::polycube::closed_within(s, c)]
        crate::polycube::closed_within(s, c) && (exists|i: int| 0 <= i < s.len() && c.contains(#[trigger] s[i]))
            implies (forall|j: int| 0 <= j < s.len() ==> c.contains(#[trigger] s[j])) by {
        assert(s.contains(s[0]) && s.contains(s[1]));
        assert(adjacent(s[0], s[1]) && adjacent(s[1], s[0]));
        if c.contains(s[0]) {
            assert(c.contains(s[1]));
        } else {
            let i = choose|i: int| 0 <= i < s.len() && c.contains(#[trigger] s[i]);
            assert(c.contains(s[1]));
            assert(c.contains(s[0]));
        }
    }
}

/// All shapes of `n` cubes up to rotation: none for zero, the unit cube for
/// one, the domino for two, and from three on each size grown from the one
/// below with one shape kept for each signature.
pub fn generate_polycubes(n: u8) -> (r: Vec<Polycube>)
    requires
        n <= 127,
    ensures
        n == 0 ==> r.len() == 0,
        n == 1 ==> r.len() == 1 && r[0]@ == seq![Pos { x: 0, y: 0, z: 0 }],
        n == 2 ==> r.len() == 1 && r[0]@ == seq![Pos { x: 0, y: 0, z: 0 }, Pos { x: 1, y: 0, z: 0 }],
        forall|i: int| 0 <= i < r.len() ==> generated_shape(#[trigger] r[i]@, n as int),
        distinct_signatures(r@),
        n >= 1 ==> r.len() >= 1,
        n >= 2 ==> complete_generation(r@, n as int),
{
    if n < 1 {
        return Vec::new();
    } else if n == 1 {
        proof {
            lemma_unit_shape();
        }
        return vec![Polycube::unit_cube()];
    }
    proof {
        lemma_domino_shape();
    }
    let mut current: Vec<Polycube> = vec![Polycube::domino()];
    let mut size: u8 = 2;
    while size < n
        invariant
            2 <= size <= n,
            n <= 127,
            forall|i: int| 0 <= i < current.len() ==> generated_shape(#[trigger] current[i]@, size as int),
            distinct_signatures(current@),
            current.len() >= 1,
            size == 2 ==> current.len() == 1 && current[0]@ == seq![Pos { x: 0, y: 0, z: 0 }, Pos { x: 1, y: 0, z: 0 }],
            complete_generation(current@, size as int),
        decreases n - size,
    {
        let ghost prev = current@;
        let next = grow_polycubes(&current);
        proof {
            assert forall|i: int| 0 <= i < next.len() implies generated_shape(#[trigger] next[i]@, size + 1) by {
                assert(grown_from(current@, next[i]@));
                let (b, q) = choose|b: int, q: Pos|
                    0 <= b < current@.len() && in_frontier(current@[b]@, q) && next[i]@
                        == #[trigger] grown(current@[b]@, q);
                assert(generated_shape(current[b]@, size as int));
                lemma_grown_bounds(current[b]@, q);
            }
            assert(complete_growth(prev, next@, size + 1));
            assert(complete_generation(prev, size as int));
            assert(complete_generation(next@, size + 1));
        }
        current = next;
        size = size + 1;
    }
    current
}


/// Whether the shape may be grown: one to 126 cubes, every coordinate in
/// `0 ..` its number of cubes.
pub fn is_growable(p: &Polycube) -> (r: bool)
    ensures
        r == growable(p@),
{
    let n = p.cubes.len();
    if n < 1 || n > 126 {
        return false;
    }
    let hi = (n - 1) as i8;
    let mut i: usize = 0;
    while i < n
        invariant
            1 <= n <= 126,
            n == p@.len(),
            hi == n - 1,
            i <= n,
            forall|k: int| 0 <= k < i ==> 0 <= (#[trigger] p@[k]).x <= hi && 0 <= p@[k].y <= hi && 0 <= p@[k].z <= hi,
        decreases n - i,
    {
        let c = p.cubes[i];
        if c.x < 0 || c.x > hi || c.y < 0 || c.y > hi || c.z < 0 || c.z > hi {
            return false;
        }
        i = i + 1;
    }
    true
}


/// Growing a connected shape by a frontier position gives a shape that
/// passes the connectivity check.
pub proof fn lemma_grown_connected(base: Seq<Pos>, q: Pos)
    requires
        growable(base),
        passes_check(base),
        in_frontier(base, q),
    ensures
        passes_check(grown(base, q)),
{
    lemma_grown_bounds(base, q);
    lemma_push_connected(base, q);
    lemma_normalize_connected(base.push(q));
}

/// Known counts of shapes up to rotation for sizes 1 to 18.
pub fn get_known_count(n: u8) -> (r: Option<u64>)
    ensures
        r == known_count(n as int),
{
    match n {
        1 => Some(1),
        2 => Some(1),
        3 => Some(2),
        4 => Some(8),
        5 => Some(29),
        6 => Some(166),
        7 => Some(1023),
        8 => Some(6922),
        9 => Some(48311),
        10 => Some(346543),
        11 => Some(2522522),
        12 => Some(18598427),
        13 => Some(139333147),
        14 => Some(1056657611),
        15 => Some(8107839447),
        16 => Some(62709211271),
        17 => Some(489997729602),
        18 => Some(3847265309118),
        _ => None,
    }
}

} // verus!
