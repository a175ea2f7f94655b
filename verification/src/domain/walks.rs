//! Connected shapes: any two cells joined by steps of one row or one
//! column through the shape. Quarter turns, reflections and the
//! normalization that builds a piece's variants keep a shape connected.

use crate::domain::piece::{
    candidate, coords_in_range, distinct_candidates, lemma_min_col, lemma_min_row, lemma_range_reflect,
    lemma_rot_k_props, lemma_sort_cells, min_col, min_row, normalized_cells, reflect_cell, rot90, rot_k,
    shift_cell, Coord,
};
use vstd::prelude::*;

verus! {

/// The integer point of a cell.
pub open spec fn pt(p: Coord) -> (int, int) {
    (p.0 as int, p.1 as int)
}

/// Two points one row or one column apart.
pub open spec fn unit_apart(a: (int, int), b: (int, int)) -> bool {
    ||| a.0 == b.0 && (a.1 == b.1 + 1 || b.1 == a.1 + 1)
    ||| a.1 == b.1 && (a.0 == b.0 + 1 || b.0 == a.0 + 1)
}

/// `w` is a non-empty walk through cells of `s`, one row or one column
/// at each step.
pub open spec fn walk_within(w: Seq<Coord>, s: Seq<Coord>) -> bool {
    &&& w.len() > 0
    &&& forall|i: int| 0 <= i < w.len() ==> s.contains(#[trigger] w[i])
    &&& forall|i: int| 0 <= i < w.len() - 1 ==> unit_apart(pt(#[trigger] w[i]), pt(w[i + 1]))
}

/// Any two cells of `s` are joined by a walk through cells of `s`.
pub open spec fn cells_connected(s: Seq<Coord>) -> bool {
    forall|x: Coord, y: Coord|
        #![trigger s.contains(x), s.contains(y)]
        s.contains(x) && s.contains(y) ==> exists|w: Seq<Coord>|
            #[trigger] walk_within(w, s) && w[0] == x && w.last() == y
}

/// Lists with the same cells are connected alike.
pub proof fn lemma_connected_same_cells(s: Seq<Coord>, t: Seq<Coord>)
    requires
        cells_connected(s),
        forall|x: Coord| s.contains(x) <==> t.contains(x),
    ensures
        cells_connected(t),
{
    assert forall|x: Coord, y: Coord| t.contains(x) && t.contains(y) implies exists|w: Seq<Coord>|
        #[trigger] walk_within(w, t) && w[0] == x && w.last() == y by {
        assert(s.contains(x) && s.contains(y));
        let w = choose|w: Seq<Coord>| walk_within(w, s) && w[0] == x && w.last() == y;
        assert forall|i: int| 0 <= i < w.len() implies t.contains(#[trigger] w[i]) by {
            assert(s.contains(w[i]));
        }
        assert(walk_within(w, t));
    }
}

/// A map that keeps unit steps between cells of `s` keeps `s` connected.
pub proof fn lemma_connected_map(s: Seq<Coord>, f: spec_fn(Coord) -> Coord)
    requires
        cells_connected(s),
        forall|a: Coord, b: Coord|
            #![trigger f(a), f(b)]
            s.contains(a) && s.contains(b) && unit_apart(pt(a), pt(b)) ==> unit_apart(pt(f(a)), pt(f(b))),
    ensures
        cells_connected(s.map_values(f)),
{
    let t = s.map_values(f);
    assert forall|x: Coord, y: Coord| t.contains(x) && t.contains(y) implies exists|w: Seq<Coord>|
        #[trigger] walk_within(w, t) && w[0] == x && w.last() == y by {
        let i = choose|i: int| 0 <= i < t.len() && t[i] == x;
        let j = choose|j: int| 0 <= j < t.len() && t[j] == y;
        assert(s.contains(s[i]) && s.contains(s[j]));
        let w = choose|w: Seq<Coord>| walk_within(w, s) && w[0] == s[i] && w.last() == s[j];
        let w2 = w.map_values(f);
        assert forall|m: int| 0 <= m < w2.len() implies t.contains(#[trigger] w2[m]) by {
            assert(s.contains(w[m]));
            let q = choose|q: int| 0 <= q < s.len() && s[q] == w[m];
            assert(t[q] == w2[m]);
        }
        assert forall|m: int| 0 <= m < w2.len() - 1 implies unit_apart(pt(#[trigger] w2[m]), pt(w2[m + 1])) by {
            assert(unit_apart(pt(w[m]), pt(w[m + 1])));
            assert(s.contains(w[m]) && s.contains(w[m + 1]));
            assert(w2[m] == f(w[m]) && w2[m + 1] == f(w[m + 1]));
        }
        assert(walk_within(w2, t));
        assert(w2[0] == x && w2.last() == y);
    }
}

/// A quarter turn keeps a connected shape in range connected.
proof fn lemma_connected_rot90(s: Seq<Coord>)
    requires
        cells_connected(s),
        coords_in_range(s),
    ensures
        cells_connected(s.map_values(|p: Coord| rot90(p))),
{
    let f = |p: Coord| rot90(p);
    assert forall|a: Coord, b: Coord|
        #![trigger f(a), f(b)]
        s.contains(a) && s.contains(b) && unit_apart(pt(a), pt(b)) implies unit_apart(pt(f(a)), pt(f(b))) by {
        let i = choose|i: int| 0 <= i < s.len() && s[i] == a;
        let j = choose|j: int| 0 <= j < s.len() && s[j] == b;
        assert(s[i].0 >= -127 && s[j].0 >= -127);
    }
    lemma_connected_map(s, f);
}

/// A reflection keeps a connected shape in range connected.
proof fn lemma_connected_reflect(s: Seq<Coord>)
    requires
        cells_connected(s),
        coords_in_range(s),
    ensures
        cells_connected(s.map_values(|p: Coord| reflect_cell(p))),
{
    let f = |p: Coord| reflect_cell(p);
    assert forall|a: Coord, b: Coord|
        #![trigger f(a), f(b)]
        s.contains(a) && s.contains(b) && unit_apart(pt(a), pt(b)) implies unit_apart(pt(f(a)), pt(f(b))) by {
        let i = choose|i: int| 0 <= i < s.len() && s[i] == a;
        let j = choose|j: int| 0 <= j < s.len() && s[j] == b;
        assert(s[i].1 >= -127 && s[j].1 >= -127);
    }
    lemma_connected_map(s, f);
}

/// `k` quarter turns keep a connected shape in range connected.
proof fn lemma_connected_rot_k(s: Seq<Coord>, k: nat)
    requires
        cells_connected(s),
        coords_in_range(s),
        s.no_duplicates(),
    ensures
        cells_connected(s.map_values(|p: Coord| rot_k(p, k))),
        coords_in_range(s.map_values(|p: Coord| rot_k(p, k))),
        s.map_values(|p: Coord| rot_k(p, k)).no_duplicates(),
    decreases k,
{
    lemma_rot_k_props(s, k);
    if k == 0 {
        assert(s.map_values(|p: Coord| rot_k(p, k)) =~= s);
    } else {
        let prev = s.map_values(|p: Coord| rot_k(p, (k - 1) as nat));
        lemma_connected_rot_k(s, (k - 1) as nat);
        lemma_connected_rot90(prev);
        assert(s.map_values(|p: Coord| rot_k(p, k)) =~= prev.map_values(|p: Coord| rot90(p)));
    }
}

/// Normalization keeps a connected shape in range connected.
proof fn lemma_connected_normalized(t: Seq<Coord>)
    requires
        t.len() > 0,
        cells_connected(t),
        coords_in_range(t),
    ensures
        cells_connected(normalized_cells(t)),
{
    lemma_min_row(t);
    lemma_min_col(t);
    let mr = min_row(t);
    let mc = min_col(t);
    let jr = choose|j: int| 0 <= j < t.len() && mr == (#[trigger] t[j]).0;
    let jc = choose|j: int| 0 <= j < t.len() && mc == (#[trigger] t[j]).1;
    let f = |p: Coord| shift_cell(p, mr, mc);
    assert forall|a: Coord, b: Coord|
        #![trigger f(a), f(b)]
        t.contains(a) && t.contains(b) && unit_apart(pt(a), pt(b)) implies unit_apart(pt(f(a)), pt(f(b))) by {
        let i = choose|i: int| 0 <= i < t.len() && t[i] == a;
        let j = choose|j: int| 0 <= j < t.len() && t[j] == b;
        assert(t[i].0 - t[jr].0 <= 127 && t[j].0 - t[jr].0 <= 127);
        assert(t[i].1 - t[jc].1 <= 127 && t[j].1 - t[jc].1 <= 127);
        assert(mr <= t[i].0 && mr <= t[j].0 && mc <= t[i].1 && mc <= t[j].1);
    }
    lemma_connected_map(t, f);
    let sh = t.map_values(f);
    lemma_sort_cells(sh);
    let sorted = sh.sort_by(crate::domain::piece::row_major());
    assert forall|x: Coord| sh.contains(x) <==> sorted.contains(x) by {
        if sh.contains(x) {
            let k = choose|k: int| 0 <= k < sh.len() && sh[k] == x;
            assert(sorted.contains(sh[k]));
        }
        if sorted.contains(x) {
            let k = choose|k: int| 0 <= k < sorted.len() && sorted[k] == x;
            assert(sh.contains(sorted[k]));
        }
    }
    lemma_connected_same_cells(sh, sorted);
    assert(normalized_cells(t) == sorted);
}

/// Every candidate variant of a connected definition is connected.
pub proof fn lemma_candidate_connected(cells: Seq<Coord>, mark: Coord, i: int)
    requires
        0 <= i,
        cells.len() > 0,
        cells_connected(cells),
        coords_in_range(cells),
        cells.no_duplicates(),
    ensures
        cells_connected(candidate(cells, mark, i).0),
{
    let k = (i / 2) as nat;
    let r = cells.map_values(|p: Coord| rot_k(p, k));
    lemma_connected_rot_k(cells, k);
    let t = if i % 2 == 1 {
        cells.map_values(|p: Coord| reflect_cell(rot_k(p, k)))
    } else {
        cells.map_values(|p: Coord| rot_k(p, k))
    };
    if i % 2 == 1 {
        lemma_connected_reflect(r);
        lemma_range_reflect(r);
        assert(t =~= r.map_values(|p: Coord| reflect_cell(p)));
    }
    assert(coords_in_range(t) && cells_connected(t) && t.len() > 0);
    lemma_connected_normalized(t);
}

/// Every variant of a connected definition is connected.
pub proof fn lemma_variants_connected(cells: Seq<Coord>, mark: Coord, n: int)
    requires
        cells.len() > 0,
        cells_connected(cells),
        coords_in_range(cells),
        cells.no_duplicates(),
    ensures
        forall|j: int|
            0 <= j < distinct_candidates(cells, mark, n).len() ==> cells_connected(
                (#[trigger] distinct_candidates(cells, mark, n)[j]).0,
            ),
    decreases n,
{
    if n > 0 {
        lemma_variants_connected(cells, mark, n - 1);
        lemma_candidate_connected(cells, mark, n - 1);
        let prev = distinct_candidates(cells, mark, n - 1);
        let cur = distinct_candidates(cells, mark, n);
        assert forall|j: int| 0 <= j < cur.len() implies cells_connected((#[trigger] cur[j]).0) by {
            if j < prev.len() {
                assert(cur[j] == prev[j]);
            } else {
                assert(cur[j] == candidate(cells, mark, n - 1));
            }
        }
    }
}

} // verus!
