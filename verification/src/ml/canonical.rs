//! Canonical bitmaps of piece shapes: the least rotation or reflection of a
//! shape, drawn into a square grid in row-major order.

use vstd::prelude::*;

use crate::domain::piece::{
    Coord, PieceDef, VariantModel, all_variants, candidate, copy_coords, distinct_candidates, in_box,
    lemma_variant_in_box, lemma_variant_no_dup, lemma_variant_shape, lemma_variants_nonempty,
    spans_within, variants_model, coords_in_range, rot90, rot_k, reflect_cell, lemma_candidate_multiset,
    shift_cell, min_row, min_col, normalized_cells, lemma_range_rot90, lemma_range_reflect,
};

verus! {

/// Side length of the canonical bitmap.
pub const SIDE: usize = 6;

/// Cells in the canonical bitmap (`SIDE x SIDE`).
pub const BITMAP_SIZE: usize = 36;

/// Side length of the compact canonical bitmap.
pub const SMALL_SIDE: usize = 5;

/// `a` comes before `b` in row-major order (the order of `(i8, i8)` tuples).
pub open spec fn coord_lt(a: Coord, b: Coord) -> bool {
    a.0 < b.0 || (a.0 == b.0 && a.1 < b.1)
}

/// `a` is lexicographically less than `b` when both are compared from
/// position `i` on (the order of `Vec<(i8, i8)>`).
pub open spec fn lex_lt_from(a: Seq<Coord>, b: Seq<Coord>, i: int) -> bool
    decreases a.len() - i,
{
    if i >= a.len() {
        i < b.len()
    } else if i >= b.len() {
        false
    } else if coord_lt(a[i], b[i]) {
        true
    } else if a[i] == b[i] {
        lex_lt_from(a, b, i + 1)
    } else {
        false
    }
}

/// `a` is lexicographically less than `b`.
pub open spec fn lex_lt(a: Seq<Coord>, b: Seq<Coord>) -> bool {
    lex_lt_from(a, b, 0)
}

/// Index of the first of the first `n` variants whose cells are least.
pub open spec fn min_variant(vs: Seq<VariantModel>, n: int) -> int
    decreases n,
{
    if n <= 1 {
        0
    } else {
        let m = min_variant(vs, n - 1);
        if lex_lt(vs[n - 1].0, vs[m].0) {
            n - 1
        } else {
            m
        }
    }
}

/// The cells of the least variant of a shape.
pub open spec fn canonical_cells(cells: Seq<Coord>, mark_index: int) -> Seq<Coord> {
    let vs = distinct_candidates(cells, cells[mark_index], 8);
    vs[min_variant(vs, vs.len() as int)].0
}

/// Some cell of `cells` is at row `r` and column `c`.
pub open spec fn has_cell(cells: Seq<Coord>, r: int, c: int) -> bool {
    exists|k: int| 0 <= k < cells.len() && (#[trigger] cells[k]).0 == r && cells[k].1 == c
}

/// The `side x side` row-major bitmap of `cells`: 1 where a cell is, 0
/// elsewhere.
pub open spec fn bitmap_of(cells: Seq<Coord>, side: int) -> Seq<u8> {
    Seq::new(
        (side * side) as nat,
        |i: int|
            if has_cell(cells, i / side, i % side) {
                1u8
            } else {
                0u8
            },
    )
}

/// The canonical `side x side` bitmap of a shape.
pub open spec fn canonical_bitmap_of(cells: Seq<Coord>, mark_index: int, side: int) -> Seq<u8> {
    bitmap_of(canonical_cells(cells, mark_index), side)
}

fn coords_less(a: &[Coord], b: &[Coord]) -> (r: bool)
    ensures
        r == lex_lt(a@, b@),
{
    let mut i: usize = 0;
    while i < a.len() && i < b.len() && a[i].0 == b[i].0 && a[i].1 == b[i].1
        invariant
            i <= a.len(),
            i <= b.len(),
            lex_lt_from(a@, b@, 0) == lex_lt_from(a@, b@, i as int),
        decreases a.len() - i,
    {
        assert(a@[i as int] == b@[i as int]);
        i = i + 1;
    }
    if i == a.len() {
        i < b.len()
    } else if i == b.len() {
        false
    } else {
        a[i].0 < b[i].0 || (a[i].0 == b[i].0 && a[i].1 < b[i].1)
    }
}

/// The cells of the least variant of `def`, in row-major order.
fn canonical_variant_cells(def: &PieceDef) -> (r: Vec<Coord>)
    requires
        def.wf(),
    ensures
        r@ == canonical_cells(def.cells@, def.mark_index as int),
{
    let variants = all_variants(def);
    let ghost vs = distinct_candidates(def.cells@, def.cells@[def.mark_index as int], 8);
    proof {
        lemma_variants_nonempty(def.cells@, def.cells@[def.mark_index as int], 8);
        assert(variants_model(variants@).len() == variants@.len());
    }
    let mut best: usize = 0;
    let mut i: usize = 1;
    while i < variants.len()
        invariant
            1 <= i <= variants@.len(),
            variants_model(variants@) == vs,
            vs.len() == variants@.len(),
            best as int == min_variant(vs, i as int),
            best < i,
        decreases variants.len() - i,
    {
        assert(vs[i as int].0 == variants@[i as int].cells@);
        assert(vs[best as int].0 == variants@[best as int].cells@);
        if coords_less(&variants[i].cells, &variants[best].cells) {
            best = i;
        }
        i = i + 1;
    }
    assert(vs[best as int].0 == variants@[best as int].cells@);
    copy_coords(&variants[best].cells)
}

proof fn lemma_index(i: int, r: int, c: int, side: int)
    requires
        side > 0,
        0 <= c < side,
    ensures
        (i / side == r && i % side == c) <==> i == r * side + c,
{
    if i == r * side + c {
        vstd::arithmetic::div_mod::lemma_fundamental_div_mod_converse(i, side, r, c);
    }
    if i / side == r && i % side == c {
        vstd::arithmetic::div_mod::lemma_fundamental_div_mod(i, side);
        assert(side * r == r * side) by (nonlinear_arith);
    }
}

/// Draws `cells`, which lie in the `side x side` square, into a row-major
/// bitmap.
fn bitmap_from(cells: &[Coord], side: usize) -> (r: Vec<u8>)
    requires
        1 <= side <= SIDE,
        in_box(cells@, side - 1),
    ensures
        r@ == bitmap_of(cells@, side as int),
{
    assert(side * side <= 36) by (nonlinear_arith)
        requires
            side <= 6,
    ;
    let n = side * side;
    let mut bm: Vec<u8> = Vec::new();
    let mut k: usize = 0;
    while k < n
        invariant
            k <= n,
            n == side * side,
            bm@.len() == k,
            forall|t: int| 0 <= t < k ==> bm@[t] == 0u8,
        decreases n - k,
    {
        bm.push(0);
        k = k + 1;
    }
    proof {
        assert(bm@ =~= bitmap_of(cells@.take(0), side as int));
    }
    let mut j: usize = 0;
    while j < cells.len()
        invariant
            j <= cells@.len(),
            1 <= side <= SIDE,
            n == side * side,
            in_box(cells@, side - 1),
            bm@ == bitmap_of(cells@.take(j as int), side as int),
        decreases cells.len() - j,
    {
        let (r, c) = cells[j];
        assert(0 <= r < side && 0 <= c < side);
        let ru = r as usize;
        let cu = c as usize;
        assert(ru * side + cu < side * side) by (nonlinear_arith)
            requires
                ru < side,
                cu < side,
        ;
        let idx = ru * side + cu;
        bm.set(idx, 1);
        proof {
            let prev = cells@.take(j as int);
            let next = cells@.take(j + 1);
            assert forall|t: int| 0 <= t < (side * side) as int implies #[trigger] bm@[t]
                == bitmap_of(next, side as int)[t] by {
                lemma_index(t, r as int, c as int, side as int);
                if has_cell(next, t / side as int, t % side as int) {
                    let k = choose|k: int|
                        0 <= k < next.len() && (#[trigger] next[k]).0 == t / side as int && next[k].1
                            == t % side as int;
                    if k < j {
                        assert(prev[k] == next[k]);
                    }
                }
                if has_cell(prev, t / side as int, t % side as int) {
                    let k = choose|k: int|
                        0 <= k < prev.len() && (#[trigger] prev[k]).0 == t / side as int && prev[k].1
                            == t % side as int;
                    assert(prev[k] == next[k]);
                }
                if t == idx {
                    assert(next[j as int] == cells@[j as int]);
                }
            }
            assert(bm@ =~= bitmap_of(next, side as int));
        }
        j = j + 1;
    }
    assert(cells@.take(cells@.len() as int) =~= cells@);
    bm
}

/// The canonical `side x side` bitmap of `def`.
fn canonical_bitmap_side(def: &PieceDef, side: usize) -> (r: Vec<u8>)
    requires
        def.wf(),
        1 <= side <= SIDE,
        spans_within(def.cells@, side - 1),
    ensures
        r@ == canonical_bitmap_of(def.cells@, def.mark_index as int, side as int),
{
    let cells = canonical_variant_cells(def);
    proof {
        let vs = distinct_candidates(def.cells@, def.cells@[def.mark_index as int], 8);
        lemma_variants_nonempty(def.cells@, def.cells@[def.mark_index as int], 8);
        lemma_variant_in_box(def.cells@, def.cells@[def.mark_index as int], 8, side - 1);
        lemma_min_variant_bound(vs, vs.len() as int);
        let m = min_variant(vs, vs.len() as int);
        assert(in_box(vs[m].0, side - 1));
    }
    bitmap_from(&cells, side)
}

proof fn lemma_min_variant_bound(vs: Seq<VariantModel>, n: int)
    requires
        1 <= n,
    ensures
        0 <= min_variant(vs, n) < n,
    decreases n,
{
    if n > 1 {
        lemma_min_variant_bound(vs, n - 1);
    }
}

/// The canonical 6x6 bitmap of `def`: its least variant (cells compared
/// lexicographically in row-major order) drawn row-major. The shape must
/// fit in 6x6, which holds of every shape of at most six connected cells.
pub fn canonical_bitmap(def: &PieceDef) -> (r: Vec<u8>)
    requires
        def.wf(),
        spans_within(def.cells@, SIDE - 1),
    ensures
        r@ == canonical_bitmap_of(def.cells@, def.mark_index as int, SIDE as int),
        r@.len() == BITMAP_SIZE,
{
    canonical_bitmap_side(def, SIDE)
}

/// The canonical 5x5 bitmap of `def`, drawn as [`canonical_bitmap`]
/// draws it. The shape must fit in 5x5.
pub fn canonical_5x5_bitmap(def: &PieceDef) -> (r: Vec<u8>)
    requires
        def.wf(),
        spans_within(def.cells@, SMALL_SIDE - 1),
    ensures
        r@ == canonical_bitmap_of(def.cells@, def.mark_index as int, SMALL_SIDE as int),
        r@.len() == SMALL_SIDE * SMALL_SIDE,
{
    canonical_bitmap_side(def, SMALL_SIDE)
}

proof fn lemma_candidates_mark_free(cells: Seq<Coord>, m1: Coord, m2: Coord, n: int)
    ensures
        distinct_candidates(cells, m1, n).len() == distinct_candidates(cells, m2, n).len(),
        forall|j: int|
            0 <= j < distinct_candidates(cells, m1, n).len() ==> (#[trigger] distinct_candidates(
                cells,
                m1,
                n,
            )[j]).0 == distinct_candidates(cells, m2, n)[j].0,
    decreases n,
{
    if n > 0 {
        lemma_candidates_mark_free(cells, m1, m2, n - 1);
        let p1 = distinct_candidates(cells, m1, n - 1);
        let p2 = distinct_candidates(cells, m2, n - 1);
        let c1 = candidate(cells, m1, n - 1);
        let c2 = candidate(cells, m2, n - 1);
        assert(c1.0 == c2.0);
        let e1 = exists|j: int| 0 <= j < p1.len() && (#[trigger] p1[j]).0 == c1.0;
        let e2 = exists|j: int| 0 <= j < p2.len() && (#[trigger] p2[j]).0 == c2.0;
        if e1 {
            let j = choose|j: int| 0 <= j < p1.len() && (#[trigger] p1[j]).0 == c1.0;
            assert(p2[j].0 == c2.0);
        }
        if e2 {
            let j = choose|j: int| 0 <= j < p2.len() && (#[trigger] p2[j]).0 == c2.0;
            assert(p1[j].0 == c1.0);
        }
        assert(e1 == e2);
        let d1 = distinct_candidates(cells, m1, n);
        let d2 = distinct_candidates(cells, m2, n);
        assert forall|j: int| 0 <= j < d1.len() implies (#[trigger] d1[j]).0 == d2[j].0 by {
            if j < p1.len() {
                assert(d1[j] == p1[j] && d2[j] == p2[j]);
            }
        }
    }
}

proof fn lemma_min_variant_same(a: Seq<VariantModel>, b: Seq<VariantModel>, n: int)
    requires
        0 <= n <= a.len(),
        a.len() == b.len(),
        forall|j: int| 0 <= j < a.len() ==> (#[trigger] a[j]).0 == b[j].0,
    ensures
        min_variant(a, n) == min_variant(b, n),
    decreases n,
{
    if n > 1 {
        lemma_min_variant_same(a, b, n - 1);
        lemma_min_variant_bound(a, n - 1);
        let m = min_variant(a, n - 1);
        assert(a[m].0 == b[m].0);
        assert(a[n - 1].0 == b[n - 1].0);
    }
}

/// The canonical cells of a shape do not depend on which cell is its mark.
pub proof fn lemma_canonical_mark_free(cells: Seq<Coord>, a: int, b: int)
    ensures
        canonical_cells(cells, a) == canonical_cells(cells, b),
{
    let v1 = distinct_candidates(cells, cells[a], 8);
    let v2 = distinct_candidates(cells, cells[b], 8);
    lemma_candidates_mark_free(cells, cells[a], cells[b], 8);
    lemma_min_variant_same(v1, v2, v1.len() as int);
    let m = min_variant(v1, v1.len() as int);
    if v1.len() > 0 {
        lemma_min_variant_bound(v1, v1.len() as int);
        assert(v1[m].0 == v2[m].0);
    } else {
        lemma_variants_nonempty(cells, cells[a], 8);
    }
}

proof fn lemma_candidates_multiset(a: Seq<Coord>, ma: Coord, b: Seq<Coord>, mb: Coord, n: int)
    requires
        a.len() > 0,
        a.to_multiset() == b.to_multiset(),
    ensures
        distinct_candidates(a, ma, n).len() == distinct_candidates(b, mb, n).len(),
        forall|j: int|
            0 <= j < distinct_candidates(a, ma, n).len() ==> (#[trigger] distinct_candidates(a, ma, n)[j]).0
                == distinct_candidates(b, mb, n)[j].0,
    decreases n,
{
    if n > 0 {
        lemma_candidates_multiset(a, ma, b, mb, n - 1);
        let p1 = distinct_candidates(a, ma, n - 1);
        let p2 = distinct_candidates(b, mb, n - 1);
        let c1 = candidate(a, ma, n - 1);
        let c2 = candidate(b, mb, n - 1);
        lemma_candidate_multiset(a, ma, b, mb, n - 1);
        assert(c1.0 == c2.0);
        let e1 = exists|j: int| 0 <= j < p1.len() && (#[trigger] p1[j]).0 == c1.0;
        let e2 = exists|j: int| 0 <= j < p2.len() && (#[trigger] p2[j]).0 == c2.0;
        if e1 {
            let j = choose|j: int| 0 <= j < p1.len() && (#[trigger] p1[j]).0 == c1.0;
            assert(p2[j].0 == c2.0);
        }
        if e2 {
            let j = choose|j: int| 0 <= j < p2.len() && (#[trigger] p2[j]).0 == c2.0;
            assert(p1[j].0 == c1.0);
        }
        assert(e1 == e2);
        let d1 = distinct_candidates(a, ma, n);
        let d2 = distinct_candidates(b, mb, n);
        assert forall|j: int| 0 <= j < d1.len() implies (#[trigger] d1[j]).0 == d2[j].0 by {
            if j < p1.len() {
                assert(d1[j] == p1[j] && d2[j] == p2[j]);
            }
        }
    }
}

/// The canonical cells of a shape depend only on its multiset of cells,
/// not on their order or on the mark.
pub proof fn lemma_canonical_multiset(a: Seq<Coord>, ia: int, b: Seq<Coord>, ib: int)
    requires
        a.len() > 0,
        a.to_multiset() == b.to_multiset(),
    ensures
        canonical_cells(a, ia) == canonical_cells(b, ib),
{
    let v1 = distinct_candidates(a, a[ia], 8);
    let v2 = distinct_candidates(b, b[ib], 8);
    lemma_candidates_multiset(a, a[ia], b, b[ib], 8);
    lemma_min_variant_same(v1, v2, v1.len() as int);
    let m = min_variant(v1, v1.len() as int);
    if v1.len() > 0 {
        lemma_min_variant_bound(v1, v1.len() as int);
        assert(v1[m].0 == v2[m].0);
    } else {
        lemma_variants_nonempty(a, a[ia], 8);
    }
}

/// Number of ones among the first `n` entries of a bitmap.
pub open spec fn count_ones(bm: Seq<u8>, n: int) -> int
    decreases n,
{
    if n <= 0 {
        0
    } else {
        count_ones(bm, n - 1) + if bm[n - 1] == 1u8 {
            1int
        } else {
            0int
        }
    }
}

proof fn lemma_count_update(bm: Seq<u8>, i: int, n: int)
    requires
        0 <= i < n <= bm.len(),
        bm[i] == 0u8,
    ensures
        count_ones(bm.update(i, 1u8), n) == count_ones(bm, n) + 1,
    decreases n,
{
    if n - 1 > i {
        lemma_count_update(bm, i, n - 1);
    } else {
        lemma_count_same(bm, bm.update(i, 1u8), n - 1);
    }
}

proof fn lemma_count_same(a: Seq<u8>, b: Seq<u8>, n: int)
    requires
        0 <= n <= a.len(),
        n <= b.len(),
        forall|k: int| 0 <= k < n ==> a[k] == b[k],
    ensures
        count_ones(a, n) == count_ones(b, n),
    decreases n,
{
    if n > 0 {
        lemma_count_same(a, b, n - 1);
    }
}

proof fn lemma_count_zero(bm: Seq<u8>, n: int)
    requires
        0 <= n <= bm.len(),
        forall|k: int| 0 <= k < n ==> bm[k] == 0u8,
    ensures
        count_ones(bm, n) == 0,
    decreases n,
{
    if n > 0 {
        lemma_count_zero(bm, n - 1);
    }
}

/// The bitmap of distinct cells in the `side x side` square has one 1 per
/// cell.
pub proof fn lemma_bitmap_ones(cells: Seq<Coord>, side: int)
    requires
        1 <= side <= SIDE,
        cells.no_duplicates(),
        in_box(cells, side - 1),
    ensures
        count_ones(bitmap_of(cells, side), side * side) == cells.len(),
    decreases cells.len(),
{
    assert(side * side <= 36 && side * side >= 1) by (nonlinear_arith)
        requires
            1 <= side <= 6,
    ;
    if cells.len() == 0 {
        lemma_count_zero(bitmap_of(cells, side), side * side);
    } else {
        let c = cells.drop_last();
        let x = cells.last();
        assert forall|a: int, b: int| 0 <= a < c.len() && 0 <= b < c.len() && a != b implies c[a] != c[b] by {
            assert(c[a] == cells[a] && c[b] == cells[b]);
        }
        assert(in_box(c, side - 1)) by {
            assert forall|k: int| 0 <= k < c.len() implies 0 <= (#[trigger] c[k]).0 <= side - 1 && 0 <= c[k].1
                <= side - 1 by {
                assert(c[k] == cells[k]);
            }
        }
        lemma_bitmap_ones(c, side);
        let idx = x.0 * side + x.1;
        assert(0 <= x.0 < side && 0 <= x.1 < side);
        assert(0 <= idx < side * side) by (nonlinear_arith)
            requires
                0 <= x.0 < side,
                0 <= x.1 < side,
                idx == x.0 * side + x.1,
        ;
        let b0 = bitmap_of(c, side);
        let b1 = bitmap_of(cells, side);
        lemma_index(idx, x.0 as int, x.1 as int, side);
        assert(b0[idx] == 0u8) by {
            if has_cell(c, idx / side, idx % side) {
                let k = choose|k: int| 0 <= k < c.len() && (#[trigger] c[k]).0 == idx / side && c[k].1 == idx % side;
                assert(c[k] == cells[k]);
                assert(cells[k] == x);
            }
        }
        assert forall|t: int| 0 <= t < side * side implies #[trigger] b1[t] == b0.update(idx, 1u8)[t] by {
            lemma_index(t, x.0 as int, x.1 as int, side);
            if has_cell(cells, t / side, t % side) {
                let k = choose|k: int|
                    0 <= k < cells.len() && (#[trigger] cells[k]).0 == t / side && cells[k].1 == t % side;
                if k < c.len() {
                    assert(c[k] == cells[k]);
                }
            }
            if has_cell(c, t / side, t % side) {
                let k = choose|k: int| 0 <= k < c.len() && (#[trigger] c[k]).0 == t / side && c[k].1 == t % side;
                assert(cells[k] == c[k]);
            }
            if t == idx {
                assert(cells[cells.len() - 1] == x);
            }
        }
        lemma_count_same(b1, b0.update(idx, 1u8), side * side);
        lemma_count_update(b0, idx, side * side);
    }
}

/// The canonical bitmap of a shape without repeated cells that fits the
/// square has one 1 per cell of the shape.
pub proof fn lemma_canonical_ones(cells: Seq<Coord>, mark_index: int, side: int)
    requires
        1 <= side <= SIDE,
        0 <= mark_index < cells.len(),
        coords_in_range(cells),
        cells.no_duplicates(),
        spans_within(cells, side - 1),
    ensures
        count_ones(canonical_bitmap_of(cells, mark_index, side), side * side) == cells.len(),
{
    let vs = distinct_candidates(cells, cells[mark_index], 8);
    lemma_variants_nonempty(cells, cells[mark_index], 8);
    lemma_min_variant_bound(vs, vs.len() as int);
    lemma_variant_in_box(cells, cells[mark_index], 8, side - 1);
    lemma_variant_no_dup(cells, cells[mark_index], 8);
    lemma_variant_shape(cells, mark_index, 8);
    let m = min_variant(vs, vs.len() as int);
    assert(vs[m].0.len() == cells.len());
    lemma_bitmap_ones(vs[m].0, side);
}

/// Two shapes without repeated cells that fit 6x6 and share a canonical
/// bitmap have the same number of cells.
pub proof fn lemma_bitmap_cell_count_same(a: Seq<Coord>, ma: int, b: Seq<Coord>)
    requires
        0 <= ma < a.len(),
        coords_in_range(a),
        a.no_duplicates(),
        spans_within(a, SIDE - 1),
        b.len() > 0,
        coords_in_range(b),
        b.no_duplicates(),
        spans_within(b, SIDE - 1),
        canonical_bitmap_of(a, ma, SIDE as int) == canonical_bitmap_of(b, 0, SIDE as int),
    ensures
        a.len() == b.len(),
{
    lemma_canonical_ones(a, ma, SIDE as int);
    lemma_canonical_ones(b, 0, SIDE as int);
}

proof fn lemma_lex_irreflexive(a: Seq<Coord>, i: int)
    requires
        0 <= i,
    ensures
        !lex_lt_from(a, a, i),
    decreases a.len() - i,
{
    if i < a.len() {
        lemma_lex_irreflexive(a, i + 1);
    }
}

proof fn lemma_lex_total(a: Seq<Coord>, b: Seq<Coord>, i: int)
    requires
        0 <= i <= a.len(),
        a.len() == b.len(),
        a != b,
        forall|j: int| 0 <= j < i ==> a[j] == b[j],
    ensures
        lex_lt_from(a, b, i) || lex_lt_from(b, a, i),
    decreases a.len() - i,
{
    if i == a.len() {
        assert(a =~= b);
    } else if a[i] == b[i] {
        lemma_lex_total(a, b, i + 1);
    }
}

proof fn lemma_lex_transitive(a: Seq<Coord>, b: Seq<Coord>, c: Seq<Coord>, i: int)
    requires
        0 <= i,
        a.len() == b.len(),
        b.len() == c.len(),
        lex_lt_from(a, b, i),
        lex_lt_from(b, c, i),
    ensures
        lex_lt_from(a, c, i),
    decreases a.len() - i,
{
    if i < a.len() && a[i] == b[i] && b[i] == c[i] {
        lemma_lex_transitive(a, b, c, i + 1);
    }
}

proof fn lemma_lex_asymmetric(a: Seq<Coord>, b: Seq<Coord>, i: int)
    requires
        0 <= i,
        lex_lt_from(a, b, i),
    ensures
        !lex_lt_from(b, a, i),
    decreases a.len() - i,
{
    if i < a.len() && i < b.len() && a[i] == b[i] {
        lemma_lex_asymmetric(a, b, i + 1);
    }
}

/// All candidate cell lists of a shape have its length.
spec fn same_lengths(vs: Seq<VariantModel>, n: nat) -> bool {
    forall|j: int| 0 <= j < vs.len() ==> (#[trigger] vs[j]).0.len() == n
}

/// The least variant is not preceded by any other.
proof fn lemma_min_variant_least(vs: Seq<VariantModel>, n: int, len: nat)
    requires
        1 <= n <= vs.len(),
        same_lengths(vs, len),
    ensures
        0 <= min_variant(vs, n) < n,
        forall|j: int| 0 <= j < n ==> !lex_lt(#[trigger] vs[j].0, vs[min_variant(vs, n)].0),
    decreases n,
{
    if n == 1 {
        lemma_lex_irreflexive(vs[0].0, 0);
    } else {
        lemma_min_variant_least(vs, n - 1, len);
        let m = min_variant(vs, n - 1);
        if lex_lt(vs[n - 1].0, vs[m].0) {
            assert forall|j: int| 0 <= j < n implies !lex_lt(#[trigger] vs[j].0, vs[n - 1].0) by {
                if j == n - 1 {
                    lemma_lex_irreflexive(vs[j].0, 0);
                } else if lex_lt(vs[j].0, vs[n - 1].0) {
                    lemma_lex_transitive(vs[j].0, vs[n - 1].0, vs[m].0, 0);
                }
            }
        }
    }
}

/// A rotation followed by `k` rotations is `k + 1` rotations.
proof fn lemma_rot_shift(p: Coord, k: nat)
    ensures
        rot_k(rot90(p), k) == rot_k(p, k + 1),
    decreases k,
{
    reveal_with_fuel(rot_k, 2);
    if k > 0 {
        lemma_rot_shift(p, (k - 1) as nat);
    }
}

/// Rotating a reflected cell is reflecting the cell rotated the other way.
proof fn lemma_rot_reflect(p: Coord, k: nat)
    requires
        p.0 > -128,
        p.1 > -128,
        k < 4,
    ensures
        rot_k(reflect_cell(p), k) == reflect_cell(rot_k(p, ((4 - k) % 4) as nat)),
{
    reveal_with_fuel(rot_k, 5);
}

proof fn lemma_rot_four(p: Coord)
    requires
        p.0 > -128,
        p.1 > -128,
    ensures
        rot_k(p, 4) == p,
        reflect_cell(reflect_cell(p)) == p,
{
    reveal_with_fuel(rot_k, 5);
}

/// Where candidate `i` of a rotated shape sits among the candidates of
/// the shape itself.
spec fn after_rotation(i: int) -> int {
    if i % 2 == 0 {
        2 * ((i / 2 + 1) % 4)
    } else {
        2 * ((i / 2 + 1) % 4) + 1
    }
}

/// Where candidate `i` of a reflected shape sits among the candidates of
/// the shape itself.
spec fn after_reflection(i: int) -> int {
    if i % 2 == 0 {
        2 * ((4 - i / 2) % 4) + 1
    } else {
        2 * ((4 - i / 2) % 4)
    }
}

/// Every coordinate lies in `-127..=127`.
spec fn bounded(cells: Seq<Coord>) -> bool {
    forall|j: int| 0 <= j < cells.len() ==> (#[trigger] cells[j]).0 > -128 && cells[j].1 > -128
}

proof fn lemma_candidate_rotated(cells: Seq<Coord>, m1: Coord, m2: Coord, i: int)
    requires
        0 <= i < 8,
        bounded(cells),
    ensures
        candidate(cells.map_values(|p: Coord| rot90(p)), m1, i).0 == candidate(cells, m2, after_rotation(i)).0,
{
    let r = cells.map_values(|p: Coord| rot90(p));
    let k = (i / 2) as nat;
    let j = after_rotation(i);
    let kj = (j / 2) as nat;
    assert forall|x: int| 0 <= x < cells.len() implies rot_k(#[trigger] r[x], k) == rot_k(cells[x], kj) by {
        lemma_rot_shift(cells[x], k);
        if k == 3 {
            lemma_rot_four(cells[x]);
        }
    }
    if i % 2 == 1 {
        assert(r.map_values(|p: Coord| reflect_cell(rot_k(p, k))) =~= cells.map_values(
            |p: Coord| reflect_cell(rot_k(p, kj)),
        ));
    } else {
        assert(r.map_values(|p: Coord| rot_k(p, k)) =~= cells.map_values(|p: Coord| rot_k(p, kj)));
    }
}

proof fn lemma_candidate_reflected(cells: Seq<Coord>, m1: Coord, m2: Coord, i: int)
    requires
        0 <= i < 8,
        bounded(cells),
    ensures
        candidate(cells.map_values(|p: Coord| reflect_cell(p)), m1, i).0 == candidate(
            cells,
            m2,
            after_reflection(i),
        ).0,
{
    let r = cells.map_values(|p: Coord| reflect_cell(p));
    let k = (i / 2) as nat;
    let j = after_reflection(i);
    let kj = (j / 2) as nat;
    assert forall|x: int| 0 <= x < cells.len() implies rot_k(#[trigger] r[x], k) == reflect_cell(
        rot_k(cells[x], kj),
    ) by {
        lemma_rot_reflect(cells[x], k);
    }
    if i % 2 == 1 {
        assert forall|x: int| 0 <= x < cells.len() implies reflect_cell(rot_k(#[trigger] r[x], k)) == rot_k(
            cells[x],
            kj,
        ) by {
            lemma_rot_reflect(cells[x], k);
            lemma_rot_bounded(cells[x], kj);
            lemma_rot_four(rot_k(cells[x], kj));
        }
        assert(r.map_values(|p: Coord| reflect_cell(rot_k(p, k))) =~= cells.map_values(
            |p: Coord| rot_k(p, kj),
        ));
    } else {
        assert(r.map_values(|p: Coord| rot_k(p, k)) =~= cells.map_values(
            |p: Coord| reflect_cell(rot_k(p, kj)),
        ));
    }
}

proof fn lemma_rot_bounded(p: Coord, k: nat)
    requires
        p.0 > -128,
        p.1 > -128,
    ensures
        rot_k(p, k).0 > -128,
        rot_k(p, k).1 > -128,
    decreases k,
{
    if k > 0 {
        lemma_rot_bounded(p, (k - 1) as nat);
    }
}

/// `v` is the cells of one of the first `n` candidates.
spec fn in_candidates(cells: Seq<Coord>, mark: Coord, n: int, v: Seq<Coord>) -> bool {
    exists|i: int| 0 <= i < n && candidate(cells, mark, i).0 == v
}

/// `v` is the cells of one of the variants.
spec fn in_variants(vs: Seq<VariantModel>, v: Seq<Coord>) -> bool {
    exists|j: int| 0 <= j < vs.len() && vs[j].0 == v
}

/// The variants are exactly the distinct candidate cell lists.
proof fn lemma_distinct_cover(cells: Seq<Coord>, mark: Coord, n: int)
    requires
        0 <= n,
    ensures
        forall|j: int|
            0 <= j < distinct_candidates(cells, mark, n).len() ==> in_candidates(
                cells,
                mark,
                n,
                (#[trigger] distinct_candidates(cells, mark, n)[j]).0,
            ),
        forall|i: int|
            0 <= i < n ==> in_variants(distinct_candidates(cells, mark, n), (#[trigger] candidate(cells, mark, i)).0),
    decreases n,
{
    if n > 0 {
        lemma_distinct_cover(cells, mark, n - 1);
        let prev = distinct_candidates(cells, mark, n - 1);
        let cur = distinct_candidates(cells, mark, n);
        let c = candidate(cells, mark, n - 1);
        assert forall|j: int| 0 <= j < cur.len() implies in_candidates(cells, mark, n, (#[trigger] cur[j]).0) by {
            if j < prev.len() {
                assert(cur[j] == prev[j]);
                assert(in_candidates(cells, mark, n - 1, prev[j].0));
                let i = choose|i: int| 0 <= i < n - 1 && candidate(cells, mark, i).0 == prev[j].0;
            } else {
                assert(cur[j] == c);
            }
        }
        assert forall|i: int| 0 <= i < n implies in_variants(cur, (#[trigger] candidate(cells, mark, i)).0) by {
            if i < n - 1 {
                assert(in_variants(prev, candidate(cells, mark, i).0));
                let j = choose|j: int| 0 <= j < prev.len() && prev[j].0 == candidate(cells, mark, i).0;
                assert(cur[j] == prev[j]);
            } else if exists|j: int| 0 <= j < prev.len() && (#[trigger] prev[j]).0 == c.0 {
                let j = choose|j: int| 0 <= j < prev.len() && (#[trigger] prev[j]).0 == c.0;
                assert(cur[j] == prev[j]);
            } else {
                assert(cur[cur.len() - 1] == c);
            }
        }
    }
}

/// Two lists of variants with the same candidate cell lists have the same
/// least variant.
proof fn lemma_same_least(c1: Seq<Coord>, m1: Coord, c2: Seq<Coord>, m2: Coord, len: nat)
    requires
        same_lengths(distinct_candidates(c1, m1, 8), len),
        same_lengths(distinct_candidates(c2, m2, 8), len),
        distinct_candidates(c1, m1, 8).len() >= 1,
        distinct_candidates(c2, m2, 8).len() >= 1,
        forall|v: Seq<Coord>| in_candidates(c1, m1, 8, v) ==> in_candidates(c2, m2, 8, v),
        forall|v: Seq<Coord>| in_candidates(c2, m2, 8, v) ==> in_candidates(c1, m1, 8, v),
    ensures
        ({
            let vs1 = distinct_candidates(c1, m1, 8);
            let vs2 = distinct_candidates(c2, m2, 8);
            vs1[min_variant(vs1, vs1.len() as int)].0 == vs2[min_variant(vs2, vs2.len() as int)].0
        }),
{
    let vs1 = distinct_candidates(c1, m1, 8);
    let vs2 = distinct_candidates(c2, m2, 8);
    lemma_min_variant_least(vs1, vs1.len() as int, len);
    lemma_min_variant_least(vs2, vs2.len() as int, len);
    lemma_distinct_cover(c1, m1, 8);
    lemma_distinct_cover(c2, m2, 8);
    let i1 = min_variant(vs1, vs1.len() as int);
    let i2 = min_variant(vs2, vs2.len() as int);
    let a1 = vs1[i1].0;
    let a2 = vs2[i2].0;
    assert(in_candidates(c1, m1, 8, a1));
    assert(in_candidates(c2, m2, 8, a1));
    let k1 = choose|i: int| 0 <= i < 8 && candidate(c2, m2, i).0 == a1;
    assert(in_variants(vs2, candidate(c2, m2, k1).0));
    let j1 = choose|j: int| 0 <= j < vs2.len() && vs2[j].0 == a1;
    assert(!lex_lt(vs2[j1].0, a2));
    assert(in_candidates(c2, m2, 8, a2));
    assert(in_candidates(c1, m1, 8, a2));
    let k2 = choose|i: int| 0 <= i < 8 && candidate(c1, m1, i).0 == a2;
    assert(in_variants(vs1, candidate(c1, m1, k2).0));
    let j2 = choose|j: int| 0 <= j < vs1.len() && vs1[j].0 == a2;
    assert(!lex_lt(vs1[j2].0, a1));
    if a1 != a2 {
        lemma_lex_total(a1, a2, 0);
    }
}

/// A quarter turn or a reflection of a shape leaves its canonical cells,
/// and so its canonical bitmap, unchanged.
pub proof fn lemma_canonical_symmetric(cells: Seq<Coord>, mi: int, side: int)
    requires
        0 <= mi < cells.len(),
        coords_in_range(cells),
    ensures
        canonical_cells(cells.map_values(|p: Coord| rot90(p)), mi) == canonical_cells(cells, mi),
        canonical_cells(cells.map_values(|p: Coord| reflect_cell(p)), mi) == canonical_cells(cells, mi),
        canonical_bitmap_of(cells.map_values(|p: Coord| rot90(p)), mi, side) == canonical_bitmap_of(
            cells,
            mi,
            side,
        ),
        canonical_bitmap_of(cells.map_values(|p: Coord| reflect_cell(p)), mi, side)
            == canonical_bitmap_of(cells, mi, side),
{
    assert(bounded(cells));
    let m1 = cells[mi];
    let len = cells.len();
    lemma_variant_shape(cells, mi, 8);
    lemma_variants_nonempty(cells, m1, 8);
    assert(same_lengths(distinct_candidates(cells, m1, 8), len));
    let r = cells.map_values(|p: Coord| rot90(p));
    let mr = r[mi];
    lemma_variant_shape(r, mi, 8);
    lemma_variants_nonempty(r, mr, 8);
    assert(same_lengths(distinct_candidates(r, mr, 8), len));
    assert forall|v: Seq<Coord>| in_candidates(cells, m1, 8, v) implies in_candidates(r, mr, 8, v) by {
        let i = choose|i: int| 0 <= i < 8 && candidate(cells, m1, i).0 == v;
        let back = if i % 2 == 0 {
            2 * ((i / 2 + 3) % 4)
        } else {
            2 * ((i / 2 + 3) % 4) + 1
        };
        lemma_candidate_rotated(cells, mr, m1, back);
        assert(after_rotation(back) == i);
    }
    assert forall|v: Seq<Coord>| in_candidates(r, mr, 8, v) implies in_candidates(cells, m1, 8, v) by {
        let i = choose|i: int| 0 <= i < 8 && candidate(r, mr, i).0 == v;
        lemma_candidate_rotated(cells, mr, m1, i);
    }
    lemma_same_least(r, mr, cells, m1, len);
    let f = cells.map_values(|p: Coord| reflect_cell(p));
    let mf = f[mi];
    lemma_variant_shape(f, mi, 8);
    lemma_variants_nonempty(f, mf, 8);
    assert(same_lengths(distinct_candidates(f, mf, 8), len));
    assert forall|v: Seq<Coord>| in_candidates(cells, m1, 8, v) implies in_candidates(f, mf, 8, v) by {
        let i = choose|i: int| 0 <= i < 8 && candidate(cells, m1, i).0 == v;
        lemma_candidate_reflected(cells, mf, m1, after_reflection(i));
        assert(after_reflection(after_reflection(i)) == i);
    }
    assert forall|v: Seq<Coord>| in_candidates(f, mf, 8, v) implies in_candidates(cells, m1, 8, v) by {
        let i = choose|i: int| 0 <= i < 8 && candidate(f, mf, i).0 == v;
        lemma_candidate_reflected(cells, mf, m1, i);
    }
    lemma_same_least(f, mf, cells, m1, len);
}

/// Both coordinates of `p` lie in `-127..=127`.
spec fn small(p: Coord) -> bool {
    -127 <= p.0 <= 127 && -127 <= p.1 <= 127
}

/// `p` and its translate by `(-dr, -dc)` both lie in `-127..=127`.
spec fn shift_small(p: Coord, dr: int, dc: int) -> bool {
    small(p) && -127 <= p.0 - dr <= 127 && -127 <= p.1 - dc <= 127
}

/// The offset `(dr, dc)` turned `k` quarter turns, as a cell is.
spec fn rot_off(dr: int, dc: int, k: nat) -> (int, int)
    decreases k,
{
    if k == 0 {
        (dr, dc)
    } else {
        let o = rot_off(dr, dc, (k - 1) as nat);
        (o.1, -o.0)
    }
}

/// Turning a translated cell is translating the turned cell by the turned
/// offset.
proof fn lemma_rot_shift_cell(p: Coord, dr: int, dc: int, k: nat)
    requires
        shift_small(p, dr, dc),
    ensures
        shift_small(rot_k(p, k), rot_off(dr, dc, k).0, rot_off(dr, dc, k).1),
        rot_k(shift_cell(p, dr, dc), k) == shift_cell(rot_k(p, k), rot_off(dr, dc, k).0, rot_off(dr, dc, k).1),
    decreases k,
{
    if k > 0 {
        lemma_rot_shift_cell(p, dr, dc, (k - 1) as nat);
    }
}

/// The transformation behind candidate `i`.
spec fn turn(p: Coord, i: int) -> Coord {
    if i % 2 == 1 {
        reflect_cell(rot_k(p, (i / 2) as nat))
    } else {
        rot_k(p, (i / 2) as nat)
    }
}

/// The offset a translation takes on under the transformation of
/// candidate `i`.
spec fn turn_off(dr: int, dc: int, i: int) -> (int, int) {
    let o = rot_off(dr, dc, (i / 2) as nat);
    if i % 2 == 1 {
        (o.0, -o.1)
    } else {
        o
    }
}

proof fn lemma_turn_shift(p: Coord, dr: int, dc: int, i: int)
    requires
        shift_small(p, dr, dc),
    ensures
        shift_small(turn(p, i), turn_off(dr, dc, i).0, turn_off(dr, dc, i).1),
        turn(shift_cell(p, dr, dc), i) == shift_cell(turn(p, i), turn_off(dr, dc, i).0, turn_off(dr, dc, i).1),
{
    lemma_rot_shift_cell(p, dr, dc, (i / 2) as nat);
}

/// The smallest row and column of a translated list are those of the list,
/// translated.
proof fn lemma_min_shift(s: Seq<Coord>, dr: int, dc: int)
    requires
        s.len() > 0,
        forall|j: int| 0 <= j < s.len() ==> shift_small(#[trigger] s[j], dr, dc),
    ensures
        min_row(s.map_values(|p: Coord| shift_cell(p, dr, dc))) == min_row(s) - dr,
        min_col(s.map_values(|p: Coord| shift_cell(p, dr, dc))) == min_col(s) - dc,
    decreases s.len(),
{
    let t = s.map_values(|p: Coord| shift_cell(p, dr, dc));
    assert(shift_small(s[s.len() - 1], dr, dc));
    if s.len() > 1 {
        let d = s.drop_last();
        assert(t.drop_last() =~= d.map_values(|p: Coord| shift_cell(p, dr, dc)));
        assert forall|j: int| 0 <= j < d.len() implies shift_small(#[trigger] d[j], dr, dc) by {
            assert(d[j] == s[j]);
        }
        lemma_min_shift(d, dr, dc);
    } else {
        assert(shift_small(s[0], dr, dc));
    }
}

/// Normalizing a translated list gives what normalizing the list gives.
proof fn lemma_normalized_shift(s: Seq<Coord>, dr: int, dc: int)
    requires
        s.len() > 0,
        forall|j: int| 0 <= j < s.len() ==> shift_small(#[trigger] s[j], dr, dc),
    ensures
        normalized_cells(s.map_values(|p: Coord| shift_cell(p, dr, dc))) == normalized_cells(s),
{
    let t = s.map_values(|p: Coord| shift_cell(p, dr, dc));
    lemma_min_shift(s, dr, dc);
    let a = t.map_values(|p: Coord| shift_cell(p, min_row(t), min_col(t)));
    let b = s.map_values(|p: Coord| shift_cell(p, min_row(s), min_col(s)));
    assert(a =~= b) by {
        assert forall|j: int| 0 <= j < s.len() implies a[j] == b[j] by {
            assert(shift_small(s[j], dr, dc));
        }
    }
}

/// Candidate `i` of a translated shape has the cells of candidate `i` of
/// the shape.
proof fn lemma_candidate_translated(cells: Seq<Coord>, m1: Coord, m2: Coord, dr: int, dc: int, i: int)
    requires
        0 <= i < 8,
        cells.len() > 0,
        forall|j: int| 0 <= j < cells.len() ==> shift_small(#[trigger] cells[j], dr, dc),
    ensures
        candidate(cells.map_values(|p: Coord| shift_cell(p, dr, dc)), m1, i).0 == candidate(cells, m2, i).0,
{
    let t = cells.map_values(|p: Coord| shift_cell(p, dr, dc));
    let k = (i / 2) as nat;
    let u = cells.map_values(|p: Coord| turn(p, i));
    let o = turn_off(dr, dc, i);
    assert forall|j: int| 0 <= j < cells.len() implies shift_small(#[trigger] u[j], o.0, o.1) by {
        lemma_turn_shift(cells[j], dr, dc, i);
    }
    lemma_normalized_shift(u, o.0, o.1);
    let tu = t.map_values(|p: Coord| turn(p, i));
    assert(tu =~= u.map_values(|p: Coord| shift_cell(p, o.0, o.1))) by {
        assert forall|j: int| 0 <= j < cells.len() implies tu[j] == shift_cell(u[j], o.0, o.1) by {
            lemma_turn_shift(cells[j], dr, dc, i);
        }
    }
    if i % 2 == 1 {
        assert(t.map_values(|p: Coord| reflect_cell(rot_k(p, k))) =~= tu);
        assert(cells.map_values(|p: Coord| reflect_cell(rot_k(p, k))) =~= u);
    } else {
        assert(t.map_values(|p: Coord| rot_k(p, k)) =~= tu);
        assert(cells.map_values(|p: Coord| rot_k(p, k)) =~= u);
    }
}

/// Translating a shape leaves its canonical cells, and so its canonical
/// bitmap, unchanged: the shape moved by `(-dr, -dc)`, with every moved
/// coordinate still in `-127..=127`, has the canonical form of the shape.
/// With [`lemma_canonical_symmetric`], any rotation, reflection or
/// translation of a shape has the same canonical bitmap.
pub proof fn lemma_canonical_translated(cells: Seq<Coord>, mi: int, dr: int, dc: int, side: int)
    requires
        0 <= mi < cells.len(),
        coords_in_range(cells),
        forall|j: int|
            0 <= j < cells.len() ==> -127 <= (#[trigger] cells[j]).0 - dr <= 127 && -127 <= cells[j].1 - dc
                <= 127,
    ensures
        canonical_cells(cells.map_values(|p: Coord| shift_cell(p, dr, dc)), mi) == canonical_cells(cells, mi),
        canonical_bitmap_of(cells.map_values(|p: Coord| shift_cell(p, dr, dc)), mi, side)
            == canonical_bitmap_of(cells, mi, side),
{
    assert forall|j: int| 0 <= j < cells.len() implies shift_small(#[trigger] cells[j], dr, dc) by {
        assert(cells[j].0 >= -127 && cells[j].1 >= -127);
    }
    let m1 = cells[mi];
    let len = cells.len();
    lemma_variant_shape(cells, mi, 8);
    lemma_variants_nonempty(cells, m1, 8);
    assert(same_lengths(distinct_candidates(cells, m1, 8), len));
    let t = cells.map_values(|p: Coord| shift_cell(p, dr, dc));
    let mt = t[mi];
    lemma_variant_shape(t, mi, 8);
    lemma_variants_nonempty(t, mt, 8);
    assert(same_lengths(distinct_candidates(t, mt, 8), len));
    assert forall|v: Seq<Coord>| in_candidates(cells, m1, 8, v) implies in_candidates(t, mt, 8, v) by {
        let i = choose|i: int| 0 <= i < 8 && candidate(cells, m1, i).0 == v;
        lemma_candidate_translated(cells, mt, m1, dr, dc, i);
    }
    assert forall|v: Seq<Coord>| in_candidates(t, mt, 8, v) implies in_candidates(cells, m1, 8, v) by {
        let i = choose|i: int| 0 <= i < 8 && candidate(t, mt, i).0 == v;
        lemma_candidate_translated(cells, mt, m1, dr, dc, i);
    }
    lemma_same_least(t, mt, cells, m1, len);
}

/// The shape reflected first when `flip`, then turned `k` quarter turns.
pub open spec fn turned(cells: Seq<Coord>, k: nat, flip: bool) -> Seq<Coord>
    decreases k,
{
    if k == 0 {
        if flip {
            cells.map_values(|p: Coord| reflect_cell(p))
        } else {
            cells
        }
    } else {
        turned(cells, (k - 1) as nat, flip).map_values(|p: Coord| rot90(p))
    }
}

proof fn lemma_turned(cells: Seq<Coord>, mi: int, k: nat, flip: bool)
    requires
        0 <= mi < cells.len(),
        coords_in_range(cells),
    ensures
        turned(cells, k, flip).len() == cells.len(),
        coords_in_range(turned(cells, k, flip)),
        canonical_cells(turned(cells, k, flip), mi) == canonical_cells(cells, mi),
    decreases k,
{
    if k == 0 {
        if flip {
            lemma_range_reflect(cells);
            lemma_canonical_symmetric(cells, mi, SIDE as int);
        }
    } else {
        lemma_turned(cells, mi, (k - 1) as nat, flip);
        let t = turned(cells, (k - 1) as nat, flip);
        lemma_range_rot90(t);
        lemma_canonical_symmetric(t, mi, SIDE as int);
    }
}

/// The canonical form ignores rotation, reflection and translation: a
/// shape reflected or not, turned any number of quarter turns, and then
/// moved by `(-dr, -dc)` with every moved coordinate in `-127..=127`, has
/// the canonical cells and the canonical bitmap of the shape itself.
pub proof fn lemma_canonical_invariant(
    cells: Seq<Coord>,
    mi: int,
    k: nat,
    flip: bool,
    dr: int,
    dc: int,
    side: int,
)
    requires
        0 <= mi < cells.len(),
        coords_in_range(cells),
        forall|j: int|
            0 <= j < cells.len() ==> -127 <= (#[trigger] turned(cells, k, flip)[j]).0 - dr <= 127 && -127
                <= turned(cells, k, flip)[j].1 - dc <= 127,
    ensures
        canonical_cells(turned(cells, k, flip).map_values(|p: Coord| shift_cell(p, dr, dc)), mi)
            == canonical_cells(cells, mi),
        canonical_bitmap_of(turned(cells, k, flip).map_values(|p: Coord| shift_cell(p, dr, dc)), mi, side)
            == canonical_bitmap_of(cells, mi, side),
{
    lemma_turned(cells, mi, k, flip);
    lemma_canonical_translated(turned(cells, k, flip), mi, dr, dc, side);
}

} // verus!
