//! Piece shapes and their geometric variants.
//!
//! A [`PieceDef`] is the canonical description of a piece (a polyomino
//! shape with a designated mark cell). A [`PieceVariant`] is a normalized
//! rotation or reflection of that shape: translated so that the minimum
//! row and column are both 0, with cells sorted in row-major order.
//! [`all_variants`] returns the distinct variants, at most eight.

use vstd::prelude::*;
use vstd::relations::{sorted_by, total_ordering};
use vstd::seq_lib::{lemma_sorted_unique, to_multiset_insert};

verus! {

broadcast use vstd::seq_lib::group_to_multiset_ensures;

/// Grid coordinate as `(row, column)`.
pub type Coord = (i8, i8);

/// Returns a copy of a coordinate list.
pub fn copy_coords(v: &[Coord]) -> (r: Vec<Coord>)
    ensures
        r@ == v@,
{
    let mut r: Vec<Coord> = Vec::with_capacity(v.len());
    let mut i: usize = 0;
    while i < v.len()
        invariant
            i <= v@.len(),
            r@ == v@.take(i as int),
        decreases v@.len() - i,
    {
        r.push(v[i]);
        i = i + 1;
        proof {
            assert(r@ =~= v@.take(i as int));
        }
    }
    proof {
        assert(v@.take(i as int) =~= v@);
    }
    r
}

/// Returns `true` when the two coordinate lists are equal.
pub fn coords_eq(a: &[Coord], b: &[Coord]) -> (r: bool)
    ensures
        r == (a@ == b@),
{
    if a.len() != b.len() {
        return false;
    }
    let mut i: usize = 0;
    while i < a.len()
        invariant
            i <= a@.len(),
            a@.len() == b@.len(),
            forall|j: int| 0 <= j < i ==> a@[j] == b@[j],
        decreases a@.len() - i,
    {
        let x = a[i];
        let y = b[i];
        if x.0 != y.0 || x.1 != y.1 {
            return false;
        }
        i = i + 1;
    }
    proof {
        assert(a@ =~= b@);
    }
    true
}

/// Row-major order on coordinates.
pub open spec fn coord_leq(a: Coord, b: Coord) -> bool {
    a.0 < b.0 || (a.0 == b.0 && a.1 <= b.1)
}

/// Row-major order as a relation.
pub open spec fn row_major() -> spec_fn(Coord, Coord) -> bool {
    |a: Coord, b: Coord| coord_leq(a, b)
}

pub proof fn lemma_row_major_total()
    ensures
        total_ordering(row_major()),
{
}

proof fn lemma_insert_sorted(s: Seq<Coord>, p: int, x: Coord)
    requires
        sorted_by(s, row_major()),
        0 <= p <= s.len(),
        forall|a: int| 0 <= a < p ==> coord_leq(#[trigger] s[a], x),
        p < s.len() ==> !coord_leq(s[p], x),
    ensures
        sorted_by(s.insert(p, x), row_major()),
{
    let t = s.insert(p, x);
    assert forall|i: int, j: int| 0 <= i < j < t.len() implies #[trigger] row_major()(t[i], t[j]) by {
        if j < p {
            assert(t[i] == s[i] && t[j] == s[j]);
            assert(row_major()(s[i], s[j]));
        } else if j == p {
            assert(t[i] == s[i]);
        } else if i < p {
            assert(t[i] == s[i] && t[j] == s[j - 1]);
            assert(row_major()(s[i], s[j - 1]));
        } else if i == p {
            assert(t[j] == s[j - 1]);
            if j - 1 > p {
                assert(row_major()(s[p], s[j - 1]));
            }
        } else {
            assert(t[i] == s[i - 1] && t[j] == s[j - 1]);
            assert(row_major()(s[i - 1], s[j - 1]));
        }
    }
}

/// Sorts coordinates in row-major order.
pub fn sort_coords(v: &[Coord]) -> (r: Vec<Coord>)
    ensures
        r@ == v@.sort_by(row_major()),
{
    let mut out: Vec<Coord> = Vec::with_capacity(v.len());
    let mut i: usize = 0;
    while i < v.len()
        invariant
            i <= v@.len(),
            out@.len() == i,
            sorted_by(out@, row_major()),
            out@.to_multiset() == v@.take(i as int).to_multiset(),
        decreases v@.len() - i,
    {
        let x = v[i];
        let mut p: usize = 0;
        while p < out.len() && (out[p].0 < x.0 || (out[p].0 == x.0 && out[p].1 <= x.1))
            invariant
                p <= out@.len(),
                forall|a: int| 0 <= a < p ==> coord_leq(#[trigger] out@[a], x),
            decreases out@.len() - p,
        {
            p = p + 1;
        }
        proof {
            lemma_insert_sorted(out@, p as int, x);
            to_multiset_insert(out@, p as int, x);
            assert(v@.take(i + 1) =~= v@.take(i as int).push(x));
        }
        out.insert(p, x);
        i = i + 1;
    }
    proof {
        assert(v@.take(i as int) =~= v@);
        v@.lemma_sort_by_ensures(row_major());
        lemma_sorted_unique(out@, v@.sort_by(row_major()), row_major());
    }
    out
}

/// Rotates a cell 90 degrees clockwise: `(r, c) -> (c, -r)`.
pub open spec fn rot90(p: Coord) -> Coord {
    (p.1, (-p.0) as i8)
}

/// Reflects a cell across the row axis: `(r, c) -> (r, -c)`.
pub open spec fn reflect_cell(p: Coord) -> Coord {
    (p.0, (-p.1) as i8)
}

/// `k` clockwise quarter turns.
pub open spec fn rot_k(p: Coord, k: nat) -> Coord
    decreases k,
{
    if k == 0 {
        p
    } else {
        rot90(rot_k(p, (k - 1) as nat))
    }
}

/// Smallest row of a non-empty coordinate list.
pub open spec fn min_row(s: Seq<Coord>) -> int
    decreases s.len(),
{
    if s.len() <= 1 {
        s[0].0 as int
    } else {
        let m = min_row(s.drop_last());
        if (s.last().0 as int) < m {
            s.last().0 as int
        } else {
            m
        }
    }
}

/// Smallest column of a non-empty coordinate list.
pub open spec fn min_col(s: Seq<Coord>) -> int
    decreases s.len(),
{
    if s.len() <= 1 {
        s[0].1 as int
    } else {
        let m = min_col(s.drop_last());
        if (s.last().1 as int) < m {
            s.last().1 as int
        } else {
            m
        }
    }
}

/// Translates a coordinate by `(-dr, -dc)`.
pub open spec fn shift_cell(p: Coord, dr: int, dc: int) -> Coord {
    ((p.0 - dr) as i8, (p.1 - dc) as i8)
}

/// The cells translated so the minimum row and column are 0, sorted
/// row-major.
pub open spec fn normalized_cells(s: Seq<Coord>) -> Seq<Coord> {
    s.map_values(|p: Coord| shift_cell(p, min_row(s), min_col(s))).sort_by(row_major())
}

/// `mark` under the translation that normalizes `s`.
pub open spec fn normalized_mark(s: Seq<Coord>, mark: Coord) -> Coord {
    shift_cell(mark, min_row(s), min_col(s))
}

/// Coordinates are at least -127, and rows and columns each span at most
/// 127, so every rotation, reflection and translation stays in `i8`.
pub open spec fn coords_in_range(s: Seq<Coord>) -> bool {
    &&& forall|i: int| 0 <= i < s.len() ==> (#[trigger] s[i]).0 >= -127 && s[i].1 >= -127
    &&& forall|i: int, j: int|
        0 <= i < s.len() && 0 <= j < s.len() ==> (#[trigger] s[i]).0 - (#[trigger] s[j]).0 <= 127
            && s[i].1 - s[j].1 <= 127
}

pub proof fn lemma_min_row(s: Seq<Coord>)
    requires
        s.len() > 0,
    ensures
        forall|i: int| 0 <= i < s.len() ==> min_row(s) <= (#[trigger] s[i]).0,
        exists|i: int| 0 <= i < s.len() && min_row(s) == (#[trigger] s[i]).0,
    decreases s.len(),
{
    if s.len() > 1 {
        let d = s.drop_last();
        lemma_min_row(d);
        assert forall|i: int| 0 <= i < s.len() implies min_row(s) <= (#[trigger] s[i]).0 by {
            if i < s.len() - 1 {
                assert(s[i] == d[i]);
            }
        }
        if (s.last().0 as int) < min_row(d) {
            assert(min_row(s) == s[s.len() - 1].0);
        } else {
            let j = choose|j: int| 0 <= j < d.len() && min_row(d) == (#[trigger] d[j]).0;
            assert(s[j] == d[j]);
        }
    } else {
        assert(min_row(s) == s[0].0);
    }
}

pub proof fn lemma_min_col(s: Seq<Coord>)
    requires
        s.len() > 0,
    ensures
        forall|i: int| 0 <= i < s.len() ==> min_col(s) <= (#[trigger] s[i]).1,
        exists|i: int| 0 <= i < s.len() && min_col(s) == (#[trigger] s[i]).1,
    decreases s.len(),
{
    if s.len() > 1 {
        let d = s.drop_last();
        lemma_min_col(d);
        assert forall|i: int| 0 <= i < s.len() implies min_col(s) <= (#[trigger] s[i]).1 by {
            if i < s.len() - 1 {
                assert(s[i] == d[i]);
            }
        }
        if (s.last().1 as int) < min_col(d) {
            assert(min_col(s) == s[s.len() - 1].1);
        } else {
            let j = choose|j: int| 0 <= j < d.len() && min_col(d) == (#[trigger] d[j]).1;
            assert(s[j] == d[j]);
        }
    } else {
        assert(min_col(s) == s[0].1);
    }
}

/// Mapping two lists with the same multiset of cells gives lists with the
/// same multiset.
pub proof fn lemma_map_multiset(a: Seq<Coord>, b: Seq<Coord>, f: spec_fn(Coord) -> Coord)
    requires
        a.to_multiset() == b.to_multiset(),
    ensures
        a.map_values(f).to_multiset() == b.map_values(f).to_multiset(),
    decreases a.len(),
{
    broadcast use vstd::seq_lib::group_to_multiset_ensures;

    assert(a.to_multiset().len() == a.len() && b.to_multiset().len() == b.len());
    if a.len() == 0 {
        assert(b.len() == 0);
        assert(a.map_values(f) =~= b.map_values(f));
    } else {
        let x = a.last();
        let a1 = a.drop_last();
        assert(a =~= a1.push(x));
        assert(b.to_multiset().contains(x));
        let i = choose|i: int| 0 <= i < b.len() && b[i] == x;
        let b1 = b.remove(i);
        assert(a1.to_multiset() =~= b1.to_multiset());
        lemma_map_multiset(a1, b1, f);
        assert(a.map_values(f) =~= a1.map_values(f).push(f(x)));
        assert(b.map_values(f).remove(i) =~= b1.map_values(f));
        assert(b.map_values(f)[i] == f(x));
    }
}

/// Lists with the same multiset of cells have the same smallest row and
/// column.
pub proof fn lemma_min_multiset(a: Seq<Coord>, b: Seq<Coord>)
    requires
        a.len() > 0,
        a.to_multiset() == b.to_multiset(),
    ensures
        b.len() == a.len(),
        min_row(a) == min_row(b),
        min_col(a) == min_col(b),
{
    broadcast use vstd::seq_lib::group_to_multiset_ensures;

    assert(a.to_multiset().len() == a.len() && b.to_multiset().len() == b.len());
    assert(b.len() == a.len());
    lemma_min_row(a);
    lemma_min_row(b);
    lemma_min_col(a);
    lemma_min_col(b);
    let i = choose|i: int| 0 <= i < a.len() && min_row(a) == (#[trigger] a[i]).0;
    assert(b.to_multiset().contains(a[i]));
    let j = choose|j: int| 0 <= j < b.len() && min_row(b) == (#[trigger] b[j]).0;
    assert(a.to_multiset().contains(b[j]));
    let ia = choose|k: int| 0 <= k < b.len() && b[k] == a[i];
    let jb = choose|k: int| 0 <= k < a.len() && a[k] == b[j];
    assert(min_row(b) <= b[ia].0);
    assert(min_row(a) <= a[jb].0);
    let ic = choose|i: int| 0 <= i < a.len() && min_col(a) == (#[trigger] a[i]).1;
    assert(b.to_multiset().contains(a[ic]));
    let jc = choose|j: int| 0 <= j < b.len() && min_col(b) == (#[trigger] b[j]).1;
    assert(a.to_multiset().contains(b[jc]));
    let ka = choose|k: int| 0 <= k < b.len() && b[k] == a[ic];
    let kb = choose|k: int| 0 <= k < a.len() && a[k] == b[jc];
    assert(min_col(b) <= b[ka].1);
    assert(min_col(a) <= a[kb].1);
}

/// Lists with the same multiset of cells normalize alike.
pub proof fn lemma_normalized_multiset(a: Seq<Coord>, b: Seq<Coord>)
    requires
        a.len() > 0,
        a.to_multiset() == b.to_multiset(),
    ensures
        normalized_cells(a) == normalized_cells(b),
{
    lemma_min_multiset(a, b);
    let dr = min_row(a);
    let dc = min_col(a);
    let f = |p: Coord| shift_cell(p, dr, dc);
    lemma_map_multiset(a, b, f);
    let ma = a.map_values(f);
    let mb = b.map_values(f);
    assert(a.map_values(|p: Coord| shift_cell(p, min_row(a), min_col(a))) =~= ma);
    assert(b.map_values(|p: Coord| shift_cell(p, min_row(b), min_col(b))) =~= mb);
    lemma_row_major_total();
    ma.lemma_sort_by_ensures(row_major());
    mb.lemma_sort_by_ensures(row_major());
    lemma_sorted_unique(ma.sort_by(row_major()), mb.sort_by(row_major()), row_major());
}

/// Lists with the same multiset of cells have the same candidate cells
/// under every rotation and reflection.
pub proof fn lemma_candidate_multiset(a: Seq<Coord>, ma: Coord, b: Seq<Coord>, mb: Coord, i: int)
    requires
        a.len() > 0,
        a.to_multiset() == b.to_multiset(),
    ensures
        candidate(a, ma, i).0 == candidate(b, mb, i).0,
{
    let k = (i / 2) as nat;
    if i % 2 == 1 {
        let g = |p: Coord| reflect_cell(rot_k(p, k));
        lemma_map_multiset(a, b, g);
        assert(a.map_values(g).len() > 0);
        lemma_normalized_multiset(a.map_values(g), b.map_values(g));
    } else {
        let g = |p: Coord| rot_k(p, k);
        lemma_map_multiset(a, b, g);
        assert(a.map_values(g).len() > 0);
        lemma_normalized_multiset(a.map_values(g), b.map_values(g));
    }
}

/// Translates `cells` so the minimum row and column are both 0, applies
/// the same translation to `mark`, and sorts the cells row-major.
pub fn normalize(cells: &[Coord], mark: Coord) -> (r: (Vec<Coord>, Coord))
    requires
        cells@.len() > 0,
        coords_in_range(cells@),
        -128 <= mark.0 - min_row(cells@) <= 127,
        -128 <= mark.1 - min_col(cells@) <= 127,
    ensures
        r.0@ == normalized_cells(cells@),
        r.1 == normalized_mark(cells@, mark),
{
    let ghost s = cells@;
    let mut min_r: i8 = cells[0].0;
    let mut min_c: i8 = cells[0].1;
    let mut i: usize = 1;
    proof {
        assert(s.take(1).drop_last() =~= s.take(0));
    }
    while i < cells.len()
        invariant
            1 <= i <= s.len(),
            s == cells@,
            min_r as int == min_row(s.take(i as int)),
            min_c as int == min_col(s.take(i as int)),
        decreases s.len() - i,
    {
        let (a, b) = cells[i];
        proof {
            assert(s.take(i + 1).drop_last() =~= s.take(i as int));
            assert(s.take(i + 1).last() == s[i as int]);
        }
        if a < min_r {
            min_r = a;
        }
        if b < min_c {
            min_c = b;
        }
        i = i + 1;
    }
    proof {
        assert(s.take(i as int) =~= s);
        lemma_min_row(s);
        lemma_min_col(s);
    }
    let mut shifted: Vec<Coord> = Vec::with_capacity(cells.len());
    let mut k: usize = 0;
    while k < cells.len()
        invariant
            k <= s.len(),
            s == cells@,
            coords_in_range(s),
            min_r as int == min_row(s),
            min_c as int == min_col(s),
            forall|j: int| 0 <= j < s.len() ==> min_row(s) <= (#[trigger] s[j]).0 && min_col(s) <= s[j].1,
            exists|j: int| 0 <= j < s.len() && min_row(s) == (#[trigger] s[j]).0,
            exists|j: int| 0 <= j < s.len() && min_col(s) == (#[trigger] s[j]).1,
            shifted@ == s.take(k as int).map_values(|p: Coord| shift_cell(p, min_row(s), min_col(s))),
        decreases s.len() - k,
    {
        let (a, b) = cells[k];
        proof {
            let jr = choose|j: int| 0 <= j < s.len() && min_row(s) == (#[trigger] s[j]).0;
            let jc = choose|j: int| 0 <= j < s.len() && min_col(s) == (#[trigger] s[j]).1;
            assert(s[k as int].0 - s[jr].0 <= 127);
            assert(s[k as int].1 - s[jc].1 <= 127);
        }
        shifted.push((a - min_r, b - min_c));
        k = k + 1;
        proof {
            assert(shifted@ =~= s.take(k as int).map_values(|p: Coord| shift_cell(p, min_row(s), min_col(s))));
        }
    }
    proof {
        assert(s.take(k as int) =~= s);
    }
    let sorted = sort_coords(&shifted);
    (sorted, (mark.0 - min_r, mark.1 - min_c))
}

/// Static definition of a piece shape.
#[derive(Debug)]
pub struct PieceDef {
    pub id: String,
    pub cells: Vec<Coord>,
    pub mark_index: usize,
}

/// Id, cells and mark index of a piece definition.
pub type PieceDefModel = (Seq<char>, Seq<Coord>, usize);

impl View for PieceDef {
    type V = PieceDefModel;

    open spec fn view(&self) -> PieceDefModel {
        (self.id@, self.cells@, self.mark_index)
    }
}

impl Clone for PieceDef {
    fn clone(&self) -> (r: Self)
        ensures
            r@ == self@,
    {
        PieceDef { id: self.id.clone(), cells: copy_coords(&self.cells), mark_index: self.mark_index }
    }
}

impl PieceDef {
    /// The definition names a mark cell and its cells can be rotated and
    /// reflected within the coordinate range.
    pub open spec fn wf(&self) -> bool {
        &&& self.cells@.len() > 0
        &&& self.mark_index < self.cells@.len()
        &&& coords_in_range(self.cells@)
    }
}

/// A single rotation or reflection of a piece, normalized.
#[derive(Debug)]
pub struct PieceVariant {
    pub cells: Vec<Coord>,
    pub mark: Coord,
}

/// The cells and mark of a variant.
pub type VariantModel = (Seq<Coord>, Coord);

/// The `i`-th candidate variant (`0 <= i < 8`): `i / 2` quarter turns,
/// then a reflection when `i` is odd, then normalization.
pub open spec fn candidate(cells: Seq<Coord>, mark: Coord, i: int) -> VariantModel {
    let k = (i / 2) as nat;
    let t = if i % 2 == 1 {
        cells.map_values(|p: Coord| reflect_cell(rot_k(p, k)))
    } else {
        cells.map_values(|p: Coord| rot_k(p, k))
    };
    let m = if i % 2 == 1 {
        reflect_cell(rot_k(mark, k))
    } else {
        rot_k(mark, k)
    };
    (normalized_cells(t), normalized_mark(t, m))
}

/// The first `n` candidates with later duplicates (same cells) dropped.
pub open spec fn distinct_candidates(cells: Seq<Coord>, mark: Coord, n: int) -> Seq<VariantModel>
    decreases n,
{
    if n <= 0 {
        Seq::empty()
    } else {
        let prev = distinct_candidates(cells, mark, n - 1);
        let c = candidate(cells, mark, n - 1);
        if exists|j: int| 0 <= j < prev.len() && (#[trigger] prev[j]).0 == c.0 {
            prev
        } else {
            prev.push(c)
        }
    }
}

/// The model of a list of variants.
pub open spec fn variants_model(v: Seq<PieceVariant>) -> Seq<VariantModel> {
    Seq::new(v.len(), |i: int| (v[i].cells@, v[i].mark))
}

pub proof fn lemma_range_rot90(s: Seq<Coord>)
    requires
        coords_in_range(s),
    ensures
        coords_in_range(s.map_values(|p: Coord| rot90(p))),
{
    let t = s.map_values(|p: Coord| rot90(p));
    assert forall|i: int, j: int| 0 <= i < t.len() && 0 <= j < t.len() implies (#[trigger] t[i]).0
        - (#[trigger] t[j]).0 <= 127 && t[i].1 - t[j].1 <= 127 by {
        assert(s[i].0 - s[j].0 <= 127 && s[j].0 - s[i].0 <= 127);
        assert(s[i].1 - s[j].1 <= 127);
    }
    assert forall|i: int| 0 <= i < t.len() implies (#[trigger] t[i]).0 >= -127 && t[i].1 >= -127 by {
        assert(s[i].0 >= -127);
        assert(s[i].1 >= -127);
        let j = i;
        assert(s[i].0 - s[j].0 <= 127);
        assert(s[i].0 <= 127);
    }
}

/// Rotates each cell 90 degrees clockwise: `(r, c) -> (c, -r)`.
pub fn rotate90(cells: &[Coord]) -> (r: Vec<Coord>)
    requires
        forall|i: int| 0 <= i < cells@.len() ==> (#[trigger] cells@[i]).0 > -128,
    ensures
        r@ == cells@.map_values(|p: Coord| rot90(p)),
{
    let mut r: Vec<Coord> = Vec::with_capacity(cells.len());
    let mut i: usize = 0;
    while i < cells.len()
        invariant
            i <= cells@.len(),
            forall|j: int| 0 <= j < cells@.len() ==> (#[trigger] cells@[j]).0 > -128,
            r@ == cells@.take(i as int).map_values(|p: Coord| rot90(p)),
        decreases cells@.len() - i,
    {
        let (a, b) = cells[i];
        r.push((b, -a));
        i = i + 1;
        proof {
            assert(r@ =~= cells@.take(i as int).map_values(|p: Coord| rot90(p)));
        }
    }
    proof {
        assert(cells@.take(i as int) =~= cells@);
    }
    r
}

/// Reflects each cell across the row axis: `(r, c) -> (r, -c)`.
pub fn reflect(cells: &[Coord]) -> (r: Vec<Coord>)
    requires
        forall|i: int| 0 <= i < cells@.len() ==> (#[trigger] cells@[i]).1 > -128,
    ensures
        r@ == cells@.map_values(|p: Coord| reflect_cell(p)),
{
    let mut r: Vec<Coord> = Vec::with_capacity(cells.len());
    let mut i: usize = 0;
    while i < cells.len()
        invariant
            i <= cells@.len(),
            forall|j: int| 0 <= j < cells@.len() ==> (#[trigger] cells@[j]).1 > -128,
            r@ == cells@.take(i as int).map_values(|p: Coord| reflect_cell(p)),
        decreases cells@.len() - i,
    {
        let (a, b) = cells[i];
        r.push((a, -b));
        i = i + 1;
        proof {
            assert(r@ =~= cells@.take(i as int).map_values(|p: Coord| reflect_cell(p)));
        }
    }
    proof {
        assert(cells@.take(i as int) =~= cells@);
    }
    r
}

pub proof fn lemma_range_reflect(s: Seq<Coord>)
    requires
        coords_in_range(s),
    ensures
        coords_in_range(s.map_values(|p: Coord| reflect_cell(p))),
{
    let t = s.map_values(|p: Coord| reflect_cell(p));
    assert forall|i: int, j: int| 0 <= i < t.len() && 0 <= j < t.len() implies (#[trigger] t[i]).0
        - (#[trigger] t[j]).0 <= 127 && t[i].1 - t[j].1 <= 127 by {
        assert(s[i].0 - s[j].0 <= 127);
        assert(s[j].1 - s[i].1 <= 127);
    }
    assert forall|i: int| 0 <= i < t.len() implies (#[trigger] t[i]).0 >= -127 && t[i].1 >= -127 by {
        assert(s[i].0 >= -127);
        assert(s[i].1 >= -127);
        let j = i;
        assert(s[i].1 - s[j].1 <= 127);
    }
}

/// Normalizes `cells` and `mark` and appends the result to `variants`
/// unless a variant with the same cells is already there.
fn add_variant(variants: &mut Vec<PieceVariant>, cells: &[Coord], mark: Coord, mark_index: usize)
    requires
        cells@.len() > 0,
        coords_in_range(cells@),
        mark_index < cells@.len(),
        cells@[mark_index as int] == mark,
    ensures
        ({
            let c = (normalized_cells(cells@), normalized_mark(cells@, mark));
            let prev = variants_model(old(variants)@);
            variants_model(final(variants)@) == if exists|j: int|
                0 <= j < prev.len() && (#[trigger] prev[j]).0 == c.0 {
                prev
            } else {
                prev.push(c)
            }
        }),
{
    proof {
        lemma_min_row(cells@);
        lemma_min_col(cells@);
        let jr = choose|j: int| 0 <= j < cells@.len() && min_row(cells@) == (#[trigger] cells@[j]).0;
        let jc = choose|j: int| 0 <= j < cells@.len() && min_col(cells@) == (#[trigger] cells@[j]).1;
        assert(cells@[mark_index as int].0 - cells@[jr].0 <= 127);
        assert(cells@[mark_index as int].1 - cells@[jc].1 <= 127);
    }
    let (normalized_cells_v, normalized_mark_v) = normalize(cells, mark);
    let ghost prev = variants_model(variants@);
    let mut j: usize = 0;
    let mut seen = false;
    while j < variants.len() && !seen
        invariant
            j <= variants@.len(),
            prev == variants_model(variants@),
            seen ==> j < prev.len() && prev[j as int].0 == normalized_cells_v@,
            forall|q: int| 0 <= q < j ==> (#[trigger] prev[q]).0 != normalized_cells_v@,
        decreases variants@.len() - j + if seen { 0int } else { 1int },
    {
        if coords_eq(&variants[j].cells, &normalized_cells_v) {
            seen = true;
        } else {
            j = j + 1;
        }
    }
    if !seen {
        variants.push(PieceVariant { cells: normalized_cells_v, mark: normalized_mark_v });
        proof {
            assert(variants_model(variants@) =~= prev.push((normalized_cells(cells@), normalized_mark(cells@, mark))));
        }
    }
}

/// Returns all distinct rotation and reflection variants of `def`, in the
/// order first met when trying zero to three quarter turns, each without
/// and then with a reflection.
pub fn all_variants(def: &PieceDef) -> (variants: Vec<PieceVariant>)
    requires
        def.wf(),
    ensures
        variants_model(variants@) == distinct_candidates(
            def.cells@,
            def.cells@[def.mark_index as int],
            8,
        ),
{
    let ghost cells0 = def.cells@;
    let ghost m0 = def.cells@[def.mark_index as int];
    let mi = def.mark_index;
    let mut variants: Vec<PieceVariant> = Vec::with_capacity(8);
    let mut current = copy_coords(&def.cells);
    let mut mark = def.cells[def.mark_index];
    let mut rot: usize = 0;
    proof {
        assert(current@ =~= cells0.map_values(|p: Coord| rot_k(p, 0)));
        assert(variants_model(variants@) =~= distinct_candidates(cells0, m0, 0));
    }
    while rot < 4
        invariant
            rot <= 4,
            cells0 == def.cells@,
            m0 == cells0[mi as int],
            mi < cells0.len(),
            cells0.len() > 0,
            current@ == cells0.map_values(|p: Coord| rot_k(p, rot as nat)),
            mark == rot_k(m0, rot as nat),
            coords_in_range(current@),
            variants_model(variants@) == distinct_candidates(cells0, m0, 2 * rot),
        decreases 4 - rot,
    {
        proof {
            assert(current@[mi as int] == mark);
            let c0 = candidate(cells0, m0, 2 * rot);
            assert((2 * rot) / 2 == rot);
            assert(cells0.map_values(|p: Coord| rot_k(p, ((2 * rot) / 2) as nat)) =~= current@);
            assert(c0 == (normalized_cells(current@), normalized_mark(current@, mark)));
        }
        add_variant(&mut variants, &current, mark, mi);
        proof {
            assert(variants_model(variants@) == distinct_candidates(cells0, m0, 2 * rot + 1));
            assert(forall|i: int| 0 <= i < current@.len() ==> (#[trigger] current@[i]).1 >= -127);
        }
        let reflected = reflect(&current);
        let rmark = (mark.0, -mark.1);
        proof {
            lemma_range_reflect(current@);
            assert(reflected@[mi as int] == rmark);
            let c1 = candidate(cells0, m0, 2 * rot + 1);
            assert((2 * rot + 1) / 2 == rot);
            assert((2 * rot + 1) % 2 == 1);
            assert(cells0.map_values(|p: Coord| reflect_cell(rot_k(p, ((2 * rot + 1) / 2) as nat)))
                =~= reflected@);
            assert(c1 == (normalized_cells(reflected@), normalized_mark(reflected@, rmark)));
        }
        add_variant(&mut variants, &reflected, rmark, mi);
        proof {
            assert(variants_model(variants@) == distinct_candidates(cells0, m0, 2 * rot + 2));
            assert(forall|i: int| 0 <= i < current@.len() ==> (#[trigger] current@[i]).0 >= -127);
            lemma_range_rot90(current@);
        }
        let next = rotate90(&current);
        proof {
            assert(next@ =~= cells0.map_values(|p: Coord| rot_k(p, (rot + 1) as nat)));
        }
        current = next;
        mark = (mark.1, -mark.0);
        rot = rot + 1;
    }
    variants
}


/// A candidate keeps the number of cells, its cells are in row-major
/// order, and its mark is one of its cells.
proof fn lemma_candidate_shape(cells: Seq<Coord>, mi: int, i: int)
    requires
        0 <= mi < cells.len(),
    ensures
        candidate(cells, cells[mi], i).0.len() == cells.len(),
        candidate(cells, cells[mi], i).0.contains(candidate(cells, cells[mi], i).1),
        sorted_by(candidate(cells, cells[mi], i).0, row_major()),
{
    let k = (i / 2) as nat;
    let mark = cells[mi];
    let t = if i % 2 == 1 {
        cells.map_values(|p: Coord| reflect_cell(rot_k(p, k)))
    } else {
        cells.map_values(|p: Coord| rot_k(p, k))
    };
    let m = if i % 2 == 1 {
        reflect_cell(rot_k(mark, k))
    } else {
        rot_k(mark, k)
    };
    assert(t[mi] == m);
    let shifted = t.map_values(|p: Coord| shift_cell(p, min_row(t), min_col(t)));
    assert(shifted[mi] == normalized_mark(t, m));
    lemma_row_major_total();
    shifted.lemma_sort_by_ensures(row_major());
    let sorted = shifted.sort_by(row_major());
    assert(shifted.to_multiset().len() == shifted.len());
    assert(sorted.to_multiset().len() == sorted.len());
    assert(shifted.contains(normalized_mark(t, m)));
    assert(shifted.to_multiset().count(normalized_mark(t, m)) > 0);
    assert(sorted.to_multiset().count(normalized_mark(t, m)) > 0);
    assert(candidate(cells, mark, i) == (sorted, normalized_mark(t, m)));
}

/// Variants of a definition: each has as many cells as the definition,
/// lists them in row-major order, and its mark is one of its cells.
pub proof fn lemma_variant_shape(cells: Seq<Coord>, mi: int, n: int)
    requires
        0 <= mi < cells.len(),
    ensures
        forall|j: int|
            0 <= j < distinct_candidates(cells, cells[mi], n).len() ==> {
                let v = #[trigger] distinct_candidates(cells, cells[mi], n)[j];
                &&& v.0.len() == cells.len()
                &&& v.0.contains(v.1)
                &&& sorted_by(v.0, row_major())
            },
    decreases n,
{
    if n > 0 {
        lemma_variant_shape(cells, mi, n - 1);
        lemma_candidate_shape(cells, mi, n - 1);
        let prev = distinct_candidates(cells, cells[mi], n - 1);
        let cur = distinct_candidates(cells, cells[mi], n);
        assert forall|j: int| 0 <= j < cur.len() implies {
            let v = #[trigger] cur[j];
            &&& v.0.len() == cells.len()
            &&& v.0.contains(v.1)
            &&& sorted_by(v.0, row_major())
        } by {
            if j < prev.len() {
                assert(cur[j] == prev[j]);
            } else {
                assert(cur[j] == candidate(cells, cells[mi], n - 1));
            }
        }
    }
}

proof fn lemma_rot90_no_dup(s: Seq<Coord>)
    requires
        coords_in_range(s),
        s.no_duplicates(),
    ensures
        s.map_values(|p: Coord| rot90(p)).no_duplicates(),
{
    let t = s.map_values(|p: Coord| rot90(p));
    assert forall|i: int, j: int| 0 <= i < t.len() && 0 <= j < t.len() && i != j implies t[i] != t[j] by {
        assert(s[i].0 >= -127 && s[j].0 >= -127);
        assert(s[i].0 - s[j].0 <= 127 && s[j].0 - s[i].0 <= 127);
        if t[i] == t[j] {
            assert(s[i].1 == s[j].1);
            assert(s[i].0 <= 127 && s[j].0 <= 127) by {
                assert(s[i].0 - s[i].0 <= 127);
            }
            assert(s[i].0 == s[j].0);
            assert(s[i] == s[j]);
        }
    }
}

proof fn lemma_reflect_no_dup(s: Seq<Coord>)
    requires
        coords_in_range(s),
        s.no_duplicates(),
    ensures
        s.map_values(|p: Coord| reflect_cell(p)).no_duplicates(),
{
    let t = s.map_values(|p: Coord| reflect_cell(p));
    assert forall|i: int, j: int| 0 <= i < t.len() && 0 <= j < t.len() && i != j implies t[i] != t[j] by {
        assert(s[i].1 >= -127 && s[j].1 >= -127);
        if t[i] == t[j] {
            assert(s[i].0 == s[j].0);
            assert(s[i].1 == s[j].1);
            assert(s[i] == s[j]);
        }
    }
}

pub proof fn lemma_rot_k_props(s: Seq<Coord>, k: nat)
    requires
        coords_in_range(s),
        s.no_duplicates(),
    ensures
        coords_in_range(s.map_values(|p: Coord| rot_k(p, k))),
        s.map_values(|p: Coord| rot_k(p, k)).no_duplicates(),
    decreases k,
{
    if k == 0 {
        assert(s.map_values(|p: Coord| rot_k(p, k)) =~= s);
    } else {
        let prev = s.map_values(|p: Coord| rot_k(p, (k - 1) as nat));
        lemma_rot_k_props(s, (k - 1) as nat);
        lemma_range_rot90(prev);
        lemma_rot90_no_dup(prev);
        assert(s.map_values(|p: Coord| rot_k(p, k)) =~= prev.map_values(|p: Coord| rot90(p)));
    }
}

proof fn lemma_normalized_no_dup(t: Seq<Coord>)
    requires
        t.len() > 0,
        coords_in_range(t),
        t.no_duplicates(),
    ensures
        normalized_cells(t).no_duplicates(),
{
    lemma_min_row(t);
    lemma_min_col(t);
    let mr = min_row(t);
    let mc = min_col(t);
    let jr = choose|j: int| 0 <= j < t.len() && mr == (#[trigger] t[j]).0;
    let jc = choose|j: int| 0 <= j < t.len() && mc == (#[trigger] t[j]).1;
    let sh = t.map_values(|p: Coord| shift_cell(p, mr, mc));
    assert forall|i: int, j: int| 0 <= i < sh.len() && 0 <= j < sh.len() && i != j implies sh[i] != sh[j] by {
        assert(t[i].0 - t[jr].0 <= 127 && t[j].0 - t[jr].0 <= 127);
        assert(t[i].1 - t[jc].1 <= 127 && t[j].1 - t[jc].1 <= 127);
        assert(mr <= t[i].0 && mr <= t[j].0 && mc <= t[i].1 && mc <= t[j].1);
        if sh[i] == sh[j] {
            assert(t[i].0 - mr == t[j].0 - mr);
            assert(t[i].1 - mc == t[j].1 - mc);
            assert(t[i] == t[j]);
        }
    }
    lemma_row_major_total();
    sh.lemma_sort_by_ensures(row_major());
    let sorted = sh.sort_by(row_major());
    sh.lemma_multiset_has_no_duplicates();
    assert forall|x: Coord| sorted.to_multiset().contains(x) implies sorted.to_multiset().count(x) == 1 by {
        assert(sh.to_multiset().contains(x));
    }
    sorted.lemma_multiset_has_no_duplicates_conv();
}

/// A candidate of a definition with distinct cells has distinct cells.
proof fn lemma_candidate_no_dup(cells: Seq<Coord>, mark: Coord, i: int)
    requires
        cells.len() > 0,
        coords_in_range(cells),
        cells.no_duplicates(),
    ensures
        candidate(cells, mark, i).0.no_duplicates(),
{
    let k = (i / 2) as nat;
    lemma_rot_k_props(cells, k);
    let r = cells.map_values(|p: Coord| rot_k(p, k));
    if i % 2 == 1 {
        lemma_range_reflect(r);
        lemma_reflect_no_dup(r);
        let t = cells.map_values(|p: Coord| reflect_cell(rot_k(p, k)));
        assert(t =~= r.map_values(|p: Coord| reflect_cell(p)));
        lemma_normalized_no_dup(t);
    } else {
        lemma_normalized_no_dup(r);
    }
}

/// Variants of a definition whose cells are distinct have distinct cells.
pub proof fn lemma_variant_no_dup(cells: Seq<Coord>, mark: Coord, n: int)
    requires
        cells.len() > 0,
        coords_in_range(cells),
        cells.no_duplicates(),
    ensures
        forall|j: int|
            0 <= j < distinct_candidates(cells, mark, n).len() ==> (#[trigger] distinct_candidates(
                cells,
                mark,
                n,
            )[j]).0.no_duplicates(),
    decreases n,
{
    if n > 0 {
        lemma_variant_no_dup(cells, mark, n - 1);
        lemma_candidate_no_dup(cells, mark, n - 1);
        let prev = distinct_candidates(cells, mark, n - 1);
        let cur = distinct_candidates(cells, mark, n);
        assert forall|j: int| 0 <= j < cur.len() implies (#[trigger] cur[j]).0.no_duplicates() by {
            if j < prev.len() {
                assert(cur[j] == prev[j]);
            }
        }
    }
}


/// Rows and columns of `s` each span at most `d`.
pub open spec fn spans_within(s: Seq<Coord>, d: int) -> bool {
    forall|i: int, j: int|
        0 <= i < s.len() && 0 <= j < s.len() ==> (#[trigger] s[i]).0 - (#[trigger] s[j]).0 <= d
            && s[i].1 - s[j].1 <= d
}

/// Every cell of `s` lies in the square `[0, d] x [0, d]`.
pub open spec fn in_box(s: Seq<Coord>, d: int) -> bool {
    forall|i: int| 0 <= i < s.len() ==> 0 <= (#[trigger] s[i]).0 <= d && 0 <= s[i].1 <= d
}

proof fn lemma_spans_rot90(s: Seq<Coord>, d: int)
    requires
        coords_in_range(s),
        spans_within(s, d),
    ensures
        spans_within(s.map_values(|p: Coord| rot90(p)), d),
{
    let t = s.map_values(|p: Coord| rot90(p));
    assert forall|i: int, j: int| 0 <= i < t.len() && 0 <= j < t.len() implies (#[trigger] t[i]).0
        - (#[trigger] t[j]).0 <= d && t[i].1 - t[j].1 <= d by {
        assert(s[i].0 >= -127 && s[j].0 >= -127);
        assert(s[i].0 - s[j].0 <= d && s[j].0 - s[i].0 <= d);
        assert(s[i].1 - s[j].1 <= d);
    }
}

proof fn lemma_spans_reflect(s: Seq<Coord>, d: int)
    requires
        coords_in_range(s),
        spans_within(s, d),
    ensures
        spans_within(s.map_values(|p: Coord| reflect_cell(p)), d),
{
    let t = s.map_values(|p: Coord| reflect_cell(p));
    assert forall|i: int, j: int| 0 <= i < t.len() && 0 <= j < t.len() implies (#[trigger] t[i]).0
        - (#[trigger] t[j]).0 <= d && t[i].1 - t[j].1 <= d by {
        assert(s[i].1 >= -127 && s[j].1 >= -127);
        assert(s[i].0 - s[j].0 <= d && s[j].1 - s[i].1 <= d);
    }
}

proof fn lemma_spans_rot_k(s: Seq<Coord>, k: nat, d: int)
    requires
        coords_in_range(s),
        spans_within(s, d),
    ensures
        coords_in_range(s.map_values(|p: Coord| rot_k(p, k))),
        spans_within(s.map_values(|p: Coord| rot_k(p, k)), d),
    decreases k,
{
    if k == 0 {
        assert(s.map_values(|p: Coord| rot_k(p, k)) =~= s);
    } else {
        let prev = s.map_values(|p: Coord| rot_k(p, (k - 1) as nat));
        lemma_spans_rot_k(s, (k - 1) as nat, d);
        lemma_range_rot90(prev);
        lemma_spans_rot90(prev, d);
        assert(s.map_values(|p: Coord| rot_k(p, k)) =~= prev.map_values(|p: Coord| rot90(p)));
    }
}

proof fn lemma_normalized_in_box(t: Seq<Coord>, d: int)
    requires
        t.len() > 0,
        coords_in_range(t),
        spans_within(t, d),
        d <= 127,
    ensures
        in_box(normalized_cells(t), d),
{
    lemma_min_row(t);
    lemma_min_col(t);
    let mr = min_row(t);
    let mc = min_col(t);
    let jr = choose|j: int| 0 <= j < t.len() && mr == (#[trigger] t[j]).0;
    let jc = choose|j: int| 0 <= j < t.len() && mc == (#[trigger] t[j]).1;
    let sh = t.map_values(|p: Coord| shift_cell(p, mr, mc));
    assert(in_box(sh, d)) by {
        assert forall|i: int| 0 <= i < sh.len() implies 0 <= (#[trigger] sh[i]).0 <= d && 0
            <= sh[i].1 <= d by {
            assert(t[i].0 - t[jr].0 <= d);
            assert(t[i].1 - t[jc].1 <= d);
            assert(mr <= t[i].0 && mc <= t[i].1);
        }
    }
    lemma_row_major_total();
    sh.lemma_sort_by_ensures(row_major());
    let sorted = sh.sort_by(row_major());
    assert forall|i: int| 0 <= i < sorted.len() implies 0 <= (#[trigger] sorted[i]).0 <= d && 0
        <= sorted[i].1 <= d by {
        assert(sorted.to_multiset().count(sorted[i]) > 0);
        assert(sh.to_multiset().count(sorted[i]) > 0);
        assert(sh.contains(sorted[i]));
    }
}

proof fn lemma_candidate_in_box(cells: Seq<Coord>, mark: Coord, i: int, d: int)
    requires
        cells.len() > 0,
        coords_in_range(cells),
        spans_within(cells, d),
        d <= 127,
    ensures
        in_box(candidate(cells, mark, i).0, d),
{
    let k = (i / 2) as nat;
    lemma_spans_rot_k(cells, k, d);
    let r = cells.map_values(|p: Coord| rot_k(p, k));
    if i % 2 == 1 {
        lemma_range_reflect(r);
        lemma_spans_reflect(r, d);
        let t = cells.map_values(|p: Coord| reflect_cell(rot_k(p, k)));
        assert(t =~= r.map_values(|p: Coord| reflect_cell(p)));
        lemma_normalized_in_box(t, d);
    } else {
        lemma_normalized_in_box(r, d);
    }
}

/// Variants of a definition whose rows and columns span at most `d` lie
/// in the square `[0, d] x [0, d]`.
pub proof fn lemma_variant_in_box(cells: Seq<Coord>, mark: Coord, n: int, d: int)
    requires
        cells.len() > 0,
        coords_in_range(cells),
        spans_within(cells, d),
        d <= 127,
    ensures
        forall|j: int|
            0 <= j < distinct_candidates(cells, mark, n).len() ==> in_box(
                (#[trigger] distinct_candidates(cells, mark, n)[j]).0,
                d,
            ),
    decreases n,
{
    if n > 0 {
        lemma_variant_in_box(cells, mark, n - 1, d);
        lemma_candidate_in_box(cells, mark, n - 1, d);
        let prev = distinct_candidates(cells, mark, n - 1);
        let cur = distinct_candidates(cells, mark, n);
        assert forall|j: int| 0 <= j < cur.len() implies in_box((#[trigger] cur[j]).0, d) by {
            if j < prev.len() {
                assert(cur[j] == prev[j]);
            }
        }
    }
}

/// A definition has at least one variant.
pub proof fn lemma_variants_nonempty(cells: Seq<Coord>, mark: Coord, n: int)
    requires
        n >= 1,
    ensures
        distinct_candidates(cells, mark, n).len() >= 1,
    decreases n,
{
    if n > 1 {
        lemma_variants_nonempty(cells, mark, n - 1);
    } else {
        assert(distinct_candidates(cells, mark, 0).len() == 0);
    }
}

/// Sorting cells row-major keeps them: the sorted list has the same
/// length and elements, is ordered, and has no element twice when the
/// input has none twice.
pub proof fn lemma_sort_cells(s: Seq<Coord>)
    ensures
        ({
            let t = s.sort_by(row_major());
            &&& t.len() == s.len()
            &&& sorted_by(t, row_major())
            &&& forall|k: int| 0 <= k < t.len() ==> s.contains(#[trigger] t[k])
            &&& forall|k: int| 0 <= k < s.len() ==> t.contains(#[trigger] s[k])
            &&& s.no_duplicates() ==> t.no_duplicates()
        }),
{
    lemma_row_major_total();
    s.lemma_sort_by_ensures(row_major());
    let t = s.sort_by(row_major());
    assert(t.to_multiset().len() == t.len());
    assert(s.to_multiset().len() == s.len());
    assert forall|k: int| 0 <= k < t.len() implies s.contains(#[trigger] t[k]) by {
        assert(t.to_multiset().count(t[k]) > 0);
        assert(s.to_multiset().count(t[k]) > 0);
    }
    assert forall|k: int| 0 <= k < s.len() implies t.contains(#[trigger] s[k]) by {
        assert(s.to_multiset().count(s[k]) > 0);
        assert(t.to_multiset().count(s[k]) > 0);
    }
    if s.no_duplicates() {
        s.lemma_multiset_has_no_duplicates();
        assert forall|x: Coord| t.to_multiset().contains(x) implies t.to_multiset().count(x) == 1 by {
            assert(s.to_multiset().contains(x));
        }
        t.lemma_multiset_has_no_duplicates_conv();
    }
}

/// A list without repeats whose elements all occur in another list
/// without repeats is no longer than it.
pub proof fn lemma_distinct_subset_len<T>(a: Seq<T>, b: Seq<T>)
    requires
        a.no_duplicates(),
        b.no_duplicates(),
        forall|k: int| 0 <= k < a.len() ==> b.contains(#[trigger] a[k]),
    ensures
        a.len() <= b.len(),
{
    broadcast use vstd::seq_lib::seq_to_set_is_finite;
    a.unique_seq_to_set();
    b.unique_seq_to_set();
    assert forall|x: T| a.to_set().contains(x) implies b.to_set().contains(x) by {
        let k = choose|k: int| 0 <= k < a.len() && a[k] == x;
        assert(b.contains(a[k]));
    }
    vstd::set_lib::lemma_len_subset(a.to_set(), b.to_set());
}

/// Four quarter turns bring every cell back where it was, and two
/// reflections do too.
pub proof fn lemma_turns_return(p: Coord)
    requires
        p.0 > -128,
        p.1 > -128,
    ensures
        rot90(rot90(rot90(rot90(p)))) == p,
        rot_k(p, 4) == p,
        reflect_cell(reflect_cell(p)) == p,
{
    assert(rot_k(p, 4) == rot90(rot90(rot90(rot90(p))))) by {
        reveal_with_fuel(rot_k, 5);
    }
}

/// The cells have no negative row or column, and some cell is in row 0
/// and some in column 0.
pub open spec fn normalized_shape(v: Seq<Coord>) -> bool {
    &&& forall|k: int| 0 <= k < v.len() ==> v[k].0 >= 0 && v[k].1 >= 0
    &&& exists|k: int| 0 <= k < v.len() && v[k].0 == 0
    &&& exists|k: int| 0 <= k < v.len() && v[k].1 == 0
}

/// Every variant of a definition is normalized: its smallest row and its
/// smallest column are both 0.
pub proof fn lemma_variant_normalized(cells: Seq<Coord>, mark: Coord, n: int)
    requires
        cells.len() > 0,
        coords_in_range(cells),
    ensures
        forall|j: int|
            0 <= j < distinct_candidates(cells, mark, n).len() ==> normalized_shape(
                (#[trigger] distinct_candidates(cells, mark, n)[j]).0,
            ),
    decreases n,
{
    if n > 0 {
        lemma_variant_normalized(cells, mark, n - 1);
        lemma_candidate_normalized(cells, mark, n - 1);
        let prev = distinct_candidates(cells, mark, n - 1);
        let cur = distinct_candidates(cells, mark, n);
        assert forall|j: int| 0 <= j < cur.len() implies normalized_shape((#[trigger] cur[j]).0) by {
            if j < prev.len() {
                assert(cur[j] == prev[j]);
            }
        }
    }
}

proof fn lemma_candidate_normalized(cells: Seq<Coord>, mark: Coord, i: int)
    requires
        cells.len() > 0,
        coords_in_range(cells),
    ensures
        normalized_shape(candidate(cells, mark, i).0),
{
    let k = (i / 2) as nat;
    lemma_spans_rot_k(cells, k, 254);
    let r = cells.map_values(|p: Coord| rot_k(p, k));
    if i % 2 == 1 {
        lemma_range_reflect(r);
        let t = cells.map_values(|p: Coord| reflect_cell(rot_k(p, k)));
        assert(t =~= r.map_values(|p: Coord| reflect_cell(p)));
        lemma_normalized_corner(t);
    } else {
        lemma_normalized_corner(r);
    }
}

proof fn lemma_normalized_corner(t: Seq<Coord>)
    requires
        t.len() > 0,
        coords_in_range(t),
    ensures
        normalized_shape(normalized_cells(t)),
{
    lemma_min_row(t);
    lemma_min_col(t);
    let mr = min_row(t);
    let mc = min_col(t);
    let jr = choose|j: int| 0 <= j < t.len() && mr == (#[trigger] t[j]).0;
    let jc = choose|j: int| 0 <= j < t.len() && mc == (#[trigger] t[j]).1;
    let sh = t.map_values(|p: Coord| shift_cell(p, mr, mc));
    assert forall|k: int| 0 <= k < sh.len() implies sh[k].0 >= 0 && sh[k].1 >= 0 by {
        assert(t[k].0 - t[jr].0 <= 127);
        assert(t[k].1 - t[jc].1 <= 127);
    }
    assert(t[jr].1 - t[jc].1 <= 127);
    assert(t[jc].0 - t[jr].0 <= 127);
    assert(sh[jr].0 == 0);
    assert(sh[jc].1 == 0);
    lemma_row_major_total();
    sh.lemma_sort_by_ensures(row_major());
    let v = sh.sort_by(row_major());
    assert forall|k: int| 0 <= k < v.len() implies v[k].0 >= 0 && v[k].1 >= 0 by {
        assert(v.to_multiset().count(v[k]) > 0);
        assert(sh.to_multiset().count(v[k]) > 0);
        assert(sh.contains(v[k]));
    }
    assert(sh.to_multiset().count(sh[jr]) > 0);
    assert(v.to_multiset().count(sh[jr]) > 0);
    assert(v.contains(sh[jr]));
    assert(sh.to_multiset().count(sh[jc]) > 0);
    assert(v.to_multiset().count(sh[jc]) > 0);
    assert(v.contains(sh[jc]));
}

} // verus!
