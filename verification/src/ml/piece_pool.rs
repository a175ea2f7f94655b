//! Piece pools for synthesized training instances: shapes drawn from the
//! polyomino catalog by size, kept once per canonical bitmap, each with a
//! random mark cell.

use vstd::prelude::*;

use crate::base::rng::{SolverRng, choose_from, random_below, random_between, random_byte_between};
use crate::domain::enumerate::PieceInstance;
use crate::domain::piece::{Coord, PieceDef, PieceDefModel, coords_in_range, copy_coords, spans_within};
use crate::ml::canonical::{
    SIDE, canonical_bitmap, canonical_bitmap_of, lemma_canonical_mark_free,
};
use crate::ml::polyomino::{MAX_SIZE, PolyominoCatalog, catalog_ok, rooted_polyomino};
use crate::text::{decimal_chars, push_decimal, push_str, string_from_chars};

verus! {

/// One instance's pieces and the distinct definitions they use.
pub struct PiecePool {
    /// Distinct piece definitions used by the instance.
    pub piece_defs: Vec<PieceDef>,
    /// The pieces, each pointing into `piece_defs` by `type_idx` and by id.
    pub pieces: Vec<PieceInstance>,
}

/// The id of the `k`-th definition of a pool: `def_{k}`.
pub open spec fn pool_def_id(k: int) -> Seq<char> {
    "def_"@ + decimal_chars(k as nat)
}

/// A catalog of polyominoes of sizes up to at most 6.
pub open spec fn catalog_ready(cat: Seq<Seq<PieceDefModel>>) -> bool {
    1 <= cat.len() <= MAX_SIZE + 1 && catalog_ok(cat, cat.len() - 1)
}

/// The sizes whose catalog entry has some shape, in order.
pub open spec fn drawn_sizes(sizes: Seq<u8>, cat: Seq<Seq<PieceDefModel>>, n: int) -> Seq<u8>
    decreases n,
{
    if n <= 0 {
        Seq::empty()
    } else {
        let prev = drawn_sizes(sizes, cat, n - 1);
        if cat[sizes[n - 1] as int].len() > 0 {
            prev.push(sizes[n - 1])
        } else {
            prev
        }
    }
}

/// The definitions have the ids `def_0`, `def_1`, ..., are polyominoes
/// with a mark among their cells, and have pairwise different canonical
/// bitmaps; each piece points at a definition by position and by id.
pub open spec fn pool_ok(defs: Seq<PieceDef>, pieces: Seq<PieceInstance>) -> bool {
    &&& forall|k: int|
        0 <= k < defs.len() ==> {
            let d = #[trigger] defs[k];
            &&& d.id@ == pool_def_id(k)
            &&& d.mark_index < d.cells@.len() <= MAX_SIZE
            &&& rooted_polyomino(d.cells@)
            &&& coords_in_range(d.cells@)
            &&& spans_within(d.cells@, SIDE - 1)
        }
    &&& forall|a: int, b: int|
        0 <= a < b < defs.len() ==> canonical_bitmap_of(
            (#[trigger] defs[a]).cells@,
            defs[a].mark_index as int,
            SIDE as int,
        ) != canonical_bitmap_of((#[trigger] defs[b]).cells@, defs[b].mark_index as int, SIDE as int)
    &&& forall|p: int|
        0 <= p < pieces.len() ==> (#[trigger] pieces[p]).type_idx < defs.len()
            && pieces[p].def_id@ == defs[pieces[p].type_idx as int].id@
}

fn pool_id_string(k: usize) -> (r: String)
    ensures
        r@ == pool_def_id(k as int),
{
    let mut out: Vec<char> = Vec::new();
    push_str(&mut out, "def_");
    push_decimal(&mut out, k as u64);
    proof {
        assert(out@ =~= pool_def_id(k as int));
    }
    string_from_chars(&out)
}

fn bytes_equal(a: &Vec<u8>, b: &Vec<u8>) -> (r: bool)
    ensures
        r == (a@ == b@),
{
    if a.len() != b.len() {
        return false;
    }
    let mut i: usize = 0;
    while i < a.len()
        invariant
            i <= a@.len(),
            a@.len() == b@.len(),
            forall|k: int| 0 <= k < i ==> a@[k] == b@[k],
        decreases a.len() - i,
    {
        if a[i] != b[i] {
            return false;
        }
        i = i + 1;
    }
    assert(a@ =~= b@);
    true
}

/// Each stored bitmap is the canonical bitmap of the definition at the
/// same position.
pub open spec fn bitmaps_match(bitmaps: Seq<Vec<u8>>, defs: Seq<PieceDef>) -> bool {
    &&& bitmaps.len() == defs.len()
    &&& forall|k: int|
        0 <= k < defs.len() ==> (#[trigger] bitmaps[k])@ == canonical_bitmap_of(
            defs[k].cells@,
            defs[k].mark_index as int,
            SIDE as int,
        )
}

/// A shape that may become a definition: a polyomino of 1 to 6 cells that
/// fits the canonical bitmap.
pub open spec fn poolable(cells: Seq<Coord>) -> bool {
    &&& 0 < cells.len() <= MAX_SIZE
    &&& rooted_polyomino(cells)
    &&& coords_in_range(cells)
    &&& spans_within(cells, SIDE - 1)
}

/// The definition is the shape `cells` up to rotation and reflection.
pub open spec fn same_shape(d: PieceDef, cells: Seq<Coord>) -> bool {
    &&& d.cells@.len() == cells.len()
    &&& canonical_bitmap_of(d.cells@, d.mark_index as int, SIDE as int) == canonical_bitmap_of(
        cells,
        0,
        SIDE as int,
    )
}

/// Adds one piece of the shape `shape`: a new definition `def_{k}` with the
/// shape's cells and a random mark cell, unless a definition with the
/// same canonical bitmap exists already, in which case the piece uses it.
fn add_shape(
    defs: &mut Vec<PieceDef>,
    bitmaps: &mut Vec<Vec<u8>>,
    pieces: &mut Vec<PieceInstance>,
    shape: &PieceDef,
    rng: &mut SolverRng,
)
    requires
        pool_ok(old(defs)@, old(pieces)@),
        bitmaps_match(old(bitmaps)@, old(defs)@),
        old(defs)@.len() <= old(pieces)@.len() < u16::MAX,
        poolable(shape.cells@),
        shape.mark_index < shape.cells@.len(),
    ensures
        pool_ok(final(defs)@, final(pieces)@),
        bitmaps_match(final(bitmaps)@, final(defs)@),
        final(pieces)@.len() == old(pieces)@.len() + 1,
        final(defs)@.len() <= final(pieces)@.len(),
        forall|p: int| 0 <= p < old(pieces)@.len() ==> #[trigger] final(pieces)@[p] == old(pieces)@[p],
        forall|k: int| 0 <= k < old(defs)@.len() ==> #[trigger] final(defs)@[k] == old(defs)@[k],
        same_shape(final(defs)@[final(pieces)@.last().type_idx as int], shape.cells@),
        final(defs)@.len() == old(defs)@.len() || (final(defs)@.len() == old(defs)@.len() + 1
            && final(defs)@.last().cells@ == shape.cells@ && final(pieces)@.last().type_idx
            == old(defs)@.len()),
{
    let bitmap = canonical_bitmap(shape);
    proof {
        lemma_canonical_mark_free(shape.cells@, shape.mark_index as int, 0);
    }
    let mut found: Option<usize> = None;
    let mut k: usize = 0;
    while k < bitmaps.len()
        invariant
            k <= bitmaps@.len(),
            found matches Some(f) ==> f < bitmaps@.len() && bitmaps@[f as int]@ == bitmap@,
            found is None ==> forall|j: int| 0 <= j < k ==> bitmaps@[j]@ != bitmap@,
        ensures
            found matches Some(f) ==> f < bitmaps@.len() && bitmaps@[f as int]@ == bitmap@,
            found is None ==> forall|j: int| 0 <= j < bitmaps@.len() ==> bitmaps@[j]@ != bitmap@,
        decreases bitmaps.len() - k,
    {
        if bytes_equal(&bitmaps[k], &bitmap) {
            found = Some(k);
            break;
        }
        k = k + 1;
    }
    let ghost pieces0 = pieces@;
    let ghost defs0 = defs@;
    let ghost bitmaps0 = bitmaps@;
    let def_idx = match found {
        Some(f) => f,
        None => {
            let mark_index = random_below(rng, shape.cells.len());
            let id = pool_id_string(defs.len());
            let cells = copy_coords(&shape.cells);
            defs.push(PieceDef { id, cells, mark_index });
            bitmaps.push(bitmap);
            proof {
                let nd = defs@;
                let last = nd.len() - 1;
                lemma_canonical_mark_free(shape.cells@, 0, mark_index as int);
                assert(nd[last].cells@ == shape.cells@);
                assert forall|a: int, b: int| 0 <= a < b < nd.len() implies canonical_bitmap_of(
                    (#[trigger] nd[a]).cells@,
                    nd[a].mark_index as int,
                    SIDE as int,
                ) != canonical_bitmap_of((#[trigger] nd[b]).cells@, nd[b].mark_index as int, SIDE as int) by {
                    if b == last {
                        assert(nd[a] == defs0[a]);
                        assert(bitmaps0[a]@ != bitmap@);
                    } else {
                        assert(nd[a] == defs0[a] && nd[b] == defs0[b]);
                    }
                }
                assert forall|k2: int| 0 <= k2 < nd.len() implies {
                    let d = #[trigger] nd[k2];
                    &&& d.id@ == pool_def_id(k2)
                    &&& d.mark_index < d.cells@.len() <= MAX_SIZE
                    &&& rooted_polyomino(d.cells@)
                    &&& coords_in_range(d.cells@)
                    &&& spans_within(d.cells@, SIDE - 1)
                } by {
                    if k2 < last {
                        assert(nd[k2] == defs0[k2]);
                    }
                }
                assert forall|k2: int| 0 <= k2 < nd.len() implies (#[trigger] bitmaps@[k2])@ == canonical_bitmap_of(
                    nd[k2].cells@,
                    nd[k2].mark_index as int,
                    SIDE as int,
                ) by {
                    if k2 < last {
                        assert(nd[k2] == defs0[k2]);
                        assert(bitmaps@[k2] == bitmaps0[k2]);
                    }
                }
                assert forall|p: int| 0 <= p < pieces@.len() implies (#[trigger] pieces@[p]).type_idx < nd.len()
                    && pieces@[p].def_id@ == nd[pieces@[p].type_idx as int].id@ by {
                    assert(nd[pieces@[p].type_idx as int] == defs0[pieces@[p].type_idx as int]);
                }
            }
            defs.len() - 1
        },
    };
    proof {
        if found is Some {
            lemma_canonical_mark_free(shape.cells@, shape.mark_index as int, 0);
            assert(defs@[def_idx as int].cells@.len() == shape.cells@.len()) by {
                crate::ml::canonical::lemma_bitmap_cell_count_same(
                    defs@[def_idx as int].cells@,
                    defs@[def_idx as int].mark_index as int,
                    shape.cells@,
                );
            }
        }
    }
    let def_id = defs[def_idx].id.clone();
    pieces.push(PieceInstance { type_idx: def_idx as u16, def_id });
    proof {
        let np = pieces@;
        assert forall|p: int| 0 <= p < np.len() implies (#[trigger] np[p]).type_idx < defs@.len()
            && np[p].def_id@ == defs@[np[p].type_idx as int].id@ by {
            if p < pieces0.len() {
                assert(np[p] == pieces0[p]);
                assert(defs@[np[p].type_idx as int] == defs0[np[p].type_idx as int]);
            }
        }
    }
}

/// `cells` is one of the catalog's polyominoes of its size, cell for cell.
pub open spec fn in_catalog(cat: Seq<Seq<PieceDefModel>>, cells: Seq<Coord>) -> bool {
    exists|j: int| 0 <= j < cat[cells.len() as int].len() && #[trigger] cat[cells.len() as int][j].1 == cells
}

/// Draws one piece per size of `sizes` (skipping sizes with no shape): a
/// random catalog shape of that size, kept as a new definition `def_{k}`
/// with a random mark cell unless a definition with its canonical bitmap
/// exists already.
pub fn pool_from_sizes(catalog: &PolyominoCatalog, sizes: &Vec<u8>, rng: &mut SolverRng) -> (pool: PiecePool)
    requires
        catalog_ready(catalog@),
        forall|i: int| 0 <= i < sizes@.len() ==> (#[trigger] sizes@[i] as int) < catalog@.len(),
        sizes@.len() < u16::MAX,
    ensures
        pool_ok(pool.piece_defs@, pool.pieces@),
        pool.pieces@.len() == drawn_sizes(sizes@, catalog@, sizes@.len() as int).len(),
        forall|p: int|
            0 <= p < pool.pieces@.len() ==> pool.piece_defs@[(#[trigger] pool.pieces@[p]).type_idx as int].cells@.len()
                == drawn_sizes(sizes@, catalog@, sizes@.len() as int)[p],
        forall|k: int| 0 <= k < pool.piece_defs@.len() ==> in_catalog(catalog@, (#[trigger] pool.piece_defs@[k]).cells@),
{
    let ghost cat = catalog@;
    let mut defs: Vec<PieceDef> = Vec::new();
    let mut bitmaps: Vec<Vec<u8>> = Vec::new();
    let mut pieces: Vec<PieceInstance> = Vec::new();
    let mut i: usize = 0;
    while i < sizes.len()
        invariant
            i <= sizes@.len(),
            sizes@.len() < u16::MAX,
            cat == catalog@,
            catalog_ready(cat),
            forall|j: int| 0 <= j < sizes@.len() ==> (#[trigger] sizes@[j] as int) < cat.len(),
            pool_ok(defs@, pieces@),
            bitmaps_match(bitmaps@, defs@),
            defs@.len() <= pieces@.len() <= i,
            pieces@.len() == drawn_sizes(sizes@, cat, i as int).len(),
            forall|p: int|
                0 <= p < pieces@.len() ==> defs@[(#[trigger] pieces@[p]).type_idx as int].cells@.len()
                    == drawn_sizes(sizes@, cat, i as int)[p],
            forall|k: int| 0 <= k < defs@.len() ==> in_catalog(cat, (#[trigger] defs@[k]).cells@),
        decreases sizes.len() - i,
    {
        let size = sizes[i];
        let candidates = catalog.of_size(size);
        if candidates.len() == 0 {
            i = i + 1;
            continue;
        }
        let shape = choose_from(candidates, rng);
        let ghost j = choose|j: int| 0 <= j < candidates@.len() && candidates@[j] == *shape;
        proof {
            assert(shape@ == cat[size as int][j]);
            assert(shape.cells@.len() == size as int);
        }
        let ghost pieces0 = pieces@;
        let ghost defs0 = defs@;
        add_shape(&mut defs, &mut bitmaps, &mut pieces, shape, rng);
        proof {
            assert forall|k: int| 0 <= k < defs@.len() implies in_catalog(cat, (#[trigger] defs@[k]).cells@) by {
                if k < defs0.len() {
                    assert(defs@[k] == defs0[k]);
                } else {
                    assert(defs@[k].cells@ == shape.cells@);
                    assert(cat[size as int][j].1 == shape.cells@);
                }
            }
            let np = pieces@;
            let ds = drawn_sizes(sizes@, cat, i + 1);
            assert(ds == drawn_sizes(sizes@, cat, i as int).push(size));
            assert forall|p: int| 0 <= p < np.len() implies defs@[(#[trigger] np[p]).type_idx as int].cells@.len()
                == ds[p] by {
                if p < pieces0.len() {
                    assert(np[p] == pieces0[p]);
                    assert(defs@[np[p].type_idx as int] == defs0[np[p].type_idx as int]);
                }
            }
        }
        i = i + 1;
    }
    PiecePool { piece_defs: defs, pieces }
}

/// A pool under construction: the definitions so far, their canonical
/// bitmaps, and the pieces so far.
pub struct PoolBuilder {
    pub defs: Vec<PieceDef>,
    pub bitmaps: Vec<Vec<u8>>,
    pub pieces: Vec<PieceInstance>,
}

/// The builder holds a well-formed pool, with the bitmap of each definition.
pub open spec fn builder_ok(b: PoolBuilder) -> bool {
    &&& pool_ok(b.defs@, b.pieces@)
    &&& bitmaps_match(b.bitmaps@, b.defs@)
    &&& b.defs@.len() <= b.pieces@.len()
}

impl PoolBuilder {
    /// An empty pool.
    pub fn new() -> (b: Self)
        ensures
            builder_ok(b),
            b.defs@.len() == 0,
            b.pieces@.len() == 0,
    {
        PoolBuilder { defs: Vec::new(), bitmaps: Vec::new(), pieces: Vec::new() }
    }

    /// Adds one piece of the `idx`-th catalog shape of `size` cells (see
    /// `add_shape`): a new definition with those cells and a random mark
    /// cell, unless a definition of the same shape exists already.
    pub fn add_pick(&mut self, catalog: &PolyominoCatalog, size: u8, idx: usize, rng: &mut SolverRng)
        requires
            builder_ok(*old(self)),
            catalog_ready(catalog@),
            (size as int) < catalog@.len(),
            idx < catalog@[size as int].len(),
            old(self).pieces@.len() < u16::MAX,
        ensures
            builder_ok(*final(self)),
            final(self).pieces@.len() == old(self).pieces@.len() + 1,
            forall|p: int|
                0 <= p < old(self).pieces@.len() ==> #[trigger] final(self).pieces@[p] == old(self).pieces@[p],
            forall|k: int| 0 <= k < old(self).defs@.len() ==> #[trigger] final(self).defs@[k] == old(self).defs@[k],
            same_shape(
                final(self).defs@[final(self).pieces@.last().type_idx as int],
                picked_cells(catalog@, (size, idx)),
            ),
            final(self).defs@.len() == old(self).defs@.len() || (final(self).defs@.len() == old(self).defs@.len()
                + 1 && final(self).defs@.last().cells@ == picked_cells(catalog@, (size, idx))
                && final(self).pieces@.last().type_idx == old(self).defs@.len()),
    {
        let candidates = catalog.of_size(size);
        let shape = &candidates[idx];
        assert(shape@ == catalog@[size as int][idx as int]);
        add_shape(&mut self.defs, &mut self.bitmaps, &mut self.pieces, shape, rng);
    }

    /// The finished pool.
    pub fn finish(self) -> (pool: PiecePool)
        ensures
            pool.piece_defs@ == self.defs@,
            pool.pieces@ == self.pieces@,
    {
        PiecePool { piece_defs: self.defs, pieces: self.pieces }
    }
}

/// The catalog shape a pick names: a size and a position in the list of
/// shapes of that size.
pub open spec fn picked_cells(cat: Seq<Seq<PieceDefModel>>, pick: (u8, usize)) -> Seq<Coord> {
    cat[pick.0 as int][pick.1 as int].1
}

/// Cells of the first `n` pieces, each counted by its definition.
pub open spec fn pool_total(defs: Seq<PieceDef>, pieces: Seq<PieceInstance>, n: int) -> int
    decreases n,
{
    if n <= 0 {
        0
    } else {
        pool_total(defs, pieces, n - 1) + defs[pieces[n - 1].type_idx as int].cells@.len()
    }
}

proof fn lemma_pool_total_bound(defs: Seq<PieceDef>, pieces: Seq<PieceInstance>, n: int)
    requires
        pool_ok(defs, pieces),
        0 <= n <= pieces.len(),
    ensures
        0 <= pool_total(defs, pieces, n) <= MAX_SIZE * n,
    decreases n,
{
    if n > 0 {
        lemma_pool_total_bound(defs, pieces, n - 1);
        let d = defs[pieces[n - 1].type_idx as int];
        assert(d.cells@.len() <= MAX_SIZE);
    }
}

impl PiecePool {
    /// Total cell count over all pieces.
    pub fn total_cells(&self) -> (t: usize)
        requires
            pool_ok(self.piece_defs@, self.pieces@),
            self.pieces@.len() <= u16::MAX,
        ensures
            t as int == pool_total(self.piece_defs@, self.pieces@, self.pieces@.len() as int),
    {
        let mut t: usize = 0;
        let mut i: usize = 0;
        while i < self.pieces.len()
            invariant
                i <= self.pieces@.len() <= u16::MAX,
                pool_ok(self.piece_defs@, self.pieces@),
                t as int == pool_total(self.piece_defs@, self.pieces@, i as int),
            decreases self.pieces.len() - i,
        {
            proof {
                lemma_pool_total_bound(self.piece_defs@, self.pieces@, i + 1);
            }
            let ti = self.pieces[i].type_idx as usize;
            t = t + self.piece_defs[ti].cells.len();
            i = i + 1;
        }
        t
    }
}

/// Draws a piece count uniformly from `lo..=hi`.
pub fn draw_piece_count(rng: &mut SolverRng, lo: usize, hi: usize) -> (n: usize)
    requires
        lo <= hi,
    ensures
        lo <= n <= hi,
{
    random_between(rng, lo, hi)
}

/// Draws a count uniformly from `1..=hi` and caps it at `cap`.
pub fn draw_capped_count(rng: &mut SolverRng, hi: usize, cap: usize) -> (n: usize)
    requires
        hi >= 1,
    ensures
        n <= cap,
        n <= hi,
        cap >= 1 ==> n >= 1,
{
    let d = random_between(rng, 1, hi);
    if d < cap {
        d
    } else {
        cap
    }
}

/// Draws `count` small piece sizes, each uniformly from `1..=3`.
pub fn draw_small_sizes(rng: &mut SolverRng, count: usize) -> (r: Vec<u8>)
    ensures
        r@.len() == count,
        forall|k: int| 0 <= k < r@.len() ==> 1 <= #[trigger] r@[k] <= 3,
{
    let mut r: Vec<u8> = Vec::new();
    let mut k: usize = 0;
    while k < count
        invariant
            k <= count,
            r@.len() == k,
            forall|j: int| 0 <= j < r@.len() ==> 1 <= #[trigger] r@[j] <= 3,
        decreases count - k,
    {
        let s = random_byte_between(rng, 1, 3);
        r.push(s);
        k = k + 1;
    }
    r
}

/// `n` copies of `size`.
pub open spec fn repeated(size: u8, n: nat) -> Seq<u8> {
    Seq::new(n, |k: int| size)
}

/// The sizes of a pool's pieces: the small sizes, then `size4_count` of
/// 4 cells, `size5_count` of 5 cells and `six_count` of 6 cells.
pub open spec fn sizes_spec(small: Seq<u8>, size4_count: nat, size5_count: nat, six_count: nat) -> Seq<u8> {
    small + repeated(4, size4_count) + repeated(5, size5_count) + repeated(6, six_count)
}

/// Appends `n` copies of `size` to `v`.
fn push_repeated(v: &mut Vec<u8>, size: u8, n: usize)
    requires
        old(v)@.len() + n <= usize::MAX,
    ensures
        final(v)@ == old(v)@ + repeated(size, n as nat),
{
    let mut k: usize = 0;
    while k < n
        invariant
            k <= n,
            v@ == old(v)@ + repeated(size, k as nat),
        decreases n - k,
    {
        v.push(size);
        k = k + 1;
        proof {
            assert(v@ =~= old(v)@ + repeated(size, k as nat));
        }
    }
}

/// Lists the sizes of a pool's pieces: the small sizes in order, then the
/// pieces of 4, 5 and 6 cells.
pub fn sizes_from_counts(small: &Vec<u8>, size4_count: usize, size5_count: usize, six_count: usize) -> (r: Vec<u8>)
    requires
        small@.len() + size4_count + size5_count + six_count <= usize::MAX,
    ensures
        r@ == sizes_spec(small@, size4_count as nat, size5_count as nat, six_count as nat),
{
    let mut r: Vec<u8> = Vec::new();
    let mut k: usize = 0;
    while k < small.len()
        invariant
            k <= small@.len(),
            r@ == small@.take(k as int),
        decreases small@.len() - k,
    {
        r.push(small[k]);
        k = k + 1;
        proof {
            assert(r@ =~= small@.take(k as int));
        }
    }
    proof {
        assert(small@.take(k as int) =~= small@);
    }
    push_repeated(&mut r, 4, size4_count);
    push_repeated(&mut r, 5, size5_count);
    push_repeated(&mut r, 6, six_count);
    r
}

/// How many entries of `s` equal `size`.
pub open spec fn count_of(s: Seq<u8>, size: u8) -> nat
    decreases s.len(),
{
    if s.len() == 0 {
        0
    } else {
        count_of(s.drop_last(), size) + if s.last() == size {
            1nat
        } else {
            0nat
        }
    }
}

/// The number of pieces of each size 0 to 6: the small sizes counted, and
/// `size4_count`, `size5_count` and `six_count` pieces of 4, 5 and 6
/// cells added.
pub fn size_counts_from(small: &Vec<u8>, size4_count: usize, size5_count: usize, six_count: usize) -> (r: Vec<usize>)
    requires
        forall|k: int| 0 <= k < small@.len() ==> 1 <= #[trigger] small@[k] <= 3,
        small@.len() + size4_count + size5_count + six_count <= usize::MAX,
    ensures
        r@.len() == 7,
        r@[0] == 0,
        forall|s: int| 1 <= s <= 3 ==> #[trigger] r@[s] == count_of(small@, s as u8),
        r@[4] == size4_count,
        r@[5] == size5_count,
        r@[6] == six_count,
{
    let mut r: Vec<usize> = vec![0, 0, 0, 0, size4_count, size5_count, six_count];
    let mut k: usize = 0;
    while k < small.len()
        invariant
            k <= small@.len(),
            forall|j: int| 0 <= j < small@.len() ==> 1 <= #[trigger] small@[j] <= 3,
            small@.len() + size4_count + size5_count + six_count <= usize::MAX,
            r@.len() == 7,
            r@[0] == 0,
            forall|s: int| 1 <= s <= 3 ==> #[trigger] r@[s] == count_of(small@.take(k as int), s as u8),
            r@[4] == size4_count,
            r@[5] == size5_count,
            r@[6] == six_count,
        decreases small@.len() - k,
    {
        let sz = small[k] as usize;
        proof {
            assert(small@.take(k + 1).drop_last() =~= small@.take(k as int));
            lemma_count_of_le(small@.take(k as int), sz as u8);
        }
        r.set(sz, r[sz] + 1);
        k = k + 1;
    }
    proof {
        assert(small@.take(k as int) =~= small@);
    }
    r
}

proof fn lemma_count_of_le(s: Seq<u8>, size: u8)
    ensures
        count_of(s, size) <= s.len(),
    decreases s.len(),
{
    if s.len() > 0 {
        lemma_count_of_le(s.drop_last(), size);
    }
}

} // verus!
