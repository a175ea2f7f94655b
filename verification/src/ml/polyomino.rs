//! Free polyominoes, enumerated with Redelmeier's algorithm and kept once
//! per canonical bitmap.

use vstd::prelude::*;

use crate::domain::piece::{
    Coord, PieceDef, PieceDefModel, coords_in_range, copy_coords, lemma_distinct_subset_len, spans_within,
};
use crate::ml::canonical::{SIDE, canonical_bitmap, canonical_bitmap_of, lemma_canonical_multiset};
use crate::text::{decimal_chars, push_decimal, push_str, string_from_chars};

verus! {

/// Largest size the catalog enumerates: every shape of up to this many
/// connected cells fits the canonical bitmap.
pub const MAX_SIZE: u8 = 6;

/// Absolute value.
pub open spec fn abs(x: int) -> int {
    if x < 0 {
        -x
    } else {
        x
    }
}

/// Manhattan distance between two cells.
pub open spec fn dist(a: Coord, b: Coord) -> int {
    abs(a.0 - b.0) + abs(a.1 - b.1)
}

/// The two cells share an edge.
pub open spec fn adjacent(a: Coord, b: Coord) -> bool {
    dist(a, b) == 1
}

/// The cell is not before the anchor `(0, 0)` in row-major order.
pub open spec fn after_root(p: Coord) -> bool {
    p.0 > 0 || (p.0 == 0 && p.1 >= 0)
}

/// Some cell of `s` shares an edge with `p`.
pub open spec fn touches(s: Seq<Coord>, p: Coord) -> bool {
    exists|j: int| 0 <= j < s.len() && adjacent(#[trigger] s[j], p)
}

/// Each cell after the first shares an edge with an earlier one, so the
/// cells are connected.
pub open spec fn grown(s: Seq<Coord>) -> bool
    decreases s.len(),
{
    if s.len() <= 1 {
        true
    } else {
        grown(s.drop_last()) && touches(s.drop_last(), s.last())
    }
}

/// A fixed polyomino anchored at `(0, 0)`: its first cell is the anchor,
/// which no other cell precedes in row-major order; the cells are distinct
/// and connected.
pub open spec fn rooted_polyomino(s: Seq<Coord>) -> bool {
    &&& s.len() > 0
    &&& s[0] == (0i8, 0i8)
    &&& s.no_duplicates()
    &&& grown(s)
    &&& forall|i: int| 0 <= i < s.len() ==> after_root(#[trigger] s[i])
}

/// The id of the `idx`-th polyomino of `size` cells: `poly_{size}_{idx}`.
pub open spec fn poly_id(size: int, idx: int) -> Seq<char> {
    "poly_"@ + decimal_chars(size as nat) + "_"@ + decimal_chars(idx as nat)
}

/// A catalog of polyominoes of sizes `0..=max`: the definitions of size
/// `s` have `s` cells, mark index 0 and the ids `poly_{s}_{0}`,
/// `poly_{s}_{1}`, ... in order; each is a polyomino anchored at `(0, 0)`
/// whose rows and columns span fewer than `s` cells, and no two of one
/// size share a canonical bitmap.
pub open spec fn catalog_ok(v: Seq<Seq<PieceDefModel>>, max: int) -> bool {
    &&& v.len() == max + 1
    &&& forall|s: int, j: int|
        0 <= s <= max && 0 <= j < v[s].len() ==> {
            let d = #[trigger] v[s][j];
            &&& d.0 == poly_id(s, j)
            &&& d.1.len() == s
            &&& d.2 == 0
            &&& rooted_polyomino(d.1)
            &&& coords_in_range(d.1)
            &&& spans_within(d.1, s - 1)
        }
    &&& forall|s: int, j: int, k: int|
        0 <= s <= max && 0 <= j < k < v[s].len() ==> canonical_bitmap_of(
            (#[trigger] v[s][j]).1,
            0,
            SIDE as int,
        ) != canonical_bitmap_of((#[trigger] v[s][k]).1, 0, SIDE as int)
}

/// The catalog has a shape of the size of `p` with the canonical bitmap of
/// `p`: `p` up to rotation, reflection and translation.
pub open spec fn catalog_has(cat: Seq<Seq<PieceDefModel>>, p: Seq<Coord>) -> bool {
    exists|j: int|
        0 <= j < cat[p.len() as int].len() && canonical_bitmap_of(#[trigger] cat[p.len() as int][j].1, 0, SIDE as int)
            == canonical_bitmap_of(p, 0, SIDE as int)
}

/// Free polyominoes of each size, indexed by size.
pub struct PolyominoCatalog {
    by_size: Vec<Vec<PieceDef>>,
}

impl View for PolyominoCatalog {
    type V = Seq<Seq<PieceDefModel>>;

    closed spec fn view(&self) -> Seq<Seq<PieceDefModel>> {
        Seq::new(
            self.by_size@.len(),
            |s: int| Seq::new(self.by_size@[s]@.len(), |j: int| self.by_size@[s]@[j]@),
        )
    }
}

/// A polyomino met during the enumeration, with its canonical bitmap.
struct Found {
    size: usize,
    cells: Vec<Coord>,
    bitmap: Vec<u8>,
}

/// Cells pairwise at most `len - 1` steps apart.
spec fn close(s: Seq<Coord>) -> bool {
    forall|i: int, j: int|
        0 <= i < s.len() && 0 <= j < s.len() ==> dist(#[trigger] s[i], #[trigger] s[j]) <= s.len()
            - 1
}

/// The polyomino being grown.
spec fn current_ok(s: Seq<Coord>) -> bool {
    &&& rooted_polyomino(s)
    &&& close(s)
    &&& s.len() <= MAX_SIZE
}

spec fn found_ok(f: Seq<Found>, max: int) -> bool {
    &&& forall|k: int|
        0 <= k < f.len() ==> {
            &&& 1 <= (#[trigger] f[k]).size <= max
            &&& f[k].cells@.len() == f[k].size
            &&& rooted_polyomino(f[k].cells@)
            &&& coords_in_range(f[k].cells@)
            &&& spans_within(f[k].cells@, f[k].size - 1)
            &&& f[k].bitmap@ == canonical_bitmap_of(f[k].cells@, 0, SIDE as int)
        }
    &&& forall|j: int, k: int|
        0 <= j < k < f.len() && (#[trigger] f[j]).size == (#[trigger] f[k]).size ==> f[j].bitmap@
            != f[k].bitmap@
}

/// Some kept polyomino has the size and the canonical bitmap of `p`.
spec fn covered(found: Seq<Found>, p: Seq<Coord>) -> bool {
    exists|k: int|
        0 <= k < found.len() && (#[trigger] found[k]).size == p.len() && found[k].bitmap@
            == canonical_bitmap_of(p, 0, SIDE as int)
}

/// `b` keeps everything `a` holds, in place.
spec fn extends(a: Seq<Found>, b: Seq<Found>) -> bool {
    &&& a.len() <= b.len()
    &&& forall|k: int| 0 <= k < a.len() ==> #[trigger] b[k] == a[k]
}

/// The polyomino `p` can still be grown from a frame: it holds the
/// current cells, holds no tried cell besides them, and each of its cells
/// next to them is still to be tried.
spec fn reachable(cur: Seq<Coord>, untried: Seq<Coord>, tried: Seq<Coord>, p: Seq<Coord>) -> bool {
    &&& forall|k: int| 0 <= k < cur.len() ==> p.contains(#[trigger] cur[k])
    &&& forall|k: int| 0 <= k < p.len() && tried.contains(#[trigger] p[k]) ==> cur.contains(p[k])
    &&& forall|k: int|
        0 <= k < p.len() && !cur.contains(#[trigger] p[k]) && touches(cur, p[k]) ==> untried.contains(p[k])
}

/// One of the first `n` cells to try is a cell of `p` outside `cur`.
spec fn hit_before(untried: Seq<Coord>, cur: Seq<Coord>, p: Seq<Coord>, n: int) -> bool {
    exists|u: int| 0 <= u < n && p.contains(#[trigger] untried[u]) && !cur.contains(untried[u])
}

proof fn lemma_covered_extends(a: Seq<Found>, b: Seq<Found>, p: Seq<Coord>)
    requires
        extends(a, b),
        covered(a, p),
    ensures
        covered(b, p),
{
    let k = choose|k: int|
        0 <= k < a.len() && (#[trigger] a[k]).size == p.len() && a[k].bitmap@ == canonical_bitmap_of(
            p,
            0,
            SIDE as int,
        );
    assert(b[k] == a[k]);
}

/// Each cell of a grown list after the first touches an earlier one.
proof fn lemma_grown_prefix(s: Seq<Coord>, j: int)
    requires
        grown(s),
        1 <= j < s.len(),
    ensures
        touches(s.subrange(0, j), s[j]),
    decreases s.len(),
{
    if j == s.len() - 1 {
        assert(s.subrange(0, j) =~= s.drop_last());
    } else {
        lemma_grown_prefix(s.drop_last(), j);
        assert(s.drop_last().subrange(0, j) =~= s.subrange(0, j));
    }
}

/// Without a cell of `p` outside `cur` that touches `cur`, the first
/// `j + 1` cells of `p` all lie in `cur`.
proof fn lemma_inside_upto(cur: Seq<Coord>, p: Seq<Coord>, j: int)
    requires
        rooted_polyomino(p),
        cur.len() > 0,
        cur[0] == (0i8, 0i8),
        0 <= j < p.len(),
        forall|k: int| 0 <= k < p.len() && !cur.contains(#[trigger] p[k]) ==> !touches(cur, p[k]),
    ensures
        forall|i: int| 0 <= i <= j ==> cur.contains(#[trigger] p[i]),
    decreases j,
{
    if j == 0 {
        assert(cur[0] == p[0]);
    } else {
        lemma_inside_upto(cur, p, j - 1);
        if !cur.contains(p[j]) {
            lemma_grown_prefix(p, j);
            let pre = p.subrange(0, j);
            let i = choose|i: int| 0 <= i < pre.len() && adjacent(#[trigger] pre[i], p[j]);
            assert(cur.contains(p[i]));
            let m = choose|m: int| 0 <= m < cur.len() && cur[m] == p[i];
            assert(adjacent(cur[m], p[j]));
            assert(touches(cur, p[j]));
        }
    }
}

/// A polyomino larger than the current cells it holds has a cell outside
/// them that touches them.
proof fn lemma_frontier(cur: Seq<Coord>, p: Seq<Coord>)
    requires
        rooted_polyomino(p),
        current_ok(cur),
        forall|k: int| 0 <= k < cur.len() ==> p.contains(#[trigger] cur[k]),
        p.len() > cur.len(),
    ensures
        exists|k: int| 0 <= k < p.len() && !cur.contains(#[trigger] p[k]) && touches(cur, p[k]),
{
    if !exists|k: int| 0 <= k < p.len() && !cur.contains(#[trigger] p[k]) && touches(cur, p[k]) {
        lemma_inside_upto(cur, p, p.len() - 1);
        lemma_distinct_subset_len(p, cur);
    }
}

/// Two lists without repeats, of one length, the first within the
/// second, hold the same multiset.
proof fn lemma_same_multiset(a: Seq<Coord>, b: Seq<Coord>)
    requires
        a.no_duplicates(),
        b.no_duplicates(),
        a.len() == b.len(),
        forall|k: int| 0 <= k < a.len() ==> b.contains(#[trigger] a[k]),
    ensures
        a.to_multiset() == b.to_multiset(),
    decreases a.len(),
{
    broadcast use vstd::seq_lib::group_to_multiset_ensures;

    if a.len() > 0 {
        let x = a.last();
        let a1 = a.drop_last();
        assert(a =~= a1.push(x));
        assert(b.contains(x));
        let i = choose|i: int| 0 <= i < b.len() && b[i] == x;
        let b1 = b.remove(i);
        assert forall|k: int| 0 <= k < a1.len() implies b1.contains(#[trigger] a1[k]) by {
            assert(a1[k] == a[k]);
            assert(b.contains(a[k]));
            let m = choose|m: int| 0 <= m < b.len() && b[m] == a[k];
            assert(m != i);
            if m < i {
                assert(b1[m] == b[m]);
            } else {
                assert(b1[m - 1] == b[m]);
            }
        }
        assert(a1.no_duplicates());
        assert(b1.no_duplicates());
        lemma_same_multiset(a1, b1);
        assert(b.to_multiset() =~= b1.to_multiset().insert(x));
    } else {
        assert(a =~= b);
    }
}

fn coords_contains(v: &Vec<Coord>, p: Coord) -> (r: bool)
    ensures
        r == v@.contains(p),
{
    let mut i: usize = 0;
    while i < v.len()
        invariant
            i <= v@.len(),
            forall|k: int| 0 <= k < i ==> v@[k] != p,
        decreases v.len() - i,
    {
        if v[i].0 == p.0 && v[i].1 == p.1 {
            assert(v@[i as int] == p);
            return true;
        }
        i = i + 1;
    }
    false
}

fn bytes_eq(a: &Vec<u8>, b: &Vec<u8>) -> (r: bool)
    ensures
        r == (a@ == b@),
{
    if a.len() != b.len() {
        return false;
    }
    let mut i: usize = 0;
    while i < a.len()
        invariant
            i <= a@.len(),
            a@.len() == b@.len(),
            forall|k: int| 0 <= k < i ==> a@[k] == b@[k],
        decreases a.len() - i,
    {
        if a[i] != b[i] {
            return false;
        }
        i = i + 1;
    }
    assert(a@ =~= b@);
    true
}

/// One step in direction `d`: up, down, left, right.
spec fn step_of(d: int) -> (int, int) {
    if d == 0 {
        (-1, 0)
    } else if d == 1 {
        (1, 0)
    } else if d == 2 {
        (0, -1)
    } else {
        (0, 1)
    }
}

/// One step in direction `d`: up, down, left, right.
fn dir(d: usize) -> (r: (i8, i8))
    requires
        d < 4,
    ensures
        r.0 == step_of(d as int).0,
        r.1 == step_of(d as int).1,
{
    if d == 0 {
        (-1, 0)
    } else if d == 1 {
        (1, 0)
    } else if d == 2 {
        (0, -1)
    } else {
        (0, 1)
    }
}

/// The neighbour of `cell` in direction `d`.
spec fn neighbour(cell: Coord, d: int) -> Coord {
    ((cell.0 + step_of(d).0) as i8, (cell.1 + step_of(d).1) as i8)
}

/// Appends the neighbours of `cell` (up, down, left, right) that are not
/// before the anchor and not yet tried.
fn push_filtered_neighbors(cell: Coord, tried: &Vec<Coord>, out: &mut Vec<Coord>)
    requires
        -100 <= cell.0 <= 100,
        -100 <= cell.1 <= 100,
    ensures
        final(out)@.len() >= old(out)@.len(),
        forall|k: int| 0 <= k < old(out)@.len() ==> #[trigger] final(out)@[k] == old(out)@[k],
        forall|k: int|
            old(out)@.len() <= k < final(out)@.len() ==> adjacent(cell, #[trigger] final(out)@[k])
                && after_root(final(out)@[k]),
        forall|q: Coord|
            adjacent(cell, q) && after_root(q) && !tried@.contains(q) ==> #[trigger] final(out)@.contains(q),
{
    let ghost start = out@;
    let mut d: usize = 0;
    while d < 4
        invariant
            d <= 4,
            -100 <= cell.0 <= 100,
            -100 <= cell.1 <= 100,
            out@.len() >= start.len(),
            forall|k: int| 0 <= k < start.len() ==> #[trigger] out@[k] == start[k],
            forall|k: int|
                start.len() <= k < out@.len() ==> adjacent(cell, #[trigger] out@[k]) && after_root(
                    out@[k],
                ),
            forall|e: int|
                0 <= e < d && after_root(neighbour(cell, e)) && !tried@.contains(neighbour(cell, e))
                    ==> #[trigger] out@.contains(neighbour(cell, e)),
        decreases 4 - d,
    {
        let (dr, dc) = dir(d);
        let n: Coord = (cell.0 + dr, cell.1 + dc);
        assert(n == neighbour(cell, d as int));
        let ghost before = out@;
        assert(forall|e: int|
            0 <= e < d && after_root(neighbour(cell, e)) && !tried@.contains(neighbour(cell, e))
                ==> #[trigger] before.contains(neighbour(cell, e)));
        if (n.0 > 0 || (n.0 == 0 && n.1 >= 0)) && !coords_contains(tried, n) {
            out.push(n);
            assert(out@[out@.len() - 1] == n);
        }
        proof {
            assert forall|e: int|
                0 <= e < d + 1 && after_root(neighbour(cell, e)) && !tried@.contains(neighbour(cell, e))
                    implies #[trigger] out@.contains(neighbour(cell, e)) by {
                if e < d {
                    assert(before.contains(neighbour(cell, e)));
                    let m = choose|m: int| 0 <= m < before.len() && before[m] == neighbour(cell, e);
                    assert(out@[m] == before[m]);
                }
            }
        }
        d = d + 1;
    }
    proof {
        assert forall|q: Coord| adjacent(cell, q) && after_root(q) && !tried@.contains(q) implies #[trigger] out@.contains(
            q,
        ) by {
            if q.0 == cell.0 - 1 {
                assert(q == neighbour(cell, 0));
            } else if q.0 == cell.0 + 1 {
                assert(q == neighbour(cell, 1));
            } else if q.1 == cell.1 - 1 {
                assert(q == neighbour(cell, 2));
            } else {
                assert(q == neighbour(cell, 3));
            }
        }
    }
}

proof fn lemma_bounds(s: Seq<Coord>)
    requires
        current_ok(s),
    ensures
        forall|i: int| 0 <= i < s.len() ==> -5 <= (#[trigger] s[i]).0 <= 5 && -5 <= s[i].1 <= 5,
        crate::domain::piece::coords_in_range(s),
        crate::domain::piece::spans_within(s, SIDE - 1),
        crate::domain::piece::spans_within(s, s.len() - 1),
{
    assert forall|i: int| 0 <= i < s.len() implies -5 <= (#[trigger] s[i]).0 <= 5 && -5 <= s[i].1
        <= 5 by {
        assert(dist(s[0], s[i]) <= s.len() - 1);
    }
    assert forall|i: int, j: int| 0 <= i < s.len() && 0 <= j < s.len() implies (#[trigger] s[i]).0
        - (#[trigger] s[j]).0 <= SIDE - 1 && s[i].1 - s[j].1 <= SIDE - 1 by {
        assert(dist(s[i], s[j]) <= s.len() - 1);
    }
}

/// Keeps `current` as a polyomino of its size unless one with the same
/// canonical bitmap was kept already.
fn record(current: &Vec<Coord>, found: &mut Vec<Found>, max: usize)
    requires
        current_ok(current@),
        current@.len() <= max,
        found_ok(old(found)@, max as int),
    ensures
        found_ok(final(found)@, max as int),
        extends(old(found)@, final(found)@),
        covered(final(found)@, current@),
{
    proof {
        lemma_bounds(current@);
    }
    let size = current.len();
    let def = PieceDef { id: String::new(), cells: copy_coords(current), mark_index: 0 };
    let bitmap = canonical_bitmap(&def);
    let mut k: usize = 0;
    while k < found.len()
        invariant
            k <= found@.len(),
            found@ == old(found)@,
            found_ok(found@, max as int),
            1 <= size <= max,
            size == def.cells@.len(),
            def.cells@ == current@,
            rooted_polyomino(def.cells@),
            coords_in_range(def.cells@),
            spans_within(def.cells@, size - 1),
            bitmap@ == canonical_bitmap_of(def.cells@, 0, SIDE as int),
            forall|j: int| 0 <= j < k && found@[j].size == size ==> found@[j].bitmap@ != bitmap@,
        decreases found.len() - k,
    {
        if found[k].size == size && bytes_eq(&found[k].bitmap, &bitmap) {
            assert(found@[k as int].size == current@.len());
            return;
        }
        k = k + 1;
    }
    let ghost before = found@;
    found.push(Found { size, cells: def.cells, bitmap });
    proof {
        let f = found@;
        assert(f[f.len() - 1].size == current@.len());
        assert(extends(before, f));
        assert forall|j: int, k: int|
            0 <= j < k < f.len() && (#[trigger] f[j]).size == (#[trigger] f[k]).size implies f[j].bitmap@
            != f[k].bitmap@ by {
            if k == f.len() - 1 {
                assert(f[j] == before[j]);
            } else {
                assert(f[j] == before[j] && f[k] == before[k]);
            }
        }
        assert forall|k: int| 0 <= k < f.len() implies {
            &&& 1 <= (#[trigger] f[k]).size <= max
            &&& f[k].cells@.len() == f[k].size
            &&& rooted_polyomino(f[k].cells@)
            &&& coords_in_range(f[k].cells@)
            &&& spans_within(f[k].cells@, f[k].size - 1)
            &&& f[k].bitmap@ == canonical_bitmap_of(f[k].cells@, 0, SIDE as int)
        } by {
            if k < f.len() - 1 {
                assert(f[k] == before[k]);
            }
        }
    }
}

proof fn lemma_triangle(a: Coord, b: Coord, c: Coord)
    ensures
        dist(a, c) <= dist(a, b) + dist(b, c),
{
}

proof fn lemma_grow_close(cur0: Seq<Coord>, cell: Coord, j0: int)
    requires
        close(cur0),
        0 <= j0 < cur0.len(),
        adjacent(cur0[j0], cell),
    ensures
        close(cur0.push(cell)),
{
    let c1 = cur0.push(cell);
    assert forall|a: int, b: int| 0 <= a < c1.len() && 0 <= b < c1.len() implies dist(
        #[trigger] c1[a],
        #[trigger] c1[b],
    ) <= c1.len() - 1 by {
        if a < c1.len() - 1 && b < c1.len() - 1 {
            assert(c1[a] == cur0[a] && c1[b] == cur0[b]);
            assert(dist(cur0[a], cur0[b]) <= cur0.len() - 1);
        } else if a < c1.len() - 1 {
            assert(c1[a] == cur0[a] && c1[b] == cell);
            assert(dist(cur0[a], cur0[j0]) <= cur0.len() - 1);
            lemma_triangle(cur0[a], cur0[j0], cell);
        } else if b < c1.len() - 1 {
            assert(c1[b] == cur0[b] && c1[a] == cell);
            assert(dist(cur0[j0], cur0[b]) <= cur0.len() - 1);
            lemma_triangle(cell, cur0[j0], cur0[b]);
        } else {
            assert(c1[a] == cell && c1[b] == cell);
        }
    }
}

proof fn lemma_grow_grown(cur0: Seq<Coord>, cell: Coord, j0: int)
    requires
        grown(cur0),
        0 <= j0 < cur0.len(),
        adjacent(cur0[j0], cell),
    ensures
        grown(cur0.push(cell)),
{
    assert(cur0.push(cell).drop_last() =~= cur0);
    assert(touches(cur0, cell));
}

proof fn lemma_grow_distinct(cur0: Seq<Coord>, cell: Coord)
    requires
        cur0.no_duplicates(),
        !cur0.contains(cell),
    ensures
        cur0.push(cell).no_duplicates(),
{
    let c1 = cur0.push(cell);
    assert forall|a: int, b: int| 0 <= a < c1.len() && 0 <= b < c1.len() && a != b implies c1[a]
        != c1[b] by {
        if a < c1.len() - 1 && b < c1.len() - 1 {
            assert(c1[a] == cur0[a] && c1[b] == cur0[b]);
        } else if a < c1.len() - 1 {
            assert(c1[a] == cur0[a]);
            assert(cur0.contains(c1[a]));
        } else {
            assert(c1[b] == cur0[b]);
            assert(cur0.contains(c1[b]));
        }
    }
}

/// Adding a cell next to the polyomino, not before the anchor and not in
/// it, gives a polyomino.
proof fn lemma_grow(cur0: Seq<Coord>, cell: Coord, j0: int)
    requires
        current_ok(cur0),
        cur0.len() < MAX_SIZE,
        !cur0.contains(cell),
        0 <= j0 < cur0.len(),
        adjacent(cur0[j0], cell),
        after_root(cell),
    ensures
        current_ok(cur0.push(cell)),
{
    let c1 = cur0.push(cell);
    lemma_grow_close(cur0, cell, j0);
    lemma_grow_grown(cur0, cell, j0);
    lemma_grow_distinct(cur0, cell);
    assert(c1[0] == cur0[0]);
    assert forall|i: int| 0 <= i < c1.len() implies after_root(#[trigger] c1[i]) by {
        if i < c1.len() - 1 {
            assert(c1[i] == cur0[i]);
        }
    }
}

/// Trying one more cell keeps what was tried before, and keeps every cell
/// of the grown polyomino among the tried cells.
proof fn lemma_tried_push(tried_before: Seq<Coord>, cell: Coord, cur0: Seq<Coord>, tried0: Seq<Coord>)
    requires
        tried_before.len() >= tried0.len(),
        tried_before.subrange(0, tried0.len() as int) == tried0,
        forall|k: int| 0 <= k < cur0.len() ==> tried_before.contains(#[trigger] cur0[k]),
    ensures
        tried_before.push(cell).subrange(0, tried0.len() as int) == tried0,
        forall|k: int|
            0 <= k < cur0.len() + 1 ==> tried_before.push(cell).contains(#[trigger] cur0.push(cell)[k]),
{
    let t = tried_before.push(cell);
    let c1 = cur0.push(cell);
    assert forall|k: int| 0 <= k < c1.len() implies t.contains(#[trigger] c1[k]) by {
        if k < c1.len() - 1 {
            assert(c1[k] == cur0[k]);
            assert(tried_before.contains(cur0[k]));
            let m = choose|m: int| 0 <= m < tried_before.len() && tried_before[m] == cur0[k];
            assert(t[m] == tried_before[m]);
        } else {
            assert(t[t.len() - 1] == cell);
        }
    }
    assert(t.subrange(0, tried0.len() as int) =~= tried0) by {
        assert forall|m: int| 0 <= m < tried0.len() implies t[m] == tried_before[m] by {}
        assert forall|m: int| 0 <= m < tried0.len() implies tried_before[m] == tried0[m] by {
            assert(tried_before.subrange(0, tried0.len() as int)[m] == tried_before[m]);
        }
    }
}

/// The cells left to try in a child frame touch the grown polyomino and
/// are not before the anchor.
proof fn lemma_child_untried(
    untried: Seq<Coord>,
    idx: int,
    inherited: Seq<Coord>,
    child: Seq<Coord>,
    cur0: Seq<Coord>,
    cell: Coord,
)
    requires
        0 <= idx <= untried.len(),
        inherited == untried.subrange(idx, untried.len() as int),
        child.len() >= inherited.len(),
        forall|k: int| 0 <= k < inherited.len() ==> #[trigger] child[k] == inherited[k],
        forall|k: int|
            inherited.len() <= k < child.len() ==> adjacent(cell, #[trigger] child[k]) && after_root(child[k]),
        forall|u: int|
            0 <= u < untried.len() ==> after_root(#[trigger] untried[u]) && touches(cur0, untried[u]),
    ensures
        forall|u: int|
            0 <= u < child.len() ==> after_root(#[trigger] child[u]) && touches(cur0.push(cell), child[u]),
{
    let c1 = cur0.push(cell);
    assert forall|u: int| 0 <= u < child.len() implies after_root(#[trigger] child[u]) && touches(c1, child[u]) by {
        if u < inherited.len() {
            assert(child[u] == untried[idx + u]);
            assert(touches(cur0, untried[idx + u]));
            let j = choose|j: int| 0 <= j < cur0.len() && adjacent(#[trigger] cur0[j], untried[idx + u]);
            assert(c1[j] == cur0[j]);
        } else {
            assert(c1[c1.len() - 1] == cell);
            assert(adjacent(c1[c1.len() - 1], child[u]));
        }
    }
}

/// A polyomino that can be grown from a frame through its cell `cell`
/// (the first cell to try that lies in it) can be grown from the child
/// frame.
proof fn lemma_child_reachable(
    cur0: Seq<Coord>,
    untried: Seq<Coord>,
    idx0: int,
    tried0: Seq<Coord>,
    tried_before: Seq<Coord>,
    cell: Coord,
    child: Seq<Coord>,
    p: Seq<Coord>,
)
    requires
        rooted_polyomino(p),
        reachable(cur0, untried, tried0, p),
        !hit_before(untried, cur0, p, idx0),
        0 <= idx0 < untried.len(),
        untried[idx0] == cell,
        p.contains(cell),
        !cur0.contains(cell),
        processed(tried_before, tried0, untried, idx0),
        child.len() >= untried.len() - idx0 - 1,
        forall|k: int| 0 <= k < untried.len() - idx0 - 1 ==> #[trigger] child[k] == untried[idx0 + 1 + k],
        forall|q: Coord|
            adjacent(cell, q) && after_root(q) && !tried_before.push(cell).contains(q) ==> #[trigger] child.contains(
                q,
            ),
    ensures
        reachable(cur0.push(cell), child, tried_before.push(cell), p),
{
    let cur1 = cur0.push(cell);
    let t1 = tried_before.push(cell);
    assert forall|k: int| 0 <= k < cur1.len() implies p.contains(#[trigger] cur1[k]) by {
        if k < cur0.len() {
            assert(cur1[k] == cur0[k]);
        }
    }
    assert forall|k: int| 0 <= k < p.len() && t1.contains(#[trigger] p[k]) implies cur1.contains(p[k]) by {
        let x = p[k];
        let m = choose|m: int| 0 <= m < t1.len() && t1[m] == x;
        if m == t1.len() - 1 {
            assert(cur1[cur1.len() - 1] == x);
        } else if m < tried0.len() {
            assert(tried_before.subrange(0, tried0.len() as int)[m] == tried_before[m]);
            assert(tried0[m] == x);
            assert(tried0.contains(x));
            assert(cur0.contains(x));
            let i = choose|i: int| 0 <= i < cur0.len() && cur0[i] == x;
            assert(cur1[i] == x);
        } else {
            assert(t1[m] == tried_before[m]);
            let j = choose|j: int| 0 <= j < idx0 && untried[j] == #[trigger] tried_before[m];
            if !cur0.contains(x) {
                assert(p.contains(untried[j]) && !cur0.contains(untried[j]));
                assert(hit_before(untried, cur0, p, idx0));
            }
            let i = choose|i: int| 0 <= i < cur0.len() && cur0[i] == x;
            assert(cur1[i] == x);
        }
    }
    assert forall|k: int| 0 <= k < p.len() && !cur1.contains(#[trigger] p[k]) && touches(cur1, p[k]) implies child.contains(
        p[k],
    ) by {
        let x = p[k];
        let i = choose|i: int| 0 <= i < cur1.len() && adjacent(#[trigger] cur1[i], x);
        assert(!cur0.contains(x)) by {
            if cur0.contains(x) {
                let m = choose|m: int| 0 <= m < cur0.len() && cur0[m] == x;
                assert(cur1[m] == x);
            }
        }
        assert(x != cell) by {
            assert(cur1[cur1.len() - 1] == cell);
        }
        if i < cur0.len() {
            assert(cur1[i] == cur0[i]);
            assert(touches(cur0, x));
            assert(untried.contains(x));
            let j = choose|j: int| 0 <= j < untried.len() && untried[j] == x;
            if j < idx0 {
                assert(p.contains(untried[j]) && !cur0.contains(untried[j]));
                assert(hit_before(untried, cur0, p, idx0));
            }
            assert(j > idx0);
            assert(child[j - idx0 - 1] == untried[j]);
        } else {
            assert(cur1[i] == cell);
            let ki = choose|ki: int| 0 <= ki < p.len() && p[ki] == x;
            assert(after_root(p[ki]));
            if t1.contains(x) {
                assert(t1.contains(p[k]));
            }
            assert(!t1.contains(x));
            assert(child.contains(x));
        }
    }
}

/// The cells tried in a frame beyond `tried0` are among its first `n`
/// cells to try.
spec fn processed(tried: Seq<Coord>, tried0: Seq<Coord>, untried: Seq<Coord>, n: int) -> bool {
    &&& tried.len() >= tried0.len()
    &&& tried.subrange(0, tried0.len() as int) == tried0
    &&& forall|m: int|
        tried0.len() <= m < tried.len() ==> exists|j: int| 0 <= j < n && untried[j] == #[trigger] tried[m]
}

/// The polyominoes of at most `max` cells that can be grown from the frame
/// and that hold one of its first `n` cells to try are kept in `found`.
spec fn kept_upto(
    cur0: Seq<Coord>,
    untried: Seq<Coord>,
    tried0: Seq<Coord>,
    found: Seq<Found>,
    max: int,
    n: int,
) -> bool {
    forall|p: Seq<Coord>|
        rooted_polyomino(p) && p.len() <= max && p.len() > cur0.len() && #[trigger] reachable(
            cur0,
            untried,
            tried0,
            p,
        ) && hit_before(untried, cur0, p, n) ==> covered(found, p)
}

/// Skipping a cell already tried keeps [`kept_upto`] one step further.
proof fn lemma_skip_kept(
    cur0: Seq<Coord>,
    untried: Seq<Coord>,
    tried0: Seq<Coord>,
    tried: Seq<Coord>,
    found: Seq<Found>,
    max: int,
    idx0: int,
)
    requires
        0 <= idx0 < untried.len(),
        processed(tried, tried0, untried, idx0),
        tried.contains(untried[idx0]),
        kept_upto(cur0, untried, tried0, found, max, idx0),
    ensures
        kept_upto(cur0, untried, tried0, found, max, idx0 + 1),
{
    let cell = untried[idx0];
    assert forall|p: Seq<Coord>|
        rooted_polyomino(p) && p.len() <= max && p.len() > cur0.len() && #[trigger] reachable(
            cur0,
            untried,
            tried0,
            p,
        ) && hit_before(untried, cur0, p, idx0 + 1) implies covered(found, p) by {
        if !hit_before(untried, cur0, p, idx0) {
            let u = choose|u: int| 0 <= u < idx0 + 1 && p.contains(#[trigger] untried[u]) && !cur0.contains(untried[u]);
            assert(u == idx0);
            let m = choose|m: int| 0 <= m < tried.len() && tried[m] == cell;
            if m < tried0.len() {
                assert(tried.subrange(0, tried0.len() as int)[m] == tried[m]);
                assert(tried0.contains(cell));
                let k = choose|k: int| 0 <= k < p.len() && p[k] == cell;
                assert(tried0.contains(p[k]));
            } else {
                let j = choose|j: int| 0 <= j < idx0 && untried[j] == #[trigger] tried[m];
                assert(p.contains(untried[j]) && !cur0.contains(untried[j]));
            }
        }
    }
}

/// After growing by the first cell `cell` and searching the child frame,
/// [`kept_upto`] holds one step further.
proof fn lemma_grow_kept(
    cur0: Seq<Coord>,
    untried: Seq<Coord>,
    tried0: Seq<Coord>,
    tried_before: Seq<Coord>,
    cell: Coord,
    child: Seq<Coord>,
    found_pre: Seq<Found>,
    found_rec: Seq<Found>,
    found: Seq<Found>,
    max: int,
    idx0: int,
)
    requires
        current_ok(cur0.push(cell)),
        0 <= idx0 < untried.len(),
        untried[idx0] == cell,
        !cur0.contains(cell),
        processed(tried_before, tried0, untried, idx0),
        child.len() >= untried.len() - idx0 - 1,
        forall|k: int| 0 <= k < untried.len() - idx0 - 1 ==> #[trigger] child[k] == untried[idx0 + 1 + k],
        forall|q: Coord|
            adjacent(cell, q) && after_root(q) && !tried_before.push(cell).contains(q) ==> #[trigger] child.contains(
                q,
            ),
        kept_upto(cur0, untried, tried0, found_pre, max, idx0),
        extends(found_pre, found_rec),
        extends(found_rec, found),
        covered(found_rec, cur0.push(cell)),
        forall|p: Seq<Coord>|
            rooted_polyomino(p) && p.len() <= max && p.len() > cur0.len() + 1 && #[trigger] reachable(
                cur0.push(cell),
                child,
                tried_before.push(cell),
                p,
            ) ==> covered(found, p),
    ensures
        kept_upto(cur0, untried, tried0, found, max, idx0 + 1),
{
    let cur1 = cur0.push(cell);
    assert(extends(found_pre, found)) by {
        assert forall|k: int| 0 <= k < found_pre.len() implies #[trigger] found[k] == found_pre[k] by {
            assert(found_rec[k] == found_pre[k]);
        }
    }
    assert forall|p: Seq<Coord>|
        rooted_polyomino(p) && p.len() <= max && p.len() > cur0.len() && #[trigger] reachable(
            cur0,
            untried,
            tried0,
            p,
        ) && hit_before(untried, cur0, p, idx0 + 1) implies covered(found, p) by {
        if hit_before(untried, cur0, p, idx0) {
            lemma_covered_extends(found_pre, found, p);
        } else {
            let u = choose|u: int| 0 <= u < idx0 + 1 && p.contains(#[trigger] untried[u]) && !cur0.contains(untried[u]);
            assert(u == idx0);
            assert forall|k: int| 0 <= k < cur1.len() implies p.contains(#[trigger] cur1[k]) by {
                if k < cur0.len() {
                    assert(cur1[k] == cur0[k]);
                }
            }
            if p.len() == cur1.len() {
                lemma_same_multiset(cur1, p);
                lemma_canonical_multiset(cur1, 0, p, 0);
                assert(canonical_bitmap_of(cur1, 0, SIDE as int) == canonical_bitmap_of(p, 0, SIDE as int));
                let k = choose|k: int|
                    0 <= k < found_rec.len() && (#[trigger] found_rec[k]).size == cur1.len()
                        && found_rec[k].bitmap@ == canonical_bitmap_of(cur1, 0, SIDE as int);
                assert(covered(found_rec, p));
                lemma_covered_extends(found_rec, found, p);
            } else {
                lemma_child_reachable(cur0, untried, idx0, tried0, tried_before, cell, child, p);
                assert(reachable(cur1, child, tried_before.push(cell), p));
            }
        }
    }
}

/// Redelmeier's inner loop: grows `current` by each untried cell in turn,
/// keeps the result and recurses, then restores `current` and `tried`.
/// Every polyomino of at most `max` cells that can be grown from this frame
/// ends up kept (by its canonical bitmap).
#[verifier::rlimit(60)]
fn recurse(
    current: &mut Vec<Coord>,
    untried: Vec<Coord>,
    tried: &mut Vec<Coord>,
    max: usize,
    found: &mut Vec<Found>,
)
    requires
        1 <= max <= MAX_SIZE,
        current_ok(old(current)@),
        old(current)@.len() <= max,
        forall|u: int|
            0 <= u < untried@.len() ==> after_root(#[trigger] untried@[u]) && touches(old(current)@, untried@[u]),
        forall|k: int| 0 <= k < old(current)@.len() ==> old(tried)@.contains(#[trigger] old(current)@[k]),
        found_ok(old(found)@, max as int),
    ensures
        final(current)@ == old(current)@,
        final(tried)@ == old(tried)@,
        found_ok(final(found)@, max as int),
        extends(old(found)@, final(found)@),
        forall|p: Seq<Coord>|
            rooted_polyomino(p) && p.len() <= max && p.len() > old(current)@.len() && #[trigger] reachable(
                old(current)@,
                untried@,
                old(tried)@,
                p,
            ) ==> covered(final(found)@, p),
    decreases max - old(current)@.len(),
{
    if current.len() >= max {
        return;
    }
    let ghost cur0 = current@;
    let ghost tried0 = tried@;
    let ghost found0 = found@;
    let tried_len = tried.len();
    assert(tried@.subrange(0, tried_len as int) =~= tried0);
    let mut idx: usize = 0;
    while idx < untried.len()
        invariant
            1 <= max <= MAX_SIZE,
            cur0.len() < max,
            cur0 == old(current)@,
            tried0 == old(tried)@,
            found0 == old(found)@,
            current@ == cur0,
            current_ok(cur0),
            idx <= untried@.len(),
            forall|u: int|
                0 <= u < untried@.len() ==> after_root(#[trigger] untried@[u]) && touches(cur0, untried@[u]),
            tried_len == tried0.len(),
            processed(tried@, tried0, untried@, idx as int),
            forall|k: int| 0 <= k < cur0.len() ==> tried@.contains(#[trigger] cur0[k]),
            found_ok(found@, max as int),
            extends(found0, found@),
            kept_upto(cur0, untried@, tried0, found@, max as int, idx as int),
        decreases untried.len() - idx,
    {
        let cell = untried[idx];
        let ghost idx0 = idx as int;
        let ghost found_pre = found@;
        idx = idx + 1;
        if coords_contains(tried, cell) {
            proof {
                lemma_skip_kept(cur0, untried@, tried0, tried@, found@, max as int, idx0);
                let t = tried@;
                assert forall|m: int| tried0.len() <= m < t.len() implies exists|j: int|
                    0 <= j < idx && untried@[j] == #[trigger] t[m] by {
                    let j = choose|j: int| 0 <= j < idx0 && untried@[j] == #[trigger] t[m];
                }
            }
            continue;
        }
        proof {
            lemma_bounds(cur0);
            let j = choose|j: int| 0 <= j < cur0.len() && adjacent(#[trigger] cur0[j], cell);
            assert(-5 <= cur0[j].0 <= 5 && -5 <= cur0[j].1 <= 5);
        }
        let ghost tried_before = tried@;
        current.push(cell);
        tried.push(cell);
        proof {
            let c1 = current@;
            let j0 = choose|j: int| 0 <= j < cur0.len() && adjacent(#[trigger] cur0[j], cell);
            assert(!cur0.contains(cell)) by {
                if cur0.contains(cell) {
                    let k = choose|k: int| 0 <= k < cur0.len() && cur0[k] == cell;
                    assert(tried_before.contains(cur0[k]));
                }
            }
            assert(c1 == cur0.push(cell));
            lemma_grow(cur0, cell, j0);
            lemma_tried_push(tried_before, cell, cur0, tried0);
        }
        let mut child_untried: Vec<Coord> = Vec::new();
        let mut t: usize = idx;
        while t < untried.len()
            invariant
                idx <= t <= untried@.len(),
                child_untried@ == untried@.subrange(idx as int, t as int),
            decreases untried.len() - t,
        {
            child_untried.push(untried[t]);
            t = t + 1;
        }
        let ghost inherited = child_untried@;
        push_filtered_neighbors(cell, tried, &mut child_untried);
        proof {
            lemma_child_untried(untried@, idx as int, inherited, child_untried@, cur0, cell);
        }
        let ghost child = child_untried@;
        let ghost tried_child = tried@;
        record(current, found, max);
        let ghost found_rec = found@;
        assert(current@.len() == cur0.len() + 1);
        recurse(current, child_untried, tried, max, found);
        current.pop();
        proof {
            assert(current@ =~= cur0);
            assert(tried@ == tried_child);
            assert(tried_child == tried_before.push(cell));
            assert forall|k: int| 0 <= k < cur0.len() implies tried@.contains(#[trigger] cur0[k]) by {
                assert(cur0.push(cell)[k] == cur0[k]);
            }
            let t = tried@;
            assert forall|m: int| tried0.len() <= m < t.len() implies exists|j: int|
                0 <= j < idx && untried@[j] == #[trigger] t[m] by {
                if m == t.len() - 1 {
                    assert(untried@[idx0] == t[m]);
                } else {
                    assert(t[m] == tried_before[m]);
                    let j = choose|j: int| 0 <= j < idx0 && untried@[j] == #[trigger] tried_before[m];
                }
            }
            assert(t.subrange(0, tried0.len() as int) =~= tried0) by {
                assert forall|m: int| 0 <= m < tried0.len() implies t[m] == tried0[m] by {
                    assert(t[m] == tried_before[m]);
                    assert(tried_before.subrange(0, tried0.len() as int)[m] == tried_before[m]);
                }
            }
            assert(extends(found0, found@)) by {
                assert forall|k: int| 0 <= k < found0.len() implies #[trigger] found@[k] == found0[k] by {
                    assert(found_rec[k] == found_pre[k]);
                }
            }
            assert forall|k: int| 0 <= k < untried@.len() - idx0 - 1 implies #[trigger] child[k] == untried@[idx0
                + 1 + k] by {
                assert(inherited[k] == untried@[idx + k]);
            }
            lemma_grow_kept(
                cur0,
                untried@,
                tried0,
                tried_before,
                cell,
                child,
                found_pre,
                found_rec,
                found@,
                max as int,
                idx0,
            );
        }
    }
    tried.truncate(tried_len);
    proof {
        assert(tried@ =~= tried0);
        assert forall|p: Seq<Coord>|
            rooted_polyomino(p) && p.len() <= max && p.len() > cur0.len() && #[trigger] reachable(
                cur0,
                untried@,
                tried0,
                p,
            ) implies covered(found@, p) by {
            lemma_frontier(cur0, p);
            let k = choose|k: int| 0 <= k < p.len() && !cur0.contains(#[trigger] p[k]) && touches(cur0, p[k]);
            assert(untried@.contains(p[k]));
            let j = choose|j: int| 0 <= j < untried@.len() && untried@[j] == p[k];
            assert(p.contains(untried@[j]));
            assert(hit_before(untried@, cur0, p, untried@.len() as int));
        }
    }
}

fn poly_id_string(size: usize, idx: usize) -> (r: String)
    ensures
        r@ == poly_id(size as int, idx as int),
{
    let mut out: Vec<char> = Vec::new();
    push_str(&mut out, "poly_");
    push_decimal(&mut out, size as u64);
    push_str(&mut out, "_");
    push_decimal(&mut out, idx as u64);
    proof {
        assert(out@ =~= poly_id(size as int, idx as int));
    }
    string_from_chars(&out)
}

impl PolyominoCatalog {
    /// Enumerates the free polyominoes of every size from 1 to `max_size`
    /// (fixed polyominoes grown from the anchor `(0, 0)`, kept once per
    /// canonical bitmap) and names them `poly_{size}_{index}`.
    ///
    /// Every polyomino of at most `max_size` cells is there: given by its
    /// cells from its least one, `(0, 0)`, each touching an earlier one, it
    /// has a catalog shape of its size with its canonical bitmap.
    pub fn enumerate(max_size: u8) -> (r: Self)
        requires
            1 <= max_size <= MAX_SIZE,
        ensures
            catalog_ok(r@, max_size as int),
            forall|p: Seq<Coord>| rooted_polyomino(p) && p.len() <= max_size ==> #[trigger] catalog_has(r@, p),
    {
        let max = max_size as usize;
        let mut found: Vec<Found> = Vec::new();
        let mut current: Vec<Coord> = Vec::new();
        current.push((0i8, 0i8));
        let mut tried: Vec<Coord> = Vec::new();
        tried.push((0i8, 0i8));
        let mut untried: Vec<Coord> = Vec::new();
        push_filtered_neighbors((0i8, 0i8), &tried, &mut untried);
        proof {
            let c = current@;
            assert(c[0] == (0i8, 0i8));
            assert(c.no_duplicates());
            assert(close(c));
            assert(current_ok(c));
            assert(tried@[0] == c[0]);
            assert forall|u: int| 0 <= u < untried@.len() implies after_root(#[trigger] untried@[u])
                && touches(c, untried@[u]) by {
                assert(adjacent(c[0], untried@[u]));
            }
        }
        record(&current, &mut found, max);
        let ghost found_rec = found@;
        let ghost root = current@;
        let ghost untried0 = untried@;
        let ghost tried_root = tried@;
        recurse(&mut current, untried, &mut tried, max, &mut found);
        proof {
            assert forall|p: Seq<Coord>| rooted_polyomino(p) && p.len() <= max implies covered(found@, p) by {
                if p.len() == 1 {
                    assert(p =~= root);
                    lemma_covered_extends(found_rec, found@, p);
                } else {
                    assert forall|k: int| 0 <= k < root.len() implies p.contains(#[trigger] root[k]) by {
                        assert(p[0] == root[0]);
                    }
                    assert forall|k: int| 0 <= k < p.len() && tried_root.contains(#[trigger] p[k]) implies root.contains(
                        p[k],
                    ) by {
                        assert(tried_root[0] == root[0]);
                    }
                    assert forall|k: int| 0 <= k < p.len() && !root.contains(#[trigger] p[k]) && touches(root, p[k])
                        implies untried0.contains(p[k]) by {
                        let i = choose|i: int| 0 <= i < root.len() && adjacent(#[trigger] root[i], p[k]);
                        assert(root[i] == (0i8, 0i8));
                        assert(after_root(p[k]));
                        if tried_root.contains(p[k]) {
                            assert(tried_root[0] == root[0]);
                        }
                    }
                    assert(reachable(root, untried0, tried_root, p));
                }
            }
        }
        let mut by_size: Vec<Vec<PieceDef>> = Vec::new();
        let mut s: usize = 0;
        while s <= max
            invariant
                s <= max + 1,
                max <= MAX_SIZE,
                found_ok(found@, max as int),
                by_size@.len() == s,
                forall|a: int, j: int|
                    0 <= a < s && 0 <= j < by_size@[a]@.len() ==> {
                        let d = #[trigger] by_size@[a]@[j]@;
                        &&& d.0 == poly_id(a, j)
                        &&& d.1.len() == a
                        &&& d.2 == 0
                        &&& rooted_polyomino(d.1)
                        &&& coords_in_range(d.1)
                        &&& spans_within(d.1, a - 1)
                    },
                forall|a: int, j: int, k: int|
                    0 <= a < s && 0 <= j < k < by_size@[a]@.len() ==> canonical_bitmap_of(
                        (#[trigger] by_size@[a]@[j]).cells@,
                        0,
                        SIDE as int,
                    ) != canonical_bitmap_of((#[trigger] by_size@[a]@[k]).cells@, 0, SIDE as int),
                forall|k: int|
                    0 <= k < found@.len() && (#[trigger] found@[k]).size < s ==> exists|j: int|
                        0 <= j < by_size@[found@[k].size as int]@.len() && (#[trigger] by_size@[found@[k].size as int]@[j]).cells@
                            == found@[k].cells@,
            decreases max + 1 - s,
        {
            let mut defs: Vec<PieceDef> = Vec::new();
            let ghost mut origin: Seq<int> = Seq::empty();
            let mut k: usize = 0;
            while k < found.len()
                invariant
                    k <= found@.len(),
                    s <= max,
                    found_ok(found@, max as int),
                    origin.len() == defs@.len(),
                    forall|j: int|
                        0 <= j < defs@.len() ==> 0 <= #[trigger] origin[j] < k && found@[origin[j]].size
                            == s && defs@[j].cells@ == found@[origin[j]].cells@,
                    forall|j: int, i: int| 0 <= j < i < defs@.len() ==> #[trigger] origin[j] < #[trigger] origin[i],
                    forall|i: int|
                        0 <= i < k && (#[trigger] found@[i]).size == s ==> exists|j: int|
                            0 <= j < defs@.len() && #[trigger] origin[j] == i,
                    forall|j: int|
                        0 <= j < defs@.len() ==> {
                            let d = #[trigger] defs@[j]@;
                            &&& d.0 == poly_id(s as int, j)
                            &&& d.1.len() == s
                            &&& d.2 == 0
                            &&& rooted_polyomino(d.1)
                            &&& coords_in_range(d.1)
                            &&& spans_within(d.1, s - 1)
                        },
                decreases found.len() - k,
            {
                if found[k].size == s {
                    let id = poly_id_string(s, defs.len());
                    let cells = copy_coords(&found[k].cells);
                    let ghost before = defs@;
                    defs.push(PieceDef { id, cells, mark_index: 0 });
                    let ghost origin0 = origin;
                    proof {
                        origin = origin.push(k as int);
                        assert forall|j: int| 0 <= j < defs@.len() - 1 implies #[trigger] defs@[j] == before[j] by {}
                        assert forall|i: int| 0 <= i < k + 1 && (#[trigger] found@[i]).size == s implies exists|j: int|
                            0 <= j < defs@.len() && #[trigger] origin[j] == i by {
                            if i == k {
                                assert(origin[origin.len() - 1] == i);
                            } else {
                                let j = choose|j: int| 0 <= j < before.len() && #[trigger] origin0[j] == i;
                                assert(origin[j] == origin0[j]);
                            }
                        }
                    }
                }
                k = k + 1;
            }
            proof {
                assert forall|j: int, i: int| 0 <= j < i < defs@.len() implies canonical_bitmap_of(
                    (#[trigger] defs@[j]).cells@,
                    0,
                    SIDE as int,
                ) != canonical_bitmap_of((#[trigger] defs@[i]).cells@, 0, SIDE as int) by {
                    let fj = origin[j];
                    let fi = origin[i];
                    assert(fj < fi);
                    assert(found@[fj].size == found@[fi].size);
                    assert(found@[fj].bitmap@ != found@[fi].bitmap@);
                }
            }
            let ghost before = by_size@;
            let ghost defs_v = defs@;
            by_size.push(defs);
            proof {
                assert forall|a: int| 0 <= a < s implies #[trigger] by_size@[a] == before[a] by {}
                assert forall|k: int| 0 <= k < found@.len() && (#[trigger] found@[k]).size < s + 1 implies exists|j: int|
                    0 <= j < by_size@[found@[k].size as int]@.len() && (#[trigger] by_size@[found@[k].size as int]@[j]).cells@
                        == found@[k].cells@ by {
                    if found@[k].size == s {
                        let j = choose|j: int| 0 <= j < defs_v.len() && #[trigger] origin[j] == k;
                        assert(by_size@[s as int]@[j] == defs_v[j]);
                    } else {
                        let a = found@[k].size as int;
                        let j = choose|j: int|
                            0 <= j < before[a]@.len() && (#[trigger] before[a]@[j]).cells@ == found@[k].cells@;
                        assert(by_size@[a] == before[a]);
                    }
                }
            }
            s = s + 1;
        }
        let r = PolyominoCatalog { by_size };
        proof {
            assert forall|p: Seq<Coord>| rooted_polyomino(p) && p.len() <= max_size implies #[trigger] catalog_has(
                r@,
                p,
            ) by {
                assert(covered(found@, p));
                let k = choose|k: int|
                    0 <= k < found@.len() && (#[trigger] found@[k]).size == p.len() && found@[k].bitmap@
                        == canonical_bitmap_of(p, 0, SIDE as int);
                let a = p.len() as int;
                let j = choose|j: int|
                    0 <= j < r.by_size@[found@[k].size as int]@.len() && (#[trigger] r.by_size@[found@[k].size as int]@[j]).cells@
                        == found@[k].cells@;
                assert(r@[a][j] == r.by_size@[a]@[j]@);
                assert(canonical_bitmap_of(r@[a][j].1, 0, SIDE as int) == canonical_bitmap_of(p, 0, SIDE as int));
            }
            let v = r@;
            assert forall|a: int, j: int| 0 <= a <= max && 0 <= j < v[a].len() implies #[trigger] v[a][j]
                == r.by_size@[a]@[j]@ by {}
        }
        r
    }

    /// The polyominoes of `size` cells.
    pub fn of_size(&self, size: u8) -> (r: &[PieceDef])
        requires
            (size as int) < self@.len(),
        ensures
            r@.len() == self@[size as int].len(),
            forall|j: int| 0 <= j < r@.len() ==> (#[trigger] r@[j])@ == self@[size as int][j],
    {
        self.by_size[size as usize].as_slice()
    }
}

} // verus!
