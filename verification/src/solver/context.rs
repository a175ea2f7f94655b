//! Precomputed, immutable data for one ExactCover solve: piece types,
//! placements, parity and center-mark tables, and lookup structures.

use crate::base::bitset::CAPACITY;
use crate::base::connectivity::adjacency_ok;
use crate::domain::enumerate::{
    anchor_offset, as_coord, all_sites, board_index, color_of, def_usable, enumerate_all_placements,
    black_count, index_set, is_placement_at, last_index, lemma_all_sites, lemma_placement_facts, placements_match, shifted,
    step, BoardLayout,
    PieceInstance, Site,
};
use crate::domain::defs::PieceDefMap;
use crate::domain::piece::{coords_in_range, lemma_variant_no_dup, Coord, PieceDef, PieceDefModel};
use crate::domain::placement::Placement;
use crate::error::{Result, SolverError};
use crate::io::common::{cell_key_spec, defs_map_spec, keys_parsed, PieceInstanceJson};
use crate::io::input::ExactCoverInput;
use crate::solver::pruning::{groups_ok, TypeGroup};
use crate::solver::search::{adjacency_symmetric, black_set, parity_facts, placement_connected, placements_connected, search_complete_for, solved};
use crate::domain::walks::{cells_connected, pt, unit_apart, walk_within};
use crate::base::connectivity::has_edge;
use crate::text::str_eq;
use vstd::prelude::*;
use vstd::set_lib::set_int_range;

verus! {

/// Board indices of the cells one step from `p`, directions `0..d` in
/// order (up, down, left, right).
pub open spec fn adjacent_entries(board: Seq<crate::domain::piece::Coord>, p: crate::domain::piece::Coord, d: int) -> Seq<u16>
    decreases d,
{
    if d <= 0 {
        Seq::empty()
    } else {
        let prev = adjacent_entries(board, p, d - 1);
        match board_index(board, step(p, d - 1)) {
            Some(i) => prev.push(i as u16),
            None => prev,
        }
    }
}

proof fn lemma_adjacent_entries_bound(board: Seq<crate::domain::piece::Coord>, p: crate::domain::piece::Coord, d: int)
    requires
        board.len() <= u16::MAX,
    ensures
        forall|k: int|
            0 <= k < adjacent_entries(board, p, d).len() ==> (#[trigger] adjacent_entries(
                board,
                p,
                d,
            )[k]) < board.len(),
    decreases d,
{
    if d > 0 {
        lemma_adjacent_entries_bound(board, p, d - 1);
        crate::domain::enumerate::lemma_board_index_bound(board, step(p, d - 1));
        let prev = adjacent_entries(board, p, d - 1);
        let cur = adjacent_entries(board, p, d);
        assert forall|k: int| 0 <= k < cur.len() implies (#[trigger] cur[k]) < board.len() by {
            if k < prev.len() {
                assert(cur[k] == prev[k]);
            }
        }
    }
}

/// Builds the 4-connectivity adjacency list of the board cells.
pub fn build_adjacency(board: &BoardLayout) -> (adj: Vec<Vec<u16>>)
    requires
        board.wf(),
    ensures
        adj@.len() == board.cells@.len(),
        forall|i: int|
            0 <= i < adj@.len() ==> (#[trigger] adj@[i])@ == adjacent_entries(
                board.cells@,
                board.cells@[i],
                4,
            ),
        adjacency_ok(adj@, board.cells@.len() as int),
{
    let n = board.cells.len();
    let mut adj: Vec<Vec<u16>> = Vec::with_capacity(n);
    let mut i: usize = 0;
    while i < n
        invariant
            board.wf(),
            n == board.cells@.len(),
            i <= n,
            adj@.len() == i,
            forall|j: int|
                0 <= j < i ==> (#[trigger] adj@[j])@ == adjacent_entries(
                    board.cells@,
                    board.cells@[j],
                    4,
                ),
        decreases n - i,
    {
        let (r, c) = board.cells[i];
        let mut row: Vec<u16> = Vec::with_capacity(4);
        let mut d: usize = 0;
        while d < 4
            invariant
                board.wf(),
                i < n,
                n == board.cells@.len(),
                board.cells@[i as int] == (r, c),
                d <= 4,
                row@ == adjacent_entries(board.cells@, (r, c), d as int),
            decreases 4 - d,
        {
            let (nr, nc): (i16, i16) = if d == 0 {
                (r as i16 - 1, c as i16)
            } else if d == 1 {
                (r as i16 + 1, c as i16)
            } else if d == 2 {
                (r as i16, c as i16 - 1)
            } else {
                (r as i16, c as i16 + 1)
            };
            proof {
                assert(step((r, c), d as int) == (nr as int, nc as int));
            }
            match board.lookup(nr, nc) {
                Some(idx) => {
                    row.push(idx);
                },
                None => {},
            }
            d = d + 1;
        }
        adj.push(row);
        i = i + 1;
    }
    proof {
        assert forall|u: int, k: int|
            0 <= u < n && 0 <= k < adj@[u]@.len() implies (#[trigger] adj@[u]@[k]) < n by {
            lemma_adjacent_entries_bound(board.cells@, board.cells@[u], 4);
        }
    }
    adj
}

/// The distinct piece ids among the first `n` pieces, in order of first
/// appearance.
pub open spec fn distinct_ids(pieces: Seq<PieceInstanceJson>, n: int) -> Seq<Seq<char>>
    decreases n,
{
    if n <= 0 {
        Seq::empty()
    } else {
        let prev = distinct_ids(pieces, n - 1);
        if prev.contains(pieces[n - 1].def_id@) {
            prev
        } else {
            prev.push(pieces[n - 1].def_id@)
        }
    }
}

/// Number of the first `n` pieces whose id is `id`.
pub open spec fn id_count(pieces: Seq<PieceInstanceJson>, id: Seq<char>, n: int) -> int
    decreases n,
{
    if n <= 0 {
        0
    } else {
        id_count(pieces, id, n - 1) + if pieces[n - 1].def_id@ == id {
            1int
        } else {
            0int
        }
    }
}

/// Position of `id` in `ids`, if present.
pub open spec fn position_of(ids: Seq<Seq<char>>, id: Seq<char>) -> int {
    choose|t: int| 0 <= t < ids.len() && ids[t] == id
}

/// Piece types: one per distinct piece id, in order of first appearance.
pub struct PieceTypes {
    /// The id of each type.
    pub type_ids: Vec<String>,
    /// Number of pieces of each type.
    pub type_counts: Vec<u16>,
    /// The type of each piece.
    pub piece_types: Vec<u16>,
}

/// Index of `id` in `type_ids`, if present.
pub(crate) fn find_type(type_ids: &Vec<String>, id: &str) -> (r: Option<usize>)
    ensures
        match r {
            Some(t) => t < type_ids@.len() && type_ids@[t as int]@ == id@,
            None => forall|j: int| 0 <= j < type_ids@.len() ==> (#[trigger] type_ids@[j])@ != id@,
        },
{
    let mut j: usize = 0;
    while j < type_ids.len()
        invariant
            j <= type_ids@.len(),
            forall|q: int| 0 <= q < j ==> (#[trigger] type_ids@[q])@ != id@,
        decreases type_ids@.len() - j,
    {
        if str_eq(type_ids[j].as_str(), id) {
            return Some(j);
        }
        j = j + 1;
    }
    None
}

proof fn lemma_distinct_ids(pieces: Seq<PieceInstanceJson>, n: int)
    requires
        0 <= n <= pieces.len(),
    ensures
        distinct_ids(pieces, n).no_duplicates(),
        distinct_ids(pieces, n).len() <= n,
        forall|i: int| 0 <= i < n ==> distinct_ids(pieces, n).contains(#[trigger] pieces[i].def_id@),
        forall|t: int|
            0 <= t < distinct_ids(pieces, n).len() ==> id_count(
                pieces,
                #[trigger] distinct_ids(pieces, n)[t],
                n,
            ) >= 1,
    decreases n,
{
    if n > 0 {
        lemma_distinct_ids(pieces, n - 1);
        lemma_id_count_bound(pieces, n - 1);
        let prev = distinct_ids(pieces, n - 1);
        let cur = distinct_ids(pieces, n);
        assert forall|i: int| 0 <= i < n implies cur.contains(#[trigger] pieces[i].def_id@) by {
            if i < n - 1 {
                let t = choose|t: int| 0 <= t < prev.len() && prev[t] == pieces[i].def_id@;
                assert(cur[t] == prev[t]);
            } else if prev.contains(pieces[i].def_id@) {
            } else {
                assert(cur[cur.len() - 1] == pieces[i].def_id@);
            }
        }
        assert forall|t: int| 0 <= t < cur.len() implies id_count(pieces, #[trigger] cur[t], n) >= 1 by {
            if t < prev.len() {
                assert(cur[t] == prev[t]);
                assert(id_count(pieces, prev[t], n - 1) >= 1);
            } else {
                assert(id_count(pieces, cur[t], n - 1) >= 0);
            }
        }
    }
}

/// Assigns a type to each piece: one type per distinct id, numbered in
/// order of first appearance, and counts the pieces of each type.
pub fn assign_types(pieces: &Vec<PieceInstanceJson>) -> (r: PieceTypes)
    requires
        pieces@.len() <= u16::MAX,
    ensures
        r.type_ids@.len() == distinct_ids(pieces@, pieces@.len() as int).len(),
        forall|t: int|
            0 <= t < r.type_ids@.len() ==> (#[trigger] r.type_ids@[t])@ == distinct_ids(
                pieces@,
                pieces@.len() as int,
            )[t],
        r.type_counts@.len() == r.type_ids@.len(),
        forall|t: int|
            0 <= t < r.type_counts@.len() ==> #[trigger] r.type_counts@[t] as int == id_count(
                pieces@,
                r.type_ids@[t]@,
                pieces@.len() as int,
            ),
        r.piece_types@.len() == pieces@.len(),
        forall|i: int|
            0 <= i < pieces@.len() ==> (#[trigger] r.piece_types@[i]) < r.type_ids@.len()
                && r.type_ids@[r.piece_types@[i] as int]@ == pieces@[i].def_id@,
{
    let mut type_ids: Vec<String> = Vec::new();
    let mut type_counts: Vec<u16> = Vec::new();
    let mut piece_types: Vec<u16> = Vec::with_capacity(pieces.len());
    let mut i: usize = 0;
    while i < pieces.len()
        invariant
            pieces@.len() <= u16::MAX,
            i <= pieces@.len(),
            type_ids@.len() == distinct_ids(pieces@, i as int).len(),
            forall|t: int|
                0 <= t < type_ids@.len() ==> (#[trigger] type_ids@[t])@ == distinct_ids(
                    pieces@,
                    i as int,
                )[t],
            type_counts@.len() == type_ids@.len(),
            forall|t: int|
                0 <= t < type_counts@.len() ==> #[trigger] type_counts@[t] as int == id_count(
                    pieces@,
                    type_ids@[t]@,
                    i as int,
                ),
            piece_types@.len() == i,
            forall|q: int|
                0 <= q < i ==> (#[trigger] piece_types@[q]) < type_ids@.len()
                    && type_ids@[piece_types@[q] as int]@ == pieces@[q].def_id@,
        decreases pieces@.len() - i,
    {
        proof {
            lemma_distinct_ids(pieces@, i as int);
            lemma_id_count_bound(pieces@, i as int);
        }
        let id = pieces[i].def_id.as_str();
        let ghost ids_before = distinct_ids(pieces@, i as int);
        let ti = match find_type(&type_ids, id) {
            Some(t) => {
                proof {
                    assert(ids_before[t as int] == id@);
                    assert(ids_before.contains(id@));
                }
                t
            },
            None => {
                proof {
                    assert(!ids_before.contains(id@)) by {
                        if ids_before.contains(id@) {
                            let t = choose|t: int| 0 <= t < ids_before.len() && ids_before[t] == id@;
                            assert(type_ids@[t]@ == id@);
                        }
                    }
                }
                proof {
                    lemma_id_count_absent(pieces@, id@, i as int);
                }
                let t = type_ids.len();
                type_ids.push(pieces[i].def_id.clone());
                type_counts.push(0);
                t
            },
        };
        let ghost cur = distinct_ids(pieces@, i + 1);
        proof {
            assert(type_ids@.len() == cur.len());
            assert forall|t: int| 0 <= t < type_ids@.len() implies (#[trigger] type_ids@[t])@ == cur[t] by {}
            assert(cur.len() <= i + 1);
        }
        let c = type_counts[ti];
        proof {
            assert(type_counts@[ti as int] as int == id_count(pieces@, type_ids@[ti as int]@, i as int));
        }
        type_counts.set(ti, c + 1);
        piece_types.push(ti as u16);
        proof {
            assert forall|t: int| 0 <= t < type_counts@.len() implies #[trigger] type_counts@[t] as int
                == id_count(pieces@, type_ids@[t]@, i + 1) by {
                if t != ti as int {
                    assert(type_ids@[t]@ != id@) by {
                        lemma_distinct_ids(pieces@, i + 1);
                        assert(cur[t] != cur[ti as int]);
                    }
                }
            }
        }
        i = i + 1;
    }
    PieceTypes { type_ids, type_counts, piece_types }
}

/// The types of a context set up for `input`: their ids, in order, and
/// their piece counts.
pub proof fn lemma_types_of(ctx: SolveContext, input: ExactCoverInput)
    requires
        ctx.describes(input),
        input.common.pieces@.len() <= u16::MAX,
    ensures
        ctx.type_ids@.len() == input_types(input).len(),
        forall|t: int| 0 <= t < ctx.type_ids@.len() ==> (#[trigger] ctx.type_ids@[t])@ == input_types(input)[t],
        forall|t: int|
            0 <= t < ctx.type_ids@.len() ==> #[trigger] ctx.type_counts@[t] as int == id_count(
                input.common.pieces@,
                input_types(input)[t],
                input.common.pieces@.len() as int,
            ),
{
    reveal(SolveContext::describes);
    let ps = input.common.pieces@;
    lemma_id_count_bound(ps, ps.len() as int);
    assert forall|t: int| 0 <= t < ctx.type_ids@.len() implies #[trigger] ctx.type_counts@[t] as int == id_count(
        ps,
        input_types(input)[t],
        ps.len() as int,
    ) by {
        assert(0 <= id_count(ps, input_types(input)[t], ps.len() as int) <= ps.len());
        assert(ctx.type_counts@[t] == type_count_seq(input)[t]);
    }
}

/// The board a context was set up on, with its placements.
pub proof fn lemma_board_of(ctx: SolveContext, input: ExactCoverInput) -> (board: BoardLayout)
    requires
        ctx.describes(input),
    ensures
        board.wf(),
        board.cells@ == keys_coords(input.target_cells@),
        board.center_cells@ == keys_coords(input.common.center_cells@),
        ctx.total_cells as int == board.cells@.len(),
        placements_match(ctx.placements@, board, input_sites(input)),
{
    reveal(SolveContext::describes);
    choose|board: BoardLayout|
        board.wf() && board.cells@ == keys_coords(input.target_cells@) && board.center_cells@ == keys_coords(
            input.common.center_cells@,
        ) && placements_match(ctx.placements@, board, input_sites(input))
}

/// The distinct ids have no duplicates and include every piece's id.
pub proof fn lemma_distinct_ids_pub(pieces: Seq<PieceInstanceJson>, n: int)
    requires
        0 <= n <= pieces.len(),
    ensures
        distinct_ids(pieces, n).no_duplicates(),
        forall|i: int| 0 <= i < n ==> distinct_ids(pieces, n).contains(#[trigger] pieces[i].def_id@),
{
    lemma_distinct_ids(pieces, n);
}

proof fn lemma_id_count_absent(pieces: Seq<PieceInstanceJson>, id: Seq<char>, n: int)
    requires
        0 <= n <= pieces.len(),
        !distinct_ids(pieces, n).contains(id),
    ensures
        id_count(pieces, id, n) == 0,
    decreases n,
{
    if n > 0 {
        lemma_distinct_ids(pieces, n);
        assert(pieces[n - 1].def_id@ != id);
        let prev = distinct_ids(pieces, n - 1);
        if prev.contains(id) {
            let t = choose|t: int| 0 <= t < prev.len() && prev[t] == id;
            assert(distinct_ids(pieces, n)[t] == id);
        }
        lemma_id_count_absent(pieces, id, n - 1);
    }
}

proof fn lemma_id_count_bound(pieces: Seq<PieceInstanceJson>, n: int)
    requires
        0 <= n,
    ensures
        forall|id: Seq<char>| 0 <= #[trigger] id_count(pieces, id, n) <= n,
    decreases n,
{
    if n > 0 {
        lemma_id_count_bound(pieces, n - 1);
        assert forall|id: Seq<char>| 0 <= #[trigger] id_count(pieces, id, n) <= n by {
            assert(0 <= id_count(pieces, id, n - 1) <= n - 1);
        }
    }
}


/// Facts about one placement that the search relies on.
pub open spec fn placement_ok(pl: Placement, n: int, nt: int) -> bool {
    &&& (pl.type_idx as int) < nt
    &&& forall|k: int| 0 <= k < pl.cell_indices@.len() ==> (#[trigger] pl.cell_indices@[k]) < n
    &&& pl.bits@ == index_set(pl.cell_indices@)
    &&& pl.cell_indices@.no_duplicates()
    &&& pl.cell_indices@.len() > 0
    &&& pl.b_count <= pl.cell_indices@.len()
    &&& forall|k: int| 0 <= k < pl.neighbor_indices@.len() ==> (#[trigger] pl.neighbor_indices@[k]) < n
}

/// Smallest `b_count` among the first `k` placements of type `t`, or
/// `u8::MAX` when there is none.
pub open spec fn min_black(pls: Seq<Placement>, t: int, k: int) -> u8
    decreases k,
{
    if k <= 0 {
        u8::MAX
    } else {
        let m = min_black(pls, t, k - 1);
        if pls[k - 1].type_idx as int == t && pls[k - 1].b_count < m {
            pls[k - 1].b_count
        } else {
            m
        }
    }
}

/// Largest `b_count` among the first `k` placements of type `t`, or 0
/// when there is none.
pub open spec fn max_black(pls: Seq<Placement>, t: int, k: int) -> u8
    decreases k,
{
    if k <= 0 {
        0
    } else {
        let m = max_black(pls, t, k - 1);
        if pls[k - 1].type_idx as int == t && pls[k - 1].b_count > m {
            pls[k - 1].b_count
        } else {
            m
        }
    }
}

/// Number of the first `k` placements of type `t` whose mark lands on the
/// center region.
pub open spec fn center_count(pls: Seq<Placement>, t: int, k: int) -> int
    decreases k,
{
    if k <= 0 {
        0
    } else {
        center_count(pls, t, k - 1) + if pls[k - 1].type_idx as int == t && pls[k - 1].mark_on_center {
            1int
        } else {
            0int
        }
    }
}

/// Per-type parity and center-mark tables.
pub struct TypeTables {
    pub type_min_black: Vec<u8>,
    pub type_max_black: Vec<u8>,
    pub center_mark_counts: Vec<u16>,
}

/// Builds, for each of the `nt` types, the smallest and largest number of
/// black cells a placement covers and the number of placements whose mark
/// lands on the center region (saturating at `u16::MAX`).
pub fn type_tables(placements: &Vec<Placement>, nt: usize) -> (r: TypeTables)
    requires
        forall|p: int| 0 <= p < placements@.len() ==> (#[trigger] placements@[p]).type_idx < nt,
    ensures
        r.type_min_black@.len() == nt,
        r.type_max_black@.len() == nt,
        r.center_mark_counts@.len() == nt,
        forall|t: int|
            0 <= t < nt ==> #[trigger] r.type_min_black@[t] == min_black(
                placements@,
                t,
                placements@.len() as int,
            ) && r.type_max_black@[t] == max_black(placements@, t, placements@.len() as int)
                && r.center_mark_counts@[t] as int == if center_count(
                placements@,
                t,
                placements@.len() as int,
            ) < u16::MAX {
                center_count(placements@, t, placements@.len() as int)
            } else {
                u16::MAX as int
            },
{
    let mut mins: Vec<u8> = vec![u8::MAX; nt];
    let mut maxs: Vec<u8> = vec![0u8; nt];
    let mut centers: Vec<u16> = vec![0u16; nt];
    let mut p: usize = 0;
    while p < placements.len()
        invariant
            forall|q: int| 0 <= q < placements@.len() ==> (#[trigger] placements@[q]).type_idx < nt,
            p <= placements@.len(),
            mins@.len() == nt,
            maxs@.len() == nt,
            centers@.len() == nt,
            forall|t: int|
                0 <= t < nt ==> #[trigger] mins@[t] == min_black(placements@, t, p as int) && maxs@[t]
                    == max_black(placements@, t, p as int) && centers@[t] as int == if center_count(
                    placements@,
                    t,
                    p as int,
                ) < u16::MAX {
                    center_count(placements@, t, p as int)
                } else {
                    u16::MAX as int
                },
        decreases placements@.len() - p,
    {
        let pl = &placements[p];
        let ti = pl.type_idx as usize;
        let ghost om = mins@;
        let ghost ox = maxs@;
        let ghost oc = centers@;
        if pl.b_count < mins[ti] {
            mins.set(ti, pl.b_count);
        }
        if pl.b_count > maxs[ti] {
            maxs.set(ti, pl.b_count);
        }
        if pl.mark_on_center {
            let c = centers[ti];
            centers.set(ti, c.saturating_add(1));
        }
        proof {
            assert forall|t: int| 0 <= t < nt implies #[trigger] mins@[t] == min_black(
                placements@,
                t,
                p + 1,
            ) && maxs@[t] == max_black(placements@, t, p + 1) && centers@[t] as int == if center_count(
                placements@,
                t,
                p + 1,
            ) < u16::MAX {
                center_count(placements@, t, p + 1)
            } else {
                u16::MAX as int
            } by {
                lemma_center_count_nonneg(placements@, t, p as int);
                assert(om[t] == min_black(placements@, t, p as int));
                assert(ox[t] == max_black(placements@, t, p as int));
                if t != ti as int {
                    assert(mins@[t] == om[t]);
                    assert(maxs@[t] == ox[t]);
                    assert(centers@[t] == oc[t]);
                }
            }
        }
        p = p + 1;
    }
    let r = TypeTables { type_min_black: mins, type_max_black: maxs, center_mark_counts: centers };
    assert forall|t: int| 0 <= t < nt implies #[trigger] r.type_min_black@[t] == min_black(
        placements@,
        t,
        placements@.len() as int,
    ) && r.type_max_black@[t] == max_black(placements@, t, placements@.len() as int)
        && r.center_mark_counts@[t] as int == if center_count(
        placements@,
        t,
        placements@.len() as int,
    ) < u16::MAX {
        center_count(placements@, t, placements@.len() as int)
    } else {
        u16::MAX as int
    } by {
        assert(mins@[t] == r.type_min_black@[t]);
    }
    r
}

proof fn lemma_center_count_nonneg(pls: Seq<Placement>, t: int, k: int)
    ensures
        center_count(pls, t, k) >= 0,
    decreases k,
{
    if k > 0 {
        lemma_center_count_nonneg(pls, t, k - 1);
    }
}

/// `v` lists, in increasing order, the placements among `pls` that cover
/// cell `c`.
pub open spec fn lists_covering(v: Seq<u32>, pls: Seq<Placement>, c: int) -> bool {
    &&& forall|a: int, b: int| 0 <= a < b < v.len() ==> v[a] < v[b]
    &&& forall|k: int| 0 <= k < v.len() ==> (#[trigger] v[k]) < pls.len()
    &&& forall|p: int|
        0 <= p < pls.len() ==> (#[trigger] pls[p].bits@.contains(c) <==> exists|k: int|
            0 <= k < v.len() && v[k] as int == p)
}

/// Builds, for each of the `n` cells, the list of placements covering it.
pub fn cell_index(placements: &Vec<Placement>, n: usize, nt: usize) -> (r: Vec<Vec<u32>>)
    requires
        placements@.len() <= u32::MAX,
        forall|p: int| 0 <= p < placements@.len() ==> placement_ok(#[trigger] placements@[p], n as int, nt as int),
    ensures
        r@.len() == n,
        forall|c: int| 0 <= c < n ==> lists_covering((#[trigger] r@[c])@, placements@, c),
{
    let mut table: Vec<Vec<u32>> = Vec::with_capacity(n);
    let mut c: usize = 0;
    while c < n
        invariant
            c <= n,
            table@.len() == c,
            forall|q: int| 0 <= q < c ==> (#[trigger] table@[q])@.len() == 0,
        decreases n - c,
    {
        table.push(Vec::new());
        c = c + 1;
    }
    let mut p: usize = 0;
    while p < placements.len()
        invariant
            placements@.len() <= u32::MAX,
            forall|q: int| 0 <= q < placements@.len() ==> placement_ok(#[trigger] placements@[q], n as int, nt as int),
            p <= placements@.len(),
            table@.len() == n,
            forall|c: int| 0 <= c < n ==> lists_covering((#[trigger] table@[c])@, placements@.take(p as int), c),
        decreases placements@.len() - p,
    {
        let pl = &placements[p];
        let ghost ci = pl.cell_indices@;
        let ghost before = table@;
        let mut j: usize = 0;
        while j < pl.cell_indices.len()
            invariant
                placement_ok(*pl, n as int, nt as int),
                *pl == placements@[p as int],
                ci == pl.cell_indices@,
                p < placements@.len() <= u32::MAX,
                j <= ci.len(),
                table@.len() == n,
                forall|c: int|
                    0 <= c < n ==> {
                        let v = (#[trigger] table@[c])@;
                        let w = before[c]@;
                        &&& if exists|jj: int| 0 <= jj < j && ci[jj] as int == c {
                            v == w.push(p as u32)
                        } else {
                            v == w
                        }
                    },
            decreases ci.len() - j,
        {
            let cell = pl.cell_indices[j] as usize;
            proof {
                assert(!exists|jj: int| 0 <= jj < j && ci[jj] as int == cell) by {
                    if exists|jj: int| 0 <= jj < j && ci[jj] as int == cell {
                        let jj = choose|jj: int| 0 <= jj < j && ci[jj] as int == cell;
                        assert(ci[jj] == ci[j as int]);
                    }
                }
            }
            table[cell].push(p as u32);
            proof {
                assert forall|c: int| 0 <= c < n implies {
                    let v = (#[trigger] table@[c])@;
                    let w = before[c]@;
                    &&& if exists|jj: int| 0 <= jj < j + 1 && ci[jj] as int == c {
                        v == w.push(p as u32)
                    } else {
                        v == w
                    }
                } by {
                    if c == cell as int {
                        assert(ci[j as int] as int == c);
                    } else {
                        if exists|jj: int| 0 <= jj < j + 1 && ci[jj] as int == c {
                            let jj = choose|jj: int| 0 <= jj < j + 1 && ci[jj] as int == c;
                            assert(jj < j);
                        }
                    }
                }
            }
            j = j + 1;
        }
        proof {
            let pls2 = placements@.take(p + 1);
            let pls1 = placements@.take(p as int);
            assert forall|c: int| 0 <= c < n implies lists_covering((#[trigger] table@[c])@, pls2, c) by {
                let v = table@[c]@;
                let w = before[c]@;
                assert(lists_covering(w, pls1, c));
                assert(pls2[p as int] == *pl);
                assert(pl.bits@.contains(c) == exists|jj: int| 0 <= jj < ci.len() && ci[jj] as int == c);
                assert forall|q: int| 0 <= q < pls2.len() implies (#[trigger] pls2[q].bits@.contains(c)
                    <==> exists|k: int| 0 <= k < v.len() && v[k] as int == q) by {
                    if q < p {
                        assert(pls2[q] == pls1[q]);
                        if exists|k: int| 0 <= k < w.len() && w[k] as int == q {
                            let k = choose|k: int| 0 <= k < w.len() && w[k] as int == q;
                            assert(v[k] == w[k]);
                        }
                        if exists|k: int| 0 <= k < v.len() && v[k] as int == q {
                            let k = choose|k: int| 0 <= k < v.len() && v[k] as int == q;
                            if k < w.len() {
                                assert(v[k] == w[k]);
                            }
                        }
                    } else {
                        if pl.bits@.contains(c) {
                            assert(v[v.len() - 1] as int == q);
                        }
                        if exists|k: int| 0 <= k < v.len() && v[k] as int == q {
                            let k = choose|k: int| 0 <= k < v.len() && v[k] as int == q;
                            if k < w.len() {
                                assert(v[k] == w[k]);
                            }
                        }
                    }
                }
            }
        }
        p = p + 1;
    }
    proof {
        assert(placements@.take(p as int) =~= placements@);
    }
    table
}

/// `v` lists, in increasing order, the placements of type `t` among `pls`
/// that cover cell `c`.
pub open spec fn lists_covering_of_type(v: Seq<u32>, pls: Seq<Placement>, c: int, t: u16) -> bool {
    &&& forall|a: int, b: int| 0 <= a < b < v.len() ==> v[a] < v[b]
    &&& forall|k: int| 0 <= k < v.len() ==> (#[trigger] v[k]) < pls.len()
    &&& forall|p: int|
        0 <= p < pls.len() ==> (#[trigger] pls[p].bits@.contains(c) && pls[p].type_idx == t
            <==> exists|k: int| 0 <= k < v.len() && v[k] as int == p)
}

/// `groups` splits the placements covering cell `c` by type: one group
/// per type, groups in order of their first placement.
pub open spec fn groups_cover(groups: Seq<TypeGroup>, pls: Seq<Placement>, c: int) -> bool {
    &&& forall|g: int, h: int|
        0 <= g < h < groups.len() ==> (#[trigger] groups[g]).type_idx != (#[trigger] groups[h]).type_idx
            && groups[g].placements@[0] < groups[h].placements@[0]
    &&& forall|g: int|
        0 <= g < groups.len() ==> (#[trigger] groups[g]).placements@.len() > 0
            && lists_covering_of_type(groups[g].placements@, pls, c, groups[g].type_idx)
    &&& forall|p: int|
        0 <= p < pls.len() && #[trigger] pls[p].bits@.contains(c) ==> exists|g: int|
            0 <= g < groups.len() && groups[g].type_idx == pls[p].type_idx
}

/// Adds placement `p` of type `t` to the group of its type, opening a new
/// group at the end when there is none.
fn add_to_groups(groups: &mut Vec<TypeGroup>, t: u16, p: u32)
    requires
        forall|g: int, h: int|
            0 <= g < h < old(groups)@.len() ==> (#[trigger] old(groups)@[g]).type_idx != (
            #[trigger] old(groups)@[h]).type_idx,
    ensures
        match find_group_spec(old(groups)@, t) {
            Some(g) => final(groups)@.len() == old(groups)@.len() && final(groups)@[g].type_idx == t
                && final(groups)@[g].placements@ == old(groups)@[g].placements@.push(p) && forall|h: int|
                0 <= h < old(groups)@.len() && h != g ==> #[trigger] final(groups)@[h] == old(groups)@[h],
            None => final(groups)@.len() == old(groups)@.len() + 1 && final(groups)@[old(
                groups,
            )@.len() as int].type_idx == t && final(groups)@[old(groups)@.len() as int].placements@
                == seq![p] && forall|h: int|
                0 <= h < old(groups)@.len() ==> #[trigger] final(groups)@[h] == old(groups)@[h],
        },
{
    let mut g: usize = 0;
    let mut found = false;
    while g < groups.len() && !found
        invariant
            g <= groups@.len(),
            groups@ == old(groups)@,
            forall|h: int| 0 <= h < g ==> (#[trigger] groups@[h]).type_idx != t,
            found ==> g < groups@.len() && groups@[g as int].type_idx == t,
        decreases groups@.len() - g + if found { 0int } else { 1int },
    {
        if groups[g].type_idx == t {
            found = true;
        } else {
            g = g + 1;
        }
    }
    if found {
        proof {
            let k = choose|k: int| 0 <= k < groups@.len() && groups@[k].type_idx == t;
            assert(k == g);
        }
        groups[g].placements.push(p);
    } else {
        let mut v: Vec<u32> = Vec::new();
        v.push(p);
        assert(v@ =~= seq![p]);
        groups.push(TypeGroup { type_idx: t, placements: v });
    }
}

/// Position of the group of type `t`, if any.
pub open spec fn find_group_spec(groups: Seq<TypeGroup>, t: u16) -> Option<int> {
    if exists|g: int| 0 <= g < groups.len() && groups[g].type_idx == t {
        Some(choose|g: int| 0 <= g < groups.len() && groups[g].type_idx == t)
    } else {
        None
    }
}

proof fn lemma_groups_step(w: Seq<TypeGroup>, v: Seq<TypeGroup>, pls: Seq<Placement>, c: int, p: int)
    requires
        0 <= p < pls.len() <= u32::MAX,
        groups_cover(w, pls.take(p), c),
        pls[p].bits@.contains(c),
        match find_group_spec(w, pls[p].type_idx) {
            Some(g) => v.len() == w.len() && v[g].type_idx == pls[p].type_idx && v[g].placements@
                == w[g].placements@.push(p as u32) && forall|h: int|
                0 <= h < w.len() && h != g ==> #[trigger] v[h] == w[h],
            None => v.len() == w.len() + 1 && v[w.len() as int].type_idx == pls[p].type_idx
                && v[w.len() as int].placements@ == seq![p as u32] && forall|h: int|
                0 <= h < w.len() ==> #[trigger] v[h] == w[h],
        },
    ensures
        groups_cover(v, pls.take(p + 1), c),
{
    let t = pls[p].type_idx;
    let a = pls.take(p);
    let b = pls.take(p + 1);
    assert forall|q: int| 0 <= q < p implies #[trigger] b[q] == a[q] by {}
    assert forall|g: int|
        0 <= g < v.len() implies (#[trigger] v[g]).placements@.len() > 0 && lists_covering_of_type(
        v[g].placements@,
        b,
        c,
        v[g].type_idx,
    ) by {
        let x = v[g].placements@;
        if g < w.len() && v[g] == w[g] {
            let y = w[g].placements@;
            assert(lists_covering_of_type(y, a, c, w[g].type_idx));
            assert(w[g].type_idx != t) by {
                if w[g].type_idx == t {
                    assert(find_group_spec(w, t) is Some);
                }
            }
            assert forall|q: int| 0 <= q < b.len() implies (#[trigger] b[q].bits@.contains(c)
                && b[q].type_idx == v[g].type_idx <==> exists|k: int|
                0 <= k < x.len() && x[k] as int == q) by {
                if q < p {
                    assert(b[q] == a[q]);
                }
            }
        } else if g < w.len() {
            let y = w[g].placements@;
            assert(lists_covering_of_type(y, a, c, w[g].type_idx));
            assert(x == y.push(p as u32));
            assert forall|q: int| 0 <= q < b.len() implies (#[trigger] b[q].bits@.contains(c)
                && b[q].type_idx == v[g].type_idx <==> exists|k: int|
                0 <= k < x.len() && x[k] as int == q) by {
                if q < p {
                    assert(b[q] == a[q]);
                    if exists|k: int| 0 <= k < y.len() && y[k] as int == q {
                        let k = choose|k: int| 0 <= k < y.len() && y[k] as int == q;
                        assert(x[k] == y[k]);
                    }
                    if exists|k: int| 0 <= k < x.len() && x[k] as int == q {
                        let k = choose|k: int| 0 <= k < x.len() && x[k] as int == q;
                        assert(k < y.len());
                        assert(x[k] == y[k]);
                    }
                } else {
                    assert(x[x.len() - 1] as int == q);
                }
            }
        } else {
            assert(x == seq![p as u32]);
            assert forall|q: int| 0 <= q < b.len() implies (#[trigger] b[q].bits@.contains(c)
                && b[q].type_idx == v[g].type_idx <==> exists|k: int|
                0 <= k < x.len() && x[k] as int == q) by {
                if q < p {
                    assert(b[q] == a[q]);
                    if b[q].bits@.contains(c) && b[q].type_idx == t {
                        let h = choose|h: int| 0 <= h < w.len() && w[h].type_idx == a[q].type_idx;
                        assert(find_group_spec(w, t) is Some);
                    }
                } else {
                    assert(x[0] as int == q);
                }
            }
        }
    }
    assert forall|g: int, h: int|
        0 <= g < h < v.len() implies (#[trigger] v[g]).type_idx != (#[trigger] v[h]).type_idx
        && v[g].placements@[0] < v[h].placements@[0] by {
        if h < w.len() {
            assert(w[g].placements@.len() > 0 && w[h].placements@.len() > 0);
            assert(v[g].type_idx == w[g].type_idx);
            assert(v[h].type_idx == w[h].type_idx);
            assert(v[g].placements@[0] == w[g].placements@[0]);
            assert(v[h].placements@[0] == w[h].placements@[0]);
        } else {
            assert(find_group_spec(w, t) is None);
            assert(v[g] == w[g]);
            assert(w[g].type_idx != t);
            let y = w[g].placements@;
            assert(lists_covering_of_type(y, a, c, w[g].type_idx));
            assert(y[0] < a.len());
        }
    }
    assert forall|q: int| 0 <= q < b.len() && #[trigger] b[q].bits@.contains(c) implies exists|g: int|
        0 <= g < v.len() && v[g].type_idx == b[q].type_idx by {
        if q < p {
            assert(b[q] == a[q]);
            let g = choose|g: int| 0 <= g < w.len() && w[g].type_idx == a[q].type_idx;
            match find_group_spec(w, t) {
                Some(k) => {
                    if g == k {
                        assert(v[k].type_idx == b[q].type_idx);
                    } else {
                        assert(v[g] == w[g]);
                    }
                },
                None => {
                    assert(v[g] == w[g]);
                },
            }
        } else {
            match find_group_spec(w, t) {
                Some(k) => {
                    assert(v[k].type_idx == t);
                },
                None => {
                    assert(v[w.len() as int].type_idx == t);
                },
            }
        }
    }
}

/// Builds, for each of the `n` cells, the placements covering it grouped
/// by piece type.
pub fn cell_groups(placements: &Vec<Placement>, n: usize, nt: usize) -> (r: Vec<Vec<TypeGroup>>)
    requires
        placements@.len() <= u32::MAX,
        forall|p: int| 0 <= p < placements@.len() ==> placement_ok(#[trigger] placements@[p], n as int, nt as int),
    ensures
        r@.len() == n,
        forall|c: int| 0 <= c < n ==> groups_cover((#[trigger] r@[c])@, placements@, c),
{
    let mut table: Vec<Vec<TypeGroup>> = Vec::with_capacity(n);
    let mut c: usize = 0;
    while c < n
        invariant
            c <= n,
            table@.len() == c,
            forall|q: int| 0 <= q < c ==> (#[trigger] table@[q])@.len() == 0,
        decreases n - c,
    {
        table.push(Vec::new());
        c = c + 1;
    }
    let mut p: usize = 0;
    while p < placements.len()
        invariant
            placements@.len() <= u32::MAX,
            forall|q: int| 0 <= q < placements@.len() ==> placement_ok(#[trigger] placements@[q], n as int, nt as int),
            p <= placements@.len(),
            table@.len() == n,
            forall|c: int| 0 <= c < n ==> groups_cover((#[trigger] table@[c])@, placements@.take(p as int), c),
        decreases placements@.len() - p,
    {
        let pl = &placements[p];
        let ghost ci = pl.cell_indices@;
        let ghost before = table@;
        let mut j: usize = 0;
        while j < pl.cell_indices.len()
            invariant
                placement_ok(*pl, n as int, nt as int),
                *pl == placements@[p as int],
                ci == pl.cell_indices@,
                p < placements@.len() <= u32::MAX,
                j <= ci.len(),
                table@.len() == n,
                before.len() == n,
                forall|c: int| 0 <= c < n ==> groups_cover((#[trigger] before[c])@, placements@.take(p as int), c),
                forall|c: int|
                    0 <= c < n ==> if exists|jj: int| 0 <= jj < j && ci[jj] as int == c {
                        groups_cover((#[trigger] table@[c])@, placements@.take(p + 1), c)
                    } else {
                        table@[c] == before[c]
                    },
            decreases ci.len() - j,
        {
            let cell = pl.cell_indices[j] as usize;
            proof {
                assert(!exists|jj: int| 0 <= jj < j && ci[jj] as int == cell) by {
                    if exists|jj: int| 0 <= jj < j && ci[jj] as int == cell {
                        let jj = choose|jj: int| 0 <= jj < j && ci[jj] as int == cell;
                        assert(ci[jj] == ci[j as int]);
                    }
                }
                assert(table@[cell as int] == before[cell as int]);
                assert(groups_cover(table@[cell as int]@, placements@.take(p as int), cell as int));
            }
            let ghost w = table@[cell as int]@;
            add_to_groups(&mut table[cell], pl.type_idx, p as u32);
            proof {
                assert(pl.bits@.contains(cell as int)) by {
                    assert(ci[j as int] as int == cell);
                }
                lemma_groups_step(w, table@[cell as int]@, placements@, cell as int, p as int);
                assert forall|c: int| 0 <= c < n implies if exists|jj: int| 0 <= jj < j + 1 && ci[jj] as int == c {
                    groups_cover((#[trigger] table@[c])@, placements@.take(p + 1), c)
                } else {
                    table@[c] == before[c]
                } by {
                    if c != cell as int {
                        if exists|jj: int| 0 <= jj < j + 1 && ci[jj] as int == c {
                            let jj = choose|jj: int| 0 <= jj < j + 1 && ci[jj] as int == c;
                            assert(jj < j);
                        }
                    } else {
                        assert(ci[j as int] as int == c);
                    }
                }
            }
            j = j + 1;
        }
        proof {
            assert forall|c: int| 0 <= c < n implies groups_cover((#[trigger] table@[c])@, placements@.take(p + 1), c) by {
                if !exists|jj: int| 0 <= jj < ci.len() && ci[jj] as int == c {
                    assert(!pl.bits@.contains(c));
                    lemma_groups_extend(before[c]@, placements@, c, p as int);
                }
            }
        }
        p = p + 1;
    }
    proof {
        assert(placements@.take(p as int) =~= placements@);
    }
    table
}

proof fn lemma_groups_extend(w: Seq<TypeGroup>, pls: Seq<Placement>, c: int, p: int)
    requires
        0 <= p < pls.len(),
        groups_cover(w, pls.take(p), c),
        !pls[p].bits@.contains(c),
    ensures
        groups_cover(w, pls.take(p + 1), c),
{
    let a = pls.take(p);
    let b = pls.take(p + 1);
    assert forall|g: int| 0 <= g < w.len() implies (#[trigger] w[g]).placements@.len() > 0
        && lists_covering_of_type(w[g].placements@, b, c, w[g].type_idx) by {
        let x = w[g].placements@;
        assert forall|q: int| 0 <= q < b.len() implies (#[trigger] b[q].bits@.contains(c)
            && b[q].type_idx == w[g].type_idx <==> exists|k: int| 0 <= k < x.len() && x[k] as int == q) by {
            if q < p {
                assert(b[q] == a[q]);
            }
        }
    }
    assert forall|q: int| 0 <= q < b.len() && #[trigger] b[q].bits@.contains(c) implies exists|g: int|
        0 <= g < w.len() && w[g].type_idx == b[q].type_idx by {
        assert(q < p);
        assert(b[q] == a[q]);
    }
}

/// Sum of the first `m` counts.
pub open spec fn count_sum(counts: Seq<u16>, m: int) -> int
    decreases m,
{
    if m <= 0 {
        0
    } else {
        count_sum(counts, m - 1) + counts[m - 1] as int
    }
}

/// Sum over the first `m` types of size times count.
pub open spec fn cells_sum(sizes: Seq<u8>, counts: Seq<u16>, m: int) -> int
    decreases m,
{
    if m <= 0 {
        0
    } else {
        cells_sum(sizes, counts, m - 1) + sizes[m - 1] as int * counts[m - 1] as int
    }
}

/// A sum of sizes times counts is never negative.
pub proof fn lemma_cells_sum_nonneg(sizes: Seq<u8>, counts: Seq<u16>, m: int)
    ensures
        cells_sum(sizes, counts, m) >= 0,
    decreases m,
{
    if m > 0 {
        lemma_cells_sum_nonneg(sizes, counts, m - 1);
        assert(sizes[m - 1] as int * counts[m - 1] as int >= 0) by (nonlinear_arith);
    }
}

proof fn lemma_cells_sum_bounds(sizes: Seq<u8>, counts: Seq<u16>, m: int)
    requires
        0 <= m <= sizes.len(),
        m <= counts.len(),
    ensures
        0 <= count_sum(counts, m),
        count_sum(counts, m) <= cells_sum(sizes, counts, m) || exists|t: int| 0 <= t < m && sizes[t] == 0,
        cells_sum(sizes, counts, m) <= 255 * count_sum(counts, m),
    decreases m,
{
    if m > 0 {
        lemma_cells_sum_bounds(sizes, counts, m - 1);
        let a = sizes[m - 1] as int;
        let b = counts[m - 1] as int;
        assert(a * b <= 255 * b) by (nonlinear_arith)
            requires
                0 <= a <= 255,
                0 <= b,
        ;
        assert(a >= 1 ==> a * b >= b) by (nonlinear_arith)
            requires
                0 <= b,
        ;
        assert(a * b >= 0) by (nonlinear_arith)
            requires
                0 <= a,
                0 <= b,
        ;
    }
}

/// Sum over the first `m` ids of how many of the first `n` pieces carry
/// that id.
pub open spec fn id_count_sum(pieces: Seq<PieceInstanceJson>, ids: Seq<Seq<char>>, n: int, m: int) -> int
    decreases m,
{
    if m <= 0 {
        0
    } else {
        id_count_sum(pieces, ids, n, m - 1) + id_count(pieces, ids[m - 1], n)
    }
}

/// Number of the first `m` ids equal to `x`.
pub open spec fn occurrences(ids: Seq<Seq<char>>, x: Seq<char>, m: int) -> int
    decreases m,
{
    if m <= 0 {
        0
    } else {
        occurrences(ids, x, m - 1) + if ids[m - 1] == x {
            1int
        } else {
            0int
        }
    }
}

proof fn lemma_id_count_sum_step(pieces: Seq<PieceInstanceJson>, ids: Seq<Seq<char>>, n: int, m: int)
    requires
        1 <= n <= pieces.len(),
        0 <= m <= ids.len(),
    ensures
        id_count_sum(pieces, ids, n, m) == id_count_sum(pieces, ids, n - 1, m) + occurrences(
            ids,
            pieces[n - 1].def_id@,
            m,
        ),
    decreases m,
{
    if m > 0 {
        lemma_id_count_sum_step(pieces, ids, n, m - 1);
    }
}

proof fn lemma_occurrences(ids: Seq<Seq<char>>, x: Seq<char>, m: int)
    requires
        0 <= m <= ids.len(),
        ids.no_duplicates(),
    ensures
        occurrences(ids, x, m) == if exists|t: int| 0 <= t < m && ids[t] == x {
            1int
        } else {
            0int
        },
    decreases m,
{
    if m > 0 {
        lemma_occurrences(ids, x, m - 1);
        if ids[m - 1] == x {
            if exists|t: int| 0 <= t < m - 1 && ids[t] == x {
                let t = choose|t: int| 0 <= t < m - 1 && ids[t] == x;
                assert(ids[t] == ids[m - 1]);
            }
        }
    }
}

proof fn lemma_id_count_sum_prefix(pieces: Seq<PieceInstanceJson>, a: Seq<Seq<char>>, b: Seq<Seq<char>>, n: int, m: int)
    requires
        0 <= m <= a.len(),
        m <= b.len(),
        forall|t: int| 0 <= t < m ==> a[t] == b[t],
    ensures
        id_count_sum(pieces, a, n, m) == id_count_sum(pieces, b, n, m),
        occurrences(a, pieces[n - 1].def_id@, m) == occurrences(b, pieces[n - 1].def_id@, m),
    decreases m,
{
    if m > 0 {
        lemma_id_count_sum_prefix(pieces, a, b, n, m - 1);
    }
}

/// Every piece is counted under exactly one type: the counts of the
/// distinct ids add up to the number of pieces.
proof fn lemma_counts_total(pieces: Seq<PieceInstanceJson>, n: int)
    requires
        0 <= n <= pieces.len(),
    ensures
        id_count_sum(pieces, distinct_ids(pieces, n), n, distinct_ids(pieces, n).len() as int) == n,
    decreases n,
{
    if n > 0 {
        lemma_counts_total(pieces, n - 1);
        lemma_distinct_ids(pieces, n - 1);
        lemma_distinct_ids(pieces, n);
        let d0 = distinct_ids(pieces, n - 1);
        let d1 = distinct_ids(pieces, n);
        let x = pieces[n - 1].def_id@;
        lemma_id_count_sum_step(pieces, d1, n, d1.len() as int);
        lemma_occurrences(d1, x, d1.len() as int);
        assert(d1.contains(x));
        if d0.contains(x) {
            assert(d1 == d0);
        } else {
            assert(d1 == d0.push(x));
            lemma_id_count_sum_prefix(pieces, d0, d1, n - 1, d0.len() as int);
            lemma_id_count_absent(pieces, x, n - 1);
        }
    }
}

/// A definition the solver accepts: usable by enumeration, with distinct
/// cells.
pub open spec fn def_solvable(d: PieceDefModel) -> bool {
    &&& def_usable(d)
    &&& d.1.no_duplicates()
}

/// Every definition that a piece names is one the solver accepts.
pub open spec fn defs_solvable(input: ExactCoverInput) -> bool {
    let pieces = input.common.pieces@;
    let defs = defs_map_spec(input.common.piece_defs@);
    forall|i: int|
        0 <= i < pieces.len() && defs.contains_key(#[trigger] pieces[i].def_id@) ==> def_solvable(
            defs[pieces[i].def_id@],
        )
}

/// The input's pieces fit the `u16` counters, and, where every piece type
/// has a definition and the pieces' cells add up to the target cells,
/// every definition that a piece names is one the solver accepts.
pub open spec fn input_ok(input: ExactCoverInput) -> bool {
    &&& input.common.pieces@.len() <= u16::MAX
    &&& (missing_type(input) is None && piece_cells(input) == input.target_cells@.len()) ==> defs_solvable(
        input,
    )
}

/// Whether a piece definition is one the solver accepts: 1 to 255 cells,
/// a mark among them, coordinates whose rotations and reflections stay in
/// `i8`, and no cell listed twice.
pub fn def_acceptable(def: &PieceDef) -> (r: bool)
    ensures
        r == def_solvable(def@),
{
    let n = def.cells.len();
    if n == 0 || n > 255 || def.mark_index >= n {
        return false;
    }
    let mut i: usize = 0;
    while i < n
        invariant
            n == def.cells@.len(),
            i <= n,
            forall|a: int| 0 <= a < i ==> (#[trigger] def.cells@[a]).0 >= -127 && def.cells@[a].1 >= -127,
            forall|a: int, b: int|
                0 <= a < i && 0 <= b < n ==> (#[trigger] def.cells@[a]).0 - (#[trigger] def.cells@[b]).0
                    <= 127 && def.cells@[a].1 - def.cells@[b].1 <= 127 && def.cells@[b].0
                    - def.cells@[a].0 <= 127 && def.cells@[b].1 - def.cells@[a].1 <= 127,
            forall|a: int, b: int| 0 <= a < i && 0 <= b < n && a != b ==> def.cells@[a] != def.cells@[b],
        decreases n - i,
    {
        let (r, c) = def.cells[i];
        if r < -127 || c < -127 {
            proof {
                assert(!coords_in_range(def.cells@)) by {
                    assert(def.cells@[i as int].0 < -127 || def.cells@[i as int].1 < -127);
                }
            }
            return false;
        }
        let mut j: usize = 0;
        while j < n
            invariant
                n == def.cells@.len(),
                i < n,
                j <= n,
                (r, c) == def.cells@[i as int],
                forall|b: int|
                    0 <= b < j ==> r - (#[trigger] def.cells@[b]).0 <= 127 && c - def.cells@[b].1 <= 127
                        && def.cells@[b].0 - r <= 127 && def.cells@[b].1 - c <= 127,
                forall|b: int| 0 <= b < j && b != i ==> def.cells@[b] != def.cells@[i as int],
            decreases n - j,
        {
            let (r2, c2) = def.cells[j];
            let dr = r as i16 - r2 as i16;
            let dc = c as i16 - c2 as i16;
            if dr > 127 || dc > 127 || dr < -127 || dc < -127 {
                proof {
                    assert(!coords_in_range(def.cells@)) by {
                        let x = def.cells@[i as int];
                        let y = def.cells@[j as int];
                        assert(x.0 - y.0 > 127 || x.1 - y.1 > 127 || y.0 - x.0 > 127 || y.1 - x.1 > 127);
                    }
                }
                return false;
            }
            if j != i && r == r2 && c == c2 {
                proof {
                    assert(def.cells@[i as int] == def.cells@[j as int]);
                }
                return false;
            }
            proof {
                if j != i {
                    assert(def.cells@[j as int] != def.cells@[i as int]);
                }
            }
            j = j + 1;
        }
        i = i + 1;
    }
    proof {
        assert(coords_in_range(def.cells@));
        assert(def.cells@.no_duplicates());
    }
    true
}

/// Whether `input` meets what [`SolveContext::build`] and the solver
/// require of it ([`input_ok`]).
pub fn input_acceptable(input: &ExactCoverInput) -> (r: bool)
    ensures
        r == input_ok(*input),
{
    let pieces = &input.common.pieces;
    if pieces.len() > 65535 {
        return false;
    }
    let ghost ids = input_types(*input);
    let types = assign_types(pieces);
    let nt = types.type_ids.len();
    proof {
        lemma_distinct_ids(pieces@, pieces@.len() as int);
        lemma_counts_total(pieces@, pieces@.len() as int);
    }
    let defs = input.common.piece_defs_map();
    let sizes = match sizes_of_types(input, &types.type_ids, &defs) {
        Ok(v) => v,
        Err(_) => {
            return true;
        },
    };
    proof {
        assert(types.type_counts@ =~= type_count_seq(*input));
        lemma_id_count_sum_counts(pieces@, ids, types.type_counts@, nt as int);
    }
    let total = total_piece_cells(&sizes, &types.type_counts);
    if total as usize != input.target_cells.len() {
        return true;
    }
    let mut i: usize = 0;
    while i < pieces.len()
        invariant
            missing_type(*input) is None,
            piece_cells(*input) == input.target_cells@.len(),
            i <= pieces@.len(),
            pieces@ == input.common.pieces@,
            pieces@.len() <= u16::MAX,
            defs@ == defs_map_spec(input.common.piece_defs@),
            forall|k: int|
                0 <= k < i && defs@.contains_key(#[trigger] pieces@[k].def_id@) ==> def_solvable(
                    defs@[pieces@[k].def_id@],
                ),
        decreases pieces.len() - i,
    {
        match defs.get(pieces[i].def_id.as_str()) {
            Some(d) => {
                if !def_acceptable(d) {
                    return false;
                }
            },
            None => {},
        }
        i = i + 1;
    }
    true
}

/// Every key is a well-formed cell key.
pub open spec fn keys_ok(keys: Seq<String>) -> bool {
    forall|i: int| 0 <= i < keys.len() ==> cell_key_spec(#[trigger] keys[i]@) is Some
}

/// The coordinates of well-formed keys.
pub open spec fn keys_coords(keys: Seq<String>) -> Seq<Coord> {
    Seq::new(keys.len(), |i: int| cell_key_spec(keys[i]@)->0)
}

/// The piece types of the input, in order of first appearance.
pub open spec fn input_types(input: ExactCoverInput) -> Seq<Seq<char>> {
    distinct_ids(input.common.pieces@, input.common.pieces@.len() as int)
}

/// The first type whose definition is missing, if any.
pub open spec fn missing_type(input: ExactCoverInput) -> Option<int> {
    let ids = input_types(input);
    let defs = defs_map_spec(input.common.piece_defs@);
    if exists|t: int| 0 <= t < ids.len() && !defs.contains_key(#[trigger] ids[t]) {
        Some(
            choose|t: int|
                0 <= t < ids.len() && !defs.contains_key(#[trigger] ids[t]) && forall|u: int|
                    0 <= u < t ==> defs.contains_key(#[trigger] ids[u]),
        )
    } else {
        None
    }
}

/// Cell count of each type.
pub open spec fn type_sizes(input: ExactCoverInput) -> Seq<u8> {
    let ids = input_types(input);
    let defs = defs_map_spec(input.common.piece_defs@);
    Seq::new(ids.len(), |t: int| defs[ids[t]].1.len() as u8)
}

/// Number of pieces of each type.
pub open spec fn type_count_seq(input: ExactCoverInput) -> Seq<u16> {
    let ids = input_types(input);
    let pieces = input.common.pieces@;
    Seq::new(ids.len(), |t: int| id_count(pieces, ids[t], pieces.len() as int) as u16)
}

/// Total cells of all pieces.
pub open spec fn piece_cells(input: ExactCoverInput) -> int {
    cells_sum(type_sizes(input), type_count_seq(input), input_types(input).len() as int)
}

/// The pieces with their types.
pub open spec fn input_instances(input: ExactCoverInput) -> Seq<PieceInstance> {
    let ids = input_types(input);
    let pieces = input.common.pieces@;
    Seq::new(
        pieces.len(),
        |i: int| PieceInstance { type_idx: position_of(ids, pieces[i].def_id@) as u16, def_id: pieces[i].def_id },
    )
}

/// Where every placement of the input comes from.
pub open spec fn input_sites(input: ExactCoverInput) -> Seq<Site> {
    all_sites(
        keys_coords(input.target_cells@),
        defs_map_spec(input.common.piece_defs@),
        input_instances(input),
        input.common.pieces@.len() as int,
    )
}

/// The board coordinate of the mark of the placement at site `st`.
pub open spec fn site_mark(cells: Seq<Coord>, st: Site) -> Coord {
    as_coord(shifted(st.1.1, anchor_offset(cells, st.1.0, st.2)))
}

/// Some placement lands its mark on the center region.
pub open spec fn center_reachable(input: ExactCoverInput) -> bool {
    let cells = keys_coords(input.target_cells@);
    let centers = keys_coords(input.common.center_cells@);
    let sites = input_sites(input);
    exists|k: int| 0 <= k < sites.len() && centers.contains(site_mark(cells, #[trigger] sites[k]))
}

/// Number of the first `k` cells whose color is 0.
pub open spec fn black_cells(cells: Seq<Coord>, k: int) -> int
    decreases k,
{
    if k <= 0 {
        0
    } else {
        black_cells(cells, k - 1) + if color_of(cells[k - 1]) == 0 {
            1int
        } else {
            0int
        }
    }
}

/// How setup ends for an input.
pub enum SetupOutcome {
    BadTarget,
    BadCenter,
    TooLarge,
    MissingDef(int),
    CellMismatch(int),
    NoCenter,
    Ready,
}

/// Setup checks, in the order they are made.
pub open spec fn setup_outcome(input: ExactCoverInput) -> SetupOutcome {
    if !keys_ok(input.target_cells@) {
        SetupOutcome::BadTarget
    } else if !keys_ok(input.common.center_cells@) {
        SetupOutcome::BadCenter
    } else if input.target_cells@.len() > CAPACITY {
        SetupOutcome::TooLarge
    } else if missing_type(input) is Some {
        SetupOutcome::MissingDef(missing_type(input)->0)
    } else if piece_cells(input) != input.target_cells@.len() {
        SetupOutcome::CellMismatch(piece_cells(input))
    } else if !center_reachable(input) {
        SetupOutcome::NoCenter
    } else {
        SetupOutcome::Ready
    }
}

/// `e` is the error that setup reports for `input`.
pub open spec fn setup_error(input: ExactCoverInput, e: SolverError) -> bool {
    match setup_outcome(input) {
        SetupOutcome::BadTarget => keys_parsed(input.target_cells@, Err(e)),
        SetupOutcome::BadCenter => keys_parsed(input.common.center_cells@, Err(e)),
        SetupOutcome::TooLarge => e == SolverError::BoardTooLarge {
            actual: input.target_cells@.len() as usize,
            capacity: CAPACITY,
        },
        SetupOutcome::MissingDef(t) => e matches SolverError::UnknownPieceDef { id } && id@ == input_types(
            input,
        )[t],
        SetupOutcome::CellMismatch(c) => e == SolverError::PieceCellMismatch {
            piece_cells: c as usize,
            target_cells: input.target_cells@.len() as usize,
        },
        SetupOutcome::NoCenter => e == SolverError::NoCenterMarkPossible,
        SetupOutcome::Ready => false,
    }
}

/// `r` is what setup returns for `input`, check by check.
pub open spec fn build_result(input: ExactCoverInput, r: Result<SolveContext>) -> bool {
    match setup_outcome(input) {
        SetupOutcome::BadTarget => r matches Err(e) && keys_parsed(input.target_cells@, Err(e)),
        SetupOutcome::BadCenter => r matches Err(e) && keys_parsed(input.common.center_cells@, Err(e)),
        SetupOutcome::TooLarge => r == Err::<SolveContext, SolverError>(
            SolverError::BoardTooLarge { actual: input.target_cells@.len() as usize, capacity: CAPACITY },
        ),
        SetupOutcome::MissingDef(t) => r matches Err(SolverError::UnknownPieceDef { id }) && id@
            == input_types(input)[t],
        SetupOutcome::CellMismatch(c) => r == Err::<SolveContext, SolverError>(
            SolverError::PieceCellMismatch {
                piece_cells: c as usize,
                target_cells: input.target_cells@.len() as usize,
            },
        ),
        SetupOutcome::NoCenter => r == Err::<SolveContext, SolverError>(SolverError::NoCenterMarkPossible),
        SetupOutcome::Ready => r matches Ok(ctx) && ctx.wf() && ctx.describes(input),
    }
}

/// Setup fails exactly when some check fails, with that check's error.
pub proof fn lemma_build_result(input: ExactCoverInput, r: Result<SolveContext>)
    requires
        build_result(input, r),
    ensures
        match r {
            Ok(ctx) => setup_outcome(input) is Ready && ctx.wf() && ctx.describes(input),
            Err(e) => setup_error(input, e),
        },
{
}

/// All precomputed data for a single solve.
pub struct SolveContext {
    /// Total target cell count.
    pub total_cells: u16,
    /// Black and white cells on the board.
    pub total_black: u16,
    pub total_white: u16,
    /// Type ids in the order assigned by setup.
    pub type_ids: Vec<String>,
    /// Number of instances per type.
    pub type_counts: Vec<u16>,
    /// Cell count of each piece type.
    pub size_of_type: Vec<u8>,
    /// Min and max black-cell contribution over the placements of each type.
    pub type_min_black: Vec<u8>,
    pub type_max_black: Vec<u8>,
    /// Number of placements per type that land a mark on the center region.
    pub center_mark_counts: Vec<u16>,
    /// All valid placements, in a flat list.
    pub placements: Vec<Placement>,
    /// For each cell, the placements covering it.
    pub cell_to_placements: Vec<Vec<u32>>,
    /// For each cell, the placements covering it grouped by type.
    pub cell_pl_by_type: Vec<Vec<TypeGroup>>,
    /// 4-connectivity adjacency list over board cells.
    pub adj_list: Vec<Vec<u16>>,
}

impl SolveContext {
    /// The tables are consistent with each other and fit their counters.
    pub open spec fn wf(&self) -> bool {
        let n = self.total_cells as int;
        let nt = self.type_ids@.len() as int;
        let pls = self.placements@;
        &&& n <= CAPACITY
        &&& nt <= u16::MAX
        &&& pls.len() <= u32::MAX
        &&& self.type_counts@.len() == nt
        &&& self.size_of_type@.len() == nt
        &&& self.type_min_black@.len() == nt
        &&& self.type_max_black@.len() == nt
        &&& self.center_mark_counts@.len() == nt
        &&& count_sum(self.type_counts@, nt) <= n
        &&& self.placements_ok()
        &&& self.cell_to_placements@.len() == n
        &&& self.cell_pl_by_type@.len() == n
        &&& self.lookups_ok()
        &&& self.centers_ok()
        &&& adjacency_ok(self.adj_list@, n)
        &&& self.total_black + self.total_white == n
    }

    /// Every placement satisfies [`placement_ok`].
    pub closed spec fn placements_ok(&self) -> bool {
        forall|p: int|
            0 <= p < self.placements@.len() ==> placement_ok(
                #[trigger] self.placements@[p],
                self.total_cells as int,
                self.type_ids@.len() as int,
            )
    }

    /// A type with a placement whose mark lands on the center region is
    /// counted as such.
    pub closed spec fn centers_ok(&self) -> bool {
        forall|p: int|
            0 <= p < self.placements@.len() && (#[trigger] self.placements@[p]).mark_on_center
                ==> self.center_mark_counts@[self.placements@[p].type_idx as int] > 0
    }

    /// A placement whose mark lands on the center region belongs to a type
    /// counted as such.
    pub proof fn lemma_center_type(&self, p: int)
        requires
            self.wf(),
            0 <= p < self.placements@.len(),
            self.placements@[p].mark_on_center,
        ensures
            self.center_mark_counts@[self.placements@[p].type_idx as int] > 0,
    {
    }

    /// The per-cell lookups list exactly the placements covering each cell.
    pub closed spec fn lookups_ok(&self) -> bool {
        let n = self.total_cells as int;
        let pls = self.placements@;
        &&& forall|c: int| 0 <= c < n ==> lists_covering((#[trigger] self.cell_to_placements@[c])@, pls, c)
        &&& forall|c: int| 0 <= c < n ==> groups_cover((#[trigger] self.cell_pl_by_type@[c])@, pls, c)
    }

    /// One placement of a well-formed context.
    pub proof fn lemma_placement(&self, p: int)
        requires
            self.wf(),
            0 <= p < self.placements@.len(),
        ensures
            placement_ok(self.placements@[p], self.total_cells as int, self.type_ids@.len() as int),
    {
    }

    /// The lookups of one cell of a well-formed context.
    pub proof fn lemma_cell(&self, c: int)
        requires
            self.wf(),
            0 <= c < self.total_cells,
        ensures
            lists_covering(self.cell_to_placements@[c]@, self.placements@, c),
            groups_cover(self.cell_pl_by_type@[c]@, self.placements@, c),
    {
    }

    /// The context is the one set up for `input`.
    #[verifier::opaque]
    pub open spec fn describes(&self, input: ExactCoverInput) -> bool {
        let cells = keys_coords(input.target_cells@);
        let centers = keys_coords(input.common.center_cells@);
        let ids = input_types(input);
        let pls = self.placements@;
        let np = pls.len() as int;
        &&& self.total_cells as int == cells.len()
        &&& self.type_ids@.len() == ids.len()
        &&& forall|t: int| 0 <= t < ids.len() ==> (#[trigger] self.type_ids@[t])@ == ids[t]
        &&& self.type_counts@ == type_count_seq(input)
        &&& self.size_of_type@ == type_sizes(input)
        &&& self.total_black as int == black_cells(cells, cells.len() as int)
        &&& exists|board: BoardLayout|
            board.wf() && board.cells@ == cells && board.center_cells@ == centers && placements_match(
                pls,
                board,
                input_sites(input),
            )
        &&& forall|t: int|
            0 <= t < ids.len() ==> #[trigger] self.type_min_black@[t] == min_black(pls, t, np)
                && self.type_max_black@[t] == max_black(pls, t, np) && self.center_mark_counts@[t] as int
                == if center_count(pls, t, np) < u16::MAX {
                center_count(pls, t, np)
            } else {
                u16::MAX as int
            }
        &&& forall|i: int|
            0 <= i < cells.len() ==> (#[trigger] self.adj_list@[i])@ == adjacent_entries(cells, cells[i], 4)
    }
}

/// Counts the black and white cells of the board.
fn count_colors(board: &BoardLayout) -> (r: (u16, u16))
    requires
        board.wf(),
    ensures
        r.0 as int == black_cells(board.cells@, board.cells@.len() as int),
        r.0 + r.1 == board.cells@.len(),
{
    let mut black: u16 = 0;
    let mut white: u16 = 0;
    let mut i: usize = 0;
    while i < board.cell_color.len()
        invariant
            board.wf(),
            i <= board.cells@.len(),
            black as int == black_cells(board.cells@, i as int),
            black + white == i,
        decreases board.cells@.len() - i,
    {
        proof {
            assert(board.cell_color@[i as int] == color_of(board.cells@[i as int]));
        }
        if board.cell_color[i] == 0 {
            black = black + 1;
        } else {
            white = white + 1;
        }
        i = i + 1;
    }
    (black, white)
}

/// Returns `true` if some placement lands its mark on the center region.
fn any_center(placements: &Vec<Placement>) -> (r: bool)
    ensures
        r == exists|p: int| 0 <= p < placements@.len() && (#[trigger] placements@[p]).mark_on_center,
{
    let mut p: usize = 0;
    while p < placements.len()
        invariant
            p <= placements@.len(),
            forall|q: int| 0 <= q < p ==> !(#[trigger] placements@[q]).mark_on_center,
        decreases placements@.len() - p,
    {
        if placements[p].mark_on_center {
            return true;
        }
        p = p + 1;
    }
    false
}

/// Pairs each piece with its type.
fn make_instances(pieces: &Vec<PieceInstanceJson>, piece_types: &Vec<u16>) -> (r: Vec<PieceInstance>)
    requires
        piece_types@.len() == pieces@.len(),
    ensures
        r@.len() == pieces@.len(),
        forall|i: int|
            0 <= i < pieces@.len() ==> (#[trigger] r@[i]) == (PieceInstance {
                type_idx: piece_types@[i],
                def_id: pieces@[i].def_id,
            }),
{
    let mut r: Vec<PieceInstance> = Vec::with_capacity(pieces.len());
    let mut i: usize = 0;
    while i < pieces.len()
        invariant
            piece_types@.len() == pieces@.len(),
            i <= pieces@.len(),
            r@.len() == i,
            forall|q: int|
                0 <= q < i ==> (#[trigger] r@[q]) == (PieceInstance {
                    type_idx: piece_types@[q],
                    def_id: pieces@[q].def_id,
                }),
        decreases pieces@.len() - i,
    {
        r.push(PieceInstance { type_idx: piece_types[i], def_id: pieces[i].def_id.clone() });
        i = i + 1;
    }
    r
}

/// Parses the target and center keys and lays out the board.
fn parse_board(input: &ExactCoverInput) -> (r: Result<BoardLayout>)
    ensures
        match r {
            Ok(board) => {
                &&& keys_ok(input.target_cells@)
                &&& keys_ok(input.common.center_cells@)
                &&& input.target_cells@.len() <= CAPACITY
                &&& board.wf()
                &&& board.cells@ == keys_coords(input.target_cells@)
                &&& board.center_cells@ == keys_coords(input.common.center_cells@)
            },
            Err(e) => if !keys_ok(input.target_cells@) {
                keys_parsed(input.target_cells@, Err(e))
            } else if !keys_ok(input.common.center_cells@) {
                keys_parsed(input.common.center_cells@, Err(e))
            } else {
                input.target_cells@.len() > CAPACITY && e == SolverError::BoardTooLarge {
                    actual: input.target_cells@.len() as usize,
                    capacity: CAPACITY,
                }
            },
        },
{
    let ghost tk = input.target_cells@;
    let ghost ck = input.common.center_cells@;
    let target_cells = match input.parse_target_cells() {
        Ok(v) => v,
        Err(e) => {
            proof {
                let i = choose|i: int|
                    0 <= i < tk.len() && cell_key_spec(#[trigger] tk[i]@) is None && (forall|j: int|
                        0 <= j < i ==> cell_key_spec(#[trigger] tk[j]@) is Some) && e == SolverError::Json(
                        crate::io::common::malformed_key_error(tk[i]@),
                    );
            }
            return Err(e);
        },
    };
    proof {
        assert(target_cells@ =~= keys_coords(tk));
    }
    let center_cells = match input.common.parse_center_cells() {
        Ok(v) => v,
        Err(e) => {
            proof {
                let i = choose|i: int|
                    0 <= i < ck.len() && cell_key_spec(#[trigger] ck[i]@) is None && (forall|j: int|
                        0 <= j < i ==> cell_key_spec(#[trigger] ck[j]@) is Some) && e == SolverError::Json(
                        crate::io::common::malformed_key_error(ck[i]@),
                    );
            }
            return Err(e);
        },
    };
    proof {
        assert(center_cells@ =~= keys_coords(ck));
    }
    BoardLayout::new(target_cells, center_cells)
}

/// The cell count of each type, or the error for the first type without a
/// definition.
fn sizes_of_types(input: &ExactCoverInput, type_ids: &Vec<String>, piece_defs_map: &PieceDefMap) -> (r: Result<Vec<u8>>)
    requires
        piece_defs_map@ == defs_map_spec(input.common.piece_defs@),
        type_ids@.len() == input_types(*input).len(),
        forall|u: int| 0 <= u < type_ids@.len() ==> (#[trigger] type_ids@[u])@ == input_types(*input)[u],
    ensures
        match r {
            Ok(sizes) => missing_type(*input) is None && sizes@ == type_sizes(*input),
            Err(e) => missing_type(*input) matches Some(t) && e matches SolverError::UnknownPieceDef { id }
                && id@ == input_types(*input)[t],
        },
{
    let ghost ids = input_types(*input);
    let ghost defs = defs_map_spec(input.common.piece_defs@);
    let ghost pieces = input.common.pieces@;
    proof {
        lemma_distinct_ids(pieces, pieces.len() as int);
    }
    let nt = type_ids.len();
    let mut sizes: Vec<u8> = Vec::with_capacity(nt);
    let mut t: usize = 0;
    while t < nt
        invariant
            pieces == input.common.pieces@,
            ids == input_types(*input),
            defs == defs_map_spec(input.common.piece_defs@),
            piece_defs_map@ == defs,
            nt == type_ids@.len(),
            nt == ids.len(),
            forall|u: int| 0 <= u < nt ==> (#[trigger] type_ids@[u])@ == ids[u],
            forall|u: int| 0 <= u < ids.len() ==> id_count(pieces, #[trigger] ids[u], pieces.len() as int) >= 1,
            t <= nt,
            sizes@.len() == t,
            forall|u: int| 0 <= u < t ==> defs.contains_key(#[trigger] ids[u]),
            forall|u: int| 0 <= u < t ==> #[trigger] sizes@[u] == type_sizes(*input)[u],
        decreases nt - t,
    {
        match piece_defs_map.get(type_ids[t].as_str()) {
            Some(d) => {
                sizes.push(d.cells.len() as u8);
            },
            None => {
                let id = type_ids[t].clone();
                proof {
                    assert(!defs.contains_key(ids[t as int]));
                    let m = missing_type(*input)->0;
                    assert(0 <= m < ids.len() && !defs.contains_key(ids[m]));
                }
                return Err(SolverError::UnknownPieceDef { id });
            },
        }
        t = t + 1;
    }
    proof {
        assert(sizes@ =~= type_sizes(*input));
    }
    Ok(sizes)
}

/// Total cells of all pieces: the sum over types of size times count.
fn total_piece_cells(sizes: &Vec<u8>, counts: &Vec<u16>) -> (r: u32)
    requires
        sizes@.len() == counts@.len(),
        count_sum(counts@, counts@.len() as int) <= u16::MAX,
    ensures
        r as int == cells_sum(sizes@, counts@, counts@.len() as int),
{
    let nt = counts.len();
    proof {
        lemma_cells_sum_bounds(sizes@, counts@, nt as int);
    }
    let mut total: u32 = 0;
    let mut u: usize = 0;
    while u < nt
        invariant
            u <= nt,
            sizes@.len() == nt,
            counts@.len() == nt,
            cells_sum(sizes@, counts@, nt as int) <= 255 * u16::MAX,
            total as int == cells_sum(sizes@, counts@, u as int),
        decreases nt - u,
    {
        proof {
            lemma_cells_sum_monotone(sizes@, counts@, u + 1, nt as int);
        }
        total = total + sizes[u] as u32 * counts[u] as u32;
        u = u + 1;
    }
    total
}

/// Enumerates the placements of every piece of a well-formed input.
fn input_placements(
    input: &ExactCoverInput,
    types: &PieceTypes,
    piece_defs_map: &PieceDefMap,
    board: &BoardLayout,
) -> (placements: Vec<Placement>)
    requires
        input_ok(*input),
        defs_solvable(*input),
        missing_type(*input) is None,
        board.wf(),
        board.cells@ == keys_coords(input.target_cells@),
        piece_defs_map@ == defs_map_spec(input.common.piece_defs@),
        types.type_ids@.len() == input_types(*input).len(),
        forall|u: int| 0 <= u < types.type_ids@.len() ==> (#[trigger] types.type_ids@[u])@ == input_types(*input)[u],
        types.piece_types@.len() == input.common.pieces@.len(),
        forall|i: int|
            0 <= i < input.common.pieces@.len() ==> (#[trigger] types.piece_types@[i]) < types.type_ids@.len()
                && types.type_ids@[types.piece_types@[i] as int]@ == input.common.pieces@[i].def_id@,
    ensures
        placements@.len() <= u32::MAX,
        placements_match(placements@, *board, input_sites(*input)),
        forall|p: int|
            0 <= p < placements@.len() ==> placement_ok(
                #[trigger] placements@[p],
                board.cells@.len() as int,
                types.type_ids@.len() as int,
            ),
{
    let ghost ids = input_types(*input);
    let ghost defs = defs_map_spec(input.common.piece_defs@);
    let ghost pieces = input.common.pieces@;
    let ghost cells = board.cells@;
    let ghost n = cells.len() as int;
    let ghost nt = ids.len() as int;
    proof {
        lemma_distinct_ids(pieces, pieces.len() as int);
    }
    let instances = make_instances(&input.common.pieces, &types.piece_types);
    proof {
        assert forall|i: int| 0 <= i < pieces.len() implies #[trigger] types.piece_types@[i] as int
            == position_of(ids, pieces[i].def_id@) by {
            let q = types.piece_types@[i] as int;
            assert(ids[q] == pieces[i].def_id@);
            assert(ids.contains(pieces[i].def_id@));
            let p = position_of(ids, pieces[i].def_id@);
            assert(ids[p] == pieces[i].def_id@);
        }
        assert(instances@ =~= input_instances(*input));
        assert forall|i: int| 0 <= i < instances@.len() implies defs.contains_key(
            #[trigger] instances@[i].def_id@,
        ) by {
            assert(instances@[i].def_id == pieces[i].def_id);
            assert(ids.contains(pieces[i].def_id@));
            let q = choose|q: int| 0 <= q < ids.len() && ids[q] == pieces[i].def_id@;
            assert(defs.contains_key(ids[q]));
        }
        assert forall|i: int|
            0 <= i < instances@.len() && piece_defs_map@.contains_key(#[trigger] instances@[i].def_id@)
                implies def_usable(piece_defs_map@[instances@[i].def_id@]) by {
            assert(instances@[i].def_id == pieces[i].def_id);
            assert(def_solvable(defs[pieces[i].def_id@]));
        }
    }
    let placements = match enumerate_all_placements(&instances, piece_defs_map, board) {
        Ok(p) => p,
        Err(e) => {
            // Every piece's definition exists, so enumeration cannot fail.
            proof {
                let i = choose|i: int|
                    0 <= i < instances@.len() && !piece_defs_map@.contains_key(
                        #[trigger] instances@[i].def_id@,
                    );
                assert(false);
            }
            return Vec::new();
        },
    };
    let ghost sites = input_sites(*input);
    proof {
        lemma_all_sites(cells, defs, instances@, instances@.len() as int);
        assert(sites.len() <= pieces.len() * 8 * n) by (nonlinear_arith)
            requires
                sites.len() <= instances@.len() * 8 * n,
                instances@.len() == pieces.len(),
        ;
        assert(pieces.len() * 8 * n <= 65535 * 8 * 224) by (nonlinear_arith)
            requires
                pieces.len() <= 65535,
                n <= 224,
        ;
        assert forall|p: int| 0 <= p < placements@.len() implies placement_ok(
            #[trigger] placements@[p],
            n,
            nt,
        ) by {
            let st = sites[p];
            let (i, j) = choose|i: int, j: int|
                0 <= i < instances@.len() && 0 <= j < crate::domain::enumerate::def_variants(
                    defs[instances@[i].def_id@],
                ).len() && st.0 == instances@[i].type_idx && st.1 == crate::domain::enumerate::def_variants(
                    defs[instances@[i].def_id@],
                )[j] && 0 <= st.2 < cells.len() && crate::domain::enumerate::fits(cells, st.1.0, st.2);
            assert(instances@[i].def_id == pieces[i].def_id);
            assert(def_solvable(defs[pieces[i].def_id@]));
            let d = defs[pieces[i].def_id@];
            lemma_variant_no_dup(d.1, d.1[d.2 as int], 8);
            crate::domain::piece::lemma_variant_shape(d.1, d.2 as int, 8);
            assert(st.1.0.len() == d.1.len());
            lemma_placement_facts(placements@[p], *board, st.0, st.1, st.2);
            assert(types.piece_types@[i] < nt);
        }
    }
    placements
}

/// Assembles the context from the parts set up for `input`, computing
/// the per-type tables and the per-cell lookups.
fn finish_context(
    input: &ExactCoverInput,
    board: &BoardLayout,
    types: PieceTypes,
    size_of_type: Vec<u8>,
    placements: Vec<Placement>,
    total_black: u16,
    total_white: u16,
    adj_list: Vec<Vec<u16>>,
) -> (ctx: SolveContext)
    requires
        board.wf(),
        board.cells@ == keys_coords(input.target_cells@),
        board.center_cells@ == keys_coords(input.common.center_cells@),
        types.type_ids@.len() == input_types(*input).len(),
        forall|u: int| 0 <= u < types.type_ids@.len() ==> (#[trigger] types.type_ids@[u])@ == input_types(*input)[u],
        types.type_ids@.len() <= u16::MAX,
        types.type_counts@ == type_count_seq(*input),
        count_sum(types.type_counts@, types.type_ids@.len() as int) <= board.cells@.len(),
        size_of_type@ == type_sizes(*input),
        placements@.len() <= u32::MAX,
        placements_match(placements@, *board, input_sites(*input)),
        forall|p: int|
            0 <= p < placements@.len() ==> placement_ok(
                #[trigger] placements@[p],
                board.cells@.len() as int,
                types.type_ids@.len() as int,
            ),
        total_black as int == black_cells(board.cells@, board.cells@.len() as int),
        total_black + total_white == board.cells@.len(),
        adj_list@.len() == board.cells@.len(),
        forall|i: int|
            0 <= i < adj_list@.len() ==> (#[trigger] adj_list@[i])@ == adjacent_entries(
                board.cells@,
                board.cells@[i],
                4,
            ),
        adjacency_ok(adj_list@, board.cells@.len() as int),
    ensures
        ctx.wf(),
        ctx.describes(*input),
{
    let n = board.cells.len();
    let nt = types.type_ids.len();
    let tables = type_tables(&placements, nt);
    let cell_to_placements = cell_index(&placements, n, nt);
    let cell_pl_by_type = cell_groups(&placements, n, nt);
    let ctx = SolveContext {
        total_cells: n as u16,
        total_black,
        total_white,
        type_ids: types.type_ids,
        type_counts: types.type_counts,
        size_of_type,
        type_min_black: tables.type_min_black,
        type_max_black: tables.type_max_black,
        center_mark_counts: tables.center_mark_counts,
        placements,
        cell_to_placements,
        cell_pl_by_type,
        adj_list,
    };
    proof {
        reveal(SolveContext::describes);
        assert(ctx.placements_ok());
        assert(ctx.lookups_ok());
        assert forall|p: int|
            0 <= p < ctx.placements@.len() && (#[trigger] ctx.placements@[p]).mark_on_center implies ctx.center_mark_counts@[
            ctx.placements@[p].type_idx as int] > 0 by {
            let t = ctx.placements@[p].type_idx as int;
            assert(placement_ok(ctx.placements@[p], ctx.total_cells as int, ctx.type_ids@.len() as int));
            assert(ctx.type_min_black@[t] == min_black(ctx.placements@, t, ctx.placements@.len() as int));
            lemma_center_count_pos(ctx.placements@, t, ctx.placements@.len() as int, p);
        }
        assert(ctx.centers_ok());
        let cells = keys_coords(input.target_cells@);
        let ids = input_types(*input);
        assert(ctx.total_cells as int == cells.len());
        assert(forall|t: int| 0 <= t < ids.len() ==> (#[trigger] ctx.type_ids@[t])@ == ids[t]);
        assert(ctx.type_counts@ == type_count_seq(*input));
        assert(ctx.size_of_type@ == type_sizes(*input));
        assert(ctx.total_black as int == black_cells(cells, cells.len() as int));
        assert(board.wf() && board.cells@ == cells && board.center_cells@ == keys_coords(
            input.common.center_cells@,
        ) && placements_match(ctx.placements@, *board, input_sites(*input)));
        assert(forall|i: int| 0 <= i < cells.len() ==> (#[trigger] ctx.adj_list@[i])@ == adjacent_entries(cells, cells[i], 4));
    }
    ctx
}

proof fn lemma_center_count_pos(pls: Seq<Placement>, t: int, k: int, p: int)
    requires
        0 <= p < k <= pls.len(),
        pls[p].type_idx as int == t,
        pls[p].mark_on_center,
    ensures
        center_count(pls, t, k) >= 1,
    decreases k,
{
    if p < k - 1 {
        lemma_center_count_pos(pls, t, k - 1, p);
    }
    lemma_center_count_nonneg(pls, t, k - 1);
}

/// Piece types, their sizes and the definitions of a well-formed input.
pub struct TypedPieces {
    pub types: PieceTypes,
    pub sizes: Vec<u8>,
    pub defs: PieceDefMap,
}

/// Assigns piece types, looks up their sizes and checks that the piece
/// cells add up to the `n` target cells.
fn typed_pieces(input: &ExactCoverInput, n: usize) -> (r: Result<TypedPieces>)
    requires
        input_ok(*input),
        n == input.target_cells@.len(),
        n <= CAPACITY,
    ensures
        match r {
            Ok(tp) => {
                &&& missing_type(*input) is None
                &&& piece_cells(*input) == n
                &&& tp.defs@ == defs_map_spec(input.common.piece_defs@)
                &&& tp.types.type_ids@.len() == input_types(*input).len()
                &&& forall|u: int|
                    0 <= u < tp.types.type_ids@.len() ==> (#[trigger] tp.types.type_ids@[u])@ == input_types(
                        *input,
                    )[u]
                &&& tp.types.type_ids@.len() <= u16::MAX
                &&& tp.types.type_counts@ == type_count_seq(*input)
                &&& count_sum(tp.types.type_counts@, tp.types.type_ids@.len() as int) <= n
                &&& tp.sizes@ == type_sizes(*input)
                &&& tp.types.piece_types@.len() == input.common.pieces@.len()
                &&& forall|i: int|
                    0 <= i < input.common.pieces@.len() ==> (#[trigger] tp.types.piece_types@[i])
                        < tp.types.type_ids@.len() && tp.types.type_ids@[tp.types.piece_types@[i] as int]@
                        == input.common.pieces@[i].def_id@
            },
            Err(e) => match missing_type(*input) {
                Some(t) => e matches SolverError::UnknownPieceDef { id } && id@ == input_types(*input)[t],
                None => piece_cells(*input) != n && e == SolverError::PieceCellMismatch {
                    piece_cells: piece_cells(*input) as usize,
                    target_cells: n,
                },
            },
        },
{
    let ghost ids = input_types(*input);
    let ghost pieces = input.common.pieces@;
    let types = assign_types(&input.common.pieces);
    let nt = types.type_ids.len();
    proof {
        lemma_distinct_ids(pieces, pieces.len() as int);
        lemma_counts_total(pieces, pieces.len() as int);
    }
    let piece_defs_map = input.common.piece_defs_map();
    let size_of_type = match sizes_of_types(input, &types.type_ids, &piece_defs_map) {
        Ok(v) => v,
        Err(e) => {
            return Err(e);
        },
    };
    proof {
        assert(types.type_counts@ =~= type_count_seq(*input));
        lemma_id_count_sum_counts(pieces, ids, types.type_counts@, nt as int);
    }
    let total = total_piece_cells(&size_of_type, &types.type_counts);
    if total as usize != n {
        return Err(SolverError::PieceCellMismatch { piece_cells: total as usize, target_cells: n });
    }
    proof {
        assert forall|q: int| 0 <= q < nt implies size_of_type@[q] >= 1 by {
            lemma_id_present(pieces, ids[q], pieces.len() as int);
            let i = choose|i: int| 0 <= i < pieces.len() && pieces[i].def_id@ == ids[q];
            assert(def_solvable(defs_map_spec(input.common.piece_defs@)[pieces[i].def_id@]));
        }
        lemma_cells_sum_bounds(size_of_type@, types.type_counts@, nt as int);
    }
    Ok(TypedPieces { types, sizes: size_of_type, defs: piece_defs_map })
}

impl SolveContext {
    /// Builds the context from the input. Fails, in this order of checks,
    /// on the first malformed target key, the first malformed center key, a
    /// board too large for the bitset, the first piece type without a
    /// definition, piece cells that do not add up to the target cells, and
    /// a center region that no placement can mark.
    pub fn build(input: &ExactCoverInput) -> (r: Result<SolveContext>)
        requires
            input_ok(*input),
        ensures
            build_result(*input, r),
    {
        let board = match parse_board(input) {
            Ok(b) => b,
            Err(e) => {
                return Err(e);
            },
        };
        let ghost cells = board.cells@;
        let ghost ck = input.common.center_cells@;
        let n: usize = board.cells.len();
        let tp = match typed_pieces(input, n) {
            Ok(tp) => tp,
            Err(e) => {
                return Err(e);
            },
        };
        let (total_black, total_white) = count_colors(&board);
        let adj_list = build_adjacency(&board);
        let placements = input_placements(input, &tp.types, &tp.defs, &board);
        let ghost sites = input_sites(*input);
        if !any_center(&placements) {
            proof {
                if center_reachable(*input) {
                    let k = choose|k: int|
                        0 <= k < sites.len() && keys_coords(ck).contains(site_mark(cells, #[trigger] sites[k]));
                    assert(placements@[k].mark_on_center);
                }
            }
            return Err(SolverError::NoCenterMarkPossible);
        }
        proof {
            let k = choose|k: int| 0 <= k < placements@.len() && (#[trigger] placements@[k]).mark_on_center;
            assert(keys_coords(ck).contains(site_mark(cells, sites[k])));
        }
        let ctx = finish_context(
            input,
            &board,
            tp.types,
            tp.sizes,
            placements,
            total_black,
            total_white,
            adj_list,
        );
        Ok(ctx)
    }
}

proof fn lemma_id_present(pieces: Seq<PieceInstanceJson>, id: Seq<char>, n: int)
    requires
        0 <= n <= pieces.len(),
        id_count(pieces, id, n) >= 1,
    ensures
        exists|i: int| 0 <= i < n && pieces[i].def_id@ == id,
    decreases n,
{
    if n > 0 && pieces[n - 1].def_id@ != id {
        lemma_id_present(pieces, id, n - 1);
    }
}

proof fn lemma_cells_sum_monotone(sizes: Seq<u8>, counts: Seq<u16>, a: int, b: int)
    requires
        0 <= a <= b <= sizes.len(),
        b <= counts.len(),
    ensures
        cells_sum(sizes, counts, a) <= cells_sum(sizes, counts, b),
        0 <= cells_sum(sizes, counts, a),
    decreases b,
{
    if a < b {
        lemma_cells_sum_monotone(sizes, counts, a, b - 1);
        assert(sizes[b - 1] as int * counts[b - 1] as int >= 0) by (nonlinear_arith);
    } else if b > 0 {
        lemma_cells_sum_monotone(sizes, counts, a - 1, b - 1);
        assert(sizes[b - 1] as int * counts[b - 1] as int >= 0) by (nonlinear_arith);
    }
}

proof fn lemma_id_count_sum_counts(pieces: Seq<PieceInstanceJson>, ids: Seq<Seq<char>>, counts: Seq<u16>, m: int)
    requires
        0 <= m <= ids.len(),
        m <= counts.len(),
        forall|t: int| 0 <= t < m ==> #[trigger] counts[t] as int == id_count(pieces, ids[t], pieces.len() as int),
    ensures
        count_sum(counts, m) == id_count_sum(pieces, ids, pieces.len() as int, m),
    decreases m,
{
    if m > 0 {
        lemma_id_count_sum_counts(pieces, ids, counts, m - 1);
        assert(counts[m - 1] as int == id_count(pieces, ids[m - 1], pieces.len() as int));
    }
}

/// Number of the first `k` types that still have instances and have a
/// placement that lands a mark on the center region.
pub open spec fn cm_types(remaining: Seq<u16>, cmc: Seq<u16>, k: int) -> int
    decreases k,
{
    if k <= 0 {
        0
    } else {
        cm_types(remaining, cmc, k - 1) + if remaining[k - 1] > 0 && cmc[k - 1] > 0 {
            1int
        } else {
            0int
        }
    }
}

pub proof fn lemma_cm_types_bound(remaining: Seq<u16>, cmc: Seq<u16>, k: int)
    requires
        0 <= k,
    ensures
        0 <= cm_types(remaining, cmc, k) <= k,
    decreases k,
{
    if k > 0 {
        lemma_cm_types_bound(remaining, cmc, k - 1);
    }
}

impl SolveContext {
    /// Computes the initial value of `center_mark_type_remaining`: the
    /// number of types with instances and a center-marking placement.
    pub fn initial_center_mark_type_remaining(&self) -> (r: u16)
        requires
            self.wf(),
        ensures
            r as int == cm_types(self.type_counts@, self.center_mark_counts@, self.type_ids@.len() as int),
    {
        let nt = self.type_ids.len();
        let mut count: u16 = 0;
        let mut t: usize = 0;
        while t < nt
            invariant
                self.wf(),
                nt == self.type_ids@.len(),
                t <= nt,
                count as int == cm_types(self.type_counts@, self.center_mark_counts@, t as int),
            decreases nt - t,
        {
            proof {
                lemma_cm_types_bound(self.type_counts@, self.center_mark_counts@, t as int);
            }
            if self.type_counts[t] > 0 && self.center_mark_counts[t] > 0 {
                count = count + 1;
            }
            t = t + 1;
        }
        count
    }
}

/// The black cells among the first `k` cells of the list.
pub open spec fn black_prefix(cells: Seq<Coord>, k: int) -> Set<int> {
    Set::new(|i: int| 0 <= i < k && color_of(cells[i]) == 0)
}

proof fn lemma_black_cells_set(cells: Seq<Coord>, k: int)
    requires
        0 <= k <= cells.len(),
    ensures
        black_prefix(cells, k).finite(),
        black_cells(cells, k) == black_prefix(cells, k).len(),
    decreases k,
{
    if k == 0 {
        assert(black_prefix(cells, k) =~= Set::<int>::empty());
    } else {
        lemma_black_cells_set(cells, k - 1);
        if color_of(cells[k - 1]) == 0 {
            assert(black_prefix(cells, k) =~= black_prefix(cells, k - 1).insert(k - 1));
        } else {
            assert(black_prefix(cells, k) =~= black_prefix(cells, k - 1));
        }
    }
}

proof fn lemma_black_count_set(colors: Seq<u8>, idx: Seq<u16>, b: Set<int>)
    requires
        idx.no_duplicates(),
        forall|k: int| 0 <= k < idx.len() ==> (#[trigger] idx[k]) < colors.len(),
        forall|i: int| #[trigger] b.contains(i) <==> 0 <= i < colors.len() && colors[i] == 0,
    ensures
        index_set(idx).intersect(b).finite(),
        black_count(colors, idx) == index_set(idx).intersect(b).len(),
    decreases idx.len(),
{
    if idx.len() == 0 {
        assert(index_set(idx).intersect(b) =~= Set::<int>::empty());
    } else {
        let d = idx.drop_last();
        assert(d.no_duplicates());
        lemma_black_count_set(colors, d, b);
        let l = idx.last() as int;
        assert(index_set(idx) =~= index_set(d).insert(l)) by {
            assert forall|i: int| #[trigger] index_set(idx).contains(i) == index_set(d).insert(l).contains(i) by {
                if index_set(d).contains(i) {
                    let k = choose|k: int| 0 <= k < d.len() && d[k] as int == i;
                    assert(idx[k] == d[k]);
                }
                if index_set(idx).contains(i) && i != l {
                    let k = choose|k: int| 0 <= k < idx.len() && idx[k] as int == i;
                    assert(k < d.len());
                    assert(d[k] == idx[k]);
                }
                if i == l {
                    assert(idx[idx.len() - 1] as int == i);
                }
            }
        }
        assert(!index_set(d).contains(l)) by {
            if index_set(d).contains(l) {
                let k = choose|k: int| 0 <= k < d.len() && d[k] as int == l;
                assert(idx[k] == idx[idx.len() - 1]);
            }
        }
        assert(idx[idx.len() - 1] < colors.len());
        if colors[l] == 0 {
            assert(index_set(idx).intersect(b) =~= index_set(d).intersect(b).insert(l));
        } else {
            assert(index_set(idx).intersect(b) =~= index_set(d).intersect(b));
        }
    }
}

proof fn lemma_min_max_black(pls: Seq<Placement>, t: int, k: int, p: int)
    requires
        0 <= p < k <= pls.len(),
        pls[p].type_idx as int == t,
    ensures
        min_black(pls, t, k) <= pls[p].b_count <= max_black(pls, t, k),
    decreases k,
{
    if p < k - 1 {
        lemma_min_max_black(pls, t, k - 1, p);
    }
}

/// A context set up for an input that passes the setup checks holds the
/// facts the parity check relies on.
pub proof fn lemma_parity_facts(ctx: SolveContext, input: ExactCoverInput)
    requires
        ctx.wf(),
        ctx.describes(input),
        input_ok(input),
        missing_type(input) is None,
        piece_cells(input) == input.target_cells@.len(),
    ensures
        parity_facts(ctx),
{
    reveal(SolveContext::describes);
    let cells = keys_coords(input.target_cells@);
    let n = cells.len() as int;
    let ids = input_types(input);
    let nt = ids.len() as int;
    let defs = defs_map_spec(input.common.piece_defs@);
    let pieces = input.common.pieces@;
    let pls = ctx.placements@;
    let np = pls.len() as int;
    let board = choose|board: BoardLayout|
        board.wf() && board.cells@ == cells && board.center_cells@ == keys_coords(input.common.center_cells@)
            && placements_match(pls, board, input_sites(input));
    let sites = input_sites(input);
    let instances = input_instances(input);
    lemma_distinct_ids(pieces, pieces.len() as int);
    lemma_all_sites(cells, defs, instances, instances.len() as int);
    // Every type has at least one cell.
    assert forall|t: int| 0 <= t < nt implies #[trigger] ctx.size_of_type@[t] >= 1 by {
        lemma_id_present(pieces, ids[t], pieces.len() as int);
        let i = choose|i: int| 0 <= i < pieces.len() && pieces[i].def_id@ == ids[t];
        assert(defs.contains_key(ids[t]));
        assert(def_solvable(defs[pieces[i].def_id@]));
    }
    // Each placement has the cells of its type and a black count within
    // its type's bounds.
    assert forall|p: int| 0 <= p < np implies (#[trigger] pls[p]).cell_indices@.len()
        == ctx.size_of_type@[pls[p].type_idx as int] && ctx.type_min_black@[pls[p].type_idx as int]
        <= pls[p].b_count <= ctx.type_max_black@[pls[p].type_idx as int] by {
        let st = sites[p];
        assert(is_placement_at(pls[p], board, st.0, st.1, st.2));
        let (i, j) = choose|i: int, j: int|
            0 <= i < instances.len() && 0 <= j < crate::domain::enumerate::def_variants(
                defs[instances[i].def_id@],
            ).len() && st.0 == instances[i].type_idx && st.1 == crate::domain::enumerate::def_variants(
                defs[instances[i].def_id@],
            )[j] && 0 <= st.2 < cells.len() && crate::domain::enumerate::fits(cells, st.1.0, st.2);
        let id = pieces[i].def_id@;
        assert(ids.contains(id));
        let t = position_of(ids, id);
        assert(ids[t] == id);
        assert(defs.contains_key(id));
        assert(def_solvable(defs[id]));
        let d = defs[id];
        crate::domain::piece::lemma_variant_shape(d.1, d.2 as int, 8);
        assert(st.1.0.len() == d.1.len());
        assert(pls[p].type_idx as int == t);
        ctx.lemma_placement(p);
        assert(ctx.type_min_black@[t] == min_black(pls, t, np));
        lemma_min_max_black(pls, t, np, p);
    }
    // The black cells.
    let b = black_prefix(cells, n);
    lemma_black_cells_set(cells, n);
    assert forall|i: int| #[trigger] b.contains(i) <==> 0 <= i < board.cell_color@.len() && board.cell_color@[i] == 0 by {}
    assert forall|p: int| 0 <= p < np implies (#[trigger] pls[p]).b_count == pls[p].bits@.intersect(b).len() by {
        let st = sites[p];
        assert(is_placement_at(pls[p], board, st.0, st.1, st.2));
        ctx.lemma_placement(p);
        lemma_black_count_set(board.cell_color@, pls[p].cell_indices@, b);
    }
    assert(b.subset_of(set_int_range(0, n)));
    assert(black_set(ctx, b));
}

/// Every piece names a definition whose cells are connected, one row or
/// one column at each step.
pub open spec fn shapes_connected(input: ExactCoverInput) -> bool {
    let pieces = input.common.pieces@;
    let defs = defs_map_spec(input.common.piece_defs@);
    forall|i: int|
        0 <= i < pieces.len() && defs.contains_key(#[trigger] pieces[i].def_id@) ==> cells_connected(
            defs[pieces[i].def_id@].1,
        )
}

/// Board cells at points one row or one column apart are joined in the
/// adjacency list.
proof fn lemma_unit_step_edge(
    adj: Seq<Vec<u16>>,
    cells: Seq<Coord>,
    p: (int, int),
    q: (int, int),
    u: int,
    v: int,
)
    requires
        board_index(cells, p) == Some(u),
        board_index(cells, q) == Some(v),
        unit_apart(p, q),
        adj.len() >= cells.len(),
        forall|i: int| 0 <= i < cells.len() ==> (#[trigger] adj[i])@ == adjacent_entries(cells, cells[i], 4),
    ensures
        has_edge(adj, u, v),
{
    crate::domain::enumerate::lemma_last_index_bound(cells, (p.0 as i8, p.1 as i8));
    let c = cells[u];
    assert(c.0 as int == p.0 && c.1 as int == p.1);
    let d: int = if q == (p.0 - 1, p.1) {
        0
    } else if q == (p.0 + 1, p.1) {
        1
    } else if q == (p.0, p.1 - 1) {
        2
    } else {
        3
    };
    assert(step(c, d) == q);
    lemma_adjacent_entries_has(cells, c, 4, d, v);
    assert(adj[u]@ == adjacent_entries(cells, cells[u], 4));
}

/// A placement of a connected variant is connected along the board's
/// adjacency.
proof fn lemma_placement_walks(ctx: SolveContext, board: BoardLayout, p: int, t: u16, v: (Seq<Coord>, Coord), a: int)
    requires
        0 <= p < ctx.placements@.len(),
        is_placement_at(ctx.placements@[p], board, t, v, a),
        cells_connected(v.0),
        ctx.adj_list@.len() >= board.cells@.len(),
        forall|i: int|
            0 <= i < board.cells@.len() ==> (#[trigger] ctx.adj_list@[i])@ == adjacent_entries(
                board.cells@,
                board.cells@[i],
                4,
            ),
    ensures
        placement_connected(ctx, p),
{
    let pl = ctx.placements@[p];
    let cells = board.cells@;
    let adj = ctx.adj_list@;
    let off = anchor_offset(cells, v.0, a);
    let bits = pl.bits@;
    let idx = |c: Coord|
        match board_index(cells, shifted(c, off)) {
            Some(i) => i,
            None => -1int,
        };
    assert forall|x: int, y: int|
        #![trigger bits.contains(x), bits.contains(y)]
        bits.contains(x) && bits.contains(y) implies exists|w: Seq<int>|
            #[trigger] w.len() > 0 && w[0] == x && w.last() == y && (forall|i: int|
                0 <= i < w.len() ==> bits.contains(#[trigger] w[i])) && (forall|i: int|
                0 <= i < w.len() - 1 ==> has_edge(adj, #[trigger] w[i], w[i + 1])) by {
        let i = choose|k: int| 0 <= k < pl.cell_indices@.len() && pl.cell_indices@[k] as int == x;
        let j = choose|k: int| 0 <= k < pl.cell_indices@.len() && pl.cell_indices@[k] as int == y;
        assert(board_index(cells, shifted(v.0[i], off)) == Some(pl.cell_indices@[i] as int));
        assert(board_index(cells, shifted(v.0[j], off)) == Some(pl.cell_indices@[j] as int));
        assert(v.0.contains(v.0[i]) && v.0.contains(v.0[j]));
        let w = choose|w: Seq<Coord>| walk_within(w, v.0) && w[0] == v.0[i] && w.last() == v.0[j];
        let w2 = w.map_values(idx);
        assert forall|m: int| 0 <= m < w2.len() implies bits.contains(#[trigger] w2[m]) && board_index(
            cells,
            shifted(w[m], off),
        ) == Some(w2[m]) by {
            assert(v.0.contains(w[m]));
            let q = choose|q: int| 0 <= q < v.0.len() && v.0[q] == w[m];
            assert(board_index(cells, shifted(v.0[q], off)) == Some(pl.cell_indices@[q] as int));
            assert(bits.contains(pl.cell_indices@[q] as int));
        }
        assert forall|m: int| 0 <= m < w2.len() - 1 implies has_edge(adj, #[trigger] w2[m], w2[m + 1]) by {
            assert(bits.contains(w2[m]) && bits.contains(w2[m + 1]));
            assert(unit_apart(pt(w[m]), pt(w[m + 1])));
            lemma_unit_step_edge(adj, cells, shifted(w[m], off), shifted(w[m + 1], off), w2[m], w2[m + 1]);
        }
        assert(bits.contains(w2[0]));
        assert(w2[0] == x && w2.last() == y);
    }
}

/// Where every piece's shape is connected, the cells of every placement
/// are connected along the board's adjacency.
pub proof fn lemma_placements_connected(ctx: SolveContext, input: ExactCoverInput)
    requires
        ctx.wf(),
        ctx.describes(input),
        input_ok(input),
        missing_type(input) is None,
        piece_cells(input) == input.target_cells@.len(),
        shapes_connected(input),
    ensures
        placements_connected(ctx),
{
    reveal(SolveContext::describes);
    let cells = keys_coords(input.target_cells@);
    let ids = input_types(input);
    let defs = defs_map_spec(input.common.piece_defs@);
    let pieces = input.common.pieces@;
    let pls = ctx.placements@;
    let np = pls.len() as int;
    let board = choose|board: BoardLayout|
        board.wf() && board.cells@ == cells && board.center_cells@ == keys_coords(input.common.center_cells@)
            && placements_match(pls, board, input_sites(input));
    let sites = input_sites(input);
    let instances = input_instances(input);
    lemma_distinct_ids(pieces, pieces.len() as int);
    lemma_all_sites(cells, defs, instances, instances.len() as int);
    assert forall|p: int| 0 <= p < np implies #[trigger] placement_connected(ctx, p) by {
        let st = sites[p];
        assert(is_placement_at(pls[p], board, st.0, st.1, st.2));
        let (i, j) = choose|i: int, j: int|
            0 <= i < instances.len() && 0 <= j < crate::domain::enumerate::def_variants(
                defs[instances[i].def_id@],
            ).len() && st.0 == instances[i].type_idx && st.1 == crate::domain::enumerate::def_variants(
                defs[instances[i].def_id@],
            )[j] && 0 <= st.2 < cells.len() && crate::domain::enumerate::fits(cells, st.1.0, st.2);
        let id = pieces[i].def_id@;
        assert(ids.contains(id));
        assert(defs.contains_key(id));
        assert(def_solvable(defs[id]));
        assert(cells_connected(defs[pieces[i].def_id@].1));
        let d = defs[id];
        crate::domain::walks::lemma_variants_connected(d.1, d.1[d.2 as int], 8);
        assert(cells_connected(st.1.0));
        lemma_placement_walks(ctx, board, p, st.0, st.1, st.2);
    }
}

/// A context built from an input whose piece shapes are connected meets
/// the conditions under which a search that neither finds a solution nor
/// runs out of budget nor is cancelled shows that none exists.
pub proof fn lemma_search_complete_for(ctx: SolveContext, input: ExactCoverInput)
    requires
        ctx.wf(),
        ctx.describes(input),
        input_ok(input),
        missing_type(input) is None,
        piece_cells(input) == input.target_cells@.len(),
        shapes_connected(input),
    ensures
        search_complete_for(ctx),
{
    lemma_parity_facts(ctx, input);
    lemma_placements_connected(ctx, input);
    lemma_symmetric_when_solved(ctx, input);
}

proof fn lemma_adjacent_entries_has(board: Seq<Coord>, p: Coord, d: int, e: int, i: int)
    requires
        0 <= e < d,
        board_index(board, step(p, e)) == Some(i),
    ensures
        adjacent_entries(board, p, d).contains(i as u16),
    decreases d,
{
    let prev = adjacent_entries(board, p, d - 1);
    if e < d - 1 {
        lemma_adjacent_entries_has(board, p, d - 1, e, i);
        let k = choose|k: int| 0 <= k < prev.len() && prev[k] == i as u16;
        match board_index(board, step(p, d - 1)) {
            Some(j) => {
                assert(adjacent_entries(board, p, d)[k] == prev[k]);
            },
            None => {},
        }
    } else {
        assert(adjacent_entries(board, p, d) == prev.push(i as u16));
        assert(adjacent_entries(board, p, d)[prev.len() as int] == i as u16);
    }
}

proof fn lemma_adjacent_entries_from(board: Seq<Coord>, p: Coord, d: int, v: u16)
    requires
        0 <= d,
        board.len() <= u16::MAX,
        adjacent_entries(board, p, d).contains(v),
    ensures
        exists|e: int, i: int| 0 <= e < d && board_index(board, step(p, e)) == Some(i) && i == v as int,
    decreases d,
{
    let prev = adjacent_entries(board, p, d - 1);
    let cur = adjacent_entries(board, p, d);
    let k = choose|k: int| 0 <= k < cur.len() && cur[k] == v;
    match board_index(board, step(p, d - 1)) {
        Some(j) => {
            crate::domain::enumerate::lemma_board_index_bound(board, step(p, d - 1));
            if k < prev.len() {
                assert(prev[k] == v);
                lemma_adjacent_entries_from(board, p, d - 1, v);
            } else {
                assert(j as u16 == v);
            }
        },
        None => {
            assert(prev[k] == v);
            lemma_adjacent_entries_from(board, p, d - 1, v);
        },
    }
}

/// When some placement sequence solves the puzzle, every board cell is the
/// last one with its coordinates, and edges between board cells go both
/// ways.
pub proof fn lemma_symmetric_when_solved(ctx: SolveContext, input: ExactCoverInput)
    requires
        ctx.wf(),
        ctx.describes(input),
    ensures
        forall|r: Seq<usize>| #[trigger] solved(ctx, r) ==> adjacency_symmetric(ctx),
{
    reveal(SolveContext::describes);
    let cells = keys_coords(input.target_cells@);
    let n = cells.len() as int;
    let pls = ctx.placements@;
    let board = choose|board: BoardLayout|
        board.wf() && board.cells@ == cells && board.center_cells@ == keys_coords(input.common.center_cells@)
            && placements_match(pls, board, input_sites(input));
    let sites = input_sites(input);
    assert forall|r: Seq<usize>| #[trigger] solved(ctx, r) implies adjacency_symmetric(ctx) by {
        crate::solver::search::lemma_model_facts(ctx, r);
        crate::solver::search::lemma_cover_union(ctx, r);
        // Every board cell is the last with its coordinates.
        assert forall|i: int| 0 <= i < n implies last_index(cells, #[trigger] cells[i]) == Some(i) by {
            crate::solver::search::lemma_solved_covers(ctx, r, i);
            let k = choose|k: int| 0 <= k < r.len() && ctx.placements@[r[k] as int].bits@.contains(i);
            let p = r[k] as int;
            let pl = pls[p];
            ctx.lemma_placement(p);
            let j = choose|j: int| 0 <= j < pl.cell_indices@.len() && pl.cell_indices@[j] as int == i;
            let st = sites[p];
            assert(is_placement_at(pl, board, st.0, st.1, st.2));
            let off = anchor_offset(cells, st.1.0, st.2);
            let q = shifted(st.1.0[j], off);
            assert(board_index(cells, q) == Some(i));
            crate::domain::enumerate::lemma_board_index_bound(cells, q);
        }
        assert forall|x: int, y: int|
            0 <= x < ctx.total_cells && 0 <= y < ctx.total_cells && has_edge(ctx.adj_list@, x, y) implies has_edge(
            ctx.adj_list@,
            y,
            x,
        ) by {
            assert(ctx.adj_list@[x]@ == adjacent_entries(cells, cells[x], 4));
            assert(ctx.adj_list@[y]@ == adjacent_entries(cells, cells[y], 4));
            lemma_adjacent_entries_from(cells, cells[x], 4, y as u16);
            let (e, i) = choose|e: int, i: int|
                0 <= e < 4 && board_index(cells, step(cells[x], e)) == Some(i) && i == (y as u16) as int;
            crate::domain::enumerate::lemma_board_index_bound(cells, step(cells[x], e));
            assert(i == y);
            let back = if e == 0 {
                1int
            } else if e == 1 {
                0int
            } else if e == 2 {
                3int
            } else {
                2int
            };
            assert(step(cells[y], back) == (cells[x].0 as int, cells[x].1 as int));
            assert(last_index(cells, cells[x]) == Some(x));
            assert(board_index(cells, step(cells[y], back)) == Some(x));
            lemma_adjacent_entries_has(cells, cells[y], 4, back, x);
        }
    }
}

} // verus!
