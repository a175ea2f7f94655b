//! The fixed MapleStory Union board: 20 rows of 22 cells, split into 8
//! outer and 8 inner groups, with four center cells.

use vstd::prelude::*;

use crate::domain::piece::Coord;
use crate::text::str_chars;

verus! {

/// Rows of the board.
pub const BOARD_HEIGHT: i8 = 20;

/// Columns of the board.
pub const BOARD_WIDTH: i8 = 22;

/// Cells of the board.
pub const BOARD_CELLS: usize = 440;

/// Row `r` of the group map: digits `0`-`7` name the outer groups 1-8 and
/// letters `A`-`H` the inner groups 1-8.
pub open spec fn map_row(r: int) -> Seq<char> {
    if r == 0 {
        "0111111111122222222223"@
    } else if r == 1 {
        "0011111111122222222233"@
    } else if r == 2 {
        "0001111111122222222333"@
    } else if r == 3 {
        "0000111111122222223333"@
    } else if r == 4 {
        "0000011111122222233333"@
    } else if r == 5 {
        "00000ABBBBBCCCCCD33333"@
    } else if r == 6 {
        "00000AABBBBCCCCDD33333"@
    } else if r == 7 {
        "00000AAABBBCCCDDD33333"@
    } else if r == 8 {
        "00000AAAABBCCDDDD33333"@
    } else if r == 9 {
        "00000AAAAABCDDDDD33333"@
    } else if r == 10 {
        "44444EEEEEFGHHHHH55555"@
    } else if r == 11 {
        "44444EEEEFFGGHHHH55555"@
    } else if r == 12 {
        "44444EEEFFFGGGHHH55555"@
    } else if r == 13 {
        "44444EEFFFFGGGGHH55555"@
    } else if r == 14 {
        "44444EFFFFFGGGGGH55555"@
    } else if r == 15 {
        "4444466666677777755555"@
    } else if r == 16 {
        "4444666666677777775555"@
    } else if r == 17 {
        "4446666666677777777555"@
    } else if r == 18 {
        "4466666666677777777755"@
    } else {
        "4666666666677777777775"@
    }
}

fn map_row_text(r: usize) -> (s: &'static str)
    requires
        r < 20,
    ensures
        s@ == map_row(r as int),
{
    if r == 0 {
        "0111111111122222222223"
    } else if r == 1 {
        "0011111111122222222233"
    } else if r == 2 {
        "0001111111122222222333"
    } else if r == 3 {
        "0000111111122222223333"
    } else if r == 4 {
        "0000011111122222233333"
    } else if r == 5 {
        "00000ABBBBBCCCCCD33333"
    } else if r == 6 {
        "00000AABBBBCCCCDD33333"
    } else if r == 7 {
        "00000AAABBBCCCDDD33333"
    } else if r == 8 {
        "00000AAAABBCCDDDD33333"
    } else if r == 9 {
        "00000AAAAABCDDDDD33333"
    } else if r == 10 {
        "44444EEEEEFGHHHHH55555"
    } else if r == 11 {
        "44444EEEEFFGGHHHH55555"
    } else if r == 12 {
        "44444EEEFFFGGGHHH55555"
    } else if r == 13 {
        "44444EEFFFFGGGGHH55555"
    } else if r == 14 {
        "44444EFFFFFGGGGGH55555"
    } else if r == 15 {
        "4444466666677777755555"
    } else if r == 16 {
        "4444666666677777775555"
    } else if r == 17 {
        "4446666666677777777555"
    } else if r == 18 {
        "4466666666677777777755"
    } else {
        "4666666666677777777775"
    }
}

/// `ch` names a group.
pub open spec fn group_char(ch: char) -> bool {
    ('0' <= ch <= '7') || ('A' <= ch <= 'H')
}

/// Each row of the map has 22 characters, each naming a group.
proof fn lemma_map_cell(r: int, c: int)
    requires
        0 <= r < 20,
        0 <= c < 22,
    ensures
        map_row(r).len() == 22,
        group_char(map_row(r)[c]),
{
    reveal_strlit("0111111111122222222223");
    reveal_strlit("0011111111122222222233");
    reveal_strlit("0001111111122222222333");
    reveal_strlit("0000111111122222223333");
    reveal_strlit("0000011111122222233333");
    reveal_strlit("00000ABBBBBCCCCCD33333");
    reveal_strlit("00000AABBBBCCCCDD33333");
    reveal_strlit("00000AAABBBCCCDDD33333");
    reveal_strlit("00000AAAABBCCDDDD33333");
    reveal_strlit("00000AAAAABCDDDDD33333");
    reveal_strlit("44444EEEEEFGHHHHH55555");
    reveal_strlit("44444EEEEFFGGHHHH55555");
    reveal_strlit("44444EEEFFFGGGHHH55555");
    reveal_strlit("44444EEFFFFGGGGHH55555");
    reveal_strlit("44444EFFFFFGGGGGH55555");
    reveal_strlit("4444466666677777755555");
    reveal_strlit("4444666666677777775555");
    reveal_strlit("4446666666677777777555");
    reveal_strlit("4466666666677777777755");
    reveal_strlit("4666666666677777777775");
}

/// One of the 16 board groups.
#[derive(Clone, Copy, Debug, PartialEq, Eq, Hash, Structural)]
pub enum GroupId {
    Outer(u8),
    Inner(u8),
}

impl GroupId {
    /// The group is an outer one.
    pub fn is_outer(self) -> (r: bool)
        ensures
            r == (self is Outer),
    {
        matches!(self, GroupId::Outer(_))
    }
}

/// The group a map character names: `0`-`7` the outer groups 1-8, `A`-`H`
/// the inner groups 1-8.
pub open spec fn group_of_char(ch: char) -> GroupId {
    if '0' <= ch <= '7' {
        GroupId::Outer((ch as int - '0' as int + 1) as u8)
    } else {
        GroupId::Inner((ch as int - 'A' as int + 1) as u8)
    }
}

fn group_from_char(ch: char) -> (g: GroupId)
    requires
        group_char(ch),
    ensures
        g == group_of_char(ch),
{
    let code = ch as u32;
    if '0' <= ch && ch <= '7' {
        GroupId::Outer((code - 48) as u8 + 1)
    } else {
        GroupId::Inner((code - 65) as u8 + 1)
    }
}

/// The `k`-th group in board order: outer 1-8, then inner 1-8.
pub open spec fn group_at(k: int) -> GroupId {
    if k < 8 {
        GroupId::Outer((k + 1) as u8)
    } else {
        GroupId::Inner((k - 7) as u8)
    }
}

/// The `i`-th board cell in row-major order.
pub open spec fn grid_cell(i: int) -> Coord {
    ((i / 22) as i8, (i % 22) as i8)
}

/// The group of the `i`-th board cell in row-major order.
pub open spec fn grid_group(i: int) -> GroupId {
    group_of_char(map_row(i / 22)[i % 22])
}

/// The cells of group `id` among the first `n` board cells, in row-major
/// order.
pub open spec fn group_cells_upto(id: GroupId, n: int) -> Seq<Coord>
    decreases n,
{
    if n <= 0 {
        Seq::empty()
    } else {
        let prev = group_cells_upto(id, n - 1);
        if grid_group(n - 1) == id {
            prev.push(grid_cell(n - 1))
        } else {
            prev
        }
    }
}

/// The four center cells.
pub open spec fn center_seq() -> Seq<Coord> {
    seq![(9i8, 10i8), (9i8, 11i8), (10i8, 10i8), (10i8, 11i8)]
}

/// The cell is one of the four center cells.
pub open spec fn is_center(p: Coord) -> bool {
    (p.0 == 9 || p.0 == 10) && (p.1 == 10 || p.1 == 11)
}

/// One of the 16 groups: its cells in row-major order, and whether one of
/// them is a center cell.
pub struct Group {
    pub id: GroupId,
    pub cells: Vec<Coord>,
    pub contains_center: bool,
}

/// The board: all cells in row-major order, the center cells, and the
/// groups in board order.
pub struct UnionBoard {
    pub all_cells: Vec<Coord>,
    pub center_cells: Vec<Coord>,
    pub groups: Vec<Group>,
}

/// The groups of `gs` among the first `n` that are outer (`outer`) or
/// inner (`!outer`), in order.
pub open spec fn select_groups(gs: Seq<Group>, outer: bool, n: int) -> Seq<Group>
    decreases n,
{
    if n <= 0 {
        Seq::empty()
    } else {
        let prev = select_groups(gs, outer, n - 1);
        if (gs[n - 1].id is Outer) == outer {
            prev.push(gs[n - 1])
        } else {
            prev
        }
    }
}

/// The cells of group `id`, read from the map rows.
fn collect_group(rows: &Vec<Vec<char>>, id: GroupId) -> (g: Group)
    requires
        rows@.len() == 20,
        forall|r: int| 0 <= r < 20 ==> (#[trigger] rows@[r])@ == map_row(r),
    ensures
        g.id == id,
        g.cells@ == group_cells_upto(id, 440),
        g.contains_center == exists|j: int| 0 <= j < g.cells@.len() && is_center(#[trigger] g.cells@[j]),
{
    let mut cells: Vec<Coord> = Vec::new();
    let mut contains_center = false;
    let mut i: usize = 0;
    while i < BOARD_CELLS
        invariant
            i <= BOARD_CELLS,
            rows@.len() == 20,
            forall|r: int| 0 <= r < 20 ==> (#[trigger] rows@[r])@ == map_row(r),
            cells@ == group_cells_upto(id, i as int),
            contains_center == exists|j: int| 0 <= j < cells@.len() && is_center(#[trigger] cells@[j]),
        decreases BOARD_CELLS - i,
    {
        let r = i / 22;
        let c = i % 22;
        assert(rows@[r as int]@ == map_row(r as int));
        proof {
            lemma_map_cell(r as int, c as int);
        }
        let ch = rows[r][c];
        let g = group_from_char(ch);
        if g == id {
            let p: Coord = (r as i8, c as i8);
            let ghost before = cells@;
            cells.push(p);
            if (p.0 == 9 || p.0 == 10) && (p.1 == 10 || p.1 == 11) {
                contains_center = true;
            }
            proof {
                assert(cells@[cells@.len() - 1] == p);
                if contains_center {
                    if !is_center(p) {
                        let j = choose|j: int| 0 <= j < before.len() && is_center(#[trigger] before[j]);
                        assert(cells@[j] == before[j]);
                    }
                } else {
                    assert forall|j: int| 0 <= j < cells@.len() implies !is_center(#[trigger] cells@[j]) by {
                        if j < before.len() {
                            assert(cells@[j] == before[j]);
                        }
                    }
                }
            }
        }
        i = i + 1;
    }
    Group { id, cells, contains_center }
}

/// The board as [`UnionBoard::new`] reads it from the group map: all
/// 440 cells in row-major order, the four center cells, and the 16 groups
/// in board order, each with its cells in row-major order.
pub open spec fn standard_board(b: UnionBoard) -> bool {
    &&& b.all_cells@ == Seq::new(440, |i: int| grid_cell(i))
    &&& b.center_cells@ == center_seq()
    &&& b.groups@.len() == 16
    &&& forall|k: int|
        0 <= k < 16 ==> {
            let g = #[trigger] b.groups@[k];
            &&& g.id == group_at(k)
            &&& g.cells@ == group_cells_upto(group_at(k), 440)
            &&& g.contains_center == exists|j: int|
                0 <= j < g.cells@.len() && is_center(#[trigger] g.cells@[j])
        }
}

impl UnionBoard {
    /// Reads the group map into the board layout: each group holds
    /// exactly the board cells that its position on the board gives it
    /// ([`union_group`]).
    pub fn new() -> (b: Self)
        ensures
            standard_board(b),
            forall|k: int, p: Coord|
                0 <= k < 16 ==> ((#[trigger] b.groups@[k].cells@.contains(p)) <==> in_grid(p) && union_group(
                    p.0 as int,
                    p.1 as int,
                ) == group_at(k)),
    {
        let mut rows: Vec<Vec<char>> = Vec::new();
        let mut r: usize = 0;
        while r < 20
            invariant
                r <= 20,
                rows@.len() == r,
                forall|k: int| 0 <= k < r ==> (#[trigger] rows@[k])@ == map_row(k),
            decreases 20 - r,
        {
            rows.push(str_chars(map_row_text(r)));
            r = r + 1;
        }
        let mut all_cells: Vec<Coord> = Vec::new();
        let mut i: usize = 0;
        while i < BOARD_CELLS
            invariant
                i <= BOARD_CELLS,
                all_cells@ == Seq::new(i as nat, |k: int| grid_cell(k)),
            decreases BOARD_CELLS - i,
        {
            all_cells.push(((i / 22) as i8, (i % 22) as i8));
            i = i + 1;
            assert(all_cells@ =~= Seq::new(i as nat, |k: int| grid_cell(k)));
        }
        let mut center_cells: Vec<Coord> = Vec::new();
        center_cells.push((9, 10));
        center_cells.push((9, 11));
        center_cells.push((10, 10));
        center_cells.push((10, 11));
        assert(center_cells@ =~= center_seq());
        let mut groups: Vec<Group> = Vec::new();
        let mut k: u8 = 0;
        while k < 16
            invariant
                k <= 16,
                rows@.len() == 20,
                forall|r: int| 0 <= r < 20 ==> (#[trigger] rows@[r])@ == map_row(r),
                groups@.len() == k,
                forall|j: int|
                    0 <= j < k ==> {
                        let g = #[trigger] groups@[j];
                        &&& g.id == group_at(j)
                        &&& g.cells@ == group_cells_upto(group_at(j), 440)
                        &&& g.contains_center == exists|t: int|
                            0 <= t < g.cells@.len() && is_center(#[trigger] g.cells@[t])
                    },
            decreases 16 - k,
        {
            let id = if k < 8 {
                GroupId::Outer(k + 1)
            } else {
                GroupId::Inner(k - 7)
            };
            let g = collect_group(&rows, id);
            groups.push(g);
            k = k + 1;
        }
        let b = UnionBoard { all_cells, center_cells, groups };
        assert(standard_board(b));
        proof {
            lemma_board_layout(b);
        }
        b
    }

    fn select(&self, outer: bool) -> (r: Vec<&Group>)
        ensures
            r@.len() == select_groups(self.groups@, outer, self.groups@.len() as int).len(),
            forall|j: int|
                0 <= j < r@.len() ==> *r@[j] == select_groups(
                    self.groups@,
                    outer,
                    self.groups@.len() as int,
                )[j],
    {
        let mut r: Vec<&Group> = Vec::new();
        let mut i: usize = 0;
        while i < self.groups.len()
            invariant
                i <= self.groups@.len(),
                r@.len() == select_groups(self.groups@, outer, i as int).len(),
                forall|j: int|
                    0 <= j < r@.len() ==> *r@[j] == select_groups(self.groups@, outer, i as int)[j],
            decreases self.groups.len() - i,
        {
            let g = &self.groups[i];
            if g.id.is_outer() == outer {
                r.push(g);
            }
            i = i + 1;
        }
        r
    }

    /// The outer groups, in board order.
    pub fn outer_groups(&self) -> (r: Vec<&Group>)
        ensures
            r@.len() == select_groups(self.groups@, true, self.groups@.len() as int).len(),
            forall|j: int|
                0 <= j < r@.len() ==> *r@[j] == select_groups(
                    self.groups@,
                    true,
                    self.groups@.len() as int,
                )[j],
    {
        self.select(true)
    }

    /// The inner groups, in board order.
    pub fn inner_groups(&self) -> (r: Vec<&Group>)
        ensures
            r@.len() == select_groups(self.groups@, false, self.groups@.len() as int).len(),
            forall|j: int|
                0 <= j < r@.len() ==> *r@[j] == select_groups(
                    self.groups@,
                    false,
                    self.groups@.len() as int,
                )[j],
    {
        self.select(false)
    }
}


/// The cell lies on the 20 x 22 board.
pub open spec fn in_grid(p: Coord) -> bool {
    0 <= p.0 < 20 && 0 <= p.1 < 22
}

/// Row-major index of a cell.
pub open spec fn grid_index(p: Coord) -> int {
    p.0 * 22 + p.1
}

/// Position of a group in board order.
pub open spec fn group_index(g: GroupId) -> int {
    match g {
        GroupId::Outer(n) => n - 1,
        GroupId::Inner(n) => n + 7,
    }
}

/// The `i`-th cell lies on the board and has row-major index `i`.
pub proof fn lemma_grid_cell(i: int)
    requires
        0 <= i < 440,
    ensures
        in_grid(grid_cell(i)),
        grid_index(grid_cell(i)) == i,
        0 <= group_index(grid_group(i)) < 16,
        group_at(group_index(grid_group(i))) == grid_group(i),
{
    lemma_map_cell(i / 22, i % 22);
}

/// A cell on the board is the cell at its row-major index.
pub proof fn lemma_grid_index(p: Coord)
    requires
        in_grid(p),
    ensures
        0 <= grid_index(p) < 440,
        grid_cell(grid_index(p)) == p,
{
    let i = grid_index(p);
    assert(i / 22 == p.0 && i % 22 == p.1);
}

/// The cells of group `id` among the first `n` board cells lie on the
/// board, belong to `id`, come in strictly increasing row-major order, and
/// include every cell of `id` among the first `n`.
pub proof fn lemma_group_cells(id: GroupId, n: int)
    requires
        0 <= n <= 440,
    ensures
        ({
            let s = group_cells_upto(id, n);
            &&& forall|k: int|
                0 <= k < s.len() ==> in_grid(#[trigger] s[k]) && 0 <= grid_index(s[k]) < n
                    && grid_group(grid_index(s[k])) == id
            &&& forall|a: int, b: int|
                0 <= a < b < s.len() ==> grid_index(#[trigger] s[a]) < grid_index(#[trigger] s[b])
            &&& forall|i: int| 0 <= i < n && grid_group(i) == id ==> s.contains(#[trigger] grid_cell(i))
        }),
    decreases n,
{
    if n > 0 {
        lemma_group_cells(id, n - 1);
        lemma_grid_cell(n - 1);
        let prev = group_cells_upto(id, n - 1);
        let s = group_cells_upto(id, n);
        assert forall|k: int| 0 <= k < s.len() implies in_grid(#[trigger] s[k]) && 0 <= grid_index(s[k]) < n
            && grid_group(grid_index(s[k])) == id by {
            if k < prev.len() {
                assert(s[k] == prev[k]);
            }
        }
        assert forall|a: int, b: int| 0 <= a < b < s.len() implies grid_index(#[trigger] s[a]) < grid_index(
            #[trigger] s[b],
        ) by {
            if b < prev.len() {
                assert(s[a] == prev[a] && s[b] == prev[b]);
            } else {
                assert(s[a] == prev[a]);
            }
        }
        assert forall|i: int| 0 <= i < n && grid_group(i) == id implies s.contains(#[trigger] grid_cell(i)) by {
            if i < n - 1 {
                assert(prev.contains(grid_cell(i)));
                let k = choose|k: int| 0 <= k < prev.len() && prev[k] == grid_cell(i);
                assert(s[k] == prev[k]);
            } else {
                assert(s[s.len() - 1] == grid_cell(i));
            }
        }
    }
}

/// The groups of the board partition it: every board cell lies in the
/// group its map character names, and every cell of a group lies on the
/// board and belongs to that group alone; the cells of a group are
/// distinct.
pub proof fn lemma_board_partition(b: UnionBoard)
    requires
        standard_board(b),
    ensures
        forall|i: int|
            0 <= i < 440 ==> b.groups@[group_index(grid_group(i))].cells@.contains(#[trigger] grid_cell(i)),
        forall|k: int, j: int|
            0 <= k < 16 && 0 <= j < b.groups@[k].cells@.len() ==> in_grid(
                #[trigger] b.groups@[k].cells@[j],
            ) && group_index(grid_group(grid_index(b.groups@[k].cells@[j]))) == k,
        forall|k: int| 0 <= k < 16 ==> (#[trigger] b.groups@[k]).cells@.no_duplicates(),
{
    assert forall|i: int| 0 <= i < 440 implies b.groups@[group_index(grid_group(i))].cells@.contains(
        #[trigger] grid_cell(i),
    ) by {
        lemma_grid_cell(i);
        let k = group_index(grid_group(i));
        lemma_group_cells(group_at(k), 440);
    }
    assert forall|k: int, j: int|
        0 <= k < 16 && 0 <= j < b.groups@[k].cells@.len() implies in_grid(
            #[trigger] b.groups@[k].cells@[j],
        ) && group_index(grid_group(grid_index(b.groups@[k].cells@[j]))) == k by {
        lemma_group_cells(group_at(k), 440);
    }
    assert forall|k: int| 0 <= k < 16 implies (#[trigger] b.groups@[k]).cells@.no_duplicates() by {
        lemma_group_cells(group_at(k), 440);
        let s = b.groups@[k].cells@;
        assert forall|a: int, c: int| 0 <= a < s.len() && 0 <= c < s.len() && a != c implies s[a] != s[c] by {
            if a < c {
                assert(grid_index(s[a]) < grid_index(s[c]));
            } else {
                assert(grid_index(s[c]) < grid_index(s[a]));
            }
        }
    }
}

/// A group has at most `n` cells among the first `n` board cells.
pub proof fn lemma_group_cells_len(id: GroupId, n: int)
    requires
        0 <= n,
    ensures
        group_cells_upto(id, n).len() <= n,
    decreases n,
{
    if n > 0 {
        lemma_group_cells_len(id, n - 1);
    }
}

/// Every group of the board has at least one cell, and at most 440.
pub proof fn lemma_groups_nonempty(b: UnionBoard)
    requires
        standard_board(b),
    ensures
        forall|k: int| 0 <= k < 16 ==> 0 < (#[trigger] b.groups@[k]).cells@.len() <= 440,
{
    lemma_board_partition(b);
    reveal_strlit("0111111111122222222223");
    reveal_strlit("00000ABBBBBCCCCCD33333");
    reveal_strlit("44444EEEEEFGHHHHH55555");
    reveal_strlit("4444466666677777755555");
    let wit: Seq<int> = seq![0, 1, 11, 21, 220, 237, 335, 341, 115, 116, 121, 126, 225, 230, 231, 232];
    assert forall|k: int| 0 <= k < 16 implies 0 < (#[trigger] b.groups@[k]).cells@.len() <= 440 by {
        lemma_group_cells_len(group_at(k), 440);
        let i = wit[k];
        assert(map_row(0)[0] == '0' && map_row(0)[1] == '1' && map_row(0)[11] == '2' && map_row(0)[21] == '3');
        assert(map_row(5)[5] == 'A' && map_row(5)[6] == 'B' && map_row(5)[11] == 'C' && map_row(5)[16] == 'D');
        assert(map_row(10)[0] == '4' && map_row(10)[17] == '5' && map_row(10)[5] == 'E');
        assert(map_row(10)[10] == 'F' && map_row(10)[11] == 'G' && map_row(10)[12] == 'H');
        assert(map_row(15)[5] == '6' && map_row(15)[11] == '7');
        assert(group_index(grid_group(i)) == k);
        assert(b.groups@[group_index(grid_group(i))].cells@.contains(grid_cell(i)));
    }
}

/// `p` comes before `q` in row-major order.
pub open spec fn row_major_before(p: Coord, q: Coord) -> bool {
    p.0 < q.0 || (p.0 == q.0 && p.1 < q.1)
}

/// The group of the cell in row `r` and column `c`, from the shape of the
/// board. The half above row 10 and the half from row 10 down each hold
/// four outer and four inner groups; `m` is the distance of the row from
/// the board edge of its half. Each half has a left outer wedge (the first
/// `m + 1` columns, at most five) and a right outer wedge (the last
/// `m + 1` columns, at most five). Within five rows of the edge, the rest
/// of the row splits at column 11 into two more outer groups; further in,
/// columns 5 to 16 hold the inner groups, split at column 11 and, on each
/// side, along a diagonal: the outermost inner group of a side widens by
/// one column with each row away from the edge. Top half: outer groups
/// 1 (left), 2 and 3 (edge band, left and right of column 11), 4 (right);
/// inner groups 1 to 4 from left to right. Bottom half: outer groups 5
/// (left), 6 (right), 7 and 8 (edge band); inner groups 5 to 8.
pub open spec fn union_group(r: int, c: int) -> GroupId {
    let top = r < 10;
    let m = if top { r } else { 19 - r };
    let k = m - 5;
    if c < 5 && c <= m {
        GroupId::Outer(if top { 1 } else { 5 })
    } else if c > 16 && c >= 21 - m {
        GroupId::Outer(if top { 4 } else { 6 })
    } else if m < 5 {
        if c <= 10 {
            GroupId::Outer(if top { 2 } else { 7 })
        } else {
            GroupId::Outer(if top { 3 } else { 8 })
        }
    } else if c <= 5 + k {
        GroupId::Inner(if top { 1 } else { 5 })
    } else if c <= 10 {
        GroupId::Inner(if top { 2 } else { 6 })
    } else if c < 16 - k {
        GroupId::Inner(if top { 3 } else { 7 })
    } else {
        GroupId::Inner(if top { 4 } else { 8 })
    }
}

proof fn lemma_row_0_layout(c: int)
    requires
        0 <= c < 22,
    ensures
        group_of_char(map_row(0)[c]) == union_group(0, c),
{
    reveal_strlit("0111111111122222222223");
    assert(c == 0 || c == 1 || c == 2 || c == 3 || c == 4 || c == 5 || c == 6 || c == 7 || c == 8 || c == 9 || c == 10 || c == 11 || c == 12 || c == 13 || c == 14 || c == 15 || c == 16 || c == 17 || c == 18 || c == 19 || c == 20 || c == 21);
}

proof fn lemma_row_1_layout(c: int)
    requires
        0 <= c < 22,
    ensures
        group_of_char(map_row(1)[c]) == union_group(1, c),
{
    reveal_strlit("0011111111122222222233");
    assert(c == 0 || c == 1 || c == 2 || c == 3 || c == 4 || c == 5 || c == 6 || c == 7 || c == 8 || c == 9 || c == 10 || c == 11 || c == 12 || c == 13 || c == 14 || c == 15 || c == 16 || c == 17 || c == 18 || c == 19 || c == 20 || c == 21);
}

proof fn lemma_row_2_layout(c: int)
    requires
        0 <= c < 22,
    ensures
        group_of_char(map_row(2)[c]) == union_group(2, c),
{
    reveal_strlit("0001111111122222222333");
    assert(c == 0 || c == 1 || c == 2 || c == 3 || c == 4 || c == 5 || c == 6 || c == 7 || c == 8 || c == 9 || c == 10 || c == 11 || c == 12 || c == 13 || c == 14 || c == 15 || c == 16 || c == 17 || c == 18 || c == 19 || c == 20 || c == 21);
}

proof fn lemma_row_3_layout(c: int)
    requires
        0 <= c < 22,
    ensures
        group_of_char(map_row(3)[c]) == union_group(3, c),
{
    reveal_strlit("0000111111122222223333");
    assert(c == 0 || c == 1 || c == 2 || c == 3 || c == 4 || c == 5 || c == 6 || c == 7 || c == 8 || c == 9 || c == 10 || c == 11 || c == 12 || c == 13 || c == 14 || c == 15 || c == 16 || c == 17 || c == 18 || c == 19 || c == 20 || c == 21);
}

proof fn lemma_row_4_layout(c: int)
    requires
        0 <= c < 22,
    ensures
        group_of_char(map_row(4)[c]) == union_group(4, c),
{
    reveal_strlit("0000011111122222233333");
    assert(c == 0 || c == 1 || c == 2 || c == 3 || c == 4 || c == 5 || c == 6 || c == 7 || c == 8 || c == 9 || c == 10 || c == 11 || c == 12 || c == 13 || c == 14 || c == 15 || c == 16 || c == 17 || c == 18 || c == 19 || c == 20 || c == 21);
}

proof fn lemma_row_5_layout(c: int)
    requires
        0 <= c < 22,
    ensures
        group_of_char(map_row(5)[c]) == union_group(5, c),
{
    reveal_strlit("00000ABBBBBCCCCCD33333");
    assert(c == 0 || c == 1 || c == 2 || c == 3 || c == 4 || c == 5 || c == 6 || c == 7 || c == 8 || c == 9 || c == 10 || c == 11 || c == 12 || c == 13 || c == 14 || c == 15 || c == 16 || c == 17 || c == 18 || c == 19 || c == 20 || c == 21);
}

proof fn lemma_row_6_layout(c: int)
    requires
        0 <= c < 22,
    ensures
        group_of_char(map_row(6)[c]) == union_group(6, c),
{
    reveal_strlit("00000AABBBBCCCCDD33333");
    assert(c == 0 || c == 1 || c == 2 || c == 3 || c == 4 || c == 5 || c == 6 || c == 7 || c == 8 || c == 9 || c == 10 || c == 11 || c == 12 || c == 13 || c == 14 || c == 15 || c == 16 || c == 17 || c == 18 || c == 19 || c == 20 || c == 21);
}

proof fn lemma_row_7_layout(c: int)
    requires
        0 <= c < 22,
    ensures
        group_of_char(map_row(7)[c]) == union_group(7, c),
{
    reveal_strlit("00000AAABBBCCCDDD33333");
    assert(c == 0 || c == 1 || c == 2 || c == 3 || c == 4 || c == 5 || c == 6 || c == 7 || c == 8 || c == 9 || c == 10 || c == 11 || c == 12 || c == 13 || c == 14 || c == 15 || c == 16 || c == 17 || c == 18 || c == 19 || c == 20 || c == 21);
}

proof fn lemma_row_8_layout(c: int)
    requires
        0 <= c < 22,
    ensures
        group_of_char(map_row(8)[c]) == union_group(8, c),
{
    reveal_strlit("00000AAAABBCCDDDD33333");
    assert(c == 0 || c == 1 || c == 2 || c == 3 || c == 4 || c == 5 || c == 6 || c == 7 || c == 8 || c == 9 || c == 10 || c == 11 || c == 12 || c == 13 || c == 14 || c == 15 || c == 16 || c == 17 || c == 18 || c == 19 || c == 20 || c == 21);
}

proof fn lemma_row_9_layout(c: int)
    requires
        0 <= c < 22,
    ensures
        group_of_char(map_row(9)[c]) == union_group(9, c),
{
    reveal_strlit("00000AAAAABCDDDDD33333");
    assert(c == 0 || c == 1 || c == 2 || c == 3 || c == 4 || c == 5 || c == 6 || c == 7 || c == 8 || c == 9 || c == 10 || c == 11 || c == 12 || c == 13 || c == 14 || c == 15 || c == 16 || c == 17 || c == 18 || c == 19 || c == 20 || c == 21);
}

proof fn lemma_row_10_layout(c: int)
    requires
        0 <= c < 22,
    ensures
        group_of_char(map_row(10)[c]) == union_group(10, c),
{
    reveal_strlit("44444EEEEEFGHHHHH55555");
    assert(c == 0 || c == 1 || c == 2 || c == 3 || c == 4 || c == 5 || c == 6 || c == 7 || c == 8 || c == 9 || c == 10 || c == 11 || c == 12 || c == 13 || c == 14 || c == 15 || c == 16 || c == 17 || c == 18 || c == 19 || c == 20 || c == 21);
}

proof fn lemma_row_11_layout(c: int)
    requires
        0 <= c < 22,
    ensures
        group_of_char(map_row(11)[c]) == union_group(11, c),
{
    reveal_strlit("44444EEEEFFGGHHHH55555");
    assert(c == 0 || c == 1 || c == 2 || c == 3 || c == 4 || c == 5 || c == 6 || c == 7 || c == 8 || c == 9 || c == 10 || c == 11 || c == 12 || c == 13 || c == 14 || c == 15 || c == 16 || c == 17 || c == 18 || c == 19 || c == 20 || c == 21);
}

proof fn lemma_row_12_layout(c: int)
    requires
        0 <= c < 22,
    ensures
        group_of_char(map_row(12)[c]) == union_group(12, c),
{
    reveal_strlit("44444EEEFFFGGGHHH55555");
    assert(c == 0 || c == 1 || c == 2 || c == 3 || c == 4 || c == 5 || c == 6 || c == 7 || c == 8 || c == 9 || c == 10 || c == 11 || c == 12 || c == 13 || c == 14 || c == 15 || c == 16 || c == 17 || c == 18 || c == 19 || c == 20 || c == 21);
}

proof fn lemma_row_13_layout(c: int)
    requires
        0 <= c < 22,
    ensures
        group_of_char(map_row(13)[c]) == union_group(13, c),
{
    reveal_strlit("44444EEFFFFGGGGHH55555");
    assert(c == 0 || c == 1 || c == 2 || c == 3 || c == 4 || c == 5 || c == 6 || c == 7 || c == 8 || c == 9 || c == 10 || c == 11 || c == 12 || c == 13 || c == 14 || c == 15 || c == 16 || c == 17 || c == 18 || c == 19 || c == 20 || c == 21);
}

proof fn lemma_row_14_layout(c: int)
    requires
        0 <= c < 22,
    ensures
        group_of_char(map_row(14)[c]) == union_group(14, c),
{
    reveal_strlit("44444EFFFFFGGGGGH55555");
    assert(c == 0 || c == 1 || c == 2 || c == 3 || c == 4 || c == 5 || c == 6 || c == 7 || c == 8 || c == 9 || c == 10 || c == 11 || c == 12 || c == 13 || c == 14 || c == 15 || c == 16 || c == 17 || c == 18 || c == 19 || c == 20 || c == 21);
}

proof fn lemma_row_15_layout(c: int)
    requires
        0 <= c < 22,
    ensures
        group_of_char(map_row(15)[c]) == union_group(15, c),
{
    reveal_strlit("4444466666677777755555");
    assert(c == 0 || c == 1 || c == 2 || c == 3 || c == 4 || c == 5 || c == 6 || c == 7 || c == 8 || c == 9 || c == 10 || c == 11 || c == 12 || c == 13 || c == 14 || c == 15 || c == 16 || c == 17 || c == 18 || c == 19 || c == 20 || c == 21);
}

proof fn lemma_row_16_layout(c: int)
    requires
        0 <= c < 22,
    ensures
        group_of_char(map_row(16)[c]) == union_group(16, c),
{
    reveal_strlit("4444666666677777775555");
    assert(c == 0 || c == 1 || c == 2 || c == 3 || c == 4 || c == 5 || c == 6 || c == 7 || c == 8 || c == 9 || c == 10 || c == 11 || c == 12 || c == 13 || c == 14 || c == 15 || c == 16 || c == 17 || c == 18 || c == 19 || c == 20 || c == 21);
}

proof fn lemma_row_17_layout(c: int)
    requires
        0 <= c < 22,
    ensures
        group_of_char(map_row(17)[c]) == union_group(17, c),
{
    reveal_strlit("4446666666677777777555");
    assert(c == 0 || c == 1 || c == 2 || c == 3 || c == 4 || c == 5 || c == 6 || c == 7 || c == 8 || c == 9 || c == 10 || c == 11 || c == 12 || c == 13 || c == 14 || c == 15 || c == 16 || c == 17 || c == 18 || c == 19 || c == 20 || c == 21);
}

proof fn lemma_row_18_layout(c: int)
    requires
        0 <= c < 22,
    ensures
        group_of_char(map_row(18)[c]) == union_group(18, c),
{
    reveal_strlit("4466666666677777777755");
    assert(c == 0 || c == 1 || c == 2 || c == 3 || c == 4 || c == 5 || c == 6 || c == 7 || c == 8 || c == 9 || c == 10 || c == 11 || c == 12 || c == 13 || c == 14 || c == 15 || c == 16 || c == 17 || c == 18 || c == 19 || c == 20 || c == 21);
}

proof fn lemma_row_19_layout(c: int)
    requires
        0 <= c < 22,
    ensures
        group_of_char(map_row(19)[c]) == union_group(19, c),
{
    reveal_strlit("4666666666677777777775");
    assert(c == 0 || c == 1 || c == 2 || c == 3 || c == 4 || c == 5 || c == 6 || c == 7 || c == 8 || c == 9 || c == 10 || c == 11 || c == 12 || c == 13 || c == 14 || c == 15 || c == 16 || c == 17 || c == 18 || c == 19 || c == 20 || c == 21);
}

/// The group map names, for every board cell, the group its position
/// gives.
proof fn lemma_map_layout(r: int, c: int)
    requires
        0 <= r < 20,
        0 <= c < 22,
    ensures
        group_of_char(map_row(r)[c]) == union_group(r, c),
{
    if r == 0 {
        lemma_row_0_layout(c);
    } else if r == 1 {
        lemma_row_1_layout(c);
    } else if r == 2 {
        lemma_row_2_layout(c);
    } else if r == 3 {
        lemma_row_3_layout(c);
    } else if r == 4 {
        lemma_row_4_layout(c);
    } else if r == 5 {
        lemma_row_5_layout(c);
    } else if r == 6 {
        lemma_row_6_layout(c);
    } else if r == 7 {
        lemma_row_7_layout(c);
    } else if r == 8 {
        lemma_row_8_layout(c);
    } else if r == 9 {
        lemma_row_9_layout(c);
    } else if r == 10 {
        lemma_row_10_layout(c);
    } else if r == 11 {
        lemma_row_11_layout(c);
    } else if r == 12 {
        lemma_row_12_layout(c);
    } else if r == 13 {
        lemma_row_13_layout(c);
    } else if r == 14 {
        lemma_row_14_layout(c);
    } else if r == 15 {
        lemma_row_15_layout(c);
    } else if r == 16 {
        lemma_row_16_layout(c);
    } else if r == 17 {
        lemma_row_17_layout(c);
    } else if r == 18 {
        lemma_row_18_layout(c);
    } else if r == 19 {
        lemma_row_19_layout(c);
    }
}

/// The layout of the board: the groups come outer first, then inner,
/// each kind numbered 1 to 8 in increasing order; the board and each
/// group list their cells in row-major order; the board lists each of
/// its 20 x 22 cells
/// once; the center cells are the four cells around the middle point of
/// the board (each coordinate half a cell from it); a cell belongs to the
/// `k`-th group exactly when it lies on the board and its position puts it
/// in that group ([`union_group`]); every group has at least one cell and
/// no cell twice.
pub proof fn lemma_board_layout(b: UnionBoard)
    requires
        standard_board(b),
    ensures
        forall|k: int, p: Coord|
            0 <= k < 16 ==> ((#[trigger] b.groups@[k].cells@.contains(p)) <==> in_grid(p) && union_group(
                p.0 as int,
                p.1 as int,
            ) == b.groups@[k].id),
        forall|k: int| 0 <= k < 16 ==> (#[trigger] b.groups@[k]).cells@.no_duplicates() && b.groups@[k].cells@.len() > 0,
        forall|k: int| 0 <= k < 16 ==> (k < 8 <==> (#[trigger] b.groups@[k]).id is Outer),
        forall|k: int|
            0 <= k < 16 ==> match (#[trigger] b.groups@[k]).id {
                GroupId::Outer(n) => 1 <= n <= 8,
                GroupId::Inner(n) => 1 <= n <= 8,
            },
        forall|j: int, k: int|
            0 <= j < k < 16 && ((#[trigger] b.groups@[j]).id is Outer) == ((#[trigger] b.groups@[k]).id is Outer)
                ==> match (b.groups@[j].id, b.groups@[k].id) {
                (GroupId::Outer(x), GroupId::Outer(y)) => x < y,
                (GroupId::Inner(x), GroupId::Inner(y)) => x < y,
                _ => false,
            },
        forall|k: int, x: int, y: int|
            0 <= k < 16 && 0 <= x < y < b.groups@[k].cells@.len() ==> row_major_before(
                #[trigger] b.groups@[k].cells@[x],
                #[trigger] b.groups@[k].cells@[y],
            ),
        forall|x: int, y: int|
            0 <= x < y < b.all_cells@.len() ==> row_major_before(#[trigger] b.all_cells@[x], #[trigger] b.all_cells@[y]),
        b.all_cells@.len() == 440,
        b.all_cells@.no_duplicates(),
        forall|p: Coord| #[trigger] b.all_cells@.contains(p) <==> in_grid(p),
        b.center_cells@.len() == 4,
        b.center_cells@.no_duplicates(),
        forall|p: Coord|
            #[trigger] b.center_cells@.contains(p) <==> (2 * p.0 - 19 == 1 || 19 - 2 * p.0 == 1) && (2 * p.1
                - 21 == 1 || 21 - 2 * p.1 == 1),
{
    lemma_board_partition(b);
    let a = b.all_cells@;
    assert forall|x: int, y: int| 0 <= x < y < a.len() implies row_major_before(#[trigger] a[x], #[trigger] a[y]) by {
        lemma_grid_cell(x);
        lemma_grid_cell(y);
    }
    assert forall|k: int, x: int, y: int|
        0 <= k < 16 && 0 <= x < y < b.groups@[k].cells@.len() implies row_major_before(
            #[trigger] b.groups@[k].cells@[x],
            #[trigger] b.groups@[k].cells@[y],
        ) by {
        lemma_group_cells(group_at(k), 440);
    }
    assert forall|x: int, y: int| 0 <= x < a.len() && 0 <= y < a.len() && x != y implies a[x] != a[y] by {
        lemma_grid_cell(x);
        lemma_grid_cell(y);
    }
    assert forall|p: Coord| #[trigger] a.contains(p) <==> in_grid(p) by {
        if a.contains(p) {
            let x = choose|x: int| 0 <= x < a.len() && a[x] == p;
            lemma_grid_cell(x);
        }
        if in_grid(p) {
            lemma_grid_index(p);
            assert(a[grid_index(p)] == p);
        }
    }
    let cs = b.center_cells@;
    assert(cs[0] == (9i8, 10i8) && cs[1] == (9i8, 11i8) && cs[2] == (10i8, 10i8) && cs[3] == (10i8, 11i8));
    assert forall|p: Coord|
        #[trigger] cs.contains(p) <==> (2 * p.0 - 19 == 1 || 19 - 2 * p.0 == 1) && (2 * p.1 - 21 == 1 || 21
            - 2 * p.1 == 1) by {
        if (2 * p.0 - 19 == 1 || 19 - 2 * p.0 == 1) && (2 * p.1 - 21 == 1 || 21 - 2 * p.1 == 1) {
            if p.0 == 9 && p.1 == 10 {
                assert(cs[0] == p);
            } else if p.0 == 9 {
                assert(cs[1] == p);
            } else if p.1 == 10 {
                assert(cs[2] == p);
            } else {
                assert(cs[3] == p);
            }
        }
    }
    lemma_groups_nonempty(b);
    assert forall|k: int, p: Coord|
        0 <= k < 16 implies ((#[trigger] b.groups@[k].cells@.contains(p)) <==> in_grid(p) && union_group(
            p.0 as int,
            p.1 as int,
        ) == b.groups@[k].id) by {
        let g = b.groups@[k];
        assert(g.id == group_at(k));
        if g.cells@.contains(p) {
            let j = choose|j: int| 0 <= j < g.cells@.len() && g.cells@[j] == p;
            assert(in_grid(g.cells@[j]));
            let i = grid_index(p);
            lemma_grid_index(p);
            lemma_grid_cell(i);
            assert(i / 22 == p.0 && i % 22 == p.1);
            lemma_map_layout(p.0 as int, p.1 as int);
            assert(group_index(grid_group(i)) == k);
            assert(grid_group(i) == group_at(k));
        }
        if in_grid(p) && union_group(p.0 as int, p.1 as int) == g.id {
            let i = grid_index(p);
            lemma_grid_index(p);
            lemma_grid_cell(i);
            assert(i / 22 == p.0 && i % 22 == p.1);
            lemma_map_layout(p.0 as int, p.1 as int);
            assert(grid_group(i) == group_at(k));
            assert(group_index(group_at(k)) == k);
            assert(b.groups@[group_index(grid_group(i))].cells@.contains(grid_cell(i)));
        }
    }
}

} // verus!
