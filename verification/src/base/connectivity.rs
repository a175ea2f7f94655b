//! Connected-component analysis on bit-encoded graphs.

use crate::base::bitset::{BitSet, CAPACITY};
use vstd::prelude::*;
use vstd::set_lib::{lemma_int_range, lemma_len_subset, set_int_range};

verus! {

/// `v` is a board cell below `n` that is not covered.
pub open spec fn open_cell(covered: Set<int>, n: int, v: int) -> bool {
    0 <= v < n && !covered.contains(v)
}

/// There is an adjacency-list edge from `u` to `v`.
pub open spec fn has_edge(adj: Seq<Vec<u16>>, u: int, v: int) -> bool {
    0 <= u < adj.len() && adj[u]@.contains(v as u16)
}

/// `w` is a non-empty walk through open cells outside `avoid`.
pub open spec fn is_walk(
    adj: Seq<Vec<u16>>,
    covered: Set<int>,
    n: int,
    avoid: Set<int>,
    w: Seq<int>,
) -> bool {
    &&& w.len() > 0
    &&& forall|k: int|
        0 <= k < w.len() ==> open_cell(covered, n, #[trigger] w[k]) && !avoid.contains(w[k])
    &&& forall|k: int| 0 <= k < w.len() - 1 ==> has_edge(adj, #[trigger] w[k], w[k + 1])
}

/// Cells reachable from `root` by walks through open cells outside `avoid`.
pub open spec fn reach_set(
    adj: Seq<Vec<u16>>,
    covered: Set<int>,
    n: int,
    avoid: Set<int>,
    root: int,
) -> Set<int> {
    Set::new(
        |x: int|
            exists|w: Seq<int>|
                is_walk(adj, covered, n, avoid, w) && w[0] == root && #[trigger] w.last() == x,
    )
}

/// The components found by scanning start cells `start..n` in order,
/// each one the cells reachable from its start cell while avoiding the
/// cells of earlier components (`avoid`).
pub open spec fn components_from(
    adj: Seq<Vec<u16>>,
    covered: Set<int>,
    n: int,
    start: int,
    avoid: Set<int>,
) -> Seq<Set<int>>
    decreases n - start,
{
    if start >= n {
        Seq::empty()
    } else if !open_cell(covered, n, start) || avoid.contains(start) {
        components_from(adj, covered, n, start + 1, avoid)
    } else {
        let c = reach_set(adj, covered, n, avoid, start);
        seq![c] + components_from(adj, covered, n, start + 1, avoid.union(c))
    }
}

/// The components of the open cells of a board with `n` cells.
pub open spec fn components(adj: Seq<Vec<u16>>, covered: Set<int>, n: int) -> Seq<Set<int>> {
    components_from(adj, covered, n, 0, Set::empty())
}

/// The adjacency list covers cells `0..n` and only names cells below `n`.
pub open spec fn adjacency_ok(adj: Seq<Vec<u16>>, n: int) -> bool {
    &&& adj.len() >= n
    &&& forall|u: int, k: int|
        0 <= u < n && 0 <= k < adj[u]@.len() ==> (#[trigger] adj[u]@[k]) < n
}

/// Every edge from a cell of `from` to an open cell outside `avoid`
/// lands in `into`.
pub open spec fn closed_under(
    adj: Seq<Vec<u16>>,
    covered: Set<int>,
    n: int,
    avoid: Set<int>,
    from: Set<int>,
    into: Set<int>,
) -> bool {
    forall|x: int, y: int|
        #![trigger from.contains(x), has_edge(adj, x, y)]
        from.contains(x) && open_cell(covered, n, y) && !avoid.contains(y) && has_edge(adj, x, y)
            ==> into.contains(y)
}

/// A walk extended by one edge is a walk.
proof fn lemma_walk_push(
    adj: Seq<Vec<u16>>,
    covered: Set<int>,
    n: int,
    avoid: Set<int>,
    w: Seq<int>,
    y: int,
)
    requires
        is_walk(adj, covered, n, avoid, w),
        open_cell(covered, n, y),
        !avoid.contains(y),
        has_edge(adj, w.last(), y),
    ensures
        is_walk(adj, covered, n, avoid, w.push(y)),
        w.push(y)[0] == w[0],
        w.push(y).last() == y,
{
    let w2 = w.push(y);
    assert forall|k: int| 0 <= k < w2.len() - 1 implies has_edge(adj, #[trigger] w2[k], w2[k + 1])
        by {
        if k < w.len() - 1 {
            assert(w2[k] == w[k] && w2[k + 1] == w[k + 1]);
        } else {
            assert(w2[k] == w.last());
        }
    }
}

/// A set containing `root` and closed under edges between open cells
/// outside `avoid` contains every cell reachable from `root`.
proof fn lemma_closed_contains_reach(
    adj: Seq<Vec<u16>>,
    covered: Set<int>,
    n: int,
    avoid: Set<int>,
    root: int,
    c: Set<int>,
)
    requires
        c.contains(root),
        closed_under(adj, covered, n, avoid, c, c),
    ensures
        reach_set(adj, covered, n, avoid, root).subset_of(c),
{
    assert forall|x: int| reach_set(adj, covered, n, avoid, root).contains(x) implies c.contains(
        x,
    ) by {
        let w = choose|w: Seq<int>|
            is_walk(adj, covered, n, avoid, w) && w[0] == root && #[trigger] w.last() == x;
        lemma_walk_in_closed(adj, covered, n, avoid, c, w, (w.len() - 1) as nat);
    }
}

proof fn lemma_walk_in_closed(
    adj: Seq<Vec<u16>>,
    covered: Set<int>,
    n: int,
    avoid: Set<int>,
    c: Set<int>,
    w: Seq<int>,
    k: nat,
)
    requires
        is_walk(adj, covered, n, avoid, w),
        c.contains(w[0]),
        k < w.len(),
        closed_under(adj, covered, n, avoid, c, c),
    ensures
        c.contains(w[k as int]),
    decreases k,
{
    if k > 0 {
        lemma_walk_in_closed(adj, covered, n, avoid, c, w, (k - 1) as nat);
        assert(has_edge(adj, w[k - 1], w[k - 1 + 1]));
        assert(open_cell(covered, n, w[k as int]));
    }
}

/// Every component is a finite set of open cells below `n`.
pub proof fn lemma_reach_set_bounded(
    adj: Seq<Vec<u16>>,
    covered: Set<int>,
    n: int,
    avoid: Set<int>,
    root: int,
)
    requires
        n >= 0,
    ensures
        reach_set(adj, covered, n, avoid, root).subset_of(set_int_range(0, n)),
        reach_set(adj, covered, n, avoid, root).finite(),
        reach_set(adj, covered, n, avoid, root).len() <= n,
        forall|x: int| #[trigger]
            reach_set(adj, covered, n, avoid, root).contains(x) ==> open_cell(covered, n, x)
                && !avoid.contains(x),
{
    let r = reach_set(adj, covered, n, avoid, root);
    assert forall|x: int| r.contains(x) implies open_cell(covered, n, x) && !avoid.contains(x) by {
        let w = choose|w: Seq<int>|
            is_walk(adj, covered, n, avoid, w) && w[0] == root && #[trigger] w.last() == x;
        assert(open_cell(covered, n, w[w.len() - 1]));
    }
    lemma_int_range(0, n);
    lemma_len_subset(r, set_int_range(0, n));
}

/// The open cells of a board with `n` cells.
pub open spec fn open_cells(covered: Set<int>, n: int) -> Set<int> {
    Set::new(|x: int| open_cell(covered, n, x))
}

/// Every component is a finite set of open cells, so its size is at most
/// the number of open cells.
pub proof fn lemma_components_bounded(
    adj: Seq<Vec<u16>>,
    covered: Set<int>,
    n: int,
    start: int,
    avoid: Set<int>,
)
    requires
        n >= 0,
    ensures
        forall|k: int|
            0 <= k < components_from(adj, covered, n, start, avoid).len() ==> (#[trigger] components_from(
                adj,
                covered,
                n,
                start,
                avoid,
            )[k]).subset_of(open_cells(covered, n)) && components_from(adj, covered, n, start, avoid)[k].finite(),
    decreases n - start,
{
    let cs = components_from(adj, covered, n, start, avoid);
    if start >= n {
    } else if !open_cell(covered, n, start) || avoid.contains(start) {
        lemma_components_bounded(adj, covered, n, start + 1, avoid);
        assert(cs == components_from(adj, covered, n, start + 1, avoid));
    } else {
        let c = reach_set(adj, covered, n, avoid, start);
        lemma_reach_set_bounded(adj, covered, n, avoid, start);
        lemma_components_bounded(adj, covered, n, start + 1, avoid.union(c));
        let rest = components_from(adj, covered, n, start + 1, avoid.union(c));
        assert forall|k: int| 0 <= k < cs.len() implies (#[trigger] cs[k]).subset_of(open_cells(covered, n))
            && cs[k].finite() by {
            if k > 0 {
                assert(cs[k] == rest[k - 1]);
            } else {
                assert(cs[0] == c);
                assert forall|x: int| c.contains(x) implies open_cells(covered, n).contains(x) by {}
            }
        }
    }
}

/// The number of open cells is the number of cells minus the covered ones.
pub proof fn lemma_open_cells_len(covered: Set<int>, n: int)
    requires
        n >= 0,
        covered.subset_of(set_int_range(0, n)),
    ensures
        open_cells(covered, n).finite(),
        covered.finite(),
        open_cells(covered, n).len() == n - covered.len(),
{
    lemma_int_range(0, n);
    lemma_len_subset(covered, set_int_range(0, n));
    assert(open_cells(covered, n) =~= set_int_range(0, n).difference(covered));
    vstd::set_lib::lemma_set_difference_len(set_int_range(0, n), covered);
    assert(set_int_range(0, n).intersect(covered) =~= covered);
}

/// Edges between open cells go both ways.
pub open spec fn symmetric_on(adj: Seq<Vec<u16>>, covered: Set<int>, n: int) -> bool {
    forall|x: int, y: int|
        #![trigger has_edge(adj, x, y)]
        open_cell(covered, n, x) && open_cell(covered, n, y) && has_edge(adj, x, y) ==> has_edge(adj, y, x)
}

/// Every edge from a cell of `s` to an open cell lands in `s`.
pub open spec fn closed_set(adj: Seq<Vec<u16>>, covered: Set<int>, n: int, s: Set<int>) -> bool {
    forall|x: int, y: int|
        #![trigger s.contains(x), has_edge(adj, x, y)]
        s.contains(x) && open_cell(covered, n, y) && has_edge(adj, x, y) ==> s.contains(y)
}

/// Every component is non-empty and closed: an edge from one of its cells
/// to an open cell stays in it.
pub proof fn lemma_components_closed(
    adj: Seq<Vec<u16>>,
    covered: Set<int>,
    n: int,
    start: int,
    avoid: Set<int>,
)
    requires
        0 <= start,
        symmetric_on(adj, covered, n),
        closed_set(adj, covered, n, avoid),
    ensures
        forall|k: int|
            0 <= k < components_from(adj, covered, n, start, avoid).len() ==> closed_set(
                adj,
                covered,
                n,
                #[trigger] components_from(adj, covered, n, start, avoid)[k],
            ) && components_from(adj, covered, n, start, avoid)[k].len() > 0,
    decreases n - start,
{
    let cs = components_from(adj, covered, n, start, avoid);
    if start >= n {
    } else if !open_cell(covered, n, start) || avoid.contains(start) {
        lemma_components_closed(adj, covered, n, start + 1, avoid);
        assert(cs == components_from(adj, covered, n, start + 1, avoid));
    } else {
        let c = reach_set(adj, covered, n, avoid, start);
        lemma_reach_set_bounded(adj, covered, n, avoid, start);
        let w0 = seq![start];
        assert(is_walk(adj, covered, n, avoid, w0));
        assert(c.contains(start)) by {
            assert(w0.last() == start);
        }
        assert forall|x: int, y: int|
            #![trigger c.contains(x), has_edge(adj, x, y)]
            c.contains(x) && open_cell(covered, n, y) && has_edge(adj, x, y) implies c.contains(y) by {
            if avoid.contains(y) {
                assert(has_edge(adj, y, x));
                assert(avoid.contains(x));
            } else {
                let w = choose|w: Seq<int>|
                    is_walk(adj, covered, n, avoid, w) && w[0] == start && #[trigger] w.last() == x;
                lemma_walk_push(adj, covered, n, avoid, w, y);
            }
        }
        let a2 = avoid.union(c);
        assert forall|x: int, y: int|
            #![trigger a2.contains(x), has_edge(adj, x, y)]
            a2.contains(x) && open_cell(covered, n, y) && has_edge(adj, x, y) implies a2.contains(y) by {
            if avoid.contains(x) {
                assert(avoid.contains(y));
            } else {
                assert(c.contains(y));
            }
        }
        lemma_components_closed(adj, covered, n, start + 1, a2);
        let rest = components_from(adj, covered, n, start + 1, a2);
        assert(c.finite());
        vstd::set_lib::lemma_set_empty_equivalency_len(c);
        assert forall|k: int| 0 <= k < cs.len() implies closed_set(adj, covered, n, #[trigger] cs[k]) && cs[k].len()
            > 0 by {
            if k > 0 {
                assert(cs[k] == rest[k - 1]);
            } else {
                assert(cs[0] == c);
            }
        }
    }
}

/// A walk that starts in a closed set stays in it.
pub proof fn lemma_walk_stays(adj: Seq<Vec<u16>>, covered: Set<int>, n: int, s: Set<int>, w: Seq<int>, k: int)
    requires
        closed_set(adj, covered, n, s),
        w.len() > 0,
        s.contains(w[0]),
        forall|i: int| 0 <= i < w.len() ==> open_cell(covered, n, #[trigger] w[i]),
        forall|i: int| 0 <= i < w.len() - 1 ==> has_edge(adj, #[trigger] w[i], w[i + 1]),
        0 <= k < w.len(),
    ensures
        s.contains(w[k]),
    decreases k,
{
    if k > 0 {
        lemma_walk_stays(adj, covered, n, s, w, k - 1);
        assert(has_edge(adj, w[k - 1], w[k - 1 + 1]));
        assert(open_cell(covered, n, w[k]));
    }
}

/// Reusable scratch buffers for [`bfs_components`].
pub struct BfsWorkspace {
    /// `visited[i]` is non-zero when cell `i` has been seen by the current search.
    pub visited: Vec<u8>,
    /// Search frontier stack, reused across components.
    pub stack: Vec<u32>,
    /// Sizes of discovered components, one entry per component.
    pub comp_sizes: Vec<u32>,
}

impl BfsWorkspace {
    /// Allocates buffers sized for `total_cells` cells.
    pub fn new(total_cells: usize) -> (ws: Self)
        ensures
            ws.visited@.len() == total_cells,
            ws.stack@.len() == 0,
            ws.comp_sizes@.len() == 0,
    {
        Self {
            visited: vec![0u8; total_cells],
            stack: Vec::with_capacity(total_cells),
            comp_sizes: Vec::with_capacity(64),
        }
    }
}

/// Clears every byte of `visited`.
pub(crate) fn clear_marks(visited: &mut Vec<u8>)
    ensures
        final(visited)@.len() == old(visited)@.len(),
        forall|i: int| 0 <= i < final(visited)@.len() ==> final(visited)@[i] == 0,
{
    let mut i: usize = 0;
    while i < visited.len()
        invariant
            i <= visited@.len(),
            visited@.len() == old(visited)@.len(),
            forall|j: int| 0 <= j < i ==> visited@[j] == 0,
        decreases visited@.len() - i,
    {
        visited[i] = 0;
        i = i + 1;
    }
}

/// Visit marks and component labels agree with the cells found so far:
/// `vis` holds the cells of the finished components `done`, and `part`
/// the cells found so far of the component with index `idx`.
pub open spec fn marks_ok(
    visited: Seq<u8>,
    membership: Seq<u16>,
    n: int,
    vis: Set<int>,
    done: Seq<Set<int>>,
    part: Set<int>,
    idx: int,
) -> bool {
    &&& visited.len() >= n
    &&& membership.len() == n
    &&& forall|i: int| 0 <= i < n ==> (#[trigger] visited[i] != 0 <==> (vis.contains(i) || part.contains(i)))
    &&& forall|i: int|
        0 <= i < n ==> (vis.contains(i) ==> 0 <= #[trigger] membership[i] < done.len()
            && done[membership[i] as int].contains(i)) && (part.contains(i) ==> membership[i] == idx)
            && (!vis.contains(i) && !part.contains(i) ==> membership[i] == u16::MAX)
}

/// The search stack holds, without repetition, exactly the found cells of
/// the current component that have not been expanded yet.
pub open spec fn stack_ok(stack: Seq<u32>, part: Set<int>, popped: Set<int>) -> bool {
    &&& forall|k: int|
        0 <= k < stack.len() ==> part.contains(#[trigger] stack[k] as int) && !popped.contains(
            stack[k] as int,
        )
    &&& forall|a: int, b: int| 0 <= a < b < stack.len() ==> #[trigger] stack[a] != #[trigger] stack[b]
    &&& forall|x: int| #[trigger] part.contains(x) ==> popped.contains(x) || stack.contains(x as u32)
    &&& stack.len() + popped.len() == part.len()
    &&& popped.subset_of(part)
    &&& part.finite()
}

/// Pushes the unvisited open neighbours of `u` onto the stack, marking them
/// visited and labelling them with `comp_idx`.
fn push_neighbors(
    covered: &BitSet,
    adj_list: &[Vec<u16>],
    total_cells: u16,
    u: u32,
    visited: &mut Vec<u8>,
    stack: &mut Vec<u32>,
    membership: &mut Vec<u16>,
    comp_idx: u16,
    Ghost(vis): Ghost<Set<int>>,
    Ghost(done): Ghost<Seq<Set<int>>>,
    Ghost(part): Ghost<Set<int>>,
    Ghost(popped): Ghost<Set<int>>,
    Ghost(root): Ghost<int>,
) -> (new_part: Ghost<Set<int>>)
    requires
        total_cells as int <= CAPACITY,
        adjacency_ok(adj_list@, total_cells as int),
        (u as int) < total_cells,
        popped.contains(u as int),
        comp_idx as int == done.len(),
        marks_ok(old(visited)@, old(membership)@, total_cells as int, vis, done, part, comp_idx as int),
        stack_ok(old(stack)@, part, popped),
        part.subset_of(reach_set(adj_list@, covered@, total_cells as int, vis, root)),
        forall|x: int| #[trigger] vis.contains(x) ==> open_cell(covered@, total_cells as int, x),
    ensures
        final(visited)@.len() == old(visited)@.len(),
        marks_ok(final(visited)@, final(membership)@, total_cells as int, vis, done, new_part@, comp_idx as int),
        stack_ok(final(stack)@, new_part@, popped),
        new_part@.subset_of(reach_set(adj_list@, covered@, total_cells as int, vis, root)),
        part.subset_of(new_part@),
        forall|y: int|
            open_cell(covered@, total_cells as int, y) && !vis.contains(y) && has_edge(adj_list@, u as int, y)
                ==> #[trigger] new_part@.contains(y),
{
    let ghost adj = adj_list@;
    let ghost cov = covered@;
    let ghost nn = total_cells as int;
    let ghost reach = reach_set(adj, cov, nn, vis, root);
    let ghost ui = u as int;
    let ghost mut p = part;
    let nbrs = &adj_list[u as usize];
    let mut k: usize = 0;
    while k < nbrs.len()
        invariant
            total_cells as int <= CAPACITY,
            adj == adj_list@,
            cov == covered@,
            nn == total_cells as int,
            reach == reach_set(adj, cov, nn, vis, root),
            adjacency_ok(adj, nn),
            0 <= ui < nn,
            nbrs@ == adj[ui]@,
            k <= nbrs@.len(),
            popped.contains(ui),
            visited@.len() == old(visited)@.len(),
            marks_ok(visited@, membership@, nn, vis, done, p, comp_idx as int),
            stack_ok(stack@, p, popped),
            p.subset_of(reach),
            part.subset_of(p),
            forall|x: int| #[trigger] vis.contains(x) ==> open_cell(cov, nn, x),
            forall|j: int|
                0 <= j < k ==> open_cell(cov, nn, #[trigger] nbrs@[j] as int) && !vis.contains(
                    nbrs@[j] as int,
                ) ==> p.contains(nbrs@[j] as int),
        decreases nbrs@.len() - k,
    {
        let v_u16 = nbrs[k];
        let v = v_u16 as usize;
        proof {
            assert(adj[ui]@[k as int] < nn);
        }
        if !covered.test(v) && visited[v] == 0 {
            proof {
                let vi = v as int;
                assert(visited@[vi] == 0);
                assert(!vis.contains(vi) && !p.contains(vi));
                assert(reach.contains(ui));
                let wu = choose|w: Seq<int>|
                    is_walk(adj, cov, nn, vis, w) && w[0] == root && #[trigger] w.last() == ui;
                assert(adj[ui]@[k as int] == v_u16);
                assert(adj[ui]@.contains(v_u16));
                assert(has_edge(adj, ui, vi));
                lemma_walk_push(adj, cov, nn, vis, wu, vi);
                assert(reach.contains(vi));
                assert(!stack@.contains(v as u32));
                p = p.insert(vi);
            }
            let ghost st0 = stack@;
            visited[v] = 1;
            membership[v] = comp_idx;
            stack.push(v as u32);
            proof {
                let vi = v as int;
                assert forall|x: int| #[trigger] p.contains(x) implies popped.contains(x) || stack@.contains(x as u32) by {
                    if x == vi {
                        assert(stack@[stack@.len() - 1] == v as u32);
                    } else if !popped.contains(x) {
                        assert(p.remove(vi).contains(x));
                        assert(st0.contains(x as u32));
                        let j = choose|j: int| 0 <= j < st0.len() && st0[j] == x as u32;
                        assert(stack@[j] == st0[j]);
                    }
                }
                assert(marks_ok(visited@, membership@, nn, vis, done, p, comp_idx as int));
            }
        }
        k = k + 1;
    }
    proof {
        assert forall|y: int|
            open_cell(cov, nn, y) && !vis.contains(y) && has_edge(adj, ui, y) implies #[trigger] p.contains(y) by {
            let j = choose|j: int| 0 <= j < adj[ui]@.len() && adj[ui]@[j] == y as u16;
            assert(adj[ui]@[j] < nn);
            assert(nbrs@[j] as int == y);
        }
    }
    Ghost(p)
}

/// Explores the component of `root` (an open, unvisited cell), marking and
/// labelling its cells. Returns its size.
fn explore_one(
    covered: &BitSet,
    adj_list: &[Vec<u16>],
    total_cells: u16,
    root_cell: usize,
    visited: &mut Vec<u8>,
    stack: &mut Vec<u32>,
    membership: &mut Vec<u16>,
    comp_idx: u16,
    Ghost(vis): Ghost<Set<int>>,
    Ghost(done): Ghost<Seq<Set<int>>>,
) -> (size: u32)
    requires
        total_cells as int <= CAPACITY,
        adjacency_ok(adj_list@, total_cells as int),
        root_cell < total_cells,
        open_cell(covered@, total_cells as int, root_cell as int),
        !vis.contains(root_cell as int),
        comp_idx as int == done.len(),
        old(stack)@.len() == 0,
        marks_ok(old(visited)@, old(membership)@, total_cells as int, vis, done, Set::empty(), comp_idx as int),
        forall|x: int| #[trigger] vis.contains(x) ==> open_cell(covered@, total_cells as int, x),
    ensures
        ({
            let c = reach_set(adj_list@, covered@, total_cells as int, vis, root_cell as int);
            &&& size as int == c.len()
            &&& marks_ok(final(visited)@, final(membership)@, total_cells as int, vis, done, c, comp_idx as int)
        }),
        final(visited)@.len() == old(visited)@.len(),
        final(stack)@.len() == 0,
{
    let ghost adj = adj_list@;
    let ghost cov = covered@;
    let ghost nn = total_cells as int;
    let ghost root = root_cell as int;
    let ghost reach = reach_set(adj, cov, nn, vis, root);
    proof {
        lemma_reach_set_bounded(adj, cov, nn, vis, root);
        let w0 = seq![root];
        assert(is_walk(adj, cov, nn, vis, w0));
        assert(w0.last() == root);
        assert(reach.contains(root));
    }
    let ghost mut part: Set<int> = Set::empty().insert(root);
    let ghost mut popped: Set<int> = Set::empty();
    stack.push(root_cell as u32);
    visited[root_cell] = 1;
    membership[root_cell] = comp_idx;
    let mut size: u32 = 0;
    proof {
        assert(stack@ =~= seq![root_cell as u32]);
        assert(stack@[0] == root_cell as u32);
        assert(marks_ok(visited@, membership@, nn, vis, done, part, comp_idx as int));
    }
    while stack.len() > 0
        invariant
            total_cells as int <= CAPACITY,
            adj == adj_list@,
            cov == covered@,
            nn == total_cells as int,
            adjacency_ok(adj, nn),
            root == root_cell as int,
            reach == reach_set(adj, cov, nn, vis, root),
            reach.finite(),
            reach.len() <= nn,
            comp_idx as int == done.len(),
            visited@.len() == old(visited)@.len(),
            marks_ok(visited@, membership@, nn, vis, done, part, comp_idx as int),
            stack_ok(stack@, part, popped),
            part.contains(root),
            part.subset_of(reach),
            popped.finite(),
            size as int == popped.len(),
            forall|x: int| #[trigger] vis.contains(x) ==> open_cell(cov, nn, x),
            closed_under(adj, cov, nn, vis, popped, part),
        decreases reach.len() - popped.len(),
    {
        let ghost st0 = stack@;
        let u = stack.pop().unwrap();
        let ghost ui = u as int;
        let ghost old_popped = popped;
        proof {
            assert(part.contains(ui));
            assert(!popped.contains(ui));
            popped = popped.insert(ui);
            lemma_len_subset(popped, reach);
            assert(reach.contains(ui));
            lemma_reach_set_bounded(adj, cov, nn, vis, root);
            assert(u == st0[st0.len() - 1]);
            assert forall|x: int| #[trigger] part.contains(x) implies popped.contains(x) || stack@.contains(x as u32) by {
                if !popped.contains(x) {
                    assert(st0.contains(x as u32));
                    let j = choose|j: int| 0 <= j < st0.len() && st0[j] == x as u32;
                    assert(x != ui);
                    assert(0 <= x < nn);
                    assert(j != st0.len() - 1);
                    assert(stack@[j] == st0[j]);
                }
            }
            assert(stack_ok(stack@, part, popped));
        }
        size = size + 1;
        let np = push_neighbors(covered, adj_list, total_cells, u, visited, stack, membership,
            comp_idx, Ghost(vis), Ghost(done), Ghost(part), Ghost(popped), Ghost(root));
        proof {
            let p2 = np@;
            assert forall|x: int, y: int|
                #![trigger popped.contains(x), has_edge(adj, x, y)]
                popped.contains(x) && open_cell(cov, nn, y) && !vis.contains(y) && has_edge(adj, x, y)
                implies p2.contains(y) by {
                if x != ui {
                    assert(old_popped.contains(x));
                    assert(part.contains(y));
                }
            }
            part = p2;
        }
    }
    proof {
        assert forall|x: int| part.contains(x) implies popped.contains(x) by {
            assert(!stack@.contains(x as u32));
        }
        assert(popped =~= part);
        lemma_closed_contains_reach(adj, cov, nn, vis, root, part);
        assert(part =~= reach);
    }
    size
}

/// Partitions the open cells into components by repeated depth-first
/// search from each unvisited open cell, in index order. Records the size
/// of each component in `comp_sizes` and, for each open cell, its
/// component index in `membership`.
pub(crate) fn explore_components(
    covered: &BitSet,
    adj_list: &[Vec<u16>],
    total_cells: u16,
    visited: &mut Vec<u8>,
    stack: &mut Vec<u32>,
    comp_sizes: &mut Vec<u32>,
    membership: &mut Vec<u16>,
) -> (count: u16)
    requires
        total_cells as int <= CAPACITY,
        adjacency_ok(adj_list@, total_cells as int),
        old(visited)@.len() >= total_cells,
        old(membership)@.len() == total_cells,
        forall|i: int| 0 <= i < total_cells ==> old(visited)@[i] == 0,
        forall|i: int| 0 <= i < total_cells ==> old(membership)@[i] == u16::MAX,
        old(stack)@.len() == 0,
        old(comp_sizes)@.len() == 0,
    ensures
        ({
            let cs = components(adj_list@, covered@, total_cells as int);
            &&& count as int == cs.len()
            &&& final(comp_sizes)@.len() == cs.len()
            &&& forall|k: int|
                0 <= k < cs.len() ==> final(comp_sizes)@[k] as int == #[trigger] cs[k].len()
            &&& final(membership)@.len() == total_cells
            &&& forall|x: int|
                0 <= x < total_cells ==> (covered@.contains(x) ==> final(membership)@[x]
                    == u16::MAX) && (!covered@.contains(x) ==> 0 <= final(membership)@[x] < cs.len()
                    && cs[final(membership)@[x] as int].contains(x))
        }),
        final(visited)@.len() == old(visited)@.len(),
        final(stack)@.len() == 0,
{
    let n = total_cells as usize;
    let ghost adj = adj_list@;
    let ghost cov = covered@;
    let ghost nn = total_cells as int;
    let ghost mut done: Seq<Set<int>> = Seq::empty();
    let ghost mut vis: Set<int> = Set::empty();
    let mut comp_idx: u16 = 0;
    let mut start: usize = 0;
    proof {
        assert(marks_ok(visited@, membership@, nn, vis, done, Set::empty(), 0));
    }
    while start < n
        invariant
            n == total_cells as usize,
            nn == total_cells as int,
            n <= CAPACITY,
            adj == adj_list@,
            cov == covered@,
            adjacency_ok(adj, nn),
            start <= n,
            visited@.len() == old(visited)@.len(),
            stack@.len() == 0,
            comp_idx as int == done.len(),
            comp_sizes@.len() == done.len(),
            done.len() <= start,
            done + components_from(adj, cov, nn, start as int, vis) == components(adj, cov, nn),
            forall|k: int| 0 <= k < done.len() ==> comp_sizes@[k] as int == #[trigger] done[k].len(),
            marks_ok(visited@, membership@, nn, vis, done, Set::empty(), comp_idx as int),
            forall|x: int| #[trigger] vis.contains(x) ==> open_cell(cov, nn, x),
            forall|i: int| 0 <= i < start && open_cell(cov, nn, i) ==> #[trigger] vis.contains(i),
        decreases n - start,
    {
        if covered.test(start) || visited[start] != 0 {
            start = start + 1;
            continue;
        }
        let ghost root = start as int;
        let ghost reach = reach_set(adj, cov, nn, vis, root);
        let size = explore_one(covered, adj_list, total_cells, start, visited, stack, membership,
            comp_idx, Ghost(vis), Ghost(done));
        proof {
            lemma_reach_set_bounded(adj, cov, nn, vis, root);
            let w0 = seq![root];
            assert(is_walk(adj, cov, nn, vis, w0));
            assert(w0.last() == root);
            assert(reach.contains(root));
            assert(components_from(adj, cov, nn, start as int, vis) == seq![reach]
                + components_from(adj, cov, nn, start + 1, vis.union(reach)));
            assert((done.push(reach)) + components_from(adj, cov, nn, start + 1, vis.union(reach))
                =~= done + (seq![reach] + components_from(adj, cov, nn, start + 1, vis.union(reach))));
            let nd = done.push(reach);
            let nv = vis.union(reach);
            assert forall|i: int| 0 <= i < nn implies
                (#[trigger] visited@[i] != 0 <==> (nv.contains(i) || Set::<int>::empty().contains(i))) && (nv.contains(i) ==> 0 <= #[trigger] membership@[i] < nd.len()
                && nd[membership@[i] as int].contains(i)) && (Set::<int>::empty().contains(i) ==> membership@[i] == comp_idx + 1)
                && (!nv.contains(i) && !Set::<int>::empty().contains(i) ==> membership@[i] == u16::MAX) by {
                if vis.contains(i) {
                    assert(nd[membership@[i] as int] == done[membership@[i] as int]);
                }
            }
            done = nd;
            vis = nv;
        }
        comp_sizes.push(size);
        comp_idx = comp_idx + 1;
        start = start + 1;
    }
    proof {
        assert(components_from(adj, cov, nn, n as int, vis) =~= Seq::<Set<int>>::empty());
        assert(done =~= components(adj, cov, nn));
        assert forall|x: int| 0 <= x < total_cells && !covered@.contains(x) implies vis.contains(x) by {
            assert(open_cell(cov, nn, x));
        }
    }
    comp_idx
}

/// Partitions uncovered cells into components (see [`components`]).
///
/// Component sizes are written to `workspace.comp_sizes` (cleared and
/// refilled). Returns the number of components found. When
/// `out_membership` is `Some`, cell `i` receives the index of its
/// component, and covered cells receive `u16::MAX`.
pub fn bfs_components(
    covered: &BitSet,
    adj_list: &[Vec<u16>],
    total_cells: u16,
    workspace: &mut BfsWorkspace,
    out_membership: Option<&mut Vec<u16>>,
) -> (count: u16)
    requires
        total_cells as int <= CAPACITY,
        adjacency_ok(adj_list@, total_cells as int),
        old(workspace).visited@.len() >= total_cells,
        out_membership matches Some(m) ==> m@.len() == total_cells,
    ensures
        ({
            let cs = components(adj_list@, covered@, total_cells as int);
            &&& count as int == cs.len()
            &&& final(workspace).comp_sizes@.len() == cs.len()
            &&& forall|k: int|
                0 <= k < cs.len() ==> final(workspace).comp_sizes@[k] as int == #[trigger] cs[k].len()
        }),
        final(workspace).visited@.len() == old(workspace).visited@.len(),
        out_membership matches Some(m) ==> ({
            let cs = components(adj_list@, covered@, total_cells as int);
            &&& final(m)@.len() == total_cells
            &&& forall|x: int|
                0 <= x < total_cells ==> (covered@.contains(x) ==> final(m)@[x] == u16::MAX) && (
                !covered@.contains(x) ==> 0 <= final(m)@[x] < cs.len() && cs[final(m)@[x] as int].contains(x))
        }),
{
    clear_marks(&mut workspace.visited);
    workspace.stack.clear();
    workspace.comp_sizes.clear();
    let mut membership: Vec<u16> = vec![u16::MAX; total_cells as usize];
    let count = explore_components(
        covered,
        adj_list,
        total_cells,
        &mut workspace.visited,
        &mut workspace.stack,
        &mut workspace.comp_sizes,
        &mut membership,
    );
    match out_membership {
        Some(m) => {
            *m = membership;
        },
        None => {},
    }
    count
}

} // verus!
