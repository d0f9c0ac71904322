use vstd::prelude::*;

use crate::forest::{
    forest_wf, lemma_root_of, lemma_union_result, root_of, roots, same_set, union_result, Node,
};
use crate::grid::{cell_index, is_candidate, Direction, Edge};
use crate::maze::{is_step, step_taken, Maze};

verus! {

/// Every cell is in the group of cell `(0, 0)` once no candidate wall is left.
proof fn lemma_joined_to_origin(m: Maze, x: int, y: int)
    requires
        m.wf(),
        m.pool().len() == 0,
        0 <= x < m.grid_width(),
        0 <= y < m.grid_height(),
    ensures
        same_set(m.forest(), cell_index(x, y, m.grid_height()), 0),
    decreases x, y,
{
    let h = m.grid_height();
    assert(x <= x * h) by (nonlinear_arith)
        requires
            0 <= x,
            h >= 1,
    ;
    assert(x * h <= m.grid_width() * h) by (nonlinear_arith)
        requires
            0 <= x < m.grid_width(),
            h >= 1,
    ;
    assert(h <= m.grid_width() * h) by (nonlinear_arith)
        requires
            m.grid_width() >= 1,
            h >= 1,
    ;
    if y > 0 {
        let e = Edge { x: x as usize, y: y as usize, direction: Direction::Top };
        assert(is_candidate(e, m.grid_width(), h));
        assert(!m.pool().contains(e));
        assert(m.joined(e));
        assert(m.near_cell(e) == cell_index(x, y, h));
        assert(m.far_cell(e) == cell_index(x, y - 1, h));
        lemma_joined_to_origin(m, x, y - 1);
    } else if x > 0 {
        let e = Edge { x: x as usize, y: 0, direction: Direction::Left };
        assert(is_candidate(e, m.grid_width(), h));
        assert(!m.pool().contains(e));
        assert(m.joined(e));
        assert(m.near_cell(e) == cell_index(x, y, h));
        assert(m.far_cell(e) == cell_index(x - 1, 0, h));
        lemma_joined_to_origin(m, x - 1, 0);
    } else {
        assert(x * h + y == 0) by (nonlinear_arith)
            requires
                x == 0,
                y == 0,
        ;
    }
}

/// Once the pool is exhausted the whole grid is one group: every two cells
/// share a representative, and there is a single root.
pub proof fn law_exhausted_maze_is_connected(m: Maze)
    requires
        m.wf(),
        m.pool().len() == 0,
    ensures
        forall|i: int, j: int|
            0 <= i < m.cell_count() && 0 <= j < m.cell_count() ==> #[trigger] same_set(
                m.forest(),
                i,
                j,
            ),
        m.groups() == 1,
{
    let nodes = m.forest();
    assert forall|i: int| 0 <= i < m.cell_count() implies #[trigger] root_of(nodes, i) == root_of(
        nodes,
        0,
    ) by {
        assert(nodes[i].x < m.grid_width());
        lemma_joined_to_origin(m, nodes[i].x as int, nodes[i].y as int);
    }
    assert(m.cell_count() >= 1) by (nonlinear_arith)
        requires
            m.cell_count() == m.grid_width() * m.grid_height(),
            m.grid_width() >= 1,
            m.grid_height() >= 1,
    ;
    lemma_root_of(nodes, 0);
    let r = root_of(nodes, 0);
    assert forall|k: int| roots(nodes).contains(k) <==> k == r by {
        if roots(nodes).contains(k) {
            lemma_root_of(nodes, k);
        }
    }
    assert(roots(nodes) =~= set![r]);
}

/// The number of walls reported as opened in a sequence of step outcomes.
pub open spec fn opened_count(outs: Seq<Option<Edge>>) -> int
    decreases outs.len(),
{
    if outs.len() == 0 {
        0
    } else {
        opened_count(outs.drop_last()) + if outs.last() is Some {
            1int
        } else {
            0int
        }
    }
}

/// Along a run, the groups left plus the walls opened so far stay equal to
/// the number of cells.
proof fn lemma_run_prefix(run: Seq<Maze>, outs: Seq<Option<Edge>>, k: int)
    requires
        run.len() == outs.len() + 1,
        forall|j: int| 0 <= j < run.len() ==> (#[trigger] run[j]).wf(),
        run[0].groups() == run[0].cell_count(),
        forall|j: int|
            0 <= j < outs.len() ==> #[trigger] is_step(run[j], run[j + 1], outs[j]),
        0 <= k <= outs.len(),
    ensures
        run[k].cell_count() == run[0].cell_count(),
        run[k].groups() + opened_count(outs.take(k)) == run[0].cell_count(),
    decreases k,
{
    if k == 0 {
        assert(outs.take(0).len() == 0);
    } else {
        lemma_run_prefix(run, outs, k - 1);
        let pre = run[k - 1];
        let post = run[k];
        assert(is_step(run[k - 1], run[k - 1 + 1], outs[k - 1]));
        let i = choose|i: int| #[trigger] step_taken(pre, post, i, outs[k - 1]);
        assert(outs.take(k).drop_last() =~= outs.take(k - 1));
        assert(outs.take(k).last() == outs[k - 1]);
    }
}

/// A run of steps from a fresh maze (every cell its own group) until the pool
/// is exhausted reports exactly one opened wall fewer than there are cells.
pub proof fn law_spanning_tree_edge_count(run: Seq<Maze>, outs: Seq<Option<Edge>>)
    requires
        run.len() == outs.len() + 1,
        forall|k: int| 0 <= k < run.len() ==> (#[trigger] run[k]).wf(),
        run[0].groups() == run[0].cell_count(),
        forall|k: int|
            0 <= k < outs.len() ==> #[trigger] is_step(run[k], run[k + 1], outs[k]),
        run[outs.len() as int].pool().len() == 0,
    ensures
        opened_count(outs) == run[0].cell_count() - 1,
{
    lemma_run_prefix(run, outs, outs.len() as int);
    assert(outs.take(outs.len() as int) =~= outs);
    law_exhausted_maze_is_connected(run[outs.len() as int]);
}

/// A union of two nodes that a union has already joined leaves the forest
/// as it is.
pub proof fn law_union_twice_is_noop(
    n0: Seq<Node>,
    n1: Seq<Node>,
    n2: Seq<Node>,
    a: int,
    b: int,
)
    requires
        forest_wf(n0),
        0 <= a < n0.len(),
        0 <= b < n0.len(),
        union_result(n0, n1, a, b),
        union_result(n1, n2, a, b),
    ensures
        forest_wf(n1),
        n2 == n1,
{
    lemma_union_result(n0, n1, a, b);
}

/// In a well-formed forest each group has exactly one root: every node's
/// representative is a root of its group, and two roots of one group coincide.
pub proof fn law_one_root_per_group(nodes: Seq<Node>)
    requires
        forest_wf(nodes),
    ensures
        forall|i: int|
            0 <= i < nodes.len() ==> roots(nodes).contains(#[trigger] root_of(nodes, i)) && same_set(
                nodes,
                i,
                root_of(nodes, i),
            ),
        forall|r1: int, r2: int|
            roots(nodes).contains(r1) && roots(nodes).contains(r2) && #[trigger] same_set(
                nodes,
                r1,
                r2,
            ) ==> r1 == r2,
{
    assert forall|i: int| 0 <= i < nodes.len() implies roots(nodes).contains(
        #[trigger] root_of(nodes, i),
    ) && same_set(nodes, i, root_of(nodes, i)) by {
        lemma_root_of(nodes, i);
        lemma_root_of(nodes, root_of(nodes, i));
    }
    assert forall|r1: int, r2: int|
        roots(nodes).contains(r1) && roots(nodes).contains(r2) && #[trigger] same_set(
            nodes,
            r1,
            r2,
        ) implies r1 == r2 by {
        lemma_root_of(nodes, r1);
        lemma_root_of(nodes, r2);
    }
}

} // verus!
