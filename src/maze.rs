use vstd::prelude::*;
use rand::Rng;

use crate::forest::{
    forest_wf, lemma_root_of, lemma_root_step, lemma_singletons, lemma_union_result, merged,
    num_sets, root_of, same_set, union_result, Node,
};
use crate::grid::{cell_index, is_candidate, neighbour, opposite, Direction, Edge};

verus! {

/// The error of a step taken once no candidate wall is left.
#[derive(Debug, Clone, Copy, PartialEq, Eq, Structural)]
pub enum ExhaustedError {
    Exhausted,
}

/// A maze under construction: the grid's dimensions, the pool of candidate
/// walls not yet drawn, and one disjoint-set node per cell.
pub struct Maze {
    height: usize,
    width: usize,
    edges: Vec<Edge>,
    nodes: Vec<Node>,
}

/// `x * height + y` lies in `[0, width * height)` for a cell of the grid.
proof fn lemma_cell_in_range(x: int, y: int, width: int, height: int)
    requires
        0 <= x < width,
        0 <= y < height,
    ensures
        0 <= cell_index(x, y, height) < width * height,
        x * height + height <= width * height,
{
    assert(0 <= x * height) by (nonlinear_arith)
        requires
            0 <= x,
            0 <= height,
    ;
    assert(x * height + height <= width * height) by (nonlinear_arith)
        requires
            x + 1 <= width,
            0 <= height,
    ;
}

/// Distinct cells of a grid have distinct flattened indices.
proof fn lemma_cell_index_injective(x1: int, y1: int, x2: int, y2: int, height: int)
    requires
        0 <= x1,
        0 <= x2,
        0 <= y1 < height,
        0 <= y2 < height,
        cell_index(x1, y1, height) == cell_index(x2, y2, height),
    ensures
        x1 == x2,
        y1 == y2,
{
    if x1 < x2 {
        assert(x1 * height + height <= x2 * height) by (nonlinear_arith)
            requires
                x1 + 1 <= x2,
                0 <= height,
        ;
    } else if x2 < x1 {
        assert(x2 * height + height <= x1 * height) by (nonlinear_arith)
            requires
                x2 + 1 <= x1,
                0 <= height,
        ;
    }
}

/// The number of internal walls of a `width` by `height` grid.
pub open spec fn candidate_count(width: int, height: int) -> int {
    width * (height - 1) + (width - 1) * height
}

impl Maze {
    /// Builds every cell as a singleton group and every internal wall as a
    /// candidate: a `Left` wall for each cell with `x > 0`, a `Top` wall for
    /// each cell with `y > 0`.
    pub fn new(width: usize, height: usize) -> (m: Maze)
        requires
            width >= 1,
            height >= 1,
            width * height <= usize::MAX,
        ensures
            m.wf(),
            m.grid_width() == width,
            m.grid_height() == height,
            forall|e: Edge| #[trigger]
                m.pool().contains(e) <==> is_candidate(e, width as int, height as int),
            m.pool().len() == candidate_count(width as int, height as int),
            m.groups() == m.cell_count(),
            forall|i: int| 0 <= i < m.cell_count() ==> #[trigger] root_of(m.forest(), i) == i,
    {
        let mut edges: Vec<Edge> = Vec::new();
        let mut nodes: Vec<Node> = Vec::new();
        let ghost w = width as int;
        let ghost h = height as int;
        let mut x: usize = 0;
        while x < width
            invariant
                1 <= w == width,
                1 <= h == height,
                w * h <= usize::MAX,
                x <= width,
                nodes.len() == x * h,
                forall|k: int|
                    0 <= k < nodes.len() ==> {
                        &&& #[trigger] nodes@[k].parent == k
                        &&& nodes@[k].index == k
                        &&& nodes@[k].rank == 0
                        &&& nodes@[k].x < w
                        &&& nodes@[k].y < h
                        &&& cell_index(nodes@[k].x as int, nodes@[k].y as int, h) == k
                    },
                forall|e: Edge| #[trigger]
                    edges@.contains(e) <==> is_candidate(e, w, h) && cell_index(
                        e.x as int,
                        e.y as int,
                        h,
                    ) < nodes.len(),
                edges@.no_duplicates(),
                edges.len() == x * (h - 1) + if x > 0 {
                    (x - 1) * h
                } else {
                    0
                },
            decreases width - x,
        {
            let mut y: usize = 0;
            proof {
                lemma_cell_in_range(x as int, 0, w, h);
            }
            while y < height
                invariant
                    1 <= w == width,
                    1 <= h == height,
                    w * h <= usize::MAX,
                    x < width,
                    y <= height,
                    x * h + h <= w * h,
                    nodes.len() == x * h + y,
                    forall|k: int|
                        0 <= k < nodes.len() ==> {
                            &&& #[trigger] nodes@[k].parent == k
                            &&& nodes@[k].index == k
                            &&& nodes@[k].rank == 0
                            &&& nodes@[k].x < w
                            &&& nodes@[k].y < h
                            &&& cell_index(nodes@[k].x as int, nodes@[k].y as int, h) == k
                        },
                    forall|e: Edge| #[trigger]
                        edges@.contains(e) <==> is_candidate(e, w, h) && cell_index(
                            e.x as int,
                            e.y as int,
                            h,
                        ) < nodes.len(),
                    edges@.no_duplicates(),
                    edges.len() == x * (h - 1) + (if x > 0 {
                        (x - 1) * h + y
                    } else {
                        0
                    }) + (if y > 0 {
                        y - 1
                    } else {
                        0
                    }),
                decreases height - y,
            {
                let id = nodes.len();
                let ghost old_edges = edges@;
                let ghost old_nodes = nodes@;
                proof {
                    assert(id == cell_index(x as int, y as int, h));
                    lemma_cell_in_range(x as int, y as int, w, h);
                }
                nodes.push(Node::new(x, y, id));
                let ghost left = Edge { x: x, y: y, direction: Direction::Left };
                let ghost top = Edge { x: x, y: y, direction: Direction::Top };
                proof {
                    assert(!old_edges.contains(left));
                    assert(!old_edges.contains(top));
                }
                if x > 0 {
                    edges.push(Edge { x: x, y: y, direction: Direction::Left });
                }
                let ghost mid_edges = edges@;
                proof {
                    assert(mid_edges.contains(left) <==> x > 0) by {
                        if x > 0 {
                            assert(mid_edges[mid_edges.len() - 1] == left);
                        }
                    }
                    assert forall|e: Edge| #[trigger] mid_edges.contains(e) implies old_edges.contains(e) || (x > 0 && e == left) by {
                        let k = choose|k: int| 0 <= k < mid_edges.len() && mid_edges[k] == e;
                        if k < old_edges.len() {
                            assert(old_edges[k] == e);
                        }
                    }
                    assert forall|e: Edge| old_edges.contains(e) implies #[trigger] mid_edges.contains(e) by {
                        let k = choose|k: int| 0 <= k < old_edges.len() && old_edges[k] == e;
                        assert(mid_edges[k] == e);
                    }
                    assert(!mid_edges.contains(top));
                }
                if y > 0 {
                    edges.push(Edge { x: x, y: y, direction: Direction::Top });
                }
                proof {
                    assert(edges@.contains(top) <==> y > 0) by {
                        if y > 0 {
                            assert(edges@[edges@.len() - 1] == top);
                        }
                    }
                    assert forall|e: Edge| #[trigger] edges@.contains(e) implies mid_edges.contains(e) || (y > 0 && e == top) by {
                        let k = choose|k: int| 0 <= k < edges@.len() && edges@[k] == e;
                        if k < mid_edges.len() {
                            assert(mid_edges[k] == e);
                        }
                    }
                    assert forall|e: Edge| mid_edges.contains(e) implies #[trigger] edges@.contains(e) by {
                        let k = choose|k: int| 0 <= k < mid_edges.len() && mid_edges[k] == e;
                        assert(edges@[k] == e);
                    }
                    assert forall|e: Edge| #[trigger]
                        edges@.contains(e) <==> is_candidate(e, w, h) && cell_index(
                            e.x as int,
                            e.y as int,
                            h,
                        ) < nodes.len() by {
                        if is_candidate(e, w, h) && cell_index(e.x as int, e.y as int, h) == id {
                            lemma_cell_index_injective(e.x as int, e.y as int, x as int, y as int, h);
                        }
                        assert(mid_edges.contains(e) <==> old_edges.contains(e) || (x > 0 && e == left));
                    }
                    assert forall|k: int| 0 <= k < nodes.len() implies {
                        &&& #[trigger] nodes@[k].parent == k
                        &&& nodes@[k].index == k
                        &&& nodes@[k].rank == 0
                        &&& nodes@[k].x < w
                        &&& nodes@[k].y < h
                        &&& cell_index(nodes@[k].x as int, nodes@[k].y as int, h) == k
                    } by {
                        if k < id {
                            assert(nodes@[k] == old_nodes[k]);
                        }
                    }
                }
                y = y + 1;
            }
            proof {
                assert((x + 1) * (h - 1) == x * (h - 1) + (h - 1)) by (nonlinear_arith);
                assert((x - 1) * h + h == x * h) by (nonlinear_arith);
                assert(x * h + h == (x + 1) * h) by (nonlinear_arith);
            }
            x = x + 1;
        }
        let m = Maze { width, height, edges, nodes };
        proof {
            assert(m.cell_count() == w * h);
            assert(w * h >= 1) by (nonlinear_arith)
                requires
                    w >= 1,
                    h >= 1,
            ;
            lemma_singletons(m.forest());
            assert forall|e: Edge| #[trigger]
                m.pool().contains(e) <==> is_candidate(e, w, h) by {
                if is_candidate(e, w, h) {
                    lemma_cell_in_range(e.x as int, e.y as int, w, h);
                }
            }
            assert forall|i: int| 0 <= i < m.forest().len() implies {
                &&& #[trigger] m.forest()[i].x < m.grid_width()
                &&& m.forest()[i].y < m.grid_height()
                &&& cell_index(m.forest()[i].x as int, m.forest()[i].y as int, m.grid_height()) == i
            } by {
                assert(nodes@[i].parent == i);
            }
            assert forall|k: int| 0 <= k < m.pool().len() implies is_candidate(
                #[trigger] m.pool()[k],
                m.grid_width(),
                m.grid_height(),
            ) by {
                assert(m.pool().contains(m.pool()[k]));
            }
            assert(w * (h - 1) + (w - 1) * h == candidate_count(w, h));
        }
        m
    }
}

impl Maze {
    /// Number of columns.
    pub closed spec fn grid_width(&self) -> int {
        self.width as int
    }

    /// Number of rows.
    pub closed spec fn grid_height(&self) -> int {
        self.height as int
    }

    /// The candidate walls not yet drawn.
    pub closed spec fn pool(&self) -> Seq<Edge> {
        self.edges@
    }

    /// The disjoint-set forest, indexed by flattened cell index.
    pub closed spec fn forest(&self) -> Seq<Node> {
        self.nodes@
    }

    /// Number of cells.
    pub open spec fn cell_count(&self) -> int {
        self.grid_width() * self.grid_height()
    }

    /// Flattened index of the cell that owns wall `e`.
    pub open spec fn near_cell(&self, e: Edge) -> int {
        cell_index(e.x as int, e.y as int, self.grid_height())
    }

    /// Flattened index of the cell across wall `e`.
    pub open spec fn far_cell(&self, e: Edge) -> int {
        let (nx, ny) = neighbour(e.x as int, e.y as int, e.direction);
        cell_index(nx, ny, self.grid_height())
    }

    /// The two cells that wall `e` separates are already in one group.
    pub open spec fn joined(&self, e: Edge) -> bool {
        same_set(self.forest(), self.near_cell(e), self.far_cell(e))
    }

    /// The number of groups of cells.
    pub open spec fn groups(&self) -> int {
        num_sets(self.forest())
    }

    /// Dimensions and forest agree: one well-formed node per cell, each
    /// recording its own coordinates.
    pub open spec fn grid_wf(&self) -> bool {
        &&& self.grid_width() >= 1
        &&& self.grid_height() >= 1
        &&& self.cell_count() <= usize::MAX
        &&& self.forest().len() == self.cell_count()
        &&& forest_wf(self.forest())
        &&& forall|i: int|
            0 <= i < self.forest().len() ==> {
                &&& #[trigger] self.forest()[i].x < self.grid_width()
                &&& self.forest()[i].y < self.grid_height()
                &&& cell_index(self.forest()[i].x as int, self.forest()[i].y as int, self.grid_height()) == i
            }
    }

    /// The maze invariant: the pool holds distinct candidate walls, and the
    /// two sides of every candidate wall already drawn are in one group.
    pub open spec fn wf(&self) -> bool {
        &&& self.grid_wf()
        &&& forall|k: int|
            0 <= k < self.pool().len() ==> is_candidate(
                #[trigger] self.pool()[k],
                self.grid_width(),
                self.grid_height(),
            )
        &&& self.pool().no_duplicates()
        &&& forall|e: Edge|
            #![trigger self.joined(e)]
            is_candidate(e, self.grid_width(), self.grid_height()) && !self.pool().contains(e)
                ==> self.joined(e)
    }

    fn get_index(&self, x: usize, y: usize) -> (r: usize)
        requires
            self.grid_wf(),
            x < self.grid_width(),
            y < self.grid_height(),
        ensures
            r == cell_index(x as int, y as int, self.grid_height()),
    {
        proof {
            lemma_cell_in_range(x as int, y as int, self.grid_width(), self.grid_height());
        }
        x * self.height + y
    }

    /// Walks the parent chain from `node` to its root, without compression.
    fn find_node_set(&self, node: &Node) -> (r: usize)
        requires
            self.grid_wf(),
            node.index < self.forest().len(),
            *node == self.forest()[node.index as int],
        ensures
            r == root_of(self.forest(), node.index as int),
    {
        let ghost nodes = self.forest();
        let mut current: &Node = node;
        while current.parent != current.index
            invariant
                self.grid_wf(),
                nodes == self.forest(),
                current.index < nodes.len(),
                *current == nodes[current.index as int],
                root_of(nodes, current.index as int) == root_of(nodes, node.index as int),
            decreases nodes.len() - current.rank,
        {
            proof {
                let i = current.index as int;
                assert(nodes[i].index == i);
                let p = nodes[i].parent as int;
                assert(nodes[p].index == p);
                lemma_root_step(nodes, i);
            }
            current = &self.nodes[current.parent];
        }
        proof {
            assert(nodes[current.index as int].index == current.index);
            lemma_root_of(nodes, current.index as int);
        }
        current.index
    }

    /// The representative of cell `(x, y)`.
    pub fn find(&self, x: usize, y: usize) -> (r: usize)
        requires
            self.grid_wf(),
            x < self.grid_width(),
            y < self.grid_height(),
        ensures
            r == root_of(self.forest(), cell_index(x as int, y as int, self.grid_height())),
            r < self.cell_count(),
    {
        let index = self.get_index(x, y);
        proof {
            lemma_cell_in_range(x as int, y as int, self.grid_width(), self.grid_height());
            assert(self.forest()[index as int].index == index);
            lemma_root_of(self.forest(), index as int);
        }
        self.find_node_set(&self.nodes[index])
    }

    /// Joins the groups of the cells with flattened indices `x` and `y`, by
    /// rank; does nothing when they are already joined.
    pub fn union(&mut self, x: usize, y: usize)
        requires
            old(self).grid_wf(),
            x < old(self).cell_count(),
            y < old(self).cell_count(),
        ensures
            final(self).grid_wf(),
            final(self).grid_width() == old(self).grid_width(),
            final(self).grid_height() == old(self).grid_height(),
            final(self).pool() == old(self).pool(),
            union_result(old(self).forest(), final(self).forest(), x as int, y as int),
            merged(old(self).forest(), final(self).forest(), x as int, y as int),
            same_set(final(self).forest(), x as int, y as int),
            same_set(old(self).forest(), x as int, y as int) ==> *final(self) == *old(self),
            old(self).wf() ==> final(self).wf(),
    {
        let ghost nodes = self.forest();
        let ghost pre = *self;
        proof {
            assert(nodes[x as int].index == x);
            assert(nodes[y as int].index == y);
            lemma_root_of(nodes, x as int);
            lemma_root_of(nodes, y as int);
        }
        let x_root = self.find_node_set(&self.nodes[x]);
        let y_root = self.find_node_set(&self.nodes[y]);
        proof {
            assert(nodes[x_root as int].index == x_root);
            assert(nodes[y_root as int].index == y_root);
        }
        if self.nodes[x_root].parent == self.nodes[y_root].parent {
            proof {
                lemma_union_result(nodes, nodes, x as int, y as int);
            }
            return;
        }
        if self.nodes[x_root].rank > self.nodes[y_root].rank {
            let mut absorbed = self.nodes[y_root];
            absorbed.parent = self.nodes[x_root].index;
            self.nodes.set(y_root, absorbed);
        } else {
            let mut absorbed = self.nodes[x_root];
            absorbed.parent = self.nodes[y_root].index;
            self.nodes.set(x_root, absorbed);
            if self.nodes[x_root].rank == self.nodes[y_root].rank {
                let mut absorber = self.nodes[y_root];
                absorber.rank = self.nodes[x_root].rank + 1;
                self.nodes.set(y_root, absorber);
            }
        }
        proof {
            lemma_union_result(nodes, self.forest(), x as int, y as int);
            assert forall|i: int| 0 <= i < self.forest().len() implies {
                &&& #[trigger] self.forest()[i].x < self.grid_width()
                &&& self.forest()[i].y < self.grid_height()
                &&& cell_index(self.forest()[i].x as int, self.forest()[i].y as int, self.grid_height()) == i
            } by {
                assert(nodes[i].x < self.grid_width());
            }
            if pre.wf() {
                let post = *self;
                assert forall|e: Edge|
                    #![trigger post.joined(e)]
                    is_candidate(e, post.grid_width(), post.grid_height()) && !post.pool().contains(e)
                        implies post.joined(e) by {
                    assert(pre.joined(e));
                    lemma_cell_in_range(e.x as int, e.y as int, pre.grid_width(), pre.grid_height());
                    let (nx, ny) = neighbour(e.x as int, e.y as int, e.direction);
                    lemma_cell_in_range(nx, ny, pre.grid_width(), pre.grid_height());
                }
            }
        }
    }
}

} // verus!

verus! {

/// Relies on rand 0.7's `thread_rng` and `Rng::gen_range(low, high)`: a value
/// in `[low, high)`; it panics only when `low >= high`.
#[verifier::external_body]
fn random_index(len: usize) -> (r: usize)
    requires
        len > 0,
    ensures
        r < len,
{
    rand::thread_rng().gen_range(0, len)
}

/// One step from `pre` to `post` that drew the wall at position `k` of the
/// pool and reported `out`: the wall leaves the pool whatever the outcome; it
/// is reported (and the two groups it separates are joined by `union`) exactly
/// when its two cells were in different groups; otherwise the forest is
/// unchanged and nothing is reported.
pub open spec fn step_taken(pre: Maze, post: Maze, k: int, out: Option<Edge>) -> bool {
    let e = pre.pool()[k];
    &&& 0 <= k < pre.pool().len()
    &&& post.grid_width() == pre.grid_width()
    &&& post.grid_height() == pre.grid_height()
    &&& post.pool() == pre.pool().remove(k)
    &&& post.pool().len() == pre.pool().len() - 1
    &&& out == if pre.joined(e) {
        None
    } else {
        Some(e)
    }
    &&& post.joined(e)
    &&& union_result(pre.forest(), post.forest(), pre.near_cell(e), pre.far_cell(e))
    &&& merged(pre.forest(), post.forest(), pre.near_cell(e), pre.far_cell(e))
    &&& pre.joined(e) ==> post.forest() == pre.forest()
}

/// `post` and `out` can come from one step taken on `pre`, whichever wall it drew.
pub open spec fn is_step(pre: Maze, post: Maze, out: Option<Edge>) -> bool {
    exists|k: int| #[trigger] step_taken(pre, post, k, out)
}

impl Maze {
    /// Draws the candidate wall at position `index` of the pool and opens it
    /// if its two cells are not yet connected; fails once the pool is empty.
    pub fn step_at(&mut self, index: usize) -> (r: Result<Option<Edge>, ExhaustedError>)
        requires
            old(self).wf(),
            old(self).pool().len() > 0 ==> index < old(self).pool().len(),
        ensures
            final(self).wf(),
            old(self).pool().len() == 0 ==> r == Err::<Option<Edge>, ExhaustedError>(
                ExhaustedError::Exhausted,
            ) && *final(self) == *old(self),
            old(self).pool().len() > 0 ==> r is Ok && step_taken(
                *old(self),
                *final(self),
                index as int,
                r->Ok_0,
            ),
    {
        if self.edges.len() == 0 {
            return Err(ExhaustedError::Exhausted);
        }
        let ghost pre = *self;
        let choice = self.edges.remove(index);
        proof {
            assert(pre.pool()[index as int] == choice);
            assert(is_candidate(choice, pre.grid_width(), pre.grid_height()));
        }
        let (dx, dy) = opposite(choice.x, choice.y, choice.direction);
        proof {
            lemma_cell_in_range(choice.x as int, choice.y as int, pre.grid_width(), pre.grid_height());
            lemma_cell_in_range(dx as int, dy as int, pre.grid_width(), pre.grid_height());
        }
        let set1 = self.find(choice.x, choice.y);
        let set2 = self.find(dx, dy);
        let result = if set1 != set2 {
            let pos1 = self.get_index(choice.x, choice.y);
            let pos2 = self.get_index(dx, dy);
            self.union(pos1, pos2);
            Some(choice)
        } else {
            proof {
                lemma_union_result(pre.forest(), pre.forest(), pre.near_cell(choice), pre.far_cell(choice));
            }
            None
        };
        proof {
            let post = *self;
            assert(post.pool() =~= pre.pool().remove(index as int));
            assert forall|k: int| 0 <= k < post.pool().len() implies is_candidate(
                #[trigger] post.pool()[k],
                post.grid_width(),
                post.grid_height(),
            ) by {
                if k < index {
                    assert(post.pool()[k] == pre.pool()[k]);
                } else {
                    assert(post.pool()[k] == pre.pool()[k + 1]);
                }
            }
            assert forall|i: int, j: int| 0 <= i < post.pool().len() && 0 <= j < post.pool().len() && i != j
                implies post.pool()[i] != post.pool()[j] by {
                let i0 = if i < index { i } else { i + 1 };
                let j0 = if j < index { j } else { j + 1 };
                assert(post.pool()[i] == pre.pool()[i0]);
                assert(post.pool()[j] == pre.pool()[j0]);
            }
            assert forall|e: Edge|
                #![trigger post.joined(e)]
                is_candidate(e, post.grid_width(), post.grid_height()) && !post.pool().contains(e)
                    implies post.joined(e) by {
                if e != choice {
                    if pre.pool().contains(e) {
                        let k = choose|k: int| 0 <= k < pre.pool().len() && pre.pool()[k] == e;
                        assert(k != index);
                        if k < index {
                            assert(post.pool()[k] == e);
                        } else {
                            assert(post.pool()[k - 1] == e);
                        }
                    }
                    assert(pre.joined(e));
                    lemma_cell_in_range(e.x as int, e.y as int, pre.grid_width(), pre.grid_height());
                    let (nx, ny) = neighbour(e.x as int, e.y as int, e.direction);
                    lemma_cell_in_range(nx, ny, pre.grid_width(), pre.grid_height());
                }
            }
        }
        Ok(result)
    }

    /// Draws a uniformly random candidate wall and opens it if its two cells
    /// are not yet connected; fails once the pool is empty.
    pub fn tick(&mut self) -> (r: Result<Option<Edge>, ExhaustedError>)
        requires
            old(self).wf(),
        ensures
            final(self).wf(),
            old(self).pool().len() == 0 ==> r == Err::<Option<Edge>, ExhaustedError>(
                ExhaustedError::Exhausted,
            ) && *final(self) == *old(self),
            old(self).pool().len() > 0 ==> r is Ok && is_step(*old(self), *final(self), r->Ok_0),
    {
        if self.edges.len() == 0 {
            return Err(ExhaustedError::Exhausted);
        }
        let index = random_index(self.edges.len());
        self.step_at(index)
    }
}

} // verus!

verus! {

impl Maze {
    /// Number of columns.
    pub fn width(&self) -> (r: usize)
        ensures
            r == self.grid_width(),
    {
        self.width
    }

    /// Number of rows.
    pub fn height(&self) -> (r: usize)
        ensures
            r == self.grid_height(),
    {
        self.height
    }

    /// Number of candidate walls not yet drawn.
    pub fn remaining(&self) -> (r: usize)
        ensures
            r == self.pool().len(),
    {
        self.edges.len()
    }

    /// The candidate walls not yet drawn, in pool order.
    pub fn candidate_edges(&self) -> (r: Vec<Edge>)
        ensures
            r@ == self.pool(),
    {
        let mut out: Vec<Edge> = Vec::new();
        let mut k: usize = 0;
        while k < self.edges.len()
            invariant
                k <= self.pool().len(),
                out@ == self.pool().subrange(0, k as int),
            decreases self.pool().len() - k,
        {
            out.push(self.edges[k]);
            k = k + 1;
            proof {
                assert(out@ =~= self.pool().subrange(0, k as int));
            }
        }
        proof {
            assert(out@ =~= self.pool());
        }
        out
    }
}

} // verus!
