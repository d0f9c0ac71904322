use vstd::prelude::*;
use vstd::set_lib::{lemma_int_range, lemma_len_subset, set_int_range};

verus! {

/// One disjoint-set node per cell: its coordinates, its parent's index, its
/// rank, and its own index. A node is a root when `parent == index`.
#[derive(Debug, Clone, Copy, PartialEq, Eq, Structural)]
pub struct Node {
    pub x: usize,
    pub y: usize,
    pub parent: usize,
    pub rank: usize,
    pub index: usize,
}

impl Node {
    /// A singleton node: its own parent, rank zero.
    pub fn new(x: usize, y: usize, id: usize) -> (r: Node)
        ensures
            r == (Node { x, y, parent: id, rank: 0, index: id }),
    {
        Node { x: x, y: y, parent: id, rank: 0, index: id }
    }
}

/// The node reached from `i` by following parent links, at most `fuel` times.
pub open spec fn follow(nodes: Seq<Node>, i: int, fuel: nat) -> int
    decreases fuel,
{
    if fuel == 0 || nodes[i].parent == i {
        i
    } else {
        follow(nodes, nodes[i].parent as int, (fuel - 1) as nat)
    }
}

/// The representative of node `i`: the root reached by following parents
/// (in a well-formed forest no chain is longer than the number of nodes).
pub open spec fn root_of(nodes: Seq<Node>, i: int) -> int {
    follow(nodes, i, nodes.len())
}

/// Nodes `i` and `j` belong to the same group.
pub open spec fn same_set(nodes: Seq<Node>, i: int, j: int) -> bool {
    root_of(nodes, i) == root_of(nodes, j)
}

/// The indices of the roots, one per group.
pub open spec fn roots(nodes: Seq<Node>) -> Set<int> {
    Set::new(|i: int| 0 <= i < nodes.len() && nodes[i].parent == i)
}

/// The number of groups.
pub open spec fn num_sets(nodes: Seq<Node>) -> int {
    roots(nodes).len() as int
}

/// A well-formed forest: indices match positions, parents exist, ranks grow
/// strictly towards the roots, and every rank plus the number of groups stays
/// within the number of nodes (so ranks are below it and cannot overflow).
pub open spec fn forest_wf(nodes: Seq<Node>) -> bool {
    &&& nodes.len() <= usize::MAX
    &&& num_sets(nodes) >= 1
    &&& forall|i: int|
        0 <= i < nodes.len() ==> {
            &&& #[trigger] nodes[i].index == i
            &&& nodes[i].parent < nodes.len()
            &&& nodes[i].parent != i ==> nodes[i].rank < nodes[nodes[i].parent as int].rank
            &&& nodes[i].rank + num_sets(nodes) <= nodes.len()
        }
}

/// The roots are a finite set of at most as many elements as there are nodes.
pub proof fn lemma_roots_finite(nodes: Seq<Node>)
    ensures
        roots(nodes).finite(),
        roots(nodes).len() <= nodes.len(),
{
    lemma_int_range(0, nodes.len() as int);
    lemma_len_subset(roots(nodes), set_int_range(0, nodes.len() as int));
}

/// In a well-formed forest every node's representative is a root in range,
/// of at least the node's rank, and a root is its own representative.
pub proof fn lemma_root_of(nodes: Seq<Node>, i: int)
    requires
        forest_wf(nodes),
        0 <= i < nodes.len(),
    ensures
        0 <= root_of(nodes, i) < nodes.len(),
        nodes[root_of(nodes, i)].parent == root_of(nodes, i),
        nodes[root_of(nodes, i)].rank >= nodes[i].rank,
        nodes[i].parent == i ==> root_of(nodes, i) == i,
    decreases nodes.len() - nodes[i].rank,
{
    let p = nodes[i].parent as int;
    assert(nodes[i].index == i);
    if p != i {
        assert(nodes[p].index == p);
        lemma_root_step(nodes, i);
        lemma_root_of(nodes, p);
    }
}

/// With enough fuel, following parents always reaches the same node.
proof fn lemma_follow_stable(nodes: Seq<Node>, i: int, fuel: nat)
    requires
        forest_wf(nodes),
        0 <= i < nodes.len(),
        fuel >= nodes.len() - nodes[i].rank,
    ensures
        follow(nodes, i, fuel) == follow(nodes, i, (nodes.len() - nodes[i].rank) as nat),
    decreases fuel,
{
    let p = nodes[i].parent as int;
    assert(nodes[i].index == i);
    if p != i {
        assert(nodes[p].index == p);
        lemma_follow_stable(nodes, p, (fuel - 1) as nat);
        lemma_follow_stable(nodes, p, (nodes.len() - nodes[i].rank - 1) as nat);
    }
}

/// One step of the parent chain keeps the representative.
pub proof fn lemma_root_step(nodes: Seq<Node>, i: int)
    requires
        forest_wf(nodes),
        0 <= i < nodes.len(),
        nodes[i].parent != i,
    ensures
        root_of(nodes, i) == root_of(nodes, nodes[i].parent as int),
{
    let p = nodes[i].parent as int;
    assert(nodes[i].index == i);
    assert(nodes[p].index == p);
    lemma_follow_stable(nodes, p, (nodes.len() - 1) as nat);
    lemma_follow_stable(nodes, p, nodes.len());
}

/// Every node of a singleton forest is its own representative, and there are
/// as many groups as nodes.
pub proof fn lemma_singletons(nodes: Seq<Node>)
    requires
        1 <= nodes.len() <= usize::MAX,
        forall|i: int|
            0 <= i < nodes.len() ==> #[trigger] nodes[i].parent == i && nodes[i].index == i
                && nodes[i].rank == 0,
    ensures
        forest_wf(nodes),
        num_sets(nodes) == nodes.len(),
        forall|i: int| 0 <= i < nodes.len() ==> #[trigger] root_of(nodes, i) == i,
{
    lemma_int_range(0, nodes.len() as int);
    assert(roots(nodes) =~= set_int_range(0, nodes.len() as int));
    assert(num_sets(nodes) == nodes.len());
    assert forall|i: int| 0 <= i < nodes.len() implies {
        &&& #[trigger] nodes[i].index == i
        &&& nodes[i].parent < nodes.len()
        &&& nodes[i].parent != i ==> nodes[i].rank < nodes[nodes[i].parent as int].rank
        &&& nodes[i].rank + num_sets(nodes) <= nodes.len()
    } by {
        assert(nodes[i].parent == i);
    }
    assert forall|i: int| 0 <= i < nodes.len() implies #[trigger] root_of(nodes, i) == i by {
        lemma_root_of(nodes, i);
    }
}

proof fn lemma_link_wf(old_nodes: Seq<Node>, new_nodes: Seq<Node>, c: int, p: int, new_rank: usize)
    requires
        forest_wf(old_nodes),
        0 <= c < old_nodes.len(),
        0 <= p < old_nodes.len(),
        c != p,
        old_nodes[c].parent == c,
        old_nodes[p].parent == p,
        old_nodes[p].rank <= new_rank,
        old_nodes[c].rank < new_rank,
        new_rank + num_sets(old_nodes) - 1 <= old_nodes.len(),
        new_nodes == old_nodes.update(c, Node { parent: p as usize, ..old_nodes[c] }).update(
            p,
            Node { rank: new_rank, ..old_nodes[p] },
        ),
    ensures
        forest_wf(new_nodes),
        num_sets(new_nodes) == num_sets(old_nodes) - 1,
{
    lemma_roots_finite(old_nodes);
    assert(roots(new_nodes) =~= roots(old_nodes).remove(c));
    assert(roots(old_nodes).contains(c));
    assert(roots(old_nodes).contains(p));
    assert(roots(old_nodes).remove(c).contains(p));
    assert(old_nodes[c].index == c && old_nodes[p].index == p);
    assert forall|i: int| 0 <= i < new_nodes.len() implies {
        &&& #[trigger] new_nodes[i].index == i
        &&& new_nodes[i].parent < new_nodes.len()
        &&& new_nodes[i].parent != i ==> new_nodes[i].rank < new_nodes[new_nodes[i].parent as int].rank
        &&& new_nodes[i].rank + num_sets(new_nodes) <= new_nodes.len()
    } by {
        assert(old_nodes[i].index == i);
        let q = old_nodes[i].parent as int;
        assert(old_nodes[q].index == q);
    }
    assert(forest_wf(new_nodes));
}

/// Linking root `c` under root `p` (and giving `p` the rank `new_rank`) keeps
/// the forest well formed, removes one group, and sends every member of `c`'s
/// group to `p` while every other node keeps its representative.
pub proof fn lemma_link(old_nodes: Seq<Node>, new_nodes: Seq<Node>, c: int, p: int, new_rank: usize)
    requires
        forest_wf(old_nodes),
        0 <= c < old_nodes.len(),
        0 <= p < old_nodes.len(),
        c != p,
        old_nodes[c].parent == c,
        old_nodes[p].parent == p,
        old_nodes[p].rank <= new_rank,
        old_nodes[c].rank < new_rank,
        new_rank + num_sets(old_nodes) - 1 <= old_nodes.len(),
        new_nodes == old_nodes.update(c, Node { parent: p as usize, ..old_nodes[c] }).update(
            p,
            Node { rank: new_rank, ..old_nodes[p] },
        ),
    ensures
        forest_wf(new_nodes),
        num_sets(new_nodes) == num_sets(old_nodes) - 1,
        forall|i: int|
            0 <= i < old_nodes.len() ==> #[trigger] root_of(new_nodes, i) == if root_of(
                old_nodes,
                i,
            ) == c {
                p
            } else {
                root_of(old_nodes, i)
            },
{
    lemma_link_wf(old_nodes, new_nodes, c, p, new_rank);
    assert forall|i: int| 0 <= i < old_nodes.len() implies #[trigger] root_of(new_nodes, i) == if root_of(
        old_nodes,
        i,
    ) == c {
        p
    } else {
        root_of(old_nodes, i)
    } by {
        lemma_link_root(old_nodes, new_nodes, c, p, i);
    }
}

proof fn lemma_link_root(old_nodes: Seq<Node>, new_nodes: Seq<Node>, c: int, p: int, i: int)
    requires
        forest_wf(old_nodes),
        forest_wf(new_nodes),
        old_nodes.len() == new_nodes.len(),
        0 <= c < old_nodes.len(),
        0 <= p < old_nodes.len(),
        0 <= i < old_nodes.len(),
        c != p,
        old_nodes[c].parent == c,
        old_nodes[p].parent == p,
        new_nodes[c].parent == p,
        new_nodes[p].parent == p,
        forall|k: int| 0 <= k < old_nodes.len() && k != c ==> #[trigger] new_nodes[k].parent == old_nodes[k].parent,
    ensures
        root_of(new_nodes, i) == if root_of(old_nodes, i) == c {
            p
        } else {
            root_of(old_nodes, i)
        },
    decreases old_nodes.len() - old_nodes[i].rank,
{
    lemma_root_of(old_nodes, i);
    lemma_root_of(new_nodes, p);
    lemma_root_of(old_nodes, c);
    assert(old_nodes[i].index == i && new_nodes[i].index == i);
    if i == c {
        lemma_root_step(new_nodes, c);
    } else if old_nodes[i].parent != i {
        let q = old_nodes[i].parent as int;
        assert(old_nodes[i].index == i);
        assert(new_nodes[i].parent == q);
        assert(old_nodes[q].index == q);
        lemma_link_root(old_nodes, new_nodes, c, p, q);
        lemma_root_step(old_nodes, i);
        lemma_root_step(new_nodes, i);
    } else {
        assert(new_nodes[i].parent == i);
        lemma_root_of(new_nodes, i);
    }
}

} // verus!

verus! {

/// What `union(a, b)` does to the forest: nothing when `a` and `b` already
/// share a root; otherwise the root of lower rank goes under the other, and
/// on a tie `b`'s root takes `a`'s root and the rank of `a`'s root plus one.
pub open spec fn union_result(old_nodes: Seq<Node>, new_nodes: Seq<Node>, a: int, b: int) -> bool {
    let ra = root_of(old_nodes, a);
    let rb = root_of(old_nodes, b);
    if ra == rb {
        new_nodes == old_nodes
    } else if old_nodes[ra].rank > old_nodes[rb].rank {
        new_nodes == old_nodes.update(rb, Node { parent: ra as usize, ..old_nodes[rb] })
    } else if old_nodes[ra].rank < old_nodes[rb].rank {
        new_nodes == old_nodes.update(ra, Node { parent: rb as usize, ..old_nodes[ra] })
    } else {
        new_nodes == old_nodes.update(ra, Node { parent: rb as usize, ..old_nodes[ra] }).update(
            rb,
            Node { rank: (old_nodes[ra].rank + 1) as usize, ..old_nodes[rb] },
        )
    }
}

/// The groups after joining the groups of `a` and `b`: two nodes share a
/// group afterwards iff they did before, or one was with `a` and the other
/// with `b`. The number of groups drops by one unless they were already joined.
pub open spec fn merged(old_nodes: Seq<Node>, new_nodes: Seq<Node>, a: int, b: int) -> bool {
    &&& new_nodes.len() == old_nodes.len()
    &&& forall|i: int, j: int|
        0 <= i < old_nodes.len() && 0 <= j < old_nodes.len() ==> (#[trigger] same_set(new_nodes, i, j)
            <==> (same_set(old_nodes, i, j) || (same_set(old_nodes, i, a) && same_set(old_nodes, j, b))
            || (same_set(old_nodes, i, b) && same_set(old_nodes, j, a))))
    &&& num_sets(new_nodes) == num_sets(old_nodes) - if same_set(old_nodes, a, b) {
        0int
    } else {
        1int
    }
}

/// A union as `union_result` describes it keeps the forest well formed and
/// merges exactly the groups of `a` and `b`.
pub proof fn lemma_union_result(old_nodes: Seq<Node>, new_nodes: Seq<Node>, a: int, b: int)
    requires
        forest_wf(old_nodes),
        0 <= a < old_nodes.len(),
        0 <= b < old_nodes.len(),
        union_result(old_nodes, new_nodes, a, b),
    ensures
        forest_wf(new_nodes),
        merged(old_nodes, new_nodes, a, b),
        same_set(new_nodes, a, b),
{
    let ra = root_of(old_nodes, a);
    let rb = root_of(old_nodes, b);
    lemma_root_of(old_nodes, a);
    lemma_root_of(old_nodes, b);
    if ra != rb {
        assert(old_nodes[ra].index == ra && old_nodes[rb].index == rb);
        lemma_roots_finite(old_nodes);
        assert(roots(old_nodes).contains(ra));
        assert(roots(old_nodes).remove(ra).contains(rb));
        assert(num_sets(old_nodes) >= 2);
        let (c, p) = if old_nodes[ra].rank > old_nodes[rb].rank {
            (rb, ra)
        } else {
            (ra, rb)
        };
        let new_rank = if old_nodes[ra].rank == old_nodes[rb].rank {
            (old_nodes[ra].rank + 1) as usize
        } else {
            old_nodes[p].rank
        };
        assert(new_nodes =~= old_nodes.update(c, Node { parent: p as usize, ..old_nodes[c] }).update(
            p,
            Node { rank: new_rank, ..old_nodes[p] },
        ));
        lemma_link(old_nodes, new_nodes, c, p, new_rank);
    }
}

} // verus!
