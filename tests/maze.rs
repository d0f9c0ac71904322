use kruskal_maze::grid::opposite;
use kruskal_maze::{Direction, Edge, ExhaustedError, Maze, Node};

fn edge(x: usize, y: usize, direction: Direction) -> Edge {
    Edge { x, y, direction }
}

fn run_to_exhaustion(maze: &mut Maze) -> Vec<Edge> {
    let mut opened = Vec::new();
    loop {
        match maze.tick() {
            Ok(Some(e)) => opened.push(e),
            Ok(None) => {}
            Err(ExhaustedError::Exhausted) => break,
        }
    }
    opened
}

struct PlainSets {
    parent: Vec<usize>,
}

impl PlainSets {
    fn new(n: usize) -> Self {
        PlainSets { parent: (0..n).collect() }
    }

    fn root(&self, mut i: usize) -> usize {
        while self.parent[i] != i {
            i = self.parent[i];
        }
        i
    }

    fn join(&mut self, a: usize, b: usize) -> bool {
        let (ra, rb) = (self.root(a), self.root(b));
        if ra == rb {
            return false;
        }
        self.parent[ra] = rb;
        true
    }
}

#[test]
fn opposite_of_top_and_left() {
    assert_eq!(opposite(3, 2, Direction::Top), (3, 1));
    assert_eq!(opposite(3, 2, Direction::Left), (2, 2));
    assert_eq!(opposite(3, 2, Direction::Bottom), (3, 2));
    assert_eq!(opposite(3, 2, Direction::Right), (3, 2));
}

#[test]
fn node_new_is_a_singleton_root() {
    let n = Node::new(4, 5, 9);
    assert_eq!(n, Node { x: 4, y: 5, parent: 9, rank: 0, index: 9 });
}

#[test]
fn two_by_two_has_exactly_four_candidate_edges() {
    let maze = Maze::new(2, 2);
    let edges = maze.candidate_edges();
    assert_eq!(edges.len(), 4);
    for e in [
        edge(1, 0, Direction::Left),
        edge(0, 1, Direction::Top),
        edge(1, 1, Direction::Left),
        edge(1, 1, Direction::Top),
    ] {
        assert!(edges.contains(&e));
    }
    assert_eq!(
        edges,
        vec![
            edge(0, 1, Direction::Top),
            edge(1, 0, Direction::Left),
            edge(1, 1, Direction::Left),
            edge(1, 1, Direction::Top),
        ]
    );
}

#[test]
fn candidate_count_matches_internal_adjacencies() {
    let maze = Maze::new(3, 4);
    assert_eq!(maze.remaining(), 3 * 3 + 2 * 4);
    assert_eq!(maze.width(), 3);
    assert_eq!(maze.height(), 4);
    let maze = Maze::new(5, 1);
    assert_eq!(maze.remaining(), 4);
}

#[test]
fn two_by_two_opens_three_then_rejects_the_fourth() {
    let mut maze = Maze::new(2, 2);
    let mut results = Vec::new();
    for _ in 0..4 {
        results.push(maze.step_at(0).unwrap());
    }
    assert_eq!(results.iter().filter(|r| r.is_some()).count(), 3);
    assert!(results[0].is_some() && results[1].is_some() && results[2].is_some());
    assert_eq!(results[3], None);
    assert_eq!(maze.step_at(0), Err(ExhaustedError::Exhausted));
}

#[test]
fn step_at_reports_the_drawn_edge() {
    let mut maze = Maze::new(2, 2);
    assert_eq!(maze.step_at(2), Ok(Some(edge(1, 1, Direction::Left))));
    assert_eq!(maze.candidate_edges(), vec![
        edge(0, 1, Direction::Top),
        edge(1, 0, Direction::Left),
        edge(1, 1, Direction::Top),
    ]);
}

#[test]
fn one_by_one_is_exhausted_immediately() {
    let mut maze = Maze::new(1, 1);
    assert_eq!(maze.remaining(), 0);
    assert_eq!(maze.tick(), Err(ExhaustedError::Exhausted));
    assert_eq!(maze.step_at(0), Err(ExhaustedError::Exhausted));
    assert_eq!(maze.find(0, 0), 0);
}

#[test]
fn exhaustion_opens_cells_minus_one_edges() {
    for (w, h) in [(1, 1), (1, 5), (5, 1), (2, 2), (3, 4), (7, 6), (10, 10)] {
        let mut maze = Maze::new(w, h);
        let opened = run_to_exhaustion(&mut maze);
        assert_eq!(opened.len(), w * h - 1);
        assert_eq!(maze.remaining(), 0);
    }
}

#[test]
fn exhausted_maze_is_connected() {
    let mut maze = Maze::new(6, 5);
    run_to_exhaustion(&mut maze);
    let root = maze.find(0, 0);
    for x in 0..6 {
        for y in 0..5 {
            assert_eq!(maze.find(x, y), root);
        }
    }
}

#[test]
fn opened_edges_never_close_a_cycle() {
    let (w, h) = (8, 7);
    let mut maze = Maze::new(w, h);
    let opened = run_to_exhaustion(&mut maze);
    let mut sets = PlainSets::new(w * h);
    for e in opened {
        let (dx, dy) = opposite(e.x, e.y, e.direction);
        assert!(sets.join(e.x * h + e.y, dx * h + dy));
    }
}

#[test]
fn pool_shrinks_by_one_each_step() {
    let mut maze = Maze::new(4, 3);
    let mut left = maze.remaining();
    assert_eq!(left, 17);
    while left > 0 {
        assert!(maze.tick().is_ok());
        assert_eq!(maze.remaining(), left - 1);
        left -= 1;
    }
    assert!(maze.tick().is_err());
    assert_eq!(maze.remaining(), 0);
}

#[test]
fn fresh_cells_are_their_own_roots() {
    let maze = Maze::new(3, 4);
    for x in 0..3 {
        for y in 0..4 {
            assert_eq!(maze.find(x, y), x * 4 + y);
        }
    }
}

#[test]
fn union_breaks_ties_towards_the_second_root() {
    let mut maze = Maze::new(1, 3);
    maze.union(0, 1);
    assert_eq!(maze.find(0, 0), 1);
    assert_eq!(maze.find(0, 1), 1);
    assert_eq!(maze.find(0, 2), 2);
    maze.union(2, 0);
    assert_eq!(maze.find(0, 2), 1);
    assert_eq!(maze.find(0, 0), 1);
}

#[test]
fn union_puts_lower_rank_under_higher_rank() {
    let mut maze = Maze::new(1, 3);
    maze.union(0, 1);
    maze.union(1, 2);
    assert_eq!(maze.find(0, 0), 1);
    assert_eq!(maze.find(0, 1), 1);
    assert_eq!(maze.find(0, 2), 1);
}

#[test]
fn union_twice_is_a_no_op() {
    let mut maze = Maze::new(2, 3);
    maze.union(0, 4);
    maze.union(4, 5);
    let before: Vec<usize> = (0..2).flat_map(|x| (0..3).map(move |y| (x, y))).map(|(x, y)| maze.find(x, y)).collect();
    maze.union(0, 4);
    maze.union(5, 0);
    let after: Vec<usize> = (0..2).flat_map(|x| (0..3).map(move |y| (x, y))).map(|(x, y)| maze.find(x, y)).collect();
    assert_eq!(before, after);
    assert_eq!(after[0], after[4]);
    assert_eq!(after[0], after[5]);
    assert_ne!(after[0], after[1]);
    let mut maze = Maze::new(2, 3);
    run_to_exhaustion(&mut maze);
    assert!(maze.tick().is_err());
}

#[test]
fn exhausted_error_is_named() {
    assert_eq!(format!("{:?}", ExhaustedError::Exhausted), "Exhausted");
}
