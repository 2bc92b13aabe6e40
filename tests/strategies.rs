use bidir_map::BidirMap;

use blocksworld::a_star_searcher::AStarSearcher;
use blocksworld::breadth_first_searcher::BreadthFirstSearcher;
use blocksworld::depth_first_searcher::DepthFirstSearcher;
use blocksworld::iterative_deepening_searcher::IterativeDeepeningSearcher;
use blocksworld::search::{expand, BasicNode, Node, SearcherError};
use blocksworld::solution_depth_difficulty::SolutionDepthSearcher;
use blocksworld::world::{Direction, Entity, Location, World};

fn world(width: usize, height: usize, items: &[(Entity, isize, isize)]) -> World {
    let mut map = BidirMap::new();
    for &(entity, x, y) in items {
        map.insert(entity, Location::new(x, y));
    }
    World::new(width, height, &map).unwrap()
}

fn goal_world() -> World {
    world(
        4,
        4,
        &[(Entity::Block('A'), 1, 1), (Entity::Block('B'), 1, 2), (Entity::Block('C'), 1, 3), (Entity::Agent, 3, 3)],
    )
}

fn hard_start() -> World {
    world(
        4,
        4,
        &[(Entity::Block('A'), 0, 3), (Entity::Block('B'), 1, 3), (Entity::Block('C'), 2, 3), (Entity::Agent, 3, 3)],
    )
}

/// Five moves from the goal arrangement.
fn medium_start() -> World {
    world(
        4,
        4,
        &[(Entity::Block('A'), 1, 1), (Entity::Block('B'), 1, 3), (Entity::Block('C'), 2, 3), (Entity::Agent, 3, 3)],
    )
}

/// Walks from `node` to the root, checking each node is one legal move from
/// its parent; returns the number of moves.
fn check_path<N: Node>(node: &N, start: &World) -> u32 {
    let mut moves: u32 = 0;
    let mut depth = node.get_depth();
    let mut world = node.get_world().duplicate();
    let mut parent = node.get_parent();
    while let Some(p) = parent {
        assert_eq!(p.get_depth() + 1, depth);
        let legal = Direction::directions_array().iter().any(|d| match p.get_world().clone_and_move_agent(d) {
            Ok(w) => w.same_state(&world),
            Err(_) => false,
        });
        assert!(legal);
        moves += 1;
        depth = p.get_depth();
        world = p.get_world().duplicate();
        parent = p.get_parent();
    }
    assert_eq!(depth, 0);
    assert!(world.same_state(start));
    moves
}

#[test]
fn a_star_solves_hard_scenario() {
    let mut searcher = AStarSearcher::new(hard_start(), goal_world());
    let (node, expanded) = searcher.search().unwrap();
    assert!(node.depth >= 4);
    assert_eq!(node.depth, 14);
    assert!(expanded >= 1);
    assert!(node.world.eq_ignore_agent(&goal_world()));
    assert_eq!(check_path(&node, &hard_start()), node.depth);
    assert_eq!(node.start_to_self_cost, node.depth as usize);
}

#[test]
fn depth_first_solves_hard_scenario() {
    let mut searcher = DepthFirstSearcher::new(hard_start(), goal_world());
    let (node, expanded) = searcher.search().unwrap();
    assert!(node.depth >= 14);
    assert!(expanded >= 1);
    assert!(node.world.eq_ignore_agent(&goal_world()));
    // A depth-first walk leaves a long chain of shared parents; dropping it
    // would recurse once per ancestor, so the test lets it leak.
    std::mem::forget(node);
    std::mem::forget(searcher);
}

#[test]
fn breadth_first_finds_shortest_solution() {
    let mut searcher = BreadthFirstSearcher::new(medium_start(), goal_world());
    let (node, expanded) = searcher.search().unwrap();
    assert_eq!(node.depth, 5);
    assert!(expanded >= 1);
    assert!(node.world.eq_ignore_agent(&goal_world()));
    assert_eq!(check_path(&node, &medium_start()), 5);
}

#[test]
fn iterative_deepening_finds_shortest_solution() {
    let mut searcher = IterativeDeepeningSearcher::new(medium_start(), goal_world());
    let (node, expanded) = searcher.search().unwrap();
    assert_eq!(node.depth, 5);
    assert!(expanded >= 1);
    assert!(node.world.eq_ignore_agent(&goal_world()));
    assert_eq!(check_path(&node, &medium_start()), 5);
}

#[test]
fn a_star_matches_breadth_first_depth() {
    let mut searcher = AStarSearcher::new(medium_start(), goal_world());
    let (node, expanded) = searcher.search().unwrap();
    assert_eq!(node.depth, 5);
    assert!(expanded >= 1);
    assert_eq!(check_path(&node, &medium_start()), 5);
}

#[test]
fn depth_first_solution_is_no_shorter() {
    let mut searcher = DepthFirstSearcher::new(medium_start(), goal_world());
    let (node, _) = searcher.search().unwrap();
    assert!(node.depth >= 5);
    assert!(node.world.eq_ignore_agent(&goal_world()));
    std::mem::forget(node);
    std::mem::forget(searcher);
}

#[test]
fn start_equal_to_goal_needs_no_expansion() {
    let (n, c) = AStarSearcher::new(goal_world(), goal_world()).search().unwrap();
    assert_eq!((n.depth, c), (0, 0));
    let (n, c) = BreadthFirstSearcher::new(goal_world(), goal_world()).search().unwrap();
    assert_eq!((n.depth, c), (0, 0));
    let (n, c) = DepthFirstSearcher::new(goal_world(), goal_world()).search().unwrap();
    assert_eq!((n.depth, c), (0, 0));
    let (n, c) = IterativeDeepeningSearcher::new(goal_world(), goal_world()).search().unwrap();
    assert_eq!((n.depth, c), (0, 0));
    assert!(n.parent.is_none());
}

#[test]
fn goal_matching_up_to_agent_is_found_at_once() {
    let start = world(
        4,
        4,
        &[(Entity::Block('A'), 1, 1), (Entity::Block('B'), 1, 2), (Entity::Block('C'), 1, 3), (Entity::Agent, 0, 0)],
    );
    let (n, c) = BreadthFirstSearcher::new(start, goal_world()).search().unwrap();
    assert_eq!((n.depth, c), (0, 0));
}

#[test]
fn single_cell_world_reaches_only_itself() {
    let single = world(1, 1, &[(Entity::Agent, 0, 0)]);
    let (n, c) = BreadthFirstSearcher::new(single.duplicate(), single.duplicate()).search().unwrap();
    assert_eq!((n.depth, c), (0, 0));
    let other = world(2, 1, &[(Entity::Agent, 0, 0)]);
    let r = BreadthFirstSearcher::new(single.duplicate(), other.duplicate()).search();
    assert!(matches!(r, Err((SearcherError::GoalNotFoundError, 1))));
    let r = DepthFirstSearcher::new(single.duplicate(), other.duplicate()).search();
    assert!(matches!(r, Err((SearcherError::GoalNotFoundError, 1))));
    let r = AStarSearcher::new(single.duplicate(), other.duplicate()).search();
    assert!(matches!(r, Err((SearcherError::GoalNotFoundError, 1))));
}

#[test]
fn a_star_reports_unreachable_goal() {
    let start = world(2, 1, &[(Entity::Agent, 0, 0), (Entity::Block('A'), 1, 0)]);
    let goal = world(2, 1, &[(Entity::Agent, 1, 0), (Entity::Block('B'), 0, 0)]);
    let r = AStarSearcher::new(start, goal).search();
    assert!(matches!(r, Err((SearcherError::GoalNotFoundError, 2))));
}

#[test]
fn basic_node_keeps_its_fields() {
    let w = world(2, 2, &[(Entity::Agent, 0, 0)]);
    let root = BasicNode::new(0, Box::new(w.duplicate()), None);
    assert_eq!(root.get_depth(), 0);
    assert!(root.get_world().same_state(&w));
    assert!(root.get_parent().is_none());
    let moved = w.clone_and_move_agent(&Direction::Right).unwrap();
    let child = BasicNode::new(1, Box::new(moved), Some(std::rc::Rc::new(root)));
    assert_eq!(child.get_depth(), 1);
    assert_eq!(check_path(&child, &w), 1);
}

#[test]
fn generated_puzzles_have_their_difficulty() {
    let puzzles = SolutionDepthSearcher::new(goal_world(), 3).search();
    assert_eq!(puzzles.len(), 4);
    for (i, (difficulty, puzzle)) in puzzles.iter().enumerate() {
        assert_eq!(*difficulty as usize, i);
        let (node, _) = BreadthFirstSearcher::new(puzzle.duplicate(), goal_world()).search().unwrap();
        assert_eq!(node.depth, *difficulty as u32);
    }
}

#[test]
fn expand_appends_one_child_per_legal_move() {
    let w = world(2, 2, &[(Entity::Agent, 0, 0), (Entity::Block('A'), 1, 0)]);
    let parent = std::rc::Rc::new(BasicNode::new(3, Box::new(w.duplicate()), None));
    let mut fringe = std::collections::VecDeque::new();
    fringe.push_back(BasicNode::new(0, Box::new(w.duplicate()), None));
    expand(&parent, &[Direction::Right, Direction::Up, Direction::Down, Direction::Left], &mut fringe);
    assert_eq!(fringe.len(), 3);
    assert_eq!(fringe[0].depth, 0);
    let right = w.clone_and_move_agent(&Direction::Right).unwrap();
    let down = w.clone_and_move_agent(&Direction::Down).unwrap();
    assert!(fringe[1].world.same_state(&right));
    assert!(fringe[2].world.same_state(&down));
    assert_eq!(fringe[1].depth, 4);
    assert_eq!(fringe[2].depth, 4);
    assert!(fringe[1].get_parent().unwrap().get_world().same_state(&w));
}
