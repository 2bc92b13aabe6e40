use bidir_map::BidirMap;

use blocksworld::world::{Direction, Entity, Location, World, WorldError};

fn placements(items: &[(Entity, isize, isize)]) -> BidirMap<Entity, Location> {
    let mut map = BidirMap::new();
    for &(entity, x, y) in items {
        map.insert(entity, Location::new(x, y));
    }
    map
}

fn raw_placements(items: &[(Entity, isize, isize)]) -> BidirMap<Entity, Location> {
    items.iter().map(|&(entity, x, y)| (entity, Location::new(x, y))).collect()
}

fn world(width: usize, height: usize, items: &[(Entity, isize, isize)]) -> World {
    World::new(width, height, &placements(items)).unwrap()
}

fn err_of<T>(r: Result<T, WorldError>) -> WorldError {
    match r {
        Ok(_) => panic!("expected an error"),
        Err(e) => e,
    }
}

#[test]
fn new_rejects_zero_agents() {
    let map = placements(&[(Entity::Block('A'), 0, 0)]);
    assert_eq!(err_of(World::new(2, 2, &map)), WorldError::InvalidNumberOfAgentsError);
}

#[test]
fn new_rejects_two_agents() {
    let map = raw_placements(&[(Entity::Agent, 0, 0), (Entity::Agent, 1, 1)]);
    assert_eq!(err_of(World::new(2, 2, &map)), WorldError::InvalidNumberOfAgentsError);
}

#[test]
fn new_rejects_location_at_width() {
    let map = placements(&[(Entity::Agent, 0, 0), (Entity::Block('A'), 3, 0)]);
    assert_eq!(err_of(World::new(3, 2, &map)), WorldError::EntityOutOfBoundsError);
}

#[test]
fn new_rejects_negative_location() {
    let map = placements(&[(Entity::Agent, 0, -1)]);
    assert_eq!(err_of(World::new(3, 2, &map)), WorldError::EntityOutOfBoundsError);
}

#[test]
fn new_rejects_shared_cell() {
    let map = raw_placements(&[(Entity::Agent, 0, 0), (Entity::Block('A'), 0, 0)]);
    assert_eq!(err_of(World::new(2, 2, &map)), WorldError::DuplicateLocationError);
}

#[test]
fn new_rejects_repeated_block() {
    let map = raw_placements(&[(Entity::Agent, 0, 0), (Entity::Block('A'), 1, 0), (Entity::Block('A'), 1, 1)]);
    assert_eq!(err_of(World::new(2, 2, &map)), WorldError::DuplicateLocationError);
}

#[test]
fn new_rejects_empty_placement() {
    let map = placements(&[(Entity::Agent, 0, 0), (Entity::Empty, 1, 1)]);
    assert_eq!(err_of(World::new(2, 2, &map)), WorldError::EmptyPlacementError);
}

#[test]
fn bounds_error_comes_before_agent_count() {
    let map = placements(&[(Entity::Block('A'), 5, 5)]);
    assert_eq!(err_of(World::new(2, 2, &map)), WorldError::EntityOutOfBoundsError);
}

#[test]
fn queries_report_placements() {
    let w = world(3, 2, &[(Entity::Agent, 2, 1), (Entity::Block('A'), 0, 0)]);
    assert_eq!(*w.get_entity_location(&Entity::Agent).unwrap(), Location::new(2, 1));
    assert_eq!(*w.get_entity_location(&Entity::Block('A')).unwrap(), Location::new(0, 0));
    assert_eq!(err_of(w.get_entity_location(&Entity::Block('Z'))), WorldError::NonExistentEntityError);
    assert_eq!(w.get_grid_location(&Location::new(0, 0)).unwrap(), Entity::Block('A'));
    assert_eq!(w.get_grid_location(&Location::new(2, 1)).unwrap(), Entity::Agent);
    assert_eq!(w.get_grid_location(&Location::new(1, 1)).unwrap(), Entity::Empty);
    assert_eq!(err_of(w.get_grid_location(&Location::new(3, 0))), WorldError::EntityOutOfBoundsError);
    assert_eq!(w.placements().len(), 2);
}

#[test]
fn move_into_empty_cell() {
    let w = world(3, 3, &[(Entity::Agent, 1, 1), (Entity::Block('A'), 0, 0)]);
    let moved = w.clone_and_move_agent(&Direction::Right).unwrap();
    assert_eq!(*moved.get_entity_location(&Entity::Agent).unwrap(), Location::new(2, 1));
    assert_eq!(*moved.get_entity_location(&Entity::Block('A')).unwrap(), Location::new(0, 0));
    assert_eq!(moved.get_grid_location(&Location::new(1, 1)).unwrap(), Entity::Empty);
    assert_eq!(*w.get_entity_location(&Entity::Agent).unwrap(), Location::new(1, 1));
}

#[test]
fn move_swaps_with_block() {
    let w = world(3, 3, &[(Entity::Agent, 1, 1), (Entity::Block('A'), 1, 0)]);
    let moved = w.clone_and_move_agent(&Direction::Up).unwrap();
    assert_eq!(*moved.get_entity_location(&Entity::Agent).unwrap(), Location::new(1, 0));
    assert_eq!(*moved.get_entity_location(&Entity::Block('A')).unwrap(), Location::new(1, 1));
    assert_eq!(moved.placements().len(), 2);
    assert_eq!(*w.get_entity_location(&Entity::Block('A')).unwrap(), Location::new(1, 0));
}

#[test]
fn move_off_grid_fails() {
    let w = world(3, 3, &[(Entity::Agent, 0, 2)]);
    assert_eq!(err_of(w.clone_and_move_agent(&Direction::Left)), WorldError::InvalidAgentMoveError);
    assert_eq!(err_of(w.clone_and_move_agent(&Direction::Down)), WorldError::InvalidAgentMoveError);
    assert!(w.clone_and_move_agent(&Direction::Up).is_ok());
    assert!(w.clone_and_move_agent(&Direction::Right).is_ok());
}

#[test]
fn single_cell_world_has_no_moves() {
    let w = world(1, 1, &[(Entity::Agent, 0, 0)]);
    for d in Direction::directions_array().iter() {
        assert_eq!(err_of(w.clone_and_move_agent(d)), WorldError::InvalidAgentMoveError);
    }
}

#[test]
fn move_then_back_restores_world() {
    let w = world(3, 3, &[(Entity::Agent, 1, 1), (Entity::Block('A'), 1, 0), (Entity::Block('B'), 2, 1)]);
    let pairs = [
        (Direction::Up, Direction::Down),
        (Direction::Down, Direction::Up),
        (Direction::Left, Direction::Right),
        (Direction::Right, Direction::Left),
    ];
    for (there, back) in pairs.iter() {
        let moved = w.clone_and_move_agent(there).unwrap();
        let restored = moved.clone_and_move_agent(back).unwrap();
        assert!(restored.same_state(&w));
        assert!(restored.eq_ignore_agent(&w));
    }
}

#[test]
fn eq_ignore_agent_is_reflexive() {
    let w = world(3, 3, &[(Entity::Agent, 1, 1), (Entity::Block('A'), 1, 0)]);
    assert!(w.eq_ignore_agent(&w));
    assert!(w.same_state(&w));
}

#[test]
fn eq_ignore_agent_ignores_agent_location() {
    let a = world(3, 3, &[(Entity::Agent, 1, 1), (Entity::Block('A'), 1, 0)]);
    let b = world(3, 3, &[(Entity::Agent, 2, 2), (Entity::Block('A'), 1, 0)]);
    assert!(a.eq_ignore_agent(&b));
    assert!(b.eq_ignore_agent(&a));
    assert!(!a.same_state(&b));
    assert!(a != b);
}

#[test]
fn eq_ignore_agent_sees_blocks_bounds_and_counts() {
    let a = world(3, 3, &[(Entity::Agent, 1, 1), (Entity::Block('A'), 1, 0)]);
    let moved_block = world(3, 3, &[(Entity::Agent, 1, 1), (Entity::Block('A'), 0, 0)]);
    let wider = world(4, 3, &[(Entity::Agent, 1, 1), (Entity::Block('A'), 1, 0)]);
    let more = world(3, 3, &[(Entity::Agent, 1, 1), (Entity::Block('A'), 1, 0), (Entity::Block('B'), 2, 2)]);
    assert!(!a.eq_ignore_agent(&moved_block));
    assert!(!a.eq_ignore_agent(&wider));
    assert!(!a.eq_ignore_agent(&more));
    assert!(!more.eq_ignore_agent(&a));
}

#[test]
fn same_state_follows_insertion_order_freely() {
    let a = world(3, 3, &[(Entity::Agent, 1, 1), (Entity::Block('A'), 1, 0)]);
    let b = world(3, 3, &[(Entity::Block('A'), 1, 0), (Entity::Agent, 1, 1)]);
    assert!(a.same_state(&b));
    assert!(a == b);
    let c = a.duplicate();
    assert!(c.same_state(&a));
}

#[test]
fn distance_to_is_manhattan() {
    assert_eq!(Location::new(0, 3).distance_to(&Location::new(1, 1)), 3);
    assert_eq!(Location::new(2, 2).distance_to(&Location::new(2, 2)), 0);
    assert_eq!(Location::new(-1, 4).distance_to(&Location::new(3, 1)), 7);
}

#[test]
fn directions_array_lists_all_four() {
    let d = Direction::directions_array();
    assert_eq!(d, [Direction::Up, Direction::Down, Direction::Left, Direction::Right]);
}
