//! The puzzle state: a bounded grid holding one agent and labelled blocks.

use vstd::prelude::*;

use bidir_map::BidirMap;

use crate::bidir::{bidir_pairs, first_with_entity, first_with_location, swap_removed, pairs_clone, pairs_get_by_first, pairs_get_by_second, pairs_insert, pairs_len, pairs_to_vec};

verus! {

/// What can stand in a grid cell.
#[derive(Clone, Copy, Debug, PartialEq, Eq, Hash, Structural)]
pub enum Entity {
    Agent,
    Block(char),
    Empty,
}

/// A grid coordinate: `x` grows rightwards, `y` downwards.
#[derive(Clone, Copy, Debug, PartialEq, Eq, Hash, Structural)]
pub struct Location {
    pub x: isize,
    pub y: isize,
}

/// The Manhattan distance between two cells.
pub open spec fn manhattan(a: Location, b: Location) -> int {
    let dx = a.x - b.x;
    let dy = a.y - b.y;
    (if dx < 0 { -dx } else { dx }) + (if dy < 0 { -dy } else { dy })
}

impl Location {
    pub fn new(x: isize, y: isize) -> (r: Location)
        ensures
            r.x == x,
            r.y == y,
    {
        Location { x, y }
    }

    /// The Manhattan distance to `other`.
    pub fn distance_to(&self, other: &Location) -> (r: usize)
        requires
            manhattan(*self, *other) <= usize::MAX,
        ensures
            r == manhattan(*self, *other),
    {
        let dx: i128 = self.x as i128 - other.x as i128;
        let dy: i128 = self.y as i128 - other.y as i128;
        let ax: i128 = if dx < 0 { -dx } else { dx };
        let ay: i128 = if dy < 0 { -dy } else { dy };
        (ax + ay) as usize
    }
}


/// One step of the agent on the grid.
#[derive(Clone, Copy, Debug, PartialEq, Eq, Hash, Structural)]
pub enum Direction {
    Up,
    Down,
    Left,
    Right,
}

impl Direction {
    /// The four directions, in a fixed order.
    pub fn directions_array() -> (r: [Direction; 4])
        ensures
            r@ == seq![Direction::Up, Direction::Down, Direction::Left, Direction::Right],
    {
        let r = [Direction::Up, Direction::Down, Direction::Left, Direction::Right];
        assert(r@ =~= seq![Direction::Up, Direction::Down, Direction::Left, Direction::Right]);
        r
    }
}

/// Why a world could not be built, queried or moved.
#[derive(Clone, Copy, Debug, PartialEq, Eq, Structural)]
pub enum WorldError {
    /// A location lies outside the grid.
    EntityOutOfBoundsError,
    /// The placements hold no agent, or more than one.
    InvalidNumberOfAgentsError,
    /// The entity asked for is not in the world.
    NonExistentEntityError,
    /// Two placements share a cell, or name the same entity twice.
    DuplicateLocationError,
    /// The agent's move would leave the grid.
    InvalidAgentMoveError,
    /// A placement puts the empty marker on a cell.
    EmptyPlacementError,
}

/// Horizontal offset of a direction.
pub open spec fn dx(d: Direction) -> int {
    match d {
        Direction::Left => -1,
        Direction::Right => 1,
        _ => 0,
    }
}

/// Vertical offset of a direction.
pub open spec fn dy(d: Direction) -> int {
    match d {
        Direction::Up => -1,
        Direction::Down => 1,
        _ => 0,
    }
}

/// The direction that undoes `d`.
pub open spec fn opposite(d: Direction) -> Direction {
    match d {
        Direction::Up => Direction::Down,
        Direction::Down => Direction::Up,
        Direction::Left => Direction::Right,
        Direction::Right => Direction::Left,
    }
}

/// The cell one step from `l` in direction `d`.
pub open spec fn neighbour(l: Location, d: Direction) -> Location {
    Location { x: (l.x + dx(d)) as isize, y: (l.y + dy(d)) as isize }
}

pub open spec fn in_bounds(width: int, height: int, l: Location) -> bool {
    0 <= l.x < width && 0 <= l.y < height
}

/// The abstract state of a world: its bounds and where each entity stands.
pub struct WorldView {
    pub width: int,
    pub height: int,
    pub entities: Map<Entity, Location>,
}

impl WorldView {
    /// One agent, no empty marker, everything in bounds, one entity per cell.
    pub open spec fn wf(self) -> bool {
        &&& self.width <= isize::MAX
        &&& self.height <= isize::MAX
        &&& self.entities.dom().finite()
        &&& self.entities.contains_key(Entity::Agent)
        &&& !self.entities.contains_key(Entity::Empty)
        &&& forall|e: Entity|
            self.entities.contains_key(e) ==> in_bounds(self.width, self.height, self.entities[e])
        &&& forall|e1: Entity, e2: Entity|
            self.entities.contains_key(e1) && self.entities.contains_key(e2) && e1 != e2
                ==> self.entities[e1] != self.entities[e2]
    }

    pub open spec fn agent(self) -> Location {
        self.entities[Entity::Agent]
    }

    /// The entity standing on `l`, or `Empty`.
    pub open spec fn occupant(self, l: Location) -> Entity {
        if exists|e: Entity| self.entities.contains_key(e) && self.entities[e] == l {
            choose|e: Entity| self.entities.contains_key(e) && self.entities[e] == l
        } else {
            Entity::Empty
        }
    }

    /// The agent steps in direction `d`; a block on the target cell takes
    /// the agent's old cell.
    pub open spec fn move_agent(self, d: Direction) -> Result<WorldView, WorldError> {
        let from = self.agent();
        let to = neighbour(from, d);
        if !in_bounds(self.width, self.height, to) {
            Err(WorldError::InvalidAgentMoveError)
        } else {
            let occ = self.occupant(to);
            let placed = if occ == Entity::Empty {
                self.entities
            } else {
                self.entities.insert(occ, from)
            };
            Ok(WorldView { width: self.width, height: self.height, entities: placed.insert(Entity::Agent, to) })
        }
    }

    /// Same bounds, same number of entities, and every entity but the agent
    /// on the same cell in `other`.
    pub open spec fn eq_ignore_agent(self, other: WorldView) -> bool {
        &&& self.width == other.width
        &&& self.height == other.height
        &&& self.entities.dom().len() == other.entities.dom().len()
        &&& forall|e: Entity|
            #[trigger] self.entities.contains_key(e) && e != Entity::Agent
                ==> other.entities.contains_key(e) && other.entities[e] == self.entities[e]
    }
}

/// Every entity of `a` (but the agent, if `skip_agent`) stands on the same
/// cell in `b`.
pub open spec fn agree_on(a: WorldView, b: WorldView, skip_agent: bool) -> bool {
    forall|e: Entity|
        #[trigger] a.entities.contains_key(e) && (!skip_agent || e != Entity::Agent)
            ==> b.entities.contains_key(e) && b.entities[e] == a.entities[e]
}

impl WorldView {
    /// This world with the agent put on `l`.
    pub open spec fn with_agent_at(self, l: Location) -> WorldView {
        WorldView { width: self.width, height: self.height, entities: self.entities.insert(Entity::Agent, l) }
    }
}

/// Moving the agent and then moving it back always succeeds and restores
/// the world exactly, so in particular up to the agent's position.
pub proof fn lemma_move_then_back(w: WorldView, d: Direction)
    requires
        w.wf(),
        w.move_agent(d) is Ok,
    ensures
        w.move_agent(d).unwrap().move_agent(opposite(d)) == Ok::<WorldView, WorldError>(w),
        w.move_agent(d).unwrap().move_agent(opposite(d)).unwrap().eq_ignore_agent(w),
{
    lemma_move_wf(w, d);
    let from = w.agent();
    let to = neighbour(from, d);
    let occ = w.occupant(to);
    let w1 = w.move_agent(d).unwrap();
    assert(w1.agent() == to);
    assert(neighbour(to, opposite(d)) == from);
    if occ == Entity::Empty {
        assert forall|e: Entity| w1.entities.contains_key(e) implies w1.entities[e] != from by {
            if e != Entity::Agent {
                assert(w.entities[e] != w.entities[Entity::Agent]);
            }
        }
        assert(w1.occupant(from) == Entity::Empty);
    } else {
        assert(w1.entities.contains_key(occ) && w1.entities[occ] == from);
        let c = w1.occupant(from);
        assert(w1.entities.contains_key(c) && w1.entities[c] == from);
        assert(c == occ);
    }
    let w2 = w1.move_agent(opposite(d)).unwrap();
    assert(w2.entities =~= w.entities);
    lemma_eq_ignore_agent_reflexive(w);
}

/// Every world matches itself when the agent is ignored.
pub proof fn lemma_eq_ignore_agent_reflexive(w: WorldView)
    ensures
        w.eq_ignore_agent(w),
{
}

/// Putting the agent elsewhere, in either world, never changes whether two
/// worlds match when the agent is ignored.
pub proof fn lemma_eq_ignore_agent_ignores_agent(w: WorldView, other: WorldView, l: Location)
    requires
        w.entities.contains_key(Entity::Agent),
    ensures
        w.with_agent_at(l).eq_ignore_agent(other) == w.eq_ignore_agent(other),
        other.eq_ignore_agent(w.with_agent_at(l)) == other.eq_ignore_agent(w),
{
    let v = w.with_agent_at(l);
    assert(v.entities.dom() =~= w.entities.dom());
    if w.eq_ignore_agent(other) {
        assert forall|e: Entity| #[trigger] v.entities.contains_key(e) && e != Entity::Agent
            implies other.entities.contains_key(e) && other.entities[e] == v.entities[e] by {
            assert(w.entities.contains_key(e));
        }
    }
    if v.eq_ignore_agent(other) {
        assert forall|e: Entity| #[trigger] w.entities.contains_key(e) && e != Entity::Agent
            implies other.entities.contains_key(e) && other.entities[e] == w.entities[e] by {
            assert(v.entities.contains_key(e));
        }
    }
    if other.eq_ignore_agent(w) {
        assert forall|e: Entity| #[trigger] other.entities.contains_key(e) && e != Entity::Agent
            implies v.entities.contains_key(e) && v.entities[e] == other.entities[e] by {
            assert(w.entities.contains_key(e));
        }
    }
    if other.eq_ignore_agent(v) {
        assert forall|e: Entity| #[trigger] other.entities.contains_key(e) && e != Entity::Agent
            implies w.entities.contains_key(e) && w.entities[e] == other.entities[e] by {
            assert(v.entities.contains_key(e));
        }
    }
}

/// An entry of a listing of a well-formed world's entities lies in bounds.
pub proof fn lemma_listing_in_bounds(s: Seq<(Entity, Location)>, w: WorldView, i: int)
    requires
        w.wf(),
        pairs_map(s) == w.entities,
        unique_entities(s),
        0 <= i < s.len(),
    ensures
        w.entities.contains_key(s[i].0),
        in_bounds(w.width, w.height, s[i].1),
        0 <= s[i].1.x < isize::MAX,
        0 <= s[i].1.y < isize::MAX,
{
    lemma_pairs_map(s);
    assert(exists|k: int| 0 <= k < s.len() && s[k].0 == s[i].0);
    assert(w.entities[s[i].0] == s[i].1);
}

/// The map that a sequence of pairs describes (a later pair wins).
pub open spec fn pairs_map(s: Seq<(Entity, Location)>) -> Map<Entity, Location>
    decreases s.len(),
{
    if s.len() == 0 {
        Map::empty()
    } else {
        pairs_map(s.drop_last()).insert(s.last().0, s.last().1)
    }
}

pub open spec fn unique_entities(s: Seq<(Entity, Location)>) -> bool {
    forall|i: int, j: int| 0 <= i < j < s.len() ==> s[i].0 != s[j].0
}

pub open spec fn all_in_bounds(width: int, height: int, s: Seq<(Entity, Location)>) -> bool {
    forall|i: int| 0 <= i < s.len() ==> in_bounds(width, height, s[i].1)
}

pub open spec fn one_agent(s: Seq<(Entity, Location)>) -> bool {
    exists|i: int|
        0 <= i < s.len() && s[i].0 == Entity::Agent && forall|j: int|
            0 <= j < s.len() && s[j].0 == Entity::Agent ==> j == i
}

pub open spec fn no_empty(s: Seq<(Entity, Location)>) -> bool {
    forall|i: int| 0 <= i < s.len() ==> s[i].0 != Entity::Empty
}

pub open spec fn placements_distinct(s: Seq<(Entity, Location)>) -> bool {
    forall|i: int, j: int| 0 <= i < j < s.len() ==> s[i].0 != s[j].0 && s[i].1 != s[j].1
}

/// The first rule that a list of placements breaks, if any.
pub open spec fn placement_error(width: int, height: int, s: Seq<(Entity, Location)>) -> Option<WorldError> {
    if !all_in_bounds(width, height, s) {
        Some(WorldError::EntityOutOfBoundsError)
    } else if !one_agent(s) {
        Some(WorldError::InvalidNumberOfAgentsError)
    } else if !no_empty(s) {
        Some(WorldError::EmptyPlacementError)
    } else if !placements_distinct(s) {
        Some(WorldError::DuplicateLocationError)
    } else {
        None
    }
}

pub(crate) proof fn lemma_pairs_map(s: Seq<(Entity, Location)>)
    ensures
        pairs_map(s).dom().finite(),
        forall|e: Entity|
            pairs_map(s).contains_key(e) <==> exists|i: int| 0 <= i < s.len() && s[i].0 == e,
        unique_entities(s) ==> forall|i: int|
            0 <= i < s.len() ==> #[trigger] pairs_map(s)[s[i].0] == s[i].1,
        unique_entities(s) ==> pairs_map(s).dom().len() == s.len(),
    decreases s.len(),
{
    if s.len() > 0 {
        let t = s.drop_last();
        lemma_pairs_map(t);
        assert forall|e: Entity|
            pairs_map(s).contains_key(e) <==> exists|i: int| 0 <= i < s.len() && s[i].0 == e by {
            if pairs_map(s).contains_key(e) {
                if e == s.last().0 {
                    assert(s[s.len() - 1].0 == e);
                } else {
                    let i = choose|i: int| 0 <= i < t.len() && t[i].0 == e;
                    assert(s[i] == t[i]);
                }
            }
            if exists|i: int| 0 <= i < s.len() && s[i].0 == e {
                let i = choose|i: int| 0 <= i < s.len() && s[i].0 == e;
                if i < s.len() - 1 {
                    assert(t[i] == s[i]);
                }
            }
        }
        if unique_entities(s) {
            assert(unique_entities(t)) by {
                assert forall|i: int, j: int| 0 <= i < j < t.len() implies t[i].0 != t[j].0 by {
                    assert(t[i] == s[i] && t[j] == s[j]);
                }
            }
            assert forall|i: int| 0 <= i < s.len() implies #[trigger] pairs_map(s)[s[i].0] == s[i].1 by {
                if i < s.len() - 1 {
                    assert(t[i] == s[i]);
                    assert(s[i].0 != s[s.len() - 1].0);
                }
            }
            assert(!pairs_map(t).contains_key(s.last().0)) by {
                if pairs_map(t).contains_key(s.last().0) {
                    let i = choose|i: int| 0 <= i < t.len() && t[i].0 == s.last().0;
                    assert(t[i] == s[i]);
                    assert(s[i].0 != s[s.len() - 1].0);
                }
            }
            assert(pairs_map(s).dom() == pairs_map(t).dom().insert(s.last().0));
        }
    }
}


proof fn lemma_swap_removed(s: Seq<(Entity, Location)>, i: int)
    requires
        0 <= i < s.len(),
        unique_entities(s),
    ensures
        unique_entities(swap_removed(s, i)),
        forall|a: int| 0 <= a < s.len() - 1 ==> swap_removed(s, i)[a].0 != s[i].0,
        pairs_map(swap_removed(s, i)) == pairs_map(s).remove(s[i].0),
{
    let r = swap_removed(s, i);
    let n = s.len() - 1;
    assert forall|a: int| 0 <= a < n implies r[a] == (if a == i { s[n] } else { s[a] }) by {}
    assert forall|a: int, b: int| 0 <= a < b < r.len() implies r[a].0 != r[b].0 by {
        assert(r[a] == (if a == i { s[n] } else { s[a] }));
        assert(r[b] == (if b == i { s[n] } else { s[b] }));
    }
    assert forall|a: int| 0 <= a < n implies r[a].0 != s[i].0 by {
        assert(r[a] == (if a == i { s[n] } else { s[a] }));
    }
    lemma_pairs_map(s);
    lemma_pairs_map(r);
    let m = pairs_map(s).remove(s[i].0);
    assert forall|e: Entity| pairs_map(r).contains_key(e) <==> m.contains_key(e) by {
        if m.contains_key(e) {
            let k = choose|k: int| 0 <= k < s.len() && s[k].0 == e;
            if k == n {
                assert(r[i] == s[n]);
            } else {
                assert(r[k] == s[k]);
            }
        }
        if pairs_map(r).contains_key(e) {
            let a = choose|a: int| 0 <= a < r.len() && r[a].0 == e;
            assert(r[a] == (if a == i { s[n] } else { s[a] }));
        }
    }
    assert forall|e: Entity| #[trigger] pairs_map(r).contains_key(e) implies pairs_map(r)[e] == m[e] by {
        let a = choose|a: int| 0 <= a < r.len() && r[a].0 == e;
        assert(r[a] == (if a == i { s[n] } else { s[a] }));
        assert(pairs_map(r)[r[a].0] == r[a].1);
        if a == i {
            assert(pairs_map(s)[s[n].0] == s[n].1);
        } else {
            assert(pairs_map(s)[s[a].0] == s[a].1);
        }
    }
    assert(pairs_map(r) =~= m);
}

/// Moving the agent keeps a world well formed.
pub(crate) proof fn lemma_move_wf(w: WorldView, d: Direction)
    requires
        w.wf(),
        w.move_agent(d) is Ok,
    ensures
        w.move_agent(d).unwrap().wf(),
        w.occupant(neighbour(w.agent(), d)) != Entity::Agent,
        w.occupant(neighbour(w.agent(), d)) != Entity::Empty ==> {
            &&& w.entities.contains_key(w.occupant(neighbour(w.agent(), d)))
            &&& w.entities[w.occupant(neighbour(w.agent(), d))] == neighbour(w.agent(), d)
        },
        w.occupant(neighbour(w.agent(), d)) == Entity::Empty ==> forall|e: Entity|
            w.entities.contains_key(e) ==> w.entities[e] != neighbour(w.agent(), d),
{
    let from = w.agent();
    let to = neighbour(from, d);
    let occ = w.occupant(to);
    if exists|e: Entity| w.entities.contains_key(e) && w.entities[e] == to {
        assert(w.entities.contains_key(occ) && w.entities[occ] == to);
    }
    assert(from != to);
    let r = w.move_agent(d).unwrap();
    assert forall|e1: Entity, e2: Entity|
        r.entities.contains_key(e1) && r.entities.contains_key(e2) && e1 != e2
            implies r.entities[e1] != r.entities[e2] by {
        if e1 != Entity::Agent && e1 != occ && e2 != Entity::Agent && e2 != occ {
            assert(w.entities[e1] != w.entities[e2]);
        } else if e1 != Entity::Agent && e1 != occ {
            assert(w.entities[e1] != from);
            assert(w.entities[e1] != to);
        } else if e2 != Entity::Agent && e2 != occ {
            assert(w.entities[e2] != from);
            assert(w.entities[e2] != to);
        }
    }
}

/// A grid of entities: exactly one agent, blocks, and empty cells.
pub struct World {
    entities: BidirMap<Entity, Location>,
    width: isize,
    height: isize,
}

impl View for World {
    type V = WorldView;

    closed spec fn view(&self) -> WorldView {
        WorldView {
            width: self.width as int,
            height: self.height as int,
            entities: pairs_map(bidir_pairs(self.entities)),
        }
    }
}

impl World {
    #[verifier::type_invariant]
    closed spec fn inv(self) -> bool {
        &&& unique_entities(bidir_pairs(self.entities))
        &&& self@.wf()
    }

    pub fn width(&self) -> (r: isize)
        ensures
            r == self@.width,
    {
        self.width
    }

    pub fn height(&self) -> (r: isize)
        ensures
            r == self@.height,
    {
        self.height
    }

    /// Each entity with its location, every entity once, in no particular
    /// order.
    pub fn placements(&self) -> (r: Vec<(Entity, Location)>)
        ensures
            self@.wf(),
            pairs_map(r@) == self@.entities,
            unique_entities(r@),
    {
        proof {
            use_type_invariant(self);
        }
        pairs_to_vec(&self.entities)
    }

    /// Builds a world from its placements, after checking them.
    pub fn new(width: usize, height: usize, entity_starts: &BidirMap<Entity, Location>) -> (r: Result<World, WorldError>)
        requires
            width <= isize::MAX,
            height <= isize::MAX,
        ensures
            match placement_error(width as int, height as int, bidir_pairs(*entity_starts)) {
                Some(e) => r == Err::<World, WorldError>(e),
                None => r is Ok && r.unwrap()@ == (WorldView {
                    width: width as int,
                    height: height as int,
                    entities: pairs_map(bidir_pairs(*entity_starts)),
                }),
            },
    {
        let width = width as isize;
        let height = height as isize;
        Self::check_start_invariants(width, height, entity_starts)?;
        let entities = pairs_clone(entity_starts);
        let ghost s = bidir_pairs(entities);
        proof {
            lemma_pairs_map(s);
            let m = pairs_map(s);
            assert forall|e: Entity| m.contains_key(e) implies in_bounds(width as int, height as int, m[e]) by {
                let i = choose|i: int| 0 <= i < s.len() && s[i].0 == e;
            }
            assert forall|e1: Entity, e2: Entity|
                m.contains_key(e1) && m.contains_key(e2) && e1 != e2 implies m[e1] != m[e2] by {
                let i = choose|i: int| 0 <= i < s.len() && s[i].0 == e1;
                let j = choose|j: int| 0 <= j < s.len() && s[j].0 == e2;
                if i < j {
                    assert(s[i].1 != s[j].1);
                } else {
                    assert(i != j);
                    assert(s[j].1 != s[i].1);
                }
            }
            let a = choose|i: int|
                0 <= i < s.len() && s[i].0 == Entity::Agent && forall|j: int|
                    0 <= j < s.len() && s[j].0 == Entity::Agent ==> j == i;
            assert(m.contains_key(s[a].0));
            if m.contains_key(Entity::Empty) {
                let i = choose|i: int| 0 <= i < s.len() && s[i].0 == Entity::Empty;
            }
        }
        Ok(World { entities, width, height })
    }

    /// The entity on `location`, or `Empty`.
    pub fn get_grid_location(&self, location: &Location) -> (r: Result<Entity, WorldError>)
        ensures
            in_bounds(self@.width, self@.height, *location) ==> r == Ok::<Entity, WorldError>(self@.occupant(*location)),
            !in_bounds(self@.width, self@.height, *location) ==> r == Err::<Entity, WorldError>(WorldError::EntityOutOfBoundsError),
    {
        proof {
            use_type_invariant(self);
        }
        Self::check_location_invariants(self.width, self.height, location)?;
        let ghost s = bidir_pairs(self.entities);
        let ghost m = self@.entities;
        proof {
            lemma_pairs_map(s);
        }
        match pairs_get_by_second(&self.entities, location) {
            Some(e) => {
                proof {
                    let i = choose|i: int| first_with_location(s, *location, i) && *e == s[i].0;
                    assert(m.contains_key(s[i].0) && m[s[i].0] == s[i].1);
                    assert(m.contains_key(*e) && m[*e] == *location);
                }
                Ok(*e)
            },
            None => {
                proof {
                    assert forall|e: Entity| m.contains_key(e) implies m[e] != *location by {
                        let k = choose|k: int| 0 <= k < s.len() && s[k].0 == e;
                        assert(m[s[k].0] == s[k].1);
                    }
                }
                Ok(Entity::Empty)
            },
        }
    }

    /// Where `entity` stands.
    pub fn get_entity_location(&self, entity: &Entity) -> (r: Result<&Location, WorldError>)
        ensures
            self@.entities.contains_key(*entity) ==> r == Ok::<&Location, WorldError>(&self@.entities[*entity]),
            !self@.entities.contains_key(*entity) ==> r == Err::<&Location, WorldError>(WorldError::NonExistentEntityError),
            self@.wf(),
    {
        proof {
            use_type_invariant(self);
        }
        let ghost s = bidir_pairs(self.entities);
        proof {
            lemma_pairs_map(s);
        }
        match pairs_get_by_first(&self.entities, entity) {
            Some(l) => {
                proof {
                    let i = choose|i: int| first_with_entity(s, *entity, i) && *l == s[i].1;
                    assert(self@.entities[s[i].0] == s[i].1);
                }
                Ok(l)
            },
            None => Err(WorldError::NonExistentEntityError),
        }
    }

    /// A new world in which the agent has stepped in `direction`, swapping
    /// cells with a block that stood there; `self` is left as it was.
    pub fn clone_and_move_agent(&self, direction: &Direction) -> (r: Result<World, WorldError>)
        ensures
            match r {
                Ok(w) => self@.move_agent(*direction) == Ok::<WorldView, WorldError>(w@),
                Err(e) => self@.move_agent(*direction) == Err::<WorldView, WorldError>(e),
            },
    {
        proof {
            use_type_invariant(self);
        }
        let ghost s0 = bidir_pairs(self.entities);
        let ghost m0 = self@.entities;
        proof {
            lemma_pairs_map(s0);
        }
        let old_agent_location = match self.get_entity_location(&Entity::Agent) {
            Ok(l) => *l,
            Err(e) => return Err(e),
        };
        let dx: isize = match *direction {
            Direction::Left => -1,
            Direction::Right => 1,
            _ => 0,
        };
        let dy: isize = match *direction {
            Direction::Up => -1,
            Direction::Down => 1,
            _ => 0,
        };
        let new_agent_location = Location::new(old_agent_location.x + dx, old_agent_location.y + dy);
        assert(new_agent_location == neighbour(old_agent_location, *direction));
        if Self::check_location_invariants(self.width, self.height, &new_agent_location).is_err() {
            return Err(WorldError::InvalidAgentMoveError);
        }
        proof {
            lemma_move_wf(self@, *direction);
        }
        let occupant = match self.get_grid_location(&new_agent_location) {
            Ok(e) => e,
            Err(e) => return Err(e),
        };
        let mut entities = pairs_clone(&self.entities);
        match occupant {
            Entity::Empty => {},
            _ => {
                proof {
                    let k = choose|k: int| 0 <= k < s0.len() && s0[k].0 == occupant;
                }
                pairs_insert(&mut entities, occupant, old_agent_location);
                proof {
                    let i = choose|i: int| first_with_entity(s0, occupant, i)
                        && bidir_pairs(entities) == swap_removed(s0, i).push((occupant, old_agent_location));
                    lemma_swap_removed(s0, i);
                    let t = swap_removed(s0, i);
                    assert(bidir_pairs(entities).drop_last() =~= t);
                    assert(pairs_map(bidir_pairs(entities)) =~= m0.insert(occupant, old_agent_location));
                    assert(unique_entities(bidir_pairs(entities))) by {
                        let u = bidir_pairs(entities);
                        assert forall|a: int, b: int| 0 <= a < b < u.len() implies u[a].0 != u[b].0 by {
                            if b == u.len() - 1 {
                                assert(u[a] == t[a]);
                            } else {
                                assert(u[a] == t[a] && u[b] == t[b]);
                            }
                        }
                    }
                }
            },
        }
        let ghost s1 = bidir_pairs(entities);
        proof {
            lemma_pairs_map(s1);
            assert(pairs_map(s1).contains_key(Entity::Agent));
        }
        pairs_insert(&mut entities, Entity::Agent, new_agent_location);
        proof {
            let i = choose|i: int| first_with_entity(s1, Entity::Agent, i)
                && bidir_pairs(entities) == swap_removed(s1, i).push((Entity::Agent, new_agent_location));
            lemma_swap_removed(s1, i);
            let t = swap_removed(s1, i);
            assert(bidir_pairs(entities).drop_last() =~= t);
            assert(pairs_map(bidir_pairs(entities)) =~= pairs_map(s1).insert(Entity::Agent, new_agent_location));
            assert(unique_entities(bidir_pairs(entities))) by {
                let u = bidir_pairs(entities);
                assert forall|a: int, b: int| 0 <= a < b < u.len() implies u[a].0 != u[b].0 by {
                    if b == u.len() - 1 {
                        assert(u[a] == t[a]);
                    } else {
                        assert(u[a] == t[a] && u[b] == t[b]);
                    }
                }
            }
        }
        let r = World { entities, width: self.width, height: self.height };
        assert(self@.move_agent(*direction) == Ok::<WorldView, WorldError>(r@));
        Ok(r)
    }

    /// Do `self` and `b` agree on where each entity (but perhaps the agent)
    /// of `self` stands?
    fn placed_alike(&self, b: &World, skip_agent: bool) -> (r: bool)
        ensures
            r == agree_on(self@, b@, skip_agent),
    {
        proof {
            use_type_invariant(self);
            use_type_invariant(b);
            lemma_pairs_map(bidir_pairs(self.entities));
            lemma_pairs_map(bidir_pairs(b.entities));
        }
        let pairs = pairs_to_vec(&self.entities);
        let ghost s = pairs@;
        let n = pairs.len();
        let mut i: usize = 0;
        while i < n
            invariant
                n == s.len(),
                pairs@ == s,
                s == bidir_pairs(self.entities),
                unique_entities(s),
                0 <= i <= n,
                forall|e: Entity|
                    self@.entities.contains_key(e) <==> exists|k: int| 0 <= k < s.len() && s[k].0 == e,
                forall|k: int| 0 <= k < s.len() ==> #[trigger] self@.entities[s[k].0] == s[k].1,
                forall|j: int| 0 <= j < i && (!skip_agent || s[j].0 != Entity::Agent)
                    ==> b@.entities.contains_key(s[j].0) && b@.entities[s[j].0] == s[j].1,
            decreases n - i,
        {
            let entity = pairs[i].0;
            if !skip_agent || entity != Entity::Agent {
                match b.get_entity_location(&entity) {
                    Ok(l) => {
                        if *l != pairs[i].1 {
                            assert(self@.entities.contains_key(s[i as int].0));
                            assert(self@.entities[s[i as int].0] == s[i as int].1);
                            return false;
                        }
                    },
                    Err(_) => {
                        assert(self@.entities.contains_key(s[i as int].0));
                        return false;
                    },
                }
            }
            i += 1;
        }
        proof {
            assert forall|e: Entity|
                self@.entities.contains_key(e) && (!skip_agent || e != Entity::Agent)
                    implies b@.entities.contains_key(e) && b@.entities[e] == self@.entities[e] by {
                let k = choose|k: int| 0 <= k < s.len() && s[k].0 == e;
                assert(self@.entities[s[k].0] == s[k].1);
            }
        }
        true
    }

    /// The goal test: same bounds, same number of entities, and every
    /// entity but the agent on the same cell.
    pub fn eq_ignore_agent(&self, other: &World) -> (r: bool)
        ensures
            r == self@.eq_ignore_agent(other@),
    {
        proof {
            use_type_invariant(self);
            use_type_invariant(other);
            lemma_pairs_map(bidir_pairs(self.entities));
            lemma_pairs_map(bidir_pairs(other.entities));
        }
        if self.width != other.width || self.height != other.height {
            return false;
        }
        if pairs_len(&self.entities) != pairs_len(&other.entities) {
            return false;
        }
        self.placed_alike(other, true)
    }

    /// Exact equality of states: same bounds and every entity, the agent
    /// included, on the same cell.
    pub fn same_state(&self, other: &World) -> (r: bool)
        ensures
            r == (self@ == other@),
    {
        if self.width != other.width || self.height != other.height {
            return false;
        }
        let forward = self.placed_alike(other, false);
        let backward = other.placed_alike(self, false);
        let r = forward && backward;
        if r {
            assert(self@.entities =~= other@.entities);
        }
        r
    }

    /// A copy of this world.
    pub fn duplicate(&self) -> (r: World)
        ensures
            r@ == self@,
            r@.wf(),
    {
        proof {
            use_type_invariant(self);
        }
        World { entities: pairs_clone(&self.entities), width: self.width, height: self.height }
    }

    fn check_location_invariants(width: isize, height: isize, location: &Location) -> (r: Result<(), WorldError>)
        ensures
            r is Ok <==> in_bounds(width as int, height as int, *location),
            r is Err ==> r == Err::<(), WorldError>(WorldError::EntityOutOfBoundsError),
    {
        if location.x >= width || location.x < 0 || location.y >= height || location.y < 0 {
            return Err(WorldError::EntityOutOfBoundsError);
        }
        Ok(())
    }

    fn check_start_invariants(width: isize, height: isize, entity_starts: &BidirMap<Entity, Location>) -> (r: Result<(), WorldError>)
        ensures
            match placement_error(width as int, height as int, bidir_pairs(*entity_starts)) {
                Some(e) => r == Err::<(), WorldError>(e),
                None => r is Ok,
            },
    {
        let pairs = pairs_to_vec(entity_starts);
        let ghost s = pairs@;
        assert(s == bidir_pairs(*entity_starts));
        let n = pairs.len();
        let mut i: usize = 0;
        while i < n
            invariant
                n == s.len(),
                pairs@ == s,
                0 <= i <= n,
                s == bidir_pairs(*entity_starts),
                forall|j: int| 0 <= j < i ==> in_bounds(width as int, height as int, s[j].1),
            decreases n - i,
        {
            if Self::check_location_invariants(width, height, &pairs[i].1).is_err() {
                assert(!all_in_bounds(width as int, height as int, s)) by {
                    assert(!in_bounds(width as int, height as int, s[i as int].1));
                }
                return Err(WorldError::EntityOutOfBoundsError);
            }
            i += 1;
        }
        let mut agent: Option<usize> = None;
        let mut i: usize = 0;
        while i < n
            invariant
                n == s.len(),
                pairs@ == s,
                0 <= i <= n,
                s == bidir_pairs(*entity_starts),
                all_in_bounds(width as int, height as int, s),
                match agent {
                    None => forall|j: int| 0 <= j < i ==> s[j].0 != Entity::Agent,
                    Some(a) => a < i && s[a as int].0 == Entity::Agent && forall|j: int|
                        0 <= j < i && s[j].0 == Entity::Agent ==> j == a,
                },
            decreases n - i,
        {
            if pairs[i].0 == Entity::Agent {
                if agent.is_some() {
                    proof {
                        let a = agent.unwrap() as int;
                        if one_agent(s) {
                            let k = choose|k: int|
                                0 <= k < s.len() && s[k].0 == Entity::Agent && forall|j: int|
                                    0 <= j < s.len() && s[j].0 == Entity::Agent ==> j == k;
                            assert(a == k && i == k);
                        }
                    }
                    return Err(WorldError::InvalidNumberOfAgentsError);
                }
                agent = Some(i);
            }
            i += 1;
        }
        if agent.is_none() {
            return Err(WorldError::InvalidNumberOfAgentsError);
        }
        assert(one_agent(s)) by {
            let a = agent.unwrap() as int;
            assert(0 <= a < s.len() && s[a].0 == Entity::Agent);
        }
        let mut i: usize = 0;
        while i < n
            invariant
                n == s.len(),
                pairs@ == s,
                0 <= i <= n,
                s == bidir_pairs(*entity_starts),
                all_in_bounds(width as int, height as int, s),
                one_agent(s),
                forall|j: int| 0 <= j < i ==> s[j].0 != Entity::Empty,
            decreases n - i,
        {
            if pairs[i].0 == Entity::Empty {
                assert(!no_empty(s)) by {
                    assert(s[i as int].0 == Entity::Empty);
                }
                return Err(WorldError::EmptyPlacementError);
            }
            i += 1;
        }
        let mut i: usize = 0;
        while i < n
            invariant
                n == s.len(),
                pairs@ == s,
                0 <= i <= n,
                s == bidir_pairs(*entity_starts),
                all_in_bounds(width as int, height as int, s),
                one_agent(s),
                no_empty(s),
                forall|a: int, b: int| 0 <= a < i && a < b < n ==> s[a].0 != s[b].0 && s[a].1 != s[b].1,
            decreases n - i,
        {
            let mut j: usize = i + 1;
            while j < n
                invariant
                    n == s.len(),
                    pairs@ == s,
                    0 <= i < n,
                    i + 1 <= j <= n,
                    s == bidir_pairs(*entity_starts),
                    all_in_bounds(width as int, height as int, s),
                    one_agent(s),
                    no_empty(s),
                    forall|b: int| i < b < j ==> s[i as int].0 != s[b].0 && s[i as int].1 != s[b].1,
                decreases n - j,
            {
                if pairs[i].0 == pairs[j].0 || pairs[i].1 == pairs[j].1 {
                    assert(!placements_distinct(s)) by {
                        assert(0 <= i < j < s.len());
                    }
                    return Err(WorldError::DuplicateLocationError);
                }
                j += 1;
            }
            i += 1;
        }
        Ok(())
    }
}

impl PartialEq for World {
    /// Exact equality of states, as `same_state`.
    fn eq(&self, other: &World) -> (r: bool)
        ensures
            r == (self@ == other@),
    {
        self.same_state(other)
    }
}

impl vstd::std_specs::cmp::PartialEqSpecImpl for World {
    open spec fn obeys_eq_spec() -> bool {
        true
    }

    open spec fn eq_spec(&self, other: &World) -> bool {
        self@ == other@
    }
}

} // verus!
