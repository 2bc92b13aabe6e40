//! A* graph search, ordered by path cost plus the blocks' distance to
//! their goal cells.

use vstd::prelude::*;

use std::rc::Rc;

use crate::search::{
    goal_unreachable, lemma_all_directions, reachable_from, lemma_run_prefix, reachable, run, share, shortest_solution,
    shuffle_directions, Node, Searcher, SearcherError,
};
use crate::heuristic::{capped, distance_sum, heuristic_of, lemma_heuristic_at_goal, lemma_heuristic_of, lemma_heuristic_step};
use crate::world::{pairs_map, unique_entities, Direction, Entity, World, WorldError, WorldView};

verus! {

/// The fringe holds `w` at a path cost of at most `b`.
spec fn fringe_has(fringe: Seq<AStarNode>, w: WorldView, b: int) -> bool {
    exists|i: int| 0 <= i < fringe.len() && (#[trigger] fringe[i]).world@ == w && fringe[i].start_to_self_cost <= b
}

/// `w` has been explored.
spec fn explored_has(explored: Seq<World>, w: WorldView) -> bool {
    exists|k: int| 0 <= k < explored.len() && (#[trigger] explored[k])@ == w
}

/// Each explored state was expanded at a cost no path to it undercuts.
spec fn costs_optimal(start: WorldView, explored: Seq<World>, costs: Seq<int>) -> bool {
    &&& costs.len() == explored.len()
    &&& forall|k: int, ds: Seq<Direction>|
        #![trigger run(start, ds), explored[k]]
        0 <= k < costs.len() && run(start, ds) == Some(explored[k]@) ==> costs[k] <= ds.len()
}

/// Every move from one of the first `n` explored states leads to an
/// explored state or to one the fringe holds at most one step dearer.
spec fn cheaply_closed(explored: Seq<World>, fringe: Seq<AStarNode>, costs: Seq<int>, n: int) -> bool {
    forall|k: int, d: Direction|
        0 <= k < n && (#[trigger] explored[k]@.move_agent(d)) is Ok ==> explored_has(
            explored,
            explored[k]@.move_agent(d).unwrap(),
        ) || fringe_has(fringe, explored[k]@.move_agent(d).unwrap(), costs[k] + 1)
}

/// The start is explored or waits in the fringe at cost zero.
spec fn start_held(start: WorldView, explored: Seq<World>, fringe: Seq<AStarNode>) -> bool {
    explored_has(explored, start) || fringe_has(fringe, start, 0)
}

/// Every world on a legal run from a well-formed start is well formed.
proof fn lemma_run_wf(start: WorldView, ds: Seq<Direction>)
    requires
        start.wf(),
        run(start, ds) is Some,
    ensures
        run(start, ds).unwrap().wf(),
    decreases ds.len(),
{
    if ds.len() > 0 {
        lemma_run_wf(start, ds.drop_last());
        crate::world::lemma_move_wf(run(start, ds.drop_last()).unwrap(), ds.last());
    }
}

/// Along a legal run the estimate drops by at most one per move.
proof fn lemma_heuristic_path(start: WorldView, ds: Seq<Direction>, j: int, goal: WorldView)
    requires
        start.wf(),
        run(start, ds) is Some,
        0 <= j <= ds.len(),
    ensures
        heuristic_of(run(start, ds.take(j)).unwrap(), goal) <= ds.len() - j + heuristic_of(run(start, ds).unwrap(), goal),
    decreases ds.len() - j,
{
    if j == ds.len() {
        assert(ds.take(j) =~= ds);
    } else {
        lemma_run_prefix(start, ds, j);
        lemma_run_prefix(start, ds, j + 1);
        lemma_run_wf(start, ds.take(j));
        lemma_heuristic_step(run(start, ds.take(j)).unwrap(), ds[j], goal);
        lemma_heuristic_path(start, ds, j + 1, goal);
    }
}

/// A run to an unexplored world passes a world that the fringe holds no
/// dearer than the moves made to reach it.
proof fn lemma_first_unexplored(
    start: WorldView,
    fringe: Seq<AStarNode>,
    explored: Seq<World>,
    costs: Seq<int>,
    ds: Seq<Direction>,
)
    requires
        start_held(start, explored, fringe),
        costs_optimal(start, explored, costs),
        cheaply_closed(explored, fringe, costs, explored.len() as int),
        run(start, ds) is Some,
        !explored_has(explored, run(start, ds).unwrap()),
    ensures
        exists|j: int, i: int|
            0 <= j <= ds.len() && 0 <= i < fringe.len() && (#[trigger] fringe[i]).world@ == (#[trigger] run(start, ds.take(j))).unwrap()
                && fringe[i].start_to_self_cost <= j,
    decreases ds.len(),
{
    if ds.len() == 0 {
        assert(ds.take(0) =~= ds);
    } else {
        let prev = ds.drop_last();
        let n = ds.len() - 1;
        lemma_run_prefix(start, ds, n);
        assert(ds.take(n) =~= prev);
        assert(ds.take(n + 1) =~= ds);
        if !explored_has(explored, run(start, prev).unwrap()) {
            lemma_first_unexplored(start, fringe, explored, costs, prev);
            let (j, i) = choose|j: int, i: int|
                0 <= j <= prev.len() && 0 <= i < fringe.len() && (#[trigger] fringe[i]).world@ == (#[trigger] run(start, prev.take(j))).unwrap()
                    && fringe[i].start_to_self_cost <= j;
            assert(prev.take(j) =~= ds.take(j));
        } else {
            let k = choose|k: int| 0 <= k < explored.len() && (#[trigger] explored[k])@ == run(start, prev).unwrap();
            assert(run(start, prev) == Some(explored[k]@));
            assert(costs[k] <= prev.len());
            assert(explored[k]@.move_agent(ds[n]) is Ok);
            assert(explored[k]@.move_agent(ds[n]).unwrap() == run(start, ds).unwrap());
            let i = choose|i: int| 0 <= i < fringe.len() && (#[trigger] fringe[i]).world@ == run(start, ds).unwrap()
                && fringe[i].start_to_self_cost <= costs[k] + 1;
            assert(0 <= ds.len() <= ds.len() && fringe[i].world@ == run(start, ds.take(ds.len() as int)).unwrap());
        }
    }
}

/// The node of least estimate-plus-cost in the fringe is no dearer, in that
/// sum or in cost alone, than any unexplored world reached by `ds` (with its
/// estimate added).
proof fn lemma_pop_bound(
    start: WorldView,
    goal: WorldView,
    fringe: Seq<AStarNode>,
    explored: Seq<World>,
    costs: Seq<int>,
    p: int,
    ds: Seq<Direction>,
)
    requires
        start.wf(),
        start_held(start, explored, fringe),
        costs_optimal(start, explored, costs),
        cheaply_closed(explored, fringe, costs, explored.len() as int),
        0 <= p < fringe.len(),
        forall|j: int| 0 <= j < fringe.len() ==> (#[trigger] fringe[j]).f_spec() >= fringe[p].f_spec(),
        forall|i: int| 0 <= i < fringe.len() ==> (#[trigger] fringe[i]).heuristic == heuristic_of(fringe[i].world@, goal),
        run(start, ds) is Some,
        !explored_has(explored, run(start, ds).unwrap()),
    ensures
        fringe[p].f_spec() <= ds.len() + heuristic_of(run(start, ds).unwrap(), goal)
            || fringe[p].start_to_self_cost <= ds.len(),
{
    lemma_first_unexplored(start, fringe, explored, costs, ds);
    let (j, i) = choose|j: int, i: int|
        0 <= j <= ds.len() && 0 <= i < fringe.len() && (#[trigger] fringe[i]).world@ == (#[trigger] run(start, ds.take(j))).unwrap()
            && fringe[i].start_to_self_cost <= j;
    if i != p {
        lemma_heuristic_path(start, ds, j, goal);
        assert(fringe[i].f_spec() <= j + heuristic_of(run(start, ds.take(j)).unwrap(), goal));
    }
}

/// A search-tree node that also carries its path cost and its heuristic
/// estimate.
pub struct AStarNode {
    pub depth: u32,
    pub world: Box<World>,
    pub parent: Option<Rc<AStarNode>>,
    pub start_to_self_cost: usize,
    pub heuristic: usize,
}

impl AStarNode {
    pub fn new(
        depth: u32,
        world: Box<World>,
        parent: Option<Rc<Self>>,
        start_to_self_cost: usize,
        heuristic: usize,
    ) -> (r: Self)
        ensures
            r.depth == depth,
            r.world == world,
            r.parent == parent,
            r.start_to_self_cost == start_to_self_cost,
            r.heuristic == heuristic,
    {
        AStarNode { depth, world, parent, start_to_self_cost, heuristic }
    }

    /// Path cost plus estimate.
    pub open spec fn f_spec(self) -> int {
        self.start_to_self_cost + self.heuristic
    }

    /// Path cost plus estimate.
    pub fn f(&self) -> (r: u128)
        ensures
            r == self.f_spec(),
    {
        self.start_to_self_cost as u128 + self.heuristic as u128
    }

    /// Following the parents leads back to a root at depth and cost zero
    /// holding `start`, each node one legal move from its parent.
    pub open spec fn traces_back_to(self, start: WorldView) -> bool
        decreases self.depth,
    {
        &&& self.start_to_self_cost == self.depth
        &&& match self.parent {
            None => self.depth == 0 && self.world@ == start,
            Some(p) => {
                &&& p.depth + 1 == self.depth
                &&& exists|d: Direction| #[trigger] p.world@.move_agent(d) == Ok::<WorldView, WorldError>(self.world@)
                &&& p.traces_back_to(start)
            },
        }
    }
}

impl AStarNode {
    /// A node that traces back to `start` holds a world reached from
    /// `start` by exactly its depth in moves.
    pub proof fn lemma_reachable(&self, start: WorldView)
        requires
            self.traces_back_to(start),
        ensures
            reachable(start, self.world@, self.depth as nat),
        decreases self.depth,
    {
        match self.parent {
            None => {
                assert(run(start, Seq::<Direction>::empty()) == Some(self.world@));
            },
            Some(p) => {
                p.lemma_reachable(start);
                let d = choose|d: Direction| #[trigger] p.world@.move_agent(d) == Ok::<WorldView, WorldError>(self.world@);
                let ps = choose|ds: Seq<Direction>| ds.len() == p.depth as nat && #[trigger] run(start, ds) == Some(p.world@);
                let ds = ps.push(d);
                assert(ds.drop_last() =~= ps);
                assert(run(start, ds) == Some(self.world@));
            },
        }
    }
}

impl Node for AStarNode {
    fn get_world(&self) -> (r: &World)
        ensures
            *r == *self.world,
    {
        &*self.world
    }

    fn get_depth(&self) -> (r: u32)
        ensures
            r == self.depth,
    {
        self.depth
    }

    fn get_parent(&self) -> (r: Option<Rc<AStarNode>>)
        ensures
            r == self.parent,
    {
        match &self.parent {
            Some(p) => Some(share(p)),
            None => None,
        }
    }
}

/// Best-first search on path cost plus the summed distances of the blocks
/// to their goal cells, which never expands one state twice.
pub struct AStarSearcher {
    start_world: World,
    goal_world: World,
    fringe: Vec<AStarNode>,
    explored: Vec<World>,
    expanded_f: Ghost<Seq<int>>,
}

impl AStarSearcher {
    pub fn new(start_world: World, goal_world: World) -> (r: AStarSearcher)
        ensures
            r.start_view() == start_world@,
            r.goal_view() == goal_world@,
    {
        AStarSearcher { start_world, goal_world, fringe: Vec::new(), explored: Vec::new(), expanded_f: Ghost(Seq::empty()) }
    }

    /// The world the search starts from.
    pub closed spec fn start_view(&self) -> WorldView {
        self.start_world@
    }

    /// The world whose blocks the search must match.
    pub closed spec fn goal_view(&self) -> WorldView {
        self.goal_world@
    }

    /// The states expanded by the last search, in the order they were
    /// expanded.
    pub closed spec fn explored_views(&self) -> Seq<WorldView> {
        self.explored@.map_values(|w: World| w@)
    }

    /// Path cost plus estimate of each node the last search expanded, in
    /// the order it expanded them.
    pub closed spec fn expanded_f_values(&self) -> Seq<int> {
        self.expanded_f@
    }

    /// The search state is consistent: every fringe node traces back to the
    /// start and lies at most `bound` deep, fringe states are distinct and
    /// unexplored, explored states are distinct, and `bound` states have been
    /// explored.
    closed spec fn consistent(&self, bound: int) -> bool {
        &&& forall|i: int| 0 <= i < self.fringe@.len() ==> (#[trigger] self.fringe@[i]).traces_back_to(self.start_world@)
            && self.fringe@[i].depth <= bound
            && self.fringe@[i].heuristic == heuristic_of(self.fringe@[i].world@, self.goal_world@)
        &&& forall|i: int, j: int| 0 <= i < j < self.fringe@.len()
            ==> (#[trigger] self.fringe@[i]).world@ != (#[trigger] self.fringe@[j]).world@
        &&& forall|i: int, k: int| 0 <= i < self.fringe@.len() && 0 <= k < self.explored@.len()
            ==> (#[trigger] self.fringe@[i]).world@ != (#[trigger] self.explored@[k])@
        &&& forall|k: int, l: int| 0 <= k < l < self.explored@.len()
            ==> (#[trigger] self.explored@[k])@ != (#[trigger] self.explored@[l])@
        &&& self.explored@.len() == bound
    }

    /// The fringe or the explored states hold `w`.
    closed spec fn in_frontier(&self, w: WorldView) -> bool {
        ||| exists|i: int| 0 <= i < self.fringe@.len() && (#[trigger] self.fringe@[i]).world@ == w
        ||| exists|k: int| 0 <= k < self.explored@.len() && (#[trigger] self.explored@[k])@ == w
    }

    /// Every move from an explored state (but perhaps the last one) leads to
    /// a state in the fringe or explored, and no explored state matches the
    /// goal.
    closed spec fn closed_below(&self, n: int) -> bool {
        &&& forall|k: int, d: Direction| 0 <= k < n && (#[trigger] self.explored@[k]@.move_agent(d)) is Ok
            ==> self.in_frontier(self.explored@[k]@.move_agent(d).unwrap())
        &&& forall|k: int| 0 <= k < self.explored@.len() ==> !(#[trigger] self.explored@[k])@.eq_ignore_agent(self.goal_world@)
    }

    /// With the fringe empty, every world that the start reaches has been
    /// explored.
    proof fn lemma_run_explored(&self, ds: Seq<Direction>)
        requires
            self.fringe@.len() == 0,
            self.in_frontier(self.start_world@),
            self.closed_below(self.explored@.len() as int),
            run(self.start_world@, ds) is Some,
        ensures
            exists|k: int| 0 <= k < self.explored@.len() && (#[trigger] self.explored@[k])@ == run(self.start_world@, ds).unwrap(),
        decreases ds.len(),
    {
        if ds.len() > 0 {
            let prev = ds.drop_last();
            self.lemma_run_explored(prev);
            let k = choose|k: int| 0 <= k < self.explored@.len() && (#[trigger] self.explored@[k])@ == run(self.start_world@, prev).unwrap();
            assert(self.explored@[k]@.move_agent(ds.last()) is Ok);
            assert(self.in_frontier(self.explored@[k]@.move_agent(ds.last()).unwrap()));
        }
    }

    /// Searches by least path cost plus estimate, expanding each state at
    /// most once; the estimate never drops by more than one per move, so
    /// the goal node found lies at the least possible depth. Returns the
    /// goal node and the number of nodes expanded, or why the search ended
    /// and that number.
    pub fn search(&mut self) -> (r: Result<(AStarNode, u32), (SearcherError, u32)>)
        ensures
            final(self).start_view() == old(self).start_view(),
            final(self).goal_view() == old(self).goal_view(),
            match r {
                Ok((n, c)) => {
                    &&& n.world@.eq_ignore_agent(old(self).goal_view())
                    &&& n.traces_back_to(old(self).start_view())
                    &&& shortest_solution(old(self).start_view(), old(self).goal_view(), n.depth as int)
                    &&& c == final(self).explored_views().len()
                    &&& !final(self).explored_views().contains(n.world@)
                },
                Err((e, c)) => {
                    &&& c == final(self).explored_views().len()
                    &&& e == SearcherError::ExpansionLimitError ==> c == u32::MAX
                    &&& e == SearcherError::GoalNotFoundError ==> goal_unreachable(old(self).start_view(), old(self).goal_view())
                },
            },
            forall|k: int, l: int| 0 <= k < l < final(self).explored_views().len()
                ==> final(self).explored_views()[k] != final(self).explored_views()[l],
            forall|k: int| 0 <= k < final(self).explored_views().len()
                ==> reachable_from(old(self).start_view(), #[trigger] final(self).explored_views()[k]),
            final(self).expanded_f_values().len() == final(self).explored_views().len(),
            forall|k: int, l: int| 0 <= k < l < final(self).expanded_f_values().len()
                ==> final(self).expanded_f_values()[k] <= final(self).expanded_f_values()[l],
            r matches Ok((n, _)) ==> forall|k: int| 0 <= k < final(self).expanded_f_values().len()
                ==> final(self).expanded_f_values()[k] <= n.f_spec(),
            old(self).start_view().eq_ignore_agent(old(self).goal_view()) ==> (r matches Ok((n, c)) && n.depth == 0 && c == 0),
    {
        self.fringe.clear();
        self.explored.clear();
        self.expanded_f = Ghost(Seq::empty());
        let ghost mut floor: int = 0;
        let root = self.new_node(0, Box::new(self.start_world.duplicate()), None);
        self.fringe.push(root);
        assert(self.fringe@[0].world@ == self.start_world@);
        let ghost mut costs = Seq::<int>::empty();
        assert(fringe_has(self.fringe@, self.start_world@, 0));
        let mut expanded: u32 = 0;
        let mut directions = Direction::directions_array();
        loop
            invariant
                self.start_world@ == old(self).start_world@,
                self.goal_world@ == old(self).goal_world@,
                self.consistent(expanded as int),
                self.in_frontier(self.start_world@),
                self.closed_below(self.explored@.len() as int),
                directions@.to_multiset() == seq![Direction::Up, Direction::Down, Direction::Left, Direction::Right].to_multiset(),
                self.start_world@.wf(),
                start_held(self.start_world@, self.explored@, self.fringe@),
                costs_optimal(self.start_world@, self.explored@, costs),
                cheaply_closed(self.explored@, self.fringe@, costs, self.explored@.len() as int),
                forall|k: int| 0 <= k < self.explored@.len() ==> reachable_from(self.start_world@, #[trigger] self.explored@[k]@),
                self.expanded_f@.len() == self.explored@.len(),
                forall|k: int, l: int| 0 <= k < l < self.expanded_f@.len() ==> self.expanded_f@[k] <= self.expanded_f@[l],
                forall|k: int| 0 <= k < self.expanded_f@.len() ==> self.expanded_f@[k] <= floor,
                forall|i: int| 0 <= i < self.fringe@.len() ==> (#[trigger] self.fringe@[i]).f_spec() >= floor,
                self.start_world@.eq_ignore_agent(self.goal_world@) ==> expanded == 0 && self.fringe@.len() == 1
                    && self.fringe@[0].depth == 0 && self.fringe@[0].world@ == self.start_world@,
            decreases u32::MAX - expanded,
        {
            let ghost before = self.fringe@;
            let node = match self.fringe_pop() {
                Some(n) => n,
                None => {
                    proof {
                        self.lemma_explored_views();
                        assert forall|ds: Seq<Direction>| (#[trigger] run(self.start_world@, ds)) is Some
                            implies !run(self.start_world@, ds).unwrap().eq_ignore_agent(self.goal_world@) by {
                            self.lemma_run_explored(ds);
                        }
                    }
                    return Err((SearcherError::GoalNotFoundError, expanded));
                },
            };
            let ghost popped = choose|i: int| {
                &&& 0 <= i < before.len()
                &&& node == before[i]
                &&& self.fringe@ == before.remove(i)
                &&& forall|j: int| 0 <= j < before.len() ==> (#[trigger] before[j]).f_spec() >= node.f_spec()
            };
            let ghost start = self.start_world@;
            let ghost goal = self.goal_world@;
            proof {
                assert(forall|i: int| 0 <= i < before.len() ==> (#[trigger] before[i]).heuristic == heuristic_of(before[i].world@, goal));
                assert(!explored_has(self.explored@, node.world@)) by {
                    if explored_has(self.explored@, node.world@) {
                        let k = choose|k: int| 0 <= k < self.explored@.len() && (#[trigger] self.explored@[k])@ == node.world@;
                        assert(before[popped].world@ != self.explored@[k]@);
                    }
                }
                assert forall|k: int| 0 <= k < self.explored@.len() implies self.explored@[k]@ != node.world@ by {
                    assert(before[popped].world@ != self.explored@[k]@);
                }
            }
            if node.world.eq_ignore_agent(&self.goal_world) {
                proof {
                    node.lemma_reachable(start);
                    assert forall|ds: Seq<Direction>| ds.len() < node.depth && (#[trigger] run(start, ds)) is Some
                        implies !run(start, ds).unwrap().eq_ignore_agent(goal) by {
                        if run(start, ds).unwrap().eq_ignore_agent(goal) {
                            lemma_run_wf(start, ds);
                            lemma_heuristic_at_goal(run(start, ds).unwrap(), goal);
                            assert(!explored_has(self.explored@, run(start, ds).unwrap())) by {
                                if explored_has(self.explored@, run(start, ds).unwrap()) {
                                    let k = choose|k: int| 0 <= k < self.explored@.len() && (#[trigger] self.explored@[k])@ == run(start, ds).unwrap();
                                    assert(!self.explored@[k]@.eq_ignore_agent(goal));
                                }
                            }
                            lemma_pop_bound(start, goal, before, self.explored@, costs, popped, ds);
                        }
                    }
                    self.lemma_explored_views();
                    assert forall|k: int| 0 <= k < self.explored_views().len() implies self.explored_views()[k] != node.world@ by {
                        assert(self.explored_views()[k] == self.explored@[k]@);
                    }
                }
                return Ok((node, expanded));
            }
            if expanded == u32::MAX {
                proof {
                    self.lemma_explored_views();
                }
                return Err((SearcherError::ExpansionLimitError, expanded));
            }
            let ghost explored_before = self.explored@;
            let ghost costs_before = costs;
            proof {
                assert forall|ds: Seq<Direction>| #[trigger] run(start, ds) == Some(node.world@)
                    implies node.start_to_self_cost <= ds.len() by {
                    lemma_pop_bound(start, goal, before, explored_before, costs, popped, ds);
                }
                costs = costs.push(node.start_to_self_cost as int);
            }
            self.explored.push(node.world.duplicate());
            proof {
                assert(before[popped].f_spec() >= floor);
                floor = node.f_spec();
            }
            self.expanded_f = Ghost(self.expanded_f@.push(node.f_spec()));
            proof {
                node.lemma_reachable(start);
                let ds = choose|ds: Seq<Direction>| ds.len() == node.depth as nat && #[trigger] run(start, ds) == Some(node.world@);
                lemma_run_wf(start, ds);
                assert forall|i: int| 0 <= i < self.fringe@.len() implies (#[trigger] self.fringe@[i]).f_spec() >= floor by {
                    let a = if i < popped { i } else { i + 1 };
                    assert(self.fringe@[i] == before[a]);
                }
                assert forall|k: int| 0 <= k < self.explored@.len() implies reachable_from(start, #[trigger] self.explored@[k]@) by {
                    if k < explored_before.len() {
                        assert(self.explored@[k] == explored_before[k]);
                    }
                }
                assert forall|k: int, ds: Seq<Direction>|
                    #![trigger run(start, ds), self.explored@[k]]
                    0 <= k < costs.len() && run(start, ds) == Some(self.explored@[k]@) implies costs[k] <= ds.len() by {
                    if k < explored_before.len() {
                        assert(self.explored@[k] == explored_before[k]);
                        assert(run(start, ds) == Some(explored_before[k]@));
                    }
                }
                assert forall|w: WorldView, b: int| fringe_has(before, w, b)
                    implies explored_has(self.explored@, w) || fringe_has(self.fringe@, w, b) by {
                    let i = choose|i: int| 0 <= i < before.len() && (#[trigger] before[i]).world@ == w && before[i].start_to_self_cost <= b;
                    if i == popped {
                        assert(self.explored@[self.explored@.len() - 1]@ == w);
                    } else {
                        let a = if i < popped { i } else { i - 1 };
                        assert(self.fringe@[a] == before[i]);
                    }
                }
                assert forall|w: WorldView| explored_has(explored_before, w) implies explored_has(self.explored@, w) by {
                    let k = choose|k: int| 0 <= k < explored_before.len() && (#[trigger] explored_before[k])@ == w;
                    assert(self.explored@[k] == explored_before[k]);
                }
                assert forall|k: int, d: Direction|
                    0 <= k < explored_before.len() && (#[trigger] self.explored@[k]@.move_agent(d)) is Ok implies explored_has(
                        self.explored@,
                        self.explored@[k]@.move_agent(d).unwrap(),
                    ) || fringe_has(self.fringe@, self.explored@[k]@.move_agent(d).unwrap(), costs[k] + 1) by {
                    assert(self.explored@[k] == explored_before[k]);
                    assert(explored_before[k]@.move_agent(d) is Ok);
                }
                assert(self.explored@[self.explored@.len() - 1]@ == node.world@);
                assert forall|k: int| 0 <= k < explored_before.len() implies #[trigger] self.explored@[k] == explored_before[k] by {}
                assert forall|w: WorldView|
                    (exists|i: int| 0 <= i < before.len() && (#[trigger] before[i]).world@ == w)
                    || (exists|k: int| 0 <= k < explored_before.len() && (#[trigger] explored_before[k])@ == w)
                    implies self.in_frontier(w) by {
                    if exists|i: int| 0 <= i < before.len() && (#[trigger] before[i]).world@ == w {
                        let i = choose|i: int| 0 <= i < before.len() && (#[trigger] before[i]).world@ == w;
                        if i == popped {
                            assert(self.explored@[self.explored@.len() - 1]@ == w);
                        } else {
                            let a = if i < popped { i } else { i - 1 };
                            assert(self.fringe@[a] == before[i]);
                        }
                    } else {
                        let k = choose|k: int| 0 <= k < explored_before.len() && (#[trigger] explored_before[k])@ == w;
                        assert(self.explored@[k] == explored_before[k]);
                    }
                }
                assert forall|k: int| 0 <= k < self.explored@.len() implies !(#[trigger] self.explored@[k])@.eq_ignore_agent(self.goal_world@) by {
                    if k < explored_before.len() {
                        assert(self.explored@[k] == explored_before[k]);
                    }
                }
                assert forall|i: int, j: int| 0 <= i < j < self.fringe@.len()
                    implies (#[trigger] self.fringe@[i]).world@ != (#[trigger] self.fringe@[j]).world@ by {
                    let a = if i < popped { i } else { i + 1 };
                    let b = if j < popped { j } else { j + 1 };
                    assert(self.fringe@[i] == before[a] && self.fringe@[j] == before[b]);
                }
                assert forall|i: int, k: int| 0 <= i < self.fringe@.len() && 0 <= k < self.explored@.len()
                    implies (#[trigger] self.fringe@[i]).world@ != (#[trigger] self.explored@[k])@ by {
                    let a = if i < popped { i } else { i + 1 };
                    assert(self.fringe@[i] == before[a]);
                    if k == self.explored@.len() - 1 {
                        assert(before[a].world@ != before[popped].world@);
                    }
                }
                assert forall|i: int| 0 <= i < self.fringe@.len() implies (#[trigger] self.fringe@[i]).traces_back_to(self.start_world@)
                    && self.fringe@[i].depth <= expanded + 1 by {
                    let a = if i < popped { i } else { i + 1 };
                    assert(self.fringe@[i] == before[a]);
                }
            }
            let child_depth = node.depth + 1;
            shuffle_directions(&mut directions);
            let parent = Rc::new(node);
            for i in 0..4
                invariant
                    self.start_world@ == old(self).start_world@,
                    self.goal_world@ == old(self).goal_world@,
                    self.consistent(expanded + 1),
                    !self.start_world@.eq_ignore_agent(self.goal_world@),
                    self.in_frontier(self.start_world@),
                    self.closed_below(self.explored@.len() - 1),
                    self.explored@.len() > 0,
                    self.explored@[self.explored@.len() - 1]@ == parent.world@,
                    self.start_world@.wf(),
                    start == self.start_world@,
                    goal == self.goal_world@,
                    start_held(self.start_world@, self.explored@, self.fringe@),
                    costs_optimal(self.start_world@, self.explored@, costs),
                    cheaply_closed(self.explored@, self.fringe@, costs, self.explored@.len() - 1),
                    costs.len() == self.explored@.len(),
                    costs[self.explored@.len() - 1] == parent.start_to_self_cost,
                    forall|k: int| 0 <= k < self.explored@.len() ==> reachable_from(self.start_world@, #[trigger] self.explored@[k]@),
                    self.expanded_f@.len() == self.explored@.len(),
                    forall|k: int, l: int| 0 <= k < l < self.expanded_f@.len() ==> self.expanded_f@[k] <= self.expanded_f@[l],
                    forall|k: int| 0 <= k < self.expanded_f@.len() ==> self.expanded_f@[k] <= floor,
                    forall|j: int| 0 <= j < self.fringe@.len() ==> (#[trigger] self.fringe@[j]).f_spec() >= floor,
                    floor == parent.f_spec(),
                    parent.world@.wf(),
                    parent.heuristic == heuristic_of(parent.world@, self.goal_world@),
                    forall|a: int| 0 <= a < i && (#[trigger] parent.world@.move_agent(directions@[a])) is Ok
                        ==> explored_has(self.explored@, parent.world@.move_agent(directions@[a]).unwrap())
                            || fringe_has(self.fringe@, parent.world@.move_agent(directions@[a]).unwrap(), parent.start_to_self_cost + 1),
                    directions@.to_multiset() == seq![Direction::Up, Direction::Down, Direction::Left, Direction::Right].to_multiset(),
                    forall|a: int| 0 <= a < i && (#[trigger] parent.world@.move_agent(directions@[a])) is Ok
                        ==> self.in_frontier(parent.world@.move_agent(directions@[a]).unwrap()),
                    child_depth == parent.depth + 1,
                    parent.traces_back_to(self.start_world@),
                    parent.depth <= expanded,
                    expanded < u32::MAX,
            {
                match parent.world.clone_and_move_agent(&directions[i]) {
                    Ok(w) => {
                        let child = self.new_node(child_depth, Box::new(w), Some(share(&parent)));
                        assert(child.traces_back_to(self.start_world@));
                        let ghost pre = self.fringe@;
                        proof {
                            lemma_heuristic_step(parent.world@, directions@[i as int], self.goal_world@);
                            assert(child.f_spec() >= floor);
                        }
                        self.fringe_push(child, Ghost((expanded + 1) as int));
                        proof {
                            if self.fringe@ != pre && self.fringe@ != pre.push(child) {
                                let r = choose|r: int| {
                                    &&& 0 <= r < pre.len()
                                    &&& pre[r].world@ == child.world@
                                    &&& self.fringe@ == pre.remove(r).push(child)
                                };
                                assert forall|j: int| 0 <= j < self.fringe@.len() implies (#[trigger] self.fringe@[j]).f_spec() >= floor by {
                                    if j < self.fringe@.len() - 1 {
                                        let b = if j < r { j } else { j + 1 };
                                        assert(self.fringe@[j] == pre[b]);
                                    }
                                }
                            } else if self.fringe@ == pre.push(child) {
                                assert forall|j: int| 0 <= j < self.fringe@.len() implies (#[trigger] self.fringe@[j]).f_spec() >= floor by {
                                    if j < pre.len() {
                                        assert(self.fringe@[j] == pre[j]);
                                    }
                                }
                            }
                            assert forall|k: int, d: Direction|
                                0 <= k < self.explored@.len() - 1 && (#[trigger] self.explored@[k]@.move_agent(d)) is Ok implies explored_has(
                                    self.explored@,
                                    self.explored@[k]@.move_agent(d).unwrap(),
                                ) || fringe_has(self.fringe@, self.explored@[k]@.move_agent(d).unwrap(), costs[k] + 1) by {
                                if !explored_has(self.explored@, self.explored@[k]@.move_agent(d).unwrap()) {
                                    assert(fringe_has(pre, self.explored@[k]@.move_agent(d).unwrap(), costs[k] + 1));
                                }
                            }
                            assert forall|a: int| 0 <= a < i + 1 && (#[trigger] parent.world@.move_agent(directions@[a])) is Ok
                                implies explored_has(self.explored@, parent.world@.move_agent(directions@[a]).unwrap())
                                    || fringe_has(self.fringe@, parent.world@.move_agent(directions@[a]).unwrap(), parent.start_to_self_cost + 1) by {
                                if a < i && !explored_has(self.explored@, parent.world@.move_agent(directions@[a]).unwrap()) {
                                    assert(fringe_has(pre, parent.world@.move_agent(directions@[a]).unwrap(), parent.start_to_self_cost + 1));
                                }
                            }
                            if !explored_has(self.explored@, self.start_world@) {
                                assert(fringe_has(pre, self.start_world@, 0));
                            }
                        }
                    },
                    Err(_) => {},
                }
            }
            proof {
                let n = self.explored@.len() - 1;
                assert forall|k: int, d: Direction| 0 <= k < self.explored@.len() && (#[trigger] self.explored@[k]@.move_agent(d)) is Ok
                    implies self.in_frontier(self.explored@[k]@.move_agent(d).unwrap()) by {
                    if k == n {
                        lemma_all_directions(directions@, d);
                        let a = choose|a: int| 0 <= a < directions@.len() && directions@[a] == d;
                        assert(parent.world@.move_agent(directions@[a]) is Ok);
                    }
                }
                assert forall|k: int, d: Direction|
                    0 <= k < self.explored@.len() && (#[trigger] self.explored@[k]@.move_agent(d)) is Ok implies explored_has(
                        self.explored@,
                        self.explored@[k]@.move_agent(d).unwrap(),
                    ) || fringe_has(self.fringe@, self.explored@[k]@.move_agent(d).unwrap(), costs[k] + 1) by {
                    if k == n {
                        lemma_all_directions(directions@, d);
                        let a = choose|a: int| 0 <= a < directions@.len() && directions@[a] == d;
                        assert(parent.world@.move_agent(directions@[a]) is Ok);
                    }
                }
            }
            expanded += 1;
        }
    }

    proof fn lemma_explored_views(&self)
        ensures
            forall|k: int| 0 <= k < self.explored@.len() && reachable_from(self.start_world@, #[trigger] self.explored@[k]@)
                ==> reachable_from(self.start_world@, self.explored_views()[k]),
            self.explored_views().len() == self.explored@.len(),
            forall|k: int| 0 <= k < self.explored@.len() ==> #[trigger] self.explored_views()[k] == self.explored@[k]@,
    {
    }

    /// A fresh node for `world`, one step below `parent` (or a root).
    fn new_node(&self, depth: u32, world: Box<World>, parent: Option<Rc<AStarNode>>) -> (r: AStarNode)
        requires
            parent matches Some(p) ==> p.start_to_self_cost < u32::MAX,
        ensures
            r.depth == depth,
            r.world == world,
            r.parent == parent,
            r.start_to_self_cost == match parent {
                Some(p) => p.start_to_self_cost + 1,
                None => 0,
            },
            r.heuristic == heuristic_of(world@, self.goal_world@),
    {
        let heuristic = self.heuristic(&*world);
        let start_to_self_cost = match &parent {
            Some(p) => p.start_to_self_cost + 1,
            None => 0,
        };
        AStarNode::new(depth, world, parent, start_to_self_cost, heuristic)
    }

    /// Does the fringe already hold `node`'s state at no greater cost?
    fn is_node_unoptimal(&self, node: &AStarNode) -> (r: bool)
        ensures
            r == exists|i: int| 0 <= i < self.fringe@.len() && (#[trigger] self.fringe@[i]).world@ == node.world@
                && node.start_to_self_cost >= self.fringe@[i].start_to_self_cost,
    {
        let mut i: usize = 0;
        while i < self.fringe.len()
            invariant
                0 <= i <= self.fringe@.len(),
                forall|j: int| 0 <= j < i ==> !((#[trigger] self.fringe@[j]).world@ == node.world@
                    && node.start_to_self_cost >= self.fringe@[j].start_to_self_cost),
            decreases self.fringe@.len() - i,
        {
            if self.fringe[i].world.same_state(&node.world)
                && node.start_to_self_cost >= self.fringe[i].start_to_self_cost {
                return true;
            }
            i += 1;
        }
        false
    }

    /// Has `world`'s state been expanded already?
    fn is_explored(&self, world: &World) -> (r: bool)
        ensures
            r == exists|k: int| 0 <= k < self.explored@.len() && (#[trigger] self.explored@[k])@ == world@,
    {
        let mut k: usize = 0;
        while k < self.explored.len()
            invariant
                0 <= k <= self.explored@.len(),
                forall|j: int| 0 <= j < k ==> (#[trigger] self.explored@[j])@ != world@,
            decreases self.explored@.len() - k,
        {
            if self.explored[k].same_state(world) {
                return true;
            }
            k += 1;
        }
        false
    }

    /// Where the fringe holds `world`'s state, if it does.
    fn fringe_position(&self, world: &World) -> (r: Option<usize>)
        ensures
            match r {
                Some(i) => i < self.fringe@.len() && self.fringe@[i as int].world@ == world@,
                None => forall|j: int| 0 <= j < self.fringe@.len() ==> (#[trigger] self.fringe@[j]).world@ != world@,
            },
    {
        let mut i: usize = 0;
        while i < self.fringe.len()
            invariant
                0 <= i <= self.fringe@.len(),
                forall|j: int| 0 <= j < i ==> (#[trigger] self.fringe@[j]).world@ != world@,
            decreases self.fringe@.len() - i,
        {
            if self.fringe[i].world.same_state(world) {
                return Some(i);
            }
            i += 1;
        }
        None
    }

    /// Admits `node` to the fringe unless its state was expanded already or
    /// waits in the fringe at no greater cost; a costlier waiting copy of the
    /// state gives way to it.
    fn fringe_push(&mut self, node: AStarNode, Ghost(bound): Ghost<int>)
        requires
            old(self).consistent(bound),
            node.traces_back_to(old(self).start_world@),
            node.depth <= bound,
            node.heuristic == heuristic_of(node.world@, old(self).goal_world@),
        ensures
            final(self).consistent(bound),
            final(self).start_world@ == old(self).start_world@,
            final(self).goal_world@ == old(self).goal_world@,
            final(self).explored@ == old(self).explored@,
            final(self).expanded_f == old(self).expanded_f,
            final(self).in_frontier(node.world@),
            forall|w: WorldView| old(self).in_frontier(w) ==> final(self).in_frontier(w),
            explored_has(final(self).explored@, node.world@)
                || fringe_has(final(self).fringe@, node.world@, node.start_to_self_cost as int),
            forall|w: WorldView, b: int| fringe_has(old(self).fringe@, w, b) ==> fringe_has(final(self).fringe@, w, b),
            explored_has(old(self).explored@, node.world@) ==> final(self).fringe@ == old(self).fringe@,
            !explored_has(old(self).explored@, node.world@) && (exists|i: int|
                0 <= i < old(self).fringe@.len() && (#[trigger] old(self).fringe@[i]).world@ == node.world@
                    && node.start_to_self_cost >= old(self).fringe@[i].start_to_self_cost)
                ==> final(self).fringe@ == old(self).fringe@,
            !explored_has(old(self).explored@, node.world@) && (forall|i: int|
                0 <= i < old(self).fringe@.len() ==> (#[trigger] old(self).fringe@[i]).world@ != node.world@)
                ==> final(self).fringe@ == old(self).fringe@.push(node),
            !explored_has(old(self).explored@, node.world@) && (exists|i: int|
                0 <= i < old(self).fringe@.len() && (#[trigger] old(self).fringe@[i]).world@ == node.world@)
                && !(exists|i: int|
                0 <= i < old(self).fringe@.len() && (#[trigger] old(self).fringe@[i]).world@ == node.world@
                    && node.start_to_self_cost >= old(self).fringe@[i].start_to_self_cost)
                ==> exists|i: int| {
                    &&& 0 <= i < old(self).fringe@.len()
                    &&& old(self).fringe@[i].world@ == node.world@
                    &&& final(self).fringe@ == old(self).fringe@.remove(i).push(node)
                },
    {
        if self.is_explored(&node.world) {
            return;
        }
        if self.is_node_unoptimal(&node) {
            return;
        }
        let ghost start_fringe = self.fringe@;
        let ghost mut removed: int = -1;
        match self.fringe_position(&node.world) {
            Some(i) => {
                let ghost before = self.fringe@;
                self.fringe.remove(i);
                proof {
                    removed = i as int;
                    assert(self.fringe@ == start_fringe.remove(removed) && start_fringe[removed].world@ == node.world@);
                    assert forall|a: int| 0 <= a < self.fringe@.len() implies (#[trigger] self.fringe@[a]).world@ != node.world@ by {
                        let b = if a < i { a } else { a + 1 };
                        assert(self.fringe@[a] == before[b]);
                        if b < i {
                            assert(before[b].world@ != before[i as int].world@);
                        } else {
                            assert(before[i as int].world@ != before[b].world@);
                        }
                    }
                    assert forall|a: int, c: int| 0 <= a < c < self.fringe@.len()
                        implies (#[trigger] self.fringe@[a]).world@ != (#[trigger] self.fringe@[c]).world@ by {
                        let a2 = if a < i { a } else { a + 1 };
                        let c2 = if c < i { c } else { c + 1 };
                        assert(self.fringe@[a] == before[a2] && self.fringe@[c] == before[c2]);
                    }
                    assert forall|a: int, k: int| 0 <= a < self.fringe@.len() && 0 <= k < self.explored@.len()
                        implies (#[trigger] self.fringe@[a]).world@ != (#[trigger] self.explored@[k])@ by {
                        let a2 = if a < i { a } else { a + 1 };
                        assert(self.fringe@[a] == before[a2]);
                    }
                    assert forall|a: int| 0 <= a < self.fringe@.len() implies (#[trigger] self.fringe@[a]).traces_back_to(self.start_world@)
                        && self.fringe@[a].depth <= bound by {
                        let a2 = if a < i { a } else { a + 1 };
                        assert(self.fringe@[a] == before[a2]);
                    }
                }
            },
            None => {
                assert(self.fringe@ == start_fringe);
            },
        }
        let ghost mid = self.fringe@;
        self.fringe.push(node);
        proof {
            assert(self.fringe@[self.fringe@.len() - 1] == node);
            assert forall|w: WorldView| old(self).in_frontier(w) implies self.in_frontier(w) by {
                if exists|i: int| 0 <= i < start_fringe.len() && (#[trigger] start_fringe[i]).world@ == w {
                    let i = choose|i: int| 0 <= i < start_fringe.len() && (#[trigger] start_fringe[i]).world@ == w;
                    if w == node.world@ {
                    } else if removed < 0 {
                        assert(self.fringe@[i] == start_fringe[i]);
                    } else {
                        let pos = removed;
                        let a = if i < pos { i } else { i - 1 };
                        assert(self.fringe@[a] == mid[a]);
                        assert(mid[a] == start_fringe[i]);
                    }
                } else {
                    let k = choose|k: int| 0 <= k < self.explored@.len() && (#[trigger] self.explored@[k])@ == w;
                }
            }
            assert forall|w: WorldView, b: int| fringe_has(start_fringe, w, b) implies fringe_has(self.fringe@, w, b) by {
                let i = choose|i: int| 0 <= i < start_fringe.len() && (#[trigger] start_fringe[i]).world@ == w
                    && start_fringe[i].start_to_self_cost <= b;
                if removed < 0 {
                    assert(self.fringe@[i] == start_fringe[i]);
                } else if i == removed {
                    assert(!(start_fringe[i].world@ == node.world@ && node.start_to_self_cost >= start_fringe[i].start_to_self_cost));
                    assert(self.fringe@[self.fringe@.len() - 1].world@ == w);
                } else {
                    let a = if i < removed { i } else { i - 1 };
                    assert(self.fringe@[a] == mid[a]);
                    assert(mid[a] == start_fringe[i]);
                }
            }
        }
    }

    /// Takes out a node of least path cost plus estimate (the first such).
    fn fringe_pop(&mut self) -> (r: Option<AStarNode>)
        ensures
            final(self).start_world@ == old(self).start_world@,
            final(self).goal_world@ == old(self).goal_world@,
            final(self).explored@ == old(self).explored@,
            final(self).expanded_f == old(self).expanded_f,
            match r {
                None => old(self).fringe@.len() == 0 && final(self).fringe@ == old(self).fringe@,
                Some(n) => exists|i: int| {
                    &&& 0 <= i < old(self).fringe@.len()
                    &&& n == old(self).fringe@[i]
                    &&& final(self).fringe@ == old(self).fringe@.remove(i)
                    &&& forall|j: int| 0 <= j < old(self).fringe@.len() ==> (#[trigger] old(self).fringe@[j]).f_spec() >= n.f_spec()
                },
            },
    {
        if self.fringe.len() == 0 {
            return None;
        }
        let mut best: usize = 0;
        let mut best_f = self.fringe[0].f();
        let mut i: usize = 1;
        while i < self.fringe.len()
            invariant
                1 <= i <= self.fringe@.len(),
                best < self.fringe@.len(),
                best_f == self.fringe@[best as int].f_spec(),
                forall|j: int| 0 <= j < i ==> (#[trigger] self.fringe@[j]).f_spec() >= best_f,
            decreases self.fringe@.len() - i,
        {
            let f = self.fringe[i].f();
            if f < best_f {
                best = i;
                best_f = f;
            }
            i += 1;
        }
        Some(self.fringe.remove(best))
    }

    /// The summed distance of `world`'s blocks to their goal cells.
    fn heuristic(&self, world: &World) -> (r: usize)
        ensures
            r == heuristic_of(world@, self.goal_world@),
    {
        let pairs = world.placements();
        let ghost goal = self.goal_world@;
        let mut total: usize = 0;
        let mut i: usize = 0;
        while i < pairs.len()
            invariant
                0 <= i <= pairs@.len(),
                world@.wf(),
                pairs_map(pairs@) == world@.entities,
                unique_entities(pairs@),
                goal == self.goal_world@,
                total == capped(distance_sum(pairs@.take(i as int), goal)),
            decreases pairs@.len() - i,
        {
            assert(pairs@.take(i + 1).drop_last() =~= pairs@.take(i as int));
            let (entity, location) = pairs[i];
            if entity != Entity::Agent {
                match self.goal_world.get_entity_location(&entity) {
                    Ok(target) => {
                        proof {
                            crate::world::lemma_listing_in_bounds(pairs@, world@, i as int);
                        }
                        total = total.saturating_add(location.distance_to(target));
                    },
                    Err(_) => {},
                }
            }
            i += 1;
        }
        assert(pairs@.take(pairs@.len() as int) =~= pairs@);
        proof {
            lemma_heuristic_of(pairs@, world@, goal);
        }
        total
    }
}

} // verus!

verus! {

impl Searcher for AStarSearcher {
    type NodeType = AStarNode;

    fn get_start_world(&self) -> (r: &World)
        ensures
            r@ == self.start_view(),
    {
        &self.start_world
    }

    fn get_goal_world(&self) -> (r: &World)
        ensures
            r@ == self.goal_view(),
    {
        &self.goal_world
    }
}

} // verus!
