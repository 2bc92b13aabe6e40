//! What the searchers share: search-tree nodes, reachability, the error
//! type, and the control loop of the uninformed strategies.

use vstd::prelude::*;

use std::collections::VecDeque;
use std::rc::Rc;

use rand::seq::SliceRandom;

use crate::world::{Direction, World, WorldError, WorldView};

verus! {

/// Why a search ended without a goal node.
#[derive(Clone, Copy, Debug, PartialEq, Eq, Structural)]
pub enum SearcherError {
    /// The fringe ran empty.
    GoalNotFoundError,
    /// The count of expanded nodes reached `u32::MAX`.
    ExpansionLimitError,
}

/// The world that the moves `ds` lead to from `start`, if every one of
/// them is legal.
pub open spec fn run(start: WorldView, ds: Seq<Direction>) -> Option<WorldView>
    decreases ds.len(),
{
    if ds.len() == 0 {
        Some(start)
    } else {
        match run(start, ds.drop_last()) {
            Some(w) => match w.move_agent(ds.last()) {
                Ok(v) => Some(v),
                Err(_) => None,
            },
            None => None,
        }
    }
}

/// `w` is reached from `start` by exactly `n` moves of the agent.
pub open spec fn reachable(start: WorldView, w: WorldView, n: nat) -> bool {
    exists|ds: Seq<Direction>| ds.len() == n && #[trigger] run(start, ds) == Some(w)
}

/// `w` is reached from `start` by some number of moves.
pub open spec fn reachable_from(start: WorldView, w: WorldView) -> bool {
    exists|ds: Seq<Direction>| #[trigger] run(start, ds) == Some(w)
}

/// No sequence of fewer than `n` legal moves leads from `start` to a world
/// that matches `goal`.
pub open spec fn goal_free_below(start: WorldView, goal: WorldView, n: int) -> bool {
    forall|ds: Seq<Direction>|
        ds.len() < n && (#[trigger] run(start, ds)) is Some ==> !run(start, ds).unwrap().eq_ignore_agent(goal)
}

/// No sequence of legal moves leads from `start` to a world that matches
/// `goal`.
pub open spec fn goal_unreachable(start: WorldView, goal: WorldView) -> bool {
    forall|ds: Seq<Direction>| (#[trigger] run(start, ds)) is Some ==> !run(start, ds).unwrap().eq_ignore_agent(goal)
}

/// `n` is the least number of moves that leads from `start` to a world
/// matching `goal`.
pub open spec fn shortest_solution(start: WorldView, goal: WorldView, n: int) -> bool {
    &&& exists|ds: Seq<Direction>|
        ds.len() == n && (#[trigger] run(start, ds)) is Some && run(start, ds).unwrap().eq_ignore_agent(goal)
    &&& goal_free_below(start, goal, n)
}

/// No solution is shorter than a shortest one: whatever a strategy finds
/// takes at least as many moves.
pub proof fn lemma_solution_not_shorter(start: WorldView, goal: WorldView, n: int, w: WorldView, d: nat)
    requires
        shortest_solution(start, goal, n),
        reachable(start, w, d),
        w.eq_ignore_agent(goal),
    ensures
        d >= n,
{
    let ds = choose|ds: Seq<Direction>| ds.len() == d && #[trigger] run(start, ds) == Some(w);
    assert(run(start, ds) is Some);
}

/// `k` moves are allowed under the depth bound.
pub open spec fn within(k: int, max_depth: Option<u32>) -> bool {
    match max_depth {
        Some(m) => k <= m,
        None => true,
    }
}

/// A legal move sequence keeps every prefix legal, each prefix one move
/// longer than the one before.
pub proof fn lemma_run_prefix(start: WorldView, ds: Seq<Direction>, j: int)
    requires
        run(start, ds) is Some,
        0 <= j <= ds.len(),
    ensures
        run(start, ds.take(j)) is Some,
        j < ds.len() ==> run(start, ds.take(j)).unwrap().move_agent(ds[j]) == Ok::<WorldView, WorldError>(
            run(start, ds.take(j + 1)).unwrap(),
        ),
    decreases ds.len(), ds.len() - j,
{
    if j < ds.len() {
        lemma_run_prefix(start, ds, j + 1);
        assert(ds.take(j + 1).drop_last() =~= ds.take(j));
        assert(ds.drop_last().take(j) =~= ds.take(j));
        lemma_run_prefix(start, ds.drop_last(), j);
    } else {
        assert(ds.take(j) =~= ds);
    }
}

/// Read access to a search-tree node.
pub trait Node: Sized {
    fn get_world(&self) -> &World;

    fn get_depth(&self) -> u32;

    fn get_parent(&self) -> Option<Rc<Self>>;
}

/// A strategy that searches from a start world towards a goal world.
pub trait Searcher {
    type NodeType: Node;

    fn get_start_world(&self) -> &World;

    fn get_goal_world(&self) -> &World;
}

/// A search-tree node: its depth, its world, and the node it was
/// expanded from, shared with its siblings.
pub struct BasicNode {
    pub depth: u32,
    pub world: Box<World>,
    pub parent: Option<Rc<BasicNode>>,
}

impl BasicNode {
    pub fn new(depth: u32, world: Box<World>, parent: Option<Rc<Self>>) -> (r: Self)
        ensures
            r.depth == depth,
            r.world == world,
            r.parent == parent,
    {
        BasicNode { depth, world, parent }
    }

    /// Following the parents leads back to a root at depth zero holding
    /// `start`, each node one legal move from its parent.
    pub open spec fn traces_back_to(self, start: WorldView) -> bool
        decreases self.depth,
    {
        match self.parent {
            None => self.depth == 0 && self.world@ == start,
            Some(p) => {
                &&& p.depth + 1 == self.depth
                &&& exists|d: Direction| #[trigger] p.world@.move_agent(d) == Ok::<WorldView, WorldError>(self.world@)
                &&& p.traces_back_to(start)
            },
        }
    }

    /// A node that traces back to `start` holds a world reached from
    /// `start` by exactly its depth in moves.
    pub proof fn lemma_reachable(&self, start: WorldView)
        requires
            self.traces_back_to(start),
        ensures
            reachable(start, self.world@, self.depth as nat),
        decreases self.depth,
    {
        match self.parent {
            None => {
                assert(run(start, Seq::<Direction>::empty()) == Some(self.world@));
            },
            Some(p) => {
                p.lemma_reachable(start);
                let d = choose|d: Direction| #[trigger] p.world@.move_agent(d) == Ok::<WorldView, WorldError>(self.world@);
                let ps = choose|ds: Seq<Direction>| ds.len() == p.depth as nat && #[trigger] run(start, ds) == Some(p.world@);
                let ds = ps.push(d);
                assert(ds.drop_last() =~= ps);
                assert(run(start, ds) == Some(self.world@));
            },
        }
    }
}

impl Node for BasicNode {
    fn get_world(&self) -> (r: &World)
        ensures
            *r == *self.world,
    {
        &*self.world
    }

    fn get_depth(&self) -> (r: u32)
        ensures
            r == self.depth,
    {
        self.depth
    }

    fn get_parent(&self) -> (r: Option<Rc<BasicNode>>)
        ensures
            r == self.parent,
    {
        match &self.parent {
            Some(p) => Some(share(p)),
            None => None,
        }
    }
}

/// Relies on `Rc::clone`: another pointer to the same value.
#[verifier::external_body]
pub(crate) fn share<T>(p: &Rc<T>) -> (r: Rc<T>)
    ensures
        r == *p,
{
    Rc::clone(p)
}

/// Relies on rand's `SliceRandom::shuffle` with the thread-local generator:
/// it permutes the directions in place by swaps. (`thread_rng` panics only
/// if the operating system cannot seed it.)
#[verifier::external_body]
pub(crate) fn shuffle_directions(directions: &mut [Direction; 4])
    ensures
        final(directions)@.to_multiset() == old(directions)@.to_multiset(),
{
    directions.shuffle(&mut rand::thread_rng());
}

/// Every listed world is in `tested`, or the fringe holds, at depth `j`,
/// the world that the first `j` of the moves `ds` lead to.
pub open spec fn covered(start: WorldView, fringe: Seq<BasicNode>, tested: Set<WorldView>, ds: Seq<Direction>) -> bool {
    ||| tested.contains(run(start, ds).unwrap())
    ||| exists|j: int, i: int|
        0 <= j <= ds.len() && 0 <= i < fringe.len() && (#[trigger] fringe[i]).depth == j
            && #[trigger] run(start, ds.take(j)) == Some(fringe[i].world@)
}

/// A permutation of the four directions holds each of them.
pub(crate) proof fn lemma_all_directions(dirs: Seq<Direction>, d: Direction)
    requires
        dirs.to_multiset() == seq![Direction::Up, Direction::Down, Direction::Left, Direction::Right].to_multiset(),
    ensures
        exists|i: int| 0 <= i < dirs.len() && dirs[i] == d,
{
    let all = seq![Direction::Up, Direction::Down, Direction::Left, Direction::Right];
    dirs.to_multiset_ensures();
    all.to_multiset_ensures();
    let k: int = match d {
        Direction::Up => 0,
        Direction::Down => 1,
        Direction::Left => 2,
        Direction::Right => 3,
    };
    assert(all[k] == d);
    assert(all.contains(d));
    assert(all.to_multiset().count(d) > 0);
    assert(dirs.to_multiset().count(d) > 0);
    assert(dirs.contains(d));
}

/// The worlds that the legal moves among `dirs` lead to from `w`, in the
/// order of `dirs`.
pub open spec fn children(w: WorldView, dirs: Seq<Direction>) -> Seq<WorldView>
    decreases dirs.len(),
{
    if dirs.len() == 0 {
        Seq::empty()
    } else {
        let c = children(w, dirs.drop_last());
        match w.move_agent(dirs.last()) {
            Ok(v) => c.push(v),
            Err(_) => c,
        }
    }
}

/// Each child comes from a legal move, each legal move gives a child, and
/// there are no more children than directions.
pub proof fn lemma_children(w: WorldView, dirs: Seq<Direction>)
    ensures
        children(w, dirs).len() <= dirs.len(),
        forall|k: int|
            #![trigger children(w, dirs)[k]]
            0 <= k < children(w, dirs).len() ==> exists|a: int|
                0 <= a < dirs.len() && #[trigger] w.move_agent(dirs[a]) == Ok::<WorldView, WorldError>(children(w, dirs)[k]),
        forall|a: int| 0 <= a < dirs.len() && (#[trigger] w.move_agent(dirs[a])) is Ok ==> exists|k: int|
            0 <= k < children(w, dirs).len() && children(w, dirs)[k] == w.move_agent(dirs[a]).unwrap(),
    decreases dirs.len(),
{
    if dirs.len() > 0 {
        let t = dirs.drop_last();
        lemma_children(w, t);
        let c = children(w, t);
        let n = dirs.len() - 1;
        let last = w.move_agent(dirs[n]);
        let cd = children(w, dirs);
        assert(cd == (if last is Ok { c.push(last.unwrap()) } else { c }));
        assert forall|k: int|
            #![trigger cd[k]]
            0 <= k < cd.len() implies exists|a: int|
                0 <= a < dirs.len() && #[trigger] w.move_agent(dirs[a]) == Ok::<WorldView, WorldError>(cd[k]) by {
            if k < c.len() {
                let a = choose|a: int| 0 <= a < t.len() && #[trigger] w.move_agent(t[a]) == Ok::<WorldView, WorldError>(c[k]);
                assert(dirs[a] == t[a]);
                assert(cd[k] == c[k]);
            } else {
                assert(w.move_agent(dirs[n]) == Ok::<WorldView, WorldError>(cd[k]));
            }
        }
        assert forall|a: int| 0 <= a < dirs.len() && (#[trigger] w.move_agent(dirs[a])) is Ok implies exists|k: int|
            0 <= k < cd.len() && cd[k] == w.move_agent(dirs[a]).unwrap() by {
            if a < n {
                assert(dirs[a] == t[a]);
                let k = choose|k: int| 0 <= k < c.len() && c[k] == w.move_agent(t[a]).unwrap();
                assert(cd[k] == c[k]);
            } else {
                assert(cd[c.len() as int] == last.unwrap());
            }
        }
    }
}

/// Expands `parent`: appends to `fringe`, in the order of `directions`,
/// one child per legal move, one level deeper and with `parent` as its
/// parent.
pub fn expand(parent: &Rc<BasicNode>, directions: &[Direction; 4], fringe: &mut VecDeque<BasicNode>)
    requires
        parent.depth < u32::MAX,
    ensures
        final(fringe)@.len() == old(fringe)@.len() + children(parent.world@, directions@).len(),
        forall|k: int| 0 <= k < old(fringe)@.len() ==> #[trigger] final(fringe)@[k] == old(fringe)@[k],
        forall|k: int| 0 <= k < children(parent.world@, directions@).len() ==> {
            &&& (#[trigger] final(fringe)@[old(fringe)@.len() + k]).world@ == children(parent.world@, directions@)[k]
            &&& final(fringe)@[old(fringe)@.len() + k].depth == parent.depth + 1
            &&& final(fringe)@[old(fringe)@.len() + k].parent == Some(*parent)
        },
{
    let ghost base = fringe@;
    let ghost w = parent.world@;
    let child_depth = parent.depth + 1;
    for i in 0..4
        invariant
            w == parent.world@,
            child_depth == parent.depth + 1,
            fringe@.len() == base.len() + children(w, directions@.take(i as int)).len(),
            forall|k: int| 0 <= k < base.len() ==> #[trigger] fringe@[k] == base[k],
            forall|k: int| 0 <= k < children(w, directions@.take(i as int)).len() ==> {
                &&& (#[trigger] fringe@[base.len() + k]).world@ == children(w, directions@.take(i as int))[k]
                &&& fringe@[base.len() + k].depth == child_depth
                &&& fringe@[base.len() + k].parent == Some(*parent)
            },
    {
        assert(directions@.take(i + 1).drop_last() =~= directions@.take(i as int));
        assert(directions@.take(i + 1).last() == directions@[i as int]);
        let ghost before = fringe@;
        match parent.world.clone_and_move_agent(&directions[i]) {
            Ok(moved) => {
                let child = BasicNode::new(child_depth, Box::new(moved), Some(share(parent)));
                fringe.push_back(child);
                assert(fringe@ == before.push(child));
            },
            Err(_) => {},
        }
    }
    assert(directions@.take(4) =~= directions@);
}

/// Popping `before[p]`, testing it, and then either cutting it at the
/// depth bound or pushing all its children keeps every run covered.
proof fn lemma_covered_step(
    start: WorldView,
    before: Seq<BasicNode>,
    rest: Seq<BasicNode>,
    after: Seq<BasicNode>,
    tested_before: Set<WorldView>,
    p: int,
    shift: int,
    max_depth: Option<u32>,
)
    requires
        0 <= p < before.len(),
        rest.len() == before.len() - 1,
        (p == 0 && shift == 1) || (p == before.len() - 1 && shift == 0),
        forall|i: int| 0 <= i < rest.len() ==> #[trigger] rest[i] == before[i + shift],
        after.len() >= rest.len(),
        forall|k: int| 0 <= k < rest.len() ==> #[trigger] after[k] == rest[k],
        forall|ds: Seq<Direction>|
            (#[trigger] run(start, ds)) is Some && within(ds.len() as int, max_depth)
                ==> covered(start, before, tested_before, ds),
        (max_depth matches Some(m) && before[p].depth >= m) || forall|d: Direction|
            (#[trigger] before[p].world@.move_agent(d)) is Ok ==> exists|k: int|
                0 <= k < after.len() && (#[trigger] after[k]).depth == before[p].depth + 1
                    && after[k].world@ == before[p].world@.move_agent(d).unwrap(),
    ensures
        forall|ds: Seq<Direction>|
            (#[trigger] run(start, ds)) is Some && within(ds.len() as int, max_depth)
                ==> covered(start, after, tested_before.insert(before[p].world@), ds),
{
    let tested = tested_before.insert(before[p].world@);
    assert forall|ds: Seq<Direction>|
        (#[trigger] run(start, ds)) is Some && within(ds.len() as int, max_depth)
            implies covered(start, after, tested, ds) by {
        assert(covered(start, before, tested_before, ds));
        if !tested.contains(run(start, ds).unwrap()) {
            let (j, i) = choose|j: int, i: int|
                0 <= j <= ds.len() && 0 <= i < before.len() && (#[trigger] before[i]).depth == j
                    && #[trigger] run(start, ds.take(j)) == Some(before[i].world@);
            if i == p {
                if j == ds.len() {
                    assert(ds.take(j) =~= ds);
                } else {
                    lemma_run_prefix(start, ds, j);
                    lemma_run_prefix(start, ds, j + 1);
                    assert(before[p].world@.move_agent(ds[j]) is Ok);
                    let k = choose|k: int|
                        0 <= k < after.len() && (#[trigger] after[k]).depth == before[p].depth + 1
                            && after[k].world@ == before[p].world@.move_agent(ds[j]).unwrap();
                    assert(0 <= j + 1 <= ds.len() && after[k].depth == j + 1
                        && run(start, ds.take(j + 1)) == Some(after[k].world@));
                }
            } else {
                assert(rest[i - shift] == before[i]);
                assert(after[i - shift] == before[i]);
            }
        }
    }
}

/// No move of the agent is legal in `w`.
pub open spec fn stuck(w: WorldView) -> bool {
    forall|d: Direction| #[trigger] w.move_agent(d) is Err
}

/// How many nodes a tree of branching four holds down to depth `k` (none
/// for a negative `k`): a bound on what a search expands when no node
/// deeper than `k` is expanded.
pub open spec fn tree_size(k: int) -> int
    decreases k + 1,
{
    if k < 0 {
        0
    } else {
        1 + 4 * tree_size(k - 1)
    }
}

/// The node count that a search result reports.
pub open spec fn result_count<N>(r: Result<(N, u32), (SearcherError, u32)>) -> u32 {
    match r {
        Ok((_, c)) => c,
        Err((_, c)) => c,
    }
}

pub proof fn lemma_tree_size(k: int)
    ensures
        tree_size(k) >= 0,
        k >= 0 ==> tree_size(k) >= k + 1,
    decreases k + 1,
{
    if k >= 0 {
        lemma_tree_size(k - 1);
    }
}

pub proof fn lemma_tree_size_monotone(a: int, b: int)
    requires
        a <= b,
    ensures
        tree_size(a) <= tree_size(b),
    decreases b - a,
{
    if a < b {
        lemma_tree_size_monotone(a, b - 1);
        lemma_tree_size(b - 1);
    }
}

/// There is at most one shortest solution length.
pub proof fn lemma_shortest_unique(start: WorldView, goal: WorldView, m1: int, m2: int)
    requires
        shortest_solution(start, goal, m1),
        shortest_solution(start, goal, m2),
    ensures
        m1 == m2,
{
    let d1 = choose|ds: Seq<Direction>| ds.len() == m1 && (#[trigger] run(start, ds)) is Some && run(start, ds).unwrap().eq_ignore_agent(goal);
    let d2 = choose|ds: Seq<Direction>| ds.len() == m2 && (#[trigger] run(start, ds)) is Some && run(start, ds).unwrap().eq_ignore_agent(goal);
    assert(run(start, d1) is Some);
    assert(run(start, d2) is Some);
}

/// What the fringe may still cost in expansions if no node deeper than
/// `m` is expanded.
spec fn potential(s: Seq<BasicNode>, m: int) -> int
    decreases s.len(),
{
    if s.len() == 0 {
        0
    } else {
        potential(s.drop_last(), m) + tree_size(m - s.last().depth)
    }
}

proof fn lemma_potential_nonneg(s: Seq<BasicNode>, m: int)
    ensures
        potential(s, m) >= 0,
    decreases s.len(),
{
    if s.len() > 0 {
        lemma_potential_nonneg(s.drop_last(), m);
        lemma_tree_size(m - s.last().depth);
    }
}

proof fn lemma_potential_front(s: Seq<BasicNode>, m: int)
    requires
        s.len() > 0,
    ensures
        potential(s, m) == tree_size(m - s[0].depth) + potential(s.subrange(1, s.len() as int), m),
    decreases s.len(),
{
    if s.len() == 1 {
        assert(s.subrange(1, 1) =~= Seq::<BasicNode>::empty());
        assert(s.drop_last() =~= Seq::<BasicNode>::empty());
    } else {
        lemma_potential_front(s.drop_last(), m);
        assert(s.drop_last().subrange(1, s.len() - 1) =~= s.subrange(1, s.len() as int).drop_last());
    }
}

proof fn lemma_potential_append(s: Seq<BasicNode>, a: Seq<BasicNode>, m: int, d: int)
    requires
        a.len() <= s.len(),
        forall|k: int| 0 <= k < a.len() ==> #[trigger] s[k] == a[k],
        forall|k: int| a.len() <= k < s.len() ==> (#[trigger] s[k]).depth == d,
    ensures
        potential(s, m) == potential(a, m) + (s.len() - a.len()) * tree_size(m - d),
    decreases s.len(),
{
    if s.len() == a.len() {
        assert(s =~= a);
    } else {
        lemma_potential_append(s.drop_last(), a, m, d);
        let n = s.len() - a.len();
        let t = tree_size(m - d);
        assert((n - 1) * t + t == n * t) by (nonlinear_arith);
    }
}

/// The control loop of breadth-first (`lifo` false) and depth-first
/// (`lifo` true) tree search, optionally bounded in depth.
#[verifier::rlimit(100)]
#[verifier::spinoff_prover]
pub(crate) fn tree_search(
    start: &World,
    goal: &World,
    fringe: &mut VecDeque<BasicNode>,
    lifo: bool,
    max_depth: Option<u32>,
) -> (r: Result<(BasicNode, u32), (SearcherError, u32)>)
    ensures
        match r {
            Ok((n, _)) => {
                &&& n.world@.eq_ignore_agent(goal@)
                &&& n.traces_back_to(start@)
                &&& within(n.depth as int, max_depth)
                &&& !lifo && max_depth is None ==> goal_free_below(start@, goal@, n.depth as int)
            },
            Err((e, c)) => {
                &&& e == SearcherError::ExpansionLimitError ==> c == u32::MAX
                &&& e == SearcherError::GoalNotFoundError ==> forall|ds: Seq<Direction>|
                    within(ds.len() as int, max_depth) && (#[trigger] run(start@, ds)) is Some
                        ==> !run(start@, ds).unwrap().eq_ignore_agent(goal@)
            },
        },
        start@.eq_ignore_agent(goal@) ==> (r matches Ok((n, c)) && n.depth == 0 && c == 0),
        max_depth matches Some(b) ==> result_count(r) <= tree_size(b - 1),
        max_depth matches Some(b) && tree_size(b - 1) <= u32::MAX ==> !(r matches Err((SearcherError::ExpansionLimitError, _))),
        stuck(start@) && !start@.eq_ignore_agent(goal@) ==> r == Err::<(BasicNode, u32), (SearcherError, u32)>(
            (SearcherError::GoalNotFoundError, if max_depth == Some(0u32) { 0u32 } else { 1u32 }),
        ),
        !lifo && max_depth is None ==> forall|m: int| #[trigger] shortest_solution(start@, goal@, m) ==> {
            &&& result_count(r) <= tree_size(m)
            &&& tree_size(m) <= u32::MAX ==> r is Ok
        },
{
    let ghost all = seq![Direction::Up, Direction::Down, Direction::Left, Direction::Right];
    let ghost cap: Option<int> = match max_depth {
        Some(b) => Some(b - 1),
        None => if !lifo && exists|m: int| shortest_solution(start@, goal@, m) {
            Some(choose|m: int| shortest_solution(start@, goal@, m))
        } else {
            None
        },
    };
    fringe.clear();
    let root = BasicNode::new(0, Box::new(start.duplicate()), None);
    fringe.push_back(root);
    let mut expanded: u32 = 0;
    let mut directions = Direction::directions_array();
    let ghost mut tested = Set::<WorldView>::empty();
    proof {
        assert forall|ds: Seq<Direction>|
            (#[trigger] run(start@, ds)) is Some && within(ds.len() as int, max_depth)
                implies covered(start@, fringe@, tested, ds) by {
            assert(ds.take(0) =~= Seq::<Direction>::empty());
            assert(fringe@[0].depth == 0);
            assert(run(start@, ds.take(0)) == Some(fringe@[0].world@));
        }
        assert(fringe@.drop_last() =~= Seq::<BasicNode>::empty());
        assert(fringe@.last().depth == 0);
        if let Some(mm) = cap {
            assert(potential(fringe@, mm) == potential(Seq::<BasicNode>::empty(), mm) + tree_size(mm));
        }
    }
    loop
        invariant
            forall|i: int| 0 <= i < fringe@.len() ==> (#[trigger] fringe@[i]).traces_back_to(start@)
                && fringe@[i].depth <= expanded && within(fringe@[i].depth as int, max_depth),
            start@.eq_ignore_agent(goal@) ==> expanded == 0 && fringe@.len() == 1 && fringe@[0].depth == 0
                && fringe@[0].world@ == start@,
            directions@.to_multiset() == all.to_multiset(),
            all == seq![Direction::Up, Direction::Down, Direction::Left, Direction::Right],
            forall|t: WorldView| tested.contains(t) ==> !t.eq_ignore_agent(goal@),
            forall|ds: Seq<Direction>|
                (#[trigger] run(start@, ds)) is Some && within(ds.len() as int, max_depth)
                    ==> covered(start@, fringe@, tested, ds),
            !lifo ==> forall|i: int, j: int| 0 <= i < j < fringe@.len()
                ==> (#[trigger] fringe@[i]).depth <= (#[trigger] fringe@[j]).depth,
            !lifo ==> forall|i: int| 0 <= i < fringe@.len() ==> (#[trigger] fringe@[i]).depth <= fringe@[0].depth + 1,
            cap == (match max_depth {
                Some(b) => Some(b - 1),
                None => if !lifo && exists|m: int| shortest_solution(start@, goal@, m) {
                    Some(choose|m: int| shortest_solution(start@, goal@, m))
                } else {
                    None
                },
            }),
            cap matches Some(mm) ==> expanded + potential(fringe@, mm) <= tree_size(mm),
            stuck(start@) && !start@.eq_ignore_agent(goal@) ==> {
                ||| expanded == 0 && fringe@.len() == 1 && fringe@[0].world@ == start@ && fringe@[0].depth == 0
                ||| fringe@.len() == 0 && expanded == (if max_depth == Some(0u32) { 0u32 } else { 1u32 })
            },
        decreases u32::MAX - expanded, fringe@.len(),
    {
        let ghost before = fringe@;
        let popped = if lifo {
            fringe.pop_back()
        } else {
            fringe.pop_front()
        };
        let node = match popped {
            Some(n) => n,
            None => {
                proof {
                    assert forall|ds: Seq<Direction>|
                        within(ds.len() as int, max_depth) && (#[trigger] run(start@, ds)) is Some
                            implies !run(start@, ds).unwrap().eq_ignore_agent(goal@) by {
                        assert(covered(start@, fringe@, tested, ds));
                    }
                }
                return Err((SearcherError::GoalNotFoundError, expanded));
            },
        };
        let ghost p: int = if lifo { before.len() - 1 } else { 0 };
        let ghost shift: int = if lifo { 0 } else { 1 };
        assert(node == before[p]);
        assert(forall|i: int| 0 <= i < fringe@.len() ==> #[trigger] fringe@[i] == before[i + shift]);
        proof {
            if let Some(mm) = cap {
                if lifo {
                    assert(before.drop_last() =~= fringe@);
                } else {
                    lemma_potential_front(before, mm);
                    assert(before.subrange(1, before.len() as int) =~= fringe@);
                }
                assert(potential(before, mm) == potential(fringe@, mm) + tree_size(mm - node.depth));
                lemma_potential_nonneg(fringe@, mm);
                lemma_tree_size(mm - node.depth);
            }
        }
        if node.world.eq_ignore_agent(goal) {
            proof {
                if !lifo && max_depth is None {
                    assert forall|ds: Seq<Direction>|
                        ds.len() < node.depth && (#[trigger] run(start@, ds)) is Some
                            implies !run(start@, ds).unwrap().eq_ignore_agent(goal@) by {
                        assert(covered(start@, before, tested, ds));
                        if !tested.contains(run(start@, ds).unwrap()) {
                            let (j, i) = choose|j: int, i: int|
                                0 <= j <= ds.len() && 0 <= i < before.len() && (#[trigger] before[i]).depth == j
                                    && #[trigger] run(start@, ds.take(j)) == Some(before[i].world@);
                            if i > 0 {
                                assert(before[0].depth <= before[i].depth);
                            }
                        }
                    }
                }
            }
            return Ok((node, expanded));
        }
        let ghost tested_before = tested;
        proof {
            tested = tested.insert(node.world@);
        }
        if let Some(m) = max_depth {
            if node.depth >= m {
                proof {
                    lemma_covered_step(start@, before, fringe@, fringe@, tested_before, p, shift, max_depth);
                    if !lifo && fringe@.len() > 0 {
                        assert(fringe@[0] == before[1]);
                    }
                }
                continue;
            }
        }
        proof {
            if let Some(mm) = cap {
                if max_depth is None {
                    let ds = choose|ds: Seq<Direction>|
                        ds.len() == mm && (#[trigger] run(start@, ds)) is Some && run(start@, ds).unwrap().eq_ignore_agent(goal@);
                    assert(covered(start@, before, tested_before, ds));
                    let (j, i) = choose|j: int, i: int|
                        0 <= j <= ds.len() && 0 <= i < before.len() && (#[trigger] before[i]).depth == j
                            && #[trigger] run(start@, ds.take(j)) == Some(before[i].world@);
                    if i > 0 {
                        assert(before[0].depth <= before[i].depth);
                    }
                }
                assert(node.depth <= mm);
                lemma_tree_size(mm - node.depth);
            }
        }
        if expanded == u32::MAX {
            return Err((SearcherError::ExpansionLimitError, expanded));
        }
        let child_depth = node.depth + 1;
        shuffle_directions(&mut directions);
        let parent = Rc::new(node);
        let ghost rest = fringe@;
        expand(&parent, &directions, fringe);
        proof {
            let cs = children(parent.world@, directions@);
            lemma_children(parent.world@, directions@);
            assert forall|k: int| rest.len() <= k < fringe@.len() implies {
                &&& (#[trigger] fringe@[k]).depth == child_depth
                &&& fringe@[k].traces_back_to(start@)
            } by {
                let c = k - rest.len();
                assert(fringe@[rest.len() + c].world@ == cs[c]);
                let a = choose|a: int| 0 <= a < directions@.len() && #[trigger] parent.world@.move_agent(directions@[a])
                    == Ok::<WorldView, WorldError>(cs[c]);
                assert(parent.world@.move_agent(directions@[a]) == Ok::<WorldView, WorldError>(fringe@[k].world@));
            }
            assert forall|k: int| 0 <= k < fringe@.len() implies (#[trigger] fringe@[k]).traces_back_to(start@)
                && fringe@[k].depth <= expanded + 1 && within(fringe@[k].depth as int, max_depth) by {
                if k < rest.len() {
                    assert(fringe@[k] == rest[k]);
                }
            }
            assert forall|a: int| 0 <= a < 4 && (#[trigger] parent.world@.move_agent(directions@[a])) is Ok
                implies exists|k: int| 0 <= k < fringe@.len() && (#[trigger] fringe@[k]).depth == child_depth
                    && fringe@[k].world@ == parent.world@.move_agent(directions@[a]).unwrap() by {
                let c = choose|c: int| 0 <= c < cs.len() && cs[c] == parent.world@.move_agent(directions@[a]).unwrap();
                assert(fringe@[rest.len() + c].world@ == cs[c]);
            }
            assert forall|k: int| 0 <= k < rest.len() implies #[trigger] fringe@[k] == rest[k] by {}
            if let Some(mm) = cap {
                lemma_potential_append(fringe@, rest, mm, child_depth as int);
                let t = tree_size(mm - child_depth);
                lemma_tree_size(mm - child_depth);
                let n = fringe@.len() - rest.len();
                assert(n <= 4);
                assert(n * t <= 4 * t) by (nonlinear_arith)
                    requires
                        n <= 4,
                        t >= 0,
                ;
                assert(tree_size(mm - node.depth) == 1 + 4 * t);
            }
        }
        proof {
            assert forall|d: Direction| (#[trigger] before[p].world@.move_agent(d)) is Ok implies exists|k: int|
                0 <= k < fringe@.len() && (#[trigger] fringe@[k]).depth == before[p].depth + 1
                    && fringe@[k].world@ == before[p].world@.move_agent(d).unwrap() by {
                lemma_all_directions(directions@, d);
                let a = choose|a: int| 0 <= a < directions@.len() && directions@[a] == d;
                assert(parent.world@.move_agent(directions@[a]) is Ok);
            }
            lemma_covered_step(start@, before, rest, fringe@, tested_before, p, shift, max_depth);
            if stuck(start@) && !start@.eq_ignore_agent(goal@) {
                let cs = children(parent.world@, directions@);
                assert(before[p].world@ == start@);
                if cs.len() > 0 {
                    let a = choose|a: int| 0 <= a < directions@.len() && #[trigger] parent.world@.move_agent(directions@[a])
                        == Ok::<WorldView, WorldError>(cs[0]);
                    assert(start@.move_agent(directions@[a]) is Err);
                }
                assert(rest.len() == 0);
                if let Some(m) = max_depth {
                    assert(m != 0);
                }
            }
            if !lifo {
                assert forall|a: int, b: int| 0 <= a < b < fringe@.len()
                    implies (#[trigger] fringe@[a]).depth <= (#[trigger] fringe@[b]).depth by {
                    if b < rest.len() {
                        assert(fringe@[a] == before[a + 1] && fringe@[b] == before[b + 1]);
                    } else if a < rest.len() {
                        assert(fringe@[a] == before[a + 1]);
                        assert(before[a + 1].depth <= before[0].depth + 1);
                    }
                }
                if fringe@.len() > 0 {
                    if rest.len() > 0 {
                        assert(fringe@[0] == before[1]);
                        assert(before[0].depth <= before[1].depth);
                    }
                    assert forall|a: int| 0 <= a < fringe@.len() implies (#[trigger] fringe@[a]).depth <= fringe@[0].depth + 1 by {
                        if a < rest.len() {
                            assert(fringe@[a] == before[a + 1]);
                            assert(before[a + 1].depth <= before[0].depth + 1);
                        }
                    }
                }
            }
        }
        expanded += 1;
    }
}

} // verus!
