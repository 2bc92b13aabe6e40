//! Breadth-first tree search.

use vstd::prelude::*;

use std::collections::VecDeque;

use crate::search::{
    goal_unreachable, result_count, shortest_solution, stuck, tree_search, tree_size, BasicNode, Searcher,
    SearcherError,
};
use crate::world::{World, WorldView};

verus! {

/// Expands the shallowest node first: a first-in, first-out fringe.
pub struct BreadthFirstSearcher {
    start_world: World,
    goal_world: World,
    fringe: VecDeque<BasicNode>,
}

impl BreadthFirstSearcher {
    pub fn new(start_world: World, goal_world: World) -> (r: BreadthFirstSearcher)
        ensures
            r.start_view() == start_world@,
            r.goal_view() == goal_world@,
    {
        BreadthFirstSearcher { start_world, goal_world, fringe: VecDeque::new() }
    }

    /// The world the search starts from.
    pub closed spec fn start_view(&self) -> WorldView {
        self.start_world@
    }

    /// The world whose blocks the search must match.
    pub closed spec fn goal_view(&self) -> WorldView {
        self.goal_world@
    }

    /// Searches level by level. It succeeds whenever the goal lies within
    /// `m` moves and a four-way tree of depth `m` fits the expansion count.
    /// Returns the goal node and the number of nodes expanded, or why the
    /// search ended and that number.
    pub fn search(&mut self) -> (r: Result<(BasicNode, u32), (SearcherError, u32)>)
        ensures
            final(self).start_view() == old(self).start_view(),
            final(self).goal_view() == old(self).goal_view(),
            match r {
                Ok((n, _)) => {
                    &&& n.world@.eq_ignore_agent(old(self).goal_view())
                    &&& n.traces_back_to(old(self).start_view())
                    &&& shortest_solution(old(self).start_view(), old(self).goal_view(), n.depth as int)
                },
                Err((e, c)) => {
                    &&& e == SearcherError::ExpansionLimitError ==> c == u32::MAX
                    &&& e == SearcherError::GoalNotFoundError ==> goal_unreachable(old(self).start_view(), old(self).goal_view())
                },
            },
            old(self).start_view().eq_ignore_agent(old(self).goal_view()) ==> (r matches Ok((n, c)) && n.depth == 0 && c == 0),
            stuck(old(self).start_view()) && !old(self).start_view().eq_ignore_agent(old(self).goal_view())
                ==> r == Err::<(BasicNode, u32), (SearcherError, u32)>((SearcherError::GoalNotFoundError, 1)),
            forall|m: int| #[trigger] shortest_solution(old(self).start_view(), old(self).goal_view(), m) ==> {
                &&& result_count(r) <= tree_size(m)
                &&& tree_size(m) <= u32::MAX ==> r is Ok
            },
    {
        let r = tree_search(&self.start_world, &self.goal_world, &mut self.fringe, false, None);
        proof {
            if let Ok((ref n, _)) = r {
                n.lemma_reachable(self.start_world@);
            }
        }
        r
    }
}

impl Searcher for BreadthFirstSearcher {
    type NodeType = BasicNode;

    fn get_start_world(&self) -> (r: &World)
        ensures
            r@ == self.start_view(),
    {
        &self.start_world
    }

    fn get_goal_world(&self) -> (r: &World)
        ensures
            r@ == self.goal_view(),
    {
        &self.goal_world
    }
}

} // verus!
