//! Depth-first tree search.

use vstd::prelude::*;

use std::collections::VecDeque;

use crate::search::{goal_unreachable, stuck, tree_search, BasicNode, Searcher, SearcherError};
use crate::world::{World, WorldView};

verus! {

/// Expands the deepest node first: a last-in, first-out fringe, with no
/// depth bound and no record of visited states.
pub struct DepthFirstSearcher {
    start_world: World,
    goal_world: World,
    fringe: VecDeque<BasicNode>,
}

impl DepthFirstSearcher {
    pub fn new(start_world: World, goal_world: World) -> (r: DepthFirstSearcher)
        ensures
            r.start_view() == start_world@,
            r.goal_view() == goal_world@,
    {
        DepthFirstSearcher { start_world, goal_world, fringe: VecDeque::new() }
    }

    /// The world the search starts from.
    pub closed spec fn start_view(&self) -> WorldView {
        self.start_world@
    }

    /// The world whose blocks the search must match.
    pub closed spec fn goal_view(&self) -> WorldView {
        self.goal_world@
    }

    /// Searches deepest node first; it may run until the expansion count is
    /// spent.
    /// Returns the goal node and the number of nodes expanded, or why the
    /// search ended and that number.
    pub fn search(&mut self) -> (r: Result<(BasicNode, u32), (SearcherError, u32)>)
        ensures
            final(self).start_view() == old(self).start_view(),
            final(self).goal_view() == old(self).goal_view(),
            match r {
                Ok((n, _)) => n.world@.eq_ignore_agent(old(self).goal_view()) && n.traces_back_to(old(self).start_view()),
                Err((e, c)) => {
                    &&& e == SearcherError::ExpansionLimitError ==> c == u32::MAX
                    &&& e == SearcherError::GoalNotFoundError ==> goal_unreachable(old(self).start_view(), old(self).goal_view())
                },
            },
            old(self).start_view().eq_ignore_agent(old(self).goal_view()) ==> (r matches Ok((n, c)) && n.depth == 0 && c == 0),
            stuck(old(self).start_view()) && !old(self).start_view().eq_ignore_agent(old(self).goal_view())
                ==> r == Err::<(BasicNode, u32), (SearcherError, u32)>((SearcherError::GoalNotFoundError, 1)),
    {
        tree_search(&self.start_world, &self.goal_world, &mut self.fringe, true, None)
    }
}

impl Searcher for DepthFirstSearcher {
    type NodeType = BasicNode;

    fn get_start_world(&self) -> (r: &World)
        ensures
            r@ == self.start_view(),
    {
        &self.start_world
    }

    fn get_goal_world(&self) -> (r: &World)
        ensures
            r@ == self.goal_view(),
    {
        &self.goal_world
    }
}

} // verus!
