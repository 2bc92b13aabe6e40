//! Iterative-deepening search.

use vstd::prelude::*;

use std::collections::VecDeque;

use crate::search::{
    goal_free_below, goal_unreachable, lemma_tree_size, lemma_tree_size_monotone, shortest_solution, tree_search, tree_size,
    BasicNode, Searcher, SearcherError, run,
};
use crate::world::{Direction, World, WorldView};

verus! {

/// Repeated depth-first searches under a growing depth bound.
pub struct IterativeDeepeningSearcher {
    start_world: World,
    goal_world: World,
    fringe: VecDeque<BasicNode>,
}

impl IterativeDeepeningSearcher {
    pub fn new(start_world: World, goal_world: World) -> (r: IterativeDeepeningSearcher)
        ensures
            r.start_view() == start_world@,
            r.goal_view() == goal_world@,
    {
        IterativeDeepeningSearcher { start_world, goal_world, fringe: VecDeque::new() }
    }

    /// The world the search starts from.
    pub closed spec fn start_view(&self) -> WorldView {
        self.start_world@
    }

    /// The world whose blocks the search must match.
    pub closed spec fn goal_view(&self) -> WorldView {
        self.goal_world@
    }

    /// Runs depth-first searches bounded at depth 0, 1, 2, ... until one
    /// finds the goal, adding up the nodes they expand (the sum saturates at
    /// `u32::MAX`).
    pub fn search(&mut self) -> (r: Result<(BasicNode, u32), (SearcherError, u32)>)
        ensures
            final(self).start_view() == old(self).start_view(),
            final(self).goal_view() == old(self).goal_view(),
            match r {
                Ok((n, _)) => {
                    &&& n.world@.eq_ignore_agent(old(self).goal_view())
                    &&& n.traces_back_to(old(self).start_view())
                    &&& shortest_solution(old(self).start_view(), old(self).goal_view(), n.depth as int)
                },
                Err((e, c)) => {
                    &&& e == SearcherError::ExpansionLimitError ==> c == u32::MAX
                    &&& e == SearcherError::GoalNotFoundError ==> goal_free_below(
                        old(self).start_view(),
                        old(self).goal_view(),
                        u32::MAX + 1,
                    )
                },
            },
            old(self).start_view().eq_ignore_agent(old(self).goal_view()) ==> (r matches Ok((n, c)) && n.depth == 0 && c == 0),
            forall|m: int| #[trigger] shortest_solution(old(self).start_view(), old(self).goal_view(), m)
                && tree_size(m - 1) <= u32::MAX ==> r is Ok,
    {
        let mut expanded_nodes: u32 = 0;
        let mut max_depth: u32 = 0;
        loop
            invariant
                self.start_view() == old(self).start_view(),
                self.goal_view() == old(self).goal_view(),
                old(self).start_view().eq_ignore_agent(old(self).goal_view()) ==> max_depth == 0 && expanded_nodes == 0,
                goal_free_below(self.start_world@, self.goal_world@, max_depth as int),
                forall|m: int| #[trigger] shortest_solution(self.start_world@, self.goal_world@, m)
                    && tree_size(m - 1) <= u32::MAX ==> max_depth <= m,
            decreases u32::MAX - max_depth,
        {
            match tree_search(&self.start_world, &self.goal_world, &mut self.fringe, true, Some(max_depth)) {
                Ok((node, count)) => {
                    proof {
                        node.lemma_reachable(self.start_world@);
                    }
                    return Ok((node, expanded_nodes.saturating_add(count)));
                },
                Err((SearcherError::ExpansionLimitError, count)) => {
                    proof {
                        assert forall|m: int| #[trigger] shortest_solution(self.start_world@, self.goal_world@, m)
                            && tree_size(m - 1) <= u32::MAX implies false by {
                            lemma_tree_size_monotone(max_depth - 1, m - 1);
                        }
                    }
                    return Err((SearcherError::ExpansionLimitError, count));
                },
                Err((SearcherError::GoalNotFoundError, count)) => {
                    expanded_nodes = expanded_nodes.saturating_add(count);
                    assert(goal_free_below(self.start_world@, self.goal_world@, max_depth + 1));
                    proof {
                        assert forall|m: int| #[trigger] shortest_solution(self.start_world@, self.goal_world@, m)
                            && tree_size(m - 1) <= u32::MAX implies max_depth < m by {
                            let ds = choose|ds: Seq<Direction>| ds.len() == m && (#[trigger] run(self.start_world@, ds)) is Some
                                && run(self.start_world@, ds).unwrap().eq_ignore_agent(self.goal_world@);
                            assert(run(self.start_world@, ds) is Some);
                        }
                    }
                    if max_depth == u32::MAX {
                        proof {
                            assert forall|m: int| #[trigger] shortest_solution(self.start_world@, self.goal_world@, m)
                                && tree_size(m - 1) <= u32::MAX implies false by {
                                lemma_tree_size(m - 1);
                            }
                        }
                        return Err((SearcherError::GoalNotFoundError, expanded_nodes));
                    }
                    max_depth += 1;
                },
            }
        }
    }
}

impl Searcher for IterativeDeepeningSearcher {
    type NodeType = BasicNode;

    fn get_start_world(&self) -> (r: &World)
        ensures
            r@ == self.start_view(),
    {
        &self.start_world
    }

    fn get_goal_world(&self) -> (r: &World)
        ensures
            r@ == self.goal_view(),
    {
        &self.goal_world
    }
}

} // verus!
