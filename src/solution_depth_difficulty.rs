//! Generation of puzzles graded by difficulty: a random walk away from a
//! goal world, keeping the first world met at each solution depth.

use vstd::prelude::*;

use crate::a_star_searcher::AStarSearcher;
use crate::search::{reachable_from, run, shortest_solution, shuffle_directions};
use crate::world::{Direction, World, WorldView};

verus! {

/// What a generated puzzle list promises: difficulties strictly increase,
/// each world lies on the walk from `goal`, and its difficulty is the least
/// number of moves that solves it back to `goal`.
pub open spec fn graded(goal: WorldView, solutions: Seq<(u8, World)>, max_difficulty: u8) -> bool {
    &&& solutions.len() <= max_difficulty + 1
    &&& forall|i: int, j: int| 0 <= i < j < solutions.len() ==> solutions[i].0 < solutions[j].0
    &&& forall|i: int| 0 <= i < solutions.len() ==> {
        &&& reachable_from(goal, (#[trigger] solutions[i]).1@)
        &&& shortest_solution(solutions[i].1@, goal, solutions[i].0 as int)
    }
}

/// Up to 27 puzzles of difficulties 0 to 26 (as far as the walk finds
/// them) for `goal_world`, ordered by difficulty.
pub fn solution_depth_difficulty(goal_world: World) -> (r: Vec<(u8, World)>)
    ensures
        graded(goal_world@, r@, 26),
        r@.len() >= 1 && r@[0].0 == 0 && r@[0].1@ == goal_world@,
{
    let searcher = SolutionDepthSearcher::new(goal_world, 26);
    searcher.search()
}

/// Walks at random away from a goal world and labels each world it meets
/// with the depth of the solution that A* finds for it.
pub struct SolutionDepthSearcher {
    start_world: World,
    max_difficulty: u8,
}

impl SolutionDepthSearcher {
    pub fn new(start_world: World, max_difficulty: u8) -> (r: SolutionDepthSearcher)
        ensures
            r.start_view() == start_world@,
            r.max_difficulty() == max_difficulty,
    {
        SolutionDepthSearcher { start_world, max_difficulty }
    }

    /// The goal world the walk starts from.
    pub closed spec fn start_view(&self) -> WorldView {
        self.start_world@
    }

    pub closed spec fn max_difficulty(&self) -> u8 {
        self.max_difficulty
    }

    /// Walks until puzzles of `max_difficulty + 1` distinct difficulties
    /// are known, the walk is stuck, or `u32::MAX` steps are spent; returns
    /// the first world met at each difficulty, ordered by difficulty.
    pub fn search(self) -> (r: Vec<(u8, World)>)
        ensures
            graded(self.start_view(), r@, self.max_difficulty()),
            r@.len() >= 1 && r@[0].0 == 0 && r@[0].1@ == self.start_view(),
    {
        let goal = self.start_world;
        let ghost g = goal@;
        let mut solutions: Vec<(u8, World)> = Vec::new();
        let mut current = goal.duplicate();
        let mut directions = Direction::directions_array();
        let mut steps: u32 = 0;
        proof {
            assert(run(g, Seq::<Direction>::empty()) == Some(current@));
        }
        while steps < u32::MAX
            invariant
                goal@ == g,
                g == self.start_view(),
                reachable_from(g, current@),
                graded(g, solutions@, self.max_difficulty),
                solutions@.len() <= self.max_difficulty,
                steps == 0 ==> solutions@.len() == 0 && current@ == g,
                steps > 0 ==> solutions@.len() >= 1 && solutions@[0].0 == 0 && solutions@[0].1@ == g,
            decreases u32::MAX - steps,
        {
            proof {
                if steps == 0 {
                    crate::world::lemma_eq_ignore_agent_reflexive(g);
                }
            }
            Self::record(&goal, &current, &mut solutions, self.max_difficulty);
            if solutions.len() > self.max_difficulty as usize {
                return solutions;
            }
            shuffle_directions(&mut directions);
            let mut next: Option<World> = None;
            for i in 0..4
                invariant
                    reachable_from(g, current@),
                    next matches Some(w) ==> reachable_from(g, w@),
            {
                match current.clone_and_move_agent(&directions[i]) {
                    Ok(w) => {
                        proof {
                            let ds = choose|ds: Seq<Direction>| #[trigger] run(g, ds) == Some(current@);
                            let es = ds.push(directions@[i as int]);
                            assert(es.drop_last() =~= ds);
                            assert(run(g, es) == Some(w@));
                        }
                        next = Some(w);
                    },
                    Err(_) => {},
                }
            }
            match next {
                Some(w) => current = w,
                None => return solutions,
            }
            steps += 1;
        }
        solutions
    }

    /// Solves `current` with A* and, if no puzzle of that difficulty is
    /// known yet, adds it in order.
    fn record(goal: &World, current: &World, solutions: &mut Vec<(u8, World)>, max_difficulty: u8)
        requires
            reachable_from(goal@, current@),
            graded(goal@, old(solutions)@, max_difficulty),
            old(solutions)@.len() <= max_difficulty,
        ensures
            graded(goal@, final(solutions)@, max_difficulty),
            old(solutions)@.len() == 0 && current@.eq_ignore_agent(goal@) ==> final(solutions)@.len() == 1
                && final(solutions)@[0].0 == 0 && final(solutions)@[0].1@ == current@,
            old(solutions)@.len() > 0 && old(solutions)@[0].0 == 0 ==> final(solutions)@.len() > 0
                && final(solutions)@[0] == old(solutions)@[0],
    {
        let mut a_star_searcher = AStarSearcher::new(current.duplicate(), goal.duplicate());
        let (node, _) = match a_star_searcher.search() {
            Ok(found) => found,
            Err(_) => return,
        };
        if node.depth > u8::MAX as u32 {
            return;
        }
        let difficulty = node.depth as u8;
        let mut pos: usize = 0;
        while pos < solutions.len() && solutions[pos].0 < difficulty
            invariant
                0 <= pos <= solutions@.len(),
                forall|i: int| 0 <= i < pos ==> (#[trigger] solutions@[i]).0 < difficulty,
            decreases solutions@.len() - pos,
        {
            pos += 1;
        }
        if pos < solutions.len() && solutions[pos].0 == difficulty {
            return;
        }
        let ghost before = solutions@;
        solutions.insert(pos, (difficulty, current.duplicate()));
        proof {
            let s = solutions@;
            assert forall|i: int| 0 <= i < s.len() implies #[trigger] s[i] == (if i < pos {
                before[i]
            } else if i == pos {
                s[pos as int]
            } else {
                before[i - 1]
            }) by {}
            assert forall|i: int, j: int| 0 <= i < j < s.len() implies s[i].0 < s[j].0 by {
                if j < pos {
                } else if j == pos {
                    assert(before[i].0 < difficulty);
                } else if i < pos {
                    assert(before[i].0 < difficulty);
                    if j - 1 > pos {
                        assert(before[pos as int].0 < before[j - 1].0);
                    }
                } else if i == pos {
                    if j - 1 > pos {
                        assert(before[pos as int].0 < before[j - 1].0);
                    }
                } else {
                    assert(before[i - 1].0 < before[j - 1].0);
                }
            }
            assert forall|i: int| 0 <= i < s.len() implies {
                &&& reachable_from(goal@, (#[trigger] s[i]).1@)
                &&& shortest_solution(s[i].1@, goal@, s[i].0 as int)
            } by {
                if i == pos {
                    assert(shortest_solution(current@, goal@, difficulty as int));
                }
            }
        }
    }
}

} // verus!
