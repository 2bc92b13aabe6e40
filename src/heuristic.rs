//! The A* estimate: how far the blocks stand from their goal cells, and
//! why one move changes it by at most one.

use vstd::prelude::*;

use crate::world::{lemma_move_wf, lemma_pairs_map, manhattan, neighbour, pairs_map, unique_entities, Direction, Entity, Location, WorldView};

verus! {

/// What one placed entity adds to the estimate: a block's Manhattan
/// distance to its cell in `goal`; the agent, and anything `goal` lacks,
/// add nothing.
pub open spec fn block_term(e: Entity, l: Location, goal: WorldView) -> int {
    if e != Entity::Agent && goal.entities.contains_key(e) {
        manhattan(l, goal.entities[e])
    } else {
        0
    }
}

/// The terms of a listing of placements, summed.
pub open spec fn distance_sum(s: Seq<(Entity, Location)>, goal: WorldView) -> int
    decreases s.len(),
{
    if s.len() == 0 {
        0
    } else {
        distance_sum(s.drop_last(), goal) + block_term(s.last().0, s.last().1, goal)
    }
}

/// `n`, or `usize::MAX` where `n` is larger.
pub open spec fn capped(n: int) -> int {
    if n > usize::MAX {
        usize::MAX as int
    } else {
        n
    }
}

/// `s` lists the entries of `m`, each entity once.
pub open spec fn lists(s: Seq<(Entity, Location)>, m: Map<Entity, Location>) -> bool {
    pairs_map(s) == m && unique_entities(s)
}

/// The estimate for `w`: its blocks' summed distance to their goal cells,
/// capped at `usize::MAX`. Every listing gives the same sum.
pub open spec fn heuristic_of(w: WorldView, goal: WorldView) -> int {
    capped(distance_sum(choose|s: Seq<(Entity, Location)>| lists(s, w.entities), goal))
}

proof fn lemma_distance_sum_remove(s: Seq<(Entity, Location)>, k: int, goal: WorldView)
    requires
        0 <= k < s.len(),
    ensures
        distance_sum(s.remove(k), goal) + block_term(s[k].0, s[k].1, goal) == distance_sum(s, goal),
    decreases s.len(),
{
    if k == s.len() - 1 {
        assert(s.remove(k) =~= s.drop_last());
    } else {
        let t = s.drop_last();
        lemma_distance_sum_remove(t, k, goal);
        assert(s.remove(k).drop_last() =~= t.remove(k));
        assert(s.remove(k).last() == s.last());
    }
}

proof fn lemma_distance_sum_update(s: Seq<(Entity, Location)>, k: int, p: (Entity, Location), goal: WorldView)
    requires
        0 <= k < s.len(),
    ensures
        distance_sum(s.update(k, p), goal) == distance_sum(s, goal) - block_term(s[k].0, s[k].1, goal) + block_term(p.0, p.1, goal),
    decreases s.len(),
{
    if k == s.len() - 1 {
        assert(s.update(k, p).drop_last() =~= s.drop_last());
    } else {
        let t = s.drop_last();
        lemma_distance_sum_update(t, k, p, goal);
        assert(s.update(k, p).drop_last() =~= t.update(k, p));
    }
}

proof fn lemma_listing_remove(s: Seq<(Entity, Location)>, k: int)
    requires
        0 <= k < s.len(),
        unique_entities(s),
    ensures
        lists(s.remove(k), pairs_map(s).remove(s[k].0)),
{
    let r = s.remove(k);
    assert forall|a: int| 0 <= a < r.len() implies r[a] == (if a < k { s[a] } else { s[a + 1] }) by {}
    assert forall|a: int, b: int| 0 <= a < b < r.len() implies r[a].0 != r[b].0 by {
        assert(r[a] == (if a < k { s[a] } else { s[a + 1] }));
        assert(r[b] == (if b < k { s[b] } else { s[b + 1] }));
    }
    lemma_pairs_map(s);
    lemma_pairs_map(r);
    let m = pairs_map(s).remove(s[k].0);
    assert forall|e: Entity| pairs_map(r).contains_key(e) <==> m.contains_key(e) by {
        if m.contains_key(e) {
            let i = choose|i: int| 0 <= i < s.len() && s[i].0 == e;
            if i < k {
                assert(r[i] == s[i]);
            } else {
                assert(r[i - 1] == s[i]);
            }
        }
        if pairs_map(r).contains_key(e) {
            let a = choose|a: int| 0 <= a < r.len() && r[a].0 == e;
            assert(r[a] == (if a < k { s[a] } else { s[a + 1] }));
        }
    }
    assert forall|e: Entity| #[trigger] pairs_map(r).contains_key(e) implies pairs_map(r)[e] == m[e] by {
        let a = choose|a: int| 0 <= a < r.len() && r[a].0 == e;
        let b = if a < k { a } else { a + 1 };
        assert(r[a] == s[b]);
        assert(pairs_map(r)[r[a].0] == r[a].1);
        assert(pairs_map(s)[s[b].0] == s[b].1);
    }
    assert(pairs_map(r) =~= m);
}

/// Two listings of one map give the same sum.
pub proof fn lemma_distance_sum_listing(s1: Seq<(Entity, Location)>, s2: Seq<(Entity, Location)>, goal: WorldView)
    requires
        unique_entities(s1),
        lists(s2, pairs_map(s1)),
    ensures
        distance_sum(s1, goal) == distance_sum(s2, goal),
    decreases s1.len(),
{
    lemma_pairs_map(s1);
    lemma_pairs_map(s2);
    if s1.len() == 0 {
        if s2.len() > 0 {
            assert(pairs_map(s2).contains_key(s2[0].0));
        }
    } else {
        let n = s1.len() - 1;
        let p = s1[n];
        assert(pairs_map(s1)[p.0] == p.1);
        assert(0 <= n < s1.len() && s1[n].0 == p.0);
        assert(pairs_map(s1).contains_key(p.0));
        assert(pairs_map(s2).contains_key(p.0));
        let k = choose|k: int| 0 <= k < s2.len() && s2[k].0 == p.0;
        assert(pairs_map(s2)[s2[k].0] == s2[k].1);
        assert(s2[k] == p);
        lemma_listing_remove(s1, n);
        lemma_listing_remove(s2, k);
        assert(s1.remove(n) =~= s1.drop_last());
        lemma_distance_sum_listing(s1.drop_last(), s2.remove(k), goal);
        lemma_distance_sum_remove(s2, k, goal);
    }
}

/// Every finite map has a listing.
pub proof fn lemma_listing_exists(m: Map<Entity, Location>)
    requires
        m.dom().finite(),
    ensures
        exists|s: Seq<(Entity, Location)>| lists(s, m),
    decreases m.dom().len(),
{
    if m.dom().len() == 0 {
        let s = Seq::<(Entity, Location)>::empty();
        assert(m.dom() =~= Set::empty());
        assert(pairs_map(s) =~= m);
        assert(lists(s, m));
    } else {
        let e = m.dom().choose();
        assert(m.dom().contains(e));
        let r = m.remove(e);
        assert(r.dom() =~= m.dom().remove(e));
        lemma_listing_exists(r);
        let t = choose|t: Seq<(Entity, Location)>| lists(t, r);
        let s = t.push((e, m[e]));
        lemma_pairs_map(t);
        assert(s.drop_last() =~= t);
        assert(pairs_map(s) =~= m);
        assert forall|i: int, j: int| 0 <= i < j < s.len() implies s[i].0 != s[j].0 by {
            if j == s.len() - 1 {
                assert(s[i] == t[i]);
                assert(r.contains_key(t[i].0));
            } else {
                assert(s[i] == t[i] && s[j] == t[j]);
            }
        }
        assert(lists(s, m));
    }
}

/// The estimate computed over any listing is the estimate of the world.
pub proof fn lemma_heuristic_of(s: Seq<(Entity, Location)>, w: WorldView, goal: WorldView)
    requires
        lists(s, w.entities),
    ensures
        heuristic_of(w, goal) == capped(distance_sum(s, goal)),
{
    let c = choose|c: Seq<(Entity, Location)>| lists(c, w.entities);
    lemma_distance_sum_listing(s, c, goal);
}

/// A world whose blocks all stand where `goal` wants them has estimate 0.
pub proof fn lemma_heuristic_at_goal(w: WorldView, goal: WorldView)
    requires
        w.wf(),
        w.eq_ignore_agent(goal),
    ensures
        heuristic_of(w, goal) == 0,
{
    lemma_listing_exists(w.entities);
    let s = choose|s: Seq<(Entity, Location)>| lists(s, w.entities);
    lemma_pairs_map(s);
    lemma_zero_terms(s, w, goal);
}

proof fn lemma_zero_terms(s: Seq<(Entity, Location)>, w: WorldView, goal: WorldView)
    requires
        w.eq_ignore_agent(goal),
        forall|i: int| 0 <= i < s.len() ==> w.entities.contains_key(#[trigger] s[i].0) && w.entities[s[i].0] == s[i].1,
    ensures
        distance_sum(s, goal) == 0,
    decreases s.len(),
{
    if s.len() > 0 {
        let t = s.drop_last();
        assert forall|i: int| 0 <= i < t.len() implies w.entities.contains_key(#[trigger] t[i].0) && w.entities[t[i].0] == t[i].1 by {
            assert(t[i] == s[i]);
            assert(w.entities.contains_key(s[i].0));
        }
        lemma_zero_terms(t, w, goal);
        let p = s[s.len() - 1];
        assert(w.entities.contains_key(p.0) && w.entities[p.0] == p.1);
    }
}

/// One move changes the estimate by at most one: only the displaced block
/// changes its cell, by one step.
pub proof fn lemma_heuristic_step(w: WorldView, d: Direction, goal: WorldView)
    requires
        w.wf(),
        w.move_agent(d) is Ok,
    ensures
        heuristic_of(w.move_agent(d).unwrap(), goal) <= heuristic_of(w, goal) + 1,
        heuristic_of(w, goal) <= heuristic_of(w.move_agent(d).unwrap(), goal) + 1,
{
    lemma_move_wf(w, d);
    lemma_listing_exists(w.entities);
    let s = choose|s: Seq<(Entity, Location)>| lists(s, w.entities);
    lemma_pairs_map(s);
    let from = w.agent();
    let to = neighbour(from, d);
    let occ = w.occupant(to);
    let w2 = w.move_agent(d).unwrap();
    let ia = choose|i: int| 0 <= i < s.len() && s[i].0 == Entity::Agent;
    assert(w.entities[s[ia].0] == s[ia].1);
    let s1 = if occ == Entity::Empty {
        s
    } else {
        let io = choose|i: int| 0 <= i < s.len() && s[i].0 == occ;
        assert(w.entities[s[io].0] == s[io].1);
        lemma_distance_sum_update(s, io, (occ, from), goal);
        s.update(io, (occ, from))
    };
    assert(s1[ia] == s[ia]);
    lemma_distance_sum_update(s1, ia, (Entity::Agent, to), goal);
    let s2 = s1.update(ia, (Entity::Agent, to));
    assert(unique_entities(s2)) by {
        assert forall|i: int, j: int| 0 <= i < j < s2.len() implies s2[i].0 != s2[j].0 by {
            assert(s2[i].0 == s[i].0 && s2[j].0 == s[j].0);
        }
    }
    lemma_pairs_map(s2);
    assert(pairs_map(s2) =~= w2.entities) by {
        assert forall|e: Entity| pairs_map(s2).contains_key(e) <==> w2.entities.contains_key(e) by {
            if w2.entities.contains_key(e) {
                let i = choose|i: int| 0 <= i < s.len() && s[i].0 == e;
                assert(s2[i].0 == e);
            }
            if pairs_map(s2).contains_key(e) {
                let i = choose|i: int| 0 <= i < s2.len() && s2[i].0 == e;
                assert(s[i].0 == e);
            }
        }
        assert forall|e: Entity| #[trigger] pairs_map(s2).contains_key(e) implies pairs_map(s2)[e] == w2.entities[e] by {
            let i = choose|i: int| 0 <= i < s2.len() && s2[i].0 == e;
            assert(pairs_map(s2)[s2[i].0] == s2[i].1);
            assert(s[i].0 == e);
            assert(w.entities[s[i].0] == s[i].1);
        }
    }
    lemma_heuristic_of(s, w, goal);
    lemma_heuristic_of(s2, w2, goal);
    if occ != Entity::Empty {
        let g = goal.entities[occ];
        assert(manhattan(from, g) <= manhattan(to, g) + 1);
        assert(manhattan(to, g) <= manhattan(from, g) + 1);
    }
}

} // verus!
