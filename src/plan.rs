//! The constraint set handed to the half-plane solver, as a list of sources.
//!
//! Neighbour constraints come first, by agent index; the line obstacles made
//! from merged pairs follow in the order the scan found them; the given
//! obstacles come last. The solver fixes later constraints last, so obstacles
//! take precedence over neighbour avoidance, and only neighbour constraints
//! are relaxed when the set has no solution.
use vstd::prelude::*;
use crate::clustering::{
    lemma_leads_before, lemma_pairs_upto, lemma_taken_before, pair_before, Clustering,
    ClusteringView, NeighborhoodView,
};

verus! {

/// Where one half-plane constraint comes from.
#[derive(Clone, Copy, Debug, PartialEq, Eq, Structural)]
pub enum Constraint {
    /// The agent at this index, avoided on its own.
    Neighbor(usize),
    /// The line obstacle between two merged stationary agents.
    Merged(usize, usize),
    /// The given obstacle at this index.
    Obstacle(usize),
}

impl Constraint {
    pub open spec fn is_relaxable(self) -> bool {
        self is Neighbor
    }

    /// Whether the constraint may be moved outward when the set has no
    /// solution: only neighbour constraints may.
    pub fn relaxable(&self) -> (r: bool)
        ensures
            r == self.is_relaxable(),
    {
        match self {
            Constraint::Neighbor(_) => true,
            _ => false,
        }
    }
}

/// The agents below `k` that were not merged, as neighbour constraints, by
/// index.
pub open spec fn loose_agents(merged: Seq<bool>, k: int) -> Seq<Constraint>
    decreases k,
{
    if k <= 0 {
        seq![]
    } else if merged[k - 1] {
        loose_agents(merged, k - 1)
    } else {
        loose_agents(merged, k - 1).push(Constraint::Neighbor((k - 1) as usize))
    }
}

pub open spec fn merged_obstacles(pairs: Seq<(usize, usize)>) -> Seq<Constraint> {
    pairs.map_values(|p: (usize, usize)| Constraint::Merged(p.0, p.1))
}

pub open spec fn given_obstacles(count: nat) -> Seq<Constraint> {
    Seq::new(count, |k: int| Constraint::Obstacle(k as usize))
}

/// The ordered constraint set for a scan outcome and `obstacles` given
/// obstacles.
pub open spec fn constraint_order(c: ClusteringView, obstacles: nat) -> Seq<Constraint> {
    loose_agents(c.merged, c.merged.len() as int) + merged_obstacles(c.pairs) + given_obstacles(
        obstacles,
    )
}

/// Lists the constraint sources in the order the solver takes them.
pub fn plan_constraints(c: &Clustering, obstacles: usize) -> (r: Vec<Constraint>)
    ensures
        r@ == constraint_order(c@, obstacles as nat),
{
    let mut r: Vec<Constraint> = Vec::new();
    let n = c.merged.len();
    let mut i: usize = 0;
    while i < n
        invariant
            i <= n,
            n == c.merged.len(),
            r@ == loose_agents(c.merged@, i as int),
        decreases n - i,
    {
        if !c.merged[i] {
            r.push(Constraint::Neighbor(i));
        }
        i += 1;
    }
    let ghost loose = r@;
    let mut p: usize = 0;
    while p < c.pairs.len()
        invariant
            p <= c.pairs.len(),
            r@ == loose + merged_obstacles(c.pairs@.subrange(0, p as int)),
        decreases c.pairs.len() - p,
    {
        let (s, t) = c.pairs[p];
        r.push(Constraint::Merged(s, t));
        p += 1;
        assert(merged_obstacles(c.pairs@.subrange(0, p as int)) =~= merged_obstacles(
            c.pairs@.subrange(0, p - 1),
        ).push(Constraint::Merged(s, t)));
    }
    assert(c.pairs@.subrange(0, c.pairs.len() as int) =~= c.pairs@);
    let ghost both = r@;
    let mut k: usize = 0;
    while k < obstacles
        invariant
            k <= obstacles,
            r@ == both + given_obstacles(k as nat),
        decreases obstacles - k,
    {
        r.push(Constraint::Obstacle(k));
        k += 1;
        assert(given_obstacles(k as nat) =~= given_obstacles((k - 1) as nat).push(
            Constraint::Obstacle((k - 1) as usize),
        ));
    }
    assert(r@ =~= constraint_order(c@, obstacles as nat));
    r
}

/// The agent a neighbour constraint stands for; `-1` for other constraints.
pub open spec fn agent_of(c: Constraint) -> int {
    match c {
        Constraint::Neighbor(i) => i as int,
        _ => -1,
    }
}

/// The loose agents below `k` are neighbour constraints for exactly the
/// agents below `k` that were not merged, by increasing index.
proof fn lemma_loose_agents(merged: Seq<bool>, k: int)
    requires
        0 <= k <= merged.len(),
        merged.len() <= usize::MAX,
    ensures
        forall|x: int|
            0 <= x < loose_agents(merged, k).len() ==> (#[trigger] loose_agents(merged, k)[x]) is Neighbor
                && 0 <= agent_of(loose_agents(merged, k)[x]) < k
                && !merged[agent_of(loose_agents(merged, k)[x])],
        forall|x: int, y: int|
            0 <= x < y < loose_agents(merged, k).len() ==> agent_of(
                #[trigger] loose_agents(merged, k)[x],
            ) < agent_of(#[trigger] loose_agents(merged, k)[y]),
        forall|i: int|
            0 <= i < k && !merged[i] ==> #[trigger] loose_agents(merged, k).contains(
                Constraint::Neighbor(i as usize),
            ),
    decreases k,
{
    if k > 0 {
        lemma_loose_agents(merged, k - 1);
        let prev = loose_agents(merged, k - 1);
        if !merged[k - 1] {
            let cur = loose_agents(merged, k);
            assert(cur[prev.len() as int] == Constraint::Neighbor((k - 1) as usize));
            assert forall|i: int| 0 <= i < k && !merged[i] implies #[trigger] cur.contains(
                Constraint::Neighbor(i as usize),
            ) by {
                if i < k - 1 {
                    assert(prev.contains(Constraint::Neighbor(i as usize)));
                    let x = choose|x: int|
                        0 <= x < prev.len() && prev[x] == Constraint::Neighbor(i as usize);
                    assert(cur[x] == prev[x]);
                }
            }
        } else {
            assert forall|i: int| 0 <= i < k && !merged[i] implies #[trigger] loose_agents(
                merged,
                k,
            ).contains(Constraint::Neighbor(i as usize)) by {
                assert(i < k - 1);
                assert(prev.contains(Constraint::Neighbor(i as usize)));
            }
        }
    }
}

/// Neighbour constraints come before all others, so that the obstacles are
/// fixed last and win over neighbour avoidance; only the leading part is
/// ever relaxed.
pub proof fn lemma_neighbors_first(c: ClusteringView, obstacles: nat)
    requires
        c.merged.len() <= usize::MAX,
    ensures
        forall|x: int, y: int|
            0 <= x < y < constraint_order(c, obstacles).len() && (#[trigger] constraint_order(
                c,
                obstacles,
            )[y]).is_relaxable() ==> (#[trigger] constraint_order(c, obstacles)[x]).is_relaxable(),
{
    let l = loose_agents(c.merged, c.merged.len() as int);
    let m = merged_obstacles(c.pairs);
    let o = given_obstacles(obstacles);
    let plan = constraint_order(c, obstacles);
    lemma_loose_agents(c.merged, c.merged.len() as int);
    assert forall|x: int, y: int|
        0 <= x < y < plan.len() && (#[trigger] plan[y]).is_relaxable() implies (
        #[trigger] plan[x]).is_relaxable() by {
        if y >= l.len() + m.len() {
            assert(plan[y] == o[y - l.len() - m.len()]);
        } else if y >= l.len() {
            assert(plan[y] == m[y - l.len()]);
        } else {
            assert(plan[x] == l[x]);
        }
    }
}

/// Every agent that was not merged, every merged pair and every given
/// obstacle contributes exactly one constraint, and nothing else does; an
/// agent counts as merged exactly when it belongs to a merged pair.
pub proof fn lemma_each_source_once(h: NeighborhoodView, merge: bool, obstacles: nat)
    requires
        h.well_formed(),
        obstacles <= usize::MAX,
    ensures
        ({
            let c = h.clustering(merge);
            let plan = constraint_order(c, obstacles);
            &&& plan.no_duplicates()
            &&& forall|i: int|
                0 <= i < h.count() ==> (plan.contains(Constraint::Neighbor(i as usize))
                    <==> !c.merged[i])
            &&& forall|i: int|
                0 <= i < h.count() ==> (c.merged[i] <==> exists|x: int|
                    0 <= x < c.pairs.len() && ((#[trigger] c.pairs[x]).0 == i || c.pairs[x].1
                        == i))
            &&& forall|s: usize, t: usize|
                plan.contains(Constraint::Merged(s, t)) <==> c.pairs.contains((s, t))
            &&& forall|k: usize| plan.contains(Constraint::Obstacle(k)) <==> k < obstacles
            &&& forall|x: int|
                0 <= x < plan.len() && (#[trigger] plan[x]) is Neighbor ==> agent_of(plan[x])
                    < h.count()
        }),
{
    let c = h.clustering(merge);
    let n = h.count();
    let plan = constraint_order(c, obstacles);
    let l = loose_agents(c.merged, n);
    let m = merged_obstacles(c.pairs);
    let o = given_obstacles(obstacles);
    assert(plan == l + m + o);
    lemma_loose_agents(c.merged, n);
    if merge {
        lemma_pairs_upto(h, n);
    }
    assert forall|x: int, y: int| 0 <= x < y < c.pairs.len() implies pair_before(
        c.pairs[x],
        c.pairs[y],
    ) by {
        if merge {
            assert(pair_before(h.pairs_upto(n)[x], h.pairs_upto(n)[y]));
        }
    }
    // no constraint appears twice
    assert forall|x: int, y: int| 0 <= x < plan.len() && 0 <= y < plan.len() && x != y implies plan[x]
        != plan[y] by {
        let (a, b) = if x < y {
            (x, y)
        } else {
            (y, x)
        };
        if a < l.len() {
            assert(plan[a] == l[a]);
        } else if a < l.len() + m.len() {
            assert(plan[a] == m[a - l.len()]);
        } else {
            assert(plan[a] == o[a - l.len() - m.len()]);
        }
        if b < l.len() {
            assert(plan[b] == l[b]);
            assert(agent_of(l[a]) < agent_of(l[b]));
        } else if b < l.len() + m.len() {
            assert(plan[b] == m[b - l.len()]);
            if a >= l.len() {
                assert(pair_before(c.pairs[a - l.len()], c.pairs[b - l.len()]));
            }
        } else {
            assert(plan[b] == o[b - l.len() - m.len()]);
        }
        assert(plan[a] != plan[b]);
    }
    assert forall|i: int| 0 <= i < n implies (plan.contains(Constraint::Neighbor(i as usize))
        <==> !c.merged[i]) by {
        if plan.contains(Constraint::Neighbor(i as usize)) {
            let x = choose|x: int| 0 <= x < plan.len() && plan[x] == Constraint::Neighbor(i as usize);
            if x < l.len() {
                assert(plan[x] == l[x]);
            } else if x < l.len() + m.len() {
                assert(plan[x] == m[x - l.len()]);
            } else {
                assert(plan[x] == o[x - l.len() - m.len()]);
            }
        }
        if !c.merged[i] {
            assert(l.contains(Constraint::Neighbor(i as usize)));
            let x = choose|x: int| 0 <= x < l.len() && l[x] == Constraint::Neighbor(i as usize);
            assert(plan[x] == l[x]);
        }
    }
    assert forall|i: int| 0 <= i < n implies (c.merged[i] <==> exists|x: int|
        0 <= x < c.pairs.len() && ((#[trigger] c.pairs[x]).0 == i || c.pairs[x].1 == i)) by {
        if merge {
            lemma_taken_before(h, i, i);
            lemma_leads_before(h, i, n);
            if h.taken_before(i, i) {
                let s = choose|s: int| 0 <= s < i && #[trigger] h.joins(s, i);
                assert(c.pairs.contains((s as usize, i as usize)));
            }
            if h.leads_before(i, n) {
                let t = choose|t: int| 0 <= t < n && #[trigger] h.joins(i, t);
                assert(c.pairs.contains((i as usize, t as usize)));
            }
            if exists|x: int| 0 <= x < c.pairs.len() && ((#[trigger] c.pairs[x]).0 == i
                || c.pairs[x].1 == i) {
                let x = choose|x: int|
                    0 <= x < c.pairs.len() && ((#[trigger] c.pairs[x]).0 == i || c.pairs[x].1 == i);
                let (s, t) = c.pairs[x];
                assert(h.joins(s as int, t as int));
                if s as int == i {
                    assert(h.joins(i, t as int));
                } else {
                    assert(h.joins(s as int, i));
                }
            }
        }
    }
    assert forall|s: usize, t: usize| plan.contains(Constraint::Merged(s, t)) <==> c.pairs.contains(
        (s, t),
    ) by {
        if plan.contains(Constraint::Merged(s, t)) {
            let x = choose|x: int| 0 <= x < plan.len() && plan[x] == Constraint::Merged(s, t);
            if x < l.len() {
                assert(plan[x] == l[x]);
            } else if x < l.len() + m.len() {
                assert(plan[x] == m[x - l.len()]);
                assert(c.pairs[x - l.len()] == (s, t));
            } else {
                assert(plan[x] == o[x - l.len() - m.len()]);
            }
        }
        if c.pairs.contains((s, t)) {
            let x = choose|x: int| 0 <= x < c.pairs.len() && c.pairs[x] == (s, t);
            assert(plan[l.len() + x] == m[x]);
        }
    }
    assert forall|k: usize| plan.contains(Constraint::Obstacle(k)) <==> k < obstacles by {
        if plan.contains(Constraint::Obstacle(k)) {
            let x = choose|x: int| 0 <= x < plan.len() && plan[x] == Constraint::Obstacle(k);
            if x < l.len() {
                assert(plan[x] == l[x]);
            } else if x < l.len() + m.len() {
                assert(plan[x] == m[x - l.len()]);
            } else {
                assert(plan[x] == o[x - l.len() - m.len()]);
            }
        }
        if k < obstacles {
            assert(plan[l.len() + m.len() + k] == o[k as int]);
        }
    }
    assert forall|x: int| 0 <= x < plan.len() && (#[trigger] plan[x]) is Neighbor implies agent_of(
        plan[x],
    ) < n by {
        if x < l.len() {
            assert(plan[x] == l[x]);
        } else if x < l.len() + m.len() {
            assert(plan[x] == m[x - l.len()]);
        } else {
            assert(plan[x] == o[x - l.len() - m.len()]);
        }
    }
}

/// Two stationary neighbours near each other, with merging on, give one
/// line-obstacle constraint, and neither is avoided on its own.
pub proof fn lemma_two_near_stationary_merge(h: NeighborhoodView, obstacles: nat)
    requires
        h.well_formed(),
        h.count() == 2,
        h.stationary[0],
        h.stationary[1],
        h.near[0][1],
    ensures
        constraint_order(h.clustering(true), obstacles) == seq![Constraint::Merged(0, 1)]
            + given_obstacles(obstacles),
{
    let c = h.clustering(true);
    assert(!h.taken_before(0, 0));
    assert(h.is_seed(0));
    assert(h.joins(0, 1));
    assert(h.taken_before(1, 1));
    assert(h.leads_before(0, 2));
    assert(c.merged[0] && c.merged[1]);
    assert(loose_agents(c.merged, 0) =~= seq![]);
    assert(loose_agents(c.merged, 1) =~= seq![]);
    assert(loose_agents(c.merged, 2) =~= seq![]);
    assert(!h.joins(0, 0));
    assert(h.row(0, 0) =~= seq![]);
    assert(h.row(0, 1) =~= seq![]);
    assert(!h.joins(1, 0) && !h.joins(1, 1));
    assert(h.row(1, 0) =~= seq![]);
    assert(h.row(1, 1) =~= seq![]);
    assert(h.row(0, 2) =~= seq![(0usize, 1usize)]);
    assert(h.row(1, 2) =~= seq![]);
    assert(h.pairs_upto(0) =~= seq![]);
    assert(h.pairs_upto(1) =~= seq![(0usize, 1usize)]);
    assert(h.pairs_upto(2) =~= seq![(0usize, 1usize)]);
    assert(c.pairs =~= seq![(0usize, 1usize)]);
    assert(merged_obstacles(c.pairs) =~= seq![Constraint::Merged(0, 1)]);
    assert(constraint_order(c, obstacles) =~= seq![Constraint::Merged(0, 1)] + given_obstacles(
        obstacles,
    ));
}

/// With no neighbours and no obstacles there is no constraint, so the solver
/// keeps the preferred velocity.
pub proof fn lemma_empty_scene(h: NeighborhoodView, merge: bool)
    requires
        h.count() == 0,
    ensures
        constraint_order(h.clustering(merge), 0) == Seq::<Constraint>::empty(),
{
    assert(h.pairs_upto(0) =~= seq![]);
    assert(constraint_order(h.clustering(merge), 0) =~= Seq::<Constraint>::empty());
}

/// The scan and the constraint order depend on their inputs alone: equal
/// inputs give equal outcomes.
pub proof fn lemma_plan_deterministic(
    h1: NeighborhoodView,
    h2: NeighborhoodView,
    merge: bool,
    obstacles: nat,
)
    requires
        h1 == h2,
    ensures
        h1.clustering(merge) == h2.clustering(merge),
        constraint_order(h1.clustering(merge), obstacles) == constraint_order(
            h2.clustering(merge),
            obstacles,
        ),
{
}

} // verus!
