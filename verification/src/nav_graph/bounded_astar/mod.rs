//! A* search whose goal test also sees the cost of the path so far, and may
//! answer that the node lies beyond the allowed range.

pub mod scored;

pub use self::scored::{MinScored, MinScoredQueue};

use super::graph_types::{lemma_edge_length_bounds, NavGraph, MAX_NODES};
use crate::coord_ext::MAX_DISTANCE;
use vstd::pervasive::unreached;
use vstd::prelude::*;

verus! {

#[derive(Clone, Copy, Debug, PartialEq, Eq, Structural)]
/// What a goal test answers for a node and the cost it was reached at.
pub enum IsGoalResult {
    /// Indicates the node being considered for visiting is outside the maximum
    /// allowed range. Treat this node as being a dead end (do not explore
    /// further).
    MaximumExtend,
    /// Indicates the goal node has been reached. Stop the search.
    Goal,
    /// Not a goal and within the maximum allowed range; continue.
    NotGoal,
}

/// `a` comes strictly before `b` when pairs are ordered by their first part,
/// then by their second.
pub open spec fn pair_before(a: (int, int), b: (int, int)) -> bool {
    a.0 < b.0 || (a.0 == b.0 && a.1 < b.1)
}

/// For every node reached by the search, the node it was reached from and
/// the cost it was reached at.
pub struct ScoredPathTracker {
    pub came_from: Vec<Option<(usize, u64)>>,
    /// When each record was written, counted in records written.
    pub stamps: Ghost<Seq<nat>>,
    /// How many records have been written.
    pub clock: Ghost<nat>,
}

impl ScoredPathTracker {
    /// The cost recorded for `node` and the time of the record; zero and
    /// zero for a node without a record.
    pub open spec fn key(self, node: int) -> (int, int) {
        match self.came_from@[node] {
            Some((_, score)) => (score as int, self.stamps@[node] as int),
            None => (0, 0),
        }
    }

    /// Every record leads to a node of the tracker whose own record is
    /// cheaper, or as cheap and older. Following records therefore ends.
    pub open spec fn wf(self) -> bool {
        &&& self.stamps@.len() == self.came_from@.len()
        &&& forall|x: int|
            0 <= x < self.came_from@.len() ==> match #[trigger] self.came_from@[x] {
                Some((previous, score)) => {
                    &&& previous < self.came_from@.len()
                    &&& self.stamps@[x] >= 1
                    &&& pair_before(self.key(previous as int), (score as int, self.stamps@[x] as int))
                },
                None => true,
            }
    }

    /// `path` is the chain of records that ends in `last`: it starts at a
    /// node without a record, at cost zero, and every later entry holds a
    /// node, the cost recorded for it, and is preceded by the node it was
    /// reached from.
    pub open spec fn is_chain(self, path: Seq<(usize, u64)>, last: int) -> bool {
        &&& path.len() >= 1
        &&& path[path.len() - 1].0 == last
        &&& path[0].1 == 0
        &&& path[0].0 < self.came_from@.len()
        &&& self.came_from@[path[0].0 as int] is None
        &&& forall|i: int|
            1 <= i < path.len() ==> (#[trigger] path[i]).0 < self.came_from@.len()
                && self.came_from@[path[i].0 as int] == Some((path[i - 1].0, path[i].1))
    }

    /// A tracker for `n` nodes without any record.
    pub fn new(n: usize) -> (tracker: ScoredPathTracker)
        ensures
            tracker.wf(),
            tracker.came_from@.len() == n,
            forall|x: int| 0 <= x < n ==> tracker.came_from@[x] is None,
    {
        let mut came_from: Vec<Option<(usize, u64)>> = Vec::new();
        let mut i: usize = 0;
        while i < n
            invariant
                i <= n,
                came_from@.len() == i,
                forall|x: int| 0 <= x < i ==> came_from@[x] is None,
            decreases n - i,
        {
            came_from.push(None);
            i += 1;
        }
        ScoredPathTracker {
            came_from,
            stamps: Ghost(Seq::new(n as nat, |i: int| 0nat)),
            clock: Ghost(0nat),
        }
    }

    /// Records that `node` was reached from `previous` at cost `score`,
    /// replacing any earlier record of `node`.
    pub(crate) fn set_predecessor(&mut self, node: usize, previous: usize, score: u64)
        requires
            node < old(self).came_from@.len(),
            old(self).stamps@.len() == old(self).came_from@.len(),
        ensures
            final(self).came_from@ == old(self).came_from@.update(
                node as int,
                Some((previous, score)),
            ),
            final(self).clock@ == old(self).clock@ + 1,
            final(self).stamps@ == old(self).stamps@.update(node as int, final(self).clock@),
    {
        self.came_from.set(node, Some((previous, score)));
        proof {
            self.clock@ = self.clock@ + 1;
            self.stamps@ = self.stamps@.update(node as int, self.clock@);
        }
    }

    /// The path of records that ends in `last`, from its first node on, each
    /// node with the cost it was reached at.
    pub fn reconstruct_path_to(&self, last: usize) -> (path: Vec<(usize, u64)>)
        requires
            self.wf(),
            last < self.came_from@.len(),
        ensures
            self.is_chain(path@, last as int),
    {
        let mut backwards: Vec<(usize, u64)> = Vec::new();
        let mut current: usize = last;
        loop
            invariant
                self.wf(),
                current < self.came_from@.len(),
                backwards@.len() == 0 ==> current == last,
                backwards@.len() > 0 ==> backwards@[0].0 == last,
                forall|i: int|
                    0 <= i < backwards@.len() ==> (#[trigger] backwards@[i]).0
                        < self.came_from@.len() && self.came_from@[backwards@[i].0 as int] == Some(
                        (
                            if i + 1 < backwards@.len() {
                                backwards@[i + 1].0
                            } else {
                                current
                            },
                            backwards@[i].1,
                        ),
                    ),
            ensures
                self.came_from@[current as int] is None,
                current < self.came_from@.len(),
                backwards@.len() == 0 ==> current == last,
                backwards@.len() > 0 ==> backwards@[0].0 == last,
                forall|i: int|
                    0 <= i < backwards@.len() ==> (#[trigger] backwards@[i]).0
                        < self.came_from@.len() && self.came_from@[backwards@[i].0 as int] == Some(
                        (
                            if i + 1 < backwards@.len() {
                                backwards@[i + 1].0
                            } else {
                                current
                            },
                            backwards@[i].1,
                        ),
                    ),
            decreases self.key(current as int).0, self.key(current as int).1,
        {
            match self.came_from[current] {
                Some((previous, current_score)) => {
                    backwards.push((current, current_score));
                    current = previous;
                },
                None => {
                    break ;
                },
            }
        }
        backwards.push((current, 0));

        let mut path: Vec<(usize, u64)> = Vec::new();
        let n = backwards.len();
        let mut k: usize = 0;
        while k < n
            invariant
                k <= n,
                n == backwards@.len(),
                path@.len() == k,
                forall|i: int| 0 <= i < k ==> path@[i] == backwards@[n - 1 - i],
            decreases n - k,
        {
            path.push(backwards[n - 1 - k]);
            k += 1;
        }
        proof {
            assert forall|i: int| 1 <= i < path@.len() implies (#[trigger] path@[i]).0
                < self.came_from@.len() && self.came_from@[path@[i].0 as int] == Some(
                (path@[i - 1].0, path@[i].1),
            ) by {
                let j = n - 1 - i;
                assert(path@[i] == backwards@[j]);
                assert(path@[i - 1] == backwards@[j + 1]);
            }
        }
        path
    }
}

/// What the goal test answers for a node reached at `cost`: beyond the
/// budget the node is a dead end, whatever it is; within it, a target ends
/// the search.
pub open spec fn verdict(is_target: bool, budget: Option<u64>, cost: u64) -> IsGoalResult {
    if budget is Some && cost > budget->0 {
        IsGoalResult::MaximumExtend
    } else if is_target {
        IsGoalResult::Goal
    } else {
        IsGoalResult::NotGoal
    }
}

/// The goal test of a search: which nodes end it, and beyond which cost a
/// node is not explored further.
pub trait GoalTest {
    /// Reaching `node` ends the search.
    spec fn is_target(&self, node: int) -> bool;

    /// The cost beyond which a node is a dead end, if there is a limit.
    spec fn budget(&self) -> Option<u64>;

    /// The test can be asked about `node`.
    spec fn covers(&self, node: int) -> bool;

    fn is_goal(&self, node: usize, cost: u64) -> (r: IsGoalResult)
        requires
            self.covers(node as int),
        ensures
            r == verdict(self.is_target(node as int), self.budget(), cost),
    ;
}

/// An estimate of the cost that remains from a node to a goal.
pub trait Heuristic {
    spec fn estimate(&self, node: int) -> int;

    /// The estimate can be asked for `node`.
    spec fn covers(&self, node: int) -> bool;

    fn estimate_cost(&self, node: usize) -> (h: u64)
        requires
            self.covers(node as int),
        ensures
            h == self.estimate(node as int),
    ;
}

/// The estimate never exceeds the cost of a path from the node to a target.
pub open spec fn admissible<G: GoalTest, H: Heuristic>(graph: NavGraph, goal: G, heuristic: H) -> bool {
    forall|path: Seq<int>| #[trigger]
        graph.is_path(path) && goal.is_target(path[path.len() - 1]) ==> heuristic.estimate(path[0])
            <= graph.path_cost(path)
}

/// The value an unreached node counts with in the measure of progress: more
/// than any cost a node is reached at.
pub open spec fn unseen_score() -> int {
    0x8000_0000_0000_0000
}

/// The cost a node counts with in the measure of progress.
pub open spec fn score_value(score: Option<u64>) -> int {
    match score {
        Some(g) => g as int,
        None => unseen_score(),
    }
}

/// The sum of all nodes' costs, unreached nodes counted at
/// [`unseen_score`]. Every improvement lowers it.
pub open spec fn total_score(scores: Seq<Option<u64>>) -> int
    decreases scores.len(),
{
    if scores.len() == 0 {
        0
    } else {
        total_score(scores.drop_last()) + score_value(scores.last())
    }
}

/// The number of nodes reached.
pub open spec fn count_reached(scores: Seq<Option<u64>>) -> int
    decreases scores.len(),
{
    if scores.len() == 0 {
        0
    } else {
        count_reached(scores.drop_last()) + if scores.last() is Some {
            1int
        } else {
            0int
        }
    }
}

/// The measure of progress is never negative.
pub proof fn lemma_total_score_nonnegative(scores: Seq<Option<u64>>)
    ensures
        total_score(scores) >= 0,
    decreases scores.len(),
{
    if scores.len() > 0 {
        lemma_total_score_nonnegative(scores.drop_last());
    }
}

/// No more nodes are reached than there are.
pub proof fn lemma_count_reached_bounds(scores: Seq<Option<u64>>)
    ensures
        0 <= count_reached(scores) <= scores.len(),
    decreases scores.len(),
{
    if scores.len() > 0 {
        lemma_count_reached_bounds(scores.drop_last());
    }
}

/// How the measure of progress and the number of nodes reached change when
/// one node gets a new cost.
pub proof fn lemma_scores_updated(scores: Seq<Option<u64>>, i: int, score: Option<u64>)
    requires
        0 <= i < scores.len(),
    ensures
        total_score(scores.update(i, score)) == total_score(scores) - score_value(scores[i])
            + score_value(score),
        count_reached(scores.update(i, score)) == count_reached(scores) - (if scores[i] is Some {
            1int
        } else {
            0int
        }) + (if score is Some {
            1int
        } else {
            0int
        }),
        0 <= count_reached(scores) <= scores.len(),
        scores[i] is Some ==> count_reached(scores) >= 1,
    decreases scores.len(),
{
    lemma_count_reached_bounds(scores);
    lemma_count_reached_bounds(scores.drop_last());
    if i == scores.len() - 1 {
        assert(scores.update(i, score).drop_last() =~= scores.drop_last());
    } else {
        assert(scores.update(i, score).drop_last() =~= scores.drop_last().update(i, score));
        lemma_scores_updated(scores.drop_last(), i, score);
    }
}

/// The cost `g` is within the budget.
pub open spec fn within_budget(budget: Option<u64>, g: int) -> bool {
    budget is None || g <= budget->0
}

/// Every neighbor of `x` has been reached at no more than `g` plus the
/// length of the edge from `x`.
pub open spec fn relaxed(graph: NavGraph, scores: Seq<Option<u64>>, x: int, g: int) -> bool {
    forall|y: int|
        0 <= y < scores.len() && #[trigger] graph.has_edge(x, y) ==> scores[y] is Some
            && scores[y]->0 <= g + graph.edge_length(x, y)
}

/// The record of `x` fits its cost: the node it names is joined to `x` and
/// was itself reached cheaply enough to explain the cost of `x`.
pub open spec fn record_fits(
    graph: NavGraph,
    scores: Seq<Option<u64>>,
    tracker: ScoredPathTracker,
    x: int,
) -> bool {
    match scores[x] {
        None => tracker.came_from@[x] is None,
        Some(g) => match tracker.came_from@[x] {
            None => false,
            Some((y, s)) => {
                &&& s == g
                &&& y < scores.len()
                &&& graph.has_edge(y as int, x)
                &&& scores[y as int] is Some
                &&& scores[y as int]->0 + graph.edge_length(y as int, x) <= g
                &&& tracker.stamps@[x] <= tracker.clock@
            },
        },
    }
}

/// What holds of the search between any two steps.
pub open spec fn search_inv<G: GoalTest, H: Heuristic>(
    graph: NavGraph,
    start: int,
    goal: G,
    heuristic: H,
    scores: Seq<Option<u64>>,
    closed: Seq<Option<u64>>,
    open: Seq<MinScored>,
    tracker: ScoredPathTracker,
) -> bool {
    let n = graph.nodes().len();
    &&& scores.len() == n
    &&& closed.len() == n
    &&& tracker.came_from@.len() == n
    &&& tracker.wf()
    &&& 0 <= start < n
    &&& scores[start] == Some(0u64)
    &&& tracker.came_from@[start] is None
    &&& forall|x: int| 0 <= x < n && x != start ==> #[trigger] record_fits(graph, scores, tracker, x)
    &&& forall|x: int|
        0 <= x < n && (#[trigger] scores[x]) is Some ==> scores[x]->0 <= (count_reached(scores) - 1)
            * MAX_DISTANCE
    &&& forall|i: int|
        0 <= i < open.len() ==> {
            let e = #[trigger] open[i];
            &&& e.1 < n
            &&& scores[e.1 as int] is Some
            &&& scores[e.1 as int]->0 + heuristic.estimate(e.1 as int) <= e.0
        }
}

/// What holds, besides, of the nodes other than `expanding`: a node that was
/// expanded is no target and has its neighbors relaxed as far as the score of
/// that expansion asks; and a reached node still waits in the open list
/// under its current cost, or is no target and has its neighbors relaxed, or
/// lies beyond the budget.
pub open spec fn frontier_inv<G: GoalTest, H: Heuristic>(
    graph: NavGraph,
    goal: G,
    heuristic: H,
    scores: Seq<Option<u64>>,
    closed: Seq<Option<u64>>,
    open: Seq<MinScored>,
    expanding: int,
) -> bool {
    let n = graph.nodes().len();
    &&& forall|x: int|
        0 <= x < n && x != expanding && (#[trigger] closed[x]) is Some ==> {
            &&& scores[x] is Some
            &&& !goal.is_target(x)
            &&& forall|y: int|
                0 <= y < n && #[trigger] graph.has_edge(x, y) ==> scores[y] is Some && scores[y]->0
                    + heuristic.estimate(x) <= closed[x]->0 + graph.edge_length(x, y)
        }
    &&& forall|x: int|
        0 <= x < n && x != expanding && (#[trigger] scores[x]) is Some ==> {
            ||| open.contains(
                MinScored((scores[x]->0 + heuristic.estimate(x)) as u64, x as usize),
            )
            ||| (!goal.is_target(x) && relaxed(graph, scores, x, scores[x]->0 as int))
            ||| !within_budget(goal.budget(), scores[x]->0 as int)
        }
}

/// The estimate of every node of the graph can be asked for and stays within
/// the greatest distance two coordinates can have.
pub open spec fn heuristic_usable<H: Heuristic>(graph: NavGraph, heuristic: H) -> bool {
    forall|x: int| 0 <= x < graph.nodes().len() ==> #[trigger] heuristic_fits(heuristic, x)
}

/// The estimate of `x` can be asked for and stays within the greatest
/// distance two coordinates can have.
pub open spec fn heuristic_fits<H: Heuristic>(heuristic: H, x: int) -> bool {
    heuristic.covers(x) && 0 <= heuristic.estimate(x) <= MAX_DISTANCE
}

/// The goal test can be asked about every node of the graph.
pub open spec fn goal_usable<G: GoalTest>(graph: NavGraph, goal: G) -> bool {
    forall|x: int| 0 <= x < graph.nodes().len() ==> #[trigger] goal_fits(goal, x)
}

/// The goal test can be asked about `x`.
pub open spec fn goal_fits<G: GoalTest>(goal: G, x: int) -> bool {
    goal.covers(x)
}

/// One improvement keeps what holds of the search, and lowers the measure
/// of progress: `next`, a neighbor of the node being expanded, is reached at
/// `new_score`, less than any cost it was reached at before.
proof fn lemma_relax_step<G: GoalTest, H: Heuristic>(
    graph: NavGraph,
    start: int,
    goal: G,
    heuristic: H,
    scores: Seq<Option<u64>>,
    closed: Seq<Option<u64>>,
    open: Seq<MinScored>,
    tracker: ScoredPathTracker,
    node: int,
    next: int,
    new_score: u64,
    tracker2: ScoredPathTracker,
)
    requires
        graph.searchable(),
        heuristic_usable(graph, heuristic),
        search_inv(graph, start, goal, heuristic, scores, closed, open, tracker),
        frontier_inv(graph, goal, heuristic, scores, closed, open, node),
        0 <= node < scores.len(),
        0 <= next < scores.len(),
        node != next,
        graph.has_edge(node, next),
        scores[node] is Some,
        scores[node]->0 + graph.edge_length(node, next) <= new_score <= scores[node]->0
            + MAX_DISTANCE,
        scores[next] is None || new_score < scores[next]->0,
        tracker2.came_from@ == tracker.came_from@.update(next, Some((node as usize, new_score))),
        tracker2.clock@ == tracker.clock@ + 1,
        tracker2.stamps@ == tracker.stamps@.update(next, tracker2.clock@),
    ensures
        new_score + heuristic.estimate(next) <= u64::MAX,
        search_inv(
            graph,
            start,
            goal,
            heuristic,
            scores.update(next, Some(new_score)),
            closed,
            open.push(MinScored((new_score + heuristic.estimate(next)) as u64, next as usize)),
            tracker2,
        ),
        frontier_inv(
            graph,
            goal,
            heuristic,
            scores.update(next, Some(new_score)),
            closed,
            open.push(MinScored((new_score + heuristic.estimate(next)) as u64, next as usize)),
            node,
        ),
        total_score(scores.update(next, Some(new_score))) < total_score(scores),
{
    let n = graph.nodes().len() as int;
    let scores2 = scores.update(next, Some(new_score));
    let entry = MinScored((new_score + heuristic.estimate(next)) as u64, next as usize);
    let open2 = open.push(entry);
    let g = scores[node]->0;
    lemma_scores_updated(scores, next, Some(new_score));
    lemma_scores_updated(scores, node, scores[node]);
    lemma_edge_length_bounds(graph, node, next);
    assert(heuristic_fits(heuristic, next));
    assert(g <= (count_reached(scores) - 1) * MAX_DISTANCE);
    assert(count_reached(scores) <= MAX_NODES);
    assert(next != start);
    lemma_scores_updated(scores2, next, Some(new_score));
    assert(new_score < score_value(scores[next]));

    // the bound on costs
    assert forall|x: int| 0 <= x < n && (#[trigger] scores2[x]) is Some implies scores2[x]->0 <= (
    count_reached(scores2) - 1) * MAX_DISTANCE by {
        if x != next {
            assert(scores[x] is Some);
        }
    }
    // the records
    assert(tracker2.wf()) by {
        assert forall|x: int| 0 <= x < tracker2.came_from@.len() implies match #[trigger] tracker2.came_from@[x] {
            Some((previous, score)) => {
                &&& previous < tracker2.came_from@.len()
                &&& tracker2.stamps@[x] >= 1
                &&& pair_before(
                    tracker2.key(previous as int),
                    (score as int, tracker2.stamps@[x] as int),
                )
            },
            None => true,
        } by {
            if x == next {
                if node != start {
                    assert(record_fits(graph, scores, tracker, node));
                }
            } else {
                match tracker.came_from@[x] {
                    Some((previous, score)) => {
                        assert(tracker.came_from@[x] == tracker2.came_from@[x]);
                        if previous == next {
                            assert(x != start);
                            assert(record_fits(graph, scores, tracker, x));
                            lemma_edge_length_bounds(graph, next, x);
                        }
                    },
                    None => {},
                }
            }
        }
    }
    assert forall|x: int| 0 <= x < n && x != start implies #[trigger] record_fits(
        graph,
        scores2,
        tracker2,
        x,
    ) by {
        if x != next {
            assert(record_fits(graph, scores, tracker, x));
        }
    }
    // the open list
    assert forall|i: int| 0 <= i < open2.len() implies {
        let e = #[trigger] open2[i];
        &&& e.1 < n
        &&& scores2[e.1 as int] is Some
        &&& scores2[e.1 as int]->0 + heuristic.estimate(e.1 as int) <= e.0
    } by {
        if i < open.len() {
            let e = open[i];
            assert(open2[i] == e);
        }
    }
    // the frontier
    assert forall|x: int| 0 <= x < n && x != node && (#[trigger] closed[x]) is Some implies {
        &&& scores2[x] is Some
        &&& !goal.is_target(x)
        &&& forall|y: int|
            0 <= y < n && #[trigger] graph.has_edge(x, y) ==> scores2[y] is Some && scores2[y]->0
                + heuristic.estimate(x) <= closed[x]->0 + graph.edge_length(x, y)
    } by {
        assert forall|y: int| 0 <= y < n && #[trigger] graph.has_edge(x, y) implies scores2[y] is Some
            && scores2[y]->0 + heuristic.estimate(x) <= closed[x]->0 + graph.edge_length(x, y) by {
            assert(scores[y] is Some && scores[y]->0 + heuristic.estimate(x) <= closed[x]->0
                + graph.edge_length(x, y));
        }
    }
    assert forall|x: int| 0 <= x < n && x != node && (#[trigger] scores2[x]) is Some implies {
        ||| open2.contains(MinScored((scores2[x]->0 + heuristic.estimate(x)) as u64, x as usize))
        ||| (!goal.is_target(x) && relaxed(graph, scores2, x, scores2[x]->0 as int))
        ||| !within_budget(goal.budget(), scores2[x]->0 as int)
    } by {
        if x == next {
            assert(open2[open.len() as int] == entry);
        } else {
            assert(scores[x] is Some);
            let waiting = MinScored((scores[x]->0 + heuristic.estimate(x)) as u64, x as usize);
            if open.contains(waiting) {
                let i = choose|i: int| 0 <= i < open.len() && open[i] == waiting;
                assert(open2[i] == waiting);
            } else if !goal.is_target(x) && relaxed(graph, scores, x, scores[x]->0 as int) {
                assert forall|y: int|
                    0 <= y < scores2.len() && #[trigger] graph.has_edge(x, y) implies scores2[y] is Some
                    && scores2[y]->0 <= scores2[x]->0 + graph.edge_length(x, y) by {
                    assert(scores[y] is Some && scores[y]->0 <= scores[x]->0 + graph.edge_length(
                        x,
                        y,
                    ));
                }
            }
        }
    }
}

/// Relaxes every edge of `node`: a neighbor that is reached cheaper through
/// `node` than it was before gets the new cost, a record that it was
/// reached from `node`, and a place in the open list.
fn relax_edges<G: GoalTest, H: Heuristic>(
    graph: &NavGraph,
    node: usize,
    node_score: u64,
    goal: &G,
    heuristic: &H,
    scores: &mut Vec<Option<u64>>,
    visit_next: &mut MinScoredQueue,
    path_tracker: &mut ScoredPathTracker,
    Ghost(start): Ghost<int>,
    Ghost(closed): Ghost<Seq<Option<u64>>>,
)
    requires
        graph.searchable(),
        old(visit_next).wf(),
        heuristic_usable(*graph, *heuristic),
        search_inv(
            *graph,
            start,
            *goal,
            *heuristic,
            old(scores)@,
            closed,
            old(visit_next)@,
            *old(path_tracker),
        ),
        frontier_inv(*graph, *goal, *heuristic, old(scores)@, closed, old(visit_next)@, node as int),
        node < old(scores)@.len(),
        old(scores)@[node as int] == Some(node_score),
    ensures
        final(visit_next).wf(),
        search_inv(
            *graph,
            start,
            *goal,
            *heuristic,
            final(scores)@,
            closed,
            final(visit_next)@,
            *final(path_tracker),
        ),
        frontier_inv(
            *graph,
            *goal,
            *heuristic,
            final(scores)@,
            closed,
            final(visit_next)@,
            node as int,
        ),
        final(scores)@[node as int] == Some(node_score),
        relaxed(*graph, final(scores)@, node as int, node_score as int),
        total_score(final(scores)@) <= total_score(old(scores)@),
        total_score(final(scores)@) == total_score(old(scores)@) ==> final(visit_next)@.len() == old(
            visit_next,
        )@.len(),
{
    let edges = graph.neighbors(node);
    let mut k: usize = 0;
    while k < edges.len()
        invariant
            k <= edges@.len(),
            graph.searchable(),
            visit_next.wf(),
            heuristic_usable(*graph, *heuristic),
            search_inv(*graph, start, *goal, *heuristic, scores@, closed, visit_next@, *path_tracker),
            frontier_inv(*graph, *goal, *heuristic, scores@, closed, visit_next@, node as int),
            node < scores@.len(),
            scores@[node as int] == Some(node_score),
            forall|j: int|
                0 <= j < edges@.len() ==> {
                    &&& (#[trigger] edges@[j]).0 < graph.nodes().len()
                    &&& graph.has_edge(node as int, edges@[j].0 as int)
                    &&& graph.edge_length(node as int, edges@[j].0 as int) <= edges@[j].1
                        <= MAX_DISTANCE
                },
            forall|b: int|
                graph.has_edge(node as int, b) ==> exists|j: int|
                    0 <= j < edges@.len() && (#[trigger] edges@[j]).0 == b && edges@[j].1
                        == graph.edge_length(node as int, b),
            forall|j: int|
                0 <= j < k ==> scores@[(#[trigger] edges@[j]).0 as int] is Some
                    && scores@[edges@[j].0 as int]->0 <= node_score + edges@[j].1,
            total_score(scores@) <= total_score(old(scores)@),
            total_score(scores@) == total_score(old(scores)@) ==> visit_next@.len() == old(
                visit_next,
            )@.len(),
        decreases edges@.len() - k,
    {
        let next = edges[k].0;
        let edge_length = edges[k].1;
        proof {
            lemma_scores_updated(scores@, node as int, scores@[node as int]);
            lemma_edge_length_bounds(*graph, node as int, next as int);
        }
        let next_score = node_score + edge_length;
        // No need to add neighbors that we have already reached through a
        // shorter path than now.
        let improves = match scores[next] {
            Some(known) => next_score < known,
            None => true,
        };
        if improves {
            let ghost scores_before = scores@;
            let ghost open_before = visit_next@;
            let ghost tracker_before = *path_tracker;
            scores.set(next, Some(next_score));
            path_tracker.set_predecessor(next, node, next_score);
            proof {
                lemma_relax_step(
                    *graph,
                    start,
                    *goal,
                    *heuristic,
                    scores_before,
                    closed,
                    open_before,
                    tracker_before,
                    node as int,
                    next as int,
                    next_score,
                    *path_tracker,
                );
            }
            assert(heuristic_fits(*heuristic, next as int));
            let next_estimate_score = next_score + heuristic.estimate_cost(next);
            visit_next.push(MinScored(next_estimate_score, next));
            proof {
                assert forall|j: int| 0 <= j < k + 1 implies scores@[(#[trigger] edges@[j]).0 as int] is Some
                    && scores@[edges@[j].0 as int]->0 <= node_score + edges@[j].1 by {
                    if j < k {
                        assert(scores_before[edges@[j].0 as int] is Some);
                    }
                }
            }
        }
        k += 1;
    }
    proof {
        assert forall|y: int|
            0 <= y < scores@.len() && #[trigger] graph.has_edge(node as int, y) implies scores@[y] is Some
            && scores@[y]->0 <= node_score + graph.edge_length(node as int, y) by {
            let j = choose|j: int|
                0 <= j < edges@.len() && (#[trigger] edges@[j]).0 == y && edges@[j].1
                    == graph.edge_length(node as int, y);
        }
    }
}

/// The nodes of a path that carries costs.
pub open spec fn path_nodes(path: Seq<(usize, u64)>) -> Seq<int> {
    path.map_values(|e: (usize, u64)| e.0 as int)
}

/// `path` leads through the graph from `start`, where its cost is zero, and
/// the cost it carries at each node is at least the cost at the node before
/// plus the length of the edge between the two.
pub open spec fn is_scored_path(graph: NavGraph, start: int, path: Seq<(usize, u64)>) -> bool {
    &&& path.len() >= 1
    &&& path[0].0 == start
    &&& path[0].1 == 0
    &&& forall|i: int| 0 <= i < path.len() ==> (#[trigger] path[i]).0 < graph.nodes().len()
    &&& forall|i: int|
        1 <= i < path.len() ==> graph.has_edge(path[i - 1].0 as int, (#[trigger] path[i]).0 as int)
            && path[i - 1].1 + graph.edge_length(path[i - 1].0 as int, path[i].0 as int)
            <= path[i].1
}

/// The costs a scored path carries bound the true cost of each stretch from
/// its start.
pub proof fn lemma_scored_path_cost(graph: NavGraph, start: int, path: Seq<(usize, u64)>)
    requires
        is_scored_path(graph, start, path),
    ensures
        graph.is_path(path_nodes(path)),
        path_nodes(path)[0] == start,
        graph.path_cost(path_nodes(path)) <= path[path.len() - 1].1,
    decreases path.len(),
{
    let nodes = path_nodes(path);
    assert forall|i: int| 0 <= i < nodes.len() - 1 implies graph.has_edge(
        nodes[i],
        #[trigger] nodes[i + 1],
    ) by {
        assert(graph.has_edge(path[i].0 as int, path[i + 1].0 as int));
    }
    if path.len() > 1 {
        let head = path.drop_last();
        assert(is_scored_path(graph, start, head)) by {
            assert forall|i: int| 1 <= i < head.len() implies graph.has_edge(
                head[i - 1].0 as int,
                (#[trigger] head[i]).0 as int,
            ) && head[i - 1].1 + graph.edge_length(head[i - 1].0 as int, head[i].0 as int)
                <= head[i].1 by {
                assert(head[i] == path[i]);
            }
        }
        lemma_scored_path_cost(graph, start, head);
        assert(path_nodes(head) =~= nodes.drop_last());
        assert(path[path.len() - 1].0 < graph.nodes().len());
    }
}

/// A scored path that ends at its true cost carries the true cost at every
/// node.
pub proof fn lemma_scored_path_exact(graph: NavGraph, start: int, path: Seq<(usize, u64)>, i: int)
    requires
        is_scored_path(graph, start, path),
        graph.path_cost(path_nodes(path)) == path[path.len() - 1].1,
        0 <= i < path.len(),
    ensures
        path[i].1 == graph.path_cost(path_nodes(path).take(i + 1)),
    decreases path.len() - i,
{
    let nodes = path_nodes(path);
    if i == path.len() - 1 {
        assert(nodes.take(i + 1) =~= nodes);
    } else {
        lemma_scored_path_exact(graph, start, path, i + 1);
        let head = path.take(i + 1);
        assert(is_scored_path(graph, start, head)) by {
            assert forall|k: int| 1 <= k < head.len() implies graph.has_edge(
                head[k - 1].0 as int,
                (#[trigger] head[k]).0 as int,
            ) && head[k - 1].1 + graph.edge_length(head[k - 1].0 as int, head[k].0 as int)
                <= head[k].1 by {
                assert(head[k] == path[k]);
            }
        }
        lemma_scored_path_cost(graph, start, head);
        assert(path_nodes(head) =~= nodes.take(i + 1));
        let longer = nodes.take(i + 2);
        assert(longer.drop_last() =~= nodes.take(i + 1));
        assert(path[i + 1].0 < graph.nodes().len());
        assert(graph.has_edge(path[i].0 as int, path[i + 1].0 as int));
    }
}

/// Along any path from the start to a target whose cost is within the
/// budget, from a node that was reached at no more than the path costs up to
/// it, some node further on waits in the open list under such a cost.
proof fn lemma_frontier_on_path<G: GoalTest, H: Heuristic>(
    graph: NavGraph,
    start: int,
    goal: G,
    heuristic: H,
    scores: Seq<Option<u64>>,
    closed: Seq<Option<u64>>,
    open: Seq<MinScored>,
    tracker: ScoredPathTracker,
    p: Seq<int>,
    i: int,
) -> (j: int)
    requires
        graph.searchable(),
        search_inv(graph, start, goal, heuristic, scores, closed, open, tracker),
        frontier_inv(graph, goal, heuristic, scores, closed, open, -1),
        graph.is_path(p),
        goal.is_target(p[p.len() - 1]),
        within_budget(goal.budget(), graph.path_cost(p)),
        0 <= i < p.len(),
        scores[p[i]] is Some,
        scores[p[i]]->0 <= graph.path_cost(p.take(i + 1)),
    ensures
        i <= j < p.len(),
        scores[p[j]] is Some,
        scores[p[j]]->0 <= graph.path_cost(p.take(j + 1)),
        open.contains(MinScored((scores[p[j]]->0 + heuristic.estimate(p[j])) as u64, p[j] as usize)),
    decreases p.len() - i,
{
    let x = p[i];
    let g = scores[x]->0;
    crate::nav_graph::paths::lemma_path_cost_split(graph, p, i);
    crate::nav_graph::paths::lemma_path_cost_nonnegative(graph, p.skip(i));
    assert(scores[x] is Some);
    if open.contains(MinScored((g + heuristic.estimate(x)) as u64, x as usize)) {
        i
    } else {
        assert(!goal.is_target(x) && relaxed(graph, scores, x, g as int));
        assert(i < p.len() - 1);
        let y = p[i + 1];
        assert(graph.has_edge(x, y));
        let longer = p.take(i + 2);
        assert(longer.drop_last() =~= p.take(i + 1));
        assert(longer[longer.len() - 2] == x && longer[longer.len() - 1] == y);
        lemma_frontier_on_path(graph, start, goal, heuristic, scores, closed, open, tracker, p, i + 1)
    }
}

/// No path from the start within the budget leads to a target once the open
/// list has run empty.
proof fn lemma_nothing_left<G: GoalTest, H: Heuristic>(
    graph: NavGraph,
    start: int,
    goal: G,
    heuristic: H,
    scores: Seq<Option<u64>>,
    closed: Seq<Option<u64>>,
    tracker: ScoredPathTracker,
    p: Seq<int>,
)
    requires
        graph.searchable(),
        search_inv(graph, start, goal, heuristic, scores, closed, Seq::empty(), tracker),
        frontier_inv(graph, goal, heuristic, scores, closed, Seq::empty(), -1),
        graph.is_path(p),
        p[0] == start,
        goal.is_target(p[p.len() - 1]),
    ensures
        !within_budget(goal.budget(), graph.path_cost(p)),
{
    if within_budget(goal.budget(), graph.path_cost(p)) {
        assert(p.take(1).len() == 1);
        let j = lemma_frontier_on_path(
            graph,
            start,
            goal,
            heuristic,
            scores,
            closed,
            Seq::empty(),
            tracker,
            p,
            0,
        );
    }
}

/// With an admissible estimate, the entry of the lowest score in the open
/// list bounds the cost at which a target leaves it by the cost of any path
/// from the start to a target.
proof fn lemma_cost_is_least<G: GoalTest, H: Heuristic>(
    graph: NavGraph,
    start: int,
    goal: G,
    heuristic: H,
    scores: Seq<Option<u64>>,
    closed: Seq<Option<u64>>,
    open: Seq<MinScored>,
    tracker: ScoredPathTracker,
    popped: MinScored,
    p: Seq<int>,
)
    requires
        graph.searchable(),
        heuristic_usable(graph, heuristic),
        admissible(graph, goal, heuristic),
        search_inv(graph, start, goal, heuristic, scores, closed, open, tracker),
        frontier_inv(graph, goal, heuristic, scores, closed, open, -1),
        open.contains(popped),
        forall|j: int| 0 <= j < open.len() ==> popped.0 <= (#[trigger] open[j]).0,
        within_budget(goal.budget(), scores[popped.1 as int]->0 as int),
        graph.is_path(p),
        p[0] == start,
        goal.is_target(p[p.len() - 1]),
    ensures
        scores[popped.1 as int]->0 <= graph.path_cost(p),
{
    let k = choose|k: int| 0 <= k < open.len() && open[k] == popped;
    assert(open[k].1 < graph.nodes().len());
    assert(heuristic_fits(heuristic, popped.1 as int));
    if within_budget(goal.budget(), graph.path_cost(p)) {
        assert(p.take(1).len() == 1);
        let j = lemma_frontier_on_path(
            graph,
            start,
            goal,
            heuristic,
            scores,
            closed,
            open,
            tracker,
            p,
            0,
        );
        let waiting = MinScored((scores[p[j]]->0 + heuristic.estimate(p[j])) as u64, p[j] as usize);
        let w = choose|w: int| 0 <= w < open.len() && open[w] == waiting;
        assert(popped.0 <= open[w].0);
        crate::nav_graph::paths::lemma_path_cost_split(graph, p, j);
        crate::nav_graph::paths::lemma_subpath(graph, p, j, p.len() as int);
        let rest = p.skip(j);
        assert(rest =~= p.subrange(j, p.len() as int));
        assert(graph.is_path(rest) && goal.is_target(rest[rest.len() - 1]));
        assert(heuristic.estimate(rest[0]) <= graph.path_cost(rest));
        assert(heuristic_fits(heuristic, p[j]));
    }
}

/// The estimate never falls by more along an edge than the edge is long.
pub open spec fn consistent<H: Heuristic>(graph: NavGraph, heuristic: H) -> bool {
    forall|x: int, y: int|
        0 <= x < graph.nodes().len() && 0 <= y < graph.nodes().len() && #[trigger] graph.has_edge(
            x,
            y,
        ) ==> heuristic.estimate(x) <= graph.edge_length(x, y) + heuristic.estimate(y)
}

/// A consistent estimate falls along a path by no more than the path costs.
pub proof fn lemma_estimate_along_path<H: Heuristic>(graph: NavGraph, heuristic: H, p: Seq<int>)
    requires
        consistent(graph, heuristic),
        graph.is_path(p),
    ensures
        heuristic.estimate(p[0]) <= graph.path_cost(p) + heuristic.estimate(p[p.len() - 1]),
    decreases p.len(),
{
    if p.len() > 1 {
        let head = p.drop_last();
        crate::nav_graph::paths::lemma_subpath(graph, p, 0, p.len() - 1);
        assert(head =~= p.subrange(0, p.len() - 1));
        lemma_estimate_along_path(graph, heuristic, head);
        assert(graph.has_edge(p[p.len() - 2], p[p.len() - 2 + 1]));
    }
}

/// With a consistent estimate, the entry of the lowest score in the open
/// list bounds cost plus estimate of the node that leaves it by cost plus
/// estimate of any path from the start to a target within the budget.
proof fn lemma_cost_and_estimate_are_least<G: GoalTest, H: Heuristic>(
    graph: NavGraph,
    start: int,
    goal: G,
    heuristic: H,
    scores: Seq<Option<u64>>,
    closed: Seq<Option<u64>>,
    open: Seq<MinScored>,
    tracker: ScoredPathTracker,
    popped: MinScored,
    p: Seq<int>,
)
    requires
        graph.searchable(),
        heuristic_usable(graph, heuristic),
        consistent(graph, heuristic),
        search_inv(graph, start, goal, heuristic, scores, closed, open, tracker),
        frontier_inv(graph, goal, heuristic, scores, closed, open, -1),
        open.contains(popped),
        forall|j: int| 0 <= j < open.len() ==> popped.0 <= (#[trigger] open[j]).0,
        graph.is_path(p),
        p[0] == start,
        goal.is_target(p[p.len() - 1]),
        within_budget(goal.budget(), graph.path_cost(p)),
    ensures
        scores[popped.1 as int]->0 + heuristic.estimate(popped.1 as int) <= graph.path_cost(p)
            + heuristic.estimate(p[p.len() - 1]),
{
    let k = choose|k: int| 0 <= k < open.len() && open[k] == popped;
    assert(open[k].1 < graph.nodes().len());
    assert(p.take(1).len() == 1);
    let j = lemma_frontier_on_path(graph, start, goal, heuristic, scores, closed, open, tracker, p, 0);
    let waiting = MinScored((scores[p[j]]->0 + heuristic.estimate(p[j])) as u64, p[j] as usize);
    let w = choose|w: int| 0 <= w < open.len() && open[w] == waiting;
    assert(popped.0 <= open[w].0);
    crate::nav_graph::paths::lemma_path_cost_split(graph, p, j);
    crate::nav_graph::paths::lemma_subpath(graph, p, j, p.len() as int);
    let rest = p.skip(j);
    assert(rest =~= p.subrange(j, p.len() as int));
    lemma_estimate_along_path(graph, heuristic, rest);
    assert(heuristic_fits(heuristic, p[j]));
}

/// The chain of records that ends in a reached node is a scored path from
/// the start, and ends at the cost the node was reached at.
proof fn lemma_chain_is_scored_path<G: GoalTest, H: Heuristic>(
    graph: NavGraph,
    start: int,
    goal: G,
    heuristic: H,
    scores: Seq<Option<u64>>,
    closed: Seq<Option<u64>>,
    open: Seq<MinScored>,
    tracker: ScoredPathTracker,
    path: Seq<(usize, u64)>,
    last: int,
)
    requires
        search_inv(graph, start, goal, heuristic, scores, closed, open, tracker),
        0 <= last < scores.len(),
        scores[last] is Some,
        tracker.is_chain(path, last),
    ensures
        is_scored_path(graph, start, path),
        path[path.len() - 1].0 == last,
        path[path.len() - 1].1 == scores[last]->0,
{
    let n = scores.len() as int;
    // every node of the chain was reached, at the cost the chain carries
    assert forall|i: int| 0 <= i < path.len() implies scores[(#[trigger] path[i]).0 as int] == Some(
        path[i].1,
    ) by {
        lemma_chain_scores(graph, start, goal, heuristic, scores, closed, open, tracker, path, last, i);
    }
    assert(path[0].0 == start) by {
        if path[0].0 != start {
            assert(record_fits(graph, scores, tracker, path[0].0 as int));
        }
    }
    assert forall|i: int| 1 <= i < path.len() implies graph.has_edge(
        path[i - 1].0 as int,
        (#[trigger] path[i]).0 as int,
    ) && path[i - 1].1 + graph.edge_length(path[i - 1].0 as int, path[i].0 as int) <= path[i].1 by {
        assert(path[i].0 != start);
        assert(record_fits(graph, scores, tracker, path[i].0 as int));
        assert(scores[path[i - 1].0 as int] == Some(path[i - 1].1));
    }
}

proof fn lemma_chain_scores<G: GoalTest, H: Heuristic>(
    graph: NavGraph,
    start: int,
    goal: G,
    heuristic: H,
    scores: Seq<Option<u64>>,
    closed: Seq<Option<u64>>,
    open: Seq<MinScored>,
    tracker: ScoredPathTracker,
    path: Seq<(usize, u64)>,
    last: int,
    i: int,
)
    requires
        search_inv(graph, start, goal, heuristic, scores, closed, open, tracker),
        0 <= last < scores.len(),
        scores[last] is Some,
        tracker.is_chain(path, last),
        0 <= i < path.len(),
    ensures
        scores[path[i].0 as int] == Some(path[i].1),
    decreases path.len() - i,
{
    let x = path[i].0 as int;
    if i == path.len() - 1 {
        if i == 0 {
            if x != start {
                assert(record_fits(graph, scores, tracker, x));
            }
        } else {
            assert(x != start);
            assert(record_fits(graph, scores, tracker, x));
        }
    } else {
        lemma_chain_scores(
            graph,
            start,
            goal,
            heuristic,
            scores,
            closed,
            open,
            tracker,
            path,
            last,
            i + 1,
        );
        let child = path[i + 1].0 as int;
        assert(child != start);
        assert(record_fits(graph, scores, tracker, child));
        if i == 0 {
            if x != start {
                assert(record_fits(graph, scores, tracker, x));
            }
        } else {
            assert(x != start);
            assert(record_fits(graph, scores, tracker, x));
        }
    }
}

/// Every chain of records is a path through the graph from `start` that
/// carries costs as a scored path does.
pub open spec fn tracks_paths(graph: NavGraph, start: int, tracker: ScoredPathTracker) -> bool {
    forall|path: Seq<(usize, u64)>, last: int|
        0 <= last < tracker.came_from@.len() && (tracker.came_from@[last] is Some || last == start)
            && #[trigger] tracker.is_chain(path, last) ==> is_scored_path(graph, start, path)
}

/// The records of a search track paths.
proof fn lemma_tracks_paths<G: GoalTest, H: Heuristic>(
    graph: NavGraph,
    start: int,
    goal: G,
    heuristic: H,
    scores: Seq<Option<u64>>,
    closed: Seq<Option<u64>>,
    open: Seq<MinScored>,
    tracker: ScoredPathTracker,
)
    requires
        search_inv(graph, start, goal, heuristic, scores, closed, open, tracker),
    ensures
        tracks_paths(graph, start, tracker),
{
    assert forall|path: Seq<(usize, u64)>, last: int|
        0 <= last < tracker.came_from@.len() && (tracker.came_from@[last] is Some || last == start)
            && #[trigger] tracker.is_chain(path, last) implies is_scored_path(
        graph,
        start,
        path,
    ) by {
        if last != start {
            assert(record_fits(graph, scores, tracker, last));
        }
        lemma_chain_is_scored_path(
            graph,
            start,
            goal,
            heuristic,
            scores,
            closed,
            open,
            tracker,
            path,
            last,
        );
    }
}

/// What a successful search hands back: the chain of records to a target,
/// which is a path from the start whose true cost the reported cost bounds,
/// reached within the budget. A search that starts on a target ends there,
/// at no cost.
///
/// With an admissible estimate the reported cost is the true cost of the
/// path, and no path from the start to any target costs less. With a
/// consistent estimate the reported cost is the true cost of the path, and of
/// all targets within the budget the one found is one for which cost plus
/// estimate is least.
pub open spec fn is_found<G: GoalTest, H: Heuristic>(
    graph: NavGraph,
    start: int,
    goal: G,
    heuristic: H,
    tracker: ScoredPathTracker,
    cost: u64,
    path: Seq<(usize, u64)>,
) -> bool {
    &&& is_scored_path(graph, start, path)
    &&& tracker.is_chain(path, path[path.len() - 1].0 as int)
    &&& path[path.len() - 1].1 == cost
    &&& goal.is_target(path[path.len() - 1].0 as int)
    &&& within_budget(goal.budget(), cost as int)
    &&& graph.path_cost(path_nodes(path)) <= cost
    &&& goal.is_target(start) ==> path =~= seq![(start as usize, 0u64)]
    &&& admissible(graph, goal, heuristic) ==> {
        &&& graph.path_cost(path_nodes(path)) == cost
        &&& forall|p: Seq<int>| #[trigger]
            graph.is_path(p) && p[0] == start && goal.is_target(p[p.len() - 1]) ==> cost
                <= graph.path_cost(p)
    }
    &&& consistent(graph, heuristic) ==> {
        &&& graph.path_cost(path_nodes(path)) == cost
        &&& forall|p: Seq<int>| #[trigger]
            graph.is_path(p) && p[0] == start && goal.is_target(p[p.len() - 1]) && within_budget(
                goal.budget(),
                graph.path_cost(p),
            ) ==> cost + heuristic.estimate(path[path.len() - 1].0 as int) <= graph.path_cost(p)
                + heuristic.estimate(p[p.len() - 1])
    }
}

/// What a search that found nothing shows: every path from the start to a
/// target costs more than the budget. Without a budget there is no such
/// path.
pub open spec fn is_exhausted<G: GoalTest>(graph: NavGraph, start: int, goal: G) -> bool {
    forall|p: Seq<int>| #[trigger]
        graph.is_path(p) && p[0] == start && goal.is_target(p[p.len() - 1]) ==> !within_budget(
            goal.budget(),
            graph.path_cost(p),
        )
}

fn nothing_reached(n: usize) -> (scores: Vec<Option<u64>>)
    ensures
        scores@.len() == n,
        forall|x: int| 0 <= x < n ==> scores@[x] is None,
        count_reached(scores@) == 0,
{
    let mut scores: Vec<Option<u64>> = Vec::new();
    let mut i: usize = 0;
    while i < n
        invariant
            i <= n,
            scores@.len() == i,
            forall|x: int| 0 <= x < i ==> scores@[x] is None,
            count_reached(scores@) == 0,
        decreases n - i,
    {
        let ghost before = scores@;
        scores.push(None);
        assert(scores@.drop_last() =~= before);
        i += 1;
    }
    scores
}

/// A* search from `start` over the edge lengths of `graph`, with the
/// possibility to indicate the reason to end the search in more detail than
/// just 'the goal is reached', and to base this decision on the cost of the
/// path so far.
///
/// Returns the cost and the path, each node with the cost it was reached at,
/// when a target was reached within the budget, and the records of the
/// search in either case. A path is found exactly when some path from the
/// start to a target costs no more than the budget. The records lead from
/// every node that the search reached back to the start, along edges of the
/// graph.
///
/// The graph need not be a visibility graph: its edges may carry any
/// lengths up to the greatest distance there is.
pub fn bounded_astar<G: GoalTest, H: Heuristic>(
    graph: &NavGraph,
    start: usize,
    is_goal: &G,
    estimate_cost: &H,
) -> (result: (Option<(u64, Vec<(usize, u64)>)>, ScoredPathTracker))
    requires
        graph.searchable(),
        start < graph.nodes().len(),
        goal_usable(*graph, *is_goal),
        heuristic_usable(*graph, *estimate_cost),
    ensures
        result.1.wf(),
        result.1.came_from@.len() == graph.nodes().len(),
        result.1.came_from@[start as int] is None,
        tracks_paths(*graph, start as int, result.1),
        match result.0 {
            Some((cost, path)) => is_found(
                *graph,
                start as int,
                *is_goal,
                *estimate_cost,
                result.1,
                cost,
                path@,
            ),
            None => is_exhausted(*graph, start as int, *is_goal),
        },
{
    let n = graph.node_count();
    let mut visit_next = MinScoredQueue::new();
    let mut scores = nothing_reached(n);  // g-values, cost to reach the node
    let mut estimate_scores = nothing_reached(n);  // f-values, cost to reach + estimate cost to goal
    let mut path_tracker = ScoredPathTracker::new(n);

    proof {
        lemma_scores_updated(scores@, start as int, Some(0u64));
        assert(heuristic_fits(*estimate_cost, start as int));
    }
    scores.set(start, Some(0));
    visit_next.push(MinScored(estimate_cost.estimate_cost(start), start));
    proof {
        assert(visit_next@[0] == MinScored(estimate_cost.estimate(start as int) as u64, start));
        assert forall|x: int| 0 <= x < n && x != start implies #[trigger] record_fits(
            *graph,
            scores@,
            path_tracker,
            x,
        ) by {}
    }

    loop
        invariant
            graph.searchable(),
            visit_next.wf(),
            is_goal.is_target(start as int) ==> forall|i: int|
                0 <= i < visit_next@.len() ==> (#[trigger] visit_next@[i]).1 == start,
            n == graph.nodes().len(),
            goal_usable(*graph, *is_goal),
            heuristic_usable(*graph, *estimate_cost),
            search_inv(
                *graph,
                start as int,
                *is_goal,
                *estimate_cost,
                scores@,
                estimate_scores@,
                visit_next@,
                path_tracker,
            ),
            frontier_inv(
                *graph,
                *is_goal,
                *estimate_cost,
                scores@,
                estimate_scores@,
                visit_next@,
                -1,
            ),
        ensures
            visit_next@.len() == 0,
            graph.searchable(),
            search_inv(
                *graph,
                start as int,
                *is_goal,
                *estimate_cost,
                scores@,
                estimate_scores@,
                visit_next@,
                path_tracker,
            ),
            frontier_inv(
                *graph,
                *is_goal,
                *estimate_cost,
                scores@,
                estimate_scores@,
                visit_next@,
                -1,
            ),
        decreases total_score(scores@), visit_next@.len(),
    {
        let ghost open_before = visit_next@;
        let popped = visit_next.pop();
        if popped.is_none() {
            break ;
        }
        let MinScored(estimate_score, node) = popped.unwrap();
        proof {
            let e = MinScored(estimate_score, node);
            let k = choose|k: int| 0 <= k < open_before.len() && open_before[k] == e;
            assert(open_before[k].1 < n);
            // what is left in the open list was there before
            assert forall|i: int| 0 <= i < visit_next@.len() implies {
                let w = #[trigger] visit_next@[i];
                &&& w.1 < n
                &&& scores@[w.1 as int] is Some
                &&& scores@[w.1 as int]->0 + estimate_cost.estimate(w.1 as int) <= w.0
            } by {
                let w = visit_next@[i];
                assert(visit_next@.contains(w));
                let j = choose|j: int| 0 <= j < open_before.len() && open_before[j] == w;
                assert(open_before[j] == w);
            }
            // and of the other nodes, whatever waited still waits
            assert forall|x: int|
                0 <= x < n && x != node && (#[trigger] scores@[x]) is Some implies {
                ||| visit_next@.contains(
                    MinScored((scores@[x]->0 + estimate_cost.estimate(x)) as u64, x as usize),
                )
                ||| (!is_goal.is_target(x) && relaxed(*graph, scores@, x, scores@[x]->0 as int))
                ||| !within_budget(is_goal.budget(), scores@[x]->0 as int)
            } by {
                let waiting = MinScored(
                    (scores@[x]->0 + estimate_cost.estimate(x)) as u64,
                    x as usize,
                );
                if open_before.contains(waiting) {
                    assert(waiting != e);
                }
            }
            assert(goal_fits(*is_goal, node as int));
            assert(heuristic_fits(*estimate_cost, node as int));
        }
        // This lookup cannot fail: the node was necessarily scored before
        // adding it to `visit_next`.
        let node_score: u64 = match scores[node] {
            Some(score) => score,
            None => unreached(),
        };
        let ghost current = MinScored(
            (node_score + estimate_cost.estimate(node as int)) as u64,
            node,
        );
        let ghost is_current = (estimate_score == node_score + estimate_cost.estimate(node as int));

        match is_goal.is_goal(node, node_score) {
            IsGoalResult::MaximumExtend => {
                continue ;
            },
            IsGoalResult::Goal => {
                let path = path_tracker.reconstruct_path_to(node);
                proof {
                    lemma_chain_is_scored_path(
                        *graph,
                        start as int,
                        *is_goal,
                        *estimate_cost,
                        scores@,
                        estimate_scores@,
                        visit_next@,
                        path_tracker,
                        path@,
                        node as int,
                    );
                    lemma_scored_path_cost(*graph, start as int, path@);
                    lemma_tracks_paths(
                        *graph,
                        start as int,
                        *is_goal,
                        *estimate_cost,
                        scores@,
                        estimate_scores@,
                        visit_next@,
                        path_tracker,
                    );
                    if is_goal.is_target(start as int) {
                        let e = MinScored(estimate_score, node);
                        let k = choose|k: int| 0 <= k < open_before.len() && open_before[k] == e;
                        assert(open_before[k].1 == start);
                        assert(path@.len() == 1) by {
                            if path@.len() > 1 {
                                assert(path_tracker.came_from@[path@[path@.len() - 1].0 as int]
                                    is Some);
                            }
                        }
                        assert(path@ =~= seq![(start, 0u64)]);
                    }
                    if consistent(*graph, *estimate_cost) {
                        assert forall|p: Seq<int>| #[trigger]
                            graph.is_path(p) && p[0] == start && is_goal.is_target(p[p.len() - 1])
                                && within_budget(
                                is_goal.budget(),
                                graph.path_cost(p),
                            ) implies node_score + estimate_cost.estimate(node as int)
                            <= graph.path_cost(p) + estimate_cost.estimate(p[p.len() - 1]) by {
                            lemma_cost_and_estimate_are_least(
                                *graph,
                                start as int,
                                *is_goal,
                                *estimate_cost,
                                scores@,
                                estimate_scores@,
                                open_before,
                                path_tracker,
                                MinScored(estimate_score, node),
                                p,
                            );
                        }
                        let nodes = path_nodes(path@);
                        assert(nodes[nodes.len() - 1] == node);
                        assert(graph.is_path(nodes) && nodes[0] == start && is_goal.is_target(
                            nodes[nodes.len() - 1],
                        ));
                    }
                    if admissible(*graph, *is_goal, *estimate_cost) {
                        assert forall|p: Seq<int>| #[trigger]
                            graph.is_path(p) && p[0] == start && is_goal.is_target(
                                p[p.len() - 1],
                            ) implies node_score <= graph.path_cost(p) by {
                            lemma_cost_is_least(
                                *graph,
                                start as int,
                                *is_goal,
                                *estimate_cost,
                                scores@,
                                estimate_scores@,
                                open_before,
                                path_tracker,
                                MinScored(estimate_score, node),
                                p,
                            );
                        }
                        let nodes = path_nodes(path@);
                        assert(nodes[nodes.len() - 1] == node);
                        assert(graph.is_path(nodes) && nodes[0] == start && is_goal.is_target(
                            nodes[nodes.len() - 1],
                        ));
                    }
                }
                return (Some((node_score, path)), path_tracker);
            },
            IsGoalResult::NotGoal => {},
        }

        // If the node has already been visited with an equal or lower score
        // than now, then we do not need to re-visit it.
        let visited = match estimate_scores[node] {
            Some(earlier) => earlier <= estimate_score,
            None => false,
        };
        if visited {
            proof {
                if is_current {
                    assert forall|y: int|
                        0 <= y < scores@.len() && #[trigger] graph.has_edge(
                            node as int,
                            y,
                        ) implies scores@[y] is Some && scores@[y]->0 <= node_score
                        + graph.edge_length(node as int, y) by {
                        assert(scores@[y] is Some && scores@[y]->0 + estimate_cost.estimate(
                            node as int,
                        ) <= estimate_scores@[node as int]->0 + graph.edge_length(node as int, y));
                    }
                } else {
                    assert(current != MinScored(estimate_score, node));
                    if open_before.contains(current) {
                        assert(visit_next@.contains(current));
                    }
                }
            }
            continue ;
        }
        estimate_scores.set(node, Some(estimate_score));

        relax_edges(
            graph,
            node,
            node_score,
            is_goal,
            estimate_cost,
            &mut scores,
            &mut visit_next,
            &mut path_tracker,
            Ghost(start as int),
            Ghost(estimate_scores@),
        );
        proof {
            assert forall|y: int|
                0 <= y < n && #[trigger] graph.has_edge(node as int, y) implies scores@[y] is Some
                && scores@[y]->0 + estimate_cost.estimate(node as int)
                <= estimate_scores@[node as int]->0 + graph.edge_length(node as int, y) by {
                assert(scores@[y]->0 <= node_score + graph.edge_length(node as int, y));
            }
            lemma_total_score_nonnegative(scores@);
        }
    }
    proof {
        lemma_tracks_paths(
            *graph,
            start as int,
            *is_goal,
            *estimate_cost,
            scores@,
            estimate_scores@,
            visit_next@,
            path_tracker,
        );
        assert(visit_next@ =~= Seq::<MinScored>::empty());
        assert forall|p: Seq<int>| #[trigger]
            graph.is_path(p) && p[0] == start && is_goal.is_target(
                p[p.len() - 1],
            ) implies !within_budget(is_goal.budget(), graph.path_cost(p)) by {
            lemma_nothing_left(
                *graph,
                start as int,
                *is_goal,
                *estimate_cost,
                scores@,
                estimate_scores@,
                path_tracker,
                p,
            );
        }
    }
    (None, path_tracker)
}

} // verus!
