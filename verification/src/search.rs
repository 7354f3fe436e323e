//! Best-first search for a plan that leads a board to the goal.

use crate::board::{
    goal_grid, grid_key, grid_of_key, is_permutation, is_shortest, lemma_key_round_trip,
    lemma_moved_permutation, lemma_run_push, moved, run_plan, solvable, Board, Direction,
    KEY_SPACE,
};
use crate::heuristics::{estimate_of, lemma_estimate_within, Heuristic};
use crate::min_heap::MinHeap;
use std::collections::HashMap;
use std::collections::HashSet;
use std::time::Duration;
use std::time::Instant;
use vstd::multiset::*;
use vstd::prelude::*;

verus! {

broadcast use vstd::std_specs::hash::group_hash_axioms;

/// A point in time of the monotonic clock; nothing is known of its value.
#[verifier::external_type_specification]
#[verifier::external_body]
pub struct ExInstant(Instant);

/// What one search cost.
pub struct Stats {
    /// The number of boards expanded.
    pub expanded: usize,
    /// The time the whole call took.
    pub runtime: Duration,
}

impl Stats {
    /// A record of the given expansion count and running time.
    pub fn new(expanded: usize, runtime: Duration) -> (s: Stats)
        ensures
            s.expanded == expanded,
            s.runtime == runtime,
    {
        Stats { expanded, runtime }
    }
}

/// Reads the monotonic clock with `Instant::now`. Nothing is claimed of the
/// value read.
#[verifier::external_body]
fn clock_now() -> (t: Instant) {
    Instant::now()
}

/// The time that has passed since `start`, by `Instant::elapsed`. Nothing is
/// claimed of the duration.
#[verifier::external_body]
fn clock_elapsed(start: &Instant) -> (d: Duration) {
    start.elapsed()
}

/// The key is the start, or a parent is recorded for it.
spec fn linked(pred: Map<u64, (u64, Direction)>, ik: u64, k: u64) -> bool {
    k == ik || pred.contains_key(k)
}

/// The key stands for a board.
spec fn valid_key(k: u64) -> bool {
    is_permutation(grid_of_key(k)) && grid_key(grid_of_key(k)) == k
}

/// The parent recorded for `k` is one step before `k`, cheaper than `k` by
/// 1, and itself the start or a board with a parent.
spec fn edge_ok(
    cost: Map<u64, u32>,
    pred: Map<u64, (u64, Direction)>,
    ik: u64,
    k: u64,
) -> bool {
    let p = pred[k].0;
    let d = pred[k].1;
    &&& k != ik
    &&& cost.contains_key(k)
    &&& cost.contains_key(p)
    &&& cost[k] == cost[p] + 1
    &&& linked(pred, ik, p)
    &&& valid_key(p)
    &&& moved(grid_of_key(p), d) == Some(grid_of_key(k))
}

/// Every recorded parent is a sound link towards the start.
spec fn chain_ok(
    cost: Map<u64, u32>,
    pred: Map<u64, (u64, Direction)>,
    ik: u64,
) -> bool {
    forall|k: u64| #[trigger] pred.contains_key(k) ==> edge_ok(cost, pred, ik, k)
}

/// The steps in the opposite order.
fn reversed(steps: &Vec<Direction>) -> (out: Vec<Direction>)
    ensures
        out@ == steps@.reverse(),
{
    let n: usize = steps.len();
    let mut out: Vec<Direction> = Vec::new();
    let mut i: usize = n;
    while i > 0
        invariant
            n == steps.len(),
            i <= n,
            out.len() == n - i,
            forall|j: int| 0 <= j < out.len() ==> out@[j] == steps@[n - 1 - j],
        decreases i,
    {
        i -= 1;
        out.push(steps[i]);
    }
    assert(out@ =~= steps@.reverse());
    out
}

/// Follows the recorded parents from `gk` back to the start `ik` and returns
/// the steps from the start to `gk`.
fn reconstruct(
    pred: &HashMap<u64, (u64, Direction)>,
    cost: &HashMap<u64, u32>,
    ik: u64,
    gk: u64,
) -> (path: Vec<Direction>)
    requires
        chain_ok(cost@, pred@, ik),
        linked(pred@, ik, gk),
        cost@.contains_key(ik),
        cost@.contains_key(gk),
        cost@[ik] == 0,
    ensures
        run_plan(grid_of_key(ik), path@) == Some(grid_of_key(gk)),
        path@.len() == cost@[gk],
{
    let mut back: Vec<Direction> = Vec::new();
    let mut cursor: u64 = gk;
    assert(back@.reverse() =~= Seq::<Direction>::empty());
    while cursor != ik
        invariant
            chain_ok(cost@, pred@, ik),
            linked(pred@, ik, cursor),
            cost@.contains_key(cursor),
            cost@[ik] == 0,
            back@.len() + cost@[cursor] == cost@[gk],
            run_plan(grid_of_key(cursor), back@.reverse()) == Some(grid_of_key(gk)),
        decreases
                (if cursor == ik {
                    0int
                } else {
                    cost@[cursor] + 1
                }),
    {
        assert(pred@.contains_key(cursor));
        assert(edge_ok(cost@, pred@, ik, cursor));
        let link = pred.get(&cursor).unwrap();
        let parent: u64 = link.0;
        let step: Direction = link.1;
        let ghost before = back@;
        back.push(step);
        proof {
            let plan = back@.reverse();
            assert(plan.len() > 0 && plan[0] == step);
            assert(plan.subrange(1, plan.len() as int) =~= before.reverse());
        }
        cursor = parent;
    }
    reversed(&back)
}

/// Some entry of the frontier holds the board with key `k`, at a priority
/// of at most `bound`.
spec fn queued(ms: Multiset<(Board, u32)>, k: u64, bound: int) -> bool {
    exists|e: (Board, u32)| #[trigger] ms.count(e) > 0 && grid_key(e.0@) == k && e.1 <= bound
}

/// No plan from `init` to `target` has fewer than `c` steps.
#[verifier::opaque]
spec fn no_shorter(init: Seq<u8>, target: Seq<u8>, c: int) -> bool {
    forall|plan: Seq<Direction>| #[trigger] run_plan(init, plan) == Some(target) ==> c <= plan.len()
}

/// A frontier entry holds a board whose cost is known, at a priority of at
/// least that cost plus the estimate.
spec fn entry_ok(cost: Map<u64, u32>, h: Heuristic, e: (Board, u32)) -> bool {
    &&& e.0.wf()
    &&& cost.contains_key(grid_key(e.0@))
    &&& e.1 >= cost[grid_key(e.0@)] + estimate_of(h, e.0@)
}

/// An expanded key stands for a board other than the goal, and its cost is
/// the least number of steps from the start.
spec fn node_ok(cost: Map<u64, u32>, gk: u64, init: Seq<u8>, k: u64) -> bool {
    &&& valid_key(k)
    &&& k != gk
    &&& k < KEY_SPACE
    &&& cost.contains_key(k)
    &&& no_shorter(init, grid_of_key(k), cost[k] as int)
}

/// The board one step in direction `d` from the board of `k`, if there is
/// one, has been expanded, or waits in the frontier at a priority of at most
/// the cost of `k`, plus 1, plus its estimate.
spec fn closed_at(
    ms: Multiset<(Board, u32)>,
    cost: Map<u64, u32>,
    h: Heuristic,
    expanded: Set<u64>,
    k: u64,
    d: Direction,
) -> bool {
    match moved(grid_of_key(k), d) {
        None => true,
        Some(s) => expanded.contains(grid_key(s)) || queued(
            ms,
            grid_key(s),
            cost[k] + 1 + estimate_of(h, s),
        ),
    }
}

/// The board one step in direction `d` from the board of `k`, if there is
/// one, has been expanded.
spec fn stays_in(expanded: Set<u64>, k: u64, d: Direction) -> bool {
    match moved(grid_of_key(k), d) {
        None => true,
        Some(s) => expanded.contains(grid_key(s)),
    }
}

/// What holds of the search between two steps. `cur` is the board whose
/// children are being generated and `done` the directions already tried
/// from it.
spec fn inv(
    ms: Multiset<(Board, u32)>,
    cost: Map<u64, u32>,
    pred: Map<u64, (u64, Direction)>,
    expanded: Set<u64>,
    count: int,
    ik: u64,
    gk: u64,
    first: (Board, u32),
    h: Heuristic,
    cur: u64,
    done: Set<Direction>,
) -> bool {
    &&& chain_ok(cost, pred, ik)
    &&& forall|k: u64| #[trigger] pred.contains_key(k) ==> expanded.contains(pred[k].0)
    &&& cost.contains_key(ik) && cost[ik] == 0
    &&& forall|k: u64| #[trigger] cost.contains_key(k) ==> cost[k] <= count && linked(pred, ik, k)
    &&& forall|e: (Board, u32)| #[trigger] ms.count(e) > 0 ==> entry_ok(cost, h, e)
    &&& forall|k: u64| #[trigger] expanded.contains(k) ==> node_ok(cost, gk, first.0@, k)
    &&& count == 0 ==> {
        &&& ms == Multiset::singleton(first)
        &&& forall|k: u64| !#[trigger] expanded.contains(k)
    }
    &&& count > 0 ==> expanded.contains(ik)
    &&& forall|k: u64, d: Direction|
        expanded.contains(k) && (k != cur || done.contains(d)) ==> #[trigger] closed_at(
            ms,
            cost,
            h,
            expanded,
            k,
            d,
        )
}

/// A plan that starts on an expanded board and ends on one that is not
/// passes a board that waits in the frontier, at a priority of at most the
/// length of the plan plus the estimate of its end. `j` steps of the plan
/// have been followed, which led to `s`.
proof fn lemma_crossing(
    ms: Multiset<(Board, u32)>,
    cost: Map<u64, u32>,
    h: Heuristic,
    expanded: Set<u64>,
    gk: u64,
    init: Seq<u8>,
    plan: Seq<Direction>,
    j: int,
    s: Seq<u8>,
    target: Seq<u8>,
)
    requires
        0 <= j <= plan.len(),
        is_permutation(s),
        run_plan(init, plan.subrange(0, j)) == Some(s),
        run_plan(s, plan.subrange(j, plan.len() as int)) == Some(target),
        expanded.contains(grid_key(s)),
        !expanded.contains(grid_key(target)),
        forall|k: u64| #[trigger] expanded.contains(k) ==> node_ok(cost, gk, init, k),
        forall|k: u64, d: Direction|
            expanded.contains(k) ==> #[trigger] closed_at(ms, cost, h, expanded, k, d),
    ensures
        exists|e: (Board, u32)| #[trigger]
            ms.count(e) > 0 && e.1 <= plan.len() + estimate_of(h, target),
    decreases plan.len() - j,
{
    let ks = grid_key(s);
    let rest = plan.subrange(j, plan.len() as int);
    lemma_key_round_trip(s);
    assert(node_ok(cost, gk, init, ks));
    assert(rest.len() > 0);
    let d = plan[j];
    assert(rest[0] == d);
    let t = moved(s, d).unwrap();
    let after = plan.subrange(j + 1, plan.len() as int);
    assert(rest.subrange(1, rest.len() as int) =~= after);
    lemma_moved_permutation(s, d);
    // the start is at least `cost[ks]` steps behind
    assert(cost[ks] <= j) by {
        reveal(no_shorter);
        assert(run_plan(init, plan.subrange(0, j)) == Some(grid_of_key(ks)));
        assert(plan.subrange(0, j).len() == j);
    }
    assert(closed_at(ms, cost, h, expanded, ks, d));
    if expanded.contains(grid_key(t)) {
        lemma_run_push(init, plan.subrange(0, j), d);
        assert(plan.subrange(0, j).push(d) =~= plan.subrange(0, j + 1));
        lemma_crossing(ms, cost, h, expanded, gk, init, plan, j + 1, t, target);
    } else {
        let e = choose|e: (Board, u32)| #[trigger]
            ms.count(e) > 0 && grid_key(e.0@) == grid_key(t) && e.1 <= cost[ks] + 1 + estimate_of(
                h,
                t,
            );
        lemma_estimate_within(h, t, after);
        assert(ms.count(e) > 0 && e.1 <= plan.len() + estimate_of(h, target));
    }
}

/// From a set of expanded boards that holds every board one step from any
/// of its members, no plan leads out.
proof fn lemma_closed(expanded: Set<u64>, s: Seq<u8>, plan: Seq<Direction>)
    requires
        is_permutation(s),
        expanded.contains(grid_key(s)),
        forall|k: u64, d: Direction| expanded.contains(k) ==> #[trigger] stays_in(expanded, k, d),
        run_plan(s, plan) is Some,
    ensures
        expanded.contains(grid_key(run_plan(s, plan).unwrap())),
    decreases plan.len(),
{
    if plan.len() > 0 {
        let t = moved(s, plan[0]).unwrap();
        lemma_key_round_trip(s);
        assert(stays_in(expanded, grid_key(s), plan[0]));
        lemma_moved_permutation(s, plan[0]);
        lemma_closed(expanded, t, plan.subrange(1, plan.len() as int));
    }
}

/// The search stays sound when a child of the board being expanded enters
/// the frontier and, where the new cost is better, has its cost and parent
/// recorded.
proof fn lemma_relaxed(
    ms0: Multiset<(Board, u32)>,
    cost0: Map<u64, u32>,
    cost1: Map<u64, u32>,
    pred0: Map<u64, (u64, Direction)>,
    pred1: Map<u64, (u64, Direction)>,
    expanded: Set<u64>,
    count: int,
    ik: u64,
    gk: u64,
    first: (Board, u32),
    h: Heuristic,
    kb: u64,
    d: Direction,
    done: Set<Direction>,
    child: Board,
    priority: u32,
    better: bool,
)
    requires
        inv(ms0, cost0, pred0, expanded, count, ik, gk, first, h, kb, done),
        0 < count <= KEY_SPACE,
        expanded.contains(kb),
        child.wf(),
        !expanded.contains(grid_key(child@)),
        grid_of_key(grid_key(child@)) == child@,
        moved(grid_of_key(kb), d) == Some(child@),
        cost0[kb] + 1 <= count,
        priority == cost0[kb] + 1 + estimate_of(h, child@),
        better == (!cost0.contains_key(grid_key(child@)) || cost0[kb] + 1 < cost0[grid_key(
            child@,
        )]),
        better ==> cost1 == cost0.insert(grid_key(child@), (cost0[kb] + 1) as u32),
        better ==> pred1 == pred0.insert(grid_key(child@), (kb, d)),
        !better ==> cost1 == cost0 && pred1 == pred0,
    ensures
        inv(
            ms0.insert((child, priority)),
            cost1,
            pred1,
            expanded,
            count,
            ik,
            gk,
            first,
            h,
            kb,
            done.insert(d),
        ),
{
    let kc = grid_key(child@);
    let entry = (child, priority);
    let ms1 = ms0.insert(entry);
    assert(node_ok(cost0, gk, first.0@, kb));
    assert(ms1.count(entry) > 0);
    assert(queued(ms1, kc, cost0[kb] + 1 + estimate_of(h, child@)));
    assert(kc != kb && kc != ik);
    assert(linked(pred0, ik, kb));
    assert(chain_ok(cost1, pred1, ik)) by {
        assert forall|k: u64| #[trigger] pred1.contains_key(k) implies edge_ok(
            cost1,
            pred1,
            ik,
            k,
        ) by {
            if better && k == kc {
                assert(linked(pred1, ik, kb));
            } else {
                assert(pred0.contains_key(k));
                assert(edge_ok(cost0, pred0, ik, k));
                assert(expanded.contains(pred0[k].0));
                assert(linked(pred1, ik, pred0[k].0));
            }
        }
    }
    assert forall|k: u64| #[trigger] cost1.contains_key(k) implies cost1[k] <= count && linked(
        pred1,
        ik,
        k,
    ) by {
        if !(better && k == kc) {
            assert(cost0.contains_key(k));
        }
    }
    assert forall|e: (Board, u32)| #[trigger] ms1.count(e) > 0 implies entry_ok(cost1, h, e) by {
        if e != entry {
            assert(ms0.count(e) > 0);
            assert(entry_ok(cost0, h, e));
        }
    }
    assert forall|k: u64| #[trigger] expanded.contains(k) implies node_ok(
        cost1,
        gk,
        first.0@,
        k,
    ) by {
        assert(node_ok(cost0, gk, first.0@, k));
    }
    assert forall|k: u64, d2: Direction|
        expanded.contains(k) && (k != kb || done.insert(d).contains(d2)) implies #[trigger] closed_at(
        ms1,
        cost1,
        h,
        expanded,
        k,
        d2,
    ) by {
        assert(cost1[k] == cost0[k]);
        if k == kb && d2 == d {
        } else {
            assert(closed_at(ms0, cost0, h, expanded, k, d2));
            let s = moved(grid_of_key(k), d2);
            if s is Some {
                let bound = cost0[k] + 1 + estimate_of(h, s.unwrap());
                if queued(ms0, grid_key(s.unwrap()), bound) {
                    let w = choose|w: (Board, u32)| #[trigger]
                        ms0.count(w) > 0 && grid_key(w.0@) == grid_key(s.unwrap()) && w.1 <= bound;
                    assert(ms1.count(w) > 0);
                }
            }
        }
    }
}

/// Generates the child of board `b` in direction `d`: unless the step
/// leaves the grid or the child has been expanded, the child enters the
/// frontier at its cost plus its estimate, and the cost and the parent are
/// recorded where the new cost is the best known.
fn relax(
    heap: &mut MinHeap<Board>,
    cost: &mut HashMap<u64, u32>,
    pred: &mut HashMap<u64, (u64, Direction)>,
    expanded: &HashSet<u64>,
    b: &Board,
    kb: u64,
    d: Direction,
    heuristic: Heuristic,
    Ghost(count): Ghost<int>,
    Ghost(ik): Ghost<u64>,
    Ghost(gk): Ghost<u64>,
    Ghost(first): Ghost<(Board, u32)>,
    Ghost(done): Ghost<Set<Direction>>,
)
    requires
        old(heap).wf(),
        b.wf(),
        kb == grid_key(b@),
        expanded@.contains(kb),
        0 < count <= KEY_SPACE,
        old(cost)@[kb] < count,
        inv(old(heap)@, old(cost)@, old(pred)@, expanded@, count, ik, gk, first, heuristic, kb, done),
    ensures
        final(heap).wf(),
        final(cost)@[kb] == old(cost)@[kb],
        inv(
            final(heap)@,
            final(cost)@,
            final(pred)@,
            expanded@,
            count,
            ik,
            gk,
            first,
            heuristic,
            kb,
            done.insert(d),
        ),
{
    let ghost ms0 = heap@;
    let ghost cost0 = cost@;
    let ghost pred0 = pred@;
    proof {
        lemma_key_round_trip(b@);
        assert(node_ok(cost0, gk, first.0@, kb));
    }
    match b.apply(d) {
        None => {
            assert(closed_at(ms0, cost0, heuristic, expanded@, kb, d));
        },
        Some(child) => {
            let kc: u64 = child.key();
            if expanded.contains(&kc) {
                assert(closed_at(ms0, cost0, heuristic, expanded@, kb, d));
            } else {
                let base: u32 = *cost.get(&kb).unwrap();
                let tentative: u32 = base + 1;
                let priority: u32 = tentative + heuristic.estimate(&child);
                heap.insert(child, priority);
                let better: bool = match cost.get(&kc) {
                    Some(known) => tentative < *known,
                    None => true,
                };
                if better {
                    cost.insert(kc, tentative);
                    pred.insert(kc, (kb, d));
                }
                proof {
                    lemma_relaxed(
                        ms0,
                        cost0,
                        cost@,
                        pred0,
                        pred@,
                        expanded@,
                        count,
                        ik,
                        gk,
                        first,
                        heuristic,
                        kb,
                        d,
                        done,
                        child,
                        priority,
                        better,
                    );
                }
            }
        },
    }
}

/// A set of keys has at most as many members as there are keys.
proof fn lemma_seen_bound(seen: Set<int>)
    requires
        seen.finite(),
        forall|x: int| seen.contains(x) ==> 0 <= x < KEY_SPACE,
    ensures
        seen.len() <= KEY_SPACE,
{
    let all = vstd::set_lib::set_int_range(0, KEY_SPACE as int);
    vstd::set_lib::lemma_int_range(0, KEY_SPACE as int);
    assert(seen.subset_of(all));
    vstd::set_lib::lemma_len_subset(seen, all);
}

/// Searches best-first for a shortest plan from `init_state` to the goal,
/// ordering the frontier by the cost so far plus the estimate of
/// `heuristic`. Returns the plan, if there is one, and the number of boards
/// expanded.
///
/// A board taken from the frontier that has been expanded before is dropped
/// and not counted. The search ends when the goal is taken from the
/// frontier, or when the frontier is empty: then no plan exists.
pub fn search_with(init_state: Board, heuristic: Heuristic) -> (r: (Option<Vec<Direction>>, usize))
    requires
        init_state.wf(),
    ensures
        match r.0 {
            Some(path) => is_shortest(init_state@, path@),
            None => !solvable(init_state@),
        },
        r.0 is Some <==> solvable(init_state@),
        1 <= r.1 <= KEY_SPACE,
{
    let ik: u64 = init_state.key();
    let gk: u64 = Board::goal().key();
    let mut heap: MinHeap<Board> = MinHeap::new();
    let mut cost: HashMap<u64, u32> = HashMap::new();
    let mut pred: HashMap<u64, (u64, Direction)> = HashMap::new();
    let mut expanded: HashSet<u64> = HashSet::new();
    let mut count: usize = 0;
    let ghost mut seen: Set<int> = Set::empty();
    let ghost every: Set<Direction> = Set::full();
    let ghost init = init_state@;

    let start: u32 = heuristic.estimate(&init_state);
    let ghost first = (init_state, start);
    heap.insert(init_state, start);
    cost.insert(ik, 0);
    proof {
        assert(heap@ =~= Multiset::singleton(first));
        assert(pred@ =~= Map::empty());
        assert forall|e: (Board, u32)| #[trigger] heap@.count(e) > 0 implies entry_ok(
            cost@,
            heuristic,
            e,
        ) by {
            assert(e == first);
        }
    }
    loop
        invariant
            heap.wf(),
            init_state.wf(),
            init == init_state@,
            ik == grid_key(init),
            grid_of_key(ik) == init,
            grid_of_key(gk) == goal_grid(),
            gk == grid_key(goal_grid()),
            first.0 == init_state,
            every == Set::<Direction>::full(),
            inv(heap@, cost@, pred@, expanded@, count as int, ik, gk, first, heuristic, ik, every),
            seen.finite(),
            seen.len() == count,
            forall|x: int| seen.contains(x) ==> 0 <= x < KEY_SPACE,
            forall|k: u64| expanded@.contains(k) <==> seen.contains(k as int),
        decreases KEY_SPACE - count, heap@.len(),
    {
        proof {
            lemma_seen_bound(seen);
        }
        let ghost ms0 = heap@;
        match heap.pop() {
            None => {
                proof {
                    assert(count > 0);
                    assert forall|k: u64, d: Direction| expanded@.contains(k) implies #[trigger] stays_in(
                        expanded@,
                        k,
                        d,
                    ) by {
                        assert(closed_at(ms0, cost@, heuristic, expanded@, k, d));
                    }
                    assert forall|plan: Seq<Direction>|
                        run_plan(init, plan) != Some(goal_grid()) by {
                        if run_plan(init, plan) == Some(goal_grid()) {
                            lemma_closed(expanded@, init, plan);
                            assert(node_ok(cost@, gk, init, gk));
                        }
                    }
                }
                return (None, count);
            },
            Some(entry) => {
                let b: Board = entry.0;
                let ghost ms1 = heap@;
                assert(entry_ok(cost@, heuristic, entry));
                let kb: u64 = b.key();
                let ghost expanded0 = expanded@;
                proof {
                    // an entry that waited for a board still waits, unless
                    // it is the one just taken out
                    assert forall|x: u64, bound: int| queued(ms0, x, bound) implies queued(
                        ms1,
                        x,
                        bound,
                    ) || x == kb by {
                        let w = choose|w: (Board, u32)| #[trigger]
                            ms0.count(w) > 0 && grid_key(w.0@) == x && w.1 <= bound;
                        if w != entry {
                            assert(ms1.count(w) > 0);
                        }
                    }
                    assert forall|e: (Board, u32)| #[trigger] ms1.count(e) > 0 implies ms0.count(e)
                        > 0 by {}
                }
                if expanded.contains(&kb) {
                    proof {
                        assert forall|k: u64, d: Direction|
                            expanded0.contains(k) implies #[trigger] closed_at(
                            ms1,
                            cost@,
                            heuristic,
                            expanded0,
                            k,
                            d,
                        ) by {
                            assert(closed_at(ms0, cost@, heuristic, expanded0, k, d));
                        }
                    }
                } else {
                    proof {
                        // the board taken out has its least cost: a shorter
                        // plan would have left a cheaper entry waiting
                        assert forall|plan: Seq<Direction>| #[trigger]
                            run_plan(init, plan) == Some(b@) implies cost@[kb] <= plan.len() by {
                            if count > 0 {
                                assert(plan.subrange(0, 0) =~= Seq::<Direction>::empty());
                                assert(plan.subrange(0, plan.len() as int) =~= plan);
                                lemma_crossing(
                                    ms0,
                                    cost@,
                                    heuristic,
                                    expanded0,
                                    gk,
                                    init,
                                    plan,
                                    0,
                                    init,
                                    b@,
                                );
                                let e = choose|e: (Board, u32)| #[trigger]
                                    ms0.count(e) > 0 && e.1 <= plan.len() + estimate_of(
                                        heuristic,
                                        b@,
                                    );
                                assert(entry.1 <= e.1);
                            } else {
                                assert(entry == first);
                            }
                        }
                        assert(no_shorter(init, grid_of_key(kb), cost@[kb] as int)) by {
                            reveal(no_shorter);
                        }
                    }
                    expanded.insert(kb);
                    proof {
                        assert(!seen.contains(kb as int));
                        seen = seen.insert(kb as int);
                        lemma_seen_bound(seen);
                    }
                    count = count + 1;
                    if kb == gk {
                        let path = reconstruct(&pred, &cost, ik, gk);
                        proof {
                            assert(run_plan(init, path@) == Some(goal_grid()));
                            assert(is_shortest(init, path@)) by {
                                reveal(no_shorter);
                            }
                        }
                        return (Some(path), count);
                    }
                    proof {
                        assert forall|k: u64, d: Direction|
                            expanded@.contains(k) && (k != kb || Set::<Direction>::empty().contains(
                                d,
                            )) implies #[trigger] closed_at(
                            ms1,
                            cost@,
                            heuristic,
                            expanded@,
                            k,
                            d,
                        ) by {
                            assert(closed_at(ms0, cost@, heuristic, expanded0, k, d));
                        }
                        assert(node_ok(cost@, gk, init, kb));
                    }
                    let ghost none: Set<Direction> = Set::empty();
                    relax(
                        &mut heap,
                        &mut cost,
                        &mut pred,
                        &expanded,
                        &b,
                        kb,
                        Direction::Up,
                        heuristic,
                        Ghost(count as int),
                        Ghost(ik),
                        Ghost(gk),
                        Ghost(first),
                        Ghost(none),
                    );
                    let ghost one = none.insert(Direction::Up);
                    relax(
                        &mut heap,
                        &mut cost,
                        &mut pred,
                        &expanded,
                        &b,
                        kb,
                        Direction::Down,
                        heuristic,
                        Ghost(count as int),
                        Ghost(ik),
                        Ghost(gk),
                        Ghost(first),
                        Ghost(one),
                    );
                    let ghost two = one.insert(Direction::Down);
                    relax(
                        &mut heap,
                        &mut cost,
                        &mut pred,
                        &expanded,
                        &b,
                        kb,
                        Direction::Left,
                        heuristic,
                        Ghost(count as int),
                        Ghost(ik),
                        Ghost(gk),
                        Ghost(first),
                        Ghost(two),
                    );
                    let ghost three = two.insert(Direction::Left);
                    relax(
                        &mut heap,
                        &mut cost,
                        &mut pred,
                        &expanded,
                        &b,
                        kb,
                        Direction::Right,
                        heuristic,
                        Ghost(count as int),
                        Ghost(ik),
                        Ghost(gk),
                        Ghost(first),
                        Ghost(three),
                    );
                    proof {
                        let four = three.insert(Direction::Right);
                        assert forall|k: u64, d: Direction|
                            expanded@.contains(k) implies #[trigger] closed_at(
                            heap@,
                            cost@,
                            heuristic,
                            expanded@,
                            k,
                            d,
                        ) by {
                            assert(four.contains(d));
                        }
                    }
                }
            },
        }
    }
}

/// Two shortest plans for one grid have the same length: every search from
/// one board, whatever the heuristic, returns a plan of the same length.
pub proof fn lemma_shortest_same_length(s: Seq<u8>, p: Seq<Direction>, q: Seq<Direction>)
    requires
        is_shortest(s, p),
        is_shortest(s, q),
    ensures
        p.len() == q.len(),
{
}

/// Searches for a shortest plan from `init_state` to the goal, guided by
/// the Manhattan estimate, and measures the time the search takes.
pub fn search(init_state: Board) -> (r: (Option<Vec<Direction>>, Stats))
    requires
        init_state.wf(),
    ensures
        match r.0 {
            Some(path) => is_shortest(init_state@, path@),
            None => !solvable(init_state@),
        },
        r.0 is Some <==> solvable(init_state@),
        1 <= r.1.expanded <= KEY_SPACE,
{
    let begun = clock_now();
    let (plan, expanded) = search_with(init_state, Heuristic::Manhattan);
    let stats = Stats::new(expanded, clock_elapsed(&begun));
    (plan, stats)
}

} // verus!
