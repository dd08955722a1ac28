use vstd::prelude::*;

use crate::graph::analyzer::dijkstra::{
    count_false, index_of_id, lemma_count_false_nonneg, lemma_count_false_update,
    lemma_dijkstra_optimal, lemma_note_weight, lemma_path_weight_nonneg, lemma_score_plus_ge,
    reversed,
};
use crate::graph::analyzer::min_weight::{score_le, score_lt, score_plus, Score};
use crate::graph::{alist_get, alist_map, alist_wf, path_weight, DiGraph};

verus! {

/// Walks predecessor entries backwards from `cur`, collecting the ids
/// front to back, until the walk reaches `start`, runs off the recorded
/// chain, or runs out of fuel. Unlike a trail, the collected ids are
/// returned even when the walk never reaches `start`.
pub open spec fn strict_walk(pm: Map<u64, u64>, start: u64, cur: u64, fuel: nat) -> Seq<u64>
    decreases fuel,
{
    if cur == start {
        seq![cur]
    } else if !pm.contains_key(cur) {
        seq![cur]
    } else if fuel == 0 {
        seq![cur]
    } else {
        strict_walk(pm, start, pm[cur], (fuel - 1) as nat).push(cur)
    }
}

/// Every predecessor entry of `pm` names a stored edge into a node
/// other than `start`, and `w` holds a weight for that edge that the
/// score function can return for its payload.
pub open spec fn edges_sampled<NL, EL, F: Fn(&EL) -> u64>(
    g: &DiGraph<NL, EL>,
    edge_w: F,
    start: u64,
    pm: Map<u64, u64>,
    w: Map<(u64, u64), u64>,
) -> bool {
    forall|v: u64| #[trigger]
        pm.contains_key(v) ==> v != start && g.has_edge(pm[v], v) && w.contains_key((pm[v], v))
            && call_ensures(edge_w, (&g.edge_payload(pm[v], v),), w[(pm[v], v)])
}

/// Every weight that `w` records is for a stored edge, and is a value
/// the score function can return for that edge's payload.
pub open spec fn weight_samples<NL, EL, F: Fn(&EL) -> u64>(
    g: &DiGraph<NL, EL>,
    edge_w: F,
    w: Map<(u64, u64), u64>,
) -> bool {
    forall|a: u64, b: u64| #[trigger]
        w.contains_key((a, b)) ==> g.has_edge(a, b) && call_ensures(
            edge_w,
            (&g.edge_payload(a, b),),
            w[(a, b)],
        )
}

/// Every weight that `w` records is for a stored edge and equals that
/// edge's payload.
pub open spec fn payload_weights<NL>(g: &DiGraph<NL, u64>, w: Map<(u64, u64), u64>) -> bool {
    forall|a: u64, b: u64| #[trigger]
        w.contains_key((a, b)) ==> g.has_edge(a, b) && w[(a, b)] == g.edge_payload(a, b)
}

/// The heuristic can only ever return zero.
pub open spec fn zero_heuristic<H: Fn(&u64) -> u64>(h: H) -> bool {
    forall|n: u64, r: u64| #[trigger] call_ensures(h, (&n,), r) ==> r == 0
}

/// Every stored path from `start` to `target` of representable weight
/// under `w` means the target was recorded, and the recorded walk back
/// from it weighs no more than that path.
pub open spec fn guided_optimal<NL, EL>(
    g: &DiGraph<NL, EL>,
    start: u64,
    target: u64,
    w: Map<(u64, u64), u64>,
    pm: Map<u64, u64>,
    fuel: nat,
) -> bool {
    forall|p: Seq<u64>| #[trigger]
        g.is_path(p) && p.first() == start && p.last() == target && path_weight(p, w) <= u64::MAX
            ==> pm.contains_key(target) && path_weight(strict_walk(pm, start, target, fuel), w)
            <= path_weight(p, w)
}

/// Law: two least-weight walks between the same endpoints weigh the
/// same, and are the same sequence whenever the least-weight route is
/// unique. In particular, under a zero heuristic the guided engine's
/// reconstructed walk and the uniform-cost engine's trail agree in
/// weight, and agree outright on graphs with one least-weight route.
pub proof fn lemma_least_weight_walks_agree<NL, EL>(
    g: &DiGraph<NL, EL>,
    w: Map<(u64, u64), u64>,
    s1: Seq<u64>,
    s2: Seq<u64>,
    start: u64,
    target: u64,
)
    requires
        g.is_path(s1) && s1.first() == start && s1.last() == target,
        g.is_path(s2) && s2.first() == start && s2.last() == target,
        path_weight(s1, w) <= u64::MAX,
        path_weight(s2, w) <= u64::MAX,
        forall|p: Seq<u64>| #[trigger]
            g.is_path(p) && p.first() == start && p.last() == target && path_weight(p, w)
                <= u64::MAX ==> path_weight(s1, w) <= path_weight(p, w),
        forall|p: Seq<u64>| #[trigger]
            g.is_path(p) && p.first() == start && p.last() == target && path_weight(p, w)
                <= u64::MAX ==> path_weight(s2, w) <= path_weight(p, w),
    ensures
        path_weight(s1, w) == path_weight(s2, w),
        (forall|p: Seq<u64>, q: Seq<u64>|
            (#[trigger] g.is_path(p) && p.first() == start && p.last() == target && path_weight(
                p,
                w,
            ) == path_weight(s1, w) && #[trigger] g.is_path(q) && q.first() == start && q.last()
                == target && path_weight(q, w) == path_weight(s1, w)) ==> p == q) ==> s1 == s2,
{
    assert(path_weight(s1, w) <= path_weight(s2, w));
    assert(path_weight(s2, w) <= path_weight(s1, w));
}

/// The weight of a path prefix, one step longer.
proof fn lemma_path_weight_take_step(p: Seq<u64>, w: Map<(u64, u64), u64>, j: int)
    requires
        1 <= j < p.len(),
    ensures
        path_weight(p.take(j + 1), w) == path_weight(p.take(j), w) + w[(p[j - 1], p[j])],
{
    let q = p.take(j + 1);
    assert(q.drop_last() =~= p.take(j));
    assert(q[q.len() - 2] == p[j - 1] && q[q.len() - 1] == p[j]);
}

/// A path weighs at least as much as any of its prefixes.
proof fn lemma_path_weight_take(p: Seq<u64>, w: Map<(u64, u64), u64>, j: int)
    requires
        1 <= j <= p.len(),
    ensures
        path_weight(p.take(j), w) <= path_weight(p, w),
    decreases p.len() - j,
{
    if j == p.len() {
        assert(p.take(j) =~= p);
    } else {
        lemma_path_weight_take_step(p, w, j);
        lemma_path_weight_take(p, w, j + 1);
    }
}

/// The total score order is transitive.
proof fn lemma_score_le_trans(a: Score, b: Score, c: Score)
    requires
        score_le(a, b),
        score_le(b, c),
    ensures
        score_le(a, c),
{
}

/// Some index of the tables carries `x` as a settled node.
spec fn settled_id(idsq: Seq<u64>, doneq: Seq<bool>, n: int, x: u64) -> bool {
    exists|i: int| 0 <= i < n && idsq[i] == x && doneq[i]
}

/// The first position on `p`, from `j` on, whose node is not settled.
/// One exists because the last node of `p` is not settled.
proof fn lemma_first_unsettled(
    idsq: Seq<u64>,
    doneq: Seq<bool>,
    n: int,
    p: Seq<u64>,
    j: int,
) -> (k: int)
    requires
        n == idsq.len(),
        n == doneq.len(),
        0 <= j < p.len(),
        forall|idx: int| 0 <= idx < j ==> settled_id(idsq, doneq, n, #[trigger] p[idx]),
        !settled_id(idsq, doneq, n, p[p.len() - 1]),
    ensures
        j <= k < p.len(),
        forall|idx: int| 0 <= idx < k ==> settled_id(idsq, doneq, n, #[trigger] p[idx]),
        !settled_id(idsq, doneq, n, p[k]),
    decreases p.len() - j,
{
    if settled_id(idsq, doneq, n, p[j]) {
        assert(j < p.len() - 1);
        assert forall|idx: int| 0 <= idx < j + 1 implies settled_id(
            idsq,
            doneq,
            n,
            #[trigger] p[idx],
        ) by {
            if idx < j {
                assert(settled_id(idsq, doneq, n, p[idx]));
            }
        }
        lemma_first_unsettled(idsq, doneq, n, p, j + 1)
    } else {
        j
    }
}

/// Along a path whose first `k` nodes are settled, every recorded
/// distance is bounded by the prefix weight, because settled nodes have
/// relaxed all of their edges.
proof fn lemma_settled_prefix_bound<NL, EL>(
    g: &DiGraph<NL, EL>,
    w: Map<(u64, u64), u64>,
    idsq: Seq<u64>,
    distq: Seq<Score>,
    doneq: Seq<bool>,
    n: int,
    start: u64,
    p: Seq<u64>,
    k: int,
)
    requires
        g.targets_known(),
        n == idsq.len(),
        n == distq.len(),
        n == doneq.len(),
        n >= 1,
        idsq[0] == start,
        forall|i: int, j: int| 0 <= i < j < n ==> idsq[i] != idsq[j],
        forall|x: u64| #[trigger] idsq.contains(x) <==> (x == start || g.node_ids().contains(x)),
        forall|i: int| 0 <= i < n ==> ((#[trigger] distq[i]) == Score::Zero <==> i == 0),
        forall|i: int, j: int|
            0 <= i < n && 0 <= j < n && doneq[i] && #[trigger] g.has_edge(idsq[i], idsq[j]) ==> (
            score_plus(distq[i], w[(idsq[i], idsq[j])]) matches Some(alt) ==> score_le(
                distq[j],
                alt,
            )),
        g.is_path(p),
        p.first() == start,
        path_weight(p, w) <= u64::MAX,
        0 <= k < p.len(),
        forall|idx: int| 0 <= idx < k ==> settled_id(idsq, doneq, n, #[trigger] p[idx]),
    ensures
        exists|t: int|
            0 <= t < n && idsq[t] == p[k] && score_le(
                #[trigger] distq[t],
                Score::Value(path_weight(p.take(k + 1), w) as u64),
            ),
    decreases k,
{
    lemma_path_weight_nonneg(p.take(k + 1), w);
    lemma_path_weight_take(p, w, k + 1);
    if k == 0 {
        assert(p.take(1).len() == 1);
        assert(path_weight(p.take(1), w) == 0);
        assert(p[0] == start && idsq[0] == start);
        assert(score_le(distq[0], Score::Value(path_weight(p.take(1), w) as u64)));
    } else {
        lemma_settled_prefix_bound(g, w, idsq, distq, doneq, n, start, p, k - 1);
        let t0 = choose|t: int|
            0 <= t < n && idsq[t] == p[k - 1] && score_le(
                #[trigger] distq[t],
                Score::Value(path_weight(p.take(k), w) as u64),
            );
        assert(settled_id(idsq, doneq, n, p[k - 1]));
        let i_s = choose|i: int| 0 <= i < n && idsq[i] == p[k - 1] && doneq[i];
        assert(i_s == t0);
        let ii = k - 1;
        assert(g.has_edge(p[ii], p[ii + 1]));
        assert(g.node_ids().contains(p[k]));
        assert(idsq.contains(p[k]));
        let tb = choose|t: int| 0 <= t < n && idsq[t] == p[k];
        assert(g.has_edge(idsq[t0], idsq[tb]));
        lemma_path_weight_take_step(p, w, k);
        lemma_path_weight_nonneg(p.take(k), w);
        let wk = path_weight(p.take(k), w);
        let wab = w[(p[k - 1], p[k])];
        match distq[t0] {
            Score::Zero => {
                assert(score_plus(distq[t0], wab) == Some(Score::Value(wab)));
                assert(score_le(distq[tb], Score::Value(wab)));
                assert(score_le(
                    Score::Value(wab),
                    Score::Value(path_weight(p.take(k + 1), w) as u64),
                ));
                lemma_score_le_trans(
                    distq[tb],
                    Score::Value(wab),
                    Score::Value(path_weight(p.take(k + 1), w) as u64),
                );
            },
            Score::Value(x) => {
                assert(x <= wk);
                assert(x + wab <= path_weight(p.take(k + 1), w) <= u64::MAX);
                assert(score_plus(distq[t0], wab) == Some(Score::Value((x + wab) as u64)));
                assert(score_le(distq[tb], Score::Value((x + wab) as u64)));
                lemma_score_le_trans(
                    distq[tb],
                    Score::Value((x + wab) as u64),
                    Score::Value(path_weight(p.take(k + 1), w) as u64),
                );
            },
            Score::Inf => {
                assert(false);
            },
        }
        assert(0 <= tb < n && idsq[tb] == p[k] && score_le(
            distq[tb],
            Score::Value(path_weight(p.take(k + 1), w) as u64),
        ));
    }
}

/// At the moment the target is selected from the frontier under a zero
/// heuristic, its recorded distance already undercuts every stored path
/// of representable weight: any such path crosses an unsettled node
/// whose recorded distance bounds the target's by the selection rule.
proof fn lemma_guided_found_optimal<NL, EL>(
    g: &DiGraph<NL, EL>,
    w: Map<(u64, u64), u64>,
    idsq: Seq<u64>,
    distq: Seq<Score>,
    doneq: Seq<bool>,
    fsq: Seq<Score>,
    n: int,
    start: u64,
    target: u64,
    best: int,
)
    requires
        g.targets_known(),
        n == idsq.len(),
        n == distq.len(),
        n == doneq.len(),
        n == fsq.len(),
        n >= 1,
        idsq[0] == start,
        target != start,
        forall|i: int, j: int| 0 <= i < j < n ==> idsq[i] != idsq[j],
        forall|x: u64| #[trigger] idsq.contains(x) <==> (x == start || g.node_ids().contains(x)),
        forall|i: int| 0 <= i < n ==> ((#[trigger] distq[i]) == Score::Zero <==> i == 0),
        forall|i: int| 0 <= i < n ==> ((#[trigger] fsq[i]) is Inf <==> distq[i] is Inf),
        !doneq[0] ==> forall|i: int| 1 <= i < n ==> (#[trigger] distq[i]) is Inf,
        forall|i: int, j: int|
            0 <= i < n && 0 <= j < n && doneq[i] && #[trigger] g.has_edge(idsq[i], idsq[j]) ==> (
            score_plus(distq[i], w[(idsq[i], idsq[j])]) matches Some(alt) ==> score_le(
                distq[j],
                alt,
            )),
        // a zero heuristic makes the frontier key the distance itself
        forall|i: int| 1 <= i < n ==> #[trigger] fsq[i] == distq[i],
        0 <= best < n,
        !doneq[best],
        idsq[best] == target,
        fsq[best] !is Inf,
        forall|j: int| 0 <= j < n && !doneq[j] ==> score_le(fsq[best], #[trigger] fsq[j]),
    ensures
        forall|p: Seq<u64>| #[trigger]
            g.is_path(p) && p.first() == start && p.last() == target && path_weight(p, w)
                <= u64::MAX ==> score_le(distq[best], Score::Value(path_weight(p, w) as u64)),
{
    assert(best != 0);
    assert forall|p: Seq<u64>| #[trigger]
        g.is_path(p) && p.first() == start && p.last() == target && path_weight(p, w)
            <= u64::MAX implies score_le(distq[best], Score::Value(path_weight(p, w) as u64)) by {
        assert(!settled_id(idsq, doneq, n, p[p.len() - 1])) by {
            if settled_id(idsq, doneq, n, p[p.len() - 1]) {
                let i = choose|i: int| 0 <= i < n && idsq[i] == p[p.len() - 1] && doneq[i];
                assert(i == best);
            }
        }
        let k = lemma_first_unsettled(idsq, doneq, n, p, 0);
        lemma_settled_prefix_bound(g, w, idsq, distq, doneq, n, start, p, k);
        let t = choose|t: int|
            0 <= t < n && idsq[t] == p[k] && score_le(
                #[trigger] distq[t],
                Score::Value(path_weight(p.take(k + 1), w) as u64),
            );
        assert(!doneq[t]) by {
            if doneq[t] {
                assert(settled_id(idsq, doneq, n, p[k]));
            }
        }
        assert(t != 0) by {
            if t == 0 {
                assert(!doneq[0]);
                assert(distq[best] is Inf);
                assert(fsq[best] is Inf);
            }
        }
        assert(score_le(fsq[best], fsq[t]));
        assert(fsq[best] == distq[best] && fsq[t] == distq[t]);
        lemma_path_weight_take(p, w, k + 1);
        lemma_path_weight_nonneg(p.take(k + 1), w);
        assert(score_le(
            Score::Value(path_weight(p.take(k + 1), w) as u64),
            Score::Value(path_weight(p, w) as u64),
        ));
        lemma_score_le_trans(
            distq[best],
            distq[t],
            Score::Value(path_weight(p.take(k + 1), w) as u64),
        );
        lemma_score_le_trans(
            distq[best],
            Score::Value(path_weight(p.take(k + 1), w) as u64),
            Score::Value(path_weight(p, w) as u64),
        );
    }
}

/// The shape the guided engine leaves its tables in: every predecessor
/// entry records a settled edge whose relaxation produced the exact
/// recorded distance, and predecessors settle strictly earlier under
/// `rank`. The searched-for node itself may still be unsettled.
spec fn guided_pred_wf<NL, EL>(
    g: &DiGraph<NL, EL>,
    w: Map<(u64, u64), u64>,
    dm: Map<u64, Score>,
    pm: Map<u64, u64>,
    rank: Map<u64, nat>,
    start: u64,
) -> bool {
    &&& dm.contains_key(start) && dm[start] == Score::Zero
    &&& forall|x: u64| #[trigger] dm.contains_key(x) ==> (dm[x] == Score::Zero <==> x == start)
    &&& forall|x: u64| #[trigger]
        dm.contains_key(x) && x != start && dm[x] is Value ==> pm.contains_key(x)
    &&& forall|x: u64| #[trigger]
        pm.contains_key(x) ==> {
            &&& dm.contains_key(x) && x != start && dm[x] is Value
            &&& g.has_edge(pm[x], x)
            &&& dm.contains_key(pm[x])
            &&& dm[pm[x]] !is Inf
            &&& score_plus(dm[pm[x]], w[(pm[x], x)]) == Some(dm[x])
            &&& (pm[x] != start ==> rank.contains_key(pm[x]) && 1 <= rank[pm[x]])
            &&& (pm[x] != start && rank.contains_key(x) ==> rank[pm[x]] < rank[x])
        }
}

/// Walking a well-formed predecessor table back from a recorded node,
/// with enough fuel, reaches the start along stored edges whose weights
/// add up to the node's recorded distance.
proof fn lemma_strict_walk_sound<NL, EL>(
    g: &DiGraph<NL, EL>,
    w: Map<(u64, u64), u64>,
    dm: Map<u64, Score>,
    pm: Map<u64, u64>,
    rank: Map<u64, nat>,
    start: u64,
    v: u64,
    fuel: nat,
)
    requires
        guided_pred_wf(g, w, dm, pm, rank, start),
        pm.contains_key(v),
        fuel >= 1 + (if pm[v] == start {
            0nat
        } else {
            rank[pm[v]]
        }),
    ensures
        ({
            let s = strict_walk(pm, start, v, fuel);
            g.is_path(s) && s.first() == start && s.last() == v && s.len() >= 2 && path_weight(
                s,
                w,
            ) == dm[v]->0
        }),
    decreases (if pm[v] == start {
        0nat
    } else {
        rank[pm[v]]
    }),
{
    let u = pm[v];
    assert(v != start);
    assert(fuel >= 1);
    if u == start {
        assert(strict_walk(pm, start, u, (fuel - 1) as nat) == seq![start]);
        let s = strict_walk(pm, start, v, fuel);
        assert(s == seq![start].push(v));
        assert(s =~= seq![start, v]);
        assert forall|i: int| 0 <= i < s.len() - 1 implies #[trigger] g.has_edge(s[i], s[i + 1]) by {
            assert(g.has_edge(start, v));
        }
        assert(s.drop_last() =~= seq![start]);
        assert(path_weight(seq![start], w) == 0);
        assert(s[0] == start && s[1] == v);
        assert(path_weight(s, w) == path_weight(s.drop_last(), w) + w[(s[s.len() - 2], s[s.len()
            - 1])]);
        assert(score_plus(Score::Zero, w[(start, v)]) == Some(Score::Value(w[(start, v)])));
    } else {
        assert(dm[u] is Value);
        assert(pm.contains_key(u));
        assert(rank.contains_key(u));
        assert(pm[u] != start ==> rank[pm[u]] < rank[u]);
        lemma_strict_walk_sound(g, w, dm, pm, rank, start, u, (fuel - 1) as nat);
        let s0 = strict_walk(pm, start, u, (fuel - 1) as nat);
        let s = s0.push(v);
        assert(strict_walk(pm, start, v, fuel) == s);
        assert forall|i: int| 0 <= i < s.len() - 1 implies #[trigger] g.has_edge(s[i], s[i + 1]) by {
            if i < s0.len() - 1 {
                assert(g.has_edge(s0[i], s0[i + 1]));
            } else {
                assert(s[i] == u && s[i + 1] == v);
                assert(g.has_edge(u, v));
            }
        }
        assert(s.drop_last() =~= s0);
        assert(path_weight(s, w) == path_weight(s0, w) + w[(u, v)]);
        assert(dm[u]->0 == path_weight(s0, w));
        assert(score_plus(dm[u], w[(u, v)]) == Some(dm[v]));
    }
}

/// Packages the engine's exit state: the recorded predecessor table
/// holds sampled stored edges, walks back to the start from a reached
/// target with the recorded weight, covers the target whenever a stored
/// path of representable weight leads to it, and, when the frontier key
/// was the distance itself, reconstructs a least-weight walk.
#[verifier::rlimit(100)]
proof fn lemma_guided_finish<NL, EL, F: Fn(&EL) -> u64>(
    g: &DiGraph<NL, EL>,
    edge_w: F,
    start: u64,
    target: u64,
    n: int,
    idsq: Seq<u64>,
    distq: Seq<Score>,
    predq: Seq<Option<u64>>,
    doneq: Seq<bool>,
    fsq: Seq<Score>,
    w: Map<(u64, u64), u64>,
    rank: Map<u64, nat>,
    vord: Seq<u64>,
    pvg: Seq<(u64, u64)>,
    opt_cond: bool,
)
    requires
        g.targets_known(),
        target != start,
        n == idsq.len(),
        n == distq.len(),
        n == predq.len(),
        n == doneq.len(),
        n == fsq.len(),
        n >= 1,
        idsq[0] == start,
        forall|i: int, j: int| 0 <= i < j < n ==> idsq[i] != idsq[j],
        forall|x: u64| #[trigger] idsq.contains(x) <==> (x == start || g.node_ids().contains(x)),
        forall|i: int| 0 <= i < n ==> ((#[trigger] distq[i]) == Score::Zero <==> i == 0),
        forall|i: int| 0 <= i < n ==> ((#[trigger] fsq[i]) is Inf <==> distq[i] is Inf),
        forall|i: int| 0 <= i < n && doneq[i] ==> (#[trigger] distq[i]) !is Inf,
        opt_cond ==> forall|i: int, j: int|
            0 <= i < n && 0 <= j < n && doneq[i] && #[trigger] g.has_edge(idsq[i], idsq[j]) ==> (
            score_plus(distq[i], w[(idsq[i], idsq[j])]) matches Some(alt) ==> score_le(
                distq[j],
                alt,
            )),
        forall|i: int, b: u64|
            0 <= i < n && doneq[i] && #[trigger] g.has_edge(idsq[i], b) ==> w.contains_key(
                (idsq[i], b),
            ) && call_ensures(edge_w, (&g.edge_payload(idsq[i], b),), w[(idsq[i], b)]),
        forall|a: u64, b: u64| #[trigger]
            w.contains_key((a, b)) ==> g.has_edge(a, b) && call_ensures(
                edge_w,
                (&g.edge_payload(a, b),),
                w[(a, b)],
            ),
        forall|j: int|
            0 <= j < n && (#[trigger] predq[j]) is Some ==> j != 0 && distq[j] is Value
                && idsq.contains(predq[j]->0) && g.has_edge(predq[j]->0, idsq[j])
                && w.contains_key((predq[j]->0, idsq[j])),
        forall|i: int, j: int|
            0 <= i < n && 0 <= j < n && #[trigger] predq[j] == Some(#[trigger] idsq[i])
                ==> doneq[i] && score_plus(distq[i], w[(idsq[i], idsq[j])]) == Some(distq[j]),
        forall|j: int| 1 <= j < n ==> ((#[trigger] distq[j]) is Value <==> predq[j] is Some),
        predq[0] is None,
        forall|x: u64| #[trigger] rank.contains_key(x) ==> 1 <= rank[x] <= vord.len(),
        vord.no_duplicates(),
        forall|x: u64| #[trigger] rank.contains_key(x) <==> vord.contains(x),
        forall|i: int|
            0 <= i < n && doneq[i] && (#[trigger] distq[i]) is Value ==> rank.contains_key(
                idsq[i],
            ),
        forall|i: int|
            0 <= i < n && rank.contains_key(#[trigger] idsq[i]) ==> doneq[i] && distq[i] is Value,
        forall|t: int| 0 <= t < vord.len() ==> idsq.contains(#[trigger] vord[t]),
        forall|i: int, j: int|
            0 <= i < n && 0 <= j < n && doneq[j] && predq[j] == Some(#[trigger] idsq[i])
                && idsq[i] != start ==> rank.contains_key(idsq[i]) && rank.contains_key(
                #[trigger] idsq[j],
            ) && rank[idsq[i]] < rank[idsq[j]],
        (forall|i: int| 0 <= i < n && !doneq[i] ==> (#[trigger] fsq[i]) is Inf) || ((exists|i: int|
            0 <= i < n && idsq[i] == target && (#[trigger] distq[i]) is Value) && (opt_cond
            ==> forall|p: Seq<u64>| #[trigger]
                g.is_path(p) && p.first() == start && p.last() == target && path_weight(p, w)
                    <= u64::MAX ==> exists|i: int|
                    0 <= i < n && idsq[i] == target && score_le(
                        #[trigger] distq[i],
                        Score::Value(path_weight(p, w) as u64),
                    ))),
        alist_wf(pvg),
        forall|x: u64| #[trigger]
            alist_map(pvg).contains_key(x) <==> (exists|a: int|
                0 <= a < n && idsq[a] == x && predq[a] is Some),
        forall|a: int|
            0 <= a < n && (#[trigger] predq[a]) is Some ==> alist_map(pvg).contains_key(idsq[a])
                && alist_map(pvg)[idsq[a]] == predq[a]->0,
    ensures
        edges_sampled(g, edge_w, start, alist_map(pvg), w),
        weight_samples(g, edge_w, w),
        alist_map(pvg).contains_key(target) ==> ({
            let s = strict_walk(alist_map(pvg), start, target, pvg.len() as nat);
            g.is_path(s) && s.first() == start && s.last() == target
        }),
        opt_cond ==> guided_optimal(g, start, target, w, alist_map(pvg), pvg.len() as nat),
{
    let pm = alist_map(pvg);
    let dseq = Seq::new(n as nat, |i: int| (idsq[i], distq[i]));
    assert(alist_wf(dseq));
    let dm = alist_map(dseq);
    assert forall|x: u64| #[trigger] dm.contains_key(x) implies exists|a: int|
        0 <= a < n && idsq[a] == x by {
        crate::graph::lemma_alist_map_dom(dseq, x);
        let a = choose|a: int| 0 <= a < dseq.len() && dseq[a].0 == x;
        assert(idsq[a] == x);
    }
    assert forall|a: int| 0 <= a < n implies dm.contains_key(#[trigger] idsq[a]) && dm[idsq[a]]
        == distq[a] by {
        crate::graph::lemma_alist_map_index(dseq, a);
    }
    // the returned table's entries are stored, sampled edges
    assert forall|v: u64| #[trigger] pm.contains_key(v) implies v != start && g.has_edge(pm[v], v)
        && w.contains_key((pm[v], v)) && call_ensures(
        edge_w,
        (&g.edge_payload(pm[v], v),),
        w[(pm[v], v)],
    ) by {
        let a = choose|a: int| 0 <= a < n && idsq[a] == v && predq[a] is Some;
        assert(pm[v] == predq[a]->0);
    }
    assert(edges_sampled(g, edge_w, start, pm, w));
    // the walk back from a reached target is a stored path
    assert(guided_pred_wf(g, w, dm, pm, rank, start)) by {
        assert forall|x: u64| #[trigger]
            dm.contains_key(x) && x != start && dm[x] is Value implies pm.contains_key(x) by {
            let a = choose|a: int| 0 <= a < n && idsq[a] == x;
            assert(dm[x] == distq[a]);
            assert(predq[a] is Some);
        }
        assert forall|x: u64| #[trigger] pm.contains_key(x) implies {
            &&& dm.contains_key(x) && x != start && dm[x] is Value
            &&& g.has_edge(pm[x], x)
            &&& dm.contains_key(pm[x])
            &&& dm[pm[x]] !is Inf
            &&& score_plus(dm[pm[x]], w[(pm[x], x)]) == Some(dm[x])
            &&& (pm[x] != start ==> rank.contains_key(pm[x]) && 1 <= rank[pm[x]])
            &&& (pm[x] != start && rank.contains_key(x) ==> rank[pm[x]] < rank[x])
        } by {
            let a = choose|a: int| 0 <= a < n && idsq[a] == x && predq[a] is Some;
            assert(pm[x] == predq[a]->0);
            assert(dm[x] == distq[a]);
            let uu = predq[a]->0;
            assert(idsq.contains(uu));
            let kk = choose|kk: int| 0 <= kk < n && idsq[kk] == uu;
            assert(predq[a] == Some(idsq[kk]));
            assert(doneq[kk]);
            assert(score_plus(distq[kk], w[(idsq[kk], idsq[a])]) == Some(distq[a]));
            assert(distq[kk] !is Inf);
            assert(dm.contains_key(uu) && dm[uu] == distq[kk]);
            if uu != start {
                assert(distq[kk] is Value);
                assert(rank.contains_key(idsq[kk]));
            }
            if uu != start && rank.contains_key(x) {
                assert(rank.contains_key(idsq[a]));
                assert(doneq[a]);
                assert(rank[idsq[kk]] < rank[idsq[a]]);
            }
        }
    }
    assert(vord.to_set().subset_of(pm.dom())) by {
        assert forall|x: u64| #[trigger] vord.to_set().contains(x) implies pm.contains_key(x) by {
            assert(vord.contains(x));
            assert(rank.contains_key(x));
            let t = choose|t: int| 0 <= t < vord.len() && vord[t] == x;
            assert(idsq.contains(vord[t]));
            let a = choose|a: int| 0 <= a < n && idsq[a] == x;
            assert(rank.contains_key(idsq[a]));
            assert(distq[a] is Value);
            if x != start {
                assert(predq[a] is Some);
                assert(pm.contains_key(x));
            } else {
                assert(distq[a] == distq[0]);
            }
        }
    }
    if pm.contains_key(target) {
        crate::graph::lemma_alist_dom_len(pvg);
        vord.unique_seq_to_set();
        let u = pm[target];
        if u != start {
            assert(rank.contains_key(u));
            if rank.contains_key(target) {
                vstd::set_lib::lemma_len_subset(vord.to_set(), pm.dom());
                assert(rank[u] < rank[target]);
                assert(1 + rank[u] <= vord.len() <= pvg.len());
            } else {
                assert(!vord.contains(target));
                assert(!vord.to_set().contains(target));
                broadcast use vstd::seq_lib::seq_to_set_is_finite;

                assert(vord.to_set().insert(target).len() == vord.len() + 1);
                assert(vord.to_set().insert(target).subset_of(pm.dom()));
                vstd::set_lib::lemma_len_subset(vord.to_set().insert(target), pm.dom());
                assert(1 + rank[u] <= vord.len() + 1 <= pvg.len());
            }
        } else {
            vstd::set_lib::lemma_len_subset(vord.to_set(), pm.dom());
            assert(pm.dom().contains(target));
            assert(pm.dom().len() >= 1) by {
                vstd::set_lib::lemma_len_subset(Set::empty().insert(target), pm.dom());
            }
            assert(pvg.len() >= 1);
        }
        lemma_strict_walk_sound(g, w, dm, pm, rank, start, target, pvg.len() as nat);
    }
    // once no reached node is left unexpanded, the tables satisfy the
    // relaxation triangle everywhere, so every stored path bounds the
    // recorded distance of its endpoint
    let exhausted = forall|i: int| 0 <= i < n && !doneq[i] ==> (#[trigger] fsq[i]) is Inf;
    if opt_cond && exhausted {
        assert(dm.dom() =~= g.node_ids().insert(start)) by {
            assert forall|x: u64| #[trigger] dm.dom().contains(x) implies g.node_ids().insert(
                start,
            ).contains(x) by {
                let a = choose|a: int| 0 <= a < n && idsq[a] == x;
                assert(idsq.contains(x));
            }
            assert forall|x: u64| #[trigger]
                g.node_ids().insert(start).contains(x) implies dm.dom().contains(x) by {
                assert(idsq.contains(x));
                let a = choose|a: int| 0 <= a < n && idsq[a] == x;
                assert(dm.contains_key(idsq[a]));
            }
        }
        assert forall|a: u64, c: u64|
            dm.contains_key(a) && #[trigger] g.has_edge(a, c) && dm.contains_key(c) implies (
        score_plus(dm[a], w[(a, c)]) matches Some(alt) ==> score_le(dm[c], alt)) by {
            let aa = choose|aa: int| 0 <= aa < n && idsq[aa] == a;
            let cc = choose|cc: int| 0 <= cc < n && idsq[cc] == c;
            assert(dm[a] == distq[aa] && dm[c] == distq[cc]);
            if doneq[aa] {
                assert(g.has_edge(idsq[aa], idsq[cc]));
            } else {
                assert(fsq[aa] is Inf);
                assert(distq[aa] is Inf);
            }
        }
    }
    // under the distance-keyed frontier, a representable stored path
    // forces the target's distance down to a finite value, and so into
    // the predecessor table, with a walk at least as light
    if opt_cond {
        assert forall|p: Seq<u64>| #[trigger]
            g.is_path(p) && p.first() == start && p.last() == target && path_weight(p, w)
                <= u64::MAX implies pm.contains_key(target) && path_weight(
            strict_walk(pm, start, target, pvg.len() as nat),
            w,
        ) <= path_weight(p, w) by {
            lemma_path_weight_nonneg(p, w);
            if exhausted {
                lemma_dijkstra_optimal(g, w, dm, start, p);
                let a = choose|a: int| 0 <= a < n && idsq[a] == target;
                assert(dm[target] == distq[a]);
                assert(score_le(distq[a], Score::Value(path_weight(p, w) as u64)));
                assert(a != 0);
                assert(distq[a] is Value);
                assert(predq[a] is Some);
                assert(pm.contains_key(target));
                assert(path_weight(strict_walk(pm, start, target, pvg.len() as nat), w) == dm[
                    target
                ]->0);
            } else {
                let i = choose|i: int|
                    0 <= i < n && idsq[i] == target && (#[trigger] distq[i]) is Value;
                assert(predq[i] is Some);
                assert(pm.contains_key(target));
                let t = choose|t: int|
                    0 <= t < n && idsq[t] == target && score_le(
                        #[trigger] distq[t],
                        Score::Value(path_weight(p, w) as u64),
                    );
                assert(t == i);
                assert(dm[target] == distq[i]);
                assert(path_weight(strict_walk(pm, start, target, pvg.len() as nat), w) == dm[
                    target
                ]->0);
            }
        }
        assert(guided_optimal(g, start, target, w, pm, pvg.len() as nat));
    }
}

/// The predecessors one heuristic-guided run recorded between one
/// source and one target.
pub struct MinPathStrict {
    pub path: Vec<(u64, u64)>,
    pub start: u64,
    pub target: u64,
}

impl MinPathStrict {
    /// Distinct keys in the predecessor table.
    pub open spec fn wf(&self) -> bool {
        alist_wf(self.path@)
    }

    /// The predecessor table.
    pub open spec fn path_map(&self) -> Map<u64, u64> {
        alist_map(self.path@)
    }

    /// What [`MinPathStrict::path`] returns: empty when nothing was
    /// recorded, else the backward walk from the target.
    pub open spec fn path_spec(&self) -> Seq<u64> {
        if self.path@.len() == 0 {
            Seq::empty()
        } else {
            strict_walk(self.path_map(), self.start, self.target, self.path@.len() as nat)
        }
    }

    /// The recorded walk from the source towards the target, front to
    /// back: empty when nothing was recorded, else the predecessor
    /// chain of the target, which begins at the source exactly when the
    /// chain reaches back to it.
    pub fn path(&self) -> (r: Vec<u64>)
        requires
            self.wf(),
        ensures
            r@ == self.path_spec(),
    {
        if self.path.len() == 0 {
            let r: Vec<u64> = Vec::new();
            proof {
                assert(r@ =~= self.path_spec());
            }
            return r;
        }
        let ghost pm = self.path_map();
        let fuel = self.path.len();
        let mut cur: u64 = self.target;
        let mut rev: Vec<u64> = Vec::new();
        let mut steps: usize = 0;
        proof {
            assert(rev@.reverse() =~= Seq::<u64>::empty());
        }
        loop
            invariant_except_break
                strict_walk(pm, self.start, self.target, fuel as nat) == strict_walk(
                    pm,
                    self.start,
                    cur,
                    (fuel - steps) as nat,
                ) + rev@.reverse(),
            invariant
                self.wf(),
                pm == self.path_map(),
                fuel == self.path@.len(),
                fuel >= 1,
                steps <= fuel,
            ensures
                strict_walk(pm, self.start, self.target, fuel as nat) == rev@.reverse(),
            decreases fuel - steps,
        {
            let ghost fleft = (fuel - steps) as nat;
            let ghost rev0 = rev@;
            let ghost cur0 = cur;
            if cur == self.start {
                rev.push(cur);
                proof {
                    assert(strict_walk(pm, self.start, cur0, fleft) == seq![cur0]);
                    assert(seq![cur0] + rev0.reverse() =~= rev@.reverse());
                }
                break ;
            }
            match alist_get(&self.path, cur) {
                None => {
                    rev.push(cur);
                    proof {
                        assert(strict_walk(pm, self.start, cur0, fleft) == seq![cur0]);
                        assert(seq![cur0] + rev0.reverse() =~= rev@.reverse());
                    }
                    break ;
                },
                Some(p) => {
                    if steps == fuel {
                        rev.push(cur);
                        proof {
                            assert(strict_walk(pm, self.start, cur0, 0) == seq![cur0]);
                            assert(seq![cur0] + rev0.reverse() =~= rev@.reverse());
                        }
                        break ;
                    }
                    let pv = *p;
                    rev.push(cur);
                    steps += 1;
                    proof {
                        assert(strict_walk(pm, self.start, cur0, fleft) == strict_walk(
                            pm,
                            self.start,
                            pv,
                            (fleft - 1) as nat,
                        ).push(cur0));
                        assert(strict_walk(pm, self.start, pv, (fleft - 1) as nat).push(cur0)
                            + rev0.reverse() =~= strict_walk(pm, self.start, pv, (fleft - 1) as nat)
                            + rev@.reverse());
                    }
                    cur = pv;
                },
            }
        }
        let out = reversed(&rev);
        out
    }
}

/// Heuristic-guided shortest-path search over a borrowed graph.
pub struct AStarPath<'a, NL, EL> {
    pub graph: &'a DiGraph<NL, EL>,
}

impl<'a, NL, EL> AStarPath<'a, NL, EL> {
    pub fn new(graph: &'a DiGraph<NL, EL>) -> (r: Self)
        ensures
            r.graph == graph,
    {
        Self { graph }
    }

    /// Runs the guided relaxation search from `start` towards `target`,
    /// scoring edges by `edge_w` and ordering the frontier by recorded
    /// distance plus `heuristic`. It returns at once when the target is
    /// the start, returns as soon as `target` is selected, and
    /// otherwise stops once no reached node is left to expand. Every
    /// recorded predecessor entry is a stored, sampled edge; the walk
    /// back from `target`, once it was reached, is a path of the graph
    /// from `start` to `target`; `target` is reached whenever a stored
    /// path of representable weight leads to it; and under a zero
    /// heuristic that walk weighs no more than any such path.
    /// Candidate distances beyond `u64::MAX` are left unrecorded.
    #[verifier::rlimit(100)]
    pub fn on_edge_custom<H: Fn(&u64) -> u64, F: Fn(&EL) -> u64>(
        &self,
        start: u64,
        target: u64,
        heuristic: H,
        edge_w: F,
    ) -> (r: MinPathStrict)
        requires
            self.graph.wf(),
            self.graph.targets_known(),
            call_requires(heuristic, (&start,)),
            forall|nn: u64| #[trigger]
                self.graph.node_ids().contains(nn) ==> call_requires(heuristic, (&nn,)),
            forall|el: EL| call_requires(edge_w, (&el,)),
        ensures
            r.wf(),
            r.start == start,
            r.target == target,
            start == target ==> r.path@.len() == 0 && r.path_map() == Map::<u64, u64>::empty(),
            r.path_map().contains_key(target) ==> ({
                let s = strict_walk(r.path_map(), start, target, r.path@.len() as nat);
                self.graph.is_path(s) && s.first() == start && s.last() == target
            }),
            exists|w: Map<(u64, u64), u64>|
                {
                    &&& #[trigger] edges_sampled(self.graph, edge_w, start, r.path_map(), w)
                    &&& weight_samples(self.graph, edge_w, w)
                    &&& target != start && zero_heuristic(heuristic) ==> guided_optimal(
                        self.graph,
                        start,
                        target,
                        w,
                        r.path_map(),
                        r.path@.len() as nat,
                    )
                },
    {
        let g = self.graph;
        if start == target {
            // the first frontier selection would be the start itself,
            // so nothing is ever recorded
            let r = MinPathStrict { path: Vec::new(), start, target };
            proof {
                let w = Map::<(u64, u64), u64>::empty();
                assert(r.path_map() =~= Map::<u64, u64>::empty());
                assert(edges_sampled(g, edge_w, start, r.path_map(), w));
                assert(weight_samples(g, edge_w, w));
            }
            return r;
        }
        let mut ids: Vec<u64> = Vec::new();
        let mut dist: Vec<Score> = Vec::new();
        let mut pred: Vec<Option<u64>> = Vec::new();
        let mut done: Vec<bool> = Vec::new();
        ids.push(start);
        dist.push(Score::Zero);
        pred.push(None);
        done.push(false);
        proof {
            assert forall|x: u64| #[trigger] ids@.contains(x) implies x == start by {
                let i = choose|i: int| 0 <= i < ids@.len() && ids@[i] == x;
            }
            assert(ids@[0] == start);
        }
        let mut k: usize = 0;
        while k < g.nodes.len()
            invariant
                g == self.graph,
                g.wf(),
                ids@.len() >= 1,
                ids@[0] == start,
                dist@.len() == ids@.len(),
                pred@.len() == ids@.len(),
                done@.len() == ids@.len(),
                dist@[0] == Score::Zero,
                forall|i: int| 1 <= i < ids@.len() ==> #[trigger] dist@[i] == Score::Inf,
                forall|i: int| 0 <= i < ids@.len() ==> (#[trigger] pred@[i]) is None,
                forall|i: int| 0 <= i < ids@.len() ==> #[trigger] done@[i] == false,
                forall|i: int, j: int| 0 <= i < j < ids@.len() ==> ids@[i] != ids@[j],
                k <= g.nodes@.len(),
                forall|x: u64| #[trigger]
                    ids@.contains(x) <==> (x == start || exists|j: int|
                        0 <= j < k && g.nodes@[j].0 == x),
            decreases g.nodes@.len() - k,
        {
            let ghost ids0 = ids@;
            let id = g.nodes[k].0;
            if id != start {
                proof {
                    if ids0.contains(id) {
                        let j = choose|j: int| 0 <= j < k && g.nodes@[j].0 == id;
                        assert(g.nodes@[j].0 == g.nodes@[k as int].0);
                        assert(false);
                    }
                }
                ids.push(id);
                dist.push(Score::Inf);
                pred.push(None);
                done.push(false);
            }
            k += 1;
            proof {
                assert forall|x: u64| #[trigger] ids@.contains(x) implies (x == start || exists|
                    j: int,
                |
                    0 <= j < k && g.nodes@[j].0 == x) by {
                    let i = choose|i: int| 0 <= i < ids@.len() && ids@[i] == x;
                    if i < ids0.len() {
                        assert(ids0[i] == x);
                        assert(ids0.contains(x));
                    } else {
                        assert(g.nodes@[k - 1].0 == x);
                    }
                }
                assert forall|x: u64|
                    x == start || (exists|j: int| 0 <= j < k && g.nodes@[j].0 == x) implies #[trigger] ids@.contains(
                    x,
                ) by {
                    if x == start {
                        assert(ids@[0] == x);
                    } else {
                        let j = choose|j: int| 0 <= j < k && g.nodes@[j].0 == x;
                        if j < k - 1 {
                            assert(ids0.contains(x));
                            let i = choose|i: int| 0 <= i < ids0.len() && ids0[i] == x;
                            assert(ids@[i] == x);
                        } else {
                            if x != start {
                                assert(ids@[ids@.len() - 1] == x);
                            }
                        }
                    }
                }
            }
        }
        proof {
            assert forall|x: u64| #[trigger]
                ids@.contains(x) <==> (x == start || g.node_ids().contains(x)) by {
                crate::graph::lemma_alist_map_dom(g.nodes@, x);
            }
        }
        let n = ids.len();
        // sample the heuristic once per node; the frontier is keyed by
        // recorded distance plus heuristic
        let mut hs: Vec<u64> = Vec::new();
        let mut hi: usize = 0;
        while hi < n
            invariant
                n == ids@.len(),
                hi <= n,
                hs@.len() == hi,
                ids@[0] == start,
                call_requires(heuristic, (&start,)),
                forall|nn: u64| #[trigger]
                    g.node_ids().contains(nn) ==> call_requires(heuristic, (&nn,)),
                forall|x: u64| #[trigger]
                    ids@.contains(x) <==> (x == start || g.node_ids().contains(x)),
                forall|i: int|
                    0 <= i < hi ==> call_ensures(heuristic, (&ids@[i],), #[trigger] hs@[i]),
            decreases n - hi,
        {
            proof {
                assert(ids@.contains(ids@[hi as int]));
            }
            hs.push(heuristic(&ids[hi]));
            hi += 1;
        }
        let mut fs: Vec<Score> = Vec::new();
        let mut fi: usize = 0;
        while fi < n
            invariant
                n == ids@.len(),
                n == dist@.len(),
                n == hs@.len(),
                fi <= n,
                fs@.len() == fi,
                ids@[0] == start,
                dist@[0] == Score::Zero,
                forall|i: int| 1 <= i < n ==> #[trigger] dist@[i] == Score::Inf,
                forall|i: int| 0 <= i < fi ==> ((#[trigger] fs@[i]) is Inf <==> dist@[i] is Inf),
                fi >= 1 ==> fs@[0] == Score::Value(hs@[0]),
            decreases n - fi,
        {
            if fi == 0 {
                fs.push(Score::Value(hs[0]));
            } else {
                fs.push(Score::Inf);
            }
            fi += 1;
        }
        let ghost mut w: Map<(u64, u64), u64> = Map::empty();
        let ghost mut rank: Map<u64, nat> = Map::empty();
        let ghost mut vord: Seq<u64> = Seq::empty();
        proof {
            lemma_count_false_nonneg(done@);
        }
        loop
            invariant
                g == self.graph,
                g.wf(),
                g.targets_known(),
                target != start,
                forall|el: EL| call_requires(edge_w, (&el,)),
                n == ids@.len(),
                n == dist@.len(),
                n == pred@.len(),
                n == done@.len(),
                n == fs@.len(),
                n == hs@.len(),
                n >= 1,
                ids@[0] == start,
                forall|i: int, j: int| 0 <= i < j < n ==> ids@[i] != ids@[j],
                forall|x: u64| #[trigger]
                    ids@.contains(x) <==> (x == start || g.node_ids().contains(x)),
                forall|i: int| 0 <= i < n ==> ((#[trigger] dist@[i]) == Score::Zero <==> i == 0),
                forall|i: int| 0 <= i < n ==> ((#[trigger] fs@[i]) is Inf <==> dist@[i] is Inf),
                forall|i: int| 0 <= i < n && done@[i] ==> (#[trigger] dist@[i]) !is Inf,
                forall|i: int|
                    0 <= i < n ==> call_ensures(heuristic, (&ids@[i],), #[trigger] hs@[i]),
                fs@[0] == Score::Value(hs@[0]),
                !done@[0] ==> forall|i: int| 1 <= i < n ==> (#[trigger] dist@[i]) is Inf,
                zero_heuristic(heuristic) ==> forall|i: int, j: int|
                    0 <= i < n && 0 <= j < n && done@[i] && #[trigger] g.has_edge(
                        ids@[i],
                        ids@[j],
                    ) ==> (score_plus(dist@[i], w[(ids@[i], ids@[j])]) matches Some(alt)
                        ==> score_le(dist@[j], alt)),
                forall|i: int, b: u64|
                    0 <= i < n && done@[i] && #[trigger] g.has_edge(ids@[i], b)
                        ==> w.contains_key((ids@[i], b)) && call_ensures(
                        edge_w,
                        (&g.edge_payload(ids@[i], b),),
                        w[(ids@[i], b)],
                    ),
                forall|a: u64, b: u64| #[trigger]
                    w.contains_key((a, b)) ==> g.has_edge(a, b) && call_ensures(
                        edge_w,
                        (&g.edge_payload(a, b),),
                        w[(a, b)],
                    ),
                forall|i: int, b: u64|
                    0 <= i < n && !done@[i] ==> !(#[trigger] w.contains_key(
                        (#[trigger] ids@[i], b),
                    )),
                forall|j: int|
                    0 <= j < n && (#[trigger] pred@[j]) is Some ==> j != 0 && dist@[j] is Value
                        && ids@.contains(pred@[j]->0) && g.has_edge(pred@[j]->0, ids@[j])
                        && w.contains_key((pred@[j]->0, ids@[j])),
                forall|i: int, j: int|
                    0 <= i < n && 0 <= j < n && #[trigger] pred@[j] == Some(#[trigger] ids@[i])
                        ==> done@[i] && score_plus(dist@[i], w[(ids@[i], ids@[j])]) == Some(
                        dist@[j],
                    ),
                forall|j: int| 1 <= j < n ==> ((#[trigger] dist@[j]) is Value <==> pred@[j] is Some),
                pred@[0] is None,
                forall|x: u64| #[trigger] rank.contains_key(x) ==> 1 <= rank[x] <= vord.len(),
                vord.no_duplicates(),
                forall|x: u64| #[trigger] rank.contains_key(x) <==> vord.contains(x),
                forall|i: int| 0 <= i < n && !done@[i] ==> !rank.contains_key(#[trigger] ids@[i]),
                forall|i: int|
                    0 <= i < n && done@[i] && (#[trigger] dist@[i]) is Value ==> rank.contains_key(
                        ids@[i],
                    ),
                forall|i: int|
                    0 <= i < n && rank.contains_key(#[trigger] ids@[i]) ==> done@[i]
                        && dist@[i] is Value,
                forall|t: int| 0 <= t < vord.len() ==> ids@.contains(#[trigger] vord[t]),
                forall|i: int, j: int|
                    0 <= i < n && 0 <= j < n && done@[j] && pred@[j] == Some(#[trigger] ids@[i])
                        && ids@[i] != start ==> rank.contains_key(ids@[i]) && rank.contains_key(
                        #[trigger] ids@[j],
                    ) && rank[ids@[i]] < rank[ids@[j]],
                zero_heuristic(heuristic) ==> forall|i: int|
                    1 <= i < n ==> #[trigger] fs@[i] == dist@[i],
                zero_heuristic(heuristic) ==> forall|i: int, j: int|
                    0 <= i < n && 0 <= j < n && done@[i] && !done@[j] ==> score_le(
                        #[trigger] dist@[i],
                        #[trigger] dist@[j],
                    ),
                count_false(done@) >= 0,
            ensures
                (forall|i: int| 0 <= i < n && !done@[i] ==> (#[trigger] fs@[i]) is Inf) || ((exists|
                    i: int,
                |
                    0 <= i < n && ids@[i] == target && (#[trigger] dist@[i]) is Value) && (
                zero_heuristic(heuristic) ==> forall|p: Seq<u64>| #[trigger]
                    g.is_path(p) && p.first() == start && p.last() == target && path_weight(p, w)
                        <= u64::MAX ==> exists|i: int|
                        0 <= i < n && ids@[i] == target && score_le(
                            #[trigger] dist@[i],
                            Score::Value(path_weight(p, w) as u64),
                        ))),
            decreases count_false(done@),
        {
            // select a reached, unsettled node of least estimate
            let mut best: usize = n;
            let mut bi: usize = 0;
            while bi < n
                invariant
                    n == ids@.len(),
                    n == fs@.len(),
                    n == done@.len(),
                    bi <= n,
                    best == n || (best < n && !done@[best as int]),
                    best == n ==> forall|j: int| 0 <= j < bi ==> #[trigger] done@[j],
                    best < n ==> forall|j: int|
                        0 <= j < bi && !done@[j] ==> score_le(fs@[best as int], #[trigger] fs@[j]),
                decreases n - bi,
            {
                if !done[bi] {
                    if best == n {
                        best = bi;
                    } else if fs[bi].less(&fs[best]) {
                        best = bi;
                    }
                }
                bi += 1;
            }
            let reached = if best == n {
                false
            } else {
                match fs[best] {
                    Score::Inf => false,
                    _ => true,
                }
            };
            if !reached {
                proof {
                    assert forall|i: int| 0 <= i < n && !done@[i] implies (#[trigger] fs@[i])
                        is Inf by {
                        if best < n {
                            assert(score_le(fs@[best as int], fs@[i]));
                        }
                    }
                }
                break ;
            }
            if ids[best] == target {
                proof {
                    assert(best != 0);
                    assert(dist@[best as int] is Value);
                    if zero_heuristic(heuristic) {
                        lemma_guided_found_optimal(
                            g,
                            w,
                            ids@,
                            dist@,
                            done@,
                            fs@,
                            n as int,
                            start,
                            target,
                            best as int,
                        );
                    }
                }
                break ;
            }
            let ghost done0 = done@;
            done[best] = true;
            proof {
                lemma_count_false_update(done0, best as int);
                lemma_count_false_nonneg(done@);
                assert(done@[0]) by {
                    if best != 0 && !done0[0] {
                        assert(dist@[best as int] is Inf);
                        assert(fs@[best as int] is Inf);
                    }
                }
                if zero_heuristic(heuristic) {
                    assert forall|i: int, j: int|
                        0 <= i < n && 0 <= j < n && done@[i] && !done@[j] implies score_le(
                        #[trigger] dist@[i],
                        #[trigger] dist@[j],
                    ) by {
                        if i == best as int {
                            assert(score_le(fs@[best as int], fs@[j]));
                            if best == 0 {
                                assert(dist@[0] == Score::Zero);
                            } else {
                                assert(done0[0]);
                                assert(fs@[best as int] == dist@[best as int]);
                                if j == 0 {
                                    assert(false);
                                } else {
                                    assert(fs@[j] == dist@[j]);
                                }
                            }
                        }
                    }
                }
                if dist@[best as int] is Value {
                    assert(!rank.contains_key(ids@[best as int]));
                    let rank0 = rank;
                    let vord0 = vord;
                    rank = rank.insert(ids@[best as int], (vord.len() + 1) as nat);
                    vord = vord.push(ids@[best as int]);
                    assert(vord.drop_last() =~= vord0);
                    assert forall|t: int| 0 <= t < vord.len() implies ids@.contains(
                        #[trigger] vord[t],
                    ) by {
                        if t == vord.len() - 1 {
                            assert(vord[t] == ids@[best as int]);
                        } else {
                            assert(vord0[t] == vord[t]);
                        }
                    }
                    assert forall|x: u64| #[trigger] rank.contains_key(x) implies vord.contains(
                        x,
                    ) by {
                        if x == ids@[best as int] {
                            assert(vord[vord.len() - 1] == x);
                        } else {
                            assert(rank0.contains_key(x));
                            assert(vord0.contains(x));
                            let t = choose|t: int| 0 <= t < vord0.len() && vord0[t] == x;
                            assert(vord[t] == x);
                        }
                    }
                    assert forall|x: u64| vord.contains(x) implies #[trigger] rank.contains_key(
                        x,
                    ) by {
                        let t = choose|t: int| 0 <= t < vord.len() && vord[t] == x;
                        if t < vord.len() - 1 {
                            assert(vord0[t] == x);
                            assert(vord0.contains(x));
                            assert(rank0.contains_key(x));
                        }
                    }
                    if pred@[best as int] is Some {
                        let uu = pred@[best as int]->0;
                        if uu != start {
                            let i = choose|i: int| 0 <= i < n && ids@[i] == uu;
                            assert(pred@[best as int] == Some(ids@[i]));
                            assert(done0[i]);
                            assert(score_plus(dist@[i], w[(ids@[i], ids@[best as int])]) == Some(
                                dist@[best as int],
                            ));
                            assert(dist@[i] is Value);
                            assert(rank.contains_key(uu));
                        }
                    }
                }
            }
            // relax the settled node's outgoing edges
            let u = ids[best];
            let du = dist[best];
            match g.descendants(u) {
                None => {
                    proof {
                        assert forall|i: int, b: u64|
                            0 <= i < n && done@[i] && #[trigger] g.has_edge(
                                ids@[i],
                                b,
                            ) implies w.contains_key((ids@[i], b)) && call_ensures(
                            edge_w,
                            (&g.edge_payload(ids@[i], b),),
                            w[(ids@[i], b)],
                        ) by {
                            if i == best as int {
                                assert(g.edge_map().contains_key(u));
                                assert(false);
                            } else {
                                assert(done0[i]);
                            }
                        }
                    }
                },
                Some(row) => {
                    proof {
                        assert forall|bb: u64| !(#[trigger] w.contains_key((u, bb))) by {
                            assert(!done0[best as int]);
                        }
                    }
                    let mut j: usize = 0;
                    while j < row.len()
                        invariant
                            g == self.graph,
                            g.wf(),
                            g.targets_known(),
                            forall|el: EL| call_requires(edge_w, (&el,)),
                            n == ids@.len(),
                            n == dist@.len(),
                            n == pred@.len(),
                            n == done@.len(),
                            n == fs@.len(),
                            n == hs@.len(),
                            n >= 1,
                            ids@[0] == start,
                            done@[0],
                            forall|i: int, jx: int| 0 <= i < jx < n ==> ids@[i] != ids@[jx],
                            forall|x: u64| #[trigger]
                                ids@.contains(x) <==> (x == start || g.node_ids().contains(x)),
                            forall|i: int|
                                0 <= i < n ==> ((#[trigger] dist@[i]) == Score::Zero <==> i == 0),
                            forall|i: int|
                                0 <= i < n ==> ((#[trigger] fs@[i]) is Inf <==> dist@[i] is Inf),
                            forall|i: int|
                                0 <= i < n && done@[i] ==> (#[trigger] dist@[i]) !is Inf,
                            forall|i: int|
                                0 <= i < n ==> call_ensures(
                                    heuristic,
                                    (&ids@[i],),
                                    #[trigger] hs@[i],
                                ),
                            fs@[0] == Score::Value(hs@[0]),
                            best < n,
                            done@[best as int],
                            u == ids@[best as int],
                            du == dist@[best as int],
                            alist_wf(row@),
                            g.edge_map().contains_key(u),
                            alist_map(row@) == g.edge_map()[u],
                            j <= row@.len(),
                            zero_heuristic(heuristic) ==> forall|i: int, jx: int|
                                0 <= i < n && 0 <= jx < n && done@[i] && i != best as int
                                    && #[trigger] g.has_edge(ids@[i], ids@[jx]) ==> (score_plus(
                                    dist@[i],
                                    w[(ids@[i], ids@[jx])],
                                ) matches Some(alt) ==> score_le(dist@[jx], alt)),
                            zero_heuristic(heuristic) ==> forall|jj: int, t: int|
                                0 <= jj < j && 0 <= t < n && ids@[t] == #[trigger] row@[jj].0 ==> (
                                score_plus(du, w[(u, #[trigger] ids@[t])]) matches Some(alt)
                                    ==> score_le(dist@[t], alt)),
                            forall|i: int, b: u64|
                                0 <= i < n && done@[i] && i != best as int && #[trigger] g.has_edge(
                                    ids@[i],
                                    b,
                                ) ==> w.contains_key((ids@[i], b)) && call_ensures(
                                    edge_w,
                                    (&g.edge_payload(ids@[i], b),),
                                    w[(ids@[i], b)],
                                ),
                            forall|jj: int|
                                0 <= jj < j ==> w.contains_key((u, #[trigger] row@[jj].0))
                                    && call_ensures(
                                    edge_w,
                                    (&g.edge_payload(u, row@[jj].0),),
                                    w[(u, row@[jj].0)],
                                ),
                            forall|bb: u64| #[trigger]
                                w.contains_key((u, bb)) ==> exists|jj: int|
                                    0 <= jj < j && row@[jj].0 == bb,
                            forall|a: u64, b: u64| #[trigger]
                                w.contains_key((a, b)) ==> g.has_edge(a, b) && call_ensures(
                                    edge_w,
                                    (&g.edge_payload(a, b),),
                                    w[(a, b)],
                                ),
                            forall|i: int, b: u64|
                                0 <= i < n && !done@[i] ==> !(#[trigger] w.contains_key(
                                    (#[trigger] ids@[i], b),
                                )),
                            forall|jx: int|
                                0 <= jx < n && (#[trigger] pred@[jx]) is Some ==> jx != 0
                                    && dist@[jx] is Value && ids@.contains(pred@[jx]->0)
                                    && g.has_edge(pred@[jx]->0, ids@[jx]) && w.contains_key(
                                    (pred@[jx]->0, ids@[jx]),
                                ),
                            forall|i: int, jx: int|
                                0 <= i < n && 0 <= jx < n && #[trigger] pred@[jx] == Some(
                                    #[trigger] ids@[i],
                                ) ==> done@[i] && score_plus(dist@[i], w[(ids@[i], ids@[jx])])
                                    == Some(dist@[jx]),
                            forall|jx: int|
                                1 <= jx < n ==> ((#[trigger] dist@[jx]) is Value <==> pred@[jx]
                                    is Some),
                            pred@[0] is None,
                            forall|x: u64| #[trigger]
                                rank.contains_key(x) ==> 1 <= rank[x] <= vord.len(),
                            vord.no_duplicates(),
                            forall|x: u64| #[trigger] rank.contains_key(x) <==> vord.contains(x),
                            forall|i: int|
                                0 <= i < n && !done@[i] ==> !rank.contains_key(#[trigger] ids@[i]),
                            forall|i: int|
                                0 <= i < n && done@[i] && (#[trigger] dist@[i]) is Value
                                    ==> rank.contains_key(ids@[i]),
                            forall|i: int|
                                0 <= i < n && rank.contains_key(#[trigger] ids@[i]) ==> done@[i]
                                    && dist@[i] is Value,
                            forall|t: int|
                                0 <= t < vord.len() ==> ids@.contains(#[trigger] vord[t]),
                            forall|i: int, jx: int|
                                0 <= i < n && 0 <= jx < n && done@[jx] && pred@[jx] == Some(
                                    #[trigger] ids@[i],
                                ) && ids@[i] != start ==> rank.contains_key(ids@[i])
                                    && rank.contains_key(#[trigger] ids@[jx]) && rank[ids@[i]]
                                    < rank[ids@[jx]],
                            zero_heuristic(heuristic) ==> forall|i: int|
                                1 <= i < n ==> #[trigger] fs@[i] == dist@[i],
                            zero_heuristic(heuristic) ==> forall|i: int, jx: int|
                                0 <= i < n && 0 <= jx < n && done@[i] && !done@[jx] ==> score_le(
                                    #[trigger] dist@[i],
                                    #[trigger] dist@[jx],
                                ),
                            zero_heuristic(heuristic) ==> forall|i: int|
                                0 <= i < n && done@[i] ==> score_le(#[trigger] dist@[i], du),
                            count_false(done@) >= 0,
                            count_false(done@) == count_false(done0) - 1,
                        decreases row@.len() - j,
                    {
                        let b = row[j].0;
                        proof {
                            crate::graph::lemma_alist_map_index(row@, j as int);
                            assert(g.has_edge(u, b));
                            assert(g.edge_payload(u, b) == row@[j as int].1);
                        }
                        let wt = edge_w(&row[j].1);
                        proof {
                            lemma_note_weight(
                                w,
                                u,
                                b,
                                wt,
                                n as int,
                                ids@,
                                done@,
                                best as int,
                                row@,
                                j as int,
                            );
                            w = w.insert((u, b), wt);
                        }
                        proof {
                            assert(g.node_ids().contains(b));
                            assert(ids@.contains(b));
                        }
                        let tb = index_of_id(&ids, b);
                        match du.plus_checked(wt) {
                            None => {},
                            Some(alt) => {
                                proof {
                                    lemma_score_plus_ge(du, wt);
                                }
                                if !done[tb] && alt.less(&dist[tb]) {
                                    let ghost dist0 = dist@;
                                    let ghost pred0 = pred@;
                                    let ghost fs0 = fs@;
                                    dist[tb] = alt;
                                    pred[tb] = Some(u);
                                    let fnew = match alt.plus_checked(hs[tb]) {
                                        Some(x) => x,
                                        None => Score::Value(u64::MAX),
                                    };
                                    fs[tb] = fnew;
                                    proof {
                                        assert(dist@ =~= dist0.update(tb as int, alt));
                                        assert(pred@ =~= pred0.update(tb as int, Some(u)));
                                        assert(fs@ =~= fs0.update(tb as int, fnew));
                                        assert(alt != Score::Zero);
                                        assert(tb != 0);
                                        assert(fnew !is Inf);
                                        if zero_heuristic(heuristic) {
                                            assert(hs@[tb as int] == 0);
                                            assert(fnew == alt);
                                            crate::graph::analyzer::dijkstra::lemma_front_update(
                                                dist0,
                                                done@,
                                                n as int,
                                                du,
                                                tb as int,
                                                alt,
                                            );
                                        }
                                    }
                                } else {
                                    proof {
                                        if zero_heuristic(heuristic) {
                                            if done@[tb as int] {
                                                assert(score_le(dist@[tb as int], du));
                                                lemma_score_le_trans(
                                                    dist@[tb as int],
                                                    du,
                                                    alt,
                                                );
                                            } else {
                                                assert(!score_lt(alt, dist@[tb as int]));
                                                assert(score_le(dist@[tb as int], alt));
                                            }
                                        }
                                    }
                                }
                            },
                        }
                        j += 1;
                    }
                    proof {
                        assert forall|i: int, b: u64|
                            0 <= i < n && done@[i] && #[trigger] g.has_edge(
                                ids@[i],
                                b,
                            ) implies w.contains_key((ids@[i], b)) && call_ensures(
                            edge_w,
                            (&g.edge_payload(ids@[i], b),),
                            w[(ids@[i], b)],
                        ) by {
                            if i == best as int {
                                crate::graph::lemma_alist_map_dom(row@, b);
                                let jj = choose|jj: int| 0 <= jj < row@.len() && row@[jj].0 == b;
                                assert(w.contains_key((u, row@[jj].0)));
                            }
                        }
                        if zero_heuristic(heuristic) {
                            assert forall|i: int, jx: int|
                                0 <= i < n && 0 <= jx < n && done@[i] && #[trigger] g.has_edge(
                                    ids@[i],
                                    ids@[jx],
                                ) implies (score_plus(dist@[i], w[(ids@[i], ids@[jx])])
                                matches Some(alt) ==> score_le(dist@[jx], alt)) by {
                                if i == best as int {
                                    crate::graph::lemma_alist_map_dom(row@, ids@[jx]);
                                    let jj = choose|jj: int|
                                        0 <= jj < row@.len() && row@[jj].0 == ids@[jx];
                                    assert(row@[jj].0 == ids@[jx]);
                                }
                            }
                        }
                    }
                },
            }
        }
        // package the predecessor table
        let mut pvec: Vec<(u64, u64)> = Vec::new();
        let mut ii: usize = 0;
        while ii < n
            invariant
                n == ids@.len(),
                n == pred@.len(),
                ii <= n,
                forall|a: int, c: int| 0 <= a < c < n ==> ids@[a] != ids@[c],
                alist_wf(pvec@),
                forall|x: u64| #[trigger]
                    alist_map(pvec@).contains_key(x) <==> (exists|a: int|
                        0 <= a < ii && ids@[a] == x && pred@[a] is Some),
                forall|a: int|
                    0 <= a < ii && (#[trigger] pred@[a]) is Some ==> alist_map(
                        pvec@,
                    ).contains_key(ids@[a]) && alist_map(pvec@)[ids@[a]] == pred@[a]->0,
            decreases n - ii,
        {
            let ghost pv0 = pvec@;
            match pred[ii] {
                Some(pu) => {
                    proof {
                        if alist_map(pv0).contains_key(ids@[ii as int]) {
                            let a = choose|a: int|
                                0 <= a < ii && ids@[a] == ids@[ii as int] && pred@[a] is Some;
                            assert(false);
                        }
                        crate::graph::lemma_alist_map_push(
                            pv0,
                            ids@[ii as int],
                            pred@[ii as int]->0,
                        );
                    }
                    pvec.push((ids[ii], pu));
                },
                None => {},
            }
            ii += 1;
            proof {
                assert forall|x: u64| #[trigger]
                    alist_map(pvec@).contains_key(x) implies (exists|a: int|
                    0 <= a < ii && ids@[a] == x && pred@[a] is Some) by {
                    if alist_map(pv0).contains_key(x) {
                        let a = choose|a: int| 0 <= a < ii - 1 && ids@[a] == x && pred@[a] is Some;
                        assert(0 <= a < ii && ids@[a] == x && pred@[a] is Some);
                    } else {
                        assert(ids@[ii - 1] == x && pred@[ii - 1] is Some);
                    }
                }
            }
        }
        let ghost pvg = pvec@;
        let r = MinPathStrict { path: pvec, start, target };
        proof {
            lemma_guided_finish(
                g,
                edge_w,
                start,
                target,
                n as int,
                ids@,
                dist@,
                pred@,
                done@,
                fs@,
                w,
                rank,
                vord,
                pvg,
                zero_heuristic(heuristic),
            );
            assert(r.path_map() == alist_map(pvg));
            assert(r.path@.len() == pvg.len());
        }
        r
    }
}

impl<'a, NL> AStarPath<'a, NL, u64> {
    /// Runs the guided search with the edge payloads themselves as
    /// weights.
    pub fn on_edge<H: Fn(&u64) -> u64>(&self, start: u64, target: u64, heuristic: H) -> (r:
        MinPathStrict)
        requires
            self.graph.wf(),
            self.graph.targets_known(),
            call_requires(heuristic, (&start,)),
            forall|nn: u64| #[trigger]
                self.graph.node_ids().contains(nn) ==> call_requires(heuristic, (&nn,)),
        ensures
            r.wf(),
            r.start == start,
            r.target == target,
            start == target ==> r.path@.len() == 0 && r.path_map() == Map::<u64, u64>::empty(),
            r.path_map().contains_key(target) ==> ({
                let s = strict_walk(r.path_map(), start, target, r.path@.len() as nat);
                self.graph.is_path(s) && s.first() == start && s.last() == target
            }),
            forall|v: u64| #[trigger]
                r.path_map().contains_key(v) ==> v != start && self.graph.has_edge(
                    r.path_map()[v],
                    v,
                ),
            exists|w: Map<(u64, u64), u64>|
                {
                    &&& #[trigger] payload_weights(self.graph, w)
                    &&& (forall|v: u64| #[trigger]
                        r.path_map().contains_key(v) ==> w.contains_key((r.path_map()[v], v)))
                    &&& (target != start && zero_heuristic(heuristic) ==> guided_optimal(
                        self.graph,
                        start,
                        target,
                        w,
                        r.path_map(),
                        r.path@.len() as nat,
                    ))
                },
    {
        let f = |e: &u64| -> (res: u64)
            ensures
                res == *e,
            {
                *e
            };
        let r = self.on_edge_custom(start, target, heuristic, f);
        proof {
            let w = choose|w: Map<(u64, u64), u64>|
                {
                    &&& #[trigger] edges_sampled(self.graph, f, start, r.path_map(), w)
                    &&& weight_samples(self.graph, f, w)
                    &&& target != start && zero_heuristic(heuristic) ==> guided_optimal(
                        self.graph,
                        start,
                        target,
                        w,
                        r.path_map(),
                        r.path@.len() as nat,
                    )
                };
            assert forall|a: u64, b: u64| #[trigger]
                w.contains_key((a, b)) implies self.graph.has_edge(a, b) && w[(a, b)]
                == self.graph.edge_payload(a, b) by {}
            assert(payload_weights(self.graph, w));
            assert forall|v: u64| #[trigger] r.path_map().contains_key(v) implies v != start
                && self.graph.has_edge(r.path_map()[v], v) && w.contains_key(
                (r.path_map()[v], v),
            ) by {}
        }
        r
    }
}

} // verus!
