use vstd::prelude::*;

use crate::graph::analyzer::min_weight::{score_le, score_lt, score_plus, Score};
use crate::graph::{alist_get, alist_map, alist_wf, path_weight, DiGraph};

verus! {

/// Walks predecessor entries backwards from `to` until the walk reaches
/// `from`, collecting the visited ids front to back. `None` when `to`
/// has no entry, when the chain ends before `from`, or when the fuel
/// runs out first.
pub open spec fn trail_of(pm: Map<u64, u64>, from: u64, to: u64, fuel: nat) -> Option<Seq<u64>>
    decreases fuel,
{
    if !pm.contains_key(to) {
        None
    } else if fuel == 0 {
        None
    } else {
        let p = pm[to];
        if p == from {
            Some(seq![from, to])
        } else {
            match trail_of(pm, from, p, (fuel - 1) as nat) {
                Some(s) => Some(s.push(to)),
                None => None,
            }
        }
    }
}

/// The distances and predecessors one run of the shortest-path engine
/// produced for one source node.
pub struct MinPath {
    pub from: u64,
    pub distance: Vec<(u64, Score)>,
    pub path: Vec<(u64, u64)>,
}

impl MinPath {
    /// Distinct keys in both tables.
    pub open spec fn wf(&self) -> bool {
        &&& alist_wf(self.distance@)
        &&& alist_wf(self.path@)
    }

    /// The distance table.
    pub open spec fn dist_map(&self) -> Map<u64, Score> {
        alist_map(self.distance@)
    }

    /// The predecessor table.
    pub open spec fn path_map(&self) -> Map<u64, u64> {
        alist_map(self.path@)
    }

    /// What [`MinPath::trail`] returns: the predecessor walk with as
    /// much fuel as the predecessor table has entries.
    pub open spec fn trail_spec(&self, to: u64) -> Option<Seq<u64>> {
        trail_of(self.path_map(), self.from, to, self.path@.len() as nat)
    }

    pub fn new(from: u64, distance: Vec<(u64, Score)>, path: Vec<(u64, u64)>) -> (r: Self)
        requires
            alist_wf(distance@),
            alist_wf(path@),
        ensures
            r.wf(),
            r.from == from,
            r.distance == distance,
            r.path == path,
    {
        Self { from, distance, path }
    }

    /// The recorded distance of `to`; `None` when `to` was not a known
    /// node of the run.
    pub fn score(&self, to: &u64) -> (r: Option<Score>)
        requires
            self.wf(),
        ensures
            r == (if self.dist_map().contains_key(*to) {
                Some(self.dist_map()[*to])
            } else {
                None::<Score>
            }),
    {
        match alist_get(&self.distance, *to) {
            Some(s) => Some(*s),
            None => None,
        }
    }

    /// The recorded walk from the source to `to`, front to back; `None`
    /// when no predecessor chain leads back to the source. The walk
    /// from the source to itself is `None` as well: the source has no
    /// predecessor entry.
    pub fn trail(&self, to: &u64) -> (r: Option<Vec<u64>>)
        requires
            self.wf(),
        ensures
            match r {
                Some(v) => self.trail_spec(*to) == Some(v@),
                None => self.trail_spec(*to) is None,
            },
    {
        let ghost pm = self.path_map();
        let fuel = self.path.len();
        let mut rhs: u64 = *to;
        let mut rev: Vec<u64> = Vec::new();
        let mut steps: usize = 0;
        proof {
            let t0 = trail_of(pm, self.from, *to, fuel as nat);
            if t0 is Some {
                assert(t0->0 + rev@.reverse() =~= t0->0);
            }
        }
        loop
            invariant
                self.wf(),
                pm == self.path_map(),
                fuel == self.path@.len(),
                steps <= fuel,
                trail_of(pm, self.from, *to, fuel as nat) == (match trail_of(
                    pm,
                    self.from,
                    rhs,
                    (fuel - steps) as nat,
                ) {
                    Some(s) => Some(s + rev@.reverse()),
                    None => None::<Seq<u64>>,
                }),
            ensures
                trail_of(pm, self.from, *to, fuel as nat) is None,
            decreases fuel - steps,
        {
            match alist_get(&self.path, rhs) {
                None => {
                    proof {
                        assert(trail_of(pm, self.from, rhs, (fuel - steps) as nat) is None);
                    }
                    break ;
                },
                Some(p) => {
                    if steps == fuel {
                        proof {
                            assert(trail_of(pm, self.from, rhs, 0) is None);
                        }
                        break ;
                    }
                    let pv = *p;
                    let ghost rev0 = rev@;
                    let ghost rhs0 = rhs;
                    let ghost fleft = (fuel - steps) as nat;
                    rev.push(rhs);
                    steps += 1;
                    if pv == self.from {
                        rev.push(pv);
                        let out = reversed(&rev);
                        proof {
                            let s0 = seq![self.from, rhs0];
                            assert(trail_of(pm, self.from, rhs0, fleft) == Some(s0));
                            assert(out@ =~= s0 + rev0.reverse());
                        }
                        return Some(out);
                    }
                    proof {
                        assert(trail_of(pm, self.from, rhs0, fleft) == (match trail_of(
                            pm,
                            self.from,
                            pv,
                            (fleft - 1) as nat,
                        ) {
                            Some(s) => Some(s.push(rhs0)),
                            None => None::<Seq<u64>>,
                        }));
                        let t1 = trail_of(pm, self.from, pv, (fleft - 1) as nat);
                        if t1 is Some {
                            assert(t1->0.push(rhs0) + rev0.reverse() =~= t1->0 + rev@.reverse());
                        }
                    }
                    rhs = pv;
                },
            }
        }
        None
    }
}

/// `w` assigns to every stored edge whose source the engine can reach
/// a weight the score function can return for that edge's payload.
pub open spec fn weights_of<NL, EL, F: Fn(&EL) -> u64>(
    g: &DiGraph<NL, EL>,
    to_score: F,
    w: Map<(u64, u64), u64>,
    start: u64,
) -> bool {
    forall|a: u64, b: u64| #[trigger]
        g.has_edge(a, b) && (a == start || g.node_ids().contains(a)) ==> w.contains_key((a, b))
            && call_ensures(to_score, (&g.edge_payload(a, b),), w[(a, b)])
}

/// What one run from `start` returns, under the edge weights `w`:
/// `dist` maps every known node (and the start) to its least path
/// weight from `start` — `Zero` for the start itself, `Value(d)` where
/// `d` is the least weight of a path from `start`, and `Inf` when no
/// path of weight at most `u64::MAX` exists — and walking `pred` back
/// from any reached node yields such a least-weight path.
pub open spec fn dijkstra_post<NL, EL>(
    g: &DiGraph<NL, EL>,
    start: u64,
    w: Map<(u64, u64), u64>,
    dist: Map<u64, Score>,
    pred: Map<u64, u64>,
) -> bool {
    &&& dist.dom() == g.node_ids().insert(start)
    &&& dist.contains_key(start) && dist[start] == Score::Zero
    &&& forall|v: u64| #[trigger] dist.contains_key(v) ==> (dist[v] == Score::Zero <==> v == start)
    &&& forall|v: u64| #[trigger]
        pred.contains_key(v) ==> dist.contains_key(v) && v != start && g.has_edge(pred[v], v)
    &&& forall|v: u64| #[trigger]
        dist.contains_key(v) ==> (v != start ==> (dist[v] is Value <==> pred.contains_key(v)))
    &&& forall|p: Seq<u64>| #[trigger]
        g.is_path(p) && p.first() == start && path_weight(p, w) <= u64::MAX ==> dist.contains_key(
            p.last(),
        ) && score_le(dist[p.last()], Score::Value(path_weight(p, w) as u64))
    &&& forall|v: u64| #[trigger]
        dist.contains_key(v) && v != start && dist[v] is Value ==> (trail_of(
            pred,
            start,
            v,
            pred.dom().len(),
        ) matches Some(s) && g.is_path(s) && s.first() == start && s.last() == v && path_weight(
            s,
            w,
        ) == dist[v]->0)
}

pub(crate) proof fn lemma_path_weight_nonneg(p: Seq<u64>, w: Map<(u64, u64), u64>)
    ensures
        path_weight(p, w) >= 0,
    decreases p.len(),
{
    if p.len() > 1 {
        lemma_path_weight_nonneg(p.drop_last(), w);
    }
}

/// Any distance table that satisfies the start value and the edge-wise
/// triangle inequality bounds every path's weight from below.
pub(crate) proof fn lemma_dijkstra_optimal<NL, EL>(
    g: &DiGraph<NL, EL>,
    w: Map<(u64, u64), u64>,
    dm: Map<u64, Score>,
    start: u64,
    p: Seq<u64>,
)
    requires
        g.targets_known(),
        dm.dom() == g.node_ids().insert(start),
        dm.contains_key(start),
        dm[start] == Score::Zero,
        forall|a: u64, b: u64|
            dm.contains_key(a) && #[trigger] g.has_edge(a, b) && dm.contains_key(b) ==> (score_plus(
                dm[a],
                w[(a, b)],
            ) matches Some(alt) ==> score_le(dm[b], alt)),
        g.is_path(p),
        p.first() == start,
        path_weight(p, w) <= u64::MAX,
    ensures
        dm.contains_key(p.last()),
        score_le(dm[p.last()], Score::Value(path_weight(p, w) as u64)),
    decreases p.len(),
{
    if p.len() == 1 {
        assert(p.last() == start);
    } else {
        let q = p.drop_last();
        assert forall|i: int| 0 <= i < q.len() - 1 implies #[trigger] g.has_edge(q[i], q[i + 1]) by {
            assert(g.has_edge(p[i], p[i + 1]));
        }
        let i = p.len() - 2;
        assert(g.has_edge(p[i], p[i + 1]));
        let a = p[i];
        let b = p[i + 1];
        let wab = w[(a, b)];
        lemma_path_weight_nonneg(q, w);
        assert(path_weight(p, w) == path_weight(q, w) + wab);
        lemma_dijkstra_optimal(g, w, dm, start, q);
        assert(dm.contains_key(b));
        let wq = path_weight(q, w);
        match dm[a] {
            Score::Zero => {
                assert(score_plus(dm[a], wab) == Some(Score::Value(wab)));
                assert(score_le(dm[b], Score::Value(wab)));
            },
            Score::Value(x) => {
                assert(x <= wq);
                assert(score_plus(dm[a], wab) == Some(Score::Value((x + wab) as u64)));
                assert(score_le(dm[b], Score::Value((x + wab) as u64)));
            },
            Score::Inf => {
                assert(false);
            },
        }
    }
}

/// The shape the engine leaves its tables in: every predecessor entry
/// records a settled edge whose relaxation produced the exact recorded
/// distance, and predecessors settle strictly earlier under `rank`.
pub(crate) open spec fn pred_wf<NL, EL>(
    g: &DiGraph<NL, EL>,
    w: Map<(u64, u64), u64>,
    dm: Map<u64, Score>,
    pm: Map<u64, u64>,
    rank: Map<u64, nat>,
    start: u64,
) -> bool {
    &&& dm.contains_key(start) && dm[start] == Score::Zero
    &&& forall|x: u64| #[trigger] dm.contains_key(x) ==> (dm[x] == Score::Zero <==> x == start)
    &&& forall|x: u64| #[trigger]
        dm.contains_key(x) && x != start && dm[x] is Value ==> pm.contains_key(x)
    &&& forall|x: u64| #[trigger]
        pm.contains_key(x) ==> rank.contains_key(x) && 1 <= rank[x]
    &&& forall|x: u64| #[trigger]
        pm.contains_key(x) ==> {
            &&& dm.contains_key(x) && x != start && dm[x] is Value
            &&& g.has_edge(pm[x], x)
            &&& dm.contains_key(pm[x])
            &&& score_plus(dm[pm[x]], w[(pm[x], x)]) == Some(dm[x])
            &&& (pm[x] != start ==> rank.contains_key(pm[x]) && rank[pm[x]] < rank[x])
        }
}

/// Walking the predecessor table back from a reached node, with fuel at
/// least the node's settling rank, yields a path from the start whose
/// weight is the node's recorded distance.
pub(crate) proof fn lemma_trail_sound<NL, EL>(
    g: &DiGraph<NL, EL>,
    w: Map<(u64, u64), u64>,
    dm: Map<u64, Score>,
    pm: Map<u64, u64>,
    rank: Map<u64, nat>,
    start: u64,
    v: u64,
    fuel: nat,
)
    requires
        pred_wf(g, w, dm, pm, rank, start),
        pm.contains_key(v),
        fuel >= rank[v],
    ensures
        trail_of(pm, start, v, fuel) matches Some(s) && g.is_path(s) && s.first() == start
            && s.last() == v && path_weight(s, w) == dm[v]->0 && s.len() >= 2,
    decreases rank[v],
{
    let u = pm[v];
    if u == start {
        let s = seq![start, v];
        assert(trail_of(pm, start, v, fuel) == Some(s));
        assert forall|i: int| 0 <= i < s.len() - 1 implies #[trigger] g.has_edge(s[i], s[i + 1]) by {
            assert(g.has_edge(start, v));
        }
        assert(s.drop_last() =~= seq![start]);
        assert(path_weight(seq![start], w) == 0);
        assert(s[0] == start && s[1] == v);
        assert(path_weight(s, w) == path_weight(s.drop_last(), w) + w[(s[s.len() - 2], s[s.len()
            - 1])]);
        assert(path_weight(s, w) == w[(start, v)]);
        assert(score_plus(Score::Zero, w[(start, v)]) == Some(Score::Value(w[(start, v)])));
    } else {
        lemma_trail_sound(g, w, dm, pm, rank, start, u, (fuel - 1) as nat);
        let s0 = trail_of(pm, start, u, (fuel - 1) as nat)->0;
        let s = s0.push(v);
        assert(trail_of(pm, start, v, fuel) == Some(s));
        assert forall|i: int| 0 <= i < s.len() - 1 implies #[trigger] g.has_edge(s[i], s[i + 1]) by {
            if i < s0.len() - 1 {
                assert(g.has_edge(s0[i], s0[i + 1]));
            } else {
                assert(s[i] == u && s[i + 1] == v);
                assert(g.has_edge(u, v));
            }
        }
        assert(s.drop_last() =~= s0);
        assert(path_weight(s, w) == path_weight(s0, w) + w[(u, v)]);
        assert(dm[u] is Value && dm[u]->0 == path_weight(s0, w));
        assert(score_plus(dm[u], w[(u, v)]) == Some(dm[v]));
    }
}

/// How many entries are still false.
pub(crate) open spec fn count_false(s: Seq<bool>) -> int
    decreases s.len(),
{
    if s.len() == 0 {
        0
    } else {
        count_false(s.drop_last()) + if !s.last() {
            1int
        } else {
            0int
        }
    }
}

pub(crate) proof fn lemma_count_false_nonneg(s: Seq<bool>)
    ensures
        count_false(s) >= 0,
    decreases s.len(),
{
    if s.len() > 0 {
        lemma_count_false_nonneg(s.drop_last());
    }
}

pub(crate) proof fn lemma_count_false_update(s: Seq<bool>, i: int)
    requires
        0 <= i < s.len(),
        !s[i],
    ensures
        count_false(s.update(i, true)) == count_false(s) - 1,
    decreases s.len(),
{
    if i == s.len() - 1 {
        assert(s.update(i, true).drop_last() =~= s.drop_last());
    } else {
        lemma_count_false_update(s.drop_last(), i);
        assert(s.update(i, true).drop_last() =~= s.drop_last().update(i, true));
        assert(s.update(i, true).last() == s.last());
    }
}

/// Adding a weight never shrinks a score.
pub(crate) proof fn lemma_score_plus_ge(s: Score, wt: u64)
    ensures
        score_plus(s, wt) matches Some(alt) ==> score_le(s, alt),
{
}


/// Recording a weight for an edge of the freshly settled node keeps the
/// sampling bookkeeping intact: unsettled sources stay unsampled and
/// the fresh node's sampled targets all lie in the handled prefix.
pub(crate) proof fn lemma_note_weight<EL>(
    wpre: Map<(u64, u64), u64>,
    u: u64,
    b: u64,
    wt: u64,
    n: int,
    idsq: Seq<u64>,
    doneq: Seq<bool>,
    best: int,
    rowq: Seq<(u64, EL)>,
    j: int,
)
    requires
        0 <= best < n,
        n == idsq.len(),
        n == doneq.len(),
        forall|i: int, jx: int| 0 <= i < jx < n ==> idsq[i] != idsq[jx],
        u == idsq[best],
        doneq[best],
        0 <= j < rowq.len(),
        alist_wf(rowq),
        rowq[j].0 == b,
        forall|i: int, bb: u64|
            0 <= i < n && !doneq[i] ==> !(#[trigger] wpre.contains_key((#[trigger] idsq[i], bb))),
        forall|bb: u64| #[trigger]
            wpre.contains_key((u, bb)) ==> exists|jj: int| 0 <= jj < j && rowq[jj].0 == bb,
    ensures
        !wpre.contains_key((u, b)),
        forall|i: int, bb: u64|
            0 <= i < n && !doneq[i] ==> !(#[trigger] wpre.insert((u, b), wt).contains_key(
                (#[trigger] idsq[i], bb),
            )),
        forall|bb: u64| #[trigger]
            wpre.insert((u, b), wt).contains_key((u, bb)) ==> exists|jj: int|
                0 <= jj <= j && rowq[jj].0 == bb,
{
    assert(!wpre.contains_key((u, b))) by {
        if wpre.contains_key((u, b)) {
            let jj = choose|jj: int| 0 <= jj < j && rowq[jj].0 == b;
            assert(rowq[jj].0 != rowq[j].0);
            assert(false);
        }
    }
    assert forall|i: int, bb: u64|
        0 <= i < n && !doneq[i] implies !(#[trigger] wpre.insert((u, b), wt).contains_key(
        (#[trigger] idsq[i], bb),
    )) by {
        assert(idsq[i] != u);
        assert(!wpre.contains_key((idsq[i], bb)));
    }
    assert forall|bb: u64| #[trigger]
        wpre.insert((u, b), wt).contains_key((u, bb)) implies exists|jj: int|
        0 <= jj <= j && rowq[jj].0 == bb by {
        if bb == b {
            assert(rowq[j].0 == bb);
        } else {
            let jj = choose|jj: int| 0 <= jj < j && rowq[jj].0 == bb;
            assert(0 <= jj <= j && rowq[jj].0 == bb);
        }
    }
}

/// Lowering an unsettled node's distance to an improvement found from
/// the settled front keeps every settled distance below every
/// unsettled one.
pub(crate) proof fn lemma_front_update(
    dist0: Seq<Score>,
    doneq: Seq<bool>,
    n: int,
    du: Score,
    tb: int,
    alt: Score,
)
    requires
        n == dist0.len(),
        n == doneq.len(),
        0 <= tb < n,
        !doneq[tb],
        score_le(du, alt),
        forall|i: int, j: int|
            0 <= i < n && 0 <= j < n && doneq[i] && !doneq[j] ==> score_le(
                #[trigger] dist0[i],
                #[trigger] dist0[j],
            ),
        forall|i: int| 0 <= i < n && doneq[i] ==> score_le(#[trigger] dist0[i], du),
    ensures
        forall|i: int, j: int|
            0 <= i < n && 0 <= j < n && doneq[i] && !doneq[j] ==> score_le(
                #[trigger] dist0.update(tb, alt)[i],
                #[trigger] dist0.update(tb, alt)[j],
            ),
        forall|i: int| 0 <= i < n && doneq[i] ==> score_le(#[trigger] dist0.update(tb, alt)[i], du),
{
    let d1 = dist0.update(tb, alt);
    assert forall|i: int, j: int|
        0 <= i < n && 0 <= j < n && doneq[i] && !doneq[j] implies score_le(
        #[trigger] d1[i],
        #[trigger] d1[j],
    ) by {
        if j == tb {
            assert(score_le(dist0[i], du));
        }
    }
}

/// The position of `x` in a vector known to contain it.
pub(crate) fn index_of_id(ids: &Vec<u64>, x: u64) -> (r: usize)
    requires
        ids@.contains(x),
    ensures
        r < ids@.len(),
        ids@[r as int] == x,
{
    let mut i: usize = 0;
    while i < ids.len()
        invariant
            i <= ids@.len(),
            forall|j: int| 0 <= j < i ==> ids@[j] != x,
            ids@.contains(x),
        decreases ids@.len() - i,
    {
        if ids[i] == x {
            return i;
        }
        i += 1;
    }
    proof {
        let j = choose|j: int| 0 <= j < ids@.len() && ids@[j] == x;
        assert(false);
    }
    0
}

/// Single-source shortest paths over a borrowed graph.
pub struct DijkstraPath<'a, NL, EL> {
    pub graph: &'a DiGraph<NL, EL>,
}

impl<'a, NL, EL> DijkstraPath<'a, NL, EL> {
    pub fn new(graph: &'a DiGraph<NL, EL>) -> (r: Self)
        ensures
            r.graph == graph,
    {
        Self { graph }
    }

    /// Runs the relaxation search from `start`, scoring each edge by
    /// `to_score` on its payload. Until every known node is settled it
    /// settles the unsettled node of least recorded distance and relaxes
    /// its outgoing edges, keeping only strict improvements. Candidate
    /// distances beyond `u64::MAX` are left unrecorded.
    #[verifier::rlimit(100)]
    pub fn on_edge_custom<F: Fn(&EL) -> u64>(&self, start: u64, to_score: F) -> (r: MinPath)
        requires
            self.graph.wf(),
            self.graph.targets_known(),
            forall|el: EL| call_requires(to_score, (&el,)),
        ensures
            r.wf(),
            r.from == start,
            exists|w: Map<(u64, u64), u64>|
                weights_of(self.graph, to_score, w, start) && #[trigger] dijkstra_post(
                    self.graph,
                    start,
                    w,
                    r.dist_map(),
                    r.path_map(),
                ),
    {
        let g = self.graph;
        let mut ids: Vec<u64> = Vec::new();
        let mut dist: Vec<Score> = Vec::new();
        let mut pred: Vec<Option<u64>> = Vec::new();
        let mut done: Vec<bool> = Vec::new();
        ids.push(start);
        dist.push(Score::Zero);
        pred.push(None);
        done.push(false);
        proof {
            assert forall|x: u64| #[trigger] ids@.contains(x) implies x == start by {
                let i = choose|i: int| 0 <= i < ids@.len() && ids@[i] == x;
            }
            assert(ids@[0] == start);
        }
        let mut k: usize = 0;
        while k < g.nodes.len()
            invariant
                g == self.graph,
                g.wf(),
                ids@.len() >= 1,
                ids@[0] == start,
                dist@.len() == ids@.len(),
                pred@.len() == ids@.len(),
                done@.len() == ids@.len(),
                dist@[0] == Score::Zero,
                forall|i: int| 1 <= i < ids@.len() ==> #[trigger] dist@[i] == Score::Inf,
                forall|i: int| 0 <= i < ids@.len() ==> (#[trigger] pred@[i]) is None,
                forall|i: int| 0 <= i < ids@.len() ==> #[trigger] done@[i] == false,
                forall|i: int, j: int| 0 <= i < j < ids@.len() ==> ids@[i] != ids@[j],
                k <= g.nodes@.len(),
                forall|x: u64| #[trigger]
                    ids@.contains(x) <==> (x == start || exists|j: int|
                        0 <= j < k && g.nodes@[j].0 == x),
            decreases g.nodes@.len() - k,
        {
            let ghost ids0 = ids@;
            let id = g.nodes[k].0;
            if id != start {
                proof {
                    if ids0.contains(id) {
                        let j = choose|j: int| 0 <= j < k && g.nodes@[j].0 == id;
                        assert(g.nodes@[j].0 == g.nodes@[k as int].0);
                        assert(false);
                    }
                }
                ids.push(id);
                dist.push(Score::Inf);
                pred.push(None);
                done.push(false);
            }
            k += 1;
            proof {
                assert forall|x: u64| #[trigger] ids@.contains(x) implies (x == start || exists|
                    j: int,
                |
                    0 <= j < k && g.nodes@[j].0 == x) by {
                    let i = choose|i: int| 0 <= i < ids@.len() && ids@[i] == x;
                    if i < ids0.len() {
                        assert(ids0[i] == x);
                        assert(ids0.contains(x));
                    } else {
                        assert(g.nodes@[k - 1].0 == x);
                    }
                }
                assert forall|x: u64|
                    x == start || (exists|j: int| 0 <= j < k && g.nodes@[j].0 == x) implies #[trigger] ids@.contains(
                    x,
                ) by {
                    if x == start {
                        assert(ids@[0] == x);
                    } else {
                        let j = choose|j: int| 0 <= j < k && g.nodes@[j].0 == x;
                        if j < k - 1 {
                            assert(ids0.contains(x));
                            let i = choose|i: int| 0 <= i < ids0.len() && ids0[i] == x;
                            assert(ids@[i] == x);
                        } else {
                            if x != start {
                                assert(ids@[ids@.len() - 1] == x);
                            }
                        }
                    }
                }
            }
        }
        proof {
            assert forall|x: u64| #[trigger]
                ids@.contains(x) <==> (x == start || g.node_ids().contains(x)) by {
                crate::graph::lemma_alist_map_dom(g.nodes@, x);
            }
        }
        let n = ids.len();
        let ghost mut w: Map<(u64, u64), u64> = Map::empty();
        let ghost mut rank: Map<u64, nat> = Map::empty();
        let ghost mut vord: Seq<u64> = Seq::empty();
        proof {
            lemma_count_false_nonneg(done@);
        }
        loop
            invariant
                g == self.graph,
                g.wf(),
                g.targets_known(),
                forall|el: EL| call_requires(to_score, (&el,)),
                n == ids@.len(),
                n == dist@.len(),
                n == pred@.len(),
                n == done@.len(),
                n >= 1,
                ids@[0] == start,
                forall|i: int, j: int| 0 <= i < j < n ==> ids@[i] != ids@[j],
                forall|x: u64| #[trigger]
                    ids@.contains(x) <==> (x == start || g.node_ids().contains(x)),
                forall|i: int| 0 <= i < n ==> ((#[trigger] dist@[i]) == Score::Zero <==> i == 0),
                forall|i: int, j: int|
                    0 <= i < n && 0 <= j < n && done@[i] && !done@[j] ==> score_le(
                        #[trigger] dist@[i],
                        #[trigger] dist@[j],
                    ),
                forall|i: int, j: int|
                    0 <= i < n && 0 <= j < n && done@[i] && #[trigger] g.has_edge(
                        ids@[i],
                        ids@[j],
                    ) ==> (score_plus(dist@[i], w[(ids@[i], ids@[j])]) matches Some(alt)
                        ==> score_le(dist@[j], alt)),
                forall|i: int, b: u64|
                    0 <= i < n && done@[i] && #[trigger] g.has_edge(ids@[i], b)
                        ==> w.contains_key((ids@[i], b)) && call_ensures(
                        to_score,
                        (&g.edge_payload(ids@[i], b),),
                        w[(ids@[i], b)],
                    ),
                forall|i: int, b: u64|
                    0 <= i < n && !done@[i] ==> !(#[trigger] w.contains_key((#[trigger] ids@[i], b))),
                forall|j: int|
                    0 <= j < n && (#[trigger] pred@[j]) is Some ==> j != 0 && dist@[j] is Value
                        && ids@.contains(pred@[j]->0) && g.has_edge(pred@[j]->0, ids@[j])
                        && w.contains_key((pred@[j]->0, ids@[j])),
                forall|i: int, j: int|
                    0 <= i < n && 0 <= j < n && #[trigger] pred@[j] == Some(#[trigger] ids@[i])
                        ==> done@[i] && score_plus(dist@[i], w[(ids@[i], ids@[j])]) == Some(
                        dist@[j],
                    ),
                forall|j: int| 1 <= j < n ==> ((#[trigger] dist@[j]) is Value <==> pred@[j] is Some),
                pred@[0] is None,
                forall|x: u64| #[trigger] rank.contains_key(x) ==> 1 <= rank[x] <= vord.len(),
                vord.no_duplicates(),
                forall|x: u64| #[trigger] rank.contains_key(x) <==> vord.contains(x),
                forall|i: int|
                    0 <= i < n && !done@[i] ==> !rank.contains_key(#[trigger] ids@[i]),
                forall|i: int|
                    0 <= i < n && done@[i] && (#[trigger] dist@[i]) is Value ==> rank.contains_key(
                        ids@[i],
                    ),
                forall|i: int|
                    0 <= i < n && rank.contains_key(#[trigger] ids@[i]) ==> done@[i]
                        && dist@[i] is Value,
                forall|t: int| 0 <= t < vord.len() ==> ids@.contains(#[trigger] vord[t]),
                forall|i: int, j: int|
                    0 <= i < n && 0 <= j < n && done@[j] && pred@[j] == Some(#[trigger] ids@[i])
                        && ids@[i] != start ==> rank.contains_key(ids@[i]) && rank.contains_key(
                        #[trigger] ids@[j],
                    ) && rank[ids@[i]] < rank[ids@[j]],
                count_false(done@) >= 0,
            ensures
                forall|i: int| 0 <= i < n ==> #[trigger] done@[i],
            decreases count_false(done@),
        {
            // select the unsettled node of least recorded distance
            let mut best: usize = n;
            let mut bi: usize = 0;
            while bi < n
                invariant
                    n == ids@.len(),
                    n == dist@.len(),
                    n == done@.len(),
                    bi <= n,
                    best == n || (best < n && !done@[best as int]),
                    best == n ==> forall|j: int| 0 <= j < bi ==> #[trigger] done@[j],
                    best < n ==> forall|j: int|
                        0 <= j < bi && !done@[j] ==> score_le(
                            dist@[best as int],
                            #[trigger] dist@[j],
                        ),
                decreases n - bi,
            {
                if !done[bi] {
                    if best == n {
                        best = bi;
                    } else if dist[bi].less(&dist[best]) {
                        best = bi;
                    }
                }
                bi += 1;
            }
            if best == n {
                break ;
            }
            let ghost done0 = done@;
            done[best] = true;
            proof {
                lemma_count_false_update(done0, best as int);
                lemma_count_false_nonneg(done@);
                if dist@[best as int] is Value {
                    assert(!rank.contains_key(ids@[best as int]));
                    let rank0 = rank;
                    let vord0 = vord;
                    rank = rank.insert(ids@[best as int], (vord.len() + 1) as nat);
                    vord = vord.push(ids@[best as int]);
                    assert(vord.drop_last() =~= vord0);
                    assert forall|t: int| 0 <= t < vord.len() implies ids@.contains(
                        #[trigger] vord[t],
                    ) by {
                        if t == vord.len() - 1 {
                            assert(vord[t] == ids@[best as int]);
                        } else {
                            assert(vord.drop_last()[t] == vord[t]);
                        }
                    }
                    assert forall|x: u64| #[trigger] rank.contains_key(x) implies vord.contains(
                        x,
                    ) by {
                        if x == ids@[best as int] {
                            assert(vord[vord.len() - 1] == x);
                        } else {
                            assert(rank0.contains_key(x));
                            assert(vord0.contains(x));
                            let t = choose|t: int| 0 <= t < vord0.len() && vord0[t] == x;
                            assert(vord[t] == x);
                        }
                    }
                    assert forall|x: u64| vord.contains(x) implies #[trigger] rank.contains_key(
                        x,
                    ) by {
                        let t = choose|t: int| 0 <= t < vord.len() && vord[t] == x;
                        if t < vord.len() - 1 {
                            assert(vord0[t] == x);
                            assert(vord0.contains(x));
                            assert(rank0.contains_key(x));
                        }
                    }
                    // the settled predecessor of the fresh node ranks below it
                    if pred@[best as int] is Some {
                        let u = pred@[best as int]->0;
                        if u != start {
                            let i = choose|i: int| 0 <= i < n && ids@[i] == u;
                            assert(pred@[best as int] == Some(ids@[i]));
                            assert(done0[i]);
                            assert(score_plus(dist@[i], w[(ids@[i], ids@[best as int])]) == Some(
                                dist@[best as int],
                            ));
                            assert(dist@[i] is Value);
                            assert(rank.contains_key(u));
                        }
                    }
                }
            }
            // relax the settled node's outgoing edges
            let u = ids[best];
            let du = dist[best];
            match g.descendants(u) {
                None => {
                    proof {
                        assert forall|i: int, b: u64|
                            0 <= i < n && done@[i] && #[trigger] g.has_edge(
                                ids@[i],
                                b,
                            ) implies w.contains_key((ids@[i], b)) && call_ensures(
                            to_score,
                            (&g.edge_payload(ids@[i], b),),
                            w[(ids@[i], b)],
                        ) by {
                            if i == best as int {
                                assert(g.edge_map().contains_key(u));
                                assert(false);
                            } else {
                                assert(done0[i]);
                            }
                        }
                    }
                },
                Some(row) => {
                    proof {
                        assert forall|bb: u64| !(#[trigger] w.contains_key((u, bb))) by {
                            assert(!done0[best as int]);
                        }
                    }
                    let mut j: usize = 0;
                    while j < row.len()
                        invariant
                            g == self.graph,
                            g.wf(),
                            g.targets_known(),
                            forall|el: EL| call_requires(to_score, (&el,)),
                            n == ids@.len(),
                            n == dist@.len(),
                            n == pred@.len(),
                            n == done@.len(),
                            n >= 1,
                            ids@[0] == start,
                            forall|i: int, jx: int| 0 <= i < jx < n ==> ids@[i] != ids@[jx],
                            forall|x: u64| #[trigger]
                                ids@.contains(x) <==> (x == start || g.node_ids().contains(x)),
                            forall|i: int|
                                0 <= i < n ==> ((#[trigger] dist@[i]) == Score::Zero <==> i == 0),
                            forall|i: int, jx: int|
                                0 <= i < n && 0 <= jx < n && done@[i] && !done@[jx] ==> score_le(
                                    #[trigger] dist@[i],
                                    #[trigger] dist@[jx],
                                ),
                            forall|i: int| 0 <= i < n && done@[i] ==> score_le(
                                #[trigger] dist@[i],
                                du,
                            ),
                            best < n,
                            done@[best as int],
                            u == ids@[best as int],
                            du == dist@[best as int],
                            alist_wf(row@),
                            g.edge_map().contains_key(u),
                            alist_map(row@) == g.edge_map()[u],
                            j <= row@.len(),
                            // settled sources other than the fresh one are fully sampled
                            forall|i: int, b: u64|
                                0 <= i < n && done@[i] && i != best as int && #[trigger] g.has_edge(
                                    ids@[i],
                                    b,
                                ) ==> w.contains_key((ids@[i], b)) && call_ensures(
                                    to_score,
                                    (&g.edge_payload(ids@[i], b),),
                                    w[(ids@[i], b)],
                                ),
                            forall|bb: u64| #[trigger]
                                w.contains_key((u, bb)) ==> exists|jj: int|
                                    0 <= jj < j && row@[jj].0 == bb,
                            // the fresh node's handled edges are sampled
                            forall|jj: int|
                                0 <= jj < j ==> w.contains_key((u, #[trigger] row@[jj].0))
                                    && call_ensures(
                                    to_score,
                                    (&g.edge_payload(u, row@[jj].0),),
                                    w[(u, row@[jj].0)],
                                ),
                            // relaxations already performed from settled sources hold
                            forall|i: int, jx: int|
                                0 <= i < n && 0 <= jx < n && done@[i] && i != best as int
                                    && #[trigger] g.has_edge(ids@[i], ids@[jx]) ==> (score_plus(
                                    dist@[i],
                                    w[(ids@[i], ids@[jx])],
                                ) matches Some(alt) ==> score_le(dist@[jx], alt)),
                            forall|jj: int, t: int|
                                0 <= jj < j && 0 <= t < n && ids@[t] == #[trigger] row@[jj].0 ==> (
                                score_plus(du, w[(u, #[trigger] ids@[t])]) matches Some(alt)
                                    ==> score_le(dist@[t], alt)),
                            forall|i: int, b: u64|
                                0 <= i < n && !done@[i] ==> !(#[trigger] w.contains_key((
                                #[trigger] ids@[i],
                                b,
                                ))),
                            forall|jx: int|
                                0 <= jx < n && (#[trigger] pred@[jx]) is Some ==> jx != 0
                                    && dist@[jx] is Value && ids@.contains(pred@[jx]->0)
                                    && g.has_edge(pred@[jx]->0, ids@[jx]) && w.contains_key(
                                    (pred@[jx]->0, ids@[jx]),
                                ),
                            forall|i: int, jx: int|
                                0 <= i < n && 0 <= jx < n && #[trigger] pred@[jx] == Some(
                                    #[trigger] ids@[i],
                                ) ==> done@[i] && score_plus(dist@[i], w[(ids@[i], ids@[jx])])
                                    == Some(dist@[jx]),
                            forall|jx: int|
                                1 <= jx < n ==> ((#[trigger] dist@[jx]) is Value <==> pred@[jx]
                                    is Some),
                            pred@[0] is None,
                            forall|x: u64| #[trigger]
                                rank.contains_key(x) ==> 1 <= rank[x] <= vord.len(),
                            vord.no_duplicates(),
                            forall|x: u64| #[trigger] rank.contains_key(x) <==> vord.contains(x),
                            forall|i: int|
                                0 <= i < n && !done@[i] ==> !rank.contains_key(#[trigger] ids@[i]),
                            forall|i: int|
                                0 <= i < n && done@[i] && (#[trigger] dist@[i]) is Value
                                    ==> rank.contains_key(ids@[i]),
                            forall|i: int|
                                0 <= i < n && rank.contains_key(#[trigger] ids@[i]) ==> done@[i]
                                    && dist@[i] is Value,
                            forall|t: int|
                                0 <= t < vord.len() ==> ids@.contains(#[trigger] vord[t]),
                            forall|i: int, jx: int|
                                0 <= i < n && 0 <= jx < n && done@[jx] && pred@[jx] == Some(
                                    #[trigger] ids@[i],
                                ) && ids@[i] != start ==> rank.contains_key(ids@[i])
                                    && rank.contains_key(#[trigger] ids@[jx]) && rank[ids@[i]]
                                    < rank[ids@[jx]],
                            count_false(done@) >= 0,
                            count_false(done@) == count_false(done0) - 1,
                        decreases row@.len() - j,
                    {
                        let b = row[j].0;
                        proof {
                            crate::graph::lemma_alist_map_index(row@, j as int);
                            assert(g.has_edge(u, b));
                            assert(g.edge_payload(u, b) == row@[j as int].1);
                        }
                        let wt = to_score(&row[j].1);
                        proof {
                            lemma_note_weight(
                                w,
                                u,
                                b,
                                wt,
                                n as int,
                                ids@,
                                done@,
                                best as int,
                                row@,
                                j as int,
                            );
                            w = w.insert((u, b), wt);
                        }
                        proof {
                            assert(g.node_ids().contains(b));
                            assert(ids@.contains(b));
                        }
                        let tb = index_of_id(&ids, b);
                        match du.plus_checked(wt) {
                            None => {},
                            Some(alt) => {
                                proof {
                                    lemma_score_plus_ge(du, wt);
                                }
                                if alt.less(&dist[tb]) {
                                    proof {
                                        // the improved node cannot be settled
                                        if done@[tb as int] {
                                            assert(score_le(dist@[tb as int], du));
                                            assert(score_le(du, alt));
                                            assert(false);
                                        }
                                    }
                                    let ghost dist0 = dist@;
                                    let ghost pred0 = pred@;
                                    proof {
                                        lemma_front_update(
                                            dist0,
                                            done@,
                                            n as int,
                                            du,
                                            tb as int,
                                            alt,
                                        );
                                    }
                                    dist[tb] = alt;
                                    pred[tb] = Some(u);
                                    proof {
                                        assert(dist@ =~= dist0.update(tb as int, alt));
                                        assert(pred@ =~= pred0.update(tb as int, Some(u)));
                                        assert(alt != Score::Zero);
                                        assert(tb != 0);
                                    }
                                }
                            },
                        }
                        j += 1;
                    }
                    proof {
                        // every edge of the fresh node is now sampled and relaxed
                        assert forall|i: int, b: u64|
                            0 <= i < n && done@[i] && #[trigger] g.has_edge(
                                ids@[i],
                                b,
                            ) implies w.contains_key((ids@[i], b)) && call_ensures(
                            to_score,
                            (&g.edge_payload(ids@[i], b),),
                            w[(ids@[i], b)],
                        ) by {
                            if i == best as int {
                                crate::graph::lemma_alist_map_dom(row@, b);
                                let jj = choose|jj: int| 0 <= jj < row@.len() && row@[jj].0 == b;
                                assert(w.contains_key((u, row@[jj].0)));
                            }
                        }
                        assert forall|i: int, jx: int|
                            0 <= i < n && 0 <= jx < n && done@[i] && #[trigger] g.has_edge(
                                ids@[i],
                                ids@[jx],
                            ) implies (score_plus(dist@[i], w[(ids@[i], ids@[jx])]) matches Some(
                            alt,
                        ) ==> score_le(dist@[jx], alt)) by {
                            if i == best as int {
                                crate::graph::lemma_alist_map_dom(row@, ids@[jx]);
                                let jj = choose|jj: int|
                                    0 <= jj < row@.len() && row@[jj].0 == ids@[jx];
                                assert(row@[jj].0 == ids@[jx]);
                            }
                        }
                    }
                },
            }
        }
        // package the tables
        let mut dvec: Vec<(u64, Score)> = Vec::new();
        let mut pvec: Vec<(u64, u64)> = Vec::new();
        let mut i: usize = 0;
        while i < n
            invariant
                n == ids@.len(),
                n == dist@.len(),
                n == pred@.len(),
                i <= n,
                forall|ii: int, jj: int| 0 <= ii < jj < n ==> ids@[ii] != ids@[jj],
                alist_wf(dvec@),
                alist_wf(pvec@),
                forall|x: u64| #[trigger]
                    alist_map(dvec@).contains_key(x) <==> (exists|ii: int|
                        0 <= ii < i && ids@[ii] == x),
                forall|ii: int|
                    0 <= ii < i ==> alist_map(dvec@).contains_key(#[trigger] ids@[ii])
                        && alist_map(dvec@)[ids@[ii]] == dist@[ii],
                forall|x: u64| #[trigger]
                    alist_map(pvec@).contains_key(x) <==> (exists|ii: int|
                        0 <= ii < i && ids@[ii] == x && pred@[ii] is Some),
                forall|ii: int|
                    0 <= ii < i && (#[trigger] pred@[ii]) is Some ==> alist_map(
                        pvec@,
                    ).contains_key(ids@[ii]) && alist_map(pvec@)[ids@[ii]] == pred@[ii]->0,
            decreases n - i,
        {
            let ghost dv0 = dvec@;
            let ghost pv0 = pvec@;
            proof {
                if alist_map(dv0).contains_key(ids@[i as int]) {
                    let ii = choose|ii: int| 0 <= ii < i && ids@[ii] == ids@[i as int];
                    assert(false);
                }
                crate::graph::lemma_alist_map_push(dv0, ids@[i as int], dist@[i as int]);
            }
            dvec.push((ids[i], dist[i]));
            match pred[i] {
                Some(pu) => {
                    proof {
                        if alist_map(pv0).contains_key(ids@[i as int]) {
                            let ii = choose|ii: int|
                                0 <= ii < i && ids@[ii] == ids@[i as int] && pred@[ii] is Some;
                            assert(false);
                        }
                        crate::graph::lemma_alist_map_push(pv0, ids@[i as int], pred@[i as int]->0);
                    }
                    pvec.push((ids[i], pu));
                },
                None => {},
            }
            i += 1;
            proof {
                assert forall|x: u64| #[trigger]
                    alist_map(dvec@).contains_key(x) implies (exists|ii: int|
                    0 <= ii < i && ids@[ii] == x) by {
                    if alist_map(dv0).contains_key(x) {
                        let ii = choose|ii: int| 0 <= ii < i - 1 && ids@[ii] == x;
                        assert(0 <= ii < i && ids@[ii] == x);
                    } else {
                        assert(ids@[i - 1] == x);
                    }
                }
                assert forall|x: u64| #[trigger]
                    alist_map(pvec@).contains_key(x) implies (exists|ii: int|
                    0 <= ii < i && ids@[ii] == x && pred@[ii] is Some) by {
                    if alist_map(pv0).contains_key(x) {
                        let ii = choose|ii: int|
                            0 <= ii < i - 1 && ids@[ii] == x && pred@[ii] is Some;
                        assert(0 <= ii < i && ids@[ii] == x && pred@[ii] is Some);
                    } else {
                        assert(ids@[i - 1] == x && pred@[i - 1] is Some);
                    }
                }
            }
        }
        let ghost dvg = dvec@;
        let ghost pvg = pvec@;
        let r = MinPath::new(start, dvec, pvec);
        proof {
            assert(r.distance@ == dvg && r.path@ == pvg);
            let dm = r.dist_map();
            let pm = r.path_map();
            // domain of the distance table
            assert(dm.dom() =~= g.node_ids().insert(start)) by {
                assert forall|x: u64| #[trigger] dm.dom().contains(x) implies g.node_ids().insert(
                    start,
                ).contains(x) by {
                    let ii = choose|ii: int| 0 <= ii < n && ids@[ii] == x;
                    assert(ids@.contains(x));
                }
                assert forall|x: u64| #[trigger]
                    g.node_ids().insert(start).contains(x) implies dm.dom().contains(x) by {
                    assert(ids@.contains(x));
                    let ii = choose|ii: int| 0 <= ii < n && ids@[ii] == x;
                    assert(alist_map(dvec@).contains_key(ids@[ii]));
                }
            }
            assert(dm.contains_key(start) && dm[start] == Score::Zero) by {
                assert(ids@[0] == start);
            }
            assert forall|v: u64| #[trigger] dm.contains_key(v) implies (dm[v] == Score::Zero <==> v
                == start) by {
                let ii = choose|ii: int| 0 <= ii < n && ids@[ii] == v;
                assert(dm[v] == dist@[ii]);
            }
            assert forall|v: u64| #[trigger] pm.contains_key(v) implies dm.contains_key(v) && v
                != start && g.has_edge(pm[v], v) by {
                let ii = choose|ii: int| 0 <= ii < n && ids@[ii] == v && pred@[ii] is Some;
                assert(pm[v] == pred@[ii]->0);
                assert(dm[v] == dist@[ii]);
            }
            assert forall|v: u64| #[trigger] dm.contains_key(v) implies (v != start ==> (dm[v]
                is Value <==> pm.contains_key(v))) by {
                let ii = choose|ii: int| 0 <= ii < n && ids@[ii] == v;
                assert(dm[v] == dist@[ii]);
                if v != start && dist@[ii] is Value {
                    assert(ii != 0);
                    assert(pred@[ii] is Some);
                    assert(pm.contains_key(v));
                }
                if pm.contains_key(v) {
                    let jj = choose|jj: int| 0 <= jj < n && ids@[jj] == v && pred@[jj] is Some;
                    assert(jj == ii);
                }
            }
            // the triangle inequality, in table form
            assert forall|a: u64, b: u64|
                dm.contains_key(a) && #[trigger] g.has_edge(a, b) && dm.contains_key(
                    b,
                ) implies (score_plus(dm[a], w[(a, b)]) matches Some(alt) ==> score_le(
                dm[b],
                alt,
            )) by {
                let ii = choose|ii: int| 0 <= ii < n && ids@[ii] == a;
                let jj = choose|jj: int| 0 <= jj < n && ids@[jj] == b;
                assert(dm[a] == dist@[ii] && dm[b] == dist@[jj]);
                assert(g.has_edge(ids@[ii], ids@[jj]));
            }
            // optimality
            assert forall|p: Seq<u64>| #[trigger]
                g.is_path(p) && p.first() == start && path_weight(p, w)
                    <= u64::MAX implies dm.contains_key(p.last()) && score_le(
                dm[p.last()],
                Score::Value(path_weight(p, w) as u64),
            ) by {
                lemma_path_weight_nonneg(p, w);
                lemma_dijkstra_optimal(g, w, dm, start, p);
            }
            // the predecessor walk reconstructs a least-weight path
            assert(pred_wf(g, w, dm, pm, rank, start)) by {
                assert forall|x: u64| #[trigger]
                    dm.contains_key(x) && x != start && dm[x] is Value implies pm.contains_key(
                    x,
                ) by {
                    let ii = choose|ii: int| 0 <= ii < n && ids@[ii] == x;
                    assert(dm[x] == dist@[ii]);
                    assert(pred@[ii] is Some);
                }
                assert forall|x: u64| #[trigger] pm.contains_key(x) implies rank.contains_key(x)
                    && 1 <= rank[x] by {
                    let ii = choose|ii: int| 0 <= ii < n && ids@[ii] == x && pred@[ii] is Some;
                    assert(dist@[ii] is Value && done@[ii]);
                    assert(rank.contains_key(ids@[ii]));
                }
                assert forall|x: u64| #[trigger] pm.contains_key(x) implies {
                    &&& dm.contains_key(x) && x != start && dm[x] is Value
                    &&& g.has_edge(pm[x], x)
                    &&& dm.contains_key(pm[x])
                    &&& score_plus(dm[pm[x]], w[(pm[x], x)]) == Some(dm[x])
                    &&& (pm[x] != start ==> rank.contains_key(pm[x]) && rank[pm[x]] < rank[x])
                } by {
                    let ii = choose|ii: int| 0 <= ii < n && ids@[ii] == x && pred@[ii] is Some;
                    assert(pm[x] == pred@[ii]->0);
                    assert(dm[x] == dist@[ii]);
                    let uu = pred@[ii]->0;
                    assert(ids@.contains(uu));
                    let kk = choose|kk: int| 0 <= kk < n && ids@[kk] == uu;
                    assert(pred@[ii] == Some(ids@[kk]));
                    assert(done@[kk]);
                    assert(score_plus(dist@[kk], w[(ids@[kk], ids@[ii])]) == Some(dist@[ii]));
                    assert(dm.contains_key(uu) && dm[uu] == dist@[kk]);
                }
            }
            // enough fuel: every ranked node holds a predecessor entry
            assert(vord.to_set().subset_of(pm.dom())) by {
                assert forall|x: u64| #[trigger] vord.to_set().contains(x) implies pm.contains_key(
                    x,
                ) by {
                    assert(vord.contains(x));
                    assert(rank.contains_key(x));
                    let t = choose|t: int| 0 <= t < vord.len() && vord[t] == x;
                    assert(ids@.contains(x));
                    let ii = choose|ii: int| 0 <= ii < n && ids@[ii] == x;
                    assert(rank.contains_key(ids@[ii]));
                    assert(dist@[ii] is Value);
                    if x != start {
                        assert(pred@[ii] is Some);
                        assert(pm.contains_key(x));
                    } else {
                        assert(dist@[ii] == dist@[0]);
                    }
                }
            }
            assert(vord.len() <= pm.dom().len()) by {
                vord.unique_seq_to_set();
                crate::graph::lemma_alist_map_finite(pvg);
                vstd::set_lib::lemma_len_subset(vord.to_set(), pm.dom());
            }
            assert forall|v: u64| #[trigger]
                dm.contains_key(v) && v != start && dm[v] is Value implies (trail_of(
                pm,
                start,
                v,
                pm.dom().len(),
            ) matches Some(s) && g.is_path(s) && s.first() == start && s.last() == v && path_weight(
                s,
                w,
            ) == dm[v]->0) by {
                assert(pm.contains_key(v));
                lemma_trail_sound(g, w, dm, pm, rank, start, v, pm.dom().len());
            }
            assert(dijkstra_post(g, start, w, dm, pm));
            assert forall|a: u64, b: u64| #[trigger]
                g.has_edge(a, b) && (a == start || g.node_ids().contains(
                    a,
                )) implies w.contains_key((a, b)) && call_ensures(
                to_score,
                (&g.edge_payload(a, b),),
                w[(a, b)],
            ) by {
                assert(ids@.contains(a));
                let ii = choose|ii: int| 0 <= ii < n && ids@[ii] == a;
                assert(done@[ii]);
                assert(g.has_edge(ids@[ii], b));
            }
            assert(weights_of(g, to_score, w, start));
        }
        r
    }
}

impl<'a, NL> DijkstraPath<'a, NL, u64> {
    /// Runs the search with the edge payloads themselves as weights:
    /// the distance table and the predecessor walks are exactly the
    /// least-weight data of the stored graph.
    pub fn on_edge(&self, start: u64) -> (r: MinPath)
        requires
            self.graph.wf(),
            self.graph.targets_known(),
        ensures
            r.wf(),
            r.from == start,
            exists|w: Map<(u64, u64), u64>|
                (forall|a: u64, b: u64| #[trigger]
                    self.graph.has_edge(a, b) && (a == start || self.graph.node_ids().contains(a))
                        ==> w.contains_key((a, b)) && w[(a, b)] == self.graph.edge_payload(a, b))
                    && #[trigger] dijkstra_post(self.graph, start, w, r.dist_map(), r.path_map()),
    {
        let f = |e: &u64| -> (res: u64)
            ensures
                res == *e,
            {
                *e
            };
        let r = self.on_edge_custom(start, f);
        proof {
            let w = choose|w: Map<(u64, u64), u64>|
                weights_of(self.graph, f, w, start) && #[trigger] dijkstra_post(
                    self.graph,
                    start,
                    w,
                    r.dist_map(),
                    r.path_map(),
                );
            assert forall|a: u64, b: u64| #[trigger]
                self.graph.has_edge(a, b) && (a == start || self.graph.node_ids().contains(
                    a,
                )) implies w.contains_key((a, b)) && w[(a, b)] == self.graph.edge_payload(
                a,
                b,
            ) by {}
        }
        r
    }
}

/// A copy of `v` in reverse order.
pub(crate) fn reversed(v: &Vec<u64>) -> (r: Vec<u64>)
    ensures
        r@ == v@.reverse(),
{
    let mut r: Vec<u64> = Vec::new();
    let n = v.len();
    let mut i: usize = 0;
    while i < n
        invariant
            n == v@.len(),
            i <= n,
            r@.len() == i,
            forall|k: int| 0 <= k < i ==> r@[k] == v@[n - 1 - k],
        decreases n - i,
    {
        r.push(v[n - 1 - i]);
        i += 1;
    }
    proof {
        assert(r@ =~= v@.reverse());
    }
    r
}

} // verus!
