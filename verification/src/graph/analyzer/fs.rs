use vstd::prelude::*;

use std::collections::VecDeque;

use crate::graph::analyzer::visit::Visited;
use crate::graph::analyzer::visit::VisitedSet;
use crate::graph::analyzer::SearchRes;
use crate::graph::{
    alist_map, alist_wf, lemma_alist_map_dom, lemma_alist_map_index, lemma_reachable_closed,
    lemma_reachable_self, lemma_reachable_step, DiGraph,
};

verus! {

/// The node `v` got a decision other than `Find`, and if that decision
/// was `Next`, every successor of `v` is recorded in `vs` or pending in
/// `q`.
pub open spec fn expanded_into<NL, EL, S: Fn(&u64) -> SearchRes>(
    g: &DiGraph<NL, EL>,
    target: S,
    vs: Set<u64>,
    q: Seq<u64>,
    v: u64,
) -> bool {
    exists|res: SearchRes|
        {
            &&& #[trigger] call_ensures(target, (&v,), res)
            &&& res != SearchRes::Find
            &&& res == SearchRes::Next ==> forall|b: u64| #[trigger]
                g.has_edge(v, b) ==> vs.contains(b) || q.contains(b)
        }
}

/// A halted traversal from `start`: the start node was expanded, every
/// recorded node is reachable, none of them was found, and every node
/// that asked to go on had all of its successors recorded.
pub open spec fn halted_without_find<NL, EL, S: Fn(&u64) -> SearchRes>(
    g: &DiGraph<NL, EL>,
    start: u64,
    target: S,
    vs: Set<u64>,
) -> bool {
    &&& vs.contains(start)
    &&& forall|v: u64| #[trigger] vs.contains(v) ==> g.reachable(start, v)
    &&& forall|v: u64| #[trigger]
        vs.contains(v) ==> expanded_into(g, target, vs, Seq::<u64>::empty(), v)
}

/// The closure can only ever decide as the decision table `dec` says.
pub open spec fn follows<S: Fn(&u64) -> SearchRes>(target: S, dec: spec_fn(u64) -> SearchRes) -> bool {
    forall|nn: u64, res: SearchRes| #[trigger] call_ensures(target, (&nn,), res) ==> res == dec(nn)
}

/// The ids of the not-yet-recorded targets of an adjacency row, in row
/// order.
pub open spec fn fresh_targets<EL>(row: Seq<(u64, EL)>, vs: Set<u64>) -> Seq<u64>
    decreases row.len(),
{
    if row.len() == 0 {
        Seq::empty()
    } else {
        fresh_targets(row.drop_last(), vs) + (if !vs.contains(row.last().0) {
            seq![row.last().0]
        } else {
            Seq::empty()
        })
    }
}

proof fn lemma_fresh_targets_take<EL>(row: Seq<(u64, EL)>, vs: Set<u64>, j: int)
    requires
        0 <= j < row.len(),
    ensures
        fresh_targets(row.take(j + 1), vs) == fresh_targets(row.take(j), vs) + (if !vs.contains(
            row[j].0,
        ) {
            seq![row[j].0]
        } else {
            Seq::<u64>::empty()
        }),
{
    assert(row.take(j + 1).drop_last() =~= row.take(j));
    assert(row.take(j + 1).last() == row[j]);
}

/// One deterministic traversal over the store: dequeue at the front
/// (`lifo` false) or at the back (`lifo` true); an already recorded
/// node is dropped; otherwise the node is recorded and `dec` decides:
/// `Find` returns it, `Stop` aborts, `Skip` expands nothing, and `Next`
/// enqueues the node's not-yet-recorded successors in row order.
pub open spec fn search_run<NL, EL>(
    g: &DiGraph<NL, EL>,
    dec: spec_fn(u64) -> SearchRes,
    lifo: bool,
    q: Seq<u64>,
    vs: Set<u64>,
    fuel: nat,
) -> Option<u64>
    decreases fuel,
{
    if q.len() == 0 {
        None
    } else if fuel == 0 {
        None
    } else {
        let node = if lifo {
            q.last()
        } else {
            q.first()
        };
        let q1 = if lifo {
            q.drop_last()
        } else {
            q.drop_first()
        };
        if vs.contains(node) {
            search_run(g, dec, lifo, q1, vs, (fuel - 1) as nat)
        } else {
            match dec(node) {
                SearchRes::Find => Some(node),
                SearchRes::Stop => None,
                SearchRes::Skip => search_run(g, dec, lifo, q1, vs.insert(node), (fuel - 1) as nat),
                SearchRes::Next => {
                    let row = if alist_map(g.edges@).contains_key(node) {
                        alist_map(g.edges@)[node]@
                    } else {
                        Seq::<(u64, EL)>::empty()
                    };
                    search_run(
                        g,
                        dec,
                        lifo,
                        q1 + fresh_targets(row, vs.insert(node)),
                        vs.insert(node),
                        (fuel - 1) as nat,
                    )
                },
            }
        }
    }
}

/// The fuel that lets [`search_run`] outlast any actual traversal: one
/// dequeue for the start and one for each stored edge.
pub open spec fn search_fuel<NL, EL>(g: &DiGraph<NL, EL>) -> nat {
    (1 + row_budget(g.edges@, Set::<u64>::full())) as nat
}

/// Recorded nodes keep their obligation when the recorded set grows and
/// every pending node is either still pending or now recorded.
proof fn lemma_pending_shift<NL, EL, S: Fn(&u64) -> SearchRes>(
    g: &DiGraph<NL, EL>,
    target: S,
    vs0: Set<u64>,
    q0: Seq<u64>,
    vs1: Set<u64>,
    q1: Seq<u64>,
)
    requires
        forall|v: u64| #[trigger] vs0.contains(v) ==> expanded_into(g, target, vs0, q0, v),
        vs0.subset_of(vs1),
        forall|b: u64| #[trigger] q0.contains(b) ==> vs1.contains(b) || q1.contains(b),
    ensures
        forall|v: u64| #[trigger] vs0.contains(v) ==> expanded_into(g, target, vs1, q1, v),
{
    assert forall|v: u64| #[trigger] vs0.contains(v) implies expanded_into(
        g,
        target,
        vs1,
        q1,
        v,
    ) by {
        let res = choose|res: SearchRes|
            {
                &&& #[trigger] call_ensures(target, (&v,), res)
                &&& res != SearchRes::Find
                &&& res == SearchRes::Next ==> forall|b: u64| #[trigger]
                    g.has_edge(v, b) ==> vs0.contains(b) || q0.contains(b)
            };
        assert(call_ensures(target, (&v,), res));
    }
}

/// The number of stored edges whose source lies in `charged`.
pub open spec fn row_budget<EL>(s: Seq<(u64, Vec<(u64, EL)>)>, charged: Set<u64>) -> int
    decreases s.len(),
{
    if s.len() == 0 {
        0
    } else {
        row_budget(s.drop_last(), charged) + if charged.contains(s.last().0) {
            s.last().1@.len() as int
        } else {
            0
        }
    }
}

proof fn lemma_row_budget_empty<EL>(s: Seq<(u64, Vec<(u64, EL)>)>)
    ensures
        row_budget(s, Set::<u64>::empty()) == 0,
    decreases s.len(),
{
    if s.len() > 0 {
        lemma_row_budget_empty(s.drop_last());
    }
}

proof fn lemma_row_budget_mono<EL>(s: Seq<(u64, Vec<(u64, EL)>)>, c1: Set<u64>, c2: Set<u64>)
    requires
        c1.subset_of(c2),
    ensures
        row_budget(s, c1) <= row_budget(s, c2),
    decreases s.len(),
{
    if s.len() > 0 {
        lemma_row_budget_mono(s.drop_last(), c1, c2);
    }
}

proof fn lemma_row_budget_insert<EL>(s: Seq<(u64, Vec<(u64, EL)>)>, c: Set<u64>, k: u64)
    requires
        alist_wf(s),
        !c.contains(k),
    ensures
        row_budget(s, c.insert(k)) == row_budget(s, c) + (if alist_map(s).contains_key(k) {
            alist_map(s)[k]@.len() as int
        } else {
            0
        }),
    decreases s.len(),
{
    lemma_alist_map_dom(s, k);
    if s.len() > 0 {
        lemma_row_budget_insert(s.drop_last(), c, k);
        lemma_alist_map_dom(s.drop_last(), k);
        if s.last().0 == k {
            assert(forall|i: int| 0 <= i < s.drop_last().len() ==> s.drop_last()[i] == s[i]);
            assert(!alist_map(s.drop_last()).contains_key(k));
        } else {
            if alist_map(s).contains_key(k) {
                let i = choose|i: int| 0 <= i < s.len() && s[i].0 == k;
                assert(s.drop_last()[i].0 == k);
                lemma_alist_map_index(s, i);
                lemma_alist_map_index(s.drop_last(), i);
            }
        }
    }
}

/// From the traversal contract, a search that looks for one id by
/// equality returns that id exactly when it is reachable.
proof fn search_by_eq_post<NL, EL, S: Fn(&u64) -> SearchRes>(
    g: &DiGraph<NL, EL>,
    f: S,
    start: u64,
    t: u64,
    r: Option<u64>,
)
    requires
        forall|n: u64, res: SearchRes| #[trigger]
            call_ensures(f, (&n,), res) ==> res == (if n == t {
                SearchRes::Find
            } else {
                SearchRes::Next
            }),
        match r {
            Some(n) => g.reachable(start, n) && call_ensures(f, (&n,), SearchRes::Find),
            None => (exists|v: u64|
                g.reachable(start, v) && call_ensures(f, (&v,), SearchRes::Stop)) || (exists|
                vs: Set<u64>,
            |
                halted_without_find(g, start, f, vs)),
        },
    ensures
        r == (if g.reachable(start, t) {
            Some(t)
        } else {
            None::<u64>
        }),
{
    match r {
        Some(n) => {
            assert(n == t);
        },
        None => {
            if exists|v: u64| g.reachable(start, v) && call_ensures(f, (&v,), SearchRes::Stop) {
                let v = choose|v: u64|
                    g.reachable(start, v) && call_ensures(f, (&v,), SearchRes::Stop);
                assert(false);
            }
            let vs = choose|vs: Set<u64>| halted_without_find(g, start, f, vs);
            assert(!vs.contains(t)) by {
                if vs.contains(t) {
                    assert(expanded_into(g, f, vs, Seq::<u64>::empty(), t));
                }
            }
            assert forall|x: u64, y: u64|
                vs.contains(x) && #[trigger] g.has_edge(x, y) implies vs.contains(y) by {
                assert(expanded_into(g, f, vs, Seq::<u64>::empty(), x));
                let res = choose|res: SearchRes|
                    {
                        &&& #[trigger] call_ensures(f, (&x,), res)
                        &&& res != SearchRes::Find
                        &&& res == SearchRes::Next ==> forall|b: u64| #[trigger]
                            g.has_edge(x, b) ==> vs.contains(b) || Seq::<u64>::empty().contains(b)
                    };
                assert(res == SearchRes::Next);
            }
            if g.reachable(start, t) {
                lemma_reachable_closed(g, vs, start, t);
            }
        },
    }
}

/// Depth-first traversal over a borrowed graph.
pub struct DFS<'a, NL, EL> {
    pub graph: &'a DiGraph<NL, EL>,
}

/// Breadth-first traversal over a borrowed graph.
pub struct BFS<'a, NL, EL> {
    pub graph: &'a DiGraph<NL, EL>,
}

impl<'a, NL, EL> DFS<'a, NL, EL> {
    pub fn new(graph: &'a DiGraph<NL, EL>) -> (r: Self)
        ensures
            r.graph == graph,
    {
        Self { graph }
    }

    /// Searches for `target` by id, expanding every visited node.
    pub fn search_by_eq(&self, start: &u64, target: &u64) -> (r: Option<u64>)
        requires
            self.graph.wf(),
        ensures
            r == (if self.graph.reachable(*start, *target) {
                Some(*target)
            } else {
                None::<u64>
            }),
    {
        let t = *target;
        let f = |n: &u64| -> (res: SearchRes)
            ensures
                res == (if *n == t {
                    SearchRes::Find
                } else {
                    SearchRes::Next
                }),
            {
                if t == *n {
                    SearchRes::Find
                } else {
                    SearchRes::Next
                }
            };
        let r = self.search(start, f);
        proof {
            search_by_eq_post(self.graph, f, *start, t, r);
        }
        r
    }

    /// Walks the graph depth first from `start` — the frontier hands
    /// out its most recently added node — deciding at each newly
    /// dequeued node whether to expand it, return it, abort, or drop
    /// the branch. When the decisions can only follow a table `dec`,
    /// the result is exactly the deterministic depth-first run.
    pub fn search<S: Fn(&u64) -> SearchRes>(&self, start: &u64, target: S) -> (r: Option<u64>)
        requires
            self.graph.wf(),
            forall|n: u64| #[trigger] call_requires(target, (&n,)),
        ensures
            match r {
                Some(n) => self.graph.reachable(*start, n) && call_ensures(
                    target,
                    (&n,),
                    SearchRes::Find,
                ),
                None => (exists|v: u64|
                    self.graph.reachable(*start, v) && call_ensures(
                        target,
                        (&v,),
                        SearchRes::Stop,
                    )) || (exists|vs: Set<u64>| halted_without_find(self.graph, *start, target, vs)),
            },
            forall|dec: spec_fn(u64) -> SearchRes| #[trigger]
                follows(target, dec) ==> r == search_run(
                    self.graph,
                    dec,
                    true,
                    seq![*start],
                    Set::<u64>::empty(),
                    search_fuel(self.graph),
                ),
    {
        let g = self.graph;
        let mut visited = VisitedSet::default();
        let mut q: Vec<u64> = Vec::new();
        q.push(*start);
        proof {
            lemma_reachable_self(g, *start);
        }
        let ghost total = row_budget(g.edges@, Set::<u64>::full());
        let ghost mut pushed: int = 1;
        let ghost mut iters: int = 0;
        proof {
            assert(q@[0] == *start);
            assert(q@ =~= seq![*start]);
            lemma_row_budget_empty(g.edges@);
            lemma_row_budget_mono(g.edges@, Set::<u64>::empty(), Set::<u64>::full());
        }
        loop
            invariant
                g == self.graph,
                g.wf(),
                forall|n: u64| #[trigger] call_requires(target, (&n,)),
                forall|i: int| 0 <= i < q@.len() ==> g.reachable(*start, #[trigger] q@[i]),
                forall|v: u64| #[trigger] visited.set_spec().contains(v) ==> g.reachable(*start, v),
                visited.set_spec().contains(*start) || q@.contains(*start),
                forall|v: u64| #[trigger]
                    visited.set_spec().contains(v) ==> expanded_into(
                        g,
                        target,
                        visited.set_spec(),
                        q@,
                        v,
                    ),
                pushed <= 1 + row_budget(g.edges@, visited.set_spec()),
                total == row_budget(g.edges@, Set::<u64>::full()),
                total >= 0,
                row_budget(g.edges@, visited.set_spec()) <= total,
                q@.len() <= pushed,
                iters == pushed - q@.len(),
                0 <= iters,
                forall|dec: spec_fn(u64) -> SearchRes| #[trigger]
                    follows(target, dec) ==> search_run(
                        g,
                        dec,
                        true,
                        q@,
                        visited.set_spec(),
                        (search_fuel(g) - iters) as nat,
                    ) == search_run(
                        g,
                        dec,
                        true,
                        seq![*start],
                        Set::<u64>::empty(),
                        search_fuel(g),
                    ),
            ensures
                q@.len() == 0,
                visited.set_spec().contains(*start),
                forall|v: u64| #[trigger] visited.set_spec().contains(v) ==> g.reachable(*start, v),
                forall|v: u64| #[trigger]
                    visited.set_spec().contains(v) ==> expanded_into(
                        g,
                        target,
                        visited.set_spec(),
                        q@,
                        v,
                    ),
                forall|dec: spec_fn(u64) -> SearchRes| #[trigger]
                    follows(target, dec) ==> search_run(
                        g,
                        dec,
                        true,
                        seq![*start],
                        Set::<u64>::empty(),
                        search_fuel(g),
                    ) is None,
            decreases 1 + total - pushed + q@.len(),
        {
            if q.len() == 0 {
                proof {
                    assert forall|dec: spec_fn(u64) -> SearchRes| #[trigger]
                        follows(target, dec) implies search_run(
                        g,
                        dec,
                        true,
                        seq![*start],
                        Set::<u64>::empty(),
                        search_fuel(g),
                    ) is None by {
                        assert(search_run(
                            g,
                            dec,
                            true,
                            q@,
                            visited.set_spec(),
                            (search_fuel(g) - iters) as nat,
                        ) is None);
                    }
                }
                break ;
            }
            let ghost vs0 = visited.set_spec();
            let ghost q0 = q@;
            let ghost iters0 = iters;
            let ghost fuel0 = (search_fuel(g) - iters) as nat;
            proof {
                assert(fuel0 >= 1);
            }
            let node = q.pop().unwrap();
            proof {
                assert(q@ =~= q0.drop_last());
                assert(q0.last() == node);
            }
            let newly = visited.visit(&node);
            if !newly {
                proof {
                    assert(visited.set_spec() =~= vs0);
                    assert forall|b: u64| #[trigger] q0.contains(b) implies vs0.contains(b)
                        || q@.contains(b) by {
                        let i = choose|i: int| 0 <= i < q0.len() && q0[i] == b;
                        if i < q0.len() - 1 {
                            assert(q@[i] == b);
                        } else {
                            assert(b == node);
                        }
                    }
                    lemma_pending_shift(g, target, vs0, q0, vs0, q@);
                    iters = iters + 1;
                    assert forall|dec: spec_fn(u64) -> SearchRes| #[trigger]
                        follows(target, dec) implies search_run(
                        g,
                        dec,
                        true,
                        q@,
                        visited.set_spec(),
                        (search_fuel(g) - iters) as nat,
                    ) == search_run(
                        g,
                        dec,
                        true,
                        seq![*start],
                        Set::<u64>::empty(),
                        search_fuel(g),
                    ) by {
                        assert(search_run(g, dec, true, q0, vs0, fuel0) == search_run(
                            g,
                            dec,
                            true,
                            seq![*start],
                            Set::<u64>::empty(),
                            search_fuel(g),
                        ));
                        assert(vs0.contains(node));
                        assert(search_run(g, dec, true, q0, vs0, fuel0) == search_run(
                            g,
                            dec,
                            true,
                            q@,
                            vs0,
                            (fuel0 - 1) as nat,
                        ));
                    }
                }
            } else {
                proof {
                    lemma_row_budget_insert(g.edges@, vs0, node);
                    lemma_row_budget_mono(g.edges@, visited.set_spec(), Set::<u64>::full());
                }
                let res = target(&node);
                match res {
                    SearchRes::Find => {
                        proof {
                            assert forall|dec: spec_fn(u64) -> SearchRes| #[trigger]
                                follows(target, dec) implies Some(node) == search_run(
                                g,
                                dec,
                                true,
                                seq![*start],
                                Set::<u64>::empty(),
                                search_fuel(g),
                            ) by {
                                assert(search_run(g, dec, true, q0, vs0, fuel0) == search_run(
                                    g,
                                    dec,
                                    true,
                                    seq![*start],
                                    Set::<u64>::empty(),
                                    search_fuel(g),
                                ));
                                assert(dec(node) == SearchRes::Find);
                                assert(!vs0.contains(node));
                            }
                        }
                        return Some(node);
                    },
                    SearchRes::Stop => {
                        proof {
                            assert forall|dec: spec_fn(u64) -> SearchRes| #[trigger]
                                follows(target, dec) implies None::<u64> == search_run(
                                g,
                                dec,
                                true,
                                seq![*start],
                                Set::<u64>::empty(),
                                search_fuel(g),
                            ) by {
                                assert(search_run(g, dec, true, q0, vs0, fuel0) == search_run(
                                    g,
                                    dec,
                                    true,
                                    seq![*start],
                                    Set::<u64>::empty(),
                                    search_fuel(g),
                                ));
                                assert(dec(node) == SearchRes::Stop);
                                assert(!vs0.contains(node));
                            }
                        }
                        return None;
                    },
                    SearchRes::Skip => {
                        proof {
                            assert forall|b: u64| #[trigger] q0.contains(b) implies visited.set_spec().contains(b)
                                || q@.contains(b) by {
                                let i = choose|i: int| 0 <= i < q0.len() && q0[i] == b;
                                if i < q0.len() - 1 {
                                    assert(q@[i] == b);
                                }
                            }
                            lemma_pending_shift(g, target, vs0, q0, visited.set_spec(), q@);
                            assert(expanded_into(g, target, visited.set_spec(), q@, node));
                            iters = iters + 1;
                            assert forall|dec: spec_fn(u64) -> SearchRes| #[trigger]
                                follows(target, dec) implies search_run(
                                g,
                                dec,
                                true,
                                q@,
                                visited.set_spec(),
                                (search_fuel(g) - iters) as nat,
                            ) == search_run(
                                g,
                                dec,
                                true,
                                seq![*start],
                                Set::<u64>::empty(),
                                search_fuel(g),
                            ) by {
                                assert(search_run(g, dec, true, q0, vs0, fuel0) == search_run(
                                    g,
                                    dec,
                                    true,
                                    seq![*start],
                                    Set::<u64>::empty(),
                                    search_fuel(g),
                                ));
                                assert(dec(node) == SearchRes::Skip);
                                assert(!vs0.contains(node));
                                assert(visited.set_spec() == vs0.insert(node));
                            }
                        }
                    },
                    SearchRes::Next => {
                        let ghost vs1 = visited.set_spec();
                        let ghost q1 = q@;
                        let ghost p0 = pushed;
                        match g.descendants(node) {
                            Some(row) => {
                                proof {
                                    assert(row@.take(0) =~= Seq::<(u64, EL)>::empty());
                                    assert(q@ =~= q1 + fresh_targets(row@.take(0), vs1));
                                }
                                let mut j: usize = 0;
                                while j < row.len()
                                    invariant
                                        g == self.graph,
                                        g.wf(),
                                        alist_wf(row@),
                                        g.edge_map().contains_key(node),
                                        alist_map(row@) == g.edge_map()[node],
                                        j <= row@.len(),
                                        g.reachable(*start, node),
                                        visited.set_spec() == vs1,
                                        forall|i: int|
                                            0 <= i < q@.len() ==> g.reachable(
                                                *start,
                                                #[trigger] q@[i],
                                            ),
                                        forall|b: u64| #[trigger]
                                            q1.contains(b) ==> q@.contains(b),
                                        forall|jj: int|
                                            0 <= jj < j ==> visited.set_spec().contains(
                                                #[trigger] row@[jj].0,
                                            ) || q@.contains(row@[jj].0),
                                        pushed <= 1 + row_budget(g.edges@, vs0) + j,
                                        pushed - p0 == q@.len() - q1.len(),
                                        q@.len() <= pushed,
                                        q@ == q1 + fresh_targets(row@.take(j as int), vs1),
                                    decreases row@.len() - j,
                                {
                                    let b = row[j].0;
                                    proof {
                                        lemma_alist_map_index(row@, j as int);
                                        assert(g.has_edge(node, b));
                                        lemma_reachable_step(g, *start, node, b);
                                        lemma_fresh_targets_take(row@, vs1, j as int);
                                    }
                                    let ghost qbefore = q@;
                                    if !visited.already_visited(&b) {
                                        q.push(b);
                                        proof {
                                            pushed = pushed + 1;
                                            assert(q@[q@.len() - 1] == b);
                                            assert forall|x: u64| #[trigger]
                                                qbefore.contains(x) implies q@.contains(x) by {
                                                let i = choose|i: int|
                                                    0 <= i < qbefore.len() && qbefore[i] == x;
                                                assert(q@[i] == x);
                                            }
                                            assert(q@ =~= q1 + fresh_targets(
                                                row@.take(j as int + 1),
                                                vs1,
                                            ));
                                        }
                                    } else {
                                        proof {
                                            assert(q@ =~= q1 + fresh_targets(
                                                row@.take(j as int + 1),
                                                vs1,
                                            ));
                                        }
                                    }
                                    j += 1;
                                }
                                proof {
                                    assert(row_budget(g.edges@, visited.set_spec()) == row_budget(
                                        g.edges@,
                                        vs0,
                                    ) + row@.len()) by {
                                        assert(alist_map(g.edges@).contains_key(node));
                                        assert(alist_map(g.edges@)[node]@ == row@);
                                    }
                                    assert forall|b: u64| #[trigger]
                                        g.has_edge(node, b) implies visited.set_spec().contains(b)
                                        || q@.contains(b) by {
                                        lemma_alist_map_dom(row@, b);
                                        let jj = choose|jj: int|
                                            0 <= jj < row@.len() && row@[jj].0 == b;
                                        assert(visited.set_spec().contains(row@[jj].0)
                                            || q@.contains(row@[jj].0));
                                    }
                                    assert(expanded_into(g, target, visited.set_spec(), q@, node));
                                    assert forall|b: u64| #[trigger]
                                        q0.contains(b) implies visited.set_spec().contains(b)
                                        || q@.contains(b) by {
                                        let i = choose|i: int| 0 <= i < q0.len() && q0[i] == b;
                                        if i < q0.len() - 1 {
                                            assert(q1[i] == b);
                                            assert(q1.contains(b));
                                        } else {
                                            assert(b == node);
                                        }
                                    }
                                    lemma_pending_shift(g, target, vs0, q0, visited.set_spec(), q@);
                                    iters = iters + 1;
                                    assert(row@.take(row@.len() as int) =~= row@);
                                    assert(alist_map(g.edges@).contains_key(node)) by {
                                        assert(g.edge_map().contains_key(node));
                                    }
                                    assert(alist_map(g.edges@)[node]@ == row@);
                                    assert forall|dec: spec_fn(u64) -> SearchRes| #[trigger]
                                        follows(target, dec) implies search_run(
                                        g,
                                        dec,
                                        true,
                                        q@,
                                        visited.set_spec(),
                                        (search_fuel(g) - iters) as nat,
                                    ) == search_run(
                                        g,
                                        dec,
                                        true,
                                        seq![*start],
                                        Set::<u64>::empty(),
                                        search_fuel(g),
                                    ) by {
                                        assert(search_run(g, dec, true, q0, vs0, fuel0)
                                            == search_run(
                                            g,
                                            dec,
                                            true,
                                            seq![*start],
                                            Set::<u64>::empty(),
                                            search_fuel(g),
                                        ));
                                        assert(dec(node) == SearchRes::Next);
                                        assert(!vs0.contains(node));
                                        assert(vs1 == vs0.insert(node));
                                        assert(q@ == q1 + fresh_targets(row@, vs1));
                                    }
                                }
                            },
                            None => {
                                proof {
                                    assert(expanded_into(g, target, visited.set_spec(), q@, node));
                                    assert forall|b: u64| #[trigger]
                                        q0.contains(b) implies visited.set_spec().contains(b)
                                        || q@.contains(b) by {
                                        let i = choose|i: int| 0 <= i < q0.len() && q0[i] == b;
                                        if i < q0.len() - 1 {
                                            assert(q@[i] == b);
                                        } else {
                                            assert(b == node);
                                        }
                                    }
                                    lemma_pending_shift(g, target, vs0, q0, visited.set_spec(), q@);
                                    lemma_row_budget_mono(g.edges@, vs0, visited.set_spec());
                                    iters = iters + 1;
                                    assert(!alist_map(g.edges@).contains_key(node)) by {
                                        if alist_map(g.edges@).contains_key(node) {
                                            assert(g.edge_map().contains_key(node));
                                        }
                                    }
                                    assert forall|dec: spec_fn(u64) -> SearchRes| #[trigger]
                                        follows(target, dec) implies search_run(
                                        g,
                                        dec,
                                        true,
                                        q@,
                                        visited.set_spec(),
                                        (search_fuel(g) - iters) as nat,
                                    ) == search_run(
                                        g,
                                        dec,
                                        true,
                                        seq![*start],
                                        Set::<u64>::empty(),
                                        search_fuel(g),
                                    ) by {
                                        assert(search_run(g, dec, true, q0, vs0, fuel0)
                                            == search_run(
                                            g,
                                            dec,
                                            true,
                                            seq![*start],
                                            Set::<u64>::empty(),
                                            search_fuel(g),
                                        ));
                                        assert(dec(node) == SearchRes::Next);
                                        assert(!vs0.contains(node));
                                        assert(visited.set_spec() == vs0.insert(node));
                                        assert(fresh_targets(
                                            Seq::<(u64, EL)>::empty(),
                                            vs0.insert(node),
                                        ) =~= Seq::<u64>::empty());
                                        assert(q@ =~= q@ + fresh_targets(
                                            Seq::<(u64, EL)>::empty(),
                                            vs0.insert(node),
                                        ));
                                    }
                                }
                            },
                        }
                    },
                }
            }
        }
        proof {
            let vs = visited.set_spec();
            assert(q@ =~= Seq::<u64>::empty());
            assert forall|v: u64| #[trigger] vs.contains(v) implies expanded_into(
                g,
                target,
                vs,
                Seq::<u64>::empty(),
                v,
            ) by {
                let res = choose|res: SearchRes|
                    {
                        &&& #[trigger] call_ensures(target, (&v,), res)
                        &&& res != SearchRes::Find
                        &&& res == SearchRes::Next ==> forall|b: u64| #[trigger]
                            g.has_edge(v, b) ==> vs.contains(b) || q@.contains(b)
                    };
                assert(call_ensures(target, (&v,), res));
            }
            assert(halted_without_find(g, *start, target, vs));
        }
        None
    }
}

impl<'a, NL, EL> BFS<'a, NL, EL> {
    pub fn new(graph: &'a DiGraph<NL, EL>) -> (r: Self)
        ensures
            r.graph == graph,
    {
        BFS { graph }
    }

    /// Searches for `target` by id, expanding every visited node.
    pub fn search_by_eq(&self, start: &u64, target: &u64) -> (r: Option<u64>)
        requires
            self.graph.wf(),
        ensures
            r == (if self.graph.reachable(*start, *target) {
                Some(*target)
            } else {
                None::<u64>
            }),
    {
        let t = *target;
        let f = |n: &u64| -> (res: SearchRes)
            ensures
                res == (if *n == t {
                    SearchRes::Find
                } else {
                    SearchRes::Next
                }),
            {
                if t == *n {
                    SearchRes::Find
                } else {
                    SearchRes::Next
                }
            };
        let r = self.search(start, f);
        proof {
            search_by_eq_post(self.graph, f, *start, t, r);
        }
        r
    }

    /// Walks the graph breadth first from `start` — the frontier hands
    /// out its oldest node — deciding at each newly dequeued node
    /// whether to expand it, return it, abort, or drop the branch. When
    /// the decisions can only follow a table `dec`, the result is
    /// exactly the deterministic breadth-first run.
    pub fn search<S: Fn(&u64) -> SearchRes>(&self, start: &u64, target: S) -> (r: Option<u64>)
        requires
            self.graph.wf(),
            forall|n: u64| #[trigger] call_requires(target, (&n,)),
        ensures
            match r {
                Some(n) => self.graph.reachable(*start, n) && call_ensures(
                    target,
                    (&n,),
                    SearchRes::Find,
                ),
                None => (exists|v: u64|
                    self.graph.reachable(*start, v) && call_ensures(
                        target,
                        (&v,),
                        SearchRes::Stop,
                    )) || (exists|vs: Set<u64>| halted_without_find(self.graph, *start, target, vs)),
            },
            forall|dec: spec_fn(u64) -> SearchRes| #[trigger]
                follows(target, dec) ==> r == search_run(
                    self.graph,
                    dec,
                    false,
                    seq![*start],
                    Set::<u64>::empty(),
                    search_fuel(self.graph),
                ),
    {
        let g = self.graph;
        let mut visited = VisitedSet::default();
        let mut q: VecDeque<u64> = VecDeque::new();
        q.push_back(*start);
        proof {
            lemma_reachable_self(g, *start);
        }
        let ghost total = row_budget(g.edges@, Set::<u64>::full());
        let ghost mut pushed: int = 1;
        let ghost mut iters: int = 0;
        proof {
            assert(q@[0] == *start);
            assert(q@ =~= seq![*start]);
            lemma_row_budget_empty(g.edges@);
            lemma_row_budget_mono(g.edges@, Set::<u64>::empty(), Set::<u64>::full());
        }
        loop
            invariant
                g == self.graph,
                g.wf(),
                forall|n: u64| #[trigger] call_requires(target, (&n,)),
                forall|i: int| 0 <= i < q@.len() ==> g.reachable(*start, #[trigger] q@[i]),
                forall|v: u64| #[trigger] visited.set_spec().contains(v) ==> g.reachable(*start, v),
                visited.set_spec().contains(*start) || q@.contains(*start),
                forall|v: u64| #[trigger]
                    visited.set_spec().contains(v) ==> expanded_into(
                        g,
                        target,
                        visited.set_spec(),
                        q@,
                        v,
                    ),
                pushed <= 1 + row_budget(g.edges@, visited.set_spec()),
                total == row_budget(g.edges@, Set::<u64>::full()),
                total >= 0,
                row_budget(g.edges@, visited.set_spec()) <= total,
                q@.len() <= pushed,
                iters == pushed - q@.len(),
                0 <= iters,
                forall|dec: spec_fn(u64) -> SearchRes| #[trigger]
                    follows(target, dec) ==> search_run(
                        g,
                        dec,
                        false,
                        q@,
                        visited.set_spec(),
                        (search_fuel(g) - iters) as nat,
                    ) == search_run(
                        g,
                        dec,
                        false,
                        seq![*start],
                        Set::<u64>::empty(),
                        search_fuel(g),
                    ),
            ensures
                q@.len() == 0,
                visited.set_spec().contains(*start),
                forall|v: u64| #[trigger] visited.set_spec().contains(v) ==> g.reachable(*start, v),
                forall|v: u64| #[trigger]
                    visited.set_spec().contains(v) ==> expanded_into(
                        g,
                        target,
                        visited.set_spec(),
                        q@,
                        v,
                    ),
                forall|dec: spec_fn(u64) -> SearchRes| #[trigger]
                    follows(target, dec) ==> search_run(
                        g,
                        dec,
                        false,
                        seq![*start],
                        Set::<u64>::empty(),
                        search_fuel(g),
                    ) is None,
            decreases 1 + total - pushed + q@.len(),
        {
            if q.len() == 0 {
                proof {
                    assert forall|dec: spec_fn(u64) -> SearchRes| #[trigger]
                        follows(target, dec) implies search_run(
                        g,
                        dec,
                        false,
                        seq![*start],
                        Set::<u64>::empty(),
                        search_fuel(g),
                    ) is None by {
                        assert(search_run(
                            g,
                            dec,
                            false,
                            q@,
                            visited.set_spec(),
                            (search_fuel(g) - iters) as nat,
                        ) is None);
                    }
                }
                break ;
            }
            let ghost vs0 = visited.set_spec();
            let ghost q0 = q@;
            let ghost iters0 = iters;
            let ghost fuel0 = (search_fuel(g) - iters) as nat;
            proof {
                assert(fuel0 >= 1);
            }
            let node = q.pop_front().unwrap();
            proof {
                assert(q@ =~= q0.drop_first());
                assert(q0.first() == node);
            }
            let newly = visited.visit(&node);
            if !newly {
                proof {
                    assert(visited.set_spec() =~= vs0);
                    assert forall|b: u64| #[trigger] q0.contains(b) implies vs0.contains(b)
                        || q@.contains(b) by {
                        let i = choose|i: int| 0 <= i < q0.len() && q0[i] == b;
                        if i > 0 {
                            assert(q@[i - 1] == b);
                        } else {
                            assert(b == node);
                        }
                    }
                    lemma_pending_shift(g, target, vs0, q0, vs0, q@);
                    iters = iters + 1;
                    assert forall|dec: spec_fn(u64) -> SearchRes| #[trigger]
                        follows(target, dec) implies search_run(
                        g,
                        dec,
                        false,
                        q@,
                        visited.set_spec(),
                        (search_fuel(g) - iters) as nat,
                    ) == search_run(
                        g,
                        dec,
                        false,
                        seq![*start],
                        Set::<u64>::empty(),
                        search_fuel(g),
                    ) by {
                        assert(search_run(g, dec, false, q0, vs0, fuel0) == search_run(
                            g,
                            dec,
                            false,
                            seq![*start],
                            Set::<u64>::empty(),
                            search_fuel(g),
                        ));
                        assert(vs0.contains(node));
                        assert(search_run(g, dec, false, q0, vs0, fuel0) == search_run(
                            g,
                            dec,
                            false,
                            q@,
                            vs0,
                            (fuel0 - 1) as nat,
                        ));
                    }
                }
            } else {
                proof {
                    lemma_row_budget_insert(g.edges@, vs0, node);
                    lemma_row_budget_mono(g.edges@, visited.set_spec(), Set::<u64>::full());
                }
                let res = target(&node);
                match res {
                    SearchRes::Find => {
                        proof {
                            assert forall|dec: spec_fn(u64) -> SearchRes| #[trigger]
                                follows(target, dec) implies Some(node) == search_run(
                                g,
                                dec,
                                false,
                                seq![*start],
                                Set::<u64>::empty(),
                                search_fuel(g),
                            ) by {
                                assert(search_run(g, dec, false, q0, vs0, fuel0) == search_run(
                                    g,
                                    dec,
                                    false,
                                    seq![*start],
                                    Set::<u64>::empty(),
                                    search_fuel(g),
                                ));
                                assert(dec(node) == SearchRes::Find);
                                assert(!vs0.contains(node));
                            }
                        }
                        return Some(node);
                    },
                    SearchRes::Stop => {
                        proof {
                            assert forall|dec: spec_fn(u64) -> SearchRes| #[trigger]
                                follows(target, dec) implies None::<u64> == search_run(
                                g,
                                dec,
                                false,
                                seq![*start],
                                Set::<u64>::empty(),
                                search_fuel(g),
                            ) by {
                                assert(search_run(g, dec, false, q0, vs0, fuel0) == search_run(
                                    g,
                                    dec,
                                    false,
                                    seq![*start],
                                    Set::<u64>::empty(),
                                    search_fuel(g),
                                ));
                                assert(dec(node) == SearchRes::Stop);
                                assert(!vs0.contains(node));
                            }
                        }
                        return None;
                    },
                    SearchRes::Skip => {
                        proof {
                            assert forall|b: u64| #[trigger] q0.contains(b) implies visited.set_spec().contains(b)
                                || q@.contains(b) by {
                                let i = choose|i: int| 0 <= i < q0.len() && q0[i] == b;
                                if i > 0 {
                                    assert(q@[i - 1] == b);
                                }
                            }
                            lemma_pending_shift(g, target, vs0, q0, visited.set_spec(), q@);
                            assert(expanded_into(g, target, visited.set_spec(), q@, node));
                            iters = iters + 1;
                            assert forall|dec: spec_fn(u64) -> SearchRes| #[trigger]
                                follows(target, dec) implies search_run(
                                g,
                                dec,
                                false,
                                q@,
                                visited.set_spec(),
                                (search_fuel(g) - iters) as nat,
                            ) == search_run(
                                g,
                                dec,
                                false,
                                seq![*start],
                                Set::<u64>::empty(),
                                search_fuel(g),
                            ) by {
                                assert(search_run(g, dec, false, q0, vs0, fuel0) == search_run(
                                    g,
                                    dec,
                                    false,
                                    seq![*start],
                                    Set::<u64>::empty(),
                                    search_fuel(g),
                                ));
                                assert(dec(node) == SearchRes::Skip);
                                assert(!vs0.contains(node));
                                assert(visited.set_spec() == vs0.insert(node));
                            }
                        }
                    },
                    SearchRes::Next => {
                        let ghost vs1 = visited.set_spec();
                        let ghost q1 = q@;
                        let ghost p0 = pushed;
                        match g.descendants(node) {
                            Some(row) => {
                                proof {
                                    assert(row@.take(0) =~= Seq::<(u64, EL)>::empty());
                                    assert(q@ =~= q1 + fresh_targets(row@.take(0), vs1));
                                }
                                let mut j: usize = 0;
                                while j < row.len()
                                    invariant
                                        g == self.graph,
                                        g.wf(),
                                        alist_wf(row@),
                                        g.edge_map().contains_key(node),
                                        alist_map(row@) == g.edge_map()[node],
                                        j <= row@.len(),
                                        g.reachable(*start, node),
                                        visited.set_spec() == vs1,
                                        forall|i: int|
                                            0 <= i < q@.len() ==> g.reachable(
                                                *start,
                                                #[trigger] q@[i],
                                            ),
                                        forall|b: u64| #[trigger]
                                            q1.contains(b) ==> q@.contains(b),
                                        forall|jj: int|
                                            0 <= jj < j ==> visited.set_spec().contains(
                                                #[trigger] row@[jj].0,
                                            ) || q@.contains(row@[jj].0),
                                        pushed <= 1 + row_budget(g.edges@, vs0) + j,
                                        pushed - p0 == q@.len() - q1.len(),
                                        q@.len() <= pushed,
                                        q@ == q1 + fresh_targets(row@.take(j as int), vs1),
                                    decreases row@.len() - j,
                                {
                                    let b = row[j].0;
                                    proof {
                                        lemma_alist_map_index(row@, j as int);
                                        assert(g.has_edge(node, b));
                                        lemma_reachable_step(g, *start, node, b);
                                        lemma_fresh_targets_take(row@, vs1, j as int);
                                    }
                                    let ghost qbefore = q@;
                                    if !visited.already_visited(&b) {
                                        q.push_back(b);
                                        proof {
                                            pushed = pushed + 1;
                                            assert(q@[q@.len() - 1] == b);
                                            assert forall|x: u64| #[trigger]
                                                qbefore.contains(x) implies q@.contains(x) by {
                                                let i = choose|i: int|
                                                    0 <= i < qbefore.len() && qbefore[i] == x;
                                                assert(q@[i] == x);
                                            }
                                            assert(q@ =~= q1 + fresh_targets(
                                                row@.take(j as int + 1),
                                                vs1,
                                            ));
                                        }
                                    } else {
                                        proof {
                                            assert(q@ =~= q1 + fresh_targets(
                                                row@.take(j as int + 1),
                                                vs1,
                                            ));
                                        }
                                    }
                                    j += 1;
                                }
                                proof {
                                    assert(row_budget(g.edges@, visited.set_spec()) == row_budget(
                                        g.edges@,
                                        vs0,
                                    ) + row@.len()) by {
                                        assert(alist_map(g.edges@).contains_key(node));
                                        assert(alist_map(g.edges@)[node]@ == row@);
                                    }
                                    assert forall|b: u64| #[trigger]
                                        g.has_edge(node, b) implies visited.set_spec().contains(b)
                                        || q@.contains(b) by {
                                        lemma_alist_map_dom(row@, b);
                                        let jj = choose|jj: int|
                                            0 <= jj < row@.len() && row@[jj].0 == b;
                                        assert(visited.set_spec().contains(row@[jj].0)
                                            || q@.contains(row@[jj].0));
                                    }
                                    assert(expanded_into(g, target, visited.set_spec(), q@, node));
                                    assert forall|b: u64| #[trigger]
                                        q0.contains(b) implies visited.set_spec().contains(b)
                                        || q@.contains(b) by {
                                        let i = choose|i: int| 0 <= i < q0.len() && q0[i] == b;
                                        if i > 0 {
                                            assert(q1[i - 1] == b);
                                            assert(q1.contains(b));
                                        } else {
                                            assert(b == node);
                                        }
                                    }
                                    lemma_pending_shift(g, target, vs0, q0, visited.set_spec(), q@);
                                    iters = iters + 1;
                                    assert(row@.take(row@.len() as int) =~= row@);
                                    assert(alist_map(g.edges@).contains_key(node)) by {
                                        assert(g.edge_map().contains_key(node));
                                    }
                                    assert(alist_map(g.edges@)[node]@ == row@);
                                    assert forall|dec: spec_fn(u64) -> SearchRes| #[trigger]
                                        follows(target, dec) implies search_run(
                                        g,
                                        dec,
                                        false,
                                        q@,
                                        visited.set_spec(),
                                        (search_fuel(g) - iters) as nat,
                                    ) == search_run(
                                        g,
                                        dec,
                                        false,
                                        seq![*start],
                                        Set::<u64>::empty(),
                                        search_fuel(g),
                                    ) by {
                                        assert(search_run(g, dec, false, q0, vs0, fuel0)
                                            == search_run(
                                            g,
                                            dec,
                                            false,
                                            seq![*start],
                                            Set::<u64>::empty(),
                                            search_fuel(g),
                                        ));
                                        assert(dec(node) == SearchRes::Next);
                                        assert(!vs0.contains(node));
                                        assert(vs1 == vs0.insert(node));
                                        assert(q@ == q1 + fresh_targets(row@, vs1));
                                    }
                                }
                            },
                            None => {
                                proof {
                                    assert(expanded_into(g, target, visited.set_spec(), q@, node));
                                    assert forall|b: u64| #[trigger]
                                        q0.contains(b) implies visited.set_spec().contains(b)
                                        || q@.contains(b) by {
                                        let i = choose|i: int| 0 <= i < q0.len() && q0[i] == b;
                                        if i > 0 {
                                            assert(q@[i - 1] == b);
                                        } else {
                                            assert(b == node);
                                        }
                                    }
                                    lemma_pending_shift(g, target, vs0, q0, visited.set_spec(), q@);
                                    lemma_row_budget_mono(g.edges@, vs0, visited.set_spec());
                                    iters = iters + 1;
                                    assert(!alist_map(g.edges@).contains_key(node)) by {
                                        if alist_map(g.edges@).contains_key(node) {
                                            assert(g.edge_map().contains_key(node));
                                        }
                                    }
                                    assert forall|dec: spec_fn(u64) -> SearchRes| #[trigger]
                                        follows(target, dec) implies search_run(
                                        g,
                                        dec,
                                        false,
                                        q@,
                                        visited.set_spec(),
                                        (search_fuel(g) - iters) as nat,
                                    ) == search_run(
                                        g,
                                        dec,
                                        false,
                                        seq![*start],
                                        Set::<u64>::empty(),
                                        search_fuel(g),
                                    ) by {
                                        assert(search_run(g, dec, false, q0, vs0, fuel0)
                                            == search_run(
                                            g,
                                            dec,
                                            false,
                                            seq![*start],
                                            Set::<u64>::empty(),
                                            search_fuel(g),
                                        ));
                                        assert(dec(node) == SearchRes::Next);
                                        assert(!vs0.contains(node));
                                        assert(visited.set_spec() == vs0.insert(node));
                                        assert(fresh_targets(
                                            Seq::<(u64, EL)>::empty(),
                                            vs0.insert(node),
                                        ) =~= Seq::<u64>::empty());
                                        assert(q@ =~= q@ + fresh_targets(
                                            Seq::<(u64, EL)>::empty(),
                                            vs0.insert(node),
                                        ));
                                    }
                                }
                            },
                        }
                    },
                }
            }
        }
        proof {
            let vs = visited.set_spec();
            assert(q@ =~= Seq::<u64>::empty());
            assert forall|v: u64| #[trigger] vs.contains(v) implies expanded_into(
                g,
                target,
                vs,
                Seq::<u64>::empty(),
                v,
            ) by {
                let res = choose|res: SearchRes|
                    {
                        &&& #[trigger] call_ensures(target, (&v,), res)
                        &&& res != SearchRes::Find
                        &&& res == SearchRes::Next ==> forall|b: u64| #[trigger]
                            g.has_edge(v, b) ==> vs.contains(b) || q@.contains(b)
                    };
                assert(call_ensures(target, (&v,), res));
            }
            assert(halted_without_find(g, *start, target, vs));
        }
        None
    }
}

} // verus!
