use vstd::prelude::*;

pub mod analyzer;

use crate::graph::analyzer::GraphAnalyzer;

verus! {

// ------------------------------------------------------------------
// Association lists
//
// The store keeps its mappings as vectors of pairs with distinct keys.
// `alist_map` is the mapping such a vector stands for, and the
// contracts of the store speak over it.
// ------------------------------------------------------------------

/// The keys of the association list are pairwise distinct.
pub open spec fn alist_wf<V>(s: Seq<(u64, V)>) -> bool {
    forall|i: int, j: int| 0 <= i < j < s.len() ==> s[i].0 != s[j].0
}

/// The mapping that an association list represents.
pub open spec fn alist_map<V>(s: Seq<(u64, V)>) -> Map<u64, V>
    decreases s.len(),
{
    if s.len() == 0 {
        Map::empty()
    } else {
        alist_map(s.drop_last()).insert(s.last().0, s.last().1)
    }
}

pub proof fn lemma_alist_map_dom<V>(s: Seq<(u64, V)>, k: u64)
    ensures
        alist_map(s).contains_key(k) <==> exists|i: int| 0 <= i < s.len() && s[i].0 == k,
    decreases s.len(),
{
    if s.len() > 0 {
        lemma_alist_map_dom(s.drop_last(), k);
        if exists|i: int| 0 <= i < s.len() && s[i].0 == k {
            let i = choose|i: int| 0 <= i < s.len() && s[i].0 == k;
            if i < s.len() - 1 {
                assert(s.drop_last()[i].0 == k);
            }
        }
    }
}

pub proof fn lemma_alist_map_index<V>(s: Seq<(u64, V)>, i: int)
    requires
        alist_wf(s),
        0 <= i < s.len(),
    ensures
        alist_map(s).contains_key(s[i].0),
        alist_map(s)[s[i].0] == s[i].1,
    decreases s.len(),
{
    if i < s.len() - 1 {
        lemma_alist_map_index(s.drop_last(), i);
    }
}

/// Replacing the row at `i` while keeping its key updates the mapping
/// at that key alone.
pub proof fn lemma_alist_map_update<V>(s: Seq<(u64, V)>, i: int, v: V)
    requires
        alist_wf(s),
        0 <= i < s.len(),
    ensures
        alist_wf(s.update(i, (s[i].0, v))),
        alist_map(s.update(i, (s[i].0, v))) == alist_map(s).insert(s[i].0, v),
    decreases s.len(),
{
    let k = s[i].0;
    let t = s.update(i, (k, v));
    if i == s.len() - 1 {
        assert(t.drop_last() =~= s.drop_last());
        assert(alist_map(t) =~= alist_map(s).insert(k, v));
    } else {
        lemma_alist_map_update(s.drop_last(), i, v);
        assert(t.drop_last() =~= s.drop_last().update(i, (k, v)));
        assert(t.last() == s.last());
        assert(s.last().0 != k);
        assert(alist_map(t) =~= alist_map(s).insert(k, v));
    }
}

/// Removing the row at `i` removes its key from the mapping.
pub proof fn lemma_alist_map_remove<V>(s: Seq<(u64, V)>, i: int)
    requires
        alist_wf(s),
        0 <= i < s.len(),
    ensures
        alist_wf(s.remove(i)),
        alist_map(s.remove(i)) == alist_map(s).remove(s[i].0),
    decreases s.len(),
{
    let k = s[i].0;
    let t = s.remove(i);
    lemma_alist_map_dom(s.drop_last(), k);
    if i == s.len() - 1 {
        assert(t =~= s.drop_last());
        assert(alist_map(t) =~= alist_map(s).remove(k));
    } else {
        lemma_alist_map_remove(s.drop_last(), i);
        assert(t.drop_last() =~= s.drop_last().remove(i));
        assert(t.last() == s.last());
        assert(alist_map(t) =~= alist_map(s).remove(k));
    }
}

/// An association list represents a finite mapping.
pub proof fn lemma_alist_map_finite<V>(s: Seq<(u64, V)>)
    ensures
        alist_map(s).dom().finite(),
    decreases s.len(),
{
    if s.len() > 0 {
        lemma_alist_map_finite(s.drop_last());
    }
}

/// An association list with distinct keys has exactly one mapping entry
/// per row.
pub proof fn lemma_alist_dom_len<V>(s: Seq<(u64, V)>)
    requires
        alist_wf(s),
    ensures
        alist_map(s).dom().finite(),
        alist_map(s).dom().len() == s.len(),
    decreases s.len(),
{
    if s.len() > 0 {
        lemma_alist_dom_len(s.drop_last());
        lemma_alist_map_dom(s.drop_last(), s.last().0);
    }
}

/// Appending a row with a fresh key inserts it into the mapping.
pub proof fn lemma_alist_map_push<V>(s: Seq<(u64, V)>, k: u64, v: V)
    requires
        alist_wf(s),
        !alist_map(s).contains_key(k),
    ensures
        alist_wf(s.push((k, v))),
        alist_map(s.push((k, v))) == alist_map(s).insert(k, v),
{
    lemma_alist_map_dom(s, k);
    assert(s.push((k, v)).drop_last() =~= s);
}

/// Finds the position of a key.
pub(crate) fn alist_find<V>(list: &Vec<(u64, V)>, k: u64) -> (r: Option<usize>)
    requires
        alist_wf(list@),
    ensures
        match r {
            Some(i) => i < list@.len() && list@[i as int].0 == k,
            None => !alist_map(list@).contains_key(k),
        },
{
    let mut i: usize = 0;
    while i < list.len()
        invariant
            i <= list@.len(),
            forall|j: int| 0 <= j < i ==> list@[j].0 != k,
        decreases list@.len() - i,
    {
        if list[i].0 == k {
            return Some(i);
        }
        i += 1;
    }
    proof {
        lemma_alist_map_dom(list@, k);
    }
    None
}

/// Looks a key up.
pub(crate) fn alist_get<'a, V>(list: &'a Vec<(u64, V)>, k: u64) -> (r: Option<&'a V>)
    requires
        alist_wf(list@),
    ensures
        match r {
            Some(v) => alist_map(list@).contains_key(k) && *v == alist_map(list@)[k],
            None => !alist_map(list@).contains_key(k),
        },
{
    match alist_find(list, k) {
        Some(i) => {
            proof {
                lemma_alist_map_index(list@, i as int);
            }
            Some(&list[i].1)
        },
        None => None,
    }
}

/// Inserts a binding, replacing and returning the previous value of the
/// key if there was one.
pub(crate) fn alist_insert<V>(list: &mut Vec<(u64, V)>, k: u64, v: V) -> (old_v: Option<V>)
    requires
        alist_wf(old(list)@),
    ensures
        alist_wf(final(list)@),
        alist_map(final(list)@) == alist_map(old(list)@).insert(k, v),
        match old_v {
            Some(o) => alist_map(old(list)@).contains_key(k) && o == alist_map(old(list)@)[k],
            None => !alist_map(old(list)@).contains_key(k),
        },
        old_v is None ==> final(list)@ == old(list)@.push((k, v)),
        old_v is Some ==> exists|i: int|
            0 <= i < old(list)@.len() && old(list)@[i].0 == k && final(list)@ == old(
                list,
            )@.update(i, (k, v)),
{
    match alist_find(list, k) {
        Some(i) => {
            proof {
                lemma_alist_map_index(list@, i as int);
                lemma_alist_map_update(list@, i as int, v);
            }
            let ghost s0 = list@;
            let old_pair = list.remove(i);
            list.insert(i, (k, v));
            proof {
                assert(list@ =~= s0.update(i as int, (k, v)));
            }
            Some(old_pair.1)
        },
        None => {
            proof {
                lemma_alist_map_push(list@, k, v);
            }
            list.push((k, v));
            None
        },
    }
}

/// Removes a binding, returning the previous value of the key if there
/// was one.
pub(crate) fn alist_remove<V>(list: &mut Vec<(u64, V)>, k: u64) -> (old_v: Option<V>)
    requires
        alist_wf(old(list)@),
    ensures
        alist_wf(final(list)@),
        alist_map(final(list)@) == alist_map(old(list)@).remove(k),
        match old_v {
            Some(o) => alist_map(old(list)@).contains_key(k) && o == alist_map(old(list)@)[k],
            None => !alist_map(old(list)@).contains_key(k),
        },
{
    match alist_find(list, k) {
        Some(i) => {
            proof {
                lemma_alist_map_index(list@, i as int);
                lemma_alist_map_remove(list@, i as int);
            }
            let old_pair = list.remove(i);
            Some(old_pair.1)
        },
        None => {
            proof {
                lemma_alist_map_dom(list@, k);
                assert(alist_map(list@) =~= alist_map(list@).remove(k));
            }
            None
        },
    }
}

// ------------------------------------------------------------------
// The graph store
// ------------------------------------------------------------------

/// A directed graph: node payloads keyed by id, adjacency lists of edge
/// payloads keyed by source id, and the first node ever inserted. Edges
/// may name ids that are not present as nodes and self loops are
/// allowed; at most one payload is kept per ordered pair.
pub struct DiGraph<NL, EL> {
    pub nodes: Vec<(u64, NL)>,
    pub edges: Vec<(u64, Vec<(u64, EL)>)>,
    pub start: Option<u64>,
}

impl<NL, EL> DiGraph<NL, EL> {
    /// Distinct node ids, distinct edge sources, and distinct targets
    /// within each adjacency list.
    pub open spec fn wf(&self) -> bool {
        &&& alist_wf(self.nodes@)
        &&& alist_wf(self.edges@)
        &&& forall|i: int| 0 <= i < self.edges@.len() ==> alist_wf(#[trigger] self.edges@[i].1@)
    }

    /// Node payloads by id.
    pub open spec fn node_map(&self) -> Map<u64, NL> {
        alist_map(self.nodes@)
    }

    /// The node rows, in insertion order.
    pub open spec fn nodes_seq(&self) -> Seq<(u64, NL)> {
        self.nodes@
    }

    /// The ids that are present as nodes.
    pub open spec fn node_ids(&self) -> Set<u64> {
        self.node_map().dom()
    }

    /// Edge payloads, keyed by source and then by target.
    pub open spec fn edge_map(&self) -> Map<u64, Map<u64, EL>> {
        alist_map(self.edges@).map_values(|row: Vec<(u64, EL)>| alist_map(row@))
    }

    /// Whether an edge from `a` to `b` is stored.
    pub open spec fn has_edge(&self, a: u64, b: u64) -> bool {
        self.edge_map().contains_key(a) && self.edge_map()[a].contains_key(b)
    }

    /// The payload of the edge from `a` to `b`.
    pub open spec fn edge_payload(&self, a: u64, b: u64) -> EL {
        self.edge_map()[a][b]
    }

    /// The tracked start node: the first node ever inserted. It is not
    /// cleared when that node is removed.
    pub open spec fn start_spec(&self) -> Option<u64> {
        self.start
    }

    /// Every stored edge points at an id that is present as a node.
    pub open spec fn targets_known(&self) -> bool {
        forall|a: u64, b: u64| #[trigger] self.has_edge(a, b) ==> self.node_ids().contains(b)
    }

    /// `p` walks stored edges.
    pub open spec fn is_path(&self, p: Seq<u64>) -> bool {
        &&& p.len() >= 1
        &&& forall|i: int| 0 <= i < p.len() - 1 ==> #[trigger] self.has_edge(p[i], p[i + 1])
    }

    /// Some walk over stored edges leads from `a` to `b`.
    pub open spec fn reachable(&self, a: u64, b: u64) -> bool {
        exists|p: Seq<u64>| self.is_path(p) && p.first() == a && p.last() == b
    }
}

/// The adjacency mapping of `from`, or the empty mapping when `from`
/// has none.
pub open spec fn row_or_empty<EL>(m: Map<u64, Map<u64, EL>>, from: u64) -> Map<u64, EL> {
    if m.contains_key(from) {
        m[from]
    } else {
        Map::empty()
    }
}

/// The total weight of a path under a weight assignment for the edges.
pub open spec fn path_weight(p: Seq<u64>, w: Map<(u64, u64), u64>) -> int
    decreases p.len(),
{
    if p.len() <= 1 {
        0
    } else {
        path_weight(p.drop_last(), w) + w[(p[p.len() - 2], p[p.len() - 1])]
    }
}

impl DiGraph<EmptyPayload, EmptyPayload> {
    /// A graph without payloads.
    pub fn empty() -> (g: Self)
        ensures
            g.wf(),
            g.node_map() == Map::<u64, EmptyPayload>::empty(),
            g.edge_map() == Map::<u64, Map<u64, EmptyPayload>>::empty(),
            g.start_spec() is None,
            g.nodes_seq() == Seq::<(u64, EmptyPayload)>::empty(),
    {
        Self::new()
    }
}

impl<NL, EL> DiGraph<NL, EL> {
    pub fn new() -> (g: Self)
        ensures
            g.wf(),
            g.node_map() == Map::<u64, NL>::empty(),
            g.edge_map() == Map::<u64, Map<u64, EL>>::empty(),
            g.start_spec() is None,
            g.nodes_seq() == Seq::<(u64, NL)>::empty(),
    {
        let g = Self { nodes: Vec::new(), edges: Vec::new(), start: None };
        proof {
            assert(g.edge_map() =~= Map::<u64, Map<u64, EL>>::empty());
        }
        g
    }

    /// Stores a node payload under `id`, overwriting any previous one.
    /// Returns the id when it was already present, `None` when it is
    /// new. The first node ever inserted becomes the start node.
    pub fn add_node(&mut self, id: u64, payload: NL) -> (r: Option<u64>)
        requires
            old(self).wf(),
        ensures
            final(self).wf(),
            final(self).node_map() == old(self).node_map().insert(id, payload),
            final(self).edge_map() == old(self).edge_map(),
            r == (if old(self).node_map().contains_key(id) {
                Some(id)
            } else {
                None::<u64>
            }),
            final(self).start_spec() == (if old(self).start_spec() is None {
                Some(id)
            } else {
                old(self).start_spec()
            }),
            old(self).node_map().contains_key(id) ==> exists|i: int|
                0 <= i < old(self).nodes_seq().len() && old(self).nodes_seq()[i].0 == id
                    && final(self).nodes_seq() == old(self).nodes_seq().update(i, (id, payload)),
            !old(self).node_map().contains_key(id) ==> final(self).nodes_seq() == old(
                self).nodes_seq().push((id, payload)),
    {
        let prev = alist_insert(&mut self.nodes, id, payload);
        proof {
            if old(self).node_map().contains_key(id) {
                let i = choose|i: int|
                    0 <= i < old(self).nodes@.len() && old(self).nodes@[i].0 == id && self.nodes@
                        == old(self).nodes@.update(i, (id, payload));
                assert(0 <= i < old(self).nodes_seq().len() && old(self).nodes_seq()[i].0 == id
                    && self.nodes_seq() == old(self).nodes_seq().update(i, (id, payload)));
            }
        }
        if self.start.is_none() {
            self.start = Some(id);
        }
        if prev.is_some() {
            Some(id)
        } else {
            None
        }
    }

    /// Removes the payload stored under `id` and returns it. The
    /// tracked start node is left as it is, even when it names `id`.
    pub fn remove_node(&mut self, id: u64) -> (r: Option<NL>)
        requires
            old(self).wf(),
        ensures
            final(self).wf(),
            final(self).node_map() == old(self).node_map().remove(id),
            final(self).edge_map() == old(self).edge_map(),
            final(self).start_spec() == old(self).start_spec(),
            r == (if old(self).node_map().contains_key(id) {
                Some(old(self).node_map()[id])
            } else {
                None::<NL>
            }),
    {
        alist_remove(&mut self.nodes, id)
    }

    /// Stores an edge payload under `(from, to)`, overwriting and
    /// returning any previous one.
    pub fn add_edge(&mut self, from: u64, to: u64, payload: EL) -> (r: Option<EL>)
        requires
            old(self).wf(),
        ensures
            final(self).wf(),
            final(self).node_map() == old(self).node_map(),
            final(self).nodes_seq() == old(self).nodes_seq(),
            final(self).start_spec() == old(self).start_spec(),
            final(self).edge_map() == old(self).edge_map().insert(
                from,
                (if old(self).edge_map().contains_key(from) {
                    old(self).edge_map()[from]
                } else {
                    Map::<u64, EL>::empty()
                }).insert(to, payload),
            ),
            r == (if old(self).has_edge(from, to) {
                Some(old(self).edge_payload(from, to))
            } else {
                None::<EL>
            }),
    {
        let ghost row0 = if old(self).edge_map().contains_key(from) {
            old(self).edge_map()[from]
        } else {
            Map::<u64, EL>::empty()
        };
        let i = self.edge_row(from);
        let ghost s1 = self.edges@;
        let pair = self.edges.remove(i);
        let mut rowv = pair.1;
        let r = alist_insert(&mut rowv, to, payload);
        proof {
            assert(alist_map(rowv@) == row0.insert(to, payload));
        }
        let ghost rv = rowv;
        self.edges.insert(i, (from, rowv));
        proof {
            assert(self.edges@ =~= s1.update(i as int, (from, rv)));
            lemma_alist_map_update(s1, i as int, rv);
            assert(self.edge_map() =~= alist_map(s1).map_values(
                |row: Vec<(u64, EL)>| alist_map(row@),
            ).insert(from, alist_map(rv@)));
            assert(self.edge_map() =~= old(self).edge_map().insert(from, row0.insert(to, payload)));
        }
        r
    }

    /// Removes the payload stored under `(from, to)` and returns it. A
    /// source that never had an outgoing edge is left without an
    /// adjacency row.
    pub fn remove_edge(&mut self, from: u64, to: u64) -> (r: Option<EL>)
        requires
            old(self).wf(),
        ensures
            final(self).wf(),
            final(self).node_map() == old(self).node_map(),
            final(self).nodes_seq() == old(self).nodes_seq(),
            final(self).start_spec() == old(self).start_spec(),
            final(self).edge_map() == (if old(self).edge_map().contains_key(from) {
                old(self).edge_map().insert(from, old(self).edge_map()[from].remove(to))
            } else {
                old(self).edge_map()
            }),
            r == (if old(self).has_edge(from, to) {
                Some(old(self).edge_payload(from, to))
            } else {
                None::<EL>
            }),
    {
        let i = match alist_find(&self.edges, from) {
            Some(i) => i,
            None => {
                return None;
            },
        };
        proof {
            lemma_alist_map_dom(self.edges@, from);
            lemma_alist_map_index(self.edges@, i as int);
        }
        let ghost row0 = old(self).edge_map()[from];
        let ghost s1 = self.edges@;
        let pair = self.edges.remove(i);
        let mut rowv = pair.1;
        let r = alist_remove(&mut rowv, to);
        proof {
            assert(alist_map(rowv@) == row0.remove(to));
        }
        let ghost rv = rowv;
        self.edges.insert(i, (from, rowv));
        proof {
            assert(self.edges@ =~= s1.update(i as int, (from, rv)));
            lemma_alist_map_update(s1, i as int, rv);
            assert(self.edge_map() =~= alist_map(s1).map_values(
                |row: Vec<(u64, EL)>| alist_map(row@),
            ).insert(from, alist_map(rv@)));
            assert(self.edge_map() =~= old(self).edge_map().insert(from, row0.remove(to)));
        }
        r
    }

    /// The outgoing adjacency list of `from`: target and payload per
    /// stored edge. `None` when `from` never had an outgoing edge.
    pub fn descendants<'a>(&'a self, from: u64) -> (r: Option<&'a Vec<(u64, EL)>>)
        requires
            self.wf(),
        ensures
            match r {
                Some(row) => self.edge_map().contains_key(from) && alist_wf(row@) && alist_map(
                    row@,
                ) == self.edge_map()[from] && *row == alist_map(self.edges@)[from],
                None => !self.edge_map().contains_key(from),
            },
    {
        let r = alist_get(&self.edges, from);
        proof {
            if r is Some {
                lemma_alist_map_dom(self.edges@, from);
                let i = choose|i: int| 0 <= i < self.edges@.len() && self.edges@[i].0 == from;
                lemma_alist_map_index(self.edges@, i);
            }
        }
        r
    }

    /// The tracked start node.
    pub fn start(&self) -> (r: &Option<u64>)
        ensures
            *r == self.start_spec(),
    {
        &self.start
    }

    /// A read-only query facade over this graph.
    pub fn analyze<'a>(&'a self) -> (r: GraphAnalyzer<'a, NL, EL>)
        ensures
            r.graph == self,
    {
        GraphAnalyzer { graph: self }
    }

    /// Finds the adjacency row of `from`, creating an empty one when it
    /// is absent.
    fn edge_row(&mut self, from: u64) -> (i: usize)
        requires
            old(self).wf(),
        ensures
            final(self).wf(),
            final(self).nodes@ == old(self).nodes@,
            final(self).start == old(self).start,
            i < final(self).edges@.len(),
            final(self).edges@[i as int].0 == from,
            final(self).edge_map() == old(self).edge_map().insert(
                from,
                (if old(self).edge_map().contains_key(from) {
                    old(self).edge_map()[from]
                } else {
                    Map::<u64, EL>::empty()
                }),
            ),
            alist_map(final(self).edges@[i as int].1@) == (if old(self).edge_map().contains_key(
                from,
            ) {
                old(self).edge_map()[from]
            } else {
                Map::<u64, EL>::empty()
            }),
    {
        match alist_find(&self.edges, from) {
            Some(i) => {
                proof {
                    lemma_alist_map_dom(self.edges@, from);
                    lemma_alist_map_index(self.edges@, i as int);
                    assert(self.edge_map() =~= self.edge_map().insert(
                        from,
                        self.edge_map()[from],
                    ));
                }
                i
            },
            None => {
                let ghost s0 = self.edges@;
                let row: Vec<(u64, EL)> = Vec::new();
                let ghost rv = row;
                self.edges.push((from, row));
                proof {
                    lemma_alist_map_push(s0, from, rv);
                    assert(self.edges@ =~= s0.push((from, rv)));
                    assert(self.edge_map() =~= old(self).edge_map().insert(
                        from,
                        Map::<u64, EL>::empty(),
                    ));
                }
                self.edges.len() - 1
            },
        }
    }
}

impl<NL: Default, EL> DiGraph<NL, EL> {
    /// Stores a node with the payload type's default value.
    pub fn add_bare_node(&mut self, id: u64) -> (r: Option<u64>)
        requires
            old(self).wf(),
        ensures
            final(self).wf(),
            exists|p: NL|
                call_ensures(NL::default, (), p) && #[trigger] final(self).node_map() == old(
                    self,
                ).node_map().insert(id, p),
            final(self).node_ids() == old(self).node_ids().insert(id),
            final(self).edge_map() == old(self).edge_map(),
            r == (if old(self).node_map().contains_key(id) {
                Some(id)
            } else {
                None::<u64>
            }),
            final(self).start_spec() == (if old(self).start_spec() is None {
                Some(id)
            } else {
                old(self).start_spec()
            }),
    {
        let d: NL = Default::default();
        let ghost dg = d;
        let r = self.add_node(id, d);
        proof {
            assert(call_ensures(NL::default, (), dg) && self.node_map() == old(
                self,
            ).node_map().insert(id, dg));
            assert(self.node_ids() =~= old(self).node_ids().insert(id));
        }
        r
    }
}

impl<NL, EL: Default> DiGraph<NL, EL> {
    /// Stores an edge with the payload type's default value,
    /// overwriting and returning any previous payload.
    pub fn add_bare_edge(&mut self, from: u64, to: u64) -> (r: Option<EL>)
        requires
            old(self).wf(),
        ensures
            final(self).wf(),
            final(self).node_map() == old(self).node_map(),
            final(self).nodes_seq() == old(self).nodes_seq(),
            final(self).start_spec() == old(self).start_spec(),
            exists|d: EL|
                call_ensures(EL::default, (), d) && final(self).edge_map() == old(
                    self,
                ).edge_map().insert(
                    from,
                    (#[trigger] row_or_empty(old(self).edge_map(), from).insert(to, d)),
                ),
            r == (if old(self).has_edge(from, to) {
                Some(old(self).edge_payload(from, to))
            } else {
                None::<EL>
            }),
    {
        let d: EL = Default::default();
        let ghost dg = d;
        let r = self.add_edge(from, to, d);
        proof {
            assert(call_ensures(EL::default, (), dg));
            assert(self.edge_map() == old(self).edge_map().insert(
                from,
                row_or_empty(old(self).edge_map(), from).insert(to, dg),
            ));
        }
        r
    }
}

/// Law: lookups are pure. Any two results that the node lookup contract
/// admits for the same store and id are the same, so repeated calls
/// against an unmodified store return identical results.
pub proof fn lemma_node_lookup_idempotent<NL, EL>(
    g: &DiGraph<NL, EL>,
    id: u64,
    r1: Option<NL>,
    r2: Option<NL>,
)
    requires
        r1 == (if g.node_map().contains_key(id) {
            Some(g.node_map()[id])
        } else {
            None::<NL>
        }),
        r2 == (if g.node_map().contains_key(id) {
            Some(g.node_map()[id])
        } else {
            None::<NL>
        }),
    ensures
        r1 == r2,
{
}

/// Law: lookups are pure. Any two results that the edge lookup contract
/// admits for the same store and pair are the same, so repeated calls
/// against an unmodified store return identical results.
pub proof fn lemma_edge_lookup_idempotent<NL, EL>(
    g: &DiGraph<NL, EL>,
    from: u64,
    to: u64,
    r1: Option<EL>,
    r2: Option<EL>,
)
    requires
        r1 == (if g.has_edge(from, to) {
            Some(g.edge_payload(from, to))
        } else {
            None::<EL>
        }),
        r2 == (if g.has_edge(from, to) {
            Some(g.edge_payload(from, to))
        } else {
            None::<EL>
        }),
    ensures
        r1 == r2,
{
}

/// Law: storing a node under a present id hands back that id and the
/// new payload replaces the previous one, while every other id keeps
/// its payload.
pub proof fn lemma_node_overwrite<NL>(
    nm0: Map<u64, NL>,
    id: u64,
    payload: NL,
    nm1: Map<u64, NL>,
    r: Option<u64>,
)
    requires
        nm1 == nm0.insert(id, payload),
        r == (if nm0.contains_key(id) {
            Some(id)
        } else {
            None::<u64>
        }),
        nm0.contains_key(id),
    ensures
        r == Some(id),
        nm1.contains_key(id) && nm1[id] == payload,
        forall|k: u64| k != id && #[trigger] nm0.contains_key(k) ==> nm1.contains_key(k) && nm1[k]
            == nm0[k],
{
}

/// Law: storing an edge under a present pair hands back the previously
/// stored payload and the new payload replaces it, while every other
/// pair keeps its payload.
pub proof fn lemma_edge_overwrite<EL>(
    em0: Map<u64, Map<u64, EL>>,
    from: u64,
    to: u64,
    payload: EL,
    em1: Map<u64, Map<u64, EL>>,
    r: Option<EL>,
)
    requires
        em1 == em0.insert(from, row_or_empty(em0, from).insert(to, payload)),
        r == (if em0.contains_key(from) && em0[from].contains_key(to) {
            Some(em0[from][to])
        } else {
            None::<EL>
        }),
        em0.contains_key(from),
        em0[from].contains_key(to),
    ensures
        r == Some(em0[from][to]),
        em1.contains_key(from) && em1[from].contains_key(to) && em1[from][to] == payload,
        forall|t: u64| t != to && #[trigger] em0[from].contains_key(t) ==> em1[from].contains_key(
            t,
        ) && em1[from][t] == em0[from][t],
        forall|f: u64| f != from && #[trigger] em0.contains_key(f) ==> em1.contains_key(f)
            && em1[f] == em0[f],
{
}

/// Every node reaches itself by the one-node walk.
pub proof fn lemma_reachable_self<NL, EL>(g: &DiGraph<NL, EL>, a: u64)
    ensures
        g.reachable(a, a),
{
    let p = seq![a];
    assert(g.is_path(p) && p.first() == a && p.last() == a);
}

/// Reachability extends over a stored edge.
pub proof fn lemma_reachable_step<NL, EL>(g: &DiGraph<NL, EL>, a: u64, b: u64, c: u64)
    requires
        g.reachable(a, b),
        g.has_edge(b, c),
    ensures
        g.reachable(a, c),
{
    let p = choose|p: Seq<u64>| g.is_path(p) && p.first() == a && p.last() == b;
    let q = p.push(c);
    assert forall|i: int| 0 <= i < q.len() - 1 implies #[trigger] g.has_edge(q[i], q[i + 1]) by {
        if i < p.len() - 1 {
            assert(g.has_edge(p[i], p[i + 1]));
        }
    }
    assert(g.is_path(q) && q.first() == a && q.last() == c);
}

/// A path that starts inside a set closed under stored edges ends
/// inside it.
pub proof fn lemma_path_stays<NL, EL>(g: &DiGraph<NL, EL>, vs: Set<u64>, p: Seq<u64>)
    requires
        g.is_path(p),
        vs.contains(p.first()),
        forall|x: u64, y: u64| vs.contains(x) && #[trigger] g.has_edge(x, y) ==> vs.contains(y),
    ensures
        vs.contains(p.last()),
    decreases p.len(),
{
    if p.len() > 1 {
        let q = p.drop_last();
        assert forall|i: int| 0 <= i < q.len() - 1 implies #[trigger] g.has_edge(q[i], q[i + 1]) by {
            assert(g.has_edge(p[i], p[i + 1]));
        }
        lemma_path_stays(g, vs, q);
        let i = p.len() - 2;
        assert(g.has_edge(p[i], p[i + 1]));
    }
}

/// Nothing outside a set closed under stored edges is reachable from
/// inside it.
pub proof fn lemma_reachable_closed<NL, EL>(g: &DiGraph<NL, EL>, vs: Set<u64>, a: u64, b: u64)
    requires
        g.reachable(a, b),
        vs.contains(a),
        forall|x: u64, y: u64| vs.contains(x) && #[trigger] g.has_edge(x, y) ==> vs.contains(y),
    ensures
        vs.contains(b),
{
    let p = choose|p: Seq<u64>| g.is_path(p) && p.first() == a && p.last() == b;
    lemma_path_stays(g, vs, p);
}

/// A unit payload for graphs whose nodes or edges carry no data.
#[derive(Debug, Clone, Copy, PartialEq, Eq, Structural)]
pub struct EmptyPayload;

impl Default for EmptyPayload {
    fn default() -> (r: Self)
        ensures
            r == EmptyPayload,
    {
        EmptyPayload
    }
}

impl EmptyPayload {
    /// The one-letter label the unit payload renders as.
    pub fn to_string(&self) -> (r: String)
        ensures
            r@ == "e"@,
    {
        proof {
            broadcast use vstd::string::to_string_from_display_ensures_for_str;

        }
        "e".to_string()
    }
}

} // verus!
