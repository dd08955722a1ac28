use vstd::prelude::*;

pub mod astar;
pub mod dijkstra;
pub mod fs;
pub mod min_weight;
pub mod visit;

use crate::graph::alist_get;
use crate::graph::DiGraph;
use vstd::std_specs::cmp::PartialEqSpec;

verus! {

/// What a traversal decision tells the search to do with the node at
/// hand: expand its neighbors, return it as found, abort the whole
/// search, or drop the branch without expanding it.
#[derive(Debug, Clone, Copy, PartialEq, Eq, Structural)]
pub enum SearchRes {
    Next,
    Find,
    Stop,
    Skip,
}

/// Read-only lookups over a borrowed graph.
pub struct GraphAnalyzer<'a, NL, EL> {
    pub graph: &'a DiGraph<NL, EL>,
}

/// The first payload of `s` that compares equal to `p`, in row order.
pub open spec fn first_payload_match<NL: PartialEq>(s: Seq<(u64, NL)>, p: NL) -> Option<NL>
    decreases s.len(),
{
    if s.len() == 0 {
        None
    } else if s.first().1.eq_spec(&p) {
        Some(s.first().1)
    } else {
        first_payload_match(s.drop_first(), p)
    }
}

impl<'a, NL, EL> GraphAnalyzer<'a, NL, EL> {
    /// The payload stored under `id`, if any.
    pub fn node_by_id(&self, id: &u64) -> (r: Option<&'a NL>)
        requires
            self.graph.wf(),
        ensures
            match r {
                Some(v) => self.graph.node_map().contains_key(*id) && *v == self.graph.node_map()[
                    *id
                ],
                None => !self.graph.node_map().contains_key(*id),
            },
    {
        alist_get(&self.graph.nodes, *id)
    }

    /// The payload stored under `(from, to)`, if any.
    pub fn edge(&self, from: &u64, to: &u64) -> (r: Option<&'a EL>)
        requires
            self.graph.wf(),
        ensures
            match r {
                Some(v) => self.graph.has_edge(*from, *to) && *v == self.graph.edge_payload(
                    *from,
                    *to,
                ),
                None => !self.graph.has_edge(*from, *to),
            },
    {
        match self.graph.descendants(*from) {
            Some(row) => alist_get(row, *to),
            None => None,
        }
    }
}

impl<'a, NL: PartialEq, EL> GraphAnalyzer<'a, NL, EL> {
    /// The first stored payload that compares equal to `payload`, in the
    /// store's row order.
    pub fn first_node_by_payload(&self, payload: &NL) -> (r: Option<&'a NL>)
        requires
            self.graph.wf(),
        ensures
            NL::obeys_eq_spec() ==> match r {
                Some(v) => first_payload_match(self.graph.nodes_seq(), *payload) == Some(*v),
                None => first_payload_match(self.graph.nodes_seq(), *payload) is None,
            },
    {
        let nodes = &self.graph.nodes;
        let ghost s = nodes@;
        proof {
            assert(s.skip(0) =~= s);
        }
        let mut i: usize = 0;
        while i < nodes.len()
            invariant
                i <= s.len(),
                nodes@ == s,
                self.graph.nodes_seq() == s,
                NL::obeys_eq_spec() ==> first_payload_match(s, *payload) == first_payload_match(
                    s.skip(i as int),
                    *payload,
                ),
            decreases s.len() - i,
        {
            proof {
                assert(s.skip(i as int).first() == s[i as int]);
                assert(s.skip(i as int).drop_first() =~= s.skip(i as int + 1));
            }
            if nodes[i].1 == *payload {
                return Some(&nodes[i].1);
            }
            i += 1;
        }
        None
    }

    /// The payload stored under `id`, when it also compares equal to
    /// `payload`.
    pub fn node(&self, id: &u64, payload: &NL) -> (r: Option<&'a NL>)
        requires
            self.graph.wf(),
        ensures
            NL::obeys_eq_spec() ==> match r {
                Some(v) => self.graph.node_map().contains_key(*id) && *v == self.graph.node_map()[
                    *id
                ] && v.eq_spec(payload),
                None => !self.graph.node_map().contains_key(*id) || !self.graph.node_map()[
                    *id
                ].eq_spec(payload),
            },
    {
        match self.node_by_id(id) {
            Some(v) => {
                if *v == *payload {
                    Some(v)
                } else {
                    None
                }
            },
            None => None,
        }
    }
}

} // verus!
