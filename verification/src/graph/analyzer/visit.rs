use vstd::prelude::*;

verus! {

/// Bookkeeping of the nodes a traversal has already expanded.
pub trait Visited {
    /// The set of recorded nodes.
    spec fn view_set(&self) -> Set<u64>;

    /// Records a node; reports whether it was new.
    fn visit(&mut self, v: &u64) -> (r: bool)
        ensures
            final(self).view_set() == old(self).view_set().insert(*v),
            r == !old(self).view_set().contains(*v),
    ;

    /// Whether a node was recorded before.
    fn already_visited(&self, v: &u64) -> (r: bool)
        ensures
            r == self.view_set().contains(*v),
    ;
}

/// A visited set over node ids.
pub struct VisitedSet {
    pub visited: Vec<u64>,
}

impl VisitedSet {
    /// The set of recorded nodes.
    pub open spec fn set_spec(&self) -> Set<u64> {
        Set::new(|x: u64| self.visited@.contains(x))
    }
}

impl Default for VisitedSet {
    fn default() -> (r: Self)
        ensures
            r.set_spec() == Set::<u64>::empty(),
    {
        let r = VisitedSet { visited: Vec::new() };
        proof {
            assert(r.set_spec() =~= Set::<u64>::empty());
        }
        r
    }
}

impl Visited for VisitedSet {
    open spec fn view_set(&self) -> Set<u64> {
        self.set_spec()
    }

    fn visit(&mut self, v: &u64) -> (r: bool) {
        if self.already_visited(v) {
            proof {
                assert(self.set_spec() =~= old(self).set_spec().insert(*v));
            }
            false
        } else {
            self.visited.push(*v);
            proof {
                let s1 = old(self).visited@;
                assert forall|x: u64| #[trigger]
                    self.visited@.contains(x) implies s1.contains(x) || x == *v by {
                    let i = choose|i: int| 0 <= i < self.visited@.len() && self.visited@[i] == x;
                    if i < s1.len() {
                        assert(s1[i] == x);
                    }
                }
                assert forall|x: u64| s1.contains(x) || x == *v implies #[trigger]
                    self.visited@.contains(x) by {
                    if s1.contains(x) {
                        let i = choose|i: int| 0 <= i < s1.len() && s1[i] == x;
                        assert(self.visited@[i] == x);
                    } else {
                        assert(self.visited@[s1.len() as int] == x);
                    }
                }
                assert(self.set_spec() =~= old(self).set_spec().insert(*v));
            }
            true
        }
    }

    fn already_visited(&self, v: &u64) -> (r: bool) {
        let mut i: usize = 0;
        while i < self.visited.len()
            invariant
                i <= self.visited@.len(),
                forall|j: int| 0 <= j < i ==> self.visited@[j] != *v,
            decreases self.visited@.len() - i,
        {
            if self.visited[i] == *v {
                return true;
            }
            i += 1;
        }
        false
    }
}

} // verus!
