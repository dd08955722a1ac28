use vstd::prelude::*;
use vstd::std_specs::cmp::PartialOrdSpec;

verus! {

/// A shortest-path distance: unknown or unreachable (`Inf`), the
/// distance of a source to itself (`Zero`), or a finite sum of edge
/// weights (`Value`).
#[derive(Debug, Clone, Copy, PartialEq, Eq, Structural)]
pub enum Score {
    Inf,
    Zero,
    Value(u64),
}

/// The total order of the distance algebra: `Zero` is least, `Inf` is
/// greatest, and finite scores order by their weight.
pub open spec fn score_le(a: Score, b: Score) -> bool {
    match (a, b) {
        (Score::Zero, _) => true,
        (_, Score::Inf) => true,
        (Score::Value(x), Score::Value(y)) => x <= y,
        _ => false,
    }
}

/// Strict form of [`score_le`].
pub open spec fn score_lt(a: Score, b: Score) -> bool {
    score_le(a, b) && a != b
}

/// A score plus a raw edge weight; `None` when the sum leaves `u64`.
/// `Inf` absorbs, and `Zero` plus a raw weight is that weight.
pub open spec fn score_plus(s: Score, w: u64) -> Option<Score> {
    match s {
        Score::Inf => Some(Score::Inf),
        Score::Zero => Some(Score::Value(w)),
        Score::Value(a) => if a + w <= u64::MAX {
            Some(Score::Value((a + w) as u64))
        } else {
            None
        },
    }
}

/// The algebra's addition on two scores: `Inf` absorbs on either side,
/// `Zero` is the identity, and finite values add.
pub open spec fn score_add(a: Score, b: Score) -> Score {
    match (a, b) {
        (Score::Inf, _) => Score::Inf,
        (_, Score::Inf) => Score::Inf,
        (Score::Zero, x) => x,
        (x, Score::Zero) => x,
        (Score::Value(x), Score::Value(y)) => Score::Value((x + y) as u64),
    }
}

/// Law: the algebra is totally ordered with `Zero < Value(a) < Inf` for
/// every raw weight `a`, and `Inf` absorbs addition on either side.
pub proof fn lemma_distance_algebra(a: u64, x: Score)
    ensures
        score_lt(Score::Zero, Score::Value(a)),
        score_lt(Score::Value(a), Score::Inf),
        score_add(Score::Inf, x) == Score::Inf,
        score_add(x, Score::Inf) == Score::Inf,
{
}

/// Law: `Zero` is the identity of the algebra's addition.
pub proof fn lemma_zero_identity(x: Score)
    ensures
        score_add(Score::Zero, x) == x,
        score_add(x, Score::Zero) == x,
{
}

impl Score {
    /// `self` plus a raw edge weight: `Inf` stays `Inf`, `Zero` becomes
    /// `Value(score)`, and a finite value grows by `score`.
    pub fn add_score_v(&self, score: u64) -> (r: Score)
        requires
            *self matches Score::Value(a) ==> a + score <= u64::MAX,
        ensures
            Some(r) == score_plus(*self, score),
    {
        match self {
            Score::Inf => Score::Inf,
            Score::Zero => Score::Value(score),
            Score::Value(left) => Score::Value(*left + score),
        }
    }

    /// Same operation as [`Score::add_score_v`].
    pub fn add(&self, score: u64) -> (r: Score)
        requires
            *self matches Score::Value(a) ==> a + score <= u64::MAX,
        ensures
            Some(r) == score_plus(*self, score),
    {
        self.add_score_v(score)
    }

    /// `self` plus a raw edge weight, `None` when the sum overflows.
    pub(crate) fn plus_checked(&self, score: u64) -> (r: Option<Score>)
        ensures
            r == score_plus(*self, score),
    {
        match self {
            Score::Inf => Some(Score::Inf),
            Score::Zero => Some(Score::Value(score)),
            Score::Value(left) => match left.checked_add(score) {
                Some(s) => Some(Score::Value(s)),
                None => None,
            },
        }
    }

    /// Whether `self` orders strictly below `other`.
    pub(crate) fn less(&self, other: &Score) -> (r: bool)
        ensures
            r == score_lt(*self, *other),
    {
        match (self, other) {
            (Score::Zero, Score::Zero) => false,
            (Score::Zero, _) => true,
            (Score::Inf, _) => false,
            (Score::Value(_), Score::Zero) => false,
            (Score::Value(_), Score::Inf) => true,
            (Score::Value(x), Score::Value(y)) => x < y,
        }
    }
}

impl PartialOrd for Score {
    fn partial_cmp(&self, other: &Self) -> (r: Option<core::cmp::Ordering>) {
        match (self, other) {
            (Score::Inf, Score::Inf) => Some(core::cmp::Ordering::Equal),
            (Score::Zero, Score::Zero) => Some(core::cmp::Ordering::Equal),
            (Score::Value(a), Score::Value(b)) => Some(
                if a < b {
                    core::cmp::Ordering::Less
                } else if b < a {
                    core::cmp::Ordering::Greater
                } else {
                    core::cmp::Ordering::Equal
                },
            ),
            (Score::Inf, _) => Some(core::cmp::Ordering::Greater),
            (Score::Zero, _) => Some(core::cmp::Ordering::Less),
            (Score::Value(_), Score::Inf) => Some(core::cmp::Ordering::Less),
            (Score::Value(_), Score::Zero) => Some(core::cmp::Ordering::Greater),
        }
    }
}

impl vstd::std_specs::cmp::PartialOrdSpecImpl for Score {
    open spec fn obeys_partial_cmp_spec() -> bool {
        true
    }

    open spec fn partial_cmp_spec(&self, other: &Self) -> Option<core::cmp::Ordering> {
        if *self == *other {
            Some(core::cmp::Ordering::Equal)
        } else if score_lt(*self, *other) {
            Some(core::cmp::Ordering::Less)
        } else {
            Some(core::cmp::Ordering::Greater)
        }
    }
}

/// A frontier entry: a node paired with its current score. Its order is
/// the *reverse* of the score order, so that a queue which hands out its
/// greatest entry hands out the entry with the least score first. The
/// node itself takes no part in comparisons.
#[derive(Debug, Clone)]
pub struct MinWeight<Id>(pub Id, pub Score);

impl<Id> PartialEq for MinWeight<Id> {
    fn eq(&self, other: &Self) -> (r: bool) {
        self.1 == other.1
    }
}

impl<Id> Eq for MinWeight<Id> {

}

impl<Id> vstd::std_specs::cmp::PartialEqSpecImpl for MinWeight<Id> {
    open spec fn obeys_eq_spec() -> bool {
        true
    }

    open spec fn eq_spec(&self, other: &Self) -> bool {
        self.1 == other.1
    }
}

impl<Id> PartialOrd for MinWeight<Id> {
    fn partial_cmp(&self, other: &Self) -> (r: Option<core::cmp::Ordering>) {
        other.1.partial_cmp(&self.1)
    }
}

impl<Id> vstd::std_specs::cmp::PartialOrdSpecImpl for MinWeight<Id> {
    open spec fn obeys_partial_cmp_spec() -> bool {
        true
    }

    open spec fn partial_cmp_spec(&self, other: &Self) -> Option<core::cmp::Ordering> {
        vstd::std_specs::cmp::PartialOrdSpec::partial_cmp_spec(&other.1, &self.1)
    }
}

/// Law: the frontier entry order is the score order reversed, whatever
/// nodes the entries carry.
pub proof fn lemma_min_weight_reversed<Id>(a: MinWeight<Id>, b: MinWeight<Id>)
    ensures
        a.partial_cmp_spec(&b) == Some(core::cmp::Ordering::Less) <==> score_lt(b.1, a.1),
        a.partial_cmp_spec(&b) == Some(core::cmp::Ordering::Greater) <==> score_lt(a.1, b.1),
        a.partial_cmp_spec(&b) == Some(core::cmp::Ordering::Equal) <==> a.1 == b.1,
{
}

} // verus!
