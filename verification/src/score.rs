use vstd::prelude::*;

verus! {

/// Three-valued outcome classification used to rank positions: a forced loss
/// (`Min`), a heuristic numeric value (`Score`), or a forced win (`Max`),
/// ordered `Min < Score(v1) < Score(v2) < Max` for `v1 < v2`.
#[derive(Debug, Clone, Copy, PartialEq, Eq, Structural)]
pub enum ScoreThing {
    Min,
    Score(i32),
    Max,
}

impl ScoreThing {
    /// The total order on outcomes: `Min` below every numeric value, `Max` above.
    pub open spec fn spec_le(self, other: ScoreThing) -> bool {
        match (self, other) {
            (ScoreThing::Min, _) => true,
            (_, ScoreThing::Max) => true,
            (ScoreThing::Score(a), ScoreThing::Score(b)) => a <= b,
            (ScoreThing::Max, _) => false,
            (_, ScoreThing::Min) => false,
        }
    }

    pub open spec fn spec_lt(self, other: ScoreThing) -> bool {
        self.spec_le(other) && self != other
    }

    /// Negamax flip: swaps the forced outcomes and negates the numeric value.
    /// The negation wraps on `i32::MIN`, the one value `i32` cannot negate.
    pub open spec fn spec_invert(self) -> ScoreThing {
        match self {
            ScoreThing::Min => ScoreThing::Max,
            ScoreThing::Max => ScoreThing::Min,
            ScoreThing::Score(v) => ScoreThing::Score(
                if v == i32::MIN { i32::MIN } else { (0 - v) as i32 },
            ),
        }
    }

    /// Adding material to a forced outcome leaves it fixed; a numeric value
    /// absorbs the delta with saturation at the `i32` bounds.
    pub open spec fn spec_add(self, delta: i32) -> ScoreThing {
        match self {
            ScoreThing::Min => ScoreThing::Min,
            ScoreThing::Max => ScoreThing::Max,
            ScoreThing::Score(v) => ScoreThing::Score(
                if v + delta > i32::MAX {
                    i32::MAX
                } else if v + delta < i32::MIN {
                    i32::MIN
                } else {
                    (v + delta) as i32
                },
            ),
        }
    }

    pub fn le(self, other: ScoreThing) -> (r: bool)
        ensures
            r == self.spec_le(other),
    {
        match (self, other) {
            (ScoreThing::Min, _) => true,
            (_, ScoreThing::Max) => true,
            (ScoreThing::Score(a), ScoreThing::Score(b)) => a <= b,
            (ScoreThing::Max, _) => false,
            (_, ScoreThing::Min) => false,
        }
    }

    pub fn lt(self, other: ScoreThing) -> (r: bool)
        ensures
            r == self.spec_lt(other),
    {
        match (self, other) {
            (ScoreThing::Min, ScoreThing::Min) => false,
            (ScoreThing::Min, _) => true,
            (ScoreThing::Max, _) => false,
            (_, ScoreThing::Max) => true,
            (ScoreThing::Score(a), ScoreThing::Score(b)) => a < b,
            (_, ScoreThing::Min) => false,
        }
    }

    pub fn invert(self) -> (r: ScoreThing)
        ensures
            r == self.spec_invert(),
    {
        match self {
            ScoreThing::Min => ScoreThing::Max,
            ScoreThing::Max => ScoreThing::Min,
            ScoreThing::Score(v) => ScoreThing::Score(
                if v == i32::MIN {
                    i32::MIN
                } else {
                    -v
                },
            ),
        }
    }

    pub fn add(self, delta: i32) -> (r: ScoreThing)
        ensures
            r == self.spec_add(delta),
    {
        match self {
            ScoreThing::Min => ScoreThing::Min,
            ScoreThing::Max => ScoreThing::Max,
            ScoreThing::Score(v) => {
                let wide: i64 = v as i64 + delta as i64;
                if wide > i32::MAX as i64 {
                    ScoreThing::Score(i32::MAX)
                } else if wide < i32::MIN as i64 {
                    ScoreThing::Score(i32::MIN)
                } else {
                    ScoreThing::Score(wide as i32)
                }
            },
        }
    }
}

/// A board evaluation: an outcome paired with a tie-break counter, compared
/// lexicographically (outcome first). The tie-break is conventionally the
/// remaining search depth, so that among equal forced outcomes the search
/// prefers the win reached soonest and the loss delayed longest.
#[derive(Debug, Clone, Copy, PartialEq, Eq, Structural)]
pub struct Score(pub ScoreThing, pub i32);

impl Score {
    pub open spec fn spec_le(self, other: Score) -> bool {
        self.0.spec_lt(other.0) || (self.0 == other.0 && self.1 <= other.1)
    }

    pub open spec fn spec_lt(self, other: Score) -> bool {
        self.spec_le(other) && self != other
    }

    pub fn le(self, other: Score) -> (r: bool)
        ensures
            r == self.spec_le(other),
    {
        if self.0.lt(other.0) {
            true
        } else if self.0 == other.0 {
            self.1 <= other.1
        } else {
            false
        }
    }

    pub fn lt(self, other: Score) -> (r: bool)
        ensures
            r == self.spec_lt(other),
    {
        if self.0.lt(other.0) {
            true
        } else if self.0 == other.0 {
            self.1 < other.1
        } else {
            false
        }
    }
}

/// Every numeric outcome sits strictly between the two forced outcomes.
pub proof fn lemma_outcome_order(v: i32)
    ensures
        ScoreThing::Min.spec_lt(ScoreThing::Score(v)),
        ScoreThing::Score(v).spec_lt(ScoreThing::Max),
{
}

/// The outcome order is total: reflexive, antisymmetric, transitive, and any
/// two outcomes are comparable.
pub proof fn lemma_outcome_total_order(a: ScoreThing, b: ScoreThing, c: ScoreThing)
    ensures
        a.spec_le(a),
        a.spec_le(b) && b.spec_le(a) ==> a == b,
        a.spec_le(b) && b.spec_le(c) ==> a.spec_le(c),
        a.spec_le(b) || b.spec_le(a),
{
}

/// The lexicographic order on `Score` is total as well.
pub proof fn lemma_score_total_order(a: Score, b: Score, c: Score)
    ensures
        a.spec_le(a),
        a.spec_le(b) && b.spec_le(a) ==> a == b,
        a.spec_le(b) && b.spec_le(c) ==> a.spec_le(c),
        a.spec_le(b) || b.spec_le(a),
{
}

/// Inverting an outcome twice gives the outcome back, for every outcome.
pub proof fn lemma_invert_involution(a: ScoreThing)
    ensures
        a.spec_invert().spec_invert() == a,
{
}

/// A forced outcome is never perturbed by added material.
pub proof fn lemma_add_fixes_forced(k: i32)
    ensures
        ScoreThing::Max.spec_add(k) == ScoreThing::Max,
        ScoreThing::Min.spec_add(k) == ScoreThing::Min,
{
}

} // verus!
