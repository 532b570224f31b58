//! The aggregate carried by every tree node: an item count together with a
//! total weight. `combine` is associative and `identity` is its unit, which
//! is what lets a node cache the summary of its whole subtree.

use vstd::prelude::*;

verus! {

/// The summary of a range of items: how many items the range holds and the
/// total weight of those items. Both fields add under concatenation,
/// saturating at `u64::MAX`.
#[derive(Clone, Copy, PartialEq, Eq, Structural, Debug)]
pub struct Summary {
    pub count: u64,
    pub weight: u64,
}

/// Addition on `u64` that saturates at `u64::MAX`.
pub open spec fn sat_add(a: u64, b: u64) -> u64 {
    if a + b <= u64::MAX {
        (a + b) as u64
    } else {
        u64::MAX
    }
}

/// Exec counterpart of [`sat_add`].
pub fn saturating_add(a: u64, b: u64) -> (r: u64)
    ensures
        r == sat_add(a, b),
{
    if a <= u64::MAX - b {
        a + b
    } else {
        u64::MAX
    }
}

impl Summary {
    /// The summary of an empty range.
    pub open spec fn spec_identity() -> Summary {
        Summary { count: 0, weight: 0 }
    }

    /// The summary of the concatenation of a range summarized by `self`
    /// followed by a range summarized by `other`.
    pub open spec fn spec_combine(self, other: Summary) -> Summary {
        Summary { count: sat_add(self.count, other.count), weight: sat_add(self.weight, other.weight) }
    }

    /// The unit of [`Summary::combine`].
    pub fn identity() -> (r: Summary)
        ensures
            r == Summary::spec_identity(),
    {
        Summary { count: 0, weight: 0 }
    }

    /// Combine two adjacent ranges' summaries into the summary of their
    /// concatenation.
    pub fn combine(&self, other: &Summary) -> (r: Summary)
        ensures
            r == self.spec_combine(*other),
    {
        Summary {
            count: saturating_add(self.count, other.count),
            weight: saturating_add(self.weight, other.weight),
        }
    }
}

/// `combine` is associative: grouping does not matter when a range is
/// assembled from three adjacent pieces.
pub proof fn lemma_combine_associative(a: Summary, b: Summary, c: Summary)
    ensures
        a.spec_combine(b).spec_combine(c) == a.spec_combine(b.spec_combine(c)),
{
}

/// `identity` is a left and right unit for `combine`.
pub proof fn lemma_combine_identity(a: Summary)
    ensures
        Summary::spec_identity().spec_combine(a) == a,
        a.spec_combine(Summary::spec_identity()) == a,
{
}

/// `combine` is commutative, so a summary depends only on which items a
/// range holds, not on how the range was assembled.
pub proof fn lemma_combine_commutative(a: Summary, b: Summary)
    ensures
        a.spec_combine(b) == b.spec_combine(a),
{
}

/// A value that can state its own single-item summary, and that can be
/// copied exactly when a leaf is rebuilt.
pub trait Summarizable: Sized {
    /// The weight this single item contributes to any range that holds it.
    spec fn spec_weight(self) -> u64;

    /// The single-item summary of this value: one item of its weight.
    fn summary(&self) -> (r: Summary)
        ensures
            r.count == 1,
            r.weight == self.spec_weight(),
    ;

    /// An exact copy of this value.
    fn clone_item(&self) -> (r: Self)
        ensures
            r == *self,
    ;
}

impl Summarizable for u64 {
    open spec fn spec_weight(self) -> u64 {
        self
    }

    fn summary(&self) -> (r: Summary)
        ensures
            r.count == 1,
            r.weight == self.spec_weight(),
    {
        Summary { count: 1, weight: *self }
    }

    fn clone_item(&self) -> (r: Self)
        ensures
            r == *self,
    {
        *self
    }
}

/// The monotonic projection of a [`Summary`] that drives
/// `find_by_summary`: seek by cumulative item count or by cumulative
/// weight.
#[derive(Clone, Copy, PartialEq, Eq, Structural, Debug)]
pub enum Dimension {
    Count,
    Weight,
}

impl Dimension {
    /// The projected component of a summary.
    pub open spec fn spec_project(self, s: Summary) -> u64 {
        match self {
            Dimension::Count => s.count,
            Dimension::Weight => s.weight,
        }
    }

    /// Read the projected component of a summary.
    pub fn project(&self, s: &Summary) -> (r: u64)
        ensures
            r == self.spec_project(*s),
    {
        match self {
            Dimension::Count => s.count,
            Dimension::Weight => s.weight,
        }
    }
}

} // verus!
