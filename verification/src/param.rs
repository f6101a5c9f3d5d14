//! Parameters: named, bounded integer dimensions of a lookup table.

use vstd::prelude::*;

verus! {

/// Mathematical model of one table dimension: its name, its inclusive lower
/// bound, its upper bound as written, and whether the upper bound itself is
/// excluded from the range.
pub struct ParamModel {
    pub name: Seq<u8>,
    pub lo: int,
    pub hi: int,
    pub exclusive_end: bool,
}

/// One bounded integer dimension of a lookup table, as parsed from the
/// source form `name @ lo..hi` (exclusive) or `name @ lo..=hi` (inclusive).
pub struct Param {
    /// The parameter's identifier, as raw bytes of the source text.
    pub name: Vec<u8>,
    /// Inclusive lower bound.
    pub lo: usize,
    /// Upper bound literal as written.
    pub hi: usize,
    /// True for `lo..hi`, false for `lo..=hi`.
    pub exclusive_end: bool,
}

impl View for Param {
    type V = ParamModel;

    open spec fn view(&self) -> ParamModel {
        ParamModel {
            name: self.name@,
            lo: self.lo as int,
            hi: self.hi as int,
            exclusive_end: self.exclusive_end,
        }
    }
}

/// Number of values the parameter ranges over: `hi - lo` when the end is
/// excluded, `hi - lo + 1` when it is included.
pub open spec fn param_count(p: ParamModel) -> int {
    if p.exclusive_end {
        p.hi - p.lo
    } else {
        p.hi - p.lo + 1
    }
}

/// A parameter is valid when its bounds are machine-representable, ordered,
/// and describe at least one value (an exclusive range needs `lo < hi`).
pub open spec fn param_valid(p: ParamModel) -> bool {
    &&& 0 <= p.lo
    &&& p.lo <= p.hi
    &&& p.hi <= usize::MAX
    &&& (p.exclusive_end ==> p.lo < p.hi)
}

/// An index addresses the dimension when it is below the dimension's count.
pub open spec fn index_in_range(p: ParamModel, i: int) -> bool {
    0 <= i < param_count(p)
}

impl Param {
    /// The number of table cells along this dimension.
    pub fn count(&self) -> (r: usize)
        requires
            param_valid(self@),
            param_count(self@) <= usize::MAX,
        ensures
            r == param_count(self@),
    {
        if self.exclusive_end {
            self.hi - self.lo
        } else {
            self.hi - self.lo + 1
        }
    }

    /// Whether `i` is a valid run-time index for this dimension.
    pub fn index_valid(&self, i: usize) -> (r: bool)
        requires
            param_valid(self@),
        ensures
            r <==> index_in_range(self@, i as int),
    {
        let width = self.hi - self.lo;
        if self.exclusive_end {
            i < width
        } else {
            i <= width
        }
    }
}

/// Boundary law for range ends: over a lower bound of zero, an exclusive
/// upper bound `n` admits exactly the indices `0 .. n - 1`, while an
/// inclusive upper bound `n` admits exactly `0 .. n`; the index `n` itself
/// is accepted only by the inclusive form.
pub proof fn lemma_inclusive_exclusive_boundary(name: Seq<u8>, n: usize)
    requires
        n >= 1,
    ensures
        ({
            let ex = ParamModel { name, lo: 0, hi: n as int, exclusive_end: true };
            let inc = ParamModel { name, lo: 0, hi: n as int, exclusive_end: false };
            &&& param_valid(ex)
            &&& param_valid(inc)
            &&& param_count(ex) == n
            &&& param_count(inc) == n + 1
            &&& forall|i: int| index_in_range(ex, i) <==> 0 <= i < n
            &&& forall|i: int| index_in_range(inc, i) <==> 0 <= i <= n
            &&& index_in_range(inc, n as int)
            &&& !index_in_range(ex, n as int)
        }),
{
}

} // verus!
