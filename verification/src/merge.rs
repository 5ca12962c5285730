use vstd::prelude::*;

verus! {

/// Combine independent partial results.
///
/// `Merge` is the reduction used for parallel chains. Implementations represent a
/// quantity that is valid to combine directly: sum-like totals (counts, accumulated
/// sums, log weights), not already-normalized per-chain means.
pub trait Merge: Sized {
    /// Whether `self` and `other` can be combined (for example, without overflow).
    open spec fn can_merge(self, other: Self) -> bool {
        true
    }

    /// The combination of `self` and `other`; left unspecified unless an
    /// implementation states it.
    open spec fn merged(self, other: Self) -> Self {
        arbitrary()
    }

    /// Whether `self` and `other` can be combined, decided at run time.
    fn can_merge_with(&self, other: &Self) -> (r: bool)
        ensures
            r == self.can_merge(*other),
    ;

    fn merge(self, other: Self) -> (r: Self)
        requires
            self.can_merge(other),
        ensures
            r == self.merged(other),
    ;
}

impl Merge for () {
    open spec fn can_merge(self, other: Self) -> bool {
        true
    }

    open spec fn merged(self, other: Self) -> Self {
        ()
    }

    fn can_merge_with(&self, other: &Self) -> (r: bool) {
        true
    }

    fn merge(self, _other: Self) -> (r: Self) {
    }
}

impl Merge for u64 {
    open spec fn can_merge(self, other: Self) -> bool {
        self + other <= u64::MAX
    }

    open spec fn merged(self, other: Self) -> Self {
        (self + other) as u64
    }

    fn can_merge_with(&self, other: &Self) -> (r: bool) {
        *other <= u64::MAX - *self
    }

    fn merge(self, other: Self) -> (r: Self) {
        self + other
    }
}

impl Merge for usize {
    open spec fn can_merge(self, other: Self) -> bool {
        self + other <= usize::MAX
    }

    open spec fn merged(self, other: Self) -> Self {
        (self + other) as usize
    }

    fn can_merge_with(&self, other: &Self) -> (r: bool) {
        *other <= usize::MAX - *self
    }

    fn merge(self, other: Self) -> (r: Self) {
        self + other
    }
}

impl Merge for i64 {
    open spec fn can_merge(self, other: Self) -> bool {
        i64::MIN <= self + other <= i64::MAX
    }

    open spec fn merged(self, other: Self) -> Self {
        (self + other) as i64
    }

    fn can_merge_with(&self, other: &Self) -> (r: bool) {
        if *other >= 0 {
            *self <= i64::MAX - *other
        } else {
            *self >= i64::MIN - *other
        }
    }

    fn merge(self, other: Self) -> (r: Self) {
        self + other
    }
}

} // verus!
