//! Compare-and-assign helpers: `a.chmax(b)` overwrites `a` with `b` and
//! reports `true` exactly when `b` improves on `a`; `chmin` dually.

use vstd::prelude::*;

verus! {

/// Keep the smaller / larger of a value and a candidate, reporting whether
/// the candidate won. `before` is the strict order the pair of methods uses.
pub trait ChangeMinMax: Sized {
    /// The strict order underlying `chmin` / `chmax`.
    spec fn before(&self, other: &Self) -> bool;

    /// Overwrite `self` with `x` when `x` is strictly smaller.
    fn chmin(&mut self, x: Self) -> (r: bool)
        ensures
            r == x.before(old(self)),
            *final(self) == (if x.before(old(self)) {
                x
            } else {
                *old(self)
            }),
    ;

    /// Overwrite `self` with `x` when `x` is strictly larger.
    fn chmax(&mut self, x: Self) -> (r: bool)
        ensures
            r == old(self).before(&x),
            *final(self) == (if old(self).before(&x) {
                x
            } else {
                *old(self)
            }),
    ;
}

impl ChangeMinMax for i64 {
    open spec fn before(&self, other: &Self) -> bool {
        *self < *other
    }

    fn chmin(&mut self, x: Self) -> (r: bool) {
        if *self > x {
            *self = x;
            true
        } else {
            false
        }
    }

    fn chmax(&mut self, x: Self) -> (r: bool) {
        if *self < x {
            *self = x;
            true
        } else {
            false
        }
    }
}

impl ChangeMinMax for usize {
    open spec fn before(&self, other: &Self) -> bool {
        *self < *other
    }

    fn chmin(&mut self, x: Self) -> (r: bool) {
        if *self > x {
            *self = x;
            true
        } else {
            false
        }
    }

    fn chmax(&mut self, x: Self) -> (r: bool) {
        if *self < x {
            *self = x;
            true
        } else {
            false
        }
    }
}

impl ChangeMinMax for u64 {
    open spec fn before(&self, other: &Self) -> bool {
        *self < *other
    }

    fn chmin(&mut self, x: Self) -> (r: bool) {
        if *self > x {
            *self = x;
            true
        } else {
            false
        }
    }

    fn chmax(&mut self, x: Self) -> (r: bool) {
        if *self < x {
            *self = x;
            true
        } else {
            false
        }
    }
}

} // verus!
