//! A pair that keeps what was attached before beside what is attached now.

use vstd::prelude::*;

verus! {

/// Joins two attachments together, preserving access to both values.
///
/// `left` holds what was there before, `right` what was attached last.
#[derive(Clone, Copy, Debug)]
pub struct Attached<L, R> {
    left: L,
    right: R,
}

impl<L, R> Attached<L, R> {
    /// The value that was there before.
    pub closed spec fn spec_left(&self) -> L {
        self.left
    }

    /// The value that was attached last.
    pub closed spec fn spec_right(&self) -> R {
        self.right
    }

    /// Creates a new `Attached` with the given values.
    pub fn new(left: L, right: R) -> (r: Self)
        ensures
            r.spec_left() == left,
            r.spec_right() == right,
    {
        Self { left, right }
    }

    /// Maps the left value to a new value.
    pub fn map_left<F, T>(self, f: F) -> (r: Attached<T, R>) where F: FnOnce(L) -> T
        requires
            call_requires(f, (self.spec_left(),)),
        ensures
            call_ensures(f, (self.spec_left(),), r.spec_left()),
            r.spec_right() == self.spec_right(),
    {
        Attached::new(f(self.left), self.right)
    }

    /// Maps the right value to a new value.
    pub fn map_right<F, T>(self, f: F) -> (r: Attached<L, T>) where F: FnOnce(R) -> T
        requires
            call_requires(f, (self.spec_right(),)),
        ensures
            r.spec_left() == self.spec_left(),
            call_ensures(f, (self.spec_right(),), r.spec_right()),
    {
        Attached::new(self.left, f(self.right))
    }

    /// Get a reference to the left value.
    pub fn left(&self) -> (r: &L)
        ensures
            *r == self.spec_left(),
    {
        &self.left
    }

    /// Get a reference to the right value.
    pub fn right(&self) -> (r: &R)
        ensures
            *r == self.spec_right(),
    {
        &self.right
    }

    /// Get a mutable reference to the right value.
    pub fn left_mut(&mut self) -> (r: &mut R)
        ensures
            *r == old(self).spec_right(),
            final(self).spec_right() == *final(r),
            final(self).spec_left() == old(self).spec_left(),
    {
        &mut self.right
    }

    /// Get a mutable reference to the right value.
    pub fn right_mut(&mut self) -> (r: &mut R)
        ensures
            *r == old(self).spec_right(),
            final(self).spec_right() == *final(r),
            final(self).spec_left() == old(self).spec_left(),
    {
        &mut self.right
    }
}

} // verus!
