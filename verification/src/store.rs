//! The counter that all connections share.

use std::sync::atomic::AtomicI32;
use std::sync::atomic::Ordering;
use vstd::prelude::*;

verus! {

/// A signed 32-bit counter behind a shared reference.
///
/// Every method is one sequentially consistent operation of std's
/// `AtomicI32`, so the calls of all threads take effect one at a time, in an
/// order that all of them see alike. What the value is after a run of calls
/// in that order is the subject of [`crate::counter`]. The contracts here say
/// nothing of the value: between two calls of one thread another thread may
/// have changed it.
pub struct CounterStore {
    value: AtomicI32,
}

impl CounterStore {
    /// A counter that holds 0.
    pub fn new() -> (store: Self) {
        CounterStore { value: AtomicI32::new(0) }
    }

    /// Adds `amount`, wrapping around at the ends of the range.
    pub fn increment(&self, amount: i32) {
        self.value.fetch_add(amount, Ordering::SeqCst);
    }

    /// Subtracts `amount`, wrapping around at the ends of the range.
    pub fn decrement(&self, amount: i32) {
        self.value.fetch_sub(amount, Ordering::SeqCst);
    }

    /// The value at the moment of the call.
    pub fn fetch(&self) -> (value: i32) {
        self.value.load(Ordering::SeqCst)
    }
}

} // verus!
