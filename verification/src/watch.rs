//! The change detector behind `watch`: it remembers the last value seen and
//! reports a value only when it differs from the previous one.

use vstd::prelude::*;
use vstd::std_specs::cmp::PartialEqSpec;

verus! {

/// Remembers the last value observed.
pub struct WatchState<T> {
    pub last: Option<T>,
}

impl<T: PartialEq + Clone> WatchState<T> {
    /// Nothing observed yet.
    pub fn new() -> (w: Self)
        ensures
            w.last is None,
    {
        WatchState { last: None }
    }

    /// Observes `value`. It is remembered when it differs from the last value
    /// (or when it is the first one), and it is handed back to be reported
    /// only when there was a previous, different value.
    pub fn observe(&mut self, value: T) -> (report: Option<T>)
        ensures
            final(self).last is Some,
            T::obeys_eq_spec() ==> match old(self).last {
                None => report is None && final(self).last == Some(value),
                Some(p) => if p.eq_spec(&value) {
                    report is None && final(self).last == old(self).last
                } else {
                    report == Some(value) && (final(self).last matches Some(c) && cloned(value, c))
                },
            },
    {
        let mut prev: Option<T> = None;
        std::mem::swap(&mut prev, &mut self.last);
        match prev {
            None => {
                self.last = Some(value);
                None
            },
            Some(p) => {
                if p == value {
                    self.last = Some(p);
                    None
                } else {
                    self.last = Some(value.clone());
                    Some(value)
                }
            },
        }
    }
}

} // verus!
