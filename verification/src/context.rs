//! Context: a value provided once and looked up later by the code that
//! needs it. A `Context<T>` is the slot for values of type `T`; providing a
//! value replaces the previous one.

use vstd::prelude::*;

verus! {

/// The slot after `v` is provided to a slot holding `before`.
pub open spec fn provide<T>(before: Option<T>, v: T) -> Option<T> {
    Some(v)
}

/// The context slot for values of type `T`.
pub struct Context<T> {
    value: Option<T>,
}

impl<T> Context<T> {
    /// The value currently provided, if any.
    pub closed spec fn provided(&self) -> Option<T> {
        self.value
    }

    /// A slot with nothing provided.
    pub fn new() -> (c: Self)
        ensures
            c.provided() is None,
    {
        Context { value: None }
    }

    /// Provides `value`, replacing any earlier one.
    pub fn provide_context(&mut self, value: T)
        ensures
            final(self).provided() == provide(old(self).provided(), value),
    {
        self.value = Some(value);
    }

    /// The provided value, or `None` when nothing was provided.
    pub fn use_context(&self) -> (r: Option<&T>)
        ensures
            match self.provided() {
                Some(v) => r == Some(&v),
                None => r is None,
            },
    {
        match &self.value {
            Some(v) => Some(v),
            None => None,
        }
    }
}

/// What is looked up after a value was provided is that value, whatever was
/// provided before it.
pub proof fn law_use_after_provide<T>(before: Option<T>, v: T)
    ensures
        provide(before, v) == Some(v),
{
}

} // verus!
