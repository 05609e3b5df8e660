use vstd::prelude::*;

verus! {

/// The single-slot store of the last successfully computed result of a
/// calculator session.
pub struct Session<T> {
    last: Option<T>,
}

impl<T: Copy> Session<T> {
    /// The stored result, if any evaluation has succeeded yet.
    pub closed spec fn last_result(&self) -> Option<T> {
        self.last
    }

    /// A session in which nothing has been computed yet.
    pub fn new() -> (r: Self)
        ensures
            r.last_result() is None,
    {
        Session { last: None }
    }

    /// The stored result.
    pub fn last(&self) -> (r: Option<T>)
        ensures
            r == self.last_result(),
    {
        self.last
    }

    /// Takes the outcome of one evaluation and hands it back: a value becomes
    /// the last result, while a failure leaves the stored result as it was.
    pub fn record<E>(&mut self, outcome: Result<T, E>) -> (r: Result<T, E>)
        ensures
            r == outcome,
            final(self).last_result() == match outcome {
                Ok(v) => Some(v),
                Err(_) => old(self).last_result(),
            },
    {
        if let Ok(v) = &outcome {
            self.last = Some(*v);
        }
        outcome
    }
}

} // verus!
