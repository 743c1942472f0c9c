use vstd::prelude::*;

verus! {

/// A body that travels as JSON text.
pub struct Json<T>(pub T);

impl<T> Json<T> {
    /// The value inside.
    pub fn deref(&self) -> (r: &T)
        ensures
            *r == self.0,
    {
        &self.0
    }

    pub fn into_inner(self) -> (r: T)
        ensures
            r == self.0,
    {
        self.0
    }
}

} // verus!
