//! Carrying a text-oriented writer through byte-oriented interfaces.

use vstd::prelude::*;

verus! {

/// A wrapper that owns a text-oriented writer so that byte-oriented callers
/// can carry it along; the wrapped value is handed back unchanged.
pub struct IoToFmt<W>(W);

impl<W> IoToFmt<W> {
    /// The wrapped writer.
    pub closed spec fn inner(self) -> W {
        self.0
    }

    /// Create a new [`IoToFmt`] wrapper.
    pub fn new(w: W) -> (r: Self)
        ensures
            r.inner() == w,
    {
        IoToFmt(w)
    }

    /// Extracts the underlying writer.
    pub fn into_inner(self) -> (r: W)
        ensures
            r == self.inner(),
    {
        self.0
    }
}

} // verus!
