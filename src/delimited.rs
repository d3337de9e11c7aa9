use vstd::prelude::*;

verus! {

/// A byte budget for rows taken in during ingestion.
#[derive(Debug, Clone, Copy)]
pub struct ByteLimit {
    pub max_bytes: usize,
    pub current: usize,
}

impl ByteLimit {
    /// A budget of `max_bytes`, none of it used.
    pub fn new(max_bytes: usize) -> (r: Self)
        ensures
            r.max_bytes == max_bytes,
            r.current == 0,
    {
        ByteLimit { max_bytes, current: 0 }
    }

    /// Takes `bytes` from the budget if they fit, and says whether they did; a refusal leaves
    /// the budget as it was.
    pub fn try_reserve(&mut self, bytes: usize) -> (r: bool)
        ensures
            r == (old(self).current + bytes <= old(self).max_bytes),
            final(self).max_bytes == old(self).max_bytes,
            final(self).current == if r {
                old(self).current + bytes
            } else {
                old(self).current as int
            },
    {
        if self.current > self.max_bytes || bytes > self.max_bytes - self.current {
            return false;
        }
        self.current = self.current + bytes;
        true
    }
}

} // verus!
