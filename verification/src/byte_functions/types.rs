use vstd::prelude::*;

verus! {

/// A fixed-size byte value, such as a raw infohash or a redis key.
pub struct RawVal<const T: usize>(pub [u8; T]);

impl<const T: usize> RawVal<T> {
    /// The byte at `index`.
    pub fn get(&self, index: usize) -> (b: u8)
        requires
            index < T,
        ensures
            b == self.0@[index as int],
    {
        self.0[index]
    }
}

} // verus!
