use vstd::prelude::*;

verus! {

#[verifier::external_type_specification]
#[verifier::external_body]
pub struct ExThreadRng(rand::rngs::ThreadRng);

/// A handle to the process-local random number generator. One handle is
/// threaded through carving, room placement and sampling, so every stage draws
/// from the same source.
pub struct MazeRng {
    inner: rand::rngs::ThreadRng,
}

impl MazeRng {
    /// Relies on rand::thread_rng: yields a handle to the thread-local
    /// generator.
    #[verifier::external_body]
    pub fn new() -> Self {
        MazeRng { inner: rand::thread_rng() }
    }

    /// Relies on rand::Rng::gen_range over the range 0..n: the sample lies in
    /// that range, which is nonempty since n >= 1. Nothing else is assumed of
    /// the value.
    #[verifier::external_body]
    pub(crate) fn below(&mut self, n: usize) -> (r: usize)
        requires
            n >= 1,
        ensures
            r < n,
    {
        rand::Rng::gen_range(&mut self.inner, 0..n)
    }
}

} // verus!
