use vstd::prelude::*;
use crate::mapping::{accepts_all, maps_to};

verus! {

/// A strategy that maps a transformation over an input sequence.
///
/// Every strategy returns the same shape of result, so callers can swap one
/// for another without changing call sites.
pub trait Executable<T: Copy, R, F: Fn(T) -> R> {
    /// Maps `f` over `x`, keeping input order.
    fn exec(x: Vec<T>, f: F) -> (r: Vec<R>)
        requires
            accepts_all(f, x@),
        ensures
            maps_to(f, x@, r@),
    ;
}

/// Applies the transformation to each input in order on the calling thread.
pub struct SingleThreaded;

impl<T: Copy, R, F: Fn(T) -> R> Executable<T, R, F> for SingleThreaded {
    fn exec(x: Vec<T>, f: F) -> (r: Vec<R>) {
        let mut out: Vec<R> = Vec::with_capacity(x.len());
        let mut i: usize = 0;
        while i < x.len()
            invariant
                accepts_all(f, x@),
                i <= x.len(),
                out.len() == i,
                forall|k: int| 0 <= k < i ==> #[trigger] f.ensures((x@[k],), out@[k]),
            decreases x.len() - i,
        {
            out.push(f(x[i]));
            i = i + 1;
        }
        out
    }
}

/// A source of a configuration value, queried at each call.
pub trait Get<T> {
    fn get() -> T;
}

/// The unit source yields the default threshold, zero, which no parallel
/// run accepts.
impl Get<u32> for () {
    fn get() -> (r: u32)
        ensures
            r == 0,
    {
        0
    }
}

} // verus!
