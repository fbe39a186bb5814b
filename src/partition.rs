use vstd::prelude::*;

verus! {

/// Number of chunks of at most `t` elements needed to cover `n` elements.
pub open spec fn ceil_div(n: nat, t: nat) -> nat
    recommends
        t > 0,
{
    if n % t == 0 {
        n / t
    } else {
        n / t + 1
    }
}

/// Number of chunks that `n` elements split into under threshold `t`.
pub open spec fn chunk_count(n: nat, t: nat) -> nat {
    ceil_div(n, t)
}

/// Number of worker threads started for `n` elements under threshold `t`:
/// one per chunk but the last, and none when there is at most one chunk.
pub open spec fn spawned_workers(n: nat, t: nat) -> nat {
    if chunk_count(n, t) > 1 {
        (chunk_count(n, t) - 1) as nat
    } else {
        0
    }
}

/// How `len` elements are split into chunks of at most `threshold` elements.
///
/// Chunk `i < spawned` covers `[i * threshold, (i + 1) * threshold)` and runs
/// on a worker; the remainder `[remainder_start, len)` runs on the caller.
pub struct Partition {
    pub len: usize,
    pub threshold: usize,
    pub chunk_count: usize,
    pub spawned: usize,
    pub remainder_start: usize,
}

impl Partition {
    /// The partition is the one that `len` and `threshold` determine.
    pub open spec fn wf(&self) -> bool {
        &&& self.threshold > 0
        &&& self.chunk_count == chunk_count(self.len as nat, self.threshold as nat)
        &&& self.spawned == spawned_workers(self.len as nat, self.threshold as nat)
        &&& self.remainder_start == self.spawned * self.threshold
    }

    /// Start of worker chunk `i`.
    pub open spec fn lower(&self, i: int) -> int {
        i * self.threshold
    }

    /// End (exclusive) of worker chunk `i`.
    pub open spec fn upper(&self, i: int) -> int {
        (i + 1) * self.threshold
    }

    /// Splits `len` elements into chunks of at most `threshold` elements.
    pub fn new(len: usize, threshold: u32) -> (p: Partition)
        requires
            threshold > 0,
        ensures
            p.wf(),
            p.len == len,
            p.threshold == threshold,
    {
        let t = threshold as usize;
        let mut count: usize = len / t;
        if len % t != 0 {
            proof {
                lemma_quotient_below(len as nat, t as nat);
            }
            count = count + 1;
        }
        let spawned: usize = if count > 1 {
            count - 1
        } else {
            0
        };
        proof {
            lemma_remainder_start_bounds(len as nat, t as nat);
        }
        Partition {
            len,
            threshold: t,
            chunk_count: count,
            spawned,
            remainder_start: spawned * t,
        }
    }
}

/// With a nonzero remainder the quotient is strictly below the dividend.
proof fn lemma_quotient_below(n: nat, t: nat)
    requires
        t > 0,
        n % t != 0,
    ensures
        n / t < n,
{
    let q = n / t;
    let r = n % t;
    assert(n == q * t + r && r < t) by (nonlinear_arith)
        requires
            t > 0,
            q == n / t,
            r == n % t,
    ;
    assert(q * t >= q) by (nonlinear_arith)
        requires
            t > 0,
    ;
}

/// The remainder chunk starts inside the input (or at 0 for empty input)
/// and holds at most `t` elements.
pub proof fn lemma_remainder_start_bounds(n: nat, t: nat)
    requires
        t > 0,
    ensures
        spawned_workers(n, t) * t <= n,
        n == 0 || spawned_workers(n, t) * t < n,
        n - spawned_workers(n, t) * t <= t,
        chunk_count(n, t) <= n || n == 0,
{
    let q = n / t;
    let r = n % t;
    assert(n == q * t + r && r < t) by (nonlinear_arith)
        requires
            t > 0,
            q == n / t,
            r == n % t,
    ;
    if chunk_count(n, t) > 1 {
        let s = (chunk_count(n, t) - 1) as nat;
        if r == 0 {
            assert(s == q - 1);
            assert(s * t == q * t - t) by (nonlinear_arith)
                requires
                    s == q - 1,
                    q >= 1,
            ;
        } else {
            assert(s == q);
        }
    } else {
        if r == 0 {
            assert(q <= 1);
            assert(q * t <= t) by (nonlinear_arith)
                requires
                    q <= 1,
            ;
        } else {
            assert(q == 0);
        }
    }
    assert(q <= n) by (nonlinear_arith)
        requires
            n == q * t + r,
            t > 0,
    ;
    if r != 0 && q + 1 > n {
        assert(q == n);
        assert(q * t <= n) by (nonlinear_arith)
            requires
                n == q * t + r,
        ;
        assert(t == 1 || q == 0) by (nonlinear_arith)
            requires
                q == n,
                q * t <= n,
                t > 0,
        ;
    }
}

} // verus!
