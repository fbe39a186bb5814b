use vstd::prelude::*;
use crate::mapping::{deterministic, maps_to};
use crate::partition::{chunk_count, lemma_remainder_start_bounds, spawned_workers};
use crate::result_map::ordered_concat;

verus! {

/// For a pure transformation, two outputs that both map `x` element-wise
/// are the same sequence: the sequential and the parallel strategy agree
/// on every input.
pub proof fn lemma_strategies_agree<T, R, F: Fn(T) -> R>(f: F, x: Seq<T>, a: Seq<R>, b: Seq<R>)
    requires
        deterministic(f),
        maps_to(f, x, a),
        maps_to(f, x, b),
    ensures
        a == b,
{
    assert forall|i: int| 0 <= i < a.len() implies a[i] == b[i] by {
        assert(f.ensures((x[i],), a[i]));
        assert(f.ensures((x[i],), b[i]));
    }
    assert(a =~= b);
}

/// The chunk count is the least number of chunks of `t` elements that
/// cover `n` elements, and one worker is started for every chunk but the
/// last (none when there is at most one chunk).
pub proof fn lemma_chunk_count(n: nat, t: nat)
    requires
        t > 0,
    ensures
        n == 0 ==> chunk_count(n, t) == 0,
        n > 0 ==> (chunk_count(n, t) - 1) * t < n <= chunk_count(n, t) * t,
        chunk_count(n, t) > 1 ==> spawned_workers(n, t) == chunk_count(n, t) - 1,
        chunk_count(n, t) <= 1 ==> spawned_workers(n, t) == 0,
{
    let q = n / t;
    let r = n % t;
    assert(n == q * t + r && r < t) by (nonlinear_arith)
        requires
            t > 0,
            q == n / t,
            r == n % t,
    ;
    if n == 0 {
        assert(q == 0) by (nonlinear_arith)
            requires
                0 == q * t + r,
                t > 0,
                r >= 0,
        ;
    }
    if n > 0 {
        let c = chunk_count(n, t);
        if r == 0 {
            assert(q >= 1) by (nonlinear_arith)
                requires
                    n == q * t,
                    n > 0,
            ;
            assert((q - 1) * t < n) by (nonlinear_arith)
                requires
                    n == q * t,
                    t > 0,
                    q >= 1,
            ;
        } else {
            assert(c == q + 1);
            assert(n <= (q + 1) * t) by (nonlinear_arith)
                requires
                    n == q * t + r,
                    r < t,
            ;
        }
    }
}

/// An input of at most `t` elements is one chunk: no worker is started and
/// the calling thread's chunk is the whole input.
pub proof fn lemma_single_chunk<T>(x: Seq<T>, t: nat)
    requires
        t > 0,
        x.len() <= t,
    ensures
        spawned_workers(x.len(), t) == 0,
        x.subrange((spawned_workers(x.len(), t) * t) as int, x.len() as int) == x,
{
    lemma_chunk_count(x.len(), t);
    if x.len() > 0 {
        let c = chunk_count(x.len(), t);
        assert(c <= 1) by (nonlinear_arith)
            requires
                (c - 1) * t < x.len(),
                x.len() <= t,
                t > 0,
        ;
    }
    assert(x.subrange(0, x.len() as int) =~= x);
}

/// Merging keeps the length: with one report of `t` outputs per worker and
/// the remainder's outputs last, the result is as long as the input.
pub proof fn lemma_merge_length<R>(n: nat, t: nat, m: Map<int, Seq<R>>, local: Seq<R>)
    requires
        t > 0,
        forall|k: int| 0 <= k < spawned_workers(n, t) ==> (#[trigger] m[k]).len() == t,
        local.len() == n - spawned_workers(n, t) * t,
    ensures
        (ordered_concat(m, spawned_workers(n, t)) + local).len() == n,
{
    lemma_remainder_start_bounds(n, t);
    lemma_concat_length(m, t, spawned_workers(n, t));
}

/// Concatenating `k` entries of `t` elements each gives `k * t` elements.
proof fn lemma_concat_length<R>(m: Map<int, Seq<R>>, t: nat, k: nat)
    requires
        forall|j: int| 0 <= j < k ==> (#[trigger] m[j]).len() == t,
    ensures
        ordered_concat(m, k).len() == k * t,
    decreases k,
{
    if k > 0 {
        lemma_concat_length(m, t, (k - 1) as nat);
        assert(m[k - 1].len() == t);
        assert((k - 1) * t + t == k * t) by (nonlinear_arith);
    }
}

} // verus!
