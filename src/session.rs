use vstd::prelude::*;
use crate::executor::{Executable, SingleThreaded};
use crate::mapping::{accepts_all, lemma_maps_to_append, maps_to};
use crate::partition::{lemma_remainder_start_bounds, spawned_workers, Partition};
use crate::result_map::{ordered_concat, ResultMap};

verus! {

/// Worker chunk `k` of `x` under threshold `t`: `[k * t, (k + 1) * t)`.
pub open spec fn chunk_of<T>(x: Seq<T>, t: nat, k: int) -> Seq<T> {
    x.subrange(k * t, (k + 1) * t)
}

/// Why a delivery or the final merge was refused.
#[derive(Clone, Copy, Debug, PartialEq, Eq, Structural)]
pub enum DeliveryError {
    /// A report names a chunk index that no worker was given.
    UnknownChunk,
    /// A second report arrived for a chunk already reported.
    DuplicateChunk,
    /// The merge was asked for before every worker had reported.
    MissingChunk,
}

/// One call of the threshold-partitioned parallel map.
///
/// The run holds the input, the transformation and the partition. Worker
/// inputs are handed out by chunk index; reports come back through
/// `deliver` in any order and are kept by index; `finish` appends the
/// calling thread's own outputs and returns everything in input order.
pub struct ParallelRun<T, R, F> {
    input: Vec<T>,
    f: F,
    part: Partition,
    results: ResultMap<R>,
}

impl<T: Copy, R, F: Fn(T) -> R + Copy> ParallelRun<T, R, F> {
    /// The input sequence.
    pub closed spec fn input(&self) -> Seq<T> {
        self.input@
    }

    /// The transformation.
    pub closed spec fn transformation(&self) -> F {
        self.f
    }

    /// The maximum number of elements per chunk.
    pub closed spec fn threshold(&self) -> nat {
        self.part.threshold as nat
    }

    /// The reports received so far: chunk index to outputs.
    pub closed spec fn delivered(&self) -> Map<int, Seq<R>> {
        self.results@
    }

    /// Number of chunks handed to worker threads.
    pub open spec fn workers_spec(&self) -> nat {
        spawned_workers(self.input().len(), self.threshold())
    }

    /// The chunk that runs on the calling thread: everything after the
    /// worker chunks (the whole input when there are no workers).
    pub open spec fn remainder(&self) -> Seq<T> {
        self.input().subrange((self.workers_spec() * self.threshold()) as int, self.input().len() as int)
    }

    /// Every worker has reported.
    pub open spec fn all_delivered(&self) -> bool {
        forall|k: int| 0 <= k < self.workers_spec() ==> #[trigger] self.delivered().contains_key(k)
    }

    /// Every report received is the image of its chunk.
    pub open spec fn reports_sound(&self) -> bool {
        forall|k: int|
            #![trigger self.delivered().contains_key(k)]
            0 <= k < self.workers_spec() && self.delivered().contains_key(k) ==> maps_to(
                self.transformation(),
                chunk_of(self.input(), self.threshold(), k),
                self.delivered()[k],
            )
    }

    pub closed spec fn wf(&self) -> bool {
        &&& self.part.wf()
        &&& self.part.len == self.input.len()
        &&& self.results.capacity() == self.part.spawned
        &&& self.part.spawned * self.part.threshold <= self.input.len()
    }

    /// Partitions `x` into chunks of at most `threshold` elements.
    pub fn start(x: Vec<T>, f: F, threshold: u32) -> (run: Self)
        requires
            threshold > 0,
        ensures
            run.wf(),
            run.input() == x@,
            run.transformation() == f,
            run.threshold() == threshold as nat,
            run.delivered() == Map::<int, Seq<R>>::empty(),
    {
        let part = Partition::new(x.len(), threshold);
        proof {
            lemma_remainder_start_bounds(x.len() as nat, threshold as nat);
        }
        let results = ResultMap::new(part.spawned);
        ParallelRun { input: x, f, part, results }
    }

    /// Number of chunks to hand to worker threads: `ceil(n / t) - 1` when
    /// there is more than one chunk, else zero.
    pub fn workers(&self) -> (r: usize)
        requires
            self.wf(),
        ensures
            r == self.workers_spec(),
    {
        self.part.spawned
    }

    /// The transformation, for a worker to take along.
    pub fn transformation_fn(&self) -> (r: F)
        ensures
            r == self.transformation(),
    {
        self.f
    }

    /// An owned copy of worker chunk `index`.
    pub fn worker_input(&self, index: usize) -> (r: Vec<T>)
        requires
            self.wf(),
            index < self.workers_spec(),
        ensures
            r@ == chunk_of(self.input(), self.threshold(), index as int),
            r@.len() == self.threshold(),
    {
        let t = self.part.threshold;
        proof {
            lemma_chunk_end(index as nat, self.part.spawned as nat, t as nat);
        }
        copy_range(&self.input, index * t, index * t + t)
    }

    /// Runs the remainder chunk on the calling thread.
    pub fn run_local(&self) -> (r: Vec<R>)
        requires
            self.wf(),
            accepts_all(self.transformation(), self.input()),
        ensures
            maps_to(self.transformation(), self.remainder(), r@),
    {
        let rest = copy_range(&self.input, self.part.remainder_start, self.input.len());
        assert(accepts_all(self.f, rest@)) by {
            assert forall|j: int| 0 <= j < rest@.len() implies #[trigger] self.f.requires(
                (rest@[j],),
            ) by {
                assert(rest@[j] == self.input@[self.part.remainder_start + j]);
            }
        }
        <SingleThreaded as Executable<T, R, F>>::exec(rest, self.f)
    }

    /// Records the report of worker `index`.
    pub fn deliver(&mut self, index: usize, outputs: Vec<R>) -> (r: Result<(), DeliveryError>)
        requires
            old(self).wf(),
        ensures
            final(self).wf(),
            final(self).input() == old(self).input(),
            final(self).transformation() == old(self).transformation(),
            final(self).threshold() == old(self).threshold(),
            index >= old(self).workers_spec() ==> r == Err::<(), DeliveryError>(DeliveryError::UnknownChunk),
            index < old(self).workers_spec() && old(self).delivered().contains_key(index as int)
                ==> r == Err::<(), DeliveryError>(DeliveryError::DuplicateChunk),
            r is Ok <==> index < old(self).workers_spec() && !old(self).delivered().contains_key(index as int),
            r is Ok ==> final(self).delivered() == old(self).delivered().insert(index as int, outputs@),
            r is Err ==> final(self).delivered() == old(self).delivered(),
    {
        if index >= self.part.spawned {
            return Err(DeliveryError::UnknownChunk);
        }
        if self.results.contains(index) {
            return Err(DeliveryError::DuplicateChunk);
        }
        self.results.insert(index, outputs);
        Ok(())
    }

    /// All worker outputs in chunk order, followed by `local`, the outputs
    /// of the remainder chunk.
    pub fn finish(self, local: Vec<R>) -> (r: Result<Vec<R>, DeliveryError>)
        requires
            self.wf(),
        ensures
            r is Ok <==> self.all_delivered(),
            r is Err ==> r == Err::<Vec<R>, DeliveryError>(DeliveryError::MissingChunk),
            r matches Ok(v) ==> v@ == ordered_concat(self.delivered(), self.workers_spec()) + local@,
            r matches Ok(v) ==> (self.reports_sound() && maps_to(
                self.transformation(),
                self.remainder(),
                local@,
            ) ==> maps_to(self.transformation(), self.input(), v@)),
    {
        assert(self.workers_spec() == self.part.spawned);
        if !self.results.is_complete() {
            proof {
                let w = choose|i: int|
                    0 <= i < self.results.capacity() && !#[trigger] self.results@.contains_key(i);
                assert(!self.delivered().contains_key(w));
            }
            return Err(DeliveryError::MissingChunk);
        }
        assert(self.all_delivered());
        proof {
            if self.reports_sound() && maps_to(self.f, self.remainder(), local@) {
                let xs = self.input@;
                let t = self.part.threshold as nat;
                let s = self.part.spawned as nat;
                assert forall|j: int| 0 <= j < s implies #[trigger] self.results@.contains_key(j)
                    && maps_to(self.f, chunk_of(xs, t, j), self.results@[j]) by {
                    assert(self.delivered().contains_key(j));
                }
                lemma_ordered_concat_maps(self.f, xs, t, self.results@, s);
                lemma_maps_to_append(
                    self.f,
                    xs.subrange(0, (s * t) as int),
                    ordered_concat(self.results@, s),
                    self.remainder(),
                    local@,
                );
                assert(xs.subrange(0, (s * t) as int) + self.remainder() =~= xs);
            }
        }
        Ok(self.results.into_ordered(local))
    }
}

/// Maps `f` over `x` through a `ParallelRun` with chunks of `threshold`
/// elements, all on the calling thread: the remainder first, then the
/// worker chunks from the last to the first, each reported as it is done.
/// The output is in input order whatever the order of the reports.
pub fn exec_partitioned<T: Copy, R, F: Fn(T) -> R + Copy>(x: Vec<T>, f: F, threshold: u32) -> (r: Vec<R>)
    requires
        threshold > 0,
        accepts_all(f, x@),
    ensures
        maps_to(f, x@, r@),
{
    let ghost xs = x@;
    let mut run = ParallelRun::start(x, f, threshold);
    let local = run.run_local();
    let mut i: usize = run.workers();
    while i > 0
        invariant
            run.wf(),
            run.input() == xs,
            run.transformation() == f,
            run.threshold() == threshold as nat,
            accepts_all(f, xs),
            i <= run.workers_spec(),
            forall|k: int| #[trigger] run.delivered().contains_key(k) <==> i <= k < run.workers_spec(),
            run.reports_sound(),
        decreases i,
    {
        i = i - 1;
        let chunk = run.worker_input(i);
        assert(accepts_all(f, chunk@)) by {
            let t = threshold as int;
            let s = run.workers_spec() as int;
            lemma_remainder_start_bounds(xs.len(), threshold as nat);
            assert(i * t + t <= s * t) by (nonlinear_arith)
                requires
                    i < s,
                    t > 0,
            ;
            assert((i + 1) * t == i * t + t) by (nonlinear_arith);
            assert forall|j: int| 0 <= j < chunk@.len() implies #[trigger] f.requires((chunk@[j],)) by {
                assert(chunk@[j] == xs[i * t + j]);
            }
        }
        let outputs = <SingleThreaded as Executable<T, R, F>>::exec(chunk, f);
        let _ = run.deliver(i, outputs);
    }
    match run.finish(local) {
        Ok(v) => v,
        Err(_) => Vec::new(),
    }
}

/// Copies `x[lo..hi]` into a vector of its own.
fn copy_range<T: Copy>(x: &Vec<T>, lo: usize, hi: usize) -> (r: Vec<T>)
    requires
        lo <= hi <= x.len(),
    ensures
        r@ == x@.subrange(lo as int, hi as int),
{
    let mut r: Vec<T> = Vec::with_capacity(hi - lo);
    let mut i: usize = lo;
    while i < hi
        invariant
            lo <= i <= hi <= x.len(),
            r@ == x@.subrange(lo as int, i as int),
        decreases hi - i,
    {
        r.push(x[i]);
        i = i + 1;
        assert(r@ =~= x@.subrange(lo as int, i as int));
    }
    r
}

/// Worker chunks end inside the worker region.
proof fn lemma_chunk_end(i: nat, s: nat, t: nat)
    requires
        i < s,
    ensures
        i * t + t <= s * t,
        (i + 1) * t == i * t + t,
{
    assert(i * t + t <= s * t) by (nonlinear_arith)
        requires
            i < s,
    ;
    assert((i + 1) * t == i * t + t) by (nonlinear_arith);
}

/// Concatenating the images of the first `k` chunks, in index order, gives
/// the image of the first `k * t` inputs.
proof fn lemma_ordered_concat_maps<T, R, F: Fn(T) -> R>(
    f: F,
    x: Seq<T>,
    t: nat,
    m: Map<int, Seq<R>>,
    k: nat,
)
    requires
        k * t <= x.len(),
        forall|j: int|
            0 <= j < k ==> #[trigger] m.contains_key(j) && maps_to(f, chunk_of(x, t, j), m[j]),
    ensures
        maps_to(f, x.subrange(0, (k * t) as int), ordered_concat(m, k)),
    decreases k,
{
    if k == 0 {
        assert(x.subrange(0, 0) =~= Seq::<T>::empty());
    } else {
        let j = (k - 1) as nat;
        lemma_chunk_end(j, k, t);
        assert(m.contains_key(j as int));
        lemma_ordered_concat_maps(f, x, t, m, j);
        lemma_maps_to_append(
            f,
            x.subrange(0, (j * t) as int),
            ordered_concat(m, j),
            chunk_of(x, t, j as int),
            m[j as int],
        );
        assert(x.subrange(0, (j * t) as int) + chunk_of(x, t, j as int) =~= x.subrange(0, (k * t) as int));
    }
}

} // verus!
