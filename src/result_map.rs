use vstd::prelude::*;

verus! {

/// Concatenation of the entries `0 .. k` of `m`, in ascending key order.
pub open spec fn ordered_concat<R>(m: Map<int, Seq<R>>, k: nat) -> Seq<R>
    decreases k,
{
    if k == 0 {
        Seq::empty()
    } else {
        ordered_concat(m, (k - 1) as nat) + m[k - 1]
    }
}

/// Chunk outputs keyed by chunk index, filled as workers report in any
/// order and read back in ascending index order.
pub struct ResultMap<R> {
    slots: Vec<Option<Vec<R>>>,
}

impl<R> View for ResultMap<R> {
    type V = Map<int, Seq<R>>;

    /// The reported chunks: index to outputs.
    closed spec fn view(&self) -> Map<int, Seq<R>> {
        Map::new(
            |i: int| 0 <= i < self.slots.len() && self.slots@[i] is Some,
            |i: int| self.slots@[i]->Some_0@,
        )
    }
}

impl<R> ResultMap<R> {
    /// Number of chunk indices the map has room for: `0 .. capacity`.
    pub closed spec fn capacity(&self) -> nat {
        self.slots@.len()
    }

    /// Every index below the capacity has been reported.
    pub open spec fn complete(&self) -> bool {
        forall|i: int| 0 <= i < self.capacity() ==> #[trigger] self@.contains_key(i)
    }

    /// An empty map for the chunk indices `0 .. capacity`.
    pub fn new(capacity: usize) -> (m: Self)
        ensures
            m@ == Map::<int, Seq<R>>::empty(),
            m.capacity() == capacity,
    {
        let mut slots: Vec<Option<Vec<R>>> = Vec::with_capacity(capacity);
        let mut i: usize = 0;
        while i < capacity
            invariant
                i <= capacity,
                slots.len() == i,
                forall|k: int| 0 <= k < i ==> slots@[k] is None,
            decreases capacity - i,
        {
            slots.push(None);
            i = i + 1;
        }
        let m = ResultMap { slots };
        assert(m@ =~= Map::<int, Seq<R>>::empty());
        m
    }

    /// Records the outputs of chunk `index`.
    pub fn insert(&mut self, index: usize, outputs: Vec<R>)
        requires
            index < old(self).capacity(),
        ensures
            final(self).capacity() == old(self).capacity(),
            final(self)@ == old(self)@.insert(index as int, outputs@),
    {
        let ghost expected = self@.insert(index as int, outputs@);
        self.slots.set(index, Some(outputs));
        assert(self@ =~= expected);
    }

    /// Whether chunk `index` has been reported.
    pub fn contains(&self, index: usize) -> (r: bool)
        ensures
            r == self@.contains_key(index as int),
    {
        if index < self.slots.len() {
            self.slots[index].is_some()
        } else {
            false
        }
    }

    /// Whether every chunk below the capacity has been reported.
    pub fn is_complete(&self) -> (r: bool)
        ensures
            r == self.complete(),
    {
        let mut i: usize = 0;
        while i < self.slots.len()
            invariant
                i <= self.slots.len(),
                forall|k: int| 0 <= k < i ==> #[trigger] self@.contains_key(k),
            decreases self.slots.len() - i,
        {
            if self.slots[i].is_none() {
                assert(!self@.contains_key(i as int));
                return false;
            }
            i = i + 1;
        }
        true
    }

    /// All chunk outputs in ascending index order, followed by `tail`.
    pub fn into_ordered(self, tail: Vec<R>) -> (r: Vec<R>)
        requires
            self.complete(),
        ensures
            r@ == ordered_concat(self@, self.capacity()) + tail@,
    {
        let ghost whole = self@;
        let ghost all = self.slots@;
        let ghost cap = self.capacity();
        let mut slots = self.slots;
        let mut tail = tail;
        let mut out: Vec<R> = Vec::new();
        let mut i: usize = 0;
        assert forall|k: int| 0 <= k < cap implies (#[trigger] all[k] is Some && all[k]->Some_0@
            == whole[k]) by {
            assert(whole.contains_key(k));
        }
        while slots.len() > 0
            invariant
                cap <= usize::MAX,
                i + slots.len() == cap,
                slots@ == all.subrange(i as int, cap as int),
                all.len() == cap,
                forall|k: int| 0 <= k < cap ==> #[trigger] whole.contains_key(k),
                forall|k: int| 0 <= k < cap ==> (#[trigger] all[k] is Some && all[k]->Some_0@ == whole[k]),
                out@ == ordered_concat(whole, i as nat),
            decreases slots.len(),
        {
            let slot = slots.remove(0);
            assert(slot == all[i as int]);
            assert(whole.contains_key(i as int));
            match slot {
                Some(mut chunk) => {
                    out.append(&mut chunk);
                },
                None => {},
            }
            i = i + 1;
            assert(slots@ =~= all.subrange(i as int, cap as int));
        }
        out.append(&mut tail);
        out
    }
}

} // verus!
