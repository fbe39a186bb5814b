use vstd::prelude::*;

verus! {

/// `ys` is an element-wise image of `xs` under `f`: same length, and each
/// `ys[i]` is a value that `f` may return for `xs[i]`.
pub open spec fn maps_to<T, R, F: Fn(T) -> R>(f: F, xs: Seq<T>, ys: Seq<R>) -> bool {
    &&& ys.len() == xs.len()
    &&& forall|i: int| 0 <= i < xs.len() ==> #[trigger] f.ensures((xs[i],), ys[i])
}

/// `f` may be called on every element of `xs`.
pub open spec fn accepts_all<T, R, F: Fn(T) -> R>(f: F, xs: Seq<T>) -> bool {
    forall|i: int| 0 <= i < xs.len() ==> #[trigger] f.requires((xs[i],))
}

/// `f` is a function in the mathematical sense: one input gives one output.
pub open spec fn deterministic<T, R, F: Fn(T) -> R>(f: F) -> bool {
    forall|x: T, a: R, b: R| #[trigger] f.ensures((x,), a) && #[trigger] f.ensures((x,), b) ==> a == b
}

/// Mapping distributes over concatenation.
pub proof fn lemma_maps_to_append<T, R, F: Fn(T) -> R>(
    f: F,
    xs1: Seq<T>,
    ys1: Seq<R>,
    xs2: Seq<T>,
    ys2: Seq<R>,
)
    requires
        maps_to(f, xs1, ys1),
        maps_to(f, xs2, ys2),
    ensures
        maps_to(f, xs1 + xs2, ys1 + ys2),
{
    let xs = xs1 + xs2;
    let ys = ys1 + ys2;
    assert forall|i: int| 0 <= i < xs.len() implies #[trigger] f.ensures((xs[i],), ys[i]) by {
        if i < xs1.len() {
            assert(xs[i] == xs1[i] && ys[i] == ys1[i]);
        } else {
            assert(xs[i] == xs2[i - xs1.len()] && ys[i] == ys2[i - xs1.len()]);
        }
    }
}

} // verus!
