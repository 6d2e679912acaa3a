//! Functions that are passed as arguments.
use vstd::prelude::*;

verus! {

/// The function can be applied to every argument.
pub open spec fn accepts_all<A, R, F: Fn(A) -> R>(f: F) -> bool {
    forall|a: A| #[trigger] f.requires((a,))
}

/// What the function returns is what `model` says.
pub open spec fn computes<A, R, F: Fn(A) -> R>(f: F, model: spec_fn(A) -> R) -> bool {
    forall|a: A, r: R| #[trigger] f.ensures((a,), r) ==> r == model(a)
}

/// The function of two arguments can be applied to all of them.
pub open spec fn accepts_all_pairs<A, B, R, F: Fn(A, B) -> R>(f: F) -> bool {
    forall|a: A, b: B| #[trigger] f.requires((a, b))
}

/// What the function of two arguments returns is what `model` says.
pub open spec fn computes_pairs<A, B, R, F: Fn(A, B) -> R>(
    f: F,
    model: spec_fn(A, B) -> R,
) -> bool {
    forall|a: A, b: B, r: R| #[trigger] f.ensures((a, b), r) ==> r == model(a, b)
}

} // verus!
