//! What stands for code that is not verified.

use vstd::prelude::*;

verus! {

/// Some function from `A` to `B`, of which nothing is known: what a method of
/// a trait computes in an implementation that is not verified.
pub closed spec fn some_function<A, B>() -> spec_fn(A) -> B {
    arbitrary()
}

} // verus!
