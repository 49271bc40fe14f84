//! What the library asks of the arithmetic that its callers supply.
//!
//! Samples are opaque here, so the operations on them come in as function
//! values. An operation is usable when it accepts every argument and its
//! postcondition leaves room for one result only; the result then has a name
//! that contracts can speak of.

use vstd::prelude::*;

verus! {

/// A one-argument operation that accepts everything and determines its result.
pub open spec fn unary_operation<A, R, F: Fn(A) -> R>(f: F) -> bool {
    &&& forall|a: A| #[trigger] f.requires((a,))
    &&& forall|a: A, r1: R, r2: R|
        #[trigger] f.ensures((a,), r1) && #[trigger] f.ensures((a,), r2) ==> r1 == r2
}

/// The result of a one-argument operation.
pub open spec fn unary_result<A, R, F: Fn(A) -> R>(f: F, a: A) -> R {
    choose|r: R| f.ensures((a,), r)
}

/// A two-argument operation that accepts everything and determines its result.
pub open spec fn binary_operation<A, B, R, F: Fn(A, B) -> R>(f: F) -> bool {
    &&& forall|a: A, b: B| #[trigger] f.requires((a, b))
    &&& forall|a: A, b: B, r1: R, r2: R|
        #[trigger] f.ensures((a, b), r1) && #[trigger] f.ensures((a, b), r2) ==> r1 == r2
}

/// The result of a two-argument operation.
pub open spec fn binary_result<A, B, R, F: Fn(A, B) -> R>(f: F, a: A, b: B) -> R {
    choose|r: R| f.ensures((a, b), r)
}

/// A three-argument operation that accepts everything and determines its
/// result.
pub open spec fn ternary_operation<A, B, C, R, F: Fn(A, B, C) -> R>(f: F) -> bool {
    &&& forall|a: A, b: B, c: C| #[trigger] f.requires((a, b, c))
    &&& forall|a: A, b: B, c: C, r1: R, r2: R|
        #[trigger] f.ensures((a, b, c), r1) && #[trigger] f.ensures((a, b, c), r2) ==> r1 == r2
}

/// The result of a three-argument operation.
pub open spec fn ternary_result<A, B, C, R, F: Fn(A, B, C) -> R>(f: F, a: A, b: B, c: C) -> R {
    choose|r: R| f.ensures((a, b, c), r)
}

/// Whatever a unary operation returned is its result.
pub proof fn lemma_unary_result<A, R, F: Fn(A) -> R>(f: F, a: A, r: R)
    requires
        unary_operation(f),
        f.ensures((a,), r),
    ensures
        r == unary_result(f, a),
{
}

/// Whatever a binary operation returned is its result.
pub proof fn lemma_binary_result<A, B, R, F: Fn(A, B) -> R>(f: F, a: A, b: B, r: R)
    requires
        binary_operation(f),
        f.ensures((a, b), r),
    ensures
        r == binary_result(f, a, b),
{
}

/// Whatever a ternary operation returned is its result.
pub proof fn lemma_ternary_result<A, B, C, R, F: Fn(A, B, C) -> R>(f: F, a: A, b: B, c: C, r: R)
    requires
        ternary_operation(f),
        f.ensures((a, b, c), r),
    ensures
        r == ternary_result(f, a, b, c),
{
}

} // verus!
