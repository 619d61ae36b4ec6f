//! Executable functions handed in by the caller.
//!
//! Ciphers, hashes and random generators reach this library as closures. The
//! contracts speak of such a closure through [`is_function`] and [`apply`].
use vstd::prelude::*;

verus! {

/// `f` accepts every argument and has one result for each.
pub open spec fn is_function<A, B, F: Fn(A) -> B>(f: F) -> bool {
    &&& forall|a: A| #[trigger] call_requires(f, (a,))
    &&& forall|a: A, r: B, s: B| #[trigger]
        call_ensures(f, (a,), r) && #[trigger] call_ensures(f, (a,), s) ==> r == s
}

/// The result of `f` on `a`.
pub open spec fn apply<A, B, F: Fn(A) -> B>(f: F, a: A) -> B {
    choose|r: B| call_ensures(f, (a,), r)
}

/// Calls `f`, whose result is then known by name.
pub fn call<A, B, F: Fn(A) -> B>(f: &F, a: A) -> (r: B)
    requires
        is_function::<A, B, F>(*f),
    ensures
        r == apply::<A, B, F>(*f, a),
{
    f(a)
}

} // verus!
