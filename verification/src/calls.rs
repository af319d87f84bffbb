//! What it means for a supplied executable function to behave as a mathematical one.

use crate::single::Single;
use vstd::prelude::*;

verus! {

/// `f` may be called on every argument, and an argument determines the result.
pub open spec fn maps1<A, B, F: Fn(A) -> B>(f: F) -> bool {
    &&& forall|a: A| call_requires(f, (a,))
    &&& determined1(f)
}

/// An argument determines the result of `f`.
pub open spec fn determined1<A, B, F: Fn(A) -> B>(f: F) -> bool {
    forall|a: A, x: B, y: B|
        #[trigger] call_ensures(f, (a,), x) && #[trigger] call_ensures(f, (a,), y) ==> x == y
}

/// The result of `f` on `a`.
pub open spec fn image1<A, B, F: Fn(A) -> B>(f: F, a: A) -> B {
    choose|x: B| call_ensures(f, (a,), x)
}

/// `f` may be called on every pair of arguments, and they determine the result.
pub open spec fn maps2<A, B, C, F: Fn(A, B) -> C>(f: F) -> bool {
    &&& forall|a: A, b: B| call_requires(f, (a, b))
    &&& forall|a: A, b: B, x: C, y: C|
        #[trigger] call_ensures(f, (a, b), x) && #[trigger] call_ensures(f, (a, b), y) ==> x == y
}

/// The result of `f` on `a` and `b`.
pub open spec fn image2<A, B, C, F: Fn(A, B) -> C>(f: F, a: A, b: B) -> C {
    choose|x: C| call_ensures(f, (a, b), x)
}

/// `f` may be called on every triple of arguments, and they determine the result.
pub open spec fn maps3<A, B, C, D, F: Fn(A, B, C) -> D>(f: F) -> bool {
    &&& forall|a: A, b: B, c: C| call_requires(f, (a, b, c))
    &&& forall|a: A, b: B, c: C, x: D, y: D|
        #[trigger] call_ensures(f, (a, b, c), x) && #[trigger] call_ensures(f, (a, b, c), y) ==> x
            == y
}

/// The result of `f` on `a`, `b` and `c`.
pub open spec fn image3<A, B, C, D, F: Fn(A, B, C) -> D>(f: F, a: A, b: B, c: C) -> D {
    choose|x: D| call_ensures(f, (a, b, c), x)
}

/// `f` may be called on every four arguments, and they determine the result.
pub open spec fn maps4<A, B, C, D, E, F: Fn(A, B, C, D) -> E>(f: F) -> bool {
    &&& forall|a: A, b: B, c: C, d: D| call_requires(f, (a, b, c, d))
    &&& forall|a: A, b: B, c: C, d: D, x: E, y: E|
        #[trigger] call_ensures(f, (a, b, c, d), x) && #[trigger] call_ensures(f, (a, b, c, d), y)
            ==> x == y
}

/// The result of `f` on `a`, `b`, `c` and `d`.
pub open spec fn image4<A, B, C, D, E, F: Fn(A, B, C, D) -> E>(f: F, a: A, b: B, c: C, d: D) -> E {
    choose|x: E| call_ensures(f, (a, b, c, d), x)
}

/// `f` returned `r` on a point, a hyperplane and an offset with these contents.
pub open spec fn scored<F: Fn(&[Single], &[Single], Single) -> Single>(
    f: F,
    point: Seq<Single>,
    plane: Seq<Single>,
    offset: Single,
    r: Single,
) -> bool {
    exists|a: &[Single], b: &[Single]|
        a@ == point && b@ == plane && #[trigger] call_ensures(f, (a, b, offset), r)
}

/// `f` may be called on every point and hyperplane of one length, and the contents and the offset
/// determine the result.
pub open spec fn scores<F: Fn(&[Single], &[Single], Single) -> Single>(f: F) -> bool {
    &&& forall|a: &[Single], b: &[Single], offset: Single|
        a@.len() == b@.len() ==> #[trigger] call_requires(f, (a, b, offset))
    &&& forall|
        point: Seq<Single>,
        plane: Seq<Single>,
        offset: Single,
        x: Single,
        y: Single,
    | #[trigger]
        scored(f, point, plane, offset, x) && #[trigger] scored(f, point, plane, offset, y) ==> x
            == y
}

/// The result of `f` on a point, a hyperplane and an offset.
pub open spec fn score<F: Fn(&[Single], &[Single], Single) -> Single>(
    f: F,
    point: Seq<Single>,
    plane: Seq<Single>,
    offset: Single,
) -> Single {
    choose|r: Single| scored(f, point, plane, offset, r)
}

/// `f` returned `r` on a vector with these contents.
pub open spec fn measured<F: Fn(&[Single]) -> Single>(f: F, v: Seq<Single>, r: Single) -> bool {
    exists|a: &[Single]| a@ == v && #[trigger] call_ensures(f, (a,), r)
}

/// `f` may be called on every vector, and the contents determine the result.
pub open spec fn measures<F: Fn(&[Single]) -> Single>(f: F) -> bool {
    &&& forall|a: &[Single]| #[trigger] call_requires(f, (a,))
    &&& forall|v: Seq<Single>, x: Single, y: Single| #[trigger]
        measured(f, v, x) && #[trigger] measured(f, v, y) ==> x == y
}

/// The result of `f` on a vector.
pub open spec fn measure<F: Fn(&[Single]) -> Single>(f: F, v: Seq<Single>) -> Single {
    choose|r: Single| measured(f, v, r)
}

/// `f` returned `r` on two vectors with these contents.
pub open spec fn compared<F: Fn(&[Single], &[Single]) -> Single>(
    f: F,
    v: Seq<Single>,
    w: Seq<Single>,
    r: Single,
) -> bool {
    exists|a: &[Single], b: &[Single]|
        a@ == v && b@ == w && #[trigger] call_ensures(f, (a, b), r)
}

/// `f` may be called on every two vectors of one length, and the contents determine the result.
pub open spec fn compares<F: Fn(&[Single], &[Single]) -> Single>(f: F) -> bool {
    &&& forall|a: &[Single], b: &[Single]|
        a@.len() == b@.len() ==> #[trigger] call_requires(f, (a, b))
    &&& forall|v: Seq<Single>, w: Seq<Single>, x: Single, y: Single| #[trigger]
        compared(f, v, w, x) && #[trigger] compared(f, v, w, y) ==> x == y
}

/// The result of `f` on two vectors.
pub open spec fn comparison<F: Fn(&[Single], &[Single]) -> Single>(
    f: F,
    v: Seq<Single>,
    w: Seq<Single>,
) -> Single {
    choose|r: Single| compared(f, v, w, r)
}

} // verus!
