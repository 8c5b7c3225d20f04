//! Eight 16-bit lanes processed together.
//!
//! The vector type and its lane-wise operations come from the `wide` crate.
//! Nothing in this module is proved: each function states what the `wide`
//! operation it calls does to every lane, and the rest of the crate is
//! verified against those statements.

use vstd::prelude::*;
use wide::i16x8;

verus! {

#[verifier::external_type_specification]
#[verifier::external_body]
pub struct ExI16x8(wide::i16x8);

/// The lanes of a vector, lane 0 first: the array that `i16x8::to_array`
/// gives. Always of length 8.
pub uninterp spec fn lanes(v: i16x8) -> Seq<i16>;

/// Two's complement wrap-around of `x` into the range of `i16`.
pub open spec fn wrap_i16(x: int) -> int {
    if -0x8000 <= x < 0x8000 {
        x
    } else {
        (x + 0x8000) % 0x1_0000 - 0x8000
    }
}

/// `i16x8::new`: the vector whose lanes are the elements of `a`, in order.
#[verifier::external_body]
pub(crate) fn from_array(a: [i16; 8]) -> (v: i16x8)
    ensures
        lanes(v) == a@,
{
    i16x8::new(a)
}

/// `i16x8::to_array`: the lanes, in order.
#[verifier::external_body]
pub(crate) fn to_array(v: i16x8) -> (a: [i16; 8])
    ensures
        a@ == lanes(v),
{
    v.to_array()
}

/// `i16x8::splat`: every lane holds `x`.
#[verifier::external_body]
pub(crate) fn splat(x: i16) -> (v: i16x8)
    ensures
        lanes(v).len() == 8,
        forall|i: int| 0 <= i < 8 ==> #[trigger] lanes(v)[i] == x,
{
    i16x8::splat(x)
}

/// `i16x8 + i16x8`: lane-wise sum, wrapping on overflow.
#[verifier::external_body]
pub(crate) fn add(a: i16x8, b: i16x8) -> (v: i16x8)
    ensures
        lanes(v).len() == 8,
        forall|i: int| 0 <= i < 8 ==> #[trigger] lanes(v)[i] == wrap_i16(lanes(a)[i] + lanes(b)[i]),
{
    a + b
}

/// `i16x8 - i16x8`: lane-wise difference, wrapping on overflow.
#[verifier::external_body]
pub(crate) fn sub(a: i16x8, b: i16x8) -> (v: i16x8)
    ensures
        lanes(v).len() == 8,
        forall|i: int| 0 <= i < 8 ==> #[trigger] lanes(v)[i] == wrap_i16(lanes(a)[i] - lanes(b)[i]),
{
    a - b
}

/// `i16x8 * i16x8`: lane-wise product, keeping the low 16 bits.
#[verifier::external_body]
pub(crate) fn mul(a: i16x8, b: i16x8) -> (v: i16x8)
    ensures
        lanes(v).len() == 8,
        forall|i: int| 0 <= i < 8 ==> #[trigger] lanes(v)[i] == wrap_i16(lanes(a)[i] * lanes(b)[i]),
{
    a * b
}

/// `i16x8 >> u32`: every lane shifted right by `k` bits, keeping its sign.
/// Shift counts of 16 and more are left out: the portable fallback of `wide`
/// overflows on them.
#[verifier::external_body]
pub(crate) fn shr(a: i16x8, k: u32) -> (v: i16x8)
    requires
        k < 16,
    ensures
        lanes(v).len() == 8,
        forall|i: int| 0 <= i < 8 ==> #[trigger] lanes(v)[i] == lanes(a)[i] >> k,
{
    a >> k
}

/// `i16x8::abs`: lane-wise absolute value; `i16::MIN` stays `i16::MIN`.
#[verifier::external_body]
pub(crate) fn abs(a: i16x8) -> (v: i16x8)
    ensures
        lanes(v).len() == 8,
        forall|i: int|
            0 <= i < 8 ==> #[trigger] lanes(v)[i] == wrap_i16(
                if lanes(a)[i] < 0 {
                    0 - lanes(a)[i]
                } else {
                    lanes(a)[i] as int
                },
            ),
{
    a.abs()
}

/// `i16x8::max`: lane-wise larger value.
#[verifier::external_body]
pub(crate) fn max(a: i16x8, b: i16x8) -> (v: i16x8)
    ensures
        lanes(v).len() == 8,
        forall|i: int|
            0 <= i < 8 ==> #[trigger] lanes(v)[i] == if lanes(a)[i] < lanes(b)[i] {
                lanes(b)[i]
            } else {
                lanes(a)[i]
            },
{
    a.max(b)
}

/// `i16x8::min`: lane-wise smaller value.
#[verifier::external_body]
pub(crate) fn min(a: i16x8, b: i16x8) -> (v: i16x8)
    ensures
        lanes(v).len() == 8,
        forall|i: int|
            0 <= i < 8 ==> #[trigger] lanes(v)[i] == if lanes(a)[i] < lanes(b)[i] {
                lanes(a)[i]
            } else {
                lanes(b)[i]
            },
{
    a.min(b)
}

/// `CmpLt::cmp_lt`: a lane is -1 (all bits set) where `a < b`, else 0.
#[verifier::external_body]
pub(crate) fn mask_lt(a: i16x8, b: i16x8) -> (v: i16x8)
    ensures
        lanes(v).len() == 8,
        forall|i: int|
            0 <= i < 8 ==> #[trigger] lanes(v)[i] == if lanes(a)[i] < lanes(b)[i] {
                -1i16
            } else {
                0i16
            },
{
    wide::CmpLt::cmp_lt(a, b)
}

/// `CmpGt::cmp_gt`: a lane is -1 (all bits set) where `a > b`, else 0.
#[verifier::external_body]
pub(crate) fn mask_gt(a: i16x8, b: i16x8) -> (v: i16x8)
    ensures
        lanes(v).len() == 8,
        forall|i: int|
            0 <= i < 8 ==> #[trigger] lanes(v)[i] == if lanes(a)[i] > lanes(b)[i] {
                -1i16
            } else {
                0i16
            },
{
    wide::CmpGt::cmp_gt(a, b)
}

} // verus!
