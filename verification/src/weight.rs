use vstd::prelude::*;
use vstd::std_specs::cmp::{PartialEqSpec, PartialOrdIs, PartialOrdSpec};
use vstd::std_specs::convert::FromSpec;
use vstd::std_specs::ops::{AddSpec, DivSpec, MulSpec, SubSpec};

verus! {

/// The numeric type of edge weights and module scores.
///
/// Every type with copy semantics, a default value, a partial order, the
/// four arithmetic operators and a conversion from `u32` is a weight; the
/// zero weight is the conversion of `0`. The library is used with
/// floating-point weights.
pub trait Weight: Copy + Default + PartialOrd + core::ops::Add<Output = Self> + core::ops::Sub<
    Output = Self,
> + core::ops::Mul<Output = Self> + core::ops::Div<Output = Self> + From<u32> {

}

impl<T> Weight for T where
    T: Copy + Default + PartialOrd + core::ops::Add<Output = T> + core::ops::Sub<
        Output = T,
    > + core::ops::Mul<Output = T> + core::ops::Div<Output = T> + From<u32>,
 {

}

/// `W` follows vstd's specifications of its four arithmetic operators and
/// of its conversion from `u32`. Integer types do; vstd assumes nothing of
/// this kind for floating-point types, whose results it leaves unstated.
pub open spec fn arithmetic_obeys<W: Weight>() -> bool {
    &&& W::obeys_add_spec()
    &&& W::obeys_sub_spec()
    &&& W::obeys_mul_spec()
    &&& W::obeys_div_spec()
    &&& <W as FromSpec<u32>>::obeys_from_spec()
}

/// `W` follows vstd's specifications of `==` and of its partial order.
pub open spec fn order_obeys<W: Weight>() -> bool {
    W::obeys_eq_spec() && W::obeys_partial_cmp_spec()
}

/// The weight that `W::from(n)` gives.
pub open spec fn weight_of<W: Weight>(n: u32) -> W {
    <W as FromSpec<u32>>::from_spec(n)
}

/// The zero weight, `W::from(0)`.
pub open spec fn zero_spec<W: Weight>() -> W {
    weight_of::<W>(0u32)
}

/// The zero weight, `W::from(0)`.
pub fn zero_weight<W: Weight>() -> (r: W)
    ensures
        arithmetic_obeys::<W>() ==> r == zero_spec::<W>(),
{
    W::from(0u32)
}

/// `a` is `<=` `b` in `W`'s partial order.
pub open spec fn weight_le<W: Weight>(a: W, b: W) -> bool {
    a.is_le(&b)
}

/// `a` is `<` `b` in `W`'s partial order.
pub open spec fn weight_lt<W: Weight>(a: W, b: W) -> bool {
    a.is_lt(&b)
}

/// `a` is `>=` `b` in `W`'s partial order.
pub open spec fn weight_ge<W: Weight>(a: W, b: W) -> bool {
    a.is_ge(&b)
}

/// `a` is `>` `b` in `W`'s partial order.
pub open spec fn weight_gt<W: Weight>(a: W, b: W) -> bool {
    a.is_gt(&b)
}

/// `a == b` as `W`'s `PartialEq` decides it.
pub open spec fn weight_eq<W: Weight>(a: W, b: W) -> bool {
    a.eq_spec(&b)
}

/// `count_to_weight(n)` where `W` follows its specifications.
pub open spec fn count_weight<W: Weight>(n: usize) -> W {
    let hi = (n as int / 0x1_0000_0000) as u32;
    let lo = (n as int % 0x1_0000_0000) as u32;
    if hi == 0 {
        weight_of::<W>(lo)
    } else {
        weight_of::<W>(hi).mul_spec(weight_of::<W>(65536u32)).mul_spec(
            weight_of::<W>(65536u32),
        ).add_spec(weight_of::<W>(lo))
    }
}

/// One community's modularity term: `internal / m - (degree^2 / (4 m)) / m`
/// with `W`'s operators, the internal weight halved first in an undirected
/// network.
pub open spec fn modularity_term<W: Weight>(directed: bool, internal: W, degree: W, m: W) -> W {
    let inside = if directed {
        internal
    } else {
        internal.div_spec(weight_of::<W>(2u32))
    };
    let expected = degree.mul_spec(degree).div_spec(weight_of::<W>(4u32).mul_spec(m));
    inside.div_spec(m).sub_spec(expected.div_spec(m))
}

/// `W`'s four operators succeed on every pair of arguments: vstd's
/// preconditions `add_req`, `sub_req`, `mul_req` and `div_req` always hold.
/// The library's arithmetic on weights asks this of `W`. Floating-point
/// types meet it (their operators never fail); the integer types do not
/// (their operators overflow or divide by zero), so they are no weights of
/// a verified caller.
pub open spec fn weight_ops_total<W: Weight>() -> bool {
    &&& forall|a: W, b: W| #[trigger] a.add_req(b)
    &&& forall|a: W, b: W| #[trigger] a.sub_req(b)
    &&& forall|a: W, b: W| #[trigger] a.mul_req(b)
    &&& forall|a: W, b: W| #[trigger] a.div_req(b)
}

/// `a + b` with `W`'s `core::ops` operator, under vstd's specification of
/// it: `add_req` is asked, and where `W` follows its spec the result is
/// `add_spec`.
pub(crate) fn weight_add<W: Weight>(a: W, b: W) -> (r: W)
    requires
        a.add_req(b),
    ensures
        W::obeys_add_spec() ==> r == a.add_spec(b),
{
    a + b
}

/// `a - b` with `W`'s `core::ops` operator, under vstd's specification of
/// it: `sub_req` is asked, and where `W` follows its spec the result is
/// `sub_spec`.
pub(crate) fn weight_sub<W: Weight>(a: W, b: W) -> (r: W)
    requires
        a.sub_req(b),
    ensures
        W::obeys_sub_spec() ==> r == a.sub_spec(b),
{
    a - b
}

/// `a * b` with `W`'s `core::ops` operator, under vstd's specification of
/// it: `mul_req` is asked, and where `W` follows its spec the result is
/// `mul_spec`.
pub(crate) fn weight_mul<W: Weight>(a: W, b: W) -> (r: W)
    requires
        a.mul_req(b),
    ensures
        W::obeys_mul_spec() ==> r == a.mul_spec(b),
{
    a * b
}

/// `a / b` with `W`'s `core::ops` operator, under vstd's specification of
/// it: `div_req` is asked, and where `W` follows its spec the result is
/// `div_spec`.
pub(crate) fn weight_div<W: Weight>(a: W, b: W) -> (r: W)
    requires
        a.div_req(b),
    ensures
        W::obeys_div_spec() ==> r == a.div_spec(b),
{
    a / b
}

/// The count `n` as a weight: the high and low 32-bit halves are converted
/// with `From<u32>` and recombined as `hi * 2^16 * 2^16 + lo`. With
/// floating-point weights the product is exact, so the one rounding is that
/// of the final sum, as in a direct conversion of `n`.
pub fn count_to_weight<W: Weight>(n: usize) -> (r: W)
    requires
        weight_ops_total::<W>(),
    ensures
        arithmetic_obeys::<W>() ==> r == count_weight::<W>(n),
{
    let wide = n as u64;
    let hi = (wide >> 32u64) as u32;
    let lo = (wide & 0xffff_ffffu64) as u32;
    proof {
        assert(wide >> 32u64 == wide / 0x1_0000_0000) by (bit_vector);
        assert(wide & 0xffff_ffffu64 == wide % 0x1_0000_0000) by (bit_vector);
    }
    let lo_w = W::from(lo);
    if hi == 0 {
        lo_w
    } else {
        let half = W::from(65536u32);
        let high = weight_mul(weight_mul(W::from(hi), half), half);
        weight_add(high, lo_w)
    }
}

} // verus!
