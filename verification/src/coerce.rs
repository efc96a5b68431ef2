//! Conversions from native scalars into JSON leaves, one for each source type.
//!
//! A boolean becomes a `Boolean` leaf and a text a `String` leaf. Every number
//! becomes a `Number` leaf. An integer becomes the binary64 number that it is
//! rounded to: integers of up to 32 bits are always held exactly, wider ones
//! where their magnitude is at most 2^53. A binary32 number is widened, which
//! keeps its value.

use vstd::prelude::*;
use vstd::arithmetic::power2::pow2;
use crate::number::Double;
use crate::rounding::{double_of_int, holds_exactly, rounds_to};
use crate::single::{double_of_single, widens_to, Single};
use crate::value::{Json, JsonView};

verus! {

impl From<bool> for Json {
    /// A boolean becomes a `Boolean` leaf.
    fn from(b: bool) -> (r: Json)
        ensures
            r@ == JsonView::Boolean(b),
    {
        Json::Boolean(b)
    }
}

impl vstd::std_specs::convert::FromSpecImpl<bool> for Json {
    open spec fn obeys_from_spec() -> bool {
        true
    }

    open spec fn from_spec(b: bool) -> Json {
        Json::Boolean(b)
    }
}

impl From<String> for Json {
    /// An owned text becomes a `String` leaf.
    fn from(s: String) -> (r: Json)
        ensures
            r@ == JsonView::String(s@),
    {
        Json::String(s)
    }
}

impl vstd::std_specs::convert::FromSpecImpl<String> for Json {
    open spec fn obeys_from_spec() -> bool {
        true
    }

    open spec fn from_spec(s: String) -> Json {
        Json::String(s)
    }
}

impl<'a> From<&'a str> for Json {
    /// A borrowed text becomes a `String` leaf that owns a copy of it.
    fn from(s: &'a str) -> (r: Json)
        ensures
            r@ == JsonView::String(s@),
    {
        Json::String(s.to_owned())
    }
}

impl<'a> vstd::std_specs::convert::FromSpecImpl<&'a str> for Json {
    open spec fn obeys_from_spec() -> bool {
        false
    }

    open spec fn from_spec(s: &'a str) -> Json {
        choose|json: Json| json@ == JsonView::String(s@)
    }
}

impl From<Double> for Json {
    /// A binary64 number becomes the `Number` leaf that holds it.
    fn from(d: Double) -> (r: Json)
        ensures
            r@ == JsonView::Number(d@),
    {
        Json::Number(d)
    }
}

impl vstd::std_specs::convert::FromSpecImpl<Double> for Json {
    open spec fn obeys_from_spec() -> bool {
        true
    }

    open spec fn from_spec(d: Double) -> Json {
        Json::Number(d)
    }
}

impl From<Single> for Json {
    /// A binary32 number becomes the `Number` leaf that it is widened to, which
    /// holds the same value.
    fn from(s: Single) -> (r: Json)
        ensures
            r@ == JsonView::Number(double_of_single(s@)),
            widens_to(double_of_single(s@), s@),
    {
        Json::Number(Double::from_single(s))
    }
}

impl vstd::std_specs::convert::FromSpecImpl<Single> for Json {
    open spec fn obeys_from_spec() -> bool {
        true
    }

    open spec fn from_spec(s: Single) -> Json {
        Json::Number(Double { bits: double_of_single(s@) })
    }
}

impl From<i8> for Json {
    /// An 8-bit signed integer becomes the `Number` leaf that holds it exactly.
    fn from(i: i8) -> (r: Json)
        ensures
            r@ == JsonView::Number(double_of_int(i as int)),
            holds_exactly(double_of_int(i as int), i as int),
    {
        proof {
            vstd::arithmetic::power2::lemma2_to64_rest();
        }
        Json::Number(Double::from_signed(i as i128))
    }
}

impl vstd::std_specs::convert::FromSpecImpl<i8> for Json {
    open spec fn obeys_from_spec() -> bool {
        true
    }

    open spec fn from_spec(i: i8) -> Json {
        Json::Number(Double { bits: double_of_int(i as int) })
    }
}

impl From<i16> for Json {
    /// A 16-bit signed integer becomes the `Number` leaf that holds it exactly.
    fn from(i: i16) -> (r: Json)
        ensures
            r@ == JsonView::Number(double_of_int(i as int)),
            holds_exactly(double_of_int(i as int), i as int),
    {
        proof {
            vstd::arithmetic::power2::lemma2_to64_rest();
        }
        Json::Number(Double::from_signed(i as i128))
    }
}

impl vstd::std_specs::convert::FromSpecImpl<i16> for Json {
    open spec fn obeys_from_spec() -> bool {
        true
    }

    open spec fn from_spec(i: i16) -> Json {
        Json::Number(Double { bits: double_of_int(i as int) })
    }
}

impl From<i32> for Json {
    /// A 32-bit signed integer becomes the `Number` leaf that holds it exactly.
    fn from(i: i32) -> (r: Json)
        ensures
            r@ == JsonView::Number(double_of_int(i as int)),
            holds_exactly(double_of_int(i as int), i as int),
    {
        proof {
            vstd::arithmetic::power2::lemma2_to64_rest();
        }
        Json::Number(Double::from_signed(i as i128))
    }
}

impl vstd::std_specs::convert::FromSpecImpl<i32> for Json {
    open spec fn obeys_from_spec() -> bool {
        true
    }

    open spec fn from_spec(i: i32) -> Json {
        Json::Number(Double { bits: double_of_int(i as int) })
    }
}

impl From<i64> for Json {
    /// A 64-bit signed integer becomes the `Number` leaf that it is rounded to, which
    /// holds it exactly where its magnitude is at most 2^53.
    fn from(i: i64) -> (r: Json)
        ensures
            r@ == JsonView::Number(double_of_int(i as int)),
            rounds_to(double_of_int(i as int), i as int),
            -pow2(53) <= i <= pow2(53) ==> holds_exactly(double_of_int(i as int), i as int),
    {
        Json::Number(Double::from_signed(i as i128))
    }
}

impl vstd::std_specs::convert::FromSpecImpl<i64> for Json {
    open spec fn obeys_from_spec() -> bool {
        true
    }

    open spec fn from_spec(i: i64) -> Json {
        Json::Number(Double { bits: double_of_int(i as int) })
    }
}

impl From<i128> for Json {
    /// A 128-bit signed integer becomes the `Number` leaf that it is rounded to, which
    /// holds it exactly where its magnitude is at most 2^53.
    fn from(i: i128) -> (r: Json)
        ensures
            r@ == JsonView::Number(double_of_int(i as int)),
            rounds_to(double_of_int(i as int), i as int),
            -pow2(53) <= i <= pow2(53) ==> holds_exactly(double_of_int(i as int), i as int),
    {
        Json::Number(Double::from_signed(i))
    }
}

impl vstd::std_specs::convert::FromSpecImpl<i128> for Json {
    open spec fn obeys_from_spec() -> bool {
        true
    }

    open spec fn from_spec(i: i128) -> Json {
        Json::Number(Double { bits: double_of_int(i as int) })
    }
}

impl From<isize> for Json {
    /// A pointer-sized signed integer becomes the `Number` leaf that it is rounded to, which
    /// holds it exactly where its magnitude is at most 2^53.
    fn from(i: isize) -> (r: Json)
        ensures
            r@ == JsonView::Number(double_of_int(i as int)),
            rounds_to(double_of_int(i as int), i as int),
            -pow2(53) <= i <= pow2(53) ==> holds_exactly(double_of_int(i as int), i as int),
    {
        Json::Number(Double::from_signed(i as i128))
    }
}

impl vstd::std_specs::convert::FromSpecImpl<isize> for Json {
    open spec fn obeys_from_spec() -> bool {
        true
    }

    open spec fn from_spec(i: isize) -> Json {
        Json::Number(Double { bits: double_of_int(i as int) })
    }
}

impl From<u8> for Json {
    /// An 8-bit unsigned integer becomes the `Number` leaf that holds it exactly.
    fn from(n: u8) -> (r: Json)
        ensures
            r@ == JsonView::Number(double_of_int(n as int)),
            holds_exactly(double_of_int(n as int), n as int),
    {
        proof {
            vstd::arithmetic::power2::lemma2_to64_rest();
        }
        Json::Number(Double::from_unsigned(n as u128))
    }
}

impl vstd::std_specs::convert::FromSpecImpl<u8> for Json {
    open spec fn obeys_from_spec() -> bool {
        true
    }

    open spec fn from_spec(n: u8) -> Json {
        Json::Number(Double { bits: double_of_int(n as int) })
    }
}

impl From<u16> for Json {
    /// A 16-bit unsigned integer becomes the `Number` leaf that holds it exactly.
    fn from(n: u16) -> (r: Json)
        ensures
            r@ == JsonView::Number(double_of_int(n as int)),
            holds_exactly(double_of_int(n as int), n as int),
    {
        proof {
            vstd::arithmetic::power2::lemma2_to64_rest();
        }
        Json::Number(Double::from_unsigned(n as u128))
    }
}

impl vstd::std_specs::convert::FromSpecImpl<u16> for Json {
    open spec fn obeys_from_spec() -> bool {
        true
    }

    open spec fn from_spec(n: u16) -> Json {
        Json::Number(Double { bits: double_of_int(n as int) })
    }
}

impl From<u32> for Json {
    /// A 32-bit unsigned integer becomes the `Number` leaf that holds it exactly.
    fn from(n: u32) -> (r: Json)
        ensures
            r@ == JsonView::Number(double_of_int(n as int)),
            holds_exactly(double_of_int(n as int), n as int),
    {
        proof {
            vstd::arithmetic::power2::lemma2_to64_rest();
        }
        Json::Number(Double::from_unsigned(n as u128))
    }
}

impl vstd::std_specs::convert::FromSpecImpl<u32> for Json {
    open spec fn obeys_from_spec() -> bool {
        true
    }

    open spec fn from_spec(n: u32) -> Json {
        Json::Number(Double { bits: double_of_int(n as int) })
    }
}

impl From<u64> for Json {
    /// A 64-bit unsigned integer becomes the `Number` leaf that it is rounded to, which
    /// holds it exactly where it is at most 2^53.
    fn from(n: u64) -> (r: Json)
        ensures
            r@ == JsonView::Number(double_of_int(n as int)),
            rounds_to(double_of_int(n as int), n as int),
            n <= pow2(53) ==> holds_exactly(double_of_int(n as int), n as int),
    {
        Json::Number(Double::from_unsigned(n as u128))
    }
}

impl vstd::std_specs::convert::FromSpecImpl<u64> for Json {
    open spec fn obeys_from_spec() -> bool {
        true
    }

    open spec fn from_spec(n: u64) -> Json {
        Json::Number(Double { bits: double_of_int(n as int) })
    }
}

impl From<u128> for Json {
    /// A 128-bit unsigned integer becomes the `Number` leaf that it is rounded to, which
    /// holds it exactly where it is at most 2^53.
    fn from(n: u128) -> (r: Json)
        ensures
            r@ == JsonView::Number(double_of_int(n as int)),
            rounds_to(double_of_int(n as int), n as int),
            n <= pow2(53) ==> holds_exactly(double_of_int(n as int), n as int),
    {
        Json::Number(Double::from_unsigned(n))
    }
}

impl vstd::std_specs::convert::FromSpecImpl<u128> for Json {
    open spec fn obeys_from_spec() -> bool {
        true
    }

    open spec fn from_spec(n: u128) -> Json {
        Json::Number(Double { bits: double_of_int(n as int) })
    }
}

impl From<usize> for Json {
    /// A pointer-sized unsigned integer becomes the `Number` leaf that it is rounded to, which
    /// holds it exactly where it is at most 2^53.
    fn from(n: usize) -> (r: Json)
        ensures
            r@ == JsonView::Number(double_of_int(n as int)),
            rounds_to(double_of_int(n as int), n as int),
            n <= pow2(53) ==> holds_exactly(double_of_int(n as int), n as int),
    {
        Json::Number(Double::from_unsigned(n as u128))
    }
}

impl vstd::std_specs::convert::FromSpecImpl<usize> for Json {
    open spec fn obeys_from_spec() -> bool {
        true
    }

    open spec fn from_spec(n: usize) -> Json {
        Json::Number(Double { bits: double_of_int(n as int) })
    }
}

} // verus!
