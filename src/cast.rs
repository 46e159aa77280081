//! Narrowing of wide integers into the fixed-width integers of the wire
//! formats, with an error that names what was being narrowed.

use vstd::prelude::*;
use vstd::string::StringExecFns;

verus! {

/// The width an integer was narrowed to.
#[derive(Debug, Clone, Copy, PartialEq, Eq, Structural)]
pub enum IntWidth {
    I16,
    I32,
}

/// A value that does not fit the width it was narrowed to.
#[derive(Debug, Clone, Copy)]
pub struct RangeError {
    /// What was being narrowed, such as `"field count"`.
    pub context: &'static str,
    /// The width that was asked for.
    pub width: IntWidth,
}

/// The message of a [`RangeError`]: the context, then the width missed.
pub open spec fn range_message(context: Seq<char>, width: IntWidth) -> Seq<char> {
    context + match width {
        IntWidth::I16 => " does not fit into an i16"@,
        IntWidth::I32 => " does not fit into an i32"@,
    }
}

impl RangeError {
    /// `"<context> does not fit into an i16"` (or `i32`).
    pub fn message(&self) -> (r: String)
        ensures
            r@ == range_message(self.context@, self.width),
    {
        let mut m = self.context.to_owned();
        match self.width {
            IntWidth::I16 => m.append(" does not fit into an i16"),
            IntWidth::I32 => m.append(" does not fit into an i32"),
        }
        m
    }
}

/// Narrows `v` to an `i16`, or fails with a [`RangeError`] that carries `cx`.
pub fn i16(cx: &'static str, v: i128) -> (r: Result<i16, RangeError>)
    ensures
        i16::MIN <= v <= i16::MAX ==> r == Ok::<i16, RangeError>(v as i16),
        !(i16::MIN <= v <= i16::MAX) ==> r is Err && r->Err_0.context == cx && r->Err_0.width
            == IntWidth::I16,
{
    if i16::MIN as i128 <= v && v <= i16::MAX as i128 {
        Ok(v as i16)
    } else {
        Err(RangeError { context: cx, width: IntWidth::I16 })
    }
}

/// Narrows `v` to an `i32`, or fails with a [`RangeError`] that carries `cx`.
pub fn i32(cx: &'static str, v: i128) -> (r: Result<i32, RangeError>)
    ensures
        i32::MIN <= v <= i32::MAX ==> r == Ok::<i32, RangeError>(v as i32),
        !(i32::MIN <= v <= i32::MAX) ==> r is Err && r->Err_0.context == cx && r->Err_0.width
            == IntWidth::I32,
{
    if i32::MIN as i128 <= v && v <= i32::MAX as i128 {
        Ok(v as i32)
    } else {
        Err(RangeError { context: cx, width: IntWidth::I32 })
    }
}


/// Narrows the unsigned `v` to an `i16`, or fails with a [`RangeError`]
/// that carries `cx`.
pub fn i16_from_unsigned(cx: &'static str, v: u128) -> (r: Result<i16, RangeError>)
    ensures
        v <= i16::MAX ==> r == Ok::<i16, RangeError>(v as i16),
        v > i16::MAX ==> r is Err && r->Err_0.context == cx && r->Err_0.width == IntWidth::I16,
{
    if v <= i16::MAX as u128 {
        Ok(v as i16)
    } else {
        Err(RangeError { context: cx, width: IntWidth::I16 })
    }
}

/// Narrows the unsigned `v` to an `i32`, or fails with a [`RangeError`]
/// that carries `cx`.
pub fn i32_from_unsigned(cx: &'static str, v: u128) -> (r: Result<i32, RangeError>)
    ensures
        v <= i32::MAX ==> r == Ok::<i32, RangeError>(v as i32),
        v > i32::MAX ==> r is Err && r->Err_0.context == cx && r->Err_0.width == IntWidth::I32,
{
    if v <= i32::MAX as u128 {
        Ok(v as i32)
    } else {
        Err(RangeError { context: cx, width: IntWidth::I32 })
    }
}

} // verus!
