//! Conversions between the dynamic scripting value and the typed `Variant`.
//!
//! Every conversion rule is one explicit (source shape, target kind) pair;
//! anything else is rejected with a typed error, never silently coerced.
//! Integer and floating dynamic values are mutually interchangeable into any
//! numeric kind via a narrowing cast, with no range or precision validation —
//! a documented quirk that is preserved, not corrected. The narrowing casts
//! that need a float unit are not performed here: the conversion names the
//! exact cast and the caller at the process edge carries it out.

use vstd::prelude::*;

use crate::bridge::{b64_decode, b64_encode, b64_of, b64_parse};
use crate::variant::{Kind, Variant};
use crate::Error;

verus! {

/// A dynamic scripting value, as the library models it: numbers carry their
/// IEEE 754 bit patterns, composite wrappers carry plain components, and
/// `Other` stands for any value of no recognized shape.
#[derive(Clone, Debug, PartialEq)]
pub enum DynValue {
    Nil,
    Bool(bool),
    /// A dynamic integer.
    Integer(i64),
    /// A dynamic float, as an IEEE 754 double bit pattern.
    Number(u64),
    Str(String),
    /// x, y, z as IEEE 754 single bit patterns.
    Vector3(u32, u32, u32),
    Vector3int16(i16, i16, i16),
    /// r, g, b as IEEE 754 single bit patterns.
    Color3(u32, u32, u32),
    Color3uint8(u8, u8, u8),
    /// Position and orientation as twelve IEEE 754 single bit patterns.
    CFrame([u32; 12]),
    /// A value of no shape this library recognizes.
    Other,
}

/// A narrowing numeric cast that the caller must perform with its float
/// unit; the payload is the source value.
#[derive(Clone, Copy, Debug, PartialEq, Eq, Structural)]
pub enum NumericCast {
    /// A double's bits, to be narrowed to a single's bits.
    F64BitsToF32(u64),
    /// An integer, to be converted to a single's bits.
    I64ToF32(i64),
    /// An integer, to be converted to a double's bits.
    I64ToF64(i64),
    /// A double's bits, to be truncated to a 32-bit integer.
    F64BitsToI32(u64),
    /// A double's bits, to be truncated to a 64-bit integer.
    F64BitsToI64(u64),
}

/// The outcome of a conversion into a variant: either the finished value, or
/// the exact narrowing cast still owed by the caller.
#[derive(Clone, Debug, PartialEq)]
pub enum ToVariant {
    Done(Variant),
    NeedsCast(NumericCast),
}

/// The outcome of a conversion into a dynamic value: either the finished
/// value, or the single-to-double widening still owed by the caller.
#[derive(Clone, Debug, PartialEq)]
pub enum ToDynamic {
    Done(DynValue),
    NeedsWiden(u32),
}

/// The kind a value sets without an explicit annotation: booleans, integers
/// and floats map to their kinds, text to the string kind, recognized
/// composite wrappers to their kinds, and anything else to nothing.
pub open spec fn spec_guess_kind(v: DynValue) -> Option<Kind> {
    match v {
        DynValue::Nil => None,
        DynValue::Bool(..) => Some(Kind::Bool),
        DynValue::Integer(..) => Some(Kind::Int64),
        DynValue::Number(..) => Some(Kind::Float64),
        DynValue::Str(..) => Some(Kind::Str),
        DynValue::Vector3(..) => Some(Kind::Vector3),
        DynValue::Vector3int16(..) => Some(Kind::Vector3int16),
        DynValue::Color3(..) => Some(Kind::Color3),
        DynValue::Color3uint8(..) => Some(Kind::Color3uint8),
        DynValue::CFrame(..) => Some(Kind::CFrame),
        DynValue::Other => None,
    }
}

/// Guesses the kind of a dynamic value set without an explicit annotation.
pub fn guess_kind(v: &DynValue) -> (r: Option<Kind>)
    ensures
        r == spec_guess_kind(*v),
{
    match v {
        DynValue::Nil => None,
        DynValue::Bool(..) => Some(Kind::Bool),
        DynValue::Integer(..) => Some(Kind::Int64),
        DynValue::Number(..) => Some(Kind::Float64),
        DynValue::Str(..) => Some(Kind::Str),
        DynValue::Vector3(..) => Some(Kind::Vector3),
        DynValue::Vector3int16(..) => Some(Kind::Vector3int16),
        DynValue::Color3(..) => Some(Kind::Color3),
        DynValue::Color3uint8(..) => Some(Kind::Color3uint8),
        DynValue::CFrame(..) => Some(Kind::CFrame),
        DynValue::Other => None,
    }
}

/// What `to_variant(kind, v)` returns: one explicit rule per accepted pair,
/// `TypeMismatch` for every other pair. Textual values asked to be binary
/// blobs are parsed as base64.
pub open spec fn to_variant_rel(kind: Kind, v: DynValue, r: Result<ToVariant, Error>) -> bool {
    match (kind, v) {
        (Kind::Str, DynValue::Str(s)) => match r {
            Ok(ToVariant::Done(Variant::Str(t))) => t@ == s@,
            _ => false,
        },
        (Kind::Content, DynValue::Str(s)) => match r {
            Ok(ToVariant::Done(Variant::Str(t))) => t@ == s@,
            _ => false,
        },
        (Kind::Bool, DynValue::Bool(b)) => r == Ok::<ToVariant, Error>(ToVariant::Done(
            Variant::Bool(b),
        )),
        (Kind::Float32, DynValue::Number(bits)) => r == Ok::<ToVariant, Error>(
            ToVariant::NeedsCast(NumericCast::F64BitsToF32(bits)),
        ),
        (Kind::Float32, DynValue::Integer(n)) => r == Ok::<ToVariant, Error>(ToVariant::NeedsCast(
            NumericCast::I64ToF32(n),
        )),
        (Kind::Float64, DynValue::Number(bits)) => r == Ok::<ToVariant, Error>(ToVariant::Done(
            Variant::Float64(bits),
        )),
        (Kind::Float64, DynValue::Integer(n)) => r == Ok::<ToVariant, Error>(ToVariant::NeedsCast(
            NumericCast::I64ToF64(n),
        )),
        (Kind::Int32, DynValue::Number(bits)) => r == Ok::<ToVariant, Error>(ToVariant::NeedsCast(
            NumericCast::F64BitsToI32(bits),
        )),
        (Kind::Int32, DynValue::Integer(n)) => r == Ok::<ToVariant, Error>(ToVariant::Done(
            Variant::Int32(n as i32),
        )),
        (Kind::Int64, DynValue::Number(bits)) => r == Ok::<ToVariant, Error>(ToVariant::NeedsCast(
            NumericCast::F64BitsToI64(bits),
        )),
        (Kind::Int64, DynValue::Integer(n)) => r == Ok::<ToVariant, Error>(ToVariant::Done(
            Variant::Int64(n),
        )),
        (Kind::Color3, DynValue::Color3(a, b, c)) => r == Ok::<ToVariant, Error>(ToVariant::Done(
            Variant::Color3(a, b, c),
        )),
        (Kind::Color3uint8, DynValue::Color3uint8(a, b, c)) => r == Ok::<ToVariant, Error>(
            ToVariant::Done(Variant::Color3uint8(a, b, c)),
        ),
        (Kind::Vector3, DynValue::Vector3(x, y, z)) => r == Ok::<ToVariant, Error>(
            ToVariant::Done(Variant::Vector3(x, y, z)),
        ),
        (Kind::Vector3int16, DynValue::Vector3int16(x, y, z)) => r == Ok::<ToVariant, Error>(
            ToVariant::Done(Variant::Vector3int16(x, y, z)),
        ),
        (Kind::BinaryString, DynValue::Str(s)) => match b64_parse(s@) {
            Some(bs) => match r {
                Ok(ToVariant::Done(Variant::BinaryString(bv))) => bv@ == bs,
                _ => false,
            },
            None => r == Err::<ToVariant, Error>(Error::TypeMismatch),
        },
        _ => r == Err::<ToVariant, Error>(Error::TypeMismatch),
    }
}

/// Converts a dynamic value into a variant of the requested kind.
///
/// Fails with `TypeMismatch` when the value's shape has no rule for the kind,
/// and when a textual value asked to be a binary blob is not valid base64.
/// The numeric cross-coercions return the exact narrowing cast the caller
/// still owes.
pub fn to_variant(kind: Kind, value: &DynValue) -> (r: Result<ToVariant, Error>)
    ensures
        to_variant_rel(kind, *value, r),
{
    match (kind, value) {
        (Kind::Str, DynValue::Str(s)) => Ok(ToVariant::Done(Variant::Str(s.clone()))),
        (Kind::Content, DynValue::Str(s)) => Ok(ToVariant::Done(Variant::Str(s.clone()))),
        (Kind::Bool, DynValue::Bool(b)) => Ok(ToVariant::Done(Variant::Bool(*b))),
        (Kind::Float32, DynValue::Number(bits)) => Ok(ToVariant::NeedsCast(
            NumericCast::F64BitsToF32(*bits),
        )),
        (Kind::Float32, DynValue::Integer(n)) => Ok(ToVariant::NeedsCast(NumericCast::I64ToF32(*n))),
        (Kind::Float64, DynValue::Number(bits)) => Ok(ToVariant::Done(Variant::Float64(*bits))),
        (Kind::Float64, DynValue::Integer(n)) => Ok(ToVariant::NeedsCast(NumericCast::I64ToF64(*n))),
        (Kind::Int32, DynValue::Number(bits)) => Ok(ToVariant::NeedsCast(
            NumericCast::F64BitsToI32(*bits),
        )),
        (Kind::Int32, DynValue::Integer(n)) => Ok(ToVariant::Done(
            Variant::Int32(#[verifier::truncate] (*n as i32)),
        )),
        (Kind::Int64, DynValue::Number(bits)) => Ok(ToVariant::NeedsCast(
            NumericCast::F64BitsToI64(*bits),
        )),
        (Kind::Int64, DynValue::Integer(n)) => Ok(ToVariant::Done(Variant::Int64(*n))),
        (Kind::Color3, DynValue::Color3(a, b, c)) => Ok(ToVariant::Done(
            Variant::Color3(*a, *b, *c),
        )),
        (Kind::Color3uint8, DynValue::Color3uint8(a, b, c)) => Ok(ToVariant::Done(
            Variant::Color3uint8(*a, *b, *c),
        )),
        (Kind::Vector3, DynValue::Vector3(x, y, z)) => Ok(ToVariant::Done(
            Variant::Vector3(*x, *y, *z),
        )),
        (Kind::Vector3int16, DynValue::Vector3int16(x, y, z)) => Ok(ToVariant::Done(
            Variant::Vector3int16(*x, *y, *z),
        )),
        (Kind::BinaryString, DynValue::Str(s)) => {
            match b64_decode(s.as_str()) {
                Some(bv) => Ok(ToVariant::Done(Variant::BinaryString(bv))),
                None => Err(Error::TypeMismatch),
            }
        },
        _ => Err(Error::TypeMismatch),
    }
}

/// What `to_dynamic(v)` returns: every kind of the supported enumeration has
/// one deterministic dynamic representation; the kinds outside it fail
/// `Unsupported` by explicit allow-list, never a default passthrough. Binary
/// blobs surface as their base64 text.
pub open spec fn to_dynamic_rel(v: Variant, r: Result<ToDynamic, Error>) -> bool {
    match v {
        Variant::BinaryString(b) => match r {
            Ok(ToDynamic::Done(DynValue::Str(t))) => t@ == b64_of(b@),
            _ => false,
        },
        Variant::Bool(x) => r == Ok::<ToDynamic, Error>(ToDynamic::Done(DynValue::Bool(x))),
        Variant::CFrame(m) => r == Ok::<ToDynamic, Error>(ToDynamic::Done(DynValue::CFrame(m))),
        Variant::Color3(a, b, c) => r == Ok::<ToDynamic, Error>(ToDynamic::Done(
            DynValue::Color3(a, b, c),
        )),
        Variant::Color3uint8(a, b, c) => r == Ok::<ToDynamic, Error>(ToDynamic::Done(
            DynValue::Color3uint8(a, b, c),
        )),
        Variant::Content(s) => match r {
            Ok(ToDynamic::Done(DynValue::Str(t))) => t@ == s@,
            _ => false,
        },
        Variant::Float32(bits) => r == Ok::<ToDynamic, Error>(ToDynamic::NeedsWiden(bits)),
        Variant::Float64(bits) => r == Ok::<ToDynamic, Error>(ToDynamic::Done(
            DynValue::Number(bits),
        )),
        Variant::Int32(n) => r == Ok::<ToDynamic, Error>(ToDynamic::Done(
            DynValue::Integer(n as i64),
        )),
        Variant::Int64(n) => r == Ok::<ToDynamic, Error>(ToDynamic::Done(DynValue::Integer(n))),
        Variant::Str(s) => match r {
            Ok(ToDynamic::Done(DynValue::Str(t))) => t@ == s@,
            _ => false,
        },
        Variant::Vector3int16(x, y, z) => r == Ok::<ToDynamic, Error>(ToDynamic::Done(
            DynValue::Vector3int16(x, y, z),
        )),
        _ => r == Err::<ToDynamic, Error>(Error::Unsupported),
    }
}

/// Converts a variant into its dynamic representation.
///
/// Kinds outside the supported enumeration — including, as inherited
/// behavior, plain vectors — fail with `Unsupported`. A single-precision
/// float returns the widening the caller still owes.
pub fn to_dynamic(v: &Variant) -> (r: Result<ToDynamic, Error>)
    ensures
        to_dynamic_rel(*v, r),
{
    match v {
        Variant::BinaryString(b) => Ok(ToDynamic::Done(DynValue::Str(b64_encode(b)))),
        Variant::Bool(x) => Ok(ToDynamic::Done(DynValue::Bool(*x))),
        Variant::CFrame(m) => Ok(ToDynamic::Done(DynValue::CFrame(*m))),
        Variant::Color3(a, b, c) => Ok(ToDynamic::Done(DynValue::Color3(*a, *b, *c))),
        Variant::Color3uint8(a, b, c) => Ok(ToDynamic::Done(DynValue::Color3uint8(*a, *b, *c))),
        Variant::Content(s) => Ok(ToDynamic::Done(DynValue::Str(s.clone()))),
        Variant::Float32(bits) => Ok(ToDynamic::NeedsWiden(*bits)),
        Variant::Float64(bits) => Ok(ToDynamic::Done(DynValue::Number(*bits))),
        Variant::Int32(n) => Ok(ToDynamic::Done(DynValue::Integer(*n as i64))),
        Variant::Int64(n) => Ok(ToDynamic::Done(DynValue::Integer(*n))),
        Variant::Str(s) => Ok(ToDynamic::Done(DynValue::Str(s.clone()))),
        Variant::Vector3int16(x, y, z) => Ok(ToDynamic::Done(DynValue::Vector3int16(*x, *y, *z))),
        _ => Err(Error::Unsupported),
    }
}

/// Law: converting a variant to its dynamic representation and back into its
/// own kind returns the variant, for every kind without special-case
/// asymmetric handling: booleans, 64-bit floats, 64-bit and 32-bit integers,
/// both color forms, and 16-bit integer vectors.
pub proof fn lemma_marshal_round_trip(v: Variant, dv: DynValue, back: Result<ToVariant, Error>)
    requires
        match v {
            Variant::Bool(..) => true,
            Variant::Float64(..) => true,
            Variant::Int64(..) => true,
            Variant::Int32(..) => true,
            Variant::Color3(..) => true,
            Variant::Color3uint8(..) => true,
            Variant::Vector3int16(..) => true,
            _ => false,
        },
        to_dynamic_rel(v, Ok(ToDynamic::Done(dv))),
        to_variant_rel(v.spec_kind(), dv, back),
    ensures
        back == Ok::<ToVariant, Error>(ToVariant::Done(v)),
{
    match v {
        Variant::Int32(n) => {
            assert(((n as i64) as i32) == n) by (bit_vector);
        },
        _ => {},
    }
}

} // verus!
