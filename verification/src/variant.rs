//! The closed set of typed property kinds and their storage representation.
//!
//! A `Variant` is a value of one of the supported property kinds. Kinds whose
//! values the marshaling layer cannot convert are still representable in
//! storage (as payload-free variants), and are rejected with a typed error by
//! the marshaling layer rather than silently coerced.
//!
//! Floating-point payloads are stored as their IEEE 754 bit patterns
//! (`u32`/`u64`), which the library treats as opaque data; only the callers at
//! the process edge interpret them as numbers.

use vstd::prelude::*;

use crate::strutil::str_eq;

verus! {

/// One tag per property kind that storage can name.
#[derive(Clone, Copy, Debug, PartialEq, Eq, Structural)]
pub enum Kind {
    BinaryString,
    BrickColor,
    Bool,
    CFrame,
    Color3,
    Color3uint8,
    ColorSequence,
    Content,
    Enum,
    Float32,
    Float64,
    Int32,
    Int64,
    NumberRange,
    NumberSequence,
    PhysicalProperties,
    Ray,
    Rect,
    Ref,
    SharedString,
    Str,
    UDim,
    UDim2,
    Vector2,
    Vector2int16,
    Vector3,
    Vector3int16,
}

/// A typed property value.
///
/// Kinds that the marshaling layer converts carry their payload as plain
/// data; the remaining kinds are representable but payload-free, so that a
/// property slot can hold them while the marshaling layer rejects them.
#[derive(Clone, Debug, PartialEq)]
pub enum Variant {
    BinaryString(Vec<u8>),
    BrickColor,
    Bool(bool),
    /// Position and orientation as twelve IEEE 754 single bit patterns:
    /// x, y, z, then the three rows of the rotation matrix.
    CFrame([u32; 12]),
    /// r, g, b as IEEE 754 single bit patterns.
    Color3(u32, u32, u32),
    Color3uint8(u8, u8, u8),
    ColorSequence,
    Content(String),
    Enum,
    /// An IEEE 754 single bit pattern.
    Float32(u32),
    /// An IEEE 754 double bit pattern.
    Float64(u64),
    Int32(i32),
    Int64(i64),
    NumberRange,
    NumberSequence,
    PhysicalProperties,
    Ray,
    Rect,
    Ref,
    SharedString,
    Str(String),
    UDim,
    UDim2,
    Vector2,
    Vector2int16,
    /// x, y, z as IEEE 754 single bit patterns.
    Vector3(u32, u32, u32),
    Vector3int16(i16, i16, i16),
}

impl Variant {
    /// The kind tag of this value.
    pub open spec fn spec_kind(&self) -> Kind {
        match self {
            Variant::BinaryString(..) => Kind::BinaryString,
            Variant::BrickColor => Kind::BrickColor,
            Variant::Bool(..) => Kind::Bool,
            Variant::CFrame(..) => Kind::CFrame,
            Variant::Color3(..) => Kind::Color3,
            Variant::Color3uint8(..) => Kind::Color3uint8,
            Variant::ColorSequence => Kind::ColorSequence,
            Variant::Content(..) => Kind::Content,
            Variant::Enum => Kind::Enum,
            Variant::Float32(..) => Kind::Float32,
            Variant::Float64(..) => Kind::Float64,
            Variant::Int32(..) => Kind::Int32,
            Variant::Int64(..) => Kind::Int64,
            Variant::NumberRange => Kind::NumberRange,
            Variant::NumberSequence => Kind::NumberSequence,
            Variant::PhysicalProperties => Kind::PhysicalProperties,
            Variant::Ray => Kind::Ray,
            Variant::Rect => Kind::Rect,
            Variant::Ref => Kind::Ref,
            Variant::SharedString => Kind::SharedString,
            Variant::Str(..) => Kind::Str,
            Variant::UDim => Kind::UDim,
            Variant::UDim2 => Kind::UDim2,
            Variant::Vector2 => Kind::Vector2,
            Variant::Vector2int16 => Kind::Vector2int16,
            Variant::Vector3(..) => Kind::Vector3,
            Variant::Vector3int16(..) => Kind::Vector3int16,
        }
    }

    /// Returns the kind tag of this value.
    pub fn kind(&self) -> (k: Kind)
        ensures
            k == self.spec_kind(),
    {
        match self {
            Variant::BinaryString(..) => Kind::BinaryString,
            Variant::BrickColor => Kind::BrickColor,
            Variant::Bool(..) => Kind::Bool,
            Variant::CFrame(..) => Kind::CFrame,
            Variant::Color3(..) => Kind::Color3,
            Variant::Color3uint8(..) => Kind::Color3uint8,
            Variant::ColorSequence => Kind::ColorSequence,
            Variant::Content(..) => Kind::Content,
            Variant::Enum => Kind::Enum,
            Variant::Float32(..) => Kind::Float32,
            Variant::Float64(..) => Kind::Float64,
            Variant::Int32(..) => Kind::Int32,
            Variant::Int64(..) => Kind::Int64,
            Variant::NumberRange => Kind::NumberRange,
            Variant::NumberSequence => Kind::NumberSequence,
            Variant::PhysicalProperties => Kind::PhysicalProperties,
            Variant::Ray => Kind::Ray,
            Variant::Rect => Kind::Rect,
            Variant::Ref => Kind::Ref,
            Variant::SharedString => Kind::SharedString,
            Variant::Str(..) => Kind::Str,
            Variant::UDim => Kind::UDim,
            Variant::UDim2 => Kind::UDim2,
            Variant::Vector2 => Kind::Vector2,
            Variant::Vector2int16 => Kind::Vector2int16,
            Variant::Vector3(..) => Kind::Vector3,
            Variant::Vector3int16(..) => Kind::Vector3int16,
        }
    }
}

/// The kind named by the given string, if any.
///
/// The accepted names are the canonical kind names; `Str` answers to the name
/// a property table writes for textual values.
pub open spec fn spec_type_from_str(name: Seq<char>) -> Option<Kind> {
    if name == "BinaryString"@ {
        Some(Kind::BinaryString)
    } else if name == "BrickColor"@ {
        Some(Kind::BrickColor)
    } else if name == "Bool"@ {
        Some(Kind::Bool)
    } else if name == "CFrame"@ {
        Some(Kind::CFrame)
    } else if name == "Color3"@ {
        Some(Kind::Color3)
    } else if name == "Color3uint8"@ {
        Some(Kind::Color3uint8)
    } else if name == "ColorSequence"@ {
        Some(Kind::ColorSequence)
    } else if name == "Content"@ {
        Some(Kind::Content)
    } else if name == "Enum"@ {
        Some(Kind::Enum)
    } else if name == "Float32"@ {
        Some(Kind::Float32)
    } else if name == "Float64"@ {
        Some(Kind::Float64)
    } else if name == "Int32"@ {
        Some(Kind::Int32)
    } else if name == "Int64"@ {
        Some(Kind::Int64)
    } else if name == "NumberRange"@ {
        Some(Kind::NumberRange)
    } else if name == "NumberSequence"@ {
        Some(Kind::NumberSequence)
    } else if name == "PhysicalProperties"@ {
        Some(Kind::PhysicalProperties)
    } else if name == "Ray"@ {
        Some(Kind::Ray)
    } else if name == "Rect"@ {
        Some(Kind::Rect)
    } else if name == "Ref"@ {
        Some(Kind::Ref)
    } else if name == "SharedString"@ {
        Some(Kind::SharedString)
    } else if name == "String"@ {
        Some(Kind::Str)
    } else if name == "UDim"@ {
        Some(Kind::UDim)
    } else if name == "UDim2"@ {
        Some(Kind::UDim2)
    } else if name == "Vector2"@ {
        Some(Kind::Vector2)
    } else if name == "Vector2int16"@ {
        Some(Kind::Vector2int16)
    } else if name == "Vector3"@ {
        Some(Kind::Vector3)
    } else if name == "Vector3int16"@ {
        Some(Kind::Vector3int16)
    } else {
        None
    }
}

/// Looks a kind up by its canonical name.
pub fn type_from_str(name: &str) -> (r: Option<Kind>)
    ensures
        r == spec_type_from_str(name@),
{
    if str_eq(name, "BinaryString") {
        Some(Kind::BinaryString)
    } else if str_eq(name, "BrickColor") {
        Some(Kind::BrickColor)
    } else if str_eq(name, "Bool") {
        Some(Kind::Bool)
    } else if str_eq(name, "CFrame") {
        Some(Kind::CFrame)
    } else if str_eq(name, "Color3") {
        Some(Kind::Color3)
    } else if str_eq(name, "Color3uint8") {
        Some(Kind::Color3uint8)
    } else if str_eq(name, "ColorSequence") {
        Some(Kind::ColorSequence)
    } else if str_eq(name, "Content") {
        Some(Kind::Content)
    } else if str_eq(name, "Enum") {
        Some(Kind::Enum)
    } else if str_eq(name, "Float32") {
        Some(Kind::Float32)
    } else if str_eq(name, "Float64") {
        Some(Kind::Float64)
    } else if str_eq(name, "Int32") {
        Some(Kind::Int32)
    } else if str_eq(name, "Int64") {
        Some(Kind::Int64)
    } else if str_eq(name, "NumberRange") {
        Some(Kind::NumberRange)
    } else if str_eq(name, "NumberSequence") {
        Some(Kind::NumberSequence)
    } else if str_eq(name, "PhysicalProperties") {
        Some(Kind::PhysicalProperties)
    } else if str_eq(name, "Ray") {
        Some(Kind::Ray)
    } else if str_eq(name, "Rect") {
        Some(Kind::Rect)
    } else if str_eq(name, "Ref") {
        Some(Kind::Ref)
    } else if str_eq(name, "SharedString") {
        Some(Kind::SharedString)
    } else if str_eq(name, "String") {
        Some(Kind::Str)
    } else if str_eq(name, "UDim") {
        Some(Kind::UDim)
    } else if str_eq(name, "UDim2") {
        Some(Kind::UDim2)
    } else if str_eq(name, "Vector2") {
        Some(Kind::Vector2)
    } else if str_eq(name, "Vector2int16") {
        Some(Kind::Vector2int16)
    } else if str_eq(name, "Vector3") {
        Some(Kind::Vector3)
    } else if str_eq(name, "Vector3int16") {
        Some(Kind::Vector3int16)
    } else {
        None
    }
}


/// Two variants hold the same value: payload-free and plain-data variants by
/// equality, buffer-backed payloads by their contents.
pub open spec fn variant_like(a: Variant, b: Variant) -> bool {
    match (a, b) {
        (Variant::BinaryString(x), Variant::BinaryString(y)) => x@ == y@,
        _ => a == b,
    }
}

/// Two property lists hold the same keys and values, in the same order.
pub open spec fn props_like(a: Seq<(String, Variant)>, b: Seq<(String, Variant)>) -> bool {
    &&& a.len() == b.len()
    &&& forall|k: int|
        0 <= k < a.len() ==> (#[trigger] a[k]).0 == b[k].0 && variant_like(a[k].1, b[k].1)
}

/// Copies a byte buffer.
pub fn dup_bytes(v: &Vec<u8>) -> (r: Vec<u8>)
    ensures
        r@ == v@,
{
    let n = v.len();
    let mut r: Vec<u8> = Vec::new();
    let mut k: usize = 0;
    while k < n
        invariant
            0 <= k <= n,
            n == v@.len(),
            r@ == v@.subrange(0, k as int),
        decreases n - k,
    {
        r.push(v[k]);
        proof {
            assert(r@ =~= v@.subrange(0, k + 1));
        }
        k += 1;
    }
    proof {
        assert(r@ =~= v@);
    }
    r
}

/// Copies a variant value.
pub fn dup_variant(v: &Variant) -> (r: Variant)
    ensures
        variant_like(r, *v),
{
    match v {
        Variant::BinaryString(b) => Variant::BinaryString(dup_bytes(b)),
        Variant::BrickColor => Variant::BrickColor,
        Variant::Bool(b) => Variant::Bool(*b),
        Variant::CFrame(m) => Variant::CFrame(*m),
        Variant::Color3(a, b, c) => Variant::Color3(*a, *b, *c),
        Variant::Color3uint8(a, b, c) => Variant::Color3uint8(*a, *b, *c),
        Variant::ColorSequence => Variant::ColorSequence,
        Variant::Content(t) => Variant::Content(t.clone()),
        Variant::Enum => Variant::Enum,
        Variant::Float32(b) => Variant::Float32(*b),
        Variant::Float64(b) => Variant::Float64(*b),
        Variant::Int32(n) => Variant::Int32(*n),
        Variant::Int64(n) => Variant::Int64(*n),
        Variant::NumberRange => Variant::NumberRange,
        Variant::NumberSequence => Variant::NumberSequence,
        Variant::PhysicalProperties => Variant::PhysicalProperties,
        Variant::Ray => Variant::Ray,
        Variant::Rect => Variant::Rect,
        Variant::Ref => Variant::Ref,
        Variant::SharedString => Variant::SharedString,
        Variant::Str(t) => Variant::Str(t.clone()),
        Variant::UDim => Variant::UDim,
        Variant::UDim2 => Variant::UDim2,
        Variant::Vector2 => Variant::Vector2,
        Variant::Vector2int16 => Variant::Vector2int16,
        Variant::Vector3(a, b, c) => Variant::Vector3(*a, *b, *c),
        Variant::Vector3int16(a, b, c) => Variant::Vector3int16(*a, *b, *c),
    }
}

/// Copies a property list.
pub fn dup_props(props: &Vec<(String, Variant)>) -> (r: Vec<(String, Variant)>)
    ensures
        props_like(r@, props@),
{
    let n = props.len();
    let mut r: Vec<(String, Variant)> = Vec::new();
    let mut k: usize = 0;
    while k < n
        invariant
            0 <= k <= n,
            n == props@.len(),
            r@.len() == k,
            forall|j: int|
                0 <= j < k ==> (#[trigger] r@[j]).0 == props@[j].0 && variant_like(
                    r@[j].1,
                    props@[j].1,
                ),
        decreases n - k,
    {
        let key = props[k].0.clone();
        let value = dup_variant(&props[k].1);
        r.push((key, value));
        k += 1;
    }
    r
}

} // verus!
