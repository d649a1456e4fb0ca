use remodel::marshal::{
    guess_kind, to_dynamic, to_variant, DynValue, NumericCast, ToDynamic, ToVariant,
};
use remodel::variant::{type_from_str, Kind, Variant};
use remodel::Error;

#[test]
fn round_trips_for_symmetric_kinds() {
    let cases = vec![
        Variant::Bool(true),
        Variant::Float64((2.25f64).to_bits()),
        Variant::Int64(-12345),
        Variant::Int32(77),
        Variant::Color3(1, 2, 3),
        Variant::Color3uint8(10, 20, 30),
        Variant::Vector3int16(-1, 0, 1),
    ];
    for v in cases {
        let dv = match to_dynamic(&v).unwrap() {
            ToDynamic::Done(dv) => dv,
            ToDynamic::NeedsWiden(_) => panic!("no widening owed for these kinds"),
        };
        let back = to_variant(v.kind(), &dv).unwrap();
        assert_eq!(back, ToVariant::Done(v));
    }
}

#[test]
fn numeric_coercions_name_their_casts() {
    let bits = (3.5f64).to_bits();
    assert_eq!(
        to_variant(Kind::Float32, &DynValue::Number(bits)),
        Ok(ToVariant::NeedsCast(NumericCast::F64BitsToF32(bits)))
    );
    assert_eq!(
        to_variant(Kind::Float32, &DynValue::Integer(7)),
        Ok(ToVariant::NeedsCast(NumericCast::I64ToF32(7)))
    );
    assert_eq!(
        to_variant(Kind::Float64, &DynValue::Integer(7)),
        Ok(ToVariant::NeedsCast(NumericCast::I64ToF64(7)))
    );
    assert_eq!(
        to_variant(Kind::Int32, &DynValue::Number(bits)),
        Ok(ToVariant::NeedsCast(NumericCast::F64BitsToI32(bits)))
    );
    assert_eq!(
        to_variant(Kind::Int64, &DynValue::Number(bits)),
        Ok(ToVariant::NeedsCast(NumericCast::F64BitsToI64(bits)))
    );
    // The documented narrowing quirk: a 64-bit integer truncates into Int32
    // with no range check.
    assert_eq!(
        to_variant(Kind::Int32, &DynValue::Integer(0x1_0000_0001)),
        Ok(ToVariant::Done(Variant::Int32(1)))
    );
    // A single-precision float widens on the way out.
    assert_eq!(
        to_dynamic(&Variant::Float32(0x3F80_0000)),
        Ok(ToDynamic::NeedsWiden(0x3F80_0000))
    );
}

#[test]
fn binary_strings_travel_as_base64() {
    // Out: bytes surface as their base64 text.
    let out = to_dynamic(&Variant::BinaryString(b"hi".to_vec())).unwrap();
    assert_eq!(out, ToDynamic::Done(DynValue::Str("aGk=".to_string())));
    // In: valid base64 parses back to the bytes; invalid text is rejected.
    assert_eq!(
        to_variant(Kind::BinaryString, &DynValue::Str("aGk=".to_string())),
        Ok(ToVariant::Done(Variant::BinaryString(b"hi".to_vec())))
    );
    assert_eq!(
        to_variant(Kind::BinaryString, &DynValue::Str("!!!".to_string())),
        Err(Error::TypeMismatch)
    );
}

#[test]
fn content_kind_reads_in_as_plain_string() {
    // Inherited asymmetry: a string set under the Content kind is stored as a
    // plain string variant.
    assert_eq!(
        to_variant(Kind::Content, &DynValue::Str("rbxasset://x".to_string())),
        Ok(ToVariant::Done(Variant::Str("rbxasset://x".to_string())))
    );
}

#[test]
fn mismatched_shapes_and_unsupported_kinds_are_rejected() {
    assert_eq!(
        to_variant(Kind::Bool, &DynValue::Integer(1)),
        Err(Error::TypeMismatch)
    );
    assert_eq!(
        to_variant(Kind::CFrame, &DynValue::CFrame([0; 12])),
        Err(Error::TypeMismatch)
    );
    assert_eq!(to_variant(Kind::Ray, &DynValue::Other), Err(Error::TypeMismatch));
    assert_eq!(to_dynamic(&Variant::BrickColor), Err(Error::Unsupported));
    assert_eq!(to_dynamic(&Variant::Ray), Err(Error::Unsupported));
    // Inherited asymmetry: plain vectors convert in but not out.
    assert_eq!(
        to_variant(Kind::Vector3, &DynValue::Vector3(1, 2, 3)),
        Ok(ToVariant::Done(Variant::Vector3(1, 2, 3)))
    );
    assert_eq!(to_dynamic(&Variant::Vector3(1, 2, 3)), Err(Error::Unsupported));
}

#[test]
fn kind_guessing_follows_value_shape() {
    assert_eq!(guess_kind(&DynValue::Nil), None);
    assert_eq!(guess_kind(&DynValue::Bool(true)), Some(Kind::Bool));
    assert_eq!(guess_kind(&DynValue::Integer(5)), Some(Kind::Int64));
    assert_eq!(guess_kind(&DynValue::Number(0)), Some(Kind::Float64));
    assert_eq!(guess_kind(&DynValue::Str("x".to_string())), Some(Kind::Str));
    assert_eq!(guess_kind(&DynValue::CFrame([0; 12])), Some(Kind::CFrame));
    assert_eq!(guess_kind(&DynValue::Other), None);
}

#[test]
fn type_names_resolve_to_kinds() {
    assert_eq!(type_from_str("Bool"), Some(Kind::Bool));
    assert_eq!(type_from_str("String"), Some(Kind::Str));
    assert_eq!(type_from_str("BinaryString"), Some(Kind::BinaryString));
    assert_eq!(type_from_str("Vector3int16"), Some(Kind::Vector3int16));
    assert_eq!(type_from_str("PhysicalProperties"), Some(Kind::PhysicalProperties));
    assert_eq!(type_from_str("bool"), None);
    assert_eq!(type_from_str(""), None);
}
