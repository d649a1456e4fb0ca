use remodel::attributes::{get_attribute, set_attribute, AttrValue, AttributeMap};
use remodel::graph::{Graph, IdSource};
use remodel::marshal::DynValue;
use remodel::variant::Variant;
use remodel::Error;

fn setup() -> (Graph, IdSource, u64) {
    let mut ids = IdSource::new();
    let mut g = Graph::new(&mut ids, "RemodelRoot".to_string());
    let root = g.root_ref();
    let a = g
        .insert(&mut ids, root, "Folder".to_string(), "A".to_string(), Vec::new())
        .unwrap();
    (g, ids, a)
}

#[test]
fn codec_round_trips_every_supported_kind() {
    let mut m = AttributeMap::new();
    m.set("Flag", AttrValue::Bool(true));
    m.set("Off", AttrValue::Bool(false));
    m.set("Count", AttrValue::Int64(-7));
    m.set("Ratio", AttrValue::Float64((42.5f64).to_bits()));
    m.set("Blob", AttrValue::Bytes(vec![0, 1, 2, 254, 255]));
    let blob = m.encode();
    let back = AttributeMap::decode(&blob).expect("a fresh encoding must decode");
    assert_eq!(back.len(), 5);
    assert_eq!(back.get("Flag"), Some(&AttrValue::Bool(true)));
    assert_eq!(back.get("Off"), Some(&AttrValue::Bool(false)));
    assert_eq!(back.get("Count"), Some(&AttrValue::Int64(-7)));
    assert_eq!(back.get("Ratio"), Some(&AttrValue::Float64((42.5f64).to_bits())));
    assert_eq!(back.get("Blob"), Some(&AttrValue::Bytes(vec![0, 1, 2, 254, 255])));
    assert_eq!(back.get("Missing"), None);
    // Determinism: encoding the decoded map gives the same blob.
    assert_eq!(back.encode(), blob);
}

#[test]
fn codec_round_trips_empty_map() {
    let m = AttributeMap::new();
    let blob = m.encode();
    assert_eq!(blob, vec![0, 0, 0, 0]);
    let back = AttributeMap::decode(&blob).unwrap();
    assert_eq!(back.len(), 0);
}

#[test]
fn decode_rejects_malformed_framing() {
    // Truncated count prefix.
    assert_eq!(AttributeMap::decode(&vec![]), Err(Error::CorruptAttributes));
    assert_eq!(AttributeMap::decode(&vec![1, 0]), Err(Error::CorruptAttributes));
    // A count with no entries behind it.
    assert_eq!(
        AttributeMap::decode(&vec![1, 0, 0, 0]),
        Err(Error::CorruptAttributes)
    );
    // Trailing garbage after a well-formed empty map.
    assert_eq!(
        AttributeMap::decode(&vec![0, 0, 0, 0, 9]),
        Err(Error::CorruptAttributes)
    );
    // An unknown kind tag: one entry, empty key, tag 9.
    assert_eq!(
        AttributeMap::decode(&vec![1, 0, 0, 0, 0, 0, 0, 0, 9]),
        Err(Error::CorruptAttributes)
    );
    // A boolean payload that is neither 0 nor 1.
    assert_eq!(
        AttributeMap::decode(&vec![1, 0, 0, 0, 0, 0, 0, 0, 0, 2]),
        Err(Error::CorruptAttributes)
    );
    // Duplicate keys: two entries with the empty key.
    assert_eq!(
        AttributeMap::decode(&vec![2, 0, 0, 0, 0, 0, 0, 0, 0, 1, 0, 0, 0, 0, 0, 1]),
        Err(Error::CorruptAttributes)
    );
}

#[test]
fn set_then_get_attribute_round_trips_an_integer() {
    let (mut g, _ids, i) = setup();
    assert_eq!(set_attribute(&mut g, i, "Score", &DynValue::Integer(42)), Ok(()));
    assert_eq!(get_attribute(&g, i, "Score"), Ok(Some(DynValue::Integer(42))));

    // The nil value removes the attribute.
    assert_eq!(set_attribute(&mut g, i, "Score", &DynValue::Nil), Ok(()));
    assert_eq!(get_attribute(&g, i, "Score"), Ok(None));
}

#[test]
fn attribute_kinds_round_trip() {
    let (mut g, _ids, i) = setup();
    let bits = (1.5f64).to_bits();
    set_attribute(&mut g, i, "B", &DynValue::Bool(true)).unwrap();
    set_attribute(&mut g, i, "N", &DynValue::Number(bits)).unwrap();
    assert_eq!(get_attribute(&g, i, "B"), Ok(Some(DynValue::Bool(true))));
    assert_eq!(get_attribute(&g, i, "N"), Ok(Some(DynValue::Number(bits))));
    assert_eq!(get_attribute(&g, i, "Nothing"), Ok(None));
}

#[test]
fn string_attributes_keep_the_legacy_base64_workaround() {
    // A string value is stored as base64 text under the buffer kind; reading
    // it back surfaces that text, not the original string.
    let (mut g, _ids, i) = setup();
    set_attribute(&mut g, i, "Greeting", &DynValue::Str("hi".to_string())).unwrap();
    assert_eq!(
        get_attribute(&g, i, "Greeting"),
        Ok(Some(DynValue::Str("aGk=".to_string())))
    );
}

#[test]
fn attribute_errors_are_typed() {
    let (mut g, _ids, i) = setup();
    assert_eq!(
        set_attribute(&mut g, 999, "K", &DynValue::Bool(true)),
        Err(Error::NotFound)
    );
    assert_eq!(get_attribute(&g, 999, "K"), Err(Error::NotFound));
    // A value of a kind outside the attribute subset is rejected.
    assert_eq!(
        set_attribute(&mut g, i, "V", &DynValue::Vector3(0, 0, 0)),
        Err(Error::Unsupported)
    );
    // A mangled reserved property is reported, not masked.
    g.set_raw_property(i, "Attributes".to_string(), Variant::BinaryString(vec![9]))
        .unwrap();
    assert_eq!(get_attribute(&g, i, "K"), Err(Error::CorruptAttributes));
    assert_eq!(
        set_attribute(&mut g, i, "K", &DynValue::Bool(true)),
        Err(Error::CorruptAttributes)
    );
}
