use remodel::sniff_type::{sniff_type, DocumentType};

#[test]
fn sniff_examples() {
    assert_eq!(sniff_type(b"<roblox!hello"), Some(DocumentType::Binary));
    assert_eq!(sniff_type(b"<roblox!"), Some(DocumentType::Binary));
    assert_eq!(
        sniff_type(b"<roblox xml:someschemajunk>"),
        Some(DocumentType::Xml)
    );
    assert_eq!(sniff_type(b"<roblox>"), Some(DocumentType::Xml));

    // not enough characters in these
    assert_eq!(sniff_type(b""), None);
    assert_eq!(sniff_type(b"<roblox"), None);
}

#[test]
fn sniff_rejects_unknown_eighth_byte() {
    assert_eq!(sniff_type(b"<robloxq"), None);
    assert_eq!(sniff_type(b"<nothing"), None);
}
