//! Detects whether a buffer holds a binary document, a markup document, or
//! neither, from its leading bytes.

use vstd::prelude::*;

verus! {

/// The two whole-graph wire formats.
#[derive(Debug, Clone, Copy, PartialEq, Eq, Hash)]
pub enum DocumentType {
    Xml,
    Binary,
}

/// What the leading bytes say: binary documents start with `<roblox!`, markup
/// documents with `<roblox ` or `<roblox>`; anything else — including a
/// buffer of fewer than eight bytes — is neither.
pub open spec fn spec_sniff_type(b: Seq<u8>) -> Option<DocumentType> {
    if b.len() < 8 {
        None
    } else if !(b[0] == 60 && b[1] == 114 && b[2] == 111 && b[3] == 98 && b[4] == 108 && b[5]
        == 111 && b[6] == 120) {
        None
    } else if b[7] == 33 {
        Some(DocumentType::Binary)
    } else if b[7] == 32 || b[7] == 62 {
        Some(DocumentType::Xml)
    } else {
        None
    }
}

/// Detects whether the buffer holds a binary document, a markup document, or
/// neither.
pub fn sniff_type(buffer: &[u8]) -> (r: Option<DocumentType>)
    ensures
        r == spec_sniff_type(buffer@),
{
    if buffer.len() < 8 {
        return None;
    }
    if !(buffer[0] == 60u8 && buffer[1] == 114u8 && buffer[2] == 111u8 && buffer[3] == 98u8
        && buffer[4] == 108u8 && buffer[5] == 111u8 && buffer[6] == 120u8) {
        return None;
    }
    if buffer[7] == 33u8 {
        Some(DocumentType::Binary)
    } else if buffer[7] == 32u8 || buffer[7] == 62u8 {
        Some(DocumentType::Xml)
    } else {
        None
    }
}

} // verus!
