//! Trusted declarations for the outside functions the library relies on.
//!
//! Each wrapper's body makes one outside call; its contract is what the
//! library believes about that call.

use vstd::prelude::*;
use vstd::utf8::{decode_utf8, valid_utf8};

verus! {

/// The base64 text of a byte string, in the standard alphabet with padding.
/// A function of the bytes alone.
pub uninterp spec fn b64_of(b: Seq<u8>) -> Seq<char>;

/// The bytes a base64 text stands for, when it is valid standard base64 with
/// padding; `None` otherwise. A function of the text alone.
pub uninterp spec fn b64_parse(s: Seq<char>) -> Option<Seq<u8>>;

/// Relies on `base64::encode`: the standard-alphabet, padded base64 text of
/// the input, a function of the input bytes alone; empty input gives empty
/// text.
#[verifier::external_body]
pub fn b64_encode(b: &Vec<u8>) -> (r: String)
    ensures
        r@ == b64_of(b@),
        b@.len() == 0 ==> r@.len() == 0,
{
    base64::encode(b.as_slice())
}

/// Relies on `base64::decode`: whether a text is valid standard base64, and
/// what bytes it stands for, depend on the text alone.
#[verifier::external_body]
pub fn b64_decode(s: &str) -> (r: Option<Vec<u8>>)
    ensures
        match r {
            Some(v) => b64_parse(s@) == Some(v@),
            None => b64_parse(s@) is None,
        },
{
    base64::decode(s).ok()
}

/// Relies on `String::from_utf8`: it accepts exactly the valid UTF-8 byte
/// strings and returns their decoding.
#[verifier::external_body]
pub fn bytes_to_string(b: &Vec<u8>) -> (r: Option<String>)
    ensures
        r is Some <==> valid_utf8(b@),
        r is Some ==> r.unwrap()@ == decode_utf8(b@),
{
    String::from_utf8(b.clone()).ok()
}

/// Whether the bundled reflection database lists a class of this name. The
/// database is fixed at compile time, so this is a function of the name
/// alone.
pub uninterp spec fn class_exists(name: Seq<char>) -> bool;

/// Whether the bundled reflection database lists a class of this name and
/// tags it as a service. A function of the name alone.
pub uninterp spec fn class_is_service(name: Seq<char>) -> bool;

/// Relies on `rbx_reflection_database::get_bundled`, whose database is
/// embedded in the binary and known to decode, and on its `classes` table.
/// The bundled database is used deliberately instead of the crate's loader,
/// which also honors a local-file override: only the embedded copy makes the
/// answer a function of the name alone.
#[verifier::external_body]
pub fn lookup_class_exists(name: &str) -> (r: bool)
    ensures
        r == class_exists(name@),
{
    rbx_reflection_database::get_bundled().classes.contains_key(name)
}

/// Relies on `rbx_reflection_database::get_bundled` and on
/// `rbx_reflection::ClassTag`: whether the named class carries the service
/// tag in the embedded database.
#[verifier::external_body]
pub fn lookup_class_is_service(name: &str) -> (r: bool)
    ensures
        r == class_is_service(name@),
{
    match rbx_reflection_database::get_bundled().classes.get(name) {
        Some(descriptor) => descriptor.tags.contains(&rbx_reflection::ClassTag::Service),
        None => false,
    }
}

} // verus!
