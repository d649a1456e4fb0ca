//! The attribute codec: a string-keyed map of a narrow value subset, packed
//! into one length-framed binary blob that lives in a single reserved
//! property slot.
//!
//! Wire format, all integers little-endian: a four-byte entry count, then per
//! entry a four-byte key length, the key's UTF-8 bytes, a one-byte kind tag,
//! and the payload — one byte for a boolean, eight bytes for a signed integer
//! or a double's bit pattern, and a four-byte length followed by the bytes
//! for a buffer. Duplicate keys and trailing bytes are malformed.

use vstd::prelude::*;
use vstd::utf8::{decode_utf8, encode_utf8, encode_utf8_decode_utf8, encode_utf8_valid_utf8, valid_utf8};

use crate::bridge::bytes_to_string;
use crate::graph::Graph;
use crate::marshal::DynValue;
use crate::strutil::str_eq;
use crate::variant::Variant;
use crate::Error;

verus! {

/// An attribute value: the narrow subset of property kinds that the packed
/// format can carry.
#[derive(Clone, Debug, PartialEq)]
pub enum AttrValue {
    Bool(bool),
    Int64(i64),
    /// An IEEE 754 double bit pattern.
    Float64(u64),
    Bytes(Vec<u8>),
}

/// The mathematical value of an attribute.
pub enum AttrVal {
    Bool(bool),
    Int64(i64),
    Float64(u64),
    Bytes(Seq<u8>),
}

impl AttrValue {
    /// The mathematical value this holds.
    pub open spec fn model(self) -> AttrVal {
        match self {
            AttrValue::Bool(b) => AttrVal::Bool(b),
            AttrValue::Int64(n) => AttrVal::Int64(n),
            AttrValue::Float64(bits) => AttrVal::Float64(bits),
            AttrValue::Bytes(v) => AttrVal::Bytes(v@),
        }
    }
}

/// An attribute map: entries in insertion order, keys unique.
#[derive(Debug, PartialEq)]
pub struct AttributeMap {
    entries: Vec<(String, AttrValue)>,
}

impl View for AttributeMap {
    type V = Seq<(Seq<char>, AttrVal)>;

    closed spec fn view(&self) -> Seq<(Seq<char>, AttrVal)> {
        self.entries@.map_values(|e: (String, AttrValue)| (e.0@, e.1.model()))
    }
}

/// No two entries share a key.
pub open spec fn keys_unique(es: Seq<(Seq<char>, AttrVal)>) -> bool {
    forall|j1: int, j2: int| 0 <= j1 < j2 < es.len() ==> (#[trigger] es[j1]).0 != (#[trigger] es[j2]).0
}

/// The value stored under `name`, reading entries first to last.
pub open spec fn spec_attr_lookup(es: Seq<(Seq<char>, AttrVal)>, name: Seq<char>) -> Option<
    AttrVal,
>
    decreases es.len(),
{
    if es.len() == 0 {
        None
    } else if es[0].0 == name {
        Some(es[0].1)
    } else {
        spec_attr_lookup(es.drop_first(), name)
    }
}

/// The little-endian bytes of a 32-bit value.
pub open spec fn u32le(n: u32) -> Seq<u8> {
    seq![
        (n & 0xff) as u8,
        ((n >> 8) & 0xff) as u8,
        ((n >> 16) & 0xff) as u8,
        ((n >> 24) & 0xff) as u8,
    ]
}

/// The little-endian bytes of a 64-bit value.
pub open spec fn u64le(n: u64) -> Seq<u8> {
    seq![
        (n & 0xff) as u8,
        ((n >> 8) & 0xff) as u8,
        ((n >> 16) & 0xff) as u8,
        ((n >> 24) & 0xff) as u8,
        ((n >> 32) & 0xff) as u8,
        ((n >> 40) & 0xff) as u8,
        ((n >> 48) & 0xff) as u8,
        ((n >> 56) & 0xff) as u8,
    ]
}

/// The 32-bit value at `pos`, little-endian.
pub open spec fn spec_read_u32(b: Seq<u8>, pos: int) -> u32 {
    (b[pos] as u32) | ((b[pos + 1] as u32) << 8) | ((b[pos + 2] as u32) << 16) | ((b[pos + 3]
        as u32) << 24)
}

/// The 64-bit value at `pos`, little-endian.
pub open spec fn spec_read_u64(b: Seq<u8>, pos: int) -> u64 {
    (b[pos] as u64) | ((b[pos + 1] as u64) << 8) | ((b[pos + 2] as u64) << 16) | ((b[pos + 3]
        as u64) << 24) | ((b[pos + 4] as u64) << 32) | ((b[pos + 5] as u64) << 40) | ((b[pos + 6]
        as u64) << 48) | ((b[pos + 7] as u64) << 56)
}

/// The encoding of one attribute value: kind tag, then payload.
pub open spec fn spec_encode_value(v: AttrVal) -> Seq<u8> {
    match v {
        AttrVal::Bool(x) => seq![
            0u8,
            if x {
                1u8
            } else {
                0u8
            },
        ],
        AttrVal::Int64(n) => seq![1u8] + u64le(n as u64),
        AttrVal::Float64(bits) => seq![2u8] + u64le(bits),
        AttrVal::Bytes(b) => seq![3u8] + u32le(b.len() as u32) + b,
    }
}

/// The encoding of one entry: key length, key bytes, value.
pub open spec fn spec_encode_entry(e: (Seq<char>, AttrVal)) -> Seq<u8> {
    u32le(encode_utf8(e.0).len() as u32) + encode_utf8(e.0) + spec_encode_value(e.1)
}

/// The concatenated encodings of the entries, in order.
pub open spec fn spec_encode_entries(es: Seq<(Seq<char>, AttrVal)>) -> Seq<u8>
    decreases es.len(),
{
    if es.len() == 0 {
        Seq::empty()
    } else {
        spec_encode_entry(es[0]) + spec_encode_entries(es.drop_first())
    }
}

/// The encoding of a whole map: entry count, then the entries.
pub open spec fn spec_encode(es: Seq<(Seq<char>, AttrVal)>) -> Seq<u8> {
    u32le(es.len() as u32) + spec_encode_entries(es)
}

/// Whether one entry fits the wire format's length fields.
pub open spec fn entry_fits(e: (Seq<char>, AttrVal)) -> bool {
    &&& encode_utf8(e.0).len() < 0x1_0000_0000
    &&& match e.1 {
        AttrVal::Bytes(b) => b.len() < 0x1_0000_0000,
        _ => true,
    }
}

/// Whether a whole map fits the wire format's length fields.
pub open spec fn entries_fit(es: Seq<(Seq<char>, AttrVal)>) -> bool {
    &&& es.len() < 0x1_0000_0000
    &&& forall|j: int| 0 <= j < es.len() ==> entry_fits(#[trigger] es[j])
}

/// Parses one value at `pos`: the value and the position after it.
pub open spec fn parse_value(b: Seq<u8>, pos: int) -> Option<(AttrVal, int)> {
    if pos + 1 > b.len() {
        None
    } else {
        let tag = b[pos];
        if tag == 0 {
            if pos + 2 <= b.len() {
                if b[pos + 1] == 0 {
                    Some((AttrVal::Bool(false), pos + 2))
                } else if b[pos + 1] == 1 {
                    Some((AttrVal::Bool(true), pos + 2))
                } else {
                    None
                }
            } else {
                None
            }
        } else if tag == 1 {
            if pos + 9 <= b.len() {
                Some((AttrVal::Int64(spec_read_u64(b, pos + 1) as i64), pos + 9))
            } else {
                None
            }
        } else if tag == 2 {
            if pos + 9 <= b.len() {
                Some((AttrVal::Float64(spec_read_u64(b, pos + 1)), pos + 9))
            } else {
                None
            }
        } else if tag == 3 {
            if pos + 5 <= b.len() {
                let n = spec_read_u32(b, pos + 1) as int;
                if pos + 5 + n <= b.len() {
                    Some((AttrVal::Bytes(b.subrange(pos + 5, pos + 5 + n)), pos + 5 + n))
                } else {
                    None
                }
            } else {
                None
            }
        } else {
            None
        }
    }
}

/// Parses one entry at `pos`: the entry and the position after it.
pub open spec fn parse_entry(b: Seq<u8>, pos: int) -> Option<((Seq<char>, AttrVal), int)> {
    if pos + 4 <= b.len() {
        let kl = spec_read_u32(b, pos) as int;
        if pos + 4 + kl <= b.len() {
            let kb = b.subrange(pos + 4, pos + 4 + kl);
            if valid_utf8(kb) {
                match parse_value(b, pos + 4 + kl) {
                    Some((v, p2)) => Some(((decode_utf8(kb), v), p2)),
                    None => None,
                }
            } else {
                None
            }
        } else {
            None
        }
    } else {
        None
    }
}

/// Parses `n` entries starting at `pos`.
pub open spec fn parse_entries(b: Seq<u8>, pos: int, n: nat) -> Option<
    (Seq<(Seq<char>, AttrVal)>, int),
>
    decreases n,
{
    if n == 0 {
        Some((Seq::empty(), pos))
    } else {
        match parse_entry(b, pos) {
            Some((e, p1)) => match parse_entries(b, p1, (n - 1) as nat) {
                Some((es, p2)) => Some((seq![e] + es, p2)),
                None => None,
            },
            None => None,
        }
    }
}

/// Decodes a whole blob: `None` on any malformed framing — a truncated
/// field, an unknown tag, an invalid key, a duplicate key, or trailing
/// bytes.
pub open spec fn spec_decode(b: Seq<u8>) -> Option<Seq<(Seq<char>, AttrVal)>> {
    if b.len() < 4 {
        None
    } else {
        match parse_entries(b, 4, spec_read_u32(b, 0) as nat) {
            Some((es, p)) => if p == b.len() && keys_unique(es) {
                Some(es)
            } else {
                None
            },
            None => None,
        }
    }
}

/// Appends the little-endian bytes of a 32-bit value.
fn push_u32le(out: &mut Vec<u8>, n: u32)
    ensures
        final(out)@ == old(out)@ + u32le(n),
{
    out.push((n & 0xff) as u8);
    out.push(((n >> 8) & 0xff) as u8);
    out.push(((n >> 16) & 0xff) as u8);
    out.push(((n >> 24) & 0xff) as u8);
    proof {
        assert(out@ =~= old(out)@ + u32le(n));
    }
}

/// Appends the little-endian bytes of a 64-bit value.
fn push_u64le(out: &mut Vec<u8>, n: u64)
    ensures
        final(out)@ == old(out)@ + u64le(n),
{
    out.push((n & 0xff) as u8);
    out.push(((n >> 8) & 0xff) as u8);
    out.push(((n >> 16) & 0xff) as u8);
    out.push(((n >> 24) & 0xff) as u8);
    out.push(((n >> 32) & 0xff) as u8);
    out.push(((n >> 40) & 0xff) as u8);
    out.push(((n >> 48) & 0xff) as u8);
    out.push(((n >> 56) & 0xff) as u8);
    proof {
        assert(out@ =~= old(out)@ + u64le(n));
    }
}

/// Appends a byte slice.
fn push_bytes(out: &mut Vec<u8>, b: &[u8])
    ensures
        final(out)@ == old(out)@ + b@,
{
    let n = b.len();
    let mut k: usize = 0;
    while k < n
        invariant
            0 <= k <= n,
            n == b@.len(),
            out@ == old(out)@ + b@.subrange(0, k as int),
        decreases n - k,
    {
        out.push(b[k]);
        proof {
            assert(out@ =~= old(out)@ + b@.subrange(0, k + 1));
        }
        k += 1;
    }
    proof {
        assert(out@ =~= old(out)@ + b@);
    }
}

/// Encoding a list of entries one more entry at a time appends its encoding.
proof fn lemma_encode_entries_snoc(es: Seq<(Seq<char>, AttrVal)>, e: (Seq<char>, AttrVal))
    ensures
        spec_encode_entries(es.push(e)) == spec_encode_entries(es) + spec_encode_entry(e),
    decreases es.len(),
{
    if es.len() == 0 {
        assert(es.push(e)[0] == e);
        assert(es.push(e).drop_first() =~= Seq::<(Seq<char>, AttrVal)>::empty());
        assert(spec_encode_entries(es.push(e).drop_first())
            == spec_encode_entries(Seq::<(Seq<char>, AttrVal)>::empty()));
        assert(spec_encode_entry(e) + Seq::<u8>::empty() =~= spec_encode_entry(e));
        assert(Seq::<u8>::empty() + spec_encode_entry(e) =~= spec_encode_entry(e));
    } else {
        assert(es.push(e)[0] == es[0]);
        assert(es.push(e).drop_first() =~= es.drop_first().push(e));
        lemma_encode_entries_snoc(es.drop_first(), e);
        assert((spec_encode_entry(es[0]) + spec_encode_entries(es.drop_first()))
            + spec_encode_entry(e) =~= spec_encode_entry(es[0]) + (spec_encode_entries(
            es.drop_first(),
        ) + spec_encode_entry(e)));
    }
}

impl AttributeMap {
    /// The map's structural invariant: no two entries share a key.
    pub open spec fn wf(&self) -> bool {
        keys_unique(self@)
    }

    /// Creates an empty map.
    pub fn new() -> (m: AttributeMap)
        ensures
            m@ == Seq::<(Seq<char>, AttrVal)>::empty(),
            m.wf(),
    {
        let m = AttributeMap { entries: Vec::new() };
        proof {
            assert(m@ =~= Seq::<(Seq<char>, AttrVal)>::empty());
        }
        m
    }

    /// The number of attributes.
    pub fn len(&self) -> (n: usize)
        ensures
            n == self@.len(),
    {
        self.entries.len()
    }

    /// The value stored under `name`, if any.
    pub fn get(&self, name: &str) -> (r: Option<&AttrValue>)
        ensures
            match r {
                Some(v) => spec_attr_lookup(self@, name@) == Some(v.model()),
                None => spec_attr_lookup(self@, name@) is None,
            },
    {
        let n = self.entries.len();
        let mut k: usize = 0;
        proof {
            assert(self@.skip(0) =~= self@);
        }
        while k < n
            invariant
                0 <= k <= n,
                n == self.entries@.len(),
                self@.len() == n,
                forall|j: int| 0 <= j < k ==> (#[trigger] self@[j]).0 != name@,
                spec_attr_lookup(self@, name@) == spec_attr_lookup(
                    self@.skip(k as int),
                    name@,
                ),
            decreases n - k,
        {
            if str_eq(self.entries[k].0.as_str(), name) {
                proof {
                    assert(self@.skip(k as int)[0] == self@[k as int]);
                }
                return Some(&self.entries[k].1);
            }
            proof {
                assert(self@.skip(k as int)[0] == self@[k as int]);
                assert(self@.skip(k as int).drop_first() =~= self@.skip(k + 1));
            }
            k += 1;
        }
        proof {
            assert(self@.skip(n as int) =~= Seq::<(Seq<char>, AttrVal)>::empty());
        }
        None
    }

    /// Stores `value` under `name`: replaces the value of an existing entry
    /// in place, or appends a new entry.
    pub fn set(&mut self, name: &str, value: AttrValue)
        requires
            old(self).wf(),
        ensures
            final(self).wf(),
            final(self)@ == attr_set_entries(old(self)@, name@, value.model()),
            spec_attr_lookup(final(self)@, name@) == Some(value.model()),
            forall|other: Seq<char>|
                other != name@ ==> spec_attr_lookup(final(self)@, other) == spec_attr_lookup(
                    old(self)@,
                    other,
                ),
    {
        let n = self.entries.len();
        let mut k: usize = 0;
        while k < n
            invariant
                0 <= k <= n,
                old(self).wf(),
                *self == *old(self),
                n == self.entries@.len(),
                forall|j: int| 0 <= j < k ==> (#[trigger] self@[j]).0 != name@,
            decreases n - k,
        {
            if str_eq(self.entries[k].0.as_str(), name) {
                let ghost pre = self@;
                let slot = &mut self.entries[k];
                slot.1 = value;
                proof {
                    assert(self.entries@ == old(self).entries@.update(
                        k as int,
                        (old(self).entries@[k as int].0, value),
                    ));
                    assert forall|j: int| 0 <= j < pre.len() && j != k implies #[trigger] self@[j]
                        == pre[j] by {
                        assert(self.entries@[j] == old(self).entries@[j]);
                    }
                    assert(self@[k as int].0 == pre[k as int].0);
                    assert(self@[k as int].0 == name@);
                    assert(self@[k as int].1 == value.model());
                    assert(pre == old(self)@);
                    assert forall|j1: int, j2: int|
                        0 <= j1 < j2 < self@.len() implies (#[trigger] self@[j1]).0 != (
                    #[trigger] self@[j2]).0 by {
                        assert(self@[j1].0 == pre[j1].0);
                        assert(self@[j2].0 == pre[j2].0);
                    }
                    lemma_lookup_at_first_match(self@, name@, k as int);
                    assert forall|other: Seq<char>| other != name@ implies spec_attr_lookup(
                        self@,
                        other,
                    ) == spec_attr_lookup(pre, other) by {
                        lemma_attr_lookup_update_other(pre, self@, other, k as int);
                    }
                    lemma_set_entries_at(pre, name@, value.model(), k as int);
                    assert(self@ =~= pre.update(k as int, (pre[k as int].0, value.model())));
                }
                return ;
            }
            k += 1;
        }
        let key = name.to_owned();
        self.entries.push((key, value));
        proof {
            assert(self.entries@ == old(self).entries@.push((key, value)));
            assert(self@ =~= old(self)@.push((name@, value.model())));
            assert(self@[n as int].0 == name@);
            assert forall|j: int| 0 <= j < n implies #[trigger] self@[j] == old(self)@[j] by {}
            lemma_lookup_at_first_match(self@, name@, n as int);
            assert forall|other: Seq<char>| other != name@ implies spec_attr_lookup(self@, other)
                == spec_attr_lookup(old(self)@, other) by {
                lemma_attr_lookup_push_other(old(self)@, (name@, value.model()), other);
                assert(self@ == old(self)@.push((name@, value.model())));
            }
            lemma_set_entries_none(old(self)@, name@, value.model());
        }
    }

    /// Removes the entry stored under `name`, if any.
    pub fn remove(&mut self, name: &str)
        requires
            old(self).wf(),
        ensures
            final(self).wf(),
            final(self)@ == attr_remove_entries(old(self)@, name@),
            spec_attr_lookup(final(self)@, name@) is None,
            forall|other: Seq<char>|
                other != name@ ==> spec_attr_lookup(final(self)@, other) == spec_attr_lookup(
                    old(self)@,
                    other,
                ),
    {
        let n = self.entries.len();
        let mut k: usize = 0;
        while k < n
            invariant
                0 <= k <= n,
                old(self).wf(),
                *self == *old(self),
                n == self.entries@.len(),
                forall|j: int| 0 <= j < k ==> (#[trigger] self@[j]).0 != name@,
            decreases n - k,
        {
            if str_eq(self.entries[k].0.as_str(), name) {
                let ghost pre = self@;
                proof {
                    assert(pre[k as int].0 == name@);
                }
                self.entries.remove(k);
                proof {
                    assert(self.entries@ == old(self).entries@.remove(k as int));
                    assert(self@ =~= pre.remove(k as int));
                    assert(pre == old(self)@);
                    lemma_lookup_after_remove(pre, name@, k as int);
                    lemma_remove_entries_at(pre, name@, k as int);
                }
                return ;
            }
            k += 1;
        }
        proof {
            lemma_lookup_no_match(self@, name@);
            assert forall|other: Seq<char>| other != name@ implies spec_attr_lookup(self@, other)
                == spec_attr_lookup(old(self)@, other) by {}
            lemma_remove_entries_none(self@, name@);
        }
    }

    /// Serializes the map into its packed blob. The framing fields are 32-bit
    /// wide, so every key, every buffer and the entry count must fit them.
    pub fn encode(&self) -> (r: Vec<u8>)
        requires
            self.wf(),
            entries_fit(self@),
        ensures
            r@ == spec_encode(self@),
    {
        let mut out: Vec<u8> = Vec::new();
        let n = self.entries.len();
        proof {
            assert(self@.len() == n);
        }
        push_u32le(&mut out, n as u32);
        let mut k: usize = 0;
        while k < n
            invariant
                0 <= k <= n,
                n == self.entries@.len(),
                self@.len() == n,
                entries_fit(self@),
                out@ == u32le(n as u32) + spec_encode_entries(self@.subrange(0, k as int)),
            decreases n - k,
        {
            let ghost prefix = self@.subrange(0, k as int);
            let entry_key = &self.entries[k].0;
            let kb = entry_key.as_str().as_bytes();
            proof {
                assert(entry_fits(self@[k as int]));
                assert(kb@ == encode_utf8(self@[k as int].0));
            }
            push_u32le(&mut out, kb.len() as u32);
            push_bytes(&mut out, kb);
            match &self.entries[k].1 {
                AttrValue::Bool(x) => {
                    out.push(0u8);
                    out.push(if *x {
                        1u8
                    } else {
                        0u8
                    });
                },
                AttrValue::Int64(v) => {
                    out.push(1u8);
                    push_u64le(&mut out, *v as u64);
                },
                AttrValue::Float64(bits) => {
                    out.push(2u8);
                    push_u64le(&mut out, *bits);
                },
                AttrValue::Bytes(bv) => {
                    out.push(3u8);
                    push_u32le(&mut out, bv.len() as u32);
                    push_bytes(&mut out, bv.as_slice());
                },
            }
            proof {
                let e = self@[k as int];
                assert(out@ =~= u32le(n as u32) + spec_encode_entries(prefix)
                    + spec_encode_entry(e));
                assert(self@.subrange(0, k + 1) =~= prefix.push(e));
                lemma_encode_entries_snoc(prefix, e);
                assert(out@ =~= u32le(n as u32) + spec_encode_entries(self@.subrange(0, k + 1)));
            }
            k += 1;
        }
        proof {
            assert(self@.subrange(0, n as int) =~= self@);
        }
        out
    }
}

/// Looking a key up lands on its first match.
proof fn lemma_lookup_at_first_match(es: Seq<(Seq<char>, AttrVal)>, name: Seq<char>, k: int)
    requires
        0 <= k < es.len(),
        es[k].0 == name,
        forall|j: int| 0 <= j < k ==> (#[trigger] es[j]).0 != name,
    ensures
        spec_attr_lookup(es, name) == Some(es[k].1),
    decreases k,
{
    if k > 0 {
        assert(es.drop_first()[k - 1] == es[k]);
        lemma_lookup_at_first_match(es.drop_first(), name, k - 1);
    }
}

/// Looking a key up in a list without it yields nothing.
proof fn lemma_lookup_no_match(es: Seq<(Seq<char>, AttrVal)>, name: Seq<char>)
    requires
        forall|j: int| 0 <= j < es.len() ==> (#[trigger] es[j]).0 != name,
    ensures
        spec_attr_lookup(es, name) is None,
    decreases es.len(),
{
    if es.len() > 0 {
        lemma_lookup_no_match(es.drop_first(), name);
    }
}

/// The entry list after storing `v` under `name`: the first entry of that
/// key is overwritten in place, and a missing key is appended at the end.
pub open spec fn attr_set_entries(
    es: Seq<(Seq<char>, AttrVal)>,
    name: Seq<char>,
    v: AttrVal,
) -> Seq<(Seq<char>, AttrVal)>
    decreases es.len(),
{
    if es.len() == 0 {
        seq![(name, v)]
    } else if es[0].0 == name {
        seq![(es[0].0, v)] + es.drop_first()
    } else {
        seq![es[0]] + attr_set_entries(es.drop_first(), name, v)
    }
}

/// The entry list after removing `name`: the first entry of that key leaves,
/// and a missing key changes nothing.
pub open spec fn attr_remove_entries(es: Seq<(Seq<char>, AttrVal)>, name: Seq<char>) -> Seq<
    (Seq<char>, AttrVal),
>
    decreases es.len(),
{
    if es.len() == 0 {
        es
    } else if es[0].0 == name {
        es.drop_first()
    } else {
        seq![es[0]] + attr_remove_entries(es.drop_first(), name)
    }
}

/// With the first match at `k`, storing updates exactly that slot.
proof fn lemma_set_entries_at(es: Seq<(Seq<char>, AttrVal)>, name: Seq<char>, v: AttrVal, k: int)
    requires
        0 <= k < es.len(),
        es[k].0 == name,
        forall|j: int| 0 <= j < k ==> (#[trigger] es[j]).0 != name,
    ensures
        attr_set_entries(es, name, v) == es.update(k, (es[k].0, v)),
    decreases k,
{
    if k == 0 {
        assert(attr_set_entries(es, name, v) =~= es.update(0, (es[0].0, v)));
    } else {
        assert(es.drop_first()[k - 1] == es[k]);
        lemma_set_entries_at(es.drop_first(), name, v, k - 1);
        assert(seq![es[0]] + es.drop_first().update(k - 1, (es[k].0, v)) =~= es.update(
            k,
            (es[k].0, v),
        ));
    }
}

/// With no match anywhere, storing appends.
proof fn lemma_set_entries_none(es: Seq<(Seq<char>, AttrVal)>, name: Seq<char>, v: AttrVal)
    requires
        forall|j: int| 0 <= j < es.len() ==> (#[trigger] es[j]).0 != name,
    ensures
        attr_set_entries(es, name, v) == es.push((name, v)),
    decreases es.len(),
{
    if es.len() == 0 {
        assert(attr_set_entries(es, name, v) =~= es.push((name, v)));
    } else {
        lemma_set_entries_none(es.drop_first(), name, v);
        assert(seq![es[0]] + es.drop_first().push((name, v)) =~= es.push((name, v)));
    }
}

/// With the first match at `k`, removing drops exactly that slot.
proof fn lemma_remove_entries_at(es: Seq<(Seq<char>, AttrVal)>, name: Seq<char>, k: int)
    requires
        0 <= k < es.len(),
        es[k].0 == name,
        forall|j: int| 0 <= j < k ==> (#[trigger] es[j]).0 != name,
    ensures
        attr_remove_entries(es, name) == es.remove(k),
    decreases k,
{
    if k == 0 {
        assert(attr_remove_entries(es, name) =~= es.remove(0));
    } else {
        assert(es.drop_first()[k - 1] == es[k]);
        lemma_remove_entries_at(es.drop_first(), name, k - 1);
        assert(seq![es[0]] + es.drop_first().remove(k - 1) =~= es.remove(k));
    }
}

/// With no match anywhere, removing changes nothing.
proof fn lemma_remove_entries_none(es: Seq<(Seq<char>, AttrVal)>, name: Seq<char>)
    requires
        forall|j: int| 0 <= j < es.len() ==> (#[trigger] es[j]).0 != name,
    ensures
        attr_remove_entries(es, name) == es,
    decreases es.len(),
{
    if es.len() == 0 {
    } else {
        lemma_remove_entries_none(es.drop_first(), name);
        assert(seq![es[0]] + es.drop_first() =~= es);
    }
}

/// Replacing the value at one index leaves every other key's lookup
/// unchanged.
proof fn lemma_attr_lookup_update_other(
    before: Seq<(Seq<char>, AttrVal)>,
    after: Seq<(Seq<char>, AttrVal)>,
    other: Seq<char>,
    k: int,
)
    requires
        0 <= k < before.len(),
        after.len() == before.len(),
        forall|j: int| 0 <= j < before.len() && j != k ==> #[trigger] after[j] == before[j],
        after[k].0 == before[k].0,
        before[k].0 != other,
    ensures
        spec_attr_lookup(after, other) == spec_attr_lookup(before, other),
    decreases before.len(),
{
    if k == 0 {
        assert(after[0].0 == before[0].0);
        if before[0].0 != other {
            assert(after.drop_first() =~= before.drop_first());
        }
    } else {
        assert(after[0] == before[0]);
        if before[0].0 != other {
            assert forall|j: int|
                0 <= j < before.drop_first().len() && j != k - 1 implies #[trigger] after.drop_first()[j]
                == before.drop_first()[j] by {
                assert(after[j + 1] == before[j + 1]);
            }
            assert(after.drop_first()[k - 1].0 == before.drop_first()[k - 1].0);
            lemma_attr_lookup_update_other(before.drop_first(), after.drop_first(), other, k - 1);
        }
    }
}

/// Appending an entry of another key leaves a key's lookup unchanged.
proof fn lemma_attr_lookup_push_other(
    before: Seq<(Seq<char>, AttrVal)>,
    e: (Seq<char>, AttrVal),
    other: Seq<char>,
)
    requires
        e.0 != other,
    ensures
        spec_attr_lookup(before.push(e), other) == spec_attr_lookup(before, other),
    decreases before.len(),
{
    if before.len() == 0 {
        assert(before.push(e)[0] == e);
        assert(before.push(e).drop_first() =~= Seq::<(Seq<char>, AttrVal)>::empty());
        assert(spec_attr_lookup(Seq::<(Seq<char>, AttrVal)>::empty(), other) is None);
        assert(spec_attr_lookup(before.push(e), other) is None);
    } else {
        assert(before.push(e)[0] == before[0]);
        if before[0].0 != other {
            assert(before.push(e).drop_first() =~= before.drop_first().push(e));
            lemma_attr_lookup_push_other(before.drop_first(), e, other);
        }
    }
}

/// Removing the only entry of a key makes its lookup fail and leaves every
/// other lookup unchanged.
proof fn lemma_lookup_after_remove(es: Seq<(Seq<char>, AttrVal)>, name: Seq<char>, k: int)
    requires
        keys_unique(es),
        0 <= k < es.len(),
        es[k].0 == name,
        forall|j: int| 0 <= j < k ==> (#[trigger] es[j]).0 != name,
    ensures
        keys_unique(es.remove(k)),
        spec_attr_lookup(es.remove(k), name) is None,
        forall|other: Seq<char>|
            other != name ==> spec_attr_lookup(es.remove(k), other) == spec_attr_lookup(es, other),
    decreases es.len(),
{
    let rest = es.remove(k);
    assert forall|j: int| 0 <= j < rest.len() implies (#[trigger] rest[j]).0 != name by {
        if j < k {
            assert(rest[j] == es[j]);
        } else {
            assert(rest[j] == es[j + 1]);
        }
    }
    lemma_lookup_no_match(rest, name);
    assert forall|other: Seq<char>| other != name implies spec_attr_lookup(rest, other)
        == spec_attr_lookup(es, other) by {
        lemma_lookup_remove_other(es, other, name, k);
    }
}

proof fn lemma_lookup_remove_other(
    es: Seq<(Seq<char>, AttrVal)>,
    other: Seq<char>,
    name: Seq<char>,
    k: int,
)
    requires
        0 <= k < es.len(),
        es[k].0 == name,
        other != name,
    ensures
        spec_attr_lookup(es.remove(k), other) == spec_attr_lookup(es, other),
    decreases es.len(),
{
    if k == 0 {
        assert(es.remove(0) =~= es.drop_first());
    } else {
        assert(es[0] == es.remove(k)[0]);
        if es[0].0 == other {
        } else {
            assert(es.remove(k).drop_first() =~= es.drop_first().remove(k - 1));
            assert(es.drop_first()[k - 1] == es[k]);
            lemma_lookup_remove_other(es.drop_first(), other, name, k - 1);
        }
    }
}


/// Reads the little-endian 32-bit value at `pos`.
fn read_u32_at(b: &Vec<u8>, pos: usize) -> (r: u32)
    requires
        pos + 4 <= b.len(),
    ensures
        r == spec_read_u32(b@, pos as int),
{
    (b[pos] as u32) | ((b[pos + 1] as u32) << 8u32) | ((b[pos + 2] as u32) << 16u32) | ((b[pos + 3]
        as u32) << 24u32)
}

/// Reads the little-endian 64-bit value at `pos`.
fn read_u64_at(b: &Vec<u8>, pos: usize) -> (r: u64)
    requires
        pos + 8 <= b.len(),
    ensures
        r == spec_read_u64(b@, pos as int),
{
    (b[pos] as u64) | ((b[pos + 1] as u64) << 8u64) | ((b[pos + 2] as u64) << 16u64) | ((b[pos + 3]
        as u64) << 24u64) | ((b[pos + 4] as u64) << 32u64) | ((b[pos + 5] as u64) << 40u64) | ((b[
        pos + 6] as u64) << 48u64) | ((b[pos + 7] as u64) << 56u64)
}

/// Copies `b[start..end]` into a fresh buffer.
fn copy_range(b: &Vec<u8>, start: usize, end: usize) -> (r: Vec<u8>)
    requires
        start <= end <= b@.len(),
    ensures
        r@ == b@.subrange(start as int, end as int),
{
    let mut r: Vec<u8> = Vec::new();
    let mut k: usize = start;
    while k < end
        invariant
            start <= k <= end <= b@.len(),
            r@ == b@.subrange(start as int, k as int),
        decreases end - k,
    {
        r.push(b[k]);
        proof {
            assert(r@ =~= b@.subrange(start as int, k + 1));
        }
        k += 1;
    }
    r
}

/// Parses one entry at `pos`, mirroring [`parse_entry`].
fn parse_entry_at(b: &Vec<u8>, pos: usize) -> (r: Option<(String, AttrValue, usize)>)
    requires
        pos <= b@.len(),
    ensures
        match r {
            Some(t) => {
                &&& parse_entry(b@, pos as int) == Some(((t.0@, t.1.model()), t.2 as int))
                &&& pos < t.2 <= b@.len()
            },
            None => parse_entry(b@, pos as int) is None,
        },
{
    let len = b.len();
    if len - pos < 4 {
        return None;
    }
    let kl32 = read_u32_at(b, pos);
    let kl = kl32 as usize;
    let kstart = pos + 4;
    if len - kstart < kl {
        return None;
    }
    let kend = kstart + kl;
    let kb = copy_range(b, kstart, kend);
    let key = match bytes_to_string(&kb) {
        Some(s) => s,
        None => {
            return None;
        },
    };
    let vpos = kend;
    if len - vpos < 1 {
        return None;
    }
    let tag = b[vpos];
    if tag == 0 {
        if len - vpos < 2 {
            return None;
        }
        let x = b[vpos + 1];
        if x == 0 {
            Some((key, AttrValue::Bool(false), vpos + 2))
        } else if x == 1 {
            Some((key, AttrValue::Bool(true), vpos + 2))
        } else {
            None
        }
    } else if tag == 1 {
        if len - vpos < 9 {
            return None;
        }
        let v = read_u64_at(b, vpos + 1);
        Some((key, AttrValue::Int64(v as i64), vpos + 9))
    } else if tag == 2 {
        if len - vpos < 9 {
            return None;
        }
        let v = read_u64_at(b, vpos + 1);
        Some((key, AttrValue::Float64(v), vpos + 9))
    } else if tag == 3 {
        if len - vpos < 5 {
            return None;
        }
        let bl32 = read_u32_at(b, vpos + 1);
        let bl = bl32 as usize;
        if len - (vpos + 5) < bl {
            return None;
        }
        let payload = copy_range(b, vpos + 5, vpos + 5 + bl);
        Some((key, AttrValue::Bytes(payload), vpos + 5 + bl))
    } else {
        None
    }
}

impl AttributeMap {
    /// Deserializes a packed blob. Fails with `CorruptAttributes` on any
    /// malformed framing: a truncated field, an unknown kind tag, a key that
    /// is not UTF-8, a duplicate key, or trailing bytes.
    #[verifier::loop_isolation(false)]
    #[verifier::rlimit(100)]
    #[verifier::spinoff_prover]
    pub fn decode(b: &Vec<u8>) -> (r: Result<AttributeMap, Error>)
        ensures
            match r {
                Ok(m) => {
                    &&& spec_decode(b@) == Some(m@)
                    &&& m.wf()
                },
                Err(e) => {
                    &&& e == Error::CorruptAttributes
                    &&& spec_decode(b@) is None
                },
            },
    {
        let len = b.len();
        if len < 4 {
            return Err(Error::CorruptAttributes);
        }
        let n32 = read_u32_at(b, 0);
        let ghost total: nat = n32 as nat;
        let mut out = AttributeMap { entries: Vec::new() };
        let mut pos: usize = 4;
        let mut j: u32 = 0;
        proof {
            assert(out@ =~= Seq::<(Seq<char>, AttrVal)>::empty());
            assert(Seq::<(Seq<char>, AttrVal)>::empty() + Seq::<(Seq<char>, AttrVal)>::empty()
                =~= Seq::<(Seq<char>, AttrVal)>::empty());
        }
        while j < n32
            invariant
                0 <= j <= n32,
                4 <= pos <= b@.len(),
                out@.len() == j as int,
                keys_unique(out@),
                forall|es2: Seq<(Seq<char>, AttrVal)>, p: int|
                    parse_entries(b@, pos as int, (n32 - j) as nat) == Some::<
                        (Seq<(Seq<char>, AttrVal)>, int),
                    >((es2, p)) ==> parse_entries(b@, 4, total) == Some::<
                        (Seq<(Seq<char>, AttrVal)>, int),
                    >((out@ + es2, p)),
                parse_entries(b@, pos as int, (n32 - j) as nat) is None ==> parse_entries(
                    b@,
                    4,
                    total,
                ) is None,
            decreases n32 - j,
        {
            let ghost rem: nat = (n32 - j) as nat;
            match parse_entry_at(b, pos) {
                Some((key, val, npos)) => {
                    let ghost e = (key@, val.model());
                    // Reject duplicate keys.
                    let nold = out.entries.len();
                    let mut k: usize = 0;
                    while k < nold
                        invariant
                            0 <= k <= nold,
                            nold == out.entries@.len(),
                            forall|jj: int| 0 <= jj < k ==> (#[trigger] out@[jj]).0 != key@,
                        decreases nold - k,
                    {
                        if str_eq(out.entries[k].0.as_str(), key.as_str()) {
                            proof {
                                // Either the rest parses — then the full entry
                                // list repeats this key — or it does not;
                                // both make the blob malformed.
                                assert(out@[k as int].0 == key@);
                                if parse_entries(b@, npos as int, (rem - 1) as nat) is Some {
                                    let (es2, p2) = parse_entries(
                                        b@,
                                        npos as int,
                                        (rem - 1) as nat,
                                    ).unwrap();
                                    assert(parse_entries(b@, pos as int, rem) == Some::<
                                        (Seq<(Seq<char>, AttrVal)>, int),
                                    >((seq![e] + es2, p2)));
                                    let full = out@ + (seq![e] + es2);
                                    assert(parse_entries(b@, 4, total) == Some::<
                                        (Seq<(Seq<char>, AttrVal)>, int),
                                    >((full, p2)));
                                    assert(full[k as int] == out@[k as int]);
                                    assert(full[out@.len() as int] == e);
                                    assert(!keys_unique(full));
                                    assert(spec_decode(b@) is None);
                                } else {
                                    assert(parse_entries(b@, pos as int, rem) is None);
                                    assert(parse_entries(b@, 4, total) is None);
                                    assert(spec_decode(b@) is None);
                                }
                            }
                            return Err(Error::CorruptAttributes);
                        }
                        k += 1;
                    }
                    let ghost pre = out@;
                    out.entries.push((key, val));
                    proof {
                        assert(out@ =~= pre.push(e));
                        assert forall|es2: Seq<(Seq<char>, AttrVal)>, p: int|
                            parse_entries(b@, npos as int, (rem - 1) as nat) == Some::<
                                (Seq<(Seq<char>, AttrVal)>, int),
                            >((es2, p)) implies parse_entries(b@, 4, total) == Some::<
                            (Seq<(Seq<char>, AttrVal)>, int),
                        >((out@ + es2, p)) by {
                            assert(parse_entries(b@, pos as int, rem) == Some::<
                                (Seq<(Seq<char>, AttrVal)>, int),
                            >((seq![e] + es2, p)));
                            assert(pre + (seq![e] + es2) =~= out@ + es2);
                        }
                        if parse_entries(b@, npos as int, (rem - 1) as nat) is None {
                            assert(parse_entries(b@, pos as int, rem) is None);
                        }
                    }
                    pos = npos;
                    j += 1;
                },
                None => {
                    proof {
                        assert(parse_entries(b@, pos as int, rem) is None);
                        assert(parse_entries(b@, 4, total) is None);
                        assert(spec_decode(b@) is None);
                    }
                    return Err(Error::CorruptAttributes);
                },
            }
        }
        proof {
            assert(parse_entries(b@, pos as int, 0) == Some::<(Seq<(Seq<char>, AttrVal)>, int)>(
                (Seq::empty(), pos as int),
            ));
            assert(out@ + Seq::<(Seq<char>, AttrVal)>::empty() =~= out@);
            assert(parse_entries(b@, 4, total) == Some::<(Seq<(Seq<char>, AttrVal)>, int)>(
                (out@, pos as int),
            ));
        }
        if pos != len {
            proof {
                assert(spec_decode(b@) is None);
            }
            return Err(Error::CorruptAttributes);
        }
        proof {
            assert(spec_decode(b@) == Some(out@));
        }
        Ok(out)
    }
}

/// Little-endian round trip for 32-bit values.
proof fn lemma_u32_roundtrip(n: u32)
    ensures
        spec_read_u32(u32le(n), 0) == n,
{
    assert((((n & 0xff) as u8) as u32) | (((((n >> 8) & 0xff) as u8) as u32) << 8) | (((((n >> 16)
        & 0xff) as u8) as u32) << 16) | (((((n >> 24) & 0xff) as u8) as u32) << 24) == n)
        by (bit_vector);
}

/// Little-endian round trip for 64-bit values.
proof fn lemma_u64_roundtrip(n: u64)
    ensures
        spec_read_u64(u64le(n), 0) == n,
{
    assert((((n & 0xff) as u8) as u64) | (((((n >> 8) & 0xff) as u8) as u64) << 8) | (((((n >> 16)
        & 0xff) as u8) as u64) << 16) | (((((n >> 24) & 0xff) as u8) as u64) << 24) | (((((n >> 32)
        & 0xff) as u8) as u64) << 32) | (((((n >> 40) & 0xff) as u8) as u64) << 40) | (((((n >> 48)
        & 0xff) as u8) as u64) << 48) | (((((n >> 56) & 0xff) as u8) as u64) << 56) == n)
        by (bit_vector);
}

/// Casting a signed 64-bit value to unsigned and back returns it.
proof fn lemma_i64_roundtrip(v: i64)
    ensures
        ((v as u64) as i64) == v,
{
    assert(((v as u64) as i64) == v) by (bit_vector);
}

/// A 32-bit field embedded in a larger buffer reads back its value.
proof fn lemma_read_u32_embedded(b: Seq<u8>, pos: int, n: u32)
    requires
        0 <= pos,
        pos + 4 <= b.len(),
        b.subrange(pos, pos + 4) == u32le(n),
    ensures
        spec_read_u32(b, pos) == n,
{
    lemma_u32_roundtrip(n);
    assert forall|i: int| 0 <= i < 4 implies b[pos + i] == u32le(n)[i] by {
        assert(b.subrange(pos, pos + 4)[i] == b[pos + i]);
    }
}

/// A 64-bit field embedded in a larger buffer reads back its value.
proof fn lemma_read_u64_embedded(b: Seq<u8>, pos: int, n: u64)
    requires
        0 <= pos,
        pos + 8 <= b.len(),
        b.subrange(pos, pos + 8) == u64le(n),
    ensures
        spec_read_u64(b, pos) == n,
{
    lemma_u64_roundtrip(n);
    assert forall|i: int| 0 <= i < 8 implies b[pos + i] == u64le(n)[i] by {
        assert(b.subrange(pos, pos + 8)[i] == b[pos + i]);
    }
}

/// An encoded value embedded in a larger buffer parses back to itself.
proof fn lemma_parse_encoded_value(b: Seq<u8>, pos: int, v: AttrVal)
    requires
        0 <= pos,
        match v {
            AttrVal::Bytes(bb) => bb.len() < 0x1_0000_0000,
            _ => true,
        },
        pos + spec_encode_value(v).len() <= b.len(),
        b.subrange(pos, pos + spec_encode_value(v).len()) == spec_encode_value(v),
    ensures
        parse_value(b, pos) == Some((v, pos + spec_encode_value(v).len())),
{
    let enc = spec_encode_value(v);
    let sr = b.subrange(pos, pos + enc.len() as int);
    assert(b[pos] == sr[0]);
    match v {
        AttrVal::Bool(x) => {
            assert(b[pos] == 0);
            assert(b[pos + 1] == sr[1]);
        },
        AttrVal::Int64(n) => {
            assert(b[pos] == 1);
            assert(b.subrange(pos + 1, pos + 9) =~= sr.subrange(1, 9));
            assert(sr.subrange(1, 9) =~= u64le(n as u64));
            lemma_read_u64_embedded(b, pos + 1, n as u64);
            lemma_i64_roundtrip(n);
        },
        AttrVal::Float64(bits) => {
            assert(b[pos] == 2);
            assert(b.subrange(pos + 1, pos + 9) =~= sr.subrange(1, 9));
            assert(sr.subrange(1, 9) =~= u64le(bits));
            lemma_read_u64_embedded(b, pos + 1, bits);
        },
        AttrVal::Bytes(bb) => {
            assert(b[pos] == 3);
            assert(b.subrange(pos + 1, pos + 5) =~= sr.subrange(1, 5));
            assert(sr.subrange(1, 5) =~= u32le(bb.len() as u32));
            lemma_read_u32_embedded(b, pos + 1, bb.len() as u32);
            assert(spec_read_u32(b, pos + 1) as int == bb.len() as int);
            assert(b.subrange(pos + 5, pos + 5 + bb.len() as int) =~= sr.subrange(
                5,
                5 + bb.len() as int,
            ));
            assert(sr.subrange(5, 5 + bb.len() as int) =~= bb);
        },
    }
}

/// An encoded entry embedded in a larger buffer parses back to itself.
proof fn lemma_parse_encoded_entry(b: Seq<u8>, pos: int, e: (Seq<char>, AttrVal))
    requires
        0 <= pos,
        entry_fits(e),
        pos + spec_encode_entry(e).len() <= b.len(),
        b.subrange(pos, pos + spec_encode_entry(e).len()) == spec_encode_entry(e),
    ensures
        parse_entry(b, pos) == Some((e, pos + spec_encode_entry(e).len())),
{
    let kb = encode_utf8(e.0);
    let kl = kb.len() as int;
    let vl = spec_encode_value(e.1).len() as int;
    let enc = spec_encode_entry(e);
    let sr = b.subrange(pos, pos + enc.len() as int);
    assert(b.subrange(pos, pos + 4) =~= sr.subrange(0, 4));
    assert(sr.subrange(0, 4) =~= u32le(kb.len() as u32));
    lemma_read_u32_embedded(b, pos, kb.len() as u32);
    assert(spec_read_u32(b, pos) as int == kl);
    assert(b.subrange(pos + 4, pos + 4 + kl) =~= sr.subrange(4, 4 + kl));
    assert(sr.subrange(4, 4 + kl) =~= kb);
    encode_utf8_valid_utf8(e.0);
    encode_utf8_decode_utf8(e.0);
    assert(b.subrange(pos + 4 + kl, pos + 4 + kl + vl) =~= sr.subrange(4 + kl, 4 + kl + vl));
    assert(sr.subrange(4 + kl, 4 + kl + vl) =~= spec_encode_value(e.1));
    lemma_parse_encoded_value(b, pos + 4 + kl, e.1);
}

/// An encoded entry list embedded in a larger buffer parses back to itself.
proof fn lemma_parse_encoded_entries(b: Seq<u8>, pos: int, es: Seq<(Seq<char>, AttrVal)>)
    requires
        0 <= pos,
        forall|j: int| 0 <= j < es.len() ==> entry_fits(#[trigger] es[j]),
        pos + spec_encode_entries(es).len() <= b.len(),
        b.subrange(pos, pos + spec_encode_entries(es).len()) == spec_encode_entries(es),
    ensures
        parse_entries(b, pos, es.len()) == Some((es, pos + spec_encode_entries(es).len())),
    decreases es.len(),
{
    if es.len() == 0 {
        assert(es =~= Seq::<(Seq<char>, AttrVal)>::empty());
    } else {
        let e = es[0];
        let el = spec_encode_entry(e).len() as int;
        let rest = es.drop_first();
        let enc = spec_encode_entries(es);
        assert(enc == spec_encode_entry(e) + spec_encode_entries(rest));
        let sr = b.subrange(pos, pos + enc.len() as int);
        let rl = spec_encode_entries(rest).len() as int;
        assert(b.subrange(pos, pos + el) =~= sr.subrange(0, el));
        assert(sr.subrange(0, el) =~= spec_encode_entry(e));
        lemma_parse_encoded_entry(b, pos, e);
        assert(b.subrange(pos + el, pos + el + rl) =~= sr.subrange(el, el + rl));
        assert(sr.subrange(el, el + rl) =~= spec_encode_entries(rest));
        assert forall|j: int| 0 <= j < rest.len() implies entry_fits(#[trigger] rest[j]) by {
            assert(rest[j] == es[j + 1]);
        }
        lemma_parse_encoded_entries(b, pos + el, rest);
        assert(seq![e] + rest =~= es);
    }
}

/// Law: decoding an encoded attribute map returns the map unchanged, for any
/// map built from the supported kinds whose keys, buffers and entry count fit
/// the wire format's 32-bit length fields.
pub proof fn lemma_codec_round_trip(es: Seq<(Seq<char>, AttrVal)>)
    requires
        keys_unique(es),
        entries_fit(es),
    ensures
        spec_decode(spec_encode(es)) == Some(es),
{
    let b = spec_encode(es);
    let el = spec_encode_entries(es).len() as int;
    assert(b.len() == 4 + el);
    assert(b.subrange(0, 4) =~= u32le(es.len() as u32));
    lemma_read_u32_embedded(b, 0, es.len() as u32);
    assert(spec_read_u32(b, 0) as nat == es.len());
    assert(b.subrange(4, 4 + el) =~= spec_encode_entries(es));
    lemma_parse_encoded_entries(b, 4, es);
}


/// The value of the first property entry whose key is `name`.
pub open spec fn spec_prop_first(props: Seq<(String, Variant)>, name: Seq<char>) -> Option<Variant>
    decreases props.len(),
{
    if props.len() == 0 {
        None
    } else if props[0].0@ == name {
        Some(props[0].1)
    } else {
        spec_prop_first(props.drop_first(), name)
    }
}

/// A first match at `k` determines the lookup.
proof fn lemma_prop_first_at(props: Seq<(String, Variant)>, name: Seq<char>, k: int)
    requires
        0 <= k < props.len(),
        props[k].0@ == name,
        forall|j: int| 0 <= j < k ==> (#[trigger] props[j]).0@ != name,
    ensures
        spec_prop_first(props, name) == Some(props[k].1),
    decreases k,
{
    if k > 0 {
        assert(props.drop_first()[k - 1] == props[k]);
        lemma_prop_first_at(props.drop_first(), name, k - 1);
    }
}

/// No match anywhere means the lookup fails.
proof fn lemma_prop_first_none(props: Seq<(String, Variant)>, name: Seq<char>)
    requires
        forall|j: int| 0 <= j < props.len() ==> (#[trigger] props[j]).0@ != name,
    ensures
        spec_prop_first(props, name) is None,
    decreases props.len(),
{
    if props.len() > 0 {
        lemma_prop_first_none(props.drop_first(), name);
    }
}

/// A property write (`prop_written`) makes the written key's lookup return
/// the new value and leaves every other key's lookup unchanged.
proof fn lemma_prop_written_lookup(
    before: Seq<(String, Variant)>,
    after: Seq<(String, Variant)>,
    key: String,
    value: Variant,
)
    requires
        crate::graph::prop_written(before, after, key, value),
    ensures
        spec_prop_first(after, key@) == Some(value),
        forall|other: Seq<char>|
            other != key@ ==> spec_prop_first(after, other) == spec_prop_first(before, other),
{
    if exists|k: int| 0 <= k < before.len() && (#[trigger] before[k]).0@ == key@ {
        let k = choose|k: int|
            {
                &&& 0 <= k < before.len()
                &&& (#[trigger] before[k]).0@ == key@
                &&& forall|j: int| 0 <= j < k ==> (#[trigger] before[j]).0@ != key@
                &&& after == before.update(k, (before[k].0, value))
            };
        assert forall|j: int| 0 <= j < k implies (#[trigger] after[j]).0@ != key@ by {
            assert(after[j] == before[j]);
        }
        assert(after[k].0@ == key@);
        lemma_prop_first_at(after, key@, k);
        assert forall|other: Seq<char>| other != key@ implies spec_prop_first(after, other)
            == spec_prop_first(before, other) by {
            lemma_prop_first_update_other(before, after, other, k);
        }
    } else {
        assert(after == before.push((key, value)));
        assert forall|other: Seq<char>| other != key@ implies spec_prop_first(after, other)
            == spec_prop_first(before, other) by {
            lemma_prop_first_push_other(before, (key, value), other);
        }
        assert(after[before.len() as int].0@ == key@);
        assert forall|j: int| 0 <= j < before.len() implies (#[trigger] after[j]).0@ != key@ by {
            assert(after[j] == before[j]);
        }
        lemma_prop_first_at(after, key@, before.len() as int);
    }
}

proof fn lemma_prop_first_update_other(
    before: Seq<(String, Variant)>,
    after: Seq<(String, Variant)>,
    other: Seq<char>,
    k: int,
)
    requires
        0 <= k < before.len(),
        after == before.update(k, (before[k].0, after[k].1)),
        before[k].0@ != other,
    ensures
        spec_prop_first(after, other) == spec_prop_first(before, other),
    decreases before.len(),
{
    assert(after.len() == before.len());
    if k == 0 {
        assert(after[0].0 == before[0].0);
        if before[0].0@ != other {
            assert(after.drop_first() =~= before.drop_first());
        }
    } else {
        assert(after[0] == before[0]);
        if before[0].0@ != other {
            assert(after.drop_first() =~= before.drop_first().update(
                k - 1,
                (before.drop_first()[k - 1].0, after.drop_first()[k - 1].1),
            ));
            lemma_prop_first_update_other(before.drop_first(), after.drop_first(), other, k - 1);
        }
    }
}

proof fn lemma_prop_first_push_other(
    before: Seq<(String, Variant)>,
    e: (String, Variant),
    other: Seq<char>,
)
    requires
        e.0@ != other,
    ensures
        spec_prop_first(before.push(e), other) == spec_prop_first(before, other),
    decreases before.len(),
{
    if before.len() == 0 {
        assert(before.push(e)[0] == e);
        assert(before.push(e).drop_first() =~= Seq::<(String, Variant)>::empty());
        assert(spec_prop_first(Seq::<(String, Variant)>::empty(), other) is None);
        assert(spec_prop_first(before.push(e), other) is None);
    } else {
        assert(before.push(e)[0] == before[0]);
        if before[0].0@ != other {
            assert(before.push(e).drop_first() =~= before.drop_first().push(e));
            lemma_prop_first_push_other(before.drop_first(), e, other);
        }
    }
}

/// What a successfully read attribute surfaces as: booleans, integers and
/// doubles as themselves; a buffer holding UTF-8 text as that plain text (the
/// legacy unwrap), any other buffer as its base64 text.
pub open spec fn attr_surfaces(v: AttrVal, dv: DynValue) -> bool {
    match v {
        AttrVal::Bool(b) => dv == DynValue::Bool(b),
        AttrVal::Int64(n) => dv == DynValue::Integer(n),
        AttrVal::Float64(bits) => dv == DynValue::Number(bits),
        AttrVal::Bytes(bs) => match dv {
            DynValue::Str(t) => if valid_utf8(bs) {
                t@ == decode_utf8(bs)
            } else {
                t@ == crate::bridge::b64_of(bs)
            },
            _ => false,
        },
    }
}

/// The attribute entries stored on an instance: the decoding of its reserved
/// property. An absent property is an empty map; a property of any other
/// shape, or an undecodable blob, is malformed.
pub open spec fn stored_attrs(props: Seq<(String, Variant)>) -> Option<Seq<(Seq<char>, AttrVal)>> {
    match spec_prop_first(props, "Attributes"@) {
        None => Some(Seq::empty()),
        Some(Variant::BinaryString(b)) => spec_decode(b@),
        Some(_) => None,
    }
}

/// The attribute value `set_attribute` stores for a dynamic value, when the
/// value has an attribute rule: strings are re-encoded as base64 text under
/// the buffer kind — a preserved historical workaround — and the plain kinds
/// store themselves.
pub open spec fn attr_stored_value(v: DynValue) -> Option<AttrVal> {
    match v {
        DynValue::Bool(b) => Some(AttrVal::Bool(b)),
        DynValue::Integer(n) => Some(AttrVal::Int64(n)),
        DynValue::Number(bits) => Some(AttrVal::Float64(bits)),
        DynValue::Str(s) => Some(
            AttrVal::Bytes(encode_utf8(crate::bridge::b64_of(encode_utf8(s@)))),
        ),
        _ => None,
    }
}

/// The attribute entries after a write: the nil value removes `name`, any
/// value with an attribute rule stores under it.
pub open spec fn attr_updated_entries(
    es: Seq<(Seq<char>, AttrVal)>,
    name: Seq<char>,
    v: DynValue,
) -> Seq<(Seq<char>, AttrVal)> {
    match v {
        DynValue::Nil => attr_remove_entries(es, name),
        _ => attr_set_entries(es, name, attr_stored_value(v).unwrap()),
    }
}

/// Finds the reserved attribute property of `id` and decodes it.
///
/// Returns the decoded map; `NotFound` for an absent id, `CorruptAttributes`
/// when the property holds anything but a well-formed blob.
#[verifier::loop_isolation(false)]
fn read_attr_map(g: &Graph, id: u64) -> (r: Result<AttributeMap, Error>)
    ensures
        match r {
            Ok(m) => {
                &&& g.model().contains_key(id)
                &&& stored_attrs(g.model()[id].properties@) == Some(m@)
                &&& m.wf()
            },
            Err(e) => {
                &&& (e == Error::NotFound || e == Error::CorruptAttributes)
                &&& (e == Error::NotFound <==> !g.model().contains_key(id))
                &&& (e == Error::CorruptAttributes ==> g.model().contains_key(id) && stored_attrs(
                    g.model()[id].properties@,
                ) is None)
            },
        },
{
    let inst = match g.get(id) {
        Some(inst) => inst,
        None => {
            return Err(Error::NotFound);
        },
    };
    let n = inst.properties.len();
    let mut k: usize = 0;
    while k < n
        invariant
            0 <= k <= n,
            n == inst.properties@.len(),
            forall|j: int| 0 <= j < k ==> (#[trigger] inst.properties@[j]).0@ != "Attributes"@,
        decreases n - k,
    {
        if str_eq(inst.properties[k].0.as_str(), "Attributes") {
            proof {
                lemma_prop_first_at(inst.properties@, "Attributes"@, k as int);
                assert(spec_prop_first(g.model()[id].properties@, "Attributes"@) == Some(
                    inst.properties@[k as int].1,
                ));
            }
            match &inst.properties[k].1 {
                Variant::BinaryString(b) => {
                    let dr = AttributeMap::decode(b);
                    proof {
                        assert(stored_attrs(g.model()[id].properties@) == spec_decode(b@));
                    }
                    return dr;
                },
                _ => {
                    proof {
                        assert(stored_attrs(g.model()[id].properties@) is None);
                    }
                    return Err(Error::CorruptAttributes);
                },
            }
        }
        k += 1;
    }
    proof {
        lemma_prop_first_none(inst.properties@, "Attributes"@);
        assert(stored_attrs(g.model()[id].properties@) == Some(
            Seq::<(Seq<char>, AttrVal)>::empty(),
        ));
    }
    let m = AttributeMap::new();
    Ok(m)
}

/// Whether every entry fits the wire format's 32-bit length fields.
impl AttributeMap {
    fn fits(&self) -> (r: bool)
        ensures
            r == entries_fit(self@),
    {
        let n = self.entries.len();
        if (n as u64) >= 0x1_0000_0000u64 {
            return false;
        }
        let mut k: usize = 0;
        while k < n
            invariant
                0 <= k <= n,
                n == self.entries@.len(),
                n < 0x1_0000_0000,
                forall|j: int| 0 <= j < k ==> entry_fits(#[trigger] self@[j]),
            decreases n - k,
        {
            let kb = self.entries[k].0.as_str().as_bytes();
            if (kb.len() as u64) >= 0x1_0000_0000u64 {
                return false;
            }
            match &self.entries[k].1 {
                AttrValue::Bytes(b) => {
                    if (b.len() as u64) >= 0x1_0000_0000u64 {
                        return false;
                    }
                },
                _ => {},
            }
            proof {
                assert(entry_fits(self@[k as int]));
            }
            k += 1;
        }
        true
    }
}

/// The UTF-8 bytes of a string slice, as an owned buffer.
fn bytes_of_str(s: &str) -> (r: Vec<u8>)
    ensures
        r@ == encode_utf8(s@),
{
    let mut r: Vec<u8> = Vec::new();
    push_bytes(&mut r, s.as_bytes());
    proof {
        assert(r@ =~= encode_utf8(s@));
    }
    r
}

/// Reads the attribute stored under `name` on instance `id`.
///
/// An absent reserved property reads as an empty map. Entries of the buffer
/// kind that hold text are surfaced as plain strings — a preserved legacy
/// unwrap — and other buffers as their base64 text. Fails with `NotFound`
/// for an absent id and `CorruptAttributes` for a malformed blob.
pub fn get_attribute(g: &Graph, id: u64, name: &str) -> (r: Result<Option<DynValue>, Error>)
    ensures
        match r {
            Ok(opt) => {
                &&& g.model().contains_key(id)
                &&& match stored_attrs(g.model()[id].properties@) {
                    Some(es) => match (spec_attr_lookup(es, name@), opt) {
                        (Some(v), Some(dv)) => attr_surfaces(v, dv),
                        (None, None) => true,
                        _ => false,
                    },
                    None => false,
                }
            },
            Err(e) => {
                &&& (e == Error::NotFound || e == Error::CorruptAttributes)
                &&& (e == Error::NotFound <==> !g.model().contains_key(id))
                &&& (e == Error::CorruptAttributes ==> g.model().contains_key(id) && stored_attrs(
                    g.model()[id].properties@,
                ) is None)
            },
        },
{
    let m = match read_attr_map(g, id) {
        Ok(m) => m,
        Err(e) => {
            return Err(e);
        },
    };
    let v = match m.get(name) {
        Some(v) => v,
        None => {
            return Ok(None);
        },
    };
    match v {
        AttrValue::Bool(b) => Ok(Some(DynValue::Bool(*b))),
        AttrValue::Int64(n) => Ok(Some(DynValue::Integer(*n))),
        AttrValue::Float64(bits) => Ok(Some(DynValue::Number(*bits))),
        AttrValue::Bytes(bs) => {
            match bytes_to_string(bs) {
                Some(t) => Ok(Some(DynValue::Str(t))),
                None => {
                    let t = crate::bridge::b64_encode(bs);
                    Ok(Some(DynValue::Str(t)))
                },
            }
        },
    }
}

/// Writes, or with the nil value removes, the attribute stored under `name`
/// on instance `id`, re-encoding the whole map into the reserved property.
///
/// String values are stored as base64 text under the buffer kind — a
/// preserved historical workaround. Fails with `NotFound` for an absent id,
/// `Unsupported` for a dynamic value with no attribute rule, and
/// `CorruptAttributes` when the stored blob is malformed or the updated map
/// no longer fits the wire format's length fields.
pub fn set_attribute(g: &mut Graph, id: u64, name: &str, value: &DynValue) -> (r: Result<
    (),
    Error,
>)
    requires
        old(g).wf(),
    ensures
        final(g).wf(),
        final(g).spec_root() == old(g).spec_root(),
        final(g).model().dom() == old(g).model().dom(),
        match r {
            Ok(_) => {
                &&& old(g).model().contains_key(id)
                &&& match stored_attrs(old(g).model()[id].properties@) {
                    Some(es0) => {
                        let es1 = attr_updated_entries(es0, name@, *value);
                        &&& stored_attrs(final(g).model()[id].properties@) == Some(es1)
                        &&& (match *value {
                            DynValue::Nil => spec_attr_lookup(es1, name@) is None,
                            _ => spec_attr_lookup(es1, name@) == attr_stored_value(*value),
                        })
                        &&& forall|other: Seq<char>|
                            other != name@ ==> spec_attr_lookup(es1, other) == spec_attr_lookup(
                                es0,
                                other,
                            )
                    },
                    None => false,
                }
                &&& final(g).model()[id].class == old(g).model()[id].class
                &&& final(g).model()[id].name == old(g).model()[id].name
                &&& final(g).model()[id].children == old(g).model()[id].children
                &&& final(g).model()[id].parent == old(g).model()[id].parent
                &&& forall|x: u64|
                    x != id && #[trigger] old(g).model().contains_key(x) ==> final(g).model()[x]
                        == old(g).model()[x]
            },
            Err(e) => {
                &&& (e == Error::NotFound || e == Error::Unsupported || e
                    == Error::CorruptAttributes)
                &&& (e == Error::NotFound <==> !old(g).model().contains_key(id))
                &&& (e == Error::Unsupported <==> (old(g).model().contains_key(id) && stored_attrs(
                    old(g).model()[id].properties@,
                ) is Some && *value != DynValue::Nil && attr_stored_value(*value) is None))
                &&& (e == Error::CorruptAttributes <==> (old(g).model().contains_key(id) && {
                    ||| stored_attrs(old(g).model()[id].properties@) is None
                    ||| {
                        &&& stored_attrs(old(g).model()[id].properties@) is Some
                        &&& (*value == DynValue::Nil || attr_stored_value(*value) is Some)
                        &&& !entries_fit(
                            attr_updated_entries(
                                stored_attrs(old(g).model()[id].properties@).unwrap(),
                                name@,
                                *value,
                            ),
                        )
                    }
                }))
                &&& *final(g) == *old(g)
            },
        },
{
    let mut m = match read_attr_map(g, id) {
        Ok(m) => m,
        Err(e) => {
            return Err(e);
        },
    };
    match value {
        DynValue::Nil => {
            m.remove(name);
        },
        DynValue::Bool(b) => {
            m.set(name, AttrValue::Bool(*b));
        },
        DynValue::Integer(n) => {
            m.set(name, AttrValue::Int64(*n));
        },
        DynValue::Number(bits) => {
            m.set(name, AttrValue::Float64(*bits));
        },
        DynValue::Str(text) => {
            let sb = bytes_of_str(text.as_str());
            let b64 = crate::bridge::b64_encode(&sb);
            let payload = bytes_of_str(b64.as_str());
            m.set(name, AttrValue::Bytes(payload));
        },
        _ => {
            return Err(Error::Unsupported);
        },
    }
    if !m.fits() {
        return Err(Error::CorruptAttributes);
    }
    let blob = m.encode();
    let key = "Attributes".to_owned();
    let ghost props0 = g.model()[id].properties@;
    match g.set_raw_property(id, key, Variant::BinaryString(blob)) {
        Ok(_) => {
            proof {
                let props1 = g.model()[id].properties@;
                lemma_prop_written_lookup(
                    props0,
                    props1,
                    key,
                    Variant::BinaryString(blob),
                );
                lemma_codec_round_trip(m@);
            }
            Ok(())
        },
        Err(e) => {
            // Unreachable: the id was just found in the table.
            Err(e)
        },
    }
}

} // verus!
