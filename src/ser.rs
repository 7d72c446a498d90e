//! Serialize values to canonical CBOR bytes through a visitor-style set of
//! callbacks: one method per shape of value.
//!
//! A [`Serializer`] appends to a byte buffer. Values that must be written
//! before their container is complete (struct fields, sequence elements, map
//! entries) are handed over already encoded, as bytes from a fresh serializer
//! with the same policy; the container buffers them, writes its definite
//! length and, for maps, sorts the entries into canonical order.

use vstd::prelude::*;
use crate::error::EncodeError;
use crate::float::{widen, widen_f32_bits};
use crate::header::{be4, be8, header};
use crate::ipld::str_eq;
use crate::order::{buffers, lex_leq, sort_buffers};
use vstd::utf8::encode_utf8;

verus! {

broadcast use vstd::seq_lib::group_seq_properties;

/// Major type of unsigned integers.
pub const MAJOR_UNSIGNED: u8 = 0;
/// Major type of negative integers.
pub const MAJOR_NEGATIVE: u8 = 1;
/// Major type of byte strings.
pub const MAJOR_BYTES: u8 = 2;
/// Major type of text strings.
pub const MAJOR_TEXT: u8 = 3;
/// Major type of arrays.
pub const MAJOR_ARRAY: u8 = 4;
/// Major type of maps.
pub const MAJOR_MAP: u8 = 5;
/// Major type of tags.
pub const MAJOR_TAG: u8 = 6;
/// The tag that marks a content identifier.
pub const CBOR_TAGS_CID: u8 = 42;

/// The bytes of `false`.
pub const FALSE_BYTE: u8 = 0xf4;
/// The bytes of `true`.
pub const TRUE_BYTE: u8 = 0xf5;
/// The byte of `null`.
pub const NULL_BYTE: u8 = 0xf6;
/// The first byte of a double precision float.
pub const F64_BYTE: u8 = 0xfb;

/// The smallest integer the format holds: `-(2^64)`.
pub open spec fn min_int() -> int {
    -0x1_0000_0000_0000_0000
}

/// The largest integer the format holds: `2^64 - 1`.
pub open spec fn max_int() -> int {
    0xffff_ffff_ffff_ffff
}

/// The encoding of an integer in `min_int() ..= max_int()`: major type 0
/// with `n` itself, or major type 1 with `-(n + 1)`.
pub open spec fn int_item(n: int) -> Seq<u8> {
    if n >= 0 {
        header(MAJOR_UNSIGNED, n as u64)
    } else {
        header(MAJOR_NEGATIVE, (-(n + 1)) as u64)
    }
}

/// The encoding of a boolean.
pub open spec fn bool_item(b: bool) -> Seq<u8> {
    if b {
        seq![TRUE_BYTE]
    } else {
        seq![FALSE_BYTE]
    }
}

/// A double whose bits are `bits` is finite: its exponent is not all ones.
pub open spec fn finite_bits(bits: u64) -> bool {
    bits / 0x10_0000_0000_0000 % 0x800 != 0x7ff
}

/// The encoding of a double precision float given by its IEEE-754 bits.
pub open spec fn float_item(bits: u64) -> Seq<u8> {
    seq![F64_BYTE] + be8(bits as nat)
}

/// The encoding of a byte string.
pub open spec fn bytes_item(b: Seq<u8>) -> Seq<u8> {
    header(MAJOR_BYTES, b.len() as u64) + b
}

/// The encoding of a text string: its UTF-8 bytes, length first.
pub open spec fn text_item(s: Seq<char>) -> Seq<u8> {
    header(MAJOR_TEXT, encode_utf8(s).len() as u64) + encode_utf8(s)
}

/// The encoding of a link to the identifier whose bytes are `cid`: tag 42,
/// then a byte string of the identifier with a zero byte in front.
pub open spec fn link_item(cid: Seq<u8>) -> Seq<u8> {
    header(MAJOR_TAG, CBOR_TAGS_CID as u64) + header(MAJOR_BYTES, (cid.len() + 1) as u64) + seq![0u8]
        + cid
}

/// The entries of a map in canonical order: sorted by their encoded bytes.
pub open spec fn canonical_entries(entries: Seq<Seq<u8>>) -> Seq<Seq<u8>> {
    entries.sort_by(lex_leq())
}

/// A map of already encoded entries (key followed by value): the number of
/// entries, then the entries in canonical order.
pub open spec fn map_item(entries: Seq<Seq<u8>>) -> Seq<u8> {
    header(MAJOR_MAP, entries.len() as u64) + canonical_entries(entries).flatten()
}

/// An array of already encoded elements, in their order.
pub open spec fn array_item(elements: Seq<Seq<u8>>) -> Seq<u8> {
    header(MAJOR_ARRAY, elements.len() as u64) + elements.flatten()
}

/// The self-describe tag 55799, which may open a stream.
pub open spec fn self_describe_item() -> Seq<u8> {
    seq![0xd9u8, 0xd9u8, 0xf7u8]
}

/// The encoding of an enum variant's name where it stands alone: its index
/// in the packed format, else its name.
pub open spec fn variant_item(packed: bool, index: u32, name: Seq<char>) -> Seq<u8> {
    if packed {
        header(MAJOR_UNSIGNED, index as u64)
    } else {
        text_item(name)
    }
}

/// The head of an enum variant that carries a payload: a one-entry map keyed
/// by the variant's name, or in the legacy format a two-element array whose
/// first element names the variant.
pub open spec fn variant_prefix(packed: bool, enum_as_map: bool, index: u32, name: Seq<char>) -> Seq<
    u8,
> {
    if enum_as_map {
        header(MAJOR_MAP, 1) + text_item(name)
    } else {
        header(MAJOR_ARRAY, 2) + variant_item(packed, index, name)
    }
}

/// The name under which a content identifier reaches a serializer, as a
/// newtype struct.
pub open spec fn link_name() -> Seq<char> {
    "$__private__serde__identifier__for__cid"@
}

/// Relies on cid::serde::CID_SERDE_PRIVATE_IDENTIFIER: the name the cid crate
/// gives the newtype struct it serializes a content identifier as.
#[verifier::external_body]
fn cid_newtype_name() -> (r: &'static str)
    ensures
        r@ == link_name(),
{
    cid::serde::CID_SERDE_PRIVATE_IDENTIFIER
}

/// Whether a newtype struct of this name is a content identifier.
pub fn is_link_name(name: &str) -> (r: bool)
    ensures
        r == (name@ == link_name()),
{
    str_eq(name, cid_newtype_name())
}

/// A structure for serializing values to CBOR.
pub struct Serializer {
    writer: Vec<u8>,
    packed: bool,
    enum_as_map: bool,
}

impl View for Serializer {
    type V = Seq<u8>;

    /// The bytes written so far.
    closed spec fn view(&self) -> Seq<u8> {
        self.writer@
    }
}

impl Serializer {
    /// Field and variant names are replaced by their indices.
    pub closed spec fn is_packed(&self) -> bool {
        self.packed
    }

    /// Enum variants with a payload are written as one-entry maps rather than
    /// legacy arrays.
    pub closed spec fn is_enum_as_map(&self) -> bool {
        self.enum_as_map
    }

    /// Both serializers follow the same representation policy.
    pub open spec fn same_policy(&self, other: &Serializer) -> bool {
        self.is_packed() == other.is_packed() && self.is_enum_as_map() == other.is_enum_as_map()
    }

    /// Creates a new CBOR serializer that appends to `writer`, with field
    /// names and enums written as maps.
    pub fn new(writer: Vec<u8>) -> (r: Self)
        ensures
            r@ == writer@,
            !r.is_packed(),
            r.is_enum_as_map(),
    {
        Serializer { writer, packed: false, enum_as_map: true }
    }

    /// A serializer with no bytes written yet and the same policy as this one.
    pub fn fresh(&self) -> (r: Self)
        ensures
            r@ == Seq::<u8>::empty(),
            r.same_policy(self),
    {
        Serializer { writer: Vec::new(), packed: self.packed, enum_as_map: self.enum_as_map }
    }

    /// Choose the packed format: enum variant names and field names are
    /// replaced with numeric indices to conserve space.
    pub fn packed_format(self) -> (r: Self)
        ensures
            r@ == self@,
            r.is_packed(),
            r.is_enum_as_map() == self.is_enum_as_map(),
    {
        let mut s = self;
        s.packed = true;
        s
    }

    /// Choose the legacy enum format: a variant with a payload is written as
    /// an array of the variant's name followed by the payload, rather than as
    /// a one-entry map.
    pub fn legacy_enums(self) -> (r: Self)
        ensures
            r@ == self@,
            r.is_packed() == self.is_packed(),
            !r.is_enum_as_map(),
    {
        let mut s = self;
        s.enum_as_map = false;
        s
    }

    /// Writes the self-describe tag, which lets a reader recognise the format.
    pub fn self_describe(&mut self)
        ensures
            final(self)@ == old(self)@ + self_describe_item(),
            final(self).same_policy(old(self)),
    {
        self.writer.push(0xd9);
        self.writer.push(0xd9);
        self.writer.push(0xf7);
    }

    /// Unwraps the bytes written.
    pub fn into_inner(self) -> (r: Vec<u8>)
        ensures
            r@ == self@,
    {
        self.writer
    }

    fn push_be4(&mut self, n: u64)
        requires
            n <= 0xffff_ffff,
        ensures
            final(self)@ == old(self)@ + be4(n as nat),
            final(self).same_policy(old(self)),
    {
        self.writer.push((n / 0x100_0000 % 0x100) as u8);
        self.writer.push((n / 0x1_0000 % 0x100) as u8);
        self.writer.push((n / 0x100 % 0x100) as u8);
        self.writer.push((n % 0x100) as u8);
    }

    fn push_be8(&mut self, n: u64)
        ensures
            final(self)@ == old(self)@ + be8(n as nat),
            final(self).same_policy(old(self)),
    {
        self.push_be4(n / 0x1_0000_0000);
        self.push_be4(n % 0x1_0000_0000);
    }

    /// Writes the canonical head for major type `major` and an 8-bit argument.
    pub fn write_u8(&mut self, major: u8, value: u8)
        requires
            major < 8,
        ensures
            final(self)@ == old(self)@ + header(major, value as u64),
            final(self).same_policy(old(self)),
    {
        if value <= 0x17 {
            self.writer.push(major * 32 + value);
        } else {
            self.writer.push(major * 32 + 24);
            self.writer.push(value);
        }
    }

    /// Writes the canonical head for major type `major` and a 16-bit argument.
    pub fn write_u16(&mut self, major: u8, value: u16)
        requires
            major < 8,
        ensures
            final(self)@ == old(self)@ + header(major, value as u64),
            final(self).same_policy(old(self)),
    {
        if value <= 0xff {
            self.write_u8(major, value as u8);
        } else {
            self.writer.push(major * 32 + 25);
            self.writer.push((value / 0x100) as u8);
            self.writer.push((value % 0x100) as u8);
        }
    }

    /// Writes the canonical head for major type `major` and a 32-bit argument.
    pub fn write_u32(&mut self, major: u8, value: u32)
        requires
            major < 8,
        ensures
            final(self)@ == old(self)@ + header(major, value as u64),
            final(self).same_policy(old(self)),
    {
        if value <= 0xffff {
            self.write_u16(major, value as u16);
        } else {
            self.writer.push(major * 32 + 26);
            self.push_be4(value as u64);
        }
    }

    /// Writes the canonical head for major type `major` and argument `value`.
    pub fn write_u64(&mut self, major: u8, value: u64)
        requires
            major < 8,
        ensures
            final(self)@ == old(self)@ + header(major, value),
            final(self).same_policy(old(self)),
    {
        if value <= 0xffff_ffff {
            self.write_u32(major, value as u32);
        } else {
            self.writer.push(major * 32 + 27);
            self.push_be8(value);
        }
    }

    fn write_all(&mut self, bytes: &[u8])
        ensures
            final(self)@ == old(self)@ + bytes@,
            final(self).same_policy(old(self)),
    {
        self.writer.extend_from_slice(bytes);
    }

    pub fn serialize_bool(&mut self, value: bool)
        ensures
            final(self)@ == old(self)@ + bool_item(value),
            final(self).same_policy(old(self)),
    {
        let b: u8 = if value {
            TRUE_BYTE
        } else {
            FALSE_BYTE
        };
        self.writer.push(b);
    }

    pub fn serialize_i8(&mut self, value: i8)
        ensures
            final(self)@ == old(self)@ + int_item(value as int),
            final(self).same_policy(old(self)),
    {
        if value < 0 {
            self.write_u8(MAJOR_NEGATIVE, (-(value + 1)) as u8);
        } else {
            self.write_u8(MAJOR_UNSIGNED, value as u8);
        }
    }

    pub fn serialize_i16(&mut self, value: i16)
        ensures
            final(self)@ == old(self)@ + int_item(value as int),
            final(self).same_policy(old(self)),
    {
        if value < 0 {
            self.write_u16(MAJOR_NEGATIVE, (-(value + 1)) as u16);
        } else {
            self.write_u16(MAJOR_UNSIGNED, value as u16);
        }
    }

    pub fn serialize_i32(&mut self, value: i32)
        ensures
            final(self)@ == old(self)@ + int_item(value as int),
            final(self).same_policy(old(self)),
    {
        if value < 0 {
            self.write_u32(MAJOR_NEGATIVE, (-(value + 1)) as u32);
        } else {
            self.write_u32(MAJOR_UNSIGNED, value as u32);
        }
    }

    pub fn serialize_i64(&mut self, value: i64)
        ensures
            final(self)@ == old(self)@ + int_item(value as int),
            final(self).same_policy(old(self)),
    {
        if value < 0 {
            self.write_u64(MAJOR_NEGATIVE, (-(value + 1)) as u64);
        } else {
            self.write_u64(MAJOR_UNSIGNED, value as u64);
        }
    }

    /// Writes an integer; fails, writing nothing, where it lies outside
    /// `-(2^64) ..= 2^64 - 1`.
    pub fn serialize_i128(&mut self, value: i128) -> (r: Result<(), EncodeError>)
        ensures
            r is Ok <==> min_int() <= value <= max_int(),
            r is Ok ==> final(self)@ == old(self)@ + int_item(value as int),
            r is Err ==> r == Err::<(), _>(EncodeError::OutOfRange) && final(self)@ == old(self)@,
            final(self).same_policy(old(self)),
    {
        if value < 0 {
            if -(value + 1) > 0xffff_ffff_ffff_ffff {
                return Err(EncodeError::OutOfRange);
            }
            self.write_u64(MAJOR_NEGATIVE, (-(value + 1)) as u64);
        } else {
            if value > 0xffff_ffff_ffff_ffff {
                return Err(EncodeError::OutOfRange);
            }
            self.write_u64(MAJOR_UNSIGNED, value as u64);
        }
        Ok(())
    }

    pub fn serialize_u8(&mut self, value: u8)
        ensures
            final(self)@ == old(self)@ + int_item(value as int),
            final(self).same_policy(old(self)),
    {
        self.write_u8(MAJOR_UNSIGNED, value);
    }

    pub fn serialize_u16(&mut self, value: u16)
        ensures
            final(self)@ == old(self)@ + int_item(value as int),
            final(self).same_policy(old(self)),
    {
        self.write_u16(MAJOR_UNSIGNED, value);
    }

    pub fn serialize_u32(&mut self, value: u32)
        ensures
            final(self)@ == old(self)@ + int_item(value as int),
            final(self).same_policy(old(self)),
    {
        self.write_u32(MAJOR_UNSIGNED, value);
    }

    pub fn serialize_u64(&mut self, value: u64)
        ensures
            final(self)@ == old(self)@ + int_item(value as int),
            final(self).same_policy(old(self)),
    {
        self.write_u64(MAJOR_UNSIGNED, value);
    }

    /// Writes an unsigned integer; fails, writing nothing, above `2^64 - 1`.
    pub fn serialize_u128(&mut self, value: u128) -> (r: Result<(), EncodeError>)
        ensures
            r is Ok <==> value <= max_int(),
            r is Ok ==> final(self)@ == old(self)@ + int_item(value as int),
            r is Err ==> r == Err::<(), _>(EncodeError::OutOfRange) && final(self)@ == old(self)@,
            final(self).same_policy(old(self)),
    {
        if value > 0xffff_ffff_ffff_ffff {
            return Err(EncodeError::OutOfRange);
        }
        self.write_u64(MAJOR_UNSIGNED, value as u64);
        Ok(())
    }

    /// Writes a double precision float given by its IEEE-754 bits, always in
    /// eight bytes; fails, writing nothing, on NaN and the infinities.
    pub fn serialize_f64(&mut self, bits: u64) -> (r: Result<(), EncodeError>)
        ensures
            r is Ok <==> finite_bits(bits),
            r is Ok ==> final(self)@ == old(self)@ + float_item(bits),
            r is Err ==> r == Err::<(), _>(EncodeError::NonFiniteFloat) && final(self)@ == old(
                self,
            )@,
            final(self).same_policy(old(self)),
    {
        if bits / 0x10_0000_0000_0000 % 0x800 == 0x7ff {
            Err(EncodeError::NonFiniteFloat)
        } else {
            self.writer.push(F64_BYTE);
            self.push_be8(bits);
            Ok(())
        }
    }

    /// Writes a single precision float, given by its IEEE-754 bits, as the
    /// double of the same value; fails, writing nothing, on NaN and the
    /// infinities.
    pub fn serialize_f32(&mut self, bits: u32) -> (r: Result<(), EncodeError>)
        ensures
            r is Ok <==> finite_bits(widen(bits)),
            r is Ok ==> final(self)@ == old(self)@ + float_item(widen(bits)),
            r is Err ==> r == Err::<(), _>(EncodeError::NonFiniteFloat) && final(self)@ == old(
                self,
            )@,
            final(self).same_policy(old(self)),
    {
        self.serialize_f64(widen_f32_bits(bits))
    }

    pub fn serialize_str(&mut self, value: &str)
        ensures
            final(self)@ == old(self)@ + text_item(value@),
            final(self).same_policy(old(self)),
    {
        let b = value.as_bytes();
        self.write_u64(MAJOR_TEXT, b.len() as u64);
        self.write_all(b);
    }

    pub fn serialize_bytes(&mut self, value: &[u8])
        ensures
            final(self)@ == old(self)@ + bytes_item(value@),
            final(self).same_policy(old(self)),
    {
        self.write_u64(MAJOR_BYTES, value.len() as u64);
        self.write_all(value);
    }

    /// Writes a link to the content identifier whose bytes are `cid`.
    pub fn serialize_link(&mut self, cid: &[u8])
        requires
            cid@.len() < usize::MAX,
        ensures
            final(self)@ == old(self)@ + link_item(cid@),
            final(self).same_policy(old(self)),
    {
        self.write_u8(MAJOR_TAG, CBOR_TAGS_CID);
        self.write_u64(MAJOR_BYTES, (cid.len() + 1) as u64);
        self.writer.push(0);
        self.write_all(cid);
    }

    /// Unit, and an absent optional value, are both written as null.
    pub fn serialize_unit(&mut self)
        ensures
            final(self)@ == old(self)@ + seq![NULL_BYTE],
            final(self).same_policy(old(self)),
    {
        self.serialize_none();
    }

    pub fn serialize_none(&mut self)
        ensures
            final(self)@ == old(self)@ + seq![NULL_BYTE],
            final(self).same_policy(old(self)),
    {
        self.writer.push(NULL_BYTE);
    }

    /// Writes a variant without payload: its index in the packed format, else
    /// its name.
    pub fn serialize_unit_variant(&mut self, variant_index: u32, variant: &str)
        ensures
            final(self)@ == old(self)@ + variant_item(old(self).is_packed(), variant_index, variant@),
            final(self).same_policy(old(self)),
    {
        if self.packed {
            self.serialize_u32(variant_index);
        } else {
            self.serialize_str(variant);
        }
    }

    fn write_variant_prefix(&mut self, variant_index: u32, variant: &str)
        ensures
            final(self)@ == old(self)@ + variant_prefix(
                old(self).is_packed(),
                old(self).is_enum_as_map(),
                variant_index,
                variant@,
            ),
            final(self).same_policy(old(self)),
    {
        if self.enum_as_map {
            self.write_u64(MAJOR_MAP, 1);
            self.serialize_str(variant);
        } else {
            self.write_u64(MAJOR_ARRAY, 2);
            self.serialize_unit_variant(variant_index, variant);
        }
    }

    /// Writes a variant with one value, `value` being that value encoded.
    pub fn serialize_newtype_variant(&mut self, variant_index: u32, variant: &str, value: &[u8])
        ensures
            final(self)@ == old(self)@ + variant_prefix(
                old(self).is_packed(),
                old(self).is_enum_as_map(),
                variant_index,
                variant@,
            ) + value@,
            final(self).same_policy(old(self)),
    {
        self.write_variant_prefix(variant_index, variant);
        self.write_all(value);
    }

    /// Writes a newtype struct whose inner value is `value`: for a content
    /// identifier, `value` is the identifier's bytes and a link is written;
    /// for any other name, `value` is the inner value already encoded.
    pub fn serialize_newtype_struct(&mut self, name: &str, value: &[u8])
        requires
            value@.len() < usize::MAX,
        ensures
            final(self)@ == old(self)@ + (if name@ == link_name() {
                link_item(value@)
            } else {
                value@
            }),
            final(self).same_policy(old(self)),
    {
        if is_link_name(name) {
            self.serialize_link(value);
        } else {
            self.write_all(value);
        }
    }

    /// Starts a fixed-length sequence: its `len` elements follow.
    pub fn serialize_tuple(&mut self, len: usize)
        ensures
            final(self)@ == old(self)@ + header(MAJOR_ARRAY, len as u64),
            final(self).same_policy(old(self)),
    {
        self.write_u64(MAJOR_ARRAY, len as u64);
    }

    /// Starts a variant with `len` positional fields, which follow: a
    /// one-entry map from the name to an array of the fields, or in the legacy
    /// format one array of the variant's name and the fields.
    pub fn serialize_tuple_variant(&mut self, variant_index: u32, variant: &str, len: usize)
        requires
            len < usize::MAX,
        ensures
            final(self)@ == old(self)@ + (if old(self).is_enum_as_map() {
                header(MAJOR_MAP, 1) + text_item(variant@) + header(MAJOR_ARRAY, len as u64)
            } else {
                header(MAJOR_ARRAY, (len + 1) as u64) + variant_item(
                    old(self).is_packed(),
                    variant_index,
                    variant@,
                )
            }),
            final(self).same_policy(old(self)),
    {
        if self.enum_as_map {
            self.write_u64(MAJOR_MAP, 1);
            self.serialize_str(variant);
            self.serialize_tuple(len);
        } else {
            self.write_u64(MAJOR_ARRAY, (len + 1) as u64);
            self.serialize_unit_variant(variant_index, variant);
        }
    }

    /// Writes a map whose entries (each a key followed by its value) are
    /// given encoded: the number of entries, then the entries sorted by their
    /// bytes.
    pub fn collect_map(&mut self, entries: Vec<Vec<u8>>)
        ensures
            final(self)@ == old(self)@ + map_item(buffers(entries@)),
            final(self).same_policy(old(self)),
    {
        let n = entries.len();
        let sorted = sort_buffers(entries);
        self.write_u64(MAJOR_MAP, n as u64);
        self.write_buffers(&sorted);
    }

    fn write_buffers(&mut self, items: &Vec<Vec<u8>>)
        ensures
            final(self)@ == old(self)@ + buffers(items@).flatten(),
            final(self).same_policy(old(self)),
    {
        let ghost start = self@;
        let mut i: usize = 0;
        while i < items.len()
            invariant
                i <= items@.len(),
                self@ == start + buffers(items@).take(i as int).flatten(),
                self.same_policy(old(self)),
            decreases items@.len() - i,
        {
            proof {
                assert(buffers(items@).take(i + 1) =~= buffers(items@).take(i as int).push(
                    items@[i as int]@,
                ));
                buffers(items@).take(i as int).lemma_flatten_push(items@[i as int]@);
            }
            self.write_all(items[i].as_slice());
            i = i + 1;
        }
        assert(buffers(items@).take(i as int) =~= buffers(items@));
    }

    /// Starts a struct; its fields are given to the returned serializer.
    pub fn serialize_struct(self) -> (r: StructSerializer)
        ensures
            r.inner()@ == self@,
            r.inner().same_policy(&self),
            r.index() == 0,
            r.entries() == Seq::<Seq<u8>>::empty(),
    {
        StructSerializer { ser: self, idx: 0, entries: Vec::new() }
    }

    /// Starts a struct-like enum variant: writes the variant's head, and
    /// returns the serializer for its fields.
    pub fn serialize_struct_variant(self, variant_index: u32, variant: &str) -> (r:
        StructSerializer)
        ensures
            r.inner()@ == self@ + (if self.is_enum_as_map() {
                header(MAJOR_MAP, 1)
            } else {
                header(MAJOR_ARRAY, 2)
            }) + variant_item(self.is_packed(), variant_index, variant@),
            r.inner().same_policy(&self),
            r.index() == 0,
            r.entries() == Seq::<Seq<u8>>::empty(),
    {
        let mut s = self;
        if s.enum_as_map {
            s.write_u64(MAJOR_MAP, 1);
        } else {
            s.write_u64(MAJOR_ARRAY, 2);
        }
        s.serialize_unit_variant(variant_index, variant);
        StructSerializer { ser: s, idx: 0, entries: Vec::new() }
    }

    /// Starts a sequence (`major` 4) or a map (`major` 5) whose length need
    /// not be known in advance: elements or entries go to the returned
    /// serializer, which writes the definite length at the end.
    pub fn serialize_collection(self, major: u8) -> (r: CollectionSerializer)
        requires
            major == MAJOR_ARRAY || major == MAJOR_MAP,
        ensures
            r.inner()@ == self@,
            r.inner().same_policy(&self),
            r.major() == major,
            r.wf(),
            r.items() == Seq::<Seq<u8>>::empty(),
    {
        CollectionSerializer { ser: self, major, items: Vec::new() }
    }
}

/// Serializes the fields of a struct: each field becomes a map entry keyed by
/// the field's name, or by its index in the packed format.
pub struct StructSerializer {
    ser: Serializer,
    idx: u32,
    entries: Vec<Vec<u8>>,
}

impl StructSerializer {
    /// The serializer that the struct is written to at the end.
    pub closed spec fn inner(&self) -> Serializer {
        self.ser
    }

    /// The index of the next field.
    pub closed spec fn index(&self) -> u32 {
        self.idx
    }

    /// The entries so far, each encoded.
    pub closed spec fn entries(&self) -> Seq<Seq<u8>> {
        buffers(self.entries@)
    }

    /// Adds a field whose encoded value is `value`.
    pub fn serialize_field_inner(&mut self, key: &str, value: &[u8])
        requires
            old(self).index() < u32::MAX,
        ensures
            final(self).entries() == old(self).entries().push(
                (if old(self).inner().is_packed() {
                    int_item(old(self).index() as int)
                } else {
                    text_item(key@)
                }) + value@,
            ),
            final(self).index() == old(self).index() + 1,
            final(self).inner() == old(self).inner(),
    {
        let mut e = self.ser.fresh();
        if self.ser.packed {
            e.serialize_u32(self.idx);
        } else {
            e.serialize_str(key);
        }
        e.write_all(value);
        let entry = e.into_inner();
        self.entries.push(entry);
        self.idx = self.idx + 1;
        proof {
            assert(buffers(self.entries@) =~= buffers(old(self).entries@).push(entry@));
        }
    }

    /// Skips a field, which still takes up its index.
    pub fn skip_field_inner(&mut self, _key: &str)
        requires
            old(self).index() < u32::MAX,
        ensures
            final(self).entries() == old(self).entries(),
            final(self).index() == old(self).index() + 1,
            final(self).inner() == old(self).inner(),
    {
        self.idx = self.idx + 1;
    }

    /// Ends the struct: writes it as a canonical map of its fields.
    pub fn end_inner(self) -> (r: Serializer)
        ensures
            r@ == self.inner()@ + map_item(self.entries()),
            r.same_policy(&self.inner()),
    {
        let mut s = self.ser;
        s.collect_map(self.entries);
        s
    }
}

/// Serializes a sequence or a map whose length is counted as it is filled.
pub struct CollectionSerializer {
    ser: Serializer,
    major: u8,
    items: Vec<Vec<u8>>,
}

impl CollectionSerializer {
    /// The serializer that the collection is written to at the end.
    pub closed spec fn inner(&self) -> Serializer {
        self.ser
    }

    /// 4 for a sequence, 5 for a map.
    pub closed spec fn major(&self) -> u8 {
        self.major
    }

    /// The elements, or the map entries, so far, each encoded.
    pub closed spec fn items(&self) -> Seq<Seq<u8>> {
        buffers(self.items@)
    }

    /// The collection is a sequence or a map.
    pub closed spec fn wf(&self) -> bool {
        self.major == MAJOR_ARRAY || self.major == MAJOR_MAP
    }

    /// Adds an element whose encoding is `value`.
    pub fn serialize_element(&mut self, value: &[u8])
        ensures
            final(self).items() == old(self).items().push(value@),
            final(self).major() == old(self).major(),
            final(self).wf() == old(self).wf(),
            final(self).inner() == old(self).inner(),
    {
        let mut v: Vec<u8> = Vec::new();
        v.extend_from_slice(value);
        assert(v@ =~= value@);
        self.items.push(v);
        proof {
            assert(buffers(self.items@) =~= buffers(old(self).items@).push(value@));
        }
    }

    /// Starts a map entry with the key whose encoding is `key`.
    pub fn serialize_key(&mut self, key: &[u8])
        ensures
            final(self).items() == old(self).items().push(key@),
            final(self).major() == old(self).major(),
            final(self).wf() == old(self).wf(),
            final(self).inner() == old(self).inner(),
    {
        self.serialize_element(key);
    }

    /// Completes the last map entry with the value whose encoding is `value`.
    pub fn serialize_value(&mut self, value: &[u8])
        requires
            old(self).items().len() > 0,
        ensures
            final(self).items() == old(self).items().drop_last().push(
                old(self).items().last() + value@,
            ),
            final(self).major() == old(self).major(),
            final(self).wf() == old(self).wf(),
            final(self).inner() == old(self).inner(),
    {
        let mut last = self.items.pop().unwrap();
        assert(last@ == buffers(old(self).items@).last());
        assert(buffers(self.items@) =~= buffers(old(self).items@).drop_last());
        let ghost mid = self.items@;
        let ghost before = last@;
        last.extend_from_slice(value);
        assert(last@ == before + value@);
        self.items.push(last);
        proof {
            assert(buffers(self.items@) =~= buffers(mid).push(before + value@));
            assert(buffers(self.items@) =~= buffers(old(self).items@).drop_last().push(
                buffers(old(self).items@).last() + value@,
            ));
        }
    }

    /// Ends the collection: a sequence is written with its length and its
    /// elements in order; a map with its length and its entries in canonical
    /// order.
    pub fn end_inner(self) -> (r: Serializer)
        requires
            self.wf(),
        ensures
            r@ == self.inner()@ + (if self.major() == MAJOR_MAP {
                map_item(self.items())
            } else {
                array_item(self.items())
            }),
            r.same_policy(&self.inner()),
    {
        let mut s = self.ser;
        if self.major == MAJOR_MAP {
            s.collect_map(self.items);
        } else {
            s.write_u64(MAJOR_ARRAY, self.items.len() as u64);
            s.write_buffers(&self.items);
        }
        s
    }
}

} // verus!
