//! The value tree that the codec moves between bytes and memory.

use vstd::prelude::*;
use crate::error::EncodeError;
use crate::header::header;
use crate::order::{buffers, lemma_lex_antisym, lemma_lex_refl, lex_le_exec};
use crate::ser::{
    bool_item, bytes_item, finite_bits, float_item, int_item, link_item, map_item, max_int,
    min_int, text_item, Serializer, MAJOR_ARRAY, NULL_BYTE,
};
use vstd::utf8::encode_utf8_decode_utf8;

verus! {

/// The mathematical model of a value.
pub enum Value {
    Null,
    Bool(bool),
    Integer(int),
    Float(u64),
    String(Seq<char>),
    Bytes(Seq<u8>),
    List(Seq<Value>),
    Dict(Seq<(Seq<char>, Value)>),
    Link(Seq<u8>),
}

/// A value: null, a boolean, an integer, a double precision float (held as
/// its IEEE-754 bits), a text string, a byte string, a list, a map from text
/// keys, or a link to a content identifier (held as the identifier's bytes).
#[derive(Debug, PartialEq, Eq)]
pub enum Ipld {
    Null,
    Bool(bool),
    Integer(i128),
    Float(u64),
    String(String),
    Bytes(Vec<u8>),
    List(Vec<Ipld>),
    Dict(Vec<(String, Ipld)>),
    Link(Vec<u8>),
}

impl View for Ipld {
    type V = Value;

    open spec fn view(&self) -> Value {
        model(*self)
    }
}

/// The model of a value.
pub open spec fn model(v: Ipld) -> Value
    decreases v,
{
    match v {
        Ipld::Null => Value::Null,
        Ipld::Bool(b) => Value::Bool(b),
        Ipld::Integer(n) => Value::Integer(n as int),
        Ipld::Float(f) => Value::Float(f),
        Ipld::String(s) => Value::String(s@),
        Ipld::Bytes(b) => Value::Bytes(b@),
        Ipld::List(items) => Value::List(
            Seq::new(items@.len(), |i: int| if 0 <= i < items@.len() {
                model(items@[i])
            } else {
                Value::Null
            }),
        ),
        Ipld::Dict(entries) => Value::Dict(
            Seq::new(entries@.len(), |i: int| if 0 <= i < entries@.len() {
                (entries@[i].0@, model(entries@[i].1))
            } else {
                (Seq::empty(), Value::Null)
            }),
        ),
        Ipld::Link(c) => Value::Link(c@),
    }
}

/// The model of a list is the models of its elements.
pub proof fn lemma_list_view(items: Vec<Ipld>)
    ensures
        Ipld::List(items)@ is List,
        Ipld::List(items)@->List_0.len() == items@.len(),
        forall|i: int|
            0 <= i < items@.len() ==> #[trigger] Ipld::List(items)@->List_0[i] == items@[i]@,
{
    let m = Ipld::List(items)@;
    assert forall|i: int| 0 <= i < items@.len() implies #[trigger] m->List_0[i] == items@[i]@ by {
    }
}

/// The model of a map is its keys and the models of its values.
pub proof fn lemma_dict_view(entries: Vec<(String, Ipld)>)
    ensures
        Ipld::Dict(entries)@ is Dict,
        Ipld::Dict(entries)@->Dict_0.len() == entries@.len(),
        forall|i: int|
            0 <= i < entries@.len() ==> #[trigger] Ipld::Dict(entries)@->Dict_0[i] == (
                entries@[i].0@,
                entries@[i].1@,
            ),
{
    let m = Ipld::Dict(entries)@;
    assert forall|i: int| 0 <= i < entries@.len() implies #[trigger] m->Dict_0[i] == (
        entries@[i].0@,
        entries@[i].1@,
    ) by {}
}

/// The keys of a map's entries are pairwise distinct.
pub open spec fn distinct_keys(entries: Seq<(Seq<char>, Value)>) -> bool {
    forall|i: int, j: int|
        0 <= i < j < entries.len() ==> #[trigger] entries[i].0 != #[trigger] entries[j].0
}

/// The value can be encoded: every integer lies in `-(2^64) ..= 2^64 - 1`,
/// every float is finite, no map repeats a key, and a link's length plus
/// the prefix byte fits the machine's sizes.
pub open spec fn encodable(v: Value) -> bool
    decreases v,
{
    match v {
        Value::Integer(n) => min_int() <= n <= max_int(),
        Value::Float(bits) => finite_bits(bits),
        Value::Link(c) => c.len() < usize::MAX,
        Value::List(items) => forall|i: int| 0 <= i < items.len() ==> encodable(#[trigger] items[i]),
        Value::Dict(entries) => distinct_keys(entries) && forall|i: int|
            0 <= i < entries.len() ==> encodable(#[trigger] entries[i].1),
        _ => true,
    }
}

/// Why a value cannot be encoded: the first offending part met in the order
/// of encoding, with a map's keys checked before its values.
pub open spec fn encode_error(v: Value) -> Option<EncodeError>
    decreases v,
{
    match v {
        Value::Integer(n) => if min_int() <= n <= max_int() {
            None
        } else {
            Some(EncodeError::OutOfRange)
        },
        Value::Float(bits) => if finite_bits(bits) {
            None
        } else {
            Some(EncodeError::NonFiniteFloat)
        },
        Value::Link(c) => if c.len() < usize::MAX {
            None
        } else {
            Some(EncodeError::OutOfRange)
        },
        Value::List(items) => items_error(items),
        Value::Dict(entries) => if distinct_keys(entries) {
            entries_error(entries)
        } else {
            Some(EncodeError::DuplicateKey)
        },
        _ => None,
    }
}

/// The first error among the elements of a list.
pub open spec fn items_error(items: Seq<Value>) -> Option<EncodeError>
    decreases items,
{
    if items.len() == 0 {
        None
    } else if encode_error(items[0]) is Some {
        encode_error(items[0])
    } else {
        items_error(items.drop_first())
    }
}

/// The first error among the values of a map.
pub open spec fn entries_error(entries: Seq<(Seq<char>, Value)>) -> Option<EncodeError>
    decreases entries,
{
    if entries.len() == 0 {
        None
    } else if encode_error(entries[0].1) is Some {
        encode_error(entries[0].1)
    } else {
        entries_error(entries.drop_first())
    }
}

/// A value can be encoded exactly when it has no first error.
pub proof fn lemma_encode_error(v: Value)
    ensures
        encode_error(v) is None <==> encodable(v),
    decreases v, 0nat,
{
    match v {
        Value::List(items) => {
            lemma_items_error(items, 0);
            assert(items.skip(0) =~= items);
        },
        Value::Dict(entries) => {
            lemma_entries_error(entries, 0);
            assert(entries.skip(0) =~= entries);
        },
        _ => {},
    }
}

/// Past elements that can be encoded, the first error of a list is that of
/// the rest; there is none exactly when every element from `k` on can be
/// encoded.
pub proof fn lemma_items_error(items: Seq<Value>, k: int)
    requires
        0 <= k <= items.len(),
    ensures
        items_error(items.skip(k)) is None <==> forall|i: int|
            k <= i < items.len() ==> encodable(#[trigger] items[i]),
    decreases items, items.len() - k + 1,
{
    if k < items.len() {
        assert(items.skip(k).drop_first() =~= items.skip(k + 1));
        assert(items.skip(k)[0] == items[k]);
        lemma_encode_error(items[k]);
        lemma_items_error(items, k + 1);
    }
}

/// As `lemma_items_error`, for the values of a map.
pub proof fn lemma_entries_error(entries: Seq<(Seq<char>, Value)>, k: int)
    requires
        0 <= k <= entries.len(),
    ensures
        entries_error(entries.skip(k)) is None <==> forall|i: int|
            k <= i < entries.len() ==> encodable(#[trigger] entries[i].1),
    decreases entries, entries.len() - k + 1,
{
    if k < entries.len() {
        assert(entries.skip(k).drop_first() =~= entries.skip(k + 1));
        assert(entries.skip(k)[0] == entries[k]);
        assert(decreases_to!(entries => entries[k]));
        lemma_encode_error(entries[k].1);
        lemma_entries_error(entries, k + 1);
    }
}

/// Where the first `k` elements can be encoded, the first error of a list
/// lies in the rest.
proof fn lemma_items_error_prefix(items: Seq<Value>, k: int)
    requires
        0 <= k <= items.len(),
        forall|i: int| 0 <= i < k ==> encodable(#[trigger] items[i]),
    ensures
        items_error(items) == items_error(items.skip(k)),
    decreases k,
{
    if k > 0 {
        assert(items.skip(0) =~= items);
        lemma_encode_error(items[0]);
        let rest = items.drop_first();
        assert forall|i: int| 0 <= i < k - 1 implies encodable(#[trigger] rest[i]) by {
            assert(rest[i] == items[i + 1]);
        }
        lemma_items_error_prefix(rest, k - 1);
        assert(rest.skip(k - 1) =~= items.skip(k));
    } else {
        assert(items.skip(0) =~= items);
    }
}

/// As `lemma_items_error_prefix`, for the values of a map.
proof fn lemma_entries_error_prefix(entries: Seq<(Seq<char>, Value)>, k: int)
    requires
        0 <= k <= entries.len(),
        forall|i: int| 0 <= i < k ==> encodable(#[trigger] entries[i].1),
    ensures
        entries_error(entries) == entries_error(entries.skip(k)),
    decreases k,
{
    if k > 0 {
        lemma_encode_error(entries[0].1);
        let rest = entries.drop_first();
        assert forall|i: int| 0 <= i < k - 1 implies encodable(#[trigger] rest[i].1) by {
            assert(rest[i] == entries[i + 1]);
        }
        lemma_entries_error_prefix(rest, k - 1);
        assert(rest.skip(k - 1) =~= entries.skip(k));
    } else {
        assert(entries.skip(0) =~= entries);
    }
}

/// The encoding of each element of a list.
pub open spec fn item_bufs(items: Seq<Value>) -> Seq<Seq<u8>>
    decreases items,
{
    Seq::new(items.len(), |i: int| if 0 <= i < items.len() {
        encode(items[i])
    } else {
        Seq::empty()
    })
}

/// The encoding of each entry of a map: the key, then the value.
pub open spec fn entry_bufs(entries: Seq<(Seq<char>, Value)>) -> Seq<Seq<u8>>
    decreases entries,
{
    Seq::new(entries.len(), |i: int| if 0 <= i < entries.len() {
        text_item(entries[i].0) + encode(entries[i].1)
    } else {
        Seq::empty()
    })
}

/// The canonical encoding of a value.
pub open spec fn encode(v: Value) -> Seq<u8>
    decreases v,
{
    match v {
        Value::Null => seq![NULL_BYTE],
        Value::Bool(b) => bool_item(b),
        Value::Integer(n) => int_item(n),
        Value::Float(bits) => float_item(bits),
        Value::String(s) => text_item(s),
        Value::Bytes(b) => bytes_item(b),
        Value::List(items) => header(MAJOR_ARRAY, items.len() as u64) + item_bufs(items).flatten(),
        Value::Dict(entries) => map_item(entry_bufs(entries)),
        Value::Link(c) => link_item(c),
    }
}

/// Two strings are equal.
pub(crate) fn str_eq(a: &str, b: &str) -> (r: bool)
    ensures
        r == (a@ == b@),
{
    let x = a.as_bytes();
    let y = b.as_bytes();
    let r = lex_le_exec(x, y) && lex_le_exec(y, x);
    proof {
        if r {
            lemma_lex_antisym(x@, y@);
            encode_utf8_decode_utf8(a@);
            encode_utf8_decode_utf8(b@);
        }
        if a@ == b@ {
            lemma_lex_refl(x@);
        }
    }
    r
}

/// No two entries share a key.
fn keys_distinct(entries: &Vec<(String, Ipld)>) -> (r: bool)
    ensures
        r == distinct_keys(Ipld::Dict(*entries)@->Dict_0),
{
    let ghost es = Ipld::Dict(*entries)@->Dict_0;
    let n = entries.len();
    let mut j: usize = 0;
    while j < n
        invariant
            n == entries@.len(),
            es == Ipld::Dict(*entries)@->Dict_0,
            j <= n,
            forall|a: int, b: int| 0 <= a < b < j ==> #[trigger] es[a].0 != #[trigger] es[b].0,
        decreases n - j,
    {
        let mut i: usize = 0;
        while i < j
            invariant
                n == entries@.len(),
                es == Ipld::Dict(*entries)@->Dict_0,
                i <= j < n,
                forall|a: int| 0 <= a < i ==> #[trigger] es[a].0 != es[j as int].0,
            decreases j - i,
        {
            if str_eq(entries[i].0.as_str(), entries[j].0.as_str()) {
                assert(es[i as int].0 == es[j as int].0);
                return false;
            }
            i = i + 1;
        }
        j = j + 1;
    }
    true
}

/// Appends the canonical encoding of `v`; fails where `v` cannot be encoded.
pub fn encode_into(v: &Ipld, ser: &mut Serializer) -> (r: Result<(), EncodeError>)
    ensures
        r is Ok <==> encodable(v@),
        r is Ok ==> final(ser)@ == old(ser)@ + encode(v@),
        r is Err ==> encode_error(v@) == Some(r->Err_0),
        final(ser).same_policy(old(ser)),
    decreases v,
{
    proof {
        lemma_encode_error(v@);
    }
    match v {
        Ipld::Null => {
            ser.serialize_none();
            Ok(())
        },
        Ipld::Bool(b) => {
            ser.serialize_bool(*b);
            Ok(())
        },
        Ipld::Integer(n) => ser.serialize_i128(*n),
        Ipld::Float(bits) => ser.serialize_f64(*bits),
        Ipld::String(s) => {
            ser.serialize_str(s.as_str());
            Ok(())
        },
        Ipld::Bytes(b) => {
            ser.serialize_bytes(b.as_slice());
            Ok(())
        },
        Ipld::Link(c) => {
            if c.len() == usize::MAX {
                return Err(EncodeError::OutOfRange);
            }
            ser.serialize_link(c.as_slice());
            Ok(())
        },
        Ipld::List(items) => {
            proof {
                lemma_list_view(*items);
            }
            let ghost vs = v@->List_0;
            let ghost bufs = item_bufs(vs);
            let ghost start = ser@;
            ser.write_u64(MAJOR_ARRAY, items.len() as u64);
            let mut i: usize = 0;
            while i < items.len()
                invariant
                    *v == Ipld::List(*items),
                    i <= items@.len(),
                    vs == v@->List_0,
                    vs.len() == items@.len(),
                    bufs == item_bufs(vs),
                    forall|k: int| 0 <= k < i ==> encodable(#[trigger] vs[k]),
                    ser@ == start + header(MAJOR_ARRAY, items@.len() as u64) + bufs.take(
                        i as int,
                    ).flatten(),
                    ser.same_policy(old(ser)),
                decreases items@.len() - i,
            {
                assert(vs[i as int] == items@[i as int]@);
                assert(decreases_to!(*v => *items));
                assert(decreases_to!(*items => items@));
                assert(decreases_to!(items@ => items@[i as int]));
                let r = encode_into(&items[i], ser);
                if let Err(e) = r {
                    proof {
                        lemma_items_error(vs, i as int);
                        assert(items_error(vs) == items_error(vs.skip(i as int))) by {
                            lemma_items_error_prefix(vs, i as int);
                        }
                        assert(vs.skip(i as int)[0] == vs[i as int]);
                    }
                    return Err(e);
                }
                proof {
                    assert(bufs.take(i + 1) =~= bufs.take(i as int).push(bufs[i as int]));
                    bufs.take(i as int).lemma_flatten_push(bufs[i as int]);
                }
                i = i + 1;
            }
            assert(bufs.take(i as int) =~= bufs);
            Ok(())
        },
        Ipld::Dict(entries) => {
            proof {
                lemma_dict_view(*entries);
            }
            let ghost es = v@->Dict_0;
            let ghost bufs = entry_bufs(es);
            if !keys_distinct(entries) {
                return Err(EncodeError::DuplicateKey);
            }
            proof {
                lemma_entries_error(es, 0);
                assert(es.skip(0) =~= es);
            }
            let mut out: Vec<Vec<u8>> = Vec::new();
            let mut i: usize = 0;
            while i < entries.len()
                invariant
                    *v == Ipld::Dict(*entries),
                    i <= entries@.len(),
                    es == v@->Dict_0,
                    distinct_keys(es),
                    es.len() == entries@.len(),
                    bufs == entry_bufs(es),
                    forall|k: int| 0 <= k < i ==> encodable(#[trigger] es[k].1),
                    buffers(out@) == bufs.take(i as int),
                    ser.same_policy(old(ser)),
                    *ser == *old(ser),
                decreases entries@.len() - i,
            {
                assert(es[i as int].1 == entries@[i as int].1@);
                assert(decreases_to!(*v => *entries));
                assert(decreases_to!(*entries => entries@));
                assert(decreases_to!(entries@ => entries@[i as int]));
                assert(decreases_to!(entries@[i as int] => entries@[i as int].1));
                let mut e = ser.fresh();
                e.serialize_str(entries[i].0.as_str());
                let r = encode_into(&entries[i].1, &mut e);
                if let Err(err) = r {
                    proof {
                        assert(entries_error(es) == entries_error(es.skip(i as int))) by {
                            lemma_entries_error_prefix(es, i as int);
                        }
                        assert(es.skip(i as int)[0] == es[i as int]);
                    }
                    return Err(err);
                }
                let buf = e.into_inner();
                assert(buf@ == bufs[i as int]);
                let ghost prev = out@;
                out.push(buf);
                assert(buffers(out@) =~= buffers(prev).push(buf@));
                assert(bufs.take(i + 1) =~= bufs.take(i as int).push(bufs[i as int]));
                assert(buffers(out@) =~= bufs.take(i + 1));
                i = i + 1;
            }
            assert(bufs.take(i as int) =~= bufs);
            ser.collect_map(out);
            Ok(())
        },
    }
}

/// Serializes a value to a vector of bytes.
pub fn to_vec(value: &Ipld) -> (r: Result<Vec<u8>, EncodeError>)
    ensures
        r is Ok <==> encodable(value@),
        r is Ok ==> r->Ok_0@ == encode(value@),
        r is Err ==> encode_error(value@) == Some(r->Err_0),
{
    let mut ser = Serializer::new(Vec::new());
    match encode_into(value, &mut ser) {
        Ok(()) => Ok(ser.into_inner()),
        Err(e) => Err(e),
    }
}

/// Serializes a value to a vector of bytes in the packed format. A value
/// tree has no field or variant names, so the bytes are those of `to_vec`.
pub fn to_vec_packed(value: &Ipld) -> (r: Result<Vec<u8>, EncodeError>)
    ensures
        r is Ok <==> encodable(value@),
        r is Ok ==> r->Ok_0@ == encode(value@),
        r is Err ==> encode_error(value@) == Some(r->Err_0),
{
    let mut ser = Serializer::new(Vec::new()).packed_format();
    match encode_into(value, &mut ser) {
        Ok(()) => Ok(ser.into_inner()),
        Err(e) => Err(e),
    }
}

} // verus!
