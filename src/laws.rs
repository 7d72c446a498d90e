//! What holds of encoding and decoding together: the canonical encoding
//! decodes back to the value it came from, re-encoding changes nothing, and
//! the order in which map entries are handed over does not show in the bytes.

use vstd::prelude::*;
use crate::de::head_at;
use crate::de::{decode, key_follows, parse, parse_entries, parse_list, MAX_DEPTH};
use crate::header::{be2, be4, be8, be_value, header, initial, lemma_be2, lemma_be4, lemma_be8};
use crate::ipld::{distinct_keys, encodable, encode, entry_bufs, item_bufs, Value};
use crate::order::{lemma_lex_total_ordering, lex_le, lex_leq, lex_lt};
use crate::ser::{
    canonical_entries, finite_bits, map_item, max_int, min_int, text_item, MAJOR_ARRAY,
    MAJOR_BYTES, MAJOR_MAP, MAJOR_TAG, MAJOR_TEXT,
};
use vstd::utf8::{encode_utf8, encode_utf8_decode_utf8, encode_utf8_valid_utf8};

verus! {

/// A canonical head is read back as the major type and argument it was
/// written from, wherever it stands in the input.
pub proof fn lemma_head_at_header(s: Seq<u8>, pos: int, major: u8, n: u64)
    requires
        major < 8,
        0 <= pos,
        pos + header(major, n).len() <= s.len(),
        s.subrange(pos, pos + header(major, n).len()) == header(major, n),
    ensures
        s[pos] / 32 == major,
        s[pos] % 32 < 28,
        head_at(s, pos) == Some((n, pos + header(major, n).len())),
{
    let h = header(major, n);
    assert(s[pos] == h[0]);
    let hl = h.len() as int;
    if n <= 23 {
        assert(s[pos] == initial(major, n as u8));
    } else if n <= 0xff {
        assert(s[pos] == initial(major, 24));
        assert(s.subrange(pos + 1, pos + 2) =~= s.subrange(pos, pos + hl).subrange(1, 2));
        let arg = s.subrange(pos + 1, pos + 2);
        assert(arg =~= seq![n as u8]);
        assert(arg.drop_last() =~= Seq::<u8>::empty());
        assert(be_value(Seq::<u8>::empty()) == 0);
    } else if n <= 0xffff {
        assert(s[pos] == initial(major, 25));
        assert(h.subrange(1, 3) =~= be2(n as nat));
        assert(s.subrange(pos + 1, pos + 3) =~= s.subrange(pos, pos + hl).subrange(1, 3));
        assert(s.subrange(pos + 1, pos + 3) == be2(n as nat));
        lemma_be2(n as nat);
    } else if n <= 0xffff_ffff {
        assert(s[pos] == initial(major, 26));
        assert(h.subrange(1, 5) =~= be4(n as nat));
        assert(s.subrange(pos + 1, pos + 5) =~= s.subrange(pos, pos + hl).subrange(1, 5));
        assert(s.subrange(pos + 1, pos + 5) == be4(n as nat));
        lemma_be4(n as nat);
    } else {
        assert(s[pos] == initial(major, 27));
        assert(h.subrange(1, 9) =~= be8(n as nat));
        assert(s.subrange(pos + 1, pos + 9) =~= s.subrange(pos, pos + hl).subrange(1, 9));
        assert(s.subrange(pos + 1, pos + 9) == be8(n as nat));
        lemma_be8(n as nat);
    }
}

/// `a` is a prefix of `b`.
pub open spec fn is_prefix(a: Seq<u8>, b: Seq<u8>) -> bool {
    a.len() <= b.len() && b.subrange(0, a.len() as int) == a
}

/// Map keys are ordered by their encodings: shorter keys first, keys of
/// one length by their bytes.
pub open spec fn key_lt(a: Seq<char>, b: Seq<char>) -> bool {
    lex_lt(text_item(a), text_item(b))
}

/// A map's keys are in strictly ascending canonical order.
pub open spec fn keys_ascending(entries: Seq<(Seq<char>, Value)>) -> bool {
    forall|i: int, j: int|
        0 <= i < j < entries.len() ==> key_lt(#[trigger] entries[i].0, #[trigger] entries[j].0)
}

/// The length of a string or a container fits the 64-bit argument of its head.
pub open spec fn fits_u64(n: nat) -> bool {
    n <= u64::MAX
}

/// The value is in canonical form: it can be encoded, every length fits in
/// a head, and the entries of every map stand in canonical key order, the
/// order in which they are encoded and decoded.
pub open spec fn canonical(v: Value) -> bool
    decreases v,
{
    match v {
        Value::Integer(n) => min_int() <= n <= max_int(),
        Value::Float(bits) => finite_bits(bits),
        Value::String(t) => fits_u64(encode_utf8(t).len()),
        Value::Bytes(b) => fits_u64(b.len()),
        Value::Link(c) => c.len() < usize::MAX,
        Value::List(items) => fits_u64(items.len()) && forall|i: int|
            0 <= i < items.len() ==> canonical(#[trigger] items[i]),
        Value::Dict(entries) => fits_u64(entries.len()) && keys_ascending(entries) && forall|i: int|
            0 <= i < entries.len() ==> fits_u64(encode_utf8(#[trigger] entries[i].0).len())
                && canonical(entries[i].1),
        _ => true,
    }
}

/// Arrays, maps and links nest at most `d` deep in the value.
pub open spec fn nests_within(v: Value, d: nat) -> bool
    decreases v,
{
    match v {
        Value::List(items) => d >= 1 && forall|i: int|
            0 <= i < items.len() ==> nests_within(#[trigger] items[i], (d - 1) as nat),
        Value::Dict(entries) => d >= 1 && forall|i: int|
            0 <= i < entries.len() ==> nests_within(#[trigger] entries[i].1, (d - 1) as nat),
        Value::Link(_) => d >= 1,
        _ => true,
    }
}

/// No text encoding is a proper prefix of another: the head fixes the length.
pub proof fn lemma_text_prefix_free(k1: Seq<char>, k2: Seq<char>)
    requires
        fits_u64(encode_utf8(k1).len()),
        fits_u64(encode_utf8(k2).len()),
        is_prefix(text_item(k1), text_item(k2)),
    ensures
        text_item(k1) == text_item(k2),
{
    let t1 = text_item(k1);
    let t2 = text_item(k2);
    let n1 = encode_utf8(k1).len() as u64;
    let n2 = encode_utf8(k2).len() as u64;
    let h1 = header(MAJOR_TEXT, n1);
    let h2 = header(MAJOR_TEXT, n2);
    assert(t2.subrange(0, h1.len() as int) =~= t1.subrange(0, h1.len() as int));
    assert(t1.subrange(0, h1.len() as int) =~= h1);
    lemma_head_at_header(t2, 0, MAJOR_TEXT, n1);
    assert(t2.subrange(0, h2.len() as int) =~= h2);
    lemma_head_at_header(t2, 0, MAJOR_TEXT, n2);
    assert(t1 =~= t2);
}

/// Where `a` comes before `b` without being a prefix of it, whatever follows
/// either keeps the order.
pub proof fn lemma_lex_concat(a: Seq<u8>, b: Seq<u8>, x: Seq<u8>, y: Seq<u8>)
    requires
        lex_le(a, b),
        !is_prefix(a, b),
    ensures
        lex_le(a + x, b + y),
    decreases a.len(),
{
    if a.len() == 0 {
        assert(b.subrange(0, 0) =~= a);
    } else if a[0] == b[0] {
        assert((a + x).drop_first() =~= a.drop_first() + x);
        assert((b + y).drop_first() =~= b.drop_first() + y);
        if is_prefix(a.drop_first(), b.drop_first()) {
            let bs = b.drop_first().subrange(0, a.len() - 1);
            assert(bs == a.drop_first());
            assert forall|i: int| 0 <= i < a.len() implies b.subrange(0, a.len() as int)[i]
                == a[i] by {
                if i > 0 {
                    assert(bs[i - 1] == a.drop_first()[i - 1]);
                }
            }
            assert(b.subrange(0, a.len() as int) =~= a);
        }
        lemma_lex_concat(a.drop_first(), b.drop_first(), x, y);
    }
}

/// The entries of a map in canonical key order are already sorted by their
/// encodings, so sorting them changes nothing.
pub proof fn lemma_canonical_entries_sorted(entries: Seq<(Seq<char>, Value)>)
    requires
        keys_ascending(entries),
        forall|i: int|
            0 <= i < entries.len() ==> fits_u64(encode_utf8(#[trigger] entries[i].0).len()),
    ensures
        canonical_entries(entry_bufs(entries)) == entry_bufs(entries),
{
    let bufs = entry_bufs(entries);
    assert forall|i: int, j: int| 0 <= i < j < bufs.len() implies #[trigger] lex_leq()(
        bufs[i],
        bufs[j],
    ) by {
        let a = text_item(entries[i].0);
        let b = text_item(entries[j].0);
        assert(key_lt(entries[i].0, entries[j].0));
        if is_prefix(a, b) {
            lemma_text_prefix_free(entries[i].0, entries[j].0);
        }
        lemma_lex_concat(a, b, encode(entries[i].1), encode(entries[j].1));
    }
    lemma_lex_total_ordering();
    bufs.lemma_sort_by_ensures(lex_leq());
    vstd::seq_lib::lemma_sorted_unique(bufs, bufs.sort_by(lex_leq()), lex_leq());
}

/// A piece of `s` read through a larger piece that holds it.
proof fn lemma_sub_of_sub(s: Seq<u8>, pos: int, e: Seq<u8>, i: int, j: int)
    requires
        0 <= pos,
        pos + e.len() <= s.len(),
        s.subrange(pos, pos + e.len()) == e,
        0 <= i <= j <= e.len(),
    ensures
        s.subrange(pos + i, pos + j) == e.subrange(i, j),
{
    assert(s.subrange(pos + i, pos + j) =~= s.subrange(pos, pos + e.len()).subrange(i, j));
}

/// The preconditions shared by the cases below: the encoding of `v` stands
/// at `pos` in `s`.
pub open spec fn encoded_at(s: Seq<u8>, pos: int, v: Value) -> bool {
    0 <= pos && pos + encode(v).len() <= s.len() && s.subrange(pos, pos + encode(v).len())
        == encode(v)
}

/// The outcome of decoding `v` from its encoding at `pos`.
pub open spec fn decodes_to(s: Seq<u8>, pos: int, depth: nat, v: Value) -> bool {
    parse(s, pos, depth) == Ok::<(Value, int), crate::error::DecodeError>(
        (v, pos + encode(v).len()),
    )
}

proof fn lemma_parse_int(s: Seq<u8>, pos: int, depth: nat, n: int)
    requires
        min_int() <= n <= max_int(),
        encoded_at(s, pos, Value::Integer(n)),
    ensures
        decodes_to(s, pos, depth, Value::Integer(n)),
{
    if n >= 0 {
        lemma_head_at_header(s, pos, 0, n as u64);
    } else {
        lemma_head_at_header(s, pos, 1, (-(n + 1)) as u64);
    }
}

proof fn lemma_parse_float(s: Seq<u8>, pos: int, depth: nat, bits: u64)
    requires
        encoded_at(s, pos, Value::Float(bits)),
    ensures
        decodes_to(s, pos, depth, Value::Float(bits)),
{
    let e = encode(Value::Float(bits));
    assert(s[pos] == s.subrange(pos, pos + e.len())[0]);
    lemma_sub_of_sub(s, pos, e, 1, 9);
    assert(e.subrange(1, 9) =~= be8(bits as nat));
    lemma_be8(bits as nat);
}

proof fn lemma_parse_text(s: Seq<u8>, pos: int, depth: nat, t: Seq<char>)
    requires
        fits_u64(encode_utf8(t).len()),
        encoded_at(s, pos, Value::String(t)),
    ensures
        decodes_to(s, pos, depth, Value::String(t)),
{
    let e = encode(Value::String(t));
    let body = encode_utf8(t);
    let h = header(MAJOR_TEXT, body.len() as u64);
    lemma_sub_of_sub(s, pos, e, 0, h.len() as int);
    assert(e.subrange(0, h.len() as int) =~= h);
    lemma_head_at_header(s, pos, MAJOR_TEXT, body.len() as u64);
    lemma_sub_of_sub(s, pos, e, h.len() as int, e.len() as int);
    assert(e.subrange(h.len() as int, e.len() as int) =~= body);
    encode_utf8_valid_utf8(t);
    encode_utf8_decode_utf8(t);
}

proof fn lemma_parse_bytes(s: Seq<u8>, pos: int, depth: nat, b: Seq<u8>)
    requires
        fits_u64(b.len()),
        encoded_at(s, pos, Value::Bytes(b)),
    ensures
        decodes_to(s, pos, depth, Value::Bytes(b)),
{
    let e = encode(Value::Bytes(b));
    let h = header(MAJOR_BYTES, b.len() as u64);
    lemma_sub_of_sub(s, pos, e, 0, h.len() as int);
    assert(e.subrange(0, h.len() as int) =~= h);
    lemma_head_at_header(s, pos, MAJOR_BYTES, b.len() as u64);
    lemma_sub_of_sub(s, pos, e, h.len() as int, e.len() as int);
    assert(e.subrange(h.len() as int, e.len() as int) =~= b);
}

proof fn lemma_parse_link(s: Seq<u8>, pos: int, depth: nat, c: Seq<u8>)
    requires
        c.len() < usize::MAX,
        depth < MAX_DEPTH,
        encoded_at(s, pos, Value::Link(c)),
    ensures
        decodes_to(s, pos, depth, Value::Link(c)),
{
    let e = encode(Value::Link(c));
    let h = header(MAJOR_TAG, 42);
    let h2 = header(MAJOR_BYTES, (c.len() + 1) as u64);
    let p = pos + h.len();
    let hh = (h.len() + h2.len()) as int;
    lemma_sub_of_sub(s, pos, e, 0, h.len() as int);
    assert(e.subrange(0, h.len() as int) =~= h);
    lemma_head_at_header(s, pos, MAJOR_TAG, 42);
    lemma_sub_of_sub(s, pos, e, h.len() as int, hh);
    assert(e.subrange(h.len() as int, hh) =~= h2);
    lemma_head_at_header(s, p, MAJOR_BYTES, (c.len() + 1) as u64);
    let q = p + h2.len();
    assert(s[q] == s.subrange(pos, pos + e.len())[hh]);
    lemma_sub_of_sub(s, pos, e, hh + 1, e.len() as int);
    assert(e.subrange(hh + 1, e.len() as int) =~= c);
}

/// The case of a value that holds no other value.
proof fn lemma_parse_scalar(s: Seq<u8>, pos: int, depth: nat, v: Value)
    requires
        !(v is List) && !(v is Dict),
        canonical(v),
        depth <= MAX_DEPTH,
        nests_within(v, (MAX_DEPTH - depth) as nat),
        encoded_at(s, pos, v),
    ensures
        decodes_to(s, pos, depth, v),
{
    let e = encode(v);
    assert(s[pos] == s.subrange(pos, pos + e.len())[0]);
    match v {
        Value::Integer(n) => lemma_parse_int(s, pos, depth, n),
        Value::Float(bits) => lemma_parse_float(s, pos, depth, bits),
        Value::String(t) => lemma_parse_text(s, pos, depth, t),
        Value::Bytes(b) => lemma_parse_bytes(s, pos, depth, b),
        Value::Link(c) => lemma_parse_link(s, pos, depth, c),
        _ => {},
    }
}

/// The canonical encoding of `v`, found at `pos`, decodes to `v` and ends
/// where the encoding ends.
pub proof fn lemma_parse_encoded(s: Seq<u8>, pos: int, depth: nat, v: Value)
    requires
        canonical(v),
        depth <= MAX_DEPTH,
        nests_within(v, (MAX_DEPTH - depth) as nat),
        0 <= pos,
        pos + encode(v).len() <= s.len(),
        s.subrange(pos, pos + encode(v).len()) == encode(v),
    ensures
        parse(s, pos, depth) == Ok::<(Value, int), crate::error::DecodeError>(
            (v, pos + encode(v).len()),
        ),
    decreases v, 0nat,
{
    let e = encode(v);
    match v {
        Value::List(items) => {
            let h = header(MAJOR_ARRAY, items.len() as u64);
            let f = item_bufs(items).flatten();
            lemma_sub_of_sub(s, pos, e, 0, h.len() as int);
            assert(e.subrange(0, h.len() as int) =~= h);
            lemma_head_at_header(s, pos, MAJOR_ARRAY, items.len() as u64);
            assert(item_bufs(items).skip(0) =~= item_bufs(items));
            lemma_sub_of_sub(s, pos, e, h.len() as int, e.len() as int);
            assert(e.subrange(h.len() as int, e.len() as int) =~= f);
            lemma_parse_list_encoded(s, pos + h.len(), depth + 1, items, 0);
            assert(items.take(0) =~= Seq::<Value>::empty());
            assert(items.take(items.len() as int) =~= items);
        },
        Value::Dict(entries) => {
            let h = header(MAJOR_MAP, entries.len() as u64);
            lemma_canonical_entries_sorted(entries);
            let f = entry_bufs(entries).flatten();
            assert(e == h + f);
            lemma_sub_of_sub(s, pos, e, 0, h.len() as int);
            assert(e.subrange(0, h.len() as int) =~= h);
            lemma_head_at_header(s, pos, MAJOR_MAP, entries.len() as u64);
            assert(entry_bufs(entries).skip(0) =~= entry_bufs(entries));
            lemma_sub_of_sub(s, pos, e, h.len() as int, e.len() as int);
            assert(e.subrange(h.len() as int, e.len() as int) =~= f);
            lemma_parse_entries_encoded(s, pos + h.len(), depth + 1, entries, 0);
            assert(entries.take(0) =~= Seq::<(Seq<char>, Value)>::empty());
            assert(entries.take(entries.len() as int) =~= entries);
        },
        _ => {
            lemma_parse_scalar(s, pos, depth, v);
        },
    }
}

/// The encodings of the elements of a list from the `k`-th on, found at
/// `p`, decode to those elements.
#[verifier::rlimit(50)]
pub proof fn lemma_parse_list_encoded(s: Seq<u8>, p: int, depth: nat, items: Seq<Value>, k: nat)
    requires
        k <= items.len(),
        1 <= depth <= MAX_DEPTH,
        forall|i: int| 0 <= i < items.len() ==> canonical(#[trigger] items[i]),
        forall|i: int|
            0 <= i < items.len() ==> nests_within(#[trigger] items[i], (MAX_DEPTH - depth) as nat),
        0 <= p,
        p + item_bufs(items).skip(k as int).flatten().len() <= s.len(),
        s.subrange(p, p + item_bufs(items).skip(k as int).flatten().len()) == item_bufs(
            items,
        ).skip(k as int).flatten(),
    ensures
        parse_list(s, p, (items.len() - k) as nat, depth, items.take(k as int)) == Ok::<
            (Value, int),
            crate::error::DecodeError,
        >((Value::List(items), p + item_bufs(items).skip(k as int).flatten().len())),
    decreases items, items.len() - k + 1,
{
    let bufs = item_bufs(items);
    let f = bufs.skip(k as int).flatten();
    if k == items.len() {
        assert(items.take(k as int) =~= items);
        assert(bufs.skip(k as int) =~= Seq::<Seq<u8>>::empty());
    } else {
        let b = bufs[k as int];
        let rest = bufs.skip((k + 1) as int).flatten();
        assert(bufs.skip(k as int).drop_first() =~= bufs.skip((k + 1) as int));
        assert(f == b + rest);
        assert(s.subrange(p, p + b.len()) =~= f.subrange(0, b.len() as int));
        assert(f.subrange(0, b.len() as int) =~= b);
        lemma_parse_encoded(s, p, depth, items[k as int]);
        assert(s.subrange(p + b.len(), p + b.len() + rest.len()) =~= f.subrange(
            b.len() as int,
            f.len() as int,
        ));
        assert(f.subrange(b.len() as int, f.len() as int) =~= rest);
        lemma_parse_list_encoded(s, p + b.len(), depth, items, k + 1);
        assert(items.take(k as int).push(items[k as int]) =~= items.take((k + 1) as int));
    }
}

/// A key's encoding, found at `p`, starts a text string and decodes to the key.
proof fn lemma_parse_key(s: Seq<u8>, p: int, depth: nat, key: Seq<char>)
    requires
        depth <= MAX_DEPTH,
        fits_u64(encode_utf8(key).len()),
        0 <= p,
        p + text_item(key).len() <= s.len(),
        s.subrange(p, p + text_item(key).len()) == text_item(key),
    ensures
        s[p] / 32 == 3,
        parse(s, p, depth) == Ok::<(Value, int), crate::error::DecodeError>(
            (Value::String(key), p + text_item(key).len()),
        ),
{
    let t = text_item(key);
    assert(encode(Value::String(key)) == t);
    lemma_parse_scalar(s, p, depth, Value::String(key));
    let h = header(MAJOR_TEXT, encode_utf8(key).len() as u64);
    lemma_sub_of_sub(s, p, t, 0, h.len() as int);
    assert(t.subrange(0, h.len() as int) =~= h);
    lemma_head_at_header(s, p, MAJOR_TEXT, encode_utf8(key).len() as u64);
}

/// The encodings of the entries of a map in canonical order from the `k`-th
/// on, found at `p`, decode to those entries.
#[verifier::rlimit(50)]
pub proof fn lemma_parse_entries_encoded(
    s: Seq<u8>,
    p: int,
    depth: nat,
    entries: Seq<(Seq<char>, Value)>,
    k: nat,
)
    requires
        k <= entries.len(),
        1 <= depth <= MAX_DEPTH,
        keys_ascending(entries),
        forall|i: int|
            0 <= i < entries.len() ==> fits_u64(encode_utf8(#[trigger] entries[i].0).len())
                && canonical(entries[i].1),
        forall|i: int|
            0 <= i < entries.len() ==> nests_within(
                #[trigger] entries[i].1,
                (MAX_DEPTH - depth) as nat,
            ),
        0 <= p,
        p + entry_bufs(entries).skip(k as int).flatten().len() <= s.len(),
        s.subrange(p, p + entry_bufs(entries).skip(k as int).flatten().len()) == entry_bufs(
            entries,
        ).skip(k as int).flatten(),
    ensures
        parse_entries(s, p, (entries.len() - k) as nat, depth, entries.take(k as int)) == Ok::<
            (Value, int),
            crate::error::DecodeError,
        >((Value::Dict(entries), p + entry_bufs(entries).skip(k as int).flatten().len())),
    decreases entries, entries.len() - k + 1,
{
    let bufs = entry_bufs(entries);
    let f = bufs.skip(k as int).flatten();
    if k == entries.len() {
        assert(entries.take(k as int) =~= entries);
        assert(bufs.skip(k as int) =~= Seq::<Seq<u8>>::empty());
    } else {
        let key = entries[k as int].0;
        let val = entries[k as int].1;
        let t = text_item(key);
        let ev = encode(val);
        let b = bufs[k as int];
        assert(b == t + ev);
        let rest = bufs.skip((k + 1) as int).flatten();
        assert(bufs.skip(k as int).drop_first() =~= bufs.skip((k + 1) as int));
        assert(f == b + rest);
        // The key.
        lemma_sub_of_sub(s, p, f, 0, t.len() as int);
        assert(f.subrange(0, t.len() as int) =~= t);
        lemma_parse_key(s, p, depth, key);
        if k > 0 {
            assert(entries.take(k as int).last() == entries[k - 1]);
            assert(key_lt(entries[k - 1].0, key));
        }
        assert(key_follows(entries.take(k as int), key));
        // The value.
        lemma_sub_of_sub(s, p, f, t.len() as int, (t.len() + ev.len()) as int);
        assert(f.subrange(t.len() as int, (t.len() + ev.len()) as int) =~= ev);
        assert(decreases_to!(entries => entries[k as int]));
        lemma_parse_encoded(s, p + t.len(), depth, val);
        // The rest.
        lemma_sub_of_sub(s, p, f, b.len() as int, f.len() as int);
        assert(f.subrange(b.len() as int, f.len() as int) =~= rest);
        lemma_parse_entries_encoded(s, p + b.len(), depth, entries, k + 1);
        assert(entries.take(k as int).push((key, val)) =~= entries.take((k + 1) as int));
    }
}

/// Every length in the value fits the argument of a head, and the value can
/// be encoded; its maps may hold their entries in any order.
pub open spec fn well_sized(v: Value) -> bool
    decreases v,
{
    match v {
        Value::Integer(n) => min_int() <= n <= max_int(),
        Value::Float(bits) => finite_bits(bits),
        Value::String(t) => fits_u64(encode_utf8(t).len()),
        Value::Bytes(b) => fits_u64(b.len()),
        Value::Link(c) => c.len() < usize::MAX,
        Value::List(items) => fits_u64(items.len()) && forall|i: int|
            0 <= i < items.len() ==> well_sized(#[trigger] items[i]),
        Value::Dict(entries) => fits_u64(entries.len()) && distinct_keys(entries) && forall|i: int|
            0 <= i < entries.len() ==> fits_u64(encode_utf8(#[trigger] entries[i].0).len())
                && well_sized(entries[i].1),
        _ => true,
    }
}

/// Two keys with the same encoding are the same key.
pub proof fn lemma_text_injective(a: Seq<char>, b: Seq<char>)
    requires
        fits_u64(encode_utf8(a).len()),
        fits_u64(encode_utf8(b).len()),
        text_item(a) == text_item(b),
    ensures
        a == b,
{
    let t = text_item(a);
    let ha = header(MAJOR_TEXT, encode_utf8(a).len() as u64);
    let hb = header(MAJOR_TEXT, encode_utf8(b).len() as u64);
    assert(t.subrange(0, ha.len() as int) =~= ha);
    lemma_head_at_header(t, 0, MAJOR_TEXT, encode_utf8(a).len() as u64);
    assert(text_item(b).subrange(0, hb.len() as int) =~= hb);
    lemma_head_at_header(t, 0, MAJOR_TEXT, encode_utf8(b).len() as u64);
    assert(encode_utf8(a) =~= t.subrange(ha.len() as int, t.len() as int));
    assert(encode_utf8(b) =~= t.subrange(hb.len() as int, t.len() as int));
    encode_utf8_decode_utf8(a);
    encode_utf8_decode_utf8(b);
}

/// Where two key encodings each start the same bytes, they are the same.
pub proof fn lemma_text_split(a: Seq<char>, b: Seq<char>, x: Seq<u8>, y: Seq<u8>)
    requires
        fits_u64(encode_utf8(a).len()),
        fits_u64(encode_utf8(b).len()),
        text_item(a) + x == text_item(b) + y,
    ensures
        a == b,
{
    let ta = text_item(a);
    let tb = text_item(b);
    if ta.len() <= tb.len() {
        assert(tb.subrange(0, ta.len() as int) =~= (tb + y).subrange(0, ta.len() as int));
        assert(ta =~= (ta + x).subrange(0, ta.len() as int));
        lemma_text_prefix_free(a, b);
    } else {
        assert(ta.subrange(0, tb.len() as int) =~= (ta + x).subrange(0, tb.len() as int));
        assert(tb =~= (tb + y).subrange(0, tb.len() as int));
        lemma_text_prefix_free(b, a);
    }
    lemma_text_injective(a, b);
}

/// Where neither of `a` and `b` is a prefix of the other, the order of
/// anything that starts with them is the order of `a` and `b`.
pub proof fn lemma_lex_concat_converse(a: Seq<u8>, b: Seq<u8>, x: Seq<u8>, y: Seq<u8>)
    requires
        lex_le(a + x, b + y),
        !is_prefix(a, b),
        !is_prefix(b, a),
    ensures
        lex_le(a, b),
    decreases a.len(),
{
    if a.len() == 0 {
        assert(b.subrange(0, 0) =~= a);
    } else if b.len() == 0 {
        assert(a.subrange(0, 0) =~= b);
    } else if a[0] == b[0] {
        assert((a + x).drop_first() =~= a.drop_first() + x);
        assert((b + y).drop_first() =~= b.drop_first() + y);
        if is_prefix(a.drop_first(), b.drop_first()) {
            let bs = b.drop_first().subrange(0, a.len() - 1);
            assert forall|i: int| 0 <= i < a.len() implies b.subrange(0, a.len() as int)[i]
                == a[i] by {
                if i > 0 {
                    assert(bs[i - 1] == a.drop_first()[i - 1]);
                }
            }
            assert(b.subrange(0, a.len() as int) =~= a);
        }
        if is_prefix(b.drop_first(), a.drop_first()) {
            let as_ = a.drop_first().subrange(0, b.len() - 1);
            assert forall|i: int| 0 <= i < b.len() implies a.subrange(0, b.len() as int)[i]
                == b[i] by {
                if i > 0 {
                    assert(as_[i - 1] == b.drop_first()[i - 1]);
                }
            }
            assert(a.subrange(0, b.len() as int) =~= b);
        }
        lemma_lex_concat_converse(a.drop_first(), b.drop_first(), x, y);
    }
}

/// `a` is the same data as `b`: the two differ at most in the order in which
/// a map holds its entries. Every entry of a map in `a` has an entry under
/// the same key in the matching map of `b`, holding the same data; with as
/// many entries on each side and distinct keys, the entries correspond one
/// to one.
pub open spec fn same_data(a: Value, b: Value) -> bool
    decreases a,
{
    match a {
        Value::List(xs) => b is List && b->List_0.len() == xs.len() && forall|i: int|
            0 <= i < xs.len() ==> same_data(#[trigger] xs[i], b->List_0[i]),
        Value::Dict(xs) => b is Dict && b->Dict_0.len() == xs.len() && forall|i: int|
            0 <= i < xs.len() ==> exists|j: int|
                0 <= j < b->Dict_0.len() && b->Dict_0[j].0 == (#[trigger] xs[i]).0 && same_data(
                    xs[i].1,
                    #[trigger] b->Dict_0[j].1,
                ),
        _ => a == b,
    }
}

/// The outcome of decoding at `pos` ends where the encoding of `v` ends, and
/// re-encodes to the same bytes as `v`.
pub open spec fn decodes_like(s: Seq<u8>, pos: int, depth: nat, v: Value) -> bool {
    &&& parse(s, pos, depth) is Ok
    &&& parse(s, pos, depth)->Ok_0.1 == pos + encode(v).len()
    &&& encode(parse(s, pos, depth)->Ok_0.0) == encode(v)
    &&& encodable(parse(s, pos, depth)->Ok_0.0)
    &&& same_data(parse(s, pos, depth)->Ok_0.0, v)
}

/// The encoding of any well-sized value, found at `pos`, decodes to a value
/// with the same encoding.
pub proof fn lemma_parse_any(s: Seq<u8>, pos: int, depth: nat, v: Value)
    requires
        well_sized(v),
        depth <= MAX_DEPTH,
        nests_within(v, (MAX_DEPTH - depth) as nat),
        encoded_at(s, pos, v),
    ensures
        decodes_like(s, pos, depth, v),
    decreases v, 0nat,
{
    let e = encode(v);
    match v {
        Value::List(items) => {
            let h = header(MAJOR_ARRAY, items.len() as u64);
            let f = item_bufs(items).flatten();
            lemma_sub_of_sub(s, pos, e, 0, h.len() as int);
            assert(e.subrange(0, h.len() as int) =~= h);
            lemma_head_at_header(s, pos, MAJOR_ARRAY, items.len() as u64);
            assert(item_bufs(items).skip(0) =~= item_bufs(items));
            lemma_sub_of_sub(s, pos, e, h.len() as int, e.len() as int);
            assert(e.subrange(h.len() as int, e.len() as int) =~= f);
            lemma_parse_list_any(s, pos + h.len(), depth + 1, items, 0, Seq::empty());
            let w = parse(s, pos, depth)->Ok_0.0;
            assert(item_bufs(w->List_0) =~= item_bufs(items));
            assert(same_data(w, v));
        },
        Value::Dict(entries) => {
            let h = header(MAJOR_MAP, entries.len() as u64);
            let sorted = canonical_entries(entry_bufs(entries));
            lemma_lex_total_ordering();
            entry_bufs(entries).lemma_sort_by_ensures(lex_leq());
            vstd::seq_lib::to_multiset_len(entry_bufs(entries));
            vstd::seq_lib::to_multiset_len(sorted);
            let f = sorted.flatten();
            lemma_sub_of_sub(s, pos, e, 0, h.len() as int);
            assert(e.subrange(0, h.len() as int) =~= h);
            lemma_head_at_header(s, pos, MAJOR_MAP, entries.len() as u64);
            assert(sorted.skip(0) =~= sorted);
            lemma_sub_of_sub(s, pos, e, h.len() as int, e.len() as int);
            assert(e.subrange(h.len() as int, e.len() as int) =~= f);
            lemma_entry_bufs_distinct(entries);
            lemma_parse_entries_any(s, pos + h.len(), depth + 1, entries, 0, Seq::empty());
            let w = parse(s, pos, depth)->Ok_0.0;
            assert(entry_bufs(w->Dict_0) =~= sorted);
            sorted.lemma_sort_by_ensures(lex_leq());
            vstd::seq_lib::lemma_sorted_unique(sorted, sorted.sort_by(lex_leq()), lex_leq());
            lemma_decoded_keys_distinct(entries, w->Dict_0);
            assert(same_data(w, v));
        },
        _ => {
            assert(canonical(v));
            lemma_parse_scalar(s, pos, depth, v);
            lemma_canonical_encodable(v);
            assert(same_data(v, v));
        },
    }
}

/// Decoded entries whose encodings are those of a map with distinct keys,
/// sorted, have distinct keys too.
proof fn lemma_decoded_keys_distinct(
    entries: Seq<(Seq<char>, Value)>,
    decoded: Seq<(Seq<char>, Value)>,
)
    requires
        distinct_keys(entries),
        forall|i: int|
            0 <= i < entries.len() ==> fits_u64(encode_utf8(#[trigger] entries[i].0).len()),
        forall|i: int|
            0 <= i < decoded.len() ==> fits_u64(encode_utf8(#[trigger] decoded[i].0).len()),
        entry_bufs(decoded) == canonical_entries(entry_bufs(entries)),
        canonical_entries(entry_bufs(entries)).no_duplicates(),
    ensures
        distinct_keys(decoded),
{
    let bufs = entry_bufs(entries);
    let sorted = canonical_entries(bufs);
    lemma_lex_total_ordering();
    bufs.lemma_sort_by_ensures(lex_leq());
    assert forall|a: int, b: int| 0 <= a < b < decoded.len() implies #[trigger] decoded[a].0
        != #[trigger] decoded[b].0 by {
        if decoded[a].0 == decoded[b].0 {
            assert(sorted[a] == entry_bufs(decoded)[a]);
            assert(sorted[b] == entry_bufs(decoded)[b]);
            assert(sorted.contains(sorted[a]));
            assert(sorted.contains(sorted[b]));
            let i = choose|i: int| 0 <= i < bufs.len() && bufs[i] == sorted[a];
            let j = choose|j: int| 0 <= j < bufs.len() && bufs[j] == sorted[b];
            lemma_text_split(
                entries[i].0,
                decoded[a].0,
                encode(entries[i].1),
                encode(decoded[a].1),
            );
            lemma_text_split(
                entries[j].0,
                decoded[b].0,
                encode(entries[j].1),
                encode(decoded[b].1),
            );
            if i < j {
                assert(entries[i].0 != entries[j].0);
            } else if j < i {
                assert(entries[j].0 != entries[i].0);
            }
            assert(sorted[a] != sorted[b]);
        }
    }
}

/// The encodings of the entries of a map with distinct keys are distinct, and
/// so are they once sorted.
proof fn lemma_entry_bufs_distinct(entries: Seq<(Seq<char>, Value)>)
    requires
        distinct_keys(entries),
        forall|i: int|
            0 <= i < entries.len() ==> fits_u64(encode_utf8(#[trigger] entries[i].0).len()),
    ensures
        entry_bufs(entries).no_duplicates(),
        canonical_entries(entry_bufs(entries)).no_duplicates(),
{
    let bufs = entry_bufs(entries);
    assert forall|a: int, b: int| 0 <= a < bufs.len() && 0 <= b < bufs.len() && a != b implies bufs[a]
        != bufs[b] by {
        if bufs[a] == bufs[b] {
            lemma_text_split(entries[a].0, entries[b].0, encode(entries[a].1), encode(entries[b].1));
            if a < b {
                assert(entries[a].0 != entries[b].0);
            } else {
                assert(entries[b].0 != entries[a].0);
            }
        }
    }
    lemma_lex_total_ordering();
    bufs.lemma_sort_by_ensures(lex_leq());
    bufs.lemma_multiset_has_no_duplicates();
    canonical_entries(bufs).lemma_multiset_has_no_duplicates_conv();
}

/// The encodings of the elements of a list from the `k`-th on, found at
/// `p`, decode to elements with the same encodings.
#[verifier::rlimit(50)]
pub proof fn lemma_parse_list_any(
    s: Seq<u8>,
    p: int,
    depth: nat,
    items: Seq<Value>,
    k: nat,
    acc: Seq<Value>,
)
    requires
        k <= items.len(),
        acc.len() == k,
        forall|i: int| 0 <= i < k ==> encode(#[trigger] acc[i]) == encode(items[i]),
        forall|i: int| 0 <= i < k ==> encodable(#[trigger] acc[i]),
        forall|i: int| 0 <= i < k ==> same_data(#[trigger] acc[i], items[i]),
        1 <= depth <= MAX_DEPTH,
        forall|i: int| 0 <= i < items.len() ==> well_sized(#[trigger] items[i]),
        forall|i: int|
            0 <= i < items.len() ==> nests_within(#[trigger] items[i], (MAX_DEPTH - depth) as nat),
        0 <= p,
        p + item_bufs(items).skip(k as int).flatten().len() <= s.len(),
        s.subrange(p, p + item_bufs(items).skip(k as int).flatten().len()) == item_bufs(
            items,
        ).skip(k as int).flatten(),
    ensures
        ({
            let r = parse_list(s, p, (items.len() - k) as nat, depth, acc);
            &&& r is Ok
            &&& r->Ok_0.1 == p + item_bufs(items).skip(k as int).flatten().len()
            &&& r->Ok_0.0 is List
            &&& r->Ok_0.0->List_0.len() == items.len()
            &&& forall|i: int|
                0 <= i < items.len() ==> encode(#[trigger] r->Ok_0.0->List_0[i]) == encode(items[i])
            &&& forall|i: int| 0 <= i < items.len() ==> encodable(#[trigger] r->Ok_0.0->List_0[i])
            &&& forall|i: int|
                0 <= i < items.len() ==> same_data(#[trigger] r->Ok_0.0->List_0[i], items[i])
        }),
    decreases items, items.len() - k + 1,
{
    let bufs = item_bufs(items);
    let f = bufs.skip(k as int).flatten();
    if k == items.len() {
        assert(bufs.skip(k as int) =~= Seq::<Seq<u8>>::empty());
    } else {
        let b = bufs[k as int];
        let rest = bufs.skip((k + 1) as int).flatten();
        assert(bufs.skip(k as int).drop_first() =~= bufs.skip((k + 1) as int));
        assert(f == b + rest);
        lemma_sub_of_sub(s, p, f, 0, b.len() as int);
        assert(f.subrange(0, b.len() as int) =~= b);
        lemma_parse_any(s, p, depth, items[k as int]);
        let w = parse(s, p, depth)->Ok_0.0;
        lemma_sub_of_sub(s, p, f, b.len() as int, f.len() as int);
        assert(f.subrange(b.len() as int, f.len() as int) =~= rest);
        let acc2 = acc.push(w);
        assert forall|i: int| 0 <= i < k + 1 implies encode(#[trigger] acc2[i]) == encode(
            items[i],
        ) && encodable(acc2[i]) && same_data(acc2[i], items[i]) by {
            if i < k {
                assert(acc2[i] == acc[i]);
            }
        }
        lemma_parse_list_any(s, p + b.len(), depth, items, k + 1, acc2);
    }
}

/// The encodings of the entries of a map, sorted, from the `k`-th on, found
/// at `p`, decode to entries with the same encodings.
#[verifier::rlimit(80)]
pub proof fn lemma_parse_entries_any(
    s: Seq<u8>,
    p: int,
    depth: nat,
    entries: Seq<(Seq<char>, Value)>,
    k: nat,
    acc: Seq<(Seq<char>, Value)>,
)
    requires
        k <= entries.len(),
        acc.len() == k,
        forall|i: int|
            0 <= i < k ==> text_item((#[trigger] acc[i]).0) + encode(acc[i].1) == canonical_entries(
                entry_bufs(entries),
            )[i],
        forall|i: int|
            0 <= i < k ==> fits_u64(encode_utf8((#[trigger] acc[i]).0).len()) && encodable(
                acc[i].1,
            ),
        forall|i: int|
            0 <= i < k ==> exists|j: int|
                0 <= j < entries.len() && entries[j].0 == (#[trigger] acc[i]).0 && same_data(
                    acc[i].1,
                    #[trigger] entries[j].1,
                ),
        1 <= depth <= MAX_DEPTH,
        distinct_keys(entries),
        canonical_entries(entry_bufs(entries)).no_duplicates(),
        canonical_entries(entry_bufs(entries)).len() == entries.len(),
        forall|i: int|
            0 <= i < entries.len() ==> fits_u64(encode_utf8(#[trigger] entries[i].0).len())
                && well_sized(entries[i].1),
        forall|i: int|
            0 <= i < entries.len() ==> nests_within(
                #[trigger] entries[i].1,
                (MAX_DEPTH - depth) as nat,
            ),
        0 <= p,
        p + canonical_entries(entry_bufs(entries)).skip(k as int).flatten().len() <= s.len(),
        s.subrange(p, p + canonical_entries(entry_bufs(entries)).skip(k as int).flatten().len())
            == canonical_entries(entry_bufs(entries)).skip(k as int).flatten(),
    ensures
        ({
            let r = parse_entries(s, p, (entries.len() - k) as nat, depth, acc);
            &&& r is Ok
            &&& r->Ok_0.1 == p + canonical_entries(entry_bufs(entries)).skip(
                k as int,
            ).flatten().len()
            &&& r->Ok_0.0 is Dict
            &&& entry_bufs(r->Ok_0.0->Dict_0) == canonical_entries(entry_bufs(entries))
            &&& r->Ok_0.0->Dict_0.len() == entries.len()
            &&& forall|i: int|
                0 <= i < entries.len() ==> fits_u64(
                    encode_utf8((#[trigger] r->Ok_0.0->Dict_0[i]).0).len(),
                ) && encodable(r->Ok_0.0->Dict_0[i].1)
            &&& forall|i: int|
                0 <= i < entries.len() ==> exists|j: int|
                    0 <= j < entries.len() && entries[j].0 == (
                    #[trigger] r->Ok_0.0->Dict_0[i]).0 && same_data(
                        r->Ok_0.0->Dict_0[i].1,
                        #[trigger] entries[j].1,
                    )
        }),
    decreases entries, entries.len() - k + 1,
{
    let bufs = entry_bufs(entries);
    let sorted = canonical_entries(bufs);
    let f = sorted.skip(k as int).flatten();
    lemma_lex_total_ordering();
    bufs.lemma_sort_by_ensures(lex_leq());
    if k == entries.len() {
        assert(sorted.skip(k as int) =~= Seq::<Seq<u8>>::empty());
        assert(entry_bufs(acc) =~= sorted);
    } else {
        // The entry the `k`-th sorted encoding comes from.
        assert(sorted.contains(sorted[k as int]));
        let i = choose|i: int| 0 <= i < bufs.len() && bufs[i] == sorted[k as int];
        let key = entries[i].0;
        let val = entries[i].1;
        let t = text_item(key);
        let ev = encode(val);
        let b = sorted[k as int];
        assert(b == t + ev);
        let rest = sorted.skip((k + 1) as int).flatten();
        assert(sorted.skip(k as int).drop_first() =~= sorted.skip((k + 1) as int));
        assert(f == b + rest);
        // The key.
        lemma_sub_of_sub(s, p, f, 0, t.len() as int);
        assert(f.subrange(0, t.len() as int) =~= t);
        lemma_parse_key(s, p, depth, key);
        if k > 0 {
            let prev = acc[k - 1];
            let tp = text_item(prev.0);
            assert(acc.last() == prev);
            assert(tp + encode(prev.1) == sorted[k - 1]);
            assert(lex_leq()(sorted[k - 1], sorted[k as int]));
            assert(sorted[k - 1] != sorted[k as int]);
            if tp == t {
                assert(tp + encode(prev.1) == t + encode(prev.1));
                // Both encodings start with the same key, which only one entry has.
                assert(sorted.contains(sorted[k - 1]));
                let i2 = choose|i2: int| 0 <= i2 < bufs.len() && bufs[i2] == sorted[k - 1];
                lemma_text_split(
                    prev.0,
                    entries[i2].0,
                    encode(prev.1),
                    encode(entries[i2].1),
                );
                lemma_text_injective(prev.0, key);
                if i2 < i {
                    assert(entries[i2].0 != entries[i].0);
                } else if i < i2 {
                    assert(entries[i].0 != entries[i2].0);
                }
            }
            if is_prefix(tp, t) {
                lemma_text_prefix_free(prev.0, key);
            }
            if is_prefix(t, tp) {
                lemma_text_prefix_free(key, prev.0);
            }
            lemma_lex_concat_converse(tp, t, encode(prev.1), ev);
        }
        assert(key_follows(acc, key));
        // The value.
        lemma_sub_of_sub(s, p, f, t.len() as int, (t.len() + ev.len()) as int);
        assert(f.subrange(t.len() as int, (t.len() + ev.len()) as int) =~= ev);
        assert(decreases_to!(entries => entries[i]));
        lemma_parse_any(s, p + t.len(), depth, val);
        let w = parse(s, p + t.len(), depth)->Ok_0.0;
        // The rest.
        lemma_sub_of_sub(s, p, f, b.len() as int, f.len() as int);
        assert(f.subrange(b.len() as int, f.len() as int) =~= rest);
        let acc2 = acc.push((key, w));
        assert forall|j: int| 0 <= j < k + 1 implies text_item((#[trigger] acc2[j]).0) + encode(
            acc2[j].1,
        ) == sorted[j] by {
            if j < k {
                assert(acc2[j] == acc[j]);
            }
        }
        assert forall|j: int| 0 <= j < k + 1 implies fits_u64(
            encode_utf8((#[trigger] acc2[j]).0).len(),
        ) && encodable(acc2[j].1) by {
            if j < k {
                assert(acc2[j] == acc[j]);
            }
        }
        assert forall|j: int| 0 <= j < k + 1 implies exists|i2: int|
            0 <= i2 < entries.len() && entries[i2].0 == (#[trigger] acc2[j]).0 && same_data(
                acc2[j].1,
                #[trigger] entries[i2].1,
            ) by {
            if j < k {
                assert(acc2[j] == acc[j]);
            } else {
                assert(acc2[j] == (key, w));
                assert(entries[i].0 == key && same_data(w, entries[i].1));
            }
        }
        lemma_parse_entries_any(s, p + b.len(), depth, entries, k + 1, acc2);
    }
}

/// A value in canonical form can be encoded.
pub proof fn lemma_canonical_encodable(v: Value)
    requires
        canonical(v),
    ensures
        encodable(v),
    decreases v,
{
    match v {
        Value::List(items) => {
            assert forall|i: int| 0 <= i < items.len() implies encodable(#[trigger] items[i]) by {
                lemma_canonical_encodable(items[i]);
            }
        },
        Value::Dict(entries) => {
            assert(keys_ascending(entries));
            assert forall|i: int, j: int| 0 <= i < j < entries.len() implies #[trigger] entries[i].0
                != #[trigger] entries[j].0 by {
                assert(key_lt(entries[i].0, entries[j].0));
            }
            assert forall|i: int| 0 <= i < entries.len() implies encodable(
                #[trigger] entries[i].1,
            ) by {
                let key = entries[i].0;
                assert(fits_u64(encode_utf8(key).len()));
                assert(canonical(entries[i].1));
                lemma_canonical_encodable(entries[i].1);
            }
        },
        _ => {},
    }
}

/// Round trip: a value in canonical form, nested no deeper than the
/// decoder's ceiling, can be encoded, and its encoding decodes to the value
/// itself.
pub proof fn lemma_round_trip(v: Value)
    requires
        canonical(v),
        nests_within(v, MAX_DEPTH as nat),
    ensures
        encodable(v),
        decode(encode(v)) == Ok::<Value, crate::error::DecodeError>(v),
{
    lemma_canonical_encodable(v);
    let e = encode(v);
    assert(e.subrange(0, e.len() as int) =~= e);
    lemma_parse_encoded(e, 0, 0, v);
}

/// Round trip, for any value that can be encoded, with its map entries in
/// any order and nested no deeper than the decoder's ceiling: its encoding
/// decodes to the same data, which can be encoded again. Maps come back
/// with their entries in canonical order; a value already in canonical form
/// comes back as itself (`lemma_round_trip`).
pub proof fn lemma_round_trip_any(v: Value)
    requires
        well_sized(v),
        nests_within(v, MAX_DEPTH as nat),
    ensures
        encodable(v),
        decode(encode(v)) is Ok,
        same_data(decode(encode(v))->Ok_0, v),
        encodable(decode(encode(v))->Ok_0),
{
    lemma_well_sized_encodable(v);
    let e = encode(v);
    assert(e.subrange(0, e.len() as int) =~= e);
    lemma_parse_any(e, 0, 0, v);
}

/// The first byte of a head carries its major type.
proof fn lemma_header_major(major: u8, n: u64)
    requires
        major < 8,
    ensures
        header(major, n).len() >= 1,
        header(major, n)[0] / 32 == major,
{
}

/// The encoder writes no tag but the link tag: the encoding of a value
/// starts with a tag head exactly when the value is a link, and that head is
/// tag 42 in two bytes, followed at once by the head of a byte string. As
/// the encoding of a list or a map is its head followed by the encodings of
/// its parts, tags in the output never wrap one another.
pub proof fn lemma_only_link_tags(v: Value)
    ensures
        encode(v).len() >= 1,
        encode(v)[0] / 32 == MAJOR_TAG <==> v is Link,
        v is Link ==> encode(v)[0] == 0xd8 && encode(v)[1] == 0x2a && encode(v)[2] / 32
            == MAJOR_BYTES,
{
    match v {
        Value::Integer(n) => {
            if n >= 0 {
                lemma_header_major(0, n as u64);
            } else {
                lemma_header_major(1, (-(n + 1)) as u64);
            }
        },
        Value::String(t) => lemma_header_major(MAJOR_TEXT, encode_utf8(t).len() as u64),
        Value::Bytes(b) => lemma_header_major(MAJOR_BYTES, b.len() as u64),
        Value::List(items) => lemma_header_major(MAJOR_ARRAY, items.len() as u64),
        Value::Dict(entries) => lemma_header_major(MAJOR_MAP, entries.len() as u64),
        Value::Link(c) => {
            lemma_header_major(MAJOR_BYTES, (c.len() + 1) as u64);
            assert(header(MAJOR_TAG, 42) == seq![0xd8u8, 0x2au8]);
        },
        _ => {},
    }
}

/// A well-sized value can be encoded.
pub proof fn lemma_well_sized_encodable(v: Value)
    requires
        well_sized(v),
    ensures
        encodable(v),
    decreases v,
{
    match v {
        Value::List(items) => {
            assert forall|i: int| 0 <= i < items.len() implies encodable(#[trigger] items[i]) by {
                lemma_well_sized_encodable(items[i]);
            }
        },
        Value::Dict(entries) => {
            assert forall|i: int| 0 <= i < entries.len() implies encodable(
                #[trigger] entries[i].1,
            ) by {
                let key = entries[i].0;
                assert(fits_u64(encode_utf8(key).len()));
                lemma_well_sized_encodable(entries[i].1);
            }
        },
        _ => {},
    }
}

/// Idempotent canonical form: for any value that can be encoded, with its
/// map entries in any order and nested no deeper than the decoder's
/// ceiling, its encoding decodes, and encoding what it decodes to gives the
/// same bytes again.
pub proof fn lemma_reencode(v: Value)
    requires
        well_sized(v),
        nests_within(v, MAX_DEPTH as nat),
    ensures
        encodable(v),
        decode(encode(v)) is Ok,
        encodable(decode(encode(v))->Ok_0),
        encode(decode(encode(v))->Ok_0) == encode(v),
{
    lemma_well_sized_encodable(v);
    let e = encode(v);
    assert(e.subrange(0, e.len() as int) =~= e);
    lemma_parse_any(e, 0, 0, v);
}

/// Trailing data: the encoding of any value that can be encoded, with its
/// map entries in any order and nested no deeper than the decoder's ceiling,
/// is one whole value, and followed by any further bytes it is refused as a
/// whole input.
pub proof fn lemma_trailing_data(v: Value, extra: Seq<u8>)
    requires
        well_sized(v),
        nests_within(v, MAX_DEPTH as nat),
    ensures
        decode(encode(v)) is Ok,
        extra.len() > 0 ==> decode(encode(v) + extra) == Err::<Value, crate::error::DecodeError>(
            crate::error::DecodeError::TrailingData,
        ),
{
    let e = encode(v);
    assert(e.subrange(0, e.len() as int) =~= e);
    lemma_parse_any(e, 0, 0, v);
    let s = e + extra;
    assert(s.subrange(0, e.len() as int) =~= e);
    lemma_parse_any(s, 0, 0, v);
}

/// Entries that are a rearrangement of each other have encodings that are a
/// rearrangement of each other.
pub proof fn lemma_entry_bufs_rearranged(a: Seq<(Seq<char>, Value)>, b: Seq<(Seq<char>, Value)>)
    requires
        a.to_multiset() == b.to_multiset(),
    ensures
        entry_bufs(a).to_multiset() == entry_bufs(b).to_multiset(),
    decreases a.len(),
{
    broadcast use vstd::seq_lib::group_to_multiset_ensures;
    broadcast use vstd::multiset::group_multiset_axioms;

    vstd::seq_lib::to_multiset_len(a);
    vstd::seq_lib::to_multiset_len(b);
    if a.len() == 0 {
        assert(entry_bufs(a) =~= Seq::<Seq<u8>>::empty());
        assert(entry_bufs(b) =~= Seq::<Seq<u8>>::empty());
    } else {
        let x = a[0];
        assert(a.to_multiset().count(x) > 0);
        assert(b.contains(x));
        let j = choose|j: int| 0 <= j < b.len() && b[j] == x;
        assert(a.drop_first().to_multiset() =~= a.to_multiset().remove(x)) by {
            assert(a =~= a.drop_first().insert(0, x));
            vstd::seq_lib::to_multiset_insert(a.drop_first(), 0, x);
        }
        assert(b.remove(j).to_multiset() =~= b.to_multiset().remove(x));
        lemma_entry_bufs_rearranged(a.drop_first(), b.remove(j));
        let fx = text_item(x.0) + encode(x.1);
        assert(entry_bufs(a) =~= entry_bufs(a.drop_first()).insert(0, fx));
        assert(entry_bufs(b) =~= entry_bufs(b.remove(j)).insert(j, fx));
        vstd::seq_lib::to_multiset_insert(entry_bufs(a.drop_first()), 0, fx);
        vstd::seq_lib::to_multiset_insert(entry_bufs(b.remove(j)), j, fx);
    }
}

/// Map canonicalization, for values: a map encodes to the same bytes
/// whatever the order in which its entries were inserted.
pub proof fn lemma_dict_order_irrelevant(a: Seq<(Seq<char>, Value)>, b: Seq<(Seq<char>, Value)>)
    requires
        a.to_multiset() == b.to_multiset(),
    ensures
        encode(Value::Dict(a)) == encode(Value::Dict(b)),
{
    lemma_entry_bufs_rearranged(a, b);
    lemma_map_order_irrelevant(entry_bufs(a), entry_bufs(b));
}

/// Map canonicalization: map entries handed over in any order give the same
/// bytes.
pub proof fn lemma_map_order_irrelevant(a: Seq<Seq<u8>>, b: Seq<Seq<u8>>)
    requires
        a.to_multiset() == b.to_multiset(),
    ensures
        map_item(a) == map_item(b),
{
    lemma_lex_total_ordering();
    a.lemma_sort_by_ensures(lex_leq());
    b.lemma_sort_by_ensures(lex_leq());
    vstd::seq_lib::lemma_sorted_unique(a.sort_by(lex_leq()), b.sort_by(lex_leq()), lex_leq());
    vstd::seq_lib::to_multiset_len(a);
    vstd::seq_lib::to_multiset_len(b);
}

/// Indefinite lengths are refused: wherever a value is expected, the
/// indefinite marker of a byte string, a text string, an array or a map
/// fails with `IndefiniteSize`, and so does a whole input that starts with one.
pub proof fn lemma_indefinite_rejected(s: Seq<u8>, pos: int, depth: nat)
    requires
        0 <= pos < s.len(),
        s[pos] == 0x5f || s[pos] == 0x7f || s[pos] == 0x9f || s[pos] == 0xbf,
    ensures
        parse(s, pos, depth) == Err::<(Value, int), crate::error::DecodeError>(
            crate::error::DecodeError::IndefiniteSize,
        ),
        pos == 0 ==> decode(s) == Err::<Value, crate::error::DecodeError>(
            crate::error::DecodeError::IndefiniteSize,
        ),
{
}

/// Half precision floats are refused with a type mismatch.
pub proof fn lemma_half_float_rejected(s: Seq<u8>, pos: int, depth: nat)
    requires
        0 <= pos < s.len(),
        s[pos] == 0xf9,
    ensures
        parse(s, pos, depth) == Err::<(Value, int), crate::error::DecodeError>(
            crate::error::DecodeError::TypeMismatch {
                name: crate::error::Expected::Simple,
                byte: 0xf9,
            },
        ),
{
}

/// Single precision floats are accepted and widened to the double of the
/// same value.
pub proof fn lemma_single_float_widened(s: Seq<u8>, pos: int, depth: nat)
    requires
        0 <= pos,
        pos + 5 <= s.len(),
        s[pos] == 0xfa,
    ensures
        be_value(s.subrange(pos + 1, pos + 5)) <= u32::MAX,
        parse(s, pos, depth) == Ok::<(Value, int), crate::error::DecodeError>(
            (
                Value::Float(crate::float::widen(be_value(s.subrange(pos + 1, pos + 5)) as u32)),
                pos + 5,
            ),
        ),
{
    crate::header::lemma_be_value_bound(s.subrange(pos + 1, pos + 5));
    reveal_with_fuel(crate::header::pow256, 5);
}

/// Recursion guard: at the ceiling, an array, a map or a link that would
/// nest one level deeper is refused with `DepthLimit`, whatever follows it.
pub proof fn lemma_depth_guard(s: Seq<u8>, pos: int)
    requires
        0 <= pos < s.len(),
        s[pos] % 32 < 28,
        s[pos] / 32 == 4 || s[pos] / 32 == 5 || (s[pos] / 32 == 6 && head_at(s, pos) is Some
            && head_at(s, pos)->Some_0.0 == 42),
        head_at(s, pos) is Some,
    ensures
        parse(s, pos, MAX_DEPTH as nat) == Err::<(Value, int), crate::error::DecodeError>(
            crate::error::DecodeError::DepthLimit,
        ),
{
}

/// Tags other than 42 are refused as a type mismatch on the last byte of the
/// tag's head.
pub proof fn lemma_other_tag_rejected(s: Seq<u8>, pos: int, depth: nat)
    requires
        0 <= pos < s.len(),
        s[pos] / 32 == 6,
        s[pos] % 32 < 28,
        head_at(s, pos) is Some,
        head_at(s, pos)->Some_0.0 != 42,
    ensures
        parse(s, pos, depth) == Err::<(Value, int), crate::error::DecodeError>(
            crate::error::DecodeError::TypeMismatch {
                name: crate::error::Expected::Tag,
                byte: s[head_at(s, pos)->Some_0.1 - 1],
            },
        ),
{
}

} // verus!
