//! Decode canonical CBOR bytes into a value tree, strictly: indefinite
//! lengths, tags other than the link tag, half precision floats, simple
//! values without meaning here, invalid UTF-8, map keys that are not text or
//! not in canonical order, nesting beyond a ceiling and trailing bytes are
//! all rejected. Integer and length arguments may use any width, and single
//! precision floats are widened to doubles.

use vstd::prelude::*;
use crate::error::{DecodeError, Expected};
use crate::float::{narrow_f64_bits, widen, widen_f32_bits};
use crate::header::be_value;
use crate::ipld::{lemma_dict_view, lemma_list_view, Ipld, Value};
use crate::order::{lex_le, lex_le_exec};
use crate::ser::{text_item, Serializer};
use vstd::utf8::{decode_utf8, encode_utf8, valid_utf8};

verus! {

/// How deep arrays, maps and tags may nest.
pub const MAX_DEPTH: u32 = 256;

/// The width of the argument that follows a first byte whose low five bits
/// are `low` (at most 27).
pub open spec fn arg_len(low: u8) -> int {
    if low < 24 {
        0
    } else if low == 24 {
        1
    } else if low == 25 {
        2
    } else if low == 26 {
        4
    } else {
        8
    }
}

/// The argument of the head at `pos`, whose low bits are at most 27, and the
/// position after the head; `None` where the input ends first.
pub open spec fn head_at(s: Seq<u8>, pos: int) -> Option<(u64, int)> {
    let low = s[pos] % 32;
    let end = pos + 1 + arg_len(low);
    if end > s.len() {
        None
    } else if low < 24 {
        Some((low as u64, end))
    } else {
        Some((be_value(s.subrange(pos + 1, end)) as u64, end))
    }
}

/// The outcome of decoding: a value and the position after it, or an error.
pub type Parsed = Result<(Value, int), DecodeError>;

/// Decodes the simple value or float at `pos`, whose major type is 7 and
/// whose low bits `low` are at most 27.
pub open spec fn parse_simple(s: Seq<u8>, pos: int) -> Parsed {
    let b = s[pos];
    let low = b % 32;
    if low == 20 {
        Ok((Value::Bool(false), pos + 1))
    } else if low == 21 {
        Ok((Value::Bool(true), pos + 1))
    } else if low == 22 {
        Ok((Value::Null, pos + 1))
    } else if low == 25 {
        Err(DecodeError::TypeMismatch { name: Expected::Simple, byte: b })
    } else if low == 26 || low == 27 {
        match head_at(s, pos) {
            None => Err(DecodeError::Eof),
            Some((bits, end)) => if low == 26 {
                Ok((Value::Float(widen(bits as u32)), end))
            } else {
                Ok((Value::Float(bits), end))
            },
        }
    } else {
        Err(DecodeError::Unsupported { byte: b })
    }
}

/// Decodes the string at `pos`, whose head has been read: `n` bytes from
/// `p` on, as a byte string (`major` 2) or as UTF-8 text (`major` 3).
pub open spec fn parse_string(s: Seq<u8>, major: u8, n: u64, p: int) -> Parsed {
    if p + n > s.len() {
        Err(DecodeError::Eof)
    } else {
        let body = s.subrange(p, p + n);
        if major == 2 {
            Ok((Value::Bytes(body), p + n))
        } else if valid_utf8(body) {
            Ok((Value::String(decode_utf8(body)), p + n))
        } else {
            Err(DecodeError::InvalidUtf8)
        }
    }
}

/// Decodes the link at `p`, just after tag 42: a byte string whose first
/// byte is zero, the rest being the identifier.
pub open spec fn parse_link(s: Seq<u8>, p: int) -> Parsed {
    if p >= s.len() {
        Err(DecodeError::Eof)
    } else {
        let c = s[p];
        if c / 32 != 2 {
            Err(DecodeError::TypeMismatch { name: Expected::Link, byte: c })
        } else if c % 32 == 31 {
            Err(DecodeError::IndefiniteSize)
        } else if c % 32 >= 28 {
            Err(DecodeError::Unsupported { byte: c })
        } else {
            match head_at(s, p) {
                None => Err(DecodeError::Eof),
                Some((n, q)) => if q + n > s.len() {
                    Err(DecodeError::Eof)
                } else if n == 0 || s[q] != 0 {
                    Err(DecodeError::TypeMismatch { name: Expected::Link, byte: c })
                } else {
                    Ok((Value::Link(s.subrange(q + 1, q + n)), q + n))
                },
            }
        }
    }
}

/// Decodes the value at `pos`, nested `depth` deep.
pub open spec fn parse(s: Seq<u8>, pos: int, depth: nat) -> Parsed
    decreases MAX_DEPTH + 1 - depth, 0nat,
{
    if pos < 0 || pos >= s.len() {
        Err(DecodeError::Eof)
    } else {
        let b = s[pos];
        let major = b / 32;
        let low = b % 32;
        if low >= 28 {
            if low == 31 && 2 <= major <= 5 {
                Err(DecodeError::IndefiniteSize)
            } else {
                Err(DecodeError::Unsupported { byte: b })
            }
        } else if major == 7 {
            parse_simple(s, pos)
        } else {
            match head_at(s, pos) {
                None => Err(DecodeError::Eof),
                Some((arg, p)) => if major == 0 {
                    Ok((Value::Integer(arg as int), p))
                } else if major == 1 {
                    Ok((Value::Integer(-1 - arg), p))
                } else if major == 2 || major == 3 {
                    parse_string(s, major, arg, p)
                } else if major == 6 && arg != 42 {
                    Err(DecodeError::TypeMismatch { name: Expected::Tag, byte: s[p - 1] })
                } else if depth + 1 > MAX_DEPTH {
                    Err(DecodeError::DepthLimit)
                } else if major == 4 {
                    parse_list(s, p, arg as nat, depth + 1, Seq::empty())
                } else if major == 5 {
                    parse_entries(s, p, arg as nat, depth + 1, Seq::empty())
                } else {
                    parse_link(s, p)
                },
            }
        }
    }
}

/// Decodes the `n` remaining elements of a list from `pos`, each nested
/// `depth` deep, after the elements `acc`.
pub open spec fn parse_list(s: Seq<u8>, pos: int, n: nat, depth: nat, acc: Seq<Value>) -> Parsed
    decreases MAX_DEPTH + 1 - depth, n + 1,
{
    if n == 0 {
        Ok((Value::List(acc), pos))
    } else {
        match parse(s, pos, depth) {
            Err(e) => Err(e),
            Ok((v, p)) => parse_list(s, p, (n - 1) as nat, depth, acc.push(v)),
        }
    }
}

/// The canonical encoding of the last key decoded comes strictly before that
/// of `k`.
pub open spec fn key_follows(acc: Seq<(Seq<char>, Value)>, k: Seq<char>) -> bool {
    acc.len() == 0 || (lex_le(text_item(acc.last().0), text_item(k)) && text_item(acc.last().0)
        != text_item(k))
}

/// Decodes the `n` remaining entries of a map from `pos`, each value nested
/// `depth` deep, after the entries `acc`. Keys are text strings in strictly
/// ascending canonical order.
pub open spec fn parse_entries(
    s: Seq<u8>,
    pos: int,
    n: nat,
    depth: nat,
    acc: Seq<(Seq<char>, Value)>,
) -> Parsed
    decreases MAX_DEPTH + 1 - depth, n + 1,
{
    if n == 0 {
        Ok((Value::Dict(acc), pos))
    } else if pos < 0 || pos >= s.len() {
        Err(DecodeError::Eof)
    } else if s[pos] / 32 != 3 {
        Err(DecodeError::TypeMismatch { name: Expected::MapKey, byte: s[pos] })
    } else {
        match parse(s, pos, depth) {
            Err(e) => Err(e),
            Ok((k, p)) => if !key_follows(acc, k->String_0) {
                Err(DecodeError::TypeMismatch { name: Expected::KeyOrder, byte: s[pos] })
            } else {
                match parse(s, p, depth) {
                    Err(e) => Err(e),
                    Ok((v, q)) => parse_entries(s, q, (n - 1) as nat, depth, acc.push((k->String_0, v))),
                }
            },
        }
    }
}

/// Decodes the whole of `s` as one value.
pub open spec fn decode(s: Seq<u8>) -> Result<Value, DecodeError> {
    match parse(s, 0, 0) {
        Err(e) => Err(e),
        Ok((v, p)) => if p == s.len() {
            Ok(v)
        } else {
            Err(DecodeError::TrailingData)
        },
    }
}

/// The result of an executable decoding step agrees with the spec.
pub open spec fn agrees(r: Result<(Ipld, usize), DecodeError>, p: Parsed) -> bool {
    match r {
        Ok((v, q)) => p == Ok::<(Value, int), DecodeError>((v@, q as int)),
        Err(e) => p == Err::<(Value, int), DecodeError>(e),
    }
}

/// The models of a list's elements.
pub open spec fn models(items: Seq<Ipld>) -> Seq<Value> {
    Seq::new(items.len(), |i: int| items[i]@)
}

/// The models of a map's entries.
pub open spec fn entry_models(entries: Seq<(String, Ipld)>) -> Seq<(Seq<char>, Value)> {
    Seq::new(entries.len(), |i: int| (entries[i].0@, entries[i].1@))
}

proof fn lemma_be_value_push(x: Seq<u8>, b: u8)
    ensures
        be_value(x.push(b)) == be_value(x) * 256 + b,
{
    assert(x.push(b).drop_last() =~= x);
}

proof fn lemma_pow256_le(k: nat)
    requires
        k <= 7,
    ensures
        crate::header::pow256(k) <= 0x100_0000_0000_0000,
        k == 4 ==> crate::header::pow256(k) == 0x1_0000_0000,
{
    reveal_with_fuel(crate::header::pow256, 8);
}

/// Relies on std::str::from_utf8: it accepts exactly the valid UTF-8 byte
/// sequences, and the text it returns is made of those bytes.
#[verifier::external_body]
fn text_from_utf8(b: &[u8]) -> (r: Option<String>)
    ensures
        r is Some <==> valid_utf8(b@),
        r is Some ==> encode_utf8(r->Some_0@) == b@,
{
    match std::str::from_utf8(b) {
        Ok(s) => Some(s.to_string()),
        Err(_) => None,
    }
}

/// Reads the argument of the head at `pos`.
fn read_head(input: &[u8], pos: usize) -> (r: Option<(u64, usize)>)
    requires
        pos < input@.len(),
        input@[pos as int] % 32 < 28,
    ensures
        match head_at(input@, pos as int) {
            None => r is None,
            Some((a, e)) => r == Some((a, e as usize)),
        },
        r is Some ==> pos < r->Some_0.1 <= input@.len(),
        r is Some && input@[pos as int] % 32 == 26 ==> r->Some_0.0 <= u32::MAX,
{
    let low = input[pos] % 32;
    if low < 24 {
        return Some((low as u64, pos + 1));
    }
    let w: usize = if low == 24 {
        1
    } else if low == 25 {
        2
    } else if low == 26 {
        4
    } else {
        8
    };
    if w > input.len() - pos - 1 {
        return None;
    }
    let mut acc: u64 = 0;
    let mut k: usize = 0;
    let ghost s = input@;
    assert(s.subrange(pos + 1, pos + 1) =~= Seq::<u8>::empty());
    while k < w
        invariant
            s == input@,
            s.len() == input.len(),
            k <= w <= 8,
            pos + 1 + w <= s.len(),
            acc as nat == be_value(s.subrange(pos + 1, pos + 1 + k)),
            be_value(s.subrange(pos + 1, pos + 1 + k)) < crate::header::pow256(k as nat),
        decreases w - k,
    {
        let b = input[pos + 1 + k];
        proof {
            assert(s.subrange(pos + 1, pos + 1 + k + 1) =~= s.subrange(pos + 1, pos + 1 + k).push(b));
            lemma_be_value_push(s.subrange(pos + 1, pos + 1 + k), b);
            lemma_pow256_le(k as nat);
            assert(acc * 256 + b < crate::header::pow256(k as nat) * 256) by (nonlinear_arith)
                requires
                    acc < crate::header::pow256(k as nat),
                    b < 256,
            ;
        }
        acc = acc * 256 + b as u64;
        k = k + 1;
    }
    proof {
        lemma_pow256_le(4);
    }
    Some((acc, pos + 1 + w))
}

/// The bytes of `input` from `start` to `end`.
fn copy_range(input: &[u8], start: usize, end: usize) -> (r: Vec<u8>)
    requires
        start <= end <= input@.len(),
    ensures
        r@ == input@.subrange(start as int, end as int),
{
    let mut out: Vec<u8> = Vec::new();
    let mut i: usize = start;
    while i < end
        invariant
            start <= i <= end <= input@.len(),
            out@ == input@.subrange(start as int, i as int),
        decreases end - i,
    {
        out.push(input[i]);
        assert(out@ =~= input@.subrange(start as int, i + 1));
        i = i + 1;
    }
    out
}

fn parse_simple_exec(input: &[u8], pos: usize) -> (r: Result<(Ipld, usize), DecodeError>)
    requires
        pos < input@.len(),
        input@[pos as int] / 32 == 7,
        input@[pos as int] % 32 < 28,
    ensures
        agrees(r, parse_simple(input@, pos as int)),
        r is Ok ==> pos < r->Ok_0.1 <= input@.len(),
{
    let b = input[pos];
    let low = b % 32;
    if low == 20 {
        Ok((Ipld::Bool(false), pos + 1))
    } else if low == 21 {
        Ok((Ipld::Bool(true), pos + 1))
    } else if low == 22 {
        Ok((Ipld::Null, pos + 1))
    } else if low == 25 {
        Err(DecodeError::TypeMismatch { name: Expected::Simple, byte: b })
    } else if low == 26 || low == 27 {
        match read_head(input, pos) {
            None => Err(DecodeError::Eof),
            Some((bits, end)) => if low == 26 {
                Ok((Ipld::Float(widen_f32_bits(bits as u32)), end))
            } else {
                Ok((Ipld::Float(bits), end))
            },
        }
    } else {
        Err(DecodeError::Unsupported { byte: b })
    }
}

fn parse_string_exec(input: &[u8], major: u8, n: u64, p: usize) -> (r: Result<
    (Ipld, usize),
    DecodeError,
>)
    requires
        p <= input@.len(),
        major == 2 || major == 3,
    ensures
        agrees(r, parse_string(input@, major, n, p as int)),
        r is Ok ==> p <= r->Ok_0.1 <= input@.len(),
{
    if n > (input.len() - p) as u64 {
        return Err(DecodeError::Eof);
    }
    let end = p + n as usize;
    let body = copy_range(input, p, end);
    if major == 2 {
        Ok((Ipld::Bytes(body), end))
    } else {
        match text_from_utf8(body.as_slice()) {
            Some(t) => {
                proof {
                    vstd::utf8::encode_utf8_decode_utf8(t@);
                }
                Ok((Ipld::String(t), end))
            },
            None => Err(DecodeError::InvalidUtf8),
        }
    }
}

fn parse_link_exec(input: &[u8], p: usize) -> (r: Result<(Ipld, usize), DecodeError>)
    requires
        p <= input@.len(),
    ensures
        agrees(r, parse_link(input@, p as int)),
        r is Ok ==> p < r->Ok_0.1 <= input@.len(),
{
    if p >= input.len() {
        return Err(DecodeError::Eof);
    }
    let c = input[p];
    if c / 32 != 2 {
        Err(DecodeError::TypeMismatch { name: Expected::Link, byte: c })
    } else if c % 32 == 31 {
        Err(DecodeError::IndefiniteSize)
    } else if c % 32 >= 28 {
        Err(DecodeError::Unsupported { byte: c })
    } else {
        match read_head(input, p) {
            None => Err(DecodeError::Eof),
            Some((n, q)) => if n > (input.len() - q) as u64 {
                Err(DecodeError::Eof)
            } else if n == 0 || input[q] != 0 {
                Err(DecodeError::TypeMismatch { name: Expected::Link, byte: c })
            } else {
                let end = q + n as usize;
                Ok((Ipld::Link(copy_range(input, q + 1, end)), end))
            },
        }
    }
}

fn parse_value(input: &[u8], pos: usize, depth: u32) -> (r: Result<(Ipld, usize), DecodeError>)
    requires
        pos <= input@.len(),
        depth <= MAX_DEPTH,
    ensures
        agrees(r, parse(input@, pos as int, depth as nat)),
        r is Ok ==> pos < r->Ok_0.1 <= input@.len(),
    decreases MAX_DEPTH + 1 - depth, 0nat,
{
    if pos >= input.len() {
        return Err(DecodeError::Eof);
    }
    let b = input[pos];
    let major = b / 32;
    let low = b % 32;
    if low >= 28 {
        if low == 31 && 2 <= major && major <= 5 {
            Err(DecodeError::IndefiniteSize)
        } else {
            Err(DecodeError::Unsupported { byte: b })
        }
    } else if major == 7 {
        parse_simple_exec(input, pos)
    } else {
        match read_head(input, pos) {
            None => Err(DecodeError::Eof),
            Some((arg, p)) => if major == 0 {
                Ok((Ipld::Integer(arg as i128), p))
            } else if major == 1 {
                Ok((Ipld::Integer(-1 - arg as i128), p))
            } else if major == 2 || major == 3 {
                parse_string_exec(input, major, arg, p)
            } else if major == 6 && arg != 42 {
                Err(DecodeError::TypeMismatch { name: Expected::Tag, byte: input[p - 1] })
            } else if depth + 1 > MAX_DEPTH {
                Err(DecodeError::DepthLimit)
            } else if major == 4 {
                parse_list_exec(input, p, arg, depth + 1)
            } else if major == 5 {
                parse_entries_exec(input, p, arg, depth + 1)
            } else {
                parse_link_exec(input, p)
            },
        }
    }
}

fn parse_list_exec(input: &[u8], pos: usize, n: u64, depth: u32) -> (r: Result<
    (Ipld, usize),
    DecodeError,
>)
    requires
        pos <= input@.len(),
        depth <= MAX_DEPTH,
    ensures
        agrees(r, parse_list(input@, pos as int, n as nat, depth as nat, Seq::empty())),
        r is Ok ==> pos <= r->Ok_0.1 <= input@.len(),
    decreases MAX_DEPTH + 1 - depth, n + 1,
{
    let mut items: Vec<Ipld> = Vec::new();
    let mut p = pos;
    let mut k = n;
    assert(models(items@) =~= Seq::<Value>::empty());
    while k > 0
        invariant
            pos <= p <= input@.len(),
            depth <= MAX_DEPTH,
            k <= n,
            parse_list(input@, p as int, k as nat, depth as nat, models(items@)) == parse_list(
                input@,
                pos as int,
                n as nat,
                depth as nat,
                Seq::empty(),
            ),
        decreases k,
    {
        match parse_value(input, p, depth) {
            Err(e) => {
                return Err(e);
            },
            Ok((v, q)) => {
                let ghost prev = items@;
                items.push(v);
                assert(models(items@) =~= models(prev).push(v@));
                p = q;
                k = k - 1;
            },
        }
    }
    proof {
        lemma_list_view(items);
        assert(models(items@) =~= Ipld::List(items)@->List_0);
    }
    Ok((Ipld::List(items), p))
}

fn parse_entries_exec(input: &[u8], pos: usize, n: u64, depth: u32) -> (r: Result<
    (Ipld, usize),
    DecodeError,
>)
    requires
        pos <= input@.len(),
        depth <= MAX_DEPTH,
    ensures
        agrees(r, parse_entries(input@, pos as int, n as nat, depth as nat, Seq::empty())),
        r is Ok ==> pos <= r->Ok_0.1 <= input@.len(),
    decreases MAX_DEPTH + 1 - depth, n + 1,
{
    let mut entries: Vec<(String, Ipld)> = Vec::new();
    let mut last: Vec<u8> = Vec::new();
    let mut p = pos;
    let mut k = n;
    assert(entry_models(entries@) =~= Seq::<(Seq<char>, Value)>::empty());
    while k > 0
        invariant
            pos <= p <= input@.len(),
            depth <= MAX_DEPTH,
            k <= n,
            parse_entries(input@, p as int, k as nat, depth as nat, entry_models(entries@))
                == parse_entries(input@, pos as int, n as nat, depth as nat, Seq::empty()),
            entries@.len() > 0 ==> last@ == text_item(entry_models(entries@).last().0),
        decreases k,
    {
        if p >= input.len() {
            return Err(DecodeError::Eof);
        }
        let b = input[p];
        if b / 32 != 3 {
            return Err(DecodeError::TypeMismatch { name: Expected::MapKey, byte: b });
        }
        let (key, q) = match parse_value(input, p, depth) {
            Err(e) => {
                return Err(e);
            },
            Ok(x) => x,
        };
        let ks = match key {
            Ipld::String(ks) => ks,
            _ => {
                proof {
                    assert(false);
                }
                return Err(DecodeError::Eof);
            },
        };
        let mut ser = Serializer::new(Vec::new());
        ser.serialize_str(ks.as_str());
        let enc = ser.into_inner();
        assert(enc@ =~= text_item(ks@));
        if entries.len() > 0 {
            let le = lex_le_exec(last.as_slice(), enc.as_slice());
            let ge = lex_le_exec(enc.as_slice(), last.as_slice());
            proof {
                if le && ge {
                    crate::order::lemma_lex_antisym(last@, enc@);
                }
                if last@ == enc@ {
                    crate::order::lemma_lex_refl(enc@);
                }
            }
            if !le || ge {
                return Err(DecodeError::TypeMismatch { name: Expected::KeyOrder, byte: b });
            }
        }
        match parse_value(input, q, depth) {
            Err(e) => {
                return Err(e);
            },
            Ok((v, q2)) => {
                let ghost prev = entries@;
                entries.push((ks, v));
                assert(entry_models(entries@) =~= entry_models(prev).push((ks@, v@)));
                last = enc;
                p = q2;
                k = k - 1;
            },
        }
    }
    proof {
        lemma_dict_view(entries);
        assert(entry_models(entries@) =~= Ipld::Dict(entries)@->Dict_0);
    }
    Ok((Ipld::Dict(entries), p))
}

/// Decodes the value at the start of `input`, returning it with the number
/// of bytes it took; what follows is left for the next call.
pub fn from_slice_prefix(input: &[u8]) -> (r: Result<(Ipld, usize), DecodeError>)
    ensures
        agrees(r, parse(input@, 0, 0)),
        r is Ok ==> 0 < r->Ok_0.1 <= input@.len(),
{
    parse_value(input, 0, 0)
}

/// Decodes a value from `input`, which must hold exactly one value and
/// nothing after it.
pub fn from_slice(input: &[u8]) -> (r: Result<Ipld, DecodeError>)
    ensures
        match decode(input@) {
            Ok(v) => r is Ok && r->Ok_0@ == v,
            Err(e) => r == Err::<Ipld, DecodeError>(e),
        },
{
    match parse_value(input, 0, 0) {
        Err(e) => Err(e),
        Ok((v, p)) => if p == input.len() {
            Ok(v)
        } else {
            Err(DecodeError::TrailingData)
        },
    }
}

/// Decodes the whole input as a single precision float, given by its bits:
/// the float on the wire must be one that single precision holds exactly.
pub fn from_slice_f32(input: &[u8]) -> (r: Result<u32, DecodeError>)
    ensures
        match decode(input@) {
            Err(e) => r == Err::<u32, DecodeError>(e),
            Ok(Value::Float(bits)) => match r {
                Ok(b) => widen(b) == bits,
                Err(e) => e == DecodeError::PrecisionLoss && forall|b: u32| widen(b) != bits,
            },
            Ok(_) => r == Err::<u32, DecodeError>(
                DecodeError::TypeMismatch { name: Expected::Float, byte: input@[0] },
            ),
        },
{
    match from_slice(input) {
        Err(e) => Err(e),
        Ok(Ipld::Float(bits)) => match narrow_f64_bits(bits) {
            Some(b) => Ok(b),
            None => Err(DecodeError::PrecisionLoss),
        },
        Ok(_) => Err(DecodeError::TypeMismatch { name: Expected::Float, byte: input[0] }),
    }
}

/// Decodes the whole input as a tuple struct with `fields` fields, of which
/// the first `required` have no default: an array of at least `required`
/// and at most `fields` elements. The elements come back in order; the
/// caller fills the fields past them with their defaults.
pub fn from_slice_tuple(input: &[u8], required: u64, fields: u64) -> (r: Result<
    Vec<Ipld>,
    DecodeError,
>)
    requires
        required <= fields,
    ensures
        match decode(input@) {
            Err(e) => r == Err::<Vec<Ipld>, DecodeError>(e),
            Ok(Value::List(items)) => if items.len() > fields {
                r == Err::<Vec<Ipld>, DecodeError>(
                    DecodeError::RequireLength { expect: fields, value: items.len() as u64 },
                )
            } else if items.len() < required {
                r == Err::<Vec<Ipld>, DecodeError>(DecodeError::Eof)
            } else {
                r is Ok && models(r->Ok_0@) == items
            },
            Ok(_) => r == Err::<Vec<Ipld>, DecodeError>(
                DecodeError::TypeMismatch { name: Expected::Array, byte: input@[0] },
            ),
        },
{
    let v = match from_slice(input) {
        Ok(v) => v,
        Err(e) => {
            return Err(e);
        },
    };
    match v {
        Ipld::List(items) => {
            proof {
                lemma_list_view(items);
                assert(models(items@) =~= Ipld::List(items)@->List_0);
            }
            let n = items.len() as u64;
            if n > fields {
                Err(DecodeError::RequireLength { expect: fields, value: n })
            } else if n < required {
                Err(DecodeError::Eof)
            } else {
                Ok(items)
            }
        },
        _ => Err(DecodeError::TypeMismatch { name: Expected::Array, byte: input[0] }),
    }
}

} // verus!
