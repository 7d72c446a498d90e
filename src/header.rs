//! The head of a CBOR item: a major type and an argument, written in the
//! narrowest of the five widths that holds the argument.

use vstd::prelude::*;

verus! {

/// The big-endian reading of a byte sequence.
pub open spec fn be_value(s: Seq<u8>) -> nat
    decreases s.len(),
{
    if s.len() == 0 {
        0
    } else {
        be_value(s.drop_last()) * 256 + s.last() as nat
    }
}

/// Two big-endian bytes of `n`.
pub open spec fn be2(n: nat) -> Seq<u8> {
    seq![(n / 0x100 % 0x100) as u8, (n % 0x100) as u8]
}

/// Four big-endian bytes of `n`.
pub open spec fn be4(n: nat) -> Seq<u8> {
    seq![
        (n / 0x100_0000 % 0x100) as u8,
        (n / 0x1_0000 % 0x100) as u8,
        (n / 0x100 % 0x100) as u8,
        (n % 0x100) as u8,
    ]
}

/// Eight big-endian bytes of `n`.
pub open spec fn be8(n: nat) -> Seq<u8> {
    be4(n / 0x1_0000_0000) + be4(n % 0x1_0000_0000)
}

/// The first byte of a head: the major type in the top three bits, the
/// argument or width marker in the low five.
pub open spec fn initial(major: u8, low: u8) -> u8 {
    (major * 32 + low) as u8
}

/// The canonical head for major type `major` and argument `n`: the argument
/// itself when it is at most 23, else a marker 24, 25, 26 or 27 followed by
/// one, two, four or eight big-endian bytes, whichever is the narrowest that
/// holds `n`.
pub open spec fn header(major: u8, n: u64) -> Seq<u8> {
    if n <= 23 {
        seq![initial(major, n as u8)]
    } else if n <= 0xff {
        seq![initial(major, 24), n as u8]
    } else if n <= 0xffff {
        seq![initial(major, 25)] + be2(n as nat)
    } else if n <= 0xffff_ffff {
        seq![initial(major, 26)] + be4(n as nat)
    } else {
        seq![initial(major, 27)] + be8(n as nat)
    }
}

/// Two big-endian bytes read back as the number they were written from.
pub proof fn lemma_be2(n: nat)
    requires
        n < 0x1_0000,
    ensures
        be_value(be2(n)) == n,
{
    let s = be2(n);
    assert(s.drop_last().drop_last() =~= Seq::<u8>::empty());
    assert(be_value(Seq::<u8>::empty()) == 0);
    assert(be_value(s.drop_last()) == n / 0x100 % 0x100);
}

/// Four big-endian bytes read back as the number they were written from.
pub proof fn lemma_be4(n: nat)
    requires
        n < 0x1_0000_0000,
    ensures
        be_value(be4(n)) == n,
{
    let s = be4(n);
    let s3 = s.drop_last();
    let s2 = s3.drop_last();
    let s1 = s2.drop_last();
    assert(s1.drop_last() =~= Seq::<u8>::empty());
    assert(be_value(Seq::<u8>::empty()) == 0);
    assert(be_value(s1) == n / 0x100_0000 % 0x100);
    assert(be_value(s2) == n / 0x1_0000) by (nonlinear_arith)
        requires
            be_value(s2) == be_value(s1) * 256 + (n / 0x1_0000 % 0x100),
            be_value(s1) == n / 0x100_0000 % 0x100,
            n < 0x1_0000_0000,
    ;
    assert(be_value(s3) == n / 0x100) by (nonlinear_arith)
        requires
            be_value(s3) == be_value(s2) * 256 + (n / 0x100 % 0x100),
            be_value(s2) == n / 0x1_0000,
    ;
    assert(be_value(s) == n) by (nonlinear_arith)
        requires
            be_value(s) == be_value(s3) * 256 + (n % 0x100),
            be_value(s3) == n / 0x100,
    ;
}

/// The big-endian reading of a concatenation.
pub proof fn lemma_be_value_concat(a: Seq<u8>, b: Seq<u8>)
    ensures
        be_value(a + b) == be_value(a) * pow256(b.len()) + be_value(b),
    decreases b.len(),
{
    if b.len() == 0 {
        assert(a + b =~= a);
        assert(pow256(0) == 1);
        assert(be_value(b) == 0);
    } else {
        assert((a + b).drop_last() =~= a + b.drop_last());
        lemma_be_value_concat(a, b.drop_last());
        let p = pow256((b.len() - 1) as nat);
        assert((a + b).last() == b.last());
        assert(be_value(a + b) == be_value((a + b).drop_last()) * 256 + (a + b).last() as nat);
        assert(be_value(b) == be_value(b.drop_last()) * 256 + b.last() as nat);
        assert(pow256(b.len()) == p * 256);
        let x = be_value(a);
        let y = be_value(b.drop_last());
        assert((x * p + y) * 256 == x * (p * 256) + y * 256) by (nonlinear_arith);
        assert(be_value(a + b) == x * pow256(b.len()) + be_value(b));
    }
}

/// 256 to the power `k`.
pub open spec fn pow256(k: nat) -> nat
    decreases k,
{
    if k == 0 {
        1
    } else {
        pow256((k - 1) as nat) * 256
    }
}

/// `k` big-endian bytes hold less than `256^k`.
pub proof fn lemma_be_value_bound(s: Seq<u8>)
    ensures
        be_value(s) < pow256(s.len()),
    decreases s.len(),
{
    if s.len() > 0 {
        lemma_be_value_bound(s.drop_last());
        let x = be_value(s.drop_last());
        let p = pow256((s.len() - 1) as nat);
        assert(x * 256 + s.last() < p * 256) by (nonlinear_arith)
            requires
                x < p,
                s.last() < 256,
        ;
    }
}

/// Eight big-endian bytes read back as the number they were written from.
pub proof fn lemma_be8(n: nat)
    requires
        n < 0x1_0000_0000_0000_0000,
    ensures
        be_value(be8(n)) == n,
{
    lemma_be4(n / 0x1_0000_0000);
    lemma_be4(n % 0x1_0000_0000);
    lemma_be_value_concat(be4(n / 0x1_0000_0000), be4(n % 0x1_0000_0000));
    reveal_with_fuel(pow256, 5);
    assert(pow256(4) == 0x1_0000_0000);
    let hi = n / 0x1_0000_0000;
    let lo = n % 0x1_0000_0000;
    assert(be4(hi).len() == 4 && be4(lo).len() == 4);
    assert(hi * 0x1_0000_0000 + lo == n);
}

} // verus!
