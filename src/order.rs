//! Byte-wise lexicographic order on byte sequences, and a verified sort of
//! byte buffers by it.

use vstd::prelude::*;
use vstd::relations::{sorted_by, total_ordering};

verus! {

/// `a` comes before `b` or equals it, comparing byte by byte as unsigned
/// numbers; a proper prefix comes first.
pub open spec fn lex_le(a: Seq<u8>, b: Seq<u8>) -> bool
    decreases a.len(),
{
    if a.len() == 0 {
        true
    } else if b.len() == 0 {
        false
    } else if a[0] != b[0] {
        a[0] < b[0]
    } else {
        lex_le(a.drop_first(), b.drop_first())
    }
}

/// `a` comes strictly before `b`.
pub open spec fn lex_lt(a: Seq<u8>, b: Seq<u8>) -> bool {
    lex_le(a, b) && a != b
}

/// The order as a relation, for sorting.
pub open spec fn lex_leq() -> spec_fn(Seq<u8>, Seq<u8>) -> bool {
    |a: Seq<u8>, b: Seq<u8>| lex_le(a, b)
}

pub proof fn lemma_lex_refl(a: Seq<u8>)
    ensures
        lex_le(a, a),
    decreases a.len(),
{
    if a.len() > 0 {
        lemma_lex_refl(a.drop_first());
    }
}

pub proof fn lemma_lex_antisym(a: Seq<u8>, b: Seq<u8>)
    requires
        lex_le(a, b),
        lex_le(b, a),
    ensures
        a == b,
    decreases a.len(),
{
    if a.len() > 0 {
        lemma_lex_antisym(a.drop_first(), b.drop_first());
        assert(a =~= seq![a[0]] + a.drop_first());
        assert(b =~= seq![b[0]] + b.drop_first());
    } else {
        assert(b.len() == 0);
        assert(a =~= b);
    }
}

pub proof fn lemma_lex_trans(a: Seq<u8>, b: Seq<u8>, c: Seq<u8>)
    requires
        lex_le(a, b),
        lex_le(b, c),
    ensures
        lex_le(a, c),
    decreases a.len(),
{
    if a.len() > 0 && b.len() > 0 && c.len() > 0 && a[0] == b[0] && b[0] == c[0] {
        lemma_lex_trans(a.drop_first(), b.drop_first(), c.drop_first());
    }
}

pub proof fn lemma_lex_total(a: Seq<u8>, b: Seq<u8>)
    ensures
        lex_le(a, b) || lex_le(b, a),
    decreases a.len(),
{
    if a.len() > 0 && b.len() > 0 && a[0] == b[0] {
        lemma_lex_total(a.drop_first(), b.drop_first());
    }
}

pub proof fn lemma_lex_total_ordering()
    ensures
        total_ordering(lex_leq()),
{
    assert forall|a: Seq<u8>| #[trigger] lex_leq()(a, a) by {
        lemma_lex_refl(a);
    }
    assert forall|a: Seq<u8>, b: Seq<u8>| #[trigger]
        lex_leq()(a, b) && #[trigger] lex_leq()(b, a) implies a == b by {
        lemma_lex_antisym(a, b);
    }
    assert forall|a: Seq<u8>, b: Seq<u8>, c: Seq<u8>| #[trigger]
        lex_leq()(a, b) && #[trigger] lex_leq()(b, c) implies lex_leq()(a, c) by {
        lemma_lex_trans(a, b, c);
    }
    assert forall|a: Seq<u8>, b: Seq<u8>| #[trigger]
        lex_leq()(a, b) || #[trigger] lex_leq()(b, a) by {
        lemma_lex_total(a, b);
    }
}

/// The contents of a list of byte buffers.
pub open spec fn buffers(v: Seq<Vec<u8>>) -> Seq<Seq<u8>> {
    v.map_values(|b: Vec<u8>| b@)
}

/// Compares two byte strings: true when `a` comes before `b` or equals it.
pub fn lex_le_exec(a: &[u8], b: &[u8]) -> (r: bool)
    ensures
        r == lex_le(a@, b@),
{
    let mut i: usize = 0;
    assert(a@.skip(0) =~= a@ && b@.skip(0) =~= b@);
    while i < a.len() && i < b.len() && a[i] == b[i]
        invariant
            i <= a@.len(),
            i <= b@.len(),
            lex_le(a@, b@) == lex_le(a@.skip(i as int), b@.skip(i as int)),
        decreases a@.len() - i,
    {
        assert(a@.skip(i as int).drop_first() =~= a@.skip(i + 1));
        assert(b@.skip(i as int).drop_first() =~= b@.skip(i + 1));
        i = i + 1;
    }
    if i == a.len() {
        true
    } else if i == b.len() {
        false
    } else {
        a[i] < b[i]
    }
}

/// Sorts byte buffers into byte-wise lexicographic order.
pub fn sort_buffers(entries: Vec<Vec<u8>>) -> (r: Vec<Vec<u8>>)
    ensures
        buffers(r@) == buffers(entries@).sort_by(lex_leq()),
{
    let mut out: Vec<Vec<u8>> = Vec::new();
    let mut rest = entries;
    let ghost orig = buffers(rest@);
    proof {
        assert(orig.take(orig.len() as int) =~= orig);
        assert(orig.skip(orig.len() as int) =~= Seq::<Seq<u8>>::empty());
        assert(buffers(out@) =~= Seq::<Seq<u8>>::empty());
    }
    // Take entries from the back, so each step is a `pop`.
    while rest.len() > 0
        invariant
            buffers(rest@) == orig.take(rest@.len() as int),
            rest@.len() <= orig.len(),
            sorted_by(buffers(out@), lex_leq()),
            buffers(out@).to_multiset() == orig.skip(rest@.len() as int).to_multiset(),
        decreases rest@.len(),
    {
        let ghost prev = rest@;
        let e = rest.pop().unwrap();
        let ghost k = rest@.len() as int;
        proof {
            assert(buffers(rest@) =~= orig.take(k));
            assert(buffers(prev)[k] == orig.take(k + 1)[k]);
            assert(e@ == orig[k]);
        }
        // Find the first position whose buffer comes after `e`.
        let mut j: usize = 0;
        while j < out.len() && lex_le_exec(out[j].as_slice(), e.as_slice())
            invariant
                j <= out@.len(),
                forall|t: int| 0 <= t < j ==> lex_le(#[trigger] out@[t]@, e@),
            decreases out@.len() - j,
        {
            j = j + 1;
        }
        let ghost before = buffers(out@);
        out.insert(j, e);
        proof {
            lemma_lex_total_ordering();
            assert(buffers(out@) =~= before.insert(j as int, e@));
            assert forall|x: int, y: int| 0 <= x < y < buffers(out@).len() implies
                #[trigger] lex_leq()(buffers(out@)[x], buffers(out@)[y]) by {
                let s = buffers(out@);
                if y < j {
                } else if x < j && y == j {
                } else if x < j {
                    assert(lex_le(before[x], e@));
                    assert(lex_leq()(before[x], before[y - 1]));
                    if j < before.len() {
                        lemma_lex_total(before[j as int], e@);
                        assert(!lex_le(before[j as int], e@) || before[j as int] == e@);
                    }
                } else if x == j {
                    if j < before.len() {
                        lemma_lex_total(before[j as int], e@);
                        assert(lex_le(e@, before[j as int]));
                        if y - 1 > j {
                            assert(lex_leq()(before[j as int], before[y - 1]));
                            lemma_lex_trans(e@, before[j as int], before[y - 1]);
                        }
                    }
                } else {
                    assert(s[x] == before[x - 1] && s[y] == before[y - 1]);
                }
            }
            vstd::seq_lib::to_multiset_insert(before, j as int, e@);
            assert(orig.skip(k) =~= orig.skip(k + 1).insert(0, orig[k]));
            vstd::seq_lib::to_multiset_insert(orig.skip(k + 1), 0, orig[k]);
        }
    }
    proof {
        lemma_lex_total_ordering();
        assert(orig.skip(0) =~= orig);
        orig.lemma_sort_by_ensures(lex_leq());
        vstd::seq_lib::lemma_sorted_unique(buffers(out@), orig.sort_by(lex_leq()), lex_leq());
    }
    out
}

} // verus!
