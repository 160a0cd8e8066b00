//! Fixed-width big-endian integers, whose byte order is their numeric order.

use crate::bytes::lex_lt;
use vstd::prelude::*;

verus! {

/// 256 to the power `w`.
pub open spec fn pow256(w: nat) -> nat
    decreases w,
{
    if w == 0 {
        1
    } else {
        256 * pow256((w - 1) as nat)
    }
}

/// The `w` low base-256 digits of `x`, most significant first.
pub open spec fn be_bytes(x: nat, w: nat) -> Seq<u8>
    decreases w,
{
    if w == 0 {
        Seq::empty()
    } else {
        be_bytes(x / 256, (w - 1) as nat).push((x % 256) as u8)
    }
}

/// The number whose base-256 digits, most significant first, are `s`.
pub open spec fn be_value(s: Seq<u8>) -> nat
    decreases s.len(),
{
    if s.len() == 0 {
        0
    } else {
        be_value(s.drop_last()) * 256 + s.last() as nat
    }
}

/// A signed 64-bit number moved up by 2^63, so that the least becomes zero.
pub open spec fn biased(n: int) -> nat {
    (n + 0x8000_0000_0000_0000) as nat
}

/// The eight bytes that stand for the signed number `n` in an index key.
pub open spec fn number_bytes(n: int) -> Seq<u8> {
    be_bytes(biased(n), 8)
}

/// A number written in `w` digits has `w` digits.
pub proof fn lemma_be_bytes_len(x: nat, w: nat)
    ensures
        be_bytes(x, w).len() == w,
    decreases w,
{
    if w > 0 {
        lemma_be_bytes_len(x / 256, (w - 1) as nat);
    }
}

/// Reading the digits of a number that fits gives the number back.
pub proof fn lemma_be_value_of_bytes(x: nat, w: nat)
    requires
        x < pow256(w),
    ensures
        be_value(be_bytes(x, w)) == x,
    decreases w,
{
    if w > 0 {
        let q = x / 256;
        let s = be_bytes(q, (w - 1) as nat);
        lemma_be_value_of_bytes(q, (w - 1) as nat);
        assert(s.push((x % 256) as u8).drop_last() =~= s);
    }
}

/// Writing the digits of what a byte string reads as gives the string back.
pub proof fn lemma_be_bytes_of_value(s: Seq<u8>)
    ensures
        be_value(s) < pow256(s.len()),
        be_bytes(be_value(s), s.len()) == s,
    decreases s.len(),
{
    if s.len() > 0 {
        let t = s.drop_last();
        lemma_be_bytes_of_value(t);
        let v = be_value(s);
        assert(v / 256 == be_value(t));
        assert(v % 256 == s.last() as nat);
        assert(be_bytes(v, s.len()) =~= s);
    } else {
        assert(be_bytes(be_value(s), s.len()) =~= s);
    }
}

/// With equal lengths before them, the last bytes decide the order only
/// where the strings before them are equal.
pub proof fn lemma_lex_push(s: Seq<u8>, t: Seq<u8>, a: u8, b: u8)
    requires
        s.len() == t.len(),
    ensures
        lex_lt(s.push(a), t.push(b)) == (lex_lt(s, t) || (s == t && a < b)),
    decreases s.len(),
{
    let sa = s.push(a);
    let tb = t.push(b);
    if s.len() == 0 {
        assert(s =~= t);
        assert(sa.drop_first() =~= Seq::<u8>::empty());
        assert(tb.drop_first() =~= Seq::<u8>::empty());
        assert(!lex_lt(Seq::<u8>::empty(), Seq::<u8>::empty()));
        assert(sa[0] == a && tb[0] == b);
    } else {
        assert(sa[0] == s[0] && tb[0] == t[0]);
        assert(sa.drop_first() =~= s.drop_first().push(a));
        assert(tb.drop_first() =~= t.drop_first().push(b));
        lemma_lex_push(s.drop_first(), t.drop_first(), a, b);
        if s[0] == t[0] {
            if s.drop_first() == t.drop_first() {
                assert(s =~= seq![s[0]] + s.drop_first());
                assert(t =~= seq![t[0]] + t.drop_first());
            }
        }
    }
}

/// Numbers that fit in `w` digits are ordered as their digit strings are,
/// and equal only where their digit strings are.
pub proof fn lemma_be_order(x: nat, y: nat, w: nat)
    requires
        x < pow256(w),
        y < pow256(w),
    ensures
        lex_lt(be_bytes(x, w), be_bytes(y, w)) == (x < y),
        (be_bytes(x, w) == be_bytes(y, w)) == (x == y),
    decreases w,
{
    if w > 0 {
        let v = (w - 1) as nat;
        let bx = be_bytes(x / 256, v);
        let by = be_bytes(y / 256, v);
        lemma_be_order(x / 256, y / 256, v);
        lemma_be_bytes_len(x / 256, v);
        lemma_be_bytes_len(y / 256, v);
        lemma_lex_push(bx, by, (x % 256) as u8, (y % 256) as u8);
        if be_bytes(x, w) == be_bytes(y, w) {
            assert(bx =~= be_bytes(x, w).drop_last());
            assert(by =~= be_bytes(y, w).drop_last());
            assert(be_bytes(x, w).last() == (x % 256) as u8);
            assert(be_bytes(y, w).last() == (y % 256) as u8);
        }
    }
}

/// Signed 64-bit numbers are ordered as their eight bytes are.
pub proof fn lemma_number_order(a: int, b: int)
    requires
        i64::MIN <= a <= i64::MAX,
        i64::MIN <= b <= i64::MAX,
    ensures
        lex_lt(number_bytes(a), number_bytes(b)) == (a < b),
        (number_bytes(a) == number_bytes(b)) == (a == b),
{
    assert(pow256(8) == 0x1_0000_0000_0000_0000) by {
        reveal_with_fuel(pow256, 9);
    }
    lemma_be_order(biased(a), biased(b), 8);
}

/// Appends the eight big-endian bytes of `x`.
pub fn push_u64_be(out: &mut Vec<u8>, x: u64)
    ensures
        final(out)@ == old(out)@ + be_bytes(x as nat, 8),
{
    let x1: u64 = x / 256;
    let x2: u64 = x1 / 256;
    let x3: u64 = x2 / 256;
    let x4: u64 = x3 / 256;
    let x5: u64 = x4 / 256;
    let x6: u64 = x5 / 256;
    let x7: u64 = x6 / 256;
    out.push((x7 % 256) as u8);
    out.push((x6 % 256) as u8);
    out.push((x5 % 256) as u8);
    out.push((x4 % 256) as u8);
    out.push((x3 % 256) as u8);
    out.push((x2 % 256) as u8);
    out.push((x1 % 256) as u8);
    out.push((x % 256) as u8);
    proof {
        reveal_with_fuel(be_bytes, 9);
        assert(out@ =~= old(out)@ + be_bytes(x as nat, 8));
    }
}

/// Reads the eight big-endian bytes that start at `at`.
pub fn read_u64_be(s: &[u8], at: usize) -> (x: u64)
    requires
        at + 8 <= s.len(),
    ensures
        x == be_value(s@.subrange(at as int, at + 8)),
        be_bytes(x as nat, 8) == s@.subrange(at as int, at + 8),
{
    let mut x: u64 = 0;
    let mut i: usize = 0;
    while i < 8
        invariant
            i <= 8,
            at + 8 <= s.len(),
            x == be_value(s@.subrange(at as int, at + i)),
            x < pow256(i as nat),
        decreases 8 - i,
    {
        proof {
            reveal_with_fuel(pow256, 10);
            let next = s@.subrange(at as int, at + i + 1);
            assert(next.drop_last() =~= s@.subrange(at as int, at + i));
            assert(next.last() == s@[at + i]);
        }
        x = x * 256 + s[at + i] as u64;
        i += 1;
    }
    proof {
        lemma_be_bytes_of_value(s@.subrange(at as int, at + 8));
    }
    x
}

/// The order-preserving image of a signed number: the number moved up by
/// 2^63.
pub fn bias(n: i64) -> (x: u64)
    ensures
        x == biased(n as int),
{
    ((n as i128) + 0x8000_0000_0000_0000i128) as u64
}

/// The signed number that `x` is the image of.
pub fn unbias(x: u64) -> (n: i64)
    ensures
        biased(n as int) == x,
{
    ((x as i128) - 0x8000_0000_0000_0000i128) as i64
}

} // verus!
