//! Fixed-width big-endian encodings of unsigned integers, and the
//! byte-lexicographic order on byte strings.  Storage keys sort purely
//! byte-lexicographically, which this module relates to integer order.
use vstd::prelude::*;

verus! {

/// 256 raised to the power `k`.
pub open spec fn pow256(k: nat) -> nat
    decreases k,
{
    if k == 0 {
        1
    } else {
        256 * pow256((k - 1) as nat)
    }
}

/// The `k`-byte big-endian encoding of `n`: base-256 digits, most
/// significant first.  Digits above the `k`-th are discarded.
pub open spec fn be_bytes(n: nat, k: nat) -> Seq<u8>
    decreases k,
{
    if k == 0 {
        Seq::empty()
    } else {
        be_bytes(n / 256, (k - 1) as nat).push((n % 256) as u8)
    }
}

/// The unsigned integer a big-endian byte string stands for.
pub open spec fn from_be(s: Seq<u8>) -> nat
    decreases s.len(),
{
    if s.len() == 0 {
        0
    } else {
        (from_be(s.drop_last()) * 256 + s.last()) as nat
    }
}

/// The integer an exactly-8-byte big-endian string stands for, written
/// without recursion: the positional sum of its digits.
pub open spec fn from_be8(s: Seq<u8>) -> nat {
    (s[0] * 0x100000000000000 + s[1] * 0x1000000000000 + s[2] * 0x10000000000 + s[3] * 0x100000000
        + s[4] * 0x1000000 + s[5] * 0x10000 + s[6] * 0x100 + s[7]) as nat
}

/// Strict byte-lexicographic order: a proper prefix comes first, and
/// otherwise the first differing byte decides.
pub open spec fn lex_lt(a: Seq<u8>, b: Seq<u8>) -> bool
    decreases a.len(),
{
    if b.len() == 0 {
        false
    } else if a.len() == 0 {
        true
    } else {
        a[0] < b[0] || (a[0] == b[0] && lex_lt(a.drop_first(), b.drop_first()))
    }
}

/// Byte-lexicographic order, equality allowed.
pub open spec fn lex_le(a: Seq<u8>, b: Seq<u8>) -> bool {
    lex_lt(a, b) || a == b
}

/// The concrete powers of 256 up to the width of a `u64`.
pub proof fn lemma_pow256_values()
    ensures
        pow256(0) == 1,
        pow256(1) == 0x100,
        pow256(2) == 0x10000,
        pow256(3) == 0x1000000,
        pow256(4) == 0x100000000,
        pow256(5) == 0x10000000000,
        pow256(6) == 0x1000000000000,
        pow256(7) == 0x100000000000000,
        pow256(8) == 0x10000000000000000,
{
    assert(pow256(0) == 1);
    assert(pow256(1) == 0x100);
    assert(pow256(2) == 0x10000);
    assert(pow256(3) == 0x1000000);
    assert(pow256(4) == 0x100000000);
    assert(pow256(5) == 0x10000000000);
    assert(pow256(6) == 0x1000000000000);
    assert(pow256(7) == 0x100000000000000);
    assert(pow256(8) == 0x10000000000000000);
}

pub proof fn lemma_pow256_pos(k: nat)
    ensures
        pow256(k) >= 1,
    decreases k,
{
    if k > 0 {
        lemma_pow256_pos((k - 1) as nat);
    }
}

pub proof fn lemma_pow256_increases(i: nat, j: nat)
    requires
        i <= j,
    ensures
        pow256(i) <= pow256(j),
    decreases j,
{
    if i < j {
        lemma_pow256_increases(i, (j - 1) as nat);
        lemma_pow256_pos((j - 1) as nat);
    }
}

pub proof fn lemma_be_bytes_len(n: nat, k: nat)
    ensures
        be_bytes(n, k).len() == k,
    decreases k,
{
    if k > 0 {
        lemma_be_bytes_len(n / 256, (k - 1) as nat);
    }
}

/// Decoding inverts encoding for values that fit in `k` bytes.
pub proof fn lemma_from_be_be_bytes(n: nat, k: nat)
    requires
        n < pow256(k),
    ensures
        from_be(be_bytes(n, k)) == n,
    decreases k,
{
    if k > 0 {
        let hi = n / 256;
        assert(hi < pow256((k - 1) as nat)) by (nonlinear_arith)
            requires
                n < 256 * pow256((k - 1) as nat),
                hi == n / 256,
        ;
        lemma_from_be_be_bytes(hi, (k - 1) as nat);
        let s = be_bytes(n, k);
        assert(s == be_bytes(hi, (k - 1) as nat).push((n % 256) as u8));
        assert(s.drop_last() =~= be_bytes(hi, (k - 1) as nat));
        assert(s.last() == (n % 256) as u8);
        lemma_be_bytes_len(hi, (k - 1) as nat);
        assert(from_be(s) == hi * 256 + n % 256);
        assert(hi * 256 + n % 256 == n) by (nonlinear_arith)
            requires
                hi == n / 256,
        ;
    }
}

/// On 8-byte strings the two readings agree.
pub proof fn lemma_from_be_is_from_be8(s: Seq<u8>)
    requires
        s.len() == 8,
    ensures
        from_be(s) == from_be8(s),
{
    let s7 = s.subrange(0, 7);
    let s6 = s.subrange(0, 6);
    let s5 = s.subrange(0, 5);
    let s4 = s.subrange(0, 4);
    let s3 = s.subrange(0, 3);
    let s2 = s.subrange(0, 2);
    let s1 = s.subrange(0, 1);
    let s0 = s.subrange(0, 0);
    assert(s.drop_last() =~= s7);
    assert(from_be(s) == from_be(s7) * 256 + s[7]);
    assert(s7.drop_last() =~= s6);
    assert(from_be(s7) == from_be(s6) * 256 + s[6]);
    assert(s6.drop_last() =~= s5);
    assert(from_be(s6) == from_be(s5) * 256 + s[5]);
    assert(s5.drop_last() =~= s4);
    assert(from_be(s5) == from_be(s4) * 256 + s[4]);
    assert(s4.drop_last() =~= s3);
    assert(from_be(s4) == from_be(s3) * 256 + s[3]);
    assert(s3.drop_last() =~= s2);
    assert(from_be(s3) == from_be(s2) * 256 + s[2]);
    assert(s2.drop_last() =~= s1);
    assert(from_be(s2) == from_be(s1) * 256 + s[1]);
    assert(s1.drop_last() =~= s0);
    assert(from_be(s1) == from_be(s0) * 256 + s[0]);
    assert(from_be(s0) == 0);
}

/// The positional sum of 8 byte digits stays under 2^64.
pub proof fn lemma_from_be8_bound(s: Seq<u8>)
    requires
        s.len() == 8,
    ensures
        from_be8(s) < 0x10000000000000000,
{
}

/// Decoding inverts the 8-byte encoding of any `u64`.
pub proof fn lemma_from_be8_be_bytes(x: u64)
    ensures
        from_be8(be_bytes(x as nat, 8)) == x,
{
    lemma_pow256_values();
    lemma_be_bytes_len(x as nat, 8);
    lemma_from_be_be_bytes(x as nat, 8);
    lemma_from_be_is_from_be8(be_bytes(x as nat, 8));
}

/// Nothing precedes itself.
pub proof fn lemma_lex_lt_irreflexive(a: Seq<u8>)
    ensures
        !lex_lt(a, a),
    decreases a.len(),
{
    if a.len() > 0 {
        lemma_lex_lt_irreflexive(a.drop_first());
    }
}

/// Equal heads reduce lexicographic comparison to the tails.
pub proof fn lemma_lex_lt_prepend(h: u8, a: Seq<u8>, b: Seq<u8>)
    ensures
        lex_lt(seq![h] + a, seq![h] + b) == lex_lt(a, b),
{
    let x = seq![h] + a;
    let y = seq![h] + b;
    assert(x.drop_first() =~= a);
    assert(y.drop_first() =~= b);
    assert(x[0] == h && y[0] == h);
}

/// A shared prefix never decides a lexicographic comparison.
pub proof fn lemma_lex_lt_concat(p: Seq<u8>, a: Seq<u8>, b: Seq<u8>)
    ensures
        lex_lt(p + a, p + b) == lex_lt(a, b),
    decreases p.len(),
{
    if p.len() == 0 {
        assert(p + a =~= a);
        assert(p + b =~= b);
    } else {
        let t = p.drop_first();
        lemma_lex_lt_concat(t, a, b);
        assert(p + a =~= seq![p[0]] + (t + a));
        assert(p + b =~= seq![p[0]] + (t + b));
        lemma_lex_lt_prepend(p[0], t + a, t + b);
    }
}

/// Integer order carries over to byte-lexicographic order of the
/// fixed-width encodings, whatever bytes follow them.
pub proof fn lemma_be_bytes_lex_lt(a: nat, b: nat, k: nat, s: Seq<u8>, t: Seq<u8>)
    requires
        a < b,
        b < pow256(k),
    ensures
        lex_lt(be_bytes(a, k) + s, be_bytes(b, k) + t),
    decreases k,
{
    if k == 0 {
        assert(b < 1);
        assert(false);
    } else {
        let ha = a / 256;
        let hb = b / 256;
        let la = (a % 256) as u8;
        let lb = (b % 256) as u8;
        assert(be_bytes(a, k) == be_bytes(ha, (k - 1) as nat).push(la));
        assert(be_bytes(b, k) == be_bytes(hb, (k - 1) as nat).push(lb));
        assert(be_bytes(a, k) + s =~= be_bytes(ha, (k - 1) as nat) + (seq![la] + s));
        assert(be_bytes(b, k) + t =~= be_bytes(hb, (k - 1) as nat) + (seq![lb] + t));
        assert(ha <= hb && hb < pow256((k - 1) as nat)) by (nonlinear_arith)
            requires
                a < b,
                b < 256 * pow256((k - 1) as nat),
                ha == a / 256,
                hb == b / 256,
        ;
        if ha == hb {
            assert(a % 256 < b % 256) by (nonlinear_arith)
                requires
                    a < b,
                    a / 256 == b / 256,
            ;
            let p = be_bytes(ha, (k - 1) as nat);
            assert(be_bytes(hb, (k - 1) as nat) == p);
            lemma_lex_lt_concat(p, seq![la] + s, seq![lb] + t);
            assert((seq![la] + s)[0] == la);
            assert((seq![lb] + t)[0] == lb);
            assert(lex_lt(seq![la] + s, seq![lb] + t));
        } else {
            lemma_be_bytes_lex_lt(ha, hb, (k - 1) as nat, seq![la] + s, seq![lb] + t);
        }
    }
}

/// The weak form: with one shared suffix, integer order `<=` carries over.
pub proof fn lemma_be_bytes_lex_le(a: nat, b: nat, k: nat, s: Seq<u8>)
    requires
        a <= b,
        b < pow256(k),
    ensures
        lex_le(be_bytes(a, k) + s, be_bytes(b, k) + s),
{
    if a < b {
        lemma_be_bytes_lex_lt(a, b, k, s, s);
    }
}

/// Append the 8-byte big-endian encoding of `x` to `out`.
pub fn push_u64_be(out: &mut Vec<u8>, x: u64)
    ensures
        final(out)@ == old(out)@ + be_bytes(x as nat, 8),
{
    let ghost pre = out@;
    out.push((x >> 56) as u8);
    out.push((x >> 48) as u8);
    out.push((x >> 40) as u8);
    out.push((x >> 32) as u8);
    out.push((x >> 24) as u8);
    out.push((x >> 16) as u8);
    out.push((x >> 8) as u8);
    out.push(x as u8);
    proof {
        lemma_u64_be_bytes(x);
        assert(out@ =~= pre + be_bytes(x as nat, 8));
    }
}

/// The 8-byte encoding of a `u64`, digit by digit.
proof fn lemma_u64_be_bytes(x: u64)
    ensures
        be_bytes(x as nat, 8) =~= seq![
            (x >> 56) as u8,
            (x >> 48) as u8,
            (x >> 40) as u8,
            (x >> 32) as u8,
            (x >> 24) as u8,
            (x >> 16) as u8,
            (x >> 8) as u8,
            x as u8,
        ],
{
    let x1 = x / 256u64;
    let x2 = x1 / 256u64;
    let x3 = x2 / 256u64;
    let x4 = x3 / 256u64;
    let x5 = x4 / 256u64;
    let x6 = x5 / 256u64;
    let x7 = x6 / 256u64;
    assert(be_bytes(x as nat, 8) == be_bytes(x1 as nat, 7).push((x % 256) as u8));
    assert(be_bytes(x1 as nat, 7) == be_bytes(x2 as nat, 6).push((x1 % 256) as u8));
    assert(be_bytes(x2 as nat, 6) == be_bytes(x3 as nat, 5).push((x2 % 256) as u8));
    assert(be_bytes(x3 as nat, 5) == be_bytes(x4 as nat, 4).push((x3 % 256) as u8));
    assert(be_bytes(x4 as nat, 4) == be_bytes(x5 as nat, 3).push((x4 % 256) as u8));
    assert(be_bytes(x5 as nat, 3) == be_bytes(x6 as nat, 2).push((x5 % 256) as u8));
    assert(be_bytes(x6 as nat, 2) == be_bytes(x7 as nat, 1).push((x6 % 256) as u8));
    assert(be_bytes(x7 as nat, 1) == be_bytes(x7 as nat / 256, 0).push((x7 % 256) as u8));
    assert(be_bytes(x7 as nat / 256, 0) == Seq::<u8>::empty());
    assert((x % 256u64) as u8 == x as u8 && ((x / 256u64) % 256u64) as u8 == (x >> 8) as u8 && (((x
        / 256u64) / 256u64) % 256u64) as u8 == (x >> 16) as u8 && ((((x / 256u64) / 256u64)
        / 256u64) % 256u64) as u8 == (x >> 24) as u8 && (((((x / 256u64) / 256u64) / 256u64)
        / 256u64) % 256u64) as u8 == (x >> 32) as u8 && ((((((x / 256u64) / 256u64) / 256u64)
        / 256u64) / 256u64) % 256u64) as u8 == (x >> 40) as u8 && (((((((x / 256u64) / 256u64)
        / 256u64) / 256u64) / 256u64) / 256u64) % 256u64) as u8 == (x >> 48) as u8 && ((((((((x
        / 256u64) / 256u64) / 256u64) / 256u64) / 256u64) / 256u64) / 256u64) % 256u64) as u8 == (x
        >> 56) as u8) by (bit_vector);
}

/// Read the big-endian `u64` stored at `bytes[at .. at + 8]`.
pub fn read_u64_be(bytes: &Vec<u8>, at: usize) -> (r: u64)
    requires
        at + 8 <= bytes@.len(),
    ensures
        r as nat == from_be(bytes@.subrange(at as int, at + 8)),
        r as nat == from_be8(bytes@.subrange(at as int, at + 8)),
{
    proof {
        lemma_from_be_is_from_be8(bytes@.subrange(at as int, at + 8));
    }
    let n = bytes.len();
    let mut r: u64 = 0;
    let mut i: usize = 0;
    while i < 8
        invariant
            at + 8 <= bytes@.len(),
            bytes@.len() == n,
            i <= 8,
            r as nat == from_be(bytes@.subrange(at as int, at + i)),
            (r as nat) < pow256(i as nat),
        decreases 8 - i,
    {
        proof {
            lemma_pow256_increases((i + 1) as nat, 8);
            lemma_pow256_values();
            let cur = bytes@.subrange(at as int, at + i);
            let next = bytes@.subrange(at as int, at + i + 1);
            assert(next.drop_last() =~= cur);
            assert(next.last() == bytes@[at + i]);
        }
        r = r * 256 + bytes[at + i] as u64;
        i = i + 1;
    }
    r
}

} // verus!
