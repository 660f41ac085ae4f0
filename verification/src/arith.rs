//! Binary arithmetic underlying the wire format: bit widths, bit fields of
//! non-negative integers, and minimal big-endian byte representations of
//! signed and unsigned integers.

use vstd::prelude::*;
use vstd::arithmetic::power2::pow2;
use vstd::arithmetic::power2::lemma_pow2_adds;
use vstd::arithmetic::power2::lemma_pow2_unfold;
use vstd::arithmetic::power2::lemma_pow2_pos;
use vstd::arithmetic::power2::lemma2_to64;
use vstd::arithmetic::power2::lemma2_to64_rest;
use vstd::arithmetic::div_mod::lemma_fundamental_div_mod;
use vstd::arithmetic::div_mod::lemma_mod_bound;

verus! {

/// Number of binary digits of `x`: the least `w` with `x < 2^w` (0 when `x <= 0`).
pub open spec fn bits_for(x: int) -> nat
    decreases x,
{
    if x <= 0 {
        0
    } else {
        (1 + bits_for(x / 2)) as nat
    }
}

/// The value `v` written as `w` bits, most significant first.
pub open spec fn u_bits(v: int, w: nat) -> Seq<bool> {
    Seq::new(w, |i: int| (v / pow2((w - 1 - i) as nat) as int) % 2 == 1)
}

/// The non-negative integer denoted by a bit sequence, most significant bit first.
pub open spec fn val_of(s: Seq<bool>) -> int
    decreases s.len(),
{
    if s.len() == 0 {
        0
    } else {
        2 * val_of(s.drop_last()) + if s.last() {
            1int
        } else {
            0int
        }
    }
}

/// The two's-complement integer denoted by a bit sequence (empty means zero).
pub open spec fn sval_of(s: Seq<bool>) -> int {
    val_of(s) - if s.len() > 0 && s[0] {
        pow2(s.len()) as int
    } else {
        0int
    }
}

/// The eight bits of a byte, most significant first.
pub open spec fn byte_bits(b: u8) -> Seq<bool> {
    u_bits(b as int, 8)
}

/// A big-endian byte sequence flattened to bits.
pub open spec fn bytes_bits(s: Seq<u8>) -> Seq<bool>
    decreases s.len(),
{
    if s.len() == 0 {
        Seq::empty()
    } else {
        bytes_bits(s.drop_last()) + byte_bits(s.last())
    }
}

/// The non-negative integer denoted by a big-endian byte sequence.
pub open spec fn be_uval(s: Seq<u8>) -> int
    decreases s.len(),
{
    if s.len() == 0 {
        0
    } else {
        256 * be_uval(s.drop_last()) + s.last()
    }
}

/// The two's-complement integer denoted by a big-endian byte sequence.
pub open spec fn be_sval(s: Seq<u8>) -> int {
    be_uval(s) - if s.len() > 0 && s[0] >= 128 {
        pow2((8 * s.len()) as nat) as int
    } else {
        0int
    }
}

/// Minimal big-endian bytes of an unsigned integer (one zero byte for zero).
pub open spec fn min_ubytes(v: int) -> Seq<u8>
    decreases v,
{
    if v < 256 {
        seq![(if v >= 0 { v } else { 0int }) as u8]
    } else {
        min_ubytes(v / 256).push((v % 256) as u8)
    }
}

/// Minimal big-endian two's-complement bytes of a signed integer.
pub open spec fn min_sbytes(v: int) -> Seq<u8>
    decreases (if v < 0 { -v } else { v }),
{
    if -128 <= v < 128 {
        seq![(v % 256) as u8]
    } else {
        min_sbytes(v / 256).push((v % 256) as u8)
    }
}

/// A sequence of `n` zero bits.
pub open spec fn zeros(n: nat) -> Seq<bool> {
    Seq::new(n, |i: int| false)
}

/// `bits_for` is monotone in its bound: `x < 2^w` forces at most `w` digits.
pub proof fn lemma_bits_for_le(x: int, w: nat)
    requires
        x < pow2(w),
    ensures
        bits_for(x) <= w,
    decreases w,
{
    if x <= 0 {
    } else if w == 0 {
        assert(pow2(0) == 1) by {
            lemma2_to64();
        }
    } else {
        lemma_pow2_unfold(w);
        lemma_fundamental_div_mod(x, 2);
        lemma_mod_bound(x, 2);
        lemma_bits_for_le(x / 2, (w - 1) as nat);
    }
}

/// Every integer fits in `bits_for` of itself many bits.
pub proof fn lemma_bits_for_bound(x: int)
    requires
        x >= 0,
    ensures
        x < pow2(bits_for(x)),
    decreases x,
{
    if x == 0 {
        lemma2_to64();
    } else {
        lemma_bits_for_bound(x / 2);
        lemma_fundamental_div_mod(x, 2);
        lemma_mod_bound(x, 2);
        assert(bits_for(x) == 1 + bits_for(x / 2));
        lemma_pow2_unfold(bits_for(x));
        assert(pow2(bits_for(x)) == 2 * pow2(bits_for(x / 2)));
        assert(x <= 2 * (x / 2) + 1);
        assert(x / 2 + 1 <= pow2(bits_for(x / 2)));
    }
}

/// The value of a concatenation: the left part is shifted past the right part.
pub proof fn lemma_val_of_concat(a: Seq<bool>, b: Seq<bool>)
    ensures
        val_of(a + b) == val_of(a) * pow2(b.len()) + val_of(b),
    decreases b.len(),
{
    if b.len() == 0 {
        assert(a + b =~= a);
        lemma2_to64();
    } else {
        let bl = b.drop_last();
        lemma_val_of_concat(a, bl);
        assert((a + b).drop_last() =~= a + bl);
        assert((a + b).last() == b.last());
        lemma_pow2_unfold(b.len());
        let p = pow2((b.len() - 1) as nat) as int;
        let lastb: int = if b.last() { 1 } else { 0 };
        assert(bl.len() == b.len() - 1);
        assert(val_of(a + b) == 2 * val_of(a + bl) + lastb);
        assert(val_of(a + bl) == val_of(a) * p + val_of(bl));
        assert(val_of(b) == 2 * val_of(bl) + lastb);
        assert(val_of(a) * (2 * p) == 2 * (val_of(a) * p)) by (nonlinear_arith);
        assert(pow2(b.len()) == 2 * p);
        assert(val_of(a + b) == val_of(a) * (2 * p) + (2 * val_of(bl) + lastb));
    }
}

/// Bit sequences denote values below `2^len`.
pub proof fn lemma_val_of_bound(s: Seq<bool>)
    ensures
        0 <= val_of(s) < pow2(s.len()),
    decreases s.len(),
{
    if s.len() == 0 {
        lemma2_to64();
    } else {
        lemma_val_of_bound(s.drop_last());
        lemma_pow2_unfold(s.len());
    }
}

/// Reading back the `w`-bit field of `v` yields `v`.
pub proof fn lemma_val_of_u_bits(v: int, w: nat)
    requires
        0 <= v < pow2(w),
    ensures
        val_of(u_bits(v, w)) == v,
    decreases w,
{
    if w == 0 {
        lemma2_to64();
    } else {
        lemma_pow2_unfold(w);
        lemma_fundamental_div_mod(v, 2);
        lemma_mod_bound(v, 2);
        lemma_val_of_u_bits(v / 2, (w - 1) as nat);
        assert(u_bits(v, w).drop_last() =~= u_bits(v / 2, (w - 1) as nat)) by {
            assert forall|i: int| 0 <= i < w - 1 implies u_bits(v, w)[i] == u_bits(
                v / 2,
                (w - 1) as nat,
            )[i] by {
                let e = (w - 1 - i - 1) as nat;
                lemma_pow2_pos(e);
                lemma_pow2_unfold((w - 1 - i) as nat);
                vstd::arithmetic::div_mod::lemma_div_denominator(v, 2, pow2(e) as int);
            }
        }
        assert(u_bits(v, w).last() == (v % 2 == 1)) by {
            lemma2_to64();
            assert(pow2((w - 1 - (w - 1)) as nat) == 1);
            vstd::arithmetic::div_mod::lemma_div_basics(v);
        }
    }
}

/// Flattened bytes denote the same value as the bytes themselves.
pub proof fn lemma_val_of_bytes_bits(s: Seq<u8>)
    ensures
        bytes_bits(s).len() == 8 * s.len(),
        val_of(bytes_bits(s)) == be_uval(s),
    decreases s.len(),
{
    if s.len() == 0 {
    } else {
        assert(pow2(8) == 256) by {
            lemma2_to64();
        }
        let dl = s.drop_last();
        lemma_val_of_bytes_bits(dl);
        lemma_val_of_concat(bytes_bits(dl), byte_bits(s.last()));
        lemma_val_of_u_bits(s.last() as int, 8);
        assert(bytes_bits(s) == bytes_bits(dl) + byte_bits(s.last()));
        assert(byte_bits(s.last()).len() == 8);
        assert(val_of(bytes_bits(s)) == val_of(bytes_bits(dl)) * 256 + val_of(
            byte_bits(s.last()),
        ));
        assert(be_uval(s) == 256 * be_uval(dl) + s.last());
    }
}

/// The minimal unsigned bytes of `v` denote `v`.
pub proof fn lemma_be_uval_min_ubytes(v: int)
    requires
        v >= 0,
    ensures
        min_ubytes(v).len() >= 1,
        be_uval(min_ubytes(v)) == v,
    decreases v,
{
    if v < 256 {
        let s = min_ubytes(v);
        assert(s.len() == 1);
        assert(s.last() == v as u8);
        assert(be_uval(s.drop_last()) == 0);
    } else {
        lemma_be_uval_min_ubytes(v / 256);
        lemma_fundamental_div_mod(v, 256);
        lemma_mod_bound(v, 256);
        let s = min_ubytes(v);
        assert(s.drop_last() =~= min_ubytes(v / 256));
        assert(s.last() == (v % 256) as u8);
    }
}

/// The minimal signed bytes of `v` denote `v` in two's complement.
pub proof fn lemma_be_sval_min_sbytes(v: int)
    ensures
        min_sbytes(v).len() >= 1,
        be_sval(min_sbytes(v)) == v,
    decreases (if v < 0 { -v } else { v }),
{
    lemma_fundamental_div_mod(v, 256);
    lemma_mod_bound(v, 256);
    if -128 <= v < 128 {
        assert(pow2(8) == 256) by {
            lemma2_to64();
        }
        let s = min_sbytes(v);
        assert(s.len() == 1);
        assert(s.last() == (v % 256) as u8);
        assert(be_uval(s.drop_last()) == 0);
        if v >= 0 {
            vstd::arithmetic::div_mod::lemma_small_mod(v as nat, 256);
            assert(s[0] < 128);
        } else {
            assert(v % 256 == v + 256);
            assert(s[0] >= 128);
        }
    } else {
        lemma_be_sval_min_sbytes(v / 256);
        let s = min_sbytes(v);
        let p = min_sbytes(v / 256);
        assert(s.drop_last() =~= p);
        assert(s[0] == p[0]);
        assert(be_uval(s) == 256 * be_uval(p) + (v % 256));
        lemma_pow2_adds((8 * p.len()) as nat, 8);
        assert(pow2(8) == 256) by {
            lemma2_to64();
        }
    }
}

/// `2^e`, computed for exponents that keep the result inside `u128`.
pub fn pow2_u128(e: u32) -> (r: u128)
    requires
        e <= 127,
    ensures
        r == pow2(e as nat),
{
    let mut r: u128 = 1;
    let mut i: u32 = 0;
    proof {
        lemma2_to64();
        lemma2_to64_rest();
        vstd::arithmetic::power2::lemma_pow2_strictly_increases(i as nat, 127);
    }
    while i < e
        invariant
            i <= e,
            e <= 127,
            r == pow2(i as nat),
        decreases e - i,
    {
        proof {
            lemma_pow2_unfold(i as nat + 1);
            vstd::arithmetic::power2::lemma_pow2_strictly_increases(i as nat + 1, 128);
            lemma_pow2_adds(64, 64);
            lemma2_to64();
            lemma2_to64_rest();
        }
        r = r * 2;
        i = i + 1;
    }
    r
}

/// Minimal big-endian bytes of an unsigned value.
pub fn to_unsigned_be_bytes(u: u128) -> (r: Vec<u8>)
    ensures
        r@ == min_ubytes(u as int),
    decreases u,
{
    if u < 256 {
        let mut r: Vec<u8> = Vec::new();
        r.push(u as u8);
        proof {
            assert(r@ =~= min_ubytes(u as int));
        }
        r
    } else {
        let mut r = to_unsigned_be_bytes(u / 256);
        r.push((u % 256) as u8);
        proof {
            assert(r@ =~= min_ubytes(u as int));
        }
        r
    }
}

/// Minimal two's-complement big-endian bytes of a non-negative value.
fn pos_signed_be_bytes(u: u128) -> (r: Vec<u8>)
    ensures
        r@ == min_sbytes(u as int),
    decreases u,
{
    if u < 128 {
        let mut r: Vec<u8> = Vec::new();
        r.push(u as u8);
        proof {
            vstd::arithmetic::div_mod::lemma_small_mod(u as nat, 256);
            assert(r@ =~= min_sbytes(u as int));
        }
        r
    } else {
        let mut r = pos_signed_be_bytes(u / 256);
        r.push((u % 256) as u8);
        proof {
            assert(r@ =~= min_sbytes(u as int));
        }
        r
    }
}

/// Minimal two's-complement big-endian bytes of the negative value `-w - 1`.
fn neg_signed_be_bytes(w: u128) -> (r: Vec<u8>)
    ensures
        r@ == min_sbytes(-(w as int) - 1),
    decreases w,
{
    let ghost v: int = -(w as int) - 1;
    proof {
        lemma_fundamental_div_mod(v, 256);
        lemma_mod_bound(v, 256);
        lemma_fundamental_div_mod(w as int, 256);
        lemma_mod_bound(w as int, 256);
    }
    if w < 128 {
        let mut r: Vec<u8> = Vec::new();
        r.push(255 - (w as u8));
        proof {
            assert(v == 256 * (-1) + (255 - w));
            assert(v % 256 == 255 - w);
            assert(r@ =~= min_sbytes(v));
        }
        r
    } else {
        proof {
            assert(v == 256 * (-(w as int / 256) - 1) + (255 - (w as int % 256)));
            assert(v / 256 == -(w as int / 256) - 1);
            assert(v % 256 == 255 - (w as int % 256));
        }
        let mut r = neg_signed_be_bytes(w / 256);
        r.push(255 - ((w % 256) as u8));
        proof {
            assert(r@ =~= min_sbytes(v));
        }
        r
    }
}

/// The difference of two signed values, which always fits unsigned.
pub fn sub_i128(a: i128, b: i128) -> (r: u128)
    requires
        b <= a,
    ensures
        r == a - b,
{
    let ab = shift_up(a);
    let bb = shift_up(b);
    ab - bb
}

/// An `u128` shifted back down into `i128` order-preservingly.
pub(crate) fn shift_down(x: u128) -> (r: i128)
    ensures
        r == x - 0x80000000000000000000000000000000,
{
    if x >= 0x80000000000000000000000000000000u128 {
        (x - 0x80000000000000000000000000000000u128) as i128
    } else {
        let d = 0x80000000000000000000000000000000u128 - x;
        let dm1 = (d - 1) as i128;
        (-dm1) - 1
    }
}

/// The sum of a signed and an unsigned value, when it stays in range.
pub fn add_signed_unsigned(a: i128, d: u128) -> (r: i128)
    requires
        a + d <= i128::MAX,
    ensures
        r == a + d,
{
    shift_down(shift_up(a) + d)
}

/// Reading back the bits of a value yields the bits: `u_bits` inverts
/// `val_of` on sequences of the right length.
pub proof fn lemma_u_bits_val_of(s: Seq<bool>)
    ensures
        u_bits(val_of(s), s.len()) == s,
    decreases s.len(),
{
    let w = s.len();
    if w == 0 {
        assert(u_bits(val_of(s), 0) =~= s);
    } else {
        let dl = s.drop_last();
        lemma_u_bits_val_of(dl);
        let v = val_of(s);
        let b: int = if s.last() {
            1
        } else {
            0
        };
        lemma_val_of_bound(dl);
        assert(v == 2 * val_of(dl) + b);
        assert(v / 2 == val_of(dl) && v % 2 == b) by {
            lemma_fundamental_div_mod(v, 2);
            lemma_mod_bound(v, 2);
        }
        assert(u_bits(v, w) =~= s) by {
            assert forall|i: int| 0 <= i < w implies u_bits(v, w)[i] == s[i] by {
                if i < w - 1 {
                    let e = (w - 1 - i - 1) as nat;
                    lemma_pow2_pos(e);
                    lemma_pow2_unfold((w - 1 - i) as nat);
                    vstd::arithmetic::div_mod::lemma_div_denominator(v, 2, pow2(e) as int);
                    assert(u_bits(val_of(dl), dl.len())[i] == dl[i]);
                    assert(dl[i] == s[i]);
                } else {
                    lemma2_to64();
                    assert(pow2((w - 1 - (w - 1)) as nat) == 1);
                    vstd::arithmetic::div_mod::lemma_div_basics(v);
                }
            }
        }
    }
}

/// The leading bit decides whether the value reaches the upper half.
pub proof fn lemma_val_of_first_bit(s: Seq<bool>)
    requires
        s.len() > 0,
    ensures
        s[0] <==> val_of(s) >= pow2((s.len() - 1) as nat),
{
    let head = seq![s[0]];
    let tail = s.skip(1);
    assert(head + tail =~= s);
    lemma_val_of_concat(head, tail);
    lemma_val_of_bound(tail);
    assert(head.drop_last() =~= Seq::<bool>::empty());
    assert(val_of(Seq::<bool>::empty()) == 0);
    assert(head.last() == s[0]);
    assert(val_of(head) == if s[0] {
        1int
    } else {
        0int
    });
    lemma_pow2_pos((s.len() - 1) as nat);
}

/// An `i128` shifted into `u128` order-preservingly.
pub(crate) fn shift_up(x: i128) -> (r: u128)
    ensures
        r == x + 0x80000000000000000000000000000000,
{
    if x >= 0 {
        (x as u128) + 0x80000000000000000000000000000000
    } else {
        ((x + 1) + 0x7FFFFFFFFFFFFFFFFFFFFFFFFFFFFFFFi128) as u128
    }
}

/// Minimal two's-complement big-endian bytes of a signed value.
pub fn to_signed_be_bytes(v: i128) -> (r: Vec<u8>)
    ensures
        r@ == min_sbytes(v as int),
{
    if v >= 0 {
        pos_signed_be_bytes(v as u128)
    } else {
        neg_signed_be_bytes((-(v + 1)) as u128)
    }
}

} // verus!
