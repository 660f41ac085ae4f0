//! The bit buffer: an ordered, growable sequence of bits. Every encoded
//! fragment is built in one of these before it is merged into its parent
//! scope or packed into the final byte output.

use vstd::prelude::*;
use vstd::arithmetic::power2::pow2;
use vstd::arithmetic::div_mod::lemma_fundamental_div_mod;
use vstd::arithmetic::div_mod::lemma_mod_bound;
use crate::arith;

verus! {

/// Zero bits appended to reach the next byte boundary from a length of `n` bits.
pub open spec fn pad_len(n: nat) -> nat {
    ((8 - n % 8) % 8) as nat
}

/// `s` padded with zero bits to a whole number of bytes.
pub open spec fn padded(s: Seq<bool>) -> Seq<bool> {
    s + arith::zeros(pad_len(s.len()))
}

/// The bytes that a bit sequence packs into, zero-padded at the tail.
pub open spec fn to_bytes(s: Seq<bool>) -> Seq<u8> {
    Seq::new(
        ((s.len() + 7) / 8) as nat,
        |j: int| arith::val_of(padded(s).subrange(8 * j, 8 * j + 8)) as u8,
    )
}

/// Padding reaches exactly the next byte boundary.
pub proof fn lemma_padded_len(n: nat)
    ensures
        n + pad_len(n) == 8 * ((n + 7) / 8),
        (n + pad_len(n)) % 8 == 0,
        (n + 7) / 8 == n / 8 + (if n % 8 != 0 { 1int } else { 0int }),
{
    lemma_fundamental_div_mod(n as int, 8);
    lemma_mod_bound(n as int, 8);
    let q = n as int / 8;
    let r = n as int % 8;
    if r == 0 {
        assert((n + 7) as int == 8 * q + 7);
        assert((n + 7) as int / 8 == q) by {
            lemma_fundamental_div_mod((n + 7) as int, 8);
            lemma_mod_bound((n + 7) as int, 8);
        }
    } else {
        assert((n + 7) as int == 8 * (q + 1) + (r - 1));
        assert((n + 7) as int / 8 == q + 1) by {
            lemma_fundamental_div_mod((n + 7) as int, 8);
            lemma_mod_bound((n + 7) as int, 8);
        }
    }
}

/// An ordered, growable sequence of bits.
pub struct BitBuffer {
    bits: Vec<bool>,
}

impl View for BitBuffer {
    type V = Seq<bool>;

    closed spec fn view(&self) -> Seq<bool> {
        self.bits@
    }
}

impl Clone for BitBuffer {
    fn clone(&self) -> (r: Self)
        ensures
            r@ == self@,
    {
        BitBuffer { bits: self.bits.clone() }
    }
}

impl BitBuffer {
    /// An empty buffer.
    pub fn new() -> (r: Self)
        ensures
            r@ == Seq::<bool>::empty(),
    {
        BitBuffer { bits: Vec::new() }
    }

    /// The number of bits held.
    pub fn len(&self) -> (r: usize)
        ensures
            r == self@.len(),
    {
        self.bits.len()
    }

    /// The bit at position `i`.
    pub fn get(&self, i: usize) -> (r: bool)
        requires
            i < self@.len(),
        ensures
            r == self@[i as int],
    {
        self.bits[i]
    }

    /// Appends a single bit.
    pub fn push(&mut self, b: bool)
        ensures
            final(self)@ == old(self)@.push(b),
    {
        self.bits.push(b);
    }

    /// Appends every bit of `other`.
    pub fn append_bits(&mut self, other: &BitBuffer)
        ensures
            final(self)@ == old(self)@ + other@,
    {
        let n = other.bits.len();
        let mut i: usize = 0;
        proof {
            assert(self@ =~= self@ + other@.take(0));
        }
        while i < n
            invariant
                n == other@.len(),
                i <= n,
                self@ == old(self)@ + other@.take(i as int),
            decreases n - i,
        {
            self.bits.push(other.bits[i]);
            proof {
                assert(old(self)@ + other@.take(i as int + 1) =~= (old(self)@ + other@.take(
                    i as int,
                )).push(other@[i as int]));
            }
            i = i + 1;
        }
        proof {
            assert(other@.take(n as int) =~= other@);
        }
    }

    /// Appends the value `v` as a field of `w` bits, most significant first.
    pub fn push_u_bits(&mut self, v: u128, w: u32)
        requires
            w <= 127,
            v < pow2(w as nat),
        ensures
            final(self)@ == old(self)@ + arith::u_bits(v as int, w as nat),
    {
        let ghost target = arith::u_bits(v as int, w as nat);
        let mut i: u32 = 0;
        proof {
            assert(self@ =~= self@ + target.take(0));
        }
        while i < w
            invariant
                i <= w,
                w <= 127,
                v < pow2(w as nat),
                target == arith::u_bits(v as int, w as nat),
                self@ == old(self)@ + target.take(i as int),
            decreases w - i,
        {
            let p = arith::pow2_u128(w - 1 - i);
            proof {
                vstd::arithmetic::power2::lemma_pow2_pos((w - 1 - i) as nat);
            }
            let bit = (v / p) % 2 == 1;
            self.bits.push(bit);
            proof {
                assert(target[i as int] == bit);
                assert(target.take(i as int + 1) =~= target.take(i as int).push(bit));
                assert(old(self)@ + target.take(i as int + 1) =~= (old(self)@ + target.take(
                    i as int,
                )).push(bit));
            }
            i = i + 1;
        }
        proof {
            assert(target.take(w as int) =~= target);
        }
    }

    /// Appends one byte, most significant bit first.
    pub fn push_byte(&mut self, b: u8)
        ensures
            final(self)@ == old(self)@ + arith::byte_bits(b),
    {
        proof {
            vstd::arithmetic::power2::lemma2_to64();
        }
        self.push_u_bits(b as u128, 8);
    }

    /// Appends a byte sequence, each byte most significant bit first.
    pub fn append_bytes(&mut self, bytes: &[u8])
        ensures
            final(self)@ == old(self)@ + arith::bytes_bits(bytes@),
    {
        let n = bytes.len();
        let mut i: usize = 0;
        proof {
            assert(arith::bytes_bits(bytes@.take(0)) =~= Seq::<bool>::empty());
            assert(self@ =~= self@ + arith::bytes_bits(bytes@.take(0)));
        }
        while i < n
            invariant
                n == bytes@.len(),
                i <= n,
                self@ == old(self)@ + arith::bytes_bits(bytes@.take(i as int)),
            decreases n - i,
        {
            self.push_byte(bytes[i]);
            proof {
                let t = bytes@.take(i as int + 1);
                assert(t.drop_last() =~= bytes@.take(i as int));
                assert(t.last() == bytes@[i as int]);
                assert(arith::bytes_bits(t) == arith::bytes_bits(bytes@.take(i as int))
                    + arith::byte_bits(bytes@[i as int]));
            }
            i = i + 1;
        }
        proof {
            assert(bytes@.take(n as int) =~= bytes@);
        }
    }

    /// Appends zero bits until the length is a multiple of eight.
    pub fn pad_to_byte_boundary(&mut self)
        ensures
            final(self)@ == padded(old(self)@),
            final(self)@.len() % 8 == 0,
    {
        let rem = self.bits.len() % 8;
        proof {
            lemma_padded_len(old(self)@.len());
        }
        if rem != 0 {
            let need = 8 - rem;
            let mut i: usize = 0;
            proof {
                assert(self@ =~= self@ + arith::zeros(0));
            }
            while i < need
                invariant
                    i <= need,
                    need == pad_len(old(self)@.len()),
                    self@ == old(self)@ + arith::zeros(i as nat),
                decreases need - i,
            {
                self.bits.push(false);
                proof {
                    assert(old(self)@ + arith::zeros(i as nat + 1) =~= (old(self)@ + arith::zeros(
                        i as nat,
                    )).push(false));
                }
                i = i + 1;
            }
        } else {
            proof {
                assert(padded(old(self)@) =~= old(self)@);
            }
        }
    }

    /// A copy of the bits in positions `start..end`.
    pub fn slice(&self, start: usize, end: usize) -> (r: BitBuffer)
        requires
            start <= end <= self@.len(),
        ensures
            r@ == self@.subrange(start as int, end as int),
    {
        let mut r = BitBuffer::new();
        let mut i = start;
        proof {
            assert(r@ =~= self@.subrange(start as int, start as int));
        }
        while i < end
            invariant
                start <= i <= end <= self@.len(),
                r@ == self@.subrange(start as int, i as int),
            decreases end - i,
        {
            r.bits.push(self.bits[i]);
            proof {
                assert(self@.subrange(start as int, i as int + 1) =~= self@.subrange(
                    start as int,
                    i as int,
                ).push(self@[i as int]));
            }
            i = i + 1;
        }
        r
    }

    /// Packs the bits into bytes, the tail zero-padded to a byte boundary.
    pub fn into_vec(&self) -> (r: Vec<u8>)
        ensures
            r@ == to_bytes(self@),
    {
        let s = Ghost(self@);
        let n = self.bits.len();
        proof {
            lemma_padded_len(n as nat);
        }
        let total = n / 8 + if n % 8 != 0 {
            1
        } else {
            0
        };
        let mut out: Vec<u8> = Vec::new();
        let mut j: usize = 0;
        proof {
            assert(out@ =~= to_bytes(s@).take(0));
        }
        while j < total
            invariant
                n == s@.len(),
                total == (n + 7) / 8,
                n + pad_len(n as nat) == 8 * total,
                j <= total,
                out@ == to_bytes(s@).take(j as int),
                s@ == self@,
            decreases total - j,
        {
            let ghost seg = padded(s@).subrange(8 * j as int, 8 * j as int + 8);
            let mut acc: u32 = 0;
            let mut k: usize = 0;
            proof {
                arith::lemma_val_of_bound(seg.take(0));
            }
            while k < 8
                invariant
                    k <= 8,
                    j < total,
                    n == s@.len(),
                    n + pad_len(n as nat) == 8 * total,
                    seg == padded(s@).subrange(8 * j as int, 8 * j as int + 8),
                    acc == arith::val_of(seg.take(k as int)),
                    acc < 256,
                    s@ == self@,
                decreases 8 - k,
            {
                let idx = 8 * j + k;
                let bit = if idx < n {
                    self.bits[idx]
                } else {
                    false
                };
                proof {
                    assert(seg[k as int] == padded(s@)[8 * j + k]);
                    assert(seg[k as int] == bit);
                    assert(seg.take(k as int + 1).drop_last() =~= seg.take(k as int));
                    arith::lemma_val_of_bound(seg.take(k as int + 1));
                    vstd::arithmetic::power2::lemma2_to64();
                    vstd::arithmetic::power2::lemma_pow2_strictly_increases(
                        (k + 1) as nat,
                        9,
                    );
                }
                acc = 2 * acc + if bit {
                    1
                } else {
                    0
                };
                k = k + 1;
            }
            out.push(acc as u8);
            proof {
                assert(seg.take(8) =~= seg);
                assert(to_bytes(s@)[j as int] == acc as u8);
                assert(to_bytes(s@).take(j as int + 1) =~= to_bytes(s@).take(j as int).push(
                    acc as u8,
                ));
            }
            j = j + 1;
        }
        proof {
            assert(to_bytes(s@).take(total as int) =~= to_bytes(s@));
        }
        out
    }
}

} // verus!
