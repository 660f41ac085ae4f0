//! The PER decoder: a single forward-only cursor over a bit buffer,
//! consuming exactly the forms the functions in `wire` describe. Each
//! decoding function is proved to implement its specification function, and
//! the round-trip laws tie those to the encoder's.

use vstd::prelude::*;
use vstd::arithmetic::power2::pow2;
use crate::arith;
use crate::bits;
use crate::bits::BitBuffer;
use crate::constraints::Constraint;
use crate::constraints::Constraints;
use crate::constraints::Extensible;
use crate::constraints::Range;
use crate::constraints::Size;
use crate::constraints::spec_size_of;
use crate::constraints::spec_value_of;
use crate::constraints::spec_any_extensible;
use crate::error::Error;

verus! {

/// The position advanced to the next byte boundary in the aligned variant.
pub open spec fn align_pos(aligned: bool, pos: int) -> int {
    if aligned {
        pos + ((8 - pos % 8) % 8)
    } else {
        pos
    }
}

/// Reading a fixed-width non-negative binary integer field sized for
/// `range` values: the value read and the position after it.
pub open spec fn spec_dec_nnbi(aligned: bool, s: Seq<bool>, pos: int, range: int) -> Option<
    (int, int),
> {
    let w = arith::bits_for(range - 1);
    let p = if range >= 256 {
        align_pos(aligned, pos)
    } else {
        pos
    };
    if 0 <= pos && p + w <= s.len() {
        Some((arith::val_of(s.subrange(p, p + w)), p + w))
    } else {
        None
    }
}

/// Reading the unconstrained length form over `w`-bit units: the
/// concatenated content and the position after it, fragment by fragment.
pub open spec fn spec_dec_uncon(aligned: bool, s: Seq<bool>, pos: int, w: nat) -> Option<
    (Seq<bool>, int),
>
    decreases s.len() - pos,
{
    if pos < 0 || pos + 8 > s.len() {
        None
    } else {
        let b = arith::val_of(s.subrange(pos, pos + 8));
        if b <= 127 {
            let p1 = align_pos(aligned, pos + 8);
            if p1 + b * w <= s.len() {
                Some((s.subrange(p1, p1 + b * w), p1 + b * w))
            } else {
                None
            }
        } else if b < 0xC0 {
            if pos + 16 > s.len() {
                None
            } else {
                let count = arith::val_of(s.subrange(pos, pos + 16)) - 0x8000;
                if pos + 16 + count * w <= s.len() {
                    Some((s.subrange(pos + 16, pos + 16 + count * w), pos + 16 + count * w))
                } else {
                    None
                }
            }
        } else if b <= 0xC4 {
            let k = b - 0xC0;
            let amount = k * 16384;
            let p1 = pos + 8;
            if p1 + amount * w <= s.len() {
                match spec_dec_uncon(aligned, s, p1 + amount * w, w) {
                    Some(tail) => Some(
                        (s.subrange(p1, p1 + amount * w) + tail.0, tail.1),
                    ),
                    None => None,
                }
            } else {
                None
            }
        } else {
            None
        }
    }
}

/// Reading the constrained length forms against a bound already known from
/// the constraint.
pub open spec fn spec_dec_len_constrained(
    aligned: bool,
    s: Seq<bool>,
    pos: int,
    w: nat,
    c: Range<usize>,
) -> Option<(Seq<bool>, int)> {
    match c.spec_range() {
        Some(r) => {
            if r == 1 {
                let count = c.start.unwrap() as int;
                if 0 <= pos && pos + count * w <= s.len() {
                    Some((s.subrange(pos, pos + count * w), pos + count * w))
                } else {
                    None
                }
            } else if r < 65536 && !aligned {
                match spec_dec_nnbi(aligned, s, pos, r) {
                    Some(off) => {
                        let count = c.start.unwrap() + off.0;
                        if c.spec_contains(count) && off.1 + count * w <= s.len() {
                            Some((s.subrange(off.1, off.1 + count * w), off.1 + count * w))
                        } else {
                            None
                        }
                    },
                    None => None,
                }
            } else {
                spec_dec_uncon(aligned, s, pos, w)
            }
        },
        None => spec_dec_uncon(aligned, s, pos, w),
    }
}

/// Reading a length determinant and its content over `w`-bit units, against
/// an optional size constraint.
pub open spec fn spec_dec_length(
    aligned: bool,
    s: Seq<bool>,
    pos: int,
    w: nat,
    csize: Option<Extensible<Size>>,
) -> Option<(Seq<bool>, int)> {
    match csize {
        None => spec_dec_uncon(aligned, s, pos, w),
        Some(ext) => {
            let c = ext.constraint.0;
            if ext.extensible.is_none() {
                spec_dec_len_constrained(aligned, s, pos, w, c)
            } else {
                if 0 <= pos < s.len() {
                    if s[pos] {
                        spec_dec_uncon(aligned, s, pos + 1, w)
                    } else {
                        spec_dec_len_constrained(aligned, s, pos + 1, w, c)
                    }
                } else {
                    None
                }
            }
        },
    }
}

/// Reading a whole integer against its constraints: the extension bit when
/// they are extensible, then the form the constraints select.
pub open spec fn spec_dec_int(
    aligned: bool,
    s: Seq<bool>,
    pos: int,
    cs: Seq<Constraint>,
) -> Option<(int, int)> {
    let ext = spec_any_extensible(cs);
    if ext && !(0 <= pos < s.len()) {
        None
    } else {
        let outside = if ext {
            s[pos]
        } else {
            false
        };
        let p0 = if ext {
            pos + 1
        } else {
            pos
        };
        match spec_value_of(cs) {
            None => spec_dec_signed(aligned, s, p0, spec_size_of(cs)),
            Some(vc) => {
                let c = vc.constraint.0;
                if outside {
                    spec_dec_signed(aligned, s, p0, None)
                } else {
                    match c.start {
                        Some(st) => {
                            match c.spec_range() {
                                Some(r) => {
                                    if r < 65536 {
                                        match spec_dec_nnbi(aligned, s, p0, r) {
                                            Some(off) => {
                                                let v = st + off.0;
                                                if c.spec_contains(v) {
                                                    Some((v, off.1))
                                                } else {
                                                    None
                                                }
                                            },
                                            None => None,
                                        }
                                    } else {
                                        spec_dec_semi(aligned, s, p0, st as int)
                                    }
                                },
                                None => spec_dec_semi(aligned, s, p0, st as int),
                            }
                        },
                        None => {
                            match spec_dec_signed(aligned, s, p0, None) {
                                Some(v) => {
                                    if c.spec_contains(v.0) {
                                        Some(v)
                                    } else {
                                        None
                                    }
                                },
                                None => None,
                            }
                        },
                    }
                }
            },
        }
    }
}

/// Reading the semi-constrained byte form: an unsigned offset from the
/// lower bound behind an unconstrained length determinant. An offset that
/// would leave the codec's integer range is a decoding error.
pub open spec fn spec_dec_semi(aligned: bool, s: Seq<bool>, pos: int, start: int) -> Option<
    (int, int),
> {
    match spec_dec_length(aligned, s, pos, 8, None) {
        Some(content) => {
            if content.0.len() > 128 || start + arith::val_of(content.0) > i128::MAX {
                None
            } else {
                Some((start + arith::val_of(content.0), content.1))
            }
        },
        None => None,
    }
}

/// Reading a two's-complement byte form behind a length determinant. An
/// encoding longer than the codec's integer range is a decoding error.
pub open spec fn spec_dec_signed(
    aligned: bool,
    s: Seq<bool>,
    pos: int,
    csize: Option<Extensible<Size>>,
) -> Option<(int, int)> {
    match spec_dec_length(aligned, s, pos, 8, csize) {
        Some(content) => {
            if content.0.len() == 0 || content.0.len() > 128 {
                None
            } else {
                Some((arith::sval_of(content.0), content.1))
            }
        },
        None => None,
    }
}

/// A PER decoder: a forward-only cursor over a bit buffer.
pub struct Decoder {
    pub aligned: bool,
    pub input: BitBuffer,
    pub pos: usize,
}

impl Decoder {
    /// The cursor never passes the end of the input.
    pub open spec fn wf(&self) -> bool {
        self.pos <= self.input@.len()
    }

    /// A decoder at the start of `input`.
    pub fn new(aligned: bool, input: BitBuffer) -> (r: Self)
        ensures
            r.wf(),
            r.aligned == aligned,
            r.input == input,
            r.pos == 0,
    {
        Decoder { aligned, input, pos: 0 }
    }

    /// Reads a BOOLEAN: one bit.
    pub fn decode_bool(&mut self) -> (r: Result<bool, Error>)
        requires
            old(self).wf(),
        ensures
            final(self).wf(),
            final(self).aligned == old(self).aligned,
            final(self).input == old(self).input,
            match r {
                Ok(b) => old(self).pos < old(self).input@.len() && b == old(self).input@[old(
                    self,
                ).pos as int] && final(self).pos == old(self).pos + 1,
                Err(_) => old(self).pos == old(self).input@.len() && *final(self) == *old(self),
            },
    {
        if self.pos < self.input.len() {
            let b = self.input.get(self.pos);
            self.pos = self.pos + 1;
            Ok(b)
        } else {
            Err(Error::custom("unexpected end of input".to_owned()))
        }
    }

    /// Skips to the next byte boundary in the aligned variant.
    fn skip_alignment(&mut self) -> (r: Result<(), Error>)
        requires
            old(self).wf(),
        ensures
            final(self).wf(),
            final(self).aligned == old(self).aligned,
            final(self).input == old(self).input,
            match r {
                Ok(_) => final(self).pos == align_pos(old(self).aligned, old(self).pos as int),
                Err(_) => align_pos(old(self).aligned, old(self).pos as int) > old(
                    self,
                ).input@.len() && *final(self) == *old(self),
            },
    {
        if !self.aligned {
            return Ok(());
        }
        let rem = self.pos % 8;
        if rem == 0 {
            return Ok(());
        }
        let skip = 8 - rem;
        if skip > self.input.len() - self.pos {
            return Err(Error::custom("unexpected end of input".to_owned()));
        }
        self.pos = self.pos + skip;
        Ok(())
    }

    /// Reads `w` bits as a non-negative value, most significant bit first.
    fn read_value(&mut self, w: u32) -> (r: Result<u128, Error>)
        requires
            old(self).wf(),
            w <= 127,
        ensures
            final(self).wf(),
            final(self).aligned == old(self).aligned,
            final(self).input == old(self).input,
            match r {
                Ok(v) => old(self).pos + w <= old(self).input@.len() && v == arith::val_of(
                    old(self).input@.subrange(old(self).pos as int, old(self).pos + w),
                ) && final(self).pos == old(self).pos + w,
                Err(_) => old(self).pos + w > old(self).input@.len() && *final(self) == *old(
                    self,
                ),
            },
    {
        if self.input.len() < w as usize || self.pos > self.input.len() - w as usize {
            return Err(Error::custom("unexpected end of input".to_owned()));
        }
        let ghost seg = self.input@.subrange(self.pos as int, self.pos + w);
        let mut acc: u128 = 0;
        let mut k: u32 = 0;
        proof {
            arith::lemma_val_of_bound(seg.take(0));
        }
        while k < w
            invariant
                self.wf(),
                self.aligned == old(self).aligned,
                self.input == old(self).input,
                self.pos == old(self).pos + k,
                k <= w,
                w <= 127,
                old(self).pos + w <= self.input@.len(),
                self.input@.len() <= usize::MAX,
                seg == self.input@.subrange(old(self).pos as int, old(self).pos + w),
                acc == arith::val_of(seg.take(k as int)),
                acc < pow2(k as nat),
            decreases w - k,
        {
            let bit = self.input.get(self.pos);
            proof {
                assert(seg[k as int] == self.input@[self.pos as int]);
                assert(seg.take(k as int + 1).drop_last() =~= seg.take(k as int));
                arith::lemma_val_of_bound(seg.take(k as int + 1));
                vstd::arithmetic::power2::lemma_pow2_unfold(k as nat + 1);
                vstd::arithmetic::power2::lemma_pow2_strictly_increases(k as nat + 1, 128);
                vstd::arithmetic::power2::lemma_pow2_adds(64, 64);
                vstd::arithmetic::power2::lemma2_to64();
            }
            acc = 2 * acc + if bit {
                1
            } else {
                0
            };
            self.pos = self.pos + 1;
            k = k + 1;
        }
        proof {
            assert(seg.take(w as int) =~= seg);
        }
        Ok(acc)
    }

    /// Reads a fixed-width non-negative binary integer field sized for
    /// `range` values.
    pub fn decode_non_negative_binary_integer(&mut self, range: i128) -> (r: Result<u128, Error>)
        requires
            old(self).wf(),
            range >= 1,
        ensures
            final(self).wf(),
            final(self).aligned == old(self).aligned,
            final(self).input == old(self).input,
            match r {
                Ok(v) => spec_dec_nnbi(
                    old(self).aligned,
                    old(self).input@,
                    old(self).pos as int,
                    range as int,
                ) == Some((v as int, final(self).pos as int)),
                Err(_) => spec_dec_nnbi(
                    old(self).aligned,
                    old(self).input@,
                    old(self).pos as int,
                    range as int,
                ).is_none(),
            },
    {
        proof {
            crate::lemma_i128_fits_127_bits(range - 1);
        }
        let w = crate::log2(range);
        if range >= 256 {
            if self.skip_alignment().is_err() {
                return Err(Error::custom("unexpected end of input".to_owned()));
            }
        }
        match self.read_value(w) {
            Ok(v) => Ok(v),
            Err(e) => Err(e),
        }
    }
}

impl Decoder {
    /// Reads the next `n` bits as a buffer.
    fn read_bits(&mut self, n: usize) -> (r: Result<BitBuffer, Error>)
        requires
            old(self).wf(),
        ensures
            final(self).wf(),
            final(self).aligned == old(self).aligned,
            final(self).input == old(self).input,
            match r {
                Ok(content) => old(self).pos + n <= old(self).input@.len() && content@ == old(
                    self,
                ).input@.subrange(old(self).pos as int, old(self).pos + n) && final(self).pos
                    == old(self).pos + n,
                Err(_) => old(self).pos + n > old(self).input@.len() && *final(self) == *old(
                    self,
                ),
            },
    {
        if n > self.input.len() - self.pos {
            return Err(Error::custom("unexpected end of input".to_owned()));
        }
        let out = self.input.slice(self.pos, self.pos + n);
        self.pos = self.pos + n;
        Ok(out)
    }

    /// Reads the unconstrained length form over `w`-bit units and returns
    /// the concatenated content, consuming fragments until a short form
    /// closes the sequence.
    pub fn decode_unconstrained_length(&mut self, w: usize) -> (r: Result<BitBuffer, Error>)
        requires
            old(self).wf(),
            w <= 16384,
        ensures
            final(self).wf(),
            final(self).aligned == old(self).aligned,
            final(self).input == old(self).input,
            match r {
                Ok(content) => spec_dec_uncon(
                    old(self).aligned,
                    old(self).input@,
                    old(self).pos as int,
                    w as nat,
                ) == Some((content@, final(self).pos as int)),
                Err(_) => spec_dec_uncon(
                    old(self).aligned,
                    old(self).input@,
                    old(self).pos as int,
                    w as nat,
                ).is_none(),
            },
        decreases old(self).input@.len() - old(self).pos,
    {
        let first = match self.read_value(8) {
            Ok(v) => v,
            Err(e) => {
                return Err(e);
            },
        };
        if first <= 127 {
            if self.skip_alignment().is_err() {
                return Err(Error::custom("unexpected end of input".to_owned()));
            }
            proof {
                assert((first as int) * (w as int) <= 127 * 16384) by (nonlinear_arith)
                    requires
                        first <= 127,
                        w <= 16384,
                ;
            }
            let count = (first as usize) * w;
            self.read_bits(count)
        } else if first < 0xC0 {
            let ghost p = old(self).pos as int;
            let second = match self.read_value(8) {
                Ok(v) => v,
                Err(e) => {
                    return Err(e);
                },
            };
            proof {
                let s = self.input@;
                assert(s.subrange(p, p + 16) =~= s.subrange(p, p + 8) + s.subrange(
                    p + 8,
                    p + 16,
                ));
                arith::lemma_val_of_concat(s.subrange(p, p + 8), s.subrange(p + 8, p + 16));
                vstd::arithmetic::power2::lemma2_to64();
                arith::lemma_val_of_bound(s.subrange(p + 8, p + 16));
            }
            let count16 = (first as usize) * 256 + (second as usize) - 0x8000;
            proof {
                assert((count16 as int) * (w as int) <= 16383 * 16384) by (nonlinear_arith)
                    requires
                        count16 <= 16383,
                        w <= 16384,
                ;
            }
            let count = count16 * w;
            self.read_bits(count)
        } else if first <= 0xC4 {
            let k = (first - 0xC0) as usize;
            proof {
                assert((k as int) * 16384 * (w as int) <= 4 * 16384 * 16384) by (
                nonlinear_arith)
                    requires
                        k <= 4,
                        w <= 16384,
                ;
            }
            let amount = k * 16384 * w;
            let mut frag = match self.read_bits(amount) {
                Ok(f) => f,
                Err(e) => {
                    return Err(e);
                },
            };
            let rest = match self.decode_unconstrained_length(w) {
                Ok(f) => f,
                Err(e) => {
                    return Err(e);
                },
            };
            frag.append_bits(&rest);
            Ok(frag)
        } else {
            Err(Error::custom("invalid length fragment marker".to_owned()))
        }
    }

    /// Reads a length determinant against an optional size constraint and
    /// returns the content, `w` bits per unit.
    pub fn decode_length(&mut self, w: usize, constraints: Option<&Extensible<Size>>) -> (r:
        Result<BitBuffer, Error>)
        requires
            old(self).wf(),
            w <= 16384,
        ensures
            final(self).wf(),
            final(self).aligned == old(self).aligned,
            final(self).input == old(self).input,
            match r {
                Ok(content) => spec_dec_length(
                    old(self).aligned,
                    old(self).input@,
                    old(self).pos as int,
                    w as nat,
                    crate::enc::size_of_opt(constraints),
                ) == Some((content@, final(self).pos as int)),
                Err(_) => spec_dec_length(
                    old(self).aligned,
                    old(self).input@,
                    old(self).pos as int,
                    w as nat,
                    crate::enc::size_of_opt(constraints),
                ).is_none(),
            },
    {
        let c = match constraints {
            None => {
                return self.decode_unconstrained_length(w);
            },
            Some(c) => c,
        };
        if c.extensible.is_some() {
            let outside = match self.decode_bool() {
                Ok(b) => b,
                Err(e) => {
                    return Err(e);
                },
            };
            if outside {
                return self.decode_unconstrained_length(w);
            }
            self.decode_length_constrained(w, &c.constraint.0)
        } else {
            self.decode_length_constrained(w, &c.constraint.0)
        }
    }

    /// Reads the constrained length forms.
    fn decode_length_constrained(&mut self, w: usize, c: &Range<usize>) -> (r: Result<
        BitBuffer,
        Error,
    >)
        requires
            old(self).wf(),
            w <= 16384,
        ensures
            final(self).wf(),
            final(self).aligned == old(self).aligned,
            final(self).input == old(self).input,
            match r {
                Ok(content) => spec_dec_len_constrained(
                    old(self).aligned,
                    old(self).input@,
                    old(self).pos as int,
                    w as nat,
                    *c,
                ) == Some((content@, final(self).pos as int)),
                Err(_) => spec_dec_len_constrained(
                    old(self).aligned,
                    old(self).input@,
                    old(self).pos as int,
                    w as nat,
                    *c,
                ).is_none(),
            },
    {
        let range = match c.range() {
            Some(r) => r,
            None => {
                return self.decode_unconstrained_length(w);
            },
        };
        if range == 1 {
            let count = c.start();
            match checked_mul(count, w) {
                Some(total) => self.read_bits(total),
                None => {
                    let il = self.input.len();
                    proof {
                        assert(self.input@.len() <= usize::MAX);
                    }
                    Err(Error::custom("length out of range".to_owned()))
                },
            }
        } else if range < 65536 && !self.aligned {
            let off = match self.decode_non_negative_binary_integer(range as i128) {
                Ok(v) => v,
                Err(e) => {
                    return Err(e);
                },
            };
            proof {
                let sr = c.spec_range().unwrap();
                crate::wire::lemma_offset_fits(sr, sr - 1);
            }
            let start = c.start();
            let end = match c.end() {
                Some(e) => e,
                None => {
                    proof {
                        assert(false);
                    }
                    0
                },
            };
            if off > (end - start) as u128 {
                return Err(Error::custom("length out of range".to_owned()));
            }
            let count = start + (off as usize);
            match checked_mul(count, w) {
                Some(total) => self.read_bits(total),
                None => {
                    let il = self.input.len();
                    proof {
                        assert(self.input@.len() <= usize::MAX);
                    }
                    Err(Error::custom("length out of range".to_owned()))
                },
            }
        } else {
            self.decode_unconstrained_length(w)
        }
    }
}

/// The product, unless it leaves `usize`.
fn checked_mul(a: usize, b: usize) -> (r: Option<usize>)
    ensures
        match r {
            Some(v) => v == a * b,
            None => a * b > usize::MAX,
        },
{
    if b == 0 {
        proof {
            vstd::arithmetic::mul::lemma_mul_basics(a as int);
        }
        return Some(0);
    }
    let q = usize::MAX / b;
    if a <= q {
        proof {
            vstd::arithmetic::div_mod::lemma_fundamental_div_mod(usize::MAX as int, b as int);
            vstd::arithmetic::div_mod::lemma_mod_bound(usize::MAX as int, b as int);
            vstd::arithmetic::mul::lemma_mul_inequality(a as int, q as int, b as int);
        }
        Some(a * b)
    } else {
        proof {
            vstd::arithmetic::div_mod::lemma_fundamental_div_mod(usize::MAX as int, b as int);
            vstd::arithmetic::div_mod::lemma_mod_bound(usize::MAX as int, b as int);
            vstd::arithmetic::mul::lemma_mul_inequality(q as int + 1, a as int, b as int);
            assert((q as int + 1) * (b as int) == q as int * (b as int) + b) by (nonlinear_arith);
        }
        None
    }
}

/// The unsigned value of a content buffer, when it fits the codec's range.
fn unsigned_value_of(content: &BitBuffer) -> (r: Result<u128, Error>)
    ensures
        match r {
            Ok(v) => content@.len() <= 128 && v == arith::val_of(content@),
            Err(_) => content@.len() > 128,
        },
{
    let n = content.len();
    if n > 128 {
        return Err(Error::custom("integer too large for this codec".to_owned()));
    }
    let mut acc: u128 = 0;
    let mut k: usize = 0;
    proof {
        arith::lemma_val_of_bound(content@.take(0));
    }
    while k < n
        invariant
            n == content@.len(),
            n <= 128,
            k <= n,
            acc == arith::val_of(content@.take(k as int)),
            acc < pow2(k as nat),
        decreases n - k,
    {
        let bit = content.get(k);
        proof {
            assert(content@.take(k as int + 1).drop_last() =~= content@.take(k as int));
            arith::lemma_val_of_bound(content@.take(k as int + 1));
            vstd::arithmetic::power2::lemma_pow2_unfold(k as nat + 1);
            vstd::arithmetic::power2::lemma_pow2_adds(64, 64);
            vstd::arithmetic::power2::lemma2_to64();
            if k as nat + 1 < 128 {
                vstd::arithmetic::power2::lemma_pow2_strictly_increases(k as nat + 1, 128);
            }
        }
        acc = 2 * acc + if bit {
            1
        } else {
            0
        };
        k = k + 1;
    }
    proof {
        assert(content@.take(n as int) =~= content@);
    }
    Ok(acc)
}

/// The two's-complement value of a content buffer, when it fits the
/// codec's range.
fn signed_value_of(content: &BitBuffer) -> (r: Result<i128, Error>)
    ensures
        match r {
            Ok(v) => 1 <= content@.len() <= 128 && v == arith::sval_of(content@),
            Err(_) => content@.len() == 0 || content@.len() > 128,
        },
{
    let n = content.len();
    if n == 0 {
        return Err(Error::custom("empty integer encoding".to_owned()));
    }
    let u = match unsigned_value_of(content) {
        Ok(u) => u,
        Err(e) => {
            return Err(e);
        },
    };
    let first = content.get(0);
    proof {
        arith::lemma_val_of_first_bit(content@);
        arith::lemma_val_of_bound(content@);
        vstd::arithmetic::power2::lemma_pow2_adds(64, 64);
        vstd::arithmetic::power2::lemma_pow2_adds(64, 63);
        vstd::arithmetic::power2::lemma2_to64();
        vstd::arithmetic::power2::lemma2_to64_rest();
        if (n as nat) < 128 {
            vstd::arithmetic::power2::lemma_pow2_strictly_increases(n as nat, 128);
        }
        if (n as nat) < 127 {
            vstd::arithmetic::power2::lemma_pow2_strictly_increases(n as nat, 127);
        }
        if 1 <= (n as nat) - 1 < 127 {
            vstd::arithmetic::power2::lemma_pow2_strictly_increases((n - 1) as nat, 127);
        }
    }
    if !first {
        Ok(u as i128)
    } else if n == 128 {
        Ok(arith::shift_down(u - 0x80000000000000000000000000000000u128))
    } else {
        let p = arith::pow2_u128((n as u32) - 1);
        proof {
            vstd::arithmetic::power2::lemma_pow2_unfold(n as nat);
        }
        let diff = 2 * p - u;
        Ok((-((diff - 1) as i128)) - 1)
    }
}

impl Decoder {
    /// Reads a whole INTEGER against its constraints.
    pub fn decode_integer(&mut self, constraints: &Constraints) -> (r: Result<i128, Error>)
        requires
            old(self).wf(),
        ensures
            final(self).wf(),
            final(self).aligned == old(self).aligned,
            final(self).input == old(self).input,
            match r {
                Ok(v) => spec_dec_int(
                    old(self).aligned,
                    old(self).input@,
                    old(self).pos as int,
                    constraints.0@,
                ) == Some((v as int, final(self).pos as int)),
                Err(_) => spec_dec_int(
                    old(self).aligned,
                    old(self).input@,
                    old(self).pos as int,
                    constraints.0@,
                ).is_none(),
            },
    {
        let ext = constraints.extensible();
        let outside = if ext {
            match self.decode_bool() {
                Ok(b) => b,
                Err(e) => {
                    return Err(e);
                },
            }
        } else {
            false
        };
        match constraints.value() {
            None => self.decode_signed_form(constraints.size()),
            Some(vc) => {
                if outside {
                    self.decode_signed_form(None)
                } else {
                    match vc.constraint.0.start {
                        Some(st) => {
                            let small = match vc.constraint.0.range() {
                                Some(rg) => {
                                    if rg < 65536 {
                                        Some(rg)
                                    } else {
                                        None
                                    }
                                },
                                None => None,
                            };
                            match small {
                                Some(rg) => {
                                    let off = match self.decode_non_negative_binary_integer(
                                        rg,
                                    ) {
                                        Ok(v) => v,
                                        Err(e) => {
                                            return Err(e);
                                        },
                                    };
                                    let end = match vc.constraint.0.end {
                                        Some(e) => e,
                                        None => {
                                            proof {
                                                assert(false);
                                            }
                                            0
                                        },
                                    };
                                    let room = arith::sub_i128(end, st);
                                    if off > room {
                                        return Err(
                                            Error::custom("value out of range".to_owned()),
                                        );
                                    }
                                    Ok(arith::add_signed_unsigned(st, off))
                                },
                                None => {
                                    let content = match self.decode_length(8, None) {
                                        Ok(c) => c,
                                        Err(e) => {
                                            return Err(e);
                                        },
                                    };
                                    let u = match unsigned_value_of(&content) {
                                        Ok(u) => u,
                                        Err(e) => {
                                            return Err(e);
                                        },
                                    };
                                    let room = arith::sub_i128(i128::MAX, st);
                                    if u > room {
                                        return Err(
                                            Error::custom(
                                                "integer too large for this codec".to_owned(),
                                            ),
                                        );
                                    }
                                    Ok(arith::add_signed_unsigned(st, u))
                                },
                            }
                        },
                        None => {
                            let ghost pre = *self;
                            let content = match self.decode_length(8, None) {
                                Ok(c) => c,
                                Err(e) => {
                                    return Err(e);
                                },
                            };
                            let v = match signed_value_of(&content) {
                                Ok(v) => v,
                                Err(e) => {
                                    return Err(e);
                                },
                            };
                            if !vc.constraint.0.contains(&v) {
                                return Err(Error::custom("value out of range".to_owned()));
                            }
                            Ok(v)
                        },
                    }
                }
            },
        }
    }

    /// Reads a two's-complement byte form behind a length determinant.
    fn decode_signed_form(&mut self, csize: Option<&Extensible<Size>>) -> (r: Result<
        i128,
        Error,
    >)
        requires
            old(self).wf(),
        ensures
            final(self).wf(),
            final(self).aligned == old(self).aligned,
            final(self).input == old(self).input,
            match r {
                Ok(v) => spec_dec_signed(
                    old(self).aligned,
                    old(self).input@,
                    old(self).pos as int,
                    crate::enc::size_of_opt(csize),
                ) == Some((v as int, final(self).pos as int)),
                Err(_) => spec_dec_signed(
                    old(self).aligned,
                    old(self).input@,
                    old(self).pos as int,
                    crate::enc::size_of_opt(csize),
                ).is_none(),
            },
    {
        let content = match self.decode_length(8, csize) {
            Ok(c) => c,
            Err(e) => {
                return Err(e);
            },
        };
        match signed_value_of(&content) {
            Ok(v) => Ok(v),
            Err(e) => Err(e),
        }
    }

    /// Reads an OCTET STRING against its constraints.
    pub fn decode_octet_string(&mut self, constraints: &Constraints) -> (r: Result<
        Vec<u8>,
        Error,
    >)
        requires
            old(self).wf(),
        ensures
            final(self).wf(),
            final(self).aligned == old(self).aligned,
            final(self).input == old(self).input,
            match r {
                Ok(bytes) => {
                    &&& spec_dec_length(
                        old(self).aligned,
                        old(self).input@,
                        old(self).pos as int,
                        8,
                        spec_size_of(constraints.0@),
                    ) matches Some(content) && arith::bytes_bits(bytes@) == content.0
                        && final(self).pos == content.1
                },
                Err(_) => {
                    spec_dec_length(
                        old(self).aligned,
                        old(self).input@,
                        old(self).pos as int,
                        8,
                        spec_size_of(constraints.0@),
                    ) matches Some(content) ==> content.0.len() % 8 != 0
                },
            },
    {
        let content = match self.decode_length(8, constraints.size()) {
            Ok(c) => c,
            Err(e) => {
                return Err(e);
            },
        };
        let n = content.len();
        if n % 8 != 0 {
            return Err(Error::custom("ragged octet string content".to_owned()));
        }
        let total = n / 8;
        let mut out: Vec<u8> = Vec::new();
        let mut j: usize = 0;
        proof {
            assert(arith::bytes_bits(out@) =~= content@.take(0));
        }
        while j < total
            invariant
                n == content@.len(),
                n % 8 == 0,
                total == n / 8,
                j <= total,
                out@.len() == j,
                arith::bytes_bits(out@) == content@.take(8 * j as int),
            decreases total - j,
        {
            let mut acc: u32 = 0;
            let mut k: usize = 0;
            let ghost seg = content@.subrange(8 * j as int, 8 * j as int + 8);
            proof {
                arith::lemma_val_of_bound(seg.take(0));
            }
            while k < 8
                invariant
                    k <= 8,
                    j < total,
                    n == content@.len(),
                    total == n / 8,
                    seg == content@.subrange(8 * j as int, 8 * j as int + 8),
                    acc == arith::val_of(seg.take(k as int)),
                    acc < 256,
                decreases 8 - k,
            {
                proof {
                    assert(8 * j as int + 8 <= n) by {
                        assert(j + 1 <= total);
                        assert(8 * (j + 1) <= 8 * total);
                        vstd::arithmetic::div_mod::lemma_fundamental_div_mod(n as int, 8);
                    }
                }
                let bit = content.get(8 * j + k);
                proof {
                    assert(seg[k as int] == content@[8 * j + k]);
                    assert(seg.take(k as int + 1).drop_last() =~= seg.take(k as int));
                    arith::lemma_val_of_bound(seg.take(k as int + 1));
                    vstd::arithmetic::power2::lemma2_to64();
                    vstd::arithmetic::power2::lemma_pow2_strictly_increases((k + 1) as nat, 9);
                }
                acc = 2 * acc + if bit {
                    1
                } else {
                    0
                };
                k = k + 1;
            }
            proof {
                assert(seg.take(8) =~= seg);
                arith::lemma_val_of_bound(seg);
                arith::lemma_u_bits_val_of(seg);
                assert(arith::byte_bits((acc as u8)) == seg);
                let t = out@.push(acc as u8);
                assert(t.drop_last() =~= out@);
                assert(arith::bytes_bits(t) == arith::bytes_bits(out@) + seg);
                assert(content@.take(8 * j as int) + seg =~= content@.take(8 * (j + 1) as int));
            }
            out.push(acc as u8);
            j = j + 1;
        }
        proof {
            assert(content@.take(8 * total as int) =~= content@);
        }
        Ok(out)
    }
}

} // verus!
