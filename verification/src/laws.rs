//! The laws of the codec: decoding inverts encoding for the length
//! determinant (fragmentation included), the non-negative binary integer
//! field, whole integers under every constraint shape, and octet strings;
//! and SET encoding is canonical: the output depends only on what was
//! recorded under each tag, never on the order of recording.

use vstd::prelude::*;
use vstd::arithmetic::power2::pow2;
use crate::arith;
use crate::bits;
use crate::constraints::Constraint;
use crate::constraints::Extensible;
use crate::constraints::Size;
use crate::constraints::spec_size_of;
use crate::constraints::spec_value_of;
use crate::constraints::spec_any_extensible;
use crate::de::align_pos;
use crate::de::spec_dec_nnbi;
use crate::de::spec_dec_uncon;
use crate::de::spec_dec_len_constrained;
use crate::de::spec_dec_length;
use crate::wire;
use crate::wire::concat_units;
use crate::wire::spec_len;
use crate::wire::spec_len_uncon;
use crate::wire::spec_nnbi;
use crate::wire::uniform_units;
use crate::wire::byte_units;
use crate::de::spec_dec_int;
use crate::de::spec_dec_signed;
use crate::de::spec_dec_semi;
use crate::enc::int_value_ok;
use crate::enc::spec_bitstring_output;
use crate::enc::Encoder;
use crate::maps;

verus! {

/// Splitting a window splits the concatenation.
pub proof fn lemma_concat_units_split(units: Seq<Seq<bool>>, a: int, b: int, c: int)
    requires
        a <= b <= c,
    ensures
        concat_units(units, a, c) == concat_units(units, a, b) + concat_units(units, b, c),
    decreases c - b,
{
    if b == c {
        assert(concat_units(units, b, c) =~= Seq::<bool>::empty());
        assert(concat_units(units, a, c) =~= concat_units(units, a, b) + concat_units(
            units,
            b,
            c,
        ));
    } else {
        lemma_concat_units_split(units, a, b, c - 1);
        assert((concat_units(units, a, b) + concat_units(units, b, c - 1)) + units[c - 1]
            =~= concat_units(units, a, b) + (concat_units(units, b, c - 1) + units[c - 1]));
    }
}

/// Alignment skips exactly the padding the encoder wrote.
proof fn lemma_pad_pos(aligned: bool, buf: Seq<bool>)
    ensures
        wire::spec_pad(aligned, buf).len() == align_pos(aligned, buf.len() as int),
        buf.len() % 8 == 0 ==> wire::spec_pad(aligned, buf) == buf,
{
    if aligned {
        bits::lemma_padded_len(buf.len());
        if buf.len() % 8 == 0 {
            assert(wire::spec_pad(aligned, buf) =~= buf);
        }
    }
}

/// The unconstrained length form extends the buffer it was written into.
proof fn lemma_uncon_extends(aligned: bool, buf: Seq<bool>, units: Seq<Seq<bool>>, min: int)
    requires
        0 <= min <= units.len(),
    ensures
        spec_len_uncon(aligned, buf, units, min).len() >= buf.len(),
        spec_len_uncon(aligned, buf, units, min).subrange(0, buf.len() as int) == buf,
    decreases units.len() - min,
{
    let e = spec_len_uncon(aligned, buf, units, min);
    let l = units.len() as int;
    let rem = l - min;
    if rem <= 127 {
        let head = buf + arith::u_bits(rem, 8);
        lemma_pad_pos(aligned, head);
        assert(wire::spec_pad(aligned, head).subrange(0, buf.len() as int) =~= buf);
        assert(e.subrange(0, buf.len() as int) =~= buf);
    } else if rem < 16384 {
        assert(e.subrange(0, buf.len() as int) =~= buf);
    } else {
        let k: int = if rem >= 65536 {
            4
        } else {
            rem / 16384
        };
        let amount = k * 16384;
        assert(1 <= k && amount <= rem) by {
            if rem < 65536 {
                vstd::arithmetic::div_mod::lemma_fundamental_div_mod(rem, 16384);
                vstd::arithmetic::div_mod::lemma_mod_bound(rem, 16384);
            }
        }
        let frag = concat_units(units, min, min + amount);
        let b2 = buf + arith::u_bits(0xC0 + k, 8) + frag;
        if rem == 16384 {
            assert(e.subrange(0, buf.len() as int) =~= buf);
        } else {
            lemma_uncon_extends(aligned, b2, units, min + amount);
            assert(e.subrange(0, b2.len() as int) == b2);
            assert(e.subrange(0, buf.len() as int) =~= b2.subrange(0, buf.len() as int));
            assert(b2.subrange(0, buf.len() as int) =~= buf);
        }
    }
}

/// Reading a fixed-width field back yields the offset that was written.
pub proof fn lemma_nnbi_roundtrip(
    aligned: bool,
    buf: Seq<bool>,
    rest: Seq<bool>,
    range: int,
    v: int,
)
    requires
        range >= 1,
        0 <= v < pow2(arith::bits_for(range - 1)),
    ensures
        ({
            let e = spec_nnbi(aligned, buf, range, v);
            spec_dec_nnbi(aligned, e + rest, buf.len() as int, range) == Some(
                (v, e.len() as int),
            )
        }),
{
    let w = arith::bits_for(range - 1);
    let b = if range >= 256 {
        wire::spec_pad(aligned, buf)
    } else {
        buf
    };
    let e = b + arith::u_bits(v, w);
    let s = e + rest;
    lemma_pad_pos(aligned, buf);
    let p: int = if range >= 256 {
        align_pos(aligned, buf.len() as int)
    } else {
        buf.len() as int
    };
    assert(b.len() == p);
    assert(s.subrange(p, p + w) =~= arith::u_bits(v, w));
    arith::lemma_val_of_u_bits(v, w);
}

/// The short form: a count up to 127 in one byte.
#[verifier::rlimit(100)]
proof fn lemma_uncon_roundtrip_short(
    aligned: bool,
    buf: Seq<bool>,
    rest: Seq<bool>,
    units: Seq<Seq<bool>>,
    w: nat,
    min: int,
)
    requires
        uniform_units(units, w),
        0 <= min <= units.len(),
        units.len() - min <= 127,
    ensures
        ({
            let e = spec_len_uncon(aligned, buf, units, min);
            spec_dec_uncon(aligned, e + rest, buf.len() as int, w) == Some(
                (concat_units(units, min, units.len() as int), e.len() as int),
            )
        }),
{
    let l = units.len() as int;
    let rem = l - min;
    let e = spec_len_uncon(aligned, buf, units, min);
    let s = e + rest;
    let pos = buf.len() as int;
    vstd::arithmetic::power2::lemma2_to64();
    let head = buf + arith::u_bits(rem, 8);
    let padded_head = wire::spec_pad(aligned, head);
    let content = concat_units(units, min, l);
    wire::lemma_concat_units_len(units, min, l, w);
    assert(e == padded_head + content);
    assert(s.subrange(pos, pos + 8) =~= arith::u_bits(rem, 8));
    arith::lemma_val_of_u_bits(rem, 8);
    lemma_pad_pos(aligned, head);
    let p1 = align_pos(aligned, pos + 8);
    assert(padded_head.len() == p1);
    assert(rem * w == content.len()) by {
        if min < l {
        } else {
            vstd::arithmetic::mul::lemma_mul_basics(w as int);
        }
    }
    assert(s.subrange(p1, p1 + rem * w) =~= content);
}

/// The two-byte form: a count below 16384 behind the marker bits `10`.
#[verifier::rlimit(100)]
proof fn lemma_uncon_roundtrip_two_byte(
    aligned: bool,
    buf: Seq<bool>,
    rest: Seq<bool>,
    units: Seq<Seq<bool>>,
    w: nat,
    min: int,
)
    requires
        uniform_units(units, w),
        0 <= min <= units.len(),
        127 < units.len() - min < 16384,
    ensures
        ({
            let e = spec_len_uncon(aligned, buf, units, min);
            spec_dec_uncon(aligned, e + rest, buf.len() as int, w) == Some(
                (concat_units(units, min, units.len() as int), e.len() as int),
            )
        }),
{
    let l = units.len() as int;
    let rem = l - min;
    let e = spec_len_uncon(aligned, buf, units, min);
    let s = e + rest;
    let pos = buf.len() as int;
    vstd::arithmetic::power2::lemma2_to64();
    let content = concat_units(units, min, l);
    wire::lemma_concat_units_len(units, min, l, w);
    assert(e == buf + arith::u_bits(0x8000 + rem, 16) + content);
    assert(pow2(16) == 0x10000) by {
        vstd::arithmetic::power2::lemma2_to64();
    }
    arith::lemma_val_of_u_bits(0x8000 + rem, 16);
    assert(s.subrange(pos, pos + 16) =~= arith::u_bits(0x8000 + rem, 16));
    let first8 = s.subrange(pos, pos + 8);
    let second8 = s.subrange(pos + 8, pos + 16);
    assert(s.subrange(pos, pos + 16) =~= first8 + second8);
    arith::lemma_val_of_concat(first8, second8);
    arith::lemma_val_of_bound(second8);
    arith::lemma_val_of_bound(first8);
    let b = arith::val_of(first8);
    assert(arith::val_of(s.subrange(pos, pos + 16)) == b * 256 + arith::val_of(second8));
    assert(b == (0x8000 + rem) / 256) by {
        vstd::arithmetic::div_mod::lemma_fundamental_div_mod(0x8000 + rem, 256);
        vstd::arithmetic::div_mod::lemma_mod_bound(0x8000 + rem, 256);
        assert(b * 256 + arith::val_of(second8) == 0x8000 + rem);
        vstd::arithmetic::div_mod::lemma_fundamental_div_mod_converse(
            0x8000 + rem,
            256,
            b,
            arith::val_of(second8),
        );
    }
    assert(128 <= b < 0xC0);
    assert(s.subrange(pos + 16, pos + 16 + rem * w) =~= content);
}

/// Reading the unconstrained length form back yields the units that were
/// written, fragment by fragment. In the aligned variant either the content
/// is below one fragment or the write started on a byte boundary.
#[verifier::rlimit(100)]
pub proof fn lemma_uncon_roundtrip(
    aligned: bool,
    buf: Seq<bool>,
    rest: Seq<bool>,
    units: Seq<Seq<bool>>,
    w: nat,
    min: int,
)
    requires
        uniform_units(units, w),
        0 <= min <= units.len(),
        aligned ==> units.len() - min < 16384 || buf.len() % 8 == 0,
    ensures
        ({
            let e = spec_len_uncon(aligned, buf, units, min);
            spec_dec_uncon(aligned, e + rest, buf.len() as int, w) == Some(
                (concat_units(units, min, units.len() as int), e.len() as int),
            )
        }),
    decreases units.len() - min,
{
    let l = units.len() as int;
    let rem = l - min;
    let e = spec_len_uncon(aligned, buf, units, min);
    let s = e + rest;
    let pos = buf.len() as int;
    vstd::arithmetic::power2::lemma2_to64();
    if rem <= 127 {
        lemma_uncon_roundtrip_short(aligned, buf, rest, units, w, min);
    } else if rem < 16384 {
        lemma_uncon_roundtrip_two_byte(aligned, buf, rest, units, w, min);
    } else {
        let k: int = if rem >= 65536 {
            4
        } else {
            rem / 16384
        };
        assert(1 <= k <= 4) by {
            if rem < 65536 {
                vstd::arithmetic::div_mod::lemma_fundamental_div_mod(rem, 16384);
                vstd::arithmetic::div_mod::lemma_mod_bound(rem, 16384);
            }
        }
        let amount = k * 16384;
        assert(amount <= rem) by {
            if rem < 65536 {
                vstd::arithmetic::div_mod::lemma_fundamental_div_mod(rem, 16384);
                vstd::arithmetic::div_mod::lemma_mod_bound(rem, 16384);
            }
        }
        let frag = concat_units(units, min, min + amount);
        wire::lemma_concat_units_len(units, min, min + amount, w);
        let b2 = buf + arith::u_bits(0xC0 + k, 8) + frag;
        if rem != 16384 {
            lemma_uncon_extends(aligned, b2, units, min + amount);
            assert(e.subrange(0, b2.len() as int) == b2);
            assert forall|i: int| 0 <= i < b2.len() implies s[i] == b2[i] by {
                assert(e.subrange(0, b2.len() as int)[i] == e[i]);
            }
        }
        assert(s.subrange(pos, pos + 8) =~= arith::u_bits(0xC0 + k, 8));
        arith::lemma_val_of_u_bits(0xC0 + k, 8);
        let p1 = pos + 8;
        assert(s.subrange(p1, p1 + amount * w) =~= frag);
        lemma_concat_units_split(units, min, min + amount, l);
        if rem == 16384 {
            assert(e == b2 + arith::u_bits(0, 8));
            let p2 = p1 + amount * w;
            assert(s.subrange(p2, p2 + 8) =~= arith::u_bits(0, 8));
            arith::lemma_val_of_u_bits(0, 8);
            let p3 = align_pos(aligned, p2 + 8);
            assert(p3 == p2 + 8) by {
                if aligned {
                    assert(buf.len() % 8 == 0);
                    assert(amount * w == (2048 * k * w as int) * 8) by (nonlinear_arith)
                        requires
                            amount == k * 16384,
                    ;
                    vstd::arithmetic::div_mod::lemma_mod_multiples_basic(
                        2048 * k * w as int,
                        8,
                    );
                }
            }
            assert(s.subrange(p3, p3 + 0 * w) =~= Seq::<bool>::empty()) by {
                vstd::arithmetic::mul::lemma_mul_basics(w as int);
            }
            vstd::arithmetic::mul::lemma_mul_basics(w as int);
            assert(concat_units(units, min + amount, l) =~= Seq::<bool>::empty());
            assert(frag + Seq::<bool>::empty() =~= frag);
            assert(frag =~= concat_units(units, min, l));
        } else {
            assert(e == spec_len_uncon(aligned, b2, units, min + amount));
            assert(b2.len() == pos + 8 + amount * w);
            if aligned {
                assert(buf.len() % 8 == 0);
                assert(amount * w == (2048 * k * w as int) * 8) by (nonlinear_arith)
                    requires
                        amount == k * 16384,
                ;
                vstd::arithmetic::div_mod::lemma_mod_multiples_basic(2048 * k * w as int, 8);
                assert(b2.len() % 8 == 0);
            }
            lemma_uncon_roundtrip(aligned, b2, rest, units, w, min + amount);
            assert(spec_len_uncon(aligned, b2, units, min + amount) + rest =~= s);
            assert(spec_dec_uncon(aligned, s, b2.len() as int, w) == Some(
                (concat_units(units, min + amount, l), e.len() as int),
            ));
            assert(frag + concat_units(units, min + amount, l) == concat_units(units, min, l));
        }
    }
}

/// Reading a length determinant back yields the units that were written,
/// under every constraint shape. In the aligned variant the law covers
/// contents below one fragment.
#[verifier::rlimit(100)]
pub proof fn lemma_length_roundtrip(
    aligned: bool,
    buf: Seq<bool>,
    rest: Seq<bool>,
    units: Seq<Seq<bool>>,
    w: nat,
    csize: Option<Extensible<Size>>,
)
    requires
        uniform_units(units, w),
        spec_len(aligned, buf, units, csize).is_some(),
        aligned ==> units.len() < 16384,
    ensures
        ({
            let e = spec_len(aligned, buf, units, csize).unwrap();
            spec_dec_length(aligned, e + rest, buf.len() as int, w, csize) == Some(
                (concat_units(units, 0, units.len() as int), e.len() as int),
            )
        }),
{
    let l = units.len() as int;
    let e = spec_len(aligned, buf, units, csize).unwrap();
    let s = e + rest;
    let pos = buf.len() as int;
    match csize {
        None => {
            lemma_uncon_roundtrip(aligned, buf, rest, units, w, 0);
        },
        Some(ext) => {
            let c = ext.constraint.0;
            if ext.extensible.is_none() {
                lemma_len_constrained_roundtrip(aligned, buf, rest, units, w, c);
            } else {
                let outside = !c.spec_contains(l);
                let b = buf.push(outside);
                assert(s[pos] == outside) by {
                    if outside {
                        lemma_uncon_extends(aligned, b, units, 0);
                        let e2 = spec_len_uncon(aligned, b, units, 0);
                        assert(e2.subrange(0, b.len() as int)[pos] == e2[pos]);
                        assert(b[pos] == outside);
                    } else {
                        lemma_len_constrained_extends(aligned, b, units, w, c);
                        assert(wire::spec_len_constrained(
                            aligned,
                            b,
                            units,
                            c.start,
                            c.spec_range(),
                        ).subrange(0, b.len() as int)[pos] == b[pos]);
                    }
                }
                if outside {
                    lemma_uncon_roundtrip(aligned, b, rest, units, w, 0);
                } else {
                    lemma_len_constrained_roundtrip(aligned, b, rest, units, w, c);
                }
            }
        },
    }
}

/// The constrained length forms extend the buffer they are written into.
proof fn lemma_len_constrained_extends(
    aligned: bool,
    buf: Seq<bool>,
    units: Seq<Seq<bool>>,
    w: nat,
    c: crate::constraints::Range<usize>,
)
    ensures
        ({
            let e = wire::spec_len_constrained(aligned, buf, units, c.start, c.spec_range());
            e.len() >= buf.len() && e.subrange(0, buf.len() as int) == buf
        }),
{
    let l = units.len() as int;
    let e = wire::spec_len_constrained(aligned, buf, units, c.start, c.spec_range());
    match c.spec_range() {
        Some(r) => {
            if r == 1 {
                assert(e.subrange(0, buf.len() as int) =~= buf);
            } else if r < 65536 && !aligned {
                assert(e.subrange(0, buf.len() as int) =~= buf);
            } else {
                lemma_uncon_extends(aligned, buf, units, 0);
            }
        },
        None => {
            lemma_uncon_extends(aligned, buf, units, 0);
        },
    }
}

/// Reading the constrained length forms back yields the units written.
#[verifier::rlimit(100)]
proof fn lemma_len_constrained_roundtrip(
    aligned: bool,
    buf: Seq<bool>,
    rest: Seq<bool>,
    units: Seq<Seq<bool>>,
    w: nat,
    c: crate::constraints::Range<usize>,
)
    requires
        uniform_units(units, w),
        c.spec_contains(units.len() as int),
        aligned ==> units.len() < 16384,
    ensures
        ({
            let e = wire::spec_len_constrained(aligned, buf, units, c.start, c.spec_range());
            spec_dec_len_constrained(aligned, e + rest, buf.len() as int, w, c) == Some(
                (concat_units(units, 0, units.len() as int), e.len() as int),
            )
        }),
{
    let l = units.len() as int;
    let e = wire::spec_len_constrained(aligned, buf, units, c.start, c.spec_range());
    let s = e + rest;
    let pos = buf.len() as int;
    let content = concat_units(units, 0, l);
    wire::lemma_concat_units_len(units, 0, l, w);
    match c.spec_range() {
        Some(r) => {
            if r == 1 {
                assert(c.start.unwrap() == l);
                assert(e == buf + content);
                vstd::arithmetic::mul::lemma_mul_basics(w as int);
                assert(l * w == content.len());
                assert(s.subrange(pos, pos + l * w) =~= content);
                assert(spec_dec_len_constrained(aligned, s, pos, w, c) == Some(
                    (content, pos + l * w),
                ));
            } else if r < 65536 && !aligned {
                lemma_len_constrained_small(aligned, buf, rest, units, w, c);
            } else {
                lemma_uncon_roundtrip(aligned, buf, rest, units, w, 0);
            }
        },
        None => {
            lemma_uncon_roundtrip(aligned, buf, rest, units, w, 0);
        },
    }
}

/// The small-range constrained length form: a fixed-width offset, then the
/// content.
#[verifier::rlimit(100)]
proof fn lemma_len_constrained_small(
    aligned: bool,
    buf: Seq<bool>,
    rest: Seq<bool>,
    units: Seq<Seq<bool>>,
    w: nat,
    c: crate::constraints::Range<usize>,
)
    requires
        uniform_units(units, w),
        c.spec_contains(units.len() as int),
        c.spec_range().is_some(),
        1 < c.spec_range().unwrap() < 65536,
        !aligned,
    ensures
        ({
            let e = wire::spec_len_constrained(aligned, buf, units, c.start, c.spec_range());
            spec_dec_len_constrained(aligned, e + rest, buf.len() as int, w, c) == Some(
                (concat_units(units, 0, units.len() as int), e.len() as int),
            )
        }),
{
    let l = units.len() as int;
    let r = c.spec_range().unwrap();
    let st = c.start.unwrap() as int;
    let off = l - st;
    let content = concat_units(units, 0, l);
    wire::lemma_concat_units_len(units, 0, l, w);
    let e = wire::spec_len_constrained(aligned, buf, units, c.start, c.spec_range());
    let e1 = spec_nnbi(aligned, buf, r, off);
    let s = e + rest;
    let pos = buf.len() as int;
    assert(st <= l <= c.end.unwrap());
    assert(r == c.end.unwrap() - st + 1);
    assert(0 <= off < r);
    crate::wire::lemma_offset_fits(r, off);
    lemma_nnbi_roundtrip(aligned, buf, content + rest, r, off);
    assert(e == e1 + content);
    assert(spec_dec_nnbi(aligned, e1 + (content + rest), pos, r) == Some(
        (off, e1.len() as int),
    ));
    assert(e1 + (content + rest) =~= s);
    assert(spec_dec_nnbi(aligned, s, pos, r) == Some((off, e1.len() as int)));
    let p1 = e1.len() as int;
    vstd::arithmetic::mul::lemma_mul_basics(w as int);
    assert((l - 0) * w == l * w) by (nonlinear_arith);
    assert(l * w == content.len());
    assert(s.subrange(p1, p1 + l * w) =~= content);
    assert(c.spec_contains(st + off));
}

/// A value within `n` signed bytes' range needs at most `n` minimal bytes.
proof fn lemma_min_sbytes_len(v: int, n: nat)
    requires
        n >= 1,
        -pow2((8 * n - 1) as nat) <= v < pow2((8 * n - 1) as nat),
    ensures
        1 <= arith::min_sbytes(v).len() <= n,
    decreases n,
{
    arith::lemma_be_sval_min_sbytes(v);
    if -128 <= v < 128 {
    } else {
        assert(n >= 2) by {
            if n == 1 {
                vstd::arithmetic::power2::lemma2_to64();
            }
        }
        assert(-pow2((8 * (n - 1) - 1) as nat) <= v / 256 < pow2((8 * (n - 1) - 1) as nat)) by {
            vstd::arithmetic::div_mod::lemma_fundamental_div_mod(v, 256);
            vstd::arithmetic::div_mod::lemma_mod_bound(v, 256);
            vstd::arithmetic::power2::lemma_pow2_adds((8 * n - 9) as nat, 8);
            vstd::arithmetic::power2::lemma2_to64();
        }
        lemma_min_sbytes_len(v / 256, (n - 1) as nat);
    }
}

/// A value below `2^(8n)` needs at most `n` minimal unsigned bytes.
proof fn lemma_min_ubytes_len(v: int, n: nat)
    requires
        n >= 1,
        0 <= v < pow2((8 * n) as nat),
    ensures
        1 <= arith::min_ubytes(v).len() <= n,
    decreases n,
{
    if v < 256 {
    } else {
        assert(n >= 2) by {
            if n == 1 {
                vstd::arithmetic::power2::lemma2_to64();
            }
        }
        assert(0 <= v / 256 < pow2((8 * (n - 1)) as nat)) by {
            vstd::arithmetic::div_mod::lemma_fundamental_div_mod(v, 256);
            vstd::arithmetic::div_mod::lemma_mod_bound(v, 256);
            vstd::arithmetic::power2::lemma_pow2_adds((8 * n - 8) as nat, 8);
            vstd::arithmetic::power2::lemma2_to64();
        }
        lemma_min_ubytes_len(v / 256, (n - 1) as nat);
    }
}

/// The first flattened bit of a byte string is the first byte's top bit.
proof fn lemma_bytes_bits_first(s: Seq<u8>)
    requires
        s.len() >= 1,
    ensures
        arith::bytes_bits(s)[0] == (s[0] >= 128),
    decreases s.len(),
{
    arith::lemma_val_of_bytes_bits(s);
    if s.len() == 1 {
        assert(arith::bytes_bits(s) == arith::bytes_bits(s.drop_last()) + arith::byte_bits(
            s.last(),
        ));
        assert(arith::bytes_bits(s.drop_last()) =~= Seq::<bool>::empty());
        assert(arith::bytes_bits(s)[0] == arith::byte_bits(s[0])[0]);
        lemma_byte_top_bit(s[0]);
    } else {
        let dl = s.drop_last();
        lemma_bytes_bits_first(dl);
        arith::lemma_val_of_bytes_bits(dl);
        assert(arith::bytes_bits(s)[0] == arith::bytes_bits(dl)[0]);
        assert(dl[0] == s[0]);
    }
}

/// A byte's top bit is its 128s place.
proof fn lemma_byte_top_bit(b: u8)
    ensures
        arith::byte_bits(b)[0] == (b >= 128),
{
    vstd::arithmetic::power2::lemma2_to64();
    assert(arith::byte_bits(b)[0] == ((b as int) / pow2(7) as int % 2 == 1));
    vstd::arithmetic::div_mod::lemma_fundamental_div_mod(b as int, 128);
    vstd::arithmetic::div_mod::lemma_mod_bound(b as int, 128);
}

/// Flattened bytes denote the same two's-complement value.
proof fn lemma_sval_of_bytes_bits(s: Seq<u8>)
    requires
        s.len() >= 1,
    ensures
        arith::sval_of(arith::bytes_bits(s)) == arith::be_sval(s),
{
    arith::lemma_val_of_bytes_bits(s);
    lemma_bytes_bits_first(s);
}

/// A fixed-width field extends the buffer it is written into.
proof fn lemma_nnbi_extends(aligned: bool, buf: Seq<bool>, range: int, v: int)
    ensures
        spec_nnbi(aligned, buf, range, v).len() >= buf.len(),
        spec_nnbi(aligned, buf, range, v).subrange(0, buf.len() as int) == buf,
{
    assert(spec_nnbi(aligned, buf, range, v).subrange(0, buf.len() as int) =~= buf);
}

/// A valid length determinant extends the buffer it is written into.
proof fn lemma_len_extends(
    aligned: bool,
    buf: Seq<bool>,
    units: Seq<Seq<bool>>,
    csize: Option<Extensible<Size>>,
)
    requires
        spec_len(aligned, buf, units, csize).is_some(),
    ensures
        ({
            let e = spec_len(aligned, buf, units, csize).unwrap();
            e.len() >= buf.len() && e.subrange(0, buf.len() as int) == buf
        }),
{
    let e = spec_len(aligned, buf, units, csize).unwrap();
    match csize {
        None => {
            lemma_uncon_extends(aligned, buf, units, 0);
        },
        Some(ext) => {
            let c = ext.constraint.0;
            if ext.extensible.is_none() {
                lemma_len_constrained_extends(aligned, buf, units, 0, c);
            } else {
                let outside = !c.spec_contains(units.len() as int);
                let b = buf.push(outside);
                if outside {
                    lemma_uncon_extends(aligned, b, units, 0);
                    assert(e.subrange(0, b.len() as int) == b);
                    assert(e.subrange(0, buf.len() as int) =~= buf);
                } else {
                    lemma_len_constrained_extends(aligned, b, units, 0, c);
                    assert(e.subrange(0, b.len() as int) == b);
                    assert(e.subrange(0, buf.len() as int) =~= buf);
                }
            }
        },
    }
}

/// The two's-complement byte form round-trips for values of the codec's
/// range.
#[verifier::rlimit(100)]
proof fn lemma_signed_form_roundtrip(
    aligned: bool,
    b0: Seq<bool>,
    rest: Seq<bool>,
    v: int,
    csize: Option<Extensible<Size>>,
)
    requires
        i128::MIN <= v <= i128::MAX,
        spec_len(aligned, b0, byte_units(arith::min_sbytes(v)), csize).is_some(),
    ensures
        ({
            let e = spec_len(aligned, b0, byte_units(arith::min_sbytes(v)), csize).unwrap();
            spec_dec_signed(aligned, e + rest, b0.len() as int, csize) == Some(
                (v, e.len() as int),
            )
        }),
{
    let sbytes = arith::min_sbytes(v);
    vstd::arithmetic::power2::lemma_pow2_adds(64, 63);
    vstd::arithmetic::power2::lemma2_to64();
    vstd::arithmetic::power2::lemma2_to64_rest();
    lemma_min_sbytes_len(v, 16);
    arith::lemma_be_sval_min_sbytes(v);
    wire::lemma_byte_units(sbytes);
    arith::lemma_val_of_bytes_bits(sbytes);
    lemma_sval_of_bytes_bits(sbytes);
    lemma_length_roundtrip(aligned, b0, rest, byte_units(sbytes), 8, csize);
}

/// The semi-constrained byte form round-trips for offsets of the codec's
/// range.
#[verifier::rlimit(100)]
proof fn lemma_semi_form_roundtrip(aligned: bool, b0: Seq<bool>, rest: Seq<bool>, st: int, v: int)
    requires
        st <= v,
        i128::MIN <= st,
        v <= i128::MAX,
    ensures
        spec_len(aligned, b0, byte_units(arith::min_ubytes(v - st)), None).is_some(),
        ({
            let e = spec_len(aligned, b0, byte_units(arith::min_ubytes(v - st)), None).unwrap();
            spec_dec_semi(aligned, e + rest, b0.len() as int, st) == Some((v, e.len() as int))
        }),
{
    let off = v - st;
    let ubytes = arith::min_ubytes(off);
    vstd::arithmetic::power2::lemma_pow2_adds(64, 64);
    vstd::arithmetic::power2::lemma_pow2_adds(127, 1);
    vstd::arithmetic::power2::lemma_pow2_adds(64, 63);
    vstd::arithmetic::power2::lemma2_to64();
    vstd::arithmetic::power2::lemma2_to64_rest();
    assert(0 <= off < pow2(128));
    lemma_min_ubytes_len(off, 16);
    arith::lemma_be_uval_min_ubytes(off);
    wire::lemma_byte_units(ubytes);
    arith::lemma_val_of_bytes_bits(ubytes);
    lemma_length_roundtrip(aligned, b0, rest, byte_units(ubytes), 8, None);
}

/// Reading a whole integer back yields the value that was written, for
/// every constraint shape the codec's value range covers.
#[verifier::rlimit(100)]
pub proof fn lemma_integer_roundtrip(
    aligned: bool,
    buf: Seq<bool>,
    rest: Seq<bool>,
    cs: Seq<Constraint>,
    v: int,
)
    requires
        int_value_ok(cs, v),
        i128::MIN <= v <= i128::MAX,
        wire::spec_int(aligned, buf, cs, v).is_some(),
    ensures
        ({
            let e = wire::spec_int(aligned, buf, cs, v).unwrap();
            spec_dec_int(aligned, e + rest, buf.len() as int, cs) == Some((v, e.len() as int))
        }),
{
    let e = wire::spec_int(aligned, buf, cs, v).unwrap();
    let s = e + rest;
    let pos = buf.len() as int;
    let vco = spec_value_of(cs);
    let ext = spec_any_extensible(cs);
    let outside = match vco {
        Some(vc) => !vc.constraint.0.spec_contains(v),
        None => false,
    };
    let b0 = if ext {
        buf.push(outside)
    } else {
        buf
    };
    let p0 = if ext {
        pos + 1
    } else {
        pos
    };
    if outside {
        crate::constraints::lemma_value_of_mem(cs);
        assert(ext);
    }
    let sbytes = arith::min_sbytes(v);
    let sunits = byte_units(sbytes);
    match vco {
        None => {
            assert(e == spec_len(aligned, b0, sunits, spec_size_of(cs)).unwrap());
            if ext {
                lemma_len_extends(aligned, b0, sunits, spec_size_of(cs));
                assert(s[pos] == outside) by {
                    assert(e.subrange(0, b0.len() as int)[pos] == e[pos]);
                }
            }
            lemma_signed_form_roundtrip(aligned, b0, rest, v, spec_size_of(cs));
        },
        Some(vc) => {
            let c = vc.constraint.0;
            if outside {
                assert(e == spec_len(aligned, b0, sunits, None).unwrap());
                lemma_len_extends(aligned, b0, sunits, None);
                assert(s[pos] == outside) by {
                    assert(e.subrange(0, b0.len() as int)[pos] == e[pos]);
                }
                lemma_signed_form_roundtrip(aligned, b0, rest, v, None);
            } else {
                match c.start {
                    Some(st) => {
                        let off = v - st;
                        let small = match c.spec_range() {
                            Some(r) => r < 65536,
                            None => false,
                        };
                        if small {
                            let r = c.spec_range().unwrap();
                            assert(e == spec_nnbi(aligned, b0, r, off));
                            if ext {
                                lemma_nnbi_extends(aligned, b0, r, off);
                                assert(s[pos] == outside) by {
                                    assert(e.subrange(0, b0.len() as int)[pos] == e[pos]);
                                }
                            }
                            assert(0 <= off < r);
                            crate::wire::lemma_offset_fits(r, off);
                            lemma_nnbi_roundtrip(aligned, b0, rest, r, off);
                        } else {
                            let uunits = byte_units(arith::min_ubytes(off));
                            assert(e == spec_len(aligned, b0, uunits, None).unwrap());
                            if ext {
                                lemma_len_extends(aligned, b0, uunits, None);
                                assert(s[pos] == outside) by {
                                    assert(e.subrange(0, b0.len() as int)[pos] == e[pos]);
                                }
                            }
                            lemma_semi_form_roundtrip(aligned, b0, rest, st as int, v);
                        }
                    },
                    None => {
                        assert(e == spec_len(aligned, b0, sunits, None).unwrap());
                        if ext {
                            lemma_len_extends(aligned, b0, sunits, None);
                            assert(s[pos] == outside) by {
                                assert(e.subrange(0, b0.len() as int)[pos] == e[pos]);
                            }
                        }
                        lemma_signed_form_roundtrip(aligned, b0, rest, v, None);
                    },
                }
            }
        },
    }
}

/// SET encoding is canonical: two SET scopes that recorded the same content
/// under the same tags hand their parents the same bits, whatever order the
/// fields were visited in.
pub proof fn law_set_encoding_canonical(e1: Encoder, e2: Encoder)
    requires
        e1.wf(),
        e2.wf(),
        e1.options.set_encoding,
        e2.options.set_encoding,
        e1.set_output.view_map() == e2.set_output.view_map(),
    ensures
        spec_bitstring_output(e1) == spec_bitstring_output(e2),
{
    let s1 = e1.set_output.entries@;
    let s2 = e2.set_output.entries@;
    maps::lemma_sorted_entries_unique(s1, s2);
    assert forall|i: int| 0 <= i < s1.len() implies #[trigger] s1[i].1@ == s2[i].1@ by {
        assert(s1[i].0.key() == s2[i].0.key());
    }
    maps::lemma_concat_entries_eq(s1, s2);
}

/// A CHOICE whose root holds exactly one alternative emits no discriminant
/// bits: only the alternative's own bits appear.
pub proof fn law_choice_single_root(
    aligned: bool,
    cs: Seq<Constraint>,
    root: Seq<crate::variants::Field>,
    extended: Seq<crate::variants::Field>,
    tag: crate::tag::Tag,
    body: Seq<bool>,
)
    requires
        root.len() == 1,
        root[0].tag == tag,
        !spec_any_extensible(cs),
    ensures
        wire::spec_choice(aligned, cs, root, extended, tag, body) == Some(body),
{
    assert(wire::has_tag(root, tag));
    assert(Seq::<bool>::empty() + body =~= body);
}

/// Octet strings round-trip: reading the length determinant back yields
/// exactly the bytes that were written, under every size-constraint shape.
pub proof fn lemma_octet_string_roundtrip(
    aligned: bool,
    buf: Seq<bool>,
    rest: Seq<bool>,
    value: Seq<u8>,
    csize: Option<Extensible<Size>>,
)
    requires
        spec_len(aligned, buf, byte_units(value), csize).is_some(),
        aligned ==> value.len() < 16384,
    ensures
        ({
            let e = spec_len(aligned, buf, byte_units(value), csize).unwrap();
            spec_dec_length(aligned, e + rest, buf.len() as int, 8, csize) == Some(
                (arith::bytes_bits(value), e.len() as int),
            )
        }),
{
    wire::lemma_byte_units(value);
    lemma_length_roundtrip(aligned, buf, rest, byte_units(value), 8, csize);
}

/// Byte strings are recoverable from their bits: flattening is injective.
pub proof fn lemma_bytes_bits_injective(a: Seq<u8>, b: Seq<u8>)
    requires
        arith::bytes_bits(a) == arith::bytes_bits(b),
        a.len() == b.len(),
    ensures
        a == b,
    decreases a.len(),
{
    vstd::arithmetic::power2::lemma2_to64();
    if a.len() > 0 {
        arith::lemma_val_of_bytes_bits(a);
        arith::lemma_val_of_bytes_bits(b);
        arith::lemma_val_of_bytes_bits(a.drop_last());
        arith::lemma_val_of_bytes_bits(b.drop_last());
        assert(arith::bytes_bits(a.drop_last()) =~= arith::bytes_bits(a).subrange(
            0,
            8 * (a.len() - 1),
        )) by {
            assert(arith::bytes_bits(a) == arith::bytes_bits(a.drop_last()) + arith::byte_bits(
                a.last(),
            ));
        }
        assert(arith::bytes_bits(b.drop_last()) =~= arith::bytes_bits(b).subrange(
            0,
            8 * (b.len() - 1),
        )) by {
            assert(arith::bytes_bits(b) == arith::bytes_bits(b.drop_last()) + arith::byte_bits(
                b.last(),
            ));
        }
        lemma_bytes_bits_injective(a.drop_last(), b.drop_last());
        assert(arith::byte_bits(a.last()) =~= arith::bytes_bits(a).subrange(
            8 * (a.len() - 1),
            8 * a.len() as int,
        )) by {
            assert(arith::bytes_bits(a) == arith::bytes_bits(a.drop_last()) + arith::byte_bits(
                a.last(),
            ));
        }
        assert(arith::byte_bits(b.last()) =~= arith::bytes_bits(b).subrange(
            8 * (b.len() - 1),
            8 * b.len() as int,
        )) by {
            assert(arith::bytes_bits(b) == arith::bytes_bits(b.drop_last()) + arith::byte_bits(
                b.last(),
            ));
        }
        arith::lemma_val_of_u_bits(a.last() as int, 8);
        arith::lemma_val_of_u_bits(b.last() as int, 8);
        assert(a.last() == b.last());
        assert(a =~= a.drop_last().push(a.last()));
        assert(b =~= b.drop_last().push(b.last()));
    } else {
        assert(a =~= b);
    }
}

/// Bit strings round-trip: reading the length determinant back yields
/// exactly the bits that were written.
pub proof fn lemma_bit_string_roundtrip(
    aligned: bool,
    buf: Seq<bool>,
    rest: Seq<bool>,
    value: Seq<bool>,
    csize: Option<Extensible<Size>>,
)
    requires
        spec_len(aligned, buf, crate::wire::bit_units(value), csize).is_some(),
        aligned ==> value.len() < 16384,
    ensures
        ({
            let e = spec_len(aligned, buf, crate::wire::bit_units(value), csize).unwrap();
            spec_dec_length(aligned, e + rest, buf.len() as int, 1, csize) == Some(
                (value, e.len() as int),
            )
        }),
{
    crate::wire::lemma_bit_units(value);
    lemma_length_roundtrip(aligned, buf, rest, crate::wire::bit_units(value), 1, csize);
}

/// Character fields are recoverable: the `i`-th `w`-bit chunk of the
/// concatenated units denotes the `i`-th character.
pub proof fn lemma_char_units_recoverable(chars: Seq<u32>, w: nat, i: int)
    requires
        0 <= i < chars.len(),
        forall|j: int| 0 <= j < chars.len() ==> (#[trigger] chars[j]) < pow2(w),
    ensures
        ({
            let content = concat_units(crate::strings::char_units(chars, w), 0, chars.len() as int);
            content.len() == chars.len() * w && arith::val_of(
                content.subrange(i * w, i * w + w),
            ) == chars[i]
        }),
{
    let units = crate::strings::char_units(chars, w);
    let l = chars.len() as int;
    let content = concat_units(units, 0, l);
    assert(uniform_units(units, w));
    wire::lemma_concat_units_len(units, 0, l, w);
    lemma_concat_units_split(units, 0, i, l);
    lemma_concat_units_split(units, i, i + 1, l);
    wire::lemma_concat_units_len(units, 0, i, w);
    wire::lemma_concat_units_len(units, i, i + 1, w);
    vstd::arithmetic::mul::lemma_mul_basics(w as int);
    assert(concat_units(units, i, i + 1) == units[i]) by {
        assert(concat_units(units, i, i) + units[i] =~= units[i]);
    }
    assert(content.subrange(i * w, i * w + w) =~= units[i]) by {
        assert(content =~= concat_units(units, 0, i) + (units[i] + concat_units(
            units,
            i + 1,
            l,
        )));
        assert((i + 1 - i) * w == w);
        assert(i * w + w <= l * w) by (nonlinear_arith)
            requires
                i + 1 <= l,
                w >= 0,
        ;
    }
    arith::lemma_val_of_u_bits(chars[i] as int, w);
}

/// Alphabet remapping is reversible: the recorded index points back at the
/// original character.
pub proof fn lemma_remap_recoverable(alphabet: Seq<u32>, chars: Seq<u32>, i: int)
    requires
        0 <= i < chars.len(),
        crate::strings::alphabet_has(alphabet, chars[i]),
    ensures
        ({
            let idx = crate::strings::alphabet_index(alphabet, chars[i]);
            0 <= idx < alphabet.len() && alphabet[idx] == chars[i]
        }),
{
    lemma_alphabet_index_hits(alphabet, chars[i]);
}

/// The index function lands on an occurrence of the character.
proof fn lemma_alphabet_index_hits(alphabet: Seq<u32>, c: u32)
    requires
        crate::strings::alphabet_has(alphabet, c),
    ensures
        ({
            let idx = crate::strings::alphabet_index(alphabet, c);
            0 <= idx < alphabet.len() && alphabet[idx] == c
        }),
    decreases alphabet.len(),
{
    if alphabet.len() > 0 {
        if alphabet[0] == c {
        } else {
            let d = alphabet.drop_first();
            assert(crate::strings::alphabet_has(d, c)) by {
                let j = choose|j: int| 0 <= j < alphabet.len() && alphabet[j] == c;
                assert(d[j - 1] == c);
            }
            lemma_alphabet_index_hits(d, c);
        }
    }
}

/// Known-multiplier strings round-trip: reading the length determinant
/// back yields the written character fields, and each character is
/// recoverable from its field, through the permitted alphabet where one
/// narrowed the encoding.
#[verifier::rlimit(100)]
pub proof fn lemma_kms_roundtrip(
    aligned: bool,
    buf: Seq<bool>,
    rest: Seq<bool>,
    cs: Seq<Constraint>,
    width: nat,
    chars: Seq<u32>,
)
    requires
        width <= 31,
        forall|i: int| 0 <= i < chars.len() ==> (#[trigger] chars[i]) < pow2(width),
        crate::strings::kms_ok(aligned, cs, width, chars),
        match crate::constraints::spec_alphabet_of(cs) {
            Some(a) => a.constraint.0@.len() >= 1,
            None => true,
        },
        spec_len(
            aligned,
            buf,
            crate::strings::kms_units(aligned, cs, width, chars),
            spec_size_of(cs),
        ).is_some(),
        aligned ==> chars.len() < 16384,
    ensures
        ({
            let w = crate::strings::kms_width(aligned, cs, width);
            let units = crate::strings::kms_units(aligned, cs, width, chars);
            let content = concat_units(units, 0, chars.len() as int);
            let e = spec_len(aligned, buf, units, spec_size_of(cs)).unwrap();
            &&& spec_dec_length(aligned, e + rest, buf.len() as int, w, spec_size_of(cs))
                == Some((content, e.len() as int))
            &&& forall|i: int|
                0 <= i < chars.len() ==> #[trigger] crate::strings::recovered_char(
                    cs,
                    arith::val_of(content.subrange(i * w, i * w + w)),
                    aligned,
                    width,
                ) == chars[i]
        }),
{
    let w = crate::strings::kms_width(aligned, cs, width);
    let units = crate::strings::kms_units(aligned, cs, width, chars);
    let content = concat_units(units, 0, chars.len() as int);
    let stored: Seq<u32> = match crate::constraints::spec_alphabet_of(cs) {
        Some(a) => {
            let al = a.constraint.0@;
            let eff = crate::strings::effective_width(aligned, al.len() as int);
            if width > eff {
                crate::strings::remapped(al, chars)
            } else {
                chars
            }
        },
        None => chars,
    };
    assert(units == crate::strings::char_units(stored, w));
    assert(uniform_units(units, w));
    assert forall|i: int| 0 <= i < stored.len() implies (#[trigger] stored[i]) < pow2(w) by {
        match crate::constraints::spec_alphabet_of(cs) {
            Some(a) => {
                let al = a.constraint.0@;
                let eff = crate::strings::effective_width(aligned, al.len() as int);
                if width > eff {
                    lemma_alphabet_index_hits(al, chars[i]);
                    lemma_alphabet_len_fits(aligned, al.len() as int);
                } else {
                    assert(chars[i] < pow2(width));
                }
            },
            None => {
                if aligned && crate::strings::octet_width(width) > width {
                    vstd::arithmetic::power2::lemma_pow2_strictly_increases(
                        width,
                        crate::strings::octet_width(width),
                    );
                }
            },
        }
    }
    lemma_length_roundtrip(aligned, buf, rest, units, w, spec_size_of(cs));
    assert forall|i: int| 0 <= i < chars.len() implies #[trigger] crate::strings::recovered_char(
        cs,
        arith::val_of(content.subrange(i * w, i * w + w)),
        aligned,
        width,
    ) == chars[i] by {
        lemma_char_units_recoverable(stored, w, i);
        match crate::constraints::spec_alphabet_of(cs) {
            Some(a) => {
                let al = a.constraint.0@;
                let eff = crate::strings::effective_width(aligned, al.len() as int);
                if width > eff {
                    lemma_alphabet_index_hits(al, chars[i]);
                    lemma_alphabet_len_fits(aligned, al.len() as int);
                    let idx = crate::strings::alphabet_index(al, chars[i]);
                    assert(idx < al.len() <= pow2(eff));
                    assert(pow2(eff) <= pow2(31)) by {
                        if eff < 31 {
                            vstd::arithmetic::power2::lemma_pow2_strictly_increases(eff, 31);
                        }
                    }
                    assert(pow2(31) == 0x80000000) by {
                        vstd::arithmetic::power2::lemma2_to64();
                    }
                    assert(stored[i] == idx as u32);
                    assert(stored[i] as int == idx);
                    assert(arith::val_of(content.subrange(i * w, i * w + w)) == idx);
                    assert(al[idx] == chars[i]);
                }
            },
            None => {},
        }
    }
}

/// An alphabet's indices fit the effective width.
proof fn lemma_alphabet_len_fits(aligned: bool, alen: int)
    requires
        alen >= 1,
    ensures
        alen <= pow2(crate::strings::effective_width(aligned, alen)),
{
    let aw = arith::bits_for(alen - 1);
    arith::lemma_bits_for_bound(alen - 1);
    if aligned {
        let eff = pow2(arith::bits_for(aw - 1));
        if aw >= 1 {
            arith::lemma_bits_for_bound(aw - 1);
        }
        if aw < eff {
            vstd::arithmetic::power2::lemma_pow2_strictly_increases(aw, eff as nat);
        }
    }
}

} // verus!