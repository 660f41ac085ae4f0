//! The wire format, stated as functions from values to bit sequences. Every
//! encoder method is proved to append exactly what these functions describe;
//! the decoder and the round-trip laws are stated against them too.

use vstd::prelude::*;
use vstd::arithmetic::power2::pow2;
use crate::arith;
use crate::bits;
use crate::constraints::Constraint;
use crate::constraints::Extensible;
use crate::constraints::Size;
use crate::constraints::spec_size_of;
use crate::constraints::spec_value_of;
use crate::constraints::spec_any_extensible;

verus! {

/// Padding to the next byte boundary, applied only in the aligned variant.
pub open spec fn spec_pad(aligned: bool, buf: Seq<bool>) -> Seq<bool> {
    if aligned {
        bits::padded(buf)
    } else {
        buf
    }
}

/// The content units in positions `from..to`, concatenated. A unit is one
/// octet, one character, one bit or one encoded element, depending on the
/// caller.
pub open spec fn concat_units(units: Seq<Seq<bool>>, from: int, to: int) -> Seq<bool>
    decreases to - from,
{
    if from >= to {
        Seq::empty()
    } else {
        concat_units(units, from, to - 1) + units[to - 1]
    }
}

/// Each byte of a byte string as one eight-bit unit.
pub open spec fn byte_units(s: Seq<u8>) -> Seq<Seq<bool>> {
    Seq::new(s.len(), |i: int| arith::byte_bits(s[i]))
}

/// Each bit of a bit string as one one-bit unit.
pub open spec fn bit_units(s: Seq<bool>) -> Seq<Seq<bool>> {
    Seq::new(s.len(), |i: int| seq![s[i]])
}

/// Every unit holds exactly `w` bits.
pub open spec fn uniform_units(units: Seq<Seq<bool>>, w: nat) -> bool {
    forall|i: int| 0 <= i < units.len() ==> #[trigger] units[i].len() == w
}

/// A non-negative binary integer field: the offset `v` in the least number
/// of bits covering `range` values, byte-aligned first in the aligned
/// variant when `range` is 256 or more.
pub open spec fn spec_nnbi(aligned: bool, buf: Seq<bool>, range: int, v: int) -> Seq<bool> {
    let b = if range >= 256 {
        spec_pad(aligned, buf)
    } else {
        buf
    };
    b + arith::u_bits(v, arith::bits_for(range - 1))
}

/// The unconstrained length form: a one-byte count up to 127, a two-byte
/// count below 16384, and 16K-quantum fragments above, each led by a marker
/// byte `0xC1`..`0xC4` and closed by a final short form (a full-quantum
/// tail is closed by an explicit zero count).
pub open spec fn spec_len_uncon(
    aligned: bool,
    buf: Seq<bool>,
    units: Seq<Seq<bool>>,
    min: int,
) -> Seq<bool>
    decreases units.len() - min,
{
    let rem = units.len() - min;
    if rem <= 127 {
        spec_pad(aligned, buf + arith::u_bits(rem, 8)) + concat_units(units, min, units.len() as int)
    } else if rem < 16384 {
        buf + arith::u_bits(0x8000 + rem, 16) + concat_units(units, min, units.len() as int)
    } else {
        let k: int = if rem >= 65536 {
            4
        } else {
            rem / 16384
        };
        let amount = k * 16384;
        let b2 = buf + arith::u_bits(0xC0 + k, 8) + concat_units(units, min, min + amount);
        if rem == 16384 {
            b2 + arith::u_bits(0, 8)
        } else {
            spec_len_uncon(aligned, b2, units, min + amount)
        }
    }
}

/// The length determinant followed by the content, against an optional size
/// constraint. `None` is the invalid-length error: the unit count lies
/// outside a non-extensible bound.
pub open spec fn spec_len(
    aligned: bool,
    buf: Seq<bool>,
    units: Seq<Seq<bool>>,
    csize: Option<Extensible<Size>>,
) -> Option<Seq<bool>> {
    match csize {
        None => Some(spec_len_uncon(aligned, buf, units, 0)),
        Some(ext) => {
            let c = ext.constraint.0;
            let len = units.len() as int;
            if ext.extensible.is_none() {
                if !c.spec_contains(len) {
                    None
                } else {
                    Some(spec_len_constrained(aligned, buf, units, c.start, c.spec_range()))
                }
            } else {
                let outside = !c.spec_contains(len);
                let b = buf.push(outside);
                if outside {
                    Some(spec_len_uncon(aligned, b, units, 0))
                } else {
                    Some(spec_len_constrained(aligned, b, units, c.start, c.spec_range()))
                }
            }
        },
    }
}

/// The constrained length forms: nothing for a single possible length, a
/// fixed-width offset for a small range in the unaligned variant, and the
/// unconstrained form otherwise.
pub open spec fn spec_len_constrained(
    aligned: bool,
    buf: Seq<bool>,
    units: Seq<Seq<bool>>,
    start: Option<usize>,
    range: Option<int>,
) -> Seq<bool> {
    let len = units.len() as int;
    match range {
        Some(r) => {
            if r == 1 {
                buf + concat_units(units, 0, len)
            } else if r < 65536 && !aligned {
                spec_nnbi(aligned, buf, r, len - start.unwrap()) + concat_units(units, 0, len)
            } else {
                spec_len_uncon(aligned, buf, units, 0)
            }
        },
        None => spec_len_uncon(aligned, buf, units, 0),
    }
}

/// A whole integer encoding: the extension bit when the constraints are
/// extensible, then a fixed-width offset for a small fully bounded range, or
/// minimal bytes behind a length determinant otherwise. An out-of-root value
/// under an extensible constraint is encoded fully unconstrained.
pub open spec fn spec_int(
    aligned: bool,
    buf: Seq<bool>,
    cs: Seq<Constraint>,
    v: int,
) -> Option<Seq<bool>> {
    let vco = spec_value_of(cs);
    let outside = match vco {
        Some(vc) => !vc.constraint.0.spec_contains(v),
        None => false,
    };
    let b0 = if spec_any_extensible(cs) {
        buf.push(outside)
    } else {
        buf
    };
    match vco {
        None => spec_len(aligned, b0, byte_units(arith::min_sbytes(v)), spec_size_of(cs)),
        Some(vc) => {
            if outside {
                spec_len(aligned, b0, byte_units(arith::min_sbytes(v)), None)
            } else {
                match vc.constraint.0.start {
                    Some(s) => {
                        let off = v - s;
                        match vc.constraint.0.spec_range() {
                            Some(r) => {
                                if r < 65536 {
                                    Some(spec_nnbi(aligned, b0, r, off))
                                } else {
                                    spec_len(aligned, b0, byte_units(arith::min_ubytes(off)), None)
                                }
                            },
                            None => spec_len(aligned, b0, byte_units(arith::min_ubytes(off)), None),
                        }
                    },
                    None => spec_len(aligned, b0, byte_units(arith::min_sbytes(v)), None),
                }
            }
        },
    }
}

/// The normally-small-integer form: a flag bit, then either a fixed six-bit
/// field (below 64) or the value's minimal bytes behind a length determinant.
pub open spec fn spec_nsi(aligned: bool, buf: Seq<bool>, v: int) -> Seq<bool> {
    if v < 64 {
        spec_nnbi(aligned, buf.push(false), 64, v)
    } else {
        spec_len_uncon(aligned, buf.push(true), byte_units(arith::min_ubytes(v)), 0)
    }
}

/// Byte blocks as sequences of bytes.
pub open spec fn blocks_of(v: Seq<Vec<u8>>) -> Seq<Seq<u8>> {
    Seq::new(v.len(), |i: int| v[i]@)
}

/// The extension-addition blocks with indices below `j`, each non-empty one
/// wrapped as a length-prefixed opaque octet string, appended in order.
pub open spec fn spec_ext_blocks(
    aligned: bool,
    buf: Seq<bool>,
    fields: Seq<Seq<u8>>,
    j: int,
) -> Seq<bool>
    decreases j,
{
    if j <= 0 {
        buf
    } else {
        let prev = spec_ext_blocks(aligned, buf, fields, j - 1);
        if fields[j - 1].len() > 0 {
            spec_len_uncon(aligned, prev, byte_units(fields[j - 1]), 0)
        } else {
            prev
        }
    }
}

/// A finished SEQUENCE or SET scope merged into its parent: the
/// extensibility bit when the constraints are extensible, the presence
/// flags, byte alignment in the aligned variant, the concatenated field
/// contents, and then, when extension additions were recorded, their count
/// as a normally small integer, a bitmap marking the non-empty ones, and
/// each non-empty one wrapped as a length-prefixed octet string.
pub open spec fn spec_constructed(
    aligned: bool,
    extensible: bool,
    presence: Seq<bool>,
    fields: Seq<Seq<u8>>,
    child_bits: Seq<bool>,
) -> Seq<bool> {
    let has_ext = fields.len() > 0;
    let b0: Seq<bool> = if extensible {
        seq![has_ext]
    } else {
        Seq::empty()
    };
    let b1 = b0 + presence;
    let b2 = spec_pad(aligned, b1);
    let b3 = b2 + child_bits;
    if !has_ext {
        b3
    } else {
        let b4 = spec_nsi(aligned, b3, fields.len() as int);
        let b5 = b4 + Seq::new(fields.len(), |i: int| fields[i].len() > 0);
        spec_ext_blocks(aligned, b5, fields, fields.len() as int)
    }
}

/// The first position in a field list carrying the given tag.
pub open spec fn index_of_tag(s: Seq<crate::variants::Field>, tag: crate::tag::Tag) -> int
    decreases s.len(),
{
    if s.len() == 0 {
        0
    } else if s[0].tag == tag {
        0
    } else {
        1 + index_of_tag(s.drop_first(), tag)
    }
}

/// Whether some field in a list carries the given tag.
pub open spec fn has_tag(s: Seq<crate::variants::Field>, tag: crate::tag::Tag) -> bool {
    exists|i: int| 0 <= i < s.len() && #[trigger] s[i].tag == tag
}

/// The value constraint a CHOICE index is packed against: the root
/// alternatives indexed from zero.
pub open spec fn choice_index_constraints(n: int) -> Seq<Constraint> {
    seq![
        Constraint::Value(
            Extensible {
                constraint: crate::constraints::Value(
                    crate::constraints::Range { start: Some(0i128), end: Some((n - 1) as i128) },
                ),
                extensible: None,
            },
        ),
    ]
}

/// The bytes a finished scope's bits pack into, never empty.
pub open spec fn out_bytes(bits_seq: Seq<bool>) -> Seq<u8> {
    let bytes = bits::to_bytes(bits_seq);
    if bytes.len() == 0 {
        seq![0u8]
    } else {
        bytes
    }
}

/// A CHOICE value merged into its parent: the extensibility bit when the
/// constraints are extensible, then for a root alternative its index as a
/// fixed-width integer (nothing at all for a single root alternative)
/// followed by the alternative's own bits, and for an extension alternative
/// its index as a normally small integer, byte alignment, and the
/// alternative's bytes wrapped as a length-prefixed octet string. `None` is
/// the unknown-variant error.
pub open spec fn spec_choice(
    aligned: bool,
    cs: Seq<Constraint>,
    root: Seq<crate::variants::Field>,
    extended: Seq<crate::variants::Field>,
    tag: crate::tag::Tag,
    body: Seq<bool>,
) -> Option<Seq<bool>> {
    let in_root = has_tag(root, tag);
    let b0: Seq<bool> = if spec_any_extensible(cs) {
        seq![!in_root]
    } else {
        Seq::empty()
    };
    if in_root {
        let idx = index_of_tag(root, tag);
        let n = root.len() as int;
        if n == 1 {
            Some(b0 + body)
        } else {
            Some(spec_int(aligned, b0, choice_index_constraints(n), idx).unwrap() + body)
        }
    } else {
        if has_tag(extended, tag) {
            let idx = index_of_tag(extended, tag);
            let b1 = spec_nsi(aligned, b0, idx);
            let b2 = spec_pad(aligned, b1);
            Some(spec_len_uncon(aligned, b2, byte_units(out_bytes(body)), 0))
        } else {
            None
        }
    }
}

/// The concatenation of uniform units has predictable length.
pub proof fn lemma_concat_units_len(units: Seq<Seq<bool>>, from: int, to: int, w: nat)
    requires
        0 <= from,
        to <= units.len(),
        uniform_units(units, w),
    ensures
        concat_units(units, from, to).len() == if from >= to {
            0int
        } else {
            (to - from) * w
        },
    decreases to - from,
{
    if from < to {
        lemma_concat_units_len(units, from, to - 1, w);
        assert(units[to - 1].len() == w);
        if from >= to - 1 {
            vstd::arithmetic::mul::lemma_mul_basics(w as int);
            assert((to - from) * w == 1 * w);
        } else {
            assert((to - 1 - from) * w + w == (to - from) * w) by (nonlinear_arith);
        }
    }
}

/// Byte units are uniform and concatenate to the flattened bytes.
pub proof fn lemma_byte_units(s: Seq<u8>)
    ensures
        uniform_units(byte_units(s), 8),
        concat_units(byte_units(s), 0, s.len() as int) == arith::bytes_bits(s),
    decreases s.len(),
{
    if s.len() == 0 {
        assert(concat_units(byte_units(s), 0, 0) =~= arith::bytes_bits(s));
    } else {
        let dl = s.drop_last();
        lemma_byte_units(dl);
        assert(concat_units(byte_units(dl), 0, dl.len() as int) == arith::bytes_bits(dl));
        assert forall|i: int| 0 <= i < dl.len() implies byte_units(s)[i] == byte_units(dl)[i] by {
            assert(dl[i] == s[i]);
        }
        lemma_concat_prefix_eq(byte_units(s), byte_units(dl), 0, dl.len() as int);
        assert(byte_units(s)[s.len() - 1] == arith::byte_bits(s.last()));
        assert(concat_units(byte_units(s), 0, s.len() as int) == concat_units(
            byte_units(s),
            0,
            s.len() - 1,
        ) + byte_units(s)[s.len() - 1]);
        assert(arith::bytes_bits(s) == arith::bytes_bits(dl) + arith::byte_bits(s.last()));
    }
}

/// Bit units are uniform and concatenate back to the bits.
pub proof fn lemma_bit_units(s: Seq<bool>)
    ensures
        uniform_units(bit_units(s), 1),
        concat_units(bit_units(s), 0, s.len() as int) == s,
    decreases s.len(),
{
    if s.len() == 0 {
        assert(concat_units(bit_units(s), 0, 0) =~= s);
    } else {
        let dl = s.drop_last();
        lemma_bit_units(dl);
        assert forall|i: int| 0 <= i < dl.len() implies bit_units(s)[i] == bit_units(dl)[i] by {
            assert(dl[i] == s[i]);
        }
        lemma_concat_prefix_eq(bit_units(s), bit_units(dl), 0, dl.len() as int);
        assert(bit_units(s)[s.len() - 1] =~= seq![s.last()]);
        assert(concat_units(bit_units(s), 0, s.len() as int) == concat_units(
            bit_units(s),
            0,
            s.len() - 1,
        ) + seq![s.last()]);
        assert(dl + seq![s.last()] =~= s);
    }
}

/// Concatenation only reads the units inside the window.
pub proof fn lemma_concat_prefix_eq(a: Seq<Seq<bool>>, b: Seq<Seq<bool>>, from: int, to: int)
    requires
        forall|i: int| from <= i < to ==> #[trigger] a[i] == b[i],
    ensures
        concat_units(a, from, to) == concat_units(b, from, to),
    decreases to - from,
{
    if from < to {
        lemma_concat_prefix_eq(a, b, from, to - 1);
    }
}

/// An offset below the covered range fits its field width.
pub proof fn lemma_offset_fits(range: int, v: int)
    requires
        0 <= v < range,
    ensures
        v < pow2(arith::bits_for(range - 1)),
{
    arith::lemma_bits_for_bound(range - 1);
}

} // verus!
