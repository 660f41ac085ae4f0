//! The PER encoder. A top-level call allocates an encoder; a constructed
//! type allocates a nested encoder scoped to the aggregate, whose finished
//! buffer the parent merges. Every method is proved to emit exactly the bits
//! that the functions in `wire` describe.

use vstd::prelude::*;
use vstd::arithmetic::power2::pow2;
use crate::arith;
use crate::bits;
use crate::bits::BitBuffer;
use crate::constraints::Constraint;
use crate::constraints::Constraints;
use crate::constraints::Extensible;
use crate::constraints::Range;
use crate::constraints::Size;
use crate::constraints::spec_size_of;
use crate::constraints::spec_value_of;
use crate::constraints::spec_any_extensible;
use crate::error::Error;
use crate::maps::PresenceList;
use crate::maps::TagMap;
use crate::maps::concat_entries;
use crate::tag::Tag;
use crate::variants::Field;
use crate::variants::Variants;
use crate::variants::optional_or_default;
use crate::wire;
use crate::wire::spec_len;
use crate::wire::spec_len_uncon;
use crate::wire::spec_nnbi;
use crate::wire::byte_units;
use crate::wire::bit_units;
use vstd::string::StringSliceAdditionalSpecFns;

verus! {

/// The variant and mode an encoder runs in, fixed for a whole session.
#[derive(Clone, Copy, PartialEq, Eq, Structural, Debug)]
pub struct EncoderOptions {
    pub aligned: bool,
    pub set_encoding: bool,
}

impl EncoderOptions {
    /// Options for the aligned variant.
    pub fn aligned() -> (r: Self)
        ensures
            r == (EncoderOptions { aligned: true, set_encoding: false }),
    {
        EncoderOptions { aligned: true, set_encoding: false }
    }

    /// Options for the unaligned variant.
    pub fn unaligned() -> (r: Self)
        ensures
            r == (EncoderOptions { aligned: false, set_encoding: false }),
    {
        EncoderOptions { aligned: false, set_encoding: false }
    }

    /// The same options with SET canonical reordering turned off.
    pub fn without_set_encoding(self) -> (r: Self)
        ensures
            r == (EncoderOptions { aligned: self.aligned, set_encoding: false }),
    {
        EncoderOptions { aligned: self.aligned, set_encoding: false }
    }
}

/// One item handed to the output: a bit, a byte, bits, or bytes.
pub enum Input<'a> {
    Bit(bool),
    Byte(u8),
    Bits(&'a BitBuffer),
    Bytes(&'a Vec<u8>),
}

/// The bits an input denotes.
pub open spec fn input_bits(input: Input) -> Seq<bool> {
    match input {
        Input::Bit(b) => seq![b],
        Input::Byte(b) => arith::byte_bits(b),
        Input::Bits(x) => x@,
        Input::Bytes(v) => arith::bytes_bits(v@),
    }
}

/// The units an encoded-unit list denotes.
pub open spec fn units_of(v: Seq<BitBuffer>) -> Seq<Seq<bool>> {
    Seq::new(v.len(), |i: int| v[i]@)
}

/// The size constraint a borrowed option denotes.
pub open spec fn size_of_opt(c: Option<&Extensible<Size>>) -> Option<Extensible<Size>> {
    match c {
        Some(x) => Some(*x),
        None => None,
    }
}

/// A PER encoder scope.
pub struct Encoder {
    pub options: EncoderOptions,
    pub output: BitBuffer,
    pub set_output: TagMap,
    pub field_bitfield: PresenceList,
    pub extension_fields: Vec<Vec<u8>>,
}

/// The bits a finished scope hands to its parent: the recorded SET contents
/// in canonical tag order under SET encoding, the plain output otherwise.
pub open spec fn spec_bitstring_output(e: Encoder) -> Seq<bool> {
    if e.options.set_encoding {
        concat_entries(e.set_output.entries@)
    } else {
        e.output@
    }
}

/// The bytes a finished top-level scope produces: the bits packed into
/// bytes, or a single zero byte when nothing was emitted.
pub open spec fn spec_output_bytes(e: Encoder) -> Seq<u8> {
    let bytes = bits::to_bytes(spec_bitstring_output(e));
    if bytes.len() == 0 {
        seq![0u8]
    } else {
        bytes
    }
}

/// What one `extend` call does: under SET encoding the bits are recorded
/// under the tag, otherwise they are appended to the output; everything else
/// is untouched.
pub open spec fn spec_extended(pre: Encoder, post: Encoder, tag: Tag, bits: Seq<bool>) -> bool {
    &&& post.options == pre.options
    &&& post.field_bitfield == pre.field_bitfield
    &&& post.extension_fields == pre.extension_fields
    &&& if pre.options.set_encoding {
        &&& post.set_output.view_map() == pre.set_output.view_map().insert(tag.key(), bits)
        &&& post.output == pre.output
    } else {
        &&& post.output@ == pre.output@ + bits
        &&& post.set_output == pre.set_output
    }
}

impl Encoder {
    /// Both per-scope maps are well formed.
    pub open spec fn wf(&self) -> bool {
        self.set_output.wf() && self.field_bitfield.wf()
    }

    /// A fresh scope.
    pub fn new(options: EncoderOptions) -> (r: Self)
        ensures
            r.wf(),
            r.options == options,
            r.output@ == Seq::<bool>::empty(),
            r.set_output.entries@.len() == 0,
            r.set_output.view_map() == Map::<int, Seq<bool>>::empty(),
            r.field_bitfield.entries@.len() == 0,
            r.extension_fields@.len() == 0,
    {
        Encoder {
            options,
            output: BitBuffer::new(),
            set_output: TagMap::new(),
            field_bitfield: PresenceList::new(),
            extension_fields: Vec::new(),
        }
    }

    /// Pads `buffer` to a byte boundary in the aligned variant; does nothing
    /// in the unaligned one.
    fn pad_to_alignment(&self, buffer: &mut BitBuffer)
        ensures
            final(buffer)@ == wire::spec_pad(self.options.aligned, old(buffer)@),
    {
        if self.options.aligned {
            buffer.pad_to_byte_boundary();
        }
    }

    /// Appends the content units in positions `from..to`.
    fn append_units(&self, buffer: &mut BitBuffer, units: &Vec<BitBuffer>, from: usize, to: usize)
        requires
            from <= to <= units@.len(),
        ensures
            final(buffer)@ == old(buffer)@ + wire::concat_units(
                units_of(units@),
                from as int,
                to as int,
            ),
    {
        let mut i = from;
        proof {
            assert(buffer@ =~= buffer@ + wire::concat_units(
                units_of(units@),
                from as int,
                from as int,
            ));
        }
        while i < to
            invariant
                from <= i <= to <= units@.len(),
                buffer@ == old(buffer)@ + wire::concat_units(
                    units_of(units@),
                    from as int,
                    i as int,
                ),
            decreases to - i,
        {
            buffer.append_bits(&units[i]);
            proof {
                assert(units_of(units@)[i as int] == units@[i as int]@);
            }
            i = i + 1;
        }
    }

    /// Merges `input` into this scope: recorded under `tag` in a SET scope,
    /// appended to the output otherwise.
    pub fn extend(&mut self, tag: Tag, input: Input)
        requires
            old(self).wf(),
        ensures
            final(self).wf(),
            spec_extended(*old(self), *final(self), tag, input_bits(input)),
    {
        let mut buf = BitBuffer::new();
        match input {
            Input::Bit(b) => {
                buf.push(b);
                proof {
                    assert(buf@ =~= input_bits(input));
                }
            },
            Input::Byte(b) => {
                buf.push_byte(b);
                proof {
                    assert(buf@ =~= input_bits(input));
                }
            },
            Input::Bits(x) => {
                buf.append_bits(x);
                proof {
                    assert(buf@ =~= input_bits(input));
                }
            },
            Input::Bytes(v) => {
                buf.append_bytes(v.as_slice());
                proof {
                    assert(buf@ =~= input_bits(input));
                }
            },
        }
        if self.options.set_encoding {
            self.set_output.insert(tag, buf);
        } else {
            self.output.append_bits(&buf);
        }
    }

    /// Emits the offset `value` as a fixed-width non-negative binary integer
    /// field sized for `range` values, byte-aligned first in the aligned
    /// variant when the field is a byte or wider.
    pub fn encode_non_negative_binary_integer(
        &self,
        buffer: &mut BitBuffer,
        range: i128,
        value: u128,
    )
        requires
            range >= 1,
            value < pow2(arith::bits_for(range - 1)),
        ensures
            final(buffer)@ == spec_nnbi(self.options.aligned, old(buffer)@, range as int, value as int),
    {
        proof {
            crate::lemma_i128_fits_127_bits(range - 1);
        }
        let w = crate::log2(range);
        if range >= 256 {
            self.pad_to_alignment(buffer);
        }
        buffer.push_u_bits(value, w);
    }

    /// Emits the unconstrained length form for the units from `min` on:
    /// short counts in one or two bytes, longer content in 16K-quantum
    /// fragments led by marker bytes.
    pub fn encode_unconstrained_length(
        &self,
        buffer: &mut BitBuffer,
        units: &Vec<BitBuffer>,
        min: usize,
    )
        requires
            min <= units@.len(),
        ensures
            final(buffer)@ == spec_len_uncon(
                self.options.aligned,
                old(buffer)@,
                units_of(units@),
                min as int,
            ),
        decreases units@.len() - min,
    {
        let total = units.len();
        let rem = total - min;
        if rem <= 127 {
            buffer.push_byte(rem as u8);
            self.pad_to_alignment(buffer);
            self.append_units(buffer, units, min, total);
        } else if rem < 16384 {
            proof {
                vstd::arithmetic::power2::lemma2_to64();
            }
            buffer.push_u_bits((0x8000 + rem) as u128, 16);
            self.append_units(buffer, units, min, total);
        } else {
            let k: usize = if rem >= 65536 {
                4
            } else {
                rem / 16384
            };
            proof {
                if rem < 65536 {
                    assert(1 <= rem / 16384 < 4) by {
                        vstd::arithmetic::div_mod::lemma_fundamental_div_mod(rem as int, 16384);
                        vstd::arithmetic::div_mod::lemma_mod_bound(rem as int, 16384);
                    }
                }
                assert(k * 16384 <= rem) by {
                    vstd::arithmetic::div_mod::lemma_fundamental_div_mod(rem as int, 16384);
                    vstd::arithmetic::div_mod::lemma_mod_bound(rem as int, 16384);
                }
            }
            let amount = k * 16384;
            buffer.push_byte((0xC0 + k) as u8);
            self.append_units(buffer, units, min, min + amount);
            if rem == 16384 {
                buffer.push_byte(0);
            } else {
                self.encode_unconstrained_length(buffer, units, min + amount);
            }
        }
    }

    /// Emits the length determinant for the units against an optional size
    /// constraint, then the content. A count outside a non-extensible bound
    /// is the invalid-length error, and nothing is written.
    pub fn encode_length(
        &self,
        buffer: &mut BitBuffer,
        units: &Vec<BitBuffer>,
        constraints: Option<&Extensible<Size>>,
    ) -> (r: Result<(), Error>)
        ensures
            match r {
                Ok(_) => spec_len(
                    self.options.aligned,
                    old(buffer)@,
                    units_of(units@),
                    size_of_opt(constraints),
                ) == Some(final(buffer)@),
                Err(e) => spec_len(
                    self.options.aligned,
                    old(buffer)@,
                    units_of(units@),
                    size_of_opt(constraints),
                ).is_none() && final(buffer)@ == old(buffer)@ && e == (Error::InvalidLength {
                    length: units@.len() as usize,
                    expected: constraints.unwrap().constraint.0,
                }),
            },
    {
        let c = match constraints {
            None => {
                self.encode_unconstrained_length(buffer, units, 0);
                return Ok(());
            },
            Some(c) => c,
        };
        let len = units.len();
        if c.extensible.is_none() {
            if !c.constraint.0.contains(&len) {
                return Err(Error::InvalidLength { length: len, expected: c.constraint.0 });
            }
            self.encode_length_constrained(buffer, units, &c.constraint.0);
        } else {
            let outside = !c.constraint.0.contains(&len);
            buffer.push(outside);
            if outside {
                self.encode_unconstrained_length(buffer, units, 0);
            } else {
                self.encode_length_constrained(buffer, units, &c.constraint.0);
            }
        }
        Ok(())
    }

    /// The length forms for a count already known to satisfy its bound.
    fn encode_length_constrained(
        &self,
        buffer: &mut BitBuffer,
        units: &Vec<BitBuffer>,
        c: &Range<usize>,
    )
        requires
            c.spec_contains(units@.len() as int),
        ensures
            final(buffer)@ == wire::spec_len_constrained(
                self.options.aligned,
                old(buffer)@,
                units_of(units@),
                c.start,
                c.spec_range(),
            ),
    {
        let len = units.len();
        match c.range() {
            Some(r) => {
                if r == 1 {
                    self.append_units(buffer, units, 0, len);
                } else if r < 65536 && !self.options.aligned {
                    let s = c.start();
                    let off = len - s;
                    proof {
                        wire::lemma_offset_fits(r as int, off as int);
                    }
                    self.encode_non_negative_binary_integer(buffer, r as i128, off as u128);
                    self.append_units(buffer, units, 0, len);
                } else {
                    self.encode_unconstrained_length(buffer, units, 0);
                }
            },
            None => {
                self.encode_unconstrained_length(buffer, units, 0);
            },
        }
    }
}

/// What the integer codec asks of its caller: a value under a non-extensible
/// bound lies within it, and an in-root offset is representable.
pub open spec fn int_value_ok(cs: Seq<Constraint>, v: int) -> bool {
    match spec_value_of(cs) {
        Some(vc) => (vc.extensible.is_some() || vc.constraint.0.spec_contains(v)) && (
        vc.constraint.0.spec_contains(v) && vc.constraint.0.start.is_some() ==> v
            - vc.constraint.0.start.unwrap() <= i128::MAX),
        None => true,
    }
}

impl Encoder {
    /// Emits a whole integer: the extension bit when the constraints are
    /// extensible, then a fixed-width offset for a small fully bounded
    /// range, or minimal bytes behind a length determinant otherwise. An
    /// out-of-root value under an extensible constraint is encoded fully
    /// unconstrained.
    pub fn encode_integer_into_buffer(
        &self,
        constraints: &Constraints,
        value: i128,
        buffer: &mut BitBuffer,
    ) -> (r: Result<(), Error>)
        requires
            int_value_ok(constraints.0@, value as int),
        ensures
            match r {
                Ok(_) => wire::spec_int(
                    self.options.aligned,
                    old(buffer)@,
                    constraints.0@,
                    value as int,
                ) == Some(final(buffer)@),
                Err(_) => wire::spec_int(
                    self.options.aligned,
                    old(buffer)@,
                    constraints.0@,
                    value as int,
                ).is_none(),
            },
    {
        let ext = constraints.extensible();
        let outside = match constraints.value() {
            Some(vc) => !vc.constraint.0.contains(&value),
            None => false,
        };
        if ext {
            buffer.push(outside);
        }
        match constraints.value() {
            None => {
                let bytes = arith::to_signed_be_bytes(value);
                let units = bytes_to_units(bytes.as_slice());
                self.encode_length(buffer, &units, constraints.size())?;
                Ok(())
            },
            Some(vc) => {
                if outside {
                    let bytes = arith::to_signed_be_bytes(value);
                    let units = bytes_to_units(bytes.as_slice());
                    self.encode_length(buffer, &units, None)?;
                    Ok(())
                } else {
                    match vc.constraint.0.start {
                        Some(s) => {
                            let off = arith::sub_i128(value, s);
                            let small = match vc.constraint.0.range() {
                                Some(r) => {
                                    if r < 65536 {
                                        proof {
                                            wire::lemma_offset_fits(r as int, off as int);
                                        }
                                        self.encode_non_negative_binary_integer(
                                            buffer,
                                            r,
                                            off,
                                        );
                                        true
                                    } else {
                                        false
                                    }
                                },
                                None => false,
                            };
                            if !small {
                                let bytes = arith::to_unsigned_be_bytes(off);
                                let units = bytes_to_units(bytes.as_slice());
                                self.encode_length(buffer, &units, None)?;
                            }
                            Ok(())
                        },
                        None => {
                            let bytes = arith::to_signed_be_bytes(value);
                            let units = bytes_to_units(bytes.as_slice());
                            self.encode_length(buffer, &units, None)?;
                            Ok(())
                        },
                    }
                }
            },
        }
    }

    /// Emits a count in the normally-small-integer form: a flag bit, then a
    /// fixed six-bit field below 64, the semi-constrained byte form above.
    pub fn encode_normally_small_integer(&self, value: usize, buffer: &mut BitBuffer)
        ensures
            final(buffer)@ == wire::spec_nsi(self.options.aligned, old(buffer)@, value as int),
    {
        if value >= 64 {
            buffer.push(true);
            let bytes = arith::to_unsigned_be_bytes(value as u128);
            let units = bytes_to_units(bytes.as_slice());
            self.encode_unconstrained_length(buffer, &units, 0);
        } else {
            buffer.push(false);
            proof {
                arith::lemma_bits_for_bound(63);
            }
            self.encode_non_negative_binary_integer(buffer, 64, value as u128);
        }
    }
}

/// The presence list a field list initializes: one cleared flag per
/// OPTIONAL/DEFAULT field tag, first occurrence wins.
pub open spec fn presence_init(s: Seq<Field>) -> Seq<(Tag, bool)>
    decreases s.len(),
{
    if s.len() == 0 {
        Seq::empty()
    } else {
        let p = presence_init(s.drop_last());
        if crate::maps::presence_has_key(p, s.last().tag.key()) {
            p
        } else {
            p.push((s.last().tag, false))
        }
    }
}

impl Encoder {
    /// A child scope for a SEQUENCE, with one cleared presence flag per
    /// OPTIONAL/DEFAULT field, in declaration order.
    pub fn new_sequence_encoder(&self, fields: &Variants) -> (r: Encoder)
        ensures
            r.wf(),
            r.options == (EncoderOptions { aligned: self.options.aligned, set_encoding: false }),
            r.output@ == Seq::<bool>::empty(),
            r.set_output.entries@.len() == 0,
            r.extension_fields@.len() == 0,
            r.field_bitfield.entries@ == presence_init(
                fields.fields@.filter(optional_or_default()),
            ),
    {
        let mut enc = Encoder::new(self.options.without_set_encoding());
        let opt = fields.optional_and_default_fields();
        let n = opt.len();
        let mut i: usize = 0;
        proof {
            assert(opt@.take(0) =~= Seq::<Field>::empty());
        }
        while i < n
            invariant
                n == opt@.len(),
                i <= n,
                enc.field_bitfield.wf(),
                enc.field_bitfield.entries@ == presence_init(opt@.take(i as int)),
                enc.options == (EncoderOptions { aligned: self.options.aligned, set_encoding: false }),
                enc.output@ == Seq::<bool>::empty(),
                enc.set_output.wf(),
                enc.set_output.entries@.len() == 0,
                enc.extension_fields@.len() == 0,
            decreases n - i,
        {
            let f = opt[i];
            let present = enc.field_bitfield.has_tag(f.tag);
            proof {
                assert(opt@.take(i as int + 1).drop_last() =~= opt@.take(i as int));
                assert(opt@.take(i as int + 1).last() == f);
                assert(present == crate::maps::presence_has_key(
                    enc.field_bitfield.entries@,
                    f.tag.key(),
                ));
            }
            if !present {
                enc.field_bitfield.push_flag(f.tag, false);
            }
            i = i + 1;
        }
        proof {
            assert(opt@.take(n as int) =~= opt@);
        }
        enc
    }

    /// A child scope for a SET, with one cleared presence flag per
    /// OPTIONAL/DEFAULT field, in canonical (tag-ascending) order, and the
    /// recorded field contents reordered canonically on output.
    pub fn new_set_encoder(&self, fields: &Variants) -> (r: Encoder)
        ensures
            r.wf(),
            r.options == (EncoderOptions { aligned: self.options.aligned, set_encoding: true }),
            r.output@ == Seq::<bool>::empty(),
            r.set_output.entries@.len() == 0,
            r.extension_fields@.len() == 0,
            crate::maps::presence_sorted(r.field_bitfield.entries@),
            forall|i: int|
                0 <= i < r.field_bitfield.entries@.len() ==> !(
                #[trigger] r.field_bitfield.entries@[i].1),
            forall|k: int|
                #[trigger] crate::maps::presence_has_key(r.field_bitfield.entries@, k) <==> (
                exists|i: int|
                    0 <= i < fields.fields@.len() && (#[trigger] fields.fields@[i]).spec_is_optional_or_default()
                        && fields.fields@[i].tag.key() == k),
    {
        let mut enc = Encoder::new(
            EncoderOptions { aligned: self.options.aligned, set_encoding: true },
        );
        let n = fields.fields.len();
        let mut i: usize = 0;
        while i < n
            invariant
                n == fields.fields@.len(),
                i <= n,
                crate::maps::presence_sorted(enc.field_bitfield.entries@),
                forall|j: int|
                    0 <= j < enc.field_bitfield.entries@.len() ==> !(
                    #[trigger] enc.field_bitfield.entries@[j].1),
                forall|k: int|
                    #[trigger] crate::maps::presence_has_key(enc.field_bitfield.entries@, k) <==> (
                    exists|j: int|
                        0 <= j < i && (#[trigger] fields.fields@[j]).spec_is_optional_or_default()
                            && fields.fields@[j].tag.key() == k),
                enc.options == (EncoderOptions {
                    aligned: self.options.aligned,
                    set_encoding: true,
                }),
                enc.output@ == Seq::<bool>::empty(),
                enc.set_output.wf(),
                enc.set_output.entries@.len() == 0,
                enc.extension_fields@.len() == 0,
            decreases n - i,
        {
            let f = fields.fields[i];
            if matches!(f.presence, crate::variants::FieldPresence::Optional
                | crate::variants::FieldPresence::Default) {
                enc.field_bitfield.insert_sorted_absent(f.tag);
            }
            i = i + 1;
        }
        proof {
            assert(enc.field_bitfield.wf()) by {
                assert(crate::maps::presence_distinct(enc.field_bitfield.entries@));
            }
        }
        enc
    }

    /// A child scope for one extension addition, whose single presence flag
    /// starts set and is cleared if the value turns out absent.
    pub fn new_extension_encoder(&self, tag: Tag) -> (r: Encoder)
        ensures
            r.wf(),
            r.options == (EncoderOptions { aligned: self.options.aligned, set_encoding: false }),
            r.output@ == Seq::<bool>::empty(),
            r.set_output.entries@.len() == 0,
            r.extension_fields@.len() == 0,
            r.field_bitfield.entries@ == seq![(tag, true)],
    {
        let mut enc = Encoder::new(self.options.without_set_encoding());
        enc.field_bitfield.push_flag(tag, true);
        proof {
            assert(enc.field_bitfield.entries@ =~= seq![(tag, true)]);
        }
        enc
    }

    /// Records whether an OPTIONAL/DEFAULT field is present. Only aggregate
    /// scopes carry presence flags; calling this on any other scope is a
    /// programming error.
    pub fn set_bit(&mut self, tag: Tag, bit: bool) -> (r: Result<(), Error>)
        requires
            old(self).wf(),
            old(self).field_bitfield.entries@.len() > 0,
        ensures
            final(self).wf(),
            r.is_ok(),
            final(self).options == old(self).options,
            final(self).output == old(self).output,
            final(self).set_output == old(self).set_output,
            final(self).extension_fields == old(self).extension_fields,
            final(self).field_bitfield.entries@ == crate::maps::spec_set_bit(
                old(self).field_bitfield.entries@,
                tag,
                bit,
            ),
    {
        self.field_bitfield.set_bit(tag, bit);
        Ok(())
    }

    /// Marks the OPTIONAL/DEFAULT field carrying `tag` absent.
    pub fn encode_none_with_tag(&mut self, tag: Tag) -> (r: Result<(), Error>)
        requires
            old(self).wf(),
            old(self).field_bitfield.entries@.len() > 0,
        ensures
            final(self).wf(),
            r.is_ok(),
            final(self).options == old(self).options,
            final(self).output == old(self).output,
            final(self).set_output == old(self).set_output,
            final(self).extension_fields == old(self).extension_fields,
            final(self).field_bitfield.entries@ == crate::maps::spec_set_bit(
                old(self).field_bitfield.entries@,
                tag,
                false,
            ),
    {
        self.set_bit(tag, false)
    }

    /// The bits this scope hands to its parent: the recorded SET contents in
    /// canonical order under SET encoding, the plain output otherwise.
    pub fn bitstring_output(self) -> (r: BitBuffer)
        ensures
            r@ == spec_bitstring_output(self),
    {
        if self.options.set_encoding {
            self.set_output.concat_values()
        } else {
            self.output
        }
    }

    /// The final byte output of a top-level scope: the bits packed into
    /// bytes, a single zero byte when nothing was emitted.
    pub fn output(self) -> (r: Vec<u8>)
        ensures
            r@ == spec_output_bytes(self),
    {
        let ghost me = self;
        let b = self.bitstring_output();
        let v = b.into_vec();
        if v.len() == 0 {
            let mut w: Vec<u8> = Vec::new();
            w.push(0u8);
            proof {
                assert(w@ =~= spec_output_bytes(me));
            }
            w
        } else {
            v
        }
    }

    /// Merges a finished SEQUENCE or SET child scope into this one under
    /// `tag`: extensibility bit, presence flags, alignment, field contents,
    /// and any extension-addition block.
    pub fn encode_constructed(
        &mut self,
        tag: Tag,
        constraints: &Constraints,
        child: Encoder,
    ) -> (r: Result<(), Error>)
        requires
            old(self).wf(),
        ensures
            final(self).wf(),
            r.is_ok(),
            spec_extended(
                *old(self),
                *final(self),
                tag,
                wire::spec_constructed(
                    old(self).options.aligned,
                    spec_any_extensible(constraints.0@),
                    child.field_bitfield.spec_values(),
                    wire::blocks_of(child.extension_fields@),
                    spec_bitstring_output(child),
                ),
            ),
    {
        let Encoder {
            options: copts,
            output: coutput,
            set_output: cset,
            field_bitfield: cbits,
            extension_fields: cext,
        } = child;
        let ghost fields = wire::blocks_of(cext@);
        let mut buffer = BitBuffer::new();
        let has_ext = cext.len() > 0;
        if constraints.extensible() {
            buffer.push(has_ext);
            proof {
                assert(Seq::<bool>::empty().push(has_ext) =~= seq![has_ext]);
            }
        }
        cbits.append_values(&mut buffer);
        self.pad_to_alignment(&mut buffer);
        let child_bits = if copts.set_encoding {
            cset.concat_values()
        } else {
            coutput
        };
        buffer.append_bits(&child_bits);
        if cext.len() > 0 {
            let count = cext.len();
            self.encode_normally_small_integer(count, &mut buffer);
            let ghost b5base = buffer@;
            let ghost bitmap = Seq::new(fields.len(), |i: int| fields[i].len() > 0);
            let mut i: usize = 0;
            proof {
                assert(buffer@ =~= b5base + bitmap.take(0));
            }
            while i < count
                invariant
                    count == cext@.len(),
                    fields == wire::blocks_of(cext@),
                    bitmap == Seq::new(fields.len(), |i: int| fields[i].len() > 0),
                    i <= count,
                    buffer@ == b5base + bitmap.take(i as int),
                decreases count - i,
            {
                buffer.push(cext[i].len() > 0);
                proof {
                    assert(b5base + bitmap.take(i as int + 1) =~= (b5base + bitmap.take(
                        i as int,
                    )).push(bitmap[i as int]));
                }
                i = i + 1;
            }
            let ghost b5 = b5base + bitmap;
            proof {
                assert(bitmap.take(count as int) =~= bitmap);
            }
            i = 0;
            while i < count
                invariant
                    count == cext@.len(),
                    fields == wire::blocks_of(cext@),
                    i <= count,
                    buffer@ == wire::spec_ext_blocks(
                        self.options.aligned,
                        b5,
                        fields,
                        i as int,
                    ),
                    self == old(self),
                decreases count - i,
            {
                if cext[i].len() > 0 {
                    let units = bytes_to_units(cext[i].as_slice());
                    self.encode_unconstrained_length(&mut buffer, &units, 0);
                }
                i = i + 1;
            }
        }
        self.extend(tag, Input::Bits(&buffer));
        Ok(())
    }

    /// Merges a finished CHOICE alternative into this scope: extensibility
    /// bit, discriminant, and the alternative's bits, open-type wrapped when
    /// the alternative is an extension. An alternative whose tag is in
    /// neither variant list is the unknown-variant error.
    pub fn encode_choice(
        &mut self,
        constraints: &Constraints,
        root_variants: &Variants,
        extended_variants: &Variants,
        tag: Tag,
        choice_encoder: Encoder,
    ) -> (r: Result<(), Error>)
        requires
            old(self).wf(),
            choice_encoder.options.set_encoding == false,
        ensures
            final(self).wf(),
            match r {
                Ok(_) => {
                    &&& wire::spec_choice(
                        old(self).options.aligned,
                        constraints.0@,
                        root_variants.fields@,
                        extended_variants.fields@,
                        tag,
                        choice_encoder.output@,
                    ).is_some()
                    &&& spec_extended(
                        *old(self),
                        *final(self),
                        tag,
                        wire::spec_choice(
                            old(self).options.aligned,
                            constraints.0@,
                            root_variants.fields@,
                            extended_variants.fields@,
                            tag,
                            choice_encoder.output@,
                        ).unwrap(),
                    )
                },
                Err(e) => {
                    &&& wire::spec_choice(
                        old(self).options.aligned,
                        constraints.0@,
                        root_variants.fields@,
                        extended_variants.fields@,
                        tag,
                        choice_encoder.output@,
                    ).is_none()
                    &&& *final(self) == *old(self)
                    &&& e is Custom
                },
            },
    {
        let in_root = root_variants.contains_tag(tag);
        let mut buffer = BitBuffer::new();
        if constraints.extensible() {
            buffer.push(!in_root);
            proof {
                assert(Seq::<bool>::empty().push(!in_root) =~= seq![!in_root]);
            }
        }
        if in_root {
            let idx = match root_variants.index_of(tag) {
                Some(i) => i,
                None => {
                    proof {
                        assert(false);
                    }
                    0
                },
            };
            proof {
                lemma_index_of_tag(root_variants.fields@, tag, idx as int);
            }
            let n = root_variants.len();
            if n > 1 {
                let mut cvec: Vec<Constraint> = Vec::new();
                cvec.push(
                    Constraint::Value(
                        Extensible::new(
                            crate::constraints::Value::new(
                                Range::const_new(0i128, (n - 1) as i128),
                            ),
                        ),
                    ),
                );
                let cc = Constraints::new(cvec);
                proof {
                    assert(cc.0@ =~= wire::choice_index_constraints(n as int));
                }
                let res = self.encode_integer_into_buffer(&cc, idx as i128, &mut buffer);
                proof {
                    if res.is_err() {
                        assert(false);
                    }
                }
                buffer.append_bits(&choice_encoder.output);
            } else {
                buffer.append_bits(&choice_encoder.output);
            }
            self.extend(tag, Input::Bits(&buffer));
            Ok(())
        } else {
            match extended_variants.index_of(tag) {
                None => Err(Error::custom("variant not found in choice".to_owned())),
                Some(idx) => {
                    proof {
                        lemma_index_of_tag(extended_variants.fields@, tag, idx as int);
                    }
                    self.encode_normally_small_integer(idx, &mut buffer);
                    self.pad_to_alignment(&mut buffer);
                    let bytes = choice_encoder.output();
                    let units = bytes_to_units(bytes.as_slice());
                    self.encode_unconstrained_length(&mut buffer, &units, 0);
                    self.extend(tag, Input::Bits(&buffer));
                    Ok(())
                },
            }
        }
    }

    /// Captures one extension addition: the child's output bytes when its
    /// presence flag is still set, an empty block otherwise. Only aggregate
    /// scopes accept extension additions.
    pub fn encode_extension_addition(&mut self, tag: Tag, child: Encoder) -> (r: Result<
        (),
        Error,
    >)
        requires
            old(self).wf(),
            old(self).field_bitfield.entries@.len() > 0,
        ensures
            final(self).wf(),
            r.is_ok(),
            final(self).options == old(self).options,
            final(self).output == old(self).output,
            final(self).set_output == old(self).set_output,
            final(self).field_bitfield == old(self).field_bitfield,
            wire::blocks_of(final(self).extension_fields@) == wire::blocks_of(
                old(self).extension_fields@,
            ).push(
                if crate::maps::spec_presence_get(child.field_bitfield.entries@, tag.key())
                    == Some(true) {
                    wire::out_bytes(spec_bitstring_output(child))
                } else {
                    Seq::<u8>::empty()
                },
            ),
    {
        let present = match child.field_bitfield.get(tag) {
            Some(true) => true,
            _ => false,
        };
        if present {
            let bytes = child.output();
            self.extension_fields.push(bytes);
        } else {
            let empty: Vec<u8> = Vec::new();
            self.extension_fields.push(empty);
        }
        proof {
            assert(wire::blocks_of(self.extension_fields@) =~= wire::blocks_of(
                old(self).extension_fields@,
            ).push(
                if crate::maps::spec_presence_get(child.field_bitfield.entries@, tag.key())
                    == Some(true) {
                    wire::out_bytes(spec_bitstring_output(child))
                } else {
                    Seq::<u8>::empty()
                },
            ));
        }
        Ok(())
    }

    /// Captures one extension addition group: the child's output bytes when
    /// any of its fields is present, an empty block otherwise.
    pub fn encode_extension_addition_group(&mut self, child: Encoder) -> (r: Result<(), Error>)
        requires
            old(self).wf(),
            old(self).field_bitfield.entries@.len() > 0,
        ensures
            final(self).wf(),
            r.is_ok(),
            final(self).options == old(self).options,
            final(self).output == old(self).output,
            final(self).set_output == old(self).set_output,
            final(self).field_bitfield == old(self).field_bitfield,
            wire::blocks_of(final(self).extension_fields@) == wire::blocks_of(
                old(self).extension_fields@,
            ).push(
                if exists|i: int|
                    0 <= i < child.field_bitfield.entries@.len()
                        && #[trigger] child.field_bitfield.entries@[i].1 == true {
                    wire::out_bytes(spec_bitstring_output(child))
                } else {
                    Seq::<u8>::empty()
                },
            ),
    {
        let present = child.field_bitfield.any_set();
        if present {
            let bytes = child.output();
            self.extension_fields.push(bytes);
        } else {
            let empty: Vec<u8> = Vec::new();
            self.extension_fields.push(empty);
        }
        proof {
            assert(wire::blocks_of(self.extension_fields@) =~= wire::blocks_of(
                old(self).extension_fields@,
            ).push(
                if exists|i: int|
                    0 <= i < child.field_bitfield.entries@.len()
                        && #[trigger] child.field_bitfield.entries@[i].1 == true {
                    wire::out_bytes(spec_bitstring_output(child))
                } else {
                    Seq::<u8>::empty()
                },
            ));
        }
        Ok(())
    }
}

impl Encoder {
    /// Emits a BOOLEAN as a single bit.
    pub fn encode_bool(&mut self, tag: Tag, value: bool) -> (r: Result<(), Error>)
        requires
            old(self).wf(),
        ensures
            final(self).wf(),
            r.is_ok(),
            spec_extended(*old(self), *final(self), tag, seq![value]),
    {
        self.extend(tag, Input::Bit(value));
        Ok(())
    }

    /// Emits a NULL: nothing at all.
    pub fn encode_null(&mut self, tag: Tag) -> (r: Result<(), Error>)
        ensures
            r.is_ok(),
            *final(self) == *old(self),
    {
        let _ = tag;
        Ok(())
    }

    /// Emits a whole INTEGER under `tag`.
    pub fn encode_integer(&mut self, tag: Tag, constraints: &Constraints, value: i128) -> (r:
        Result<(), Error>)
        requires
            old(self).wf(),
            int_value_ok(constraints.0@, value as int),
        ensures
            final(self).wf(),
            match r {
                Ok(_) => {
                    &&& wire::spec_int(
                        old(self).options.aligned,
                        Seq::empty(),
                        constraints.0@,
                        value as int,
                    ).is_some()
                    &&& spec_extended(
                        *old(self),
                        *final(self),
                        tag,
                        wire::spec_int(
                            old(self).options.aligned,
                            Seq::empty(),
                            constraints.0@,
                            value as int,
                        ).unwrap(),
                    )
                },
                Err(_) => {
                    &&& wire::spec_int(
                        old(self).options.aligned,
                        Seq::empty(),
                        constraints.0@,
                        value as int,
                    ).is_none()
                    &&& *final(self) == *old(self)
                },
            },
    {
        let mut buffer = BitBuffer::new();
        match self.encode_integer_into_buffer(constraints, value, &mut buffer) {
            Ok(_) => {
                self.extend(tag, Input::Bits(&buffer));
                Ok(())
            },
            Err(e) => Err(e),
        }
    }

    /// Emits an ENUMERATED value as the schema layer frames it: an integer
    /// whose constraints carry only a size bound of the variance.
    pub fn encode_enumerated(&mut self, tag: Tag, variance: usize, value: isize) -> (r: Result<
        (),
        Error,
    >)
        requires
            old(self).wf(),
        ensures
            final(self).wf(),
            match r {
                Ok(_) => {
                    &&& wire::spec_int(
                        old(self).options.aligned,
                        Seq::empty(),
                        enumerated_constraints(variance as int),
                        value as int,
                    ).is_some()
                    &&& spec_extended(
                        *old(self),
                        *final(self),
                        tag,
                        wire::spec_int(
                            old(self).options.aligned,
                            Seq::empty(),
                            enumerated_constraints(variance as int),
                            value as int,
                        ).unwrap(),
                    )
                },
                Err(_) => {
                    &&& wire::spec_int(
                        old(self).options.aligned,
                        Seq::empty(),
                        enumerated_constraints(variance as int),
                        value as int,
                    ).is_none()
                    &&& *final(self) == *old(self)
                },
            },
    {
        let mut cvec: Vec<Constraint> = Vec::new();
        cvec.push(Constraint::Size(Extensible::new(Size::new(Range::up_to(variance)))));
        let cc = Constraints::new(cvec);
        proof {
            assert(cc.0@ =~= enumerated_constraints(variance as int));
            assert(cc.0@.drop_first() =~= Seq::<Constraint>::empty());
            assert(spec_value_of(Seq::<Constraint>::empty()).is_none());
            assert(spec_value_of(cc.0@) == spec_value_of(cc.0@.drop_first()));
            assert(spec_value_of(cc.0@).is_none());
        }
        self.encode_integer(tag, &cc, value as i128)
    }

    /// Emits an OCTET STRING's length determinant and bytes into `buffer`.
    pub fn encode_octet_string_into_buffer(
        &self,
        constraints: &Constraints,
        value: &[u8],
        buffer: &mut BitBuffer,
    ) -> (r: Result<(), Error>)
        ensures
            match r {
                Ok(_) => spec_len(
                    self.options.aligned,
                    old(buffer)@,
                    byte_units(value@),
                    spec_size_of(constraints.0@),
                ) == Some(final(buffer)@),
                Err(e) => spec_len(
                    self.options.aligned,
                    old(buffer)@,
                    byte_units(value@),
                    spec_size_of(constraints.0@),
                ).is_none() && final(buffer)@ == old(buffer)@ && e is InvalidLength,
            },
    {
        let units = bytes_to_units(value);
        self.encode_length(buffer, &units, constraints.size())
    }

    /// Emits an OCTET STRING under `tag`.
    pub fn encode_octet_string(
        &mut self,
        tag: Tag,
        constraints: &Constraints,
        value: &[u8],
    ) -> (r: Result<(), Error>)
        requires
            old(self).wf(),
        ensures
            final(self).wf(),
            match r {
                Ok(_) => {
                    &&& spec_len(
                        old(self).options.aligned,
                        Seq::empty(),
                        byte_units(value@),
                        spec_size_of(constraints.0@),
                    ).is_some()
                    &&& spec_extended(
                        *old(self),
                        *final(self),
                        tag,
                        spec_len(
                            old(self).options.aligned,
                            Seq::empty(),
                            byte_units(value@),
                            spec_size_of(constraints.0@),
                        ).unwrap(),
                    )
                },
                Err(e) => {
                    &&& spec_len(
                        old(self).options.aligned,
                        Seq::empty(),
                        byte_units(value@),
                        spec_size_of(constraints.0@),
                    ).is_none()
                    &&& *final(self) == *old(self)
                    &&& e is InvalidLength
                },
            },
    {
        let mut buffer = BitBuffer::new();
        match self.encode_octet_string_into_buffer(constraints, value, &mut buffer) {
            Ok(_) => {
                self.extend(tag, Input::Bits(&buffer));
                Ok(())
            },
            Err(e) => Err(e),
        }
    }

    /// Emits a BIT STRING under `tag`: its length determinant counts bits.
    pub fn encode_bit_string(
        &mut self,
        tag: Tag,
        constraints: &Constraints,
        value: &BitBuffer,
    ) -> (r: Result<(), Error>)
        requires
            old(self).wf(),
        ensures
            final(self).wf(),
            match r {
                Ok(_) => {
                    &&& spec_len(
                        old(self).options.aligned,
                        Seq::empty(),
                        bit_units(value@),
                        spec_size_of(constraints.0@),
                    ).is_some()
                    &&& spec_extended(
                        *old(self),
                        *final(self),
                        tag,
                        spec_len(
                            old(self).options.aligned,
                            Seq::empty(),
                            bit_units(value@),
                            spec_size_of(constraints.0@),
                        ).unwrap(),
                    )
                },
                Err(e) => {
                    &&& spec_len(
                        old(self).options.aligned,
                        Seq::empty(),
                        bit_units(value@),
                        spec_size_of(constraints.0@),
                    ).is_none()
                    &&& *final(self) == *old(self)
                    &&& e is InvalidLength
                },
            },
    {
        let units = bits_to_units(value);
        let mut buffer = BitBuffer::new();
        match self.encode_length(&mut buffer, &units, constraints.size()) {
            Ok(_) => {
                self.extend(tag, Input::Bits(&buffer));
                Ok(())
            },
            Err(e) => Err(e),
        }
    }

    /// Emits an ANY value: its already-validated contents as an
    /// unconstrained octet string.
    pub fn encode_any(&mut self, tag: Tag, value: &Vec<u8>) -> (r: Result<(), Error>)
        requires
            old(self).wf(),
        ensures
            final(self).wf(),
            r.is_ok(),
            spec_extended(
                *old(self),
                *final(self),
                tag,
                spec_len_uncon(old(self).options.aligned, Seq::empty(), byte_units(value@), 0),
            ),
    {
        let empty = Constraints::new(Vec::new());
        match self.encode_octet_string(tag, &empty, value.as_slice()) {
            Ok(_) => Ok(()),
            Err(e) => {
                proof {
                    assert(false);
                }
                Err(e)
            },
        }
    }

    /// Emits a UTF8String: its UTF-8 bytes as an unconstrained octet string.
    pub fn encode_utf8_string(&mut self, tag: Tag, value: &str) -> (r: Result<(), Error>)
        requires
            old(self).wf(),
        ensures
            final(self).wf(),
            r.is_ok(),
            spec_extended(
                *old(self),
                *final(self),
                tag,
                spec_len_uncon(
                    old(self).options.aligned,
                    Seq::empty(),
                    byte_units(value.spec_bytes()),
                    0,
                ),
            ),
    {
        let empty = Constraints::new(Vec::new());
        match self.encode_octet_string(tag, &empty, value.as_bytes()) {
            Ok(_) => Ok(()),
            Err(e) => {
                proof {
                    assert(false);
                }
                Err(e)
            },
        }
    }

    /// Emits an object identifier already encoded by the external DER-style
    /// delegate codec, re-wrapped as an unconstrained octet string.
    pub fn encode_object_identifier(&mut self, tag: Tag, der_octets: &[u8]) -> (r: Result<
        (),
        Error,
    >)
        requires
            old(self).wf(),
        ensures
            final(self).wf(),
            r.is_ok(),
            spec_extended(
                *old(self),
                *final(self),
                tag,
                spec_len_uncon(
                    old(self).options.aligned,
                    Seq::empty(),
                    byte_units(der_octets@),
                    0,
                ),
            ),
    {
        let empty = Constraints::new(Vec::new());
        match self.encode_octet_string(tag, &empty, der_octets) {
            Ok(_) => Ok(()),
            Err(e) => {
                proof {
                    assert(false);
                }
                Err(e)
            },
        }
    }

    /// Emits a UTCTime already encoded by the external DER-style delegate
    /// codec, re-wrapped as an unconstrained octet string.
    pub fn encode_utc_time(&mut self, tag: Tag, der_octets: &[u8]) -> (r: Result<(), Error>)
        requires
            old(self).wf(),
        ensures
            final(self).wf(),
            r.is_ok(),
            spec_extended(
                *old(self),
                *final(self),
                tag,
                spec_len_uncon(
                    old(self).options.aligned,
                    Seq::empty(),
                    byte_units(der_octets@),
                    0,
                ),
            ),
    {
        let empty = Constraints::new(Vec::new());
        match self.encode_octet_string(tag, &empty, der_octets) {
            Ok(_) => Ok(()),
            Err(e) => {
                proof {
                    assert(false);
                }
                Err(e)
            },
        }
    }

    /// Emits a GeneralizedTime already encoded by the external DER-style
    /// delegate codec, re-wrapped as an unconstrained octet string.
    pub fn encode_generalized_time(&mut self, tag: Tag, der_octets: &[u8]) -> (r: Result<
        (),
        Error,
    >)
        requires
            old(self).wf(),
        ensures
            final(self).wf(),
            r.is_ok(),
            spec_extended(
                *old(self),
                *final(self),
                tag,
                spec_len_uncon(
                    old(self).options.aligned,
                    Seq::empty(),
                    byte_units(der_octets@),
                    0,
                ),
            ),
    {
        let empty = Constraints::new(Vec::new());
        match self.encode_octet_string(tag, &empty, der_octets) {
            Ok(_) => Ok(()),
            Err(e) => {
                proof {
                    assert(false);
                }
                Err(e)
            },
        }
    }

    /// Emits a SEQUENCE OF under `tag`: a length determinant counting the
    /// elements, then each element's already-encoded bits in order.
    pub fn encode_sequence_of(
        &mut self,
        tag: Tag,
        elements: &Vec<BitBuffer>,
        constraints: &Constraints,
    ) -> (r: Result<(), Error>)
        requires
            old(self).wf(),
        ensures
            final(self).wf(),
            match r {
                Ok(_) => {
                    &&& spec_len(
                        old(self).options.aligned,
                        Seq::empty(),
                        units_of(elements@),
                        spec_size_of(constraints.0@),
                    ).is_some()
                    &&& spec_extended(
                        *old(self),
                        *final(self),
                        tag,
                        spec_len(
                            old(self).options.aligned,
                            Seq::empty(),
                            units_of(elements@),
                            spec_size_of(constraints.0@),
                        ).unwrap(),
                    )
                },
                Err(e) => {
                    &&& spec_len(
                        old(self).options.aligned,
                        Seq::empty(),
                        units_of(elements@),
                        spec_size_of(constraints.0@),
                    ).is_none()
                    &&& *final(self) == *old(self)
                    &&& e is InvalidLength
                },
            },
    {
        let mut buffer = BitBuffer::new();
        match self.encode_length(&mut buffer, elements, constraints.size()) {
            Ok(_) => {
                self.extend(tag, Input::Bits(&buffer));
                Ok(())
            },
            Err(e) => Err(e),
        }
    }

    /// Emits a SET OF under `tag`: the same wire form as SEQUENCE OF, over
    /// the elements in the order given.
    pub fn encode_set_of(
        &mut self,
        tag: Tag,
        elements: &Vec<BitBuffer>,
        constraints: &Constraints,
    ) -> (r: Result<(), Error>)
        requires
            old(self).wf(),
        ensures
            final(self).wf(),
            match r {
                Ok(_) => {
                    &&& spec_len(
                        old(self).options.aligned,
                        Seq::empty(),
                        units_of(elements@),
                        spec_size_of(constraints.0@),
                    ).is_some()
                    &&& spec_extended(
                        *old(self),
                        *final(self),
                        tag,
                        spec_len(
                            old(self).options.aligned,
                            Seq::empty(),
                            units_of(elements@),
                            spec_size_of(constraints.0@),
                        ).unwrap(),
                    )
                },
                Err(e) => {
                    &&& spec_len(
                        old(self).options.aligned,
                        Seq::empty(),
                        units_of(elements@),
                        spec_size_of(constraints.0@),
                    ).is_none()
                    &&& *final(self) == *old(self)
                    &&& e is InvalidLength
                },
            },
    {
        self.encode_sequence_of(tag, elements, constraints)
    }
}

/// The constraints the ENUMERATED form is framed with: a single size bound.
pub open spec fn enumerated_constraints(variance: int) -> Seq<Constraint> {
    seq![
        Constraint::Size(
            Extensible {
                constraint: Size(Range { start: None, end: Some(variance as usize) }),
                extensible: None,
            },
        ),
    ]
}

/// The first position found for a tag matches the recursive first-index
/// function.
proof fn lemma_index_of_tag(s: Seq<Field>, tag: Tag, idx: int)
    requires
        0 <= idx < s.len(),
        s[idx].tag == tag,
        forall|j: int| 0 <= j < idx ==> #[trigger] s[j].tag != tag,
    ensures
        wire::index_of_tag(s, tag) == idx,
    decreases idx,
{
    if idx == 0 {
    } else {
        assert(s[0].tag != tag);
        let d = s.drop_first();
        assert forall|j: int| 0 <= j < idx - 1 implies #[trigger] d[j].tag != tag by {
            assert(d[j] == s[j + 1]);
        }
        assert(d[idx - 1] == s[idx]);
        lemma_index_of_tag(d, tag, idx - 1);
    }
}

/// Each byte as a one-byte content unit.
pub fn bytes_to_units(bytes: &[u8]) -> (r: Vec<BitBuffer>)
    ensures
        units_of(r@) == byte_units(bytes@),
{
    let mut out: Vec<BitBuffer> = Vec::new();
    let n = bytes.len();
    let mut i: usize = 0;
    while i < n
        invariant
            n == bytes@.len(),
            i <= n,
            out@.len() == i,
            forall|j: int| 0 <= j < i ==> #[trigger] out@[j]@ == arith::byte_bits(bytes@[j]),
        decreases n - i,
    {
        let mut b = BitBuffer::new();
        b.push_byte(bytes[i]);
        proof {
            assert(b@ =~= arith::byte_bits(bytes@[i as int]));
        }
        out.push(b);
        i = i + 1;
    }
    proof {
        assert(units_of(out@) =~= byte_units(bytes@));
    }
    out
}

/// Each bit as a one-bit content unit.
pub fn bits_to_units(value: &BitBuffer) -> (r: Vec<BitBuffer>)
    ensures
        units_of(r@) == bit_units(value@),
{
    let mut out: Vec<BitBuffer> = Vec::new();
    let n = value.len();
    let mut i: usize = 0;
    while i < n
        invariant
            n == value@.len(),
            i <= n,
            out@.len() == i,
            forall|j: int| 0 <= j < i ==> #[trigger] out@[j]@ == seq![value@[j]],
        decreases n - i,
    {
        let mut b = BitBuffer::new();
        b.push(value.get(i));
        proof {
            assert(b@ =~= seq![value@[i as int]]);
        }
        out.push(b);
        i = i + 1;
    }
    proof {
        assert(units_of(out@) =~= bit_units(value@));
    }
    out
}

} // verus!
