//! Known-multiplier character strings: each character occupies a fixed
//! natural bit width, and a permitted alphabet can remap characters to
//! denser indices. The length codec then counts characters as units.

use vstd::prelude::*;
use vstd::arithmetic::power2::pow2;
use crate::arith;
use crate::bits::BitBuffer;
use crate::constraints::Constraints;
use crate::constraints::spec_alphabet_of;
use crate::constraints::spec_size_of;
use crate::enc::Encoder;
use crate::enc::Input;
use crate::enc::spec_extended;
use crate::enc::units_of;
use crate::error::Error;
use crate::tag::Tag;
use crate::wire;
use crate::wire::spec_len;

verus! {

/// A string of fixed-width characters: each stored code is below
/// `2^width`.
pub struct ConstrainedCharacterString {
    pub width: u32,
    pub chars: Vec<u32>,
}

impl ConstrainedCharacterString {
    /// Characters fit their width, and the width is a sane bit count.
    pub open spec fn wf(&self) -> bool {
        1 <= self.width <= 31 && forall|i: int|
            0 <= i < self.chars@.len() ==> (#[trigger] self.chars@[i]) < pow2(self.width as nat)
    }

    /// A string from already-validated character codes.
    pub fn from_raw_chars(width: u32, chars: Vec<u32>) -> (r: Self)
        requires
            1 <= width <= 31,
            forall|i: int| 0 <= i < chars@.len() ==> (#[trigger] chars@[i]) < pow2(width as nat),
        ensures
            r.wf(),
            r.width == width,
            r.chars == chars,
    {
        ConstrainedCharacterString { width, chars }
    }

    /// The number of characters.
    pub fn len(&self) -> (r: usize)
        ensures
            r == self.chars@.len(),
    {
        self.chars.len()
    }
}

/// Each character as one `w`-bit unit, most significant bit first.
pub open spec fn char_units(chars: Seq<u32>, w: nat) -> Seq<Seq<bool>> {
    Seq::new(chars.len(), |i: int| arith::u_bits(chars[i] as int, w))
}

/// Whether the alphabet holds the character.
pub open spec fn alphabet_has(alphabet: Seq<u32>, c: u32) -> bool {
    exists|i: int| 0 <= i < alphabet.len() && alphabet[i] == c
}

/// The first index of a character within the alphabet.
pub open spec fn alphabet_index(alphabet: Seq<u32>, c: u32) -> int
    decreases alphabet.len(),
{
    if alphabet.len() == 0 {
        0
    } else if alphabet[0] == c {
        0
    } else {
        1 + alphabet_index(alphabet.drop_first(), c)
    }
}

/// Every character replaced by its alphabet index.
pub open spec fn remapped(alphabet: Seq<u32>, chars: Seq<u32>) -> Seq<u32> {
    Seq::new(chars.len(), |i: int| alphabet_index(alphabet, chars[i]) as u32)
}

/// The per-character field width an alphabet of `alpha_len` characters
/// yields: enough bits for every index, rounded up to a power of two in the
/// aligned variant.
pub open spec fn effective_width(aligned: bool, alpha_len: int) -> nat {
    let aw = arith::bits_for(alpha_len - 1);
    if aligned {
        pow2(arith::bits_for(aw - 1))
    } else {
        aw
    }
}

/// The whole-octet width a natural width rounds up to in the aligned
/// variant without an alphabet.
pub open spec fn octet_width(w: nat) -> nat {
    8 * ((w + 7) / 8)
}

/// The content units a known-multiplier string encodes as, under the given
/// constraints: remapped dense indices when a permitted alphabet makes them
/// narrower, octet-aligned characters in the aligned variant without one,
/// the natural characters otherwise.
pub open spec fn kms_units(
    aligned: bool,
    cs: Seq<crate::constraints::Constraint>,
    width: nat,
    chars: Seq<u32>,
) -> Seq<Seq<bool>> {
    match spec_alphabet_of(cs) {
        Some(a) => {
            let al = a.constraint.0@;
            let eff = effective_width(aligned, al.len() as int);
            if width > eff {
                char_units(remapped(al, chars), eff)
            } else {
                char_units(chars, width)
            }
        },
        None => {
            if aligned {
                char_units(chars, octet_width(width))
            } else {
                char_units(chars, width)
            }
        },
    }
}

/// The per-character field width the codec actually uses under the given
/// constraints.
pub open spec fn kms_width(
    aligned: bool,
    cs: Seq<crate::constraints::Constraint>,
    width: nat,
) -> nat {
    match spec_alphabet_of(cs) {
        Some(a) => {
            let eff = effective_width(aligned, a.constraint.0@.len() as int);
            if width > eff {
                eff
            } else {
                width
            }
        },
        None => {
            if aligned {
                octet_width(width)
            } else {
                width
            }
        },
    }
}

/// Whether remapping is possible: if an alphabet narrows the characters,
/// every character must belong to it.
pub open spec fn kms_ok(
    aligned: bool,
    cs: Seq<crate::constraints::Constraint>,
    width: nat,
    chars: Seq<u32>,
) -> bool {
    match spec_alphabet_of(cs) {
        Some(a) => {
            let al = a.constraint.0@;
            let eff = effective_width(aligned, al.len() as int);
            width > eff ==> forall|i: int|
                0 <= i < chars.len() ==> alphabet_has(al, #[trigger] chars[i])
        },
        None => true,
    }
}

/// What a successful known-multiplier string encode did: the remapping was
/// possible, the length determinant accepted the character count, and
/// exactly the described bits were merged under the tag.
pub open spec fn kms_result(
    pre: Encoder,
    post: Encoder,
    r: Result<(), Error>,
    tag: Tag,
    cs: Seq<crate::constraints::Constraint>,
    width: nat,
    chars: Seq<u32>,
) -> bool {
    let aligned = pre.options.aligned;
    match r {
        Ok(_) => {
            &&& kms_ok(aligned, cs, width, chars)
            &&& spec_len(
                aligned,
                Seq::empty(),
                kms_units(aligned, cs, width, chars),
                spec_size_of(cs),
            ).is_some()
            &&& spec_extended(
                pre,
                post,
                tag,
                spec_len(
                    aligned,
                    Seq::empty(),
                    kms_units(aligned, cs, width, chars),
                    spec_size_of(cs),
                ).unwrap(),
            )
        },
        Err(e) => {
            &&& post == pre
            &&& (e is Custom ==> !kms_ok(aligned, cs, width, chars))
            &&& (e is InvalidLength ==> spec_len(
                aligned,
                Seq::empty(),
                kms_units(aligned, cs, width, chars),
                spec_size_of(cs),
            ).is_none())
        },
    }
}

/// The character a decoded field value stands for: an alphabet index where
/// remapping narrowed the encoding, the character itself otherwise.
pub open spec fn recovered_char(
    cs: Seq<crate::constraints::Constraint>,
    field_value: int,
    aligned: bool,
    width: nat,
) -> int {
    match spec_alphabet_of(cs) {
        Some(a) => {
            let al = a.constraint.0@;
            let eff = effective_width(aligned, al.len() as int);
            if width > eff {
                if 0 <= field_value < al.len() {
                    al[field_value] as int
                } else {
                    field_value
                }
            } else {
                field_value
            }
        },
        None => field_value,
    }
}

/// The smallest power of two at least `x`.
fn next_power_of_two_u32(x: u32) -> (r: u64)
    requires
        x <= 0x80000000,
    ensures
        r == pow2(arith::bits_for(x - 1)),
        r >= x,
{
    proof {
        vstd::arithmetic::power2::lemma2_to64();
        if x >= 1 {
            arith::lemma_bits_for_bound(x - 1);
        }
    }
    let mut p: u64 = 1;
    let mut j: u32 = 0;
    while p < (x as u64)
        invariant
            p == pow2(j as nat),
            j > 0 ==> pow2((j - 1) as nat) < x,
            j <= 32,
            x <= 0x80000000,
        decreases 32 - j,
    {
        proof {
            vstd::arithmetic::power2::lemma_pow2_unfold(j as nat + 1);
            assert(pow2(32) == 0x100000000) by {
                vstd::arithmetic::power2::lemma2_to64();
                vstd::arithmetic::power2::lemma2_to64_rest();
            }
            arith::lemma_bits_for_le((x - 1) as int, 32);
            if j >= 32 {
                vstd::arithmetic::power2::lemma_pow2_strictly_increases(32, j as nat);
            }
        }
        p = p * 2;
        j = j + 1;
    }
    proof {
        arith::lemma_bits_for_le((x - 1) as int, j as nat);
        if j > 0 && arith::bits_for(x - 1) < j {
            vstd::arithmetic::power2::lemma_pow2_strictly_increases(
                arith::bits_for(x - 1),
                (j - 1) as nat,
            );
            if x >= 1 {
                arith::lemma_bits_for_bound(x - 1);
            }
        }
    }
    p
}

/// Each character as one `w`-bit unit.
fn chars_to_units(chars: &Vec<u32>, w: u32) -> (r: Vec<BitBuffer>)
    requires
        w <= 127,
        forall|i: int| 0 <= i < chars@.len() ==> (#[trigger] chars@[i]) < pow2(w as nat),
    ensures
        units_of(r@) == char_units(chars@, w as nat),
{
    let mut out: Vec<BitBuffer> = Vec::new();
    let n = chars.len();
    let mut i: usize = 0;
    while i < n
        invariant
            n == chars@.len(),
            i <= n,
            w <= 127,
            forall|j: int| 0 <= j < n ==> (#[trigger] chars@[j]) < pow2(w as nat),
            out@.len() == i,
            forall|j: int|
                0 <= j < i ==> #[trigger] out@[j]@ == arith::u_bits(chars@[j] as int, w as nat),
        decreases n - i,
    {
        let mut b = BitBuffer::new();
        b.push_u_bits(chars[i] as u128, w);
        proof {
            assert(b@ =~= arith::u_bits(chars@[i as int] as int, w as nat));
        }
        out.push(b);
        i = i + 1;
    }
    proof {
        assert(units_of(out@) =~= char_units(chars@, w as nat));
    }
    out
}

/// Every character replaced by its first index in the alphabet; a character
/// outside the alphabet is a remapping failure.
fn remap_chars(alphabet: &Vec<u32>, chars: &Vec<u32>) -> (r: Result<Vec<u32>, Error>)
    requires
        alphabet@.len() <= 0x100000000,
    ensures
        match r {
            Ok(out) => (forall|i: int|
                0 <= i < chars@.len() ==> alphabet_has(alphabet@, #[trigger] chars@[i])) && out@
                == remapped(alphabet@, chars@) && (forall|i: int|
                0 <= i < out@.len() ==> (#[trigger] out@[i]) < alphabet@.len()),
            Err(e) => !(forall|i: int|
                0 <= i < chars@.len() ==> alphabet_has(alphabet@, #[trigger] chars@[i])) && e
                is Custom,
        },
{
    let mut out: Vec<u32> = Vec::new();
    let n = chars.len();
    let mut i: usize = 0;
    while i < n
        invariant
            n == chars@.len(),
            i <= n,
            out@.len() == i,
            forall|j: int| 0 <= j < i ==> alphabet_has(alphabet@, #[trigger] chars@[j]),
            forall|j: int|
                0 <= j < i ==> (#[trigger] out@[j]) == alphabet_index(alphabet@, chars@[j]) as u32
                    && out@[j] < alphabet@.len(),
        decreases n - i,
    {
        match alphabet_find(alphabet, chars[i]) {
            Some(idx) => {
                out.push(idx as u32);
            },
            None => {
                proof {
                    assert(0 <= i < chars@.len() && !alphabet_has(
                        alphabet@,
                        chars@[i as int],
                    ));
                }
                return Err(Error::custom("character not in permitted alphabet".to_owned()));
            },
        }
        i = i + 1;
    }
    proof {
        assert(out@ =~= remapped(alphabet@, chars@));
    }
    Ok(out)
}

/// The first index of a character in the alphabet, if it occurs.
fn alphabet_find(alphabet: &Vec<u32>, c: u32) -> (r: Option<usize>)
    ensures
        match r {
            Some(idx) => alphabet_has(alphabet@, c) && idx < alphabet@.len() && idx
                == alphabet_index(alphabet@, c),
            None => !alphabet_has(alphabet@, c),
        },
{
    let n = alphabet.len();
    let mut i: usize = 0;
    while i < n
        invariant
            n == alphabet@.len(),
            i <= n,
            forall|j: int| 0 <= j < i ==> #[trigger] alphabet@[j] != c,
        decreases n - i,
    {
        if alphabet[i] == c {
            proof {
                lemma_alphabet_index(alphabet@, c, i as int);
            }
            return Some(i);
        }
        i = i + 1;
    }
    None
}

/// The first matching position is what the index function computes.
proof fn lemma_alphabet_index(s: Seq<u32>, c: u32, idx: int)
    requires
        0 <= idx < s.len(),
        s[idx] == c,
        forall|j: int| 0 <= j < idx ==> #[trigger] s[j] != c,
    ensures
        alphabet_index(s, c) == idx,
    decreases idx,
{
    if idx == 0 {
    } else {
        assert(s[0] != c);
        let d = s.drop_first();
        assert forall|j: int| 0 <= j < idx - 1 implies #[trigger] d[j] != c by {
            assert(d[j] == s[j + 1]);
        }
        assert(d[idx - 1] == s[idx]);
        lemma_alphabet_index(d, c, idx - 1);
    }
}

impl Encoder {
    /// Emits a known-multiplier character string under `tag`: characters
    /// remapped against a permitted alphabet or octet-aligned as the
    /// variant demands, then the length determinant counting characters.
    pub fn encode_known_multipler_string(
        &mut self,
        tag: Tag,
        constraints: &Constraints,
        value: &ConstrainedCharacterString,
    ) -> (r: Result<(), Error>)
        requires
            old(self).wf(),
            value.wf(),
            match spec_alphabet_of(constraints.0@) {
                Some(a) => a.constraint.0@.len() >= 1,
                None => true,
            },
        ensures
            final(self).wf(),
            kms_result(
                *old(self),
                *final(self),
                r,
                tag,
                constraints.0@,
                value.width as nat,
                value.chars@,
            ),
    {
        let mut buffer = BitBuffer::new();
        let units: Vec<BitBuffer> = match constraints.permitted_alphabet() {
            Some(alphabet) => {
                let al = &alphabet.constraint.0;
                let alen = al.len();
                let aw = crate::log2(alen as i128);
                proof {
                    crate::lemma_i128_fits_127_bits(alen as int - 1);
                }
                let eff: u64 = if self.options.aligned {
                    next_power_of_two_u32(aw)
                } else {
                    aw as u64
                };
                if (value.width as u64) > eff {
                    proof {
                        arith::lemma_bits_for_bound(alen as int - 1);
                        if aw < eff {
                            vstd::arithmetic::power2::lemma_pow2_strictly_increases(
                                aw as nat,
                                eff as nat,
                            );
                        }
                        vstd::arithmetic::power2::lemma_pow2_strictly_increases(
                            eff as nat,
                            32,
                        );
                        assert(pow2(32) == 0x100000000) by {
                            vstd::arithmetic::power2::lemma2_to64();
                            vstd::arithmetic::power2::lemma2_to64_rest();
                        }
                    }
                    let indices = match remap_chars(al, &value.chars) {
                        Ok(v) => v,
                        Err(e) => {
                            return Err(e);
                        },
                    };
                    proof {
                        lemma_remap_fits(al@, indices@, eff as nat);
                    }
                    chars_to_units(&indices, eff as u32)
                } else {
                    proof {
                        lemma_width_widen(value.chars@, value.width as nat, value.width as nat);
                    }
                    chars_to_units(&value.chars, value.width)
                }
            },
            None => {
                if self.options.aligned {
                    let w8 = 8 * ((value.width + 7) / 8);
                    proof {
                        lemma_octet_width(value.width as nat);
                        lemma_width_widen(value.chars@, value.width as nat, w8 as nat);
                    }
                    chars_to_units(&value.chars, w8)
                } else {
                    chars_to_units(&value.chars, value.width)
                }
            },
        };
        match self.encode_length(&mut buffer, &units, constraints.size()) {
            Ok(_) => {
                self.extend(tag, Input::Bits(&buffer));
                Ok(())
            },
            Err(e) => Err(e),
        }
    }
}

/// Remapped indices fit the effective width.
proof fn lemma_remap_fits(alphabet: Seq<u32>, indices: Seq<u32>, eff: nat)
    requires
        forall|i: int| 0 <= i < indices.len() ==> (#[trigger] indices[i]) < alphabet.len(),
        alphabet.len() >= 1,
        eff >= arith::bits_for(alphabet.len() - 1),
    ensures
        forall|i: int| 0 <= i < indices.len() ==> (#[trigger] indices[i]) < pow2(eff),
{
    arith::lemma_bits_for_bound(alphabet.len() - 1);
    if arith::bits_for(alphabet.len() - 1) < eff {
        vstd::arithmetic::power2::lemma_pow2_strictly_increases(
            arith::bits_for(alphabet.len() - 1),
            eff,
        );
    }
}

/// Characters below one width stay below any wider width.
proof fn lemma_width_widen(chars: Seq<u32>, w: nat, w2: nat)
    requires
        w <= w2,
        forall|i: int| 0 <= i < chars.len() ==> (#[trigger] chars[i]) < pow2(w),
    ensures
        forall|i: int| 0 <= i < chars.len() ==> (#[trigger] chars[i]) < pow2(w2),
{
    if w < w2 {
        vstd::arithmetic::power2::lemma_pow2_strictly_increases(w, w2);
    }
}

/// The octet width is at least the width and fits a `u32` for sane widths.
proof fn lemma_octet_width(w: nat)
    requires
        1 <= w <= 31,
    ensures
        octet_width(w) >= w,
        octet_width(w) <= 32,
{
}

/// Whether a byte is a seven-bit character.
pub open spec fn is_seven_bit(b: u8) -> bool {
    b < 128
}

/// Whether a byte belongs to the PrintableString character set: letters and
/// the punctuation `' ( ) + , - . / : = ?`.
pub open spec fn is_printable_byte(b: u8) -> bool {
    (65 <= b <= 90) || (97 <= b <= 122) || b == 39 || (40 <= b <= 41) || (43 <= b <= 47) || b
        == 58 || b == 61 || b == 63
}

/// The NumericString index of a byte: the digits, then space.
pub open spec fn numeric_index(b: u8) -> Option<u32> {
    if 48 <= b <= 57 {
        Some((b - 48) as u32)
    } else if b == 32 {
        Some(10u32)
    } else {
        None
    }
}

/// A VisibleString: seven-bit characters.
pub struct VisibleString(pub ConstrainedCharacterString);

/// A byte outside the seven-bit range was offered to a VisibleString.
#[derive(Clone, Copy, PartialEq, Eq, Structural, Debug)]
pub struct InvalidVisibleString;

impl VisibleString {
    /// A VisibleString from bytes, each below 128.
    pub fn from_bytes(bytes: &[u8]) -> (r: Result<VisibleString, InvalidVisibleString>)
        ensures
            match r {
                Ok(s) => {
                    &&& s.0.wf()
                    &&& s.0.width == 7
                    &&& s.0.chars@ == Seq::new(bytes@.len(), |i: int| bytes@[i] as u32)
                    &&& forall|i: int| 0 <= i < bytes@.len() ==> is_seven_bit(#[trigger] bytes@[i])
                },
                Err(_) => exists|i: int|
                    0 <= i < bytes@.len() && !is_seven_bit(#[trigger] bytes@[i]),
            },
    {
        let mut chars: Vec<u32> = Vec::new();
        let n = bytes.len();
        let mut i: usize = 0;
        while i < n
            invariant
                n == bytes@.len(),
                i <= n,
                chars@.len() == i,
                forall|j: int| 0 <= j < i ==> is_seven_bit(#[trigger] bytes@[j]),
                forall|j: int| 0 <= j < i ==> #[trigger] chars@[j] == bytes@[j] as u32,
            decreases n - i,
        {
            let b = bytes[i];
            if b >= 128 {
                return Err(InvalidVisibleString);
            }
            chars.push(b as u32);
            i = i + 1;
        }
        proof {
            vstd::arithmetic::power2::lemma2_to64();
            assert(chars@ =~= Seq::new(bytes@.len(), |i: int| bytes@[i] as u32));
        }
        Ok(VisibleString(ConstrainedCharacterString::from_raw_chars(7, chars)))
    }

    /// The number of characters.
    pub fn len(&self) -> (r: usize)
        ensures
            r == self.0.chars@.len(),
    {
        self.0.len()
    }
}

/// An IA5String: seven-bit characters.
pub struct Ia5String(pub ConstrainedCharacterString);

/// A byte outside the seven-bit range was offered to an IA5String.
#[derive(Clone, Copy, PartialEq, Eq, Structural, Debug)]
pub struct InvalidIa5String;

impl Ia5String {
    /// An IA5String from bytes, each below 128.
    pub fn from_bytes(bytes: &[u8]) -> (r: Result<Ia5String, InvalidIa5String>)
        ensures
            match r {
                Ok(s) => {
                    &&& s.0.wf()
                    &&& s.0.width == 7
                    &&& s.0.chars@ == Seq::new(bytes@.len(), |i: int| bytes@[i] as u32)
                    &&& forall|i: int| 0 <= i < bytes@.len() ==> is_seven_bit(#[trigger] bytes@[i])
                },
                Err(_) => exists|i: int|
                    0 <= i < bytes@.len() && !is_seven_bit(#[trigger] bytes@[i]),
            },
    {
        let mut chars: Vec<u32> = Vec::new();
        let n = bytes.len();
        let mut i: usize = 0;
        while i < n
            invariant
                n == bytes@.len(),
                i <= n,
                chars@.len() == i,
                forall|j: int| 0 <= j < i ==> is_seven_bit(#[trigger] bytes@[j]),
                forall|j: int| 0 <= j < i ==> #[trigger] chars@[j] == bytes@[j] as u32,
            decreases n - i,
        {
            let b = bytes[i];
            if b >= 128 {
                return Err(InvalidIa5String);
            }
            chars.push(b as u32);
            i = i + 1;
        }
        proof {
            vstd::arithmetic::power2::lemma2_to64();
            assert(chars@ =~= Seq::new(bytes@.len(), |i: int| bytes@[i] as u32));
        }
        Ok(Ia5String(ConstrainedCharacterString::from_raw_chars(7, chars)))
    }
}

/// A PrintableString: letters and a small punctuation set, seven bits each.
pub struct PrintableString(pub ConstrainedCharacterString);

/// A byte outside the printable set was offered to a PrintableString.
#[derive(Clone, Copy, PartialEq, Eq, Structural, Debug)]
pub struct InvalidPrintableString;

impl PrintableString {
    /// A PrintableString from bytes of its character set.
    pub fn from_bytes(bytes: &[u8]) -> (r: Result<PrintableString, InvalidPrintableString>)
        ensures
            match r {
                Ok(s) => {
                    &&& s.0.wf()
                    &&& s.0.width == 7
                    &&& s.0.chars@ == Seq::new(bytes@.len(), |i: int| bytes@[i] as u32)
                    &&& forall|i: int|
                        0 <= i < bytes@.len() ==> is_printable_byte(#[trigger] bytes@[i])
                },
                Err(_) => exists|i: int|
                    0 <= i < bytes@.len() && !is_printable_byte(#[trigger] bytes@[i]),
            },
    {
        let mut chars: Vec<u32> = Vec::new();
        let n = bytes.len();
        let mut i: usize = 0;
        while i < n
            invariant
                n == bytes@.len(),
                i <= n,
                chars@.len() == i,
                forall|j: int| 0 <= j < i ==> is_printable_byte(#[trigger] bytes@[j]),
                forall|j: int| 0 <= j < i ==> #[trigger] chars@[j] == bytes@[j] as u32,
            decreases n - i,
        {
            let b = bytes[i];
            let ok = (b >= 65 && b <= 90) || (b >= 97 && b <= 122) || b == 39 || (b >= 40 && b
                <= 41) || (b >= 43 && b <= 47) || b == 58 || b == 61 || b == 63;
            if !ok {
                return Err(InvalidPrintableString);
            }
            chars.push(b as u32);
            i = i + 1;
        }
        proof {
            vstd::arithmetic::power2::lemma2_to64();
            assert(chars@ =~= Seq::new(bytes@.len(), |i: int| bytes@[i] as u32));
        }
        Ok(PrintableString(ConstrainedCharacterString::from_raw_chars(7, chars)))
    }
}

/// A NumericString: digits and space, stored as four-bit indices.
pub struct NumericString(pub ConstrainedCharacterString);

/// A byte outside digits-and-space was offered to a NumericString.
#[derive(Clone, Copy, PartialEq, Eq, Structural, Debug)]
pub struct InvalidNumericString;

impl NumericString {
    /// A NumericString from bytes of digits and spaces.
    pub fn from_bytes(bytes: &[u8]) -> (r: Result<NumericString, InvalidNumericString>)
        ensures
            match r {
                Ok(s) => {
                    &&& s.0.wf()
                    &&& s.0.width == 4
                    &&& s.0.chars@.len() == bytes@.len()
                    &&& forall|i: int|
                        0 <= i < bytes@.len() ==> Some(#[trigger] s.0.chars@[i]) == numeric_index(
                            bytes@[i],
                        )
                },
                Err(_) => exists|i: int|
                    0 <= i < bytes@.len() && numeric_index(#[trigger] bytes@[i]).is_none(),
            },
    {
        let mut chars: Vec<u32> = Vec::new();
        let n = bytes.len();
        let mut i: usize = 0;
        while i < n
            invariant
                n == bytes@.len(),
                i <= n,
                chars@.len() == i,
                forall|j: int|
                    0 <= j < i ==> Some(#[trigger] chars@[j]) == numeric_index(bytes@[j]),
                forall|j: int| 0 <= j < i ==> #[trigger] chars@[j] < 16,
            decreases n - i,
        {
            let b = bytes[i];
            if b >= 48 && b <= 57 {
                chars.push((b - 48) as u32);
            } else if b == 32 {
                chars.push(10u32);
            } else {
                return Err(InvalidNumericString);
            }
            i = i + 1;
        }
        proof {
            vstd::arithmetic::power2::lemma2_to64();
        }
        Ok(NumericString(ConstrainedCharacterString::from_raw_chars(4, chars)))
    }
}

/// A BMPString: sixteen-bit code units.
pub struct BmpString(pub ConstrainedCharacterString);

impl BmpString {
    /// A BMPString from its code units.
    pub fn from_code_units(units: &[u16]) -> (r: BmpString)
        ensures
            r.0.wf(),
            r.0.width == 16,
            r.0.chars@ == Seq::new(units@.len(), |i: int| units@[i] as u32),
    {
        let mut chars: Vec<u32> = Vec::new();
        let n = units.len();
        let mut i: usize = 0;
        while i < n
            invariant
                n == units@.len(),
                i <= n,
                chars@.len() == i,
                forall|j: int| 0 <= j < i ==> #[trigger] chars@[j] == units@[j] as u32,
            decreases n - i,
        {
            chars.push(units[i] as u32);
            i = i + 1;
        }
        proof {
            vstd::arithmetic::power2::lemma2_to64();
            assert(chars@ =~= Seq::new(units@.len(), |i: int| units@[i] as u32));
        }
        BmpString(ConstrainedCharacterString::from_raw_chars(16, chars))
    }
}

/// A TeletexString: kept as raw bytes and encoded as an octet string.
pub struct TeletexString(pub Vec<u8>);

impl TeletexString {
    pub fn new(vec: Vec<u8>) -> (r: TeletexString)
        ensures
            r.0 == vec,
    {
        TeletexString(vec)
    }
}

impl Encoder {
    /// Emits a VisibleString under `tag`, seven bits per character.
    pub fn encode_visible_string(
        &mut self,
        tag: Tag,
        constraints: &Constraints,
        value: &VisibleString,
    ) -> (r: Result<(), Error>)
        requires
            old(self).wf(),
            value.0.wf(),
            match spec_alphabet_of(constraints.0@) {
                Some(a) => a.constraint.0@.len() >= 1,
                None => true,
            },
        ensures
            final(self).wf(),
            kms_result(
                *old(self),
                *final(self),
                r,
                tag,
                constraints.0@,
                value.0.width as nat,
                value.0.chars@,
            ),
    {
        self.encode_known_multipler_string(tag, constraints, &value.0)
    }

    /// Emits an IA5String under `tag`, seven bits per character.
    pub fn encode_ia5_string(
        &mut self,
        tag: Tag,
        constraints: &Constraints,
        value: &Ia5String,
    ) -> (r: Result<(), Error>)
        requires
            old(self).wf(),
            value.0.wf(),
            match spec_alphabet_of(constraints.0@) {
                Some(a) => a.constraint.0@.len() >= 1,
                None => true,
            },
        ensures
            final(self).wf(),
            kms_result(
                *old(self),
                *final(self),
                r,
                tag,
                constraints.0@,
                value.0.width as nat,
                value.0.chars@,
            ),
    {
        self.encode_known_multipler_string(tag, constraints, &value.0)
    }

    /// Emits a PrintableString under `tag`, seven bits per character.
    pub fn encode_printable_string(
        &mut self,
        tag: Tag,
        constraints: &Constraints,
        value: &PrintableString,
    ) -> (r: Result<(), Error>)
        requires
            old(self).wf(),
            value.0.wf(),
            match spec_alphabet_of(constraints.0@) {
                Some(a) => a.constraint.0@.len() >= 1,
                None => true,
            },
        ensures
            final(self).wf(),
            kms_result(
                *old(self),
                *final(self),
                r,
                tag,
                constraints.0@,
                value.0.width as nat,
                value.0.chars@,
            ),
    {
        self.encode_known_multipler_string(tag, constraints, &value.0)
    }

    /// Emits a NumericString under `tag`, four bits per character.
    pub fn encode_numeric_string(
        &mut self,
        tag: Tag,
        constraints: &Constraints,
        value: &NumericString,
    ) -> (r: Result<(), Error>)
        requires
            old(self).wf(),
            value.0.wf(),
            match spec_alphabet_of(constraints.0@) {
                Some(a) => a.constraint.0@.len() >= 1,
                None => true,
            },
        ensures
            final(self).wf(),
            kms_result(
                *old(self),
                *final(self),
                r,
                tag,
                constraints.0@,
                value.0.width as nat,
                value.0.chars@,
            ),
    {
        self.encode_known_multipler_string(tag, constraints, &value.0)
    }

    /// Emits a BMPString under `tag`, sixteen bits per character.
    pub fn encode_bmp_string(
        &mut self,
        tag: Tag,
        constraints: &Constraints,
        value: &BmpString,
    ) -> (r: Result<(), Error>)
        requires
            old(self).wf(),
            value.0.wf(),
            match spec_alphabet_of(constraints.0@) {
                Some(a) => a.constraint.0@.len() >= 1,
                None => true,
            },
        ensures
            final(self).wf(),
            kms_result(
                *old(self),
                *final(self),
                r,
                tag,
                constraints.0@,
                value.0.width as nat,
                value.0.chars@,
            ),
    {
        self.encode_known_multipler_string(tag, constraints, &value.0)
    }

    /// Emits a TeletexString under `tag`: its bytes as an unconstrained
    /// octet string.
    pub fn encode_teletex_string(
        &mut self,
        tag: Tag,
        constraints: &Constraints,
        value: &TeletexString,
    ) -> (r: Result<(), Error>)
        requires
            old(self).wf(),
        ensures
            final(self).wf(),
            r.is_ok(),
            spec_extended(
                *old(self),
                *final(self),
                tag,
                wire::spec_len_uncon(
                    old(self).options.aligned,
                    Seq::empty(),
                    wire::byte_units(value.0@),
                    0,
                ),
            ),
    {
        let _ = constraints;
        let empty = Constraints::new(Vec::new());
        match self.encode_octet_string(tag, &empty, value.0.as_slice()) {
            Ok(_) => Ok(()),
            Err(e) => {
                proof {
                    assert(false);
                }
                Err(e)
            },
        }
    }
}

/// The `i`-th `w`-bit field of a content sequence, as a value.
pub open spec fn field_of(content: Seq<bool>, w: nat, i: int) -> int {
    arith::val_of(content.subrange(i * w, i * w + w))
}

/// Whether a decoded field value is meaningful: under an active remapping
/// it must be an index into the alphabet.
pub open spec fn char_field_ok(
    cs: Seq<crate::constraints::Constraint>,
    field_value: int,
    aligned: bool,
    width: nat,
) -> bool {
    match spec_alphabet_of(cs) {
        Some(a) => {
            let al = a.constraint.0@;
            let eff = effective_width(aligned, al.len() as int);
            if width > eff {
                0 <= field_value < al.len()
            } else {
                true
            }
        },
        None => true,
    }
}

impl crate::de::Decoder {
    /// Reads a known-multiplier character string back: the length
    /// determinant counting characters, then one fixed-width field per
    /// character, mapped back through the permitted alphabet where one
    /// narrowed the encoding.
    pub fn decode_known_multipler_string(
        &mut self,
        constraints: &Constraints,
        width: u32,
    ) -> (r: Result<Vec<u32>, Error>)
        requires
            old(self).wf(),
            1 <= width <= 31,
            match spec_alphabet_of(constraints.0@) {
                Some(a) => a.constraint.0@.len() >= 1,
                None => true,
            },
        ensures
            final(self).wf(),
            final(self).aligned == old(self).aligned,
            final(self).input == old(self).input,
            ({
                let w = kms_width(old(self).aligned, constraints.0@, width as nat);
                let dec = crate::de::spec_dec_length(
                    old(self).aligned,
                    old(self).input@,
                    old(self).pos as int,
                    w,
                    spec_size_of(constraints.0@),
                );
                match r {
                    Ok(chars) => {
                        &&& w >= 1
                        &&& dec matches Some(content) && content.0.len() == chars@.len() * w
                            && final(self).pos == content.1 && (forall|i: int|
                            0 <= i < chars@.len() ==> (#[trigger] chars@[i]) as int
                                == recovered_char(
                                constraints.0@,
                                field_of(content.0, w, i),
                                old(self).aligned,
                                width as nat,
                            ))
                    },
                    Err(_) => w == 0 || match dec {
                        None => true,
                        Some(content) => content.0.len() as int % (w as int) != 0 || (exists|i: int|
                            0 <= i < content.0.len() as int / (w as int) && !char_field_ok(
                                constraints.0@,
                                #[trigger] field_of(content.0, w, i),
                                old(self).aligned,
                                width as nat,
                            )),
                    },
                }
            }),
    {
        let aligned = self.aligned;
        let ghost specw = kms_width(aligned, constraints.0@, width as nat);
        let mut remap = false;
        let w_u64: u64 = match constraints.permitted_alphabet() {
            Some(alphabet) => {
                let alen = alphabet.constraint.0.len();
                let aw = crate::log2(alen as i128);
                proof {
                    crate::lemma_i128_fits_127_bits(alen as int - 1);
                }
                let eff: u64 = if aligned {
                    next_power_of_two_u32(aw)
                } else {
                    aw as u64
                };
                if (width as u64) > eff {
                    remap = true;
                    eff
                } else {
                    width as u64
                }
            },
            None => {
                if aligned {
                    (8 * ((width + 7) / 8)) as u64
                } else {
                    width as u64
                }
            },
        };
        proof {
            assert(w_u64 == specw);
        }
        if w_u64 == 0 {
            return Err(Error::custom("characters have no encoding width".to_owned()));
        }
        let w = w_u64 as usize;
        let content = match self.decode_length(w, constraints.size()) {
            Ok(c) => c,
            Err(e) => {
                return Err(e);
            },
        };
        let n = content.len();
        if n % w != 0 {
            return Err(Error::custom("ragged character string content".to_owned()));
        }
        let total = n / w;
        proof {
            vstd::arithmetic::div_mod::lemma_fundamental_div_mod(n as int, w as int);
            vstd::arithmetic::mul::lemma_mul_is_commutative(total as int, w as int);
            assert(n == w * total + n % w);
            assert(n == total * w);
            assert(specw <= 32);
        }
        let mut out: Vec<u32> = Vec::new();
        let mut j: usize = 0;
        while j < total
            invariant
                self.wf(),
                self.aligned == old(self).aligned,
                self.input == old(self).input,
                crate::de::spec_dec_length(
                    old(self).aligned,
                    old(self).input@,
                    old(self).pos as int,
                    specw,
                    spec_size_of(constraints.0@),
                ) == Some((content@, self.pos as int)),
                1 <= w <= 32,
                w == specw,
                specw == kms_width(old(self).aligned, constraints.0@, width as nat),
                1 <= width <= 31,
                remap == (match spec_alphabet_of(constraints.0@) {
                    Some(a) => width as nat > effective_width(
                        self.aligned,
                        a.constraint.0@.len() as int,
                    ),
                    None => false,
                }),
                match spec_alphabet_of(constraints.0@) {
                    Some(a) => a.constraint.0@.len() >= 1,
                    None => true,
                },
                n == content@.len(),
                n % w == 0,
                total == n / w,
                n == total * w,
                j <= total,
                out@.len() == j,
                forall|i: int|
                    0 <= i < j ==> (#[trigger] out@[i]) as int == recovered_char(
                        constraints.0@,
                        field_of(content@, w as nat, i),
                        self.aligned,
                        width as nat,
                    ),
                forall|i: int|
                    0 <= i < j ==> char_field_ok(
                        constraints.0@,
                        #[trigger] field_of(content@, w as nat, i),
                        self.aligned,
                        width as nat,
                    ),
            decreases total - j,
        {
            let ghost seg = content@.subrange(j * w as int, j * w + w);
            proof {
                assert(j * w + w <= n) by (nonlinear_arith)
                    requires
                        j < total,
                        n == total * w,
                        w >= 1,
                ;
                assert(j * w >= 0) by (nonlinear_arith)
                    requires
                        j >= 0,
                        w >= 1,
                ;
                arith::lemma_val_of_bound(seg.take(0));
            }
            let mut acc: u64 = 0;
            let mut k: usize = 0;
            while k < w
                invariant
                    1 <= w <= 32,
                    k <= w,
                    j * w + w <= n,
                    0 <= j * w,
                    n == content@.len(),
                    seg == content@.subrange(j * w as int, j * w + w),
                    acc == arith::val_of(seg.take(k as int)),
                    acc < pow2(k as nat),
                decreases w - k,
            {
                let bit = content.get(j * w + k);
                proof {
                    assert(seg[k as int] == content@[j * w + k]);
                    assert(seg.take(k as int + 1).drop_last() =~= seg.take(k as int));
                    arith::lemma_val_of_bound(seg.take(k as int + 1));
                    vstd::arithmetic::power2::lemma_pow2_unfold(k as nat + 1);
                    vstd::arithmetic::power2::lemma2_to64();
                    vstd::arithmetic::power2::lemma2_to64_rest();
                    if k as nat + 1 < 64 {
                        vstd::arithmetic::power2::lemma_pow2_strictly_increases(
                            k as nat + 1,
                            64,
                        );
                    }
                }
                acc = 2 * acc + if bit {
                    1
                } else {
                    0
                };
                k = k + 1;
            }
            proof {
                assert(seg.take(w as int) =~= seg);
                assert(acc == field_of(content@, w as nat, j as int));
                arith::lemma_val_of_bound(seg);
                vstd::arithmetic::power2::lemma2_to64();
                vstd::arithmetic::power2::lemma2_to64_rest();
                if (w as nat) < 32 {
                    vstd::arithmetic::power2::lemma_pow2_strictly_increases(w as nat, 32);
                }
            }
            if remap {
                let alphabet = match constraints.permitted_alphabet() {
                    Some(a) => a,
                    None => {
                        proof {
                            assert(false);
                        }
                        return Err(Error::custom("missing alphabet".to_owned()));
                    },
                };
                let alen = alphabet.constraint.0.len();
                if acc >= alen as u64 {
                    proof {
                        let wspec = kms_width(old(self).aligned, constraints.0@, width as nat);
                        assert(wspec == w as nat);
                        assert(!char_field_ok(
                            constraints.0@,
                            field_of(content@, wspec, j as int),
                            old(self).aligned,
                            width as nat,
                        ));
                        assert(0 <= j < content@.len() as int / (wspec as int)) by {
                            vstd::arithmetic::div_mod::lemma_fundamental_div_mod(
                                n as int,
                                w as int,
                            );
                        }
                        assert(exists|i: int|
                            0 <= i < content@.len() as int / (wspec as int) && !char_field_ok(
                                constraints.0@,
                                #[trigger] field_of(content@, wspec, i),
                                old(self).aligned,
                                width as nat,
                            ));
                    }
                    return Err(Error::custom("character index outside alphabet".to_owned()));
                }
                out.push(alphabet.constraint.0[acc as usize]);
            } else {
                out.push(acc as u32);
            }
            j = j + 1;
        }
        proof {
            assert(out@.len() * (specw as int) == n);
        }
        Ok(out)
    }
}

} // verus!
