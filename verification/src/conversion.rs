//! The conversion of a stream: which pairs of kinds can be converted, what
//! one element becomes, and what a chunk of bytes becomes.

use crate::ieee::{
    lemma_scale_twice, lemma_signed_scales, lemma_small_log2, lemma_widen_exact, signed, widen,
    widen_bits, Format,
};
use crate::order::{lemma_capacity_values, ByteOrder};
use crate::scalar::{lemma_int_value_bits, Type};
use vstd::arithmetic::div_mod::*;
use vstd::arithmetic::power2::*;
use vstd::prelude::*;
use vstd::string::*;

verus! {

/// The pairs of kinds between which a stream can be converted. The table is
/// closed: a pair that is not listed is refused.
pub open spec fn supported(src: Type, dst: Type) -> bool {
    match (src, dst) {
        (Type::I8, Type::I8)
        | (Type::I8, Type::I16)
        | (Type::I8, Type::I32)
        | (Type::I8, Type::I64)
        | (Type::I8, Type::F32)
        | (Type::I8, Type::F64) => true,
        (Type::U8, Type::U8)
        | (Type::U8, Type::I16)
        | (Type::U8, Type::U16)
        | (Type::U8, Type::I32)
        | (Type::U8, Type::U32)
        | (Type::U8, Type::I64)
        | (Type::U8, Type::U64)
        | (Type::U8, Type::F32)
        | (Type::U8, Type::F64) => true,
        (Type::I16, Type::I16)
        | (Type::I16, Type::I32)
        | (Type::I16, Type::I64)
        | (Type::I16, Type::F32)
        | (Type::I16, Type::F64) => true,
        (Type::U16, Type::U16)
        | (Type::U16, Type::I32)
        | (Type::U16, Type::U32)
        | (Type::U16, Type::I64)
        | (Type::U16, Type::U64)
        | (Type::U16, Type::F32)
        | (Type::U16, Type::F64) => true,
        (Type::I32, Type::I32) | (Type::I32, Type::I64) | (Type::I32, Type::F64) => true,
        (Type::U32, Type::U32)
        | (Type::U32, Type::I64)
        | (Type::U32, Type::U64)
        | (Type::U32, Type::F64) => true,
        (Type::I64, Type::I64) => true,
        (Type::U64, Type::U64) => true,
        (Type::F32, Type::F32) | (Type::F32, Type::F64) => true,
        (Type::F64, Type::F64) => true,
        _ => false,
    }
}

/// True when every value of `src` is a value of `dst`: an integer range
/// inside the other, integers short enough for the significand of a
/// floating-point format, or the narrower format into the wider.
pub open spec fn holds_every_value(src: Type, dst: Type) -> bool {
    if src == dst {
        true
    } else if src.spec_is_float() {
        src == Type::F32 && dst == Type::F64
    } else if dst.spec_is_float() {
        -2 * Format::of(dst).hidden() <= src.min_value() && src.max_value() <= 2 * Format::of(
            dst,
        ).hidden()
    } else {
        dst.min_value() <= src.min_value() && src.max_value() <= dst.max_value()
    }
}

/// The table lists the pairs that lose nothing, and no others.
pub proof fn lemma_supported_is_lossless(src: Type, dst: Type)
    ensures
        supported(src, dst) <==> holds_every_value(src, dst),
{
}

/// Tells whether a pair of kinds is in the table.
pub fn is_supported(src: Type, dst: Type) -> (b: bool)
    ensures
        b == supported(src, dst),
{
    match (src, dst) {
        (Type::I8, Type::I8)
        | (Type::I8, Type::I16)
        | (Type::I8, Type::I32)
        | (Type::I8, Type::I64)
        | (Type::I8, Type::F32)
        | (Type::I8, Type::F64) => true,
        (Type::U8, Type::U8)
        | (Type::U8, Type::I16)
        | (Type::U8, Type::U16)
        | (Type::U8, Type::I32)
        | (Type::U8, Type::U32)
        | (Type::U8, Type::I64)
        | (Type::U8, Type::U64)
        | (Type::U8, Type::F32)
        | (Type::U8, Type::F64) => true,
        (Type::I16, Type::I16)
        | (Type::I16, Type::I32)
        | (Type::I16, Type::I64)
        | (Type::I16, Type::F32)
        | (Type::I16, Type::F64) => true,
        (Type::U16, Type::U16)
        | (Type::U16, Type::I32)
        | (Type::U16, Type::U32)
        | (Type::U16, Type::I64)
        | (Type::U16, Type::U64)
        | (Type::U16, Type::F32)
        | (Type::U16, Type::F64) => true,
        (Type::I32, Type::I32) | (Type::I32, Type::I64) | (Type::I32, Type::F64) => true,
        (Type::U32, Type::U32)
        | (Type::U32, Type::I64)
        | (Type::U32, Type::U64)
        | (Type::U32, Type::F64) => true,
        (Type::I64, Type::I64) => true,
        (Type::U64, Type::U64) => true,
        (Type::F32, Type::F32) | (Type::F32, Type::F64) => true,
        (Type::F64, Type::F64) => true,
        _ => false,
    }
}

/// The bit pattern in `dst` of the number that `bits` stands for in `src`.
/// Between equal kinds nothing changes, NaN payloads included.
pub open spec fn cast_bits(src: Type, dst: Type, bits: nat) -> nat {
    if src == dst {
        bits
    } else if src.spec_is_float() {
        widen(bits)
    } else if dst.spec_is_float() {
        let v = src.int_value(bits);
        Format::of(dst).of_scaled(
            v < 0,
            (if v < 0 {
                -v
            } else {
                v
            }) as nat,
            0,
        )
    } else {
        dst.int_bits(src.int_value(bits))
    }
}

/// The number that a bit pattern stands for, counted in units of 2 to the
/// power of minus 1074: the grid on which every finite value of every kind
/// lies.
pub open spec fn exact_value(t: Type, bits: nat) -> int {
    match t {
        Type::F32 => Format::Binary32.units(bits) * pow2(925),
        Type::F64 => Format::Binary64.units(bits),
        _ => t.int_value(bits) * pow2(1074),
    }
}

/// The whole elements of `bytes`: its longest prefix whose length is a
/// multiple of `width`.
pub open spec fn whole(bytes: Seq<u8>, width: nat) -> Seq<u8> {
    bytes.take(bytes.len() - bytes.len() % width)
}

/// The whole elements of `bytes` leave out less than one element, and
/// nothing where `bytes` holds whole elements only.
pub proof fn lemma_whole(bytes: Seq<u8>, width: nat)
    requires
        width > 0,
    ensures
        whole(bytes, width).len() == bytes.len() - bytes.len() % width,
        whole(bytes, width).len() % width == 0,
        bytes.len() - whole(bytes, width).len() < width,
        bytes.len() % width == 0 ==> whole(bytes, width) == bytes,
{
    let q = bytes.len() as int / width as int;
    let r = bytes.len() as int % width as int;
    lemma_fundamental_div_mod(bytes.len() as int, width as int);
    lemma_mod_bound(bytes.len() as int, width as int);
    lemma_mod_multiples_basic(q, width as int);
    assert(bytes.len() - r == q * width) by (nonlinear_arith)
        requires
            bytes.len() == width * q + r,
    ;
    if r == 0 {
        assert(whole(bytes, width) =~= bytes);
    }
}

/// True when a bit pattern stands for a number: always in an integer kind,
/// and in a floating-point kind unless it is an infinity or a NaN.
pub open spec fn is_number(t: Type, bits: nat) -> bool {
    t.spec_is_float() ==> Format::of(t).is_finite(bits)
}

/// A supported conversion keeps the value of every element exactly. The
/// pattern of a number becomes the pattern of the same number; between
/// integer kinds that is the same integer. An infinity stays an infinity and
/// a NaN stays a NaN.
pub proof fn lemma_cast_exact(src: Type, dst: Type, bits: nat)
    requires
        supported(src, dst),
        bits < src.modulus(),
    ensures
        cast_bits(src, dst, bits) < dst.modulus(),
        is_number(src, bits) ==> is_number(dst, cast_bits(src, dst, bits)) && exact_value(
            dst,
            cast_bits(src, dst, bits),
        ) == exact_value(src, bits),
        !dst.spec_is_float() ==> dst.int_value(cast_bits(src, dst, bits)) == src.int_value(bits),
        src.spec_is_float() && Format::of(src).is_infinite(bits) ==> Format::of(dst).is_infinite(
            cast_bits(src, dst, bits),
        ),
        src.spec_is_float() && Format::of(src).is_nan(bits) ==> Format::of(dst).is_nan(
            cast_bits(src, dst, bits),
        ),
{
    if src == dst {
    } else if src.spec_is_float() {
        lemma_widen_exact(bits);
    } else if dst.spec_is_float() {
        let v = src.int_value(bits);
        let negative = v < 0;
        let magnitude = (if v < 0 {
            -v
        } else {
            v
        }) as nat;
        let format = Format::of(dst);
        lemma2_to64();
        lemma2_to64_rest();
        if magnitude > 0 {
            lemma_small_log2(magnitude, format.fraction_bits() + 1);
        }
        format.lemma_of_scaled(negative, magnitude, 0);
        assert(v == signed(negative, magnitude as int));
        lemma_signed_scales(negative, magnitude as int, pow2(1074) as int);
        if dst == Type::F32 {
            let units = (magnitude * pow2(149)) as int;
            lemma_signed_scales(negative, units, pow2(925) as int);
            lemma_scale_twice(magnitude, 149, 925);
            if magnitude == 0 {
                assert(0 * pow2(925) == 0);
                assert(magnitude * pow2(1074) == 0);
            }
        } else {
            if magnitude == 0 {
                assert(magnitude * pow2(1074) == 0);
            }
        }
    } else {
    }
}

/// Why a conversion was refused before any byte was read.
#[derive(Debug, Clone, Copy, PartialEq, Eq, Structural)]
pub enum ConfigError {
    /// The pair of kinds is not in the table.
    UnsupportedPair { src: Type, dst: Type },
    /// A multiplier was given for a stream of floating-point numbers.
    FloatMultiplier { src: Type },
    /// The multiplier is not a value of the source kind.
    MultiplierRange { src: Type },
}

/// The refusal that a request meets, if any. The pair is judged first.
pub open spec fn refusal(src: Type, dst: Type, multiplier: Option<i128>) -> Option<ConfigError> {
    if !supported(src, dst) {
        Some(ConfigError::UnsupportedPair { src, dst })
    } else {
        match multiplier {
            None => None,
            Some(m) => if src.spec_is_float() {
                Some(ConfigError::FloatMultiplier { src })
            } else if !(src.min_value() <= m <= src.max_value()) {
                Some(ConfigError::MultiplierRange { src })
            } else {
                None
            },
        }
    }
}

impl ConfigError {
    /// The text of the refusal.
    pub open spec fn text(self) -> Seq<char> {
        match self {
            ConfigError::UnsupportedPair { src, dst } => "Invalid conversion: "@ + src.token()
                + " -> "@ + dst.token(),
            ConfigError::FloatMultiplier { src } => "Invalid multiplier: cannot scale "@
                + src.token(),
            ConfigError::MultiplierRange { src } => "Invalid multiplier: not a value of "@
                + src.token(),
        }
    }

    /// The text of the refusal. For an unsupported pair it names both kinds.
    pub fn message(&self) -> (s: String)
        ensures
            s@ == self.text(),
    {
        match self {
            ConfigError::UnsupportedPair { src, dst } => {
                let mut s = String::from_str("Invalid conversion: ");
                s.append(src.name());
                s.append(" -> ");
                s.append(dst.name());
                s
            },
            ConfigError::FloatMultiplier { src } => {
                let mut s = String::from_str("Invalid multiplier: cannot scale ");
                s.append(src.name());
                s
            },
            ConfigError::MultiplierRange { src } => {
                let mut s = String::from_str("Invalid multiplier: not a value of ");
                s.append(src.name());
                s
            },
        }
    }
}

/// One accepted conversion: a pair of kinds from the table, an optional
/// multiplier of the source kind, and the byte order of both streams.
#[derive(Debug, Clone, Copy, PartialEq, Eq)]
pub struct Conversion {
    src: Type,
    dst: Type,
    factor: Option<u64>,
    order: ByteOrder,
}

impl Conversion {
    /// What holds of every conversion: the pair is in the table, and a
    /// multiplier is the bit pattern of a value of an integer source kind.
    #[verifier::type_invariant]
    pub closed spec fn valid(self) -> bool {
        &&& supported(self.src, self.dst)
        &&& self.factor matches Some(m) ==> !self.src.spec_is_float() && m < self.src.modulus()
    }

    /// The kind of the elements read.
    pub closed spec fn source(self) -> Type {
        self.src
    }

    /// The kind of the elements written.
    pub closed spec fn target(self) -> Type {
        self.dst
    }

    /// The byte order of both streams.
    pub closed spec fn byte_order(self) -> ByteOrder {
        self.order
    }

    /// The value by which every element is multiplied, if any.
    pub closed spec fn multiplier(self) -> Option<int> {
        match self.factor {
            None => None,
            Some(m) => Some(self.src.int_value(m as nat)),
        }
    }

    /// The bit pattern of an element after scaling: unchanged without a
    /// multiplier, else the pattern of the product, which wraps around where
    /// it leaves the range of the source kind.
    pub open spec fn scale(self, bits: nat) -> nat {
        match self.multiplier() {
            None => bits,
            Some(m) => self.source().int_bits(self.source().int_value(bits) * m),
        }
    }

    /// The bytes written for one element read.
    pub open spec fn element(self, word: Seq<u8>) -> Seq<u8> {
        self.byte_order().bytes(
            cast_bits(self.source(), self.target(), self.scale(self.byte_order().value(word))),
            self.target().spec_width(),
        )
    }

    /// The bytes written for a chunk of bytes read: element by element, as
    /// long as a whole element is left. A shorter rest is dropped.
    pub open spec fn output(self, bytes: Seq<u8>) -> Seq<u8>
        decreases bytes.len(),
    {
        let w = self.source().spec_width();
        if bytes.len() < w {
            Seq::empty()
        } else {
            self.element(bytes.take(w as int)) + self.output(bytes.skip(w as int))
        }
    }

    /// Accepts or refuses a request, with the byte order given.
    pub fn with_order(src: Type, dst: Type, multiplier: Option<i128>, order: ByteOrder) -> (r:
        Result<Conversion, ConfigError>)
        ensures
            match r {
                Ok(c) => {
                    &&& refusal(src, dst, multiplier) is None
                    &&& c.valid()
                    &&& c.source() == src
                    &&& c.target() == dst
                    &&& c.byte_order() == order
                    &&& c.multiplier() == match multiplier {
                        None => None::<int>,
                        Some(m) => Some(m as int),
                    }
                },
                Err(e) => refusal(src, dst, multiplier) == Some(e),
            },
    {
        if !is_supported(src, dst) {
            return Err(ConfigError::UnsupportedPair { src, dst });
        }
        let factor = match multiplier {
            None => None,
            Some(m) => {
                if src.is_float() {
                    return Err(ConfigError::FloatMultiplier { src });
                }
                let (low, high, modulus): (i128, i128, i128) = match src {
                    Type::I8 => (-0x80, 0x7f, 0x100),
                    Type::U8 => (0, 0xff, 0x100),
                    Type::I16 => (-0x8000, 0x7fff, 0x1_0000),
                    Type::U16 => (0, 0xffff, 0x1_0000),
                    Type::I32 => (-0x8000_0000, 0x7fff_ffff, 0x1_0000_0000),
                    Type::U32 => (0, 0xffff_ffff, 0x1_0000_0000),
                    Type::I64 => (
                        -0x8000_0000_0000_0000,
                        0x7fff_ffff_ffff_ffff,
                        0x1_0000_0000_0000_0000,
                    ),
                    _ => (0, 0xffff_ffff_ffff_ffff, 0x1_0000_0000_0000_0000),
                };
                if m < low || m > high {
                    return Err(ConfigError::MultiplierRange { src });
                }
                if m < 0 {
                    Some((m + modulus) as u64)
                } else {
                    Some(m as u64)
                }
            },
        };
        Ok(Conversion { src, dst, factor, order })
    }

    /// Accepts or refuses a request, for streams in the byte order of the
    /// machine that runs the program.
    pub fn new(src: Type, dst: Type, multiplier: Option<i128>) -> (r: Result<
        Conversion,
        ConfigError,
    >)
        ensures
            match r {
                Ok(c) => {
                    &&& refusal(src, dst, multiplier) is None
                    &&& c.valid()
                    &&& c.source() == src
                    &&& c.target() == dst
                    &&& c.multiplier() == match multiplier {
                        None => None::<int>,
                        Some(m) => Some(m as int),
                    }
                },
                Err(e) => refusal(src, dst, multiplier) == Some(e),
            },
    {
        Conversion::with_order(src, dst, multiplier, ByteOrder::native())
    }

    /// The kind of the elements read.
    pub fn src(&self) -> (t: Type)
        ensures
            t == self.source(),
    {
        self.src
    }

    /// The kind of the elements written.
    pub fn dst(&self) -> (t: Type)
        ensures
            t == self.target(),
    {
        self.dst
    }

    /// The byte order of both streams.
    pub fn order(&self) -> (o: ByteOrder)
        ensures
            o == self.byte_order(),
    {
        self.order
    }

    /// The value by which every element is multiplied, if any.
    pub fn factor(&self) -> (m: Option<i128>)
        ensures
            self.multiplier() == match m {
                None => None::<int>,
                Some(v) => Some(v as int),
            },
    {
        proof {
            use_type_invariant(self);
        }
        match self.factor {
            None => None,
            Some(bits) => {
                let top = top_pattern(self.src);
                if self.src.is_signed() && bits > top / 2 {
                    Some(bits as i128 - top as i128 - 1)
                } else {
                    Some(bits as i128)
                }
            },
        }
    }

    /// Multiplies one element, given as its bit pattern, by the multiplier.
    fn scale_word(&self, bits: u64) -> (scaled: u64)
        requires
            bits < self.source().modulus(),
        ensures
            scaled == self.scale(bits as nat),
            scaled < self.source().modulus(),
    {
        proof {
            use_type_invariant(self);
        }
        match self.factor {
            None => bits,
            Some(m) => {
                let ghost modulus = self.src.modulus();
                let ghost v = self.src.int_value(bits as nat);
                let ghost k = self.src.int_value(m as nat);
                assert(bits * m <= 0xffff_ffff_ffff_ffff * 0xffff_ffff_ffff_ffff)
                    by (nonlinear_arith)
                    requires
                        bits <= 0xffff_ffff_ffff_ffff,
                        m <= 0xffff_ffff_ffff_ffff,
                ;
                let product: u128 = (bits as u128) * (m as u128);
                proof {
                    lemma_mul_mod_noop_general(v, k, modulus);
                    lemma_small_mod(bits as nat, modulus as nat);
                    lemma_small_mod(m as nat, modulus as nat);
                    lemma_mod_sub_multiples_vanish(bits as int, modulus);
                    lemma_mod_sub_multiples_vanish(m as int, modulus);
                    assert(v % modulus == bits);
                    assert(k % modulus == m);
                }
                let scaled = match self.src {
                    Type::I8 | Type::U8 => product % 0x100,
                    Type::I16 | Type::U16 => product % 0x1_0000,
                    Type::I32 | Type::U32 => product % 0x1_0000_0000,
                    _ => product % 0x1_0000_0000_0000_0000,
                };
                scaled as u64
            },
        }
    }

    /// Converts one element, given as its bit pattern, to the target kind.
    fn cast_word(&self, bits: u64) -> (cast: u64)
        requires
            bits < self.source().modulus(),
        ensures
            cast == cast_bits(self.source(), self.target(), bits as nat),
            cast < self.target().modulus(),
    {
        proof {
            use_type_invariant(self);
        }
        if self.src.is_float() {
            if self.dst.width() == self.src.width() {
                bits
            } else {
                proof {
                    lemma_widen_exact(bits as nat);
                }
                widen_bits(bits as u32)
            }
        } else {
            let src_top = top_pattern(self.src);
            let negative = self.src.is_signed() && bits > src_top / 2;
            if self.dst.is_float() {
                let magnitude = if negative {
                    src_top - bits + 1
                } else {
                    bits
                };
                let format = match self.dst {
                    Type::F32 => Format::Binary32,
                    _ => Format::Binary64,
                };
                proof {
                    lemma2_to64();
                    lemma2_to64_rest();
                    if magnitude > 0 {
                        lemma_small_log2(magnitude as nat, format.fraction_bits() + 1);
                    }
                    format.lemma_of_scaled(negative, magnitude as nat, 0);
                }
                format.encode(negative, magnitude, 0)
            } else if negative {
                bits + (top_pattern(self.dst) - src_top)
            } else {
                bits
            }
        }
    }

    /// Converts a chunk of bytes: `out` is emptied and then holds what is
    /// written for `chunk`. A rest of the chunk too short for an element is
    /// dropped.
    pub fn convert(&self, chunk: &[u8], out: &mut Vec<u8>)
        ensures
            final(out)@ == self.output(chunk@),
    {
        proof {
            use_type_invariant(self);
            lemma_capacity_values();
        }
        let w = self.src.width();
        let target_width = self.dst.width();
        out.clear();
        let mut at: usize = 0;
        assert(chunk@.take(0) =~= Seq::<u8>::empty());
        while chunk.len() - at >= w
            invariant
                self.valid(),
                w == self.source().spec_width(),
                target_width == self.target().spec_width(),
                at <= chunk.len(),
                at % w == 0,
                out@ == self.output(chunk@.take(at as int)),
            decreases chunk.len() - at,
        {
            let ghost word = chunk@.subrange(at as int, at + w);
            let bits = self.order.read(chunk, at, w);
            proof {
                lemma_capacity_values();
            }
            let scaled = self.scale_word(bits);
            let cast = self.cast_word(scaled);
            self.order.write(cast, target_width, out);
            proof {
                self.lemma_output_append(chunk@.take(at as int), word);
                self.lemma_output_append(word, Seq::empty());
                assert(word + Seq::<u8>::empty() =~= word);
                assert(word.take(w as int) =~= word);
                assert(word.skip(w as int) =~= Seq::<u8>::empty());
                assert(chunk@.take(at as int) + word =~= chunk@.take(at + w));
                self.lemma_step(at as nat);
            }
            at = at + w;
        }
        proof {
            self.lemma_output_append(chunk@.take(at as int), chunk@.skip(at as int));
            assert(chunk@.take(at as int) + chunk@.skip(at as int) =~= chunk@);
        }
    }

    /// Scaling multiplies the value of an integer element by the multiplier.
    /// Where the product is a value of the source kind, the scaled element
    /// is that product and the element written stands for it exactly; where
    /// it is not, the product wraps around in the source kind.
    pub proof fn lemma_scaling(self, bits: nat)
        requires
            self.valid(),
            self.multiplier() is Some,
            bits < self.source().modulus(),
        ensures
            self.scale(bits) < self.source().modulus(),
            self.source().int_value(self.scale(bits)) == self.source().wrap(
                self.source().int_value(bits) * self.multiplier().unwrap(),
            ),
            ({
                let product = self.source().int_value(bits) * self.multiplier().unwrap();
                self.source().min_value() <= product <= self.source().max_value() ==> {
                    &&& self.source().int_value(self.scale(bits)) == product
                    &&& exact_value(
                        self.target(),
                        cast_bits(self.source(), self.target(), self.scale(bits)),
                    ) == product * pow2(1074)
                }
            }),
    {
        let product = self.source().int_value(bits) * self.multiplier().unwrap();
        if self.source().min_value() <= product <= self.source().max_value() {
            lemma_int_value_bits(self.source(), product);
        }
        lemma_cast_exact(self.source(), self.target(), self.scale(bits));
    }

    /// Between equal kinds and without a multiplier an element is written as
    /// it was read.
    pub proof fn lemma_identity_element(self, word: Seq<u8>)
        requires
            self.source() == self.target(),
            self.multiplier() is None,
            word.len() == self.source().spec_width(),
        ensures
            self.element(word) == word,
    {
        self.byte_order().lemma_bytes_of_value(word);
    }

    /// Between equal kinds and without a multiplier the whole elements of a
    /// chunk are written as they were read, byte for byte: a chunk of
    /// whole elements is written unchanged.
    pub proof fn lemma_identity_output(self, bytes: Seq<u8>)
        requires
            self.source() == self.target(),
            self.multiplier() is None,
        ensures
            self.output(bytes) == whole(bytes, self.source().spec_width()),
            bytes.len() % self.source().spec_width() == 0 ==> self.output(bytes) == bytes,
        decreases bytes.len(),
    {
        let w = self.source().spec_width();
        lemma_whole(bytes, w);
        if bytes.len() < w {
            lemma_small_mod(bytes.len(), w);
            assert(self.output(bytes) =~= whole(bytes, w));
        } else {
            let rest = bytes.skip(w as int);
            lemma_mod_sub_multiples_vanish(bytes.len() as int, w as int);
            lemma_whole(rest, w);
            self.lemma_identity_element(bytes.take(w as int));
            self.lemma_identity_output(rest);
            assert(bytes.take(w as int) + whole(rest, w) =~= whole(bytes, w));
        }
    }

    /// A rest too short for an element adds nothing: what is written for a
    /// chunk is what is written for its whole elements.
    pub proof fn lemma_output_of_whole(self, bytes: Seq<u8>)
        ensures
            self.output(bytes) == self.output(whole(bytes, self.source().spec_width())),
    {
        let w = self.source().spec_width();
        let head = whole(bytes, w);
        let rest = bytes.skip(head.len() as int);
        lemma_whole(bytes, w);
        self.lemma_output_append(head, rest);
        assert(head + rest =~= bytes);
        assert(self.output(rest) =~= Seq::<u8>::empty());
        assert(self.output(head) + self.output(rest) =~= self.output(head));
    }

    /// What is written for a chunk has one element for each whole element
    /// read.
    pub proof fn lemma_output_len(self, bytes: Seq<u8>)
        ensures
            self.output(bytes).len() == (bytes.len() / self.source().spec_width())
                * self.target().spec_width(),
        decreases bytes.len(),
    {
        let w = self.source().spec_width();
        if bytes.len() < w {
            lemma_basic_div(bytes.len() as int, w as int);
        } else {
            self.lemma_output_len(bytes.skip(w as int));
            let word = bytes.take(w as int);
            self.byte_order().lemma_value_of_bytes(
                cast_bits(
                    self.source(),
                    self.target(),
                    self.scale(self.byte_order().value(word)),
                ),
                self.target().spec_width(),
            );
            lemma_div_plus_one((bytes.len() - w) as int, w as int);
            let rest = (bytes.len() - w) / (w as int);
            assert((rest + 1) * self.target().spec_width() == rest * self.target().spec_width()
                + self.target().spec_width()) by (nonlinear_arith);
        }
    }

    /// One element further is still a whole number of elements.
    proof fn lemma_step(self, at: nat)
        requires
            at % self.source().spec_width() == 0,
        ensures
            (at + self.source().spec_width()) % self.source().spec_width() == 0,
    {
        lemma_mod_add_multiples_vanish(at as int, self.source().spec_width() as int);
    }

    /// What is written for a chunk that holds whole elements, followed by
    /// more bytes, is what is written for the chunk followed by what is
    /// written for the rest.
    pub proof fn lemma_output_append(self, head: Seq<u8>, rest: Seq<u8>)
        requires
            head.len() % self.source().spec_width() == 0,
        ensures
            self.output(head + rest) == self.output(head) + self.output(rest),
        decreases head.len(),
    {
        let w = self.source().spec_width();
        if head.len() == 0 {
            assert(head + rest =~= rest);
            assert(self.output(head) =~= Seq::<u8>::empty());
            assert(self.output(head) + self.output(rest) =~= self.output(rest));
        } else {
            assert(head.len() >= w && (head.len() - w) % (w as int) == 0) by {
                if head.len() < w {
                    lemma_small_mod(head.len(), w);
                }
                lemma_mod_sub_multiples_vanish(head.len() as int, w as int);
            }
            self.lemma_output_append(head.skip(w as int), rest);
            assert((head + rest).take(w as int) =~= head.take(w as int));
            assert((head + rest).skip(w as int) =~= head.skip(w as int) + rest);
            assert(self.output(head + rest) =~= self.output(head) + self.output(rest));
        }
    }
}

/// The greatest bit pattern of a kind: all ones.
fn top_pattern(t: Type) -> (top: u64)
    ensures
        top == t.modulus() - 1,
{
    match t {
        Type::I8 | Type::U8 => 0xff,
        Type::I16 | Type::U16 => 0xffff,
        Type::I32 | Type::U32 | Type::F32 => 0xffff_ffff,
        _ => 0xffff_ffff_ffff_ffff,
    }
}

} // verus!
