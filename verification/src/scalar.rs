//! The ten scalar kinds a stream may carry, their names, their widths and the
//! numbers that their bit patterns stand for.

use vstd::prelude::*;
use vstd::string::*;

verus! {

/// The element kind of a raw stream: a signed or unsigned integer of 8 to 64
/// bits, or an IEEE 754 number of 32 or 64 bits.
#[derive(Debug, Clone, Copy, PartialEq, Eq, Structural)]
pub enum Type {
    I8,
    U8,
    I16,
    U16,
    I32,
    U32,
    I64,
    U64,
    F32,
    F64,
}

impl Type {
    /// The token that names the kind on the command line.
    pub open spec fn token(self) -> Seq<char> {
        match self {
            Type::I8 => seq!['i', '8'],
            Type::U8 => seq!['u', '8'],
            Type::I16 => seq!['i', '1', '6'],
            Type::U16 => seq!['u', '1', '6'],
            Type::I32 => seq!['i', '3', '2'],
            Type::U32 => seq!['u', '3', '2'],
            Type::I64 => seq!['i', '6', '4'],
            Type::U64 => seq!['u', '6', '4'],
            Type::F32 => seq!['f', '3', '2'],
            Type::F64 => seq!['f', '6', '4'],
        }
    }

    /// Bytes occupied by one element.
    pub open spec fn spec_width(self) -> nat {
        match self {
            Type::I8 | Type::U8 => 1,
            Type::I16 | Type::U16 => 2,
            Type::I32 | Type::U32 | Type::F32 => 4,
            Type::I64 | Type::U64 | Type::F64 => 8,
        }
    }

    /// True for the two floating-point kinds.
    pub open spec fn spec_is_float(self) -> bool {
        self == Type::F32 || self == Type::F64
    }

    /// True for the four signed integer kinds.
    pub open spec fn spec_is_signed(self) -> bool {
        self == Type::I8 || self == Type::I16 || self == Type::I32 || self == Type::I64
    }

    /// The number of distinct bit patterns of one element: 256 to the power
    /// of the width.
    pub open spec fn modulus(self) -> int {
        match self {
            Type::I8 | Type::U8 => 0x100,
            Type::I16 | Type::U16 => 0x1_0000,
            Type::I32 | Type::U32 | Type::F32 => 0x1_0000_0000,
            Type::I64 | Type::U64 | Type::F64 => 0x1_0000_0000_0000_0000,
        }
    }

    /// The least value of an integer kind.
    pub open spec fn min_value(self) -> int {
        if self.spec_is_signed() {
            -(self.modulus() / 2)
        } else {
            0
        }
    }

    /// The greatest value of an integer kind.
    pub open spec fn max_value(self) -> int {
        if self.spec_is_signed() {
            self.modulus() / 2 - 1
        } else {
            self.modulus() - 1
        }
    }

    /// The integer that a bit pattern stands for in an integer kind: the
    /// pattern itself when unsigned, its two's complement reading when signed.
    pub open spec fn int_value(self, bits: nat) -> int {
        if self.spec_is_signed() && 2 * bits >= self.modulus() {
            bits - self.modulus()
        } else {
            bits as int
        }
    }

    /// The bit pattern that stands for `v` in an integer kind. Outside the
    /// kind's range the value wraps around.
    pub open spec fn int_bits(self, v: int) -> nat {
        (v % self.modulus()) as nat
    }

    /// The value of the kind's range that `v` wraps around to.
    pub open spec fn wrap(self, v: int) -> int {
        self.int_value(self.int_bits(v))
    }

    /// Bytes occupied by one element.
    pub fn width(self) -> (w: usize)
        ensures
            w == self.spec_width(),
    {
        match self {
            Type::I8 | Type::U8 => 1,
            Type::I16 | Type::U16 => 2,
            Type::I32 | Type::U32 | Type::F32 => 4,
            Type::I64 | Type::U64 | Type::F64 => 8,
        }
    }

    /// True for the two floating-point kinds.
    pub fn is_float(self) -> (b: bool)
        ensures
            b == self.spec_is_float(),
    {
        match self {
            Type::F32 | Type::F64 => true,
            _ => false,
        }
    }

    /// True for the four signed integer kinds.
    pub fn is_signed(self) -> (b: bool)
        ensures
            b == self.spec_is_signed(),
    {
        match self {
            Type::I8 | Type::I16 | Type::I32 | Type::I64 => true,
            _ => false,
        }
    }

    /// Reads a kind from its token. Anything but one of the ten tokens is an
    /// error.
    pub fn from_str(s: &str) -> (r: Result<Type, &'static str>)
        ensures
            match r {
                Ok(t) => s@ == t.token(),
                Err(e) => e@ == "invalid type"@ && forall|t: Type| s@ != #[trigger] t.token(),
            },
    {
        let n = s.unicode_len();
        if n == 2 {
            let kind = s.get_char(0);
            if s.get_char(1) == '8' {
                if kind == 'i' {
                    assert(s@ =~= Type::I8.token());
                    return Ok(Type::I8);
                }
                if kind == 'u' {
                    assert(s@ =~= Type::U8.token());
                    return Ok(Type::U8);
                }
            }
        } else if n == 3 {
            let kind = s.get_char(0);
            let tens = s.get_char(1);
            let ones = s.get_char(2);
            if tens == '1' && ones == '6' {
                if kind == 'i' {
                    assert(s@ =~= Type::I16.token());
                    return Ok(Type::I16);
                }
                if kind == 'u' {
                    assert(s@ =~= Type::U16.token());
                    return Ok(Type::U16);
                }
            } else if tens == '3' && ones == '2' {
                if kind == 'i' {
                    assert(s@ =~= Type::I32.token());
                    return Ok(Type::I32);
                }
                if kind == 'u' {
                    assert(s@ =~= Type::U32.token());
                    return Ok(Type::U32);
                }
                if kind == 'f' {
                    assert(s@ =~= Type::F32.token());
                    return Ok(Type::F32);
                }
            } else if tens == '6' && ones == '4' {
                if kind == 'i' {
                    assert(s@ =~= Type::I64.token());
                    return Ok(Type::I64);
                }
                if kind == 'u' {
                    assert(s@ =~= Type::U64.token());
                    return Ok(Type::U64);
                }
                if kind == 'f' {
                    assert(s@ =~= Type::F64.token());
                    return Ok(Type::F64);
                }
            }
        }
        assert forall|t: Type| s@ != #[trigger] t.token() by {
            if s@ == t.token() {
                assert(s@.len() == t.token().len());
                assert(s@[0] == t.token()[0]);
                assert(s@[1] == t.token()[1]);
                if n == 3 {
                    assert(s@[2] == t.token()[2]);
                }
            }
        }
        Err("invalid type")
    }

    /// The token that names the kind.
    pub fn name(self) -> (s: &'static str)
        ensures
            s@ == self.token(),
    {
        proof {
            reveal_strlit("i8");
            reveal_strlit("u8");
            reveal_strlit("i16");
            reveal_strlit("u16");
            reveal_strlit("i32");
            reveal_strlit("u32");
            reveal_strlit("i64");
            reveal_strlit("u64");
            reveal_strlit("f32");
            reveal_strlit("f64");
        }
        let s = match self {
            Type::I8 => "i8",
            Type::U8 => "u8",
            Type::I16 => "i16",
            Type::U16 => "u16",
            Type::I32 => "i32",
            Type::U32 => "u32",
            Type::I64 => "i64",
            Type::U64 => "u64",
            Type::F32 => "f32",
            Type::F64 => "f64",
        };
        assert(s@ =~= self.token());
        s
    }

    /// The token that names the kind, as an owned string.
    pub fn to_string(self) -> (s: String)
        ensures
            s@ == self.token(),
    {
        String::from_str(self.name())
    }
}

/// No two kinds share a name.
pub proof fn lemma_tokens_distinct(a: Type, b: Type)
    ensures
        a.token() == b.token() <==> a == b,
{
    if a.token() == b.token() {
        assert(a.token().len() == b.token().len());
        assert(a.token()[0] == b.token()[0]);
        assert(a.token()[1] == b.token()[1]);
        if a.token().len() == 3 {
            assert(a.token()[2] == b.token()[2]);
        }
    }
}

/// Within its range an integer and its bit pattern determine each other.
pub proof fn lemma_int_value_bits(t: Type, v: int)
    requires
        t.min_value() <= v <= t.max_value(),
    ensures
        t.int_bits(v) < t.modulus(),
        t.int_value(t.int_bits(v)) == v,
        t.wrap(v) == v,
{
}

/// Every bit pattern of an integer kind stands for a value in its range and
/// is the pattern of that value.
pub proof fn lemma_int_bits_value(t: Type, bits: nat)
    requires
        bits < t.modulus(),
    ensures
        t.min_value() <= t.int_value(bits) <= t.max_value(),
        t.int_bits(t.int_value(bits)) == bits,
{
}

} // verus!
