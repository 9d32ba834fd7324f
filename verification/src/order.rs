//! Packing and unpacking of fixed-width words: the bytes of an element, in one
//! of the two byte orders, and the bit pattern that they spell.

use vstd::arithmetic::div_mod::*;
use vstd::prelude::*;

verus! {

/// The order in which the bytes of an element follow each other.
#[derive(Debug, Clone, Copy, PartialEq, Eq, Structural)]
pub enum ByteOrder {
    /// Least significant byte first.
    Little,
    /// Most significant byte first.
    Big,
}

/// 256 to the power of `width`: the number of words of `width` bytes.
pub open spec fn capacity(width: nat) -> nat
    decreases width,
{
    if width == 0 {
        1
    } else {
        256 * capacity((width - 1) as nat)
    }
}

/// The number whose digits to the base 256 are `bytes`, least significant first.
pub open spec fn le_value(bytes: Seq<u8>) -> nat
    decreases bytes.len(),
{
    if bytes.len() == 0 {
        0
    } else {
        bytes[0] as nat + 256 * le_value(bytes.skip(1))
    }
}

/// The lowest `width` digits of `v` to the base 256, least significant first.
pub open spec fn le_bytes(v: nat, width: nat) -> Seq<u8>
    decreases width,
{
    if width == 0 {
        Seq::empty()
    } else {
        seq![(v % 256) as u8] + le_bytes(v / 256, (width - 1) as nat)
    }
}

impl ByteOrder {
    /// The bit pattern that `bytes` spell in this order.
    pub open spec fn value(self, bytes: Seq<u8>) -> nat {
        match self {
            ByteOrder::Little => le_value(bytes),
            ByteOrder::Big => le_value(bytes.reverse()),
        }
    }

    /// The `width` bytes that spell the lowest `width` digits of `v` in this
    /// order.
    pub open spec fn bytes(self, v: nat, width: nat) -> Seq<u8> {
        match self {
            ByteOrder::Little => le_bytes(v, width),
            ByteOrder::Big => le_bytes(v, width).reverse(),
        }
    }
}

/// The capacities of the widths that fit a machine word.
pub proof fn lemma_capacity_values()
    ensures
        capacity(0) == 1,
        capacity(1) == 0x100,
        capacity(2) == 0x1_0000,
        capacity(3) == 0x100_0000,
        capacity(4) == 0x1_0000_0000,
        capacity(5) == 0x100_0000_0000,
        capacity(6) == 0x1_0000_0000_0000,
        capacity(7) == 0x100_0000_0000_0000,
        capacity(8) == 0x1_0000_0000_0000_0000,
{
    reveal_with_fuel(capacity, 9);
}

/// A word of `n` bytes spells a number below `capacity(n)`.
pub proof fn lemma_le_value_bound(bytes: Seq<u8>)
    ensures
        le_value(bytes) < capacity(bytes.len()),
    decreases bytes.len(),
{
    if bytes.len() > 0 {
        lemma_le_value_bound(bytes.skip(1));
    }
}

/// `le_bytes(v, width)` has `width` bytes, and byte `i` is digit `i` of `v`.
pub proof fn lemma_le_bytes_digits(v: nat, width: nat)
    ensures
        le_bytes(v, width).len() == width,
        forall|i: int|
            0 <= i < width ==> #[trigger] le_bytes(v, width)[i] == (v / capacity(i as nat)) % 256,
    decreases width,
{
    if width > 0 {
        let rest = le_bytes(v / 256, (width - 1) as nat);
        lemma_le_bytes_digits(v / 256, (width - 1) as nat);
        assert forall|i: int| 0 <= i < width implies #[trigger] le_bytes(v, width)[i] == (v
            / capacity(i as nat)) % 256 by {
            if i > 0 {
                let c = capacity((i - 1) as nat);
                assert(le_bytes(v, width)[i] == rest[i - 1]);
                assert(rest[i - 1] == ((v / 256) / c) % 256);
                lemma_capacity_positive((i - 1) as nat);
                lemma_div_denominator(v as int, 256, c as int);
                assert(256 * c == capacity(i as nat));
                assert((v / 256) / c == v / capacity(i as nat));
            } else {
                assert(capacity(0) == 1);
                assert(le_bytes(v, width)[0] == v % 256);
                assert(v / 1 == v);
            }
        }
    }
}

/// A capacity is at least 1.
pub proof fn lemma_capacity_positive(width: nat)
    ensures
        capacity(width) >= 1,
    decreases width,
{
    if width > 0 {
        lemma_capacity_positive((width - 1) as nat);
    }
}

/// Packing what a word spells gives the word back.
pub proof fn lemma_le_bytes_of_value(bytes: Seq<u8>)
    ensures
        le_bytes(le_value(bytes), bytes.len()) == bytes,
    decreases bytes.len(),
{
    if bytes.len() > 0 {
        let rest = bytes.skip(1);
        lemma_le_bytes_of_value(rest);
        let v = le_value(bytes);
        assert(v % 256 == bytes[0] && v / 256 == le_value(rest));
        assert(le_bytes(v, bytes.len()) =~= bytes);
    } else {
        assert(le_bytes(le_value(bytes), bytes.len()) =~= bytes);
    }
}

/// Unpacking the `width` bytes of `v` gives `v` back, up to `capacity(width)`.
pub proof fn lemma_le_value_of_bytes(v: nat, width: nat)
    ensures
        le_value(le_bytes(v, width)) == v % capacity(width),
    decreases width,
{
    if width > 0 {
        let c = capacity((width - 1) as nat);
        let word = le_bytes(v, width);
        lemma_le_value_of_bytes(v / 256, (width - 1) as nat);
        lemma_le_bytes_digits(v, width);
        assert(word.skip(1) =~= le_bytes(v / 256, (width - 1) as nat));
        assert(word[0] == v % 256);
        lemma_capacity_positive((width - 1) as nat);
        lemma_mod_breakdown(v as int, 256, c as int);
    }
}

impl ByteOrder {
    /// In either order, packing what a word spells gives the word back.
    pub proof fn lemma_bytes_of_value(self, bytes: Seq<u8>)
        ensures
            self.bytes(self.value(bytes), bytes.len()) == bytes,
    {
        match self {
            ByteOrder::Little => lemma_le_bytes_of_value(bytes),
            ByteOrder::Big => {
                lemma_le_bytes_of_value(bytes.reverse());
                assert(bytes.reverse().reverse() =~= bytes);
            },
        }
    }

    /// In either order, a pattern below `capacity(width)` survives packing
    /// into `width` bytes and unpacking, and the packed word has `width`
    /// bytes.
    pub proof fn lemma_value_of_bytes(self, v: nat, width: nat)
        ensures
            self.bytes(v, width).len() == width,
            self.value(self.bytes(v, width)) == v % capacity(width),
            self.value(self.bytes(v, width)) < capacity(width),
    {
        lemma_le_value_of_bytes(v, width);
        lemma_le_bytes_digits(v, width);
        lemma_capacity_positive(width);
        assert(le_bytes(v, width).reverse().reverse() =~= le_bytes(v, width));
    }

    /// Unpacks the word of `width` bytes that starts at offset `at`: the bit
    /// pattern that those bytes spell in this order.
    pub fn read(self, bytes: &[u8], at: usize, width: usize) -> (v: u64)
        requires
            width <= 8,
            at + width <= bytes.len(),
        ensures
            v == self.value(bytes@.subrange(at as int, at + width)),
            v < capacity(width as nat),
    {
        let ghost word = bytes@.subrange(at as int, at + width);
        let mut acc: u64 = 0;
        let mut k: usize = 0;
        proof {
            lemma_capacity_values();
        }
        match self {
            ByteOrder::Little => {
                assert(word.subrange(width as int, width as int) =~= Seq::<u8>::empty());
                while k < width
                    invariant
                        k <= width <= 8,
                        at + width <= bytes.len(),
                        word == bytes@.subrange(at as int, at + width),
                        acc == le_value(word.subrange(width - k, width as int)),
                        acc < capacity(k as nat),
                    decreases width - k,
                {
                    let ghost tail = word.subrange(width - k, width as int);
                    let ghost next = word.subrange(width - k - 1, width as int);
                    proof {
                        assert(next.skip(1) =~= tail);
                        assert(next[0] == bytes@[at + width - k - 1]);
                        lemma_capacity_values();
                        lemma_le_value_bound(next);
                    }
                    acc = acc * 256 + bytes[at + (width - k - 1)] as u64;
                    k = k + 1;
                }
                assert(word.subrange(0, width as int) =~= word);
            },
            ByteOrder::Big => {
                assert(word.subrange(0, 0).reverse() =~= Seq::<u8>::empty());
                while k < width
                    invariant
                        k <= width <= 8,
                        at + width <= bytes.len(),
                        word == bytes@.subrange(at as int, at + width),
                        acc == le_value(word.subrange(0, k as int).reverse()),
                        acc < capacity(k as nat),
                    decreases width - k,
                {
                    let ghost tail = word.subrange(0, k as int).reverse();
                    let ghost next = word.subrange(0, k + 1).reverse();
                    proof {
                        assert(next.skip(1) =~= tail);
                        assert(next[0] == bytes@[at + k]);
                        lemma_capacity_values();
                        lemma_le_value_bound(next);
                    }
                    acc = acc * 256 + bytes[at + k] as u64;
                    k = k + 1;
                }
                assert(word.subrange(0, width as int) =~= word);
            },
        }
        acc
    }

    /// Packs the lowest `width` bytes of `v` in this order and appends them
    /// to `out`.
    pub fn write(self, v: u64, width: usize, out: &mut Vec<u8>)
        requires
            width <= 8,
        ensures
            final(out)@ == old(out)@ + self.bytes(v as nat, width as nat),
    {
        let ghost word = self.bytes(v as nat, width as nat);
        let mut k: usize = 0;
        proof {
            lemma_le_bytes_digits(v as nat, width as nat);
            lemma_capacity_values();
        }
        match self {
            ByteOrder::Little => {
                let mut rest: u64 = v;
                while k < width
                    invariant
                        k <= width <= 8,
                        word == le_bytes(v as nat, width as nat),
                        word.len() == width,
                        out@ + le_bytes(rest as nat, (width - k) as nat) == old(out)@ + word,
                    decreases width - k,
                {
                    let ghost before = out@;
                    out.push((rest % 256) as u8);
                    assert(out@ + le_bytes((rest / 256) as nat, (width - k - 1) as nat) =~= before
                        + le_bytes(rest as nat, (width - k) as nat));
                    rest = rest / 256;
                    k = k + 1;
                }
                assert(out@ + le_bytes(rest as nat, 0) =~= out@);
            },
            ByteOrder::Big => {
                let mut unit: u64 = 1;
                while k + 1 < width
                    invariant
                        k < 8,
                        width <= 8,
                        width == 0 || k < width,
                        unit == capacity(k as nat),
                    decreases width - k,
                {
                    proof {
                        lemma_capacity_values();
                    }
                    unit = unit * 256;
                    k = k + 1;
                }
                k = 0;
                while k < width
                    invariant
                        k <= width <= 8,
                        word == le_bytes(v as nat, width as nat).reverse(),
                        word.len() == width,
                        k < width ==> unit == capacity((width - 1 - k) as nat),
                        forall|i: int|
                            0 <= i < width ==> #[trigger] le_bytes(v as nat, width as nat)[i]
                                == (v as nat / capacity(i as nat)) % 256,
                        out@ == old(out)@ + word.subrange(0, k as int),
                    decreases width - k,
                {
                    let ghost before = out@;
                    proof {
                        lemma_capacity_positive((width - 1 - k) as nat);
                        assert(word[k as int] == le_bytes(v as nat, width as nat)[width - 1 - k]);
                    }
                    out.push(((v / unit) % 256) as u8);
                    assert(out@ =~= old(out)@ + word.subrange(0, k + 1));
                    unit = unit / 256;
                    k = k + 1;
                }
                assert(word.subrange(0, width as int) =~= word);
            },
        }
    }

    /// The order that a two-byte probe shows: the bytes of the number 1 as
    /// some machine stores it. The low byte first means little, anything
    /// else big.
    pub fn from_probe(probe: [u8; 2]) -> (order: ByteOrder)
        ensures
            order == if probe[0] == 1 {
                ByteOrder::Little
            } else {
                ByteOrder::Big
            },
            probe@ == ByteOrder::Little.bytes(1, 2) ==> order == ByteOrder::Little,
            probe@ == ByteOrder::Big.bytes(1, 2) ==> order == ByteOrder::Big,
    {
        proof {
            lemma_le_bytes_digits(1, 2);
            lemma_capacity_values();
        }
        if probe[0] == 1 {
            ByteOrder::Little
        } else {
            ByteOrder::Big
        }
    }

    /// The byte order of the machine that runs the program.
    pub fn native() -> (order: ByteOrder) {
        ByteOrder::from_probe(native_bytes(1))
    }
}

/// `u16::to_ne_bytes`: the two bytes of `x` as this machine stores them.
/// Which of the two orders that is depends on the machine; the contract
/// claims only that it is one of them.
#[verifier::external_body]
fn native_bytes(x: u16) -> (b: [u8; 2])
    ensures
        b@ == ByteOrder::Little.bytes(x as nat, 2) || b@ == ByteOrder::Big.bytes(x as nat, 2),
{
    x.to_ne_bytes()
}

} // verus!
