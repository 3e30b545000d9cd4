//! Unsigned integers as bytes, in either byte order.
//!
//! A region is shared by processes of one machine, so its numeric fields stand in the
//! machine's own byte order. The order is a value here: everything that reads or writes a
//! field takes it as an argument, and [`ByteOrder::native`] asks the machine for it.
use vstd::prelude::*;

verus! {

/// Which end of a number comes first in memory.
#[derive(Copy, Clone, Debug, PartialEq, Eq, Structural)]
pub enum ByteOrder {
    /// Least significant byte first.
    Little,
    /// Most significant byte first.
    Big,
}

/// The number of values that `width` bytes can hold.
pub open spec fn int_count(width: nat) -> nat
    decreases width,
{
    if width == 0 {
        1
    } else {
        256 * int_count((width - 1) as nat)
    }
}

/// The lowest `width` bytes of `n`, least significant first.
pub open spec fn little_bytes(n: nat, width: nat) -> Seq<u8>
    decreases width,
{
    if width == 0 {
        seq![]
    } else {
        seq![(n % 256) as u8] + little_bytes(n / 256, (width - 1) as nat)
    }
}

/// The number that `bytes` spell, least significant first.
pub open spec fn little_value(bytes: Seq<u8>) -> nat
    decreases bytes.len(),
{
    if bytes.len() == 0 {
        0
    } else {
        bytes[0] as nat + 256 * little_value(bytes.drop_first())
    }
}

/// The lowest `width` bytes of `n` in the given order.
pub open spec fn int_bytes(order: ByteOrder, n: nat, width: nat) -> Seq<u8> {
    match order {
        ByteOrder::Little => little_bytes(n, width),
        ByteOrder::Big => little_bytes(n, width).reverse(),
    }
}

/// The number that `bytes` spell in the given order.
pub open spec fn int_value(order: ByteOrder, bytes: Seq<u8>) -> nat {
    match order {
        ByteOrder::Little => little_value(bytes),
        ByteOrder::Big => little_value(bytes.reverse()),
    }
}

/// The byte order of the machine that this runs on.
pub open spec fn native_order() -> ByteOrder {
    match vstd::endian::endianness() {
        vstd::endian::Endian::Little => ByteOrder::Little,
        vstd::endian::Endian::Big => ByteOrder::Big,
    }
}

proof fn lemma_little_bytes(n: nat, width: nat)
    ensures
        little_bytes(n, width).len() == width,
        n < int_count(width) ==> little_value(little_bytes(n, width)) == n,
    decreases width,
{
    if width > 0 {
        lemma_little_bytes(n / 256, (width - 1) as nat);
        let tail = little_bytes(n / 256, (width - 1) as nat);
        assert(little_bytes(n, width).drop_first() =~= tail);
    }
}

proof fn lemma_little_value(bytes: Seq<u8>)
    ensures
        little_value(bytes) < int_count(bytes.len()),
        little_bytes(little_value(bytes), bytes.len()) == bytes,
    decreases bytes.len(),
{
    if bytes.len() > 0 {
        let rest = bytes.drop_first();
        lemma_little_value(rest);
        assert(little_value(bytes) % 256 == bytes[0]);
        assert(little_value(bytes) / 256 == little_value(rest));
        assert(little_bytes(little_value(bytes), bytes.len()) =~= bytes);
    } else {
        assert(little_bytes(0, 0) =~= bytes);
    }
}

/// Writing a number and reading it back gives the number, for every number that fits.
pub proof fn law_number_survives(order: ByteOrder, n: nat, width: nat)
    requires
        n < int_count(width),
    ensures
        int_value(order, int_bytes(order, n, width)) == n,
{
    lemma_little_bytes(n, width);
    assert(little_bytes(n, width).reverse().reverse() =~= little_bytes(n, width));
}

/// Reading bytes as a number and writing the number gives the bytes back.
pub proof fn law_bytes_survive(order: ByteOrder, bytes: Seq<u8>)
    ensures
        int_value(order, bytes) < int_count(bytes.len()),
        int_bytes(order, int_value(order, bytes), bytes.len()) == bytes,
{
    lemma_little_value(bytes);
    lemma_little_value(bytes.reverse());
    assert(bytes.reverse().reverse() =~= bytes);
}

/// A number written in `width` bytes takes `width` bytes.
pub broadcast proof fn lemma_int_bytes_len(order: ByteOrder, n: nat, width: nat)
    ensures
        #[trigger] int_bytes(order, n, width).len() == width,
{
    lemma_little_bytes(n, width);
}

/// How many values the widths in use can hold.
pub proof fn lemma_int_counts()
    ensures
        int_count(2) == 0x1_0000,
        int_count(4) == 0x1_0000_0000,
        int_count(8) == 0x1_0000_0000_0000_0000,
{
    reveal_with_fuel(int_count, 9);
}

proof fn lemma_int_count_grows(a: nat, b: nat)
    requires
        a <= b,
    ensures
        int_count(a) <= int_count(b),
    decreases b,
{
    if a < b {
        lemma_int_count_grows(a, (b - 1) as nat);
    }
}

/// A number of up to eight bytes fits a `u64`.
pub proof fn lemma_value_fits(order: ByteOrder, bytes: Seq<u8>)
    requires
        bytes.len() <= 8,
    ensures
        int_value(order, bytes) <= u64::MAX,
{
    law_bytes_survive(order, bytes);
    lemma_int_count_grows(bytes.len(), 8);
    lemma_int_counts();
}

/// A number of up to four bytes fits a `u32`.
pub proof fn lemma_value_fits_u32(order: ByteOrder, bytes: Seq<u8>)
    requires
        bytes.len() <= 4,
    ensures
        int_value(order, bytes) <= u32::MAX,
{
    law_bytes_survive(order, bytes);
    lemma_int_count_grows(bytes.len(), 4);
    lemma_int_counts();
}

/// The two byte orders spell the number one in two bytes differently.
proof fn lemma_spellings_of_one()
    ensures
        int_bytes(ByteOrder::Little, 1, 2) == seq![1u8, 0u8],
        int_bytes(ByteOrder::Big, 1, 2) == seq![0u8, 1u8],
        int_bytes(ByteOrder::Little, 1, 2) != int_bytes(ByteOrder::Big, 1, 2),
{
    lemma_int_bytes_len(ByteOrder::Little, 1, 2);
    reveal_with_fuel(little_bytes, 3);
    assert(int_bytes(ByteOrder::Little, 1, 2) =~= seq![1u8, 0u8]);
    assert(int_bytes(ByteOrder::Big, 1, 2) =~= seq![0u8, 1u8]);
    assert(seq![1u8, 0u8][0] != seq![0u8, 1u8][0]);
}

/// The bytes of `n` as they stand in this machine's memory, by `bytemuck::bytes_of`, which
/// reinterprets a value's own bytes: `n` in the byte order of the hardware. Which of the two
/// that is depends on the machine, so that is not stated.
#[verifier::external_body]
fn native_bytes(n: u16) -> (r: Vec<u8>)
    ensures
        r@ == int_bytes(native_order(), n as nat, 2),
{
    bytemuck::bytes_of(&n).to_vec()
}

impl ByteOrder {
    /// The order in which `probe` spells the number one in two bytes.
    pub fn of(probe: &[u8]) -> (r: ByteOrder)
        requires
            probe@ == int_bytes(ByteOrder::Little, 1, 2) || probe@ == int_bytes(
                ByteOrder::Big,
                1,
                2,
            ),
        ensures
            probe@ == int_bytes(r, 1, 2),
    {
        proof {
            lemma_spellings_of_one();
        }
        if probe[0] == 1 {
            ByteOrder::Little
        } else {
            ByteOrder::Big
        }
    }

    /// This machine's byte order.
    pub fn native() -> (r: ByteOrder)
        ensures
            r == native_order(),
    {
        let probe = native_bytes(1);
        proof {
            lemma_spellings_of_one();
        }
        ByteOrder::of(probe.as_slice())
    }

    /// The lowest `width` bytes of `n`.
    pub fn encode(self, n: u64, width: usize) -> (r: Vec<u8>)
        ensures
            r@ == int_bytes(self, n as nat, width as nat),
    {
        let mut little: Vec<u8> = Vec::new();
        let mut rest: u64 = n;
        let mut i: usize = 0;
        while i < width
            invariant
                i <= width,
                little@ + little_bytes(rest as nat, (width - i) as nat) == little_bytes(
                    n as nat,
                    width as nat,
                ),
                little@.len() == i,
            decreases width - i,
        {
            let ghost before = little@;
            let ghost tail = little_bytes(rest as nat / 256, (width - i - 1) as nat);
            assert(before + (seq![(rest % 256) as u8] + tail) =~= before.push((rest % 256) as u8)
                + tail);
            little.push((rest % 256) as u8);
            rest = rest / 256;
            i += 1;
        }
        proof {
            lemma_little_bytes(n as nat, width as nat);
            assert(little@ =~= little_bytes(n as nat, width as nat));
        }
        match self {
            ByteOrder::Little => little,
            ByteOrder::Big => {
                let mut big: Vec<u8> = Vec::new();
                let mut j: usize = width;
                while j > 0
                    invariant
                        j <= width,
                        little@.len() == width,
                        big@ == little@.subrange(j as int, width as int).reverse(),
                    decreases j,
                {
                    j -= 1;
                    big.push(little[j]);
                    assert(big@ =~= little@.subrange(j as int, width as int).reverse());
                }
                assert(little@.subrange(0, width as int) =~= little@);
                big
            },
        }
    }

    /// The number that up to eight bytes spell.
    pub fn decode(self, bytes: &[u8]) -> (r: u64)
        requires
            bytes@.len() <= 8,
        ensures
            r == int_value(self, bytes@),
    {
        let len: usize = bytes.len();
        let mut acc: u64 = 0;
        match self {
            ByteOrder::Little => {
                let mut i: usize = len;
                assert(bytes@.subrange(len as int, len as int) =~= seq![]);
                while i > 0
                    invariant
                        i <= len <= 8,
                        len == bytes@.len(),
                        acc == little_value(bytes@.subrange(i as int, len as int)),
                    decreases i,
                {
                    let ghost rest = bytes@.subrange(i as int, len as int);
                    i -= 1;
                    proof {
                        let now = bytes@.subrange(i as int, len as int);
                        assert(now.drop_first() =~= rest);
                        lemma_value_fits(ByteOrder::Little, now);
                    }
                    acc = bytes[i] as u64 + 256 * acc;
                }
                assert(bytes@.subrange(0, len as int) =~= bytes@);
            },
            ByteOrder::Big => {
                let mut i: usize = 0;
                assert(bytes@.take(0).reverse() =~= seq![]);
                while i < len
                    invariant
                        i <= len <= 8,
                        len == bytes@.len(),
                        acc == little_value(bytes@.take(i as int).reverse()),
                    decreases len - i,
                {
                    proof {
                        let now = bytes@.take(i + 1).reverse();
                        assert(now.drop_first() =~= bytes@.take(i as int).reverse());
                        lemma_value_fits(ByteOrder::Little, now);
                    }
                    acc = bytes[i] as u64 + 256 * acc;
                    i += 1;
                }
                assert(bytes@.take(len as int) =~= bytes@);
            },
        }
        acc
    }
}

proof fn lemma_little_digit(n: nat, width: nat, i: int)
    requires
        0 <= i < width,
    ensures
        little_bytes(n, width).len() == width,
        little_bytes(n, width)[i] as int == (n as int / vstd::arithmetic::power::pow(
            256,
            i as nat,
        )) % 256,
    decreases width,
{
    lemma_little_bytes(n, width);
    if i == 0 {
        vstd::arithmetic::power::lemma_pow0(256);
    } else {
        lemma_little_digit(n / 256, (width - 1) as nat, i - 1);
        let p = vstd::arithmetic::power::pow(256, (i - 1) as nat);
        vstd::arithmetic::power::lemma_pow_positive(256, (i - 1) as nat);
        reveal(vstd::arithmetic::power::pow);
        assert(vstd::arithmetic::power::pow(256, i as nat) == 256 * p);
        vstd::arithmetic::div_mod::lemma_div_denominator(n as int, 256, p);
    }
}

/// Byte `i` of a number, counted from its least significant end, is its digit `i` in base
/// 256; the other order is the same bytes from the other end.
pub proof fn law_bytes_are_digits(n: nat, width: nat, i: int)
    requires
        0 <= i < width,
    ensures
        int_bytes(ByteOrder::Little, n, width)[i] as int == (n as int
            / vstd::arithmetic::power::pow(256, i as nat)) % 256,
        int_bytes(ByteOrder::Big, n, width)[width - 1 - i] == int_bytes(
            ByteOrder::Little,
            n,
            width,
        )[i],
{
    lemma_little_digit(n, width, i);
}

/// The machine's byte order is little-endian exactly where its hardware is.
pub proof fn law_native_order_is_the_hardwares()
    ensures
        native_order() is Little <==> vstd::endian::endianness() is Little,
        native_order() is Big <==> vstd::endian::endianness() is Big,
{
}

} // verus!
