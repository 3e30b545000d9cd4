//! Text of numbers: decimal and hexadecimal digits, as they stand in messages and names.
use vstd::prelude::*;

verus! {

/// The lower-case digit of `d` in base sixteen (and in base ten, below ten).
pub open spec fn digit(d: int) -> char {
    if d < 10 {
        (d + 48) as char
    } else {
        (d + 87) as char
    }
}

/// `n` in base ten, without leading zeros.
pub open spec fn decimal(n: nat) -> Seq<char>
    decreases n,
{
    if n < 10 {
        seq![digit(n as int)]
    } else {
        decimal(n / 10).push(digit((n % 10) as int))
    }
}

/// `n` in base sixteen, without leading zeros.
pub open spec fn hexadecimal(n: nat) -> Seq<char>
    decreases n,
{
    if n < 16 {
        seq![digit(n as int)]
    } else {
        hexadecimal(n / 16).push(digit((n % 16) as int))
    }
}

/// The lowest `width` digits of `n` in base sixteen, zeros in front included.
pub open spec fn hex_padded(n: nat, width: nat) -> Seq<char>
    decreases width,
{
    if width == 0 {
        seq![]
    } else {
        hex_padded(n / 16, (width - 1) as nat).push(digit((n % 16) as int))
    }
}

/// The one-character text of a digit.
fn digit_text(d: u64) -> (r: &'static str)
    requires
        d < 16,
    ensures
        r@ == seq![digit(d as int)],
{
    proof {
        reveal_strlit("0");
        reveal_strlit("1");
        reveal_strlit("2");
        reveal_strlit("3");
        reveal_strlit("4");
        reveal_strlit("5");
        reveal_strlit("6");
        reveal_strlit("7");
        reveal_strlit("8");
        reveal_strlit("9");
        reveal_strlit("a");
        reveal_strlit("b");
        reveal_strlit("c");
        reveal_strlit("d");
        reveal_strlit("e");
        reveal_strlit("f");
    }
    match d {
        0 => "0",
        1 => "1",
        2 => "2",
        3 => "3",
        4 => "4",
        5 => "5",
        6 => "6",
        7 => "7",
        8 => "8",
        9 => "9",
        10 => "a",
        11 => "b",
        12 => "c",
        13 => "d",
        14 => "e",
        _ => "f",
    }
}

/// Appends `n` in base ten.
pub fn push_decimal(out: &mut String, n: u64)
    ensures
        final(out)@ == old(out)@ + decimal(n as nat),
    decreases n,
{
    if n < 10 {
        out.append(digit_text(n));
    } else {
        push_decimal(out, n / 10);
        out.append(digit_text(n % 10));
        assert(out@ =~= old(out)@ + decimal(n as nat));
    }
}

/// Appends `n` in base sixteen.
pub fn push_hexadecimal(out: &mut String, n: u64)
    ensures
        final(out)@ == old(out)@ + hexadecimal(n as nat),
    decreases n,
{
    if n < 16 {
        out.append(digit_text(n));
    } else {
        push_hexadecimal(out, n / 16);
        out.append(digit_text(n % 16));
        assert(out@ =~= old(out)@ + hexadecimal(n as nat));
    }
}

/// Appends the lowest `width` base-sixteen digits of `n`.
pub fn push_hex_padded(out: &mut String, n: u64, width: u64)
    ensures
        final(out)@ == old(out)@ + hex_padded(n as nat, width as nat),
    decreases width,
{
    if width == 0 {
        assert(out@ =~= old(out)@ + hex_padded(n as nat, 0));
    } else {
        push_hex_padded(out, n / 16, width - 1);
        out.append(digit_text(n % 16));
        assert(out@ =~= old(out)@ + hex_padded(n as nat, width as nat));
    }
}

/// The number that a digit stands for, by where it stands in the alphabet; -1 for what is no
/// digit.
pub open spec fn digit_value(c: char) -> int {
    if '0' <= c <= '9' {
        c as int - '0' as int
    } else if 'a' <= c <= 'f' {
        c as int - 'a' as int + 10
    } else {
        -1
    }
}

/// The number that a text of digits spells.
pub open spec fn numeral(base: int, s: Seq<char>) -> int
    decreases s.len(),
{
    if s.len() == 0 {
        0
    } else {
        numeral(base, s.drop_last()) * base + digit_value(s.last())
    }
}

/// The text of a number in base ten reads back as the number. It is all digits, without a
/// leading zero.
pub proof fn law_decimal_reads_back(n: nat)
    ensures
        numeral(10, decimal(n)) == n,
        decimal(n).len() > 0,
        forall|i: int| 0 <= i < decimal(n).len() ==> '0' <= #[trigger] decimal(n)[i] <= '9',
        decimal(n)[0] == '0' ==> decimal(n).len() == 1,
    decreases n,
{
    reveal_with_fuel(numeral, 2);
    if n >= 10 {
        law_decimal_reads_back(n / 10);
        assert(decimal(n).drop_last() =~= decimal(n / 10));
        assert(decimal(n)[0] == decimal(n / 10)[0]);
        assert(decimal(n / 10)[0] == '0' ==> n / 10 == 0);
    } else {
        assert(decimal(n).drop_last() =~= seq![]);
    }
}

/// The text of a number in base sixteen reads back as the number. It is all lower-case
/// digits, without a leading zero.
pub proof fn law_hexadecimal_reads_back(n: nat)
    ensures
        numeral(16, hexadecimal(n)) == n,
        hexadecimal(n).len() > 0,
        forall|i: int|
            0 <= i < hexadecimal(n).len() ==> 0 <= digit_value(#[trigger] hexadecimal(n)[i]) < 16,
        hexadecimal(n)[0] == '0' ==> hexadecimal(n).len() == 1,
    decreases n,
{
    reveal_with_fuel(numeral, 2);
    if n >= 16 {
        law_hexadecimal_reads_back(n / 16);
        assert(hexadecimal(n).drop_last() =~= hexadecimal(n / 16));
        assert(hexadecimal(n)[0] == hexadecimal(n / 16)[0]);
        assert(hexadecimal(n / 16)[0] == '0' ==> n / 16 == 0);
    } else {
        assert(hexadecimal(n).drop_last() =~= seq![]);
    }
}

/// The padded text of a number in base sixteen has its width, and reads back as the number
/// where the number fits the width.
pub proof fn law_hex_padded_reads_back(n: nat, width: nat)
    ensures
        hex_padded(n, width).len() == width,
        forall|i: int|
            0 <= i < width ==> 0 <= digit_value(#[trigger] hex_padded(n, width)[i]) < 16,
        n < vstd::arithmetic::power::pow(16, width) ==> numeral(16, hex_padded(n, width)) == n,
    decreases width,
{
    reveal(vstd::arithmetic::power::pow);
    if width > 0 {
        law_hex_padded_reads_back(n / 16, (width - 1) as nat);
        assert(hex_padded(n, width).drop_last() =~= hex_padded(n / 16, (width - 1) as nat));
    }
}

/// Whether `part` stands somewhere in `whole`.
pub open spec fn mentions(whole: Seq<char>, part: Seq<char>) -> bool {
    exists|at: int|
        0 <= at <= whole.len() - part.len() && #[trigger] whole.subrange(at, at + part.len())
            == part
}

/// What stands between a beginning and an end is mentioned.
pub proof fn lemma_mentions(before: Seq<char>, part: Seq<char>, behind: Seq<char>)
    ensures
        mentions(before + part + behind, part),
{
    let whole = before + part + behind;
    let at = before.len() as int;
    assert(whole.subrange(at, at + part.len()) =~= part);
}

} // verus!
