//! Numbers as text.
use vstd::prelude::*;
use vstd::slice::slice_subrange;

use crate::console::TextOutput;

verus! {

/// The decimal digits of a number.
pub open spec fn decimal(n: u64) -> Seq<u8>
    decreases n,
{
    if n < 10 {
        seq![(0x30 + n) as u8]
    } else {
        decimal(n / 10).push((0x30 + n % 10) as u8)
    }
}

/// A digit, at most 15.
pub open spec fn digit(d: int) -> u8 {
    if d < 10 {
        (0x30 + d) as u8
    } else {
        (0x61 + (d - 10)) as u8
    }
}

/// The hexadecimal digits of a number, in lower case.
pub open spec fn hex(n: u64) -> Seq<u8>
    decreases n,
{
    if n < 16 {
        seq![digit(n as int)]
    } else {
        hex(n / 16).push(digit((n % 16) as int))
    }
}

/// The two hexadecimal digits of a byte.
pub open spec fn hex_byte(b: u8) -> Seq<u8> {
    seq![digit((b / 16) as int), digit((b % 16) as int)]
}

/// Ten to the power `n`.
spec fn power_of_ten(n: int) -> int
    decreases n,
{
    if n <= 0 {
        1
    } else {
        10 * power_of_ten(n - 1)
    }
}

/// Writes a number in decimal digits.
pub fn write_number<O: TextOutput>(output: &mut O, value: u64)
    ensures
        final(output).text() == old(output).text() + decimal(value),
{
    let mut bytes = [0u8; 20];
    let mut rest: u64 = value;
    let mut index: usize = 19;
    proof {
        reveal_with_fuel(power_of_ten, 21);
    }
    bytes[19] = 0x30 + (rest % 10) as u8;
    assert(bytes@.subrange(19, 20) =~= seq![(0x30 + rest % 10) as u8]);
    while rest >= 10
        invariant
            index <= 19,
            rest < power_of_ten(index + 1),
            bytes@.len() == 20,
            bytes@[index as int] == 0x30 + rest % 10,
            decimal(value) == (if rest < 10 {
                bytes@.subrange(index as int, 20)
            } else {
                decimal(rest / 10) + bytes@.subrange(index as int, 20)
            }),
        decreases rest,
    {
        let ghost before = bytes@;
        let ghost earlier = rest;
        proof {
            if index == 0 {
                reveal_with_fuel(power_of_ten, 2);
            }
        }
        rest = rest / 10;
        index = index - 1;
        bytes[index] = 0x30 + (rest % 10) as u8;
        assert(bytes@.subrange(index as int, 20) =~= seq![(0x30 + rest % 10) as u8]
            + before.subrange(index + 1, 20));
        assert(decimal(earlier / 10) + before.subrange(index + 1, 20) =~= if rest < 10 {
            bytes@.subrange(index as int, 20)
        } else {
            decimal(rest / 10) + bytes@.subrange(index as int, 20)
        });
    }
    output.write_bytes(slice_subrange(&bytes, index, 20));
}

/// Writes a digit.
fn write_digit<O: TextOutput>(output: &mut O, d: u8)
    requires
        d < 16,
    ensures
        final(output).text() == old(output).text().push(digit(d as int)),
{
    let bytes = [if d < 10 {
        0x30 + d
    } else {
        0x61 + (d - 10)
    }; 1];
    let ghost before = output.text();
    output.write_bytes(&bytes);
    assert(output.text() =~= before.push(digit(d as int)));
}

/// Writes a number in hexadecimal digits.
pub fn write_hex<O: TextOutput>(output: &mut O, value: u64)
    ensures
        final(output).text() == old(output).text() + hex(value),
    decreases value,
{
    let ghost before = output.text();
    if value >= 16 {
        write_hex(output, value / 16);
    }
    write_digit(output, (value % 16) as u8);
    assert(output.text() =~= before + hex(value));
}

/// Writes the two hexadecimal digits of a byte.
pub fn write_hex_byte<O: TextOutput>(output: &mut O, value: u8)
    ensures
        final(output).text() == old(output).text() + hex_byte(value),
{
    let ghost before = output.text();
    write_digit(output, value / 16);
    write_digit(output, value % 16);
    assert(output.text() =~= before + hex_byte(value));
}

/// The number that hexadecimal digits stand for.
pub open spec fn hex_value(digits: Seq<u8>) -> int
    decreases digits.len(),
{
    if digits.len() == 0 {
        0
    } else {
        let d = digits.last();
        16 * hex_value(digits.drop_last()) + if d <= 0x39 {
            d - 0x30
        } else {
            d - 0x61 + 10
        }
    }
}

/// A number is shown in hexadecimal digits that stand for it, without a zero in front of another
/// digit. They are decimal digits and small letters up to `f`.
pub proof fn law_hex_digits_stand_for_the_number(n: u64)
    ensures
        hex_value(hex(n)) == n,
        hex(n).len() >= 1,
        hex(n)[0] == 0x30 ==> n == 0 && hex(n).len() == 1,
        forall|i: int|
            0 <= i < hex(n).len() ==> 0x30 <= #[trigger] hex(n)[i] <= 0x39 || 0x61 <= hex(n)[i]
                <= 0x66,
    decreases n,
{
    reveal_with_fuel(hex_value, 2);
    if n >= 16 {
        law_hex_digits_stand_for_the_number(n / 16);
        assert(hex(n).drop_last() =~= hex(n / 16));
        assert(hex(n)[0] == hex(n / 16)[0]);
        assert forall|i: int| 0 <= i < hex(n).len() implies 0x30 <= #[trigger] hex(n)[i] <= 0x39
            || 0x61 <= hex(n)[i] <= 0x66 by {
            if i < hex(n / 16).len() {
                assert(hex(n)[i] == hex(n / 16)[i]);
            }
        }
    } else {
        assert(hex(n).drop_last() =~= Seq::empty());
    }
}

/// A byte is shown in two hexadecimal digits that stand for it.
pub proof fn law_two_digits_stand_for_a_byte(b: u8)
    ensures
        hex_byte(b).len() == 2,
        hex_value(hex_byte(b)) == b,
{
    reveal_with_fuel(hex_value, 3);
    assert(hex_byte(b).drop_last() =~= seq![digit((b / 16) as int)]);
    assert(hex_byte(b).drop_last().drop_last() =~= Seq::empty());
}

} // verus!
