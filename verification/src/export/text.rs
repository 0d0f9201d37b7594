//! Exact ASCII text for integers and integer-micrometre coordinates.

use vstd::prelude::*;
use vstd::string::StringSliceAdditionalSpecFns;

verus! {

/// The ASCII digit for a value below ten.
pub open spec fn digit(value: int) -> u8 {
    (48 + value) as u8
}

/// The decimal digits of a natural number, most significant first, with no
/// leading zeros (zero is written `0`).
pub open spec fn decimal_text(value: nat) -> Seq<u8>
    decreases value,
{
    if value < 10 {
        seq![digit(value as int)]
    } else {
        decimal_text(value / 10).push(digit((value % 10) as int))
    }
}

/// Decimal digits with leading zeros up to at least `width` digits.
pub open spec fn padded_decimal_text(value: nat, width: nat) -> Seq<u8> {
    let digits = decimal_text(value);
    if digits.len() >= width {
        digits
    } else {
        Seq::new((width - digits.len()) as nat, |i: int| digit(0)) + digits
    }
}

/// The fractional part of a millimetre value written with as few digits as
/// represent it exactly: nothing for a whole millimetre, else a point and one to
/// three digits.
pub open spec fn fraction_text(fractional: int) -> Seq<u8> {
    if fractional == 0 {
        Seq::empty()
    } else if fractional % 100 == 0 {
        seq![46u8, digit(fractional / 100)]
    } else if fractional % 10 == 0 {
        seq![46u8, digit(fractional / 100), digit((fractional / 10) % 10)]
    } else {
        seq![46u8, digit(fractional / 100), digit((fractional / 10) % 10), digit(fractional % 10)]
    }
}

/// A micrometre coordinate as an exact decimal millimetre value: a minus sign
/// for negative values, the whole millimetres, and the minimal fraction.
pub open spec fn millimeter_text(micrometers: int) -> Seq<u8> {
    let magnitude = if micrometers < 0 {
        -micrometers
    } else {
        micrometers
    };
    let sign: Seq<u8> = if micrometers < 0 {
        seq![45u8]
    } else {
        Seq::empty()
    };
    sign + decimal_text((magnitude / 1000) as nat) + fraction_text(magnitude % 1000)
}

/// The number of decimal digits grows with each power of ten.
pub proof fn lemma_decimal_len(value: nat)
    ensures
        decimal_text(value).len() >= 1,
        value < 10 ==> decimal_text(value).len() == 1,
        10 <= value < 100 ==> decimal_text(value).len() == 2,
        100 <= value < 1000 ==> decimal_text(value).len() == 3,
        1000 <= value ==> decimal_text(value).len() >= 4,
    decreases value,
{
    if value >= 10 {
        lemma_decimal_len(value / 10);
    }
}

/// Appends `bytes`.
pub fn push_bytes(out: &mut Vec<u8>, bytes: &[u8])
    ensures
        final(out)@ == old(out)@ + bytes@,
{
    let mut index: usize = 0;
    while index < bytes.len()
        invariant
            index <= bytes@.len(),
            out@ == old(out)@ + bytes@.take(index as int),
        decreases bytes@.len() - index,
    {
        out.push(bytes[index]);
        index = index + 1;
        proof {
            assert(out@ =~= old(out)@ + bytes@.take(index as int));
        }
    }
    proof {
        assert(bytes@.take(index as int) =~= bytes@);
    }
}

/// Appends the UTF-8 bytes of `text`.
pub fn push_str(out: &mut Vec<u8>, text: &str)
    ensures
        final(out)@ == old(out)@ + text.spec_bytes(),
{
    push_bytes(out, text.as_bytes());
}

/// Appends the decimal digits of `value`.
pub fn push_decimal(out: &mut Vec<u8>, value: u64)
    ensures
        final(out)@ == old(out)@ + decimal_text(value as nat),
    decreases value,
{
    if value >= 10 {
        push_decimal(out, value / 10);
    }
    let last = (value % 10) as u8;
    out.push(48 + last);
    proof {
        assert(out@ =~= old(out)@ + decimal_text(value as nat));
    }
}

/// Appends the decimal digits of `value` padded with zeros to four digits.
pub fn push_padded4(out: &mut Vec<u8>, value: u64)
    ensures
        final(out)@ == old(out)@ + padded_decimal_text(value as nat, 4),
{
    proof {
        lemma_decimal_len(value as nat);
    }
    let ghost start = out@;
    let zeros: usize = if value < 10 {
        3
    } else if value < 100 {
        2
    } else if value < 1000 {
        1
    } else {
        0
    };
    let mut count: usize = 0;
    while count < zeros
        invariant
            count <= zeros,
            zeros <= 3,
            out@ == start + Seq::new(count as nat, |i: int| digit(0)),
        decreases zeros - count,
    {
        out.push(48);
        count = count + 1;
        proof {
            assert(out@ =~= start + Seq::new(count as nat, |i: int| digit(0)));
        }
    }
    push_decimal(out, value);
    proof {
        if zeros == 0 {
            assert(out@ =~= start + padded_decimal_text(value as nat, 4));
        } else {
            assert(out@ =~= start + padded_decimal_text(value as nat, 4));
        }
    }
}

/// Appends an integer micrometre coordinate as an exact millimetre decimal.
pub fn write_millimeters(out: &mut Vec<u8>, micrometers: i64)
    ensures
        final(out)@ == old(out)@ + millimeter_text(micrometers as int),
{
    let ghost start = out@;
    let value = micrometers as i128;
    if value < 0 {
        out.push(45);
    }
    let ghost signed = out@;
    let magnitude: i128 = if value < 0 {
        -value
    } else {
        value
    };
    let whole = (magnitude / 1000) as u64;
    let fractional = magnitude % 1000;
    push_decimal(out, whole);
    let ghost with_whole = out@;
    if fractional != 0 {
        out.push(46);
        out.push(48 + (fractional / 100) as u8);
        if fractional % 100 != 0 {
            out.push(48 + ((fractional / 10) % 10) as u8);
            if fractional % 10 != 0 {
                out.push(48 + (fractional % 10) as u8);
            }
        }
    }
    proof {
        assert(out@ =~= with_whole + fraction_text(fractional as int));
        assert(out@ =~= start + millimeter_text(micrometers as int));
    }
}

} // verus!
