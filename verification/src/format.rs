//! Pure byte-size formatting with 1024-based units: below one KiB the raw
//! byte count is rendered with the unit "Bytes"; from one KiB upward the
//! largest applicable binary unit is selected and the quotient is rendered
//! with two decimal digits, rounded half-up (a fraction that rounds to one
//! hundred hundredths carries into the whole part).

use vstd::prelude::*;

verus! {

/// One kibibyte.
pub const KIB: u128 = 1024;

/// One mebibyte.
pub const MIB: u128 = 1024 * 1024;

/// One gibibyte.
pub const GIB: u128 = 1024 * 1024 * 1024;

/// One tebibyte.
pub const TIB: u128 = 1024 * 1024 * 1024 * 1024;

/// One pebibyte.
pub const PIB: u128 = 1024 * 1024 * 1024 * 1024 * 1024;

/// One exbibyte.
pub const EIB: u128 = 1024 * 1024 * 1024 * 1024 * 1024 * 1024;

/// One zebibyte.
pub const ZIB: u128 = 1024 * 1024 * 1024 * 1024 * 1024 * 1024 * 1024;

/// One yobibyte.
pub const YIB: u128 = 1024 * 1024 * 1024 * 1024 * 1024 * 1024 * 1024 * 1024;

/// The one-character string for a decimal digit.
pub open spec fn spec_digit_seq(d: int) -> Seq<char> {
    if d == 0 {
        "0"@
    } else if d == 1 {
        "1"@
    } else if d == 2 {
        "2"@
    } else if d == 3 {
        "3"@
    } else if d == 4 {
        "4"@
    } else if d == 5 {
        "5"@
    } else if d == 6 {
        "6"@
    } else if d == 7 {
        "7"@
    } else if d == 8 {
        "8"@
    } else {
        "9"@
    }
}

/// The decimal rendering of a number: most significant digit first, no
/// leading zeros except for zero itself.
pub open spec fn spec_decimal_digits(n: nat) -> Seq<char>
    decreases n,
{
    if n < 10 {
        spec_digit_seq(n as int)
    } else {
        spec_decimal_digits(n / 10) + spec_digit_seq((n % 10) as int)
    }
}

/// The fraction `n % unit / unit` in hundredths, rounded half-up; one
/// hundred means the rounding carries into the whole part.
pub open spec fn spec_scaled_hundredths(n: nat, unit: nat) -> nat {
    (200 * (n % unit) + unit) / (2 * unit)
}

/// The quotient `n / unit` rendered with two decimal digits.
pub open spec fn spec_scaled_digits(n: nat, unit: nat) -> Seq<char> {
    let hundredths = spec_scaled_hundredths(n, unit);
    let whole = if hundredths == 100 {
        n / unit + 1
    } else {
        n / unit
    };
    let frac = if hundredths == 100 {
        0nat
    } else {
        hundredths
    };
    spec_decimal_digits(whole) + "."@ + spec_digit_seq((frac / 10) as int) + spec_digit_seq(
        (frac % 10) as int,
    )
}

/// The rendering of a byte count: a raw count below one KiB, otherwise the
/// two-decimal quotient of the largest applicable binary unit.
pub open spec fn spec_format_byte_size(n: nat) -> Seq<char> {
    if n < KIB as nat {
        spec_decimal_digits(n) + " Bytes"@
    } else if n < MIB as nat {
        spec_scaled_digits(n, KIB as nat) + " KiB"@
    } else if n < GIB as nat {
        spec_scaled_digits(n, MIB as nat) + " MiB"@
    } else if n < TIB as nat {
        spec_scaled_digits(n, GIB as nat) + " GiB"@
    } else if n < PIB as nat {
        spec_scaled_digits(n, TIB as nat) + " TiB"@
    } else if n < EIB as nat {
        spec_scaled_digits(n, PIB as nat) + " PiB"@
    } else if n < ZIB as nat {
        spec_scaled_digits(n, EIB as nat) + " EiB"@
    } else if n < YIB as nat {
        spec_scaled_digits(n, ZIB as nat) + " ZiB"@
    } else {
        spec_scaled_digits(n, YIB as nat) + " YiB"@
    }
}

/// Appends one decimal digit.
fn append_digit(out: &mut String, d: u8)
    requires
        d < 10,
    ensures
        final (out)@ == old(out)@ + spec_digit_seq(d as int),
{
    let piece: &str = if d == 0 {
        "0"
    } else if d == 1 {
        "1"
    } else if d == 2 {
        "2"
    } else if d == 3 {
        "3"
    } else if d == 4 {
        "4"
    } else if d == 5 {
        "5"
    } else if d == 6 {
        "6"
    } else if d == 7 {
        "7"
    } else if d == 8 {
        "8"
    } else {
        "9"
    };
    out.append(piece);
}

/// Appends the decimal rendering of a number, most significant digit
/// first.
fn append_decimal(out: &mut String, n: u128)
    ensures
        final (out)@ == old(out)@ + spec_decimal_digits(n as nat),
    decreases n,
{
    if n >= 10 {
        append_decimal(out, n / 10);
        append_digit(out, (n % 10) as u8);
        proof {
            assert(out@ =~= old(out)@ + spec_decimal_digits(n as nat));
        }
    } else {
        append_digit(out, n as u8);
    }
}

/// Appends the quotient `n / unit` with two decimal digits, rounded
/// half-up.
fn append_scaled(out: &mut String, n: u128, unit: u128)
    requires
        KIB <= unit <= YIB,
    ensures
        final (out)@ == old(out)@ + spec_scaled_digits(n as nat, unit as nat),
{
    let whole: u128 = n / unit;
    let rem: u128 = n % unit;
    proof {
        vstd::arithmetic::div_mod::lemma_fundamental_div_mod(n as int, unit as int);
        assert((200 * (rem as int) + unit as int) <= u128::MAX as int);
    }
    let scaled: u128 = 200 * rem + unit;
    let hundredths: u128 = scaled / (2 * unit);
    proof {
        vstd::arithmetic::div_mod::lemma_fundamental_div_mod(scaled as int, 2 * unit as int);
        assert(hundredths <= 100) by (nonlinear_arith)
            requires
                2 * (unit as int) * (hundredths as int) + (scaled as int) % (2 * (unit as int))
                    == scaled as int,
                0 <= (scaled as int) % (2 * (unit as int)),
                scaled as int <= 201 * (unit as int) - 200,
                unit as int >= 1024,
        ;
        assert(whole as int + 1 <= u128::MAX as int) by (nonlinear_arith)
            requires
                (unit as int) * (whole as int) <= n as int,
                n as int <= u128::MAX as int,
                unit as int >= 1024,
                whole as int >= 0,
        ;
    }
    let w: u128 = if hundredths == 100 {
        whole + 1
    } else {
        whole
    };
    let frac: u128 = if hundredths == 100 {
        0
    } else {
        hundredths
    };
    append_decimal(out, w);
    out.append(".");
    append_digit(out, (frac / 10) as u8);
    append_digit(out, (frac % 10) as u8);
    proof {
        assert(out@ =~= old(out)@ + spec_scaled_digits(n as nat, unit as nat));
    }
}

/// Renders a byte count with binary units, as the display step does after
/// the counting core has run.
pub fn format_byte_size(bytes: u128) -> (s: String)
    ensures
        s@ == spec_format_byte_size(bytes as nat),
{
    let mut out = String::new();
    if bytes < KIB {
        append_decimal(&mut out, bytes);
        out.append(" Bytes");
    } else if bytes < MIB {
        append_scaled(&mut out, bytes, KIB);
        out.append(" KiB");
    } else if bytes < GIB {
        append_scaled(&mut out, bytes, MIB);
        out.append(" MiB");
    } else if bytes < TIB {
        append_scaled(&mut out, bytes, GIB);
        out.append(" GiB");
    } else if bytes < PIB {
        append_scaled(&mut out, bytes, TIB);
        out.append(" TiB");
    } else if bytes < EIB {
        append_scaled(&mut out, bytes, PIB);
        out.append(" PiB");
    } else if bytes < ZIB {
        append_scaled(&mut out, bytes, EIB);
        out.append(" EiB");
    } else if bytes < YIB {
        append_scaled(&mut out, bytes, ZIB);
        out.append(" ZiB");
    } else {
        append_scaled(&mut out, bytes, YIB);
        out.append(" YiB");
    }
    proof {
        assert(out@ =~= spec_format_byte_size(bytes as nat));
    }
    out
}

} // verus!
