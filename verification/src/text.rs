//! Texts: numbers in words of digits, and the phrases that describe a run.

use crate::cli::passes_of;
use vstd::arithmetic::power2::*;
use vstd::prelude::*;
use vstd::string::*;

verus! {

/// The decimal digit `d`.
pub open spec fn digit_char(d: nat) -> char {
    if d == 0 {
        '0'
    } else if d == 1 {
        '1'
    } else if d == 2 {
        '2'
    } else if d == 3 {
        '3'
    } else if d == 4 {
        '4'
    } else if d == 5 {
        '5'
    } else if d == 6 {
        '6'
    } else if d == 7 {
        '7'
    } else if d == 8 {
        '8'
    } else {
        '9'
    }
}

/// The decimal digit `d` as a superscript.
pub open spec fn superscript_char(d: nat) -> char {
    if d == 0 {
        '⁰'
    } else if d == 1 {
        '¹'
    } else if d == 2 {
        '²'
    } else if d == 3 {
        '³'
    } else if d == 4 {
        '⁴'
    } else if d == 5 {
        '⁵'
    } else if d == 6 {
        '⁶'
    } else if d == 7 {
        '⁷'
    } else if d == 8 {
        '⁸'
    } else {
        '⁹'
    }
}

/// The decimal digits of `n`, each written by `glyph`.
pub open spec fn digits_of(n: nat, glyph: spec_fn(nat) -> char) -> Seq<char>
    decreases n,
{
    if n < 10 {
        seq![glyph(n)]
    } else {
        digits_of(n / 10, glyph).push(glyph(n % 10))
    }
}

/// `n` in decimal.
pub open spec fn decimal_of(n: nat) -> Seq<char> {
    digits_of(n, |d: nat| digit_char(d))
}

/// `n` in decimal, as a superscript.
pub open spec fn superscript_of(n: nat) -> Seq<char> {
    digits_of(n, |d: nat| superscript_char(d))
}

fn digit_str(d: u128) -> (s: &'static str)
    requires
        d < 10,
    ensures
        s@ == seq![digit_char(d as nat)],
{
    proof {
        reveal_strlit("0");
        reveal_strlit("1");
        reveal_strlit("2");
        reveal_strlit("3");
        reveal_strlit("4");
        reveal_strlit("5");
        reveal_strlit("6");
        reveal_strlit("7");
        reveal_strlit("8");
        reveal_strlit("9");
    }
    match d {
        0 => "0",
        1 => "1",
        2 => "2",
        3 => "3",
        4 => "4",
        5 => "5",
        6 => "6",
        7 => "7",
        8 => "8",
        _ => "9",
    }
}

fn superscript_str(d: u128) -> (s: &'static str)
    requires
        d < 10,
    ensures
        s@ == seq![superscript_char(d as nat)],
{
    proof {
        reveal_strlit("⁰");
        reveal_strlit("¹");
        reveal_strlit("²");
        reveal_strlit("³");
        reveal_strlit("⁴");
        reveal_strlit("⁵");
        reveal_strlit("⁶");
        reveal_strlit("⁷");
        reveal_strlit("⁸");
        reveal_strlit("⁹");
    }
    match d {
        0 => "⁰",
        1 => "¹",
        2 => "²",
        3 => "³",
        4 => "⁴",
        5 => "⁵",
        6 => "⁶",
        7 => "⁷",
        8 => "⁸",
        _ => "⁹",
    }
}

/// Writes `n` in decimal.
pub fn decimal(n: u128) -> (s: String)
    ensures
        s@ == decimal_of(n as nat),
    decreases n,
{
    if n < 10 {
        String::from_str(digit_str(n))
    } else {
        let mut s = decimal(n / 10);
        s.append(digit_str(n % 10));
        s
    }
}

/// Writes the number after `n` in decimal, which need not fit 128 bits.
pub fn decimal_after(n: u128) -> (s: String)
    ensures
        s@ == decimal_of(n as nat + 1),
{
    if n < 9 {
        decimal(n + 1)
    } else if n % 10 == 9 {
        let mut s = decimal(n / 10 + 1);
        s.append(digit_str(0));
        s
    } else {
        let mut s = decimal(n / 10);
        s.append(digit_str(n % 10 + 1));
        s
    }
}

/// Writes `n` in decimal, as a superscript.
pub fn superscript(n: u128) -> (s: String)
    ensures
        s@ == superscript_of(n as nat),
    decreases n,
{
    if n < 10 {
        String::from_str(superscript_str(n))
    } else {
        let mut s = superscript(n / 10);
        s.append(superscript_str(n % 10));
        s
    }
}

/// Which bits of each output a test reads, where outputs are shifted left by `s`.
pub fn bits_read_desc(s: usize) -> (desc: String)
    requires
        s <= 64,
    ensures
        desc@ == (if s == 0 {
            "full 64-bit output"@
        } else {
            "lowest "@ + decimal_of((64 - s) as nat) + " bits"@
        }),
{
    if s == 0 {
        String::from_str("full 64-bit output")
    } else {
        let n: u128 = (64 - s) as u128;
        let mut desc = String::from_str("lowest ");
        let number = decimal(n);
        desc.append(number.as_str());
        desc.append(" bits");
        desc
    }
}

/// The descriptor of a tradeoff on the top `b` bits.
pub fn tradeoff_desc(b: usize) -> (desc: String)
    requires
        b < 64,
    ensures
        desc@ == "tradeoff on "@ + decimal_of(b as nat) + " top bits over "@ + decimal_of(
            pow2(b as nat),
        ) + " passes"@,
{
    let mut desc = String::from_str("tradeoff on ");
    let bits = decimal(b as u128);
    desc.append(bits.as_str());
    desc.append(" top bits over ");
    let passes = decimal(passes_of(b) as u128);
    desc.append(passes.as_str());
    desc.append(" passes");
    desc
}

/// The descriptor of the two levels of a tradeoff of the birthday-spacings test.
pub fn birthday_tradeoff_desc(b: usize) -> (desc: String)
    requires
        b < 64,
    ensures
        desc@ == "tradeoff on "@ + decimal_of(b as nat) + " top bits over "@ + decimal_of(
            pow2(b as nat),
        ) + " value intervals x "@ + decimal_of(pow2(b as nat)) + " spacing classes"@,
{
    let mut desc = String::from_str("tradeoff on ");
    let bits = decimal(b as u128);
    desc.append(bits.as_str());
    desc.append(" top bits over ");
    let passes = decimal(passes_of(b) as u128);
    desc.append(passes.as_str());
    desc.append(" value intervals x ");
    desc.append(passes.as_str());
    desc.append(" spacing classes");
    desc
}

/// The descriptor of decimation.
pub fn decimation_desc(d: usize, t: usize) -> (desc: String)
    ensures
        desc@ == "decimating "@ + decimal_of(d as nat) + " bits per dimension (~2"@
            + superscript_of((d * t) as nat) + " candidate samples per kept sample)"@,
{
    assert(0 <= d * t <= u128::MAX) by (nonlinear_arith)
        requires
            0 <= d <= u64::MAX,
            0 <= t <= u64::MAX,
    ;
    let mut desc = String::from_str("decimating ");
    let number = decimal(d as u128);
    desc.append(number.as_str());
    desc.append(" bits per dimension (~2");
    let exponent = superscript(d as u128 * t as u128);
    desc.append(exponent.as_str());
    desc.append(" candidate samples per kept sample)");
    desc
}

/// The note on how many cells decimation leaves; empty without decimation.
pub fn effective_cells_suffix(d: usize, u: usize, t: usize) -> (desc: String)
    requires
        d <= u,
    ensures
        desc@ == (if d > 0 {
            " (effective cells after decimation: 2"@ + superscript_of(((u - d) * t) as nat) + ")"@
        } else {
            Seq::<char>::empty()
        }),
{
    if d > 0 {
        assert(0 <= (u - d) * t <= u128::MAX) by (nonlinear_arith)
            requires
                0 <= u - d <= u64::MAX,
                0 <= t <= u64::MAX,
        ;
        let mut desc = String::from_str(" (effective cells after decimation: 2");
        let exponent = superscript((u - d) as u128 * t as u128);
        desc.append(exponent.as_str());
        desc.append(")");
        desc
    } else {
        String::new()
    }
}

/// The descriptors, each after a comma.
pub open spec fn listed(parts: Seq<String>) -> Seq<char>
    decreases parts.len(),
{
    if parts.len() == 0 {
        Seq::empty()
    } else {
        listed(parts.drop_last()) + ", "@ + parts.last()@
    }
}

/// Joins the descriptors into a trailing ", a, b"; empty when there are none.
pub fn join_mode_parts(parts: &[String]) -> (desc: String)
    ensures
        desc@ == listed(parts@),
{
    let mut desc = String::new();
    let mut i: usize = 0;
    assert(parts@.take(0) =~= Seq::<String>::empty());
    while i < parts.len()
        invariant
            i <= parts@.len(),
            desc@ == listed(parts@.take(i as int)),
        decreases parts@.len() - i,
    {
        assert(parts@.take(i + 1).drop_last() =~= parts@.take(i as int));
        desc.append(", ");
        desc.append(parts[i].as_str());
        i += 1;
    }
    assert(parts@.take(parts@.len() as int) =~= parts@);
    desc
}

/// The number that `n` in decimal means is `n`: the last digit is the remainder by ten, the digits
/// before it are the quotient, and there is no zero in front.
pub proof fn law_decimal_digits(n: nat)
    ensures
        decimal_of(n).last() as nat == '0' as nat + n % 10,
        n < 10 ==> decimal_of(n).len() == 1,
        n >= 10 ==> decimal_of(n).drop_last() == decimal_of(n / 10),
        decimal_of(n).len() > 0,
        n > 0 ==> decimal_of(n)[0] != '0',
    decreases n,
{
    if n >= 10 {
        law_decimal_digits(n / 10);
        assert(decimal_of(n).drop_last() =~= decimal_of(n / 10));
    }
}

/// A superscript has the digits of the number, one by one.
pub proof fn law_superscript_digits(n: nat)
    ensures
        superscript_of(n).last() == seq!['⁰', '¹', '²', '³', '⁴', '⁵', '⁶', '⁷', '⁸', '⁹'][(n
            % 10) as int],
        n < 10 ==> superscript_of(n).len() == 1,
        n >= 10 ==> superscript_of(n).drop_last() == superscript_of(n / 10),
        superscript_of(n).len() > 0,
    decreases n,
{
    if n >= 10 {
        law_superscript_digits(n / 10);
        assert(superscript_of(n).drop_last() =~= superscript_of(n / 10));
    }
}

/// One descriptor more stands behind the others, after a comma.
pub proof fn law_descriptors_are_listed(parts: Seq<String>, last: String)
    ensures
        listed(Seq::<String>::empty()) == Seq::<char>::empty(),
        listed(parts.push(last)) == listed(parts) + ", "@ + last@,
{
    assert(parts.push(last).drop_last() =~= parts);
}

/// The descriptions of a run name its numbers: how many bits are read, how many bits a tradeoff is
/// on and how many passes that makes, how many bits decimation drops and how many samples that
/// costs, and how many cells are left.
pub proof fn law_descriptions(
    s: usize,
    b: usize,
    d: usize,
    u: usize,
    t: usize,
    read: String,
    tradeoff: String,
    birthday: String,
    decimation: String,
    effective: String,
)
    requires
        s <= 64,
        call_ensures(bits_read_desc, (s,), read),
        call_ensures(tradeoff_desc, (b,), tradeoff),
        call_ensures(birthday_tradeoff_desc, (b,), birthday),
        call_ensures(decimation_desc, (d, t), decimation),
        call_ensures(effective_cells_suffix, (d, u, t), effective),
    ensures
        s > 0 ==> read@ == "lowest "@ + decimal_of((64 - s) as nat) + " bits"@,
        s == 0 ==> read@ == "full 64-bit output"@,
        tradeoff@ == "tradeoff on "@ + decimal_of(b as nat) + " top bits over "@ + decimal_of(
            pow2(b as nat),
        ) + " passes"@,
        birthday@ == "tradeoff on "@ + decimal_of(b as nat) + " top bits over "@ + decimal_of(
            pow2(b as nat),
        ) + " value intervals x "@ + decimal_of(pow2(b as nat)) + " spacing classes"@,
        decimation@ == "decimating "@ + decimal_of(d as nat) + " bits per dimension (~2"@
            + superscript_of((d * t) as nat) + " candidate samples per kept sample)"@,
        d == 0 ==> effective@.len() == 0,
        d > 0 ==> effective@ == " (effective cells after decimation: 2"@ + superscript_of(
            ((u - d) * t) as nat,
        ) + ")"@,
{
}

/// Numbers are written in decimal, plainly or as superscripts; the number after one, too.
pub proof fn law_numbers_are_written(
    n: u128,
    parts: &[String],
    plain: String,
    next: String,
    raised: String,
    joined: String,
)
    requires
        call_ensures(decimal, (n,), plain),
        call_ensures(decimal_after, (n,), next),
        call_ensures(superscript, (n,), raised),
        call_ensures(join_mode_parts, (parts,), joined),
    ensures
        plain@ == decimal_of(n as nat),
        next@ == decimal_of(n as nat + 1),
        raised@ == superscript_of(n as nat),
        joined@ == listed(parts@),
{
}

} // verus!
