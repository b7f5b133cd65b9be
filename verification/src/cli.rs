//! The parameters of a run, and which combinations of them make sense.

use crate::common::CellCount;
use crate::text;
use vstd::arithmetic::div_mod::*;
use vstd::arithmetic::mul::*;
use vstd::arithmetic::power2::*;
use vstd::bits::*;
use vstd::prelude::*;
use vstd::string::*;

verus! {

/// The parameters of a run.
#[derive(Clone, Copy, Debug)]
pub struct Args {
    /// Number of upper bits used, that is, log2 of the number of subdivisions per dimension.
    pub u: usize,
    /// The dimension of the test; the cell count is 2^((u - d) · t).
    pub t: usize,
    /// Number of memory locations. The number of points is m · 2^b.
    pub m: Option<usize>,
    /// Left-shift the generator output by this many bits before extracting cell indices.
    pub s: usize,
    /// Use a time-space tradeoff on the top b bits of the combined index.
    pub tradeoff: Option<usize>,
    /// Decimate: keep only tuples in which every coordinate's lowest d bits are zero.
    pub decimate: Option<usize>,
    /// Report progressive counts at uniform checkpoints.
    pub checkpoints: bool,
    /// Run the birthday-spacings test instead of the collision test.
    pub birthday_spacings: bool,
    /// Number of independent repetitions.
    pub reps: usize,
    /// Seed of the generator.
    pub seed: u64,
    /// Print p-values close to 1 in the form `1 - ε`.
    pub pretty_p: bool,
    /// Run in parallel on this many CPUs; 0 for all that are available.
    pub parallel: Option<usize>,
    /// Run only one of the 2^b tradeoff units, counted from 0.
    pub pass: Option<u64>,
}

/// What is wrong with the parameters of a run.
#[derive(Clone, Copy, PartialEq, Eq, Structural, Debug)]
pub enum ArgsError {
    NoDimension,
    NoBits,
    ShiftTooLarge { s: usize },
    TooManyBits { u: usize, limit: usize },
    DecimateWithoutMemory,
    DecimateZero,
    DecimateTooLarge { d: usize, u: usize },
    TradeoffZero,
    TradeoffAboveIndex { b: usize, limit: usize },
    TradeoffTooLarge { b: usize },
    CheckpointsWithBirthday,
    PassWithoutTradeoff,
    PassTooLarge { k: u64, passes: u64 },
}

impl Args {
    /// The decimation bits; 0 without decimation.
    pub open spec fn d(self) -> nat {
        match self.decimate {
            Some(d) => d as nat,
            None => 0,
        }
    }

    /// The tradeoff bits; 0 without a tradeoff.
    pub open spec fn b(self) -> nat {
        match self.tradeoff {
            Some(b) => b as nat,
            None => 0,
        }
    }

    /// The bits that are read exist.
    pub open spec fn bits_exist(self) -> bool {
        &&& self.t >= 1
        &&& self.u >= 1
        &&& self.u + self.s <= 64
        &&& self.s < 64
    }

    /// Decimation leaves bits, and comes with an explicit number of memory locations.
    pub open spec fn decimation_valid(self) -> bool {
        self.decimate is Some ==> self.m is Some && 1 <= self.d() < self.u
    }

    /// The tradeoff bits are bits of the index, and fewer than 64.
    pub open spec fn tradeoff_valid(self) -> bool {
        self.tradeoff is Some ==> 1 <= self.b() <= self.t * (self.u - self.d()) && self.b() < 64
    }

    /// A single pass is one that exists.
    pub open spec fn pass_valid(self) -> bool {
        self.pass matches Some(k) ==> self.tradeoff is Some && k < pow2(self.b())
    }

    /// The parameters make sense together.
    pub open spec fn valid(self) -> bool {
        &&& self.bits_exist()
        &&& self.decimation_valid()
        &&& self.tradeoff_valid()
        &&& !(self.checkpoints && self.birthday_spacings)
        &&& self.pass_valid()
    }

    /// The first rule that the parameters break, if any.
    pub open spec fn first_error(self) -> Option<ArgsError> {
        let d = self.d();
        let b = self.b();
        if self.t < 1 {
            Some(ArgsError::NoDimension)
        } else if self.u < 1 {
            Some(ArgsError::NoBits)
        } else if self.s >= 64 {
            Some(ArgsError::ShiftTooLarge { s: self.s })
        } else if self.u > 64 - self.s {
            Some(ArgsError::TooManyBits { u: self.u, limit: (64 - self.s) as usize })
        } else if self.decimate is Some && self.m is None {
            Some(ArgsError::DecimateWithoutMemory)
        } else if self.decimate is Some && d < 1 {
            Some(ArgsError::DecimateZero)
        } else if self.decimate is Some && d >= self.u {
            Some(ArgsError::DecimateTooLarge { d: d as usize, u: self.u })
        } else if self.tradeoff is Some && b < 1 {
            Some(ArgsError::TradeoffZero)
        } else if self.tradeoff is Some && b > self.t * (self.u - d) {
            Some(
                ArgsError::TradeoffAboveIndex {
                    b: b as usize,
                    limit: (self.t * (self.u - d)) as usize,
                },
            )
        } else if self.tradeoff is Some && b >= 64 {
            Some(ArgsError::TradeoffTooLarge { b: b as usize })
        } else if self.checkpoints && self.birthday_spacings {
            Some(ArgsError::CheckpointsWithBirthday)
        } else if self.pass is Some && self.tradeoff is None {
            Some(ArgsError::PassWithoutTradeoff)
        } else if self.pass is Some && self.pass->0 >= pow2(b) {
            Some(ArgsError::PassTooLarge { k: self.pass->0, passes: pow2(b) as u64 })
        } else {
            None
        }
    }

    /// The number of top tradeoff bits b (0 without a tradeoff).
    pub fn tradeoff_bits(&self) -> (b: usize)
        ensures
            b == self.b(),
    {
        match self.tradeoff {
            Some(b) => b,
            None => 0,
        }
    }

    /// The number of decimation bits d (0 without decimation).
    pub fn decimation_bits(&self) -> (d: usize)
        ensures
            d == self.d(),
    {
        match self.decimate {
            Some(d) => d,
            None => 0,
        }
    }

    /// Checks that the parameters make sense together, and reports the first rule that is broken.
    pub fn validate(&self) -> (r: Result<(), ArgsError>)
        ensures
            r is Ok <==> self.valid(),
            r is Ok <==> self.first_error() is None,
            r matches Err(e) ==> self.first_error() == Some(e),
    {
        if self.t < 1 {
            return Err(ArgsError::NoDimension);
        }
        if self.u < 1 {
            return Err(ArgsError::NoBits);
        }
        if self.s >= 64 {
            return Err(ArgsError::ShiftTooLarge { s: self.s });
        }
        if self.u > 64 - self.s {
            return Err(ArgsError::TooManyBits { u: self.u, limit: 64 - self.s });
        }
        let d: usize = self.decimation_bits();
        if self.decimate.is_some() {
            if self.m.is_none() {
                return Err(ArgsError::DecimateWithoutMemory);
            }
            if d < 1 {
                return Err(ArgsError::DecimateZero);
            }
            if d >= self.u {
                return Err(ArgsError::DecimateTooLarge { d, u: self.u });
            }
        }
        if let Some(b) = self.tradeoff {
            if b < 1 {
                return Err(ArgsError::TradeoffZero);
            }
            assert(0 <= self.t * (self.u - d) <= u128::MAX) by (nonlinear_arith)
                requires
                    0 <= self.t <= u64::MAX,
                    0 <= self.u - d <= 64,
            ;
            let limit: u128 = self.t as u128 * (self.u - d) as u128;
            if b as u128 > limit {
                return Err(ArgsError::TradeoffAboveIndex { b, limit: limit as usize });
            }
            if b >= 64 {
                return Err(ArgsError::TradeoffTooLarge { b });
            }
        }
        if self.checkpoints && self.birthday_spacings {
            return Err(ArgsError::CheckpointsWithBirthday);
        }
        if let Some(k) = self.pass {
            match self.tradeoff {
                None => {
                    return Err(ArgsError::PassWithoutTradeoff);
                },
                Some(b) => {
                    let num_passes: u64 = passes_of(b);
                    if k >= num_passes {
                        return Err(ArgsError::PassTooLarge { k, passes: num_passes });
                    }
                },
            }
        }
        Ok(())
    }

    /// The number of CPUs to run on: `None` for a sequential run. Where all are asked for, there
    /// are `available` ones.
    pub fn parallel_cpus(&self, available: usize) -> (cpus: Option<usize>)
        ensures
            cpus == (match self.parallel {
                None => None::<usize>,
                Some(p) => Some(
                    if p == 0 {
                        available
                    } else {
                        p
                    },
                ),
            }),
    {
        match self.parallel {
            None => None,
            Some(p) => {
                if p == 0 {
                    Some(available)
                } else {
                    Some(p)
                }
            },
        }
    }

    /// The number of cells, or `None` where there are more than 2^128.
    pub fn cells(&self) -> (cells: Option<CellCount>)
        requires
            self.valid(),
        ensures
            cells is Some <==> self.t * (self.u - self.d()) <= 128,
            cells is Some ==> cells->0@ == pow2((self.t * (self.u - self.d())) as nat),
    {
        let width: usize = self.u - self.decimation_bits();
        if self.t > 128 {
            assert(self.t * width > 128) by (nonlinear_arith)
                requires
                    self.t > 128,
                    width >= 1,
            ;
            return None;
        }
        assert(self.t * width <= 128 * 64) by (nonlinear_arith)
            requires
                self.t <= 128,
                width <= 64,
        ;
        let bits: usize = self.t * width;
        if bits > 128 {
            None
        } else {
            Some(CellCount::power_of_two(bits))
        }
    }
}

/// 2^`b`.
pub fn passes_of(b: usize) -> (passes: u64)
    requires
        b < 64,
    ensures
        passes == pow2(b as nat),
        passes >= 1,
{
    let k: u64 = b as u64;
    proof {
        lemma_u64_pow2_no_overflow(b as nat);
        lemma_u64_shl_is_mul(1, k);
        lemma_pow2_pos(b as nat);
    }
    1u64 << k
}

impl ArgsError {
    /// What the message says.
    pub open spec fn text(self) -> Seq<char> {
        match self {
            ArgsError::NoDimension => "t must be at least 1"@,
            ArgsError::NoBits => "u must be at least 1"@,
            ArgsError::ShiftTooLarge { s } => "shift ("@ + text::decimal_of(s as nat)
                + ") must be less than 64"@,
            ArgsError::TooManyBits { u, limit } => "u ("@ + text::decimal_of(u as nat)
                + ") can be at most 64 - shift ("@ + text::decimal_of(limit as nat) + ")"@,
            ArgsError::DecimateWithoutMemory => "--decimate requires explicit -m"@,
            ArgsError::DecimateZero => "--decimate d must be at least 1"@,
            ArgsError::DecimateTooLarge { d, u } => "--decimate d ("@ + text::decimal_of(d as nat)
                + ") must be less than u ("@ + text::decimal_of(u as nat) + ")"@,
            ArgsError::TradeoffZero => "--tradeoff b must be at least 1"@,
            ArgsError::TradeoffAboveIndex { b, limit } => "--tradeoff b ("@ + text::decimal_of(
                b as nat,
            ) + ") must be at most t·(u - d) ("@ + text::decimal_of(limit as nat) + ")"@,
            ArgsError::TradeoffTooLarge { b } => "--tradeoff b ("@ + text::decimal_of(b as nat)
                + ") must be less than 64"@,
            ArgsError::CheckpointsWithBirthday =>
                "--checkpoints is incompatible with --birthday-spacings"@,
            ArgsError::PassWithoutTradeoff => "--pass requires -b (--tradeoff)"@,
            ArgsError::PassTooLarge { k, passes } => "--pass K ("@ + text::decimal_of(k as nat)
                + ") must be less than 2ᵇ ("@ + text::decimal_of(passes as nat) + ")"@,
        }
    }

    /// The message.
    pub fn message(self) -> (s: String)
        ensures
            s@ == self.text(),
    {
        match self {
            ArgsError::NoDimension => String::from_str("t must be at least 1"),
            ArgsError::NoBits => String::from_str("u must be at least 1"),
            ArgsError::ShiftTooLarge { s } => one_number(
                "shift (",
                s as u128,
                ") must be less than 64",
            ),
            ArgsError::TooManyBits { u, limit } => two_numbers(
                "u (",
                u as u128,
                ") can be at most 64 - shift (",
                limit as u128,
                ")",
            ),
            ArgsError::DecimateWithoutMemory => String::from_str("--decimate requires explicit -m"),
            ArgsError::DecimateZero => String::from_str("--decimate d must be at least 1"),
            ArgsError::DecimateTooLarge { d, u } => two_numbers(
                "--decimate d (",
                d as u128,
                ") must be less than u (",
                u as u128,
                ")",
            ),
            ArgsError::TradeoffZero => String::from_str("--tradeoff b must be at least 1"),
            ArgsError::TradeoffAboveIndex { b, limit } => two_numbers(
                "--tradeoff b (",
                b as u128,
                ") must be at most t·(u - d) (",
                limit as u128,
                ")",
            ),
            ArgsError::TradeoffTooLarge { b } => one_number(
                "--tradeoff b (",
                b as u128,
                ") must be less than 64",
            ),
            ArgsError::CheckpointsWithBirthday => String::from_str(
                "--checkpoints is incompatible with --birthday-spacings",
            ),
            ArgsError::PassWithoutTradeoff => String::from_str("--pass requires -b (--tradeoff)"),
            ArgsError::PassTooLarge { k, passes } => two_numbers(
                "--pass K (",
                k as u128,
                ") must be less than 2ᵇ (",
                passes as u128,
                ")",
            ),
        }
    }
}

/// A number between two texts.
fn one_number(before: &str, n: u128, after: &str) -> (s: String)
    ensures
        s@ == before@ + text::decimal_of(n as nat) + after@,
{
    let mut s = String::from_str(before);
    let number = text::decimal(n);
    s.append(number.as_str());
    s.append(after);
    s
}

/// Two numbers among three texts.
fn two_numbers(before: &str, m: u128, between: &str, n: u128, after: &str) -> (s: String)
    ensures
        s@ == before@ + text::decimal_of(m as nat) + between@ + text::decimal_of(n as nat) + after@,
{
    let mut s = one_number(before, m, between);
    let number = text::decimal(n);
    s.append(number.as_str());
    s.append(after);
    s
}

/// Why a text is no unsigned 64-bit integer.
#[derive(Clone, Copy, PartialEq, Eq, Structural, Debug)]
pub enum ParseError {
    /// There are no digits.
    Empty,
    /// A character is no digit of the radix.
    InvalidDigit,
    /// The number does not fit 64 bits.
    TooLarge,
}

impl ParseError {
    /// What is said of a text that is no integer; `quoted` is the text as it is shown.
    pub open spec fn text(self, quoted: Seq<char>) -> Seq<char> {
        match self {
            ParseError::Empty => "invalid integer: "@ + quoted,
            ParseError::InvalidDigit => "invalid integer "@ + quoted
                + ": invalid digit found in string"@,
            ParseError::TooLarge => "invalid integer "@ + quoted
                + ": number too large to fit in target type"@,
        }
    }

    /// The message on a text, which is shown as `quoted`.
    pub fn message(self, quoted: &str) -> (s: String)
        ensures
            s@ == self.text(quoted@),
    {
        match self {
            ParseError::Empty => {
                let mut s = String::from_str("invalid integer: ");
                s.append(quoted);
                s
            },
            ParseError::InvalidDigit => {
                let mut s = String::from_str("invalid integer ");
                s.append(quoted);
                s.append(": invalid digit found in string");
                s
            },
            ParseError::TooLarge => {
                let mut s = String::from_str("invalid integer ");
                s.append(quoted);
                s.append(": number too large to fit in target type");
                s
            },
        }
    }
}

/// The characters with the Unicode property White_Space.
pub open spec fn is_white_space(c: char) -> bool {
    let n = c as u32;
    ||| 9 <= n <= 13
    ||| n == 0x20
    ||| n == 0x85
    ||| n == 0xa0
    ||| n == 0x1680
    ||| 0x2000 <= n <= 0x200a
    ||| n == 0x2028
    ||| n == 0x2029
    ||| n == 0x202f
    ||| n == 0x205f
    ||| n == 0x3000
}

/// The text without white space at its ends.
pub open spec fn trimmed(s: Seq<char>) -> Seq<char>
    decreases s.len(),
{
    if s.len() > 0 && is_white_space(s[0]) {
        trimmed(s.skip(1))
    } else if s.len() > 0 && is_white_space(s.last()) {
        trimmed(s.drop_last())
    } else {
        s
    }
}

/// The radix that a prefix announces; 10 without a prefix.
pub open spec fn radix_of(s: Seq<char>) -> nat {
    if s.len() < 2 || s[0] != '0' {
        10
    } else if s[1] == 'x' || s[1] == 'X' {
        16
    } else if s[1] == 'o' || s[1] == 'O' {
        8
    } else if s[1] == 'b' || s[1] == 'B' {
        2
    } else {
        10
    }
}

/// The value of a digit of the radix.
pub open spec fn digit_value(c: char, radix: nat) -> Option<nat> {
    let n = c as nat;
    let v = if 48 <= n <= 57 {
        (n - 48) as nat
    } else if 65 <= n <= 90 {
        (n - 55) as nat
    } else if 97 <= n <= 122 {
        (n - 87) as nat
    } else {
        36
    };
    if v < radix {
        Some(v)
    } else {
        None
    }
}

/// The number that the first `k` digits make, or the first fault in them.
pub open spec fn read_digits(s: Seq<char>, radix: nat, k: nat) -> Result<u64, ParseError>
    decreases k,
{
    if k == 0 {
        Ok(0)
    } else {
        match read_digits(s, radix, (k - 1) as nat) {
            Err(e) => Err(e),
            Ok(v) => match digit_value(s[k - 1], radix) {
                None => Err(ParseError::InvalidDigit),
                Some(d) => if v * radix + d > u64::MAX {
                    Err(ParseError::TooLarge)
                } else {
                    Ok((v * radix + d) as u64)
                },
            },
        }
    }
}

/// The characters that do not merely separate digits.
pub open spec fn no_separator() -> spec_fn(char) -> bool {
    |c: char| c != '_'
}

/// The number that a text means: decimal, or hexadecimal, octal or binary with the prefix `0x`,
/// `0o` or `0b`; white space around it and underscores in it are skipped, and a plus sign may
/// stand before the digits.
pub open spec fn parsed(text: Seq<char>) -> Result<u64, ParseError> {
    let s = trimmed(text);
    let radix = radix_of(s);
    let after_prefix = if radix == 10 {
        s
    } else {
        s.skip(2)
    };
    let digits = after_prefix.filter(no_separator());
    if digits.len() == 0 {
        Err(ParseError::Empty)
    } else if digits[0] != '+' {
        read_digits(digits, radix, digits.len())
    } else if digits.len() == 1 {
        Err(ParseError::InvalidDigit)
    } else {
        read_digits(digits.skip(1), radix, (digits.len() - 1) as nat)
    }
}

fn white_space(c: char) -> (r: bool)
    ensures
        r == is_white_space(c),
{
    let n: u32 = c as u32;
    (9 <= n && n <= 13) || n == 0x20 || n == 0x85 || n == 0xa0 || n == 0x1680 || (0x2000 <= n && n
        <= 0x200a) || n == 0x2028 || n == 0x2029 || n == 0x202f || n == 0x205f || n == 0x3000
}

fn value_of_digit(c: char, radix: u32) -> (v: Option<u32>)
    requires
        radix <= 36,
    ensures
        v is Some <==> digit_value(c, radix as nat) is Some,
        v is Some ==> v->0 == digit_value(c, radix as nat)->0,
        v is Some ==> v->0 < radix,
{
    let n: u32 = c as u32;
    let v: u32 = if 48 <= n && n <= 57 {
        n - 48
    } else if 65 <= n && n <= 90 {
        n - 55
    } else if 97 <= n && n <= 122 {
        n - 87
    } else {
        36
    };
    if v < radix {
        Some(v)
    } else {
        None
    }
}

/// Reads digits from `from` on.
fn number_of(digits: &Vec<char>, from: usize, radix: u32) -> (r: Result<u64, ParseError>)
    requires
        from <= digits@.len(),
        radix <= 36,
    ensures
        r == read_digits(
            digits@.skip(from as int),
            radix as nat,
            (digits@.len() - from) as nat,
        ),
{
    let ghost s = digits@.skip(from as int);
    let mut v: u64 = 0;
    let mut i: usize = from;
    while i < digits.len()
        invariant
            from <= i <= digits@.len(),
            radix <= 36,
            s == digits@.skip(from as int),
            read_digits(s, radix as nat, (i - from) as nat) == Ok::<u64, ParseError>(v),
        decreases digits@.len() - i,
    {
        let ghost k = (i - from) as nat;
        assert(s[k as int] == digits@[i as int]);
        match value_of_digit(digits[i], radix) {
            None => {
                assert(read_digits(s, radix as nat, k + 1) == Err::<u64, ParseError>(
                    ParseError::InvalidDigit,
                ));
                proof {
                    lemma_fault_stays(s, radix as nat, k + 1, s.len());
                }
                return Err(ParseError::InvalidDigit);
            },
            Some(d) => {
                assert(0 <= v * radix <= u64::MAX * 36) by (nonlinear_arith)
                    requires
                        0 <= v <= u64::MAX,
                        0 <= radix <= 36,
                ;
                let next: u128 = v as u128 * radix as u128 + d as u128;
                if next > u64::MAX as u128 {
                    assert(read_digits(s, radix as nat, k + 1) == Err::<u64, ParseError>(
                        ParseError::TooLarge,
                    ));
                    proof {
                        lemma_fault_stays(s, radix as nat, k + 1, s.len());
                    }
                    return Err(ParseError::TooLarge);
                }
                v = next as u64;
            },
        }
        i += 1;
    }
    Ok(v)
}

/// A fault in the first digits is the fault of all.
proof fn lemma_fault_stays(s: Seq<char>, radix: nat, j: nat, k: nat)
    requires
        j <= k,
        read_digits(s, radix, j) is Err,
    ensures
        read_digits(s, radix, k) == read_digits(s, radix, j),
    decreases k - j,
{
    if j < k {
        lemma_fault_stays(s, radix, j, (k - 1) as nat);
    }
}

/// Parses an unsigned 64-bit integer in decimal, or in hexadecimal, octal, or binary when prefixed
/// with `0x`, `0o`, or `0b` (case-insensitive). Underscores are allowed as digit separators.
pub fn parse_u64(value: &str) -> (r: Result<u64, ParseError>)
    ensures
        r == parsed(value@),
{
    let mut lo: usize = 0;
    let mut hi: usize = value.unicode_len();
    assert(value@.subrange(0, hi as int) =~= value@);
    let mut going = true;
    while going
        invariant
            lo <= hi <= value@.len(),
            trimmed(value@.subrange(lo as int, hi as int)) == trimmed(value@),
            !going ==> trimmed(value@.subrange(lo as int, hi as int)) == value@.subrange(
                lo as int,
                hi as int,
            ),
        decreases
                hi - lo + (if going {
                    1nat
                } else {
                    0nat
                }),
    {
        let ghost s = value@.subrange(lo as int, hi as int);
        if lo < hi && white_space(value.get_char(lo)) {
            assert(s.skip(1) =~= value@.subrange(lo + 1, hi as int));
            lo += 1;
        } else if lo < hi && white_space(value.get_char(hi - 1)) {
            assert(s.drop_last() =~= value@.subrange(lo as int, hi - 1));
            hi -= 1;
        } else {
            going = false;
        }
    }
    let ghost s = value@.subrange(lo as int, hi as int);
    let mut radix: u32 = 10;
    if hi - lo >= 2 && value.get_char(lo) == '0' {
        let c = value.get_char(lo + 1);
        if c == 'x' || c == 'X' {
            radix = 16;
        } else if c == 'o' || c == 'O' {
            radix = 8;
        } else if c == 'b' || c == 'B' {
            radix = 2;
        }
    }
    assert(radix == radix_of(s));
    let start: usize = if radix == 10 {
        lo
    } else {
        lo + 2
    };
    let ghost after_prefix = if radix == 10 {
        s
    } else {
        s.skip(2)
    };
    assert(after_prefix =~= value@.subrange(start as int, hi as int));
    let mut digits: Vec<char> = Vec::new();
    let mut i: usize = start;
    assert(after_prefix.take(0).filter(no_separator()) =~= Seq::<char>::empty()) by {
        reveal(Seq::filter);
    }
    while i < hi
        invariant
            start <= i <= hi <= value@.len(),
            after_prefix == value@.subrange(start as int, hi as int),
            digits@ == after_prefix.take(i - start).filter(no_separator()),
        decreases hi - i,
    {
        let c = value.get_char(i);
        proof {
            let before = after_prefix.take(i - start);
            assert(after_prefix.take(i - start + 1) =~= before.push(c));
            before.lemma_filter_push(c, no_separator());
        }
        if c != '_' {
            digits.push(c);
        }
        i += 1;
    }
    assert(after_prefix.take(hi - start) =~= after_prefix);
    if digits.len() == 0 {
        return Err(ParseError::Empty);
    }
    if digits[0] == '+' {
        if digits.len() == 1 {
            return Err(ParseError::InvalidDigit);
        }
        return number_of(&digits, 1, radix);
    }
    assert(digits@.skip(0) =~= digits@);
    number_of(&digits, 0, radix)
}

/// The digits of `n` in a radix, as numbers, the most significant one first; there are no leading
/// zeros.
pub open spec fn digit_values(n: nat, radix: nat) -> Seq<nat>
    decreases n,
{
    if radix < 2 || n < radix {
        seq![n]
    } else {
        proof {
            lemma_div_decreases(n as int, radix as int);
        }
        digit_values(n / radix, radix).push(n % radix)
    }
}

/// The characters of `s` are the digits of `n` in a radix, letters in either case; underscores may
/// stand between them.
pub open spec fn spells(s: Seq<char>, n: nat, radix: nat) -> bool {
    let digits = s.filter(no_separator());
    let values = digit_values(n, radix);
    &&& digits.len() == values.len()
    &&& forall|i: int|
        0 <= i < digits.len() ==> digit_value(#[trigger] digits[i], radix) == Some(values[i])
}

/// `s` is what stands before the digits of a radix.
pub open spec fn announces(s: Seq<char>, radix: nat) -> bool {
    ||| radix == 10 && s == Seq::<char>::empty()
    ||| radix == 16 && (s == seq!['0', 'x'] || s == seq!['0', 'X'])
    ||| radix == 8 && (s == seq!['0', 'o'] || s == seq!['0', 'O'])
    ||| radix == 2 && (s == seq!['0', 'b'] || s == seq!['0', 'B'])
}

/// What the first digits make does not depend on the last one.
proof fn lemma_read_prefix(s: Seq<char>, radix: nat, k: nat)
    requires
        k < s.len(),
    ensures
        read_digits(s, radix, k) == read_digits(s.drop_last(), radix, k),
    decreases k,
{
    if k > 0 {
        lemma_read_prefix(s, radix, (k - 1) as nat);
        assert(s.drop_last()[k - 1] == s[k - 1]);
    }
}

/// The digits of `n` make `n`.
proof fn lemma_read_digits_of(s: Seq<char>, n: nat, radix: nat)
    requires
        2 <= radix,
        n <= u64::MAX,
        s.len() == digit_values(n, radix).len(),
        forall|i: int|
            0 <= i < s.len() ==> digit_value(#[trigger] s[i], radix) == Some(
                digit_values(n, radix)[i],
            ),
    ensures
        s.len() > 0,
        read_digits(s, radix, s.len()) == Ok::<u64, ParseError>(n as u64),
    decreases n,
{
    let values = digit_values(n, radix);
    if n < radix {
        reveal_with_fuel(read_digits, 2);
        assert(digit_value(s[0], radix) == Some(values[0]));
        assert(0 * radix == 0);
    } else {
        let high = n / radix;
        let init = s.drop_last();
        lemma_fundamental_div_mod(n as int, radix as int);
        lemma_div_decreases(n as int, radix as int);
        assert(values == digit_values(high, radix).push(n % radix));
        assert forall|i: int| 0 <= i < init.len() implies digit_value(
            #[trigger] init[i],
            radix,
        ) == Some(digit_values(high, radix)[i]) by {
            assert(init[i] == s[i]);
            assert(digit_value(s[i], radix) == Some(values[i]));
        }
        lemma_read_digits_of(init, high, radix);
        lemma_read_prefix(s, radix, (s.len() - 1) as nat);
        assert(digit_value(s[s.len() - 1], radix) == Some(values[s.len() - 1]));
        lemma_mul_is_commutative(radix as int, high as int);
    }
}

/// The number of a character is the same in every type that holds it.
proof fn lemma_char_number(c: char)
    ensures
        c as u32 == c as nat,
{
}

/// Spelled digits are no white space, and no letters that a prefix has, where the radix is 10.
proof fn lemma_spelled_chars(s: Seq<char>, n: nat, radix: nat, i: int)
    requires
        spells(s, n, radix),
        radix <= 16,
        0 <= i < s.len(),
    ensures
        !is_white_space(s[i]),
        radix == 10 ==> s[i] == '_' || 48 <= s[i] as nat <= 57,
{
    lemma_char_number(s[i]);
    if s[i] != '_' {
        let digits = s.filter(no_separator());
        s.lemma_filter_contains(no_separator(), i);
        let j = choose|j: int| 0 <= j < digits.len() && digits[j] == s[i];
        assert(digit_value(digits[j], radix) is Some);
    }
}

/// Every number is parsed back from each of its spellings: in decimal, or in hexadecimal, octal or
/// binary behind the prefix, with letters in either case and with underscores among the digits.
#[verifier::spinoff_prover]
#[verifier::rlimit(40)]
pub proof fn law_spellings_parse(n: u64, radix: nat, prefix: Seq<char>, body: Seq<char>)
    requires
        announces(prefix, radix),
        spells(body, n as nat, radix),
    ensures
        parsed(prefix + body) == Ok::<u64, ParseError>(n),
{
    let text = prefix + body;
    let digits = body.filter(no_separator());
    lemma_read_digits_of(digits, n as nat, radix);
    body.lemma_filter_len(no_separator());
    lemma_spelled_chars(body, n as nat, radix, 0);
    lemma_spelled_chars(body, n as nat, radix, body.len() - 1);
    assert(text.last() == body.last());
    if radix == 10 {
        assert(text =~= body);
        if body.len() >= 2 {
            lemma_spelled_chars(body, n as nat, radix, 1);
        }
    } else {
        assert(text[0] == prefix[0] && text[1] == prefix[1]);
        assert(text.skip(2) =~= body);
    }
    assert(trimmed(text) == text);
    assert(radix_of(text) == radix);
    assert(digit_value(digits[0], radix) is Some);
}

/// What is written in decimal is parsed back.
pub proof fn law_decimal_parses(n: u64)
    ensures
        parsed(text::decimal_of(n as nat)) == Ok::<u64, ParseError>(n),
{
    let s = text::decimal_of(n as nat);
    lemma_decimal_spells(n as nat);
    law_spellings_parse(n, 10, Seq::<char>::empty(), s);
    assert(Seq::<char>::empty() + s =~= s);
}

/// Decimal digits spell their number.
proof fn lemma_decimal_spells(n: nat)
    ensures
        spells(text::decimal_of(n), n, 10),
        text::decimal_of(n).filter(no_separator()) == text::decimal_of(n),
    decreases n,
{
    let s = text::decimal_of(n);
    reveal(Seq::filter);
    if n < 10 {
        let c = text::digit_char(n);
        assert(s =~= Seq::<char>::empty().push(c));
        Seq::<char>::empty().lemma_filter_push(c, no_separator());
        assert(digit_value(c, 10) == Some(n));
    } else {
        let c = text::digit_char(n % 10);
        let init = text::decimal_of(n / 10);
        lemma_decimal_spells(n / 10);
        assert(s == init.push(c));
        init.lemma_filter_push(c, no_separator());
        assert(digit_value(c, 10) == Some(n % 10));
        let values = digit_values(n, 10);
        assert(values == digit_values(n / 10, 10).push(n % 10));
        assert forall|i: int| 0 <= i < s.len() implies digit_value(#[trigger] s[i], 10) == Some(
            values[i],
        ) by {
            if i < init.len() {
                assert(s[i] == init[i]);
                assert(digit_value(init[i], 10) == Some(digit_values(n / 10, 10)[i]));
            }
        }
    }
}

/// Parameters are accepted if and only if the bits that are read exist, decimation leaves bits and
/// comes with a number of memory locations, the tradeoff is on fewer than 64 bits of the index,
/// there are no checkpoints of birthday spacings, and a single pass is one of the 2^*b*.
pub proof fn law_which_args_are_valid(args: Args, r: Result<(), ArgsError>, d: nat, b: nat)
    requires
        args.decimate matches Some(n) ==> d == n,
        args.decimate is None ==> d == 0,
        args.tradeoff matches Some(n) ==> b == n,
        args.tradeoff is None ==> b == 0,
        call_ensures(Args::validate, (&args,), r),
    ensures
        r is Ok <==> args.valid(),
        r is Ok <==> {
            &&& args.t >= 1
            &&& args.u >= 1
            &&& args.s < 64
            &&& args.u + args.s <= 64
            &&& args.decimate is Some ==> args.m is Some && 1 <= d < args.u
            &&& args.tradeoff is Some ==> 1 <= b < 64 && b <= args.t * (args.u - d)
            &&& !args.checkpoints || !args.birthday_spacings
            &&& args.pass matches Some(k) ==> args.tradeoff is Some && k < pow2(b)
        },
{
}

/// Parameters are refused for the first rule that they break, in this order, with the numbers that
/// break it.
pub proof fn law_first_broken_rule(args: Args, e: ArgsError, d: nat, b: nat)
    requires
        args.decimate matches Some(n) ==> d == n,
        args.decimate is None ==> d == 0,
        args.tradeoff matches Some(n) ==> b == n,
        args.tradeoff is None ==> b == 0,
        call_ensures(Args::validate, (&args,), Err(e)),
    ensures
        ({
            let bits = args.t >= 1 && args.u >= 1 && args.s < 64 && args.u + args.s <= 64;
            let decimation = args.decimate is Some ==> args.m is Some && 1 <= d < args.u;
            let limit = args.t * (args.u - d);
            let tradeoff = args.tradeoff is Some ==> 1 <= b <= limit && b < 64;
            let checkpoints = !(args.checkpoints && args.birthday_spacings);
            match e {
                ArgsError::NoDimension => args.t == 0,
                ArgsError::NoBits => args.t >= 1 && args.u == 0,
                ArgsError::ShiftTooLarge { s } => {
                    args.t >= 1 && args.u >= 1 && s == args.s && s >= 64
                },
                ArgsError::TooManyBits { u, limit } => {
                    &&& args.t >= 1 && args.s < 64
                    &&& u == args.u && u + args.s > 64 && limit == 64 - args.s
                },
                ArgsError::DecimateWithoutMemory => {
                    bits && args.decimate is Some && args.m is None
                },
                ArgsError::DecimateZero => {
                    bits && args.decimate is Some && args.m is Some && d == 0
                },
                ArgsError::DecimateTooLarge { d: n, u } => {
                    bits && args.m is Some && n == d && u == args.u && n >= u
                },
                ArgsError::TradeoffZero => {
                    bits && decimation && args.tradeoff is Some && b == 0
                },
                ArgsError::TradeoffAboveIndex { b: n, limit: l } => {
                    bits && decimation && n == b && l == limit && n > l
                },
                ArgsError::TradeoffTooLarge { b: n } => {
                    bits && decimation && n == b && 64 <= n <= limit
                },
                ArgsError::CheckpointsWithBirthday => {
                    bits && decimation && tradeoff && !checkpoints
                },
                ArgsError::PassWithoutTradeoff => {
                    &&& bits && decimation && tradeoff && checkpoints
                    &&& args.pass is Some && args.tradeoff is None
                },
                ArgsError::PassTooLarge { k, passes } => {
                    &&& bits && decimation && tradeoff && checkpoints
                    &&& args.pass == Some(k) && args.tradeoff is Some
                    &&& passes == pow2(b) && k >= passes
                },
            }
        }),
{
    if e is TradeoffAboveIndex {
        assert(0 <= args.t * (args.u - d)) by (nonlinear_arith)
            requires
                args.t >= 0,
                args.u - d >= 0,
        ;
    }
    if args.tradeoff is Some && b < 64 {
        lemma_u64_pow2_no_overflow(b);
    }
}

/// There are 2^(*t* · (*u* − *d*)) cells.
pub proof fn law_number_of_cells(args: Args, r: Option<CellCount>, d: nat)
    requires
        args.decimate matches Some(n) ==> d == n,
        args.decimate is None ==> d == 0,
        d < args.u,
        call_ensures(Args::cells, (&args,), r),
    ensures
        r is Some <==> args.t * (args.u - d) <= 128,
        r matches Some(cells) ==> cells.last + 1 == pow2((args.t * (args.u - d)) as nat),
{
}

/// There are 2^`b` passes, and the bits of the options are what was given, or 0.
pub proof fn law_number_of_passes(args: Args, b: usize, passes: u64, d: usize, t: usize)
    requires
        call_ensures(Args::tradeoff_bits, (&args,), t),
        call_ensures(Args::decimation_bits, (&args,), d),
        call_ensures(passes_of, (b,), passes),
    ensures
        passes == pow2(b as nat),
        args.tradeoff matches Some(n) ==> t == n,
        args.tradeoff is None ==> t == 0,
        args.decimate matches Some(n) ==> d == n,
        args.decimate is None ==> d == 0,
{
}

/// A test is sequential unless it is asked to be parallel; then it runs on as many CPUs as are
/// asked for, or on all that are available for 0.
pub proof fn law_number_of_cpus(args: Args, available: usize, r: Option<usize>)
    requires
        call_ensures(Args::parallel_cpus, (&args, available), r),
    ensures
        r is None <==> args.parallel is None,
        args.parallel matches Some(p) ==> r == Some(
            if p > 0 {
                p
            } else {
                available
            },
        ),
{
}

/// The digits are 0 to 9, then the letters from a, in either case; a digit is less than the radix.
pub proof fn law_digits(c: char, radix: nat, v: nat)
    requires
        radix <= 36,
    ensures
        digit_value(c, radix) == Some(v) <==> v < radix && (if v < 10 {
            c as nat == '0' as nat + v
        } else {
            c as nat == 'a' as nat + v - 10 || c as nat == 'A' as nat + v - 10
        }),
{
}

/// Trimming leaves a middle part, without white space at its ends, and cuts off nothing but white
/// space.
pub proof fn law_trimmed(s: Seq<char>) -> (range: (int, int))
    ensures
        0 <= range.0 <= range.1 <= s.len(),
        trimmed(s) == s.subrange(range.0, range.1),
        range.0 < range.1 ==> !is_white_space(s[range.0]) && !is_white_space(s[range.1 - 1]),
        forall|i: int|
            0 <= i < s.len() && !(range.0 <= i < range.1) ==> is_white_space(#[trigger] s[i]),
    decreases s.len(),
{
    if s.len() > 0 && is_white_space(s[0]) {
        let rest = s.skip(1);
        let (a, b) = law_trimmed(rest);
        assert(rest.subrange(a, b) =~= s.subrange(a + 1, b + 1));
        assert forall|i: int|
            0 <= i < s.len() && !(a + 1 <= i < b + 1) implies is_white_space(#[trigger] s[i]) by {
            if i > 0 {
                assert(rest[i - 1] == s[i]);
            }
        }
        (a + 1, b + 1)
    } else if s.len() > 0 && is_white_space(s.last()) {
        let rest = s.drop_last();
        let (a, b) = law_trimmed(rest);
        assert(rest.subrange(a, b) =~= s.subrange(a, b));
        assert forall|i: int|
            0 <= i < s.len() && !(a <= i < b) implies is_white_space(#[trigger] s[i]) by {
            if i < s.len() - 1 {
                assert(rest[i] == s[i]);
            }
        }
        (a, b)
    } else {
        assert(s.subrange(0, s.len() as int) =~= s);
        (0, s.len() as int)
    }
}

/// White space around a text does not matter.
pub proof fn law_white_space_is_skipped(before: Seq<char>, text: Seq<char>, after: Seq<char>)
    requires
        forall|i: int| 0 <= i < before.len() ==> is_white_space(#[trigger] before[i]),
        forall|i: int| 0 <= i < after.len() ==> is_white_space(#[trigger] after[i]),
    ensures
        parsed(before + text + after) == parsed(text),
    decreases before.len() + after.len(),
{
    let whole = before + text + after;
    if before.len() > 0 {
        assert(whole[0] == before[0]);
        assert(whole.skip(1) =~= before.skip(1) + text + after);
        law_white_space_is_skipped(before.skip(1), text, after);
    } else if after.len() > 0 {
        lemma_trim_end(text + after.drop_last(), after.last());
        assert(whole =~= (text + after.drop_last()).push(after.last()));
        assert(before + text + after.drop_last() =~= text + after.drop_last());
        law_white_space_is_skipped(before, text, after.drop_last());
    } else {
        assert(whole =~= text);
    }
}

/// One white space more at the end does not matter.
proof fn lemma_trim_end(s: Seq<char>, c: char)
    requires
        is_white_space(c),
    ensures
        trimmed(s.push(c)) == trimmed(s),
    decreases s.len(),
{
    let t = s.push(c);
    if s.len() == 0 {
        assert(t.skip(1) =~= s);
    } else if is_white_space(s[0]) {
        assert(t[0] == s[0]);
        assert(t.skip(1) =~= s.skip(1).push(c));
        lemma_trim_end(s.skip(1), c);
    } else {
        assert(t[0] == s[0]);
        assert(t.drop_last() =~= s);
    }
}

/// A text is a number only if all the characters of it that are no separators are digits of its
/// radix, behind a plus sign or not, and there are some.
pub proof fn law_parsed_texts_are_digits(text: Seq<char>)
    ensures
        parsed(text) is Ok ==> {
            let s = trimmed(text);
            let radix = radix_of(s);
            let marks = (if radix == 10 {
                s
            } else {
                s.skip(2)
            }).filter(|c: char| c != '_');
            let digits = if marks.len() > 0 && marks[0] == '+' {
                marks.skip(1)
            } else {
                marks
            };
            &&& digits.len() > 0
            &&& forall|i: int|
                0 <= i < digits.len() ==> digit_value(#[trigger] digits[i], radix) is Some
        },
{
    let s = trimmed(text);
    let radix = radix_of(s);
    let marks = (if radix == 10 {
        s
    } else {
        s.skip(2)
    }).filter(no_separator());
    assert(no_separator() =~= (|c: char| c != '_'));
    let digits = if marks.len() > 0 && marks[0] == '+' {
        marks.skip(1)
    } else {
        marks
    };
    if parsed(text) is Ok {
        lemma_read_needs_digits(digits, radix, digits.len());
    }
}

/// Only digits can be read.
proof fn lemma_read_needs_digits(s: Seq<char>, radix: nat, k: nat)
    requires
        k <= s.len(),
        read_digits(s, radix, k) is Ok,
    ensures
        forall|i: int| 0 <= i < k ==> digit_value(#[trigger] s[i], radix) is Some,
    decreases k,
{
    if k > 0 {
        lemma_read_needs_digits(s, radix, (k - 1) as nat);
    }
}

/// The radix is that of the prefix, which is a zero and one of six letters; there is no other
/// prefix.
pub proof fn law_prefixes(s: Seq<char>)
    ensures
        ({
            let prefixed = s.len() >= 2 && s[0] == '0';
            &&& radix_of(s) == 16 <==> prefixed && (s[1] == 'x' || s[1] == 'X')
            &&& radix_of(s) == 8 <==> prefixed && (s[1] == 'o' || s[1] == 'O')
            &&& radix_of(s) == 2 <==> prefixed && (s[1] == 'b' || s[1] == 'B')
            &&& radix_of(s) == 16 || radix_of(s) == 8 || radix_of(s) == 2 || radix_of(s) == 10
        }),
{
}

/// A number that does not fit 64 bits is refused, in each of its spellings.
#[verifier::spinoff_prover]
#[verifier::rlimit(40)]
pub proof fn law_large_numbers_are_refused(
    n: nat,
    radix: nat,
    prefix: Seq<char>,
    body: Seq<char>,
)
    requires
        announces(prefix, radix),
        spells(body, n, radix),
        n > u64::MAX,
    ensures
        parsed(prefix + body) == Err::<u64, ParseError>(ParseError::TooLarge),
{
    let text = prefix + body;
    let digits = body.filter(no_separator());
    lemma_read_large(digits, n, radix);
    body.lemma_filter_len(no_separator());
    lemma_spelled_chars(body, n, radix, 0);
    lemma_spelled_chars(body, n, radix, body.len() - 1);
    assert(text.last() == body.last());
    if radix == 10 {
        assert(text =~= body);
        if body.len() >= 2 {
            lemma_spelled_chars(body, n, radix, 1);
        }
    } else {
        assert(text[0] == prefix[0] && text[1] == prefix[1]);
        assert(text.skip(2) =~= body);
    }
    assert(trimmed(text) == text);
    assert(radix_of(text) == radix);
    assert(digit_value(digits[0], radix) is Some);
}

/// The digits of a number that is too large are too many.
proof fn lemma_read_large(s: Seq<char>, n: nat, radix: nat)
    requires
        2 <= radix <= 16,
        n > u64::MAX,
        s.len() == digit_values(n, radix).len(),
        forall|i: int|
            0 <= i < s.len() ==> digit_value(#[trigger] s[i], radix) == Some(
                digit_values(n, radix)[i],
            ),
    ensures
        s.len() > 0,
        read_digits(s, radix, s.len()) == Err::<u64, ParseError>(ParseError::TooLarge),
    decreases n,
{
    let values = digit_values(n, radix);
    let high = n / radix;
    let init = s.drop_last();
    lemma_fundamental_div_mod(n as int, radix as int);
    lemma_div_decreases(n as int, radix as int);
    assert(values == digit_values(high, radix).push(n % radix));
    assert forall|i: int| 0 <= i < init.len() implies digit_value(#[trigger] init[i], radix)
        == Some(digit_values(high, radix)[i]) by {
        assert(init[i] == s[i]);
        assert(digit_value(s[i], radix) == Some(values[i]));
    }
    lemma_read_prefix(s, radix, (s.len() - 1) as nat);
    assert(digit_value(s[s.len() - 1], radix) == Some(values[s.len() - 1]));
    if high > u64::MAX {
        lemma_read_large(init, high, radix);
    } else {
        lemma_read_digits_of(init, high, radix);
        lemma_mul_is_commutative(radix as int, high as int);
    }
}

/// What is parsed is what the text means.
pub proof fn law_parse_u64(value: &str, r: Result<u64, ParseError>)
    requires
        call_ensures(parse_u64, (value,), r),
    ensures
        r == parsed(value@),
{
}

/// The digits of a number in a radix: the last one is the remainder, and those before it are the
/// digits of the quotient.
pub proof fn law_digit_values(n: nat, radix: nat)
    requires
        radix >= 2,
    ensures
        n < radix ==> digit_values(n, radix) == seq![n],
        n >= radix ==> digit_values(n, radix) == digit_values(n / radix, radix).push(n % radix),
{
}

/// The digit character `c` of a radix means the number `w`.
pub open spec fn means(c: char, radix: nat, w: nat) -> bool {
    &&& w < radix
    &&& if w < 10 {
        c as nat == '0' as nat + w
    } else {
        c as nat == 'a' as nat + w - 10 || c as nat == 'A' as nat + w - 10
    }
}

/// Reading goes from left to right: one digit more multiplies the number by the radix and adds the
/// digit, and is refused if that does not fit; a separator more changes nothing.
#[verifier::spinoff_prover]
#[verifier::rlimit(60)]
pub proof fn law_one_more_digit(prefix: Seq<char>, body: Seq<char>, radix: nat, c: char, w: nat)
    requires
        ({
            ||| radix == 10 && prefix.len() == 0
            ||| radix == 16 && (prefix == seq!['0', 'x'] || prefix == seq!['0', 'X'])
            ||| radix == 8 && (prefix == seq!['0', 'o'] || prefix == seq!['0', 'O'])
            ||| radix == 2 && (prefix == seq!['0', 'b'] || prefix == seq!['0', 'B'])
        }),
        forall|i: int|
            0 <= i < body.len() ==> (#[trigger] body[i] == '_' || exists|v: nat|
                means(body[i], radix, v)),
        means(c, radix, w),
    ensures
        body.len() == 0 ==> parsed(prefix + body.push(c)) == Ok::<u64, ParseError>(w as u64),
        parsed(prefix + body) matches Ok(v) ==> parsed(prefix + body.push(c)) == (if v * radix + w
            <= u64::MAX {
            Ok::<u64, ParseError>((v * radix + w) as u64)
        } else {
            Err(ParseError::TooLarge)
        }),
        body.len() > 0 ==> parsed(prefix + body.push('_')) == parsed(prefix + body),
{
    let more = body.push(c);
    let apart = body.push('_');
    if radix == 10 {
        assert(prefix =~= Seq::<char>::empty());
    }
    lemma_digit_text(prefix, body, radix);
    assert forall|i: int| 0 <= i < more.len() implies (#[trigger] more[i] == '_' || exists|v: nat|
        means(more[i], radix, v)) by {
        if i < body.len() {
            assert(more[i] == body[i]);
        } else {
            assert(means(more[i], radix, w));
        }
    }
    lemma_digit_text(prefix, more, radix);
    assert forall|i: int|
        0 <= i < apart.len() implies (#[trigger] apart[i] == '_' || exists|v: nat|
        means(apart[i], radix, v)) by {
        if i < body.len() {
            assert(apart[i] == body[i]);
        }
    }
    lemma_digit_text(prefix, apart, radix);
    body.lemma_filter_push(c, no_separator());
    body.lemma_filter_push('_', no_separator());
    let digits = body.filter(no_separator());
    law_digits(c, radix, w);
    lemma_read_prefix(digits.push(c), radix, digits.len());
    assert(digits.push(c).drop_last() =~= digits);
    if body.len() == 0 {
        reveal(Seq::filter);
        assert(digits.len() == 0);
        assert(0 * radix == 0);
    }
}

/// What a text of digits behind a prefix means is what its digits make.
#[verifier::spinoff_prover]
#[verifier::rlimit(60)]
proof fn lemma_digit_text(prefix: Seq<char>, body: Seq<char>, radix: nat)
    requires
        announces(prefix, radix),
        forall|i: int|
            0 <= i < body.len() ==> (#[trigger] body[i] == '_' || exists|v: nat|
                means(body[i], radix, v)),
    ensures
        ({
            let digits = body.filter(no_separator());
            body.len() > 0 ==> parsed(prefix + body) == if digits.len() == 0 {
                Err(ParseError::Empty)
            } else {
                read_digits(digits, radix, digits.len())
            }
        }),
        radix == 10 && body.len() == 0 ==> parsed(prefix + body) is Err,
        radix != 10 && body.len() == 0 ==> parsed(prefix + body) is Err,
{
    let text = prefix + body;
    let digits = body.filter(no_separator());
    assert forall|i: int| 0 <= i < body.len() implies !is_white_space(#[trigger] body[i]) && body[i]
        != '+' && (radix == 10 ==> body[i] == '_' || 48 <= body[i] as nat <= 57) by {
        lemma_char_number(body[i]);
        if body[i] != '_' {
            let v = choose|v: nat| means(body[i], radix, v);
            assert(means(body[i], radix, v));
        }
    }
    if body.len() > 0 {
        assert(text.last() == body.last());
    }
    if radix == 10 {
        assert(text =~= body);
    } else {
        assert(text[0] == prefix[0] && text[1] == prefix[1]);
        assert(text.skip(2) =~= body);
        if body.len() == 0 {
            assert(text.last() == prefix[1]);
            lemma_char_number(prefix[1]);
        }
        lemma_char_number(prefix[0]);
    }
    assert(trimmed(text) == text);
    assert(radix_of(text) == radix);
    if digits.len() > 0 {
        assert(digits.contains(digits[0]));
        crate::seqs::lemma_filter_from(body, no_separator(), digits[0]);
        let i = choose|i: int| 0 <= i < body.len() && body[i] == digits[0];
        assert(body[i] != '+');
    }
    if body.len() == 0 {
        reveal(Seq::filter);
    }
}

/// A plus sign in front of the digits changes nothing.
#[verifier::spinoff_prover]
#[verifier::rlimit(60)]
pub proof fn law_plus_sign(prefix: Seq<char>, body: Seq<char>, radix: nat, w: nat)
    requires
        ({
            ||| radix == 10 && prefix.len() == 0
            ||| radix == 16 && (prefix == seq!['0', 'x'] || prefix == seq!['0', 'X'])
            ||| radix == 8 && (prefix == seq!['0', 'o'] || prefix == seq!['0', 'O'])
            ||| radix == 2 && (prefix == seq!['0', 'b'] || prefix == seq!['0', 'B'])
        }),
        body.len() > 0,
        means(body[0], radix, w),
        forall|i: int|
            0 <= i < body.len() ==> (#[trigger] body[i] == '_' || exists|v: nat|
                means(body[i], radix, v)),
    ensures
        parsed(prefix + seq!['+'] + body) == parsed(prefix + body),
{
    let text = prefix + seq!['+'] + body;
    let digits = body.filter(no_separator());
    if radix == 10 {
        assert(prefix =~= Seq::<char>::empty());
    }
    lemma_digit_text(prefix, body, radix);
    assert(body[0] != '_');
    body.lemma_filter_contains(no_separator(), 0);
    assert(digits.len() > 0);
    let last = body.last();
    assert(!is_white_space(last)) by {
        lemma_char_number(last);
        let i = body.len() - 1;
        if body[i] != '_' {
            let v = choose|v: nat| means(body[i], radix, v);
            assert(means(body[i], radix, v));
        }
    }
    assert(text.last() == last);
    lemma_char_number('+');
    if radix == 10 {
        assert(text[0] == '+');
    } else {
        assert(text[0] == prefix[0] && text[1] == prefix[1]);
        lemma_char_number(prefix[0]);
    }
    assert(trimmed(text) == text);
    assert(radix_of(text) == radix);
    let signed = seq!['+'] + body;
    assert((if radix == 10 {
        text
    } else {
        text.skip(2)
    }) =~= signed);
    Seq::filter_distributes_over_add(seq!['+'], body, no_separator());
    Seq::<char>::empty().lemma_filter_push('+', no_separator());
    reveal(Seq::filter);
    assert(Seq::<char>::empty().push('+') =~= seq!['+']);
    assert(seq!['+'].filter(no_separator()) =~= seq!['+']);
    assert(signed.filter(no_separator()) =~= seq!['+'] + digits);
    assert((seq!['+'] + digits).skip(1) =~= digits);
}

/// White space is what Unicode says it is: tabs, line ends, spaces and separators.
pub proof fn law_white_space(c: char)
    ensures
        is_white_space(c) <==> {
            ||| '\t' as u32 <= c as u32 <= '\r' as u32
            ||| c == ' '
            ||| c == '\u{85}'
            ||| c == '\u{a0}'
            ||| c == '\u{1680}'
            ||| '\u{2000}' as u32 <= c as u32 <= '\u{200a}' as u32
            ||| c == '\u{2028}'
            ||| c == '\u{2029}'
            ||| c == '\u{202f}'
            ||| c == '\u{205f}'
            ||| c == '\u{3000}'
        },
{
}

} // verus!
