use crate::digits::{
    all_digits, digits_value, find_byte, first_index, is_digit, number_spec, parse_digits,
    parse_number, pow10, unsigned_digits, NumberError, DOT,
};
use vstd::arithmetic::div_mod::lemma_fundamental_div_mod_converse;
use vstd::prelude::*;
use vstd::string::*;

verus! {

/// Number of fractional digits a [FixedDecimal] carries.
pub const NUM_DECIMAL_DIGITS: usize = 4;

/// Scale between a [FixedDecimal]'s value and its underlying integer.
pub const DIVISOR: u64 = 10000;

/// The largest underlying integer of a [FixedDecimal].
pub const MAX_RAW: u64 = 18446744073709551615;

/// The maximum number of chars a [FixedDecimal] produces when rendered.
pub const MAX_DISP_LEN: usize = 21;

/// Why a text is not a [FixedDecimal].
#[non_exhaustive]
#[derive(Debug, Clone, Copy, PartialEq, Eq, Structural)]
pub enum ErrorKind {
    /// There is no `.` in the text.
    InvalidFormat,
    /// The part before the first `.` is not a 64-bit unsigned decimal number (an
    /// optional `+`, then digits).
    WholePartParseError,
    /// The part after the first `.` is empty or holds a byte that is not a digit.
    DecimalPartParseError,
    /// The part after the first `.` has more than four digits.
    DecimalOverflow,
    /// The number is larger than the largest [FixedDecimal].
    OverFlow,
}

/// The underlying integer of `whole.decimal`: the whole part may carry a `+`, and the
/// fraction's digits are read as the leading ones of four.
pub open spec fn scaled_value(whole: Seq<u8>, decimal: Seq<u8>) -> nat {
    digits_value(unsigned_digits(whole)) * 10000 + digits_value(decimal) * pow10(
        (4 - decimal.len()) as nat,
    )
}

/// What reading the text `s` as a [FixedDecimal] gives: its underlying integer, or why
/// it is not one.
pub open spec fn parse_spec(s: Seq<u8>) -> Result<nat, ErrorKind> {
    let i = first_index(s, DOT);
    let whole = s.subrange(0, i);
    let decimal = s.subrange(i + 1, s.len() as int);
    if i == s.len() {
        Err(ErrorKind::InvalidFormat)
    } else if !(number_spec(whole, MAX_RAW as nat) is Ok) {
        Err(ErrorKind::WholePartParseError)
    } else if decimal.len() == 0 || !all_digits(decimal) {
        Err(ErrorKind::DecimalPartParseError)
    } else if decimal.len() > NUM_DECIMAL_DIGITS {
        Err(ErrorKind::DecimalOverflow)
    } else if scaled_value(whole, decimal) > MAX_RAW {
        Err(ErrorKind::OverFlow)
    } else {
        Ok(scaled_value(whole, decimal))
    }
}

/// The character of the decimal digit `d`.
pub open spec fn digit_char(d: nat) -> char {
    if d == 0 {
        '0'
    } else if d == 1 {
        '1'
    } else if d == 2 {
        '2'
    } else if d == 3 {
        '3'
    } else if d == 4 {
        '4'
    } else if d == 5 {
        '5'
    } else if d == 6 {
        '6'
    } else if d == 7 {
        '7'
    } else if d == 8 {
        '8'
    } else {
        '9'
    }
}

/// The shortest decimal digits of `n`.
pub open spec fn decimal_text(n: nat) -> Seq<char>
    decreases n,
{
    if n < 10 {
        seq![digit_char(n)]
    } else {
        decimal_text(n / 10).push(digit_char(n % 10))
    }
}

/// The last `width` decimal digits of `n`, with leading zeros.
pub open spec fn padded_text(n: nat, width: nat) -> Seq<char>
    decreases width,
{
    if width == 0 {
        seq![]
    } else {
        padded_text(n / 10, (width - 1) as nat).push(digit_char(n % 10))
    }
}

/// The `width` digits of the fraction `f` without their trailing zeros, keeping at
/// least one digit.
pub open spec fn fraction_text(f: nat, width: nat) -> Seq<char>
    decreases width,
{
    if width > 1 && f % 10 == 0 {
        fraction_text(f / 10, (width - 1) as nat)
    } else {
        padded_text(f, width)
    }
}

/// The text of the number whose underlying integer is `v`: the whole part, a `.`,
/// and the fraction without trailing zeros but with at least one digit.
pub open spec fn format_spec(v: nat) -> Seq<char> {
    decimal_text(v / 10000) + seq!['.'] + fraction_text(v % 10000, 4)
}

fn digit_str(d: u64) -> (r: &'static str)
    requires
        d < 10,
    ensures
        r@ == seq![digit_char(d as nat)],
{
    if d == 0 {
        proof {
            reveal_strlit("0");
        }
        "0"
    } else if d == 1 {
        proof {
            reveal_strlit("1");
        }
        "1"
    } else if d == 2 {
        proof {
            reveal_strlit("2");
        }
        "2"
    } else if d == 3 {
        proof {
            reveal_strlit("3");
        }
        "3"
    } else if d == 4 {
        proof {
            reveal_strlit("4");
        }
        "4"
    } else if d == 5 {
        proof {
            reveal_strlit("5");
        }
        "5"
    } else if d == 6 {
        proof {
            reveal_strlit("6");
        }
        "6"
    } else if d == 7 {
        proof {
            reveal_strlit("7");
        }
        "7"
    } else if d == 8 {
        proof {
            reveal_strlit("8");
        }
        "8"
    } else {
        proof {
            reveal_strlit("9");
        }
        "9"
    }
}

/// Appends the decimal digits of `n`.
pub fn push_decimal(out: &mut String, n: u64)
    ensures
        final(out)@ == old(out)@ + decimal_text(n as nat),
    decreases n,
{
    if n >= 10 {
        push_decimal(out, n / 10);
    }
    out.append(digit_str(n % 10));
    proof {
        if n >= 10 {
            assert(final(out)@ =~= old(out)@ + decimal_text(n as nat));
        }
    }
}

fn push_padded(out: &mut String, n: u64, width: u64)
    ensures
        final(out)@ == old(out)@ + padded_text(n as nat, width as nat),
    decreases width,
{
    if width > 0 {
        push_padded(out, n / 10, width - 1);
        out.append(digit_str(n % 10));
        assert(final(out)@ =~= old(out)@ + padded_text(n as nat, width as nat));
    } else {
        assert(final(out)@ =~= old(out)@ + padded_text(n as nat, width as nat));
    }
}

fn push_fraction(out: &mut String, f: u64, width: u64)
    ensures
        final(out)@ == old(out)@ + fraction_text(f as nat, width as nat),
    decreases width,
{
    if width > 1 && f % 10 == 0 {
        push_fraction(out, f / 10, width - 1);
    } else {
        push_padded(out, f, width);
    }
}

proof fn lemma_digits_value_bound(s: Seq<u8>)
    requires
        all_digits(s),
    ensures
        digits_value(s) < pow10(s.len()),
    decreases s.len(),
{
    if s.len() > 0 {
        assert(all_digits(s.drop_last()));
        lemma_digits_value_bound(s.drop_last());
    }
}

fn pow10_exec(k: usize) -> (r: u64)
    requires
        k <= 4,
    ensures
        r as nat == pow10(k as nat),
        r <= 10000,
{
    proof {
        reveal_with_fuel(pow10, 5);
    }
    if k == 0 {
        1
    } else if k == 1 {
        10
    } else if k == 2 {
        100
    } else if k == 3 {
        1000
    } else {
        10000
    }
}

/// An unsigned number with exactly four fractional digits, stored as its value
/// times ten thousand.
#[derive(Debug, Clone, Copy, PartialEq, Eq, Structural, PartialOrd, Ord, Hash)]
pub struct FixedDecimal {
    data: u64,
}

impl View for FixedDecimal {
    type V = nat;

    /// The value times ten thousand.
    closed spec fn view(&self) -> nat {
        self.data as nat
    }
}

/// Every [FixedDecimal] fits the 64-bit range.
pub broadcast proof fn lemma_fixed_decimal_bounded(x: FixedDecimal)
    ensures
        #[trigger] x@ <= MAX_RAW,
{
}

impl FixedDecimal {
    /// The largest [FixedDecimal], `1844674407370955.1615`.
    pub fn max_value() -> (r: FixedDecimal)
        ensures
            r@ == MAX_RAW as nat,
    {
        FixedDecimal { data: MAX_RAW }
    }

    /// Reads the text `s` (UTF-8 bytes) of the form `W.D`, with `W` an unsigned decimal
    /// number and `D` one to four decimal digits.
    pub fn parse(s: &[u8]) -> (r: Result<FixedDecimal, ErrorKind>)
        ensures
            match (r, parse_spec(s@)) {
                (Ok(v), Ok(w)) => v@ == w,
                (Err(e), Err(f)) => e == f,
                _ => false,
            },
    {
        let i = find_byte(s, s.len(), DOT);
        assert(s@.subrange(0, s@.len() as int) =~= s@);
        if i == s.len() {
            return Err(ErrorKind::InvalidFormat);
        }
        let whole_bytes = &s[0..i];
        let decimal_bytes = &s[i + 1..s.len()];
        let whole = match parse_number(whole_bytes, MAX_RAW) {
            Ok(w) => w,
            Err(_) => {
                return Err(ErrorKind::WholePartParseError);
            },
        };
        if decimal_bytes.len() == 0 {
            return Err(ErrorKind::DecimalPartParseError);
        }
        let decimal = match parse_digits(decimal_bytes, MAX_RAW) {
            Ok(d) => d,
            Err(NumberError::Overflow) => {
                proof {
                    lemma_digits_value_bound(decimal_bytes@);
                    reveal_with_fuel(pow10, 5);
                }
                return Err(ErrorKind::DecimalOverflow);
            },
            Err(_) => {
                return Err(ErrorKind::DecimalPartParseError);
            },
        };
        if decimal_bytes.len() > NUM_DECIMAL_DIGITS {
            return Err(ErrorKind::DecimalOverflow);
        }
        proof {
            lemma_digits_value_bound(decimal_bytes@);
            reveal_with_fuel(pow10, 5);
        }
        let scale = pow10_exec(NUM_DECIMAL_DIGITS - decimal_bytes.len());
        assert(decimal < 10000) by {
            let k = decimal_bytes@.len();
            assert(k <= 4);
            assert(pow10(k) <= 10000);
        }
        assert(whole as u128 * 10000 + decimal as u128 * scale as u128 <= 0xffff_ffff_ffff_ffff * 10000 + 10000 * 10000) by (nonlinear_arith)
            requires
                whole <= 0xffff_ffff_ffff_ffffu64,
                decimal < 10000,
                scale <= 10000,
        ;
        let composed: u128 = whole as u128 * 10000 + decimal as u128 * scale as u128;
        if composed > MAX_RAW as u128 {
            return Err(ErrorKind::OverFlow);
        }
        Ok(FixedDecimal { data: composed as u64 })
    }

    /// The text of the number: the whole part, a `.`, and the fraction without
    /// trailing zeros but with at least one digit (`0.0`, `0.001`, `1234.9876`).
    pub fn to_string(&self) -> (r: String)
        ensures
            r@ == format_spec(self@),
    {
        let mut out = String::new();
        push_decimal(&mut out, self.data / DIVISOR);
        proof {
            reveal_strlit(".");
        }
        out.append(".");
        push_fraction(&mut out, self.data % DIVISOR, 4);
        assert(out@ =~= format_spec(self@));
        out
    }

    /// The fraction as an integer of four digits, with the number of zeros that
    /// precede its first significant digit; `(0, 0)` when the fraction is zero.
    pub fn get_decimal_part(&self) -> (r: (u64, usize))
        ensures
            r.0 as nat == self@ % 10000,
            r.0 == 0 ==> r.1 == 0,
            r.0 != 0 ==> r.1 <= 3 && pow10((3 - r.1) as nat) <= r.0 < pow10((4 - r.1) as nat),
    {
        let d = self.data % DIVISOR;
        if d == 0 {
            return (0, 0);
        }
        proof {
            reveal_with_fuel(pow10, 5);
        }
        let mut zeros: usize = 0;
        let mut bound: u64 = 1000;
        while d < bound
            invariant
                zeros <= 3,
                1 <= d < 10000,
                bound as nat == pow10((3 - zeros) as nat),
                d < pow10((4 - zeros) as nat),
            decreases bound,
        {
            zeros = zeros + 1;
            bound = bound / 10;
        }
        (d, zeros)
    }

    /// The number whose underlying integer is `raw`.
    pub fn from_raw(raw: u64) -> (r: FixedDecimal)
        ensures
            r@ == raw as nat,
    {
        FixedDecimal { data: raw }
    }

    /// The underlying integer: the value times ten thousand.
    pub fn raw(&self) -> (r: u64)
        ensures
            r as nat == self@,
    {
        self.data
    }

    /// The sum, or `None` when it exceeds the largest [FixedDecimal].
    pub fn checked_add(self, rhs: FixedDecimal) -> (r: Option<FixedDecimal>)
        ensures
            r is None <==> self@ + rhs@ > MAX_RAW,
            r matches Some(v) ==> v@ == self@ + rhs@,
    {
        match self.data.checked_add(rhs.data) {
            Some(inner) => Some(FixedDecimal { data: inner }),
            None => None,
        }
    }

    /// The difference, or `None` when `rhs` is larger than `self`.
    pub fn checked_sub(self, rhs: FixedDecimal) -> (r: Option<FixedDecimal>)
        ensures
            r is None <==> rhs@ > self@,
            r matches Some(v) ==> v@ == self@ - rhs@,
    {
        match self.data.checked_sub(rhs.data) {
            Some(inner) => Some(FixedDecimal { data: inner }),
            None => None,
        }
    }

    /// The whole part of the value.
    pub fn get_whole_part(&self) -> (r: u64)
        ensures
            r as nat == self@ / (DIVISOR as nat),
    {
        self.data / DIVISOR
    }
}

impl std::str::FromStr for FixedDecimal {
    type Err = ErrorKind;

    /// Reads the text `s` as [FixedDecimal::parse] reads its UTF-8 bytes.
    fn from_str(s: &str) -> (r: Result<FixedDecimal, ErrorKind>)
        ensures
            match (r, parse_spec(s.spec_bytes())) {
                (Ok(v), Ok(w)) => v@ == w,
                (Err(e), Err(f)) => e == f,
                _ => false,
            },
    {
        FixedDecimal::parse(s.as_bytes())
    }
}

impl Default for FixedDecimal {
    fn default() -> (r: FixedDecimal)
        ensures
            r@ == 0,
    {
        FixedDecimal { data: 0 }
    }
}

/// `s` without its trailing `0` digits, keeping at least one byte.
pub open spec fn trim_trailing_zeros(s: Seq<u8>) -> Seq<u8>
    decreases s.len(),
{
    if s.len() > 1 && s.last() == 48 {
        trim_trailing_zeros(s.drop_last())
    } else {
        s
    }
}

/// The characters of the decimal digit bytes `s`.
pub open spec fn digit_chars(s: Seq<u8>) -> Seq<char> {
    s.map_values(|b: u8| digit_char((b - 48) as nat))
}

/// `s` without its leading `0` digits, keeping at least one byte.
pub open spec fn trim_leading_zeros(s: Seq<u8>) -> Seq<u8>
    decreases s.len(),
{
    if s.len() > 1 && s[0] == 48 {
        trim_leading_zeros(s.drop_first())
    } else {
        s
    }
}

/// `s` is a well-formed number: a whole part of digits, a `.`, one to four
/// fractional digits, and a value in range.
pub open spec fn is_canonical(s: Seq<u8>) -> bool {
    let i = first_index(s, DOT);
    let whole = s.subrange(0, i);
    let decimal = s.subrange(i + 1, s.len() as int);
    &&& i < s.len()
    &&& whole.len() > 0
    &&& all_digits(whole)
    &&& 1 <= decimal.len() <= NUM_DECIMAL_DIGITS
    &&& all_digits(decimal)
    &&& scaled_value(whole, decimal) <= MAX_RAW
}

/// The canonical text of a well-formed number: its whole part without leading zeros,
/// and its fraction without trailing zeros, each keeping at least one digit.
pub open spec fn canonical_text(s: Seq<u8>) -> Seq<char> {
    let i = first_index(s, DOT);
    digit_chars(trim_leading_zeros(s.subrange(0, i))) + seq!['.'] + digit_chars(
        trim_trailing_zeros(s.subrange(i + 1, s.len() as int)),
    )
}

proof fn lemma_digits_value_positive(w: Seq<u8>)
    requires
        w.len() > 0,
        all_digits(w),
        w[0] != 48,
    ensures
        digits_value(w) >= 1,
    decreases w.len(),
{
    if w.len() > 1 {
        let p = w.drop_last();
        assert(p[0] == w[0]);
        assert(all_digits(p));
        lemma_digits_value_positive(p);
    }
}

proof fn lemma_decimal_text_of_digits(w: Seq<u8>)
    requires
        w.len() > 0,
        all_digits(w),
        w.len() == 1 || w[0] != 48,
    ensures
        decimal_text(digits_value(w)) == digit_chars(w),
    decreases w.len(),
{
    let p = w.drop_last();
    let n = digits_value(w);
    assert(is_digit(w[w.len() - 1]));
    if w.len() == 1 {
        assert(digits_value(p) == 0);
        assert(digit_chars(w) =~= seq![digit_char(n)]);
    } else {
        assert(p[0] == w[0]);
        assert(all_digits(p));
        lemma_digits_value_positive(p);
        lemma_decimal_text_of_digits(p);
        lemma_fundamental_div_mod_converse(n as int, 10, digits_value(p) as int, (w.last() - 48) as int);
        assert(digit_chars(w) =~= digit_chars(p).push(digit_char((w.last() - 48) as nat)));
    }
}

proof fn lemma_trim_leading_zeros(w: Seq<u8>)
    requires
        w.len() > 0,
        all_digits(w),
    ensures
        trim_leading_zeros(w).len() > 0,
        all_digits(trim_leading_zeros(w)),
        trim_leading_zeros(w).len() == 1 || trim_leading_zeros(w)[0] != 48,
        digits_value(trim_leading_zeros(w)) == digits_value(w),
    decreases w.len(),
{
    if w.len() > 1 && w[0] == 48 {
        let t = w.drop_first();
        assert(all_digits(t));
        lemma_trim_leading_zeros(t);
        lemma_leading_zero_value(w);
    }
}

proof fn lemma_leading_zero_value(w: Seq<u8>)
    requires
        w.len() > 0,
        all_digits(w),
        w[0] == 48,
    ensures
        digits_value(w) == digits_value(w.drop_first()),
    decreases w.len(),
{
    if w.len() > 1 {
        let p = w.drop_last();
        assert(p[0] == 48);
        assert(all_digits(p));
        lemma_leading_zero_value(p);
        let q = w.drop_first();
        assert(q.drop_last() =~= p.drop_first());
        assert(q.last() == w.last());
        assert(digits_value(q) == digits_value(q.drop_last()) * 10 + (q.last() - 48) as nat);
        assert(digits_value(w) == digits_value(p) * 10 + (w.last() - 48) as nat);
    } else {
        assert(digits_value(w.drop_last()) == 0);
        assert(digits_value(w.drop_first()) == 0);
        assert(digits_value(w) == digits_value(w.drop_last()) * 10 + (w.last() - 48) as nat);
    }
}

proof fn lemma_padded_text_of_digits(d: Seq<u8>)
    requires
        all_digits(d),
    ensures
        padded_text(digits_value(d), d.len()) == digit_chars(d),
    decreases d.len(),
{
    if d.len() > 0 {
        let p = d.drop_last();
        let n = digits_value(d);
        assert(is_digit(d[d.len() - 1]));
        assert(all_digits(p));
        lemma_padded_text_of_digits(p);
        lemma_fundamental_div_mod_converse(n as int, 10, digits_value(p) as int, (d.last() - 48) as int);
        assert(digit_chars(d) =~= digit_chars(p).push(digit_char((d.last() - 48) as nat)));
    } else {
        assert(digit_chars(d) =~= seq![]);
    }
}

proof fn lemma_fraction_text_scaled(n: nat, m: nat, k: nat)
    requires
        m >= 1,
    ensures
        fraction_text(n * pow10(k), m + k) == fraction_text(n, m),
    decreases k,
{
    if k > 0 {
        let x = n * pow10((k - 1) as nat);
        assert(n * pow10(k) == x * 10) by (nonlinear_arith)
            requires
                pow10(k) == 10 * pow10((k - 1) as nat),
                x == n * pow10((k - 1) as nat),
        ;
        lemma_fundamental_div_mod_converse((x * 10) as int, 10, x as int, 0);
        lemma_fraction_text_scaled(n, m, (k - 1) as nat);
    } else {
        assert(pow10(k) == 1);
        assert(n * pow10(k) == n);
    }
}

proof fn lemma_fraction_text_of_digits(d: Seq<u8>)
    requires
        d.len() >= 1,
        all_digits(d),
    ensures
        fraction_text(digits_value(d), d.len()) == digit_chars(trim_trailing_zeros(d)),
    decreases d.len(),
{
    let p = d.drop_last();
    let n = digits_value(d);
    assert(is_digit(d[d.len() - 1]));
    assert(all_digits(p));
    lemma_fundamental_div_mod_converse(n as int, 10, digits_value(p) as int, (d.last() - 48) as int);
    if d.len() > 1 && d.last() == 48 {
        lemma_fraction_text_of_digits(p);
    } else {
        lemma_padded_text_of_digits(d);
    }
}

proof fn lemma_pow10_add(a: nat, b: nat)
    ensures
        pow10(a) * pow10(b) == pow10(a + b),
    decreases a,
{
    if a > 0 {
        lemma_pow10_add((a - 1) as nat, b);
        assert(pow10(a + b) == 10 * pow10(((a - 1) + b) as nat));
        assert(pow10(a) * pow10(b) == 10 * (pow10((a - 1) as nat) * pow10(b))) by (nonlinear_arith)
            requires
                pow10(a) == 10 * pow10((a - 1) as nat),
        ;
    } else {
        assert(pow10(a) == 1);
    }
}

/// Reading a well-formed number and rendering it again gives its canonical text: the
/// whole part without leading zeros, the fraction without trailing zeros.
pub proof fn lemma_round_trip(s: Seq<u8>)
    requires
        is_canonical(s),
    ensures
        parse_spec(s) is Ok,
        format_spec(parse_spec(s)->Ok_0) == canonical_text(s),
{
    let i = first_index(s, DOT);
    let whole = s.subrange(0, i);
    let decimal = s.subrange(i + 1, s.len() as int);
    let k = decimal.len();
    let f = digits_value(decimal) * pow10((4 - k) as nat);
    let v = scaled_value(whole, decimal);
    lemma_digits_value_bound(decimal);
    lemma_pow10_add(k, (4 - k) as nat);
    reveal_with_fuel(pow10, 5);
    assert(f < 10000) by (nonlinear_arith)
        requires
            digits_value(decimal) < pow10(k),
            f == digits_value(decimal) * pow10((4 - k) as nat),
            pow10(k) * pow10((4 - k) as nat) == 10000,
    ;
    lemma_fundamental_div_mod_converse(v as int, 10000, digits_value(whole) as int, f as int);
    lemma_trim_leading_zeros(whole);
    lemma_decimal_text_of_digits(trim_leading_zeros(whole));
    lemma_fraction_text_scaled(digits_value(decimal), k, (4 - k) as nat);
    lemma_fraction_text_of_digits(decimal);
}

/// The largest number renders in exactly [MAX_DISP_LEN] characters.
pub proof fn lemma_max_display_len()
    ensures
        format_spec(MAX_RAW as nat).len() == MAX_DISP_LEN,
{
    reveal_with_fuel(decimal_text, 17);
    reveal_with_fuel(fraction_text, 2);
    reveal_with_fuel(padded_text, 5);
}

} // verus!
