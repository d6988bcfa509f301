use vstd::prelude::*;

verus! {

/// The byte of `'.'`.
pub const DOT: u8 = 46;

/// Whether `b` is an ASCII decimal digit.
pub open spec fn is_digit(b: u8) -> bool {
    48 <= b <= 57
}

/// Whether every byte of `s` is an ASCII decimal digit.
pub open spec fn all_digits(s: Seq<u8>) -> bool {
    forall|i: int| 0 <= i < s.len() ==> is_digit(#[trigger] s[i])
}

/// The number that the decimal digits `s` spell (most significant first).
pub open spec fn digits_value(s: Seq<u8>) -> nat
    decreases s.len(),
{
    if s.len() == 0 {
        0
    } else {
        digits_value(s.drop_last()) * 10 + (s.last() - 48) as nat
    }
}

/// Ten to the power `k`.
pub open spec fn pow10(k: nat) -> nat
    decreases k,
{
    if k == 0 {
        1
    } else {
        10 * pow10((k - 1) as nat)
    }
}

/// `i` is the position of the first `b` in `s`.
pub open spec fn is_first_index(s: Seq<u8>, b: u8, i: int) -> bool {
    &&& 0 <= i < s.len()
    &&& s[i] == b
    &&& forall|j: int| 0 <= j < i ==> s[j] != b
}

/// The position of the first `b` in `s`, or the length of `s` when there is none.
pub open spec fn first_index(s: Seq<u8>, b: u8) -> int {
    if exists|i: int| is_first_index(s, b, i) {
        choose|i: int| is_first_index(s, b, i)
    } else {
        s.len() as int
    }
}

/// The outcome of reading a bounded unsigned decimal number.
#[derive(Debug, Clone, Copy, PartialEq, Eq, Structural)]
pub enum NumberError {
    /// There were no bytes at all.
    Empty,
    /// A byte is not a decimal digit.
    InvalidDigit,
    /// The digits spell a number above the bound.
    Overflow,
}

/// The byte of `'+'`.
pub const PLUS: u8 = 43;

/// The digits of the number text `s`: `s` without one leading `+`, if it has one.
pub open spec fn unsigned_digits(s: Seq<u8>) -> Seq<u8> {
    if s.len() > 0 && s[0] == PLUS {
        s.drop_first()
    } else {
        s
    }
}

/// What reading `s` as a decimal number no larger than `max` gives: an optional `+`
/// followed by at least one digit, as the standard library reads unsigned integers.
pub open spec fn number_spec(s: Seq<u8>, max: nat) -> Result<nat, NumberError> {
    let digits = unsigned_digits(s);
    if s.len() == 0 {
        Err(NumberError::Empty)
    } else if digits.len() == 0 || !all_digits(digits) {
        Err(NumberError::InvalidDigit)
    } else if digits_value(digits) > max {
        Err(NumberError::Overflow)
    } else {
        Ok(digits_value(digits))
    }
}

pub proof fn lemma_first_index_unique(s: Seq<u8>, b: u8, i: int)
    requires
        is_first_index(s, b, i),
    ensures
        first_index(s, b) == i,
{
    let k = choose|k: int| is_first_index(s, b, k);
    assert(is_first_index(s, b, k));
    if k < i {
        assert(s[k] != b);
    } else if i < k {
        assert(s[i] != b);
    }
}

proof fn lemma_absent_without_first(s: Seq<u8>, b: u8, j: int)
    requires
        !exists|k: int| is_first_index(s, b, k),
        0 <= j < s.len(),
    ensures
        s[j] != b,
    decreases j,
{
    if s[j] == b {
        assert forall|i: int| 0 <= i < j implies s[i] != b by {
            lemma_absent_without_first(s, b, i);
        }
        assert(is_first_index(s, b, j));
    }
}

/// The first index of `b` in `s` is a position of `b`, or the length of `s`, and
/// no `b` comes before it.
pub proof fn lemma_first_index_props(s: Seq<u8>, b: u8)
    ensures
        0 <= first_index(s, b) <= s.len(),
        first_index(s, b) < s.len() ==> s[first_index(s, b)] == b,
        forall|j: int| 0 <= j < first_index(s, b) ==> s[j] != b,
{
    if !exists|k: int| is_first_index(s, b, k) {
        assert forall|j: int| 0 <= j < first_index(s, b) implies s[j] != b by {
            lemma_absent_without_first(s, b, j);
        }
    }
}

/// A prefix of `s` with no `b` has its length as the first index of `b`.
pub proof fn lemma_first_index_absent(s: Seq<u8>, b: u8)
    requires
        forall|j: int| 0 <= j < s.len() ==> s[j] != b,
    ensures
        first_index(s, b) == s.len(),
{
    assert(!exists|k: int| is_first_index(s, b, k));
}

/// Appending a digit never makes the spelled number smaller.
proof fn lemma_digits_value_prefix(s: Seq<u8>, j: int, k: int)
    requires
        0 <= j <= k <= s.len(),
    ensures
        digits_value(s.subrange(0, j)) <= digits_value(s.subrange(0, k)),
    decreases k - j,
{
    if j < k {
        lemma_digits_value_prefix(s, j, k - 1);
        assert(s.subrange(0, k).drop_last() =~= s.subrange(0, k - 1));
    }
}

/// The position of the first `b` among the first `hi` bytes of `s`, or `hi`.
pub fn find_byte(s: &[u8], hi: usize, b: u8) -> (r: usize)
    requires
        hi <= s@.len(),
    ensures
        r as int == first_index(s@.subrange(0, hi as int), b),
        r <= hi,
        r < hi ==> s@[r as int] == b,
        forall|j: int| 0 <= j < r ==> s@[j] != b,
{
    let ghost t = s@.subrange(0, hi as int);
    let mut i: usize = 0;
    while i < hi
        invariant
            i <= hi <= s@.len(),
            t == s@.subrange(0, hi as int),
            forall|j: int| 0 <= j < i ==> t[j] != b,
            forall|j: int| 0 <= j < i ==> s@[j] != b,
        decreases hi - i,
    {
        if s[i] == b {
            proof {
                lemma_first_index_unique(t, b, i as int);
            }
            return i;
        }
        i = i + 1;
    }
    assert(!exists|k: int| is_first_index(t, b, k));
    hi
}

/// Reads `s` as a decimal number no larger than `max`, after an optional `+`.
pub fn parse_number(s: &[u8], max: u64) -> (r: Result<u64, NumberError>)
    ensures
        match (r, number_spec(s@, max as nat)) {
            (Ok(v), Ok(w)) => v as nat == w,
            (Err(e), Err(f)) => e == f,
            _ => false,
        },
{
    if s.len() == 0 {
        return Err(NumberError::Empty);
    }
    if s[0] == PLUS {
        let digits = &s[1..s.len()];
        assert(digits@ =~= s@.drop_first());
        if digits.len() == 0 {
            return Err(NumberError::InvalidDigit);
        }
        parse_digits(digits, max)
    } else {
        parse_digits(s, max)
    }
}

/// Reads the nonempty `s` as decimal digits of a number no larger than `max`.
pub fn parse_digits(s: &[u8], max: u64) -> (r: Result<u64, NumberError>)
    requires
        s@.len() > 0,
    ensures
        match r {
            Ok(v) => all_digits(s@) && v as nat == digits_value(s@) && v <= max,
            Err(NumberError::InvalidDigit) => !all_digits(s@),
            Err(NumberError::Overflow) => all_digits(s@) && digits_value(s@) > max,
            Err(NumberError::Empty) => false,
        },
{
    let mut i: usize = 0;
    while i < s.len()
        invariant
            i <= s@.len(),
            forall|j: int| 0 <= j < i ==> is_digit(#[trigger] s@[j]),
        decreases s@.len() - i,
    {
        if s[i] < 48 || s[i] > 57 {
            return Err(NumberError::InvalidDigit);
        }
        i = i + 1;
    }
    let mut acc: u64 = 0;
    let mut i: usize = 0;
    while i < s.len()
        invariant
            i <= s@.len(),
            all_digits(s@),
            acc as nat == digits_value(s@.subrange(0, i as int)),
            acc <= max,
        decreases s@.len() - i,
    {
        let next: u128 = acc as u128 * 10 + (s[i] - 48) as u128;
        proof {
            assert(s@.subrange(0, i + 1).drop_last() =~= s@.subrange(0, i as int));
        }
        if next > max as u128 {
            proof {
                lemma_digits_value_prefix(s@, i + 1, s@.len() as int);
                assert(s@.subrange(0, s@.len() as int) =~= s@);
            }
            return Err(NumberError::Overflow);
        }
        acc = next as u64;
        i = i + 1;
    }
    assert(s@.subrange(0, s@.len() as int) =~= s@);
    Ok(acc)
}

} // verus!
