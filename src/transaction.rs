use crate::digits::{find_byte, first_index, number_spec, parse_number, NumberError};
use crate::fixed_decimal::{parse_spec, FixedDecimal};
use vstd::prelude::*;
use vstd::string::StringSliceAdditionalSpecFns;

verus! {

/// The byte of `','`.
pub const COMMA: u8 = 44;

/// The kind of a transaction, with its amount where it has one.
#[derive(Debug, Clone, Copy, PartialEq, Eq, Structural)]
pub enum TransactionPayload {
    Deposit(FixedDecimal),
    Withdrawal(FixedDecimal),
    Dispute,
    Resolve,
    ChargeBack,
}

/// A payment transaction: who, which, and what.
#[derive(Debug, Clone, Copy, PartialEq, Eq, Structural)]
pub struct PaymentsTransaction {
    pub client: u16,
    pub tx: u32,
    pub payload: TransactionPayload,
}

/// Why a text is not a [PaymentsTransaction].
#[non_exhaustive]
#[derive(Debug, Clone, Copy, PartialEq, Eq, Structural)]
pub enum ErrorKind {
    /// The client or transaction field is missing or blank.
    EmptySection,
    /// A field is not a number, or the amount is not a well-formed amount.
    CouldNotParseSection,
    /// The client or transaction number is out of its range.
    OutOfBoundsSection,
    /// The first field names no transaction kind.
    UnknownTransactionType,
    /// Kept for number errors of other kinds; never produced.
    UnexpectedErrorType,
    /// There are more fields than the kind takes.
    UnexpectedTrailingSection,
    /// A deposit or withdrawal has no amount field.
    MissingTransactionAmount,
}

/// A payload with its amount as a number: the underlying integer of a
/// [FixedDecimal].
pub enum PayloadModel {
    Deposit(nat),
    Withdrawal(nat),
    Dispute,
    Resolve,
    ChargeBack,
}

/// A transaction with its amount as a number.
pub struct TransactionModel {
    pub client: u16,
    pub tx: u32,
    pub payload: PayloadModel,
}

impl View for TransactionPayload {
    type V = PayloadModel;

    open spec fn view(&self) -> PayloadModel {
        match *self {
            TransactionPayload::Deposit(a) => PayloadModel::Deposit(a@),
            TransactionPayload::Withdrawal(a) => PayloadModel::Withdrawal(a@),
            TransactionPayload::Dispute => PayloadModel::Dispute,
            TransactionPayload::Resolve => PayloadModel::Resolve,
            TransactionPayload::ChargeBack => PayloadModel::ChargeBack,
        }
    }
}

impl View for PaymentsTransaction {
    type V = TransactionModel;

    open spec fn view(&self) -> TransactionModel {
        TransactionModel { client: self.client, tx: self.tx, payload: self.payload@ }
    }
}

/// Whether the code point `c` is white space as Unicode's `White_Space` property
/// (and `char::is_whitespace`) has it: U+0009 to U+000D, U+0020, U+0085, U+00A0,
/// U+1680, U+2000 to U+200A, U+2028, U+2029, U+202F, U+205F and U+3000.
pub open spec fn is_unicode_space(c: nat) -> bool {
    (9 <= c <= 13) || c == 0x20 || c == 0x85 || c == 0xa0 || c == 0x1680 || (0x2000 <= c
        <= 0x200a) || c == 0x2028 || c == 0x2029 || c == 0x202f || c == 0x205f || c == 0x3000
}

/// Whether `b` is a UTF-8 continuation byte.
pub open spec fn is_continuation(b: u8) -> bool {
    0x80 <= b < 0xc0
}

/// The first character of the UTF-8 bytes `s` and how many bytes it takes, when it is
/// a character of one to three bytes; `(0, 0)` otherwise. (White space has no
/// character of four bytes.)
pub open spec fn decode_first(s: Seq<u8>) -> (nat, nat) {
    if s.len() >= 1 && s[0] < 0x80 {
        (s[0] as nat, 1)
    } else if s.len() >= 2 && 0xc2 <= s[0] < 0xe0 && is_continuation(s[1]) {
        (((s[0] - 0xc0) * 64 + (s[1] - 0x80)) as nat, 2)
    } else if s.len() >= 3 && 0xe0 <= s[0] < 0xf0 && (s[0] > 0xe0 || s[1] >= 0xa0)
        && is_continuation(s[1]) && is_continuation(s[2]) {
        (((s[0] - 0xe0) * 4096 + (s[1] - 0x80) * 64 + (s[2] - 0x80)) as nat, 3)
    } else {
        (0, 0)
    }
}

/// How many bytes the white-space character at the start of `s` takes, or 0 when `s`
/// does not start with one.
pub open spec fn leading_space_len(s: Seq<u8>) -> nat {
    let (c, n) = decode_first(s);
    if n > 0 && is_unicode_space(c) {
        n
    } else {
        0
    }
}

/// How many bytes the white-space character at the end of `s` takes, or 0 when `s`
/// does not end with one.
pub open spec fn trailing_space_len(s: Seq<u8>) -> nat {
    if s.len() >= 1 && leading_space_len(s.skip(s.len() - 1)) == 1 {
        1
    } else if s.len() >= 2 && leading_space_len(s.skip(s.len() - 2)) == 2 {
        2
    } else if s.len() >= 3 && leading_space_len(s.skip(s.len() - 3)) == 3 {
        3
    } else {
        0
    }
}

/// `s` without its leading white space.
pub open spec fn trim_start(s: Seq<u8>) -> Seq<u8>
    decreases s.len(),
{
    let n = leading_space_len(s);
    if 0 < n <= s.len() {
        trim_start(s.skip(n as int))
    } else {
        s
    }
}

/// `s` without its trailing white space.
pub open spec fn trim_end(s: Seq<u8>) -> Seq<u8>
    decreases s.len(),
{
    let n = trailing_space_len(s);
    if 0 < n <= s.len() {
        trim_end(s.take(s.len() - n))
    } else {
        s
    }
}

/// `s` without white space around it.
pub open spec fn trim(s: Seq<u8>) -> Seq<u8> {
    trim_end(trim_start(s))
}

/// One step over comma-separated text: the next field, trimmed, and the text after
/// its comma, if there was one. Past the end both are `None`.
pub open spec fn split_step(rest: Option<Seq<u8>>) -> (Option<Seq<u8>>, Option<Seq<u8>>) {
    match rest {
        None => (None, None),
        Some(s) => {
            let i = first_index(s, COMMA);
            (
                Some(trim(s.subrange(0, i))),
                if i == s.len() {
                    None
                } else {
                    Some(s.subrange(i + 1, s.len() as int))
                },
            )
        },
    }
}

/// The text that remains after `n` fields of `s` were taken.
pub open spec fn remaining_after(s: Seq<u8>, n: nat) -> Option<Seq<u8>>
    decreases n,
{
    if n == 0 {
        Some(s)
    } else {
        split_step(remaining_after(s, (n - 1) as nat)).1
    }
}

/// The field of `s` at position `n`, trimmed, if `s` has that many fields.
pub open spec fn nth_field(s: Seq<u8>, n: nat) -> Option<Seq<u8>> {
    split_step(remaining_after(s, n)).0
}

/// The bytes of `deposit`.
pub open spec fn deposit_word() -> Seq<u8> {
    seq![100u8, 101, 112, 111, 115, 105, 116]
}

/// The bytes of `withdrawal`.
pub open spec fn withdrawal_word() -> Seq<u8> {
    seq![119u8, 105, 116, 104, 100, 114, 97, 119, 97, 108]
}

/// The bytes of `dispute`.
pub open spec fn dispute_word() -> Seq<u8> {
    seq![100u8, 105, 115, 112, 117, 116, 101]
}

/// The bytes of `resolve`.
pub open spec fn resolve_word() -> Seq<u8> {
    seq![114u8, 101, 115, 111, 108, 118, 101]
}

/// The bytes of `chargeback`.
pub open spec fn chargeback_word() -> Seq<u8> {
    seq![99u8, 104, 97, 114, 103, 101, 98, 97, 99, 107]
}

/// What the client or transaction field `f` gives as a number no larger than `max`.
pub open spec fn number_field_spec(f: Option<Seq<u8>>, max: nat) -> Result<nat, ErrorKind> {
    match f {
        None => Err(ErrorKind::EmptySection),
        Some(t) => match number_spec(t, max) {
            Ok(v) => Ok(v),
            Err(NumberError::Empty) => Err(ErrorKind::EmptySection),
            Err(NumberError::InvalidDigit) => Err(ErrorKind::CouldNotParseSection),
            Err(NumberError::Overflow) => Err(ErrorKind::OutOfBoundsSection),
        },
    }
}

/// What the amount field `f` gives.
pub open spec fn amount_spec(f: Option<Seq<u8>>) -> Result<nat, ErrorKind> {
    match f {
        None => Err(ErrorKind::MissingTransactionAmount),
        Some(t) => match parse_spec(t) {
            Ok(v) => Ok(v),
            Err(_) => Err(ErrorKind::CouldNotParseSection),
        },
    }
}

/// Whether the kind field `kind` names a kind that carries an amount.
pub open spec fn takes_amount(kind: Seq<u8>) -> bool {
    kind == deposit_word() || kind == withdrawal_word()
}

/// What the kind field `kind` and, for deposits and withdrawals, the amount field
/// `amount_field` give.
pub open spec fn payload_of(kind: Seq<u8>, amount_field: Option<Seq<u8>>) -> Result<
    PayloadModel,
    ErrorKind,
> {
    let amount = amount_spec(amount_field);
    if kind == deposit_word() {
        match amount {
            Ok(v) => Ok(PayloadModel::Deposit(v)),
            Err(e) => Err(e),
        }
    } else if kind == withdrawal_word() {
        match amount {
            Ok(v) => Ok(PayloadModel::Withdrawal(v)),
            Err(e) => Err(e),
        }
    } else if kind == dispute_word() {
        Ok(PayloadModel::Dispute)
    } else if kind == resolve_word() {
        Ok(PayloadModel::Resolve)
    } else if kind == chargeback_word() {
        Ok(PayloadModel::ChargeBack)
    } else {
        Err(ErrorKind::UnknownTransactionType)
    }
}

/// What the kind field and, for deposits and withdrawals, the amount field of `s`
/// give.
pub open spec fn payload_spec(s: Seq<u8>) -> Result<PayloadModel, ErrorKind> {
    payload_of(nth_field(s, 0)->Some_0, nth_field(s, 3))
}

/// How many fields a transaction with payload `p` has.
pub open spec fn field_count(p: PayloadModel) -> nat {
    match p {
        PayloadModel::Deposit(_) | PayloadModel::Withdrawal(_) => 4,
        _ => 3,
    }
}

/// What reading the line `s` as a transaction gives: the kind (and amount) are
/// checked first, then that no field follows, then the client, then the
/// transaction number.
pub open spec fn transaction_spec(s: Seq<u8>) -> Result<TransactionModel, ErrorKind> {
    match payload_spec(s) {
        Err(e) => Err(e),
        Ok(p) => if nth_field(s, field_count(p)) is Some {
            Err(ErrorKind::UnexpectedTrailingSection)
        } else {
            match number_field_spec(nth_field(s, 1), u16::MAX as nat) {
                Err(e) => Err(e),
                Ok(c) => match number_field_spec(nth_field(s, 2), u32::MAX as nat) {
                    Err(e) => Err(e),
                    Ok(t) => Ok(TransactionModel { client: c as u16, tx: t as u32, payload: p }),
                },
            }
        },
    }
}

/// The view of an optional slice.
pub open spec fn opt_view(o: Option<&[u8]>) -> Option<Seq<u8>> {
    match o {
        Some(s) => Some(s@),
        None => None,
    }
}

fn is_unicode_space_exec(c: u32) -> (r: bool)
    ensures
        r == is_unicode_space(c as nat),
{
    (9 <= c && c <= 13) || c == 0x20 || c == 0x85 || c == 0xa0 || c == 0x1680 || (0x2000 <= c
        && c <= 0x200a) || c == 0x2028 || c == 0x2029 || c == 0x202f || c == 0x205f || c
        == 0x3000
}

/// The length of the white-space character that starts `s[lo..hi]`, or 0.
fn leading_space(s: &[u8], lo: usize, hi: usize) -> (r: usize)
    requires
        lo <= hi <= s@.len(),
    ensures
        r as nat == leading_space_len(s@.subrange(lo as int, hi as int)),
        r <= hi - lo,
{
    let ghost t = s@.subrange(lo as int, hi as int);
    let n = hi - lo;
    if n >= 1 && s[lo] < 0x80 {
        assert(t[0] == s@[lo as int]);
        if is_unicode_space_exec(s[lo] as u32) {
            1
        } else {
            0
        }
    } else if n >= 2 && 0xc2 <= s[lo] && s[lo] < 0xe0 && 0x80 <= s[lo + 1] && s[lo + 1] < 0xc0 {
        assert(t[0] == s@[lo as int] && t[1] == s@[lo + 1]);
        let c: u32 = (s[lo] as u32 - 0xc0) * 64 + (s[lo + 1] as u32 - 0x80);
        if is_unicode_space_exec(c) {
            2
        } else {
            0
        }
    } else if n >= 3 && 0xe0 <= s[lo] && s[lo] < 0xf0 && (s[lo] > 0xe0 || s[lo + 1] >= 0xa0)
        && 0x80 <= s[lo + 1] && s[lo + 1] < 0xc0 && 0x80 <= s[lo + 2] && s[lo + 2] < 0xc0 {
        assert(t[0] == s@[lo as int] && t[1] == s@[lo + 1] && t[2] == s@[lo + 2]);
        let c: u32 = (s[lo] as u32 - 0xe0) * 4096 + (s[lo + 1] as u32 - 0x80) * 64 + (s[lo
            + 2] as u32 - 0x80);
        if is_unicode_space_exec(c) {
            3
        } else {
            0
        }
    } else {
        proof {
            if n >= 1 {
                assert(t[0] == s@[lo as int]);
            }
            if n >= 2 {
                assert(t[1] == s@[lo + 1]);
            }
            if n >= 3 {
                assert(t[2] == s@[lo + 2]);
            }
        }
        0
    }
}

/// The length of the white-space character that ends `s[lo..hi]`, or 0.
fn trailing_space(s: &[u8], lo: usize, hi: usize) -> (r: usize)
    requires
        lo <= hi <= s@.len(),
    ensures
        r as nat == trailing_space_len(s@.subrange(lo as int, hi as int)),
        r <= hi - lo,
{
    let ghost t = s@.subrange(lo as int, hi as int);
    let n = hi - lo;
    if n >= 1 {
        assert(t.skip(t.len() - 1) =~= s@.subrange(hi - 1, hi as int));
        if leading_space(s, hi - 1, hi) == 1 {
            return 1;
        }
    }
    if n >= 2 {
        assert(t.skip(t.len() - 2) =~= s@.subrange(hi - 2, hi as int));
        if leading_space(s, hi - 2, hi) == 2 {
            return 2;
        }
    }
    if n >= 3 {
        assert(t.skip(t.len() - 3) =~= s@.subrange(hi - 3, hi as int));
        if leading_space(s, hi - 3, hi) == 3 {
            return 3;
        }
    }
    0
}

fn trim_bytes(s: &[u8]) -> (r: &[u8])
    ensures
        r@ == trim(s@),
{
    let mut lo: usize = 0;
    assert(s@.subrange(0, s@.len() as int) =~= s@);
    loop
        invariant
            lo <= s@.len(),
            trim_start(s@.subrange(lo as int, s@.len() as int)) == trim_start(s@),
        ensures
            lo <= s@.len(),
            trim_start(s@) == s@.subrange(lo as int, s@.len() as int),
        decreases s@.len() - lo,
    {
        let n = leading_space(s, lo, s.len());
        if n == 0 {
            assert(trim_start(s@.subrange(lo as int, s@.len() as int)) == s@.subrange(
                lo as int,
                s@.len() as int,
            ));
            break;
        }
        assert(s@.subrange(lo as int, s@.len() as int).skip(n as int) =~= s@.subrange(
            lo + n,
            s@.len() as int,
        ));
        lo = lo + n;
    }
    let mut hi: usize = s.len();
    loop
        invariant
            lo <= hi <= s@.len(),
            trim_start(s@) == s@.subrange(lo as int, s@.len() as int),
            trim_end(s@.subrange(lo as int, hi as int)) == trim_end(
                s@.subrange(lo as int, s@.len() as int),
            ),
        ensures
            lo <= hi <= s@.len(),
            trim(s@) == s@.subrange(lo as int, hi as int),
        decreases hi,
    {
        let n = trailing_space(s, lo, hi);
        if n == 0 {
            assert(trim_end(s@.subrange(lo as int, hi as int)) == s@.subrange(lo as int, hi as int));
            break;
        }
        assert(s@.subrange(lo as int, hi as int).take(hi - lo - n) =~= s@.subrange(
            lo as int,
            hi - n,
        ));
        hi = hi - n;
    }
    &s[lo..hi]
}

/// Takes the next field from `rest`, trimmed, and leaves the text after its comma.
fn next_field<'a>(rest: &mut Option<&'a [u8]>) -> (r: Option<&'a [u8]>)
    ensures
        (opt_view(r), opt_view(*final(rest))) == split_step(opt_view(*old(rest))),
{
    match *rest {
        None => None,
        Some(s) => {
            let i = find_byte(s, s.len(), COMMA);
            assert(s@.subrange(0, s@.len() as int) =~= s@);
            let field = trim_bytes(&s[0..i]);
            if i == s.len() {
                *rest = None;
            } else {
                *rest = Some(&s[i + 1..s.len()]);
            }
            Some(field)
        },
    }
}

fn same_bytes(a: &[u8], b: &[u8]) -> (r: bool)
    ensures
        r == (a@ == b@),
{
    if a.len() != b.len() {
        return false;
    }
    let mut i: usize = 0;
    while i < a.len()
        invariant
            i <= a@.len() == b@.len(),
            forall|j: int| 0 <= j < i ==> a@[j] == b@[j],
        decreases a@.len() - i,
    {
        if a[i] != b[i] {
            return false;
        }
        i = i + 1;
    }
    assert(a@ =~= b@);
    true
}

/// Reads the client or transaction field `txt` as a number no larger than `max`.
fn extract_number(txt: Option<&[u8]>, max: u64) -> (r: Result<u64, ErrorKind>)
    ensures
        match (r, number_field_spec(opt_view(txt), max as nat)) {
            (Ok(v), Ok(w)) => v as nat == w,
            (Err(e), Err(f)) => e == f,
            _ => false,
        },
{
    match txt {
        None => Err(ErrorKind::EmptySection),
        Some(t) => match parse_number(t, max) {
            Ok(v) => Ok(v),
            Err(NumberError::Empty) => Err(ErrorKind::EmptySection),
            Err(NumberError::InvalidDigit) => Err(ErrorKind::CouldNotParseSection),
            Err(NumberError::Overflow) => Err(ErrorKind::OutOfBoundsSection),
        },
    }
}

fn get_amount(rest: &mut Option<&[u8]>) -> (r: Result<FixedDecimal, ErrorKind>)
    ensures
        opt_view(*final(rest)) == split_step(opt_view(*old(rest))).1,
        match (r, amount_spec(split_step(opt_view(*old(rest))).0)) {
            (Ok(v), Ok(w)) => v@ == w,
            (Err(e), Err(f)) => e == f,
            _ => false,
        },
{
    match next_field(rest) {
        None => Err(ErrorKind::MissingTransactionAmount),
        Some(t) => match FixedDecimal::parse(t) {
            Ok(v) => Ok(v),
            Err(_) => Err(ErrorKind::CouldNotParseSection),
        },
    }
}

/// Reads the payload named by the kind field `txt_type`, taking the amount from
/// `rest` for deposits and withdrawals.
fn extract_payload(txt_type: Option<&[u8]>, rest: &mut Option<&[u8]>) -> (r: Result<
    TransactionPayload,
    ErrorKind,
>)
    requires
        txt_type is Some,
    ensures
        ({
            let kind = opt_view(txt_type)->Some_0;
            &&& opt_view(*final(rest)) == if takes_amount(kind) {
                split_step(opt_view(*old(rest))).1
            } else {
                opt_view(*old(rest))
            }
            &&& match (r, payload_of(kind, split_step(opt_view(*old(rest))).0)) {
                (Ok(p), Ok(m)) => p@ == m,
                (Err(e), Err(f)) => e == f,
                _ => false,
            }
        }),
{
    let kind = match txt_type {
        Some(k) => k,
        None => {
            return Err(ErrorKind::EmptySection);
        },
    };
    let deposit: [u8; 7] = [100, 101, 112, 111, 115, 105, 116];
    let withdrawal: [u8; 10] = [119, 105, 116, 104, 100, 114, 97, 119, 97, 108];
    let dispute: [u8; 7] = [100, 105, 115, 112, 117, 116, 101];
    let resolve: [u8; 7] = [114, 101, 115, 111, 108, 118, 101];
    let chargeback: [u8; 10] = [99, 104, 97, 114, 103, 101, 98, 97, 99, 107];
    assert(deposit@ =~= deposit_word());
    assert(withdrawal@ =~= withdrawal_word());
    assert(dispute@ =~= dispute_word());
    assert(resolve@ =~= resolve_word());
    assert(chargeback@ =~= chargeback_word());
    if same_bytes(kind, deposit.as_slice()) {
        Ok(TransactionPayload::Deposit(get_amount(rest)?))
    } else if same_bytes(kind, withdrawal.as_slice()) {
        Ok(TransactionPayload::Withdrawal(get_amount(rest)?))
    } else if same_bytes(kind, dispute.as_slice()) {
        Ok(TransactionPayload::Dispute)
    } else if same_bytes(kind, resolve.as_slice()) {
        Ok(TransactionPayload::Resolve)
    } else if same_bytes(kind, chargeback.as_slice()) {
        Ok(TransactionPayload::ChargeBack)
    } else {
        Err(ErrorKind::UnknownTransactionType)
    }
}

impl PaymentsTransaction {
    /// Reads one line (UTF-8 bytes) of comma-separated fields, each trimmed of white
    /// space: `deposit` or `withdrawal` with client, transaction and amount, or
    /// `dispute`, `resolve` or `chargeback` with client and transaction.
    pub fn parse(s: &[u8]) -> (r: Result<PaymentsTransaction, ErrorKind>)
        ensures
            match (r, transaction_spec(s@)) {
                (Ok(t), Ok(m)) => t@ == m,
                (Err(e), Err(f)) => e == f,
                _ => false,
            },
    {
        let mut rest: Option<&[u8]> = Some(s);
        let kind = next_field(&mut rest);
        let client = next_field(&mut rest);
        let tx = next_field(&mut rest);
        proof {
            reveal_with_fuel(remaining_after, 6);
        }
        let payload = extract_payload(kind, &mut rest)?;
        if next_field(&mut rest).is_some() {
            return Err(ErrorKind::UnexpectedTrailingSection);
        }
        let client = extract_number(client, 65535)?;
        let tx = extract_number(tx, 4294967295)?;
        Ok(PaymentsTransaction { client: client as u16, tx: tx as u32, payload })
    }
}

impl std::str::FromStr for PaymentsTransaction {
    type Err = ErrorKind;

    /// Reads the line `s` as [PaymentsTransaction::parse] reads its UTF-8 bytes.
    fn from_str(s: &str) -> (r: Result<PaymentsTransaction, ErrorKind>)
        ensures
            match (r, transaction_spec(s.spec_bytes())) {
                (Ok(t), Ok(m)) => t@ == m,
                (Err(e), Err(f)) => e == f,
                _ => false,
            },
    {
        PaymentsTransaction::parse(s.as_bytes())
    }
}

} // verus!
