use payments_engine::{
    ChunkFramer, FixedDecimal, FixedDecimalError, FixedDecimalMAXDISPLEN, FrameStep,
    PaymentsProcessor, PaymentsTransaction, ProcessTransactionError, SpamReaderError,
    SpamTolerantReader, TransactionError, TransactionPayload,
};
use std::str::FromStr;

fn amount(s: &str) -> FixedDecimal {
    FixedDecimal::from_str(s).unwrap()
}

fn tx(s: &str) -> PaymentsTransaction {
    PaymentsTransaction::from_str(s).unwrap()
}

fn run(lines: &[&str]) -> (PaymentsProcessor, Vec<Result<(), ProcessTransactionError>>) {
    let mut p = PaymentsProcessor::new();
    let mut results = Vec::new();
    for line in lines {
        let t = tx(line);
        assert!(p.is_admissible(&t));
        results.push(p.process_transaction(t));
    }
    (p, results)
}

fn chunks(input: &str, delim: u8, tolerance: usize, block_len: usize) -> (Vec<Vec<u8>>, SpamReaderError) {
    let mut r = SpamTolerantReader::with_block_len(input.as_bytes(), delim, tolerance, block_len);
    let mut out = Vec::new();
    loop {
        match r.get_next() {
            Ok(c) => out.push(c),
            Err(e) => return (out, e),
        }
    }
}

#[test]
fn canonical_amounts_round_trip() {
    for (text, shown) in [
        ("7.5", "7.5"),
        ("10.1230", "10.123"),
        ("0.0", "0.0"),
        ("0.0100", "0.01"),
        ("42.0001", "42.0001"),
        ("1844674407370955.1615", "1844674407370955.1615"),
        ("007.50", "7.5"),
        ("000.0", "0.0"),
    ] {
        assert_eq!(amount(text).to_string(), shown);
    }
}

#[test]
fn max_renders_at_advertised_width() {
    assert_eq!(FixedDecimal::max_value().to_string(), "1844674407370955.1615");
    assert_eq!(FixedDecimalMAXDISPLEN, 21);
}

#[test]
fn each_amount_error_has_its_input() {
    assert_eq!(FixedDecimal::from_str("12"), Err(FixedDecimalError::InvalidFormat));
    assert_eq!(FixedDecimal::from_str("+.5"), Err(FixedDecimalError::WholePartParseError));
    assert_eq!(FixedDecimal::from_str("-5.0"), Err(FixedDecimalError::WholePartParseError));
    assert_eq!(FixedDecimal::from_str("1.+5"), Err(FixedDecimalError::DecimalPartParseError));
    assert_eq!(
        FixedDecimal::from_str("18446744073709551616.0"),
        Err(FixedDecimalError::WholePartParseError)
    );
    assert_eq!(FixedDecimal::from_str("1."), Err(FixedDecimalError::DecimalPartParseError));
    assert_eq!(FixedDecimal::from_str("1.2.3"), Err(FixedDecimalError::DecimalPartParseError));
    assert_eq!(FixedDecimal::from_str("1.00000"), Err(FixedDecimalError::DecimalOverflow));
    assert_eq!(
        FixedDecimal::from_str("1844674407370955.1616"),
        Err(FixedDecimalError::OverFlow)
    );
}

#[test]
fn fraction_digits_are_left_justified() {
    assert_eq!(amount("3.5").raw(), 35000);
    assert_eq!(amount("3.05").raw(), 30500);
    assert_eq!(amount("3.005").raw(), 30050);
    assert_eq!(amount("3.0005").raw(), 30005);
    assert_eq!(amount("0.5").get_decimal_part(), (5000, 0));
    assert_eq!(amount("0.05").get_decimal_part(), (500, 1));
}

#[test]
fn checked_arithmetic_signals_exactly_out_of_range() {
    let max = FixedDecimal::max_value();
    let tiny = FixedDecimal::from_raw(1);
    assert_eq!(max.checked_sub(tiny).unwrap().checked_add(tiny), Some(max));
    assert_eq!(max.checked_add(tiny), None);
    assert_eq!(tiny.checked_sub(FixedDecimal::from_raw(2)), None);
    assert_eq!(amount("2.5").checked_add(amount("0.75")), Some(amount("3.25")));
    assert_eq!(amount("2.5").checked_sub(amount("2.5")), Some(FixedDecimal::default()));
}

#[test]
fn amount_field_errors_and_trailing_fields() {
    assert_eq!(
        PaymentsTransaction::from_str("dispute, 1, 2, 3.0"),
        Err(TransactionError::UnexpectedTrailingSection)
    );
    assert_eq!(
        PaymentsTransaction::from_str("deposit, 1, 2, abc"),
        Err(TransactionError::CouldNotParseSection)
    );
    assert_eq!(
        PaymentsTransaction::from_str("deposit, , 2, 1.0"),
        Err(TransactionError::EmptySection)
    );
    assert_eq!(
        PaymentsTransaction::from_str("deposit, x1, 2, 1.0"),
        Err(TransactionError::CouldNotParseSection)
    );
    assert_eq!(PaymentsTransaction::from_str("dispute"), Err(TransactionError::EmptySection));
    assert_eq!(
        PaymentsTransaction::from_str("Deposit, 1, 2, 1.0"),
        Err(TransactionError::UnknownTransactionType)
    );
    assert_eq!(
        PaymentsTransaction::from_str("type, client, tx, amount"),
        Err(TransactionError::UnknownTransactionType)
    );
    assert_eq!(
        PaymentsTransaction::from_str("withdrawal, 65536, 1, 1.0"),
        Err(TransactionError::OutOfBoundsSection)
    );
    assert_eq!(
        PaymentsTransaction::from_str("withdrawal, 65535, 4294967296, 1.0"),
        Err(TransactionError::OutOfBoundsSection)
    );
}

#[test]
fn fields_are_trimmed_of_white_space() {
    let t = tx("\tdeposit ,\t65535 , 4294967295 ,  1.5\r");
    assert_eq!(t.client, 65535);
    assert_eq!(t.tx, 4294967295);
    assert_eq!(t.payload, TransactionPayload::Deposit(amount("1.5")));
}

#[test]
fn empty_processor_prints_header_only() {
    let p = PaymentsProcessor::default();
    assert_eq!(p.to_string(), "client,available,held,total,locked\n");
}

#[test]
fn rejected_withdrawal_is_not_recorded() {
    let (mut p, results) = run(&["deposit, 4, 1, 100.0", "withdrawal, 4, 3, 150.0"]);
    assert_eq!(results[1], Err(ProcessTransactionError::NoAvailableFunds));
    let r = p.process_transaction(tx("dispute, 4, 3"));
    assert_eq!(r, Err(ProcessTransactionError::AssociatedTransactionNoFound));
    assert_eq!(
        p.to_string(),
        "client,available,held,total,locked\n4,100.0,0.0,100.0,false\n"
    );
}

#[test]
fn locked_account_still_takes_deposits() {
    let (p, results) = run(&[
        "deposit, 7, 1, 10.0",
        "withdrawal, 7, 2, 4.0",
        "dispute, 7, 2",
        "chargeback, 7, 2",
        "deposit, 7, 3, 1.25",
        "withdrawal, 7, 4, 1.0",
    ]);
    assert_eq!(results[4], Ok(()));
    assert_eq!(results[5], Err(ProcessTransactionError::AccountFrozen));
    assert_eq!(p.to_string().lines().nth(1), Some("7,7.25,0.0,7.25,true"));
}

#[test]
fn dispute_twice_and_resolve_twice_are_rejected() {
    let (mut p, _) = run(&["deposit, 1, 1, 5.0", "withdrawal, 1, 2, 2.0", "dispute, 1, 2"]);
    assert_eq!(
        p.process_transaction(tx("dispute, 1, 2")),
        Err(ProcessTransactionError::TransactionAlreadyDisputed)
    );
    assert_eq!(p.process_transaction(tx("resolve, 1, 2")), Ok(()));
    assert_eq!(
        p.process_transaction(tx("resolve, 1, 2")),
        Err(ProcessTransactionError::UndisputedTransactionCannotBeResolved)
    );
    assert_eq!(
        p.process_transaction(tx("dispute, 1, 2")),
        Err(ProcessTransactionError::TransactionAlreadyDisputed)
    );
}

#[test]
fn totals_follow_deposits_withdrawals_and_disputes() {
    let (p, results) = run(&[
        "deposit, 2, 1, 10.5",
        "deposit, 2, 2, 0.25",
        "withdrawal, 2, 3, 3.0",
        "withdrawal, 2, 4, 1.5",
        "dispute, 2, 4",
    ]);
    assert!(results.iter().all(|r| r.is_ok()));
    // deposits 10.75, withdrawals 4.5, held 1.5: total 7.75
    assert_eq!(p.to_string().lines().nth(1), Some("2,6.25,1.5,7.75,false"));
}

#[test]
fn duplicate_or_overflowing_transactions_are_inadmissible() {
    let (p, _) = run(&["deposit, 3, 1, 1.0", "withdrawal, 3, 2, 0.5"]);
    assert!(!p.is_admissible(&tx("deposit, 3, 1, 1.0")));
    assert!(!p.is_admissible(&tx("withdrawal, 3, 2, 0.1")));
    assert!(!p.is_admissible(&tx("deposit, 3, 9, 1844674407370955.1615")));
    assert!(p.is_admissible(&tx("deposit, 4, 1, 1844674407370955.1615")));
    assert!(p.is_admissible(&tx("dispute, 3, 2")));
    let (q, _) = run(&[
        "deposit, 5, 1, 1844674407370955.1615",
        "withdrawal, 5, 2, 1844674407370955.1615",
        "deposit, 5, 3, 1844674407370955.1615",
    ]);
    assert!(!q.is_admissible(&tx("dispute, 5, 2")));
}

#[test]
fn reader_results_do_not_depend_on_block_length() {
    for input in ["qqq   qwe  qwee ", "ab cd", "abcd efgh i", "", "   ", "abcde"] {
        let expected = chunks(input, b' ', 4, 8192);
        for block_len in 1..6 {
            assert_eq!(chunks(input, b' ', 4, block_len), expected);
        }
    }
}

#[test]
fn chunk_and_delimiter_must_fit_the_tolerance() {
    let (cs, end) = chunks("abc abcd ", b' ', 4, 8192);
    assert_eq!(cs, vec![b"abc".to_vec()]);
    assert_eq!(end, SpamReaderError::ToleranceExceeded);
    let (cs, end) = chunks("abc abcd", b' ', 4, 3);
    assert_eq!(cs, vec![b"abc".to_vec(), b"abcd".to_vec()]);
    assert_eq!(end, SpamReaderError::EOFReached);
}

#[test]
fn unterminated_last_chunk_is_returned() {
    let (cs, end) = chunks("ab cd", b' ', 4, 8192);
    assert_eq!(cs, vec![b"ab".to_vec(), b"cd".to_vec()]);
    assert_eq!(end, SpamReaderError::EOFReached);
    let (cs, end) = chunks("abcd efgh i", b' ', 5, 2);
    assert_eq!(cs, vec![b"abcd".to_vec(), b"efgh".to_vec(), b"i".to_vec()]);
    assert_eq!(end, SpamReaderError::EOFReached);
}

#[test]
fn fused_reader_stays_fused() {
    let mut r = SpamTolerantReader::new(b"abcde f".as_slice(), b' ', 4);
    for _ in 0..3 {
        assert_eq!(r.get_next(), Err(SpamReaderError::ToleranceExceeded));
    }
}

#[test]
fn framer_gathers_a_chunk_across_blocks() {
    let mut f = ChunkFramer::new(b'\n', 4);
    assert_eq!(f.feed(b"ab"), FrameStep::NeedMore { consumed: 2 });
    assert_eq!(f.feed(b"c\nd"), FrameStep::Chunk { consumed: 2 });
    assert_eq!(f.chunk(), b"abc");
    assert_eq!(f.feed(b"d"), FrameStep::NeedMore { consumed: 1 });
    assert_eq!(f.feed(b""), FrameStep::Chunk { consumed: 0 });
    assert_eq!(f.chunk(), b"d");
    assert_eq!(f.feed(b""), FrameStep::EndOfInput);
    assert_eq!(f.feed(b"123"), FrameStep::NeedMore { consumed: 3 });
    assert_eq!(f.feed(b"4\n"), FrameStep::Exceeded);
    assert!(f.is_fused());
    assert_eq!(f.feed(b"\n"), FrameStep::Exceeded);
}

#[test]
fn plus_sign_is_read_as_the_standard_library_does() {
    assert_eq!(amount("+5.25"), amount("5.25"));
    let t = tx("deposit, +7, +8, +1.0");
    assert_eq!((t.client, t.tx), (7, 8));
    assert_eq!(
        PaymentsTransaction::from_str("dispute, +, 1"),
        Err(TransactionError::CouldNotParseSection)
    );
}

#[test]
fn fields_are_trimmed_of_unicode_white_space() {
    for line in [
        "dispute,\u{a0}1,2",
        "dispute,\u{b}1\u{85},2",
        "\u{2003}dispute\u{3000},1,\u{2029}2\u{1680}",
        "\u{202f}\u{205f}dispute, 1 ,2\u{200a}\u{2028}",
    ] {
        let t = tx(line);
        assert_eq!((t.client, t.tx, t.payload), (1, 2, TransactionPayload::Dispute));
    }
    assert_eq!(
        PaymentsTransaction::from_str("dispute,\u{200b}1,2"),
        Err(TransactionError::CouldNotParseSection)
    );
    assert_eq!(
        PaymentsTransaction::from_str("dispute,1\u{e9},2"),
        Err(TransactionError::CouldNotParseSection)
    );
}
