use wallet::amount::{format_amount, parse_amount};
use wallet::{TransactionType, Wallet, WalletError};

fn alice() -> Wallet {
    Wallet::new("Alice".to_string())
}

#[test]
fn new_wallet_is_empty() {
    let w = alice();
    assert_eq!(w.name, "Alice");
    assert_eq!(w.get_balance(), 0);
    assert!(w.get_transactions().is_empty());
}

#[test]
fn alice_credit_debit_and_refused_rent() {
    let mut w = alice();
    assert_eq!(w.credit(10000, "init".to_string()), Ok(()));
    assert_eq!(w.get_balance(), 10000);
    assert_eq!(w.get_transactions().len(), 1);

    assert_eq!(w.debit(3000, "coffee".to_string()), Ok(()));
    assert_eq!(w.get_balance(), 7000);
    assert_eq!(w.get_transactions().len(), 2);
    let last = &w.get_transactions()[1];
    assert_eq!(last.balance_after, 7000);
    assert_eq!(last.transaction_type, TransactionType::Debit);
    assert_eq!(last.amount, 3000);
    assert_eq!(last.description, "coffee");

    assert_eq!(
        w.debit(100000, "rent".to_string()),
        Err(WalletError::InsufficientFunds { balance: 7000 })
    );
    assert_eq!(w.get_balance(), 7000);
    assert_eq!(w.get_transactions().len(), 2);
}

#[test]
fn negative_credit_is_invalid() {
    let mut w = alice();
    w.credit(2500, "seed".to_string()).unwrap();
    assert_eq!(w.credit(-500, "bad".to_string()), Err(WalletError::InvalidAmount));
    assert_eq!(w.get_balance(), 2500);
    assert_eq!(w.get_transactions().len(), 1);
}

#[test]
fn zero_amounts_are_invalid() {
    let mut w = alice();
    assert_eq!(w.credit(0, "nothing".to_string()), Err(WalletError::InvalidAmount));
    assert_eq!(w.debit(0, "nothing".to_string()), Err(WalletError::InvalidAmount));
    assert_eq!(w.debit(-1, "nothing".to_string()), Err(WalletError::InvalidAmount));
    assert_eq!(w.get_balance(), 0);
    assert!(w.get_transactions().is_empty());
}

#[test]
fn debit_of_whole_balance_leaves_zero() {
    let mut w = alice();
    w.credit(1234, "in".to_string()).unwrap();
    assert_eq!(w.debit(1234, "out".to_string()), Ok(()));
    assert_eq!(w.get_balance(), 0);
    assert_eq!(w.get_transactions()[1].balance_after, 0);
}

#[test]
fn debit_on_empty_wallet_is_insufficient() {
    let mut w = alice();
    assert_eq!(
        w.debit(1, "x".to_string()),
        Err(WalletError::InsufficientFunds { balance: 0 })
    );
}

#[test]
fn balance_equals_credits_less_debits() {
    let mut w = alice();
    w.credit(500, "a".to_string()).unwrap();
    w.credit(250, "b".to_string()).unwrap();
    w.debit(100, "c".to_string()).unwrap();
    w.credit(1, "d".to_string()).unwrap();
    w.debit(651, "e".to_string()).unwrap();
    let mut credits = 0;
    let mut debits = 0;
    for t in w.get_transactions() {
        match t.transaction_type {
            TransactionType::Credit => credits += t.amount,
            TransactionType::Debit => debits += t.amount,
        }
    }
    assert_eq!(w.get_balance(), credits - debits);
    assert_eq!(w.get_balance(), 0);
    assert_eq!(w.get_transactions().last().unwrap().balance_after, w.get_balance());
}

#[test]
fn credit_is_stamped_with_current_time() {
    let mut w = alice();
    w.credit(100, "now".to_string()).unwrap();
    // 2020-01-01T00:00:00Z in milliseconds.
    assert!(w.get_transactions()[0].timestamp > 1_577_836_800_000);
}

#[test]
fn timestamps_never_go_back() {
    let mut w = alice();
    assert_eq!(w.credit_at(100, "a".to_string(), 5000), Ok(()));
    assert_eq!(w.credit_at(100, "b".to_string(), 4000), Ok(()));
    assert_eq!(w.debit_at(50, "c".to_string(), 7000), Ok(()));
    let ts: Vec<i64> = w.get_transactions().iter().map(|t| t.timestamp).collect();
    assert_eq!(ts, vec![5000, 5000, 7000]);
    assert_eq!(w.get_balance(), 150);
}

#[test]
fn load_without_saved_wallet_is_not_found() {
    let loaded = Wallet::load(None);
    assert!(matches!(loaded, Err(WalletError::NotFound)));
    let w = match loaded {
        Ok(w) => w,
        Err(_) => Wallet::new("Fresh".to_string()),
    };
    assert_eq!(w.get_balance(), 0);
    assert!(w.get_transactions().is_empty());
}

#[test]
fn save_of_empty_wallet_is_exact() {
    let w = Wallet::new("A".to_string());
    assert_eq!(w.save().unwrap(), "{\"name\":\"A\",\"balance\":0,\"transactions\":[\n]}\n");
}

#[test]
fn save_of_wallet_with_entries_is_exact() {
    let mut w = Wallet::new("Bo\"b".to_string());
    w.credit_at(1050, "pay\nday".to_string(), -20).unwrap();
    w.debit_at(50, "tea".to_string(), 1700000000000).unwrap();
    let expected = [
        "{\"name\":\"Bo\\\"b\",\"balance\":1000,\"transactions\":[",
        "\n  {\"type\":\"Credit\",\"amount\":1050,\"timestamp\":\"1969-12-31T23:59:59.980Z\",",
        "\"description\":\"pay\\nday\",\"balance_after\":1050},",
        "\n  {\"type\":\"Debit\",\"amount\":50,\"timestamp\":\"2023-11-14T22:13:20.000Z\",",
        "\"description\":\"tea\",\"balance_after\":1000}",
        "\n]}\n",
    ]
    .concat();
    assert_eq!(w.save().unwrap(), expected);
}

#[test]
fn save_then_load_round_trips() {
    let mut w = Wallet::new("Ann \\ \"Q\"\t\r\n é".to_string());
    w.credit_at(9_223_372_036_854_775_000, "big \"one\"".to_string(), -86_400_000).unwrap();
    w.debit_at(9_223_372_036_854_775_000, "".to_string(), 3).unwrap();
    w.credit(42, "tab\there".to_string()).unwrap();
    let text = w.save().unwrap();
    let back = Wallet::load(Some(&text)).unwrap();
    assert_eq!(back.name, w.name);
    assert_eq!(back.get_balance(), w.get_balance());
    assert_eq!(back.get_transactions().len(), w.get_transactions().len());
    for (a, b) in back.get_transactions().iter().zip(w.get_transactions().iter()) {
        assert_eq!(a.transaction_type, b.transaction_type);
        assert_eq!(a.amount, b.amount);
        assert_eq!(a.timestamp, b.timestamp);
        assert_eq!(a.description, b.description);
        assert_eq!(a.balance_after, b.balance_after);
    }
    assert_eq!(back.save().unwrap(), text);
}

#[test]
fn load_of_garbage_is_corrupt() {
    assert!(matches!(Wallet::load(Some("not a wallet")), Err(WalletError::CorruptData)));
    assert!(matches!(Wallet::load(Some("")), Err(WalletError::CorruptData)));
}

#[test]
fn load_with_trailing_text_is_corrupt() {
    let text = format!("{}x", Wallet::new("A".to_string()).save().unwrap());
    assert!(matches!(Wallet::load(Some(&text)), Err(WalletError::CorruptData)));
}

#[test]
fn load_with_inconsistent_balance_is_corrupt() {
    let text = "{\"name\":\"A\",\"balance\":5,\"transactions\":[\n]}\n";
    assert!(matches!(Wallet::load(Some(&text)), Err(WalletError::CorruptData)));
    let text = [
        "{\"name\":\"A\",\"balance\":100,\"transactions\":[",
        "\n  {\"type\":\"Credit\",\"amount\":100,\"timestamp\":\"1970-01-01T00:00:00.001Z\",",
        "\"description\":\"\",\"balance_after\":99}",
        "\n]}\n",
    ]
    .concat();
    assert!(matches!(Wallet::load(Some(&text)), Err(WalletError::CorruptData)));
}

#[test]
fn load_with_oversized_number_is_corrupt() {
    let text = "{\"name\":\"A\",\"balance\":9223372036854775808,\"transactions\":[\n]}\n";
    assert!(matches!(Wallet::load(Some(&text)), Err(WalletError::CorruptData)));
}

#[test]
fn load_of_valid_text_gives_its_wallet() {
    let text = [
        "{\"name\":\"Zed\",\"balance\":70,\"transactions\":[",
        "\n  {\"type\":\"Credit\",\"amount\":100,\"timestamp\":\"1970-01-01T00:00:00.001Z\",",
        "\"description\":\"in\",\"balance_after\":100},",
        "\n  {\"type\":\"Debit\",\"amount\":30,\"timestamp\":\"1970-01-01T00:00:00.002Z\",",
        "\"description\":\"out\",\"balance_after\":70}",
        "\n]}\n",
    ]
    .concat();
    let w = Wallet::load(Some(&text)).unwrap();
    assert_eq!(w.name, "Zed");
    assert_eq!(w.get_balance(), 70);
    assert_eq!(w.get_transactions().len(), 2);
    assert_eq!(w.get_transactions()[1].transaction_type, TransactionType::Debit);
    assert_eq!(w.get_transactions()[1].description, "out");
}

#[test]
fn amounts_read_as_minor_units() {
    assert_eq!(parse_amount("100"), Some(10000));
    assert_eq!(parse_amount("30.0"), Some(3000));
    assert_eq!(parse_amount("12.34"), Some(1234));
    assert_eq!(parse_amount("-5.0"), Some(-500));
    assert_eq!(parse_amount("-0.05"), Some(-5));
    assert_eq!(parse_amount("0"), Some(0));
    assert_eq!(parse_amount("1.234"), None);
    assert_eq!(parse_amount("abc"), None);
    assert_eq!(parse_amount(""), None);
    assert_eq!(parse_amount("1."), None);
    assert_eq!(parse_amount("92233720368547758.07"), Some(i64::MAX));
    assert_eq!(parse_amount("92233720368547758.08"), None);
}

#[test]
fn amounts_write_with_two_decimals() {
    assert_eq!(format_amount(7000), "70.00");
    assert_eq!(format_amount(5), "0.05");
    assert_eq!(format_amount(-5), "-0.05");
    assert_eq!(format_amount(1234), "12.34");
    assert_eq!(format_amount(i64::MIN), "-92233720368547758.08");
}

#[test]
fn formatted_amounts_read_back() {
    for cents in [0, 1, 9, 10, 99, 100, 7000, -1, -99, -100, -12345, i64::MAX, i64::MIN] {
        assert_eq!(parse_amount(&format_amount(cents)), Some(cents));
    }
}

#[test]
fn save_fails_on_timestamp_chrono_cannot_write() {
    let mut w = alice();
    w.credit_at(100, "far".to_string(), i64::MAX).unwrap();
    assert_eq!(w.save(), Err(WalletError::IoError));
}

#[test]
fn load_with_integer_timestamp_is_corrupt() {
    let text = [
        "{\"name\":\"A\",\"balance\":100,\"transactions\":[",
        "\n  {\"type\":\"Credit\",\"amount\":100,\"timestamp\":1,",
        "\"description\":\"\",\"balance_after\":100}",
        "\n]}\n",
    ]
    .concat();
    assert!(matches!(Wallet::load(Some(&text)), Err(WalletError::CorruptData)));
}

#[test]
fn load_reads_timestamp_with_offset() {
    let text = [
        "{\"name\":\"A\",\"balance\":100,\"transactions\":[",
        "\n  {\"type\":\"Credit\",\"amount\":100,\"timestamp\":\"2023-11-15T00:13:20.5+02:00\",",
        "\"description\":\"\",\"balance_after\":100}",
        "\n]}\n",
    ]
    .concat();
    let w = Wallet::load(Some(&text)).unwrap();
    assert_eq!(w.get_transactions()[0].timestamp, 1_700_000_000_500);
}
