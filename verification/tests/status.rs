use tonetheus::ton::{validator_status, ParseError, ValidatorStatus};

fn lines(texts: &[&str]) -> Vec<String> {
    texts.iter().map(|t| t.to_string()).collect()
}

#[test]
fn full_status_parse() {
    let buffer = lines(&[
        "Network name: mainnet",
        "Local validator wallet address: EQabc",
        "Validator index: 3",
        "Local validator wallet balance: 12.5",
        "Local validator out of sync: 0 s",
    ]);
    let (status, used) = validator_status(&buffer).unwrap();
    assert_eq!(status.network, "mainnet");
    assert_eq!(status.address, "EQabc");
    assert_eq!(status.index, 3);
    assert_eq!(status.balance.nanos, 12_500_000_000);
    assert_eq!(status.outofsync, 0);
    assert_eq!(used, 5);
}

#[test]
fn stops_exactly_at_out_of_sync_line() {
    let buffer = lines(&[
        "Network name: mainnet",
        "Local validator out of sync: 7 s",
        "Network name: testnet",
        "Validator index: 9",
    ]);
    let (status, used) = validator_status(&buffer).unwrap();
    assert_eq!(used, 2);
    assert_eq!(status.network, "mainnet");
    assert_eq!(status.outofsync, 7);
    // the lines after the terminating one were never applied
    assert_eq!(status.index, -1);
}

#[test]
fn unrecognized_lines_are_skipped() {
    let buffer = lines(&[
        "some banner",
        "",
        "Validator index: 11",
        "noise",
        "Local validator out of sync: 2 s",
    ]);
    let (status, used) = validator_status(&buffer).unwrap();
    assert_eq!(status.index, 11);
    assert_eq!(status.outofsync, 2);
    assert_eq!(used, 5);
}

#[test]
fn missing_index_line_keeps_default() {
    let buffer = lines(&[
        "Network name: mainnet",
        "Local validator wallet address: EQabc",
        "Local validator out of sync: 1 s",
    ]);
    let (status, used) = validator_status(&buffer).unwrap();
    assert_eq!(status.index, -1);
    assert_eq!(used, 3);
}

#[test]
fn missing_fields_keep_all_defaults() {
    let buffer = lines(&["Local validator out of sync: 4 s"]);
    let (status, used) = validator_status(&buffer).unwrap();
    assert_eq!(status.network, "");
    assert_eq!(status.address, "");
    assert_eq!(status.index, -1);
    assert_eq!(status.balance.nanos, 0);
    assert_eq!(status.outofsync, 4);
    assert_eq!(used, 1);
}

#[test]
fn malformed_index_is_reported() {
    let buffer = lines(&["Validator index: not-a-number", "Local validator out of sync: 0 s"]);
    assert_eq!(validator_status(&buffer), Err(ParseError::BadIndex));
}

#[test]
fn malformed_balance_is_reported() {
    let buffer = lines(&[
        "Local validator wallet balance: lots",
        "Local validator out of sync: 0 s",
    ]);
    assert_eq!(validator_status(&buffer), Err(ParseError::BadBalance));
}

#[test]
fn malformed_out_of_sync_is_reported() {
    let buffer = lines(&["Local validator out of sync: soon s"]);
    assert_eq!(validator_status(&buffer), Err(ParseError::BadOutOfSync));
}

#[test]
fn out_of_sync_without_unit_is_not_the_terminator() {
    let buffer = lines(&[
        "Local validator out of sync: 5",
        "Local validator out of sync: 6 s",
    ]);
    let (status, used) = validator_status(&buffer).unwrap();
    assert_eq!(status.outofsync, 6);
    assert_eq!(used, 2);
}

#[test]
fn buffer_without_terminator_stalls() {
    let buffer = lines(&["Network name: mainnet", "Validator index: 3"]);
    assert_eq!(validator_status(&buffer), Err(ParseError::Stall));
}

#[test]
fn overflowing_index_is_reported() {
    let buffer = lines(&["Validator index: 2147483648", "Local validator out of sync: 0 s"]);
    assert_eq!(validator_status(&buffer), Err(ParseError::BadIndex));
}

#[test]
fn incremental_feeding_matches_batch() {
    let mut status = ValidatorStatus::new();
    assert_eq!(status.apply_line("Network name: testnet"), Ok(false));
    assert_eq!(status.apply_line("stray output"), Ok(false));
    assert_eq!(status.apply_line("Validator index: 17"), Ok(false));
    assert_eq!(status.apply_line("Local validator out of sync: 42 s"), Ok(true));
    assert_eq!(status.network, "testnet");
    assert_eq!(status.index, 17);
    assert_eq!(status.outofsync, 42);
}

#[test]
fn failed_line_leaves_record_unchanged() {
    let mut status = ValidatorStatus::new();
    assert_eq!(status.apply_line("Validator index: 8"), Ok(false));
    assert_eq!(
        status.apply_line("Validator index: banana"),
        Err(ParseError::BadIndex)
    );
    assert_eq!(status.index, 8);
}
