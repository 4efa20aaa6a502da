use tonetheus::ton::{pool_status, ParseError, PoolParser};

fn lines(texts: &[&str]) -> Vec<String> {
    texts.iter().map(|t| t.to_string()).collect()
}

const HEADER: &str = "Name Status Balance Version Address";

#[test]
fn two_rows_parsed_in_order() {
    let buffer = lines(&[
        HEADER,
        "poolA active 100.0 v1 EQ111",
        "poolB inactive 50.5 v1 EQ222",
        "",
    ]);
    let (pools, used) = pool_status(&buffer).unwrap();
    assert_eq!(pools.len(), 2);
    assert_eq!(pools[0].name, "poolA");
    assert!(pools[0].active);
    assert_eq!(pools[0].balance.nanos, 100_000_000_000);
    assert_eq!(pools[0].address, "EQ111");
    assert_eq!(pools[1].name, "poolB");
    assert!(!pools[1].active);
    assert_eq!(pools[1].balance.nanos, 50_500_000_000);
    assert_eq!(pools[1].address, "EQ222");
    assert_eq!(used, 4);
}

#[test]
fn header_with_trailing_whitespace_is_recognized() {
    let buffer = lines(&[
        "Name   Status   Balance   Version   Address   ",
        "poolA active 1.0 v1 EQ111",
        "",
    ]);
    let (pools, used) = pool_status(&buffer).unwrap();
    assert_eq!(pools.len(), 1);
    assert_eq!(used, 3);
}

#[test]
fn empty_table_yields_empty_sequence() {
    let buffer = lines(&[HEADER, ""]);
    let (pools, used) = pool_status(&buffer).unwrap();
    assert!(pools.is_empty());
    assert_eq!(used, 2);
}

#[test]
fn lines_before_header_are_discarded() {
    let buffer = lines(&[
        "banner",
        "",
        "poolX active 1.0 v1 EQ999",
        HEADER,
        "poolA active 2.0 v1 EQ111",
        "",
    ]);
    let (pools, used) = pool_status(&buffer).unwrap();
    assert_eq!(pools.len(), 1);
    assert_eq!(pools[0].name, "poolA");
    assert_eq!(used, 6);
}

#[test]
fn scan_stops_at_blank_line() {
    let buffer = lines(&[
        HEADER,
        "poolA active 1.0 v1 EQ111",
        "",
        "poolB active 2.0 v1 EQ222",
    ]);
    let (pools, used) = pool_status(&buffer).unwrap();
    assert_eq!(pools.len(), 1);
    assert_eq!(used, 3);
}

#[test]
fn short_row_is_reported() {
    let buffer = lines(&[HEADER, "poolA active 1.0 v1", ""]);
    assert_eq!(pool_status(&buffer), Err(ParseError::ShortPoolRow));
}

#[test]
fn bad_balance_is_reported() {
    let buffer = lines(&[HEADER, "poolA active much v1 EQ111", ""]);
    assert_eq!(pool_status(&buffer), Err(ParseError::BadPoolBalance));
}

#[test]
fn missing_header_stalls() {
    let buffer = lines(&["poolA active 1.0 v1 EQ111", ""]);
    assert_eq!(pool_status(&buffer), Err(ParseError::Stall));
}

#[test]
fn missing_blank_line_stalls() {
    let buffer = lines(&[HEADER, "poolA active 1.0 v1 EQ111"]);
    assert_eq!(pool_status(&buffer), Err(ParseError::Stall));
}

#[test]
fn incremental_pool_feeding_matches_batch() {
    let mut parser = PoolParser::new();
    assert_eq!(parser.feed_line("noise"), Ok(false));
    assert_eq!(parser.feed_line(HEADER), Ok(false));
    assert_eq!(parser.feed_line("poolA active 3.5 v1 EQ111"), Ok(false));
    assert_eq!(parser.feed_line(""), Ok(true));
    assert_eq!(parser.pools.len(), 1);
    assert_eq!(parser.pools[0].balance.nanos, 3_500_000_000);
}

#[test]
fn failed_row_leaves_scan_unchanged() {
    let mut parser = PoolParser::new();
    assert_eq!(parser.feed_line(HEADER), Ok(false));
    assert_eq!(parser.feed_line("poolA active 1.0 v1 EQ111"), Ok(false));
    assert_eq!(
        parser.feed_line("poolB active soon v1 EQ222"),
        Err(ParseError::BadPoolBalance)
    );
    assert_eq!(parser.pools.len(), 1);
    assert!(parser.collecting);
}

#[test]
fn spaces_only_line_is_blank() {
    let buffer = lines(&[HEADER, "poolA active 1.0 v1 EQ111", "   "]);
    let (pools, used) = pool_status(&buffer).unwrap();
    assert_eq!(pools.len(), 1);
    assert_eq!(used, 3);
}
