use tonetheus::constants::{METRICS_PREFIX, MYTONCTRL_CMD_DELAY, MYTONCTRL_INIT_DELAY};
use tonetheus::prometheus::{active_gauge_value, index_gauge_value, outofsync_gauge_value,
    pool_labels, validator_labels};
use tonetheus::ton::{Amount, Command, PoolStatus, ValidatorStatus};
use tonetheus::utils::Args;

#[test]
fn args_carry_documented_defaults() {
    let args = Args::new("my-validator".to_string());
    assert_eq!(args.name, "my-validator");
    assert_eq!(args.host, "127.0.0.1");
    assert_eq!(args.port, 8000);
}

#[test]
fn timing_constants() {
    assert_eq!(MYTONCTRL_INIT_DELAY, 5);
    assert_eq!(MYTONCTRL_CMD_DELAY, 1);
    assert_eq!(METRICS_PREFIX, "tonetheus");
}

#[test]
fn command_texts() {
    assert_eq!(Command::Status.text(), "status");
    assert_eq!(Command::PoolsList.text(), "pools_list");
}

#[test]
fn validator_label_mapping() {
    let status = ValidatorStatus {
        network: "mainnet".to_string(),
        index: 3,
        address: "EQabc".to_string(),
        balance: Amount { nanos: 12_500_000_000 },
        outofsync: 7,
    };
    let labels = validator_labels("node-1", &status);
    assert_eq!(labels.validator_name, "node-1");
    assert_eq!(labels.validator_address.as_deref(), Some("EQabc"));
    assert_eq!(index_gauge_value(&status), 3);
    assert_eq!(outofsync_gauge_value(&status), 7);
}

#[test]
fn pool_label_mapping() {
    let pool = PoolStatus {
        name: "poolA".to_string(),
        address: "EQ111".to_string(),
        active: true,
        balance: Amount { nanos: 100_000_000_000 },
    };
    let labels = pool_labels("node-1", &pool);
    assert_eq!(labels.validator_name, "node-1");
    assert_eq!(labels.pool_name.as_deref(), Some("poolA"));
    assert_eq!(labels.pool_address.as_deref(), Some("EQ111"));
    assert_eq!(active_gauge_value(pool.active), 1);
    assert_eq!(active_gauge_value(false), 0);
}

#[test]
fn zero_amount_is_the_default_balance() {
    assert_eq!(Amount::zero().nanos, 0);
}
