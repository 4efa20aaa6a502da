use vstd::prelude::*;

use crate::ton::{PoolStatus, ValidatorStatus};

verus! {

// ---------------------------------------------------------------------------
// Metrics adapter: the pure mapping from parsed records to the label sets
// that key each gauge. Registering gauges and rendering the exposition
// text belong to the surrounding service, not to this library.
// ---------------------------------------------------------------------------

/// Label set attached to every validator gauge: the service instance name
/// and the validator wallet address.
pub struct ValidatorLabels {
    pub validator_name: String,
    pub validator_address: Option<String>,
}

/// Label set attached to every pool gauge: the service instance name, the
/// pool name and the pool address.
pub struct PoolLabels {
    pub validator_name: String,
    pub pool_name: Option<String>,
    pub pool_address: Option<String>,
}

/// The label set keying the three validator gauges of one status record.
pub fn validator_labels(name: &str, status: &ValidatorStatus) -> (labels: ValidatorLabels)
    ensures
        labels.validator_name@ == name@,
        labels.validator_address matches Some(a) && a@ == status.address@,
{
    ValidatorLabels {
        validator_name: name.to_owned(),
        validator_address: Some(status.address.clone()),
    }
}

/// The label set keying the two gauges of one pool record.
pub fn pool_labels(name: &str, pool: &PoolStatus) -> (labels: PoolLabels)
    ensures
        labels.validator_name@ == name@,
        labels.pool_name matches Some(p) && p@ == pool.name@,
        labels.pool_address matches Some(a) && a@ == pool.address@,
{
    PoolLabels {
        validator_name: name.to_owned(),
        pool_name: Some(pool.name.clone()),
        pool_address: Some(pool.address.clone()),
    }
}

/// The value of the pool activity gauge: one when active, zero otherwise.
pub fn active_gauge_value(active: bool) -> (value: i64)
    ensures
        value == if active {
            1int
        } else {
            0int
        },
{
    if active {
        1
    } else {
        0
    }
}

/// The value of the validator index gauge: the index, widened.
pub fn index_gauge_value(status: &ValidatorStatus) -> (value: i64)
    ensures
        value == status.index as int,
{
    status.index as i64
}

/// The value of the out-of-sync gauge: the desynchronized seconds, widened.
pub fn outofsync_gauge_value(status: &ValidatorStatus) -> (value: i64)
    ensures
        value == status.outofsync as int,
{
    status.outofsync as i64
}

} // verus!
