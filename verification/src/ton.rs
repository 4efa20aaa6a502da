use vstd::prelude::*;

use crate::num::{
    decimal_fits, decimal_nanos, int_val, is_decimal_literal, is_int_literal, parse_amount,
    parse_i32,
};

verus! {

// ---------------------------------------------------------------------------
// Records extracted from the console's output, and the two parsers that
// recognize them in the normalized line stream. The stream has no framing:
// each parser decides from content alone when its response is complete.
// ---------------------------------------------------------------------------

/// A wallet or pool balance, held exactly as a count of nanotons
/// (one billionth of a coin), the unit the chain itself accounts in.
#[derive(Clone, Copy, Debug, PartialEq, Eq, Structural)]
pub struct Amount {
    pub nanos: i128,
}

impl Amount {
    /// The zero balance, the documented default before any balance line
    /// has been observed.
    pub fn zero() -> (amount: Amount)
        ensures
            amount.nanos == 0,
    {
        Amount { nanos: 0 }
    }
}

/// Why a response could not be parsed. Every failure is reported to the
/// caller of the current request; none aborts the service.
#[derive(Clone, Copy, Debug, PartialEq, Eq, Structural)]
pub enum ParseError {
    /// The validator index line carried no 32-bit integer.
    BadIndex,
    /// The wallet balance line carried no decimal number in range.
    BadBalance,
    /// The out-of-sync line carried no 32-bit integer before its unit.
    BadOutOfSync,
    /// A pool table row had fewer than the five expected columns.
    ShortPoolRow,
    /// A pool table row's balance column carried no decimal number in range.
    BadPoolBalance,
    /// The buffer ended before the response's terminating line appeared.
    Stall,
}

/// The two console commands the adapter sends.
#[derive(Clone, Copy, Debug, PartialEq, Eq, Structural)]
pub enum Command {
    Status,
    PoolsList,
}

impl Command {
    /// The exact text written to the console's input stream; the sender
    /// appends one newline.
    pub fn text(&self) -> (t: &'static str)
        ensures
            *self == Command::Status ==> t@ == "status"@,
            *self == Command::PoolsList ==> t@ == "pools_list"@,
    {
        match self {
            Command::Status => "status",
            Command::PoolsList => "pools_list",
        }
    }
}

/// One validator status record, filled from the status response. Fields
/// keep their documented defaults until their line is observed.
#[derive(Debug, PartialEq, Eq)]
pub struct ValidatorStatus {
    pub network: String,
    pub index: i32,
    pub address: String,
    pub balance: Amount,
    pub outofsync: i32,
}

/// The mathematical value of a `ValidatorStatus`.
#[verifier::ext_equal]
pub ghost struct StatusV {
    pub network: Seq<char>,
    pub index: int,
    pub address: Seq<char>,
    pub balance: int,
    pub outofsync: int,
}

impl View for ValidatorStatus {
    type V = StatusV;

    open spec fn view(&self) -> StatusV {
        StatusV {
            network: self.network@,
            index: self.index as int,
            address: self.address@,
            balance: self.balance.nanos as int,
            outofsync: self.outofsync as int,
        }
    }
}

/// The record before any line has been observed: empty strings, index `-1`,
/// zero balance, zero out-of-sync seconds.
pub open spec fn status_default() -> StatusV {
    StatusV { network: Seq::empty(), index: -1, address: Seq::empty(), balance: 0, outofsync: 0 }
}

/// The text after a recognized prefix.
pub open spec fn line_value(line: Seq<char>, prefix: Seq<char>) -> Seq<char> {
    line.subrange(prefix.len() as int, line.len() as int)
}

/// The network name line.
pub open spec fn is_network_line(line: Seq<char>) -> bool {
    "Network name: "@.is_prefix_of(line)
}

/// The validator wallet address line.
pub open spec fn is_address_line(line: Seq<char>) -> bool {
    "Local validator wallet address: "@.is_prefix_of(line)
}

/// The validator index line.
pub open spec fn is_index_line(line: Seq<char>) -> bool {
    "Validator index: "@.is_prefix_of(line)
}

/// The validator wallet balance line.
pub open spec fn is_balance_line(line: Seq<char>) -> bool {
    "Local validator wallet balance: "@.is_prefix_of(line)
}

/// The out-of-sync line: the recognized prefix, a value, and the seconds
/// unit. It is the terminating line of the status response.
pub open spec fn is_outofsync_line(line: Seq<char>) -> bool {
    &&& "Local validator out of sync: "@.is_prefix_of(line)
    &&& " s"@.is_suffix_of(line_value(line, "Local validator out of sync: "@))
}

/// The value text of an out-of-sync line: what stands between the prefix
/// and the unit suffix.
pub open spec fn outofsync_payload(line: Seq<char>) -> Seq<char> {
    let rest = line_value(line, "Local validator out of sync: "@);
    rest.subrange(0, rest.len() - 2)
}

/// What one normalized line does to the status record: the first matching
/// recognizer wins; a line no recognizer matches changes nothing. The
/// second component is true exactly on the terminating out-of-sync line.
pub open spec fn status_line_result(v: StatusV, line: Seq<char>) -> Result<
    (StatusV, bool),
    ParseError,
> {
    if is_network_line(line) {
        Ok((StatusV { network: line_value(line, "Network name: "@), ..v }, false))
    } else if is_address_line(line) {
        Ok((StatusV { address: line_value(line, "Local validator wallet address: "@), ..v }, false))
    } else if is_index_line(line) {
        let t = line_value(line, "Validator index: "@);
        if is_int_literal(t) && i32::MIN <= int_val(t) <= i32::MAX {
            Ok((StatusV { index: int_val(t), ..v }, false))
        } else {
            Err(ParseError::BadIndex)
        }
    } else if is_balance_line(line) {
        let t = line_value(line, "Local validator wallet balance: "@);
        if is_decimal_literal(t) && decimal_fits(t) {
            Ok((StatusV { balance: decimal_nanos(t), ..v }, false))
        } else {
            Err(ParseError::BadBalance)
        }
    } else if is_outofsync_line(line) {
        let t = outofsync_payload(line);
        if is_int_literal(t) && i32::MIN <= int_val(t) <= i32::MAX {
            Ok((StatusV { outofsync: int_val(t), ..v }, true))
        } else {
            Err(ParseError::BadOutOfSync)
        }
    } else {
        Ok((v, false))
    }
}

/// Scanning the buffered lines from position `i` on: the record after the
/// terminating line, and the count of lines consumed. `Stall` when the
/// buffer ends first; the first field failure wins otherwise.
pub open spec fn run_status(v: StatusV, lines: Seq<Seq<char>>, i: int) -> Result<
    (StatusV, int),
    ParseError,
> decreases lines.len() - i,
{
    if i < 0 || i >= lines.len() {
        Err(ParseError::Stall)
    } else {
        match status_line_result(v, lines[i]) {
            Err(e) => Err(e),
            Ok((v2, done)) => if done {
                Ok((v2, i + 1))
            } else {
                run_status(v2, lines, i + 1)
            },
        }
    }
}

/// True when `prefix` opens `line`.
#[verifier::loop_isolation(false)]
fn starts_with(line: &str, prefix: &str) -> (r: bool)
    ensures
        r == prefix@.is_prefix_of(line@),
{
    let n = line.unicode_len();
    let p = prefix.unicode_len();
    if p > n {
        return false;
    }
    let mut i: usize = 0;
    while i < p
        invariant
            i <= p <= n,
            forall|j: int| 0 <= j < i ==> prefix@[j] == line@[j],
        decreases p - i,
    {
        if line.get_char(i) != prefix.get_char(i) {
            proof {
                if prefix@.is_prefix_of(line@) {
                    assert(prefix@[i as int] == line@.subrange(0, p as int)[i as int]);
                }
            }
            return false;
        }
        i += 1;
    }
    proof {
        assert(prefix@ =~= line@.subrange(0, p as int));
    }
    true
}

/// True when `suffix` closes `line`.
#[verifier::loop_isolation(false)]
fn ends_with(line: &str, suffix: &str) -> (r: bool)
    ensures
        r == suffix@.is_suffix_of(line@),
{
    let n = line.unicode_len();
    let p = suffix.unicode_len();
    if p > n {
        return false;
    }
    let off = n - p;
    let mut i: usize = 0;
    while i < p
        invariant
            i <= p <= n,
            off == n - p,
            forall|j: int| 0 <= j < i ==> suffix@[j] == line@[off + j],
        decreases p - i,
    {
        if line.get_char(off + i) != suffix.get_char(i) {
            proof {
                if suffix@.is_suffix_of(line@) {
                    assert(suffix@[i as int] == line@.subrange(
                        n - p,
                        n as int,
                    )[i as int]);
                }
            }
            return false;
        }
        i += 1;
    }
    proof {
        assert(suffix@ =~= line@.subrange(n - p, n as int));
    }
    true
}

/// True when the two texts are equal character for character.
#[verifier::loop_isolation(false)]
fn str_eq(a: &str, b: &str) -> (r: bool)
    ensures
        r == (a@ == b@),
{
    let n = a.unicode_len();
    if n != b.unicode_len() {
        return false;
    }
    let mut i: usize = 0;
    while i < n
        invariant
            i <= n,
            n == a@.len() == b@.len(),
            forall|j: int| 0 <= j < i ==> a@[j] == b@[j],
        decreases n - i,
    {
        if a.get_char(i) != b.get_char(i) {
            return false;
        }
        i += 1;
    }
    proof {
        assert(a@ =~= b@);
    }
    true
}

impl ValidatorStatus {
    /// A fresh record carrying every documented default.
    pub fn new() -> (status: ValidatorStatus)
        ensures
            status@ == status_default(),
    {
        let status = ValidatorStatus {
            network: String::new(),
            index: -1,
            address: String::new(),
            balance: Amount::zero(),
            outofsync: 0,
        };
        proof {
            assert(status@ =~= status_default());
        }
        status
    }

    /// Applies one normalized line to the record. Returns `Ok(true)` on the
    /// terminating out-of-sync line, `Ok(false)` on every other accepted
    /// line, and the field failure, with the record unchanged, where a
    /// recognized line carries a malformed number.
    pub fn apply_line(&mut self, line: &str) -> (r: Result<bool, ParseError>)
        ensures
            match r {
                Ok(done) => status_line_result(old(self)@, line@) == Ok::<
                    (StatusV, bool),
                    ParseError,
                >((final(self)@, done)),
                Err(e) => final(self)@ == old(self)@ && status_line_result(old(self)@, line@) == Err::<
                    (StatusV, bool),
                    ParseError,
                >(e),
            },
    {
        let n = line.unicode_len();
        if starts_with(line, "Network name: ") {
            let p = "Network name: ".unicode_len();
            self.network = line.substring_char(p, n).to_owned();
            proof {
                assert(self@ =~= (StatusV {
                    network: line_value(line@, "Network name: "@),
                    ..old(self)@
                }));
            }
            Ok(false)
        } else if starts_with(line, "Local validator wallet address: ") {
            let p = "Local validator wallet address: ".unicode_len();
            self.address = line.substring_char(p, n).to_owned();
            proof {
                assert(self@ =~= (StatusV {
                    address: line_value(line@, "Local validator wallet address: "@),
                    ..old(self)@
                }));
            }
            Ok(false)
        } else if starts_with(line, "Validator index: ") {
            let p = "Validator index: ".unicode_len();
            let rest = line.substring_char(p, n);
            match parse_i32(rest) {
                Some(v) => {
                    self.index = v;
                    proof {
                        assert(self@ =~= (StatusV {
                            index: int_val(line_value(line@, "Validator index: "@)),
                            ..old(self)@
                        }));
                    }
                    Ok(false)
                },
                None => Err(ParseError::BadIndex),
            }
        } else if starts_with(line, "Local validator wallet balance: ") {
            let p = "Local validator wallet balance: ".unicode_len();
            let rest = line.substring_char(p, n);
            match parse_amount(rest) {
                Some(a) => {
                    self.balance = a;
                    proof {
                        assert(self@ =~= (StatusV {
                            balance: decimal_nanos(
                                line_value(line@, "Local validator wallet balance: "@),
                            ),
                            ..old(self)@
                        }));
                    }
                    Ok(false)
                },
                None => Err(ParseError::BadBalance),
            }
        } else if starts_with(line, "Local validator out of sync: ") {
            let p = "Local validator out of sync: ".unicode_len();
            let rest = line.substring_char(p, n);
            if ends_with(rest, " s") {
                proof {
                    reveal_strlit(" s");
                }
                let rn = rest.unicode_len();
                let value = rest.substring_char(0, rn - 2);
                proof {
                    assert(value@ =~= outofsync_payload(line@));
                }
                match parse_i32(value) {
                    Some(v) => {
                        self.outofsync = v;
                        proof {
                            assert(self@ =~= (StatusV {
                                outofsync: int_val(outofsync_payload(line@)),
                                ..old(self)@
                            }));
                        }
                        Ok(true)
                    },
                    None => Err(ParseError::BadOutOfSync),
                }
            } else {
                Ok(false)
            }
        } else {
            Ok(false)
        }
    }
}

/// Scans the buffered status response: applies each line in order and stops
/// immediately after the out-of-sync line, leaving every later line
/// untouched. Returns the record and the count of lines consumed, the first
/// field failure, or `Stall` when the buffer holds no terminating line.
#[verifier::loop_isolation(false)]
pub fn validator_status(lines: &Vec<String>) -> (r: Result<(ValidatorStatus, usize), ParseError>)
    ensures
        match r {
            Ok((status, used)) => used <= lines.len() && run_status(
                status_default(),
                lines.deep_view(),
                0,
            ) == Ok::<(StatusV, int), ParseError>((status@, used as int)),
            Err(e) => run_status(status_default(), lines.deep_view(), 0) == Err::<
                (StatusV, int),
                ParseError,
            >(e),
        },
{
    let ghost lv = lines.deep_view();
    let mut status = ValidatorStatus::new();
    let mut i: usize = 0;
    while i < lines.len()
        invariant
            i <= lines.len(),
            lv == lines.deep_view(),
            run_status(status_default(), lv, 0) == run_status(status@, lv, i as int),
        decreases lines.len() - i,
    {
        proof {
            assert(lv[i as int] == lines@[i as int]@);
        }
        match status.apply_line(lines[i].as_str()) {
            Err(e) => {
                return Err(e);
            },
            Ok(true) => {
                return Ok((status, i + 1));
            },
            Ok(false) => {},
        }
        i += 1;
    }
    Err(ParseError::Stall)
}

/// An out-of-sync line matches no other status recognizer: all five
/// prefixes differ within their first seventeen characters.
pub proof fn lemma_recognizers_exclusive(line: Seq<char>)
    requires
        is_outofsync_line(line),
    ensures
        !is_network_line(line),
        !is_address_line(line),
        !is_index_line(line),
        !is_balance_line(line),
{
    reveal_strlit("Local validator out of sync: ");
    reveal_strlit("Network name: ");
    reveal_strlit("Local validator wallet address: ");
    reveal_strlit("Validator index: ");
    reveal_strlit("Local validator wallet balance: ");
    let p = "Local validator out of sync: "@;
    assert(p[0] == line.subrange(0, p.len() as int)[0]);
    assert(p[16] == line.subrange(0, p.len() as int)[16]);
    if is_network_line(line) {
        let q = "Network name: "@;
        assert(q[0] == line.subrange(0, q.len() as int)[0]);
    }
    if is_index_line(line) {
        let q = "Validator index: "@;
        assert(q[0] == line.subrange(0, q.len() as int)[0]);
    }
    if is_address_line(line) {
        let q = "Local validator wallet address: "@;
        assert(q[16] == line.subrange(0, q.len() as int)[16]);
    }
    if is_balance_line(line) {
        let q = "Local validator wallet balance: "@;
        assert(q[16] == line.subrange(0, q.len() as int)[16]);
    }
}

proof fn lemma_run_status_append_from(
    v: StatusV,
    lines: Seq<Seq<char>>,
    extra: Seq<Seq<char>>,
    i: int,
)
    requires
        0 <= i,
        run_status(v, lines, i) is Ok,
    ensures
        run_status(v, lines + extra, i) == run_status(v, lines, i),
    decreases lines.len() - i,
{
    assert(i < lines.len());
    assert((lines + extra)[i] == lines[i]);
    match status_line_result(v, lines[i]) {
        Err(e) => {},
        Ok((v2, done)) => {
            if !done {
                lemma_run_status_append_from(v2, lines, extra, i + 1);
            }
        },
    }
}

/// The status scan stops exactly at the out-of-sync line: once it
/// succeeds on a buffer, any lines that follow in the buffer change
/// neither the record nor the count of lines consumed.
pub proof fn lemma_status_stops_at_sentinel(
    v: StatusV,
    lines: Seq<Seq<char>>,
    extra: Seq<Seq<char>>,
)
    requires
        run_status(v, lines, 0) is Ok,
    ensures
        run_status(v, lines + extra, 0) == run_status(v, lines, 0),
{
    lemma_run_status_append_from(v, lines, extra, 0);
}

proof fn lemma_run_status_sentinel_from(
    v: StatusV,
    lines: Seq<Seq<char>>,
    st: StatusV,
    used: int,
    i: int,
)
    requires
        0 <= i,
        run_status(v, lines, i) == Ok::<(StatusV, int), ParseError>((st, used)),
    ensures
        i < used <= lines.len(),
        is_outofsync_line(lines[used - 1]),
        forall|j: int| i <= j < used - 1 ==> !is_outofsync_line(#[trigger] lines[j]),
    decreases lines.len() - i,
{
    assert(i < lines.len());
    match status_line_result(v, lines[i]) {
        Err(e) => {
            assert(false);
        },
        Ok((v2, done)) => {
            if done {
                assert(is_outofsync_line(lines[i]));
            } else {
                if is_outofsync_line(lines[i]) {
                    lemma_recognizers_exclusive(lines[i]);
                    assert(false);
                }
                lemma_run_status_sentinel_from(v2, lines, st, used, i + 1);
            }
        },
    }
}

/// The line the status scan stops after is the first out-of-sync line of
/// the consumed prefix, and it is the last line consumed.
pub proof fn lemma_status_sentinel_position(lines: Seq<Seq<char>>, st: StatusV, used: int)
    requires
        run_status(status_default(), lines, 0) == Ok::<(StatusV, int), ParseError>((st, used)),
    ensures
        0 < used <= lines.len(),
        is_outofsync_line(lines[used - 1]),
        forall|j: int| 0 <= j < used - 1 ==> !is_outofsync_line(#[trigger] lines[j]),
{
    lemma_run_status_sentinel_from(status_default(), lines, st, used, 0);
}

proof fn lemma_run_status_index_from(
    v: StatusV,
    lines: Seq<Seq<char>>,
    st: StatusV,
    used: int,
    i: int,
)
    requires
        0 <= i,
        run_status(v, lines, i) == Ok::<(StatusV, int), ParseError>((st, used)),
        forall|j: int| i <= j < lines.len() ==> !is_index_line(#[trigger] lines[j]),
    ensures
        st.index == v.index,
    decreases lines.len() - i,
{
    assert(i < lines.len());
    match status_line_result(v, lines[i]) {
        Err(e) => {
            assert(false);
        },
        Ok((v2, done)) => {
            assert(v2.index == v.index);
            if !done {
                lemma_run_status_index_from(v2, lines, st, used, i + 1);
            }
        },
    }
}

/// A status response without any validator index line leaves the index at
/// its `-1` not-yet-observed default in the returned record.
pub proof fn lemma_missing_index_keeps_default(lines: Seq<Seq<char>>, st: StatusV, used: int)
    requires
        run_status(status_default(), lines, 0) == Ok::<(StatusV, int), ParseError>((st, used)),
        forall|j: int| 0 <= j < lines.len() ==> !is_index_line(#[trigger] lines[j]),
    ensures
        st.index == -1,
{
    lemma_run_status_index_from(status_default(), lines, st, used, 0);
}

// ---------------------------------------------------------------------------
// Pool listing parser
// ---------------------------------------------------------------------------

/// One pool record, read from one row of the pool table.
#[derive(Debug, PartialEq, Eq)]
pub struct PoolStatus {
    pub name: String,
    pub address: String,
    pub active: bool,
    pub balance: Amount,
}

/// The mathematical value of a `PoolStatus`.
#[verifier::ext_equal]
pub ghost struct PoolV {
    pub name: Seq<char>,
    pub address: Seq<char>,
    pub active: bool,
    pub balance: int,
}

impl View for PoolStatus {
    type V = PoolV;

    open spec fn view(&self) -> PoolV {
        PoolV {
            name: self.name@,
            address: self.address@,
            active: self.active,
            balance: self.balance.nanos as int,
        }
    }
}

impl DeepView for PoolStatus {
    type V = PoolV;

    open spec fn deep_view(&self) -> PoolV {
        self.view()
    }
}

/// End of the run of non-space characters that starts at `i`.
pub open spec fn field_end(s: Seq<char>, i: int) -> int
    decreases s.len() - i,
{
    if 0 <= i < s.len() && s[i] != ' ' {
        field_end(s, i + 1)
    } else {
        i
    }
}

/// A field run ends between its start and the end of the line.
pub proof fn lemma_field_end_bounds(s: Seq<char>, i: int)
    requires
        0 <= i <= s.len(),
    ensures
        i <= field_end(s, i) <= s.len(),
    decreases s.len() - i,
{
    if 0 <= i < s.len() && s[i] != ' ' {
        lemma_field_end_bounds(s, i + 1);
    }
}

/// The whitespace-separated fields of the line from position `i` on, in
/// order, each one non-empty.
pub open spec fn fields_from(s: Seq<char>, i: int) -> Seq<Seq<char>>
    decreases s.len() - i,
{
    if i < 0 || i >= s.len() {
        Seq::empty()
    } else if s[i] == ' ' {
        fields_from(s, i + 1)
    } else {
        proof {
            lemma_field_end_bounds(s, i + 1);
            assert(field_end(s, i) == field_end(s, i + 1));
        }
        seq![s.subrange(i, field_end(s, i))] + fields_from(s, field_end(s, i))
    }
}

/// The whitespace-separated fields of a whole line.
pub open spec fn fields_of(s: Seq<char>) -> Seq<Seq<char>> {
    fields_from(s, 0)
}

/// The five column titles of the pool table header, in order.
pub open spec fn header_fields() -> Seq<Seq<char>> {
    seq!["Name"@, "Status"@, "Balance"@, "Version"@, "Address"@]
}

/// The header line that opens the pool table: exactly the five column
/// titles, whitespace-separated.
pub open spec fn is_header_line(line: Seq<char>) -> bool {
    fields_of(line) == header_fields()
}

/// What one collected table row yields: `None` for the blank line that
/// terminates the table, a record for a well-formed row, and the row
/// failure otherwise. Columns: name, status, balance, version, address.
pub open spec fn pool_row_result(line: Seq<char>) -> Result<Option<PoolV>, ParseError> {
    let fs = fields_of(line);
    if fs.len() == 0 {
        Ok(None)
    } else if fs.len() < 5 {
        Err(ParseError::ShortPoolRow)
    } else if !(is_decimal_literal(fs[2]) && decimal_fits(fs[2])) {
        Err(ParseError::BadPoolBalance)
    } else {
        Ok(
            Some(
                PoolV {
                    name: fs[0],
                    address: fs[4],
                    active: fs[1] == "active"@,
                    balance: decimal_nanos(fs[2]),
                },
            ),
        )
    }
}

/// What one normalized line does to the pool scan: before the header,
/// every line is discarded and only the header switches to collecting;
/// while collecting, each row is parsed and a blank line terminates. The
/// result carries the records, the collecting flag, and the done flag.
pub open spec fn pools_step(pools: Seq<PoolV>, collecting: bool, line: Seq<char>) -> Result<
    (Seq<PoolV>, bool, bool),
    ParseError,
> {
    if !collecting {
        Ok((pools, is_header_line(line), false))
    } else {
        match pool_row_result(line) {
            Err(e) => Err(e),
            Ok(None) => Ok((pools, true, true)),
            Ok(Some(p)) => Ok((pools.push(p), true, false)),
        }
    }
}

/// Scanning the buffered lines from position `i` on: the collected records
/// and the count of lines consumed up to and including the terminating
/// blank line. `Stall` when the buffer ends first; the first row failure
/// wins otherwise.
pub open spec fn run_pools(
    pools: Seq<PoolV>,
    collecting: bool,
    lines: Seq<Seq<char>>,
    i: int,
) -> Result<(Seq<PoolV>, int), ParseError>
    decreases lines.len() - i,
{
    if i < 0 || i >= lines.len() {
        Err(ParseError::Stall)
    } else {
        match pools_step(pools, collecting, lines[i]) {
            Err(e) => Err(e),
            Ok((pools2, collecting2, done)) => if done {
                Ok((pools2, i + 1))
            } else {
                run_pools(pools2, collecting2, lines, i + 1)
            },
        }
    }
}

/// Splits a line into its whitespace-separated fields, dropping all spaces.
#[verifier::loop_isolation(false)]
fn split_fields(line: &str) -> (fields: Vec<String>)
    ensures
        fields.deep_view() == fields_of(line@),
{
    let n = line.unicode_len();
    let mut fields: Vec<String> = Vec::new();
    proof {
        assert(fields.deep_view() + fields_from(line@, 0) =~= fields_of(line@));
    }
    let mut i: usize = 0;
    while i < n
        invariant
            i <= n,
            fields.deep_view() + fields_from(line@, i as int) == fields_of(line@),
        decreases n - i,
    {
        if line.get_char(i) == ' ' {
            proof {
                assert(fields_from(line@, i as int) == fields_from(line@, i as int + 1));
            }
            i += 1;
        } else {
            let start = i;
            let mut j = i + 1;
            proof {
                assert(field_end(line@, start as int) == field_end(line@, start as int + 1));
            }
            while j < n && line.get_char(j) != ' '
                invariant
                    start < j <= n,
                    field_end(line@, start as int) == field_end(line@, j as int),
                decreases n - j,
            {
                proof {
                    assert(field_end(line@, j as int) == field_end(line@, j as int + 1));
                }
                j += 1;
            }
            proof {
                assert(field_end(line@, j as int) == j);
            }
            let piece = line.substring_char(start, j).to_owned();
            let ghost pre = fields.deep_view();
            fields.push(piece);
            proof {
                assert(fields.deep_view() =~= pre.push(piece@));
                assert(fields_from(line@, start as int) == seq![
                    line@.subrange(start as int, j as int),
                ] + fields_from(line@, j as int));
                assert(fields.deep_view() + fields_from(line@, j as int) =~= pre + fields_from(
                    line@,
                    start as int,
                ));
            }
            i = j;
        }
    }
    proof {
        assert(fields.deep_view() + fields_from(line@, n as int) =~= fields.deep_view());
    }
    fields
}

/// True when the line is the pool table header.
fn is_header_exec(line: &str) -> (r: bool)
    ensures
        r == is_header_line(line@),
{
    let fields = split_fields(line);
    proof {
        reveal_strlit("Name");
        reveal_strlit("Status");
        reveal_strlit("Balance");
        reveal_strlit("Version");
        reveal_strlit("Address");
    }
    if fields.len() != 5 {
        proof {
            assert(header_fields().len() == 5);
            assert(fields.deep_view().len() == fields@.len());
        }
        return false;
    }
    proof {
        assert(fields.deep_view()[0] == fields@[0]@);
        assert(fields.deep_view()[1] == fields@[1]@);
        assert(fields.deep_view()[2] == fields@[2]@);
        assert(fields.deep_view()[3] == fields@[3]@);
        assert(fields.deep_view()[4] == fields@[4]@);
    }
    let r = str_eq(fields[0].as_str(), "Name") && str_eq(fields[1].as_str(), "Status") && str_eq(
        fields[2].as_str(),
        "Balance",
    ) && str_eq(fields[3].as_str(), "Version") && str_eq(fields[4].as_str(), "Address");
    proof {
        if r {
            assert(fields.deep_view() =~= header_fields());
        } else {
            assert(fields.deep_view() != header_fields());
        }
    }
    r
}

/// The two-state scan over the pool listing response: lines are discarded
/// until the table header appears, then each row becomes a record until
/// the blank line that closes the table.
pub struct PoolParser {
    pub pools: Vec<PoolStatus>,
    pub collecting: bool,
}

impl PoolParser {
    /// A fresh scan: no records yet, still waiting for the header.
    pub fn new() -> (parser: PoolParser)
        ensures
            parser.pools.deep_view() == Seq::<PoolV>::empty(),
            !parser.collecting,
    {
        let parser = PoolParser { pools: Vec::new(), collecting: false };
        proof {
            assert(parser.pools.deep_view() =~= Seq::<PoolV>::empty());
        }
        parser
    }

    /// Applies one normalized line to the scan. Returns `Ok(true)` on the
    /// blank line that terminates the table, `Ok(false)` on every other
    /// accepted line, and the row failure, with the scan unchanged, where
    /// a collected row is malformed.
    pub fn feed_line(&mut self, line: &str) -> (r: Result<bool, ParseError>)
        ensures
            match r {
                Ok(done) => pools_step(old(self).pools.deep_view(), old(self).collecting, line@)
                    == Ok::<(Seq<PoolV>, bool, bool), ParseError>(
                    (final(self).pools.deep_view(), final(self).collecting, done),
                ),
                Err(e) => final(self).pools.deep_view() == old(self).pools.deep_view()
                    && final(self).collecting == old(self).collecting && pools_step(
                    old(self).pools.deep_view(),
                    old(self).collecting,
                    line@,
                ) == Err::<(Seq<PoolV>, bool, bool), ParseError>(e),
            },
    {
        if !self.collecting {
            let header = is_header_exec(line);
            self.collecting = header;
            Ok(false)
        } else {
            let fields = split_fields(line);
            if fields.len() == 0 {
                Ok(true)
            } else if fields.len() < 5 {
                Err(ParseError::ShortPoolRow)
            } else {
                proof {
                    assert(fields.deep_view()[0] == fields@[0]@);
                    assert(fields.deep_view()[1] == fields@[1]@);
                    assert(fields.deep_view()[2] == fields@[2]@);
                    assert(fields.deep_view()[4] == fields@[4]@);
                }
                match parse_amount(fields[2].as_str()) {
                    None => Err(ParseError::BadPoolBalance),
                    Some(balance) => {
                        let active = str_eq(fields[1].as_str(), "active");
                        let pool = PoolStatus {
                            name: fields[0].clone(),
                            address: fields[4].clone(),
                            active,
                            balance,
                        };
                        let ghost pre = self.pools.deep_view();
                        let ghost pv = pool@;
                        self.pools.push(pool);
                        proof {
                            assert(self.pools.deep_view() =~= pre.push(pv));
                            assert(pv =~= pool_row_result(line@)->Ok_0->Some_0);
                        }
                        Ok(false)
                    },
                }
            }
        }
    }
}

/// Scans the buffered pool listing response: discards lines up to the
/// table header, then collects one record per row, in stream order, and
/// stops at the blank line that closes the table. Returns the records and
/// the count of lines consumed, the first row failure, or `Stall` when the
/// buffer holds no complete table.
#[verifier::loop_isolation(false)]
pub fn pool_status(lines: &Vec<String>) -> (r: Result<(Vec<PoolStatus>, usize), ParseError>)
    ensures
        match r {
            Ok((pools, used)) => used <= lines.len() && run_pools(
                Seq::empty(),
                false,
                lines.deep_view(),
                0,
            ) == Ok::<(Seq<PoolV>, int), ParseError>((pools.deep_view(), used as int)),
            Err(e) => run_pools(Seq::empty(), false, lines.deep_view(), 0) == Err::<
                (Seq<PoolV>, int),
                ParseError,
            >(e),
        },
{
    let ghost lv = lines.deep_view();
    let mut parser = PoolParser::new();
    let mut i: usize = 0;
    while i < lines.len()
        invariant
            i <= lines.len(),
            lv == lines.deep_view(),
            run_pools(Seq::empty(), false, lv, 0) == run_pools(
                parser.pools.deep_view(),
                parser.collecting,
                lv,
                i as int,
            ),
        decreases lines.len() - i,
    {
        proof {
            assert(lv[i as int] == lines@[i as int]@);
        }
        match parser.feed_line(lines[i].as_str()) {
            Err(e) => {
                return Err(e);
            },
            Ok(true) => {
                return Ok((parser.pools, i + 1));
            },
            Ok(false) => {},
        }
        i += 1;
    }
    Err(ParseError::Stall)
}

proof fn lemma_run_pools_append_from(
    pools: Seq<PoolV>,
    collecting: bool,
    lines: Seq<Seq<char>>,
    extra: Seq<Seq<char>>,
    i: int,
)
    requires
        0 <= i,
        run_pools(pools, collecting, lines, i) is Ok,
    ensures
        run_pools(pools, collecting, lines + extra, i) == run_pools(pools, collecting, lines, i),
    decreases lines.len() - i,
{
    assert(i < lines.len());
    assert((lines + extra)[i] == lines[i]);
    match pools_step(pools, collecting, lines[i]) {
        Err(e) => {},
        Ok((pools2, collecting2, done)) => {
            if !done {
                lemma_run_pools_append_from(pools2, collecting2, lines, extra, i + 1);
            }
        },
    }
}

/// The pool scan stops exactly at the blank line that closes the table:
/// once it succeeds on a buffer, any lines that follow in the buffer
/// change neither the records nor the count of lines consumed.
pub proof fn lemma_pools_stop_at_blank(lines: Seq<Seq<char>>, extra: Seq<Seq<char>>)
    requires
        run_pools(Seq::empty(), false, lines, 0) is Ok,
    ensures
        run_pools(Seq::empty(), false, lines + extra, 0) == run_pools(Seq::empty(), false, lines, 0),
{
    lemma_run_pools_append_from(Seq::empty(), false, lines, extra, 0);
}

} // verus!
