use vstd::prelude::*;

verus! {

// ---------------------------------------------------------------------------
// Text normalizer
//
// The console subprocess colors its output with ANSI/VT100 control sequences.
// Every sequence of interest has the CSI shape
//
//     ESC '[' parameter-byte* intermediate-byte* final-byte
//
// where the three byte classes occupy disjoint ranges. Normalizing a line
// removes every such sequence and leaves all other characters untouched;
// malformed or truncated fragments pass through verbatim.
// ---------------------------------------------------------------------------

/// The escape character that opens every control sequence.
pub open spec fn is_escape(c: char) -> bool {
    c == '\u{1b}'
}

/// Parameter bytes of a CSI sequence: `0`..=`?`.
pub open spec fn is_csi_param(c: char) -> bool {
    0x30 <= c as u32 <= 0x3f
}

/// Intermediate bytes of a CSI sequence: space..=`/`.
pub open spec fn is_csi_intermediate(c: char) -> bool {
    0x20 <= c as u32 <= 0x2f
}

/// Final bytes of a CSI sequence: `@`..=`~`.
pub open spec fn is_csi_final(c: char) -> bool {
    0x40 <= c as u32 <= 0x7e
}

/// End of the run of parameter bytes that starts at `i`.
pub open spec fn param_run_end(s: Seq<char>, i: int) -> int
    decreases s.len() - i,
{
    if 0 <= i < s.len() && is_csi_param(s[i]) {
        param_run_end(s, i + 1)
    } else {
        i
    }
}

/// End of the run of intermediate bytes that starts at `i`.
pub open spec fn intermediate_run_end(s: Seq<char>, i: int) -> int
    decreases s.len() - i,
{
    if 0 <= i < s.len() && is_csi_intermediate(s[i]) {
        intermediate_run_end(s, i + 1)
    } else {
        i
    }
}

/// If a complete CSI sequence starts at position `i` of `s`, the position
/// one past its final byte; `None` if no complete sequence starts there.
pub open spec fn csi_end(s: Seq<char>, i: int) -> Option<int> {
    if 0 <= i && i + 1 < s.len() && is_escape(s[i]) && s[i + 1] == '[' {
        let p = param_run_end(s, i + 2);
        let q = intermediate_run_end(s, p);
        if q < s.len() && is_csi_final(s[q]) {
            Some(q + 1)
        } else {
            None
        }
    } else {
        None
    }
}

pub proof fn lemma_param_run_end_bounds(s: Seq<char>, i: int)
    requires
        0 <= i <= s.len(),
    ensures
        i <= param_run_end(s, i) <= s.len(),
    decreases s.len() - i,
{
    if 0 <= i < s.len() && is_csi_param(s[i]) {
        lemma_param_run_end_bounds(s, i + 1);
    }
}

pub proof fn lemma_intermediate_run_end_bounds(s: Seq<char>, i: int)
    requires
        0 <= i <= s.len(),
    ensures
        i <= intermediate_run_end(s, i) <= s.len(),
    decreases s.len() - i,
{
    if 0 <= i < s.len() && is_csi_intermediate(s[i]) {
        lemma_intermediate_run_end_bounds(s, i + 1);
    }
}

/// A complete sequence spans at least three characters and ends inside `s`.
pub proof fn lemma_csi_end_bounds(s: Seq<char>, i: int)
    ensures
        csi_end(s, i) matches Some(e) ==> i + 3 <= e <= s.len(),
{
    if 0 <= i && i + 1 < s.len() && is_escape(s[i]) && s[i + 1] == '[' {
        lemma_param_run_end_bounds(s, i + 2);
        lemma_intermediate_run_end_bounds(s, param_run_end(s, i + 2));
    }
}

/// The characters of `s` from position `i` on, with every complete CSI
/// sequence removed. This is the model of normalization: scan left to
/// right; where a complete sequence starts, drop it whole and continue
/// after it; otherwise keep the character.
pub open spec fn strip_from(s: Seq<char>, i: int) -> Seq<char>
    decreases s.len() - i,
{
    if i < 0 || i >= s.len() {
        Seq::empty()
    } else {
        match csi_end(s, i) {
            Some(e) => {
                proof {
                    lemma_csi_end_bounds(s, i);
                }
                strip_from(s, e)
            },
            None => seq![s[i]] + strip_from(s, i + 1),
        }
    }
}

/// What normalization returns on a whole line.
pub open spec fn strip(s: Seq<char>) -> Seq<char> {
    strip_from(s, 0)
}

/// A sequence is plain from `i` on if no complete CSI sequence starts at
/// or after `i`.
pub open spec fn plain_from(s: Seq<char>, i: int) -> bool {
    forall|j: int| i <= j < s.len() ==> #[trigger] csi_end(s, j) is None
}

/// A plain line: no complete CSI sequence starts anywhere in it.
pub open spec fn plain(s: Seq<char>) -> bool {
    plain_from(s, 0)
}

proof fn lemma_strip_from_plain(s: Seq<char>, i: int)
    requires
        0 <= i <= s.len(),
        plain_from(s, i),
    ensures
        strip_from(s, i) == s.subrange(i, s.len() as int),
    decreases s.len() - i,
{
    if i >= s.len() {
        assert(strip_from(s, i) =~= s.subrange(i, s.len() as int));
    } else {
        lemma_strip_from_plain(s, i + 1);
        assert(strip_from(s, i) =~= s.subrange(i, s.len() as int));
    }
}

/// Normalizing a line in which no complete escape sequence occurs returns
/// the line unchanged.
pub proof fn lemma_normalize_plain(s: Seq<char>)
    requires
        plain(s),
    ensures
        strip(s) == s,
{
    lemma_strip_from_plain(s, 0);
    assert(s.subrange(0, s.len() as int) =~= s);
}

/// A line without any escape character is plain.
pub proof fn lemma_no_escape_plain(s: Seq<char>)
    requires
        forall|j: int| 0 <= j < s.len() ==> !is_escape(#[trigger] s[j]),
    ensures
        plain(s),
{
    assert forall|j: int| 0 <= j < s.len() implies #[trigger] csi_end(s, j) is None by {
        assert(!is_escape(s[j]));
    }
}

proof fn lemma_strip_from_no_escape(s: Seq<char>, i: int)
    requires
        0 <= i <= s.len(),
        forall|j: int| i <= j < s.len() && is_escape(s[j]) ==> #[trigger] csi_end(s, j) is Some,
    ensures
        forall|k: int|
            0 <= k < strip_from(s, i).len() ==> !is_escape(#[trigger] strip_from(s, i)[k]),
    decreases s.len() - i,
{
    if i < s.len() {
        match csi_end(s, i) {
            Some(e) => {
                lemma_csi_end_bounds(s, i);
                assert(strip_from(s, i) == strip_from(s, e));
                lemma_strip_from_no_escape(s, e);
            },
            None => {
                assert(!is_escape(s[i]));
                lemma_strip_from_no_escape(s, i + 1);
                assert forall|k: int| 0 <= k < strip_from(s, i).len() implies !is_escape(
                    #[trigger] strip_from(s, i)[k],
                ) by {
                    if k == 0 {
                        assert(strip_from(s, i)[0] == s[i]);
                    } else {
                        assert(strip_from(s, i)[k] == strip_from(s, i + 1)[k - 1]);
                    }
                }
            },
        }
    }
}

/// Normalizing twice yields the same line as normalizing once. This holds
/// whenever the first pass leaves a plain line; a stray escape fragment
/// that borders a removed sequence can assemble into a new sequence, and
/// such inputs are excluded here.
pub proof fn lemma_normalize_idempotent(s: Seq<char>)
    requires
        plain(strip(s)),
    ensures
        strip(strip(s)) == strip(s),
{
    lemma_normalize_plain(strip(s));
}

/// If every escape character in the line opens a complete sequence, then
/// one normalization removes them all: the result is plain, and a second
/// normalization changes nothing.
pub proof fn lemma_normalize_complete_escapes(s: Seq<char>)
    requires
        forall|j: int| 0 <= j < s.len() && is_escape(s[j]) ==> #[trigger] csi_end(s, j) is Some,
    ensures
        plain(strip(s)),
        strip(strip(s)) == strip(s),
{
    lemma_strip_from_no_escape(s, 0);
    lemma_no_escape_plain(strip(s));
    lemma_normalize_idempotent(s);
}

fn is_csi_param_exec(c: char) -> (r: bool)
    ensures
        r == is_csi_param(c),
{
    let u = c as u32;
    0x30 <= u && u <= 0x3f
}

fn is_csi_intermediate_exec(c: char) -> (r: bool)
    ensures
        r == is_csi_intermediate(c),
{
    let u = c as u32;
    0x20 <= u && u <= 0x2f
}

fn is_csi_final_exec(c: char) -> (r: bool)
    ensures
        r == is_csi_final(c),
{
    let u = c as u32;
    0x40 <= u && u <= 0x7e
}

/// Looks for a complete CSI sequence starting at position `i`; returns the
/// position one past its final byte if one is there.
fn scan_csi(s: &str, i: usize) -> (r: Option<usize>)
    requires
        i < s@.len(),
    ensures
        match r {
            Some(e) => csi_end(s@, i as int) == Some(e as int) && i < e <= s@.len(),
            None => csi_end(s@, i as int) is None,
        },
{
    let n = s.unicode_len();
    if i + 1 >= n {
        return None;
    }
    if s.get_char(i) as u32 != 0x1b {
        return None;
    }
    if s.get_char(i + 1) != '[' {
        return None;
    }
    let mut j = i + 2;
    while j < n && is_csi_param_exec(s.get_char(j))
        invariant
            i + 2 <= j <= n,
            n == s@.len(),
            param_run_end(s@, i + 2) == param_run_end(s@, j as int),
        decreases n - j,
    {
        j += 1;
    }
    assert(param_run_end(s@, j as int) == j);
    let p = j;
    while j < n && is_csi_intermediate_exec(s.get_char(j))
        invariant
            p <= j <= n,
            n == s@.len(),
            intermediate_run_end(s@, p as int) == intermediate_run_end(s@, j as int),
        decreases n - j,
    {
        j += 1;
    }
    assert(intermediate_run_end(s@, j as int) == j);
    if j < n && is_csi_final_exec(s.get_char(j)) {
        Some(j + 1)
    } else {
        None
    }
}

/// Strips every complete ANSI CSI escape sequence from the line and leaves
/// all other characters, including malformed escape fragments, untouched.
pub fn decolorize(input: &str) -> (result: String)
    ensures
        result@ == strip(input@),
{
    let n = input.unicode_len();
    let mut out = String::new();
    let mut i: usize = 0;
    proof {
        assert(out@ + strip_from(input@, 0) =~= strip(input@));
    }
    while i < n
        invariant
            i <= n,
            n == input@.len(),
            out@ + strip_from(input@, i as int) == strip(input@),
        decreases n - i,
    {
        match scan_csi(input, i) {
            Some(e) => {
                proof {
                    assert(strip_from(input@, i as int) == strip_from(input@, e as int));
                }
                i = e;
            },
            None => {
                let piece = input.substring_char(i, i + 1);
                out.append(piece);
                proof {
                    assert(piece@ =~= seq![input@[i as int]]);
                    assert(strip_from(input@, i as int) == seq![input@[i as int]] + strip_from(
                        input@,
                        i as int + 1,
                    ));
                    assert(out@ + strip_from(input@, i as int + 1) =~= strip(input@));
                }
                i = i + 1;
            },
        }
    }
    proof {
        assert(out@ + strip_from(input@, n as int) =~= out@);
    }
    out
}

// ---------------------------------------------------------------------------
// Service configuration
// ---------------------------------------------------------------------------

/// Runtime configuration of the service: instance name, bind host and bind
/// port. The name is required; host and port have documented defaults.
pub struct Args {
    pub name: String,
    pub host: String,
    pub port: u32,
}

impl Args {
    /// Configuration with the given instance name and the default bind
    /// address (loopback) and port.
    pub fn new(name: String) -> (args: Args)
        ensures
            args.name@ == name@,
            args.host@ == "127.0.0.1"@,
            args.port == 8000,
    {
        Args { name, host: "127.0.0.1".to_owned(), port: 8000 }
    }
}

} // verus!
