use vstd::prelude::*;

use crate::ton::Amount;

verus! {

// ---------------------------------------------------------------------------
// Numeric field parsing
//
// The console prints numbers as plain decimal text: an optional sign, whole
// digits, and for balances an optional fraction after one dot. These
// functions turn such text into integers exactly; anything else is rejected
// so that a malformed field surfaces as a reported failure instead of a
// silently defaulted value.
// ---------------------------------------------------------------------------

/// A decimal digit `0`..=`9`.
pub open spec fn is_digit(c: char) -> bool {
    48 <= c as u32 <= 57
}

/// The numeric value of a digit character.
pub open spec fn digit_val(c: char) -> int {
    c as u32 - 48
}

/// Every character of `s` is a decimal digit.
pub open spec fn all_digits(s: Seq<char>) -> bool {
    forall|i: int| 0 <= i < s.len() ==> is_digit(#[trigger] s[i])
}

/// The value of a digit string read in base ten.
pub open spec fn digits_val(s: Seq<char>) -> int
    decreases s.len(),
{
    if s.len() == 0 {
        0
    } else {
        10 * digits_val(s.drop_last()) + digit_val(s.last())
    }
}

/// Ten to the `n`.
pub open spec fn pow10(n: nat) -> int
    decreases n,
{
    if n == 0 {
        1
    } else {
        10 * pow10((n - 1) as nat)
    }
}

/// The digits of `s` after an optional leading sign.
pub open spec fn unsigned_part(s: Seq<char>) -> Seq<char> {
    if s.len() > 0 && (s[0] == '+' || s[0] == '-') {
        s.subrange(1, s.len() as int)
    } else {
        s
    }
}

/// `-1` for a leading minus sign, `1` otherwise.
pub open spec fn sign_of(s: Seq<char>) -> int {
    if s.len() > 0 && s[0] == '-' {
        -1
    } else {
        1
    }
}

/// An integer literal: an optional sign followed by one or more digits.
pub open spec fn is_int_literal(s: Seq<char>) -> bool {
    unsigned_part(s).len() > 0 && all_digits(unsigned_part(s))
}

/// The mathematical value of an integer literal.
pub open spec fn int_val(s: Seq<char>) -> int {
    sign_of(s) * digits_val(unsigned_part(s))
}

/// Position of the first dot in `s` at or after `i`, or `s.len()` if none.
pub open spec fn dot_pos(s: Seq<char>, i: int) -> int
    decreases s.len() - i,
{
    if i < 0 || i >= s.len() {
        s.len() as int
    } else if s[i] == '.' {
        i
    } else {
        dot_pos(s, i + 1)
    }
}

/// The digits before the dot of an unsigned decimal string.
pub open spec fn whole_digits(u: Seq<char>) -> Seq<char> {
    u.subrange(0, dot_pos(u, 0))
}

/// The digits after the dot of an unsigned decimal string; empty without a dot.
pub open spec fn frac_digits(u: Seq<char>) -> Seq<char> {
    if dot_pos(u, 0) < u.len() {
        u.subrange(dot_pos(u, 0) + 1, u.len() as int)
    } else {
        Seq::empty()
    }
}

/// A decimal literal: an optional sign, digits, at most one dot, and at
/// least one digit overall (`12`, `12.5`, `12.`, `.5`, `-3.25`).
pub open spec fn is_decimal_literal(s: Seq<char>) -> bool {
    let u = unsigned_part(s);
    &&& all_digits(whole_digits(u))
    &&& all_digits(frac_digits(u))
    &&& whole_digits(u).len() + frac_digits(u).len() > 0
}

/// Largest whole part a balance may carry; the nanoton total then fits
/// comfortably in a signed 128-bit count.
pub const MAX_WHOLE_TONS: u64 = 1_000_000_000_000_000_000;

/// The whole part of the literal is small enough to account in nanotons.
pub open spec fn decimal_fits(s: Seq<char>) -> bool {
    digits_val(whole_digits(unsigned_part(s))) < MAX_WHOLE_TONS as int
}

/// Value of the fraction digits in nanotons: the first nine fraction
/// digits, padded with zeros on the right up to nine places. Digits past
/// the ninth are below one nanoton and are dropped.
pub open spec fn frac_nanos(fd: Seq<char>) -> int {
    if fd.len() >= 9 {
        digits_val(fd.subrange(0, 9))
    } else {
        digits_val(fd) * pow10((9 - fd.len()) as nat)
    }
}

/// The exact nanoton value of a decimal literal.
pub open spec fn decimal_nanos(s: Seq<char>) -> int {
    let u = unsigned_part(s);
    sign_of(s) * (digits_val(whole_digits(u)) * 1_000_000_000 + frac_nanos(frac_digits(u)))
}

/// Reading one more digit multiplies the value by ten and adds the digit.
pub proof fn lemma_digits_val_push(s: Seq<char>, i: int)
    requires
        0 <= i < s.len(),
    ensures
        digits_val(s.subrange(0, i + 1)) == 10 * digits_val(s.subrange(0, i)) + digit_val(s[i]),
{
    let t = s.subrange(0, i + 1);
    assert(t.drop_last() =~= s.subrange(0, i));
    assert(t.last() == s[i]);
}

/// A digit string has a value between zero and ten to its length.
pub proof fn lemma_digits_val_bounds(s: Seq<char>)
    requires
        all_digits(s),
    ensures
        0 <= digits_val(s) < pow10(s.len()),
    decreases s.len(),
{
    if s.len() > 0 {
        assert(all_digits(s.drop_last())) by {
            assert(forall|i: int|
                0 <= i < s.drop_last().len() ==> #[trigger] s.drop_last()[i] == s[i]);
        }
        lemma_digits_val_bounds(s.drop_last());
        assert(is_digit(s.last()));
    }
}

/// A prefix of a digit string never exceeds the whole string in value.
pub proof fn lemma_digits_val_prefix(s: Seq<char>, i: int)
    requires
        all_digits(s),
        0 <= i <= s.len(),
    ensures
        digits_val(s.subrange(0, i)) <= digits_val(s),
    decreases s.len() - i,
{
    if i == s.len() {
        assert(s.subrange(0, i) =~= s);
    } else {
        lemma_digits_val_push(s, i);
        assert(all_digits(s.subrange(0, i))) by {
            assert(forall|j: int| 0 <= j < i ==> #[trigger] s.subrange(0, i)[j] == s[j]);
        }
        lemma_digits_val_bounds(s.subrange(0, i));
        assert(is_digit(s[i]));
        lemma_digits_val_prefix(s, i + 1);
    }
}

/// If no dot occurs in `[i, m)` and `m` is a dot or the end, the first dot
/// search from `i` stops at `m`.
pub proof fn lemma_dot_pos_at(s: Seq<char>, i: int, m: int)
    requires
        0 <= i <= m <= s.len(),
        forall|j: int| i <= j < m ==> #[trigger] s[j] != '.',
        m == s.len() || s[m] == '.',
    ensures
        dot_pos(s, i) == if m == s.len() {
            s.len() as int
        } else {
            m
        },
    decreases m - i,
{
    if i < m {
        lemma_dot_pos_at(s, i + 1, m);
    }
}

/// The first dot position lies between `i` and the end of the string.
pub proof fn lemma_dot_pos_le_len(s: Seq<char>, i: int)
    requires
        0 <= i <= s.len(),
    ensures
        i <= dot_pos(s, i) <= s.len(),
    decreases s.len() - i,
{
    if i < s.len() && s[i] != '.' {
        lemma_dot_pos_le_len(s, i + 1);
    }
}

/// Ten to any power is positive.
proof fn lemma_pow10_pos(n: nat)
    ensures
        pow10(n) >= 1,
    decreases n,
{
    if n > 0 {
        lemma_pow10_pos((n - 1) as nat);
    }
}

/// Ten to a power grows with the exponent.
proof fn lemma_pow10_mono(a: nat, b: nat)
    requires
        a <= b,
    ensures
        pow10(a) <= pow10(b),
    decreases b - a,
{
    if a < b {
        lemma_pow10_mono(a, (b - 1) as nat);
        lemma_pow10_pos((b - 1) as nat);
    }
}

/// Ten to the ninth, written out.
proof fn lemma_pow10_9()
    ensures
        pow10(9) == 1_000_000_000,
{
    assert(pow10(0) == 1);
    assert(pow10(1) == 10);
    assert(pow10(2) == 100);
    assert(pow10(3) == 1000);
    assert(pow10(4) == 10000);
    assert(pow10(5) == 100000);
    assert(pow10(6) == 1000000);
    assert(pow10(7) == 10000000);
    assert(pow10(8) == 100000000);
    assert(pow10(9) == 1000000000);
}

/// Ten to at most the ninth stays at or below one billion.
proof fn lemma_pow10_le_9(n: nat)
    requires
        n <= 9,
    ensures
        1 <= pow10(n) <= 1_000_000_000,
{
    lemma_pow10_pos(n);
    lemma_pow10_mono(n, 9);
    lemma_pow10_9();
}

/// Value and bound of a digit prefix.
proof fn lemma_digits_val_bounds_prefix(s: Seq<char>, i: int)
    requires
        0 <= i <= s.len(),
        forall|j: int| 0 <= j < i ==> is_digit(#[trigger] s[j]),
    ensures
        0 <= digits_val(s.subrange(0, i)) < pow10(i as nat),
{
    let t = s.subrange(0, i);
    assert(all_digits(t)) by {
        assert(forall|j: int| 0 <= j < i ==> #[trigger] t[j] == s[j]);
    }
    lemma_digits_val_bounds(t);
}

fn is_digit_exec(c: char) -> (r: bool)
    ensures
        r == is_digit(c),
{
    let u = c as u32;
    48 <= u && u <= 57
}

/// Parses a signed 32-bit integer written in decimal, exactly as the
/// status fields carry one; `None` on any other text and on overflow.
#[verifier::loop_isolation(false)]
pub fn parse_i32(s: &str) -> (r: Option<i32>)
    ensures
        r is Some <==> is_int_literal(s@) && i32::MIN <= int_val(s@) <= i32::MAX,
        r matches Some(v) ==> v as int == int_val(s@),
{
    let n = s.unicode_len();
    let mut start: usize = 0;
    let mut neg = false;
    if n > 0 {
        let c = s.get_char(0);
        if c == '-' {
            neg = true;
            start = 1;
        } else if c == '+' {
            start = 1;
        }
    }
    let ghost u = unsigned_part(s@);
    proof {
        assert(u =~= s@.subrange(start as int, n as int));
        assert(sign_of(s@) == if neg {
            -1int
        } else {
            1int
        });
    }
    if start >= n {
        return None;
    }
    let mut mag: u64 = 0;
    let mut k = start;
    while k < n
        invariant
            start <= k <= n,
            forall|j: int| 0 <= j < k - start ==> is_digit(#[trigger] u[j]),
            mag == digits_val(u.subrange(0, k - start)),
            mag <= 0x8000_0000,
        decreases n - k,
    {
        let c = s.get_char(k);
        proof {
            assert(u[k - start] == s@[k as int]);
        }
        if !is_digit_exec(c) {
            proof {
                assert(!all_digits(u));
            }
            return None;
        }
        let d = (c as u32 - 48) as u64;
        let next = mag * 10 + d;
        proof {
            lemma_digits_val_push(u, k - start);
        }
        if next > 0x8000_0000 {
            // too large for a 32-bit value whichever the sign; if the rest
            // of the text is digits the full value is larger still
            proof {
                if is_int_literal(s@) {
                    lemma_digits_val_prefix(u, k + 1 - start);
                }
            }
            return None;
        }
        mag = next;
        k += 1;
    }
    proof {
        assert(u.subrange(0, n - start) =~= u);
        assert(is_int_literal(s@));
    }
    if neg {
        let v = -(mag as i64);
        Some(v as i32)
    } else {
        if mag > 0x7fff_ffff {
            return None;
        }
        Some(mag as i32)
    }
}

/// Parses a decimal balance into an exact nanoton count: an optional sign,
/// whole digits, and an optional fraction after one dot, of which the first
/// nine places count. `None` on any other text and on a whole part of
/// `MAX_WHOLE_TONS` or more.
#[verifier::loop_isolation(false)]
#[verifier::rlimit(60)]
pub fn parse_amount(s: &str) -> (r: Option<Amount>)
    ensures
        r is Some <==> is_decimal_literal(s@) && decimal_fits(s@),
        r matches Some(a) ==> a.nanos as int == decimal_nanos(s@),
{
    let n = s.unicode_len();
    let mut start: usize = 0;
    let mut neg = false;
    if n > 0 {
        let c = s.get_char(0);
        if c == '-' {
            neg = true;
            start = 1;
        } else if c == '+' {
            start = 1;
        }
    }
    let ghost u = unsigned_part(s@);
    proof {
        assert(u =~= s@.subrange(start as int, n as int));
        assert(sign_of(s@) == if neg {
            -1int
        } else {
            1int
        });
    }
    // whole part, up to the first dot or the end
    let mut whole: u64 = 0;
    let mut k = start;
    while k < n && s.get_char(k) != '.'
        invariant
            start <= k <= n,
            forall|j: int| 0 <= j < k - start ==> is_digit(#[trigger] u[j]),
            whole == digits_val(u.subrange(0, k - start)),
            whole < MAX_WHOLE_TONS,
        decreases n - k,
    {
        let c = s.get_char(k);
        proof {
            assert(u[k - start] == s@[k as int]);
        }
        if !is_digit_exec(c) {
            proof {
                assert(u[k - start] != '.');
                assert(forall|j: int| 0 <= j < k + 1 - start ==> #[trigger] u[j] != '.');
                lemma_dot_pos_ge(u, 0, k + 1 - start);
                assert(whole_digits(u)[k - start] == u[k - start]);
                assert(!all_digits(whole_digits(u)));
            }
            return None;
        }
        let d = (c as u32 - 48) as u64;
        let next = whole * 10 + d;
        proof {
            lemma_digits_val_push(u, k - start);
        }
        if next >= MAX_WHOLE_TONS {
            // the whole part is already too large to account in nanotons;
            // more digits could only grow it
            proof {
                lemma_dot_pos_ge_digits(u, k + 1 - start);
                if is_decimal_literal(s@) {
                    lemma_dot_pos_le_len(u, 0);
                    lemma_whole_prefix(u, k + 1 - start);
                }
            }
            return None;
        }
        whole = next;
        k += 1;
    }
    let whole_len = k - start;
    let ghost dp = whole_len as int;
    proof {
        lemma_dot_pos_at(u, 0, dp);
        assert(dot_pos(u, 0) == dp);
        assert(whole_digits(u) =~= u.subrange(0, dp));
        assert(all_digits(whole_digits(u)));
    }
    // fraction part after the dot, if a dot is there
    let mut frac: u64 = 0;
    let mut places: u64 = 0;
    let ghost fd = frac_digits(u);
    if k < n {
        k += 1;
        proof {
            assert(fd =~= u.subrange(dp + 1, u.len() as int));
        }
        while k < n
            invariant
                start + 1 + dp <= k <= n,
                fd =~= u.subrange(dp + 1, u.len() as int),
                forall|j: int| 0 <= j < k - start - 1 - dp ==> is_digit(#[trigger] fd[j]),
                places == if k - start - 1 - dp <= 9 {
                    k - start - 1 - dp
                } else {
                    9int
                },
                frac == digits_val(fd.subrange(0, places as int)),
                frac < pow10(places as nat),
            decreases n - k,
        {
            let c = s.get_char(k);
            proof {
                assert(fd[k - start - 1 - dp] == s@[k as int]);
            }
            if !is_digit_exec(c) {
                proof {
                    assert(!all_digits(frac_digits(u)));
                }
                return None;
            }
            if places < 9 {
                let d = (c as u32 - 48) as u64;
                proof {
                    lemma_pow10_le_9(places as nat);
                    lemma_digits_val_push(fd, places as int);
                    lemma_digits_val_bounds_prefix(fd, places + 1);
                }
                frac = frac * 10 + d;
                places += 1;
            }
            k += 1;
        }
    }
    proof {
        if dp < u.len() {
            assert(fd =~= u.subrange(dp + 1, u.len() as int));
        } else {
            assert(fd =~= Seq::<char>::empty());
        }
        assert(all_digits(fd));
    }
    if whole_len == 0 && n - start <= 1 {
        // no digit anywhere: the text after the sign is empty or a lone dot
        return None;
    }
    proof {
        if dp == 0 {
            assert(u.len() > 1);
            assert(fd.len() > 0);
        }
        if dp < u.len() {
            // a dot was scanned; the fraction loop ran over all of `fd`
            if fd.len() < 9 {
                assert(places == fd.len());
                assert(frac == digits_val(fd.subrange(0, places as int)));
                assert(fd.subrange(0, fd.len() as int) =~= fd);
                assert(digits_val(fd.subrange(0, places as int)) == digits_val(fd));
                assert(pow10(0) == 1);
                assert((places - fd.len()) as nat == 0);
                assert(frac == digits_val(fd) * pow10((places - fd.len()) as nat));
            }
        } else {
            assert(fd =~= Seq::<char>::empty());
            assert(digits_val(fd) == 0);
            assert(pow10(0) == 1);
            assert(frac == 0 && places == 0);
            assert(frac == digits_val(fd) * pow10((places - fd.len()) as nat));
        }
    }
    // pad the fraction to nine places
    while places < 9
        invariant
            places <= 9,
            fd.len() >= 9 ==> places == 9 && frac == digits_val(fd.subrange(0, 9)),
            fd.len() < 9 ==> fd.len() <= places && frac == digits_val(fd) * pow10(
                (places - fd.len()) as nat,
            ),
            frac < pow10(places as nat),
        decreases 9 - places,
    {
        proof {
            lemma_pow10_le_9(places as nat);
            let d = digits_val(fd);
            let p = (places - fd.len()) as nat;
            assert(pow10(p + 1) == 10 * pow10(p));
            assert(pow10((places + 1) as nat) == 10 * pow10(places as nat));
            assert(10 * (d * pow10(p)) == d * (10 * pow10(p))) by (nonlinear_arith);
        }
        frac = frac * 10;
        places += 1;
    }
    proof {
        lemma_pow10_9();
    }
    let magnitude: i128 = (whole as i128) * 1_000_000_000 + (frac as i128);
    let nanos: i128 = if neg {
        -magnitude
    } else {
        magnitude
    };
    Some(Amount { nanos })
}

/// While only digits have been seen, the first dot lies at or past the
/// scan position.
proof fn lemma_dot_pos_ge_digits(u: Seq<char>, m: int)
    requires
        0 <= m <= u.len(),
        forall|j: int| 0 <= j < m ==> is_digit(#[trigger] u[j]),
    ensures
        m <= dot_pos(u, 0) <= u.len(),
{
    assert(forall|j: int| 0 <= j < m ==> #[trigger] u[j] != '.');
    lemma_dot_pos_ge(u, 0, m);
}

/// The first dot position is at least `m` when no dot occurs before `m`.
proof fn lemma_dot_pos_ge(u: Seq<char>, i: int, m: int)
    requires
        0 <= i <= m <= u.len(),
        forall|j: int| i <= j < m ==> #[trigger] u[j] != '.',
    ensures
        m <= dot_pos(u, i) <= u.len(),
    decreases m - i,
{
    if i < m {
        lemma_dot_pos_ge(u, i + 1, m);
    } else {
        lemma_dot_pos_le_len(u, i);
    }
}

/// A digit prefix of the whole part bounds the whole part from below.
proof fn lemma_whole_prefix(u: Seq<char>, i: int)
    requires
        0 <= i <= dot_pos(u, 0) <= u.len(),
        all_digits(whole_digits(u)),
    ensures
        digits_val(u.subrange(0, i)) <= digits_val(whole_digits(u)),
{
    let w = whole_digits(u);
    assert(w.subrange(0, i) =~= u.subrange(0, i));
    lemma_digits_val_prefix(w, i);
}

} // verus!
