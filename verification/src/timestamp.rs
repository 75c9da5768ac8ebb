use crate::numtext::{
    all_dec_digits, dec_digit_of, dec_val, dec_value, digits_body, lemma_dec_value_nonneg,
    lemma_dec_value_prefix,
};
use vstd::prelude::*;

verus! {

// Relative timestamps. The trace stores seconds since trace start as a
// decimal token such as `0.016728`; the store keeps them exactly, as whole
// nanoseconds, so that ordering and millisecond rounding are reproducible.

/// Largest whole-second count that still leaves room for the nanosecond part
/// in a `u64`.
pub const MAX_WHOLE_SECONDS: u64 = 18_446_744_072;

/// A relative timestamp: whole nanoseconds since the start of the trace.
#[derive(Clone, Copy, Debug, PartialEq, Eq, Structural, Hash)]
pub struct Timestamp {
    pub nanos: u64,
}

impl Default for Timestamp {
    fn default() -> (r: Self)
        ensures
            r.nanos == 0,
    {
        Timestamp { nanos: 0 }
    }
}

impl Timestamp {
    /// The timestamp rounded to whole milliseconds, half up.
    pub open spec fn spec_millis(self) -> int {
        (self.nanos + 500_000) / 1_000_000
    }

    /// The timestamp rounded to whole milliseconds, half up.
    pub fn millis(&self) -> (r: u64)
        ensures
            r == self.spec_millis(),
    {
        let q: u64 = self.nanos / 1_000_000;
        let rem: u64 = self.nanos % 1_000_000;
        let carry: u64 = if rem >= 500_000 {
            1
        } else {
            0
        };
        proof {
            vstd::arithmetic::div_mod::lemma_fundamental_div_mod_converse(
                self.nanos + 500_000,
                1_000_000,
                q + carry,
                rem + 500_000 - carry * 1_000_000,
            );
        }
        q + carry
    }
}

pub open spec fn pow10(k: nat) -> int
    decreases k,
{
    if k == 0 {
        1
    } else {
        10 * pow10((k - 1) as nat)
    }
}

/// Index of the first `.` in `s`, or `s.len()` if there is none.
pub open spec fn first_dot(s: Seq<char>) -> nat
    decreases s.len(),
{
    if s.len() == 0 || s[0] == '.' {
        0
    } else {
        1 + first_dot(s.skip(1))
    }
}

pub proof fn lemma_first_dot(s: Seq<char>)
    ensures
        first_dot(s) <= s.len(),
        forall|i: int| 0 <= i < first_dot(s) ==> s[i] != '.',
        first_dot(s) < s.len() ==> s[first_dot(s) as int] == '.',
    decreases s.len(),
{
    if s.len() == 0 || s[0] == '.' {
    } else {
        lemma_first_dot(s.skip(1));
        assert forall|i: int| 0 <= i < first_dot(s) implies s[i] != '.' by {
            if i > 0 {
                assert(s.skip(1)[i - 1] == s[i]);
            }
        }
        if first_dot(s) < s.len() {
            assert(s.skip(1)[first_dot(s) as int - 1] == s[first_dot(s) as int]);
        }
    }
}

/// The integer-seconds digits of a timestamp token body.
pub open spec fn ts_int_part(b: Seq<char>) -> Seq<char> {
    b.take(first_dot(b) as int)
}

/// The fractional digits of a timestamp token body (empty without a dot).
pub open spec fn ts_frac_part(b: Seq<char>) -> Seq<char> {
    if first_dot(b) < b.len() {
        b.skip(first_dot(b) as int + 1)
    } else {
        Seq::empty()
    }
}

/// The fractional digits that survive truncation to nanosecond precision.
pub open spec fn ts_frac9(b: Seq<char>) -> Seq<char> {
    let f = ts_frac_part(b);
    if f.len() > 9 {
        f.take(9)
    } else {
        f
    }
}

/// Whether the token body has the shape `digits`, `digits.digits`,
/// `digits.` or `.digits`.
pub open spec fn ts_body_ok(b: Seq<char>) -> bool {
    &&& all_dec_digits(ts_int_part(b))
    &&& all_dec_digits(ts_frac_part(b))
    &&& ts_int_part(b).len() + ts_frac_part(b).len() >= 1
}

/// The whole-nanosecond value of a timestamp token, if the token is a
/// non-negative decimal number whose seconds fit the store. A single leading
/// `+` is allowed; fractional digits beyond the ninth are dropped.
pub open spec fn ts_token_nanos(t: Seq<char>) -> Option<u64> {
    let b = digits_body(t);
    if ts_body_ok(b) && dec_value(ts_int_part(b)) <= MAX_WHOLE_SECONDS {
        Some(
            (dec_value(ts_int_part(b)) * 1_000_000_000 + dec_value(ts_frac9(b)) * pow10(
                (9 - ts_frac9(b).len()) as nat,
            )) as u64,
        )
    } else {
        None
    }
}

/// Ten to the `k`, executable.
pub fn pow10_u64(k: u64) -> (r: u64)
    requires
        k <= 9,
    ensures
        r == pow10(k as nat),
    decreases k,
{
    if k == 0 {
        1
    } else {
        let p = pow10_u64(k - 1);
        proof {
            lemma_pow10_bound((k - 1) as nat);
        }
        10 * p
    }
}

pub proof fn lemma_pow10_pos(k: nat)
    ensures
        pow10(k) >= 1,
    decreases k,
{
    if k > 0 {
        lemma_pow10_pos((k - 1) as nat);
    }
}

pub proof fn lemma_pow10_mono(a: nat, c: nat)
    requires
        a <= c,
    ensures
        pow10(a) <= pow10(c),
    decreases c,
{
    if a < c {
        lemma_pow10_mono(a, (c - 1) as nat);
        lemma_pow10_pos((c - 1) as nat);
    }
}

pub proof fn lemma_pow10_bound(k: nat)
    ensures
        pow10(k) >= 1,
        k <= 9 ==> pow10(k) <= 1_000_000_000,
{
    lemma_pow10_pos(k);
    if k <= 9 {
        lemma_pow10_mono(k, 9);
        lemma_pow10_nine();
    }
}

pub proof fn lemma_pow10_nine()
    ensures
        pow10(9) == 1_000_000_000,
{
    reveal_with_fuel(pow10, 11);
}

/// Parse a timestamp token into whole nanoseconds, exactly per
/// [`ts_token_nanos`].
pub fn parse_timestamp(t: &str) -> (r: Option<Timestamp>)
    ensures
        r matches Some(ts) ==> ts_token_nanos(t@) == Some(ts.nanos),
        r is None ==> ts_token_nanos(t@) is None,
{
    let len: usize = t.unicode_len();
    let mut i: usize = 0;
    if len >= 1 && t.get_char(0) == '+' {
        i = 1;
    }
    let ghost b = digits_body(t@);
    proof {
        assert(b =~= t@.skip(i as int));
        lemma_first_dot(b);
    }
    let start: usize = i;

    // integer-second digits, up to the dot or the end
    let mut secs: u64 = 0;
    while i < len && t.get_char(i) != '.'
        invariant
            start <= i <= len,
            len == t@.len(),
            b == t@.skip(start as int),
            b == digits_body(t@),
            first_dot(b) <= b.len(),
            forall|j: int| 0 <= j < first_dot(b) ==> b[j] != '.',
            first_dot(b) < b.len() ==> b[first_dot(b) as int] == '.',
            i - start <= first_dot(b),
            secs <= MAX_WHOLE_SECONDS,
            all_dec_digits(b.take(i - start)),
            secs == dec_value(b.take(i - start)),
        decreases len - i,
    {
        let c = t.get_char(i);
        proof {
            assert(b[i - start] == t@[i as int]);
        }
        let d = match dec_digit_of(c) {
            Some(d) => d,
            None => {
                proof {
                    assert(!all_dec_digits(ts_int_part(b))) by {
                        assert(i - start < first_dot(b));
                        assert(ts_int_part(b)[i - start] == b[i - start]);
                    }
                }
                return None;
            },
        };
        proof {
            assert(b.take(i - start + 1).drop_last() =~= b.take(i - start));
            assert(b.take(i - start + 1).last() == b[i - start]);
        }
        if secs > MAX_WHOLE_SECONDS / 10 || (secs == MAX_WHOLE_SECONDS / 10 && (d as u64)
            > MAX_WHOLE_SECONDS % 10) {
            proof {
                let j = i - start + 1;
                assert(dec_value(b.take(j)) == secs * 10 + dec_val(t@[i as int]));
                assert(secs * 10 + d > MAX_WHOLE_SECONDS);
                if ts_body_ok(b) {
                    lemma_dec_value_prefix(ts_int_part(b), j);
                    assert(ts_int_part(b).take(j) =~= b.take(j));
                    assert(dec_value(ts_int_part(b)) > MAX_WHOLE_SECONDS);
                }
            }
            return None;
        }
        secs = secs * 10 + (d as u64);
        i = i + 1;
    }
    let int_len: usize = i - start;
    proof {
        if i == len {
            assert(first_dot(b) == b.len());
            assert(b.take(i - start) =~= ts_int_part(b));
        } else {
            assert(t@[i as int] == '.');
            assert(b[i - start] == t@[i as int]);
            assert(first_dot(b) == i - start);
            assert(b.take(i - start) =~= ts_int_part(b));
        }
    }

    // fractional digits after the dot, truncated to nine
    let mut frac: u64 = 0;
    let mut fdigits: u64 = 0;
    if i < len {
        i = i + 1;
        let fstart: usize = i;
        while i < len
            invariant
                fstart <= i <= len,
                len == t@.len(),
                b == t@.skip(start as int),
                b == digits_body(t@),
                start <= fstart,
                fstart == start + first_dot(b) + 1,
                first_dot(b) < b.len(),
                ts_frac_part(b) == b.skip(first_dot(b) as int + 1),
                fdigits == i - fstart,
                all_dec_digits(ts_frac_part(b).take(i - fstart)),
                fdigits <= 9 ==> frac == dec_value(ts_frac_part(b).take(i - fstart)),
                fdigits > 9 ==> frac == dec_value(ts_frac_part(b).take(9)),
                fdigits <= 9 ==> frac < pow10(fdigits as nat),
                fdigits > 9 ==> frac < 1_000_000_000,
            decreases len - i,
        {
            let c = t.get_char(i);
            proof {
                assert(ts_frac_part(b)[i - fstart] == b[i - start] == t@[i as int]);
            }
            let d = match dec_digit_of(c) {
                Some(d) => d,
                None => {
                    proof {
                        assert(!all_dec_digits(ts_frac_part(b)));
                    }
                    return None;
                },
            };
            proof {
                lemma_pow10_nine();
            }
            if fdigits < 9 {
                proof {
                    let f = ts_frac_part(b);
                    assert(f.take(i - fstart + 1).drop_last() =~= f.take(i - fstart));
                    assert(f.take(i - fstart + 1).last() == f[i - fstart]);
                    lemma_pow10_bound(fdigits as nat);
                    lemma_pow10_bound((fdigits + 1) as nat);
                }
                frac = frac * 10 + (d as u64);
            }
            fdigits = fdigits + 1;
            i = i + 1;
        }
        proof {
            let f = ts_frac_part(b);
            assert(f =~= b.skip(first_dot(b) as int + 1));
            assert(f.len() == len - fstart);
            assert(f.take(i - fstart) =~= f);
        }
    } else {
        proof {
            assert(ts_frac_part(b) =~= Seq::<char>::empty());
        }
    }

    if int_len == 0 && fdigits == 0 {
        proof {
            assert(ts_int_part(b).len() + ts_frac_part(b).len() == 0);
        }
        return None;
    }

    // assemble: seconds in nanoseconds plus the scaled fraction
    let scale_digits: u64 = if fdigits > 9 {
        0
    } else {
        9 - fdigits
    };
    let mult: u64 = pow10_u64(scale_digits);
    proof {
        let f9 = ts_frac9(b);
        if fdigits > 9 {
            assert(f9 =~= ts_frac_part(b).take(9));
            assert(f9.len() == 9);
        } else {
            assert(f9 =~= ts_frac_part(b));
        }
        assert(all_dec_digits(f9)) by {
            assert(forall|j: int|
                0 <= j < f9.len() ==> f9[j] == #[trigger] ts_frac_part(b)[j]);
        }
        lemma_dec_value_nonneg(f9);
        lemma_pow10_bound((9 - f9.len()) as nat);
        lemma_frac_scaled_bound(f9);
    }
    let nanos: u64 = secs * 1_000_000_000 + frac * mult;
    Some(Timestamp { nanos })
}

/// A fraction of at most nine digits, scaled to nanoseconds, stays below one
/// second.
proof fn lemma_frac_scaled_bound(f: Seq<char>)
    requires
        all_dec_digits(f),
        f.len() <= 9,
    ensures
        dec_value(f) * pow10((9 - f.len()) as nat) < 1_000_000_000,
    decreases f.len(),
{
    lemma_dec_value_nonneg(f);
    lemma_dec_value_lt_pow10(f);
    lemma_pow10_bound((9 - f.len()) as nat);
    lemma_pow10_mul(f.len() as nat, (9 - f.len()) as nat);
    lemma_pow10_nine();
    let v = dec_value(f);
    let p = pow10((9 - f.len()) as nat);
    assert(v <= pow10(f.len() as nat) - 1);
    assert(v * p <= (pow10(f.len() as nat) - 1) * p) by (nonlinear_arith)
        requires
            v <= pow10(f.len() as nat) - 1,
            p >= 1,
    ;
    assert((pow10(f.len() as nat) - 1) * p == pow10(f.len() as nat) * p - p) by (nonlinear_arith);
    assert(pow10(f.len() as nat) * p == pow10(9));
}

pub proof fn lemma_dec_value_lt_pow10(f: Seq<char>)
    requires
        all_dec_digits(f),
    ensures
        dec_value(f) < pow10(f.len() as nat),
    decreases f.len(),
{
    if f.len() == 0 {
    } else {
        assert(all_dec_digits(f.drop_last())) by {
            assert(forall|i: int|
                0 <= i < f.len() - 1 ==> f.drop_last()[i] == #[trigger] f[i]);
        }
        lemma_dec_value_lt_pow10(f.drop_last());
        assert(dec_val(f.last()) <= 9);
    }
}

proof fn lemma_pow10_mul(a: nat, c: nat)
    ensures
        pow10(a) * pow10(c) == pow10(a + c),
    decreases a,
{
    if a == 0 {
    } else {
        lemma_pow10_mul((a - 1) as nat, c);
        assert(pow10(a) * pow10(c) == 10 * (pow10((a - 1) as nat) * pow10(c)))
            by (nonlinear_arith)
            requires
                pow10(a) == 10 * pow10((a - 1) as nat),
        ;
    }
}

} // verus!
