use vstd::prelude::*;

verus! {

// Numeric token grammar of the trace format. The accepted shapes mirror
// Rust's integer `FromStr` / `from_str_radix`: an optional leading `+`,
// then one or more digits of the radix, and the value must fit the target
// type.

pub open spec fn is_dec_digit(c: char) -> bool {
    '0' <= c && c <= '9'
}

pub open spec fn dec_val(c: char) -> int {
    c as u32 - '0' as u32
}

pub open spec fn is_hex_digit(c: char) -> bool {
    is_dec_digit(c) || ('a' <= c && c <= 'f') || ('A' <= c && c <= 'F')
}

pub open spec fn hex_val(c: char) -> int {
    if is_dec_digit(c) {
        dec_val(c)
    } else if 'a' <= c && c <= 'f' {
        c as u32 - 'a' as u32 + 10
    } else {
        c as u32 - 'A' as u32 + 10
    }
}

pub open spec fn all_dec_digits(s: Seq<char>) -> bool {
    forall|i: int| 0 <= i < s.len() ==> is_dec_digit(#[trigger] s[i])
}

pub open spec fn all_hex_digits(s: Seq<char>) -> bool {
    forall|i: int| 0 <= i < s.len() ==> is_hex_digit(#[trigger] s[i])
}

/// The number denoted by a sequence of decimal digits, most significant first.
pub open spec fn dec_value(s: Seq<char>) -> int
    decreases s.len(),
{
    if s.len() == 0 {
        0
    } else {
        dec_value(s.drop_last()) * 10 + dec_val(s.last())
    }
}

/// The number denoted by a sequence of hexadecimal digits, most significant first.
pub open spec fn hex_value(s: Seq<char>) -> int
    decreases s.len(),
{
    if s.len() == 0 {
        0
    } else {
        hex_value(s.drop_last()) * 16 + hex_val(s.last())
    }
}

/// The digits of a numeric token: a single leading `+` is allowed and skipped.
pub open spec fn digits_body(t: Seq<char>) -> Seq<char> {
    if t.len() >= 1 && t[0] == '+' {
        t.skip(1)
    } else {
        t
    }
}

/// The value of `t` read as a decimal integer token, if it is one.
pub open spec fn dec_token_value(t: Seq<char>) -> Option<int> {
    let b = digits_body(t);
    if b.len() >= 1 && all_dec_digits(b) {
        Some(dec_value(b))
    } else {
        None
    }
}

/// The value of `t` read as a hexadecimal integer token, if it is one.
pub open spec fn hex_token_value(t: Seq<char>) -> Option<int> {
    let b = digits_body(t);
    if b.len() >= 1 && all_hex_digits(b) {
        Some(hex_value(b))
    } else {
        None
    }
}

/// What a bounded decimal parse returns: the token's value when it exists
/// and fits below `max`, and nothing otherwise.
pub open spec fn dec_bounded(t: Seq<char>, max: int) -> Option<u64> {
    match dec_token_value(t) {
        Some(v) => if v <= max {
            Some(v as u64)
        } else {
            None
        },
        None => None,
    }
}

pub open spec fn hex_bounded(t: Seq<char>, max: int) -> Option<u64> {
    match hex_token_value(t) {
        Some(v) => if v <= max {
            Some(v as u64)
        } else {
            None
        },
        None => None,
    }
}

pub proof fn lemma_dec_value_nonneg(s: Seq<char>)
    requires
        all_dec_digits(s),
    ensures
        dec_value(s) >= 0,
    decreases s.len(),
{
    if s.len() > 0 {
        assert(all_dec_digits(s.drop_last())) by {
            assert(forall|i: int|
                0 <= i < s.len() - 1 ==> s.drop_last()[i] == #[trigger] s[i]);
        }
        lemma_dec_value_nonneg(s.drop_last());
    }
}

pub proof fn lemma_hex_value_nonneg(s: Seq<char>)
    requires
        all_hex_digits(s),
    ensures
        hex_value(s) >= 0,
    decreases s.len(),
{
    if s.len() > 0 {
        assert(all_hex_digits(s.drop_last())) by {
            assert(forall|i: int|
                0 <= i < s.len() - 1 ==> s.drop_last()[i] == #[trigger] s[i]);
        }
        lemma_hex_value_nonneg(s.drop_last());
    }
}

/// Extending a digit string to the right never shrinks its value.
pub proof fn lemma_dec_value_prefix(s: Seq<char>, k: int)
    requires
        all_dec_digits(s),
        0 <= k <= s.len(),
    ensures
        dec_value(s) >= dec_value(s.take(k)),
    decreases s.len() - k,
{
    if k < s.len() {
        lemma_dec_value_prefix(s, k + 1);
        assert(s.take(k + 1).drop_last() =~= s.take(k));
        assert(s.take(k + 1).last() == s[k]);
        assert(all_dec_digits(s.take(k))) by {
            assert(forall|i: int| 0 <= i < k ==> s.take(k)[i] == #[trigger] s[i]);
        }
        lemma_dec_value_nonneg(s.take(k));
        assert(dec_value(s.take(k + 1)) == dec_value(s.take(k)) * 10 + dec_val(s[k]));
    } else {
        assert(s.take(k) =~= s);
    }
}

pub proof fn lemma_hex_value_prefix(s: Seq<char>, k: int)
    requires
        all_hex_digits(s),
        0 <= k <= s.len(),
    ensures
        hex_value(s) >= hex_value(s.take(k)),
    decreases s.len() - k,
{
    if k < s.len() {
        lemma_hex_value_prefix(s, k + 1);
        assert(s.take(k + 1).drop_last() =~= s.take(k));
        assert(s.take(k + 1).last() == s[k]);
        assert(all_hex_digits(s.take(k))) by {
            assert(forall|i: int| 0 <= i < k ==> s.take(k)[i] == #[trigger] s[i]);
        }
        lemma_hex_value_nonneg(s.take(k));
        assert(hex_value(s.take(k + 1)) == hex_value(s.take(k)) * 16 + hex_val(s[k]));
    } else {
        assert(s.take(k) =~= s);
    }
}

/// The decimal digit value of `c`, when `c` is one.
pub fn dec_digit_of(c: char) -> (r: Option<u8>)
    ensures
        r matches Some(d) ==> is_dec_digit(c) && d == dec_val(c),
        r is None ==> !is_dec_digit(c),
{
    if '0' <= c && c <= '9' {
        Some((c as u8) - 48)
    } else {
        None
    }
}

/// The hexadecimal digit value of `c`, when `c` is one.
pub fn hex_digit_of(c: char) -> (r: Option<u8>)
    ensures
        r matches Some(d) ==> is_hex_digit(c) && d == hex_val(c),
        r is None ==> !is_hex_digit(c),
{
    if '0' <= c && c <= '9' {
        Some((c as u8) - 48)
    } else if 'a' <= c && c <= 'f' {
        Some((c as u8) - 97 + 10)
    } else if 'A' <= c && c <= 'F' {
        Some((c as u8) - 65 + 10)
    } else {
        None
    }
}

/// Parse `t` as a decimal integer no larger than `max`, exactly as
/// `u64::from_str` would, rejecting anything above `max`.
pub fn parse_dec_bounded(t: &str, max: u64) -> (r: Option<u64>)
    requires
        max <= 0xFFFF_FFFF_FFFF,
    ensures
        r == dec_bounded(t@, max as int),
{
    let len: usize = t.unicode_len();
    if len == 0 {
        return None;
    }
    let mut i: usize = 0;
    if t.get_char(0) == '+' {
        i = 1;
    }
    let ghost b = digits_body(t@);
    proof {
        assert(b =~= t@.skip(i as int));
    }
    if i == len {
        return None;
    }
    let start: usize = i;
    let mut acc: u64 = 0;
    while i < len
        invariant
            start <= i <= len,
            len == t@.len(),
            start == t@.len() - b.len(),
            b == t@.skip(start as int),
            b == digits_body(t@),
            max <= 0xFFFF_FFFF_FFFF,
            acc <= max,
            all_dec_digits(b.take(i - start)),
            acc == dec_value(b.take(i - start)),
        decreases len - i,
    {
        let c = t.get_char(i);
        let d = match dec_digit_of(c) {
            Some(d) => d,
            None => {
                proof {
                    assert(b[i - start] == t@[i as int]);
                    assert(!all_dec_digits(b));
                }
                return None;
            },
        };
        proof {
            assert(b[i - start] == t@[i as int]);
            assert(b.take(i - start + 1).drop_last() =~= b.take(i - start));
            assert(b.take(i - start + 1).last() == b[i - start]);
        }
        if acc > max / 10 || (acc == max / 10 && (d as u64) > max % 10) {
            proof {
                let j = i - start + 1;
                assert(dec_value(b.take(j)) == acc * 10 + dec_val(t@[i as int]));
                assert(acc * 10 + d > max);
                if dec_token_value(t@) is Some {
                    assert(all_dec_digits(b));
                    lemma_dec_value_prefix(b, j);
                    assert(dec_token_value(t@)->Some_0 > max);
                }
            }
            return None;
        }
        acc = acc * 10 + (d as u64);
        i = i + 1;
    }
    proof {
        assert(b.take(i - start) =~= b);
    }
    Some(acc)
}

/// Parse `t` as a hexadecimal integer no larger than `max`, exactly as
/// `u64::from_str_radix` with radix 16 would, rejecting anything above `max`.
pub fn parse_hex_bounded(t: &str, max: u64) -> (r: Option<u64>)
    requires
        max <= 0xFFFF_FFFF_FFFF,
    ensures
        r == hex_bounded(t@, max as int),
{
    let len: usize = t.unicode_len();
    if len == 0 {
        return None;
    }
    let mut i: usize = 0;
    if t.get_char(0) == '+' {
        i = 1;
    }
    let ghost b = digits_body(t@);
    proof {
        assert(b =~= t@.skip(i as int));
    }
    if i == len {
        return None;
    }
    let start: usize = i;
    let mut acc: u64 = 0;
    while i < len
        invariant
            start <= i <= len,
            len == t@.len(),
            start == t@.len() - b.len(),
            b == t@.skip(start as int),
            b == digits_body(t@),
            max <= 0xFFFF_FFFF_FFFF,
            acc <= max,
            all_hex_digits(b.take(i - start)),
            acc == hex_value(b.take(i - start)),
        decreases len - i,
    {
        let c = t.get_char(i);
        let d = match hex_digit_of(c) {
            Some(d) => d,
            None => {
                proof {
                    assert(b[i - start] == t@[i as int]);
                }
                return None;
            },
        };
        proof {
            assert(b[i - start] == t@[i as int]);
            assert(b.take(i - start + 1).drop_last() =~= b.take(i - start));
            assert(b.take(i - start + 1).last() == b[i - start]);
        }
        if acc > max / 16 || (acc == max / 16 && (d as u64) > max % 16) {
            proof {
                let j = i - start + 1;
                assert(hex_value(b.take(j)) == acc * 16 + hex_val(t@[i as int]));
                assert(acc * 16 + d > max);
                if hex_token_value(t@) is Some {
                    assert(all_hex_digits(b));
                    lemma_hex_value_prefix(b, j);
                    assert(hex_token_value(t@)->Some_0 > max);
                }
            }
            return None;
        }
        acc = acc * 16 + (d as u64);
        i = i + 1;
    }
    proof {
        assert(b.take(i - start) =~= b);
    }
    Some(acc)
}

} // verus!
