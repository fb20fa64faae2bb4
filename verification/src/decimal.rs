//! Parsing of unsigned decimal tokens, as `u16::from_str` accepts them:
//! an optional leading `+`, then one or more decimal digits, and a value
//! that fits the type.

use vstd::prelude::*;

verus! {

/// True of the ten ASCII decimal digits.
pub open spec fn is_dec_digit(c: char) -> bool {
    48 <= c as int && c as int <= 57
}

/// The numerical value of a decimal digit.
pub open spec fn digit_val(c: char) -> nat
    recommends
        is_dec_digit(c),
{
    (c as int - 48) as nat
}

/// The value of a non-empty, all-digit token; `None` when the token is
/// empty or holds any other character.
pub open spec fn dec_token_value(s: Seq<char>) -> Option<nat>
    decreases s.len(),
{
    if s.len() == 0 {
        None
    } else if s.len() == 1 {
        if is_dec_digit(s[0]) {
            Some(digit_val(s[0]))
        } else {
            None
        }
    } else {
        match dec_token_value(s.drop_last()) {
            Some(v) => if is_dec_digit(s.last()) {
                Some(v * 10 + digit_val(s.last()))
            } else {
                None
            },
            None => None,
        }
    }
}

/// What `u16::from_str` returns on the characters `s`: an optional
/// leading `+`, then a non-empty digit string whose value fits in 16 bits.
pub open spec fn parse_u16_spec(s: Seq<char>) -> Option<u16> {
    let body = if s.len() >= 1 && s[0] == '+' {
        s.skip(1)
    } else {
        s
    };
    match dec_token_value(body) {
        Some(v) => if v <= 0xffff {
            Some(v as u16)
        } else {
            None
        },
        None => None,
    }
}

/// A token with a character that is no digit has no value.
proof fn lemma_dec_nondigit(s: Seq<char>, k: int)
    requires
        0 <= k < s.len(),
        !is_dec_digit(s[k]),
    ensures
        dec_token_value(s) is None,
    decreases s.len(),
{
    if s.len() > 1 && k < s.len() - 1 {
        lemma_dec_nondigit(s.drop_last(), k);
    }
}

/// Extending a token never shrinks its value, and never revives a token
/// that already failed.
proof fn lemma_dec_value_grows(s: Seq<char>, k: int)
    requires
        0 < k <= s.len(),
    ensures
        dec_token_value(s.take(k)) is None ==> dec_token_value(s) is None,
        match (dec_token_value(s.take(k)), dec_token_value(s)) {
            (Some(v), Some(w)) => w >= v,
            _ => true,
        },
    decreases s.len() - k,
{
    if k == s.len() {
        assert(s.take(k) =~= s);
    } else {
        assert(s.take(k + 1).drop_last() =~= s.take(k));
        assert(s.take(k + 1).last() == s[k]);
        lemma_dec_value_grows(s, k + 1);
    }
}

/// Every character of a token that has a value is a decimal digit.
pub proof fn lemma_dec_token_digits(s: Seq<char>, i: int)
    requires
        dec_token_value(s) is Some,
        0 <= i < s.len(),
    ensures
        is_dec_digit(s[i]),
    decreases s.len(),
{
    if s.len() > 1 && i < s.len() - 1 {
        lemma_dec_token_digits(s.drop_last(), i);
    }
}

/// Parses a decimal token as `u16::from_str` does: an optional leading
/// `+`, then one or more digits; fails on any other character, on an
/// empty token and on a value over 65535.
#[verifier::loop_isolation(false)]
pub fn parse_u16(s: &str) -> (r: Option<u16>)
    ensures
        r == parse_u16_spec(s@),
{
    let n = s.unicode_len();
    let start: usize = if n >= 1 && s.get_char(0) == '+' {
        1
    } else {
        0
    };
    let ghost body = if s@.len() >= 1 && s@[0] == '+' {
        s@.skip(1)
    } else {
        s@
    };
    proof {
        assert(body =~= s@.skip(start as int));
    }
    if n == start {
        return None;
    }
    let mut acc: u32 = 0;
    let mut k: usize = start;
    while k < n
        invariant
            start <= k <= n,
            n == s@.len(),
            start <= 1,
            body == s@.skip(start as int),
            n - start == body.len(),
            acc <= 0xffff,
            k == start ==> acc == 0,
            k > start ==> dec_token_value(body.take(k - start)) == Some(acc as nat),
        decreases n - k,
    {
        let c = s.get_char(k);
        let u = c as u32;
        if u < 48 || u > 57 {
            proof {
                assert(body[k - start] == s@[k as int]);
                lemma_dec_nondigit(body, k - start);
            }
            return None;
        }
        let d = u - 48;
        let next = acc * 10 + d;
        proof {
            assert(body.take(k - start + 1).drop_last() =~= body.take(k - start));
            assert(body.take(k - start + 1).last() == body[k - start]);
            assert(body[k - start] == s@[k as int]);
            assert(digit_val(s@[k as int]) == d as nat);
        }
        if next > 0xffff {
            proof {
                lemma_dec_value_grows(body, k - start + 1);
            }
            return None;
        }
        acc = next;
        k = k + 1;
    }
    proof {
        assert(body.take(n - start) =~= body);
    }
    Some(acc as u16)
}

} // verus!
