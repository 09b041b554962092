//! Reading and writing unsigned integers as text.

use vstd::prelude::*;

verus! {

/// The value of a digit in the given radix: `0`-`9`, then the letters in
/// either case.
pub open spec fn digit_value(c: char, radix: nat) -> Option<nat> {
    let v: nat = if '0' <= c <= '9' {
        (c as nat - 48) as nat
    } else if 'a' <= c <= 'z' {
        (c as nat - 97 + 10) as nat
    } else if 'A' <= c <= 'Z' {
        (c as nat - 65 + 10) as nat
    } else {
        36
    };
    if v < radix {
        Some(v)
    } else {
        None
    }
}

/// The number that a run of digits writes; none where a character is no
/// digit of the radix.
pub open spec fn digits_value(s: Seq<char>, radix: nat) -> Option<nat>
    decreases s.len(),
{
    if s.len() == 0 {
        Some(0)
    } else {
        match (digits_value(s.drop_last(), radix), digit_value(s.last(), radix)) {
            (Some(h), Some(d)) => Some(h * radix + d),
            _ => None,
        }
    }
}

/// What the text parses to as an unsigned integer up to `max`: an optional
/// `+`, then at least one digit and nothing else, the value within the
/// bound.
pub open spec fn parse_unsigned(s: Seq<char>, radix: nat, max: nat) -> Option<nat> {
    let digits = if s.len() > 0 && s[0] == '+' {
        s.skip(1)
    } else {
        s
    };
    if digits.len() == 0 {
        None
    } else {
        match digits_value(digits, radix) {
            Some(v) => if v <= max {
                Some(v)
            } else {
                None
            },
            None => None,
        }
    }
}

pub fn char_digit(c: char, radix: u32) -> (r: Option<u32>)
    requires
        2 <= radix <= 36,
    ensures
        match r {
            Some(v) => digit_value(c, radix as nat) == Some(v as nat),
            None => digit_value(c, radix as nat).is_none(),
        },
{
    let v: u32 = if '0' <= c && c <= '9' {
        c as u32 - 48
    } else if 'a' <= c && c <= 'z' {
        c as u32 - 97 + 10
    } else if 'A' <= c && c <= 'Z' {
        c as u32 - 65 + 10
    } else {
        36
    };
    if v < radix {
        Some(v)
    } else {
        None
    }
}

/// Reads an unsigned integer up to `max` from the characters.
pub fn chars_parse_unsigned(s: &Vec<char>, radix: u32, max: u32) -> (r: Option<u32>)
    requires
        2 <= radix <= 36,
    ensures
        match r {
            Some(v) => parse_unsigned(s@, radix as nat, max as nat) == Some(v as nat),
            None => parse_unsigned(s@, radix as nat, max as nat).is_none(),
        },
{
    let start: usize = if s.len() > 0 && s[0] == '+' {
        1
    } else {
        0
    };
    if start == s.len() {
        return None;
    }
    let ghost digits = s@.skip(start as int);
    let mut acc: u64 = 0;
    let mut over = false;
    let mut i: usize = start;
    assert(digits.take(0).len() == 0);
    while i < s.len()
        invariant
            start <= i <= s.len(),
            start == (if s@.len() > 0 && s@[0] == '+' {
                1usize
            } else {
                0usize
            }),
            2 <= radix <= 36,
            digits == s@.skip(start as int),
            acc <= max,
            digits_value(digits.take(i - start), radix as nat) matches Some(v) && (if over {
                v > max
            } else {
                v == acc
            }),
        decreases s.len() - i,
    {
        let ghost k = i - start;
        proof {
            assert(digits.take(k + 1).drop_last() == digits.take(k));
            assert(digits.take(k + 1).last() == s@[i as int]);
        }
        match char_digit(s[i], radix) {
            None => {
                proof {
                    assert(digits_value(digits.take(k + 1), radix as nat).is_none());
                    lemma_invalid_digit(digits, k + 1);
                    assert(digits_value(digits, radix as nat).is_none());
                    assert(s@.skip(0) == s@);
                }
                return None;
            },
            Some(d) => {
                proof {
                    let v = digits_value(digits.take(k), radix as nat)->0;
                    assert(v * radix >= v) by (nonlinear_arith)
                        requires
                            radix >= 1,
                            v >= 0,
                    ;
                    assert(acc * radix <= 0xFFFF_FFFF * 36) by (nonlinear_arith)
                        requires
                            acc <= 0xFFFF_FFFF,
                            radix <= 36,
                    ;
                }
                if !over {
                    let next: u64 = acc * (radix as u64) + (d as u64);
                    if next > max as u64 {
                        over = true;
                    } else {
                        acc = next;
                    }
                }
            },
        }
        i += 1;
    }
    assert(digits.take(s.len() - start) == digits);
    assert(s@.skip(0) == s@);
    if over {
        None
    } else {
        Some(acc as u32)
    }
}

/// Where a prefix of the digits holds a character that is no digit, so
/// does the whole.
proof fn lemma_invalid_digit(s: Seq<char>, k: int)
    requires
        0 <= k <= s.len(),
    ensures
        forall|radix: nat|
            digits_value(s.take(k), radix).is_none() ==> (#[trigger] digits_value(
                s,
                radix,
            )).is_none(),
    decreases s.len() - k,
{
    if k < s.len() {
        lemma_invalid_digit(s, k + 1);
        assert(s.take(k + 1).drop_last() == s.take(k));
    } else {
        assert(s.take(k) == s);
    }
}

/// The decimal digits of a number, without leading zeros; `0` for zero.
pub open spec fn decimal_text(n: nat) -> Seq<char>
    decreases n,
{
    if n < 10 {
        seq![((n + 48) as u8) as char]
    } else {
        decimal_text(n / 10).push((((n % 10) + 48) as u8) as char)
    }
}

/// Writes a number in decimal.
pub fn decimal_chars(n: u64) -> (r: Vec<char>)
    ensures
        r@ == decimal_text(n as nat),
{
    let mut digits: Vec<char> = Vec::new();
    let mut m: u64 = n;
    // least significant digit first
    while m >= 10
        invariant
            decimal_text(n as nat) == decimal_text(m as nat) + digits@.reverse(),
        decreases m,
    {
        let d: u8 = (m % 10) as u8;
        let ghost before = digits@;
        digits.push((d + 48) as char);
        proof {
            let c = ((((m % 10) as nat + 48) as u8) as char);
            assert(digits@.reverse() == seq![c] + before.reverse());
            assert(decimal_text(m as nat) == decimal_text((m / 10) as nat).push(c));
            assert(decimal_text((m / 10) as nat).push(c) + before.reverse() == decimal_text(
                (m / 10) as nat,
            ) + (seq![c] + before.reverse()));
        }
        m = m / 10;
    }
    let mut r: Vec<char> = Vec::new();
    r.push(((m as u8) + 48) as char);
    let mut k: usize = digits.len();
    while k > 0
        invariant
            k <= digits@.len(),
            m < 10,
            r@ == decimal_text(m as nat) + digits@.reverse().take(digits@.len() - k),
        decreases k,
    {
        k -= 1;
        r.push(digits[k]);
        proof {
            let rev = digits@.reverse();
            let j = digits@.len() - k - 1;
            assert(rev[j] == digits@[k as int]);
            assert(rev.take(j + 1) == rev.take(j).push(rev[j]));
        }
    }
    assert(digits@.reverse().take(digits@.len() as int) == digits@.reverse());
    r
}

} // verus!
