//! Decimal and hexadecimal renderings of numbers, for error messages.

use vstd::prelude::*;
use vstd::string::*;
use vstd::utf8::is_ascii_chars;

verus! {

/// The character of digit `d` (0..16), lower-case for 10..16.
pub open spec fn digit_char(d: nat) -> char {
    if d < 10 {
        (48 + d) as char
    } else {
        (87 + d) as char
    }
}

/// `n` written in decimal, without leading zeros.
pub open spec fn decimal_chars(n: nat) -> Seq<char>
    decreases n,
{
    if n < 10 {
        seq![digit_char(n)]
    } else {
        decimal_chars(n / 10).push(digit_char(n % 10))
    }
}

/// `n` written in lower-case hexadecimal, without leading zeros.
pub open spec fn hex_chars(n: nat) -> Seq<char>
    decreases n,
{
    if n < 16 {
        seq![digit_char(n)]
    } else {
        hex_chars(n / 16).push(digit_char(n % 16))
    }
}

fn digit_str(d: u64) -> (s: &'static str)
    requires
        d < 16,
    ensures
        s@ == seq![digit_char(d as nat)],
{
    let digits = "0123456789abcdef";
    proof {
        reveal_strlit("0123456789abcdef");
        assert(is_ascii_chars(digits@));
    }
    let s = digits.substring_ascii(d as usize, d as usize + 1);
    proof {
        assert(s@ =~= seq![digits@[d as int]]);
    }
    s
}

/// `n` in decimal.
pub fn decimal_string(n: u64) -> (s: String)
    ensures
        s@ == decimal_chars(n as nat),
    decreases n,
{
    if n < 10 {
        String::from_str(digit_str(n))
    } else {
        let mut s = decimal_string(n / 10);
        s.append(digit_str(n % 10));
        proof {
            assert(seq![digit_char((n % 10) as nat)] =~= Seq::<char>::empty().push(
                digit_char((n % 10) as nat),
            ));
            assert(s@ =~= decimal_chars(n as nat));
        }
        s
    }
}

/// `n` in lower-case hexadecimal.
pub fn hex_string(n: u128) -> (s: String)
    ensures
        s@ == hex_chars(n as nat),
    decreases n,
{
    if n < 16 {
        String::from_str(digit_str(n as u64))
    } else {
        let mut s = hex_string(n / 16);
        s.append(digit_str((n % 16) as u64));
        proof {
            assert(s@ =~= hex_chars(n as nat));
        }
        s
    }
}

/// `a` followed by `b`.
pub fn join2(a: &str, b: &str) -> (s: String)
    ensures
        s@ == a@ + b@,
{
    let mut s = String::from_str(a);
    s.append(b);
    s
}

/// `a`, `b`, `c` one after another.
pub fn join3(a: &str, b: &str, c: &str) -> (s: String)
    ensures
        s@ == a@ + b@ + c@,
{
    let mut s = String::from_str(a);
    s.append(b);
    s.append(c);
    s
}

} // verus!
