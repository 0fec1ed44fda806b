//! Character-level text utilities: conversions between `String` and
//! `Vec<char>`, and decimal rendering/parsing of generation numbers.

use vstd::prelude::*;

verus! {

/// Relies on `str::chars`: yields the characters of the string in order.
#[verifier::external_body]
pub fn string_to_chars(s: &str) -> (r: Vec<char>)
    ensures
        r@ == s@,
{
    s.chars().collect()
}

/// Relies on `String as FromIterator<char>`: collecting characters builds
/// the string made of exactly those characters, in order.
#[verifier::external_body]
pub fn chars_to_string(v: &Vec<char>) -> (r: String)
    ensures
        r@ == v@,
{
    v.iter().collect()
}

/// The decimal digit character for a value below ten.
pub open spec fn digit_char(n: nat) -> char {
    if n == 0 {
        '0'
    } else if n == 1 {
        '1'
    } else if n == 2 {
        '2'
    } else if n == 3 {
        '3'
    } else if n == 4 {
        '4'
    } else if n == 5 {
        '5'
    } else if n == 6 {
        '6'
    } else if n == 7 {
        '7'
    } else if n == 8 {
        '8'
    } else {
        '9'
    }
}

/// The canonical decimal rendering of `n` (no leading zeros, `0` for zero).
pub open spec fn dec_digits(n: nat) -> Seq<char>
    decreases n,
{
    if n < 10 {
        seq![digit_char(n)]
    } else {
        dec_digits(n / 10) + seq![digit_char(n % 10)]
    }
}

/// Whether `c` is a decimal digit character.
pub open spec fn is_digit(c: char) -> bool {
    '0' <= c && c <= '9'
}

/// The numeric value of a digit character.
pub open spec fn digit_val(c: char) -> nat {
    ((c as u32) - ('0' as u32)) as nat
}

/// The value of a sequence of digit characters, most significant first.
pub open spec fn dec_val(s: Seq<char>) -> nat
    decreases s.len(),
{
    if s.len() == 0 {
        0
    } else {
        dec_val(s.drop_last()) * 10 + digit_val(s.last())
    }
}

/// Whether every character of `s` is a decimal digit.
pub open spec fn all_digits(s: Seq<char>) -> bool {
    forall|i: int| 0 <= i < s.len() ==> is_digit(#[trigger] s[i])
}

/// What parsing a decimal numeral as a `u64` yields: the value if `s` is a
/// non-empty digit string whose value fits, `None` otherwise.
pub open spec fn parse_u64(s: Seq<char>) -> Option<u64> {
    if s.len() > 0 && all_digits(s) && dec_val(s) <= u64::MAX {
        Some(dec_val(s) as u64)
    } else {
        None
    }
}

/// Renders `n` in decimal.
pub fn u64_to_dec_chars(n: u64) -> (r: Vec<char>)
    ensures
        r@ == dec_digits(n as nat),
{
    let mut rev: Vec<char> = Vec::new();
    let mut m: u64 = n;
    while m > 0
        invariant
            m > 0 ==> dec_digits(n as nat) =~= dec_digits(m as nat) + rev@.reverse(),
            m == 0 ==> (dec_digits(n as nat) =~= rev@.reverse() || (n == 0 && rev@.len() == 0)),
        decreases m,
    {
        let d: u64 = m % 10;
        let c = digit_char_exec(d);
        let ghost prev = rev@;
        rev.push(c);
        proof {
            assert(rev@.reverse() =~= seq![c] + prev.reverse());
            if m >= 10 {
                assert(dec_digits(m as nat) == dec_digits((m as nat) / 10) + seq![
                    digit_char((m as nat) % 10),
                ]);
                assert(dec_digits(n as nat) =~= dec_digits((m / 10) as nat) + rev@.reverse());
            } else {
                assert((m as nat) % 10 == m as nat);
                assert(dec_digits(m as nat) == seq![digit_char(m as nat)]);
                assert(dec_digits(n as nat) =~= rev@.reverse());
            }
            assert(m / 10 < m) by (nonlinear_arith)
                requires
                    m >= 1,
            ;
        }
        m = m / 10;
    }
    if rev.len() == 0 {
        let mut out: Vec<char> = Vec::new();
        out.push('0');
        proof {
            assert(dec_digits(n as nat).len() >= 1);
            assert(rev@.reverse().len() == 0);
            assert(n == 0);
            assert(out@ =~= dec_digits(0));
        }
        out
    } else {
        let mut out: Vec<char> = Vec::new();
        let mut i: usize = rev.len();
        while i > 0
            invariant
                i <= rev.len(),
                out@ =~= rev@.subrange(i as int, rev@.len() as int).reverse(),
            decreases i,
        {
            i = i - 1;
            let ghost prev = out@;
            out.push(rev[i]);
            proof {
                assert(out@ =~= rev@.subrange(i as int, rev@.len() as int).reverse());
            }
        }
        proof {
            assert(rev@.subrange(0, rev@.len() as int) =~= rev@);
            assert(out@ =~= rev@.reverse());
        }
        out
    }
}

/// The digit character for `d`, which must be below ten.
pub fn digit_char_exec(d: u64) -> (c: char)
    requires
        d < 10,
    ensures
        c == digit_char(d as nat),
{
    if d == 0 {
        '0'
    } else if d == 1 {
        '1'
    } else if d == 2 {
        '2'
    } else if d == 3 {
        '3'
    } else if d == 4 {
        '4'
    } else if d == 5 {
        '5'
    } else if d == 6 {
        '6'
    } else if d == 7 {
        '7'
    } else if d == 8 {
        '8'
    } else {
        '9'
    }
}

} // verus!
