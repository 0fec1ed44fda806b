//! Segment file naming and directory listing: `<n>.log` names rendered from
//! and parsed back to generation numbers, and the deterministic ascending
//! ordering of a directory's generations.

use vstd::prelude::*;
use crate::text::{
    dec_digits,
    digit_char,
    dec_val,
    digit_val,
    is_digit,
    all_digits,
    parse_u64,
    u64_to_dec_chars,
    chars_to_string,
    string_to_chars,
};

verus! {

/// The file name of segment `version` under `dir`.
pub open spec fn log_path_text(dir: Seq<char>, version: u64) -> Seq<char> {
    dir + seq!['/'] + dec_digits(version as nat) + seq!['.', 'l', 'o', 'g']
}

/// The path of segment `version`'s file under `dir`.
pub fn log_path(dir: &str, version: u64) -> (r: String)
    ensures
        r@ == log_path_text(dir@, version),
{
    let mut out = string_to_chars(dir);
    out.push('/');
    let mut digits = u64_to_dec_chars(version);
    out.append(&mut digits);
    out.push('.');
    out.push('l');
    out.push('o');
    out.push('g');
    proof {
        assert(out@ =~= log_path_text(dir@, version));
    }
    chars_to_string(&out)
}

/// What a file name denotes: `Some(n)` exactly for names of the form
/// `<digits>.log` whose numeral fits a `u64`.
pub open spec fn parse_log_name(s: Seq<char>) -> Option<u64> {
    if s.len() > 4 && s.subrange(s.len() - 4, s.len() as int) == seq!['.', 'l', 'o', 'g'] {
        parse_u64(s.subrange(0, s.len() - 4))
    } else {
        None
    }
}

/// The value of a digit string grows (weakly) with every digit appended.
proof fn lemma_dec_val_prefix(s: Seq<char>, i: int)
    requires
        0 <= i <= s.len(),
    ensures
        dec_val(s) >= dec_val(s.subrange(0, i)),
    decreases s.len() - i,
{
    if i == s.len() {
        assert(s.subrange(0, i) =~= s);
    } else {
        assert(s.subrange(0, i + 1).drop_last() =~= s.subrange(0, i));
        assert(s.subrange(0, i + 1).last() == s[i]);
        lemma_dec_val_prefix(s, i + 1);
    }
}

/// Parses a decimal numeral; mirrors [`parse_u64`].
pub fn parse_u64_chars(t: &Vec<char>) -> (r: Option<u64>)
    ensures
        r == parse_u64(t@),
{
    let n = t.len();
    if n == 0 {
        return None;
    }
    let mut acc: u64 = 0;
    let mut i: usize = 0;
    proof {
        assert(t@.subrange(0, 0) =~= Seq::<char>::empty());
    }
    while i < n
        invariant
            i <= n,
            n == t@.len(),
            all_digits(t@.subrange(0, i as int)),
            acc == dec_val(t@.subrange(0, i as int)),
        decreases n - i,
    {
        let c = t[i];
        let lo = '0';
        let hi = '9';
        if c < lo || c > hi {
            proof {
                assert(!is_digit(t@[i as int]));
            }
            return None;
        }
        let d: u64 = ((c as u32) - ('0' as u32)) as u64;
        proof {
            assert(is_digit(t@[i as int]));
            assert(d == digit_val(t@[i as int]));
            assert(d <= 9);
        }
        if acc > (u64::MAX - d) / 10 {
            proof {
                assert(acc * 10 + d > u64::MAX) by (nonlinear_arith)
                    requires
                        acc > (u64::MAX - d) / 10,
                        d <= 9,
                ;
                assert(t@.subrange(0, i as int + 1).drop_last() =~= t@.subrange(0, i as int));
                assert(t@.subrange(0, i as int + 1).last() == t@[i as int]);
                assert(dec_val(t@.subrange(0, i as int + 1)) > u64::MAX);
                lemma_dec_val_prefix(t@, i as int + 1);
                assert(dec_val(t@) > u64::MAX);
            }
            return None;
        }
        proof {
            assert(acc * 10 + d <= u64::MAX) by (nonlinear_arith)
                requires
                    acc <= (u64::MAX - d) / 10,
                    d <= 9,
            ;
            assert(t@.subrange(0, i as int + 1).drop_last() =~= t@.subrange(0, i as int));
            assert(t@.subrange(0, i as int + 1).last() == t@[i as int]);
            assert(all_digits(t@.subrange(0, i as int + 1)));
        }
        acc = acc * 10 + d;
        i = i + 1;
    }
    proof {
        assert(t@.subrange(0, n as int) =~= t@);
    }
    Some(acc)
}

/// Parses a segment file name; mirrors [`parse_log_name`].
pub fn parse_log_name_exec(name: &str) -> (r: Option<u64>)
    ensures
        r == parse_log_name(name@),
{
    let cs = string_to_chars(name);
    let n = cs.len();
    if n <= 4 {
        return None;
    }
    if !(cs[n - 4] == '.' && cs[n - 3] == 'l' && cs[n - 2] == 'o' && cs[n - 1] == 'g') {
        proof {
            let suf = cs@.subrange(n - 4, n as int);
            if suf == seq!['.', 'l', 'o', 'g'] {
                assert(suf[0] == cs@[n - 4]);
                assert(suf[1] == cs@[n - 3]);
                assert(suf[2] == cs@[n - 2]);
                assert(suf[3] == cs@[n - 1]);
            }
        }
        return None;
    }
    proof {
        assert(cs@.subrange(n - 4, n as int) =~= seq!['.', 'l', 'o', 'g']);
    }
    let mut stem: Vec<char> = Vec::new();
    let mut i: usize = 0;
    while i < n - 4
        invariant
            i <= n - 4,
            n == cs@.len(),
            n > 4,
            stem@ == cs@.subrange(0, i as int),
        decreases n - 4 - i,
    {
        stem.push(cs[i]);
        i = i + 1;
        proof {
            assert(stem@ =~= cs@.subrange(0, i as int));
        }
    }
    parse_u64_chars(&stem)
}

/// The generations of a directory's segment files, ascending: each name of
/// the form `<digits>.log` contributes its number, every other name is
/// ignored, and duplicates collapse. Ascending order makes replay
/// deterministic whatever order the directory listed its entries in.
pub fn generations_from_names(names: &Vec<String>) -> (r: Vec<u64>)
    ensures
        forall|i: int, j: int| 0 <= i < j < r@.len() ==> r@[i] < r@[j],
        forall|g: u64| #[trigger]
            r@.contains(g) <==> exists|i: int|
                0 <= i < names@.len() && parse_log_name((#[trigger] names@[i])@) == Some(g),
{
    let mut out: Vec<u64> = Vec::new();
    let n = names.len();
    let mut i: usize = 0;
    while i < n
        invariant
            i <= n,
            n == names@.len(),
            forall|a: int, b: int| 0 <= a < b < out@.len() ==> out@[a] < out@[b],
            forall|g: u64| #[trigger]
                out@.contains(g) <==> exists|j: int|
                    0 <= j < i && parse_log_name((#[trigger] names@[j])@) == Some(g),
        decreases n - i,
    {
        let ghost out_before = out@;
        match parse_log_name_exec(names[i].as_str()) {
            None => {},
            Some(g) => {
                let m = out.len();
                let mut p: usize = 0;
                while p < m && out[p] < g
                    invariant
                        p <= m,
                        m == out@.len(),
                        forall|a: int| 0 <= a < p ==> out@[a] < g,
                        out@ == out_before,
                    decreases m - p,
                {
                    p = p + 1;
                }
                if p == out.len() || out[p] > g {
                    out.insert(p, g);
                    proof {
                        let newv = out_before.insert(p as int, g);
                        assert(out@ == newv);
                        assert forall|a: int, b: int|
                            0 <= a < b < out@.len() implies out@[a] < out@[b] by {
                            assert(newv =~= out_before.subrange(0, p as int).push(g)
                                + out_before.subrange(p as int, out_before.len() as int));
                            if a < p && b < p {
                                assert(out@[a] == out_before[a] && out@[b] == out_before[b]);
                            } else if a < p && b == p {
                                assert(out@[a] == out_before[a] && out@[b] == g);
                            } else if a < p && b > p {
                                assert(out@[a] == out_before[a] && out@[b] == out_before[b - 1]);
                                assert(p as int <= b - 1);
                            } else if a == p && b > p {
                                assert(out@[a] == g && out@[b] == out_before[b - 1]);
                                assert(g <= out_before[p as int] || p as int == out_before.len());
                                if (b - 1) > p as int {
                                    assert(out_before[p as int] < out_before[b - 1]);
                                }
                            } else {
                                assert(out@[a] == out_before[a - 1] && out@[b] == out_before[b - 1]);
                            }
                        }
                        assert forall|g2: u64| #[trigger] out@.contains(g2) implies g2 == g
                            || out_before.contains(g2) by {
                            let ix = choose|ix: int| 0 <= ix < out@.len() && out@[ix] == g2;
                            assert(out@ =~= out_before.subrange(0, p as int).push(g)
                                + out_before.subrange(p as int, out_before.len() as int));
                            if ix < p {
                                assert(out_before[ix] == g2);
                            } else if ix > p {
                                assert(out_before[ix - 1] == g2);
                            }
                        }
                        assert forall|g2: u64| out_before.contains(g2) || g2 == g implies #[trigger]
                            out@.contains(g2) by {
                            assert(out@ =~= out_before.subrange(0, p as int).push(g)
                                + out_before.subrange(p as int, out_before.len() as int));
                            if g2 == g {
                                assert(out@[p as int] == g);
                            } else {
                                let ix = choose|ix: int|
                                    0 <= ix < out_before.len() && out_before[ix] == g2;
                                if ix < p {
                                    assert(out@[ix] == g2);
                                } else {
                                    assert(out@[ix + 1] == g2);
                                }
                            }
                        }
                    }
                } else {
                    proof {
                        assert(out@.contains(g)) by {
                            assert(out@[p as int] == g);
                        }
                    }
                }
            },
        }
        i = i + 1;
        proof {
            assert forall|g2: u64| #[trigger] out@.contains(g2) implies exists|j: int|
                0 <= j < i && parse_log_name((#[trigger] names@[j])@) == Some(g2) by {
                if out_before.contains(g2) {
                    let j = choose|j: int|
                        0 <= j < i - 1 && parse_log_name((#[trigger] names@[j])@) == Some(g2);
                    assert(parse_log_name(names@[j]@) == Some(g2));
                } else {
                    assert(parse_log_name(names@[i - 1]@) == Some(g2));
                }
            }
        }
    }
    out
}

/// A decimal rendering consists of digits only, and is never empty.
proof fn lemma_dec_digits_digits(n: nat)
    ensures
        all_digits(dec_digits(n)),
        dec_digits(n).len() >= 1,
    decreases n,
{
    if n < 10 {
        assert(is_digit(digit_char(n)));
    } else {
        lemma_dec_digits_digits(n / 10);
        let front = dec_digits(n / 10);
        let whole = dec_digits(n);
        assert(is_digit(digit_char(n % 10)));
        assert forall|i: int| 0 <= i < whole.len() implies is_digit(#[trigger] whole[i]) by {
            if i < front.len() {
                assert(whole[i] == front[i]);
            } else {
                assert(whole[i] == digit_char(n % 10));
            }
        }
    }
}

/// A decimal rendering parses back to its value.
proof fn lemma_dec_val_of_digits(n: nat)
    ensures
        dec_val(dec_digits(n)) == n,
    decreases n,
{
    if n < 10 {
        let d = dec_digits(n);
        assert(d.drop_last() =~= Seq::<char>::empty());
        assert(d.last() == digit_char(n));
        assert(dec_val(Seq::<char>::empty()) == 0);
        assert(digit_val(digit_char(n)) == n);
        assert(dec_val(d) == 0 * 10 + n);
    } else {
        lemma_dec_val_of_digits(n / 10);
        let d = dec_digits(n);
        assert(d.drop_last() =~= dec_digits(n / 10));
        assert(d.last() == digit_char(n % 10));
        assert(digit_val(digit_char(n % 10)) == n % 10);
        assert(dec_val(d) == (n / 10) * 10 + n % 10);
        assert((n / 10) * 10 + n % 10 == n) by (nonlinear_arith);
    }
}

/// Law: segment names round-trip. The name [`log_path`] writes for a
/// generation parses back, by [`parse_log_name`], to exactly that
/// generation; so a directory of files the store wrote lists the same
/// generations on reopen.
pub proof fn lemma_log_name_round_trip(version: u64)
    ensures
        parse_log_name(dec_digits(version as nat) + seq!['.', 'l', 'o', 'g']) == Some(version),
{
    let d = dec_digits(version as nat);
    lemma_dec_digits_digits(version as nat);
    lemma_dec_val_of_digits(version as nat);
    let s = d + seq!['.', 'l', 'o', 'g'];
    assert(s.subrange(s.len() - 4, s.len() as int) =~= seq!['.', 'l', 'o', 'g']);
    assert(s.subrange(0, s.len() - 4) =~= d);
    assert(parse_u64(d) == Some(version));
}

} // verus!
