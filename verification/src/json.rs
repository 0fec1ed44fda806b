//! The JSON string-literal layer of the log and wire format: escaping of
//! arbitrary text into a JSON string literal, and strict parsing back.
//!
//! The parser accepts exactly the escapes JSON allows inside a string
//! (`\" \\ \/ \b \f \n \r \t` and `\uXXXX` for scalar values outside the
//! surrogate range); the encoder emits `\"`, `\\`, the named short escapes,
//! and `\u00XX` for the other control characters, leaving every other
//! character as itself.

use vstd::prelude::*;

verus! {

/// The hexadecimal digit character for a value below sixteen.
pub open spec fn hex_digit_char(n: nat) -> char {
    if n < 10 {
        crate::text::digit_char(n)
    } else if n == 10 {
        'a'
    } else if n == 11 {
        'b'
    } else if n == 12 {
        'c'
    } else if n == 13 {
        'd'
    } else if n == 14 {
        'e'
    } else {
        'f'
    }
}

/// The numeric value of a hexadecimal digit character, upper or lower case.
pub open spec fn hex_val(c: char) -> Option<nat> {
    if '0' <= c && c <= '9' {
        Some((((c as u32) - ('0' as u32)) as nat))
    } else if 'a' <= c && c <= 'f' {
        Some(((10 + (c as u32) - ('a' as u32)) as nat))
    } else if 'A' <= c && c <= 'F' {
        Some(((10 + (c as u32) - ('A' as u32)) as nat))
    } else {
        None
    }
}

/// How the encoder renders one character inside a JSON string literal: the
/// named short escapes where JSON has them, `\u00XX` for the other control
/// characters.
pub open spec fn esc_char(c: char) -> Seq<char> {
    if c == '"' {
        seq!['\\', '"']
    } else if c == '\\' {
        seq!['\\', '\\']
    } else if c == '\u{8}' {
        seq!['\\', 'b']
    } else if c == '\t' {
        seq!['\\', 't']
    } else if c == '\n' {
        seq!['\\', 'n']
    } else if c == '\u{c}' {
        seq!['\\', 'f']
    } else if c == '\r' {
        seq!['\\', 'r']
    } else if (c as u32) < 0x20 {
        seq!['\\', 'u', '0', '0', hex_digit_char(((c as u32) / 16) as nat), hex_digit_char(
            ((c as u32) % 16) as nat,
        )]
    } else {
        seq![c]
    }
}

/// The escaped form of a whole text.
pub open spec fn esc(s: Seq<char>) -> Seq<char>
    decreases s.len(),
{
    if s.len() == 0 {
        Seq::empty()
    } else {
        esc_char(s[0]) + esc(s.subrange(1, s.len() as int))
    }
}

/// The JSON string literal holding `s`: quotes around the escaped text.
pub open spec fn jstr(s: Seq<char>) -> Seq<char> {
    seq!['"'] + esc(s) + seq!['"']
}

/// The character denoted by a single-character escape `\c`, if `c` is one.
pub open spec fn unescape_char(c: char) -> Option<char> {
    if c == '"' {
        Some('"')
    } else if c == '\\' {
        Some('\\')
    } else if c == '/' {
        Some('/')
    } else if c == 'b' {
        Some('\u{8}')
    } else if c == 'f' {
        Some('\u{c}')
    } else if c == 'n' {
        Some('\n')
    } else if c == 'r' {
        Some('\r')
    } else if c == 't' {
        Some('\t')
    } else {
        None
    }
}

/// Whether a `\uXXXX` code denotes a Unicode scalar value.
pub open spec fn valid_bmp_scalar(code: nat) -> bool {
    code < 0xD800 || (0xE000 <= code && code <= 0xFFFF)
}

/// What parsing one logical character of a string body at `pos` yields:
/// the character and the position just past its source form. `None` at the
/// closing quote, at a raw control character, at a malformed escape, or at
/// the end of the text.
pub open spec fn parse_str_char(t: Seq<char>, pos: int) -> Option<(char, int)> {
    if pos < 0 || pos >= t.len() {
        None
    } else if t[pos] == '\\' {
        if pos + 1 >= t.len() {
            None
        } else if t[pos + 1] == 'u' {
            if pos + 6 > t.len() {
                None
            } else {
                match (hex_val(t[pos + 2]), hex_val(t[pos + 3]), hex_val(t[pos + 4]), hex_val(
                    t[pos + 5],
                )) {
                    (Some(h3), Some(h2), Some(h1), Some(h0)) => {
                        let code = h3 * 4096 + h2 * 256 + h1 * 16 + h0;
                        if valid_bmp_scalar(code) {
                            Some((((code as u32) as char), pos + 6))
                        } else {
                            None
                        }
                    },
                    _ => None,
                }
            }
        } else {
            match unescape_char(t[pos + 1]) {
                Some(c) => Some((c, pos + 2)),
                None => None,
            }
        }
    } else if t[pos] == '"' {
        None
    } else if (t[pos] as u32) < 0x20 {
        None
    } else {
        Some((t[pos], pos + 1))
    }
}

/// What parsing a string body at `pos` yields: the decoded text and the
/// position just past the closing quote. The opening quote has already been
/// consumed.
pub open spec fn parse_str_body(t: Seq<char>, pos: int) -> Option<(Seq<char>, int)>
    decreases t.len() - pos,
{
    if pos < 0 || pos >= t.len() {
        None
    } else if t[pos] == '"' {
        Some((Seq::empty(), pos + 1))
    } else {
        match parse_str_char(t, pos) {
            None => None,
            Some((c, next)) => {
                if next <= pos || next > t.len() {
                    None
                } else {
                    match parse_str_body(t, next) {
                        None => None,
                        Some((rest, end)) => Some((seq![c] + rest, end)),
                    }
                }
            },
        }
    }
}

/// A successful character parse consumes at least one and at most six
/// characters, staying within the text.
pub proof fn lemma_parse_str_char_bounds(t: Seq<char>, pos: int)
    requires
        parse_str_char(t, pos) is Some,
    ensures
        pos < parse_str_char(t, pos).unwrap().1 <= t.len(),
{
}

/// A successful body parse ends past its start and within the text.
pub proof fn lemma_parse_str_body_bounds(t: Seq<char>, pos: int)
    requires
        parse_str_body(t, pos) is Some,
    ensures
        pos < parse_str_body(t, pos).unwrap().1 <= t.len(),
    decreases t.len() - pos,
{
    if t[pos] == '"' {
    } else {
        let (c, next) = parse_str_char(t, pos).unwrap();
        lemma_parse_str_body_bounds(t, next);
    }
}

/// Two equal windows agree character by character.
pub proof fn lemma_window_index(t1: Seq<char>, pos1: int, t2: Seq<char>, pos2: int, n: int, i: int)
    requires
        0 <= pos1,
        0 <= pos2,
        pos1 + n <= t1.len(),
        pos2 + n <= t2.len(),
        t2.subrange(pos2, pos2 + n) == t1.subrange(pos1, pos1 + n),
        0 <= i < n,
    ensures
        t2[pos2 + i] == t1[pos1 + i],
{
    assert(t2.subrange(pos2, pos2 + n)[i] == t2[pos2 + i]);
    assert(t1.subrange(pos1, pos1 + n)[i] == t1[pos1 + i]);
    assert(t2.subrange(pos2, pos2 + n)[i] == t1.subrange(pos1, pos1 + n)[i]);
}

/// A sub-window of two equal windows is again a pair of equal windows.
pub proof fn lemma_window_sub(
    t1: Seq<char>,
    pos1: int,
    t2: Seq<char>,
    pos2: int,
    n: int,
    a: int,
    b: int,
)
    requires
        0 <= pos1,
        0 <= pos2,
        pos1 + n <= t1.len(),
        pos2 + n <= t2.len(),
        t2.subrange(pos2, pos2 + n) == t1.subrange(pos1, pos1 + n),
        0 <= a <= b <= n,
    ensures
        t2.subrange(pos2 + a, pos2 + b) == t1.subrange(pos1 + a, pos1 + b),
{
    assert forall|i: int| 0 <= i < b - a implies #[trigger] t2.subrange(pos2 + a, pos2 + b)[i]
        == t1.subrange(pos1 + a, pos1 + b)[i] by {
        lemma_window_index(t1, pos1, t2, pos2, n, a + i);
        assert(t2.subrange(pos2 + a, pos2 + b)[i] == t2[pos2 + a + i]);
        assert(t1.subrange(pos1 + a, pos1 + b)[i] == t1[pos1 + a + i]);
    }
    assert(t2.subrange(pos2 + a, pos2 + b) =~= t1.subrange(pos1 + a, pos1 + b));
}

/// Parsing looks only at the characters it consumes: a successful character
/// parse gives the same result at any position of any text that carries the
/// same consumed window.
pub proof fn lemma_parse_str_char_local(t1: Seq<char>, pos1: int, t2: Seq<char>, pos2: int)
    requires
        parse_str_char(t1, pos1) is Some,
        0 <= pos2,
        pos2 + (parse_str_char(t1, pos1).unwrap().1 - pos1) <= t2.len(),
        t2.subrange(pos2, pos2 + (parse_str_char(t1, pos1).unwrap().1 - pos1)) == t1.subrange(
            pos1,
            parse_str_char(t1, pos1).unwrap().1,
        ),
    ensures
        parse_str_char(t2, pos2) == Some(
            (
                parse_str_char(t1, pos1).unwrap().0,
                pos2 + (parse_str_char(t1, pos1).unwrap().1 - pos1),
            ),
        ),
{
    let end1 = parse_str_char(t1, pos1).unwrap().1;
    let n = end1 - pos1;
    lemma_window_index(t1, pos1, t2, pos2, n, 0);
    assert(t2[pos2] == t1[pos1]);
    if t1[pos1] == '\\' {
        lemma_window_index(t1, pos1, t2, pos2, n, 1);
        assert(t2[pos2 + 1] == t1[pos1 + 1]);
        if t1[pos1 + 1] == 'u' {
            lemma_window_index(t1, pos1, t2, pos2, n, 2);
            lemma_window_index(t1, pos1, t2, pos2, n, 3);
            lemma_window_index(t1, pos1, t2, pos2, n, 4);
            lemma_window_index(t1, pos1, t2, pos2, n, 5);
            assert(t2[pos2 + 2] == t1[pos1 + 2]);
            assert(t2[pos2 + 3] == t1[pos1 + 3]);
            assert(t2[pos2 + 4] == t1[pos1 + 4]);
            assert(t2[pos2 + 5] == t1[pos1 + 5]);
        }
    }
}

/// The body parser is local in the same sense.
pub proof fn lemma_parse_str_body_local(t1: Seq<char>, pos1: int, t2: Seq<char>, pos2: int)
    requires
        parse_str_body(t1, pos1) is Some,
        0 <= pos2,
        pos2 + (parse_str_body(t1, pos1).unwrap().1 - pos1) <= t2.len(),
        t2.subrange(pos2, pos2 + (parse_str_body(t1, pos1).unwrap().1 - pos1)) == t1.subrange(
            pos1,
            parse_str_body(t1, pos1).unwrap().1,
        ),
    ensures
        parse_str_body(t2, pos2) == Some(
            (
                parse_str_body(t1, pos1).unwrap().0,
                pos2 + (parse_str_body(t1, pos1).unwrap().1 - pos1),
            ),
        ),
    decreases t1.len() - pos1,
{
    let end1 = parse_str_body(t1, pos1).unwrap().1;
    let n = end1 - pos1;
    lemma_parse_str_body_bounds(t1, pos1);
    lemma_window_index(t1, pos1, t2, pos2, n, 0);
    assert(t2[pos2] == t1[pos1]);
    if t1[pos1] == '"' {
    } else {
        let (c, next1) = parse_str_char(t1, pos1).unwrap();
        lemma_parse_str_char_bounds(t1, pos1);
        let k = next1 - pos1;
        lemma_parse_str_body_bounds(t1, next1);
        assert(next1 <= end1);
        lemma_window_sub(t1, pos1, t2, pos2, n, 0, k);
        lemma_parse_str_char_local(t1, pos1, t2, pos2);
        lemma_window_sub(t1, pos1, t2, pos2, n, k, n);
        lemma_parse_str_body_local(t1, next1, t2, pos2 + k);
    }
}

/// Relies on `char::from_u32`: yields the character with the given code
/// point, or `None` for surrogate codes and codes above the Unicode maximum.
pub assume_specification[ char::from_u32 ](u: u32) -> (r: Option<char>)
    ensures
        r == if u < 0xD800 || (0xE000 <= u && u <= 0x10FFFF) {
            Some(u as char)
        } else {
            None::<char>
        },
;

/// Escaping distributes over concatenation.
pub proof fn lemma_esc_concat(a: Seq<char>, b: Seq<char>)
    ensures
        esc(a + b) == esc(a) + esc(b),
    decreases a.len(),
{
    if a.len() == 0 {
        assert(a + b =~= b);
        assert(esc(a) + esc(b) =~= esc(b));
    } else {
        let rest = a.subrange(1, a.len() as int);
        lemma_esc_concat(rest, b);
        assert((a + b).subrange(1, (a + b).len() as int) =~= rest + b);
        assert((a + b)[0] == a[0]);
        assert(esc(a + b) =~= esc(a) + esc(b));
    }
}

/// Escaping one more character appends its escaped form.
pub proof fn lemma_esc_push(s: Seq<char>, c: char)
    ensures
        esc(s.push(c)) == esc(s) + esc_char(c),
{
    lemma_esc_concat(s, seq![c]);
    assert(s.push(c) =~= s + seq![c]);
    assert(esc(seq![c]) =~= esc_char(c)) by {
        assert(seq![c].subrange(1, 1) =~= Seq::<char>::empty());
        assert(esc(Seq::<char>::empty()) == Seq::<char>::empty());
    }
}

/// The hexadecimal digit character for `d`, which must be below sixteen.
pub fn hex_digit_char_exec(d: u32) -> (c: char)
    requires
        d < 16,
    ensures
        c == hex_digit_char(d as nat),
{
    if d < 10 {
        crate::text::digit_char_exec(d as u64)
    } else if d == 10 {
        'a'
    } else if d == 11 {
        'b'
    } else if d == 12 {
        'c'
    } else if d == 13 {
        'd'
    } else if d == 14 {
        'e'
    } else {
        'f'
    }
}

/// The value of a hexadecimal digit character, if it is one.
pub fn hex_val_exec(c: char) -> (r: Option<u32>)
    ensures
        match r {
            Some(v) => hex_val(c) == Some(v as nat) && v < 16,
            None => hex_val(c) is None,
        },
{
    if '0' <= c && c <= '9' {
        Some((c as u32) - ('0' as u32))
    } else if 'a' <= c && c <= 'f' {
        Some(10 + (c as u32) - ('a' as u32))
    } else if 'A' <= c && c <= 'F' {
        Some(10 + (c as u32) - ('A' as u32))
    } else {
        None
    }
}

/// Appends the escaped form of `c` to `out`.
pub fn push_esc_char(out: &mut Vec<char>, c: char)
    ensures
        final(out)@ == old(out)@ + esc_char(c),
{
    let ghost start = out@;
    if c == '"' {
        out.push('\\');
        out.push('"');
    } else if c == '\\' {
        out.push('\\');
        out.push('\\');
    } else if c == '\u{8}' {
        out.push('\\');
        out.push('b');
    } else if c == '\t' {
        out.push('\\');
        out.push('t');
    } else if c == '\n' {
        out.push('\\');
        out.push('n');
    } else if c == '\u{c}' {
        out.push('\\');
        out.push('f');
    } else if c == '\r' {
        out.push('\\');
        out.push('r');
    } else if (c as u32) < 0x20 {
        let code = c as u32;
        out.push('\\');
        out.push('u');
        out.push('0');
        out.push('0');
        out.push(hex_digit_char_exec(code / 16));
        out.push(hex_digit_char_exec(code % 16));
    } else {
        out.push(c);
    }
    proof {
        assert(out@ =~= start + esc_char(c));
    }
}

/// Appends the JSON string literal holding `s` to `out`.
pub fn push_jstr(out: &mut Vec<char>, s: &Vec<char>)
    ensures
        final(out)@ == old(out)@ + jstr(s@),
{
    let ghost start = out@;
    out.push('"');
    let mut i: usize = 0;
    while i < s.len()
        invariant
            i <= s@.len(),
            out@ == start + seq!['"'] + esc(s@.subrange(0, i as int)),
        decreases s@.len() - i,
    {
        proof {
            lemma_esc_push(s@.subrange(0, i as int), s@[i as int]);
            assert(s@.subrange(0, i as int + 1) =~= s@.subrange(0, i as int).push(s@[i as int]));
        }
        push_esc_char(out, s[i]);
        i = i + 1;
        proof {
            assert(out@ =~= start + seq!['"'] + esc(s@.subrange(0, i as int)));
        }
    }
    out.push('"');
    proof {
        assert(s@.subrange(0, s@.len() as int) =~= s@);
        assert(out@ =~= start + jstr(s@));
    }
}

/// Parses one logical string-body character; mirrors [`parse_str_char`].
pub fn parse_str_char_exec(t: &Vec<char>, pos: usize) -> (r: Option<(char, usize)>)
    requires
        pos < t@.len(),
    ensures
        r is Some ==> parse_str_char(t@, pos as int) == Some(
            (r.unwrap().0, r.unwrap().1 as int),
        ) && pos < r.unwrap().1 <= t@.len(),
        r is None ==> parse_str_char(t@, pos as int) is None,
{
    let tl = t.len();
    let c = t[pos];
    if c == '\\' {
        if tl - pos < 2 {
            None
        } else {
            let e = t[pos + 1];
            if e == 'u' {
                if tl - pos < 6 {
                    None
                } else {
                    let h3 = hex_val_exec(t[pos + 2]);
                    let h2 = hex_val_exec(t[pos + 3]);
                    let h1 = hex_val_exec(t[pos + 4]);
                    let h0 = hex_val_exec(t[pos + 5]);
                    match (h3, h2, h1, h0) {
                        (Some(v3), Some(v2), Some(v1), Some(v0)) => {
                            let code: u32 = v3 * 4096 + v2 * 256 + v1 * 16 + v0;
                            proof {
                                assert(code <= 0xFFFF);
                            }
                            if code < 0xD800 || 0xE000 <= code {
                                match char::from_u32(code) {
                                    Some(d) => Some((d, pos + 6)),
                                    None => {
                                        proof {
                                            assert(false);
                                        }
                                        None
                                    },
                                }
                            } else {
                                None
                            }
                        },
                        _ => None,
                    }
                }
            } else {
                match unescape_char_exec(e) {
                    Some(d) => Some((d, pos + 2)),
                    None => None,
                }
            }
        }
    } else if c == '"' {
        None
    } else if (c as u32) < 0x20 {
        None
    } else {
        Some((c, pos + 1))
    }
}

/// The character denoted by a single-character escape; mirrors
/// [`unescape_char`].
pub fn unescape_char_exec(c: char) -> (r: Option<char>)
    ensures
        r == unescape_char(c),
{
    if c == '"' {
        Some('"')
    } else if c == '\\' {
        Some('\\')
    } else if c == '/' {
        Some('/')
    } else if c == 'b' {
        Some('\u{8}')
    } else if c == 'f' {
        Some('\u{c}')
    } else if c == 'n' {
        Some('\n')
    } else if c == 'r' {
        Some('\r')
    } else if c == 't' {
        Some('\t')
    } else {
        None
    }
}

/// The value of a hexadecimal digit character round-trips.
pub proof fn lemma_hex_digit_roundtrip(n: nat)
    requires
        n < 16,
    ensures
        hex_val(hex_digit_char(n)) == Some(n),
{
}

/// Where a text carries the escaped form of `c`, one character parses back
/// to exactly `c`.
pub proof fn lemma_parse_str_char_of_esc(c: char, t: Seq<char>, pos: int)
    requires
        0 <= pos,
        pos + esc_char(c).len() <= t.len(),
        t.subrange(pos, pos + esc_char(c).len()) == esc_char(c),
    ensures
        parse_str_char(t, pos) == Some((c, pos + esc_char(c).len())),
{
    let k = esc_char(c).len() as int;
    assert(esc_char(c).subrange(0, k) =~= esc_char(c));
    lemma_window_index(esc_char(c), 0, t, pos, k, 0);
    if c == '"' {
        lemma_window_index(esc_char(c), 0, t, pos, k, 1);
        assert(t[pos] == '\\' && t[pos + 1] == '"');
    } else if c == '\\' {
        lemma_window_index(esc_char(c), 0, t, pos, k, 1);
        assert(t[pos] == '\\' && t[pos + 1] == '\\');
    } else if c == '\u{8}' || c == '\t' || c == '\n' || c == '\u{c}' || c == '\r' {
        lemma_window_index(esc_char(c), 0, t, pos, k, 1);
        assert(t[pos] == '\\' && t[pos + 1] == esc_char(c)[1]);
        assert(unescape_char(t[pos + 1]) == Some(c));
    } else if (c as u32) < 0x20 {
        let hi = ((c as u32) / 16) as nat;
        let lo = ((c as u32) % 16) as nat;
        lemma_window_index(esc_char(c), 0, t, pos, k, 1);
        lemma_window_index(esc_char(c), 0, t, pos, k, 2);
        lemma_window_index(esc_char(c), 0, t, pos, k, 3);
        lemma_window_index(esc_char(c), 0, t, pos, k, 4);
        lemma_window_index(esc_char(c), 0, t, pos, k, 5);
        assert(t[pos] == '\\' && t[pos + 1] == 'u' && t[pos + 2] == '0' && t[pos + 3] == '0');
        assert(t[pos + 4] == hex_digit_char(hi) && t[pos + 5] == hex_digit_char(lo));
        lemma_hex_digit_roundtrip(hi);
        lemma_hex_digit_roundtrip(lo);
        assert(hex_val(t[pos + 2]) == Some(0nat));
        assert(hex_val(t[pos + 3]) == Some(0nat));
        let code = 0nat * 4096 + 0nat * 256 + hi * 16 + lo;
        assert(code == (c as u32) as nat);
        assert(valid_bmp_scalar(code));
        vstd::utf8::char_u32_cast(c, c as u32);
        assert(((code as u32) as char) == c);
    } else {
        assert(t[pos] == c);
    }
}

/// Where a text carries the escaped form of `s` followed by a closing quote,
/// the string body parses back to exactly `s`.
pub proof fn lemma_parse_str_body_of_esc(s: Seq<char>, t: Seq<char>, pos: int)
    requires
        0 <= pos,
        pos + esc(s).len() + 1 <= t.len(),
        t.subrange(pos, pos + esc(s).len() + 1) == esc(s) + seq!['"'],
    ensures
        parse_str_body(t, pos) == Some((s, pos + esc(s).len() + 1)),
    decreases s.len(),
{
    let n = esc(s).len() as int + 1;
    let pat = esc(s) + seq!['"'];
    assert(pat.subrange(0, n) =~= pat);
    if s.len() == 0 {
        assert(esc(s) == Seq::<char>::empty());
        assert(pat =~= seq!['"']);
        lemma_window_index(pat, 0, t, pos, n, 0);
        assert(t[pos] == '"');
        assert(parse_str_body(t, pos) == Some((Seq::<char>::empty(), pos + 1)));
        assert(s =~= Seq::<char>::empty());
    } else {
        let c = s[0];
        let rest = s.subrange(1, s.len() as int);
        assert(esc(s) == esc_char(c) + esc(rest));
        let k = esc_char(c).len() as int;
        assert(esc_char(c).len() >= 1);
        lemma_window_index(pat, 0, t, pos, n, 0);
        assert(pat[0] == esc_char(c)[0]);
        assert(t[pos] == esc_char(c)[0]);
        assert(esc_char(c)[0] != '"');
        lemma_window_sub(pat, 0, t, pos, n, 0, k);
        assert(pat.subrange(0, k) =~= esc_char(c));
        lemma_parse_str_char_of_esc(c, t, pos);
        lemma_window_sub(pat, 0, t, pos, n, k, n);
        assert(pat.subrange(k, n) =~= esc(rest) + seq!['"']);
        lemma_parse_str_body_of_esc(rest, t, pos + k);
        assert(seq![c] + rest =~= s);
    }
}

/// Where a text carries the JSON string literal of `s`, it opens with a
/// quote and its body parses back to exactly `s`.
pub proof fn lemma_parse_jstr_at(s: Seq<char>, t: Seq<char>, pos: int)
    requires
        0 <= pos,
        pos + jstr(s).len() <= t.len(),
        t.subrange(pos, pos + jstr(s).len()) == jstr(s),
    ensures
        t[pos] == '"',
        parse_str_body(t, pos + 1) == Some((s, pos + jstr(s).len())),
{
    let n = jstr(s).len() as int;
    assert(jstr(s).subrange(0, n) =~= jstr(s));
    lemma_window_index(jstr(s), 0, t, pos, n, 0);
    assert(jstr(s)[0] == '"');
    lemma_window_sub(jstr(s), 0, t, pos, n, 1, n);
    assert(jstr(s).subrange(1, n) =~= esc(s) + seq!['"']);
    lemma_parse_str_body_of_esc(s, t, pos + 1);
}

/// `r` with `prefix` prepended to a successful parse's content.
pub open spec fn body_prepend(prefix: Seq<char>, r: Option<(Seq<char>, int)>) -> Option<
    (Seq<char>, int),
> {
    match r {
        None => None,
        Some((s, e)) => Some((prefix + s, e)),
    }
}

/// Parses a string body from `pos` up to its closing quote; mirrors
/// [`parse_str_body`].
pub fn parse_str_body_exec(t: &Vec<char>, pos: usize) -> (r: Option<(Vec<char>, usize)>)
    requires
        pos <= t@.len(),
    ensures
        match r {
            Some((s, end)) => parse_str_body(t@, pos as int) == Some((s@, end as int)) && pos < end
                <= t@.len(),
            None => parse_str_body(t@, pos as int) is None,
        },
{
    let mut acc: Vec<char> = Vec::new();
    let mut cur: usize = pos;
    loop
        invariant
            pos <= cur <= t@.len(),
            parse_str_body(t@, pos as int) == body_prepend(
                acc@,
                parse_str_body(t@, cur as int),
            ),
        decreases t@.len() - cur,
    {
        if cur >= t.len() {
            return None;
        }
        if t[cur] == '"' {
            proof {
                assert(parse_str_body(t@, cur as int) == Some((Seq::<char>::empty(), cur + 1)));
                assert(acc@ + Seq::<char>::empty() =~= acc@);
            }
            return Some((acc, cur + 1));
        }
        match parse_str_char_exec(t, cur) {
            None => {
                return None;
            },
            Some((c, next)) => {
                let ghost prev = acc@;
                acc.push(c);
                proof {
                    let inner = parse_str_body(t@, next as int);
                    match inner {
                        None => {
                            assert(parse_str_body(t@, cur as int) is None);
                        },
                        Some((rest, end)) => {
                            assert(parse_str_body(t@, cur as int) == Some::<(Seq<char>, int)>(
                                (seq![c] + rest, end),
                            ));
                            assert(prev + (seq![c] + rest) =~= acc@ + rest);
                        },
                    }
                }
                cur = next;
            },
        }
    }
}

} // verus!
