//! The log record layer: `Set` and `Remove` records rendered as
//! self-delimiting JSON objects, written and parsed exactly.
//!
//! A segment file is a plain concatenation of record texts:
//! `{"Set":{"key":K,"value":V}}` and `{"Remove":{"key":K}}` where `K` and
//! `V` are JSON string literals.

use vstd::prelude::*;
use crate::json::{
    jstr,
    parse_str_body,
    parse_str_body_exec,
    push_jstr,
    lemma_parse_str_body_bounds,
    lemma_parse_str_body_local,
    lemma_parse_jstr_at,
    lemma_window_index,
    lemma_window_sub,
};
use crate::text::{string_to_chars, chars_to_string};

verus! {

/// The mathematical form of a record.
pub enum Rec {
    Put { key: Seq<char>, value: Seq<char> },
    Remove { key: Seq<char> },
}

/// A record as written to and replayed from the log.
pub enum Command {
    Put { key: String, value: String },
    Remove { key: String },
}

impl View for Command {
    type V = Rec;

    open spec fn view(&self) -> Rec {
        match self {
            Command::Put { key, value } => Rec::Put { key: key@, value: value@ },
            Command::Remove { key } => Rec::Remove { key: key@ },
        }
    }
}

impl Command {
    /// The record asserting that `key` maps to `value`.
    pub fn set(key: String, value: String) -> (r: Command)
        ensures
            r@ == (Rec::Put { key: key@, value: value@ }),
    {
        Command::Put { key, value }
    }

    /// The record asserting that `key` is absent.
    pub fn remove(key: String) -> (r: Command)
        ensures
            r@ == (Rec::Remove { key: key@ }),
    {
        Command::Remove { key }
    }
}

/// The opening of a `Set` record, up to the key literal.
pub open spec fn set_open() -> Seq<char> {
    seq!['{', '"', 'S', 'e', 't', '"', ':', '{', '"', 'k', 'e', 'y', '"', ':']
}

/// The middle of a `Set` record, between the key and value literals.
pub open spec fn set_mid() -> Seq<char> {
    seq![',', '"', 'v', 'a', 'l', 'u', 'e', '"', ':']
}

/// The opening of a `Remove` record, up to the key literal.
pub open spec fn remove_open() -> Seq<char> {
    seq!['{', '"', 'R', 'e', 'm', 'o', 'v', 'e', '"', ':', '{', '"', 'k', 'e', 'y', '"', ':']
}

/// The closing braces of either record.
pub open spec fn obj_close() -> Seq<char> {
    seq!['}', '}']
}

/// The exact text of a record in the log.
pub open spec fn rec_text(r: Rec) -> Seq<char> {
    match r {
        Rec::Put { key, value } => set_open() + jstr(key) + set_mid() + jstr(value) + obj_close(),
        Rec::Remove { key } => remove_open() + jstr(key) + obj_close(),
    }
}

/// Whether `pat` occurs in `t` at position `pos`.
pub open spec fn matches_at(t: Seq<char>, pos: int, pat: Seq<char>) -> bool {
    0 <= pos && pos + pat.len() <= t.len() && t.subrange(pos, pos + pat.len()) == pat
}

/// What parsing one record at `pos` yields: the record and the position just
/// past its text, or `None` when no record starts there.
pub open spec fn parse_rec(t: Seq<char>, pos: int) -> Option<(Rec, int)> {
    if matches_at(t, pos, set_open()) {
        let p1 = pos + set_open().len();
        match parse_str_body(t, p1 + 1) {
            None => None,
            Some((key, p2)) => {
                if p1 < t.len() && t[p1] == '"' && matches_at(t, p2, set_mid()) {
                    let p3 = p2 + set_mid().len();
                    match parse_str_body(t, p3 + 1) {
                        None => None,
                        Some((value, p4)) => {
                            if p3 < t.len() && t[p3] == '"' && matches_at(t, p4, obj_close()) {
                                Some((Rec::Put { key, value }, p4 + obj_close().len()))
                            } else {
                                None
                            }
                        },
                    }
                } else {
                    None
                }
            },
        }
    } else if matches_at(t, pos, remove_open()) {
        let p1 = pos + remove_open().len();
        match parse_str_body(t, p1 + 1) {
            None => None,
            Some((key, p2)) => {
                if p1 < t.len() && t[p1] == '"' && matches_at(t, p2, obj_close()) {
                    Some((Rec::Remove { key }, p2 + obj_close().len()))
                } else {
                    None
                }
            },
        }
    } else {
        None
    }
}

/// A successful record parse consumes at least one character and stays
/// within the text.
pub proof fn lemma_parse_rec_bounds(t: Seq<char>, pos: int)
    requires
        parse_rec(t, pos) is Some,
    ensures
        pos < parse_rec(t, pos).unwrap().1 <= t.len(),
{
    if matches_at(t, pos, set_open()) {
        let p1 = pos + set_open().len();
        lemma_parse_str_body_bounds(t, p1 + 1);
        let p2 = parse_str_body(t, p1 + 1).unwrap().1;
        lemma_parse_str_body_bounds(t, p2 + set_mid().len() + 1);
    } else {
        let p1 = pos + remove_open().len();
        lemma_parse_str_body_bounds(t, p1 + 1);
    }
}

/// Record parsing looks only at the characters it consumes: a successful
/// parse gives the same record at any position of any text carrying the same
/// consumed window.
pub proof fn lemma_parse_rec_local(t1: Seq<char>, pos1: int, t2: Seq<char>, pos2: int)
    requires
        parse_rec(t1, pos1) is Some,
        0 <= pos2,
        pos2 + (parse_rec(t1, pos1).unwrap().1 - pos1) <= t2.len(),
        t2.subrange(pos2, pos2 + (parse_rec(t1, pos1).unwrap().1 - pos1)) == t1.subrange(
            pos1,
            parse_rec(t1, pos1).unwrap().1,
        ),
    ensures
        parse_rec(t2, pos2) == Some(
            (parse_rec(t1, pos1).unwrap().0, pos2 + (parse_rec(t1, pos1).unwrap().1 - pos1)),
        ),
{
    let end1 = parse_rec(t1, pos1).unwrap().1;
    let n = end1 - pos1;
    lemma_parse_rec_bounds(t1, pos1);
    if matches_at(t1, pos1, set_open()) {
        let ll = set_open().len() as int;
        let p1 = pos1 + ll;
        let (key, p2) = parse_str_body(t1, p1 + 1).unwrap();
        lemma_parse_str_body_bounds(t1, p1 + 1);
        let p3 = p2 + set_mid().len() as int;
        let (value, p4) = parse_str_body(t1, p3 + 1).unwrap();
        lemma_parse_str_body_bounds(t1, p3 + 1);
        let q1 = pos2 + ll;
        let q2 = pos2 + (p2 - pos1);
        let q3 = pos2 + (p3 - pos1);
        let q4 = pos2 + (p4 - pos1);
        lemma_window_sub(t1, pos1, t2, pos2, n, 0, ll);
        assert(t1.subrange(pos1, pos1 + ll) == set_open());
        assert(matches_at(t2, pos2, set_open()));
        lemma_window_index(t1, pos1, t2, pos2, n, ll);
        assert(t2[q1] == t1[p1]);
        lemma_window_sub(t1, pos1, t2, pos2, n, ll + 1, p2 - pos1);
        lemma_parse_str_body_local(t1, p1 + 1, t2, q1 + 1);
        assert(parse_str_body(t2, q1 + 1) == Some((key, q2)));
        lemma_window_sub(t1, pos1, t2, pos2, n, p2 - pos1, p3 - pos1);
        assert(t1.subrange(p2, p2 + set_mid().len()) == set_mid());
        assert(t2.subrange(q2, q2 + set_mid().len()) == set_mid());
        assert(matches_at(t2, q2, set_mid()));
        lemma_window_index(t1, pos1, t2, pos2, n, p3 - pos1);
        assert(t2[q3] == t1[p3]);
        lemma_window_sub(t1, pos1, t2, pos2, n, p3 - pos1 + 1, p4 - pos1);
        lemma_parse_str_body_local(t1, p3 + 1, t2, q3 + 1);
        assert(parse_str_body(t2, q3 + 1) == Some((value, q4)));
        lemma_window_sub(t1, pos1, t2, pos2, n, p4 - pos1, n);
        assert(t1.subrange(p4, p4 + obj_close().len()) == obj_close());
        assert(t2.subrange(q4, q4 + obj_close().len()) == obj_close());
        assert(matches_at(t2, q4, obj_close()));
        assert(parse_rec(t2, pos2) == Some((Rec::Put { key, value }, pos2 + n)));
    } else {
        let ll = remove_open().len() as int;
        let p1 = pos1 + ll;
        let (key, p2) = parse_str_body(t1, p1 + 1).unwrap();
        lemma_parse_str_body_bounds(t1, p1 + 1);
        let q1 = pos2 + ll;
        let q2 = pos2 + (p2 - pos1);
        assert(!matches_at(t2, pos2, set_open())) by {
            if matches_at(t2, pos2, set_open()) {
                assert(t2.subrange(pos2, pos2 + set_open().len())[2] == set_open()[2]);
                lemma_window_index(t1, pos1, t2, pos2, n, 2);
                assert(t1.subrange(pos1, pos1 + ll)[2] == remove_open()[2]);
                assert(t1[pos1 + 2] == 'R');
                assert(t2[pos2 + 2] == 'S');
                assert(false);
            }
        }
        lemma_window_sub(t1, pos1, t2, pos2, n, 0, ll);
        assert(t1.subrange(pos1, pos1 + ll) == remove_open());
        assert(matches_at(t2, pos2, remove_open()));
        lemma_window_index(t1, pos1, t2, pos2, n, ll);
        assert(t2[q1] == t1[p1]);
        lemma_window_sub(t1, pos1, t2, pos2, n, ll + 1, p2 - pos1);
        lemma_parse_str_body_local(t1, p1 + 1, t2, q1 + 1);
        assert(parse_str_body(t2, q1 + 1) == Some((key, q2)));
        lemma_window_sub(t1, pos1, t2, pos2, n, p2 - pos1, n);
        assert(t1.subrange(p2, p2 + obj_close().len()) == obj_close());
        assert(t2.subrange(q2, q2 + obj_close().len()) == obj_close());
        assert(matches_at(t2, q2, obj_close()));
        assert(parse_rec(t2, pos2) == Some((Rec::Remove { key }, pos2 + n)));
    }
}

/// The text of a record parses back to exactly that record, consuming all of
/// it.
#[verifier::rlimit(60)]
pub proof fn lemma_parse_rec_text_self(r: Rec)
    ensures
        parse_rec(rec_text(r), 0) == Some((r, rec_text(r).len() as int)),
{
    match r {
        Rec::Put { key, value } => {
            let t = rec_text(r);
            let ll = set_open().len() as int;
            let jk = jstr(key).len() as int;
            let mm = set_mid().len() as int;
            let jv = jstr(value).len() as int;
            let p1 = ll;
            let p2 = ll + jk;
            let p3 = p2 + mm;
            let p4 = p3 + jv;
            assert(t.len() == p4 + 2);
            assert(t.subrange(0, ll) =~= set_open());
            assert(matches_at(t, 0, set_open()));
            assert(t.subrange(p1, p1 + jk) =~= jstr(key));
            lemma_parse_jstr_at(key, t, p1);
            assert(t.subrange(p2, p2 + mm) =~= set_mid());
            assert(matches_at(t, p2, set_mid()));
            assert(t.subrange(p3, p3 + jv) =~= jstr(value));
            lemma_parse_jstr_at(value, t, p3);
            assert(t.subrange(p4, p4 + 2) =~= obj_close());
            assert(matches_at(t, p4, obj_close()));
            assert(parse_rec(t, 0) == Some((r, p4 + 2)));
        },
        Rec::Remove { key } => {
            let t = rec_text(r);
            let ll = remove_open().len() as int;
            let jk = jstr(key).len() as int;
            let p1 = ll;
            let p2 = ll + jk;
            assert(t.len() == p2 + 2);
            assert(!matches_at(t, 0, set_open())) by {
                if matches_at(t, 0, set_open()) {
                    assert(t.subrange(0, set_open().len() as int)[2] == set_open()[2]);
                    assert(t[2] == remove_open()[2]);
                    assert(false);
                }
            }
            assert(t.subrange(0, ll) =~= remove_open());
            assert(matches_at(t, 0, remove_open()));
            assert(t.subrange(p1, p1 + jk) =~= jstr(key));
            lemma_parse_jstr_at(key, t, p1);
            assert(t.subrange(p2, p2 + 2) =~= obj_close());
            assert(matches_at(t, p2, obj_close()));
            assert(parse_rec(t, 0) == Some((r, p2 + 2)));
        },
    }
}

/// Where a text carries the text of `r` at `pos`, a record parses back to
/// exactly `r` there.
pub proof fn lemma_parse_rec_of_text(r: Rec, t: Seq<char>, pos: int)
    requires
        0 <= pos,
        pos + rec_text(r).len() <= t.len(),
        t.subrange(pos, pos + rec_text(r).len()) == rec_text(r),
    ensures
        parse_rec(t, pos) == Some((r, pos + rec_text(r).len())),
{
    lemma_parse_rec_text_self(r);
    assert(rec_text(r).subrange(0, rec_text(r).len() as int) =~= rec_text(r));
    lemma_parse_rec_local(rec_text(r), 0, t, pos);
}

/// Appends the opening of a `Set` record to `out`.
fn push_set_open(out: &mut Vec<char>)
    ensures
        final(out)@ == old(out)@ + set_open(),
{
    let ghost start = out@;
    out.push('{');
    out.push('"');
    out.push('S');
    out.push('e');
    out.push('t');
    out.push('"');
    out.push(':');
    out.push('{');
    out.push('"');
    out.push('k');
    out.push('e');
    out.push('y');
    out.push('"');
    out.push(':');
    proof {
        assert(out@ =~= start + set_open());
    }
}

/// Appends the middle of a `Set` record to `out`.
fn push_set_mid(out: &mut Vec<char>)
    ensures
        final(out)@ == old(out)@ + set_mid(),
{
    let ghost start = out@;
    out.push(',');
    out.push('"');
    out.push('v');
    out.push('a');
    out.push('l');
    out.push('u');
    out.push('e');
    out.push('"');
    out.push(':');
    proof {
        assert(out@ =~= start + set_mid());
    }
}

/// Appends the opening of a `Remove` record to `out`.
fn push_remove_open(out: &mut Vec<char>)
    ensures
        final(out)@ == old(out)@ + remove_open(),
{
    let ghost start = out@;
    out.push('{');
    out.push('"');
    out.push('R');
    out.push('e');
    out.push('m');
    out.push('o');
    out.push('v');
    out.push('e');
    out.push('"');
    out.push(':');
    out.push('{');
    out.push('"');
    out.push('k');
    out.push('e');
    out.push('y');
    out.push('"');
    out.push(':');
    proof {
        assert(out@ =~= start + remove_open());
    }
}

/// Renders `cmd` as its exact log text.
pub fn encode_command(cmd: &Command) -> (r: Vec<char>)
    ensures
        r@ == rec_text(cmd@),
{
    let mut out: Vec<char> = Vec::new();
    match cmd {
        Command::Put { key, value } => {
            push_set_open(&mut out);
            let kc = string_to_chars(key.as_str());
            push_jstr(&mut out, &kc);
            push_set_mid(&mut out);
            let vc = string_to_chars(value.as_str());
            push_jstr(&mut out, &vc);
            out.push('}');
            out.push('}');
            proof {
                assert(out@ =~= rec_text(cmd@));
            }
        },
        Command::Remove { key } => {
            push_remove_open(&mut out);
            let kc = string_to_chars(key.as_str());
            push_jstr(&mut out, &kc);
            out.push('}');
            out.push('}');
            proof {
                assert(out@ =~= rec_text(cmd@));
            }
        },
    }
    out
}

/// The characters of [`set_open`].
fn set_open_chars() -> (r: Vec<char>)
    ensures
        r@ == set_open(),
{
    let mut out: Vec<char> = Vec::new();
    push_set_open(&mut out);
    proof {
        assert(out@ =~= set_open());
    }
    out
}

/// The characters of [`set_mid`].
fn set_mid_chars() -> (r: Vec<char>)
    ensures
        r@ == set_mid(),
{
    let mut out: Vec<char> = Vec::new();
    push_set_mid(&mut out);
    proof {
        assert(out@ =~= set_mid());
    }
    out
}

/// The characters of [`remove_open`].
fn remove_open_chars() -> (r: Vec<char>)
    ensures
        r@ == remove_open(),
{
    let mut out: Vec<char> = Vec::new();
    push_remove_open(&mut out);
    proof {
        assert(out@ =~= remove_open());
    }
    out
}

/// Whether `pat` occurs in `t` at `pos`; mirrors [`matches_at`].
pub(crate) fn match_at(t: &Vec<char>, pos: usize, pat: &Vec<char>) -> (b: bool)
    ensures
        b == matches_at(t@, pos as int, pat@),
{
    let tl = t.len();
    let pl = pat.len();
    if pos > tl || tl - pos < pl {
        return false;
    }
    let ghost sub = t@.subrange(pos as int, pos as int + pat@.len() as int);
    let mut i: usize = 0;
    while i < pl
        invariant
            pos + pl <= tl,
            tl == t@.len(),
            pl == pat@.len(),
            i <= pl,
            sub == t@.subrange(pos as int, pos as int + pat@.len() as int),
            forall|j: int| 0 <= j < i ==> #[trigger] sub[j] == pat@[j],
        decreases pl - i,
    {
        if t[pos + i] != pat[i] {
            proof {
                assert(sub[i as int] == t@[pos as int + i as int]);
                assert(sub[i as int] != pat@[i as int]);
                assert(sub != pat@);
            }
            return false;
        }
        proof {
            assert(sub[i as int] == t@[pos as int + i as int]);
        }
        i = i + 1;
    }
    proof {
        assert(sub =~= pat@);
    }
    true
}

/// Parses one record at `pos`; mirrors [`parse_rec`].
pub fn parse_command(t: &Vec<char>, pos: usize) -> (r: Option<(Command, usize)>)
    requires
        pos <= t@.len(),
    ensures
        r is Some ==> parse_rec(t@, pos as int) == Some(
            (r.unwrap().0@, r.unwrap().1 as int),
        ) && pos < r.unwrap().1 <= t@.len(),
        r is None ==> parse_rec(t@, pos as int) is None,
{
    let tl = t.len();
    let so = set_open_chars();
    let ro = remove_open_chars();
    if match_at(t, pos, &so) {
        let p1 = pos + so.len();
        if p1 >= t.len() || t[p1] != '"' {
            return None;
        }
        match parse_str_body_exec(t, p1 + 1) {
            None => None,
            Some((key_chars, p2)) => {
                let sm = set_mid_chars();
                if !match_at(t, p2, &sm) {
                    return None;
                }
                let p3 = p2 + sm.len();
                if p3 >= t.len() || t[p3] != '"' {
                    return None;
                }
                match parse_str_body_exec(t, p3 + 1) {
                    None => None,
                    Some((val_chars, p4)) => {
                        if tl - p4 >= 2 && t[p4] == '}' && t[p4 + 1] == '}' {
                            proof {
                                assert(t@.subrange(p4 as int, p4 as int + 2) =~= obj_close());
                                assert(matches_at(t@, p4 as int, obj_close()));
                            }
                            let cmd = Command::Put {
                                key: chars_to_string(&key_chars),
                                value: chars_to_string(&val_chars),
                            };
                            Some((cmd, p4 + 2))
                        } else {
                            proof {
                                if matches_at(t@, p4 as int, obj_close()) {
                                    assert(t@.subrange(p4 as int, p4 as int + 2)[0]
                                        == obj_close()[0]);
                                    assert(t@.subrange(p4 as int, p4 as int + 2)[1]
                                        == obj_close()[1]);
                                    assert(t@[p4 as int] == '}' && t@[p4 as int + 1] == '}');
                                }
                            }
                            None
                        }
                    },
                }
            },
        }
    } else if match_at(t, pos, &ro) {
        let p1 = pos + ro.len();
        if p1 >= t.len() || t[p1] != '"' {
            return None;
        }
        match parse_str_body_exec(t, p1 + 1) {
            None => None,
            Some((key_chars, p2)) => {
                if tl - p2 >= 2 && t[p2] == '}' && t[p2 + 1] == '}' {
                    proof {
                        assert(t@.subrange(p2 as int, p2 as int + 2) =~= obj_close());
                        assert(matches_at(t@, p2 as int, obj_close()));
                    }
                    let cmd = Command::Remove { key: chars_to_string(&key_chars) };
                    Some((cmd, p2 + 2))
                } else {
                    proof {
                        if matches_at(t@, p2 as int, obj_close()) {
                            assert(t@.subrange(p2 as int, p2 as int + 2)[0] == obj_close()[0]);
                            assert(t@.subrange(p2 as int, p2 as int + 2)[1] == obj_close()[1]);
                            assert(t@[p2 as int] == '}' && t@[p2 as int + 1] == '}');
                        }
                    }
                    None
                }
            },
        }
    } else {
        None
    }
}

/// Where a text carries a whole chunk known to parse as one record, the same
/// record parses at that position of the larger text.
pub proof fn lemma_parse_rec_of_chunk(chunk: Seq<char>, r: Rec, t: Seq<char>, pos: int)
    requires
        parse_rec(chunk, 0) == Some((r, chunk.len() as int)),
        0 <= pos,
        pos + chunk.len() <= t.len(),
        t.subrange(pos, pos + chunk.len() as int) == chunk,
    ensures
        parse_rec(t, pos) == Some((r, pos + chunk.len())),
{
    assert(chunk.subrange(0, chunk.len() as int) =~= chunk);
    lemma_parse_rec_local(chunk, 0, t, pos);
}

} // verus!
