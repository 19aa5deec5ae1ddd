//! A parser for the wire text.
//!
//! The grammar is defined by the spec functions `parse_v`, `parse_items`,
//! `parse_members`, `parse_str` and `parse_int`; each takes the remaining
//! text and yields the parsed value together with the text left over, or
//! nothing when the text does not conform.  The grammar is JSON with
//! integral numbers: whitespace may stand between tokens, and strings may
//! use the standard escapes, surrogate pairs included.  The executable
//! functions return exactly what the spec functions say.

use vstd::prelude::*;
use crate::json::{JTree, Json, jviews, jmviews, valid_str, nat_chars, int_chars, digit_char, hex_char, esc_char, escape, ser, ser_items, ser_members, wf_tree, wf_items, wf_members};

verus! {

/// Whether the character is a decimal digit.
pub open spec fn is_digit(c: char) -> bool {
    '0' <= c && c <= '9'
}

/// Whether the character is a hexadecimal digit, of either case.
pub open spec fn is_hex(c: char) -> bool {
    ('0' <= c && c <= '9') || ('a' <= c && c <= 'f') || ('A' <= c && c <= 'F')
}

/// The value of a hexadecimal digit.
pub open spec fn hex_val(c: char) -> int {
    if '0' <= c && c <= '9' {
        c as int - 48
    } else if 'a' <= c && c <= 'f' {
        c as int - 87
    } else {
        c as int - 55
    }
}

/// Whether the character is insignificant whitespace between tokens.
pub open spec fn is_ws(c: char) -> bool {
    c == ' ' || c == '\t' || c == '\n' || c == '\r'
}

/// The text with its leading whitespace removed.
pub open spec fn skip_ws(s: Seq<char>) -> Seq<char>
    decreases s.len(),
{
    if s.len() > 0 && is_ws(s[0]) {
        skip_ws(s.skip(1))
    } else {
        s
    }
}

/// The length of the longest digit prefix of the text.
pub open spec fn digits_prefix_len(s: Seq<char>) -> int
    decreases s.len(),
{
    if s.len() == 0 || !is_digit(s[0]) {
        0
    } else {
        1 + digits_prefix_len(s.skip(1))
    }
}

/// The numeric value of a digit string.
pub open spec fn digits_val(d: Seq<char>) -> int
    decreases d.len(),
{
    if d.len() == 0 {
        0
    } else {
        digits_val(d.drop_last()) * 10 + (d.last() as int - 48)
    }
}

/// Parses an integer standing at the head of the text: an optional minus
/// sign and decimal digits, with no leading zero, and the value within the
/// machine range.
pub open spec fn parse_int(s: Seq<char>) -> Option<(JTree, Seq<char>)> {
    if s.len() == 0 {
        None
    } else {
        let neg = s[0] == '-';
        let body = if neg {
            s.skip(1)
        } else {
            s
        };
        let dl = digits_prefix_len(body);
        let d = body.take(dl);
        if dl == 0 {
            None
        } else if dl > 1 && d[0] == '0' {
            None
        } else {
            let v0 = digits_val(d);
            let v = if neg {
                -v0
            } else {
                v0
            };
            if v < i64::MIN || v > i64::MAX {
                None
            } else {
                Some((JTree::Int(v), body.skip(dl)))
            }
        }
    }
}

/// Parses a string body after the opening quote: plain characters, the
/// escapes `\"` `\\` `\/` `\b` `\f` `\n` `\r` `\t`, and `\u` with four
/// hexadecimal digits of either case — a surrogate pair standing for one
/// character — up to the closing quote.
pub open spec fn parse_str(s: Seq<char>) -> Option<(Seq<char>, Seq<char>)>
    decreases s.len(),
{
    if s.len() == 0 {
        None
    } else if s[0] == '"' {
        Some((Seq::empty(), s.skip(1)))
    } else if s[0] == '\\' {
        if s.len() < 2 {
            None
        } else if s[1] == '"' || s[1] == '\\' || s[1] == '/' {
            match parse_str(s.skip(2)) {
                Some((cs, r)) => Some((seq![s[1]] + cs, r)),
                None => None,
            }
        } else if s[1] == 'b' || s[1] == 'f' || s[1] == 'n' || s[1] == 'r' || s[1] == 't' {
            match parse_str(s.skip(2)) {
                Some((cs, r)) => Some((seq![esc_code(s[1])] + cs, r)),
                None => None,
            }
        } else if s[1] == 'u' && s.len() >= 6 && is_hex(s[2]) && is_hex(s[3]) && is_hex(s[4])
            && is_hex(s[5]) {
            let v = hex4_val(s[2], s[3], s[4], s[5]);
            if v < 0xD800 || v >= 0xE000 {
                match parse_str(s.skip(6)) {
                    Some((cs, r)) => Some((seq![(v as char)] + cs, r)),
                    None => None,
                }
            } else if v < 0xDC00 && s.len() >= 12 && s[6] == '\\' && s[7] == 'u' && is_hex(s[8])
                && is_hex(s[9]) && is_hex(s[10]) && is_hex(s[11]) {
                let lo = hex4_val(s[8], s[9], s[10], s[11]);
                if 0xDC00 <= lo < 0xE000 {
                    let c = 0x10000 + (v - 0xD800) * 0x400 + (lo - 0xDC00);
                    match parse_str(s.skip(12)) {
                        Some((cs, r)) => Some((seq![(c as char)] + cs, r)),
                        None => None,
                    }
                } else {
                    None
                }
            } else {
                None
            }
        } else {
            None
        }
    } else if (s[0] as int) >= 32 {
        match parse_str(s.skip(1)) {
            Some((cs, r)) => Some((seq![s[0]] + cs, r)),
            None => None,
        }
    } else {
        None
    }
}

/// The character named by a short escape letter.
pub open spec fn esc_code(e: char) -> char {
    if e == 'b' {
        (8 as char)
    } else if e == 'f' {
        (12 as char)
    } else if e == 'n' {
        (10 as char)
    } else if e == 'r' {
        (13 as char)
    } else {
        (9 as char)
    }
}

/// The value of four hexadecimal digits.
pub open spec fn hex4_val(a: char, b: char, c: char, d: char) -> int {
    ((hex_val(a) * 16 + hex_val(b)) * 16 + hex_val(c)) * 16 + hex_val(d)
}

/// Parses one tree value standing at the head of the text, after any
/// leading whitespace.
pub open spec fn parse_v(s: Seq<char>) -> Option<(JTree, Seq<char>)>
    decreases s.len(), 0int,
{
    let s1 = skip_ws(s);
    if s1.len() > s.len() || s1.len() == 0 {
        None
    } else {
        let c = s1[0];
        if c == 'n' {
            if s1.len() >= 4 && s1[1] == 'u' && s1[2] == 'l' && s1[3] == 'l' {
                Some((JTree::Null, s1.skip(4)))
            } else {
                None
            }
        } else if c == 't' {
            if s1.len() >= 4 && s1[1] == 'r' && s1[2] == 'u' && s1[3] == 'e' {
                Some((JTree::Bool(true), s1.skip(4)))
            } else {
                None
            }
        } else if c == 'f' {
            if s1.len() >= 5 && s1[1] == 'a' && s1[2] == 'l' && s1[3] == 's' && s1[4] == 'e' {
                Some((JTree::Bool(false), s1.skip(5)))
            } else {
                None
            }
        } else if c == '"' {
            match parse_str(s1.skip(1)) {
                Some((cs, r)) => Some((JTree::Str(cs), r)),
                None => None,
            }
        } else if c == '[' {
            let u = skip_ws(s1.skip(1));
            if u.len() >= s1.len() {
                None
            } else if u.len() >= 1 && u[0] == ']' {
                Some((JTree::Arr(Seq::empty()), u.skip(1)))
            } else {
                match parse_items(s1.skip(1)) {
                    Some((ts, r)) => Some((JTree::Arr(ts), r)),
                    None => None,
                }
            }
        } else if c == '{' {
            let u = skip_ws(s1.skip(1));
            if u.len() >= s1.len() {
                None
            } else if u.len() >= 1 && u[0] == '}' {
                Some((JTree::Obj(Seq::empty()), u.skip(1)))
            } else {
                match parse_members(s1.skip(1)) {
                    Some((ms, r)) => Some((JTree::Obj(ms), r)),
                    None => None,
                }
            }
        } else if c == '-' || is_digit(c) {
            parse_int(s1)
        } else {
            None
        }
    }
}

/// Parses the elements of a non-empty array, up to the closing bracket.
pub open spec fn parse_items(s: Seq<char>) -> Option<(Seq<JTree>, Seq<char>)>
    decreases s.len(), 1int,
{
    match parse_v(s) {
        None => None,
        Some((t, r0)) => {
            let r = skip_ws(r0);
            if r.len() > r0.len() {
                None
            } else if r.len() >= 1 && r[0] == ']' {
                Some((seq![t], r.skip(1)))
            } else if r.len() >= 1 && r[0] == ',' && r.len() < s.len() {
                match parse_items(r.skip(1)) {
                    Some((ts, r2)) => Some((seq![t] + ts, r2)),
                    None => None,
                }
            } else {
                None
            }
        },
    }
}

/// Parses the members of a non-empty object, up to the closing brace.
pub open spec fn parse_members(s: Seq<char>) -> Option<(Seq<(Seq<char>, JTree)>, Seq<char>)>
    decreases s.len(), 1int,
{
    let s1 = skip_ws(s);
    if s1.len() > s.len() || s1.len() == 0 || s1[0] != '"' {
        None
    } else {
        match parse_str(s1.skip(1)) {
            None => None,
            Some((k, r0)) => {
                let r1 = skip_ws(r0);
                if r1.len() > r0.len() {
                    None
                } else if r1.len() >= 1 && r1[0] == ':' && r1.len() < s.len() {
                    match parse_v(r1.skip(1)) {
                        None => None,
                        Some((t, q0)) => {
                            let r2 = skip_ws(q0);
                            if r2.len() > q0.len() {
                                None
                            } else if r2.len() >= 1 && r2[0] == '}' {
                                Some((seq![(k, t)], r2.skip(1)))
                            } else if r2.len() >= 1 && r2[0] == ',' && r2.len() < s.len() {
                                match parse_members(r2.skip(1)) {
                                    Some((ms, r3)) => Some((seq![(k, t)] + ms, r3)),
                                    None => None,
                                }
                            } else {
                                None
                            }
                        },
                    }
                } else {
                    None
                }
            },
        }
    }
}

/// Skipping whitespace never lengthens the text, and leaves text that does
/// not start with whitespace unchanged.
pub proof fn lemma_skip_ws_len(s: Seq<char>)
    ensures
        skip_ws(s).len() <= s.len(),
        skip_ws(s).len() == s.len() ==> skip_ws(s) == s,
    decreases s.len(),
{
    if s.len() > 0 && is_ws(s[0]) {
        lemma_skip_ws_len(s.skip(1));
    }
}

/// Powers of ten.
pub open spec fn pow10(n: nat) -> int
    decreases n,
{
    if n == 0 {
        1
    } else {
        10 * pow10((n - 1) as nat)
    }
}

/// Powers of ten grow with the exponent.
proof fn lemma_pow10_mono(a: nat, b: nat)
    requires
        a <= b,
    ensures
        1 <= pow10(a) <= pow10(b),
    decreases b,
{
    if b > 0 {
        if a == b {
            lemma_pow10_mono((a - 1) as nat, (b - 1) as nat);
        } else {
            lemma_pow10_mono(a, (b - 1) as nat);
        }
    }
}

/// The digit prefix is made of digits and ends at a non-digit.
proof fn lemma_digits_prefix_char(s: Seq<char>)
    ensures
        0 <= digits_prefix_len(s) <= s.len(),
        forall|k: int| 0 <= k < digits_prefix_len(s) ==> is_digit(#[trigger] s[k]),
        digits_prefix_len(s) == s.len() || !is_digit(s[digits_prefix_len(s)]),
    decreases s.len(),
{
    if s.len() == 0 || !is_digit(s[0]) {
    } else {
        lemma_digits_prefix_char(s.skip(1));
        assert forall|k: int| 0 <= k < digits_prefix_len(s) implies is_digit(#[trigger] s[k]) by {
            if k > 0 {
                assert(s[k] == s.skip(1)[k - 1]);
            }
        }
        if digits_prefix_len(s) < s.len() {
            assert(s[digits_prefix_len(s)] == s.skip(1)[digits_prefix_len(s.skip(1))]);
        }
    }
}

/// The value of a digit string is bounded by powers of ten.
proof fn lemma_digits_val_bounds(d: Seq<char>)
    requires
        forall|k: int| 0 <= k < d.len() ==> is_digit(#[trigger] d[k]),
    ensures
        0 <= digits_val(d) < pow10(d.len() as nat),
        d.len() >= 1 && d[0] != '0' ==> digits_val(d) >= pow10((d.len() - 1) as nat),
    decreases d.len(),
{
    if d.len() == 0 {
    } else {
        let p = d.drop_last();
        assert(forall|k: int| 0 <= k < p.len() ==> is_digit(#[trigger] p[k]));
        lemma_digits_val_bounds(p);
        assert(48 <= d.last() as int <= 57);
        if d.len() >= 2 && d[0] != '0' {
            assert(p[0] == d[0]);
        }
    }
}

/// The value of one hexadecimal digit.
fn hv(c: char) -> (r: u32)
    requires
        is_hex(c),
    ensures
        r as int == hex_val(c),
        r < 16,
{
    if '0' <= c && c <= '9' {
        (c as u32) - 48
    } else if 'a' <= c && c <= 'f' {
        (c as u32) - 87
    } else {
        (c as u32) - 55
    }
}

/// Relies on std's `char::from_u32`: it returns the character with the
/// given code point, and `None` exactly on surrogate code points and
/// values beyond the Unicode range.
pub assume_specification[ char::from_u32 ](v: u32) -> (r: Option<char>)
    ensures
        r is Some <==> (v < 0xD800 || (0xE000 <= v && v <= 0x10FFFF)),
        r is Some ==> r->0 as u32 == v,
;

/// The character with the given valid code point.
fn uchar(v: u32) -> (c: char)
    requires
        v < 0xD800 || (0xE000 <= v && v <= 0x10FFFF),
    ensures
        c as u32 == v,
{
    char::from_u32(v).unwrap()
}

/// Skips leading whitespace, returning what `skip_ws` says.
pub fn p_ws<'a>(s: &'a [char]) -> (r: &'a [char])
    ensures
        r@ == skip_ws(s@),
{
    let mut i: usize = 0;
    proof {
        assert(s@.skip(0) =~= s@);
    }
    while i < s.len() && wsc(*vstd::slice::slice_index_get(s, i))
        invariant
            0 <= i <= s@.len(),
            skip_ws(s@) == skip_ws(s@.skip(i as int)),
        decreases s@.len() - i,
    {
        proof {
            assert(s@.skip(i as int)[0] == s@[i as int]);
            assert(s@.skip(i as int).skip(1) =~= s@.skip(i as int + 1));
        }
        i = i + 1;
    }
    let r: &'a [char] = vstd::slice::slice_subrange(s, i, s.len());
    proof {
        assert(r@ =~= s@.skip(i as int));
        if i < s.len() {
            assert(!is_ws(s@.skip(i as int)[0]));
        }
    }
    r
}

/// Whether the character is insignificant whitespace.
fn wsc(c: char) -> (r: bool)
    ensures
        r == is_ws(c),
{
    c == ' ' || c == '\t' || c == '\n' || c == '\r'
}

/// Relies on std's `FromIterator` impl for `String`: collecting characters
/// yields the string of exactly those characters, in order.
#[verifier::external_body]
pub(crate) fn chars_to_string(v: &Vec<char>) -> (s: String)
    ensures
        s@ == v@,
{
    v.iter().collect()
}

/// Whether the character is a hexadecimal digit, of either case.
fn hexd(c: char) -> (r: bool)
    ensures
        r == is_hex(c),
{
    ('0' <= c && c <= '9') || ('a' <= c && c <= 'f') || ('A' <= c && c <= 'F')
}

/// Whether the character is a decimal digit.
fn digit(c: char) -> (r: bool)
    ensures
        r == is_digit(c),
{
    '0' <= c && c <= '9'
}

/// Parses an integer, returning what `parse_int` says.
fn p_int<'a>(s: &'a [char]) -> (r: Option<(Json, &'a [char])>)
    ensures
        match r {
            Some(p) => parse_int(s@) == Some((p.0@, p.1@)),
            None => parse_int(s@) is None,
        },
{
    if s.len() == 0 {
        None
    } else {
        let neg: bool = *vstd::slice::slice_index_get(s, 0) == '-';
        let body: &[char] = if neg {
            vstd::slice::slice_subrange(s, 1, s.len())
        } else {
            s
        };
        proof {
            assert(body@ =~= if neg {
                s@.skip(1)
            } else {
                s@
            });
        }
        let mut i: usize = 0;
        while i < body.len() && digit(*vstd::slice::slice_index_get(body, i))
            invariant
                0 <= i <= body@.len(),
                forall|k: int| 0 <= k < i ==> is_digit(#[trigger] body@[k]),
            decreases body@.len() - i,
        {
            i = i + 1;
        }
        proof {
            lemma_digits_prefix_char(body@);
            let n = digits_prefix_len(body@);
            if n < i {
                assert(is_digit(body@[n]));
                assert(false);
            }
            if i < n {
                assert(is_digit(body@[i as int]));
                assert(false);
            }
            assert(i as int == n);
        }
        let ghost d = body@.take(i as int);
        if i == 0 {
            None
        } else if i > 1 && *vstd::slice::slice_index_get(body, 0) == '0' {
            None
        } else if i >= 20 {
            proof {
                assert(forall|k: int| 0 <= k < d.len() ==> is_digit(#[trigger] d[k]));
                lemma_digits_val_bounds(d);
                lemma_pow10_mono(19, (d.len() - 1) as nat);
                reveal_with_fuel(pow10, 21);
                assert(pow10(19) == 10000000000000000000);
            }
            None
        } else {
            let mut acc: u64 = 0;
            let mut k: usize = 0;
            proof {
                assert(forall|j: int| 0 <= j < d.len() ==> is_digit(#[trigger] d[j]));
            }
            while k < i
                invariant
                    0 <= k <= i <= 19,
                    i <= body@.len(),
                    d == body@.take(i as int),
                    forall|j: int| 0 <= j < d.len() ==> is_digit(#[trigger] d[j]),
                    acc as int == digits_val(d.take(k as int)),
                    (acc as int) < pow10(k as nat),
                decreases i - k,
            {
                let c: char = *vstd::slice::slice_index_get(body, k);
                proof {
                    assert(d[k as int] == body@[k as int]);
                    assert(is_digit(d[k as int]));
                    let dk1 = d.take(k + 1);
                    assert(dk1.drop_last() =~= d.take(k as int));
                    assert(dk1.last() == d[k as int]);
                    assert(forall|j: int| 0 <= j < k + 1 ==> is_digit(#[trigger] dk1[j]));
                    lemma_digits_val_bounds(dk1);
                    lemma_pow10_mono((k + 1) as nat, 19);
                    reveal_with_fuel(pow10, 21);
                    assert(pow10(19) == 10000000000000000000);
                }
                acc = acc * 10 + ((c as u32) - 48) as u64;
                k = k + 1;
            }
            proof {
                assert(d.take(i as int) =~= d);
            }
            let rest: &[char] = vstd::slice::slice_subrange(body, i, body.len());
            proof {
                assert(rest@ =~= body@.skip(i as int));
            }
            if neg {
                if acc > 9223372036854775808u64 {
                    None
                } else if acc == 9223372036854775808u64 {
                    Some((Json::Int(i64::MIN), rest))
                } else {
                    Some((Json::Int(-(acc as i64)), rest))
                }
            } else {
                if acc > 9223372036854775807u64 {
                    None
                } else {
                    Some((Json::Int(acc as i64), rest))
                }
            }
        }
    }
}

/// Parses a string body, returning what `parse_str` says.
fn p_str<'a>(s: &'a [char]) -> (r: Option<(Vec<char>, &'a [char])>)
    ensures
        match r {
            Some(p) => parse_str(s@) == Some((p.0@, p.1@)),
            None => parse_str(s@) is None,
        },
    decreases s@.len(),
{
    if s.len() == 0 {
        None
    } else {
        let c0: char = *vstd::slice::slice_index_get(s, 0);
        if c0 == '"' {
            let rest: &[char] = vstd::slice::slice_subrange(s, 1, s.len());
            proof {
                assert(rest@ =~= s@.skip(1));
            }
            Some((Vec::new(), rest))
        } else if c0 == '\\' {
            if s.len() < 2 {
                None
            } else {
                let e: char = *vstd::slice::slice_index_get(s, 1);
                if e == '"' || e == '\\' || e == '/' {
                    let tail: &[char] = vstd::slice::slice_subrange(s, 2, s.len());
                    proof {
                        assert(tail@ =~= s@.skip(2));
                    }
                    match p_str(tail) {
                        Some((mut cs, rest)) => {
                            let ghost old_cs = cs@;
                            cs.insert(0, e);
                            proof {
                                assert(cs@ =~= seq![s@[1]] + old_cs);
                            }
                            Some((cs, rest))
                        },
                        None => None,
                    }
                } else if e == 'b' || e == 'f' || e == 'n' || e == 'r' || e == 't' {
                    let c: char = if e == 'b' {
                        '\u{8}'
                    } else if e == 'f' {
                        '\u{c}'
                    } else if e == 'n' {
                        '\n'
                    } else if e == 'r' {
                        '\r'
                    } else {
                        '\t'
                    };
                    let tail: &[char] = vstd::slice::slice_subrange(s, 2, s.len());
                    proof {
                        assert(tail@ =~= s@.skip(2));
                        assert(c == esc_code(s@[1]));
                    }
                    match p_str(tail) {
                        Some((mut cs, rest)) => {
                            let ghost old_cs = cs@;
                            cs.insert(0, c);
                            proof {
                                assert(cs@ =~= seq![esc_code(s@[1])] + old_cs);
                            }
                            Some((cs, rest))
                        },
                        None => None,
                    }
                } else if e == 'u' && s.len() >= 6 && hexd(*vstd::slice::slice_index_get(s, 2))
                    && hexd(*vstd::slice::slice_index_get(s, 3)) && hexd(
                    *vstd::slice::slice_index_get(s, 4),
                ) && hexd(*vstd::slice::slice_index_get(s, 5)) {
                    let v: u32 = ((hv(*vstd::slice::slice_index_get(s, 2)) * 16 + hv(
                        *vstd::slice::slice_index_get(s, 3),
                    )) * 16 + hv(*vstd::slice::slice_index_get(s, 4))) * 16 + hv(
                        *vstd::slice::slice_index_get(s, 5),
                    );
                    proof {
                        assert(v as int == hex4_val(s@[2], s@[3], s@[4], s@[5]));
                    }
                    if v < 0xD800 || v >= 0xE000 {
                        let c: char = uchar(v);
                        let tail: &[char] = vstd::slice::slice_subrange(s, 6, s.len());
                        proof {
                            assert(tail@ =~= s@.skip(6));
                            assert(c == ((v as int) as char));
                        }
                        match p_str(tail) {
                            Some((mut cs, rest)) => {
                                let ghost old_cs = cs@;
                                cs.insert(0, c);
                                proof {
                                    assert(cs@ =~= seq![c] + old_cs);
                                }
                                Some((cs, rest))
                            },
                            None => None,
                        }
                    } else if v < 0xDC00 && s.len() >= 12 && *vstd::slice::slice_index_get(s, 6)
                        == '\\' && *vstd::slice::slice_index_get(s, 7) == 'u' && hexd(
                        *vstd::slice::slice_index_get(s, 8),
                    ) && hexd(*vstd::slice::slice_index_get(s, 9)) && hexd(
                        *vstd::slice::slice_index_get(s, 10),
                    ) && hexd(*vstd::slice::slice_index_get(s, 11)) {
                        let lo: u32 = ((hv(*vstd::slice::slice_index_get(s, 8)) * 16 + hv(
                            *vstd::slice::slice_index_get(s, 9),
                        )) * 16 + hv(*vstd::slice::slice_index_get(s, 10))) * 16 + hv(
                            *vstd::slice::slice_index_get(s, 11),
                        );
                        proof {
                            assert(lo as int == hex4_val(s@[8], s@[9], s@[10], s@[11]));
                        }
                        if 0xDC00 <= lo && lo < 0xE000 {
                            let w: u32 = 0x10000 + (v - 0xD800) * 0x400 + (lo - 0xDC00);
                            let c: char = uchar(w);
                            let tail: &[char] = vstd::slice::slice_subrange(s, 12, s.len());
                            proof {
                                assert(tail@ =~= s@.skip(12));
                                assert(c == ((w as int) as char));
                            }
                            match p_str(tail) {
                                Some((mut cs, rest)) => {
                                    let ghost old_cs = cs@;
                                    cs.insert(0, c);
                                    proof {
                                        assert(cs@ =~= seq![c] + old_cs);
                                    }
                                    Some((cs, rest))
                                },
                                None => None,
                            }
                        } else {
                            None
                        }
                    } else {
                        None
                    }
                } else {
                    None
                }
            }
        } else if c0 >= ' ' {
            let tail: &[char] = vstd::slice::slice_subrange(s, 1, s.len());
            proof {
                assert(tail@ =~= s@.skip(1));
            }
            match p_str(tail) {
                Some((mut cs, rest)) => {
                    let ghost old_cs = cs@;
                    cs.insert(0, c0);
                    proof {
                        assert(cs@ =~= seq![s@[0]] + old_cs);
                    }
                    Some((cs, rest))
                },
                None => None,
            }
        } else {
            None
        }
    }
}

/// Parses one value, returning what `parse_v` says.
pub fn p_value<'a>(s: &'a [char]) -> (r: Option<(Json, &'a [char])>)
    ensures
        match r {
            Some(p) => parse_v(s@) == Some((p.0@, p.1@)),
            None => parse_v(s@) is None,
        },
    decreases s@.len(), 0int,
{
    let s1: &[char] = p_ws(s);
    proof {
        lemma_skip_ws_len(s@);
    }
    if s1.len() == 0 {
        None
    } else {
        let c: char = *vstd::slice::slice_index_get(s1, 0);
        if c == 'n' {
            if s1.len() >= 4 && *vstd::slice::slice_index_get(s1, 1) == 'u'
                && *vstd::slice::slice_index_get(s1, 2) == 'l' && *vstd::slice::slice_index_get(
                s1,
                3,
            ) == 'l' {
                let rest: &[char] = vstd::slice::slice_subrange(s1, 4, s1.len());
                proof {
                    assert(rest@ =~= skip_ws(s@).skip(4));
                }
                Some((Json::Null, rest))
            } else {
                None
            }
        } else if c == 't' {
            if s1.len() >= 4 && *vstd::slice::slice_index_get(s1, 1) == 'r'
                && *vstd::slice::slice_index_get(s1, 2) == 'u' && *vstd::slice::slice_index_get(
                s1,
                3,
            ) == 'e' {
                let rest: &[char] = vstd::slice::slice_subrange(s1, 4, s1.len());
                proof {
                    assert(rest@ =~= skip_ws(s@).skip(4));
                }
                Some((Json::Bool(true), rest))
            } else {
                None
            }
        } else if c == 'f' {
            if s1.len() >= 5 && *vstd::slice::slice_index_get(s1, 1) == 'a'
                && *vstd::slice::slice_index_get(s1, 2) == 'l' && *vstd::slice::slice_index_get(
                s1,
                3,
            ) == 's' && *vstd::slice::slice_index_get(s1, 4) == 'e' {
                let rest: &[char] = vstd::slice::slice_subrange(s1, 5, s1.len());
                proof {
                    assert(rest@ =~= skip_ws(s@).skip(5));
                }
                Some((Json::Bool(false), rest))
            } else {
                None
            }
        } else if c == '"' {
            let tail: &[char] = vstd::slice::slice_subrange(s1, 1, s1.len());
            proof {
                assert(tail@ =~= skip_ws(s@).skip(1));
            }
            match p_str(tail) {
                Some((cs, rest)) => Some((Json::Str(chars_to_string(&cs)), rest)),
                None => None,
            }
        } else if c == '[' {
            let body: &[char] = vstd::slice::slice_subrange(s1, 1, s1.len());
            proof {
                assert(body@ =~= skip_ws(s@).skip(1));
            }
            let u: &[char] = p_ws(body);
            proof {
                lemma_skip_ws_len(body@);
            }
            if u.len() >= 1 && *vstd::slice::slice_index_get(u, 0) == ']' {
                let rest: &[char] = vstd::slice::slice_subrange(u, 1, u.len());
                let a = Json::Arr(Vec::new());
                proof {
                    assert(rest@ =~= u@.skip(1));
                    assert(a@->Arr_0 =~= Seq::<JTree>::empty());
                }
                Some((a, rest))
            } else {
                match p_items(body) {
                    Some((ts, rest)) => {
                        let a = Json::Arr(ts);
                        proof {
                            assert(a@->Arr_0 =~= jviews(a->Arr_0@));
                        }
                        Some((a, rest))
                    },
                    None => None,
                }
            }
        } else if c == '{' {
            let body: &[char] = vstd::slice::slice_subrange(s1, 1, s1.len());
            proof {
                assert(body@ =~= skip_ws(s@).skip(1));
            }
            let u: &[char] = p_ws(body);
            proof {
                lemma_skip_ws_len(body@);
            }
            if u.len() >= 1 && *vstd::slice::slice_index_get(u, 0) == '}' {
                let rest: &[char] = vstd::slice::slice_subrange(u, 1, u.len());
                let a = Json::Obj(Vec::new());
                proof {
                    assert(rest@ =~= u@.skip(1));
                    assert(a@->Obj_0 =~= Seq::<(Seq<char>, JTree)>::empty());
                }
                Some((a, rest))
            } else {
                match p_members(body) {
                    Some((ms, rest)) => {
                        let a = Json::Obj(ms);
                        proof {
                            assert(a@->Obj_0 =~= jmviews(a->Obj_0@));
                        }
                        Some((a, rest))
                    },
                    None => None,
                }
            }
        } else if c == '-' || ('0' <= c && c <= '9') {
            p_int(s1)
        } else {
            None
        }
    }
}

/// Parses array elements, returning what `parse_items` says.
fn p_items<'a>(s: &'a [char]) -> (r: Option<(Vec<Json>, &'a [char])>)
    ensures
        match r {
            Some(p) => parse_items(s@) == Some((jviews(p.0@), p.1@)),
            None => parse_items(s@) is None,
        },
    decreases s@.len(), 1int,
{
    match p_value(s) {
        None => None,
        Some((t, r0)) => {
            let r1: &[char] = p_ws(r0);
            proof {
                lemma_skip_ws_len(r0@);
            }
            if r1.len() >= 1 && *vstd::slice::slice_index_get(r1, 0) == ']' {
                let rest: &[char] = vstd::slice::slice_subrange(r1, 1, r1.len());
                let mut ts: Vec<Json> = Vec::new();
                ts.push(t);
                proof {
                    assert(rest@ =~= r1@.skip(1));
                    assert(jviews(ts@) =~= seq![ts@[0]@]);
                }
                Some((ts, rest))
            } else if r1.len() >= 1 && *vstd::slice::slice_index_get(r1, 0) == ','
                && r1.len() < s.len() {
                let tail: &[char] = vstd::slice::slice_subrange(r1, 1, r1.len());
                proof {
                    assert(tail@ =~= r1@.skip(1));
                }
                match p_items(tail) {
                    Some((mut ts, rest)) => {
                        let ghost old_ts = ts@;
                        ts.insert(0, t);
                        proof {
                            assert(jviews(ts@) =~= seq![ts@[0]@] + jviews(old_ts));
                        }
                        Some((ts, rest))
                    },
                    None => None,
                }
            } else {
                None
            }
        },
    }
}

/// Parses object members, returning what `parse_members` says.
fn p_members<'a>(s: &'a [char]) -> (r: Option<(Vec<(String, Json)>, &'a [char])>)
    ensures
        match r {
            Some(p) => parse_members(s@) == Some((jmviews(p.0@), p.1@)),
            None => parse_members(s@) is None,
        },
    decreases s@.len(), 1int,
{
    let s1: &[char] = p_ws(s);
    proof {
        lemma_skip_ws_len(s@);
    }
    if s1.len() == 0 || *vstd::slice::slice_index_get(s1, 0) != '"' {
        None
    } else {
        let tail: &[char] = vstd::slice::slice_subrange(s1, 1, s1.len());
        proof {
            assert(tail@ =~= skip_ws(s@).skip(1));
        }
        match p_str(tail) {
            None => None,
            Some((kcs, r0)) => {
                let r1: &[char] = p_ws(r0);
                proof {
                    lemma_skip_ws_len(r0@);
                }
                if r1.len() >= 1 && *vstd::slice::slice_index_get(r1, 0) == ':' && r1.len()
                    < s.len() {
                    let vtail: &[char] = vstd::slice::slice_subrange(r1, 1, r1.len());
                    proof {
                        assert(vtail@ =~= r1@.skip(1));
                    }
                    match p_value(vtail) {
                        None => None,
                        Some((t, q0)) => {
                            let key: String = chars_to_string(&kcs);
                            let r2: &[char] = p_ws(q0);
                            proof {
                                lemma_skip_ws_len(q0@);
                            }
                            if r2.len() >= 1 && *vstd::slice::slice_index_get(r2, 0) == '}' {
                                let rest: &[char] = vstd::slice::slice_subrange(r2, 1, r2.len());
                                let mut ms: Vec<(String, Json)> = Vec::new();
                                ms.push((key, t));
                                proof {
                                    assert(rest@ =~= r2@.skip(1));
                                    assert(jmviews(ms@) =~= seq![(ms@[0].0@, ms@[0].1@)]);
                                }
                                Some((ms, rest))
                            } else if r2.len() >= 1 && *vstd::slice::slice_index_get(r2, 0) == ','
                                && r2.len() < s.len() {
                                let mtail: &[char] = vstd::slice::slice_subrange(r2, 1, r2.len());
                                proof {
                                    assert(mtail@ =~= r2@.skip(1));
                                }
                                match p_members(mtail) {
                                    Some((mut ms, rest)) => {
                                        let ghost old_ms = ms@;
                                        ms.insert(0, (key, t));
                                        proof {
                                            assert(jmviews(ms@) =~= seq![(ms@[0].0@, ms@[0].1@)]
                                                + jmviews(old_ms));
                                        }
                                        Some((ms, rest))
                                    },
                                    None => None,
                                }
                            } else {
                                None
                            }
                        },
                    }
                } else {
                    None
                }
            },
        }
    }
}

/// The decimal rendering of a non-negative integer is made of digits,
/// starts with a non-zero digit unless the value is zero, and evaluates
/// back to the value.
proof fn lemma_nat_chars(n: int)
    requires
        n >= 0,
    ensures
        nat_chars(n).len() >= 1,
        forall|k: int| 0 <= k < nat_chars(n).len() ==> is_digit(#[trigger] nat_chars(n)[k]),
        n >= 1 ==> nat_chars(n)[0] != '0',
        n == 0 ==> nat_chars(n) == seq!['0'],
        digits_val(nat_chars(n)) == n,
    decreases n,
{
    if n < 10 {
        assert(nat_chars(n) == seq![digit_char(n)]);
        assert(is_digit(digit_char(n)));
        assert(nat_chars(n).drop_last() =~= Seq::<char>::empty());
        assert(digits_val(Seq::<char>::empty()) == 0);
        assert(digits_val(nat_chars(n)) == digit_char(n) as int - 48);
        assert(digit_char(n) as int == 48 + n);
    } else {
        lemma_nat_chars(n / 10);
        let p = nat_chars(n / 10);
        assert(nat_chars(n) == p.push(digit_char(n % 10)));
        assert(forall|k: int|
            0 <= k < p.len() ==> #[trigger] nat_chars(n)[k] == p[k]);
        assert(nat_chars(n)[p.len() as int] == digit_char(n % 10));
        assert(is_digit(digit_char(n % 10)));
        assert(nat_chars(n)[0] == p[0]);
        assert(nat_chars(n).drop_last() =~= p);
        assert(nat_chars(n).last() == digit_char(n % 10));
        assert(digit_char(n % 10) as int == 48 + n % 10);
        assert(digits_val(nat_chars(n)) == (n / 10) * 10 + n % 10);
    }
}

/// The longest digit prefix of a digit string followed by a non-digit is
/// the digit string itself.
proof fn lemma_digits_prefix_concat(d: Seq<char>, rest: Seq<char>)
    requires
        d.len() >= 1,
        forall|k: int| 0 <= k < d.len() ==> is_digit(#[trigger] d[k]),
        rest.len() == 0 || !is_digit(rest[0]),
    ensures
        digits_prefix_len(d + rest) == d.len(),
        (d + rest).take(d.len() as int) == d,
        (d + rest).skip(d.len() as int) == rest,
{
    let s = d + rest;
    lemma_digits_prefix_char(s);
    let n = digits_prefix_len(s);
    assert(forall|k: int| 0 <= k < d.len() ==> s[k] == d[k]);
    if n < d.len() {
        assert(is_digit(s[n]));
        assert(!is_digit(s[n]));
    }
    if n > d.len() {
        assert(is_digit(s[d.len() as int]));
        assert(s[d.len() as int] == rest[0]);
        assert(false);
    }
    assert(n == d.len());
    assert(s.take(d.len() as int) =~= d);
    assert(s.skip(d.len() as int) =~= rest);
}

/// Parsing the decimal rendering of a machine integer recovers the value.
proof fn lemma_parse_int_complete(v: int, rest: Seq<char>)
    requires
        i64::MIN <= v <= i64::MAX,
        rest.len() == 0 || !is_digit(rest[0]),
    ensures
        parse_int(int_chars(v) + rest) == Some((JTree::Int(v), rest)),
{
    if v >= 0 {
        let d = nat_chars(v);
        lemma_nat_chars(v);
        let s = int_chars(v) + rest;
        assert(s =~= d + rest);
        assert(s[0] == d[0]);
        assert(is_digit(d[0]));
        assert(s[0] != '-');
        lemma_digits_prefix_concat(d, rest);
        assert(digits_prefix_len(s) == d.len());
        assert(s.take(d.len() as int) == d);
        if v == 0 {
            assert(d == seq!['0']);
            assert(d.len() == 1);
        } else {
            assert(d[0] != '0');
        }
        assert(digits_val(d) == v);
        assert(s.skip(d.len() as int) == rest);
    } else {
        let m = -v;
        let d = nat_chars(m);
        lemma_nat_chars(m);
        let s = int_chars(v) + rest;
        assert(int_chars(v) == seq!['-'] + d);
        assert(s =~= seq!['-'] + (d + rest));
        assert(s[0] == '-');
        assert(s.skip(1) =~= d + rest);
        lemma_digits_prefix_concat(d, rest);
        let body = s.skip(1);
        assert(digits_prefix_len(body) == d.len());
        assert(body.take(d.len() as int) == d);
        assert(m >= 1);
        assert(d[0] != '0');
        assert(digits_val(d) == m);
        assert(body.skip(d.len() as int) == rest);
    }
}

/// Parsing the escaped rendering of a string body, up to the closing
/// quote, recovers the characters.
proof fn lemma_parse_str_complete(t: Seq<char>, rest: Seq<char>)
    requires
        valid_str(t),
    ensures
        parse_str(escape(t) + seq!['"'] + rest) == Some((t, rest)),
    decreases t.len(),
{
    let s = escape(t) + seq!['"'] + rest;
    if t.len() == 0 {
        assert(escape(t) =~= Seq::<char>::empty());
        assert(s =~= seq!['"'] + rest);
        assert(s[0] == '"');
        assert(s.skip(1) =~= rest);
    } else {
        let c = t[0];
        let t1 = t.skip(1);
        assert(valid_str(t1)) by {
            assert(forall|i: int| 0 <= i < t1.len() ==> #[trigger] t1[i] == t[i + 1]);
        }
        let s1 = escape(t1) + seq!['"'] + rest;
        lemma_parse_str_complete(t1, rest);
        assert(escape(t) == esc_char(c) + escape(t1));
        if c == '"' {
            assert(s =~= seq!['\\', '"'] + s1);
            assert(s[0] == '\\' && s[1] == '"');
            assert(s.len() >= 2);
            assert(s.skip(2) =~= s1);
            assert(seq![s[1]] + t1 =~= t);
        } else if c == '\\' {
            assert(s =~= seq!['\\', '\\'] + s1);
            assert(s[0] == '\\' && s[1] == '\\');
            assert(s.skip(2) =~= s1);
            assert(seq![s[1]] + t1 =~= t);
        } else if (c as int) < 32 {
            let ci = c as int;
            assert(0 <= c as int);
            let h1 = hex_char(ci / 16);
            let h2 = hex_char(ci % 16);
            assert(esc_char(c) == seq!['\\', 'u', '0', '0', h1, h2]);
            assert(s =~= seq!['\\', 'u', '0', '0', h1, h2] + s1);
            assert(s[0] == '\\' && s[1] == 'u' && s[2] == '0' && s[3] == '0');
            assert(s[4] == h1 && s[5] == h2);
            assert(s.len() >= 6);
            assert(0 <= ci);
            assert(0 <= ci / 16 < 2);
            assert(0 <= ci % 16 < 16);
            assert(h1 as int == 48 + ci / 16);
            assert(is_hex(h1));
            assert(hex_val(h1) == ci / 16);
            if ci % 16 < 10 {
                assert(h2 as int == 48 + ci % 16);
            } else {
                assert(h2 as int == 87 + ci % 16);
            }
            assert(is_hex(h2));
            assert(hex_val(h2) == ci % 16);
            assert(is_hex('0') && hex_val('0') == 0);
            assert(hex4_val(s[2], s[3], s[4], s[5]) == ci);
            assert(ci < 0xD800);
            assert(s[1] != '"' && s[1] != '\\' && s[1] != '/');
            assert(s[1] != 'b' && s[1] != 'f' && s[1] != 'n' && s[1] != 'r' && s[1] != 't');
            assert(s.skip(6) =~= s1);
            assert(((ci) as char) == c);
            assert(seq![c] + t1 =~= t);
        } else {
            assert(esc_char(c) == seq![c]);
            assert(s =~= seq![c] + s1);
            assert(s[0] == c);
            assert(c != '"' && c != '\\' && (c as int) >= 32);
            assert(s.skip(1) =~= s1);
            assert(seq![c] + t1 =~= t);
        }
    }
}

/// The canonical text of a tree is never empty, and its first character
/// marks the kind of the tree.
proof fn lemma_ser_first(t: JTree)
    ensures
        ser(t).len() >= 1,
        t is Null ==> ser(t)[0] == 'n',
        t is Bool ==> ser(t)[0] == 't' || ser(t)[0] == 'f',
        t is Int ==> ser(t)[0] == '-' || is_digit(ser(t)[0]),
        t is Str ==> ser(t)[0] == '"',
        t is Arr ==> ser(t)[0] == '[',
        t is Obj ==> ser(t)[0] == '{',
{
    match t {
        JTree::Int(i) => {
            if i < 0 {
                assert(ser(t)[0] == '-');
            } else {
                lemma_nat_chars(i);
                assert(ser(t) == nat_chars(i));
                assert(is_digit(ser(t)[0]));
            }
        },
        _ => {},
    }
}

/// Parsing the canonical text of a well-formed tree, followed by anything
/// that cannot extend a number, recovers the tree.
#[verifier::rlimit(100)]
pub proof fn lemma_parse_complete(t: JTree, rest: Seq<char>)
    requires
        wf_tree(t),
        rest.len() == 0 || !is_digit(rest[0]),
    ensures
        parse_v(ser(t) + rest) == Some((t, rest)),
    decreases t, 0int,
{
    let s = ser(t) + rest;
    lemma_ser_first(t);
    assert(s[0] == ser(t)[0]);
    assert(!is_ws(s[0]));
    assert(skip_ws(s) == s);
    match t {
        JTree::Null => {
            assert(s =~= seq!['n', 'u', 'l', 'l'] + rest);
            assert(s[0] == 'n' && s[1] == 'u' && s[2] == 'l' && s[3] == 'l');
            assert(s.skip(4) =~= rest);
            assert(parse_v(s) == Some((t, rest)));
        },
        JTree::Bool(b) => {
            if b {
                assert(s =~= seq!['t', 'r', 'u', 'e'] + rest);
                assert(s[0] == 't' && s[1] == 'r' && s[2] == 'u' && s[3] == 'e');
                assert(s.skip(4) =~= rest);
            } else {
                assert(s =~= seq!['f', 'a', 'l', 's', 'e'] + rest);
                assert(s[0] == 'f' && s[1] == 'a' && s[2] == 'l' && s[3] == 's' && s[4] == 'e');
                assert(s.skip(5) =~= rest);
            }
            assert(parse_v(s) == Some((t, rest)));
        },
        JTree::Int(i) => {
            lemma_parse_int_complete(i, rest);
            assert(s[0] == '-' || is_digit(s[0]));
            assert(s[0] != 'n' && s[0] != 't' && s[0] != 'f' && s[0] != '"' && s[0] != '['
                && s[0] != '{');
            assert(parse_v(s) == Some((t, rest)));
        },
        JTree::Str(cs) => {
            assert(ser(t) == seq!['"'] + escape(cs) + seq!['"']);
            assert(s[0] == '"');
            lemma_parse_str_complete(cs, rest);
            assert(s.skip(1) =~= escape(cs) + seq!['"'] + rest);
            assert(parse_v(s) == Some((t, rest)));
        },
        JTree::Arr(ts) => {
            lemma_parse_complete_arr(ts, rest);
        },
        JTree::Obj(ms) => {
            lemma_parse_complete_obj(ms, rest);
        },
    }
}

/// Parsing the canonical text of a well-formed array recovers the array.
#[verifier::rlimit(100)]
proof fn lemma_parse_complete_arr(ts: Seq<JTree>, rest: Seq<char>)
    requires
        wf_items(ts),
        rest.len() == 0 || !is_digit(rest[0]),
    ensures
        parse_v(ser(JTree::Arr(ts)) + rest) == Some((JTree::Arr(ts), rest)),
    decreases ts, 2int,
{
    let t = JTree::Arr(ts);
    let s = ser(t) + rest;
    lemma_ser_first(t);
    assert(s[0] == ser(t)[0]);
    assert(!is_ws(s[0]));
    assert(skip_ws(s) == s);

    assert(ser(t) == seq!['['] + ser_items(ts) + seq![']']);
    assert(s[0] == '[');
    if ts.len() == 0 {
        assert(ser_items(ts) =~= Seq::<char>::empty());
        assert(s =~= seq!['[', ']'] + rest);
        assert(s[1] == ']');
        assert(s.skip(1)[0] == ']');
        assert(skip_ws(s.skip(1)) == s.skip(1));
        assert(s.skip(1).skip(1) =~= s.skip(2));
        assert(s.skip(2) =~= rest);
        assert(ts =~= Seq::<JTree>::empty());
    } else {
        lemma_ser_first(ts[0]);
        assert(ser_items(ts)[0] == ser(ts[0])[0]);
        assert(s[1] == ser(ts[0])[0]);
        assert(!is_ws(s[1]));
        assert(s.skip(1)[0] == s[1]);
        assert(skip_ws(s.skip(1)) == s.skip(1));
        assert(s[1] != ']');
        assert(s.skip(1) =~= ser_items(ts) + seq![']'] + rest);
        lemma_parse_items_complete(ts, rest);
    }
    assert(parse_v(s) == Some((t, rest)));
}

/// Parsing the canonical text of a well-formed object recovers the object.
#[verifier::rlimit(100)]
proof fn lemma_parse_complete_obj(ms: Seq<(Seq<char>, JTree)>, rest: Seq<char>)
    requires
        wf_members(ms),
        rest.len() == 0 || !is_digit(rest[0]),
    ensures
        parse_v(ser(JTree::Obj(ms)) + rest) == Some((JTree::Obj(ms), rest)),
    decreases ms, 2int,
{
    let t = JTree::Obj(ms);
    let s = ser(t) + rest;
    lemma_ser_first(t);
    assert(s[0] == ser(t)[0]);
    assert(!is_ws(s[0]));
    assert(skip_ws(s) == s);

    assert(ser(t) == seq!['{'] + ser_members(ms) + seq!['}']);
    assert(s[0] == '{');
    if ms.len() == 0 {
        assert(ser_members(ms) =~= Seq::<char>::empty());
        assert(s =~= seq!['{', '}'] + rest);
        assert(s[1] == '}');
        assert(s.skip(1)[0] == '}');
        assert(skip_ws(s.skip(1)) == s.skip(1));
        assert(s.skip(1).skip(1) =~= s.skip(2));
        assert(s.skip(2) =~= rest);
        assert(ms =~= Seq::<(Seq<char>, JTree)>::empty());
    } else {
        assert(ser_members(ms)[0] == '"');
        assert(s[1] == '"');
        assert(s.skip(1)[0] == '"');
        assert(skip_ws(s.skip(1)) == s.skip(1));
        assert(s[1] != '}');
        assert(s.skip(1) =~= ser_members(ms) + seq!['}'] + rest);
        lemma_parse_members_complete(ms, rest);
    }
    assert(parse_v(s) == Some((t, rest)));
}

/// Parsing the canonical text of non-empty array elements, up to the
/// closing bracket, recovers the elements.
#[verifier::rlimit(80)]
proof fn lemma_parse_items_complete(ts: Seq<JTree>, rest: Seq<char>)
    requires
        ts.len() >= 1,
        wf_items(ts),
        rest.len() == 0 || !is_digit(rest[0]),
    ensures
        parse_items(ser_items(ts) + seq![']'] + rest) == Some((ts, rest)),
    decreases ts, 1int,
{
    let s = ser_items(ts) + seq![']'] + rest;
    lemma_ser_first(ts[0]);
    if ts.len() == 1 {
        assert(ser_items(ts) == ser(ts[0]));
        let tail = seq![']'] + rest;
        assert(s =~= ser(ts[0]) + tail);
        assert(tail[0] == ']');
        assert(!is_digit(']'));
        lemma_parse_complete(ts[0], tail);
        assert(parse_v(s) == Some((ts[0], tail)));
        assert(skip_ws(tail) == tail);
        assert(tail.skip(1) =~= rest);
        assert(seq![ts[0]] =~= ts);
    } else {
        let ts1 = ts.skip(1);
        assert(ser_items(ts) == ser(ts[0]) + seq![','] + ser_items(ts1));
        let tail = seq![','] + (ser_items(ts1) + seq![']'] + rest);
        assert(s =~= ser(ts[0]) + tail);
        assert(tail[0] == ',');
        assert(!is_digit(','));
        lemma_parse_complete(ts[0], tail);
        assert(parse_v(s) == Some((ts[0], tail)));
        assert(skip_ws(tail) == tail);
        assert(tail[0] != ']');
        assert(ser(ts[0]).len() >= 1);
        assert(tail.len() < s.len());
        assert(tail.skip(1) =~= ser_items(ts1) + seq![']'] + rest);
        assert forall|k: int| 0 <= k < ts1.len() implies wf_tree(#[trigger] ts1[k]) by {
            assert(ts1[k] == ts[k + 1]);
            assert(wf_tree(ts[k + 1]));
        }
        assert(wf_items(ts1));
        lemma_parse_items_complete(ts1, rest);
        assert(seq![ts[0]] + ts1 =~= ts);
    }
}

/// Parsing the canonical text of non-empty object members, up to the
/// closing brace, recovers the members.
#[verifier::rlimit(100)]
proof fn lemma_parse_members_complete(ms: Seq<(Seq<char>, JTree)>, rest: Seq<char>)
    requires
        ms.len() >= 1,
        wf_members(ms),
        rest.len() == 0 || !is_digit(rest[0]),
    ensures
        parse_members(ser_members(ms) + seq!['}'] + rest) == Some((ms, rest)),
    decreases ms, 1int,
{
    let s = ser_members(ms) + seq!['}'] + rest;
    let k0 = ms[0].0;
    let v0 = ms[0].1;
    let head = seq!['"'] + escape(k0) + seq!['"', ':'] + ser(v0);
    if ms.len() == 1 {
        assert(ser_members(ms) == head);
        let vtail = seq!['}'] + rest;
        assert(s[0] == '"');
        assert(skip_ws(s) == s);
        assert(s.skip(1) =~= escape(k0) + seq!['"'] + (seq![':'] + ser(v0) + vtail));
        lemma_parse_str_complete(k0, seq![':'] + ser(v0) + vtail);
        let r1 = seq![':'] + ser(v0) + vtail;
        assert(parse_str(s.skip(1)) == Some((k0, r1)));
        assert(skip_ws(r1) == r1);
        assert(r1[0] == ':');
        assert(r1.len() < s.len());
        assert(r1.skip(1) =~= ser(v0) + vtail);
        assert(vtail[0] == '}');
        assert(!is_digit('}'));
        lemma_parse_complete(v0, vtail);
        assert(parse_v(r1.skip(1)) == Some((v0, vtail)));
        assert(skip_ws(vtail) == vtail);
        assert(vtail.skip(1) =~= rest);
        assert(seq![(k0, v0)] =~= ms);
    } else {
        let ms1 = ms.skip(1);
        assert(ser_members(ms) == head + seq![','] + ser_members(ms1));
        let mtail = seq![','] + (ser_members(ms1) + seq!['}'] + rest);
        assert(s[0] == '"');
        assert(skip_ws(s) == s);
        assert(s.skip(1) =~= escape(k0) + seq!['"'] + (seq![':'] + ser(v0) + mtail));
        lemma_parse_str_complete(k0, seq![':'] + ser(v0) + mtail);
        let r1 = seq![':'] + ser(v0) + mtail;
        assert(parse_str(s.skip(1)) == Some((k0, r1)));
        assert(skip_ws(r1) == r1);
        assert(r1[0] == ':');
        assert(r1.len() < s.len());
        assert(r1.skip(1) =~= ser(v0) + mtail);
        assert(mtail[0] == ',');
        assert(!is_digit(','));
        lemma_parse_complete(v0, mtail);
        assert(parse_v(r1.skip(1)) == Some((v0, mtail)));
        assert(skip_ws(mtail) == mtail);
        assert(mtail[0] != '}');
        assert(mtail.len() < s.len());
        assert(mtail.skip(1) =~= ser_members(ms1) + seq!['}'] + rest);
        assert forall|k: int|
            0 <= k < ms1.len() implies wf_tree(#[trigger] ms1[k].1) && valid_str(ms1[k].0) by {
            assert(ms1[k] == ms[k + 1]);
            assert(wf_tree(ms[k + 1].1) && valid_str(ms[k + 1].0));
        }
        assert(wf_members(ms1));
        lemma_parse_members_complete(ms1, rest);
        assert(parse_members(mtail.skip(1)) == Some((ms1, rest)));
        assert(seq![(k0, v0)] + ms1 =~= ms);
    }
}

} // verus!
