//! A generic structured-data tree (a JSON document) and its canonical
//! rendering.
//!
//! `Json` is the executable tree; `JTree` is its mathematical model.  The
//! spec function `ser` gives the canonical text of a tree, the one the
//! encoder writes: no whitespace between tokens, integers in plain
//! decimal, and strings escaping only the quote, the backslash and control
//! characters.  The parser accepts more than this canonical form.

use vstd::prelude::*;

verus! {

/// One node of a structured-data tree.
#[derive(Debug)]
pub enum Json {
    Null,
    Bool(bool),
    Int(i64),
    Str(String),
    Arr(Vec<Json>),
    Obj(Vec<(String, Json)>),
}

/// The mathematical model of a tree node.
#[verifier::ext_equal]
pub ghost enum JTree {
    Null,
    Bool(bool),
    Int(int),
    Str(Seq<char>),
    Arr(Seq<JTree>),
    Obj(Seq<(Seq<char>, JTree)>),
}

impl Json {
    /// The model of this node.
    pub open spec fn view(self) -> JTree
        decreases self,
    {
        match self {
            Json::Null => JTree::Null,
            Json::Bool(b) => JTree::Bool(b),
            Json::Int(i) => JTree::Int(i as int),
            Json::Str(s) => JTree::Str(s@),
            Json::Arr(v) => JTree::Arr(
                Seq::new(
                    v@.len(),
                    |i: int|
                        if 0 <= i < v@.len() {
                            v@[i].view()
                        } else {
                            JTree::Null
                        },
                ),
            ),
            Json::Obj(v) => JTree::Obj(
                Seq::new(
                    v@.len(),
                    |i: int|
                        if 0 <= i < v@.len() {
                            (v@[i].0@, v@[i].1.view())
                        } else {
                            (Seq::empty(), JTree::Null)
                        },
                ),
            ),
        }
    }
}

/// Strings whose characters all have non-negative code points, as every
/// character taken from a real string does.
pub open spec fn valid_str(s: Seq<char>) -> bool {
    forall|i: int| 0 <= i < s.len() ==> 0 <= #[trigger] s[i] as int
}

/// Trees whose integers fit the machine representation and whose strings
/// hold real characters.
pub open spec fn wf_tree(t: JTree) -> bool
    decreases t, 0int,
{
    match t {
        JTree::Int(i) => i64::MIN <= i <= i64::MAX,
        JTree::Str(s) => valid_str(s),
        JTree::Arr(ts) => wf_items(ts),
        JTree::Obj(ms) => wf_members(ms),
        _ => true,
    }
}

/// Well-formed array elements.
pub open spec fn wf_items(ts: Seq<JTree>) -> bool
    decreases ts, 1int,
{
    forall|k: int| 0 <= k < ts.len() ==> wf_tree(#[trigger] ts[k])
}

/// Well-formed object members.
pub open spec fn wf_members(ms: Seq<(Seq<char>, JTree)>) -> bool
    decreases ms, 1int,
{
    forall|k: int| 0 <= k < ms.len() ==> wf_tree(#[trigger] ms[k].1) && valid_str(ms[k].0)
}

/// The decimal digit for a value below ten.
pub open spec fn digit_char(n: int) -> char {
    (48 + n) as char
}

/// The lower-case hexadecimal digit for a value below sixteen.
pub open spec fn hex_char(n: int) -> char {
    if n < 10 {
        (48 + n) as char
    } else {
        (87 + n) as char
    }
}

/// The decimal digits of a non-negative integer, most significant first.
pub open spec fn nat_chars(n: int) -> Seq<char>
    decreases n,
{
    if n < 10 {
        seq![digit_char(n)]
    } else {
        nat_chars(n / 10).push(digit_char(n % 10))
    }
}

/// The decimal rendering of an integer.
pub open spec fn int_chars(i: int) -> Seq<char> {
    if i < 0 {
        seq!['-'] + nat_chars(-i)
    } else {
        nat_chars(i)
    }
}

/// The canonical rendering of one string character: quote and backslash are
/// escaped, control characters become `\u00..` with lower-case digits, and
/// every other character stands for itself.
pub open spec fn esc_char(c: char) -> Seq<char> {
    if c == '"' {
        seq!['\\', '"']
    } else if c == '\\' {
        seq!['\\', '\\']
    } else if (c as int) < 32 {
        seq!['\\', 'u', '0', '0', hex_char((c as int) / 16), hex_char((c as int) % 16)]
    } else {
        seq![c]
    }
}

/// The canonical rendering of a string body (without the quotes).
pub open spec fn escape(s: Seq<char>) -> Seq<char>
    decreases s.len(),
{
    if s.len() == 0 {
        Seq::empty()
    } else {
        esc_char(s[0]) + escape(s.skip(1))
    }
}

/// The canonical text of a tree.
pub open spec fn ser(t: JTree) -> Seq<char>
    decreases t,
{
    match t {
        JTree::Null => seq!['n', 'u', 'l', 'l'],
        JTree::Bool(b) => if b {
            seq!['t', 'r', 'u', 'e']
        } else {
            seq!['f', 'a', 'l', 's', 'e']
        },
        JTree::Int(i) => int_chars(i),
        JTree::Str(s) => seq!['"'] + escape(s) + seq!['"'],
        JTree::Arr(ts) => seq!['['] + ser_items(ts) + seq![']'],
        JTree::Obj(ms) => seq!['{'] + ser_members(ms) + seq!['}'],
    }
}

/// The canonical text of array elements, separated by commas.
pub open spec fn ser_items(ts: Seq<JTree>) -> Seq<char>
    decreases ts,
{
    if ts.len() == 0 {
        Seq::empty()
    } else if ts.len() == 1 {
        ser(ts[0])
    } else {
        ser(ts[0]) + seq![','] + ser_items(ts.skip(1))
    }
}

/// The canonical text of object members, separated by commas.
pub open spec fn ser_members(ms: Seq<(Seq<char>, JTree)>) -> Seq<char>
    decreases ms,
{
    if ms.len() == 0 {
        Seq::empty()
    } else {
        let head = seq!['"'] + escape(ms[0].0) + seq!['"', ':'] + ser(ms[0].1);
        if ms.len() == 1 {
            head
        } else {
            head + seq![','] + ser_members(ms.skip(1))
        }
    }
}

/// The models of a sequence of tree nodes.
pub open spec fn jviews(s: Seq<Json>) -> Seq<JTree> {
    Seq::new(
        s.len(),
        |i: int|
            if 0 <= i < s.len() {
                s[i].view()
            } else {
                JTree::Null
            },
    )
}

/// The models of a sequence of object members.
pub open spec fn jmviews(s: Seq<(String, Json)>) -> Seq<(Seq<char>, JTree)> {
    Seq::new(
        s.len(),
        |i: int|
            if 0 <= i < s.len() {
                (s[i].0@, s[i].1.view())
            } else {
                (Seq::empty(), JTree::Null)
            },
    )
}

/// The canonical rendering of a string body splits around a concatenation.
pub proof fn lemma_escape_concat(a: Seq<char>, b: Seq<char>)
    ensures
        escape(a + b) == escape(a) + escape(b),
    decreases a.len(),
{
    if a.len() == 0 {
        assert(a + b =~= b);
        assert(escape(a) + escape(b) =~= escape(b));
    } else {
        assert((a + b).skip(1) =~= a.skip(1) + b);
        lemma_escape_concat(a.skip(1), b);
        assert((a + b)[0] == a[0]);
        assert(esc_char(a[0]) + (escape(a.skip(1)) + escape(b)) =~= (esc_char(a[0]) + escape(
            a.skip(1),
        )) + escape(b));
    }
}

/// Extending a string by one character extends its rendering by that
/// character's escape.
pub proof fn lemma_escape_step(s: Seq<char>, i: int)
    requires
        0 <= i < s.len(),
    ensures
        escape(s.take(i + 1)) == escape(s.take(i)) + esc_char(s[i]),
{
    assert(s.take(i + 1) =~= s.take(i) + seq![s[i]]);
    lemma_escape_concat(s.take(i), seq![s[i]]);
    assert(seq![s[i]].skip(1) =~= Seq::<char>::empty());
    assert(escape(Seq::<char>::empty()) =~= Seq::<char>::empty());
    assert(escape(seq![s[i]]) == esc_char(s[i]) + escape(seq![s[i]].skip(1)));
    assert(escape(seq![s[i]]) =~= esc_char(s[i]));
}

/// Appends the canonical escape of one character.
fn write_esc_char(c: char, out: &mut Vec<char>)
    ensures
        final(out)@ == old(out)@ + esc_char(c),
{
    if c == '"' {
        out.push('\\');
        out.push('"');
    } else if c == '\\' {
        out.push('\\');
        out.push('\\');
    } else if (c as u32) < 32 {
        let v: u32 = c as u32;
        out.push('\\');
        out.push('u');
        out.push('0');
        out.push('0');
        let h1: u32 = v / 16;
        let h2: u32 = v % 16;
        out.push((48 + h1 as u8) as char);
        out.push((if h2 < 10 { 48 + h2 as u8 } else { 87 + h2 as u8 }) as char);
        assert(out@ =~= old(out)@ + esc_char(c));
    } else {
        out.push(c);
    }
}

/// Appends the quoted canonical rendering of a string.
fn write_str(s: &str, out: &mut Vec<char>)
    ensures
        final(out)@ == old(out)@ + seq!['"'] + escape(s@) + seq!['"'],
{
    out.push('"');
    let n: usize = s.unicode_len();
    let mut i: usize = 0;
    while i < n
        invariant
            n == s@.len(),
            i <= n,
            out@ == old(out)@ + seq!['"'] + escape(s@.take(i as int)),
        decreases n - i,
    {
        let c: char = s.get_char(i);
        proof {
            lemma_escape_step(s@, i as int);
        }
        write_esc_char(c, out);
        i = i + 1;
    }
    assert(s@.take(n as int) =~= s@);
    out.push('"');
}

/// Appends the decimal digits of a non-negative value.
fn write_nat(n: u64, out: &mut Vec<char>)
    ensures
        final(out)@ == old(out)@ + nat_chars(n as int),
    decreases n,
{
    if n < 10 {
        out.push((48 + n as u8) as char);
        assert(out@ =~= old(out)@ + nat_chars(n as int));
    } else {
        write_nat(n / 10, out);
        out.push((48 + (n % 10) as u8) as char);
        assert(out@ =~= old(out)@ + nat_chars(n as int));
    }
}

/// Appends the decimal rendering of an integer.
fn write_int(i: i64, out: &mut Vec<char>)
    ensures
        final(out)@ == old(out)@ + int_chars(i as int),
{
    if i < 0 {
        out.push('-');
        let mag: u64 = ((-(i + 1)) as u64) + 1;
        assert(mag as int == -(i as int));
        write_nat(mag, out);
        assert(out@ =~= old(out)@ + int_chars(i as int));
    } else {
        write_nat(i as u64, out);
    }
}

/// Appends the canonical text of a tree node.
pub fn write_json(j: &Json, out: &mut Vec<char>)
    ensures
        final(out)@ == old(out)@ + ser(j@),
    decreases *j,
{
    match j {
        Json::Null => {
            out.push('n');
            out.push('u');
            out.push('l');
            out.push('l');
            assert(out@ =~= old(out)@ + ser(j@));
        },
        Json::Bool(b) => {
            if *b {
                out.push('t');
                out.push('r');
                out.push('u');
                out.push('e');
            } else {
                out.push('f');
                out.push('a');
                out.push('l');
                out.push('s');
                out.push('e');
            }
            assert(out@ =~= old(out)@ + ser(j@));
        },
        Json::Int(i) => {
            write_int(*i, out);
        },
        Json::Str(s) => {
            write_str(s.as_str(), out);
            assert(out@ =~= old(out)@ + ser(j@));
        },
        Json::Arr(v) => {
            out.push('[');
            write_items(v.as_slice(), out);
            out.push(']');
            assert(jviews(v@) =~= (j@)->Arr_0);
            assert(out@ =~= old(out)@ + ser(j@));
        },
        Json::Obj(v) => {
            out.push('{');
            write_members(v.as_slice(), out);
            out.push('}');
            assert(jmviews(v@) =~= (j@)->Obj_0);
            assert(out@ =~= old(out)@ + ser(j@));
        },
    }
}

/// Appends the canonical text of array elements.
fn write_items(v: &[Json], out: &mut Vec<char>)
    ensures
        final(out)@ == old(out)@ + ser_items(jviews(v@)),
    decreases v@,
{
    if v.len() == 0 {
        assert(jviews(v@) =~= Seq::<JTree>::empty());
        assert(out@ =~= old(out)@ + ser_items(jviews(v@)));
    } else if v.len() == 1 {
        write_json(vstd::slice::slice_index_get(v, 0), out);
        assert(jviews(v@)[0] == v@[0]@);
        assert(out@ =~= old(out)@ + ser_items(jviews(v@)));
    } else {
        write_json(vstd::slice::slice_index_get(v, 0), out);
        out.push(',');
        let rest: &[Json] = vstd::slice::slice_subrange(v, 1, v.len());
        write_items(rest, out);
        assert(jviews(rest@) =~= jviews(v@).skip(1));
        assert(out@ =~= old(out)@ + ser_items(jviews(v@)));
    }
}

/// Appends the canonical text of object members.
fn write_members(v: &[(String, Json)], out: &mut Vec<char>)
    ensures
        final(out)@ == old(out)@ + ser_members(jmviews(v@)),
    decreases v@,
{
    if v.len() == 0 {
        assert(jmviews(v@) =~= Seq::<(Seq<char>, JTree)>::empty());
        assert(out@ =~= old(out)@ + ser_members(jmviews(v@)));
    } else {
        let pair: &(String, Json) = vstd::slice::slice_index_get(v, 0);
        write_str(pair.0.as_str(), out);
        out.push(':');
        write_json(&pair.1, out);
        assert(jmviews(v@)[0] == (v@[0].0@, v@[0].1@));
        if v.len() == 1 {
            assert(out@ =~= old(out)@ + ser_members(jmviews(v@)));
        } else {
            out.push(',');
            let rest: &[(String, Json)] = vstd::slice::slice_subrange(v, 1, v.len());
            write_members(rest, out);
            assert(jmviews(rest@) =~= jmviews(v@).skip(1));
            assert(out@ =~= old(out)@ + ser_members(jmviews(v@)));
        }
    }
}

/// The canonical text of a tree.
pub fn to_text(j: &Json) -> (out: Vec<char>)
    ensures
        out@ == ser(j@),
{
    let mut out: Vec<char> = Vec::new();
    write_json(j, &mut out);
    out
}

} // verus!
