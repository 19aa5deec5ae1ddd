//! The public decoder and encoder, and the laws that relate them.
//!
//! `decode` takes the wire text, parses it as a tree and validates the
//! schema; `encode` renders an envelope back to its canonical wire text.
//! `decode_spec` and `encode_spec` state both exactly; the proof functions
//! at the end of the file establish the round trip and the decoder's owed
//! failures.

use vstd::prelude::*;
use crate::json::{Json, JTree, ser, wf_tree};
use crate::parse::{parse_v, skip_ws, p_value, p_ws, chars_to_string};
use crate::schema::{
    Root, RootV, DecodeError, ErrV, dec_env, env_tree, decode_tree, env_to_json,
};
use crate::json::to_text;
use vstd::string::StrSliceExecFns;

verus! {

/// What `decode` returns for any input text: the parse must consume the
/// whole text, up to trailing whitespace, and yield a tree that satisfies
/// the schema.
pub open spec fn decode_spec(s: Seq<char>) -> Result<RootV, ErrV> {
    match parse_v(s) {
        None => Err(ErrV::Malformed),
        Some((t, rest)) => if skip_ws(rest).len() == 0 {
            dec_env(t)
        } else {
            Err(ErrV::Malformed)
        },
    }
}

/// What `encode` returns for any envelope: the canonical text of its tree.
pub open spec fn encode_spec(e: RootV) -> Seq<char> {
    ser(env_tree(e))
}

/// The characters of a string slice.
fn str_chars(s: &str) -> (out: Vec<char>)
    ensures
        out@ == s@,
{
    let n: usize = s.unicode_len();
    let mut out: Vec<char> = Vec::new();
    let mut i: usize = 0;
    while i < n
        invariant
            n == s@.len(),
            0 <= i <= n,
            out@ == s@.take(i as int),
        decreases n - i,
    {
        out.push(s.get_char(i));
        proof {
            assert(out@ =~= s@.take(i as int + 1));
        }
        i = i + 1;
    }
    proof {
        assert(s@.take(n as int) =~= s@);
    }
    out
}

/// Decodes the wire text into a typed envelope, or reports the exact
/// failure that `decode_spec` owes for this input.
///
/// The text is JSON: whitespace may stand between tokens, object members
/// may come in any order, and strings may use the standard escapes,
/// surrogate pairs included.  The one restriction is that numbers must be
/// integers in the machine's signed 64-bit range, as the schema's number
/// fields are.
pub fn decode(raw: &str) -> (r: Result<Root, DecodeError>)
    ensures
        match r {
            Ok(e) => decode_spec(raw@) == Ok::<RootV, ErrV>(e@),
            Err(e) => decode_spec(raw@) == Err::<RootV, ErrV>(e@),
        },
{
    let chars = str_chars(raw);
    match p_value(chars.as_slice()) {
        None => Err(DecodeError::Malformed),
        Some((j, rest)) => {
            if p_ws(rest).len() == 0 {
                decode_tree(&j)
            } else {
                Err(DecodeError::Malformed)
            }
        },
    }
}

/// Encodes an envelope as its canonical wire text.
pub fn encode(e: &Root) -> (out: String)
    ensures
        out@ == encode_spec(e@),
{
    let j: Json = env_to_json(e);
    let chars = to_text(&j);
    chars_to_string(&chars)
}

/// Whether a tree carries a `Records` member holding a sequence.
pub open spec fn has_records_seq(t: JTree) -> bool {
    match t {
        JTree::Obj(ms) => match crate::schema::lookup(ms, "Records"@) {
            Some(v) => v is Arr,
            _ => false,
        },
        _ => false,
    }
}

/// Encoding a well-formed envelope and decoding the result yields the
/// envelope back, for every well-formed envelope.
pub proof fn lemma_round_trip(e: RootV)
    requires
        crate::schema::wf_env(e),
    ensures
        decode_spec(encode_spec(e)) == Ok::<RootV, ErrV>(e),
{
    crate::schema::lemma_rt_env(e);
    crate::parse::lemma_parse_complete(env_tree(e), Seq::empty());
    assert(ser(env_tree(e)) + Seq::<char>::empty() =~= ser(env_tree(e)));
    assert(parse_v(encode_spec(e)) == Some((env_tree(e), Seq::<char>::empty())));
}

/// A parseable input whose tree lacks a `Records` sequence is refused with
/// a schema violation naming that field, for every such input.
pub proof fn lemma_records_required(s: Seq<char>, t: JTree, rest: Seq<char>)
    requires
        parse_v(s) == Some((t, rest)),
        skip_ws(rest).len() == 0,
        !has_records_seq(t),
    ensures
        decode_spec(s) == Err::<RootV, ErrV>(
            ErrV::Schema {
                field: "Records"@,
                record_index: None,
                reason: "missing or not a sequence"@,
            },
        ),
{
}

} // verus!
