//! How well a vocabulary fits some texts.
use vstd::prelude::*;
use vstd::utf8::encode_utf8;

use crate::binary64::{fixed, nearest, to_double, whole, Double};
use crate::text::{decimal, decimal_string, equals, padding, push_left, push_right};
use crate::tokenizer::bpe::BpeTokenizer;

verus! {

/// How a vocabulary fits one text.
#[derive(Debug, Clone, Copy, PartialEq, Eq)]
pub struct FixtureResult {
    pub name: &'static str,
    /// The length of the text in bytes.
    pub bytes: usize,
    /// How many ids it is encoded as.
    pub tokens: usize,
    /// Whether these ids stand for the text.
    pub round_trip_ok: bool,
}

/// A text to try, and its name.
#[derive(Debug, Clone, Copy, PartialEq, Eq)]
pub struct Fixture {
    pub name: &'static str,
    pub text: &'static str,
}

/// How a vocabulary fits one text: every text that can be split comes back from
/// its ids.
pub open spec fn fixture_result(tok: BpeTokenizer, f: Fixture, r: FixtureResult) -> bool {
    &&& r.name@ == f.name@
    &&& r.bytes == encode_utf8(f.text@).len()
    &&& r.tokens == tok.text_ids(f.text@).len()
    &&& r.round_trip_ok
}

/// All texts can be split.
pub open spec fn all_split(fixtures: Seq<Fixture>) -> bool {
    forall|i: int|
        0 <= i < fixtures.len() ==> BpeTokenizer::can_split((#[trigger] fixtures[i]).text@)
}

/// Tries a vocabulary on texts, in order.
pub fn eval_fixtures(tok: &BpeTokenizer, fixtures: &Vec<Fixture>) -> (out: Vec<FixtureResult>)
    requires
        all_split(fixtures@),
    ensures
        out@.len() == fixtures@.len(),
        forall|i: int|
            0 <= i < fixtures@.len() ==> fixture_result(*tok, fixtures@[i], #[trigger] out@[i]),
{
    let mut out: Vec<FixtureResult> = Vec::new();
    let mut i: usize = 0;
    while i < fixtures.len()
        invariant
            i <= fixtures@.len(),
            all_split(fixtures@),
            out@.len() == i,
            forall|k: int|
                0 <= k < i ==> fixture_result(*tok, fixtures@[k], #[trigger] out@[k]),
        decreases fixtures@.len() - i,
    {
        let f = fixtures[i];
        assert(BpeTokenizer::can_split(fixtures@[i as int].text@));
        let ids = tok.encode(f.text);
        proof {
            tok.decoding_undoes_encoding(f.text@, ids@);
        }
        let decoded = tok.decode(ids.as_slice());
        let bytes: usize = f.text.as_bytes().len();
        let round_trip_ok = equals(decoded.as_str(), f.text);
        out.push(FixtureResult { name: f.name, bytes, tokens: ids.len(), round_trip_ok });
        i += 1;
    }
    out
}

/// Tries a vocabulary on texts; `None` if the regex engine gives up on one.
pub fn try_eval_fixtures(tok: &BpeTokenizer, fixtures: &Vec<Fixture>) -> (r: Option<
    Vec<FixtureResult>,
>)
    ensures
        match r {
            Some(out) => {
                &&& all_split(fixtures@)
                &&& out@.len() == fixtures@.len()
                &&& forall|i: int|
                    0 <= i < fixtures@.len() ==> fixture_result(
                        *tok,
                        fixtures@[i],
                        #[trigger] out@[i],
                    )
            },
            None => !all_split(fixtures@),
        },
{
    let mut i: usize = 0;
    while i < fixtures.len()
        invariant
            i <= fixtures@.len(),
            forall|k: int|
                0 <= k < i ==> BpeTokenizer::can_split((#[trigger] fixtures@[k]).text@),
        decreases fixtures@.len() - i,
    {
        if !tok.can_encode(fixtures[i].text) {
            assert(!BpeTokenizer::can_split(fixtures@[i as int].text@));
            return None;
        }
        i += 1;
    }
    Some(eval_fixtures(tok, fixtures))
}

/// Whether every text came back.
pub fn all_round_trip(results: &Vec<FixtureResult>) -> (r: bool)
    ensures
        r == forall|i: int|
            0 <= i < results@.len() ==> (#[trigger] results@[i]).round_trip_ok,
{
    let mut i: usize = 0;
    while i < results.len()
        invariant
            i <= results@.len(),
            forall|k: int| 0 <= k < i ==> (#[trigger] results@[k]).round_trip_ok,
        decreases results@.len() - i,
    {
        if !results[i].round_trip_ok {
            return false;
        }
        i += 1;
    }
    true
}

// ---------------------------------------------------------------------------
// The table
// ---------------------------------------------------------------------------

/// A line of five columns.
pub open spec fn columns(
    name: Seq<char>,
    bytes: Seq<char>,
    tokens: Seq<char>,
    ratio: Seq<char>,
    verdict: Seq<char>,
) -> Seq<char> {
    name + padding(name.len() as int, 10) + " "@ + padding(bytes.len() as int, 10) + bytes + " "@
        + padding(tokens.len() as int, 10) + tokens + " "@ + padding(ratio.len() as int, 14) + ratio
        + " "@ + padding(verdict.len() as int, 11) + verdict
}

fn line(name: &str, bytes: &str, tokens: &str, ratio: &str, verdict: &str) -> (s: String)
    ensures
        s@ == columns(name@, bytes@, tokens@, ratio@, verdict@),
{
    let mut s = String::new();
    push_left(&mut s, name, 10);
    s.append(" ");
    push_right(&mut s, bytes, 10);
    s.append(" ");
    push_right(&mut s, tokens, 10);
    s.append(" ");
    push_right(&mut s, ratio, 14);
    s.append(" ");
    push_right(&mut s, verdict, 11);
    assert(s@ =~= columns(name@, bytes@, tokens@, ratio@, verdict@));
    s
}

/// The first line of the table.
pub fn table_header() -> (s: String)
    ensures
        s@ == columns("fixture"@, "bytes"@, "tokens"@, "bytes/token"@, "round_trip"@),
{
    line("fixture", "bytes", "tokens", "bytes/token", "round_trip")
}

/// The bytes per token, as a double-precision number; 0 without tokens.
pub open spec fn bytes_per_token(r: FixtureResult) -> (nat, nat) {
    if r.tokens == 0 {
        (0, 1)
    } else {
        nearest(whole(r.bytes as nat), whole(r.tokens as nat))
    }
}

/// The line of a result.
pub open spec fn row_text(r: FixtureResult) -> Seq<char> {
    columns(
        r.name@,
        decimal(r.bytes as nat),
        decimal(r.tokens as nat),
        fixed(bytes_per_token(r), 3),
        if r.round_trip_ok {
            "ok"@
        } else {
            "FAIL"@
        },
    )
}

/// The line of a result.
pub fn table_row(r: &FixtureResult) -> (s: String)
    ensures
        s@ == row_text(*r),
{
    let mut ratio = String::new();
    assert(ratio@ =~= Seq::empty());
    if r.tokens == 0 {
        let d = Double { mantissa: 0, unit: 1 };
        d.push_fixed(&mut ratio, 3);
    } else {
        let num: u128 = to_double(r.bytes as u64);
        let den: u128 = to_double(r.tokens as u64);
        let d = Double::wide_quotient(num, den);
        d.push_fixed(&mut ratio, 3);
    }
    assert(ratio@ =~= fixed(bytes_per_token(*r), 3));
    let bytes = decimal_string(r.bytes as u64);
    let tokens = decimal_string(r.tokens as u64);
    line(
        r.name,
        bytes.as_str(),
        tokens.as_str(),
        ratio.as_str(),
        if r.round_trip_ok {
            "ok"
        } else {
            "FAIL"
        },
    )
}

} // verus!
