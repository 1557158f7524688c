//! Conversations from lines of JSON, one array of messages per line.
use vstd::prelude::*;

use super::dataset::{RowFault, RowFaultModel};
use super::smoltalk::{decode_messages, read_messages, RawMessage};
use crate::text::{chars_of, decimal, push_decimal, trim, trimmed};
use crate::tokenizer::chat::{conversation_models, Conversation, MessageModel};

verus! {

/// Whether a line holds nothing but white space.
pub fn is_blank(line: &str) -> (r: bool)
    ensures
        r == (trimmed(line@).len() == 0),
{
    let chars = chars_of(line);
    trim(chars.as_slice()).len() == 0
}

/// The messages of a line, none of which is null.
pub open spec fn present(raw: Seq<RawMessage>) -> Seq<Option<RawMessage>> {
    Seq::new(raw.len(), |i: int| Some(raw[i]))
}

/// The conversation of a line, or the first role that is none.
pub fn read_line(raw: &Vec<RawMessage>) -> (r: Result<Conversation, RowFault>)
    ensures
        match r {
            Ok(c) => read_messages(present(raw@), raw@.len() as int) == Ok::<
                Seq<MessageModel>,
                RowFaultModel,
            >(c@),
            Err(e) => read_messages(present(raw@), raw@.len() as int) == Err::<
                Seq<MessageModel>,
                RowFaultModel,
            >(e@),
        },
{
    let mut wrapped: Vec<Option<RawMessage>> = Vec::new();
    let mut i: usize = 0;
    while i < raw.len()
        invariant
            i <= raw@.len(),
            wrapped@ == present(raw@).take(i as int),
        decreases raw@.len() - i,
    {
        let m = &raw[i];
        wrapped.push(Some(RawMessage { role: m.role.clone(), content: m.content.clone() }));
        assert(wrapped@ =~= present(raw@).take(i + 1));
        i += 1;
    }
    assert(wrapped@ =~= present(raw@));
    decode_messages(&wrapped)
}

/// An error of a line, lines counted from one, in the file at `path`.
pub open spec fn line_sentence(path: Seq<char>, line: int, what: Seq<char>) -> Seq<char> {
    path + ": line "@ + decimal(line as nat) + ": "@ + what
}

/// An error of a line, lines counted from one, in the file at `path`.
pub fn line_message(path: &str, line: usize, what: &str) -> (s: String)
    ensures
        s@ == line_sentence(path@, line as int, what@),
{
    let mut s = String::from_str(path);
    s.append(": line ");
    push_decimal(&mut s, line as u64);
    s.append(": ");
    s.append(what);
    s
}

// ---------------------------------------------------------------------------
// All lines
// ---------------------------------------------------------------------------

/// A line, and what it was parsed to: messages, or what the parser says is wrong
/// with it. Of a blank line the parse does not matter.
#[derive(Debug, PartialEq, Eq)]
pub struct JsonLine {
    pub text: String,
    pub parsed: Result<Vec<RawMessage>, String>,
}

/// What is wrong with a line. Lines are counted from 1.
#[derive(Debug, Clone, PartialEq, Eq)]
pub enum LineError {
    /// It is not JSON of the right shape.
    Invalid { line: usize, reason: String },
    /// One of its messages is wrong.
    Message { line: usize, fault: RowFault },
}

/// What is wrong with a line, as a mathematical value.
pub enum LineModel {
    Invalid(int, Seq<char>),
    Message(int, RowFaultModel),
}

impl LineError {
    pub open spec fn view(self) -> LineModel {
        match self {
            LineError::Invalid { line, reason } => LineModel::Invalid(line as int, reason@),
            LineError::Message { line, fault } => LineModel::Message(line as int, fault@),
        }
    }

    /// The error as a sentence, for the file at `path`.
    pub open spec fn sentence(self, path: Seq<char>) -> Seq<char> {
        match self {
            LineError::Invalid { line, reason } => line_sentence(
                path,
                line as int,
                "invalid JSON: "@ + reason@,
            ),
            LineError::Message { line, fault } => line_sentence(
                path,
                line as int,
                fault.sentence(),
            ),
        }
    }

    /// The error as a sentence, for the file at `path`.
    pub fn message(&self, path: &str) -> (s: String)
        ensures
            s@ == self.sentence(path@),
    {
        match self {
            LineError::Invalid { line, reason } => {
                let mut what = String::from_str("invalid JSON: ");
                what.append(reason.as_str());
                line_message(path, *line, what.as_str())
            },
            LineError::Message { line, fault } => {
                let what = fault.message();
                line_message(path, *line, what.as_str())
            },
        }
    }
}

/// The conversations of the first `n` lines, or the first thing that is wrong.
/// Blank lines are passed over, and counted.
pub open spec fn lines_outcome(lines: Seq<JsonLine>, n: int) -> Result<
    Seq<Seq<MessageModel>>,
    LineModel,
>
    decreases n,
{
    if n <= 0 {
        Ok(Seq::empty())
    } else {
        match lines_outcome(lines, n - 1) {
            Err(e) => Err(e),
            Ok(before) => if trimmed(lines[n - 1].text@).len() == 0 {
                Ok(before)
            } else {
                match lines[n - 1].parsed {
                    Err(reason) => Err(LineModel::Invalid(n, reason@)),
                    Ok(raw) => match read_messages(present(raw@), raw@.len() as int) {
                        Err(fault) => Err(LineModel::Message(n, fault)),
                        Ok(messages) => Ok(before.push(messages)),
                    },
                }
            },
        }
    }
}

/// An error in the first lines is the error of all lines.
proof fn lemma_lines_outcome(lines: Seq<JsonLine>, k: int, n: int)
    requires
        0 <= k <= n,
        lines_outcome(lines, k) is Err,
    ensures
        lines_outcome(lines, n) == lines_outcome(lines, k),
    decreases n - k,
{
    if k < n {
        lemma_lines_outcome(lines, k, n - 1);
    }
}

/// The conversations of all lines.
pub fn load(lines: &Vec<JsonLine>) -> (r: Result<Vec<Conversation>, LineError>)
    ensures
        match r {
            Ok(out) => lines_outcome(lines@, lines@.len() as int) == Ok::<
                Seq<Seq<MessageModel>>,
                LineModel,
            >(conversation_models(out@)),
            Err(e) => lines_outcome(lines@, lines@.len() as int) == Err::<
                Seq<Seq<MessageModel>>,
                LineModel,
            >(e@),
        },
{
    let mut out: Vec<Conversation> = Vec::new();
    let mut i: usize = 0;
    assert(conversation_models(out@) =~= Seq::empty());
    while i < lines.len()
        invariant
            i <= lines@.len(),
            lines_outcome(lines@, i as int) == Ok::<Seq<Seq<MessageModel>>, LineModel>(
                conversation_models(out@),
            ),
        decreases lines@.len() - i,
    {
        let ghost before = out@;
        if !is_blank(lines[i].text.as_str()) {
            match &lines[i].parsed {
                Err(reason) => {
                    proof {
                        lemma_lines_outcome(lines@, i + 1, lines@.len() as int);
                    }
                    return Err(LineError::Invalid { line: i + 1, reason: reason.clone() });
                },
                Ok(raw) => match read_line(raw) {
                    Err(fault) => {
                        proof {
                            lemma_lines_outcome(lines@, i + 1, lines@.len() as int);
                        }
                        return Err(LineError::Message { line: i + 1, fault });
                    },
                    Ok(conv) => {
                        out.push(conv);
                        assert(conversation_models(out@) =~= conversation_models(before).push(
                            conv@,
                        ));
                    },
                },
            }
        }
        i += 1;
    }
    Ok(out)
}

} // verus!
