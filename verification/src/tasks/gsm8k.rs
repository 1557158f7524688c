//! GSM8K: word problems. The answer text marks calculator calls as
//! `<<expression=result>>`; each becomes a tool call and its output.
use vstd::prelude::*;
use vstd::slice::slice_subrange;

use super::dataset::{
    all_batches_wf, files_outcome, load_dataset, FileFault, RowFault, RowFaultModel, SchemaFault,
    TaskBatch, TaskError,
};
use super::mmlu::{question_and_answer, two_messages, TextColumn};
use crate::text::{chars_of, find_char, index_from, lemma_index_from, string_of};
use crate::tokenizer::chat::{
    conversation_models, part_models, Content, ContentModel, Conversation, MessageModel, Part,
    PartModel,
};

verus! {

/// The end of the calculator call that starts at `i`: two `<`, then one or more
/// characters that are not `>`, then two `>`.
pub open spec fn call_end(s: Seq<char>, i: int) -> Option<int> {
    if 0 <= i && i + 1 < s.len() && s[i] == '<' && s[i + 1] == '<' {
        let j = index_from(s, '>', i + 2);
        if j > i + 2 && j + 1 < s.len() && s[j + 1] == '>' {
            Some(j + 2)
        } else {
            None
        }
    } else {
        None
    }
}

/// The first calculator call that starts at or after `from`.
pub open spec fn next_call(s: Seq<char>, from: int) -> Option<(int, int)>
    decreases s.len() - from,
{
    if from >= s.len() {
        None
    } else {
        match call_end(s, from) {
            Some(end) => Some((from, end)),
            None => next_call(s, from + 1),
        }
    }
}

/// The last place in `s` that holds `c`.
pub open spec fn last_index(s: Seq<char>, c: char) -> Option<int>
    decreases s.len(),
{
    if s.len() == 0 {
        None
    } else if s.last() == c {
        Some(s.len() - 1)
    } else {
        last_index(s.drop_last(), c)
    }
}

/// A text as a part, if it is not empty.
pub open spec fn text_part(t: Seq<char>) -> Seq<PartModel> {
    if t.len() == 0 {
        Seq::empty()
    } else {
        seq![PartModel::Text(t)]
    }
}

/// The call and its output, split at the last equals sign. Without one, all is
/// the call and the output is empty.
pub open spec fn call_parts(inner: Seq<char>) -> Seq<PartModel> {
    match last_index(inner, '=') {
        Some(k) => seq![
            PartModel::Python(inner.take(k)),
            PartModel::PythonOutput(inner.skip(k + 1)),
        ],
        None => seq![PartModel::Python(inner), PartModel::PythonOutput(Seq::empty())],
    }
}

/// The parts of an answer from `from` on.
pub open spec fn answer_parts(s: Seq<char>, from: int) -> Seq<PartModel>
    decreases s.len() - from,
{
    match next_call(s, from) {
        Some(m) => if from <= m.0 && from < m.1 <= s.len() {
            text_part(s.subrange(from, m.0)) + call_parts(s.subrange(m.0 + 2, m.1 - 2))
                + answer_parts(s, m.1)
        } else {
            Seq::empty()
        },
        None => text_part(s.subrange(from, s.len() as int)),
    }
}

proof fn lemma_next_call(s: Seq<char>, from: int)
    requires
        0 <= from,
    ensures
        match next_call(s, from) {
            Some(m) => from <= m.0 && m.0 + 5 <= m.1 <= s.len(),
            None => true,
        },
    decreases s.len() - from,
{
    if from < s.len() {
        if from + 2 <= s.len() {
            lemma_index_from(s, '>', from + 2);
        }
        if call_end(s, from) is None {
            lemma_next_call(s, from + 1);
        }
    }
}

/// The first calculator call that starts at or after `from`.
fn find_call(s: &[char], from: usize) -> (r: Option<(usize, usize)>)
    requires
        from <= s@.len(),
    ensures
        match r {
            Some(m) => {
                &&& next_call(s@, from as int) == Some((m.0 as int, m.1 as int))
                &&& from <= m.0
                &&& m.0 + 5 <= m.1 <= s@.len()
            },
            None => next_call(s@, from as int) is None,
        },
{
    let n: usize = s.len();
    let mut i: usize = from;
    while i < n
        invariant
            from <= i <= n,
            n == s@.len(),
            next_call(s@, from as int) == next_call(s@, i as int),
        decreases n - i,
    {
        if i < n - 1 && s[i] == '<' && s[i + 1] == '<' {
            let j: usize = find_char(s, '>', i + 2);
            if j > i + 2 && j < n - 1 && s[j + 1] == '>' {
                proof {
                    lemma_next_call(s@, from as int);
                }
                return Some((i, j + 2));
            }
        }
        i += 1;
    }
    None
}

/// The last place in `s` that holds `c`.
fn find_last(s: &[char], c: char) -> (r: Option<usize>)
    ensures
        match r {
            Some(k) => last_index(s@, c) == Some(k as int) && k < s@.len(),
            None => last_index(s@, c) is None,
        },
{
    let mut k: usize = s.len();
    assert(s@.take(k as int) =~= s@);
    while k > 0
        invariant
            k <= s@.len(),
            last_index(s@, c) == last_index(s@.take(k as int), c),
        decreases k,
    {
        assert(s@.take(k as int).last() == s@[k - 1]);
        assert(s@.take(k as int).drop_last() =~= s@.take(k - 1));
        if s[k - 1] == c {
            return Some(k - 1);
        }
        k -= 1;
    }
    None
}

/// Splits an answer at its calculator calls.
pub fn split_answer(answer: &str) -> (parts: Vec<Part>)
    ensures
        part_models(parts@) == answer_parts(answer@, 0),
{
    let chars = chars_of(answer);
    let s = chars.as_slice();
    let mut parts: Vec<Part> = Vec::new();
    let mut at: usize = 0;
    let mut call = find_call(s, 0);
    assert(part_models(parts@) + answer_parts(s@, 0) =~= answer_parts(s@, 0));
    while call.is_some()
        invariant
            s@ == answer@,
            at <= s@.len(),
            part_models(parts@) + answer_parts(s@, at as int) == answer_parts(s@, 0),
            match call {
                Some(m) => {
                    &&& next_call(s@, at as int) == Some((m.0 as int, m.1 as int))
                    &&& at <= m.0
                    &&& m.0 + 5 <= m.1 <= s@.len()
                },
                None => next_call(s@, at as int) is None,
            },
        decreases s@.len() - at,
    {
        let m: (usize, usize) = call.unwrap();
        let ghost done = part_models(parts@);
        let ghost text = s@.subrange(at as int, m.0 as int);
        let ghost inner = s@.subrange(m.0 + 2, m.1 - 2);
        if m.0 > at {
            parts.push(Part::Text(string_of(slice_subrange(s, at, m.0))));
        }
        assert(part_models(parts@) =~= done + text_part(text));
        let body = slice_subrange(s, m.0 + 2, m.1 - 2);
        assert(body@ == inner);
        let (call_text, output_text) = match find_last(body, '=') {
            Some(k) => (
                string_of(slice_subrange(body, 0, k)),
                string_of(slice_subrange(body, k + 1, body.len())),
            ),
            None => (string_of(body), String::new()),
        };
        proof {
            match last_index(inner, '=') {
                Some(k) => {
                    assert(inner.subrange(0, k) =~= inner.take(k));
                    assert(inner.subrange(k + 1, inner.len() as int) =~= inner.skip(k + 1));
                },
                None => {},
            }
        }
        parts.push(Part::Python(call_text));
        parts.push(Part::PythonOutput(output_text));
        assert(part_models(parts@) =~= done + text_part(text) + call_parts(inner));
        at = m.1;
        assert(part_models(parts@) + answer_parts(s@, at as int) =~= done + (text_part(text)
            + call_parts(inner) + answer_parts(s@, at as int)));
        call = find_call(s, at);
    }
    let ghost done = part_models(parts@);
    if at < s.len() {
        parts.push(Part::Text(string_of(slice_subrange(s, at, s.len()))));
    }
    assert(part_models(parts@) =~= done + text_part(s@.subrange(at as int, s@.len() as int)));
    parts
}

/// A batch of rows.
#[derive(Debug, Clone, PartialEq, Eq)]
pub struct Gsm8kBatch {
    pub question: TextColumn,
    pub answer: TextColumn,
}

/// The conversation of a row.
pub open spec fn gsm8k_row(question: Option<String>, answer: Option<String>) -> Result<
    Seq<MessageModel>,
    RowFaultModel,
> {
    match (question, answer) {
        (Some(q), Some(a)) => Ok(
            question_and_answer(q@, ContentModel::Parts(answer_parts(a@, 0))),
        ),
        _ => Err(RowFaultModel::NullField),
    }
}

impl TaskBatch for Gsm8kBatch {
    open spec fn wf(&self) -> bool {
        match (self.question, self.answer) {
            (TextColumn::Rows(q), TextColumn::Rows(a)) => q@.len() == a@.len(),
            _ => true,
        }
    }

    open spec fn schema_fault(&self) -> Option<SchemaFault> {
        if !(self.question is Rows) {
            Some(SchemaFault::NoQuestionStrings)
        } else if !(self.answer is Rows) {
            Some(SchemaFault::NoAnswerStrings)
        } else {
            None
        }
    }

    open spec fn row_count(&self) -> int {
        self.question->Rows_0@.len() as int
    }

    open spec fn row_outcome(&self, i: int) -> Result<Seq<MessageModel>, RowFaultModel> {
        gsm8k_row(self.question->Rows_0@[i], self.answer->Rows_0@[i])
    }

    fn check_schema(&self) -> (r: Option<SchemaFault>) {
        match &self.question {
            TextColumn::Rows(_) => match &self.answer {
                TextColumn::Rows(_) => None,
                _ => Some(SchemaFault::NoAnswerStrings),
            },
            _ => Some(SchemaFault::NoQuestionStrings),
        }
    }

    fn num_rows(&self) -> (n: usize) {
        match &self.question {
            TextColumn::Rows(q) => q.len(),
            _ => 0,
        }
    }

    fn decode_row(&self, i: usize) -> (r: Result<Conversation, RowFault>) {
        match (&self.question, &self.answer) {
            (TextColumn::Rows(questions), TextColumn::Rows(answers)) => {
                match (&questions[i], &answers[i]) {
                    (Some(question), Some(answer)) => {
                        let parts = split_answer(answer.as_str());
                        Ok(two_messages(question.clone(), Content::Parts(parts)))
                    },
                    _ => Err(RowFault::NullField),
                }
            },
            _ => {
                assert(false);
                Err(RowFault::NullField)
            },
        }
    }
}

/// Loads the files of the dataset, each given by its batches.
pub fn load(files: &Vec<Vec<Gsm8kBatch>>) -> (r: Result<Vec<Conversation>, TaskError>)
    requires
        all_batches_wf(files@),
    ensures
        match r {
            Ok(out) => files_outcome(files@, files@.len() as int) == Ok::<
                Seq<Seq<MessageModel>>,
                (int, FileFault),
            >(conversation_models(out@)),
            Err(e) => files_outcome(files@, files@.len() as int) == Err::<
                Seq<Seq<MessageModel>>,
                (int, FileFault),
            >(e@),
        },
{
    load_dataset(files)
}

} // verus!
