//! MMLU: multiple-choice questions. A row becomes the question with its
//! choices as the user's turn, and the letter of the answer as the assistant's.
use vstd::prelude::*;

use super::dataset::{
    all_batches_wf, files_outcome, load_dataset, FileFault, RowFault, RowFaultModel, SchemaFault,
    TaskBatch, TaskError,
};
use crate::tokenizer::chat::{
    conversation_models, Content, ContentModel, Conversation, Message, MessageModel, Role,
};

verus! {

/// A text column. A row may be null.
#[derive(Debug, Clone, PartialEq, Eq)]
pub enum TextColumn {
    Missing,
    WrongType,
    Rows(Vec<Option<String>>),
}

/// The column of the choices. A row may be null, and so may a choice.
#[derive(Debug, Clone, PartialEq, Eq)]
pub enum ChoicesColumn {
    Missing,
    NotList,
    ItemsNotStrings,
    Rows(Vec<Option<Vec<Option<String>>>>),
}

/// The column of the answers. A row may be null.
#[derive(Debug, Clone, PartialEq, Eq)]
pub enum AnswerColumn {
    Missing,
    WrongType,
    Rows(Vec<Option<i64>>),
}

/// A batch of rows.
#[derive(Debug, Clone, PartialEq, Eq)]
pub struct MmluBatch {
    pub question: TextColumn,
    pub choices: ChoicesColumn,
    pub answer: AnswerColumn,
}

/// The letter of a choice.
pub open spec fn letter(i: int) -> Seq<char> {
    if i == 0 {
        "A"@
    } else if i == 1 {
        "B"@
    } else if i == 2 {
        "C"@
    } else {
        "D"@
    }
}

/// The letter of a choice.
fn letter_of(i: usize) -> (s: &'static str)
    requires
        i < 4,
    ensures
        s@ == letter(i as int),
{
    match i {
        0 => "A",
        1 => "B",
        2 => "C",
        _ => "D",
    }
}

/// The lines of the first `n` choices. The letter comes after the choice and
/// directly behind the equals sign.
pub open spec fn choice_lines(choices: Seq<Seq<char>>, n: int) -> Seq<char>
    decreases n,
{
    if n <= 0 {
        Seq::empty()
    } else {
        choice_lines(choices, n - 1) + "- "@ + choices[n - 1] + "="@ + letter(n - 1) + "\n"@
    }
}

/// The number of choices that get a letter.
pub open spec fn lettered(n: int) -> int {
    if n < 4 {
        n
    } else {
        4
    }
}

/// A question with its choices.
pub open spec fn mc_text(question: Seq<char>, choices: Seq<Seq<char>>) -> Seq<char> {
    "Multiple Choice question: "@ + question + "\n"@ + choice_lines(
        choices,
        lettered(choices.len() as int),
    ) + "\nRespond only with the letter of the correct answer."@
}

/// A question with its choices, of which the first four get a letter.
pub fn render_mc(question: &str, choices: &Vec<String>) -> (s: String)
    ensures
        s@ == mc_text(question@, crate::text::string_views(choices@)),
{
    let ghost all = crate::text::string_views(choices@);
    let mut s = String::from_str("Multiple Choice question: ");
    s.append(question);
    s.append("\n");
    let ghost head = s@;
    let mut i: usize = 0;
    assert(s@ =~= head + choice_lines(all, 0));
    while i < choices.len() && i < 4
        invariant
            i <= choices@.len(),
            i <= 4,
            all == crate::text::string_views(choices@),
            s@ == head + choice_lines(all, i as int),
        decreases choices@.len() - i,
    {
        s.append("- ");
        s.append(choices[i].as_str());
        s.append("=");
        s.append(letter_of(i));
        s.append("\n");
        assert(s@ =~= head + choice_lines(all, i + 1));
        i += 1;
    }
    s.append("\nRespond only with the letter of the correct answer.");
    assert(s@ =~= mc_text(question@, all));
    s
}

/// The question and the answer as a conversation.
pub open spec fn question_and_answer(question: Seq<char>, answer: ContentModel) -> Seq<
    MessageModel,
> {
    seq![
        MessageModel { role: Role::User, content: ContentModel::Text(question) },
        MessageModel { role: Role::Assistant, content: answer },
    ]
}

/// A conversation of one question and its answer.
pub fn two_messages(question: String, answer: Content) -> (c: Conversation)
    ensures
        c@ == question_and_answer(question@, answer@),
{
    let mut messages: Vec<Message> = Vec::new();
    messages.push(Message { role: Role::User, content: Content::Text(question) });
    messages.push(Message { role: Role::Assistant, content: answer });
    let c = Conversation { messages };
    assert(c@ =~= question_and_answer(question@, answer@));
    c
}

/// Whether one of the choices is null.
pub open spec fn has_null(choices: Seq<Option<String>>) -> bool {
    exists|i: int| 0 <= i < choices.len() && (#[trigger] choices[i]) is None
}

/// The texts of choices of which none is null.
pub open spec fn choice_texts(choices: Seq<Option<String>>) -> Seq<Seq<char>> {
    Seq::new(choices.len(), |i: int| choices[i]->0@)
}

/// The conversation of a row, or what is wrong with it: a null field, a null
/// choice, a number of choices other than four, or an answer that is none of
/// them.
pub open spec fn mmlu_row(
    question: Option<String>,
    choices: Option<Vec<Option<String>>>,
    answer: Option<i64>,
) -> Result<Seq<MessageModel>, RowFaultModel> {
    match (question, choices, answer) {
        (Some(q), Some(c), Some(a)) => if has_null(c@) {
            Err(RowFaultModel::NullChoice)
        } else if c@.len() != 4 {
            Err(RowFaultModel::ChoiceCount(c@.len() as int))
        } else if !(0 <= a < 4) {
            Err(RowFaultModel::AnswerOutOfRange(a as int))
        } else {
            Ok(
                question_and_answer(
                    mc_text(q@, choice_texts(c@)),
                    ContentModel::Text(letter(a as int)),
                ),
            )
        },
        _ => Err(RowFaultModel::NullField),
    }
}

/// Copies the choices, unless one is null.
fn gather_choices(choices: &Vec<Option<String>>) -> (r: Option<Vec<String>>)
    ensures
        match r {
            Some(out) => !has_null(choices@) && crate::text::string_views(out@) == choice_texts(
                choices@,
            ),
            None => has_null(choices@),
        },
{
    let mut out: Vec<String> = Vec::new();
    let mut i: usize = 0;
    while i < choices.len()
        invariant
            i <= choices@.len(),
            out@.len() == i,
            forall|k: int| 0 <= k < i ==> (#[trigger] choices@[k]) is Some,
            forall|k: int| 0 <= k < i ==> (#[trigger] out@[k])@ == choices@[k]->0@,
        decreases choices@.len() - i,
    {
        match &choices[i] {
            None => {
                assert(choices@[i as int] is None);
                return None;
            },
            Some(c) => {
                out.push(c.clone());
            },
        }
        i += 1;
    }
    assert(crate::text::string_views(out@) =~= choice_texts(choices@));
    Some(out)
}

impl TaskBatch for MmluBatch {
    open spec fn wf(&self) -> bool {
        match (self.question, self.choices, self.answer) {
            (TextColumn::Rows(q), ChoicesColumn::Rows(c), AnswerColumn::Rows(a)) => q@.len()
                == c@.len() && c@.len() == a@.len(),
            _ => true,
        }
    }

    open spec fn schema_fault(&self) -> Option<SchemaFault> {
        match self.question {
            TextColumn::Missing => Some(SchemaFault::MissingQuestion),
            TextColumn::WrongType => Some(SchemaFault::QuestionNotString),
            TextColumn::Rows(_) => match self.choices {
                ChoicesColumn::Missing => Some(SchemaFault::MissingChoices),
                ChoicesColumn::NotList => Some(SchemaFault::ChoicesNotList),
                ChoicesColumn::ItemsNotStrings => Some(SchemaFault::ChoiceNotString),
                ChoicesColumn::Rows(_) => match self.answer {
                    AnswerColumn::Missing => Some(SchemaFault::MissingAnswer),
                    AnswerColumn::WrongType => Some(SchemaFault::AnswerNotInt64),
                    AnswerColumn::Rows(_) => None,
                },
            },
        }
    }

    open spec fn row_count(&self) -> int {
        self.question->Rows_0@.len() as int
    }

    open spec fn row_outcome(&self, i: int) -> Result<Seq<MessageModel>, RowFaultModel> {
        mmlu_row(
            self.question->Rows_0@[i],
            self.choices->Rows_0@[i],
            self.answer->Rows_0@[i],
        )
    }

    fn check_schema(&self) -> (r: Option<SchemaFault>) {
        match &self.question {
            TextColumn::Missing => Some(SchemaFault::MissingQuestion),
            TextColumn::WrongType => Some(SchemaFault::QuestionNotString),
            TextColumn::Rows(_) => match &self.choices {
                ChoicesColumn::Missing => Some(SchemaFault::MissingChoices),
                ChoicesColumn::NotList => Some(SchemaFault::ChoicesNotList),
                ChoicesColumn::ItemsNotStrings => Some(SchemaFault::ChoiceNotString),
                ChoicesColumn::Rows(_) => match &self.answer {
                    AnswerColumn::Missing => Some(SchemaFault::MissingAnswer),
                    AnswerColumn::WrongType => Some(SchemaFault::AnswerNotInt64),
                    AnswerColumn::Rows(_) => None,
                },
            },
        }
    }

    fn num_rows(&self) -> (n: usize) {
        match &self.question {
            TextColumn::Rows(q) => q.len(),
            _ => 0,
        }
    }

    fn decode_row(&self, i: usize) -> (r: Result<Conversation, RowFault>) {
        match (&self.question, &self.choices, &self.answer) {
            (TextColumn::Rows(qs), ChoicesColumn::Rows(cs), AnswerColumn::Rows(answers)) => {
                match (&qs[i], &cs[i], &answers[i]) {
                    (Some(question), Some(choices), Some(answer)) => {
                        let texts = match gather_choices(choices) {
                            None => {
                                return Err(RowFault::NullChoice);
                            },
                            Some(texts) => texts,
                        };
                        assert(crate::text::string_views(texts@).len() == texts@.len());
                        if texts.len() != 4 {
                            return Err(RowFault::ChoiceCount { got: texts.len() });
                        }
                        if *answer < 0 || *answer >= 4 {
                            return Err(RowFault::AnswerOutOfRange { answer: *answer });
                        }
                        let reply = String::from_str(letter_of(*answer as usize));
                        Ok(two_messages(
                            render_mc(question.as_str(), &texts),
                            Content::Text(reply),
                        ))
                    },
                    _ => Err(RowFault::NullField),
                }
            },
            _ => {
                assert(false);
                Err(RowFault::NullField)
            },
        }
    }
}

/// Loads the files of the dataset, each given by its batches.
pub fn load(files: &Vec<Vec<MmluBatch>>) -> (r: Result<Vec<Conversation>, TaskError>)
    requires
        all_batches_wf(files@),
    ensures
        match r {
            Ok(out) => files_outcome(files@, files@.len() as int) == Ok::<
                Seq<Seq<MessageModel>>,
                (int, FileFault),
            >(conversation_models(out@)),
            Err(e) => files_outcome(files@, files@.len() as int) == Err::<
                Seq<Seq<MessageModel>>,
                (int, FileFault),
            >(e@),
        },
{
    load_dataset(files)
}

} // verus!
