//! What the datasets share: the choice of files, reading rows into
//! conversations, and the errors that name a file and a row.
use vstd::prelude::*;

use crate::order::{sort, sorts};
use crate::text::{
    begins_with, chars_of, decimal, ends_with, equals, finishes_with, push_decimal, push_signed,
    quote, quoted, signed_decimal, starts_with, string_of, string_views, views,
};
use crate::tokenizer::chat::{conversation_models, Conversation, MessageModel, Role};

verus! {

/// Which part of a dataset to load.
#[derive(Debug, Clone, Copy, PartialEq, Eq, Structural)]
pub enum Split {
    Train,
    Test,
}

impl Split {
    pub open spec fn name(self) -> Seq<char> {
        match self {
            Split::Train => "train"@,
            Split::Test => "test"@,
        }
    }

    pub fn as_str(self) -> (s: &'static str)
        ensures
            s@ == self.name(),
    {
        match self {
            Split::Train => "train",
            Split::Test => "test",
        }
    }
}

// ---------------------------------------------------------------------------
// The files of a dataset
// ---------------------------------------------------------------------------

/// What the file names of a part of a dataset begin with.
pub open spec fn file_prefix(dataset: Seq<char>, split: Split) -> Seq<char> {
    dataset + "-"@ + split.name() + "-"@
}

/// What the file names of a part of a dataset begin with.
pub fn dataset_prefix(dataset: &str, split: Split) -> (s: String)
    ensures
        s@ == file_prefix(dataset@, split),
{
    let mut s = String::from_str(dataset);
    s.append("-");
    s.append(split.as_str());
    s.append("-");
    s
}

/// Whether a file belongs to the dataset part with this prefix.
pub open spec fn is_dataset_file(name: Seq<char>, prefix: Seq<char>) -> bool {
    begins_with(name, prefix) && finishes_with(name, ".parquet"@)
}

/// The names that belong to the dataset part, in the given order.
pub open spec fn matching_names(names: Seq<Seq<char>>, prefix: Seq<char>) -> Seq<Seq<char>>
    decreases names.len(),
{
    if names.len() == 0 {
        Seq::empty()
    } else {
        let before = matching_names(names.drop_last(), prefix);
        if is_dataset_file(names.last(), prefix) {
            before.push(names.last())
        } else {
            before
        }
    }
}

/// Whether `out` holds the texts `kept`, sorted.
pub open spec fn is_sorted_listing(kept: Seq<Seq<char>>, out: Seq<Seq<char>>) -> bool {
    exists|order: Seq<usize>|
        {
            &&& order.len() == kept.len()
            &&& forall|k: int| 0 <= k < kept.len() ==> (#[trigger] order[k]) < kept.len()
            &&& forall|i: usize| i < kept.len() ==> order.contains(i)
            &&& forall|a: int, b: int|
                0 <= a < b < kept.len() ==> crate::order::text_no_later(
                    kept[#[trigger] order[a] as int],
                    kept[#[trigger] order[b] as int],
                )
            &&& out == Seq::new(kept.len(), |k: int| kept[order[k] as int])
        }
}

/// Sorts names.
pub fn sorted_names(names: &Vec<Vec<char>>) -> (out: Vec<String>)
    ensures
        is_sorted_listing(views(names@), string_views(out@)),
{
    let ghost kept = views(names@);
    let order = sort(names);
    let mut out: Vec<String> = Vec::new();
    let mut i: usize = 0;
    while i < order.len()
        invariant
            i <= order@.len(),
            sorts(names@, order@),
            order@.len() == names@.len(),
            kept == views(names@),
            out@.len() == i,
            forall|k: int| 0 <= k < i ==> (#[trigger] out@[k])@ == kept[order@[k] as int],
        decreases order@.len() - i,
    {
        let ghost before = out@;
        out.push(string_of(names[order[i]].as_slice()));
        assert forall|k: int| 0 <= k < i + 1 implies (#[trigger] out@[k])@
            == kept[order@[k] as int] by {
            if k < i {
                assert(out@[k] == before[k]);
            }
        }
        i += 1;
    }
    proof {
        assert(string_views(out@) =~= Seq::new(kept.len(), |k: int| kept[order@[k] as int]));
        assert forall|a: int, b: int| 0 <= a < b < kept.len() implies crate::order::text_no_later(
            kept[#[trigger] order@[a] as int],
            kept[#[trigger] order@[b] as int],
        ) by {
            assert(crate::order::goes_before(names@, order@[a] as int, order@[b] as int));
        }
    }
    out
}

/// The files of a dataset part among the names of a directory, sorted. `None`
/// if there are none.
pub fn dataset_files(names: &Vec<String>, prefix: &str) -> (r: Option<Vec<String>>)
    ensures
        match r {
            Some(out) => {
                &&& matching_names(string_views(names@), prefix@).len() > 0
                &&& is_sorted_listing(
                    matching_names(string_views(names@), prefix@),
                    string_views(out@),
                )
            },
            None => matching_names(string_views(names@), prefix@).len() == 0,
        },
{
    let ghost all = string_views(names@);
    let head = chars_of(prefix);
    let tail = chars_of(".parquet");
    let mut kept: Vec<Vec<char>> = Vec::new();
    let mut i: usize = 0;
    assert(all.take(0) =~= Seq::empty());
    assert(views(kept@) =~= Seq::empty());
    while i < names.len()
        invariant
            i <= names@.len(),
            all == string_views(names@),
            head@ == prefix@,
            tail@ == ".parquet"@,
            views(kept@) == matching_names(all.take(i as int), prefix@),
        decreases names@.len() - i,
    {
        let name = chars_of(names[i].as_str());
        let ghost before = views(kept@);
        proof {
            assert(all.take(i + 1).drop_last() =~= all.take(i as int));
            assert(all.take(i + 1).last() == name@);
        }
        if starts_with(name.as_slice(), head.as_slice()) && ends_with(
            name.as_slice(),
            tail.as_slice(),
        ) {
            kept.push(name);
            assert(views(kept@) =~= before.push(name@));
        }
        i += 1;
    }
    assert(all.take(i as int) =~= all);
    if kept.len() == 0 {
        None
    } else {
        Some(sorted_names(&kept))
    }
}

// ---------------------------------------------------------------------------
// Roles
// ---------------------------------------------------------------------------

/// The role that a word names.
pub open spec fn named_role(s: Seq<char>) -> Option<Role> {
    if s == "system"@ {
        Some(Role::System)
    } else if s == "user"@ {
        Some(Role::User)
    } else if s == "assistant"@ {
        Some(Role::Assistant)
    } else {
        None
    }
}

/// The role that a word names.
pub fn role_from_str(s: &str) -> (r: Option<Role>)
    ensures
        r == named_role(s@),
{
    if equals(s, "system") {
        Some(Role::System)
    } else if equals(s, "user") {
        Some(Role::User)
    } else if equals(s, "assistant") {
        Some(Role::Assistant)
    } else {
        None
    }
}

/// The name of a role names it.
pub proof fn role_names_are_read_back(role: Role)
    ensures
        named_role(crate::tokenizer::chat::role_text(role)) == Some(role),
{
    reveal_strlit("system");
    reveal_strlit("user");
    reveal_strlit("assistant");
    assert("user"@[0] != "system"@[0]);
    assert("assistant"@[0] != "system"@[0]);
    assert("assistant"@[0] != "user"@[0]);
}

// ---------------------------------------------------------------------------
// Rows to conversations
// ---------------------------------------------------------------------------

/// What is wrong with the columns of a file.
#[derive(Debug, Clone, Copy, PartialEq, Eq, Structural)]
pub enum SchemaFault {
    MissingQuestion,
    QuestionNotString,
    MissingChoices,
    ChoicesNotList,
    ChoiceNotString,
    MissingAnswer,
    AnswerNotInt64,
    MissingMessages,
    MessagesNotList,
    MessageNotStruct,
    NoRoleField,
    NoContentField,
    NoQuestionStrings,
    NoAnswerStrings,
}

impl SchemaFault {
    pub open spec fn sentence(self) -> Seq<char> {
        match self {
            SchemaFault::MissingQuestion => "missing 'question' column"@,
            SchemaFault::QuestionNotString => "'question' column is not a string"@,
            SchemaFault::MissingChoices => "missing 'choices' column"@,
            SchemaFault::ChoicesNotList => "'choices' column is not a list"@,
            SchemaFault::ChoiceNotString => "'choices' items are not strings"@,
            SchemaFault::MissingAnswer => "missing 'answer' column"@,
            SchemaFault::AnswerNotInt64 => "'answer' column is not int64"@,
            SchemaFault::MissingMessages => "missing 'messages' column"@,
            SchemaFault::MessagesNotList => "'messages' column is not a list"@,
            SchemaFault::MessageNotStruct => "'messages' items are not structs"@,
            SchemaFault::NoRoleField => "'messages' structs lack a string 'role' field"@,
            SchemaFault::NoContentField => "'messages' structs lack a string 'content' field"@,
            SchemaFault::NoQuestionStrings => "missing string 'question' column"@,
            SchemaFault::NoAnswerStrings => "missing string 'answer' column"@,
        }
    }

    pub fn text(self) -> (s: &'static str)
        ensures
            s@ == self.sentence(),
    {
        match self {
            SchemaFault::MissingQuestion => "missing 'question' column",
            SchemaFault::QuestionNotString => "'question' column is not a string",
            SchemaFault::MissingChoices => "missing 'choices' column",
            SchemaFault::ChoicesNotList => "'choices' column is not a list",
            SchemaFault::ChoiceNotString => "'choices' items are not strings",
            SchemaFault::MissingAnswer => "missing 'answer' column",
            SchemaFault::AnswerNotInt64 => "'answer' column is not int64",
            SchemaFault::MissingMessages => "missing 'messages' column",
            SchemaFault::MessagesNotList => "'messages' column is not a list",
            SchemaFault::MessageNotStruct => "'messages' items are not structs",
            SchemaFault::NoRoleField => "'messages' structs lack a string 'role' field",
            SchemaFault::NoContentField => "'messages' structs lack a string 'content' field",
            SchemaFault::NoQuestionStrings => "missing string 'question' column",
            SchemaFault::NoAnswerStrings => "missing string 'answer' column",
        }
    }
}

/// What is wrong with a row.
#[derive(Debug, Clone, PartialEq, Eq)]
pub enum RowFault {
    NullField,
    NullChoice,
    ChoiceCount { got: usize },
    AnswerOutOfRange { answer: i64 },
    NullMessages,
    NullMessage { index: usize },
    UnknownRole { role: String },
}

/// What is wrong with a row, as a mathematical value.
pub enum RowFaultModel {
    NullField,
    NullChoice,
    ChoiceCount(int),
    AnswerOutOfRange(int),
    NullMessages,
    NullMessage(int),
    UnknownRole(Seq<char>),
}

impl RowFault {
    pub open spec fn view(self) -> RowFaultModel {
        match self {
            RowFault::NullField => RowFaultModel::NullField,
            RowFault::NullChoice => RowFaultModel::NullChoice,
            RowFault::ChoiceCount { got } => RowFaultModel::ChoiceCount(got as int),
            RowFault::AnswerOutOfRange { answer } => RowFaultModel::AnswerOutOfRange(answer as int),
            RowFault::NullMessages => RowFaultModel::NullMessages,
            RowFault::NullMessage { index } => RowFaultModel::NullMessage(index as int),
            RowFault::UnknownRole { role } => RowFaultModel::UnknownRole(role@),
        }
    }

    pub open spec fn sentence(self) -> Seq<char> {
        match self {
            RowFault::NullField => "null field"@,
            RowFault::NullChoice => "null choice"@,
            RowFault::ChoiceCount { got } => "expected 4 choices, got "@ + decimal(got as nat),
            RowFault::AnswerOutOfRange { answer } => "answer "@ + signed_decimal(answer as int)
                + " out of range 0..=3"@,
            RowFault::NullMessages => "null 'messages' entry"@,
            RowFault::NullMessage { index } => "null message at index "@ + decimal(index as nat),
            RowFault::UnknownRole { role } => "unknown role "@ + quoted(role@),
        }
    }

    pub fn message(&self) -> (s: String)
        ensures
            s@ == self.sentence(),
    {
        match self {
            RowFault::NullField => String::from_str("null field"),
            RowFault::NullChoice => String::from_str("null choice"),
            RowFault::ChoiceCount { got } => {
                let mut s = String::from_str("expected 4 choices, got ");
                push_decimal(&mut s, *got as u64);
                s
            },
            RowFault::AnswerOutOfRange { answer } => {
                let mut s = String::from_str("answer ");
                push_signed(&mut s, *answer);
                s.append(" out of range 0..=3");
                s
            },
            RowFault::NullMessages => String::from_str("null 'messages' entry"),
            RowFault::NullMessage { index } => {
                let mut s = String::from_str("null message at index ");
                push_decimal(&mut s, *index as u64);
                s
            },
            RowFault::UnknownRole { role } => {
                let mut s = String::from_str("unknown role ");
                s.append(quote(role.as_str()).as_str());
                s
            },
        }
    }
}

/// Why a dataset cannot be loaded: the file, counted from 0, and what is wrong
/// with its columns or with one of its rows, counted from 0 within the file.
#[derive(Debug, Clone, PartialEq, Eq)]
pub enum TaskError {
    Schema { file: usize, schema: SchemaFault },
    Row { file: usize, row: usize, fault: RowFault },
}

/// Why a file cannot be loaded.
pub enum FileFault {
    Schema(SchemaFault),
    Row(int, RowFaultModel),
}

impl TaskError {
    pub open spec fn view(self) -> (int, FileFault) {
        match self {
            TaskError::Schema { file, schema } => (file as int, FileFault::Schema(schema)),
            TaskError::Row { file, row, fault } => (
                file as int,
                FileFault::Row(row as int, fault@),
            ),
        }
    }

    /// The error as a sentence, where the file is at `path`.
    pub open spec fn sentence(self, path: Seq<char>) -> Seq<char> {
        match self {
            TaskError::Schema { schema, .. } => path + ": "@ + schema.sentence(),
            TaskError::Row { row, fault, .. } => path + ": row "@ + decimal(row as nat) + ": "@
                + fault.sentence(),
        }
    }

    /// The error as a sentence, where the file is at `path`.
    pub fn message(&self, path: &str) -> (s: String)
        ensures
            s@ == self.sentence(path@),
    {
        let mut s = String::from_str(path);
        match self {
            TaskError::Schema { schema, .. } => {
                s.append(": ");
                s.append(schema.text());
            },
            TaskError::Row { row, fault, .. } => {
                s.append(": row ");
                push_decimal(&mut s, *row as u64);
                s.append(": ");
                s.append(fault.message().as_str());
            },
        }
        s
    }
}

/// A batch of rows of a dataset.
pub trait TaskBatch: Sized {
    /// The columns have the same number of rows.
    spec fn wf(&self) -> bool;

    /// What is wrong with the columns.
    spec fn schema_fault(&self) -> Option<SchemaFault>;

    /// The number of rows.
    spec fn row_count(&self) -> int;

    /// The conversation of a row, or what is wrong with it.
    spec fn row_outcome(&self, i: int) -> Result<Seq<MessageModel>, RowFaultModel>;

    fn check_schema(&self) -> (r: Option<SchemaFault>)
        requires
            self.wf(),
        ensures
            r == self.schema_fault(),
    ;

    fn num_rows(&self) -> (n: usize)
        requires
            self.wf(),
            self.schema_fault() is None,
        ensures
            n == self.row_count(),
    ;

    fn decode_row(&self, i: usize) -> (r: Result<Conversation, RowFault>)
        requires
            self.wf(),
            self.schema_fault() is None,
            i < self.row_count(),
        ensures
            match r {
                Ok(c) => self.row_outcome(i as int) == Ok::<Seq<MessageModel>, RowFaultModel>(c@),
                Err(e) => self.row_outcome(i as int) == Err::<Seq<MessageModel>, RowFaultModel>(
                    e@,
                ),
            },
    ;
}

/// The conversations of the first `n` rows of a batch, or the first row that
/// is wrong.
pub open spec fn rows_outcome<B: TaskBatch>(batch: B, n: int) -> Result<
    Seq<Seq<MessageModel>>,
    (int, RowFaultModel),
>
    decreases n,
{
    if n <= 0 {
        Ok(Seq::empty())
    } else {
        match rows_outcome(batch, n - 1) {
            Err(e) => Err(e),
            Ok(s) => match batch.row_outcome(n - 1) {
                Ok(c) => Ok(s.push(c)),
                Err(f) => Err((n - 1, f)),
            },
        }
    }
}

/// The conversations of the first `n` batches of a file, or the first fault.
pub open spec fn file_outcome<B: TaskBatch>(batches: Seq<B>, n: int) -> Result<
    Seq<Seq<MessageModel>>,
    FileFault,
>
    decreases n,
{
    if n <= 0 {
        Ok(Seq::empty())
    } else {
        match file_outcome(batches, n - 1) {
            Err(e) => Err(e),
            Ok(s) => match batches[n - 1].schema_fault() {
                Some(f) => Err(FileFault::Schema(f)),
                None => match rows_outcome(batches[n - 1], batches[n - 1].row_count()) {
                    Ok(t) => Ok(s + t),
                    Err(e) => Err(FileFault::Row(s.len() + e.0, e.1)),
                },
            },
        }
    }
}

/// The conversations of the first `n` files, or the first file with a fault.
pub open spec fn files_outcome<B: TaskBatch>(files: Seq<Vec<B>>, n: int) -> Result<
    Seq<Seq<MessageModel>>,
    (int, FileFault),
>
    decreases n,
{
    if n <= 0 {
        Ok(Seq::empty())
    } else {
        match files_outcome(files, n - 1) {
            Err(e) => Err(e),
            Ok(s) => match file_outcome(files[n - 1]@, files[n - 1]@.len() as int) {
                Ok(t) => Ok(s + t),
                Err(f) => Err((n - 1, f)),
            },
        }
    }
}

/// Whether every batch of every file is well-formed.
pub open spec fn all_batches_wf<B: TaskBatch>(files: Seq<Vec<B>>) -> bool {
    forall|f: int, b: int|
        0 <= f < files.len() && 0 <= b < files[f]@.len() ==> (#[trigger] files[f]@[b]).wf()
}

/// A fault, once met, stays the outcome.
proof fn lemma_rows_err<B: TaskBatch>(batch: B, m: int, n: int)
    requires
        m <= n,
        rows_outcome(batch, m) is Err,
    ensures
        rows_outcome(batch, n) == rows_outcome(batch, m),
    decreases n - m,
{
    if m < n {
        lemma_rows_err(batch, m, n - 1);
    }
}

proof fn lemma_file_err<B: TaskBatch>(batches: Seq<B>, m: int, n: int)
    requires
        m <= n,
        file_outcome(batches, m) is Err,
    ensures
        file_outcome(batches, n) == file_outcome(batches, m),
    decreases n - m,
{
    if m < n {
        lemma_file_err(batches, m, n - 1);
    }
}

proof fn lemma_files_err<B: TaskBatch>(files: Seq<Vec<B>>, m: int, n: int)
    requires
        m <= n,
        files_outcome(files, m) is Err,
    ensures
        files_outcome(files, n) == files_outcome(files, m),
    decreases n - m,
{
    if m < n {
        lemma_files_err(files, m, n - 1);
    }
}

/// Appends the conversations of a batch. `base` is where its file starts in
/// `out`.
fn load_batch<B: TaskBatch>(batch: &B, out: &mut Vec<Conversation>, base: usize) -> (r: Result<
    (),
    (usize, RowFault),
>)
    requires
        batch.wf(),
        batch.schema_fault() is None,
        base <= old(out)@.len(),
    ensures
        match r {
            Ok(_) => {
                &&& rows_outcome(*batch, batch.row_count()) is Ok
                &&& conversation_models(final(out)@) == conversation_models(old(out)@)
                    + rows_outcome(*batch, batch.row_count())->Ok_0
            },
            Err(e) => {
                &&& rows_outcome(*batch, batch.row_count()) is Err
                &&& e.0 == old(out)@.len() - base + rows_outcome(
                    *batch,
                    batch.row_count(),
                )->Err_0.0
                &&& e.1@ == rows_outcome(*batch, batch.row_count())->Err_0.1
            },
        },
{
    let n: usize = batch.num_rows();
    let ghost start = conversation_models(out@);
    let ghost len0 = out@.len();
    let mut i: usize = 0;
    assert(conversation_models(out@) =~= start + Seq::<Seq<MessageModel>>::empty());
    while i < n
        invariant
            batch.wf(),
            batch.schema_fault() is None,
            n == batch.row_count(),
            i <= n,
            base <= len0,
            len0 == old(out)@.len(),
            start == conversation_models(old(out)@),
            out@.len() == len0 + i,
            rows_outcome(*batch, i as int) is Ok,
            conversation_models(out@) == start + rows_outcome(*batch, i as int)->Ok_0,
        decreases n - i,
    {
        match batch.decode_row(i) {
            Err(fault) => {
                proof {
                    assert(rows_outcome(*batch, i + 1) is Err);
                    lemma_rows_err(*batch, i + 1, n as int);
                }
                return Err((out.len() - base, fault));
            },
            Ok(conv) => {
                let ghost before = conversation_models(out@);
                out.push(conv);
                proof {
                    assert(conversation_models(out@) =~= before.push(conv@));
                    assert(rows_outcome(*batch, i + 1)->Ok_0 == rows_outcome(
                        *batch,
                        i as int,
                    )->Ok_0.push(conv@));
                    assert(conversation_models(out@) =~= start + rows_outcome(
                        *batch,
                        i + 1,
                    )->Ok_0);
                }
            },
        }
        i += 1;
    }
    Ok(())
}

/// Appends the conversations of a file.
fn load_file<B: TaskBatch>(batches: &Vec<B>, out: &mut Vec<Conversation>, file: usize) -> (r:
    Result<(), TaskError>)
    requires
        forall|b: int| 0 <= b < batches@.len() ==> (#[trigger] batches@[b]).wf(),
    ensures
        match r {
            Ok(_) => {
                &&& file_outcome(batches@, batches@.len() as int) is Ok
                &&& conversation_models(final(out)@) == conversation_models(old(out)@)
                    + file_outcome(batches@, batches@.len() as int)->Ok_0
            },
            Err(e) => {
                &&& file_outcome(batches@, batches@.len() as int) is Err
                &&& e@ == (
                    file as int,
                    file_outcome(batches@, batches@.len() as int)->Err_0,
                )
            },
        },
{
    let base: usize = out.len();
    let ghost start = conversation_models(out@);
    let mut b: usize = 0;
    assert(conversation_models(out@) =~= start + Seq::<Seq<MessageModel>>::empty());
    while b < batches.len()
        invariant
            forall|b: int| 0 <= b < batches@.len() ==> (#[trigger] batches@[b]).wf(),
            b <= batches@.len(),
            base == old(out)@.len(),
            base <= out@.len(),
            start == conversation_models(old(out)@),
            file_outcome(batches@, b as int) is Ok,
            conversation_models(out@) == start + file_outcome(batches@, b as int)->Ok_0,
        decreases batches@.len() - b,
    {
        let ghost n = batches@.len() as int;
        let ghost done = file_outcome(batches@, b as int)->Ok_0;
        assert(conversation_models(out@).len() == out@.len());
        assert(batches@[b as int].wf());
        if let Some(schema) = batches[b].check_schema() {
            proof {
                lemma_file_err(batches@, b + 1, n);
            }
            return Err(TaskError::Schema { file, schema });
        }
        match load_batch(&batches[b], out, base) {
            Err(e) => {
                proof {
                    lemma_file_err(batches@, b + 1, n);
                }
                return Err(TaskError::Row { file, row: e.0, fault: e.1 });
            },
            Ok(_) => {},
        }
        proof {
            let more = rows_outcome(batches@[b as int], batches@[b as int].row_count())->Ok_0;
            assert(start + done + more =~= start + (done + more));
            assert(conversation_models(out@).len() == out@.len());
        }
        b += 1;
    }
    Ok(())
}

/// Loads the files of a dataset, batch by batch and row by row.
pub fn load_dataset<B: TaskBatch>(files: &Vec<Vec<B>>) -> (r: Result<Vec<Conversation>, TaskError>)
    requires
        all_batches_wf(files@),
    ensures
        match r {
            Ok(out) => files_outcome(files@, files@.len() as int) == Ok::<
                Seq<Seq<MessageModel>>,
                (int, FileFault),
            >(conversation_models(out@)),
            Err(e) => files_outcome(files@, files@.len() as int) == Err::<
                Seq<Seq<MessageModel>>,
                (int, FileFault),
            >(e@),
        },
{
    let mut out: Vec<Conversation> = Vec::new();
    let mut f: usize = 0;
    assert(conversation_models(out@) =~= Seq::<Seq<MessageModel>>::empty());
    while f < files.len()
        invariant
            all_batches_wf(files@),
            f <= files@.len(),
            files_outcome(files@, f as int) == Ok::<Seq<Seq<MessageModel>>, (int, FileFault)>(
                conversation_models(out@),
            ),
        decreases files@.len() - f,
    {
        let ghost n = files@.len() as int;
        assert forall|b: int| 0 <= b < files@[f as int]@.len() implies (
        #[trigger] files@[f as int]@[b]).wf() by {}
        match load_file(&files[f], &mut out, f) {
            Err(e) => {
                proof {
                    lemma_files_err(files@, f + 1, n);
                }
                return Err(e);
            },
            Ok(_) => {},
        }
        f += 1;
    }
    Ok(out)
}

} // verus!
