//! SmolTalk: general conversations. A row holds the messages of one
//! conversation.
use vstd::prelude::*;

use super::dataset::{
    all_batches_wf, files_outcome, load_dataset, named_role, role_from_str, FileFault, RowFault,
    RowFaultModel, SchemaFault, TaskBatch, TaskError,
};
use crate::tokenizer::chat::{
    conversation_models, Content, ContentModel, Conversation, Message, MessageModel,
};

verus! {

/// A message as it is stored.
#[derive(Debug, Clone, PartialEq, Eq)]
pub struct RawMessage {
    pub role: String,
    pub content: String,
}

/// The column of the messages. A row may be null, and so may a message.
#[derive(Debug, Clone, PartialEq, Eq)]
pub enum MessagesColumn {
    Missing,
    NotList,
    ItemsNotStructs,
    NoRole,
    NoContent,
    Rows(Vec<Option<Vec<Option<RawMessage>>>>),
}

/// A batch of rows.
#[derive(Debug, Clone, PartialEq, Eq)]
pub struct SmoltalkBatch {
    pub messages: MessagesColumn,
}

/// A stored message as a message.
pub open spec fn read_message(raw: RawMessage) -> MessageModel {
    MessageModel {
        role: named_role(raw.role@)->0,
        content: ContentModel::Text(raw.content@),
    }
}

/// The first `n` messages of a row, or what is wrong with the first that is
/// wrong: it is null, or its role is none.
pub open spec fn read_messages(raw: Seq<Option<RawMessage>>, n: int) -> Result<
    Seq<MessageModel>,
    RowFaultModel,
>
    decreases n,
{
    if n <= 0 {
        Ok(Seq::empty())
    } else {
        match read_messages(raw, n - 1) {
            Err(e) => Err(e),
            Ok(s) => match raw[n - 1] {
                None => Err(RowFaultModel::NullMessage(n - 1)),
                Some(m) => if named_role(m.role@) is None {
                    Err(RowFaultModel::UnknownRole(m.role@))
                } else {
                    Ok(s.push(read_message(m)))
                },
            },
        }
    }
}

/// The conversation of a row.
pub open spec fn smoltalk_row(row: Option<Vec<Option<RawMessage>>>) -> Result<
    Seq<MessageModel>,
    RowFaultModel,
> {
    match row {
        None => Err(RowFaultModel::NullMessages),
        Some(raw) => read_messages(raw@, raw@.len() as int),
    }
}

proof fn lemma_messages_err(raw: Seq<Option<RawMessage>>, m: int, n: int)
    requires
        m <= n,
        read_messages(raw, m) is Err,
    ensures
        read_messages(raw, n) == read_messages(raw, m),
    decreases n - m,
{
    if m < n {
        lemma_messages_err(raw, m, n - 1);
    }
}

/// Reads the messages of a row.
pub fn decode_messages(raw: &Vec<Option<RawMessage>>) -> (r: Result<Conversation, RowFault>)
    ensures
        match r {
            Ok(c) => read_messages(raw@, raw@.len() as int) == Ok::<
                Seq<MessageModel>,
                RowFaultModel,
            >(c@),
            Err(e) => read_messages(raw@, raw@.len() as int) == Err::<
                Seq<MessageModel>,
                RowFaultModel,
            >(e@),
        },
{
    let ghost n = raw@.len() as int;
    let mut conv = Conversation { messages: Vec::new() };
    let mut i: usize = 0;
    assert(conv@ =~= Seq::empty());
    while i < raw.len()
        invariant
            i <= raw@.len(),
            n == raw@.len(),
            read_messages(raw@, i as int) == Ok::<Seq<MessageModel>, RowFaultModel>(conv@),
        decreases raw@.len() - i,
    {
        match &raw[i] {
            None => {
                proof {
                    lemma_messages_err(raw@, i + 1, n);
                }
                return Err(RowFault::NullMessage { index: i });
            },
            Some(m) => {
                match role_from_str(m.role.as_str()) {
                    None => {
                        proof {
                            lemma_messages_err(raw@, i + 1, n);
                        }
                        return Err(RowFault::UnknownRole { role: m.role.clone() });
                    },
                    Some(role) => {
                        let ghost before = conv@;
                        conv.messages.push(
                            Message { role, content: Content::Text(m.content.clone()) },
                        );
                        assert(conv@ =~= before.push(read_message(*m)));
                    },
                }
            },
        }
        i += 1;
    }
    Ok(conv)
}

impl TaskBatch for SmoltalkBatch {
    open spec fn wf(&self) -> bool {
        true
    }

    open spec fn schema_fault(&self) -> Option<SchemaFault> {
        match self.messages {
            MessagesColumn::Missing => Some(SchemaFault::MissingMessages),
            MessagesColumn::NotList => Some(SchemaFault::MessagesNotList),
            MessagesColumn::ItemsNotStructs => Some(SchemaFault::MessageNotStruct),
            MessagesColumn::NoRole => Some(SchemaFault::NoRoleField),
            MessagesColumn::NoContent => Some(SchemaFault::NoContentField),
            MessagesColumn::Rows(_) => None,
        }
    }

    open spec fn row_count(&self) -> int {
        self.messages->Rows_0@.len() as int
    }

    open spec fn row_outcome(&self, i: int) -> Result<Seq<MessageModel>, RowFaultModel> {
        smoltalk_row(self.messages->Rows_0@[i])
    }

    fn check_schema(&self) -> (r: Option<SchemaFault>) {
        match &self.messages {
            MessagesColumn::Missing => Some(SchemaFault::MissingMessages),
            MessagesColumn::NotList => Some(SchemaFault::MessagesNotList),
            MessagesColumn::ItemsNotStructs => Some(SchemaFault::MessageNotStruct),
            MessagesColumn::NoRole => Some(SchemaFault::NoRoleField),
            MessagesColumn::NoContent => Some(SchemaFault::NoContentField),
            MessagesColumn::Rows(_) => None,
        }
    }

    fn num_rows(&self) -> (n: usize) {
        match &self.messages {
            MessagesColumn::Rows(rows) => rows.len(),
            _ => 0,
        }
    }

    fn decode_row(&self, i: usize) -> (r: Result<Conversation, RowFault>) {
        match &self.messages {
            MessagesColumn::Rows(rows) => match &rows[i] {
                None => Err(RowFault::NullMessages),
                Some(raw) => decode_messages(raw),
            },
            _ => {
                assert(false);
                Err(RowFault::NullMessages)
            },
        }
    }
}

/// Loads the files of the dataset, each given by its batches.
pub fn load(files: &Vec<Vec<SmoltalkBatch>>) -> (r: Result<Vec<Conversation>, TaskError>)
    requires
        all_batches_wf(files@),
    ensures
        match r {
            Ok(out) => files_outcome(files@, files@.len() as int) == Ok::<
                Seq<Seq<MessageModel>>,
                (int, FileFault),
            >(conversation_models(out@)),
            Err(e) => files_outcome(files@, files@.len() as int) == Err::<
                Seq<Seq<MessageModel>>,
                (int, FileFault),
            >(e@),
        },
{
    load_dataset(files)
}

} // verus!
