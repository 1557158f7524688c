//! Chat conversations rendered to token ids with a loss mask.
//!
//! The mask marks what the model has to produce itself: the assistant's text,
//! its tool calls and the token that ends its turn. What the user or the
//! harness supplies is context: the document start, user turns, the token that
//! opens an assistant turn, and tool output.
use vstd::prelude::*;

use super::bpe::BpeTokenizer;
use super::shared::{special_name, special_place_of_name, TokenId, NUM_SPECIAL_TOKENS};
use crate::text::push_decimal;

verus! {

/// Who wrote a message. A system message may only come first; it has no
/// delimiters of its own and joins the user turn that follows.
#[derive(Debug, Clone, Copy, PartialEq, Eq, Structural)]
pub enum Role {
    System,
    User,
    Assistant,
}

/// One part of a structured assistant message.
#[derive(Debug, Clone, PartialEq, Eq)]
pub enum Part {
    /// Prose (scored).
    Text(String),
    /// A tool call that the model emits (scored).
    Python(String),
    /// The reply of the tool, which the harness injects (not scored).
    PythonOutput(String),
}

/// What a message holds: text, or parts (for the assistant only).
#[derive(Debug, Clone, PartialEq, Eq)]
pub enum Content {
    Text(String),
    Parts(Vec<Part>),
}

#[derive(Debug, Clone, PartialEq, Eq)]
pub struct Message {
    pub role: Role,
    pub content: Content,
}

/// A conversation: an optional system message, then user and assistant in
/// turn, the user first. It may end on either.
#[derive(Debug, Clone, PartialEq, Eq)]
pub struct Conversation {
    pub messages: Vec<Message>,
}

/// A rendered conversation. `mask[i]` says whether the loss scores `ids[i]`.
#[derive(Debug, Clone, PartialEq, Eq)]
pub struct RenderedConversation {
    pub ids: Vec<TokenId>,
    pub mask: Vec<bool>,
}

impl RenderedConversation {
    /// Each id has its mask.
    pub open spec fn wf(self) -> bool {
        self.ids@.len() == self.mask@.len()
    }

    /// The ids with their masks.
    pub open spec fn view(self) -> Seq<(u32, bool)> {
        Seq::new(self.ids@.len(), |i: int| (self.ids@[i], self.mask@[i]))
    }
}

/// What a part says.
pub enum PartModel {
    Text(Seq<char>),
    Python(Seq<char>),
    PythonOutput(Seq<char>),
}

/// What a message says.
pub enum ContentModel {
    Text(Seq<char>),
    Parts(Seq<PartModel>),
}

/// A message as a mathematical value.
pub struct MessageModel {
    pub role: Role,
    pub content: ContentModel,
}

impl Part {
    pub open spec fn view(self) -> PartModel {
        match self {
            Part::Text(t) => PartModel::Text(t@),
            Part::Python(t) => PartModel::Python(t@),
            Part::PythonOutput(t) => PartModel::PythonOutput(t@),
        }
    }
}

/// What each part says.
pub open spec fn part_models(parts: Seq<Part>) -> Seq<PartModel> {
    Seq::new(parts.len(), |i: int| parts[i]@)
}

impl Content {
    pub open spec fn view(self) -> ContentModel {
        match self {
            Content::Text(t) => ContentModel::Text(t@),
            Content::Parts(parts) => ContentModel::Parts(part_models(parts@)),
        }
    }
}

impl Message {
    pub open spec fn view(self) -> MessageModel {
        MessageModel { role: self.role, content: self.content@ }
    }
}

impl Conversation {
    pub open spec fn view(self) -> Seq<MessageModel> {
        Seq::new(self.messages@.len(), |i: int| self.messages@[i]@)
    }
}

/// Copies a part.
fn copy_part(part: &Part) -> (r: Part)
    ensures
        r@ == part@,
{
    match part {
        Part::Text(t) => Part::Text(t.clone()),
        Part::Python(t) => Part::Python(t.clone()),
        Part::PythonOutput(t) => Part::PythonOutput(t.clone()),
    }
}

/// Copies the content of a message.
fn copy_content(content: &Content) -> (r: Content)
    ensures
        r@ == content@,
{
    match content {
        Content::Text(t) => Content::Text(t.clone()),
        Content::Parts(parts) => {
            let mut out: Vec<Part> = Vec::new();
            let mut i: usize = 0;
            while i < parts.len()
                invariant
                    i <= parts@.len(),
                    part_models(out@) == part_models(parts@).take(i as int),
                decreases parts@.len() - i,
            {
                let ghost before = part_models(out@);
                out.push(copy_part(&parts[i]));
                assert(part_models(out@) =~= before.push(parts@[i as int]@));
                assert(part_models(out@) =~= part_models(parts@).take(i + 1));
                i += 1;
            }
            assert(part_models(out@) =~= part_models(parts@));
            Content::Parts(out)
        },
    }
}

/// Copies a conversation.
pub fn copy_conversation(conv: &Conversation) -> (r: Conversation)
    ensures
        r@ == conv@,
{
    let mut out = Conversation { messages: Vec::new() };
    let mut i: usize = 0;
    while i < conv.messages.len()
        invariant
            i <= conv.messages@.len(),
            out@ == conv@.take(i as int),
        decreases conv.messages@.len() - i,
    {
        let ghost before = out@;
        let m = &conv.messages[i];
        out.messages.push(Message { role: m.role, content: copy_content(&m.content) });
        assert(out@ =~= before.push(m@));
        assert(out@ =~= conv@.take(i + 1));
        i += 1;
    }
    assert(out@ =~= conv@);
    out
}

/// Copies conversations.
pub fn copy_conversations(convs: &Vec<Conversation>) -> (out: Vec<Conversation>)
    ensures
        conversation_models(out@) == conversation_models(convs@),
{
    let mut out: Vec<Conversation> = Vec::new();
    let mut i: usize = 0;
    while i < convs.len()
        invariant
            i <= convs@.len(),
            conversation_models(out@) == conversation_models(convs@).take(i as int),
        decreases convs@.len() - i,
    {
        let ghost before = conversation_models(out@);
        out.push(copy_conversation(&convs[i]));
        assert(conversation_models(out@) =~= before.push(convs@[i as int]@));
        assert(conversation_models(out@) =~= conversation_models(convs@).take(i + 1));
        i += 1;
    }
    assert(conversation_models(out@) =~= conversation_models(convs@));
    out
}

/// What each conversation says.
pub open spec fn conversation_models(convs: Seq<Conversation>) -> Seq<Seq<MessageModel>> {
    Seq::new(convs.len(), |i: int| convs[i]@)
}

/// What is wrong with a conversation. Indices count its messages from 0.
#[derive(Debug, Clone, Copy, PartialEq, Eq, Structural)]
pub enum ChatError {
    NoMessages,
    SystemNotText,
    SystemAlone,
    SystemThen { got: Role },
    WrongRole { index: usize, expected: Role, got: Role },
    UserNotText { index: usize },
}

/// The name of a role.
pub open spec fn role_text(role: Role) -> Seq<char> {
    match role {
        Role::System => "system"@,
        Role::User => "user"@,
        Role::Assistant => "assistant"@,
    }
}

/// The name of a role.
pub fn role_name(role: Role) -> (s: &'static str)
    ensures
        s@ == role_text(role),
{
    match role {
        Role::System => "system",
        Role::User => "user",
        Role::Assistant => "assistant",
    }
}

impl ChatError {
    /// The error as a sentence.
    pub open spec fn sentence(self) -> Seq<char> {
        match self {
            ChatError::NoMessages => "conversation has no messages"@,
            ChatError::SystemNotText => "system message content must be text"@,
            ChatError::SystemAlone =>
                "system message must be followed by a user message, but the conversation ends after it"@,
            ChatError::SystemThen { got } =>
                "system message must be followed by a user message, got "@ + role_text(got),
            ChatError::WrongRole { index, expected, got } => "message "@ + crate::text::decimal(
                index as nat,
            ) + ": expected "@ + role_text(expected) + ", got "@ + role_text(got),
            ChatError::UserNotText { index } => "message "@ + crate::text::decimal(index as nat)
                + ": user message content must be text"@,
        }
    }

    /// The error as a sentence.
    pub fn message(&self) -> (s: String)
        ensures
            s@ == self.sentence(),
    {
        match self {
            ChatError::NoMessages => String::from_str("conversation has no messages"),
            ChatError::SystemNotText => String::from_str("system message content must be text"),
            ChatError::SystemAlone => String::from_str(
                "system message must be followed by a user message, but the conversation ends after it",
            ),
            ChatError::SystemThen { got } => {
                let mut s = String::from_str(
                    "system message must be followed by a user message, got ",
                );
                s.append(role_name(*got));
                s
            },
            ChatError::WrongRole { index, expected, got } => {
                let mut s = String::from_str("message ");
                push_decimal(&mut s, *index as u64);
                s.append(": expected ");
                s.append(role_name(*expected));
                s.append(", got ");
                s.append(role_name(*got));
                s
            },
            ChatError::UserNotText { index } => {
                let mut s = String::from_str("message ");
                push_decimal(&mut s, *index as u64);
                s.append(": user message content must be text");
                s
            },
        }
    }
}

// ---------------------------------------------------------------------------
// What a conversation is, and what it renders to
// ---------------------------------------------------------------------------

/// Whose turn it is at message `i`, where the user speaks at `first`.
pub open spec fn expected_role(i: int, first: int) -> Role {
    if (i - first) % 2 == 0 {
        Role::User
    } else {
        Role::Assistant
    }
}

/// The first thing wrong with the messages from `i` on.
pub open spec fn turn_fault(messages: Seq<Message>, i: int, first: int) -> Option<ChatError>
    decreases messages.len() - i,
{
    if i >= messages.len() {
        None
    } else if messages[i].role != expected_role(i, first) {
        Some(
            ChatError::WrongRole {
                index: i as usize,
                expected: expected_role(i, first),
                got: messages[i].role,
            },
        )
    } else if expected_role(i, first) == Role::User && !(messages[i].content is Text) {
        Some(ChatError::UserNotText { index: i as usize })
    } else {
        turn_fault(messages, i + 1, first)
    }
}

/// Whether the conversation opens with a system message.
pub open spec fn has_system(messages: Seq<Message>) -> bool {
    messages.len() > 0 && messages[0].role == Role::System
}

/// Where the user first speaks.
pub open spec fn first_user(messages: Seq<Message>) -> int {
    if has_system(messages) {
        1
    } else {
        0
    }
}

/// The first message that is a turn of its own: the two first messages make
/// one turn where the conversation opens with a system message.
pub open spec fn first_turn(messages: Seq<Message>) -> int {
    if has_system(messages) {
        2
    } else {
        0
    }
}

/// The first thing wrong with a conversation.
pub open spec fn conversation_fault(messages: Seq<Message>) -> Option<ChatError> {
    if messages.len() == 0 {
        Some(ChatError::NoMessages)
    } else if has_system(messages) {
        if !(messages[0].content is Text) {
            Some(ChatError::SystemNotText)
        } else if messages.len() == 1 {
            Some(ChatError::SystemAlone)
        } else if messages[1].role != Role::User {
            Some(ChatError::SystemThen { got: messages[1].role })
        } else if !(messages[1].content is Text) {
            Some(ChatError::UserNotText { index: 1 })
        } else {
            turn_fault(messages, 2, 1)
        }
    } else {
        turn_fault(messages, 0, 0)
    }
}

/// The ids, all with the same mask.
pub open spec fn masked(ids: Seq<u32>, scored: bool) -> Seq<(u32, bool)> {
    Seq::new(ids.len(), |i: int| (ids[i], scored))
}

/// The special token at place `k` with a mask.
pub open spec fn special(tok: BpeTokenizer, k: int, scored: bool) -> Seq<(u32, bool)> {
    seq![((tok.first_special() + k) as u32, scored)]
}

/// A text with a mask.
pub open spec fn prose(tok: BpeTokenizer, text: Seq<char>, scored: bool) -> Seq<(u32, bool)> {
    masked(tok.text_ids(text), scored)
}

/// A user turn.
pub open spec fn user_turn(tok: BpeTokenizer, text: Seq<char>) -> Seq<(u32, bool)> {
    special(tok, 1, false) + prose(tok, text, false) + special(tok, 2, false)
}

/// One part of an assistant turn.
pub open spec fn part_tokens(tok: BpeTokenizer, part: Part) -> Seq<(u32, bool)> {
    match part {
        Part::Text(t) => prose(tok, t@, true),
        Part::Python(t) => special(tok, 5, true) + prose(tok, t@, true) + special(tok, 6, true),
        Part::PythonOutput(t) => special(tok, 7, false) + prose(tok, t@, false) + special(
            tok,
            8,
            false,
        ),
    }
}

/// The parts of an assistant turn, one after the other.
pub open spec fn parts_tokens(tok: BpeTokenizer, parts: Seq<Part>) -> Seq<(u32, bool)>
    decreases parts.len(),
{
    if parts.len() == 0 {
        Seq::empty()
    } else {
        parts_tokens(tok, parts.drop_last()) + part_tokens(tok, parts.last())
    }
}

/// An assistant turn.
pub open spec fn assistant_turn(tok: BpeTokenizer, content: Content) -> Seq<(u32, bool)> {
    let inner = match content {
        Content::Text(t) => prose(tok, t@, true),
        Content::Parts(parts) => parts_tokens(tok, parts@),
    };
    special(tok, 3, false) + inner + special(tok, 4, true)
}

/// The turns of the messages from `from` up to `to`.
pub open spec fn turns(
    tok: BpeTokenizer,
    messages: Seq<Message>,
    from: int,
    to: int,
    first: int,
) -> Seq<(u32, bool)>
    decreases to - from,
{
    if to <= from {
        Seq::empty()
    } else {
        turns(tok, messages, from, to - 1, first) + if expected_role(to - 1, first) == Role::User {
            user_turn(tok, messages[to - 1].content->Text_0@)
        } else {
            assistant_turn(tok, messages[to - 1].content)
        }
    }
}

/// The text of the system message joined with that of the first user message.
pub open spec fn opening_text(messages: Seq<Message>) -> Seq<char> {
    messages[0].content->Text_0@ + "\n\n"@ + messages[1].content->Text_0@
}

/// The turn that a system message and the first user message make, if there is a
/// system message.
pub open spec fn opening(tok: BpeTokenizer, messages: Seq<Message>) -> Seq<(u32, bool)> {
    if has_system(messages) {
        user_turn(tok, opening_text(messages))
    } else {
        Seq::empty()
    }
}

/// All tokens of a conversation.
pub open spec fn rendering(tok: BpeTokenizer, messages: Seq<Message>) -> Seq<(u32, bool)> {
    special(tok, 0, false) + opening(tok, messages) + turns(
        tok,
        messages,
        first_turn(messages),
        messages.len() as int,
        first_user(messages),
    )
}

/// At most the first `max` items.
pub open spec fn at_most<T>(s: Seq<T>, max: int) -> Seq<T> {
    if s.len() <= max {
        s
    } else {
        s.take(max)
    }
}

/// Whether the regex engine splits every text of a message.
pub open spec fn content_splits(content: Content) -> bool {
    match content {
        Content::Text(t) => BpeTokenizer::can_split(t@),
        Content::Parts(parts) => forall|i: int|
            0 <= i < parts@.len() ==> #[trigger] part_splits(parts@[i]),
    }
}

/// Whether the regex engine splits the text of a part.
pub open spec fn part_splits(part: Part) -> bool {
    match part {
        Part::Text(t) => BpeTokenizer::can_split(t@),
        Part::Python(t) => BpeTokenizer::can_split(t@),
        Part::PythonOutput(t) => BpeTokenizer::can_split(t@),
    }
}

/// Whether the regex engine splits every text of a well-formed conversation.
pub open spec fn splits(messages: Seq<Message>) -> bool {
    &&& has_system(messages) ==> BpeTokenizer::can_split(opening_text(messages))
    &&& forall|i: int|
        first_turn(messages) <= i < messages.len() ==> content_splits(
            (#[trigger] messages[i]).content,
        )
}

/// Whether a conversation can be rendered, or is rejected for its form.
pub open spec fn renderable(messages: Seq<Message>) -> bool {
    conversation_fault(messages) is None ==> splits(messages)
}

// ---------------------------------------------------------------------------
// Rendering
// ---------------------------------------------------------------------------

/// The ids of the special tokens that delimit turns and parts.
struct ChatSpecials {
    user_start: TokenId,
    user_end: TokenId,
    assistant_start: TokenId,
    assistant_end: TokenId,
    python_start: TokenId,
    python_end: TokenId,
    output_start: TokenId,
    output_end: TokenId,
}

/// The id of the special token at place `k`, by its name.
fn reserved_id(tok: &BpeTokenizer, name: &str, Ghost(k): Ghost<int>) -> (id: TokenId)
    requires
        0 <= k < NUM_SPECIAL_TOKENS,
        name@ == special_name(k),
    ensures
        id == tok.first_special() + k,
{
    proof {
        special_place_of_name(k);
    }
    match tok.special_id(name) {
        Some(id) => id,
        None => {
            assert(false);
            0
        },
    }
}

impl ChatSpecials {
    spec fn of(self, tok: BpeTokenizer) -> bool {
        &&& self.user_start == tok.first_special() + 1
        &&& self.user_end == tok.first_special() + 2
        &&& self.assistant_start == tok.first_special() + 3
        &&& self.assistant_end == tok.first_special() + 4
        &&& self.python_start == tok.first_special() + 5
        &&& self.python_end == tok.first_special() + 6
        &&& self.output_start == tok.first_special() + 7
        &&& self.output_end == tok.first_special() + 8
    }

    fn resolve(tok: &BpeTokenizer) -> (r: ChatSpecials)
        ensures
            r.of(*tok),
    {
        ChatSpecials {
            user_start: reserved_id(tok, "<|user_start|>", Ghost(1)),
            user_end: reserved_id(tok, "<|user_end|>", Ghost(2)),
            assistant_start: reserved_id(tok, "<|assistant_start|>", Ghost(3)),
            assistant_end: reserved_id(tok, "<|assistant_end|>", Ghost(4)),
            python_start: reserved_id(tok, "<|python_start|>", Ghost(5)),
            python_end: reserved_id(tok, "<|python_end|>", Ghost(6)),
            output_start: reserved_id(tok, "<|output_start|>", Ghost(7)),
            output_end: reserved_id(tok, "<|output_end|>", Ghost(8)),
        }
    }
}

/// Gathers ids and masks during a render.
struct Renderer<'a> {
    tok: &'a BpeTokenizer,
    sp: ChatSpecials,
    out: RenderedConversation,
}

impl<'a> Renderer<'a> {
    spec fn wf(self) -> bool {
        self.out.wf() && self.sp.of(*self.tok)
    }

    /// Nothing but the output has changed, and that by `more`.
    spec fn grew(self, from: Renderer<'a>, more: Seq<(u32, bool)>) -> bool {
        &&& self.wf()
        &&& self.tok == from.tok
        &&& self.sp == from.sp
        &&& self.out@ == from.out@ + more
    }

    fn push(&mut self, id: TokenId, scored: bool)
        requires
            old(self).wf(),
        ensures
            final(self).grew(*old(self), seq![(id, scored)]),
    {
        self.out.ids.push(id);
        self.out.mask.push(scored);
        assert(self.out@ == old(self).out@ + seq![(id, scored)]);
    }

    /// Appends a text; `false` if the regex engine gives up on it.
    fn text(&mut self, text: &str, scored: bool) -> (done: bool)
        requires
            old(self).wf(),
        ensures
            done == BpeTokenizer::can_split(text@),
            done ==> final(self).grew(*old(self), prose(*old(self).tok, text@, scored)),
    {
        match self.tok.encode_if_split(text) {
            None => false,
            Some(ids) => {
                let ghost want = masked(ids@, scored);
                let mut i: usize = 0;
                assert(self.out@ == old(self).out@ + want.take(0));
                while i < ids.len()
                    invariant
                        i <= ids@.len(),
                        want == masked(ids@, scored),
                        self.grew(*old(self), want.take(i as int)),
                    decreases ids@.len() - i,
                {
                    self.push(ids[i], scored);
                    assert(want.take(i + 1) == want.take(i as int) + seq![(ids@[i as int], scored)]);
                    assert(self.out@ == old(self).out@ + want.take(i + 1));
                    i += 1;
                }
                assert(want.take(i as int) == want);
                true
            },
        }
    }

    fn user_turn(&mut self, text: &str) -> (done: bool)
        requires
            old(self).wf(),
        ensures
            done == BpeTokenizer::can_split(text@),
            done ==> final(self).grew(*old(self), user_turn(*old(self).tok, text@)),
    {
        let start: TokenId = self.sp.user_start;
        let end: TokenId = self.sp.user_end;
        self.push(start, false);
        if !self.text(text, false) {
            return false;
        }
        self.push(end, false);
        assert(self.out@ == old(self).out@ + user_turn(*old(self).tok, text@));
        true
    }

    fn part(&mut self, part: &Part) -> (done: bool)
        requires
            old(self).wf(),
        ensures
            done == part_splits(*part),
            done ==> final(self).grew(*old(self), part_tokens(*old(self).tok, *part)),
    {
        match part {
            Part::Text(t) => self.text(t.as_str(), true),
            Part::Python(t) => {
                let start: TokenId = self.sp.python_start;
                let end: TokenId = self.sp.python_end;
                self.push(start, true);
                if !self.text(t.as_str(), true) {
                    return false;
                }
                self.push(end, true);
                assert(self.out@ == old(self).out@ + part_tokens(*old(self).tok, *part));
                true
            },
            Part::PythonOutput(t) => {
                let start: TokenId = self.sp.output_start;
                let end: TokenId = self.sp.output_end;
                self.push(start, false);
                if !self.text(t.as_str(), false) {
                    return false;
                }
                self.push(end, false);
                assert(self.out@ == old(self).out@ + part_tokens(*old(self).tok, *part));
                true
            },
        }
    }

    fn parts(&mut self, parts: &Vec<Part>) -> (done: bool)
        requires
            old(self).wf(),
        ensures
            done == (forall|i: int| 0 <= i < parts@.len() ==> #[trigger] part_splits(parts@[i])),
            done ==> final(self).grew(*old(self), parts_tokens(*old(self).tok, parts@)),
    {
        let mut i: usize = 0;
        assert(parts@.take(0) == Seq::<Part>::empty());
        assert(self.out@ == old(self).out@ + parts_tokens(*old(self).tok, parts@.take(0)));
        while i < parts.len()
            invariant
                i <= parts@.len(),
                self.grew(*old(self), parts_tokens(*old(self).tok, parts@.take(i as int))),
                forall|k: int| 0 <= k < i ==> #[trigger] part_splits(parts@[k]),
            decreases parts@.len() - i,
        {
            if !self.part(&parts[i]) {
                assert(!part_splits(parts@[i as int]));
                return false;
            }
            proof {
                let done = parts@.take(i + 1);
                assert(done.drop_last() == parts@.take(i as int));
                assert(done.last() == parts@[i as int]);
                assert(self.out@ == old(self).out@ + parts_tokens(*old(self).tok, done));
            }
            i += 1;
        }
        assert(parts@.take(i as int) == parts@);
        true
    }

    fn assistant_turn(&mut self, content: &Content) -> (done: bool)
        requires
            old(self).wf(),
        ensures
            done == content_splits(*content),
            done ==> final(self).grew(*old(self), assistant_turn(*old(self).tok, *content)),
    {
        let start: TokenId = self.sp.assistant_start;
        let end: TokenId = self.sp.assistant_end;
        self.push(start, false);
        let done: bool = match content {
            Content::Text(t) => self.text(t.as_str(), true),
            Content::Parts(parts) => self.parts(parts),
        };
        if !done {
            return false;
        }
        self.push(end, true);
        assert(self.out@ == old(self).out@ + assistant_turn(*old(self).tok, *content));
        true
    }
}

/// The first thing wrong with a conversation.
pub fn check_conversation(messages: &Vec<Message>) -> (r: Option<ChatError>)
    ensures
        r == conversation_fault(messages@),
{
    if messages.len() == 0 {
        return Some(ChatError::NoMessages);
    }
    let mut first: usize = 0;
    let mut i: usize = 0;
    if messages[0].role == Role::System {
        match &messages[0].content {
            Content::Text(_) => {},
            Content::Parts(_) => {
                return Some(ChatError::SystemNotText);
            },
        }
        if messages.len() == 1 {
            return Some(ChatError::SystemAlone);
        }
        if messages[1].role != Role::User {
            return Some(ChatError::SystemThen { got: messages[1].role });
        }
        match &messages[1].content {
            Content::Text(_) => {},
            Content::Parts(_) => {
                return Some(ChatError::UserNotText { index: 1 });
            },
        }
        first = 1;
        i = 2;
    }
    while i < messages.len()
        invariant
            first <= i <= messages@.len(),
            first <= 1,
            conversation_fault(messages@) == turn_fault(messages@, i as int, first as int),
        decreases messages@.len() - i,
    {
        let expected: Role = if (i - first) % 2 == 0 {
            Role::User
        } else {
            Role::Assistant
        };
        assert(expected == expected_role(i as int, first as int));
        if messages[i].role != expected {
            return Some(ChatError::WrongRole { index: i, expected, got: messages[i].role });
        }
        if expected == Role::User {
            match &messages[i].content {
                Content::Text(_) => {},
                Content::Parts(_) => {
                    return Some(ChatError::UserNotText { index: i });
                },
            }
        }
        i += 1;
    }
    None
}

/// In a well-formed conversation the user's messages are text.
proof fn lemma_users_speak_text(messages: Seq<Message>, i: int, first: int, k: int)
    requires
        turn_fault(messages, i, first) is None,
        i <= k < messages.len(),
        expected_role(k, first) == Role::User,
    ensures
        messages[k].content is Text,
    decreases messages.len() - i,
{
    if i < k {
        lemma_users_speak_text(messages, i + 1, first, k);
    }
}

impl BpeTokenizer {
    /// Renders a conversation, cut off after `max_tokens`; `None` if the regex
    /// engine gives up on one of its texts.
    pub(crate) fn render_if_split(&self, conv: &Conversation, max_tokens: usize) -> (r: Option<
        Result<RenderedConversation, ChatError>,
    >)
        ensures
            match r {
                None => !renderable(conv.messages@),
                Some(Err(e)) => conversation_fault(conv.messages@) == Some(e),
                Some(Ok(out)) => {
                    &&& conversation_fault(conv.messages@) is None
                    &&& splits(conv.messages@)
                    &&& out.wf()
                    &&& out@ == at_most(rendering(*self, conv.messages@), max_tokens as int)
                },
            },
    {
        let messages = &conv.messages;
        if let Some(e) = check_conversation(messages) {
            return Some(Err(e));
        }
        let ghost msgs = messages@;
        let mut r = Renderer {
            tok: self,
            sp: ChatSpecials::resolve(self),
            out: RenderedConversation { ids: Vec::new(), mask: Vec::new() },
        };
        let ghost start = r;
        let bos: TokenId = self.bos_id();
        r.push(bos, false);
        let mut first: usize = 0;
        let mut i: usize = 0;
        if messages[0].role == Role::System {
            let mut text = String::new();
            if let Content::Text(system) = &messages[0].content {
                text.append(system.as_str());
            }
            text.append("\n\n");
            if let Content::Text(user) = &messages[1].content {
                text.append(user.as_str());
            }
            assert(text@ == opening_text(msgs));
            if !r.user_turn(text.as_str()) {
                return None;
            }
            first = 1;
            i = 2;
        }
        let ghost opening = r.out@;
        assert(opening == special(*self, 0, false) + if has_system(msgs) {
            user_turn(*self, opening_text(msgs))
        } else {
            Seq::empty()
        });
        let ghost from = i as int;
        assert(r.out@ == opening + turns(*self, msgs, from, i as int, first as int));
        while i < messages.len()
            invariant
                msgs == messages@,
                msgs == conv.messages@,
                conversation_fault(msgs) is None,
                from == first_turn(msgs),
                first == first_user(msgs),
                turn_fault(msgs, from, first as int) is None,
                from <= i <= msgs.len(),
                first <= i,
                r.wf(),
                r.tok == self,
                r.out@ == opening + turns(*self, msgs, from, i as int, first as int),
                has_system(msgs) ==> BpeTokenizer::can_split(opening_text(msgs)),
                forall|k: int| from <= k < i ==> content_splits((#[trigger] msgs[k]).content),
            decreases msgs.len() - i,
        {
            if (i - first) % 2 == 0 {
                proof {
                    lemma_users_speak_text(msgs, from, first as int, i as int);
                }
                if let Content::Text(text) = &messages[i].content {
                    if !r.user_turn(text.as_str()) {
                        assert(!content_splits(msgs[i as int].content));
                        return None;
                    }
                }
            } else {
                if !r.assistant_turn(&messages[i].content) {
                    assert(!content_splits(msgs[i as int].content));
                    return None;
                }
            }
            i += 1;
            assert(r.out@ == opening + turns(*self, msgs, from, i as int, first as int));
        }
        let mut out = r.out;
        assert(out@ == rendering(*self, msgs));
        let ghost whole = out;
        out.ids.truncate(max_tokens);
        out.mask.truncate(max_tokens);
        assert(out@ == at_most(whole@, max_tokens as int));
        Some(Ok(out))
    }

    /// Renders a conversation to ids with a loss mask, both cut off after
    /// `max_tokens`. The cut may fall into an assistant turn.
    pub fn render_conversation(&self, conv: &Conversation, max_tokens: usize) -> (r: Result<
        RenderedConversation,
        ChatError,
    >)
        requires
            renderable(conv.messages@),
        ensures
            match r {
                Err(e) => conversation_fault(conv.messages@) == Some(e),
                Ok(out) => {
                    &&& conversation_fault(conv.messages@) is None
                    &&& out.wf()
                    &&& out@ == at_most(rendering(*self, conv.messages@), max_tokens as int)
                },
            },
    {
        match self.render_if_split(conv, max_tokens) {
            Some(r) => r,
            None => {
                assert(false);
                Err(ChatError::NoMessages)
            },
        }
    }

    /// Whether a conversation can be rendered, or is rejected for its form.
    pub fn can_render(&self, conv: &Conversation) -> (r: bool)
        ensures
            r == renderable(conv.messages@),
    {
        self.render_if_split(conv, 0).is_some()
    }

    /// Renders a conversation; `None` if the regex engine gives up on one of
    /// its texts.
    pub fn try_render_conversation(&self, conv: &Conversation, max_tokens: usize) -> (r: Option<
        Result<RenderedConversation, ChatError>,
    >)
        ensures
            match r {
                None => !renderable(conv.messages@),
                Some(Err(e)) => conversation_fault(conv.messages@) == Some(e),
                Some(Ok(out)) => {
                    &&& conversation_fault(conv.messages@) is None
                    &&& splits(conv.messages@)
                    &&& out.wf()
                    &&& out@ == at_most(rendering(*self, conv.messages@), max_tokens as int)
                },
            },
    {
        if self.can_render(conv) {
            Some(self.render_conversation(conv, max_tokens))
        } else {
            None
        }
    }

    /// Appends a user turn and the token that opens the assistant's reply.
    pub fn push_user_turn(&self, ids: &mut Vec<TokenId>, text: &str)
        requires
            Self::can_split(text@),
        ensures
            final(ids)@ == old(ids)@ + prompt_ids(*self, text@),
    {
        let sp = ChatSpecials::resolve(self);
        ids.push(sp.user_start);
        let mut more = self.encode(text);
        ids.append(&mut more);
        ids.push(sp.user_end);
        ids.push(sp.assistant_start);
        assert(ids@ == old(ids)@ + prompt_ids(*self, text@));
    }

    /// Appends a user turn and the token that opens the assistant's reply;
    /// `false`, with nothing appended, if the regex engine gives up on the text.
    pub fn try_push_user_turn(&self, ids: &mut Vec<TokenId>, text: &str) -> (done: bool)
        ensures
            done == Self::can_split(text@),
            done ==> final(ids)@ == old(ids)@ + prompt_ids(*self, text@),
            !done ==> final(ids)@ == old(ids)@,
    {
        if self.can_encode(text) {
            self.push_user_turn(ids, text);
            true
        } else {
            false
        }
    }

    /// The ids that end an assistant turn: the end of the turn, and the start
    /// of another document.
    pub fn assistant_stop_ids(&self) -> (r: [TokenId; 2])
        ensures
            r@ == seq![(self.first_special() + 4) as u32, self.first_special() as u32],
    {
        let end: TokenId = ChatSpecials::resolve(self).assistant_end;
        let bos: TokenId = self.bos_id();
        [end, bos]
    }
}

/// A user turn and the token that opens the reply.
pub open spec fn prompt_ids(tok: BpeTokenizer, text: Seq<char>) -> Seq<u32> {
    seq![(tok.first_special() + 1) as u32] + tok.text_ids(text) + seq![
        (tok.first_special() + 2) as u32,
        (tok.first_special() + 3) as u32,
    ]
}

/// The ids of a rendering.
pub open spec fn ids_of(tokens: Seq<(u32, bool)>) -> Seq<u32> {
    Seq::new(tokens.len(), |i: int| tokens[i].0)
}

/// A conversation built turn by turn has one format: the ids of a conversation
/// that ends on a user message, followed by the opening of a reply, are those
/// of the conversation without that message, followed by the pushed user turn.
pub proof fn pushed_turn_matches_rendering(
    tok: BpeTokenizer,
    messages: Seq<Message>,
    last: Message,
)
    requires
        messages.len() > 0,
        conversation_fault(messages) is None,
        conversation_fault(messages.push(last)) is None,
        last.role == Role::User,
        last.content is Text,
    ensures
        ids_of(rendering(tok, messages.push(last))).push((tok.first_special() + 3) as u32)
            == ids_of(rendering(tok, messages)) + prompt_ids(tok, last.content->Text_0@),
{
    let all = messages.push(last);
    let n = messages.len() as int;
    let from = first_turn(all);
    let first = first_user(all);
    assert(all[0] == messages[0]);
    assert(has_system(all) == has_system(messages));
    if has_system(messages) {
        assert(all[1] == messages[1]);
    }
    lemma_turns_prefix(tok, messages, all, from, n, first);
    lemma_role_in_turn(all, from, first, n);
    let text = last.content->Text_0@;
    assert(turns(tok, all, from, n + 1, first) == turns(tok, all, from, n, first) + user_turn(
        tok,
        text,
    ));
    assert(rendering(tok, all) == rendering(tok, messages) + user_turn(tok, text));
    let a = ids_of(rendering(tok, all)).push((tok.first_special() + 3) as u32);
    let b = ids_of(rendering(tok, messages)) + prompt_ids(tok, text);
    assert(a =~= b);
}

/// A first user message renders as the document start and the pushed turn.
pub proof fn pushed_turn_matches_first_rendering(tok: BpeTokenizer, last: Message)
    requires
        last.role == Role::User,
        last.content is Text,
    ensures
        ids_of(rendering(tok, seq![last])).push((tok.first_special() + 3) as u32)
            == seq![tok.first_special() as u32] + prompt_ids(tok, last.content->Text_0@),
{
    let all = seq![last];
    let text = last.content->Text_0@;
    assert(turns(tok, all, 0, 0, 0) == Seq::<(u32, bool)>::empty());
    assert(turns(tok, all, 0, 1, 0) == user_turn(tok, text));
    assert(rendering(tok, all) == special(tok, 0, false) + user_turn(tok, text));
    let a = ids_of(rendering(tok, all)).push((tok.first_special() + 3) as u32);
    let b = seq![tok.first_special() as u32] + prompt_ids(tok, text);
    assert(a =~= b);
}

proof fn lemma_turns_prefix(
    tok: BpeTokenizer,
    a: Seq<Message>,
    b: Seq<Message>,
    from: int,
    to: int,
    first: int,
)
    requires
        0 <= from,
        to <= a.len() <= b.len(),
        forall|i: int| 0 <= i < a.len() ==> a[i] == b[i],
    ensures
        turns(tok, a, from, to, first) == turns(tok, b, from, to, first),
    decreases to - from,
{
    if from < to {
        lemma_turns_prefix(tok, a, b, from, to - 1, first);
    }
}

proof fn lemma_role_in_turn(messages: Seq<Message>, i: int, first: int, k: int)
    requires
        turn_fault(messages, i, first) is None,
        i <= k < messages.len(),
    ensures
        messages[k].role == expected_role(k, first),
    decreases k - i,
{
    if i < k {
        lemma_role_in_turn(messages, i + 1, first, k);
    }
}

/// Where the turn of message `k` begins in the rendering of a conversation.
pub open spec fn turn_start(tok: BpeTokenizer, messages: Seq<Message>, k: int) -> int {
    1int + opening(tok, messages).len() + turns(
        tok,
        messages,
        first_turn(messages),
        k,
        first_user(messages),
    ).len()
}

/// Whether message `k` is the assistant's, and position `i` of the rendering lies
/// in its turn.
pub open spec fn in_assistant_turn(
    tok: BpeTokenizer,
    messages: Seq<Message>,
    k: int,
    i: int,
) -> bool {
    let start = turn_start(tok, messages, k);
    let turn = assistant_turn(tok, messages[k].content);
    &&& 0 <= k < messages.len()
    &&& messages[k].role == Role::Assistant
    &&& start <= i < start + turn.len() <= rendering(tok, messages).len()
    &&& rendering(tok, messages).subrange(start, start + turn.len()) == turn
}

/// A scored token of the turns lies in an assistant turn.
proof fn lemma_scored_turn(
    tok: BpeTokenizer,
    messages: Seq<Message>,
    from: int,
    to: int,
    first: int,
    i: int,
) -> (k: int)
    requires
        0 <= i < turns(tok, messages, from, to, first).len(),
        turns(tok, messages, from, to, first)[i].1,
    ensures
        from <= k < to,
        expected_role(k, first) == Role::Assistant,
        ({
            let all = turns(tok, messages, from, to, first);
            let start = turns(tok, messages, from, k, first).len();
            let turn = assistant_turn(tok, messages[k].content);
            &&& start <= i < start + turn.len() <= all.len()
            &&& all.subrange(start as int, (start + turn.len()) as int) == turn
        }),
    decreases to - from,
{
    let all = turns(tok, messages, from, to, first);
    let before = turns(tok, messages, from, to - 1, first);
    if i < before.len() {
        let k = lemma_scored_turn(tok, messages, from, to - 1, first, i);
        let start = turns(tok, messages, from, k, first).len();
        let end = start + assistant_turn(tok, messages[k].content).len();
        assert(all.subrange(start as int, end as int) =~= before.subrange(
            start as int,
            end as int,
        ));
        k
    } else {
        let turn = assistant_turn(tok, messages[to - 1].content);
        if expected_role(to - 1, first) != Role::Assistant {
            let said = user_turn(tok, messages[to - 1].content->Text_0@);
            assert(all[i] == said[i - before.len()]);
            assert(!all[i].1);
        }
        assert(all =~= before + turn);
        assert(all.subrange(before.len() as int, (before.len() + turn.len()) as int) =~= turn);
        to - 1
    }
}

/// Nothing but the model's own output is scored: every token that the loss scores
/// lies in the turn of an assistant message.
pub proof fn context_is_not_scored(tok: BpeTokenizer, messages: Seq<Message>)
    requires
        conversation_fault(messages) is None,
    ensures
        forall|i: int|
            0 <= i < rendering(tok, messages).len() && (#[trigger] rendering(tok, messages)[i]).1
                ==> exists|k: int| in_assistant_turn(tok, messages, k, i),
{
    let whole = rendering(tok, messages);
    let head = special(tok, 0, false) + opening(tok, messages);
    let (from, first) = (first_turn(messages), first_user(messages));
    let said = turns(tok, messages, from, messages.len() as int, first);
    assert(whole == head + said);
    assert forall|i: int| 0 <= i < whole.len() && (#[trigger] whole[i]).1 implies exists|k: int|
        in_assistant_turn(tok, messages, k, i) by {
        if i < head.len() {
            assert(!head[i].1);
        } else {
            let k = lemma_scored_turn(
                tok,
                messages,
                from,
                messages.len() as int,
                first,
                i - head.len(),
            );
            lemma_role_in_turn(messages, from, first, k);
            let start = turn_start(tok, messages, k);
            let turn = assistant_turn(tok, messages[k].content);
            assert(whole.subrange(start, start + turn.len()) =~= said.subrange(
                start - head.len(),
                start - head.len() + turn.len(),
            ));
            assert(in_assistant_turn(tok, messages, k, i));
        }
    }
}

/// What a tool puts out is not scored, though it stands in an assistant turn.
pub proof fn tool_output_is_not_scored(tok: BpeTokenizer, text: String)
    ensures
        forall|i: int|
            0 <= i < part_tokens(tok, Part::PythonOutput(text)).len() ==> !(#[trigger] part_tokens(
                tok,
                Part::PythonOutput(text),
            )[i]).1,
{
}

/// The end of an assistant turn is always scored, its start never is.
pub proof fn assistant_end_is_scored(tok: BpeTokenizer, content: Content)
    ensures
        assistant_turn(tok, content).len() >= 2,
        assistant_turn(tok, content)[0] == ((tok.first_special() + 3) as u32, false),
        assistant_turn(tok, content).last() == ((tok.first_special() + 4) as u32, true),
{
}

/// A conversation with the text of its system message joined to that of the
/// first user message.
pub open spec fn premerged(messages: Seq<Message>, merged: Message) -> Seq<Message> {
    seq![merged] + messages.skip(2)
}

proof fn lemma_premerged_fault(messages: Seq<Message>, merged: Message, i: int)
    requires
        messages.len() >= 2,
        2 <= i,
    ensures
        turn_fault(messages, i, 1) is None <==> turn_fault(
            premerged(messages, merged),
            i - 1,
            0,
        ) is None,
    decreases messages.len() - i,
{
    let joined = premerged(messages, merged);
    if i < messages.len() {
        assert(joined[i - 1] == messages[i]);
        lemma_premerged_fault(messages, merged, i + 1);
    }
}

proof fn lemma_premerged_turns(
    tok: BpeTokenizer,
    messages: Seq<Message>,
    merged: Message,
    n: int,
)
    requires
        2 <= n <= messages.len(),
    ensures
        turns(tok, premerged(messages, merged), 0, n - 1, 0) == user_turn(
            tok,
            merged.content->Text_0@,
        ) + turns(tok, messages, 2, n, 1),
    decreases n,
{
    let joined = premerged(messages, merged);
    let opening = user_turn(tok, merged.content->Text_0@);
    if n == 2 {
        assert(joined[0] == merged);
        assert(turns(tok, joined, 0, 0, 0) =~= Seq::empty());
        assert(turns(tok, joined, 0, 1, 0) =~= opening);
        assert(turns(tok, messages, 2, 2, 1) =~= Seq::empty());
        assert(opening + turns(tok, messages, 2, 2, 1) =~= opening);
    } else {
        lemma_premerged_turns(tok, messages, merged, n - 1);
        assert(joined[n - 2] == messages[n - 1]);
        let last = turns(tok, messages, 2, n, 1).skip(
            turns(tok, messages, 2, n - 1, 1).len() as int,
        );
        assert(turns(tok, messages, 2, n, 1) =~= turns(tok, messages, 2, n - 1, 1) + last);
        assert(turns(tok, joined, 0, n - 1, 0) =~= turns(tok, joined, 0, n - 2, 0) + last);
        assert(opening + turns(tok, messages, 2, n, 1) =~= (opening + turns(
            tok,
            messages,
            2,
            n - 1,
            1,
        )) + last);
    }
}

/// A conversation that opens with a system message is rendered as if the text
/// of that message stood at the front of the first user message, a blank line
/// between them.
pub proof fn system_messages_join_the_user(
    tok: BpeTokenizer,
    messages: Seq<Message>,
    merged: Message,
)
    requires
        has_system(messages),
        conversation_fault(messages) is None,
        merged.role == Role::User,
        merged.content is Text,
        merged.content->Text_0@ == opening_text(messages),
    ensures
        conversation_fault(premerged(messages, merged)) is None,
        rendering(tok, premerged(messages, merged)) == rendering(tok, messages),
{
    let joined = premerged(messages, merged);
    assert(joined[0] == merged);
    lemma_premerged_fault(messages, merged, 2);
    lemma_premerged_turns(tok, messages, merged, messages.len() as int);
    assert(turn_fault(joined, 0, 0) == turn_fault(joined, 1, 0));
    assert(rendering(tok, joined) =~= rendering(tok, messages));
}

} // verus!
