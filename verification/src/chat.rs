//! Talking to a finetuned model, turn by turn. The history is a token stream
//! that only grows: each turn appends the rendered user span and then the ids
//! of the reply as they were generated.
use vstd::prelude::*;

use crate::binary64::Real;
use crate::text::{
    chars_of, decimal, equals_ignoring_case, push_decimal, same_but_case, string_of, trim, trimmed,
};
use crate::tokenizer::bpe::BpeTokenizer;
use crate::tokenizer::chat::prompt_ids;
use crate::tokenizer::shared::TokenId;

verus! {

// ---------------------------------------------------------------------------
// Configuration
// ---------------------------------------------------------------------------

/// What a chat is asked to do.
#[derive(Debug, Clone, PartialEq, Eq)]
pub struct ChatConfig {
    pub checkpoint: String,
    pub vocab: String,
    /// Answer this once, and end.
    pub prompt: Option<String>,
    pub max_tokens: usize,
    pub temperature: Real,
    pub top_k: usize,
    pub seed: u64,
}

/// What is wrong with it.
#[derive(Debug, Clone, Copy, PartialEq, Eq, Structural)]
pub enum ChatConfigError {
    MaxTokens,
    Temperature,
}

impl ChatConfigError {
    /// The error as a sentence. The temperature is to follow.
    pub open spec fn sentence(self) -> Seq<char> {
        match self {
            ChatConfigError::MaxTokens => "--max-tokens must be >= 1"@,
            ChatConfigError::Temperature => "--temperature must be a finite value >= 0, got "@,
        }
    }

    /// The error as a sentence. The temperature is to follow.
    pub fn message(&self) -> (s: String)
        ensures
            s@ == self.sentence(),
    {
        match self {
            ChatConfigError::MaxTokens => String::from_str("--max-tokens must be >= 1"),
            ChatConfigError::Temperature => String::from_str(
                "--temperature must be a finite value >= 0, got ",
            ),
        }
    }
}

impl ChatConfig {
    /// The first thing wrong with it.
    pub open spec fn fault(self) -> Option<ChatConfigError> {
        if self.max_tokens == 0 {
            Some(ChatConfigError::MaxTokens)
        } else if !self.temperature.finite() || self.temperature.place() < 0 {
            Some(ChatConfigError::Temperature)
        } else {
            None
        }
    }

    /// Checks it. A temperature that is not a number is refused, and so is an
    /// infinite one: neither samples.
    pub fn validate(&self) -> (r: Result<(), ChatConfigError>)
        ensures
            match r {
                Ok(_) => self.fault() is None,
                Err(e) => self.fault() == Some(e),
            },
    {
        if self.max_tokens == 0 {
            return Err(ChatConfigError::MaxTokens);
        }
        if !self.temperature.is_finite() || self.temperature.is_below_zero() {
            return Err(ChatConfigError::Temperature);
        }
        Ok(())
    }
}

/// What to say of a vocabulary that is not the one the checkpoint was trained
/// with.
pub open spec fn vocab_fault_text(vocab: Seq<char>, tokens: int, trained: int) -> Option<
    Seq<char>,
> {
    if tokens == trained {
        None
    } else {
        Some(
            "vocab "@ + vocab + " has "@ + decimal(tokens as nat)
                + " tokens but the checkpoint was trained with "@ + decimal(trained as nat)
                + "; a mismatched vocabulary loads fine and scores garbage"@,
        )
    }
}

/// What to say of a vocabulary that is not the one the checkpoint was trained
/// with.
pub fn vocab_mismatch(vocab: &str, tokens: usize, trained: usize) -> (r: Option<String>)
    ensures
        match r {
            Some(text) => vocab_fault_text(vocab@, tokens as int, trained as int) == Some(text@),
            None => vocab_fault_text(vocab@, tokens as int, trained as int) is None,
        },
{
    if tokens == trained {
        return None;
    }
    let mut text = String::from_str("vocab ");
    text.append(vocab);
    text.append(" has ");
    push_decimal(&mut text, tokens as u64);
    text.append(" tokens but the checkpoint was trained with ");
    push_decimal(&mut text, trained as u64);
    text.append("; a mismatched vocabulary loads fine and scores garbage");
    Some(text)
}

// ---------------------------------------------------------------------------
// What the user typed
// ---------------------------------------------------------------------------

/// What a line asks for.
#[derive(Debug, Clone, Copy, PartialEq, Eq, Structural)]
pub enum Command {
    Quit,
    Clear,
    Nothing,
    Say,
}

/// What a line asks for. Case and the space around it do not matter.
pub open spec fn command_of(line: Seq<char>) -> Command {
    let s = trimmed(line);
    if same_but_case(s, "quit"@) || same_but_case(s, "exit"@) {
        Command::Quit
    } else if same_but_case(s, "clear"@) {
        Command::Clear
    } else if s.len() == 0 {
        Command::Nothing
    } else {
        Command::Say
    }
}

/// What a line asks for, and the line without the space around it.
pub fn read_command(line: &str) -> (r: (Command, String))
    ensures
        r.0 == command_of(line@),
        r.1@ == trimmed(line@),
{
    let chars = chars_of(line);
    let s = trim(chars.as_slice());
    let text = string_of(s);
    if equals_ignoring_case(s, "quit") || equals_ignoring_case(s, "exit") {
        (Command::Quit, text)
    } else if equals_ignoring_case(s, "clear") {
        (Command::Clear, text)
    } else if s.len() == 0 {
        (Command::Nothing, text)
    } else {
        (Command::Say, text)
    }
}

// ---------------------------------------------------------------------------
// One turn
// ---------------------------------------------------------------------------

/// How a turn goes on.
#[derive(Debug, Clone, Copy, PartialEq, Eq, Structural)]
pub enum Turn {
    /// It does not fit the context.
    Refused,
    /// The reply may be this long.
    Reply { max_tokens: usize },
}

/// How a turn goes on when the history with the user's text holds `len` ids: a
/// reply is cut to the room that the context leaves, and there is none without
/// room.
pub open spec fn turn_of(len: int, seq_len: int, max_tokens: usize) -> Turn {
    if len >= seq_len {
        Turn::Refused
    } else if max_tokens < seq_len - len {
        Turn::Reply { max_tokens }
    } else {
        Turn::Reply { max_tokens: (seq_len - len) as usize }
    }
}

/// A reply as it goes into the history: without the id that starts another
/// document, and with the id that ends a reply.
pub open spec fn closed_reply(generated: Seq<u32>, assistant_end: u32, bos: u32) -> Seq<u32> {
    let kept = if generated.len() > 0 && generated.last() == bos {
        generated.drop_last()
    } else {
        generated
    };
    if kept.len() > 0 && kept.last() == assistant_end {
        kept
    } else {
        kept.push(assistant_end)
    }
}

/// Appends the user's text to the history, if that leaves room for a reply.
pub fn begin_turn(
    tok: &BpeTokenizer,
    ids: &mut Vec<TokenId>,
    text: &str,
    seq_len: usize,
    max_tokens: usize,
) -> (turn: Turn)
    requires
        BpeTokenizer::can_split(text@),
    ensures
        turn == turn_of(
            (old(ids)@ + prompt_ids(*tok, text@)).len() as int,
            seq_len as int,
            max_tokens,
        ),
        match turn {
            Turn::Refused => final(ids)@ == old(ids)@,
            Turn::Reply { max_tokens: limit } => {
                &&& final(ids)@ == old(ids)@ + prompt_ids(*tok, text@)
                &&& final(ids)@.len() + limit <= seq_len
            },
        },
{
    let base: usize = ids.len();
    tok.push_user_turn(ids, text);
    let len: usize = ids.len();
    if len >= seq_len {
        ids.truncate(base);
        assert(ids@ =~= old(ids)@);
        return Turn::Refused;
    }
    let room: usize = seq_len - len;
    if max_tokens < room {
        Turn::Reply { max_tokens }
    } else {
        Turn::Reply { max_tokens: room }
    }
}

/// Appends a reply to the history.
pub fn finish_turn(tok: &BpeTokenizer, ids: &mut Vec<TokenId>, generated: Vec<TokenId>)
    ensures
        final(ids)@ == old(ids)@ + closed_reply(
            generated@,
            (tok.first_special() + 4) as u32,
            tok.first_special() as u32,
        ),
{
    let mut generated = generated;
    let stop = tok.assistant_stop_ids();
    let assistant_end: TokenId = stop[0];
    let bos: TokenId = stop[1];
    let n: usize = generated.len();
    if n > 0 && generated[n - 1] == bos {
        generated.pop();
    }
    let n: usize = generated.len();
    if n == 0 || generated[n - 1] != assistant_end {
        generated.push(assistant_end);
    }
    ids.append(&mut generated);
}

/// Whatever was generated, a turn only appends to the history and closes on
/// the id that ends a reply.
pub proof fn turns_append_and_close(
    tok: BpeTokenizer,
    history: Seq<u32>,
    text: Seq<char>,
    generated: Seq<u32>,
)
    ensures
        ({
            let end = (tok.first_special() + 4) as u32;
            let after = history + prompt_ids(tok, text) + closed_reply(
                generated,
                end,
                tok.first_special() as u32,
            );
            &&& after.take(history.len() as int) == history
            &&& after.len() > history.len()
            &&& after.last() == end
        }),
{
    let after = history + prompt_ids(tok, text) + closed_reply(
        generated,
        (tok.first_special() + 4) as u32,
        tok.first_special() as u32,
    );
    assert(after.take(history.len() as int) =~= history);
}

/// A reply that stops on one of the two ids that end it leaves no document
/// start in the history.
pub proof fn replies_start_no_document(generated: Seq<u32>, assistant_end: u32, bos: u32)
    requires
        assistant_end != bos,
        forall|i: int| 0 <= i < generated.len() - 1 ==> generated[i] != bos,
    ensures
        !closed_reply(generated, assistant_end, bos).contains(bos),
{
}

// ---------------------------------------------------------------------------
// The turn loop
// ---------------------------------------------------------------------------

/// What has happened outside.
#[derive(Debug, Clone, PartialEq, Eq)]
pub enum Event {
    /// The chat begins.
    Started,
    /// A line was read.
    Line { text: String },
    /// There are no more lines.
    EndOfInput,
    /// A reply was generated.
    Replied { generated: Vec<TokenId> },
}

/// What is to be done outside, after the text has been printed.
#[derive(Debug, Clone, Copy, PartialEq, Eq, Structural)]
pub enum Action {
    /// Read a line.
    Ask,
    /// Generate a reply to the history, of at most this many ids.
    Generate { max_tokens: usize },
    /// End.
    Stop,
}

/// The state of a chat.
#[derive(Debug, Clone, PartialEq, Eq)]
pub struct Session {
    /// The history.
    pub ids: Vec<TokenId>,
    /// The one text to answer, if there is one.
    pub prompt: Option<String>,
    /// The model's context length.
    pub seq_len: usize,
    /// The longest reply.
    pub max_tokens: usize,
}

/// What follows a step of a chat: its history, the text to print, and what to
/// do then.
pub struct Outcome {
    pub ids: Seq<u32>,
    pub text: Seq<char>,
    pub action: Action,
}

/// What to print of a turn that is refused.
pub open spec fn refusal_text(seq_len: int) -> Seq<char> {
    "\n[this turn does not fit the model's "@ + decimal(seq_len as nat)
        + "-token context; type 'clear' to start over]\n"@
}

/// What to print before a reply.
pub open spec fn reply_text(limit: int, max_tokens: int, seq_len: int) -> Seq<char> {
    (if limit < max_tokens {
        "\n[only "@ + decimal(limit as nat) + " of the "@ + decimal(seq_len as nat)
            + "-token context are left; the reply will be cut short]\n"@
    } else {
        Seq::empty()
    }) + "\nAssistant: "@
}

impl Session {
    /// After a turn: with a prompt the chat ends, without one it asks again.
    pub open spec fn after_turn(self, ids: Seq<u32>, text: Seq<char>) -> Outcome {
        if self.prompt is Some {
            Outcome { ids, text, action: Action::Stop }
        } else {
            Outcome { ids, text: text + "\nUser: "@, action: Action::Ask }
        }
    }

    /// What follows a line, or the prompt.
    pub open spec fn after_line(self, tok: BpeTokenizer, line: Seq<char>) -> Outcome {
        match command_of(line) {
            Command::Quit => Outcome {
                ids: self.ids@,
                text: "Goodbye!\n"@,
                action: Action::Stop,
            },
            Command::Clear => self.after_turn(
                seq![tok.first_special() as u32],
                "conversation cleared\n"@,
            ),
            Command::Nothing => self.after_turn(self.ids@, Seq::empty()),
            Command::Say => {
                let asked = self.ids@ + prompt_ids(tok, trimmed(line));
                match turn_of(asked.len() as int, self.seq_len as int, self.max_tokens) {
                    Turn::Refused => self.after_turn(self.ids@, refusal_text(self.seq_len as int)),
                    Turn::Reply { max_tokens } => Outcome {
                        ids: asked,
                        text: reply_text(
                            max_tokens as int,
                            self.max_tokens as int,
                            self.seq_len as int,
                        ),
                        action: Action::Generate { max_tokens },
                    },
                }
            },
        }
    }

    /// What follows an event.
    pub open spec fn outcome(self, tok: BpeTokenizer, event: Event) -> Outcome {
        match event {
            Event::Started => match self.prompt {
                Some(prompt) => self.after_line(tok, prompt@),
                None => Outcome { ids: self.ids@, text: "\nUser: "@, action: Action::Ask },
            },
            Event::Line { text } => self.after_line(tok, text@),
            Event::EndOfInput => Outcome {
                ids: self.ids@,
                text: "\nGoodbye!\n"@,
                action: Action::Stop,
            },
            Event::Replied { generated } => self.after_turn(
                self.ids@ + closed_reply(
                    generated@,
                    (tok.first_special() + 4) as u32,
                    tok.first_special() as u32,
                ),
                "\n"@,
            ),
        }
    }

    /// What the user says with an event, if anything.
    pub open spec fn said(self, event: Event) -> Option<Seq<char>> {
        let line = match event {
            Event::Started => match self.prompt {
                Some(prompt) => Some(prompt@),
                None => None,
            },
            Event::Line { text } => Some(text@),
            _ => None,
        };
        match line {
            Some(line) => if command_of(line) == Command::Say {
                Some(trimmed(line))
            } else {
                None
            },
            None => None,
        }
    }

    /// What the user says with an event, if anything, can be split.
    pub open spec fn can_follow(self, event: Event) -> bool {
        match self.said(event) {
            Some(text) => BpeTokenizer::can_split(text),
            None => true,
        }
    }

    /// A chat that is to begin.
    pub fn new(
        tok: &BpeTokenizer,
        prompt: Option<String>,
        seq_len: usize,
        max_tokens: usize,
    ) -> (s: Session)
        ensures
            s.ids@ == seq![tok.first_special() as u32],
            s.prompt == prompt,
            s.seq_len == seq_len,
            s.max_tokens == max_tokens,
    {
        Session { ids: vec![tok.bos_id()], prompt, seq_len, max_tokens }
    }

    fn end_turn(&self, text: String) -> (r: (String, Action))
        ensures
            r.0@ == self.after_turn(self.ids@, text@).text,
            r.1 == self.after_turn(self.ids@, text@).action,
    {
        if self.prompt.is_some() {
            (text, Action::Stop)
        } else {
            let mut text = text;
            text.append("\nUser: ");
            (text, Action::Ask)
        }
    }

    fn take_line(&mut self, tok: &BpeTokenizer, line: &str) -> (r: (String, Action))
        requires
            command_of(line@) == Command::Say ==> BpeTokenizer::can_split(trimmed(line@)),
        ensures
            final(self).prompt == old(self).prompt,
            final(self).seq_len == old(self).seq_len,
            final(self).max_tokens == old(self).max_tokens,
            final(self).ids@ == old(self).after_line(*tok, line@).ids,
            r.0@ == old(self).after_line(*tok, line@).text,
            r.1 == old(self).after_line(*tok, line@).action,
    {
        let (command, said) = read_command(line);
        match command {
            Command::Quit => (String::from_str("Goodbye!\n"), Action::Stop),
            Command::Clear => {
                self.ids = vec![tok.bos_id()];
                assert(self.ids@ =~= seq![tok.first_special() as u32]);
                self.end_turn(String::from_str("conversation cleared\n"))
            },
            Command::Nothing => {
                let none = String::new();
                assert(none@ =~= Seq::empty());
                self.end_turn(none)
            },
            Command::Say => {
                let (seq_len, most) = (self.seq_len, self.max_tokens);
                match begin_turn(tok, &mut self.ids, said.as_str(), seq_len, most) {
                    Turn::Refused => {
                        let mut text = String::from_str("\n[this turn does not fit the model's ");
                        push_decimal(&mut text, seq_len as u64);
                        text.append("-token context; type 'clear' to start over]\n");
                        self.end_turn(text)
                    },
                    Turn::Reply { max_tokens } => {
                        let mut text = String::new();
                        if max_tokens < most {
                            text.append("\n[only ");
                            push_decimal(&mut text, max_tokens as u64);
                            text.append(" of the ");
                            push_decimal(&mut text, seq_len as u64);
                            text.append("-token context are left; the reply will be cut short]\n");
                        }
                        text.append("\nAssistant: ");
                        assert(text@ =~= reply_text(
                            max_tokens as int,
                            most as int,
                            seq_len as int,
                        ));
                        (text, Action::Generate { max_tokens })
                    },
                }
            },
        }
    }

    /// Takes a step: the text to print, and what to do then.
    pub fn next(&mut self, tok: &BpeTokenizer, event: Event) -> (r: (String, Action))
        requires
            old(self).can_follow(event),
        ensures
            final(self).prompt == old(self).prompt,
            final(self).seq_len == old(self).seq_len,
            final(self).max_tokens == old(self).max_tokens,
            final(self).ids@ == old(self).outcome(*tok, event).ids,
            r.0@ == old(self).outcome(*tok, event).text,
            r.1 == old(self).outcome(*tok, event).action,
    {
        match event {
            Event::Started => {
                if self.prompt.is_some() {
                    let prompt = self.prompt.clone();
                    self.take_line(tok, prompt.unwrap().as_str())
                } else {
                    (String::from_str("\nUser: "), Action::Ask)
                }
            },
            Event::Line { text } => self.take_line(tok, text.as_str()),
            Event::EndOfInput => (String::from_str("\nGoodbye!\n"), Action::Stop),
            Event::Replied { generated } => {
                finish_turn(tok, &mut self.ids, generated);
                self.end_turn(String::from_str("\n"))
            },
        }
    }

    /// Takes a step; `None`, with nothing changed, if the regex engine gives up
    /// on what the user says.
    pub fn try_next(&mut self, tok: &BpeTokenizer, event: Event) -> (r: Option<(String, Action)>)
        ensures
            match r {
                Some(r) => {
                    &&& old(self).can_follow(event)
                    &&& final(self).prompt == old(self).prompt
                    &&& final(self).seq_len == old(self).seq_len
                    &&& final(self).max_tokens == old(self).max_tokens
                    &&& final(self).ids@ == old(self).outcome(*tok, event).ids
                    &&& r.0@ == old(self).outcome(*tok, event).text
                    &&& r.1 == old(self).outcome(*tok, event).action
                },
                None => {
                    &&& !old(self).can_follow(event)
                    &&& *final(self) == *old(self)
                },
            },
    {
        let line: Option<String> = match &event {
            Event::Started => self.prompt.clone(),
            Event::Line { text } => Some(text.clone()),
            _ => None,
        };
        let fine = match line {
            Some(line) => {
                let (command, said) = read_command(line.as_str());
                match command {
                    Command::Say => tok.can_encode(said.as_str()),
                    _ => true,
                }
            },
            None => true,
        };
        if fine {
            Some(self.next(tok, event))
        } else {
            None
        }
    }
}

/// With a prompt, a chat asks for no line: it ends at once, or once the reply
/// has come.
pub proof fn prompts_are_answered_once(s: Session, tok: BpeTokenizer, event: Event)
    requires
        s.prompt is Some,
    ensures
        s.outcome(tok, event).action != Action::Ask,
        event is Replied ==> s.outcome(tok, event).action == Action::Stop,
{
}

/// A chat's history begins with the start of a document, and only grows until
/// it is cleared.
pub proof fn histories_grow(s: Session, tok: BpeTokenizer, event: Event)
    requires
        s.ids@.len() > 0,
        s.ids@[0] == tok.first_special() as u32,
    ensures
        ({
            let after = s.outcome(tok, event).ids;
            &&& after[0] == tok.first_special() as u32
            &&& after.len() >= s.ids@.len() && after.take(s.ids@.len() as int) == s.ids@
                || after == seq![tok.first_special() as u32]
        }),
{
    let after = s.outcome(tok, event).ids;
    if after.len() >= s.ids@.len() {
        if after[0] == s.ids@[0] && after != seq![tok.first_special() as u32] {
            assert(after.take(s.ids@.len() as int) =~= s.ids@);
        }
    }
}

/// A reply goes into the history whole and in order: all that was generated, but
/// for a document start at its end, and behind it the id that ends a reply, unless
/// it stands there already.
pub proof fn replies_are_kept_whole(generated: Seq<u32>, assistant_end: u32, bos: u32)
    ensures
        ({
            let reply = closed_reply(generated, assistant_end, bos);
            let n = if generated.len() > 0 && generated[generated.len() - 1] == bos {
                generated.len() - 1
            } else {
                generated.len() as int
            };
            &&& reply.len() >= n
            &&& forall|i: int| 0 <= i < n ==> #[trigger] reply[i] == generated[i]
            &&& reply.len() == if n > 0 && generated[n - 1] == assistant_end {
                n
            } else {
                n + 1
            }
            &&& reply[reply.len() - 1] == assistant_end
        }),
{
}

/// A turn goes on only with room for a reply, and then with as much of it as is
/// asked for and there is room for.
pub proof fn replies_fill_the_room(len: int, seq_len: int, max_tokens: usize)
    requires
        0 <= len,
        0 <= seq_len <= usize::MAX,
    ensures
        turn_of(len, seq_len, max_tokens) is Refused <==> len >= seq_len,
        match turn_of(len, seq_len, max_tokens) {
            Turn::Refused => true,
            Turn::Reply { max_tokens: most } => {
                &&& most <= max_tokens
                &&& len + most <= seq_len
                &&& most == max_tokens || len + most == seq_len
            },
        },
{
}

/// What the user says goes into the history whole, between the ids that open and
/// close a user turn and with the id that opens a reply; and a turn that does not
/// fit leaves the history as it is.
pub proof fn turns_continue_the_history(s: Session, tok: BpeTokenizer, event: Event)
    ensures
        match s.said(event) {
            None => event is Line || event is Started || event is EndOfInput ==> {
                let after = s.outcome(tok, event).ids;
                after == s.ids@ || after == seq![tok.first_special() as u32]
            },
            Some(text) => {
                let first = tok.first_special();
                let asked = s.ids@ + (seq![(first + 1) as u32] + tok.text_ids(text) + seq![
                    (first + 2) as u32,
                    (first + 3) as u32,
                ]);
                let after = s.outcome(tok, event);
                if asked.len() >= s.seq_len {
                    &&& after.ids == s.ids@
                    &&& !(after.action is Generate)
                } else {
                    &&& after.ids == asked
                    &&& after.action is Generate
                }
            },
        },
        event is Replied ==> s.outcome(tok, event).ids.take(s.ids@.len() as int) == s.ids@,
{
    if let Some(text) = s.said(event) {
        let first = tok.first_special();
        let more = seq![(first + 1) as u32] + tok.text_ids(text) + seq![
            (first + 2) as u32,
            (first + 3) as u32,
        ];
        assert(prompt_ids(tok, text) =~= more);
    }
    if event is Replied {
        assert(s.outcome(tok, event).ids.take(s.ids@.len() as int) =~= s.ids@);
    }
}

/// A line asks to quit, to clear or for nothing if it is one of the words for that, or
/// blank, whatever its case and the space around it; any other line is said.
pub proof fn lines_are_commands_or_said(line: Seq<char>)
    ensures
        ({
            let s = trimmed(line);
            &&& command_of(line) == Command::Quit <==> same_but_case(s, "quit"@) || same_but_case(
                s,
                "exit"@,
            )
            &&& command_of(line) == Command::Clear <==> same_but_case(s, "clear"@)
            &&& command_of(line) == Command::Nothing <==> s.len() == 0
            &&& command_of(line) == Command::Say <==> s.len() > 0 && !same_but_case(s, "quit"@)
                && !same_but_case(s, "exit"@) && !same_but_case(s, "clear"@)
        }),
{
    reveal_strlit("quit");
    reveal_strlit("exit");
    reveal_strlit("clear");
}

/// What is said with a line is the line without the space around it, whole.
pub proof fn lines_are_said_whole(s: Session, text: String)
    ensures
        command_of(text@) == Command::Say <==> s.said(Event::Line { text }) is Some,
        command_of(text@) == Command::Say ==> s.said(Event::Line { text }) == Some(trimmed(text@)),
        s.prompt == Some(text) ==> s.said(Event::Started) == s.said(Event::Line { text }),
        s.prompt is None ==> s.said(Event::Started) is None,
        s.said(Event::EndOfInput) is None,
{
}

/// A chat ends when the user asks for it or has no more to say, begins anew when the
/// user asks for that, and else goes on.
pub proof fn chats_end_when_asked(s: Session, tok: BpeTokenizer, text: String)
    ensures
        ({
            let after = s.outcome(tok, Event::Line { text });
            &&& command_of(text@) == Command::Quit ==> after.action == Action::Stop && after.ids
                == s.ids@
            &&& command_of(text@) == Command::Clear ==> after.ids == seq![tok.first_special() as u32]
            &&& command_of(text@) == Command::Nothing ==> after.ids == s.ids@
            &&& s.prompt is None && command_of(text@) != Command::Quit ==> after.action
                != Action::Stop
        }),
        s.outcome(tok, Event::EndOfInput).action == Action::Stop,
        s.outcome(tok, Event::EndOfInput).ids == s.ids@,
        s.prompt is None ==> s.outcome(tok, Event::Started).action == Action::Ask,
        s.outcome(tok, Event::Started).ids == s.ids@ || s.prompt is Some,
{
}

} // verus!
