//! What a rendered conversation holds, token by token.
use vstd::prelude::*;

use super::bpe::BpeTokenizer;
use super::chat::{
    assistant_turn, at_most, content_splits, conversation_fault, expected_role, first_turn,
    first_user, has_system, opening, part_splits, part_tokens, parts_tokens, renderable, rendering,
    turn_fault, turn_start, turns, user_turn, ChatError, Content, Message, Part, Role,
};

verus! {

// ---------------------------------------------------------------------------
// Turns
// ---------------------------------------------------------------------------

/// A user turn holds the ids of the text between the two ids that mark a user's
/// turn, and nothing of it is scored.
pub proof fn user_turns_hold_the_text(tok: BpeTokenizer, text: Seq<char>)
    ensures
        ({
            let turn = user_turn(tok, text);
            let ids = tok.text_ids(text);
            &&& turn.len() == ids.len() + 2
            &&& turn[0] == ((tok.first_special() + 1) as u32, false)
            &&& forall|i: int| 0 <= i < ids.len() ==> #[trigger] turn[i + 1] == (ids[i], false)
            &&& turn[ids.len() as int + 1] == ((tok.first_special() + 2) as u32, false)
        }),
{
}

/// A reply that is one text holds its ids, all of them scored, between the id that
/// opens a reply, which is not, and the id that ends it, which is.
pub proof fn text_replies_are_scored(tok: BpeTokenizer, text: String)
    ensures
        ({
            let turn = assistant_turn(tok, Content::Text(text));
            let ids = tok.text_ids(text@);
            &&& turn.len() == ids.len() + 2
            &&& turn[0] == ((tok.first_special() + 3) as u32, false)
            &&& forall|i: int| 0 <= i < ids.len() ==> #[trigger] turn[i + 1] == (ids[i], true)
            &&& turn[ids.len() as int + 1] == ((tok.first_special() + 4) as u32, true)
        }),
{
}

/// The token that stands at place `j` of a part: a text stands alone, a tool call
/// and a tool's output stand between two ids of their own, and all is scored but a
/// tool's output.
pub open spec fn stands_at(tok: BpeTokenizer, part: Part, j: int, token: (u32, bool)) -> bool {
    let first = tok.first_special();
    match part {
        Part::Text(t) => token == (tok.text_ids(t@)[j], true),
        Part::Python(t) => {
            let n = tok.text_ids(t@).len();
            &&& j == 0 ==> token == ((first + 5) as u32, true)
            &&& 0 < j <= n ==> token == (tok.text_ids(t@)[j - 1], true)
            &&& j == n + 1 ==> token == ((first + 6) as u32, true)
        },
        Part::PythonOutput(t) => {
            let n = tok.text_ids(t@).len();
            &&& j == 0 ==> token == ((first + 7) as u32, false)
            &&& 0 < j <= n ==> token == (tok.text_ids(t@)[j - 1], false)
            &&& j == n + 1 ==> token == ((first + 8) as u32, false)
        },
    }
}

/// How many tokens a part has.
pub open spec fn part_len(tok: BpeTokenizer, part: Part) -> int {
    match part {
        Part::Text(t) => tok.text_ids(t@).len() as int,
        Part::Python(t) => tok.text_ids(t@).len() as int + 2,
        Part::PythonOutput(t) => tok.text_ids(t@).len() as int + 2,
    }
}

/// Where part `k` begins in a reply: behind the opening id and all parts before it.
pub open spec fn part_start(tok: BpeTokenizer, parts: Seq<Part>, k: int) -> int
    decreases k,
{
    if k <= 0 {
        1
    } else {
        part_start(tok, parts, k - 1) + part_len(tok, parts[k - 1])
    }
}

proof fn lemma_part(tok: BpeTokenizer, part: Part)
    ensures
        part_tokens(tok, part).len() == part_len(tok, part),
        forall|j: int|
            0 <= j < part_len(tok, part) ==> stands_at(
                tok,
                part,
                j,
                #[trigger] part_tokens(tok, part)[j],
            ),
{
}

proof fn lemma_parts_len(tok: BpeTokenizer, parts: Seq<Part>, n: int)
    requires
        0 <= n <= parts.len(),
    ensures
        parts_tokens(tok, parts.take(n)).len() == part_start(tok, parts, n) - 1,
    decreases n,
{
    if n > 0 {
        lemma_parts_len(tok, parts, n - 1);
        lemma_part(tok, parts[n - 1]);
        assert(parts.take(n).drop_last() =~= parts.take(n - 1));
        assert(parts.take(n).last() == parts[n - 1]);
    } else {
        assert(parts.take(0) =~= Seq::empty());
    }
}

proof fn lemma_part_at(tok: BpeTokenizer, parts: Seq<Part>, n: int, k: int, j: int)
    requires
        0 <= k < n <= parts.len(),
        0 <= j < part_len(tok, parts[k]),
    ensures
        0 < part_start(tok, parts, k),
        part_start(tok, parts, k) + j < part_start(tok, parts, n),
        stands_at(
            tok,
            parts[k],
            j,
            parts_tokens(tok, parts.take(n))[part_start(tok, parts, k) + j - 1],
        ),
    decreases n,
{
    lemma_parts_len(tok, parts, n - 1);
    lemma_part(tok, parts[n - 1]);
    let before = parts_tokens(tok, parts.take(n - 1));
    assert(parts.take(n).drop_last() =~= parts.take(n - 1));
    assert(parts.take(n).last() == parts[n - 1]);
    assert(parts_tokens(tok, parts.take(n)) == before + part_tokens(tok, parts[n - 1]));
    if k < n - 1 {
        lemma_part_at(tok, parts, n - 1, k, j);
    } else {
        assert(stands_at(tok, parts[k], j, part_tokens(tok, parts[k])[j]));
    }
}

/// A reply in parts holds each part whole and in order, wherever it stands: texts
/// and tool calls are scored in full, a tool's output not at all. Besides, only the
/// id that opens the reply, which is not scored, and the id that ends it, which is,
/// stand in it.
pub proof fn reply_parts_are_scored_but_for_output(
    tok: BpeTokenizer,
    parts: Vec<Part>,
    k: int,
    j: int,
)
    ensures
        ({
            let turn = assistant_turn(tok, Content::Parts(parts));
            let n = parts@.len() as int;
            &&& turn.len() == part_start(tok, parts@, n) + 1
            &&& turn[0] == ((tok.first_special() + 3) as u32, false)
            &&& turn[turn.len() - 1] == ((tok.first_special() + 4) as u32, true)
            &&& 0 <= k < n && 0 <= j < part_len(tok, parts@[k]) ==> {
                let i = part_start(tok, parts@, k) + j;
                &&& 0 < i < turn.len() - 1
                &&& stands_at(tok, parts@[k], j, turn[i])
                &&& turn[i].1 == !(parts@[k] is PythonOutput)
            }
        }),
{
    let n = parts@.len() as int;
    lemma_parts_len(tok, parts@, n);
    assert(parts@.take(n) =~= parts@);
    if 0 <= k < n && 0 <= j < part_len(tok, parts@[k]) {
        lemma_part_at(tok, parts@, n, k, j);
    }
}

// ---------------------------------------------------------------------------
// Conversations
// ---------------------------------------------------------------------------

/// A rendering is the start of a document and then the turns of the messages, in
/// order and without a gap, each as its message says; a system message and the first
/// user message make one user turn, a blank line between their texts.
pub proof fn renderings_go_turn_by_turn(tok: BpeTokenizer, messages: Seq<Message>, k: int)
    requires
        conversation_fault(messages) is None,
        0 <= k < messages.len(),
        messages[0].role == Role::System ==> k >= 2,
    ensures
        ({
            let all = rendering(tok, messages);
            let (from, to) = (turn_start(tok, messages, k), turn_start(tok, messages, k + 1));
            let turn = match messages[k].content {
                Content::Text(t) => if messages[k].role == Role::User {
                    user_turn(tok, t@)
                } else {
                    assistant_turn(tok, messages[k].content)
                },
                Content::Parts(_) => assistant_turn(tok, messages[k].content),
            };
            &&& all[0] == (tok.first_special() as u32, false)
            &&& 1 <= from <= to <= all.len()
            &&& all.subrange(from, to) == turn
            &&& turn_start(tok, messages, messages.len() as int) == all.len()
            &&& if messages[0].role == Role::System {
                &&& turn_start(tok, messages, 2) >= 1
                &&& all.subrange(1, turn_start(tok, messages, 2)) == user_turn(
                    tok,
                    messages[0].content->Text_0@ + seq!['\n', '\n']
                        + messages[1].content->Text_0@,
                )
            } else {
                turn_start(tok, messages, 0) == 1
            }
        }),
{
    let (first, f) = (first_turn(messages), first_user(messages));
    let all = rendering(tok, messages);
    let said = turns(tok, messages, first, messages.len() as int, f);
    let head = seq![(tok.first_special() as u32, false)] + opening(tok, messages);
    assert(all =~= head + said);
    lemma_turn(tok, messages, first, messages.len() as int, f, k);
    lemma_role(messages, first, f, k);
    let (a, b) = (
        turns(tok, messages, first, k, f).len() as int,
        turns(tok, messages, first, k + 1, f).len() as int,
    );
    assert(all.subrange(turn_start(tok, messages, k), turn_start(tok, messages, k + 1))
        =~= said.subrange(a, b));
    if has_system(messages) {
        reveal_strlit("\n\n");
        assert("\n\n"@ =~= seq!['\n', '\n']);
        assert(turns(tok, messages, 2, 2, 1).len() == 0);
        assert(all.subrange(1, turn_start(tok, messages, 2)) =~= opening(tok, messages));
    } else {
        assert(turns(tok, messages, 0, 0, 0).len() == 0);
    }
}

proof fn lemma_turn(
    tok: BpeTokenizer,
    messages: Seq<Message>,
    from: int,
    to: int,
    first: int,
    k: int,
)
    requires
        from <= k < to,
    ensures
        ({
            let all = turns(tok, messages, from, to, first);
            let (a, b) = (
                turns(tok, messages, from, k, first).len() as int,
                turns(tok, messages, from, k + 1, first).len() as int,
            );
            &&& a <= b <= all.len()
            &&& all.subrange(a, b) == if expected_role(k, first) == Role::User {
                user_turn(tok, messages[k].content->Text_0@)
            } else {
                assistant_turn(tok, messages[k].content)
            }
        }),
    decreases to - from,
{
    let all = turns(tok, messages, from, to, first);
    let before = turns(tok, messages, from, to - 1, first);
    let (a, b) = (
        turns(tok, messages, from, k, first).len() as int,
        turns(tok, messages, from, k + 1, first).len() as int,
    );
    if k < to - 1 {
        lemma_turn(tok, messages, from, to - 1, first, k);
        assert(all.subrange(a, b) =~= before.subrange(a, b));
    } else {
        let turn = if expected_role(k, first) == Role::User {
            user_turn(tok, messages[k].content->Text_0@)
        } else {
            assistant_turn(tok, messages[k].content)
        };
        assert(all == before + turn);
        assert(all.subrange(a, b) =~= turn);
    }
}

proof fn lemma_role(messages: Seq<Message>, i: int, first: int, k: int)
    requires
        turn_fault(messages, i, first) is None,
        i <= k < messages.len(),
    ensures
        messages[k].role == expected_role(k, first),
        messages[k].role == Role::User ==> messages[k].content is Text,
    decreases k - i,
{
    if i < k {
        lemma_role(messages, i + 1, first, k);
    }
}

proof fn lemma_no_turn_fault(messages: Seq<Message>, i: int, first: int)
    requires
        forall|k: int|
            i <= k < messages.len() ==> (#[trigger] messages[k]).role == expected_role(k, first)
                && (messages[k].role == Role::User ==> messages[k].content is Text),
    ensures
        turn_fault(messages, i, first) is None,
    decreases messages.len() - i,
{
    if i < messages.len() {
        assert(messages[i].role == expected_role(i, first));
        lemma_no_turn_fault(messages, i + 1, first);
    }
}

/// Whether users and assistants take turns from message `first` on, a user first,
/// and users say plain text.
pub open spec fn take_turns(messages: Seq<Message>, first: int) -> bool {
    forall|k: int|
        first <= k < messages.len() ==> {
            &&& (#[trigger] messages[k]).role == if (k - first) % 2 == 0 {
                Role::User
            } else {
                Role::Assistant
            }
            &&& (k - first) % 2 == 0 ==> messages[k].content is Text
        }
}

/// A conversation is rendered if and only if it has messages, users and assistants
/// take turns in it, and a system message, if there is one, is a plain text that
/// comes first and is followed by a user.
pub proof fn conversations_take_turns(messages: Seq<Message>)
    ensures
        conversation_fault(messages) is None <==> {
            &&& messages.len() > 0
            &&& if messages[0].role == Role::System {
                &&& messages[0].content is Text
                &&& messages.len() >= 2
                &&& take_turns(messages, 1)
            } else {
                take_turns(messages, 0)
            }
        },
{
    if conversation_fault(messages) is None {
        let (i, first) = (first_turn(messages), first_user(messages));
        assert forall|k: int| first <= k < messages.len() implies {
            &&& (#[trigger] messages[k]).role == if (k - first) % 2 == 0 {
                Role::User
            } else {
                Role::Assistant
            }
            &&& (k - first) % 2 == 0 ==> messages[k].content is Text
        } by {
            if k >= i {
                lemma_role(messages, i, first, k);
            }
        }
    } else if messages.len() > 0 {
        if has_system(messages) {
            if messages[0].content is Text && messages.len() >= 2 && take_turns(messages, 1) {
                assert(messages[1].role == Role::User);
                lemma_no_turn_fault(messages, 2, 1);
            }
        } else if take_turns(messages, 0) {
            lemma_no_turn_fault(messages, 0, 0);
        }
    }
}

proof fn lemma_first_fault(messages: Seq<Message>, i: int, first: int)
    requires
        0 <= i,
        messages.len() <= usize::MAX,
    ensures
        match turn_fault(messages, i, first) {
            None => true,
            Some(ChatError::WrongRole { index, expected, got }) => {
                &&& i <= index < messages.len()
                &&& got == messages[index as int].role
                &&& expected == expected_role(index as int, first)
                &&& got != expected
                &&& forall|k: int|
                    i <= k < index ==> (#[trigger] messages[k]).role == expected_role(k, first)
            },
            Some(ChatError::UserNotText { index }) => {
                &&& i <= index < messages.len()
                &&& messages[index as int].role == Role::User
                &&& !(messages[index as int].content is Text)
                &&& forall|k: int|
                    i <= k < index ==> (#[trigger] messages[k]).role == expected_role(k, first)
            },
            Some(_) => false,
        },
    decreases messages.len() - i,
{
    if i < messages.len() {
        lemma_first_fault(messages, i + 1, first);
    }
}

/// A conversation is refused for what is wrong with it: an error names the first
/// message that is not whose turn it is, or the first user message that is no plain
/// text.
pub proof fn refused_conversations_are_broken(messages: Seq<Message>)
    requires
        messages.len() <= usize::MAX,
    ensures
        ({
            let first = if messages.len() > 0 && messages[0].role == Role::System {
                1int
            } else {
                0
            };
            match conversation_fault(messages) {
                None => true,
                Some(ChatError::NoMessages) => messages.len() == 0,
                Some(ChatError::SystemNotText) => first == 1 && !(messages[0].content is Text),
                Some(ChatError::SystemAlone) => first == 1 && messages.len() == 1,
                Some(ChatError::SystemThen { got }) => {
                    first == 1 && messages.len() > 1 && got == messages[1].role && got
                        != Role::User
                },
                Some(ChatError::WrongRole { index, expected, got }) => {
                    &&& first <= index < messages.len()
                    &&& got == messages[index as int].role
                    &&& got != expected
                    &&& expected == if (index - first) % 2 == 0 {
                        Role::User
                    } else {
                        Role::Assistant
                    }
                    &&& forall|k: int|
                        first <= k < index ==> (#[trigger] messages[k]).role == if (k - first) % 2
                            == 0 {
                            Role::User
                        } else {
                            Role::Assistant
                        }
                },
                Some(ChatError::UserNotText { index }) => {
                    &&& first <= index < messages.len()
                    &&& messages[index as int].role == Role::User
                    &&& !(messages[index as int].content is Text)
                },
            }
        }),
{
    if messages.len() > 0 {
        lemma_first_fault(messages, first_turn(messages), first_user(messages));
    }
}

/// A rendering is cut behind its first `max` tokens, and not otherwise changed.
pub proof fn renderings_are_cut_at_the_end(tokens: Seq<(u32, bool)>, max: int)
    requires
        0 <= max,
    ensures
        at_most(tokens, max).len() == if tokens.len() < max {
            tokens.len() as int
        } else {
            max
        },
        forall|i: int|
            0 <= i < at_most(tokens, max).len() ==> #[trigger] at_most(tokens, max)[i] == tokens[i],
{
}

/// Whether every text of a message can be encoded.
pub open spec fn texts_split(content: Content) -> bool {
    match content {
        Content::Text(t) => BpeTokenizer::can_split(t@),
        Content::Parts(parts) => forall|i: int|
            0 <= i < parts@.len() ==> match #[trigger] parts@[i] {
                Part::Text(t) => BpeTokenizer::can_split(t@),
                Part::Python(t) => BpeTokenizer::can_split(t@),
                Part::PythonOutput(t) => BpeTokenizer::can_split(t@),
            },
    }
}

/// A conversation without a fault can be rendered if every text in it can be encoded;
/// a conversation with a fault is refused for the fault.
pub proof fn conversations_render_if_their_texts_split(messages: Seq<Message>)
    requires
        conversation_fault(messages) is None ==> {
            &&& has_system(messages) ==> BpeTokenizer::can_split(
                messages[0].content->Text_0@ + seq!['\n', '\n'] + messages[1].content->Text_0@,
            )
            &&& forall|i: int| 0 <= i < messages.len() ==> texts_split((#[trigger] messages[i]).content)
        },
    ensures
        renderable(messages),
{
    if conversation_fault(messages) is None {
        reveal_strlit("\n\n");
        assert("\n\n"@ =~= seq!['\n', '\n']);
        assert forall|i: int| first_turn(messages) <= i < messages.len() implies content_splits(
            (#[trigger] messages[i]).content,
        ) by {
            assert(texts_split(messages[i].content));
            match messages[i].content {
                Content::Text(_) => {},
                Content::Parts(parts) => {
                    assert forall|k: int| 0 <= k < parts@.len() implies #[trigger] part_splits(
                        parts@[k],
                    ) by {
                        let p = parts@[k];
                    }
                },
            }
        }
    }
}

} // verus!
