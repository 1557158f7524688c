//! What the datasets are read as.
use vstd::prelude::*;

use super::custom_json::{lines_outcome, present, JsonLine, LineModel};
use super::dataset::{
    file_outcome, file_prefix, files_outcome, is_sorted_listing, matching_names, named_role,
    rows_outcome, FileFault, RowFaultModel, Split, TaskBatch,
};
use super::gsm8k::{answer_parts, call_end, call_parts, gsm8k_row, last_index, next_call, text_part};
use super::mixture::{rendered_all, rendered_convs, rendered_sources, Source};
use super::mmlu::{choice_lines, has_null, letter, mc_text, mmlu_row};
use super::smoltalk::{read_messages, RawMessage};
use crate::order::text_no_later;
use crate::seqs::concat;
use crate::text::{index_from, lemma_index_from, trimmed};
use crate::tokenizer::bpe::BpeTokenizer;
use crate::tokenizer::chat::{
    conversation_fault, rendering, role_text, ChatError, ContentModel, Conversation, MessageModel,
    PartModel, Role,
};

verus! {

// ---------------------------------------------------------------------------
// Files
// ---------------------------------------------------------------------------

/// The names of a dataset part are those that begin with its prefix and end in
/// `.parquet`, in the order in which they were given.
pub proof fn dataset_files_are_named_so(names: Seq<Seq<char>>, prefix: Seq<char>)
    ensures
        matching_names(names, prefix) == names.filter(
            |n: Seq<char>|
                n.len() >= prefix.len() && n.subrange(0, prefix.len() as int) == prefix && n.len()
                    >= 8 && n.subrange(n.len() - 8, n.len() as int) == ".parquet"@,
        ),
    decreases names.len(),
{
    reveal_strlit(".parquet");
    reveal(Seq::filter);
    if names.len() > 0 {
        dataset_files_are_named_so(names.drop_last(), prefix);
        let n = names.last();
        if n.len() >= prefix.len() {
            assert(n.subrange(0, prefix.len() as int) =~= n.take(prefix.len() as int));
        }
        if n.len() >= 8 {
            assert(n.subrange(n.len() - 8, n.len() as int) =~= n.skip(n.len() - 8));
        }
    }
}

/// A sorted listing has the names that were to be listed, as many, and each comes
/// no later than those behind it.
pub proof fn listings_are_sorted(kept: Seq<Seq<char>>, out: Seq<Seq<char>>)
    requires
        is_sorted_listing(kept, out),
        kept.len() <= usize::MAX,
    ensures
        out.len() == kept.len(),
        forall|name: Seq<char>| #[trigger] out.contains(name) <==> kept.contains(name),
        forall|a: int, b: int|
            0 <= a < b < out.len() ==> text_no_later(#[trigger] out[a], #[trigger] out[b]),
{
    let order = choose|order: Seq<usize>|
        {
            &&& order.len() == kept.len()
            &&& forall|k: int| 0 <= k < kept.len() ==> (#[trigger] order[k]) < kept.len()
            &&& forall|i: usize| i < kept.len() ==> order.contains(i)
            &&& forall|a: int, b: int|
                0 <= a < b < kept.len() ==> text_no_later(
                    kept[#[trigger] order[a] as int],
                    kept[#[trigger] order[b] as int],
                )
            &&& out == Seq::new(kept.len(), |k: int| kept[order[k] as int])
        };
    assert forall|name: Seq<char>| #[trigger] out.contains(name) <==> kept.contains(name) by {
        if out.contains(name) {
            let k = choose|k: int| 0 <= k < out.len() && out[k] == name;
            assert(kept[order[k] as int] == name);
        }
        if kept.contains(name) {
            let i = choose|i: int| 0 <= i < kept.len() && kept[i] == name;
            assert(order.contains(i as usize));
            let k = choose|k: int| 0 <= k < order.len() && order[k] == i as usize;
            assert(out[k] == name);
        }
    }
    assert forall|a: int, b: int| 0 <= a < b < out.len() implies text_no_later(
        #[trigger] out[a],
        #[trigger] out[b],
    ) by {
        assert(out[a] == kept[order[a] as int]);
        assert(out[b] == kept[order[b] as int]);
    }
}

// ---------------------------------------------------------------------------
// Messages
// ---------------------------------------------------------------------------

/// A word names a role if and only if it is the word for it.
pub proof fn roles_have_one_word(s: Seq<char>, role: Role)
    ensures
        named_role(s) == Some(role) <==> s == role_text(role),
{
    reveal_strlit("system");
    reveal_strlit("user");
    reveal_strlit("assistant");
    assert("system"@.len() == 6);
    assert("user"@.len() == 4);
    assert("assistant"@.len() == 9);
}

/// Whether a stored message can be read.
pub open spec fn is_readable(raw: Option<RawMessage>) -> bool {
    raw is Some && (raw->0.role@ == "system"@ || raw->0.role@ == "user"@ || raw->0.role@
        == "assistant"@)
}

/// Stored messages are read in order, each with its role and its whole text, if all
/// of them can be read; else the error is that of the first that cannot.
pub proof fn messages_are_read_in_order(raw: Seq<Option<RawMessage>>, n: int)
    requires
        0 <= n <= raw.len(),
    ensures
        match read_messages(raw, n) {
            Ok(s) => {
                &&& s.len() == n
                &&& forall|i: int|
                    0 <= i < n ==> {
                        &&& is_readable(#[trigger] raw[i])
                        &&& role_text(s[i].role) == raw[i]->0.role@
                        &&& s[i].content == ContentModel::Text(raw[i]->0.content@)
                    }
            },
            Err(RowFaultModel::NullMessage(k)) => {
                &&& 0 <= k < n
                &&& raw[k] is None
                &&& forall|i: int| 0 <= i < k ==> is_readable(#[trigger] raw[i])
            },
            Err(RowFaultModel::UnknownRole(role)) => exists|k: int|
                {
                    &&& 0 <= k < n
                    &&& (#[trigger] raw[k]) is Some
                    &&& raw[k]->0.role@ == role
                    &&& !is_readable(raw[k])
                    &&& forall|i: int| 0 <= i < k ==> is_readable(#[trigger] raw[i])
                },
            Err(_) => false,
        },
    decreases n,
{
    if n > 0 {
        messages_are_read_in_order(raw, n - 1);
        if read_messages(raw, n - 1) is Ok {
            match raw[n - 1] {
                Some(m) => {
                    roles_have_one_word(m.role@, Role::System);
                    roles_have_one_word(m.role@, Role::User);
                    roles_have_one_word(m.role@, Role::Assistant);
                    assert(!is_readable(raw[n - 1]) ==> named_role(m.role@) is None);
                },
                None => {},
            }
        }
    }
}

// ---------------------------------------------------------------------------
// Rows
// ---------------------------------------------------------------------------

/// The rows of a batch are read in order, if all of them can be; else the error is
/// that of the first that cannot.
pub proof fn rows_are_read_in_order<B: TaskBatch>(batch: B, n: int)
    requires
        0 <= n,
    ensures
        match rows_outcome(batch, n) {
            Ok(s) => {
                &&& s.len() == n
                &&& forall|i: int|
                    0 <= i < n ==> #[trigger] batch.row_outcome(i) == Ok::<
                        Seq<MessageModel>,
                        RowFaultModel,
                    >(s[i])
            },
            Err(e) => {
                &&& 0 <= e.0 < n
                &&& batch.row_outcome(e.0) == Err::<Seq<MessageModel>, RowFaultModel>(e.1)
                &&& forall|i: int| 0 <= i < e.0 ==> (#[trigger] batch.row_outcome(i)) is Ok
            },
        },
    decreases n,
{
    if n > 0 {
        rows_are_read_in_order(batch, n - 1);
    }
}

/// What the batches before the `n`-th give.
pub open spec fn rows_before<B: TaskBatch>(batches: Seq<B>, n: int) -> Seq<Seq<MessageModel>> {
    concat(Seq::new(n as nat, |i: int| rows_outcome(batches[i], batches[i].row_count())->Ok_0))
}

/// Whether a batch can be read in full.
pub open spec fn is_sound<B: TaskBatch>(batch: B) -> bool {
    &&& batch.schema_fault() is None
    &&& rows_outcome(batch, batch.row_count()) is Ok
}

proof fn lemma_rows_before<B: TaskBatch>(batches: Seq<B>, n: int)
    requires
        0 < n,
    ensures
        rows_before(batches, n) == rows_before(batches, n - 1) + rows_outcome(
            batches[n - 1],
            batches[n - 1].row_count(),
        )->Ok_0,
{
    let all = Seq::new(
        n as nat,
        |i: int| rows_outcome(batches[i], batches[i].row_count())->Ok_0,
    );
    assert(all.drop_last() =~= Seq::new(
        (n - 1) as nat,
        |i: int| rows_outcome(batches[i], batches[i].row_count())->Ok_0,
    ));
}

/// A file gives the rows of its batches, one batch behind the other; or what is
/// wrong with the first batch that cannot be read: its columns, or a row, counted
/// through the file.
pub proof fn files_are_read_batch_by_batch<B: TaskBatch>(batches: Seq<B>, n: int)
    requires
        0 <= n <= batches.len(),
    ensures
        match file_outcome(batches, n) {
            Ok(s) => {
                &&& s == rows_before(batches, n)
                &&& forall|i: int| 0 <= i < n ==> is_sound(#[trigger] batches[i])
            },
            Err(FileFault::Schema(f)) => exists|k: int|
                {
                    &&& 0 <= k < n
                    &&& (#[trigger] batches[k]).schema_fault() == Some(f)
                    &&& forall|i: int| 0 <= i < k ==> is_sound(#[trigger] batches[i])
                },
            Err(FileFault::Row(row, f)) => exists|k: int|
                {
                    &&& 0 <= k < n
                    &&& (#[trigger] batches[k]).schema_fault() is None
                    &&& rows_outcome(batches[k], batches[k].row_count()) == Err::<
                        Seq<Seq<MessageModel>>,
                        (int, RowFaultModel),
                    >((row - rows_before(batches, k).len(), f))
                    &&& forall|i: int| 0 <= i < k ==> is_sound(#[trigger] batches[i])
                },
        },
    decreases n,
{
    if n > 0 {
        files_are_read_batch_by_batch(batches, n - 1);
        lemma_rows_before(batches, n);
        if file_outcome(batches, n - 1) is Ok {
            let b = batches[n - 1];
            if b.schema_fault() is None && rows_outcome(b, b.row_count()) is Ok {
                assert(is_sound(b));
            }
        }
    } else {
        assert(rows_before(batches, 0) =~= Seq::empty());
    }
}

/// The files of a dataset are read in order, one behind the other, if all of them
/// can be; else the error is that of the first that cannot.
pub proof fn datasets_are_read_file_by_file<B: TaskBatch>(files: Seq<Vec<B>>, n: int)
    requires
        0 <= n <= files.len(),
    ensures
        match files_outcome(files, n) {
            Ok(s) => {
                &&& forall|i: int|
                    0 <= i < n ==> file_outcome(
                        (#[trigger] files[i])@,
                        files[i]@.len() as int,
                    ) is Ok
                &&& s == concat(
                    Seq::new(
                        n as nat,
                        |i: int| file_outcome(files[i]@, files[i]@.len() as int)->Ok_0,
                    ),
                )
            },
            Err(e) => {
                &&& 0 <= e.0 < n
                &&& file_outcome(files[e.0]@, files[e.0]@.len() as int) == Err::<
                    Seq<Seq<MessageModel>>,
                    FileFault,
                >(e.1)
                &&& forall|i: int|
                    0 <= i < e.0 ==> file_outcome(
                        (#[trigger] files[i])@,
                        files[i]@.len() as int,
                    ) is Ok
            },
        },
    decreases n,
{
    let all = |n: int|
        Seq::new(n as nat, |i: int| file_outcome(files[i]@, files[i]@.len() as int)->Ok_0);
    if n > 0 {
        datasets_are_read_file_by_file(files, n - 1);
        assert(all(n).drop_last() =~= all(n - 1));
    }
}

// ---------------------------------------------------------------------------
// Questions with choices
// ---------------------------------------------------------------------------

/// A question with four choices is written with each choice on a line of its own,
/// its letter behind it; and the answer is the letter of the choice that is right.
/// A row is read so if and only if nothing in it is null, it has four choices, and
/// its answer is one of them.
pub proof fn questions_list_their_choices(
    question: Option<String>,
    choices: Option<Vec<Option<String>>>,
    answer: Option<i64>,
)
    ensures
        mmlu_row(question, choices, answer) is Ok <==> {
            &&& question is Some
            &&& choices is Some
            &&& answer is Some
            &&& choices->0@.len() == 4
            &&& forall|i: int| 0 <= i < 4 ==> (#[trigger] choices->0@[i]) is Some
            &&& 0 <= answer->0 <= 3
        },
        mmlu_row(question, choices, answer) is Ok ==> {
            let c = choices->0@;
            let said = mmlu_row(question, choices, answer)->Ok_0;
            &&& said.len() == 2
            &&& said[0].role == Role::User
            &&& said[0].content == ContentModel::Text(
                "Multiple Choice question: "@ + question->0@ + "\n"@ + ("- "@ + c[0]->0@ + "=A\n"@)
                    + ("- "@ + c[1]->0@ + "=B\n"@) + ("- "@ + c[2]->0@ + "=C\n"@) + ("- "@
                    + c[3]->0@ + "=D\n"@)
                    + "\nRespond only with the letter of the correct answer."@,
            )
            &&& said[1].role == Role::Assistant
            &&& said[1].content == ContentModel::Text(
                seq![
                    if answer->0 == 0 {
                        'A'
                    } else if answer->0 == 1 {
                        'B'
                    } else if answer->0 == 2 {
                        'C'
                    } else {
                        'D'
                    },
                ],
            )
        },
{
    if question is Some && choices is Some && answer is Some {
        let c = choices->0@;
        if !has_null(c) {
            assert forall|i: int| 0 <= i < c.len() implies (#[trigger] c[i]) is Some by {}
            if c.len() == 4 && 0 <= answer->0 <= 3 {
                reveal_strlit("A");
                reveal_strlit("B");
                reveal_strlit("C");
                reveal_strlit("D");
                reveal_strlit("\n");
                reveal_strlit("=");
                reveal_strlit("=A\n");
                reveal_strlit("=B\n");
                reveal_strlit("=C\n");
                reveal_strlit("=D\n");
                let t = Seq::new(4, |i: int| c[i]->0@);
                assert(super::mmlu::choice_texts(c) =~= t);
                let none = Seq::<char>::empty();
                let l1 = none + "- "@ + t[0] + "="@ + "A"@ + "\n"@;
                let l2 = l1 + "- "@ + t[1] + "="@ + "B"@ + "\n"@;
                let l3 = l2 + "- "@ + t[2] + "="@ + "C"@ + "\n"@;
                let l4 = l3 + "- "@ + t[3] + "="@ + "D"@ + "\n"@;
                assert(choice_lines(t, 0) == none);
                assert(choice_lines(t, 1) == l1);
                assert(choice_lines(t, 2) == l2);
                assert(choice_lines(t, 3) == l3);
                assert(choice_lines(t, 4) == l4);
                assert(l4 =~= ("- "@ + c[0]->0@ + "=A\n"@) + ("- "@ + c[1]->0@ + "=B\n"@) + ("- "@
                    + c[2]->0@ + "=C\n"@) + ("- "@ + c[3]->0@ + "=D\n"@));
                assert(mc_text(question->0@, t) =~= "Multiple Choice question: "@ + question->0@
                    + "\n"@ + ("- "@ + c[0]->0@ + "=A\n"@) + ("- "@ + c[1]->0@ + "=B\n"@) + ("- "@
                    + c[2]->0@ + "=C\n"@) + ("- "@ + c[3]->0@ + "=D\n"@)
                    + "\nRespond only with the letter of the correct answer."@);
                assert(letter(answer->0 as int) =~= seq![
                    if answer->0 == 0 {
                        'A'
                    } else if answer->0 == 1 {
                        'B'
                    } else if answer->0 == 2 {
                        'C'
                    } else {
                        'D'
                    },
                ]);
            }
        } else {
            let i = choose|i: int| 0 <= i < c.len() && (#[trigger] c[i]) is None;
            if c.len() == 4 {
                assert(c[i] is None);
            }
        }
    }
}

// ---------------------------------------------------------------------------
// Answers with calculator calls
// ---------------------------------------------------------------------------

/// Whether a calculator call stands in `s` from `a` up to `b`: two `<`, one or more
/// characters other than `>`, two `>`.
pub open spec fn is_call(s: Seq<char>, a: int, b: int) -> bool {
    &&& 0 <= a
    &&& a + 5 <= b <= s.len()
    &&& s[a] == '<'
    &&& s[a + 1] == '<'
    &&& s[b - 2] == '>'
    &&& s[b - 1] == '>'
    &&& forall|k: int| a + 2 <= k < b - 2 ==> s[k] != '>'
}

proof fn lemma_is_call(s: Seq<char>, a: int)
    requires
        0 <= a,
    ensures
        match call_end(s, a) {
            Some(b) => is_call(s, a, b),
            None => forall|b: int| !is_call(s, a, b),
        },
{
    if a + 2 <= s.len() {
        lemma_index_from(s, '>', a + 2);
        let j = index_from(s, '>', a + 2);
        assert forall|b: int| call_end(s, a) is None implies !is_call(s, a, b) by {
            if is_call(s, a, b) {
                assert(s[b - 2] == '>');
                assert(j == b - 2);
            }
        }
    }
}

/// What is found from a place on is a call, and no call begins before it.
pub proof fn the_next_call_is_the_first(s: Seq<char>, from: int)
    requires
        0 <= from,
    ensures
        match next_call(s, from) {
            Some(m) => {
                &&& from <= m.0
                &&& is_call(s, m.0, m.1)
                &&& forall|a: int, b: int| from <= a < m.0 ==> !is_call(s, a, b)
            },
            None => forall|a: int, b: int| from <= a ==> !is_call(s, a, b),
        },
    decreases s.len() - from,
{
    if from < s.len() {
        lemma_is_call(s, from);
        if call_end(s, from) is None {
            the_next_call_is_the_first(s, from + 1);
        }
    }
}

/// A call is split at its last equals sign: what stands before it is the expression,
/// and what stands behind it, which holds none, is the result. Without one all is
/// the expression, and the result is empty.
pub proof fn calls_are_split_at_the_last_equals_sign(inner: Seq<char>)
    ensures
        ({
            let parts = call_parts(inner);
            &&& parts.len() == 2
            &&& parts[0] matches PartModel::Python(call)
            &&& parts[1] matches PartModel::PythonOutput(result)
            &&& !result.contains('=')
            &&& if inner.contains('=') {
                inner == call + seq!['='] + result
            } else {
                call == inner && result.len() == 0
            }
        }),
{
    lemma_last_index(inner, '=');
    match last_index(inner, '=') {
        Some(k) => {
            assert(inner.contains('='));
            assert(inner =~= inner.take(k) + seq!['='] + inner.skip(k + 1));
            let rest = inner.skip(k + 1);
            if rest.contains('=') {
                let j = choose|j: int| 0 <= j < rest.len() && rest[j] == '=';
                assert(inner[j + k + 1] == '=');
            }
        },
        None => {
            assert(!Seq::<char>::empty().contains('='));
        },
    }
}

proof fn lemma_last_index(s: Seq<char>, c: char)
    ensures
        match last_index(s, c) {
            Some(k) => {
                &&& 0 <= k < s.len()
                &&& s[k] == c
                &&& forall|j: int| k < j < s.len() ==> s[j] != c
            },
            None => !s.contains(c),
        },
    decreases s.len(),
{
    if s.len() > 0 && s.last() != c {
        let head = s.drop_last();
        lemma_last_index(head, c);
        assert forall|j: int| 0 <= j < head.len() implies #[trigger] s[j] == head[j] by {}
        if last_index(head, c) is None {
            if s.contains(c) {
                let k = choose|k: int| 0 <= k < s.len() && s[k] == c;
                assert(s.drop_last()[k] == c);
            }
        }
    }
}

/// An answer is its texts and its calls in order, with nothing lost: from any place
/// on, the text up to the next call, if there is any; the call, without its
/// brackets, as expression and result; and so on behind it; and all that follows the
/// last call, if there is any.
pub proof fn answers_keep_texts_and_calls(s: Seq<char>, from: int, a: int, b: int)
    requires
        0 <= from <= s.len(),
    ensures
        is_call(s, a, b) && from <= a && (forall|c: int, d: int| from <= c < a ==> !is_call(s, c, d))
            ==> answer_parts(s, from) == (if a > from {
            seq![PartModel::Text(s.subrange(from, a))]
        } else {
            Seq::empty()
        }) + call_parts(s.subrange(a + 2, b - 2)) + answer_parts(s, b),
        (forall|c: int, d: int| from <= c ==> !is_call(s, c, d)) ==> answer_parts(s, from) == if from
            < s.len() {
            seq![PartModel::Text(s.subrange(from, s.len() as int))]
        } else {
            Seq::empty()
        },
{
    the_next_call_is_the_first(s, from);
    if is_call(s, a, b) && from <= a && (forall|c: int, d: int|
        from <= c < a ==> !is_call(s, c, d)) {
        match next_call(s, from) {
            Some(m) => {
                assert(is_call(s, m.0, m.1));
                assert(m.0 == a);
                lemma_one_end(s, a, m.1, b);
                assert(text_part(s.subrange(from, a)) =~= (if a > from {
                    seq![PartModel::Text(s.subrange(from, a))]
                } else {
                    Seq::empty()
                }));
            },
            None => {
                assert(!is_call(s, a, b));
            },
        }
    }
    if forall|c: int, d: int| from <= c ==> !is_call(s, c, d) {
        match next_call(s, from) {
            Some(m) => {
                assert(is_call(s, m.0, m.1));
            },
            None => {},
        }
    }
}

proof fn lemma_one_end(s: Seq<char>, a: int, b: int, c: int)
    requires
        is_call(s, a, b),
        is_call(s, a, c),
    ensures
        b == c,
{
    if b < c {
        assert(s[b - 2] == '>');
    } else if c < b {
        assert(s[c - 2] == '>');
    }
}

// ---------------------------------------------------------------------------
// Lines of JSON
// ---------------------------------------------------------------------------

/// What one line gives: nothing if it is blank, else its conversation.
pub open spec fn line_conversations(line: JsonLine) -> Seq<Seq<MessageModel>> {
    if trimmed(line.text@).len() == 0 {
        Seq::empty()
    } else {
        seq![read_messages(present(line.parsed->Ok_0@), line.parsed->Ok_0@.len() as int)->Ok_0]
    }
}

/// Whether a line is blank, or can be read.
pub open spec fn line_is_sound(line: JsonLine) -> bool {
    trimmed(line.text@).len() == 0 || (line.parsed is Ok && read_messages(
        present(line.parsed->Ok_0@),
        line.parsed->Ok_0@.len() as int,
    ) is Ok)
}

/// Every line that is not blank gives one conversation, in order, if all lines can
/// be read; else the error names the first that cannot, lines counted from one, and
/// blank lines counted too.
pub proof fn lines_are_read_in_order(lines: Seq<JsonLine>, n: int)
    requires
        0 <= n <= lines.len(),
    ensures
        match lines_outcome(lines, n) {
            Ok(s) => {
                &&& forall|i: int| 0 <= i < n ==> line_is_sound(#[trigger] lines[i])
                &&& s == concat(Seq::new(n as nat, |i: int| line_conversations(lines[i])))
            },
            Err(e) => {
                let number = match e {
                    LineModel::Invalid(k, _) => k,
                    LineModel::Message(k, _) => k,
                };
                &&& 1 <= number <= n
                &&& !line_is_sound(lines[number - 1])
                &&& (e is Invalid <==> lines[number - 1].parsed is Err)
                &&& forall|i: int| 0 <= i < number - 1 ==> line_is_sound(#[trigger] lines[i])
            },
        },
    decreases n,
{
    let all = |n: int| Seq::new(n as nat, |i: int| line_conversations(lines[i]));
    if n > 0 {
        lines_are_read_in_order(lines, n - 1);
        assert(all(n).drop_last() =~= all(n - 1));
        if lines_outcome(lines, n) is Ok {
            let before = lines_outcome(lines, n - 1)->Ok_0;
            assert(lines_outcome(lines, n)->Ok_0 =~= before + line_conversations(lines[n - 1]));
        }
    }
}

// ---------------------------------------------------------------------------
// Mixtures
// ---------------------------------------------------------------------------

/// The conversations of a source are rendered in order, each cut to the row; or the
/// error is that of the first that is broken.
pub proof fn sources_are_rendered_in_order(
    tok: BpeTokenizer,
    convs: Seq<Conversation>,
    capacity: int,
    n: int,
)
    requires
        0 <= n <= convs.len(),
        0 <= capacity,
    ensures
        match rendered_convs(tok, convs, capacity, n) {
            None => true,
            Some(Ok(s)) => {
                &&& s.len() == n
                &&& forall|i: int|
                    0 <= i < n ==> {
                        let whole = rendering(tok, (#[trigger] convs[i]).messages@);
                        &&& conversation_fault(convs[i].messages@) is None
                        &&& s[i].len() <= capacity
                        &&& s[i].len() == whole.len() || s[i].len() == capacity
                        &&& s[i].len() <= whole.len()
                        &&& s[i] == whole.subrange(0, s[i].len() as int)
                    }
            },
            Some(Err(e)) => {
                &&& 0 <= e.0 < n
                &&& conversation_fault(convs[e.0].messages@) == Some(e.1)
                &&& forall|i: int|
                    0 <= i < e.0 ==> conversation_fault((#[trigger] convs[i]).messages@) is None
            },
        },
    decreases n,
{
    if n > 0 {
        sources_are_rendered_in_order(tok, convs, capacity, n - 1);
        if let Some(Ok(s)) = rendered_convs(tok, convs, capacity, n) {
            let whole = rendering(tok, convs[n - 1].messages@);
            assert(s[n - 1] =~= whole.subrange(0, s[n - 1].len() as int));
        }
    }
}

/// The sources of a mixture are rendered one behind the other, if all of them can
/// be; else the error names the first source with a broken conversation.
pub proof fn mixtures_hold_every_source(
    tok: BpeTokenizer,
    sources: Seq<Source>,
    capacity: int,
)
    ensures
        match rendered_all(tok, sources, capacity) {
            None => true,
            Some(Ok(s)) => s == concat(
                Seq::new(
                    sources.len(),
                    |i: int|
                        rendered_convs(
                            tok,
                            sources[i].conversations@,
                            capacity,
                            sources[i].conversations@.len() as int,
                        )->0->Ok_0,
                ),
            ),
            Some(Err(e)) => {
                &&& 0 <= e.0 < sources.len()
                &&& rendered_convs(
                    tok,
                    sources[e.0].conversations@,
                    capacity,
                    sources[e.0].conversations@.len() as int,
                ) == Some(Err::<Seq<Seq<(u32, bool)>>, (int, ChatError)>((e.1, e.2)))
            },
        },
{
    lemma_sources(tok, sources, capacity, sources.len() as int);
}

proof fn lemma_sources(tok: BpeTokenizer, sources: Seq<Source>, capacity: int, n: int)
    requires
        0 <= n <= sources.len(),
    ensures
        match rendered_sources(tok, sources, capacity, n) {
            None => true,
            Some(Ok(s)) => s == concat(
                Seq::new(
                    n as nat,
                    |i: int|
                        rendered_convs(
                            tok,
                            sources[i].conversations@,
                            capacity,
                            sources[i].conversations@.len() as int,
                        )->0->Ok_0,
                ),
            ),
            Some(Err(e)) => {
                &&& 0 <= e.0 < n
                &&& rendered_convs(
                    tok,
                    sources[e.0].conversations@,
                    capacity,
                    sources[e.0].conversations@.len() as int,
                ) == Some(Err::<Seq<Seq<(u32, bool)>>, (int, ChatError)>((e.1, e.2)))
            },
        },
    decreases n,
{
    let all = |n: int|
        Seq::new(
            n as nat,
            |i: int|
                rendered_convs(
                    tok,
                    sources[i].conversations@,
                    capacity,
                    sources[i].conversations@.len() as int,
                )->0->Ok_0,
        );
    if n > 0 {
        lemma_sources(tok, sources, capacity, n - 1);
        assert(all(n).drop_last() =~= all(n - 1));
    }
}

/// A question is written with a line for each of its first four choices, in order and
/// with their letters, between the same words.
pub proof fn choices_have_a_line_each(question: Seq<char>, choices: Seq<Seq<char>>)
    ensures
        ({
            let n = if choices.len() < 4 {
                choices.len()
            } else {
                4
            };
            mc_text(question, choices) == "Multiple Choice question: "@ + question + "\n"@ + concat(
                Seq::new(
                    n,
                    |i: int|
                        seq!['-', ' '] + choices[i] + seq!['='] + seq![
                            (if i == 0 {
                                'A'
                            } else if i == 1 {
                                'B'
                            } else if i == 2 {
                                'C'
                            } else {
                                'D'
                            }),
                        ] + seq!['\n'],
                ),
            ) + "\nRespond only with the letter of the correct answer."@
        }),
{
    let n = if choices.len() < 4 {
        choices.len() as int
    } else {
        4
    };
    lemma_choice_lines(choices, n);
}

proof fn lemma_choice_lines(choices: Seq<Seq<char>>, n: int)
    requires
        0 <= n <= 4,
    ensures
        choice_lines(choices, n) == concat(
            Seq::new(
                n as nat,
                |i: int|
                    seq!['-', ' '] + choices[i] + seq!['='] + seq![
                        (if i == 0 {
                            'A'
                        } else if i == 1 {
                            'B'
                        } else if i == 2 {
                            'C'
                        } else {
                            'D'
                        }),
                    ] + seq!['\n'],
            ),
        ),
    decreases n,
{
    let line = |i: int|
        seq!['-', ' '] + choices[i] + seq!['='] + seq![
            (if i == 0 {
                'A'
            } else if i == 1 {
                'B'
            } else if i == 2 {
                'C'
            } else {
                'D'
            }),
        ] + seq!['\n'];
    if n > 0 {
        lemma_choice_lines(choices, n - 1);
        let all = Seq::new(n as nat, line);
        assert(all.drop_last() =~= Seq::new((n - 1) as nat, line));
        reveal_strlit("- ");
        reveal_strlit("=");
        reveal_strlit("\n");
        reveal_strlit("A");
        reveal_strlit("B");
        reveal_strlit("C");
        reveal_strlit("D");
        assert(choice_lines(choices, n) =~= choice_lines(choices, n - 1) + line(n - 1));
    }
}

/// A word problem is read as its question and its answer in parts if and only if neither
/// is null.
pub proof fn problems_are_questions_and_answers(question: Option<String>, answer: Option<String>)
    ensures
        gsm8k_row(question, answer) is Ok <==> question is Some && answer is Some,
        gsm8k_row(question, answer) matches Ok(said) ==> {
            &&& said.len() == 2
            &&& said[0].role == Role::User
            &&& said[0].content == ContentModel::Text(question->0@)
            &&& said[1].role == Role::Assistant
            &&& said[1].content == ContentModel::Parts(answer_parts(answer->0@, 0))
        },
{
}

/// The files of a dataset begin with its name and that of the part, between dashes.
pub proof fn dataset_files_name_their_part(dataset: Seq<char>)
    ensures
        file_prefix(dataset, Split::Train) == dataset + "-train-"@,
        file_prefix(dataset, Split::Test) == dataset + "-test-"@,
{
    reveal_strlit("-");
    reveal_strlit("train");
    reveal_strlit("test");
    reveal_strlit("-train-");
    reveal_strlit("-test-");
    assert(file_prefix(dataset, Split::Train) =~= dataset + "-train-"@);
    assert(file_prefix(dataset, Split::Test) =~= dataset + "-test-"@);
}

} // verus!
