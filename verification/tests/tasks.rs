use base64::engine::general_purpose::STANDARD;
use base64::Engine;
use fancy_regex::Regex;
use rand::seq::SliceRandom;
use rand::SeedableRng;
use rand_chacha::ChaCha8Rng;
use rs_nanogpt::tasks::custom_json::{self, JsonLine, LineError};
use rs_nanogpt::tasks::dataset::{
    dataset_files, dataset_prefix, role_from_str, RowFault, SchemaFault, TaskError,
};
use rs_nanogpt::tasks::download::sft_jobs;
use rs_nanogpt::tasks::gsm8k::{self, split_answer, Gsm8kBatch};
use rs_nanogpt::tasks::mixture::{
    can_render_mixture, render_mixture, try_render_mixture, MixtureError, Source,
};
use rs_nanogpt::tasks::mmlu::{self, AnswerColumn, ChoicesColumn, MmluBatch, TextColumn};
use rs_nanogpt::tasks::smoltalk::{self, MessagesColumn, RawMessage, SmoltalkBatch};
use rs_nanogpt::tasks::Split;
use rs_nanogpt::tokenizer::bpe::BpeTokenizer;
use rs_nanogpt::tokenizer::chat::{
    ChatError, Content, Conversation, Message, Part, RenderedConversation, Role,
};

fn byte_tokenizer() -> BpeTokenizer {
    let mut text = String::new();
    for b in 0u32..256 {
        text.push_str(&format!("{} {}\n", STANDARD.encode([b as u8]), b));
    }
    BpeTokenizer::from_vocab(&text).unwrap()
}

fn names(list: &[&str]) -> Vec<String> {
    list.iter().map(|s| s.to_string()).collect()
}

// ---------------------------------------------------------------------------
// Lines of JSON
// ---------------------------------------------------------------------------

/// Parses one line as an array of messages.
fn parse(line: &str) -> Result<Vec<RawMessage>, String> {
    let value: serde_json::Value = serde_json::from_str(line).map_err(|e| e.to_string())?;
    let list = value.as_array().ok_or("not an array")?;
    list.iter()
        .map(|m| {
            let field = |key: &str| {
                m.get(key)
                    .and_then(|v| v.as_str())
                    .map(|s| s.to_string())
                    .ok_or(format!("missing field `{key}`"))
            };
            Ok(RawMessage {
                role: field("role")?,
                content: field("content")?,
            })
        })
        .collect()
}

fn load_json(contents: &str) -> Result<Vec<Conversation>, LineError> {
    let lines: Vec<JsonLine> = contents
        .lines()
        .map(|line| JsonLine {
            text: line.to_string(),
            parsed: parse(line),
        })
        .collect();
    custom_json::load(&lines)
}

#[test]
fn loads_two_conversations() {
    let convs = load_json(&format!(
        "{}\n{}\n",
        r#"[{"role":"user","content":"Hi"},{"role":"assistant","content":"Hello"}]"#,
        r#"[{"role":"user","content":"Who are you?"},{"role":"assistant","content":"nanochat"}]"#,
    ))
    .unwrap();
    assert_eq!(convs.len(), 2);
    assert_eq!(convs[0].messages.len(), 2);
    assert_eq!(convs[0].messages[0].role, Role::User);
    assert_eq!(convs[0].messages[1].content, Content::Text("Hello".into()));
    assert_eq!(
        convs[1].messages[1].content,
        Content::Text("nanochat".into())
    );
}

#[test]
fn malformed_line_errors_with_line_number() {
    let err = load_json(&format!(
        "{}\nnot json\n",
        r#"[{"role":"user","content":"ok"}]"#
    ))
    .unwrap_err();
    assert!(matches!(err, LineError::Invalid { line: 2, .. }));
    let msg = err.message("f.jsonl");
    assert!(
        msg.contains("line 2") && msg.contains("invalid JSON"),
        "unexpected error: {msg}"
    );
}

#[test]
fn blank_lines_skipped() {
    let convs = load_json(&format!(
        "\n{}\n   \n{}\n",
        r#"[{"role":"user","content":"a"}]"#, r#"[{"role":"user","content":"b"}]"#
    ));
    assert_eq!(convs.unwrap().len(), 2);

    let msg = load_json("\n   \nnot json\n").unwrap_err().message("f.jsonl");
    assert!(msg.contains("line 3"), "unexpected error: {msg}");
}

#[test]
fn unknown_role_errors_with_line_number() {
    let err = load_json(&format!("{}\n", r#"[{"role":"tool","content":"x"}]"#)).unwrap_err();
    assert_eq!(
        err,
        LineError::Message {
            line: 1,
            fault: RowFault::UnknownRole {
                role: "tool".to_string()
            }
        }
    );
    assert_eq!(err.message("f.jsonl"), "f.jsonl: line 1: unknown role \"tool\"");
}

#[test]
fn roles_are_read_back_from_their_names() {
    assert_eq!(role_from_str("system"), Some(Role::System));
    assert_eq!(role_from_str("user"), Some(Role::User));
    assert_eq!(role_from_str("assistant"), Some(Role::Assistant));
    assert_eq!(role_from_str("User"), None);
}

// ---------------------------------------------------------------------------
// Word problems
// ---------------------------------------------------------------------------

fn text(s: &str) -> Part {
    Part::Text(s.into())
}

fn python(s: &str) -> Part {
    Part::Python(s.into())
}

fn output(s: &str) -> Part {
    Part::PythonOutput(s.into())
}

fn gsm8k_batch(rows: &[(&str, &str)]) -> Gsm8kBatch {
    Gsm8kBatch {
        question: TextColumn::Rows(rows.iter().map(|(q, _)| Some(q.to_string())).collect()),
        answer: TextColumn::Rows(rows.iter().map(|(_, a)| Some(a.to_string())).collect()),
    }
}

#[test]
fn docstring_example_splits_exactly() {
    let answer = "Weng earns 12/60 = $<<12/60=0.2>>0.2 per minute.\n\
                  Working 50 minutes, she earned 0.2 x 50 = $<<0.2*50=10>>10.\n\
                  #### 10";
    assert_eq!(
        split_answer(answer),
        vec![
            text("Weng earns 12/60 = $"),
            python("12/60"),
            output("0.2"),
            text("0.2 per minute.\nWorking 50 minutes, she earned 0.2 x 50 = $"),
            python("0.2*50"),
            output("10"),
            text("10.\n#### 10"),
        ]
    );
}

#[test]
fn call_without_equals() {
    assert_eq!(
        split_answer("a<<1+1>>b"),
        vec![text("a"), python("1+1"), output(""), text("b")]
    );
}

#[test]
fn no_calls_single_text_part() {
    assert_eq!(
        split_answer("just prose\n#### 3"),
        vec![text("just prose\n#### 3")]
    );
}

#[test]
fn leading_call_skips_empty_prefix() {
    assert_eq!(
        split_answer("<<2*3=6>>6 total"),
        vec![python("2*3"), output("6"), text("6 total")]
    );
}

#[test]
fn what_is_no_call_stays_text() {
    assert_eq!(split_answer("a<<>>b"), vec![text("a<<>>b")]);
    assert_eq!(split_answer("a<<1>b"), vec![text("a<<1>b")]);
    assert_eq!(
        split_answer("x<<<1=2>>"),
        vec![text("x"), python("<1"), output("2")]
    );
    assert_eq!(
        split_answer("<<a>b<<1=2>>"),
        vec![text("<<a>b"), python("1"), output("2")]
    );
    assert_eq!(
        split_answer("<<1=2=3>>"),
        vec![python("1=2"), output("3")]
    );
    assert!(split_answer("").is_empty());
}

/// The parts of an answer, its calls found by a pattern.
fn parts_by_pattern(calls: &Regex, answer: &str) -> Vec<Part> {
    let mut parts = Vec::new();
    let mut at = 0;
    for hit in calls.find_iter(answer) {
        let hit = hit.unwrap();
        if at < hit.start() {
            parts.push(text(&answer[at..hit.start()]));
        }
        let inner = &answer[hit.start() + 2..hit.end() - 2];
        let (call, result) = inner.rsplit_once('=').unwrap_or((inner, ""));
        parts.push(python(call));
        parts.push(output(result));
        at = hit.end();
    }
    if at < answer.len() {
        parts.push(text(&answer[at..]));
    }
    parts
}

#[test]
fn calls_are_what_their_pattern_matches() {
    let calls = Regex::new("<<[^>]+>>").unwrap();
    let letters = ['<', '>', '=', 'é'];
    for len in 0..=7u32 {
        for n in 0..4usize.pow(len) {
            let answer: String = (0..len)
                .map(|k| letters[n / 4usize.pow(k) % 4])
                .collect();
            assert_eq!(split_answer(&answer), parts_by_pattern(&calls, &answer), "{answer}");
        }
    }
    let two = "<<1+1=2>>2 and\n<<<a\n=b>>>>";
    assert_eq!(split_answer(two), parts_by_pattern(&calls, two));
}

#[test]
fn loads_conversation_shape() {
    let convs =
        gsm8k::load(&vec![vec![gsm8k_batch(&[("How many?", "It is <<1+2=3>>3.\n#### 3")])]]).unwrap();
    assert_eq!(convs.len(), 1);
    assert_eq!(
        convs[0].messages[0].content,
        Content::Text("How many?".into())
    );
    assert_eq!(
        convs[0].messages[1].content,
        Content::Parts(vec![
            text("It is "),
            python("1+2"),
            output("3"),
            text("3.\n#### 3"),
        ])
    );
}

#[test]
fn null_fields_and_wrong_columns_are_reported() {
    let mut batch = gsm8k_batch(&[("a", "b"), ("c", "d")]);
    batch.answer = TextColumn::Rows(vec![Some("b".into()), None]);
    let err = gsm8k::load(&vec![vec![], vec![gsm8k_batch(&[("q", "a")]), batch.clone()]]).unwrap_err();
    assert!(matches!(err, TaskError::Row { file: 1, fault: RowFault::NullField, .. }));

    batch.answer = TextColumn::WrongType;
    let err = gsm8k::load(&vec![vec![batch.clone()]]).unwrap_err();
    assert_eq!(
        err,
        TaskError::Schema {
            file: 0,
            schema: SchemaFault::NoAnswerStrings
        }
    );
    batch.question = TextColumn::Missing;
    let err = gsm8k::load(&vec![vec![batch]]).unwrap_err();
    assert!(matches!(
        err,
        TaskError::Schema { schema: SchemaFault::NoQuestionStrings, .. }
    ));
}

// ---------------------------------------------------------------------------
// Multiple choice
// ---------------------------------------------------------------------------

fn mmlu_batch(choices: &[&str], answer: i64) -> MmluBatch {
    MmluBatch {
        question: TextColumn::Rows(vec![Some("What is 2+2?".to_string())]),
        choices: ChoicesColumn::Rows(vec![Some(
            choices.iter().map(|c| Some(c.to_string())).collect(),
        )]),
        answer: AnswerColumn::Rows(vec![Some(answer)]),
    }
}

#[test]
fn renders_mc_verbatim() {
    let convs = mmlu::load(&vec![vec![mmlu_batch(&["3", "4", "5", "6"], 1)]]).unwrap();
    assert_eq!(convs.len(), 1);
    assert_eq!(
        convs[0].messages[0].content,
        Content::Text(
            "Multiple Choice question: What is 2+2?\n\
             - 3=A\n\
             - 4=B\n\
             - 5=C\n\
             - 6=D\n\
             \nRespond only with the letter of the correct answer."
                .into()
        )
    );
    assert_eq!(convs[0].messages[1].content, Content::Text("B".into()));
}

#[test]
fn wrong_choice_arity_errors() {
    let err = mmlu::load(&vec![vec![mmlu_batch(&["3", "4", "5"], 0)]]).unwrap_err();
    let msg = err.message("mmlu-train-00000.parquet");
    assert!(
        msg.contains("row 0") && msg.contains("expected 4 choices, got 3"),
        "unexpected error: {msg}"
    );
}

#[test]
fn out_of_range_answer_errors() {
    let err = mmlu::load(&vec![vec![mmlu_batch(&["3", "4", "5", "6"], 4)]]).unwrap_err();
    let msg = err.message("mmlu-train-00000.parquet");
    assert!(msg.contains("answer 4 out of range"), "unexpected error: {msg}");
    let err = mmlu::load(&vec![vec![mmlu_batch(&["3", "4", "5", "6"], -1)]]).unwrap_err();
    assert!(err.message("f").contains("answer -1 out of range"));
}

#[test]
fn choices_with_nulls_and_wrong_columns_are_reported() {
    let mut batch = mmlu_batch(&["3", "4", "5", "6"], 1);
    batch.choices = ChoicesColumn::Rows(vec![Some(vec![None, Some("4".into())])]);
    let fault = |b: &MmluBatch| mmlu::load(&vec![vec![b.clone()]]).unwrap_err();
    assert_eq!(
        fault(&batch),
        TaskError::Row {
            file: 0,
            row: 0,
            fault: RowFault::NullChoice
        }
    );
    batch.choices = ChoicesColumn::Rows(vec![None]);
    assert!(matches!(fault(&batch), TaskError::Row { fault: RowFault::NullField, .. }));
    for (choices, want) in [
        (ChoicesColumn::Missing, "missing 'choices' column"),
        (ChoicesColumn::NotList, "'choices' column is not a list"),
        (ChoicesColumn::ItemsNotStrings, "'choices' items are not strings"),
    ] {
        batch.choices = choices;
        assert_eq!(fault(&batch).message("f"), format!("f: {want}"));
    }
    let mut batch = mmlu_batch(&["3", "4", "5", "6"], 1);
    batch.answer = AnswerColumn::WrongType;
    assert_eq!(fault(&batch).message("f"), "f: 'answer' column is not int64");
    batch.answer = AnswerColumn::Missing;
    assert_eq!(fault(&batch).message("f"), "f: missing 'answer' column");
    batch.question = TextColumn::WrongType;
    assert_eq!(fault(&batch).message("f"), "f: 'question' column is not a string");
    batch.question = TextColumn::Missing;
    assert_eq!(fault(&batch).message("f"), "f: missing 'question' column");
}

// ---------------------------------------------------------------------------
// General conversations
// ---------------------------------------------------------------------------

fn smoltalk_batch(rows: &[&[(&str, &str)]]) -> SmoltalkBatch {
    SmoltalkBatch {
        messages: MessagesColumn::Rows(
            rows.iter()
                .map(|row| {
                    Some(
                        row.iter()
                            .map(|(role, content)| {
                                Some(RawMessage {
                                    role: role.to_string(),
                                    content: content.to_string(),
                                })
                            })
                            .collect(),
                    )
                })
                .collect(),
        ),
    }
}

#[test]
fn decodes_exact_conversation() {
    let batch = smoltalk_batch(&[&[("system", "S"), ("user", "U"), ("assistant", "A")]]);
    let convs = smoltalk::load(&vec![vec![batch]]).unwrap();
    assert_eq!(convs.len(), 1);
    let text = |role, s: &str| Message {
        role,
        content: Content::Text(s.into()),
    };
    assert_eq!(
        convs[0],
        Conversation {
            messages: vec![
                text(Role::System, "S"),
                text(Role::User, "U"),
                text(Role::Assistant, "A"),
            ]
        }
    );
}

#[test]
fn walks_split_files_sorted() {
    let files = [
        ("smoltalk-train-00001.parquet", "second"),
        ("smoltalk-train-00000.parquet", "first"),
        ("smoltalk-test-00000.parquet", "test split"),
    ];
    let found: Vec<String> = files.iter().map(|(name, _)| name.to_string()).collect();
    let prefix = dataset_prefix("smoltalk", Split::Train);
    let picked = dataset_files(&found, &prefix).unwrap();
    let batches: Vec<Vec<SmoltalkBatch>> = picked
        .iter()
        .map(|name| {
            let (_, content) = files.iter().find(|(n, _)| n == name).unwrap();
            vec![smoltalk_batch(&[&[("user", content)]])]
        })
        .collect();
    let convs = smoltalk::load(&batches).unwrap();
    let texts: Vec<_> = convs
        .iter()
        .map(|c| match &c.messages[0].content {
            Content::Text(t) => t.as_str(),
            Content::Parts(_) => unreachable!(),
        })
        .collect();
    assert_eq!(texts, ["first", "second"]);
}

#[test]
fn unknown_role_errors_with_context() {
    let batch = smoltalk_batch(&[&[("user", "ok")], &[("tool", "nope")]]);
    let err = smoltalk::load(&vec![vec![batch]]).unwrap_err();
    let msg = err.message("smoltalk-train-00000.parquet");
    for needle in ["smoltalk-train-00000.parquet", "row 1", "\"tool\""] {
        assert!(
            msg.contains(needle),
            "error {msg:?} should contain {needle:?}"
        );
    }
}

#[test]
fn missing_split_errors() {
    let found = names(&["smoltalk-train-00000.parquet"]);
    assert_eq!(
        dataset_files(&found, &dataset_prefix("smoltalk", Split::Test)),
        None
    );
}

#[test]
fn null_messages_and_wrong_columns_are_reported() {
    let fault = |messages: MessagesColumn| {
        smoltalk::load(&vec![vec![SmoltalkBatch { messages }]]).unwrap_err()
    };
    assert!(matches!(
        fault(MessagesColumn::Rows(vec![None])),
        TaskError::Row { row: 0, fault: RowFault::NullMessages, .. }
    ));
    let ok = Some(RawMessage {
        role: "user".into(),
        content: "x".into(),
    });
    assert!(matches!(
        fault(MessagesColumn::Rows(vec![Some(vec![ok, None])])),
        TaskError::Row { row: 0, fault: RowFault::NullMessage { index: 1 }, .. }
    ));
    for (column, want) in [
        (MessagesColumn::Missing, SchemaFault::MissingMessages),
        (MessagesColumn::NotList, SchemaFault::MessagesNotList),
        (MessagesColumn::ItemsNotStructs, SchemaFault::MessageNotStruct),
        (MessagesColumn::NoRole, SchemaFault::NoRoleField),
        (MessagesColumn::NoContent, SchemaFault::NoContentField),
    ] {
        assert_eq!(
            fault(column),
            TaskError::Schema {
                file: 0,
                schema: want
            }
        );
    }
}

// ---------------------------------------------------------------------------
// The mixture
// ---------------------------------------------------------------------------

fn message(role: Role, text: &str) -> Message {
    Message {
        role,
        content: Content::Text(text.into()),
    }
}

fn conv(text: &str) -> Conversation {
    Conversation {
        messages: vec![message(Role::User, text), message(Role::Assistant, "ok")],
    }
}

fn source(name: &'static str, texts: &[&str]) -> Source {
    Source {
        name,
        conversations: texts.iter().map(|t| conv(t)).collect(),
    }
}

fn fixture() -> Vec<Source> {
    vec![
        source("alpha", &["a", "b", "c", "d", "e", "f"]),
        source("beta", &["g", "h", "i", "j"]),
    ]
}

fn sequential(tok: &BpeTokenizer, row_capacity: usize) -> Vec<RenderedConversation> {
    fixture()
        .into_iter()
        .flat_map(|s| s.conversations)
        .map(|c| tok.render_conversation(&c, row_capacity).unwrap())
        .collect()
}

fn sorted_ids(rendered: &[RenderedConversation]) -> Vec<Vec<u32>> {
    let mut ids: Vec<Vec<u32>> = rendered.iter().map(|r| r.ids.clone()).collect();
    ids.sort();
    ids
}

#[test]
fn render_error_carries_source_and_index() {
    let tok = byte_tokenizer();
    let mut conversations = vec![conv("ok"), conv("also ok")];
    conversations.insert(
        1,
        Conversation {
            messages: vec![message(Role::Assistant, "no user turn")],
        },
    );

    let err = render_mixture(
        &tok,
        vec![Source {
            name: "smoltalk",
            conversations,
        }],
        64,
        42,
    )
    .unwrap_err();
    assert_eq!(
        err,
        MixtureError {
            source: 0,
            name: "smoltalk",
            index: 1,
            error: ChatError::WrongRole {
                index: 0,
                expected: Role::User,
                got: Role::Assistant
            }
        }
    );
    let msg = err.message();
    for needle in ["smoltalk[1]", "expected user, got assistant"] {
        assert!(
            msg.contains(needle),
            "error {msg:?} should contain {needle:?}"
        );
    }
}

#[test]
fn truncation_caps_every_render_at_row_capacity() {
    let tok = byte_tokenizer();
    let long = "x".repeat(200);
    let sources = vec![source("s", &[&long, "short"])];

    let mut lengths: Vec<usize> = render_mixture(&tok, sources, 13, 42)
        .unwrap()
        .iter()
        .map(|r| r.ids.len())
        .collect();
    lengths.sort_unstable();
    assert_eq!(
        lengths,
        [12, 13],
        "one render untouched, one cut to the cap"
    );
}

#[test]
fn same_seed_is_a_deterministic_permutation() {
    let tok = byte_tokenizer();
    let first = render_mixture(&tok, fixture(), 64, 42).unwrap();
    let second = render_mixture(&tok, fixture(), 64, 42).unwrap();
    assert_eq!(first, second);
    assert_eq!(sorted_ids(&first), sorted_ids(&sequential(&tok, 64)));
}

#[test]
fn different_seed_reorders_the_same_conversations() {
    let tok = byte_tokenizer();
    let a = render_mixture(&tok, fixture(), 64, 42).unwrap();
    let b = render_mixture(&tok, fixture(), 64, 43).unwrap();
    assert_ne!(a, b, "a different seed must give a different order");
    assert_eq!(
        sorted_ids(&a),
        sorted_ids(&b),
        "same conversations, reordered"
    );
}

#[test]
fn parallel_render_matches_sequential_reference() {
    let tok = byte_tokenizer();
    let mut want = sequential(&tok, 64);
    want.shuffle(&mut ChaCha8Rng::seed_from_u64(42));
    assert_eq!(render_mixture(&tok, fixture(), 64, 42).unwrap(), want);
}

#[test]
fn a_mixture_that_can_fail_is_the_same_mixture() {
    let tok = byte_tokenizer();
    assert!(can_render_mixture(&tok, &fixture(), 64));
    assert_eq!(
        try_render_mixture(&tok, fixture(), 64, 42),
        Some(render_mixture(&tok, fixture(), 64, 42))
    );
}

#[test]
fn every_parser_output_renders() {
    let mut all: Vec<Conversation> = Vec::new();
    all.extend(
        smoltalk::load(&vec![vec![smoltalk_batch(&[
            &[("system", "Be brief."), ("user", "Hi"), ("assistant", "Yo")],
            &[("user", "One"), ("assistant", "Two")],
        ])]])
        .unwrap(),
    );
    all.extend(mmlu::load(&vec![vec![mmlu_batch(&["3", "4", "5", "6"], 1)]]).unwrap());
    all.extend(
        gsm8k::load(&vec![vec![gsm8k_batch(&[("How many?", "It is <<1+2=3>>3.\n#### 3")])]]).unwrap(),
    );
    all.extend(
        load_json(
            r#"[{"role":"user","content":"Who are you?"},{"role":"assistant","content":"nanochat"}]"#,
        )
        .unwrap(),
    );
    assert_eq!(all.len(), 5);

    let tok = byte_tokenizer();
    for conv in &all {
        let rendered = tok.render_conversation(conv, 10_000).unwrap();
        assert!(!rendered.ids.is_empty());
    }
}

// ---------------------------------------------------------------------------
// The files
// ---------------------------------------------------------------------------

#[test]
fn manifest_is_ten_unique_wellformed_files() {
    let jobs = sft_jobs();
    assert_eq!(jobs.len(), 10);

    let mut names: Vec<&str> = jobs.iter().map(|j| j.filename.as_str()).collect();
    names.sort_unstable();
    names.dedup();
    assert_eq!(names.len(), 10, "local filenames must be unique");

    let mut urls: Vec<&str> = jobs.iter().map(|j| j.url.as_str()).collect();
    urls.sort_unstable();
    urls.dedup();
    assert_eq!(urls.len(), 10, "URLs must be unique");

    for j in &jobs {
        assert!(j.url.starts_with("https://"), "bad URL: {}", j.url);
        assert!(
            !j.filename.contains('/'),
            "filename must be a bare name: {}",
            j.filename
        );
    }
}

#[test]
fn manifest_covers_every_dataset_split() {
    let jobs = sft_jobs();
    let count = |prefix: &str| {
        jobs.iter()
            .filter(|j| j.filename.starts_with(prefix) && j.filename.ends_with(".parquet"))
            .count()
    };
    assert_eq!(count("smoltalk-train-"), 4);
    assert_eq!(count("smoltalk-test-"), 1);
    assert_eq!(count("mmlu-train-"), 1);
    assert_eq!(count("mmlu-test-"), 1);
    assert_eq!(count("gsm8k-train-"), 1);
    assert_eq!(count("gsm8k-test-"), 1);
    assert!(jobs
        .iter()
        .any(|j| j.filename == "identity_conversations.jsonl"));
}

#[test]
fn datasets_find_their_files_in_the_manifest() {
    let found: Vec<String> = sft_jobs().into_iter().map(|j| j.filename).collect();
    let files = dataset_files(&found, &dataset_prefix("smoltalk", Split::Train)).unwrap();
    assert_eq!(
        files,
        names(&[
            "smoltalk-train-00000.parquet",
            "smoltalk-train-00001.parquet",
            "smoltalk-train-00002.parquet",
            "smoltalk-train-00003.parquet",
        ])
    );
    assert_eq!(
        sft_jobs()[5].url,
        "https://huggingface.co/datasets/cais/mmlu/resolve/main/all/auxiliary_train-00000-of-00001.parquet"
    );
}
