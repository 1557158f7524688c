use base64::engine::general_purpose::STANDARD;
use base64::Engine;
use rs_nanogpt::binary64::Real;
use rs_nanogpt::chat::{
    begin_turn, finish_turn, read_command, Action, ChatConfig, ChatConfigError, Command, Event,
    Session, Turn,
};
use rs_nanogpt::tokenizer::bpe::BpeTokenizer;
use rs_nanogpt::tokenizer::shared::TokenId;

fn byte_tokenizer() -> BpeTokenizer {
    let mut text = String::new();
    for b in 0u32..256 {
        text.push_str(&format!("{} {}\n", STANDARD.encode([b as u8]), b));
    }
    BpeTokenizer::from_vocab(&text).unwrap()
}

fn num(x: f64) -> Real {
    Real { bits: x.to_bits() }
}

fn chat_cfg(max_tokens: usize) -> ChatConfig {
    ChatConfig {
        checkpoint: "unused".into(),
        vocab: "unused".into(),
        prompt: None,
        max_tokens,
        temperature: num(0.0),
        top_k: 0,
        seed: 42,
    }
}

/// A model's reply: as many ids as it may have, the last of which may end it.
fn reply(max_tokens: usize, ends_on: Option<TokenId>) -> Vec<TokenId> {
    let mut ids: Vec<TokenId> = (0..max_tokens as u32).map(|i| 97 + i % 26).collect();
    if let (Some(last), Some(end)) = (ids.last_mut(), ends_on) {
        *last = end;
    }
    ids
}

/// One turn; what is printed, and the history.
fn chat_turn(
    tok: &BpeTokenizer,
    ids: &mut Vec<TokenId>,
    text: &str,
    seq_len: usize,
    max_tokens: usize,
    ends_on: Option<TokenId>,
) -> String {
    let mut s = Session {
        ids: ids.clone(),
        prompt: None,
        seq_len,
        max_tokens,
    };
    let event = Event::Line { text: text.into() };
    let (mut printed, action) = s.next(tok, event);
    if let Action::Generate { max_tokens } = action {
        let generated = reply(max_tokens, ends_on);
        printed.push_str("<reply>");
        printed.push_str(&s.next(tok, Event::Replied { generated }).0);
    }
    *ids = s.ids;
    printed
}

fn assert_user_span(tok: &BpeTokenizer, ids: &[TokenId], base: usize, text: &str) {
    let mut want = vec![tok.special_id("<|user_start|>").unwrap()];
    want.extend(tok.encode(text));
    want.push(tok.special_id("<|user_end|>").unwrap());
    want.push(tok.special_id("<|assistant_start|>").unwrap());
    assert_eq!(&ids[base..base + want.len()], &want[..]);
}

/// Runs a chat over the lines of an input; what is printed.
fn drive(prompt: Option<&str>, input: &str, seq_len: usize, max_tokens: usize) -> String {
    let tok = byte_tokenizer();
    let mut s = Session::new(&tok, prompt.map(|p| p.to_string()), seq_len, max_tokens);
    let mut lines = input.split_inclusive('\n');
    let mut out = String::new();
    let mut event = Event::Started;
    loop {
        let (text, action) = s.try_next(&tok, event).unwrap();
        out.push_str(&text);
        event = match action {
            Action::Stop => return out,
            Action::Ask => match lines.next() {
                Some(line) => Event::Line { text: line.into() },
                None => Event::EndOfInput,
            },
            Action::Generate { max_tokens } => Event::Replied {
                generated: reply(max_tokens, None),
            },
        };
    }
}

#[test]
fn chat_turn_appends_a_well_formed_turn() {
    let tok = byte_tokenizer();
    let assistant_end = tok.special_id("<|assistant_end|>").unwrap();
    for ends_on in [None, Some(assistant_end), Some(tok.bos_id())] {
        let mut ids = vec![tok.bos_id()];

        chat_turn(&tok, &mut ids, "hi", 128, 4, ends_on);
        assert_user_span(&tok, &ids, 1, "hi");
        assert_eq!(ids.last(), Some(&assistant_end));

        let after_first = ids.clone();
        let base = ids.len();
        let out = chat_turn(&tok, &mut ids, "again", 128, 4, ends_on);
        assert!(
            ids.starts_with(&after_first),
            "a turn only ever appends to the history"
        );
        assert_user_span(&tok, &ids, base, "again");
        assert_eq!(ids.last(), Some(&assistant_end));
        assert!(!out.contains("<|assistant_end|>"));
        assert!(!ids[1..].contains(&tok.bos_id()), "no second document start");
    }
}

#[test]
fn chat_turn_refuses_a_turn_that_cannot_fit() {
    let tok = byte_tokenizer();
    let mut ids = vec![tok.bos_id()];
    let printed = chat_turn(&tok, &mut ids, "a question far too long", 16, 2, None);
    assert_eq!(ids, [tok.bos_id()], "a refused turn leaves ids untouched");
    assert!(printed.contains("16-token context"), "got {printed:?}");
    assert!(!printed.contains("Assistant:"));

    chat_turn(&tok, &mut ids, "hi", 16, 2, None);
    assert_user_span(&tok, &ids, 1, "hi");
}

#[test]
fn repl_handles_clear_quit_and_eof() {
    let drive = |input: &str| drive(None, input, 12, 4);

    let uncleared = drive("hi\nhi\nquit\n");
    assert_eq!(uncleared.matches("Assistant:").count(), 1);
    assert_eq!(uncleared.matches("type 'clear'").count(), 1);

    let cleared = drive("hi\nclear\nhi\nquit\n");
    assert_eq!(
        cleared.matches("Assistant:").count(),
        2,
        "clear must reset the history, so the second turn fits again"
    );
    assert!(!cleared.contains("type 'clear'"));
    assert!(cleared.contains("conversation cleared"));

    let eof = drive("hi\n");
    assert!(eof.contains("Goodbye!"), "got {eof:?}");
}

#[test]
fn chat_turn_warns_when_the_budget_truncates_the_reply() {
    let tok = byte_tokenizer();
    let mut ids = vec![tok.bos_id()];
    let printed = chat_turn(&tok, &mut ids, "hi", 12, 8, None);
    assert!(
        printed.contains("only 6 of the 12-token context"),
        "got {printed:?}"
    );
    assert!(printed.contains("Assistant:"));
    assert_user_span(&tok, &ids, 1, "hi");
}

#[test]
fn repl_prompt_mode_runs_exactly_one_turn() {
    let printed = drive(Some("hi"), "", 64, 4);
    assert_eq!(printed.matches("Assistant:").count(), 1);
    assert!(!printed.contains("User:"), "no prompt echo in prompt mode");
    // A prompt that says nothing ends the chat at once.
    assert_eq!(drive(Some("  "), "", 64, 4), "");
    assert_eq!(drive(Some("Quit"), "", 64, 4), "Goodbye!\n");
    assert_eq!(drive(Some("clear"), "", 64, 4), "conversation cleared\n");
}

#[test]
fn chats_print_what_they_always_print() {
    assert_eq!(
        drive(None, "\n  EXIT \n", 64, 4),
        "\nUser: \nUser: Goodbye!\n"
    );
    assert_eq!(
        drive(None, "hi", 64, 4),
        "\nUser: \nAssistant: \n\nUser: \nGoodbye!\n"
    );
}

#[test]
fn chat_config_validate_rejects_one_rule_at_a_time() {
    let rejects = |mutate: fn(&mut ChatConfig), want: ChatConfigError| {
        let mut c = chat_cfg(256);
        mutate(&mut c);
        assert_eq!(c.validate(), Err(want));
    };
    assert_eq!(chat_cfg(256).validate(), Ok(()));
    rejects(|c| c.max_tokens = 0, ChatConfigError::MaxTokens);
    rejects(|c| c.temperature = num(-0.1), ChatConfigError::Temperature);
    rejects(|c| c.temperature = num(f64::NAN), ChatConfigError::Temperature);
    rejects(|c| c.temperature = num(f64::INFINITY), ChatConfigError::Temperature);
    assert_eq!(
        ChatConfigError::MaxTokens.message(),
        "--max-tokens must be >= 1"
    );
    assert_eq!(
        ChatConfigError::Temperature.message(),
        "--temperature must be a finite value >= 0, got "
    );
    let mut zero = chat_cfg(1);
    zero.temperature = num(-0.0);
    assert_eq!(zero.validate(), Ok(()));
}

#[test]
fn commands_are_read_whatever_their_case() {
    assert_eq!(read_command(" QUIT\r\n"), (Command::Quit, "QUIT".to_string()));
    assert_eq!(read_command("exit"), (Command::Quit, "exit".to_string()));
    assert_eq!(read_command("Clear\n"), (Command::Clear, "Clear".to_string()));
    assert_eq!(read_command(" \t\n"), (Command::Nothing, String::new()));
    assert_eq!(
        read_command(" quit it \n"),
        (Command::Say, "quit it".to_string())
    );
}

#[test]
fn a_turn_leaves_room_for_its_reply() {
    let tok = byte_tokenizer();
    let mut ids = vec![tok.bos_id()];
    assert_eq!(
        begin_turn(&tok, &mut ids, "hi", 7, 100),
        Turn::Reply { max_tokens: 1 }
    );
    assert_eq!(ids, [256, 257, 104, 105, 258, 259]);
    finish_turn(&tok, &mut ids, vec![]);
    assert_eq!(ids, [256, 257, 104, 105, 258, 259, 260]);

    let mut ids = vec![tok.bos_id()];
    assert_eq!(begin_turn(&tok, &mut ids, "hi", 6, 100), Turn::Refused);
    assert_eq!(ids, [256]);
    finish_turn(&tok, &mut ids, vec![65, 260, 256]);
    assert_eq!(ids, [256, 65, 260]);
}
