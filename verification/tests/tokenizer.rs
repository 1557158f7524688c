use base64::engine::general_purpose::STANDARD;
use base64::Engine;
use rs_nanogpt::tokenizer::bpe::{BpeTokenizer, LineFault, VocabError};
use rs_nanogpt::tokenizer::chat::{
    ChatError, Content, Conversation, Message, Part, RenderedConversation, Role,
};
use rs_nanogpt::tokenizer::merge::{encode_piece, TokenIndex};
use rs_nanogpt::tokenizer::shared::{
    build_pattern, pre_tokenize, special_token, TokenId, Vocab, NUM_SPECIAL_TOKENS,
};

fn vocab_text(lines: &[&str]) -> String {
    lines.iter().map(|line| format!("{line}\n")).collect()
}

fn byte_lines() -> Vec<String> {
    (0..256u32)
        .map(|i| format!("{} {}", STANDARD.encode([i as u8]), i))
        .collect()
}

/// Thirty-five merges, each of two earlier tokens.
const MERGES: [&[u8]; 35] = [
    b"th", b"he", b"in", b"er", b"an", b"re", b"on", b"at", b"en", b"nd", b"ti", b"es", b"or",
    b"te", b"of", b"ed", b"is", b"it", b"al", b"ar", b"st", b"to", b"nt", b" t", b" a", b"the",
    b"ing", b"and", b" th", b" the", b"ou", b"qu", b"ow", b"ox", b"rd",
];

/// A vocabulary of so many tokens: the bytes, the first merges, and the specials.
fn tiny_vocab(size: usize) -> String {
    let mut lines = byte_lines();
    for (i, m) in MERGES.iter().take(size - 265).enumerate() {
        lines.push(format!("{} {}", STANDARD.encode(m), 256 + i));
    }
    let refs: Vec<&str> = lines.iter().map(|s| s.as_str()).collect();
    vocab_text(&refs)
}

fn tokenizer(size: usize) -> BpeTokenizer {
    BpeTokenizer::from_vocab(&tiny_vocab(size)).unwrap()
}

fn byte_tokenizer() -> BpeTokenizer {
    tokenizer(265)
}

fn error_of(lines: &[&str]) -> VocabError {
    BpeTokenizer::from_vocab(&vocab_text(lines))
        .err()
        .expect("expected an error")
}

// ---------------------------------------------------------------------------
// The vocabulary
// ---------------------------------------------------------------------------

#[test]
fn from_file_loads_trainer_output() {
    let tok = tokenizer(300);
    assert_eq!(tok.bos_id(), 291);
    assert_eq!(tok.vocab_size(), 300);
    for (i, m) in MERGES.iter().enumerate() {
        assert_eq!(tok.bytes_of(256 + i as TokenId), *m);
    }
}

#[test]
fn lines_may_come_in_any_order_and_end_either_way() {
    let mut lines = byte_lines();
    lines.push(format!("{} 256", STANDARD.encode(b"ab")));
    lines.reverse();
    let tok = BpeTokenizer::from_vocab(&lines.join("\r\n")).unwrap();
    assert_eq!(tok.bos_id(), 257);
    assert_eq!(tok.encode("ab"), vec![256]);
}

#[test]
fn token_byte_lengths_zero_for_specials_and_byte_len_otherwise() {
    let tok = tokenizer(300);
    let lens = tok.token_byte_lengths();
    assert_eq!(lens.len(), tok.vocab_size());
    for (id, len) in lens.iter().enumerate().take(256) {
        assert_eq!(*len, 1, "byte token {id} should be 1 byte");
    }
    for (i, bytes) in MERGES.iter().enumerate() {
        assert_eq!(lens[256 + i], bytes.len() as u32);
    }
    let first_special = tok.bos_id() as usize;
    for (offset, len) in lens[first_special..].iter().enumerate() {
        assert_eq!(*len, 0, "special token {} should be 0 bytes", first_special + offset);
    }
}

#[test]
fn from_file_byte_only_vocab() {
    let tok = byte_tokenizer();
    assert_eq!(tok.vocab_size() - NUM_SPECIAL_TOKENS, 256);
    assert_eq!(tok.bos_id(), 256);
}

#[test]
fn special_ids_form_contiguous_top_block() {
    let tok = byte_tokenizer();
    assert_eq!(tok.bos_id(), 256);
    assert_eq!(tok.special_id("<|bos|>"), Some(256));
    assert_eq!(tok.special_id("<|assistant_start|>"), Some(259));
    assert_eq!(tok.special_id("<|output_end|>"), Some(264));
    assert_eq!(tok.special_id("not_a_special"), None);
    assert_eq!(tok.vocab_size(), 265);
    for i in 0..NUM_SPECIAL_TOKENS {
        assert_eq!(tok.special_id(special_token(i)), Some(256 + i as TokenId));
    }
}

#[test]
fn decode_renders_special_tokens() {
    let tok = byte_tokenizer();
    let bos = tok.bos_id();
    assert_eq!(tok.decode(&[bos]), "<|bos|>");
    let (a, b) = (b'a' as TokenId, b'b' as TokenId);
    assert_eq!(tok.decode(&[bos, a, b]), "<|bos|>ab");
}

#[test]
fn encode_does_not_emit_special_ids() {
    let tok = byte_tokenizer();
    let ids = tok.encode("<|bos|>");
    assert!(!ids.contains(&tok.bos_id()));
    assert_eq!(tok.decode(&ids), "<|bos|>");
}

#[test]
fn from_file_rejects_missing_space() {
    let err = error_of(&["abcd1"]);
    assert_eq!(
        err,
        VocabError::Line {
            line_no: 1,
            fault: LineFault::MissingRank,
            detail: "abcd1".to_string()
        }
    );
    assert_eq!(err.message(), "vocab line 1 missing rank: \"abcd1\"");
}

#[test]
fn from_file_rejects_bad_base64() {
    let err = error_of(&["!!!notb64 1"]);
    let reason = STANDARD.decode("!!!notb64").unwrap_err().to_string();
    assert_eq!(
        err,
        VocabError::Line {
            line_no: 1,
            fault: LineFault::BadBase64,
            detail: reason.clone()
        }
    );
    assert_eq!(err.message(), format!("vocab line 1 bad base64: {reason}"));
}

#[test]
fn from_file_rejects_non_numeric_rank() {
    let err = error_of(&["AA== abc"]);
    assert_eq!(
        err,
        VocabError::Line {
            line_no: 1,
            fault: LineFault::BadRank,
            detail: "abc".to_string()
        }
    );
    assert_eq!(err.message(), "vocab line 1 bad rank: ");
    assert!(matches!(
        error_of(&["AA== 0", "AQ== 4294967296"]),
        VocabError::Line { line_no: 2, fault: LineFault::BadRank, .. }
    ));
}

#[test]
fn from_file_rejects_rank_gap() {
    let err = error_of(&["AA== 0", "AQ== 2"]);
    assert_eq!(err, VocabError::NotContiguous { position: 1, rank: 2 });
    assert_eq!(err.message(), "expected rank 1 at position 1, got 2");
}

#[test]
fn from_file_rejects_too_few_entries() {
    let err = error_of(&["AA== 0"]);
    assert_eq!(err, VocabError::TooFewEntries { count: 1 });
    assert_eq!(
        err.message(),
        "vocab must contain at least 256 single-byte entries, got 1"
    );
}

#[test]
fn from_file_rejects_wrong_single_byte() {
    let mut lines = byte_lines();
    lines[0] = format!("{} 0", STANDARD.encode(b"ab"));
    let refs: Vec<&str> = lines.iter().map(|s| s.as_str()).collect();
    let err = error_of(&refs);
    assert_eq!(
        err,
        VocabError::NotSingleByte {
            place: 0,
            bytes: b"ab".to_vec()
        }
    );
    assert_eq!(err.message(), "rank 1 must encode single byte 0x0, got [97, 98]");

    let mut lines = byte_lines();
    lines[0xfe] = format!("{} 254", STANDARD.encode(b"a"));
    let refs: Vec<&str> = lines.iter().map(|s| s.as_str()).collect();
    assert_eq!(
        error_of(&refs).message(),
        "rank 255 must encode single byte 0xfe, got [97]"
    );
}

#[test]
fn a_table_is_looked_up_by_bytes() {
    let mut table: Vec<Vec<u8>> = (0..=255u8).map(|b| vec![b]).collect();
    table.push(b"ab".to_vec());
    table.push(b"ab".to_vec());
    let index = TokenIndex::build(&table);
    assert_eq!(index.get(&table, b"a"), Some(97));
    assert_eq!(index.get(&table, b"ab"), Some(257));
    assert_eq!(index.get(&table, b"ba"), None);
    assert_eq!(encode_piece(&index, &table, b"xab"), vec![120, 257]);
}

#[test]
fn a_vocabulary_grows_by_merges() {
    let mut vocab = Vocab::new();
    assert_eq!(vocab.len(), 256);
    assert_eq!(vocab.push_merge(b"hi".to_vec()), 256);
    assert_eq!(vocab.bytes_of(256), b"hi");
    assert_eq!(vocab.push_merge(b"hi!".to_vec()), 257);
    assert_eq!(vocab.bytes_of(257), b"hi!");
    assert_eq!(vocab.len(), 258);
}

// ---------------------------------------------------------------------------
// Decoding
// ---------------------------------------------------------------------------

#[test]
fn decode_empty() {
    assert_eq!(byte_tokenizer().decode(&[]), "");
}

#[test]
fn decode_single_byte_token() {
    assert_eq!(byte_tokenizer().decode(&[b'a' as TokenId]), "a");
}

#[test]
fn decode_byte_sequence_is_concatenation() {
    let tok = byte_tokenizer();
    let ids: Vec<TokenId> = b"hello".iter().map(|&b| b as TokenId).collect();
    assert_eq!(tok.decode(&ids), "hello");
}

#[test]
fn decode_lossy_replaces_invalid_utf8_without_panicking() {
    let tok = byte_tokenizer();
    assert_eq!(tok.decode_lossy(&[0x80]), "\u{FFFD}");
    assert_eq!(tok.decode_lossy(&[104, 105]), "hi");
}

#[test]
fn decode_merge_token_returns_merged_bytes() {
    let tok = tokenizer(300);
    let expected = String::from_utf8(MERGES[0].to_vec()).unwrap();
    assert_eq!(tok.decode(&[256]), expected);
}

#[test]
fn decoding_goes_id_by_id() {
    let tok = tokenizer(300);
    let a = tok.encode("the \u{4E16}");
    let b = tok.encode("and \u{1F389}");
    let both: Vec<TokenId> = a.iter().chain(&b).copied().collect();
    let mut bytes = tok.decode_bytes(&a);
    bytes.extend(tok.decode_bytes(&b));
    assert_eq!(tok.decode_bytes(&both), bytes);
}

// ---------------------------------------------------------------------------
// Encoding
// ---------------------------------------------------------------------------

#[test]
fn encode_empty() {
    assert_eq!(byte_tokenizer().encode(""), Vec::<TokenId>::new());
}

#[test]
fn encode_single_char_byte_only_vocab() {
    assert_eq!(byte_tokenizer().encode("a"), vec![b'a' as TokenId]);
}

#[test]
fn encode_multi_char_byte_only_vocab_emits_bytes() {
    let expected: Vec<TokenId> = b"hi".iter().map(|&b| b as TokenId).collect();
    assert_eq!(byte_tokenizer().encode("hi"), expected);
}

#[test]
fn encode_uses_two_byte_merge() {
    let mut lines = byte_lines();
    lines.push(format!("{} 256", STANDARD.encode(b"ab")));
    let refs: Vec<&str> = lines.iter().map(|s| s.as_str()).collect();
    let tok = BpeTokenizer::from_vocab(&vocab_text(&refs)).unwrap();
    assert_eq!(tok.encode("ab"), vec![256]);
    assert_eq!(tok.bpe_encode_piece(b"abab"), vec![256, 256]);
}

#[test]
fn the_lowest_pair_merges_first() {
    // "the" is built of "th" (256) and "e"; " the" of " " and "the".
    let tok = tokenizer(300);
    let id = |bytes: &[u8]| 256 + MERGES.iter().position(|m| *m == bytes).unwrap() as TokenId;
    assert_eq!(tok.encode("the"), vec![id(b"the")]);
    // "en" (264) comes before "the" (281).
    assert_eq!(tok.encode("then"), vec![id(b"th"), id(b"en")]);
    assert_eq!(tok.encode("a the"), vec![b'a' as TokenId, id(b" the")]);
    // "her": "he" (257) comes before "er" (259).
    assert_eq!(tok.encode("her"), vec![id(b"he"), b'r' as TokenId]);
}

#[test]
fn texts_split_into_pieces() {
    let regex = build_pattern().unwrap();
    let text = "I'm 12345 \u{4E16}!\n\n x";
    let pieces: Vec<&str> = pre_tokenize(&regex, text)
        .unwrap()
        .into_iter()
        .map(|(a, b)| &text[a..b])
        .collect();
    assert_eq!(
        pieces,
        vec!["I'm", " ", "123", "45", " \u{4E16}", "!\n\n", " x"]
    );
    assert_eq!(pieces.concat(), text);
}

#[test]
fn encoding_that_can_fail_gives_the_same_ids() {
    let tok = tokenizer(300);
    assert!(tok.can_encode("Hello, world!"));
    assert_eq!(
        tok.try_encode("Hello, world!"),
        Some(tok.encode("Hello, world!"))
    );
}

fn assert_round_trip(tok: &BpeTokenizer, text: &str) {
    let ids = tok.encode(text);
    assert_eq!(tok.decode(&ids), text, "round-trip failed for {:?}", text);
}

#[test]
fn round_trip_ascii() {
    let tok = tokenizer(300);
    assert_round_trip(&tok, "Hello, world!");
    assert_round_trip(&tok, "The quick brown fox jumps over the lazy dog.");
}

#[test]
fn round_trip_contractions() {
    assert_round_trip(&tokenizer(300), "I'm don't you're it's");
}

#[test]
fn round_trip_whitespace_and_newlines() {
    assert_round_trip(&tokenizer(300), "  \t\n\r\n  ");
}

#[test]
fn round_trip_cjk() {
    assert_round_trip(&tokenizer(300), "\u{4F60}\u{597D}\u{4E16}\u{754C}");
}

#[test]
fn round_trip_emoji() {
    assert_round_trip(&tokenizer(300), "\u{1F389}\u{1F38A}\u{1F388}");
}

#[test]
fn round_trip_mixed() {
    assert_round_trip(&tokenizer(300), "Hello \u{4E16}\u{754C}! \u{1F389} 123");
}

#[test]
fn round_trip_triggers_parallel_path() {
    let many = 100;
    let text = "word ".repeat(many + 1);
    let regex = build_pattern().unwrap();
    assert!(pre_tokenize(&regex, &text).unwrap().len() >= many);
    assert_round_trip(&tokenizer(300), &text);
}

// ---------------------------------------------------------------------------
// Conversations
// ---------------------------------------------------------------------------

fn user(text: &str) -> Message {
    Message {
        role: Role::User,
        content: Content::Text(text.into()),
    }
}

fn assistant(text: &str) -> Message {
    Message {
        role: Role::Assistant,
        content: Content::Text(text.into()),
    }
}

fn system(text: &str) -> Message {
    Message {
        role: Role::System,
        content: Content::Text(text.into()),
    }
}

fn conv(messages: Vec<Message>) -> Conversation {
    Conversation { messages }
}

fn render(c: &Conversation) -> RenderedConversation {
    byte_tokenizer().render_conversation(c, 10_000).unwrap()
}

fn assert_render_err(c: &Conversation, needle: &str) {
    let err = byte_tokenizer().render_conversation(c, 10_000).unwrap_err();
    let msg = err.message();
    assert!(
        msg.contains(needle),
        "error {msg:?} should contain {needle:?}"
    );
}

#[test]
fn two_message_layout_exact() {
    let r = render(&conv(vec![user("Hi"), assistant("Yo")]));
    assert_eq!(r.ids, [256, 257, 72, 105, 258, 259, 89, 111, 260]);
    assert_eq!(
        r.mask,
        [false, false, false, false, false, false, true, true, true]
    );
}

#[test]
fn parts_render_and_mask() {
    let c = conv(vec![
        user("q"),
        Message {
            role: Role::Assistant,
            content: Content::Parts(vec![
                Part::Text("a".into()),
                Part::Python("b".into()),
                Part::PythonOutput("c".into()),
            ]),
        },
    ]);
    let r = render(&c);
    assert_eq!(
        r.ids,
        [256, 257, 113, 258, 259, 97, 261, 98, 262, 263, 99, 264, 260]
    );
    assert_eq!(
        r.mask,
        [
            false, false, false, false, false, true, true, true, true, false, false, false, true
        ]
    );
}

#[test]
fn multi_turn_mask_pattern() {
    let c = conv(vec![user("a"), assistant("b"), user("c"), assistant("d")]);
    let r = render(&c);
    assert_eq!(
        r.ids,
        [256, 257, 97, 258, 259, 98, 260, 257, 99, 258, 259, 100, 260]
    );
    assert_eq!(
        r.mask,
        [
            false, false, false, false, false, true, true, false, false, false, false, true, true
        ]
    );
}

#[test]
fn system_merge_matches_premerged() {
    let merged = render(&conv(vec![system("S"), user("U"), assistant("A")]));
    let premerged = render(&conv(vec![user("S\n\nU"), assistant("A")]));
    assert_eq!(merged.ids, premerged.ids);
    assert_eq!(merged.mask, premerged.mask);
}

#[test]
fn truncation_caps_both_vectors() {
    let c = conv(vec![user("Hi"), assistant("Yo")]);
    let full = render(&c);
    let cut = byte_tokenizer().render_conversation(&c, 4).unwrap();
    assert_eq!(cut.ids.len(), 4);
    assert_eq!(cut.mask.len(), 4);
    assert_eq!(cut.ids[..], full.ids[..4]);
    assert_eq!(cut.mask[..], full.mask[..4]);
}

#[test]
fn ends_on_user_renders_all_unmasked() {
    let r = render(&conv(vec![user("Hi")]));
    assert_eq!(r.ids, [256, 257, 72, 105, 258]);
    assert!(r.mask.iter().all(|&m| !m));
}

#[test]
fn push_user_turn_matches_render_conversation() {
    let tok = byte_tokenizer();
    let assistant_start = tok.special_id("<|assistant_start|>").unwrap();

    let mut ids = vec![tok.bos_id()];
    tok.push_user_turn(&mut ids, "Hi");
    let mut want = render(&conv(vec![user("Hi")])).ids;
    want.push(assistant_start);
    assert_eq!(ids, want);

    ids.extend(tok.encode("Yo"));
    ids.push(tok.special_id("<|assistant_end|>").unwrap());
    assert!(tok.try_push_user_turn(&mut ids, "Bye"));
    let mut want = render(&conv(vec![user("Hi"), assistant("Yo"), user("Bye")])).ids;
    want.push(assistant_start);
    assert_eq!(ids, want);
}

#[test]
fn assistant_stop_ids_are_assistant_end_and_bos() {
    assert_eq!(byte_tokenizer().assistant_stop_ids(), [260, 256]);
}

#[test]
fn decode_round_trip() {
    let tok = byte_tokenizer();
    let r = tok
        .render_conversation(&conv(vec![user("Hi"), assistant("Yo")]), 10_000)
        .unwrap();
    assert_eq!(
        tok.decode(&r.ids),
        "<|bos|><|user_start|>Hi<|user_end|><|assistant_start|>Yo<|assistant_end|>"
    );
}

#[test]
fn rendering_that_can_fail_gives_the_same_rendering() {
    let tok = byte_tokenizer();
    let c = conv(vec![user("Hi"), assistant("Yo")]);
    assert!(tok.can_render(&c));
    assert_eq!(
        tok.try_render_conversation(&c, 5),
        Some(tok.render_conversation(&c, 5))
    );
    assert_eq!(
        tok.try_render_conversation(&conv(vec![]), 5),
        Some(Err(ChatError::NoMessages))
    );
}

#[test]
fn empty_conversation_errors() {
    assert_render_err(&conv(vec![]), "no messages");
}

#[test]
fn assistant_first_errors() {
    assert_render_err(
        &conv(vec![assistant("A")]),
        "message 0: expected user, got assistant",
    );
}

#[test]
fn user_after_user_errors() {
    assert_render_err(
        &conv(vec![user("a"), user("b")]),
        "message 1: expected assistant, got user",
    );
}

#[test]
fn mid_conversation_system_errors() {
    assert_render_err(
        &conv(vec![user("a"), system("S")]),
        "message 1: expected assistant, got system",
    );
}

#[test]
fn system_not_followed_by_user_errors() {
    let needle = "system message must be followed by a user message";
    assert_render_err(&conv(vec![system("S")]), needle);
    assert_render_err(&conv(vec![system("S"), assistant("A")]), needle);
}

#[test]
fn user_with_parts_errors() {
    let c = conv(vec![Message {
        role: Role::User,
        content: Content::Parts(vec![Part::Text("x".into())]),
    }]);
    assert_render_err(&c, "message 0: user message content must be text");
}

#[test]
fn system_or_merged_user_with_parts_errors() {
    let parts = Content::Parts(vec![Part::Text("x".into())]);
    let c = conv(vec![
        Message {
            role: Role::System,
            content: parts.clone(),
        },
        user("u"),
    ]);
    assert_render_err(&c, "system message content must be text");

    let c = conv(vec![
        system("S"),
        Message {
            role: Role::User,
            content: parts,
        },
    ]);
    assert_render_err(&c, "message 1: user message content must be text");
}

// ---------------------------------------------------------------------------
// Ids as they come
// ---------------------------------------------------------------------------

fn streamed(tok: &BpeTokenizer, bytes: &[u8]) -> String {
    let mut decoder = tok.decode_stream();
    let mut out = String::new();
    for &b in bytes {
        out.push_str(&decoder.push(tok, b as TokenId));
        assert!(decoder.pending.len() <= 3);
    }
    out.push_str(&decoder.finish());
    out
}

#[test]
fn a_character_is_shown_once_it_is_whole() {
    let tok = tokenizer(265);
    let mut decoder = tok.decode_stream();
    assert_eq!(decoder.push(&tok, 0xe2), "");
    assert_eq!(decoder.push(&tok, 0x82), "");
    assert_eq!(decoder.push(&tok, 0xac), "€");
    assert_eq!(decoder.push(&tok, 0xf0), "");
    assert_eq!(decoder.push(&tok, b'a' as TokenId), "\u{FFFD}a");
    assert_eq!(decoder.push(&tok, 0x80), "\u{FFFD}");
    assert_eq!(decoder.push(&tok, 0xc3), "");
    assert_eq!(decoder.finish(), "\u{FFFD}");
    let mut special = tok.decode_stream();
    assert_eq!(special.push(&tok, tok.bos_id()), special_token(0));
    assert_eq!(special.finish(), "");
}

#[test]
fn bytes_show_what_lossy_decoding_shows() {
    let tok = tokenizer(265);
    let marks: [u8; 18] = [
        0x41, 0x7f, 0x80, 0x8f, 0x90, 0x9f, 0xa0, 0xbf, 0xc1, 0xc2, 0xdf, 0xe0, 0xe1, 0xed, 0xf0,
        0xf1, 0xf4, 0xf5,
    ];
    for n in 0..18usize.pow(4) {
        let bytes: Vec<u8> = (0..4).map(|k| marks[n / 18usize.pow(k) % 18]).collect();
        let ids: Vec<TokenId> = bytes.iter().map(|&b| b as TokenId).collect();
        let text = streamed(&tok, &bytes);
        assert_eq!(text, String::from_utf8_lossy(&bytes), "{bytes:x?}");
        assert_eq!(text, tok.decode_lossy(&ids), "{bytes:x?}");
    }
    for c in ['a', 'é', '€', '한', '😀', '\u{d7ff}', '\u{e000}', '\u{10ffff}'] {
        let text = c.to_string();
        assert_eq!(streamed(&tok, text.as_bytes()), text);
    }
    assert_eq!(streamed(&tok, b""), "");
}
