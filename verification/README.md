# rs-nanogpt

A small GPT training and chat stack: tokenizing, packing documents and
conversations into batches, planning and pacing a training run, checkpoints,
sampling and a chat session. The logic is a library verified with Verus. What
talks to the disk, the network, the terminal or the tensors is a program around
it.

## Layout

| Path | Contents |
|---|---|
| `src/tokenizer/` | The byte-pair tokenizer and its vocabulary file, and how a conversation becomes tokens with a mask of those that are scored, and decoding ids as they come. |
| `src/data/` | Pretraining shards: which to fetch, how often to retry, how they split into training and validation, and how their documents are packed into batches. |
| `src/tasks/` | Fine-tuning datasets (SmolTalk, MMLU, GSM8K, identity conversations), their mixture, and the packed epoch with its micro-batches per rank. |
| `src/train/` | Batch geometry, the course of a run and its cadences, learning-rate phases, parameter groups, the memory trace. |
| `src/sft.rs` | A fine-tuning run: its settings, its sources, its epoch. |
| `src/eval/` | Counting tokens and bytes for bits per byte, the sampling loop, the tokenizer report. |
| `src/model/` | The model's configuration, the key-value cache, the chunks of attention. |
| `src/flash_attn.rs` | What an attention kernel is launched with. |
| `src/chat.rs`, `src/checkpoint.rs`, `src/metrics.rs`, `src/cli.rs` | The chat session, the checkpoint's metadata, telemetry records, arguments and processes. |
| `src/text.rs`, `src/order.rs`, `src/seqs.rs`, `src/shuffle.rs`, `src/binary64.rs` | Text, sorting, sequences, seeded shuffles, floating-point values as bits. |
| `app/` | The command-line program: files, downloads, tensors, threads and the terminal. |
| `tests/` | Tests of the library. |

## Conventions

- Each function states in its contract what it returns, as a spec function over
  sequences and integers, and when it fails.
- A public proof function states a property of several functions together. Its
  doc comment says it in words.
- Floating-point values pass through the library as bit patterns, or as the text
  that was written for them. Shares and ratios of counts are computed in integers,
  as the double-precision numbers that they round to. Other arithmetic on floats
  is in `app/`.
- Calls into other crates stand in small functions marked
  `#[verifier::external_body]`. The comment above each says what is believed of
  the call.
- A function that needs a text that the splitting pattern can handle has a
  sibling whose name starts with `try_`, which says when it cannot.
