//! Shards on disk: which files they are, how they split into training and
//! validation, and the order in which their texts are read.
use vstd::prelude::*;

use crate::data::download::{shard_name, shard_names_sort_by_number, MAX_SHARD};
use crate::order::text_no_later;
use crate::tasks::dataset::{is_sorted_listing, sorted_names};
use crate::text::{chars_of, decimal, ends_with, finishes_with, push_decimal, string_views, views};

verus! {

/// Which shards to read.
#[derive(Debug, Clone, Copy, PartialEq, Eq, Structural)]
pub enum Split {
    Train,
    Val,
}

/// Whether a file is a shard: its extension is `parquet`. A name that is
/// nothing but the extension has none.
pub open spec fn is_shard(name: Seq<char>) -> bool {
    finishes_with(name, ".parquet"@) && name.len() > ".parquet"@.len()
}

/// The names that are shards, in the given order.
pub open spec fn shard_names(names: Seq<Seq<char>>) -> Seq<Seq<char>>
    decreases names.len(),
{
    if names.len() == 0 {
        Seq::empty()
    } else {
        let before = shard_names(names.drop_last());
        if is_shard(names.last()) {
            before.push(names.last())
        } else {
            before
        }
    }
}

/// The shards among the names of a directory, sorted.
pub fn list_shards(names: &Vec<String>) -> (out: Vec<String>)
    ensures
        is_sorted_listing(shard_names(string_views(names@)), string_views(out@)),
{
    let ghost all = string_views(names@);
    let tail = chars_of(".parquet");
    let mut kept: Vec<Vec<char>> = Vec::new();
    let mut i: usize = 0;
    assert(all.take(0) =~= Seq::empty());
    assert(views(kept@) =~= Seq::empty());
    while i < names.len()
        invariant
            i <= names@.len(),
            all == string_views(names@),
            tail@ == ".parquet"@,
            views(kept@) == shard_names(all.take(i as int)),
        decreases names@.len() - i,
    {
        let name = chars_of(names[i].as_str());
        let ghost before = views(kept@);
        proof {
            assert(all.take(i + 1).drop_last() =~= all.take(i as int));
            assert(all.take(i + 1).last() == name@);
        }
        if ends_with(name.as_slice(), tail.as_slice()) && name.len() > tail.len() {
            kept.push(name);
            assert(views(kept@) =~= before.push(name@));
        }
        i += 1;
    }
    assert(all.take(i as int) =~= all);
    sorted_names(&kept)
}

/// There are too few shards to split.
#[derive(Debug, Clone, Copy, PartialEq, Eq, Structural)]
pub struct TooFewShards {
    pub found: usize,
}

impl TooFewShards {
    pub open spec fn sentence(self) -> Seq<char> {
        "need at least 2 shards to form train/val splits, found "@ + decimal(self.found as nat)
    }

    pub fn message(&self) -> (s: String)
        ensures
            s@ == self.sentence(),
    {
        let mut s = String::from_str("need at least 2 shards to form train/val splits, found ");
        push_decimal(&mut s, self.found as u64);
        s
    }
}

/// The shards of a split: the last for validation, the others for training.
pub open spec fn split_shards(all: Seq<Seq<char>>, split: Split) -> Seq<Seq<char>> {
    match split {
        Split::Train => all.drop_last(),
        Split::Val => all.skip(all.len() - 1),
    }
}

/// The shards of a split: the last for validation, the others for training.
pub fn shards_for_split(all: &Vec<String>, split: Split) -> (r: Result<Vec<String>, TooFewShards>)
    ensures
        match r {
            Ok(out) => {
                &&& all@.len() >= 2
                &&& string_views(out@) == split_shards(string_views(all@), split)
            },
            Err(e) => all@.len() < 2 && e.found == all@.len(),
        },
{
    if all.len() < 2 {
        return Err(TooFewShards { found: all.len() });
    }
    let (from, to): (usize, usize) = match split {
        Split::Train => (0, all.len() - 1),
        Split::Val => (all.len() - 1, all.len()),
    };
    let mut out: Vec<String> = Vec::new();
    let mut i: usize = from;
    while i < to
        invariant
            from <= i <= to <= all@.len(),
            string_views(out@) == string_views(all@).subrange(from as int, i as int),
        decreases to - i,
    {
        let ghost before = string_views(out@);
        out.push(all[i].clone());
        assert(string_views(out@) =~= before.push(all@[i as int]@));
        assert(string_views(out@) =~= string_views(all@).subrange(from as int, i + 1));
        i += 1;
    }
    assert(string_views(out@) =~= split_shards(string_views(all@), split));
    Ok(out)
}

/// The two splits have no shard in common and leave none out.
pub proof fn splits_partition_the_shards(all: Seq<Seq<char>>)
    requires
        all.len() >= 2,
    ensures
        split_shards(all, Split::Train) + split_shards(all, Split::Val) == all,
{
    assert(split_shards(all, Split::Train) + split_shards(all, Split::Val) =~= all);
}

/// Where the last shard of the dataset is among the shards of a directory, it is
/// the one that is held out for validation, and all others train.
pub proof fn the_last_shard_is_held_out(kept: Seq<Seq<char>>, out: Seq<Seq<char>>)
    requires
        kept.len() <= usize::MAX,
        is_sorted_listing(kept, out),
        kept.contains(shard_name(MAX_SHARD as int)),
        forall|k: int|
            0 <= k < kept.len() ==> exists|i: int|
                0 <= i <= MAX_SHARD && #[trigger] kept[k] == #[trigger] shard_name(i),
    ensures
        split_shards(out, Split::Val) == seq![shard_name(MAX_SHARD as int)],
        out.len() == kept.len(),
{
    let last_name = shard_name(MAX_SHARD as int);
    let order = choose|order: Seq<usize>|
        {
            &&& order.len() == kept.len()
            &&& forall|k: int| 0 <= k < kept.len() ==> (#[trigger] order[k]) < kept.len()
            &&& forall|i: usize| i < kept.len() ==> order.contains(i)
            &&& forall|a: int, b: int|
                0 <= a < b < kept.len() ==> text_no_later(
                    kept[#[trigger] order[a] as int],
                    kept[#[trigger] order[b] as int],
                )
            &&& out == Seq::new(kept.len(), |k: int| kept[order[k] as int])
        };
    let end = kept.len() - 1;
    let at = choose|k: int| 0 <= k < kept.len() && kept[k] == last_name;
    assert(kept.len() > 0);
    assert(order.len() == kept.len());
    let q = order[end] as int;
    let i = choose|i: int| 0 <= i <= MAX_SHARD && kept[q] == #[trigger] shard_name(i);
    if i < MAX_SHARD {
        shard_names_sort_by_number(i, MAX_SHARD as int);
        assert(order.contains(at as usize));
        let p = choose|p: int| 0 <= p < order.len() && order[p] == at as usize;
        assert(p != end);
        assert(text_no_later(kept[order[p] as int], kept[order[end] as int]));
    }
    assert(out.last() == kept[q]);
    assert(split_shards(out, Split::Val) =~= seq![last_name]);
}

// ---------------------------------------------------------------------------
// Reading the texts
// ---------------------------------------------------------------------------

/// What the reader waits for, or has at hand.
#[derive(Debug, Clone, PartialEq, Eq)]
pub enum ReadState {
    NeedFile,
    NeedBatch,
    InBatch { rows: Vec<Option<String>>, row: usize },
    Done,
}

/// What to do next for the reader.
#[derive(Debug, Clone, PartialEq, Eq)]
pub enum ReadAction {
    /// Open the file with this number, and report.
    OpenFile { file: usize },
    /// Read a batch of the open file, and report.
    ReadBatch,
    /// Here is the next text.
    Yield { text: String },
    /// There is nothing more.
    Finish,
}

/// What came of reading a batch.
#[derive(Debug, Clone, PartialEq, Eq)]
pub enum BatchEvent {
    /// The texts of the batch, of which some may be null.
    Rows { rows: Vec<Option<String>> },
    /// The file has no more batches.
    EndOfFile,
    /// The batch could not be read, or has no texts.
    Failed,
}

/// Reads the texts of files in order. It asks for what it needs and is told
/// what came of it; after a failure there is nothing more.
pub struct ShardTextIter {
    pub files: usize,
    pub next_file: usize,
    pub state: ReadState,
}

/// The texts from `from` on, without the nulls.
pub open spec fn texts_from(rows: Seq<Option<String>>, from: int) -> Seq<Seq<char>>
    decreases rows.len() - from,
{
    if from < 0 || from >= rows.len() {
        Seq::empty()
    } else {
        match rows[from] {
            Some(t) => seq![t@] + texts_from(rows, from + 1),
            None => texts_from(rows, from + 1),
        }
    }
}

impl ShardTextIter {
    pub open spec fn wf(self) -> bool {
        self.next_file <= self.files
    }

    /// The texts of the batch at hand that are still to come.
    pub open spec fn at_hand(self) -> Seq<Seq<char>> {
        match self.state {
            ReadState::InBatch { rows, row } => texts_from(rows@, row as int),
            _ => Seq::empty(),
        }
    }

    pub fn new(files: usize) -> (r: ShardTextIter)
        ensures
            r.wf(),
            r.files == files,
            r.next_file == 0,
            r.state is NeedFile,
    {
        ShardTextIter { files, next_file: 0, state: ReadState::NeedFile }
    }

    /// What to do next. A text at hand is handed out; without one, the next
    /// batch is asked for; without an open file, the next file.
    pub fn poll(&mut self) -> (a: ReadAction)
        requires
            old(self).wf(),
        ensures
            final(self).wf(),
            final(self).files == old(self).files,
            match old(self).state {
                ReadState::Done => a is Finish && final(self).state is Done
                    && final(self).next_file == old(self).next_file,
                ReadState::NeedFile => {
                    &&& final(self).state is Done
                    &&& if old(self).next_file < old(self).files {
                        a == (ReadAction::OpenFile { file: old(self).next_file })
                            && final(self).next_file == old(self).next_file + 1
                    } else {
                        a is Finish && final(self).next_file == old(self).next_file
                    }
                },
                ReadState::NeedBatch => a is ReadBatch && final(self).state is Done
                    && final(self).next_file == old(self).next_file,
                ReadState::InBatch { rows, row } => {
                    &&& final(self).next_file == old(self).next_file
                    &&& match a {
                        ReadAction::Yield { text } => {
                            &&& final(self).state is InBatch
                            &&& old(self).at_hand() == seq![text@] + final(self).at_hand()
                        },
                        ReadAction::ReadBatch => {
                            &&& old(self).at_hand().len() == 0
                            &&& final(self).state is Done
                        },
                        _ => false,
                    }
                },
            },
    {
        let mut state = ReadState::Done;
        std::mem::swap(&mut state, &mut self.state);
        match state {
            ReadState::Done => ReadAction::Finish,
            ReadState::NeedFile => {
                if self.next_file < self.files {
                    let file: usize = self.next_file;
                    self.next_file += 1;
                    ReadAction::OpenFile { file }
                } else {
                    ReadAction::Finish
                }
            },
            ReadState::NeedBatch => ReadAction::ReadBatch,
            ReadState::InBatch { rows, row } => {
                let mut i: usize = row;
                while i < rows.len()
                    invariant
                        texts_from(rows@, row as int) == texts_from(rows@, i as int),
                        self.files == old(self).files,
                        self.next_file == old(self).next_file,
                        self.next_file <= self.files,
                        old(self).at_hand() == texts_from(rows@, row as int),
                        old(self).state is InBatch,
                        self.state is Done,
                    decreases rows@.len() - i,
                {
                    if let Some(text) = &rows[i] {
                        let text = text.clone();
                        self.state = ReadState::InBatch { rows, row: i + 1 };
                        return ReadAction::Yield { text };
                    }
                    i += 1;
                }
                ReadAction::ReadBatch
            },
        }
    }

    /// Reports whether the file could be opened.
    pub fn file_opened(&mut self, ok: bool)
        requires
            old(self).wf(),
        ensures
            final(self).wf(),
            final(self).files == old(self).files,
            final(self).next_file == old(self).next_file,
            ok ==> final(self).state is NeedBatch,
            !ok ==> final(self).state is Done,
    {
        self.state = if ok {
            ReadState::NeedBatch
        } else {
            ReadState::Done
        };
    }

    /// Reports what came of reading a batch.
    pub fn batch_read(&mut self, event: BatchEvent)
        requires
            old(self).wf(),
        ensures
            final(self).wf(),
            final(self).files == old(self).files,
            final(self).next_file == old(self).next_file,
            match event {
                BatchEvent::Rows { rows } => {
                    &&& final(self).state is InBatch
                    &&& final(self).at_hand() == texts_from(rows@, 0)
                },
                BatchEvent::EndOfFile => final(self).state is NeedFile,
                BatchEvent::Failed => final(self).state is Done,
            },
    {
        match event {
            BatchEvent::Rows { rows } => {
                self.state = ReadState::InBatch { rows, row: 0 };
            },
            BatchEvent::EndOfFile => {
                self.state = ReadState::NeedFile;
            },
            BatchEvent::Failed => {
                self.state = ReadState::Done;
            },
        }
    }
}


/// The texts of the first `n` batches of a file.
pub open spec fn file_texts(batches: Seq<Vec<Option<String>>>, n: int) -> Seq<Seq<char>>
    decreases n,
{
    if n <= 0 {
        Seq::empty()
    } else {
        file_texts(batches, n - 1) + texts_from(batches[n - 1]@, 0)
    }
}

/// The texts of the first `n` files.
pub open spec fn all_texts(files: Seq<Vec<Vec<Option<String>>>>, n: int) -> Seq<Seq<char>>
    decreases n,
{
    if n <= 0 {
        Seq::empty()
    } else {
        all_texts(files, n - 1) + file_texts(files[n - 1]@, files[n - 1]@.len() as int)
    }
}

/// Copies a batch.
fn copy_rows(rows: &Vec<Option<String>>) -> (out: Vec<Option<String>>)
    ensures
        out@ == rows@,
{
    let mut out: Vec<Option<String>> = Vec::new();
    let mut i: usize = 0;
    while i < rows.len()
        invariant
            i <= rows@.len(),
            out@ == rows@.take(i as int),
        decreases rows@.len() - i,
    {
        match &rows[i] {
            Some(t) => out.push(Some(t.clone())),
            None => out.push(None),
        }
        assert(out@ =~= rows@.take(i + 1));
        i += 1;
    }
    assert(out@ =~= rows@);
    out
}

/// Reads all texts of files whose batches are in memory: every text once, in
/// the order of the files, the batches and the rows, without the nulls.
pub fn read_all(files: &Vec<Vec<Vec<Option<String>>>>) -> (out: Vec<String>)
    ensures
        string_views(out@) == all_texts(files@, files@.len() as int),
{
    let mut reader = ShardTextIter::new(files.len());
    let mut out: Vec<String> = Vec::new();
    let mut batch: usize = 0;
    let mut finished: bool = false;
    assert(string_views(out@) =~= Seq::empty());
    while !finished
        invariant
            reader.wf(),
            reader.files == files@.len(),
            match reader.state {
                ReadState::NeedFile => !finished && string_views(out@) == all_texts(
                    files@,
                    reader.next_file as int,
                ),
                ReadState::NeedBatch | ReadState::InBatch { .. } => {
                    &&& !finished
                    &&& reader.next_file > 0
                    &&& batch <= files@[reader.next_file - 1]@.len()
                    &&& string_views(out@) + reader.at_hand() == all_texts(
                        files@,
                        reader.next_file - 1,
                    ) + file_texts(files@[reader.next_file - 1]@, batch as int)
                },
                ReadState::Done => finished && string_views(out@) == all_texts(
                    files@,
                    files@.len() as int,
                ),
            },
        decreases
                files@.len() - reader.next_file,
                if reader.state is NeedBatch || reader.state is InBatch {
                    files@[reader.next_file - 1]@.len() - batch + 1
                } else {
                    0
                },
                reader.at_hand().len(),
                if finished {
                    0int
                } else {
                    1int
                },
    {
        let ghost before = string_views(out@);
        let ghost hand = reader.at_hand();
        let ghost at = reader.next_file as int;
        match reader.poll() {
            ReadAction::OpenFile { file } => {
                batch = 0;
                reader.file_opened(true);
                proof {
                    assert(string_views(out@) + reader.at_hand() =~= before);
                    assert(all_texts(files@, at) + file_texts(files@[at]@, 0) =~= all_texts(
                        files@,
                        at,
                    ));
                }
            },
            ReadAction::ReadBatch => {
                let file: usize = reader.next_file - 1;
                assert(before + hand =~= before);
                if batch < files[file].len() {
                    let rows = copy_rows(&files[file][batch]);
                    reader.batch_read(BatchEvent::Rows { rows });
                    batch += 1;
                    proof {
                        let done = all_texts(files@, file as int);
                        let so_far = file_texts(files@[file as int]@, batch - 1);
                        let more = texts_from(files@[file as int]@[batch - 1]@, 0);
                        assert(done + so_far + more =~= done + (so_far + more));
                    }
                } else {
                    reader.batch_read(BatchEvent::EndOfFile);
                }
            },
            ReadAction::Yield { text } => {
                out.push(text);
                proof {
                    assert(string_views(out@) =~= before.push(text@));
                    assert(string_views(out@) + reader.at_hand() =~= before + hand);
                }
            },
            ReadAction::Finish => {
                finished = true;
            },
        }
    }
    out
}

} // verus!
