//! What to download, under which names, and when to try again.
use vstd::prelude::*;
use vstd::slice::slice_subrange;

use crate::order::{lemma_text_first_difference, text_no_later};
use crate::text::{chars_of, decimal, digit_char, push_zero_padded, string_of, zero_padded};

verus! {

/// Where the pretraining shards are.
pub const BASE_URL: &'static str =
    "https://huggingface.co/datasets/karpathy/climbmix-400b-shuffle/resolve/main";

/// The highest shard index.
pub const MAX_SHARD: usize = 6542;

/// One file to fetch, and the name to save it under.
#[derive(Debug, Clone, PartialEq, Eq)]
pub struct FileJob {
    pub url: String,
    pub filename: String,
}

impl FileJob {
    pub open spec fn view(self) -> (Seq<char>, Seq<char>) {
        (self.url@, self.filename@)
    }
}

/// The jobs as pairs of texts.
pub open spec fn job_views(jobs: Seq<FileJob>) -> Seq<(Seq<char>, Seq<char>)> {
    Seq::new(jobs.len(), |i: int| jobs[i]@)
}

/// The file name of a shard.
pub open spec fn shard_name(index: int) -> Seq<char> {
    "shard_"@ + zero_padded(index as nat, 5) + ".parquet"@
}

/// The file name of a shard.
pub fn shard_filename(index: usize) -> (s: String)
    ensures
        s@ == shard_name(index as int),
{
    let mut s = String::from_str("shard_");
    push_zero_padded(&mut s, index as u64, 5);
    s.append(".parquet");
    s
}

/// One of the five digits of a number below a hundred thousand.
spec fn digit_at(n: int, k: int) -> int {
    if k == 0 {
        n / 10_000
    } else if k == 1 {
        n / 1_000 % 10
    } else if k == 2 {
        n / 100 % 10
    } else if k == 3 {
        n / 10 % 10
    } else {
        n % 10
    }
}

proof fn lemma_five_digits(n: int)
    requires
        0 <= n < 100_000,
    ensures
        zero_padded(n as nat, 5).len() == 5,
        forall|k: int|
            0 <= k < 5 ==> #[trigger] zero_padded(n as nat, 5)[k] == digit_char(
                digit_at(n, k) as nat,
            ),
{
    reveal_with_fuel(decimal, 6);
    let want = Seq::new(5, |k: int| digit_char(digit_at(n, k) as nat));
    assert(digit_char(0) == '0');
    assert(n / 10 / 10 == n / 100);
    assert(n / 100 / 10 == n / 1_000);
    assert(n / 1_000 / 10 == n / 10_000);
    assert(zero_padded(n as nat, 5) =~= want);
}

proof fn lemma_digits_sum(n: int)
    requires
        0 <= n < 100_000,
    ensures
        n == 10_000 * digit_at(n, 0) + 1_000 * digit_at(n, 1) + 100 * digit_at(n, 2) + 10
            * digit_at(n, 3) + digit_at(n, 4),
        forall|k: int| 0 <= k < 5 ==> 0 <= #[trigger] digit_at(n, k) < 10,
{
    assert(n / 10 / 10 == n / 100);
    assert(n / 100 / 10 == n / 1_000);
    assert(n / 1_000 / 10 == n / 10_000);
}

/// The place at which two numbers first differ.
proof fn lemma_first_digit(i: int, j: int) -> (k: int)
    requires
        0 <= i < j < 100_000,
    ensures
        0 <= k < 5,
        0 <= digit_at(i, k) < digit_at(j, k) < 10,
        forall|m: int| 0 <= m < k ==> #[trigger] digit_at(i, m) == digit_at(j, m),
{
    lemma_digits_sum(i);
    lemma_digits_sum(j);
    if digit_at(i, 0) != digit_at(j, 0) {
        0
    } else if digit_at(i, 1) != digit_at(j, 1) {
        1
    } else if digit_at(i, 2) != digit_at(j, 2) {
        2
    } else if digit_at(i, 3) != digit_at(j, 3) {
        3
    } else {
        4
    }
}

/// The names of the shards sort as their numbers do.
pub proof fn shard_names_sort_by_number(i: int, j: int)
    requires
        0 <= i < j < 100_000,
    ensures
        text_no_later(shard_name(i), shard_name(j)),
        !text_no_later(shard_name(j), shard_name(i)),
{
    reveal_strlit("shard_");
    lemma_five_digits(i);
    lemma_five_digits(j);
    let (a, b) = (zero_padded(i as nat, 5), zero_padded(j as nat, 5));
    let (x, y) = (shard_name(i), shard_name(j));
    let head = "shard_"@;
    let k = lemma_first_digit(i, j);
    assert(a[k] < b[k]);
    assert forall|m: int| 0 <= m < 6 + k implies x[m] == y[m] by {
        if m >= 6 {
            assert(digit_at(i, m - 6) == digit_at(j, m - 6));
            assert(x[m] == a[m - 6]);
            assert(y[m] == b[m - 6]);
        } else {
            assert(x[m] == head[m]);
            assert(y[m] == head[m]);
        }
    }
    assert(x[6 + k] == a[k]);
    assert(y[6 + k] == b[k]);
    lemma_text_first_difference(x, y, 6 + k);
}

/// The shards of a range, and the validation shard unless it is one of them.
pub open spec fn wanted_shards(start: int, num: int, val_shard: Option<usize>) -> Seq<usize> {
    let range = Seq::new(num as nat, |i: int| (start + i) as usize);
    match val_shard {
        Some(v) => if start <= v < start + num {
            range
        } else {
            range.push(v)
        },
        None => range,
    }
}

/// The shards of a range, and the validation shard unless it is one of them.
pub fn shard_indices(start: usize, num: usize, val_shard: Option<usize>) -> (out: Vec<usize>)
    requires
        start + num <= usize::MAX,
    ensures
        out@ == wanted_shards(start as int, num as int, val_shard),
{
    let mut out: Vec<usize> = Vec::new();
    let mut i: usize = 0;
    while i < num
        invariant
            i <= num,
            start + num <= usize::MAX,
            out@ == Seq::new(i as nat, |k: int| (start + k) as usize),
        decreases num - i,
    {
        out.push(start + i);
        i += 1;
        assert(out@ =~= Seq::new(i as nat, |k: int| (start + k) as usize));
    }
    if let Some(v) = val_shard {
        if !(start <= v && v < start + num) {
            out.push(v);
        }
    }
    out
}

/// No shard is fetched twice.
pub proof fn wanted_shards_are_distinct(start: int, num: int, val_shard: Option<usize>)
    requires
        0 <= start,
        0 <= num,
        start + num <= usize::MAX,
    ensures
        wanted_shards(start, num, val_shard).no_duplicates(),
{
}

/// No two shards are saved under one name.
pub proof fn wanted_names_are_distinct(start: int, num: int, val_shard: Option<usize>)
    requires
        0 <= start,
        0 <= num,
        start + num <= MAX_SHARD + 1,
        val_shard is Some ==> val_shard->0 <= MAX_SHARD,
    ensures
        wanted_shards(start, num, val_shard).map_values(
            |i: usize| shard_name(i as int),
        ).no_duplicates(),
{
    let wanted = wanted_shards(start, num, val_shard);
    let names = wanted.map_values(|i: usize| shard_name(i as int));
    wanted_shards_are_distinct(start, num, val_shard);
    assert forall|a: int, b: int| 0 <= a < b < names.len() implies names[a] != names[b] by {
        let (i, j) = (wanted[a] as int, wanted[b] as int);
        if i < j {
            shard_names_sort_by_number(i, j);
        } else {
            shard_names_sort_by_number(j, i);
        }
    }
}

/// A text without the slashes at its end.
pub open spec fn without_slashes(s: Seq<char>) -> Seq<char>
    decreases s.len(),
{
    if s.len() > 0 && s.last() == '/' {
        without_slashes(s.drop_last())
    } else {
        s
    }
}

/// A text without the slashes at its end.
fn trim_slashes(s: &str) -> (out: String)
    ensures
        out@ == without_slashes(s@),
{
    let chars = chars_of(s);
    let mut n: usize = chars.len();
    assert(chars@.take(n as int) =~= chars@);
    while n > 0 && chars[n - 1] == '/'
        invariant
            n <= chars@.len(),
            without_slashes(s@) == without_slashes(chars@.take(n as int)),
        decreases n,
    {
        assert(chars@.take(n as int).drop_last() =~= chars@.take(n - 1));
        n -= 1;
    }
    let head = slice_subrange(chars.as_slice(), 0, n);
    assert(head@ =~= chars@.take(n as int));
    string_of(head)
}

/// The job of one shard.
pub open spec fn shard_job(base: Seq<char>, index: usize) -> (Seq<char>, Seq<char>) {
    (without_slashes(base) + "/"@ + shard_name(index as int), shard_name(index as int))
}

/// The jobs of a range of shards and the validation shard.
pub fn shard_jobs(
    start: usize,
    num: usize,
    val_shard: Option<usize>,
    base_url: &str,
) -> (jobs: Vec<FileJob>)
    requires
        start + num <= usize::MAX,
    ensures
        job_views(jobs@) == wanted_shards(start as int, num as int, val_shard).map_values(
            |i: usize| shard_job(base_url@, i),
        ),
{
    let indices = shard_indices(start, num, val_shard);
    let base = trim_slashes(base_url);
    let mut jobs: Vec<FileJob> = Vec::new();
    let ghost want = indices@.map_values(|i: usize| shard_job(base_url@, i));
    let mut k: usize = 0;
    assert(job_views(jobs@) =~= want.take(0));
    while k < indices.len()
        invariant
            k <= indices@.len(),
            base@ == without_slashes(base_url@),
            want == indices@.map_values(|i: usize| shard_job(base_url@, i)),
            job_views(jobs@) == want.take(k as int),
        decreases indices@.len() - k,
    {
        let ghost before = job_views(jobs@);
        let filename = shard_filename(indices[k]);
        let mut url = String::from_str(base.as_str());
        url.append("/");
        url.append(filename.as_str());
        jobs.push(FileJob { url, filename });
        assert(job_views(jobs@) =~= before.push(shard_job(base_url@, indices@[k as int])));
        assert(job_views(jobs@) =~= want.take(k + 1));
        k += 1;
    }
    assert(want.take(k as int) =~= want);
    jobs
}

// ---------------------------------------------------------------------------
// One file
// ---------------------------------------------------------------------------

/// How often to try, and how long to wait: after attempt `n` the base is
/// doubled `n` times.
#[derive(Debug, Clone, Copy, PartialEq, Eq, Structural)]
pub struct RetryPolicy {
    pub max_attempts: u32,
    pub backoff_base_secs: u64,
}

impl Default for RetryPolicy {
    fn default() -> (r: RetryPolicy)
        ensures
            r.max_attempts == 5,
            r.backoff_base_secs == 1,
    {
        RetryPolicy { max_attempts: 5, backoff_base_secs: 1 }
    }
}

/// What became of a file.
#[derive(Debug, Clone, Copy, PartialEq, Eq, Structural)]
pub enum Outcome {
    Downloaded,
    Skipped,
    Failed,
}

/// What to do next for a file.
#[derive(Debug, Clone, Copy, PartialEq, Eq, Structural)]
pub enum Step {
    /// Try to fetch it, for the given time counted from one.
    Attempt { attempt: u32 },
    /// Wait, then try again.
    Retry { attempt: u32, wait_secs: u64 },
    /// It is settled.
    Settled { outcome: Outcome },
}

/// Two to the power of `n`.
pub open spec fn doubled(n: nat) -> nat
    decreases n,
{
    if n == 0 {
        1
    } else {
        2 * doubled((n - 1) as nat)
    }
}

/// What comes first: nothing, if the file is there; else an attempt, if there
/// are any.
pub open spec fn at_first(policy: RetryPolicy, present: bool) -> Step {
    if present {
        Step::Settled { outcome: Outcome::Skipped }
    } else if policy.max_attempts == 0 {
        Step::Settled { outcome: Outcome::Failed }
    } else {
        Step::Attempt { attempt: 1 }
    }
}

/// What to do first.
pub fn first_step(policy: &RetryPolicy, present: bool) -> (s: Step)
    ensures
        s == at_first(*policy, present),
{
    if present {
        Step::Settled { outcome: Outcome::Skipped }
    } else if policy.max_attempts == 0 {
        Step::Settled { outcome: Outcome::Failed }
    } else {
        Step::Attempt { attempt: 1 }
    }
}

/// What follows an attempt: nothing more if it went well; else another one after
/// a wait, twice as long each time, for as long as there are attempts left.
pub open spec fn after_attempt(policy: RetryPolicy, attempt: u32, ok: bool) -> Step {
    if ok {
        Step::Settled { outcome: Outcome::Downloaded }
    } else if attempt < policy.max_attempts {
        Step::Retry {
            attempt: (attempt + 1) as u32,
            wait_secs: (policy.backoff_base_secs * doubled(attempt as nat)) as u64,
        }
    } else {
        Step::Settled { outcome: Outcome::Failed }
    }
}

/// What to do after an attempt.
pub fn next_step(policy: &RetryPolicy, attempt: u32, ok: bool) -> (s: Step)
    requires
        !ok && attempt < policy.max_attempts ==> {
            &&& attempt < 32
            &&& policy.backoff_base_secs * doubled(attempt as nat) <= u64::MAX
        },
    ensures
        s == after_attempt(*policy, attempt, ok),
{
    if ok {
        return Step::Settled { outcome: Outcome::Downloaded };
    }
    if attempt >= policy.max_attempts {
        return Step::Settled { outcome: Outcome::Failed };
    }
    let mut wait: u64 = policy.backoff_base_secs;
    let mut i: u32 = 0;
    assert(policy.backoff_base_secs * doubled(0) == policy.backoff_base_secs) by (nonlinear_arith)
        requires
            doubled(0) == 1,
    ;
    while i < attempt
        invariant
            i <= attempt,
            wait == policy.backoff_base_secs * doubled(i as nat),
            policy.backoff_base_secs * doubled(attempt as nat) <= u64::MAX,
        decreases attempt - i,
    {
        proof {
            lemma_doubled_grows((i + 1) as nat, attempt as nat);
            let b = policy.backoff_base_secs as int;
            let x = doubled((i + 1) as nat) as int;
            let y = doubled(attempt as nat) as int;
            assert(b * x <= b * y) by (nonlinear_arith)
                requires
                    x <= y,
                    b >= 0,
            ;
            assert(doubled((i + 1) as nat) == 2 * doubled(i as nat));
            let z = doubled(i as nat) as int;
            assert(b * (2 * z) == 2 * (b * z)) by (nonlinear_arith);
        }
        wait = wait * 2;
        i += 1;
    }
    Step::Retry { attempt: attempt + 1, wait_secs: wait }
}

proof fn lemma_doubled_grows(m: nat, n: nat)
    requires
        m <= n,
    ensures
        doubled(m) <= doubled(n),
    decreases n - m,
{
    if m < n {
        lemma_doubled_grows(m, (n - 1) as nat);
    }
}

/// The last attempt, and the seconds waited up to it, where every attempt from
/// `attempt` on fails.
pub open spec fn given_up(policy: RetryPolicy, attempt: u32) -> (u32, int)
    decreases policy.max_attempts - attempt,
{
    match after_attempt(policy, attempt, false) {
        Step::Retry { attempt: next, wait_secs } => if attempt < policy.max_attempts {
            let rest = given_up(policy, next);
            (rest.0, wait_secs + rest.1)
        } else {
            (attempt, 0)
        },
        _ => (attempt, 0),
    }
}

/// A file that cannot be fetched is given up after as many attempts as the
/// policy allows. The waits between them double, and add up to the base times
/// two to the power of the attempts, less what came before the first of them.
pub proof fn failures_end(policy: RetryPolicy, attempt: u32)
    requires
        1 <= attempt <= policy.max_attempts,
        policy.backoff_base_secs * doubled((policy.max_attempts - 1) as nat) <= u64::MAX,
    ensures
        given_up(policy, attempt).0 == policy.max_attempts,
        given_up(policy, attempt).1 == policy.backoff_base_secs * (doubled(
            policy.max_attempts as nat,
        ) - doubled(attempt as nat)),
    decreases policy.max_attempts - attempt,
{
    let b = policy.backoff_base_secs as int;
    let all = doubled(policy.max_attempts as nat) as int;
    let now = doubled(attempt as nat) as int;
    if attempt < policy.max_attempts {
        failures_end(policy, (attempt + 1) as u32);
        lemma_doubled_grows(attempt as nat, (policy.max_attempts - 1) as nat);
        let most = doubled((policy.max_attempts - 1) as nat) as int;
        assert(0 <= b * now <= b * most) by (nonlinear_arith)
            requires
                0 <= now <= most,
                b >= 0,
        ;
        assert(doubled((attempt + 1) as nat) == 2 * now);
        assert(b * now + b * (all - 2 * now) == b * (all - now)) by (nonlinear_arith);
    } else {
        assert(b * 0 == 0);
    }
}

/// The name of the file that a download is written to before it is complete.
pub fn partial_name(filename: &str) -> (s: String)
    ensures
        s@ == filename@ + ".tmp"@,
{
    let mut s = String::from_str(filename);
    s.append(".tmp");
    s
}

// ---------------------------------------------------------------------------
// All files
// ---------------------------------------------------------------------------

/// What became of all files.
#[derive(Debug, Clone, Copy, PartialEq, Eq, Structural)]
pub struct Summary {
    pub requested: usize,
    pub downloaded: usize,
    pub skipped: usize,
    pub failed: usize,
}

/// How many files came to `what`.
pub open spec fn count_outcomes(outcomes: Seq<Outcome>, what: Outcome) -> nat
    decreases outcomes.len(),
{
    if outcomes.len() == 0 {
        0
    } else {
        count_outcomes(outcomes.drop_last(), what) + if outcomes.last() == what {
            1nat
        } else {
            0
        }
    }
}

impl Summary {
    /// Whether this is the summary of the outcomes.
    pub open spec fn sums_up(self, outcomes: Seq<Outcome>) -> bool {
        &&& self.requested == outcomes.len()
        &&& self.downloaded == count_outcomes(outcomes, Outcome::Downloaded)
        &&& self.skipped == count_outcomes(outcomes, Outcome::Skipped)
        &&& self.failed == count_outcomes(outcomes, Outcome::Failed)
    }
}

/// Counts what became of all files.
pub fn summarize(outcomes: &Vec<Outcome>) -> (s: Summary)
    ensures
        s.sums_up(outcomes@),
        s.downloaded + s.skipped + s.failed == s.requested,
{
    let mut s = Summary { requested: outcomes.len(), downloaded: 0, skipped: 0, failed: 0 };
    let mut i: usize = 0;
    assert(outcomes@.take(0) =~= Seq::empty());
    while i < outcomes.len()
        invariant
            i <= outcomes@.len(),
            s.requested == outcomes@.len(),
            s.downloaded == count_outcomes(outcomes@.take(i as int), Outcome::Downloaded),
            s.skipped == count_outcomes(outcomes@.take(i as int), Outcome::Skipped),
            s.failed == count_outcomes(outcomes@.take(i as int), Outcome::Failed),
            s.downloaded + s.skipped + s.failed == i,
        decreases outcomes@.len() - i,
    {
        assert(outcomes@.take(i + 1).drop_last() =~= outcomes@.take(i as int));
        assert(outcomes@.take(i + 1).last() == outcomes@[i as int]);
        match outcomes[i] {
            Outcome::Downloaded => {
                s.downloaded += 1;
            },
            Outcome::Skipped => {
                s.skipped += 1;
            },
            Outcome::Failed => {
                s.failed += 1;
            },
        }
        i += 1;
    }
    assert(outcomes@.take(i as int) =~= outcomes@);
    s
}

// ---------------------------------------------------------------------------
// Two runs
// ---------------------------------------------------------------------------

/// What becomes of a file from an attempt on, where `fetched` says which of the
/// attempts go well.
pub open spec fn settled(
    policy: RetryPolicy,
    attempt: u32,
    fetched: spec_fn(u32) -> bool,
) -> Outcome
    decreases policy.max_attempts - attempt,
{
    match after_attempt(policy, attempt, fetched(attempt)) {
        Step::Settled { outcome } => outcome,
        Step::Retry { attempt: next, .. } => if attempt < policy.max_attempts {
            settled(policy, next, fetched)
        } else {
            Outcome::Failed
        },
        Step::Attempt { .. } => Outcome::Failed,
    }
}

/// What becomes of a file that is there, or that is tried for.
pub open spec fn outcome_of(
    policy: RetryPolicy,
    present: bool,
    fetched: spec_fn(u32) -> bool,
) -> Outcome {
    match at_first(policy, present) {
        Step::Settled { outcome } => outcome,
        Step::Attempt { attempt } => settled(policy, attempt, fetched),
        Step::Retry { attempt, .. } => settled(policy, attempt, fetched),
    }
}

/// What becomes of the files of the given names, where `there` says which files
/// are there before, and `fetched` which attempts for each go well.
pub open spec fn outcomes_of(
    policy: RetryPolicy,
    names: Seq<Seq<char>>,
    there: spec_fn(Seq<char>) -> bool,
    fetched: spec_fn(Seq<char>, u32) -> bool,
) -> Seq<Outcome> {
    Seq::new(
        names.len(),
        |i: int| outcome_of(policy, there(names[i]), |attempt: u32| fetched(names[i], attempt)),
    )
}

/// Which files are there after a run: those that were, and those that were
/// downloaded.
pub open spec fn there_after(
    names: Seq<Seq<char>>,
    there: spec_fn(Seq<char>) -> bool,
    outcomes: Seq<Outcome>,
) -> spec_fn(Seq<char>) -> bool {
    |name: Seq<char>|
        there(name) || exists|i: int|
            0 <= i < names.len() && #[trigger] names[i] == name && outcomes[i]
                == Outcome::Downloaded
}

proof fn lemma_tried_is_not_skipped(
    policy: RetryPolicy,
    attempt: u32,
    fetched: spec_fn(u32) -> bool,
)
    ensures
        settled(policy, attempt, fetched) != Outcome::Skipped,
    decreases policy.max_attempts - attempt,
{
    if !fetched(attempt) && attempt < policy.max_attempts {
        lemma_tried_is_not_skipped(policy, (attempt + 1) as u32, fetched);
    }
}

proof fn lemma_skips_add_up(first: Seq<Outcome>, second: Seq<Outcome>)
    requires
        first.len() == second.len(),
        forall|i: int|
            0 <= i < first.len() ==> ((#[trigger] second[i]) == Outcome::Skipped <==> first[i]
                != Outcome::Failed),
    ensures
        count_outcomes(second, Outcome::Skipped) == count_outcomes(first, Outcome::Downloaded)
            + count_outcomes(first, Outcome::Skipped),
        count_outcomes(second, Outcome::Downloaded) + count_outcomes(second, Outcome::Failed)
            == count_outcomes(first, Outcome::Failed),
    decreases first.len(),
{
    if first.len() > 0 {
        let (a, b) = (first.drop_last(), second.drop_last());
        assert forall|i: int| 0 <= i < a.len() implies ((#[trigger] b[i]) == Outcome::Skipped
            <==> a[i] != Outcome::Failed) by {
            assert(second[i] == b[i]);
        }
        lemma_skips_add_up(a, b);
        assert(second[first.len() - 1] == second.last());
    }
}

/// A rerun resumes: with the files there that were there or were downloaded, the
/// second run skips exactly what the first downloaded or skipped, and tries again
/// only for what the first failed to fetch.
pub proof fn reruns_resume(
    policy: RetryPolicy,
    names: Seq<Seq<char>>,
    there: spec_fn(Seq<char>) -> bool,
    fetched: spec_fn(Seq<char>, u32) -> bool,
    fetched_again: spec_fn(Seq<char>, u32) -> bool,
    s1: Summary,
    s2: Summary,
)
    requires
        names.no_duplicates(),
        s1.sums_up(outcomes_of(policy, names, there, fetched)),
        s2.sums_up(
            outcomes_of(
                policy,
                names,
                there_after(names, there, outcomes_of(policy, names, there, fetched)),
                fetched_again,
            ),
        ),
    ensures
        ({
            let first = outcomes_of(policy, names, there, fetched);
            let second = outcomes_of(
                policy,
                names,
                there_after(names, there, first),
                fetched_again,
            );
            forall|i: int|
                0 <= i < names.len() ==> ((#[trigger] second[i]) == Outcome::Skipped <==> first[i]
                    == Outcome::Downloaded || first[i] == Outcome::Skipped)
        }),
        s1.requested == names.len(),
        s2.requested == names.len(),
        s1.downloaded + s1.skipped + s1.failed == s1.requested,
        s2.downloaded + s2.skipped + s2.failed == s2.requested,
        s2.skipped == s1.downloaded + s1.skipped,
{
    let first = outcomes_of(policy, names, there, fetched);
    let after = there_after(names, there, first);
    let second = outcomes_of(policy, names, after, fetched_again);
    assert forall|i: int| 0 <= i < names.len() implies ((#[trigger] second[i]) == Outcome::Skipped
        <==> first[i] != Outcome::Failed) by {
        let name = names[i];
        lemma_tried_is_not_skipped(policy, 1, |attempt: u32| fetched(name, attempt));
        lemma_tried_is_not_skipped(policy, 1, |attempt: u32| fetched_again(name, attempt));
        assert(second[i] == Outcome::Skipped <==> after(name));
        if first[i] == Outcome::Downloaded {
            assert(names[i] == name);
        }
        if after(name) && !there(name) {
            let j = choose|j: int|
                0 <= j < names.len() && #[trigger] names[j] == name && first[j]
                    == Outcome::Downloaded;
            assert(j == i);
        }
    }
    lemma_skips_add_up(first, second);
    lemma_outcomes_add_up(first);
    lemma_outcomes_add_up(second);
}

proof fn lemma_outcomes_add_up(outcomes: Seq<Outcome>)
    ensures
        count_outcomes(outcomes, Outcome::Downloaded) + count_outcomes(outcomes, Outcome::Skipped)
            + count_outcomes(outcomes, Outcome::Failed) == outcomes.len(),
    decreases outcomes.len(),
{
    if outcomes.len() > 0 {
        lemma_outcomes_add_up(outcomes.drop_last());
    }
}

} // verus!
