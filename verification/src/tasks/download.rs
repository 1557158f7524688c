//! The files of the finetuning datasets.
use vstd::prelude::*;

use crate::data::download::{job_views, FileJob};
use crate::sft::IDENTITY_FILE;

verus! {

/// Where the datasets are hosted.
pub const DATASETS_URL: &'static str = "https://huggingface.co/datasets";

/// Where the identity conversations are.
pub const IDENTITY_URL: &'static str =
    "https://karpathy-public.s3.us-west-2.amazonaws.com/identity_conversations.jsonl";

/// The address of a file of a dataset, and the name to save it under.
pub open spec fn dataset_job(path: Seq<char>, filename: Seq<char>) -> (Seq<char>, Seq<char>) {
    (DATASETS_URL@ + "/"@ + path, filename)
}

/// The address of a file of a dataset, and the name to save it under.
fn dataset_file(path: &str, filename: &str) -> (job: FileJob)
    ensures
        job@ == dataset_job(path@, filename@),
{
    let mut url = String::from_str(DATASETS_URL);
    url.append("/");
    url.append(path);
    FileJob { url, filename: String::from_str(filename) }
}

/// The files of the finetuning datasets. The names to save them under begin
/// with the dataset and its split.
pub open spec fn sft_files() -> Seq<(Seq<char>, Seq<char>)> {
    seq![
        dataset_job(
            "HuggingFaceTB/smol-smoltalk/resolve/main/data/train-00000-of-00004.parquet"@,
            "smoltalk-train-00000.parquet"@,
        ),
        dataset_job(
            "HuggingFaceTB/smol-smoltalk/resolve/main/data/train-00001-of-00004.parquet"@,
            "smoltalk-train-00001.parquet"@,
        ),
        dataset_job(
            "HuggingFaceTB/smol-smoltalk/resolve/main/data/train-00002-of-00004.parquet"@,
            "smoltalk-train-00002.parquet"@,
        ),
        dataset_job(
            "HuggingFaceTB/smol-smoltalk/resolve/main/data/train-00003-of-00004.parquet"@,
            "smoltalk-train-00003.parquet"@,
        ),
        dataset_job(
            "HuggingFaceTB/smol-smoltalk/resolve/main/data/test-00000-of-00001.parquet"@,
            "smoltalk-test-00000.parquet"@,
        ),
        dataset_job(
            "cais/mmlu/resolve/main/all/auxiliary_train-00000-of-00001.parquet"@,
            "mmlu-train-00000.parquet"@,
        ),
        dataset_job(
            "cais/mmlu/resolve/main/all/test-00000-of-00001.parquet"@,
            "mmlu-test-00000.parquet"@,
        ),
        dataset_job(
            "openai/gsm8k/resolve/main/main/train-00000-of-00001.parquet"@,
            "gsm8k-train-00000.parquet"@,
        ),
        dataset_job(
            "openai/gsm8k/resolve/main/main/test-00000-of-00001.parquet"@,
            "gsm8k-test-00000.parquet"@,
        ),
        (IDENTITY_URL@, IDENTITY_FILE@),
    ]
}

/// The files of the finetuning datasets.
pub fn sft_jobs() -> (jobs: Vec<FileJob>)
    ensures
        job_views(jobs@) == sft_files(),
{
    let jobs = vec![
        dataset_file(
            "HuggingFaceTB/smol-smoltalk/resolve/main/data/train-00000-of-00004.parquet",
            "smoltalk-train-00000.parquet",
        ),
        dataset_file(
            "HuggingFaceTB/smol-smoltalk/resolve/main/data/train-00001-of-00004.parquet",
            "smoltalk-train-00001.parquet",
        ),
        dataset_file(
            "HuggingFaceTB/smol-smoltalk/resolve/main/data/train-00002-of-00004.parquet",
            "smoltalk-train-00002.parquet",
        ),
        dataset_file(
            "HuggingFaceTB/smol-smoltalk/resolve/main/data/train-00003-of-00004.parquet",
            "smoltalk-train-00003.parquet",
        ),
        dataset_file(
            "HuggingFaceTB/smol-smoltalk/resolve/main/data/test-00000-of-00001.parquet",
            "smoltalk-test-00000.parquet",
        ),
        dataset_file(
            "cais/mmlu/resolve/main/all/auxiliary_train-00000-of-00001.parquet",
            "mmlu-train-00000.parquet",
        ),
        dataset_file(
            "cais/mmlu/resolve/main/all/test-00000-of-00001.parquet",
            "mmlu-test-00000.parquet",
        ),
        dataset_file(
            "openai/gsm8k/resolve/main/main/train-00000-of-00001.parquet",
            "gsm8k-train-00000.parquet",
        ),
        dataset_file(
            "openai/gsm8k/resolve/main/main/test-00000-of-00001.parquet",
            "gsm8k-test-00000.parquet",
        ),
        FileJob { url: String::from_str(IDENTITY_URL), filename: String::from_str(IDENTITY_FILE) },
    ];
    assert(job_views(jobs@) =~= sft_files());
    jobs
}

} // verus!
