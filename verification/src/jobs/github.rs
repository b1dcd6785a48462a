//! The spelling job: what it asks the language model for each chunk of a
//! repository, which answers it keeps, and the result it reports.

use vstd::prelude::*;

use crate::apis::github::{CodeChunk, RepoFetchConfig};
use crate::llm::{answer_corrections, correction_views, json_read, parse_spelling_correction, JsonNumber, JsonValue, LlmTaskConfig};
use crate::json::{json_plain, json_text, plain_depth};

verus! {

/// The corrections found in one chunk of a file.
pub struct SpellingCorrection {
    pub file_path: String,
    pub start_line: usize,
    pub end_line: usize,
    pub corrections: Vec<CorrectionDetail>,
}

/// One spelling correction.
pub struct CorrectionDetail {
    pub line_number: usize,
    pub original_text: String,
    pub corrected_text: String,
    pub start_column: usize,
    pub end_column: usize,
    /// How sure the model is, as the number it gave
    pub confidence: JsonNumber,
}

/// A correction as a value.
pub struct CorrectionView {
    pub line_number: usize,
    pub original_text: Seq<char>,
    pub corrected_text: Seq<char>,
    pub start_column: usize,
    pub end_column: usize,
    pub confidence: JsonNumber,
}

impl View for CorrectionDetail {
    type V = CorrectionView;

    open spec fn view(&self) -> CorrectionView {
        CorrectionView {
            line_number: self.line_number,
            original_text: self.original_text@,
            corrected_text: self.corrected_text@,
            start_column: self.start_column,
            end_column: self.end_column,
            confidence: self.confidence,
        }
    }
}

/// The parameters of the spelling job for a new task, before the task's
/// message is read: no owner, no repository and no branch.
pub fn pre_processor_params() -> (params: (String, String, Option<String>))
    ensures
        params.0@.len() == 0,
        params.1@.len() == 0,
        params.2 is None,
{
    (String::new(), String::new(), None)
}

/// The question asked about each chunk, up to the chunk's content.
pub const PROMPT_HEAD: &'static str = "Please analyze this code/text for spelling errors. For each error:\n\
            1. Consider if it's actually a spelling error (not a variable name, command, or technical term)\n\
            2. Provide the correction only if you're highly confident it's an error\n\
            3. Maintain any special formatting or code syntax\n\n\
            Content to check:\n";

/// The question asked about each chunk, after the chunk's content.
pub const PROMPT_TAIL: &'static str = "\n
            Write the output in JSON format with an object like this:\n
            {
                \"file_path\": \"path/to/file.rs\",
                \"start_line\": 1,
                \"end_line\": 10,
                \"corrections\": [
                    {
                        \"line_number\": 1,
                        \"original_text\": \"exmaple\",
                        \"corrected_text\": \"example\",
                        \"start_column\": 0,
                        \"end_column\": 7,
                        \"confidence\": 0.95
                    }
                ]
            }";

/// The model that checks the spelling.
pub const SPELLING_MODEL: &'static str = "gpt-4o-mini";

/// The system prompt of the spelling check.
pub const SPELLING_SYSTEM_PROMPT: &'static str = "You are a helpful assistant that checks for spelling errors in code.";

/// The question asked about a chunk whose content is `content`.
pub open spec fn spelling_prompt_text(content: Seq<char>) -> Seq<char> {
    PROMPT_HEAD@ + content + PROMPT_TAIL@
}

/// The question asked about a chunk whose content is `content`.
pub fn spelling_prompt(content: &str) -> (prompt: String)
    ensures
        prompt@ == spelling_prompt_text(content@),
        prompt@ == PROMPT_HEAD@ + content@ + PROMPT_TAIL@,
        prompt@.subrange(PROMPT_HEAD@.len() as int, (PROMPT_HEAD@.len() + content@.len()) as int) == content@,
{
    let mut prompt = String::from_str(PROMPT_HEAD);
    prompt.append(content);
    prompt.append(PROMPT_TAIL);
    proof {
        let h = PROMPT_HEAD@;
        assert((h + content@ + PROMPT_TAIL@).subrange(h.len() as int, (h.len() + content@.len()) as int) =~= content@);
    }
    prompt
}

/// `task` asks the spelling model about a chunk whose content is `content`.
pub open spec fn is_spelling_task(task: LlmTaskConfig, content: Seq<char>) -> bool {
    &&& task.model@ == SPELLING_MODEL@
    &&& task.system_prompt@ == SPELLING_SYSTEM_PROMPT@
    &&& task.content@ == spelling_prompt_text(content)
}

/// The task that asks the model about the spelling in `chunk`.
pub fn spelling_task(chunk: &CodeChunk) -> (task: LlmTaskConfig)
    ensures
        is_spelling_task(task, chunk.content@),
        task.model@ == SPELLING_MODEL@,
        task.system_prompt@ == SPELLING_SYSTEM_PROMPT@,
        task.content@ == PROMPT_HEAD@ + chunk.content@ + PROMPT_TAIL@,
{
    LlmTaskConfig {
        model: String::from_str(SPELLING_MODEL),
        system_prompt: String::from_str(SPELLING_SYSTEM_PROMPT),
        content: spelling_prompt(chunk.content.as_str()),
    }
}

/// What the job fetches of a repository: Rust, Markdown and text files, in
/// chunks of up to 5000 bytes.
pub fn spelling_fetch_config(owner: String, repo: String, ref_name: Option<String>) -> (config: RepoFetchConfig)
    ensures
        config.owner == owner,
        config.repo == repo,
        config.ref_name == ref_name,
        config.chunk_size == 5000,
        config.file_extensions@.len() == 3,
        config.file_extensions@[0]@ == "rs"@,
        config.file_extensions@[1]@ == "md"@,
        config.file_extensions@[2]@ == "txt"@,
{
    let mut file_extensions: Vec<String> = Vec::new();
    file_extensions.push(String::from_str("rs"));
    file_extensions.push(String::from_str("md"));
    file_extensions.push(String::from_str("txt"));
    RepoFetchConfig { owner, repo, file_extensions, chunk_size: 5000, ref_name }
}

/// The repository that a spelling result is about.
pub struct RepositoryInfo {
    pub owner: String,
    pub repo: String,
    pub ref_name: String,
}

/// Facts about a spelling check.
pub struct ResultMetadata {
    pub total_files_checked: usize,
    pub timestamp: String,
}

/// The outcome of the spelling job.
pub struct SpellingResult {
    pub repository: RepositoryInfo,
    pub corrections: Vec<SpellingCorrection>,
    pub metadata: ResultMetadata,
}

/// The corrections that the answer `answer` gives, where the job keeps
/// them: it could be read and it has at least one correction.
pub open spec fn kept_corrections(answer: Result<JsonValue, Seq<char>>) -> Option<Seq<CorrectionView>> {
    match answer {
        Ok(v) => match answer_corrections(v) {
            Ok(cs) => if cs.len() > 0 {
                Some(cs)
            } else {
                None
            },
            Err(_) => None,
        },
        Err(_) => None,
    }
}

/// A kept correction reports chunk `chunk`.
pub open spec fn reports_chunk(c: SpellingCorrection, chunk: CodeChunk) -> bool {
    &&& c.file_path@ == chunk.file_path@
    &&& c.start_line == chunk.start_line
    &&& c.end_line == chunk.end_line
}

/// The spelling job over the chunks of a repository: the model is asked
/// about each chunk in turn, and the corrections it finds are kept.
pub struct SpellingJob {
    pub owner: String,
    pub repo: String,
    pub ref_name: Option<String>,
    pub chunks: Vec<CodeChunk>,
    /// How many chunks have been checked
    pub checked: usize,
    /// The corrections kept so far
    pub corrections: Vec<SpellingCorrection>,
    /// For each kept correction, the index of the chunk it reports
    pub reported: Ghost<Seq<int>>,
}

impl SpellingJob {
    /// The job is consistent: it has checked no more chunks than it has,
    /// and the corrections it keeps are non-empty and report checked
    /// chunks, each a different one, in the order of the chunks.
    pub open spec fn wf(&self) -> bool {
        &&& self.checked <= self.chunks.len()
        &&& self.reported@.len() == self.corrections.len()
        &&& forall|i: int| 0 <= i < self.corrections.len() ==> (#[trigger] self.corrections@[i]).corrections.len() > 0
        &&& forall|i: int| 0 <= i < self.corrections.len() ==> {
            &&& 0 <= #[trigger] self.reported@[i] < self.checked
            &&& reports_chunk(self.corrections@[i], self.chunks@[self.reported@[i]])
        }
        &&& forall|i: int, j: int| 0 <= i < j < self.corrections.len() ==> #[trigger] self.reported@[i] < #[trigger] self.reported@[j]
    }

    /// A job over `chunks` that has checked nothing yet.
    pub fn new(owner: String, repo: String, ref_name: Option<String>, chunks: Vec<CodeChunk>) -> (job: Self)
        ensures
            job.wf(),
            job.owner == owner,
            job.repo == repo,
            job.ref_name == ref_name,
            job.chunks == chunks,
            job.checked == 0,
            job.corrections@.len() == 0,
    {
        SpellingJob { owner, repo, ref_name, chunks, checked: 0, corrections: Vec::new(), reported: Ghost(Seq::empty()) }
    }

    /// The question for the next chunk, or `None` once every chunk is checked.
    pub fn next_task(&self) -> (task: Option<LlmTaskConfig>)
        requires
            self.wf(),
        ensures
            task is Some <==> self.checked < self.chunks.len(),
            task matches Some(t) ==> is_spelling_task(t, self.chunks@[self.checked as int].content@),
    {
        if self.checked < self.chunks.len() {
            Some(spelling_task(&self.chunks[self.checked]))
        } else {
            None
        }
    }

    /// Takes the model's answer about the next chunk: where it reads as
    /// JSON and finds a correction, the corrections are kept for that
    /// chunk; otherwise the answer is dropped.
    pub fn record_answer(&mut self, llm_response: &str)
        requires
            old(self).wf(),
            old(self).checked < old(self).chunks.len(),
        ensures
            final(self).wf(),
            final(self).checked == old(self).checked + 1,
            final(self).owner == old(self).owner,
            final(self).repo == old(self).repo,
            final(self).ref_name == old(self).ref_name,
            final(self).chunks == old(self).chunks,
            (match kept_corrections(json_read(llm_response@)) {
                None => final(self).corrections@ == old(self).corrections@,
                Some(cs) => {
                    &&& final(self).corrections@.len() == old(self).corrections@.len() + 1
                    &&& final(self).corrections@.drop_last() == old(self).corrections@
                    &&& reports_chunk(final(self).corrections@.last(), old(self).chunks@[old(self).checked as int])
                    &&& correction_views(final(self).corrections@.last().corrections@) == cs
                },
            }),
            forall|v: JsonValue| json_plain(v, plain_depth()) && #[trigger] json_text(v) == llm_response@
                ==> (match kept_corrections(Ok(v)) {
                None => final(self).corrections@ == old(self).corrections@,
                Some(cs) => {
                    &&& final(self).corrections@.len() == old(self).corrections@.len() + 1
                    &&& final(self).corrections@.drop_last() == old(self).corrections@
                    &&& reports_chunk(final(self).corrections@.last(), old(self).chunks@[old(self).checked as int])
                    &&& correction_views(final(self).corrections@.last().corrections@) == cs
                },
            }),
    {
        let ghost old_job = *self;
        let chunk = &self.chunks[self.checked];
        // Parse the LLM response into a SpellingCorrection
        let parsed = parse_spelling_correction(llm_response, chunk.file_path.clone(), chunk.start_line, chunk.end_line);
        if let Ok(spelling_result) = parsed {
            // Only add corrections if there are any
            if spelling_result.corrections.len() > 0 {
                self.corrections.push(spelling_result);
                self.reported = Ghost(self.reported@.push(self.checked as int));
                proof {
                    let n = old_job.corrections@.len() as int;
                    assert(self.corrections@.drop_last() == old_job.corrections@);
                    assert forall|i: int| 0 <= i < self.corrections.len() implies (#[trigger] self.corrections@[i]).corrections.len() > 0 by {
                        if i < n {
                            assert(self.corrections@[i] == old_job.corrections@[i]);
                        }
                    }
                    assert forall|i: int| 0 <= i < self.corrections.len() implies {
                        &&& 0 <= #[trigger] self.reported@[i] < self.checked + 1
                        &&& reports_chunk(self.corrections@[i], self.chunks@[self.reported@[i]])
                    } by {
                        if i < n {
                            assert(self.corrections@[i] == old_job.corrections@[i]);
                            assert(self.reported@[i] == old_job.reported@[i]);
                        }
                    }
                    assert forall|i: int, j: int| 0 <= i < j < self.corrections.len() implies #[trigger] self.reported@[i] < #[trigger] self.reported@[j] by {
                        assert(self.reported@[i] == old_job.reported@[i]);
                        if j < n {
                            assert(self.reported@[j] == old_job.reported@[j]);
                        }
                    }
                }
            }
        }
        self.checked = self.checked + 1;
    }

    /// The result of the job: the repository (its branch, or "main"), the
    /// corrections kept, and how many chunks there were, checked at
    /// `timestamp`.
    pub fn finish(self, timestamp: String) -> (r: SpellingResult)
        ensures
            r.repository.owner == self.owner,
            r.repository.repo == self.repo,
            r.repository.ref_name@ == (match self.ref_name {
                Some(n) => n@,
                None => "main"@,
            }),
            r.corrections == self.corrections,
            r.metadata.total_files_checked == self.chunks.len(),
            r.metadata.timestamp == timestamp,
    {
        let total_files_checked = self.chunks.len();
        let ref_name = match self.ref_name {
            Some(n) => n,
            None => String::from_str("main"),
        };
        SpellingResult {
            repository: RepositoryInfo { owner: self.owner, repo: self.repo, ref_name },
            corrections: self.corrections,
            metadata: ResultMetadata { total_files_checked, timestamp },
        }
    }
}

} // verus!
