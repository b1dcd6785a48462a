//! Repository files and their division into chunks of whole lines.

use vstd::prelude::*;

use vstd::utf8::{decode_utf8, encode_utf8, valid_utf8};

use crate::text::{
    contains_string, extension_of, file_extension, lemma_line_len_bound, lemma_utf8_len_concat,
    lemma_utf8_len_newline, lines_of, listed, newline_index, push_char, remove_newlines,
    split_lines, string_views, strip_cr, utf8_len, without_newlines,
};

verus! {

/// Configuration for repository content fetching
pub struct RepoFetchConfig {
    /// Owner of the repository
    pub owner: String,
    /// Name of the repository
    pub repo: String,
    /// List of file extensions to include (e.g. ["rs", "toml"])
    pub file_extensions: Vec<String>,
    /// Maximum size of each chunk in bytes
    pub chunk_size: usize,
    /// Optional specific branch or commit SHA
    pub ref_name: Option<String>,
}

/// An item of a repository as the GitHub contents API lists it: what the
/// chunking reads of it.
#[derive(Clone, Debug)]
pub struct RepoContent {
    /// Path of the item in the repository
    pub path: String,
    /// Kind of the item: "file", "dir", "symlink" or "submodule"
    pub kind: String,
    /// File content, Base64 encoded, where the API sent it
    pub content: Option<String>,
}

#[verifier::external_type_specification]
#[verifier::external_body]
pub struct ExOctocrabError(octocrab::Error);

/// Custom error types for GitHub operations
#[derive(Debug)]
pub enum GitHubError {
    /// GitHub API error
    ApiError(octocrab::Error),
    /// Content decoding error
    DecodingError(String),
    /// Invalid file type
    InvalidFileType,
    /// Rate limit exceeded
    RateLimitExceeded,
}

/// What `base64::decode` gives for `input`: the decoded bytes, or the text
/// of the error it reports.
pub uninterp spec fn base64_decoded(input: Seq<u8>) -> Result<Seq<u8>, Seq<char>>;

/// The character of the standard Base64 alphabet (`A`-`Z`, `a`-`z`,
/// `0`-`9`, `+`, `/`) for the six-bit value `v`.
pub open spec fn base64_symbol(v: int) -> u8 {
    if v < 26 {
        (65 + v) as u8
    } else if v < 52 {
        (71 + v) as u8
    } else if v < 62 {
        (v - 4) as u8
    } else if v == 62 {
        43u8
    } else {
        47u8
    }
}

/// The standard Base64 encoding of `b`, padded with `=`: every three bytes
/// become four characters, and a last group of one or two bytes becomes
/// four characters ending in two or one `=`.
pub open spec fn base64_encode_standard(b: Seq<u8>) -> Seq<u8>
    decreases b.len(),
{
    if b.len() == 0 {
        seq![]
    } else if b.len() == 1 {
        seq![base64_symbol(b[0] as int / 4), base64_symbol((b[0] as int % 4) * 16), 61u8, 61u8]
    } else if b.len() == 2 {
        seq![
            base64_symbol(b[0] as int / 4),
            base64_symbol((b[0] as int % 4) * 16 + b[1] as int / 16),
            base64_symbol((b[1] as int % 16) * 4),
            61u8,
        ]
    } else {
        seq![
            base64_symbol(b[0] as int / 4),
            base64_symbol((b[0] as int % 4) * 16 + b[1] as int / 16),
            base64_symbol((b[1] as int % 16) * 4 + b[2] as int / 64),
            base64_symbol(b[2] as int % 64),
        ] + base64_encode_standard(b.skip(3))
    }
}

/// `base64::decode` (standard alphabet, canonical padding), with its error
/// written out as text. Trusted: the result is `base64_decoded` of the
/// input, and (from the crate's source: the output buffer is sized by the
/// decode estimate and then truncated) the decoded bytes number at most
/// three for every four input bytes, rounded up. The standard padded
/// encoding of any bytes decodes back to those bytes (the crate's
/// `STANDARD` engine: this alphabet, `=` padding required).
#[verifier::external_body]
#[allow(deprecated)]
fn base64_decode(input: &[u8]) -> (r: Result<Vec<u8>, String>)
    ensures
        forall|b: Seq<u8>| #[trigger] base64_encode_standard(b) == input@ ==> (r is Ok && r->Ok_0@ == b),
        r is Ok ==> base64_decoded(input@) == Ok::<Seq<u8>, Seq<char>>(r->Ok_0@),
        r is Ok ==> r->Ok_0@.len() <= 3 * ((input@.len() + 3) / 4),
        r is Err ==> base64_decoded(input@) == Err::<Seq<u8>, Seq<char>>(r->Err_0@),
{
    match base64::decode(input) {
        Ok(d) => Ok(d),
        Err(e) => Err(e.to_string()),
    }
}

/// The text of the error that `String::from_utf8` reports for `bytes`.
pub uninterp spec fn utf8_error_text(bytes: Seq<u8>) -> Seq<char>;

/// `String::from_utf8`, with its error written out as text. Trusted: it
/// succeeds exactly on valid UTF-8, and then holds the decoded characters;
/// the text of the error is named, not stated.
#[verifier::external_body]
fn string_from_utf8(bytes: Vec<u8>) -> (r: Result<String, String>)
    ensures
        r is Ok <==> valid_utf8(bytes@),
        r is Ok ==> r->Ok_0@ == decode_utf8(bytes@),
        r is Err ==> r->Err_0@ == utf8_error_text(bytes@),
{
    match String::from_utf8(bytes) {
        Ok(s) => Ok(s),
        Err(e) => Err(e.to_string()),
    }
}

/// Represents a chunk of code from the repository
pub struct CodeChunk {
    /// Path of the file this chunk is from
    pub file_path: String,
    /// The actual code content
    pub content: String,
    /// Start line number in the file (from 1)
    pub start_line: usize,
    /// End line number in the file
    pub end_line: usize,
}

/// A line as a chunk holds it: followed by a newline.
pub open spec fn line_entry(line: Seq<char>) -> Seq<char> {
    line.push('\n')
}

/// The lines `ls`, each followed by a newline, one after the other.
pub open spec fn joined_lines(ls: Seq<Seq<char>>) -> Seq<char>
    decreases ls.len(),
{
    if ls.len() == 0 {
        seq![]
    } else {
        joined_lines(ls.drop_last()) + line_entry(ls.last())
    }
}

/// Bytes that a line takes in a chunk, its newline included.
pub open spec fn line_size(line: Seq<char>) -> nat {
    utf8_len(line) + 1
}

/// The lines of `lines` that chunk `c` covers (line numbers count from 1).
pub open spec fn chunk_lines(lines: Seq<Seq<char>>, c: CodeChunk) -> Seq<Seq<char>> {
    lines.subrange(c.start_line - 1, c.end_line as int)
}

/// Chunk `c` of the file `path` whose lines are `lines` is well formed: it
/// names the file, covers a non-empty range of lines, holds exactly those
/// lines, and stays within `chunk_size` bytes unless it is a single line.
pub open spec fn chunk_ok(path: Seq<char>, lines: Seq<Seq<char>>, chunk_size: nat, c: CodeChunk) -> bool {
    &&& c.file_path@ == path
    &&& 1 <= c.start_line <= c.end_line <= lines.len()
    &&& c.content@ == joined_lines(chunk_lines(lines, c))
    &&& c.start_line < c.end_line ==> utf8_len(c.content@) <= chunk_size
}

/// Every chunk of `chunks` is well formed.
pub open spec fn chunks_ok(path: Seq<char>, lines: Seq<Seq<char>>, chunk_size: nat, chunks: Seq<CodeChunk>) -> bool {
    forall|j: int| 0 <= j < chunks.len() ==> chunk_ok(path, lines, chunk_size, #[trigger] chunks[j])
}

/// Each chunk of `chunks` but the last is followed by the chunk that starts
/// on the next line, and that line would not have fit into it.
pub open spec fn chunks_linked(lines: Seq<Seq<char>>, chunk_size: nat, chunks: Seq<CodeChunk>) -> bool {
    forall|j: int| 0 <= j < chunks.len() - 1 ==> {
        &&& (#[trigger] chunks[j + 1]).start_line == chunks[j].end_line + 1
        &&& utf8_len(chunks[j].content@) + line_size(lines[chunks[j].end_line as int]) > chunk_size
    }
}

/// `chunks` is the division of the lines `lines` of file `path` into chunks
/// of at most `chunk_size` bytes: in order, every line in exactly one chunk,
/// and each chunk as long as it can be: the line after it would not fit.
pub open spec fn is_chunking(path: Seq<char>, lines: Seq<Seq<char>>, chunk_size: nat, chunks: Seq<CodeChunk>) -> bool {
    &&& (chunks.len() == 0 <==> lines.len() == 0)
    &&& chunks.len() > 0 ==> chunks[0].start_line == 1 && chunks.last().end_line == lines.len()
    &&& chunks_ok(path, lines, chunk_size, chunks)
    &&& chunks_linked(lines, chunk_size, chunks)
}

/// Appending a well-formed chunk that starts right after the last one, where
/// the last one could not take its first line, keeps the chunks linked.
proof fn lemma_push_chunk(path: Seq<char>, lines: Seq<Seq<char>>, chunk_size: nat, chunks: Seq<CodeChunk>, c: CodeChunk)
    requires
        chunks_ok(path, lines, chunk_size, chunks),
        chunks_linked(lines, chunk_size, chunks),
        chunk_ok(path, lines, chunk_size, c),
        chunks.len() > 0 ==> {
            &&& c.start_line == chunks.last().end_line + 1
            &&& utf8_len(chunks.last().content@) + line_size(lines[chunks.last().end_line as int]) > chunk_size
        },
    ensures
        chunks_ok(path, lines, chunk_size, chunks.push(c)),
        chunks_linked(lines, chunk_size, chunks.push(c)),
        chunks.push(c).last() == c,
        chunks.len() > 0 ==> chunks.push(c)[0] == chunks[0],
        chunks.len() == 0 ==> chunks.push(c)[0] == c,
{
    let pushed = chunks.push(c);
    assert forall|j: int| 0 <= j < pushed.len() implies chunk_ok(path, lines, chunk_size, #[trigger] pushed[j]) by {
        if j < chunks.len() {
            assert(pushed[j] == chunks[j]);
        }
    }
    assert forall|j: int| 0 <= j < pushed.len() - 1 implies {
        &&& (#[trigger] pushed[j + 1]).start_line == pushed[j].end_line + 1
        &&& utf8_len(pushed[j].content@) + line_size(lines[pushed[j].end_line as int]) > chunk_size
    } by {
        if j < chunks.len() - 1 {
            assert(pushed[j] == chunks[j]);
            assert(pushed[j + 1] == chunks[j + 1]);
        } else {
            assert(pushed[j] == chunks.last());
            assert(pushed[j + 1] == c);
        }
    }
}

/// Split content into chunks while preserving line integrity
#[verifier::spinoff_prover]
pub fn chunk_content(path: &str, content: &str, chunk_size: usize) -> (chunks: Vec<CodeChunk>)
    requires
        forall|i: int| 0 <= i < lines_of(content@).len() ==> utf8_len(#[trigger] lines_of(content@)[i]) < usize::MAX,
    ensures
        is_chunking(path@, lines_of(content@), chunk_size as nat, chunks@),
{
    let lines = split_lines(content);
    let ghost ls = lines_of(content@);
    let ghost n = chunk_size as nat;
    let mut chunks: Vec<CodeChunk> = Vec::new();
    let mut current_chunk = String::new();
    let mut current_start_line: usize = 1;
    let mut current_size: usize = 0;
    proof {
        assert(ls.subrange(0, 0) == Seq::<Seq<char>>::empty());
    }
    let mut i: usize = 0;
    while i < lines.len()
        invariant
            string_views(lines@) == ls,
            ls == lines_of(content@),
            n == chunk_size,
            forall|k: int| 0 <= k < ls.len() ==> utf8_len(#[trigger] ls[k]) < usize::MAX,
            i <= lines.len(),
            1 <= current_start_line <= i + 1,
            current_chunk@ == joined_lines(ls.subrange(current_start_line - 1, i as int)),
            current_size == utf8_len(current_chunk@),
            i - (current_start_line - 1) >= 2 ==> current_size <= n,
            chunks@.len() == 0 ==> current_start_line == 1,
            chunks.len() > 0 ==> {
                &&& chunks[0].start_line == 1
                &&& chunks@.last().end_line + 1 == current_start_line
                &&& current_start_line - 1 < i
                &&& utf8_len(chunks@.last().content@) + line_size(ls[current_start_line - 1]) > n
            },
            chunks_ok(path@, ls, n, chunks@),
            chunks_linked(ls, n, chunks@),
        decreases lines.len() - i,
    {
        let line = &lines[i];
        assert(line@ == ls[i as int]);
        let line_size_bytes = line.as_str().len() + 1;
        proof {
            lemma_joined_lines_empty(ls.subrange(current_start_line - 1, i as int));
        }
        // Create a new chunk if this line would exceed the chunk size
        if !current_chunk.as_str().is_empty()
            && (current_size > chunk_size || line_size_bytes > chunk_size - current_size) {
            let finished = CodeChunk {
                file_path: String::from_str(path),
                content: current_chunk,
                start_line: current_start_line,
                end_line: i,
            };
            assert(chunk_lines(ls, finished) == ls.subrange(current_start_line - 1, i as int));
            proof {
                lemma_push_chunk(path@, ls, n, chunks@, finished);
            }
            chunks.push(finished);
            current_chunk = String::new();
            current_start_line = i + 1;
            current_size = 0;
            proof {
                assert(ls.subrange(current_start_line - 1, i as int) == Seq::<Seq<char>>::empty());
            }
        }
        let ghost before = current_chunk@;
        current_chunk.append(line.as_str());
        push_char(&mut current_chunk, '\n');
        proof {
            let sub = ls.subrange(current_start_line - 1, i + 1);
            assert(sub.drop_last() == ls.subrange(current_start_line - 1, i as int));
            assert(sub.last() == ls[i as int]);
            assert(joined_lines(sub) == joined_lines(sub.drop_last()) + line_entry(sub.last()));
            assert(current_chunk@ =~= before + line_entry(ls[i as int]));
            assert(line_entry(ls[i as int]) == ls[i as int] + seq!['\n']);
            lemma_utf8_len_concat(before, ls[i as int] + seq!['\n']);
            lemma_utf8_len_concat(ls[i as int], seq!['\n']);
            lemma_utf8_len_newline();
        }
        current_size = current_size + line_size_bytes;
        i = i + 1;
    }
    proof {
        lemma_joined_lines_empty(ls.subrange(current_start_line - 1, i as int));
        assert(lines.len() == ls.len());
    }
    // Add the last chunk if there's anything remaining
    if !current_chunk.as_str().is_empty() {
        let last = CodeChunk {
            file_path: String::from_str(path),
            content: current_chunk,
            start_line: current_start_line,
            end_line: lines.len(),
        };
        assert(chunk_lines(ls, last) == ls.subrange(current_start_line - 1, i as int));
        proof {
            lemma_push_chunk(path@, ls, n, chunks@, last);
        }
        chunks.push(last);
    }
    chunks
}

/// Chunks of the file `path` from the outcome `decoded` of decoding its
/// Base64 content: a decoding error, bytes that are not UTF-8 (with the
/// error text of `String::from_utf8`), or the chunks of the decoded text.
pub fn chunk_decoded_file(path: &str, decoded: Result<Vec<u8>, String>, chunk_size: usize) -> (r: Result<Vec<CodeChunk>, GitHubError>)
    requires
        decoded matches Ok(b) ==> b@.len() < usize::MAX,
    ensures
        (match decoded {
            Err(m) => r matches Err(GitHubError::DecodingError(e)) && e@ == m@,
            Ok(b) => if valid_utf8(b@) {
                r matches Ok(chunks) && is_chunking(path@, lines_of(decode_utf8(b@)), chunk_size as nat, chunks@)
            } else {
                r matches Err(GitHubError::DecodingError(e)) && e@ == utf8_error_text(b@)
            },
        }),
{
    match decoded {
        Err(m) => Err(GitHubError::DecodingError(m)),
        Ok(bytes) => {
            let ghost b = bytes@;
            match string_from_utf8(bytes) {
                Err(e) => Err(GitHubError::DecodingError(e)),
                Ok(text) => {
                    proof {
                        vstd::utf8::decode_utf8_encode_utf8(b);
                        lemma_line_len_bound(text@);
                    }
                    Ok(chunk_content(path, text.as_str(), chunk_size))
                }
            }
        }
    }
}

/// The text of an optional string.
pub open spec fn opt_text(o: Option<String>) -> Option<Seq<char>> {
    match o {
        Some(s) => Some(s@),
        None => None,
    }
}

/// The branch or commit that the fetching reads: the configured one, or
/// "main".
pub open spec fn ref_of(config: RepoFetchConfig) -> Seq<char> {
    match config.ref_name {
        Some(r) => r@,
        None => "main"@,
    }
}

/// `config.ref_name.as_deref().unwrap_or("main")`
pub fn content_ref(config: &RepoFetchConfig) -> (r: String)
    ensures
        r@ == ref_of(*config),
        config.ref_name matches Some(n) ==> r@ == n@,
        config.ref_name is None ==> r@ == "main"@,
{
    match &config.ref_name {
        Some(r) => r.clone(),
        None => String::from_str("main"),
    }
}

/// What fetching does with an item of a listing.
pub enum FetchStep {
    /// Fetch the file itself (its content comes with it)
    FetchFile,
    /// List the directory and go through its items
    ListDirectory,
    /// Leave the item out
    Skip,
}

/// The step that fetching takes for item `c`: a file whose extension is
/// listed is fetched, a directory is listed, and everything else is left
/// out.
pub open spec fn fetch_step_of(c: RepoContent, config: RepoFetchConfig) -> FetchStep {
    if c.kind@ == "file"@ {
        if listed(config.file_extensions@, extension_of(c.path@)) {
            FetchStep::FetchFile
        } else {
            FetchStep::Skip
        }
    } else if c.kind@ == "dir"@ {
        FetchStep::ListDirectory
    } else {
        FetchStep::Skip
    }
}

/// The position of the first item of `items` that fetching does not leave
/// out, if any.
pub open spec fn first_to_fetch(items: Seq<RepoContent>, config: RepoFetchConfig) -> Option<int>
    decreases items.len(),
{
    if items.len() == 0 {
        None
    } else if fetch_step_of(items[0], config) != FetchStep::Skip {
        Some(0)
    } else {
        match first_to_fetch(items.drop_first(), config) {
            Some(k) => Some(k + 1),
            None => None,
        }
    }
}

/// The items of a stack in the order they come off it.
pub open spec fn stack_order(stack: Seq<RepoContent>) -> Seq<RepoContent>
    decreases stack.len(),
{
    if stack.len() == 0 {
        seq![]
    } else {
        seq![stack.last()] + stack_order(stack.drop_last())
    }
}

/// A stack yields as many items as it holds.
proof fn lemma_stack_order_len(stack: Seq<RepoContent>)
    ensures
        stack_order(stack).len() == stack.len(),
    decreases stack.len(),
{
    if stack.len() > 0 {
        lemma_stack_order_len(stack.drop_last());
    }
}

/// What the walk over a repository asks for next.
pub enum WalkAction {
    /// Fetch the file at this path
    FetchFile(String),
    /// List the directory at this path
    ListDirectory(String),
    /// Every item has been seen
    Done,
}

/// The walk over the items of a repository, depth first: each directory is
/// listed where it is met and its items come before those that follow it;
/// each file with a listed extension is fetched, and the first item of the
/// answer is kept.
pub struct ContentWalk {
    stack: Vec<RepoContent>,
    found: Vec<RepoContent>,
}

impl ContentWalk {
    /// The items still to go through, in order.
    pub closed spec fn pending(&self) -> Seq<RepoContent> {
        stack_order(self.stack@)
    }

    /// The items kept so far, in order.
    pub closed spec fn found(&self) -> Seq<RepoContent> {
        self.found@
    }

    /// Pushes `items` so that they come off the stack in their order,
    /// before what was there.
    fn push_in_order(stack: &mut Vec<RepoContent>, items: Vec<RepoContent>)
        ensures
            stack_order(final(stack)@) == items@ + stack_order(old(stack)@),
    {
        let ghost before = stack_order(stack@);
        let mut items = items;
        let ghost all = items@;
        proof {
            assert(all.subrange(all.len() as int, all.len() as int) + before == before);
        }
        while items.len() > 0
            invariant
                items.len() <= all.len(),
                items@ == all.take(items.len() as int),
                stack_order(stack@) == all.subrange(items.len() as int, all.len() as int) + before,
            decreases items.len(),
        {
            let ghost n = items.len() as int;
            let item = items.pop().unwrap();
            let ghost stack_before = stack@;
            stack.push(item);
            proof {
                assert(stack@.drop_last() == stack_before);
                assert(stack_order(stack@) == seq![item] + stack_order(stack_before));
                assert(item == all[n - 1]);
                assert(all.subrange(n - 1, all.len() as int) =~= seq![all[n - 1]] + all.subrange(n, all.len() as int));
                assert(items@ == all.take(n - 1));
            }
        }
        proof {
            assert(all.subrange(0, all.len() as int) == all);
        }
    }

    /// A walk over the items of a listing.
    pub fn new(items: Vec<RepoContent>) -> (walk: Self)
        ensures
            walk.pending() == items@,
            walk.found() == Seq::<RepoContent>::empty(),
    {
        let mut stack: Vec<RepoContent> = Vec::new();
        Self::push_in_order(&mut stack, items);
        proof {
            assert(stack_order(Seq::<RepoContent>::empty()) == Seq::<RepoContent>::empty());
        }
        ContentWalk { stack, found: Vec::new() }
    }

    /// Goes past the items that are left out and takes the next one that is
    /// fetched or listed, or says that the walk is done.
    pub fn next_action(&mut self, config: &RepoFetchConfig) -> (action: WalkAction)
        ensures
            final(self).found() == old(self).found(),
            (match first_to_fetch(old(self).pending(), *config) {
                None => action is Done && final(self).pending().len() == 0,
                Some(k) => {
                    let item = old(self).pending()[k];
                    &&& final(self).pending() == old(self).pending().skip(k + 1)
                    &&& fetch_step_of(item, *config) == FetchStep::FetchFile ==> (action matches WalkAction::FetchFile(p) && p@ == item.path@)
                    &&& fetch_step_of(item, *config) == FetchStep::ListDirectory ==> (action matches WalkAction::ListDirectory(p) && p@ == item.path@)
                },
            }),
            old(self).pending().len() > 0 && old(self).pending()[0].kind@ == "dir"@ ==> (action matches WalkAction::ListDirectory(p)
                && p@ == old(self).pending()[0].path@),
    {
        proof {
            if old(self).pending().len() > 0 && old(self).pending()[0].kind@ == "dir"@ {
                lemma_directories_are_listed(old(self).pending()[0], *config);
                assert(first_to_fetch(old(self).pending(), *config) == Some(0int));
            }
        }
        let ghost start = self.pending();
        let ghost mut skipped: int = 0;
        proof {
            assert(start.skip(0) == start);
        }
        loop
            invariant
                0 <= skipped <= start.len(),
                self.pending() == start.skip(skipped),
                first_to_fetch(start, *config) == (match first_to_fetch(start.skip(skipped), *config) {
                    Some(k) => Some(k + skipped),
                    None => None::<int>,
                }),
                self.found() == old(self).found(),
                start == old(self).pending(),
                start.len() > 0 && start[0].kind@ == "dir"@ ==> fetch_step_of(start[0], *config)
                    == FetchStep::ListDirectory && first_to_fetch(start, *config) == Some(0int),
            decreases self.stack.len(),
        {
            let ghost stack_before = self.stack@;
            proof {
                lemma_stack_order_len(stack_before);
            }
            match self.stack.pop() {
                None => {
                    proof {
                        assert(start.skip(skipped).len() == 0);
                        assert(first_to_fetch(start.skip(skipped), *config) is None);
                        assert(first_to_fetch(start, *config) is None);
                        assert(self.pending().len() == 0);
                    }
                    return WalkAction::Done;
                },
                Some(item) => {
                    let ghost rest = start.skip(skipped);
                    proof {
                        assert(stack_before.drop_last() == self.stack@);
                        assert(stack_order(stack_before) == seq![item] + stack_order(self.stack@));
                        assert(rest[0] == item);
                        assert(rest.drop_first() == start.skip(skipped + 1));
                        assert(self.pending() == start.skip(skipped + 1));
                    }
                    match next_fetch_step(&item, config) {
                        FetchStep::FetchFile => {
                            proof {
                                assert(first_to_fetch(rest, *config) == Some(0int));
                                assert(start[skipped] == item);
                            }
                            return WalkAction::FetchFile(item.path);
                        },
                        FetchStep::ListDirectory => {
                            proof {
                                assert(first_to_fetch(rest, *config) == Some(0int));
                                assert(start[skipped] == item);
                            }
                            return WalkAction::ListDirectory(item.path);
                        },
                        FetchStep::Skip => {
                            proof {
                                skipped = skipped + 1;
                            }
                        },
                    }
                },
            }
        }
    }

    /// Takes the answer for a fetched file: its first item is kept.
    pub fn file_fetched(&mut self, items: Vec<RepoContent>)
        ensures
            final(self).pending() == old(self).pending(),
            final(self).found() == if items@.len() > 0 {
                old(self).found().push(items@[0])
            } else {
                old(self).found()
            },
    {
        let mut items = items;
        if items.len() > 0 {
            let first = items.swap_remove(0);
            self.found.push(first);
        }
    }

    /// Takes the listing of a directory: its items come next, in order.
    pub fn directory_listed(&mut self, items: Vec<RepoContent>)
        ensures
            final(self).pending() == items@ + old(self).pending(),
            final(self).found() == old(self).found(),
    {
        Self::push_in_order(&mut self.stack, items);
    }

    /// The items kept by the walk, in order.
    pub fn into_found(self) -> (found: Vec<RepoContent>)
        ensures
            found@ == self.found(),
    {
        self.found
    }
}

/// What the walk keeps of the answer for a fetched file: its first item.
pub open spec fn first_item(items: Seq<RepoContent>) -> Seq<RepoContent> {
    if items.len() > 0 {
        seq![items[0]]
    } else {
        seq![]
    }
}

/// The items that the walk keeps when it goes through `pending`, where
/// listing the directory at a path gives `listing[path]` and fetching the
/// file at a path gives `answer[path]`; `None` where `fuel` steps do not
/// suffice.
pub open spec fn walk_from(
    pending: Seq<RepoContent>,
    config: RepoFetchConfig,
    listing: Map<Seq<char>, Seq<RepoContent>>,
    answer: Map<Seq<char>, Seq<RepoContent>>,
    fuel: nat,
) -> Option<Seq<RepoContent>>
    decreases fuel,
{
    if fuel == 0 {
        None
    } else if pending.len() == 0 {
        Some(seq![])
    } else {
        let item = pending[0];
        let rest = pending.drop_first();
        let f = (fuel - 1) as nat;
        match fetch_step_of(item, config) {
            FetchStep::Skip => walk_from(rest, config, listing, answer, f),
            FetchStep::FetchFile => match walk_from(rest, config, listing, answer, f) {
                Some(x) => Some(first_item(answer[item.path@]) + x),
                None => None,
            },
            FetchStep::ListDirectory => walk_from(listing[item.path@] + rest, config, listing, answer, f),
        }
    }
}

/// More steps do not change a walk that finished.
pub proof fn lemma_walk_fuel(
    pending: Seq<RepoContent>,
    config: RepoFetchConfig,
    listing: Map<Seq<char>, Seq<RepoContent>>,
    answer: Map<Seq<char>, Seq<RepoContent>>,
    fuel: nat,
    more: nat,
)
    requires
        walk_from(pending, config, listing, answer, fuel) is Some,
        fuel <= more,
    ensures
        walk_from(pending, config, listing, answer, more) == walk_from(pending, config, listing, answer, fuel),
    decreases fuel,
{
    if pending.len() > 0 {
        let item = pending[0];
        let rest = pending.drop_first();
        match fetch_step_of(item, config) {
            FetchStep::Skip => lemma_walk_fuel(rest, config, listing, answer, (fuel - 1) as nat, (more - 1) as nat),
            FetchStep::FetchFile => lemma_walk_fuel(rest, config, listing, answer, (fuel - 1) as nat, (more - 1) as nat),
            FetchStep::ListDirectory => lemma_walk_fuel(
                listing[item.path@] + rest,
                config,
                listing,
                answer,
                (fuel - 1) as nat,
                (more - 1) as nat,
            ),
        }
    }
}

/// The walk over a list of items is the walk over its first part followed
/// by the walk over the rest: a directory gives what its items give, one
/// after the other, depth first.
pub proof fn lemma_walk_concat(
    a: Seq<RepoContent>,
    b: Seq<RepoContent>,
    config: RepoFetchConfig,
    listing: Map<Seq<char>, Seq<RepoContent>>,
    answer: Map<Seq<char>, Seq<RepoContent>>,
    fa: nat,
    fb: nat,
)
    requires
        walk_from(a, config, listing, answer, fa) is Some,
        walk_from(b, config, listing, answer, fb) is Some,
    ensures
        walk_from(a + b, config, listing, answer, fa + fb) == Some(
            walk_from(a, config, listing, answer, fa)->Some_0 + walk_from(b, config, listing, answer, fb)->Some_0,
        ),
    decreases fa,
{
    let x = walk_from(a, config, listing, answer, fa)->Some_0;
    let y = walk_from(b, config, listing, answer, fb)->Some_0;
    if a.len() == 0 {
        assert(a + b == b);
        lemma_walk_fuel(b, config, listing, answer, fb, fa + fb);
        assert(x == Seq::<RepoContent>::empty());
        assert(x + y == y);
    } else {
        let item = a[0];
        let rest = a.drop_first();
        let f = (fa - 1) as nat;
        assert((a + b)[0] == item);
        assert((a + b).drop_first() == rest + b);
        assert((fa + fb - 1) as nat == f + fb);
        match fetch_step_of(item, config) {
            FetchStep::Skip => {
                lemma_walk_concat(rest, b, config, listing, answer, f, fb);
            },
            FetchStep::FetchFile => {
                lemma_walk_concat(rest, b, config, listing, answer, f, fb);
                let x2 = walk_from(rest, config, listing, answer, f)->Some_0;
                assert(first_item(answer[item.path@]) + x2 + y == first_item(answer[item.path@]) + (x2 + y));
            },
            FetchStep::ListDirectory => {
                let l = listing[item.path@];
                lemma_walk_concat(l + rest, b, config, listing, answer, f, fb);
                assert(l + rest + b == l + (rest + b));
            },
        }
    }
}

/// The walk goes past the items it leaves out: it continues from the first
/// item that is fetched or listed, or ends with nothing more kept.
pub proof fn lemma_walk_next(
    pending: Seq<RepoContent>,
    config: RepoFetchConfig,
    listing: Map<Seq<char>, Seq<RepoContent>>,
    answer: Map<Seq<char>, Seq<RepoContent>>,
    fuel: nat,
)
    requires
        walk_from(pending, config, listing, answer, fuel) is Some,
    ensures
        (match first_to_fetch(pending, config) {
            None => walk_from(pending, config, listing, answer, fuel) == Some(Seq::<RepoContent>::empty()),
            Some(k) => {
                let item = pending[k];
                let rest = pending.skip(k + 1);
                &&& 0 <= k < pending.len()
                &&& k + 1 <= fuel
                &&& fetch_step_of(item, config) == FetchStep::FetchFile ==> walk_from(rest, config, listing, answer, (fuel - k - 1) as nat) is Some
                    && walk_from(pending, config, listing, answer, fuel)->Some_0
                        == first_item(answer[item.path@]) + walk_from(rest, config, listing, answer, (fuel - k - 1) as nat)->Some_0
                &&& fetch_step_of(item, config) == FetchStep::ListDirectory ==> walk_from(
                    listing[item.path@] + rest, config, listing, answer, (fuel - k - 1) as nat)
                    == walk_from(pending, config, listing, answer, fuel)
            },
        }),
    decreases pending.len(),
{
    if pending.len() > 0 {
        let item = pending[0];
        let rest = pending.drop_first();
        if fetch_step_of(item, config) == FetchStep::Skip {
            lemma_walk_next(rest, config, listing, answer, (fuel - 1) as nat);
            match first_to_fetch(rest, config) {
                Some(k) => {
                    assert(pending[k + 1] == rest[k]);
                    assert(pending.skip(k + 2) == rest.skip(k + 1));
                    assert((fuel - (k + 1) - 1) as nat == ((fuel - 1) as nat - k - 1) as nat);
                },
                None => {},
            }
        } else {
            assert(pending.skip(1) == rest);
        }
    }
}

/// `first_to_fetch` finds an item that is fetched or listed, after items
/// that are all left out.
pub proof fn lemma_first_to_fetch(items: Seq<RepoContent>, config: RepoFetchConfig)
    ensures
        (match first_to_fetch(items, config) {
            Some(k) => 0 <= k < items.len() && fetch_step_of(items[k], config) != FetchStep::Skip
                && forall|j: int| 0 <= j < k ==> fetch_step_of(#[trigger] items[j], config) == FetchStep::Skip,
            None => forall|j: int| 0 <= j < items.len() ==> fetch_step_of(#[trigger] items[j], config) == FetchStep::Skip,
        }),
    decreases items.len(),
{
    if items.len() > 0 && fetch_step_of(items[0], config) == FetchStep::Skip {
        let rest = items.drop_first();
        lemma_first_to_fetch(rest, config);
        assert forall|j: int| 0 < j < items.len() implies items[j] == rest[j - 1] by {}
    }
}

/// Each step of a `ContentWalk` keeps what the walk ends with. `before`
/// is a walk that will end after `fuel` steps of `walk_from`; `after` is
/// the walk once `next_action` has taken the `k`-th pending item and the
/// answer for it has been handed in (`file_fetched` with `answer[path]`,
/// or `directory_listed` with `listing[path]`), as those methods ensure.
/// Then `after` ends in fewer steps, and what it has kept followed by what
/// it will keep is what `before` had kept followed by what it would keep.
/// (A new walk has kept nothing and has its items pending; where no item
/// is left to fetch, `lemma_walk_next` shows nothing more is kept.)
pub proof fn lemma_walk_step_keeps_result(
    before: ContentWalk,
    after: ContentWalk,
    config: RepoFetchConfig,
    listing: Map<Seq<char>, Seq<RepoContent>>,
    answer: Map<Seq<char>, Seq<RepoContent>>,
    fuel: nat,
    k: int,
) -> (f: nat)
    requires
        walk_from(before.pending(), config, listing, answer, fuel) is Some,
        first_to_fetch(before.pending(), config) == Some(k),
        fetch_step_of(before.pending()[k], config) == FetchStep::FetchFile ==> {
            &&& after.pending() == before.pending().skip(k + 1)
            &&& after.found() == before.found() + first_item(answer[before.pending()[k].path@])
        },
        fetch_step_of(before.pending()[k], config) == FetchStep::ListDirectory ==> {
            &&& after.pending() == listing[before.pending()[k].path@] + before.pending().skip(k + 1)
            &&& after.found() == before.found()
        },
    ensures
        f < fuel,
        walk_from(after.pending(), config, listing, answer, f) is Some,
        after.found() + walk_from(after.pending(), config, listing, answer, f)->Some_0 == before.found()
            + walk_from(before.pending(), config, listing, answer, fuel)->Some_0,
{
    let p = before.pending();
    lemma_walk_next(p, config, listing, answer, fuel);
    lemma_first_to_fetch(p, config);
    let f = (fuel - k - 1) as nat;
    let item = p[k];
    let x = walk_from(p, config, listing, answer, fuel)->Some_0;
    if fetch_step_of(item, config) == FetchStep::FetchFile {
        let y = walk_from(p.skip(k + 1), config, listing, answer, f)->Some_0;
        assert(x == first_item(answer[item.path@]) + y);
        assert(before.found() + first_item(answer[item.path@]) + y == before.found() + (first_item(answer[item.path@]) + y));
    } else {
        assert(fetch_step_of(item, config) == FetchStep::ListDirectory);
    }
    f
}

/// Every directory is listed, whatever its path or name: an item of kind
/// `dir` is never left out.
pub proof fn lemma_directories_are_listed(c: RepoContent, config: RepoFetchConfig)
    requires
        c.kind@ == "dir"@,
    ensures
        fetch_step_of(c, config) == FetchStep::ListDirectory,
{
    reveal_strlit("file");
    reveal_strlit("dir");
    assert(c.kind@[0] != "file"@[0]);
}

/// A file is fetched exactly when its extension is listed; an item that is
/// neither a file nor a directory is left out.
pub proof fn lemma_files_fetched_by_extension(c: RepoContent, config: RepoFetchConfig)
    ensures
        c.kind@ == "file"@ ==> (fetch_step_of(c, config) == FetchStep::FetchFile <==> listed(
            config.file_extensions@,
            extension_of(c.path@),
        )),
        c.kind@ == "file"@ ==> fetch_step_of(c, config) != FetchStep::ListDirectory,
        c.kind@ != "file"@ && c.kind@ != "dir"@ ==> fetch_step_of(c, config) == FetchStep::Skip,
{
}

/// Walking a directory is walking its listing: what the walk keeps from a
/// directory item is what it keeps from the items listed under it, with one
/// more step. So every file with a listed extension anywhere below a
/// directory is reached.
pub proof fn lemma_walk_enters_directory(
    dir: RepoContent,
    config: RepoFetchConfig,
    listing: Map<Seq<char>, Seq<RepoContent>>,
    answer: Map<Seq<char>, Seq<RepoContent>>,
    fuel: nat,
)
    requires
        dir.kind@ == "dir"@,
    ensures
        walk_from(seq![dir], config, listing, answer, fuel + 1) == walk_from(
            listing[dir.path@],
            config,
            listing,
            answer,
            fuel,
        ),
{
    lemma_directories_are_listed(dir, config);
    let s = seq![dir];
    assert(s[0] == dir);
    assert(s.drop_first() =~= Seq::<RepoContent>::empty());
    assert(listing[dir.path@] + Seq::<RepoContent>::empty() =~= listing[dir.path@]);
}

/// A file whose extension is listed is fetched, and the first item of the
/// answer for it is kept.
pub proof fn lemma_walk_fetches_listed_file(
    file: RepoContent,
    config: RepoFetchConfig,
    listing: Map<Seq<char>, Seq<RepoContent>>,
    answer: Map<Seq<char>, Seq<RepoContent>>,
    fuel: nat,
)
    requires
        file.kind@ == "file"@,
        listed(config.file_extensions@, extension_of(file.path@)),
    ensures
        walk_from(seq![file], config, listing, answer, fuel + 2) == Some(first_item(answer[file.path@])),
{
    lemma_files_fetched_by_extension(file, config);
    let s = seq![file];
    assert(s[0] == file);
    assert(s.drop_first() =~= Seq::<RepoContent>::empty());
    assert(walk_from(s.drop_first(), config, listing, answer, fuel + 1) == Some(Seq::<RepoContent>::empty()));
    assert(first_item(answer[file.path@]) + Seq::<RepoContent>::empty() =~= first_item(answer[file.path@]));
}

/// The step that fetching takes for an item of a listing.
pub fn next_fetch_step(content: &RepoContent, config: &RepoFetchConfig) -> (step: FetchStep)
    ensures
        step == fetch_step_of(*content, *config),
        content.kind@ == "dir"@ ==> step == FetchStep::ListDirectory,
        content.kind@ == "file"@ ==> (step == FetchStep::FetchFile <==> listed(config.file_extensions@, extension_of(content.path@))),
        content.kind@ == "file"@ ==> (step == FetchStep::FetchFile || step == FetchStep::Skip),
        content.kind@ != "file"@ && content.kind@ != "dir"@ ==> step == FetchStep::Skip,
{
    let file = String::from_str("file");
    let dir = String::from_str("dir");
    proof {
        reveal_strlit("file");
        reveal_strlit("dir");
        assert("file"@[0] != "dir"@[0]);
    }
    if content.kind == file {
        // Only fetch content for files with target extensions
        let ext = file_extension(content.path.as_str());
        if contains_string(&config.file_extensions, &ext) {
            FetchStep::FetchFile
        } else {
            FetchStep::Skip
        }
    } else if content.kind == dir {
        FetchStep::ListDirectory
    } else {
        FetchStep::Skip
    }
}

/// What the cache tells requests apart by: the repository, the branch and
/// the extensions that the fetching keeps files of.
pub struct RequestKey {
    pub owner: Seq<char>,
    pub repo: Seq<char>,
    pub ref_name: Option<Seq<char>>,
    pub file_extensions: Seq<Seq<char>>,
}

/// The key of the request `config`.
pub open spec fn request_key(config: RepoFetchConfig) -> RequestKey {
    RequestKey {
        owner: config.owner@,
        repo: config.repo@,
        ref_name: opt_text(config.ref_name),
        file_extensions: string_views(config.file_extensions@),
    }
}

/// The key under which the contents fetched for a request are cached.
pub struct CacheKey {
    owner: String,
    repo: String,
    ref_name: Option<String>,
    file_extensions: Vec<String>,
}

impl View for CacheKey {
    type V = RequestKey;

    closed spec fn view(&self) -> RequestKey {
        RequestKey {
            owner: self.owner@,
            repo: self.repo@,
            ref_name: opt_text(self.ref_name),
            file_extensions: string_views(self.file_extensions@),
        }
    }
}

/// A copy of a list of strings.
fn copy_strings(v: &Vec<String>) -> (r: Vec<String>)
    ensures
        string_views(r@) == string_views(v@),
{
    let mut r: Vec<String> = Vec::new();
    let mut i: usize = 0;
    while i < v.len()
        invariant
            i <= v.len(),
            string_views(r@) == string_views(v@.take(i as int)),
        decreases v.len() - i,
    {
        let ghost before = r@;
        r.push(v[i].clone());
        assert(v@.take(i + 1) == v@.take(i as int).push(v@[i as int]));
        assert(r@.drop_last() == before);
        assert(string_views(r@) =~= string_views(before).push(v@[i as int]@));
        assert(string_views(v@.take(i + 1)) =~= string_views(v@.take(i as int)).push(v@[i as int]@));
        i = i + 1;
    }
    assert(v@.take(v.len() as int) == v@);
    r
}

/// Whether two lists of strings hold the same strings in the same order.
fn same_strings(a: &Vec<String>, b: &Vec<String>) -> (r: bool)
    ensures
        r == (string_views(a@) == string_views(b@)),
{
    if a.len() != b.len() {
        assert(string_views(a@).len() != string_views(b@).len());
        return false;
    }
    let mut i: usize = 0;
    while i < a.len()
        invariant
            a.len() == b.len(),
            i <= a.len(),
            forall|j: int| 0 <= j < i ==> (#[trigger] a@[j])@ == b@[j]@,
        decreases a.len() - i,
    {
        if !(a[i] == b[i]) {
            assert(string_views(a@)[i as int] != string_views(b@)[i as int]);
            return false;
        }
        i = i + 1;
    }
    assert(string_views(a@) =~= string_views(b@));
    true
}

/// Whether two optional strings are the same.
fn same_opt_string(a: &Option<String>, b: &Option<String>) -> (r: bool)
    ensures
        r == (opt_text(*a) == opt_text(*b)),
{
    match (a, b) {
        (Some(x), Some(y)) => *x == *y,
        (None, None) => true,
        _ => false,
    }
}

impl CacheKey {
    /// The key of the request `config`.
    fn of(config: &RepoFetchConfig) -> (k: Self)
        ensures
            k@ == request_key(*config),
    {
        let ref_name = match &config.ref_name {
            Some(r) => Some(r.clone()),
            None => None,
        };
        CacheKey {
            owner: config.owner.clone(),
            repo: config.repo.clone(),
            ref_name,
            file_extensions: copy_strings(&config.file_extensions),
        }
    }

    /// Whether this is the key of the request `config`.
    fn matches(&self, config: &RepoFetchConfig) -> (r: bool)
        ensures
            r == (self@ == request_key(*config)),
    {
        self.owner == config.owner && self.repo == config.repo && same_opt_string(&self.ref_name, &config.ref_name)
            && same_strings(&self.file_extensions, &config.file_extensions)
    }
}

/// The map that the entries `entries` stand for: each key to the contents
/// of its last entry.
pub open spec fn entries_map(entries: Seq<(CacheKey, Vec<RepoContent>)>) -> Map<RequestKey, Seq<RepoContent>>
    decreases entries.len(),
{
    if entries.len() == 0 {
        Map::empty()
    } else {
        entries_map(entries.drop_last()).insert(entries.last().0@, entries.last().1@)
    }
}

/// Entries after `i` that do not have key `k` leave its value as it was
/// after the first `i` entries.
proof fn lemma_entries_map_suffix(entries: Seq<(CacheKey, Vec<RepoContent>)>, i: int, k: RequestKey)
    requires
        0 <= i <= entries.len(),
        forall|j: int| i <= j < entries.len() ==> (#[trigger] entries[j]).0@ != k,
    ensures
        entries_map(entries).contains_key(k) == entries_map(entries.take(i)).contains_key(k),
        entries_map(entries)[k] == entries_map(entries.take(i))[k],
    decreases entries.len() - i,
{
    if i < entries.len() {
        let shorter = entries.drop_last();
        assert(shorter.take(i) == entries.take(i));
        assert forall|j: int| i <= j < shorter.len() implies (#[trigger] shorter[j]).0@ != k by {
            assert(shorter[j] == entries[j]);
        }
        lemma_entries_map_suffix(shorter, i, k);
        assert(entries.last() == entries[entries.len() - 1]);
    } else {
        assert(entries.take(i) == entries);
    }
}

/// The repository contents fetched so far, by request: repository, branch
/// and extensions.
pub struct ContentCache {
    entries: Vec<(CacheKey, Vec<RepoContent>)>,
}

impl View for ContentCache {
    type V = Map<RequestKey, Seq<RepoContent>>;

    closed spec fn view(&self) -> Map<RequestKey, Seq<RepoContent>> {
        entries_map(self.entries@)
    }
}

impl ContentCache {
    /// An empty cache.
    pub fn new() -> (cache: Self)
        ensures
            cache@ == Map::<RequestKey, Seq<RepoContent>>::empty(),
    {
        ContentCache { entries: Vec::new() }
    }

    /// The contents cached for the request `config`, if any: a hit makes
    /// fetching unneeded.
    pub fn lookup(&self, config: &RepoFetchConfig) -> (r: Option<&Vec<RepoContent>>)
        ensures
            (match r {
                Some(v) => self@.contains_key(request_key(*config)) && self@[request_key(*config)] == v@,
                None => !self@.contains_key(request_key(*config)),
            }),
    {
        let ghost key = request_key(*config);
        let mut i = self.entries.len();
        while i > 0
            invariant
                i <= self.entries.len(),
                key == request_key(*config),
                forall|j: int| i <= j < self.entries.len() ==> (#[trigger] self.entries@[j]).0@ != key,
            decreases i,
        {
            if self.entries[i - 1].0.matches(config) {
                proof {
                    let es = self.entries@;
                    lemma_entries_map_suffix(es, i as int, key);
                    assert(es.take(i as int).drop_last() == es.take(i - 1));
                    assert(es.take(i as int).last() == es[i - 1]);
                }
                return Some(&self.entries[i - 1].1);
            }
            i = i - 1;
        }
        proof {
            lemma_entries_map_suffix(self.entries@, 0, key);
            assert(self.entries@.take(0).len() == 0);
        }
        None
    }

    /// Caches `contents` as fetched for the request `config`, in place of
    /// what was cached for it.
    pub fn store(&mut self, config: &RepoFetchConfig, contents: Vec<RepoContent>)
        ensures
            final(self)@ == old(self)@.insert(request_key(*config), contents@),
    {
        let ghost before = self.entries@;
        let ghost v = contents@;
        let key = CacheKey::of(config);
        self.entries.push((key, contents));
        proof {
            assert(self.entries@.drop_last() == before);
            assert(self.entries@.last().0@ == request_key(*config));
            assert(self.entries@.last().1@ == v);
        }
    }
}

/// What is read from the cache for a request is what was last stored for
/// that request (`after` is `before` with `contents` stored for `config`);
/// a request that differs in repository, branch or extensions reads what
/// it read before.
pub proof fn lemma_cache_read_after_write(
    before: ContentCache,
    after: ContentCache,
    config: RepoFetchConfig,
    contents: Seq<RepoContent>,
    other: RepoFetchConfig,
)
    requires
        after@ == before@.insert(request_key(config), contents),
    ensures
        after@.contains_key(request_key(config)),
        after@[request_key(config)] == contents,
        request_key(other) != request_key(config) ==> after@.contains_key(request_key(other)) == before@.contains_key(
            request_key(other),
        ),
        request_key(other) != request_key(config) && before@.contains_key(request_key(other)) ==> after@[request_key(other)]
            == before@[request_key(other)],
{
}

/// Requests with other extensions are told apart: what was stored for one
/// is never read for the other.
pub proof fn lemma_cache_keeps_extensions_apart(first: RepoFetchConfig, again: RepoFetchConfig)
    requires
        string_views(first.file_extensions@) != string_views(again.file_extensions@),
    ensures
        request_key(first) != request_key(again),
{
}

/// A repeated request gives the same chunks: once contents are stored for
/// `first`, a request `again` for the same repository, branch and
/// extensions finds them, and with the same chunk size its chunks are the
/// same as those of the first request.
pub proof fn lemma_repeated_request(
    before: ContentCache,
    after: ContentCache,
    first: RepoFetchConfig,
    again: RepoFetchConfig,
    contents: Seq<RepoContent>,
    first_chunks: Seq<CodeChunk>,
    again_chunks: Seq<CodeChunk>,
)
    requires
        after@ == before@.insert(request_key(first), contents),
        request_key(again) == request_key(first),
        again.chunk_size == first.chunk_size,
        repo_chunks_ok(contents, first, first_chunks),
        repo_chunks_ok(after@[request_key(again)], again, again_chunks),
    ensures
        after@.contains_key(request_key(again)),
        after@[request_key(again)] == contents,
        same_chunks(first_chunks, again_chunks),
{
    lemma_repo_chunks_config(contents, first, again, first_chunks);
    lemma_repo_chunks_unique(contents, again, first_chunks, again_chunks);
}

/// Lists of strings with the same texts list the same texts.
proof fn lemma_listed_same_views(a: Seq<String>, b: Seq<String>, text: Seq<char>)
    requires
        string_views(a) == string_views(b),
    ensures
        listed(a, text) == listed(b, text),
{
    assert(a.len() == string_views(a).len());
    assert(b.len() == string_views(b).len());
    if listed(a, text) {
        let i = choose|i: int| 0 <= i < a.len() && (#[trigger] a[i])@ == text;
        assert(string_views(a)[i] == a[i]@);
        assert(string_views(b)[i] == b[i]@);
        assert(b[i]@ == text);
    }
    if listed(b, text) {
        let i = choose|i: int| 0 <= i < b.len() && (#[trigger] b[i])@ == text;
        assert(string_views(a)[i] == a[i]@);
        assert(string_views(b)[i] == b[i]@);
        assert(a[i]@ == text);
    }
}

/// Chunking depends only on the extensions and the chunk size of the
/// configuration.
proof fn lemma_repo_chunks_config(contents: Seq<RepoContent>, c1: RepoFetchConfig, c2: RepoFetchConfig, chunks: Seq<CodeChunk>)
    requires
        string_views(c1.file_extensions@) == string_views(c2.file_extensions@),
        c1.chunk_size == c2.chunk_size,
        repo_chunks_ok(contents, c1, chunks),
    ensures
        repo_chunks_ok(contents, c2, chunks),
    decreases contents.len(),
{
    if contents.len() > 0 {
        let c = contents.last();
        lemma_listed_same_views(c1.file_extensions@, c2.file_extensions@, extension_of(c.path@));
        assert(is_listed_file(c, c1) == is_listed_file(c, c2));
        if is_listed_file(c, c1) {
            let k = choose|k: int|
                0 <= k <= chunks.len() && repo_chunks_ok(contents.drop_last(), c1, chunks.take(k))
                    && #[trigger] is_chunking(c.path@, lines_of(decoded_text(c)), c1.chunk_size as nat, chunks.skip(k));
            lemma_repo_chunks_config(contents.drop_last(), c1, c2, chunks.take(k));
            lemma_repo_chunks_ok_listed(contents, c2, chunks, k);
        } else {
            lemma_repo_chunks_config(contents.drop_last(), c1, c2, chunks);
        }
    }
}

/// Whether item `c` is a file that the chunking decodes: its kind is
/// "file", its extension is one of the configured ones and its content
/// came with it.
pub open spec fn is_listed_file(c: RepoContent, config: RepoFetchConfig) -> bool {
    &&& c.kind@ == "file"@
    &&& listed(config.file_extensions@, extension_of(c.path@))
    &&& c.content is Some
}

/// The bytes handed to the Base64 decoder for item `c`: its content with
/// the newlines removed.
pub open spec fn encoded_bytes(c: RepoContent) -> Seq<u8> {
    encode_utf8(without_newlines(c.content->Some_0@))
}

/// Why the content of item `c` cannot be read: the Base64 error, or the
/// UTF-8 error of the decoded bytes; `None` where it decodes to text.
pub open spec fn decode_failure(c: RepoContent) -> Option<Seq<char>> {
    match base64_decoded(encoded_bytes(c)) {
        Err(m) => Some(m),
        Ok(b) => if valid_utf8(b) {
            None
        } else {
            Some(utf8_error_text(b))
        },
    }
}

/// The text that the content of item `c` decodes to.
pub open spec fn decoded_text(c: RepoContent) -> Seq<char> {
    decode_utf8(base64_decoded(encoded_bytes(c))->Ok_0)
}

/// Three bytes out for every four in, rounded up, stay below `usize::MAX`.
proof fn lemma_decoded_len_bound(e: int, d: int)
    requires
        0 <= e <= usize::MAX,
        0 <= d <= 3 * ((e + 3) / 4),
    ensures
        d < usize::MAX,
{
}

/// Process file content and split it into chunks
pub fn process_file_content(content: &RepoContent, config: &RepoFetchConfig) -> (r: Result<Option<Vec<CodeChunk>>, GitHubError>)
    ensures
        !is_listed_file(*content, *config) ==> r matches Ok(None),
        is_listed_file(*content, *config) ==> (match decode_failure(*content) {
            Some(m) => r matches Err(GitHubError::DecodingError(e)) && e@ == m,
            None => r matches Ok(Some(chunks)) && is_chunking(
                content.path@,
                lines_of(decoded_text(*content)),
                config.chunk_size as nat,
                chunks@,
            ),
        }),
        content.kind@ != "file"@ || !listed(config.file_extensions@, extension_of(content.path@))
            || content.content is None ==> r matches Ok(None),
        content.kind@ == "file"@ && listed(config.file_extensions@, extension_of(content.path@))
            && content.content is Some && decode_failure(*content) is None ==> (r matches Ok(Some(chunks))
            && is_chunking(content.path@, lines_of(decoded_text(*content)), config.chunk_size as nat, chunks@)),
        content.kind@ == "file"@ && listed(config.file_extensions@, extension_of(content.path@))
            && content.content is Some && decode_failure(*content) is Some ==> (r matches Err(
            GitHubError::DecodingError(e),
        ) && e@ == decode_failure(*content)->Some_0),
        forall|t: Seq<char>|
            content.kind@ == "file"@ && listed(config.file_extensions@, extension_of(content.path@))
                && content.content is Some && #[trigger] base64_encode_standard(encode_utf8(t)) == encoded_bytes(*content)
                ==> (r matches Ok(Some(chunks)) && is_chunking(content.path@, lines_of(t), config.chunk_size as nat, chunks@)),
{
    let file = String::from_str("file");
    if !(content.kind == file) {
        return Ok(None);
    }
    let ext = file_extension(content.path.as_str());
    if !contains_string(&config.file_extensions, &ext) {
        return Ok(None);
    }
    match &content.content {
        None => Ok(None),
        Some(encoded_content) => {
            // Remove the newlines from the base64 content
            let clean_content = remove_newlines(encoded_content.as_str());
            let input = clean_content.as_str().as_bytes();
            let input_len = input.len();
            assert(input@.len() == input_len);
            let decoded = base64_decode(input);
            proof {
                if decoded is Ok {
                    lemma_decoded_len_bound(input@.len() as int, decoded->Ok_0@.len() as int);
                }
                assert(input@ == encoded_bytes(*content));
                assert forall|t: Seq<char>| #[trigger] base64_encode_standard(encode_utf8(t)) == input@ implies decoded is Ok
                    && valid_utf8(decoded->Ok_0@) && decode_utf8(decoded->Ok_0@) == t by {
                    vstd::utf8::encode_utf8_valid_utf8(t);
                    vstd::utf8::encode_utf8_decode_utf8(t);
                }
            }
            match chunk_decoded_file(content.path.as_str(), decoded, config.chunk_size) {
                Ok(chunks) => Ok(Some(chunks)),
                Err(e) => Err(e),
            }
        },
    }
}

/// The first reason, in the order of `contents`, why a listed file cannot
/// be read; `None` where every listed file decodes to text.
pub open spec fn repo_failure(contents: Seq<RepoContent>, config: RepoFetchConfig) -> Option<Seq<char>>
    decreases contents.len(),
{
    if contents.len() == 0 {
        None
    } else {
        match repo_failure(contents.drop_last(), config) {
            Some(m) => Some(m),
            None => if is_listed_file(contents.last(), config) {
                decode_failure(contents.last())
            } else {
                None
            },
        }
    }
}

/// A listed file's chunks, after those of the items before it.
proof fn lemma_repo_chunks_ok_listed(contents: Seq<RepoContent>, config: RepoFetchConfig, chunks: Seq<CodeChunk>, k: int)
    requires
        contents.len() > 0,
        is_listed_file(contents.last(), config),
        0 <= k <= chunks.len(),
        repo_chunks_ok(contents.drop_last(), config, chunks.take(k)),
        is_chunking(contents.last().path@, lines_of(decoded_text(contents.last())), config.chunk_size as nat, chunks.skip(k)),
    ensures
        repo_chunks_ok(contents, config, chunks),
{
}

/// Once some listed file cannot be read, that failure stays the first one.
proof fn lemma_repo_failure_extends(contents: Seq<RepoContent>, config: RepoFetchConfig, j: int)
    requires
        0 <= j <= contents.len(),
        repo_failure(contents.take(j), config) is Some,
    ensures
        repo_failure(contents, config) == repo_failure(contents.take(j), config),
    decreases contents.len() - j,
{
    if j < contents.len() {
        assert(contents.take(j + 1).drop_last() == contents.take(j));
        lemma_repo_failure_extends(contents, config, j + 1);
    } else {
        assert(contents.take(j) == contents);
    }
}

/// `chunks` is, file after file in the order of `contents`, the chunking of
/// every listed file of `contents`.
pub open spec fn repo_chunks_ok(contents: Seq<RepoContent>, config: RepoFetchConfig, chunks: Seq<CodeChunk>) -> bool
    decreases contents.len(),
{
    if contents.len() == 0 {
        chunks.len() == 0
    } else {
        let c = contents.last();
        if is_listed_file(c, config) {
            exists|k: int|
                0 <= k <= chunks.len() && repo_chunks_ok(contents.drop_last(), config, chunks.take(k))
                    && #[trigger] is_chunking(c.path@, lines_of(decoded_text(c)), config.chunk_size as nat, chunks.skip(k))
        } else {
            repo_chunks_ok(contents.drop_last(), config, chunks)
        }
    }
}

/// Every file of the repository with a listed extension and content is
/// chunked, whatever its size: where `chunks` is what the repository gives,
/// the chunking of that file's decoded lines stands in it, in one piece.
pub proof fn lemma_repo_chunks_include_file(
    contents: Seq<RepoContent>,
    config: RepoFetchConfig,
    chunks: Seq<CodeChunk>,
    i: int,
)
    requires
        repo_chunks_ok(contents, config, chunks),
        0 <= i < contents.len(),
        contents[i].kind@ == "file"@,
        listed(config.file_extensions@, extension_of(contents[i].path@)),
        contents[i].content is Some,
    ensures
        exists|a: int, b: int|
            0 <= a <= b <= chunks.len() && #[trigger] is_chunking(
                contents[i].path@,
                lines_of(decoded_text(contents[i])),
                config.chunk_size as nat,
                chunks.subrange(a, b),
            ),
    decreases contents.len(),
{
    let c = contents.last();
    let rest = contents.drop_last();
    let target = contents[i];
    if i == contents.len() - 1 {
        assert(is_listed_file(c, config));
        let k = choose|k: int|
            0 <= k <= chunks.len() && repo_chunks_ok(rest, config, chunks.take(k))
                && #[trigger] is_chunking(c.path@, lines_of(decoded_text(c)), config.chunk_size as nat, chunks.skip(k));
        assert(chunks.subrange(k, chunks.len() as int) == chunks.skip(k));
        assert(is_chunking(
            target.path@,
            lines_of(decoded_text(target)),
            config.chunk_size as nat,
            chunks.subrange(k, chunks.len() as int),
        ));
    } else {
        assert(rest[i] == target);
        if is_listed_file(c, config) {
            let k = choose|k: int|
                0 <= k <= chunks.len() && repo_chunks_ok(rest, config, chunks.take(k))
                    && #[trigger] is_chunking(c.path@, lines_of(decoded_text(c)), config.chunk_size as nat, chunks.skip(k));
            let head = chunks.take(k);
            lemma_repo_chunks_include_file(rest, config, head, i);
            let (a, b) = choose|a: int, b: int|
                0 <= a <= b <= head.len() && #[trigger] is_chunking(
                    target.path@,
                    lines_of(decoded_text(target)),
                    config.chunk_size as nat,
                    head.subrange(a, b),
                );
            assert(head.subrange(a, b) == chunks.subrange(a, b));
            assert(is_chunking(
                target.path@,
                lines_of(decoded_text(target)),
                config.chunk_size as nat,
                chunks.subrange(a, b),
            ));
        } else {
            lemma_repo_chunks_include_file(rest, config, chunks, i);
        }
    }
}

/// The chunks of every listed file of `contents`, once the contents are
/// fetched: what `fetch_and_chunk_repo` computes from them.
pub fn chunk_repo_contents(contents: &Vec<RepoContent>, config: &RepoFetchConfig) -> (r: Result<Vec<CodeChunk>, GitHubError>)
    ensures
        (match repo_failure(contents@, *config) {
            Some(m) => r matches Err(GitHubError::DecodingError(e)) && e@ == m,
            None => r matches Ok(chunks) && repo_chunks_ok(contents@, *config, chunks@),
        }),
{
    let mut chunks: Vec<CodeChunk> = Vec::new();
    let mut i: usize = 0;
    while i < contents.len()
        invariant
            i <= contents.len(),
            repo_failure(contents@.take(i as int), *config) is None,
            repo_chunks_ok(contents@.take(i as int), *config, chunks@),
        decreases contents.len() - i,
    {
        let content = &contents[i];
        let ghost prefix = contents@.take(i as int);
        let ghost next = contents@.take(i + 1);
        assert(next.drop_last() == prefix);
        assert(next.last() == *content);
        let ext = file_extension(content.path.as_str());
        if contains_string(&config.file_extensions, &ext) {
            match process_file_content(content, config) {
                Err(e) => {
                    proof {
                        lemma_repo_failure_extends(contents@, *config, i + 1);
                    }
                    return Err(e);
                },
                Ok(Some(mut content_chunks)) => {
                    let ghost before = chunks@;
                    let ghost added = content_chunks@;
                    chunks.append(&mut content_chunks);
                    proof {
                        let k = before.len() as int;
                        assert(chunks@.take(k) == before);
                        assert(chunks@.skip(k) == added);
                        assert(decode_failure(*content) is None);
                        lemma_repo_chunks_ok_listed(next, *config, chunks@, k);
                    }
                },
                Ok(None) => {},
            }
        }
        i = i + 1;
    }
    assert(contents@.take(contents.len() as int) == contents@);
    Ok(chunks)
}

/// Every chunk that the chunking of `contents` yields comes from a listed
/// file: its path has one of the configured extensions, it covers at least
/// one line and its content is not empty.
pub proof fn lemma_repo_chunks_listed(contents: Seq<RepoContent>, config: RepoFetchConfig, chunks: Seq<CodeChunk>)
    requires
        repo_chunks_ok(contents, config, chunks),
    ensures
        forall|j: int| 0 <= j < chunks.len() ==> {
            &&& listed(config.file_extensions@, extension_of((#[trigger] chunks[j]).file_path@))
            &&& 1 <= chunks[j].start_line <= chunks[j].end_line
            &&& chunks[j].content@.len() > 0
        },
    decreases contents.len(),
{
    if contents.len() > 0 {
        let c = contents.last();
        if is_listed_file(c, config) {
            let k = choose|k: int|
                0 <= k <= chunks.len() && repo_chunks_ok(contents.drop_last(), config, chunks.take(k))
                    && #[trigger] is_chunking(c.path@, lines_of(decoded_text(c)), config.chunk_size as nat, chunks.skip(k));
            lemma_repo_chunks_listed(contents.drop_last(), config, chunks.take(k));
            let tail = chunks.skip(k);
            let lines = lines_of(decoded_text(c));
            assert forall|j: int| 0 <= j < chunks.len() implies {
                &&& listed(config.file_extensions@, extension_of((#[trigger] chunks[j]).file_path@))
                &&& 1 <= chunks[j].start_line <= chunks[j].end_line
                &&& chunks[j].content@.len() > 0
            } by {
                if j < k {
                    assert(chunks[j] == chunks.take(k)[j]);
                } else {
                    assert(chunks[j] == tail[j - k]);
                    assert(chunk_ok(c.path@, lines, config.chunk_size as nat, tail[j - k]));
                    lemma_joined_lines_empty(chunk_lines(lines, tail[j - k]));
                }
            }
        } else {
            lemma_repo_chunks_listed(contents.drop_last(), config, chunks);
        }
    }
}

/// Two lists of chunks hold the same chunks: same files, lines and contents.
pub open spec fn same_chunks(a: Seq<CodeChunk>, b: Seq<CodeChunk>) -> bool {
    &&& a.len() == b.len()
    &&& forall|j: int| 0 <= j < a.len() ==> {
        &&& (#[trigger] a[j]).start_line == b[j].start_line
        &&& a[j].end_line == b[j].end_line
        &&& a[j].content@ == b[j].content@
        &&& a[j].file_path@ == b[j].file_path@
    }
}

/// The chunks of a repository are determined by its contents and the
/// configuration: two results that both meet `repo_chunks_ok` are the same.
pub proof fn lemma_repo_chunks_unique(contents: Seq<RepoContent>, config: RepoFetchConfig, a: Seq<CodeChunk>, b: Seq<CodeChunk>)
    requires
        repo_chunks_ok(contents, config, a),
        repo_chunks_ok(contents, config, b),
    ensures
        same_chunks(a, b),
    decreases contents.len(),
{
    if contents.len() > 0 {
        let c = contents.last();
        if is_listed_file(c, config) {
            let lines = lines_of(decoded_text(c));
            let n = config.chunk_size as nat;
            let ka = choose|k: int|
                0 <= k <= a.len() && repo_chunks_ok(contents.drop_last(), config, a.take(k))
                    && #[trigger] is_chunking(c.path@, lines, n, a.skip(k));
            let kb = choose|k: int|
                0 <= k <= b.len() && repo_chunks_ok(contents.drop_last(), config, b.take(k))
                    && #[trigger] is_chunking(c.path@, lines, n, b.skip(k));
            lemma_repo_chunks_unique(contents.drop_last(), config, a.take(ka), b.take(kb));
            lemma_chunking_unique(c.path@, lines, n, a.skip(ka), b.skip(kb));
            assert forall|j: int| 0 <= j < a.len() implies {
                &&& (#[trigger] a[j]).start_line == b[j].start_line
                &&& a[j].end_line == b[j].end_line
                &&& a[j].content@ == b[j].content@
                &&& a[j].file_path@ == b[j].file_path@
            } by {
                if j < ka {
                    assert(a[j] == a.take(ka)[j]);
                    assert(b[j] == b.take(kb)[j]);
                } else {
                    assert(a[j] == a.skip(ka)[j - ka]);
                    assert(b[j] == b.skip(kb)[j - kb]);
                }
            }
        } else {
            lemma_repo_chunks_unique(contents.drop_last(), config, a, b);
        }
    }
}

/// The contents of `chunks`, one after the other.
pub open spec fn chunks_text(chunks: Seq<CodeChunk>) -> Seq<char>
    decreases chunks.len(),
{
    if chunks.len() == 0 {
        seq![]
    } else {
        chunks_text(chunks.drop_last()) + chunks.last().content@
    }
}

/// Joining is compatible with concatenation of line sequences.
pub proof fn lemma_joined_lines_concat(a: Seq<Seq<char>>, b: Seq<Seq<char>>)
    ensures
        joined_lines(a + b) == joined_lines(a) + joined_lines(b),
    decreases b.len(),
{
    if b.len() == 0 {
        assert(a + b == a);
        assert(joined_lines(a) + joined_lines(b) == joined_lines(a));
    } else {
        assert((a + b).drop_last() == a + b.drop_last());
        assert((a + b).last() == b.last());
        lemma_joined_lines_concat(a, b.drop_last());
        assert(joined_lines(a + b) == joined_lines(a + b.drop_last()) + line_entry(b.last()));
        assert(joined_lines(a) + joined_lines(b) == joined_lines(a) + (joined_lines(b.drop_last()) + line_entry(b.last())));
    }
}

/// Chunking loses nothing and adds nothing: the contents of the chunks, one
/// after the other, are the lines of the file, each followed by a newline.
pub proof fn lemma_chunks_reassemble(path: Seq<char>, lines: Seq<Seq<char>>, chunk_size: nat, chunks: Seq<CodeChunk>)
    requires
        is_chunking(path, lines, chunk_size, chunks),
    ensures
        chunks_text(chunks) == joined_lines(lines),
{
    if chunks.len() > 0 {
        lemma_chunks_prefix(path, lines, chunk_size, chunks, chunks.len() as int);
        assert(chunks.take(chunks.len() as int) == chunks);
        assert(lines.take(lines.len() as int) == lines);
    } else {
        assert(lines == Seq::<Seq<char>>::empty());
    }
}

/// The first `k` chunks hold exactly the lines up to the end of chunk `k`.
proof fn lemma_chunks_prefix(path: Seq<char>, lines: Seq<Seq<char>>, chunk_size: nat, chunks: Seq<CodeChunk>, k: int)
    requires
        is_chunking(path, lines, chunk_size, chunks),
        1 <= k <= chunks.len(),
    ensures
        chunks_text(chunks.take(k)) == joined_lines(lines.take(chunks[k - 1].end_line as int)),
    decreases k,
{
    let c = chunks[k - 1];
    assert(chunk_ok(path, lines, chunk_size, c));
    assert(chunks.take(k).drop_last() == chunks.take(k - 1));
    assert(chunks.take(k).last() == c);
    if k == 1 {
        assert(chunks.take(0).len() == 0);
        assert(lines.take(c.end_line as int) == chunk_lines(lines, c));
        assert(chunks_text(chunks.take(1)) == chunks_text(chunks.take(0)) + c.content@);
        assert(chunks_text(chunks.take(1)) == c.content@);
    } else {
        lemma_chunks_prefix(path, lines, chunk_size, chunks, k - 1);
        let p = chunks[k - 2];
        assert(chunks[k - 1] == chunks[(k - 2) + 1]);
        assert(c.start_line == p.end_line + 1);
        assert(lines.take(c.end_line as int) == lines.take(p.end_line as int) + chunk_lines(lines, c));
        lemma_joined_lines_concat(lines.take(p.end_line as int), chunk_lines(lines, c));
    }
}

/// A line adds its size to the bytes of joined lines.
proof fn lemma_joined_size_step(ls: Seq<Seq<char>>, a: int, e: int)
    requires
        0 <= a <= e < ls.len(),
    ensures
        utf8_len(joined_lines(ls.subrange(a, e + 1))) == utf8_len(joined_lines(ls.subrange(a, e))) + line_size(ls[e]),
{
    let sub = ls.subrange(a, e + 1);
    assert(sub.drop_last() == ls.subrange(a, e));
    assert(sub.last() == ls[e]);
    assert(line_entry(ls[e]) == ls[e] + seq!['\n']);
    lemma_utf8_len_concat(joined_lines(ls.subrange(a, e)), line_entry(ls[e]));
    lemma_utf8_len_concat(ls[e], seq!['\n']);
    lemma_utf8_len_newline();
}

/// Joined lines grow with the lines they take.
proof fn lemma_joined_size_monotone(ls: Seq<Seq<char>>, a: int, e1: int, e2: int)
    requires
        0 <= a <= e1 <= e2 <= ls.len(),
    ensures
        utf8_len(joined_lines(ls.subrange(a, e1))) <= utf8_len(joined_lines(ls.subrange(a, e2))),
    decreases e2 - e1,
{
    if e1 < e2 {
        lemma_joined_size_monotone(ls, a, e1, e2 - 1);
        lemma_joined_size_step(ls, a, e2 - 1);
    }
}

/// A text that fits in `chunk_size` bytes is one chunk: all of its lines,
/// from the first to the last.
pub proof fn lemma_small_text_one_chunk(path: Seq<char>, lines: Seq<Seq<char>>, chunk_size: nat, chunks: Seq<CodeChunk>)
    requires
        is_chunking(path, lines, chunk_size, chunks),
        lines.len() > 0,
        utf8_len(joined_lines(lines)) <= chunk_size,
    ensures
        chunks.len() == 1,
        chunks[0].start_line == 1,
        chunks[0].end_line == lines.len(),
        chunks[0].content@ == joined_lines(lines),
{
    let c0 = chunks[0];
    assert(chunk_ok(path, lines, chunk_size, c0));
    if chunks.len() > 1 {
        let e = c0.end_line as int;
        let first: int = 0;
        assert(chunks[first + 1].start_line == c0.end_line + 1);
        assert(chunk_ok(path, lines, chunk_size, chunks[1]));
        assert(e < lines.len());
        lemma_joined_size_step(lines, 0, e);
        lemma_joined_size_monotone(lines, 0, e + 1, lines.len() as int);
        assert(lines.subrange(0, lines.len() as int) == lines);
        assert(chunk_lines(lines, c0) == lines.subrange(0, e));
        assert(false);
    }
    assert(chunk_lines(lines, c0) == lines);
}

/// Joined lines shrink as their first line moves later.
proof fn lemma_joined_size_start_monotone(ls: Seq<Seq<char>>, y: int, x: int, e: int)
    requires
        0 <= y <= x <= e <= ls.len(),
    ensures
        utf8_len(joined_lines(ls.subrange(x, e))) <= utf8_len(joined_lines(ls.subrange(y, e))),
{
    assert(ls.subrange(y, e) == ls.subrange(y, x) + ls.subrange(x, e));
    lemma_joined_lines_concat(ls.subrange(y, x), ls.subrange(x, e));
    lemma_utf8_len_concat(joined_lines(ls.subrange(y, x)), joined_lines(ls.subrange(x, e)));
}

/// With a chunk size at least as large, each chunk ends no earlier.
proof fn lemma_chunk_ends_dominate(
    path: Seq<char>,
    lines: Seq<Seq<char>>,
    small: nat,
    large: nat,
    a: Seq<CodeChunk>,
    b: Seq<CodeChunk>,
    j: int,
)
    requires
        small <= large,
        is_chunking(path, lines, small, a),
        is_chunking(path, lines, large, b),
        0 <= j < a.len(),
        0 <= j < b.len(),
    ensures
        b[j].end_line >= a[j].end_line,
    decreases j,
{
    if j > 0 {
        lemma_chunk_ends_dominate(path, lines, small, large, a, b, j - 1);
        assert(a[(j - 1) + 1].start_line == a[j - 1].end_line + 1);
        assert(b[(j - 1) + 1].start_line == b[j - 1].end_line + 1);
    }
    let x = a[j];
    let y = b[j];
    assert(chunk_ok(path, lines, small, x));
    assert(chunk_ok(path, lines, large, y));
    assert(y.start_line >= x.start_line);
    if y.end_line < x.end_line {
        let sa = x.start_line - 1;
        let sb = y.start_line - 1;
        let ea = x.end_line as int;
        let eb = y.end_line as int;
        assert(j < b.len() - 1) by {
            if j == b.len() - 1 {
                assert(y == b.last());
            }
        }
        assert(b[j + 1].start_line == b[j].end_line + 1);
        assert(utf8_len(y.content@) + line_size(lines[eb]) > large);
        lemma_joined_size_step(lines, sb, eb);
        lemma_joined_size_start_monotone(lines, sa, sb, eb + 1);
        lemma_joined_size_monotone(lines, sa, eb + 1, ea);
        assert(utf8_len(x.content@) <= small);
        assert(false);
    }
}

/// A larger chunk size never gives more chunks.
pub proof fn lemma_chunk_count_monotone(
    path: Seq<char>,
    lines: Seq<Seq<char>>,
    small: nat,
    large: nat,
    a: Seq<CodeChunk>,
    b: Seq<CodeChunk>,
)
    requires
        small <= large,
        is_chunking(path, lines, small, a),
        is_chunking(path, lines, large, b),
    ensures
        b.len() <= a.len(),
{
    if a.len() < b.len() {
        let k = a.len() - 1;
        lemma_chunk_ends_dominate(path, lines, small, large, a, b, k);
        assert(a[k] == a.last());
        assert(b[k + 1].start_line == b[k].end_line + 1);
        assert(chunk_ok(path, lines, large, b[k + 1]));
        assert(chunk_ok(path, lines, large, b[k]));
    }
}

/// The division into chunks is determined by the file, its lines and the
/// chunk size: two divisions that both meet `is_chunking` are the same.
pub proof fn lemma_chunking_unique(path: Seq<char>, lines: Seq<Seq<char>>, chunk_size: nat, a: Seq<CodeChunk>, b: Seq<CodeChunk>)
    requires
        is_chunking(path, lines, chunk_size, a),
        is_chunking(path, lines, chunk_size, b),
    ensures
        a.len() == b.len(),
        forall|j: int| 0 <= j < a.len() ==> {
            &&& (#[trigger] a[j]).start_line == b[j].start_line
            &&& a[j].end_line == b[j].end_line
            &&& a[j].content@ == b[j].content@
            &&& a[j].file_path@ == b[j].file_path@
        },
{
    if a.len() > 0 && b.len() > 0 {
        if a.len() < b.len() {
            let k = a.len() - 1;
            lemma_chunking_unique_prefix(path, lines, chunk_size, a, b, k);
            assert(a[k] == a.last());
            assert(b[k + 1].start_line == b[k].end_line + 1);
            assert(chunk_ok(path, lines, chunk_size, b[k + 1]));
        } else if b.len() < a.len() {
            let k = b.len() - 1;
            lemma_chunking_unique_prefix(path, lines, chunk_size, a, b, k);
            assert(b[k] == b.last());
            assert(a[k + 1].start_line == a[k].end_line + 1);
            assert(chunk_ok(path, lines, chunk_size, a[k + 1]));
        }
        assert forall|j: int| 0 <= j < a.len() implies {
            &&& (#[trigger] a[j]).start_line == b[j].start_line
            &&& a[j].end_line == b[j].end_line
            &&& a[j].content@ == b[j].content@
            &&& a[j].file_path@ == b[j].file_path@
        } by {
            lemma_chunking_unique_prefix(path, lines, chunk_size, a, b, j);
            assert(chunk_ok(path, lines, chunk_size, a[j]));
            assert(chunk_ok(path, lines, chunk_size, b[j]));
        }
    }
}

/// The two divisions agree on chunk `j` where both have it.
proof fn lemma_chunking_unique_prefix(path: Seq<char>, lines: Seq<Seq<char>>, chunk_size: nat, a: Seq<CodeChunk>, b: Seq<CodeChunk>, j: int)
    requires
        is_chunking(path, lines, chunk_size, a),
        is_chunking(path, lines, chunk_size, b),
        0 <= j < a.len(),
        0 <= j < b.len(),
    ensures
        a[j].start_line == b[j].start_line,
        a[j].end_line == b[j].end_line,
    decreases j,
{
    if j > 0 {
        lemma_chunking_unique_prefix(path, lines, chunk_size, a, b, j - 1);
        assert(a[(j - 1) + 1].start_line == a[j - 1].end_line + 1);
        assert(b[(j - 1) + 1].start_line == b[j - 1].end_line + 1);
    }
    lemma_chunking_unique_not_shorter(path, lines, chunk_size, a, b, j);
    lemma_chunking_unique_not_shorter(path, lines, chunk_size, b, a, j);
}

/// Where two divisions start chunk `j` on the same line, the chunk of the
/// first does not end before that of the second.
proof fn lemma_chunking_unique_not_shorter(path: Seq<char>, lines: Seq<Seq<char>>, chunk_size: nat, a: Seq<CodeChunk>, b: Seq<CodeChunk>, j: int)
    requires
        is_chunking(path, lines, chunk_size, a),
        is_chunking(path, lines, chunk_size, b),
        0 <= j < a.len(),
        0 <= j < b.len(),
        a[j].start_line == b[j].start_line,
    ensures
        a[j].end_line >= b[j].end_line,
{
    let x = a[j];
    let y = b[j];
    assert(chunk_ok(path, lines, chunk_size, x));
    assert(chunk_ok(path, lines, chunk_size, y));
    if x.end_line < y.end_line {
        let s = x.start_line - 1;
        let e1 = x.end_line as int;
        let e2 = y.end_line as int;
        // x is not the last chunk, since it ends before the last line
        assert(j < a.len() - 1) by {
            if j == a.len() - 1 {
                assert(x == a.last());
            }
        }
        assert(a[j + 1].start_line == a[j].end_line + 1);
        assert(utf8_len(x.content@) + line_size(lines[e1]) > chunk_size);
        lemma_joined_size_step(lines, s, e1);
        lemma_joined_size_monotone(lines, s, e1 + 1, e2);
        assert(utf8_len(y.content@) <= chunk_size);
        assert(false);
    }
}

/// Where a text has no `'\r'` and ends in a newline (or is empty), putting
/// its lines back together, each followed by a newline, gives the text.
pub proof fn lemma_lines_rejoin(s: Seq<char>)
    requires
        !s.contains('\r'),
        s.len() == 0 || s.last() == '\n',
    ensures
        joined_lines(lines_of(s)) == s,
    decreases s.len(),
{
    if s.len() > 0 {
        let k = newline_index(s);
        lemma_newline_index_bound(s);
        assert(k < s.len());
        let first = s.take(k as int);
        let rest = s.skip((k + 1) as int);
        assert(!first.contains('\r')) by {
            if first.contains('\r') {
                let j = choose|j: int| 0 <= j < first.len() && first[j] == '\r';
                assert(s[j] == '\r');
            }
        };
        assert(strip_cr(first) == first) by {
            if first.len() > 0 {
                assert(first.last() == first[first.len() - 1]);
            }
        };
        assert(!rest.contains('\r')) by {
            if rest.contains('\r') {
                let j = choose|j: int| 0 <= j < rest.len() && rest[j] == '\r';
                assert(s[k + 1 + j] == '\r');
            }
        };
        if rest.len() > 0 {
            assert(rest.last() == s.last());
        }
        lemma_lines_rejoin(rest);
        assert(lines_of(s) == seq![first] + lines_of(rest));
        lemma_joined_lines_concat(seq![first], lines_of(rest));
        assert(seq![first].drop_last() == Seq::<Seq<char>>::empty());
        assert(seq![first].last() == first);
        assert(joined_lines(Seq::<Seq<char>>::empty()) == Seq::<char>::empty());
        assert(joined_lines(seq![first]) =~= line_entry(first));
        assert(s == first.push('\n') + rest);
    }
}

/// `newline_index` stays within the text and points at a newline if below its length.
pub proof fn lemma_newline_index_bound(s: Seq<char>)
    ensures
        newline_index(s) <= s.len(),
        newline_index(s) < s.len() ==> s[newline_index(s) as int] == '\n',
        forall|j: int| 0 <= j < newline_index(s) ==> s[j] != '\n',
    decreases s.len(),
{
    if s.len() > 0 && s[0] != '\n' {
        lemma_newline_index_bound(s.drop_first());
        assert forall|j: int| 0 <= j < newline_index(s) implies s[j] != '\n' by {
            if j > 0 {
                assert(s[j] == s.drop_first()[j - 1]);
            }
        }
    }
}

/// Joined lines are empty exactly when there are no lines.
proof fn lemma_joined_lines_empty(ls: Seq<Seq<char>>)
    ensures
        (joined_lines(ls).len() == 0) <==> (ls.len() == 0),
{
    if ls.len() > 0 {
        assert(line_entry(ls.last()).len() > 0);
    }
}

} // verus!
