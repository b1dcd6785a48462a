# eigen_ai_avs_example

A spelling-check service for GitHub repositories. It fetches the files of a
repository, cuts them into chunks of whole lines, asks a language model
about the spelling in each chunk and reports the corrections it found as
JSON.

- `src/` is the verified library:
  - `text.rs`: characters, UTF-8 byte lengths, the lines of a text,
    extensions of paths;
  - `apis/github.rs`: the chunking of a file (`chunk_content`), the
    decoding of the files that the contents API sends, the chunking of a
    whole repository, the cache of fetched contents and the depth-first
    walk that decides what to fetch;
  - `llm.rs`: a JSON value model, the reading of the model's answer text
    (through `serde_json`) and of its corrections
    (`parse_spelling_correction`, `parse_answer`);
  - `jobs/github.rs`: the spelling job as a state machine (question for
    the next chunk, answer recorded, result) and its configuration;
  - `lib.rs`: the greeting job.
- `app/` is the program around it: the GitHub client (octocrab), the
  calls to the language model (rig), the clock and the serde copies of
  the library's types.
- `tests/` runs the library on concrete values.
