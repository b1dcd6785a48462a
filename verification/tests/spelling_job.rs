use eigen_ai_avs_example::apis::github::CodeChunk;
use eigen_ai_avs_example::jobs::github::{
    pre_processor_params, spelling_fetch_config, spelling_prompt, spelling_task, SpellingJob,
};

fn chunk(path: &str, content: &str, start: usize, end: usize) -> CodeChunk {
    CodeChunk { file_path: path.to_string(), content: content.to_string(), start_line: start, end_line: end }
}

fn correction(line: u64) -> String {
    format!(
        r#"{{"line_number": {}, "original_text": "exmaple", "corrected_text": "example", "start_column": 0, "end_column": 7, "confidence": 0.95}}"#,
        line
    )
}

fn answer(corrections: Vec<String>) -> String {
    format!(r#"{{"corrections": [{}]}}"#, corrections.join(", "))
}

#[test]
fn spelling_prompt_is_the_question_with_the_content() {
    let content = "fn mian() {}\n";
    let expected = format!(
        "Please analyze this code/text for spelling errors. For each error:\n\
            1. Consider if it's actually a spelling error (not a variable name, command, or technical term)\n\
            2. Provide the correction only if you're highly confident it's an error\n\
            3. Maintain any special formatting or code syntax\n\n\
            Content to check:\n{}\n
            Write the output in JSON format with an object like this:\n
            {{
                \"file_path\": \"path/to/file.rs\",
                \"start_line\": 1,
                \"end_line\": 10,
                \"corrections\": [
                    {{
                        \"line_number\": 1,
                        \"original_text\": \"exmaple\",
                        \"corrected_text\": \"example\",
                        \"start_column\": 0,
                        \"end_column\": 7,
                        \"confidence\": 0.95
                    }}
                ]
            }}",
        content
    );
    assert_eq!(spelling_prompt(content), expected);
}

#[test]
fn spelling_task_asks_the_spelling_model() {
    let task = spelling_task(&chunk("a.rs", "x\n", 1, 1));
    assert_eq!(task.model, "gpt-4o-mini");
    assert_eq!(task.system_prompt, "You are a helpful assistant that checks for spelling errors in code.");
    assert_eq!(task.content, spelling_prompt("x\n"));
}

#[test]
fn spelling_fetch_config_reads_rust_markdown_and_text() {
    let c = spelling_fetch_config("o".to_string(), "r".to_string(), Some("dev".to_string()));
    assert_eq!(c.owner, "o");
    assert_eq!(c.repo, "r");
    assert_eq!(c.file_extensions, vec!["rs".to_string(), "md".to_string(), "txt".to_string()]);
    assert_eq!(c.chunk_size, 5000);
    assert_eq!(c.ref_name.as_deref(), Some("dev"));
}

#[test]
fn pre_processor_params_are_empty() {
    let (owner, repo, ref_name) = pre_processor_params();
    assert!(owner.is_empty() && repo.is_empty() && ref_name.is_none());
}

#[test]
fn spelling_job_keeps_only_answers_with_corrections() {
    let chunks = vec![chunk("a.rs", "a\n", 1, 1), chunk("b.md", "b\n", 1, 3), chunk("c.txt", "c\n", 2, 2), chunk("d.rs", "d\n", 5, 6)];
    let mut job = SpellingJob::new("o".to_string(), "r".to_string(), None, chunks);

    let task = job.next_task().unwrap();
    assert_eq!(task.content, spelling_prompt("a\n"));
    job.record_answer(&answer(vec![correction(1)]));

    assert_eq!(job.next_task().unwrap().content, spelling_prompt("b\n"));
    job.record_answer(&answer(vec![]));

    job.next_task().unwrap();
    job.record_answer("Sorry, I cannot answer in JSON.");

    job.next_task().unwrap();
    job.record_answer(&answer(vec![correction(5), correction(6)]));

    assert!(job.next_task().is_none());
    let result = job.finish("2025-01-01T00:00:00+00:00".to_string());
    assert_eq!(result.repository.owner, "o");
    assert_eq!(result.repository.repo, "r");
    assert_eq!(result.repository.ref_name, "main");
    assert_eq!(result.metadata.total_files_checked, 4);
    assert_eq!(result.metadata.timestamp, "2025-01-01T00:00:00+00:00");
    let kept: Vec<(&str, usize, usize, usize)> = result
        .corrections
        .iter()
        .map(|c| (c.file_path.as_str(), c.start_line, c.end_line, c.corrections.len()))
        .collect();
    assert_eq!(kept, vec![("a.rs", 1, 1, 1), ("d.rs", 5, 6, 2)]);
}

#[test]
fn spelling_job_reports_the_named_branch() {
    let job = SpellingJob::new("o".to_string(), "r".to_string(), Some("feature".to_string()), Vec::new());
    assert!(job.next_task().is_none());
    let result = job.finish("t".to_string());
    assert_eq!(result.repository.ref_name, "feature");
    assert!(result.corrections.is_empty());
    assert_eq!(result.metadata.total_files_checked, 0);
}
