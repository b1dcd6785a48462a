use base64::Engine;
use eigen_ai_avs_example::apis::github::{
    chunk_content, chunk_decoded_file, chunk_repo_contents, content_ref, next_fetch_step,
    process_file_content, CodeChunk, ContentCache, ContentWalk, FetchStep, WalkAction, GitHubError, RepoContent, RepoFetchConfig,
};
use eigen_ai_avs_example::text::{contains_string, file_extension, remove_newlines, split_lines};

fn config(exts: &[&str], chunk_size: usize, ref_name: Option<&str>) -> RepoFetchConfig {
    RepoFetchConfig {
        owner: "tangle-network".to_string(),
        repo: "eigenlayer-bls-template".to_string(),
        file_extensions: exts.iter().map(|e| e.to_string()).collect(),
        chunk_size,
        ref_name: ref_name.map(|r| r.to_string()),
    }
}

fn encode(text: &[u8]) -> String {
    let plain = base64::engine::general_purpose::STANDARD.encode(text);
    // The contents API breaks its Base64 into lines of 60 characters.
    let mut wrapped = String::new();
    for (i, c) in plain.chars().enumerate() {
        if i > 0 && i % 60 == 0 {
            wrapped.push('\n');
        }
        wrapped.push(c);
    }
    wrapped.push('\n');
    wrapped
}

fn file(path: &str, text: &[u8]) -> RepoContent {
    RepoContent { path: path.to_string(), kind: "file".to_string(), content: Some(encode(text)) }
}

#[test]
fn test_chunk_content() {
    let content = "line 1\nline 2\nline 3\nline 4\nline 5\n";
    let chunks = chunk_content("test.rs", content, 12);

    // With 12-char limit and 7-char lines ("line N\n"), each line should be its own chunk
    // because adding a second line would exceed the limit (7 + 7 = 14 > 12)
    assert_eq!(chunks.len(), 5, "Should create a chunk per line due to size limit");

    // Each line should be in its own chunk
    for (i, chunk) in chunks.iter().enumerate() {
        let line_num = i + 1;
        assert_eq!(chunk.start_line, line_num);
        assert_eq!(chunk.end_line, line_num);
        assert_eq!(chunk.content, format!("line {}\n", line_num));
    }
}

#[test]
fn chunk_content_packs_lines_up_to_the_limit() {
    let chunks = chunk_content("a.txt", "ab\ncd\nef\ngh\nij", 9);
    let got: Vec<(usize, usize, &str)> =
        chunks.iter().map(|c| (c.start_line, c.end_line, c.content.as_str())).collect();
    assert_eq!(got, vec![(1, 3, "ab\ncd\nef\n"), (4, 5, "gh\nij\n")]);
    assert!(chunks.iter().all(|c| c.file_path == "a.txt"));
}

#[test]
fn chunk_content_exact_fit_stays_in_one_chunk() {
    let chunks = chunk_content("a.txt", "abc\nde\n", 7);
    assert_eq!(chunks.len(), 1);
    assert_eq!(chunks[0].content, "abc\nde\n");
    assert_eq!((chunks[0].start_line, chunks[0].end_line), (1, 2));
}

#[test]
fn chunk_content_long_line_is_a_chunk_of_its_own() {
    let chunks = chunk_content("x.rs", "a\nthis line is long\nb\nc\n", 5);
    let got: Vec<(usize, usize, &str)> =
        chunks.iter().map(|c| (c.start_line, c.end_line, c.content.as_str())).collect();
    assert_eq!(got, vec![(1, 1, "a\n"), (2, 2, "this line is long\n"), (3, 4, "b\nc\n")]);
}

#[test]
fn chunk_content_counts_bytes_not_characters() {
    // "é" takes two bytes: "éé\n" is 5 bytes, so two such lines exceed 8.
    let chunks = chunk_content("u.md", "éé\néé\n", 8);
    assert_eq!(chunks.len(), 2);
    let chunks = chunk_content("u.md", "éé\néé\n", 10);
    assert_eq!(chunks.len(), 1);
}

#[test]
fn chunk_content_of_empty_text_is_empty() {
    assert!(chunk_content("e.rs", "", 100).is_empty());
    let chunks = chunk_content("e.rs", "\n", 100);
    assert_eq!(chunks.len(), 1);
    assert_eq!(chunks[0].content, "\n");
    assert_eq!((chunks[0].start_line, chunks[0].end_line), (1, 1));
}

#[test]
fn chunk_content_drops_carriage_returns_of_line_ends() {
    let chunks = chunk_content("w.txt", "a\r\nb\rc\r\nd\r", 100);
    assert_eq!(chunks.len(), 1);
    assert_eq!(chunks[0].content, "a\nb\rc\nd\r\n");
    assert_eq!(chunks[0].end_line, 3);
}

#[test]
fn chunks_reassemble_to_the_lines() {
    let text = "fn main() {\n    println!(\"hi\");\n}\n\n// end\nlast";
    for size in [0, 1, 5, 12, 20, 1000] {
        let chunks = chunk_content("m.rs", text, size);
        let joined: String = chunks.iter().map(|c| c.content.as_str()).collect();
        let expected: String = text.lines().map(|l| format!("{}\n", l)).collect();
        assert_eq!(joined, expected);
        let mut next = 1;
        for c in &chunks {
            assert_eq!(c.start_line, next);
            assert!(c.start_line <= c.end_line);
            assert!(c.start_line == c.end_line || c.content.len() <= size);
            next = c.end_line + 1;
        }
        assert_eq!(next, text.lines().count() + 1);
    }
}

#[test]
fn split_lines_matches_std_lines() {
    for text in ["", "a", "a\n", "a\n\n", "\n", "\r\n", "a\r", "a\r\nb", "x\n\ny\r\n\r\nz", "é\nü\r\n"] {
        let ours: Vec<String> = split_lines(text);
        let std: Vec<String> = text.lines().map(|l| l.to_string()).collect();
        assert_eq!(ours, std, "lines of {:?}", text);
    }
}

#[test]
fn file_extension_matches_split_last() {
    for path in ["src/main.rs", "Cargo.toml", "README", "a.b.c", "dir.d/file", ".hidden", "ends.", ""] {
        assert_eq!(file_extension(path), path.split('.').last().unwrap(), "path {:?}", path);
    }
}

#[test]
fn remove_newlines_matches_replace() {
    for text in ["", "abc", "a\nb\n", "\n\n", "QUJD\nREVG\n"] {
        assert_eq!(remove_newlines(text), text.replace('\n', ""));
    }
}

#[test]
fn contains_string_finds_listed_text() {
    let list = vec!["rs".to_string(), "toml".to_string()];
    assert!(contains_string(&list, &"toml".to_string()));
    assert!(!contains_string(&list, &"sol".to_string()));
    assert!(!contains_string(&Vec::new(), &"rs".to_string()));
}

#[test]
fn content_ref_defaults_to_main() {
    assert_eq!(content_ref(&config(&[], 1, None)), "main");
    assert_eq!(content_ref(&config(&[], 1, Some("v1.2"))), "v1.2");
}

#[test]
fn next_fetch_step_follows_kind_and_extension() {
    let c = config(&["rs", "toml"], 10, None);
    let item = |path: &str, kind: &str| RepoContent { path: path.to_string(), kind: kind.to_string(), content: None };
    assert!(matches!(next_fetch_step(&item("src/lib.rs", "file"), &c), FetchStep::FetchFile));
    assert!(matches!(next_fetch_step(&item("README.md", "file"), &c), FetchStep::Skip));
    assert!(matches!(next_fetch_step(&item("src", "dir"), &c), FetchStep::ListDirectory));
    assert!(matches!(next_fetch_step(&item("link.rs", "symlink"), &c), FetchStep::Skip));
}

#[test]
fn process_file_content_chunks_a_listed_file() {
    let c = config(&["rs"], 12, None);
    let text = "line 1\nline 2\nline 3\n";
    let chunks = process_file_content(&file("src/a.rs", text.as_bytes()), &c).unwrap().unwrap();
    let contents: Vec<&str> = chunks.iter().map(|ch| ch.content.as_str()).collect();
    assert_eq!(contents, vec!["line 1\n", "line 2\n", "line 3\n"]);
    assert!(chunks.iter().all(|ch| ch.file_path == "src/a.rs"));
}

#[test]
fn process_file_content_leaves_out_other_items() {
    let c = config(&["rs"], 12, None);
    assert!(process_file_content(&file("notes.md", b"x\n"), &c).unwrap().is_none());
    let dir = RepoContent { path: "src.rs".to_string(), kind: "dir".to_string(), content: Some(encode(b"x")) };
    assert!(process_file_content(&dir, &c).unwrap().is_none());
    let empty = RepoContent { path: "a.rs".to_string(), kind: "file".to_string(), content: None };
    assert!(process_file_content(&empty, &c).unwrap().is_none());
}

#[test]
fn process_file_content_reports_base64_errors() {
    let c = config(&["rs"], 12, None);
    let bad = RepoContent { path: "a.rs".to_string(), kind: "file".to_string(), content: Some("ab$d\n".to_string()) };
    let expected = base64::engine::general_purpose::STANDARD.decode("ab$d").unwrap_err().to_string();
    match process_file_content(&bad, &c) {
        Err(GitHubError::DecodingError(m)) => assert_eq!(m, expected),
        _ => panic!("expected a decoding error"),
    }
}

#[test]
fn process_file_content_reports_utf8_errors() {
    let c = config(&["rs"], 12, None);
    let bytes = vec![b'a', 0xff, b'\n'];
    let expected = String::from_utf8(bytes.clone()).unwrap_err().to_string();
    match process_file_content(&file("a.rs", &bytes), &c) {
        Err(GitHubError::DecodingError(m)) => assert_eq!(m, expected),
        _ => panic!("expected a decoding error"),
    }
}

#[test]
fn chunk_decoded_file_passes_errors_on() {
    match chunk_decoded_file("a.rs", Err("broken".to_string()), 10) {
        Err(GitHubError::DecodingError(m)) => assert_eq!(m, "broken"),
        _ => panic!("expected a decoding error"),
    }
    let chunks = chunk_decoded_file("a.rs", Ok(b"x\ny\n".to_vec()), 10).unwrap();
    assert_eq!(chunks.len(), 1);
    assert_eq!(chunks[0].content, "x\ny\n");
}

#[test]
fn chunk_repo_contents_keeps_listed_files_in_order() {
    let c = config(&["rs", "toml", "sol"], 1000, None);
    let contents = vec![
        file("Cargo.toml", b"[package]\nname = \"x\"\n"),
        RepoContent { path: "src".to_string(), kind: "dir".to_string(), content: None },
        file("README.md", b"# Title\n"),
        file("src/lib.rs", b"pub fn f() {}\n"),
        file("contracts/T.sol", b"contract T {}\n"),
    ];
    let chunks: Vec<CodeChunk> = chunk_repo_contents(&contents, &c).unwrap();
    let paths: Vec<&str> = chunks.iter().map(|ch| ch.file_path.as_str()).collect();
    assert_eq!(paths, vec!["Cargo.toml", "src/lib.rs", "contracts/T.sol"]);
    for chunk in &chunks {
        assert!(chunk.content.len() <= 1000, "Chunk size exceeds limit");
        assert!(
            chunk.file_path.ends_with(".rs") || chunk.file_path.ends_with(".toml") || chunk.file_path.ends_with(".sol"),
            "Invalid file type: {}",
            chunk.file_path
        );
        assert!(!chunk.content.is_empty(), "Empty chunk content");
        assert!(chunk.start_line <= chunk.end_line, "Invalid line numbers");
    }
}

#[test]
fn chunk_repo_contents_stops_at_the_first_unreadable_file() {
    let c = config(&["rs"], 1000, None);
    let contents = vec![
        file("a.rs", b"ok\n"),
        RepoContent { path: "b.rs".to_string(), kind: "file".to_string(), content: Some("@@@@".to_string()) },
        file("c.rs", &[0xc3]),
    ];
    let expected = base64::engine::general_purpose::STANDARD.decode("@@@@").unwrap_err().to_string();
    match chunk_repo_contents(&contents, &c) {
        Err(GitHubError::DecodingError(m)) => assert_eq!(m, expected),
        _ => panic!("expected a decoding error"),
    }
}

#[test]
fn content_cache_gives_back_what_was_stored() {
    let mut cache = ContentCache::new();
    let rs = config(&["rs"], 10, None);
    assert!(cache.lookup(&rs).is_none());
    cache.store(&rs, vec![file("a.rs", b"x\n")]);
    let other = RepoFetchConfig { owner: "o".to_string(), ..config(&["rs"], 10, None) };
    cache.store(&other, vec![]);
    let got = cache.lookup(&rs).unwrap();
    assert_eq!(got.len(), 1);
    assert_eq!(got[0].path, "a.rs");
    cache.store(&rs, vec![file("b.rs", b"y\n"), file("c.rs", b"z\n")]);
    let got = cache.lookup(&rs).unwrap();
    assert_eq!(got.iter().map(|c| c.path.as_str()).collect::<Vec<_>>(), vec!["b.rs", "c.rs"]);
    assert!(cache.lookup(&other).unwrap().is_empty());
    // The chunk size does not take part in the key: the contents are the same.
    assert_eq!(cache.lookup(&config(&["rs"], 99, None)).unwrap().len(), 2);
}

#[test]
fn content_walk_goes_depth_first() {
    let c = config(&["rs"], 10, None);
    let item = |path: &str, kind: &str| RepoContent { path: path.to_string(), kind: kind.to_string(), content: None };
    let mut walk = ContentWalk::new(vec![item("README.md", "file"), item("src", "dir"), item("z.rs", "file")]);
    assert!(matches!(walk.next_action(&c), WalkAction::ListDirectory(p) if p == "src"));
    walk.directory_listed(vec![item("src/lib.rs", "file"), item("src/link", "symlink"), item("src/sub", "dir")]);
    assert!(matches!(walk.next_action(&c), WalkAction::FetchFile(p) if p == "src/lib.rs"));
    walk.file_fetched(vec![file("src/lib.rs", b"pub fn f() {}\n")]);
    assert!(matches!(walk.next_action(&c), WalkAction::ListDirectory(p) if p == "src/sub"));
    walk.directory_listed(vec![]);
    assert!(matches!(walk.next_action(&c), WalkAction::FetchFile(p) if p == "z.rs"));
    walk.file_fetched(vec![]);
    assert!(matches!(walk.next_action(&c), WalkAction::Done));
    assert!(matches!(walk.next_action(&c), WalkAction::Done));
    let found = walk.into_found();
    assert_eq!(found.len(), 1);
    assert_eq!(found[0].path, "src/lib.rs");
}

#[test]
fn content_cache_tells_extensions_and_branches_apart() {
    let mut cache = ContentCache::new();
    let rs = config(&["rs"], 10, Some("dev"));
    cache.store(&rs, vec![file("a.rs", b"x\n")]);
    assert!(cache.lookup(&config(&["toml"], 10, Some("dev"))).is_none());
    assert!(cache.lookup(&config(&["rs", "toml"], 10, Some("dev"))).is_none());
    assert!(cache.lookup(&config(&["rs"], 10, None)).is_none());
    assert!(cache.lookup(&config(&["rs"], 10, Some("main"))).is_none());
    assert_eq!(cache.lookup(&config(&["rs"], 10, Some("dev"))).unwrap()[0].path, "a.rs");
}

#[test]
fn larger_chunk_size_never_gives_more_chunks() {
    let text = "alpha\nbe\ngamma delta\n\nepsilon\nz\n";
    let mut last = usize::MAX;
    for size in 0..40 {
        let n = chunk_content("g.txt", text, size).len();
        assert!(n <= last, "size {}", size);
        last = n;
    }
}
