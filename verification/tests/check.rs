use grammar_check::providers::endpoint::openai_endpoint;
use grammar_check::commands::check::{
    check_result, chunks_for_check, get_api_key_for_provider, is_blank, select_provider, CheckError,
    OutputFormat, MAX_UNCHUNKED_CHARS,
    ProviderChoice,
};
use grammar_check::models::config::{
    CloudConfig, CloudProvider, Configuration, LocalConfig, OperatingMode,
};
use grammar_check::models::edit::{Edit, EditCategory};
use grammar_check::output::human::{describe_edit, issue_word};
use grammar_check::services::chunker::{chunk_text, ChunkingOptions};

fn edit(start: usize, end: usize, replacement: &str) -> Edit {
    Edit {
        start_index: start,
        end_index: end,
        replacement: replacement.to_string(),
        category: EditCategory::Grammar,
        explanation: None,
    }
}

#[test]
fn blank_text() {
    assert!(is_blank(""));
    assert!(is_blank(" \n\t\r\n"));
    assert!(!is_blank("  x "));
    assert_eq!(OutputFormat::default(), OutputFormat::Human);
}

#[test]
fn provider_selection() {
    let local = Configuration {
        mode: OperatingMode::Local,
        local: Some(LocalConfig { ollama_host: "http://h:1".to_string(), model_name: "m".to_string() }),
        cloud: None,
    };
    match select_provider(&local) {
        Ok(ProviderChoice::Ollama { host, model }) => {
            assert_eq!(host, "http://h:1");
            assert_eq!(model, "m");
        },
        other => panic!("unexpected {:?}", other),
    }
    let bare = Configuration { mode: OperatingMode::Local, local: None, cloud: None };
    match select_provider(&bare) {
        Ok(ProviderChoice::Ollama { host, model }) => {
            assert_eq!(host, "http://localhost:11434");
            assert_eq!(model, "llama3");
        },
        other => panic!("unexpected {:?}", other),
    }
    let cloud = Configuration {
        mode: OperatingMode::Cloud,
        local: None,
        cloud: Some(CloudConfig { provider: CloudProvider::OpenAI, model_name: None, base_url: Some("https://p/v1".to_string()) }),
    };
    match select_provider(&cloud) {
        Ok(ProviderChoice::Cloud { provider, model, base_url }) => {
            assert_eq!(provider, CloudProvider::OpenAI);
            assert_eq!(model, "gpt-4o-mini");
            assert_eq!(base_url.as_deref(), Some("https://p/v1"));
        },
        other => panic!("unexpected {:?}", other),
    }
    let missing = Configuration { mode: OperatingMode::Cloud, local: None, cloud: None };
    assert!(matches!(select_provider(&missing), Err(CheckError::MissingCloudConfig)));
}

#[test]
fn api_key_lookup() {
    let cloud = CloudConfig { provider: CloudProvider::Gemini, model_name: None, base_url: None };
    assert_eq!(get_api_key_for_provider(&cloud, Some("k".to_string())), Ok("k".to_string()));
    assert_eq!(
        get_api_key_for_provider(&cloud, None),
        Err(CheckError::MissingApiKey(CloudProvider::Gemini))
    );
}

#[test]
fn single_chunk_result_keeps_edits() {
    let text = "He dont like it".to_string();
    let chunks = chunk_text(&text, &ChunkingOptions::default());
    let r = check_result(
        text.clone(),
        &chunks,
        vec![vec![edit(3, 7, "doesn't")]],
        OperatingMode::Local,
        "ollama".to_string(),
        "llama3".to_string(),
        12,
    );
    assert_eq!(r.original_text, text);
    assert_eq!(r.edits.len(), 1);
    assert_eq!(r.edits[0].replacement, "doesn't");
    assert_eq!(r.metadata.chunks_processed, None);
    assert_eq!(r.metadata.processing_time_ms, 12);
    assert_eq!(r.metadata.provider, "ollama");
    assert_eq!(r.metadata.mode, OperatingMode::Local);
}

#[test]
fn several_chunks_are_merged() {
    let text = "One two three. Four five six. Seven eight nine. Ten eleven twelve.".to_string();
    let chunks = chunk_text(&text, &ChunkingOptions { target_size: 10, overlap_size: 3 });
    let r = check_result(
        text.clone(),
        &chunks,
        vec![vec![edit(4, 7, "TWO")], vec![], vec![edit(4, 9, "SEVEN")], vec![]],
        OperatingMode::Cloud,
        "openai".to_string(),
        "gpt-4o-mini".to_string(),
        5,
    );
    assert_eq!(r.metadata.chunks_processed, Some(4));
    let got: Vec<(usize, usize)> = r.edits.iter().map(|e| (e.start_index, e.end_index)).collect();
    assert_eq!(got, vec![(4, 7), (30, 35)]);
}

#[test]
fn edit_display_with_context() {
    let text = "He dont like it";
    let d = describe_edit(&edit(3, 7, "doesn't"), text);
    assert_eq!(d.original, "dont");
    assert_eq!(d.before, "He ");
    assert_eq!(d.after, " like it");
    assert!(!d.ellipsis_before);
    assert!(!d.ellipsis_after);
    assert_eq!(d.column, 3);

    let long = "a".repeat(70) + "XY" + &"b".repeat(70);
    let d = describe_edit(&edit(70, 72, "Z"), &long);
    assert_eq!(d.original, "XY");
    assert_eq!(d.before, "a".repeat(60));
    assert_eq!(d.after, "b".repeat(60));
    assert!(d.ellipsis_before);
    assert!(d.ellipsis_after);
    assert_eq!(d.column, 70);
}

#[test]
fn edit_display_clamps_and_marks_invalid_ranges() {
    let d = describe_edit(&edit(2, 50, "x"), "abcd");
    assert_eq!(d.original, "cd");
    assert_eq!(d.column, 2);
    let d = describe_edit(&edit(4, 5, "x"), "Hi \u{1F600}!");
    assert_eq!(d.original, "[invalid range]");
    assert_eq!(d.before, "");
    assert_eq!(d.after, "!");
    assert_eq!(issue_word(1), "issue");
    assert_eq!(issue_word(0), "issues");
    assert_eq!(issue_word(3), "issues");
}

#[test]
fn texts_up_to_the_limit_are_one_chunk() {
    let text = "Short sentence here. ".repeat(2_000);
    assert!(text.chars().count() > 4_300 && text.chars().count() <= MAX_UNCHUNKED_CHARS);
    let chunks = chunks_for_check(&text);
    assert_eq!(chunks.len(), 1);
    assert_eq!(chunks[0].text, text);
    assert_eq!(chunks[0].primary_range, 0..text.len());
    let r = check_result(text.clone(), &chunks, vec![vec![]], OperatingMode::Local, "ollama".to_string(), "llama3".to_string(), 1);
    assert_eq!(r.metadata.chunks_processed, None);

    let long = "Short sentence here. ".repeat(3_000);
    assert!(long.chars().count() > MAX_UNCHUNKED_CHARS);
    let chunks = chunks_for_check(&long);
    assert!(chunks.len() > 1);
    assert_eq!(chunks.len(), chunk_text(&long, &ChunkingOptions::default()).len());
}

#[test]
fn openai_endpoints() {
    assert_eq!(openai_endpoint(None), "https://api.openai.com/v1/chat/completions");
    assert_eq!(openai_endpoint(Some("https://p.example/v1")), "https://p.example/v1/chat/completions");
}
