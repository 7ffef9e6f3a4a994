//! The extraction pipeline end to end on plain values: input collection,
//! the stream state machine, candidate capping, store reads with the byte
//! window, append planning, and path resolution.
use memories::extract::{
    build_extraction_input, candidates_for_write, collect_user_input_texts, should_record_memories,
    Extraction, ExtractionState, SessionSource, StreamAction, StreamEvent, UserInput,
};
use memories::paths::{memory_paths, memory_write_path, repo_memories_path};
use memories::store::{read_memories_data, render_append_block, select_new_memories};

#[test]
fn collect_user_input_texts_ignores_non_text() {
    let inputs = vec![
        UserInput::Text {
            text: "Hello".to_string(),
        },
        UserInput::Image {
            image_url: "data:image/png;base64,abc".to_string(),
        },
        UserInput::Text {
            text: "  ".to_string(),
        },
    ];
    let texts = collect_user_input_texts(&inputs);
    assert_eq!(texts, vec!["Hello".to_string()]);
}

#[test]
fn collect_user_input_texts_preserves_order() {
    let inputs = vec![
        UserInput::Text { text: "first".to_string() },
        UserInput::Text { text: "\t\n".to_string() },
        UserInput::Text { text: " second ".to_string() },
    ];
    assert_eq!(
        collect_user_input_texts(&inputs),
        vec!["first".to_string(), " second ".to_string()]
    );
}

#[test]
fn build_extraction_input_joins_with_blank_lines() {
    let inputs = vec![
        UserInput::Text { text: "alpha".to_string() },
        UserInput::Text { text: "beta".to_string() },
    ];
    assert_eq!(build_extraction_input(&inputs), Some("alpha\n\nbeta".to_string()));
}

#[test]
fn build_extraction_input_is_none_without_text() {
    let inputs = vec![UserInput::Image { image_url: "u".to_string() }];
    assert_eq!(build_extraction_input(&inputs), None);
    assert_eq!(build_extraction_input(&Vec::new()), None);
}

#[test]
fn build_extraction_input_respects_byte_budget() {
    let long = "a".repeat(3000);
    let inputs = vec![UserInput::Text { text: long }];
    let combined = build_extraction_input(&inputs).expect("text");
    assert_eq!(combined, "a".repeat(2000));
}

#[test]
fn build_extraction_input_cuts_at_character_boundary() {
    let text = format!("{}{}", "a".repeat(1999), "€€");
    let inputs = vec![UserInput::Text { text }];
    let combined = build_extraction_input(&inputs).expect("text");
    assert_eq!(combined, "a".repeat(1999));
    assert!(combined.len() <= 2000);
}

#[test]
fn should_record_memories_excludes_automation_sources() {
    assert!(should_record_memories(&SessionSource::Cli));
    assert!(should_record_memories(&SessionSource::VsCode));
    assert!(should_record_memories(&SessionSource::Mcp));
    assert!(!should_record_memories(&SessionSource::Exec));
    assert!(!should_record_memories(&SessionSource::SubAgent));
}

#[test]
fn extraction_prefers_finished_items_over_deltas() {
    let mut ex = Extraction::new();
    assert_eq!(ex.on_event(StreamEvent::TextDelta { delta: "raw ".to_string() }), StreamAction::Continue);
    assert_eq!(ex.on_event(StreamEvent::TextDelta { delta: "deltas".to_string() }), StreamAction::Continue);
    assert_eq!(
        ex.on_event(StreamEvent::MessageDone { text: Some("- Item one".to_string()) }),
        StreamAction::Continue
    );
    assert_eq!(
        ex.on_event(StreamEvent::MessageDone { text: Some("- Item two".to_string()) }),
        StreamAction::Continue
    );
    assert_eq!(ex.on_event(StreamEvent::RateLimits), StreamAction::ForwardRateLimits);
    assert_eq!(ex.on_event(StreamEvent::Completed), StreamAction::ForwardUsageAndFinish);
    assert_eq!(ex.state, ExtractionState::Completed);
    assert_eq!(ex.raw_output(), "- Item one\n- Item two");
}

#[test]
fn extraction_falls_back_to_streamed_text() {
    let mut ex = Extraction::new();
    ex.on_event(StreamEvent::TextDelta { delta: "- Likes ".to_string() })
        ;
    ex.on_event(StreamEvent::TextDelta { delta: "tea".to_string() });
    ex.on_event(StreamEvent::MessageDone { text: None });
    ex.on_event(StreamEvent::OtherItemDone);
    ex.on_event(StreamEvent::Other);
    ex.on_event(StreamEvent::Completed);
    assert_eq!(ex.raw_output(), "- Likes tea");
}

#[test]
fn extraction_abort_marks_the_run_dead() {
    let mut ex = Extraction::new();
    ex.on_event(StreamEvent::TextDelta { delta: "partial".to_string() });
    ex.abort();
    assert_eq!(ex.state, ExtractionState::Aborted);
}

#[test]
fn candidate_batch_is_capped_at_six() {
    let raw = "- n1\n- n2\n- n3\n- n4\n- n5\n- n6\n- n7\n- n8\n- n9";
    let capped = candidates_for_write(raw);
    assert_eq!(capped, vec!["n1", "n2", "n3", "n4", "n5", "n6"]);
}

#[test]
fn store_over_the_byte_cap_reads_only_its_tail() {
    let mut data = "x".repeat(9000).into_bytes();
    data.extend_from_slice(b"\n- kept note\n");
    let notes = read_memories_data(&data);
    assert_eq!(notes, vec!["kept note"]);

    let mut dropped = b"- early note\n".to_vec();
    dropped.extend_from_slice("#".repeat(8192).as_bytes());
    assert_eq!(read_memories_data(&dropped), Vec::<String>::new());
}

#[test]
fn store_read_decodes_bytes_lossily() {
    let notes = read_memories_data(&b"- caf\xc3\xa9\n".to_vec());
    assert_eq!(notes, vec!["café"]);
    let lossy = read_memories_data(&b"- a\xffb\n".to_vec());
    assert_eq!(lossy, vec!["a\u{fffd}b"]);
}

#[test]
fn select_new_memories_skips_stored_and_batch_duplicates() {
    let existing = vec!["Likes tea".to_string()];
    let candidates = vec![
        "likes TEA".to_string(),
        " New fact ".to_string(),
        "new fact".to_string(),
        "   ".to_string(),
        "Second fact".to_string(),
    ];
    let additions = select_new_memories(&existing, &candidates);
    assert_eq!(additions, vec!["New fact", "Second fact"]);
}

#[test]
fn render_append_block_writes_header_only_for_fresh_store() {
    let additions = vec!["One".to_string(), "Two".to_string()];
    assert_eq!(render_append_block(&additions, true), "# Memories\n- One\n- Two\n");
    assert_eq!(render_append_block(&additions, false), "\n- One\n- Two\n");
}

#[test]
fn extraction_round_trip_writes_once_then_dedups() {
    let store: Vec<u8> = Vec::new();
    let existing = read_memories_data(&store);
    assert_eq!(existing, Vec::<String>::new());

    let mut ex = Extraction::new();
    ex.on_event(StreamEvent::MessageDone {
        text: Some("- Likes dark themes\n- Uses tabs".to_string()),
    });
    ex.on_event(StreamEvent::Completed);
    let candidates = candidates_for_write(&ex.raw_output());
    let additions = select_new_memories(&existing, &candidates);
    let block = render_append_block(&additions, true);
    assert_eq!(block, "# Memories\n- Likes dark themes\n- Uses tabs\n");

    let rewritten = block.clone().into_bytes();
    let now_stored = read_memories_data(&rewritten);
    assert_eq!(now_stored, vec!["Likes dark themes", "Uses tabs"]);
    let again = select_new_memories(&now_stored, &candidates);
    assert_eq!(again, Vec::<String>::new());
}

#[test]
fn memory_paths_lists_global_then_project() {
    let root = Some("/repo".to_string());
    let paths = memory_paths("/home/user/.codex", &root);
    assert_eq!(
        paths,
        vec![
            "/home/user/.codex/memories.md".to_string(),
            "/repo/.codex/memories.md".to_string(),
        ]
    );
    assert_eq!(memory_paths("/home/user/.codex", &None), vec![
        "/home/user/.codex/memories.md".to_string(),
    ]);
}

#[test]
fn memory_paths_drops_a_project_path_equal_to_the_global() {
    let root = Some("/r".to_string());
    let paths = memory_paths("/r/.codex", &root);
    assert_eq!(paths, vec!["/r/.codex/memories.md".to_string()]);
}

#[test]
fn memory_write_path_prefers_the_project_store() {
    assert_eq!(
        memory_write_path("/home/u/.codex", &Some("/repo".to_string())),
        "/repo/.codex/memories.md"
    );
    assert_eq!(memory_write_path("/home/u/.codex", &None), "/home/u/.codex/memories.md");
    assert_eq!(
        repo_memories_path(&Some("/repo".to_string())),
        Some("/repo/.codex/memories.md".to_string())
    );
    assert_eq!(repo_memories_path(&None), None);
}
