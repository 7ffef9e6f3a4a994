//! Behaviour of the two parsers and the rendered reader block, on
//! concrete inputs.
use memories::parse::{parse_memories, parse_memory_candidates};
use memories::reader::{build_memories_section, merge_memory_lists, merged_memories_section};

#[test]
fn parse_memories_prefers_bullets() {
    let text = "# Memories\n- Prefer short diffs\n* Run tests\nextra line";
    let parsed = parse_memories(text);
    assert_eq!(parsed, vec!["Prefer short diffs", "Run tests"]);
}

#[test]
fn parse_memories_falls_back_to_lines() {
    let text = "# Memories\nPrefer short diffs\nRun tests";
    let parsed = parse_memories(text);
    assert_eq!(parsed, vec!["Prefer short diffs", "Run tests"]);
}

#[test]
fn parse_memories_of_empty_text_is_empty() {
    assert_eq!(parse_memories(""), Vec::<String>::new());
    assert_eq!(parse_memories("  \n\t\n# heading only\n"), Vec::<String>::new());
}

#[test]
fn parse_memories_trims_and_keeps_order() {
    let text = "  - first note  \n\n*  second note \n- first note";
    assert_eq!(
        parse_memories(text),
        vec!["first note", "second note", "first note"]
    );
}

#[test]
fn parse_memory_candidates_skips_empty_and_sentinel() {
    let parsed = parse_memory_candidates("NO_MEMORIES");
    assert_eq!(parsed, Vec::<String>::new());
}

#[test]
fn parse_memory_candidates_sentinel_is_case_insensitive() {
    assert_eq!(parse_memory_candidates("no_memories"), Vec::<String>::new());
    assert_eq!(parse_memory_candidates("  No_Memories  "), Vec::<String>::new());
    assert_eq!(parse_memory_candidates("   \n \t "), Vec::<String>::new());
}

#[test]
fn parse_memory_candidates_dedups_case_insensitively() {
    let parsed = parse_memory_candidates("- Apple\n* apple\nAPPLE\nBanana\nNO_MEMORIES\nbanana");
    assert_eq!(parsed, vec!["Apple", "Banana"]);
}

#[test]
fn parse_memory_candidates_strips_bullet_markers() {
    let parsed = parse_memory_candidates("- Uses tabs\n* Likes rust\nplain line");
    assert_eq!(parsed, vec!["Uses tabs", "Likes rust", "plain line"]);
}

#[test]
fn build_memories_section_renders_header_and_bullets() {
    let entries = vec!["Prefer rustfmt".to_string(), "Run tests".to_string()];
    let section = build_memories_section(&entries).expect("section");
    assert_eq!(
        section,
        "## Memories\n- Prefer rustfmt\n- Run tests".to_string()
    );
}

#[test]
fn build_memories_section_is_none_for_no_entries() {
    assert_eq!(build_memories_section(&Vec::new()), None);
}

#[test]
fn merge_memory_lists_dedups_across_stores() {
    let lists = vec![
        vec!["Run tests".to_string(), "Prefer tabs".to_string()],
        vec!["run TESTS".to_string(), "  ".to_string(), "Ship early".to_string()],
    ];
    let merged = merge_memory_lists(&lists);
    assert_eq!(merged, vec!["Run tests", "Prefer tabs", "Ship early"]);
}

#[test]
fn merged_memories_section_is_none_for_empty_stores() {
    let lists: Vec<Vec<String>> = vec![Vec::new(), vec!["   ".to_string()]];
    assert_eq!(merged_memories_section(&lists), None);
}

#[test]
fn merged_memories_section_renders_in_merge_order() {
    let lists = vec![vec!["One".to_string()], vec!["Two".to_string(), "one".to_string()]];
    let section = merged_memories_section(&lists).expect("section");
    assert_eq!(section, "## Memories\n- One\n- Two");
}
