use halo::calendar::Instant;
use halo::commands::{build_prompt, derive_title, err, note_prompt, suggested_title, title_after_generation};
use halo::types::{CalendarEvent, NoteStyle};

#[test]
fn err_stringifies() {
    assert_eq!(err("boom"), "boom");
}

#[test]
fn derive_title_from_heading() {
    assert_eq!(derive_title("# Meeting notes\n\nbody"), "Meeting notes");
}

#[test]
fn derive_title_from_first_text_line() {
    assert_eq!(derive_title("\n\nFirst real line\nmore"), "First real line");
}

#[test]
fn derive_title_empty_is_untitled() {
    assert_eq!(derive_title("   \n  "), "Untitled note");
}

#[test]
fn derive_title_truncates_to_60() {
    let long = "a".repeat(100);
    assert_eq!(derive_title(&long).len(), 60);
}

#[test]
fn derive_title_skips_markdown_marks() {
    assert_eq!(derive_title("- * > ## \n> Quote line  \n"), "Quote line");
    assert_eq!(derive_title("### ---\n"), "Untitled note");
}

#[test]
fn prompt_fills_placeholder_or_appends() {
    assert_eq!(build_prompt("Summarise: {transcript}!", "hello"), "Summarise: hello!");
    assert_eq!(build_prompt("{transcript} / {transcript}", "x"), "x / x");
    assert_eq!(build_prompt("Write notes.", "hello"), "Write notes.\n\nhello");
}

fn style(prompt: &str) -> NoteStyle {
    NoteStyle {
        id: "s".to_string(),
        name: "S".to_string(),
        description: String::new(),
        prompt: prompt.to_string(),
        builtin: false,
    }
}

#[test]
fn note_prompt_reports_missing_transcript_then_style() {
    let s = style("P {transcript}");
    assert_eq!(note_prompt("  \n", Some(&s)), Err("No transcript to summarise yet".to_string()));
    assert_eq!(note_prompt("words", None), Err("unknown note style".to_string()));
    assert_eq!(note_prompt("words", Some(&s)), Ok("P words".to_string()));
}

#[test]
fn placeholder_titles_are_replaced_after_generation() {
    assert_eq!(title_after_generation("New recording", "# Budget review\n"), "Budget review");
    assert_eq!(title_after_generation("  ", "Plan\n"), "Plan");
    assert_eq!(title_after_generation("Kept", "# Other\n"), "Kept");
}

#[test]
fn suggested_title_uses_calendar_or_placeholder() {
    let events = vec![CalendarEvent {
        title: "Standup".to_string(),
        start: "2026-07-16T09:00:00+00:00".to_string(),
        end: "2026-07-16T09:15:00+00:00".to_string(),
        provider: "Google".to_string(),
    }];
    let during = Instant { secs: 1_784_192_700, nanos: 0 };
    assert_eq!(suggested_title(&events, during), "Standup");
    let evening = Instant { secs: 1_784_232_000, nanos: 0 };
    assert_eq!(suggested_title(&events, evening), "New recording");
}
