use halo::transcribe::{joined_text, keep_segments, language_or_default, progress_digits};

fn s(x: &str) -> String {
    x.to_string()
}

#[test]
fn progress_lines_are_read() {
    assert_eq!(progress_digits("whisper_print_progress_callback: progress =  42%"), Some(s("42")));
    assert_eq!(progress_digits("progress =100"), Some(s("100")));
    assert_eq!(progress_digits("progress = x"), None);
    assert_eq!(progress_digits("no marker here"), None);
}

#[test]
fn blank_segments_are_dropped_and_text_joined() {
    let kept = keep_segments(&[s("  Hello "), s("   "), s("world")]);
    assert_eq!(kept, vec![(0, s("Hello")), (2, s("world"))]);
    assert_eq!(joined_text(&kept), "Hello world");
    assert_eq!(joined_text(&[]), "");
}

#[test]
fn language_defaults_to_english() {
    assert_eq!(language_or_default(""), "en");
    assert_eq!(language_or_default("de"), "de");
}
