use halo::integrations::integration;
use halo::types::{default_true, Settings};

#[test]
fn default_settings() {
    let s = Settings::default();
    assert!(!s.setup_complete);
    assert!(s.capture_system_audio);
    assert!(s.capture_microphone);
    assert_eq!(s.default_style_id, "meeting");
    for id in ["markdown", "slack", "notion", "google-calendar", "apple-calendar", "microsoft-calendar"] {
        assert!(s.integrations.iter().any(|c| c.id == id), "missing {id}");
    }
}

#[test]
fn web_research_defaults_on() {
    assert!(default_true());
    assert!(Settings::default().web_research);
}

#[test]
fn only_the_clipboard_is_enabled_by_default() {
    let s = Settings::default();
    let enabled: Vec<&str> = s.integrations.iter().filter(|c| c.enabled).map(|c| c.id.as_str()).collect();
    assert_eq!(enabled, vec!["clipboard"]);
}

#[test]
fn options_are_looked_up_by_key() {
    let mut s = Settings::default();
    s.integrations[0].options.push(("folder".to_string(), "/x".to_string()));
    let cfg = integration(&s, "markdown").unwrap();
    assert_eq!(cfg.option("folder").map(|v| v.as_str()), Some("/x"));
    assert!(cfg.option("other").is_none());
    assert!(integration(&s, "nope").is_none());
}
