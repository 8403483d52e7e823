use halo::storage::{
    audio_path, builtin_styles, custom_styles_path, delete_style, get_style, load_styles, models_dir,
    newest_first, note_path, preview_of, save_style,
};
use halo::types::NoteStyle;

fn style(id: &str, prompt: &str) -> NoteStyle {
    NoteStyle {
        id: id.to_string(),
        name: id.to_string(),
        description: String::new(),
        prompt: prompt.to_string(),
        builtin: false,
    }
}

fn sep() -> char {
    std::path::MAIN_SEPARATOR
}

#[test]
fn paths_inside_base() {
    assert_eq!(models_dir("/b"), format!("/b{}models", sep()));
    assert_eq!(audio_path("/b", "n1"), format!("/b{0}audio{0}n1.wav", sep()));
    assert_eq!(note_path("/b", "n1"), format!("/b{0}notes{0}n1.json", sep()));
    assert_eq!(custom_styles_path("/b"), format!("/b{}styles.json", sep()));
}

#[test]
fn builtin_styles_are_offered_first() {
    let b = builtin_styles();
    assert!(!b.is_empty());
    assert!(b.iter().all(|s| s.builtin));
    let all = load_styles(&vec![]);
    assert_eq!(all.len(), b.len());
    assert_eq!(all[0].id, b[0].id);
}

#[test]
fn saved_style_is_read_back() {
    let mut custom = Vec::new();
    let stored = save_style(&mut custom, &style("mine", "P {transcript}"));
    assert!(!stored.builtin);
    let got = get_style(&custom, "mine").unwrap();
    assert_eq!(got.prompt, "P {transcript}");
    let n = load_styles(&custom).len();
    assert_eq!(n, builtin_styles().len() + 1);
}

#[test]
fn editing_a_builtin_keeps_it_builtin_and_replaces_it() {
    let mut custom = Vec::new();
    let id = builtin_styles()[0].id.clone();
    let stored = save_style(&mut custom, &style(&id, "edited"));
    assert!(stored.builtin);
    assert_eq!(get_style(&custom, &id).unwrap().prompt, "edited");
    assert_eq!(load_styles(&custom).len(), builtin_styles().len());
}

#[test]
fn deleted_style_is_gone_but_builtins_stay() {
    let mut custom = Vec::new();
    save_style(&mut custom, &style("mine", "x"));
    delete_style(&mut custom, "mine");
    assert!(get_style(&custom, "mine").is_none());
    let id = builtin_styles()[0].id.clone();
    delete_style(&mut custom, &id);
    assert!(get_style(&custom, &id).is_some());
}

#[test]
fn preview_flattens_markdown() {
    assert_eq!(preview_of("# Title\n\n- point one\n> quote"), "Title point one quote");
    assert_eq!(preview_of(&"z".repeat(200)).chars().count(), 140);
    assert_eq!(preview_of(""), "");
}

#[test]
fn notes_are_listed_newest_first() {
    let created = vec![
        "2026-07-15T09:00:00Z".to_string(),
        "2026-07-16T09:00:00Z".to_string(),
        "2026-07-15T09:00:00Z".to_string(),
        "2026-07-14T09:00:00Z".to_string(),
    ];
    assert_eq!(newest_first(&created), vec![1, 0, 2, 3]);
    assert!(newest_first(&[]).is_empty());
}

#[test]
fn saving_again_keeps_every_style_in_place() {
    let mut custom = Vec::new();
    save_style(&mut custom, &style("a", "1"));
    save_style(&mut custom, &style("b", "2"));
    save_style(&mut custom, &style("c", "3"));
    let before: Vec<String> = load_styles(&custom).into_iter().map(|s| s.id).collect();
    save_style(&mut custom, &style("b", "changed"));
    let after = load_styles(&custom);
    let ids: Vec<String> = after.iter().map(|s| s.id.clone()).collect();
    assert_eq!(ids, before);
    let b = after.iter().find(|s| s.id == "b").unwrap();
    assert_eq!(b.prompt, "changed");
    assert_eq!(after.iter().find(|s| s.id == "a").unwrap().prompt, "1");
    assert_eq!(after.iter().find(|s| s.id == "c").unwrap().prompt, "3");
}

#[test]
fn deleting_keeps_the_others_in_order() {
    let mut custom = Vec::new();
    for id in ["a", "b", "c", "d"] {
        save_style(&mut custom, &style(id, id));
    }
    delete_style(&mut custom, "b");
    let ids: Vec<String> = load_styles(&custom).into_iter().map(|s| s.id).collect();
    let n = builtin_styles().len();
    assert_eq!(ids.len(), n + 3);
    assert_eq!(&ids[n..], &["a".to_string(), "c".to_string(), "d".to_string()]);
}
