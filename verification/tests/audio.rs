use halo::audio::{audio_devices, capture_plan, pick_input, pick_system, Source};

fn names(xs: &[Option<&str>]) -> Vec<Option<String>> {
    xs.iter().map(|x| x.map(|s| s.to_string())).collect()
}

#[test]
fn device_list_marks_the_default() {
    let ds = audio_devices(&names(&[Some("Mic A"), None, Some("Mic B")]), Some("Mic B"));
    assert_eq!(ds.len(), 2);
    assert_eq!(ds[0].id, "Mic A");
    assert!(!ds[0].is_default);
    assert_eq!(ds[1].name, "Mic B");
    assert!(ds[1].is_default);
    assert!(audio_devices(&names(&[Some("X")]), None).iter().all(|d| !d.is_default));
}

#[test]
fn input_is_found_by_name_or_defaulted() {
    let ns = names(&[Some("Mic A"), None, Some("Mic B"), Some("Mic B")]);
    assert_eq!(pick_input(&ns, Some("Mic B")), Some(2));
    assert_eq!(pick_input(&ns, Some("Missing")), None);
    assert_eq!(pick_input(&ns, None), None);
}

#[test]
fn system_device_is_found_by_pattern() {
    let ns = names(&[Some("Built-in Mic"), None, Some("Monitor of Speakers"), Some("BlackHole 2ch")]);
    assert_eq!(pick_system(&ns), Some(2));
    assert_eq!(pick_system(&names(&[Some("USB Mic")])), None);
    assert_eq!(pick_system(&names(&[Some("Stereo Mix (Realtek)")])), Some(0));
}

#[test]
fn capture_plan_orders_sources_and_primary() {
    assert_eq!(capture_plan(true, true), Ok(vec![(Source::Microphone, true), (Source::System, false)]));
    assert_eq!(capture_plan(false, true), Ok(vec![(Source::System, true)]));
    assert_eq!(capture_plan(true, false), Ok(vec![(Source::Microphone, true)]));
    assert_eq!(
        capture_plan(false, false),
        Err("No audio input available. Enable a microphone or a system-audio device.".to_string())
    );
}
