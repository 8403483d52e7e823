use chrono::{TimeZone, Utc};
use halo::calendar::{
    calendar_feeds, current_or_next, parse_dt, parse_ics, scan_ics, select_event, sort_by_start,
    to_https, unescape, unfold, Instant, Span,
};
use halo::types::{CalendarEvent, Settings};

const SAMPLE: &str = "BEGIN:VCALENDAR\r\nBEGIN:VEVENT\r\nSUMMARY:Weekly sync\r\nDTSTART:20260716T140000Z\r\nDTEND:20260716T143000Z\r\nEND:VEVENT\r\nBEGIN:VEVENT\r\nSUMMARY:Design\\, review\r\nDTSTART:20260716T150000Z\r\nDTEND:20260716T160000Z\r\nEND:VEVENT\r\nEND:VCALENDAR";

fn at(h: u32, m: u32) -> Instant {
    let t = Utc.with_ymd_and_hms(2026, 7, 16, h, m, 0).unwrap();
    Instant { secs: t.timestamp(), nanos: 0 }
}

fn event(title: &str, start: &str, end: &str) -> CalendarEvent {
    CalendarEvent {
        title: title.to_string(),
        start: start.to_string(),
        end: end.to_string(),
        provider: "P".to_string(),
    }
}

#[test]
fn parses_events_and_unescapes() {
    let events = parse_ics(SAMPLE, "Google");
    assert_eq!(events.len(), 2);
    assert_eq!(events[0].title, "Weekly sync");
    assert_eq!(events[1].title, "Design, review");
    assert_eq!(events[0].provider, "Google");
}

#[test]
fn finds_current_event() {
    let events = parse_ics(SAMPLE, "Google");
    assert_eq!(current_or_next(&events, at(14, 15)).unwrap().title, "Weekly sync");
}

#[test]
fn finds_next_event_within_window() {
    let events = parse_ics(SAMPLE, "Google");
    assert_eq!(current_or_next(&events, at(14, 50)).unwrap().title, "Design, review");
}

#[test]
fn no_event_when_nothing_matches() {
    let events = parse_ics(SAMPLE, "Google");
    assert!(current_or_next(&events, at(20, 0)).is_none());
    assert!(current_or_next(&[], at(20, 0)).is_none());
}

#[test]
fn unfolds_continuation_lines() {
    let folded = "SUMMARY:Long\r\n  title\r\nDTSTART:x";
    let lines = unfold(folded);
    assert_eq!(lines[0], "SUMMARY:Long title");
    assert_eq!(lines[1], "DTSTART:x");
}

#[test]
fn unescapes_ics_text() {
    assert_eq!(unescape("a\\,b\\;c\\nd\\\\e"), "a,b;c\nd\\e");
}

#[test]
fn parses_datetime_forms() {
    assert!(parse_dt("20260716T140000Z").is_some());
    assert!(parse_dt("20260716").is_some());
    assert!(parse_dt("20260716T140000").is_some());
    assert!(parse_dt("garbage").is_none());
}

#[test]
fn missing_dtend_defaults_to_start() {
    let ics = "BEGIN:VEVENT\r\nSUMMARY:One\r\nDTSTART:20260716T140000Z\r\nEND:VEVENT";
    let events = parse_ics(ics, "Apple");
    assert_eq!(events.len(), 1);
    assert_eq!(events[0].start, events[0].end);
}

#[test]
fn event_without_start_is_skipped() {
    let ics = "BEGIN:VEVENT\r\nSUMMARY:No start\r\nEND:VEVENT";
    assert!(parse_ics(ics, "Apple").is_empty());
}

#[test]
fn defaults_untitled_summary() {
    let ics = "BEGIN:VEVENT\r\nDTSTART:20260716T140000Z\r\nEND:VEVENT";
    assert_eq!(parse_ics(ics, "Apple")[0].title, "Untitled event");
}

#[test]
fn webcal_becomes_https() {
    assert_eq!(to_https("webcal://host/cal.ics"), "https://host/cal.ics");
    assert_eq!(to_https("https://host/cal.ics"), "https://host/cal.ics");
}

#[test]
fn current_or_next_ignores_unparseable_dates() {
    let bad = vec![event("x", "not-a-date", "nope")];
    assert!(current_or_next(&bad, at(14, 0)).is_none());
}

#[test]
fn parse_ics_skips_unknown_props_and_colonless_lines() {
    let ics = "BEGIN:VEVENT\r\nSUMMARY:Meeting\r\nLOCATION:HQ\r\nNOCOLONLINE\r\nDTSTART:20260716T140000Z\r\nEND:VEVENT";
    let events = parse_ics(ics, "Apple");
    assert_eq!(events.len(), 1);
    assert_eq!(events[0].title, "Meeting");
}

#[test]
fn utc_events_are_written_in_rfc3339() {
    let events = parse_ics(SAMPLE, "Google");
    assert_eq!(events[0].start, "2026-07-16T14:00:00+00:00");
    assert_eq!(events[0].end, "2026-07-16T14:30:00+00:00");
}

#[test]
fn date_only_values_start_at_midnight_utc() {
    let ics = "BEGIN:VEVENT\r\nSUMMARY:Holiday\r\nDTSTART;VALUE=DATE:20260716\r\nEND:VEVENT";
    let events = parse_ics(ics, "Apple");
    assert_eq!(events.len(), 1);
    assert_eq!(events[0].start, "2026-07-16T00:00:00+00:00");
}

#[test]
fn scan_keeps_raw_values_and_parameters_are_ignored() {
    let ics = "BEGIN:VEVENT\r\nSUMMARY;LANGUAGE=en:Talk\r\nDTSTART;TZID=Europe/Paris:20260716T140000\r\nEND:VEVENT";
    let raws = scan_ics(ics);
    assert_eq!(raws.len(), 1);
    assert_eq!(raws[0].title, "Talk");
    assert_eq!(raws[0].start.as_deref(), Some("20260716T140000"));
    assert!(raws[0].end.is_none());
}

#[test]
fn properties_outside_events_are_ignored() {
    let ics = "SUMMARY:Stray\r\nDTSTART:20260716T140000Z\r\nEND:VEVENT";
    assert!(parse_ics(ics, "Apple").is_empty());
}

#[test]
fn event_under_way_wins_over_an_upcoming_one() {
    let events = vec![
        event("soon", "2026-07-16T14:10:00+00:00", "2026-07-16T15:00:00+00:00"),
        event("now", "2026-07-16T13:00:00+00:00", "2026-07-16T14:30:00+00:00"),
    ];
    assert_eq!(current_or_next(&events, at(14, 0)).unwrap().title, "now");
}

#[test]
fn nearest_upcoming_event_is_chosen_and_ties_keep_the_first() {
    let events = vec![
        event("later", "2026-07-16T14:12:00+00:00", "2026-07-16T15:00:00+00:00"),
        event("first", "2026-07-16T14:05:00+00:00", "2026-07-16T15:00:00+00:00"),
        event("second", "2026-07-16T14:05:00+00:00", "2026-07-16T15:00:00+00:00"),
    ];
    assert_eq!(current_or_next(&events, at(14, 0)).unwrap().title, "first");
}

#[test]
fn events_beyond_fifteen_minutes_are_not_upcoming() {
    let events = vec![event("far", "2026-07-16T14:16:00+00:00", "2026-07-16T15:00:00+00:00")];
    assert!(current_or_next(&events, at(14, 0)).is_none());
    let half = vec![event("half", "2026-07-16T14:15:30+00:00", "2026-07-16T15:00:00+00:00")];
    assert!(current_or_next(&half, at(14, 0)).is_none());
    let near = vec![event("near", "2026-07-16T14:15:00+00:00", "2026-07-16T15:00:00+00:00")];
    assert_eq!(current_or_next(&near, at(14, 0)).unwrap().title, "near");
}

#[test]
fn select_event_on_given_spans() {
    let now = Instant { secs: 1000, nanos: 0 };
    let at = |secs: i64| Some(Instant { secs, nanos: 0 });
    let spans = vec![
        Span { start: at(1300), end: None },
        Span { start: at(1200), end: None },
        Span { start: at(1901), end: None },
    ];
    assert_eq!(select_event(&spans, now), Some(1));
    let with_current = vec![
        Span { start: at(1200), end: None },
        Span { start: at(900), end: Some(Instant { secs: 1000, nanos: 1 }) },
    ];
    assert_eq!(select_event(&with_current, now), Some(1));
    let ended = vec![Span { start: at(900), end: at(1000) }];
    assert_eq!(select_event(&ended, now), None);
    let edge = vec![Span { start: at(1900), end: None }];
    assert_eq!(select_event(&edge, now), Some(0));
    let past_edge = vec![Span { start: Some(Instant { secs: 1900, nanos: 1 }), end: None }];
    assert_eq!(select_event(&past_edge, now), None);
}

#[test]
fn feeds_of_enabled_calendars_only() {
    let mut settings = Settings::default();
    for cfg in settings.integrations.iter_mut() {
        if cfg.id == "google-calendar" {
            cfg.enabled = true;
            cfg.options.push(("ics".to_string(), "webcal://host/cal.ics".to_string()));
        }
        if cfg.id == "apple-calendar" {
            cfg.options.push(("ics".to_string(), "https://apple/cal.ics".to_string()));
        }
        if cfg.id == "microsoft-calendar" {
            cfg.enabled = true;
            cfg.options.push(("ics".to_string(), "   ".to_string()));
        }
    }
    let feeds = calendar_feeds(&settings);
    assert_eq!(feeds, vec![("https://host/cal.ics".to_string(), "Google".to_string())]);
    assert!(calendar_feeds(&Settings::default()).is_empty());
}

#[test]
fn events_are_sorted_by_start_keeping_ties_in_order() {
    let events = vec![
        event("c", "2026-07-16T15:00:00+00:00", "x"),
        event("a", "2026-07-16T14:00:00+00:00", "y"),
        event("b", "2026-07-16T15:00:00+00:00", "z"),
    ];
    let sorted = sort_by_start(events);
    let titles: Vec<&str> = sorted.iter().map(|e| e.title.as_str()).collect();
    assert_eq!(titles, vec!["a", "c", "b"]);
}

#[test]
fn utc_feeds_read_alike() {
    let a = parse_ics(SAMPLE, "Google");
    let b = parse_ics(SAMPLE, "Google");
    let starts = |es: &Vec<CalendarEvent>| es.iter().map(|e| (e.start.clone(), e.end.clone())).collect::<Vec<_>>();
    assert_eq!(starts(&a), starts(&b));
}
