use halo::json::Json;
use halo::research::{
    add_finding, encode_title, extract_queries, parse_search_titles, parse_summary, render_section,
    strip_section, summary_request,
};
use halo::types::ResearchFinding;

fn s(x: &str) -> String {
    x.to_string()
}

fn obj(members: Vec<(&str, Json)>) -> Json {
    Json::Object(members.into_iter().map(|(k, v)| (k.to_string(), v)).collect())
}

fn finding(title: &str, summary: &str, url: &str) -> ResearchFinding {
    ResearchFinding { title: s(title), summary: s(summary), url: s(url), source: s("Wikipedia") }
}

#[test]
fn extract_queries_uses_title_and_headings_skipping_generic() {
    let content = "## Summary\ntext\n## Photosynthesis\nmore\n### Calvin Cycle\n## Photosynthesis\n";
    let qs = extract_queries("Biology 101", content, 5);
    assert_eq!(qs, vec!["Biology 101", "Photosynthesis", "Calvin Cycle"]);
}

#[test]
fn extract_queries_ignores_placeholder_titles_and_truncates() {
    let qs = extract_queries("New recording", "## Alpha\n## Beta\n## Gamma", 2);
    assert_eq!(qs, vec!["Alpha", "Beta"]);
    assert!(extract_queries("Untitled note", "", 3).is_empty());
    assert!(extract_queries("", "## x", 3).is_empty());
}

#[test]
fn extract_queries_dedups_ignoring_ascii_case() {
    let qs = extract_queries("  cell biology ", "## Cell Biology\n### KEY POINTS\n  ## Mitosis  \n", 10);
    assert_eq!(qs, vec!["cell biology", "Mitosis"]);
}

#[test]
fn encode_title_escapes_unsafe_chars() {
    assert_eq!(encode_title("Calvin Cycle"), "Calvin_Cycle");
    assert_eq!(encode_title("C/C++"), "C%2FC%2B%2B");
}

#[test]
fn encode_title_escapes_each_utf8_byte() {
    assert_eq!(encode_title("Café"), "Caf%C3%A9");
    assert_eq!(encode_title("a-b.c~d"), "a-b.c~d");
}

#[test]
fn parse_search_titles_reads_array_or_empty() {
    let v = obj(vec![(
        "query",
        obj(vec![(
            "search",
            Json::Array(vec![
                obj(vec![("title", Json::Str(s("A")))]),
                obj(vec![("title", Json::Str(s("B")))]),
                obj(vec![]),
            ]),
        )]),
    )]);
    assert_eq!(parse_search_titles(&v), vec!["A", "B"]);
    assert!(parse_search_titles(&obj(vec![])).is_empty());
}

#[test]
fn parse_summary_builds_finding_and_skips_empty() {
    let v = obj(vec![
        ("title", Json::Str(s("Photosynthesis"))),
        ("extract", Json::Str(s("  A process used by plants.  "))),
        (
            "content_urls",
            obj(vec![(
                "desktop",
                obj(vec![("page", Json::Str(s("https://en.wikipedia.org/wiki/Photosynthesis")))]),
            )]),
        ),
    ]);
    let f = parse_summary(&v).unwrap();
    assert_eq!(f.title, "Photosynthesis");
    assert_eq!(f.summary, "A process used by plants.");
    assert_eq!(f.url, "https://en.wikipedia.org/wiki/Photosynthesis");
    assert_eq!(f.source, "Wikipedia");

    assert!(parse_summary(&obj(vec![("title", Json::Str(s("X"))), ("extract", Json::Str(s("")))])).is_none());
    assert!(parse_summary(&obj(vec![("extract", Json::Str(s("y")))])).is_none());
}

#[test]
fn parse_summary_falls_back_to_mobile_url() {
    let v = obj(vec![
        ("title", Json::Str(s("T"))),
        ("extract", Json::Str(s("e"))),
        ("content_urls", obj(vec![("mobile", obj(vec![("page", Json::Str(s("https://m/wiki/T")))]))])),
    ]);
    assert_eq!(parse_summary(&v).unwrap().url, "https://m/wiki/T");
    let v2 = obj(vec![("title", Json::Str(s("T"))), ("extract", Json::Str(s("e")))]);
    assert_eq!(parse_summary(&v2).unwrap().url, "");
}

#[test]
fn parse_summary_cuts_extract_to_600_chars() {
    let long = "é".repeat(700);
    let v = obj(vec![("title", Json::Str(s("T"))), ("extract", Json::Str(long))]);
    assert_eq!(parse_summary(&v).unwrap().summary.chars().count(), 600);
}

#[test]
fn render_and_strip_section_are_inverse() {
    assert!(render_section(&vec![]).is_empty());
    let findings = vec![finding("A", "sa", "http://a"), finding("B", "sb", "")];
    let section = render_section(&findings);
    assert!(section.contains("### A"));
    assert!(section.contains("[Read more →](http://a)"));
    assert!(!section.contains("[Read more →]()"));

    let base = "# Notes\n\nbody";
    let combined = format!("{base}{section}");
    assert_eq!(strip_section(&combined), base);
    assert_eq!(strip_section("plain\n\n"), "plain");
}

#[test]
fn render_section_layout() {
    let section = render_section(&vec![finding("A", "sa", "http://a")]);
    assert_eq!(
        section,
        "\n\n## Background & Research\n\n_Researched automatically from Wikipedia._\n\n### A\nsa\n\n[Read more →](http://a)\n"
    );
}

#[test]
fn stripping_twice_is_stripping_once() {
    let text = "Intro  \n## Background & Research\nold\n## Background & Research\nolder";
    let once = strip_section(text);
    assert_eq!(once, "Intro");
    assert_eq!(strip_section(&once), once);
}

#[test]
fn findings_are_deduplicated_by_title() {
    let mut fs = Vec::new();
    add_finding(&mut fs, finding("Cells", "one", "u1"));
    add_finding(&mut fs, finding("Cells", "two", "u2"));
    add_finding(&mut fs, finding("DNA", "three", ""));
    assert_eq!(fs.len(), 2);
    assert_eq!(fs[0].summary, "one");
    assert_eq!(fs[1].title, "DNA");
}

#[test]
fn research_again_replaces_the_section() {
    let note = "# Notes\n\nbody\n\n## Background & Research\n\nold findings\n";
    let first = strip_section(note);
    assert!(!first.contains("## Background & Research"));
    let again = format!("{first}{}", render_section(&vec![finding("X", "sx", "")]));
    assert_eq!(strip_section(&again), first);
    assert_eq!(first, "# Notes\n\nbody");
}

#[test]
fn summary_request_follows_the_first_hit() {
    let v = obj(vec![(
        "query",
        obj(vec![(
            "search",
            Json::Array(vec![obj(vec![]), obj(vec![("title", Json::Str(s("Café au lait")))])]),
        )]),
    )]);
    assert_eq!(
        summary_request("https://w", &v).unwrap(),
        "https://w/api/rest_v1/page/summary/Caf%C3%A9_au_lait"
    );
    assert!(summary_request("https://w", &obj(vec![])).is_none());
}
