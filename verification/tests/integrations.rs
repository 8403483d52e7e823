use halo::integrations::{
    clipboard_text, database_choice, expand_home, failure, markdown_document, markdown_file_name,
    markdown_folder, markdown_target, notion_page_body, notion_plan, notion_search_body,
    obsidian_folder, page_link, paragraphs, parse_databases, pick_database, sanitize, saved,
    slack_body, slack_post, title_property, tokenize, webhook_url,
};
use halo::json::Json;
use halo::types::Settings;

fn s(x: &str) -> String {
    x.to_string()
}

fn obj(members: Vec<(&str, Json)>) -> Json {
    Json::Object(members.into_iter().map(|(k, v)| (k.to_string(), v)).collect())
}

fn set_opt(settings: &mut Settings, id: &str, key: &str, val: &str) {
    let cfg = settings.integrations.iter_mut().find(|c| c.id == id).unwrap();
    cfg.enabled = true;
    cfg.options.retain(|(k, _)| k != key);
    cfg.options.push((key.to_string(), val.to_string()));
}

fn sep() -> char {
    std::path::MAIN_SEPARATOR
}

#[test]
fn sanitize_strips_unsafe_chars() {
    assert_eq!(sanitize("Team: sync / weekly"), "Team--sync---weekly");
    assert_eq!(sanitize("   "), "note");
    assert_eq!(sanitize("Clean Name"), "Clean-Name");
}

#[test]
fn sanitize_keeps_unicode_letters() {
    assert_eq!(sanitize("Café Ünter"), "Café-Ünter");
}

#[test]
fn expand_home_handles_tilde_and_plain() {
    assert_eq!(expand_home("/abs/path", "/home/u"), "/abs/path");
    assert_eq!(expand_home("~/notes", "/home/u"), format!("/home/u{}notes", sep()));
}

#[test]
fn markdown_document_has_title_and_body() {
    let doc = markdown_document("My Meeting", "2026-07-16T09:30:00Z", "## Summary\nWe shipped it.");
    assert!(doc.contains("# My Meeting"));
    assert!(doc.contains("We shipped it."));
}

#[test]
fn markdown_document_defaults_untitled() {
    let doc = markdown_document("", "2026-07-16T09:30:00Z", "x");
    assert!(doc.starts_with("# Untitled"));
}

#[test]
fn markdown_document_layout() {
    assert_eq!(markdown_document("T", "C", "body"), "# T\n\n_C_\n\nbody\n");
}

#[test]
fn markdown_file_name_uses_title_and_date() {
    assert_eq!(markdown_file_name("My Meeting", "2026-07-16T09:30:00Z"), "My-Meeting-2026-07-16.md");
    assert_eq!(markdown_file_name("", "undated"), "note-undated.md");
    assert_eq!(
        markdown_target("/out", "A", "2026-01-02T00:00:00Z"),
        format!("/out{}A-2026-01-02.md", sep())
    );
}

#[test]
fn markdown_export_falls_back_to_base_exports() {
    let settings = Settings::default();
    let folder = markdown_folder(&settings, "/base", "/home/u");
    assert_eq!(folder, format!("/base{}exports", sep()));
    let mut configured = Settings::default();
    set_opt(&mut configured, "markdown", "folder", "/vault/notes");
    assert_eq!(markdown_folder(&configured, "/base", "/home/u"), "/vault/notes");
}

#[test]
fn obsidian_requires_folder() {
    let settings = Settings::default();
    assert_eq!(
        obsidian_folder(&settings, "/home/u"),
        Err(s("Set your Obsidian vault folder in Settings"))
    );
    let mut configured = Settings::default();
    set_opt(&mut configured, "obsidian", "folder", "~/Vault");
    assert_eq!(obsidian_folder(&configured, "/home/u"), Ok(format!("/home/u{}Vault", sep())));
}

#[test]
fn clipboard_formats() {
    assert_eq!(clipboard_text("T", "C", "body", "plain"), "T\n\nbody");
    assert_eq!(clipboard_text("T", "C", "body", "markdown"), "# T\n\n_C_\n\nbody\n");
}

#[test]
fn export_results() {
    let ok = saved(s("/x/a.md"));
    assert!(ok.ok);
    assert_eq!(ok.location.as_deref(), Some("/x/a.md"));
    assert_eq!(ok.message, "Saved to /x/a.md");
    let bad = failure(s("boom"));
    assert!(!bad.ok);
    assert!(bad.location.is_none());
    assert_eq!(bad.message, "boom");
}

#[test]
fn slack_requires_config() {
    assert_eq!(
        slack_post(&Settings::default(), "T", "c"),
        Err(s("Add your Slack incoming webhook URL in Settings"))
    );
    let mut none = Settings::default();
    none.integrations.clear();
    assert_eq!(slack_post(&none, "T", "c"), Err(s("Slack not configured")));
}

#[test]
fn slack_message_text() {
    let mut settings = Settings::default();
    set_opt(&mut settings, "slack", "webhook", "https://hooks/x");
    assert_eq!(
        slack_post(&settings, "My Meeting", "body"),
        Ok((s("https://hooks/x"), s("*My Meeting*\n\nbody")))
    );
    assert_eq!(slack_post(&settings, "", "body"), Ok((s("https://hooks/x"), s("*Untitled*\n\nbody"))));
}

#[test]
fn webhook_requires_config() {
    assert_eq!(webhook_url(&Settings::default()), Err(s("Add a webhook URL in Settings")));
    let mut none = Settings::default();
    none.integrations.clear();
    assert_eq!(webhook_url(&none), Err(s("Webhook not configured")));
    let mut ok = Settings::default();
    set_opt(&mut ok, "webhook", "url", "https://example/hook");
    assert_eq!(webhook_url(&ok), Ok(s("https://example/hook")));
}

#[test]
fn tokenize_and_pick_database() {
    let dbs = vec![
        (s("db-lectures"), s("Biology Lectures")),
        (s("db-personal"), s("Personal Journal")),
    ];
    assert_eq!(pick_database(&dbs, "Biology 101 — Cells").as_deref(), Some("db-lectures"));
    assert_eq!(pick_database(&dbs, "Grocery run").as_deref(), Some("db-lectures"));
    assert_eq!(pick_database(&[], "anything"), None);
}

#[test]
fn tokenize_lowercases_splits_and_dedups() {
    assert_eq!(tokenize("Biology 101 — Cells, cells! Of"), vec![s("biology"), s("101"), s("cells")]);
    assert!(tokenize("a an").is_empty());
}

#[test]
fn pick_database_prefers_the_best_overlap() {
    let dbs = vec![
        (s("one"), s("Weekly Team")),
        (s("two"), s("Weekly Team Meeting")),
        (s("three"), s("Team Meeting Weekly")),
    ];
    assert_eq!(pick_database(&dbs, "weekly team meeting").as_deref(), Some("two"));
}

#[test]
fn parse_databases_filters_non_databases() {
    let v = obj(vec![(
        "results",
        Json::Array(vec![
            obj(vec![
                ("object", Json::Str(s("database"))),
                ("id", Json::Str(s("d1"))),
                ("title", Json::Array(vec![obj(vec![("plain_text", Json::Str(s("Notes")))])])),
            ]),
            obj(vec![("object", Json::Str(s("page"))), ("id", Json::Str(s("p1")))]),
            obj(vec![("object", Json::Str(s("database"))), ("id", Json::Str(s("d2")))]),
        ]),
    )]);
    assert_eq!(parse_databases(&v), vec![(s("d1"), s("Notes")), (s("d2"), s(""))]);
    assert!(parse_databases(&obj(vec![])).is_empty());
}

#[test]
fn notion_requires_config() {
    let mut none = Settings::default();
    none.integrations.clear();
    assert_eq!(notion_plan(&none).err(), Some(s("Notion not configured")));
    assert_eq!(notion_plan(&Settings::default()).err(), Some(s("Add your Notion token in Settings")));
    let mut no_db = Settings::default();
    set_opt(&mut no_db, "notion", "token", "t");
    assert_eq!(notion_plan(&no_db).err(), Some(s("Add a Notion database ID in Settings")));
}

#[test]
fn notion_plan_reads_options() {
    let mut st = Settings::default();
    set_opt(&mut st, "notion", "token", "secret_t");
    set_opt(&mut st, "notion", "database", "db1");
    let p = notion_plan(&st).unwrap();
    assert_eq!(p.token, "secret_t");
    assert_eq!(p.base, "https://api.notion.com");
    assert_eq!(p.database.as_deref(), Some("db1"));
    assert!(!p.route_auto);
    let mut auto = Settings::default();
    set_opt(&mut auto, "notion", "token", "t");
    set_opt(&mut auto, "notion", "route", "auto");
    set_opt(&mut auto, "notion", "base", "http://mock");
    let p = notion_plan(&auto).unwrap();
    assert!(p.route_auto);
    assert!(p.database.is_none());
    assert_eq!(p.base, "http://mock");
}

#[test]
fn database_choice_falls_back_to_configured() {
    assert_eq!(database_choice(Some(s("found")), Some(s("conf"))), Ok(s("found")));
    assert_eq!(database_choice(None, Some(s("conf"))), Ok(s("conf")));
    assert_eq!(database_choice(None, None), Err(s("No matching Notion database found")));
}

#[test]
fn title_property_detected_or_defaulted() {
    let db = obj(vec![(
        "properties",
        obj(vec![
            ("Date", obj(vec![("type", Json::Str(s("date")))])),
            ("Title", obj(vec![("type", Json::Str(s("title")))])),
        ]),
    )]);
    assert_eq!(title_property(&db), "Title");
    assert_eq!(title_property(&obj(vec![("properties", obj(vec![]))])), "Name");
}

#[test]
fn paragraphs_skip_blank_lines_and_cut_long_ones() {
    assert_eq!(paragraphs("## Summary\n\n  \nWe shipped it."), vec![s("## Summary"), s("We shipped it.")]);
    let long = "x".repeat(2500);
    assert_eq!(paragraphs(&long)[0].chars().count(), 2000);
    let many: String = (0..150).map(|i| format!("line {i}\n")).collect();
    let ps = paragraphs(&many);
    assert_eq!(ps.len(), 100);
    assert_eq!(ps[99], "line 99");
}

#[test]
fn page_link_reads_url() {
    assert_eq!(page_link(&obj(vec![("url", Json::Str(s("https://notion.so/p")))])), Some(s("https://notion.so/p")));
    assert_eq!(page_link(&obj(vec![])), None);
}

#[test]
fn markdown_export_writes_to_configured_folder() {
    let mut settings = Settings::default();
    set_opt(&mut settings, "markdown", "folder", "/notes/out");
    let folder = markdown_folder(&settings, "/base", "/home/u");
    assert_eq!(folder, "/notes/out");
    let file = markdown_target(&folder, "My Meeting", "2026-07-16T09:30:00Z");
    assert_eq!(file, format!("/notes/out{}My-Meeting-2026-07-16.md", sep()));
    let doc = markdown_document("My Meeting", "2026-07-16T09:30:00Z", "We shipped it.");
    assert!(doc.contains("# My Meeting"));
}

#[test]
fn blank_folder_options_are_ignored() {
    let mut settings = Settings::default();
    set_opt(&mut settings, "markdown", "folder", "   ");
    assert_eq!(markdown_folder(&settings, "/base", "/h"), format!("/base{}exports", sep()));
    set_opt(&mut settings, "obsidian", "folder", "");
    assert!(obsidian_folder(&settings, "/h").is_err());
}

#[test]
fn sanitized_names_are_canonical() {
    for name in ["Team: sync / weekly", "   ", " a\tb ", "Café Ünter", "--x--", "\u{3000}ä\u{3000}"] {
        let once = sanitize(name);
        assert!(!once.is_empty());
        assert!(once.chars().all(|c| c.is_alphanumeric() || c == '-'));
        assert_eq!(sanitize(&once), once);
    }
}

/// A compact text form of a JSON value, members in their order.
fn render(j: &Json) -> String {
    match j {
        Json::Null => s("null"),
        Json::Bool(b) => b.to_string(),
        Json::Number(n) => n.clone(),
        Json::Str(x) => format!("{x:?}"),
        Json::Array(a) => format!("[{}]", a.iter().map(render).collect::<Vec<_>>().join(",")),
        Json::Object(ms) => format!(
            "{{{}}}",
            ms.iter().map(|(k, v)| format!("{k:?}:{}", render(v))).collect::<Vec<_>>().join(",")
        ),
    }
}

#[test]
fn notion_search_body_asks_for_databases() {
    assert_eq!(
        render(&notion_search_body("Weekly sync")),
        r#"{"query":"Weekly sync","filter":{"property":"object","value":"database"},"page_size":20}"#
    );
}

#[test]
fn notion_page_body_files_title_and_paragraphs() {
    let body = notion_page_body("db1", "Name", "Standup", "first\n\n  \nsecond");
    assert_eq!(
        render(&body),
        [
            r#"{"parent":{"database_id":"db1"},"#,
            r#""properties":{"Name":{"title":[{"text":{"content":"Standup"}}]}},"#,
            r#""children":["#,
            r#"{"object":"block","type":"paragraph","paragraph":{"rich_text":[{"type":"text","text":{"content":"first"}}]}},"#,
            r#"{"object":"block","type":"paragraph","paragraph":{"rich_text":[{"type":"text","text":{"content":"second"}}]}}"#,
            r#"]}"#,
        ]
        .concat()
    );
    let empty = notion_page_body("db1", "Title", "T", "");
    assert_eq!(
        render(&empty),
        r#"{"parent":{"database_id":"db1"},"properties":{"Title":{"title":[{"text":{"content":"T"}}]}},"children":[]}"#
    );
}

#[test]
fn slack_body_carries_the_text() {
    assert_eq!(render(&slack_body("*Note*\nhi")), r#"{"text":"*Note*\nhi"}"#);
}
