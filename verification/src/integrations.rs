//! Exporting notes: where a note goes for each integration, the documents
//! and messages sent there, and the choice of a Notion database.
use vstd::prelude::*;
use crate::json::{
    is_str, items, json_str, members, object_with, single, str_at, str_field, str_object, value_at,
    Json,
};
use crate::paths::{join_path, joined_path};
use crate::storage::take_chars;
use crate::text::{
    alphanumeric, char_views, is_alphanumeric, lines, lines_of, push_range, push_str,
    replace_all, replace_chars, starts_with, starts_with_str, str_eq, string_of, string_of_all,
    string_views, to_chars, to_lowercase, lowercase_of, trim, trim_range, utf8_len_at_least,
    is_ws, lead_len, lemma_lead_len_bounds, lemma_lead_len_is, lemma_trail_len_bounds,
    lemma_trail_len_is, trim_start, trim_end, ws,
};
use crate::types::{integration_index, lemma_integration_index, option_value, ExportResult, IntegrationConfig, Settings};

verus! {

// ---------------------------------------------------------------------------
// Options
// ---------------------------------------------------------------------------

/// The option `key` of the first integration with id `id`.
pub open spec fn integration_option(ints: Seq<IntegrationConfig>, id: Seq<char>, key: Seq<char>) -> Option<Seq<char>> {
    match integration_index(ints, id) {
        Some(i) => option_value(ints[i].options@, key),
        None => None,
    }
}

/// The option, unless it is blank.
pub open spec fn non_blank(o: Option<Seq<char>>) -> Option<Seq<char>> {
    match o {
        Some(v) => if trim(v).len() > 0 {
            Some(v)
        } else {
            None
        },
        None => None,
    }
}

fn is_blank(s: &String) -> (r: bool)
    ensures
        r == (trim(s@).len() == 0),
{
    let v = to_chars(s.as_str());
    let (a, b) = trim_range(&v, 0, v.len());
    assert(v@.subrange(0, v@.len() as int) =~= s@);
    a == b
}

/// The first integration with the given id.
pub fn integration<'a>(settings: &'a Settings, id: &str) -> (r: Option<&'a IntegrationConfig>)
    ensures
        match integration_index(settings.integrations@, id@) {
            Some(i) => r == Some(&settings.integrations@[i]),
            None => r is None,
        },
{
    let mut i: usize = 0;
    while i < settings.integrations.len()
        invariant
            i <= settings.integrations@.len(),
            forall|j: int| 0 <= j < i ==> (#[trigger] settings.integrations@[j]).id@ != id@,
        decreases settings.integrations@.len() - i,
    {
        if str_eq(settings.integrations[i].id.as_str(), id) {
            proof {
                lemma_integration_index(settings.integrations@, id@, i as int);
            }
            return Some(&settings.integrations[i]);
        }
        i = i + 1;
    }
    proof {
        lemma_integration_index(settings.integrations@, id@, i as int);
    }
    None
}

fn integration_option_of<'a>(settings: &'a Settings, id: &str, key: &str) -> (r: Option<&'a String>)
    ensures
        match r {
            Some(v) => integration_option(settings.integrations@, id@, key@) == Some(v@),
            None => integration_option(settings.integrations@, id@, key@) is None,
        },
{
    match integration(settings, id) {
        Some(c) => c.option(key),
        None => None,
    }
}

// ---------------------------------------------------------------------------
// Paths and file names
// ---------------------------------------------------------------------------

/// A path with a leading `~/` resolved against `home`.
pub open spec fn expanded(path: Seq<char>, home: Seq<char>) -> Seq<char> {
    if starts_with(path, "~/"@) {
        joined_path(home, path.skip(2))
    } else {
        path
    }
}

/// Resolves a leading `~/` against the user's home directory `home`.
pub fn expand_home(path: &str, home: &str) -> (r: String)
    ensures
        r@ == expanded(path@, home@),
{
    let v = to_chars(path);
    proof {
        reveal_strlit("~/");
    }
    assert(v@.subrange(0, v@.len() as int) =~= v@);
    if starts_with_str(&v, 0, v.len(), "~/") {
        let rest = string_of(&v, 2, v.len());
        assert(rest@ =~= path@.skip(2));
        join_path(home, rest.as_str())
    } else {
        String::from_str(path)
    }
}

/// A character kept in a file name: alphanumeric, a space or a hyphen.
pub open spec fn name_char(c: char) -> char {
    if alphanumeric(c) || c == ' ' || c == '-' {
        c
    } else {
        '-'
    }
}

/// A note title made safe as a file name: other characters become hyphens,
/// the ends are trimmed and spaces become hyphens; "note" when nothing is
/// left.
pub open spec fn sanitized(name: Seq<char>) -> Seq<char> {
    let t = replace_all(trim(name.map_values(|c: char| name_char(c))), " "@, "-"@);
    if t.len() == 0 {
        "note"@
    } else {
        t
    }
}

/// Makes a note title safe as a file name.
pub fn sanitize(name: &str) -> (r: String)
    ensures
        r@ == sanitized(name@),
{
    let v = to_chars(name);
    let mut cleaned: Vec<char> = Vec::new();
    let mut i: usize = 0;
    while i < v.len()
        invariant
            0 <= i <= v@.len(),
            cleaned@ == v@.take(i as int).map_values(|c: char| name_char(c)),
        decreases v@.len() - i,
    {
        let c = v[i];
        let k = if is_alphanumeric(c) || c == ' ' || c == '-' {
            c
        } else {
            '-'
        };
        cleaned.push(k);
        assert(v@.take(i + 1).map_values(|c: char| name_char(c)) =~= v@.take(i as int).map_values(
            |c: char| name_char(c),
        ).push(name_char(c)));
        i = i + 1;
    }
    assert(v@.take(v@.len() as int) =~= name@);
    let (a, b) = trim_range(&cleaned, 0, cleaned.len());
    assert(cleaned@.subrange(0, cleaned@.len() as int) =~= cleaned@);
    let mut t: Vec<char> = Vec::new();
    push_range(&mut t, &cleaned, a, b);
    proof {
        reveal_strlit(" ");
        reveal_strlit("-");
    }
    let sp = to_chars(" ");
    let hy = to_chars("-");
    let replaced = replace_chars(&t, &sp, &hy);
    if replaced.len() == 0 {
        String::from_str("note")
    } else {
        string_of_all(&replaced)
    }
}

/// The date part of a creation timestamp: what comes before the first `T`.
pub open spec fn date_part(created_at: Seq<char>) -> Seq<char> {
    match crate::text::find_char(created_at, 'T') {
        Some(k) => created_at.take(k),
        None => created_at,
    }
}

/// The file name a note is exported under.
pub open spec fn markdown_file_name_spec(title: Seq<char>, created_at: Seq<char>) -> Seq<char> {
    sanitized(title) + "-"@ + date_part(created_at) + ".md"@
}

/// The file name a note is exported under: its sanitized title, then its
/// creation date.
pub fn markdown_file_name(title: &str, created_at: &str) -> (r: String)
    ensures
        r@ == markdown_file_name_spec(title@, created_at@),
{
    let s = sanitize(title);
    let c = to_chars(created_at);
    let end = match crate::text::find_char_in(&c, 0, c.len(), 'T') {
        Some(k) => k,
        None => c.len(),
    };
    assert(c@.subrange(0, c@.len() as int) =~= c@);
    let mut out: Vec<char> = Vec::new();
    push_str(&mut out, s.as_str());
    push_str(&mut out, "-");
    push_range(&mut out, &c, 0, end);
    push_str(&mut out, ".md");
    assert(c@.subrange(0, end as int) =~= date_part(created_at@));
    string_of_all(&out)
}

/// The file a note is exported to inside `folder`.
pub fn markdown_target(folder: &str, title: &str, created_at: &str) -> (r: String)
    ensures
        r@ == joined_path(folder@, markdown_file_name_spec(title@, created_at@)),
{
    let name = markdown_file_name(title, created_at);
    join_path(folder, name.as_str())
}

/// The folder Markdown exports go to: the configured one (with `~/`
/// resolved) unless it is blank, else `exports` inside `base`.
pub open spec fn markdown_folder_spec(ints: Seq<IntegrationConfig>, base: Seq<char>, home: Seq<char>) -> Seq<char> {
    match non_blank(integration_option(ints, "markdown"@, "folder"@)) {
        Some(f) => expanded(f, home),
        None => joined_path(base, "exports"@),
    }
}

/// The folder Markdown exports go to.
pub fn markdown_folder(settings: &Settings, base: &str, home: &str) -> (r: String)
    ensures
        r@ == markdown_folder_spec(settings.integrations@, base@, home@),
{
    match integration_option_of(settings, "markdown", "folder") {
        Some(f) => if !is_blank(f) {
            expand_home(f.as_str(), home)
        } else {
            join_path(base, "exports")
        },
        None => join_path(base, "exports"),
    }
}

/// The folder of the Obsidian vault, or the message asking for one.
pub open spec fn obsidian_folder_spec(ints: Seq<IntegrationConfig>, home: Seq<char>) -> Result<Seq<char>, Seq<char>> {
    match non_blank(integration_option(ints, "obsidian"@, "folder"@)) {
        Some(f) => Ok(expanded(f, home)),
        None => Err("Set your Obsidian vault folder in Settings"@),
    }
}

/// A result as values.
pub open spec fn result_view(r: Result<String, String>) -> Result<Seq<char>, Seq<char>> {
    match r {
        Ok(s) => Ok(s@),
        Err(e) => Err(e@),
    }
}

/// The folder of the Obsidian vault.
pub fn obsidian_folder(settings: &Settings, home: &str) -> (r: Result<String, String>)
    ensures
        result_view(r) == obsidian_folder_spec(settings.integrations@, home@),
{
    match integration_option_of(settings, "obsidian", "folder") {
        Some(f) => if !is_blank(f) {
            Ok(expand_home(f.as_str(), home))
        } else {
            Err(String::from_str("Set your Obsidian vault folder in Settings"))
        },
        None => Err(String::from_str("Set your Obsidian vault folder in Settings")),
    }
}

// ---------------------------------------------------------------------------
// Documents and messages
// ---------------------------------------------------------------------------

/// The title shown for a note: "Untitled" when it has none.
pub open spec fn shown_title(title: Seq<char>) -> Seq<char> {
    if title.len() == 0 {
        "Untitled"@
    } else {
        title
    }
}

/// The Markdown document of a note.
pub open spec fn markdown_document_spec(title: Seq<char>, created_at: Seq<char>, content: Seq<char>) -> Seq<char> {
    "# "@ + shown_title(title) + "\n\n_"@ + created_at + "_\n\n"@ + content + "\n"@
}

/// The Markdown document of a note: title heading, creation time in
/// italics, then the content.
pub fn markdown_document(title: &str, created_at: &str, content: &str) -> (r: String)
    ensures
        r@ == markdown_document_spec(title@, created_at@, content@),
{
    let mut out: Vec<char> = Vec::new();
    push_str(&mut out, "# ");
    if title.is_empty() {
        push_str(&mut out, "Untitled");
    } else {
        push_str(&mut out, title);
    }
    push_str(&mut out, "\n\n_");
    push_str(&mut out, created_at);
    push_str(&mut out, "_\n\n");
    push_str(&mut out, content);
    push_str(&mut out, "\n");
    string_of_all(&out)
}

/// The text copied to the clipboard: title and content for the "plain"
/// format, the Markdown document otherwise.
pub open spec fn clipboard_text_spec(title: Seq<char>, created_at: Seq<char>, content: Seq<char>, format: Seq<char>) -> Seq<char> {
    if format == "plain"@ {
        title + "\n\n"@ + content
    } else {
        markdown_document_spec(title, created_at, content)
    }
}

/// The text copied to the clipboard.
pub fn clipboard_text(title: &str, created_at: &str, content: &str, format: &str) -> (r: String)
    ensures
        r@ == clipboard_text_spec(title@, created_at@, content@, format@),
{
    if str_eq(format, "plain") {
        let mut out: Vec<char> = Vec::new();
        push_str(&mut out, title);
        push_str(&mut out, "\n\n");
        push_str(&mut out, content);
        string_of_all(&out)
    } else {
        markdown_document(title, created_at, content)
    }
}

/// The outcome of a finished export.
pub fn success(location: Option<String>, message: &str) -> (r: ExportResult)
    ensures
        r.ok,
        r.location == location,
        r.message@ == message@,
{
    ExportResult { ok: true, location, message: String::from_str(message) }
}

/// The outcome of a failed export, carrying its error message.
pub fn failure(message: String) -> (r: ExportResult)
    ensures
        !r.ok,
        r.location is None,
        r.message == message,
{
    ExportResult { ok: false, location: None, message }
}

/// The outcome of a Markdown file written to `location`.
pub fn saved(location: String) -> (r: ExportResult)
    ensures
        r.ok,
        r.location == Some(location),
        r.message@ == "Saved to "@ + location@,
{
    let mut m: Vec<char> = Vec::new();
    push_str(&mut m, "Saved to ");
    push_str(&mut m, location.as_str());
    let message = string_of_all(&m);
    ExportResult { ok: true, location: Some(location), message }
}

// ---------------------------------------------------------------------------
// Slack and webhooks
// ---------------------------------------------------------------------------

/// The Slack webhook and message text for a note, or why there is none.
pub open spec fn slack_post_spec(ints: Seq<IntegrationConfig>, title: Seq<char>, content: Seq<char>) -> Result<(Seq<char>, Seq<char>), Seq<char>> {
    match integration_index(ints, "slack"@) {
        None => Err("Slack not configured"@),
        Some(i) => match non_blank(option_value(ints[i].options@, "webhook"@)) {
            None => Err("Add your Slack incoming webhook URL in Settings"@),
            Some(w) => Ok((w, "*"@ + shown_title(title) + "*\n\n"@ + content)),
        },
    }
}

/// The Slack webhook to post to and the message text.
pub fn slack_post(settings: &Settings, title: &str, content: &str) -> (r: Result<(String, String), String>)
    ensures
        match r {
            Ok((w, t)) => slack_post_spec(settings.integrations@, title@, content@) == Ok::<(Seq<char>, Seq<char>), Seq<char>>((w@, t@)),
            Err(e) => slack_post_spec(settings.integrations@, title@, content@) == Err::<(Seq<char>, Seq<char>), Seq<char>>(e@),
        },
{
    let cfg = match integration(settings, "slack") {
        Some(c) => c,
        None => return Err(String::from_str("Slack not configured")),
    };
    let webhook = match cfg.option("webhook") {
        Some(w) => if !is_blank(w) {
            w.clone()
        } else {
            return Err(String::from_str("Add your Slack incoming webhook URL in Settings"));
        },
        None => return Err(String::from_str("Add your Slack incoming webhook URL in Settings")),
    };
    let mut text: Vec<char> = Vec::new();
    push_str(&mut text, "*");
    if title.is_empty() {
        push_str(&mut text, "Untitled");
    } else {
        push_str(&mut text, title);
    }
    push_str(&mut text, "*\n\n");
    push_str(&mut text, content);
    Ok((webhook, string_of_all(&text)))
}

/// The webhook URL notes are sent to, or why there is none.
pub open spec fn webhook_url_spec(ints: Seq<IntegrationConfig>) -> Result<Seq<char>, Seq<char>> {
    match integration_index(ints, "webhook"@) {
        None => Err("Webhook not configured"@),
        Some(i) => match non_blank(option_value(ints[i].options@, "url"@)) {
            None => Err("Add a webhook URL in Settings"@),
            Some(u) => Ok(u),
        },
    }
}

/// The webhook URL notes are sent to.
pub fn webhook_url(settings: &Settings) -> (r: Result<String, String>)
    ensures
        result_view(r) == webhook_url_spec(settings.integrations@),
{
    let cfg = match integration(settings, "webhook") {
        Some(c) => c,
        None => return Err(String::from_str("Webhook not configured")),
    };
    match cfg.option("url") {
        Some(u) => if !is_blank(u) {
            Ok(u.clone())
        } else {
            Err(String::from_str("Add a webhook URL in Settings"))
        },
        None => Err(String::from_str("Add a webhook URL in Settings")),
    }
}


// ---------------------------------------------------------------------------
// Notion
// ---------------------------------------------------------------------------

/// The pieces of `s` between separators (characters that are not
/// alphanumeric), as `str::split` yields them: empty ones included.
pub open spec fn pieces(s: Seq<char>) -> Seq<Seq<char>>
    decreases s.len(),
{
    if s.len() == 0 {
        seq![seq![]]
    } else {
        let p = pieces(s.drop_last());
        if !alphanumeric(s.last()) {
            p.push(seq![])
        } else {
            p.update(p.len() - 1, p.last().push(s.last()))
        }
    }
}

proof fn lemma_pieces_nonempty(s: Seq<char>)
    ensures
        pieces(s).len() > 0,
    decreases s.len(),
{
    if s.len() > 0 {
        lemma_pieces_nonempty(s.drop_last());
    }
}

/// `toks` with the word `w` added when it has more than two bytes and is
/// not there yet.
pub open spec fn add_token(toks: Seq<Seq<char>>, w: Seq<char>) -> Seq<Seq<char>> {
    if vstd::utf8::encode_utf8(w).len() > 2 && !toks.contains(w) {
        toks.push(w)
    } else {
        toks
    }
}

/// The distinct words of more than two bytes among `ps`, in order of first
/// appearance.
pub open spec fn tokens_of(ps: Seq<Seq<char>>) -> Seq<Seq<char>>
    decreases ps.len(),
{
    if ps.len() == 0 {
        seq![]
    } else {
        add_token(tokens_of(ps.drop_last()), ps.last())
    }
}

/// The word tokens of a text: its lowercase form split at non-alphanumeric
/// characters, words of more than two bytes, each once.
pub open spec fn tokens(s: Seq<char>) -> Seq<Seq<char>> {
    tokens_of(pieces(lowercase_of(s)))
}

/// No word occurs twice among the tokens.
pub proof fn law_tokens_distinct(ps: Seq<Seq<char>>)
    ensures
        tokens_of(ps).no_duplicates(),
    decreases ps.len(),
{
    if ps.len() > 0 {
        law_tokens_distinct(ps.drop_last());
    }
}

fn contains_word(toks: &Vec<Vec<char>>, w: &Vec<char>) -> (r: bool)
    ensures
        r == char_views(toks@).contains(w@),
{
    let mut i: usize = 0;
    while i < toks.len()
        invariant
            0 <= i <= toks@.len(),
            forall|j: int| 0 <= j < i ==> (#[trigger] toks@[j])@ != w@,
        decreases toks@.len() - i,
    {
        if crate::text::chars_eq(&toks[i], w) {
            assert(char_views(toks@)[i as int] == w@);
            return true;
        }
        i = i + 1;
    }
    assert forall|j: int| 0 <= j < char_views(toks@).len() implies char_views(toks@)[j] != w@ by {
        assert(char_views(toks@)[j] == toks@[j]@);
    }
    false
}

fn push_token(toks: &mut Vec<Vec<char>>, w: Vec<char>)
    ensures
        char_views(final(toks)@) == add_token(char_views(old(toks)@), w@),
{
    let n = w.len();
    assert(w@.subrange(0, n as int) =~= w@);
    if utf8_len_at_least(&w, 0, n, 3) && !contains_word(toks, &w) {
        let ghost before = char_views(toks@);
        toks.push(w);
        assert(char_views(toks@) =~= before.push(w@));
    }
}

/// Splits a text into lowercase alphanumeric word tokens of more than two
/// bytes, each once.
pub fn tokenize(s: &str) -> (r: Vec<String>)
    ensures
        string_views(r@) == tokens(s@),
{
    let low = to_lowercase(s);
    let v = to_chars(low.as_str());
    let mut toks: Vec<Vec<char>> = Vec::new();
    let mut cur: Vec<char> = Vec::new();
    let mut i: usize = 0;
    assert(v@.take(0) =~= Seq::<char>::empty());
    assert(pieces(v@.take(0)).drop_last() =~= Seq::<Seq<char>>::empty());
    assert(char_views(toks@) =~= Seq::<Seq<char>>::empty());
    while i < v.len()
        invariant
            0 <= i <= v@.len(),
            v@ == lowercase_of(s@),
            pieces(v@.take(i as int)).len() > 0,
            cur@ == pieces(v@.take(i as int)).last(),
            char_views(toks@) == tokens_of(pieces(v@.take(i as int)).drop_last()),
        decreases v@.len() - i,
    {
        let c = v[i];
        proof {
            let t = v@.take(i + 1);
            assert(t.drop_last() =~= v@.take(i as int));
            assert(t.last() == c);
            lemma_pieces_nonempty(v@.take(i as int));
        }
        if !is_alphanumeric(c) {
            let w = cur;
            cur = Vec::new();
            let ghost pp = pieces(v@.take(i as int));
            push_token(&mut toks, w);
            proof {
                let np = pieces(v@.take(i + 1));
                assert(np == pp.push(seq![]));
                assert(np.drop_last() =~= pp);
                assert(pp =~= pp.drop_last().push(pp.last()));
                assert(cur@ =~= np.last());
            }
        } else {
            let ghost pp = pieces(v@.take(i as int));
            cur.push(c);
            proof {
                let np = pieces(v@.take(i + 1));
                assert(np == pp.update(pp.len() - 1, pp.last().push(c)));
                assert(np.drop_last() =~= pp.drop_last());
            }
        }
        i = i + 1;
    }
    let ghost pp = pieces(v@.take(i as int));
    push_token(&mut toks, cur);
    proof {
        assert(v@.take(v@.len() as int) =~= v@);
        assert(pp =~= pp.drop_last().push(pp.last()));
    }
    let mut out: Vec<String> = Vec::new();
    let mut k: usize = 0;
    while k < toks.len()
        invariant
            0 <= k <= toks@.len(),
            string_views(out@) == char_views(toks@).take(k as int),
        decreases toks@.len() - k,
    {
        let ghost before = string_views(out@);
        out.push(string_of_all(&toks[k]));
        assert(string_views(out@) =~= before.push(toks@[k as int]@));
        assert(char_views(toks@).take(k + 1) =~= char_views(toks@).take(k as int).push(toks@[k as int]@));
        k = k + 1;
    }
    assert(char_views(toks@).take(toks@.len() as int) =~= char_views(toks@));
    out
}

/// A database of a Notion search result: its id and the plain text of its
/// first title fragment (empty when there is none). None unless the result
/// is a database with an id.
pub open spec fn database_entry(r: Json) -> Option<(Seq<char>, Seq<char>)> {
    if str_at(r, "object"@) == Some("database"@) {
        match str_at(r, "id"@) {
            None => None,
            Some(id) => {
                let title = match r.get_spec("title"@) {
                    Some(Json::Array(ts)) => if ts@.len() > 0 {
                        match str_at(ts@[0], "plain_text"@) {
                            Some(t) => t,
                            None => seq![],
                        }
                    } else {
                        seq![]
                    },
                    _ => seq![],
                };
                Some((id, title))
            },
        }
    } else {
        None
    }
}

/// The databases among search results, in order.
pub open spec fn database_entries(rs: Seq<Json>) -> Seq<(Seq<char>, Seq<char>)>
    decreases rs.len(),
{
    if rs.len() == 0 {
        seq![]
    } else {
        let prev = database_entries(rs.drop_last());
        match database_entry(rs.last()) {
            Some(d) => prev.push(d),
            None => prev,
        }
    }
}

/// The (id, title) of every database in a Notion `/v1/search` response;
/// none when `results` is not an array.
pub open spec fn databases_of(j: Json) -> Seq<(Seq<char>, Seq<char>)> {
    match j.get_spec("results"@) {
        Some(Json::Array(rs)) => database_entries(rs@),
        _ => seq![],
    }
}

/// Pairs of strings as values.
pub open spec fn pair_views(ps: Seq<(String, String)>) -> Seq<(Seq<char>, Seq<char>)> {
    ps.map_values(|p: (String, String)| (p.0@, p.1@))
}

fn database_of(r: &Json) -> (d: Option<(String, String)>)
    ensures
        match d {
            Some(p) => database_entry(*r) == Some((p.0@, p.1@)),
            None => database_entry(*r) is None,
        },
{
    let is_db = match str_field(r, "object") {
        Some(o) => str_eq(o.as_str(), "database"),
        None => false,
    };
    if !is_db {
        return None;
    }
    let id = match str_field(r, "id") {
        Some(i) => i.clone(),
        None => return None,
    };
    let title = match r.get("title") {
        Some(t) => match t.as_array() {
            Some(ts) => if ts.len() > 0 {
                match str_field(&ts[0], "plain_text") {
                    Some(x) => x.clone(),
                    None => String::new(),
                }
            } else {
                String::new()
            },
            None => String::new(),
        },
        None => String::new(),
    };
    Some((id, title))
}

/// Collects (id, title) of every database in a Notion `/v1/search`
/// response.
pub fn parse_databases(json: &Json) -> (r: Vec<(String, String)>)
    ensures
        pair_views(r@) == databases_of(*json),
{
    let mut out: Vec<(String, String)> = Vec::new();
    let rs = match json.get("results") {
        Some(x) => match x.as_array() {
            Some(a) => a,
            None => {
                assert(pair_views(out@) =~= databases_of(*json));
                return out;
            },
        },
        None => {
            assert(pair_views(out@) =~= databases_of(*json));
            return out;
        },
    };
    let mut i: usize = 0;
    assert(pair_views(out@) =~= database_entries(rs@.take(0)));
    while i < rs.len()
        invariant
            0 <= i <= rs@.len(),
            pair_views(out@) == database_entries(rs@.take(i as int)),
        decreases rs@.len() - i,
    {
        proof {
            let t = rs@.take(i + 1);
            assert(t.drop_last() =~= rs@.take(i as int));
            assert(t.last() == rs@[i as int]);
        }
        let ghost before = pair_views(out@);
        match database_of(&rs[i]) {
            Some(d) => {
                out.push(d);
                assert(pair_views(out@) =~= before.push((d.0@, d.1@)));
            },
            None => {},
        }
        i = i + 1;
    }
    assert(rs@.take(rs@.len() as int) =~= rs@);
    out
}

/// How many of the words `ws` occur in `want`.
pub open spec fn overlap(ws: Seq<Seq<char>>, want: Seq<Seq<char>>) -> nat
    decreases ws.len(),
{
    if ws.len() == 0 {
        0
    } else {
        overlap(ws.drop_last(), want) + if want.contains(ws.last()) {
            1nat
        } else {
            0nat
        }
    }
}

/// The overlap of `ws` with `want` counts the words of `ws` that occur in
/// `want`, wherever they stand in `ws`: it is the length of `ws` filtered
/// by membership in `want`, and it adds up over any split of `ws`.
pub proof fn law_overlap_counts_shared_words(
    ws: Seq<Seq<char>>,
    more: Seq<Seq<char>>,
    want: Seq<Seq<char>>,
)
    ensures
        overlap(ws, want) == ws.filter(|w: Seq<char>| want.contains(w)).len(),
        overlap(ws + more, want) == overlap(ws, want) + overlap(more, want),
    decreases ws.len() + more.len(),
{
    reveal_with_fuel(Seq::filter, 1);
    if ws.len() > 0 {
        law_overlap_counts_shared_words(ws.drop_last(), seq![], want);
    }
    if more.len() > 0 {
        law_overlap_counts_shared_words(ws, more.drop_last(), want);
        assert((ws + more).drop_last() =~= ws + more.drop_last());
        assert((ws + more).last() == more.last());
    } else {
        assert(ws + more =~= ws);
    }
}

/// How well a database title matches a note title: the tokens they share.
pub open spec fn score(db_title: Seq<char>, note_title: Seq<char>) -> nat {
    overlap(tokens(db_title), tokens(note_title))
}

/// Database `i` is the pick: it scores highest, and higher than every
/// database before it.
pub open spec fn is_best(dbs: Seq<(Seq<char>, Seq<char>)>, note_title: Seq<char>, i: int) -> bool {
    &&& 0 <= i < dbs.len()
    &&& forall|j: int| 0 <= j < dbs.len() ==> score((#[trigger] dbs[j]).1, note_title) <= score(dbs[i].1, note_title)
    &&& forall|j: int| 0 <= j < i ==> score((#[trigger] dbs[j]).1, note_title) < score(dbs[i].1, note_title)
}

fn overlap_count(ws: &Vec<String>, want: &Vec<String>) -> (n: usize)
    ensures
        n == overlap(string_views(ws@), string_views(want@)),
{
    let mut n: usize = 0;
    let mut i: usize = 0;
    let ghost wv = string_views(want@);
    while i < ws.len()
        invariant
            0 <= i <= ws@.len(),
            wv == string_views(want@),
            n == overlap(string_views(ws@).take(i as int), wv),
            n <= i,
        decreases ws@.len() - i,
    {
        let mut found = false;
        let mut j: usize = 0;
        while j < want.len()
            invariant
                0 <= j <= want@.len(),
                i < ws@.len(),
                wv == string_views(want@),
                found == exists|k: int| 0 <= k < j && wv[k] == ws@[i as int]@,
            decreases want@.len() - j,
        {
            if str_eq(want[j].as_str(), ws[i].as_str()) {
                found = true;
            }
            assert(wv[j as int] == want@[j as int]@);
            j = j + 1;
        }
        proof {
            let t = string_views(ws@).take(i + 1);
            assert(t.drop_last() =~= string_views(ws@).take(i as int));
            assert(t.last() == ws@[i as int]@);
            if found {
                let k = choose|k: int| 0 <= k < want@.len() && wv[k] == ws@[i as int]@;
                assert(wv.contains(ws@[i as int]@));
            } else {
                assert(!wv.contains(ws@[i as int]@));
            }
        }
        if found {
            n = n + 1;
        }
        i = i + 1;
    }
    assert(string_views(ws@).take(ws@.len() as int) =~= string_views(ws@));
    n
}

/// Picks the database whose title best overlaps the note title; the first
/// of the best wins, so with no overlap at all the first database is the
/// fallback. None when there are no databases.
pub fn pick_database(dbs: &[(String, String)], note_title: &str) -> (r: Option<String>)
    ensures
        r is None <==> dbs@.len() == 0,
        r matches Some(id) ==> exists|i: int| #[trigger] is_best(pair_views(dbs@), note_title@, i) && dbs@[i].0@ == id@,
{
    let want = tokenize(note_title);
    let ghost dv = pair_views(dbs@);
    let mut best: Option<(usize, usize)> = None;
    let mut i: usize = 0;
    while i < dbs.len()
        invariant
            0 <= i <= dbs@.len(),
            dv == pair_views(dbs@),
            string_views(want@) == tokens(note_title@),
            best is None <==> i == 0,
            best matches Some((s, b)) ==> {
                &&& b < i
                &&& s == score(dv[b as int].1, note_title@)
                &&& forall|j: int| 0 <= j < i ==> score((#[trigger] dv[j]).1, note_title@) <= s
                &&& forall|j: int| 0 <= j < b ==> score((#[trigger] dv[j]).1, note_title@) < s
            },
        decreases dbs@.len() - i,
    {
        let toks = tokenize(dbs[i].1.as_str());
        let sc = overlap_count(&toks, &want);
        assert(dv[i as int] == (dbs@[i as int].0@, dbs@[i as int].1@));
        match best {
            None => {
                best = Some((sc, i));
            },
            Some((s, b)) => {
                if sc > s {
                    best = Some((sc, i));
                }
            },
        }
        i = i + 1;
    }
    match best {
        Some((_, b)) => {
            assert(is_best(dv, note_title@, b as int));
            Some(dbs[b].0.clone())
        },
        None => None,
    }
}

/// What exporting to Notion needs before any request: the token, the API
/// base URL, the configured database (if any) and whether to route by
/// searching.
#[derive(Debug, Clone)]
pub struct NotionPlan {
    pub token: String,
    pub base: String,
    pub database: Option<String>,
    pub route_auto: bool,
}

/// The Notion settings, or why they do not suffice: no Notion integration,
/// an empty token, or (unless routing by search) no database.
pub open spec fn notion_plan_spec(ints: Seq<IntegrationConfig>) -> Result<(Seq<char>, Seq<char>, Option<Seq<char>>, bool), Seq<char>> {
    match integration_index(ints, "notion"@) {
        None => Err("Notion not configured"@),
        Some(i) => {
            let opts = ints[i].options@;
            match option_value(opts, "token"@) {
                None => Err("Add your Notion token in Settings"@),
                Some(t) => if t.len() == 0 {
                    Err("Add your Notion token in Settings"@)
                } else {
                    let base = match option_value(opts, "base"@) {
                        Some(b) => b,
                        None => "https://api.notion.com"@,
                    };
                    let db = match option_value(opts, "database"@) {
                        Some(d) => if d.len() > 0 {
                            Some(d)
                        } else {
                            None
                        },
                        None => None,
                    };
                    let auto = option_value(opts, "route"@) == Some("auto"@);
                    if !auto && db is None {
                        Err("Add a Notion database ID in Settings"@)
                    } else {
                        Ok((t, base, db, auto))
                    }
                },
            }
        },
    }
}

/// Reads the Notion settings.
pub fn notion_plan(settings: &Settings) -> (r: Result<NotionPlan, String>)
    ensures
        match r {
            Ok(p) => notion_plan_spec(settings.integrations@) == Ok::<(Seq<char>, Seq<char>, Option<Seq<char>>, bool), Seq<char>>(
                (p.token@, p.base@, crate::calendar::opt_text(p.database), p.route_auto),
            ),
            Err(e) => notion_plan_spec(settings.integrations@) == Err::<(Seq<char>, Seq<char>, Option<Seq<char>>, bool), Seq<char>>(e@),
        },
{
    let cfg = match integration(settings, "notion") {
        Some(c) => c,
        None => return Err(String::from_str("Notion not configured")),
    };
    let token = match cfg.option("token") {
        Some(t) => if !t.as_str().is_empty() {
            t.clone()
        } else {
            return Err(String::from_str("Add your Notion token in Settings"));
        },
        None => return Err(String::from_str("Add your Notion token in Settings")),
    };
    let base = match cfg.option("base") {
        Some(b) => b.clone(),
        None => String::from_str("https://api.notion.com"),
    };
    let database = match cfg.option("database") {
        Some(d) => if !d.as_str().is_empty() {
            Some(d.clone())
        } else {
            None
        },
        None => None,
    };
    let route_auto = match cfg.option("route") {
        Some(r) => str_eq(r.as_str(), "auto"),
        None => false,
    };
    if !route_auto && database.is_none() {
        return Err(String::from_str("Add a Notion database ID in Settings"));
    }
    Ok(NotionPlan { token, base, database, route_auto })
}

/// The database a note is filed in: the one the search found, else the
/// configured one.
pub open spec fn database_choice_spec(found: Option<Seq<char>>, configured: Option<Seq<char>>) -> Result<Seq<char>, Seq<char>> {
    match found {
        Some(id) => Ok(id),
        None => match configured {
            Some(id) => Ok(id),
            None => Err("No matching Notion database found"@),
        },
    }
}

/// Chooses the database after a search by title.
pub fn database_choice(found: Option<String>, configured: Option<String>) -> (r: Result<String, String>)
    ensures
        result_view(r) == database_choice_spec(crate::calendar::opt_text(found), crate::calendar::opt_text(configured)),
{
    match found {
        Some(id) => Ok(id),
        None => match configured {
            Some(id) => Ok(id),
            None => Err(String::from_str("No matching Notion database found")),
        },
    }
}

/// The first of `members` whose value has type "title".
pub open spec fn title_member(members: Seq<(String, Json)>) -> Option<Seq<char>>
    decreases members.len(),
{
    if members.len() == 0 {
        None
    } else if str_at(members[0].1, "type"@) == Some("title"@) {
        Some(members[0].0@)
    } else {
        title_member(members.drop_first())
    }
}

/// The title property of a Notion database: the first property of type
/// "title", else "Name".
pub open spec fn title_property_spec(db: Json) -> Seq<char> {
    match db.get_spec("properties"@) {
        Some(Json::Object(members)) => match title_member(members@) {
            Some(k) => k,
            None => "Name"@,
        },
        _ => "Name"@,
    }
}

/// Finds the title property of a Notion database.
pub fn title_property(db: &Json) -> (r: String)
    ensures
        r@ == title_property_spec(*db),
{
    let props = match db.get("properties") {
        Some(p) => p,
        None => return String::from_str("Name"),
    };
    match props {
        Json::Object(members) => {
            let mut i: usize = 0;
            assert(members@.skip(0) =~= members@);
            while i < members.len()
                invariant
                    0 <= i <= members@.len(),
                    *props == Json::Object(*members),
                    db.get_spec("properties"@) == Some(*props),
                    title_member(members@) == title_member(members@.skip(i as int)),
                decreases members@.len() - i,
            {
                assert(members@.skip(i as int)[0] == members@[i as int]);
                assert(members@.skip(i as int).drop_first() =~= members@.skip(i + 1));
                let is_title = match str_field(&members[i].1, "type") {
                    Some(t) => str_eq(t.as_str(), "title"),
                    None => false,
                };
                if is_title {
                    assert(title_member(members@.skip(i as int)) == Some(members@[i as int].0@));
                    return members[i].0.clone();
                }
                i = i + 1;
            }
            assert(members@.skip(i as int).len() == 0);
            String::from_str("Name")
        },
        _ => String::from_str("Name"),
    }
}

/// The paragraphs of a note sent to Notion: its non-blank lines, at most a
/// hundred, each cut to 2000 characters.
pub open spec fn paragraphs_of(ls: Seq<Seq<char>>) -> Seq<Seq<char>>
    decreases ls.len(),
{
    if ls.len() == 0 {
        seq![]
    } else {
        let prev = paragraphs_of(ls.drop_last());
        if trim(ls.last()).len() > 0 {
            prev.push(take_chars(ls.last(), 2000))
        } else {
            prev
        }
    }
}

/// The first `n` characters of `l`, or all of `l` when it is shorter.
pub open spec fn head(l: Seq<char>, n: int) -> Seq<char> {
    l.take(if l.len() < n { l.len() as int } else { n })
}

/// The paragraphs are the lines that are not blank once trimmed, in order,
/// each cut to its first 2000 characters.
pub proof fn law_paragraphs_are_line_starts(ls: Seq<Seq<char>>)
    ensures
        paragraphs_of(ls) == ls.filter(|l: Seq<char>| trim(l).len() > 0).map_values(
            |l: Seq<char>| head(l, 2000),
        ),
    decreases ls.len(),
{
    reveal_with_fuel(Seq::filter, 1);
    if ls.len() > 0 {
        law_paragraphs_are_line_starts(ls.drop_last());
        let l = ls.last();
        if l.len() < 2000 {
            assert(l.take(l.len() as int) =~= l);
        }
        assert(take_chars(l, 2000) == head(l, 2000));
        let f = ls.drop_last().filter(|l: Seq<char>| trim(l).len() > 0);
        if trim(l).len() > 0 {
            assert(f.push(l).map_values(|l: Seq<char>| head(l, 2000)) =~= f.map_values(
                |l: Seq<char>| head(l, 2000),
            ).push(head(l, 2000)));
        }
    }
}

/// The first `n` paragraphs.
pub open spec fn first_paragraphs(content: Seq<char>, n: nat) -> Seq<Seq<char>> {
    first_items(paragraphs_of(lines(content)), n)
}

/// The first `n` items of `s`.
pub open spec fn first_items(s: Seq<Seq<char>>, n: nat) -> Seq<Seq<char>> {
    if s.len() <= n {
        s
    } else {
        s.take(n as int)
    }
}

/// The paragraphs of a note sent to Notion.
#[verifier::spinoff_prover]
pub fn paragraphs(content: &str) -> (r: Vec<String>)
    ensures
        string_views(r@) == first_paragraphs(content@, 100),
{
    let v = to_chars(content);
    let ranges = lines_of(&v);
    let ghost ls = lines(v@);
    let mut out: Vec<String> = Vec::new();
    let mut k: usize = 0;
    assert(string_views(out@) =~= paragraphs_of(ls.take(0)));
    while k < ranges.len() && out.len() < 100
        invariant
            0 <= k <= ranges@.len(),
            ls == lines(v@),
            ranges@.len() == ls.len(),
            forall|i: int| 0 <= i < ranges@.len() ==> #[trigger] ranges@[i].0 <= ranges@[i].1 <= v@.len(),
            forall|i: int|
                0 <= i < ranges@.len() ==> v@.subrange(ranges@[i].0 as int, ranges@[i].1 as int)
                    == #[trigger] ls[i],
            string_views(out@) == paragraphs_of(ls.take(k as int)),
            out@.len() <= 100,
        decreases ranges@.len() - k,
    {
        let (lo, hi) = ranges[k];
        assert(lo <= hi <= v@.len());
        assert(v@.subrange(lo as int, hi as int) == ls[k as int]);
        proof {
            let t = ls.take(k + 1);
            assert(t.drop_last() =~= ls.take(k as int));
            assert(t.last() == ls[k as int]);
        }
        let (a, b) = trim_range(&v, lo, hi);
        let ghost before = string_views(out@);
        if a < b {
            let end = if hi - lo <= 2000 {
                hi
            } else {
                lo + 2000
            };
            let p = string_of(&v, lo, end);
            proof {
                let l = ls[k as int];
                if l.len() > 2000 {
                    assert(l.take(2000) =~= v@.subrange(lo as int, end as int));
                }
            }
            out.push(p);
            assert(string_views(out@) =~= before.push(take_chars(ls[k as int], 2000)));
        }
        k = k + 1;
    }
    proof {
        lemma_paragraphs_prefix(ls, k as int);
        if out@.len() < 100 {
            assert(ls.take(k as int) =~= ls);
        }
    }
    out
}

// ---------------------------------------------------------------------------
// Request bodies
// ---------------------------------------------------------------------------

/// The body of a Notion search for databases matching `query`:
/// `{"query": query, "filter": {"property": "object", "value": "database"},
/// "page_size": 20}`.
pub open spec fn is_notion_search_body(j: Json, query: Seq<char>) -> bool {
    &&& object_with(j, seq!["query"@, "filter"@, "page_size"@])
    &&& is_str(value_at(j, 0), query)
    &&& object_with(value_at(j, 1), seq!["property"@, "value"@])
    &&& is_str(value_at(value_at(j, 1), 0), "object"@)
    &&& is_str(value_at(value_at(j, 1), 1), "database"@)
    &&& value_at(j, 2) matches Json::Number(n) && n@ == "20"@
}

/// The body of the Notion search for a database to file a note under.
pub fn notion_search_body(query: &str) -> (r: Json)
    ensures
        is_notion_search_body(r, query@),
{
    let filter = Json::Object(
        vec![
            (String::from_str("property"), json_str("object")),
            (String::from_str("value"), json_str("database")),
        ],
    );
    assert(members(filter)[0].0@ == "property"@ && members(filter)[1].0@ == "value"@);
    let r = Json::Object(
        vec![
            (String::from_str("query"), json_str(query)),
            (String::from_str("filter"), filter),
            (String::from_str("page_size"), Json::Number(String::from_str("20"))),
        ],
    );
    assert(members(r)[0].0@ == "query"@ && members(r)[1].0@ == "filter"@ && members(r)[2].0@
        == "page_size"@);
    r
}

/// `{"type": "text", "text": {"content": s}}`.
pub open spec fn is_rich_text(j: Json, s: Seq<char>) -> bool {
    &&& object_with(j, seq!["type"@, "text"@])
    &&& is_str(value_at(j, 0), "text"@)
    &&& str_object(value_at(j, 1), "content"@, s)
}

/// `{"object": "block", "type": "paragraph", "paragraph": {"rich_text":
/// [rich text s]}}`: a Notion paragraph block holding `s`.
pub open spec fn is_paragraph_block(j: Json, s: Seq<char>) -> bool {
    let p = value_at(j, 2);
    let texts = value_at(p, 0);
    &&& object_with(j, seq!["object"@, "type"@, "paragraph"@])
    &&& is_str(value_at(j, 0), "block"@)
    &&& is_str(value_at(j, 1), "paragraph"@)
    &&& object_with(p, seq!["rich_text"@])
    &&& texts is Array
    &&& items(texts).len() == 1
    &&& is_rich_text(items(texts)[0], s)
}

/// The body of the Notion page a note becomes: `{"parent": {"database_id":
/// database_id}, "properties": {title_prop: {"title": [{"text": {"content":
/// title}}]}}, "children": [a paragraph block per paragraph]}`.
pub open spec fn is_notion_page_body(
    j: Json,
    database_id: Seq<char>,
    title_prop: Seq<char>,
    title: Seq<char>,
    paras: Seq<Seq<char>>,
) -> bool {
    let props = value_at(j, 1);
    let titles = value_at(value_at(props, 0), 0);
    let children = value_at(j, 2);
    &&& object_with(j, seq!["parent"@, "properties"@, "children"@])
    &&& str_object(value_at(j, 0), "database_id"@, database_id)
    &&& object_with(props, seq![title_prop])
    &&& object_with(value_at(props, 0), seq!["title"@])
    &&& titles is Array
    &&& items(titles).len() == 1
    &&& object_with(items(titles)[0], seq!["text"@])
    &&& str_object(value_at(items(titles)[0], 0), "content"@, title)
    &&& children is Array
    &&& items(children).len() == paras.len()
    &&& forall|i: int| 0 <= i < paras.len() ==> is_paragraph_block(#[trigger] items(children)[i], paras[i])
}

fn paragraph_block(s: &str) -> (r: Json)
    ensures
        is_paragraph_block(r, s@),
{
    let rich = Json::Object(
        vec![
            (String::from_str("type"), json_str("text")),
            (String::from_str("text"), single("content", json_str(s))),
        ],
    );
    assert(members(rich)[0].0@ == "type"@ && members(rich)[1].0@ == "text"@);
    let texts = Json::Array(vec![rich]);
    assert(items(texts)[0] == rich);
    let r = Json::Object(
        vec![
            (String::from_str("object"), json_str("block")),
            (String::from_str("type"), json_str("paragraph")),
            (String::from_str("paragraph"), single("rich_text", texts)),
        ],
    );
    assert(members(r)[0].0@ == "object"@ && members(r)[1].0@ == "type"@ && members(r)[2].0@
        == "paragraph"@);
    r
}

/// The body that creates a note's page in a Notion database: the note's
/// title under the database's title property, and its paragraphs as blocks.
pub fn notion_page_body(database_id: &str, title_prop: &str, title: &str, content: &str) -> (r:
    Json)
    ensures
        is_notion_page_body(r, database_id@, title_prop@, title@, first_paragraphs(content@, 100)),
{
    let paras = paragraphs(content);
    let mut children: Vec<Json> = Vec::new();
    let mut i: usize = 0;
    while i < paras.len()
        invariant
            0 <= i <= paras@.len(),
            children@.len() == i,
            forall|k: int| 0 <= k < i ==> is_paragraph_block(#[trigger] children@[k], paras@[k]@),
        decreases paras@.len() - i,
    {
        children.push(paragraph_block(paras[i].as_str()));
        i = i + 1;
    }
    proof {
        assert forall|k: int| 0 <= k < paras@.len() implies paras@[k]@ == #[trigger] string_views(
            paras@,
        )[k] by {}
    }
    let text = single("text", single("content", json_str(title)));
    let titles = Json::Array(vec![text]);
    assert(items(titles)[0] == text);
    let props = single(title_prop, single("title", titles));
    let kids = Json::Array(children);
    let r = Json::Object(
        vec![
            (String::from_str("parent"), single("database_id", json_str(database_id))),
            (String::from_str("properties"), props),
            (String::from_str("children"), kids),
        ],
    );
    assert(members(r)[0].0@ == "parent"@ && members(r)[1].0@ == "properties"@ && members(r)[2].0@
        == "children"@);
    r
}

/// The body of a Slack message: `{"text": text}`.
pub fn slack_body(text: &str) -> (r: Json)
    ensures
        str_object(r, "text"@, text@),
{
    single("text", json_str(text))
}

/// Reading further lines only adds paragraphs after those already found.
proof fn lemma_paragraphs_prefix(ls: Seq<Seq<char>>, k: int)
    requires
        0 <= k <= ls.len(),
    ensures
        paragraphs_of(ls).len() >= paragraphs_of(ls.take(k)).len(),
        paragraphs_of(ls).take(paragraphs_of(ls.take(k)).len() as int) == paragraphs_of(ls.take(k)),
    decreases ls.len() - k,
{
    if k == ls.len() {
        assert(ls.take(k) =~= ls);
        assert(paragraphs_of(ls).take(paragraphs_of(ls).len() as int) =~= paragraphs_of(ls));
    } else {
        lemma_paragraphs_prefix(ls, k + 1);
        let t = ls.take(k + 1);
        assert(t.drop_last() =~= ls.take(k));
        let a = paragraphs_of(ls.take(k));
        let b = paragraphs_of(t);
        let c = paragraphs_of(ls);
        assert(b.take(a.len() as int) =~= a);
        assert(c.take(a.len() as int) =~= c.take(b.len() as int).take(a.len() as int));
    }
}

/// The page link of a Notion page response.
pub fn page_link(page: &Json) -> (r: Option<String>)
    ensures
        crate::calendar::opt_text(r) == str_at(*page, "url"@),
{
    match str_field(page, "url") {
        Some(u) => Some(u.clone()),
        None => None,
    }
}


/// With no title sharing a token with the note, the first database is
/// picked.
pub proof fn law_pick_falls_back_to_first(dbs: Seq<(Seq<char>, Seq<char>)>, note_title: Seq<char>, i: int)
    requires
        is_best(dbs, note_title, i),
        forall|j: int| 0 <= j < dbs.len() ==> score((#[trigger] dbs[j]).1, note_title) == 0,
    ensures
        i == 0,
{
    if i > 0 {
        assert(score(dbs[0].1, note_title) < score(dbs[i].1, note_title));
    }
}

/// A sanitized file name is never empty.
pub proof fn law_sanitized_nonempty(name: Seq<char>)
    ensures
        sanitized(name).len() > 0,
{
    reveal_strlit("note");
}

/// `s` with each space turned into a hyphen.
pub open spec fn hyphenated(s: Seq<char>) -> Seq<char> {
    s.map_values(|c: char| if c == ' ' { '-' } else { c })
}

/// Replacing spaces by hyphens changes the text character for character.
proof fn lemma_replace_spaces(s: Seq<char>)
    ensures
        replace_all(s, " "@, "-"@) == hyphenated(s),
    decreases s.len(),
{
    reveal_strlit(" ");
    reveal_strlit("-");
    if s.len() > 0 {
        lemma_replace_spaces(s.drop_first());
        if s[0] == ' ' {
            assert(s.take(1) =~= " "@);
            assert(s.skip(1) =~= s.drop_first());
            assert(hyphenated(s) =~= "-"@ + hyphenated(s.drop_first()));
        } else {
            assert(s.take(1)[0] == s[0]);
            assert(!starts_with(s, " "@));
            assert(hyphenated(s) =~= seq![s[0]] + hyphenated(s.drop_first()));
        }
    }
}

/// Trimming keeps only characters of the text.
proof fn lemma_trim_keeps(s: Seq<char>, p: spec_fn(char) -> bool)
    requires
        forall|j: int| 0 <= j < s.len() ==> p(#[trigger] s[j]),
    ensures
        forall|j: int| 0 <= j < trim(s).len() ==> p(#[trigger] trim(s)[j]),
{
    lemma_lead_len_bounds(s, ws());
    let a = trim_start(s);
    assert forall|j: int| 0 <= j < a.len() implies p(#[trigger] a[j]) by {
        assert(a[j] == s[j + lead_len(s, ws())]);
    }
    lemma_trail_len_bounds(a, ws());
    let b = trim_end(a);
    assert forall|j: int| 0 <= j < b.len() implies p(#[trigger] b[j]) by {
        assert(b[j] == a[j]);
    }
}

/// A text without whitespace is its own trim.
proof fn lemma_trim_no_ws(s: Seq<char>)
    requires
        forall|j: int| 0 <= j < s.len() ==> !is_ws(#[trigger] s[j]),
    ensures
        trim(s) == s,
{
    if s.len() > 0 {
        assert(!(ws())(s[0]));
        assert(!(ws())(s[s.len() - 1]));
    }
    lemma_lead_len_is(s, ws(), 0);
    assert(trim_start(s) =~= s);
    lemma_trail_len_is(s, ws(), s.len() as int);
    assert(trim_end(s) =~= s);
}

/// A character of a canonical file name: a hyphen, or an alphanumeric
/// character that is not whitespace.
pub open spec fn canonical_char(c: char) -> bool {
    c == '-' || (alphanumeric(c) && !is_ws(c))
}

/// A sanitized name is one canonical file name: never empty, made only of
/// alphanumeric characters and hyphens, and left as it is when sanitized
/// again. This rests on an alphanumeric character never being whitespace,
/// which holds of every Unicode character; since `alphanumeric` is only
/// named, it is asked here of the characters the result can hold: those of
/// the name and those of the fallback name "note".
pub proof fn law_sanitized_canonical(name: Seq<char>)
    requires
        forall|j: int| 0 <= j < name.len() ==> alphanumeric(#[trigger] name[j]) ==> !is_ws(
            name[j],
        ),
        alphanumeric('n'),
        alphanumeric('o'),
        alphanumeric('t'),
        alphanumeric('e'),
    ensures
        sanitized(name).len() > 0,
        forall|j: int|
            0 <= j < sanitized(name).len() ==> alphanumeric(#[trigger] sanitized(name)[j])
                || sanitized(name)[j] == '-',
        sanitized(sanitized(name)) == sanitized(name),
{
    reveal_strlit("note");
    let m = name.map_values(|c: char| name_char(c));
    let p = |c: char| c == ' ' || canonical_char(c);
    assert forall|j: int| 0 <= j < m.len() implies p(#[trigger] m[j]) by {
        assert(m[j] == name_char(name[j]));
    }
    lemma_trim_keeps(m, p);
    let t = trim(m);
    lemma_replace_spaces(t);
    let h = replace_all(t, " "@, "-"@);
    assert forall|j: int| 0 <= j < h.len() implies canonical_char(#[trigger] h[j]) by {
        assert(p(t[j]));
    }
    let r = sanitized(name);
    let nt = "note"@;
    assert forall|j: int| 0 <= j < nt.len() implies canonical_char(#[trigger] nt[j]) by {
        assert(j == 0 || j == 1 || j == 2 || j == 3);
    }
    assert(forall|j: int| 0 <= j < r.len() ==> canonical_char(#[trigger] r[j]));
    assert forall|j: int| 0 <= j < r.len() implies !is_ws(#[trigger] r[j]) by {
        assert(canonical_char(r[j]));
    }
    assert(r.map_values(|c: char| name_char(c)) =~= r) by {
        assert forall|j: int| 0 <= j < r.len() implies name_char(r[j]) == #[trigger] r[j] by {
            assert(canonical_char(r[j]));
        }
    }
    lemma_trim_no_ws(r);
    lemma_replace_spaces(r);
    assert(hyphenated(r) =~= r) by {
        assert forall|j: int| 0 <= j < r.len() implies #[trigger] r[j] != ' ' by {
            assert(!is_ws(r[j]));
        }
    }
}

} // verus!
