//! The plain data types the rest of the library computes on.
use vstd::prelude::*;
use vstd::string::*;
use crate::text::str_eq;

verus! {

/// A note-writing style: a named prompt template.
#[derive(Debug, Clone)]
pub struct NoteStyle {
    pub id: String,
    pub name: String,
    pub description: String,
    pub prompt: String,
    pub builtin: bool,
}

/// A note style as values.
pub struct StyleView {
    pub id: Seq<char>,
    pub name: Seq<char>,
    pub description: Seq<char>,
    pub prompt: Seq<char>,
    pub builtin: bool,
}

impl View for NoteStyle {
    type V = StyleView;

    open spec fn view(&self) -> StyleView {
        StyleView {
            id: self.id@,
            name: self.name@,
            description: self.description@,
            prompt: self.prompt@,
            builtin: self.builtin,
        }
    }
}

/// Which engine a model file belongs to.
#[derive(Debug, Clone, Copy, PartialEq, Eq, Structural)]
pub enum ModelKind {
    Whisper,
    Llm,
}

/// A model as shown to the user, with whether it is installed.
#[derive(Debug, Clone)]
pub struct ModelInfo {
    pub id: String,
    pub kind: ModelKind,
    pub name: String,
    pub size_bytes: u64,
    pub installed: bool,
    pub license: String,
}

/// Progress of one model download.
#[derive(Debug, Clone)]
pub struct ModelDownloadProgress {
    pub model_id: String,
    pub downloaded_bytes: u64,
    pub total_bytes: u64,
    pub done: bool,
    pub error: Option<String>,
}

/// A capture device offered in the settings.
#[derive(Debug, Clone)]
pub struct AudioDevice {
    pub id: String,
    pub name: String,
    pub is_default: bool,
}

/// The configuration of one integration; `options` holds its key/value
/// settings (where a key occurs more than once, its last value counts).
#[derive(Debug, Clone)]
pub struct IntegrationConfig {
    pub id: String,
    pub enabled: bool,
    pub options: Vec<(String, String)>,
}

/// The user's settings.
#[derive(Debug, Clone)]
pub struct Settings {
    pub setup_complete: bool,
    pub default_style_id: String,
    pub input_device_id: Option<String>,
    pub capture_system_audio: bool,
    pub capture_microphone: bool,
    /// When online, enrich generated notes with web research (Wikipedia).
    pub web_research: bool,
    pub integrations: Vec<IntegrationConfig>,
}

/// One web-research finding folded into a note.
#[derive(Debug, Clone)]
pub struct ResearchFinding {
    pub title: String,
    pub summary: String,
    pub url: String,
    pub source: String,
}

/// What the front end needs to know at start-up.
#[derive(Debug, Clone)]
pub struct AppStatus {
    pub setup_complete: bool,
    pub models_ready: bool,
    pub version: String,
}

/// A piece of generated note text streamed to the front end.
#[derive(Debug, Clone)]
pub struct NotesToken {
    pub note_id: String,
    pub text: String,
}

/// Where a note is exported to.
#[derive(Debug, Clone)]
pub enum ExportTarget {
    Markdown,
    Obsidian,
    Clipboard { format: String },
    Notion,
    Slack,
    Webhook,
}

/// A calendar event; `start` and `end` are RFC 3339 UTC timestamps.
#[derive(Debug, Clone)]
pub struct CalendarEvent {
    pub title: String,
    pub start: String,
    pub end: String,
    /// Provider label, e.g. "Google", "Apple", "Microsoft".
    pub provider: String,
}

/// The outcome of an export.
#[derive(Debug, Clone)]
pub struct ExportResult {
    pub ok: bool,
    pub location: Option<String>,
    pub message: String,
}

/// The value `web_research` takes when a settings file does not mention it.
pub fn default_true() -> (b: bool)
    ensures
        b,
{
    true
}

/// The ids of the integrations a fresh installation knows, in order.
pub open spec fn default_integration_ids() -> Seq<Seq<char>> {
    seq![
        "markdown"@,
        "obsidian"@,
        "clipboard"@,
        "notion"@,
        "slack"@,
        "webhook"@,
        "google-calendar"@,
        "apple-calendar"@,
        "microsoft-calendar"@,
    ]
}

/// The settings of a fresh installation.
pub open spec fn is_default_settings(s: Settings) -> bool {
    &&& !s.setup_complete
    &&& s.default_style_id@ == "meeting"@
    &&& s.input_device_id is None
    &&& s.capture_system_audio
    &&& s.capture_microphone
    &&& s.web_research
    &&& s.integrations@.len() == default_integration_ids().len()
    &&& forall|i: int|
        0 <= i < s.integrations@.len() ==> {
            &&& (#[trigger] s.integrations@[i]).id@ == default_integration_ids()[i]
            &&& s.integrations@[i].enabled == (i == 2)
            &&& s.integrations@[i].options@.len() == 0
        }
}

fn integration_config(id: &str, enabled: bool) -> (c: IntegrationConfig)
    ensures
        c.id@ == id@,
        c.enabled == enabled,
        c.options@.len() == 0,
{
    IntegrationConfig { id: String::from_str(id), enabled, options: Vec::new() }
}

impl Default for Settings {
    fn default() -> (s: Settings)
        ensures
            is_default_settings(s),
    {
        let integrations = vec![
            integration_config("markdown", false),
            integration_config("obsidian", false),
            integration_config("clipboard", true),
            integration_config("notion", false),
            integration_config("slack", false),
            integration_config("webhook", false),
            integration_config("google-calendar", false),
            integration_config("apple-calendar", false),
            integration_config("microsoft-calendar", false),
        ];
        let s = Settings {
            setup_complete: false,
            default_style_id: String::from_str("meeting"),
            input_device_id: None,
            capture_system_audio: true,
            capture_microphone: true,
            web_research: default_true(),
            integrations,
        };
        assert(s.integrations@.len() == default_integration_ids().len());
        s
    }
}


// ---------------------------------------------------------------------------
// Integration options and lookups
// ---------------------------------------------------------------------------

/// The value stored under `key` in `opts`, if any.
pub open spec fn option_value(opts: Seq<(String, String)>, key: Seq<char>) -> Option<Seq<char>>
    decreases opts.len(),
{
    if opts.len() == 0 {
        None
    } else if opts.last().0@ == key {
        Some(opts.last().1@)
    } else {
        option_value(opts.drop_last(), key)
    }
}

impl IntegrationConfig {
    /// The option stored under `key`.
    pub fn option(&self, key: &str) -> (r: Option<&String>)
        ensures
            r matches Some(v) ==> option_value(self.options@, key@) == Some(v@),
            r is None ==> option_value(self.options@, key@) is None,
    {
        let mut i = self.options.len();
        assert(self.options@.take(i as int) =~= self.options@);
        while i > 0
            invariant
                i <= self.options@.len(),
                option_value(self.options@, key@) == option_value(self.options@.take(i as int), key@),
            decreases i,
        {
            let ghost t = self.options@.take(i as int);
            assert(t.drop_last() =~= self.options@.take(i - 1));
            if str_eq(self.options[i - 1].0.as_str(), key) {
                return Some(&self.options[i - 1].1);
            }
            i = i - 1;
        }
        None
    }
}

/// Position of the first integration with the given id.
pub open spec fn integration_index(ints: Seq<IntegrationConfig>, id: Seq<char>) -> Option<int>
    decreases ints.len(),
{
    if ints.len() == 0 {
        None
    } else if ints[0].id@ == id {
        Some(0)
    } else {
        match integration_index(ints.drop_first(), id) {
            Some(i) => Some(i + 1),
            None => None,
        }
    }
}

/// `integration_index` is the first position holding the id.
pub proof fn lemma_integration_index(ints: Seq<IntegrationConfig>, id: Seq<char>, i: int)
    requires
        0 <= i <= ints.len(),
        forall|j: int| 0 <= j < i ==> (#[trigger] ints[j]).id@ != id,
        i == ints.len() || ints[i].id@ == id,
    ensures
        integration_index(ints, id) == (if i < ints.len() {
            Some(i)
        } else {
            None::<int>
        }),
    decreases i,
{
    if i > 0 {
        assert forall|j: int| 0 <= j < i - 1 implies (#[trigger] ints.drop_first()[j]).id@ != id by {
            assert(ints.drop_first()[j] == ints[j + 1]);
        }
        if i < ints.len() {
            assert(ints.drop_first()[i - 1] == ints[i]);
        }
        lemma_integration_index(ints.drop_first(), id, i - 1);
    }
}

} // verus!
