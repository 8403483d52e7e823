# Halo

Halo is a local, private note-taking app: it records a meeting, transcribes
it on-device with whisper.cpp, and writes structured notes with a local
language model. This crate holds its logic, stated and proved with Verus.

## Layout

- `src/` — the verified library (`halo`):
  - `text` — the character-level model of text (trimming, lines, search,
    replace, UTF-8 length, order) the other modules build on;
  - `calendar` — reading iCalendar feeds, the feeds to fetch, ordering
    events and choosing the event of the moment;
  - `research` — search queries from a note, Wikipedia answers, and the
    research section appended to a note;
  - `integrations` — export targets: file names and folders, documents,
    Slack/webhook/Notion requests, choosing a Notion database;
  - `storage` — file locations, the note-style store, previews and the
    order of the note list;
  - `models` — the model catalogue and install checks;
  - `llm` — the streamed completion of the local model;
  - `transcribe`, `import`, `audio`, `commands` — progress and transcript
    text, titles of imported files, capture devices, titles and prompts;
  - `json`, `paths`, `types` — JSON documents, paths and the data types.
- `tests/` — tests run against the compiled library.
- `app/` — the command host around the library: files, network, engines,
  audio capture and decoding.
