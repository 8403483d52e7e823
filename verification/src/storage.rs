//! Where the app keeps its files, the note-style store (built-in styles
//! overridden and extended by the user's custom ones) and note previews.
use vstd::prelude::*;
use crate::paths::{join_path, joined_path};
use crate::text::{
    concat_str, lead_len, lines, lines_of, push_range, string_of, string_of_all, to_chars,
    trim_start_by,
};
use crate::types::{NoteStyle, StyleView};
use crate::text::{string_views, text_le, text_le_chars, lemma_text_le_total, lemma_text_le_trans};

verus! {

// ---------------------------------------------------------------------------
// Locations
// ---------------------------------------------------------------------------

/// The directory that holds the downloaded models.
pub fn models_dir(base: &str) -> (r: String)
    ensures
        r@ == joined_path(base@, "models"@),
{
    join_path(base, "models")
}

/// The recording of note `id`.
pub fn audio_path(base: &str, id: &str) -> (r: String)
    ensures
        r@ == joined_path(joined_path(base@, "audio"@), id@ + ".wav"@),
{
    let dir = join_path(base, "audio");
    let file = concat_str(id, ".wav");
    join_path(dir.as_str(), file.as_str())
}

/// The stored document of note `id`.
pub fn note_path(base: &str, id: &str) -> (r: String)
    ensures
        r@ == joined_path(joined_path(base@, "notes"@), id@ + ".json"@),
{
    let dir = join_path(base, "notes");
    let file = concat_str(id, ".json");
    join_path(dir.as_str(), file.as_str())
}

/// The file that holds the user's custom styles.
pub fn custom_styles_path(base: &str) -> (r: String)
    ensures
        r@ == joined_path(base@, "styles.json"@),
{
    join_path(base, "styles.json")
}

// ---------------------------------------------------------------------------
// Built-in styles
// ---------------------------------------------------------------------------

/// A style given by its fields, as a value.
pub open spec fn style_view(
    id: Seq<char>,
    name: Seq<char>,
    description: Seq<char>,
    prompt: Seq<char>,
) -> StyleView {
    StyleView { id, name, description, prompt, builtin: true }
}

/// The five built-in styles, in order.
pub open spec fn builtin_views() -> Seq<StyleView> {
    seq![
        style_view(
            "meeting"@,
            "Meeting"@,
            "Summary, decisions and action items"@,
            "You are an expert meeting note-taker. From the transcript below, write concise, well-structured notes in Markdown with these sections:\n\n## Summary\nA 2-3 sentence overview.\n\n## Key Points\nBullet points of what was discussed.\n\n## Decisions\nDecisions that were made.\n\n## Action Items\n- [ ] Owner — task\n\nOnly use information present in the transcript. Do not invent details.\n\nTranscript:\n{transcript}"@,
        ),
        style_view(
            "lecture"@,
            "Lecture"@,
            "Structured study notes with key concepts"@,
            "You are a diligent student. Turn the lecture transcript below into clear study notes in Markdown:\n\n## Topic\n## Key Concepts\nExplain each concept in your own words with bullet points.\n## Important Definitions\n## Questions to Review\n\nStay faithful to the transcript.\n\nTranscript:\n{transcript}"@,
        ),
        style_view(
            "interview"@,
            "Interview"@,
            "Candidate highlights and evaluation"@,
            "Summarise the interview transcript below in Markdown:\n\n## Overview\n## Strengths\n## Concerns\n## Notable Quotes\n## Recommendation\n\nBase everything strictly on the transcript.\n\nTranscript:\n{transcript}"@,
        ),
        style_view(
            "standup"@,
            "Standup"@,
            "Per-person yesterday / today / blockers"@,
            "Convert the standup transcript below into Markdown grouped per person:\n\nFor each person mentioned:\n### Name\n- Yesterday:\n- Today:\n- Blockers:\n\nTranscript:\n{transcript}"@,
        ),
        style_view(
            "personal"@,
            "Personal"@,
            "Plain, faithful summary of the conversation"@,
            "Write clear, friendly notes in Markdown summarising the conversation below. Capture the main points, anything to remember, and any follow-ups. Keep it faithful to what was said.\n\nTranscript:\n{transcript}"@,
        ),
    ]
}

/// The values of a list of styles.
pub open spec fn views(v: Seq<NoteStyle>) -> Seq<StyleView> {
    v.map_values(|s: NoteStyle| s@)
}

fn builtin_style(id: &str, name: &str, description: &str, prompt: &str) -> (s: NoteStyle)
    ensures
        s@ == style_view(id@, name@, description@, prompt@),
{
    NoteStyle {
        id: String::from_str(id),
        name: String::from_str(name),
        description: String::from_str(description),
        prompt: String::from_str(prompt),
        builtin: true,
    }
}

/// The styles that ship with the app.
pub fn builtin_styles() -> (r: Vec<NoteStyle>)
    ensures
        views(r@) == builtin_views(),
{
    let r = vec![
        builtin_style(
            "meeting",
            "Meeting",
            "Summary, decisions and action items",
            "You are an expert meeting note-taker. From the transcript below, write concise, well-structured notes in Markdown with these sections:\n\n## Summary\nA 2-3 sentence overview.\n\n## Key Points\nBullet points of what was discussed.\n\n## Decisions\nDecisions that were made.\n\n## Action Items\n- [ ] Owner — task\n\nOnly use information present in the transcript. Do not invent details.\n\nTranscript:\n{transcript}",
        ),
        builtin_style(
            "lecture",
            "Lecture",
            "Structured study notes with key concepts",
            "You are a diligent student. Turn the lecture transcript below into clear study notes in Markdown:\n\n## Topic\n## Key Concepts\nExplain each concept in your own words with bullet points.\n## Important Definitions\n## Questions to Review\n\nStay faithful to the transcript.\n\nTranscript:\n{transcript}",
        ),
        builtin_style(
            "interview",
            "Interview",
            "Candidate highlights and evaluation",
            "Summarise the interview transcript below in Markdown:\n\n## Overview\n## Strengths\n## Concerns\n## Notable Quotes\n## Recommendation\n\nBase everything strictly on the transcript.\n\nTranscript:\n{transcript}",
        ),
        builtin_style(
            "standup",
            "Standup",
            "Per-person yesterday / today / blockers",
            "Convert the standup transcript below into Markdown grouped per person:\n\nFor each person mentioned:\n### Name\n- Yesterday:\n- Today:\n- Blockers:\n\nTranscript:\n{transcript}",
        ),
        builtin_style(
            "personal",
            "Personal",
            "Plain, faithful summary of the conversation",
            "Write clear, friendly notes in Markdown summarising the conversation below. Capture the main points, anything to remember, and any follow-ups. Keep it faithful to what was said.\n\nTranscript:\n{transcript}",
        ),
    ];
    assert(views(r@) =~= builtin_views());
    r
}

// ---------------------------------------------------------------------------
// The style store
// ---------------------------------------------------------------------------

/// Position of the first style with this id.
pub open spec fn id_index(styles: Seq<StyleView>, id: Seq<char>) -> Option<int>
    decreases styles.len(),
{
    if styles.len() == 0 {
        None
    } else if styles[0].id == id {
        Some(0)
    } else {
        match id_index(styles.drop_first(), id) {
            Some(i) => Some(i + 1),
            None => None,
        }
    }
}

/// The first style with this id.
pub open spec fn lookup(styles: Seq<StyleView>, id: Seq<char>) -> Option<StyleView> {
    match id_index(styles, id) {
        Some(i) => Some(styles[i]),
        None => None,
    }
}

/// `c` stored into `styles`: it replaces the first style with its id, or is
/// appended when there is none.
pub open spec fn upsert(styles: Seq<StyleView>, c: StyleView) -> Seq<StyleView> {
    match id_index(styles, c.id) {
        Some(i) => styles.update(i, c),
        None => styles.push(c),
    }
}

/// The styles offered to the user: the built-in ones, each custom style in
/// turn replacing the one with its id or being appended.
pub open spec fn merged(custom: Seq<StyleView>) -> Seq<StyleView>
    decreases custom.len(),
{
    if custom.len() == 0 {
        builtin_views()
    } else {
        upsert(merged(custom.drop_last()), custom.last())
    }
}

/// Whether `id` is the id of a built-in style.
pub open spec fn is_builtin_id(id: Seq<char>) -> bool {
    id_index(builtin_views(), id) is Some
}

/// No two styles share an id.
pub open spec fn unique_ids(styles: Seq<StyleView>) -> bool {
    forall|i: int, j: int|
        0 <= i < styles.len() && 0 <= j < styles.len() && i != j ==> #[trigger] styles[i].id
            != #[trigger] styles[j].id
}

/// The last style with this id.
pub open spec fn last_with_id(styles: Seq<StyleView>, id: Seq<char>) -> Option<StyleView>
    decreases styles.len(),
{
    if styles.len() == 0 {
        None
    } else if styles.last().id == id {
        Some(styles.last())
    } else {
        last_with_id(styles.drop_last(), id)
    }
}

/// `id_index` finds the first style with the id, if any.
pub proof fn lemma_id_index(styles: Seq<StyleView>, id: Seq<char>)
    ensures
        match id_index(styles, id) {
            Some(i) => 0 <= i < styles.len() && styles[i].id == id && forall|j: int|
                0 <= j < i ==> (#[trigger] styles[j]).id != id,
            None => forall|j: int| 0 <= j < styles.len() ==> (#[trigger] styles[j]).id != id,
        },
    decreases styles.len(),
{
    if styles.len() > 0 && styles[0].id != id {
        lemma_id_index(styles.drop_first(), id);
        assert forall|j: int| 0 < j < styles.len() implies styles[j] == styles.drop_first()[j
            - 1] by {}
    }
}

/// `id_index` is the first position holding the id.
pub proof fn lemma_id_index_is(styles: Seq<StyleView>, id: Seq<char>, i: int)
    requires
        0 <= i <= styles.len(),
        forall|j: int| 0 <= j < i ==> (#[trigger] styles[j]).id != id,
        i == styles.len() || styles[i].id == id,
    ensures
        id_index(styles, id) == (if i == styles.len() {
            None::<int>
        } else {
            Some(i)
        }),
{
    lemma_id_index(styles, id);
    match id_index(styles, id) {
        Some(k) => {
            if k < i {
                assert(styles[k].id != id);
            } else if k > i {
                assert(styles[i].id != id);
            }
        },
        None => {
            if i < styles.len() {
                assert(styles[i].id != id);
            }
        },
    }
}

/// `last_with_id` is the last style with the id, if any.
pub proof fn lemma_last_with_id(styles: Seq<StyleView>, id: Seq<char>)
    ensures
        match last_with_id(styles, id) {
            Some(s) => exists|k: int|
                0 <= k < styles.len() && styles[k] == s && s.id == id && forall|j: int|
                    k < j < styles.len() ==> (#[trigger] styles[j]).id != id,
            None => forall|j: int| 0 <= j < styles.len() ==> (#[trigger] styles[j]).id != id,
        },
    decreases styles.len(),
{
    if styles.len() > 0 && styles.last().id != id {
        lemma_last_with_id(styles.drop_last(), id);
        match last_with_id(styles, id) {
            Some(s) => {
                let k = choose|k: int|
                    0 <= k < styles.drop_last().len() && styles.drop_last()[k] == s && s.id == id
                        && forall|j: int|
                        k < j < styles.drop_last().len() ==> (#[trigger] styles.drop_last()[j]).id
                            != id;
                assert(styles[k] == s);
                assert forall|j: int| k < j < styles.len() implies (#[trigger] styles[j]).id
                    != id by {
                    if j < styles.len() - 1 {
                        assert(styles[j] == styles.drop_last()[j]);
                    }
                }
            },
            None => {
                assert forall|j: int| 0 <= j < styles.len() implies (#[trigger] styles[j]).id
                    != id by {
                    if j < styles.len() - 1 {
                        assert(styles[j] == styles.drop_last()[j]);
                    }
                }
            },
        }
    } else if styles.len() > 0 {
        assert(styles[styles.len() - 1] == styles.last());
    }
}

/// `last_with_id` is the entry at the last position holding the id.
pub proof fn lemma_last_with_id_is(styles: Seq<StyleView>, id: Seq<char>, k: int)
    requires
        -1 <= k < styles.len(),
        k >= 0 ==> styles[k].id == id,
        forall|j: int| k < j < styles.len() ==> (#[trigger] styles[j]).id != id,
    ensures
        last_with_id(styles, id) == (if k < 0 {
            None::<StyleView>
        } else {
            Some(styles[k])
        }),
    decreases styles.len(),
{
    if styles.len() > 0 {
        if k == styles.len() - 1 {
        } else {
            assert(styles[styles.len() - 1].id != id);
            assert forall|j: int| k < j < styles.drop_last().len() implies (
            #[trigger] styles.drop_last()[j]).id != id by {
                assert(styles.drop_last()[j] == styles[j]);
            }
            if k >= 0 {
                assert(styles.drop_last()[k] == styles[k]);
            }
            lemma_last_with_id_is(styles.drop_last(), id, k);
        }
    }
}

/// Looking `id` up after storing `c` finds `c` for its own id and what was
/// there before for any other id.
pub proof fn lemma_lookup_upsert(styles: Seq<StyleView>, c: StyleView, id: Seq<char>)
    ensures
        lookup(upsert(styles, c), id) == (if c.id == id {
            Some(c)
        } else {
            lookup(styles, id)
        }),
{
    lemma_id_index(styles, c.id);
    lemma_id_index(styles, id);
    let u = upsert(styles, c);
    match id_index(styles, c.id) {
        Some(i) => {
            if c.id == id {
                assert forall|j: int| 0 <= j < i implies (#[trigger] u[j]).id != id by {
                    assert(u[j] == styles[j]);
                }
                lemma_id_index_is(u, id, i);
            } else {
                match id_index(styles, id) {
                    Some(k) => {
                        assert forall|j: int| 0 <= j < k implies (#[trigger] u[j]).id != id by {
                            if j != i {
                                assert(u[j] == styles[j]);
                            }
                        }
                        assert(k != i);
                        assert(u[k] == styles[k]);
                        lemma_id_index_is(u, id, k);
                    },
                    None => {
                        assert forall|j: int| 0 <= j < u.len() implies (#[trigger] u[j]).id
                            != id by {
                            if j != i {
                                assert(u[j] == styles[j]);
                            }
                        }
                        lemma_id_index_is(u, id, u.len() as int);
                    },
                }
            }
        },
        None => {
            if c.id == id {
                assert forall|j: int| 0 <= j < styles.len() implies (#[trigger] u[j]).id
                    != id by {
                    assert(u[j] == styles[j]);
                }
                lemma_id_index_is(u, id, styles.len() as int);
            } else {
                match id_index(styles, id) {
                    Some(k) => {
                        assert forall|j: int| 0 <= j < k implies (#[trigger] u[j]).id != id by {
                            assert(u[j] == styles[j]);
                        }
                        assert(u[k] == styles[k]);
                        lemma_id_index_is(u, id, k);
                    },
                    None => {
                        assert forall|j: int| 0 <= j < u.len() implies (#[trigger] u[j]).id
                            != id by {
                            if j < styles.len() {
                                assert(u[j] == styles[j]);
                            }
                        }
                        lemma_id_index_is(u, id, u.len() as int);
                    },
                }
            }
        },
    }
}

/// The offered style with `id` is the last custom style with that id, or the
/// built-in one when no custom style has it.
pub proof fn lemma_lookup_merged(custom: Seq<StyleView>, id: Seq<char>)
    ensures
        lookup(merged(custom), id) == (match last_with_id(custom, id) {
            Some(s) => Some(s),
            None => lookup(builtin_views(), id),
        }),
    decreases custom.len(),
{
    if custom.len() > 0 {
        lemma_lookup_merged(custom.drop_last(), id);
        lemma_lookup_upsert(merged(custom.drop_last()), custom.last(), id);
    }
}

// ---------------------------------------------------------------------------
// Store operations
// ---------------------------------------------------------------------------

fn copy_style(s: &NoteStyle) -> (r: NoteStyle)
    ensures
        r@ == s@,
{
    NoteStyle {
        id: s.id.clone(),
        name: s.name.clone(),
        description: s.description.clone(),
        prompt: s.prompt.clone(),
        builtin: s.builtin,
    }
}

/// Position of the first style in `styles` with the given id.
fn find_id(styles: &Vec<NoteStyle>, id: &String) -> (r: Option<usize>)
    ensures
        match r {
            Some(i) => i < styles@.len() && id_index(views(styles@), id@) == Some(i as int),
            None => id_index(views(styles@), id@) == None::<int>,
        },
{
    let ghost vs = views(styles@);
    let mut i: usize = 0;
    while i < styles.len()
        invariant
            0 <= i <= styles@.len(),
            vs == views(styles@),
            forall|j: int| 0 <= j < i ==> (#[trigger] vs[j]).id != id@,
        decreases styles@.len() - i,
    {
        if styles[i].id == *id {
            proof {
                lemma_id_index_is(vs, id@, i as int);
            }
            return Some(i);
        }
        i = i + 1;
    }
    proof {
        lemma_id_index_is(vs, id@, vs.len() as int);
    }
    None
}

/// Stores `s` into `styles` as `upsert` does.
fn upsert_style(styles: &mut Vec<NoteStyle>, s: NoteStyle)
    ensures
        views(final(styles)@) == upsert(views(old(styles)@), s@),
{
    match find_id(styles, &s.id) {
        Some(i) => {
            let ghost before = views(styles@);
            styles.set(i, s);
            assert(views(styles@) =~= before.update(i as int, s@));
        },
        None => {
            let ghost before = views(styles@);
            styles.push(s);
            assert(views(styles@) =~= before.push(s@));
        },
    }
}

/// The styles offered to the user, given the custom styles saved so far.
pub fn load_styles(custom: &Vec<NoteStyle>) -> (r: Vec<NoteStyle>)
    ensures
        views(r@) == merged(views(custom@)),
{
    let mut styles = builtin_styles();
    let mut k: usize = 0;
    while k < custom.len()
        invariant
            0 <= k <= custom@.len(),
            views(styles@) == merged(views(custom@).take(k as int)),
        decreases custom@.len() - k,
    {
        let c = copy_style(&custom[k]);
        upsert_style(&mut styles, c);
        proof {
            let t = views(custom@).take(k + 1);
            assert(t.drop_last() =~= views(custom@).take(k as int));
            assert(t.last() == custom@[k as int]@);
        }
        k = k + 1;
    }
    assert(views(custom@).take(custom@.len() as int) =~= views(custom@));
    styles
}

/// What `save_style` stores for `s`: `s`, flagged built-in exactly when its
/// id is a built-in id.
pub open spec fn stored_view(s: StyleView) -> StyleView {
    StyleView { builtin: is_builtin_id(s.id), ..s }
}

/// Saves `style` among the custom styles and returns what was stored.
/// Built-in styles stay flagged built-in even when their prompt is edited.
pub fn save_style(custom: &mut Vec<NoteStyle>, style: &NoteStyle) -> (stored: NoteStyle)
    ensures
        stored@ == stored_view(style@),
        views(final(custom)@) == upsert(views(old(custom)@), stored@),
{
    let mut stored = copy_style(style);
    let builtins = builtin_styles();
    let is_builtin = find_id(&builtins, &stored.id).is_some();
    stored.builtin = is_builtin;
    let kept = copy_style(&stored);
    upsert_style(custom, kept);
    stored
}

/// Keeps the styles whose id is not `id`.
pub open spec fn without_id(id: Seq<char>) -> spec_fn(StyleView) -> bool {
    |s: StyleView| s.id != id
}

/// Removes every custom style with this id.
pub fn delete_style(custom: &mut Vec<NoteStyle>, id: &str)
    ensures
        views(final(custom)@) == views(old(custom)@).filter(without_id(id@)),
{
    let key = String::from_str(id);
    let ghost before = views(custom@);
    let mut kept: Vec<NoteStyle> = Vec::new();
    let mut k: usize = 0;
    while k < custom.len()
        invariant
            0 <= k <= custom@.len(),
            before == views(custom@),
            key@ == id@,
            views(kept@) == before.take(k as int).filter(without_id(id@)),
        decreases custom@.len() - k,
    {
        proof {
            let t = before.take(k + 1);
            assert(t.drop_last() =~= before.take(k as int));
            reveal_with_fuel(Seq::filter, 1);
        }
        if custom[k].id != key {
            let c = copy_style(&custom[k]);
            kept.push(c);
            assert(views(kept@) =~= before.take(k as int).filter(without_id(id@)).push(
                c@,
            ));
        }
        k = k + 1;
    }
    assert(before.take(custom@.len() as int) =~= before);
    *custom = kept;
}

/// The offered style with this id.
pub fn get_style(custom: &Vec<NoteStyle>, id: &str) -> (r: Option<NoteStyle>)
    ensures
        r matches Some(s) ==> lookup(merged(views(custom@)), id@) == Some(s@),
        r is None ==> lookup(merged(views(custom@)), id@) is None,
{
    let styles = load_styles(custom);
    let key = String::from_str(id);
    match find_id(&styles, &key) {
        Some(i) => Some(copy_style(&styles[i])),
        None => None,
    }
}

// ---------------------------------------------------------------------------
// Laws of the style store
// ---------------------------------------------------------------------------

/// Reading back a saved style gives what was stored, provided the custom
/// styles saved so far have distinct ids (as `save_style` keeps them).
pub proof fn law_get_after_save(custom: Seq<StyleView>, style: StyleView)
    requires
        unique_ids(custom),
    ensures
        lookup(merged(upsert(custom, stored_view(style))), style.id) == Some(
            stored_view(style),
        ),
{
    let s = stored_view(style);
    let u = upsert(custom, s);
    lemma_id_index(custom, s.id);
    match id_index(custom, s.id) {
        Some(i) => {
            assert forall|j: int| i < j < u.len() implies (#[trigger] u[j]).id != s.id by {
                assert(u[j] == custom[j]);
                assert(custom[j].id != custom[i].id);
            }
            lemma_last_with_id_is(u, s.id, i);
        },
        None => {
            lemma_last_with_id_is(u, s.id, custom.len() as int);
        },
    }
    lemma_lookup_merged(u, s.id);
}

/// Saving a style leaves every other id as it was.
pub proof fn law_save_keeps_others(custom: Seq<StyleView>, style: StyleView, id: Seq<char>)
    requires
        id != style.id,
    ensures
        lookup(merged(upsert(custom, stored_view(style))), id) == lookup(merged(custom), id),
{
    let s = stored_view(style);
    let u = upsert(custom, s);
    lemma_lookup_merged(u, id);
    lemma_lookup_merged(custom, id);
    lemma_id_index(custom, s.id);
    lemma_last_with_id(custom, id);
    match last_with_id(custom, id) {
        Some(x) => {
            let k = choose|k: int|
                0 <= k < custom.len() && custom[k] == x && x.id == id && forall|j: int|
                    k < j < custom.len() ==> (#[trigger] custom[j]).id != id;
            assert forall|j: int| k < j < u.len() implies (#[trigger] u[j]).id != id by {
                if j < custom.len() {
                    if id_index(custom, s.id) is Some && j == id_index(custom, s.id)->0 {
                    } else {
                        assert(u[j] == custom[j]);
                    }
                }
            }
            if id_index(custom, s.id) is Some {
                assert(k != id_index(custom, s.id)->0);
            }
            assert(u[k] == custom[k]);
            lemma_last_with_id_is(u, id, k);
        },
        None => {
            assert forall|j: int| -1 < j < u.len() implies (#[trigger] u[j]).id != id by {
                if j < custom.len() {
                    if id_index(custom, s.id) is Some && j == id_index(custom, s.id)->0 {
                    } else {
                        assert(u[j] == custom[j]);
                    }
                }
            }
            lemma_last_with_id_is(u, id, -1);
        },
    }
}

/// Saving keeps the custom styles' ids distinct.
pub proof fn law_save_keeps_ids_unique(custom: Seq<StyleView>, style: StyleView)
    requires
        unique_ids(custom),
    ensures
        unique_ids(upsert(custom, stored_view(style))),
{
    let s = stored_view(style);
    let u = upsert(custom, s);
    lemma_id_index(custom, s.id);
    assert forall|i: int, j: int|
        0 <= i < u.len() && 0 <= j < u.len() && i != j implies #[trigger] u[i].id
        != #[trigger] u[j].id by {
        match id_index(custom, s.id) {
            Some(k) => {
                if i == k {
                    assert(u[j] == custom[j]);
                    assert(custom[j].id != custom[k].id);
                } else if j == k {
                    assert(u[i] == custom[i]);
                    assert(custom[i].id != custom[k].id);
                } else {
                    assert(u[i] == custom[i]);
                    assert(u[j] == custom[j]);
                }
            },
            None => {
                if i < custom.len() {
                    assert(u[i] == custom[i]);
                }
                if j < custom.len() {
                    assert(u[j] == custom[j]);
                }
            },
        }
    }
}

/// Deleting an id brings back the built-in style with that id, or nothing
/// when it is not a built-in id.
pub proof fn law_get_after_delete(custom: Seq<StyleView>, id: Seq<char>)
    ensures
        lookup(merged(custom.filter(without_id(id))), id) == lookup(
            builtin_views(),
            id,
        ),
{
    let f = custom.filter(without_id(id));
    assert forall|j: int| 0 <= j < f.len() implies (#[trigger] f[j]).id != id by {
        custom.lemma_filter_pred(without_id(id), j);
    }
    lemma_last_with_id_is(f, id, -1);
    lemma_lookup_merged(f, id);
}


/// Two style lists with the same ids at the same positions find an id at
/// the same position.
proof fn lemma_same_ids(a: Seq<StyleView>, b: Seq<StyleView>, x: Seq<char>)
    requires
        a.len() == b.len(),
        forall|j: int| 0 <= j < a.len() ==> (#[trigger] a[j]).id == b[j].id,
    ensures
        id_index(a, x) == id_index(b, x),
{
    lemma_id_index(a, x);
    match id_index(a, x) {
        Some(i) => {
            assert forall|j: int| 0 <= j < i implies (#[trigger] b[j]).id != x by {
                assert(a[j].id != x);
            }
            lemma_id_index_is(b, x, i);
        },
        None => {
            assert forall|j: int| 0 <= j < b.len() implies (#[trigger] b[j]).id != x by {
                assert(a[j].id != x);
            }
            lemma_id_index_is(b, x, b.len() as int);
        },
    }
}

/// Appending a style with another id does not move where an id is found.
proof fn lemma_id_index_push(l: Seq<StyleView>, c: StyleView, x: Seq<char>)
    requires
        c.id != x,
    ensures
        id_index(l.push(c), x) == id_index(l, x),
{
    let p = l.push(c);
    lemma_id_index(l, x);
    match id_index(l, x) {
        Some(i) => {
            assert forall|j: int| 0 <= j < i implies (#[trigger] p[j]).id != x by {
                assert(p[j] == l[j]);
            }
            assert(p[i] == l[i]);
            lemma_id_index_is(p, x, i);
        },
        None => {
            assert forall|j: int| 0 <= j < p.len() implies (#[trigger] p[j]).id != x by {
                if j < l.len() {
                    assert(p[j] == l[j]);
                }
            }
            lemma_id_index_is(p, x, p.len() as int);
        },
    }
}

/// Storing two styles with the same id leaves the second.
proof fn lemma_upsert_twice(l: Seq<StyleView>, a: StyleView, b: StyleView)
    requires
        a.id == b.id,
    ensures
        upsert(upsert(l, a), b) == upsert(l, b),
{
    lemma_id_index(l, a.id);
    match id_index(l, a.id) {
        Some(i) => {
            let la = l.update(i, a);
            lemma_same_ids(la, l, b.id);
            assert(la.update(i, b) =~= l.update(i, b));
        },
        None => {
            let la = l.push(a);
            assert forall|j: int| 0 <= j < l.len() implies (#[trigger] la[j]).id != a.id by {
                assert(la[j] == l[j]);
            }
            lemma_id_index_is(la, a.id, l.len() as int);
            assert(la.update(l.len() as int, b) =~= l.push(b));
        },
    }
}

/// Storing styles with different ids, the first already present, in either
/// order gives the same list.
proof fn lemma_upsert_commute(l: Seq<StyleView>, a: StyleView, b: StyleView)
    requires
        a.id != b.id,
        id_index(l, a.id) is Some,
    ensures
        upsert(upsert(l, a), b) == upsert(upsert(l, b), a),
{
    lemma_id_index(l, a.id);
    lemma_id_index(l, b.id);
    let i = id_index(l, a.id)->0;
    let la = l.update(i, a);
    lemma_same_ids(la, l, b.id);
    match id_index(l, b.id) {
        Some(j) => {
            let lb = l.update(j, b);
            lemma_same_ids(lb, l, a.id);
            assert(la.update(j, b) =~= lb.update(i, a));
        },
        None => {
            let lb = l.push(b);
            lemma_id_index_push(l, b, a.id);
            assert(la.push(b) =~= lb.update(i, a));
        },
    }
}

/// A custom style's id is always among the loaded styles.
proof fn lemma_in_merged(custom: Seq<StyleView>, k: int)
    requires
        0 <= k < custom.len(),
    ensures
        id_index(merged(custom), custom[k].id) is Some,
{
    let x = custom[k].id;
    lemma_lookup_merged(custom, x);
    lemma_last_with_id(custom, x);
}

/// Saving a style into the custom styles changes the loaded list as storing
/// it there directly does: the style with its id is replaced in place, or
/// the style is appended; every other style keeps its position.
pub proof fn law_save_in_place(custom: Seq<StyleView>, s: StyleView)
    requires
        unique_ids(custom),
    ensures
        merged(upsert(custom, s)) == upsert(merged(custom), s),
    decreases custom.len(),
{
    lemma_id_index(custom, s.id);
    let n = custom.len() as int;
    match id_index(custom, s.id) {
        None => {
            assert(custom.push(s).drop_last() =~= custom);
        },
        Some(k) => {
            let u = custom.update(k, s);
            let dl = custom.drop_last();
            let l = custom.last();
            if k == n - 1 {
                assert(u.drop_last() =~= dl);
                assert(u.last() == s);
                lemma_upsert_twice(merged(dl), l, s);
            } else {
                assert forall|j: int| 0 <= j < k implies (#[trigger] dl[j]).id != s.id by {
                    assert(dl[j] == custom[j]);
                }
                lemma_id_index_is(dl, s.id, k);
                assert(u.drop_last() =~= dl.update(k, s));
                assert(u.last() == l);
                assert forall|i: int, j: int|
                    0 <= i < dl.len() && 0 <= j < dl.len() && i != j implies #[trigger] dl[i].id
                    != #[trigger] dl[j].id by {
                    assert(dl[i] == custom[i] && dl[j] == custom[j]);
                }
                law_save_in_place(dl, s);
                assert(l.id != s.id) by {
                    assert(custom[n - 1].id != custom[k].id);
                }
                lemma_in_merged(dl, k);
                lemma_upsert_commute(merged(dl), s, l);
            }
        },
    }
}

/// A one-element list filtered.
proof fn lemma_filter_one(x: StyleView, p: spec_fn(StyleView) -> bool)
    ensures
        seq![x].filter(p) == (if p(x) {
            seq![x]
        } else {
            Seq::<StyleView>::empty()
        }),
{
    reveal_with_fuel(Seq::filter, 2);
    assert(seq![x].drop_last() =~= Seq::<StyleView>::empty());
}

/// Filtering out an id after storing a style: storing one with that id
/// changes nothing that is left; storing one with another id commutes.
proof fn lemma_filter_upsert(l: Seq<StyleView>, c: StyleView, id: Seq<char>)
    ensures
        c.id == id ==> upsert(l, c).filter(without_id(id)) == l.filter(without_id(id)),
        c.id != id ==> upsert(l, c).filter(without_id(id)) == upsert(l.filter(without_id(id)), c),
{
    let w = without_id(id);
    lemma_id_index(l, c.id);
    match id_index(l, c.id) {
        Some(i) => {
            let a = l.take(i);
            let b = l.skip(i + 1);
            assert(l =~= a + seq![l[i]] + b);
            assert(l.update(i, c) =~= a + seq![c] + b);
            Seq::filter_distributes_over_add(a + seq![l[i]], b, w);
            Seq::filter_distributes_over_add(a, seq![l[i]], w);
            Seq::filter_distributes_over_add(a + seq![c], b, w);
            Seq::filter_distributes_over_add(a, seq![c], w);
            lemma_filter_one(l[i], w);
            lemma_filter_one(c, w);
            if c.id != id {
                let fl = l.filter(w);
                let fa = a.filter(w);
                assert(fl =~= fa + seq![l[i]] + b.filter(w));
                assert forall|j: int| 0 <= j < fa.len() implies (#[trigger] fl[j]).id != c.id by {
                    assert(fl[j] == fa[j]);
                    assert(fa.contains(fa[j]));
                    a.lemma_filter_contains_rev(w, fa[j]);
                    let m = choose|m: int| 0 <= m < a.len() && a[m] == fa[j];
                    assert(a[m] == l[m]);
                }
                assert(fl[fa.len() as int] == l[i]);
                lemma_id_index_is(fl, c.id, fa.len() as int);
                assert(fl.update(fa.len() as int, c) =~= fa + seq![c] + b.filter(w));
            }
        },
        None => {
            reveal_with_fuel(Seq::filter, 1);
            assert(l.push(c).drop_last() =~= l);
            if c.id != id {
                let fl = l.filter(w);
                assert forall|j: int| 0 <= j < fl.len() implies (#[trigger] fl[j]).id != c.id by {
                    assert(fl.contains(fl[j]));
                    l.lemma_filter_contains_rev(w, fl[j]);
                }
                lemma_id_index_is(fl, c.id, fl.len() as int);
            }
        },
    }
}

/// Deleting a style keeps every other loaded style, unchanged and in the
/// same relative order.
pub proof fn law_delete_keeps_order(custom: Seq<StyleView>, id: Seq<char>)
    ensures
        merged(custom.filter(without_id(id))).filter(without_id(id)) == merged(custom).filter(
            without_id(id),
        ),
    decreases custom.len(),
{
    let w = without_id(id);
    reveal_with_fuel(Seq::filter, 1);
    if custom.len() == 0 {
        assert(custom.filter(w) =~= custom);
    } else {
        let dl = custom.drop_last();
        let l = custom.last();
        law_delete_keeps_order(dl, id);
        lemma_filter_upsert(merged(dl), l, id);
        if l.id == id {
            assert(custom.filter(w) == dl.filter(w));
        } else {
            let f = dl.filter(w).push(l);
            assert(custom.filter(w) == f);
            assert(f.drop_last() =~= dl.filter(w));
            lemma_filter_upsert(merged(dl.filter(w)), l, id);
        }
    }
}

/// Every built-in style stays on offer whatever the custom styles are.
pub proof fn law_builtins_always_offered(custom: Seq<StyleView>, i: int)
    requires
        0 <= i < builtin_views().len(),
    ensures
        lookup(merged(custom), builtin_views()[i].id) is Some,
{
    let id = builtin_views()[i].id;
    lemma_lookup_merged(custom, id);
    lemma_id_index(builtin_views(), id);
}

// ---------------------------------------------------------------------------
// Previews
// ---------------------------------------------------------------------------

/// The characters a preview drops from the start of each line.
pub open spec fn is_mark(c: char) -> bool {
    c == '#' || c == '-' || c == '*' || c == '>' || c == ' '
}

/// The mark predicate as a value.
pub open spec fn marks() -> spec_fn(char) -> bool {
    |c: char| is_mark(c)
}

/// The non-empty elements of `ls`, in order.
pub open spec fn non_empty(ls: Seq<Seq<char>>) -> Seq<Seq<char>>
    decreases ls.len(),
{
    if ls.len() == 0 {
        seq![]
    } else if ls.last().len() > 0 {
        non_empty(ls.drop_last()).push(ls.last())
    } else {
        non_empty(ls.drop_last())
    }
}

/// The elements of `ls` joined by `sep`.
pub open spec fn join(ls: Seq<Seq<char>>, sep: Seq<char>) -> Seq<char>
    decreases ls.len(),
{
    if ls.len() == 0 {
        seq![]
    } else if ls.len() == 1 {
        ls[0]
    } else {
        join(ls.drop_last(), sep) + sep + ls.last()
    }
}

/// The first `n` characters of `s`.
pub open spec fn take_chars(s: Seq<char>, n: nat) -> Seq<char> {
    if s.len() <= n {
        s
    } else {
        s.take(n as int)
    }
}

/// `take_chars` keeps the start of the text: its first `n` characters, or
/// all of it when shorter.
pub proof fn law_take_chars_is_prefix(s: Seq<char>, n: nat)
    ensures
        take_chars(s, n).len() == if s.len() < n { s.len() } else { n },
        forall|i: int| 0 <= i < take_chars(s, n).len() ==> #[trigger] take_chars(s, n)[i] == s[i],
{
}

/// The text of a note preview: each line of `content` without its leading
/// markdown marks, the empty ones dropped, joined by spaces, cut to 140
/// characters.
pub open spec fn preview_spec(content: Seq<char>) -> Seq<char> {
    take_chars(
        join(
            non_empty(lines(content).map_values(|l: Seq<char>| trim_start_by(l, marks()))),
            " "@,
        ),
        140,
    )
}

/// The start of `trim_start_by(v[lo..hi], marks())` inside `v`.
pub fn marks_start_index(v: &Vec<char>, lo: usize, hi: usize) -> (a: usize)
    requires
        lo <= hi <= v@.len(),
    ensures
        lo <= a <= hi,
        v@.subrange(a as int, hi as int) == trim_start_by(v@.subrange(lo as int, hi as int), marks()),
{
    let mut a = lo;
    while a < hi && (v[a] == '#' || v[a] == '-' || v[a] == '*' || v[a] == '>' || v[a] == ' ')
        invariant
            lo <= a <= hi <= v@.len(),
            forall|j: int| lo <= j < a ==> is_mark(#[trigger] v@[j]),
        decreases hi - a,
    {
        a = a + 1;
    }
    proof {
        let s = v@.subrange(lo as int, hi as int);
        assert forall|j: int| 0 <= j < a - lo implies (marks())(#[trigger] s[j]) by {
            assert(is_mark(v@[lo + j]));
        }
        crate::text::lemma_lead_len_is(s, marks(), a - lo);
        assert(trim_start_by(s, marks()) =~= v@.subrange(a as int, hi as int));
    }
    a
}

/// The first `n` characters of `v`.
pub fn take_prefix(v: &Vec<char>, n: usize) -> (r: String)
    ensures
        r@ == take_chars(v@, n as nat),
{
    if v.len() <= n {
        string_of_all(v)
    } else {
        let r = string_of(v, 0, n);
        assert(v@.subrange(0, n as int) =~= v@.take(n as int));
        r
    }
}

/// A short plain-text preview of a note's content.
#[verifier::spinoff_prover]
pub fn preview_of(content: &str) -> (r: String)
    ensures
        r@ == preview_spec(content@),
{
    let v = to_chars(content);
    let ranges = lines_of(&v);
    let ghost ls = lines(v@).map_values(|l: Seq<char>| trim_start_by(l, marks()));
    let mut out: Vec<char> = Vec::new();
    let mut any = false;
    let mut k: usize = 0;
    while k < ranges.len()
        invariant
            0 <= k <= ranges@.len(),
            ranges@.len() == lines(v@).len(),
            ls == lines(v@).map_values(|l: Seq<char>| trim_start_by(l, marks())),
            forall|i: int|
                0 <= i < ranges@.len() ==> #[trigger] ranges@[i].0 <= ranges@[i].1 <= v@.len(),
            forall|i: int|
                0 <= i < ranges@.len() ==> v@.subrange(ranges@[i].0 as int, ranges@[i].1 as int)
                    == #[trigger] lines(v@)[i],
            out@ == join(non_empty(ls.take(k as int)), " "@),
            any == (non_empty(ls.take(k as int)).len() > 0),
        decreases ranges@.len() - k,
    {
        let (lo, hi) = ranges[k];
        assert(lo <= hi <= v@.len());
        assert(v@.subrange(lo as int, hi as int) == lines(v@)[k as int]);
        let a = marks_start_index(&v, lo, hi);
        proof {
            let t = ls.take(k + 1);
            assert(t.drop_last() =~= ls.take(k as int));
            assert(t.last() == ls[k as int]);
            assert(ls[k as int] == v@.subrange(a as int, hi as int));
        }
        if a < hi {
            let ghost before = out@;
            if any {
                out.push(' ');
            }
            push_range(&mut out, &v, a, hi);
            proof {
                reveal_strlit(" ");
                let prev = non_empty(ls.take(k as int));
                let now = non_empty(ls.take(k + 1));
                assert(now == prev.push(v@.subrange(a as int, hi as int)));
                if prev.len() > 0 {
                    assert(now.drop_last() =~= prev);
                    assert(out@ =~= join(prev, " "@) + " "@ + v@.subrange(a as int, hi as int));
                } else {
                    assert(out@ =~= v@.subrange(a as int, hi as int));
                }
            }
            any = true;
        }
        k = k + 1;
    }
    assert(ls.take(ranges@.len() as int) =~= ls);
    take_prefix(&out, 140)
}


// ---------------------------------------------------------------------------
// Listing notes
// ---------------------------------------------------------------------------

/// `order` (positions into `keys`) with position `i` placed after every
/// position whose key is not before `keys[i]`: newest first, ties in
/// their order.
pub open spec fn insert_newest(order: Seq<int>, keys: Seq<Seq<char>>, i: int) -> Seq<int>
    decreases order.len(),
{
    if order.len() == 0 {
        seq![i]
    } else if text_le(keys[i], keys[order.last()]) {
        order.push(i)
    } else {
        insert_newest(order.drop_last(), keys, i).push(order.last())
    }
}

/// The positions of `keys.take(n)` stably ordered newest first
/// (`sort_by` with the comparison reversed).
pub open spec fn newest_first_upto(keys: Seq<Seq<char>>, n: int) -> Seq<int>
    decreases n,
{
    if n <= 0 {
        seq![]
    } else {
        insert_newest(newest_first_upto(keys, n - 1), keys, n - 1)
    }
}

/// The order in which notes are listed: by creation time (RFC 3339 text),
/// newest first, notes created at the same time in their order.
pub fn newest_first(created: &[String]) -> (r: Vec<usize>)
    ensures
        r@.map_values(|i: usize| i as int) == newest_first_upto(string_views(created@), created@.len() as int),
{
    let ghost keys = string_views(created@);
    let mut chars: Vec<Vec<char>> = Vec::new();
    let mut out: Vec<usize> = Vec::new();
    let mut n: usize = 0;
    while n < created.len()
        invariant
            0 <= n <= created@.len(),
            keys == string_views(created@),
            chars@.len() == n,
            forall|j: int| 0 <= j < n ==> (#[trigger] chars@[j])@ == keys[j],
            out@.map_values(|i: usize| i as int) == newest_first_upto(keys, n as int),
            forall|j: int| 0 <= j < out@.len() ==> (#[trigger] out@[j]) < n,
        decreases created@.len() - n,
    {
        let k = to_chars(created[n].as_str());
        chars.push(k);
        let ghost sorted = out@.map_values(|i: usize| i as int);
        let mut pos = out.len();
        assert(sorted.take(pos as int) =~= sorted);
        assert(sorted.skip(pos as int) =~= Seq::<int>::empty());
        while pos > 0 && !text_le_chars(&chars[n], &chars[out[pos - 1]])
            invariant
                0 <= pos <= out@.len(),
                sorted == out@.map_values(|i: usize| i as int),
                chars@.len() == n + 1,
                forall|j: int| 0 <= j <= n ==> (#[trigger] chars@[j])@ == keys[j],
                forall|j: int| 0 <= j < out@.len() ==> (#[trigger] out@[j]) < n,
                n < keys.len(),
                insert_newest(sorted, keys, n as int) == insert_newest(sorted.take(pos as int), keys, n as int)
                    + sorted.skip(pos as int),
            decreases pos,
        {
            proof {
                let p = sorted.take(pos as int);
                assert(p.drop_last() =~= sorted.take(pos - 1));
                assert(p.last() == sorted[pos - 1]);
                assert(sorted[pos - 1] == out@[pos - 1] as int);
                assert(sorted.skip(pos - 1) =~= seq![sorted[pos - 1]] + sorted.skip(pos as int));
                assert(insert_newest(p, keys, n as int) == insert_newest(sorted.take(pos - 1), keys, n as int).push(sorted[pos - 1]));
                assert(insert_newest(p, keys, n as int) + sorted.skip(pos as int) =~= insert_newest(sorted.take(pos - 1), keys, n as int) + sorted.skip(pos - 1));
            }
            pos = pos - 1;
        }
        proof {
            let p = sorted.take(pos as int);
            if pos == 0 {
                assert(insert_newest(p, keys, n as int) == seq![n as int]);
            } else {
                assert(p.last() == sorted[pos - 1]);
                assert(sorted[pos - 1] == out@[pos - 1] as int);
                assert(insert_newest(p, keys, n as int) == p.push(n as int));
            }
            assert(insert_newest(sorted, keys, n as int) =~= sorted.insert(pos as int, n as int));
        }
        let ghost o0 = out@;
        out.insert(pos, n);
        proof {
            assert(out@.map_values(|i: usize| i as int) =~= sorted.insert(pos as int, n as int));
            assert forall|j: int| 0 <= j < out@.len() implies (#[trigger] out@[j]) < n + 1 by {
                if j < pos {
                    assert(out@[j] == o0[j]);
                } else if j > pos {
                    assert(out@[j] == o0[j - 1]);
                }
            }
        }
        n = n + 1;
    }
    out
}


/// The positions are ordered newest first by their keys.
pub open spec fn newest_ordered(order: Seq<int>, keys: Seq<Seq<char>>) -> bool {
    forall|x: int, y: int|
        0 <= x < y < order.len() ==> text_le(keys[#[trigger] order[y]], keys[#[trigger] order[x]])
}

proof fn lemma_insert_newest(order: Seq<int>, keys: Seq<Seq<char>>, i: int)
    requires
        forall|x: int| 0 <= x < order.len() ==> 0 <= #[trigger] order[x] < keys.len(),
        0 <= i < keys.len(),
        order.no_duplicates(),
        !order.contains(i),
        newest_ordered(order, keys),
    ensures
        insert_newest(order, keys, i).len() == order.len() + 1,
        forall|x: int|
            0 <= x < insert_newest(order, keys, i).len() ==> #[trigger] insert_newest(order, keys, i)[x]
                == i || order.contains(insert_newest(order, keys, i)[x]),
        insert_newest(order, keys, i).no_duplicates(),
        newest_ordered(insert_newest(order, keys, i), keys),
    decreases order.len(),
{
    let r = insert_newest(order, keys, i);
    if order.len() == 0 {
        assert(r =~= seq![i]);
    } else if text_le(keys[i], keys[order.last()]) {
        assert(r == order.push(i));
        assert forall|x: int| 0 <= x < r.len() implies #[trigger] r[x] == i || order.contains(r[x]) by {
            if x < order.len() {
                assert(r[x] == order[x]);
            }
        }
        assert forall|x: int, y: int| 0 <= x < y < r.len() implies text_le(keys[#[trigger] r[y]], keys[#[trigger] r[x]]) by {
            if y == order.len() {
                if x < order.len() - 1 {
                    assert(text_le(keys[order[order.len() - 1]], keys[order[x]]));
                    lemma_text_le_trans(keys[i], keys[order.last()], keys[order[x]]);
                }
            } else {
                assert(r[x] == order[x] && r[y] == order[y]);
            }
        }
    } else {
        let p = order.drop_last();
        let l = order.last();
        assert(order =~= p.push(l));
        assert forall|x: int| 0 <= x < p.len() implies 0 <= #[trigger] p[x] < keys.len() by {
            assert(p[x] == order[x]);
        }
        assert forall|x: int, y: int| 0 <= x < y < p.len() implies text_le(keys[#[trigger] p[y]], keys[#[trigger] p[x]]) by {
            assert(p[x] == order[x] && p[y] == order[y]);
        }
        assert(!p.contains(i)) by {
            if p.contains(i) {
                let k = choose|k: int| 0 <= k < p.len() && p[k] == i;
                assert(order[k] == i);
            }
        }
        lemma_insert_newest(p, keys, i);
        let q = insert_newest(p, keys, i);
        assert(r == q.push(l));
        lemma_text_le_total(keys[i], keys[l]);
        assert forall|x: int| 0 <= x < q.len() implies text_le(keys[l], keys[#[trigger] q[x]]) && q[x] != l by {
            if q[x] == i {
                assert(order.contains(l));
            } else {
                assert(p.contains(q[x]));
                let k = choose|k: int| 0 <= k < p.len() && p[k] == q[x];
                assert(order[k] == q[x]);
                assert(text_le(keys[order[order.len() - 1]], keys[order[k]]));
                assert(order[k] != order[order.len() - 1]);
            }
        }
        assert forall|x: int| 0 <= x < r.len() implies #[trigger] r[x] == i || order.contains(r[x]) by {
            if x < q.len() {
                assert(r[x] == q[x]);
                if q[x] != i {
                    assert(p.contains(q[x]));
                    let k = choose|k: int| 0 <= k < p.len() && p[k] == q[x];
                    assert(order[k] == q[x]);
                }
            } else {
                assert(order[order.len() - 1] == l);
            }
        }
        assert forall|x: int, y: int| 0 <= x < y < r.len() implies r[x] != r[y] by {
            if y < q.len() {
                assert(r[x] == q[x] && r[y] == q[y]);
            } else {
                assert(r[x] == q[x]);
            }
        }
        assert forall|x: int, y: int| 0 <= x < y < r.len() implies text_le(keys[#[trigger] r[y]], keys[#[trigger] r[x]]) by {
            if y < q.len() {
                assert(r[x] == q[x] && r[y] == q[y]);
            } else {
                assert(r[x] == q[x]);
            }
        }
    }
}

/// Notes are listed newest first, each exactly once.
pub proof fn law_newest_first(keys: Seq<Seq<char>>, n: int)
    requires
        0 <= n <= keys.len(),
    ensures
        newest_first_upto(keys, n).len() == n,
        forall|x: int| 0 <= x < n ==> 0 <= #[trigger] newest_first_upto(keys, n)[x] < n,
        newest_first_upto(keys, n).no_duplicates(),
        newest_ordered(newest_first_upto(keys, n), keys),
    decreases n,
{
    if n > 0 {
        law_newest_first(keys, n - 1);
        let prev = newest_first_upto(keys, n - 1);
        assert(!prev.contains(n - 1)) by {
            if prev.contains(n - 1) {
                let k = choose|k: int| 0 <= k < prev.len() && prev[k] == n - 1;
                assert(prev[k] < n - 1);
            }
        }
        lemma_insert_newest(prev, keys, n - 1);
        let now = newest_first_upto(keys, n);
        assert forall|x: int| 0 <= x < n implies 0 <= #[trigger] now[x] < n by {
            if now[x] != n - 1 {
                let k = choose|k: int| 0 <= k < prev.len() && prev[k] == now[x];
                assert(prev[k] < n - 1);
            }
        }
    }
}


// ---------------------------------------------------------------------------
// Laws of previews
// ---------------------------------------------------------------------------

/// The lines of a note with their leading marks dropped, blank ones left out.
pub open spec fn text_lines(content: Seq<char>) -> Seq<Seq<char>> {
    non_empty(lines(content).map_values(|l: Seq<char>| trim_start_by(l, marks())))
}

/// Joined elements start with the first element.
proof fn lemma_join_starts_with_first(ls: Seq<Seq<char>>, sep: Seq<char>)
    requires
        ls.len() > 0,
    ensures
        join(ls, sep).len() >= ls[0].len(),
        join(ls, sep).take(ls[0].len() as int) == ls[0],
    decreases ls.len(),
{
    if ls.len() == 1 {
        assert(join(ls, sep).take(ls[0].len() as int) =~= ls[0]);
    } else {
        lemma_join_starts_with_first(ls.drop_last(), sep);
        let a = join(ls.drop_last(), sep);
        assert(ls.drop_last()[0] == ls[0]);
        assert((a + sep + ls.last()).take(ls[0].len() as int) =~= a.take(ls[0].len() as int));
    }
}

/// The lines kept are exactly the non-blank ones, in order: every kept line
/// is non-blank, and the first kept line is the first non-blank one.
proof fn lemma_non_empty_first(ls: Seq<Seq<char>>)
    ensures
        forall|i: int| 0 <= i < non_empty(ls).len() ==> (#[trigger] non_empty(ls)[i]).len() > 0,
        non_empty(ls).len() > 0 ==> exists|i: int|
            0 <= i < ls.len() && #[trigger] ls[i] == non_empty(ls)[0] && forall|j: int|
                0 <= j < i ==> (#[trigger] ls[j]).len() == 0,
        non_empty(ls).len() == 0 ==> forall|j: int| 0 <= j < ls.len() ==> (#[trigger] ls[j]).len() == 0,
    decreases ls.len(),
{
    if ls.len() > 0 {
        let d = ls.drop_last();
        lemma_non_empty_first(d);
        assert forall|j: int| 0 <= j < d.len() implies d[j] == #[trigger] ls[j] by {}
        if non_empty(d).len() > 0 {
            let i = choose|i: int|
                0 <= i < d.len() && #[trigger] d[i] == non_empty(d)[0] && forall|j: int|
                    0 <= j < i ==> (#[trigger] d[j]).len() == 0;
            assert(ls[i] == d[i]);
            assert forall|j: int| 0 <= j < i implies (#[trigger] ls[j]).len() == 0 by {
                assert(ls[j] == d[j]);
            }
            if ls.last().len() > 0 {
                assert(non_empty(ls)[0] == non_empty(d)[0]);
            }
        } else if ls.last().len() > 0 {
            assert(non_empty(ls)[0] == ls[ls.len() - 1]);
            assert forall|j: int| 0 <= j < ls.len() - 1 implies (#[trigger] ls[j]).len() == 0 by {
                assert(ls[j] == d[j]);
            }
        } else {
            assert forall|j: int| 0 <= j < ls.len() implies (#[trigger] ls[j]).len() == 0 by {
                if j < ls.len() - 1 {
                    assert(ls[j] == d[j]);
                }
            }
        }
        if ls.last().len() > 0 {
            assert forall|i: int| 0 <= i < non_empty(ls).len() implies (#[trigger] non_empty(
                ls,
            )[i]).len() > 0 by {
                if i < non_empty(d).len() {
                    assert(non_empty(ls)[i] == non_empty(d)[i]);
                }
            }
        }
    }
}

/// A preview is the start of the note's text lines joined by spaces: their
/// first 140 characters, or all of them when shorter. So it begins with the
/// note's first text line, or with its first 140 characters.
pub proof fn law_preview_is_start_of_text(content: Seq<char>)
    ensures
        ({
            let f = join(text_lines(content), " "@);
            preview_spec(content) == f.take(
                if f.len() < 140 {
                    f.len() as int
                } else {
                    140
                },
            )
        }),
        text_lines(content).len() > 0 ==> ({
            let l = text_lines(content)[0];
            let n: int = if l.len() < 140 {
                l.len() as int
            } else {
                140
            };
            &&& preview_spec(content).len() >= n
            &&& preview_spec(content).take(n) == l.take(n)
        }),
        forall|i: int|
            0 <= i < text_lines(content).len() ==> (#[trigger] text_lines(content)[i]).len() > 0,
        text_lines(content).len() > 0 ==> exists|i: int|
            0 <= i < lines(content).len() && trim_start_by(#[trigger] lines(content)[i], marks())
                == text_lines(content)[0] && forall|j: int|
                0 <= j < i ==> trim_start_by(#[trigger] lines(content)[j], marks()).len() == 0,
{
    let ls = lines(content).map_values(|l: Seq<char>| trim_start_by(l, marks()));
    let f = join(text_lines(content), " "@);
    if f.len() < 140 {
        assert(f.take(f.len() as int) =~= f);
    }
    lemma_non_empty_first(ls);
    if text_lines(content).len() > 0 {
        let l = text_lines(content)[0];
        lemma_join_starts_with_first(text_lines(content), " "@);
        let n: int = if l.len() < 140 {
            l.len() as int
        } else {
            140
        };
        let p = preview_spec(content);
        assert(p.take(n) =~= f.take(n));
        assert(f.take(n) =~= f.take(l.len() as int).take(n));
        let i = choose|i: int|
            0 <= i < ls.len() && #[trigger] ls[i] == non_empty(ls)[0] && forall|j: int|
                0 <= j < i ==> (#[trigger] ls[j]).len() == 0;
        assert(ls[i] == trim_start_by(lines(content)[i], marks()));
        assert forall|j: int| 0 <= j < i implies trim_start_by(#[trigger] lines(content)[j], marks()).len()
            == 0 by {
            assert(ls[j] == trim_start_by(lines(content)[j], marks()));
        }
    }
}

} // verus!
