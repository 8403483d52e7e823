//! The rules the app's commands apply around the engines: error texts, note
//! titles and the prompt a note style makes of a transcript.
use vstd::prelude::*;
use crate::calendar::{current_or_next, event_spans, is_pick, no_pick, pair, Instant};
use crate::types::CalendarEvent;
use crate::storage::{marks, marks_start_index, take_chars, take_prefix};
use crate::text::{
    find_sub, find_sub_in, lines, lines_of, push_str, replace_all, replace_chars, string_of,
    string_of_all, str_eq, to_chars, trim, trim_range, trim_start_by,
};
use crate::types::NoteStyle;

verus! {

/// The text of an error, as the commands hand it to the front end.
pub fn err(e: &str) -> (r: String)
    ensures
        r@ == e@,
{
    String::from_str(e)
}

// ---------------------------------------------------------------------------
// Titles
// ---------------------------------------------------------------------------

/// The first line of `ls` that is not empty once its leading markdown marks
/// are dropped and it is trimmed, in that form.
pub open spec fn title_line(ls: Seq<Seq<char>>) -> Option<Seq<char>>
    decreases ls.len(),
{
    if ls.len() == 0 {
        None
    } else {
        let t = trim(trim_start_by(ls[0], marks()));
        if t.len() > 0 {
            Some(t)
        } else {
            title_line(ls.drop_first())
        }
    }
}

/// The title a note's content suggests: its first text line, cut to sixty
/// characters; "Untitled note" when there is none.
pub open spec fn derived_title(content: Seq<char>) -> Seq<char> {
    take_chars(
        match title_line(lines(content)) {
            Some(t) => t,
            None => "Untitled note"@,
        },
        60,
    )
}

/// Derives a note title from its content.
#[verifier::spinoff_prover]
pub fn derive_title(content: &str) -> (r: String)
    ensures
        r@ == derived_title(content@),
{
    let v = to_chars(content);
    let ranges = lines_of(&v);
    let ghost ls = lines(v@);
    let mut k: usize = 0;
    assert(ls.skip(0) =~= ls);
    while k < ranges.len()
        invariant
            0 <= k <= ranges@.len(),
            v@ == content@,
            ls == lines(v@),
            ranges@.len() == ls.len(),
            forall|i: int| 0 <= i < ranges@.len() ==> #[trigger] ranges@[i].0 <= ranges@[i].1 <= v@.len(),
            forall|i: int|
                0 <= i < ranges@.len() ==> v@.subrange(ranges@[i].0 as int, ranges@[i].1 as int)
                    == #[trigger] ls[i],
            title_line(ls) == title_line(ls.skip(k as int)),
        decreases ranges@.len() - k,
    {
        let (lo, hi) = ranges[k];
        assert(lo <= hi <= v@.len());
        assert(v@.subrange(lo as int, hi as int) == ls[k as int]);
        let a = marks_start_index(&v, lo, hi);
        let (x, y) = trim_range(&v, a, hi);
        assert(ls.skip(k as int)[0] == ls[k as int]);
        assert(ls.skip(k as int).drop_first() =~= ls.skip(k + 1));
        assert(v@.subrange(x as int, y as int) == trim(trim_start_by(ls[k as int], marks())));
        if x < y {
            assert(title_line(ls.skip(k as int)) == Some(v@.subrange(x as int, y as int)));
            let t = string_of(&v, x, y);
            let tv = to_chars(t.as_str());
            return take_prefix(&tv, 60);
        }
        k = k + 1;
    }
    assert(ls.skip(k as int).len() == 0);
    let u = to_chars("Untitled note");
    take_prefix(&u, 60)
}

/// Whether a note is renamed after its content once notes are generated:
/// its title is blank or still the placeholder "New recording".
pub open spec fn needs_title(title: Seq<char>) -> bool {
    trim(title).len() == 0 || title == "New recording"@
}

/// The title a note keeps once its notes are generated.
pub fn title_after_generation(title: &str, content: &str) -> (r: String)
    ensures
        r@ == (if needs_title(title@) {
            derived_title(content@)
        } else {
            title@
        }),
{
    let v = to_chars(title);
    let (a, b) = trim_range(&v, 0, v.len());
    assert(v@.subrange(0, v@.len() as int) =~= title@);
    if a == b || str_eq(title, "New recording") {
        derive_title(content)
    } else {
        String::from_str(title)
    }
}

/// The title suggested for a new recording: that of the calendar event
/// under way or about to start, else "New recording".
pub fn suggested_title(events: &[CalendarEvent], now: Instant) -> (r: String)
    ensures
        no_pick(event_spans(events@), pair(now)) ==> r@ == "New recording"@,
        !no_pick(event_spans(events@), pair(now)) ==> exists|i: int|
            #[trigger] is_pick(event_spans(events@), pair(now), i) && r@
                == events@[i].title@,
{
    match current_or_next(events, now) {
        Some(e) => e.title.clone(),
        None => String::from_str("New recording"),
    }
}

// ---------------------------------------------------------------------------
// Prompts
// ---------------------------------------------------------------------------

/// The placeholder a style's prompt may hold for the transcript.
pub open spec fn placeholder() -> Seq<char> {
    "{transcript}"@
}

/// The prompt a style makes of a transcript: the transcript put in place of
/// every placeholder, or appended after a blank line when there is none.
pub open spec fn prompt_spec(template: Seq<char>, transcript: Seq<char>) -> Seq<char> {
    if find_sub(template, placeholder()) is Some {
        replace_all(template, placeholder(), transcript)
    } else {
        template + "\n\n"@ + transcript
    }
}

/// Builds the prompt a style makes of a transcript.
pub fn build_prompt(template: &str, transcript: &str) -> (r: String)
    ensures
        r@ == prompt_spec(template@, transcript@),
{
    let t = to_chars(template);
    let p = to_chars("{transcript}");
    proof {
        reveal_strlit("{transcript}");
    }
    match find_sub_in(&t, &p) {
        Some(_) => {
            let x = to_chars(transcript);
            let r = replace_chars(&t, &p, &x);
            string_of_all(&r)
        },
        None => {
            let mut out: Vec<char> = Vec::new();
            push_str(&mut out, template);
            push_str(&mut out, "\n\n");
            push_str(&mut out, transcript);
            string_of_all(&out)
        },
    }
}

/// The prompt for generating a note, or why there is none: a blank
/// transcript, then an unknown style.
pub open spec fn note_prompt_spec(transcript: Seq<char>, template: Option<Seq<char>>) -> Result<Seq<char>, Seq<char>> {
    if trim(transcript).len() == 0 {
        Err("No transcript to summarise yet"@)
    } else {
        match template {
            None => Err("unknown note style"@),
            Some(t) => Ok(prompt_spec(t, transcript)),
        }
    }
}

/// The prompt for generating a note from its transcript with `style`.
pub fn note_prompt(transcript: &str, style: Option<&NoteStyle>) -> (r: Result<String, String>)
    ensures
        crate::integrations::result_view(r) == note_prompt_spec(
            transcript@,
            match style {
                Some(s) => Some(s.prompt@),
                None => None,
            },
        ),
{
    let v = to_chars(transcript);
    let (a, b) = trim_range(&v, 0, v.len());
    assert(v@.subrange(0, v@.len() as int) =~= transcript@);
    if a == b {
        return Err(String::from_str("No transcript to summarise yet"));
    }
    match style {
        None => Err(String::from_str("unknown note style")),
        Some(s) => Ok(build_prompt(s.prompt.as_str(), transcript)),
    }
}


/// The first text line found is not empty.
proof fn lemma_title_line_nonempty(ls: Seq<Seq<char>>)
    ensures
        title_line(ls) matches Some(t) ==> t.len() > 0,
    decreases ls.len(),
{
    if ls.len() > 0 {
        lemma_title_line_nonempty(ls.drop_first());
    }
}

/// A derived title is never empty and has at most sixty characters.
pub proof fn law_derived_title_bounds(content: Seq<char>)
    ensures
        0 < derived_title(content).len() <= 60,
{
    reveal_strlit("Untitled note");
    lemma_title_line_nonempty(lines(content));
}


/// The line `l` with its leading markdown marks dropped, then trimmed.
pub open spec fn text_of_line(l: Seq<char>) -> Seq<char> {
    trim(trim_start_by(l, marks()))
}

/// The title line is the first line with text once its marks are dropped,
/// in that form; there is none when no line has text.
pub proof fn law_title_line_is_first_text_line(ls: Seq<Seq<char>>)
    ensures
        match title_line(ls) {
            Some(t) => exists|i: int|
                0 <= i < ls.len() && t == text_of_line(#[trigger] ls[i]) && t.len() > 0 && forall|
                    j: int,
                | 0 <= j < i ==> text_of_line(#[trigger] ls[j]).len() == 0,
            None => forall|j: int| 0 <= j < ls.len() ==> text_of_line(#[trigger] ls[j]).len() == 0,
        },
    decreases ls.len(),
{
    if ls.len() > 0 {
        law_title_line_is_first_text_line(ls.drop_first());
        if text_of_line(ls[0]).len() == 0 {
            match title_line(ls.drop_first()) {
                Some(t) => {
                    let i = choose|i: int|
                        0 <= i < ls.drop_first().len() && t == text_of_line(
                            #[trigger] ls.drop_first()[i],
                        ) && t.len() > 0 && forall|j: int|
                            0 <= j < i ==> text_of_line(#[trigger] ls.drop_first()[j]).len() == 0;
                    assert(ls[i + 1] == ls.drop_first()[i]);
                    assert forall|j: int| 0 <= j < i + 1 implies text_of_line(#[trigger] ls[j]).len()
                        == 0 by {
                        if j > 0 {
                            assert(ls[j] == ls.drop_first()[j - 1]);
                        }
                    }
                },
                None => {
                    assert forall|j: int| 0 <= j < ls.len() implies text_of_line(#[trigger] ls[j]).len()
                        == 0 by {
                        if j > 0 {
                            assert(ls[j] == ls.drop_first()[j - 1]);
                        }
                    }
                },
            }
        } else {
            assert(text_of_line(ls[0]) == text_of_line(ls[0]));
        }
    }
}

/// The derived title is the start of the note's first text line: its first
/// sixty characters, or the whole line when it is shorter; "Untitled note"
/// when no line has text.
pub proof fn law_title_is_start_of_line(content: Seq<char>)
    ensures
        match title_line(lines(content)) {
            Some(t) => derived_title(content) == t.take(
                if t.len() < 60 {
                    t.len() as int
                } else {
                    60
                },
            ),
            None => derived_title(content) == "Untitled note"@,
        },
{
    reveal_strlit("Untitled note");
    match title_line(lines(content)) {
        Some(t) => {
            if t.len() < 60 {
                assert(t.take(t.len() as int) =~= t);
            }
        },
        None => {},
    }
}

} // verus!
