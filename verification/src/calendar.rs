//! Calendar feeds: unfolding and reading iCalendar text, the feeds a user
//! has configured, and which event a recording belongs to. Date and time
//! arithmetic is chrono's; the library holds an instant as plain numbers.
use vstd::prelude::*;
use crate::types::{
    integration_index, option_value, CalendarEvent, IntegrationConfig, Settings,
};
use chrono::{DateTime, Local, NaiveDate, NaiveDateTime, TimeZone, Utc};
use crate::text::{
    char_views, find_char, find_char_in, lines, lines_of, push_range, push_str, range_eq_str,
    replace_all, replace_str, starts_with, starts_with_str, string_of, string_of_all,
    string_views, text_le, text_le_chars, lemma_text_le_total, lemma_text_le_trans, to_chars, trim,
    trim_range, utf8_len_at_least,
};

verus! {

// ---------------------------------------------------------------------------
// Providers
// ---------------------------------------------------------------------------

/// The integrations that are calendar feeds, in the order they are read.
pub open spec fn provider_ids() -> Seq<Seq<char>> {
    seq!["google-calendar"@, "apple-calendar"@, "microsoft-calendar"@]
}

/// The display label of each calendar feed.
pub open spec fn provider_labels() -> Seq<Seq<char>> {
    seq!["Google"@, "Apple"@, "Microsoft"@]
}

/// Which configured integrations are calendar feeds, and their labels.
fn providers() -> (r: Vec<(&'static str, &'static str)>)
    ensures
        r@.len() == 3,
        forall|i: int|
            0 <= i < 3 ==> (#[trigger] r@[i]).0@ == provider_ids()[i] && r@[i].1@
                == provider_labels()[i],
{
    vec![("google-calendar", "Google"), ("apple-calendar", "Apple"), (
        "microsoft-calendar",
        "Microsoft",
    )]
}

// ---------------------------------------------------------------------------
// Folded lines
// ---------------------------------------------------------------------------

/// A line that continues the previous one: it starts with a space or a tab.
pub open spec fn is_continuation(l: Seq<char>) -> bool {
    l.len() > 0 && (l[0] == ' ' || l[0] == '\t')
}

/// The logical lines of physical lines `ls`: each continuation line, less
/// its first character, is appended to the line before it (if any).
pub open spec fn unfold_lines(ls: Seq<Seq<char>>) -> Seq<Seq<char>>
    decreases ls.len(),
{
    if ls.len() == 0 {
        seq![]
    } else {
        let out = unfold_lines(ls.drop_last());
        let l = ls.last();
        if is_continuation(l) && out.len() > 0 {
            out.update(out.len() - 1, out.last() + l.skip(1))
        } else {
            out.push(l)
        }
    }
}

/// The logical lines of an iCalendar text: carriage returns removed, split
/// into lines, folded lines joined (RFC 5545).
pub open spec fn unfolded(ics: Seq<char>) -> Seq<Seq<char>> {
    unfold_lines(lines(replace_all(ics, "\r"@, seq![])))
}

#[verifier::spinoff_prover]
fn unfold_chars(ics: &str) -> (r: Vec<Vec<char>>)
    ensures
        char_views(r@) == unfolded(ics@),
{
    let v = to_chars(ics);
    proof {
        reveal_strlit("\r");
        reveal_strlit("");
    }
    let w = replace_str(&v, "\r", "");
    assert(""@ =~= Seq::<char>::empty());
    let ranges = lines_of(&w);
    let ghost ls = lines(w@);
    let mut out: Vec<Vec<char>> = Vec::new();
    let mut k: usize = 0;
    assert(char_views(out@) =~= unfold_lines(ls.take(0)));
    while k < ranges.len()
        invariant
            0 <= k <= ranges@.len(),
            ls == lines(w@),
            ranges@.len() == ls.len(),
            forall|i: int| 0 <= i < ranges@.len() ==> #[trigger] ranges@[i].0 <= ranges@[i].1 <= w@.len(),
            forall|i: int|
                0 <= i < ranges@.len() ==> w@.subrange(ranges@[i].0 as int, ranges@[i].1 as int)
                    == #[trigger] ls[i],
            char_views(out@) == unfold_lines(ls.take(k as int)),
        decreases ranges@.len() - k,
    {
        let (lo, hi) = ranges[k];
        assert(lo <= hi <= w@.len());
        let ghost l = ls[k as int];
        assert(w@.subrange(lo as int, hi as int) == l);
        proof {
            let t = ls.take(k + 1);
            assert(t.drop_last() =~= ls.take(k as int));
            assert(t.last() == l);
        }
        let ghost before = char_views(out@);
        if lo < hi && (w[lo] == ' ' || w[lo] == '\t') && out.len() > 0 {
            let mut last = out.pop().unwrap();
            proof {
                assert(before.last() == last@);
            }
            let ghost last0 = last@;
            push_range(&mut last, &w, lo + 1, hi);
            out.push(last);
            proof {
                assert(l.skip(1) =~= w@.subrange(lo + 1, hi as int));
                assert(char_views(out@) =~= before.update(before.len() - 1, before.last() + l.skip(1)));
            }
        } else {
            let mut line: Vec<char> = Vec::new();
            push_range(&mut line, &w, lo, hi);
            out.push(line);
            proof {
                assert(line@ =~= l);
                assert(char_views(out@) =~= before.push(l));
            }
        }
        k = k + 1;
    }
    assert(ls.take(ranges@.len() as int) =~= ls);
    out
}

/// Unfolds RFC 5545 folded lines (continuation lines begin with a space or a
/// tab).
pub fn unfold(ics: &str) -> (r: Vec<String>)
    ensures
        string_views(r@) == unfolded(ics@),
{
    let ls = unfold_chars(ics);
    let mut out: Vec<String> = Vec::new();
    let mut i: usize = 0;
    while i < ls.len()
        invariant
            0 <= i <= ls@.len(),
            string_views(out@) == char_views(ls@).take(i as int),
        decreases ls@.len() - i,
    {
        let ghost before = string_views(out@);
        out.push(string_of_all(&ls[i]));
        assert(string_views(out@) =~= before.push(ls@[i as int]@));
        assert(char_views(ls@).take(i + 1) =~= char_views(ls@).take(i as int).push(ls@[i as int]@));
        i = i + 1;
    }
    assert(char_views(ls@).take(ls@.len() as int) =~= char_views(ls@));
    out
}

// ---------------------------------------------------------------------------
// Escaped text
// ---------------------------------------------------------------------------

/// An iCalendar text value with its escapes resolved, in the order `\n`,
/// `\N`, `\,`, `\;`, `\\`.
pub open spec fn unescaped(v: Seq<char>) -> Seq<char> {
    replace_all(
        replace_all(
            replace_all(replace_all(replace_all(v, "\\n"@, "\n"@), "\\N"@, "\n"@), "\\,"@, ","@),
            "\\;"@,
            ";"@,
        ),
        "\\\\"@,
        "\\"@,
    )
}

fn unescape_chars(v: &Vec<char>) -> (r: Vec<char>)
    ensures
        r@ == unescaped(v@),
{
    proof {
        reveal_strlit("\\n");
        reveal_strlit("\\N");
        reveal_strlit("\\,");
        reveal_strlit("\\;");
        reveal_strlit("\\\\");
    }
    let a = replace_str(v, "\\n", "\n");
    let b = replace_str(&a, "\\N", "\n");
    let c = replace_str(&b, "\\,", ",");
    let d = replace_str(&c, "\\;", ";");
    replace_str(&d, "\\\\", "\\")
}

/// Resolves the escapes of an iCalendar text value.
pub fn unescape(value: &str) -> (r: String)
    ensures
        r@ == unescaped(value@),
{
    let v = to_chars(value);
    let u = unescape_chars(&v);
    string_of_all(&u)
}

// ---------------------------------------------------------------------------
// Instants
// ---------------------------------------------------------------------------

/// An instant as chrono's `DateTime<Utc>` holds it: whole seconds since the
/// Unix epoch, and nanoseconds past that second.
#[derive(Debug, Clone, Copy, PartialEq, Eq, Structural)]
pub struct Instant {
    pub secs: i64,
    pub nanos: u32,
}

/// An instant as a pair of numbers.
pub open spec fn pair(i: Instant) -> (int, int) {
    (i.secs as int, i.nanos as int)
}

/// An optional instant as an optional pair.
pub open spec fn opt_pair(o: Option<Instant>) -> Option<(int, int)> {
    match o {
        Some(i) => Some(pair(i)),
        None => None,
    }
}

/// chrono's order on UTC date-times, which is the order of the pairs.
pub open spec fn pair_le(a: (int, int), b: (int, int)) -> bool {
    a.0 < b.0 || (a.0 == b.0 && a.1 <= b.1)
}

/// Strictly before.
pub open spec fn pair_lt(a: (int, int), b: (int, int)) -> bool {
    a.0 < b.0 || (a.0 == b.0 && a.1 < b.1)
}

fn instant_le(a: Instant, b: Instant) -> (r: bool)
    ensures
        r == pair_le(pair(a), pair(b)),
{
    a.secs < b.secs || (a.secs == b.secs && a.nanos <= b.nanos)
}

fn instant_lt(a: Instant, b: Instant) -> (r: bool)
    ensures
        r == pair_lt(pair(a), pair(b)),
{
    a.secs < b.secs || (a.secs == b.secs && a.nanos < b.nanos)
}

/// The instant chrono's `NaiveDateTime::parse_from_str` reads from `text`
/// with format `fmt`, taken as UTC, if it reads one.
pub uninterp spec fn naive_datetime_parsed(text: Seq<char>, fmt: Seq<char>) -> Option<(int, int)>;

/// `NaiveDateTime::parse_from_str`, the result taken as a UTC date-time
/// (`Utc.from_utc_datetime`). The claim is only that the result is a
/// function of the text and the format (`naive_datetime_parsed`).
#[verifier::external_body]
fn parse_naive_utc(text: &str, fmt: &str) -> (r: Option<Instant>)
    ensures
        opt_pair(r) == naive_datetime_parsed(text@, fmt@),
{
    NaiveDateTime::parse_from_str(text, fmt).ok().map(|nd| Utc.from_utc_datetime(&nd)).map(
        |d| Instant { secs: d.timestamp(), nanos: d.timestamp_subsec_nanos() },
    )
}

/// The instant of midnight UTC on the date chrono's
/// `NaiveDate::parse_from_str` reads from `text` with format `fmt`, if it
/// reads one.
pub uninterp spec fn naive_date_midnight(text: Seq<char>, fmt: Seq<char>) -> Option<(int, int)>;

/// `NaiveDate::parse_from_str`, the date taken at 00:00:00 UTC
/// (`and_hms_opt`, `Utc.from_utc_datetime`). The claim is only that the
/// result is a function of the text and the format (`naive_date_midnight`).
#[verifier::external_body]
fn parse_date_midnight_utc(text: &str, fmt: &str) -> (r: Option<Instant>)
    ensures
        opt_pair(r) == naive_date_midnight(text@, fmt@),
{
    NaiveDate::parse_from_str(text, fmt).ok().and_then(|d| d.and_hms_opt(0, 0, 0)).map(
        |nd| Utc.from_utc_datetime(&nd),
    ).map(|d| Instant { secs: d.timestamp(), nanos: d.timestamp_subsec_nanos() })
}

/// `Local.from_local_datetime(..).single()`: the wall-clock time `naive`
/// (given as if it were UTC) read in the machine's time zone, as a UTC
/// instant, unless that wall-clock time is ambiguous or does not exist
/// there. Which instant depends on the machine's time zone; the claim is
/// only that it is the wall-clock time shifted by an offset of less than a
/// day (chrono's `FixedOffset` bound), to the second.
#[verifier::external_body]
fn local_to_utc(naive: Instant) -> (r: Option<Instant>)
    ensures
        r matches Some(u) ==> naive.secs - 86400 < u.secs < naive.secs + 86400 && u.nanos == naive.nanos,
{
    DateTime::from_timestamp(naive.secs, naive.nanos).map(|d| d.naive_utc()).and_then(
        |nd| Local.from_local_datetime(&nd).single(),
    ).map(|d| d.with_timezone(&Utc)).map(
        |d| Instant { secs: d.timestamp(), nanos: d.timestamp_subsec_nanos() },
    )
}

/// The text `DateTime::<Utc>::to_rfc3339` gives for the instant
/// (`secs`, `nanos`); empty where chrono cannot represent it.
pub uninterp spec fn rfc3339_text(secs: int, nanos: int) -> Seq<char>;

/// `DateTime::<Utc>::to_rfc3339`. The claim is only that the text is a
/// function of the instant (`rfc3339_text`).
#[verifier::external_body]
fn rfc3339_of(i: Instant) -> (r: String)
    ensures
        r@ == rfc3339_text(i.secs as int, i.nanos as int),
{
    DateTime::from_timestamp(i.secs, i.nanos).map(|d| d.to_rfc3339()).unwrap_or_default()
}

/// The instant chrono's `DateTime::parse_from_rfc3339` reads from `text`, if
/// it reads one.
pub uninterp spec fn rfc3339_instant(text: Seq<char>) -> Option<(int, int)>;

/// `DateTime::parse_from_rfc3339`, the result taken in UTC. The claim is
/// only that the result is a function of the text (`rfc3339_instant`).
#[verifier::external_body]
fn parse_rfc3339(text: &str) -> (r: Option<Instant>)
    ensures
        opt_pair(r) == rfc3339_instant(text@),
{
    DateTime::parse_from_rfc3339(text).ok().map(|d| d.with_timezone(&Utc)).map(
        |d| Instant { secs: d.timestamp(), nanos: d.timestamp_subsec_nanos() },
    )
}

// ---------------------------------------------------------------------------
// Date-time values
// ---------------------------------------------------------------------------

/// The format of a UTC date-time value.
pub open spec fn utc_format() -> Seq<char> {
    "%Y%m%dT%H%M%SZ"@
}

/// The format of a date value.
pub open spec fn date_format() -> Seq<char> {
    "%Y%m%d"@
}

/// The format of a floating (local) date-time value.
pub open spec fn floating_format() -> Seq<char> {
    "%Y%m%dT%H%M%S"@
}

/// The instant an iCalendar date-time value stands for, where it does not
/// depend on the machine's time zone: a value ending in `Z` is UTC, one of
/// eight bytes is a date (midnight UTC). `None` marks a floating value.
pub open spec fn fixed_dt(value: Seq<char>) -> Option<Option<(int, int)>> {
    let v = trim(value);
    if v.len() > 0 && v.last() == 'Z' {
        Some(naive_datetime_parsed(v, utc_format()))
    } else if vstd::utf8::encode_utf8(v).len() == 8 {
        Some(naive_date_midnight(v, date_format()))
    } else {
        None
    }
}

/// What parsing `value` may give: exactly the fixed instant where there is
/// one; for a floating value, nothing when it does not read as a date-time,
/// and otherwise (the machine's time zone decides) either nothing or that
/// wall-clock time shifted by less than a day, to the second.
pub open spec fn dt_possible(value: Seq<char>, p: Option<(int, int)>) -> bool {
    match fixed_dt(value) {
        Some(x) => p == x,
        None => match p {
            None => true,
            Some(u) => match naive_datetime_parsed(trim(value), floating_format()) {
                None => false,
                Some(n) => n.0 - 86400 < u.0 < n.0 + 86400 && u.1 == n.1,
            },
        },
    }
}

/// Parses an iCalendar date-time value (the part after the property's
/// colon): UTC (`...Z`), date-only, or floating (local time).
pub fn parse_dt(value: &str) -> (r: Option<Instant>)
    ensures
        dt_possible(value@, opt_pair(r)),
{
    let v = to_chars(value);
    let (a, b) = trim_range(&v, 0, v.len());
    assert(v@.subrange(0, v@.len() as int) =~= value@);
    let t = string_of(&v, a, b);
    if a < b && v[b - 1] == 'Z' {
        parse_naive_utc(t.as_str(), "%Y%m%dT%H%M%SZ")
    } else if utf8_len_at_least(&v, a, b, 8) && !utf8_len_at_least(&v, a, b, 9) {
        parse_date_midnight_utc(t.as_str(), "%Y%m%d")
    } else {
        match parse_naive_utc(t.as_str(), "%Y%m%dT%H%M%S") {
            Some(nd) => local_to_utc(nd),
            None => None,
        }
    }
}

// ---------------------------------------------------------------------------
// Feed URLs
// ---------------------------------------------------------------------------

/// A `webcal://` URL with its scheme replaced by `https://`; any other URL
/// as it is.
pub open spec fn https_url(url: Seq<char>) -> Seq<char> {
    if starts_with(url, "webcal://"@) {
        "https://"@ + url.skip(9)
    } else {
        url
    }
}

/// Rewrites a `webcal://` feed URL to `https://`.
pub fn to_https(url: &str) -> (r: String)
    ensures
        r@ == https_url(url@),
{
    let v = to_chars(url);
    proof {
        reveal_strlit("webcal://");
    }
    if starts_with_str(&v, 0, v.len(), "webcal://") {
        assert(v@.subrange(0, v@.len() as int) =~= v@);
        let mut out: Vec<char> = Vec::new();
        push_str(&mut out, "https://");
        push_range(&mut out, &v, 9, v.len());
        assert(out@ =~= "https://"@ + url@.skip(9));
        string_of_all(&out)
    } else {
        assert(v@.subrange(0, v@.len() as int) =~= v@);
        String::from_str(url)
    }
}


// ---------------------------------------------------------------------------
// Reading events
// ---------------------------------------------------------------------------

/// An event as the text gives it, before its date-times are read: the
/// unescaped summary, and the raw DTSTART and DTEND values where present.
#[derive(Debug, Clone)]
pub struct RawEvent {
    pub title: String,
    pub start: Option<String>,
    pub end: Option<String>,
}

/// An optional string as an optional text.
pub open spec fn opt_text(o: Option<String>) -> Option<Seq<char>> {
    match o {
        Some(s) => Some(s@),
        None => None,
    }
}

/// An optional character vector as an optional text.
pub open spec fn opt_chars(o: Option<Vec<char>>) -> Option<Seq<char>> {
    match o {
        Some(s) => Some(s@),
        None => None,
    }
}

/// A raw event as values.
pub open spec fn raw_view(r: RawEvent) -> (Seq<char>, Option<Seq<char>>, Option<Seq<char>>) {
    (r.title@, opt_text(r.start), opt_text(r.end))
}

/// Raw events as values.
pub open spec fn raw_views(rs: Seq<RawEvent>) -> Seq<(Seq<char>, Option<Seq<char>>, Option<Seq<char>>)> {
    rs.map_values(|r: RawEvent| raw_view(r))
}

/// Where reading an iCalendar text has got to: inside an event or not, the
/// summary and raw date-times seen since the last `BEGIN:VEVENT`, and the
/// events completed so far.
pub struct ScanState {
    pub in_event: bool,
    pub title: Seq<char>,
    pub start: Option<Seq<char>>,
    pub end: Option<Seq<char>>,
    pub out: Seq<(Seq<char>, Option<Seq<char>>, Option<Seq<char>>)>,
}

/// Before the first line.
pub open spec fn scan_init() -> ScanState {
    ScanState { in_event: false, title: seq![], start: None, end: None, out: seq![] }
}

/// The name (without `;` parameters) and the value of a property line.
pub open spec fn property(line: Seq<char>) -> Option<(Seq<char>, Seq<char>)> {
    match find_char(line, ':') {
        Some(k) => {
            let np = line.take(k);
            let name = match find_char(np, ';') {
                Some(j) => np.take(j),
                None => np,
            };
            Some((name, line.skip(k + 1)))
        },
        None => None,
    }
}

/// One line read. `BEGIN:VEVENT` starts an event afresh; `END:VEVENT` ends
/// it and completes an event when a start has been seen; inside an event,
/// `SUMMARY`, `DTSTART` and `DTEND` are kept and other lines ignored.
pub open spec fn scan_step(st: ScanState, line: Seq<char>) -> ScanState {
    if line == "BEGIN:VEVENT"@ {
        ScanState { in_event: true, title: seq![], start: None, end: None, out: st.out }
    } else if line == "END:VEVENT"@ {
        ScanState {
            in_event: false,
            title: st.title,
            start: st.start,
            end: st.end,
            out: if st.start is Some {
                st.out.push((st.title, st.start, st.end))
            } else {
                st.out
            },
        }
    } else if st.in_event {
        match property(line) {
            Some((name, value)) => if name == "SUMMARY"@ {
                ScanState {
                    in_event: st.in_event,
                    title: unescaped(value),
                    start: st.start,
                    end: st.end,
                    out: st.out,
                }
            } else if name == "DTSTART"@ {
                ScanState {
                    in_event: st.in_event,
                    title: st.title,
                    start: Some(value),
                    end: st.end,
                    out: st.out,
                }
            } else if name == "DTEND"@ {
                ScanState {
                    in_event: st.in_event,
                    title: st.title,
                    start: st.start,
                    end: Some(value),
                    out: st.out,
                }
            } else {
                st
            },
            None => st,
        }
    } else {
        st
    }
}

/// The state after reading `ls`.
pub open spec fn scan_lines(ls: Seq<Seq<char>>) -> ScanState
    decreases ls.len(),
{
    if ls.len() == 0 {
        scan_init()
    } else {
        scan_step(scan_lines(ls.drop_last()), ls.last())
    }
}

/// The raw events of an iCalendar text, in order.
pub open spec fn raw_events(ics: Seq<char>) -> Seq<(Seq<char>, Option<Seq<char>>, Option<Seq<char>>)> {
    scan_lines(unfolded(ics)).out
}

fn sub_chars(v: &Vec<char>, lo: usize, hi: usize) -> (r: Vec<char>)
    requires
        lo <= hi <= v@.len(),
    ensures
        r@ == v@.subrange(lo as int, hi as int),
{
    let mut r: Vec<char> = Vec::new();
    push_range(&mut r, v, lo, hi);
    r
}

fn opt_string(o: &Option<Vec<char>>) -> (r: Option<String>)
    ensures
        opt_text(r) == opt_chars(*o),
{
    match o {
        Some(v) => Some(string_of_all(v)),
        None => None,
    }
}

/// Reads the events of an iCalendar text, leaving their date-times as text.
pub fn scan_ics(ics: &str) -> (r: Vec<RawEvent>)
    ensures
        raw_views(r@) == raw_events(ics@),
{
    let ls = unfold_chars(ics);
    let ghost lv = char_views(ls@);
    let mut out: Vec<RawEvent> = Vec::new();
    let mut in_event = false;
    let mut title: Vec<char> = Vec::new();
    let mut start: Option<Vec<char>> = None;
    let mut end: Option<Vec<char>> = None;
    let mut k: usize = 0;
    assert(raw_views(out@) =~= Seq::<(Seq<char>, Option<Seq<char>>, Option<Seq<char>>)>::empty());
    assert(title@ =~= Seq::<char>::empty());
    while k < ls.len()
        invariant
            0 <= k <= ls@.len(),
            lv == char_views(ls@),
            scan_lines(lv.take(k as int)) == (ScanState {
                in_event,
                title: title@,
                start: opt_chars(start),
                end: opt_chars(end),
                out: raw_views(out@),
            }),
        decreases ls@.len() - k,
    {
        proof {
            let t = lv.take(k + 1);
            assert(t.drop_last() =~= lv.take(k as int));
            assert(t.last() == ls@[k as int]@);
            reveal_strlit("BEGIN:VEVENT");
            reveal_strlit("END:VEVENT");
        }
        let line = &ls[k];
        let n = line.len();
        assert(line@.subrange(0, n as int) =~= line@);
        if range_eq_str(line, 0, n, "BEGIN:VEVENT") {
            in_event = true;
            title = Vec::new();
            start = None;
            end = None;
            assert(title@ =~= Seq::<char>::empty());
        } else if range_eq_str(line, 0, n, "END:VEVENT") {
            if start.is_some() {
                let ghost before = raw_views(out@);
                let ev = RawEvent {
                    title: string_of_all(&title),
                    start: opt_string(&start),
                    end: opt_string(&end),
                };
                out.push(ev);
                assert(raw_views(out@) =~= before.push((title@, opt_chars(start), opt_chars(end))));
            }
            in_event = false;
        } else if in_event {
            match find_char_in(line, 0, n, ':') {
                Some(c) => {
                    let ne = match find_char_in(line, 0, c, ';') {
                        Some(j) => j,
                        None => c,
                    };
                    proof {
                        assert(line@.subrange(0, c as int) =~= line@.take(c as int));
                        assert(line@.subrange(0, ne as int) =~= line@.take(c as int).take(ne as int)
                            || ne == c);
                        assert(line@.subrange(c + 1, n as int) =~= line@.skip(c + 1));
                        let p = property(line@);
                        assert(p == Some((line@.subrange(0, ne as int), line@.subrange(c + 1, n as int))));
                    }
                    if range_eq_str(line, 0, ne, "SUMMARY") {
                        let value = sub_chars(line, c + 1, n);
                        title = unescape_chars(&value);
                    } else if range_eq_str(line, 0, ne, "DTSTART") {
                        start = Some(sub_chars(line, c + 1, n));
                    } else if range_eq_str(line, 0, ne, "DTEND") {
                        end = Some(sub_chars(line, c + 1, n));
                    }
                },
                None => {},
            }
        }
        k = k + 1;
    }
    assert(lv.take(ls@.len() as int) =~= lv);
    out
}

/// An event as values: title, start, end and provider.
pub open spec fn event_view(e: CalendarEvent) -> (Seq<char>, Seq<char>, Seq<char>, Seq<char>) {
    (e.title@, e.start@, e.end@, e.provider@)
}

/// Events as values.
pub open spec fn event_views(es: Seq<CalendarEvent>) -> Seq<(Seq<char>, Seq<char>, Seq<char>, Seq<char>)> {
    es.map_values(|e: CalendarEvent| event_view(e))
}

/// The event a raw event becomes once its date-times are read: none without
/// a start; the end defaults to the start and an empty title to
/// "Untitled event"; both instants are written in RFC 3339.
pub open spec fn event_spec(
    title: Seq<char>,
    start: Option<(int, int)>,
    end: Option<(int, int)>,
    provider: Seq<char>,
) -> Option<(Seq<char>, Seq<char>, Seq<char>, Seq<char>)> {
    match start {
        None => None,
        Some(s) => {
            let e = match end {
                Some(e) => e,
                None => s,
            };
            Some(
                (
                    if title.len() == 0 {
                        "Untitled event"@
                    } else {
                        title
                    },
                    rfc3339_text(s.0, s.1),
                    rfc3339_text(e.0, e.1),
                    provider,
                ),
            )
        },
    }
}

/// Builds the event of a raw event from its read date-times.
pub fn event_of(title: &String, start: Option<Instant>, end: Option<Instant>, provider: &str) -> (r:
    Option<CalendarEvent>)
    ensures
        match r {
            Some(e) => event_spec(title@, opt_pair(start), opt_pair(end), provider@) == Some(
                event_view(e),
            ),
            None => event_spec(title@, opt_pair(start), opt_pair(end), provider@) is None,
        },
{
    match start {
        None => None,
        Some(s) => {
            let e = match end {
                Some(e) => e,
                None => s,
            };
            let t = if title.as_str().is_empty() {
                String::from_str("Untitled event")
            } else {
                title.clone()
            };
            Some(
                CalendarEvent {
                    title: t,
                    start: rfc3339_of(s),
                    end: rfc3339_of(e),
                    provider: String::from_str(provider),
                },
            )
        },
    }
}

/// What reading a raw date-time may give (see `dt_possible`); nothing where
/// the value is absent.
pub open spec fn opt_dt_possible(v: Option<Seq<char>>, p: Option<(int, int)>) -> bool {
    match v {
        Some(x) => dt_possible(x, p),
        None => p is None,
    }
}

/// The read date-times `ps` are possible for the raw events `raws`.
pub open spec fn parses_possible(
    raws: Seq<(Seq<char>, Option<Seq<char>>, Option<Seq<char>>)>,
    ps: Seq<(Option<(int, int)>, Option<(int, int)>)>,
) -> bool {
    &&& ps.len() == raws.len()
    &&& forall|i: int|
        0 <= i < raws.len() ==> opt_dt_possible((#[trigger] raws[i]).1, ps[i].0)
            && opt_dt_possible(raws[i].2, ps[i].1)
}

/// The events of raw events whose date-times read as `ps`, in order.
pub open spec fn events_given(
    raws: Seq<(Seq<char>, Option<Seq<char>>, Option<Seq<char>>)>,
    ps: Seq<(Option<(int, int)>, Option<(int, int)>)>,
    provider: Seq<char>,
) -> Seq<(Seq<char>, Seq<char>, Seq<char>, Seq<char>)>
    decreases raws.len(),
{
    if raws.len() == 0 || ps.len() == 0 {
        seq![]
    } else {
        let prev = events_given(raws.drop_last(), ps.drop_last(), provider);
        match event_spec(raws.last().0, ps.last().0, ps.last().1, provider) {
            Some(e) => prev.push(e),
            None => prev,
        }
    }
}

/// Parses the events of an iCalendar feed, labelling them with `provider`.
/// Events are those of `raw_events`; UTC and date values read as chrono
/// reads them, floating ones in the machine's time zone.
pub fn parse_ics(ics: &str, provider: &str) -> (r: Vec<CalendarEvent>)
    ensures
        exists|ps: Seq<(Option<(int, int)>, Option<(int, int)>)>|
            parses_possible(raw_events(ics@), ps) && event_views(r@) == events_given(
                raw_events(ics@),
                ps,
                provider@,
            ),
{
    let raws = scan_ics(ics);
    let ghost rv = raw_views(raws@);
    let ghost mut ps: Seq<(Option<(int, int)>, Option<(int, int)>)> = seq![];
    let mut out: Vec<CalendarEvent> = Vec::new();
    let mut i: usize = 0;
    assert(event_views(out@) =~= events_given(rv.take(0), ps, provider@));
    while i < raws.len()
        invariant
            0 <= i <= raws@.len(),
            rv == raw_views(raws@),
            ps.len() == i,
            forall|j: int|
                0 <= j < i ==> opt_dt_possible((#[trigger] rv[j]).1, ps[j].0) && opt_dt_possible(
                    rv[j].2,
                    ps[j].1,
                ),
            event_views(out@) == events_given(rv.take(i as int), ps, provider@),
        decreases raws@.len() - i,
    {
        let raw = &raws[i];
        let s = match &raw.start {
            Some(v) => parse_dt(v.as_str()),
            None => None,
        };
        let e = match &raw.end {
            Some(v) => parse_dt(v.as_str()),
            None => None,
        };
        let ghost prev_ps = ps;
        proof {
            ps = ps.push((opt_pair(s), opt_pair(e)));
            let t = rv.take(i + 1);
            assert(t.drop_last() =~= rv.take(i as int));
            assert(ps.drop_last() =~= prev_ps);
            assert(t.last() == rv[i as int]);
            assert(rv[i as int] == raw_view(*raw));
        }
        let ghost before = event_views(out@);
        match event_of(&raw.title, s, e, provider) {
            Some(ev) => {
                out.push(ev);
                assert(event_views(out@) =~= before.push(event_view(ev)));
            },
            None => {},
        }
        i = i + 1;
    }
    assert(rv.take(raws@.len() as int) =~= rv);
    assert(parses_possible(raw_events(ics@), ps));
    assert(event_views(out@) == events_given(raw_events(ics@), ps, provider@));
    out
}

/// Every event read from a feed carries the feed's label and a non-empty
/// title, whatever the date-times read as.
pub proof fn law_events_labelled(
    raws: Seq<(Seq<char>, Option<Seq<char>>, Option<Seq<char>>)>,
    ps: Seq<(Option<(int, int)>, Option<(int, int)>)>,
    provider: Seq<char>,
)
    ensures
        forall|i: int|
            0 <= i < events_given(raws, ps, provider).len() ==> (#[trigger] events_given(
                raws,
                ps,
                provider,
            )[i]).3 == provider && events_given(raws, ps, provider)[i].0.len() > 0,
    decreases raws.len(),
{
    reveal_strlit("Untitled event");
    if raws.len() > 0 && ps.len() > 0 {
        law_events_labelled(raws.drop_last(), ps.drop_last(), provider);
        let prev = events_given(raws.drop_last(), ps.drop_last(), provider);
        let now = events_given(raws, ps, provider);
        assert forall|i: int| 0 <= i < now.len() implies (#[trigger] now[i]).3 == provider
            && now[i].0.len() > 0 by {
            if i < prev.len() {
                assert(now[i] == prev[i]);
            }
        }
    }
}

/// An event without an end ends when it starts.
pub proof fn law_missing_end_is_start(title: Seq<char>, s: (int, int), provider: Seq<char>)
    ensures
        event_spec(title, Some(s), None, provider) matches Some(e) && e.1 == e.2,
{
}


// ---------------------------------------------------------------------------
// The event of the moment
// ---------------------------------------------------------------------------

/// What choosing an event needs to know of it: its start and end as read.
#[derive(Debug, Clone, Copy)]
pub struct Span {
    pub start: Option<Instant>,
    pub end: Option<Instant>,
}

/// A span as values.
pub open spec fn span_view(s: Span) -> (Option<(int, int)>, Option<(int, int)>) {
    (opt_pair(s.start), opt_pair(s.end))
}

/// Spans as values.
pub open spec fn span_views(ss: Seq<Span>) -> Seq<(Option<(int, int)>, Option<(int, int)>)> {
    ss.map_values(|s: Span| span_view(s))
}

/// The event is under way at `now`.
pub open spec fn overlaps(sp: (Option<(int, int)>, Option<(int, int)>), now: (int, int)) -> bool {
    &&& sp.0 matches Some(s)
    &&& sp.1 matches Some(e)
    &&& pair_le(s, now)
    &&& pair_lt(now, e)
}

/// The latest start that counts as upcoming at `now`: fifteen minutes
/// (900 seconds) later.
pub open spec fn window_end(now: (int, int)) -> (int, int) {
    (now.0 + 900, now.1)
}

/// The event starts at or after `now`, within fifteen minutes.
pub open spec fn upcoming(sp: (Option<(int, int)>, Option<(int, int)>), now: (int, int)) -> bool {
    &&& sp.0 matches Some(s)
    &&& pair_le(now, s)
    &&& pair_le(s, window_end(now))
}

/// Event `i` is the one to show at `now`: the first that is under way, or,
/// when none is, the first of the upcoming ones that start soonest.
pub open spec fn is_pick(
    sps: Seq<(Option<(int, int)>, Option<(int, int)>)>,
    now: (int, int),
    i: int,
) -> bool {
    &&& 0 <= i < sps.len()
    &&& {
        ||| (overlaps(sps[i], now) && forall|j: int| 0 <= j < i ==> !overlaps(#[trigger] sps[j], now))
        ||| {
            &&& forall|j: int| 0 <= j < sps.len() ==> !overlaps(#[trigger] sps[j], now)
            &&& upcoming(sps[i], now)
            &&& forall|j: int|
                0 <= j < sps.len() && upcoming(#[trigger] sps[j], now) ==> pair_le(
                    sps[i].0->0,
                    sps[j].0->0,
                ) && (j < i ==> pair_lt(sps[i].0->0, sps[j].0->0))
        }
    }
}

/// No event is under way or upcoming at `now`.
pub open spec fn no_pick(sps: Seq<(Option<(int, int)>, Option<(int, int)>)>, now: (int, int)) -> bool {
    forall|j: int| 0 <= j < sps.len() ==> !overlaps(#[trigger] sps[j], now) && !upcoming(sps[j], now)
}

/// At most one event is the one to show.
pub proof fn law_pick_unique(
    sps: Seq<(Option<(int, int)>, Option<(int, int)>)>,
    now: (int, int),
    i: int,
    j: int,
)
    requires
        is_pick(sps, now, i),
        is_pick(sps, now, j),
    ensures
        i == j,
{
    if i != j {
        if overlaps(sps[i], now) {
            if j < i {
                assert(!overlaps(sps[j], now));
            } else {
                assert(!overlaps(sps[i], now));
            }
        } else {
            assert(!overlaps(sps[j], now));
            if j < i {
                assert(upcoming(sps[j], now));
            } else {
                assert(upcoming(sps[i], now));
            }
        }
    }
}

/// An event under way is shown before any upcoming one.
pub proof fn law_current_beats_next(
    sps: Seq<(Option<(int, int)>, Option<(int, int)>)>,
    now: (int, int),
    i: int,
    k: int,
)
    requires
        is_pick(sps, now, i),
        0 <= k < sps.len(),
        overlaps(sps[k], now),
    ensures
        overlaps(sps[i], now),
{
}

fn span_overlaps(sp: &Span, now: Instant) -> (r: bool)
    ensures
        r == overlaps(span_view(*sp), pair(now)),
{
    match (sp.start, sp.end) {
        (Some(s), Some(e)) => instant_le(s, now) && instant_lt(now, e),
        _ => false,
    }
}

fn span_upcoming(sp: &Span, now: Instant) -> (r: bool)
    ensures
        r == upcoming(span_view(*sp), pair(now)),
{
    match sp.start {
        Some(s) => {
            let limit: i128 = (now.secs as i128) + 900;
            let secs: i128 = s.secs as i128;
            instant_le(now, s) && (secs < limit || (secs == limit && s.nanos <= now.nanos))
        },
        None => false,
    }
}

/// The index of the event to show at `now` (see `is_pick`), if any.
pub fn select_event(spans: &[Span], now: Instant) -> (r: Option<usize>)
    ensures
        r matches Some(i) ==> is_pick(span_views(spans@), pair(now), i as int),
        r is None ==> no_pick(span_views(spans@), pair(now)),
{
    let ghost sv = span_views(spans@);
    let ghost n = pair(now);
    let mut i: usize = 0;
    while i < spans.len()
        invariant
            0 <= i <= spans@.len(),
            sv == span_views(spans@),
            n == pair(now),
            forall|j: int| 0 <= j < i ==> !overlaps(#[trigger] sv[j], n),
        decreases spans@.len() - i,
    {
        if span_overlaps(&spans[i], now) {
            return Some(i);
        }
        i = i + 1;
    }
    let mut best: Option<usize> = None;
    let mut j: usize = 0;
    while j < spans.len()
        invariant
            0 <= j <= spans@.len(),
            sv == span_views(spans@),
            n == pair(now),
            forall|k: int| 0 <= k < sv.len() ==> !overlaps(#[trigger] sv[k], n),
            best matches Some(b) ==> {
                &&& b < j
                &&& upcoming(sv[b as int], n)
                &&& forall|k: int|
                    0 <= k < j && upcoming(#[trigger] sv[k], n) ==> pair_le(
                        sv[b as int].0->0,
                        sv[k].0->0,
                    ) && (k < b ==> pair_lt(sv[b as int].0->0, sv[k].0->0))
            },
            best is None ==> forall|k: int| 0 <= k < j ==> !upcoming(#[trigger] sv[k], n),
        decreases spans@.len() - j,
    {
        if span_upcoming(&spans[j], now) {
            let sj = spans[j].start.unwrap();
            match best {
                None => {
                    best = Some(j);
                },
                Some(b) => {
                    let sb = spans[b].start.unwrap();
                    if instant_lt(sj, sb) {
                        best = Some(j);
                    }
                },
            }
        }
        j = j + 1;
    }
    best
}

/// An event's span: its start and end read as RFC 3339.
pub open spec fn event_span(e: CalendarEvent) -> (Option<(int, int)>, Option<(int, int)>) {
    (rfc3339_instant(e.start@), rfc3339_instant(e.end@))
}

/// The spans of events.
pub open spec fn event_spans(es: Seq<CalendarEvent>) -> Seq<(Option<(int, int)>, Option<(int, int)>)> {
    es.map_values(|e: CalendarEvent| event_span(e))
}

/// The event overlapping `now`, or the nearest one starting within fifteen
/// minutes (the first of those starting soonest).
pub fn current_or_next(events: &[CalendarEvent], now: Instant) -> (r: Option<&CalendarEvent>)
    ensures
        r matches Some(e) ==> exists|i: int|
            #[trigger] is_pick(event_spans(events@), pair(now), i) && events@[i] == *e,
        r is None ==> no_pick(event_spans(events@), pair(now)),
{
    let mut spans: Vec<Span> = Vec::new();
    let mut i: usize = 0;
    while i < events.len()
        invariant
            0 <= i <= events@.len(),
            span_views(spans@) == event_spans(events@.take(i as int)),
        decreases events@.len() - i,
    {
        let s = parse_rfc3339(events[i].start.as_str());
        let e = parse_rfc3339(events[i].end.as_str());
        let ghost before = span_views(spans@);
        spans.push(Span { start: s, end: e });
        assert(span_views(spans@) =~= before.push(event_span(events@[i as int])));
        assert(events@.take(i + 1) =~= events@.take(i as int).push(events@[i as int]));
        assert(event_spans(events@.take(i + 1)) =~= event_spans(events@.take(i as int)).push(event_span(events@[i as int])));
        i = i + 1;
    }
    assert(events@.take(events@.len() as int) =~= events@);
    match select_event(spans.as_slice(), now) {
        Some(k) => Some(&events[k]),
        None => None,
    }
}


// ---------------------------------------------------------------------------
// Feeds to fetch
// ---------------------------------------------------------------------------

/// The feed of calendar integration `id`: none unless an integration with
/// that id (the first) is enabled and has a non-blank `ics` URL; that URL
/// with `webcal://` rewritten, and the label.
pub open spec fn feed_of(ints: Seq<IntegrationConfig>, id: Seq<char>, label: Seq<char>) -> Option<(Seq<char>, Seq<char>)> {
    match integration_index(ints, id) {
        None => None,
        Some(i) => if !ints[i].enabled {
            None
        } else {
            match option_value(ints[i].options@, "ics"@) {
                None => None,
                Some(u) => if trim(u).len() == 0 {
                    None
                } else {
                    Some((https_url(u), label))
                },
            }
        },
    }
}

/// The feeds of the first `k` calendar providers, in provider order.
pub open spec fn feeds_upto(ints: Seq<IntegrationConfig>, k: int) -> Seq<(Seq<char>, Seq<char>)>
    decreases k,
{
    if k <= 0 {
        seq![]
    } else {
        let prev = feeds_upto(ints, k - 1);
        match feed_of(ints, provider_ids()[k - 1], provider_labels()[k - 1]) {
            Some(f) => prev.push(f),
            None => prev,
        }
    }
}

/// Feeds as values.
pub open spec fn feed_views(fs: Seq<(String, String)>) -> Seq<(Seq<char>, Seq<char>)> {
    fs.map_values(|f: (String, String)| (f.0@, f.1@))
}

/// The calendar feeds to fetch, as (URL, label), in provider order.
pub fn calendar_feeds(settings: &Settings) -> (r: Vec<(String, String)>)
    ensures
        feed_views(r@) == feeds_upto(settings.integrations@, 3),
{
    let ps = providers();
    let mut out: Vec<(String, String)> = Vec::new();
    let mut k: usize = 0;
    assert(feed_views(out@) =~= feeds_upto(settings.integrations@, 0));
    while k < ps.len()
        invariant
            0 <= k <= 3,
            ps@.len() == 3,
            forall|i: int|
                0 <= i < 3 ==> (#[trigger] ps@[i]).0@ == provider_ids()[i] && ps@[i].1@
                    == provider_labels()[i],
            feed_views(out@) == feeds_upto(settings.integrations@, k as int),
        decreases 3 - k,
    {
        let (id, label) = ps[k];
        assert(id@ == provider_ids()[k as int]);
        let ghost before = feed_views(out@);
        proof {
            reveal_strlit("ics");
        }
        match crate::integrations::integration(settings, id) {
            Some(cfg) => {
                if cfg.enabled {
                    match cfg.option("ics") {
                        Some(url) => {
                            let uv = to_chars(url.as_str());
                            let (a, b) = trim_range(&uv, 0, uv.len());
                            assert(uv@.subrange(0, uv@.len() as int) =~= url@);
                            if a < b {
                                let u = to_https(url.as_str());
                                out.push((u, String::from_str(label)));
                                assert(feed_views(out@) =~= before.push((https_url(url@), label@)));
                            }
                        },
                        None => {},
                    }
                }
            },
            None => {},
        }
        k = k + 1;
    }
    out
}

// ---------------------------------------------------------------------------
// Ordering events
// ---------------------------------------------------------------------------

/// `sorted` with `e` placed after every element that does not start later.
pub open spec fn insert_by_start(sorted: Seq<CalendarEvent>, e: CalendarEvent) -> Seq<CalendarEvent>
    decreases sorted.len(),
{
    if sorted.len() == 0 {
        seq![e]
    } else if text_le(sorted.last().start@, e.start@) {
        sorted.push(e)
    } else {
        insert_by_start(sorted.drop_last(), e).push(sorted.last())
    }
}

/// The events stably ordered by their start text (`sort_by` on `start`).
pub open spec fn sorted_by_start(es: Seq<CalendarEvent>) -> Seq<CalendarEvent>
    decreases es.len(),
{
    if es.len() == 0 {
        seq![]
    } else {
        insert_by_start(sorted_by_start(es.drop_last()), es.last())
    }
}

/// Orders events by their start text; events with equal starts keep their
/// order.
pub fn sort_by_start(events: Vec<CalendarEvent>) -> (r: Vec<CalendarEvent>)
    ensures
        r@ == sorted_by_start(events@),
{
    let mut out: Vec<CalendarEvent> = Vec::new();
    let mut rest = events;
    let ghost all = rest@;
    let mut taken: usize = 0;
    let mut keys: Vec<Vec<char>> = Vec::new();
    assert(rest@ =~= all.skip(0));
    let n = rest.len();
    assert(all.len() == n);
    while rest.len() > 0
        invariant
            all.len() <= usize::MAX,
            taken + rest@.len() == all.len(),
            rest@ == all.skip(taken as int),
            out@ == sorted_by_start(all.take(taken as int)),
            keys@.len() == out@.len(),
            forall|i: int| 0 <= i < out@.len() ==> (#[trigger] keys@[i])@ == out@[i].start@,
        decreases rest@.len(),
    {
        let e = rest.remove(0);
        proof {
            assert(e == all[taken as int]);
            let t = all.take(taken + 1);
            assert(t.drop_last() =~= all.take(taken as int));
            assert(t.last() == e);
            assert(rest@ =~= all.skip(taken + 1));
        }
        let ek = to_chars(e.start.as_str());
        let mut pos = out.len();
        let ghost sorted = out@;
        assert(sorted.take(pos as int) =~= sorted);
        assert(sorted.skip(pos as int) =~= Seq::<CalendarEvent>::empty());
        while pos > 0 && !text_le_chars(&keys[pos - 1], &ek)
            invariant
                0 <= pos <= sorted.len(),
                sorted == out@,
                keys@.len() == out@.len(),
                forall|i: int| 0 <= i < out@.len() ==> (#[trigger] keys@[i])@ == out@[i].start@,
                ek@ == e.start@,
                insert_by_start(sorted, e) == insert_by_start(sorted.take(pos as int), e) + sorted.skip(
                    pos as int,
                ),
            decreases pos,
        {
            proof {
                let p = sorted.take(pos as int);
                assert(p.drop_last() =~= sorted.take(pos - 1));
                assert(p.last() == sorted[pos - 1]);
                assert(sorted.skip(pos - 1) =~= seq![sorted[pos - 1]] + sorted.skip(pos as int));
                assert(insert_by_start(p, e) == insert_by_start(sorted.take(pos - 1), e).push(sorted[pos - 1]));
                assert(insert_by_start(p, e) + sorted.skip(pos as int) =~= insert_by_start(sorted.take(pos - 1), e) + sorted.skip(pos - 1));
            }
            pos = pos - 1;
        }
        proof {
            let p = sorted.take(pos as int);
            if pos == 0 {
                assert(insert_by_start(p, e) == seq![e]);
            } else {
                assert(p.last() == sorted[pos - 1]);
                assert(insert_by_start(p, e) == p.push(e));
            }
            assert(insert_by_start(sorted, e) =~= sorted.insert(pos as int, e));
        }
        let ghost k0 = keys@;
        let ghost o0 = out@;
        out.insert(pos, e);
        keys.insert(pos, ek);
        proof {
            assert forall|i: int| 0 <= i < out@.len() implies (#[trigger] keys@[i])@ == out@[i].start@ by {
                if i < pos {
                    assert(keys@[i] == k0[i] && out@[i] == o0[i]);
                } else if i > pos {
                    assert(keys@[i] == k0[i - 1] && out@[i] == o0[i - 1]);
                }
            }
        }
        taken = taken + 1;
    }
    assert(all.take(all.len() as int) =~= all);
    out
}


/// The events are in order of their start text.
pub open spec fn ordered_by_start(es: Seq<CalendarEvent>) -> bool {
    forall|i: int, j: int| 0 <= i < j < es.len() ==> text_le((#[trigger] es[i]).start@, (#[trigger] es[j]).start@)
}

proof fn lemma_insert_by_start(sorted: Seq<CalendarEvent>, e: CalendarEvent)
    requires
        ordered_by_start(sorted),
    ensures
        ordered_by_start(insert_by_start(sorted, e)),
        insert_by_start(sorted, e).to_multiset() == sorted.to_multiset().insert(e),
    decreases sorted.len(),
{
    broadcast use vstd::seq_lib::group_to_multiset_ensures;
    broadcast use vstd::multiset::group_multiset_axioms;
    let r = insert_by_start(sorted, e);
    if sorted.len() == 0 {
        assert(seq![e] =~= Seq::<CalendarEvent>::empty().push(e));
    } else if text_le(sorted.last().start@, e.start@) {
        assert forall|i: int, j: int| 0 <= i < j < r.len() implies text_le(
            (#[trigger] r[i]).start@,
            (#[trigger] r[j]).start@,
        ) by {
            if j == r.len() - 1 && i < sorted.len() - 1 {
                lemma_text_le_trans(sorted[i].start@, sorted.last().start@, e.start@);
            }
        }
    } else {
        let p = sorted.drop_last();
        let l = sorted.last();
        assert(sorted =~= p.push(l));
        assert forall|i: int, j: int| 0 <= i < j < p.len() implies text_le(
            (#[trigger] p[i]).start@,
            (#[trigger] p[j]).start@,
        ) by {
            assert(p[i] == sorted[i] && p[j] == sorted[j]);
        }
        lemma_insert_by_start(p, e);
        let q = insert_by_start(p, e);
        lemma_text_le_total(l.start@, e.start@);
        assert forall|k: int| 0 <= k < q.len() implies text_le((#[trigger] q[k]).start@, l.start@) by {
            assert(q.to_multiset().count(q[k]) > 0);
            if q[k] != e {
                assert(p.to_multiset().count(q[k]) > 0);
                assert(p.contains(q[k]));
                let m = choose|m: int| 0 <= m < p.len() && p[m] == q[k];
                assert(sorted[m] == q[k]);
            }
        }
        assert forall|i: int, j: int| 0 <= i < j < r.len() implies text_le(
            (#[trigger] r[i]).start@,
            (#[trigger] r[j]).start@,
        ) by {
            if j < q.len() {
                assert(r[i] == q[i] && r[j] == q[j]);
            } else {
                assert(r[i] == q[i]);
            }
        }
    }
}

/// Sorting leaves the events in order of their start text and keeps every
/// event, each as often as before.
pub proof fn law_sorted_by_start(es: Seq<CalendarEvent>)
    ensures
        ordered_by_start(sorted_by_start(es)),
        sorted_by_start(es).to_multiset() == es.to_multiset(),
    decreases es.len(),
{
    broadcast use vstd::seq_lib::group_to_multiset_ensures;
    if es.len() == 0 {
        assert(es.to_multiset() =~= Seq::<CalendarEvent>::empty().to_multiset());
    } else {
        law_sorted_by_start(es.drop_last());
        lemma_insert_by_start(sorted_by_start(es.drop_last()), es.last());
        assert(es =~= es.drop_last().push(es.last()));
    }
}



/// Every date-time value present in the raw events is UTC or a date.
pub open spec fn all_fixed(raws: Seq<(Seq<char>, Option<Seq<char>>, Option<Seq<char>>)>) -> bool {
    forall|i: int|
        0 <= i < raws.len() ==> ((#[trigger] raws[i]).1 matches Some(v) ==> fixed_dt(v) is Some) && (
        raws[i].2 matches Some(w) ==> fixed_dt(w) is Some)
}

/// A feed whose date-times are all UTC or dates reads the same on every
/// machine: any two possible readings give the same events.
pub proof fn law_fixed_feeds_read_alike(
    raws: Seq<(Seq<char>, Option<Seq<char>>, Option<Seq<char>>)>,
    ps: Seq<(Option<(int, int)>, Option<(int, int)>)>,
    qs: Seq<(Option<(int, int)>, Option<(int, int)>)>,
    provider: Seq<char>,
)
    requires
        all_fixed(raws),
        parses_possible(raws, ps),
        parses_possible(raws, qs),
    ensures
        events_given(raws, ps, provider) == events_given(raws, qs, provider),
{
    assert(ps =~= qs) by {
        assert forall|i: int| 0 <= i < ps.len() implies ps[i] == qs[i] by {
            assert(opt_dt_possible(raws[i].1, ps[i].0) && opt_dt_possible(raws[i].1, qs[i].0));
            assert(opt_dt_possible(raws[i].2, ps[i].1) && opt_dt_possible(raws[i].2, qs[i].1));
        }
    }
}


// ---------------------------------------------------------------------------
// Laws of reading property lines
// ---------------------------------------------------------------------------

/// A property line `key` + `params` + `:` + `v`, with `key` free of `:` and
/// `;` and `params` either empty or a `;` list free of `:`, has the name
/// `key` and the value `v`, all of the line after its first colon.
pub proof fn law_property_value_after_first_colon(key: Seq<char>, params: Seq<char>, v: Seq<char>)
    requires
        forall|j: int| 0 <= j < key.len() ==> key[j] != ':' && key[j] != ';',
        forall|j: int| 0 <= j < params.len() ==> params[j] != ':',
        params.len() == 0 || params[0] == ';',
    ensures
        property(key + params + ":"@ + v) == Some((key, v)),
{
    reveal_strlit(":");
    let line = key + params + ":"@ + v;
    let k: int = (key.len() + params.len()) as int;
    assert forall|j: int| 0 <= j < k implies #[trigger] line[j] != ':' by {
        if j < key.len() {
            assert(line[j] == key[j]);
        } else {
            assert(line[j] == params[j - key.len()]);
        }
    }
    assert(line[k] == ':');
    crate::text::lemma_find_char_is(line, ':', k);
    let np = line.take(k);
    assert(np =~= key + params);
    if params.len() == 0 {
        assert forall|j: int| 0 <= j < np.len() implies #[trigger] np[j] != ';' by {
            assert(np[j] == key[j]);
        }
        crate::text::lemma_find_char_is(np, ';', np.len() as int);
        assert(np =~= key);
    } else {
        assert forall|j: int| 0 <= j < key.len() implies #[trigger] np[j] != ';' by {
            assert(np[j] == key[j]);
        }
        assert(np[key.len() as int] == params[0]);
        crate::text::lemma_find_char_is(np, ';', key.len() as int);
        assert(np.take(key.len() as int) =~= key);
    }
    assert(line.skip(k + 1) =~= v);
}

/// Inside an event, a `SUMMARY` line sets the title to its value unescaped,
/// a `DTSTART` line the start and a `DTEND` line the end to their values:
/// each value is all of the line after its first colon, whatever colons it
/// holds, and nothing else of the state changes.
pub proof fn law_event_properties_read_whole_value(st: ScanState, params: Seq<char>, v: Seq<char>)
    requires
        st.in_event,
        forall|j: int| 0 <= j < params.len() ==> params[j] != ':',
        params.len() == 0 || params[0] == ';',
    ensures
        scan_step(st, "SUMMARY"@ + params + ":"@ + v).title == unescaped(v),
        scan_step(st, "SUMMARY"@ + params + ":"@ + v).in_event,
        scan_step(st, "SUMMARY"@ + params + ":"@ + v).start == st.start,
        scan_step(st, "SUMMARY"@ + params + ":"@ + v).end == st.end,
        scan_step(st, "SUMMARY"@ + params + ":"@ + v).out == st.out,
        scan_step(st, "DTSTART"@ + params + ":"@ + v) == (ScanState {
            in_event: true,
            title: st.title,
            start: Some(v),
            end: st.end,
            out: st.out,
        }),
        scan_step(st, "DTEND"@ + params + ":"@ + v) == (ScanState {
            in_event: true,
            title: st.title,
            start: st.start,
            end: Some(v),
            out: st.out,
        }),
{
    reveal_strlit("SUMMARY");
    reveal_strlit("DTSTART");
    reveal_strlit("DTEND");
    reveal_strlit("BEGIN:VEVENT");
    reveal_strlit("END:VEVENT");
    let keys = seq!["SUMMARY"@, "DTSTART"@, "DTEND"@];
    assert forall|i: int| 0 <= i < 3 implies {
        let key = #[trigger] keys[i];
        let line = key + params + ":"@ + v;
        &&& property(line) == Some((key, v))
        &&& line != "BEGIN:VEVENT"@
        &&& line != "END:VEVENT"@
    } by {
        let key = keys[i];
        let line = key + params + ":"@ + v;
        law_property_value_after_first_colon(key, params, v);
        assert(line[0] == key[0]);
        assert("BEGIN:VEVENT"@[0] == 'B');
        assert("END:VEVENT"@[0] == 'E');
    }
    assert(keys[0] == "SUMMARY"@);
    assert(keys[1] == "DTSTART"@);
    assert(keys[2] == "DTEND"@);
}

} // verus!
