//! Web research for notes: which topics to look up, how a Wikipedia title is
//! put into a URL, how the API's answers are read, and the Markdown section
//! the findings become.
use vstd::prelude::*;
use crate::json::{str_at, str_field, Json};
use crate::storage::take_chars;
use crate::text::{
    char_views, string_views,
    eq_ignore_ascii_case, find_sub, find_sub_in, is_ws, lemma_find_sub, lemma_trail_len_bounds,
    lemma_trail_len_is, lines, lines_of, push_range, push_str, range_eq_ignore_ascii_case,
    starts_with, starts_with_str, str_eq, string_of, string_of_all, to_chars, to_lowercase,
    lowercase_of, trail_len, trim, trim_end, trim_end_index, trim_range, utf8_len_at_least, ws,
};
use crate::types::ResearchFinding;

verus! {

/// Default source: the English Wikipedia (keyless, fully open content).
pub const WIKI_BASE: &'static str = "https://en.wikipedia.org";

// ---------------------------------------------------------------------------
// Queries
// ---------------------------------------------------------------------------

/// Structural headings that are not worth researching on their own.
pub open spec fn generic_headings() -> Seq<Seq<char>> {
    seq![
        "summary"@,
        "key points"@,
        "decisions"@,
        "action items"@,
        "questions to review"@,
        "overview"@,
        "important definitions"@,
        "background & research"@,
        "further reading"@,
        "recommendation"@,
        "notable quotes"@,
    ]
}

/// The title as a query candidate, unless it is blank or, trimmed, one of
/// the placeholder titles.
pub open spec fn title_candidate(title: Seq<char>) -> Seq<Seq<char>> {
    let t = trim(title);
    if t.len() > 0 && !eq_ignore_ascii_case(t, "New recording"@) && !eq_ignore_ascii_case(
        t,
        "Untitled note"@,
    ) {
        seq![title]
    } else {
        seq![]
    }
}

/// The text of a `### ` or `## ` heading line.
pub open spec fn heading_of(line: Seq<char>) -> Option<Seq<char>> {
    let l = trim(line);
    if starts_with(l, "### "@) {
        Some(l.skip(4))
    } else if starts_with(l, "## "@) {
        Some(l.skip(3))
    } else {
        None
    }
}

/// The heading texts of `ls`, in order.
pub open spec fn headings(ls: Seq<Seq<char>>) -> Seq<Seq<char>>
    decreases ls.len(),
{
    if ls.len() == 0 {
        seq![]
    } else {
        match heading_of(ls.last()) {
            Some(h) => headings(ls.drop_last()).push(h),
            None => headings(ls.drop_last()),
        }
    }
}

/// Every query candidate of a note, in order: its title, then its headings.
pub open spec fn candidates(title: Seq<char>, content: Seq<char>) -> Seq<Seq<char>> {
    title_candidate(title) + headings(lines(content))
}

/// `queries` after offering `cand`: the trimmed candidate is added when it
/// has at least three bytes, is not a generic heading and is not already
/// there up to ASCII case.
pub open spec fn accept(queries: Seq<Seq<char>>, cand: Seq<char>) -> Seq<Seq<char>> {
    let q = trim(cand);
    if vstd::utf8::encode_utf8(q).len() >= 3 && !generic_headings().contains(lowercase_of(q))
        && !(exists|i: int| 0 <= i < queries.len() && eq_ignore_ascii_case(queries[i], q)) {
        queries.push(q)
    } else {
        queries
    }
}

/// The queries the candidates yield, offered in order.
pub open spec fn queries_of(cands: Seq<Seq<char>>) -> Seq<Seq<char>>
    decreases cands.len(),
{
    if cands.len() == 0 {
        seq![]
    } else {
        accept(queries_of(cands.drop_last()), cands.last())
    }
}

fn is_generic(q: &str) -> (r: bool)
    ensures
        r == generic_headings().contains(q@),
{
    let gs: Vec<&str> = vec![
        "summary",
        "key points",
        "decisions",
        "action items",
        "questions to review",
        "overview",
        "important definitions",
        "background & research",
        "further reading",
        "recommendation",
        "notable quotes",
    ];
    let ghost g = gs@.map_values(|s: &str| s@);
    assert(g =~= generic_headings());
    let mut i: usize = 0;
    while i < gs.len()
        invariant
            0 <= i <= gs@.len(),
            g == gs@.map_values(|s: &str| s@),
            g == generic_headings(),
            forall|j: int| 0 <= j < i ==> g[j] != q@,
        decreases gs@.len() - i,
    {
        if str_eq(gs[i], q) {
            assert(g[i as int] == q@);
            return true;
        }
        i = i + 1;
    }
    false
}

/// Offers the candidate `v[lo..hi]` to `queries` (see `accept`).
fn add_query(queries: &mut Vec<Vec<char>>, v: &Vec<char>, lo: usize, hi: usize)
    requires
        lo <= hi <= v@.len(),
    ensures
        char_views(final(queries)@) == accept(char_views(old(queries)@), v@.subrange(
            lo as int,
            hi as int,
        )),
{
    let (a, b) = trim_range(v, lo, hi);
    let q = string_of(v, a, b);
    if !utf8_len_at_least(v, a, b, 3) {
        return;
    }
    let low = to_lowercase(q.as_str());
    if is_generic(low.as_str()) {
        return;
    }
    let ghost qs = char_views(queries@);
    let mut i: usize = 0;
    while i < queries.len()
        invariant
            0 <= i <= queries@.len(),
            qs == char_views(queries@),
            queries@ == old(queries)@,
            q@ == v@.subrange(a as int, b as int),
            q@ == trim(v@.subrange(lo as int, hi as int)),
            lo <= a <= b <= hi <= v@.len(),
            forall|j: int| 0 <= j < i ==> !eq_ignore_ascii_case(#[trigger] qs[j], q@),
        decreases queries@.len() - i,
    {
        if range_eq_ignore_ascii_case(v, a, b, &queries[i]) {
            proof {
                let x = qs[i as int];
                let y = q@;
                assert(eq_ignore_ascii_case(y, x));
                assert forall|t: int| 0 <= t < x.len() implies crate::text::ascii_lower(
                    #[trigger] x[t],
                ) == crate::text::ascii_lower(y[t]) by {
                    assert(crate::text::ascii_lower(y[t]) == crate::text::ascii_lower(x[t]));
                }
                assert(eq_ignore_ascii_case(x, y));
                assert(0 <= i < qs.len() && eq_ignore_ascii_case(qs[i as int], trim(v@.subrange(lo as int, hi as int))));
            }
            return;
        }
        i = i + 1;
    }
    let mut w: Vec<char> = Vec::new();
    push_range(&mut w, v, a, b);
    let ghost before = char_views(queries@);
    queries.push(w);
    assert(char_views(queries@) =~= before.push(q@));
}

/// Up to `max` search queries derived from a note's title and section
/// headings (see `queries_of` and `candidates`).
#[verifier::spinoff_prover]
pub fn extract_queries(title: &str, content: &str, max: usize) -> (r: Vec<String>)
    ensures
        string_views(r@) == take_queries(queries_of(candidates(title@, content@)), max as nat),
        r@.len() <= max,
{
    let mut qs: Vec<Vec<char>> = Vec::new();
    assert(char_views(qs@) =~= Seq::<Seq<char>>::empty());
    let tv = to_chars(title);
    let (a, b) = trim_range(&tv, 0, tv.len());
    assert(tv@.subrange(0, tv@.len() as int) =~= title@);
    let nr = to_chars("New recording");
    let un = to_chars("Untitled note");
    if a < b && !range_eq_ignore_ascii_case(&tv, a, b, &nr) && !range_eq_ignore_ascii_case(
        &tv,
        a,
        b,
        &un,
    ) {
        add_query(&mut qs, &tv, 0, tv.len());
        proof {
            let tc = title_candidate(title@);
            assert(tv@.subrange(a as int, b as int) == trim(title@));
            assert(tc == seq![title@]);
            assert(tc.drop_last() =~= Seq::<Seq<char>>::empty());
            assert(queries_of(tc.drop_last()) =~= Seq::<Seq<char>>::empty());
            assert(char_views(qs@) == queries_of(tc));
        }
    } else {
        assert(title_candidate(title@) =~= Seq::<Seq<char>>::empty());
    }
    let ghost tc = title_candidate(title@);
    assert(char_views(qs@) == queries_of(tc));
    let cv = to_chars(content);
    let ranges = lines_of(&cv);
    let ghost ls = lines(cv@);
    let mut k: usize = 0;
    while k < ranges.len()
        invariant
            0 <= k <= ranges@.len(),
            ls == lines(cv@),
            ranges@.len() == ls.len(),
            forall|i: int| 0 <= i < ranges@.len() ==> #[trigger] ranges@[i].0 <= ranges@[i].1 <= cv@.len(),
            forall|i: int|
                0 <= i < ranges@.len() ==> cv@.subrange(ranges@[i].0 as int, ranges@[i].1 as int)
                    == #[trigger] ls[i],
            char_views(qs@) == queries_of(tc + headings(ls.take(k as int))),
        decreases ranges@.len() - k,
    {
        let (lo, hi) = ranges[k];
        assert(lo <= hi <= cv@.len());
        assert(cv@.subrange(lo as int, hi as int) == ls[k as int]);
        let (la, lb) = trim_range(&cv, lo, hi);
        let ghost l = cv@.subrange(la as int, lb as int);
        proof {
            let t = ls.take(k + 1);
            assert(t.drop_last() =~= ls.take(k as int));
            assert(t.last() == ls[k as int]);
            reveal_strlit("### ");
            reveal_strlit("## ");
        }
        let ghost prev = tc + headings(ls.take(k as int));
        if starts_with_str(&cv, la, lb, "### ") {
            add_query(&mut qs, &cv, la + 4, lb);
            proof {
                assert(l.skip(4) =~= cv@.subrange(la + 4, lb as int));
                assert(heading_of(ls[k as int]) == Some(l.skip(4)));
                let now = tc + headings(ls.take(k + 1));
                assert(now =~= prev.push(l.skip(4)));
                assert(now.drop_last() =~= prev);
            }
        } else if starts_with_str(&cv, la, lb, "## ") {
            add_query(&mut qs, &cv, la + 3, lb);
            proof {
                assert(l.skip(3) =~= cv@.subrange(la + 3, lb as int));
                assert(heading_of(ls[k as int]) == Some(l.skip(3)));
                let now = tc + headings(ls.take(k + 1));
                assert(now =~= prev.push(l.skip(3)));
                assert(now.drop_last() =~= prev);
            }
        } else {
            proof {
                assert(heading_of(ls[k as int]) is None);
                assert(tc + headings(ls.take(k + 1)) =~= prev);
            }
        }
        k = k + 1;
    }
    assert(ls.take(ranges@.len() as int) =~= ls);
    let n = if qs.len() < max {
        qs.len()
    } else {
        max
    };
    let mut out: Vec<String> = Vec::new();
    let mut i: usize = 0;
    while i < n
        invariant
            0 <= i <= n <= qs@.len(),
            n <= max,
            string_views(out@) == char_views(qs@).take(i as int),
        decreases n - i,
    {
        let s = string_of_all(&qs[i]);
        let ghost before = string_views(out@);
        out.push(s);
        assert(string_views(out@) =~= before.push(s@));
        assert(char_views(qs@).take(i + 1) =~= char_views(qs@).take(i as int).push(qs@[i as int]@));
        i = i + 1;
    }
    out
}

/// The first `max` queries.
pub open spec fn take_queries(qs: Seq<Seq<char>>, max: nat) -> Seq<Seq<char>> {
    if qs.len() <= max {
        qs
    } else {
        qs.take(max as int)
    }
}

/// No two queries are equal up to ASCII case, and each has at least three
/// bytes and is not a generic heading.
pub proof fn law_queries_distinct(cands: Seq<Seq<char>>)
    ensures
        forall|i: int, j: int|
            0 <= i < j < queries_of(cands).len() ==> !eq_ignore_ascii_case(
                #[trigger] queries_of(cands)[i],
                #[trigger] queries_of(cands)[j],
            ),
        forall|i: int|
            0 <= i < queries_of(cands).len() ==> vstd::utf8::encode_utf8(
                #[trigger] queries_of(cands)[i],
            ).len() >= 3 && !generic_headings().contains(lowercase_of(queries_of(cands)[i])),
    decreases cands.len(),
{
    if cands.len() > 0 {
        law_queries_distinct(cands.drop_last());
        let prev = queries_of(cands.drop_last());
        let now = queries_of(cands);
        if now.len() > prev.len() {
            assert(now == prev.push(trim(cands.last())));
            assert forall|i: int, j: int| 0 <= i < j < now.len() implies !eq_ignore_ascii_case(
                #[trigger] now[i],
                #[trigger] now[j],
            ) by {
                if j < prev.len() {
                    assert(now[i] == prev[i]);
                    assert(now[j] == prev[j]);
                } else {
                    assert(now[i] == prev[i]);
                }
            }
            assert forall|i: int| 0 <= i < now.len() implies vstd::utf8::encode_utf8(
                #[trigger] now[i],
            ).len() >= 3 && !generic_headings().contains(lowercase_of(now[i])) by {
                if i < prev.len() {
                    assert(now[i] == prev[i]);
                }
            }
        }
    }
}

// ---------------------------------------------------------------------------
// Page titles in URLs
// ---------------------------------------------------------------------------

/// Whether a byte is kept as is in a REST path segment.
pub open spec fn unreserved(b: u8) -> bool {
    (0x41 <= b && b <= 0x5a) || (0x61 <= b && b <= 0x7a) || (0x30 <= b && b <= 0x39) || b == 0x2d
        || b == 0x5f || b == 0x2e || b == 0x7e
}

/// Upper-case hexadecimal digit of `n` (`n < 16`).
pub open spec fn hex_digit(n: u8) -> char {
    if n < 10 {
        (0x30 + n) as char
    } else {
        (0x41 + n - 10) as char
    }
}

/// Percent-encoding of `bytes`.
pub open spec fn percent_encode(bytes: Seq<u8>) -> Seq<char>
    decreases bytes.len(),
{
    if bytes.len() == 0 {
        seq![]
    } else {
        let b = bytes.last();
        percent_encode(bytes.drop_last()) + if unreserved(b) {
            seq![b as char]
        } else {
            seq!['%', hex_digit(b / 16), hex_digit(b % 16)]
        }
    }
}

/// The URL path segment of a Wikipedia page title: spaces become
/// underscores, then every byte of the UTF-8 text outside the unreserved set
/// is percent-encoded.
pub open spec fn encoded_title(title: Seq<char>) -> Seq<char> {
    percent_encode(vstd::utf8::encode_utf8(crate::text::replace_all(title, " "@, "_"@)))
}

fn hex_char(n: u8) -> (c: char)
    requires
        n < 16,
    ensures
        c == hex_digit(n),
{
    if n < 10 {
        (0x30 + n) as char
    } else {
        (0x41 + n - 10) as char
    }
}

/// Percent-encodes a Wikipedia page title for use in a REST path segment.
pub fn encode_title(title: &str) -> (r: String)
    ensures
        r@ == encoded_title(title@),
{
    let v = to_chars(title);
    proof {
        reveal_strlit(" ");
    }
    let replaced = crate::text::replace_str(&v, " ", "_");
    let s = string_of_all(&replaced);
    let bytes = s.as_str().as_bytes();
    let ghost bs = bytes@;
    assert(bs == vstd::utf8::encode_utf8(crate::text::replace_all(title@, " "@, "_"@)));
    let mut out = String::new();
    let mut i: usize = 0;
    while i < bytes.len()
        invariant
            0 <= i <= bytes@.len(),
            bs == bytes@,
            out@ == percent_encode(bs.take(i as int)),
        decreases bytes@.len() - i,
    {
        let b = bytes[i];
        proof {
            let t = bs.take(i + 1);
            assert(t.drop_last() =~= bs.take(i as int));
            assert(t.last() == b);
        }
        if (0x41 <= b && b <= 0x5a) || (0x61 <= b && b <= 0x7a) || (0x30 <= b && b <= 0x39) || b
            == 0x2d || b == 0x5f || b == 0x2e || b == 0x7e {
            out.push(b as char);
            assert(out@ =~= percent_encode(bs.take(i + 1)));
        } else {
            out.push('%');
            out.push(hex_char(b / 16));
            out.push(hex_char(b % 16));
            assert(out@ =~= percent_encode(bs.take(i + 1)));
        }
        i = i + 1;
    }
    assert(bs.take(bytes@.len() as int) =~= bs);
    out
}

// ---------------------------------------------------------------------------
// Reading API answers
// ---------------------------------------------------------------------------

/// The titles of the hits that have one, in order.
pub open spec fn hit_titles(hits: Seq<Json>) -> Seq<Seq<char>>
    decreases hits.len(),
{
    if hits.len() == 0 {
        seq![]
    } else {
        match str_at(hits.last(), "title"@) {
            Some(t) => hit_titles(hits.drop_last()).push(t),
            None => hit_titles(hits.drop_last()),
        }
    }
}

/// The page titles of a Wikipedia `list=search` response: those of
/// `query.search`, or none when it is not an array.
pub open spec fn search_titles(j: Json) -> Seq<Seq<char>> {
    match j.get_spec("query"@) {
        Some(q) => match q.get_spec("search"@) {
            Some(Json::Array(hits)) => hit_titles(hits@),
            _ => seq![],
        },
        None => seq![],
    }
}

/// Extracts page titles from a Wikipedia `list=search` response.
pub fn parse_search_titles(json: &Json) -> (r: Vec<String>)
    ensures
        string_views(r@) == search_titles(*json),
{
    let mut out: Vec<String> = Vec::new();
    let q = match json.get("query") {
        Some(q) => q,
        None => return out,
    };
    let s = match q.get("search") {
        Some(s) => s,
        None => return out,
    };
    let hits = match s.as_array() {
        Some(a) => a,
        None => {
            assert(string_views(out@) =~= search_titles(*json));
            return out;
        },
    };
    let mut i: usize = 0;
    while i < hits.len()
        invariant
            0 <= i <= hits@.len(),
            string_views(out@) == hit_titles(hits@.take(i as int)),
        decreases hits@.len() - i,
    {
        proof {
            let t = hits@.take(i + 1);
            assert(t.drop_last() =~= hits@.take(i as int));
            assert(t.last() == hits@[i as int]);
        }
        match str_field(&hits[i], "title") {
            Some(t) => {
                let ghost before = string_views(out@);
                out.push(t.clone());
                assert(string_views(out@) =~= before.push(t@));
            },
            None => {},
        }
        i = i + 1;
    }
    assert(hits@.take(hits@.len() as int) =~= hits@);
    out
}

/// Where the summary of a search's first hit is fetched: the page-summary
/// endpoint of `base` for the hit's encoded title; nothing when the search
/// found no page.
pub open spec fn summary_request_url(base: Seq<char>, search: Json) -> Option<Seq<char>> {
    let ts = search_titles(search);
    if ts.len() == 0 {
        None
    } else {
        Some(base + "/api/rest_v1/page/summary/"@ + encoded_title(ts[0]))
    }
}

/// The summary request that follows a Wikipedia search answer, if any.
pub fn summary_request(base: &str, search: &Json) -> (r: Option<String>)
    ensures
        r matches Some(u) ==> summary_request_url(base@, *search) == Some(u@),
        r is None ==> summary_request_url(base@, *search) is None,
{
    let titles = parse_search_titles(search);
    if titles.len() == 0 {
        return None;
    }
    assert(string_views(titles@)[0] == titles@[0]@);
    let enc = encode_title(titles[0].as_str());
    let mut out: Vec<char> = Vec::new();
    push_str(&mut out, base);
    push_str(&mut out, "/api/rest_v1/page/summary/");
    push_str(&mut out, enc.as_str());
    Some(string_of_all(&out))
}

/// The page URL of a summary: the desktop one, else the mobile one, else
/// empty.
pub open spec fn summary_url(j: Json) -> Seq<char> {
    let desktop = match j.get_spec("content_urls"@) {
        Some(u) => match u.get_spec("desktop"@) {
            Some(d) => str_at(d, "page"@),
            None => None,
        },
        None => None,
    };
    let mobile = match j.get_spec("content_urls"@) {
        Some(u) => match u.get_spec("mobile"@) {
            Some(m) => str_at(m, "page"@),
            None => None,
        },
        None => None,
    };
    match desktop {
        Some(s) => s,
        None => match mobile {
            Some(s) => s,
            None => seq![],
        },
    }
}

/// The finding a REST summary payload describes: none without a title or
/// with an empty (after trimming) extract; otherwise the title, the extract
/// cut to 600 characters, the page URL and the source "Wikipedia".
pub open spec fn summary_finding(j: Json) -> Option<(Seq<char>, Seq<char>, Seq<char>)> {
    match str_at(j, "title"@) {
        None => None,
        Some(title) => {
            let extract = trim(
                match str_at(j, "extract"@) {
                    Some(e) => e,
                    None => seq![],
                },
            );
            if extract.len() == 0 {
                None
            } else {
                Some((title, take_chars(extract, 600), summary_url(j)))
            }
        },
    }
}

/// A finding's summary is the start of the trimmed extract: its first 600
/// characters, or all of it when shorter; a finding needs a title and a
/// non-blank extract.
pub proof fn law_summary_is_start_of_extract(j: Json)
    ensures
        summary_finding(j) is Some <==> (str_at(j, "title"@) is Some && str_at(j, "extract"@) is Some
            && trim(str_at(j, "extract"@)->0).len() > 0),
        summary_finding(j) matches Some((t, s, u)) ==> ({
            let e = trim(str_at(j, "extract"@)->0);
            &&& Some(t) == str_at(j, "title"@)
            &&& s == e.take(if e.len() < 600 { e.len() as int } else { 600 })
            &&& u == summary_url(j)
        }),
{
    match str_at(j, "extract"@) {
        Some(e) => {
            let t = trim(e);
            if t.len() < 600 {
                assert(t.take(t.len() as int) =~= t);
            }
        },
        None => {
            let z: Seq<char> = seq![];
            crate::text::lemma_lead_len_bounds(z, crate::text::ws());
            crate::text::lemma_trail_len_bounds(crate::text::trim_start(z), crate::text::ws());
        },
    }
}

fn page_url(j: &Json, variant: &str) -> (r: Option<String>)
    ensures
        r matches Some(s) ==> (match j.get_spec("content_urls"@) {
            Some(u) => match u.get_spec(variant@) {
                Some(d) => str_at(d, "page"@),
                None => None,
            },
            None => None,
        }) == Some(s@),
        r is None ==> (match j.get_spec("content_urls"@) {
            Some(u) => match u.get_spec(variant@) {
                Some(d) => str_at(d, "page"@),
                None => None,
            },
            None => None,
        }) is None,
{
    match j.get("content_urls") {
        Some(u) => match u.get(variant) {
            Some(d) => match str_field(d, "page") {
                Some(s) => Some(s.clone()),
                None => None,
            },
            None => None,
        },
        None => None,
    }
}

/// Turns a REST summary payload into a finding, or `None` if it has no
/// title or no extract.
pub fn parse_summary(json: &Json) -> (r: Option<ResearchFinding>)
    ensures
        r is Some <==> summary_finding(*json) is Some,
        r matches Some(f) ==> summary_finding(*json) == Some((f.title@, f.summary@, f.url@))
            && f.source@ == "Wikipedia"@,
{
    let title = match str_field(json, "title") {
        Some(t) => t,
        None => return None,
    };
    let extract_chars = match str_field(json, "extract") {
        Some(e) => to_chars(e.as_str()),
        None => Vec::new(),
    };
    let (a, b) = trim_range(&extract_chars, 0, extract_chars.len());
    assert(extract_chars@.subrange(0, extract_chars@.len() as int) =~= extract_chars@);
    if a == b {
        return None;
    }
    let end = if b - a <= 600 {
        b
    } else {
        a + 600
    };
    let summary = string_of(&extract_chars, a, end);
    proof {
        let e = extract_chars@.subrange(a as int, b as int);
        if e.len() > 600 {
            assert(e.take(600) =~= extract_chars@.subrange(a as int, end as int));
        }
    }
    let url = match page_url(json, "desktop") {
        Some(u) => u,
        None => match page_url(json, "mobile") {
            Some(u) => u,
            None => String::new(),
        },
    };
    Some(
        ResearchFinding {
            title: title.clone(),
            summary,
            url,
            source: String::from_str("Wikipedia"),
        },
    )
}

/// Adds a finding unless one with the same title is already there, as
/// research de-duplicates by page title.
pub fn add_finding(findings: &mut Vec<ResearchFinding>, f: ResearchFinding)
    ensures
        (exists|i: int| 0 <= i < old(findings)@.len() && (#[trigger] old(findings)@[i]).title@
            == f.title@) ==> final(findings)@ == old(findings)@,
        !(exists|i: int| 0 <= i < old(findings)@.len() && (#[trigger] old(findings)@[i]).title@
            == f.title@) ==> final(findings)@ == old(findings)@.push(f),
{
    let mut i: usize = 0;
    while i < findings.len()
        invariant
            0 <= i <= findings@.len(),
            findings@ == old(findings)@,
            forall|j: int| 0 <= j < i ==> (#[trigger] findings@[j]).title@ != f.title@,
        decreases findings@.len() - i,
    {
        if findings[i].title == f.title {
            return;
        }
        i = i + 1;
    }
    findings.push(f);
}

/// After any run of `add_finding`, no two findings share a title.
pub proof fn law_add_finding_keeps_titles_distinct(
    before: Seq<ResearchFinding>,
    f: ResearchFinding,
    after: Seq<ResearchFinding>,
)
    requires
        forall|i: int, j: int|
            0 <= i < j < before.len() ==> (#[trigger] before[i]).title@ != (
            #[trigger] before[j]).title@,
        (exists|i: int| 0 <= i < before.len() && (#[trigger] before[i]).title@ == f.title@)
            ==> after == before,
        !(exists|i: int| 0 <= i < before.len() && (#[trigger] before[i]).title@ == f.title@)
            ==> after == before.push(f),
    ensures
        forall|i: int, j: int|
            0 <= i < j < after.len() ==> (#[trigger] after[i]).title@ != (
            #[trigger] after[j]).title@,
{
    if !(exists|i: int| 0 <= i < before.len() && (#[trigger] before[i]).title@ == f.title@) {
        assert forall|i: int, j: int| 0 <= i < j < after.len() implies (
        #[trigger] after[i]).title@ != (#[trigger] after[j]).title@ by {
            if j < before.len() {
                assert(after[i] == before[i]);
                assert(after[j] == before[j]);
            } else {
                assert(after[i] == before[i]);
                assert(after[j] == f);
            }
        }
    }
}

// ---------------------------------------------------------------------------
// The research section of a note
// ---------------------------------------------------------------------------

/// The heading that opens the research section.
pub open spec fn research_heading() -> Seq<char> {
    "## Background & Research"@
}

/// The text one finding contributes to the section.
pub open spec fn finding_text(f: ResearchFinding) -> Seq<char> {
    "\n### "@ + f.title@ + "\n"@ + f.summary@ + "\n"@ + (if f.url@.len() > 0 {
        "\n[Read more →]("@ + f.url@ + ")\n"@
    } else {
        seq![]
    })
}

/// The texts of the findings, in order.
pub open spec fn findings_text(fs: Seq<ResearchFinding>) -> Seq<char>
    decreases fs.len(),
{
    if fs.len() == 0 {
        seq![]
    } else {
        findings_text(fs.drop_last()) + finding_text(fs.last())
    }
}

/// The opening of the research section.
pub open spec fn section_intro() -> Seq<char> {
    "\n\n"@ + research_heading() + "\n\n_Researched automatically from Wikipedia._\n"@
}

/// The Markdown section the findings become; nothing when there are none.
pub open spec fn section_spec(fs: Seq<ResearchFinding>) -> Seq<char> {
    if fs.len() == 0 {
        seq![]
    } else {
        section_intro() + findings_text(fs)
    }
}

/// Renders findings as a Markdown section appended to a note.
pub fn render_section(findings: &Vec<ResearchFinding>) -> (r: String)
    ensures
        r@ == section_spec(findings@),
{
    if findings.len() == 0 {
        return String::new();
    }
    let mut out: Vec<char> = Vec::new();
    push_str(&mut out, "\n\n");
    push_str(&mut out, "## Background & Research");
    push_str(&mut out, "\n\n_Researched automatically from Wikipedia._\n");
    let ghost intro = out@;
    assert(intro =~= section_intro());
    let mut i: usize = 0;
    while i < findings.len()
        invariant
            0 <= i <= findings@.len(),
            intro == section_intro(),
            out@ == intro + findings_text(findings@.take(i as int)),
        decreases findings@.len() - i,
    {
        let f = &findings[i];
        let ghost before = out@;
        push_str(&mut out, "\n### ");
        push_str(&mut out, f.title.as_str());
        push_str(&mut out, "\n");
        push_str(&mut out, f.summary.as_str());
        push_str(&mut out, "\n");
        if !f.url.as_str().is_empty() {
            push_str(&mut out, "\n[Read more →](");
            push_str(&mut out, f.url.as_str());
            push_str(&mut out, ")\n");
        }
        proof {
            let t = findings@.take(i + 1);
            assert(t.drop_last() =~= findings@.take(i as int));
            assert(t.last() == *f);
            assert(out@ =~= before + finding_text(*f));
        }
        i = i + 1;
    }
    assert(findings@.take(findings@.len() as int) =~= findings@);
    string_of_all(&out)
}

/// `content` without a previously appended research section: cut before
/// the first research heading, then trimmed at the end.
pub open spec fn stripped(content: Seq<char>) -> Seq<char> {
    match find_sub(content, research_heading()) {
        Some(i) => trim_end(content.take(i)),
        None => trim_end(content),
    }
}

/// Removes a previously appended research section so re-running is
/// idempotent.
pub fn strip_section(content: &str) -> (r: String)
    ensures
        r@ == stripped(content@),
{
    let v = to_chars(content);
    let h = to_chars("## Background & Research");
    match find_sub_in(&v, &h) {
        Some(idx) => {
            proof {
                lemma_find_sub(v@, h@);
            }
            let b = trim_end_index(&v, 0, idx);
            assert(v@.subrange(0, idx as int) =~= v@.take(idx as int));
            string_of(&v, 0, b)
        },
        None => {
            let b = trim_end_index(&v, 0, v.len());
            assert(v@.subrange(0, v@.len() as int) =~= v@);
            string_of(&v, 0, b)
        },
    }
}

// ---------------------------------------------------------------------------
// Laws of the research section
// ---------------------------------------------------------------------------

/// Trailing whitespace added to a text does not change its trimmed end.
pub proof fn lemma_trim_end_ws_suffix(s: Seq<char>, w: Seq<char>)
    requires
        forall|j: int| 0 <= j < w.len() ==> is_ws(#[trigger] w[j]),
    ensures
        trim_end(s + w) == trim_end(s),
{
    lemma_trail_len_bounds(s, ws());
    let k = s.len() - trail_len(s, ws());
    let t = s + w;
    assert forall|j: int| k <= j < t.len() implies (ws())(#[trigger] t[j]) by {
        if j < s.len() {
            assert(t[j] == s[j]);
            assert((ws())(s[j]));
        } else {
            assert(t[j] == w[j - s.len()]);
        }
    }
    if k > 0 {
        assert(t[k - 1] == s[k - 1]);
    }
    lemma_trail_len_is(t, ws(), k);
    assert(t.take(k) =~= s.take(k));
}

/// Trimming the end twice is trimming it once.
pub proof fn lemma_trim_end_idempotent(s: Seq<char>)
    ensures
        trim_end(trim_end(s)) == trim_end(s),
{
    lemma_trail_len_bounds(s, ws());
    let t = trim_end(s);
    if t.len() > 0 {
        assert(t[t.len() - 1] == s[t.len() - 1]);
    }
    lemma_trail_len_is(t, ws(), t.len() as int);
    assert(t.take(t.len() as int) =~= t);
}

/// An occurrence in a prefix is an occurrence in the whole text.
proof fn lemma_prefix_occurrence(c: Seq<char>, m: int, pat: Seq<char>, j: int)
    requires
        0 <= m <= c.len(),
        0 <= j <= m,
        starts_with(c.take(m).skip(j), pat),
    ensures
        starts_with(c.skip(j), pat),
        j + pat.len() <= m,
{
    assert(c.skip(j).take(pat.len() as int) =~= c.take(m).skip(j).take(pat.len() as int));
}

/// The stripped text holds no research heading, and stripping twice is
/// stripping once.
pub proof fn law_strip_section_idempotent(content: Seq<char>)
    ensures
        find_sub(stripped(content), research_heading()) is None,
        stripped(stripped(content)) == stripped(content),
{
    lemma_find_sub(content, research_heading());
    reveal_strlit("## Background & Research");
    let h = research_heading();
    let r = stripped(content);
    let m: int = match find_sub(content, h) {
        Some(i) => i,
        None => content.len() as int,
    };
    assert(0 <= m <= content.len());
    if find_sub(content, h) is None {
        assert(content.take(m) =~= content);
    }
    let s = content.take(m);
    assert(r == trim_end(s));
    lemma_trail_len_bounds(s, ws());
    let n: int = s.len() - trail_len(s, ws());
    assert(r =~= s.take(n));
    assert(r =~= content.take(n));
    assert(r.len() == n && n <= m);
    lemma_find_sub(r, h);
    if find_sub(r, h) is Some {
        let j = find_sub(r, h)->0;
        lemma_prefix_occurrence(content, n, h, j);
        match find_sub(content, h) {
            Some(i) => {
                assert(j < i);
            },
            None => {},
        }
        assert(false);
    }
    lemma_trim_end_idempotent(s);
}

/// Whether `s` holds no line break.
pub open spec fn newline_free(s: Seq<char>) -> bool
    decreases s.len(),
{
    s.len() == 0 || (s[0] != '\n' && newline_free(s.drop_first()))
}

proof fn lemma_newline_free(s: Seq<char>)
    requires
        newline_free(s),
    ensures
        forall|k: int| 0 <= k < s.len() ==> s[k] != '\n',
    decreases s.len(),
{
    if s.len() > 0 {
        lemma_newline_free(s.drop_first());
        assert forall|k: int| 0 <= k < s.len() implies s[k] != '\n' by {
            if k > 0 {
                assert(s[k] == s.drop_first()[k - 1]);
            }
        }
    }
}

/// Appending a rendered section to a note that has none and stripping it
/// again gives back the note, trimmed at the end.
pub proof fn law_strip_undoes_render(base: Seq<char>, fs: Seq<ResearchFinding>)
    requires
        find_sub(base, research_heading()) is None,
    ensures
        stripped(base + section_spec(fs)) == trim_end(base),
{
    if fs.len() == 0 {
        assert(base + section_spec(fs) =~= base);
    } else {
        reveal_strlit("## Background & Research");
        reveal_strlit("\n\n");
        let h = research_heading();
        let c = base + section_spec(fs);
        let p: int = base.len() as int + 2;
        assert(newline_free(h)) by {
            reveal_with_fuel(newline_free, 25);
        }
        lemma_find_sub(base, h);
        assert(section_spec(fs) =~= "\n\n"@ + h + ("\n\n_Researched automatically from Wikipedia._\n"@
            + findings_text(fs)));
        assert(c.skip(p).take(h.len() as int) =~= h);
        assert forall|j: int| 0 <= j < p implies !starts_with(#[trigger] c.skip(j), h) by {
            if starts_with(c.skip(j), h) {
                if j + h.len() <= base.len() {
                    assert(base.skip(j).take(h.len() as int) =~= c.skip(j).take(h.len() as int));
                    assert(starts_with(base.skip(j), h));
                } else {
                    let t: int = if j <= base.len() {
                        base.len() - j
                    } else {
                        0
                    };
                    assert(c[j + t] == '\n');
                    assert(c.skip(j).take(h.len() as int)[t] == c[j + t]);
                    lemma_newline_free(h);
                    assert(h[t] != '\n');
                }
            }
        }
        crate::text::lemma_find_sub_is(c, h, p);
        assert(c.take(p) =~= base + "\n\n"@);
        lemma_trim_end_ws_suffix(base, "\n\n"@);
    }
}

/// Re-running research replaces the section and never stacks it: a note
/// stripped, given a fresh section and stripped again is the note stripped
/// once.
pub proof fn law_strip_replaces_section(content: Seq<char>, fs: Seq<ResearchFinding>)
    ensures
        stripped(stripped(content) + section_spec(fs)) == stripped(content),
{
    law_strip_section_idempotent(content);
    let s = stripped(content);
    assert(stripped(s) == trim_end(s));
    law_strip_undoes_render(s, fs);
}

} // verus!
