//! Reading the speech recogniser: the progress it reports and the text of
//! its transcript. Timings (in seconds, as floating point) stay with the app.
use vstd::prelude::*;
use crate::storage::{join, non_empty};
use crate::text::{
    find_sub, find_sub_in, is_ws, is_ws_char, push_range, push_str, string_of, string_of_all,
    string_views, to_chars, trim, trim_range,
};

verus! {

/// The marker before the percentage in a progress line.
pub open spec fn progress_marker() -> Seq<char> {
    "progress ="@
}

/// An ASCII digit.
pub open spec fn is_digit(c: char) -> bool {
    '0' <= c && c <= '9'
}

/// Number of leading characters of `s` that satisfy `p`.
pub open spec fn run_len(s: Seq<char>, p: spec_fn(char) -> bool) -> nat
    decreases s.len(),
{
    if s.len() > 0 && p(s[0]) {
        1 + run_len(s.drop_first(), p)
    } else {
        0
    }
}

/// The digits of a progress line: after the first "progress =", the
/// whitespace skipped, the run of ASCII digits; none when there is no
/// marker or no digit.
pub open spec fn progress_digits_spec(line: Seq<char>) -> Option<Seq<char>> {
    match find_sub(line, progress_marker()) {
        None => None,
        Some(i) => {
            let rest = line.skip(i + 10);
            let after = rest.skip(run_len(rest, |c: char| is_ws(c)) as int);
            let digits = after.take(run_len(after, |c: char| is_digit(c)) as int);
            if digits.len() == 0 {
                None
            } else {
                Some(digits)
            }
        },
    }
}

/// Where the run of characters satisfying `p` that starts at `lo` ends.
proof fn lemma_run_len(s: Seq<char>, p: spec_fn(char) -> bool, k: int)
    requires
        0 <= k <= s.len(),
        forall|j: int| 0 <= j < k ==> p(#[trigger] s[j]),
        k == s.len() || !p(s[k]),
    ensures
        run_len(s, p) == k,
    decreases k,
{
    if k > 0 {
        assert forall|j: int| 0 <= j < k - 1 implies p(#[trigger] s.drop_first()[j]) by {
            assert(p(s[j + 1]));
        }
        if k < s.len() {
            assert(s.drop_first()[k - 1] == s[k]);
        }
        lemma_run_len(s.drop_first(), p, k - 1);
    }
}

/// The percentage digits of a recogniser progress line, if it has them.
pub fn progress_digits(line: &str) -> (r: Option<String>)
    ensures
        crate::calendar::opt_text(r) == progress_digits_spec(line@),
{
    let v = to_chars(line);
    let m = to_chars("progress =");
    proof {
        reveal_strlit("progress =");
    }
    let i = match find_sub_in(&v, &m) {
        Some(i) => i,
        None => return None,
    };
    proof {
        crate::text::lemma_find_sub(v@, m@);
    }
    let n = v.len();
    let start = i + 10;
    let ghost rest = v@.skip(start as int);
    let mut a = start;
    while a < n && is_ws_char(v[a])
        invariant
            start <= a <= n,
            n == v@.len(),
            forall|j: int| start <= j < a ==> is_ws(#[trigger] v@[j]),
        decreases n - a,
    {
        a = a + 1;
    }
    proof {
        assert forall|j: int| 0 <= j < a - start implies (|c: char| is_ws(c))(#[trigger] rest[j]) by {
            assert(rest[j] == v@[start + j]);
        }
        if a < n {
            assert(rest[a - start] == v@[a as int]);
        }
        lemma_run_len(rest, |c: char| is_ws(c), a - start);
        assert(rest.skip(a - start) =~= v@.skip(a as int));
    }
    let ghost after = v@.skip(a as int);
    let mut b = a;
    while b < n && '0' <= v[b] && v[b] <= '9'
        invariant
            a <= b <= n,
            n == v@.len(),
            forall|j: int| a <= j < b ==> is_digit(#[trigger] v@[j]),
        decreases n - b,
    {
        b = b + 1;
    }
    proof {
        assert forall|j: int| 0 <= j < b - a implies (|c: char| is_digit(c))(#[trigger] after[j]) by {
            assert(after[j] == v@[a + j]);
        }
        if b < n {
            assert(after[b - a] == v@[b as int]);
        }
        lemma_run_len(after, |c: char| is_digit(c), b - a);
        assert(after.take(b - a) =~= v@.subrange(a as int, b as int));
    }
    if a == b {
        None
    } else {
        Some(string_of(&v, a, b))
    }
}

/// The kept segments of a transcript: each whose text, trimmed, is not
/// empty, as its position and trimmed text.
pub open spec fn kept_segments(texts: Seq<Seq<char>>) -> Seq<(int, Seq<char>)>
    decreases texts.len(),
{
    if texts.len() == 0 {
        seq![]
    } else {
        let prev = kept_segments(texts.drop_last());
        let t = trim(texts.last());
        if t.len() > 0 {
            prev.push((texts.len() - 1, t))
        } else {
            prev
        }
    }
}

/// Kept segments as values.
pub open spec fn kept_views(ks: Seq<(usize, String)>) -> Seq<(int, Seq<char>)> {
    ks.map_values(|k: (usize, String)| (k.0 as int, k.1@))
}

/// The segments of a transcript worth keeping, with their trimmed text.
pub fn keep_segments(texts: &[String]) -> (r: Vec<(usize, String)>)
    ensures
        kept_views(r@) == kept_segments(string_views(texts@)),
{
    let ghost tv = string_views(texts@);
    let mut out: Vec<(usize, String)> = Vec::new();
    let mut i: usize = 0;
    assert(kept_views(out@) =~= kept_segments(tv.take(0)));
    while i < texts.len()
        invariant
            0 <= i <= texts@.len(),
            tv == string_views(texts@),
            kept_views(out@) == kept_segments(tv.take(i as int)),
        decreases texts@.len() - i,
    {
        let v = to_chars(texts[i].as_str());
        let (a, b) = trim_range(&v, 0, v.len());
        assert(v@.subrange(0, v@.len() as int) =~= tv[i as int]);
        proof {
            let t = tv.take(i + 1);
            assert(t.drop_last() =~= tv.take(i as int));
            assert(t.last() == tv[i as int]);
        }
        if a < b {
            let ghost before = kept_views(out@);
            let s = string_of(&v, a, b);
            out.push((i, s));
            assert(kept_views(out@) =~= before.push((i as int, s@)));
        }
        i = i + 1;
    }
    assert(tv.take(texts@.len() as int) =~= tv);
    out
}

/// The transcript's text: the kept segment texts joined by spaces.
pub fn joined_text(kept: &[(usize, String)]) -> (r: String)
    ensures
        r@ == join(kept@.map_values(|k: (usize, String)| k.1@), " "@),
{
    let ghost ks = kept@.map_values(|k: (usize, String)| k.1@);
    let mut out: Vec<char> = Vec::new();
    let mut i: usize = 0;
    proof {
        reveal_strlit(" ");
    }
    while i < kept.len()
        invariant
            0 <= i <= kept@.len(),
            ks == kept@.map_values(|k: (usize, String)| k.1@),
            out@ == join(ks.take(i as int), " "@),
        decreases kept@.len() - i,
    {
        let ghost before = out@;
        if i > 0 {
            push_str(&mut out, " ");
        }
        push_str(&mut out, kept[i].1.as_str());
        proof {
            let t = ks.take(i + 1);
            assert(t.drop_last() =~= ks.take(i as int));
            assert(t.last() == kept@[i as int].1@);
            if i == 0 {
                assert(t =~= seq![kept@[0].1@]);
                assert(out@ =~= kept@[0].1@);
            } else {
                assert(out@ =~= before + " "@ + kept@[i as int].1@);
            }
        }
        i = i + 1;
    }
    assert(ks.take(kept@.len() as int) =~= ks);
    string_of_all(&out)
}

/// The transcript's language: the recogniser's, or "en" when it names
/// none.
pub fn language_or_default(language: &str) -> (r: String)
    ensures
        r@ == (if language@.len() == 0 {
            "en"@
        } else {
            language@
        }),
{
    if language.is_empty() {
        String::from_str("en")
    } else {
        String::from_str(language)
    }
}

} // verus!
