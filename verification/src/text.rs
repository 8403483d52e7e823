//! Character-level text model shared by the parsers: trimming, line
//! splitting, searching and replacing, stated over `Seq<char>` and
//! implemented over `Vec<char>`.
use vstd::prelude::*;

verus! {

/// `String::push`: the string afterwards is the string before with the
/// character appended at its end.
pub assume_specification[ String::push ](s: &mut String, ch: char)
    ensures
        final(s)@ == old(s)@.push(ch),
;

// ---------------------------------------------------------------------------
// Conversions
// ---------------------------------------------------------------------------

/// The characters of `s`, in order.
pub fn to_chars(s: &str) -> (v: Vec<char>)
    ensures
        v@ == s@,
{
    let mut v: Vec<char> = Vec::new();
    for c in it: s.chars()
        invariant
            v@ == it.seq().take(it.index()),
    {
        v.push(c);
    }
    v
}

/// The values of a list of character vectors.
pub open spec fn char_views(v: Seq<Vec<char>>) -> Seq<Seq<char>> {
    v.map_values(|x: Vec<char>| x@)
}

/// The values of a list of strings.
pub open spec fn string_views(v: Seq<String>) -> Seq<Seq<char>> {
    v.map_values(|x: String| x@)
}

/// An owned string holding `v[lo..hi]`.
pub fn string_of(v: &Vec<char>, lo: usize, hi: usize) -> (r: String)
    requires
        lo <= hi <= v@.len(),
    ensures
        r@ == v@.subrange(lo as int, hi as int),
{
    let mut r = String::new();
    let mut i = lo;
    while i < hi
        invariant
            lo <= i <= hi <= v@.len(),
            r@ == v@.subrange(lo as int, i as int),
        decreases hi - i,
    {
        r.push(v[i]);
        i = i + 1;
        assert(r@ =~= v@.subrange(lo as int, i as int));
    }
    r
}

/// Appends `v[lo..hi]` to `out`.
pub fn push_range(out: &mut Vec<char>, v: &Vec<char>, lo: usize, hi: usize)
    requires
        lo <= hi <= v@.len(),
    ensures
        final(out)@ == old(out)@ + v@.subrange(lo as int, hi as int),
{
    let ghost start = out@;
    let mut i = lo;
    while i < hi
        invariant
            lo <= i <= hi <= v@.len(),
            out@ == start + v@.subrange(lo as int, i as int),
        decreases hi - i,
    {
        out.push(v[i]);
        i = i + 1;
        assert(out@ =~= start + v@.subrange(lo as int, i as int));
    }
}

/// Appends all characters of `s` to `out`.
pub fn push_str(out: &mut Vec<char>, s: &str)
    ensures
        final(out)@ == old(out)@ + s@,
{
    let v = to_chars(s);
    push_range(out, &v, 0, v.len());
    assert(v@.subrange(0, v@.len() as int) =~= v@);
}

/// An owned string holding all of `v`.
pub fn string_of_all(v: &Vec<char>) -> (r: String)
    ensures
        r@ == v@,
{
    let r = string_of(v, 0, v.len());
    assert(v@.subrange(0, v@.len() as int) =~= v@);
    r
}

/// Whether two character sequences are equal.
pub fn chars_eq(a: &Vec<char>, b: &Vec<char>) -> (r: bool)
    ensures
        r == (a@ == b@),
{
    let r = range_eq(a, 0, a.len(), b);
    assert(a@.subrange(0, a@.len() as int) =~= a@);
    r
}

/// Whether `v[lo..hi]` equals `w`.
pub fn range_eq(v: &Vec<char>, lo: usize, hi: usize, w: &Vec<char>) -> (r: bool)
    requires
        lo <= hi <= v@.len(),
    ensures
        r == (v@.subrange(lo as int, hi as int) == w@),
{
    if hi - lo != w.len() {
        return false;
    }
    let mut i: usize = 0;
    while i < w.len()
        invariant
            lo <= hi <= v@.len(),
            hi - lo == w@.len(),
            0 <= i <= w@.len(),
            forall|j: int| 0 <= j < i ==> v@[lo + j] == w@[j],
        decreases w@.len() - i,
    {
        if v[lo + i] != w[i] {
            assert(v@.subrange(lo as int, hi as int)[i as int] != w@[i as int]);
            return false;
        }
        i = i + 1;
    }
    assert(v@.subrange(lo as int, hi as int) =~= w@);
    true
}

/// Whether `v[lo..hi]` equals the text `s`.
pub fn range_eq_str(v: &Vec<char>, lo: usize, hi: usize, s: &str) -> (r: bool)
    requires
        lo <= hi <= v@.len(),
    ensures
        r == (v@.subrange(lo as int, hi as int) == s@),
{
    let w = to_chars(s);
    range_eq(v, lo, hi, &w)
}

/// Whether two texts are equal.
pub fn str_eq(a: &str, b: &str) -> (r: bool)
    ensures
        r == (a@ == b@),
{
    let x = to_chars(a);
    let y = to_chars(b);
    chars_eq(&x, &y)
}

/// `a` followed by `b`, as an owned string.
pub fn concat_str(a: &str, b: &str) -> (r: String)
    ensures
        r@ == a@ + b@,
{
    let mut v = to_chars(a);
    push_str(&mut v, b);
    string_of_all(&v)
}

// ---------------------------------------------------------------------------
// Predicates on characters
// ---------------------------------------------------------------------------

/// Unicode `White_Space`, the set `char::is_whitespace` tests.
pub open spec fn is_ws(c: char) -> bool {
    let u = c as u32;
    (0x9 <= u && u <= 0xd) || u == 0x20 || u == 0x85 || u == 0xa0 || u == 0x1680 || (0x2000 <= u
        && u <= 0x200a) || u == 0x2028 || u == 0x2029 || u == 0x202f || u == 0x205f || u == 0x3000
}

/// Whether `c` is whitespace.
pub fn is_ws_char(c: char) -> (b: bool)
    ensures
        b == is_ws(c),
{
    let u = c as u32;
    (0x9 <= u && u <= 0xd) || u == 0x20 || u == 0x85 || u == 0xa0 || u == 0x1680 || (0x2000 <= u
        && u <= 0x200a) || u == 0x2028 || u == 0x2029 || u == 0x202f || u == 0x205f || u == 0x3000
}

/// The whitespace predicate as a value.
pub open spec fn ws() -> spec_fn(char) -> bool {
    |c: char| is_ws(c)
}

// ---------------------------------------------------------------------------
// Trimming
// ---------------------------------------------------------------------------

/// Number of leading characters of `s` that satisfy `p`.
pub open spec fn lead_len(s: Seq<char>, p: spec_fn(char) -> bool) -> nat
    decreases s.len(),
{
    if s.len() > 0 && p(s[0]) {
        1 + lead_len(s.drop_first(), p)
    } else {
        0
    }
}

/// Number of trailing characters of `s` that satisfy `p`.
pub open spec fn trail_len(s: Seq<char>, p: spec_fn(char) -> bool) -> nat
    decreases s.len(),
{
    if s.len() > 0 && p(s.last()) {
        1 + trail_len(s.drop_last(), p)
    } else {
        0
    }
}

/// `s` without its leading characters that satisfy `p`.
pub open spec fn trim_start_by(s: Seq<char>, p: spec_fn(char) -> bool) -> Seq<char> {
    s.skip(lead_len(s, p) as int)
}

/// `s` without its trailing characters that satisfy `p`.
pub open spec fn trim_end_by(s: Seq<char>, p: spec_fn(char) -> bool) -> Seq<char> {
    s.take(s.len() - trail_len(s, p))
}

/// `str::trim_start`.
pub open spec fn trim_start(s: Seq<char>) -> Seq<char> {
    trim_start_by(s, ws())
}

/// `str::trim_end`.
pub open spec fn trim_end(s: Seq<char>) -> Seq<char> {
    trim_end_by(s, ws())
}

/// `str::trim`.
pub open spec fn trim(s: Seq<char>) -> Seq<char> {
    trim_end(trim_start(s))
}

/// The leading run satisfies `p`, and the character after it does not.
pub proof fn lemma_lead_len_bounds(s: Seq<char>, p: spec_fn(char) -> bool)
    ensures
        lead_len(s, p) <= s.len(),
        forall|j: int| 0 <= j < lead_len(s, p) ==> p(#[trigger] s[j]),
        lead_len(s, p) < s.len() ==> !p(s[lead_len(s, p) as int]),
    decreases s.len(),
{
    if s.len() > 0 && p(s[0]) {
        lemma_lead_len_bounds(s.drop_first(), p);
        assert forall|j: int| 0 <= j < lead_len(s, p) implies p(#[trigger] s[j]) by {
            if j > 0 {
                assert(s[j] == s.drop_first()[j - 1]);
            }
        }
    }
}

/// `lead_len` is the position of the first character that fails `p`.
pub proof fn lemma_lead_len_is(s: Seq<char>, p: spec_fn(char) -> bool, i: int)
    requires
        0 <= i <= s.len(),
        forall|j: int| 0 <= j < i ==> p(#[trigger] s[j]),
        i == s.len() || !p(s[i]),
    ensures
        lead_len(s, p) == i,
    decreases i,
{
    if i > 0 {
        assert forall|j: int| 0 <= j < i - 1 implies p(#[trigger] s.drop_first()[j]) by {
            assert(p(s[j + 1]));
        }
        if i < s.len() {
            assert(s.drop_first()[i - 1] == s[i]);
        }
        lemma_lead_len_is(s.drop_first(), p, i - 1);
    }
}

/// The trailing run satisfies `p`, and the character before it does not.
pub proof fn lemma_trail_len_bounds(s: Seq<char>, p: spec_fn(char) -> bool)
    ensures
        trail_len(s, p) <= s.len(),
        forall|j: int| s.len() - trail_len(s, p) <= j < s.len() ==> p(#[trigger] s[j]),
        trail_len(s, p) < s.len() ==> !p(s[s.len() - trail_len(s, p) - 1]),
    decreases s.len(),
{
    if s.len() > 0 && p(s.last()) {
        lemma_trail_len_bounds(s.drop_last(), p);
        assert forall|j: int| s.len() - trail_len(s, p) <= j < s.len() implies p(
            #[trigger] s[j],
        ) by {
            if j < s.len() - 1 {
                assert(s[j] == s.drop_last()[j]);
            }
        }
    }
}

/// `trail_len` counts back to the last character that fails `p`.
pub proof fn lemma_trail_len_is(s: Seq<char>, p: spec_fn(char) -> bool, k: int)
    requires
        0 <= k <= s.len(),
        forall|j: int| k <= j < s.len() ==> p(#[trigger] s[j]),
        k == 0 || !p(s[k - 1]),
    ensures
        trail_len(s, p) == s.len() - k,
    decreases s.len() - k,
{
    if k < s.len() {
        assert(p(s.last()));
        assert forall|j: int| k <= j < s.len() - 1 implies p(#[trigger] s.drop_last()[j]) by {
            assert(p(s[j]));
        }
        if k > 0 {
            assert(s.drop_last()[k - 1] == s[k - 1]);
        }
        lemma_trail_len_is(s.drop_last(), p, k);
    }
}

/// The bounds `(a, b)` of `trim(v[lo..hi])` inside `v`.
pub fn trim_range(v: &Vec<char>, lo: usize, hi: usize) -> (r: (usize, usize))
    requires
        lo <= hi <= v@.len(),
    ensures
        lo <= r.0 <= r.1 <= hi,
        v@.subrange(r.0 as int, r.1 as int) == trim(v@.subrange(lo as int, hi as int)),
        v@.subrange(r.0 as int, hi as int) == trim_start(v@.subrange(lo as int, hi as int)),
{
    let a = trim_start_index(v, lo, hi);
    let b = trim_end_index(v, a, hi);
    proof {
        let s = v@.subrange(lo as int, hi as int);
        assert(trim_start(s) =~= v@.subrange(a as int, hi as int));
        assert(v@.subrange(a as int, b as int) =~= trim_end(v@.subrange(a as int, hi as int)));
    }
    (a, b)
}

/// The start of `trim_start(v[lo..hi])` inside `v`.
pub fn trim_start_index(v: &Vec<char>, lo: usize, hi: usize) -> (a: usize)
    requires
        lo <= hi <= v@.len(),
    ensures
        lo <= a <= hi,
        a - lo == lead_len(v@.subrange(lo as int, hi as int), ws()),
        v@.subrange(a as int, hi as int) == trim_start(v@.subrange(lo as int, hi as int)),
{
    let mut a = lo;
    while a < hi && is_ws_char(v[a])
        invariant
            lo <= a <= hi <= v@.len(),
            forall|j: int| lo <= j < a ==> is_ws(#[trigger] v@[j]),
        decreases hi - a,
    {
        a = a + 1;
    }
    proof {
        let s = v@.subrange(lo as int, hi as int);
        assert forall|j: int| 0 <= j < a - lo implies (ws())(#[trigger] s[j]) by {
            assert(is_ws(v@[lo + j]));
        }
        lemma_lead_len_is(s, ws(), a - lo);
        assert(trim_start(s) =~= v@.subrange(a as int, hi as int));
    }
    a
}

/// The end of `trim_end(v[lo..hi])` inside `v`.
pub fn trim_end_index(v: &Vec<char>, lo: usize, hi: usize) -> (b: usize)
    requires
        lo <= hi <= v@.len(),
    ensures
        lo <= b <= hi,
        hi - b == trail_len(v@.subrange(lo as int, hi as int), ws()),
        v@.subrange(lo as int, b as int) == trim_end(v@.subrange(lo as int, hi as int)),
{
    let mut b = hi;
    while b > lo && is_ws_char(v[b - 1])
        invariant
            lo <= b <= hi <= v@.len(),
            forall|j: int| b <= j < hi ==> is_ws(#[trigger] v@[j]),
        decreases b - lo,
    {
        b = b - 1;
    }
    proof {
        let s = v@.subrange(lo as int, hi as int);
        assert forall|j: int| b - lo <= j < s.len() implies (ws())(#[trigger] s[j]) by {
            assert(is_ws(v@[lo + j]));
        }
        lemma_trail_len_is(s, ws(), b - lo);
        assert(trim_end(s) =~= v@.subrange(lo as int, b as int));
    }
    b
}

// ---------------------------------------------------------------------------
// Searching
// ---------------------------------------------------------------------------

/// Index of the first occurrence of `c` in `s`.
pub open spec fn find_char(s: Seq<char>, c: char) -> Option<int>
    decreases s.len(),
{
    if s.len() == 0 {
        None
    } else if s[0] == c {
        Some(0)
    } else {
        match find_char(s.drop_first(), c) {
            Some(i) => Some(i + 1),
            None => None,
        }
    }
}

/// `find_char` finds the first occurrence of the character, if any.
pub proof fn lemma_find_char(s: Seq<char>, c: char)
    ensures
        match find_char(s, c) {
            Some(i) => 0 <= i < s.len() && s[i] == c && forall|j: int|
                0 <= j < i ==> #[trigger] s[j] != c,
            None => forall|j: int| 0 <= j < s.len() ==> #[trigger] s[j] != c,
        },
    decreases s.len(),
{
    if s.len() > 0 && s[0] != c {
        lemma_find_char(s.drop_first(), c);
        match find_char(s.drop_first(), c) {
            Some(i) => {
                assert forall|j: int| 0 <= j < i + 1 implies #[trigger] s[j] != c by {
                    if j > 0 {
                        assert(s[j] == s.drop_first()[j - 1]);
                    }
                }
            },
            None => {
                assert forall|j: int| 0 <= j < s.len() implies #[trigger] s[j] != c by {
                    if j > 0 {
                        assert(s[j] == s.drop_first()[j - 1]);
                    }
                }
            },
        }
    }
}

/// `find_char` is determined by the first occurrence.
pub proof fn lemma_find_char_is(s: Seq<char>, c: char, i: int)
    requires
        0 <= i <= s.len(),
        forall|j: int| 0 <= j < i ==> #[trigger] s[j] != c,
        i == s.len() || s[i] == c,
    ensures
        find_char(s, c) == (if i == s.len() {
            None::<int>
        } else {
            Some(i)
        }),
    decreases i,
{
    if i > 0 {
        assert(s[0] != c);
        assert forall|j: int| 0 <= j < i - 1 implies #[trigger] s.drop_first()[j] != c by {
            assert(s[j + 1] != c);
        }
        if i < s.len() {
            assert(s.drop_first()[i - 1] == s[i]);
        }
        lemma_find_char_is(s.drop_first(), c, i - 1);
    }
}

/// Position of the first `c` in `v[lo..hi]`, as an index into `v`.
pub fn find_char_in(v: &Vec<char>, lo: usize, hi: usize, c: char) -> (r: Option<usize>)
    requires
        lo <= hi <= v@.len(),
    ensures
        match r {
            Some(k) => lo <= k < hi && find_char(v@.subrange(lo as int, hi as int), c) == Some(
                k - lo,
            ),
            None => find_char(v@.subrange(lo as int, hi as int), c) == None::<int>,
        },
{
    let mut k = lo;
    while k < hi
        invariant
            lo <= k <= hi <= v@.len(),
            forall|j: int| lo <= j < k ==> #[trigger] v@[j] != c,
        decreases hi - k,
    {
        if v[k] == c {
            proof {
                let s = v@.subrange(lo as int, hi as int);
                assert forall|j: int| 0 <= j < k - lo implies #[trigger] s[j] != c by {
                    assert(v@[lo + j] != c);
                }
                lemma_find_char_is(s, c, k - lo);
            }
            return Some(k);
        }
        k = k + 1;
    }
    proof {
        let s = v@.subrange(lo as int, hi as int);
        assert forall|j: int| 0 <= j < hi - lo implies #[trigger] s[j] != c by {
            assert(v@[lo + j] != c);
        }
        lemma_find_char_is(s, c, hi - lo);
    }
    None
}

/// Whether `s` starts with `p`.
pub open spec fn starts_with(s: Seq<char>, p: Seq<char>) -> bool {
    p.len() <= s.len() && s.take(p.len() as int) == p
}

/// Whether `v[lo..hi]` starts with `p`.
pub fn starts_with_at(v: &Vec<char>, lo: usize, hi: usize, p: &Vec<char>) -> (r: bool)
    requires
        lo <= hi <= v@.len(),
    ensures
        r == starts_with(v@.subrange(lo as int, hi as int), p@),
{
    if p.len() > hi - lo {
        return false;
    }
    let r = range_eq(v, lo, lo + p.len(), p);
    assert(v@.subrange(lo as int, hi as int).take(p@.len() as int) =~= v@.subrange(
        lo as int,
        lo + p@.len(),
    ));
    r
}

/// Whether `v[lo..hi]` starts with the text `p`.
pub fn starts_with_str(v: &Vec<char>, lo: usize, hi: usize, p: &str) -> (r: bool)
    requires
        lo <= hi <= v@.len(),
    ensures
        r == starts_with(v@.subrange(lo as int, hi as int), p@),
{
    let w = to_chars(p);
    starts_with_at(v, lo, hi, &w)
}

/// Index of the first occurrence of `pat` in `s` (`str::find`).
pub open spec fn find_sub(s: Seq<char>, pat: Seq<char>) -> Option<int>
    decreases s.len(),
{
    if starts_with(s, pat) {
        Some(0)
    } else if s.len() == 0 {
        None
    } else {
        match find_sub(s.drop_first(), pat) {
            Some(i) => Some(i + 1),
            None => None,
        }
    }
}

/// `find_sub` is determined by the first position where `pat` occurs.
pub proof fn lemma_find_sub_is(s: Seq<char>, pat: Seq<char>, i: int)
    requires
        0 <= i <= s.len(),
        forall|j: int| 0 <= j < i ==> !starts_with(#[trigger] s.skip(j), pat),
        starts_with(s.skip(i), pat) || i == s.len(),
    ensures
        find_sub(s, pat) == (if starts_with(s.skip(i), pat) {
            Some(i)
        } else {
            None::<int>
        }),
    decreases i,
{
    if i == 0 {
        assert(s.skip(0) =~= s);
    } else {
        assert(s.skip(0) =~= s);
        assert(!starts_with(s.skip(0), pat));
        assert forall|j: int| 0 <= j < i - 1 implies !starts_with(
            #[trigger] s.drop_first().skip(j),
            pat,
        ) by {
            assert(s.drop_first().skip(j) =~= s.skip(j + 1));
            assert(!starts_with(s.skip(j + 1), pat));
        }
        assert(s.drop_first().skip(i - 1) =~= s.skip(i));
        lemma_find_sub_is(s.drop_first(), pat, i - 1);
    }
}

/// `find_sub` finds the first occurrence of the pattern, if any.
pub proof fn lemma_find_sub(s: Seq<char>, pat: Seq<char>)
    ensures
        match find_sub(s, pat) {
            Some(i) => 0 <= i <= s.len() && starts_with(s.skip(i), pat) && forall|j: int|
                0 <= j < i ==> !starts_with(#[trigger] s.skip(j), pat),
            None => forall|j: int| 0 <= j <= s.len() ==> !starts_with(#[trigger] s.skip(j), pat),
        },
    decreases s.len(),
{
    assert(s.skip(0) =~= s);
    if !starts_with(s, pat) && s.len() > 0 {
        lemma_find_sub(s.drop_first(), pat);
        match find_sub(s.drop_first(), pat) {
            Some(i) => {
                assert(s.drop_first().skip(i) =~= s.skip(i + 1));
                assert forall|j: int| 0 <= j < i + 1 implies !starts_with(
                    #[trigger] s.skip(j),
                    pat,
                ) by {
                    if j > 0 {
                        assert(s.drop_first().skip(j - 1) =~= s.skip(j));
                    }
                }
            },
            None => {
                assert forall|j: int| 0 <= j <= s.len() implies !starts_with(
                    #[trigger] s.skip(j),
                    pat,
                ) by {
                    if j > 0 {
                        assert(s.drop_first().skip(j - 1) =~= s.skip(j));
                    }
                }
            },
        }
    }
}

/// Position of the first occurrence of `pat` in `v`.
pub fn find_sub_in(v: &Vec<char>, pat: &Vec<char>) -> (r: Option<usize>)
    ensures
        match r {
            Some(k) => find_sub(v@, pat@) == Some(k as int),
            None => find_sub(v@, pat@) == None::<int>,
        },
{
    let n = v.len();
    let mut k: usize = 0;
    while k < n
        invariant
            n == v@.len(),
            0 <= k <= n,
            forall|j: int| 0 <= j < k ==> !starts_with(#[trigger] v@.skip(j), pat@),
        decreases n - k,
    {
        let hit = starts_with_at(v, k, n, pat);
        assert(v@.subrange(k as int, n as int) =~= v@.skip(k as int));
        if hit {
            proof {
                lemma_find_sub_is(v@, pat@, k as int);
            }
            return Some(k);
        }
        k = k + 1;
    }
    let hit = starts_with_at(v, n, n, pat);
    assert(v@.subrange(n as int, n as int) =~= v@.skip(n as int));
    proof {
        lemma_find_sub_is(v@, pat@, n as int);
    }
    if hit {
        Some(n)
    } else {
        None
    }
}

// ---------------------------------------------------------------------------
// Lines
// ---------------------------------------------------------------------------

/// A line without the `\r` of a `\r\n` ending.
pub open spec fn strip_cr(l: Seq<char>) -> Seq<char> {
    if l.len() > 0 && l.last() == '\r' {
        l.drop_last()
    } else {
        l
    }
}

/// `str::lines`: split at `\n`, drop the `\r` of each `\r\n`, and yield no
/// empty line after a final line ending.
pub open spec fn lines(s: Seq<char>) -> Seq<Seq<char>>
    decreases s.len(),
{
    if s.len() == 0 {
        seq![]
    } else {
        match find_char(s, '\n') {
            Some(i) => {
                proof {
                    lemma_find_char(s, '\n');
                }
                seq![strip_cr(s.take(i))] + lines(s.skip(i + 1))
            },
            None => seq![s],
        }
    }
}

/// The lines of `v`, as `(start, end)` bounds into `v`.
pub fn lines_of(v: &Vec<char>) -> (r: Vec<(usize, usize)>)
    ensures
        r@.len() == lines(v@).len(),
        forall|i: int| 0 <= i < r@.len() ==> #[trigger] r@[i].0 <= r@[i].1 <= v@.len(),
        forall|i: int|
            0 <= i < r@.len() ==> v@.subrange(r@[i].0 as int, r@[i].1 as int) == #[trigger] lines(
                v@,
            )[i],
{
    let n = v.len();
    let mut out: Vec<(usize, usize)> = Vec::new();
    let mut pos: usize = 0;
    let ghost done: Seq<Seq<char>> = seq![];
    assert(v@.skip(0) =~= v@);
    while pos < n
        invariant
            n == v@.len(),
            0 <= pos <= n,
            out@.len() == done.len(),
            forall|i: int| 0 <= i < out@.len() ==> #[trigger] out@[i].0 <= out@[i].1 <= v@.len(),
            forall|i: int|
                0 <= i < out@.len() ==> v@.subrange(out@[i].0 as int, out@[i].1 as int)
                    == #[trigger] done[i],
            done + lines(v@.skip(pos as int)) == lines(v@),
        decreases n - pos,
    {
        let ghost rest = v@.skip(pos as int);
        assert(v@.subrange(pos as int, n as int) =~= rest);
        match find_char_in(v, pos, n, '\n') {
            Some(j) => {
                let end = if j > pos && v[j - 1] == '\r' {
                    j - 1
                } else {
                    j
                };
                proof {
                    assert(rest.take(j - pos) =~= v@.subrange(pos as int, j as int));
                    assert(strip_cr(rest.take(j - pos)) =~= v@.subrange(pos as int, end as int));
                    assert(rest.skip(j - pos + 1) =~= v@.skip(j + 1));
                    assert(lines(rest) == seq![strip_cr(rest.take(j - pos))] + lines(
                        rest.skip(j - pos + 1),
                    ));
                }
                out.push((pos, end));
                proof {
                    let old_done = done;
                    done = done.push(v@.subrange(pos as int, end as int));
                    assert(done + lines(v@.skip(j + 1)) =~= (old_done + lines(rest)));
                    assert forall|i: int| 0 <= i < out@.len() implies v@.subrange(
                        out@[i].0 as int,
                        out@[i].1 as int,
                    ) == #[trigger] done[i] by {
                        if i < out@.len() - 1 {
                            assert(done[i] == old_done[i]);
                        }
                    }
                }
                pos = j + 1;
            },
            None => {
                out.push((pos, n));
                proof {
                    assert(lines(rest) == seq![rest]);
                    let old_done = done;
                    done = done.push(v@.subrange(pos as int, n as int));
                    assert(v@.skip(n as int) =~= Seq::<char>::empty());
                    assert(done + lines(v@.skip(n as int)) =~= (old_done + lines(rest)));
                    assert forall|i: int| 0 <= i < out@.len() implies v@.subrange(
                        out@[i].0 as int,
                        out@[i].1 as int,
                    ) == #[trigger] done[i] by {
                        if i < out@.len() - 1 {
                            assert(done[i] == old_done[i]);
                        }
                    }
                }
                pos = n;
            },
        }
    }
    proof {
        assert(v@.skip(n as int) =~= Seq::<char>::empty());
        assert(done =~= lines(v@));
        assert forall|i: int| 0 <= i < out@.len() implies out@[i].0 <= out@[i].1 <= v@.len()
            && v@.subrange(out@[i].0 as int, out@[i].1 as int) == #[trigger] lines(v@)[i] by {
            assert(done[i] == lines(v@)[i]);
            assert(out@[i].0 <= out@[i].1 <= v@.len());
        }
    }
    out
}

// ---------------------------------------------------------------------------
// Replacing
// ---------------------------------------------------------------------------

/// `str::replace`: every non-overlapping occurrence of `pat`, from the left,
/// replaced by `rep`.
pub open spec fn replace_all(s: Seq<char>, pat: Seq<char>, rep: Seq<char>) -> Seq<char>
    recommends
        pat.len() > 0,
    decreases s.len(),
{
    if s.len() == 0 {
        s
    } else if pat.len() > 0 && starts_with(s, pat) {
        rep + replace_all(s.skip(pat.len() as int), pat, rep)
    } else {
        seq![s[0]] + replace_all(s.drop_first(), pat, rep)
    }
}

/// `v` with every occurrence of `pat` replaced by `rep`.
pub fn replace_chars(v: &Vec<char>, pat: &Vec<char>, rep: &Vec<char>) -> (r: Vec<char>)
    requires
        pat@.len() > 0,
    ensures
        r@ == replace_all(v@, pat@, rep@),
{
    let n = v.len();
    let mut out: Vec<char> = Vec::new();
    let mut i: usize = 0;
    assert(v@.skip(0) =~= v@);
    while i < n
        invariant
            n == v@.len(),
            pat@.len() > 0,
            0 <= i <= n,
            out@ + replace_all(v@.skip(i as int), pat@, rep@) == replace_all(v@, pat@, rep@),
        decreases n - i,
    {
        let ghost rest = v@.skip(i as int);
        let hit = starts_with_at(v, i, n, pat);
        assert(v@.subrange(i as int, n as int) =~= rest);
        if hit {
            let ghost before = out@;
            push_range(&mut out, rep, 0, rep.len());
            assert(rep@.subrange(0, rep@.len() as int) =~= rep@);
            assert(rest.skip(pat@.len() as int) =~= v@.skip(i + pat@.len()));
            assert(out@ + replace_all(v@.skip(i + pat@.len()), pat@, rep@) =~= before
                + replace_all(rest, pat@, rep@));
            i = i + pat.len();
        } else {
            let ghost before = out@;
            out.push(v[i]);
            assert(rest.drop_first() =~= v@.skip(i + 1));
            assert(out@ + replace_all(v@.skip(i + 1), pat@, rep@) =~= before + replace_all(
                rest,
                pat@,
                rep@,
            ));
            i = i + 1;
        }
    }
    assert(v@.skip(n as int) =~= Seq::<char>::empty());
    assert(out@ + replace_all(v@.skip(n as int), pat@, rep@) =~= out@);
    out
}

/// `v` with every occurrence of the text `pat` replaced by the text `rep`.
pub fn replace_str(v: &Vec<char>, pat: &str, rep: &str) -> (r: Vec<char>)
    requires
        pat@.len() > 0,
    ensures
        r@ == replace_all(v@, pat@, rep@),
{
    let p = to_chars(pat);
    let q = to_chars(rep);
    replace_chars(v, &p, &q)
}

// ---------------------------------------------------------------------------
// Case
// ---------------------------------------------------------------------------

/// The text `str::to_lowercase` gives for `s`.
pub uninterp spec fn lowercase_of(s: Seq<char>) -> Seq<char>;

/// `str::to_lowercase` (full Unicode lowercasing). The claim is only that
/// the result is a function of the text (`lowercase_of`).
#[verifier::external_body]
pub(crate) fn to_lowercase(s: &str) -> (r: String)
    ensures
        r@ == lowercase_of(s@),
{
    s.to_lowercase()
}

/// Whether `c` is alphabetic or numeric in Unicode, as
/// `char::is_alphanumeric` decides.
pub uninterp spec fn alphanumeric(c: char) -> bool;

/// `char::is_alphanumeric`. The claim is only that the answer is a function
/// of the character (`alphanumeric`).
#[verifier::external_body]
pub(crate) fn is_alphanumeric(c: char) -> (r: bool)
    ensures
        r == alphanumeric(c),
{
    c.is_alphanumeric()
}

// ---------------------------------------------------------------------------
// ASCII case
// ---------------------------------------------------------------------------

/// `char::to_ascii_lowercase`.
pub open spec fn ascii_lower(c: char) -> char {
    if 'A' <= c && c <= 'Z' {
        ((c as u32) + 32) as char
    } else {
        c
    }
}

/// `str::eq_ignore_ascii_case`.
pub open spec fn eq_ignore_ascii_case(a: Seq<char>, b: Seq<char>) -> bool {
    a.len() == b.len() && forall|i: int| 0 <= i < a.len() ==> ascii_lower(#[trigger] a[i])
        == ascii_lower(b[i])
}

/// The ASCII lowercase of `c`.
pub fn ascii_lower_char(c: char) -> (r: char)
    ensures
        r == ascii_lower(c),
{
    if 'A' <= c && c <= 'Z' {
        let u = ((c as u32) + 32) as u8;
        u as char
    } else {
        c
    }
}

/// Whether `v[lo..hi]` equals `w` ignoring ASCII case.
pub fn range_eq_ignore_ascii_case(v: &Vec<char>, lo: usize, hi: usize, w: &Vec<char>) -> (r: bool)
    requires
        lo <= hi <= v@.len(),
    ensures
        r == eq_ignore_ascii_case(v@.subrange(lo as int, hi as int), w@),
{
    if hi - lo != w.len() {
        return false;
    }
    let mut i: usize = 0;
    while i < w.len()
        invariant
            lo <= hi <= v@.len(),
            hi - lo == w@.len(),
            0 <= i <= w@.len(),
            forall|j: int| 0 <= j < i ==> ascii_lower(#[trigger] v@[lo + j]) == ascii_lower(w@[j]),
        decreases w@.len() - i,
    {
        if ascii_lower_char(v[lo + i]) != ascii_lower_char(w[i]) {
            assert(v@.subrange(lo as int, hi as int)[i as int] == v@[lo + i]);
            return false;
        }
        i = i + 1;
    }
    assert forall|j: int| 0 <= j < w@.len() implies ascii_lower(
        #[trigger] v@.subrange(lo as int, hi as int)[j],
    ) == ascii_lower(w@[j]) by {
        assert(v@.subrange(lo as int, hi as int)[j] == v@[lo + j]);
    }
    true
}


// ---------------------------------------------------------------------------
// UTF-8 length
// ---------------------------------------------------------------------------

/// The UTF-8 length of `s` grows by the width of each character appended.
pub proof fn lemma_utf8_len_push(s: Seq<char>, c: char)
    ensures
        vstd::utf8::encode_utf8(s.push(c)).len() == vstd::utf8::encode_utf8(s).len()
            + vstd::utf8::encode_scalar(c as u32).len(),
    decreases s.len(),
{
    let t = s.push(c);
    assert(vstd::utf8::encode_utf8(t) == vstd::utf8::encode_scalar(t[0] as u32) + vstd::utf8::encode_utf8(t.drop_first()));
    if s.len() == 0 {
        assert(t.drop_first() =~= Seq::<char>::empty());
        assert(t[0] == c);
        assert(vstd::utf8::encode_utf8(t.drop_first()).len() == 0);
        assert(vstd::utf8::encode_utf8(s).len() == 0);
    } else {
        assert(t.drop_first() =~= s.drop_first().push(c));
        assert(t[0] == s[0]);
        lemma_utf8_len_push(s.drop_first(), c);
        assert(vstd::utf8::encode_utf8(s) == vstd::utf8::encode_scalar(s[0] as u32) + vstd::utf8::encode_utf8(s.drop_first()));
    }
}

/// The number of bytes in the UTF-8 encoding of `c`.
fn utf8_width(c: char) -> (w: usize)
    ensures
        w == vstd::utf8::encode_scalar(c as u32).len(),
        1 <= w <= 4,
{
    let u = c as u32;
    if u <= 0x7f {
        1
    } else if u <= 0x7ff {
        2
    } else if u <= 0xffff {
        proof {
            vstd::utf8::char_is_scalar(c);
        }
        3
    } else {
        4
    }
}

/// Whether `v[lo..hi]` takes at least `n` bytes in UTF-8.
pub fn utf8_len_at_least(v: &Vec<char>, lo: usize, hi: usize, n: usize) -> (r: bool)
    requires
        lo <= hi <= v@.len(),
    ensures
        r == (vstd::utf8::encode_utf8(v@.subrange(lo as int, hi as int)).len() >= n),
{
    if n == 0 {
        return true;
    }
    let mut total: usize = 0;
    let mut i = lo;
    assert(v@.subrange(lo as int, lo as int) =~= Seq::<char>::empty());
    while i < hi
        invariant
            lo <= i <= hi <= v@.len(),
            total == vstd::utf8::encode_utf8(v@.subrange(lo as int, i as int)).len(),
            total < n,
        decreases hi - i,
    {
        let w = utf8_width(v[i]);
        proof {
            assert(v@.subrange(lo as int, i + 1) =~= v@.subrange(lo as int, i as int).push(v@[i as int]));
            lemma_utf8_len_push(v@.subrange(lo as int, i as int), v@[i as int]);
        }
        if w >= n - total {
            proof {
                lemma_utf8_len_grows(v@.subrange(lo as int, hi as int), (i + 1 - lo) as int);
                assert(v@.subrange(lo as int, hi as int).take((i + 1 - lo) as int) =~= v@.subrange(lo as int, i + 1));
            }
            return true;
        }
        total = total + w;
        i = i + 1;
    }
    false
}

/// A prefix is never longer in UTF-8 than the whole.
pub proof fn lemma_utf8_len_grows(s: Seq<char>, k: int)
    requires
        0 <= k <= s.len(),
    ensures
        vstd::utf8::encode_utf8(s.take(k)).len() <= vstd::utf8::encode_utf8(s).len(),
    decreases s.len() - k,
{
    if k < s.len() {
        lemma_utf8_len_grows(s, k + 1);
        assert(s.take(k + 1) =~= s.take(k).push(s[k]));
        lemma_utf8_len_push(s.take(k), s[k]);
    } else {
        assert(s.take(k) =~= s);
    }
}


// ---------------------------------------------------------------------------
// Order
// ---------------------------------------------------------------------------

/// `a` comes no later than `b` in `String`'s order: byte order, which on
/// UTF-8 text is the order of the characters' code points.
pub open spec fn text_le(a: Seq<char>, b: Seq<char>) -> bool
    decreases a.len(),
{
    if a.len() == 0 {
        true
    } else if b.len() == 0 {
        false
    } else if a[0] != b[0] {
        (a[0] as int) < (b[0] as int)
    } else {
        text_le(a.drop_first(), b.drop_first())
    }
}

/// Any two texts are ordered one way or the other.
pub proof fn lemma_text_le_total(a: Seq<char>, b: Seq<char>)
    ensures
        text_le(a, b) || text_le(b, a),
    decreases a.len(),
{
    if a.len() > 0 && b.len() > 0 && a[0] == b[0] {
        lemma_text_le_total(a.drop_first(), b.drop_first());
    }
}

/// The order of texts is transitive.
pub proof fn lemma_text_le_trans(a: Seq<char>, b: Seq<char>, c: Seq<char>)
    requires
        text_le(a, b),
        text_le(b, c),
    ensures
        text_le(a, c),
    decreases a.len(),
{
    if a.len() > 0 && b.len() > 0 && c.len() > 0 && a[0] == b[0] && b[0] == c[0] {
        lemma_text_le_trans(a.drop_first(), b.drop_first(), c.drop_first());
    }
}

/// Whether `a` comes no later than `b` in `String`'s order.
pub fn text_le_chars(a: &Vec<char>, b: &Vec<char>) -> (r: bool)
    ensures
        r == text_le(a@, b@),
{
    let mut i: usize = 0;
    assert(a@.skip(0) =~= a@ && b@.skip(0) =~= b@);
    while i < a.len() && i < b.len() && a[i] == b[i]
        invariant
            0 <= i <= a@.len(),
            i <= b@.len(),
            text_le(a@, b@) == text_le(a@.skip(i as int), b@.skip(i as int)),
        decreases a@.len() - i,
    {
        proof {
            assert(a@.skip(i as int).drop_first() =~= a@.skip(i + 1));
            assert(b@.skip(i as int).drop_first() =~= b@.skip(i + 1));
        }
        i = i + 1;
    }
    if i == a.len() {
        assert(a@.skip(i as int).len() == 0);
        true
    } else if i == b.len() {
        assert(b@.skip(i as int).len() == 0);
        false
    } else {
        assert(a@.skip(i as int)[0] == a@[i as int] && b@.skip(i as int)[0] == b@[i as int]);
        a[i] < b[i]
    }
}

} // verus!
