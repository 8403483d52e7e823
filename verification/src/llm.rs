//! Reading the local language model's streamed completion: the server sends
//! server-sent events, one `data:` line per JSON chunk; the text of each
//! chunk's delta is a token of the note. Reading a payload as JSON is the
//! app's; the stream takes the document it read.
use vstd::prelude::*;
use crate::json::{str_at, str_field, Json};
use crate::text::{
    find_char, find_char_in, push_range, push_str, range_eq_str, starts_with, starts_with_str,
    string_of, string_of_all, string_views, trim, trim_range,
};

verus! {

/// The text `String::from_utf8_lossy` makes of `bytes`.
pub uninterp spec fn utf8_lossy(bytes: Seq<u8>) -> Seq<char>;

/// `String::from_utf8_lossy`: the bytes as text, each invalid sequence
/// replaced by U+FFFD. The claim is that the text is a function of the
/// bytes (`utf8_lossy`) and, for valid UTF-8, is what the bytes encode.
#[verifier::external_body]
fn text_of_bytes(bytes: &[u8]) -> (r: String)
    ensures
        r@ == utf8_lossy(bytes@),
        vstd::utf8::valid_utf8(bytes@) ==> r@ == vstd::utf8::decode_utf8(bytes@),
{
    String::from_utf8_lossy(bytes).into_owned()
}

/// The text of `v["choices"][0]["delta"]["content"]`, if it is a string.
pub open spec fn delta_content(v: Json) -> Option<Seq<char>> {
    match v.get_spec("choices"@) {
        Some(Json::Array(cs)) => if cs@.len() > 0 {
            match cs@[0].get_spec("delta"@) {
                Some(d) => str_at(d, "content"@),
                None => None,
            }
        } else {
            None
        },
        _ => None,
    }
}

/// The payload one line of the stream carries: after `data:`, trimmed,
/// unless it is `[DONE]`.
pub open spec fn line_payload(line: Seq<char>) -> Option<Seq<char>> {
    if starts_with(line, "data:"@) {
        let d = trim(line.skip(5));
        if d == "[DONE]"@ {
            None
        } else {
            Some(d)
        }
    } else {
        None
    }
}

/// The payloads of the complete lines of `buf`, in order, and what is left
/// after the last line break.
pub open spec fn drain(buf: Seq<char>) -> (Seq<Seq<char>>, Seq<char>)
    decreases buf.len(),
{
    match find_char(buf, '\n') {
        None => (seq![], buf),
        Some(p) => {
            proof {
                crate::text::lemma_find_char(buf, '\n');
            }
            let rest = drain(buf.skip(p + 1));
            match line_payload(trim(buf.take(p))) {
                Some(t) => (seq![t] + rest.0, rest.1),
                None => rest,
            }
        },
    }
}

/// The token a payload's JSON carries: its delta text, when not empty.
pub open spec fn payload_token(v: Option<Json>) -> Option<Seq<char>> {
    match v {
        Some(j) => match delta_content(j) {
            Some(t) => if t.len() > 0 {
                Some(t)
            } else {
                None
            },
            None => None,
        },
        None => None,
    }
}

/// A streamed completion being read: the text after the last line break,
/// and the text of the tokens accepted so far.
pub struct CompletionStream {
    pub buffer: Vec<char>,
    pub output: Vec<char>,
}

fn line_payload_of(v: &Vec<char>, lo: usize, hi: usize) -> (r: Option<String>)
    requires
        lo <= hi <= v@.len(),
    ensures
        crate::calendar::opt_text(r) == line_payload(trim(v@.subrange(lo as int, hi as int))),
{
    let (a, b) = trim_range(v, lo, hi);
    proof {
        reveal_strlit("data:");
        reveal_strlit("[DONE]");
    }
    if !starts_with_str(v, a, b, "data:") {
        return None;
    }
    let (c, d) = trim_range(v, a + 5, b);
    assert(v@.subrange(a + 5, b as int) =~= v@.subrange(a as int, b as int).skip(5));
    if range_eq_str(v, c, d, "[DONE]") {
        return None;
    }
    Some(string_of(v, c, d))
}

fn token_of(json: &Json) -> (r: Option<String>)
    ensures
        crate::calendar::opt_text(r) == payload_token(Some(*json)),
{
    let choices = match json.get("choices") {
        Some(x) => match x.as_array() {
            Some(cs) => cs,
            None => return None,
        },
        None => return None,
    };
    if choices.len() == 0 {
        return None;
    }
    let delta = match choices[0].get("delta") {
        Some(x) => x,
        None => return None,
    };
    match str_field(delta, "content") {
        Some(t) => if !t.as_str().is_empty() {
            Some(t.clone())
        } else {
            None
        },
        None => None,
    }
}

impl CompletionStream {
    /// A stream that has read nothing yet.
    pub fn new() -> (s: CompletionStream)
        ensures
            s.buffer@.len() == 0,
            s.output@.len() == 0,
    {
        CompletionStream { buffer: Vec::new(), output: Vec::new() }
    }

    /// Reads a chunk of the response body; returns the payloads of the
    /// lines it completes.
    pub fn feed(&mut self, chunk: &[u8]) -> (payloads: Vec<String>)
        ensures
            string_views(payloads@) == drain(old(self).buffer@ + utf8_lossy(chunk@)).0,
            final(self).buffer@ == drain(old(self).buffer@ + utf8_lossy(chunk@)).1,
            final(self).output@ == old(self).output@,
    {
        let text = text_of_bytes(chunk);
        push_str(&mut self.buffer, text.as_str());
        let ghost all = self.buffer@;
        let mut tokens: Vec<String> = Vec::new();
        let mut start: usize = 0;
        let ghost out0 = self.output@;
        assert(all.skip(0) =~= all);
        assert(string_views(tokens@) =~= Seq::<Seq<char>>::empty());
        loop
            invariant
                all == self.buffer@,
                all == old(self).buffer@ + utf8_lossy(chunk@),
                out0 == old(self).output@,
                0 <= start <= all.len(),
                drain(all).0 == string_views(tokens@) + drain(all.skip(start as int)).0,
                drain(all).1 == drain(all.skip(start as int)).1,
                self.output@ == out0,
            decreases all.len() - start,
        {
            let n = self.buffer.len();
            let ghost rest = all.skip(start as int);
            assert(self.buffer@.subrange(start as int, n as int) =~= rest);
            match find_char_in(&self.buffer, start, n, '\n') {
                None => {
                    let mut left: Vec<char> = Vec::new();
                    push_range(&mut left, &self.buffer, start, n);
                    assert(drain(rest) == (Seq::<Seq<char>>::empty(), rest));
                    assert(string_views(tokens@) + drain(rest).0 =~= string_views(tokens@));
                    self.buffer = left;
                    return tokens;
                },
                Some(p) => {
                    let tok = line_payload_of(&self.buffer, start, p);
                    proof {
                        crate::text::lemma_find_char(rest, '\n');
                        assert(rest.take(p - start) =~= self.buffer@.subrange(start as int, p as int));
                        assert(rest.skip(p - start + 1) =~= all.skip(p + 1));
                    }
                    match tok {
                        Some(t) => {
                            let ghost before = string_views(tokens@);
                            tokens.push(t);
                            proof {
                                assert(string_views(tokens@) =~= before.push(t@));
                                assert(before + drain(rest).0 =~= string_views(tokens@) + drain(
                                    all.skip(p + 1),
                                ).0);
                            }
                        },
                        None => {},
                    }
                    start = p + 1;
                },
            }
        }
    }

    /// Takes a payload read as JSON (`None` where it is not JSON): its
    /// token, if any, is added to the output and returned.
    pub fn accept(&mut self, payload: Option<&Json>) -> (token: Option<String>)
        ensures
            crate::calendar::opt_text(token) == payload_token(
                match payload {
                    Some(j) => Some(*j),
                    None => None,
                },
            ),
            final(self).buffer == old(self).buffer,
            final(self).output@ == old(self).output@ + match token {
                Some(t) => t@,
                None => Seq::<char>::empty(),
            },
    {
        let t = match payload {
            Some(j) => token_of(j),
            None => None,
        };
        match &t {
            Some(x) => push_str(&mut self.output, x.as_str()),
            None => {},
        }
        assert(match &t {
            Some(x) => self.output@ == old(self).output@ + x@,
            None => self.output@ == old(self).output@,
        });
        t
    }

    /// The generated text: the tokens' text, trimmed.
    pub fn finish(&self) -> (r: String)
        ensures
            r@ == trim(self.output@),
    {
        let (a, b) = trim_range(&self.output, 0, self.output.len());
        assert(self.output@.subrange(0, self.output@.len() as int) =~= self.output@);
        string_of(&self.output, a, b)
    }
}

/// Reading a text in two chunks yields the payloads of reading it at
/// once: the second chunk continues what the first left unfinished.
pub proof fn law_drain_split(a: Seq<char>, b: Seq<char>)
    ensures
        drain(a + b).0 == drain(a).0 + drain(drain(a).1 + b).0,
        drain(a + b).1 == drain(drain(a).1 + b).1,
    decreases a.len(),
{
    crate::text::lemma_find_char(a, '\n');
    match find_char(a, '\n') {
        None => {
            assert(drain(a).0 + drain(a + b).0 =~= drain(a + b).0);
        },
        Some(p) => {
            let ab = a + b;
            assert forall|j: int| 0 <= j < p implies #[trigger] ab[j] != '\n' by {
                assert(ab[j] == a[j]);
            }
            assert(ab[p] == a[p]);
            crate::text::lemma_find_char_is(ab, '\n', p);
            assert(ab.take(p) =~= a.take(p));
            assert(ab.skip(p + 1) =~= a.skip(p + 1) + b);
            law_drain_split(a.skip(p + 1), b);
            let r = drain(a.skip(p + 1));
            match line_payload(trim(a.take(p))) {
                Some(t) => {
                    assert(drain(a + b).0 =~= seq![t] + drain(a.skip(p + 1) + b).0);
                    assert(drain(a).0 =~= seq![t] + r.0);
                    assert(drain(a + b).0 =~= drain(a).0 + drain(drain(a).1 + b).0);
                },
                None => {},
            }
        },
    }
}

} // verus!
