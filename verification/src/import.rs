//! Importing audio files: the title a file name suggests. Decoding and
//! resampling stay with the app.
use vstd::prelude::*;
use crate::paths::{file_stem, file_stem_of};
use crate::storage::{join, non_empty};
use crate::text::{char_views, is_ws, is_ws_char, push_range, string_of_all, to_chars};

verus! {

/// A separator in a file name that reads as a space.
pub open spec fn spaced(c: char) -> char {
    if c == '_' || c == '-' || c == '.' {
        ' '
    } else {
        c
    }
}

/// The pieces of `s` between whitespace characters, empty ones included.
pub open spec fn ws_pieces(s: Seq<char>) -> Seq<Seq<char>>
    decreases s.len(),
{
    if s.len() == 0 {
        seq![seq![]]
    } else {
        let p = ws_pieces(s.drop_last());
        if is_ws(s.last()) {
            p.push(seq![])
        } else {
            p.update(p.len() - 1, p.last().push(s.last()))
        }
    }
}

proof fn lemma_ws_pieces_nonempty(s: Seq<char>)
    ensures
        ws_pieces(s).len() > 0,
    decreases s.len(),
{
    if s.len() > 0 {
        lemma_ws_pieces_nonempty(s.drop_last());
    }
}

/// The words of `s` (`str::split_whitespace`).
pub open spec fn words(s: Seq<char>) -> Seq<Seq<char>> {
    non_empty(ws_pieces(s))
}

/// The title a file stem reads as: separators become spaces, the words
/// are joined by single spaces; "Recording" when there are none.
pub open spec fn stem_title(stem: Seq<char>) -> Seq<char> {
    let ws = words(stem.map_values(|c: char| spaced(c)));
    if ws.len() == 0 {
        "Recording"@
    } else {
        join(ws, " "@)
    }
}

/// The title of an imported file: that of its stem (no stem reads as an
/// empty one).
pub open spec fn path_title(path: Seq<char>) -> Seq<char> {
    stem_title(
        match file_stem_of(path) {
            Some(s) => s,
            None => seq![],
        },
    )
}

/// Turns a file stem into a human title.
pub fn title_from_stem(stem: &str) -> (r: String)
    ensures
        r@ == stem_title(stem@),
{
    let v = to_chars(stem);
    let ghost m = v@.map_values(|c: char| spaced(c));
    let mut out: Vec<char> = Vec::new();
    let mut cur: Vec<char> = Vec::new();
    let mut i: usize = 0;
    assert(m.take(0) =~= Seq::<char>::empty());
    assert(ws_pieces(m.take(0)).drop_last() =~= Seq::<Seq<char>>::empty());
    while i < v.len()
        invariant
            0 <= i <= v@.len(),
            m == v@.map_values(|c: char| spaced(c)),
            ws_pieces(m.take(i as int)).len() > 0,
            cur@ == ws_pieces(m.take(i as int)).last(),
            out@ == join(non_empty(ws_pieces(m.take(i as int)).drop_last()), " "@),
        decreases v@.len() - i,
    {
        let c0 = v[i];
        let c = if c0 == '_' || c0 == '-' || c0 == '.' {
            ' '
        } else {
            c0
        };
        proof {
            let t = m.take(i + 1);
            assert(t.drop_last() =~= m.take(i as int));
            assert(t.last() == c);
            lemma_ws_pieces_nonempty(m.take(i as int));
            reveal_strlit(" ");
        }
        let ghost pp = ws_pieces(m.take(i as int));
        if is_ws_char(c) {
            if cur.len() > 0 {
                let ghost before = out@;
                let ghost ne = non_empty(pp.drop_last());
                if out.len() > 0 {
                    out.push(' ');
                }
                push_range(&mut out, &cur, 0, cur.len());
                proof {
                    assert(cur@.subrange(0, cur@.len() as int) =~= cur@);
                    assert(pp =~= pp.drop_last().push(pp.last()));
                    assert(non_empty(pp) == ne.push(cur@));
                    lemma_non_empty_elements(pp.drop_last());
                    lemma_join_nonempty(ne);
                    if ne.len() > 0 {
                        assert(non_empty(pp).drop_last() =~= ne);
                        assert(out@ =~= join(ne, " "@) + " "@ + cur@);
                    } else {
                        assert(out@ =~= cur@);
                    }
                }
            } else {
                proof {
                    assert(pp =~= pp.drop_last().push(pp.last()));
                }
            }
            cur = Vec::new();
            proof {
                let np = ws_pieces(m.take(i + 1));
                assert(np == pp.push(seq![]));
                assert(np.drop_last() =~= pp);
                assert(cur@ =~= np.last());
            }
        } else {
            cur.push(c);
            proof {
                let np = ws_pieces(m.take(i + 1));
                assert(np == pp.update(pp.len() - 1, pp.last().push(c)));
                assert(np.drop_last() =~= pp.drop_last());
            }
        }
        i = i + 1;
    }
    proof {
        assert(m.take(v@.len() as int) =~= m);
        assert(v@ == stem@);
        reveal_strlit(" ");
    }
    let ghost pp = ws_pieces(m);
    let ghost ne = non_empty(pp.drop_last());
    if cur.len() > 0 {
        if out.len() > 0 {
            out.push(' ');
        }
        push_range(&mut out, &cur, 0, cur.len());
        proof {
            assert(cur@.subrange(0, cur@.len() as int) =~= cur@);
            assert(pp =~= pp.drop_last().push(pp.last()));
            assert(non_empty(pp) == ne.push(cur@));
            lemma_non_empty_elements(pp.drop_last());
            lemma_join_nonempty(ne);
            if ne.len() > 0 {
                assert(non_empty(pp).drop_last() =~= ne);
                assert(out@ =~= join(ne, " "@) + " "@ + cur@);
            } else {
                assert(out@ =~= cur@);
            }
        }
    } else {
        proof {
            assert(pp =~= pp.drop_last().push(pp.last()));
        }
    }
    proof {
        lemma_non_empty_elements(pp);
        lemma_join_nonempty(non_empty(pp));
    }
    if out.len() == 0 {
        String::from_str("Recording")
    } else {
        string_of_all(&out)
    }
}

/// Joining non-empty words gives an empty text exactly when there are no
/// words.
proof fn lemma_join_nonempty(ws: Seq<Seq<char>>)
    requires
        forall|i: int| 0 <= i < ws.len() ==> (#[trigger] ws[i]).len() > 0,
    ensures
        (join(ws, " "@).len() == 0) == (ws.len() == 0),
    decreases ws.len(),
{
    reveal_strlit(" ");
    if ws.len() > 1 {
        lemma_join_nonempty(ws.drop_last());
    }
}

/// Every element of `non_empty(ls)` is non-empty.
proof fn lemma_non_empty_elements(ls: Seq<Seq<char>>)
    ensures
        forall|i: int| 0 <= i < non_empty(ls).len() ==> (#[trigger] non_empty(ls)[i]).len() > 0,
    decreases ls.len(),
{
    if ls.len() > 0 {
        lemma_non_empty_elements(ls.drop_last());
        let prev = non_empty(ls.drop_last());
        let now = non_empty(ls);
        assert forall|i: int| 0 <= i < now.len() implies (#[trigger] now[i]).len() > 0 by {
            if i < prev.len() {
                assert(now[i] == prev[i]);
            }
        }
    }
}

/// Turns a file name into a human title: `math-lecture_01.m4a` becomes
/// "math lecture 01".
pub fn title_from_path(path: &str) -> (r: String)
    ensures
        r@ == path_title(path@),
{
    match file_stem(path) {
        Some(s) => title_from_stem(s.as_str()),
        None => {
            proof {
                reveal_strlit("");
            }
            title_from_stem("")
        },
    }
}


/// The title of an imported file is never empty.
pub proof fn law_stem_title_nonempty(stem: Seq<char>)
    ensures
        stem_title(stem).len() > 0,
{
    reveal_strlit("Recording");
    let m = stem.map_values(|c: char| spaced(c));
    lemma_non_empty_elements(ws_pieces(m));
    lemma_join_nonempty(words(m));
}

} // verus!
