//! Character-sequence utilities shared by the protocol parsers: splitting on a
//! delimiter character and whitespace tokenization, each with an executable
//! form proved equal to its specification.
use vstd::prelude::*;

verus! {

/// ASCII whitespace, the token separator of the status line.
pub open spec fn is_space(c: char) -> bool {
    c == ' ' || c == '\t' || c == '\n' || c == '\r' || c == '\u{c}'
}

/// Splitting a character sequence on a delimiter, as `str::split` does:
/// the empty sequence yields one empty part, and every occurrence of the
/// delimiter separates two (possibly empty) parts.
pub open spec fn split_char(s: Seq<char>, c: char) -> Seq<Seq<char>>
    decreases s.len(),
{
    if s.len() == 0 {
        seq![Seq::<char>::empty()]
    } else if s[0] == c {
        seq![Seq::<char>::empty()] + split_char(s.subrange(1, s.len() as int), c)
    } else {
        let r = split_char(s.subrange(1, s.len() as int), c);
        seq![seq![s[0]] + r[0]] + r.subrange(1, r.len() as int)
    }
}

pub proof fn lemma_split_char_len(s: Seq<char>, c: char)
    ensures
        split_char(s, c).len() >= 1,
    decreases s.len(),
{
    if s.len() == 0 {
    } else {
        lemma_split_char_len(s.subrange(1, s.len() as int), c);
    }
}

/// Appending one character to the input extends the last part, or starts a
/// new empty part when the character is the delimiter.
pub proof fn lemma_split_char_push(s: Seq<char>, c: char, ch: char)
    ensures
        ch == c ==> split_char(s.push(ch), c) == split_char(s, c).push(Seq::<char>::empty()),
        ch != c ==> split_char(s.push(ch), c) == split_char(s, c).subrange(
            0,
            split_char(s, c).len() - 1,
        ).push(split_char(s, c).last().push(ch)),
    decreases s.len(),
{
    lemma_split_char_len(s, c);
    if s.len() == 0 {
        assert(s.push(ch).len() == 1);
        assert(s.push(ch)[0] == ch);
        assert(s.push(ch).subrange(1, 1) =~= Seq::<char>::empty());
        if ch == c {
            assert(split_char(s.push(ch), c) == seq![Seq::<char>::empty()] + split_char(
                s.push(ch).subrange(1, 1),
                c,
            ));
            assert(split_char(s.push(ch), c) =~~= split_char(s, c).push(Seq::<char>::empty()));
        } else {
            assert(seq![s.push(ch)[0]] + split_char(Seq::<char>::empty(), c)[0] =~= seq![ch]);
            assert(split_char(s.push(ch), c) =~~= split_char(s, c).subrange(
                0,
                split_char(s, c).len() - 1,
            ).push(split_char(s, c).last().push(ch)));
        }
    } else {
        let t = s.subrange(1, s.len() as int);
        lemma_split_char_len(t, c);
        lemma_split_char_push(t, c, ch);
        assert(s.push(ch)[0] == s[0]);
        assert(s.push(ch).subrange(1, s.push(ch).len() as int) =~= t.push(ch));
        let rt = split_char(t, c);
        let rt2 = split_char(t.push(ch), c);
        if s[0] == c {
            if ch == c {
                assert(split_char(s.push(ch), c) =~~= split_char(s, c).push(Seq::<char>::empty()));
            } else {
                assert(split_char(s, c) == seq![Seq::<char>::empty()] + rt);
                assert(split_char(s, c).last() == rt.last());
                assert(split_char(s.push(ch), c) =~~= split_char(s, c).subrange(
                    0,
                    split_char(s, c).len() - 1,
                ).push(split_char(s, c).last().push(ch)));
            }
        } else {
            if ch == c {
                assert(rt2 == rt.push(Seq::<char>::empty()));
                assert(rt2[0] == rt[0]);
                assert(rt2.subrange(1, rt2.len() as int) =~~= rt.subrange(1, rt.len() as int).push(
                    Seq::<char>::empty(),
                ));
                assert(split_char(s.push(ch), c) =~~= split_char(s, c).push(Seq::<char>::empty()));
            } else {
                assert(rt2 == rt.subrange(0, rt.len() - 1).push(rt.last().push(ch)));
                if rt.len() == 1 {
                    assert(rt2 == seq![rt[0].push(ch)]);
                    assert(split_char(s, c) =~~= seq![seq![s[0]] + rt[0]]);
                    assert(seq![s[0]] + rt[0].push(ch) =~= (seq![s[0]] + rt[0]).push(ch));
                    assert(split_char(s.push(ch), c) =~~= split_char(s, c).subrange(
                        0,
                        split_char(s, c).len() - 1,
                    ).push(split_char(s, c).last().push(ch)));
                } else {
                    assert(rt2[0] == rt[0]);
                    assert(rt2.subrange(1, rt2.len() as int) =~~= rt.subrange(1, rt.len() - 1).push(
                        rt.last().push(ch),
                    ));
                    assert(split_char(s, c).last() == rt.last());
                    assert(split_char(s.push(ch), c) =~~= split_char(s, c).subrange(
                        0,
                        split_char(s, c).len() - 1,
                    ).push(split_char(s, c).last().push(ch)));
                }
            }
        }
    }
}

/// Splitting on the whitespace class, with the same shape as `split_char`.
pub open spec fn split_ws(s: Seq<char>) -> Seq<Seq<char>>
    decreases s.len(),
{
    if s.len() == 0 {
        seq![Seq::<char>::empty()]
    } else if is_space(s[0]) {
        seq![Seq::<char>::empty()] + split_ws(s.subrange(1, s.len() as int))
    } else {
        let r = split_ws(s.subrange(1, s.len() as int));
        seq![seq![s[0]] + r[0]] + r.subrange(1, r.len() as int)
    }
}

pub proof fn lemma_split_ws_len(s: Seq<char>)
    ensures
        split_ws(s).len() >= 1,
    decreases s.len(),
{
    if s.len() == 0 {
    } else {
        lemma_split_ws_len(s.subrange(1, s.len() as int));
    }
}

/// Appending one character extends the last whitespace-separated part, or
/// starts a new empty part when the character is whitespace.
pub proof fn lemma_split_ws_push(s: Seq<char>, ch: char)
    ensures
        is_space(ch) ==> split_ws(s.push(ch)) == split_ws(s).push(Seq::<char>::empty()),
        !is_space(ch) ==> split_ws(s.push(ch)) == split_ws(s).subrange(
            0,
            split_ws(s).len() - 1,
        ).push(split_ws(s).last().push(ch)),
    decreases s.len(),
{
    lemma_split_ws_len(s);
    if s.len() == 0 {
        assert(s.push(ch).len() == 1);
        assert(s.push(ch)[0] == ch);
        assert(s.push(ch).subrange(1, 1) =~= Seq::<char>::empty());
        if is_space(ch) {
            assert(split_ws(s.push(ch)) == seq![Seq::<char>::empty()] + split_ws(
                s.push(ch).subrange(1, 1),
            ));
            assert(split_ws(s.push(ch)) =~~= split_ws(s).push(Seq::<char>::empty()));
        } else {
            assert(seq![s.push(ch)[0]] + split_ws(Seq::<char>::empty())[0] =~= seq![ch]);
            assert(split_ws(s.push(ch)) =~~= split_ws(s).subrange(0, split_ws(s).len() - 1).push(
                split_ws(s).last().push(ch),
            ));
        }
    } else {
        let t = s.subrange(1, s.len() as int);
        lemma_split_ws_len(t);
        lemma_split_ws_push(t, ch);
        assert(s.push(ch)[0] == s[0]);
        assert(s.push(ch).subrange(1, s.push(ch).len() as int) =~= t.push(ch));
        let rt = split_ws(t);
        let rt2 = split_ws(t.push(ch));
        if is_space(s[0]) {
            if is_space(ch) {
                assert(split_ws(s.push(ch)) =~~= split_ws(s).push(Seq::<char>::empty()));
            } else {
                assert(split_ws(s) == seq![Seq::<char>::empty()] + rt);
                assert(split_ws(s).last() == rt.last());
                assert(split_ws(s.push(ch)) =~~= split_ws(s).subrange(
                    0,
                    split_ws(s).len() - 1,
                ).push(split_ws(s).last().push(ch)));
            }
        } else {
            if is_space(ch) {
                assert(rt2 == rt.push(Seq::<char>::empty()));
                assert(rt2[0] == rt[0]);
                assert(rt2.subrange(1, rt2.len() as int) =~~= rt.subrange(1, rt.len() as int).push(
                    Seq::<char>::empty(),
                ));
                assert(split_ws(s.push(ch)) =~~= split_ws(s).push(Seq::<char>::empty()));
            } else {
                assert(rt2 == rt.subrange(0, rt.len() - 1).push(rt.last().push(ch)));
                if rt.len() == 1 {
                    assert(rt2 == seq![rt[0].push(ch)]);
                    assert(split_ws(s) =~~= seq![seq![s[0]] + rt[0]]);
                    assert(seq![s[0]] + rt[0].push(ch) =~= (seq![s[0]] + rt[0]).push(ch));
                    assert(split_ws(s.push(ch)) =~~= split_ws(s).subrange(
                        0,
                        split_ws(s).len() - 1,
                    ).push(split_ws(s).last().push(ch)));
                } else {
                    assert(rt2[0] == rt[0]);
                    assert(rt2.subrange(1, rt2.len() as int) =~~= rt.subrange(
                        1,
                        rt.len() - 1,
                    ).push(rt.last().push(ch)));
                    assert(split_ws(s).last() == rt.last());
                    assert(split_ws(s.push(ch)) =~~= split_ws(s).subrange(
                        0,
                        split_ws(s).len() - 1,
                    ).push(split_ws(s).last().push(ch)));
                }
            }
        }
    }
}

/// The non-empty parts, in order.
pub open spec fn filter_nonempty(ts: Seq<Seq<char>>) -> Seq<Seq<char>>
    decreases ts.len(),
{
    if ts.len() == 0 {
        Seq::empty()
    } else if ts.last().len() > 0 {
        filter_nonempty(ts.drop_last()).push(ts.last())
    } else {
        filter_nonempty(ts.drop_last())
    }
}

/// The whitespace-separated tokens of a line, as `str::split_whitespace`
/// yields them: maximal runs of non-whitespace characters.
pub open spec fn tokens_of(s: Seq<char>) -> Seq<Seq<char>> {
    filter_nonempty(split_ws(s))
}

/// The views of a vector of strings.
pub open spec fn views(ss: Seq<String>) -> Seq<Seq<char>> {
    ss.map_values(|s: String| s@)
}

/// Relies on `String::push` of std: appends one character at the end.
#[verifier::external_body]
pub fn push_char(s: &mut String, c: char)
    ensures
        final(s)@ == old(s)@.push(c),
{
    s.push(c);
}

/// Character-for-character string equality.
pub fn str_eq(a: &str, b: &str) -> (r: bool)
    ensures
        r == (a@ == b@),
{
    let an = a.unicode_len();
    let bn = b.unicode_len();
    if an != bn {
        return false;
    }
    let mut i: usize = 0;
    while i < an
        invariant
            0 <= i <= an,
            an == a@.len() && bn == b@.len() && an == bn,
            forall|j: int| 0 <= j < i ==> a@[j] == b@[j],
        decreases an - i,
    {
        if a.get_char(i) != b.get_char(i) {
            return false;
        }
        i += 1;
    }
    proof {
        assert(a@ =~= b@);
    }
    true
}

/// `str::split` on one delimiter character, collected.
pub fn split_str(s: &str, c: char) -> (parts: Vec<String>)
    ensures
        views(parts@) == split_char(s@, c),
        parts@.len() >= 1,
{
    let n = s.unicode_len();
    let mut parts: Vec<String> = Vec::new();
    let mut cur: String = String::new();
    let mut i: usize = 0;
    while i < n
        invariant
            0 <= i <= n,
            n == s@.len(),
            views(parts@).push(cur@) == split_char(s@.subrange(0, i as int), c),
        decreases n - i,
    {
        let ch = s.get_char(i);
        proof {
            assert(s@.subrange(0, i + 1) =~= s@.subrange(0, i as int).push(s@[i as int]));
            lemma_split_char_push(s@.subrange(0, i as int), c, ch);
            lemma_split_char_len(s@.subrange(0, i as int), c);
        }
        if ch == c {
            let ghost old_parts = parts@;
            let ghost old_cur = cur@;
            parts.push(cur);
            cur = String::new();
            proof {
                assert(views(parts@) =~= views(old_parts).push(old_cur));
                assert(views(parts@).push(cur@) =~= split_char(s@.subrange(0, i as int), c).push(
                    Seq::<char>::empty(),
                ));
            }
        } else {
            let ghost old_cur = cur@;
            push_char(&mut cur, ch);
            proof {
                let prev = split_char(s@.subrange(0, i as int), c);
                assert(views(parts@).push(old_cur) == prev);
                assert(prev.subrange(0, prev.len() - 1) =~= views(parts@));
                assert(prev.last() == old_cur);
                assert(views(parts@).push(cur@) =~= prev.subrange(0, prev.len() - 1).push(
                    prev.last().push(ch),
                ));
            }
        }
        i += 1;
    }
    proof {
        assert(s@.subrange(0, n as int) =~= s@);
    }
    parts.push(cur);
    proof {
        assert(views(parts@) =~= split_char(s@, c));
    }
    parts
}

/// `str::split_whitespace` collected: the maximal non-whitespace runs.
pub fn tokenize(s: &str) -> (toks: Vec<String>)
    ensures
        views(toks@) == tokens_of(s@),
{
    let n = s.unicode_len();
    let mut toks: Vec<String> = Vec::new();
    let mut cur: String = String::new();
    let mut i: usize = 0;
    while i < n
        invariant
            0 <= i <= n,
            n == s@.len(),
            split_ws(s@.subrange(0, i as int)).last() == cur@,
            views(toks@) == filter_nonempty(
                split_ws(s@.subrange(0, i as int)).drop_last(),
            ),
        decreases n - i,
    {
        let ch = s.get_char(i);
        let ghost w = split_ws(s@.subrange(0, i as int));
        proof {
            assert(s@.subrange(0, i + 1) =~= s@.subrange(0, i as int).push(s@[i as int]));
            lemma_split_ws_push(s@.subrange(0, i as int), ch);
            lemma_split_ws_len(s@.subrange(0, i as int));
        }
        let is_sp = ch == ' ' || ch == '\t' || ch == '\n' || ch == '\r' || ch == '\u{c}';
        if is_sp {
            let ghost old_toks = toks@;
            if cur.unicode_len() > 0 {
                toks.push(cur);
                cur = String::new();
                proof {
                    assert(views(toks@) =~= views(old_toks).push(w.last()));
                }
            }
            proof {
                let w2 = split_ws(s@.subrange(0, i + 1));
                assert(w2 == w.push(Seq::<char>::empty()));
                assert(w2.drop_last() =~= w);
                assert(w2.last() =~= Seq::<char>::empty());
                assert(w.drop_last().push(w.last()) =~= w);
                assert(filter_nonempty(w) == if w.last().len() > 0 {
                    filter_nonempty(w.drop_last()).push(w.last())
                } else {
                    filter_nonempty(w.drop_last())
                });
            }
        } else {
            push_char(&mut cur, ch);
            proof {
                let w2 = split_ws(s@.subrange(0, i + 1));
                assert(w2 == w.subrange(0, w.len() - 1).push(w.last().push(ch)));
                assert(w2.drop_last() =~= w.drop_last());
                assert(w2.last() == w.last().push(ch));
            }
        }
        i += 1;
    }
    proof {
        assert(s@.subrange(0, n as int) =~= s@);
    }
    let ghost w = split_ws(s@);
    if cur.unicode_len() > 0 {
        let ghost old_toks = toks@;
        toks.push(cur);
        proof {
            assert(views(toks@) =~= views(old_toks).push(w.last()));
        }
    }
    proof {
        lemma_split_ws_len(s@);
        assert(w.drop_last().push(w.last()) =~= w);
        assert(filter_nonempty(w) == if w.last().len() > 0 {
            filter_nonempty(w.drop_last()).push(w.last())
        } else {
            filter_nonempty(w.drop_last())
        });
    }
    toks
}

} // verus!
