//! The JSON payload sent to viewers: a canonical encoding of the aggregate
//! snapshot with a fixed field order, and a parser that accepts exactly
//! that encoding. Together they make re-serializing a parsed snapshot
//! reproduce the input byte for byte.
use vstd::prelude::*;
use crate::snapshot::{PrinterStatus, StatusModel};
use crate::text::{push_char, views};

verus! {

/// The escape of one character inside a JSON string: quote and backslash
/// are escaped, every other character stands for itself.
pub open spec fn esc_char(c: char) -> Seq<char> {
    if c == '"' {
        seq!['\\', '"']
    } else if c == '\\' {
        seq!['\\', '\\']
    } else {
        seq![c]
    }
}

pub open spec fn json_escape(s: Seq<char>) -> Seq<char>
    decreases s.len(),
{
    if s.len() == 0 {
        Seq::empty()
    } else {
        json_escape(s.drop_last()) + esc_char(s.last())
    }
}

/// A JSON string literal: the escaped text in quotes.
pub open spec fn json_string(s: Seq<char>) -> Seq<char> {
    seq!['"'] + json_escape(s) + seq!['"']
}

/// The parts joined by commas.
pub open spec fn join_comma(ps: Seq<Seq<char>>) -> Seq<char>
    decreases ps.len(),
{
    if ps.len() == 0 {
        Seq::empty()
    } else if ps.len() == 1 {
        ps[0]
    } else {
        join_comma(ps.drop_last()) + seq![','] + ps.last()
    }
}

/// A JSON array of string literals.
pub open spec fn json_string_array(xs: Seq<Seq<char>>) -> Seq<char> {
    seq!['['] + join_comma(xs.map_values(|x: Seq<char>| json_string(x))) + seq![']']
}

pub open spec fn json_bool(b: bool) -> Seq<char> {
    if b {
        "true"@
    } else {
        "false"@
    }
}

/// The leading half of an entry object: name, address and file list.
pub open spec fn json_of_entry_head(pn: Seq<char>, ip: Seq<char>, files: Seq<Seq<char>>) -> Seq<
    char,
> {
    "{\"printer_name\":"@ + json_string(pn) + ",\"ip_address\":"@ + json_string(ip)
        + ",\"files_available\":"@ + json_string_array(files)
}

/// One snapshot entry as a JSON object, fields always in this order.
pub open spec fn json_of_entry(e: StatusModel) -> Seq<char> {
    json_of_entry_head(e.printer_name, e.ip_address, e.files_available) + ",\"progress\":"@
        + json_string(e.progress) + ",\"paused\":"@ + json_bool(e.paused) + "}"@
}

pub open spec fn models(es: Seq<PrinterStatus>) -> Seq<StatusModel> {
    es.map_values(|e: PrinterStatus| e@)
}

/// The whole snapshot as a JSON array of entry objects.
pub open spec fn json_of_snapshot(es: Seq<StatusModel>) -> Seq<char> {
    seq!['['] + join_comma(es.map_values(|e: StatusModel| json_of_entry(e))) + seq![']']
}

/// The escape also unfolds from the front, one unit per character.
pub proof fn lemma_escape_front(t: Seq<char>)
    requires
        t.len() > 0,
    ensures
        json_escape(t) == esc_char(t[0]) + json_escape(t.subrange(1, t.len() as int)),
    decreases t.len(),
{
    if t.len() == 1 {
        assert(t.drop_last() =~= Seq::<char>::empty());
        assert(t.subrange(1, 1) =~= Seq::<char>::empty());
        assert(json_escape(t) =~= esc_char(t[0]) + json_escape(t.subrange(1, 1)));
    } else {
        let u = t.drop_last();
        lemma_escape_front(u);
        let t1 = t.subrange(1, t.len() as int);
        assert(t1.drop_last() =~= u.subrange(1, u.len() as int));
        assert(t1.last() == t.last());
        assert(json_escape(t1) == json_escape(u.subrange(1, u.len() as int)) + esc_char(t.last()));
        assert(json_escape(t) =~= esc_char(t[0]) + json_escape(t1));
    }
}

fn append_escaped(out: &mut String, s: &str)
    ensures
        final(out)@ == old(out)@ + json_escape(s@),
{
    let n = s.unicode_len();
    let mut i: usize = 0;
    while i < n
        invariant
            0 <= i <= n,
            n == s@.len(),
            out@ == old(out)@ + json_escape(s@.subrange(0, i as int)),
        decreases n - i,
    {
        let c = s.get_char(i);
        proof {
            let pre = s@.subrange(0, i as int);
            assert(s@.subrange(0, i + 1).drop_last() =~= pre);
            assert(s@.subrange(0, i + 1).last() == s@[i as int]);
            assert(json_escape(s@.subrange(0, i + 1)) == json_escape(pre) + esc_char(s@[i as int]));
        }
        if c == '"' {
            push_char(out, '\\');
            push_char(out, '"');
            proof {
                assert(out@ =~= old(out)@ + json_escape(s@.subrange(0, i + 1)));
            }
        } else if c == '\\' {
            push_char(out, '\\');
            push_char(out, '\\');
            proof {
                assert(out@ =~= old(out)@ + json_escape(s@.subrange(0, i + 1)));
            }
        } else {
            push_char(out, c);
            proof {
                assert(out@ =~= old(out)@ + json_escape(s@.subrange(0, i + 1)));
            }
        }
        i += 1;
    }
    proof {
        assert(s@.subrange(0, n as int) =~= s@);
    }
}

fn append_json_string(out: &mut String, s: &str)
    ensures
        final(out)@ == old(out)@ + json_string(s@),
{
    push_char(out, '"');
    append_escaped(out, s);
    push_char(out, '"');
    proof {
        assert(out@ =~= old(out)@ + json_string(s@));
    }
}

fn append_string_array(out: &mut String, xs: &Vec<String>)
    ensures
        final(out)@ == old(out)@ + json_string_array(views(xs@)),
{
    push_char(out, '[');
    let n = xs.len();
    let ghost f = |x: Seq<char>| json_string(x);
    let mut i: usize = 0;
    while i < n
        invariant
            0 <= i <= n,
            n == xs@.len(),
            out@ == old(out)@ + seq!['['] + join_comma(
                views(xs@).subrange(0, i as int).map_values(|x: Seq<char>| json_string(x)),
            ),
        decreases n - i,
    {
        let ghost pre = views(xs@).subrange(0, i as int).map_values(
            |x: Seq<char>| json_string(x),
        );
        proof {
            assert(views(xs@).subrange(0, i + 1).drop_last() =~= views(xs@).subrange(0, i as int));
            assert(views(xs@).subrange(0, i + 1).last() == xs@[i as int]@);
            assert(views(xs@).subrange(0, i + 1) =~= views(xs@).subrange(0, i as int).push(
                xs@[i as int]@,
            ));
            let q = views(xs@).subrange(0, i + 1).map_values(|x: Seq<char>| json_string(x));
            assert(q =~= pre.push(json_string(xs@[i as int]@)));
            assert(q.drop_last() =~= pre);
        }
        if i > 0 {
            push_char(out, ',');
        }
        append_json_string(out, xs[i].as_str());
        proof {
            let q = views(xs@).subrange(0, i + 1).map_values(|x: Seq<char>| json_string(x));
            if i == 0 {
                assert(join_comma(q) == q[0]);
                assert(out@ =~= old(out)@ + seq!['['] + join_comma(q));
            } else {
                assert(join_comma(q) == join_comma(pre) + seq![','] + q.last());
                assert(out@ =~= old(out)@ + seq!['['] + join_comma(q));
            }
        }
        i += 1;
    }
    push_char(out, ']');
    proof {
        assert(views(xs@).subrange(0, n as int) =~= views(xs@));
        assert(out@ =~= old(out)@ + json_string_array(views(xs@)));
    }
}

fn append_entry(out: &mut String, e: &PrinterStatus)
    ensures
        final(out)@ == old(out)@ + json_of_entry(e@),
{
    out.append("{\"printer_name\":");
    append_json_string(out, e.printer_name.as_str());
    out.append(",\"ip_address\":");
    append_json_string(out, e.ip_address.as_str());
    out.append(",\"files_available\":");
    append_string_array(out, &e.files_available);
    out.append(",\"progress\":");
    append_json_string(out, e.progress.as_str());
    out.append(",\"paused\":");
    if e.paused {
        out.append("true");
    } else {
        out.append("false");
    }
    out.append("}");
    proof {
        assert(out@ =~= old(out)@ + json_of_entry(e@));
    }
}

/// Serializes the snapshot to its canonical JSON text.
pub fn snapshot_to_json(list: &Vec<PrinterStatus>) -> (r: String)
    ensures
        r@ == json_of_snapshot(models(list@)),
{
    let mut out = String::new();
    push_char(&mut out, '[');
    let n = list.len();
    let mut i: usize = 0;
    while i < n
        invariant
            0 <= i <= n,
            n == list@.len(),
            out@ == seq!['['] + join_comma(
                models(list@.subrange(0, i as int)).map_values(
                    |e: StatusModel| json_of_entry(e),
                ),
            ),
        decreases n - i,
    {
        let ghost pre = models(list@.subrange(0, i as int)).map_values(
            |e: StatusModel| json_of_entry(e),
        );
        proof {
            let q = models(list@.subrange(0, i + 1)).map_values(|e: StatusModel| json_of_entry(e));
            assert(list@.subrange(0, i + 1) =~= list@.subrange(0, i as int).push(list@[i as int]));
            assert(models(list@.subrange(0, i + 1)) =~= models(list@.subrange(0, i as int)).push(
                list@[i as int]@,
            ));
            assert(q =~= pre.push(json_of_entry(list@[i as int]@)));
            assert(q.drop_last() =~= pre);
        }
        if i > 0 {
            push_char(&mut out, ',');
        }
        append_entry(&mut out, &list[i]);
        proof {
            let q = models(list@.subrange(0, i + 1)).map_values(|e: StatusModel| json_of_entry(e));
            if i == 0 {
                assert(join_comma(q) == q[0]);
                assert(out@ =~= seq!['['] + join_comma(q));
            } else {
                assert(join_comma(q) == join_comma(pre) + seq![','] + q.last());
                assert(out@ =~= seq!['['] + join_comma(q));
            }
        }
        i += 1;
    }
    push_char(&mut out, ']');
    proof {
        assert(list@.subrange(0, n as int) =~= list@);
        assert(out@ =~= json_of_snapshot(models(list@)));
    }
    out
}

/// A subrange equal to a concatenation splits into two subranges.
pub proof fn lemma_subrange_split(s: Seq<char>, a: int, b: int, x: Seq<char>, y: Seq<char>)
    requires
        0 <= a <= b <= s.len(),
        s.subrange(a, b) == x + y,
    ensures
        a + x.len() <= b,
        s.subrange(a, a + x.len()) == x,
        s.subrange(a + x.len(), b) == y,
{
    assert(s.subrange(a, b).len() == (x + y).len());
    assert((x + y).len() == x.len() + y.len());
    assert(s.subrange(a, b).len() == b - a);
    assert(b - a == x.len() + y.len());
    assert(s.subrange(a, a + x.len() as int) =~= x) by {
        assert(forall|p: int|
            0 <= p < x.len() ==> #[trigger] s.subrange(a, a + x.len() as int)[p] == s.subrange(
                a,
                b,
            )[p]);
    }
    assert(s.subrange(a + x.len(), b) =~= y) by {
        assert(forall|p: int|
            0 <= p < y.len() ==> #[trigger] s.subrange(a + x.len() as int, b)[p] == s.subrange(
                a,
                b,
            )[p + x.len()]);
    }
}

/// The comma join also unfolds from the front.
pub proof fn lemma_join_front(ps: Seq<Seq<char>>)
    requires
        ps.len() >= 2,
    ensures
        join_comma(ps) == ps[0] + seq![','] + join_comma(ps.subrange(1, ps.len() as int)),
    decreases ps.len(),
{
    if ps.len() == 2 {
        assert(ps.drop_last() =~= seq![ps[0]]);
        assert(ps.subrange(1, 2) =~= seq![ps[1]]);
        assert(join_comma(seq![ps[0]]) == ps[0]);
        assert(join_comma(seq![ps[1]]) == ps[1]);
        assert(join_comma(ps) =~= ps[0] + seq![','] + join_comma(ps.subrange(1, 2)));
    } else {
        let q = ps.drop_last();
        lemma_join_front(q);
        let ps1 = ps.subrange(1, ps.len() as int);
        assert(ps1.drop_last() =~= q.subrange(1, q.len() as int));
        assert(ps1.len() >= 2);
        assert(join_comma(ps1) == join_comma(ps1.drop_last()) + seq![','] + ps1.last());
        assert(ps1.last() == ps.last());
        assert(join_comma(ps) =~= ps[0] + seq![','] + join_comma(ps1));
    }
}

/// The text of `s` from `i` to `e` is the JSON string literal of `t`.
pub open spec fn quoted_at(s: Seq<char>, i: int, e: int, t: Seq<char>) -> bool {
    0 <= i && i <= e <= s.len() && s.subrange(i, e) == json_string(t)
}

/// The text of `s` from `i` to `e` is the JSON array of the literals of `xs`.
pub open spec fn string_array_at(s: Seq<char>, i: int, e: int, xs: Seq<Seq<char>>) -> bool {
    0 <= i && i <= e <= s.len() && s.subrange(i, e) == json_string_array(xs)
}

/// The text of `s` from `i` to `e` is the entry object of `m`.
pub open spec fn entry_at(s: Seq<char>, i: int, e: int, m: StatusModel) -> bool {
    0 <= i && i <= e <= s.len() && s.subrange(i, e) == json_of_entry(m)
}

/// Consumes an exact literal at `i`; succeeds exactly where the literal
/// stands.
fn parse_lit(s: &str, i: usize, lit: &str) -> (r: Option<usize>)
    requires
        i <= s@.len(),
    ensures
        r is Some ==> i + lit@.len() == r->0 && r->0 <= s@.len() && s@.subrange(
            i as int,
            r->0 as int,
        ) == lit@,
        i + lit@.len() <= s@.len() && s@.subrange(i as int, i + lit@.len()) == lit@ ==> r is Some,
{
    let n = s.unicode_len();
    let ln = lit.unicode_len();
    if ln > n - i {
        return None;
    }
    let ghost full = s@.subrange(i as int, i + ln);
    let mut k: usize = 0;
    while k < ln
        invariant
            0 <= k <= ln,
            n == s@.len(),
            ln == lit@.len(),
            i + ln <= n,
            full == s@.subrange(i as int, i + ln),
            forall|j: int| 0 <= j < k ==> s@[i + j] == lit@[j],
        decreases ln - k,
    {
        if s.get_char(i + k) != lit.get_char(k) {
            proof {
                if full == lit@ {
                    assert(full[k as int] == s@[i + k]);
                    assert(false);
                }
            }
            return None;
        }
        k += 1;
    }
    proof {
        assert(s@.subrange(i as int, i + ln) =~= lit@);
    }
    Some(i + ln)
}

/// Consumes a JSON string literal at `i`: what it accepts re-serializes to
/// exactly the consumed text, and wherever a literal stands it succeeds,
/// with that literal's text and end.
fn parse_quoted(s: &str, i: usize) -> (r: Option<(String, usize)>)
    requires
        i <= s@.len(),
    ensures
        r is Some ==> i < (r->0).1 <= s@.len() && s@.subrange(i as int, (r->0).1 as int)
            == json_string((r->0).0@),
        forall|t: Seq<char>, e: int|
            #[trigger] quoted_at(s@, i as int, e, t) ==> r is Some && (r->0).1 == e && (r->0).0@
                == t,
{
    let n = s.unicode_len();
    if i >= n || s.get_char(i) != '"' {
        proof {
            assert forall|t: Seq<char>, e: int|
                !quoted_at(s@, i as int, e, t) by {
                if quoted_at(s@, i as int, e, t) {
                    assert(s@.subrange(i as int, e).len() == json_string(t).len());
                    assert(json_string(t).len() == json_escape(t).len() + 2);
                    assert(i + 2 <= e <= s@.len());
                    assert(s@.subrange(i as int, e)[0] == s@[i as int]);
                    assert(json_string(t)[0] == '"');
                }
            }
        }
        return None;
    }
    let mut acc = String::new();
    let mut j: usize = i + 1;
    proof {
        assert forall|t: Seq<char>, e: int|
            #[trigger] quoted_at(s@, i as int, e, t) implies j <= e - 1 && acc@ == t.subrange(
            0,
            acc@.len() as int,
        ) && s@.subrange(j as int, e - 1) == json_escape(
            t.subrange(acc@.len() as int, t.len() as int),
        ) by {
            assert(t.subrange(0, 0) =~= acc@);
            assert(t.subrange(0, t.len() as int) =~= t);
            assert(s@.subrange(i as int, e).len() == json_string(t).len());
            assert(json_string(t).len() == json_escape(t).len() + 2);
            assert(i + 2 <= e <= s@.len());
            assert(s@.subrange(i + 1, e - 1) =~= json_escape(t)) by {
                assert(forall|p: int|
                    0 <= p < e - 1 - (i + 1) ==> #[trigger] s@.subrange(i + 1, e - 1)[p]
                        == s@.subrange(i as int, e)[p + 1]);
                assert(forall|p: int|
                    0 <= p < json_escape(t).len() ==> #[trigger] json_escape(t)[p] == json_string(
                        t,
                    )[p + 1]);
            }
        }
    }
    loop
        invariant
            i + 1 <= j <= n,
            n == s@.len(),
            i < n,
            s@[i as int] == '"',
            json_escape(acc@) == s@.subrange(i + 1, j as int),
            forall|t: Seq<char>, e: int|
                #[trigger] quoted_at(s@, i as int, e, t) ==> j <= e - 1 && acc@ == t.subrange(
                    0,
                    acc@.len() as int,
                ) && acc@.len() <= t.len() && s@.subrange(j as int, e - 1) == json_escape(
                    t.subrange(acc@.len() as int, t.len() as int),
                ),
        decreases n - j,
    {
        if j >= n {
            proof {
                assert forall|t: Seq<char>, e: int|
                    !quoted_at(s@, i as int, e, t) by {
                    if quoted_at(s@, i as int, e, t) {
                        assert(j <= e - 1 < n);
                    }
                }
            }
            return None;
        }
        let c = s.get_char(j);
        if c == '"' {
            proof {
                assert(s@.subrange(i as int, j + 1) =~= seq!['"'] + s@.subrange(i + 1, j as int)
                    + seq!['"']);
                assert(s@.subrange(i as int, j + 1) =~= json_string(acc@));
                assert forall|t: Seq<char>, e: int|
                    #[trigger] quoted_at(s@, i as int, e, t) implies j + 1 == e && acc@ == t by {
                    let rest = t.subrange(acc@.len() as int, t.len() as int);
                    if j < e - 1 {
                        assert(rest.len() > 0) by {
                            if rest.len() == 0 {
                                assert(json_escape(rest).len() == 0);
                            }
                        }
                        lemma_escape_front(rest);
                        assert(s@[j as int] == json_escape(rest)[0]) by {
                            assert(s@.subrange(j as int, e - 1)[0] == s@[j as int]);
                        }
                        assert(json_escape(rest)[0] == esc_char(rest[0])[0]);
                        if rest[0] == '"' || rest[0] == '\\' {
                            assert(esc_char(rest[0])[0] == '\\');
                        } else {
                            assert(esc_char(rest[0])[0] == rest[0]);
                        }
                        assert(false);
                    }
                    assert(json_escape(rest).len() == 0);
                    assert(rest.len() == 0) by {
                        if rest.len() > 0 {
                            lemma_escape_front(rest);
                        }
                    }
                    assert(acc@.len() == t.len());
                    assert(acc@ =~= t);
                }
            }
            return Some((acc, j + 1));
        } else if c == '\\' {
            proof {
                assert forall|t: Seq<char>, e: int|
                    #[trigger] quoted_at(s@, i as int, e, t) implies j + 2 <= e - 1 + 1 && {
                    let rest = t.subrange(acc@.len() as int, t.len() as int);
                    rest.len() > 0 && (rest[0] == '"' || rest[0] == '\\') && j + 1 < e - 1 + 1
                        && s@[j + 1] == rest[0]
                } by {
                    let rest = t.subrange(acc@.len() as int, t.len() as int);
                    assert(s@[e - 1] == '"') by {
                        assert(s@.subrange(i as int, e)[e - 1 - i] == s@[e - 1]);
                        assert(json_string(t)[json_string(t).len() - 1] == '"');
                    }
                    assert(j < e - 1) by {
                        if j == e - 1 {
                            assert(s@[j as int] == '"');
                        }
                    }
                    assert(rest.len() > 0) by {
                        if rest.len() == 0 {
                            assert(json_escape(rest).len() == 0);
                        }
                    }
                    lemma_escape_front(rest);
                    assert(s@[j as int] == esc_char(rest[0])[0]) by {
                        assert(s@.subrange(j as int, e - 1)[0] == s@[j as int]);
                    }
                    assert(rest[0] == '"' || rest[0] == '\\') by {
                        if !(rest[0] == '"' || rest[0] == '\\') {
                            assert(esc_char(rest[0])[0] == rest[0]);
                        }
                    }
                    assert(esc_char(rest[0]).len() == 2);
                    assert(s@.subrange(j as int, e - 1).len() >= 2);
                    assert(s@[j + 1] == esc_char(rest[0])[1]) by {
                        assert(s@.subrange(j as int, e - 1)[1] == s@[j + 1]);
                    }
                    assert(esc_char(rest[0])[1] == rest[0]);
                }
            }
            if j + 1 >= n {
                proof {
                    assert forall|t: Seq<char>, e: int|
                        !quoted_at(s@, i as int, e, t) by {
                        if quoted_at(s@, i as int, e, t) {
                            assert(j + 1 < e <= n);
                        }
                    }
                }
                return None;
            }
            let c2 = s.get_char(j + 1);
            if c2 == '"' || c2 == '\\' {
                let ghost old_acc = acc@;
                push_char(&mut acc, c2);
                proof {
                    assert(acc@.drop_last() =~= old_acc);
                    assert(json_escape(acc@) == json_escape(old_acc) + esc_char(c2));
                    assert(json_escape(acc@) =~= s@.subrange(i + 1, j + 2));
                    assert forall|t: Seq<char>, e: int|
                        #[trigger] quoted_at(s@, i as int, e, t) implies j + 2 <= e - 1 && acc@
                        == t.subrange(0, acc@.len() as int) && acc@.len() <= t.len()
                        && s@.subrange(j + 2, e - 1) == json_escape(
                        t.subrange(acc@.len() as int, t.len() as int),
                    ) by {
                        let rest = t.subrange(old_acc.len() as int, t.len() as int);
                        lemma_escape_front(rest);
                        assert(s@[j + 1] == rest[0]);
                        assert(rest[0] == c2);
                        assert(t[old_acc.len() as int] == rest[0]);
                        assert(acc@ =~= t.subrange(0, acc@.len() as int));
                        let rest2 = rest.subrange(1, rest.len() as int);
                        assert(rest2 =~= t.subrange(acc@.len() as int, t.len() as int));
                        assert(esc_char(rest[0]).len() == 2);
                        assert(s@.subrange(j + 2, e - 1) =~= json_escape(rest2)) by {
                            assert(s@.subrange(j as int, e - 1) == esc_char(rest[0])
                                + json_escape(rest2));
                            assert(forall|p: int|
                                0 <= p < e - 1 - (j + 2) ==> #[trigger] s@.subrange(
                                    j + 2,
                                    e - 1,
                                )[p] == s@.subrange(j as int, e - 1)[p + 2]);
                        }
                        assert(j + 2 <= e - 1) by {
                            assert(s@.subrange(j as int, e - 1).len() == 2 + json_escape(
                                rest2,
                            ).len());
                        }
                    }
                }
                j += 2;
            } else {
                proof {
                    assert forall|t: Seq<char>, e: int|
                        !quoted_at(s@, i as int, e, t) by {
                        if quoted_at(s@, i as int, e, t) {
                            let rest = t.subrange(acc@.len() as int, t.len() as int);
                            assert(s@[j + 1] == rest[0]);
                        }
                    }
                }
                return None;
            }
        } else {
            let ghost old_acc = acc@;
            push_char(&mut acc, c);
            proof {
                assert(acc@.drop_last() =~= old_acc);
                assert(json_escape(acc@) == json_escape(old_acc) + esc_char(c));
                assert(json_escape(acc@) =~= s@.subrange(i + 1, j + 1));
                assert forall|t: Seq<char>, e: int|
                    #[trigger] quoted_at(s@, i as int, e, t) implies j + 1 <= e - 1 && acc@
                    == t.subrange(0, acc@.len() as int) && acc@.len() <= t.len() && s@.subrange(
                    j + 1,
                    e - 1,
                ) == json_escape(t.subrange(acc@.len() as int, t.len() as int)) by {
                    let rest = t.subrange(old_acc.len() as int, t.len() as int);
                    assert(s@[e - 1] == '"') by {
                        assert(s@.subrange(i as int, e)[e - 1 - i] == s@[e - 1]);
                        assert(json_string(t)[json_string(t).len() - 1] == '"');
                    }
                    assert(j < e - 1) by {
                        if j == e - 1 {
                            assert(s@[j as int] == '"');
                        }
                    }
                    assert(rest.len() > 0) by {
                        if rest.len() == 0 {
                            assert(json_escape(rest).len() == 0);
                        }
                    }
                    lemma_escape_front(rest);
                    assert(s@[j as int] == esc_char(rest[0])[0]) by {
                        assert(s@.subrange(j as int, e - 1)[0] == s@[j as int]);
                    }
                    assert(rest[0] == c) by {
                        if rest[0] == '"' || rest[0] == '\\' {
                            assert(esc_char(rest[0])[0] == '\\');
                        } else {
                            assert(esc_char(rest[0])[0] == rest[0]);
                        }
                    }
                    assert(t[old_acc.len() as int] == rest[0]);
                    assert(acc@ =~= t.subrange(0, acc@.len() as int));
                    let rest2 = rest.subrange(1, rest.len() as int);
                    assert(rest2 =~= t.subrange(acc@.len() as int, t.len() as int));
                    assert(esc_char(rest[0]).len() == 1);
                    assert(s@.subrange(j + 1, e - 1) =~= json_escape(rest2)) by {
                        assert(s@.subrange(j as int, e - 1) == esc_char(rest[0]) + json_escape(
                            rest2,
                        ));
                        assert(forall|p: int|
                            0 <= p < e - 1 - (j + 1) ==> #[trigger] s@.subrange(j + 1, e - 1)[p]
                                == s@.subrange(j as int, e - 1)[p + 1]);
                    }
                    assert(j + 1 <= e - 1) by {
                        assert(s@.subrange(j as int, e - 1).len() == 1 + json_escape(rest2).len());
                    }
                }
            }
            j += 1;
        }
    }
}

/// Consumes a JSON array of string literals at `i`: sound, and wherever
/// such an array stands it succeeds with exactly its elements and end.
#[verifier::rlimit(100)]
#[verifier::spinoff_prover]
fn parse_string_array(s: &str, i: usize) -> (r: Option<(Vec<String>, usize)>)
    requires
        i <= s@.len(),
    ensures
        r is Some ==> i < (r->0).1 <= s@.len() && s@.subrange(i as int, (r->0).1 as int)
            == json_string_array(views((r->0).0@)),
        forall|ys: Seq<Seq<char>>, e: int|
            #[trigger] string_array_at(s@, i as int, e, ys) ==> r is Some && (r->0).1 == e
                && views((r->0).0@) == ys,
{
    let n = s.unicode_len();
    if i >= n || s.get_char(i) != '[' {
        proof {
            assert forall|ys: Seq<Seq<char>>, e: int|
                !string_array_at(s@, i as int, e, ys) by {
                if string_array_at(s@, i as int, e, ys) {
                    assert(s@.subrange(i as int, e).len() == json_string_array(ys).len());
                    assert(json_string_array(ys).len() >= 2);
                    assert(i + 2 <= e <= s@.len());
                    assert(s@.subrange(i as int, e)[0] == s@[i as int]);
                    assert(json_string_array(ys)[0] == '[');
                }
            }
        }
        return None;
    }
    let mut xs: Vec<String> = Vec::new();
    if i + 1 < n && s.get_char(i + 1) == ']' {
        proof {
            let q = views(xs@).map_values(|x: Seq<char>| json_string(x));
            assert(q =~= Seq::<Seq<char>>::empty());
            assert(s@.subrange(i as int, i + 2) =~= seq!['['] + join_comma(q) + seq![']']);
            assert forall|ys: Seq<Seq<char>>, e: int|
                #[trigger] string_array_at(s@, i as int, e, ys) implies i + 2 == e && views(xs@)
                == ys by {
                let m = ys.map_values(|x: Seq<char>| json_string(x));
                if ys.len() > 0 {
                    assert(json_string_array(ys) =~= seq!['['] + (join_comma(m) + seq![']']));
                    lemma_subrange_split(
                        s@,
                        i as int,
                        e,
                        seq!['['],
                        join_comma(m) + seq![']'],
                    );
                    lemma_subrange_split(s@, i + 1, e, join_comma(m), seq![']']);
                    if m.len() == 1 {
                        assert(join_comma(m) == m[0]);
                    } else {
                        lemma_join_front(m);
                    }
                    assert(m[0] == json_string(ys[0]));
                    assert(json_string(ys[0]).len() >= 2);
                    assert(join_comma(m)[0] == '"') by {
                        assert(json_string(ys[0])[0] == '"');
                    }
                    assert(s@.subrange(i + 1, i + 1 + join_comma(m).len())[0] == s@[i + 1]);
                    assert(false);
                }
                assert(m.len() == 0);
                assert(join_comma(m).len() == 0);
                assert(json_string_array(ys).len() == 2);
                assert(views(xs@) =~= ys);
            }
        }
        return Some((xs, i + 2));
    }
    let mut j: usize = i + 1;
    proof {
        assert forall|ys: Seq<Seq<char>>, e: int|
            #[trigger] string_array_at(s@, i as int, e, ys) implies ys.len() > 0 && j < e - 1
            && views(xs@) == ys.subrange(0, 0) && s@.subrange(j as int, e - 1) == Seq::<
            char,
        >::empty() + join_comma(
            ys.map_values(|x: Seq<char>| json_string(x)).subrange(0, ys.len() as int),
        ) by {
            let m = ys.map_values(|x: Seq<char>| json_string(x));
            assert(json_string_array(ys) =~= seq!['['] + (join_comma(m) + seq![']']));
            lemma_subrange_split(s@, i as int, e, seq!['['], join_comma(m) + seq![']']);
            lemma_subrange_split(s@, i + 1, e, join_comma(m), seq![']']);
            if ys.len() == 0 {
                assert(join_comma(m).len() == 0);
                assert(e == i + 2);
                assert(s@.subrange(i + 1, e)[0] == s@[i + 1]);
                assert(false);
            }
            if m.len() == 1 {
                assert(join_comma(m) == m[0]);
                assert(join_comma(m).len() >= 2);
            } else {
                lemma_join_front(m);
                assert(join_comma(m).len() >= 2);
            }
            assert(views(xs@) =~= ys.subrange(0, 0));
            assert(m.subrange(0, ys.len() as int) =~= m);
            assert(Seq::<char>::empty() + join_comma(m) =~= join_comma(m));
        }
    }
    loop
        invariant
            i + 1 <= j <= n,
            n == s@.len(),
            i < n,
            s@[i as int] == '[',
            !(i + 1 < n && s@[i + 1] == ']'),
            join_comma(views(xs@).map_values(|x: Seq<char>| json_string(x))) == s@.subrange(
                i + 1,
                j as int,
            ),
            xs@.len() == 0 ==> j == i + 1,
            forall|ys: Seq<Seq<char>>, e: int|
                #[trigger] string_array_at(s@, i as int, e, ys) ==> ys.len() > 0 && xs@.len()
                    <= ys.len() && views(
                    xs@,
                ) == ys.subrange(0, xs@.len() as int) && (xs@.len() == ys.len() ==> j == e - 1) && (
                xs@.len() < ys.len() ==> j < e - 1 && s@.subrange(j as int, e - 1) == (
                if xs@.len() == 0 {
                    Seq::<char>::empty()
                } else {
                    seq![',']
                }) + join_comma(
                    ys.map_values(|x: Seq<char>| json_string(x)).subrange(
                        xs@.len() as int,
                        ys.len() as int,
                    ),
                )),
        decreases n - j,
    {
        if xs.len() > 0 {
            if j >= n {
                proof {
                    assert forall|ys: Seq<Seq<char>>, e: int|
                        !string_array_at(s@, i as int, e, ys) by {
                        if string_array_at(s@, i as int, e, ys) {
                            assert(j <= e - 1 < n);
                        }
                    }
                }
                return None;
            }
            let c = s.get_char(j);
            if c == ']' {
                proof {
                    let q = views(xs@).map_values(|x: Seq<char>| json_string(x));
                    assert(s@.subrange(i as int, j + 1) =~= seq!['['] + join_comma(q) + seq![']']);
                    assert forall|ys: Seq<Seq<char>>, e: int|
                        #[trigger] string_array_at(s@, i as int, e, ys) implies j + 1 == e && views(
                        xs@,
                    ) == ys by {
                        if xs@.len() < ys.len() {
                            let rem = (seq![',']) + join_comma(
                                ys.map_values(|x: Seq<char>| json_string(x)).subrange(
                                    xs@.len() as int,
                                    ys.len() as int,
                                ),
                            );
                            assert(s@.subrange(j as int, e - 1)[0] == s@[j as int]);
                            assert(rem[0] == ',');
                            assert(false);
                        }
                        assert(views(xs@) =~= ys);
                    }
                }
                return Some((xs, j + 1));
            } else if c != ',' {
                proof {
                    assert forall|ys: Seq<Seq<char>>, e: int|
                        !string_array_at(s@, i as int, e, ys) by {
                        if string_array_at(s@, i as int, e, ys) {
                            if xs@.len() == ys.len() {
                                assert(s@.subrange(i as int, e)[e - 1 - i] == s@[e - 1]);
                                assert(json_string_array(ys).len() == e - i);
                                assert(json_string_array(ys)[e - 1 - i] == ']') by {
                                    assert(json_string_array(ys) =~= (seq!['['] + join_comma(
                                        ys.map_values(|x: Seq<char>| json_string(x)),
                                    )).push(']'));
                                }
                            } else {
                                let rem = (seq![',']) + join_comma(
                                    ys.map_values(|x: Seq<char>| json_string(x)).subrange(
                                        xs@.len() as int,
                                        ys.len() as int,
                                    ),
                                );
                                assert(s@.subrange(j as int, e - 1)[0] == s@[j as int]);
                                assert(rem[0] == ',');
                            }
                        }
                    }
                }
                return None;
            }
            let jc = j + 1;
            proof {
                assert forall|ys: Seq<Seq<char>>, e: int|
                    #[trigger] string_array_at(s@, i as int, e, ys) implies quoted_at(
                    s@,
                    jc as int,
                    jc + json_string(ys[xs@.len() as int]).len(),
                    ys[xs@.len() as int],
                ) by {
                    let k = xs@.len() as int;
                    let m = ys.map_values(|x: Seq<char>| json_string(x));
                    assert(k < ys.len()) by {
                        if k == ys.len() {
                            assert(s@.subrange(i as int, e)[e - 1 - i] == s@[e - 1]);
                            assert(json_string_array(ys)[e - 1 - i] == ']') by {
                                assert(json_string_array(ys) =~= (seq!['['] + join_comma(m)).push(
                                    ']',
                                ));
                            }
                            assert(s@[j as int] == ']');
                        }
                    }
                    let rest = m.subrange(k, ys.len() as int);
                    lemma_subrange_split(s@, j as int, e - 1, seq![','], join_comma(rest));
                    if rest.len() == 1 {
                        assert(join_comma(rest) == rest[0]);
                        assert(rest[0] == m[k]);
                        assert(m[k] == json_string(ys[k]));
                        assert(s@.subrange(jc as int, e - 1) == json_string(ys[k]));
                        assert(e - 1 == jc + json_string(ys[k]).len());
                    } else {
                        lemma_join_front(rest);
                        assert(rest[0] == json_string(ys[k]));
                        assert(join_comma(rest) =~= json_string(ys[k]) + (seq![','] + join_comma(
                            rest.subrange(1, rest.len() as int),
                        )));
                        lemma_subrange_split(
                            s@,
                            jc as int,
                            e - 1,
                            json_string(ys[k]),
                            seq![','] + join_comma(rest.subrange(1, rest.len() as int)),
                        );
                    }
                }
            }
            match parse_quoted(s, jc) {
                Some((x, j2)) => {
                    let ghost old_xs = xs@;
                    proof {
                        assert(s@.subrange(jc as int, j2 as int) == json_string(x@));
                    }
                    xs.push(x);
                    proof {
                        let f = |x: Seq<char>| json_string(x);
                        let q0 = views(old_xs).map_values(f);
                        let q = views(xs@).map_values(f);
                        assert(views(xs@) =~= views(old_xs).push(xs@.last()@));
                        assert(q =~= q0.push(json_string(xs@.last()@)));
                        assert(q.drop_last() =~= q0);
                        assert(q.len() >= 2);
                        assert(join_comma(q) == join_comma(q0) + seq![','] + q.last());
                        assert(s@.subrange(i + 1, j2 as int) =~= s@.subrange(i + 1, j as int)
                            + seq![','] + s@.subrange(jc as int, j2 as int));
                        assert(join_comma(q) =~= s@.subrange(i + 1, j2 as int));
                        assert forall|ys: Seq<Seq<char>>, e: int|
                            #[trigger] string_array_at(s@, i as int, e, ys) implies xs@.len()
                            <= ys.len() && views(xs@) == ys.subrange(0, xs@.len() as int) && (
                        xs@.len() == ys.len() ==> j2 == e - 1) && (xs@.len() < ys.len() ==> j2 < e
                            - 1 && s@.subrange(j2 as int, e - 1) == seq![','] + join_comma(
                            ys.map_values(f).subrange(xs@.len() as int, ys.len() as int),
                        )) by {
                            let k = old_xs.len() as int;
                            let m = ys.map_values(f);
                            assert(k < ys.len()) by {
                                if k == ys.len() {
                                    assert(s@.subrange(i as int, e)[e - 1 - i] == s@[e - 1]);
                                    assert(json_string_array(ys)[e - 1 - i] == ']') by {
                                        assert(json_string_array(ys) =~= (seq!['['] + join_comma(
                                            m,
                                        )).push(']'));
                                    }
                                    assert(s@[j as int] == ']');
                                }
                            }
                            assert(quoted_at(
                                s@,
                                jc as int,
                                jc + json_string(ys[k]).len(),
                                ys[k],
                            ));
                            assert(j2 == jc + json_string(ys[k]).len() && x@ == ys[k]);
                            assert(views(xs@) =~= ys.subrange(0, k + 1)) by {
                                assert(views(old_xs) == ys.subrange(0, k));
                                assert(forall|p: int|
                                    0 <= p < k ==> #[trigger] views(xs@)[p] == views(old_xs)[p]);
                                assert(views(xs@)[k] == x@);
                                assert(ys.subrange(0, k + 1)[k] == ys[k]);
                                assert(forall|p: int|
                                    0 <= p < k ==> #[trigger] ys.subrange(0, k + 1)[p]
                                        == ys.subrange(0, k)[p]);
                            }
                            let rest = m.subrange(k, ys.len() as int);
                            lemma_subrange_split(s@, j as int, e - 1, seq![','], join_comma(rest));
                            if rest.len() == 1 {
                                assert(join_comma(rest) == rest[0]);
                                assert(e - 1 == jc + json_string(ys[k]).len());
                            } else {
                                lemma_join_front(rest);
                                assert(rest[0] == json_string(ys[k]));
                                assert(join_comma(rest) =~= json_string(ys[k]) + (seq![',']
                                    + join_comma(rest.subrange(1, rest.len() as int))));
                                lemma_subrange_split(
                                    s@,
                                    jc as int,
                                    e - 1,
                                    json_string(ys[k]),
                                    seq![','] + join_comma(rest.subrange(1, rest.len() as int)),
                                );
                                assert(rest.subrange(1, rest.len() as int) =~= m.subrange(
                                    k + 1,
                                    ys.len() as int,
                                ));
                                assert(s@.subrange(j2 as int, e - 1) == seq![','] + join_comma(
                                    m.subrange(k + 1, ys.len() as int),
                                ));
                                assert(j2 < e - 1) by {
                                    assert(s@.subrange(j2 as int, e - 1).len() >= 1);
                                }
                            }
                        }
                    }
                    j = j2;
                },
                None => {
                    proof {
                        assert forall|ys: Seq<Seq<char>>, e: int|
                            !string_array_at(s@, i as int, e, ys) by {
                            if string_array_at(s@, i as int, e, ys) {
                                assert(quoted_at(
                                    s@,
                                    jc as int,
                                    jc + json_string(ys[xs@.len() as int]).len(),
                                    ys[xs@.len() as int],
                                ));
                            }
                        }
                    }
                    return None;
                },
            }
        } else {
            proof {
                assert forall|ys: Seq<Seq<char>>, e: int|
                    #[trigger] string_array_at(s@, i as int, e, ys) implies ys.len() > 0
                    && quoted_at(
                    s@,
                    j as int,
                    j + json_string(ys[0]).len(),
                    ys[0],
                ) by {
                    let m = ys.map_values(|x: Seq<char>| json_string(x));
                    assert(ys.len() > 0);
                    assert(m.subrange(0, ys.len() as int) =~= m);
                    assert(s@.subrange(j as int, e - 1) =~= join_comma(m)) by {
                        assert(s@.subrange(j as int, e - 1) == Seq::<char>::empty() + join_comma(
                            m.subrange(0, ys.len() as int),
                        ));
                    }
                    if m.len() == 1 {
                        assert(join_comma(m) == m[0]);
                        assert(s@.subrange(j as int, e - 1) == json_string(ys[0]));
                        assert(e - 1 == j + json_string(ys[0]).len());
                    } else {
                        lemma_join_front(m);
                        assert(m[0] == json_string(ys[0]));
                        assert(join_comma(m) =~= json_string(ys[0]) + (seq![','] + join_comma(
                            m.subrange(1, m.len() as int),
                        )));
                        lemma_subrange_split(
                            s@,
                            j as int,
                            e - 1,
                            json_string(ys[0]),
                            seq![','] + join_comma(m.subrange(1, m.len() as int)),
                        );
                    }
                }
            }
            match parse_quoted(s, j) {
                Some((x, j2)) => {
                    proof {
                        assert(s@.subrange(j as int, j2 as int) == json_string(x@));
                    }
                    xs.push(x);
                    proof {
                        let f = |x: Seq<char>| json_string(x);
                        let q = views(xs@).map_values(f);
                        assert(views(xs@) =~= seq![xs@[0]@]);
                        assert(q =~= seq![json_string(xs@[0]@)]);
                        assert(join_comma(q) == q[0]);
                        assert(join_comma(q) =~= s@.subrange(i + 1, j2 as int));
                        assert forall|ys: Seq<Seq<char>>, e: int|
                            #[trigger] string_array_at(s@, i as int, e, ys) implies xs@.len()
                            <= ys.len() && views(xs@) == ys.subrange(0, xs@.len() as int) && (
                        xs@.len() == ys.len() ==> j2 == e - 1) && (xs@.len() < ys.len() ==> j2 < e
                            - 1 && s@.subrange(j2 as int, e - 1) == seq![','] + join_comma(
                            ys.map_values(f).subrange(xs@.len() as int, ys.len() as int),
                        )) by {
                            let m = ys.map_values(f);
                            assert(quoted_at(s@, j as int, j + json_string(ys[0]).len(), ys[0]));
                            assert(j2 == j + json_string(ys[0]).len() && x@ == ys[0]);
                            assert(views(xs@) =~= ys.subrange(0, 1)) by {
                                assert(ys.subrange(0, 1)[0] == ys[0]);
                            }
                            assert(m.subrange(0, ys.len() as int) =~= m);
                            assert(s@.subrange(j as int, e - 1) =~= join_comma(m)) by {
                                assert(s@.subrange(j as int, e - 1) == Seq::<char>::empty()
                                    + join_comma(m.subrange(0, ys.len() as int)));
                            }
                            if ys.len() == 1 {
                                assert(join_comma(m) == m[0]);
                                assert(j2 == e - 1);
                            } else {
                                lemma_join_front(m);
                                assert(join_comma(m) =~= json_string(ys[0]) + (seq![',']
                                    + join_comma(m.subrange(1, m.len() as int))));
                                lemma_subrange_split(
                                    s@,
                                    j as int,
                                    e - 1,
                                    json_string(ys[0]),
                                    seq![','] + join_comma(m.subrange(1, m.len() as int)),
                                );
                                assert(s@.subrange(j2 as int, e - 1) == seq![','] + join_comma(
                                    m.subrange(1, ys.len() as int),
                                ));
                                assert(j2 < e - 1) by {
                                    assert(s@.subrange(j2 as int, e - 1).len() >= 1);
                                }
                            }
                        }
                    }
                    j = j2;
                },
                None => {
                    proof {
                        assert forall|ys: Seq<Seq<char>>, e: int|
                            !string_array_at(s@, i as int, e, ys) by {
                            if string_array_at(s@, i as int, e, ys) {
                                assert(quoted_at(
                                    s@,
                                    j as int,
                                    j + json_string(ys[0]).len(),
                                    ys[0],
                                ));
                            }
                        }
                    }
                    return None;
                },
            }
        }
    }
}

/// The head half of an entry standing at `i` to `e`.
pub open spec fn head_at(
    s: Seq<char>,
    i: int,
    e: int,
    pn: Seq<char>,
    ip: Seq<char>,
    files: Seq<Seq<char>>,
) -> bool {
    0 <= i && i <= e <= s.len() && s.subrange(i, e) == json_of_entry_head(pn, ip, files)
}

/// The pieces of an entry head, each at its canonical offset.
pub open spec fn head_pieces(
    s: Seq<char>,
    i: int,
    e: int,
    pn: Seq<char>,
    ip: Seq<char>,
    files: Seq<Seq<char>>,
) -> bool {
    let o1 = i + "{\"printer_name\":"@.len();
    let o2 = o1 + json_string(pn).len();
    let o3 = o2 + ",\"ip_address\":"@.len();
    let o4 = o3 + json_string(ip).len();
    let o5 = o4 + ",\"files_available\":"@.len();
    &&& i <= e <= s.len()
    &&& o5 + json_string_array(files).len() == e
    &&& s.subrange(i, o1) == "{\"printer_name\":"@
    &&& s.subrange(o1, o2) == json_string(pn)
    &&& s.subrange(o2, o3) == ",\"ip_address\":"@
    &&& s.subrange(o3, o4) == json_string(ip)
    &&& s.subrange(o4, o5) == ",\"files_available\":"@
    &&& s.subrange(o5, e) == json_string_array(files)
}

proof fn lemma_head_decompose(
    s: Seq<char>,
    i: int,
    e: int,
    pn: Seq<char>,
    ip: Seq<char>,
    files: Seq<Seq<char>>,
)
    requires
        head_at(s, i, e, pn, ip, files),
    ensures
        head_pieces(s, i, e, pn, ip, files),
{
    let p5 = "{\"printer_name\":"@ + json_string(pn) + ",\"ip_address\":"@ + json_string(ip)
        + ",\"files_available\":"@;
    lemma_subrange_split(s, i, e, p5, json_string_array(files));
    let o5 = i + p5.len();
    let p4 = "{\"printer_name\":"@ + json_string(pn) + ",\"ip_address\":"@ + json_string(ip);
    lemma_subrange_split(s, i, o5, p4, ",\"files_available\":"@);
    let o4 = i + p4.len();
    let p3 = "{\"printer_name\":"@ + json_string(pn) + ",\"ip_address\":"@;
    lemma_subrange_split(s, i, o4, p3, json_string(ip));
    let o3 = i + p3.len();
    let p2 = "{\"printer_name\":"@ + json_string(pn);
    lemma_subrange_split(s, i, o3, p2, ",\"ip_address\":"@);
    let o2 = i + p2.len();
    lemma_subrange_split(s, i, o2, "{\"printer_name\":"@, json_string(pn));
    assert(p2.len() == "{\"printer_name\":"@.len() + json_string(pn).len());
    assert(p3.len() == p2.len() + ",\"ip_address\":"@.len());
    assert(p4.len() == p3.len() + json_string(ip).len());
    assert(p5.len() == p4.len() + ",\"files_available\":"@.len());
    assert(s.subrange(i, e).len() == p5.len() + json_string_array(files).len());
}

/// The pieces of a whole entry: its head, then the progress, the paused
/// flag and the closing brace, each at its canonical offset.
pub open spec fn entry_pieces(s: Seq<char>, i: int, e: int, m: StatusModel) -> bool {
    let oh = i + json_of_entry_head(m.printer_name, m.ip_address, m.files_available).len();
    let o7 = oh + ",\"progress\":"@.len();
    let o8 = o7 + json_string(m.progress).len();
    let o9 = o8 + ",\"paused\":"@.len();
    let o10 = o9 + json_bool(m.paused).len();
    &&& i <= e <= s.len()
    &&& o10 + 1 == e
    &&& head_at(s, i, oh, m.printer_name, m.ip_address, m.files_available)
    &&& s.subrange(oh, o7) == ",\"progress\":"@
    &&& s.subrange(o7, o8) == json_string(m.progress)
    &&& s.subrange(o8, o9) == ",\"paused\":"@
    &&& s.subrange(o9, o10) == json_bool(m.paused)
    &&& s.subrange(o10, e) == "}"@
}

/// The canonical offsets of the pieces of an entry object standing at `i`.
proof fn lemma_entry_decompose(s: Seq<char>, i: int, e: int, m: StatusModel)
    requires
        entry_at(s, i, e, m),
    ensures
        entry_pieces(s, i, e, m),
{
    let head = json_of_entry_head(m.printer_name, m.ip_address, m.files_available);
    let p10 = head + ",\"progress\":"@ + json_string(m.progress) + ",\"paused\":"@ + json_bool(
        m.paused,
    );
    lemma_subrange_split(s, i, e, p10, "}"@);
    let o10 = i + p10.len();
    let p9 = head + ",\"progress\":"@ + json_string(m.progress) + ",\"paused\":"@;
    lemma_subrange_split(s, i, o10, p9, json_bool(m.paused));
    let o9 = i + p9.len();
    let p8 = head + ",\"progress\":"@ + json_string(m.progress);
    lemma_subrange_split(s, i, o9, p8, ",\"paused\":"@);
    let o8 = i + p8.len();
    let p7 = head + ",\"progress\":"@;
    lemma_subrange_split(s, i, o8, p7, json_string(m.progress));
    let o7 = i + p7.len();
    lemma_subrange_split(s, i, o7, head, ",\"progress\":"@);
    assert(p7.len() == head.len() + ",\"progress\":"@.len());
    assert(p8.len() == p7.len() + json_string(m.progress).len());
    assert(p9.len() == p8.len() + ",\"paused\":"@.len());
    assert(p10.len() == p9.len() + json_bool(m.paused).len());
    reveal_strlit("}");
    assert("}"@.len() == 1);
    assert(s.subrange(i, e).len() == p10.len() + 1);
}

/// Consumes the head of an entry at `i`: sound, and wherever a head
/// stands it succeeds with exactly its fields and end.
fn parse_entry_head(s: &str, i: usize) -> (r: Option<(String, String, Vec<String>, usize)>)
    requires
        i <= s@.len(),
    ensures
        r is Some ==> i < (r->0).3 <= s@.len() && s@.subrange(i as int, (r->0).3 as int)
            == json_of_entry_head((r->0).0@, (r->0).1@, views((r->0).2@)),
        forall|pn: Seq<char>, ip: Seq<char>, files: Seq<Seq<char>>, e: int|
            #[trigger] head_at(s@, i as int, e, pn, ip, files) ==> r is Some && (r->0).3 == e && (
            r->0).0@ == pn && (r->0).1@ == ip && views((r->0).2@) == files,
{
    proof {
        assert forall|pn: Seq<char>, ip: Seq<char>, files: Seq<Seq<char>>, e: int|
            #[trigger] head_at(s@, i as int, e, pn, ip, files) implies head_pieces(
            s@,
            i as int,
            e,
            pn,
            ip,
            files,
        ) by {
            lemma_head_decompose(s@, i as int, e, pn, ip, files);
        }
    }
    let j1 = match parse_lit(s, i, "{\"printer_name\":") {
        Some(j) => j,
        None => {
            proof {
                assert forall|pn: Seq<char>, ip: Seq<char>, files: Seq<Seq<char>>, e: int|
                    !head_at(s@, i as int, e, pn, ip, files) by {
                    if head_at(s@, i as int, e, pn, ip, files) {
                        assert(head_pieces(s@, i as int, e, pn, ip, files));
                    }
                }
            }
            return None;
        },
    };
    let (printer_name, j2) = match parse_quoted(s, j1) {
        Some(p) => p,
        None => {
            proof {
                assert forall|pn: Seq<char>, ip: Seq<char>, files: Seq<Seq<char>>, e: int|
                    !head_at(s@, i as int, e, pn, ip, files) by {
                    if head_at(s@, i as int, e, pn, ip, files) {
                        assert(head_pieces(s@, i as int, e, pn, ip, files));
                        assert(quoted_at(s@, j1 as int, j1 + json_string(pn).len(), pn));
                    }
                }
            }
            return None;
        },
    };
    proof {
        assert forall|pn: Seq<char>, ip: Seq<char>, files: Seq<Seq<char>>, e: int|
            #[trigger] head_at(s@, i as int, e, pn, ip, files) implies j2 == j1 + json_string(
            pn,
        ).len() && printer_name@ == pn by {
            assert(head_pieces(s@, i as int, e, pn, ip, files));
            assert(quoted_at(s@, j1 as int, j1 + json_string(pn).len(), pn));
        }
    }
    let j3 = match parse_lit(s, j2, ",\"ip_address\":") {
        Some(j) => j,
        None => {
            proof {
                assert forall|pn: Seq<char>, ip: Seq<char>, files: Seq<Seq<char>>, e: int|
                    !head_at(s@, i as int, e, pn, ip, files) by {
                    if head_at(s@, i as int, e, pn, ip, files) {
                        assert(head_pieces(s@, i as int, e, pn, ip, files));
                    }
                }
            }
            return None;
        },
    };
    let (ip_address, j4) = match parse_quoted(s, j3) {
        Some(p) => p,
        None => {
            proof {
                assert forall|pn: Seq<char>, ip: Seq<char>, files: Seq<Seq<char>>, e: int|
                    !head_at(s@, i as int, e, pn, ip, files) by {
                    if head_at(s@, i as int, e, pn, ip, files) {
                        assert(head_pieces(s@, i as int, e, pn, ip, files));
                        assert(quoted_at(s@, j3 as int, j3 + json_string(ip).len(), ip));
                    }
                }
            }
            return None;
        },
    };
    proof {
        assert forall|pn: Seq<char>, ip: Seq<char>, files: Seq<Seq<char>>, e: int|
            #[trigger] head_at(s@, i as int, e, pn, ip, files) implies j4 == j3 + json_string(
            ip,
        ).len() && ip_address@ == ip by {
            assert(head_pieces(s@, i as int, e, pn, ip, files));
            assert(quoted_at(s@, j3 as int, j3 + json_string(ip).len(), ip));
        }
    }
    let j5 = match parse_lit(s, j4, ",\"files_available\":") {
        Some(j) => j,
        None => {
            proof {
                assert forall|pn: Seq<char>, ip: Seq<char>, files: Seq<Seq<char>>, e: int|
                    !head_at(s@, i as int, e, pn, ip, files) by {
                    if head_at(s@, i as int, e, pn, ip, files) {
                        assert(head_pieces(s@, i as int, e, pn, ip, files));
                    }
                }
            }
            return None;
        },
    };
    let (files_available, j6) = match parse_string_array(s, j5) {
        Some(p) => p,
        None => {
            proof {
                assert forall|pn: Seq<char>, ip: Seq<char>, files: Seq<Seq<char>>, e: int|
                    !head_at(s@, i as int, e, pn, ip, files) by {
                    if head_at(s@, i as int, e, pn, ip, files) {
                        assert(head_pieces(s@, i as int, e, pn, ip, files));
                        assert(string_array_at(s@, j5 as int, e, files));
                    }
                }
            }
            return None;
        },
    };
    proof {
        assert(s@.subrange(i as int, j6 as int) =~= s@.subrange(i as int, j1 as int) + s@.subrange(
            j1 as int,
            j2 as int,
        ) + s@.subrange(j2 as int, j3 as int) + s@.subrange(j3 as int, j4 as int) + s@.subrange(
            j4 as int,
            j5 as int,
        ) + s@.subrange(j5 as int, j6 as int));
        assert(s@.subrange(i as int, j6 as int) =~= json_of_entry_head(
            printer_name@,
            ip_address@,
            views(files_available@),
        ));
        assert forall|pn: Seq<char>, ip: Seq<char>, files: Seq<Seq<char>>, e: int|
            #[trigger] head_at(s@, i as int, e, pn, ip, files) implies j6 == e && views(
            files_available@,
        ) == files by {
            assert(head_pieces(s@, i as int, e, pn, ip, files));
            assert(string_array_at(s@, j5 as int, e, files));
        }
    }
    Some((printer_name, ip_address, files_available, j6))
}

/// Consumes one snapshot entry object at `i`: sound, and wherever an entry
/// stands it succeeds with exactly that entry and end.
#[verifier::rlimit(100)]
#[verifier::spinoff_prover]
fn parse_entry(s: &str, i: usize) -> (r: Option<(PrinterStatus, usize)>)
    requires
        i <= s@.len(),
    ensures
        r is Some ==> i < (r->0).1 <= s@.len() && s@.subrange(i as int, (r->0).1 as int)
            == json_of_entry((r->0).0@),
        forall|m: StatusModel, e: int|
            #[trigger] entry_at(s@, i as int, e, m) ==> r is Some && (r->0).1 == e && (r->0).0@
                == m,
{
    proof {
        assert forall|m: StatusModel, e: int|
            #[trigger] entry_at(s@, i as int, e, m) implies entry_pieces(s@, i as int, e, m) by {
            lemma_entry_decompose(s@, i as int, e, m);
        }
    }
    let (printer_name, ip_address, files_available, j6) = match parse_entry_head(s, i) {
        Some(p) => p,
        None => {
            proof {
                assert forall|m: StatusModel, e: int|
                    !entry_at(s@, i as int, e, m) by {
                    if entry_at(s@, i as int, e, m) {
                        assert(entry_pieces(s@, i as int, e, m));
                        assert(head_at(
                            s@,
                            i as int,
                            i + json_of_entry_head(
                                m.printer_name,
                                m.ip_address,
                                m.files_available,
                            ).len(),
                            m.printer_name,
                            m.ip_address,
                            m.files_available,
                        ));
                    }
                }
            }
            return None;
        },
    };
    proof {
        assert forall|m: StatusModel, e: int|
            #[trigger] entry_at(s@, i as int, e, m) implies j6 == i + json_of_entry_head(
            m.printer_name,
            m.ip_address,
            m.files_available,
        ).len() && printer_name@ == m.printer_name && ip_address@ == m.ip_address && views(
            files_available@,
        ) == m.files_available by {
            assert(entry_pieces(s@, i as int, e, m));
            assert(head_at(
                s@,
                i as int,
                i + json_of_entry_head(m.printer_name, m.ip_address, m.files_available).len(),
                m.printer_name,
                m.ip_address,
                m.files_available,
            ));
        }
    }
    let j7 = match parse_lit(s, j6, ",\"progress\":") {
        Some(j) => j,
        None => {
            proof {
                assert forall|m: StatusModel, e: int|
                    !entry_at(s@, i as int, e, m) by {
                    if entry_at(s@, i as int, e, m) {
                        assert(entry_pieces(s@, i as int, e, m));
                    }
                }
            }
            return None;
        },
    };
    let (progress, j8) = match parse_quoted(s, j7) {
        Some(p) => p,
        None => {
            proof {
                assert forall|m: StatusModel, e: int|
                    !entry_at(s@, i as int, e, m) by {
                    if entry_at(s@, i as int, e, m) {
                        assert(entry_pieces(s@, i as int, e, m));
                        assert(quoted_at(
                            s@,
                            j7 as int,
                            j7 + json_string(m.progress).len(),
                            m.progress,
                        ));
                    }
                }
            }
            return None;
        },
    };
    proof {
        assert forall|m: StatusModel, e: int|
            #[trigger] entry_at(s@, i as int, e, m) implies j8 == j7
            + json_string(m.progress).len() && progress@ == m.progress by {
            assert(entry_pieces(s@, i as int, e, m));
            assert(quoted_at(s@, j7 as int, j7 + json_string(m.progress).len(), m.progress));
        }
    }
    let j9 = match parse_lit(s, j8, ",\"paused\":") {
        Some(j) => j,
        None => {
            proof {
                assert forall|m: StatusModel, e: int|
                    !entry_at(s@, i as int, e, m) by {
                    if entry_at(s@, i as int, e, m) {
                        assert(entry_pieces(s@, i as int, e, m));
                    }
                }
            }
            return None;
        },
    };
    proof {
        reveal_strlit("true");
        reveal_strlit("false");
    }
    let (paused, j10) = match parse_lit(s, j9, "true") {
        Some(j) => {
            proof {
                assert forall|m: StatusModel, e: int|
                    #[trigger] entry_at(s@, i as int, e, m) implies m.paused && j == j9
                    + json_bool(m.paused).len() by {
                    assert(entry_pieces(s@, i as int, e, m));
                    if !m.paused {
                        assert(s@.subrange(j9 as int, j9 + "false"@.len())[0] == s@[j9 as int]);
                        assert(s@.subrange(j9 as int, j as int)[0] == s@[j9 as int]);
                        assert("false"@[0] == 'f' && "true"@[0] == 't');
                        assert(false);
                    }
                }
            }
            (true, j)
        },
        None => match parse_lit(s, j9, "false") {
            Some(j) => {
                proof {
                    assert forall|m: StatusModel, e: int|
                        #[trigger] entry_at(s@, i as int, e, m) implies !m.paused && j == j9
                        + json_bool(m.paused).len() by {
                        assert(entry_pieces(s@, i as int, e, m));
                        if m.paused {
                            assert(j9 + "true"@.len() <= j9 + json_bool(m.paused).len()
                                <= s@.len());
                        }
                    }
                }
                (false, j)
            },
            None => {
                proof {
                    assert forall|m: StatusModel, e: int|
                        !entry_at(s@, i as int, e, m) by {
                        if entry_at(s@, i as int, e, m) {
                            assert(entry_pieces(s@, i as int, e, m));
                        }
                    }
                }
                return None;
            },
        },
    };
    let j11 = match parse_lit(s, j10, "}") {
        Some(j) => j,
        None => {
            proof {
                assert forall|m: StatusModel, e: int|
                    !entry_at(s@, i as int, e, m) by {
                    if entry_at(s@, i as int, e, m) {
                        assert(entry_pieces(s@, i as int, e, m));
                    }
                }
            }
            return None;
        },
    };
    let entry = PrinterStatus { printer_name, ip_address, files_available, progress, paused };
    proof {
        assert(s@.subrange(j9 as int, j10 as int) == json_bool(entry.paused));
        assert(s@.subrange(i as int, j11 as int) =~= s@.subrange(i as int, j6 as int)
            + s@.subrange(j6 as int, j7 as int) + s@.subrange(j7 as int, j8 as int) + s@.subrange(
            j8 as int,
            j9 as int,
        ) + s@.subrange(j9 as int, j10 as int) + s@.subrange(j10 as int, j11 as int));
        assert(s@.subrange(i as int, j11 as int) =~= json_of_entry(entry@));
        assert forall|m: StatusModel, e: int|
            #[trigger] entry_at(s@, i as int, e, m) implies j11 == e && entry@ == m by {
            assert(entry_pieces(s@, i as int, e, m));
            assert(entry@ =~= m);
        }
    }
    Some((entry, j11))
}

/// The shape of a serialized snapshot: bracketed, with the joined entries
/// inside.
proof fn lemma_snapshot_shape(s: Seq<char>, ys: Seq<StatusModel>)
    requires
        s == json_of_snapshot(ys),
    ensures
        s.len() >= 2,
        s[0] == '[',
        s[s.len() - 1] == ']',
        s.subrange(1, s.len() - 1) == join_comma(
            ys.map_values(|y: StatusModel| json_of_entry(y)),
        ),
        ys.len() == 0 ==> s.len() == 2,
        ys.len() > 0 ==> s.len() > 2,
{
    let m = ys.map_values(|y: StatusModel| json_of_entry(y));
    assert(json_of_snapshot(ys) =~= seq!['['] + (join_comma(m) + seq![']']));
    assert(s.subrange(0, s.len() as int) =~= s);
    lemma_subrange_split(s, 0, s.len() as int, seq!['['], join_comma(m) + seq![']']);
    lemma_subrange_split(s, 1, s.len() as int, join_comma(m), seq![']']);
    assert(s[s.len() - 1] == ']') by {
        assert(s.subrange(1 + join_comma(m).len() as int, s.len() as int)[0] == s[1 + join_comma(
            m,
        ).len() as int]);
    }
    if ys.len() > 0 {
        assert(json_of_entry(ys[0]).len() > 0) by {
            reveal_strlit("}");
            assert("}"@.len() == 1);
        }
        if m.len() == 1 {
            assert(join_comma(m) == m[0]);
            assert(m[0] == json_of_entry(ys[0]));
        } else {
            lemma_join_front(m);
            assert(m[0] == json_of_entry(ys[0]));
            assert(join_comma(m).len() >= m[0].len());
        }
    }
}

/// One entry of the joined tail stands at `j0`, and what follows it is the
/// rest of the join.
proof fn lemma_snapshot_step(s: Seq<char>, j0: int, k: int, ys: Seq<StatusModel>)
    requires
        s == json_of_snapshot(ys),
        0 <= k < ys.len(),
        1 <= j0 <= s.len() - 1,
        s.subrange(j0, s.len() - 1) == join_comma(
            ys.map_values(|y: StatusModel| json_of_entry(y)).subrange(k, ys.len() as int),
        ),
    ensures
        entry_at(s, j0, j0 + json_of_entry(ys[k]).len(), ys[k]),
        k + 1 == ys.len() ==> j0 + json_of_entry(ys[k]).len() == s.len() - 1,
        k + 1 < ys.len() ==> j0 + json_of_entry(ys[k]).len() < s.len() - 1 && s.subrange(
            j0 + json_of_entry(ys[k]).len(),
            s.len() - 1,
        ) == seq![','] + join_comma(
            ys.map_values(|y: StatusModel| json_of_entry(y)).subrange(k + 1, ys.len() as int),
        ),
{
    let m = ys.map_values(|y: StatusModel| json_of_entry(y));
    let rest = m.subrange(k, ys.len() as int);
    if rest.len() == 1 {
        assert(join_comma(rest) == rest[0]);
        assert(rest[0] == m[k]);
        assert(m[k] == json_of_entry(ys[k]));
        assert(s.subrange(j0, s.len() - 1) == json_of_entry(ys[k]));
        assert(s.len() - 1 == j0 + json_of_entry(ys[k]).len());
    } else {
        lemma_join_front(rest);
        assert(rest[0] == json_of_entry(ys[k]));
        assert(join_comma(rest) =~= json_of_entry(ys[k]) + (seq![','] + join_comma(
            rest.subrange(1, rest.len() as int),
        )));
        lemma_subrange_split(
            s,
            j0,
            s.len() - 1,
            json_of_entry(ys[k]),
            seq![','] + join_comma(rest.subrange(1, rest.len() as int)),
        );
        assert(rest.subrange(1, rest.len() as int) =~= m.subrange(k + 1, ys.len() as int));
        assert(j0 + json_of_entry(ys[k]).len() < s.len() - 1) by {
            assert(s.subrange(j0 + json_of_entry(ys[k]).len(), s.len() - 1).len() >= 1);
        }
    }
}

/// Parses the canonical snapshot encoding, and nothing else: whenever this
/// returns a snapshot, serializing it again with `snapshot_to_json` yields
/// the input text byte for byte — and on every canonically serialized
/// snapshot it succeeds, with exactly the serialized entries. Re-parsing a
/// serialized snapshot and re-serializing it is therefore the identity on
/// the text.
#[verifier::rlimit(100)]
#[verifier::spinoff_prover]
pub fn snapshot_from_json(s: &str) -> (r: Option<Vec<PrinterStatus>>)
    ensures
        r is Some ==> json_of_snapshot(models((r->0)@)) == s@,
        forall|ys: Seq<StatusModel>|
            s@ == #[trigger] json_of_snapshot(ys) ==> r is Some && models((r->0)@) == ys,
{
    let n = s.unicode_len();
    if n < 2 || s.get_char(0) != '[' {
        proof {
            assert forall|ys: Seq<StatusModel>| s@ != #[trigger] json_of_snapshot(ys) by {
                if s@ == json_of_snapshot(ys) {
                    lemma_snapshot_shape(s@, ys);
                }
            }
        }
        return None;
    }
    let mut es: Vec<PrinterStatus> = Vec::new();
    if n == 2 {
        if s.get_char(1) == ']' {
            proof {
                let q = models(es@).map_values(|e: StatusModel| json_of_entry(e));
                assert(q =~= Seq::<Seq<char>>::empty());
                assert(json_of_snapshot(models(es@)) =~= s@);
                assert forall|ys: Seq<StatusModel>|
                    s@ == #[trigger] json_of_snapshot(ys) implies models(es@) == ys by {
                    lemma_snapshot_shape(s@, ys);
                    assert(ys.len() == 0);
                    assert(models(es@) =~= ys);
                }
            }
            return Some(es);
        }
        proof {
            assert forall|ys: Seq<StatusModel>| s@ != #[trigger] json_of_snapshot(ys) by {
                if s@ == json_of_snapshot(ys) {
                    lemma_snapshot_shape(s@, ys);
                    assert(ys.len() == 0);
                }
            }
        }
        return None;
    }
    let mut j: usize = 1;
    proof {
        assert forall|ys: Seq<StatusModel>|
            s@ == #[trigger] json_of_snapshot(ys) implies ys.len() > 0 && j < n - 1 && models(es@)
            == ys.subrange(0, 0) && s@.subrange(j as int, n - 1) == join_comma(
            ys.map_values(|y: StatusModel| json_of_entry(y)).subrange(0, ys.len() as int),
        ) by {
            lemma_snapshot_shape(s@, ys);
            let m = ys.map_values(|y: StatusModel| json_of_entry(y));
            assert(m.subrange(0, ys.len() as int) =~= m);
            assert(models(es@) =~= ys.subrange(0, 0));
        }
    }
    loop
        invariant
            1 <= j <= n,
            n == s@.len(),
            2 < n,
            s@[0] == '[',
            join_comma(models(es@).map_values(|e: StatusModel| json_of_entry(e))) == s@.subrange(
                1,
                j as int,
            ),
            es@.len() == 0 ==> j == 1,
            forall|ys: Seq<StatusModel>|
                s@ == #[trigger] json_of_snapshot(ys) ==> ys.len() > 0 && es@.len() <= ys.len()
                    && models(es@) == ys.subrange(0, es@.len() as int) && (es@.len() == ys.len()
                    ==> j == n - 1) && (es@.len() < ys.len() ==> j < n - 1 && s@.subrange(
                    (if es@.len() == 0 {
                        j as int
                    } else {
                        j + 1
                    }),
                    n - 1,
                ) == join_comma(
                    ys.map_values(|y: StatusModel| json_of_entry(y)).subrange(
                        es@.len() as int,
                        ys.len() as int,
                    ),
                ) && (es@.len() > 0 ==> s@[j as int] == ',')),
        decreases n - j,
    {
        if es.len() > 0 {
            if j >= n {
                proof {
                    assert forall|ys: Seq<StatusModel>| s@ != #[trigger] json_of_snapshot(ys) by {
                        if s@ == json_of_snapshot(ys) {
                            assert(j <= n - 1);
                        }
                    }
                }
                return None;
            }
            let c = s.get_char(j);
            if c == ']' {
                if j + 1 == n {
                    proof {
                        let q = models(es@).map_values(|e: StatusModel| json_of_entry(e));
                        assert(s@ =~= seq!['['] + join_comma(q) + seq![']']);
                        assert forall|ys: Seq<StatusModel>|
                            s@ == #[trigger] json_of_snapshot(ys) implies models(es@) == ys by {
                            assert(es@.len() == ys.len());
                            assert(models(es@) =~= ys);
                        }
                    }
                    return Some(es);
                }
                proof {
                    assert forall|ys: Seq<StatusModel>| s@ != #[trigger] json_of_snapshot(ys) by {
                        if s@ == json_of_snapshot(ys) {
                            assert(es@.len() == ys.len());
                            assert(j == n - 1);
                        }
                    }
                }
                return None;
            } else if c != ',' {
                proof {
                    assert forall|ys: Seq<StatusModel>| s@ != #[trigger] json_of_snapshot(ys) by {
                        if s@ == json_of_snapshot(ys) {
                            if es@.len() == ys.len() {
                                lemma_snapshot_shape(s@, ys);
                            }
                        }
                    }
                }
                return None;
            }
            let jc = j + 1;
            proof {
                assert forall|ys: Seq<StatusModel>|
                    s@ == #[trigger] json_of_snapshot(ys) implies es@.len() < ys.len() && entry_at(
                    s@,
                    jc as int,
                    jc + json_of_entry(ys[es@.len() as int]).len(),
                    ys[es@.len() as int],
                ) by {
                    assert(es@.len() < ys.len()) by {
                        if es@.len() == ys.len() {
                            lemma_snapshot_shape(s@, ys);
                        }
                    }
                    lemma_snapshot_step(s@, jc as int, es@.len() as int, ys);
                }
            }
            match parse_entry(s, jc) {
                Some((x, j2)) => {
                    let ghost old_es = es@;
                    proof {
                        assert(s@.subrange(jc as int, j2 as int) == json_of_entry(x@));
                    }
                    es.push(x);
                    proof {
                        let f = |e: StatusModel| json_of_entry(e);
                        let q0 = models(old_es).map_values(f);
                        let q = models(es@).map_values(f);
                        assert(models(es@) =~= models(old_es).push(es@.last()@));
                        assert(q =~= q0.push(json_of_entry(es@.last()@)));
                        assert(q.drop_last() =~= q0);
                        assert(q.len() >= 2);
                        assert(join_comma(q) == join_comma(q0) + seq![','] + q.last());
                        assert(s@.subrange(1, j2 as int) =~= s@.subrange(1, j as int) + seq![',']
                            + s@.subrange(jc as int, j2 as int));
                        assert(join_comma(q) =~= s@.subrange(1, j2 as int));
                        assert forall|ys: Seq<StatusModel>|
                            s@ == #[trigger] json_of_snapshot(ys) implies es@.len() <= ys.len()
                            && models(es@) == ys.subrange(0, es@.len() as int) && (es@.len()
                            == ys.len() ==> j2 == n - 1) && (es@.len() < ys.len() ==> j2 < n - 1
                            && s@.subrange(j2 + 1, n - 1) == join_comma(
                            ys.map_values(f).subrange(es@.len() as int, ys.len() as int),
                        ) && s@[j2 as int] == ',') by {
                            let k = old_es.len() as int;
                            lemma_snapshot_step(s@, jc as int, k, ys);
                            assert(j2 == jc + json_of_entry(ys[k]).len() && x@ == ys[k]);
                            assert(models(es@) =~= ys.subrange(0, k + 1)) by {
                                assert(models(old_es) == ys.subrange(0, k));
                                assert(forall|p: int|
                                    0 <= p < k ==> #[trigger] models(es@)[p] == models(old_es)[p]);
                                assert(models(es@)[k] == x@);
                                assert(ys.subrange(0, k + 1)[k] == ys[k]);
                                assert(forall|p: int|
                                    0 <= p < k ==> #[trigger] ys.subrange(0, k + 1)[p]
                                        == ys.subrange(0, k)[p]);
                            }
                            if k + 1 < ys.len() {
                                lemma_subrange_split(
                                    s@,
                                    j2 as int,
                                    n - 1,
                                    seq![','],
                                    join_comma(
                                        ys.map_values(f).subrange(k + 1, ys.len() as int),
                                    ),
                                );
                                assert(s@[j2 as int] == ',') by {
                                    assert(s@.subrange(j2 as int, j2 + 1)[0] == s@[j2 as int]);
                                }
                            }
                        }
                    }
                    j = j2;
                },
                None => {
                    proof {
                        assert forall|ys: Seq<StatusModel>|
                            s@ != #[trigger] json_of_snapshot(ys) by {
                            if s@ == json_of_snapshot(ys) {
                                assert(entry_at(
                                    s@,
                                    jc as int,
                                    jc + json_of_entry(ys[es@.len() as int]).len(),
                                    ys[es@.len() as int],
                                ));
                            }
                        }
                    }
                    return None;
                },
            }
        } else {
            proof {
                assert forall|ys: Seq<StatusModel>|
                    s@ == #[trigger] json_of_snapshot(ys) implies ys.len() > 0 && entry_at(
                    s@,
                    j as int,
                    j + json_of_entry(ys[0]).len(),
                    ys[0],
                ) by {
                    lemma_snapshot_step(s@, j as int, 0, ys);
                }
            }
            match parse_entry(s, j) {
                Some((x, j2)) => {
                    proof {
                        assert(s@.subrange(j as int, j2 as int) == json_of_entry(x@));
                    }
                    es.push(x);
                    proof {
                        let f = |e: StatusModel| json_of_entry(e);
                        let q = models(es@).map_values(f);
                        assert(models(es@) =~= seq![es@[0]@]);
                        assert(q =~= seq![json_of_entry(es@[0]@)]);
                        assert(join_comma(q) == q[0]);
                        assert(join_comma(q) =~= s@.subrange(1, j2 as int));
                        assert forall|ys: Seq<StatusModel>|
                            s@ == #[trigger] json_of_snapshot(ys) implies es@.len() <= ys.len()
                            && models(es@) == ys.subrange(0, es@.len() as int) && (es@.len()
                            == ys.len() ==> j2 == n - 1) && (es@.len() < ys.len() ==> j2 < n - 1
                            && s@.subrange(j2 + 1, n - 1) == join_comma(
                            ys.map_values(f).subrange(es@.len() as int, ys.len() as int),
                        ) && s@[j2 as int] == ',') by {
                            lemma_snapshot_step(s@, j as int, 0, ys);
                            assert(j2 == j + json_of_entry(ys[0]).len() && x@ == ys[0]);
                            assert(models(es@) =~= ys.subrange(0, 1)) by {
                                assert(ys.subrange(0, 1)[0] == ys[0]);
                            }
                            if 1 < ys.len() {
                                lemma_subrange_split(
                                    s@,
                                    j2 as int,
                                    n - 1,
                                    seq![','],
                                    join_comma(ys.map_values(f).subrange(1, ys.len() as int)),
                                );
                                assert(s@[j2 as int] == ',') by {
                                    assert(s@.subrange(j2 as int, j2 + 1)[0] == s@[j2 as int]);
                                }
                            }
                        }
                    }
                    j = j2;
                },
                None => {
                    proof {
                        assert forall|ys: Seq<StatusModel>|
                            s@ != #[trigger] json_of_snapshot(ys) by {
                            if s@ == json_of_snapshot(ys) {
                                assert(entry_at(
                                    s@,
                                    j as int,
                                    j + json_of_entry(ys[0]).len(),
                                    ys[0],
                                ));
                            }
                        }
                    }
                    return None;
                },
            }
        }
    }
}

} // verus!
