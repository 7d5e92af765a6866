//! The line model and the two search functions: a text is split into lines at
//! `'\n'`, and a line is kept when it contains the query as a contiguous
//! substring (after lowercasing both, in the case-insensitive variant).

use vstd::prelude::*;
use crate::config::Config;

verus! {

/// The lines of a text: the pieces between `'\n'` separators, in order.
/// A text that ends in a newline has no empty final line, and the empty
/// text has no lines at all.
pub open spec fn lines_of(s: Seq<char>) -> Seq<Seq<char>>
    decreases s.len(),
{
    if s.len() == 0 {
        Seq::empty()
    } else if s[0] == '\n' {
        seq![Seq::<char>::empty()] + lines_of(s.drop_first())
    } else {
        prepend_to_first(s[0], lines_of(s.drop_first()))
    }
}

/// Push a character onto the front of the first line, creating that line if
/// there is none yet.
pub open spec fn prepend_to_first(c: char, rest: Seq<Seq<char>>) -> Seq<Seq<char>> {
    if rest.len() == 0 {
        seq![seq![c]]
    } else {
        seq![seq![c] + rest[0]] + rest.drop_first()
    }
}

/// The query occurs in `l` starting at character index `i`.
pub open spec fn contains_at(l: Seq<char>, q: Seq<char>, i: int) -> bool {
    0 <= i && i + q.len() <= l.len() && l.subrange(i, i + q.len()) == q
}

/// The query occurs somewhere in `l` as a contiguous substring.
pub open spec fn contains_seq(l: Seq<char>, q: Seq<char>) -> bool {
    exists|i: int| contains_at(l, q, i)
}

/// The lines kept by a case-sensitive search for `q`.
pub open spec fn matches_pred(q: Seq<char>) -> spec_fn(Seq<char>) -> bool {
    |l: Seq<char>| contains_seq(l, q)
}

/// What `search` returns: the lines of `c` that contain `q`, in order.
pub open spec fn search_spec(q: Seq<char>, c: Seq<char>) -> Seq<Seq<char>> {
    lines_of(c).filter(matches_pred(q))
}

/// The lowercase form of a text, as `str::to_lowercase` computes it.
pub uninterp spec fn lower_of(s: Seq<char>) -> Seq<char>;

/// Relies on str::to_lowercase: the lowercase form depends on the characters
/// alone, and an empty string stays empty.
#[verifier::external_body]
fn lowercase(s: &str) -> (r: String)
    ensures
        r@ == lower_of(s@),
        s@.len() == 0 ==> r@.len() == 0,
{
    s.to_lowercase()
}

/// The lines kept by a case-insensitive search for `q`: those whose
/// lowercase form contains the lowercase form of `q`.
pub open spec fn ci_matches_pred(q: Seq<char>) -> spec_fn(Seq<char>) -> bool {
    |l: Seq<char>| contains_seq(lower_of(l), lower_of(q))
}

/// What `search_case_insensitive` returns: the lines of `c` (with their
/// original casing) whose lowercase form contains the lowercase form of `q`,
/// in order.
pub open spec fn search_ci_spec(q: Seq<char>, c: Seq<char>) -> Seq<Seq<char>> {
    lines_of(c).filter(ci_matches_pred(q))
}

/// The lines of a text whose already-read prefix ended with the partial line
/// `cur`: `cur` is glued onto the front of the first remaining line, and is a
/// line of its own when nothing remains (unless it is empty).
pub open spec fn glue_line(cur: Seq<char>, rest: Seq<Seq<char>>) -> Seq<Seq<char>> {
    if rest.len() == 0 {
        if cur.len() == 0 {
            Seq::empty()
        } else {
            seq![cur]
        }
    } else {
        seq![cur + rest[0]] + rest.drop_first()
    }
}

/// Reading a newline ends the current partial line: it becomes a whole line,
/// and the partial line starts over empty.
proof fn lemma_glue_newline(cur: Seq<char>, t: Seq<char>)
    requires
        t.len() > 0,
        t[0] == '\n',
    ensures
        glue_line(cur, lines_of(t)) == seq![cur] + glue_line(Seq::empty(), lines_of(t.drop_first())),
{
    let rest = lines_of(t.drop_first());
    assert(lines_of(t) == seq![Seq::<char>::empty()] + rest);
    if rest.len() == 0 {
        assert(glue_line(cur, lines_of(t)) =~~= seq![cur] + glue_line(Seq::empty(), rest));
    } else {
        assert(glue_line(Seq::empty(), rest) =~~= rest);
        assert(glue_line(cur, lines_of(t)) =~~= seq![cur] + rest);
    }
}

/// Reading an ordinary character extends the current partial line.
proof fn lemma_glue_char(cur: Seq<char>, t: Seq<char>)
    requires
        t.len() > 0,
        t[0] != '\n',
    ensures
        glue_line(cur, lines_of(t)) == glue_line(cur.push(t[0]), lines_of(t.drop_first())),
{
    let rest = lines_of(t.drop_first());
    assert(lines_of(t) == prepend_to_first(t[0], rest));
    if rest.len() == 0 {
        assert(cur + seq![t[0]] =~= cur.push(t[0]));
        assert(glue_line(cur, lines_of(t)) =~~= glue_line(cur.push(t[0]), rest));
    } else {
        assert(cur + (seq![t[0]] + rest[0]) =~= cur.push(t[0]) + rest[0]);
        assert(glue_line(cur, lines_of(t)) =~~= glue_line(cur.push(t[0]), rest));
    }
}

/// Filtering a sequence extended by one element keeps the element exactly
/// when the predicate holds of it.
proof fn lemma_filter_push<A>(s: Seq<A>, pred: spec_fn(A) -> bool, x: A)
    ensures
        s.push(x).filter(pred) == if pred(x) {
            s.filter(pred).push(x)
        } else {
            s.filter(pred)
        },
{
    reveal(Seq::filter);
    let t = s.push(x);
    assert(t.drop_last() =~= s);
    assert(t.last() == x);
    assert(t.len() > 0);
    if pred(x) {
        assert(t.filter(pred) == s.filter(pred).push(x));
    } else {
        assert(t.filter(pred) == s.filter(pred));
    }
}

/// Does `query` occur in `line` starting at character index `at`?
pub(crate) fn matches_at(line: &str, query: &str, qlen: usize, at: usize) -> (b: bool)
    requires
        qlen == query@.len(),
        at + qlen <= line@.len(),
        line@.len() <= usize::MAX,
    ensures
        b == contains_at(line@, query@, at as int),
{
    let mut j: usize = 0;
    while j < qlen
        invariant
            qlen == query@.len(),
            at + qlen <= line@.len(),
            line@.len() <= usize::MAX,
            0 <= j <= qlen,
            forall|k: int| 0 <= k < j ==> line@[at + k] == query@[k],
        decreases qlen - j,
    {
        if line.get_char(at + j) != query.get_char(j) {
            assert(!contains_at(line@, query@, at as int)) by {
                if line@.subrange(at as int, at + qlen) == query@ {
                    assert(line@.subrange(at as int, at + qlen)[j as int] == line@[at + j]);
                }
            };
            return false;
        }
        j += 1;
    }
    assert(line@.subrange(at as int, at + qlen) =~= query@);
    true
}

/// Does `query` occur anywhere in `line`? `qlen` is the character count of
/// `query`, precomputed by the caller.
pub(crate) fn contains_str(line: &str, query: &str, qlen: usize) -> (b: bool)
    requires
        qlen == query@.len(),
    ensures
        b == contains_seq(line@, query@),
{
    let llen = line.unicode_len();
    if qlen == 0 {
        assert(contains_at(line@, query@, 0)) by {
            assert(line@.subrange(0, 0) =~= query@);
        };
        return true;
    }
    if qlen > llen {
        assert(!contains_seq(line@, query@)) by {
            assert(forall|i: int| !contains_at(line@, query@, i));
        };
        return false;
    }
    let end = llen - qlen;
    let mut i: usize = 0;
    while i <= end
        invariant
            qlen == query@.len(),
            llen == line@.len(),
            0 < qlen <= llen,
            end == llen - qlen,
            0 <= i <= end + 1,
            forall|k: int| 0 <= k < i ==> !contains_at(line@, query@, k),
        decreases end + 1 - i,
    {
        if matches_at(line, query, qlen, i) {
            assert(contains_seq(line@, query@));
            return true;
        }
        i += 1;
    }
    assert(!contains_seq(line@, query@)) by {
        assert forall|k: int| !contains_at(line@, query@, k) by {
            if 0 <= k < i {
                assert(!contains_at(line@, query@, k));
            } else if k > end {
                assert(k + qlen > llen);
            }
        }
    };
    false
}

/// Case-sensitive search: exactly the lines of `contents` that contain
/// `query` as a contiguous substring, in their original order.
pub fn search<'a>(query: &str, contents: &'a str) -> (res: Vec<&'a str>)
    ensures
        res.deep_view() == search_spec(query@, contents@),
{
    let qlen = query.unicode_len();
    let clen = contents.unicode_len();
    let mut res: Vec<&'a str> = Vec::new();
    let mut start: usize = 0;
    let mut i: usize = 0;
    let ghost pred = matches_pred(query@);
    let ghost mut done: Seq<Seq<char>> = Seq::empty();
    proof {
        reveal(Seq::filter);
        assert(res.deep_view() =~= done.filter(pred));
        assert(contents@.subrange(0, 0) =~= Seq::<char>::empty());
        assert(contents@.skip(0) =~= contents@);
        let l0 = lines_of(contents@);
        if l0.len() == 0 {
            assert(done + glue_line(Seq::<char>::empty(), l0) =~= l0);
        } else {
            assert(glue_line(Seq::<char>::empty(), l0) =~~= l0);
            assert(done + l0 =~= l0);
        }
    }
    while i < clen
        invariant
            qlen == query@.len(),
            clen == contents@.len(),
            0 <= start <= i <= clen,
            pred == matches_pred(query@),
            lines_of(contents@) == done + glue_line(
                contents@.subrange(start as int, i as int),
                lines_of(contents@.skip(i as int)),
            ),
            res.deep_view() == done.filter(pred),
        decreases clen - i,
    {
        let ghost cur = contents@.subrange(start as int, i as int);
        proof {
            assert(contents@.skip(i as int).drop_first() =~= contents@.skip(i as int + 1));
        }
        if contents.get_char(i) == '\n' {
            let line = contents.substring_char(start, i);
            proof {
                lemma_glue_newline(cur, contents@.skip(i as int));
                lemma_filter_push(done, pred, cur);
                assert(pred(cur) == contains_seq(cur, query@));
            }
            let ghost prev = res.deep_view();
            if contains_str(line, query, qlen) {
                res.push(line);
                proof {
                    assert(res.deep_view() =~= prev.push(cur));
                }
            }
            proof {
                let g = glue_line(Seq::<char>::empty(), lines_of(contents@.skip(i as int + 1)));
                assert(done + (seq![cur] + g) =~= done.push(cur) + g);
                done = done.push(cur);
                assert(lines_of(contents@) == done + g);
            }
            start = i + 1;
            proof {
                assert(contents@.subrange(start as int, i as int + 1) =~= Seq::<char>::empty());
            }
        } else {
            proof {
                lemma_glue_char(cur, contents@.skip(i as int));
                assert(cur.push(contents@[i as int]) =~= contents@.subrange(
                    start as int,
                    i as int + 1,
                ));
            }
        }
        i += 1;
    }
    let ghost cur = contents@.subrange(start as int, clen as int);
    proof {
        assert(contents@.skip(clen as int) =~= Seq::<char>::empty());
        assert(lines_of(Seq::<char>::empty()) == Seq::<Seq<char>>::empty());
    }
    if start < clen {
        let line = contents.substring_char(start, clen);
        proof {
            lemma_filter_push(done, pred, cur);
            assert(pred(cur) == contains_seq(cur, query@));
        }
        let ghost prev = res.deep_view();
        if contains_str(line, query, qlen) {
            res.push(line);
            proof {
                assert(res.deep_view() =~= prev.push(cur));
            }
        }
        proof {
            assert(glue_line(cur, Seq::<Seq<char>>::empty()) =~= seq![cur]);
            assert(done + seq![cur] =~= done.push(cur));
            done = done.push(cur);
            assert(lines_of(contents@) == done);
        }
    } else {
        proof {
            assert(glue_line(cur, Seq::<Seq<char>>::empty()) =~= Seq::<Seq<char>>::empty());
            assert(done + Seq::<Seq<char>>::empty() =~= done);
            assert(lines_of(contents@) == done);
        }
    }
    res
}

/// Case-insensitive search: exactly the lines of `contents` whose lowercase
/// form contains the lowercase form of `query`, in their original order and
/// with their original casing.
pub fn search_case_insensitive<'a>(query: &str, contents: &'a str) -> (res: Vec<&'a str>)
    ensures
        res.deep_view() == search_ci_spec(query@, contents@),
{
    let lq = lowercase(query);
    let lqlen = lq.unicode_len();
    let clen = contents.unicode_len();
    let mut res: Vec<&'a str> = Vec::new();
    let mut start: usize = 0;
    let mut i: usize = 0;
    let ghost pred = ci_matches_pred(query@);
    let ghost mut done: Seq<Seq<char>> = Seq::empty();
    proof {
        reveal(Seq::filter);
        assert(res.deep_view() =~= done.filter(pred));
        assert(contents@.subrange(0, 0) =~= Seq::<char>::empty());
        assert(contents@.skip(0) =~= contents@);
        let l0 = lines_of(contents@);
        if l0.len() == 0 {
            assert(done + glue_line(Seq::<char>::empty(), l0) =~= l0);
        } else {
            assert(glue_line(Seq::<char>::empty(), l0) =~~= l0);
            assert(done + l0 =~= l0);
        }
    }
    while i < clen
        invariant
            lq@ == lower_of(query@),
            lqlen == lq@.len(),
            clen == contents@.len(),
            0 <= start <= i <= clen,
            pred == ci_matches_pred(query@),
            lines_of(contents@) == done + glue_line(
                contents@.subrange(start as int, i as int),
                lines_of(contents@.skip(i as int)),
            ),
            res.deep_view() == done.filter(pred),
        decreases clen - i,
    {
        let ghost cur = contents@.subrange(start as int, i as int);
        proof {
            assert(contents@.skip(i as int).drop_first() =~= contents@.skip(i as int + 1));
        }
        if contents.get_char(i) == '\n' {
            let line = contents.substring_char(start, i);
            proof {
                lemma_glue_newline(cur, contents@.skip(i as int));
                lemma_filter_push(done, pred, cur);
                assert(pred(cur) == contains_seq(lower_of(cur), lower_of(query@)));
            }
            let lline = lowercase(line);
            let ghost prev = res.deep_view();
            if contains_str(lline.as_str(), lq.as_str(), lqlen) {
                res.push(line);
                proof {
                    assert(res.deep_view() =~= prev.push(cur));
                }
            }
            proof {
                let g = glue_line(Seq::<char>::empty(), lines_of(contents@.skip(i as int + 1)));
                assert(done + (seq![cur] + g) =~= done.push(cur) + g);
                done = done.push(cur);
                assert(lines_of(contents@) == done + g);
            }
            start = i + 1;
            proof {
                assert(contents@.subrange(start as int, i as int + 1) =~= Seq::<char>::empty());
            }
        } else {
            proof {
                lemma_glue_char(cur, contents@.skip(i as int));
                assert(cur.push(contents@[i as int]) =~= contents@.subrange(
                    start as int,
                    i as int + 1,
                ));
            }
        }
        i += 1;
    }
    let ghost cur = contents@.subrange(start as int, clen as int);
    proof {
        assert(contents@.skip(clen as int) =~= Seq::<char>::empty());
        assert(lines_of(Seq::<char>::empty()) == Seq::<Seq<char>>::empty());
    }
    if start < clen {
        let line = contents.substring_char(start, clen);
        proof {
            lemma_filter_push(done, pred, cur);
            assert(pred(cur) == contains_seq(lower_of(cur), lower_of(query@)));
        }
        let lline = lowercase(line);
        let ghost prev = res.deep_view();
        if contains_str(lline.as_str(), lq.as_str(), lqlen) {
            res.push(line);
            proof {
                assert(res.deep_view() =~= prev.push(cur));
            }
        }
        proof {
            assert(glue_line(cur, Seq::<Seq<char>>::empty()) =~= seq![cur]);
            assert(done + seq![cur] =~= done.push(cur));
            done = done.push(cur);
            assert(lines_of(contents@) == done);
        }
    } else {
        proof {
            assert(glue_line(cur, Seq::<Seq<char>>::empty()) =~= Seq::<Seq<char>>::empty());
            assert(done + Seq::<Seq<char>>::empty() =~= done);
            assert(lines_of(contents@) == done);
        }
    }
    res
}

/// The matching lines for a request: found case-sensitively or not, as the
/// request says.
pub fn matching_lines<'a>(config: &Config, contents: &'a str) -> (res: Vec<&'a str>)
    ensures
        config.case_sensitive ==> res.deep_view() == search_spec(config.query@, contents@),
        !config.case_sensitive ==> res.deep_view() == search_ci_spec(config.query@, contents@),
{
    if config.case_sensitive {
        search(config.query.as_str(), contents)
    } else {
        search_case_insensitive(config.query.as_str(), contents)
    }
}

/// Filtering keeps a sequence whole when the predicate holds of every
/// element.
proof fn lemma_filter_all<A>(s: Seq<A>, pred: spec_fn(A) -> bool)
    requires
        forall|i: int| 0 <= i < s.len() ==> pred(#[trigger] s[i]),
    ensures
        s.filter(pred) == s,
    decreases s.len(),
{
    reveal(Seq::filter);
    if s.len() == 0 {
        assert(s.filter(pred) =~= s);
    } else {
        assert forall|i: int| 0 <= i < s.drop_last().len() implies pred(
            #[trigger] s.drop_last()[i],
        ) by {
            assert(s.drop_last()[i] == s[i]);
        }
        lemma_filter_all(s.drop_last(), pred);
        assert(pred(s.last()));
        assert(s.filter(pred) == s.drop_last().push(s.last()));
        assert(s.drop_last().push(s.last()) =~= s);
    }
}

/// An empty query is contained in every line, so a case-sensitive search
/// with it returns all lines of the content.
pub proof fn lemma_empty_query_returns_all_lines(c: Seq<char>)
    ensures
        search_spec(Seq::empty(), c) == lines_of(c),
{
    let q = Seq::<char>::empty();
    let pred = matches_pred(q);
    assert forall|i: int| 0 <= i < lines_of(c).len() implies pred(#[trigger] lines_of(c)[i]) by {
        let l = lines_of(c)[i];
        assert(l.subrange(0, 0) =~= q);
        assert(contains_at(l, q, 0));
    }
    lemma_filter_all(lines_of(c), pred);
}

/// A case-sensitive search is a pure function of its inputs: two runs on the
/// same query and content give the same result.
pub proof fn lemma_search_deterministic(q: Seq<char>, c: Seq<char>, r1: Seq<Seq<char>>, r2: Seq<Seq<char>>)
    requires
        r1 == search_spec(q, c),
        r2 == search_spec(q, c),
    ensures
        r1 == r2,
{
}

/// A case-insensitive search is a pure function of its inputs: two runs on
/// the same query and content give the same result.
pub proof fn lemma_search_case_insensitive_deterministic(
    q: Seq<char>,
    c: Seq<char>,
    r1: Seq<Seq<char>>,
    r2: Seq<Seq<char>>,
)
    requires
        r1 == search_ci_spec(q, c),
        r2 == search_ci_spec(q, c),
    ensures
        r1 == r2,
{
}

} // verus!
