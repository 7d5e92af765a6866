//! Highlighting: the non-overlapping places where the query occurs within a
//! matching line, the split of the line into plain and matched segments, and
//! the rendering of a line with the matched spans styled for the terminal.

use vstd::prelude::*;
use colored::Colorize;
use crate::search::contains_at;
use crate::search::contains_seq;
use crate::search::matches_at;

verus! {

/// The starting positions of the non-overlapping occurrences of `q` in `l`,
/// scanning left to right from `from` and skipping past each occurrence.
pub open spec fn positions_from(l: Seq<char>, q: Seq<char>, from: int) -> Seq<int>
    decreases l.len() - from
        when 0 < q.len() && 0 <= from
{
    if from + q.len() > l.len() {
        Seq::empty()
    } else if l.subrange(from, from + q.len()) == q {
        seq![from] + positions_from(l, q, from + q.len())
    } else {
        positions_from(l, q, from + 1)
    }
}

/// Where highlighting paints: the non-overlapping occurrences of `q` in `l`,
/// found left to right. Nothing is painted for an empty query.
pub open spec fn highlight_positions(l: Seq<char>, q: Seq<char>) -> Seq<int> {
    if q.len() == 0 {
        Seq::empty()
    } else {
        positions_from(l, q, 0)
    }
}

/// A sequence of machine integers, read as mathematical ones.
pub open spec fn to_int_seq(s: Seq<usize>) -> Seq<int> {
    s.map_values(|p: usize| p as int)
}

/// Every highlight position is a real occurrence of the query: it lies after
/// `from`, the query is there in full, and successive occurrences do not
/// overlap.
pub proof fn lemma_positions_are_matches(l: Seq<char>, q: Seq<char>, from: int)
    requires
        0 < q.len(),
        0 <= from,
    ensures
        forall|k: int| 0 <= k < positions_from(l, q, from).len() ==> from <= #[trigger] positions_from(l, q, from)[k],
        forall|k: int| 0 <= k < positions_from(l, q, from).len() ==> contains_at(l, q, #[trigger] positions_from(l, q, from)[k]),
        forall|k: int| 0 < k < positions_from(l, q, from).len() ==> #[trigger] positions_from(l, q, from)[k - 1] + q.len() <= positions_from(l, q, from)[k],
    decreases l.len() - from,
{
    let ps = positions_from(l, q, from);
    if from + q.len() > l.len() {
    } else if l.subrange(from, from + q.len()) == q {
        lemma_positions_are_matches(l, q, from + q.len());
        let rest = positions_from(l, q, from + q.len());
        assert(ps == seq![from] + rest);
        assert(contains_at(l, q, from));
        assert forall|k: int| 0 <= k < ps.len() implies from <= #[trigger] ps[k]
            && contains_at(l, q, ps[k]) by {
            if k > 0 {
                assert(ps[k] == rest[k - 1]);
            }
        }
        assert forall|k: int| 0 < k < ps.len() implies #[trigger] ps[k - 1] + q.len() <= ps[k] by {
            assert(ps[k] == rest[k - 1]);
            if k > 1 {
                assert(ps[k - 1] == rest[k - 2]);
            }
        }
    } else {
        lemma_positions_are_matches(l, q, from + 1);
        let rest = positions_from(l, q, from + 1);
        assert(ps == rest);
        assert forall|k: int| 0 <= k < ps.len() implies from <= #[trigger] ps[k] && contains_at(
            l,
            q,
            ps[k],
        ) by {
            assert(rest[k] == ps[k]);
            assert(from + 1 <= rest[k]);
            assert(contains_at(l, q, rest[k]));
        }
        assert forall|k: int| 0 < k < ps.len() implies #[trigger] ps[k - 1] + q.len() <= ps[k] by {
            assert(rest[k] == ps[k]);
            assert(rest[k - 1] == ps[k - 1]);
            assert(rest[k - 1] + q.len() <= rest[k]);
        }
    }
}

/// A scan that found nothing is right: no occurrence of the query starts at
/// or after `from`.
proof fn lemma_no_positions_no_match(l: Seq<char>, q: Seq<char>, from: int)
    requires
        0 < q.len(),
        0 <= from,
        positions_from(l, q, from).len() == 0,
    ensures
        forall|i: int| i >= from ==> !contains_at(l, q, i),
    decreases l.len() - from,
{
    if from + q.len() > l.len() {
        assert forall|i: int| i >= from implies !contains_at(l, q, i) by {
            assert(i + q.len() > l.len());
        }
    } else if l.subrange(from, from + q.len()) == q {
        assert(positions_from(l, q, from).len() > 0);
    } else {
        lemma_no_positions_no_match(l, q, from + 1);
        assert forall|i: int| i >= from implies !contains_at(l, q, i) by {
            if i == from {
                assert(!contains_at(l, q, from));
            }
        }
    }
}

/// A line that contains the query gets at least one highlighted span — a
/// match at the very start or the very end of the line included.
pub proof fn lemma_match_is_highlighted(l: Seq<char>, q: Seq<char>)
    requires
        0 < q.len(),
        contains_seq(l, q),
    ensures
        highlight_positions(l, q).len() > 0,
{
    if positions_from(l, q, 0).len() == 0 {
        lemma_no_positions_no_match(l, q, 0);
        let i = choose|i: int| contains_at(l, q, i);
        assert(!contains_at(l, q, i));
    }
}

/// The character indices where highlighting paints `query` within `line`.
pub fn match_positions(line: &str, query: &str) -> (r: Vec<usize>)
    ensures
        to_int_seq(r@) == highlight_positions(line@, query@),
{
    let qlen = query.unicode_len();
    let llen = line.unicode_len();
    let mut r: Vec<usize> = Vec::new();
    if qlen == 0 {
        proof {
            assert(to_int_seq(r@) =~= Seq::<int>::empty());
        }
        return r;
    }
    if qlen > llen {
        proof {
            assert(positions_from(line@, query@, 0) == Seq::<int>::empty());
            assert(to_int_seq(r@) =~= Seq::<int>::empty());
        }
        return r;
    }
    let mut from: usize = 0;
    while from <= llen - qlen
        invariant
            qlen == query@.len(),
            llen == line@.len(),
            0 < qlen <= llen,
            0 <= from,
            positions_from(line@, query@, 0) == to_int_seq(r@) + positions_from(
                line@,
                query@,
                from as int,
            ),
        decreases llen - from,
    {
        let ghost prev = to_int_seq(r@);
        if matches_at(line, query, qlen, from) {
            r.push(from);
            proof {
                assert(line@.subrange(from as int, from + qlen) == query@);
                assert(to_int_seq(r@) =~= prev.push(from as int));
                let rest = positions_from(line@, query@, from + qlen);
                assert(positions_from(line@, query@, from as int) == seq![from as int] + rest);
                assert(prev + (seq![from as int] + rest) =~= prev.push(from as int) + rest);
            }
            from = from + qlen;
        } else {
            proof {
                assert(!(line@.subrange(from as int, from + qlen) == query@));
                assert(positions_from(line@, query@, from as int) == positions_from(
                    line@,
                    query@,
                    from as int + 1,
                ));
            }
            from = from + 1;
        }
    }
    proof {
        assert(positions_from(line@, query@, from as int) == Seq::<int>::empty());
        assert(to_int_seq(r@) + Seq::<int>::empty() =~= to_int_seq(r@));
    }
    r
}

/// One piece of a line prepared for display: either plain text between
/// matches, or one occurrence of the query.
pub struct Segment<'a> {
    pub text: &'a str,
    pub is_match: bool,
}

/// The split of `l` into alternating plain and marked pieces, given the
/// ascending, non-overlapping match positions `ps` and the query length
/// `qlen`; `last` is where the plain piece before the next match begins.
pub open spec fn segments_from(l: Seq<char>, qlen: int, ps: Seq<int>, last: int) -> Seq<
    (Seq<char>, bool),
>
    decreases ps.len(),
{
    if ps.len() == 0 {
        seq![(l.subrange(last, l.len() as int), false)]
    } else {
        seq![(l.subrange(last, ps[0]), false), (l.subrange(ps[0], ps[0] + qlen), true)]
            + segments_from(l, qlen, ps.drop_first(), ps[0] + qlen)
    }
}

/// How a line is split for display: the plain pieces around the occurrences
/// of the query, and the occurrences themselves, marked.
pub open spec fn segments_of(l: Seq<char>, q: Seq<char>) -> Seq<(Seq<char>, bool)> {
    segments_from(l, q.len() as int, highlight_positions(l, q), 0)
}

/// Split `line` into its plain and matched pieces, in display order.
pub fn line_segments<'a>(line: &'a str, query: &str) -> (segs: Vec<Segment<'a>>)
    ensures
        segs@.len() == segments_of(line@, query@).len(),
        forall|k: int| 0 <= k < segs@.len() ==> (#[trigger] segs@[k]).text@ == segments_of(
            line@,
            query@,
        )[k].0 && segs@[k].is_match == segments_of(line@, query@)[k].1,
{
    let qlen = query.unicode_len();
    let llen = line.unicode_len();
    let positions = match_positions(line, query);
    let ghost ps = highlight_positions(line@, query@);
    proof {
        if qlen > 0 {
            lemma_positions_are_matches(line@, query@, 0);
        }
        assert(ps.skip(0) =~= ps);
    }
    let mut segs: Vec<Segment<'a>> = Vec::new();
    let ghost mut built: Seq<(Seq<char>, bool)> = Seq::empty();
    let mut last: usize = 0;
    let mut k: usize = 0;
    while k < positions.len()
        invariant
            qlen == query@.len(),
            llen == line@.len(),
            ps == highlight_positions(line@, query@),
            to_int_seq(positions@) == ps,
            positions@.len() > 0 ==> 0 < qlen,
            0 <= k <= positions@.len(),
            k == 0 ==> last == 0,
            k > 0 ==> last == ps[k - 1] + qlen,
            last <= llen,
            forall|j: int| 0 <= j < ps.len() ==> 0 <= #[trigger] ps[j] && ps[j] + qlen <= llen,
            forall|j: int| 0 < j < ps.len() ==> #[trigger] ps[j - 1] + qlen <= ps[j],
            segments_of(line@, query@) == built + segments_from(
                line@,
                qlen as int,
                ps.skip(k as int),
                last as int,
            ),
            built.len() == segs@.len(),
            forall|j: int| 0 <= j < built.len() ==> (#[trigger] segs@[j]).text@ == built[j].0
                && segs@[j].is_match == built[j].1,
        decreases positions@.len() - k,
    {
        let p = positions[k];
        proof {
            assert(to_int_seq(positions@)[k as int] == positions@[k as int] as int);
            assert(p as int == ps[k as int]);
            if k > 0 {
                assert(ps[k as int - 1] + qlen <= ps[k as int]);
            }
            assert(last <= p as int);
            assert(p + qlen <= llen);
        }
        let plain = line.substring_char(last, p);
        let matched = line.substring_char(p, p + qlen);
        segs.push(Segment { text: plain, is_match: false });
        segs.push(Segment { text: matched, is_match: true });
        proof {
            let tail = ps.skip(k as int);
            assert(tail.len() > 0);
            assert(tail[0] == ps[k as int]);
            assert(tail.drop_first() =~= ps.skip(k as int + 1));
            let piece = seq![
                (line@.subrange(last as int, p as int), false),
                (line@.subrange(p as int, p + qlen), true),
            ];
            assert(segments_from(line@, qlen as int, tail, last as int) == piece + segments_from(
                line@,
                qlen as int,
                ps.skip(k as int + 1),
                p + qlen,
            ));
            assert(built + (piece + segments_from(
                line@,
                qlen as int,
                ps.skip(k as int + 1),
                p + qlen,
            )) =~= (built + piece) + segments_from(
                line@,
                qlen as int,
                ps.skip(k as int + 1),
                p + qlen,
            ));
            built = built + piece;
        }
        last = p + qlen;
        k = k + 1;
    }
    let tail = line.substring_char(last, llen);
    segs.push(Segment { text: tail, is_match: false });
    proof {
        assert(ps.skip(k as int) =~= Seq::<int>::empty());
        assert(segments_from(line@, qlen as int, Seq::<int>::empty(), last as int) == seq![
            (line@.subrange(last as int, llen as int), false),
        ]);
        assert(built + seq![(line@.subrange(last as int, llen as int), false)] =~= built.push(
            (line@.subrange(last as int, llen as int), false),
        ));
        built = built.push((line@.subrange(last as int, llen as int), false));
        assert(segments_of(line@, query@) == built);
    }
    segs
}

/// Helper for the law below: given that every listed position is a real
/// occurrence of the query, every marked piece of the split is the query.
proof fn lemma_segments_from_marked(l: Seq<char>, qlen: int, ps: Seq<int>, last: int, q: Seq<char>)
    requires
        qlen == q.len(),
        forall|j: int| 0 <= j < ps.len() ==> contains_at(l, q, #[trigger] ps[j]),
    ensures
        forall|k: int|
            0 <= k < segments_from(l, qlen, ps, last).len() && (#[trigger] segments_from(
                l,
                qlen,
                ps,
                last,
            )[k]).1 ==> segments_from(l, qlen, ps, last)[k].0 == q,
    decreases ps.len(),
{
    if ps.len() > 0 {
        assert forall|j: int| 0 <= j < ps.drop_first().len() implies contains_at(
            l,
            q,
            #[trigger] ps.drop_first()[j],
        ) by {
            assert(ps.drop_first()[j] == ps[j + 1]);
        }
        lemma_segments_from_marked(l, qlen, ps.drop_first(), ps[0] + qlen, q);
        let segs = segments_from(l, qlen, ps, last);
        let rest = segments_from(l, qlen, ps.drop_first(), ps[0] + qlen);
        assert(contains_at(l, q, ps[0]));
        assert(l.subrange(ps[0], ps[0] + qlen) == q);
        assert forall|k: int| 0 <= k < segs.len() && (#[trigger] segs[k]).1 implies segs[k].0
            == q by {
            if k >= 2 {
                assert(segs[k] == rest[k - 2]);
            }
        }
    }
}

/// Every marked segment of a split line is exactly the query: the painted
/// span is delimited precisely at an occurrence of the query, at the very
/// start or very end of the line included.
pub proof fn lemma_marked_segments_are_the_query(l: Seq<char>, q: Seq<char>)
    requires
        0 < q.len(),
    ensures
        forall|k: int|
            0 <= k < segments_of(l, q).len() && (#[trigger] segments_of(l, q)[k]).1
                ==> segments_of(l, q)[k].0 == q,
{
    lemma_positions_are_matches(l, q, 0);
    lemma_segments_from_marked(l, q.len() as int, highlight_positions(l, q), 0, q);
}

/// No escape character anywhere in the text.
pub open spec fn esc_free(s: Seq<char>) -> bool {
    forall|i: int| 0 <= i < s.len() ==> s[i] != '\u{1b}'
}

/// Relies on colored::Colorize (bold, then red) and ColoredString's Display:
/// when the input holds no escape character, the result is the input with an
/// escape prefix and suffix possibly added (or the input alone, when the
/// environment has colors switched off). An input with escape characters may
/// be rewritten inside, and what the affixes look like depends on the
/// terminal environment, so no more is promised.
#[verifier::external_body]
fn style_match(s: &str) -> (r: String)
    ensures
        esc_free(s@) ==> exists|pre: Seq<char>, post: Seq<char>| r@ == pre + s@ + post,
{
    s.bold().red().to_string()
}

/// A text built around the query contains it.
proof fn lemma_contains_within(a: Seq<char>, q: Seq<char>, b: Seq<char>)
    ensures
        contains_seq(a + q + b, q),
{
    let s = a + q + b;
    assert(s.subrange(a.len() as int, a.len() as int + q.len() as int) =~= q);
    assert(contains_at(s, q, a.len() as int));
}

/// A substring witness survives appending text on the right.
proof fn lemma_contains_extend(a: Seq<char>, q: Seq<char>, b: Seq<char>)
    requires
        contains_seq(a, q),
    ensures
        contains_seq(a + b, q),
{
    let i = choose|i: int| contains_at(a, q, i);
    assert((a + b).subrange(i, i + q.len()) =~= q);
    assert(contains_at(a + b, q, i));
}

/// A line rendered for display: the matched spans styled, the plain spans as
/// they are. A line in which the query is not highlighted anywhere comes
/// back unchanged; one with a highlighted span still shows the query
/// somewhere, as long as the line holds no escape character of its own.
pub fn render_line(line: &str, query: &str) -> (r: String)
    ensures
        highlight_positions(line@, query@).len() == 0 ==> r@ == line@,
        highlight_positions(line@, query@).len() > 0 && esc_free(line@) ==> contains_seq(
            r@,
            query@,
        ),
{
    let ghost hp = highlight_positions(line@, query@);
    let segs = line_segments(line, query);
    proof {
        if hp.len() == 0 {
            assert(segments_of(line@, query@) == seq![
                (line@.subrange(0, line@.len() as int), false),
            ]);
            assert(line@.subrange(0, line@.len() as int) =~= line@);
        } else {
            assert(query@.len() > 0);
            lemma_positions_are_matches(line@, query@, 0);
            lemma_marked_segments_are_the_query(line@, query@);
            assert(segments_of(line@, query@)[1].1);
            if esc_free(line@) {
                let p = hp[0];
                assert(contains_at(line@, query@, p));
                assert forall|i: int| 0 <= i < query@.len() implies query@[i] != '\u{1b}' by {
                    assert(query@[i] == line@.subrange(p, p + query@.len())[i]);
                }
            }
        }
    }
    let mut out = String::new();
    let mut k: usize = 0;
    while k < segs.len()
        invariant
            hp == highlight_positions(line@, query@),
            hp.len() == 0 ==> segs@.len() == 1 && segs@[0].text@ == line@ && !segs@[0].is_match,
            0 <= k <= segs@.len(),
            hp.len() == 0 && k == 0 ==> out@ == Seq::<char>::empty(),
            hp.len() == 0 && k == 1 ==> out@ == line@,
            hp.len() > 0 ==> segs@.len() >= 2 && segs@[1].is_match,
            hp.len() > 0 ==> forall|j: int|
                0 <= j < segs@.len() && (#[trigger] segs@[j]).is_match ==> segs@[j].text@
                    == query@,
            hp.len() > 0 && esc_free(line@) ==> esc_free(query@),
            hp.len() > 0 && esc_free(line@) && k > 1 ==> contains_seq(out@, query@),
        decreases segs@.len() - k,
    {
        let ghost prev = out@;
        if segs[k].is_match {
            let styled = style_match(segs[k].text);
            out.append(styled.as_str());
            proof {
                if hp.len() > 0 && esc_free(line@) {
                    let (pre, post) = choose|pre: Seq<char>, post: Seq<char>| styled@ == pre
                        + query@ + post;
                    assert(out@ =~= (prev + pre) + query@ + post);
                    lemma_contains_within(prev + pre, query@, post);
                }
            }
        } else {
            out.append(segs[k].text);
            proof {
                if hp.len() > 0 && esc_free(line@) && k > 1 {
                    lemma_contains_extend(prev, query@, segs@[k as int].text@);
                }
            }
        }
        k = k + 1;
    }
    out
}

} // verus!
