//! The line highlighter.
//!
//! Rendering a line collects every rule match as a span, sorts the spans by
//! start position (ties broken by collection order, which is rule declaration
//! order), then walks them with a cursor: a span that starts at or after the
//! cursor is rendered (plain text up to it, its style code, the matched text,
//! the reset code) and moves the cursor to its end; a span that starts before
//! the cursor is dropped whole. Zero-length and out-of-range matches are
//! discarded before sorting.

use crate::ansi::{ansi_strip, code_invisible, esc_free, lemma_strip_concat, lemma_strip_plain};
use crate::rules::{lemma_matches_from_ok, matches_from, Rule, RuleSet};
use crate::style::{append_bytes, lemma_sgr1_invisible, reset_code, reset_code_spec};
use vstd::prelude::*;
use vstd::slice::{slice_subrange, slice_to_vec};

verus! {

/// One retained rule match against one line: a half-open byte range, the
/// style code to wrap it in, and its position in collection order.
pub struct Span {
    /// Byte offset where the match starts.
    pub start: usize,
    /// Byte offset just past the match.
    pub end: usize,
    /// Position in collection order, the tie-break for equal starts.
    pub tag: usize,
    /// The style code of the rule that produced the match.
    pub style: Vec<u8>,
}

/// The mathematical form of a span.
pub ghost struct SpanV {
    pub start: int,
    pub end: int,
    pub tag: int,
    pub style: Seq<u8>,
}

impl View for Span {
    type V = SpanV;

    open spec fn view(&self) -> SpanV {
        SpanV {
            start: self.start as int,
            end: self.end as int,
            tag: self.tag as int,
            style: self.style@,
        }
    }
}

pub open spec fn spans_view(s: Seq<Span>) -> Seq<SpanV> {
    s.map_values(|x: Span| x@)
}

/// `line[a..b]` where the range is valid, nothing otherwise.
pub open spec fn slice_of(line: Seq<u8>, a: int, b: int) -> Seq<u8> {
    if 0 <= a <= b <= line.len() {
        line.subrange(a, b)
    } else {
        Seq::empty()
    }
}

/// The matches retained from one rule: in range and of positive length.
pub open spec fn kept(ms: Seq<(usize, usize)>, n: int) -> Seq<(usize, usize)>
    decreases ms.len(),
{
    if ms.len() == 0 {
        Seq::empty()
    } else {
        let pre = kept(ms.drop_last(), n);
        if ms.last().0 < ms.last().1 && ms.last().1 <= n {
            pre.push(ms.last())
        } else {
            pre
        }
    }
}

/// The retained matches of one rule, each carrying the rule's style code.
pub open spec fn with_style(ms: Seq<(usize, usize)>, style: Seq<u8>) -> Seq<(int, int, Seq<u8>)> {
    ms.map_values(|m: (usize, usize)| (m.0 as int, m.1 as int, style))
}

/// All retained matches of all rules, in rule order and match order.
pub open spec fn collect_spec(rs: Seq<(Seq<char>, Seq<u8>)>, line: Seq<u8>) -> Seq<
    (int, int, Seq<u8>),
>
    decreases rs.len(),
{
    if rs.len() == 0 {
        Seq::empty()
    } else {
        collect_spec(rs.drop_last(), line) + with_style(
            kept(matches_from(rs.last().0, line, 0), line.len() as int),
            rs.last().1,
        )
    }
}

/// Tags each collected match with its collection position.
pub open spec fn tag_spans(c: Seq<(int, int, Seq<u8>)>) -> Seq<SpanV> {
    Seq::new(c.len(), |i: int| SpanV { start: c[i].0, end: c[i].1, tag: i, style: c[i].2 })
}

/// Span order: by start position, ties by collection position.
pub open spec fn key_le(a: SpanV, b: SpanV) -> bool {
    a.start < b.start || (a.start == b.start && a.tag <= b.tag)
}

/// Insertion into a sorted span sequence, after every entry it does not
/// strictly precede.
pub open spec fn insert_sorted(s: Seq<SpanV>, x: SpanV) -> Seq<SpanV>
    decreases s.len(),
{
    if s.len() == 0 {
        seq![x]
    } else if key_le(s.last(), x) {
        s.push(x)
    } else {
        insert_sorted(s.drop_last(), x).push(s.last())
    }
}

/// Insertion sort of the collected spans.
pub open spec fn sort_spans_spec(s: Seq<SpanV>) -> Seq<SpanV>
    decreases s.len(),
{
    if s.len() == 0 {
        s
    } else {
        insert_sorted(sort_spans_spec(s.drop_last()), s.last())
    }
}

/// The rendered output from span `i` on, with everything before `cursor`
/// already emitted: a span starting at or after the cursor contributes the
/// plain text before it, its style code, the matched text and the reset code;
/// any other span is dropped whole.
pub open spec fn render_from(line: Seq<u8>, spans: Seq<SpanV>, i: int, cursor: int) -> Seq<u8>
    decreases spans.len() - i,
{
    if i >= spans.len() {
        slice_of(line, cursor, line.len() as int)
    } else if 0 <= i {
        let s = spans[i];
        if s.start >= cursor {
            slice_of(line, cursor, s.start) + s.style + slice_of(line, s.start, s.end)
                + reset_code_spec() + render_from(line, spans, i + 1, s.end)
        } else {
            render_from(line, spans, i + 1, cursor)
        }
    } else {
        Seq::empty()
    }
}

/// The fully rendered line: collect, tag, sort, then walk with the cursor.
pub open spec fn render_spec(rs: Seq<(Seq<char>, Seq<u8>)>, line: Seq<u8>) -> Seq<u8> {
    render_from(line, sort_spans_spec(tag_spans(collect_spec(rs, line))), 0, 0)
}

proof fn lemma_tag_push(c: Seq<(int, int, Seq<u8>)>, t: (int, int, Seq<u8>))
    ensures
        tag_spans(c.push(t)) == tag_spans(c).push(
            SpanV { start: t.0, end: t.1, tag: c.len() as int, style: t.2 },
        ),
{
    assert(tag_spans(c.push(t)) =~= tag_spans(c).push(
        SpanV { start: t.0, end: t.1, tag: c.len() as int, style: t.2 },
    ));
}

/// Collects the retained matches of every rule over `line`, in rule order,
/// tagged with their collection position.
pub fn collect_spans(rules: &RuleSet, line: &[u8]) -> (spans: Vec<Span>)
    ensures
        spans_view(spans@) == tag_spans(collect_spec(rules@, line@)),
{
    let rvec = rules.rules();
    let mut spans: Vec<Span> = Vec::new();
    let mut ri: usize = 0;
    proof {
        assert(rules@.take(0) =~= Seq::<(Seq<char>, Seq<u8>)>::empty());
        assert(spans_view(spans@) =~= tag_spans(collect_spec(rules@.take(0), line@)));
    }
    while ri < rvec.len()
        invariant
            0 <= ri <= rvec.len(),
            rvec@.map_values(|rule: Rule| rule@) == rules@,
            spans_view(spans@) == tag_spans(collect_spec(rules@.take(ri as int), line@)),
        decreases rvec.len() - ri,
    {
        let rule = &rvec[ri];
        proof {
            assert(rvec@.map_values(|r: Rule| r@)[ri as int] == rvec@[ri as int]@);
        }
        let ms = rule.matches(line);
        let ghost pm = matches_from(rule@.0, line@, 0);
        let ghost base = collect_spec(rules@.take(ri as int), line@);
        let mut j: usize = 0;
        proof {
            lemma_matches_from_ok(rule@.0, line@, 0);
            assert(pm.take(0) =~= Seq::<(usize, usize)>::empty());
            assert(kept(pm.take(0), line@.len() as int) =~= Seq::<(usize, usize)>::empty());
            assert(with_style(kept(pm.take(0), line@.len() as int), rule@.1) =~= Seq::<
                (int, int, Seq<u8>),
            >::empty());
            assert(base + with_style(kept(pm.take(0), line@.len() as int), rule@.1) =~= base);
        }
        while j < ms.len()
            invariant
                0 <= j <= ms.len(),
                ms@ == pm,
                forall|t: int| 0 <= t < ms@.len() ==> ms@[t].0 <= ms@[t].1 && ms@[t].1 <= line@.len(),
                base == collect_spec(rules@.take(ri as int), line@),
                spans_view(spans@) == tag_spans(
                    base + with_style(kept(pm.take(j as int), line@.len() as int), rule@.1),
                ),
            decreases ms.len() - j,
        {
            let (s, e) = ms[j];
            let ghost cur = base + with_style(kept(pm.take(j as int), line@.len() as int), rule@.1);
            proof {
                assert(pm.take(j as int + 1).drop_last() =~= pm.take(j as int));
                assert(pm.take(j as int + 1).last() == pm[j as int]);
            }
            if s < e {
                let style = slice_to_vec(rule.style().as_slice());
                let tag = spans.len();
                proof {
                    assert(spans@.len() == spans_view(spans@).len());
                    assert(tag_spans(cur).len() == cur.len());
                }
                let ghost before = spans@;
                spans.push(Span { start: s, end: e, tag, style });
                proof {
                    let t = (s as int, e as int, rule@.1);
                    let x = SpanV { start: s as int, end: e as int, tag: cur.len() as int, style:
                        rule@.1 };
                    assert(kept(pm.take(j as int + 1), line@.len() as int) =~= kept(
                        pm.take(j as int),
                        line@.len() as int,
                    ).push(pm[j as int]));
                    assert(with_style(
                        kept(pm.take(j as int + 1), line@.len() as int),
                        rule@.1,
                    ) =~= with_style(kept(pm.take(j as int), line@.len() as int), rule@.1).push(t));
                    assert(base + with_style(
                        kept(pm.take(j as int + 1), line@.len() as int),
                        rule@.1,
                    ) =~= cur.push(t));
                    lemma_tag_push(cur, t);
                    assert(spans@ == before.push(Span { start: s, end: e, tag, style }));
                    assert(spans@[before.len() as int]@ == x);
                    assert(spans_view(spans@) =~= spans_view(before).push(x));
                    assert(spans_view(spans@) =~= tag_spans(
                        base + with_style(kept(pm.take(j as int + 1), line@.len() as int), rule@.1),
                    ));
                }
            } else {
                proof {
                    assert(kept(pm.take(j as int + 1), line@.len() as int) =~= kept(
                        pm.take(j as int),
                        line@.len() as int,
                    ));
                    assert(base + with_style(
                        kept(pm.take(j as int + 1), line@.len() as int),
                        rule@.1,
                    ) =~= cur);
                }
            }
            j = j + 1;
        }
        proof {
            assert(pm.take(j as int) =~= pm);
            assert(rules@.take(ri as int + 1).drop_last() =~= rules@.take(ri as int));
            assert(rules@.take(ri as int + 1).last() == rules@[ri as int]);
            assert(collect_spec(rules@.take(ri as int + 1), line@) == base + with_style(
                kept(pm, line@.len() as int),
                rule@.1,
            ));
        }
        ri = ri + 1;
    }
    proof {
        assert(rules@.take(ri as int) =~= rules@);
    }
    spans
}

fn key_le_exec(a: &Span, b: &Span) -> (r: bool)
    ensures
        r == key_le(a@, b@),
{
    a.start < b.start || (a.start == b.start && a.tag <= b.tag)
}

/// Where the scan in `insert_span` stops, inserting there is what
/// `insert_sorted` produces.
proof fn lemma_insert_at(s: Seq<SpanV>, x: SpanV, j: int)
    requires
        0 <= j <= s.len(),
        forall|m: int| j <= m < s.len() ==> !key_le(s[m], x),
        j > 0 ==> key_le(s[j - 1], x),
    ensures
        insert_sorted(s, x) == s.take(j) + seq![x] + s.skip(j),
    decreases s.len(),
{
    if j == s.len() {
        if s.len() == 0 {
            assert(insert_sorted(s, x) =~= s.take(j) + seq![x] + s.skip(j));
        } else {
            assert(key_le(s[j - 1], x));
            assert(s.last() == s[j - 1]);
            assert(s.push(x) =~= s.take(j) + seq![x] + s.skip(j));
        }
    } else {
        assert(!key_le(s[s.len() - 1], x));
        lemma_insert_at(s.drop_last(), x, j);
        assert(insert_sorted(s.drop_last(), x).push(s.last()) =~= s.take(j) + seq![x] + s.skip(j));
    }
}

/// Inserts `x` into `v`, which is sorted by `key_le`, keeping it sorted and
/// placing `x` after every entry it does not strictly precede.
fn insert_span(v: &mut Vec<Span>, x: Span)
    ensures
        spans_view(final(v)@) == insert_sorted(spans_view(old(v)@), x@),
{
    let mut j: usize = v.len();
    while j > 0 && !key_le_exec(&v[j - 1], &x)
        invariant
            0 <= j <= v@.len(),
            v@ == old(v)@,
            forall|m: int| j <= m < v@.len() ==> !key_le(spans_view(v@)[m], x@),
        decreases j,
    {
        proof {
            assert(spans_view(v@)[j - 1] == v@[j - 1]@);
        }
        j = j - 1;
    }
    proof {
        if j > 0 {
            assert(spans_view(v@)[j - 1] == v@[j - 1]@);
        }
        lemma_insert_at(spans_view(v@), x@, j as int);
    }
    let ghost before = v@;
    v.insert(j, x);
    proof {
        assert(spans_view(v@) =~= spans_view(before).take(j as int) + seq![x@] + spans_view(
            before,
        ).skip(j as int));
    }
}

/// Sorts the spans by start position, ties by collection position.
pub fn sort_spans(spans: Vec<Span>) -> (r: Vec<Span>)
    ensures
        spans_view(r@) == sort_spans_spec(spans_view(spans@)),
{
    let mut out: Vec<Span> = Vec::new();
    let mut i: usize = 0;
    proof {
        assert(spans_view(spans@.take(0)) =~= Seq::<SpanV>::empty());
        assert(spans_view(out@) =~= sort_spans_spec(spans_view(spans@.take(0))));
    }
    while i < spans.len()
        invariant
            0 <= i <= spans@.len(),
            spans_view(out@) == sort_spans_spec(spans_view(spans@.take(i as int))),
        decreases spans@.len() - i,
    {
        let sp = &spans[i];
        let copy = Span {
            start: sp.start,
            end: sp.end,
            tag: sp.tag,
            style: slice_to_vec(sp.style.as_slice()),
        };
        proof {
            assert(copy@ == spans@[i as int]@);
            assert(spans_view(spans@.take(i as int + 1)).drop_last() =~= spans_view(
                spans@.take(i as int),
            ));
            assert(spans_view(spans@.take(i as int + 1)).last() == spans@[i as int]@);
            assert(spans_view(spans@.take(i as int + 1)).len() > 0);
        }
        insert_span(&mut out, copy);
        i = i + 1;
    }
    proof {
        assert(spans@.take(i as int) =~= spans@);
    }
    out
}

/// Renders the sorted spans over the line with the greedy cursor walk.
fn render_spans(line: &[u8], spans: &Vec<Span>) -> (out: Vec<u8>)
    requires
        forall|k: int|
            0 <= k < spans@.len() ==> #[trigger] spans@[k]@.start <= spans@[k]@.end
                && spans@[k]@.end <= line@.len(),
    ensures
        out@ == render_from(line@, spans_view(spans@), 0, 0),
{
    let ghost sv = spans_view(spans@);
    let mut out: Vec<u8> = Vec::new();
    let mut cursor: usize = 0;
    let mut i: usize = 0;
    proof {
        assert(out@ + render_from(line@, sv, 0, 0) =~= render_from(line@, sv, 0, 0));
    }
    while i < spans.len()
        invariant
            0 <= i <= spans@.len(),
            sv == spans_view(spans@),
            forall|k: int|
                0 <= k < spans@.len() ==> #[trigger] spans@[k]@.start <= spans@[k]@.end
                    && spans@[k]@.end <= line@.len(),
            0 <= cursor <= line@.len(),
            render_from(line@, sv, 0, 0) == out@ + render_from(line@, sv, i as int, cursor as int),
        decreases spans@.len() - i,
    {
        let sp = &spans[i];
        proof {
            assert(sv[i as int] == spans@[i as int]@);
            assert(spans@[i as int]@.start <= spans@[i as int]@.end && spans@[i as int]@.end
                <= line@.len());
        }
        if sp.start >= cursor {
            let ghost before = out@;
            append_bytes(&mut out, slice_subrange(line, cursor, sp.start));
            append_bytes(&mut out, sp.style.as_slice());
            append_bytes(&mut out, slice_subrange(line, sp.start, sp.end));
            let rc = reset_code();
            append_bytes(&mut out, rc.as_slice());
            proof {
                assert(slice_of(line@, cursor as int, sv[i as int].start) == line@.subrange(
                    cursor as int,
                    sv[i as int].start,
                ));
                assert(slice_of(line@, sv[i as int].start, sv[i as int].end) == line@.subrange(
                    sv[i as int].start,
                    sv[i as int].end,
                ));
                assert(out@ =~= before + (slice_of(line@, cursor as int, sv[i as int].start)
                    + sv[i as int].style + slice_of(line@, sv[i as int].start, sv[i as int].end)
                    + reset_code_spec()));
                assert(before + (slice_of(line@, cursor as int, sv[i as int].start)
                    + sv[i as int].style + slice_of(line@, sv[i as int].start, sv[i as int].end)
                    + reset_code_spec()) + render_from(line@, sv, i as int + 1, sv[i as int].end)
                    =~= before + render_from(line@, sv, i as int, cursor as int));
            }
            cursor = sp.end;
        }
        i = i + 1;
    }
    let tail = slice_subrange(line, cursor, line.len());
    append_bytes(&mut out, tail);
    proof {
        assert(render_from(line@, sv, i as int, cursor as int) == slice_of(
            line@,
            cursor as int,
            line@.len() as int,
        ));
        assert(slice_of(line@, cursor as int, line@.len() as int) == line@.subrange(
            cursor as int,
            line@.len() as int,
        ));
    }
    out
}

/// Every match is in range and of positive length.
pub open spec fn matches_ok(ms: Seq<(usize, usize)>, n: int) -> bool {
    forall|k: int| 0 <= k < ms.len() ==> (#[trigger] ms[k]).0 < ms[k].1 && ms[k].1 <= n
}

/// Every retained match is in range and of positive length.
pub proof fn lemma_kept_ok(ms: Seq<(usize, usize)>, n: int)
    ensures
        matches_ok(kept(ms, n), n),
    decreases ms.len(),
{
    if ms.len() > 0 {
        lemma_kept_ok(ms.drop_last(), n);
        let pre = kept(ms.drop_last(), n);
        assert forall|k: int| 0 <= k < kept(ms, n).len() implies (#[trigger] kept(ms, n)[k]).0
            < kept(ms, n)[k].1 && kept(ms, n)[k].1 <= n by {
            if k < pre.len() {
                assert(kept(ms, n)[k] == pre[k]);
            }
        }
    }
}

/// A span the pipeline may hand to the renderer: in range over a line of
/// length `n`.
pub open spec fn span_in_range(s: SpanV, n: int) -> bool {
    0 <= s.start <= s.end <= n
}

pub open spec fn all_in_range(s: Seq<SpanV>, n: int) -> bool {
    forall|k: int| 0 <= k < s.len() ==> span_in_range(#[trigger] s[k], n)
}

/// Every collected span is in range.
pub proof fn lemma_collect_ok(rs: Seq<(Seq<char>, Seq<u8>)>, line: Seq<u8>)
    ensures
        all_in_range(tag_spans(collect_spec(rs, line)), line.len() as int),
    decreases rs.len(),
{
    let n = line.len() as int;
    let c = collect_spec(rs, line);
    if rs.len() > 0 {
        lemma_collect_ok(rs.drop_last(), line);
        let pre = collect_spec(rs.drop_last(), line);
        let ms = kept(matches_from(rs.last().0, line, 0), n);
        lemma_kept_ok(matches_from(rs.last().0, line, 0), n);
        assert forall|k: int| 0 <= k < tag_spans(c).len() implies span_in_range(
            #[trigger] tag_spans(c)[k],
            n,
        ) by {
            if k < pre.len() {
                assert(c[k] == pre[k]);
                assert(span_in_range(tag_spans(pre)[k], n));
            } else {
                assert(c[k] == with_style(ms, rs.last().1)[k - pre.len()]);
                assert(ms[k - pre.len()].0 < ms[k - pre.len()].1 && ms[k - pre.len()].1 <= n);
            }
        }
    }
}

/// Insertion keeps every entry in range.
proof fn lemma_insert_in_range(s: Seq<SpanV>, x: SpanV, n: int)
    requires
        all_in_range(s, n),
        span_in_range(x, n),
    ensures
        all_in_range(insert_sorted(s, x), n),
    decreases s.len(),
{
    if s.len() == 0 {
    } else if key_le(s.last(), x) {
    } else {
        assert(all_in_range(s.drop_last(), n)) by {
            assert(forall|k: int| 0 <= k < s.drop_last().len() ==> s.drop_last()[k] == s[k]);
        }
        lemma_insert_in_range(s.drop_last(), x, n);
        let res = insert_sorted(s.drop_last(), x).push(s.last());
        assert forall|k: int| 0 <= k < res.len() implies span_in_range(#[trigger] res[k], n) by {
            if k < res.len() - 1 {
                assert(res[k] == insert_sorted(s.drop_last(), x)[k]);
            } else {
                assert(res[k] == s.last());
            }
        }
    }
}

/// Sorting keeps every entry in range.
pub proof fn lemma_sort_in_range(s: Seq<SpanV>, n: int)
    requires
        all_in_range(s, n),
    ensures
        all_in_range(sort_spans_spec(s), n),
    decreases s.len(),
{
    if s.len() > 0 {
        assert(all_in_range(s.drop_last(), n)) by {
            assert(forall|k: int| 0 <= k < s.drop_last().len() ==> s.drop_last()[k] == s[k]);
        }
        lemma_sort_in_range(s.drop_last(), n);
        lemma_insert_in_range(sort_spans_spec(s.drop_last()), s.last(), n);
    }
}

/// No-match passthrough: when no rule's pattern has a positive-length match
/// anywhere in the line, the rendered output is the line itself.
pub proof fn lemma_no_match_passthrough(rs: Seq<(Seq<char>, Seq<u8>)>, line: Seq<u8>)
    requires
        forall|i: int|
            0 <= i < rs.len() ==> matches_from((#[trigger] rs[i]).0, line, 0).len() == 0,
    ensures
        render_spec(rs, line) == line,
{
    lemma_collect_empty(rs, line);
    assert(tag_spans(collect_spec(rs, line)) =~= Seq::<SpanV>::empty());
    assert(sort_spans_spec(Seq::<SpanV>::empty()) == Seq::<SpanV>::empty());
    assert(render_spec(rs, line) == slice_of(line, 0, line.len() as int));
    assert(slice_of(line, 0, line.len() as int) =~= line);
}

proof fn lemma_collect_empty(rs: Seq<(Seq<char>, Seq<u8>)>, line: Seq<u8>)
    requires
        forall|i: int|
            0 <= i < rs.len() ==> matches_from((#[trigger] rs[i]).0, line, 0).len() == 0,
    ensures
        collect_spec(rs, line) == Seq::<(int, int, Seq<u8>)>::empty(),
    decreases rs.len(),
{
    if rs.len() > 0 {
        assert(forall|i: int|
            0 <= i < rs.drop_last().len() ==> rs.drop_last()[i] == rs[i]);
        lemma_collect_empty(rs.drop_last(), line);
        assert(rs.last() == rs[rs.len() - 1]);
        assert(matches_from(rs.last().0, line, 0).len() == 0);
        assert(kept(matches_from(rs.last().0, line, 0), line.len() as int) == Seq::<
            (usize, usize),
        >::empty());
        assert(collect_spec(rs, line) =~= Seq::<(int, int, Seq<u8>)>::empty());
    }
}

/// The spans the cursor walk keeps, in selection order: the rendered output
/// styles exactly these.
pub open spec fn selected_from(spans: Seq<SpanV>, i: int, cursor: int) -> Seq<SpanV>
    decreases spans.len() - i,
{
    if i >= spans.len() {
        Seq::empty()
    } else if 0 <= i {
        let s = spans[i];
        if s.start >= cursor {
            seq![s] + selected_from(spans, i + 1, s.end)
        } else {
            selected_from(spans, i + 1, cursor)
        }
    } else {
        Seq::empty()
    }
}

/// The spans rendered with styling for one line, in selection order.
pub open spec fn selected_spans(rs: Seq<(Seq<char>, Seq<u8>)>, line: Seq<u8>) -> Seq<SpanV> {
    selected_from(sort_spans_spec(tag_spans(collect_spec(rs, line))), 0, 0)
}

proof fn lemma_selected_disjoint(spans: Seq<SpanV>, i: int, cursor: int)
    requires
        forall|k: int| 0 <= k < spans.len() ==> (#[trigger] spans[k]).start <= spans[k].end,
    ensures
        forall|a: int|
            0 <= a < selected_from(spans, i, cursor).len() ==> (#[trigger] selected_from(
                spans,
                i,
                cursor,
            )[a]).start >= cursor,
        forall|a: int, b: int|
            0 <= a < b < selected_from(spans, i, cursor).len() ==> (#[trigger] selected_from(
                spans,
                i,
                cursor,
            )[a]).end <= (#[trigger] selected_from(spans, i, cursor)[b]).start,
    decreases spans.len() - i,
{
    let sel = selected_from(spans, i, cursor);
    if i >= spans.len() || i < 0 {
    } else {
        let s = spans[i];
        if s.start >= cursor {
            lemma_selected_disjoint(spans, i + 1, s.end);
            let sub = selected_from(spans, i + 1, s.end);
            assert(sel == seq![s] + sub);
            assert(sel[0] == s);
            assert(s.start <= s.end);
            assert forall|a: int| 0 <= a < sel.len() implies (#[trigger] sel[a]).start
                >= cursor by {
                if a >= 1 {
                    assert(sel[a] == sub[a - 1]);
                    assert(sub[a - 1].start >= s.end);
                }
            }
            assert forall|a: int, b: int| 0 <= a < b < sel.len() implies (#[trigger] sel[a]).end
                <= (#[trigger] sel[b]).start by {
                assert(sel[b] == sub[b - 1]);
                if a == 0 {
                    assert(sub[b - 1].start >= s.end);
                } else {
                    assert(sel[a] == sub[a - 1]);
                    assert(sub[a - 1].end <= sub[b - 1].start);
                }
            }
        } else {
            lemma_selected_disjoint(spans, i + 1, cursor);
            let sub = selected_from(spans, i + 1, cursor);
            assert(sel == sub);
            assert forall|a: int| 0 <= a < sel.len() implies (#[trigger] sel[a]).start
                >= cursor by {
                assert(sub[a].start >= cursor);
            }
            assert forall|a: int, b: int| 0 <= a < b < sel.len() implies (#[trigger] sel[a]).end
                <= (#[trigger] sel[b]).start by {
                assert(sub[a].end <= sub[b].start);
            }
        }
    }
}

/// Non-overlap: no two spans rendered with styling cover a shared position;
/// each selected span ends at or before the next one starts.
pub proof fn lemma_no_overlap(rs: Seq<(Seq<char>, Seq<u8>)>, line: Seq<u8>)
    ensures
        forall|a: int, b: int|
            0 <= a < b < selected_spans(rs, line).len() ==> (#[trigger] selected_spans(
                rs,
                line,
            )[a]).end <= (#[trigger] selected_spans(rs, line)[b]).start,
{
    let sorted = sort_spans_spec(tag_spans(collect_spec(rs, line)));
    lemma_collect_ok(rs, line);
    lemma_sort_in_range(tag_spans(collect_spec(rs, line)), line.len() as int);
    assert forall|k: int| 0 <= k < sorted.len() implies (#[trigger] sorted[k]).start
        <= sorted[k].end by {
        assert(span_in_range(sorted[k], line.len() as int));
    }
    lemma_selected_disjoint(sorted, 0, 0);
}

/// First-match-wins: once span `a` is rendered, an overlapping later span `b`
/// is dropped as one unit — the output is the same as if `b` were not there
/// at all, so no part of `b`, not even its non-overlapping tail, is rendered.
pub proof fn lemma_overlap_dropped(line: Seq<u8>, a: SpanV, b: SpanV)
    requires
        0 <= a.start,
        b.start < a.end,
    ensures
        render_from(line, seq![a, b], 0, 0) == render_from(line, seq![a], 0, 0),
{
    let two = seq![a, b];
    let one = seq![a];
    assert(two[0] == a && two[1] == b && one[0] == a);
    assert(render_from(line, two, 2, a.end) == slice_of(line, a.end, line.len() as int));
    assert(render_from(line, one, 1, a.end) == slice_of(line, a.end, line.len() as int));
    assert(render_from(line, two, 1, a.end) == render_from(line, two, 2, a.end));
}

/// `ms` with every zero-length match removed.
pub open spec fn positive_only(ms: Seq<(usize, usize)>) -> Seq<(usize, usize)>
    decreases ms.len(),
{
    if ms.len() == 0 {
        Seq::empty()
    } else {
        let pre = positive_only(ms.drop_last());
        if ms.last().0 < ms.last().1 {
            pre.push(ms.last())
        } else {
            pre
        }
    }
}

/// Zero-length match exclusion: the retained matches are the same whether or
/// not the zero-length matches are there at all, so such a match contributes
/// no visible styling anywhere.
pub proof fn lemma_zero_length_excluded(ms: Seq<(usize, usize)>, n: int)
    ensures
        kept(ms, n) == kept(positive_only(ms), n),
    decreases ms.len(),
{
    if ms.len() > 0 {
        lemma_zero_length_excluded(ms.drop_last(), n);
        if ms.last().0 < ms.last().1 {
            assert(positive_only(ms) == positive_only(ms.drop_last()).push(ms.last()));
            assert(positive_only(ms).drop_last() =~= positive_only(ms.drop_last()));
            assert(positive_only(ms).last() == ms.last());
        }
    }
}

pub open spec fn all_invisible(s: Seq<SpanV>) -> bool {
    forall|k: int| 0 <= k < s.len() ==> code_invisible((#[trigger] s[k]).style)
}

proof fn lemma_collect_invisible(rs: Seq<(Seq<char>, Seq<u8>)>, line: Seq<u8>)
    requires
        forall|i: int| 0 <= i < rs.len() ==> code_invisible((#[trigger] rs[i]).1),
    ensures
        all_invisible(tag_spans(collect_spec(rs, line))),
    decreases rs.len(),
{
    let c = collect_spec(rs, line);
    if rs.len() > 0 {
        assert(forall|i: int|
            0 <= i < rs.drop_last().len() ==> rs.drop_last()[i] == rs[i]);
        lemma_collect_invisible(rs.drop_last(), line);
        let pre = collect_spec(rs.drop_last(), line);
        let ms = kept(matches_from(rs.last().0, line, 0), line.len() as int);
        assert(rs.last() == rs[rs.len() - 1]);
        assert forall|k: int| 0 <= k < tag_spans(c).len() implies code_invisible(
            (#[trigger] tag_spans(c)[k]).style,
        ) by {
            if k < pre.len() {
                assert(c[k] == pre[k]);
                assert(code_invisible(tag_spans(pre)[k].style));
            } else {
                assert(c[k] == with_style(ms, rs.last().1)[k - pre.len()]);
            }
        }
    }
}

proof fn lemma_insert_invisible(s: Seq<SpanV>, x: SpanV)
    requires
        all_invisible(s),
        code_invisible(x.style),
    ensures
        all_invisible(insert_sorted(s, x)),
    decreases s.len(),
{
    if s.len() == 0 {
    } else if key_le(s.last(), x) {
    } else {
        assert(all_invisible(s.drop_last())) by {
            assert(forall|k: int| 0 <= k < s.drop_last().len() ==> s.drop_last()[k] == s[k]);
        }
        lemma_insert_invisible(s.drop_last(), x);
        let res = insert_sorted(s.drop_last(), x).push(s.last());
        assert forall|k: int| 0 <= k < res.len() implies code_invisible(
            (#[trigger] res[k]).style,
        ) by {
            if k < res.len() - 1 {
                assert(res[k] == insert_sorted(s.drop_last(), x)[k]);
            } else {
                assert(res[k] == s.last());
            }
        }
    }
}

proof fn lemma_sort_invisible(s: Seq<SpanV>)
    requires
        all_invisible(s),
    ensures
        all_invisible(sort_spans_spec(s)),
    decreases s.len(),
{
    if s.len() > 0 {
        assert(all_invisible(s.drop_last())) by {
            assert(forall|k: int| 0 <= k < s.drop_last().len() ==> s.drop_last()[k] == s[k]);
        }
        lemma_sort_invisible(s.drop_last());
        lemma_insert_invisible(sort_spans_spec(s.drop_last()), s.last());
    }
}

/// Stripping the output of the cursor walk gives back the rest of the line.
proof fn lemma_render_strip(line: Seq<u8>, spans: Seq<SpanV>, i: int, cursor: int)
    requires
        esc_free(line),
        0 <= cursor <= line.len(),
        all_in_range(spans, line.len() as int),
        all_invisible(spans),
        0 <= i,
    ensures
        ansi_strip(render_from(line, spans, i, cursor), false) == slice_of(
            line,
            cursor,
            line.len() as int,
        ),
    decreases spans.len() - i,
{
    let n = line.len() as int;
    if i >= spans.len() {
        let tail = slice_of(line, cursor, n);
        assert(esc_free(tail)) by {
            assert(forall|k: int| 0 <= k < tail.len() ==> tail[k] == line[cursor + k]);
        }
        lemma_strip_plain(tail);
    } else {
        let s = spans[i];
        assert(span_in_range(s, n));
        assert(code_invisible(s.style));
        if s.start >= cursor {
            let p1 = slice_of(line, cursor, s.start);
            let mid = slice_of(line, s.start, s.end);
            let rest = render_from(line, spans, i + 1, s.end);
            lemma_render_strip(line, spans, i + 1, s.end);
            assert(esc_free(p1)) by {
                assert(forall|k: int| 0 <= k < p1.len() ==> p1[k] == line[cursor + k]);
            }
            assert(esc_free(mid)) by {
                assert(forall|k: int| 0 <= k < mid.len() ==> mid[k] == line[s.start + k]);
            }
            lemma_strip_plain(p1);
            lemma_strip_plain(mid);
            lemma_sgr1_invisible(0x30);
            let a = p1 + s.style;
            let b = a + mid;
            let c = b + reset_code_spec();
            lemma_strip_concat(p1, s.style, false);
            assert(ansi_strip(a, false) =~= p1);
            lemma_strip_concat(a, mid, false);
            assert(ansi_strip(b, false) =~= p1 + mid);
            lemma_strip_concat(b, reset_code_spec(), false);
            assert(ansi_strip(c, false) =~= p1 + mid);
            lemma_strip_concat(c, rest, false);
            assert(render_from(line, spans, i, cursor) == c + rest);
            assert(ansi_strip(c + rest, false) =~= (p1 + mid) + slice_of(line, s.end, n));
            assert((p1 + mid) + slice_of(line, s.end, n) =~= slice_of(line, cursor, n));
        } else {
            lemma_render_strip(line, spans, i + 1, cursor);
        }
    }
}

/// Identity preservation: stripping every styling sequence from the rendered
/// output yields exactly the original line, for every line without a bare
/// escape byte and every rule set whose style codes are whole styling
/// sequences (as every built rule set's are).
pub proof fn lemma_render_identity(rs: Seq<(Seq<char>, Seq<u8>)>, line: Seq<u8>)
    requires
        forall|i: int| 0 <= i < rs.len() ==> code_invisible((#[trigger] rs[i]).1),
        esc_free(line),
    ensures
        ansi_strip(render_spec(rs, line), false) == line,
{
    let tagged = tag_spans(collect_spec(rs, line));
    let sorted = sort_spans_spec(tagged);
    lemma_collect_ok(rs, line);
    lemma_collect_invisible(rs, line);
    lemma_sort_in_range(tagged, line.len() as int);
    lemma_sort_invisible(tagged);
    lemma_render_strip(line, sorted, 0, 0);
    assert(slice_of(line, 0, line.len() as int) =~= line);
}

/// Identity preservation for built rule sets: whatever raw records a rule set
/// was built from, stripping the rendered output of a line without a bare
/// escape byte gives back the line.
pub proof fn lemma_built_render_identity(
    raws: Seq<(Seq<Seq<char>>, Seq<u8>)>,
    line: Seq<u8>,
)
    requires
        esc_free(line),
    ensures
        ansi_strip(render_spec(crate::rules::expand_spec(raws), line), false) == line,
{
    crate::rules::lemma_expand_invisible(raws);
    lemma_render_identity(crate::rules::expand_spec(raws), line);
}

/// Renders one line against the rule set: all matches are collected, sorted,
/// and walked greedily; overlapping spans are dropped whole, and everything
/// between and after the kept spans passes through unstyled.
pub fn render(rules: &RuleSet, line: &[u8]) -> (out: Vec<u8>)
    ensures
        out@ == render_spec(rules@, line@),
{
    let collected = collect_spans(rules, line);
    let sorted = sort_spans(collected);
    proof {
        lemma_collect_ok(rules@, line@);
        lemma_sort_in_range(tag_spans(collect_spec(rules@, line@)), line@.len() as int);
        assert forall|k: int| 0 <= k < sorted@.len() implies #[trigger] sorted@[k]@.start
            <= sorted@[k]@.end && sorted@[k]@.end <= line@.len() by {
            assert(spans_view(sorted@)[k] == sorted@[k]@);
            assert(span_in_range(spans_view(sorted@)[k], line@.len() as int));
        }
    }
    render_spans(line, &sorted)
}

} // verus!
