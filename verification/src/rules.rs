//! Rules and rule sets.
//!
//! A rule pairs a compiled regular expression with a precomputed style code.
//! A rule set is the ordered sequence of rules built once from raw
//! configuration records; one record expands into one rule per pattern
//! string, all sharing the record's compiled style code.

use crate::style::compile_spec;
use crate::style::compile_style;
use vstd::prelude::*;

verus! {

#[verifier::external_type_specification]
#[verifier::external_body]
pub struct ExRegex(onig::Regex);

#[verifier::external_type_specification]
#[verifier::external_body]
pub struct ExOnigError(onig::Error);

/// Whether the regular-expression engine accepts `pattern` as a pattern.
pub uninterp spec fn pattern_compiles(pattern: Seq<char>) -> bool;

/// One forward search of the regular-expression engine for `pattern` over
/// `line` from byte `from`: the byte range the engine reports for the first
/// match attempt that succeeds at or after `from`, or nothing when no match
/// remains, when the search fails inside the engine, or when the line is not
/// valid UTF-8. The reported start can lie before `from`: a pattern can move
/// the reported start back with the keep operator.
pub uninterp spec fn search_at(pattern: Seq<char>, line: Seq<u8>, from: int) -> Option<
    (usize, usize),
>;

/// A configured pattern string that the regular-expression engine rejected,
/// together with the engine's syntax error.
#[derive(Debug)]
pub struct PatternError {
    /// The offending pattern.
    pub pattern: String,
    /// The engine's account of the syntax failure.
    pub cause: onig::Error,
}

/// One compiled rule: a pattern and the style code its matches are wrapped in.
///
/// The compiled regex is built from `pattern` and from nothing else; the only
/// constructor is [`Rule::new`].
pub struct Rule {
    regex: onig::Regex,
    pattern: String,
    style: Vec<u8>,
}

impl View for Rule {
    type V = (Seq<char>, Seq<u8>);

    closed spec fn view(&self) -> (Seq<char>, Seq<u8>) {
        (self.pattern@, self.style@)
    }
}

impl Rule {
    /// Compiles `pattern` and pairs it with `style`.
    ///
    /// Relies on `onig::Regex::new`: it compiles the pattern string with the
    /// engine's default options and returns the compiled regex, or the syntax
    /// error when the pattern is rejected.
    #[verifier::external_body]
    pub fn new(pattern: String, style: Vec<u8>) -> (r: Result<Rule, PatternError>)
        ensures
            r is Ok <==> pattern_compiles(pattern@),
            r matches Ok(rule) ==> rule@ == (pattern@, style@),
            r matches Err(e) ==> e.pattern@ == pattern@,
    {
        match onig::Regex::new(pattern.as_str()) {
            Ok(regex) => Ok(Rule { regex, pattern, style }),
            Err(cause) => Err(PatternError { pattern, cause }),
        }
    }

    /// The rule's style code.
    pub fn style(&self) -> (s: &Vec<u8>)
        ensures
            s@ == self@.1,
    {
        &self.style
    }

    /// One forward search of the rule's pattern over `line` from byte `from`.
    ///
    /// Relies on `onig::Regex::search_with_param` and `onig::Region::pos`: a
    /// forward search reports the matched byte range in the line, or no
    /// match. The range never extends past the line, and the engine clamps
    /// its start to at most its end; the start can lie *before* `from` when
    /// the pattern moves the reported start back (the keep operator in a
    /// lookbehind), so no more is stated. Every engine failure (for instance
    /// the retry limit on a catastrophically backtracking pattern) comes
    /// back as an `Err` value, never a panic, and reports no match here, as
    /// does a line that is not valid UTF-8. The scan that collects
    /// successive matches is verified code on top of this call.
    #[verifier::external_body]
    fn search_once(&self, line: &[u8], from: usize) -> (r: Option<(usize, usize)>)
        requires
            from <= line@.len(),
        ensures
            r == search_at(self@.0, line@, from as int),
            r matches Some(m) ==> m.0 <= m.1 && m.1 <= line@.len(),
    {
        let text = match core::str::from_utf8(line) {
            Ok(t) => t,
            Err(_) => return None,
        };
        let mut region = onig::Region::new();
        let opts = onig::SearchOptions::SEARCH_OPTION_NONE;
        let param = onig::MatchParam::default();
        match self.regex.search_with_param(text, from, text.len(), opts, Some(&mut region), param)
        {
            Ok(Some(_)) => region.pos(0),
            _ => None,
        }
    }

    /// All positive-length matches of the rule's pattern over `line`, as
    /// half-open byte ranges: successive searches, each starting where the
    /// previous match ended, with a zero-length match stepping the scan one
    /// character forward instead of contributing a range, and a reported
    /// range that starts before the scan position ending the scan.
    pub fn matches(&self, line: &[u8]) -> (r: Vec<(usize, usize)>)
        ensures
            r@ == matches_from(self@.0, line@, 0),
    {
        let ghost p = self@.0;
        let mut out: Vec<(usize, usize)> = Vec::new();
        let mut pos: usize = 0;
        proof {
            assert(out@ + matches_from(p, line@, 0) =~= matches_from(p, line@, 0));
        }
        loop
            invariant
                0 <= pos <= line@.len(),
                p == self@.0,
                matches_from(p, line@, 0) == out@ + matches_from(p, line@, pos as int),
            decreases line@.len() - pos,
        {
            match self.search_once(line, pos) {
                None => {
                    proof {
                        assert(matches_from(p, line@, pos as int) == Seq::<(usize, usize)>::empty());
                        assert(out@ + matches_from(p, line@, pos as int) =~= out@);
                    }
                    return out;
                },
                Some(m) => {
                    let (s, e) = m;
                    if s < pos {
                        proof {
                            assert(matches_from(p, line@, pos as int) == Seq::<
                                (usize, usize),
                            >::empty());
                            assert(out@ + matches_from(p, line@, pos as int) =~= out@);
                        }
                        return out;
                    }
                    if s < e {
                        let ghost before = out@;
                        out.push((s, e));
                        proof {
                            assert(matches_from(p, line@, pos as int) == seq![(s, e)]
                                + matches_from(p, line@, e as int));
                            assert(out@ =~= before + seq![(s, e)]);
                            assert((before + seq![(s, e)]) + matches_from(p, line@, e as int)
                                =~= before + (seq![(s, e)] + matches_from(p, line@, e as int)));
                        }
                        pos = e;
                    } else {
                        let step = char_step_at(line, s);
                        if step > line.len() - s {
                            proof {
                                assert(matches_from(p, line@, pos as int) == Seq::<
                                    (usize, usize),
                                >::empty());
                                assert(out@ + matches_from(p, line@, pos as int) =~= out@);
                            }
                            return out;
                        }
                        proof {
                            assert(matches_from(p, line@, pos as int) == matches_from(
                                p,
                                line@,
                                s as int + char_step(line@, s as int),
                            ));
                        }
                        pos = s + step;
                    }
                },
            }
        }
    }
}

/// Width of the UTF-8 character that starts with byte `b`, with a one-byte
/// step as the fallback for a byte that starts no character.
pub open spec fn byte_char_len(b: u8) -> int {
    if b < 0x80 {
        1
    } else if 0xc0 <= b && b < 0xe0 {
        2
    } else if 0xe0 <= b && b < 0xf0 {
        3
    } else if 0xf0 <= b && b < 0xf8 {
        4
    } else {
        1
    }
}

/// The step the scan takes past a zero-length match at byte `at`.
pub open spec fn char_step(line: Seq<u8>, at: int) -> int {
    if 0 <= at < line.len() {
        byte_char_len(line[at])
    } else {
        1
    }
}

fn char_step_at(line: &[u8], at: usize) -> (r: usize)
    ensures
        r == char_step(line@, at as int),
        1 <= r <= 4,
{
    if at < line.len() {
        let b = line[at];
        if b < 0x80 {
            1
        } else if 0xc0 <= b && b < 0xe0 {
            2
        } else if 0xe0 <= b && b < 0xf0 {
            3
        } else if 0xf0 <= b && b < 0xf8 {
            4
        } else {
            1
        }
    } else {
        1
    }
}

/// The successive non-overlapping positive-length matches of `pattern` over
/// `line` from byte `from` on: each search starts where the previous match
/// ended, and a zero-length match moves the scan one character forward
/// instead of contributing a range. A reported range that starts before the
/// scan position — possible when the pattern moves its reported start back
/// with the keep operator — or that lies out of range ends the scan: going
/// on from it could rescan forever.
pub open spec fn matches_from(pattern: Seq<char>, line: Seq<u8>, from: int) -> Seq<(usize, usize)>
    decreases line.len() + 1 - from,
{
    if from < 0 || from > line.len() {
        Seq::empty()
    } else {
        match search_at(pattern, line, from) {
            Option::None => Seq::empty(),
            Option::Some(m) => {
                if (m.0 as int) < from || m.1 < m.0 || m.1 > line.len() {
                    Seq::empty()
                } else if m.0 < m.1 {
                    seq![m] + matches_from(pattern, line, m.1 as int)
                } else {
                    let nxt = m.0 as int + char_step(line, m.0 as int);
                    if nxt > line.len() {
                        Seq::empty()
                    } else {
                        matches_from(pattern, line, nxt)
                    }
                }
            },
        }
    }
}

/// Every reported match is in range and of positive length.
pub proof fn lemma_matches_from_ok(pattern: Seq<char>, line: Seq<u8>, from: int)
    ensures
        forall|k: int|
            0 <= k < matches_from(pattern, line, from).len() ==> (#[trigger] matches_from(
                pattern,
                line,
                from,
            )[k]).0 < matches_from(pattern, line, from)[k].1 && matches_from(
                pattern,
                line,
                from,
            )[k].1 <= line.len(),
    decreases line.len() + 1 - from,
{
    let r = matches_from(pattern, line, from);
    if from < 0 || from > line.len() {
    } else {
        match search_at(pattern, line, from) {
            Option::None => {},
            Option::Some(m) => {
                if (m.0 as int) < from || m.1 < m.0 || m.1 > line.len() {
                } else if m.0 < m.1 {
                    lemma_matches_from_ok(pattern, line, m.1 as int);
                    let rest = matches_from(pattern, line, m.1 as int);
                    assert forall|k: int| 0 <= k < r.len() implies (#[trigger] r[k]).0 < r[k].1
                        && r[k].1 <= line.len() by {
                        if k == 0 {
                            assert(r[0] == m);
                        } else {
                            assert(r[k] == rest[k - 1]);
                        }
                    }
                } else {
                    let nxt = m.0 as int + char_step(line, m.0 as int);
                    if nxt <= line.len() {
                        lemma_matches_from_ok(pattern, line, nxt);
                        let rest = matches_from(pattern, line, nxt);
                        assert(r == rest);
                        assert forall|k: int| 0 <= k < r.len() implies (#[trigger] r[k]).0 < r[k].1
                            && r[k].1 <= line.len() by {
                            assert(rest[k].0 < rest[k].1 && rest[k].1 <= line.len());
                        }
                    }
                }
            },
        }
    }
}

/// One raw configuration record: one or more pattern strings and one style
/// expression, already normalized (a scalar pattern becomes a one-element
/// list by the configuration loader).
pub struct RawRule {
    /// The record's pattern strings.
    pub patterns: Vec<String>,
    /// The record's style expression: whitespace-separated style names.
    pub style: Vec<u8>,
}

impl DeepView for RawRule {
    type V = (Seq<Seq<char>>, Seq<u8>);

    open spec fn deep_view(&self) -> (Seq<Seq<char>>, Seq<u8>) {
        (self.patterns.deep_view(), self.style@)
    }
}

/// The rules one record expands into: one per pattern, sharing the record's
/// compiled style code.
pub open spec fn entry_rules(e: (Seq<Seq<char>>, Seq<u8>)) -> Seq<(Seq<char>, Seq<u8>)> {
    Seq::new(e.0.len(), |i: int| (e.0[i], compile_spec(e.1)))
}

/// The full expansion of the raw records, in declaration order.
pub open spec fn expand_spec(raws: Seq<(Seq<Seq<char>>, Seq<u8>)>) -> Seq<(Seq<char>, Seq<u8>)>
    decreases raws.len(),
{
    if raws.len() == 0 {
        Seq::empty()
    } else {
        expand_spec(raws.drop_last()) + entry_rules(raws.last())
    }
}

pub proof fn lemma_expand_push(raws: Seq<(Seq<Seq<char>>, Seq<u8>)>, i: int)
    requires
        0 <= i < raws.len(),
    ensures
        expand_spec(raws.take(i + 1)) == expand_spec(raws.take(i)) + entry_rules(raws[i]),
{
    assert(raws.take(i + 1).drop_last() =~= raws.take(i));
    assert(raws.take(i + 1).last() == raws[i]);
}

/// Every style code in the expansion is a compiled style expression, so it is
/// invisible to stripping.
pub proof fn lemma_expand_invisible(raws: Seq<(Seq<Seq<char>>, Seq<u8>)>)
    ensures
        forall|k: int|
            0 <= k < expand_spec(raws).len() ==> #[trigger] crate::ansi::code_invisible(
                expand_spec(raws)[k].1,
            ),
    decreases raws.len(),
{
    if raws.len() > 0 {
        lemma_expand_invisible(raws.drop_last());
        assert forall|k: int| 0 <= k < expand_spec(raws).len() implies #[trigger] crate::ansi::code_invisible(
            expand_spec(raws)[k].1,
        ) by {
            let pre = expand_spec(raws.drop_last());
            if k < pre.len() {
                assert(expand_spec(raws)[k] == pre[k]);
            } else {
                assert(expand_spec(raws)[k] == entry_rules(raws.last())[k - pre.len()]);
                crate::style::lemma_compile_invisible(raws.last().1);
            }
        }
    }
}

/// The ordered, immutable set of compiled rules.
pub struct RuleSet {
    rules: Vec<Rule>,
}

impl View for RuleSet {
    type V = Seq<(Seq<char>, Seq<u8>)>;

    closed spec fn view(&self) -> Seq<(Seq<char>, Seq<u8>)> {
        self.rules@.map_values(|r: Rule| r@)
    }
}

impl RuleSet {
    /// The rules, in declaration order.
    pub fn rules(&self) -> (r: &Vec<Rule>)
        ensures
            r@.map_values(|rule: Rule| rule@) == self@,
    {
        &self.rules
    }

    /// Builds the rule set from raw records: compiles each record's style
    /// expression once, then compiles each of its patterns into one rule.
    /// Construction fails on the first pattern, in declaration order, that
    /// the regular-expression engine rejects, and then no rule set at all is
    /// produced.
    pub fn build(raws: &Vec<RawRule>) -> (r: Result<RuleSet, PatternError>)
        ensures
            r matches Ok(rs) ==> rs@ == expand_spec(raws.deep_view()),
            r is Ok <==> (forall|k: int|
                0 <= k < expand_spec(raws.deep_view()).len() ==> #[trigger] pattern_compiles(
                    expand_spec(raws.deep_view())[k].0,
                )),
            r matches Err(e) ==> !pattern_compiles(e.pattern@) && (exists|k: int|
                0 <= k < expand_spec(raws.deep_view()).len() && expand_spec(raws.deep_view())[k].0
                    == e.pattern@ && (forall|m: int|
                    0 <= m < k ==> #[trigger] pattern_compiles(
                        expand_spec(raws.deep_view())[m].0,
                    ))),
    {
        let ghost rv = raws.deep_view();
        let mut rules: Vec<Rule> = Vec::new();
        let mut i: usize = 0;
        proof {
            assert(rv.take(0) =~= Seq::<(Seq<Seq<char>>, Seq<u8>)>::empty());
        }
        while i < raws.len()
            invariant
                0 <= i <= raws.len(),
                rv == raws.deep_view(),
                rv.len() == raws@.len(),
                rules@.map_values(|r: Rule| r@) == expand_spec(rv.take(i as int)),
                forall|m: int|
                    0 <= m < rules@.len() ==> #[trigger] pattern_compiles(rules@[m]@.0),
            decreases raws.len() - i,
        {
            let entry = &raws[i];
            let style_code = compile_style(entry.style.as_slice());
            let ghost ev = rv[i as int];
            let mut j: usize = 0;
            proof {
                assert(entry_rules(ev).take(0) =~= Seq::<(Seq<char>, Seq<u8>)>::empty());
                assert(rules@.map_values(|r: Rule| r@) + entry_rules(ev).take(0) =~= expand_spec(
                    rv.take(i as int),
                ));
            }
            while j < entry.patterns.len()
                invariant
                    0 <= j <= entry.patterns.len(),
                    rv == raws.deep_view(),
                    rv.len() == raws@.len(),
                    i < raws@.len(),
                    ev == rv[i as int],
                    entry.patterns.deep_view() == ev.0,
                    style_code@ == compile_spec(ev.1),
                    rules@.map_values(|r: Rule| r@) == expand_spec(rv.take(i as int))
                        + entry_rules(ev).take(j as int),
                    forall|m: int|
                        0 <= m < rules@.len() ==> #[trigger] pattern_compiles(rules@[m]@.0),
                decreases entry.patterns.len() - j,
            {
                let pattern = entry.patterns[j].clone();
                let ghost pv = pattern@;
                proof {
                    assert(entry.patterns.deep_view()[j as int] == entry.patterns@[j as int]@);
                    assert(pv == ev.0[j as int]);
                }
                let style_copy = vstd::slice::slice_to_vec(style_code.as_slice());
                match Rule::new(pattern, style_copy) {
                    Ok(rule) => {
                        let ghost before = rules@.map_values(|r: Rule| r@);
                        rules.push(rule);
                        proof {
                            assert(rules@.map_values(|r: Rule| r@) =~= before.push(
                                (ev.0[j as int], compile_spec(ev.1)),
                            ));
                            assert(entry_rules(ev).take(j as int + 1) =~= entry_rules(ev).take(
                                j as int,
                            ).push((ev.0[j as int], compile_spec(ev.1))));
                            assert(rules@.map_values(|r: Rule| r@) =~= expand_spec(
                                rv.take(i as int),
                            ) + entry_rules(ev).take(j as int + 1));
                        }
                    },
                    Err(e) => {
                        proof {
                            assert(entry.patterns.deep_view().len() == entry.patterns@.len());
                            lemma_build_failure_witness(rv, i as int, j as int);
                            let k = expand_spec(rv.take(i as int)).len() + j as int;
                            let built = expand_spec(rv.take(i as int)) + entry_rules(ev).take(
                                j as int,
                            );
                            assert(entry_rules(ev)[j as int].0 == ev.0[j as int]);
                            assert(expand_spec(rv)[k].0 == pv);
                            assert(e.pattern@ == pv);
                            assert(!pattern_compiles(pv));
                            assert(built == rules@.map_values(|r: Rule| r@));
                            assert(ev.0.len() == entry.patterns@.len());
                            assert(entry_rules(ev).take(j as int).len() == j as int);
                            assert(built.len() == k);
                            assert(rules@.map_values(|r: Rule| r@).len() == rules@.len());
                            assert(rules@.len() == k);
                            assert forall|m: int| 0 <= m < k implies #[trigger] pattern_compiles(
                                expand_spec(rv)[m].0,
                            ) by {
                                assert(expand_spec(rv)[m] == built[m]);
                                assert(built[m] == rules@.map_values(|r: Rule| r@)[m]);
                                assert(rules@.map_values(|r: Rule| r@)[m] == rules@[m]@);
                                assert(pattern_compiles(rules@[m]@.0));
                            }
                            assert(0 <= k < expand_spec(rv).len() && expand_spec(rv)[k].0
                                == e.pattern@ && (forall|m: int|
                                0 <= m < k ==> #[trigger] pattern_compiles(expand_spec(rv)[m].0)));
                        }
                        return Err(e);
                    },
                }
                j = j + 1;
            }
            proof {
                assert(entry_rules(ev).take(j as int) =~= entry_rules(ev));
                lemma_expand_push(rv, i as int);
            }
            i = i + 1;
        }
        proof {
            assert(rv.take(i as int) =~= rv);
        }
        Ok(RuleSet { rules })
    }
}

/// Concatenating record lists concatenates their expansions.
proof fn lemma_expand_concat(a: Seq<(Seq<Seq<char>>, Seq<u8>)>, b: Seq<(Seq<Seq<char>>, Seq<u8>)>)
    ensures
        expand_spec(a + b) == expand_spec(a) + expand_spec(b),
    decreases b.len(),
{
    if b.len() == 0 {
        assert(a + b =~= a);
        assert(expand_spec(a) + expand_spec(b) =~= expand_spec(a));
    } else {
        assert((a + b).drop_last() =~= a + b.drop_last());
        assert((a + b).last() == b.last());
        lemma_expand_concat(a, b.drop_last());
        assert(expand_spec(a) + expand_spec(b.drop_last()) + entry_rules(b.last()) =~= expand_spec(
            a,
        ) + expand_spec(b));
    }
}

/// Where construction stops at pattern `j` of record `i`, that pattern stands
/// in the expansion right after everything already built.
proof fn lemma_build_failure_witness(rv: Seq<(Seq<Seq<char>>, Seq<u8>)>, i: int, j: int)
    requires
        0 <= i < rv.len(),
        0 <= j < rv[i].0.len(),
    ensures
        ({
            let k = expand_spec(rv.take(i)).len() + j;
            &&& 0 <= k < expand_spec(rv).len()
            &&& expand_spec(rv)[k] == entry_rules(rv[i])[j]
            &&& forall|m: int|
                0 <= m < k ==> expand_spec(rv)[m] == (expand_spec(rv.take(i)) + entry_rules(
                    rv[i],
                ).take(j))[m]
        }),
{
    let pre = rv.take(i + 1);
    let post = rv.skip(i + 1);
    assert(pre + post =~= rv);
    lemma_expand_concat(pre, post);
    lemma_expand_push(rv, i);
    let built = expand_spec(rv.take(i)) + entry_rules(rv[i]).take(j);
    let k = expand_spec(rv.take(i)).len() + j;
    assert(expand_spec(pre)[k] == entry_rules(rv[i])[j]);
    assert(expand_spec(rv)[k] == expand_spec(pre)[k]);
    assert(forall|m: int| 0 <= m < k ==> expand_spec(pre)[m] == built[m]);
    assert(forall|m: int| 0 <= m < k ==> expand_spec(rv)[m] == expand_spec(pre)[m]);
}

} // verus!
