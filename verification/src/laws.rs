//! Properties of the library as a whole, proved over the specifications the
//! operations are stated in.

use vstd::prelude::*;
use crate::owner::{owner_text, parse_owner, split_once, OwnerView};
use crate::glob::{glob, lemma_glob_within, lemma_stars_match_anything};
use crate::pattern::{
    catch_all, compile, deep_from, match_from, path_parts, pattern_matches, pattern_within,
    segment_matches, segment_within, terminal_ok, within_from, PatternShape, SegmentShape,
};
use crate::text::{lines, lines_from, lead_from, tail_from, lemma_find, lemma_runs_concat, lemma_runs_shift, runs_from, Sep};
use crate::{
    accepted, covers, line_outcome, outcomes, outcomes_of, parsed_errors, parsed_rules, rejected, LineOutcome, ErrorView,
    is_shadowed, last_match, last_match_upto, matching, matching_upto, shadowed_indices,
    shadowed_upto, RuleView,
};

verus! {

proof fn lemma_last_match_upto(rules: Seq<RuleView>, path: Seq<char>, n: int)
    requires
        0 <= n <= rules.len(),
    ensures
        match last_match_upto(rules, path, n) {
            Some(i) => 0 <= i < n && pattern_matches(rules[i].pattern, path) && forall|j: int|
                i < j < n ==> !pattern_matches(#[trigger] rules[j].pattern, path),
            None => forall|j: int| 0 <= j < n ==> !pattern_matches(#[trigger] rules[j].pattern, path),
        },
    decreases n,
{
    if n > 0 {
        lemma_last_match_upto(rules, path, n - 1);
    }
}

/// The last matching rule decides: the rule that [`crate::CodeOwners::rule_for`]
/// returns matches the path and no later rule does; when it returns none, no
/// rule matches.
pub proof fn law_last_matching_rule_decides(rules: Seq<RuleView>, path: Seq<char>)
    ensures
        match last_match(rules, path) {
            Some(i) => 0 <= i < rules.len() && pattern_matches(rules[i].pattern, path) && forall|
                j: int,
            | i < j < rules.len() ==> !pattern_matches(#[trigger] rules[j].pattern, path),
            None => forall|j: int|
                0 <= j < rules.len() ==> !pattern_matches(#[trigger] rules[j].pattern, path),
        },
{
    lemma_last_match_upto(rules, path, rules.len() as int);
}

proof fn lemma_matching_upto(rules: Seq<RuleView>, path: Seq<char>, n: int)
    requires
        0 <= n <= rules.len(),
    ensures
        ({
            let m = matching_upto(rules, path, n);
            &&& forall|k: int| 0 <= k < m.len() ==> 0 <= #[trigger] m[k] < n
            &&& forall|k: int| 0 <= k < m.len() ==> pattern_matches(rules[#[trigger] m[k]].pattern, path)
            &&& forall|k1: int, k2: int| 0 <= k1 < k2 < m.len() ==> #[trigger] m[k1] < #[trigger] m[k2]
            &&& forall|i: int|
                0 <= i < n && pattern_matches(#[trigger] rules[i].pattern, path) ==> m.contains(i)
            &&& last_match_upto(rules, path, n) == if m.len() == 0 {
                None
            } else {
                Some(m.last())
            }
        }),
    decreases n,
{
    if n > 0 {
        lemma_matching_upto(rules, path, n - 1);
        let prev = matching_upto(rules, path, n - 1);
        let m = matching_upto(rules, path, n);
        assert forall|i: int|
            0 <= i < n && pattern_matches(#[trigger] rules[i].pattern, path) implies m.contains(i) by {
            if i < n - 1 {
                assert(prev.contains(i));
                let k = choose|k: int| 0 <= k < prev.len() && prev[k] == i;
                assert(m[k] == i);
            } else {
                assert(m[m.len() - 1] == i);
            }
        }
    }
}

/// [`crate::CodeOwners::all_matching`] lists exactly the rules that match, in
/// file order, and the deciding rule of [`crate::CodeOwners::rule_for`] is the
/// last of them.
pub proof fn law_decider_is_last_of_all_matching(rules: Seq<RuleView>, path: Seq<char>)
    ensures
        ({
            let m = matching(rules, path);
            &&& forall|k: int| 0 <= k < m.len() ==> 0 <= #[trigger] m[k] < rules.len()
            &&& forall|k: int| 0 <= k < m.len() ==> pattern_matches(rules[#[trigger] m[k]].pattern, path)
            &&& forall|k1: int, k2: int| 0 <= k1 < k2 < m.len() ==> #[trigger] m[k1] < #[trigger] m[k2]
            &&& forall|i: int|
                0 <= i < rules.len() && pattern_matches(#[trigger] rules[i].pattern, path)
                    ==> m.contains(i)
            &&& last_match(rules, path) == if m.len() == 0 {
                None
            } else {
                Some(m.last())
            }
        }),
{
    lemma_matching_upto(rules, path, rules.len() as int);
}

proof fn lemma_shadowed_upto(rules: Seq<RuleView>, n: int)
    requires
        0 <= n <= rules.len(),
    ensures
        ({
            let s = shadowed_upto(rules, n);
            &&& forall|k: int| 0 <= k < s.len() ==> 0 <= #[trigger] s[k] < n
            &&& forall|k: int| 0 <= k < s.len() ==> is_shadowed(rules, #[trigger] s[k])
            &&& forall|k1: int, k2: int| 0 <= k1 < k2 < s.len() ==> #[trigger] s[k1] < #[trigger] s[k2]
            &&& forall|i: int| 0 <= i < n && #[trigger] is_shadowed(rules, i) ==> s.contains(i)
        }),
    decreases n,
{
    if n > 0 {
        lemma_shadowed_upto(rules, n - 1);
        let prev = shadowed_upto(rules, n - 1);
        let s = shadowed_upto(rules, n);
        assert forall|i: int| 0 <= i < n && #[trigger] is_shadowed(rules, i) implies s.contains(i) by {
            if i < n - 1 {
                assert(prev.contains(i));
                let k = choose|k: int| 0 <= k < prev.len() && prev[k] == i;
                assert(s[k] == i);
            } else {
                assert(s[s.len() - 1] == i);
            }
        }
    }
}

/// A catch-all pattern matches every path that has at least one segment.
pub proof fn law_catch_all_matches_every_path(raw: Seq<char>, path: Seq<char>)
    requires
        catch_all(raw),
        path_parts(path).len() > 0,
    ensures
        pattern_matches(raw, path),
{
    let sh = compile(raw)->Ok_0;
    let parts = path_parts(path);
    if forall|i: int| 0 <= i < sh.segments.len() ==> sh.segments[i] is AnyDepth {
        if sh.dir_only {
            lemma_all_deep(sh, parts, 0, 0);
        } else {
            lemma_all_deep(sh, parts, 1, parts.len() as int);
            lemma_deep_reach(sh, parts, 1, 0, parts.len() as int);
            assert(sh.segments[0] is AnyDepth);
        }
        assert(match_from(sh, parts, 0, 0));
        assert(0 <= 0 < parts.len() && match_from(sh, parts, 0, 0));
    } else {
        let last = parts.len() - 1;
        if let SegmentShape::Glob(g) = sh.segments[0] {
            lemma_stars_match_anything(g, parts[last]);
        }
        assert(match_from(sh, parts, 1, parts.len() as int));
        assert(match_from(sh, parts, 0, last));
        assert(0 <= last < parts.len() && match_from(sh, parts, 0, last));
    }
}

/// With only `**` segments left from `pi` on, the match stops wherever it
/// stands, provided stopping there counts.
proof fn lemma_all_deep(sh: PatternShape, parts: Seq<Seq<char>>, pi: int, k: int)
    requires
        0 <= pi <= sh.segments.len(),
        forall|i: int| 0 <= i < sh.segments.len() ==> sh.segments[i] is AnyDepth,
        0 <= k <= parts.len(),
        crate::pattern::terminal_ok(sh, k, parts.len() as int),
    ensures
        match_from(sh, parts, pi, k),
    decreases sh.segments.len() - pi,
{
    if pi < sh.segments.len() {
        assert(sh.segments[pi] is AnyDepth);
        lemma_all_deep(sh, parts, pi + 1, k);
        assert(deep_from(sh, parts, pi + 1, k));
    }
}

/// A `**` standing before segment `pi` may skip ahead from `si` to any
/// later `k`.
proof fn lemma_deep_reach(sh: PatternShape, parts: Seq<Seq<char>>, pi: int, si: int, k: int)
    requires
        0 <= si <= k <= parts.len(),
        match_from(sh, parts, pi, k),
    ensures
        deep_from(sh, parts, pi, si),
    decreases k - si,
{
    if si < k {
        lemma_deep_reach(sh, parts, pi, si + 1, k);
    }
}

/// A `**` standing before segment `pi` and matching from `k` on picks some
/// stop `m` at or after `k` where the rest of the pattern matches.
proof fn lemma_deep_witness(sh: PatternShape, parts: Seq<Seq<char>>, pi: int, k: int) -> (m: int)
    requires
        deep_from(sh, parts, pi, k),
    ensures
        k <= m <= parts.len(),
        match_from(sh, parts, pi, m),
    decreases parts.len() - k,
{
    if match_from(sh, parts, pi, k) {
        k
    } else {
        lemma_deep_witness(sh, parts, pi, k + 1)
    }
}

/// A `**` that can skip from `k` can also skip from any earlier `si`.
proof fn lemma_deep_earlier(sh: PatternShape, parts: Seq<Seq<char>>, pi: int, si: int, k: int)
    requires
        0 <= si <= k,
        deep_from(sh, parts, pi, k),
    ensures
        deep_from(sh, parts, pi, si),
{
    let m = lemma_deep_witness(sh, parts, pi, k);
    lemma_deep_reach(sh, parts, pi, si, m);
}

/// A pattern ending in `/` only ever stops inside a directory: short of the
/// last segment of the path.
proof fn lemma_dir_only_stops_early(sh: PatternShape, parts: Seq<Seq<char>>, pi: int, si: int)
    requires
        sh.dir_only,
        0 <= si <= parts.len(),
        match_from(sh, parts, pi, si),
    ensures
        si < parts.len(),
    decreases sh.segments.len() - pi,
{
    if 0 <= pi < sh.segments.len() && sh.segments[pi] is AnyDepth {
        let m = lemma_deep_witness(sh, parts, pi + 1, si);
        lemma_dir_only_stops_early(sh, parts, pi + 1, m);
    }
}

/// Side by side: where [`within_from`] holds, every match of `p` from `pi`
/// at path position `si` is a match of `q` from `qi` at the same position.
proof fn lemma_within_from(
    p: PatternShape,
    q: PatternShape,
    parts: Seq<Seq<char>>,
    pi: int,
    qi: int,
    si: int,
)
    requires
        within_from(p, q, pi, qi),
        0 <= si <= parts.len(),
        match_from(p, parts, pi, si),
    ensures
        match_from(q, parts, qi, si),
    decreases p.segments.len() - pi + q.segments.len() - qi,
{
    let n = p.segments.len() as int;
    let len = parts.len() as int;
    if qi < q.segments.len() && q.segments[qi] is AnyDepth {
        if within_from(p, q, pi, qi + 1) {
            lemma_within_from(p, q, parts, pi, qi + 1, si);
            assert(deep_from(q, parts, qi + 1, si));
        } else {
            assert(pi < n && within_from(p, q, pi + 1, qi));
            if p.segments[pi] is AnyDepth {
                let m = lemma_deep_witness(p, parts, pi + 1, si);
                lemma_within_from(p, q, parts, pi + 1, qi, m);
                lemma_deep_earlier(q, parts, qi + 1, si, m);
            } else {
                assert(si < len && match_from(p, parts, pi + 1, si + 1));
                lemma_within_from(p, q, parts, pi + 1, qi, si + 1);
                lemma_deep_earlier(q, parts, qi + 1, si, si + 1);
            }
        }
    } else if qi == q.segments.len() {
        if pi < n {
            if q.dir_only {
                if p.dir_only {
                    lemma_dir_only_stops_early(p, parts, pi, si);
                } else {
                    assert(!(p.segments[pi] is AnyDepth));
                }
            }
        }
        assert(terminal_ok(q, si, len));
    } else {
        assert(pi < n && segment_within(p.segments[pi], q.segments[qi]));
        assert(!(p.segments[pi] is AnyDepth));
        assert(si < len && segment_matches(p.segments[pi], parts[si]) && match_from(
            p,
            parts,
            pi + 1,
            si + 1,
        ));
        if let SegmentShape::Glob(g) = q.segments[qi] {
            if let SegmentShape::Glob(h) = p.segments[pi] {
                lemma_glob_within(h, g, parts[si], 0, 0, 0);
            }
        }
        assert(segment_matches(q.segments[qi], parts[si]));
        lemma_within_from(p, q, parts, pi + 1, qi + 1, si + 1);
    }
}

/// A match of a pattern from its first segment at path position `s` passes
/// its segment `d` at some position `k` at or after `s`, and matches from
/// there.
proof fn lemma_passes_segment(p: PatternShape, parts: Seq<Seq<char>>, s: int, d: int) -> (k: int)
    requires
        0 <= s <= parts.len(),
        0 <= d <= p.segments.len(),
        match_from(p, parts, 0, s),
    ensures
        s <= k <= parts.len(),
        d == 0 ==> k == s,
        match_from(p, parts, d, k),
    decreases d,
{
    if d == 0 {
        s
    } else {
        let k = lemma_passes_segment(p, parts, s, d - 1);
        if p.segments[d - 1] is AnyDepth {
            lemma_deep_witness(p, parts, d, k)
        } else {
            k + 1
        }
    }
}

/// A pattern found within another matches only paths the other matches too:
/// when the earlier of two rules is found within the later, the later wins
/// every path the earlier one matches.
pub proof fn law_within_matches_less(inner: Seq<char>, outer: Seq<char>, path: Seq<char>)
    requires
        pattern_within(inner, outer),
        pattern_matches(inner, path),
    ensures
        pattern_matches(outer, path),
{
    let p = compile(inner)->Ok_0;
    let q = compile(outer)->Ok_0;
    let parts = path_parts(path);
    let len = parts.len() as int;
    let s = if p.anchored {
        0
    } else {
        choose|start: int| 0 <= start < len && #[trigger] match_from(p, parts, 0, start)
    };
    assert(0 <= s < len && match_from(p, parts, 0, s));
    if q.anchored {
        lemma_within_from(p, q, parts, 0, 0, s);
        if !p.anchored {
            assert(q.segments[0] is AnyDepth);
            lemma_deep_earlier(q, parts, 1, 0, s);
        }
        assert(match_from(q, parts, 0, 0));
    } else {
        let d = choose|d: int|
            0 <= d < p.segments.len() && (d == 0 || !(p.segments[d] is AnyDepth))
                && #[trigger] within_from(p, q, d, 0);
        let k = lemma_passes_segment(p, parts, s, d);
        lemma_within_from(p, q, parts, d, 0, k);
        assert(0 <= k < len && match_from(q, parts, 0, k));
    }
}

/// [`crate::CodeOwners::shadowed`] lists, in file order, exactly the rules
/// covered by a later rule (see [`covers`]: the same pattern, a catch-all,
/// or a pattern found within the later one), and such a rule never decides
/// any path: a shadowed rule can never take effect.
pub proof fn law_shadowed_rules_never_decide(rules: Seq<RuleView>, path: Seq<char>)
    ensures
        ({
            let s = shadowed_indices(rules);
            &&& forall|k: int| 0 <= k < s.len() ==> 0 <= #[trigger] s[k] < rules.len()
            &&& forall|k1: int, k2: int| 0 <= k1 < k2 < s.len() ==> #[trigger] s[k1] < #[trigger] s[k2]
            &&& forall|i: int|
                0 <= i < rules.len() ==> (s.contains(i) <==> exists|j: int|
                    i < j < rules.len() && #[trigger] covers(rules, j, i))
            &&& forall|k: int|
                0 <= k < s.len() && pattern_matches(rules[#[trigger] s[k]].pattern, path) ==> exists|j: int|
                    s[k] < j < rules.len() && pattern_matches(#[trigger] rules[j].pattern, path)
            &&& forall|k: int| 0 <= k < s.len() ==> last_match(rules, path) != Some(#[trigger] s[k])
        }),
{
    let s = shadowed_indices(rules);
    lemma_shadowed_upto(rules, rules.len() as int);
    law_last_matching_rule_decides(rules, path);
    assert forall|i: int| 0 <= i < rules.len() implies (s.contains(i) <==> exists|j: int|
        i < j < rules.len() && #[trigger] covers(rules, j, i)) by {
        if s.contains(i) {
            let k = choose|k: int| 0 <= k < s.len() && s[k] == i;
            assert(is_shadowed(rules, s[k]));
        }
        if exists|j: int| i < j < rules.len() && #[trigger] covers(rules, j, i) {
            assert(is_shadowed(rules, i));
        }
    }
    assert forall|k: int| 0 <= k < s.len() && pattern_matches(rules[#[trigger] s[k]].pattern, path) implies exists|j: int|
        s[k] < j < rules.len() && pattern_matches(#[trigger] rules[j].pattern, path) by {
        let i = s[k];
        assert(is_shadowed(rules, i));
        let j = choose|j: int| i < j < rules.len() && #[trigger] covers(rules, j, i);
        lemma_covering_rule_matches(rules, i, j, path);
    }
    assert forall|k: int| 0 <= k < s.len() implies last_match(rules, path) != Some(
        #[trigger] s[k],
    ) by {
        let i = s[k];
        assert(is_shadowed(rules, i));
        let j = choose|j: int| i < j < rules.len() && #[trigger] covers(rules, j, i);
        if last_match(rules, path) == Some(i) {
            lemma_covering_rule_matches(rules, i, j, path);
        }
    }
}

/// A rule that covers rule `i` matches every path rule `i` matches.
proof fn lemma_covering_rule_matches(rules: Seq<RuleView>, i: int, j: int, path: Seq<char>)
    requires
        0 <= i < rules.len(),
        0 <= j < rules.len(),
        covers(rules, j, i),
        pattern_matches(rules[i].pattern, path),
    ensures
        pattern_matches(rules[j].pattern, path),
{
    if rules[j].pattern == rules[i].pattern {
    } else if catch_all(rules[j].pattern) {
        law_catch_all_matches_every_path(rules[j].pattern, path);
    } else {
        law_within_matches_less(rules[i].pattern, rules[j].pattern, path);
    }
}

/// Owners round-trip through their text: a token that parses as an owner is
/// exactly how [`crate::Owner::to_string`] writes that owner, so the text
/// parses back to the same owner.
pub proof fn law_owner_text_round_trips(tok: Seq<char>)
    ensures
        parse_owner(tok) matches Some(o) ==> owner_text(o) == tok && parse_owner(owner_text(o))
            == Some(o),
{
    if let Some(o) = parse_owner(tok) {
        if tok.len() > 0 && tok[0] == '@' {
            let rest = tok.drop_first();
            lemma_find(rest, '/');
            match split_once(rest, '/') {
                Some((org, team)) => {
                    assert(rest =~= org + seq!['/'] + team);
                    assert(owner_text(o) =~= tok);
                },
                None => {
                    assert(owner_text(o) =~= tok);
                },
            }
        }
    }
}

/// A leading `/` on a queried path is ignored: `/src/a.rs` and `src/a.rs`
/// are matched alike by every pattern.
pub proof fn law_leading_slash_ignored(raw: Seq<char>, path: Seq<char>)
    ensures
        pattern_matches(raw, seq!['/'] + path) == pattern_matches(raw, path),
{
    let c = seq!['/'] + path;
    lemma_runs_shift(seq!['/'], path, Sep::Slash, 0, 0);
    assert(runs_from(c, Sep::Slash, 0, 0) =~= runs_from(c, Sep::Slash, 1, 1));
    assert(path_parts(c) == path_parts(path));
}

/// Each outcome at index `i` that is a rule or an error carries number `i + 1`.
spec fn numbered(os: Seq<LineOutcome>) -> bool {
    forall|i: int|
        0 <= i < os.len() ==> match #[trigger] os[i] {
            LineOutcome::Accepted(r) => r.line == i + 1,
            LineOutcome::Rejected(e) => e.line == i + 1,
            LineOutcome::Blank => true,
        }
}

/// `rs` are the rules among the line outcomes `os`: each is the outcome of
/// the line it is numbered by, they are in line order, and no rule is missing.
pub open spec fn rules_account(os: Seq<LineOutcome>, rs: Seq<RuleView>) -> bool {
    &&& forall|k: int|
        0 <= k < rs.len() ==> 1 <= (#[trigger] rs[k]).line <= os.len() && os[rs[k].line - 1]
            == LineOutcome::Accepted(rs[k])
    &&& forall|k1: int, k2: int| 0 <= k1 < k2 < rs.len() ==> (#[trigger] rs[k1]).line < (#[trigger] rs[k2]).line
    &&& forall|i: int|
        0 <= i < os.len() && (#[trigger] os[i]) is Accepted ==> exists|k: int|
            0 <= k < rs.len() && (#[trigger] rs[k]).line == i + 1
}

/// `es` are the errors among the line outcomes `os`: each is the outcome of
/// the line it is numbered by, they are in line order, and none is missing.
pub open spec fn errors_account(os: Seq<LineOutcome>, es: Seq<ErrorView>) -> bool {
    &&& forall|k: int|
        0 <= k < es.len() ==> 1 <= (#[trigger] es[k]).line <= os.len() && os[es[k].line - 1]
            == LineOutcome::Rejected(es[k])
    &&& forall|k1: int, k2: int| 0 <= k1 < k2 < es.len() ==> (#[trigger] es[k1]).line < (#[trigger] es[k2]).line
    &&& forall|i: int|
        0 <= i < os.len() && (#[trigger] os[i]) is Rejected ==> exists|k: int|
            0 <= k < es.len() && (#[trigger] es[k]).line == i + 1
}

proof fn lemma_accepted(os: Seq<LineOutcome>)
    requires
        numbered(os),
    ensures
        rules_account(os, accepted(os)),
    decreases os.len(),
{
    if os.len() > 0 {
        let prev = os.drop_last();
        assert forall|i: int| 0 <= i < prev.len() implies match #[trigger] prev[i] {
            LineOutcome::Accepted(r) => r.line == i + 1,
            LineOutcome::Rejected(e) => e.line == i + 1,
            LineOutcome::Blank => true,
        } by {
            assert(prev[i] == os[i]);
        }
        lemma_accepted(prev);
        let ps = accepted(prev);
        let rs = accepted(os);
        let last = os.len() - 1;
        assert(os[last] == os.last());
        assert forall|i: int|
            0 <= i < os.len() && (#[trigger] os[i]) is Accepted implies exists|k: int|
                0 <= k < rs.len() && (#[trigger] rs[k]).line == i + 1 by {
            if i < last {
                assert(prev[i] == os[i]);
                let k = choose|k: int| 0 <= k < ps.len() && (#[trigger] ps[k]).line == i + 1;
                assert(rs[k] == ps[k]);
            } else {
                assert(rs[rs.len() - 1].line == i + 1);
            }
        }
        assert forall|k: int|
            0 <= k < rs.len() implies 1 <= (#[trigger] rs[k]).line <= os.len() && os[rs[k].line
                - 1] == LineOutcome::Accepted(rs[k]) by {
            if k < ps.len() {
                assert(rs[k] == ps[k]);
                assert(prev[ps[k].line - 1] == os[ps[k].line - 1]);
            }
        }
    }
}

proof fn lemma_rejected(os: Seq<LineOutcome>)
    requires
        numbered(os),
    ensures
        errors_account(os, rejected(os)),
    decreases os.len(),
{
    if os.len() > 0 {
        let prev = os.drop_last();
        assert forall|i: int| 0 <= i < prev.len() implies match #[trigger] prev[i] {
            LineOutcome::Accepted(r) => r.line == i + 1,
            LineOutcome::Rejected(e) => e.line == i + 1,
            LineOutcome::Blank => true,
        } by {
            assert(prev[i] == os[i]);
        }
        lemma_rejected(prev);
        let ps = rejected(prev);
        let es = rejected(os);
        let last = os.len() - 1;
        assert(os[last] == os.last());
        assert forall|i: int|
            0 <= i < os.len() && (#[trigger] os[i]) is Rejected implies exists|k: int|
                0 <= k < es.len() && (#[trigger] es[k]).line == i + 1 by {
            if i < last {
                assert(prev[i] == os[i]);
                let k = choose|k: int| 0 <= k < ps.len() && (#[trigger] ps[k]).line == i + 1;
                assert(es[k] == ps[k]);
            } else {
                assert(es[es.len() - 1].line == i + 1);
            }
        }
        assert forall|k: int|
            0 <= k < es.len() implies 1 <= (#[trigger] es[k]).line <= os.len() && os[es[k].line
                - 1] == LineOutcome::Rejected(es[k]) by {
            if k < ps.len() {
                assert(es[k] == ps[k]);
                assert(prev[ps[k].line - 1] == os[ps[k].line - 1]);
            }
        }
    }
}

/// Parsing never fails and loses no line: every line of the file that is
/// more than white space and comment becomes exactly one rule or exactly one
/// error, carrying its 1-based line number, and both lists are in file
/// order.
pub proof fn law_every_line_accounted_for(text: Seq<char>)
    ensures
        rules_account(outcomes(text), parsed_rules(text)),
        errors_account(outcomes(text), parsed_errors(text)),
{
    let os = outcomes(text);
    assert forall|i: int| 0 <= i < os.len() implies match #[trigger] os[i] {
        LineOutcome::Accepted(r) => r.line == i + 1,
        LineOutcome::Rejected(e) => e.line == i + 1,
        LineOutcome::Blank => true,
    } by {}
    lemma_accepted(os);
    lemma_rejected(os);
}

/// Matching is unaffected by path segments placed before the position the
/// match starts from (`deep` selects [`deep_from`] over [`match_from`]).
proof fn lemma_match_shift(
    sh: PatternShape,
    pre: Seq<Seq<char>>,
    parts: Seq<Seq<char>>,
    pi: int,
    si: int,
    deep: bool,
)
    requires
        0 <= si <= parts.len(),
    ensures
        deep ==> deep_from(sh, pre + parts, pi, pre.len() + si) == deep_from(sh, parts, pi, si),
        !deep ==> match_from(sh, pre + parts, pi, pre.len() + si) == match_from(sh, parts, pi, si),
    decreases sh.segments.len() - pi, if deep {
        2int
    } else {
        1int
    }, parts.len() - si,
{
    let all = pre + parts;
    if deep {
        lemma_match_shift(sh, pre, parts, pi, si, false);
        if si < parts.len() {
            lemma_match_shift(sh, pre, parts, pi, si + 1, true);
        }
    } else if 0 <= pi < sh.segments.len() {
        match sh.segments[pi] {
            SegmentShape::AnyDepth => {
                lemma_match_shift(sh, pre, parts, pi + 1, si, true);
            },
            _ => {
                if si < parts.len() {
                    assert(all[pre.len() + si] == parts[si]);
                    lemma_match_shift(sh, pre, parts, pi + 1, si + 1, false);
                }
            },
        }
    }
}

/// A pattern not tied to the root matches at any depth: when it matches
/// `path`, it matches `dir/path` for every `dir`.
pub proof fn law_unanchored_matches_at_any_depth(raw: Seq<char>, dir: Seq<char>, path: Seq<char>)
    requires
        compile(raw) is Ok,
        !compile(raw)->Ok_0.anchored,
        pattern_matches(raw, path),
    ensures
        pattern_matches(raw, dir + seq!['/'] + path),
{
    let sh = compile(raw)->Ok_0;
    let pre = path_parts(dir);
    let parts = path_parts(path);
    lemma_runs_concat(dir, path);
    assert(path_parts(dir + seq!['/'] + path) == pre + parts);
    let start = choose|start: int| 0 <= start < parts.len() && #[trigger] match_from(sh, parts, 0, start);
    lemma_match_shift(sh, pre, parts, 0, start, false);
    assert(0 <= pre.len() + start < (pre + parts).len() && match_from(sh, pre + parts, 0, pre.len() + start));
}

/// Matching survives path segments appended after the end of the path, for
/// a pattern that names a directory (ends in `/` or in a literal segment).
proof fn lemma_match_extend(
    sh: PatternShape,
    parts: Seq<Seq<char>>,
    more: Seq<Seq<char>>,
    pi: int,
    si: int,
    deep: bool,
)
    requires
        sh.dir_only || sh.trailing_literal,
        more.len() > 0,
        0 <= si <= parts.len(),
    ensures
        deep ==> deep_from(sh, parts, pi, si) ==> deep_from(sh, parts + more, pi, si),
        !deep ==> match_from(sh, parts, pi, si) ==> match_from(sh, parts + more, pi, si),
    decreases sh.segments.len() - pi, if deep {
        2int
    } else {
        1int
    }, parts.len() - si,
{
    let all = parts + more;
    if deep {
        lemma_match_extend(sh, parts, more, pi, si, false);
        if si < parts.len() {
            lemma_match_extend(sh, parts, more, pi, si + 1, true);
        }
    } else if 0 <= pi < sh.segments.len() {
        match sh.segments[pi] {
            SegmentShape::AnyDepth => {
                lemma_match_extend(sh, parts, more, pi + 1, si, true);
            },
            _ => {
                if si < parts.len() {
                    assert(all[si] == parts[si]);
                    lemma_match_extend(sh, parts, more, pi + 1, si + 1, false);
                }
            },
        }
    }
}

/// A pattern that names a directory covers everything beneath it: when a
/// pattern ending in `/` or in a literal segment matches `path`, it matches
/// `path/rest` for every `rest` with at least one segment.
pub proof fn law_directory_pattern_covers_descendants(
    raw: Seq<char>,
    path: Seq<char>,
    rest: Seq<char>,
)
    requires
        compile(raw) is Ok,
        compile(raw)->Ok_0.dir_only || compile(raw)->Ok_0.trailing_literal,
        pattern_matches(raw, path),
        path_parts(rest).len() > 0,
    ensures
        pattern_matches(raw, path + seq!['/'] + rest),
{
    let sh = compile(raw)->Ok_0;
    let parts = path_parts(path);
    let more = path_parts(rest);
    lemma_runs_concat(path, rest);
    assert(path_parts(path + seq!['/'] + rest) == parts + more);
    if sh.anchored {
        lemma_match_extend(sh, parts, more, 0, 0, false);
    } else {
        let start = choose|start: int| 0 <= start < parts.len() && #[trigger] match_from(sh, parts, 0, start);
        lemma_match_extend(sh, parts, more, 0, start, false);
        assert(0 <= start < (parts + more).len() && match_from(sh, parts + more, 0, start));
    }
}

/// Under a pattern whose last segment is the glob `g` and that does not end
/// in `/`, a match from segment `pi` on ends with `g` matching the final part.
proof fn lemma_glob_tail(sh: PatternShape, g: Seq<char>, parts: Seq<Seq<char>>, pi: int, si: int, deep: bool)
    requires
        sh.segments.len() > 0,
        sh.segments.last() == SegmentShape::Glob(g),
        !sh.dir_only,
        !sh.trailing_literal,
        0 <= pi < sh.segments.len(),
    ensures
        deep ==> deep_from(sh, parts, pi, si) ==> parts.len() > 0 && glob(g, parts.last()),
        !deep ==> match_from(sh, parts, pi, si) ==> parts.len() > 0 && glob(g, parts.last()),
    decreases sh.segments.len() - pi, if deep {
        2int
    } else {
        1int
    }, parts.len() - si,
{
    let last = sh.segments.len() - 1;
    if deep {
        if 0 <= si <= parts.len() {
            lemma_glob_tail(sh, g, parts, pi, si, false);
            if si < parts.len() {
                lemma_glob_tail(sh, g, parts, pi, si + 1, true);
            }
        }
    } else if pi == last {
        assert(sh.segments[pi] == SegmentShape::Glob(g));
        if match_from(sh, parts, pi, si) {
            assert(match_from(sh, parts, pi + 1, si + 1));
            assert(si + 1 == parts.len());
            assert(parts[si] == parts.last());
        }
    } else {
        match sh.segments[pi] {
            SegmentShape::AnyDepth => {
                lemma_glob_tail(sh, g, parts, pi + 1, si, true);
            },
            _ => {
                lemma_glob_tail(sh, g, parts, pi + 1, si + 1, false);
            },
        }
    }
}

/// A `*` in the last segment never stands for a directory: a pattern that
/// does not end in `/` and whose last segment is a wildcard glob `g` matches
/// only paths whose final segment `g` matches (so `docs/*` owns the files in
/// `docs`, and a nested `docs/a/b.md` only through `b.md` itself).
pub proof fn law_wildcard_tail_matches_final_segment(raw: Seq<char>, g: Seq<char>, path: Seq<char>)
    requires
        compile(raw) is Ok,
        compile(raw)->Ok_0.segments.last() == SegmentShape::Glob(g),
        !compile(raw)->Ok_0.dir_only,
        pattern_matches(raw, path),
    ensures
        path_parts(path).len() > 0 && glob(g, path_parts(path).last()),
{
    let sh = compile(raw)->Ok_0;
    let parts = path_parts(path);
    if sh.anchored {
        lemma_glob_tail(sh, g, parts, 0, 0, false);
    } else {
        let start = choose|start: int| 0 <= start < parts.len() && #[trigger] match_from(sh, parts, 0, start);
        lemma_glob_tail(sh, g, parts, 0, start, false);
    }
}

/// Turning the error at index `i` of `os` into a blank keeps the rules and
/// removes just that error, at position `k`: the number of errors before it.
proof fn lemma_blank_rejected(os: Seq<LineOutcome>, i: int)
    requires
        0 <= i < os.len(),
        os[i] is Rejected,
    ensures
        ({
            let blanked = os.update(i, LineOutcome::Blank);
            let errs = rejected(os);
            let k = rejected(os.take(i)).len() as int;
            &&& accepted(blanked) == accepted(os)
            &&& 0 <= k < errs.len()
            &&& errs[k] == os[i]->Rejected_0
            &&& rejected(blanked) == errs.remove(k)
        }),
    decreases os.len(),
{
    let blanked = os.update(i, LineOutcome::Blank);
    let d = os.drop_last();
    let last = os.len() - 1;
    assert(os.last() == os[last]);
    if i == last {
        assert(blanked.drop_last() =~= d);
        assert(os.take(i) =~= d);
        assert(rejected(blanked) =~= rejected(os).remove(rejected(d).len() as int));
    } else {
        assert(blanked.drop_last() =~= d.update(i, LineOutcome::Blank));
        assert(d[i] == os[i]);
        assert(d.take(i) =~= os.take(i));
        lemma_blank_rejected(d, i);
        assert(blanked.last() == os.last());
        let k = rejected(os.take(i)).len() as int;
        assert(rejected(blanked) =~= rejected(os).remove(k));
    }
}

/// A blank line turns into nothing.
proof fn lemma_empty_line_is_blank(number: nat)
    ensures
        line_outcome(seq![], number) == LineOutcome::Blank,
{
    let e: Seq<char> = seq![];
    assert(lead_from(e, 0) == 0);
    assert(tail_from(e, 0) == 0);
    assert(e.take(0) =~= e);
}

/// Skipping an invalid line is local: in a file whose lines are `ls`, if line
/// `i` is an error, then emptying that line leaves the rules exactly as they
/// were and removes exactly that one error (the `k`-th, where `k` errors
/// come before it), leaving the other errors in order.
pub proof fn law_blanking_an_invalid_line(ls: Seq<Seq<char>>, i: int)
    requires
        0 <= i < ls.len(),
        line_outcome(ls[i], (i + 1) as nat) is Rejected,
    ensures
        ({
            let os = outcomes_of(ls);
            let blanked = outcomes_of(ls.update(i, seq![]));
            let k = rejected(os.take(i)).len() as int;
            &&& accepted(blanked) == accepted(os)
            &&& 0 <= k < rejected(os).len()
            &&& rejected(os)[k] == line_outcome(ls[i], (i + 1) as nat)->Rejected_0
            &&& rejected(blanked) == rejected(os).remove(k)
        }),
{
    let os = outcomes_of(ls);
    lemma_empty_line_is_blank((i + 1) as nat);
    assert(outcomes_of(ls.update(i, seq![])) =~= os.update(i, LineOutcome::Blank));
    lemma_blank_rejected(os, i);
}

/// The number of line feeds in `s` from index `i` on.
pub open spec fn line_feeds_from(s: Seq<char>, i: int) -> nat
    decreases s.len() - i,
{
    if i < 0 || i >= s.len() {
        0
    } else {
        (if s[i] == '\n' { 1nat } else { 0nat }) + line_feeds_from(s, i + 1)
    }
}

/// With no line feed from `k` on, the text does not end in one.
proof fn lemma_no_feed_tail(s: Seq<char>, k: int)
    requires
        0 <= k < s.len(),
        line_feeds_from(s, k) == 0,
    ensures
        s.last() != '\n',
    decreases s.len() - k,
{
    if k + 1 < s.len() {
        lemma_no_feed_tail(s, k + 1);
    }
}

proof fn lemma_lines_count(s: Seq<char>, i: int, start: int)
    requires
        0 <= start <= i <= s.len(),
    ensures
        lines_from(s, i, start).len() == line_feeds_from(s, i) + if line_feeds_from(s, i) > 0 {
            if s.last() != '\n' { 1int } else { 0int }
        } else {
            if start < s.len() { 1int } else { 0int }
        },
    decreases s.len() - i,
{
    if i < s.len() {
        if s[i] == '\n' {
            lemma_lines_count(s, i + 1, i + 1);
            if line_feeds_from(s, i + 1) == 0 && i + 1 < s.len() {
                lemma_no_feed_tail(s, i + 1);
            }
        } else {
            lemma_lines_count(s, i + 1, start);
        }
    }
}

/// A text has one line per line feed, plus one more when it does not end in
/// a line feed: only line feeds end lines, so a carriage return before a
/// line feed (a CRLF file) does not start another line and later line
/// numbers are not shifted.
pub proof fn law_one_line_per_line_feed(s: Seq<char>)
    ensures
        lines(s).len() == line_feeds_from(s, 0) + if s.len() > 0 && s.last() != '\n' {
            1int
        } else {
            0int
        },
        forall|k: int| 0 <= k < lines(s).len() ==> !(#[trigger] lines(s)[k]).contains('\n'),
{
    lemma_lines_count(s, 0, 0);
    if s.len() > 0 && line_feeds_from(s, 0) == 0 {
        lemma_no_feed_tail(s, 0);
    }
    lemma_lines_have_no_feed(s, 0, 0);
}

proof fn lemma_lines_have_no_feed(s: Seq<char>, i: int, start: int)
    requires
        0 <= start <= i <= s.len(),
        forall|x: int| start <= x < i ==> s[x] != '\n',
    ensures
        forall|k: int|
            0 <= k < lines_from(s, i, start).len() ==> !(#[trigger] lines_from(s, i, start)[k]).contains(
                '\n',
            ),
    decreases s.len() - i,
{
    let l = lines_from(s, i, start);
    if i >= s.len() {
        if start < s.len() {
            let piece = s.subrange(start, s.len() as int);
            assert(!piece.contains('\n')) by {
                if piece.contains('\n') {
                    let x = choose|x: int| 0 <= x < piece.len() && piece[x] == '\n';
                    assert(s[start + x] == '\n');
                }
            }
            assert(l =~= seq![piece]);
        }
    } else if s[i] == '\n' {
        lemma_lines_have_no_feed(s, i + 1, i + 1);
        let piece = s.subrange(start, i);
        assert(!piece.contains('\n')) by {
            if piece.contains('\n') {
                let x = choose|x: int| 0 <= x < piece.len() && piece[x] == '\n';
                assert(s[start + x] == '\n');
            }
        }
        let rest = lines_from(s, i + 1, i + 1);
        assert forall|k: int| 0 <= k < l.len() implies !(#[trigger] l[k]).contains('\n') by {
            if k > 0 {
                assert(l[k] == rest[k - 1]);
            }
        }
    } else {
        lemma_lines_have_no_feed(s, i + 1, start);
        assert(l == lines_from(s, i + 1, start));
    }
}

/// Any token that is not `@...`, with text before its first `@` and a
/// domain after it that holds a `.` and does not start with one, is an
/// email owner, written as the whole token: nothing else about the local
/// part or the domain is checked.
pub proof fn law_permissive_email(local: Seq<char>, domain: Seq<char>)
    requires
        local.len() > 0,
        !local.contains('@'),
        domain.contains('.'),
        domain[0] != '.',
    ensures
        parse_owner(local + seq!['@'] + domain) == Some(OwnerView::Email(local + seq!['@'] + domain)),
{
    let tok = local + seq!['@'] + domain;
    lemma_find(tok, '@');
    let i = crate::text::find(tok, '@');
    assert(tok[local.len() as int] == '@');
    if i < local.len() {
        assert(local[i] == '@');
        assert(false);
    }
    assert(i == local.len());
    assert(tok.take(i) =~= local);
    assert(tok.skip(i + 1) =~= domain);
    assert(tok[0] == local[0]);
}

/// Exactly those tokens are email owners: an email owner is always the
/// whole token, which splits at its first `@` into a non-empty local part
/// and a domain that holds a `.` and does not start with one.
pub proof fn law_email_owners_are_those_tokens(tok: Seq<char>)
    ensures
        parse_owner(tok) matches Some(OwnerView::Email(e)) ==> e == tok && exists|i: int|
            0 < i < tok.len() && tok[i] == '@' && !tok.take(i).contains('@') && tok.skip(i + 1).contains(
                '.',
            ) && tok[i + 1] != '.',
{
    if let Some(OwnerView::Email(e)) = parse_owner(tok) {
        lemma_find(tok, '@');
        let i = crate::text::find(tok, '@');
        let domain = tok.skip(i + 1);
        assert(!tok.take(i).contains('@')) by {
            if tok.take(i).contains('@') {
                let x = choose|x: int| 0 <= x < i && tok.take(i)[x] == '@';
                assert(tok[x] == '@');
            }
        }
        assert(domain.len() > 0);
        assert(tok[i + 1] == domain[0]);
    }
}

/// A glob is found within itself from any index on.
proof fn lemma_glob_within_itself(h: Seq<char>, j: int)
    requires
        0 <= j <= h.len(),
    ensures
        crate::glob::glob_within_at(h, h, j, j),
    decreases h.len() - j,
{
    if j < h.len() {
        lemma_glob_within_itself(h, j + 1);
        if h[j] == '*' {
            assert(crate::glob::glob_within_at(h, h, j + 1, j));
        }
    }
}

/// A compiled pattern is found within itself from any segment on.
proof fn lemma_within_itself(p: PatternShape, i: int)
    requires
        0 <= i <= p.segments.len(),
    ensures
        within_from(p, p, i, i),
    decreases p.segments.len() - i,
{
    if i < p.segments.len() {
        lemma_within_itself(p, i + 1);
        if p.segments[i] is AnyDepth {
            assert(within_from(p, p, i + 1, i));
        } else if let SegmentShape::Glob(h) = p.segments[i] {
            lemma_glob_within_itself(h, 0);
        }
    }
}

/// Every pattern is found within itself, `**` and all: the side-by-side
/// walk of [`pattern_within`] recognises a pattern written twice.
pub proof fn law_pattern_within_itself(raw: Seq<char>)
    requires
        compile(raw) is Ok,
    ensures
        pattern_within(raw, raw),
{
    let p = compile(raw)->Ok_0;
    lemma_within_itself(p, 0);
    if !p.anchored {
        assert(0 <= 0 < p.segments.len() && within_from(p, p, 0, 0));
    }
}

/// A rule followed by a later rule with the same pattern can never take
/// effect and is reported as shadowed.
pub proof fn law_repeated_pattern_is_shadowed(rules: Seq<RuleView>, i: int, j: int)
    requires
        0 <= i < j < rules.len(),
        rules[j].pattern == rules[i].pattern,
    ensures
        shadowed_indices(rules).contains(i),
{
    if compile(rules[i].pattern) is Ok {
        law_pattern_within_itself(rules[i].pattern);
    }
    assert(covers(rules, j, i));
    law_shadowed_rules_never_decide(rules, seq![]);
}

/// A pattern holding a `/` other than a final one is tied to the root of
/// the repository: unless it starts with `**`, the first segment of every
/// path it matches is matched by its first segment, so `build/logs` does not
/// match `src/build/logs/error.log`.
pub proof fn law_slash_ties_pattern_to_root(raw: Seq<char>, path: Seq<char>)
    requires
        crate::pattern::pattern_body(raw).contains('/'),
        compile(raw) is Ok,
        !(compile(raw)->Ok_0.segments[0] is AnyDepth),
        pattern_matches(raw, path),
    ensures
        segment_matches(compile(raw)->Ok_0.segments[0], path_parts(path)[0]),
{
    let sh = compile(raw)->Ok_0;
    assert(match_from(sh, path_parts(path), 0, 0));
}

} // verus!
