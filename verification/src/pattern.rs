//! CODEOWNERS path patterns.
//!
//! They look like gitignore patterns, but follow the documented CODEOWNERS
//! rules: no `!` negation, no `[ ]` ranges, and a `*` never reaches past a
//! `/`, not even through a matched directory.

use vstd::prelude::*;
use crate::glob::{glob, glob_match, glob_within, glob_within_match};
use crate::text::{has_char, locates, run_spans, runs, same_chars, string_of, chars_of, Sep};

verus! {

/// Why a pattern could not be compiled.
#[derive(Debug, Clone, Copy, PartialEq, Eq, Structural)]
#[non_exhaustive]
pub enum PatternError {
    /// The pattern was empty.
    Empty,
    /// `!` negation. Explicitly unsupported by GitHub in CODEOWNERS files.
    Negation,
    /// `[` or `]` character range. Explicitly unsupported by GitHub.
    CharacterRange,
}

impl PatternError {
    /// The human-readable description of this error.
    pub open spec fn message(self) -> Seq<char> {
        match self {
            PatternError::Empty => "empty pattern"@,
            PatternError::Negation => "`!` negation is not supported in CODEOWNERS"@,
            PatternError::CharacterRange => "`[ ]` character ranges are not supported in CODEOWNERS"@,
        }
    }

    /// The human-readable description of this error.
    pub fn to_string(&self) -> (s: String)
        ensures
            s@ == self.message(),
    {
        match self {
            PatternError::Empty => "empty pattern".to_owned(),
            PatternError::Negation => "`!` negation is not supported in CODEOWNERS".to_owned(),
            PatternError::CharacterRange => "`[ ]` character ranges are not supported in CODEOWNERS".to_owned(),
        }
    }
}

/// What one `/`-separated piece of a pattern stands for.
pub enum SegmentShape {
    /// `**`: any number of whole path segments, including none.
    AnyDepth,
    /// No wildcard: exactly this segment.
    Literal(Seq<char>),
    /// Holds `*` or `?`: a segment matching this glob.
    Glob(Seq<char>),
}

/// The meaning of one pattern segment written as `s`.
pub open spec fn segment_of(s: Seq<char>) -> SegmentShape {
    if s == seq!['*', '*'] {
        SegmentShape::AnyDepth
    } else if s.contains('*') || s.contains('?') {
        SegmentShape::Glob(s)
    } else {
        SegmentShape::Literal(s)
    }
}

/// Whether the path segment `text` is matched by `seg`.
pub open spec fn segment_matches(seg: SegmentShape, text: Seq<char>) -> bool {
    match seg {
        SegmentShape::AnyDepth => true,
        SegmentShape::Literal(l) => l == text,
        SegmentShape::Glob(g) => glob(g, text),
    }
}

/// A compiled pattern.
pub struct PatternShape {
    /// The segments, in order.
    pub segments: Seq<SegmentShape>,
    /// Tied to the repository root rather than matching at any depth.
    pub anchored: bool,
    /// Ended with `/`: matches only inside a directory.
    pub dir_only: bool,
    /// The last segment has no wildcard, so the pattern may also name a
    /// directory and match everything beneath it.
    pub trailing_literal: bool,
}

/// `raw` without one trailing `/`.
pub open spec fn pattern_body(raw: Seq<char>) -> Seq<char> {
    if raw.len() > 0 && raw.last() == '/' {
        raw.drop_last()
    } else {
        raw
    }
}

/// What the pattern text `raw` compiles to.
///
/// Empty patterns (also those made only of slashes), `!` negation and
/// `[ ]` character ranges are refused. A pattern is anchored when it holds a
/// `/` anywhere but as its last character.
pub open spec fn compile(raw: Seq<char>) -> Result<PatternShape, PatternError> {
    if raw.len() == 0 {
        Err(PatternError::Empty)
    } else if raw[0] == '!' {
        Err(PatternError::Negation)
    } else if raw.contains('[') || raw.contains(']') {
        Err(PatternError::CharacterRange)
    } else {
        let body = pattern_body(raw);
        let segments = runs(body, Sep::Slash).map_values(|s: Seq<char>| segment_of(s));
        if segments.len() == 0 {
            Err(PatternError::Empty)
        } else {
            Ok(
                PatternShape {
                    segments,
                    anchored: body.contains('/'),
                    dir_only: raw.last() == '/',
                    trailing_literal: segments.last() is Literal,
                },
            )
        }
    }
}

/// Whether a match that consumed the path up to part `si` of `len` counts.
///
/// Stopping early means the pattern named a directory holding the path: that
/// counts for a pattern ending in `/` (which must stop early) and for one
/// ending in a literal segment, never for one ending in a wildcard.
pub open spec fn terminal_ok(sh: PatternShape, si: int, len: int) -> bool {
    if sh.dir_only {
        si < len
    } else if si == len {
        true
    } else {
        sh.trailing_literal
    }
}

/// Whether the segments of `sh` from `pi` on match `parts` from `si` on.
pub open spec fn match_from(sh: PatternShape, parts: Seq<Seq<char>>, pi: int, si: int) -> bool
    decreases sh.segments.len() - pi, 1int, 0int,
{
    if pi >= sh.segments.len() || pi < 0 {
        terminal_ok(sh, si, parts.len() as int)
    } else {
        match sh.segments[pi] {
            SegmentShape::AnyDepth => deep_from(sh, parts, pi + 1, si),
            seg => 0 <= si < parts.len() && segment_matches(seg, parts[si]) && match_from(
                sh,
                parts,
                pi + 1,
                si + 1,
            ),
        }
    }
}

/// Whether the segments of `sh` from `pi` on match `parts` from some
/// position at or after `k` on: what a `**` just before segment `pi` needs.
pub open spec fn deep_from(sh: PatternShape, parts: Seq<Seq<char>>, pi: int, k: int) -> bool
    decreases sh.segments.len() - pi, 2int, parts.len() - k,
{
    if k < 0 || k > parts.len() {
        false
    } else {
        match_from(sh, parts, pi, k) || (k < parts.len() && deep_from(sh, parts, pi, k + 1))
    }
}

/// The segments of a path: its pieces between slashes, empty ones dropped.
pub open spec fn path_parts(path: Seq<char>) -> Seq<Seq<char>> {
    runs(path, Sep::Slash)
}

/// Whether the compiled pattern `sh` matches `path`. An anchored pattern
/// must match from the first segment of the path, any other from any
/// segment.
pub open spec fn shape_matches(sh: PatternShape, path: Seq<char>) -> bool {
    let parts = path_parts(path);
    &&& parts.len() > 0
    &&& if sh.anchored {
        match_from(sh, parts, 0, 0)
    } else {
        exists|start: int| 0 <= start < parts.len() && #[trigger] match_from(sh, parts, 0, start)
    }
}

/// Whether the pattern written as `raw` matches `path`. A pattern that does
/// not compile matches nothing.
pub open spec fn pattern_matches(raw: Seq<char>, path: Seq<char>) -> bool {
    match compile(raw) {
        Ok(sh) => shape_matches(sh, path),
        Err(_) => false,
    }
}

/// Whether `g` is made only of stars.
pub open spec fn all_stars(g: Seq<char>) -> bool {
    forall|i: int| 0 <= i < g.len() ==> g[i] == '*'
}

/// Whether the compiled pattern `sh` is a catch-all: all its segments are
/// `**` (as in `**`, `/**`, `**/`), or it is a single segment of stars not
/// tied to the root and not ending in `/` (as in `*`).
pub open spec fn catch_all_shape(sh: PatternShape) -> bool {
    ||| forall|i: int| 0 <= i < sh.segments.len() ==> sh.segments[i] is AnyDepth
    ||| {
        &&& !sh.anchored
        &&& !sh.dir_only
        &&& sh.segments.len() == 1
        &&& sh.segments[0] matches SegmentShape::Glob(g) && all_stars(g)
    }
}

/// Whether the pattern written as `raw` is a catch-all (see
/// [`catch_all_shape`]); such a pattern matches every path.
pub open spec fn catch_all(raw: Seq<char>) -> bool {
    match compile(raw) {
        Ok(sh) => catch_all_shape(sh),
        Err(_) => false,
    }
}

/// Whether every path segment that `a` matches is matched by `b`, as told
/// from the two segments alone: equal literals, a literal that the glob `b`
/// matches, or a glob found within the glob `b` (see [`glob_within`]). A
/// `**` on either side is not a single segment and is never within.
pub open spec fn segment_within(a: SegmentShape, b: SegmentShape) -> bool {
    match (a, b) {
        (SegmentShape::Literal(x), SegmentShape::Literal(y)) => x == y,
        (SegmentShape::Literal(x), SegmentShape::Glob(g)) => glob(g, x),
        (SegmentShape::Glob(h), SegmentShape::Glob(g)) => glob_within(h, g),
        _ => false,
    }
}

/// Whether, with both patterns used up at the same point of the path, every
/// stop that `p` accepts is one that `q` accepts too.
pub open spec fn ends_within(p: PatternShape, q: PatternShape) -> bool {
    if q.dir_only {
        p.dir_only
    } else if q.trailing_literal {
        true
    } else {
        !p.dir_only && !p.trailing_literal
    }
}

/// Whether, with `q` used up where `p` still has segment `pi` and more to
/// match, stopping there is one that `q` accepts: `q` may name a directory
/// holding the path, and `p` has more of the path to consume or must itself
/// stop inside a directory.
pub open spec fn rest_within(p: PatternShape, q: PatternShape, pi: int) -> bool {
    if q.dir_only {
        p.dir_only || !(p.segments[pi] is AnyDepth)
    } else {
        q.trailing_literal
    }
}

/// Whether whatever the segments of `p` from `pi` on match, from a given
/// point of a path to its end, the segments of `q` from `qi` on match from
/// that same point: the two are walked side by side, a `**` of `q` taking up
/// any number of the segments of `p`, other segments paired one for one by
/// [`segment_within`].
pub open spec fn within_from(p: PatternShape, q: PatternShape, pi: int, qi: int) -> bool
    decreases p.segments.len() - pi + q.segments.len() - qi,
{
    if pi < 0 || qi < 0 || pi > p.segments.len() || qi > q.segments.len() {
        false
    } else if qi < q.segments.len() && q.segments[qi] is AnyDepth {
        within_from(p, q, pi, qi + 1) || (pi < p.segments.len() && within_from(p, q, pi + 1, qi))
    } else if qi == q.segments.len() {
        if pi == p.segments.len() {
            ends_within(p, q)
        } else {
            rest_within(p, q, pi)
        }
    } else {
        pi < p.segments.len() && segment_within(p.segments[pi], q.segments[qi]) && within_from(
            p,
            q,
            pi + 1,
            qi + 1,
        )
    }
}

/// Whether the compiled pattern `p` is found within `q`: `q` matches every
/// path that `p` matches, as shown by walking the two side by side (see
/// [`within_from`]).
///
/// A `q` tied to the root must be walked from the first segment of `p`, and
/// `p` must then be tied to the root too unless `q` starts with `**`. Any
/// other `q` may be walked from the first segment of `p` or from any later
/// single segment of `p`, wherever in the path that segment stands.
pub open spec fn shape_within(p: PatternShape, q: PatternShape) -> bool {
    if q.anchored {
        &&& q.segments.len() > 0
        &&& within_from(p, q, 0, 0)
        &&& p.anchored || q.segments[0] is AnyDepth
    } else {
        exists|d: int|
            0 <= d < p.segments.len() && (d == 0 || !(p.segments[d] is AnyDepth))
                && #[trigger] within_from(p, q, d, 0)
    }
}

/// Whether the pattern written as `inner` is found within the one written as
/// `outer` (see [`shape_within`]): every path the first matches, the second
/// matches too.
pub open spec fn pattern_within(inner: Seq<char>, outer: Seq<char>) -> bool {
    match (compile(inner), compile(outer)) {
        (Ok(p), Ok(q)) => shape_within(p, q),
        _ => false,
    }
}

fn only_stars(g: &[char]) -> (r: bool)
    ensures
        r == all_stars(g@),
{
    let m = g.len();
    let mut k: usize = 0;
    while k < m
        invariant
            m == g@.len(),
            0 <= k <= m,
            forall|j: int| 0 <= j < k ==> g@[j] == '*',
        decreases m - k,
    {
        if g[k] != '*' {
            return false;
        }
        k += 1;
    }
    true
}

#[derive(Debug, PartialEq, Eq)]
enum Segment {
    AnyDepth,
    Literal(String),
    Glob(String),
}

impl View for Segment {
    type V = SegmentShape;

    closed spec fn view(&self) -> SegmentShape {
        match self {
            Segment::AnyDepth => SegmentShape::AnyDepth,
            Segment::Literal(l) => SegmentShape::Literal(l@),
            Segment::Glob(g) => SegmentShape::Glob(g@),
        }
    }
}

impl Segment {
    fn new(s: &[char]) -> (seg: Segment)
        ensures
            seg@ == segment_of(s@),
    {
        if s.len() == 2 && s[0] == '*' && s[1] == '*' {
            assert(s@ =~= seq!['*', '*']);
            Segment::AnyDepth
        } else if has_char(s, '*') || has_char(s, '?') {
            Segment::Glob(string_of(s))
        } else {
            Segment::Literal(string_of(s))
        }
    }

    fn matches(&self, text: &[char]) -> (r: bool)
        ensures
            r == segment_matches(self@, text@),
    {
        match self {
            Segment::AnyDepth => true,
            Segment::Literal(l) => {
                let cs = chars_of(l.as_str());
                same_chars(cs.as_slice(), text)
            },
            Segment::Glob(g) => {
                let cs = chars_of(g.as_str());
                glob_match(cs.as_slice(), text)
            },
        }
    }
}

impl Segment {
    /// Whether every path segment this one matches, `other` matches too (see
    /// [`segment_within`]).
    fn within(&self, other: &Segment) -> (r: bool)
        ensures
            r == segment_within(self@, other@),
    {
        match (self, other) {
            (Segment::Literal(x), Segment::Literal(y)) => *x == *y,
            (Segment::Literal(x), Segment::Glob(g)) => {
                let gs = chars_of(g.as_str());
                let xs = chars_of(x.as_str());
                glob_match(gs.as_slice(), xs.as_slice())
            },
            (Segment::Glob(h), Segment::Glob(g)) => {
                let hs = chars_of(h.as_str());
                let gs = chars_of(g.as_str());
                glob_within_match(hs.as_slice(), gs.as_slice())
            },
            _ => false,
        }
    }
}

/// A compiled CODEOWNERS path pattern.
#[derive(Debug, PartialEq, Eq)]
pub struct Pattern {
    raw: String,
    segments: Vec<Segment>,
    anchored: bool,
    dir_only: bool,
    trailing_literal: bool,
}

impl View for Pattern {
    type V = Seq<char>;

    /// The pattern text.
    closed spec fn view(&self) -> Seq<char> {
        self.raw@
    }
}

impl Clone for Pattern {
    /// A copy of this pattern.
    fn clone(&self) -> (p: Self)
        ensures
            p@ == self@,
    {
        proof {
            use_type_invariant(self);
        }
        let cs = chars_of(self.raw.as_str());
        Self::from_chars(cs.as_slice()).unwrap()
    }
}

impl Pattern {
    closed spec fn shape(&self) -> PatternShape {
        PatternShape {
            segments: self.segments@.map_values(|g: Segment| g@),
            anchored: self.anchored,
            dir_only: self.dir_only,
            trailing_literal: self.trailing_literal,
        }
    }

    #[verifier::type_invariant]
    closed spec fn compiled(&self) -> bool {
        compile(self.raw@) == Ok::<PatternShape, PatternError>(self.shape())
    }

    /// Compile a raw pattern string.
    ///
    /// Fails with [`PatternError`] for empty patterns and for the gitignore
    /// features GitHub documents as non-functional in CODEOWNERS.
    pub fn new(raw: &str) -> (r: Result<Pattern, PatternError>)
        ensures
            match compile(raw@) {
                Ok(_) => r matches Ok(p) && p@ == raw@,
                Err(e) => r == Err::<Pattern, PatternError>(e),
            },
    {
        let cs = chars_of(raw);
        Self::from_chars(cs.as_slice())
    }

    /// Compile the pattern written as the characters `raw`.
    pub(crate) fn from_chars(raw: &[char]) -> (r: Result<Pattern, PatternError>)
        ensures
            match compile(raw@) {
                Ok(_) => r matches Ok(p) && p@ == raw@,
                Err(e) => r == Err::<Pattern, PatternError>(e),
            },
    {
        let n = raw.len();
        if n == 0 {
            return Err(PatternError::Empty);
        }
        if raw[0] == '!' {
            return Err(PatternError::Negation);
        }
        if has_char(raw, '[') || has_char(raw, ']') {
            return Err(PatternError::CharacterRange);
        }
        let dir_only = raw[n - 1] == '/';
        let body: &[char] = if dir_only {
            &raw[0..n - 1]
        } else {
            raw
        };
        assert(body@ =~= pattern_body(raw@));
        let anchored = has_char(body, '/');
        let spans = run_spans(body, Sep::Slash);
        let ghost pieces = runs(body@, Sep::Slash);
        let mut segments: Vec<Segment> = Vec::new();
        let mut k: usize = 0;
        while k < spans.len()
            invariant
                locates(body@, spans@, pieces),
                0 <= k <= spans@.len(),
                segments@.len() == k,
                forall|j: int| 0 <= j < k ==> (#[trigger] segments@[j])@ == segment_of(pieces[j]),
            decreases spans@.len() - k,
        {
            let (a, b) = spans[k];
            segments.push(Segment::new(&body[a..b]));
            k += 1;
        }
        if segments.len() == 0 {
            return Err(PatternError::Empty);
        }
        let trailing_literal = match &segments[segments.len() - 1] {
            Segment::Literal(_) => true,
            _ => false,
        };
        let ghost segs = segments@.map_values(|g: Segment| g@);
        assert(segs =~= pieces.map_values(|s: Seq<char>| segment_of(s)));
        assert(segs.last() is Literal == trailing_literal);
        let p = Pattern { raw: string_of(raw), segments, anchored, dir_only, trailing_literal };
        assert(p.shape().segments == segs);
        assert(compile(raw@) == Ok::<PatternShape, PatternError>(p.shape()));
        Ok(p)
    }

    /// The original pattern text, exactly as written in the file.
    pub fn as_str(&self) -> (s: &str)
        ensures
            s@ == self@,
    {
        self.raw.as_str()
    }

    /// Whether this pattern is a catch-all, matching every path.
    pub(crate) fn matches_everything(&self) -> (r: bool)
        ensures
            r == catch_all(self@),
    {
        proof {
            use_type_invariant(self);
        }
        let ghost sh = self.shape();
        let n = self.segments.len();
        let mut all_deep = true;
        let mut i: usize = 0;
        while i < n
            invariant
                n == self.segments@.len(),
                sh == self.shape(),
                0 <= i <= n,
                all_deep == forall|j: int| 0 <= j < i ==> sh.segments[j] is AnyDepth,
            decreases n - i,
        {
            let deep = match &self.segments[i] {
                Segment::AnyDepth => true,
                _ => false,
            };
            assert(deep == sh.segments[i as int] is AnyDepth);
            all_deep = all_deep && deep;
            i += 1;
        }
        if all_deep {
            return true;
        }
        if self.anchored || self.dir_only || n != 1 {
            return false;
        }
        match &self.segments[0] {
            Segment::Glob(g) => {
                let cs = chars_of(g.as_str());
                only_stars(cs.as_slice())
            },
            _ => false,
        }
    }

    /// Whether every path this pattern matches, `other` matches too, as far
    /// as [`pattern_within`] can tell.
    ///
    /// Fills the table of [`within_from`] one row at a time, from the last
    /// segment of this pattern back, keeping the column where `other` starts.
    pub(crate) fn within(&self, other: &Pattern) -> (r: bool)
        ensures
            r == pattern_within(self@, other@),
    {
        proof {
            use_type_invariant(self);
            use_type_invariant(other);
        }
        let ghost sp = self.shape();
        let ghost sq = other.shape();
        let n = self.segments.len();
        let mut starts: Vec<bool> = Vec::new();
        let mut k: usize = 0;
        while k < n
            invariant
                starts@.len() == k,
                k <= n,
            decreases n - k,
        {
            starts.push(false);
            k += 1;
        }
        starts.push(false);
        let mut row = self.within_row(other, n, &Vec::new());
        starts.set(n, row[0]);
        let mut pi = n;
        while pi > 0
            invariant
                n == self.segments@.len(),
                sp == self.shape(),
                sq == other.shape(),
                pi <= n,
                starts@.len() == n + 1,
                row@.len() == other.segments@.len() + 1,
                forall|qi: int| 0 <= qi < row@.len() ==> row@[qi] == within_from(sp, sq, pi as int, qi),
                forall|d: int| pi <= d <= n ==> starts@[d] == within_from(sp, sq, d, 0),
            decreases pi,
        {
            pi -= 1;
            row = self.within_row(other, pi, &row);
            starts.set(pi, row[0]);
        }
        if other.anchored {
            return row[0] && (self.anchored || match &other.segments[0] {
                Segment::AnyDepth => true,
                _ => false,
            });
        }
        let mut d: usize = 0;
        while d < n
            invariant
                n == self.segments@.len(),
                sp == self.shape(),
                sq == other.shape(),
                compile(self@) == Ok::<PatternShape, PatternError>(sp),
                compile(other@) == Ok::<PatternShape, PatternError>(sq),
                !sq.anchored,
                d <= n,
                starts@.len() == n + 1,
                forall|e: int| 0 <= e <= n ==> starts@[e] == within_from(sp, sq, e, 0),
                forall|e: int|
                    0 <= e < d ==> !((e == 0 || !(sp.segments[e] is AnyDepth)) && #[trigger] within_from(
                        sp,
                        sq,
                        e,
                        0,
                    )),
            decreases n - d,
        {
            let single = match &self.segments[d] {
                Segment::AnyDepth => false,
                _ => true,
            };
            assert(single == !(sp.segments[d as int] is AnyDepth));
            if starts[d] && (d == 0 || single) {
                assert(within_from(sp, sq, d as int, 0));
                return true;
            }
            d += 1;
        }
        false
    }

    /// The row of [`within_from`] at segment `pi` of this pattern, for every
    /// segment of `other`, given the row at `pi + 1` (unused at the end).
    fn within_row(&self, other: &Pattern, pi: usize, next: &Vec<bool>) -> (row: Vec<bool>)
        requires
            pi <= self.segments@.len(),
            pi < self.segments@.len() ==> next@.len() == other.segments@.len() + 1,
            pi < self.segments@.len() ==> forall|qi: int|
                0 <= qi < next@.len() ==> next@[qi] == within_from(self.shape(), other.shape(), pi + 1, qi),
        ensures
            row@.len() == other.segments@.len() + 1,
            forall|qi: int|
                0 <= qi < row@.len() ==> row@[qi] == within_from(self.shape(), other.shape(), pi as int, qi),
    {
        let ghost sp = self.shape();
        let ghost sq = other.shape();
        let n = self.segments.len();
        let m = other.segments.len();
        let mut row: Vec<bool> = Vec::new();
        let mut k: usize = 0;
        while k < m
            invariant
                row@.len() == k,
                k <= m,
            decreases m - k,
        {
            row.push(false);
            k += 1;
        }
        row.push(false);
        let last = if pi == n {
            if other.dir_only {
                self.dir_only
            } else if other.trailing_literal {
                true
            } else {
                !self.dir_only && !self.trailing_literal
            }
        } else if other.dir_only {
            self.dir_only || match &self.segments[pi] {
                Segment::AnyDepth => false,
                _ => true,
            }
        } else {
            other.trailing_literal
        };
        assert(pi < n ==> sp.segments[pi as int] == self.segments@[pi as int]@);
        assert(last == within_from(sp, sq, pi as int, m as int));
        row.set(m, last);
        let mut qi = m;
        while qi > 0
            invariant
                n == self.segments@.len(),
                m == other.segments@.len(),
                sp == self.shape(),
                sq == other.shape(),
                pi <= n,
                pi < n ==> next@.len() == m + 1,
                pi < n ==> forall|j: int| 0 <= j <= m ==> next@[j] == within_from(sp, sq, pi + 1, j),
                qi <= m,
                row@.len() == m + 1,
                forall|j: int| qi <= j <= m ==> row@[j] == within_from(sp, sq, pi as int, j),
            decreases qi,
        {
            qi -= 1;
            assert(sq.segments[qi as int] == other.segments@[qi as int]@);
            let cell = match &other.segments[qi] {
                Segment::AnyDepth => row[qi + 1] || (pi < n && next[qi]),
                seg => pi < n && self.segments[pi].within(seg) && next[qi + 1],
            };
            assert(pi < n ==> sp.segments[pi as int] == self.segments@[pi as int]@);
            assert(cell == within_from(sp, sq, pi as int, qi as int));
            row.set(qi, cell);
        }
        row
    }

    /// Whether this pattern and `other` were written the same way.
    pub(crate) fn same_text(&self, other: &Pattern) -> (r: bool)
        ensures
            r == (self@ == other@),
    {
        self.raw == other.raw
    }

    /// Test a repository-relative file path against this pattern.
    ///
    /// Slashes at either end of `path`, and doubled slashes, are ignored.
    /// Matching is case sensitive.
    pub fn matches(&self, path: &str) -> (r: bool)
        ensures
            r == pattern_matches(self@, path@),
    {
        let cs = chars_of(path);
        let spans = run_spans(cs.as_slice(), Sep::Slash);
        self.matches_parts(cs.as_slice(), &spans)
    }

    /// [`Pattern::matches`] on a path already split into its segments.
    pub(crate) fn matches_parts(&self, path: &[char], parts: &Vec<(usize, usize)>) -> (r: bool)
        requires
            locates(path@, parts@, path_parts(path@)),
        ensures
            r == pattern_matches(self@, path@),
    {
        proof {
            use_type_invariant(self);
        }
        let n = parts.len();
        if n == 0 {
            return false;
        }
        if self.anchored {
            return self.matches_at(0, path, parts, 0);
        }
        let mut start: usize = 0;
        while start < n
            invariant
                n == parts@.len(),
                0 <= start <= n,
                forall|j: int| 0 <= j < start ==> !#[trigger] match_from(self.shape(), path_parts(path@), 0, j),
                locates(path@, parts@, path_parts(path@)),
                compile(self@) == Ok::<PatternShape, PatternError>(self.shape()),
                !self.anchored,
            decreases n - start,
        {
            if self.matches_at(0, path, parts, start) {
                assert(0 <= start < n && match_from(self.shape(), path_parts(path@), 0, start as int));
                return true;
            }
            start += 1;
        }
        false
    }

    fn matches_at(&self, pi: usize, path: &[char], parts: &Vec<(usize, usize)>, si: usize) -> (r: bool)
        requires
            locates(path@, parts@, path_parts(path@)),
            pi <= self.segments@.len(),
            si <= parts@.len(),
        ensures
            r == match_from(self.shape(), path_parts(path@), pi as int, si as int),
        decreases self.segments@.len() - pi,
    {
        let n = parts.len();
        if pi == self.segments.len() {
            return if self.dir_only {
                si < n
            } else if si == n {
                true
            } else {
                self.trailing_literal
            };
        }
        match &self.segments[pi] {
            Segment::AnyDepth => {
                let ghost sh = self.shape();
                let ghost ps = path_parts(path@);
                let m = self.segments.len();
                assert(sh.segments[pi as int] == SegmentShape::AnyDepth);
                let mut k = si;
                loop
                    invariant
                        n == parts@.len(),
                        ps == path_parts(path@),
                        ps.len() == n,
                        si <= k <= n,
                        sh == self.shape(),
                        m == self.segments@.len(),
                        pi < m,
                        sh.segments.len() == m,
                        sh.segments[pi as int] == SegmentShape::AnyDepth,
                        locates(path@, parts@, ps),
                        deep_from(sh, ps, pi + 1, si as int) == deep_from(sh, ps, pi + 1, k as int),
                    decreases n - k,
                {
                    if self.matches_at(pi + 1, path, parts, k) {
                        return true;
                    }
                    if k == n {
                        return false;
                    }
                    k += 1;
                }
            },
            seg => {
                if si < n {
                    let (a, b) = parts[si];
                    seg.matches(&path[a..b]) && self.matches_at(pi + 1, path, parts, si + 1)
                } else {
                    false
                }
            },
        }
    }
}

} // verus!
