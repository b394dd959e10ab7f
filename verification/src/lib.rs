//! Parse GitHub `CODEOWNERS` files and answer the question that matters:
//! who owns this file?
//!
//! Three things matter and are stated in the contracts below:
//! a rule with no owners clears ownership (matched but unowned is not the
//! same as unmatched); `!` negation, `[ ]` ranges and `\`-escaped `#` are
//! not CODEOWNERS features; and `docs/*` does not reach into `docs/a/b`.
//! Invalid lines are skipped and reported, never fatal.

use vstd::prelude::*;

pub mod glob;
pub mod laws;
pub mod owner;
pub mod pattern;
pub mod render;
pub mod text;

pub use owner::{Owner, OwnerView};
pub use pattern::{Pattern, PatternError};

use owner::parse_owner;
use pattern::{catch_all, compile, path_parts, pattern_matches, pattern_within};
use render::{decimal, push_decimal};
use text::{
    chars_of, find, find_char, lemma_find, lemma_runs_nonempty, lemma_trim, line_spans, lines,
    locates, run_spans, runs, string_of, trim, trim_span, Sep,
};

verus! {

/// The paths GitHub searches, in priority order.
///
/// The first file that exists wins; the others are ignored entirely.
pub const SEARCH_PATHS: [&'static str; 3] = [".github/CODEOWNERS", "CODEOWNERS", "docs/CODEOWNERS"];

/// GitHub refuses to load a CODEOWNERS file above this size.
pub const MAX_FILE_SIZE: usize = 3 * 1024 * 1024;

/// What a rule is: its pattern text, its owners, its line number.
pub struct RuleView {
    /// The pattern, as written.
    pub pattern: Seq<char>,
    /// The owners, in the order written.
    pub owners: Seq<OwnerView>,
    /// 1-based line number.
    pub line: nat,
}

/// The views of a sequence of owners.
pub open spec fn owner_views(os: Seq<Owner>) -> Seq<OwnerView> {
    os.map_values(|o: Owner| o@)
}

/// One `pattern owners...` line.
#[derive(Debug, PartialEq, Eq)]
pub struct Rule {
    /// The compiled path pattern.
    pub pattern: Pattern,
    /// Owners, in the order written. Empty means ownership is explicitly cleared.
    pub owners: Vec<Owner>,
    /// 1-based line number in the source file.
    pub line: usize,
}

impl View for Rule {
    type V = RuleView;

    open spec fn view(&self) -> RuleView {
        RuleView { pattern: self.pattern@, owners: owner_views(self.owners@), line: self.line as nat }
    }
}

impl Clone for Rule {
    /// A copy of this rule.
    fn clone(&self) -> (r: Self)
        ensures
            r@ == self@,
    {
        let mut owners: Vec<Owner> = Vec::new();
        let n = self.owners.len();
        let mut i: usize = 0;
        while i < n
            invariant
                n == self.owners@.len(),
                0 <= i <= n,
                owners@ == self.owners@.take(i as int),
            decreases n - i,
        {
            owners.push(self.owners[i].clone());
            assert(owners@ =~= self.owners@.take(i + 1));
            i += 1;
        }
        assert(owners@ =~= self.owners@);
        Rule { pattern: self.pattern.clone(), owners, line: self.line }
    }
}

impl Rule {
    /// True if this rule deliberately leaves matching paths unowned.
    pub fn is_unowned(&self) -> (r: bool)
        ensures
            r == (self@.owners.len() == 0),
    {
        self.owners.len() == 0
    }
}

/// What was wrong with a line, as data.
pub enum ErrorKindView {
    /// The pattern did not compile.
    BadPattern(PatternError),
    /// This token after the pattern was not an owner.
    BadOwner(Seq<char>),
}

/// What was wrong with a line.
#[derive(Debug, PartialEq, Eq)]
#[non_exhaustive]
pub enum ErrorKind {
    /// The path pattern could not be compiled.
    BadPattern(PatternError),
    /// A token after the pattern was not a recognisable owner.
    BadOwner(String),
}

impl Clone for ErrorKind {
    /// A copy of this error kind.
    fn clone(&self) -> (k: Self)
        ensures
            k == *self,
    {
        match self {
            ErrorKind::BadPattern(e) => ErrorKind::BadPattern(*e),
            ErrorKind::BadOwner(t) => ErrorKind::BadOwner(t.clone()),
        }
    }
}

impl View for ErrorKind {
    type V = ErrorKindView;

    open spec fn view(&self) -> ErrorKindView {
        match self {
            ErrorKind::BadPattern(e) => ErrorKindView::BadPattern(*e),
            ErrorKind::BadOwner(t) => ErrorKindView::BadOwner(t@),
        }
    }
}

/// How an error kind is described.
pub open spec fn kind_text(k: ErrorKindView) -> Seq<char> {
    match k {
        ErrorKindView::BadPattern(e) => e.message(),
        ErrorKindView::BadOwner(t) => seq!['`'] + t + "` is not a valid owner"@,
    }
}

impl ErrorKind {
    /// The description of this error.
    pub fn to_string(&self) -> (s: String)
        ensures
            s@ == kind_text(self@),
    {
        match self {
            ErrorKind::BadPattern(e) => e.to_string(),
            ErrorKind::BadOwner(t) => {
                let mut buf: Vec<char> = Vec::new();
                buf.push('`');
                let mut c = chars_of(t.as_str());
                buf.append(&mut c);
                let mut d = chars_of("` is not a valid owner");
                buf.append(&mut d);
                assert(buf@ =~= kind_text(self@));
                string_of(buf.as_slice())
            },
        }
    }
}

/// A skipped line, as data.
pub struct ErrorView {
    /// 1-based line number.
    pub line: nat,
    /// What went wrong.
    pub kind: ErrorKindView,
    /// The whole line, comment included, trimmed.
    pub text: Seq<char>,
}

/// A skipped line, with enough context to point at it in an editor.
#[derive(Debug, PartialEq, Eq)]
pub struct ParseError {
    /// 1-based line number.
    pub line: usize,
    /// What went wrong.
    pub kind: ErrorKind,
    /// The offending line, trimmed.
    pub text: String,
}

impl Clone for ParseError {
    /// A copy of this error.
    fn clone(&self) -> (e: Self)
        ensures
            e == *self,
    {
        ParseError { line: self.line, kind: self.kind.clone(), text: self.text.clone() }
    }
}

impl View for ParseError {
    type V = ErrorView;

    open spec fn view(&self) -> ErrorView {
        ErrorView { line: self.line as nat, kind: self.kind@, text: self.text@ }
    }
}

/// How a skipped line is reported: `line N: description`.
pub open spec fn error_text(e: ErrorView) -> Seq<char> {
    "line "@ + decimal(e.line) + ": "@ + kind_text(e.kind)
}

impl ParseError {
    /// The report for this line, `line N: description`.
    pub fn to_string(&self) -> (s: String)
        ensures
            s@ == error_text(self@),
    {
        let mut buf = chars_of("line ");
        push_decimal(&mut buf, self.line);
        let mut sep = chars_of(": ");
        buf.append(&mut sep);
        let kind = self.kind.to_string();
        let mut k = chars_of(kind.as_str());
        buf.append(&mut k);
        assert(buf@ =~= error_text(self@));
        string_of(buf.as_slice())
    }
}

/// The line `line` trimmed, as a `String`.
fn trimmed_text(line: &[char]) -> (s: String)
    ensures
        s@ == trim(line@),
{
    let (a, b) = trim_span(line);
    string_of(&line[a..b])
}

/// What one line of a file turns into.
pub enum LineOutcome {
    /// Nothing but white space and comment.
    Blank,
    /// A rule.
    Accepted(RuleView),
    /// A skipped line.
    Rejected(ErrorView),
}

/// A line without its comment and surrounding white space. A `#` starts a
/// comment wherever it stands; there is no escaping it.
pub open spec fn line_content(line: Seq<char>) -> Seq<char> {
    trim(line.take(find(line, '#')))
}

/// The first of `tokens` from index `k` on that is not an owner.
pub open spec fn first_bad_from(tokens: Seq<Seq<char>>, k: int) -> Option<Seq<char>>
    decreases tokens.len() - k,
{
    if k < 0 || k >= tokens.len() {
        None
    } else if parse_owner(tokens[k]) is None {
        Some(tokens[k])
    } else {
        first_bad_from(tokens, k + 1)
    }
}

/// The owner the token `t` names (meaningful when it names one).
pub open spec fn owner_of(t: Seq<char>) -> OwnerView {
    parse_owner(t)->Some_0
}

/// What the line `line`, numbered `number`, turns into.
///
/// After removing the comment and trimming, an empty line is blank. Otherwise
/// its first white-space-separated token is the pattern and the others are
/// owners: a pattern that does not compile, or a token that is not an owner
/// (the first such), makes the line an error, which keeps the whole line
/// trimmed; else it is a rule.
pub open spec fn line_outcome(line: Seq<char>, number: nat) -> LineOutcome {
    let content = line_content(line);
    if content.len() == 0 {
        LineOutcome::Blank
    } else {
        let tokens = runs(content, Sep::Blank);
        match compile(tokens[0]) {
            Err(e) => LineOutcome::Rejected(
                ErrorView { line: number, kind: ErrorKindView::BadPattern(e), text: trim(line) },
            ),
            Ok(_) => match first_bad_from(tokens, 1) {
                Some(bad) => LineOutcome::Rejected(
                    ErrorView { line: number, kind: ErrorKindView::BadOwner(bad), text: trim(line) },
                ),
                None => LineOutcome::Accepted(
                    RuleView {
                        pattern: tokens[0],
                        owners: tokens.skip(1).map_values(|t: Seq<char>| owner_of(t)),
                        line: number,
                    },
                ),
            },
        }
    }
}

/// What each of the lines `ls` turns into; line `i` (from 0) is numbered
/// `i + 1`.
pub open spec fn outcomes_of(ls: Seq<Seq<char>>) -> Seq<LineOutcome> {
    Seq::new(ls.len(), |i: int| line_outcome(ls[i], (i + 1) as nat))
}

/// What each line of `text` turns into.
pub open spec fn outcomes(text: Seq<char>) -> Seq<LineOutcome> {
    outcomes_of(lines(text))
}

/// The rules among `os`, in order.
pub open spec fn accepted(os: Seq<LineOutcome>) -> Seq<RuleView>
    decreases os.len(),
{
    if os.len() == 0 {
        seq![]
    } else {
        let prev = accepted(os.drop_last());
        match os.last() {
            LineOutcome::Accepted(r) => prev.push(r),
            _ => prev,
        }
    }
}

/// The errors among `os`, in order.
pub open spec fn rejected(os: Seq<LineOutcome>) -> Seq<ErrorView>
    decreases os.len(),
{
    if os.len() == 0 {
        seq![]
    } else {
        let prev = rejected(os.drop_last());
        match os.last() {
            LineOutcome::Rejected(e) => prev.push(e),
            _ => prev,
        }
    }
}

/// The rules of the file `text`, in file order.
pub open spec fn parsed_rules(text: Seq<char>) -> Seq<RuleView> {
    accepted(outcomes(text))
}

/// The skipped lines of the file `text`, in file order.
pub open spec fn parsed_errors(text: Seq<char>) -> Seq<ErrorView> {
    rejected(outcomes(text))
}

/// The views of a sequence of rules.
pub open spec fn rule_views(rs: Seq<Rule>) -> Seq<RuleView> {
    rs.map_values(|r: Rule| r@)
}

/// The views of a sequence of errors.
pub open spec fn error_views(es: Seq<ParseError>) -> Seq<ErrorView> {
    es.map_values(|e: ParseError| e@)
}

/// Index of the last of the first `n` rules whose pattern matches `path`.
pub open spec fn last_match_upto(rules: Seq<RuleView>, path: Seq<char>, n: int) -> Option<int>
    decreases n,
{
    if n <= 0 {
        None
    } else if pattern_matches(rules[n - 1].pattern, path) {
        Some(n - 1)
    } else {
        last_match_upto(rules, path, n - 1)
    }
}

/// Index of the rule that decides `path`: the last one that matches it.
pub open spec fn last_match(rules: Seq<RuleView>, path: Seq<char>) -> Option<int> {
    last_match_upto(rules, path, rules.len() as int)
}

/// Indices of the first `n` rules that match `path`, in increasing order.
pub open spec fn matching_upto(rules: Seq<RuleView>, path: Seq<char>, n: int) -> Seq<int>
    decreases n,
{
    if n <= 0 {
        seq![]
    } else {
        let prev = matching_upto(rules, path, n - 1);
        if pattern_matches(rules[n - 1].pattern, path) {
            prev.push(n - 1)
        } else {
            prev
        }
    }
}

/// Indices of the rules that match `path`, in increasing order.
pub open spec fn matching(rules: Seq<RuleView>, path: Seq<char>) -> Seq<int> {
    matching_upto(rules, path, rules.len() as int)
}

/// Whether the pattern of rule `j` is seen to match every path the pattern
/// of rule `i` matches: it is the same pattern, a catch-all, or one that the
/// pattern of rule `i` is found within (see [`pattern_within`]).
pub open spec fn covers(rules: Seq<RuleView>, j: int, i: int) -> bool {
    ||| rules[j].pattern == rules[i].pattern
    ||| catch_all(rules[j].pattern)
    ||| pattern_within(rules[i].pattern, rules[j].pattern)
}

/// Whether a later rule covers rule `i` (see [`covers`]), so that rule `i`
/// can never take effect.
pub open spec fn is_shadowed(rules: Seq<RuleView>, i: int) -> bool {
    exists|j: int| i < j < rules.len() && #[trigger] covers(rules, j, i)
}

/// Indices of the first `n` rules that are shadowed, in increasing order.
pub open spec fn shadowed_upto(rules: Seq<RuleView>, n: int) -> Seq<int>
    decreases n,
{
    if n <= 0 {
        seq![]
    } else {
        let prev = shadowed_upto(rules, n - 1);
        if is_shadowed(rules, n - 1) {
            prev.push(n - 1)
        } else {
            prev
        }
    }
}

/// Indices of the shadowed rules, in increasing order.
pub open spec fn shadowed_indices(rules: Seq<RuleView>) -> Seq<int> {
    shadowed_upto(rules, rules.len() as int)
}

/// A parsed CODEOWNERS file, as data.
pub struct CodeOwnersView {
    /// Its rules, in file order.
    pub rules: Seq<RuleView>,
    /// Its skipped lines, in file order.
    pub errors: Seq<ErrorView>,
}

/// Rules numbered from 1, in strictly increasing line order.
pub open spec fn rules_in_order(rs: Seq<RuleView>) -> bool {
    &&& forall|k: int| 0 <= k < rs.len() ==> (#[trigger] rs[k]).line >= 1
    &&& forall|k1: int, k2: int|
        0 <= k1 < k2 < rs.len() ==> (#[trigger] rs[k1]).line < (#[trigger] rs[k2]).line
}

/// Errors numbered from 1, in strictly increasing line order.
pub open spec fn errors_in_order(es: Seq<ErrorView>) -> bool {
    &&& forall|k: int| 0 <= k < es.len() ==> (#[trigger] es[k]).line >= 1
    &&& forall|k1: int, k2: int|
        0 <= k1 < k2 < es.len() ==> (#[trigger] es[k1]).line < (#[trigger] es[k2]).line
}

/// A parsed CODEOWNERS file.
#[derive(Debug, PartialEq, Eq)]
pub struct CodeOwners {
    rules: Vec<Rule>,
    errors: Vec<ParseError>,
}

impl View for CodeOwners {
    type V = CodeOwnersView;

    open spec fn view(&self) -> CodeOwnersView {
        CodeOwnersView { rules: rule_views(self.rule_list()), errors: error_views(self.error_list()) }
    }
}

impl Clone for CodeOwners {
    /// A copy of this file.
    fn clone(&self) -> (co: Self)
        ensures
            co@ == self@,
    {
        proof {
            use_type_invariant(self);
        }
        let mut rules: Vec<Rule> = Vec::new();
        let n = self.rules.len();
        let mut i: usize = 0;
        while i < n
            invariant
                n == self.rules@.len(),
                0 <= i <= n,
                rule_views(rules@) == rule_views(self.rules@.take(i as int)),
            decreases n - i,
        {
            let r = self.rules[i].clone();
            assert(r@ == self.rules@[i as int]@);
            let ghost prev = rules@;
            rules.push(r);
            assert(rules@ == prev.push(r));
            assert(rule_views(prev.push(r)) =~= rule_views(prev).push(r@));
            assert(rule_views(self.rules@.take(i + 1)) =~= rule_views(self.rules@.take(i as int)).push(
                self.rules@[i as int]@,
            ));
            i += 1;
        }
        assert(self.rules@.take(n as int) =~= self.rules@);
        let mut errors: Vec<ParseError> = Vec::new();
        let m = self.errors.len();
        let mut j: usize = 0;
        while j < m
            invariant
                m == self.errors@.len(),
                0 <= j <= m,
                errors@ == self.errors@.take(j as int),
            decreases m - j,
        {
            errors.push(self.errors[j].clone());
            assert(errors@ =~= self.errors@.take(j + 1));
            j += 1;
        }
        assert(errors@ =~= self.errors@);
        CodeOwners { rules, errors }
    }
}

impl Default for CodeOwners {
    /// A file with no rules and no errors.
    fn default() -> (co: Self)
        ensures
            co@.rules.len() == 0,
            co@.errors.len() == 0,
    {
        CodeOwners { rules: Vec::new(), errors: Vec::new() }
    }
}

/// What [`CodeOwners::parse`] made of one line.
enum LineResult {
    Blank,
    Accepted(Rule),
    Rejected(ParseError),
}

impl View for LineResult {
    type V = LineOutcome;

    closed spec fn view(&self) -> LineOutcome {
        match self {
            LineResult::Blank => LineOutcome::Blank,
            LineResult::Accepted(r) => LineOutcome::Accepted(r@),
            LineResult::Rejected(e) => LineOutcome::Rejected(e@),
        }
    }
}

impl CodeOwners {
    /// Rules and errors are numbered from 1 and kept in file order.
    #[verifier::type_invariant]
    closed spec fn in_file_order(&self) -> bool {
        &&& rules_in_order(rule_views(self.rules@))
        &&& errors_in_order(error_views(self.errors@))
    }

    /// The rules, in file order.
    pub closed spec fn rule_list(&self) -> Seq<Rule> {
        self.rules@
    }

    /// The skipped lines, in file order.
    pub closed spec fn error_list(&self) -> Seq<ParseError> {
        self.errors@
    }

    /// Parse a CODEOWNERS file. Never fails; invalid lines are collected in
    /// [`errors`](Self::errors), matching GitHub's own behaviour.
    pub fn parse(text: &str) -> (co: CodeOwners)
        ensures
            co@.rules == parsed_rules(text@),
            co@.errors == parsed_errors(text@),
    {
        let t = chars_of(text);
        let ls = line_spans(t.as_slice());
        let ghost os = outcomes(t@);
        let mut rules: Vec<Rule> = Vec::new();
        let mut errors: Vec<ParseError> = Vec::new();
        let n = ls.len();
        let mut idx: usize = 0;
        while idx < n
            invariant
                n == ls@.len(),
                0 <= idx <= n,
                t@ == text@,
                os == outcomes(t@),
                locates(t@, ls@, lines(t@)),
                rule_views(rules@) == accepted(os.take(idx as int)),
                error_views(errors@) == rejected(os.take(idx as int)),
            decreases n - idx,
        {
            let (a, b) = ls[idx];
            let line = &t.as_slice()[a..b];
            let outcome = Self::parse_line(line, idx + 1);
            let ghost prev_rules = rules@;
            let ghost prev_errors = errors@;
            assert(os.take(idx + 1).drop_last() =~= os.take(idx as int));
            assert(os.take(idx + 1).last() == outcome@);
            match outcome {
                LineResult::Blank => {},
                LineResult::Accepted(r) => {
                    rules.push(r);
                },
                LineResult::Rejected(e) => {
                    errors.push(e);
                },
            }
            assert(rule_views(rules@) =~= accepted(os.take(idx + 1)));
            assert(error_views(errors@) =~= rejected(os.take(idx + 1)));
            idx += 1;
        }
        assert(os.take(n as int) =~= os);
        proof {
            crate::laws::law_every_line_accounted_for(text@);
        }
        CodeOwners { rules, errors }
    }

    fn parse_line(line: &[char], number: usize) -> (r: LineResult)
        ensures
            r@ == line_outcome(line@, number as nat),
    {
        let h = find_char(line, '#');
        proof {
            lemma_find(line@, '#');
        }
        let pre = &line[0..h];
        assert(pre@ =~= line@.take(find(line@, '#')));
        let (s, e) = trim_span(pre);
        if s == e {
            return LineResult::Blank;
        }
        let content = &pre[s..e];
        assert(content@ == line_content(line@));
        proof {
            lemma_trim(pre@);
            lemma_runs_nonempty(content@, Sep::Blank);
        }
        let ghost tokens = runs(content@, Sep::Blank);
        let toks = run_spans(content, Sep::Blank);
        let (p0, p1) = toks[0];
        match Pattern::from_chars(&content[p0..p1]) {
            Err(err) => {
                let pe = ParseError { line: number, kind: ErrorKind::BadPattern(err), text: trimmed_text(line) };
                LineResult::Rejected(pe)
            },
            Ok(pattern) => {
                let m = toks.len();
                let mut owners: Vec<Owner> = Vec::new();
                let mut k: usize = 1;
                while k < m
                    invariant
                        m == toks@.len(),
                        1 <= k <= m,
                        locates(content@, toks@, tokens),
                        tokens == runs(content@, Sep::Blank),
                        content@ == line_content(line@),
                        content@.len() > 0,
                        compile(tokens[0]) is Ok,
                        first_bad_from(tokens, 1) == first_bad_from(tokens, k as int),
                        owners@.len() == k - 1,
                        forall|j: int| 0 <= j < k - 1 ==> (#[trigger] owners@[j])@ == owner_of(tokens[j + 1]),
                    decreases m - k,
                {
                    let (x, y) = toks[k];
                    let tok = &content[x..y];
                    assert(tok@ == tokens[k as int]);
                    match Owner::from_chars(tok) {
                        Some(o) => {
                            owners.push(o);
                        },
                        None => {
                            assert(first_bad_from(tokens, k as int) == Some(tokens[k as int]));
                            let pe = ParseError {
                                line: number,
                                kind: ErrorKind::BadOwner(string_of(tok)),
                                text: trimmed_text(line),
                            };
                            return LineResult::Rejected(pe);
                        },
                    }
                    k += 1;
                }
                let rule = Rule { pattern, owners, line: number };
                assert(rule@.owners =~= tokens.skip(1).map_values(|t: Seq<char>| owner_of(t)));
                LineResult::Accepted(rule)
            },
        }
    }

    /// Owners of `path`, or `None` if no rule matched.
    ///
    /// `Some` of an empty slice means a rule matched and explicitly left the
    /// path unowned.
    pub fn of(&self, path: &str) -> (r: Option<&[Owner]>)
        ensures
            match last_match(self@.rules, path@) {
                Some(i) => r matches Some(os) && os@ == self.rule_list()[i].owners@,
                None => r is None,
            },
    {
        match self.rule_for(path) {
            Some(rule) => Some(rule.owners.as_slice()),
            None => None,
        }
    }

    /// The rule that decides `path`: the **last** matching rule in the file.
    pub fn rule_for(&self, path: &str) -> (r: Option<&Rule>)
        ensures
            match last_match(self@.rules, path@) {
                Some(i) => r matches Some(rule) && *rule == self.rule_list()[i],
                None => r is None,
            },
    {
        let cs = chars_of(path);
        let parts = run_spans(cs.as_slice(), Sep::Slash);
        let ghost rv = self@.rules;
        let mut i = self.rules.len();
        while i > 0
            invariant
                0 <= i <= self.rules@.len(),
                rv == self@.rules,
                rv.len() == self.rules@.len(),
                cs@ == path@,
                locates(cs@, parts@, path_parts(cs@)),
                last_match(rv, path@) == last_match_upto(rv, path@, i as int),
            decreases i,
        {
            let rule = &self.rules[i - 1];
            assert(rv[i - 1] == rule@);
            if rule.pattern.matches_parts(cs.as_slice(), &parts) {
                return Some(rule);
            }
            i -= 1;
        }
        None
    }

    /// Every rule that matches `path`, in file order.
    ///
    /// Only the last one takes effect, but a linter wants to show the rest.
    pub fn all_matching(&self, path: &str) -> (r: Vec<&Rule>)
        ensures
            r@.len() == matching(self@.rules, path@).len(),
            forall|k: int|
                0 <= k < r@.len() ==> *(#[trigger] r@[k]) == self.rule_list()[matching(
                    self@.rules,
                    path@,
                )[k]],
            forall|k1: int, k2: int|
                0 <= k1 < k2 < r@.len() ==> (#[trigger] r@[k1]).line < (#[trigger] r@[k2]).line,
    {
        proof {
            use_type_invariant(self);
        }
        let cs = chars_of(path);
        let parts = run_spans(cs.as_slice(), Sep::Slash);
        let ghost rv = self@.rules;
        let n = self.rules.len();
        let mut out: Vec<&Rule> = Vec::new();
        let mut i: usize = 0;
        while i < n
            invariant
                n == self.rules@.len(),
                0 <= i <= n,
                rv == self@.rules,
                rv.len() == n,
                cs@ == path@,
                locates(cs@, parts@, path_parts(cs@)),
                out@.len() == matching_upto(rv, path@, i as int).len(),
                forall|k: int|
                    0 <= k < out@.len() ==> *(#[trigger] out@[k]) == self.rules@[matching_upto(
                        rv,
                        path@,
                        i as int,
                    )[k]],
            decreases n - i,
        {
            let rule = &self.rules[i];
            assert(rv[i as int] == rule@);
            if rule.pattern.matches_parts(cs.as_slice(), &parts) {
                out.push(rule);
            }
            i += 1;
        }
        proof {
            crate::laws::law_decider_is_last_of_all_matching(rv, path@);
            let m = matching(rv, path@);
            assert forall|k1: int, k2: int| 0 <= k1 < k2 < out@.len() implies (#[trigger] out@[k1]).line
                < (#[trigger] out@[k2]).line by {
                assert(m[k1] < m[k2]);
                assert(0 <= m[k2] < rv.len());
                assert(rv[m[k1]].line < rv[m[k2]].line);
            }
        }
        out
    }

    /// Rules that can never take effect, because a later rule wins for
    /// everything they match.
    ///
    /// A rule is reported when a single later rule is seen to match every
    /// path it matches: the same pattern, a catch-all (`*`, `**`, `/**`,
    /// ...), or a pattern the rule's own is found within (`/src/` after
    /// `/src/parser/`, `a` after `/a`, `*.js` after `*.test.js`; see
    /// [`pattern_within`]). That catches the classic mistake of putting a
    /// specific rule above the catch-all instead of below it. A rule whose
    /// paths are shared out among several later rules, none of which covers
    /// them all, is not reported.
    pub fn shadowed(&self) -> (r: Vec<&Rule>)
        ensures
            r@.len() == shadowed_indices(self@.rules).len(),
            forall|k: int|
                0 <= k < r@.len() ==> *(#[trigger] r@[k]) == self.rule_list()[shadowed_indices(
                    self@.rules,
                )[k]],
            forall|k1: int, k2: int|
                0 <= k1 < k2 < r@.len() ==> (#[trigger] r@[k1]).line < (#[trigger] r@[k2]).line,
    {
        proof {
            use_type_invariant(self);
        }
        let ghost rv = self@.rules;
        let n = self.rules.len();
        let mut out: Vec<&Rule> = Vec::new();
        let mut i: usize = 0;
        while i < n
            invariant
                n == self.rules@.len(),
                0 <= i <= n,
                rv == self@.rules,
                rv.len() == n,
                out@.len() == shadowed_upto(rv, i as int).len(),
                forall|k: int|
                    0 <= k < out@.len() ==> *(#[trigger] out@[k]) == self.rules@[shadowed_upto(
                        rv,
                        i as int,
                    )[k]],
            decreases n - i,
        {
            let rule = &self.rules[i];
            let mut j = i + 1;
            let mut later = false;
            while j < n
                invariant
                    n == self.rules@.len(),
                    i < n,
                    i + 1 <= j <= n,
                    rv == self@.rules,
                    rv.len() == n,
                    rule == &self.rules@[i as int],
                    !later ==> forall|q: int| i < q < j ==> !#[trigger] covers(rv, q, i as int),
                    later ==> is_shadowed(rv, i as int),
                decreases n - j,
            {
                assert(rv[j as int] == self.rules@[j as int]@);
                let other = &self.rules[j].pattern;
                if other.same_text(&rule.pattern) || other.matches_everything() || rule.pattern.within(
                    other,
                ) {
                    later = true;
                    assert(i < j < rv.len() && covers(rv, j as int, i as int));
                }
                j += 1;
            }
            if later {
                out.push(rule);
            }
            i += 1;
        }
        proof {
            crate::laws::law_shadowed_rules_never_decide(rv, seq![]);
            let m = shadowed_indices(rv);
            assert forall|k1: int, k2: int| 0 <= k1 < k2 < out@.len() implies (#[trigger] out@[k1]).line
                < (#[trigger] out@[k2]).line by {
                assert(m[k1] < m[k2]);
                assert(0 <= m[k2] < rv.len());
                assert(rv[m[k1]].line < rv[m[k2]].line);
            }
        }
        out
    }

    /// All rules, in file order.
    pub fn rules(&self) -> (r: &[Rule])
        ensures
            r@ == self.rule_list(),
            rules_in_order(self@.rules),
    {
        proof {
            use_type_invariant(self);
        }
        self.rules.as_slice()
    }

    /// Lines that were skipped, in file order.
    pub fn errors(&self) -> (r: &[ParseError])
        ensures
            r@ == self.error_list(),
            errors_in_order(self@.errors),
    {
        proof {
            use_type_invariant(self);
        }
        self.errors.as_slice()
    }

    /// True if no rule parsed successfully.
    pub fn is_empty(&self) -> (r: bool)
        ensures
            r == (self@.rules.len() == 0),
    {
        self.rules.len() == 0
    }
}

} // verus!
