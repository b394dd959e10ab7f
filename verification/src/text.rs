//! Character-level scanning of CODEOWNERS text: white space, searching,
//! splitting into runs, lines and trimming.

use vstd::prelude::*;

verus! {

/// White space in Unicode's sense (the `White_Space` property): the
/// characters that separate tokens on a line and that trimming removes.
pub open spec fn is_blank(c: char) -> bool {
    ||| ('\u{9}' <= c && c <= '\u{d}')
    ||| c == ' '
    ||| c == '\u{85}'
    ||| c == '\u{a0}'
    ||| c == '\u{1680}'
    ||| ('\u{2000}' <= c && c <= '\u{200a}')
    ||| c == '\u{2028}'
    ||| c == '\u{2029}'
    ||| c == '\u{202f}'
    ||| c == '\u{205f}'
    ||| c == '\u{3000}'
}

/// Executable test for [`is_blank`].
pub fn blank(c: char) -> (b: bool)
    ensures
        b == is_blank(c),
{
    ('\u{9}' <= c && c <= '\u{d}') || c == ' ' || c == '\u{85}' || c == '\u{a0}' || c
        == '\u{1680}' || ('\u{2000}' <= c && c <= '\u{200a}') || c == '\u{2028}' || c
        == '\u{2029}' || c == '\u{202f}' || c == '\u{205f}' || c == '\u{3000}'
}

/// ASCII letters and digits.
pub open spec fn is_ascii_alnum(c: char) -> bool {
    ('0' <= c && c <= '9') || ('a' <= c && c <= 'z') || ('A' <= c && c <= 'Z')
}

/// Executable test for [`is_ascii_alnum`].
pub fn ascii_alnum(c: char) -> (b: bool)
    ensures
        b == is_ascii_alnum(c),
{
    ('0' <= c && c <= '9') || ('a' <= c && c <= 'z') || ('A' <= c && c <= 'Z')
}

/// The characters of `s`, in order.
pub fn chars_of(s: &str) -> (v: Vec<char>)
    ensures
        v@ == s@,
{
    let mut v: Vec<char> = Vec::new();
    for c in it: s.chars()
        invariant
            v@ == it.seq().take(it.index() as int),
            it.seq() == s@,
    {
        v.push(c);
    }
    v
}

/// A `String` holding exactly the characters of `cs`, in order, built by
/// std's `String::from_iter` over the characters.
#[verifier::external_body]
pub fn string_of(cs: &[char]) -> (s: String)
    ensures
        s@ == cs@,
{
    String::from_iter(cs.iter())
}

/// Whether `a` and `b` hold the same characters.
pub fn same_chars(a: &[char], b: &[char]) -> (r: bool)
    ensures
        r == (a@ == b@),
{
    if a.len() != b.len() {
        return false;
    }
    let n = a.len();
    let mut i: usize = 0;
    while i < n
        invariant
            n == a@.len() == b@.len(),
            0 <= i <= n,
            forall|j: int| 0 <= j < i ==> a@[j] == b@[j],
        decreases n - i,
    {
        if a[i] != b[i] {
            return false;
        }
        i += 1;
    }
    assert(a@ =~= b@);
    true
}

/// Whether `c` occurs in `s`.
pub fn has_char(s: &[char], c: char) -> (r: bool)
    ensures
        r == s@.contains(c),
{
    let n = s.len();
    let mut i: usize = 0;
    while i < n
        invariant
            n == s@.len(),
            0 <= i <= n,
            forall|j: int| 0 <= j < i ==> s@[j] != c,
        decreases n - i,
    {
        if s[i] == c {
            assert(s@[i as int] == c);
            return true;
        }
        i += 1;
    }
    false
}

/// Index of the first `c` in `s` at or after `i`, or the length of `s` if
/// there is none.
pub open spec fn find_from(s: Seq<char>, c: char, i: int) -> int
    decreases s.len() - i,
{
    if i >= s.len() {
        s.len() as int
    } else if s[i] == c {
        i
    } else {
        find_from(s, c, i + 1)
    }
}

/// Index of the first `c` in `s`, or the length of `s` if there is none.
pub open spec fn find(s: Seq<char>, c: char) -> int {
    find_from(s, c, 0)
}

/// [`find_from`] lands on the first occurrence at or after `i`.
pub proof fn lemma_find_from(s: Seq<char>, c: char, i: int)
    requires
        0 <= i <= s.len(),
    ensures
        i <= find_from(s, c, i) <= s.len(),
        find_from(s, c, i) < s.len() ==> s[find_from(s, c, i)] == c,
        forall|j: int| i <= j < find_from(s, c, i) ==> s[j] != c,
    decreases s.len() - i,
{
    if i < s.len() && s[i] != c {
        lemma_find_from(s, c, i + 1);
    }
}

/// [`find`] is the first occurrence.
pub proof fn lemma_find(s: Seq<char>, c: char)
    ensures
        0 <= find(s, c) <= s.len(),
        find(s, c) < s.len() ==> s[find(s, c)] == c,
        forall|j: int| 0 <= j < find(s, c) ==> s[j] != c,
        find(s, c) < s.len() <==> s.contains(c),
{
    lemma_find_from(s, c, 0);
    if s.contains(c) {
        let k = choose|k: int| 0 <= k < s.len() && s[k] == c;
        assert(!(k < find(s, c)));
    }
}

/// Executable [`find`].
pub fn find_char(s: &[char], c: char) -> (i: usize)
    ensures
        i == find(s@, c),
{
    let n = s.len();
    let mut i: usize = 0;
    while i < n
        invariant
            n == s@.len(),
            0 <= i <= n,
            find_from(s@, c, i as int) == find(s@, c),
        decreases n - i,
    {
        if s[i] == c {
            return i;
        }
        i += 1;
    }
    i
}

/// What separates the pieces of a text: `/` in paths, white space on a line.
#[derive(Clone, Copy)]
pub enum Sep {
    /// The path separator `/`.
    Slash,
    /// Any white space.
    Blank,
}

/// Whether `c` separates pieces under `sep`.
pub open spec fn is_sep(sep: Sep, c: char) -> bool {
    match sep {
        Sep::Slash => c == '/',
        Sep::Blank => is_blank(c),
    }
}

fn sep_at(sep: Sep, c: char) -> (b: bool)
    ensures
        b == is_sep(sep, c),
{
    match sep {
        Sep::Slash => c == '/',
        Sep::Blank => blank(c),
    }
}

/// The maximal non-empty runs of non-separator characters of `s` from index
/// `i` on, where a run began at `start` (`start == i` when none is open).
pub open spec fn runs_from(s: Seq<char>, sep: Sep, i: int, start: int) -> Seq<Seq<char>>
    decreases s.len() - i,
{
    if i >= s.len() {
        if start < s.len() {
            seq![s.subrange(start, s.len() as int)]
        } else {
            seq![]
        }
    } else if is_sep(sep, s[i]) {
        (if start < i {
            seq![s.subrange(start, i)]
        } else {
            seq![]
        }) + runs_from(s, sep, i + 1, i + 1)
    } else {
        runs_from(s, sep, i + 1, start)
    }
}

/// The maximal non-empty runs of non-separator characters of `s`, in order:
/// `s` split at every separator, with the empty pieces dropped.
pub open spec fn runs(s: Seq<char>, sep: Sep) -> Seq<Seq<char>> {
    runs_from(s, sep, 0, 0)
}

/// `spans` locates each of `pieces` in `s` by start and end index.
pub open spec fn locates(s: Seq<char>, spans: Seq<(usize, usize)>, pieces: Seq<Seq<char>>) -> bool {
    &&& spans.len() == pieces.len()
    &&& forall|k: int|
        0 <= k < spans.len() ==> {
            &&& (#[trigger] spans[k]).0 <= spans[k].1 <= s.len()
            &&& s.subrange(spans[k].0 as int, spans[k].1 as int) == pieces[k]
        }
}

/// Start and end of each of the runs of `s` under `sep`.
pub fn run_spans(s: &[char], sep: Sep) -> (out: Vec<(usize, usize)>)
    ensures
        locates(s@, out@, runs(s@, sep)),
{
    let n = s.len();
    let mut out: Vec<(usize, usize)> = Vec::new();
    let ghost mut acc: Seq<Seq<char>> = seq![];
    let mut start: usize = 0;
    let mut i: usize = 0;
    while i < n
        invariant
            n == s@.len(),
            0 <= start <= i <= n,
            locates(s@, out@, acc),
            acc + runs_from(s@, sep, i as int, start as int) == runs(s@, sep),
        decreases n - i,
    {
        if sep_at(sep, s[i]) {
            let ghost prev = acc;
            if start < i {
                out.push((start, i));
                proof {
                    acc = acc.push(s@.subrange(start as int, i as int));
                }
            }
            assert(acc + runs_from(s@, sep, i + 1, i + 1) =~= prev + runs_from(
                s@,
                sep,
                i as int,
                start as int,
            ));
            start = i + 1;
        }
        i += 1;
    }
    if start < n {
        out.push((start, n));
        proof {
            acc = acc.push(s@.subrange(start as int, n as int));
        }
    }
    assert(acc =~= runs(s@, sep));
    out
}

/// A run left open before index `i` ends up among the runs.
pub proof fn lemma_runs_open(s: Seq<char>, sep: Sep, i: int, start: int)
    requires
        0 <= start < i <= s.len(),
    ensures
        runs_from(s, sep, i, start).len() > 0,
    decreases s.len() - i,
{
    if i < s.len() && !is_sep(sep, s[i]) {
        lemma_runs_open(s, sep, i + 1, start);
    }
}

/// A text that starts with a non-separator has at least one run.
pub proof fn lemma_runs_nonempty(s: Seq<char>, sep: Sep)
    requires
        s.len() > 0,
        !is_sep(sep, s[0]),
    ensures
        runs(s, sep).len() > 0,
{
    lemma_runs_open(s, sep, 1, 0);
}

/// Runs are unaffected by text placed before the scan position: scanning
/// `p + s` from `p.len() + i` gives the runs of `s` from `i`.
pub proof fn lemma_runs_shift(p: Seq<char>, s: Seq<char>, sep: Sep, i: int, j: int)
    requires
        0 <= j <= i <= s.len(),
    ensures
        runs_from(p + s, sep, p.len() + i, p.len() + j) == runs_from(s, sep, i, j),
    decreases s.len() - i,
{
    let c = p + s;
    if i < s.len() {
        assert(c[p.len() + i] == s[i]);
        if is_sep(sep, s[i]) {
            lemma_runs_shift(p, s, sep, i + 1, i + 1);
            if j < i {
                assert(c.subrange(p.len() + j, p.len() + i) =~= s.subrange(j, i));
            }
        } else {
            lemma_runs_shift(p, s, sep, i + 1, j);
        }
    } else if j < s.len() {
        assert(c.subrange(p.len() + j, c.len() as int) =~= s.subrange(j, s.len() as int));
    }
}

proof fn lemma_runs_concat_from(a: Seq<char>, b: Seq<char>, i: int, j: int)
    requires
        0 <= j <= i <= a.len(),
    ensures
        runs_from(a + seq!['/'] + b, Sep::Slash, i, j) == runs_from(a, Sep::Slash, i, j) + runs(
            b,
            Sep::Slash,
        ),
    decreases a.len() - i,
{
    let c = a + seq!['/'] + b;
    let p = a + seq!['/'];
    assert(c == p + b);
    if i < a.len() {
        assert(c[i] == a[i]);
        if is_sep(Sep::Slash, a[i]) {
            lemma_runs_concat_from(a, b, i + 1, i + 1);
            if j < i {
                assert(c.subrange(j, i) =~= a.subrange(j, i));
            }
            assert(runs_from(c, Sep::Slash, i, j) =~= runs_from(a, Sep::Slash, i, j) + runs(
                b,
                Sep::Slash,
            ));
        } else {
            lemma_runs_concat_from(a, b, i + 1, j);
        }
    } else {
        assert(c[i] == '/');
        lemma_runs_shift(p, b, Sep::Slash, 0, 0);
        if j < i {
            assert(c.subrange(j, i) =~= a.subrange(j, a.len() as int));
        }
        assert(runs_from(c, Sep::Slash, i, j) =~= runs_from(a, Sep::Slash, i, j) + runs(
            b,
            Sep::Slash,
        ));
    }
}

/// The pieces between slashes of `a/b` are those of `a` followed by those of
/// `b`.
pub proof fn lemma_runs_concat(a: Seq<char>, b: Seq<char>)
    ensures
        runs(a + seq!['/'] + b, Sep::Slash) == runs(a, Sep::Slash) + runs(b, Sep::Slash),
{
    lemma_runs_concat_from(a, b, 0, 0);
}

/// The lines of `s` from index `i` on, where the current line began at
/// `start`.
pub open spec fn lines_from(s: Seq<char>, i: int, start: int) -> Seq<Seq<char>>
    decreases s.len() - i,
{
    if i >= s.len() {
        if start < s.len() {
            seq![s.subrange(start, s.len() as int)]
        } else {
            seq![]
        }
    } else if s[i] == '\n' {
        seq![s.subrange(start, i)] + lines_from(s, i + 1, i + 1)
    } else {
        lines_from(s, i + 1, start)
    }
}

/// The lines of `s`: the pieces between line feeds, where a final line feed
/// does not begin another line. A carriage return before a line feed stays
/// in the line; it is white space, so trimming removes it.
pub open spec fn lines(s: Seq<char>) -> Seq<Seq<char>> {
    lines_from(s, 0, 0)
}

/// Start and end of each line of `s`.
pub fn line_spans(s: &[char]) -> (out: Vec<(usize, usize)>)
    ensures
        locates(s@, out@, lines(s@)),
{
    let n = s.len();
    let mut out: Vec<(usize, usize)> = Vec::new();
    let ghost mut acc: Seq<Seq<char>> = seq![];
    let mut start: usize = 0;
    let mut i: usize = 0;
    while i < n
        invariant
            n == s@.len(),
            0 <= start <= i <= n,
            locates(s@, out@, acc),
            acc + lines_from(s@, i as int, start as int) == lines(s@),
        decreases n - i,
    {
        if s[i] == '\n' {
            let ghost prev = acc;
            out.push((start, i));
            proof {
                acc = acc.push(s@.subrange(start as int, i as int));
            }
            assert(acc + lines_from(s@, i + 1, i + 1) =~= prev + lines_from(
                s@,
                i as int,
                start as int,
            ));
            start = i + 1;
        }
        i += 1;
    }
    if start < n {
        out.push((start, n));
        proof {
            acc = acc.push(s@.subrange(start as int, n as int));
        }
    }
    assert(acc =~= lines(s@));
    out
}

/// Index of the first non-blank character at or after `i`, or the length.
pub open spec fn lead_from(s: Seq<char>, i: int) -> int
    decreases s.len() - i,
{
    if i >= s.len() {
        s.len() as int
    } else if !is_blank(s[i]) {
        i
    } else {
        lead_from(s, i + 1)
    }
}

/// One past the last non-blank character before index `j`, or 0.
pub open spec fn tail_from(s: Seq<char>, j: int) -> int
    decreases j,
{
    if j <= 0 {
        0
    } else if !is_blank(s[j - 1]) {
        j
    } else {
        tail_from(s, j - 1)
    }
}

/// `s` without its leading and trailing white space.
pub open spec fn trim(s: Seq<char>) -> Seq<char> {
    let a = lead_from(s, 0);
    let b = tail_from(s, s.len() as int);
    if a < b {
        s.subrange(a, b)
    } else {
        seq![]
    }
}

proof fn lemma_lead_from(s: Seq<char>, i: int)
    requires
        0 <= i <= s.len(),
    ensures
        i <= lead_from(s, i) <= s.len(),
        lead_from(s, i) < s.len() ==> !is_blank(s[lead_from(s, i)]),
        forall|k: int| i <= k < lead_from(s, i) ==> is_blank(s[k]),
    decreases s.len() - i,
{
    if i < s.len() && is_blank(s[i]) {
        lemma_lead_from(s, i + 1);
    }
}

proof fn lemma_tail_from(s: Seq<char>, j: int)
    requires
        0 <= j <= s.len(),
    ensures
        0 <= tail_from(s, j) <= j,
        tail_from(s, j) > 0 ==> !is_blank(s[tail_from(s, j) - 1]),
        forall|k: int| tail_from(s, j) <= k < j ==> is_blank(s[k]),
    decreases j,
{
    if j > 0 && is_blank(s[j - 1]) {
        lemma_tail_from(s, j - 1);
    }
}

/// A trimmed text, when not empty, starts and ends with non-blank
/// characters.
pub proof fn lemma_trim(s: Seq<char>)
    ensures
        trim(s).len() > 0 ==> !is_blank(trim(s)[0]) && !is_blank(trim(s).last()),
        trim(s).len() <= s.len(),
{
    lemma_lead_from(s, 0);
    lemma_tail_from(s, s.len() as int);
}

/// Start and end of [`trim`] of `s` within `s`.
pub fn trim_span(s: &[char]) -> (r: (usize, usize))
    ensures
        r.0 <= r.1 <= s@.len(),
        s@.subrange(r.0 as int, r.1 as int) == trim(s@),
{
    let n = s.len();
    let mut a: usize = 0;
    while a < n && blank(s[a])
        invariant
            n == s@.len(),
            0 <= a <= n,
            lead_from(s@, a as int) == lead_from(s@, 0),
        decreases n - a,
    {
        a += 1;
    }
    let mut b: usize = n;
    while b > 0 && blank(s[b - 1])
        invariant
            n == s@.len(),
            0 <= b <= n,
            tail_from(s@, b as int) == tail_from(s@, n as int),
        decreases b,
    {
        b -= 1;
    }
    proof {
        lemma_lead_from(s@, 0);
        lemma_tail_from(s@, n as int);
    }
    if a < b {
        (a, b)
    } else {
        assert(s@.subrange(a as int, a as int) =~= Seq::<char>::empty());
        (a, a)
    }
}

} // verus!
