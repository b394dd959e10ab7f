//! Matching one path segment against a glob made of literal characters,
//! `?` (exactly one character) and `*` (any run of characters).

use vstd::prelude::*;

verus! {

/// Whether `p` from index `i` on matches `t` from index `j` on.
pub open spec fn glob_at(p: Seq<char>, t: Seq<char>, i: int, j: int) -> bool
    decreases p.len() - i, t.len() - j,
{
    if i < 0 || j < 0 || i >= p.len() {
        0 <= i && 0 <= j && j >= t.len()
    } else if p[i] == '*' {
        glob_at(p, t, i + 1, j) || (j < t.len() && glob_at(p, t, i, j + 1))
    } else {
        j < t.len() && (p[i] == '?' || p[i] == t[j]) && glob_at(p, t, i + 1, j + 1)
    }
}

/// Whether the whole of `t` matches the glob `p`: `*` stands for any run of
/// characters (possibly empty), `?` for exactly one character, and every
/// other character for itself.
pub open spec fn glob(p: Seq<char>, t: Seq<char>) -> bool {
    glob_at(p, t, 0, 0)
}

/// `p[a..a+n]` holds no `*` and matches `t[k..k+n]` character by character.
pub open spec fn plain_run(p: Seq<char>, t: Seq<char>, a: int, k: int, n: int) -> bool {
    &&& 0 <= a
    &&& 0 <= k
    &&& a + n <= p.len()
    &&& k + n <= t.len()
    &&& forall|x: int| a <= x < a + n ==> p[x] != '*' && (p[x] == '?' || p[x] == t[k + (x - a)])
}

/// Across a star-free stretch of `n` pattern characters, matching from `a`
/// is matching the stretch character by character and then matching from
/// `a + n`; it fails where fewer than `n` characters of text are left.
proof fn lemma_plain_stretch(p: Seq<char>, t: Seq<char>, a: int, k: int, n: int)
    requires
        0 <= a,
        0 <= k <= t.len(),
        0 <= n,
        a + n <= p.len(),
        forall|x: int| a <= x < a + n ==> p[x] != '*',
    ensures
        glob_at(p, t, a, k) == (plain_run(p, t, a, k, n) && glob_at(p, t, a + n, k + n)),
    decreases n,
{
    if n > 0 {
        assert(p[a] != '*');
        if k < t.len() {
            lemma_plain_stretch(p, t, a + 1, k + 1, n - 1);
            if plain_run(p, t, a, k, n) {
                assert(p[a] == '?' || p[a] == t[k + (a - a)]);
                assert forall|x: int| a + 1 <= x < a + 1 + (n - 1) implies p[x] != '*' && (p[x]
                    == '?' || p[x] == t[(k + 1) + (x - (a + 1))]) by {
                    assert(p[x] == '?' || p[x] == t[k + (x - a)]);
                }
            }
            if plain_run(p, t, a + 1, k + 1, n - 1) && (p[a] == '?' || p[a] == t[k]) {
                assert forall|x: int| a <= x < a + n implies p[x] != '*' && (p[x] == '?' || p[x]
                    == t[k + (x - a)]) by {
                    if x > a {
                        assert(p[x] == '?' || p[x] == t[(k + 1) + (x - (a + 1))]);
                    }
                }
            }
        }
    } else {
        assert(plain_run(p, t, a, k, 0));
    }
}

/// A star at `s` matches from `k` exactly when the rest of the pattern
/// matches from some later position `m >= k`.
proof fn lemma_star(p: Seq<char>, t: Seq<char>, s: int, k: int)
    requires
        0 <= s < p.len(),
        p[s] == '*',
        0 <= k <= t.len(),
    ensures
        glob_at(p, t, s, k) == exists|m: int| k <= m <= t.len() && #[trigger] glob_at(p, t, s + 1, m),
    decreases t.len() - k,
{
    if glob_at(p, t, s + 1, k) {
        assert(k <= k <= t.len() && glob_at(p, t, s + 1, k));
    }
    if k < t.len() {
        lemma_star(p, t, s, k + 1);
        if glob_at(p, t, s, k + 1) {
            let m = choose|m: int| k + 1 <= m <= t.len() && #[trigger] glob_at(p, t, s + 1, m);
            assert(k <= m <= t.len() && glob_at(p, t, s + 1, m));
        }
        if exists|m: int| k <= m <= t.len() && #[trigger] glob_at(p, t, s + 1, m) {
            let m = choose|m: int| k <= m <= t.len() && #[trigger] glob_at(p, t, s + 1, m);
            if m > k {
                assert(k + 1 <= m <= t.len() && glob_at(p, t, s + 1, m));
            }
        }
    } else {
        if exists|m: int| k <= m <= t.len() && #[trigger] glob_at(p, t, s + 1, m) {
            let m = choose|m: int| k <= m <= t.len() && #[trigger] glob_at(p, t, s + 1, m);
            assert(m == k);
        }
    }
}

/// Once the text is used up, what is left of the pattern matches exactly
/// when it is all stars.
proof fn lemma_text_done(p: Seq<char>, t: Seq<char>, i: int)
    requires
        0 <= i <= p.len(),
    ensures
        glob_at(p, t, i, t.len() as int) == forall|q: int| i <= q < p.len() ==> p[q] == '*',
    decreases p.len() - i,
{
    if i < p.len() {
        lemma_text_done(p, t, i + 1);
        if p[i] == '*' {
            if forall|q: int| i + 1 <= q < p.len() ==> p[q] == '*' {
                assert forall|q: int| i <= q < p.len() implies p[q] == '*' by {
                    if q > i {
                        assert(i + 1 <= q < p.len());
                    }
                }
            }
        } else {
            assert(!(forall|q: int| i <= q < p.len() ==> p[q] == '*'));
        }
    }
}

/// A glob made only of stars matches every text.
pub proof fn lemma_stars_match_anything(p: Seq<char>, t: Seq<char>)
    requires
        p.len() > 0,
        forall|i: int| 0 <= i < p.len() ==> p[i] == '*',
    ensures
        glob(p, t),
{
    lemma_text_done(p, t, 1);
    lemma_star(p, t, 0, 0);
    assert(0 <= t.len() <= t.len() && glob_at(p, t, 1, t.len() as int));
}

/// Scanning state while the star at `s` is the most recent one: the
/// pattern after it up to `pi` has been matched, character by character,
/// against the text from `back` up to `ti`.
spec fn after_star(p: Seq<char>, t: Seq<char>, s: int, pi: int, ti: int, back: int) -> bool {
    &&& 0 <= s < pi <= p.len()
    &&& 0 <= back <= ti <= t.len()
    &&& p[s] == '*'
    &&& pi - (s + 1) == ti - back
    &&& plain_run(p, t, s + 1, back, pi - (s + 1))
}

/// The whole match comes down to the rest after the star at `s` matching
/// from some position at or after `back`.
spec fn star_decides(p: Seq<char>, t: Seq<char>, s: int, back: int) -> bool {
    glob(p, t) == exists|m: int| back <= m <= t.len() && #[trigger] glob_at(p, t, s + 1, m)
}

/// Meeting a star with no earlier star.
proof fn lemma_first_star(p: Seq<char>, t: Seq<char>, pi: int, ti: int)
    requires
        0 <= pi < p.len(),
        0 <= ti <= t.len(),
        p[pi] == '*',
        glob(p, t) == glob_at(p, t, pi, ti),
    ensures
        star_decides(p, t, pi, ti),
{
    lemma_star(p, t, pi, ti);
}

/// Meeting a star after an earlier one: the new star takes over.
proof fn lemma_next_star(p: Seq<char>, t: Seq<char>, s: int, pi: int, ti: int, back: int)
    requires
        after_star(p, t, s, pi, ti, back),
        star_decides(p, t, s, back),
        pi < p.len(),
        p[pi] == '*',
    ensures
        star_decides(p, t, pi, ti),
{
    let a = s + 1;
    let n = pi - a;
    lemma_star(p, t, pi, ti);
    assert forall|m: int| back <= m <= t.len() implies #[trigger] glob_at(p, t, a, m) == (plain_run(
        p,
        t,
        a,
        m,
        n,
    ) && glob_at(p, t, pi, m + n)) by {
        lemma_plain_stretch(p, t, a, m, n);
    }
    if glob(p, t) {
        let m = choose|m: int| back <= m <= t.len() && #[trigger] glob_at(p, t, a, m);
        lemma_star(p, t, pi, m + n);
        let m2 = choose|m2: int| m + n <= m2 <= t.len() && #[trigger] glob_at(p, t, pi + 1, m2);
        assert(ti <= m2 <= t.len() && glob_at(p, t, pi + 1, m2));
    }
    if exists|m2: int| ti <= m2 <= t.len() && #[trigger] glob_at(p, t, pi + 1, m2) {
        assert(glob_at(p, t, pi, ti));
        assert(glob_at(p, t, a, back));
        assert(back <= back <= t.len() && glob_at(p, t, a, back));
    }
}

/// A character matched after a star extends the stretch.
proof fn lemma_after_star_step(p: Seq<char>, t: Seq<char>, s: int, pi: int, ti: int, back: int)
    requires
        after_star(p, t, s, pi, ti, back),
        pi < p.len(),
        ti < t.len(),
        p[pi] != '*',
        p[pi] == '?' || p[pi] == t[ti],
    ensures
        after_star(p, t, s, pi + 1, ti + 1, back),
{
    let a = s + 1;
    let n = pi - a;
    assert forall|x: int| a <= x < a + (n + 1) implies p[x] != '*' && (p[x] == '?' || p[x] == t[back
        + (x - a)]) by {
        if x < a + n {
            assert(plain_run(p, t, a, back, n));
        }
    }
}

/// A mismatch after a star: the star absorbs one more character.
proof fn lemma_backtrack(p: Seq<char>, t: Seq<char>, s: int, pi: int, ti: int, back: int)
    requires
        after_star(p, t, s, pi, ti, back),
        star_decides(p, t, s, back),
        ti < t.len(),
        pi >= p.len() || (p[pi] != '*' && p[pi] != '?' && p[pi] != t[ti]),
    ensures
        star_decides(p, t, s, back + 1),
        after_star(p, t, s, s + 1, back + 1, back + 1),
{
    let a = s + 1;
    let n = pi - a;
    lemma_plain_stretch(p, t, a, back, n);
    assert(!glob_at(p, t, a, back));
    if glob(p, t) {
        let m = choose|m: int| back <= m <= t.len() && #[trigger] glob_at(p, t, a, m);
        assert(m != back);
        assert(back + 1 <= m <= t.len() && glob_at(p, t, a, m));
    }
    if exists|m: int| back + 1 <= m <= t.len() && #[trigger] glob_at(p, t, a, m) {
        let m = choose|m: int| back + 1 <= m <= t.len() && #[trigger] glob_at(p, t, a, m);
        assert(back <= m <= t.len() && glob_at(p, t, a, m));
    }
    assert(plain_run(p, t, a, back + 1, 0));
}

/// At the end of the text, with a star pending, the match is decided by the
/// rest of the pattern being all stars.
proof fn lemma_finish_after_star(p: Seq<char>, t: Seq<char>, s: int, pi: int, back: int)
    requires
        after_star(p, t, s, pi, t.len() as int, back),
        star_decides(p, t, s, back),
    ensures
        glob(p, t) == glob_at(p, t, pi, t.len() as int),
{
    let a = s + 1;
    let n = pi - a;
    assert forall|m: int| back <= m <= t.len() && #[trigger] glob_at(p, t, a, m) implies m == back by {
        lemma_plain_stretch(p, t, a, m, n);
    }
    lemma_plain_stretch(p, t, a, back, n);
    if glob(p, t) {
        let m = choose|m: int| back <= m <= t.len() && #[trigger] glob_at(p, t, a, m);
        assert(m == back);
    }
    if glob_at(p, t, a, back) {
        assert(back <= back <= t.len() && glob_at(p, t, a, back));
    }
}

/// Match one segment `t` against the glob `p`.
///
/// Runs without recursion: on a mismatch it returns to the most recent `*`
/// and lets that star absorb one more character, so inputs like
/// `*a*a*a*a*` take time proportional to the product of the lengths.
pub fn glob_match(p: &[char], t: &[char]) -> (r: bool)
    ensures
        r == glob(p@, t@),
{
    let pn = p.len();
    let tn = t.len();
    let mut pi: usize = 0;
    let mut ti: usize = 0;
    let mut star: Option<usize> = None;
    let mut back: usize = 0;
    while ti < tn
        invariant
            pn == p@.len(),
            tn == t@.len(),
            0 <= pi <= pn,
            0 <= back <= ti <= tn,
            star matches None ==> glob(p@, t@) == glob_at(p@, t@, pi as int, ti as int),
            star matches Some(s) ==> after_star(p@, t@, s as int, pi as int, ti as int, back as int)
                && star_decides(p@, t@, s as int, back as int),
        decreases tn - back, (pn - pi) + (tn - ti),
    {
        if pi < pn && p[pi] == '*' {
            proof {
                match star {
                    Some(s) => lemma_next_star(p@, t@, s as int, pi as int, ti as int, back as int),
                    None => lemma_first_star(p@, t@, pi as int, ti as int),
                }
            }
            star = Some(pi);
            back = ti;
            pi += 1;
            assert(plain_run(p@, t@, pi as int, back as int, 0));
        } else if pi < pn && (p[pi] == '?' || p[pi] == t[ti]) {
            proof {
                if let Some(s) = star {
                    lemma_after_star_step(p@, t@, s as int, pi as int, ti as int, back as int);
                }
            }
            pi += 1;
            ti += 1;
        } else if let Some(s) = star {
            proof {
                lemma_backtrack(p@, t@, s as int, pi as int, ti as int, back as int);
            }
            pi = s + 1;
            back += 1;
            ti = back;
        } else {
            return false;
        }
    }
    let done = all_stars_from(p, pi);
    proof {
        lemma_text_done(p@, t@, pi as int);
        if let Some(s) = star {
            lemma_finish_after_star(p@, t@, s as int, pi as int, back as int);
        }
    }
    done
}

/// Whether every character of `p` from index `i` on is `*`.
fn all_stars_from(p: &[char], i: usize) -> (r: bool)
    requires
        i <= p@.len(),
    ensures
        r == forall|q: int| i <= q < p@.len() ==> p@[q] == '*',
{
    let n = p.len();
    let mut k = i;
    while k < n
        invariant
            n == p@.len(),
            i <= k <= n,
            forall|q: int| i <= q < k ==> p@[q] == '*',
        decreases n - k,
    {
        if p[k] != '*' {
            assert(p@[k as int] != '*');
            return false;
        }
        k += 1;
    }
    true
}

/// Whether everything the glob `h` matches from index `i` on, the glob `g`
/// matches from index `j` on, as shown by walking the two side by side: a
/// `*` of `g` takes up any run of `h`, stars included; any other character
/// of `g` takes up one character of `h` that is not `*`, a `?` of `g` any
/// such character, a literal of `g` only itself.
pub open spec fn glob_within_at(h: Seq<char>, g: Seq<char>, i: int, j: int) -> bool
    decreases h.len() - i + g.len() - j,
{
    if i < 0 || j < 0 || i > h.len() || j > g.len() {
        false
    } else if j < g.len() && g[j] == '*' {
        glob_within_at(h, g, i, j + 1) || (i < h.len() && glob_within_at(h, g, i + 1, j))
    } else if j == g.len() {
        i == h.len()
    } else {
        i < h.len() && h[i] != '*' && (g[j] == '?' || h[i] == g[j]) && glob_within_at(
            h,
            g,
            i + 1,
            j + 1,
        )
    }
}

/// Whether the glob `h` is found within the glob `g` (see
/// [`glob_within_at`]): every text `h` matches, `g` matches too.
pub open spec fn glob_within(h: Seq<char>, g: Seq<char>) -> bool {
    glob_within_at(h, g, 0, 0)
}

/// Side by side: where [`glob_within_at`] holds, every match of `h` from
/// `i` at text position `k` is a match of `g` from `j` at the same position.
pub proof fn lemma_glob_within(h: Seq<char>, g: Seq<char>, t: Seq<char>, i: int, j: int, k: int)
    requires
        glob_within_at(h, g, i, j),
        0 <= k <= t.len(),
        glob_at(h, t, i, k),
    ensures
        glob_at(g, t, j, k),
    decreases h.len() - i + g.len() - j, t.len() - k,
{
    if j < g.len() && g[j] == '*' {
        if glob_within_at(h, g, i, j + 1) {
            lemma_glob_within(h, g, t, i, j + 1, k);
        } else if h[i] == '*' {
            if glob_at(h, t, i + 1, k) {
                lemma_glob_within(h, g, t, i + 1, j, k);
            } else {
                lemma_glob_within(h, g, t, i, j, k + 1);
            }
        } else {
            lemma_glob_within(h, g, t, i + 1, j, k + 1);
        }
    } else if j < g.len() {
        lemma_glob_within(h, g, t, i + 1, j + 1, k + 1);
    }
}

/// Whether the glob `h` is found within the glob `g` (see [`glob_within`]).
///
/// Fills the table of [`glob_within_at`] one row of `h` at a time, from the
/// end, so each pair of positions is looked at once.
pub fn glob_within_match(h: &[char], g: &[char]) -> (r: bool)
    ensures
        r == glob_within(h@, g@),
{
    let n = h.len();
    let mut row = glob_within_row(h, g, n, &Vec::new());
    let mut i = n;
    while i > 0
        invariant
            n == h@.len(),
            i <= n,
            row@.len() == g@.len() + 1,
            forall|j: int| 0 <= j < row@.len() ==> row@[j] == glob_within_at(h@, g@, i as int, j),
        decreases i,
    {
        i -= 1;
        row = glob_within_row(h, g, i, &row);
    }
    row[0]
}

/// The row of [`glob_within_at`] at index `i` of `h`, for every index of
/// `g`, given the row at `i + 1` (unused at the end of `h`).
fn glob_within_row(h: &[char], g: &[char], i: usize, next: &Vec<bool>) -> (row: Vec<bool>)
    requires
        i <= h@.len(),
        i < h@.len() ==> next@.len() == g@.len() + 1,
        i < h@.len() ==> forall|j: int|
            0 <= j < next@.len() ==> next@[j] == glob_within_at(h@, g@, i + 1, j),
    ensures
        row@.len() == g@.len() + 1,
        forall|j: int| 0 <= j < row@.len() ==> row@[j] == glob_within_at(h@, g@, i as int, j),
{
    let n = h.len();
    let m = g.len();
    let mut row: Vec<bool> = Vec::new();
    let mut k: usize = 0;
    while k < m
        invariant
            row@.len() == k,
            k <= m,
        decreases m - k,
    {
        row.push(false);
        k += 1;
    }
    row.push(i == n);
    let mut j = m;
    while j > 0
        invariant
            n == h@.len(),
            m == g@.len(),
            i <= n,
            i < n ==> next@.len() == m + 1,
            i < n ==> forall|q: int| 0 <= q <= m ==> next@[q] == glob_within_at(h@, g@, i + 1, q),
            j <= m,
            row@.len() == m + 1,
            forall|q: int| j <= q <= m ==> row@[q] == glob_within_at(h@, g@, i as int, q),
        decreases j,
    {
        j -= 1;
        let cell = if g[j] == '*' {
            row[j + 1] || (i < n && next[j])
        } else {
            i < n && h[i] != '*' && (g[j] == '?' || h[i] == g[j]) && next[j + 1]
        };
        row.set(j, cell);
    }
    row
}

} // verus!
