//! Code owners: `@user`, `@org/team`, or an email address.

use vstd::prelude::*;
use crate::text::{ascii_alnum, chars_of, find, find_char, has_char, is_ascii_alnum, lemma_find, string_of};

verus! {

/// What an owner is, as text.
pub enum OwnerView {
    /// A user login, without the `@`.
    User(Seq<char>),
    /// An organization (without the `@`) and a team slug.
    Team(Seq<char>, Seq<char>),
    /// An email address.
    Email(Seq<char>),
}

/// A single code owner.
#[derive(Debug, PartialEq, Eq, Hash, PartialOrd, Ord)]
pub enum Owner {
    /// `@username`
    User(String),
    /// `@org/team-name`
    Team {
        /// The organization, without the leading `@`.
        org: String,
        /// The team slug.
        team: String,
    },
    /// A bare email address.
    Email(String),
}

impl Clone for Owner {
    /// A copy of this owner.
    fn clone(&self) -> (o: Self)
        ensures
            o == *self,
    {
        match self {
            Owner::User(u) => Owner::User(u.clone()),
            Owner::Team { org, team } => Owner::Team { org: org.clone(), team: team.clone() },
            Owner::Email(e) => Owner::Email(e.clone()),
        }
    }
}

impl View for Owner {
    type V = OwnerView;

    open spec fn view(&self) -> OwnerView {
        match self {
            Owner::User(u) => OwnerView::User(u@),
            Owner::Team { org, team } => OwnerView::Team(org@, team@),
            Owner::Email(e) => OwnerView::Email(e@),
        }
    }
}

/// A GitHub account name: ASCII letters, digits and hyphens, neither
/// starting nor ending with a hyphen, 1 to 39 characters long.
pub open spec fn is_login(s: Seq<char>) -> bool {
    &&& 0 < s.len() <= 39
    &&& s[0] != '-'
    &&& s.last() != '-'
    &&& forall|i: int| 0 <= i < s.len() ==> is_ascii_alnum(#[trigger] s[i]) || s[i] == '-'
}

/// A team slug: non-empty, ASCII letters, digits, `-`, `_` and `.`.
pub open spec fn is_slug(s: Seq<char>) -> bool {
    &&& s.len() > 0
    &&& forall|i: int|
        0 <= i < s.len() ==> is_ascii_alnum(#[trigger] s[i]) || s[i] == '-' || s[i] == '_' || s[i]
            == '.'
}

/// `s` split around its first `c`, if it has one.
pub open spec fn split_once(s: Seq<char>, c: char) -> Option<(Seq<char>, Seq<char>)> {
    let i = find(s, c);
    if i < s.len() {
        Some((s.take(i), s.skip(i + 1)))
    } else {
        None
    }
}

/// The owner written as the token `tok`, if it is one.
///
/// `@name` is a user and `@org/team` a team, under the login and slug rules.
/// Anything else is taken as an email address when it has an `@` with text
/// before it and a domain after it that holds a `.` and does not start with
/// one; this is deliberately loose.
pub open spec fn parse_owner(tok: Seq<char>) -> Option<OwnerView> {
    if tok.len() > 0 && tok[0] == '@' {
        let rest = tok.drop_first();
        if rest.len() == 0 {
            None
        } else {
            match split_once(rest, '/') {
                Some((org, team)) => if is_login(org) && is_slug(team) {
                    Some(OwnerView::Team(org, team))
                } else {
                    None
                },
                None => if is_login(rest) {
                    Some(OwnerView::User(rest))
                } else {
                    None
                },
            }
        }
    } else {
        match split_once(tok, '@') {
            None => None,
            Some((local, domain)) => if local.len() == 0 || !domain.contains('.') || (domain.len()
                > 0 && domain[0] == '.') {
                None
            } else {
                Some(OwnerView::Email(tok))
            },
        }
    }
}

/// How an owner is written: `@user`, `@org/team`, or the address itself.
pub open spec fn owner_text(o: OwnerView) -> Seq<char> {
    match o {
        OwnerView::User(u) => seq!['@'] + u,
        OwnerView::Team(org, team) => seq!['@'] + org + seq!['/'] + team,
        OwnerView::Email(e) => e,
    }
}

fn login_ok(s: &[char]) -> (r: bool)
    ensures
        r == is_login(s@),
{
    let n = s.len();
    if n == 0 || n > 39 || s[0] == '-' || s[n - 1] == '-' {
        return false;
    }
    let mut i: usize = 0;
    while i < n
        invariant
            n == s@.len(),
            0 <= i <= n,
            forall|j: int| 0 <= j < i ==> is_ascii_alnum(#[trigger] s@[j]) || s@[j] == '-',
        decreases n - i,
    {
        if !(ascii_alnum(s[i]) || s[i] == '-') {
            return false;
        }
        i += 1;
    }
    true
}

fn slug_ok(s: &[char]) -> (r: bool)
    ensures
        r == is_slug(s@),
{
    let n = s.len();
    if n == 0 {
        return false;
    }
    let mut i: usize = 0;
    while i < n
        invariant
            n == s@.len(),
            0 <= i <= n,
            forall|j: int|
                0 <= j < i ==> is_ascii_alnum(#[trigger] s@[j]) || s@[j] == '-' || s@[j] == '_'
                    || s@[j] == '.',
        decreases n - i,
    {
        let c = s[i];
        if !(ascii_alnum(c) || c == '-' || c == '_' || c == '.') {
            return false;
        }
        i += 1;
    }
    true
}

impl Owner {
    /// Construct a [`Owner::User`].
    pub fn user(name: &str) -> (o: Owner)
        ensures
            o@ == OwnerView::User(name@),
    {
        Owner::User(name.to_owned())
    }

    /// Construct a [`Owner::Team`].
    pub fn team(org: &str, team: &str) -> (o: Owner)
        ensures
            o@ == OwnerView::Team(org@, team@),
    {
        Owner::Team { org: org.to_owned(), team: team.to_owned() }
    }

    /// Construct a [`Owner::Email`].
    pub fn email(addr: &str) -> (o: Owner)
        ensures
            o@ == OwnerView::Email(addr@),
    {
        Owner::Email(addr.to_owned())
    }

    /// Parse one owner token: `@user`, `@org/team`, or an email address.
    pub fn parse(token: &str) -> (r: Option<Owner>)
        ensures
            match parse_owner(token@) {
                Some(v) => r matches Some(o) && o@ == v,
                None => r is None,
            },
    {
        let cs = chars_of(token);
        Self::from_chars(cs.as_slice())
    }

    /// [`Owner::parse`] on the characters of a token.
    pub(crate) fn from_chars(tok: &[char]) -> (r: Option<Owner>)
        ensures
            match parse_owner(tok@) {
                Some(v) => r matches Some(o) && o@ == v,
                None => r is None,
            },
    {
        let n = tok.len();
        if n > 0 && tok[0] == '@' {
            let rest = &tok[1..n];
            assert(rest@ =~= tok@.drop_first());
            if rest.len() == 0 {
                return None;
            }
            let m = rest.len();
            let i = find_char(rest, '/');
            proof {
                lemma_find(rest@, '/');
            }
            if i < m {
                let org = &rest[0..i];
                let team = &rest[i + 1..m];
                assert(org@ =~= rest@.take(i as int));
                assert(team@ =~= rest@.skip(i + 1));
                if login_ok(org) && slug_ok(team) {
                    Some(Owner::Team { org: string_of(org), team: string_of(team) })
                } else {
                    None
                }
            } else if login_ok(rest) {
                Some(Owner::User(string_of(rest)))
            } else {
                None
            }
        } else {
            let i = find_char(tok, '@');
            proof {
                lemma_find(tok@, '@');
            }
            if i == n {
                return None;
            }
            let domain = &tok[i + 1..n];
            assert(domain@ =~= tok@.skip(i + 1));
            if i == 0 || !has_char(domain, '.') || (domain.len() > 0 && domain[0] == '.') {
                None
            } else {
                Some(Owner::Email(string_of(tok)))
            }
        }
    }

    /// How this owner is written in a CODEOWNERS file.
    pub fn to_string(&self) -> (s: String)
        ensures
            s@ == owner_text(self@),
    {
        let mut buf: Vec<char> = Vec::new();
        match self {
            Owner::User(u) => {
                buf.push('@');
                let mut c = chars_of(u.as_str());
                buf.append(&mut c);
            },
            Owner::Team { org, team } => {
                buf.push('@');
                let mut c = chars_of(org.as_str());
                buf.append(&mut c);
                buf.push('/');
                let mut d = chars_of(team.as_str());
                buf.append(&mut d);
            },
            Owner::Email(e) => {
                let mut c = chars_of(e.as_str());
                buf.append(&mut c);
            },
        }
        assert(buf@ =~= owner_text(self@));
        string_of(buf.as_slice())
    }
}

} // verus!
