//! Logins: tokens that a provider handed out, and when to renew them.
use vstd::prelude::*;

use crate::settings::{FileRead, SaveError};
use crate::text::concat2;
use crate::{paths, settings, text};

verus! {

/// A token is renewed when it is valid for no longer than this.
pub const REFRESH_MARGIN_MS: u64 = 300_000;

/// What a login gave: a token, the token that renews it, and until when, in
/// milliseconds, the first one is valid.
pub struct OAuthCredential {
    pub access: String,
    pub refresh: String,
    pub expires: u64,
    pub account_id: String,
}

impl OAuthCredential {
    /// The same credential.
    pub fn copy(&self) -> (r: OAuthCredential)
        ensures
            r == *self,
    {
        OAuthCredential {
            access: self.access.clone(),
            refresh: self.refresh.clone(),
            expires: self.expires,
            account_id: self.account_id.clone(),
        }
    }
}

/// Where logins are kept.
pub fn auth_path(home: &str) -> (r: String)
    ensures
        r@ == paths::joined(home@, "auth.json"@),
{
    paths::join(home, "auth.json")
}

/// The first login from `from` on with a provider.
pub open spec fn login_index(
    v: Seq<(String, OAuthCredential)>,
    provider: Seq<char>,
    from: int,
) -> Option<int>
    decreases v.len() - from,
{
    if from >= v.len() {
        None
    } else if v[from].0@ == provider {
        Some(from)
    } else {
        login_index(v, provider, from + 1)
    }
}

fn find_login(v: &Vec<(String, OAuthCredential)>, provider: &str) -> (r: Option<usize>)
    ensures
        match r {
            Some(i) => i < v@.len() && login_index(v@, provider@, 0) == Some(i as int),
            None => login_index(v@, provider@, 0) is None,
        },
{
    let mut i: usize = 0;
    while i < v.len()
        invariant
            i <= v@.len(),
            login_index(v@, provider@, 0) == login_index(v@, provider@, i as int),
        decreases v@.len() - i,
    {
        if text::same_str(v[i].0.as_str(), provider) {
            return Some(i);
        }
        i += 1;
    }
    None
}

/// The login with a provider.
pub fn credential(v: &Vec<(String, OAuthCredential)>, provider: &str) -> (r: Option<OAuthCredential>)
    ensures
        match login_index(v@, provider@, 0) {
            Some(i) => r == Some(v@[i].1),
            None => r is None,
        },
{
    match find_login(v, provider) {
        Some(i) => Some(v[i].1.copy()),
        None => None,
    }
}

/// Whether there is a login with a provider. An expired one counts: it can
/// be renewed.
pub fn has_credential(v: &Vec<(String, OAuthCredential)>, provider: &str) -> (r: bool)
    ensures
        r == login_index(v@, provider@, 0) is Some,
{
    find_login(v, provider).is_some()
}

/// Whether logins are those before with one more: it takes the place of the
/// one with the same provider, or comes last.
pub open spec fn is_with_login(
    before: Seq<(String, OAuthCredential)>,
    provider: Seq<char>,
    c: OAuthCredential,
    after: Seq<(String, OAuthCredential)>,
) -> bool {
    match login_index(before, provider, 0) {
        Some(i) => after == before.update(i, (before[i].0, c)),
        None => after.len() == before.len() + 1 && after.drop_last() == before && after.last().0@
            == provider && after.last().1 == c,
    }
}

/// Stores a login.
pub fn save_credential(v: &mut Vec<(String, OAuthCredential)>, provider: &str, c: OAuthCredential)
    ensures
        is_with_login(old(v)@, provider@, c, final(v)@),
{
    let ghost before = v@;
    match find_login(v, provider) {
        Some(i) => {
            let name = v[i].0.clone();
            v.set(i, (name, c));
        },
        None => {
            v.push((provider.to_owned(), c));
            assert(v@.drop_last() =~= before);
        },
    }
}

/// Removes a login, and says whether there was one.
pub fn delete_credential(v: &mut Vec<(String, OAuthCredential)>, provider: &str) -> (r: bool)
    ensures
        match login_index(old(v)@, provider@, 0) {
            Some(i) => r && final(v)@ == old(v)@.remove(i),
            None => !r && final(v)@ == old(v)@,
        },
{
    match find_login(v, provider) {
        Some(i) => {
            let _ = v.remove(i);
            true
        },
        None => false,
    }
}

proof fn lemma_login_index(v: Seq<(String, OAuthCredential)>, provider: Seq<char>, from: int)
    requires
        0 <= from,
    ensures
        match login_index(v, provider, from) {
            Some(i) => from <= i < v.len() && v[i].0@ == provider && forall|k: int|
                from <= k < i ==> (#[trigger] v[k]).0@ != provider,
            None => forall|k: int| from <= k < v.len() ==> (#[trigger] v[k]).0@ != provider,
        },
    decreases v.len() - from,
{
    if from < v.len() && v[from].0@ != provider {
        lemma_login_index(v, provider, from + 1);
    }
}

proof fn lemma_login_index_is(
    v: Seq<(String, OAuthCredential)>,
    provider: Seq<char>,
    from: int,
    at: int,
)
    requires
        0 <= from <= at < v.len(),
        v[at].0@ == provider,
        forall|k: int| from <= k < at ==> (#[trigger] v[k]).0@ != provider,
    ensures
        login_index(v, provider, from) == Some(at),
    decreases at - from,
{
    if from < at {
        lemma_login_index_is(v, provider, from + 1, at);
    }
}

/// A login that was stored is found again.
pub proof fn law_logins_are_found_again(
    before: Seq<(String, OAuthCredential)>,
    provider: Seq<char>,
    c: OAuthCredential,
    after: Seq<(String, OAuthCredential)>,
)
    requires
        is_with_login(before, provider, c, after),
    ensures
        login_index(after, provider, 0) matches Some(i) && 0 <= i < after.len() && after[i].1 == c,
{
    lemma_login_index(before, provider, 0);
    match login_index(before, provider, 0) {
        Some(i) => {
            assert forall|k: int| 0 <= k < i implies (#[trigger] after[k]).0@ != provider by {
                assert(after[k] == before[k]);
            }
            lemma_login_index_is(after, provider, 0, i);
        },
        None => {
            let n = before.len() as int;
            assert forall|k: int| 0 <= k < n implies (#[trigger] after[k]).0@ != provider by {
                assert(after[k] == after.drop_last()[k]);
            }
            lemma_login_index_is(after, provider, 0, n);
        },
    }
}

/// Whether every provider has one login at most.
pub open spec fn one_per_provider(v: Seq<(String, OAuthCredential)>) -> bool {
    forall|i: int, j: int|
        0 <= i < v.len() && 0 <= j < v.len() && (#[trigger] v[i]).0@ == (#[trigger] v[j]).0@ ==> i
            == j
}

/// The login with a provider.
pub open spec fn login_of(v: Seq<(String, OAuthCredential)>, provider: Seq<char>) -> Option<
    OAuthCredential,
> {
    match login_index(v, provider, 0) {
        Some(i) => Some(v[i].1),
        None => None,
    }
}

/// Storing a login keeps every provider to one login, and touches no other
/// provider's.
pub proof fn law_saving_touches_one_login(
    before: Seq<(String, OAuthCredential)>,
    provider: Seq<char>,
    c: OAuthCredential,
    after: Seq<(String, OAuthCredential)>,
    other: Seq<char>,
)
    requires
        one_per_provider(before),
        is_with_login(before, provider, c, after),
    ensures
        one_per_provider(after),
        other != provider ==> login_of(after, other) == login_of(before, other),
{
    lemma_login_index(before, provider, 0);
    lemma_login_index(before, other, 0);
    lemma_login_index(after, other, 0);
    let n = before.len() as int;
    assert forall|k: int| 0 <= k < n implies (#[trigger] after[k]).0 == before[k].0 && (
    before[k].0@ != provider ==> after[k] == before[k]) by {
        if login_index(before, provider, 0) is None {
            assert(after[k] == after.drop_last()[k]);
        }
    }
    assert forall|i: int, j: int|
        0 <= i < after.len() && 0 <= j < after.len() && (#[trigger] after[i]).0@ == (
        #[trigger] after[j]).0@ implies i == j by {
        if i < n && j < n {
            assert(before[i].0@ == before[j].0@);
        } else if i < n {
            assert(before[i].0@ != provider);
        } else if j < n {
            assert(before[j].0@ != provider);
        }
    }
    if other != provider {
        match (login_index(before, other, 0), login_index(after, other, 0)) {
            (Some(i), Some(j)) => {
                assert(after[i].0@ == after[j].0@);
            },
            (Some(i), None) => {
                assert(after[i].0@ == other);
            },
            (None, Some(j)) => {
                assert(j < n ==> before[j].0@ == other);
            },
            (None, None) => {},
        }
    }
}

/// Removing a login leaves none with its provider, and touches no other
/// provider's.
pub proof fn law_removed_logins_are_gone(
    v: Seq<(String, OAuthCredential)>,
    provider: Seq<char>,
    at: int,
    other: Seq<char>,
)
    requires
        one_per_provider(v),
        login_index(v, provider, 0) == Some(at),
    ensures
        one_per_provider(v.remove(at)),
        login_of(v.remove(at), provider) is None,
        other != provider ==> login_of(v.remove(at), other) == login_of(v, other),
{
    let w = v.remove(at);
    lemma_login_index(v, provider, 0);
    lemma_login_index(v, other, 0);
    lemma_login_index(w, provider, 0);
    lemma_login_index(w, other, 0);
    assert forall|k: int| 0 <= k < w.len() implies #[trigger] w[k] == v[if k < at {
        k
    } else {
        k + 1
    }] by {}
    if let Some(k) = login_index(w, provider, 0) {
        let from = if k < at {
            k
        } else {
            k + 1
        };
        assert(v[from].0@ == v[at].0@);
    }
    if other != provider {
        match (login_index(v, other, 0), login_index(w, other, 0)) {
            (Some(i), Some(j)) => {
                let from = if j < at {
                    j
                } else {
                    j + 1
                };
                assert(v[from].0@ == v[i].0@);
            },
            (Some(i), None) => {
                let to = if i < at {
                    i
                } else {
                    i - 1
                };
                assert(w[to].0@ == other);
            },
            (None, Some(j)) => {
                let from = if j < at {
                    j
                } else {
                    j + 1
                };
                assert(v[from].0@ == other);
            },
            (None, None) => {},
        }
    }
}

/// The file that a change of the logins is written to, or why it is not: a
/// missing file is empty, and one with something wrong is refused.
pub fn open_auth(
    home: Option<String>,
    read: FileRead<Vec<(String, OAuthCredential)>>,
) -> (r: Result<(String, Vec<(String, OAuthCredential)>), SaveError>)
    ensures
        match (home, read, r) {
            (None, _, Err(e)) => e is NoHome,
            (Some(h), FileRead::Missing, Ok(x)) => x.0@ == paths::joined(h@, "auth.json"@)
                && x.1@.len() == 0,
            (Some(h), FileRead::Parsed(v), Ok(x)) => x.0@ == paths::joined(h@, "auth.json"@)
                && x.1 == v,
            (Some(h), _, Err(SaveError::Malformed { path, reason })) => path@ == paths::joined(
                h@,
                "auth.json"@,
            ) && settings::file_problem(path@, read) == Some(reason@),
            _ => false,
        },
{
    let home = match home {
        Some(h) => h,
        None => return Err(SaveError::NoHome),
    };
    let path = auth_path(home.as_str());
    if let Some(reason) = settings::file_error(path.as_str(), &read) {
        return Err(SaveError::Malformed { path, reason });
    }
    match read {
        FileRead::Parsed(v) => Ok((path, v)),
        _ => Ok((path, Vec::new())),
    }
}

/// The stored logins, and what to warn of. A file with something wrong is
/// skipped.
pub fn load_auth(home: Option<&str>, read: FileRead<Vec<(String, OAuthCredential)>>) -> (r: (
    Vec<(String, OAuthCredential)>,
    Option<String>,
))
    ensures
        match (home, read) {
            (Some(_), FileRead::Parsed(v)) => r.0 == v,
            _ => r.0@.len() == 0,
        },
        match home {
            Some(h) => match settings::file_problem(paths::joined(h@, "auth.json"@), read) {
                Some(e) => r.1 matches Some(w) && w@ == "ignoring auth file: "@ + e,
                None => r.1 is None,
            },
            None => r.1 is None,
        },
{
    let home = match home {
        Some(h) => h,
        None => return (Vec::new(), None),
    };
    if let Some(e) = settings::file_error(auth_path(home).as_str(), &read) {
        return (Vec::new(), Some(concat2("ignoring auth file: ", e.as_str())));
    }
    match read {
        FileRead::Parsed(v) => (v, None),
        _ => (Vec::new(), None),
    }
}

/// Whether a token is due for renewal: it is valid for no longer than the
/// margin.
pub fn needs_refresh(c: &OAuthCredential, now_ms: u64) -> (r: bool)
    ensures
        r == (now_ms + REFRESH_MARGIN_MS >= c.expires),
{
    now_ms as u128 + REFRESH_MARGIN_MS as u128 >= c.expires as u128
}

/// What to do for a token.
pub enum TokenStep {
    /// There is no login.
    NotLoggedIn,
    /// Take this one.
    Use(String),
    /// Renew it with this one.
    Renew(String),
}

/// Decides how a request gets its token: the stored one while it is fresh,
/// else a new one.
pub fn access_token(stored: Option<OAuthCredential>, now_ms: u64) -> (r: TokenStep)
    ensures
        match (stored, r) {
            (None, TokenStep::NotLoggedIn) => true,
            (Some(c), TokenStep::Use(t)) => now_ms + REFRESH_MARGIN_MS < c.expires && t@
                == c.access@,
            (Some(c), TokenStep::Renew(t)) => now_ms + REFRESH_MARGIN_MS >= c.expires && t@
                == c.refresh@,
            _ => false,
        },
{
    match stored {
        None => TokenStep::NotLoggedIn,
        Some(c) => if needs_refresh(&c, now_ms) {
            TokenStep::Renew(c.refresh)
        } else {
            TokenStep::Use(c.access)
        },
    }
}

/// What comes of a renewal: the new token, and the login to store in place of
/// the old one. Where it failed there is no token, least of all the old one.
pub fn renewed(fresh: Result<OAuthCredential, String>) -> (r: Option<(String, OAuthCredential)>)
    ensures
        match (fresh, r) {
            (Ok(c), Some((token, kept))) => token@ == c.access@ && kept == c,
            (Err(_), None) => true,
            _ => false,
        },
{
    match fresh {
        Ok(c) => Some((c.access.clone(), c)),
        Err(_) => None,
    }
}

/// A token is renewed while it is still valid for five minutes.
pub proof fn law_tokens_are_renewed_five_minutes_early()
    ensures
        REFRESH_MARGIN_MS == 5 * 60 * 1000,
{
}

} // verus!
