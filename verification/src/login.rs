//! Logging in with a subscription: what a login reports, how its code may
//! arrive, and which pasted texts are accepted.
//!
//! A login waits for a browser or for a device, so it runs beside the
//! interface. The code comes from the callback of the browser or from a
//! pasted redirect, whichever is first.
use vstd::prelude::*;

use crate::settings::SaveError;
use crate::text::{chars_of, concat2, concat3, find_char, slice, split_chars, starts_with, string_of, to_text};
use crate::{resources, settings, text};

verus! {

/// What a login reports.
#[derive(Debug)]
pub enum LoginEvent {
    /// Something worth a line in the transcript.
    Notice(String),
    /// The login is over.
    Done(Result<String, String>),
}

/// A login that is under way. Only the browser flow takes a pasted text,
/// and it takes one.
#[derive(Debug)]
pub struct LoginFlow {
    takes_code: bool,
    pasted: Option<String>,
}

impl LoginFlow {
    /// Whether a pasted text would be taken.
    pub closed spec fn waits_for_code(&self) -> bool {
        self.takes_code
    }

    /// The pasted text that waits to be read.
    pub closed spec fn held(&self) -> Option<Seq<char>> {
        resources::opt(self.pasted)
    }

    /// A login through the browser.
    pub fn browser() -> (r: LoginFlow)
        ensures
            r.waits_for_code(),
            r.held() is None,
    {
        LoginFlow { takes_code: true, pasted: None }
    }

    /// A login on another device.
    pub fn device() -> (r: LoginFlow)
        ensures
            !r.waits_for_code(),
            r.held() is None,
    {
        LoginFlow { takes_code: false, pasted: None }
    }

    /// Takes a pasted text, once, and only where the flow waits for one.
    pub fn submit_manual_code(&mut self, input: &str) -> (r: bool)
        ensures
            r == old(self).waits_for_code(),
            !final(self).waits_for_code(),
            final(self).held() == (if old(self).waits_for_code() {
                Some(input@)
            } else {
                old(self).held()
            }),
    {
        if self.takes_code {
            self.takes_code = false;
            self.pasted = Some(input.to_owned());
            true
        } else {
            false
        }
    }

    /// Hands the pasted text over.
    pub fn take_pasted(&mut self) -> (r: Option<String>)
        ensures
            resources::opt(r) == old(self).held(),
            final(self).held() is None,
            final(self).waits_for_code() == old(self).waits_for_code(),
    {
        self.pasted.take()
    }
}

/// The first nonempty value under a key, in `key=value` parts from `from`
/// on.
pub open spec fn parameter(parts: Seq<Seq<char>>, key: Seq<char>, from: int) -> Option<Seq<char>>
    decreases parts.len() - from,
{
    if from >= parts.len() {
        None
    } else if text::has_prefix(parts[from], key) && parts[from].len() > key.len() {
        Some(parts[from].skip(key.len() as int))
    } else {
        parameter(parts, key, from + 1)
    }
}

fn find_parameter(parts: &Vec<Vec<char>>, key: &str) -> (r: Option<String>)
    ensures
        resources::opt(r) == parameter(text::views(parts@), key@, 0),
{
    let n: usize = chars_of(key).len();
    let mut i: usize = 0;
    while i < parts.len()
        invariant
            i <= parts@.len(),
            n == key@.len(),
            parameter(text::views(parts@), key@, 0) == parameter(
                text::views(parts@),
                key@,
                i as int,
            ),
        decreases parts@.len() - i,
    {
        assert(text::views(parts@)[i as int] == parts@[i as int]@);
        if starts_with(&parts[i], key) && parts[i].len() > n {
            return Some(string_of(&parts[i], n, parts[i].len()));
        }
        i += 1;
    }
    None
}

/// The query of a URL: what stands behind the question mark, up to a
/// fragment.
pub open spec fn query_of(s: Seq<char>) -> Option<Seq<char>> {
    let at = text::find_from(s, '?', 0);
    if at < s.len() {
        Some(s.subrange(at + 1, text::find_from(s, '#', at + 1)))
    } else {
        None
    }
}

/// The code and the state that a pasted text holds: those of a redirect, or
/// a bare code.
pub open spec fn pasted_parts(input: Seq<char>) -> (Option<Seq<char>>, Option<Seq<char>>) {
    let s = text::trim(input);
    if s.len() == 0 {
        (None, None)
    } else {
        match query_of(s) {
            Some(query) => {
                let parts = text::split_on(query, '&');
                (parameter(parts, "code="@, 0), parameter(parts, "state="@, 0))
            },
            None => (Some(s), None),
        }
    }
}

/// Reads a pasted redirect or code.
pub fn parse_authorization_input(input: &str) -> (r: (Option<String>, Option<String>))
    ensures
        (resources::opt(r.0), resources::opt(r.1)) == pasted_parts(input@),
{
    let s = text::trimmed(&chars_of(input));
    if s.len() == 0 {
        return (None, None);
    }
    let at: usize = find_char(&s, '?', 0);
    if at < s.len() {
        let end: usize = find_char(&s, '#', at + 1);
        let query = slice(&s, at + 1, end);
        let parts = split_chars(&query, '&');
        (find_parameter(&parts, "code="), find_parameter(&parts, "state="))
    } else {
        (Some(to_text(&s)), None)
    }
}

/// What a pasted text comes to for a login with this state.
pub open spec fn pasted_code(input: Seq<char>, state: Seq<char>) -> Result<Seq<char>, Seq<char>> {
    match pasted_parts(input) {
        (_, Some(other)) if other != state => Err(
            "state mismatch - paste the redirect of THIS login attempt"@,
        ),
        (Some(code), _) => Ok(code),
        (None, _) => Err("no authorization code in the pasted input"@),
    }
}

/// A result of texts, by their views.
pub open spec fn views(r: Result<String, String>) -> Result<Seq<char>, Seq<char>> {
    match r {
        Ok(a) => Ok(a@),
        Err(b) => Err(b@),
    }
}

/// The code in a pasted text. The redirect of an earlier login is refused.
pub fn manual_input_to_code(input: &str, state: &str) -> (r: Result<String, String>)
    ensures
        views(r) == pasted_code(input@, state@),
{
    let (code, pasted) = parse_authorization_input(input);
    if let Some(other) = &pasted {
        if !text::same_str(other.as_str(), state) {
            return Err("state mismatch - paste the redirect of THIS login attempt".to_owned());
        }
    }
    match code {
        Some(c) => Ok(c),
        None => Err("no authorization code in the pasted input".to_owned()),
    }
}

/// How a code arrives.
#[derive(Debug)]
pub enum CodeArrival {
    /// The browser called back, or failed to.
    Served(Result<String, String>),
    /// Someone pasted a text.
    Pasted(String),
    /// Nothing will arrive any more.
    Dropped,
}

/// The code of a login, from whatever arrived first.
pub fn settle_code(arrival: CodeArrival, state: &str) -> (r: Result<String, String>)
    ensures
        match arrival {
            CodeArrival::Served(s) => r == s,
            CodeArrival::Pasted(input) => views(r) == pasted_code(input@, state@),
            CodeArrival::Dropped => views(r) == Err::<Seq<char>, Seq<char>>("login cancelled"@),
        },
{
    match arrival {
        CodeArrival::Served(s) => s,
        CodeArrival::Pasted(input) => manual_input_to_code(input.as_str(), state),
        CodeArrival::Dropped => Err("login cancelled".to_owned()),
    }
}

/// Asks for the login in the browser.
pub fn browser_notice(url: &str) -> (r: String)
    ensures
        r@ == "complete the ChatGPT login in your browser:\n  "@ + url@
            + "\n(nothing opened? open the URL yourself; redirect cannot load? paste it: /login openai-codex <url>; esc cancels)"@,
{
    concat3(
        "complete the ChatGPT login in your browser:\n  ",
        url,
        "\n(nothing opened? open the URL yourself; redirect cannot load? paste it: /login openai-codex <url>; esc cancels)",
    )
}

/// Says that the callback cannot arrive, so that the redirect has to be
/// pasted.
pub fn paste_only_notice(reason: &str) -> (r: String)
    ensures
        r@ == "cannot listen on 127.0.0.1:1455 ("@ + reason@
            + ") - complete the login in the browser, then paste the redirect URL: /login openai-codex <url>"@,
{
    concat3(
        "cannot listen on 127.0.0.1:1455 (",
        reason,
        ") - complete the login in the browser, then paste the redirect URL: /login openai-codex <url>",
    )
}

/// Asks for the login on another device, at this address.
pub fn device_notice(address: &str, user_code: &str) -> (r: String)
    ensures
        r@ == "on any device, open "@ + address@ + "\nand enter the code: "@ + user_code@
            + "\n(waiting up to 15 minutes; esc cancels)"@,
{
    let mut out = concat3("on any device, open ", address, "\nand enter the code: ");
    out.push_str(user_code);
    out.push_str("\n(waiting up to 15 minutes; esc cancels)");
    out
}

/// What a login that has its credential comes to, once that was saved or
/// not.
pub fn finish(account_id: &str, saved: Result<String, SaveError>) -> (r: Result<String, String>)
    ensures
        views(r) == match saved {
            Ok(path) => Ok::<Seq<char>, Seq<char>>(
                "logged in with ChatGPT (account "@ + account_id@ + ") - saved to "@ + path@,
            ),
            Err(e) => Err(
                "login succeeded but could not be saved: "@ + settings::save_error_text(e),
            ),
        },
{
    match saved {
        Ok(path) => {
            let mut out = concat3("logged in with ChatGPT (account ", account_id, ") - saved to ");
            out.push_str(path.as_str());
            Ok(out)
        },
        Err(e) => Err(
            concat2("login succeeded but could not be saved: ", e.message().as_str()),
        ),
    }
}

/// A pasted redirect is accepted only where it carries no state or that of
/// this very login.
pub proof fn law_foreign_redirects_are_refused(input: Seq<char>, state: Seq<char>)
    ensures
        pasted_code(input, state) is Ok ==> (pasted_parts(input).1 is None || pasted_parts(input).1
            == Some(state)),
{
}

/// Whether texts can stand in the query of an address.
pub open spec fn are_parameters(parts: Seq<Seq<char>>) -> bool {
    parts.len() > 0 && forall|k: int|
        0 <= k < parts.len() ==> !(#[trigger] parts[k]).contains('&') && !parts[k].contains('#')
}

proof fn lemma_joined_free(parts: Seq<Seq<char>>, k: int)
    requires
        are_parameters(parts),
        0 <= k < text::joined(parts, seq!['&']).len(),
    ensures
        text::joined(parts, seq!['&'])[k] != '#',
    decreases parts.len(),
{
    let all = text::joined(parts, seq!['&']);
    let last = parts.last();
    if parts.len() == 1 {
        assert(parts[0].contains(parts[0][k]));
    } else {
        let before = parts.drop_last();
        assert forall|j: int| 0 <= j < before.len() implies !(#[trigger] before[j]).contains('&')
            && !before[j].contains('#') by {
            assert(before[j] == parts[j]);
        }
        let n = text::joined(before, seq!['&']).len() as int;
        if k < n {
            lemma_joined_free(before, k);
        } else if k > n {
            assert(all[k] == last[k - n - 1]);
            assert(parts[parts.len() - 1].contains(last[k - n - 1]));
        }
    }
}

/// The parameters of a redirect are those of its query, whatever stands
/// before it.
pub proof fn law_redirects_are_read_by_their_query(base: Seq<char>, parts: Seq<Seq<char>>)
    requires
        base.len() > 0,
        !base.contains('?'),
        !text::is_white_space(base[0]),
        are_parameters(parts),
        parts.last().len() > 0 && !text::is_white_space(parts.last().last()),
    ensures
        pasted_parts(base + seq!['?'] + text::joined(parts, seq!['&'])) == (
            parameter(parts, "code="@, 0),
            parameter(parts, "state="@, 0),
        ),
{
    let query = text::joined(parts, seq!['&']);
    let s = base + seq!['?'] + query;
    assert(query.len() > 0 && query.last() == parts.last().last()) by {
        if parts.len() > 1 {
            assert(query.last() == parts.last().last());
        }
    }
    assert(s[0] == base[0]);
    assert(s.last() == query.last());
    text::lemma_leading_space(s);
    assert(text::leading_space(s) == 0);
    assert(s.skip(0) =~= s);
    text::lemma_trim_end(s);
    assert(text::trim(s) =~= s);
    let at = base.len() as int;
    assert forall|k: int| 0 <= k < at implies s[k] != '?' by {
        assert(s[k] == base[k]);
        assert(base.contains(base[k]));
    }
    text::lemma_find_from_is(s, '?', 0, at);
    assert forall|k: int| at + 1 <= k < s.len() implies s[k] != '#' by {
        assert(s[k] == query[k - at - 1]);
        lemma_joined_free(parts, k - at - 1);
    }
    text::lemma_find_from_is(s, '#', at + 1, s.len() as int);
    assert(s.subrange(at + 1, s.len() as int) =~= query);
    text::law_splitting_undoes_joining(parts, '&');
}

/// The code of a redirect is taken when its state is that of the login, and
/// refused when it is not, in whichever order the two are given. A code that
/// is pasted alone is taken as it is.
pub proof fn law_codes_are_taken_from_redirects(
    base: Seq<char>,
    code: Seq<char>,
    given: Seq<char>,
    state: Seq<char>,
)
    requires
        base.len() > 0,
        !base.contains('?'),
        !text::is_white_space(base[0]),
        code.len() > 0 && !text::is_white_space(code[0]) && !text::is_white_space(code.last()),
        given.len() > 0 && !text::is_white_space(given.last()),
        !code.contains('&') && !code.contains('#') && !code.contains('?'),
        !given.contains('&') && !given.contains('#'),
    ensures
        ({
            let a = "code="@ + code;
            let b = "state="@ + given;
            let first = base + seq!['?'] + text::joined(seq![a, b], seq!['&']);
            let second = base + seq!['?'] + text::joined(seq![b, a], seq!['&']);
            &&& given == state ==> pasted_code(first, state) == Ok::<Seq<char>, Seq<char>>(code)
            &&& given == state ==> pasted_code(second, state) == Ok::<Seq<char>, Seq<char>>(code)
            &&& given != state ==> pasted_code(first, state) is Err
            &&& given != state ==> pasted_code(second, state) is Err
            &&& pasted_code(code, state) == Ok::<Seq<char>, Seq<char>>(code)
        }),
{
    reveal_strlit("code=");
    reveal_strlit("state=");
    let a = "code="@ + code;
    let b = "state="@ + given;
    assert(a[0] == 'c' && b[0] == 's');
    assert(!a.contains('&') && !a.contains('#')) by {
        if a.contains('&') {
            let k = choose|k: int| 0 <= k < a.len() && a[k] == '&';
            assert(k >= 5 && code[k - 5] == '&');
        }
        if a.contains('#') {
            let k = choose|k: int| 0 <= k < a.len() && a[k] == '#';
            assert(k >= 5 && code[k - 5] == '#');
        }
    }
    assert(!b.contains('&') && !b.contains('#')) by {
        if b.contains('&') {
            let k = choose|k: int| 0 <= k < b.len() && b[k] == '&';
            assert(k >= 6 && given[k - 6] == '&');
        }
        if b.contains('#') {
            let k = choose|k: int| 0 <= k < b.len() && b[k] == '#';
            assert(k >= 6 && given[k - 6] == '#');
        }
    }
    assert(a.take(5) =~= "code="@ && a.skip(5) =~= code);
    assert(b.take(6) =~= "state="@ && b.skip(6) =~= given);
    assert(a.take(6)[0] == 'c' || a.len() < 6);
    assert(!text::has_prefix(a, "state="@)) by {
        if text::has_prefix(a, "state="@) {
            assert(a.take(6)[0] == "state="@[0]);
        }
    }
    assert(!text::has_prefix(b, "code="@)) by {
        if text::has_prefix(b, "code="@) {
            assert(b.take(5)[0] == "code="@[0]);
        }
    }
    let first = seq![a, b];
    let second = seq![b, a];
    assert(a.last() == code.last() && b.last() == given.last());
    law_redirects_are_read_by_their_query(base, first);
    law_redirects_are_read_by_their_query(base, second);
    reveal_with_fuel(parameter, 3);
    assert(text::trim(code) == code) by {
        text::lemma_leading_space(code);
        assert(text::leading_space(code) == 0);
        assert(code.skip(0) =~= code);
        text::lemma_trim_end(code);
        assert(text::trim_end(code) =~= code);
    }
    text::lemma_find_from(code, '?', 0);
    if text::find_from(code, '?', 0) < code.len() {
        assert(code.contains(code[text::find_from(code, '?', 0)]));
    }
}

} // verus!
