//! Lichess sign-in: which token goes with which user, and the OAuth redirect it waits for.
use vstd::prelude::*;
use crate::text::{
    append_str, chars_of, cviews, dec, decimal, eq_ignore_ascii_case, eq_ignore_case, lines, slice_to_vec, split_lines,
    split_ws, str_eq, string_of, trim, trim_str, ws_tokens,
};

verus! {

broadcast use vstd::string::group_string_axioms;

pub const CLIENT_ID: &'static str = "novelty";

pub const SESSION_FILE: &'static str = "lichess.json";

/// A signed-in Lichess account.
#[derive(Clone, Debug, PartialEq, Eq)]
pub struct LichessSession {
    pub username: String,
    pub access_token: String,
}

/// Token for loading games: only when the requested user matches the logged-in account.
pub fn token_for_username<'a>(session: &'a LichessSession, username: &str) -> (r: Option<&'a str>)
    ensures
        match r {
            Some(t) => eq_ignore_case(session.username@, trim(username@)) && t@ == session.access_token@,
            None => !eq_ignore_case(session.username@, trim(username@)),
        },
{
    let name = string_of(trim_str(username).as_slice());
    if eq_ignore_ascii_case(session.username.as_str(), name.as_str()) {
        Some(session.access_token.as_str())
    } else {
        None
    }
}

/// The name to sign in with: the trimmed username, which must not be blank.
pub fn login_username(username: &str) -> (r: Result<String, String>)
    ensures
        match r {
            Ok(n) => trim(username@).len() > 0 && n@ == trim(username@),
            Err(e) => trim(username@).len() == 0 && e@ == "Username required for Lichess login"@,
        },
{
    let name = trim_str(username);
    if name.len() == 0 {
        return Err(String::from_str("Username required for Lichess login"));
    }
    Ok(string_of(name.as_slice()))
}

/// The session for the account Lichess signed in, which must be the one asked for (up to
/// ASCII case).
pub fn accept_profile(requested: &str, profile_username: String, access_token: String) -> (r: Result<LichessSession, String>)
    ensures
        match r {
            Ok(s) => eq_ignore_case(profile_username@, requested@) && s.username@ == profile_username@
                && s.access_token@ == access_token@,
            Err(e) => !eq_ignore_case(profile_username@, requested@) && e@ == "Logged in as "@ + profile_username@
                + " but expected "@ + requested@,
        },
{
    if !eq_ignore_ascii_case(profile_username.as_str(), requested) {
        let mut v: Vec<char> = Vec::new();
        append_str(&mut v, "Logged in as ");
        append_str(&mut v, profile_username.as_str());
        append_str(&mut v, " but expected ");
        append_str(&mut v, requested);
        return Err(string_of(v.as_slice()));
    }
    Ok(LichessSession { username: profile_username, access_token })
}

/// The address Lichess sends the browser back to.
pub fn redirect_uri(addr: &str) -> (r: String)
    ensures
        r@ == "http://"@ + addr@ + "/callback"@,
{
    let mut v: Vec<char> = Vec::new();
    append_str(&mut v, "http://");
    append_str(&mut v, addr);
    append_str(&mut v, "/callback");
    string_of(v.as_slice())
}

// ---------------------------------------------------------------- the redirect

/// What the browser's request to the callback address says.
#[derive(Debug)]
pub enum Callback {
    Code(String),
    Denied(String),
    Ignore,
}

pub enum CallbackV {
    Code(Seq<char>),
    Denied(Seq<char>),
    Ignore,
}

pub open spec fn callback_view(c: Callback) -> CallbackV {
    match c {
        Callback::Code(s) => CallbackV::Code(s@),
        Callback::Denied(s) => CallbackV::Denied(s@),
        Callback::Ignore => CallbackV::Ignore,
    }
}

/// What `urlencoding::decode` makes of the text: the percent-decoded UTF-8 text, or
/// `None` where the bytes are no UTF-8.
pub uninterp spec fn spec_url_decode(s: Seq<char>) -> Option<Seq<char>>;

/// `urlencoding::decode`. Without a `%` the text comes back as it is.
#[verifier::external_body]
fn url_decode(s: &str) -> (r: Option<String>)
    ensures
        match r {
            Some(d) => spec_url_decode(s@) == Some(d@),
            None => spec_url_decode(s@) is None,
        },
        !s@.contains('%') ==> r is Some && r->0@ == s@,
{
    urlencoding::decode(s).ok().map(|c| c.into_owned())
}

/// Index of the first `c` in `s` at or after `i`, or -1.
pub open spec fn char_from(s: Seq<char>, c: char, i: int) -> int
    decreases s.len() - i,
{
    if i < 0 || i >= s.len() {
        -1
    } else if s[i] == c {
        i
    } else {
        char_from(s, c, i + 1)
    }
}

/// The pieces of `s` between the separators `c`, as `str::split`.
pub open spec fn split_on(s: Seq<char>, c: char) -> Seq<Seq<char>>
    decreases s.len(),
{
    let i = char_from(s, c, 0);
    if i < 0 || i >= s.len() {
        seq![s]
    } else {
        seq![s.take(i)] + split_on(s.skip(i + 1), c)
    }
}

/// The query of a request target: what lies between its first and second `?`.
pub open spec fn query_of(target: Seq<char>) -> Seq<char> {
    let pieces = split_on(target, '?');
    if pieces.len() >= 2 {
        pieces[1]
    } else {
        seq![]
    }
}

/// A query value, percent-decoded where that gives UTF-8.
pub open spec fn decoded(v: Seq<char>) -> Seq<char> {
    match spec_url_decode(v) {
        Some(d) => d,
        None => v,
    }
}

/// Reading the query pairs `ps[k..]` with the last `code` and `state` seen so far: an
/// `error` pair denies at once; otherwise a code with the expected state is accepted.
pub open spec fn classify_pairs(
    ps: Seq<Seq<char>>,
    k: int,
    code: Option<Seq<char>>,
    state: Option<Seq<char>>,
    expected: Seq<char>,
) -> CallbackV
    decreases ps.len() - k,
{
    if k < 0 || k >= ps.len() {
        match code {
            Some(c) => if state == Some(expected) {
                CallbackV::Code(c)
            } else {
                CallbackV::Ignore
            },
            None => CallbackV::Ignore,
        }
    } else {
        let p = ps[k];
        let e = char_from(p, '=', 0);
        if e < 0 {
            classify_pairs(ps, k + 1, code, state, expected)
        } else {
            let key = p.take(e);
            let value = decoded(p.skip(e + 1));
            if key == "code"@ {
                classify_pairs(ps, k + 1, Some(value), state, expected)
            } else if key == "state"@ {
                classify_pairs(ps, k + 1, code, Some(value), expected)
            } else if key == "error"@ {
                CallbackV::Denied("authorization denied: "@ + value)
            } else {
                classify_pairs(ps, k + 1, code, state, expected)
            }
        }
    }
}

pub open spec fn classify(target: Seq<char>, expected: Seq<char>) -> CallbackV {
    classify_pairs(split_on(query_of(target), '&'), 0, None, None, expected)
}

proof fn lemma_char_from(s: Seq<char>, c: char, i: int)
    requires
        0 <= i <= s.len(),
    ensures
        char_from(s, c, i) == -1 || (i <= char_from(s, c, i) < s.len() && s[char_from(s, c, i)] == c),
        char_from(s, c, i) == -1 ==> forall|k: int| i <= k < s.len() ==> s[k] != c,
    decreases s.len() - i,
{
    if i < s.len() && s[i] != c {
        lemma_char_from(s, c, i + 1);
    }
}

/// The pieces of `s` between the separators `c`.
fn split_chars(s: &[char], c: char) -> (r: Vec<Vec<char>>)
    ensures
        cviews(r@) == split_on(s@, c),
    decreases s@.len(),
{
    let mut i: usize = 0;
    while i < s.len() && s[i] != c
        invariant
            i <= s@.len(),
            char_from(s@, c, 0) == char_from(s@, c, i as int),
        decreases s@.len() - i,
    {
        i += 1;
    }
    proof {
        lemma_char_from(s@, c, 0);
    }
    if i == s.len() {
        let mut r: Vec<Vec<char>> = Vec::new();
        r.push(slice_to_vec(s, 0, s.len()));
        assert(s@.subrange(0, s@.len() as int) =~= s@);
        assert(cviews(r@) =~= seq![s@]);
        r
    } else {
        let head = slice_to_vec(s, 0, i);
        let tail = slice_to_vec(s, i + 1, s.len());
        assert(head@ =~= s@.take(i as int));
        assert(tail@ =~= s@.skip(i + 1));
        let rest = split_chars(tail.as_slice(), c);
        let mut r: Vec<Vec<char>> = Vec::new();
        r.push(head);
        let ghost h = head@;
        let mut k: usize = 0;
        while k < rest.len()
            invariant
                k <= rest@.len(),
                cviews(r@) == seq![h] + cviews(rest@).take(k as int),
            decreases rest@.len() - k,
        {
            let piece = slice_to_vec(rest[k].as_slice(), 0, rest[k].len());
            assert(piece@ =~= rest@[k as int]@);
            let ghost before = cviews(r@);
            r.push(piece);
            assert(cviews(r@) =~= before.push(rest@[k as int]@));
            assert(cviews(rest@).take(k + 1) =~= cviews(rest@).take(k as int).push(rest@[k as int]@));
            k += 1;
            assert(cviews(r@) =~= seq![h] + cviews(rest@).take(k as int));
        }
        assert(cviews(rest@).take(k as int) =~= cviews(rest@));
        r
    }
}

/// What the browser's request target says about the sign-in.
pub fn classify_request(target: &str, expected_state: &str) -> (r: Callback)
    ensures
        callback_view(r) == classify(target@, expected_state@),
{
    let chars = chars_of(target);
    let pieces = split_chars(chars.as_slice(), '?');
    let query: Vec<char> = if pieces.len() >= 2 {
        assert(cviews(pieces@)[1] == pieces@[1]@);
        let q = slice_to_vec(pieces[1].as_slice(), 0, pieces[1].len());
        assert(q@ =~= pieces@[1]@);
        q
    } else {
        Vec::new()
    };
    assert(query@ == query_of(target@));
    let pairs = split_chars(query.as_slice(), '&');
    let ghost ps = cviews(pairs@);
    let mut code: Option<String> = None;
    let mut state: Option<String> = None;
    let mut k: usize = 0;
    while k < pairs.len()
        invariant
            k <= pairs@.len(),
            ps == cviews(pairs@),
            ps == split_on(query_of(target@), '&'),
            classify(target@, expected_state@) == classify_pairs(
                ps,
                k as int,
                match code {
                    Some(c) => Some(c@),
                    None => None,
                },
                match state {
                    Some(s) => Some(s@),
                    None => None,
                },
                expected_state@,
            ),
        decreases pairs@.len() - k,
    {
        let p = pairs[k].as_slice();
        assert(ps[k as int] == p@);
        let mut e: usize = 0;
        while e < p.len() && p[e] != '='
            invariant
                e <= p@.len(),
                char_from(p@, '=', 0) == char_from(p@, '=', e as int),
            decreases p@.len() - e,
        {
            e += 1;
        }
        proof {
            lemma_char_from(p@, '=', 0);
        }
        if e < p.len() {
            let key_chars = slice_to_vec(p, 0, e);
            let raw_chars = slice_to_vec(p, e + 1, p.len());
            assert(key_chars@ =~= p@.take(e as int));
            assert(raw_chars@ =~= p@.skip(e + 1));
            let key = string_of(key_chars.as_slice());
            let raw = string_of(raw_chars.as_slice());
            let value = match url_decode(raw.as_str()) {
                Some(d) => d,
                None => raw,
            };
            if str_eq(key.as_str(), "code") {
                code = Some(value);
            } else if str_eq(key.as_str(), "state") {
                state = Some(value);
            } else if str_eq(key.as_str(), "error") {
                let mut v: Vec<char> = Vec::new();
                append_str(&mut v, "authorization denied: ");
                append_str(&mut v, value.as_str());
                return Callback::Denied(string_of(v.as_slice()));
            }
        }
        k += 1;
    }
    match code {
        Some(c) => {
            let matches = match &state {
                Some(s) => str_eq(s.as_str(), expected_state),
                None => false,
            };
            if matches {
                Callback::Code(c)
            } else {
                Callback::Ignore
            }
        },
        None => Callback::Ignore,
    }
}

/// The request target of an HTTP request: the second word of its first line.
pub open spec fn target_of(request: Seq<char>) -> Seq<char> {
    let ls = lines(request);
    if ls.len() == 0 {
        seq![]
    } else {
        let t = ws_tokens(ls[0]);
        if t.len() >= 2 {
            t[1]
        } else {
            seq![]
        }
    }
}

pub fn request_target(request: &str) -> (r: String)
    ensures
        r@ == target_of(request@),
{
    let chars = chars_of(request);
    let ls = split_lines(chars.as_slice());
    if ls.len() == 0 {
        return String::new();
    }
    assert(cviews(ls@)[0] == ls@[0]@);
    let t = split_ws(ls[0].as_slice());
    if t.len() >= 2 {
        assert(cviews(t@)[1] == t@[1]@);
        string_of(t[1].as_slice())
    } else {
        String::new()
    }
}

/// Bytes of the UTF-8 encoding of `s`.
pub open spec fn utf8_len(s: Seq<char>) -> nat
    decreases s.len(),
{
    if s.len() == 0 {
        0
    } else {
        utf8_len(s.drop_last()) + (if (s.last() as u32) < 0x80 {
            1nat
        } else if (s.last() as u32) < 0x800 {
            2nat
        } else if (s.last() as u32) < 0x10000 {
            3nat
        } else {
            4nat
        })
    }
}

/// The plain-text page the callback server answers with.
pub open spec fn http_page(body: Seq<char>) -> Seq<char> {
    "HTTP/1.1 200 OK\r\nContent-Type: text/plain; charset=utf-8\r\nContent-Length: "@ + dec(utf8_len(body))
        + "\r\nConnection: close\r\n\r\n"@ + body
}

/// A prefix of a text takes no more bytes than the text.
proof fn lemma_utf8_len_prefix(s: Seq<char>, i: int)
    requires
        0 <= i <= s.len(),
    ensures
        utf8_len(s.take(i)) <= utf8_len(s),
    decreases s.len() - i,
{
    if i < s.len() {
        lemma_utf8_len_prefix(s, i + 1);
        assert(s.take(i + 1).drop_last() =~= s.take(i));
    } else {
        assert(s.take(i) =~= s);
    }
}

/// The page sent back to the browser; the body's UTF-8 length is at most `usize::MAX`, as
/// that of every `str`.
pub fn http_response(body: &str) -> (r: String)
    requires
        utf8_len(body@) <= usize::MAX,
    ensures
        r@ == http_page(body@),
{
    let chars = chars_of(body);
    let mut n: u64 = 0;
    let mut i: usize = 0;
    while i < chars.len()
        invariant
            i <= chars@.len(),
            chars@ == body@,
            utf8_len(body@) <= usize::MAX,
            n == utf8_len(chars@.take(i as int)),
        decreases chars@.len() - i,
    {
        let c = chars[i] as u32;
        assert(chars@.take(i + 1).drop_last() =~= chars@.take(i as int));
        proof {
            lemma_utf8_len_prefix(chars@, i + 1);
        }
        n = n + if c < 0x80 {
            1
        } else if c < 0x800 {
            2
        } else if c < 0x10000 {
            3
        } else {
            4
        };
        i += 1;
    }
    assert(chars@.take(i as int) =~= chars@);
    let mut v: Vec<char> = Vec::new();
    append_str(&mut v, "HTTP/1.1 200 OK\r\nContent-Type: text/plain; charset=utf-8\r\nContent-Length: ");
    let digits = decimal(n);
    crate::text::append_chars(&mut v, digits.as_slice());
    append_str(&mut v, "\r\nConnection: close\r\n\r\n");
    append_str(&mut v, body);
    string_of(v.as_slice())
}

} // verus!
