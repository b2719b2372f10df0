//! The set of supported HTTP verbs and case-insensitive parsing of verb
//! tokens from a routing descriptor.

use vstd::prelude::*;

verus! {

/// One of the nine supported HTTP verbs.
#[derive(Clone, Copy, Debug, PartialEq, Eq, Structural, Hash)]
pub enum HttpMethod {
    Get,
    Post,
    Put,
    Delete,
    Patch,
    Head,
    Options,
    Connect,
    Trace,
}

/// ASCII upper-casing of a single character, as a character code.
pub open spec fn upper_code(c: char) -> int {
    if 'a' <= c && c <= 'z' {
        c as int - 32
    } else {
        c as int
    }
}

/// True when `s` equals `lit` after ASCII upper-casing of `s`.
pub open spec fn token_is(s: Seq<char>, lit: Seq<char>) -> bool {
    s.len() == lit.len() && forall|i: int| 0 <= i < s.len() ==> upper_code(s[i]) == lit[i] as int
}

/// Which verb a descriptor token denotes, if any; the token is matched
/// case-insensitively against the nine supported verbs.
pub open spec fn parse_method_spec(s: Seq<char>) -> Option<HttpMethod> {
    if token_is(s, "GET"@) {
        Some(HttpMethod::Get)
    } else if token_is(s, "POST"@) {
        Some(HttpMethod::Post)
    } else if token_is(s, "PUT"@) {
        Some(HttpMethod::Put)
    } else if token_is(s, "DELETE"@) {
        Some(HttpMethod::Delete)
    } else if token_is(s, "PATCH"@) {
        Some(HttpMethod::Patch)
    } else if token_is(s, "HEAD"@) {
        Some(HttpMethod::Head)
    } else if token_is(s, "OPTIONS"@) {
        Some(HttpMethod::Options)
    } else if token_is(s, "CONNECT"@) {
        Some(HttpMethod::Connect)
    } else if token_is(s, "TRACE"@) {
        Some(HttpMethod::Trace)
    } else {
        None
    }
}

/// Compares a token against one verb literal, ignoring ASCII case in the token.
fn token_matches(s: &str, lit: &str) -> (r: bool)
    ensures
        r == token_is(s@, lit@),
{
    let s_len = s.unicode_len();
    let lit_len = lit.unicode_len();
    if s_len != lit_len {
        return false;
    }
    let mut i: usize = 0;
    while i < s_len
        invariant
            0 <= i <= s_len,
            s_len == s@.len(),
            s_len == lit@.len(),
            forall|j: int| 0 <= j < i ==> upper_code(s@[j]) == lit@[j] as int,
        decreases s_len - i,
    {
        let c = s.get_char(i);
        let l = lit.get_char(i);
        let code = c as u32;
        let up: u32 = if 97 <= code && code <= 122 {
            code - 32
        } else {
            code
        };
        if up != l as u32 {
            return false;
        }
        i += 1;
    }
    true
}

/// Parses a verb token case-insensitively; an unrecognized token yields `None`.
pub fn parse_method(token: &str) -> (r: Option<HttpMethod>)
    ensures
        r == parse_method_spec(token@),
{
    if token_matches(token, "GET") {
        Some(HttpMethod::Get)
    } else if token_matches(token, "POST") {
        Some(HttpMethod::Post)
    } else if token_matches(token, "PUT") {
        Some(HttpMethod::Put)
    } else if token_matches(token, "DELETE") {
        Some(HttpMethod::Delete)
    } else if token_matches(token, "PATCH") {
        Some(HttpMethod::Patch)
    } else if token_matches(token, "HEAD") {
        Some(HttpMethod::Head)
    } else if token_matches(token, "OPTIONS") {
        Some(HttpMethod::Options)
    } else if token_matches(token, "CONNECT") {
        Some(HttpMethod::Connect)
    } else if token_matches(token, "TRACE") {
        Some(HttpMethod::Trace)
    } else {
        None
    }
}

/// The canonical (upper-case) token of each supported verb.
pub open spec fn canonical_of(m: HttpMethod) -> Seq<char> {
    match m {
        HttpMethod::Get => "GET"@,
        HttpMethod::Post => "POST"@,
        HttpMethod::Put => "PUT"@,
        HttpMethod::Delete => "DELETE"@,
        HttpMethod::Patch => "PATCH"@,
        HttpMethod::Head => "HEAD"@,
        HttpMethod::Options => "OPTIONS"@,
        HttpMethod::Connect => "CONNECT"@,
        HttpMethod::Trace => "TRACE"@,
    }
}

impl HttpMethod {
    /// The canonical token of this verb.
    pub fn as_token(&self) -> (r: &'static str)
        ensures
            r@ == canonical_of(*self),
    {
        match self {
            HttpMethod::Get => "GET",
            HttpMethod::Post => "POST",
            HttpMethod::Put => "PUT",
            HttpMethod::Delete => "DELETE",
            HttpMethod::Patch => "PATCH",
            HttpMethod::Head => "HEAD",
            HttpMethod::Options => "OPTIONS",
            HttpMethod::Connect => "CONNECT",
            HttpMethod::Trace => "TRACE",
        }
    }
}

} // verus!
