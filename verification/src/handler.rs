//! The request dispatcher: resolves the tenant by hostname (port stripped),
//! loads its current snapshot, matches the path and verb, and assembles the
//! native request record handed to the script handler.

use vstd::prelude::*;
use crate::error::{AppError, AppErrorView};
use crate::engine::{clone_pairs, opt_view, Req};
use crate::method::{canonical_of, HttpMethod};
use crate::pattern::{pair_views, params_of, split_segs};
use crate::router::{found, handler_for, is_best, spec_table_wf, table_view, AppRouter};
use crate::{lookup_spec, AppState};

verus! {

/// The position of the first colon, or the length when there is none.
pub open spec fn first_colon(h: Seq<char>) -> int
    decreases h.len(),
{
    if h.len() == 0 {
        0
    } else if h[0] == ':' {
        0
    } else {
        1 + first_colon(h.skip(1))
    }
}

/// A hostname with any `:port` suffix removed.
pub open spec fn strip_port_spec(h: Seq<char>) -> Seq<char> {
    h.take(first_colon(h))
}

proof fn lemma_first_colon_at(h: Seq<char>, i: int)
    requires
        0 <= i <= h.len(),
        forall|j: int| 0 <= j < i ==> h[j] != ':',
        i < h.len() ==> h[i] == ':',
    ensures
        first_colon(h) == i,
    decreases i,
{
    if h.len() == 0 {
    } else if i == 0 {
    } else {
        assert(h[0] != ':');
        assert forall|j: int| 0 <= j < i - 1 implies h.skip(1)[j] != ':' by {
            assert(h.skip(1)[j] == h[j + 1]);
        }
        if i - 1 < h.skip(1).len() {
            assert(h.skip(1)[i - 1] == h[i]);
        }
        lemma_first_colon_at(h.skip(1), i - 1);
    }
}

/// Strips a trailing `:port` from a hostname.
pub fn strip_port(host: &str) -> (r: String)
    ensures
        r@ == strip_port_spec(host@),
{
    let len = host.unicode_len();
    let mut i: usize = 0;
    while i < len
        invariant
            0 <= i <= len,
            len == host@.len(),
            forall|j: int| 0 <= j < i ==> host@[j] != ':',
        decreases len - i,
    {
        if host.get_char(i) == ':' {
            proof {
                lemma_first_colon_at(host@, i as int);
            }
            return host.substring_char(0, i).to_owned();
        }
        i += 1;
    }
    proof {
        lemma_first_colon_at(host@, len as int);
        assert(host@.take(len as int) =~= host@);
    }
    host.to_owned()
}

/// Resolves the tenant a request addresses: strips any port from the
/// hostname, then looks it up exactly; a miss is `HostNotFound` with the
/// stripped hostname. On a hit, loads the tenant's current snapshot, which
/// is always one whole, well-formed pair.
pub fn get_router_by_host(host: &str, state: &AppState) -> (r: Result<AppRouter, AppError>)
    ensures
        r is Ok <==> lookup_spec(state.routes@, strip_port_spec(host@)) is Some,
        r matches Ok(a) ==> a.wf(),
        r matches Err(e) ==> e@ == AppErrorView::HostNotFound(strip_port_spec(host@)),
{
    let stripped = strip_port(host);
    match state.resolve(&stripped.as_str()) {
        Some(h) => Ok(h.load()),
        None => Err(AppError::HostNotFound(stripped)),
    }
}

/// What bytes decode to as UTF-8 text, when they are valid.
pub uninterp spec fn utf8_decode(bytes: Seq<u8>) -> Option<Seq<char>>;

/// Relies on String::from_utf8: returns the decoded text exactly when the
/// bytes are valid UTF-8, and nothing otherwise.
#[verifier::external_body]
fn bytes_to_text(bytes: Vec<u8>) -> (r: Option<String>)
    ensures
        r is Some <==> utf8_decode(bytes@) is Some,
        r matches Some(t) ==> utf8_decode(bytes@) == Some(t@),
{
    String::from_utf8(bytes).ok()
}

/// Assembles the native request record for a matched route: transport data
/// field by field, the captured path parameters from the match, and the body
/// as text when it is valid UTF-8.
pub fn assemble_req(
    matched: &crate::router::RouteMatch,
    method: HttpMethod,
    url: &str,
    headers: &Vec<(String, String)>,
    body: Vec<u8>,
    query: Vec<(String, String)>,
) -> (r: Req)
    ensures
        r.method@ == canonical_of(method),
        r.url@ == url@,
        r.headers@ == headers@,
        r.params@ == matched.params@,
        r.query == query,
        opt_view(r.body) == utf8_decode(body@),
{
    Req {
        method: method.as_token().to_owned(),
        url: url.to_owned(),
        headers: clone_pairs(headers),
        params: clone_pairs(&matched.params),
        query,
        body: bytes_to_text(body),
    }
}

/// Everything needed to run one request's handler: the snapshot's script
/// source, the handler name the route resolved to, and the marshaled-ready
/// request record.
#[derive(Debug)]
pub struct Invocation {
    pub code: String,
    pub handler: String,
    pub req: Req,
}

/// What one dispatch returns, judged against the snapshot it loaded: an
/// unmatched path is `RoutePathNotFound`, and for the best-matching pattern
/// the result is that pattern's handler invocation for the verb, or
/// `RouteMethodNotAllowed` when the verb has no handler there.
pub open spec fn dispatched_from(
    snap: crate::router::AppRouterInner,
    r: Result<Invocation, AppError>,
    method: HttpMethod,
    path: Seq<char>,
    url: Seq<char>,
    headers: Seq<(String, String)>,
    query: Seq<(String, String)>,
    body: Seq<u8>,
) -> bool {
    let tv = table_view(snap.routes@);
    let ts = split_segs(path);
    &&& (!found(tv, ts) ==> (r matches Err(e) && e@ == AppErrorView::RoutePathNotFound(path)))
    &&& (found(tv, ts) ==> exists|i: int| is_best(tv, ts, i))
    &&& (forall|i: int|
        is_best(tv, ts, i) ==> best_outcome(r, snap, method, ts, url, headers, query, body, i))
}

/// What the dispatcher returns when table entry `i` is the best match for
/// the request: the invocation of the entry's handler for the verb, or
/// `RouteMethodNotAllowed` when the verb has no handler there.
pub open spec fn best_outcome(
    r: Result<Invocation, AppError>,
    snap: crate::router::AppRouterInner,
    method: HttpMethod,
    ts: Seq<Seq<char>>,
    url: Seq<char>,
    headers: Seq<(String, String)>,
    query: Seq<(String, String)>,
    body: Seq<u8>,
    i: int,
) -> bool {
    let tv = table_view(snap.routes@);
    match handler_for(tv[i].1, method) {
        Some(hn) => r matches Ok(inv) && inv.code == snap.code && inv.handler == hn
            && inv.req.method@ == canonical_of(method) && inv.req.url@ == url && inv.req.headers@
            == headers && pair_views(inv.req.params@) == params_of(tv[i].0, ts) && inv.req.query@
            == query && opt_view(inv.req.body) == utf8_decode(body),
        None => r matches Err(e) && e@ == AppErrorView::RouteMethodNotAllowed(method),
    }
}

/// The computational core of the request dispatcher: tenant resolution,
/// route matching and request assembly, up to the point where the scripting
/// engine takes over. An unknown host is exactly `HostNotFound`; otherwise
/// the result is what dispatching against the loaded snapshot — one whole,
/// well-formed pair, whichever version the shared holder served — yields:
/// an unmatched path, a verb without a handler, or the handler invocation.
pub fn prepare_invocation(
    state: &AppState,
    host: &str,
    method: HttpMethod,
    path: &str,
    url: &str,
    headers: &Vec<(String, String)>,
    query: Vec<(String, String)>,
    body: Vec<u8>,
) -> (r: Result<Invocation, AppError>)
    ensures
        lookup_spec(state.routes@, strip_port_spec(host@)) is None <==> (r matches Err(e) && e@
            == AppErrorView::HostNotFound(strip_port_spec(host@))),
        lookup_spec(state.routes@, strip_port_spec(host@)) is Some ==> exists|
            snap: crate::router::AppRouterInner,
        |
            spec_table_wf(table_view(snap.routes@)) && #[trigger] dispatched_from(
                snap,
                r,
                method,
                path@,
                url@,
                headers@,
                query@,
                body@,
            ),
{
    let router = match get_router_by_host(host, state) {
        Err(e) => {
            return Err(e);
        },
        Ok(a) => a,
    };
    let matched = match router.match_it(method, path) {
        Err(e) => {
            proof {
                assert(dispatched_from(
                    router.snapshot(),
                    Err::<Invocation, AppError>(e),
                    method,
                    path@,
                    url@,
                    headers@,
                    query@,
                    body@,
                ));
            }
            return Err(e);
        },
        Ok(m) => m,
    };
    let code = router.code().clone();
    let handler = matched.value.clone();
    let req = assemble_req(&matched, method, url, headers, body, query);
    let r = Ok(Invocation { code, handler, req });
    proof {
        assert(dispatched_from(
            router.snapshot(),
            r,
            method,
            path@,
            url@,
            headers@,
            query@,
            body@,
        ));
    }
    r
}

} // verus!
