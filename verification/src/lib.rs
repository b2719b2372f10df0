//! Multi-tenant HTTP routing core: a verified route table with per-method
//! handler resolution, an atomically swappable snapshot holder, a
//! hostname-keyed tenant registry, a request/response marshaling model for an
//! embedded scripting engine, and a content-addressed build cache.

pub mod engine;
pub mod error;
pub mod handler;
pub mod method;
pub mod pattern;
pub mod router;
pub mod utils;

use vstd::prelude::*;
use crate::router::SwappableAppRouter;

verus! {

/// One registered tenant: its hostname and the holder of its current
/// snapshot.
pub struct TenentRouter {
    pub host: String,
    pub router: SwappableAppRouter,
}

impl TenentRouter {
    /// Registers a holder under a hostname.
    pub fn new(host: &str, router: SwappableAppRouter) -> (r: Self)
        ensures
            r.host@ == host@,
            r.router == router,
    {
        TenentRouter { host: host.to_owned(), router }
    }
}

/// The tenant registry: hostname-keyed snapshot holders. Entries are created
/// at startup; lookups are read-only and need no coordination.
pub struct AppState {
    pub routes: Vec<TenentRouter>,
}

/// The holder registered under `key`, if any; the first entry with that
/// hostname wins.
pub open spec fn lookup_spec(rs: Seq<TenentRouter>, key: Seq<char>) -> Option<SwappableAppRouter>
    decreases rs.len(),
{
    if rs.len() == 0 {
        None
    } else if rs[0].host@ == key {
        Some(rs[0].router)
    } else {
        lookup_spec(rs.skip(1), key)
    }
}

impl AppState {
    /// Populates the registry from the tenants configured at startup.
    pub fn new(routers: Vec<TenentRouter>) -> (r: Self)
        ensures
            r.routes == routers,
    {
        AppState { routes: routers }
    }

    /// Looks a hostname up by exact match. Any two lookups of the same
    /// hostname against the same registry return the same holder.
    pub fn resolve(&self, host: &str) -> (r: Option<&SwappableAppRouter>)
        ensures
            match r {
                Some(h) => lookup_spec(self.routes@, host@) == Some(*h),
                None => lookup_spec(self.routes@, host@) is None,
            },
    {
        let ghost rs = self.routes@;
        let host_s = host.to_owned();
        let mut i: usize = 0;
        proof {
            assert(rs.skip(0) =~= rs);
        }
        while i < self.routes.len()
            invariant
                0 <= i <= self.routes.len(),
                rs == self.routes@,
                host_s@ == host@,
                lookup_spec(rs, host@) == lookup_spec(rs.skip(i as int), host@),
            decreases self.routes.len() - i,
        {
            proof {
                assert(rs.skip(i as int)[0] == rs[i as int]);
                assert(rs.skip(i as int).skip(1) =~= rs.skip(i + 1));
            }
            if self.routes[i].host == host_s {
                return Some(&self.routes[i].router);
            }
            i += 1;
        }
        proof {
            assert(rs.skip(i as int) =~= Seq::<TenentRouter>::empty());
        }
        None
    }
}

/// Against an unmodified registry, any two resolutions of one hostname hand
/// back the same snapshot holder.
pub proof fn lemma_resolve_agrees(
    rs: Seq<TenentRouter>,
    key: Seq<char>,
    h1: SwappableAppRouter,
    h2: SwappableAppRouter,
)
    requires
        lookup_spec(rs, key) == Some(h1),
        lookup_spec(rs, key) == Some(h2),
    ensures
        h1 == h2,
{
}

} // verus!
