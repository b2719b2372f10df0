//! The route table: building it from a routing descriptor (validating verbs,
//! patterns and duplicates) and matching request paths against it with
//! radix-style precedence.

use vstd::prelude::*;
use crate::error::{AppError, AppErrorView};
use crate::method::{parse_method, parse_method_spec, HttpMethod};
use crate::pattern::{
    equivalent, is_match, kind_of, kinds, lex_lt, lemma_lex_irrefl, lemma_lex_trans,
    lemma_match_total, params_of, pair_views, pattern_ok, pattern_view_of, split_segs, split_path,
    views_of, wf_pattern, Pattern, SegView, Segment,
};

verus! {

/// One handler-name slot per supported verb.
#[derive(Debug, Clone)]
pub struct MethodRoute {
    pub get: Option<String>,
    pub post: Option<String>,
    pub put: Option<String>,
    pub delete: Option<String>,
    pub patch: Option<String>,
    pub head: Option<String>,
    pub options: Option<String>,
    pub connect: Option<String>,
    pub trace: Option<String>,
}

/// The handler registered for a verb, if any.
pub open spec fn handler_for(mr: MethodRoute, m: HttpMethod) -> Option<String> {
    match m {
        HttpMethod::Get => mr.get,
        HttpMethod::Post => mr.post,
        HttpMethod::Put => mr.put,
        HttpMethod::Delete => mr.delete,
        HttpMethod::Patch => mr.patch,
        HttpMethod::Head => mr.head,
        HttpMethod::Options => mr.options,
        HttpMethod::Connect => mr.connect,
        HttpMethod::Trace => mr.trace,
    }
}

/// A table with no handler registered for any verb.
pub open spec fn mr_empty() -> MethodRoute {
    MethodRoute {
        get: None,
        post: None,
        put: None,
        delete: None,
        patch: None,
        head: None,
        options: None,
        connect: None,
        trace: None,
    }
}

/// `mr` with the slot for `m` set to `h`.
pub open spec fn mr_set(mr: MethodRoute, m: HttpMethod, h: String) -> MethodRoute {
    match m {
        HttpMethod::Get => MethodRoute { get: Some(h), ..mr },
        HttpMethod::Post => MethodRoute { post: Some(h), ..mr },
        HttpMethod::Put => MethodRoute { put: Some(h), ..mr },
        HttpMethod::Delete => MethodRoute { delete: Some(h), ..mr },
        HttpMethod::Patch => MethodRoute { patch: Some(h), ..mr },
        HttpMethod::Head => MethodRoute { head: Some(h), ..mr },
        HttpMethod::Options => MethodRoute { options: Some(h), ..mr },
        HttpMethod::Connect => MethodRoute { connect: Some(h), ..mr },
        HttpMethod::Trace => MethodRoute { trace: Some(h), ..mr },
    }
}

impl Default for MethodRoute {
    /// A table with every slot empty.
    fn default() -> (r: Self)
        ensures
            r == mr_empty(),
    {
        MethodRoute {
            get: None,
            post: None,
            put: None,
            delete: None,
            patch: None,
            head: None,
            options: None,
            connect: None,
            trace: None,
        }
    }
}

impl MethodRoute {
    /// Registers `h` as the handler for verb `m`; a handler registered
    /// earlier for the same verb is replaced.
    pub fn set_handler(&mut self, m: HttpMethod, h: String)
        ensures
            *final(self) == mr_set(*old(self), m, h),
    {
        match m {
            HttpMethod::Get => self.get = Some(h),
            HttpMethod::Post => self.post = Some(h),
            HttpMethod::Put => self.put = Some(h),
            HttpMethod::Delete => self.delete = Some(h),
            HttpMethod::Patch => self.patch = Some(h),
            HttpMethod::Head => self.head = Some(h),
            HttpMethod::Options => self.options = Some(h),
            HttpMethod::Connect => self.connect = Some(h),
            HttpMethod::Trace => self.trace = Some(h),
        }
    }

    /// The handler slot for verb `m`.
    pub fn handler(&self, m: HttpMethod) -> (r: &Option<String>)
        ensures
            *r == handler_for(*self, m),
    {
        match m {
            HttpMethod::Get => &self.get,
            HttpMethod::Post => &self.post,
            HttpMethod::Put => &self.put,
            HttpMethod::Delete => &self.delete,
            HttpMethod::Patch => &self.patch,
            HttpMethod::Head => &self.head,
            HttpMethod::Options => &self.options,
            HttpMethod::Connect => &self.connect,
            HttpMethod::Trace => &self.trace,
        }
    }
}

/// One entry of a routing descriptor: a verb token and a handler name.
#[derive(Debug, Clone)]
pub struct ProjectRoute {
    pub method: String,
    pub handler: String,
}

/// A routing descriptor: an ordered mapping from path pattern to its entries.
pub type ProjectRoutes = Vec<(String, Vec<ProjectRoute>)>;

/// A project's routing configuration: its name and its descriptor. Parsing
/// the configuration file into this shape is the transport side's concern;
/// the route-table builder validates the descriptor itself.
#[derive(Debug, Clone)]
pub struct ProjectConfig {
    pub name: String,
    pub routes: ProjectRoutes,
}

/// Folding a pattern's descriptor entries into a method table; the first
/// unsupported verb token aborts with that token.
pub open spec fn methods_spec(es: Seq<ProjectRoute>) -> Result<MethodRoute, Seq<char>>
    decreases es.len(),
{
    if es.len() == 0 {
        Ok(mr_empty())
    } else {
        match methods_spec(es.drop_last()) {
            Err(tok) => Err(tok),
            Ok(mr) => match parse_method_spec(es.last().method@) {
                None => Err(es.last().method@),
                Some(m) => Ok(mr_set(mr, m, es.last().handler)),
            },
        }
    }
}

/// The view of a built route table: each pattern with its method table.
pub open spec fn table_view(t: Seq<(Pattern, MethodRoute)>) -> Seq<(Seq<SegView>, MethodRoute)> {
    t.map_values(|pr: (Pattern, MethodRoute)| (pr.0@, pr.1))
}

/// A well-formed table: every pattern well-formed, and no two patterns
/// capturing exactly the same paths.
pub open spec fn spec_table_wf(tv: Seq<(Seq<SegView>, MethodRoute)>) -> bool {
    (forall|i: int| 0 <= i < tv.len() ==> wf_pattern(#[trigger] tv[i].0)) && (forall|i: int, j: int|
        0 <= i < tv.len() && 0 <= j < tv.len() && i != j ==> !equivalent(
            #[trigger] tv[i].0,
            #[trigger] tv[j].0,
        ))
}

/// Building a route table from a descriptor, entry by entry: per pattern the
/// verb tokens are folded first, then the pattern itself is parsed, then a
/// duplicate of an earlier pattern is rejected. The first failure aborts the
/// whole build.
pub open spec fn build_spec(d: Seq<(String, Vec<ProjectRoute>)>) -> Result<
    Seq<(Seq<SegView>, MethodRoute)>,
    AppErrorView,
>
    decreases d.len(),
{
    if d.len() == 0 {
        Ok(Seq::empty())
    } else {
        match build_spec(d.drop_last()) {
            Err(e) => Err(e),
            Ok(t) => {
                let pat_str = d.last().0;
                let entries = d.last().1;
                match methods_spec(entries@) {
                    Err(tok) => Err(AppErrorView::UnsupportedMethod(tok)),
                    Ok(mr) => if !pattern_ok(pat_str@) {
                        Err(AppErrorView::InvalidPattern(pat_str@))
                    } else if exists|i: int|
                        0 <= i < t.len() && equivalent(
                            #[trigger] t[i].0,
                            pattern_view_of(pat_str@),
                        ) {
                        Err(AppErrorView::DuplicateRoute(pat_str@))
                    } else {
                        Ok(t.push((pattern_view_of(pat_str@), mr)))
                    },
                }
            },
        }
    }
}

/// Once a descriptor prefix fails to build, the whole descriptor fails the
/// same way.
proof fn lemma_build_prefix_err(d: Seq<(String, Vec<ProjectRoute>)>, k: int)
    requires
        0 <= k <= d.len(),
        build_spec(d.take(k)) is Err,
    ensures
        build_spec(d) == build_spec(d.take(k)),
    decreases d.len() - k,
{
    if k < d.len() {
        assert(d.take(k + 1).drop_last() =~= d.take(k));
        assert(build_spec(d.take(k + 1)) == build_spec(d.take(k)));
        lemma_build_prefix_err(d, k + 1);
    } else {
        assert(d.take(k) =~= d);
    }
}

/// Once an entry prefix fails to fold, the whole entry list fails the same
/// way.
proof fn lemma_methods_prefix_err(es: Seq<ProjectRoute>, k: int)
    requires
        0 <= k <= es.len(),
        methods_spec(es.take(k)) is Err,
    ensures
        methods_spec(es) == methods_spec(es.take(k)),
    decreases es.len() - k,
{
    if k < es.len() {
        assert(es.take(k + 1).drop_last() =~= es.take(k));
        assert(methods_spec(es.take(k + 1)) == methods_spec(es.take(k)));
        lemma_methods_prefix_err(es, k + 1);
    } else {
        assert(es.take(k) =~= es);
    }
}

/// Capturing exactly the same paths is a symmetric relation.
pub proof fn lemma_equivalent_sym(a: Seq<SegView>, b: Seq<SegView>)
    requires
        equivalent(a, b),
    ensures
        equivalent(b, a),
{
    assert forall|i: int| 0 <= i < b.len() implies kind_of(b[i]) == kind_of(a[i]) && (b[i] is Lit
        ==> b[i]->Lit_0 == a[i]->Lit_0) by {
        assert(kind_of(a[i]) == kind_of(b[i]));
        if b[i] is Lit {
            assert(kind_of(b[i]) == 0);
            assert(a[i] is Lit);
        }
    }
}

/// Whether two parsed patterns capture exactly the same paths.
fn patterns_equivalent(a: &Pattern, b: &Pattern) -> (r: bool)
    ensures
        r == equivalent(a@, b@),
{
    if a.segs.len() != b.segs.len() {
        return false;
    }
    let n = a.segs.len();
    let mut i: usize = 0;
    while i < n
        invariant
            0 <= i <= n,
            n == a.segs.len(),
            n == b.segs.len(),
            a@.len() == n,
            b@.len() == n,
            forall|j: int|
                0 <= j < i ==> kind_of(#[trigger] a@[j]) == kind_of(b@[j]) && (a@[j] is Lit
                    ==> a@[j]->Lit_0 == b@[j]->Lit_0),
        decreases n - i,
    {
        proof {
            assert(a@[i as int] == a.segs@[i as int]@);
            assert(b@[i as int] == b.segs@[i as int]@);
        }
        match (&a.segs[i], &b.segs[i]) {
            (Segment::Literal(x), Segment::Literal(y)) => {
                if !(*x == *y) {
                    return false;
                }
            },
            (Segment::Param(_), Segment::Param(_)) => {},
            (Segment::Wildcard(_), Segment::Wildcard(_)) => {},
            _ => {
                return false;
            },
        }
        i += 1;
    }
    true
}

/// Builds the route table a descriptor describes: validates every verb token
/// against the supported set, parses every pattern, and rejects a pattern
/// that captures exactly the same paths as an earlier one.
pub fn get_router(routes: &ProjectRoutes) -> (r: Result<Vec<(Pattern, MethodRoute)>, AppError>)
    ensures
        r matches Ok(t) ==> build_spec(routes@) matches Ok(tv) && table_view(t@) == tv
            && spec_table_wf(table_view(t@)),
        r matches Err(e) ==> build_spec(routes@) matches Err(ev) && e@ == ev,
{
    let mut table: Vec<(Pattern, MethodRoute)> = Vec::new();
    let mut i: usize = 0;
    proof {
        assert(routes@.take(0) =~= Seq::<(String, Vec<ProjectRoute>)>::empty());
        assert(table_view(table@) =~= Seq::<(Seq<SegView>, MethodRoute)>::empty());
    }
    while i < routes.len()
        invariant
            0 <= i <= routes.len(),
            build_spec(routes@.take(i as int)) == Ok::<_, AppErrorView>(table_view(table@)),
            spec_table_wf(table_view(table@)),
            table_view(table@).len() == table.len(),
        decreases routes.len() - i,
    {
        let ghost pre = table_view(table@);
        proof {
            assert(routes@.take(i + 1).drop_last() =~= routes@.take(i as int));
            assert(routes@.take(i + 1).last() == routes@[i as int]);
        }
        let entry = &routes[i];
        let mut mr = MethodRoute::default();
        let mut j: usize = 0;
        proof {
            assert(entry.1@.take(0) =~= Seq::<ProjectRoute>::empty());
        }
        while j < entry.1.len()
            invariant
                0 <= j <= entry.1.len(),
                0 <= i < routes@.len(),
                entry == &routes@[i as int],
                build_spec(routes@.take(i as int)) == Ok::<_, AppErrorView>(table_view(table@)),
                methods_spec(entry.1@.take(j as int)) == Ok::<_, Seq<char>>(mr),
            decreases entry.1.len() - j,
        {
            proof {
                assert(entry.1@.take(j + 1).drop_last() =~= entry.1@.take(j as int));
                assert(entry.1@.take(j + 1).last() == entry.1@[j as int]);
            }
            let pr = &entry.1[j];
            match parse_method(pr.method.as_str()) {
                None => {
                    proof {
                        assert(methods_spec(entry.1@.take(j + 1)) == Err::<MethodRoute, _>(
                            pr.method@,
                        ));
                        lemma_methods_prefix_err(entry.1@, j + 1);
                        assert(routes@.take(i + 1).drop_last() =~= routes@.take(i as int));
                        assert(routes@.take(i + 1).last() == routes@[i as int]);
                        assert(build_spec(routes@.take(i + 1)) == Err::<
                            Seq<(Seq<SegView>, MethodRoute)>,
                            _,
                        >(AppErrorView::UnsupportedMethod(pr.method@)));
                        lemma_build_prefix_err(routes@, i + 1);
                    }
                    return Err(AppError::UnsupportedMethod(pr.method.clone()));
                },
                Some(m) => {
                    mr.set_handler(m, pr.handler.clone());
                },
            }
            j += 1;
        }
        proof {
            assert(entry.1@.take(entry.1@.len() as int) =~= entry.1@);
        }
        let pat = match Pattern::parse(entry.0.as_str()) {
            Err(e) => {
                proof {
                    assert(routes@.take(i + 1).drop_last() =~= routes@.take(i as int));
                    assert(routes@.take(i + 1).last() == routes@[i as int]);
                    assert(build_spec(routes@.take(i + 1)) == Err::<
                        Seq<(Seq<SegView>, MethodRoute)>,
                        _,
                    >(AppErrorView::InvalidPattern(entry.0@)));
                    lemma_build_prefix_err(routes@, i + 1);
                }
                return Err(e);
            },
            Ok(p) => p,
        };
        let mut k: usize = 0;
        while k < table.len()
            invariant
                0 <= k <= table.len(),
                0 <= i < routes@.len(),
                entry == &routes@[i as int],
                build_spec(routes@.take(i as int)) == Ok::<_, AppErrorView>(table_view(table@)),
                methods_spec(entry.1@) == Ok::<_, Seq<char>>(mr),
                pattern_ok(entry.0@),
                table_view(table@).len() == table.len(),
                pat@ == pattern_view_of(routes@[i as int].0@),
                forall|l: int|
                    0 <= l < k ==> !equivalent(#[trigger] table_view(table@)[l].0, pat@),
            decreases table.len() - k,
        {
            proof {
                assert(table_view(table@)[k as int].0 == table@[k as int].0@);
            }
            if patterns_equivalent(&table[k].0, &pat) {
                proof {
                    assert(routes@.take(i + 1).drop_last() =~= routes@.take(i as int));
                    assert(routes@.take(i + 1).last() == routes@[i as int]);
                    assert(build_spec(routes@.take(i + 1)) == Err::<
                        Seq<(Seq<SegView>, MethodRoute)>,
                        _,
                    >(AppErrorView::DuplicateRoute(entry.0@)));
                    lemma_build_prefix_err(routes@, i + 1);
                }
                return Err(AppError::DuplicateRoute(entry.0.clone()));
            }
            k += 1;
        }
        proof {
            let pv = pat@;
            assert forall|l: int| 0 <= l < pre.len() implies !equivalent(
                pv,
                #[trigger] pre[l].0,
            ) by {
                if equivalent(pv, pre[l].0) {
                    lemma_equivalent_sym(pv, pre[l].0);
                }
            }
        }
        let ghost h_mr = mr;
        let ghost h_pat = pat;
        table.push((pat, mr));
        proof {
            assert(table_view(table@) =~= pre.push((h_pat@, h_mr)));
            assert(build_spec(routes@.take(i + 1)) == Ok::<_, AppErrorView>(table_view(table@)));
            assert forall|a: int, b: int|
                0 <= a < table_view(table@).len() && 0 <= b < table_view(table@).len() && a
                    != b implies !equivalent(
                #[trigger] table_view(table@)[a].0,
                #[trigger] table_view(table@)[b].0,
            ) by {
                let tv = table_view(table@);
                if a < pre.len() && b < pre.len() {
                    assert(!equivalent(pre[a].0, pre[b].0));
                } else if a < pre.len() {
                    assert(tv[b].0 == h_pat@);
                    assert(!equivalent(h_pat@, pre[a].0));
                    if equivalent(pre[a].0, h_pat@) {
                        lemma_equivalent_sym(pre[a].0, h_pat@);
                    }
                } else {
                    assert(tv[a].0 == h_pat@);
                    assert(!equivalent(h_pat@, pre[b].0));
                }
            }
        }
        i += 1;
    }
    proof {
        assert(routes@.take(routes@.len() as int) =~= routes@);
    }
    Ok(table)
}

/// One immutable tenant snapshot: the bundled script source and the route
/// table that refers into it.
#[derive(Debug, Clone)]
pub struct AppRouterInner {
    pub code: String,
    pub routes: Vec<(Pattern, MethodRoute)>,
}

impl AppRouterInner {
    /// Pairs a script source with its route table.
    pub fn new(code: &str, routes: Vec<(Pattern, MethodRoute)>) -> (r: Self)
        ensures
            r.code@ == code@,
            r.routes == routes,
    {
        AppRouterInner { code: code.to_owned(), routes }
    }
}

/// A loaded snapshot: the result of one atomic read of a snapshot holder.
/// It shares the snapshot by reference count, so a reader keeps a consistent
/// pair for as long as it likes, however many swaps follow.
#[derive(Debug, Clone)]
pub struct AppRouter {
    pub inner: std::sync::Arc<AppRouterInner>,
}

/// A matched route: the handler name registered for the pattern and verb,
/// and the captured path parameters in pattern order.
#[derive(Debug, Clone)]
pub struct RouteMatch {
    pub value: String,
    pub params: Vec<(String, String)>,
}

/// Whether any pattern of the table matches the segmented path.
pub open spec fn found(tv: Seq<(Seq<SegView>, MethodRoute)>, ts: Seq<Seq<char>>) -> bool {
    exists|i: int| 0 <= i < tv.len() && is_match(#[trigger] tv[i].0, ts)
}

/// Whether table entry `i` is the best match for the segmented path: it
/// matches, and strictly outranks every other matching entry.
pub open spec fn is_best(
    tv: Seq<(Seq<SegView>, MethodRoute)>,
    ts: Seq<Seq<char>>,
    i: int,
) -> bool {
    &&& 0 <= i < tv.len()
    &&& is_match(tv[i].0, ts)
    &&& forall|j: int|
        0 <= j < tv.len() && is_match(#[trigger] tv[j].0, ts) && j != i ==> lex_lt(
            kinds(tv[i].0),
            kinds(tv[j].0),
        )
}

/// In a well-formed table the best match is unique.
pub proof fn lemma_best_unique(
    tv: Seq<(Seq<SegView>, MethodRoute)>,
    ts: Seq<Seq<char>>,
    i: int,
    j: int,
)
    requires
        is_best(tv, ts, i),
        is_best(tv, ts, j),
    ensures
        i == j,
{
    if i != j {
        lemma_lex_trans(kinds(tv[i].0), kinds(tv[j].0), kinds(tv[i].0));
        lemma_lex_irrefl(kinds(tv[i].0));
    }
}

impl AppRouter {
    /// The table this snapshot routes by.
    pub open spec fn table(&self) -> Seq<(Seq<SegView>, MethodRoute)> {
        table_view((*self.inner).routes@)
    }

    /// A loaded snapshot is well-formed when its table is.
    pub open spec fn wf(&self) -> bool {
        spec_table_wf(self.table())
    }

    /// The snapshot this handle holds.
    pub open spec fn snapshot(&self) -> AppRouterInner {
        *self.inner
    }

    /// Wraps a shared snapshot for matching.
    pub fn from_inner(inner: std::sync::Arc<AppRouterInner>) -> (r: Self)
        ensures
            r.snapshot() == *inner,
    {
        AppRouter { inner }
    }

    /// The bundled script source of this snapshot.
    pub fn code(&self) -> (r: &String)
        ensures
            r == self.snapshot().code,
    {
        &self.inner.code
    }

    /// Resolves a request path and verb against the table: picks the
    /// highest-precedence matching pattern, then looks up the verb's handler.
    /// A path no pattern matches is `RoutePathNotFound`; a matched pattern
    /// without a handler for the verb is `RouteMethodNotAllowed`.
    pub fn match_it(&self, method: HttpMethod, path: &str) -> (r: Result<RouteMatch, AppError>)
        requires
            self.wf(),
        ensures
            !found(self.table(), split_segs(path@)) ==> (r matches Err(e) && e@
                == AppErrorView::RoutePathNotFound(path@)),
            found(self.table(), split_segs(path@)) ==> exists|i: int|
                is_best(self.table(), split_segs(path@), i),
            forall|i: int|
                is_best(self.table(), split_segs(path@), i) ==> match handler_for(
                    self.table()[i].1,
                    method,
                ) {
                    Some(h) => r matches Ok(m) && m.value == h && pair_views(m.params@)
                        == params_of(self.table()[i].0, split_segs(path@)),
                    None => r matches Err(e) && e@ == AppErrorView::RouteMethodNotAllowed(method),
                },
    {
        let ghost tv = self.table();
        let ghost ts = split_segs(path@);
        let pieces = split_path(path);
        let n = self.inner.routes.len();
        let mut best: Option<usize> = None;
        let mut i: usize = 0;
        while i < n
            invariant
                0 <= i <= n,
                n == self.inner.routes.len(),
                tv == self.table(),
                ts == split_segs(path@),
                tv.len() == n,
                spec_table_wf(tv),
                views_of(pieces@) == ts,
                match best {
                    None => forall|j: int| 0 <= j < i ==> !is_match(#[trigger] tv[j].0, ts),
                    Some(b) => {
                        &&& 0 <= b < i
                        &&& is_match(tv[b as int].0, ts)
                        &&& forall|j: int|
                            0 <= j < i && is_match(#[trigger] tv[j].0, ts) && j != b ==> lex_lt(
                                kinds(tv[b as int].0),
                                kinds(tv[j as int].0),
                            )
                    },
                },
            decreases n - i,
        {
            proof {
                assert(tv[i as int].0 == self.inner.routes@[i as int].0@);
            }
            if self.inner.routes[i].0.matches_path(&pieces) {
                match best {
                    None => {
                        best = Some(i);
                    },
                    Some(b) => {
                        proof {
                            assert(tv[b as int].0 == self.inner.routes@[b as int].0@);
                        }
                        if self.inner.routes[i].0.outranks(&self.inner.routes[b].0) {
                            proof {
                                assert forall|j: int|
                                    0 <= j < i + 1 && is_match(#[trigger] tv[j].0, ts) && j
                                        != i implies lex_lt(
                                    kinds(tv[i as int].0),
                                    kinds(tv[j as int].0),
                                ) by {
                                    if j != b {
                                        lemma_lex_trans(
                                            kinds(tv[i as int].0),
                                            kinds(tv[b as int].0),
                                            kinds(tv[j as int].0),
                                        );
                                    }
                                }
                            }
                            best = Some(i);
                        } else {
                            proof {
                                lemma_match_total(tv[i as int].0, tv[b as int].0, ts);
                            }
                        }
                    },
                }
            }
            i += 1;
        }
        match best {
            None => {
                proof {
                    assert(!found(tv, ts));
                }
                Err(AppError::RoutePathNotFound(path.to_owned()))
            },
            Some(b) => {
                proof {
                    assert(is_best(tv, ts, b as int));
                    assert forall|j: int| is_best(tv, ts, j) implies j == b as int by {
                        lemma_best_unique(tv, ts, j, b as int);
                    }
                    assert(tv[b as int].1 == self.inner.routes@[b as int].1);
                    assert(tv[b as int].0 == self.inner.routes@[b as int].0@);
                }
                let handler = self.inner.routes[b].1.handler(method);
                match handler {
                    Some(h) => {
                        let params = self.inner.routes[b].0.extract_params(&pieces);
                        Ok(RouteMatch { value: h.clone(), params })
                    },
                    None => Err(AppError::RouteMethodNotAllowed(method)),
                }
            },
        }
    }
}

/// Holds one tenant snapshot behind an atomically replaceable pointer, so
/// that request handlers read without locking while the reload pipeline
/// replaces the snapshot wholesale. The cell is arc-swap's `ArcSwap`, shared
/// by every clone of the handle, so what it holds is not a function of any
/// one handle value: a store through one clone changes what every clone
/// loads. The contracts therefore state an invariant rather than contents:
/// every snapshot that enters the cell carries a well-formed table, so every
/// load returns one whole, well-formed pair. Which version a load sees is
/// runtime behaviour, exercised by the tests.
#[verifier::external_body]
pub struct SwappableAppRouter {
    inner: std::sync::Arc<arc_swap::ArcSwap<AppRouterInner>>,
}

impl Clone for SwappableAppRouter {
    /// Relies on Arc::clone: the new handle shares the same cell, so a store
    /// through either handle is seen by loads through both.
    #[verifier::external_body]
    fn clone(&self) -> (r: Self) {
        SwappableAppRouter { inner: self.inner.clone() }
    }
}

impl SwappableAppRouter {
    /// Relies on arc_swap::ArcSwapAny::from_pointee: creates a cell holding
    /// the given snapshot. Together with `store_inner` this is the only way
    /// a snapshot enters a cell, so the well-formedness demanded here is an
    /// invariant of everything a cell ever holds.
    #[verifier::external_body]
    fn holder_of(inner: AppRouterInner) -> (r: SwappableAppRouter)
        requires
            spec_table_wf(table_view(inner.routes@)),
    {
        SwappableAppRouter { inner: std::sync::Arc::new(arc_swap::ArcSwap::from_pointee(inner)) }
    }

    /// Relies on arc_swap::ArcSwapAny::store: atomically replaces the held
    /// snapshot, as one unit; further loads through any clone of the handle
    /// yield the new value. Only well-formed snapshots may enter the cell.
    #[verifier::external_body]
    fn store_inner(&self, inner: AppRouterInner)
        requires
            spec_table_wf(table_view(inner.routes@)),
    {
        self.inner.store(std::sync::Arc::new(inner));
    }

    /// Relies on arc_swap::ArcSwapAny::load_full: returns a counted
    /// reference to the one snapshot held at the instant of the call. It
    /// never blocks on writers and keeps that snapshot alive past any number
    /// of later swaps. The returned pair is well-formed because every
    /// snapshot enters the cell through `holder_of` or `store_inner`, which
    /// demand it.
    #[verifier::external_body]
    fn load_inner(&self) -> (r: std::sync::Arc<AppRouterInner>)
        ensures
            spec_table_wf(table_view((*r).routes@)),
    {
        self.inner.load_full()
    }

    /// Builds the route table for a fresh tenant and installs the first
    /// snapshot; a descriptor the builder rejects fails with its error.
    pub fn try_new(code: &str, routes: &ProjectRoutes) -> (r: Result<Self, AppError>)
        ensures
            r is Ok <==> build_spec(routes@) is Ok,
            r matches Err(e) ==> build_spec(routes@) matches Err(ev) && e@ == ev,
    {
        match get_router(routes) {
            Err(e) => Err(e),
            Ok(t) => Ok(Self::holder_of(AppRouterInner::new(code, t))),
        }
    }

    /// Rebuilds the table from a new descriptor and atomically installs the
    /// new snapshot, visible to every clone of the handle. It succeeds
    /// exactly when the builder accepts the descriptor; a failed rebuild
    /// returns the builder's error and never reaches the cell, so the live
    /// snapshot keeps serving.
    pub fn swap(&self, code: &str, routes: &ProjectRoutes) -> (r: Result<(), AppError>)
        ensures
            r is Ok <==> build_spec(routes@) is Ok,
            r matches Err(e) ==> build_spec(routes@) matches Err(ev) && e@ == ev,
    {
        match get_router(routes) {
            Err(e) => Err(e),
            Ok(t) => {
                self.store_inner(AppRouterInner::new(code, t));
                Ok(())
            },
        }
    }

    /// One atomic read: the snapshot current at the instant of the call,
    /// whole — a reader never observes a route table paired with another
    /// version's script source, and the pair it got stays self-consistent
    /// however many swaps follow.
    pub fn load(&self) -> (r: AppRouter)
        ensures
            r.wf(),
    {
        AppRouter::from_inner(self.load_inner())
    }
}

/// An unsupported verb token anywhere in an entry list fails the fold.
proof fn lemma_methods_any_invalid(es: Seq<ProjectRoute>, j: int)
    requires
        0 <= j < es.len(),
        parse_method_spec(es[j].method@) is None,
    ensures
        methods_spec(es) is Err,
    decreases es.len(),
{
    if j == es.len() - 1 {
        assert(es.last() == es[j]);
    } else {
        assert(es.drop_last()[j] == es[j]);
        lemma_methods_any_invalid(es.drop_last(), j);
    }
}

/// Registering an unsupported verb token fails the route-table build,
/// however many valid entries stand elsewhere in the descriptor.
pub proof fn lemma_unsupported_method_fails_build(
    d: Seq<(String, Vec<ProjectRoute>)>,
    i: int,
    j: int,
)
    requires
        0 <= i < d.len(),
        0 <= j < d[i].1@.len(),
        parse_method_spec(d[i].1@[j].method@) is None,
    ensures
        build_spec(d) is Err,
{
    lemma_methods_any_invalid(d[i].1@, j);
    assert(d.take(i + 1).drop_last() =~= d.take(i));
    assert(d.take(i + 1).last() == d[i]);
    assert(build_spec(d.take(i + 1)) is Err);
    lemma_build_prefix_err(d, i + 1);
}

} // verus!
