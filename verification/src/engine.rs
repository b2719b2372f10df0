//! The marshaling contract between native request/response records and the
//! scripting engine's value space: every request field becomes a like-named
//! property, and a handler's return value is decoded back field by field
//! (`status` mandatory 16-bit, `headers` defaulting to empty, `body`
//! optional).

use vstd::prelude::*;
use crate::error::{AppError, AppErrorView};
use crate::pattern::pair_views;

verus! {

/// A native request record, as handed to a script handler.
#[derive(Debug, Clone)]
pub struct Req {
    pub method: String,
    pub url: String,
    pub query: Vec<(String, String)>,
    pub params: Vec<(String, String)>,
    pub headers: Vec<(String, String)>,
    pub body: Option<String>,
}

/// A native response record, as decoded from a handler's return value.
#[derive(Debug, Clone)]
pub struct Res {
    pub headers: Vec<(String, String)>,
    pub status: u16,
    pub body: Option<String>,
}

/// The request record of the single-tenant runner: no query or route
/// parameters, otherwise marshaled exactly like `Req`.
#[derive(Debug, Clone)]
pub struct Request {
    pub headers: Vec<(String, String)>,
    pub method: String,
    pub url: String,
    pub body: Option<String>,
}

/// The response record of the single-tenant runner.
#[derive(Debug, Clone)]
pub struct Response {
    pub headers: Vec<(String, String)>,
    pub status: u16,
    pub body: Option<String>,
}

/// One property value in the engine's value space, restricted to the shapes
/// marshaling produces and demarshaling reads.
#[derive(Debug, Clone, PartialEq, Eq)]
pub enum JsProp {
    /// A string value.
    Text(String),
    /// An integral number.
    Num(i64),
    /// An object whose properties are all strings, read as a string mapping.
    Table(Vec<(String, String)>),
    /// `null` or `undefined`.
    Null,
}

/// The mathematical shape of a property value.
pub enum JsVal {
    Text(Seq<char>),
    Num(int),
    Table(Seq<(Seq<char>, Seq<char>)>),
    Null,
}

impl View for JsProp {
    type V = JsVal;

    open spec fn view(&self) -> JsVal {
        match self {
            JsProp::Text(t) => JsVal::Text(t@),
            JsProp::Num(n) => JsVal::Num(*n as int),
            JsProp::Table(t) => JsVal::Table(pair_views(t@)),
            JsProp::Null => JsVal::Null,
        }
    }
}

/// An engine object as a property list.
pub type JsObject = Vec<(String, JsProp)>;

/// The view of an engine object.
pub open spec fn obj_view(obj: Seq<(String, JsProp)>) -> Seq<(Seq<char>, JsVal)> {
    obj.map_values(|p: (String, JsProp)| (p.0@, p.1@))
}

/// Property lookup by name; the first binding wins.
pub open spec fn lookup_prop(o: Seq<(Seq<char>, JsVal)>, name: Seq<char>) -> Option<JsVal>
    decreases o.len(),
{
    if o.len() == 0 {
        None
    } else if o[0].0 == name {
        Some(o[0].1)
    } else {
        lookup_prop(o.skip(1), name)
    }
}

/// If `i` is the first position bearing `name`, lookup returns its value.
pub proof fn lemma_lookup_at(o: Seq<(Seq<char>, JsVal)>, name: Seq<char>, i: int)
    requires
        0 <= i < o.len(),
        o[i].0 == name,
        forall|j: int| 0 <= j < i ==> (#[trigger] o[j]).0 != name,
    ensures
        lookup_prop(o, name) == Some(o[i].1),
    decreases i,
{
    if i > 0 {
        assert(o.skip(1)[i - 1] == o[i]);
        assert forall|j: int| 0 <= j < i - 1 implies (#[trigger] o.skip(1)[j]).0 != name by {
            assert(o.skip(1)[j] == o[j + 1]);
        }
        lemma_lookup_at(o.skip(1), name, i - 1);
    }
}

/// The property value an optional body marshals to: absent bodies become
/// `null`.
pub open spec fn body_val(b: Option<String>) -> JsVal {
    match b {
        Some(t) => JsVal::Text(t@),
        None => JsVal::Null,
    }
}

/// The view of an optional text.
pub open spec fn opt_view(b: Option<String>) -> Option<Seq<char>> {
    match b {
        Some(t) => Some(t@),
        None => None,
    }
}

/// What marshaling a request record produces: each declared field as a
/// like-named property.
pub open spec fn marshal_req_spec(req: Req) -> Seq<(Seq<char>, JsVal)> {
    seq![
        ("method"@, JsVal::Text(req.method@)),
        ("url"@, JsVal::Text(req.url@)),
        ("query"@, JsVal::Table(pair_views(req.query@))),
        ("params"@, JsVal::Table(pair_views(req.params@))),
        ("headers"@, JsVal::Table(pair_views(req.headers@))),
        ("body"@, body_val(req.body)),
    ]
}

/// What marshaling a runner request produces.
pub open spec fn marshal_request_spec(req: Request) -> Seq<(Seq<char>, JsVal)> {
    seq![
        ("headers"@, JsVal::Table(pair_views(req.headers@))),
        ("method"@, JsVal::Text(req.method@)),
        ("url"@, JsVal::Text(req.url@)),
        ("body"@, body_val(req.body)),
    ]
}

/// Clones a string-pair list element by element; the copy has exactly the
/// original's contents.
pub fn clone_pairs(v: &Vec<(String, String)>) -> (r: Vec<(String, String)>)
    ensures
        r@ == v@,
{
    let mut out: Vec<(String, String)> = Vec::new();
    let mut i: usize = 0;
    proof {
        assert(out@ =~= v@.take(0));
    }
    while i < v.len()
        invariant
            0 <= i <= v.len(),
            out@ == v@.take(i as int),
        decreases v.len() - i,
    {
        out.push((v[i].0.clone(), v[i].1.clone()));
        proof {
            assert(out@ =~= v@.take(i + 1));
        }
        i += 1;
    }
    proof {
        assert(v@.take(v@.len() as int) =~= v@);
    }
    out
}

impl Req {
    /// Marshals this record into an engine object, field by field.
    pub fn to_js_object(&self) -> (r: JsObject)
        ensures
            obj_view(r@) == marshal_req_spec(*self),
    {
        let mut obj: JsObject = Vec::new();
        obj.push(("method".to_owned(), JsProp::Text(self.method.clone())));
        obj.push(("url".to_owned(), JsProp::Text(self.url.clone())));
        obj.push(("query".to_owned(), JsProp::Table(clone_pairs(&self.query))));
        obj.push(("params".to_owned(), JsProp::Table(clone_pairs(&self.params))));
        obj.push(("headers".to_owned(), JsProp::Table(clone_pairs(&self.headers))));
        match &self.body {
            Some(t) => obj.push(("body".to_owned(), JsProp::Text(t.clone()))),
            None => obj.push(("body".to_owned(), JsProp::Null)),
        }
        proof {
            assert(obj_view(obj@) =~= marshal_req_spec(*self));
        }
        obj
    }
}

impl Request {
    /// Marshals this record into an engine object, field by field.
    pub fn to_js_object(&self) -> (r: JsObject)
        ensures
            obj_view(r@) == marshal_request_spec(*self),
    {
        let mut obj: JsObject = Vec::new();
        obj.push(("headers".to_owned(), JsProp::Table(clone_pairs(&self.headers))));
        obj.push(("method".to_owned(), JsProp::Text(self.method.clone())));
        obj.push(("url".to_owned(), JsProp::Text(self.url.clone())));
        match &self.body {
            Some(t) => obj.push(("body".to_owned(), JsProp::Text(t.clone()))),
            None => obj.push(("body".to_owned(), JsProp::Null)),
        }
        proof {
            assert(obj_view(obj@) =~= marshal_request_spec(*self));
        }
        obj
    }
}

/// Finishing a decode once status and headers are settled: `body` may be
/// text, `null`, or absent; any other shape is a decode error.
pub open spec fn demarshal_body(
    n: int,
    t: Seq<(Seq<char>, Seq<char>)>,
    o: Seq<(Seq<char>, JsVal)>,
) -> Result<(u16, Seq<(Seq<char>, Seq<char>)>, Option<Seq<char>>), AppErrorView> {
    match lookup_prop(o, "body"@) {
        Some(JsVal::Text(b)) => Ok((n as u16, t, Some(b))),
        Some(JsVal::Null) => Ok((n as u16, t, None)),
        None => Ok((n as u16, t, None)),
        _ => Err(AppErrorView::InvalidResponse("body"@)),
    }
}

/// Decoding a handler's return object into a response record: `status` must
/// be an integral number fitting 16 bits; `headers` defaults to an empty
/// mapping when absent; `body` is optional.
pub open spec fn demarshal_spec(o: Seq<(Seq<char>, JsVal)>) -> Result<
    (u16, Seq<(Seq<char>, Seq<char>)>, Option<Seq<char>>),
    AppErrorView,
> {
    match lookup_prop(o, "status"@) {
        Some(JsVal::Num(n)) => if 0 <= n <= 65535 {
            match lookup_prop(o, "headers"@) {
                Some(JsVal::Table(t)) => demarshal_body(n, t, o),
                None => demarshal_body(n, Seq::empty(), o),
                _ => Err(AppErrorView::InvalidResponse("headers"@)),
            }
        } else {
            Err(AppErrorView::InvalidResponse("status"@))
        },
        _ => Err(AppErrorView::InvalidResponse("status"@)),
    }
}

/// Finds a property by name; the first binding wins.
fn get_prop<'a>(obj: &'a JsObject, name: &str) -> (r: Option<&'a JsProp>)
    ensures
        match r {
            Some(p) => lookup_prop(obj_view(obj@), name@) == Some(p@),
            None => lookup_prop(obj_view(obj@), name@) is None,
        },
{
    let ghost o = obj_view(obj@);
    let name_s = name.to_owned();
    let mut i: usize = 0;
    proof {
        assert(o.skip(0) =~= o);
    }
    while i < obj.len()
        invariant
            0 <= i <= obj.len(),
            o == obj_view(obj@),
            o.len() == obj.len(),
            name_s@ == name@,
            lookup_prop(o, name@) == lookup_prop(o.skip(i as int), name@),
        decreases obj.len() - i,
    {
        proof {
            assert(o.skip(i as int)[0] == o[i as int]);
            assert(o.skip(i as int).skip(1) =~= o.skip(i + 1));
            assert(o[i as int] == (obj@[i as int].0@, obj@[i as int].1@));
        }
        if obj[i].0 == name_s {
            return Some(&obj[i].1);
        }
        i += 1;
    }
    proof {
        assert(o.skip(i as int) =~= Seq::<(Seq<char>, JsVal)>::empty());
    }
    None
}

/// Decodes a handler's return object into its parts.
fn demarshal_parts(obj: &JsObject) -> (r: Result<(u16, Vec<(String, String)>, Option<String>), AppError>)
    ensures
        r is Ok <==> demarshal_spec(obj_view(obj@)) is Ok,
        r matches Ok(p) ==> demarshal_spec(obj_view(obj@)) == Ok::<_, AppErrorView>(
            (p.0, pair_views(p.1@), opt_view(p.2)),
        ),
        r matches Err(e) ==> demarshal_spec(obj_view(obj@)) matches Err(ev) && e@ == ev,
{
    let ghost o = obj_view(obj@);
    let status: u16 = match get_prop(obj, "status") {
        Some(JsProp::Num(n)) => {
            let n = *n;
            if 0 <= n && n <= 65535 {
                n as u16
            } else {
                return Err(AppError::InvalidResponse("status".to_owned()));
            }
        },
        _ => {
            return Err(AppError::InvalidResponse("status".to_owned()));
        },
    };
    let headers: Vec<(String, String)> = match get_prop(obj, "headers") {
        Some(JsProp::Table(t)) => clone_pairs(t),
        None => {
            let hv: Vec<(String, String)> = Vec::new();
            proof {
                assert(pair_views(hv@) =~= Seq::<(Seq<char>, Seq<char>)>::empty());
            }
            hv
        },
        _ => {
            return Err(AppError::InvalidResponse("headers".to_owned()));
        },
    };
    let body: Option<String> = match get_prop(obj, "body") {
        Some(JsProp::Text(b)) => Some(b.clone()),
        Some(JsProp::Null) => None,
        None => None,
        _ => {
            return Err(AppError::InvalidResponse("body".to_owned()));
        },
    };
    Ok((status, headers, body))
}

impl Res {
    /// Decodes a handler's return object into a response record.
    pub fn from_js_object(obj: &JsObject) -> (r: Result<Res, AppError>)
        ensures
            r is Ok <==> demarshal_spec(obj_view(obj@)) is Ok,
            r matches Ok(res) ==> demarshal_spec(obj_view(obj@)) == Ok::<_, AppErrorView>(
                (res.status, pair_views(res.headers@), opt_view(res.body)),
            ),
            r matches Err(e) ==> demarshal_spec(obj_view(obj@)) matches Err(ev) && e@ == ev,
    {
        match demarshal_parts(obj) {
            Ok(p) => Ok(Res { status: p.0, headers: p.1, body: p.2 }),
            Err(e) => Err(e),
        }
    }
}

impl Response {
    /// Decodes a handler's return object into a response record.
    pub fn from_js_object(obj: &JsObject) -> (r: Result<Response, AppError>)
        ensures
            r is Ok <==> demarshal_spec(obj_view(obj@)) is Ok,
            r matches Ok(res) ==> demarshal_spec(obj_view(obj@)) == Ok::<_, AppErrorView>(
                (res.status, pair_views(res.headers@), opt_view(res.body)),
            ),
            r matches Err(e) ==> demarshal_spec(obj_view(obj@)) matches Err(ev) && e@ == ev,
    {
        match demarshal_parts(obj) {
            Ok(p) => Ok(Response { status: p.0, headers: p.1, body: p.2 }),
            Err(e) => Err(e),
        }
    }
}

/// Marshaling is lossless and order-independent: every declared field of the
/// request record is found under its own name in the marshaled object.
pub proof fn lemma_marshal_req_lossless(req: Req)
    ensures
        lookup_prop(marshal_req_spec(req), "method"@) == Some(JsVal::Text(req.method@)),
        lookup_prop(marshal_req_spec(req), "url"@) == Some(JsVal::Text(req.url@)),
        lookup_prop(marshal_req_spec(req), "query"@) == Some(JsVal::Table(pair_views(req.query@))),
        lookup_prop(marshal_req_spec(req), "params"@) == Some(
            JsVal::Table(pair_views(req.params@)),
        ),
        lookup_prop(marshal_req_spec(req), "headers"@) == Some(
            JsVal::Table(pair_views(req.headers@)),
        ),
        lookup_prop(marshal_req_spec(req), "body"@) == Some(body_val(req.body)),
{
    let o = marshal_req_spec(req);
    reveal_strlit("method");
    reveal_strlit("url");
    reveal_strlit("query");
    reveal_strlit("params");
    reveal_strlit("headers");
    reveal_strlit("body");
    assert("method"@.len() == 6 && "url"@.len() == 3 && "query"@.len() == 5 && "params"@.len()
        == 6 && "headers"@.len() == 7 && "body"@.len() == 4);
    assert("method"@[0] == 'm' && "params"@[0] == 'p');
    assert("method"@ != "url"@ && "method"@ != "query"@ && "method"@ != "params"@ && "method"@
        != "headers"@ && "method"@ != "body"@);
    assert("url"@ != "query"@ && "url"@ != "params"@ && "url"@ != "headers"@ && "url"@
        != "body"@);
    assert("query"@ != "params"@ && "query"@ != "headers"@ && "query"@ != "body"@);
    assert("params"@ != "headers"@ && "params"@ != "body"@);
    assert("headers"@ != "body"@);
    lemma_lookup_at(o, "method"@, 0);
    lemma_lookup_at(o, "url"@, 1);
    lemma_lookup_at(o, "query"@, 2);
    lemma_lookup_at(o, "params"@, 3);
    lemma_lookup_at(o, "headers"@, 4);
    lemma_lookup_at(o, "body"@, 5);
}

/// Round trip through an identity-echo handler: a handler that answers with
/// an explicit status beside the marshaled request's own `headers` and
/// `body` properties decodes to a response whose fields equal those request
/// fields.
pub proof fn lemma_echo_roundtrip(req: Req, status: u16, o: Seq<(Seq<char>, JsVal)>)
    requires
        o.len() == 3,
        o[0] == ("status"@, JsVal::Num(status as int)),
        o[1] == ("headers"@, lookup_prop(marshal_req_spec(req), "headers"@)->Some_0),
        o[2] == ("body"@, lookup_prop(marshal_req_spec(req), "body"@)->Some_0),
    ensures
        demarshal_spec(o) == Ok::<_, AppErrorView>(
            (status, pair_views(req.headers@), opt_view(req.body)),
        ),
{
    reveal_strlit("status");
    reveal_strlit("headers");
    reveal_strlit("body");
    assert("status"@.len() == 6 && "headers"@.len() == 7 && "body"@.len() == 4);
    assert("status"@ != "headers"@ && "status"@ != "body"@ && "headers"@ != "body"@);
    lemma_marshal_req_lossless(req);
    lemma_lookup_at(o, "status"@, 0);
    lemma_lookup_at(o, "headers"@, 1);
    lemma_lookup_at(o, "body"@, 2);
}

} // verus!
