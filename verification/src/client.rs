//! The generic HTTP client core: it owns a base URL and a header mapping,
//! plans outgoing requests for the four verb operations, and decides what a
//! raw transport outcome yields (only an exact status of 200 hands the body
//! on; every failure collapses to absence).
//!
//! The network exchange itself is not performed here: the embedding program
//! sends a planned [`HttpRequest`] and hands the raw [`TransportOutcome`]
//! back to the library.

use vstd::prelude::*;
use vstd::string::*;

verus! {

/// The verb of a planned request.
#[derive(Clone, Copy, PartialEq, Eq, Structural, Debug)]
pub enum Method {
    Get,
    Post,
    Put,
    Delete,
}

/// A fully planned outgoing request: everything the transport needs.
pub struct HttpRequest {
    pub method: Method,
    pub url: String,
    pub headers: Vec<(String, String)>,
    pub body: Option<String>,
}

/// The raw outcome of one network exchange, as the transport saw it.
/// `Failure` covers every exchange that did not complete with a readable
/// body: connection, name-resolution, TLS and mid-transfer I/O errors.
pub enum TransportOutcome {
    Failure,
    Response { status: u16, body: String },
}

/// The views of the header pairs, in storage order.
pub open spec fn pair_views(ps: Seq<(String, String)>) -> Seq<(Seq<char>, Seq<char>)> {
    ps.map_values(|p: (String, String)| (p.0@, p.1@))
}

/// The header mapping that a sequence of pairs denotes; a later pair with
/// the same name overwrites an earlier one.
pub open spec fn map_of_pairs(ps: Seq<(Seq<char>, Seq<char>)>) -> Map<Seq<char>, Seq<char>>
    decreases ps.len(),
{
    if ps.len() == 0 {
        Map::empty()
    } else {
        map_of_pairs(ps.drop_last()).insert(ps.last().0, ps.last().1)
    }
}

/// No header name occurs twice.
pub open spec fn unique_keys(ps: Seq<(Seq<char>, Seq<char>)>) -> bool {
    forall|i: int, j: int| 0 <= i < j < ps.len() ==> ps[i].0 != ps[j].0
}

/// What every verb operation promises of the request it plans: the URL is
/// the base URL with the path appended verbatim, every configured header is
/// carried, and the body is exactly the one supplied (or absent).
pub open spec fn planned_request(
    r: HttpRequest,
    m: Method,
    base: Seq<char>,
    hs: Map<Seq<char>, Seq<char>>,
    path: Seq<char>,
    body: Option<Seq<char>>,
) -> bool {
    &&& r.method == m
    &&& r.url@ == base + path
    &&& unique_keys(pair_views(r.headers@))
    &&& map_of_pairs(pair_views(r.headers@)) == hs
    &&& match (body, r.body) {
        (Option::None, Option::None) => true,
        (Option::Some(b), Option::Some(ref rb)) => rb@ == b,
        _ => false,
    }
}

/// A client that can plan typed JSON round trips: a base URL plus a header
/// mapping, and one planning operation per verb.
pub trait Client: Sized {
    spec fn wf(&self) -> bool;

    spec fn base_url_spec(&self) -> Seq<char>;

    spec fn headers_spec(&self) -> Map<Seq<char>, Seq<char>>;

    /// The base URL is stored verbatim; no header is configured yet.
    fn new(base_url: String) -> (r: Self)
        ensures
            r.wf(),
            r.base_url_spec() == base_url@,
            r.headers_spec() == Map::<Seq<char>, Seq<char>>::empty(),
    ;

    /// Inserts or overwrites one header; last write wins. Returns the
    /// client so calls can be chained.
    fn set_header(self, name: String, value: String) -> (r: Self)
        requires
            self.wf(),
        ensures
            r.wf(),
            r.base_url_spec() == self.base_url_spec(),
            r.headers_spec() == self.headers_spec().insert(name@, value@),
    ;

    fn get(&self, path: &str) -> (r: HttpRequest)
        requires
            self.wf(),
        ensures
            planned_request(
                r,
                Method::Get,
                self.base_url_spec(),
                self.headers_spec(),
                path@,
                Option::<Seq<char>>::None,
            ),
    ;

    fn post(&self, path: &str, body: String) -> (r: HttpRequest)
        requires
            self.wf(),
        ensures
            planned_request(
                r,
                Method::Post,
                self.base_url_spec(),
                self.headers_spec(),
                path@,
                Option::Some(body@),
            ),
    ;

    fn put(&self, path: &str, body: String) -> (r: HttpRequest)
        requires
            self.wf(),
        ensures
            planned_request(
                r,
                Method::Put,
                self.base_url_spec(),
                self.headers_spec(),
                path@,
                Option::Some(body@),
            ),
    ;

    fn delete(&self, path: &str) -> (r: HttpRequest)
        requires
            self.wf(),
        ensures
            planned_request(
                r,
                Method::Delete,
                self.base_url_spec(),
                self.headers_spec(),
                path@,
                Option::<Seq<char>>::None,
            ),
    ;
}

/// The one client of this library: a base URL and the configured headers,
/// stored as pairs with pairwise distinct names.
pub struct HttpClient {
    base_url: String,
    headers: Vec<(String, String)>,
}

impl Client for HttpClient {
    closed spec fn wf(&self) -> bool {
        unique_keys(pair_views(self.headers@))
    }

    closed spec fn base_url_spec(&self) -> Seq<char> {
        self.base_url@
    }

    closed spec fn headers_spec(&self) -> Map<Seq<char>, Seq<char>> {
        map_of_pairs(pair_views(self.headers@))
    }

    fn new(base_url: String) -> (r: Self) {
        let r = HttpClient { base_url, headers: Vec::new() };
        proof {
            assert(pair_views(r.headers@) =~= Seq::<(Seq<char>, Seq<char>)>::empty());
        }
        r
    }

    #[verifier::loop_isolation(false)]
    fn set_header(self, name: String, value: String) -> (r: Self) {
        let ghost base0: Seq<char> = self.base_url@;
        let ghost ps0: Seq<(Seq<char>, Seq<char>)> = pair_views(self.headers@);
        let mut c = self;
        let n = c.headers.len();
        proof {
            assert(ps0.len() == c.headers@.len());
        }
        let mut i: usize = 0;
        while i < n
            invariant
                unique_keys(ps0),
                c.base_url@ == base0,
                pair_views(c.headers@) == ps0,
                n == c.headers@.len(),
                ps0.len() == n,
                i <= n,
                forall|j: int| 0 <= j < i ==> ps0[j].0 != name@,
            decreases n - i,
        {
            if c.headers[i].0 == name {
                proof {
                    assert(ps0[i as int].0 == name@);
                }
                c.headers[i] = (name, value);
                proof {
                    let ps1 = pair_views(c.headers@);
                    let ps2 = ps0.update(i as int, (ps0[i as int].0, value@));
                    assert forall|j: int| 0 <= j < ps1.len() implies ps1[j] == ps2[j] by {}
                    assert(ps1 =~= ps2);
                    lemma_map_of_pairs_update(ps0, i as int, value@);
                    assert forall|j: int, k: int| 0 <= j < k < ps1.len() implies ps1[j].0
                        != ps1[k].0 by {
                        assert(ps1[j].0 == ps0[j].0);
                        assert(ps1[k].0 == ps0[k].0);
                    }
                }
                return c;
            }
            i += 1;
        }
        c.headers.push((name, value));
        proof {
            let ps1 = pair_views(c.headers@);
            assert forall|j: int| 0 <= j < ps1.len() implies ps1[j] == ps0.push(
                (name@, value@),
            )[j] by {}
            assert(ps1 =~= ps0.push((name@, value@)));
            assert(ps1.drop_last() =~= ps0);
            assert forall|j: int, k: int| 0 <= j < k < ps1.len() implies ps1[j].0 != ps1[k].0 by {
                if k == ps1.len() - 1 {
                    assert(ps1[j].0 == ps0[j].0);
                }
            }
        }
        c
    }

    fn get(&self, path: &str) -> (r: HttpRequest) {
        HttpRequest {
            method: Method::Get,
            url: self.build_url(path),
            headers: self.build_headers(),
            body: Option::None,
        }
    }

    fn post(&self, path: &str, body: String) -> (r: HttpRequest) {
        HttpRequest {
            method: Method::Post,
            url: self.build_url(path),
            headers: self.build_headers(),
            body: Option::Some(body),
        }
    }

    fn put(&self, path: &str, body: String) -> (r: HttpRequest) {
        HttpRequest {
            method: Method::Put,
            url: self.build_url(path),
            headers: self.build_headers(),
            body: Option::Some(body),
        }
    }

    fn delete(&self, path: &str) -> (r: HttpRequest) {
        HttpRequest {
            method: Method::Delete,
            url: self.build_url(path),
            headers: self.build_headers(),
            body: Option::None,
        }
    }
}

impl HttpClient {
    /// The absolute URL of a request: the base URL with the path appended
    /// verbatim — no separator is added or removed.
    pub fn build_url(&self, path: &str) -> (r: String)
        ensures
            r@ == self.base_url_spec() + path@,
    {
        self.base_url.clone().concat(path)
    }

    /// A copy of the configured header pairs, for one outgoing request.
    fn build_headers(&self) -> (r: Vec<(String, String)>)
        ensures
            pair_views(r@) == pair_views(self.headers@),
    {
        let mut out: Vec<(String, String)> = Vec::new();
        let mut i: usize = 0;
        while i < self.headers.len()
            invariant
                i <= self.headers@.len(),
                pair_views(out@) =~= pair_views(self.headers@).take(i as int),
            decreases self.headers@.len() - i,
        {
            proof {
                assert(pair_views(out@).len() == out@.len());
                assert(pair_views(out@).len() == pair_views(self.headers@).take(i as int).len());
                assert(out@.len() == i);
            }
            let p = &self.headers[i];
            let p0 = p.0.clone();
            let p1 = p.1.clone();
            out.push((p0, p1));
            proof {
                let lhs = pair_views(out@);
                let rhs = pair_views(self.headers@).take(i as int + 1);
                assert(out@[i as int] == self.headers@[i as int]);
                assert forall|j: int| 0 <= j < lhs.len() implies lhs[j] == rhs[j] by {}
                assert(lhs =~= rhs);
            }
            i += 1;
        }
        proof {
            assert(pair_views(self.headers@).take(self.headers@.len() as int) =~= pair_views(
                self.headers@,
            ));
        }
        out
    }
}

/// The body that an outcome yields: present exactly when the exchange
/// completed with status 200.
pub open spec fn success_body(outcome: TransportOutcome) -> Option<Seq<char>> {
    match outcome {
        TransportOutcome::Failure => Option::None,
        TransportOutcome::Response { status, body } => if status == 200 {
            Option::Some(body@)
        } else {
            Option::None
        },
    }
}

/// The response-side policy shared by all four verb operations: a failed
/// exchange or any status other than exactly 200 yields absence; a status of
/// exactly 200 yields the response body for decoding.
pub fn handle_response(outcome: TransportOutcome) -> (r: Option<String>)
    ensures
        r is Some <==> success_body(outcome) is Some,
        r matches Some(s) ==> success_body(outcome) == Option::Some(s@),
{
    match outcome {
        TransportOutcome::Failure => Option::None,
        TransportOutcome::Response { status, body } => {
            if status == 200 {
                Option::Some(body)
            } else {
                Option::None
            }
        },
    }
}

/// The full response side of a typed round trip for one entity, as every
/// verb operation applies it: a completed exchange with status exactly 200
/// whose body is a well-formed todo document yields that todo; everything
/// else yields absence.
pub fn decode_todo_response(outcome: TransportOutcome) -> (r: Option<crate::todo::Todo>)
    ensures
        r is Some <==> (success_body(outcome) matches Option::Some(b) && crate::json::sp_todo_doc(
            b,
        ) is Some),
        r matches Some(t) ==> crate::json::sp_todo_doc(success_body(outcome).unwrap())
            == Option::Some(t@),
{
    match handle_response(outcome) {
        Option::Some(body) => crate::json::todo_from_json(body.as_str()),
        Option::None => Option::None,
    }
}

/// The response side of a typed round trip for a list of entities.
pub fn decode_todos_response(outcome: TransportOutcome) -> (r: Option<Vec<crate::todo::Todo>>)
    ensures
        r is Some <==> (success_body(outcome) matches Option::Some(b) && crate::json::sp_todos_doc(
            b,
        ) is Some),
        r matches Some(v) ==> crate::json::sp_todos_doc(success_body(outcome).unwrap())
            == Option::Some(crate::json::todos_view(v@)),
{
    match handle_response(outcome) {
        Option::Some(body) => crate::json::todos_from_json(body.as_str()),
        Option::None => Option::None,
    }
}

/// Updating a pair in place, where its name occurs only once, changes the
/// denoted mapping exactly as an insert of that name does.
pub proof fn lemma_map_of_pairs_update(ps: Seq<(Seq<char>, Seq<char>)>, i: int, v: Seq<char>)
    requires
        unique_keys(ps),
        0 <= i < ps.len(),
    ensures
        map_of_pairs(ps.update(i, (ps[i].0, v))) == map_of_pairs(ps).insert(ps[i].0, v),
    decreases ps.len(),
{
    let k = ps[i].0;
    let ps2 = ps.update(i, (k, v));
    if i == ps.len() - 1 {
        assert(ps2.drop_last() =~= ps.drop_last());
        assert(map_of_pairs(ps2) =~= map_of_pairs(ps).insert(k, v));
    } else {
        assert(ps2.drop_last() =~= ps.drop_last().update(i, (k, v)));
        assert(ps.drop_last()[i] == ps[i]);
        lemma_map_of_pairs_update(ps.drop_last(), i, v);
        assert(ps.last().0 != k);
        assert(map_of_pairs(ps2) =~= map_of_pairs(ps).insert(k, v));
    }
}

/// Every configured pair appears in the denoted mapping: nothing set is
/// dropped on the way to a request.
pub proof fn lemma_headers_complete(ps: Seq<(Seq<char>, Seq<char>)>)
    requires
        unique_keys(ps),
    ensures
        forall|i: int|
            0 <= i < ps.len() ==> map_of_pairs(ps).contains_pair(#[trigger] ps[i].0, ps[i].1),
    decreases ps.len(),
{
    if ps.len() > 0 {
        lemma_headers_complete(ps.drop_last());
        assert forall|i: int|
            0 <= i < ps.len() implies map_of_pairs(ps).contains_pair(#[trigger] ps[i].0, ps[i].1) by {
            if i < ps.len() - 1 {
                assert(ps.drop_last()[i] == ps[i]);
                assert(ps[i].0 != ps.last().0);
            }
        }
    }
}

/// Setting the same header name twice leaves only the second value in the
/// mapping: the first write is gone without trace.
pub proof fn lemma_set_header_last_wins(
    hs: Map<Seq<char>, Seq<char>>,
    name: Seq<char>,
    v1: Seq<char>,
    v2: Seq<char>,
)
    ensures
        hs.insert(name, v1).insert(name, v2) == hs.insert(name, v2),
{
    assert(hs.insert(name, v1).insert(name, v2) =~= hs.insert(name, v2));
}

} // verus!
