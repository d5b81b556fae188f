//! The statement protocol driver: builds the submission and continuation
//! requests, classifies poll responses, and decides, response by response,
//! whether to follow a continuation link, back off and retry, or stop.

use crate::headers::{encoded_pairs, HeaderBuilder};
use crate::text::{lemma_deep_view_is_views_of, lemma_views_of_concat, views_of};
use vstd::prelude::*;

verus! {

/// Errors with which a query ends.
#[derive(Clone, PartialEq, Eq, Debug)]
pub enum ClientError {
    /// The transport failed before a response arrived.
    Transport,
    /// A response with a status other than 200 or 503 ended the query.
    Status(u16),
    /// A 200 response body did not decode as query results.
    Decode,
    /// The ceiling on consecutive 503 retries was reached.
    RetryExhausted,
    /// The server reported, inside a successfully decoded response, that the
    /// query failed; carries the server's error text.
    QueryFailed(String),
}

impl ClientError {
    /// The error for a terminal HTTP status code.
    pub fn from_status_code(code: u16) -> (r: ClientError)
        ensures
            r == ClientError::Status(code),
    {
        ClientError::Status(code)
    }
}

/// One decoded poll response: the query id, the continuation link if the
/// server supplied one, this page's rows (each row as its JSON text), if
/// any, and the state and error the server reports.
#[derive(Debug)]
pub struct QueryResultsValue {
    pub id: String,
    pub next_uri: Option<String>,
    pub data: Option<Vec<String>>,
    /// The query state the server reports, if any.
    pub state: Option<String>,
    /// The failure the server reports when the query failed server-side.
    pub error: Option<String>,
}

/// The rows carried by one decoded page; empty when the page has none.
pub open spec fn page_rows(v: QueryResultsValue) -> Seq<Seq<char>> {
    match v.data {
        Some(d) => d.deep_view(),
        None => Seq::empty(),
    }
}

/// The HTTP method of a protocol request.
#[derive(Clone, Copy, PartialEq, Eq, Structural, Debug)]
pub enum RequestMethod {
    Get,
    Post,
}

/// A transport-independent description of one protocol request: the method,
/// the target, the encoded headers in order, and the body text.
pub struct ApiRequest {
    pub method: RequestMethod,
    pub uri: String,
    pub headers: Vec<(String, String)>,
    pub body: String,
}

/// Request construction for the statement protocol.
pub struct PrestoApi {}

impl PrestoApi {
    /// Builds the statement-submission request: POST to
    /// `{base_url}/v1/statement` with the SQL text as body and the encoded
    /// header set attached.
    pub fn post_statement_request(base_url: &str, statement: String, headers: &HeaderBuilder) -> (r:
        ApiRequest)
        ensures
            r.method == RequestMethod::Post,
            r.uri@ == base_url@ + "/v1/statement"@,
            r.headers.deep_view() == encoded_pairs(headers@),
            r.body@ == statement@,
    {
        ApiRequest {
            method: RequestMethod::Post,
            uri: String::from_str(base_url).concat("/v1/statement"),
            headers: headers.encoded(),
            body: statement,
        }
    }

    /// Builds a continuation request: GET to the server-supplied next URI,
    /// with the same header set and an empty body.
    pub fn get_results_request(next_uri: String, headers: &HeaderBuilder) -> (r: ApiRequest)
        ensures
            r.method == RequestMethod::Get,
            r.uri@ == next_uri@,
            r.headers.deep_view() == encoded_pairs(headers@),
            r.body@ == Seq::<char>::empty(),
    {
        ApiRequest {
            method: RequestMethod::Get,
            uri: next_uri,
            headers: headers.encoded(),
            body: String::new(),
        }
    }

    /// Classifies a poll response from its status and decoded body. A 503 is
    /// retried by the driver and is never classified here.
    pub fn parse_response(status: u16, decoded: Option<QueryResultsValue>) -> (r: Result<
        QueryResultsValue,
        ClientError,
    >)
        requires
            status != 503,
        ensures
            (status == 200 && decoded is Some) ==> (r matches Ok(v) && v == decoded.unwrap()),
            (status == 200 && decoded is None) ==> r == Err::<QueryResultsValue, ClientError>(
                ClientError::Decode,
            ),
            status != 200 ==> r == Err::<QueryResultsValue, ClientError>(
                ClientError::Status(status),
            ),
    {
        if status == 200 {
            match decoded {
                Some(v) => Ok(v),
                None => Err(ClientError::Decode),
            }
        } else {
            Err(ClientError::from_status_code(status))
        }
    }
}

/// The largest number of consecutive 503 responses retried for one request;
/// one more ends the query with `RetryExhausted`.
pub const MAX_RETRIES: u32 = 10;

/// The backoff delay in milliseconds before re-issuing a request after
/// `retries` consecutive 503 responses: 100 ms, doubled on each further 503,
/// capped at 6400 ms.
pub open spec fn backoff_delay_ms(retries: int) -> int
    decreases retries,
{
    if retries <= 0 {
        100
    } else if retries >= 6 {
        6400
    } else {
        2 * backoff_delay_ms(retries - 1)
    }
}

proof fn lemma_backoff_values()
    ensures
        backoff_delay_ms(0) == 100,
        backoff_delay_ms(1) == 200,
        backoff_delay_ms(2) == 400,
        backoff_delay_ms(3) == 800,
        backoff_delay_ms(4) == 1600,
        backoff_delay_ms(5) == 3200,
        backoff_delay_ms(6) == 6400,
{
    assert(backoff_delay_ms(0) == 100);
    assert(backoff_delay_ms(1) == 200);
    assert(backoff_delay_ms(2) == 400);
    assert(backoff_delay_ms(3) == 800);
    assert(backoff_delay_ms(4) == 1600);
    assert(backoff_delay_ms(5) == 3200);
    assert(backoff_delay_ms(6) == 6400);
}

/// The backoff delay stays within its fixed bounds.
pub proof fn lemma_backoff_bounds(n: int)
    ensures
        100 <= backoff_delay_ms(n) <= 6400,
        n < 6 ==> backoff_delay_ms(n) <= 3200,
{
    lemma_backoff_values();
    if n <= 0 {
        assert(backoff_delay_ms(n) == 100);
    } else if n >= 6 {
        assert(backoff_delay_ms(n) == 6400);
    } else if n == 1 {
    } else if n == 2 {
    } else if n == 3 {
    } else if n == 4 {
    } else {
        assert(n == 5);
    }
}

/// Until the cap is reached, each further 503 doubles the backoff delay.
pub proof fn lemma_backoff_doubles(n: int)
    requires
        0 <= n < 6,
    ensures
        backoff_delay_ms(n + 1) == 2 * backoff_delay_ms(n),
{
    lemma_backoff_values();
    if n == 0 {
    } else if n == 1 {
    } else if n == 2 {
    } else if n == 3 {
    } else if n == 4 {
    } else {
        assert(n == 5);
    }
}

/// The backoff delay never shrinks as consecutive 503 responses accumulate.
pub proof fn lemma_backoff_monotone(r1: int, r2: int)
    requires
        r1 <= r2,
    ensures
        backoff_delay_ms(r1) <= backoff_delay_ms(r2),
    decreases r2 - r1,
{
    lemma_backoff_bounds(r1);
    lemma_backoff_bounds(r2);
    if r1 < r2 {
        lemma_backoff_monotone(r1, r2 - 1);
        lemma_backoff_bounds(r2 - 1);
        if 0 < r2 < 6 {
            lemma_backoff_doubles(r2 - 1);
        }
    }
}

/// Computes the backoff delay for the given retry count.
pub fn backoff_delay(retries: u32) -> (d: u64)
    ensures
        d == backoff_delay_ms(retries as int),
{
    let mut d: u64 = 100;
    let mut i: u32 = 0;
    while i < retries && i < 6
        invariant
            0 <= i <= 6,
            i <= retries,
            d == backoff_delay_ms(i as int),
            d <= 6400,
        decreases 6 - i,
    {
        proof {
            lemma_backoff_doubles(i as int);
            lemma_backoff_bounds(i as int);
        }
        d = d * 2;
        i = i + 1;
    }
    proof {
        if i < retries {
            assert(i == 6);
            assert(backoff_delay_ms(retries as int) == 6400);
            assert(backoff_delay_ms(6) == 6400);
        }
    }
    d
}

/// The driver of one query. It owns the header set, the request to issue (or
/// re-issue) next, the rows accumulated so far in arrival order, and the
/// count of consecutive 503 responses for the current request.
pub struct Driver {
    pub headers: HeaderBuilder,
    pub request: ApiRequest,
    pub rows: Vec<String>,
    pub retries: u32,
}

/// The driver is well-formed: the request it will issue next carries exactly
/// the encoding of its header set. `start` establishes this and every step
/// that yields a further request preserves it, so each request of one query
/// carries identical headers.
pub open spec fn driver_wf(d: Driver) -> bool {
    d.request.headers.deep_view() == encoded_pairs(d.headers@)
}

/// What the caller must do after handing one response to the driver.
pub enum DriverStep {
    /// Issue the contained driver's request now.
    Continue(Driver),
    /// Wait the given number of milliseconds, then issue the contained
    /// driver's request.
    Backoff(u64, Driver),
    /// The query finished; all accumulated rows, in arrival order.
    Done(Vec<String>),
    /// The query failed with the given error; the rows accumulated before it.
    Failed(ClientError, Vec<String>),
}

impl Driver {
    /// Starts a query: the driver's first request submits the statement.
    pub fn start(base_url: &str, statement: String, headers: HeaderBuilder) -> (d: Driver)
        ensures
            d.request.method == RequestMethod::Post,
            d.request.uri@ == base_url@ + "/v1/statement"@,
            d.request.headers.deep_view() == encoded_pairs(headers@),
            d.request.body@ == statement@,
            d.headers@ == headers@,
            d.rows.deep_view() == Seq::<Seq<char>>::empty(),
            d.retries == 0,
            driver_wf(d),
    {
        let request = PrestoApi::post_statement_request(base_url, statement, &headers);
        let rows: Vec<String> = Vec::new();
        proof {
            assert(rows.deep_view() =~= Seq::<Seq<char>>::empty());
        }
        Driver { headers, request, rows, retries: 0 }
    }

    /// Feeds one response to the driver and returns the next step:
    /// a 200 with a decoded body in which the server reports the query
    /// failed is terminal and never retried, with the server's error text
    /// surfaced; otherwise such a body appends its rows and either follows
    /// the continuation link with the same header set or finishes; a 200
    /// whose body did not decode fails with `Decode`; a 503 re-issues the
    /// same request after a growing backoff until the retry ceiling is
    /// reached; any other status fails with that status. The rows
    /// accumulated before the failing response are returned alongside any
    /// failure.
    pub fn on_response(self, status: u16, decoded: Option<QueryResultsValue>) -> (s: DriverStep)
        ensures
            (status == 200 && decoded is Some) ==> {
                let v = decoded.unwrap();
                match v.error {
                    Some(m) => s == DriverStep::Failed(ClientError::QueryFailed(m), self.rows),
                    None => match v.next_uri {
                        Some(u) => s matches DriverStep::Continue(d) && d.request.method
                            == RequestMethod::Get && d.request.uri@ == u@
                            && d.request.headers.deep_view() == encoded_pairs(self.headers@)
                            && d.request.body@ == Seq::<char>::empty() && d.headers@
                            == self.headers@ && d.rows.deep_view() == self.rows.deep_view()
                            + page_rows(v) && d.retries == 0,
                        None => s matches DriverStep::Done(rows) && rows.deep_view()
                            == self.rows.deep_view() + page_rows(v),
                    },
                }
            },
            (status == 200 && decoded is None) ==> s == DriverStep::Failed(
                ClientError::Decode,
                self.rows,
            ),
            (status == 503 && self.retries < MAX_RETRIES) ==> (s matches DriverStep::Backoff(
                delay,
                d,
            ) && delay == backoff_delay_ms(self.retries as int) && d.request == self.request
                && d.headers == self.headers && d.rows == self.rows && d.retries == self.retries
                + 1),
            (status == 503 && self.retries >= MAX_RETRIES) ==> s == DriverStep::Failed(
                ClientError::RetryExhausted,
                self.rows,
            ),
            (status != 200 && status != 503) ==> s == DriverStep::Failed(
                ClientError::Status(status),
                self.rows,
            ),
            driver_wf(self) ==> match s {
                DriverStep::Continue(d) => driver_wf(d),
                DriverStep::Backoff(_, d) => driver_wf(d),
                _ => true,
            },
    {
        if status == 200 {
            match decoded {
                Some(v) => {
                    let QueryResultsValue { id: _, next_uri, data, state: _, error } = v;
                    if let Some(m) = error {
                        return DriverStep::Failed(ClientError::QueryFailed(m), self.rows);
                    }
                    let mut rows = self.rows;
                    let ghost rows0 = rows.deep_view();
                    match data {
                        Some(mut d) => {
                            let ghost dd = d.deep_view();
                            proof {
                                lemma_deep_view_is_views_of(&rows);
                                lemma_deep_view_is_views_of(&d);
                            }
                            let ghost rs = rows@;
                            let ghost ds = d@;
                            rows.append(&mut d);
                            proof {
                                lemma_views_of_concat(rs, ds);
                                lemma_deep_view_is_views_of(&rows);
                                assert(rows.deep_view() == rows0 + dd);
                            }
                        },
                        None => {
                            proof {
                                assert(rows.deep_view() =~= rows0 + Seq::<Seq<char>>::empty());
                            }
                        },
                    }
                    match next_uri {
                        Some(u) => {
                            let request = PrestoApi::get_results_request(u, &self.headers);
                            DriverStep::Continue(
                                Driver { headers: self.headers, request, rows, retries: 0 },
                            )
                        },
                        None => DriverStep::Done(rows),
                    }
                },
                None => DriverStep::Failed(ClientError::Decode, self.rows),
            }
        } else if status == 503 {
            if self.retries < MAX_RETRIES {
                let delay = backoff_delay(self.retries);
                DriverStep::Backoff(
                    delay,
                    Driver {
                        headers: self.headers,
                        request: self.request,
                        rows: self.rows,
                        retries: self.retries + 1,
                    },
                )
            } else {
                DriverStep::Failed(ClientError::RetryExhausted, self.rows)
            }
        } else {
            DriverStep::Failed(ClientError::Status(status), self.rows)
        }
    }
}

} // verus!
