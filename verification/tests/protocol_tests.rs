use presto_client::headers::{HeaderBuilder, HeaderField};
use presto_client::protocol::{
    backoff_delay, ApiRequest, ClientError, Driver, DriverStep, PrestoApi, QueryResultsValue,
    RequestMethod,
};

fn user_headers() -> HeaderBuilder {
    HeaderBuilder::new().add_header(HeaderField::User("tester".to_string()))
}

fn page(next_uri: Option<&str>, rows: Vec<&str>) -> QueryResultsValue {
    QueryResultsValue {
        id: "q1".to_string(),
        next_uri: next_uri.map(|u| u.to_string()),
        data: if rows.is_empty() {
            None
        } else {
            Some(rows.into_iter().map(|r| r.to_string()).collect())
        },
        state: None,
        error: None,
    }
}

#[test]
fn post_statement_request_shape() {
    let headers = user_headers();
    let r = PrestoApi::post_statement_request("http://host:8080", "SELECT 1".to_string(), &headers);
    assert_eq!(r.method, RequestMethod::Post);
    assert_eq!(r.uri, "http://host:8080/v1/statement");
    assert_eq!(r.body, "SELECT 1");
    assert_eq!(
        r.headers,
        vec![("X-Trino-User".to_string(), "tester".to_string())]
    );
}

#[test]
fn get_results_request_shape() {
    let headers = user_headers();
    let r = PrestoApi::get_results_request("http://host/v1/statement/q1/1".to_string(), &headers);
    assert_eq!(r.method, RequestMethod::Get);
    assert_eq!(r.uri, "http://host/v1/statement/q1/1");
    assert_eq!(r.body, "");
    assert_eq!(
        r.headers,
        vec![("X-Trino-User".to_string(), "tester".to_string())]
    );
}

#[test]
fn parse_response_classifies() {
    let ok = PrestoApi::parse_response(200, Some(page(None, vec!["[1]"])));
    assert!(ok.is_ok());
    assert_eq!(ok.unwrap().id, "q1");

    let decode = PrestoApi::parse_response(200, None);
    assert_eq!(decode.unwrap_err(), ClientError::Decode);

    let bad = PrestoApi::parse_response(400, None);
    assert_eq!(bad.unwrap_err(), ClientError::Status(400));

    assert_eq!(ClientError::from_status_code(418), ClientError::Status(418));
    assert_ne!(ClientError::Transport, ClientError::Status(418));
}

#[test]
fn backoff_doubles_then_caps() {
    assert_eq!(backoff_delay(0), 100);
    assert_eq!(backoff_delay(1), 200);
    assert_eq!(backoff_delay(2), 400);
    assert_eq!(backoff_delay(3), 800);
    assert_eq!(backoff_delay(4), 1600);
    assert_eq!(backoff_delay(5), 3200);
    assert_eq!(backoff_delay(6), 6400);
    assert_eq!(backoff_delay(7), 6400);
    assert_eq!(backoff_delay(100), 6400);
}

fn assert_same_request(a: &ApiRequest, b: &ApiRequest) {
    assert_eq!(a.method, b.method);
    assert_eq!(a.uri, b.uri);
    assert_eq!(a.headers, b.headers);
    assert_eq!(a.body, b.body);
}

#[test]
fn polling_stops_when_continuation_is_absent() {
    // Three 200 responses; the last has no continuation. One request per
    // response, pages accumulated in order.
    let d = Driver::start("http://host", "SELECT x".to_string(), user_headers());
    let mut requests = 1; // the submission itself

    let step = d.on_response(200, Some(page(Some("http://host/q1/1"), vec!["[1]"])));
    let d = match step {
        DriverStep::Continue(d) => {
            requests += 1;
            assert_eq!(d.request.uri, "http://host/q1/1");
            d
        }
        _ => panic!("expected a continuation"),
    };

    let step = d.on_response(200, Some(page(Some("http://host/q1/2"), vec!["[2]", "[3]"])));
    let d = match step {
        DriverStep::Continue(d) => {
            requests += 1;
            assert_eq!(d.request.uri, "http://host/q1/2");
            d
        }
        _ => panic!("expected a continuation"),
    };

    let step = d.on_response(200, Some(page(None, vec!["[4]"])));
    match step {
        DriverStep::Done(rows) => {
            assert_eq!(rows, vec!["[1]", "[2]", "[3]", "[4]"]);
        }
        _ => panic!("expected completion"),
    }
    assert_eq!(requests, 3);
}

#[test]
fn service_unavailable_is_retried_with_growing_backoff() {
    let d = Driver::start("http://host", "SELECT 1".to_string(), user_headers());
    let first_request = PrestoApi::post_statement_request(
        "http://host",
        "SELECT 1".to_string(),
        &user_headers(),
    );

    let step = d.on_response(503, None);
    let (delay1, d) = match step {
        DriverStep::Backoff(delay, d) => (delay, d),
        _ => panic!("expected a backoff"),
    };
    assert_same_request(&d.request, &first_request);

    let step = d.on_response(503, None);
    let (delay2, d) = match step {
        DriverStep::Backoff(delay, d) => (delay, d),
        _ => panic!("expected a backoff"),
    };
    assert_same_request(&d.request, &first_request);
    assert!(delay2 > delay1);
    assert_eq!(delay1, 100);
    assert_eq!(delay2, 200);

    let step = d.on_response(200, Some(page(None, vec!["[9]"])));
    match step {
        DriverStep::Done(rows) => assert_eq!(rows, vec!["[9]"]),
        _ => panic!("expected completion"),
    }
}

#[test]
fn retries_are_bounded() {
    let mut d = Driver::start("http://host", "SELECT 1".to_string(), user_headers());
    let mut backoffs = 0;
    loop {
        match d.on_response(503, None) {
            DriverStep::Backoff(_, next) => {
                backoffs += 1;
                d = next;
            }
            DriverStep::Failed(e, rows) => {
                assert_eq!(e, ClientError::RetryExhausted);
                assert!(rows.is_empty());
                break;
            }
            _ => panic!("unexpected step"),
        }
        assert!(backoffs <= 10);
    }
    assert_eq!(backoffs, 10);
}

#[test]
fn other_status_fails_immediately() {
    let d = Driver::start("http://host", "SELECT 1".to_string(), user_headers());
    match d.on_response(400, None) {
        DriverStep::Failed(e, rows) => {
            assert_eq!(e, ClientError::Status(400));
            assert!(rows.is_empty());
        }
        _ => panic!("expected failure"),
    }
}

#[test]
fn malformed_body_fails_with_decode_error() {
    let d = Driver::start("http://host", "SELECT 1".to_string(), user_headers());
    let step = d.on_response(200, Some(page(Some("http://host/q1/1"), vec!["[1]"])));
    let d = match step {
        DriverStep::Continue(d) => d,
        _ => panic!("expected a continuation"),
    };
    match d.on_response(200, None) {
        DriverStep::Failed(e, rows) => {
            assert_eq!(e, ClientError::Decode);
            // Rows gathered before the failure are kept.
            assert_eq!(rows, vec!["[1]"]);
        }
        _ => panic!("expected failure"),
    }
}

#[test]
fn end_to_end_select_one() {
    let d = Driver::start("http://host", "SELECT 1".to_string(), user_headers());
    assert_eq!(d.request.method, RequestMethod::Post);
    assert_eq!(d.request.uri, "http://host/v1/statement");
    assert_eq!(d.request.body, "SELECT 1");
    let first_headers = d.request.headers.clone();
    let mut requests = 1;

    let step = d.on_response(
        200,
        Some(QueryResultsValue {
            id: "q1".to_string(),
            next_uri: Some("http://host/v1/statement/q1/1".to_string()),
            data: None,
            state: Some("RUNNING".to_string()),
            error: None,
        }),
    );
    let d = match step {
        DriverStep::Continue(d) => {
            requests += 1;
            d
        }
        _ => panic!("expected a continuation"),
    };
    assert_eq!(d.request.method, RequestMethod::Get);
    assert_eq!(d.request.uri, "http://host/v1/statement/q1/1");
    assert_eq!(d.request.headers, first_headers);

    let step = d.on_response(
        200,
        Some(QueryResultsValue {
            id: "q1".to_string(),
            next_uri: None,
            data: Some(vec!["[1]".to_string()]),
            state: Some("FINISHED".to_string()),
            error: None,
        }),
    );
    match step {
        DriverStep::Done(rows) => assert_eq!(rows, vec!["[1]"]),
        _ => panic!("expected completion"),
    }
    assert_eq!(requests, 2);
}

#[test]
fn server_reported_failure_is_terminal() {
    let d = Driver::start("http://host", "SELECT bad".to_string(), user_headers());
    let step = d.on_response(200, Some(page(Some("http://host/q1/1"), vec!["[1]"])));
    let d = match step {
        DriverStep::Continue(d) => d,
        _ => panic!("expected a continuation"),
    };
    // A decoded 200 body in which the server reports failure ends the query,
    // even though a continuation link is present; rows gathered before the
    // failing response are kept.
    let failed = QueryResultsValue {
        id: "q1".to_string(),
        next_uri: Some("http://host/q1/2".to_string()),
        data: None,
        state: Some("FAILED".to_string()),
        error: Some("division by zero".to_string()),
    };
    match d.on_response(200, Some(failed)) {
        DriverStep::Failed(e, rows) => {
            assert_eq!(e, ClientError::QueryFailed("division by zero".to_string()));
            assert_eq!(rows, vec!["[1]"]);
        }
        _ => panic!("expected failure"),
    }
}
