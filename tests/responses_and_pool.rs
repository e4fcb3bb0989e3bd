use demo_http_server::http_response::push_decimal;
use demo_http_server::{
    dispatch, fibonacci, find_route, Dispatch, HttpCode, HttpResponse, HttpVerb, ParseError,
    PoolCreationError, PoolState, ShutdownStep, WorkerStep,
};

fn response(code: HttpCode, body: &str) -> Vec<u8> {
    HttpResponse {
        code,
        body: body.to_string(),
    }
    .to_bytes()
}

#[test]
fn response_format_is_exact() {
    assert_eq!(
        response(HttpCode::Okay, "hello"),
        b"HTTP/1.1 200 OK\r\nContent-Length: 5\r\n\r\nhello".to_vec()
    );
    assert_eq!(
        response(HttpCode::NotFound, ""),
        b"HTTP/1.1 404 NOT FOUND\r\nContent-Length: 0\r\n\r\n".to_vec()
    );
    assert_eq!(
        response(HttpCode::BadRequest, "Bad Request"),
        b"HTTP/1.1 400 BAD REQUEST\r\nContent-Length: 11\r\n\r\nBad Request".to_vec()
    );
}

#[test]
fn response_length_counts_bytes() {
    assert_eq!(
        response(HttpCode::Okay, "\u{e9}"),
        b"HTTP/1.1 200 OK\r\nContent-Length: 2\r\n\r\n\xc3\xa9".to_vec()
    );
}

#[test]
fn status_numbers() {
    assert_eq!(HttpCode::Okay.number(), 200);
    assert_eq!(HttpCode::NotFound.number(), 404);
    assert_eq!(HttpCode::BadRequest.number(), 400);
}

#[test]
fn decimals_have_no_leading_zeros() {
    for (n, want) in [(0usize, "0"), (7, "7"), (10, "10"), (12345, "12345")] {
        let mut out = b"x".to_vec();
        push_decimal(n, &mut out);
        let mut expected = b"x".to_vec();
        expected.extend_from_slice(want.as_bytes());
        assert_eq!(out, expected);
    }
}

fn routes() -> Vec<(HttpVerb, String)> {
    vec![
        (HttpVerb::Get, "/".to_string()),
        (HttpVerb::Get, "/sleep".to_string()),
        (HttpVerb::Post, "/".to_string()),
    ]
}

#[test]
fn routes_match_verb_and_path_exactly() {
    let r = routes();
    assert_eq!(find_route(&r, HttpVerb::Get, &"/".to_string()), Some(0));
    assert_eq!(find_route(&r, HttpVerb::Post, &"/".to_string()), Some(2));
    assert_eq!(find_route(&r, HttpVerb::Put, &"/".to_string()), None);
    assert_eq!(find_route(&r, HttpVerb::Get, &"/sleep/".to_string()), None);
}

#[test]
fn known_route_answers_ok() {
    match dispatch(b"GET / HTTP/1.1\r\nHost: x\r\n\r\n", &routes()) {
        Dispatch::Handle(i, request) => {
            assert_eq!(i, 0);
            assert_eq!(request.header("Host").unwrap(), "x");
        }
        other => panic!("expected a handler, got {:?}", other),
    }
    assert!(response(HttpCode::Okay, "<html></html>").starts_with(b"HTTP/1.1 200 OK"));
}

#[test]
fn missing_route_answers_not_found() {
    match dispatch(b"GET /missing HTTP/1.1\r\n\r\n", &routes()) {
        Dispatch::NotFound(request) => assert_eq!(request.path, "/missing"),
        other => panic!("expected not found, got {:?}", other),
    }
    assert!(response(HttpCode::NotFound, "").starts_with(b"HTTP/1.1 404 NOT FOUND"));
}

#[test]
fn unreadable_requests_answer_bad_request() {
    match dispatch(b"BAD / HTTP/1.1\r\n\r\n", &routes()) {
        Dispatch::BadRequest(e) => assert_eq!(e, ParseError::InvalidVerb),
        other => panic!("expected bad request, got {:?}", other),
    }
    match dispatch(b"GET / HTTP/1.1\r\nContent-Length: 5\r\n\r\nabc", &routes()) {
        Dispatch::BadRequest(e) => assert_eq!(e, ParseError::TruncatedBody),
        other => panic!("expected bad request, got {:?}", other),
    }
    assert!(response(HttpCode::BadRequest, "").starts_with(b"HTTP/1.1 400 BAD REQUEST"));
}

#[test]
fn pool_of_no_workers_is_refused() {
    assert_eq!(PoolState::new(0).err(), Some(PoolCreationError::NonPositiveSize));
}

#[test]
fn shutting_down_twice_joins_once() {
    let mut pool = PoolState::new(3).unwrap();
    assert_eq!(pool.shutdown(), ShutdownStep::JoinWorkers);
    assert_eq!(pool.shutdown(), ShutdownStep::AlreadyShutDown);
    assert!(!pool.is_open());
    assert_eq!(pool.submit(), None);
    for w in 0..3 {
        assert_eq!(pool.next_job(w), WorkerStep::Exit);
    }
    assert_eq!(pool.shutdown(), ShutdownStep::AlreadyShutDown);
}

#[test]
fn no_more_jobs_run_than_workers() {
    let k = 2;
    let n = 5;
    let mut pool = PoolState::new(k).unwrap();
    let ids: Vec<u64> = (0..n).map(|_| pool.submit().unwrap()).collect();
    assert_eq!(ids, vec![0, 1, 2, 3, 4]);

    let mut finished = 0;
    let mut order = Vec::new();
    while finished < n {
        // Every idle worker asks for work; none may hold more than one job.
        for w in 0..k {
            if pool.is_idle(w) {
                if let WorkerStep::Run(id) = pool.next_job(w) {
                    order.push(id);
                }
            }
        }
        let running = (0..k).filter(|&w| pool.is_busy(w)).count();
        assert!(running <= k);
        // Release the running jobs.
        for w in 0..k {
            if pool.is_busy(w) {
                pool.finish_job(w);
                finished += 1;
            }
        }
    }
    assert_eq!(order, vec![0, 1, 2, 3, 4]);
    assert_eq!(pool.next_job(0), WorkerStep::Wait);
    assert_eq!(pool.shutdown(), ShutdownStep::JoinWorkers);
    assert_eq!(pool.next_job(0), WorkerStep::Exit);
    assert_eq!(pool.next_job(1), WorkerStep::Exit);
}

#[test]
fn queued_jobs_drain_after_shutdown() {
    let mut pool = PoolState::new(1).unwrap();
    let a = pool.submit().unwrap();
    let b = pool.submit().unwrap();
    assert_eq!(pool.shutdown(), ShutdownStep::JoinWorkers);
    assert_eq!(pool.next_job(0), WorkerStep::Run(a));
    pool.finish_job(0);
    assert_eq!(pool.next_job(0), WorkerStep::Run(b));
    pool.finish_job(0);
    assert_eq!(pool.next_job(0), WorkerStep::Exit);
    assert_eq!(pool.size(), 1);
}

#[test]
fn fibonacci_walk_values() {
    assert_eq!(fibonacci(0), (0, 1));
    assert_eq!(fibonacci(-3), (0, 1));
    assert_eq!(fibonacci(1), (1, 1));
    assert_eq!(fibonacci(10), (55, 89));
    assert_eq!(
        fibonacci(183),
        (
            78569350599398894027251472817058687522,
            127127879743834334146972278486287885163
        )
    );
    assert_eq!(fibonacci(184), (0, 1));
    assert_eq!(fibonacci(185), (1, 1));
}

#[test]
fn fixed_answers() {
    let bad = HttpResponse::bad_request();
    assert_eq!(bad.code, HttpCode::BadRequest);
    assert_eq!(bad.body, "Bad Request");
    assert_eq!(
        bad.to_bytes(),
        b"HTTP/1.1 400 BAD REQUEST\r\nContent-Length: 11\r\n\r\nBad Request".to_vec()
    );
    let missing = HttpResponse::not_found("gone".to_string());
    assert_eq!(missing.code, HttpCode::NotFound);
    assert_eq!(missing.body, "gone");
}
