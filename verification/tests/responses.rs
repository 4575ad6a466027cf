use rinha::builder::{write_empty_index, write_index};
use rinha::index::IvfIndex;
use rinha::parse::parse_transaction;
use rinha::recall::Tally;
use rinha::responses::{
    approves, fraud_score_handler, is_reported, not_found_resp, ready_resp, route, score_request,
    score_resp, Route,
};
use rinha::vectorize::{vectorize, MccRisk, Measures, Tables};

#[test]
fn scores_go_with_counts() {
    let bodies: Vec<&str> = (0..6).map(|n| score_resp(n).body).collect();
    assert_eq!(
        bodies,
        vec![
            "{\"approved\":true,\"fraud_score\":0.0}",
            "{\"approved\":true,\"fraud_score\":0.2}",
            "{\"approved\":true,\"fraud_score\":0.4}",
            "{\"approved\":false,\"fraud_score\":0.6}",
            "{\"approved\":false,\"fraud_score\":0.8}",
            "{\"approved\":false,\"fraud_score\":1.0}",
        ]
    );
    assert_eq!(score_resp(200).body, score_resp(5).body);
}

#[test]
fn bodies_approve_below_three() {
    for n in 0..6u8 {
        assert_eq!(score_resp(n).body.contains("\"approved\":true"), approves(n));
    }
    assert!(approves(2));
    assert!(!approves(3));
}

#[test]
fn lengths_are_those_of_the_bodies() {
    for n in 0..6 {
        let reply = score_resp(n);
        assert_eq!(reply.content_length.parse::<usize>().unwrap(), reply.body.len());
        assert_eq!(reply.status, 200);
        assert_eq!(reply.content_type, Some("application/json"));
        assert!(reply.keep_alive);
    }
}

#[test]
fn requests_are_routed() {
    assert_eq!(route(b"GET", b"/ready"), Route::Ready);
    assert_eq!(route(b"POST", b"/fraud-score"), Route::FraudScore);
    assert_eq!(route(b"POST", b"/ready"), Route::NotFound);
    assert_eq!(route(b"GET", b"/fraud-score"), Route::NotFound);
    assert_eq!(route(b"GET", b"/ready/"), Route::NotFound);
}

#[test]
fn other_replies() {
    let ready = ready_resp();
    assert_eq!((ready.status, ready.content_length, ready.body), (200, "2", "OK"));
    assert!(ready.keep_alive);
    let missing = not_found_resp();
    assert_eq!((missing.status, missing.content_length, missing.body), (404, "0", ""));
    assert!(!missing.keep_alive);
}

#[test]
fn an_unreadable_request_is_approved() {
    let data: &'static [u8] = Box::leak(write_empty_index().into_boxed_slice());
    let index = IvfIndex::from_static_bytes(data);
    let reply = fraud_score_handler(&index, Err(()), 50);
    assert_eq!(reply.body, "{\"approved\":true,\"fraud_score\":0.0}");
}

#[test]
fn wrong_decisions_are_weighed() {
    let mut tally = Tally::new();
    tally.record(5, true);
    tally.record(0, false);
    tally.record(2, false);
    tally.record(3, false);
    tally.record(1, true);
    assert_eq!((tally.false_positives, tally.false_negatives), (1, 2));
    assert_eq!(tally.error(), 7);
}

#[test]
fn a_peer_that_went_away_is_not_reported() {
    assert!(!is_reported(b"connection closed before message completed"));
    assert!(!is_reported(b"Connection reset by peer (os error 104)"));
    assert!(is_reported(b"invalid HTTP method parsed"));
    assert!(is_reported(b""));
}

#[test]
fn a_request_is_scored_by_its_vector() {
    let body = br#"{"id":"tx","requested_at":"2026-03-11T18:45:53Z","merchant":{"id":"M","mcc":"5411"},"is_online":true,"last_transaction":null}"#;
    let tx = parse_transaction(body).unwrap();
    let m = Measures {
        amount: 65,
        installments: 2,
        amount_vs_avg: 800,
        minutes_since_last: 0,
        km_from_last: None,
        km_from_home: 467,
        tx_count_24h: 3,
        merchant_avg: 96,
    };
    let tables = Tables::new(vec![MccRisk { code: b"5411".to_vec(), risk: 2400 }]);
    let own = vectorize(&tx, &m, &tables);
    assert_eq!(own[12], 2400);
    // Four frauds where the request lies; five others far away, round the origin.
    let mut vectors = vec![own; 4];
    vectors.extend((0..5).map(|i| [i; 16]));
    let labels = vec![1, 1, 1, 1, 0, 0, 0, 0, 0];
    let order: Vec<usize> = (0..9).collect();
    let bytes = write_index(&[own, [0; 16]], &vec![0, 4, 9], &vectors, &labels, &order);
    let index = IvfIndex::from_static_bytes(Box::leak(bytes.into_boxed_slice()));
    let reply = score_request(&index, Ok((&tx, &m)), &tables, 2);
    assert_eq!(reply.body, "{\"approved\":false,\"fraud_score\":0.8}");
    assert_eq!(reply.body, fraud_score_handler(&index, Ok(own), 2).body);
    let refused = score_request(&index, Err(()), &tables, 2);
    assert_eq!(refused.body, "{\"approved\":true,\"fraud_score\":0.0}");
}
