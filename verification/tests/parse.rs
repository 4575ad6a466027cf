use rinha::parse::{
    find_array_start, find_bool, find_number, find_number_nth, find_string_value,
    find_string_value_nth, is_listed, number_slice, parse_transaction, skip_colon_ws,
    slice_contains,
};

fn number(text: Option<&[u8]>) -> f64 {
    lexical_core::parse::<f64>(text.unwrap()).unwrap()
}

const LEGIT: &[u8] = br#"{
            "id": "tx-1329056812",
            "transaction": {"amount": 41.12, "installments": 2, "requested_at": "2026-03-11T18:45:53Z"},
            "customer": {"avg_amount": 82.24, "tx_count_24h": 3, "known_merchants": ["MERC-003", "MERC-016"]},
            "merchant": {"id": "MERC-016", "mcc": "5411", "avg_amount": 60.25},
            "terminal": {"is_online": false, "card_present": true, "km_from_home": 29.23},
            "last_transaction": null
        }"#;

const SECOND: &[u8] = br#"{"id":"tx-2","transaction":{"amount":9505.97,"installments":10,"requested_at":"2026-03-14T05:15:12Z"},"customer":{"avg_amount":81.28,"tx_count_24h":20,"known_merchants":["MERC-008","MERC-007","MERC-005"]},"merchant":{"id":"MERC-068","mcc":"7802","avg_amount":54.86},"terminal":{"is_online":true,"card_present":false,"km_from_home":952.27},"last_transaction":{"timestamp":"2026-03-14T05:02:12Z","km_from_current":12.5}}"#;

#[test]
fn test_legit_example() {
    let body = br#"{
            "id": "tx-1329056812",
            "transaction": {"amount": 41.12, "installments": 2, "requested_at": "2026-03-11T18:45:53Z"},
            "customer": {"avg_amount": 82.24, "tx_count_24h": 3, "known_merchants": ["MERC-003", "MERC-016"]},
            "merchant": {"id": "MERC-016", "mcc": "5411", "avg_amount": 60.25},
            "terminal": {"is_online": false, "card_present": true, "km_from_home": 29.23},
            "last_transaction": null
        }"#;
    let tx = parse_transaction(body).unwrap();
    assert!((number(tx.amount) - 41.12).abs() < 0.01);
    assert_eq!(number(tx.installments) as u32, 2);
    assert_eq!(tx.hour, 18);
    assert!(!tx.unknown_merchant);
    assert!(!tx.is_online);
    assert!(tx.card_present);
    assert!(tx.minutes_since_last.is_none());
}

#[test]
fn the_other_fields_of_the_legit_example() {
    let tx = parse_transaction(LEGIT).unwrap();
    assert_eq!(tx.day_of_week, 2);
    assert_eq!(tx.customer_avg_amount.unwrap(), b"82.24");
    assert_eq!(tx.merchant_avg_amount.unwrap(), b"60.25");
    assert_eq!(tx.tx_count_24h.unwrap(), b"3");
    assert_eq!(tx.km_from_home.unwrap(), b"29.23");
    assert_eq!(&tx.mcc, b"5411\0\0\0\0");
    assert_eq!(tx.mcc_len, 4);
    assert!(tx.km_from_last.is_none());
}

#[test]
fn a_compact_request_with_a_last_transaction() {
    let tx = parse_transaction(SECOND).unwrap();
    assert_eq!(tx.amount.unwrap(), b"9505.97");
    assert_eq!(tx.installments.unwrap(), b"10");
    assert_eq!((tx.hour, tx.day_of_week), (5, 5));
    assert!(tx.unknown_merchant);
    assert!(tx.is_online);
    assert!(!tx.card_present);
    let interval = tx.minutes_since_last.unwrap();
    assert_eq!(interval.to.minutes - interval.from.minutes, 13);
    assert_eq!(tx.km_from_last.unwrap(), b"12.5");
}

#[test]
fn missing_fields_take_defaults() {
    let tx = parse_transaction(b"{}").unwrap();
    assert!(tx.amount.is_none());
    assert!(tx.installments.is_none());
    assert_eq!((tx.hour, tx.day_of_week), (0, 0));
    assert!(!tx.unknown_merchant);
    assert_eq!(tx.mcc_len, 0);
    assert_eq!(tx.mcc, [0; 8]);
    assert!(!tx.is_online);
    assert!(tx.card_present);
    assert!(tx.minutes_since_last.is_none());
    assert!(tx.km_from_last.is_none());
}

#[test]
fn a_merchant_without_a_list_is_unknown() {
    let tx = parse_transaction(br#"{"id":"a","merchant":{"id":"b"}}"#).unwrap();
    assert!(tx.unknown_merchant);
    let tx = parse_transaction(br#"{"id":"a","merchant":{"id":"b"},"known_merchants":["b"]}"#).unwrap();
    assert!(!tx.unknown_merchant);
}

#[test]
fn a_merchant_is_known_by_its_whole_id() {
    let body = br#"{"id":"t1","customer":{"known_merchants":["MERC-016"]},"merchant":{"id":"MERC-01"}}"#;
    assert!(parse_transaction(body).unwrap().unknown_merchant);
    let body = br#"{"id":"t1","known_merchants":["MERC-016"],"merchant":{"id":""}}"#;
    assert!(parse_transaction(body).unwrap().unknown_merchant);
    let body = br#"{"id":"t1","known_merchants":["a", "b"],"merchant":{"id":"b"}}"#;
    assert!(!parse_transaction(body).unwrap().unknown_merchant);
}

#[test]
fn strings_of_an_array_are_read_one_after_the_other() {
    let known = br#""a", "bc","","d"#;
    assert!(is_listed(known, b"a"));
    assert!(is_listed(known, b"bc"));
    assert!(is_listed(known, b""));
    // Between two strings, in part of one, and in one that does not end.
    assert!(!is_listed(known, b", "));
    assert!(!is_listed(known, b","));
    assert!(!is_listed(known, b"b"));
    assert!(!is_listed(known, b"d"));
    assert!(!is_listed(b"", b""));
}

#[test]
fn long_category_codes_are_cut_off() {
    let tx = parse_transaction(br#"{"mcc":"0123456789"}"#).unwrap();
    assert_eq!(&tx.mcc, b"01234567");
    assert_eq!(tx.mcc_len, 8);
}

#[test]
fn null_is_seen_with_any_spacing() {
    let tail = br#""requested_at":"2026-03-14T05:15:12Z","timestamp":"2026-03-14T05:02:12Z","km_from_current":1}"#;
    let heads: [&[u8]; 6] = [
        b"{\"last_transaction\":null,",
        b"{\"last_transaction\": null,",
        b"{\"last_transaction\":  null,",
        b"{\"last_transaction\" :\tnull,",
        b"{\"last_transaction\":\r\n null,",
        b"{\"note\":\"last_transaction\",\"last_transaction\":null,",
    ];
    for head in heads {
        let body = [head, &tail[..]].concat();
        let tx = parse_transaction(&body).unwrap();
        assert!(tx.minutes_since_last.is_none());
        assert!(tx.km_from_last.is_none());
    }
    for head in [&b"{\"last_transaction\":{},"[..], &b"{\"note\":null,"[..]] {
        let body = [head, &tail[..]].concat();
        let tx = parse_transaction(&body).unwrap();
        assert!(tx.minutes_since_last.is_some());
        assert!(tx.km_from_last.is_some());
    }
}

#[test]
fn malformed_timestamps_are_refused() {
    assert!(parse_transaction(LEGIT).is_ok());
    assert!(parse_transaction(SECOND).is_ok());
    assert!(parse_transaction(br#"{"requested_at":"2026-99-11T18:45:53Z"}"#).is_err());
    assert!(parse_transaction(br#"{"requested_at":"2026-03-11T1!:45:53Z"}"#).is_err());
    assert!(parse_transaction(br#"{"requested_at":"2026-03-11T18:45"}"#).is_ok());
    let bad_last = br#"{"requested_at":"2026-03-11T18:45:53Z","timestamp":"2026-03-11T18:45:!!Z"}"#;
    assert!(parse_transaction(bad_last).is_err());
    let no_last = br#"{"requested_at":"2026-03-11T18:45:53Z","timestamp":"2026-03-11T18:45:!!Z","last_transaction":null}"#;
    assert!(parse_transaction(no_last).is_ok());
}

#[test]
fn hours_and_weekdays_that_there_are_not_are_refused() {
    assert!(parse_transaction(br#"{"requested_at":"2026-03-11T99:00:00Z"}"#).is_err());
    assert!(parse_transaction(br#"{"requested_at":"2026-03-11T24:00:00Z"}"#).is_err());
    assert_eq!(parse_transaction(br#"{"requested_at":"2026-03-11T23:00:00Z"}"#).unwrap().hour, 23);
    assert!(parse_transaction(br#"{"requested_at":"0000-01-00T00:00:00Z"}"#).is_err());
    let tx = parse_transaction(br#"{"requested_at":"2026-03-15T00:00:00Z"}"#).unwrap();
    assert_eq!(tx.day_of_week, 6);
}

#[test]
fn values_follow_their_keys() {
    assert_eq!(skip_colon_ws(b" \t:\r\n 1"), Some(&b"1"[..]));
    assert_eq!(skip_colon_ws(b"1"), Some(&b"1"[..]));
    assert_eq!(skip_colon_ws(b"::1"), Some(&b":1"[..]));
    assert_eq!(skip_colon_ws(b" : "), None);
    assert_eq!(skip_colon_ws(b""), None);
}

#[test]
fn numbers_are_found() {
    let text = br#"{"a":1,"b":{"a": -2.5e3},"a" 7]"#;
    assert_eq!(find_number(text, b"\"a\""), Some(&b"1"[..]));
    assert_eq!(find_number_nth(text, b"\"a\"", 2), Some(&b"-2.5e3"[..]));
    assert_eq!(find_number_nth(text, b"\"a\"", 3), Some(&b"7"[..]));
    assert_eq!(find_number_nth(text, b"\"a\"", 4), None);
    assert_eq!(find_number_nth(text, b"\"a\"", 0), None);
    assert_eq!(find_number(text, b"\"c\""), None);
    assert_eq!(find_number(br#"{"a":"#, b"\"a\""), None);
    assert_eq!(number_slice(b"12,3"), b"12");
    assert_eq!(number_slice(b"12"), b"12");
    assert_eq!(number_slice(b"}"), b"");
}

#[test]
fn truth_values_are_found() {
    let text = br#"{"a":true,"b" : false,"c":1,"d":null}"#;
    assert_eq!(find_bool(text, b"\"a\""), Some(true));
    assert_eq!(find_bool(text, b"\"b\""), Some(false));
    assert_eq!(find_bool(text, b"\"c\""), None);
    assert_eq!(find_bool(text, b"\"e\""), None);
}

#[test]
fn strings_are_found() {
    let text = br#"{"id":"x","n":{"id":5},"m":{"id" : "y"},"id":"z}"#;
    assert_eq!(find_string_value(text, b"\"id\""), Some(&b"x"[..]));
    assert_eq!(find_string_value_nth(text, b"\"id\"", 2), Some(&b"y"[..]));
    assert_eq!(find_string_value_nth(text, b"\"id\"", 3), None);
    assert_eq!(find_string_value(text, b"\"q\""), None);
}

#[test]
fn arrays_are_found() {
    assert_eq!(find_array_start(br#"{"k": ["a","b"]}"#, b"\"k\""), Some(&br#""a","b""#[..]));
    assert_eq!(find_array_start(br#"{"k":[]}"#, b"\"k\""), Some(&b""[..]));
    assert_eq!(find_array_start(br#"{"k":["a""#, b"\"k\""), None);
    assert_eq!(find_array_start(br#"{"k":{}}"#, b"\"k\""), None);
}

#[test]
fn parts_are_found() {
    assert!(slice_contains(b"abcabd", b"abd"));
    assert!(!slice_contains(b"abcabd", b"abe"));
    assert!(slice_contains(b"", b""));
    assert!(slice_contains(b"x", b""));
    let long = [&[b'.'; 200][..], b"needle"].concat();
    assert!(slice_contains(&long, b"needle"));
    assert!(!slice_contains(&long[..205], b"needle"));
}
