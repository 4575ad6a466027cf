use rinha::parse::parse_transaction;
use rinha::vectorize::{
    build_lut_13, build_lut_21, build_lut_24, build_lut_7, vectorize, MccRisk, Measures, Tables,
};

fn measures() -> Measures {
    Measures {
        amount: 65,
        installments: 2,
        amount_vs_avg: 800,
        minutes_since_last: 144,
        km_from_last: None,
        km_from_home: 467,
        tx_count_24h: 3,
        merchant_avg: 96,
    }
}

fn tables() -> Tables {
    Tables::new(vec![
        MccRisk { code: b"5411".to_vec(), risk: 2400 },
        MccRisk { code: b"7802".to_vec(), risk: 12000 },
    ])
}

const LEGIT: &[u8] = br#"{"id":"tx","requested_at":"2026-03-11T18:45:53Z","known_merchants":["M"],"merchant":{"id":"M","mcc":"5411"},"is_online":false,"card_present":true,"last_transaction":null}"#;

#[test]
fn every_feature_has_its_place() {
    let tx = parse_transaction(LEGIT).unwrap();
    let v = vectorize(&tx, &measures(), &tables());
    assert_eq!(
        v,
        [65, 2666, 800, 12521, 5333, -16000, -16000, 467, 2400, 0, 16000, 0, 2400, 96, 0, 0]
    );
}

#[test]
fn what_is_there_replaces_the_sentinels() {
    let body = br#"{"id":"tx","requested_at":"2026-03-15T00:00:00Z","timestamp":"2026-03-14T23:00:00Z","merchant":{"id":"M","mcc":"9999"},"is_online":true,"card_present":false}"#;
    let tx = parse_transaction(body).unwrap();
    let mut m = measures();
    m.km_from_last = Some(200);
    m.installments = 99;
    m.tx_count_24h = 99;
    let v = vectorize(&tx, &m, &tables());
    assert_eq!(
        v,
        [65, 16000, 800, 0, 16000, 144, 200, 467, 16000, 16000, 0, 16000, 8000, 96, 0, 0]
    );
}

#[test]
fn the_tables_match_single_precision() {
    let q = |x: f32| -> i16 { (x * 16000.0f32) as i16 };
    for (i, x) in build_lut_13().iter().enumerate() {
        assert_eq!(*x, q(i as f32 / 12.0));
    }
    for (i, x) in build_lut_24().iter().enumerate() {
        assert_eq!(*x, q(i as f32 / 23.0));
    }
    for (i, x) in build_lut_7().iter().enumerate() {
        assert_eq!(*x, q(i as f32 / 6.0));
    }
    for (i, x) in build_lut_21().iter().enumerate() {
        assert_eq!(*x, q(i as f32 / 20.0));
    }
}

#[test]
fn the_tables_have_exact_values() {
    assert_eq!(build_lut_7(), [0, 2666, 5333, 8000, 10666, 13333, 16000]);
    assert_eq!(build_lut_24()[1], 695);
    assert_eq!(build_lut_13()[5], 6666);
    assert_eq!(build_lut_21()[7], 5600);
}

#[test]
fn categories_have_risks() {
    let t = tables();
    assert_eq!(t.mcc_risk(b"5411"), 2400);
    assert_eq!(t.mcc_risk(b"7802"), 12000);
    assert_eq!(t.mcc_risk(b"541"), 8000);
    assert_eq!(t.mcc_risk(b""), 8000);
    let twice = Tables::new(vec![
        MccRisk { code: b"1".to_vec(), risk: 1 },
        MccRisk { code: b"1".to_vec(), risk: 2 },
    ]);
    assert_eq!(twice.mcc_risk(b"1"), 1);
}

#[test]
fn features_stay_on_the_scale() {
    let tx = parse_transaction(LEGIT).unwrap();
    let v = vectorize(&tx, &measures(), &tables());
    for (i, x) in v.iter().enumerate() {
        if i == 5 || i == 6 {
            assert_eq!(*x, -16000);
        } else {
            assert!(0 <= *x && *x <= 16000);
        }
    }
    assert_eq!((v[14], v[15]), (0, 0));
}
