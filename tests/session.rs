use loco_sessions::codec::{decode, encode, DecodeError, SessionValue, ValueKind};
use loco_sessions::cookie_map::{CookieMap, CookieMapError, DEFAULT_MAX_SIZE};
use loco_sessions::driver::{
    store_read, Driver, DriverError, Hydration, OpKind, Request, Step, StoreAction, StoreError,
    StoreHandle,
};
use loco_sessions::transport::{from_hex, seal, tag_matches, to_hex, unseal, Protection};

fn int_value(i: i64) -> SessionValue {
    SessionValue::Int(i)
}

fn text(s: &str) -> SessionValue {
    SessionValue::Text(s.to_string())
}

fn key() -> Protection {
    Protection::Signed(b"a key that only the server knows".to_vec())
}

#[test]
fn encode_exact_bytes() {
    assert_eq!(encode(&int_value(42)), vec![1, 0, 0, 0, 0, 0, 0, 0, 42]);
    assert_eq!(encode(&int_value(-1)), vec![1, 255, 255, 255, 255, 255, 255, 255, 255]);
    assert_eq!(encode(&SessionValue::Bool(true)), vec![0, 1]);
    assert_eq!(encode(&text("hé")), vec![2, 104, 195, 169]);
}

#[test]
fn decode_round_trip_each_kind() {
    for v in [int_value(0), int_value(42), int_value(i64::MIN), int_value(i64::MAX), SessionValue::Bool(false), text(""), text("héllo; wörld")] {
        let b = encode(&v);
        assert_eq!(decode(&b, v.kind()), Ok(v.clone()));
    }
}

#[test]
fn decode_errors() {
    assert_eq!(decode(&encode(&int_value(7)), ValueKind::Text), Err(DecodeError::WrongKind));
    assert_eq!(decode(&[], ValueKind::Int), Err(DecodeError::Malformed));
    assert_eq!(decode(&[9, 1], ValueKind::Bool), Err(DecodeError::Malformed));
    assert_eq!(decode(&[0, 2], ValueKind::Bool), Err(DecodeError::Malformed));
    assert_eq!(decode(&[1, 0, 0], ValueKind::Int), Err(DecodeError::Malformed));
    assert_eq!(decode(&[2, 0xff, 0xfe], ValueKind::Text), Err(DecodeError::Malformed));
}

#[test]
fn map_tracks_reference_mapping() {
    let mut m = CookieMap::new(DEFAULT_MAX_SIZE);
    let mut reference: std::collections::BTreeMap<String, i64> = std::collections::BTreeMap::new();
    let ops: Vec<(u8, &str, i64)> = vec![
        (0, "a", 1),
        (0, "b", 2),
        (0, "a", 3),
        (1, "b", 0),
        (1, "zz", 0),
        (0, "c", -4),
        (2, "", 0),
        (0, "d", 5),
    ];
    for (op, k, v) in ops {
        match op {
            0 => {
                assert!(m.insert(k, &int_value(v)).is_ok());
                reference.insert(k.to_string(), v);
            }
            1 => {
                let got = m.remove(k, ValueKind::Int).unwrap();
                assert_eq!(got, reference.remove(k).map(int_value));
            }
            _ => {
                m.clear();
                reference.clear();
            }
        }
        for probe in ["a", "b", "c", "d", "zz"] {
            assert_eq!(m.get(probe, ValueKind::Int).unwrap(), reference.get(probe).copied().map(int_value));
        }
        assert_eq!(m.len(), reference.len());
    }
}

#[test]
fn replacing_keeps_position() {
    let mut m = CookieMap::new(DEFAULT_MAX_SIZE);
    m.insert("a", &int_value(1)).unwrap();
    m.insert("b", &int_value(2)).unwrap();
    m.insert("a", &int_value(3)).unwrap();
    let bytes = m.to_bytes();
    assert_eq!(&bytes[0..5], &[0, 0, 0, 1, b'a']);
    assert_eq!(bytes[17], 3);
}

#[test]
fn serialized_form_is_exact() {
    let mut m = CookieMap::new(DEFAULT_MAX_SIZE);
    m.insert("a", &int_value(1)).unwrap();
    assert_eq!(m.to_bytes(), vec![0, 0, 0, 1, 97, 0, 0, 0, 9, 1, 0, 0, 0, 0, 0, 0, 0, 1]);
    assert_eq!(m.total_size(), 18);
}

#[test]
fn bytes_round_trip() {
    let mut m = CookieMap::new(100);
    m.insert("user", &text("ada;=,\"")).unwrap();
    m.insert("n", &int_value(-9)).unwrap();
    m.insert("ok", &SessionValue::Bool(true)).unwrap();
    let back = CookieMap::from_bytes(&m.to_bytes(), 100).unwrap();
    assert_eq!(back.to_bytes(), m.to_bytes());
    assert_eq!(back.get("user", ValueKind::Text).unwrap(), Some(text("ada;=,\"")));
}

#[test]
fn from_bytes_rejects_bad_input() {
    let one = vec![0, 0, 0, 1, 97, 0, 0, 0, 2, 0, 1];
    assert!(CookieMap::from_bytes(&one, 100).is_some());
    let mut twice = one.clone();
    twice.extend_from_slice(&one);
    assert!(CookieMap::from_bytes(&twice, 100).is_none());
    assert!(CookieMap::from_bytes(&one[..7], 100).is_none());
    assert!(CookieMap::from_bytes(&one, 10).is_none());
    assert!(CookieMap::from_bytes(&[0, 0, 0, 1, 0xff, 0, 0, 0, 0], 100).is_none());
    assert_eq!(CookieMap::from_bytes(&[], 100).unwrap().len(), 0);
}

#[test]
fn size_limit_is_inclusive() {
    let mut exact = CookieMap::new(36);
    assert_eq!(exact.insert("a", &int_value(1)), Ok(()));
    assert_eq!(exact.insert("b", &int_value(2)), Ok(()));
    assert_eq!(exact.total_size(), 36);
    assert_eq!(exact.insert("a", &int_value(7)), Ok(()));
    assert_eq!(exact.insert("c", &int_value(3)), Err(CookieMapError::TooLarge));
    assert_eq!(exact.len(), 2);
    assert_eq!(exact.get("c", ValueKind::Int), Ok(None));
    assert_eq!(exact.insert("a", &text("longer than before")), Err(CookieMapError::TooLarge));
    assert_eq!(exact.get("a", ValueKind::Int), Ok(Some(int_value(7))));
    let mut small = CookieMap::new(17);
    assert_eq!(small.insert("a", &int_value(1)), Err(CookieMapError::TooLarge));
}

#[test]
fn type_mismatch_is_not_missing() {
    let mut m = CookieMap::new(DEFAULT_MAX_SIZE);
    m.insert("x", &int_value(1)).unwrap();
    assert_eq!(m.get("x", ValueKind::Text), Err(CookieMapError::Decode(DecodeError::WrongKind)));
    assert_eq!(m.get("y", ValueKind::Text), Ok(None));
    assert_eq!(m.remove("x", ValueKind::Text), Err(CookieMapError::Decode(DecodeError::WrongKind)));
    assert_eq!(m.len(), 0);
}

#[test]
fn end_to_end_plain_cookie() {
    let mut m = CookieMap::new(DEFAULT_MAX_SIZE);
    m.insert("user_id", &int_value(42)).unwrap();
    let cookie = m.to_cookie(&Protection::Plain);
    let fresh = CookieMap::from_cookie(Some(&cookie), &Protection::Plain, DEFAULT_MAX_SIZE);
    assert_eq!(fresh.get("user_id", ValueKind::Int), Ok(Some(int_value(42))));
    assert_eq!(fresh.get("missing", ValueKind::Int), Ok(None));
}

#[test]
fn end_to_end_signed_cookie() {
    let mut m = CookieMap::new(DEFAULT_MAX_SIZE);
    m.insert("user_id", &int_value(42)).unwrap();
    let cookie = m.to_cookie(&key());
    assert_eq!(cookie.len(), 2 * (32 + m.total_size()));
    let fresh = CookieMap::from_cookie(Some(&cookie), &key(), DEFAULT_MAX_SIZE);
    assert_eq!(fresh.get("user_id", ValueKind::Int), Ok(Some(int_value(42))));
    let other = Protection::Signed(b"another key".to_vec());
    assert_eq!(CookieMap::from_cookie(Some(&cookie), &other, DEFAULT_MAX_SIZE).len(), 0);
}

#[test]
fn tampered_cookie_gives_empty_map() {
    let mut m = CookieMap::new(DEFAULT_MAX_SIZE);
    m.insert("role", &text("user")).unwrap();
    let cookie = m.to_cookie(&key());
    let mut bytes = from_hex(&cookie).unwrap();
    for at in [0, 31, 32, bytes.len() - 1] {
        let mut bad = bytes.clone();
        bad[at] ^= 0x01;
        let forged = to_hex(&bad);
        let got = CookieMap::from_cookie(Some(&forged), &key(), DEFAULT_MAX_SIZE);
        assert_eq!(got.len(), 0);
    }
    bytes.truncate(10);
    assert_eq!(CookieMap::from_cookie(Some(&to_hex(&bytes)), &key(), DEFAULT_MAX_SIZE).len(), 0);
    assert_eq!(CookieMap::from_cookie(Some("not hex"), &key(), DEFAULT_MAX_SIZE).len(), 0);
    assert_eq!(CookieMap::from_cookie(None, &key(), DEFAULT_MAX_SIZE).len(), 0);
}

#[test]
fn hmac_matches_known_vector() {
    let sealed = seal(b"Jefe", b"what do ya want for nothing?");
    assert_eq!(
        to_hex(&sealed[..32]),
        "5bdcc146bf60754e6a042426089575c75a003f089d2739839dec58b964ec3843"
    );
    assert_eq!(&sealed[32..], b"what do ya want for nothing?");
    assert_eq!(unseal(b"Jefe", &sealed), Some(b"what do ya want for nothing?".to_vec()));
    assert_eq!(unseal(b"jefe", &sealed), None);
}

#[test]
fn tag_comparison() {
    let tag = [7u8; 32];
    let mut b = vec![7u8; 40];
    assert!(tag_matches(&b, &tag));
    b[31] = 8;
    assert!(!tag_matches(&b, &tag));
    assert!(!tag_matches(&b[..31], &tag[..31]));
}

#[test]
fn hex_exact() {
    assert_eq!(to_hex(&[0x00, 0xff, 0x1a]), "00ff1a");
    assert_eq!(from_hex("00FF1a"), Some(vec![0x00, 0xff, 0x1a]));
    assert_eq!(from_hex("abc"), None);
    assert_eq!(from_hex("zz"), None);
    assert_eq!(from_hex(""), Some(vec![]));
}

#[test]
fn store_hydrates_once() {
    let mut d = Driver::ServerStore(StoreHandle::new());
    let get = Request::Get("k".to_string(), ValueKind::Int);
    assert!(matches!(d.step(&get), Step::Store(StoreAction::Load)));
    d.load_finished(true);
    assert!(matches!(d.step(&get), Step::Store(StoreAction::Perform)));
    let ins = Request::Insert("k".to_string(), int_value(1));
    assert!(matches!(d.step(&ins), Step::Store(StoreAction::Perform)));
    let rem = Request::Remove("k".to_string(), ValueKind::Int);
    assert!(matches!(d.step(&rem), Step::Store(StoreAction::Perform)));
}

#[test]
fn store_load_failure_is_not_missing_key() {
    let mut d = Driver::ServerStore(StoreHandle::new());
    let get = Request::Get("k".to_string(), ValueKind::Int);
    assert!(matches!(d.step(&get), Step::Store(StoreAction::Load)));
    d.load_finished(false);
    assert!(matches!(
        d.step(&get),
        Step::Done(Err(DriverError::StoreError(StoreError::Hydration)))
    ));
    assert!(matches!(d.step(&Request::Clear), Step::Store(StoreAction::Perform)));
    assert!(matches!(d.step(&get), Step::Store(StoreAction::Perform)));
}

#[test]
fn store_clear_needs_no_load() {
    let mut h = StoreHandle::new();
    assert_eq!(h.begin(OpKind::Clear), StoreAction::Perform);
    assert_eq!(h.state, Hydration::Loaded);
    assert_eq!(h.begin(OpKind::Get), StoreAction::Perform);
}

#[test]
fn driver_cookie_map_dispatch() {
    let mut d = Driver::CookieMap(CookieMap::new(DEFAULT_MAX_SIZE));
    assert!(matches!(d.step(&Request::Insert("x".to_string(), int_value(1))), Step::Done(Ok(None))));
    assert!(matches!(
        d.step(&Request::Get("x".to_string(), ValueKind::Text)),
        Step::Done(Err(DriverError::CookieMapError(CookieMapError::Decode(DecodeError::WrongKind))))
    ));
    match d.step(&Request::Remove("x".to_string(), ValueKind::Int)) {
        Step::Done(Ok(Some(v))) => assert_eq!(v, int_value(1)),
        other => panic!("unexpected {:?}", other),
    }
    assert!(matches!(d.step(&Request::Get("x".to_string(), ValueKind::Int)), Step::Done(Ok(None))));
    let mut small = Driver::CookieMap(CookieMap::new(10));
    assert!(matches!(
        small.step(&Request::Insert("x".to_string(), int_value(1))),
        Step::Done(Err(DriverError::CookieMapError(CookieMapError::TooLarge)))
    ));
    assert!(matches!(small.step(&Request::Clear), Step::Done(Ok(None))));
}

#[test]
fn store_read_checks_kind() {
    assert_eq!(store_read(None, ValueKind::Int), Ok(None));
    assert_eq!(store_read(Some(int_value(3)), ValueKind::Int), Ok(Some(int_value(3))));
    assert_eq!(
        store_read(Some(int_value(3)), ValueKind::Text),
        Err(DriverError::StoreError(StoreError::Serialization))
    );
}

#[test]
fn driver_named_operations() {
    let mut d = Driver::CookieMap(CookieMap::new(DEFAULT_MAX_SIZE));
    assert!(matches!(d.insert("user_id", int_value(42)), Step::Done(Ok(None))));
    match d.get("user_id", ValueKind::Int) {
        Step::Done(Ok(Some(v))) => assert_eq!(v, int_value(42)),
        other => panic!("unexpected {:?}", other),
    }
    assert!(matches!(d.get("missing", ValueKind::Int), Step::Done(Ok(None))));
    assert!(matches!(d.clear(), Step::Done(Ok(None))));
    assert!(matches!(d.remove("user_id", ValueKind::Int), Step::Done(Ok(None))));

    let mut s = Driver::ServerStore(StoreHandle::new());
    assert!(matches!(s.insert("k", int_value(1)), Step::Store(StoreAction::Load)));
    s.load_finished(true);
    assert!(matches!(s.get("k", ValueKind::Int), Step::Store(StoreAction::Perform)));
    assert!(matches!(s.clear(), Step::Store(StoreAction::Perform)));
}
