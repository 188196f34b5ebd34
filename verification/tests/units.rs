use resp_kv::bytes::{bytes_eq, copy_range, to_lower, to_upper};
use resp_kv::kv_store::{KvAction, KvItem, KvStore};
use resp_kv::num::{i64_to_dec, parse_i64, parse_u64, u64_to_dec};
use resp_kv::protocol::Response;

#[test]
fn decimal_rendering() {
    assert_eq!(u64_to_dec(0), b"0".to_vec());
    assert_eq!(u64_to_dec(7), b"7".to_vec());
    assert_eq!(u64_to_dec(1234567890), b"1234567890".to_vec());
    assert_eq!(u64_to_dec(u64::MAX), b"18446744073709551615".to_vec());
    assert_eq!(i64_to_dec(-45), b"-45".to_vec());
    assert_eq!(i64_to_dec(i64::MIN), b"-9223372036854775808".to_vec());
    assert_eq!(i64_to_dec(0), b"0".to_vec());
}

#[test]
fn unsigned_parsing() {
    assert_eq!(parse_u64(&b"0".to_vec()), Some(0));
    assert_eq!(parse_u64(&b"007".to_vec()), Some(7));
    assert_eq!(parse_u64(&b"+7".to_vec()), Some(7));
    assert_eq!(parse_u64(&b"18446744073709551615".to_vec()), Some(u64::MAX));
    assert_eq!(parse_u64(&b"18446744073709551616".to_vec()), None);
    assert_eq!(parse_u64(&b"".to_vec()), None);
    assert_eq!(parse_u64(&b"+".to_vec()), None);
    assert_eq!(parse_u64(&b"-1".to_vec()), None);
    assert_eq!(parse_u64(&b"12a".to_vec()), None);
    assert_eq!(parse_u64(&b" 1".to_vec()), None);
}

#[test]
fn signed_parsing() {
    assert_eq!(parse_i64(&b"42".to_vec()), Some(42));
    assert_eq!(parse_i64(&b"-42".to_vec()), Some(-42));
    assert_eq!(parse_i64(&b"+42".to_vec()), Some(42));
    assert_eq!(parse_i64(&b"9223372036854775807".to_vec()), Some(i64::MAX));
    assert_eq!(parse_i64(&b"9223372036854775808".to_vec()), None);
    assert_eq!(parse_i64(&b"-9223372036854775808".to_vec()), Some(i64::MIN));
    assert_eq!(parse_i64(&b"-9223372036854775809".to_vec()), None);
    assert_eq!(parse_i64(&b"abc".to_vec()), None);
    assert_eq!(parse_i64(&b"-".to_vec()), None);
    assert_eq!(parse_i64(&b"1.5".to_vec()), None);
}

#[test]
fn signed_round_trip_on_samples() {
    for n in [0i64, 1, -1, 99, -100, i64::MAX, i64::MIN] {
        assert_eq!(parse_i64(&i64_to_dec(n)), Some(n));
    }
}

#[test]
fn byte_helpers() {
    assert!(bytes_eq(&b"abc".to_vec(), &b"abc".to_vec()));
    assert!(!bytes_eq(&b"abc".to_vec(), &b"abd".to_vec()));
    assert!(!bytes_eq(&b"abc".to_vec(), &b"ab".to_vec()));
    assert_eq!(to_upper(&b"px9 {".to_vec()), b"PX9 {".to_vec());
    assert_eq!(to_lower(&b"RePlIcAtIoN".to_vec()), b"replication".to_vec());
    assert_eq!(copy_range(&b"abcdef".to_vec(), 2, 5), b"cde".to_vec());
}

#[test]
fn store_insert_and_get() {
    let mut store = KvStore::new();
    assert!(store.get_clone(&b"k".to_vec(), 0).is_none());
    store.insert(b"k".to_vec(), KvItem::new(b"v1".to_vec(), 0, None));
    assert_eq!(store.get_clone(&b"k".to_vec(), 0).unwrap().val, b"v1".to_vec());
    store.insert(b"k".to_vec(), KvItem::new(b"v2".to_vec(), 0, None));
    assert_eq!(store.get_clone(&b"k".to_vec(), 12345).unwrap().val, b"v2".to_vec());
}

#[test]
fn store_expiry_is_lazy_and_invisible() {
    let mut store = KvStore::new();
    store.insert(b"k".to_vec(), KvItem::new(b"v".to_vec(), 10, Some(100)));
    assert_eq!(store.get_clone(&b"k".to_vec(), 10).unwrap().val, b"v".to_vec());
    assert_eq!(store.get_clone(&b"k".to_vec(), 110).unwrap().val, b"v".to_vec());
    assert!(store.get_clone(&b"k".to_vec(), 111).is_none());
}

#[test]
fn item_expire_after_moves_deadline() {
    let mut item = KvItem::new(b"v".to_vec(), 0, None);
    item.expire_after(50, 10);
    let mut store = KvStore::new();
    store.insert(b"k".to_vec(), item);
    assert!(store.get_clone(&b"k".to_vec(), 60).is_some());
    assert!(store.get_clone(&b"k".to_vec(), 61).is_none());
}

#[test]
fn store_actions() {
    let mut store = KvStore::new();
    let k = b"k".to_vec();
    // replacing the payload of a missing record does nothing
    store.do_action(&k, 0, KvAction::ReplacePayload(b"x".to_vec()));
    assert!(store.get_clone(&k, 0).is_none());
    // writing installs the record
    store.do_action(&k, 0, KvAction::Write(KvItem::new(b"1".to_vec(), 0, Some(100))));
    assert_eq!(store.get_clone(&k, 0).unwrap().val, b"1".to_vec());
    // replacing keeps the deadline
    store.do_action(&k, 10, KvAction::ReplacePayload(b"2".to_vec()));
    assert_eq!(store.get_clone(&k, 100).unwrap().val, b"2".to_vec());
    assert!(store.get_clone(&k, 101).is_none());
    // keep leaves everything alone
    store.do_action(&k, 10, KvAction::Keep);
    assert_eq!(store.get_clone(&k, 10).unwrap().val, b"2".to_vec());
    // remove drops the record
    store.do_action(&k, 10, KvAction::Remove);
    assert!(store.get_clone(&k, 10).is_none());
}

#[test]
fn reply_encodings() {
    let mut resp = Response::new();
    resp.push_simple_string("OK");
    assert_eq!(resp.take_output(), b"+OK\r\n".to_vec());
    resp.push_simple_error("ERR boom");
    assert_eq!(resp.take_output(), b"-ERR boom\r\n".to_vec());
    resp.push_integer(-5);
    assert_eq!(resp.take_output(), b":-5\r\n".to_vec());
    resp.push_integer(12);
    assert_eq!(resp.take_output(), b":12\r\n".to_vec());
    resp.push_bulk_string(&b"hi\r\nthere".to_vec());
    assert_eq!(resp.take_output(), b"$9\r\nhi\r\nthere\r\n".to_vec());
    resp.push_bulk_string(&b"".to_vec());
    assert_eq!(resp.take_output(), b"$0\r\n\r\n".to_vec());
    resp.push_null_bulk_string();
    assert_eq!(resp.take_output(), b"$-1\r\n".to_vec());
    resp.push_array_header(3);
    assert_eq!(resp.take_output(), b"*3\r\n".to_vec());
}

#[test]
fn output_accumulates_until_taken() {
    let mut resp = Response::new();
    resp.push_simple_string("A");
    resp.push_simple_string("B");
    assert_eq!(resp.take_output(), b"+A\r\n+B\r\n".to_vec());
    assert_eq!(resp.take_output(), b"".to_vec());
}
