use resp_kv::store::KeyValueStore;
use resp_kv::store::RedisDataType;
use resp_kv::store::RedisDataTypeWithTTL;
use resp_kv::util::RespError;
use resp_kv::util::check_utf8;
use resp_kv::util::strip_trailing_newline;
use resp_kv::util::text_bytes;
use resp_kv::util::to_ascii_lower;
use resp_kv::util::vec_eq;

#[test]
fn get_reads_what_set_wrote() {
    let mut store = KeyValueStore::new();
    store.set(
        b"k".to_vec(),
        RedisDataTypeWithTTL::Infinite(RedisDataType::Strings(b"v".to_vec())),
    );
    assert_eq!(store.get(&b"k".to_vec(), 123), Ok(Some(b"v".to_vec())));
}

#[test]
fn get_of_absent_key_is_none_and_creates_nothing() {
    let mut store = KeyValueStore::new();
    assert_eq!(store.get(&b"k".to_vec(), 0), Ok(None));
    assert_eq!(store.get(&b"k".to_vec(), 0), Ok(None));
}

#[test]
fn expired_entry_is_removed_on_the_read_that_observes_it() {
    let mut store = KeyValueStore::new();
    store.set(
        b"k".to_vec(),
        RedisDataTypeWithTTL::Finite(RedisDataType::Strings(b"v".to_vec()), 50),
    );
    // Not yet expired: the deadline itself still counts as alive.
    assert_eq!(store.get(&b"k".to_vec(), 50), Ok(Some(b"v".to_vec())));
    // Past the deadline: removed, and gone for every later read.
    assert_eq!(store.get(&b"k".to_vec(), 51), Ok(None));
    assert_eq!(store.get(&b"k".to_vec(), 0), Ok(None));
}

#[test]
fn unread_expired_entry_is_retained_until_read() {
    let mut store = KeyValueStore::new();
    store.set(
        b"a".to_vec(),
        RedisDataTypeWithTTL::Finite(RedisDataType::Strings(b"x".to_vec()), 10),
    );
    // No sweeper runs: reading another key at a later time does not touch
    // the expired entry, and only its own read removes it.
    assert_eq!(store.get(&b"b".to_vec(), 1000), Ok(None));
    assert_eq!(store.get(&b"a".to_vec(), 5), Ok(Some(b"x".to_vec())));
}

#[test]
fn set_overwrites_regardless_of_previous_entry() {
    let mut store = KeyValueStore::new();
    store.set(
        b"k".to_vec(),
        RedisDataTypeWithTTL::Finite(RedisDataType::Integers(7), 10),
    );
    store.set(
        b"k".to_vec(),
        RedisDataTypeWithTTL::Infinite(RedisDataType::Strings(b"v".to_vec())),
    );
    assert_eq!(store.get(&b"k".to_vec(), 99999), Ok(Some(b"v".to_vec())));
}

#[test]
fn non_string_entry_is_a_type_fault() {
    let mut store = KeyValueStore::new();
    store.set(
        b"n".to_vec(),
        RedisDataTypeWithTTL::Infinite(RedisDataType::Integers(7)),
    );
    assert_eq!(store.get(&b"n".to_vec(), 0), Err(RespError::WrongType));
    store.set(
        b"a".to_vec(),
        RedisDataTypeWithTTL::Finite(RedisDataType::Arrays(vec![]), 10),
    );
    assert_eq!(store.get(&b"a".to_vec(), 0), Err(RespError::WrongType));
}

#[test]
fn keys_are_independent() {
    let mut store = KeyValueStore::new();
    store.set(
        b"one".to_vec(),
        RedisDataTypeWithTTL::Infinite(RedisDataType::Strings(b"1".to_vec())),
    );
    store.set(
        b"two".to_vec(),
        RedisDataTypeWithTTL::Infinite(RedisDataType::Strings(b"2".to_vec())),
    );
    assert_eq!(store.get(&b"one".to_vec(), 0), Ok(Some(b"1".to_vec())));
    assert_eq!(store.get(&b"two".to_vec(), 0), Ok(Some(b"2".to_vec())));
}

#[test]
fn strip_trailing_newline_strips_one_terminator() {
    assert_eq!(strip_trailing_newline("abc\r\n"), "abc");
    assert_eq!(strip_trailing_newline("abc\n"), "abc");
    assert_eq!(strip_trailing_newline("abc"), "abc");
    assert_eq!(strip_trailing_newline("abc\r"), "abc\r");
    assert_eq!(strip_trailing_newline("abc\n\n"), "abc\n");
    assert_eq!(strip_trailing_newline("\r\n"), "");
    assert_eq!(strip_trailing_newline(""), "");
}

#[test]
fn utf8_checker_matches_the_standard_library() {
    let cases: Vec<Vec<u8>> = vec![
        b"plain ascii".to_vec(),
        "päx".as_bytes().to_vec(),
        "漢字".as_bytes().to_vec(),
        vec![0xff],
        vec![0xc2],
        vec![0xc2, 0x20],
        vec![0xe0, 0x80, 0x80],
        vec![0xed, 0xa0, 0x80],
        vec![0xf4, 0x90, 0x80, 0x80],
        vec![0xf0, 0x9f, 0x98, 0x80],
        vec![],
    ];
    for case in cases {
        assert_eq!(
            check_utf8(&case),
            std::str::from_utf8(&case).is_ok(),
            "for {:?}",
            case
        );
    }
}

#[test]
fn byte_helpers_behave() {
    assert_eq!(to_ascii_lower(&b"PiNg0!".to_vec()), b"ping0!".to_vec());
    assert!(vec_eq(&b"abc".to_vec(), &b"abc".to_vec()));
    assert!(!vec_eq(&b"abc".to_vec(), &b"abd".to_vec()));
    assert!(!vec_eq(&b"abc".to_vec(), &b"ab".to_vec()));
    assert_eq!(text_bytes("PONG"), b"PONG".to_vec());
}
