use resp_kv::data_type::RespDataType;
use resp_kv::server::process_value;
use resp_kv::store::KeyValueStore;

/// Decodes one request frame, processes it against the store at time
/// `now_ms`, and returns the encoded reply.
fn reply_bytes(store: &mut KeyValueStore, request: &[u8], now_ms: u64) -> Vec<u8> {
    let bytes = request.to_vec();
    let (value, end) = RespDataType::deserialize(&bytes, 0).unwrap();
    assert_eq!(end, bytes.len());
    process_value(store, value, now_ms).serialize()
}

#[test]
fn ping_replies_pong() {
    let mut store = KeyValueStore::new();
    let reply = reply_bytes(&mut store, b"*1\r\n$4\r\nPING\r\n", 0);
    assert_eq!(reply, b"+PONG\r\n".to_vec());
}

#[test]
fn ping_with_payload_echoes_it() {
    let mut store = KeyValueStore::new();
    let reply = reply_bytes(&mut store, b"*2\r\n$4\r\nPING\r\n$5\r\nhello\r\n", 0);
    assert_eq!(reply, b"$5\r\nhello\r\n".to_vec());
}

#[test]
fn command_names_are_case_insensitive() {
    let mut store = KeyValueStore::new();
    let reply = reply_bytes(&mut store, b"*1\r\n$4\r\npInG\r\n", 0);
    assert_eq!(reply, b"+PONG\r\n".to_vec());
}

#[test]
fn echo_replies_payload() {
    let mut store = KeyValueStore::new();
    let reply = reply_bytes(&mut store, b"*2\r\n$4\r\nECHO\r\n$2\r\nhi\r\n", 0);
    assert_eq!(reply, b"$2\r\nhi\r\n".to_vec());
}

#[test]
fn echo_without_argument_is_an_error() {
    let mut store = KeyValueStore::new();
    let reply = reply_bytes(&mut store, b"*1\r\n$4\r\nECHO\r\n", 0);
    assert_eq!(reply, b"-missing argument message\r\n".to_vec());
}

#[test]
fn echo_of_non_bulk_is_an_error() {
    let mut store = KeyValueStore::new();
    let reply = reply_bytes(&mut store, b"*2\r\n$4\r\nECHO\r\n:1\r\n", 0);
    assert_eq!(reply, b"-message is not bulk string\r\n".to_vec());
}

#[test]
fn set_then_get_returns_value() {
    let mut store = KeyValueStore::new();
    let reply = reply_bytes(&mut store, b"*3\r\n$3\r\nSET\r\n$3\r\nfoo\r\n$3\r\nbar\r\n", 0);
    assert_eq!(reply, b"+OK\r\n".to_vec());
    let reply = reply_bytes(&mut store, b"*2\r\n$3\r\nGET\r\n$3\r\nfoo\r\n", 0);
    assert_eq!(reply, b"$3\r\nbar\r\n".to_vec());
}

#[test]
fn get_of_missing_key_is_null() {
    let mut store = KeyValueStore::new();
    let reply = reply_bytes(&mut store, b"*2\r\n$3\r\nGET\r\n$7\r\nmissing\r\n", 0);
    assert_eq!(reply, b"$-1\r\n".to_vec());
    // A read never creates an entry: the same read finds nothing again.
    let reply = reply_bytes(&mut store, b"*2\r\n$3\r\nGET\r\n$7\r\nmissing\r\n", 0);
    assert_eq!(reply, b"$-1\r\n".to_vec());
}

#[test]
fn set_with_px_expires_lazily() {
    let mut store = KeyValueStore::new();
    let reply = reply_bytes(
        &mut store,
        b"*5\r\n$3\r\nSET\r\n$3\r\nfoo\r\n$3\r\nbar\r\n$2\r\nPX\r\n:50\r\n",
        0,
    );
    assert_eq!(reply, b"+OK\r\n".to_vec());
    // Up to the deadline the value is still there.
    let reply = reply_bytes(&mut store, b"*2\r\n$3\r\nGET\r\n$3\r\nfoo\r\n", 50);
    assert_eq!(reply, b"$3\r\nbar\r\n".to_vec());
    // Past the deadline the read observes the expiry and removes the entry.
    let reply = reply_bytes(&mut store, b"*2\r\n$3\r\nGET\r\n$3\r\nfoo\r\n", 60);
    assert_eq!(reply, b"$-1\r\n".to_vec());
    // The entry is gone for good: even a read dated before the deadline
    // finds nothing.
    let reply = reply_bytes(&mut store, b"*2\r\n$3\r\nGET\r\n$3\r\nfoo\r\n", 10);
    assert_eq!(reply, b"$-1\r\n".to_vec());
}

#[test]
fn px_option_name_is_case_insensitive() {
    let mut store = KeyValueStore::new();
    let reply = reply_bytes(
        &mut store,
        b"*5\r\n$3\r\nSET\r\n$1\r\nk\r\n$1\r\nv\r\n$2\r\npx\r\n:10\r\n",
        0,
    );
    assert_eq!(reply, b"+OK\r\n".to_vec());
}

#[test]
fn set_overwrites_value_and_ttl() {
    let mut store = KeyValueStore::new();
    reply_bytes(
        &mut store,
        b"*5\r\n$3\r\nSET\r\n$3\r\nfoo\r\n$3\r\nold\r\n$2\r\nPX\r\n:10\r\n",
        0,
    );
    // Overwriting replaces both the value and the lifecycle state, so the
    // old deadline no longer applies.
    let reply = reply_bytes(&mut store, b"*3\r\n$3\r\nSET\r\n$3\r\nfoo\r\n$3\r\nnew\r\n", 5);
    assert_eq!(reply, b"+OK\r\n".to_vec());
    let reply = reply_bytes(&mut store, b"*2\r\n$3\r\nGET\r\n$3\r\nfoo\r\n", 1000);
    assert_eq!(reply, b"$3\r\nnew\r\n".to_vec());
}

#[test]
fn malformed_request_gets_error_and_connection_continues() {
    let mut store = KeyValueStore::new();
    // An array whose first element is an integer instead of a bulk string.
    let reply = reply_bytes(&mut store, b"*1\r\n:42\r\n", 0);
    assert_eq!(reply, b"-expected bulk string\r\n".to_vec());
    // The same store still answers a well-formed PING.
    let reply = reply_bytes(&mut store, b"*1\r\n$4\r\nPING\r\n", 0);
    assert_eq!(reply, b"+PONG\r\n".to_vec());
}

#[test]
fn non_array_request_is_an_error() {
    let mut store = KeyValueStore::new();
    let reply = reply_bytes(&mut store, b"+PING\r\n", 0);
    assert_eq!(reply, b"-expected array\r\n".to_vec());
    let reply = reply_bytes(&mut store, b"*-1\r\n", 0);
    assert_eq!(reply, b"-expected array\r\n".to_vec());
}

#[test]
fn unknown_command_is_an_error() {
    let mut store = KeyValueStore::new();
    let reply = reply_bytes(&mut store, b"*1\r\n$10\r\nhelloworld\r\n", 0);
    assert_eq!(reply, b"-unknown command\r\n".to_vec());
}

#[test]
fn set_argument_errors() {
    let mut store = KeyValueStore::new();
    let reply = reply_bytes(&mut store, b"*1\r\n$3\r\nSET\r\n", 0);
    assert_eq!(reply, b"-missing argument key\r\n".to_vec());
    let reply = reply_bytes(&mut store, b"*2\r\n$3\r\nSET\r\n:1\r\n", 0);
    assert_eq!(reply, b"-key is not bulk string\r\n".to_vec());
    let reply = reply_bytes(&mut store, b"*2\r\n$3\r\nSET\r\n$1\r\nk\r\n", 0);
    assert_eq!(reply, b"-missing argument value\r\n".to_vec());
    let reply = reply_bytes(&mut store, b"*3\r\n$3\r\nSET\r\n$1\r\nk\r\n:1\r\n", 0);
    assert_eq!(reply, b"-value is not bulk string\r\n".to_vec());
    // An option name without a duration.
    let reply = reply_bytes(
        &mut store,
        b"*4\r\n$3\r\nSET\r\n$1\r\nk\r\n$1\r\nv\r\n$2\r\nPX\r\n",
        0,
    );
    assert_eq!(reply, b"-unexpected argument\r\n".to_vec());
    // An unknown option name.
    let reply = reply_bytes(
        &mut store,
        b"*5\r\n$3\r\nSET\r\n$1\r\nk\r\n$1\r\nv\r\n$2\r\nEX\r\n:10\r\n",
        0,
    );
    assert_eq!(reply, b"-expected PX\r\n".to_vec());
    // A duration that is not an integer value.
    let reply = reply_bytes(
        &mut store,
        b"*5\r\n$3\r\nSET\r\n$1\r\nk\r\n$1\r\nv\r\n$2\r\nPX\r\n$2\r\n10\r\n",
        0,
    );
    assert_eq!(reply, b"-expected integer\r\n".to_vec());
    // A negative duration.
    let reply = reply_bytes(
        &mut store,
        b"*5\r\n$3\r\nSET\r\n$1\r\nk\r\n$1\r\nv\r\n$2\r\nPX\r\n:-5\r\n",
        0,
    );
    assert_eq!(reply, b"-expiry duration out of range\r\n".to_vec());
    // A null option name.
    let reply = reply_bytes(
        &mut store,
        b"*5\r\n$3\r\nSET\r\n$1\r\nk\r\n$1\r\nv\r\n$-1\r\n:10\r\n",
        0,
    );
    assert_eq!(reply, b"-expected PX\r\n".to_vec());
    // An option that is not a bulk string.
    let reply = reply_bytes(
        &mut store,
        b"*5\r\n$3\r\nSET\r\n$1\r\nk\r\n$1\r\nv\r\n:0\r\n:10\r\n",
        0,
    );
    assert_eq!(reply, b"-expiry option is not bulk string\r\n".to_vec());
}

#[test]
fn null_keys_and_values_are_errors() {
    let mut store = KeyValueStore::new();
    let reply = reply_bytes(&mut store, b"*3\r\n$3\r\nSET\r\n$-1\r\n$1\r\nv\r\n", 0);
    assert_eq!(reply, b"-empty key\r\n".to_vec());
    let reply = reply_bytes(&mut store, b"*3\r\n$3\r\nSET\r\n$1\r\nk\r\n$-1\r\n", 0);
    assert_eq!(reply, b"-value cannot be stored\r\n".to_vec());
    let reply = reply_bytes(&mut store, b"*2\r\n$3\r\nGET\r\n$-1\r\n", 0);
    assert_eq!(reply, b"-empty key\r\n".to_vec());
}

#[test]
fn non_utf8_key_is_an_error() {
    let mut store = KeyValueStore::new();
    let reply = reply_bytes(&mut store, b"*3\r\n$3\r\nSET\r\n$1\r\n\xff\r\n$1\r\nv\r\n", 0);
    assert_eq!(reply, b"-invalid utf-8 sequence\r\n".to_vec());
    let reply = reply_bytes(&mut store, b"*2\r\n$3\r\nGET\r\n$1\r\n\xff\r\n", 0);
    assert_eq!(reply, b"-invalid utf-8 sequence\r\n".to_vec());
}

#[test]
fn non_utf8_command_name_is_an_error() {
    let mut store = KeyValueStore::new();
    let reply = reply_bytes(&mut store, b"*1\r\n$1\r\n\xff\r\n", 0);
    assert_eq!(reply, b"-invalid utf-8 sequence\r\n".to_vec());
}

#[test]
fn extra_arguments_are_ignored() {
    let mut store = KeyValueStore::new();
    // PING and GET read only the arguments they know; the rest are ignored.
    let reply = reply_bytes(&mut store, b"*3\r\n$4\r\nPING\r\n$1\r\na\r\n$1\r\nb\r\n", 0);
    assert_eq!(reply, b"$1\r\na\r\n".to_vec());
    reply_bytes(&mut store, b"*3\r\n$3\r\nSET\r\n$1\r\nk\r\n$1\r\nv\r\n", 0);
    let reply = reply_bytes(&mut store, b"*3\r\n$3\r\nGET\r\n$1\r\nk\r\n$1\r\nz\r\n", 0);
    assert_eq!(reply, b"$1\r\nv\r\n".to_vec());
}
