//! The typed command model: validating a decoded wire value into one of the
//! four commands, and executing a command against the store.
use vstd::prelude::*;

verus! {

use crate::data_type::RespDataType;
use crate::data_type::ValueView;
use crate::store::KeyValueStore;
use crate::store::RedisDataType;
use crate::store::RedisDataTypeWithTTL;
use crate::store::get_post;
use crate::store::get_result;
use crate::util::RespError;
use crate::util::is_valid_utf8;
use crate::util::lower_all;

/// The PING command: replies with its optional payload, or with "PONG".
#[derive(Debug)]
pub struct Ping {
    pub message: Option<RespDataType>,
}

/// The ECHO command: replies with its payload verbatim.
#[derive(Debug)]
pub struct Echo {
    pub message: RespDataType,
}

/// The SET command: writes a value under a key, with an optional expiry
/// duration in milliseconds.
#[derive(Debug)]
pub struct SetCmd {
    pub key: RespDataType,
    pub value: RespDataType,
    pub expiry: Option<u64>,
}

/// The GET command: reads the value under a key.
#[derive(Debug)]
pub struct Get {
    pub key: RespDataType,
}

/// The closed set of commands the server understands.
#[derive(Debug)]
pub enum RespCommand {
    Ping(Ping),
    Echo(Echo),
    SetCmd(SetCmd),
    Get(Get),
}

/// The bytes of the keyword naming the PING command.
pub open spec fn kw_ping() -> Seq<u8> {
    seq![112u8, 105u8, 110u8, 103u8]
}

/// The bytes of the keyword naming the ECHO command.
pub open spec fn kw_echo() -> Seq<u8> {
    seq![101u8, 99u8, 104u8, 111u8]
}

/// The bytes of the keyword naming the SET command.
pub open spec fn kw_set() -> Seq<u8> {
    seq![115u8, 101u8, 116u8]
}

/// The bytes of the keyword naming the GET command.
pub open spec fn kw_get() -> Seq<u8> {
    seq![103u8, 101u8, 116u8]
}

/// The bytes of the expiry option name PX, in small letters.
pub open spec fn kw_px() -> Seq<u8> {
    seq![112u8, 120u8]
}

/// Validation of a PING: a first argument that is a bulk string becomes the
/// payload; an absent or non-bulk first argument means no payload, and any
/// further arguments are ignored.
pub open spec fn parse_ping(arr: Seq<RespDataType>) -> Result<RespCommand, RespError> {
    if arr.len() >= 2 && (arr[1] is BulkStrings) {
        Ok(RespCommand::Ping(Ping { message: Some(arr[1]) }))
    } else {
        Ok(RespCommand::Ping(Ping { message: None }))
    }
}

/// Validation of an ECHO: exactly one required bulk-string argument.
pub open spec fn parse_echo(arr: Seq<RespDataType>) -> Result<RespCommand, RespError> {
    if arr.len() < 2 {
        Err(RespError::MissingMessage)
    } else if !(arr[1] is BulkStrings) {
        Err(RespError::MessageNotBulk)
    } else {
        Ok(RespCommand::Echo(Echo { message: arr[1] }))
    }
}

/// Validation of a GET: one required bulk-string key.
pub open spec fn parse_get(arr: Seq<RespDataType>) -> Result<RespCommand, RespError> {
    if arr.len() < 2 {
        Err(RespError::MissingKey)
    } else if !(arr[1] is BulkStrings) {
        Err(RespError::KeyNotBulk)
    } else {
        Ok(RespCommand::Get(Get { key: arr[1] }))
    }
}

/// Validation of a SET: bulk-string key and value, then optionally an expiry
/// option name — only PX, case-insensitive, is known — paired with an integer
/// duration; one of the pair without the other, an unknown option name, a
/// non-integer or negative duration, each fails in the order the arguments
/// are read.
pub open spec fn parse_set(arr: Seq<RespDataType>) -> Result<RespCommand, RespError> {
    if arr.len() < 2 {
        Err(RespError::MissingKey)
    } else if !(arr[1] is BulkStrings) {
        Err(RespError::KeyNotBulk)
    } else if arr.len() < 3 {
        Err(RespError::MissingValue)
    } else if !(arr[2] is BulkStrings) {
        Err(RespError::ValueNotBulk)
    } else if arr.len() <= 3 {
        Ok(RespCommand::SetCmd(SetCmd { key: arr[1], value: arr[2], expiry: None }))
    } else if arr.len() == 4 {
        Err(RespError::UnexpectedArgument)
    } else {
        match arr[3] {
            RespDataType::BulkStrings(opt) => match opt {
                Some(ob) => if !is_valid_utf8(ob@) {
                    Err(RespError::InvalidUtf8)
                } else {
                    match arr[4] {
                        RespDataType::Integers(d) => if d < 0 {
                            Err(RespError::DurationOutOfRange)
                        } else if lower_all(ob@) == kw_px() {
                            Ok(
                                RespCommand::SetCmd(
                                    SetCmd { key: arr[1], value: arr[2], expiry: Some(d as u64) },
                                ),
                            )
                        } else {
                            Err(RespError::ExpectedPx)
                        },
                        _ => Err(RespError::ExpectedInteger),
                    }
                },
                None => Err(RespError::ExpectedPx),
            },
            _ => Err(RespError::OptionNotBulk),
        }
    }
}

/// Validation of a whole request: an array whose first element is a non-null
/// bulk string naming the command, case-insensitively; the rest are the
/// command's arguments.
pub open spec fn parse_command(v: RespDataType) -> Result<RespCommand, RespError> {
    match v {
        RespDataType::Arrays(oa) => match oa {
            Some(arr) => if arr@.len() == 0 {
                Err(RespError::ExpectedBulkString)
            } else {
                match arr@[0] {
                    RespDataType::BulkStrings(on) => match on {
                        Some(name) => {
                            let low = lower_all(name@);
                            if !is_valid_utf8(low) {
                                Err(RespError::InvalidUtf8)
                            } else if low == kw_ping() {
                                parse_ping(arr@)
                            } else if low == kw_echo() {
                                parse_echo(arr@)
                            } else if low == kw_set() {
                                parse_set(arr@)
                            } else if low == kw_get() {
                                parse_get(arr@)
                            } else {
                                Err(RespError::UnknownCommand)
                            }
                        },
                        None => Err(RespError::ExpectedBulkString),
                    },
                    _ => Err(RespError::ExpectedBulkString),
                }
            },
            None => Err(RespError::ExpectedArray),
        },
        _ => Err(RespError::ExpectedArray),
    }
}

/// The value has a representation in the store: a non-null bulk string, an
/// integer, or a non-null array of such values.
pub open spec fn storable(v: RespDataType) -> bool
    decreases v, 0int,
{
    match v {
        RespDataType::BulkStrings(ob) => ob is Some,
        RespDataType::Integers(_) => true,
        RespDataType::Arrays(oa) => match oa {
            Some(elems) => all_storable(elems@),
            None => false,
        },
        _ => false,
    }
}

/// Every value of the sequence has a representation in the store.
pub open spec fn all_storable(s: Seq<RespDataType>) -> bool
    decreases s, 1int,
{
    forall|i: int| 0 <= i < s.len() ==> storable(#[trigger] s[i])
}

/// The stored value `sv` represents the wire value `v`.
pub open spec fn stored_matches(sv: RedisDataType, v: RespDataType) -> bool
    decreases v, 0int,
{
    match v {
        RespDataType::BulkStrings(ob) => match ob {
            Some(b) => sv matches RedisDataType::Strings(c) && c@ == b@,
            None => false,
        },
        RespDataType::Integers(n) => sv == RedisDataType::Integers(n),
        RespDataType::Arrays(oa) => match oa {
            Some(elems) => sv matches RedisDataType::Arrays(svs) && svs@.len() == elems@.len()
                && all_stored_match(svs@, elems@),
            None => false,
        },
        _ => false,
    }
}

/// Every stored value of the first sequence represents the wire value at the
/// same place of the second.
pub open spec fn all_stored_match(svs: Seq<RedisDataType>, s: Seq<RespDataType>) -> bool
    decreases s, 1int,
{
    forall|i: int| 0 <= i < s.len() ==> i < svs.len() && stored_matches(svs[i], #[trigger] s[i])
}

/// Converts a wire value to its store representation; fails exactly on the
/// values that have none: simple strings, error lines, and the null bulk
/// string and null array.
pub fn resp_to_stored(v: &RespDataType) -> (r: Result<RedisDataType, RespError>)
    ensures
        match r {
            Ok(sv) => storable(*v) && stored_matches(sv, *v),
            Err(e) => !storable(*v) && e == RespError::NotStorable,
        },
    decreases *v,
{
    match v {
        RespDataType::BulkStrings(ob) => match ob {
            Some(b) => {
                let c = crate::util::copy_range(b, 0, b.len());
                proof {
                    assert(c@ =~= b@);
                }
                Ok(RedisDataType::Strings(c))
            },
            None => Err(RespError::NotStorable),
        },
        RespDataType::Integers(n) => Ok(RedisDataType::Integers(*n)),
        RespDataType::Arrays(oa) => match oa {
            Some(elems) => {
                let n = elems.len();
                let mut out: Vec<RedisDataType> = Vec::new();
                let mut i: usize = 0;
                while i < n
                    invariant
                        i <= n,
                        n == elems@.len(),
                        out@.len() == i,
                        *v == RespDataType::Arrays(Some(*elems)),
                        forall|j: int|
                            0 <= j < i ==> storable(#[trigger] elems@[j]) && stored_matches(
                                out@[j],
                                elems@[j],
                            ),
                    decreases n - i,
                {
                    proof {
                        let ghost x = *v;
                        assert(decreases_to!(x => x->Arrays_0->0@[i as int]));
                        assert(decreases_to!(*v => elems@[i as int]));
                    }
                    match resp_to_stored(&elems[i]) {
                        Ok(sv) => {
                            out.push(sv);
                        },
                        Err(e) => {
                            return Err(e);
                        },
                    }
                    i = i + 1;
                }
                Ok(RedisDataType::Arrays(out))
            },
            None => Err(RespError::NotStorable),
        },
        _ => Err(RespError::NotStorable),
    }
}

/// The bytes of the default PING reply.
pub open spec fn pong_view() -> Seq<u8> {
    seq![80u8, 79u8, 78u8, 71u8]
}

/// The bytes of the reply acknowledging a SET.
pub open spec fn ok_view() -> Seq<u8> {
    seq![79u8, 75u8]
}

/// The reply PING owes: the payload itself, or the simple string "PONG".
pub open spec fn ping_reply(p: Ping) -> ValueView {
    match p.message {
        Some(m) => m.deep(),
        None => ValueView::SimpleStrings(pong_view()),
    }
}

/// Why a SET or GET rejects its key argument, if it does: the key must be a
/// non-null bulk string of valid UTF-8.
pub open spec fn key_error(key: RespDataType) -> Option<RespError> {
    match key {
        RespDataType::BulkStrings(ob) => match ob {
            Some(k) => if !is_valid_utf8(k@) {
                Some(RespError::InvalidUtf8)
            } else {
                None
            },
            None => Some(RespError::EmptyKey),
        },
        _ => Some(RespError::KeyNotBulk),
    }
}

/// Why a SET rejects its arguments, if it does: a bad key, or a value with no
/// store representation.
pub open spec fn set_error(cmd: SetCmd) -> Option<RespError> {
    match key_error(cmd.key) {
        Some(e) => Some(e),
        None => if !storable(cmd.value) {
            Some(RespError::NotStorable)
        } else {
            None
        },
    }
}

/// The deadline `d` milliseconds after `now`, held at the clock's largest
/// value where the sum would pass it.
pub open spec fn sat_add(now: u64, d: u64) -> u64 {
    if now + d > u64::MAX {
        u64::MAX
    } else {
        (now + d) as u64
    }
}

/// A SET that passed validation took effect: the new mapping is the old with
/// the key bound to a fresh entry that represents the value, its lifecycle
/// state set by the expiry argument alone.
pub open spec fn set_applied(
    m0: Map<Seq<u8>, RedisDataTypeWithTTL>,
    m1: Map<Seq<u8>, RedisDataTypeWithTTL>,
    cmd: SetCmd,
    now: u64,
) -> bool {
    let kb = cmd.key->BulkStrings_0->0@;
    &&& m1.contains_key(kb)
    &&& m1 == m0.insert(kb, m1[kb])
    &&& match m1[kb] {
        RedisDataTypeWithTTL::Infinite(sv) => cmd.expiry is None && stored_matches(sv, cmd.value),
        RedisDataTypeWithTTL::Finite(sv, dl) => cmd.expiry matches Some(d) && dl == sat_add(now, d)
            && stored_matches(sv, cmd.value),
    }
}

impl Ping {
    /// Executes PING: the payload if one was given, else the simple string
    /// "PONG"; no shared state is touched.
    pub fn execute(&self) -> (r: RespDataType)
        ensures
            r.deep() == ping_reply(*self),
    {
        match &self.message {
            Some(m) => m.deep_copy(),
            None => {
                let mut b: Vec<u8> = Vec::new();
                b.push(80);
                b.push(79);
                b.push(78);
                b.push(71);
                proof {
                    assert(b@ =~= pong_view());
                }
                RespDataType::SimpleStrings(b)
            },
        }
    }
}

impl Echo {
    /// Executes ECHO: the payload, verbatim; no shared state is touched.
    pub fn execute(&self) -> (r: RespDataType)
        ensures
            r.deep() == self.message.deep(),
    {
        self.message.deep_copy()
    }
}

impl SetCmd {
    /// Executes SET against the store at time `now`: rejects a bad key or an
    /// unrepresentable value and changes nothing; otherwise binds the key,
    /// replacing without regard whatever it held, and replies "OK".
    pub fn execute(&self, store: &mut KeyValueStore, now: u64) -> (r: Result<
        RespDataType,
        RespError,
    >)
        requires
            old(store).wf(),
        ensures
            final(store).wf(),
            (match set_error(*self) {
                Some(e) => r matches Err(e2) && e2 == e && final(store).as_map() == old(
                    store,
                ).as_map(),
                None => (r matches Ok(reply) && reply.deep() == ValueView::SimpleStrings(ok_view()))
                    && set_applied(old(store).as_map(), final(store).as_map(), *self, now),
            }),
    {
        let key_bytes: Vec<u8> = match &self.key {
            RespDataType::BulkStrings(ob) => match ob {
                Some(k) => crate::util::copy_range(k, 0, k.len()),
                None => {
                    return Err(RespError::EmptyKey);
                },
            },
            _ => {
                return Err(RespError::KeyNotBulk);
            },
        };
        proof {
            assert(key_bytes@ =~= self.key->BulkStrings_0->0@);
        }
        if !crate::util::check_utf8(&key_bytes) {
            return Err(RespError::InvalidUtf8);
        }
        let sv = match resp_to_stored(&self.value) {
            Ok(sv) => sv,
            Err(e) => {
                return Err(e);
            },
        };
        let entry = match self.expiry {
            Some(d) => {
                let dl = if now > u64::MAX - d {
                    u64::MAX
                } else {
                    now + d
                };
                RedisDataTypeWithTTL::Finite(sv, dl)
            },
            None => RedisDataTypeWithTTL::Infinite(sv),
        };
        store.set(key_bytes, entry);
        let mut b: Vec<u8> = Vec::new();
        b.push(79);
        b.push(75);
        proof {
            assert(b@ =~= ok_view());
        }
        Ok(RespDataType::SimpleStrings(b))
    }
}

impl Get {
    /// Executes GET against the store at time `now`: rejects a bad key and
    /// changes nothing; otherwise reads the key, removing it if the read
    /// observes an expired entry, and replies with the stored bytes, the null
    /// bulk string for an absent or expired key, or a type fault.
    pub fn execute(&self, store: &mut KeyValueStore, now: u64) -> (r: Result<
        RespDataType,
        RespError,
    >)
        requires
            old(store).wf(),
        ensures
            final(store).wf(),
            (match key_error(self.key) {
                Some(e) => r matches Err(e2) && e2 == e && final(store).as_map() == old(
                    store,
                ).as_map(),
                None => {
                    let kb = self.key->BulkStrings_0->0@;
                    &&& final(store).as_map() == get_post(old(store).as_map(), kb, now)
                    &&& match get_result(old(store).as_map(), kb, now) {
                        Ok(ob) => match ob {
                            Some(bytes) => r matches Ok(v) && v.deep() == ValueView::BulkStrings(
                                Some(bytes),
                            ),
                            None => r matches Ok(v) && v.deep() == ValueView::BulkStrings(
                                None::<Seq<u8>>,
                            ),
                        },
                        Err(e) => r matches Err(e2) && e2 == e,
                    }
                },
            }),
    {
        let key_bytes: Vec<u8> = match &self.key {
            RespDataType::BulkStrings(ob) => match ob {
                Some(k) => crate::util::copy_range(k, 0, k.len()),
                None => {
                    return Err(RespError::EmptyKey);
                },
            },
            _ => {
                return Err(RespError::KeyNotBulk);
            },
        };
        proof {
            assert(key_bytes@ =~= self.key->BulkStrings_0->0@);
        }
        if !crate::util::check_utf8(&key_bytes) {
            return Err(RespError::InvalidUtf8);
        }
        match store.get(&key_bytes, now) {
            Ok(ob) => match ob {
                Some(b) => Ok(RespDataType::BulkStrings(Some(b))),
                None => Ok(RespDataType::BulkStrings(None)),
            },
            Err(e) => Err(e),
        }
    }
}

impl RespCommand {
    /// Validates a decoded wire value into a command, exactly as
    /// `parse_command` reads it.
    pub fn try_from(value: RespDataType) -> (r: Result<RespCommand, RespError>)
        ensures
            r == parse_command(value),
    {
        match value {
            RespDataType::Arrays(oa) => match oa {
                Some(mut arr) => {
                    if arr.len() == 0 {
                        return Err(RespError::ExpectedBulkString);
                    }
                    let is_named = match &arr[0] {
                        RespDataType::BulkStrings(on) => match on {
                            Some(_) => true,
                            None => false,
                        },
                        _ => false,
                    };
                    if !is_named {
                        return Err(RespError::ExpectedBulkString);
                    }
                    let low = match &arr[0] {
                        RespDataType::BulkStrings(on) => match on {
                            Some(name) => crate::util::to_ascii_lower(name),
                            None => Vec::new(),
                        },
                        _ => Vec::new(),
                    };
                    if !crate::util::check_utf8(&low) {
                        return Err(RespError::InvalidUtf8);
                    }
                    let mut kw: Vec<u8> = Vec::new();
                    kw.push(112);
                    kw.push(105);
                    kw.push(110);
                    kw.push(103);
                    proof {
                        assert(kw@ =~= kw_ping());
                    }
                    if crate::util::vec_eq(&low, &kw) {
                        // PING
                        let take_message = arr.len() >= 2 && (match &arr[1] {
                            RespDataType::BulkStrings(_) => true,
                            _ => false,
                        });
                        if take_message {
                            let m = arr.remove(1);
                            return Ok(RespCommand::Ping(Ping { message: Some(m) }));
                        }
                        return Ok(RespCommand::Ping(Ping { message: None }));
                    }
                    let mut kw: Vec<u8> = Vec::new();
                    kw.push(101);
                    kw.push(99);
                    kw.push(104);
                    kw.push(111);
                    proof {
                        assert(kw@ =~= kw_echo());
                    }
                    if crate::util::vec_eq(&low, &kw) {
                        // ECHO
                        if arr.len() < 2 {
                            return Err(RespError::MissingMessage);
                        }
                        let ok_message = match &arr[1] {
                            RespDataType::BulkStrings(_) => true,
                            _ => false,
                        };
                        if !ok_message {
                            return Err(RespError::MessageNotBulk);
                        }
                        let m = arr.remove(1);
                        return Ok(RespCommand::Echo(Echo { message: m }));
                    }
                    let mut kw: Vec<u8> = Vec::new();
                    kw.push(115);
                    kw.push(101);
                    kw.push(116);
                    proof {
                        assert(kw@ =~= kw_set());
                    }
                    if crate::util::vec_eq(&low, &kw) {
                        // SET
                        if arr.len() < 2 {
                            return Err(RespError::MissingKey);
                        }
                        let ok_key = match &arr[1] {
                            RespDataType::BulkStrings(_) => true,
                            _ => false,
                        };
                        if !ok_key {
                            return Err(RespError::KeyNotBulk);
                        }
                        if arr.len() < 3 {
                            return Err(RespError::MissingValue);
                        }
                        let ok_value = match &arr[2] {
                            RespDataType::BulkStrings(_) => true,
                            _ => false,
                        };
                        if !ok_value {
                            return Err(RespError::ValueNotBulk);
                        }
                        if arr.len() <= 3 {
                            let key = arr.remove(1);
                            let value = arr.remove(1);
                            return Ok(RespCommand::SetCmd(SetCmd { key, value, expiry: None }));
                        }
                        if arr.len() == 4 {
                            return Err(RespError::UnexpectedArgument);
                        }
                        match &arr[3] {
                            RespDataType::BulkStrings(opt) => match opt {
                                Some(ob) => {
                                    if !crate::util::check_utf8(ob) {
                                        return Err(RespError::InvalidUtf8);
                                    }
                                    let d = match &arr[4] {
                                        RespDataType::Integers(d) => Some(*d),
                                        _ => None,
                                    };
                                    match d {
                                        None => Err(RespError::ExpectedInteger),
                                        Some(d) => {
                                            if d < 0 {
                                                return Err(RespError::DurationOutOfRange);
                                            }
                                            let oblow = crate::util::to_ascii_lower(ob);
                                            let mut pxkw: Vec<u8> = Vec::new();
                                            pxkw.push(112);
                                            pxkw.push(120);
                                            proof {
                                                assert(pxkw@ =~= kw_px());
                                            }
                                            if crate::util::vec_eq(&oblow, &pxkw) {
                                                let key = arr.remove(1);
                                                let value = arr.remove(1);
                                                Ok(
                                                    RespCommand::SetCmd(
                                                        SetCmd {
                                                            key,
                                                            value,
                                                            expiry: Some(d as u64),
                                                        },
                                                    ),
                                                )
                                            } else {
                                                Err(RespError::ExpectedPx)
                                            }
                                        },
                                    }
                                },
                                None => Err(RespError::ExpectedPx),
                            },
                            _ => Err(RespError::OptionNotBulk),
                        }
                    } else {
                        let mut kw: Vec<u8> = Vec::new();
                        kw.push(103);
                        kw.push(101);
                        kw.push(116);
                        proof {
                            assert(kw@ =~= kw_get());
                        }
                        if crate::util::vec_eq(&low, &kw) {
                            // GET
                            if arr.len() < 2 {
                                return Err(RespError::MissingKey);
                            }
                            let ok_key = match &arr[1] {
                                RespDataType::BulkStrings(_) => true,
                                _ => false,
                            };
                            if !ok_key {
                                return Err(RespError::KeyNotBulk);
                            }
                            let key = arr.remove(1);
                            Ok(RespCommand::Get(Get { key }))
                        } else {
                            Err(RespError::UnknownCommand)
                        }
                    }
                },
                None => Err(RespError::ExpectedArray),
            },
            _ => Err(RespError::ExpectedArray),
        }
    }
}

} // verus!
