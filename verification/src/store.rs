//! The in-memory key-value store: string keys mapped to tagged values, each
//! with an infinite lifetime or a deadline on a monotonic millisecond clock,
//! expired lazily on the read that observes the expiry.
use vstd::prelude::*;

verus! {

use crate::util::RespError;
use crate::util::is_valid_utf8;

/// A value the store can hold.
#[derive(Debug)]
pub enum RedisDataType {
    Strings(Vec<u8>),
    Integers(i64),
    Arrays(Vec<RedisDataType>),
}

/// A stored value with its lifecycle: no deadline, or a deadline in
/// milliseconds on the monotonic clock; an entry is expired once the clock
/// passes its deadline.
#[derive(Debug)]
pub enum RedisDataTypeWithTTL {
    Infinite(RedisDataType),
    Finite(RedisDataType, u64),
}

/// The mapping an association list of unique keys stands for, later pairs
/// taking precedence.
pub closed spec fn list_map(s: Seq<(Vec<u8>, RedisDataTypeWithTTL)>) -> Map<
    Seq<u8>,
    RedisDataTypeWithTTL,
>
    decreases s.len(),
{
    if s.len() == 0 {
        Map::empty()
    } else {
        list_map(s.drop_last()).insert(s.last().0@, s.last().1)
    }
}

/// The store: a mapping from UTF-8 byte-string keys to entries, keys unique,
/// order of insertion immaterial.
pub struct KeyValueStore {
    entries: Vec<(Vec<u8>, RedisDataTypeWithTTL)>,
}

/// What a read of key `k` at time `now` returns: the stored bytes, nothing
/// for an absent or expired entry, and a type fault for an entry that does
/// not hold a string.
pub open spec fn get_result(
    m: Map<Seq<u8>, RedisDataTypeWithTTL>,
    k: Seq<u8>,
    now: u64,
) -> Result<Option<Seq<u8>>, RespError> {
    if !m.contains_key(k) {
        Ok(None)
    } else {
        match m[k] {
            RedisDataTypeWithTTL::Infinite(v) => match v {
                RedisDataType::Strings(s) => Ok(Some(s@)),
                _ => Err(RespError::WrongType),
            },
            RedisDataTypeWithTTL::Finite(v, dl) => match v {
                RedisDataType::Strings(s) => if now > dl {
                    Ok(None)
                } else {
                    Ok(Some(s@))
                },
                _ => Err(RespError::WrongType),
            },
        }
    }
}

/// The mapping after a read of key `k` at time `now`: unchanged, unless the
/// read observed a string entry past its deadline, which it removes.
pub open spec fn get_post(m: Map<Seq<u8>, RedisDataTypeWithTTL>, k: Seq<u8>, now: u64) -> Map<
    Seq<u8>,
    RedisDataTypeWithTTL,
> {
    if m.contains_key(k) && (match m[k] {
        RedisDataTypeWithTTL::Finite(v, dl) => (v matches RedisDataType::Strings(_)) && now > dl,
        _ => false,
    }) {
        m.remove(k)
    } else {
        m
    }
}

impl KeyValueStore {
    /// The mapping this store holds.
    pub closed spec fn as_map(self) -> Map<Seq<u8>, RedisDataTypeWithTTL> {
        list_map(self.entries@)
    }

    /// Every key is held once, and every key is valid UTF-8.
    pub closed spec fn wf(self) -> bool {
        (forall|i: int, j: int|
            0 <= i < j < self.entries@.len() ==> #[trigger] self.entries@[i].0@
                != #[trigger] self.entries@[j].0@) && (forall|i: int|
            0 <= i < self.entries@.len() ==> is_valid_utf8(#[trigger] self.entries@[i].0@))
    }

    /// An empty store.
    pub fn new() -> (r: KeyValueStore)
        ensures
            r.wf(),
            r.as_map() == Map::<Seq<u8>, RedisDataTypeWithTTL>::empty(),
    {
        KeyValueStore { entries: Vec::new() }
    }

    /// Index of the entry holding `key`, if the store has one.
    fn find_index(&self, key: &Vec<u8>) -> (r: Option<usize>)
        ensures
            match r {
                Some(i) => i < self.entries@.len() && self.entries@[i as int].0@ == key@,
                None => forall|i: int|
                    0 <= i < self.entries@.len() ==> #[trigger] self.entries@[i].0@ != key@,
            },
    {
        let n = self.entries.len();
        let mut i: usize = 0;
        while i < n
            invariant
                i <= n,
                n == self.entries@.len(),
                forall|m: int| 0 <= m < i ==> #[trigger] self.entries@[m].0@ != key@,
            decreases n - i,
        {
            if crate::util::vec_eq(&self.entries[i].0, key) {
                return Some(i);
            }
            i = i + 1;
        }
        None
    }
}

proof fn lemma_list_map_absent(s: Seq<(Vec<u8>, RedisDataTypeWithTTL)>, k: Seq<u8>)
    requires
        forall|i: int| 0 <= i < s.len() ==> #[trigger] s[i].0@ != k,
    ensures
        !list_map(s).contains_key(k),
    decreases s.len(),
{
    if s.len() > 0 {
        lemma_list_map_absent(s.drop_last(), k);
    }
}

proof fn lemma_list_map_get(s: Seq<(Vec<u8>, RedisDataTypeWithTTL)>, i: int)
    requires
        0 <= i < s.len(),
        forall|x: int, y: int| 0 <= x < y < s.len() ==> #[trigger] s[x].0@ != #[trigger] s[y].0@,
    ensures
        list_map(s).contains_key(s[i].0@),
        list_map(s)[s[i].0@] == s[i].1,
    decreases s.len(),
{
    if i == s.len() - 1 {
    } else {
        lemma_list_map_get(s.drop_last(), i);
        assert(s.drop_last()[i] == s[i]);
        assert(s.last().0@ != s[i].0@);
    }
}

proof fn lemma_list_map_update(
    s: Seq<(Vec<u8>, RedisDataTypeWithTTL)>,
    i: int,
    p: (Vec<u8>, RedisDataTypeWithTTL),
)
    requires
        0 <= i < s.len(),
        forall|x: int, y: int| 0 <= x < y < s.len() ==> #[trigger] s[x].0@ != #[trigger] s[y].0@,
        s[i].0@ == p.0@,
    ensures
        list_map(s.update(i, p)) == list_map(s).insert(p.0@, p.1),
    decreases s.len(),
{
    let t = s.update(i, p);
    if i == s.len() - 1 {
        assert(t.drop_last() =~= s.drop_last());
        assert(t.last() == p);
        assert(list_map(s.drop_last()).insert(p.0@, p.1) =~= list_map(s.drop_last()).insert(
            s.last().0@,
            s.last().1,
        ).insert(p.0@, p.1));
    } else {
        lemma_list_map_update(s.drop_last(), i, p);
        assert(t.drop_last() =~= s.drop_last().update(i, p));
        assert(t.last() == s.last());
        assert(s.last().0@ != p.0@);
        assert(list_map(s.drop_last()).insert(p.0@, p.1).insert(s.last().0@, s.last().1)
            =~= list_map(s.drop_last()).insert(s.last().0@, s.last().1).insert(p.0@, p.1));
    }
}

proof fn lemma_list_map_remove(s: Seq<(Vec<u8>, RedisDataTypeWithTTL)>, i: int)
    requires
        0 <= i < s.len(),
        forall|x: int, y: int| 0 <= x < y < s.len() ==> #[trigger] s[x].0@ != #[trigger] s[y].0@,
    ensures
        list_map(s.remove(i)) == list_map(s).remove(s[i].0@),
    decreases s.len(),
{
    let t = s.remove(i);
    if i == s.len() - 1 {
        assert(t =~= s.drop_last());
        assert forall|x: int| 0 <= x < s.drop_last().len() implies #[trigger] s.drop_last()[x].0@
            != s[i].0@ by {
            assert(s.drop_last()[x] == s[x]);
        }
        lemma_list_map_absent(s.drop_last(), s[i].0@);
        assert(list_map(s.drop_last()) =~= list_map(s.drop_last()).insert(
            s.last().0@,
            s.last().1,
        ).remove(s[i].0@));
    } else {
        lemma_list_map_remove(s.drop_last(), i);
        assert(t.drop_last() =~= s.drop_last().remove(i));
        assert(t.last() == s.last());
        assert(s[i] == s.drop_last()[i]);
        assert(s.last().0@ != s[i].0@);
        assert(list_map(s.drop_last()).remove(s[i].0@).insert(s.last().0@, s.last().1)
            =~= list_map(s.drop_last()).insert(s.last().0@, s.last().1).remove(s[i].0@));
    }
}

proof fn lemma_list_map_push(s: Seq<(Vec<u8>, RedisDataTypeWithTTL)>, p: (Vec<u8>, RedisDataTypeWithTTL))
    ensures
        list_map(s.push(p)) == list_map(s).insert(p.0@, p.1),
{
    assert(s.push(p).drop_last() =~= s);
}

impl KeyValueStore {
    /// Writes `entry` under `key`, replacing without regard any entry the key
    /// had: value and lifecycle state alike.  That the new mapping is the old
    /// one with the key bound afresh, whatever it was bound to before, is the
    /// overwrite law of SET.
    pub fn set(&mut self, key: Vec<u8>, entry: RedisDataTypeWithTTL)
        requires
            old(self).wf(),
            is_valid_utf8(key@),
        ensures
            final(self).wf(),
            final(self).as_map() == old(self).as_map().insert(key@, entry),
    {
        let idx = self.find_index(&key);
        match idx {
            Some(i) => {
                proof {
                    lemma_list_map_update(self.entries@, i as int, (key, entry));
                }
                self.entries[i] = (key, entry);
                proof {
                    assert forall|x: int, y: int|
                        0 <= x < y < self.entries@.len() implies #[trigger] self.entries@[x].0@
                        != #[trigger] self.entries@[y].0@ by {
                        assert(old(self).entries@[x].0@ != old(self).entries@[y].0@);
                    }
                }
            },
            None => {
                proof {
                    lemma_list_map_push(self.entries@, (key, entry));
                }
                self.entries.push((key, entry));
                proof {
                    assert forall|x: int, y: int|
                        0 <= x < y < self.entries@.len() implies #[trigger] self.entries@[x].0@
                        != #[trigger] self.entries@[y].0@ by {
                        if y < self.entries@.len() - 1 {
                            assert(old(self).entries@[x].0@ != old(self).entries@[y].0@);
                        } else {
                            assert(old(self).entries@[x].0@ != key@);
                        }
                    }
                }
            },
        }
    }

    /// Reads `key` at time `now`.  An absent key reads as nothing and leaves
    /// the store as it was — a read never creates an entry.  A string entry
    /// past its deadline is removed and reads as nothing, so a later read of
    /// the key also finds nothing; otherwise the stored bytes are returned,
    /// and an entry that is not a string is a type fault.
    pub fn get(&mut self, key: &Vec<u8>, now: u64) -> (r: Result<Option<Vec<u8>>, RespError>)
        requires
            old(self).wf(),
        ensures
            final(self).wf(),
            final(self).as_map() == get_post(old(self).as_map(), key@, now),
            (match r {
                Ok(ob) => match ob {
                    Some(b) => get_result(old(self).as_map(), key@, now) == Ok::<
                        Option<Seq<u8>>,
                        RespError,
                    >(Some(b@)),
                    None => get_result(old(self).as_map(), key@, now) == Ok::<
                        Option<Seq<u8>>,
                        RespError,
                    >(None),
                },
                Err(e) => get_result(old(self).as_map(), key@, now) == Err::<
                    Option<Seq<u8>>,
                    RespError,
                >(e),
            }),
    {
        let idx = self.find_index(key);
        match idx {
            None => {
                proof {
                    lemma_list_map_absent(self.entries@, key@);
                }
                Ok(None)
            },
            Some(i) => {
                proof {
                    lemma_list_map_get(self.entries@, i as int);
                }
                let mut remove_it = false;
                let result: Result<Option<Vec<u8>>, RespError>;
                {
                    let e = &self.entries[i].1;
                    match e {
                        RedisDataTypeWithTTL::Infinite(v) => match v {
                            RedisDataType::Strings(sv) => {
                                let c = crate::util::copy_range(sv, 0, sv.len());
                                proof {
                                    assert(c@ =~= sv@);
                                }
                                result = Ok(Some(c));
                            },
                            _ => {
                                result = Err(RespError::WrongType);
                            },
                        },
                        RedisDataTypeWithTTL::Finite(v, dl) => match v {
                            RedisDataType::Strings(sv) => {
                                if now > *dl {
                                    remove_it = true;
                                    result = Ok(None);
                                } else {
                                    let c = crate::util::copy_range(sv, 0, sv.len());
                                    proof {
                                        assert(c@ =~= sv@);
                                    }
                                    result = Ok(Some(c));
                                }
                            },
                            _ => {
                                result = Err(RespError::WrongType);
                            },
                        },
                    }
                }
                if remove_it {
                    proof {
                        lemma_list_map_remove(self.entries@, i as int);
                    }
                    self.entries.remove(i);
                    proof {
                        assert forall|x: int, y: int|
                            0 <= x < y < self.entries@.len() implies #[trigger] self.entries@[x].0@
                            != #[trigger] self.entries@[y].0@ by {
                            let ox: int = if x < i { x } else { x + 1 };
                            let oy: int = if y < i { y } else { y + 1 };
                            assert(self.entries@[x] == old(self).entries@[ox]);
                            assert(self.entries@[y] == old(self).entries@[oy]);
                            assert(old(self).entries@[ox].0@ != old(self).entries@[oy].0@);
                        }
                        assert forall|x: int|
                            0 <= x < self.entries@.len() implies is_valid_utf8(
                            #[trigger] self.entries@[x].0@,
                        ) by {
                            let ox: int = if x < i { x } else { x + 1 };
                            assert(self.entries@[x] == old(self).entries@[ox]);
                        }
                    }
                }
                result
            },
        }
    }
}

/// The overwrite law of SET: writing a key twice leaves exactly the second
/// binding, whatever the first held — its value and lifecycle state alike.
pub proof fn lemma_set_overwrites(
    m: Map<Seq<u8>, RedisDataTypeWithTTL>,
    k: Seq<u8>,
    e1: RedisDataTypeWithTTL,
    e2: RedisDataTypeWithTTL,
)
    ensures
        m.insert(k, e1).insert(k, e2) == m.insert(k, e2),
{
    assert(m.insert(k, e1).insert(k, e2) =~= m.insert(k, e2));
}

/// The lazy-expiration law of the time-to-live: after a SET of key `k` to
/// string `sv` with deadline `dl`, a GET at any time `t` up to the deadline
/// returns the bytes and changes nothing, while a GET at any `t` past the
/// deadline returns nothing and removes the entry — so every later GET of
/// `k`, at any time `t2`, also returns nothing and changes nothing.
pub proof fn lemma_ttl_lazy_expiration(
    m: Map<Seq<u8>, RedisDataTypeWithTTL>,
    k: Seq<u8>,
    sv: Vec<u8>,
    dl: u64,
    t: u64,
    t2: u64,
)
    ensures
        ({
            let m1 = m.insert(k, RedisDataTypeWithTTL::Finite(RedisDataType::Strings(sv), dl));
            &&& (t <= dl ==> get_result(m1, k, t) == Ok::<Option<Seq<u8>>, RespError>(Some(sv@))
                && get_post(m1, k, t) == m1)
            &&& (t > dl ==> get_result(m1, k, t) == Ok::<Option<Seq<u8>>, RespError>(None)
                && get_post(m1, k, t) == m1.remove(k) && get_result(m1.remove(k), k, t2) == Ok::<
                Option<Seq<u8>>,
                RespError,
            >(None) && get_post(m1.remove(k), k, t2) == m1.remove(k))
        }),
{
}

/// The idempotent-null law of GET: reading an absent key returns nothing and
/// never creates an entry — the store is exactly what it was.
pub proof fn lemma_get_absent(m: Map<Seq<u8>, RedisDataTypeWithTTL>, k: Seq<u8>, t: u64)
    requires
        !m.contains_key(k),
    ensures
        get_result(m, k, t) == Ok::<Option<Seq<u8>>, RespError>(None),
        get_post(m, k, t) == m,
{
}

} // verus!
