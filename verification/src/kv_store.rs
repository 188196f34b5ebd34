//! The keyspace: a mapping from byte-string keys to byte-string payloads
//! with optional millisecond-precision expiration.
//!
//! Time is a plain `u64` of monotonic milliseconds, handed in by the caller,
//! so expiry is a pure function of the store and the clock reading.  Expiry
//! is lazy: a record whose deadline has passed is logically absent, but is
//! only physically dropped when something overwrites or removes it.

use vstd::prelude::*;

use crate::bytes::copy_bytes;
use crate::bytes::bytes_eq;

verus! {

/// The mathematical content of one stored record.
#[verifier::ext_equal]
pub struct ItemModel {
    pub val: Seq<u8>,
    pub expire_at: Option<u64>,
}

/// `a + b` clamped to the range of `u64`.
pub open spec fn sat_add(a: u64, b: u64) -> u64 {
    if a + b > u64::MAX {
        u64::MAX
    } else {
        (a + b) as u64
    }
}

/// A record is live at `now` when it has no deadline or its deadline has
/// not yet passed.
pub open spec fn live_at(it: ItemModel, now: u64) -> bool {
    match it.expire_at {
        None => true,
        Some(e) => e >= now,
    }
}

/// The record a reader observes at `now`: present only if stored and live.
pub open spec fn live_get(m: Map<Seq<u8>, ItemModel>, k: Seq<u8>, now: u64) -> Option<ItemModel> {
    if m.contains_key(k) && live_at(m[k], now) {
        Some(m[k])
    } else {
        None
    }
}

/// One stored record: a payload and an optional expiry deadline.
pub struct KvItem {
    pub val: Vec<u8>,
    pub expire_at: Option<u64>,
}

impl View for KvItem {
    type V = ItemModel;

    open spec fn view(&self) -> ItemModel {
        ItemModel { val: self.val@, expire_at: self.expire_at }
    }
}

impl KvItem {
    /// Builds a record; with `expire_mills` set, the deadline is that many
    /// milliseconds after `now`, clamped to the range of `u64`.
    pub fn new(val: Vec<u8>, now: u64, expire_mills: Option<u64>) -> (r: KvItem)
        ensures
            r@.val == val@,
            r@.expire_at == match expire_mills {
                None => None::<u64>,
                Some(m) => Some(sat_add(now, m)),
            },
    {
        let expire_at = match expire_mills {
            None => None,
            Some(m) => Some(
                if m > u64::MAX - now {
                    u64::MAX
                } else {
                    now + m
                },
            ),
        };
        KvItem { val, expire_at }
    }

    /// Moves the record's deadline to `mills` milliseconds after `now`.
    pub fn expire_after(&mut self, now: u64, mills: u64)
        ensures
            final(self)@.val == old(self)@.val,
            final(self)@.expire_at == Some(sat_add(now, mills)),
    {
        self.expire_at = Some(
            if mills > u64::MAX - now {
                u64::MAX
            } else {
                now + mills
            },
        );
    }

    /// A copy of the record.
    pub fn duplicate(&self) -> (r: KvItem)
        ensures
            r@ == self@,
    {
        KvItem { val: copy_bytes(&self.val), expire_at: self.expire_at }
    }
}

/// What a caller may do with the record under a key, having observed it.
pub enum KvAction {
    /// Store this record under the key, whatever was there.
    Write(KvItem),
    /// Keep the record's deadline but give it this payload; nothing happens
    /// when no live record is stored.
    ReplacePayload(Vec<u8>),
    /// Leave the keyspace unchanged.
    Keep,
    /// Drop whatever record the key holds.
    Remove,
}

/// The mathematical content of a [`KvAction`].
pub enum ActionModel {
    Write(ItemModel),
    ReplacePayload(Seq<u8>),
    Keep,
    Remove,
}

impl View for KvAction {
    type V = ActionModel;

    open spec fn view(&self) -> ActionModel {
        match self {
            KvAction::Write(it) => ActionModel::Write(it@),
            KvAction::ReplacePayload(v) => ActionModel::ReplacePayload(v@),
            KvAction::Keep => ActionModel::Keep,
            KvAction::Remove => ActionModel::Remove,
        }
    }
}

/// The keyspace an action leaves behind.
pub open spec fn apply_action(
    m: Map<Seq<u8>, ItemModel>,
    k: Seq<u8>,
    now: u64,
    a: ActionModel,
) -> Map<Seq<u8>, ItemModel> {
    match a {
        ActionModel::Write(it) => m.insert(k, it),
        ActionModel::ReplacePayload(v) => if live_get(m, k, now) is Some {
            m.insert(k, ItemModel { val: v, expire_at: m[k].expire_at })
        } else {
            m
        },
        ActionModel::Keep => m,
        ActionModel::Remove => m.remove(k),
    }
}

struct KvEntry {
    key: Vec<u8>,
    item: KvItem,
}

/// The keyspace as entries is the map each key's entry induces.
spec fn kv_map(s: Seq<KvEntry>) -> Map<Seq<u8>, ItemModel>
    decreases s.len(),
{
    if s.len() == 0 {
        Map::empty()
    } else {
        kv_map(s.drop_last()).insert(s.last().key@, s.last().item@)
    }
}

/// The shared map from keys to records.
pub struct KvStore {
    entries: Vec<KvEntry>,
}

impl View for KvStore {
    type V = Map<Seq<u8>, ItemModel>;

    closed spec fn view(&self) -> Map<Seq<u8>, ItemModel> {
        kv_map(self.entries@)
    }
}

proof fn lemma_kv_map_key(s: Seq<KvEntry>, k: Seq<u8>)
    ensures
        kv_map(s).contains_key(k) <==> exists|i: int| 0 <= i < s.len() && s[i].key@ == k,
    decreases s.len(),
{
    if s.len() > 0 {
        lemma_kv_map_key(s.drop_last(), k);
        if s.last().key@ == k {
            assert(s[s.len() - 1].key@ == k);
        } else {
            if kv_map(s).contains_key(k) {
                let i = choose|i: int| 0 <= i < s.drop_last().len() && s.drop_last()[i].key@ == k;
                assert(s[i].key@ == k);
            }
            if exists|i: int| 0 <= i < s.len() && s[i].key@ == k {
                let i = choose|i: int| 0 <= i < s.len() && s[i].key@ == k;
                assert(i < s.len() - 1);
                assert(s.drop_last()[i].key@ == k);
            }
        }
    }
}

proof fn lemma_kv_map_val(s: Seq<KvEntry>, i: int)
    requires
        0 <= i < s.len(),
        forall|j: int| i < j < s.len() ==> s[j].key@ != s[i].key@,
    ensures
        kv_map(s).contains_key(s[i].key@),
        kv_map(s)[s[i].key@] == s[i].item@,
    decreases s.len(),
{
    if i == s.len() - 1 {
    } else {
        assert(s.drop_last()[i] == s[i]);
        lemma_kv_map_val(s.drop_last(), i);
        assert(s.last().key@ != s[i].key@);
    }
}

proof fn lemma_kv_map_update(s: Seq<KvEntry>, i: int, e: KvEntry)
    requires
        0 <= i < s.len(),
        e.key@ == s[i].key@,
        forall|j: int| i < j < s.len() ==> s[j].key@ != s[i].key@,
    ensures
        kv_map(s.update(i, e)) == kv_map(s).insert(e.key@, e.item@),
    decreases s.len(),
{
    let t = s.update(i, e);
    if i == s.len() - 1 {
        assert(t.drop_last() =~= s.drop_last());
        assert(t.last() == e);
        assert(kv_map(t) =~= kv_map(s).insert(e.key@, e.item@));
    } else {
        assert(t.drop_last() =~= s.drop_last().update(i, e));
        assert(t.last() == s.last());
        assert(s.drop_last()[i] == s[i]);
        lemma_kv_map_update(s.drop_last(), i, e);
        assert(s.last().key@ != e.key@);
        assert(kv_map(s.drop_last()).insert(e.key@, e.item@).insert(s.last().key@, s.last().item@)
            =~= kv_map(s.drop_last()).insert(s.last().key@, s.last().item@).insert(e.key@, e.item@));
    }
}

proof fn lemma_kv_map_remove(s: Seq<KvEntry>, i: int)
    requires
        0 <= i < s.len(),
        forall|j: int| 0 <= j < s.len() && j != i ==> s[j].key@ != s[i].key@,
    ensures
        kv_map(s.remove(i)) == kv_map(s).remove(s[i].key@),
    decreases s.len(),
{
    let k = s[i].key@;
    if i == s.len() - 1 {
        assert(s.remove(i) =~= s.drop_last());
        lemma_kv_map_key(s.drop_last(), k);
        assert(forall|j: int| 0 <= j < s.drop_last().len() ==> s.drop_last()[j] == s[j]);
        assert(!kv_map(s.drop_last()).contains_key(k));
        assert(kv_map(s.drop_last()) =~= kv_map(s.drop_last()).insert(k, s[i].item@).remove(k));
    } else {
        let t = s.remove(i);
        assert(t.len() == s.len() - 1);
        assert(t.drop_last() =~= s.drop_last().remove(i));
        assert(t.last() == s.last());
        assert(forall|j: int| 0 <= j < s.drop_last().len() ==> s.drop_last()[j] == s[j]);
        lemma_kv_map_remove(s.drop_last(), i);
        assert(s.last().key@ != k);
        assert(kv_map(s.drop_last()).remove(k).insert(s.last().key@, s.last().item@)
            =~= kv_map(s.drop_last()).insert(s.last().key@, s.last().item@).remove(k));
    }
}

proof fn lemma_kv_map_push(s: Seq<KvEntry>, e: KvEntry)
    ensures
        kv_map(s.push(e)) == kv_map(s).insert(e.key@, e.item@),
{
    assert(s.push(e).drop_last() =~= s);
    assert(s.push(e).last() == e);
}

impl KvStore {
    /// No two entries share a key.
    pub closed spec fn wf(&self) -> bool {
        forall|i: int, j: int|
            0 <= i < j < self.entries@.len() ==> self.entries@[i].key@ != self.entries@[j].key@
    }

    /// An empty keyspace.
    pub fn new() -> (r: KvStore)
        ensures
            r.wf(),
            r@ == Map::<Seq<u8>, ItemModel>::empty(),
    {
        KvStore { entries: Vec::new() }
    }

    /// The index of the entry under `key`, when one is stored.
    fn find_key(&self, key: &Vec<u8>) -> (r: Option<usize>)
        ensures
            match r {
                Some(i) => i < self.entries@.len() && self.entries@[i as int].key@ == key@,
                None => forall|i: int|
                    0 <= i < self.entries@.len() ==> self.entries@[i].key@ != key@,
            },
    {
        let mut i: usize = 0;
        while i < self.entries.len()
            invariant
                i <= self.entries@.len(),
                forall|j: int| 0 <= j < i ==> self.entries@[j].key@ != key@,
            decreases self.entries@.len() - i,
        {
            if bytes_eq(&self.entries[i].key, key) {
                return Some(i);
            }
            i += 1;
        }
        None
    }

    /// Stores `val` under `key`, replacing any record the key held.
    pub fn insert(&mut self, key: Vec<u8>, val: KvItem)
        requires
            old(self).wf(),
        ensures
            final(self).wf(),
            final(self)@ == old(self)@.insert(key@, val@),
    {
        let ghost s = self.entries@;
        match self.find_key(&key) {
            Some(i) => {
                let ghost e_key = key@;
                let e = KvEntry { key, item: val };
                proof {
                    lemma_kv_map_update(s, i as int, e);
                }
                self.entries.set(i, e);
                proof {
                    assert(forall|p: int, q: int|
                        0 <= p < q < self.entries@.len()
                            ==> self.entries@[p].key@ != self.entries@[q].key@) by {
                        assert(forall|p: int| 0 <= p < s.len() && p != i as int
                            ==> #[trigger] self.entries@[p].key@ == s[p].key@);
                    }
                }
            },
            None => {
                let e = KvEntry { key, item: val };
                proof {
                    lemma_kv_map_push(s, e);
                }
                self.entries.push(e);
                proof {
                    assert(forall|p: int| 0 <= p < s.len()
                        ==> #[trigger] self.entries@[p].key@ == s[p].key@);
                }
            },
        }
    }

    /// The payload stored live under `key` at `now`, copied out; absent or
    /// expired records read as nothing.
    pub fn get_clone(&self, key: &Vec<u8>, now: u64) -> (r: Option<KvItem>)
        requires
            self.wf(),
        ensures
            match r {
                Some(it) => live_get(self@, key@, now) == Some(it@),
                None => live_get(self@, key@, now) is None,
            },
    {
        match self.find_key(key) {
            None => {
                proof {
                    lemma_kv_map_key(self.entries@, key@);
                }
                None
            },
            Some(i) => {
                proof {
                    lemma_kv_map_val(self.entries@, i as int);
                }
                let entry = &self.entries[i];
                match entry.item.expire_at {
                    None => Some(entry.item.duplicate()),
                    Some(e) => {
                        if e >= now {
                            Some(entry.item.duplicate())
                        } else {
                            None
                        }
                    },
                }
            },
        }
    }

    /// Applies `action` to the record under `key`, as seen at `now`.
    pub fn do_action(&mut self, key: &Vec<u8>, now: u64, action: KvAction)
        requires
            old(self).wf(),
        ensures
            final(self).wf(),
            final(self)@ == apply_action(old(self)@, key@, now, action@),
    {
        let ghost s = self.entries@;
        match action {
            KvAction::Write(it) => {
                self.insert(copy_bytes(key), it);
            },
            KvAction::Keep => {},
            KvAction::ReplacePayload(v) => {
                match self.find_key(key) {
                    None => {
                        proof {
                            lemma_kv_map_key(s, key@);
                        }
                    },
                    Some(i) => {
                        proof {
                            lemma_kv_map_val(s, i as int);
                        }
                        let live = match self.entries[i].item.expire_at {
                            None => true,
                            Some(e) => e >= now,
                        };
                        if live {
                            let e = KvEntry {
                                key: copy_bytes(key),
                                item: KvItem {
                                    val: v,
                                    expire_at: self.entries[i].item.expire_at,
                                },
                            };
                            proof {
                                lemma_kv_map_update(s, i as int, e);
                            }
                            self.entries.set(i, e);
                            proof {
                                assert(forall|p: int, q: int|
                                    0 <= p < q < self.entries@.len()
                                        ==> self.entries@[p].key@ != self.entries@[q].key@) by {
                                    assert(forall|p: int| 0 <= p < s.len() && p != i as int
                                        ==> #[trigger] self.entries@[p].key@ == s[p].key@);
                                }
                            }
                        }
                    },
                }
            },
            KvAction::Remove => {
                match self.find_key(key) {
                    None => {
                        proof {
                            lemma_kv_map_key(s, key@);
                            assert(old(self)@.remove(key@) =~= old(self)@);
                        }
                    },
                    Some(i) => {
                        proof {
                            lemma_kv_map_remove(s, i as int);
                        }
                        self.entries.remove(i);
                        proof {
                            assert(forall|p: int, q: int|
                                0 <= p < q < self.entries@.len()
                                    ==> self.entries@[p].key@ != self.entries@[q].key@) by {
                                assert(forall|p: int| 0 <= p < self.entries@.len()
                                    ==> #[trigger] self.entries@[p].key@ == s[p].key@
                                        || self.entries@[p].key@ == s[p + 1].key@);
                            }
                        }
                    },
                }
            },
        }
    }
}

} // verus!
