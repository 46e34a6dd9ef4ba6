//! The key-value store with lazy time-based expiration.
//!
//! A [`DbStore`] maps keys to values; a binding may carry an absolute
//! expiry instant (in milliseconds). Expiry is enforced only at the
//! moment a key is read: a read past the instant removes the binding
//! and reports the key absent. Time enters every operation as a plain
//! argument, so the store itself is a pure data structure.

use vstd::prelude::*;

verus! {

/// One stored binding.
#[derive(Debug)]
struct Entry {
    key: String,
    value: String,
    expires_at: Option<u64>,
}

/// The model of one binding: the value's characters and the optional
/// absolute expiry instant in milliseconds.
#[verifier::ext_equal]
pub struct EntryModel {
    pub value: Seq<char>,
    pub expires_at: Option<u64>,
}

/// Whether a binding's expiry instant has passed at `now_ms`.
pub open spec fn is_expired(e: EntryModel, now_ms: u64) -> bool {
    match e.expires_at {
        Some(t) => t < now_ms,
        None => false,
    }
}

/// The instant a fresh binding expires: `now + ttl`, saturating, or
/// never.
pub open spec fn spec_expiry(ttl_ms: Option<u64>, now_ms: u64) -> Option<u64> {
    match ttl_ms {
        Some(d) => if now_ms + d > u64::MAX {
            Some(u64::MAX)
        } else {
            Some((now_ms + d) as u64)
        },
        None => None,
    }
}

/// Whether some binding in `entries` has the key `k`.
spec fn has_key(entries: Seq<Entry>, k: Seq<char>) -> bool {
    exists|i: int| 0 <= i < entries.len() && entries[i].key@ == k
}

/// The model of the binding in `entries` with key `k`.
spec fn entry_at(entries: Seq<Entry>, k: Seq<char>) -> EntryModel {
    let i = choose|i: int| 0 <= i < entries.len() && entries[i].key@ == k;
    EntryModel { value: entries[i].value@, expires_at: entries[i].expires_at }
}

/// The key-value store.
#[derive(Debug)]
pub struct DbStore {
    entries: Vec<Entry>,
}

impl View for DbStore {
    type V = Map<Seq<char>, EntryModel>;

    /// The store as a map from key to binding model.
    closed spec fn view(&self) -> Map<Seq<char>, EntryModel> {
        Map::new(|k: Seq<char>| has_key(self.entries@, k), |k: Seq<char>| entry_at(self.entries@, k))
    }
}

impl DbStore {
    /// Each live key has at most one binding.
    pub closed spec fn wf(&self) -> bool {
        forall|i: int, j: int|
            0 <= i < j < self.entries@.len() ==> self.entries@[i].key@ != self.entries@[j].key@
    }

    /// An index's binding is what the map hands out for its key.
    proof fn lemma_view_at(&self, i: int)
        requires
            self.wf(),
            0 <= i < self.entries@.len(),
        ensures
            self@.contains_key(self.entries@[i].key@),
            self@[self.entries@[i].key@] == (EntryModel {
                value: self.entries@[i].value@,
                expires_at: self.entries@[i].expires_at,
            }),
    {
        let k = self.entries@[i].key@;
        assert(has_key(self.entries@, k));
        let j = choose|j: int| 0 <= j < self.entries@.len() && self.entries@[j].key@ == k;
        assert(j == i);
    }

    pub fn new() -> (r: DbStore)
        ensures
            r.wf(),
            r@ == Map::<Seq<char>, EntryModel>::empty(),
    {
        let r = DbStore { entries: Vec::new() };
        proof {
            assert(r@ =~= Map::<Seq<char>, EntryModel>::empty());
        }
        r
    }

    /// The position of the binding for `key`, if one exists.
    fn index_of(&self, key: &String) -> (r: Option<usize>)
        requires
            self.wf(),
        ensures
            match r {
                Some(i) => i < self.entries@.len() && self.entries@[i as int].key@ == key@,
                None => !has_key(self.entries@, key@),
            },
    {
        let mut i: usize = 0;
        while i < self.entries.len()
            invariant
                i <= self.entries@.len(),
                forall|j: int| 0 <= j < i ==> self.entries@[j].key@ != key@,
            decreases self.entries@.len() - i,
        {
            if self.entries[i].key == *key {
                return Some(i);
            }
            i = i + 1;
        }
        None
    }

    /// Associate `key` with `value`, replacing any prior binding. With
    /// a time to live, the binding expires `ttl_ms` after `now_ms`
    /// (saturating); without one, any prior expiry is cleared too.
    pub fn set(&mut self, key: &str, value: &str, ttl_ms: Option<u64>, now_ms: u64)
        requires
            old(self).wf(),
        ensures
            final(self).wf(),
            final(self)@ == old(self)@.insert(
                key@,
                EntryModel { value: value@, expires_at: spec_expiry(ttl_ms, now_ms) },
            ),
    {
        let k = key.to_owned();
        let v = value.to_owned();
        let expires_at = match ttl_ms {
            Some(d) => {
                if d > u64::MAX - now_ms {
                    Some(u64::MAX)
                } else {
                    Some(now_ms + d)
                }
            },
            None => None,
        };
        let entry = Entry { key: k, value: v, expires_at };
        let ghost target = EntryModel { value: value@, expires_at: spec_expiry(ttl_ms, now_ms) };
        let k2 = key.to_owned();
        match self.index_of(&k2) {
            Some(i) => {
                self.entries[i] = entry;
                proof {
                    self.lemma_set_view(*old(self), i as int, key@, target);
                }
            },
            None => {
                self.entries.push(entry);
                proof {
                    self.lemma_push_view(*old(self), key@, target);
                }
            },
        }
    }

    /// Replacing the binding at the key's own index inserts into the
    /// map model.
    proof fn lemma_set_view(&self, pre: DbStore, i: int, k: Seq<char>, e: EntryModel)
        requires
            pre.wf(),
            0 <= i < pre.entries@.len(),
            pre.entries@[i].key@ == k,
            self.entries@ == pre.entries@.update(i, self.entries@[i]),
            self.entries@[i].key@ == k,
            self.entries@[i].value@ == e.value,
            self.entries@[i].expires_at == e.expires_at,
        ensures
            self.wf(),
            self@ == pre@.insert(k, e),
    {
        assert forall|p: int, q: int| 0 <= p < q < self.entries@.len() implies self.entries@[p].key@
            != self.entries@[q].key@ by {
            assert(pre.entries@[p].key@ != pre.entries@[q].key@);
            if p != i {
                assert(self.entries@[p].key@ == pre.entries@[p].key@);
            }
            if q != i {
                assert(self.entries@[q].key@ == pre.entries@[q].key@);
            }
        }
        assert forall|q: Seq<char>| true implies #[trigger] self@.contains_key(q)
            == pre@.insert(k, e).contains_key(q) by {
            if q == k {
                assert(has_key(self.entries@, k));
            } else {
                if has_key(self.entries@, q) {
                    let j = choose|j: int|
                        0 <= j < self.entries@.len() && self.entries@[j].key@ == q;
                    assert(pre.entries@[j].key@ == q);
                }
                if has_key(pre.entries@, q) {
                    let j = choose|j: int| 0 <= j < pre.entries@.len() && pre.entries@[j].key@ == q;
                    assert(self.entries@[j].key@ == q);
                }
            }
        }
        assert forall|q: Seq<char>| self@.contains_key(q) implies self@[q] == pre@.insert(k, e)[q]
            by {
            let j = choose|j: int| 0 <= j < self.entries@.len() && self.entries@[j].key@ == q;
            if q == k {
                assert(j == i);
                self.lemma_view_at(i);
            } else {
                assert(j != i);
                assert(pre.entries@[j].key@ == q);
                self.lemma_view_at(j);
                pre.lemma_view_at(j);
            }
        }
        assert(self@ =~= pre@.insert(k, e));
    }

    /// Appending a binding for a fresh key inserts into the map model.
    proof fn lemma_push_view(&self, pre: DbStore, k: Seq<char>, e: EntryModel)
        requires
            pre.wf(),
            !has_key(pre.entries@, k),
            self.entries@.len() == pre.entries@.len() + 1,
            self.entries@ == pre.entries@.push(self.entries@[pre.entries@.len() as int]),
            self.entries@.last().key@ == k,
            self.entries@.last().value@ == e.value,
            self.entries@.last().expires_at == e.expires_at,
        ensures
            self.wf(),
            self@ == pre@.insert(k, e),
    {
        let n = pre.entries@.len() as int;
        assert forall|p: int, q: int| 0 <= p < q < self.entries@.len() implies self.entries@[p].key@
            != self.entries@[q].key@ by {
            if q < n {
                assert(pre.entries@[p].key@ != pre.entries@[q].key@);
            } else {
                assert(self.entries@[q].key@ == k);
                assert(self.entries@[p].key@ == pre.entries@[p].key@);
                assert(has_key(pre.entries@, pre.entries@[p].key@));
            }
        }
        assert forall|q: Seq<char>| true implies #[trigger] self@.contains_key(q)
            == pre@.insert(k, e).contains_key(q) by {
            if q == k {
                assert(self.entries@[n].key@ == k);
                assert(has_key(self.entries@, k));
            } else {
                if has_key(self.entries@, q) {
                    let j = choose|j: int|
                        0 <= j < self.entries@.len() && self.entries@[j].key@ == q;
                    assert(j < n);
                    assert(pre.entries@[j].key@ == q);
                }
                if has_key(pre.entries@, q) {
                    let j = choose|j: int| 0 <= j < pre.entries@.len() && pre.entries@[j].key@ == q;
                    assert(self.entries@[j].key@ == q);
                }
            }
        }
        assert forall|q: Seq<char>| self@.contains_key(q) implies self@[q] == pre@.insert(k, e)[q]
            by {
            let j = choose|j: int| 0 <= j < self.entries@.len() && self.entries@[j].key@ == q;
            if q == k {
                assert(j == n);
                self.lemma_view_at(n);
            } else {
                assert(j < n);
                assert(pre.entries@[j].key@ == q);
                self.lemma_view_at(j);
                pre.lemma_view_at(j);
            }
        }
        assert(self@ =~= pre@.insert(k, e));
    }

    /// Removing the binding at an index removes its key from the map
    /// model.
    proof fn lemma_remove_view(&self, pre: DbStore, i: int)
        requires
            pre.wf(),
            0 <= i < pre.entries@.len(),
            self.entries@ == pre.entries@.remove(i),
        ensures
            self.wf(),
            self@ == pre@.remove(pre.entries@[i].key@),
    {
        let k = pre.entries@[i].key@;
        let n = self.entries@.len() as int;
        assert forall|p: int, q: int| 0 <= p < q < n implies self.entries@[p].key@
            != self.entries@[q].key@ by {
            let p2: int = if p < i {
                p
            } else {
                p + 1
            };
            let q2: int = if q < i {
                q
            } else {
                q + 1
            };
            assert(self.entries@[p] == pre.entries@[p2]);
            assert(self.entries@[q] == pre.entries@[q2]);
            assert(pre.entries@[p2].key@ != pre.entries@[q2].key@);
        }
        assert forall|q: Seq<char>| true implies #[trigger] self@.contains_key(q) == pre@.remove(
            k,
        ).contains_key(q) by {
            if has_key(self.entries@, q) {
                let j = choose|j: int| 0 <= j < n && self.entries@[j].key@ == q;
                let j2: int = if j < i {
                    j
                } else {
                    j + 1
                };
                assert(self.entries@[j] == pre.entries@[j2]);
                assert(pre.entries@[j2].key@ == q);
                assert(q != k);
            }
            if has_key(pre.entries@, q) && q != k {
                let j = choose|j: int| 0 <= j < pre.entries@.len() && pre.entries@[j].key@ == q;
                assert(j != i);
                let j2: int = if j < i {
                    j
                } else {
                    j - 1
                };
                assert(self.entries@[j2] == pre.entries@[j]);
                assert(has_key(self.entries@, q));
            }
        }
        assert forall|q: Seq<char>| self@.contains_key(q) implies self@[q] == pre@.remove(k)[q] by {
            let j = choose|j: int| 0 <= j < n && self.entries@[j].key@ == q;
            let j2: int = if j < i {
                j
            } else {
                j + 1
            };
            assert(self.entries@[j] == pre.entries@[j2]);
            self.lemma_view_at(j);
            pre.lemma_view_at(j2);
        }
        assert(self@ =~= pre@.remove(k));
    }

    /// Read `key` at instant `now_ms`. A binding whose expiry has
    /// passed is removed and reported absent — and stays absent for
    /// every later read. An unexpired binding is handed back unchanged.
    pub fn get(&mut self, key: &str, now_ms: u64) -> (r: Option<String>)
        requires
            old(self).wf(),
        ensures
            final(self).wf(),
            ({
                let m = old(self)@;
                if !m.contains_key(key@) {
                    r is None && final(self)@ == m
                } else if is_expired(m[key@], now_ms) {
                    r is None && final(self)@ == m.remove(key@)
                } else {
                    r matches Some(v) && v@ == m[key@].value && final(self)@ == m
                }
            }),
    {
        let k = key.to_owned();
        match self.index_of(&k) {
            None => None,
            Some(i) => {
                proof {
                    self.lemma_view_at(i as int);
                }
                let expired = match self.entries[i].expires_at {
                    Some(t) => t < now_ms,
                    None => false,
                };
                if expired {
                    let ghost pre = *self;
                    self.entries.remove(i);
                    proof {
                        self.lemma_remove_view(pre, i as int);
                    }
                    None
                } else {
                    Some(self.entries[i].value.clone())
                }
            },
        }
    }
}

/// Overwrite: a second set of the same key replaces the first binding
/// outright, whatever both bindings hold.
pub proof fn lemma_set_overwrites(
    m: Map<Seq<char>, EntryModel>,
    k: Seq<char>,
    e1: EntryModel,
    e2: EntryModel,
)
    ensures
        m.insert(k, e1).insert(k, e2) == m.insert(k, e2),
        m.insert(k, e2)[k] == e2,
{
    assert(m.insert(k, e1).insert(k, e2) =~= m.insert(k, e2));
}

/// A binding set without a time to live never expires, so a later read
/// at any instant hands its value back.
pub proof fn lemma_set_then_get(m: Map<Seq<char>, EntryModel>, k: Seq<char>, v: Seq<char>, now_ms: u64)
    ensures
        m.insert(k, EntryModel { value: v, expires_at: None }).contains_key(k),
        !is_expired(m.insert(k, EntryModel { value: v, expires_at: None })[k], now_ms),
        m.insert(k, EntryModel { value: v, expires_at: None })[k].value == v,
{
}

/// Expiry is final: once a read past the expiry instant has purged a
/// binding, the key is absent, so every further read still reports it
/// absent — the binding is not resurrected.
pub proof fn lemma_expired_key_purged(m: Map<Seq<char>, EntryModel>, k: Seq<char>, now_ms: u64)
    requires
        m.contains_key(k),
        is_expired(m[k], now_ms),
    ensures
        !m.remove(k).contains_key(k),
{
}

/// No cross-talk: a set or a purge of one key leaves every other key's
/// binding untouched.
pub proof fn lemma_disjoint_keys(
    m: Map<Seq<char>, EntryModel>,
    k1: Seq<char>,
    k2: Seq<char>,
    e: EntryModel,
)
    requires
        k1 != k2,
    ensures
        m.insert(k1, e).contains_key(k2) == m.contains_key(k2),
        m.contains_key(k2) ==> m.insert(k1, e)[k2] == m[k2],
        m.remove(k1).contains_key(k2) == m.contains_key(k2),
        m.contains_key(k2) ==> m.remove(k1)[k2] == m[k2],
{
}

} // verus!
