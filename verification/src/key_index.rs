//! The key index: interns keys into stable identifiers and finds the key of an
//! identifier again. Nothing is ever evicted, so an identifier, once given, keeps
//! its key for the life of the index.

use vstd::prelude::*;
use crate::key::{Key, KeyId, KeyView};

verus! {

/// Whether `k` stands somewhere in `s`.
pub open spec fn knows(s: Seq<KeyView>, k: KeyView) -> bool {
    exists|i: int| 0 <= i < s.len() && s[i] == k
}

/// A position of `k` in `s`; the only one where `s` holds nothing twice.
pub open spec fn id_of(s: Seq<KeyView>, k: KeyView) -> int {
    choose|i: int| 0 <= i < s.len() && s[i] == k
}

/// Whether no key stands at two positions of `s`.
pub open spec fn distinct(s: Seq<KeyView>) -> bool {
    forall|i: int, j: int| 0 <= i < s.len() && 0 <= j < s.len() && s[i] == s[j] ==> i == j
}

/// The index after `k` was interned into `s`, and the identifier that `k` has in it.
pub open spec fn interned(s: Seq<KeyView>, k: KeyView) -> (Seq<KeyView>, int) {
    if knows(s, k) {
        (s, id_of(s, k))
    } else {
        (s.push(k), s.len() as int)
    }
}

/// The index after all keys of `batch` were interned into `keys`, in order.
pub open spec fn intern_all(keys: Seq<KeyView>, batch: Seq<KeyView>) -> Seq<KeyView>
    decreases batch.len(),
{
    if batch.len() == 0 {
        keys
    } else {
        interned(intern_all(keys, batch.drop_last()), batch.last()).0
    }
}

/// The most keys one index holds: identifiers are 32 bits wide.
pub const MAX_KEYS: usize = 0xffff_ffff;

/// The table of all keys seen so far, each at the position that is its identifier.
pub struct DiceKeyIndex {
    keys: Vec<Key>,
}

impl View for DiceKeyIndex {
    type V = Seq<KeyView>;

    closed spec fn view(&self) -> Seq<KeyView> {
        Seq::new(self.keys@.len(), |i: int| self.keys@[i]@)
    }
}

impl DiceKeyIndex {
    /// No key has two identifiers, and every identifier fits in 32 bits.
    pub open spec fn wf(&self) -> bool {
        &&& distinct(self@)
        &&& self@.len() <= MAX_KEYS
    }

    /// An index that has seen no key.
    pub fn new() -> (idx: DiceKeyIndex)
        ensures
            idx.wf(),
            idx@ == Seq::<KeyView>::empty(),
    {
        let idx = DiceKeyIndex { keys: Vec::new() };
        assert(idx@ =~= Seq::<KeyView>::empty());
        idx
    }

    /// The number of keys seen so far.
    pub fn len(&self) -> (n: usize)
        ensures
            n == self@.len(),
    {
        self.keys.len()
    }

    /// The identifier of `key`, if the index has seen it.
    pub fn find(&self, key: &Key) -> (r: Option<KeyId>)
        requires
            self.wf(),
        ensures
            knows(self@, key@) ==> r == Some(KeyId(id_of(self@, key@) as u32)),
            !knows(self@, key@) ==> r is None,
            r matches Some(id) ==> (id@ < self@.len() && self@[id@ as int] == key@),
    {
        let n: usize = self.keys.len();
        let mut i: usize = 0;
        while i < n
            invariant
                i <= n,
                n == self.keys@.len(),
                n == self@.len(),
                self.wf(),
                forall|j: int| 0 <= j < i ==> self@[j] != key@,
            decreases n - i,
        {
            if self.keys[i].same_as(key) {
                assert(self@[i as int] == key@);
                assert(knows(self@, key@));
                return Some(KeyId(i as u32));
            }
            i = i + 1;
        }
        None
    }

    /// Gives `key` its identifier: the one it already has, or else the next free one.
    /// Returns `None`, and leaves the index as it was, only where the key is new and
    /// all 32-bit identifiers are taken.
    pub fn intern(&mut self, key: Key) -> (r: Option<KeyId>)
        requires
            old(self).wf(),
        ensures
            final(self).wf(),
            knows(old(self)@, key@) || old(self)@.len() < MAX_KEYS ==> {
                &&& final(self)@ == interned(old(self)@, key@).0
                &&& r == Some(KeyId(interned(old(self)@, key@).1 as u32))
            },
            !knows(old(self)@, key@) && old(self)@.len() >= MAX_KEYS ==> {
                &&& final(self)@ == old(self)@
                &&& r is None
            },
            r matches Some(id) ==> (id@ < final(self)@.len() && final(self)@[id@ as int] == key@),
            forall|i: int| 0 <= i < old(self)@.len() ==> final(self)@[i] == old(self)@[i],
    {
        match self.find(&key) {
            Some(id) => Some(id),
            None => {
                let n: usize = self.keys.len();
                if n >= MAX_KEYS {
                    return None;
                }
                let ghost before = self@;
                self.keys.push(key);
                assert(self@ =~= before.push(key@));
                Some(KeyId(n as u32))
            },
        }
    }

    /// The key with the identifier `i`.
    pub fn key_at(&self, i: usize) -> (k: &Key)
        requires
            i < self@.len(),
        ensures
            k@ == self@[i as int],
    {
        &self.keys[i]
    }

    /// The key that `id` was given to, or `None` where the index never gave `id` out.
    pub fn lookup(&self, id: KeyId) -> (r: Option<&Key>)
        ensures
            id@ < self@.len() ==> (r matches Some(k) && k@ == self@[id@ as int]),
            id@ >= self@.len() ==> r is None,
    {
        let i: usize = id.index();
        if i < self.keys.len() {
            Some(&self.keys[i])
        } else {
            None
        }
    }
}

/// Interning keeps an index free of duplicates.
pub proof fn interning_keeps_distinct(s: Seq<KeyView>, k: KeyView)
    requires
        distinct(s),
    ensures
        distinct(interned(s, k).0),
        knows(interned(s, k).0, k),
        0 <= interned(s, k).1 < interned(s, k).0.len(),
        interned(s, k).0[interned(s, k).1] == k,
{
    if !knows(s, k) {
        let t = s.push(k);
        assert(t[s.len() as int] == k);
        assert forall|i: int, j: int| 0 <= i < t.len() && 0 <= j < t.len() && t[i] == t[j]
            implies i == j by {
            if i < s.len() && j < s.len() {
                assert(s[i] == s[j]);
            } else if i < s.len() {
                assert(s[i] == k);
            } else if j < s.len() {
                assert(s[j] == k);
            }
        }
    }
}

/// Interning a batch keeps an index free of duplicates, adds at most one key per key
/// of the batch, keeps every earlier identifier, and leaves every key of the batch
/// with an identifier.
pub proof fn interning_all_keeps_distinct(keys: Seq<KeyView>, batch: Seq<KeyView>)
    requires
        distinct(keys),
    ensures
        distinct(intern_all(keys, batch)),
        keys.len() <= intern_all(keys, batch).len() <= keys.len() + batch.len(),
        forall|i: int| 0 <= i < keys.len() ==> intern_all(keys, batch)[i] == keys[i],
        forall|j: int| 0 <= j < batch.len() ==> knows(intern_all(keys, batch), #[trigger] batch[j]),
    decreases batch.len(),
{
    if batch.len() > 0 {
        let rest = batch.drop_last();
        let mid = intern_all(keys, rest);
        interning_all_keeps_distinct(keys, rest);
        interning_keeps_distinct(mid, batch.last());
        let all = intern_all(keys, batch);
        assert forall|j: int| 0 <= j < batch.len() implies knows(all, #[trigger] batch[j]) by {
            if j < rest.len() {
                assert(batch[j] == rest[j]);
                assert(knows(mid, rest[j]));
                let i = choose|i: int| 0 <= i < mid.len() && mid[i] == rest[j];
                assert(all[i] == batch[j]);
            }
        }
    }
}

/// Equal keys get equal identifiers: interning a key a second time, after any
/// number of other keys, returns the identifier of the first time and leaves the
/// index as it is.
pub proof fn equal_keys_equal_ids(s: Seq<KeyView>, k1: KeyView, k2: KeyView)
    requires
        distinct(s),
        k1 == k2,
    ensures
        interned(interned(s, k1).0, k2).1 == interned(s, k1).1,
        interned(interned(s, k1).0, k2).0 == interned(s, k1).0,
{
    interning_keeps_distinct(s, k1);
    let t = interned(s, k1).0;
    let a = interned(s, k1).1;
    let b = id_of(t, k2);
    assert(t[a] == k2);
    assert(0 <= b < t.len() && t[b] == k2);
}

/// Distinct keys get distinct identifiers, whichever is interned first.
pub proof fn distinct_keys_distinct_ids(s: Seq<KeyView>, k1: KeyView, k2: KeyView)
    requires
        distinct(s),
        k1 != k2,
    ensures
        interned(interned(s, k1).0, k2).1 != interned(s, k1).1,
{
    interning_keeps_distinct(s, k1);
    let t = interned(s, k1).0;
    interning_keeps_distinct(t, k2);
    let a = interned(s, k1).1;
    let b = interned(t, k2).1;
    let u = interned(t, k2).0;
    assert(u[b] == k2);
    assert(t[a] == k1);
    if knows(t, k2) {
        assert(u == t);
    } else {
        assert(b == t.len());
    }
}

/// An identifier keeps its key: interning never changes what an earlier
/// identifier stands for.
pub proof fn ids_are_stable(s: Seq<KeyView>, k: KeyView, i: int)
    requires
        0 <= i < s.len(),
    ensures
        i < interned(s, k).0.len(),
        interned(s, k).0[i] == s[i],
{
}

} // verus!
