//! Injected data: flat tables of singleton values, looked up by the tag of their
//! type. A slot is set at most once and never changes afterwards; the tables are no
//! part of the dependency graph and are never invalidated.

use vstd::prelude::*;
use crate::node::copy_bytes;

verus! {

/// Whether some slot of the table has the tag `tag`.
pub open spec fn has_tag(slots: Seq<(u64, Seq<u8>)>, tag: u64) -> bool {
    exists|i: int| 0 <= i < slots.len() && (#[trigger] slots[i]).0 == tag
}

/// The position of the slot with the tag `tag`.
pub open spec fn slot_of(slots: Seq<(u64, Seq<u8>)>, tag: u64) -> int {
    choose|i: int| 0 <= i < slots.len() && (#[trigger] slots[i]).0 == tag
}

/// The table as a map from tags to values.
pub open spec fn table_of(slots: Seq<(u64, Seq<u8>)>) -> Map<u64, Seq<u8>> {
    Map::new(|tag: u64| has_tag(slots, tag), |tag: u64| slots[slot_of(slots, tag)].1)
}

/// The table after `value` was offered for `tag`: a free slot takes it, a set slot
/// keeps what it has.
pub open spec fn set_once(table: Map<u64, Seq<u8>>, tag: u64, value: Seq<u8>) -> Map<
    u64,
    Seq<u8>,
> {
    if table.dom().contains(tag) {
        table
    } else {
        table.insert(tag, value)
    }
}

/// A table of singleton values, one per type tag.
#[derive(Debug)]
pub struct DiceData {
    slots: Vec<(u64, Vec<u8>)>,
}

impl DiceData {
    /// The slots of the table, in the order in which they were set.
    pub closed spec fn slots(&self) -> Seq<(u64, Seq<u8>)> {
        Seq::new(self.slots@.len(), |i: int| (self.slots@[i].0, self.slots@[i].1@))
    }

    /// No tag has two slots.
    pub open spec fn wf(&self) -> bool {
        forall|i: int, j: int|
            0 <= i < self.slots().len() && 0 <= j < self.slots().len() && (
            #[trigger] self.slots()[i]).0 == (#[trigger] self.slots()[j]).0 ==> i == j
    }
}

impl View for DiceData {
    type V = Map<u64, Seq<u8>>;

    open spec fn view(&self) -> Map<u64, Seq<u8>> {
        table_of(self.slots())
    }
}

impl DiceData {
    /// An empty table.
    pub fn new() -> (d: DiceData)
        ensures
            d.wf(),
            d@ == Map::<u64, Seq<u8>>::empty(),
    {
        let d = DiceData { slots: Vec::new() };
        assert(d@ =~= Map::<u64, Seq<u8>>::empty());
        d
    }

    /// The position of the slot with the tag `tag`, if it is set.
    fn find(&self, tag: u64) -> (r: Option<usize>)
        requires
            self.wf(),
        ensures
            r.is_some() == has_tag(self.slots(), tag),
            r matches Some(i) ==> i < self.slots().len() && i == slot_of(self.slots(), tag)
                && self.slots()[i as int].0 == tag,
    {
        let n: usize = self.slots.len();
        let mut i: usize = 0;
        while i < n
            invariant
                i <= n,
                n == self.slots@.len(),
                n == self.slots().len(),
                self.wf(),
                forall|j: int| 0 <= j < i ==> (#[trigger] self.slots()[j]).0 != tag,
            decreases n - i,
        {
            if self.slots[i].0 == tag {
                proof {
                    assert(self.slots()[i as int].0 == tag);
                    let c = slot_of(self.slots(), tag);
                    assert(self.slots()[c].0 == tag);
                }
                return Some(i);
            }
            i = i + 1;
        }
        None
    }

    /// Offers `value` for the slot of `tag`. Returns whether the slot was free and
    /// took the value; a slot that is set keeps what it has.
    pub fn set(&mut self, tag: u64, value: Vec<u8>) -> (fresh: bool)
        requires
            old(self).wf(),
        ensures
            final(self).wf(),
            fresh == !old(self)@.dom().contains(tag),
            final(self)@ == set_once(old(self)@, tag, value@),
    {
        let ghost before = self.slots();
        match self.find(tag) {
            Some(_) => false,
            None => {
                self.slots.push((tag, value));
                proof {
                    let after = self.slots();
                    assert(after =~= before.push((tag, value@)));
                    assert forall|t: u64| has_tag(after, t) == (has_tag(before, t) || t
                        == tag) by {
                        if has_tag(before, t) {
                            let i = slot_of(before, t);
                            assert(after[i].0 == t);
                        }
                        if t == tag {
                            assert(after[before.len() as int].0 == t);
                        }
                        if has_tag(after, t) {
                            let i = slot_of(after, t);
                            if i < before.len() {
                                assert(before[i].0 == t);
                            }
                        }
                    }
                    assert forall|i: int, j: int|
                        0 <= i < after.len() && 0 <= j < after.len() && (#[trigger] after[i]).0 == (
                        #[trigger] after[j]).0 implies i == j by {
                        if i < before.len() && j < before.len() {
                            assert(before[i].0 == before[j].0);
                        } else if i < before.len() {
                            assert(before[i].0 == tag);
                        } else if j < before.len() {
                            assert(before[j].0 == tag);
                        }
                    }
                    assert forall|t: u64| has_tag(after, t) implies #[trigger] table_of(after)[t]
                        == set_once(table_of(before), tag, value@)[t] by {
                        let i = slot_of(after, t);
                        assert(after[i].0 == t);
                        if t != tag {
                            assert(before[i].0 == t);
                            let b = slot_of(before, t);
                            assert(before[b].0 == t);
                            assert(after[b].0 == after[i].0);
                        } else {
                            assert(after[before.len() as int].0 == after[i].0);
                        }
                    }
                    assert(table_of(after) =~= set_once(table_of(before), tag, value@));
                }
                true
            },
        }
    }

    /// Whether the slot of `tag` is set.
    pub fn has(&self, tag: u64) -> (b: bool)
        requires
            self.wf(),
        ensures
            b == self@.dom().contains(tag),
    {
        self.find(tag).is_some()
    }

    /// A copy of the value in the slot of `tag`, if the slot is set.
    pub fn get(&self, tag: u64) -> (r: Option<Vec<u8>>)
        requires
            self.wf(),
        ensures
            self@.dom().contains(tag) ==> (r matches Some(v) && v@ == self@[tag]),
            !self@.dom().contains(tag) ==> r is None,
    {
        match self.find(tag) {
            Some(i) => {
                assert(self.slots()[i as int].1 == self.slots@[i as int].1@);
                Some(copy_bytes(&self.slots[i].1))
            },
            None => None,
        }
    }

    /// The number of slots that are set.
    pub fn len(&self) -> (n: usize)
        ensures
            n == self.slots().len(),
            n == 0 <==> self@ == Map::<u64, Seq<u8>>::empty(),
    {
        proof {
            if self.slots().len() > 0 {
                assert(has_tag(self.slots(), self.slots()[0].0));
                assert(self@.dom().contains(self.slots()[0].0));
            } else {
                assert(self@ =~= Map::<u64, Seq<u8>>::empty());
            }
        }
        self.slots.len()
    }
}

/// What a caller attaches to one transaction: values of its own, visible to the
/// computations of that transaction only.
#[derive(Debug)]
pub struct UserComputationData {
    pub data: DiceData,
}

impl UserComputationData {
    /// Nothing attached.
    pub fn new() -> (u: UserComputationData)
        ensures
            u.data.wf(),
            u.data@ == Map::<u64, Seq<u8>>::empty(),
    {
        UserComputationData { data: DiceData::new() }
    }
}

/// A slot that was set keeps its value whatever is offered for any tag later.
pub proof fn set_slots_never_change(
    table: Map<u64, Seq<u8>>,
    tag: u64,
    later: u64,
    value: Seq<u8>,
)
    requires
        table.dom().contains(tag),
    ensures
        set_once(table, later, value).dom().contains(tag),
        set_once(table, later, value)[tag] == table[tag],
{
}

} // verus!
