//! Memoization records: what an evaluation ended in, and over which versions the
//! result is known to hold.

use vstd::prelude::*;
use crate::key::KeyId;

verus! {

/// The mathematical content of an `Outcome`.
pub enum OutcomeView {
    Value(Seq<u8>),
    Failed(Seq<u8>),
    Cycle(Seq<KeyId>),
}

/// What an evaluation ended in: a value, the failure that the computation body
/// reported, or the cycle that the evaluation ran into.
#[derive(Debug, PartialEq, Eq)]
pub enum Outcome {
    Value(Vec<u8>),
    Failed(Vec<u8>),
    Cycle(Vec<KeyId>),
}

impl View for Outcome {
    type V = OutcomeView;

    open spec fn view(&self) -> OutcomeView {
        match self {
            Outcome::Value(b) => OutcomeView::Value(b@),
            Outcome::Failed(b) => OutcomeView::Failed(b@),
            Outcome::Cycle(c) => OutcomeView::Cycle(c@),
        }
    }
}

/// An independent copy of a byte string.
pub fn copy_bytes(src: &Vec<u8>) -> (dst: Vec<u8>)
    ensures
        dst@ == src@,
{
    let n: usize = src.len();
    let mut dst: Vec<u8> = Vec::new();
    let mut i: usize = 0;
    while i < n
        invariant
            i <= n,
            n == src@.len(),
            dst@ == src@.take(i as int),
        decreases n - i,
    {
        dst.push(src[i]);
        assert(dst@ =~= src@.take(i as int + 1));
        i = i + 1;
    }
    assert(dst@ =~= src@);
    dst
}

/// An independent copy of a list of identifiers.
pub fn copy_ids(src: &Vec<KeyId>) -> (dst: Vec<KeyId>)
    ensures
        dst@ == src@,
{
    let n: usize = src.len();
    let mut dst: Vec<KeyId> = Vec::new();
    let mut i: usize = 0;
    while i < n
        invariant
            i <= n,
            n == src@.len(),
            dst@ == src@.take(i as int),
        decreases n - i,
    {
        dst.push(src[i]);
        assert(dst@ =~= src@.take(i as int + 1));
        i = i + 1;
    }
    assert(dst@ =~= src@);
    dst
}

/// Whether two byte strings hold the same bytes.
pub fn same_bytes(a: &Vec<u8>, b: &Vec<u8>) -> (r: bool)
    ensures
        r == (a@ == b@),
{
    if a.len() != b.len() {
        return false;
    }
    let n: usize = a.len();
    let mut i: usize = 0;
    while i < n
        invariant
            i <= n,
            n == a@.len(),
            n == b@.len(),
            forall|j: int| 0 <= j < i ==> a@[j] == b@[j],
        decreases n - i,
    {
        if a[i] != b[i] {
            return false;
        }
        i = i + 1;
    }
    assert(a@ =~= b@);
    true
}

/// Whether two lists hold the same identifiers in the same order.
pub fn same_ids(a: &Vec<KeyId>, b: &Vec<KeyId>) -> (r: bool)
    ensures
        r == (a@ == b@),
{
    if a.len() != b.len() {
        return false;
    }
    let n: usize = a.len();
    let mut i: usize = 0;
    while i < n
        invariant
            i <= n,
            n == a@.len(),
            n == b@.len(),
            forall|j: int| 0 <= j < i ==> a@[j] == b@[j],
        decreases n - i,
    {
        if a[i] != b[i] {
            return false;
        }
        i = i + 1;
    }
    assert(a@ =~= b@);
    true
}

impl Outcome {
    /// An independent copy of the outcome.
    pub fn duplicate(&self) -> (o: Outcome)
        ensures
            o@ == self@,
    {
        match self {
            Outcome::Value(b) => Outcome::Value(copy_bytes(b)),
            Outcome::Failed(b) => Outcome::Failed(copy_bytes(b)),
            Outcome::Cycle(c) => Outcome::Cycle(copy_ids(c)),
        }
    }

    /// Value equality of outcomes: the same kind with the same content.
    pub fn same_as(&self, other: &Outcome) -> (r: bool)
        ensures
            r == (self@ == other@),
    {
        match (self, other) {
            (Outcome::Value(a), Outcome::Value(b)) => same_bytes(a, b),
            (Outcome::Failed(a), Outcome::Failed(b)) => same_bytes(a, b),
            (Outcome::Cycle(a), Outcome::Cycle(b)) => same_ids(a, b),
            _ => false,
        }
    }
}

/// The mathematical content of an `Entry`.
pub struct EntryView {
    pub since: nat,
    pub through: nat,
    pub outcome: OutcomeView,
    pub deps: Seq<KeyId>,
}

/// One memoization record of a key: the outcome of an evaluation, the keys that the
/// evaluation read, and the versions `since ..= through` at which the outcome holds.
#[derive(Debug, PartialEq, Eq)]
pub struct Entry {
    pub since: u64,
    pub through: u64,
    pub outcome: Outcome,
    pub deps: Vec<KeyId>,
}

impl View for Entry {
    type V = EntryView;

    open spec fn view(&self) -> EntryView {
        EntryView {
            since: self.since as nat,
            through: self.through as nat,
            outcome: self.outcome@,
            deps: self.deps@,
        }
    }
}

/// Whether the record holds at version `v`.
pub open spec fn covers(e: EntryView, v: nat) -> bool {
    e.since <= v <= e.through
}

/// Whether some record of the history holds at version `v`.
pub open spec fn covered(h: Seq<EntryView>, v: nat) -> bool {
    exists|i: int| 0 <= i < h.len() && covers(#[trigger] h[i], v)
}

/// A position in the history of a record that holds at `v`; the only one where the
/// history is well formed.
pub open spec fn covering(h: Seq<EntryView>, v: nat) -> int {
    choose|i: int| 0 <= i < h.len() && covers(#[trigger] h[i], v)
}

/// Whether position `i` holds the latest record of the history that ended before `v`.
pub open spec fn is_predecessor(h: Seq<EntryView>, i: int, v: nat) -> bool {
    &&& 0 <= i < h.len()
    &&& h[i].through < v
    &&& forall|j: int|
        0 <= j < h.len() && (#[trigger] h[j]).through < v ==> h[j].through <= h[i].through
}

/// Whether some record of the history ended before `v`.
pub open spec fn has_predecessor(h: Seq<EntryView>, v: nat) -> bool {
    exists|i: int| 0 <= i < h.len() && (#[trigger] h[i]).through < v
}

/// The position of the latest record that ended before `v`.
pub open spec fn predecessor(h: Seq<EntryView>, v: nat) -> int {
    choose|i: int| is_predecessor(h, i, v)
}

/// Every record spans at least one version, and no two records hold at the same version.
pub open spec fn history_wf(h: Seq<EntryView>) -> bool {
    &&& forall|i: int| 0 <= i < h.len() ==> (#[trigger] h[i]).since <= h[i].through
    &&& forall|i: int, j: int|
        0 <= i < h.len() && 0 <= j < h.len() && i != j ==> (#[trigger] h[i]).through < (
        #[trigger] h[j]).since || h[j].through < h[i].since
}

/// The views of the records of a history, in order.
pub open spec fn history_view(h: Seq<Entry>) -> Seq<EntryView> {
    Seq::new(h.len(), |i: int| h[i]@)
}

/// The views of the histories of a graph, each at the position of its key.
pub open spec fn graph_view(nodes: Seq<Vec<Entry>>) -> Seq<Seq<EntryView>> {
    Seq::new(nodes.len(), |k: int| history_view(nodes[k]@))
}

} // verus!
