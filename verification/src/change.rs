//! Staged input changes, and the check that a batch of them is free of conflicts.

use vstd::prelude::*;
use crate::key::KeyId;
use crate::model::{
    conflicts_at, first_conflict, has_conflict, is_first_conflict, staged_at, staged_value, stages,
    ChangeView,
};
use crate::node::same_bytes;

verus! {

/// One staged input change: the key and the raw value it is set to.
#[derive(Debug, PartialEq, Eq)]
pub struct InputChange {
    pub key: KeyId,
    pub value: Vec<u8>,
}

impl View for InputChange {
    type V = ChangeView;

    open spec fn view(&self) -> ChangeView {
        ChangeView { key: self.key, value: self.value@ }
    }
}

/// The views of the changes of a batch, in the order in which they were staged.
pub open spec fn batch_view(changes: Seq<InputChange>) -> Seq<ChangeView> {
    Seq::new(changes.len(), |i: int| changes[i]@)
}

/// The first change of the batch that sets a key to another value than an earlier
/// change did, if there is one.
pub fn find_conflict(changes: &Vec<InputChange>) -> (r: Option<usize>)
    ensures
        has_conflict(batch_view(changes@)) ==> r == Some(
            first_conflict(batch_view(changes@)) as usize,
        ),
        !has_conflict(batch_view(changes@)) ==> r is None,
        r matches Some(j) ==> is_first_conflict(batch_view(changes@), j as int),
{
    let ghost c = batch_view(changes@);
    let n: usize = changes.len();
    let mut j: usize = 0;
    while j < n
        invariant
            j <= n,
            n == changes@.len(),
            c == batch_view(changes@),
            forall|l: int| 0 <= l < j ==> !conflicts_at(c, l),
        decreases n - j,
    {
        let mut i: usize = 0;
        while i < j
            invariant
                i <= j,
                j < n,
                n == changes@.len(),
                c == batch_view(changes@),
                forall|l: int| 0 <= l < j ==> !conflicts_at(c, l),
                forall|x: int|
                    0 <= x < i ==> !((#[trigger] c[x]).key == c[j as int].key && c[x].value
                        != c[j as int].value),
            decreases j - i,
        {
            if changes[i].key.0 == changes[j].key.0 && !same_bytes(
                &changes[i].value,
                &changes[j].value,
            ) {
                proof {
                    assert(c[i as int].key == c[j as int].key && c[i as int].value
                        != c[j as int].value);
                    assert(conflicts_at(c, j as int));
                    assert(is_first_conflict(c, j as int));
                    let f = first_conflict(c);
                    assert(is_first_conflict(c, f));
                    assert(f == j);
                }
                return Some(j);
            }
            i = i + 1;
        }
        assert(!conflicts_at(c, j as int));
        j = j + 1;
    }
    None
}

/// The first change of the batch that sets the key with identifier `k`, if there is one.
pub fn find_change(changes: &Vec<InputChange>, k: usize) -> (r: Option<usize>)
    ensures
        r.is_some() == stages(batch_view(changes@), k as int),
        r matches Some(i) ==> i < changes@.len() && changes@[i as int].key@ == k,
        r matches Some(i) ==> (!has_conflict(batch_view(changes@)) ==> changes@[i as int].value@
            == staged_value(batch_view(changes@), k as int)),
{
    let ghost c = batch_view(changes@);
    let n: usize = changes.len();
    let mut i: usize = 0;
    while i < n
        invariant
            i <= n,
            n == changes@.len(),
            c == batch_view(changes@),
            forall|x: int| 0 <= x < i ==> (#[trigger] c[x]).key@ != k,
        decreases n - i,
    {
        if changes[i].key.index() == k {
            proof {
                assert(c[i as int].key@ == k);
                if !has_conflict(c) {
                    let kk: int = k as int;
                    let x = staged_at(c, kk);
                    assert(c[i as int].key@ == kk);
                    assert(c[x].key@ == kk);
                    assert(c[x].key.0 == c[i as int].key.0);
                    assert(c[x].key == c[i as int].key);
                    if c[x].value != c[i as int].value {
                        if x < i {
                            assert(conflicts_at(c, i as int));
                        } else {
                            assert(conflicts_at(c, x));
                        }
                    }
                }
            }
            return Some(i);
        }
        i = i + 1;
    }
    None
}

} // verus!
