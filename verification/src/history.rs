//! Searches in the history of one key.

use vstd::prelude::*;
use crate::model::is_latest;
use crate::node::{
    covered, covering, covers, has_predecessor, history_view, history_wf, is_predecessor,
    predecessor, Entry,
};

verus! {

/// The position of the record of `h` that holds at version `v`, if there is one.
pub fn find_covering(h: &Vec<Entry>, v: u64) -> (r: Option<usize>)
    requires
        history_wf(history_view(h@)),
    ensures
        covered(history_view(h@), v as nat) ==> r == Some(
            covering(history_view(h@), v as nat) as usize,
        ),
        !covered(history_view(h@), v as nat) ==> r is None,
        r matches Some(i) ==> i < h@.len() && covers(history_view(h@)[i as int], v as nat),
{
    let ghost hv = history_view(h@);
    let n: usize = h.len();
    let mut i: usize = 0;
    while i < n
        invariant
            i <= n,
            n == h@.len(),
            hv == history_view(h@),
            history_wf(hv),
            forall|j: int| 0 <= j < i ==> !covers(#[trigger] hv[j], v as nat),
        decreases n - i,
    {
        if h[i].since <= v && v <= h[i].through {
            proof {
                assert(covers(hv[i as int], v as nat));
                let c = covering(hv, v as nat);
                assert(covers(hv[c], v as nat));
                assert(c == i);
            }
            return Some(i);
        }
        i = i + 1;
    }
    None
}

/// The position of the latest record of `h` that ended before version `v`, if there is one.
pub fn find_predecessor(h: &Vec<Entry>, v: u64) -> (r: Option<usize>)
    requires
        history_wf(history_view(h@)),
    ensures
        has_predecessor(history_view(h@), v as nat) ==> r == Some(
            predecessor(history_view(h@), v as nat) as usize,
        ),
        !has_predecessor(history_view(h@), v as nat) ==> r is None,
        r matches Some(i) ==> is_predecessor(history_view(h@), i as int, v as nat),
{
    let ghost hv = history_view(h@);
    let n: usize = h.len();
    let mut best: Option<usize> = None;
    let mut i: usize = 0;
    while i < n
        invariant
            i <= n,
            n == h@.len(),
            hv == history_view(h@),
            history_wf(hv),
            best matches Some(b) ==> b < i && hv[b as int].through < v,
            best matches Some(b) ==> forall|j: int|
                0 <= j < i && (#[trigger] hv[j]).through < v ==> hv[j].through
                    <= hv[b as int].through,
            best is None ==> forall|j: int| 0 <= j < i ==> !((#[trigger] hv[j]).through < v),
        decreases n - i,
    {
        if h[i].through < v {
            match best {
                Some(b) => {
                    if h[b].through < h[i].through {
                        best = Some(i);
                    }
                },
                None => {
                    best = Some(i);
                },
            }
        }
        i = i + 1;
    }
    proof {
        match best {
            Some(b) => {
                assert(is_predecessor(hv, b as int, v as nat));
                let p = predecessor(hv, v as nat);
                assert(is_predecessor(hv, p, v as nat));
                assert(hv[p].through <= hv[b as int].through);
                assert(hv[b as int].through <= hv[p].through);
                if p != b as int {
                    assert(hv[p].through < hv[b as int].since || hv[b as int].through
                        < hv[p].since);
                    assert(hv[p].since <= hv[p].through);
                    assert(hv[b as int].since <= hv[b as int].through);
                }
                assert(has_predecessor(hv, v as nat));
            },
            None => {
                assert(!has_predecessor(hv, v as nat));
            },
        }
    }
    best
}

/// The position of the record of `h` that reaches furthest, if `h` has a record.
pub fn find_latest(h: &Vec<Entry>) -> (r: Option<usize>)
    requires
        history_wf(history_view(h@)),
    ensures
        h@.len() == 0 ==> r is None,
        h@.len() > 0 ==> r is Some,
        forall|j: int|
            is_latest(history_view(h@), j) <==> r == Some(j as usize) && 0 <= j < h@.len(),
{
    let ghost hv = history_view(h@);
    let n: usize = h.len();
    if n == 0 {
        return None;
    }
    let mut best: usize = 0;
    let mut i: usize = 1;
    while i < n
        invariant
            1 <= i <= n,
            n == h@.len(),
            hv == history_view(h@),
            best < i,
            forall|j: int| 0 <= j < i ==> (#[trigger] hv[j]).through <= hv[best as int].through,
        decreases n - i,
    {
        if h[best].through < h[i].through {
            best = i;
        }
        i = i + 1;
    }
    proof {
        assert(is_latest(hv, best as int));
        assert forall|j: int| is_latest(hv, j) implies j == best by {
            assert(hv[best as int].through <= hv[j].through);
            assert(hv[j].through <= hv[best as int].through);
            if j != best as int {
                assert(hv[j].through < hv[best as int].since || hv[best as int].through
                    < hv[j].since);
                assert(hv[j].since <= hv[j].through);
                assert(hv[best as int].since <= hv[best as int].through);
            }
        }
    }
    Some(best)
}

/// Whether one of `versions` lies between `since` and `through`.
pub fn any_between(versions: &Vec<u64>, since: u64, through: u64) -> (r: bool)
    ensures
        r == exists|x: int| 0 <= x < versions@.len() && since <= #[trigger] versions@[x] <= through,
{
    let n: usize = versions.len();
    let mut x: usize = 0;
    while x < n
        invariant
            x <= n,
            n == versions@.len(),
            forall|y: int| 0 <= y < x ==> !(since <= #[trigger] versions@[y] <= through),
        decreases n - x,
    {
        if since <= versions[x] && versions[x] <= through {
            return true;
        }
        x = x + 1;
    }
    false
}

} // verus!
