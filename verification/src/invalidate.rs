//! Invalidation at commit: which keys a batch of input changes touches, and how
//! dirtiness spreads from the changed keys to everything that rests on them.

use vstd::prelude::*;
use crate::change::{batch_view, find_change, InputChange};
use crate::history::find_covering;
use crate::key::KeyId;
use crate::model::{
    has_conflict, lemma_closed_is_spread, lemma_mark_sound, lemma_untouched_nonneg,
    lemma_untouched_update, rests_on_tainted, tainted, untouched_upto, CoreView, CHANGED,
    CONFIRMED, DIRTY, UNTOUCHED,
};
use crate::node::{graph_view, history_view, same_bytes, Entry, Outcome, OutcomeView};

verus! {

/// Whether one of `deps` is marked as changed or dirty.
pub fn any_tainted(deps: &Vec<KeyId>, marks: &Vec<u8>) -> (r: bool)
    requires
        forall|d: int| 0 <= d < deps@.len() ==> (#[trigger] deps@[d])@ < marks@.len(),
    ensures
        r == rests_on_tainted(deps@, marks@),
{
    let n: usize = deps.len();
    let mut d: usize = 0;
    while d < n
        invariant
            d <= n,
            n == deps@.len(),
            forall|j: int| 0 <= j < deps@.len() ==> (#[trigger] deps@[j])@ < marks@.len(),
            forall|j: int| 0 <= j < d ==> !tainted(marks@[(#[trigger] deps@[j])@ as int]),
        decreases n - d,
    {
        let m: u8 = marks[deps[d].index()];
        if m == CHANGED || m == DIRTY {
            assert(tainted(marks@[deps@[d as int]@ as int]));
            return true;
        }
        d = d + 1;
    }
    false
}

/// Whether the outcome is the value `value`.
pub fn is_value(outcome: &Outcome, value: &Vec<u8>) -> (r: bool)
    ensures
        r == (outcome@ == OutcomeView::Value(value@)),
{
    match outcome {
        Outcome::Value(b) => same_bytes(b, value),
        _ => false,
    }
}

/// Marks every key by what the batch does to it: nothing, confirm its value, or
/// change it.
pub(crate) fn stage(
    nodes: &Vec<Vec<Entry>>,
    current: u64,
    changes: &Vec<InputChange>,
    Ghost(s): Ghost<CoreView>,
) -> (marks: Vec<u8>)
    requires
        s.wf(),
        s.nodes == graph_view(nodes@),
        s.current == current,
        !has_conflict(batch_view(changes@)),
    ensures
        marks@ == s.stage_marks(batch_view(changes@)),
{
    let ghost c = batch_view(changes@);
    let n: usize = nodes.len();
    let mut marks: Vec<u8> = Vec::new();
    let mut k: usize = 0;
    while k < n
        invariant
            k <= n,
            n == nodes@.len(),
            s.wf(),
            s.nodes == graph_view(nodes@),
            s.current == current,
            c == batch_view(changes@),
            !has_conflict(c),
            marks@.len() == k,
            forall|j: int| 0 <= j < k ==> #[trigger] marks@[j] == s.stage_mark(c, j),
        decreases n - k,
    {
        let mark: u8 = match find_change(changes, k) {
            None => UNTOUCHED,
            Some(i) => {
                assert(s.nodes[k as int] == history_view(nodes@[k as int]@));
                match find_covering(&nodes[k], current) {
                    Some(x) => {
                        assert(s.nodes[k as int][x as int] == nodes@[k as int]@[x as int]@);
                        if is_value(&nodes[k][x].outcome, &changes[i].value)
                            && nodes[k][x].deps.len() == 0 {
                            CONFIRMED
                        } else {
                            CHANGED
                        }
                    },
                    None => CHANGED,
                }
            },
        };
        marks.push(mark);
        k = k + 1;
    }
    assert(marks@ =~= s.stage_marks(c));
    marks
}

/// Spreads dirtiness: marks every untouched key whose current record rests, directly
/// or through other untouched keys, on a changed key.
pub(crate) fn spread(
    nodes: &Vec<Vec<Entry>>,
    current: u64,
    marks: &mut Vec<u8>,
    Ghost(s): Ghost<CoreView>,
)
    requires
        s.wf(),
        s.nodes == graph_view(nodes@),
        s.current == current,
        old(marks)@.len() == nodes@.len(),
        forall|j: int| 0 <= j < old(marks)@.len() ==> #[trigger] old(marks)@[j] != DIRTY,
    ensures
        final(marks)@ == s.spread(old(marks)@),
{
    let ghost base = marks@;
    let n: usize = nodes.len();
    let mut grew: bool = true;
    while grew
        invariant
            n == nodes@.len(),
            s.wf(),
            s.nodes == graph_view(nodes@),
            s.current == current,
            base.len() == n,
            forall|j: int| 0 <= j < base.len() ==> #[trigger] base[j] != DIRTY,
            marks@.len() == n,
            s.partly_spread(base, marks@),
            !grew ==> forall|j: int| 0 <= j < n ==> s.closed_at(marks@, j),
        decreases
                untouched_upto(marks@, n as int) + if grew {
                    1int
                } else {
                    0int
                },
    {
        grew = false;
        let ghost start = marks@;
        proof {
            lemma_untouched_nonneg(start, n as int);
        }
        let mut k: usize = 0;
        while k < n
            invariant
                k <= n,
                n == nodes@.len(),
                s.wf(),
                s.nodes == graph_view(nodes@),
                s.current == current,
                base.len() == n,
                forall|j: int| 0 <= j < base.len() ==> #[trigger] base[j] != DIRTY,
                marks@.len() == n,
                start.len() == n,
                s.partly_spread(base, marks@),
                !grew ==> marks@ == start,
                !grew ==> forall|j: int| 0 <= j < k ==> s.closed_at(marks@, j),
                grew ==> untouched_upto(marks@, n as int) < untouched_upto(start, n as int),
                0 <= untouched_upto(marks@, n as int) <= untouched_upto(start, n as int),
            decreases n - k,
        {
            if marks[k] == UNTOUCHED {
                assert(s.nodes[k as int] == history_view(nodes@[k as int]@));
                match find_covering(&nodes[k], current) {
                    Some(x) => {
                        proof {
                            assert(s.nodes[k as int][x as int] == nodes@[k as int]@[x as int]@);
                            assert forall|d: int|
                                0 <= d < nodes@[k as int]@[x as int].deps@.len() implies (
                            #[trigger] nodes@[k as int]@[x as int].deps@[d])@ < marks@.len() by {
                                assert(s.nodes[k as int][x as int].deps[d]@ < s.nodes.len());
                            }
                        }
                        if any_tainted(&nodes[k][x].deps, marks) {
                            proof {
                                assert(marks@[k as int] == base[k as int] || (marks@[k as int]
                                    == DIRTY && s.affected(base, k as int)));
                                lemma_mark_sound(s, base, marks@, k as int);
                                lemma_untouched_update(marks@, k as int, DIRTY, n as int);
                            }
                            marks.set(k, DIRTY);
                            grew = true;
                        }
                    },
                    None => {},
                }
            }
            k = k + 1;
        }
    }
    proof {
        lemma_closed_is_spread(s, base, marks@);
    }
}

} // verus!
