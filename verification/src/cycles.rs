//! Cycle detection along one chain of evaluations. Each chain keeps the keys it is
//! in the middle of evaluating, innermost last, and with each the dependencies that
//! its computation body has read so far. Independent chains share nothing, so two
//! of them may evaluate the same key without either seeing a cycle.

use vstd::prelude::*;
use crate::error::{EngineError, EngineErrorView};
use crate::key::KeyId;

verus! {

/// Whether the engine looks for cycles.
#[derive(Clone, Copy, Debug, PartialEq, Eq, Structural)]
pub enum DetectCycles {
    Enabled,
    Disabled,
}

/// The mathematical content of a `Frame`.
pub struct FrameView {
    pub key: KeyId,
    pub deps: Seq<KeyId>,
}

/// One evaluation in progress: its key and the keys its body has read so far, each
/// once, in the order of the first read.
#[derive(Debug, PartialEq, Eq)]
pub struct Frame {
    key: KeyId,
    deps: Vec<KeyId>,
}

impl View for Frame {
    type V = FrameView;

    closed spec fn view(&self) -> FrameView {
        FrameView { key: self.key, deps: self.deps@ }
    }
}

/// The keys of the frames, outermost first.
pub open spec fn keys_of(frames: Seq<FrameView>) -> Seq<KeyId> {
    Seq::new(frames.len(), |i: int| frames[i].key)
}

/// Whether `key` is being evaluated somewhere on the chain.
pub open spec fn on_chain(frames: Seq<FrameView>, key: KeyId) -> bool {
    exists|i: int| 0 <= i < frames.len() && (#[trigger] frames[i]).key == key
}

/// Whether `i` is the outermost position of the chain at which `key` is evaluated.
pub open spec fn is_first_entry(frames: Seq<FrameView>, key: KeyId, i: int) -> bool {
    &&& 0 <= i < frames.len()
    &&& frames[i].key == key
    &&& forall|j: int| 0 <= j < i ==> (#[trigger] frames[j]).key != key
}

/// The outermost position of the chain at which `key` is evaluated.
pub open spec fn first_entry(frames: Seq<FrameView>, key: KeyId) -> int {
    choose|i: int| is_first_entry(frames, key, i)
}

/// The cycle that a request for `key` closes: the keys of the chain from the
/// evaluation of `key` inwards, in the order in which they were entered.
pub open spec fn cycle_through(frames: Seq<FrameView>, key: KeyId) -> Seq<KeyId> {
    keys_of(frames).subrange(first_entry(frames, key), frames.len() as int)
}

/// The dependencies of a frame after its body read `dep`.
pub open spec fn with_dep(deps: Seq<KeyId>, dep: KeyId) -> Seq<KeyId> {
    if deps.contains(dep) {
        deps
    } else {
        deps.push(dep)
    }
}

/// The frames after the body of the innermost evaluation read `dep`.
pub open spec fn after_record(frames: Seq<FrameView>, dep: KeyId) -> Seq<FrameView> {
    if frames.len() == 0 {
        frames
    } else {
        frames.update(
            frames.len() - 1,
            FrameView { key: frames.last().key, deps: with_dep(frames.last().deps, dep) },
        )
    }
}

/// Whether every key and every dependency on the chain is below `keys`.
pub open spec fn chain_fits(frames: Seq<FrameView>, keys: nat) -> bool {
    forall|i: int|
        0 <= i < frames.len() ==> (#[trigger] frames[i]).key@ < keys && forall|d: int|
            0 <= d < frames[i].deps.len() ==> (#[trigger] frames[i].deps[d])@ < keys
}

/// One chain of evaluations, each requested by the body of the one before it.
#[derive(Debug)]
pub struct EvaluationChain {
    frames: Vec<Frame>,
    detect: DetectCycles,
}

/// The mathematical content of an `EvaluationChain`.
pub struct ChainView {
    pub frames: Seq<FrameView>,
    pub detect: DetectCycles,
}

impl View for EvaluationChain {
    type V = ChainView;

    closed spec fn view(&self) -> ChainView {
        ChainView {
            frames: Seq::new(self.frames@.len(), |i: int| self.frames@[i]@),
            detect: self.detect,
        }
    }
}

impl EvaluationChain {
    /// A chain on which nothing is being evaluated.
    pub fn new(detect: DetectCycles) -> (c: EvaluationChain)
        ensures
            c@.frames == Seq::<FrameView>::empty(),
            c@.detect == detect,
    {
        let c = EvaluationChain { frames: Vec::new(), detect };
        assert(c@.frames =~= Seq::<FrameView>::empty());
        c
    }

    /// Whether the chain looks for cycles.
    pub fn detect(&self) -> (d: DetectCycles)
        ensures
            d == self@.detect,
    {
        self.detect
    }

    /// Whether `key` is being evaluated somewhere on the chain.
    pub fn holds(&self, key: KeyId) -> (b: bool)
        ensures
            b == on_chain(self@.frames, key),
    {
        let n: usize = self.frames.len();
        let mut i: usize = 0;
        while i < n
            invariant
                i <= n,
                n == self.frames@.len(),
                forall|j: int| 0 <= j < i ==> (#[trigger] self@.frames[j]).key != key,
            decreases n - i,
        {
            if self.frames[i].key.0 == key.0 {
                assert(self@.frames[i as int].key == key);
                return true;
            }
            i = i + 1;
        }
        false
    }

    /// Whether every key and every dependency on the chain is below `keys`.
    pub fn fits(&self, keys: usize) -> (b: bool)
        ensures
            b == chain_fits(self@.frames, keys as nat),
    {
        let n: usize = self.frames.len();
        let mut i: usize = 0;
        while i < n
            invariant
                i <= n,
                n == self.frames@.len(),
                chain_fits(self@.frames.take(i as int), keys as nat),
            decreases n - i,
        {
            let ghost frames = self@.frames;
            assert(frames[i as int] == self.frames@[i as int]@);
            if self.frames[i].key.index() >= keys {
                assert(!(frames[i as int].key@ < keys));
                return false;
            }
            let m: usize = self.frames[i].deps.len();
            let mut d: usize = 0;
            while d < m
                invariant
                    d <= m,
                    i < n,
                    n == self.frames@.len(),
                    frames == self@.frames,
                    frames[i as int] == self.frames@[i as int]@,
                    m == frames[i as int].deps.len(),
                    forall|x: int| 0 <= x < d ==> (#[trigger] frames[i as int].deps[x])@ < keys,
                decreases m - d,
            {
                if self.frames[i].deps[d].index() >= keys {
                    assert(!(frames[i as int].deps[d as int]@ < keys));
                    return false;
                }
                d = d + 1;
            }
            proof {
                let next = frames.take(i as int + 1);
                assert forall|x: int| 0 <= x < next.len() implies (#[trigger] next[x]).key@ < keys
                    && forall|y: int|
                    0 <= y < next[x].deps.len() ==> (#[trigger] next[x].deps[y])@ < keys by {
                    if x < i {
                        assert(next[x] == frames.take(i as int)[x]);
                    }
                }
            }
            i = i + 1;
        }
        assert(self@.frames.take(n as int) =~= self@.frames);
        true
    }

    /// The number of evaluations in progress on the chain.
    pub fn depth(&self) -> (n: usize)
        ensures
            n == self@.frames.len(),
    {
        self.frames.len()
    }

    /// The key of the innermost evaluation in progress.
    pub fn innermost(&self) -> (k: Option<KeyId>)
        ensures
            self@.frames.len() == 0 ==> k is None,
            self@.frames.len() > 0 ==> k == Some(self@.frames.last().key),
    {
        let n: usize = self.frames.len();
        if n == 0 {
            None
        } else {
            assert(self@.frames.last() == self.frames@[n - 1]@);
            Some(self.frames[n - 1].key)
        }
    }

    /// Begins the evaluation of `key` on this chain. Where cycles are looked for and
    /// `key` is already being evaluated on the chain, the evaluation is refused with
    /// the cycle that the request would close, and the chain stays as it is.
    pub fn enter(&mut self, key: KeyId) -> (r: Result<(), EngineError>)
        ensures
            final(self)@.detect == old(self)@.detect,
            old(self)@.detect == DetectCycles::Enabled && on_chain(old(self)@.frames, key) ==> (
            r matches Err(e) && e@ == EngineErrorView::Cycle(cycle_through(old(self)@.frames, key))
                && final(self)@ == old(self)@),
            !(old(self)@.detect == DetectCycles::Enabled && on_chain(old(self)@.frames, key)) ==> (
            r is Ok && final(self)@.frames == old(self)@.frames.push(
                FrameView { key, deps: Seq::empty() },
            )),
    {
        let ghost before = self@;
        if self.detect == DetectCycles::Enabled {
            let n: usize = self.frames.len();
            let mut i: usize = 0;
            while i < n
                invariant
                    i <= n,
                    n == self.frames@.len(),
                    *self == *old(self),
                    before == self@,
                    before.detect == DetectCycles::Enabled,
                    forall|j: int| 0 <= j < i ==> (#[trigger] before.frames[j]).key != key,
                decreases n - i,
            {
                if self.frames[i].key.0 == key.0 {
                    proof {
                        assert(before.frames[i as int].key == key);
                        assert(is_first_entry(before.frames, key, i as int));
                        let f = first_entry(before.frames, key);
                        assert(is_first_entry(before.frames, key, f));
                        assert(f == i);
                    }
                    let mut cycle: Vec<KeyId> = Vec::new();
                    let mut j: usize = i;
                    while j < n
                        invariant
                            i <= j <= n,
                            n == self.frames@.len(),
                            *self == *old(self),
                            before == self@,
                            before.detect == DetectCycles::Enabled,
                            on_chain(before.frames, key),
                            first_entry(before.frames, key) == i,
                            cycle@ == keys_of(before.frames).subrange(i as int, j as int),
                        decreases n - j,
                    {
                        assert(before.frames[j as int] == self.frames@[j as int]@);
                        cycle.push(self.frames[j].key);
                        assert(cycle@ =~= keys_of(before.frames).subrange(i as int, j as int + 1));
                        j = j + 1;
                    }
                    return Err(EngineError::Cycle(cycle));
                }
                i = i + 1;
            }
        }
        self.frames.push(Frame { key, deps: Vec::new() });
        assert(self@.frames =~= before.frames.push(FrameView { key, deps: Seq::empty() }));
        Ok(())
    }

    /// Records that the body of the innermost evaluation read `dep`. A key that the
    /// body read before is not recorded again. Without an evaluation in progress
    /// there is nothing to record.
    pub fn record(&mut self, dep: KeyId)
        ensures
            final(self)@.detect == old(self)@.detect,
            final(self)@.frames == after_record(old(self)@.frames, dep),
    {
        let ghost before = self@;
        let n: usize = self.frames.len();
        if n == 0 {
            assert(self@.frames =~= before.frames);
            return ;
        }
        let top: usize = n - 1;
        assert(before.frames.last() == self.frames@[top as int]@);
        let m: usize = self.frames[top].deps.len();
        let mut i: usize = 0;
        while i < m
            invariant
                i <= m,
                *self == *old(self),
                before == self@,
                top == before.frames.len() - 1,
                top < self.frames@.len(),
                before.frames.last() == self.frames@[top as int]@,
                m == self.frames@[top as int].deps@.len(),
                forall|j: int| 0 <= j < i ==> self.frames@[top as int].deps@[j] != dep,
            decreases m - i,
        {
            if self.frames[top].deps[i].0 == dep.0 {
                assert(self.frames@[top as int].deps@[i as int] == dep);
                assert(before.frames.last().deps.contains(dep));
                assert(self@.frames =~= before.frames.update(
                    before.frames.len() - 1,
                    FrameView {
                        key: before.frames.last().key,
                        deps: with_dep(before.frames.last().deps, dep),
                    },
                ));
                return ;
            }
            i = i + 1;
        }
        assert(!before.frames.last().deps.contains(dep));
        self.frames[top].deps.push(dep);
        assert(self@.frames =~= before.frames.update(
            before.frames.len() - 1,
            FrameView {
                key: before.frames.last().key,
                deps: with_dep(before.frames.last().deps, dep),
            },
        ));
    }

    /// Ends the innermost evaluation and hands out its key with the dependencies that
    /// its body read. On a chain without evaluations nothing happens.
    pub fn leave(&mut self) -> (r: Option<(KeyId, Vec<KeyId>)>)
        ensures
            final(self)@.detect == old(self)@.detect,
            old(self)@.frames.len() == 0 ==> r is None && final(self)@ == old(self)@,
            old(self)@.frames.len() > 0 ==> (r matches Some(f) && f.0 == old(
                self,
            )@.frames.last().key && f.1@ == old(self)@.frames.last().deps && final(self)@.frames
                == old(self)@.frames.drop_last()),
    {
        let ghost before = self@;
        match self.frames.pop() {
            Some(f) => {
                assert(before.frames.last() == f@);
                assert(self@.frames =~= before.frames.drop_last());
                Some((f.key, f.deps))
            },
            None => {
                assert(self@.frames =~= before.frames);
                None
            },
        }
    }
}

/// A request for a key that is being evaluated on the chain closes a cycle that
/// begins with that key and holds every key entered after it: for a chain
/// A, B and a request for A, the cycle holds both A and B.
pub proof fn cycle_holds_its_keys(frames: Seq<FrameView>, key: KeyId, i: int)
    requires
        on_chain(frames, key),
        first_entry(frames, key) <= i < frames.len(),
    ensures
        cycle_through(frames, key).len() >= 1,
        cycle_through(frames, key)[0] == key,
        cycle_through(frames, key).contains(frames[i].key),
        cycle_through(frames, key).len() == frames.len() - first_entry(frames, key),
{
    lemma_first_entry_exists(frames, key);
    let f = first_entry(frames, key);
    let c = cycle_through(frames, key);
    assert(c[i - f] == frames[i].key);
}

/// Where a key is on the chain, it has an outermost position there.
pub proof fn lemma_first_entry_exists(frames: Seq<FrameView>, key: KeyId)
    requires
        on_chain(frames, key),
    ensures
        is_first_entry(frames, key, first_entry(frames, key)),
{
    let w = choose|i: int| 0 <= i < frames.len() && (#[trigger] frames[i]).key == key;
    let f = lemma_least_entry(frames, key, w);
    assert(is_first_entry(frames, key, f));
}

/// The least position at or before `w` at which `key` is evaluated.
proof fn lemma_least_entry(frames: Seq<FrameView>, key: KeyId, w: int) -> (f: int)
    requires
        0 <= w < frames.len(),
        frames[w].key == key,
    ensures
        is_first_entry(frames, key, f),
    decreases w,
{
    if exists|j: int| 0 <= j < w && (#[trigger] frames[j]).key == key {
        let j = choose|j: int| 0 <= j < w && (#[trigger] frames[j]).key == key;
        lemma_least_entry(frames, key, j)
    } else {
        w
    }
}

} // verus!
