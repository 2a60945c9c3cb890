use dice::data::DiceData;
use dice::dice::{DiceModern, Step};
use dice::key::{Key, KeyId};
use dice::cycles::EvaluationChain;
use dice::node::Outcome;
use dice::version::VersionNumber;

const INPUTS: usize = 4;
const DERIVED: usize = 8;

/// A small world of keys: the first few are inputs, every other key reads two keys
/// before it and gives a small number, so that equal values are frequent.
struct World {
    dice: DiceModern,
    ids: Vec<KeyId>,
    reads: Vec<(usize, usize)>,
    /// The inputs as they were at every version.
    history: Vec<Vec<u8>>,
    runs: usize,
    seed: u64,
}

fn name(k: usize) -> Key {
    Key::new(1, vec![k as u8])
}

impl World {
    fn new(seed: u64) -> World {
        let mut world = World {
            dice: DiceModern::new(DiceData::new()),
            ids: Vec::new(),
            reads: Vec::new(),
            history: vec![vec![0; INPUTS]],
            runs: 0,
            seed,
        };
        for k in 0..INPUTS + DERIVED {
            let id = world.dice.intern(name(k)).unwrap();
            world.ids.push(id);
            let (a, b) = if k < INPUTS {
                (0, 0)
            } else {
                (world.next() as usize % k, world.next() as usize % k)
            };
            world.reads.push((a, b));
        }
        // version 1 gives every input its first value
        world.commit(vec![0; INPUTS]);
        world
    }

    fn next(&mut self) -> u64 {
        self.seed = self.seed.wrapping_mul(6364136223846793005).wrapping_add(1442695040888963407);
        self.seed >> 33
    }

    fn commit(&mut self, inputs: Vec<u8>) -> VersionNumber {
        let mut tx = self.dice.updater();
        for (k, value) in inputs.iter().enumerate() {
            tx.set_input(name(k), vec![*value]);
        }
        let version = tx.commit(&mut self.dice).unwrap();
        self.history.push(inputs);
        assert_eq!(version.0 as usize, self.history.len() - 1);
        version
    }

    /// What the key holds at the version, computed from nothing but the inputs.
    fn truth(&self, k: usize, version: VersionNumber) -> u8 {
        if k < INPUTS {
            self.history[version.0 as usize][k]
        } else {
            let (a, b) = self.reads[k];
            body(k, self.truth(a, version), self.truth(b, version))
        }
    }

    /// What the engine says the key holds at the version.
    fn compute(&mut self, chain: &mut EvaluationChain, k: usize, version: VersionNumber) -> u8 {
        loop {
            assert!(self.dice.admits(chain, self.ids[k]));
            match self.dice.request(chain, self.ids[k], version).unwrap() {
                Step::Ready(state) => return state.into_answer().unwrap().unwrap()[0],
                Step::Await => panic!("nothing else is running"),
                Step::Evaluate(handle) => {
                    assert!(k >= INPUTS, "an input is never evaluated");
                    if let Some(deps) = handle.recheck() {
                        for dep in deps {
                            self.compute(chain, dep.0 as usize, version);
                        }
                        if self.dice.confirm(chain, &handle).unwrap().is_some() {
                            continue;
                        }
                    }
                    self.runs += 1;
                    let (a, b) = self.reads[k];
                    let x = self.compute(chain, a, version);
                    let y = self.compute(chain, b, version);
                    let value = Outcome::Value(vec![body(k, x, y)]);
                    self.dice.complete(chain, handle, value).unwrap();
                }
            }
        }
    }
}

fn body(k: usize, x: u8, y: u8) -> u8 {
    (x / 2 + y / 2 + k as u8) % 3
}

#[test]
fn the_engine_agrees_with_computing_from_scratch() {
    for seed in 1..=20u64 {
        let mut world = World::new(seed);
        let mut chain = world.dice.new_chain();
        for _round in 0..30 {
            let mut inputs = world.history.last().unwrap().clone();
            let changes = world.next() % 3;
            for _ in 0..changes {
                let k = world.next() as usize % INPUTS;
                inputs[k] = (world.next() % 4) as u8;
            }
            let current = world.commit(inputs);
            for _ in 0..3 {
                let k = world.next() as usize % (INPUTS + DERIVED);
                let back = world.next() % 3;
                let version = VersionNumber(current.0.saturating_sub(back).max(1));
                let got = world.compute(&mut chain, k, version);
                assert_eq!(got, world.truth(k, version), "seed {} key {} at {:?}", seed, k, version);
            }
            assert_eq!(chain.depth(), 0);
            assert_eq!(world.dice.state_handle().running_count(), 0);
        }
    }
}

#[test]
fn the_engine_agrees_with_computing_from_scratch_under_reclamation() {
    for seed in 21..=40u64 {
        let mut world = World::new(seed);
        let mut chain = world.dice.new_chain();
        let mut held: Option<VersionNumber> = None;
        for round in 0..30 {
            let mut inputs = world.history.last().unwrap().clone();
            let k = world.next() as usize % INPUTS;
            inputs[k] = (world.next() % 4) as u8;
            let current = world.commit(inputs);
            if round % 4 == 0 {
                if let Some(v) = held.take() {
                    assert!(world.dice.release(v));
                }
                world.dice.hold(current);
                held = Some(current);
            }
            if round % 3 == 0 {
                world.dice.reclaim();
            }
            for _ in 0..3 {
                let k = world.next() as usize % (INPUTS + DERIVED);
                let version = match held {
                    Some(v) if world.next() % 2 == 0 => v,
                    _ => current,
                };
                let got = world.compute(&mut chain, k, version);
                assert_eq!(got, world.truth(k, version), "seed {} key {} at {:?}", seed, k, version);
            }
        }
    }
}

#[test]
fn a_value_that_comes_out_the_same_stops_the_recomputation() {
    let mut world = World::new(7);
    // key 4 reads input 0 twice, key 5 reads key 4 twice, key 6 reads key 5 twice
    world.reads[4] = (0, 0);
    world.reads[5] = (4, 4);
    world.reads[6] = (5, 5);
    let mut chain = world.dice.new_chain();
    let v2 = world.commit(vec![0, 0, 0, 0]);
    assert_eq!(world.compute(&mut chain, 6, v2), world.truth(6, v2));
    assert_eq!(world.runs, 3);
    // input 0 changes, but so that key 4 comes out as before: 0 / 2 == 1 / 2
    let v3 = world.commit(vec![1, 0, 0, 0]);
    assert_eq!(world.truth(4, v3), world.truth(4, v2));
    assert_eq!(world.compute(&mut chain, 6, v3), world.truth(6, v3));
    // key 4 ran again; keys 5 and 6 were confirmed without a run
    assert_eq!(world.runs, 4);
    // an unrelated input changes: nothing runs
    let v4 = world.commit(vec![1, 3, 0, 0]);
    assert_eq!(world.compute(&mut chain, 6, v4), world.truth(6, v4));
    assert_eq!(world.runs, 4);
    // input 0 changes so that key 4 changes: everything above it runs
    let v5 = world.commit(vec![2, 3, 0, 0]);
    assert_ne!(world.truth(4, v5), world.truth(4, v4));
    assert_eq!(world.compute(&mut chain, 6, v5), world.truth(6, v5));
    assert!(world.runs >= 5);
}
