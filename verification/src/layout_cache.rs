//! A bounded exact-input cache that keeps the complete layout output of a
//! node, baselines included, so that alignment never depends on whether a
//! probe was cached.

use vstd::prelude::*;

verus! {

/// What a layout request asks for.
#[derive(Clone, Copy, Debug, PartialEq, Eq, Structural)]
pub enum RunMode {
    PerformLayout,
    ComputeSize,
    PerformHiddenLayout,
}

/// A complete layout request: its mode and the exact encoding of every other
/// input (two requests are the same exactly when their encodings are).
#[derive(Clone, Debug)]
pub struct CacheInput {
    pub run_mode: RunMode,
    pub key: Vec<u64>,
}

impl CacheInput {
    pub open spec fn view(&self) -> (RunMode, Seq<u64>) {
        (self.run_mode, self.key@)
    }
}

/// How many size probes a node keeps.
pub const MAX_MEASURE_ENTRIES: usize = 16;

struct CacheEntry<O> {
    input: CacheInput,
    output: O,
}

pub struct NodeLayoutCache<O> {
    final_layout: Option<CacheEntry<O>>,
    measurements: Vec<CacheEntry<O>>,
    next_eviction: usize,
}

fn same_key(a: &Vec<u64>, b: &Vec<u64>) -> (r: bool)
    ensures
        r == (a@ == b@),
{
    if a.len() != b.len() {
        return false;
    }
    let mut i: usize = 0;
    while i < a.len()
        invariant
            a@.len() == b@.len(),
            i <= a@.len(),
            forall|j: int| 0 <= j < i ==> a@[j] == b@[j],
        decreases a@.len() - i,
    {
        if a[i] != b[i] {
            return false;
        }
        i = i + 1;
    }
    proof {
        assert(a@ =~= b@);
    }
    true
}

fn copy_key(a: &Vec<u64>) -> (r: Vec<u64>)
    ensures
        r@ == a@,
{
    let mut r: Vec<u64> = Vec::new();
    let mut i: usize = 0;
    while i < a.len()
        invariant
            i <= a@.len(),
            r@ == a@.subrange(0, i as int),
        decreases a@.len() - i,
    {
        r.push(a[i]);
        i = i + 1;
    }
    proof {
        assert(r@ =~= a@);
    }
    r
}

impl<O: Copy> NodeLayoutCache<O> {
    /// The final-layout entry.
    pub closed spec fn final_entry(&self) -> Option<((RunMode, Seq<u64>), O)> {
        match &self.final_layout {
            Some(e) => Some((e.input@, e.output)),
            None => None,
        }
    }

    /// The size probes, oldest slot first.
    pub closed spec fn probes(&self) -> Seq<((RunMode, Seq<u64>), O)> {
        self.measurements@.map_values(|e: CacheEntry<O>| (e.input@, e.output))
    }

    /// The probe slot that the next new probe replaces once all are taken.
    pub closed spec fn eviction_slot(&self) -> nat {
        self.next_eviction as nat
    }

    pub closed spec fn wf(&self) -> bool {
        &&& self.measurements@.len() <= MAX_MEASURE_ENTRIES
        &&& self.next_eviction < MAX_MEASURE_ENTRIES
        &&& (self.measurements@.len() < MAX_MEASURE_ENTRIES ==> self.next_eviction == 0)
        &&& forall|i: int, j: int|
            0 <= i < j < self.measurements@.len() ==> self.measurements@[i].input@
                != self.measurements@[j].input@
        &&& forall|i: int|
            0 <= i < self.measurements@.len() ==> (#[trigger] self.measurements@[i]).input.run_mode
                == RunMode::ComputeSize
        &&& (self.final_layout matches Some(e) ==> e.input.run_mode == RunMode::PerformLayout)
    }

    /// What the cache answers for `input`: the final layout for a layout
    /// run, the matching probe for a size run, nothing for a hidden run.
    pub open spec fn lookup(&self, input: (RunMode, Seq<u64>)) -> Option<O> {
        match input.0 {
            RunMode::PerformLayout => match self.final_entry() {
                Some(e) => if e.0 == input {
                    Some(e.1)
                } else {
                    None
                },
                None => None,
            },
            RunMode::ComputeSize => if exists|i: int|
                0 <= i < self.probes().len() && #[trigger] self.probes()[i].0 == input {
                Some(
                    self.probes()[choose|i: int|
                        0 <= i < self.probes().len() && #[trigger] self.probes()[i].0 == input].1,
                )
            } else {
                None
            },
            RunMode::PerformHiddenLayout => None,
        }
    }

    pub fn new() -> (c: Self)
        ensures
            c.wf(),
            c.final_entry() is None,
            c.probes().len() == 0,
    {
        NodeLayoutCache { final_layout: None, measurements: Vec::new(), next_eviction: 0 }
    }

    pub fn get(&self, input: &CacheInput) -> (r: Option<O>)
        requires
            self.wf(),
        ensures
            r == self.lookup(input@),
    {
        match input.run_mode {
            RunMode::PerformLayout => match &self.final_layout {
                Some(entry) => {
                    if same_key(&entry.input.key, &input.key) {
                        Some(entry.output)
                    } else {
                        None
                    }
                },
                None => None,
            },
            RunMode::ComputeSize => {
                let mut i: usize = 0;
                while i < self.measurements.len()
                    invariant
                        self.wf(),
                        input.run_mode == RunMode::ComputeSize,
                        i <= self.measurements@.len(),
                        forall|j: int| 0 <= j < i ==> self.probes()[j].0 != input@,
                    decreases self.measurements@.len() - i,
                {
                    let entry = &self.measurements[i];
                    if same_key(&entry.input.key, &input.key) {
                        proof {
                            assert(self.probes()[i as int].0 == input@);
                            let k = choose|k: int|
                                0 <= k < self.probes().len() && #[trigger] self.probes()[k].0
                                    == input@;
                            assert(k == i);
                        }
                        return Some(entry.output);
                    }
                    i = i + 1;
                }
                None
            },
            RunMode::PerformHiddenLayout => None,
        }
    }

    /// Records the output of a run: the final layout replaces the previous
    /// one; a new probe takes a free slot or, once all are taken, the oldest
    /// replaced slot in turn; a repeated probe updates its slot; hidden runs
    /// are not kept.
    pub fn store(&mut self, input: CacheInput, output: O)
        requires
            old(self).wf(),
        ensures
            final(self).wf(),
            final(self).lookup(input@) == if input.run_mode == RunMode::PerformHiddenLayout {
                None
            } else {
                Some(output)
            },
            input.run_mode != RunMode::ComputeSize ==> final(self).probes() == old(self).probes(),
            input.run_mode != RunMode::PerformLayout ==> final(self).final_entry() == old(self).final_entry(),
            input.run_mode == RunMode::PerformLayout ==> final(self).final_entry() == Some((input@, output)),
            input.run_mode != RunMode::ComputeSize ==> final(self).eviction_slot() == old(self).eviction_slot(),
            input.run_mode == RunMode::ComputeSize ==> {
                let old_probes = old(self).probes();
                let e = (input@, output);
                if exists|i: int| 0 <= i < old_probes.len() && #[trigger] old_probes[i].0 == input@ {
                    let i = choose|i: int| 0 <= i < old_probes.len() && #[trigger] old_probes[i].0 == input@;
                    &&& final(self).probes() == old_probes.update(i, e)
                    &&& final(self).eviction_slot() == old(self).eviction_slot()
                } else if old_probes.len() < MAX_MEASURE_ENTRIES {
                    &&& final(self).probes() == old_probes.push(e)
                    &&& final(self).eviction_slot() == old(self).eviction_slot()
                } else {
                    &&& final(self).probes() == old_probes.update(old(self).eviction_slot() as int, e)
                    &&& final(self).eviction_slot() == (old(self).eviction_slot() + 1) % (
                    MAX_MEASURE_ENTRIES as nat)
                }
            },
    {
        let ghost iv = input@;
        match input.run_mode {
            RunMode::PerformLayout => {
                self.final_layout = Some(CacheEntry { input, output });
            },
            RunMode::ComputeSize => {
                let mut i: usize = 0;
                while i < self.measurements.len()
                    invariant
                        old(self).wf(),
                        *self == *old(self),
                        input@ == iv,
                        input.run_mode == RunMode::ComputeSize,
                        i <= self.measurements@.len(),
                        forall|j: int| 0 <= j < i ==> self.probes()[j].0 != iv,
                    decreases self.measurements@.len() - i,
                {
                    if same_key(&self.measurements[i].input.key, &input.key) {
                        let key = copy_key(&input.key);
                        self.measurements.set(
                            i,
                            CacheEntry { input: CacheInput { run_mode: RunMode::ComputeSize, key }, output },
                        );
                        proof {
                            assert(self.probes()[i as int].0 == iv);
                            assert forall|a: int, b: int|
                                0 <= a < b < self.measurements@.len() implies self.measurements@[a].input@
                                    != self.measurements@[b].input@ by {
                                assert(old(self).measurements@[a].input@ != old(self).measurements@[b].input@);
                            }
                            let k = choose|k: int|
                                0 <= k < self.probes().len() && #[trigger] self.probes()[k].0 == iv;
                            if k != i {
                                assert(old(self).measurements@[k].input@ == old(self).measurements@[i as int].input@);
                            }
                            assert(old(self).probes()[i as int].0 == iv);
                            let k0 = choose|k0: int|
                                0 <= k0 < old(self).probes().len() && #[trigger] old(self).probes()[k0].0 == iv;
                            if k0 != i {
                                assert(old(self).measurements@[k0].input@ == old(self).measurements@[i as int].input@);
                            }
                            assert(self.probes() =~= old(self).probes().update(i as int, (iv, output)));
                        }
                        return;
                    }
                    i = i + 1;
                }
                let ghost slot: int = if self.measurements.len() < MAX_MEASURE_ENTRIES {
                    self.measurements@.len() as int
                } else {
                    self.next_eviction as int
                };
                if self.measurements.len() < MAX_MEASURE_ENTRIES {
                    self.measurements.push(CacheEntry { input, output });
                } else {
                    let at = self.next_eviction;
                    self.measurements.set(at, CacheEntry { input, output });
                    self.next_eviction = (self.next_eviction + 1) % MAX_MEASURE_ENTRIES;
                }
                proof {
                    assert(self.probes()[slot].0 == iv);
                    assert forall|a: int, b: int|
                        0 <= a < b < self.measurements@.len() implies self.measurements@[a].input@
                            != self.measurements@[b].input@ by {
                        if a != slot && b != slot {
                            assert(old(self).measurements@[a].input@ != old(self).measurements@[b].input@);
                        } else if a == slot {
                            assert(old(self).probes()[b].0 != iv);
                        } else {
                            assert(old(self).probes()[a].0 != iv);
                        }
                    }
                    let k = choose|k: int|
                        0 <= k < self.probes().len() && #[trigger] self.probes()[k].0 == iv;
                    if k != slot {
                        assert(old(self).probes()[k].0 != iv);
                    }
                    if old(self).measurements@.len() < MAX_MEASURE_ENTRIES {
                        assert(self.probes() =~= old(self).probes().push((iv, output)));
                    } else {
                        assert(self.probes() =~= old(self).probes().update(slot, (iv, output)));
                    }
                }
            },
            RunMode::PerformHiddenLayout => {},
        }
    }

    /// Forgets every entry.
    pub fn clear(&mut self)
        ensures
            final(self).wf(),
            final(self).final_entry() is None,
            final(self).probes().len() == 0,
            final(self).eviction_slot() == 0,
    {
        self.final_layout = None;
        self.measurements.clear();
        self.next_eviction = 0;
    }
}

} // verus!
