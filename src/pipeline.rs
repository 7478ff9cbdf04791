//! What the writer pool owes: the content of each shard does not depend on
//! the order in which workers write, and admission of new input files under
//! memory pressure only delays them.
use vstd::prelude::*;
use vstd::multiset::Multiset;
use crate::shard::{ShardKey, spec_shard_key};

verus! {

broadcast use vstd::seq_lib::group_to_multiset_ensures;

/// The lines that shard `k` holds once the passwords of `writes` have been
/// written, in that order.
pub open spec fn shard_lines(writes: Seq<Seq<char>>, k: ShardKey, digits: bool) -> Multiset<
    Seq<char>,
> {
    writes.filter(routes_to(k, digits)).to_multiset()
}

/// Whether a password is written to shard `k`.
pub open spec fn routes_to(k: ShardKey, digits: bool) -> spec_fn(Seq<char>) -> bool {
    |p: Seq<char>| spec_shard_key(p, digits) == Some(k)
}

proof fn lemma_shard_lines_count(writes: Seq<Seq<char>>, k: ShardKey, digits: bool, x: Seq<char>)
    ensures
        shard_lines(writes, k, digits).count(x) == if spec_shard_key(x, digits) == Some(k) {
            writes.to_multiset().count(x)
        } else {
            0
        },
    decreases writes.len(),
{
    reveal(Seq::filter);
    let pred = routes_to(k, digits);
    if writes.len() > 0 {
        let init = writes.drop_last();
        let y = writes.last();
        lemma_shard_lines_count(init, k, digits, x);
        assert(init.push(y) =~= writes);
        assert(writes.to_multiset() == init.to_multiset().insert(y));
        if pred(y) {
            assert(writes.filter(pred) == init.filter(pred).push(y));
            assert(writes.filter(pred).to_multiset() == init.filter(pred).to_multiset().insert(y));
        } else {
            assert(writes.filter(pred) == init.filter(pred));
        }
    } else {
        assert(writes.filter(pred).len() == 0);
        assert(writes.to_multiset().len() == 0);
        assert(writes.filter(pred).to_multiset().len() == 0);
    }
}

/// Two runs that write the same passwords, in whatever order or
/// interleaving (one worker, or many whose writes interleave), leave every
/// shard with the same multiset of lines.
pub proof fn lemma_write_order_irrelevant(
    a: Seq<Seq<char>>,
    b: Seq<Seq<char>>,
    k: ShardKey,
    digits: bool,
)
    requires
        a.to_multiset() == b.to_multiset(),
    ensures
        shard_lines(a, k, digits) == shard_lines(b, k, digits),
{
    assert forall|x: Seq<char>|
        shard_lines(a, k, digits).count(x) == shard_lines(b, k, digits).count(x) by {
        lemma_shard_lines_count(a, k, digits, x);
        lemma_shard_lines_count(b, k, digits, x);
    }
    assert(shard_lines(a, k, digits) =~= shard_lines(b, k, digits));
}

/// What the dispatcher decides when asked for work.
#[derive(Debug, Clone, Copy, PartialEq, Eq, Structural)]
pub enum Admission {
    /// Hand the input file at this position to a worker.
    Run(usize),
    /// Free memory is below the low-water mark: ask again after a delay.
    Wait,
    /// Every input file has been handed out.
    Drained,
}

/// The state of the dispatcher as plain numbers.
pub struct DispatchView {
    /// The position of the next input file to hand out.
    pub next: nat,
    /// The number of input files.
    pub total: nat,
    /// The number of input files that workers reported complete.
    pub completed: nat,
    /// Free memory below which no new file is handed out.
    pub low_water: nat,
}

/// One decision on a sample of free memory.
pub open spec fn spec_poll(s: DispatchView, free_memory: nat) -> (DispatchView, Admission) {
    if free_memory < s.low_water {
        (s, Admission::Wait)
    } else if s.next < s.total {
        (DispatchView { next: s.next + 1, ..s }, Admission::Run(s.next as usize))
    } else {
        (s, Admission::Drained)
    }
}

/// The state after a run of decisions on `samples`, and the positions of
/// the files handed out, in order.
pub open spec fn spec_run(s: DispatchView, samples: Seq<nat>) -> (DispatchView, Seq<nat>)
    decreases samples.len(),
{
    if samples.len() == 0 {
        (s, Seq::empty())
    } else {
        let (s1, a) = spec_poll(s, samples[0]);
        let (s2, out) = spec_run(s1, samples.drop_first());
        match a {
            Admission::Run(i) => (s2, seq![i as nat] + out),
            _ => (s2, out),
        }
    }
}

/// Whatever the samples of free memory, the files handed out are the next
/// ones in order, each once: low memory drops, repeats or alters none. A
/// run in which memory is always low leaves the state as it was, and every
/// sample at or above the low-water mark hands out a file while any is left.
pub proof fn lemma_backpressure_only_delays(s: DispatchView, samples: Seq<nat>)
    requires
        s.next <= s.total,
        s.total <= usize::MAX,
    ensures
        ({
            let (f, out) = spec_run(s, samples);
            &&& s.next <= f.next <= s.total
            &&& f.total == s.total && f.completed == s.completed && f.low_water == s.low_water
            &&& out == Seq::new((f.next - s.next) as nat, |j: int| (s.next + j) as nat)
            &&& f.next == s.total || f.next == s.next + admitted(samples, s.low_water)
        }),
        (forall|j: int| 0 <= j < samples.len() ==> samples[j] < s.low_water) ==> spec_run(
            s,
            samples,
        ).0 == s,
    decreases samples.len(),
{
    if samples.len() > 0 {
        let (s1, a) = spec_poll(s, samples[0]);
        lemma_backpressure_only_delays(s1, samples.drop_first());
        let (f, out) = spec_run(s1, samples.drop_first());
        if let Admission::Run(i) = a {
            assert(seq![i as nat] + out =~= Seq::new((f.next - s.next) as nat, |j: int| (s.next + j) as nat));
        }
        assert((forall|j: int| 0 <= j < samples.len() ==> samples[j] < s.low_water) ==> (forall|j: int|
            0 <= j < samples.drop_first().len() ==> samples.drop_first()[j] < s.low_water)) by {
            if forall|j: int| 0 <= j < samples.len() ==> samples[j] < s.low_water {
                assert forall|j: int| 0 <= j < samples.drop_first().len() implies samples.drop_first()[j] < s.low_water by {
                    assert(samples.drop_first()[j] == samples[j + 1]);
                }
            }
        }
        if forall|j: int| 0 <= j < samples.len() ==> samples[j] < s.low_water {
            assert(samples[0] < s.low_water);
        }
    }
}

/// The number of samples at or above the low-water mark.
pub open spec fn admitted(samples: Seq<nat>, low_water: nat) -> nat
    decreases samples.len(),
{
    if samples.len() == 0 {
        0
    } else {
        (if samples[0] >= low_water { 1nat } else { 0nat }) + admitted(samples.drop_first(), low_water)
    }
}

/// Hands input files out to workers one at a time, holding back while free
/// memory is low, and counts the files that workers report complete.
pub struct Dispatcher {
    next: usize,
    total: usize,
    completed: usize,
    low_water: u64,
}

impl View for Dispatcher {
    type V = DispatchView;

    closed spec fn view(&self) -> DispatchView {
        DispatchView {
            next: self.next as nat,
            total: self.total as nat,
            completed: self.completed as nat,
            low_water: self.low_water as nat,
        }
    }
}

impl Dispatcher {
    /// The dispatcher's own bounds: no file past the last is handed out,
    /// and no more files complete than were handed out.
    pub open spec fn wf(&self) -> bool {
        self@.completed <= self@.next <= self@.total && self@.total <= usize::MAX
    }

    /// A dispatcher for `total` input files that holds back below
    /// `low_water` bytes of free memory.
    pub fn new(total: usize, low_water: u64) -> (r: Self)
        ensures
            r.wf(),
            r@ == (DispatchView { next: 0, total: total as nat, completed: 0, low_water: low_water as nat }),
    {
        Dispatcher { next: 0, total, completed: 0, low_water }
    }

    /// Decides on one sample of free memory.
    pub fn poll(&mut self, free_memory: u64) -> (r: Admission)
        requires
            old(self).wf(),
        ensures
            final(self).wf(),
            (final(self)@, r) == spec_poll(old(self)@, free_memory as nat),
    {
        if free_memory < self.low_water {
            Admission::Wait
        } else if self.next < self.total {
            let i = self.next;
            self.next = self.next + 1;
            Admission::Run(i)
        } else {
            Admission::Drained
        }
    }

    /// Records that a worker completed one of the files handed out; returns
    /// whether it was counted, which it is unless every file handed out has
    /// already been counted.
    pub fn complete(&mut self) -> (r: bool)
        requires
            old(self).wf(),
        ensures
            final(self).wf(),
            r == (old(self)@.completed < old(self)@.next),
            final(self)@ == (DispatchView {
                completed: if r { old(self)@.completed + 1 } else { old(self)@.completed },
                ..old(self)@
            }),
    {
        if self.completed < self.next {
            self.completed = self.completed + 1;
            true
        } else {
            false
        }
    }

    /// The number of files reported complete.
    pub fn completed(&self) -> (r: usize)
        ensures
            r == self@.completed,
    {
        self.completed
    }

    /// The number of input files.
    pub fn total(&self) -> (r: usize)
        ensures
            r == self@.total,
    {
        self.total
    }

    /// Whether every input file has been handed out and reported complete.
    pub fn is_finished(&self) -> (r: bool)
        ensures
            r == (self@.completed == self@.total),
    {
        self.completed == self.total
    }
}

} // verus!
