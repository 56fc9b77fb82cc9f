use vstd::prelude::*;

verus! {

/// The number of samples a history holds.
pub const HISTORY_LEN: usize = 100;

/// A history after one more sample: the oldest leaves, the new one is last.
pub open spec fn after_push(s: Seq<u64>, v: u64) -> Seq<u64> {
    s.drop_first().push(v)
}

/// A history after the samples of `vals`, pushed in order.
pub open spec fn after_pushes(s: Seq<u64>, vals: Seq<u64>) -> Seq<u64>
    decreases vals.len(),
{
    if vals.len() == 0 {
        s
    } else {
        after_push(after_pushes(s, vals.drop_last()), vals.last())
    }
}

/// A fixed-capacity sequence of samples for charts, oldest first. It starts
/// as zeros and every push evicts the oldest sample.
pub struct HistoryRing {
    samples: Vec<u64>,
}

impl View for HistoryRing {
    type V = Seq<u64>;

    closed spec fn view(&self) -> Seq<u64> {
        self.samples@
    }
}

impl HistoryRing {
    #[verifier::type_invariant]
    spec fn full(&self) -> bool {
        self.samples@.len() == HISTORY_LEN
    }

    /// A history of zeros.
    pub fn new() -> (r: HistoryRing)
        ensures
            r@ == Seq::new(HISTORY_LEN as nat, |i: int| 0u64),
    {
        let mut samples: Vec<u64> = Vec::new();
        let mut i: usize = 0;
        while i < HISTORY_LEN
            invariant
                i <= HISTORY_LEN,
                samples@ == Seq::new(i as nat, |k: int| 0u64),
            decreases HISTORY_LEN - i,
        {
            samples.push(0);
            assert(samples@ =~= Seq::new((i + 1) as nat, |k: int| 0u64));
            i = i + 1;
        }
        HistoryRing { samples }
    }

    /// The number of samples, always the capacity.
    pub fn len(&self) -> (r: usize)
        ensures
            r == self@.len(),
            r == HISTORY_LEN,
    {
        proof {
            use_type_invariant(self);
        }
        self.samples.len()
    }

    /// Appends a sample, evicting the oldest.
    pub fn push(&mut self, v: u64)
        ensures
            final(self)@ == after_push(old(self)@, v),
            final(self)@.len() == HISTORY_LEN,
    {
        proof {
            use_type_invariant(&*self);
        }
        let ghost old_samples = self.samples@;
        let mut next: Vec<u64> = Vec::new();
        let mut i: usize = 1;
        while i < self.samples.len()
            invariant
                1 <= i <= old_samples.len(),
                old_samples == self.samples@,
                next@ == old_samples.subrange(1, i as int),
            decreases old_samples.len() - i,
        {
            next.push(self.samples[i]);
            assert(next@ =~= old_samples.subrange(1, i + 1));
            i = i + 1;
        }
        next.push(v);
        assert(next@ =~= after_push(old_samples, v));
        *self = HistoryRing { samples: next };
    }

    /// The samples, oldest first.
    pub fn values(&self) -> (r: &[u64])
        ensures
            r@ == self@,
    {
        self.samples.as_slice()
    }
}

/// Pushing onto a non-empty history keeps its length and shows the joined
/// sequence from the position of the first push on.
pub proof fn lemma_after_pushes(s: Seq<u64>, vals: Seq<u64>)
    requires
        s.len() > 0,
    ensures
        after_pushes(s, vals) == (s + vals).skip(vals.len() as int),
    decreases vals.len(),
{
    if vals.len() > 0 {
        let k = vals.len() as int;
        lemma_after_pushes(s, vals.drop_last());
        assert((s + vals.drop_last()).skip(k - 1).drop_first().push(vals.last()) =~= (s
            + vals).skip(k));
    } else {
        assert((s + vals).skip(0) =~= s);
    }
}

/// A full history keeps its length under any number of pushes, and after at
/// least as many pushes as its capacity it holds exactly the last pushed
/// values, in the order they were pushed.
pub proof fn lemma_history_keeps_last(s: Seq<u64>, vals: Seq<u64>)
    requires
        s.len() == HISTORY_LEN,
    ensures
        after_pushes(s, vals).len() == HISTORY_LEN,
        vals.len() >= HISTORY_LEN ==> after_pushes(s, vals) == vals.skip(
            vals.len() - HISTORY_LEN,
        ),
{
    lemma_after_pushes(s, vals);
    if vals.len() >= HISTORY_LEN {
        assert((s + vals).skip(vals.len() as int) =~= vals.skip(vals.len() - HISTORY_LEN));
    }
}

/// A run of histories, each one push after the one before (as `push` and
/// `App::on_tick` state), ends in the first with all the values pushed; from
/// a full history, at least as many pushes as the capacity leave exactly the
/// last pushed values, in push order.
pub proof fn lemma_history_over_steps(states: Seq<Seq<u64>>, vals: Seq<u64>)
    requires
        states.len() == vals.len() + 1,
        forall|k: int| 0 <= k < vals.len() ==> #[trigger] states[k + 1] == after_push(states[k], vals[k]),
    ensures
        states.last() == after_pushes(states[0], vals),
        states[0].len() == HISTORY_LEN && vals.len() >= HISTORY_LEN ==> states.last() == vals.skip(
            vals.len() - HISTORY_LEN,
        ),
    decreases vals.len(),
{
    if vals.len() > 0 {
        let k = vals.len() - 1;
        assert(states[k + 1] == after_push(states[k], vals[k]));
        lemma_history_over_steps(states.drop_last(), vals.drop_last());
    }
    if states[0].len() == HISTORY_LEN {
        lemma_history_keeps_last(states[0], vals);
    }
}

} // verus!
