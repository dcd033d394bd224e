//! Problems the user needs to hear about, held until a window can show them.
//!
//! Startup runs before any window exists, which is exactly when the
//! interesting failures happen, so a notice waits in a queue. The queue is
//! bounded: an unattended app that fails on a timer must not grow a queue
//! nobody will ever read.

use vstd::prelude::*;

verus! {

/// How many notices wait at most.
pub const CAPACITY: usize = 20;

/// Notices not yet shown, oldest first.
#[derive(Debug)]
pub struct Queue {
    pending: Vec<String>,
}

impl View for Queue {
    type V = Seq<Seq<char>>;

    closed spec fn view(&self) -> Seq<Seq<char>> {
        self.pending.deep_view()
    }
}

impl Queue {
    #[verifier::type_invariant]
    spec fn bounded(self) -> bool {
        self.pending@.len() <= 20
    }

    /// An empty queue.
    pub fn new() -> (q: Queue)
        ensures
            q@ == Seq::<Seq<char>>::empty(),
    {
        let q = Queue { pending: Vec::new() };
        assert(q@ =~= Seq::<Seq<char>>::empty());
        q
    }

    /// Record a notice, unless the queue is already full.
    pub fn push(&mut self, message: String)
        ensures
            old(self)@.len() < 20 ==> final(self)@ == old(self)@.push(message@),
            old(self)@.len() >= 20 ==> final(self)@ == old(self)@,
            final(self)@.len() <= 20,
    {
        proof {
            use_type_invariant(&*self);
        }
        if self.pending.len() < CAPACITY {
            let ghost before = self.pending@;
            let mut pending: Vec<String> = Vec::new();
            core::mem::swap(&mut pending, &mut self.pending);
            pending.push(message);
            self.pending = pending;
            assert(self.pending.deep_view() =~= before.map_values(|s: String| s@).push(message@)
                ) by {
                assert(before.map_values(|s: String| s@) =~= old(self).pending.deep_view());
            }
        }
    }

    /// Drain the queue: every waiting notice, oldest first.
    pub fn take(&mut self) -> (r: Vec<String>)
        ensures
            r.deep_view() == old(self)@,
            final(self)@ == Seq::<Seq<char>>::empty(),
    {
        let mut pending: Vec<String> = Vec::new();
        core::mem::swap(&mut pending, &mut self.pending);
        assert(self@ =~= Seq::<Seq<char>>::empty());
        pending
    }

    /// How many notices wait.
    pub fn len(&self) -> (r: usize)
        ensures
            r == self@.len(),
            r <= 20,
    {
        proof {
            use_type_invariant(self);
        }
        self.pending.len()
    }

    /// Whether no notice waits.
    pub fn is_empty(&self) -> (r: bool)
        ensures
            r == (self@.len() == 0),
    {
        self.pending.len() == 0
    }
}

impl Default for Queue {
    fn default() -> (q: Queue)
        ensures
            q@ == Seq::<Seq<char>>::empty(),
    {
        Queue::new()
    }
}

} // verus!
