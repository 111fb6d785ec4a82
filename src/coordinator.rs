//! The ingestion coordinator's decisions: when the active buffer freezes,
//! what a flush hands over, and the lifecycle `Running` -> `ShuttingDown` ->
//! `Closed`. Moving a frozen buffer into the bounded handoff queue, the
//! background persistence worker and the locks are the caller's part; each
//! call here returns the buffer, if any, that must be handed off.

use vstd::prelude::*;
use vstd::seq_lib::lemma_flatten_concat;

use crate::buffer::{total_size, EntryView, WriteBuffer};

verus! {

/// Buffer-count limit used when none is given: one active buffer and one
/// pending frozen buffer.
pub const DEFAULT_MAX_BUFFERS: usize = 2;

#[derive(Debug, Clone, Copy, PartialEq, Eq, Structural)]
pub enum Lifecycle {
    Running,
    ShuttingDown,
    Closed,
}

#[derive(Debug, Clone, Copy, PartialEq, Eq, Structural)]
pub enum WriteError {
    /// The buffer-count limit must be at least one.
    InvalidBufferLimit,
    /// The engine is shutting down or closed.
    Closed,
    /// The active buffer's byte count would no longer fit in a `usize`.
    SizeOverflow,
}

/// Capacity of the handoff queue for a limit of `max_buffers` buffers:
/// `max_buffers - 1`, and at least one.
pub open spec fn handoff_capacity_for(max_buffers: nat) -> nat {
    if max_buffers >= 2 {
        (max_buffers - 1) as nat
    } else {
        1
    }
}

/// One write into an active buffer whose history is `active`: the new active
/// history, and the history of the buffer frozen by the write, if any. The
/// buffer freezes once its size reaches the threshold.
pub open spec fn put_step(active: Seq<EntryView>, threshold: nat, e: EntryView) -> (
    Seq<EntryView>,
    Option<Seq<EntryView>>,
) {
    let grown = active.push(e);
    if total_size(grown) >= threshold {
        (Seq::empty(), Some(grown))
    } else {
        (grown, None)
    }
}

/// A flush: a non-empty active buffer freezes whatever its size.
pub open spec fn flush_step(active: Seq<EntryView>) -> (Seq<EntryView>, Option<Seq<EntryView>>) {
    if active.len() == 0 {
        (active, None)
    } else {
        (Seq::empty(), Some(active))
    }
}

/// The history of a handed-off buffer, if there is one.
pub open spec fn frozen_log<B: WriteBuffer>(o: Option<B>) -> Option<Seq<EntryView>> {
    match o {
        Some(b) => Some(b.log()),
        None => None,
    }
}

/// A handed-off buffer is ready to be consumed.
pub open spec fn frozen_wf<B: WriteBuffer>(o: Option<B>) -> bool {
    match o {
        Some(b) => b.wf(),
        None => true,
    }
}

/// Owns the active buffer and decides when it freezes.
pub struct Coordinator<B: WriteBuffer> {
    active: B,
    size_threshold: usize,
    max_buffers: usize,
    state: Lifecycle,
}

impl<B: WriteBuffer> Coordinator<B> {
    pub closed spec fn wf(&self) -> bool {
        self.active.wf()
    }

    /// Every entry written into the active buffer, in order.
    pub closed spec fn active_log(&self) -> Seq<EntryView> {
        self.active.log()
    }

    pub closed spec fn threshold(&self) -> nat {
        self.size_threshold as nat
    }

    pub closed spec fn buffer_limit(&self) -> nat {
        self.max_buffers as nat
    }

    pub closed spec fn lifecycle(&self) -> Lifecycle {
        self.state
    }

    /// A running coordinator with an empty active buffer; fails when
    /// `max_buffers` is zero.
    pub fn new(size_threshold: usize, max_buffers: usize) -> (r: Result<Self, WriteError>)
        ensures
            match r {
                Ok(c) => {
                    &&& max_buffers >= 1
                    &&& c.wf()
                    &&& c.active_log() == Seq::<EntryView>::empty()
                    &&& c.threshold() == size_threshold
                    &&& c.buffer_limit() == max_buffers
                    &&& c.lifecycle() == Lifecycle::Running
                },
                Err(e) => max_buffers == 0 && e == WriteError::InvalidBufferLimit,
            },
    {
        if max_buffers == 0 {
            return Err(WriteError::InvalidBufferLimit);
        }
        Ok(Coordinator { active: B::new(), size_threshold, max_buffers, state: Lifecycle::Running })
    }

    pub fn size_threshold(&self) -> (r: usize)
        ensures
            r == self.threshold(),
    {
        self.size_threshold
    }

    pub fn max_buffers(&self) -> (r: usize)
        ensures
            r == self.buffer_limit(),
    {
        self.max_buffers
    }

    pub fn state(&self) -> (r: Lifecycle)
        ensures
            r == self.lifecycle(),
    {
        self.state
    }

    /// Bytes held by the active buffer.
    pub fn active_size(&self) -> (r: usize)
        requires
            self.wf(),
        ensures
            r == total_size(self.active_log()),
    {
        self.active.size()
    }

    /// How many frozen buffers may wait for persistence before a hand-off
    /// blocks.
    pub fn handoff_capacity(&self) -> (r: usize)
        ensures
            r == handoff_capacity_for(self.buffer_limit()),
    {
        if self.max_buffers >= 2 {
            self.max_buffers - 1
        } else {
            1
        }
    }

    /// Swaps in a fresh active buffer; the old one is returned unless empty.
    fn freeze(&mut self) -> (r: Option<B>)
        requires
            old(self).wf(),
        ensures
            final(self).wf(),
            final(self).active_log() == Seq::<EntryView>::empty(),
            final(self).threshold() == old(self).threshold(),
            final(self).buffer_limit() == old(self).buffer_limit(),
            final(self).lifecycle() == old(self).lifecycle(),
            frozen_wf(r),
            frozen_log(r) == (if old(self).active_log().len() == 0 {
                None
            } else {
                Some(old(self).active_log())
            }),
    {
        let mut frozen = B::new();
        std::mem::swap(&mut self.active, &mut frozen);
        if frozen.is_empty() {
            None
        } else {
            Some(frozen)
        }
    }

    /// Writes one entry into the active buffer. When the buffer's size
    /// reaches the threshold it freezes: a fresh buffer takes its place and
    /// the frozen one is returned, to be handed to persistence.
    ///
    /// Fails with `Closed` unless running, and with `SizeOverflow` where the
    /// active buffer's byte count would exceed `usize::MAX`; a failed call
    /// changes nothing.
    pub fn put(&mut self, key: Vec<u8>, value: Vec<u8>) -> (r: Result<Option<B>, WriteError>)
        requires
            old(self).wf(),
        ensures
            final(self).wf(),
            final(self).threshold() == old(self).threshold(),
            final(self).buffer_limit() == old(self).buffer_limit(),
            final(self).lifecycle() == old(self).lifecycle(),
            match r {
                Ok(frozen) => {
                    let step = put_step(old(self).active_log(), old(self).threshold(), (key@, value@));
                    &&& old(self).lifecycle() == Lifecycle::Running
                    &&& total_size(old(self).active_log()) + key@.len() + value@.len() <= usize::MAX
                    &&& final(self).active_log() == step.0
                    &&& frozen_log(frozen) == step.1
                    &&& frozen_wf(frozen)
                },
                Err(e) => {
                    &&& final(self).active_log() == old(self).active_log()
                    &&& old(self).lifecycle() != Lifecycle::Running ==> e == WriteError::Closed
                    &&& old(self).lifecycle() == Lifecycle::Running ==> e == WriteError::SizeOverflow
                        && total_size(old(self).active_log()) + key@.len() + value@.len() > usize::MAX
                },
            },
    {
        if self.state != Lifecycle::Running {
            return Err(WriteError::Closed);
        }
        let size = self.active.size();
        if key.len() > usize::MAX - size || value.len() > usize::MAX - size - key.len() {
            return Err(WriteError::SizeOverflow);
        }
        self.active.put(key, value);
        if self.active.size() >= self.size_threshold {
            Ok(self.freeze())
        } else {
            Ok(None)
        }
    }

    /// Freezes the active buffer whatever its size, unless it is empty;
    /// returns the frozen buffer. Fails with `Closed` unless running.
    pub fn flush(&mut self) -> (r: Result<Option<B>, WriteError>)
        requires
            old(self).wf(),
        ensures
            final(self).wf(),
            final(self).threshold() == old(self).threshold(),
            final(self).buffer_limit() == old(self).buffer_limit(),
            final(self).lifecycle() == old(self).lifecycle(),
            match r {
                Ok(frozen) => {
                    &&& old(self).lifecycle() == Lifecycle::Running
                    &&& final(self).active_log() == flush_step(old(self).active_log()).0
                    &&& frozen_log(frozen) == flush_step(old(self).active_log()).1
                    &&& frozen_wf(frozen)
                },
                Err(e) => {
                    &&& old(self).lifecycle() != Lifecycle::Running
                    &&& e == WriteError::Closed
                    &&& final(self).active_log() == old(self).active_log()
                },
            },
    {
        if self.state != Lifecycle::Running {
            return Err(WriteError::Closed);
        }
        if self.active.is_empty() {
            Ok(None)
        } else {
            Ok(self.freeze())
        }
    }

    /// Starts shutdown: a final flush, after which writes are refused. The
    /// caller then closes the handoff queue and waits for persistence to
    /// drain it. Fails with `Closed` unless running, so shutdown happens once.
    pub fn begin_shutdown(&mut self) -> (r: Result<Option<B>, WriteError>)
        requires
            old(self).wf(),
        ensures
            final(self).wf(),
            final(self).threshold() == old(self).threshold(),
            final(self).buffer_limit() == old(self).buffer_limit(),
            match r {
                Ok(frozen) => {
                    &&& old(self).lifecycle() == Lifecycle::Running
                    &&& final(self).lifecycle() == Lifecycle::ShuttingDown
                    &&& final(self).active_log() == flush_step(old(self).active_log()).0
                    &&& frozen_log(frozen) == flush_step(old(self).active_log()).1
                    &&& frozen_wf(frozen)
                },
                Err(e) => {
                    &&& old(self).lifecycle() != Lifecycle::Running
                    &&& e == WriteError::Closed
                    &&& final(self).lifecycle() == old(self).lifecycle()
                    &&& final(self).active_log() == old(self).active_log()
                },
            },
    {
        let frozen = self.flush();
        if frozen.is_ok() {
            self.state = Lifecycle::ShuttingDown;
        }
        frozen
    }

    /// Ends shutdown once persistence has drained: `ShuttingDown` becomes
    /// `Closed`. Fails with `Closed` from any other state, changing nothing.
    pub fn finish_shutdown(&mut self) -> (r: Result<(), WriteError>)
        requires
            old(self).wf(),
        ensures
            final(self).wf(),
            final(self).threshold() == old(self).threshold(),
            final(self).buffer_limit() == old(self).buffer_limit(),
            final(self).active_log() == old(self).active_log(),
            match r {
                Ok(_) => old(self).lifecycle() == Lifecycle::ShuttingDown && final(self).lifecycle()
                    == Lifecycle::Closed,
                Err(e) => {
                    &&& old(self).lifecycle() != Lifecycle::ShuttingDown
                    &&& e == WriteError::Closed
                    &&& final(self).lifecycle() == old(self).lifecycle()
                },
            },
    {
        if self.state == Lifecycle::ShuttingDown {
            self.state = Lifecycle::Closed;
            Ok(())
        } else {
            Err(WriteError::Closed)
        }
    }
}

/// Writes `puts` applied in order to an active buffer whose history is
/// `active`: the final active history, and the histories of the buffers
/// frozen on the way, in the order they froze.
pub open spec fn run_puts(active: Seq<EntryView>, threshold: nat, puts: Seq<EntryView>) -> (
    Seq<EntryView>,
    Seq<Seq<EntryView>>,
)
    decreases puts.len(),
{
    if puts.len() == 0 {
        (active, Seq::empty())
    } else {
        let before = run_puts(active, threshold, puts.drop_last());
        let step = put_step(before.0, threshold, puts.last());
        match step.1 {
            Some(b) => (step.0, before.1.push(b)),
            None => (step.0, before.1),
        }
    }
}

proof fn lemma_total_size_push(s: Seq<EntryView>, e: EntryView)
    ensures
        total_size(s.push(e)) == total_size(s) + e.0.len() + e.1.len(),
{
    assert(s.push(e).drop_last() =~= s);
}

proof fn lemma_total_size_prefix(s: Seq<EntryView>, n: int)
    requires
        0 <= n <= s.len(),
    ensures
        total_size(s.take(n)) <= total_size(s),
    decreases s.len(),
{
    if n < s.len() {
        assert(s.drop_last().take(n) =~= s.take(n));
        lemma_total_size_prefix(s.drop_last(), n);
    } else {
        assert(s.take(n) =~= s);
    }
}

/// While the running size stays below the threshold, no buffer freezes:
/// every write stays in the active buffer, and nothing goes to persistence
/// until a flush or shutdown.
pub proof fn lemma_no_freeze_below_threshold(
    active: Seq<EntryView>,
    threshold: nat,
    puts: Seq<EntryView>,
)
    requires
        total_size(active + puts) < threshold,
    ensures
        run_puts(active, threshold, puts) == (active + puts, Seq::<Seq<EntryView>>::empty()),
    decreases puts.len(),
{
    if puts.len() > 0 {
        let shorter = puts.drop_last();
        assert((active + puts).take((active.len() + shorter.len()) as int) =~= active + shorter);
        lemma_total_size_prefix(active + puts, (active.len() + shorter.len()) as int);
        lemma_no_freeze_below_threshold(active, threshold, shorter);
        assert((active + shorter).push(puts.last()) =~= active + puts);
    } else {
        assert(active + puts =~= active);
    }
}

/// When the running size first reaches the threshold on the last write,
/// exactly one buffer freezes, holding every entry written, in order, and
/// the new active buffer is empty.
pub proof fn lemma_single_freeze_at_threshold(
    active: Seq<EntryView>,
    threshold: nat,
    puts: Seq<EntryView>,
)
    requires
        puts.len() > 0,
        total_size(active + puts.drop_last()) < threshold,
        total_size(active + puts) >= threshold,
    ensures
        run_puts(active, threshold, puts) == (
            Seq::<EntryView>::empty(),
            seq![active + puts],
        ),
{
    let shorter = puts.drop_last();
    lemma_no_freeze_below_threshold(active, threshold, shorter);
    assert((active + shorter).push(puts.last()) =~= active + puts);
    assert(Seq::<Seq<EntryView>>::empty().push(active + puts) =~= seq![active + puts]);
}

/// No write is lost or repeated: the frozen buffers, in order, followed by
/// the active buffer hold exactly the entries of the starting active buffer
/// and then every write, in order. Every frozen buffer is non-empty and
/// reached the threshold.
pub proof fn lemma_writes_conserved(active: Seq<EntryView>, threshold: nat, puts: Seq<EntryView>)
    ensures
        run_puts(active, threshold, puts).1.flatten() + run_puts(active, threshold, puts).0 == active
            + puts,
        forall|i: int|
            0 <= i < run_puts(active, threshold, puts).1.len() ==> {
                &&& (#[trigger] run_puts(active, threshold, puts).1[i]).len() > 0
                &&& total_size(run_puts(active, threshold, puts).1[i]) >= threshold
            },
    decreases puts.len(),
{
    if puts.len() == 0 {
        assert(active + puts =~= active);
        assert(Seq::<Seq<EntryView>>::empty().flatten() =~= Seq::<EntryView>::empty());
        assert(Seq::<EntryView>::empty() + active =~= active);
    } else {
        let shorter = puts.drop_last();
        let e = puts.last();
        lemma_writes_conserved(active, threshold, shorter);
        let before = run_puts(active, threshold, shorter);
        let step = put_step(before.0, threshold, e);
        assert(active + puts =~= (active + shorter).push(e));
        match step.1 {
            Some(b) => {
                lemma_flatten_concat(before.1, seq![b]);
                seq![b].lemma_flatten_one_element();
                assert(before.1.push(b) =~= before.1 + seq![b]);
                assert(before.1.flatten() + b + Seq::<EntryView>::empty() =~= (before.1.flatten()
                    + before.0).push(e));
            },
            None => {
                assert(before.1.flatten() + step.0 =~= (before.1.flatten() + before.0).push(e));
            },
        }
    }
}

/// A frozen buffer holds no more than it takes to reach the threshold:
/// without its last entry it was below it. Holds from an active buffer
/// below the threshold, as the coordinator keeps it between writes.
pub proof fn lemma_frozen_buffers_minimal(
    active: Seq<EntryView>,
    threshold: nat,
    puts: Seq<EntryView>,
)
    requires
        total_size(active) < threshold,
    ensures
        total_size(run_puts(active, threshold, puts).0) < threshold,
        forall|i: int|
            0 <= i < run_puts(active, threshold, puts).1.len() ==> total_size(
                (#[trigger] run_puts(active, threshold, puts).1[i]).drop_last(),
            ) < threshold,
    decreases puts.len(),
{
    if puts.len() > 0 {
        let shorter = puts.drop_last();
        lemma_frozen_buffers_minimal(active, threshold, shorter);
        let before = run_puts(active, threshold, shorter);
        assert(before.0.push(puts.last()).drop_last() =~= before.0);
        assert(total_size(Seq::<EntryView>::empty()) == 0);
    }
}

/// The buffers handed to persistence over a coordinator's life, from a fresh
/// start: those frozen by `puts`, then the one the shutdown flush freezes.
pub open spec fn handed_over(threshold: nat, puts: Seq<EntryView>) -> Seq<Seq<EntryView>> {
    let run = run_puts(Seq::empty(), threshold, puts);
    match flush_step(run.0).1 {
        Some(b) => run.1.push(b),
        None => run.1,
    }
}

/// Shutdown loses nothing: from a fresh start, the buffers handed to
/// persistence, one segment each, hold every write exactly once and in
/// order; none of them is empty, and the active buffer is left empty.
pub proof fn lemma_shutdown_hands_over_everything(threshold: nat, puts: Seq<EntryView>)
    ensures
        flush_step(run_puts(Seq::empty(), threshold, puts).0).0.len() == 0,
        handed_over(threshold, puts).flatten() == puts,
        forall|i: int|
            0 <= i < handed_over(threshold, puts).len() ==> (#[trigger] handed_over(
                threshold,
                puts,
            )[i]).len() > 0,
{
    let empty = Seq::<EntryView>::empty();
    let run = run_puts(empty, threshold, puts);
    lemma_writes_conserved(empty, threshold, puts);
    assert(empty + puts =~= puts);
    match flush_step(run.0).1 {
        Some(b) => {
            lemma_flatten_concat(run.1, seq![b]);
            seq![b].lemma_flatten_one_element();
            assert(run.1.push(b) =~= run.1 + seq![b]);
        },
        None => {
            assert(run.1.flatten() + run.0 =~= run.1.flatten());
        },
    }
}

} // verus!
