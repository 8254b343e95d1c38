//! Fixed-capacity rolling history of unsigned samples.
//!
//! A buffer always holds exactly [`HISTORY_LEN`] entries: it is created
//! pre-filled with zeroes so sparkline consumers never observe a partially
//! filled window, and every push evicts the oldest entry. Semantically it is
//! a sliding window over the most recent [`HISTORY_LEN`] ticks.

use vstd::prelude::*;

verus! {

/// Number of samples a rolling history window holds.
pub const HISTORY_LEN: usize = 60;

/// The all-zero window that a freshly created buffer shows.
pub open spec fn zero_history() -> Seq<u64> {
    Seq::new(HISTORY_LEN as nat, |i: int| 0u64)
}

/// A fixed-capacity queue of samples, oldest first.
pub struct RingBuffer {
    data: Vec<u64>,
}

impl View for RingBuffer {
    type V = Seq<u64>;

    closed spec fn view(&self) -> Seq<u64> {
        self.data@
    }
}

impl RingBuffer {
    /// A buffer is well formed exactly when it holds a full window.
    pub open spec fn wf(&self) -> bool {
        self@.len() == HISTORY_LEN
    }

    /// Creates a buffer pre-filled with zero-valued samples.
    pub fn new() -> (r: RingBuffer)
        ensures
            r.wf(),
            r@ == zero_history(),
    {
        let data: Vec<u64> = vec![0u64; HISTORY_LEN];
        RingBuffer { data }
    }

    /// Appends a sample, evicting the oldest; always succeeds.
    pub fn push(&mut self, value: u64)
        requires
            old(self).wf(),
        ensures
            final(self).wf(),
            final(self)@ == old(self)@.subrange(1, HISTORY_LEN as int).push(value),
    {
        let _ = self.data.remove(0);
        self.data.push(value);
    }

    /// The ordered window, oldest to newest, for display.
    pub fn values(&self) -> (r: &Vec<u64>)
        ensures
            r@ == self@,
    {
        &self.data
    }

    /// The number of samples held; never exceeds [`HISTORY_LEN`].
    pub fn len(&self) -> (r: usize)
        requires
            self.wf(),
        ensures
            r == self@.len(),
            r == HISTORY_LEN,
    {
        self.data.len()
    }
}

/// The window a buffer shows after the given samples were pushed, in order,
/// into a freshly created buffer. Mirrors [`RingBuffer::new`] and
/// [`RingBuffer::push`]: each push shifts the window left and appends.
pub open spec fn history_after(pushes: Seq<u64>) -> Seq<u64>
    decreases pushes.len(),
{
    if pushes.len() == 0 {
        zero_history()
    } else {
        history_after(pushes.drop_last()).subrange(1, HISTORY_LEN as int).push(pushes.last())
    }
}

/// Law: for every sequence of pushes, the observed window never exceeds
/// [`HISTORY_LEN`] samples, and its content is the last
/// `min(pushes.len(), HISTORY_LEN)` pushed values in push order, preceded by
/// the zeroes of the initial fill.
pub proof fn lemma_history_window(pushes: Seq<u64>)
    ensures
        history_after(pushes).len() == HISTORY_LEN,
        forall|i: int|
            0 <= i < HISTORY_LEN - pushes.len() ==> history_after(pushes)[i] == 0u64,
        forall|i: int|
            HISTORY_LEN - pushes.len() <= i && 0 <= i < HISTORY_LEN ==> history_after(pushes)[i]
                == pushes[pushes.len() - HISTORY_LEN + i],
    decreases pushes.len(),
{
    if pushes.len() == 0 {
    } else {
        let n = pushes.len() as int;
        let prev = history_after(pushes.drop_last());
        lemma_history_window(pushes.drop_last());
        let cur = history_after(pushes);
        assert forall|i: int| 0 <= i < HISTORY_LEN - n implies cur[i] == 0u64 by {
            assert(cur[i] == prev[i + 1]);
        }
        assert forall|i: int| HISTORY_LEN - n <= i && 0 <= i < HISTORY_LEN implies cur[i] == pushes[n
            - HISTORY_LEN + i] by {
            if i < HISTORY_LEN - 1 {
                assert(cur[i] == prev[i + 1]);
                if HISTORY_LEN - (n - 1) <= i + 1 {
                    assert(prev[i + 1] == pushes.drop_last()[(n - 1) - HISTORY_LEN + (i + 1)]);
                }
            } else {
                assert(cur[i] == pushes.last());
            }
        }
    }
}

} // verus!
