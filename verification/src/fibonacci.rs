//! The scan schedule: worker counts are probed along the Fibonacci sequence
//! seeded with (1, 1), whose emitted values run 1, 2, 3, 5, 8, … — roughly
//! logarithmic growth early in the scan and near-linear growth later, so the
//! saturation knee is found with few probe points.

use vstd::prelude::*;

verus! {

/// A Fibonacci sequence generator over the pair of its two upcoming values.
pub struct Fibonacci {
    /// The most recently emitted value.
    pub curr: u32,
    /// The value the next step emits.
    pub next: u32,
}

impl Fibonacci {
    /// Seeds the generator; `new(1, 1)` yields 1, 2, 3, 5, 8, …
    pub fn new(curr: u32, next: u32) -> (f: Fibonacci)
        ensures
            f.curr == curr,
            f.next == next,
    {
        Fibonacci { curr, next }
    }

    /// Steps the sequence and yields its next value.
    pub fn next(&mut self) -> (v: Option<u32>)
        requires
            old(self).curr + old(self).next <= u32::MAX,
        ensures
            final(self).curr == old(self).next,
            final(self).next == old(self).curr + old(self).next,
            v == Some(old(self).next),
    {
        let new_next = self.curr + self.next;
        self.curr = self.next;
        self.next = new_next;
        Some(self.curr)
    }
}

/// The worker counts a scan visits, from generator state `(curr, next)`:
/// every emitted value below `max`, skipping those below `min`, stopping at
/// the first value at or past `max`.
pub open spec fn schedule_spec(curr: int, next: int, min: int, max: int) -> Seq<u32>
    decreases (if next < max {
        max - next
    } else {
        0int
    }),
{
    if next >= max || curr < 1 || next < 1 {
        Seq::empty()
    } else {
        let emitted: Seq<u32> = if next >= min {
            seq![next as u32]
        } else {
            Seq::empty()
        };
        emitted + schedule_spec(next, curr + next, min, max)
    }
}

/// The concurrency levels a scan over `min_threads..max_threads` probes, in
/// order.
pub fn levels(min_threads: u32, max_threads: u32) -> (v: Vec<u32>)
    ensures
        v@ == schedule_spec(1, 1, min_threads as int, max_threads as int),
{
    let mut acc: Vec<u32> = Vec::new();
    let mut curr: u64 = 1;
    let mut next: u64 = 1;
    while next < max_threads as u64
        invariant
            1 <= curr,
            curr <= next,
            acc@ + schedule_spec(curr as int, next as int, min_threads as int, max_threads as int)
                =~= schedule_spec(1, 1, min_threads as int, max_threads as int),
        decreases (if (next as int) < max_threads as int {
            max_threads as int - next as int
        } else {
            0int
        }),
    {
        let ghost old_acc = acc@;
        let ghost old_curr = curr as int;
        let ghost old_next = next as int;
        let value = next as u32;
        if value >= min_threads {
            acc.push(value);
        }
        let new_next = curr + next;
        curr = next;
        next = new_next;
        proof {
            let min = min_threads as int;
            let max = max_threads as int;
            let emitted: Seq<u32> = if old_next >= min {
                seq![old_next as u32]
            } else {
                Seq::empty()
            };
            assert(schedule_spec(old_curr, old_next, min, max) == emitted + schedule_spec(
                old_next,
                old_curr + old_next,
                min,
                max,
            ));
            assert(acc@ =~= old_acc + emitted);
            assert(acc@ + schedule_spec(curr as int, next as int, min, max) =~= schedule_spec(
                1,
                1,
                min,
                max,
            ));
        }
    }
    proof {
        assert(schedule_spec(
            curr as int,
            next as int,
            min_threads as int,
            max_threads as int,
        ) =~= Seq::<u32>::empty());
        assert(acc@ =~= schedule_spec(1, 1, min_threads as int, max_threads as int));
    }
    acc
}

} // verus!
