//! Fixed-capacity circular sample store with an embedded write cursor.
//!
//! Samples are carried as raw 32-bit words (the bit patterns of the host's
//! 32-bit sample values); the store never interprets them numerically, it
//! only moves them, so the whole wraparound algorithm is plain index
//! arithmetic over words.

use vstd::prelude::*;
use vstd::arithmetic::div_mod::{
    lemma_add_mod_noop,
    lemma_fundamental_div_mod,
    lemma_fundamental_div_mod_converse,
    lemma_mod_bound,
    lemma_mod_equivalence,
    lemma_mod_sub_multiples_vanish,
    lemma_small_mod,
};

verus! {

/// Why an append was refused.
#[derive(PartialEq, Eq, Structural, Clone, Copy, Debug)]
pub enum RingError {
    /// The incoming frame holds more samples than the whole buffer.
    FrameExceedsCapacity,
}

/// The cursor after appending `len` words at `cursor` into a buffer of
/// `cap` slots: advance, and wrap past the end.
pub open spec fn appended_cursor(cap: int, cursor: int, len: int) -> int {
    if cursor + len <= cap {
        cursor + len
    } else {
        len - (cap - cursor)
    }
}

/// The storage after appending `frame` at `cursor`: the frame occupies
/// `cap - cursor` slots up to the end, then wraps to the front; slots it
/// does not reach keep their old word.
pub open spec fn appended_samples(data: Seq<u32>, cursor: int, frame: Seq<u32>) -> Seq<u32> {
    let cap = data.len() as int;
    Seq::new(
        data.len(),
        |i: int|
            if cursor <= i < cursor + frame.len() {
                frame[i - cursor]
            } else if i < cursor + frame.len() - cap {
                frame[i + (cap - cursor)]
            } else {
                data[i]
            },
    )
}

/// All frames joined in arrival order.
pub open spec fn frames_concat(frames: Seq<Seq<u32>>) -> Seq<u32>
    decreases frames.len(),
{
    if frames.len() == 0 {
        Seq::empty()
    } else {
        frames_concat(frames.drop_last()) + frames.last()
    }
}

/// Every frame short enough to be accepted by a buffer of `cap` slots.
pub open spec fn frames_fit(cap: int, frames: Seq<Seq<u32>>) -> bool {
    forall|k: int| 0 <= k < frames.len() ==> #[trigger] frames[k].len() <= cap
}

/// The cursor after a fresh buffer of `cap` slots takes every frame in
/// order.
pub open spec fn run_cursor(cap: int, frames: Seq<Seq<u32>>) -> int
    decreases frames.len(),
{
    if frames.len() == 0 {
        0
    } else {
        appended_cursor(cap, run_cursor(cap, frames.drop_last()), frames.last().len() as int)
    }
}

/// The storage after a fresh buffer of `cap` slots takes every frame in
/// order.
pub open spec fn run_samples(cap: nat, frames: Seq<Seq<u32>>) -> Seq<u32>
    decreases frames.len(),
{
    if frames.len() == 0 {
        Seq::new(cap, |i: int| 0u32)
    } else {
        appended_samples(
            run_samples(cap, frames.drop_last()),
            run_cursor(cap as int, frames.drop_last()),
            frames.last(),
        )
    }
}

/// The storage read chronologically: oldest word first, starting at the
/// cursor and wrapping past the end.
pub open spec fn chronological(samples: Seq<u32>, cursor: int) -> Seq<u32>
    recommends
        0 <= cursor <= samples.len(),
{
    samples.subrange(cursor, samples.len() as int) + samples.subrange(0, cursor)
}

/// A fixed-capacity circular store of 32-bit sample words.
///
/// `cursor` is the offset of the next free slot, always in
/// `[0, capacity]`; `samples` keeps its length (the capacity) for the
/// life of the buffer.
pub struct RingBuffer {
    cursor: usize,
    samples: Vec<u32>,
}

impl RingBuffer {
    /// The capacity: how many sample slots the buffer holds.
    pub closed spec fn spec_capacity(self) -> int {
        self.samples@.len() as int
    }

    /// The write cursor: offset of the next free slot.
    pub closed spec fn spec_cursor(self) -> int {
        self.cursor as int
    }

    /// The stored words, in storage order (not chronological order).
    pub closed spec fn spec_samples(self) -> Seq<u32> {
        self.samples@
    }

    /// Structural invariant: the cursor never leaves `[0, capacity]`,
    /// and the storage holds exactly `capacity` slots.
    pub open spec fn wf(self) -> bool {
        &&& 0 <= self.spec_cursor() <= self.spec_capacity()
        &&& self.spec_samples().len() == self.spec_capacity()
    }

    /// A fresh buffer: every slot zero, cursor at the start.
    pub fn new(capacity: usize) -> (r: RingBuffer)
        requires
            capacity >= 1,
        ensures
            r.wf(),
            r.spec_capacity() == capacity,
            r.spec_cursor() == 0,
            r.spec_samples() == Seq::<u32>::new(capacity as nat, |i: int| 0u32),
    {
        let mut samples: Vec<u32> = Vec::new();
        let mut i: usize = 0;
        while i < capacity
            invariant
                i <= capacity,
                samples@.len() == i,
                forall|j: int| 0 <= j < i ==> samples@[j] == 0u32,
            decreases capacity - i,
        {
            samples.push(0);
            i += 1;
        }
        proof {
            assert(samples@ =~= Seq::<u32>::new(capacity as nat, |i: int| 0u32));
        }
        RingBuffer { cursor: 0, samples }
    }

    /// Rebuild a buffer from a cursor and storage contents, as a
    /// consumer does after decoding a snapshot.
    pub fn from_parts(cursor: usize, samples: Vec<u32>) -> (r: RingBuffer)
        requires
            cursor <= samples@.len(),
        ensures
            r.wf(),
            r.spec_cursor() == cursor,
            r.spec_samples() == samples@,
            r.spec_capacity() == samples@.len(),
    {
        RingBuffer { cursor, samples }
    }

    /// The capacity as an executable value.
    pub fn capacity(&self) -> (r: usize)
        ensures
            r == self.spec_capacity(),
    {
        self.samples.len()
    }

    /// The cursor as an executable value.
    pub fn cursor(&self) -> (r: usize)
        ensures
            r == self.spec_cursor(),
    {
        self.cursor
    }

    /// Append a frame at the cursor, wrapping past the end of storage.
    ///
    /// A frame longer than the whole buffer is refused, and the buffer
    /// is left exactly as it was; any other frame is copied in full and
    /// the cursor advances (modulo capacity) by the frame's length.
    pub fn append(&mut self, frame: &[u32]) -> (r: Result<(), RingError>)
        requires
            old(self).wf(),
        ensures
            final(self).wf(),
            final(self).spec_capacity() == old(self).spec_capacity(),
            r is Ok <==> frame@.len() <= old(self).spec_capacity(),
            r is Err ==> *final(self) == *old(self) && r == Err::<(), RingError>(
                RingError::FrameExceedsCapacity,
            ),
            r is Ok ==> final(self).spec_cursor() == appended_cursor(
                old(self).spec_capacity(),
                old(self).spec_cursor(),
                frame@.len() as int,
            ) && final(self).spec_samples() == appended_samples(
                old(self).spec_samples(),
                old(self).spec_cursor(),
                frame@,
            ),
    {
        let cap = self.samples.len();
        if frame.len() > cap {
            return Err(RingError::FrameExceedsCapacity);
        }
        let cursor = self.cursor;
        let ghost data = self.samples@;
        if frame.len() <= cap - cursor {
            let mut i: usize = 0;
            while i < frame.len()
                invariant
                    self.cursor == cursor,
                    cursor + frame@.len() <= cap,
                    i <= frame@.len(),
                    self.samples@.len() == cap,
                    forall|j: int|
                        0 <= j < cap ==> self.samples@[j] == if cursor <= j < cursor + i {
                            frame@[j - cursor]
                        } else {
                            data[j]
                        },
                decreases frame@.len() - i,
            {
                self.samples[cursor + i] = frame[i];
                i += 1;
            }
            self.cursor = cursor + frame.len();
            proof {
                assert(self.samples@ =~= appended_samples(data, cursor as int, frame@));
            }
            Ok(())
        } else {
            let split = cap - cursor;
            let mut i: usize = 0;
            while i < split
                invariant
                    self.cursor == cursor,
                    split == cap - cursor,
                    split < frame@.len() <= cap,
                    i <= split,
                    self.samples@.len() == cap,
                    forall|j: int|
                        0 <= j < cap ==> self.samples@[j] == if cursor <= j < cursor + i {
                            frame@[j - cursor]
                        } else {
                            data[j]
                        },
                decreases split - i,
            {
                self.samples[cursor + i] = frame[i];
                i += 1;
            }
            let second = frame.len() - split;
            let mut k: usize = 0;
            while k < second
                invariant
                    self.cursor == cursor,
                    split == cap - cursor,
                    split < frame@.len() <= cap,
                    second == frame@.len() - split,
                    k <= second,
                    self.samples@.len() == cap,
                    forall|j: int|
                        0 <= j < cap ==> self.samples@[j] == if cursor <= j {
                            frame@[j - cursor]
                        } else if j < k {
                            frame@[j + split]
                        } else {
                            data[j]
                        },
                decreases second - k,
            {
                self.samples[k] = frame[split + k];
                k += 1;
            }
            self.cursor = second;
            proof {
                assert(self.samples@ =~= appended_samples(data, cursor as int, frame@));
            }
            Ok(())
        }
    }

    /// Read one slot, in storage order.
    pub fn sample_at(&self, i: usize) -> (r: u32)
        requires
            0 <= i < self.spec_capacity(),
        ensures
            r == self.spec_samples()[i as int],
    {
        self.samples[i]
    }
}

/// Where global sample index `total + t` lands in storage, given a
/// cursor congruent to `total` modulo the capacity.
proof fn lemma_slot_step(cap: int, c: int, total: int, t: int)
    requires
        cap >= 1,
        0 <= c <= cap,
        total >= 0,
        c % cap == total % cap,
        0 <= t < cap,
    ensures
        (total + t) % cap == if c + t < cap {
            c + t
        } else {
            c + t - cap
        },
{
    lemma_add_mod_noop(total, t, cap);
    lemma_add_mod_noop(c, t, cap);
    lemma_small_mod(t as nat, cap as nat);
    if c + t < cap {
        lemma_small_mod((c + t) as nat, cap as nat);
    } else {
        lemma_mod_sub_multiples_vanish(c + t, cap);
        lemma_small_mod((c + t - cap) as nat, cap as nat);
    }
}

/// Global indices less than a full capacity apart use distinct slots.
proof fn lemma_slot_distinct(cap: int, j1: int, j2: int)
    requires
        cap >= 1,
        0 <= j1 < j2 < j1 + cap,
    ensures
        j1 % cap != j2 % cap,
{
    lemma_mod_equivalence(j2, j1, cap);
    lemma_small_mod((j2 - j1) as nat, cap as nat);
}

/// The running state of a fresh buffer fed every frame in order: the
/// cursor stays congruent to the total appended, vanishes only on an
/// empty history, and every slot holds the newest sample whose global
/// index maps to it.
proof fn lemma_run_invariant(cap: nat, frames: Seq<Seq<u32>>)
    requires
        cap >= 1,
        frames_fit(cap as int, frames),
    ensures
        run_samples(cap, frames).len() == cap,
        0 <= run_cursor(cap as int, frames) <= cap,
        run_cursor(cap as int, frames) % cap as int == frames_concat(frames).len() as int
            % cap as int,
        run_cursor(cap as int, frames) == 0 <==> frames_concat(frames).len() == 0,
        forall|j: int|
            0 <= j < frames_concat(frames).len() && frames_concat(frames).len() - cap <= j
                ==> run_samples(cap, frames)[j % cap as int] == frames_concat(frames)[j],
    decreases frames.len(),
{
    let capi = cap as int;
    if frames.len() == 0 {
        lemma_small_mod(0, cap);
    } else {
        let fs = frames.drop_last();
        let f = frames.last();
        assert(frames_fit(capi, fs));
        lemma_run_invariant(cap, fs);
        let s = run_samples(cap, fs);
        let c = run_cursor(capi, fs);
        let total = frames_concat(fs).len() as int;
        let len = f.len() as int;
        let s2 = run_samples(cap, frames);
        let c2 = run_cursor(capi, frames);
        let total2 = frames_concat(frames).len() as int;
        assert(frames_concat(frames) == frames_concat(fs) + f);
        assert(total2 == total + len);
        assert(s2 == appended_samples(s, c, f));
        assert(c2 == appended_cursor(capi, c, len));
        assert(s2.len() == cap);
        // The new cursor stays congruent to the new total.
        assert(c2 % capi == total2 % capi) by {
            lemma_add_mod_noop(total, len, capi);
            lemma_add_mod_noop(c, len, capi);
            if c + len > capi {
                lemma_mod_sub_multiples_vanish(c + len, capi);
            }
        }
        // The cursor vanishes only when nothing was ever appended.
        assert(c2 == 0 <==> total2 == 0) by {
            if len == 0 {
                assert(c2 == c);
            } else {
                if c + len <= capi {
                    assert(c2 == c + len > 0);
                } else {
                    assert(c2 == len - (capi - c) > 0);
                }
            }
        }
        // Every recent global index still reads back correctly.
        assert forall|j: int|
            0 <= j < total2 && total2 - capi <= j implies s2[j % capi] == frames_concat(
            frames,
        )[j] by {
            if j >= total {
                // Written by this frame: sample `t` of the frame lands at
                // slot `(total + t) % cap`.
                let t = j - total;
                lemma_slot_step(capi, c, total, t);
                lemma_mod_bound(j, capi);
                assert(frames_concat(frames)[j] == f[t]);
                if c + t < capi {
                    assert(s2[c + t] == f[t]);
                } else {
                    assert(s2[c + t - capi] == f[t]);
                }
            } else {
                // Untouched by this frame: the slot of `j` collides with
                // no slot the frame wrote.
                lemma_mod_bound(j, capi);
                let p = j % capi;
                assert(frames_concat(frames)[j] == frames_concat(fs)[j]);
                assert(s[p] == frames_concat(fs)[j]);
                if c <= p < c + len {
                    let t = p - c;
                    lemma_slot_step(capi, c, total, t);
                    assert((total + t) % capi == p);
                    lemma_slot_distinct(capi, j, total + t);
                    assert(false);
                }
                if p < c + len - capi {
                    let t = p + capi - c;
                    lemma_slot_step(capi, c, total, t);
                    assert((total + t) % capi == p);
                    lemma_slot_distinct(capi, j, total + t);
                    assert(false);
                }
                assert(s2[p] == s[p]);
            }
        }
    }
}

/// As long as the appended frames together fit in the capacity, the
/// storage prefix below the cursor reproduces every appended sample in
/// original order, with no loss, and the cursor counts them.
pub proof fn lemma_replay_in_order(cap: nat, frames: Seq<Seq<u32>>)
    requires
        cap >= 1,
        frames_fit(cap as int, frames),
        frames_concat(frames).len() <= cap,
    ensures
        run_samples(cap, frames).len() == cap,
        run_cursor(cap as int, frames) == frames_concat(frames).len(),
        run_samples(cap, frames).take(frames_concat(frames).len() as int) == frames_concat(
            frames,
        ),
{
    let capi = cap as int;
    let total = frames_concat(frames).len() as int;
    let c = run_cursor(capi, frames);
    lemma_run_invariant(cap, frames);
    assert(c == total) by {
        if total > 0 {
            lemma_mod_sub_multiples_vanish(capi, capi);
            lemma_small_mod(0, cap);
            if total < capi {
                lemma_small_mod(total as nat, cap);
                if c < capi {
                    lemma_small_mod(c as nat, cap);
                }
            } else {
                if c < capi {
                    lemma_small_mod(c as nat, cap);
                }
            }
        }
    }
    assert forall|j: int| 0 <= j < total implies run_samples(cap, frames)[j] == frames_concat(
        frames,
    )[j] by {
        lemma_small_mod(j as nat, cap);
    }
    assert(run_samples(cap, frames).take(total) =~= frames_concat(frames));
}

/// Once the appended frames total at least the capacity, the buffer
/// retains exactly the most recent `cap` samples: read chronologically
/// from the cursor, the storage is the tail of everything appended, the
/// earlier samples are evicted, and the cursor is the total modulo the
/// capacity whenever that remainder is nonzero (at an exact multiple it
/// rests at the capacity itself).
pub proof fn lemma_window_retained(cap: nat, frames: Seq<Seq<u32>>)
    requires
        cap >= 1,
        frames_fit(cap as int, frames),
        frames_concat(frames).len() >= cap,
    ensures
        run_samples(cap, frames).len() == cap,
        chronological(run_samples(cap, frames), run_cursor(cap as int, frames))
            == frames_concat(frames).subrange(
            frames_concat(frames).len() - cap as int,
            frames_concat(frames).len() as int,
        ),
        frames_concat(frames).len() as int % cap as int != 0 ==> run_cursor(cap as int, frames)
            == frames_concat(frames).len() as int % cap as int,
        run_cursor(cap as int, frames) == (frames_concat(frames).len() - 1) as int % cap as int
            + 1,
{
    let capi = cap as int;
    let total = frames_concat(frames).len() as int;
    let c = run_cursor(capi, frames);
    let s = run_samples(cap, frames);
    lemma_run_invariant(cap, frames);
    lemma_fundamental_div_mod(total, capi);
    lemma_mod_bound(total, capi);
    let q = total / capi;
    let r = total % capi;
    lemma_mod_sub_multiples_vanish(capi, capi);
    lemma_small_mod(0, cap);
    if c < capi {
        lemma_small_mod(c as nat, cap);
    }
    // The closed form of the cursor.
    if r == 0 {
        assert(c == capi);
        assert((q - 1) * capi == q * capi - capi) by (nonlinear_arith);
        lemma_fundamental_div_mod_converse(total - 1, capi, q - 1, capi - 1);
    } else {
        assert(c == r);
        lemma_fundamental_div_mod_converse(total - 1, capi, q, r - 1);
    }
    // The chronological reading is the newest full window.
    let chron = chronological(s, c);
    let window = frames_concat(frames).subrange(total - capi, total);
    assert forall|i: int| 0 <= i < capi implies chron[i] == window[i] by {
        let j = total - capi + i;
        assert(c % capi == (total - capi) % capi) by {
            lemma_mod_sub_multiples_vanish(total, capi);
        }
        lemma_slot_step(capi, c, total - capi, i);
        assert(s[j % capi] == frames_concat(frames)[j]);
    }
    assert(chron =~= window);
}

} // verus!
