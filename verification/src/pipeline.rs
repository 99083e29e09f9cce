//! The streaming pipeline: what the two audio callbacks do on each invocation.
//!
//! Each callback owns its private state and talks to the control loop through
//! bounded queues only. A callback never waits: it drains what is queued, does
//! its work, and offers its result, which a full queue drops.
//!
//! The pipeline moves samples without looking inside them, so the sample type is
//! a parameter; silence is whatever value the output callback was made with.

use crate::channel::{admitted_count, lemma_offered_all, offered, offered_all, BoundedChannel};
use std::collections::VecDeque;
use vstd::prelude::*;

verus! {

/// The sample rate of both audio streams, in samples per second.
pub const SAMPLE_RATE: u32 = 48_000;

/// The number of channels of both audio streams.
pub const CHANNELS: u16 = 1;

/// The contents of queued chunks, chunk by chunk.
pub open spec fn chunk_views<T>(chunks: Seq<Vec<T>>) -> Seq<Seq<T>> {
    Seq::new(chunks.len(), |i: int| chunks[i]@)
}

/// The frame that a callback asking for `frames` samples gets from `ring`:
/// the head of the ring, then silence for whatever the ring cannot supply.
pub open spec fn frame_from<T>(ring: Seq<T>, frames: nat, silence: T) -> Seq<T> {
    Seq::new(
        frames,
        |i: int|
            if i < ring.len() {
                ring[i]
            } else {
                silence
            },
    )
}

/// What is left of `ring` after a callback took `frames` samples from it.
pub open spec fn ring_after<T>(ring: Seq<T>, frames: nat) -> Seq<T> {
    if frames <= ring.len() {
        ring.skip(frames as int)
    } else {
        Seq::empty()
    }
}

/// What is left of `ring` after one callback for each of `sizes`, in order,
/// with nothing new queued in between.
pub open spec fn ring_after_ticks<T>(ring: Seq<T>, sizes: Seq<nat>) -> Seq<T>
    decreases sizes.len(),
{
    if sizes.len() == 0 {
        ring
    } else {
        ring_after(ring_after_ticks(ring, sizes.drop_last()), sizes.last())
    }
}

/// The flag after a run of updates: the last update, or the old flag if there
/// was none.
pub open spec fn latest<T>(current: T, updates: Seq<T>) -> T {
    if updates.len() == 0 {
        current
    } else {
        updates.last()
    }
}

/// The input feed after the input callback, holding `recording`, was handed
/// one chunk: offered to the feed while the flag is set, not at all otherwise.
pub open spec fn forwarded_one<T>(
    recording: bool,
    contents: Seq<Seq<T>>,
    capacity: nat,
    chunk: Seq<T>,
) -> Seq<Seq<T>> {
    if recording {
        offered(contents, capacity, chunk)
    } else {
        contents
    }
}

/// The input feed after the input callback, holding `recording`, was handed
/// `chunks` one by one, with no toggle update and no receive in between.
pub open spec fn forwarded_all<T>(
    recording: bool,
    contents: Seq<Seq<T>>,
    capacity: nat,
    chunks: Seq<Seq<T>>,
) -> Seq<Seq<T>>
    decreases chunks.len(),
{
    if chunks.len() == 0 {
        contents
    } else {
        forwarded_one(
            recording,
            forwarded_all(recording, contents, capacity, chunks.drop_last()),
            capacity,
            chunks.last(),
        )
    }
}

/// The oldest queued chunk is the next one of the run that is being drained,
/// and taking it extends what was drained so far by its samples.
pub(crate) proof fn lemma_next_chunk<T>(all: Seq<Seq<T>>, queued: Seq<Vec<T>>, taken: int)
    requires
        0 <= taken <= all.len(),
        chunk_views(queued) == all.skip(taken),
        queued.len() > 0,
    ensures
        taken < all.len(),
        all[taken] == queued[0]@,
        chunk_views(queued.skip(1)) == all.skip(taken + 1),
        all.take(taken + 1).flatten() == all.take(taken).flatten() + queued[0]@,
{
    assert(all.skip(taken).len() == queued.len());
    assert(chunk_views(queued)[0] == queued[0]@);
    assert(all.skip(taken)[0] == all[taken]);
    assert forall|i: int| 0 <= i < queued.len() - 1 implies chunk_views(queued.skip(1))[i]
        == all.skip(taken + 1)[i] by {
        assert(chunk_views(queued)[i + 1] == all.skip(taken)[i + 1]);
    }
    assert(chunk_views(queued.skip(1)) =~= all.skip(taken + 1));
    assert(all.take(taken + 1) == all.take(taken).push(queued[0]@));
    all.take(taken).lemma_flatten_push(queued[0]@);
}

/// Appends the samples of `chunk` to the tail of `ring`.
fn extend_ring<T: Copy>(ring: &mut VecDeque<T>, chunk: &Vec<T>)
    ensures
        final(ring)@ == old(ring)@ + chunk@,
{
    let mut j: usize = 0;
    while j < chunk.len()
        invariant
            j <= chunk.len(),
            ring@ == old(ring)@ + chunk@.take(j as int),
        decreases chunk.len() - j,
    {
        ring.push_back(chunk[j]);
        proof {
            assert(chunk@.take(j + 1) == chunk@.take(j as int).push(chunk@[j as int]));
        }
        j += 1;
    }
    proof {
        assert(chunk@.take(j as int) == chunk@);
    }
}

/// Takes every item that is queued and returns the last one, or `current` if
/// nothing was queued.
pub fn drain_latest<T: Copy>(channel: &mut BoundedChannel<T>, current: T) -> (value: T)
    ensures
        value == latest(current, old(channel)@),
        final(channel)@.len() == 0,
        final(channel).limit() == old(channel).limit(),
{
    let mut value: T = current;
    let ghost all = channel@;
    let ghost mut taken: int = 0;
    proof {
        assert(all.skip(0) == all);
        assert(all.take(0).len() == 0);
    }
    loop
        invariant
            0 <= taken <= all.len(),
            channel@ == all.skip(taken),
            value == latest(current, all.take(taken)),
            channel.limit() == old(channel).limit(),
        ensures
            channel@.len() == 0,
            value == latest(current, all),
            channel.limit() == old(channel).limit(),
        decreases channel@.len(),
    {
        match channel.try_recv() {
            None => {
                proof {
                    assert(all.take(taken) == all);
                }
                break ;
            },
            Some(update) => {
                proof {
                    assert(all.skip(taken).skip(1) == all.skip(taken + 1));
                    assert(all.take(taken + 1).last() == all[taken]);
                    taken = taken + 1;
                }
                value = update;
            },
        }
    }
    value
}

/// The private state of the output callback: the playback ring.
pub struct OutputCallback<T> {
    ring: VecDeque<T>,
    silence: T,
}

impl<T> View for OutputCallback<T> {
    type V = Seq<T>;

    /// The samples waiting to be played, next one first.
    closed spec fn view(&self) -> Seq<T> {
        self.ring@
    }
}

impl<T: Copy> OutputCallback<T> {
    /// The value that stands for silence.
    pub closed spec fn silence(&self) -> T {
        self.silence
    }

    /// A callback state with an empty ring.
    pub fn new(silence: T) -> (callback: Self)
        ensures
            callback@ == Seq::<T>::empty(),
            callback.silence() == silence,
    {
        OutputCallback { ring: VecDeque::new(), silence }
    }

    /// The number of samples waiting to be played.
    pub fn pending(&self) -> (count: usize)
        ensures
            count == self@.len(),
    {
        self.ring.len()
    }

    /// Moves every chunk that is queued on `feed` to the tail of the ring, in
    /// order, and leaves `feed` empty.
    pub fn absorb(&mut self, feed: &mut BoundedChannel<Vec<T>>)
        ensures
            final(self)@ == old(self)@ + chunk_views(old(feed)@).flatten(),
            final(self).silence() == old(self).silence(),
            final(feed)@.len() == 0,
            final(feed).limit() == old(feed).limit(),
    {
        let ghost all = chunk_views(feed@);
        let ghost mut taken: int = 0;
        proof {
            assert(all.skip(0) == all);
            assert(all.take(0) == Seq::<Seq<T>>::empty());
            assert(self.ring@ + all.take(0).flatten() == self.ring@);
        }
        loop
            invariant
                0 <= taken <= all.len(),
                chunk_views(feed@) == all.skip(taken),
                self.ring@ == old(self).ring@ + all.take(taken).flatten(),
                self.silence == old(self).silence,
                feed.limit() == old(feed).limit(),
            ensures
                feed@.len() == 0,
                self.ring@ == old(self).ring@ + all.flatten(),
                self.silence == old(self).silence,
                feed.limit() == old(feed).limit(),
            decreases feed@.len(),
        {
            let ghost queued = feed@;
            match feed.try_recv() {
                None => {
                    proof {
                        assert(all.skip(taken).len() == 0);
                        assert(all.take(taken) == all);
                    }
                    break ;
                },
                Some(chunk) => {
                    proof {
                        lemma_next_chunk(all, queued, taken);
                        assert(old(self).ring@ + all.take(taken).flatten() + chunk@ == old(
                            self,
                        ).ring@ + (all.take(taken).flatten() + chunk@));
                        taken = taken + 1;
                    }
                    extend_ring(&mut self.ring, &chunk);
                },
            }
        }
    }

    /// Fills `frame` from the head of the ring and removes what was taken.
    /// Where the ring runs out, the rest of the frame is silence.
    pub fn fill(&mut self, frame: &mut [T])
        ensures
            final(frame)@ == frame_from(old(self)@, old(frame)@.len(), old(self).silence()),
            final(self)@ == ring_after(old(self)@, old(frame)@.len()),
            final(self).silence() == old(self).silence(),
    {
        let n: usize = frame.len();
        let mut i: usize = 0;
        proof {
            assert(self.ring@.skip(0) == self.ring@);
        }
        while i < n
            invariant
                i <= n,
                frame@.len() == n,
                n == old(frame)@.len(),
                self.silence == old(self).silence,
                self.ring@ == ring_after(old(self).ring@, i as nat),
                forall|j: int|
                    0 <= j < i ==> frame@[j] == if j < old(self).ring@.len() {
                        old(self).ring@[j]
                    } else {
                        old(self).silence
                    },
            decreases n - i,
        {
            let ghost before = self.ring@;
            let next = self.ring.pop_front();
            proof {
                let start = old(self).ring@;
                if i < start.len() {
                    assert(before == start.skip(i as int));
                    assert(before.subrange(1, before.len() as int) == start.skip(i + 1));
                    assert(before[0] == start[i as int]);
                } else {
                    assert(before.len() == 0);
                }
            }
            match next {
                Some(sample) => {
                    frame[i] = sample;
                },
                None => {
                    frame[i] = self.silence;
                },
            }
            i += 1;
        }
        proof {
            assert(frame@ =~= frame_from(old(self).ring@, n as nat, old(self).silence));
        }
    }

    /// One invocation of the output callback for a frame of the device's
    /// choosing: queue what arrived, fill the frame, report what is left.
    ///
    /// The report is the ring's new length. It is offered to `remaining` and
    /// dropped if that queue is full.
    pub fn tick(
        &mut self,
        feed: &mut BoundedChannel<Vec<T>>,
        remaining: &mut BoundedChannel<usize>,
        frame: &mut [T],
    )
        ensures
            final(frame)@ == frame_from(
                old(self)@ + chunk_views(old(feed)@).flatten(),
                old(frame)@.len(),
                old(self).silence(),
            ),
            final(self)@ == ring_after(
                old(self)@ + chunk_views(old(feed)@).flatten(),
                old(frame)@.len(),
            ),
            final(self).silence() == old(self).silence(),
            final(feed)@.len() == 0,
            final(feed).limit() == old(feed).limit(),
            final(remaining)@ == offered(
                old(remaining)@,
                old(remaining).limit(),
                final(self)@.len() as usize,
            ),
            final(remaining).limit() == old(remaining).limit(),
            old(self)@.len() == 0 && old(feed)@.len() == 0 ==> final(self)@.len() == 0 && forall|
                i: int,
            |
                0 <= i < final(frame)@.len() ==> final(frame)@[i] == old(self).silence(),
    {
        self.absorb(feed);
        self.fill(frame);
        let left: usize = self.ring.len();
        remaining.try_send(left);
        proof {
            if old(feed)@.len() == 0 {
                assert(chunk_views(old(feed)@) == Seq::<Seq<T>>::empty());
            }
        }
    }
}

/// The private state of the input callback: whether captured chunks are
/// forwarded.
pub struct InputCallback {
    recording: bool,
}

impl InputCallback {
    /// Whether captured chunks are forwarded.
    pub closed spec fn recording(&self) -> bool {
        self.recording
    }

    /// A callback state that does not forward.
    pub fn new() -> (callback: Self)
        ensures
            !callback.recording(),
    {
        InputCallback { recording: false }
    }

    /// Whether captured chunks are forwarded.
    pub fn is_recording(&self) -> (recording: bool)
        ensures
            recording == self.recording(),
    {
        self.recording
    }

    /// One invocation of the input callback for a captured chunk: take every
    /// pending toggle update, then forward a copy of the chunk if the flag is set.
    ///
    /// Returns whether the chunk was queued on `feed`. It is not when the flag
    /// is clear, and not when `feed` is full; in neither case is it copied.
    pub fn tick<T: Copy>(
        &mut self,
        toggle: &mut BoundedChannel<bool>,
        feed: &mut BoundedChannel<Vec<T>>,
        chunk: &[T],
    ) -> (forwarded: bool)
        ensures
            final(self).recording() == latest(old(self).recording(), old(toggle)@),
            final(toggle)@.len() == 0,
            final(toggle).limit() == old(toggle).limit(),
            final(feed).limit() == old(feed).limit(),
            forwarded == (final(self).recording() && old(feed)@.len() < old(feed).limit()),
            chunk_views(final(feed)@) == forwarded_one(
                final(self).recording(),
                chunk_views(old(feed)@),
                old(feed).limit(),
                chunk@,
            ),
            forwarded ==> final(feed)@.len() == old(feed)@.len() + 1 && final(feed)@.drop_last()
                == old(feed)@ && final(feed)@.last()@ == chunk@,
            !forwarded ==> final(feed)@ == old(feed)@,
    {
        self.recording = drain_latest(toggle, self.recording);
        if self.recording && !feed.is_full() {
            let copy: Vec<T> = vstd::slice::slice_to_vec(chunk);
            let forwarded = feed.try_send(copy);
            proof {
                assert(chunk_views(feed@) =~= chunk_views(old(feed)@).push(chunk@));
                assert(feed@.drop_last() =~= old(feed)@);
            }
            forwarded
        } else {
            false
        }
    }
}

/// Underrun, one callback: an empty ring gives a frame of pure silence and
/// stays empty.
pub proof fn lemma_empty_ring_is_silent<T>(ring: Seq<T>, frames: nat, silence: T)
    requires
        ring.len() == 0,
    ensures
        frame_from(ring, frames, silence) == Seq::new(frames, |i: int| silence),
        ring_after(ring, frames).len() == 0,
{
    assert(frame_from(ring, frames, silence) =~= Seq::new(frames, |i: int| silence));
}

/// Frame boundaries do not matter: two callbacks in a row play the same
/// samples, in the same order, as one callback for both frames together, and
/// leave the same ring.
pub proof fn lemma_split_frame<T>(ring: Seq<T>, first: nat, second: nat, silence: T)
    ensures
        frame_from(ring, first, silence) + frame_from(ring_after(ring, first), second, silence)
            == frame_from(ring, first + second, silence),
        ring_after(ring_after(ring, first), second) == ring_after(ring, first + second),
{
    let rest = ring_after(ring, first);
    let joined = frame_from(ring, first, silence) + frame_from(rest, second, silence);
    assert forall|i: int| 0 <= i < first + second implies joined[i] == frame_from(
        ring,
        first + second,
        silence,
    )[i] by {
        if i >= first && first <= ring.len() {
            assert(frame_from(rest, second, silence)[i - first] == if i - first < rest.len() {
                rest[i - first]
            } else {
                silence
            });
        }
    }
    assert(joined =~= frame_from(ring, first + second, silence));
    assert(ring_after(rest, second) =~= ring_after(ring, first + second));
}

/// Callbacks only shorten the ring.
pub proof fn lemma_ring_after_ticks_len<T>(ring: Seq<T>, sizes: Seq<nat>)
    ensures
        ring_after_ticks(ring, sizes).len() <= ring.len(),
    decreases sizes.len(),
{
    if sizes.len() > 0 {
        lemma_ring_after_ticks_len(ring, sizes.drop_last());
    }
}

/// Underrun: once the ring is drained and nothing new is queued, every sample
/// of every later callback is silence, whatever frame sizes the device asks for.
pub proof fn lemma_underrun_stays_silent<T>(
    ring: Seq<T>,
    sizes: Seq<nat>,
    drained: int,
    tick: int,
    silence: T,
)
    requires
        0 <= drained <= tick < sizes.len(),
        ring_after_ticks(ring, sizes.take(drained)).len() == 0,
    ensures
        ring_after_ticks(ring, sizes.take(tick)).len() == 0,
        frame_from(ring_after_ticks(ring, sizes.take(tick)), sizes[tick], silence) == Seq::new(
            sizes[tick],
            |i: int| silence,
        ),
    decreases tick - drained,
{
    if drained < tick {
        lemma_underrun_stays_silent(ring, sizes, drained, tick - 1, silence);
        assert(sizes.take(tick).drop_last() == sizes.take(tick - 1));
    }
    lemma_empty_ring_is_silent(ring_after_ticks(ring, sizes.take(tick)), sizes[tick], silence);
}

/// Record-toggle gating: while the flag is clear no chunk reaches the feed;
/// while it is set the chunks reach it in the order they were captured, as many
/// as the feed has room for, and all of them when it has room for all.
pub proof fn lemma_gating<T>(
    recording: bool,
    contents: Seq<Seq<T>>,
    capacity: nat,
    chunks: Seq<Seq<T>>,
)
    ensures
        !recording ==> forwarded_all(recording, contents, capacity, chunks) == contents,
        recording ==> forwarded_all(recording, contents, capacity, chunks) == contents
            + chunks.take(admitted_count(contents.len(), capacity, chunks.len()) as int),
        recording && contents.len() + chunks.len() <= capacity ==> forwarded_all(
            recording,
            contents,
            capacity,
            chunks,
        ) == contents + chunks,
    decreases chunks.len(),
{
    if chunks.len() > 0 {
        lemma_gating(recording, contents, capacity, chunks.drop_last());
    }
    if recording {
        assert(forwarded_all(recording, contents, capacity, chunks) == offered_all(
            contents,
            capacity,
            chunks,
        )) by {
            lemma_forwarded_is_offered(contents, capacity, chunks);
        }
        lemma_offered_all(contents, capacity, chunks);
        if contents.len() + chunks.len() <= capacity {
            assert(chunks.take(chunks.len() as int) == chunks);
        }
    }
}

/// With the flag set, forwarding chunks is offering them to the feed.
proof fn lemma_forwarded_is_offered<T>(contents: Seq<Seq<T>>, capacity: nat, chunks: Seq<Seq<T>>)
    ensures
        forwarded_all(true, contents, capacity, chunks) == offered_all(contents, capacity, chunks),
    decreases chunks.len(),
{
    if chunks.len() > 0 {
        lemma_forwarded_is_offered(contents, capacity, chunks.drop_last());
    }
}

} // verus!
