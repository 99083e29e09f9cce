//! The control loop's side of the workbench: the working buffer, the saved
//! snapshots, the last encoded stream and the two scalars that cross the
//! real-time boundary.
//!
//! The session never touches a callback's state. What it sends and receives
//! goes through the bounded queues, and none of its operations waits.

use crate::channel::{offered, BoundedChannel};
use crate::codec::{decode, decoded, encode, encoded};
use crate::pipeline::{chunk_views, drain_latest, latest, lemma_next_chunk};
use crate::resampler::{is_resampled, process, target_len, ResampleError};
use crate::speed::Speed;
use vstd::prelude::*;

verus! {

/// What a session holds, as plain mathematical values.
pub struct SessionState<T> {
    /// The working buffer.
    pub buffer: Seq<T>,
    /// The saved snapshots, oldest first.
    pub snapshots: Seq<Seq<T>>,
    /// The last encoded stream.
    pub stream: Seq<u8>,
    /// Whether captured chunks are kept.
    pub recording: bool,
    /// The last reported count of samples still waiting to be played.
    pub remaining: nat,
}

/// The state of the control loop.
pub struct Session<T> {
    buffer: Vec<T>,
    snapshots: Vec<Vec<T>>,
    stream: Vec<u8>,
    recording: bool,
    remaining: usize,
}

impl<T> View for Session<T> {
    type V = SessionState<T>;

    closed spec fn view(&self) -> SessionState<T> {
        SessionState {
            buffer: self.buffer@,
            snapshots: chunk_views(self.snapshots@),
            stream: self.stream@,
            recording: self.recording,
            remaining: self.remaining as nat,
        }
    }
}

/// Takes every chunk that is queued on `feed`, in order, and appends its
/// samples to `buffer` if `keep` is set; the chunks are discarded otherwise.
pub fn collect_chunks<T>(feed: &mut BoundedChannel<Vec<T>>, keep: bool, buffer: &mut Vec<T>)
    ensures
        final(buffer)@ == if keep {
            old(buffer)@ + chunk_views(old(feed)@).flatten()
        } else {
            old(buffer)@
        },
        final(feed)@.len() == 0,
        final(feed).limit() == old(feed).limit(),
{
    let ghost all = chunk_views(feed@);
    let ghost mut taken: int = 0;
    proof {
        assert(all.skip(0) == all);
        assert(all.take(0) == Seq::<Seq<T>>::empty());
        assert(buffer@ + all.take(0).flatten() == buffer@);
    }
    loop
        invariant
            0 <= taken <= all.len(),
            chunk_views(feed@) == all.skip(taken),
            keep ==> buffer@ == old(buffer)@ + all.take(taken).flatten(),
            !keep ==> buffer@ == old(buffer)@,
            feed.limit() == old(feed).limit(),
        ensures
            feed@.len() == 0,
            keep ==> buffer@ == old(buffer)@ + all.flatten(),
            !keep ==> buffer@ == old(buffer)@,
            feed.limit() == old(feed).limit(),
        decreases feed@.len(),
    {
        let ghost queued = feed@;
        match feed.try_recv() {
            None => {
                proof {
                    assert(all.skip(taken).len() == 0);
                    assert(all.take(taken) == all);
                }
                break ;
            },
            Some(chunk) => {
                proof {
                    lemma_next_chunk(all, queued, taken);
                    assert(old(buffer)@ + all.take(taken).flatten() + chunk@ == old(buffer)@ + (
                    all.take(taken).flatten() + chunk@));
                    taken = taken + 1;
                }
                if keep {
                    let mut chunk = chunk;
                    buffer.append(&mut chunk);
                }
            },
        }
    }
}

impl<T: Copy> Session<T> {
    /// A session with an empty buffer, no snapshots and recording off.
    pub fn new() -> (session: Self)
        ensures
            session@ == (SessionState {
                buffer: Seq::<T>::empty(),
                snapshots: Seq::<Seq<T>>::empty(),
                stream: Seq::<u8>::empty(),
                recording: false,
                remaining: 0,
            }),
    {
        let session = Session {
            buffer: Vec::new(),
            snapshots: Vec::new(),
            stream: Vec::new(),
            recording: false,
            remaining: 0,
        };
        proof {
            assert(chunk_views(session.snapshots@) =~= Seq::<Seq<T>>::empty());
        }
        session
    }

    /// The working buffer.
    pub fn buffer(&self) -> (samples: &[T])
        ensures
            samples@ == self@.buffer,
    {
        self.buffer.as_slice()
    }

    /// The last encoded stream.
    pub fn stream(&self) -> (bytes: &[u8])
        ensures
            bytes@ == self@.stream,
    {
        self.stream.as_slice()
    }

    /// Whether captured chunks are kept.
    pub fn is_recording(&self) -> (recording: bool)
        ensures
            recording == self@.recording,
    {
        self.recording
    }

    /// The last reported count of samples still waiting to be played.
    pub fn remaining(&self) -> (count: usize)
        ensures
            count == self@.remaining,
    {
        self.remaining
    }

    /// The number of saved snapshots.
    pub fn snapshot_count(&self) -> (count: usize)
        ensures
            count == self@.snapshots.len(),
    {
        self.snapshots.len()
    }

    /// Replaces the working buffer.
    pub fn set_buffer(&mut self, samples: Vec<T>)
        ensures
            final(self)@ == (SessionState { buffer: samples@, ..old(self)@ }),
    {
        self.buffer = samples;
    }

    /// Empties the working buffer.
    pub fn clear(&mut self)
        ensures
            final(self)@ == (SessionState { buffer: Seq::<T>::empty(), ..old(self)@ }),
    {
        self.buffer.clear();
    }

    /// Extends the working buffer with silence until it holds at least
    /// `length` samples. A buffer that is long enough is left as it is.
    pub fn pad_to(&mut self, length: usize, silence: T)
        ensures
            final(self)@ == (SessionState {
                buffer: old(self)@.buffer + Seq::new(
                    if length > old(self)@.buffer.len() {
                        (length - old(self)@.buffer.len()) as nat
                    } else {
                        0
                    },
                    |i: int| silence,
                ),
                ..old(self)@
            }),
    {
        let ghost start = self.buffer@;
        proof {
            assert(start =~= start + Seq::new(0, |i: int| silence));
        }
        while self.buffer.len() < length
            invariant
                self.buffer@.len() >= start.len(),
                self.buffer@.len() <= length || self.buffer@.len() == start.len(),
                self.buffer@ == start + Seq::new(
                    (self.buffer@.len() - start.len()) as nat,
                    |i: int| silence,
                ),
                self.snapshots == old(self).snapshots,
                self.stream == old(self).stream,
                self.recording == old(self).recording,
                self.remaining == old(self).remaining,
            decreases length - self.buffer.len(),
        {
            let ghost before = self.buffer@;
            self.buffer.push(silence);
            proof {
                assert(self.buffer@ =~= start + Seq::new(
                    (before.len() + 1 - start.len()) as nat,
                    |i: int| silence,
                ));
            }
        }
    }

    /// Stores the stream for `deltas` as the last encoded stream.
    pub fn store_encoded(&mut self, deltas: &[i16])
        ensures
            final(self)@ == (SessionState { stream: encoded(deltas@), ..old(self)@ }),
    {
        self.stream = encode(deltas);
    }

    /// Reads the deltas of the last encoded stream.
    pub fn load_decoded(&self) -> (deltas: Vec<i16>)
        ensures
            deltas@ == decoded(self@.stream),
    {
        decode(self.stream.as_slice())
    }

    /// Resamples the working buffer in place. On an error the session is left
    /// as it was.
    pub fn resample(&mut self, speed: Speed) -> (result: Result<(), ResampleError>)
        ensures
            match result {
                Ok(()) => {
                    &&& speed.is_valid()
                    &&& target_len(old(self)@.buffer.len() as int, speed) <= usize::MAX
                    &&& is_resampled(old(self)@.buffer, speed, final(self)@.buffer)
                    &&& final(self)@ == (SessionState {
                        buffer: final(self)@.buffer,
                        ..old(self)@
                    })
                },
                Err(ResampleError::InvalidSpeed) => {
                    &&& !speed.is_valid()
                    &&& final(self)@ == old(self)@
                },
                Err(ResampleError::OutputTooLong) => {
                    &&& speed.is_valid()
                    &&& target_len(old(self)@.buffer.len() as int, speed) > usize::MAX
                    &&& final(self)@ == old(self)@
                },
            },
    {
        match process(self.buffer.as_slice(), speed) {
            Ok(out) => {
                self.buffer = out;
                Ok(())
            },
            Err(error) => Err(error),
        }
    }

    /// Saves the working buffer as the newest snapshot and leaves it empty.
    /// Returns the index under which the snapshot can be loaded.
    pub fn save_snapshot(&mut self) -> (index: usize)
        ensures
            index == old(self)@.snapshots.len(),
            final(self)@ == (SessionState {
                buffer: Seq::<T>::empty(),
                snapshots: old(self)@.snapshots.push(old(self)@.buffer),
                ..old(self)@
            }),
    {
        let index: usize = self.snapshots.len();
        let mut saved: Vec<T> = Vec::new();
        core::mem::swap(&mut self.buffer, &mut saved);
        self.snapshots.push(saved);
        proof {
            assert(chunk_views(self.snapshots@) =~= chunk_views(old(self).snapshots@).push(
                old(self).buffer@,
            ));
        }
        index
    }

    /// Copies snapshot `index` into the working buffer. Returns whether there
    /// is such a snapshot; without one the session is left as it was.
    pub fn load_snapshot(&mut self, index: usize) -> (found: bool)
        ensures
            found == (index < old(self)@.snapshots.len()),
            found ==> final(self)@ == (SessionState {
                buffer: old(self)@.snapshots[index as int],
                ..old(self)@
            }),
            !found ==> final(self)@ == old(self)@,
    {
        if index < self.snapshots.len() {
            self.buffer = vstd::slice::slice_to_vec(self.snapshots[index].as_slice());
            true
        } else {
            false
        }
    }

    /// Sets the recording flag and, if it changed, offers the new value to the
    /// input callback. Returns whether an update was queued: none is when the
    /// flag did not change, nor when `toggle` is full.
    pub fn set_recording(&mut self, toggle: &mut BoundedChannel<bool>, flag: bool) -> (queued:
        bool)
        ensures
            final(self)@ == (SessionState { recording: flag, ..old(self)@ }),
            final(toggle).limit() == old(toggle).limit(),
            queued == (flag != old(self)@.recording && old(toggle)@.len() < old(toggle).limit()),
            final(toggle)@ == if flag != old(self)@.recording {
                offered(old(toggle)@, old(toggle).limit(), flag)
            } else {
                old(toggle)@
            },
    {
        if flag != self.recording {
            self.recording = flag;
            toggle.try_send(flag)
        } else {
            false
        }
    }

    /// Offers a copy of the working buffer for playback. Returns whether it
    /// was queued; a full `feed` drops it.
    pub fn submit(&self, feed: &mut BoundedChannel<Vec<T>>) -> (queued: bool)
        ensures
            queued == (old(feed)@.len() < old(feed).limit()),
            chunk_views(final(feed)@) == offered(
                chunk_views(old(feed)@),
                old(feed).limit(),
                self@.buffer,
            ),
            final(feed).limit() == old(feed).limit(),
    {
        let copy: Vec<T> = vstd::slice::slice_to_vec(self.buffer.as_slice());
        let queued = feed.try_send(copy);
        proof {
            if queued {
                assert(chunk_views(feed@) =~= chunk_views(old(feed)@).push(self.buffer@));
            }
        }
        queued
    }

    /// One turn of the control loop: take the newest report of the output
    /// callback, and take every captured chunk, appending it to the working
    /// buffer while recording is on and discarding it otherwise.
    pub fn poll(
        &mut self,
        reports: &mut BoundedChannel<usize>,
        captured: &mut BoundedChannel<Vec<T>>,
    )
        ensures
            final(self)@ == (SessionState {
                buffer: if old(self)@.recording {
                    old(self)@.buffer + chunk_views(old(captured)@).flatten()
                } else {
                    old(self)@.buffer
                },
                remaining: latest(old(self)@.remaining, old(reports)@.map_values(|r: usize| r as nat)),
                ..old(self)@
            }),
            final(reports)@.len() == 0,
            final(reports).limit() == old(reports).limit(),
            final(captured)@.len() == 0,
            final(captured).limit() == old(captured).limit(),
    {
        self.remaining = drain_latest(reports, self.remaining);
        collect_chunks(captured, self.recording, &mut self.buffer);
    }
}

} // verus!
