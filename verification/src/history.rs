//! A bounded history of simulation frames: the newest frames are kept, up
//! to a limit, and the oldest gives way when a new one comes.

use std::collections::VecDeque;
use vstd::prelude::*;

verus! {

/// How many frames a history made with limit `max_frames` holds at most:
/// the limit, and at least the newest frame.
pub open spec fn history_capacity(max_frames: usize) -> nat {
    if max_frames == 0 {
        1
    } else {
        max_frames as nat
    }
}

/// What is kept of `s` before one more entry is recorded: all of it, or
/// all but the oldest entry when `s` has reached the limit.
pub open spec fn kept_before_record<A>(s: Seq<A>, max_frames: usize) -> Seq<A> {
    if s.len() >= max_frames && s.len() > 0 {
        s.drop_first()
    } else {
        s
    }
}

/// Recorded frames, oldest first, each with its frame number.
pub struct TraceHistory<T> {
    items: VecDeque<T>,
    frames: VecDeque<u32>,
    max_frames: usize,
    enabled: bool,
}

impl<T> TraceHistory<T> {
    /// The recorded frames, oldest first.
    pub closed spec fn items(&self) -> Seq<T> {
        self.items@
    }

    /// The frame numbers of the recorded frames, in the same order.
    pub closed spec fn frame_numbers(&self) -> Seq<u32> {
        self.frames@
    }

    /// The limit the history was made with.
    pub closed spec fn limit(&self) -> usize {
        self.max_frames
    }

    /// Whether frames are being recorded.
    pub closed spec fn is_on(&self) -> bool {
        self.enabled
    }

    /// An empty history that records, keeping at most `max_frames` frames
    /// (at least the newest one).
    pub fn new(max_frames: usize) -> (h: Self)
        ensures
            h.items() == Seq::<T>::empty(),
            h.frame_numbers() == Seq::<u32>::empty(),
            h.limit() == max_frames,
            h.is_on(),
    {
        TraceHistory { items: VecDeque::new(), frames: VecDeque::new(), max_frames, enabled: true }
    }

    /// Starts recording.
    pub fn enable(&mut self)
        ensures
            final(self).items() == old(self).items(),
            final(self).frame_numbers() == old(self).frame_numbers(),
            final(self).limit() == old(self).limit(),
            final(self).is_on(),
    {
        self.enabled = true;
    }

    /// Stops recording; what was recorded stays.
    pub fn disable(&mut self)
        ensures
            final(self).items() == old(self).items(),
            final(self).frame_numbers() == old(self).frame_numbers(),
            final(self).limit() == old(self).limit(),
            !final(self).is_on(),
    {
        self.enabled = false;
    }

    /// Whether frames are being recorded.
    pub fn is_enabled(&self) -> (b: bool)
        ensures
            b == self.is_on(),
    {
        self.enabled
    }

    /// Forgets every recorded frame.
    pub fn clear(&mut self)
        ensures
            final(self).items() == Seq::<T>::empty(),
            final(self).frame_numbers() == Seq::<u32>::empty(),
            final(self).limit() == old(self).limit(),
            final(self).is_on() == old(self).is_on(),
    {
        self.items.clear();
        self.frames.clear();
    }

    /// Records `item` as frame `frame` when recording is on: the oldest
    /// frame gives way once the history holds its limit. Says whether the
    /// frame was recorded.
    pub fn record(&mut self, frame: u32, item: T) -> (recorded: bool)
        ensures
            recorded == old(self).is_on(),
            final(self).limit() == old(self).limit(),
            final(self).is_on() == old(self).is_on(),
            recorded ==> final(self).items() == kept_before_record(old(self).items(), old(self).limit()).push(
                item,
            ),
            recorded ==> final(self).frame_numbers() == kept_before_record(
                old(self).frame_numbers(),
                old(self).limit(),
            ).push(frame),
            !recorded ==> final(self).items() == old(self).items() && final(self).frame_numbers()
                == old(self).frame_numbers(),
            old(self).items().len() <= history_capacity(old(self).limit()) ==> final(self).items().len()
                <= history_capacity(final(self).limit()),
            old(self).frame_numbers().len() == old(self).items().len() ==> final(self).frame_numbers().len()
                == final(self).items().len(),
    {
        if !self.enabled {
            return false;
        }
        if self.items.len() >= self.max_frames {
            let _ = self.items.pop_front();
        }
        if self.frames.len() >= self.max_frames {
            let _ = self.frames.pop_front();
        }
        proof {
            assert(self.items@ =~= kept_before_record(old(self).items(), old(self).limit()));
            assert(self.frames@ =~= kept_before_record(old(self).frame_numbers(), old(self).limit()));
        }
        self.items.push_back(item);
        self.frames.push_back(frame);
        true
    }

    /// Number of recorded frames.
    pub fn len(&self) -> (n: usize)
        ensures
            n == self.items().len(),
    {
        self.items.len()
    }

    /// The recorded frames, oldest first.
    pub fn entries(&self) -> (e: &VecDeque<T>)
        ensures
            e@ == self.items(),
    {
        &self.items
    }

    /// Where the newest `n` frames begin: the number of older frames.
    pub fn last_n_start(&self, n: usize) -> (start: usize)
        ensures
            start == if n >= self.items().len() {
                0
            } else {
                self.items().len() - n
            },
    {
        self.items.len().saturating_sub(n)
    }

    /// The oldest recorded frame numbered `frame`, if one is still kept.
    pub fn get_frame(&self, frame: u32) -> (r: Option<&T>)
        ensures
            match r {
                Some(x) => exists|i: int|
                    0 <= i < self.frame_numbers().len() && i < self.items().len()
                        && #[trigger] self.frame_numbers()[i] == frame && self.items()[i] == *x
                        && forall|j: int| 0 <= j < i ==> self.frame_numbers()[j] != frame,
                None => forall|i: int|
                    0 <= i < self.frame_numbers().len() && i < self.items().len() ==> #[trigger] self.frame_numbers()[i]
                        != frame,
            },
    {
        let n = if self.frames.len() < self.items.len() {
            self.frames.len()
        } else {
            self.items.len()
        };
        let mut i: usize = 0;
        while i < n
            invariant
                n <= self.frames@.len(),
                n <= self.items@.len(),
                n == self.frames@.len() || n == self.items@.len(),
                i <= n,
                forall|j: int| 0 <= j < i ==> #[trigger] self.frames@[j] != frame,
            decreases n - i,
        {
            if self.frames[i] == frame {
                assert(self.frame_numbers()[i as int] == frame);
                return Some(&self.items[i]);
            }
            i = i + 1;
        }
        None
    }
}

} // verus!
