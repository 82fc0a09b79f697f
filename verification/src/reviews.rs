//! The review log: an ordered sequence of graded review events per card.
//!
//! Timestamps are unix time in whole seconds; `time_spent` is a duration in
//! seconds. The log is kept sorted by timestamp ascending; ordering is
//! enforced when a log is loaded (`sort_by_timestamp`), not assumed from
//! storage order.

use vstd::multiset::Multiset;
use vstd::prelude::*;

use crate::common::current_time;

verus! {

/// Recall grade of a single review attempt.
#[derive(Clone, Copy, Debug, Hash, PartialEq, Eq, Structural)]
pub enum Grade {
    /// No recall, not even when the answer was shown.
    Missed,
    /// No recall, but the answer was recognized once read.
    Late,
    /// Struggled but got the answer right or somewhat right.
    Partial,
    /// No hesitation, perfect recall.
    Perfect,
}

impl Grade {
    /// A grade below one encodes a lapse (the answer was wrong); a grade of
    /// one or more encodes a success.
    pub open spec fn is_success_spec(self) -> bool {
        match self {
            Grade::Missed => false,
            Grade::Late => false,
            Grade::Partial => true,
            Grade::Perfect => true,
        }
    }

    /// Whether the review counts as a successful recall.
    pub fn is_success(&self) -> (r: bool)
        ensures
            r == self.is_success_spec(),
    {
        match self {
            Grade::Missed => false,
            Grade::Late => false,
            Grade::Partial => true,
            Grade::Perfect => true,
        }
    }
}

/// One graded review event. Immutable once appended to a log.
#[derive(Clone, Copy, Debug, Hash, PartialEq, Eq, Structural)]
pub struct Review {
    /// When (unix time, seconds) the review took place.
    pub timestamp: u64,
    /// Recall grade.
    pub grade: Grade,
    /// How long was spent before attempting recall, in seconds.
    pub time_spent: u64,
}

impl Review {
    /// A review event stamped with the current clock time.
    pub fn new(grade: Grade, time_spent: u64) -> (r: Review)
        ensures
            r.grade == grade,
            r.time_spent == time_spent,
    {
        Review { timestamp: current_time(), grade, time_spent }
    }

    /// Seconds elapsed from this review to `now`, clamped to zero when the
    /// clock reads earlier than the review (clock skew never yields a
    /// negative elapsed time).
    pub fn time_passed(&self, now: u64) -> (r: u64)
        ensures
            r == elapsed_since(self.timestamp, now),
    {
        if now >= self.timestamp {
            now - self.timestamp
        } else {
            0
        }
    }
}

/// Seconds from `earlier` to `now`, clamped to zero if `now` is before it.
pub open spec fn elapsed_since(earlier: u64, now: u64) -> u64 {
    if now >= earlier {
        (now - earlier) as u64
    } else {
        0
    }
}

/// A card's review history, ordered by timestamp ascending.
#[derive(Clone, Debug, Hash, PartialEq, Eq)]
pub struct Reviews(pub Vec<Review>);

impl View for Reviews {
    type V = Seq<Review>;

    open spec fn view(&self) -> Seq<Review> {
        self.0@
    }
}

/// The log's ordering invariant: timestamps never decrease along it.
pub open spec fn sorted_by_timestamp(s: Seq<Review>) -> bool {
    forall|i: int, j: int|
        0 <= i < j < s.len() ==> (#[trigger] s[i]).timestamp <= (#[trigger] s[j]).timestamp
}

/// The number of failed reviews since the most recent successful one.
pub open spec fn lapses_spec(s: Seq<Review>) -> int
    decreases s.len(),
{
    if s.len() == 0 {
        0
    } else if s.last().grade.is_success_spec() {
        0
    } else {
        lapses_spec(s.drop_last()) + 1
    }
}

impl Reviews {
    /// Whether the log has no events.
    pub fn is_empty(&self) -> (r: bool)
        ensures
            r == (self@.len() == 0),
    {
        self.0.len() == 0
    }

    /// The number of events in the log.
    pub fn len(&self) -> (r: usize)
        ensures
            r == self@.len(),
    {
        self.0.len()
    }

    /// The underlying vector of events.
    pub fn into_inner(self) -> (r: Vec<Review>)
        ensures
            r@ == self@,
    {
        self.0
    }

    /// A log over the given events, taken in the given order.
    pub fn from_raw(reviews: Vec<Review>) -> (r: Self)
        ensures
            r@ == reviews@,
    {
        Reviews(reviews)
    }

    /// Appends one event at the end of the log.
    pub fn add_review(&mut self, review: Review)
        ensures
            final(self)@ == old(self)@.push(review),
    {
        self.0.push(review);
    }

    /// The current lapse streak: failed reviews accumulate, any successful
    /// review resets the count to zero.
    pub fn lapses(&self) -> (r: u32)
        requires
            self@.len() <= u32::MAX,
        ensures
            r == lapses_spec(self@),
    {
        let mut lapses: u32 = 0;
        let n = self.0.len();
        let mut i: usize = 0;
        while i < n
            invariant
                i <= n,
                n == self@.len() <= u32::MAX,
                lapses == lapses_spec(self@.take(i as int)),
                lapses <= i,
            decreases n - i,
        {
            proof {
                assert(self@.take(i + 1).drop_last() =~= self@.take(i as int));
                assert(self@.take(i + 1).last() == self@[i as int]);
            }
            lapses = match self.0[i].grade {
                Grade::Missed => lapses + 1,
                Grade::Late => lapses + 1,
                Grade::Partial => 0,
                Grade::Perfect => 0,
            };
            i += 1;
        }
        proof {
            assert(self@.take(n as int) =~= self@);
        }
        lapses
    }

    /// Restores the log's ordering invariant: events are rearranged by
    /// timestamp ascending, keeping every event (a permutation). Storage
    /// order is never trusted; this runs whenever a log is loaded.
    pub fn sort_by_timestamp(&mut self)
        ensures
            final(self)@.to_multiset() == old(self)@.to_multiset(),
            sorted_by_timestamp(final(self)@),
            final(self)@.len() == old(self)@.len(),
    {
        broadcast use vstd::seq_lib::group_to_multiset_ensures;

        let ghost orig = self.0@;
        let mut out: Vec<Review> = Vec::new();
        while self.0.len() > 0
            invariant
                out@.to_multiset().add(self.0@.to_multiset()) =~= orig.to_multiset(),
                out@.len() + self.0@.len() == orig.len(),
                sorted_by_timestamp(out@),
                forall|i: int, j: int|
                    0 <= i < out@.len() && 0 <= j < self.0@.len() ==> (#[trigger] out@[i]).timestamp
                        <= (#[trigger] self.0@[j]).timestamp,
            decreases self.0.len(),
        {
            let mut m: usize = 0;
            let mut q: usize = 1;
            while q < self.0.len()
                invariant
                    0 <= m < self.0@.len(),
                    m < q,
                    forall|t: int|
                        0 <= t < q ==> self.0@[m as int].timestamp <= (#[trigger] self.0@[t]).timestamp,
                decreases self.0@.len() - q,
            {
                if self.0[q].timestamp < self.0[m].timestamp {
                    m = q;
                }
                q += 1;
            }
            let ghost pre_rest = self.0@;
            let ghost pre_out = out@;
            let x = self.0.remove(m);
            proof {
                assert(pre_rest.contains(pre_rest[m as int]));
            }
            out.push(x);
            proof {
                pre_out.to_multiset_ensures();
                pre_rest.to_multiset_ensures();
                assert(out@ == pre_out.push(x));
                assert(self.0@ == pre_rest.remove(m as int));
                assert(x == pre_rest[m as int]);
                assert(out@.to_multiset() =~= pre_out.to_multiset().insert(x));
                assert(self.0@.to_multiset() =~= pre_rest.to_multiset().remove(x));
                assert(pre_rest.to_multiset().count(x) >= 1);
                assert(out@.to_multiset().add(self.0@.to_multiset()) =~= orig.to_multiset());
                assert forall|i: int, j: int|
                    0 <= i < out@.len() && 0 <= j < self.0@.len() implies (#[trigger] out@[i]).timestamp
                    <= (#[trigger] self.0@[j]).timestamp by {
                    if j < m {
                        assert(self.0@[j] == pre_rest[j]);
                    } else {
                        assert(self.0@[j] == pre_rest[j + 1]);
                    }
                    if i < pre_out.len() {
                        assert(out@[i] == pre_out[i]);
                    } else {
                        assert(out@[i] == x);
                    }
                };
            }
        }
        proof {
            assert(self.0@.to_multiset() =~= Multiset::<Review>::empty());
            assert(out@.to_multiset() =~= orig.to_multiset());
        }
        self.0 = out;
    }

    /// Seconds elapsed since the last review, clamped to zero on clock skew;
    /// absent when the log is empty.
    pub fn time_since_last_review(&self, now: u64) -> (r: Option<u64>)
        ensures
            self@.len() == 0 ==> r is None,
            self@.len() > 0 ==> r == Some(elapsed_since(self@.last().timestamp, now)),
    {
        if self.0.len() == 0 {
            None
        } else {
            Some(self.0[self.0.len() - 1].time_passed(now))
        }
    }
}

} // verus!
