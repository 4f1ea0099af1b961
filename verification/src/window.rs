//! The window aggregator: a bounded history of closed buckets behind one
//! open bucket, with the sums of a long and of a short trailing window kept
//! up to date as buckets close and expire.

use std::collections::VecDeque;
use vstd::prelude::*;
use crate::sample::{bump, Sample, Vote};

verus! {

/// Number of closed buckets in the long window.
pub const GLOBAL_SAMPLE_COUNT: usize = 100;

/// Number of closed buckets in the short window.
pub const TPP_SAMPLE_COUNT: usize = 20;

/// Number of bucket rotations between two log records.
pub const SAMPLE_LOG_INTERVAL: usize = 10;

/// Time that a bucket stays open, in nanoseconds.
pub const SAMPLE_DURATION_NANOS: u128 = 100_000_000;

/// Sum of counter `f` over a sequence of buckets.
pub open spec fn total(buckets: Seq<Sample>, f: int) -> int
    decreases buckets.len(),
{
    if buckets.len() == 0 {
        0
    } else {
        total(buckets.drop_last(), f) + buckets.last().count(f)
    }
}

/// The `n` newest of a sequence of buckets that is ordered from old to new;
/// all of them where there are no more than `n`.
pub open spec fn newest(buckets: Seq<Sample>, n: int) -> Seq<Sample> {
    if buckets.len() <= n {
        buckets
    } else {
        buckets.subrange(buckets.len() - n, buckets.len() as int)
    }
}

/// The closed buckets that are kept once one more bucket has closed.
pub open spec fn kept(closed: Seq<Sample>, closing: Sample) -> Seq<Sample> {
    newest(closed.push(closing), GLOBAL_SAMPLE_COUNT as int)
}

/// The closed buckets that are kept once all of `buckets` have closed, one
/// after another, starting from an empty history.
pub open spec fn kept_after(buckets: Seq<Sample>) -> Seq<Sample>
    decreases buckets.len(),
{
    if buckets.len() == 0 {
        Seq::empty()
    } else {
        kept(kept_after(buckets.drop_last()), buckets.last())
    }
}

/// Whether `sum` holds, counter by counter, the sum of `buckets`.
pub open spec fn sums_up(sum: Sample, buckets: Seq<Sample>) -> bool {
    forall|f: int| #[trigger] sum.count(f) == total(buckets, f)
}

/// A bucket that closes adds its counters to the total.
pub proof fn lemma_total_push(buckets: Seq<Sample>, closing: Sample, f: int)
    ensures
        total(buckets.push(closing), f) == total(buckets, f) + closing.count(f),
{
    assert(buckets.push(closing).drop_last() =~= buckets);
}

/// The oldest bucket that leaves takes its counters from the total.
pub proof fn lemma_total_drop_first(buckets: Seq<Sample>, f: int)
    requires
        buckets.len() > 0,
    ensures
        total(buckets.subrange(1, buckets.len() as int), f) == total(buckets, f)
            - buckets[0].count(f),
    decreases buckets.len(),
{
    let rest = buckets.subrange(1, buckets.len() as int);
    let front = buckets.drop_last();
    if buckets.len() == 1 {
        assert(total(front, f) == 0);
        assert(total(rest, f) == 0);
    } else {
        lemma_total_drop_first(front, f);
        assert(rest.drop_last() =~= front.subrange(1, front.len() as int));
        assert(rest.last() == buckets.last());
        assert(front[0] == buckets[0]);
    }
}

/// No total is negative, and no window holds more than the buckets it is
/// taken from.
pub proof fn lemma_total_newest(buckets: Seq<Sample>, n: int, f: int)
    requires
        0 <= n,
    ensures
        0 <= total(newest(buckets, n), f) <= total(buckets, f),
    decreases buckets.len(),
{
    if buckets.len() == 0 {
    } else if buckets.len() <= n {
        lemma_total_newest(buckets.drop_last(), n, f);
    } else {
        let rest = buckets.subrange(1, buckets.len() as int);
        lemma_total_drop_first(buckets, f);
        lemma_total_newest(rest, n, f);
        assert(newest(rest, n) =~= newest(buckets, n));
    }
}

/// Once any number of buckets have closed, the long window holds the
/// hundred newest of them and the short window the twenty newest.
pub proof fn lemma_windows_hold_newest(buckets: Seq<Sample>)
    ensures
        kept_after(buckets) == newest(buckets, GLOBAL_SAMPLE_COUNT as int),
        newest(kept_after(buckets), TPP_SAMPLE_COUNT as int) == newest(
            buckets,
            TPP_SAMPLE_COUNT as int,
        ),
    decreases buckets.len(),
{
    if buckets.len() > 0 {
        let front = buckets.drop_last();
        lemma_windows_hold_newest(front);
        assert(front.push(buckets.last()) =~= buckets);
        assert(kept(newest(front, GLOBAL_SAMPLE_COUNT as int), buckets.last()) =~= newest(
            buckets,
            GLOBAL_SAMPLE_COUNT as int,
        ));
    }
    assert(newest(newest(buckets, GLOBAL_SAMPLE_COUNT as int), TPP_SAMPLE_COUNT as int) =~= newest(
        buckets,
        TPP_SAMPLE_COUNT as int,
    ));
}

/// The state of a history, as the contracts speak of it.
pub struct HistoryView {
    /// The closed buckets that are kept, oldest first.
    pub closed: Seq<Sample>,
    /// The open bucket.
    pub active: Sample,
    /// The sum of the long window.
    pub global: Sample,
    /// The sum of the short window.
    pub tpp: Sample,
    /// Rotations since the last log record.
    pub log_interval: int,
}

/// The bucket history with its two running sums.
pub struct History {
    closed: VecDeque<Sample>,
    active: Sample,
    global_sample: Sample,
    tpp_sample: Sample,
    log_interval: usize,
}

impl View for History {
    type V = HistoryView;

    closed spec fn view(&self) -> HistoryView {
        HistoryView {
            closed: self.closed@,
            active: self.active,
            global: self.global_sample,
            tpp: self.tpp_sample,
            log_interval: self.log_interval as int,
        }
    }
}

impl HistoryView {
    /// What holds of every history: it keeps no more closed buckets than
    /// the long window has, the long sum is the sum of all of them, the
    /// short sum is the sum of the newest of them, and the rotations since
    /// the last log record are fewer than a log interval.
    pub open spec fn consistent(self) -> bool {
        &&& self.closed.len() <= GLOBAL_SAMPLE_COUNT
        &&& sums_up(self.global, self.closed)
        &&& sums_up(self.tpp, newest(self.closed, TPP_SAMPLE_COUNT as int))
        &&& 0 <= self.log_interval < SAMPLE_LOG_INTERVAL
    }

    /// Whether the open bucket can close without a counter of the long sum
    /// leaving its range.
    pub open spec fn can_rotate(self) -> bool {
        self.global.fits_with(self.active)
    }

    /// The history after the open bucket has closed.
    pub open spec fn rotated(self, next: HistoryView) -> bool {
        &&& next.closed == kept(self.closed, self.active)
        &&& next.active == Sample::empty()
        &&& next.log_interval == if self.log_interval + 1 >= SAMPLE_LOG_INTERVAL {
            0
        } else {
            self.log_interval + 1
        }
        &&& next.consistent()
    }
}

impl History {
    #[verifier::type_invariant]
    spec fn well_formed(self) -> bool {
        self@.consistent()
    }

    /// A history with no closed bucket and an empty open one.
    pub fn new() -> (history: History)
        ensures
            history@.closed == Seq::<Sample>::empty(),
            history@.active == Sample::empty(),
            history@.global == Sample::empty(),
            history@.tpp == Sample::empty(),
            history@.log_interval == 0,
            history@.consistent(),
    {
        History {
            closed: VecDeque::new(),
            active: Sample::default(),
            global_sample: Sample::default(),
            tpp_sample: Sample::default(),
            log_interval: 0,
        }
    }

    /// The open bucket.
    pub fn active(&self) -> (bucket: &Sample)
        ensures
            *bucket == self@.active,
    {
        &self.active
    }

    /// The sum of the long window: of all closed buckets that are kept.
    pub fn global_sample(&self) -> (sum: &Sample)
        ensures
            *sum == self@.global,
            sums_up(*sum, self@.closed),
    {
        proof {
            use_type_invariant(self);
        }
        &self.global_sample
    }

    /// The sum of the short window: of the newest closed buckets.
    pub fn tpp_sample(&self) -> (sum: &Sample)
        ensures
            *sum == self@.tpp,
            sums_up(*sum, newest(self@.closed, TPP_SAMPLE_COUNT as int)),
    {
        proof {
            use_type_invariant(self);
        }
        &self.tpp_sample
    }

    /// Number of closed buckets that are kept.
    pub fn closed_count(&self) -> (n: usize)
        ensures
            n == self@.closed.len(),
            n <= GLOBAL_SAMPLE_COUNT,
    {
        proof {
            use_type_invariant(self);
        }
        self.closed.len()
    }

    /// Whether the long window is fully populated.
    pub fn is_full(&self) -> (full: bool)
        ensures
            full == (self@.closed.len() == GLOBAL_SAMPLE_COUNT),
    {
        proof {
            use_type_invariant(self);
        }
        self.closed.len() >= GLOBAL_SAMPLE_COUNT
    }

    /// Whether a bucket that has been open for `elapsed_nanos` is due to
    /// close.
    pub fn is_due(elapsed_nanos: u128) -> (due: bool)
        ensures
            due == (elapsed_nanos > SAMPLE_DURATION_NANOS),
    {
        elapsed_nanos > SAMPLE_DURATION_NANOS
    }

    /// Tests whether a message with this vote can be counted in the open
    /// bucket.
    pub fn can_record(&self, vote: Option<Vote>) -> (room: bool)
        ensures
            room == self@.active.has_room(vote),
    {
        self.active.can_record(vote)
    }

    /// Counts one chat message in the open bucket.
    pub fn record(&mut self, vote: Option<Vote>)
        requires
            old(self)@.active.has_room(vote),
        ensures
            forall|f: int|
                #[trigger] final(self)@.active.count(f) == old(self)@.active.count(f) + bump(
                    vote,
                    f,
                ),
            final(self)@.closed == old(self)@.closed,
            final(self)@.global == old(self)@.global,
            final(self)@.tpp == old(self)@.tpp,
            final(self)@.log_interval == old(self)@.log_interval,
    {
        proof {
            use_type_invariant(&*self);
        }
        let mut bucket = self.active;
        bucket.record(vote);
        self.active = bucket;
    }

    /// Counts one chat message in the open bucket if its counters have room
    /// for it, and says whether it did; without room nothing changes.
    pub fn try_record(&mut self, vote: Option<Vote>) -> (counted: bool)
        ensures
            counted == old(self)@.active.has_room(vote),
            counted ==> forall|f: int|
                #[trigger] final(self)@.active.count(f) == old(self)@.active.count(f) + bump(
                    vote,
                    f,
                ),
            !counted ==> final(self)@.active == old(self)@.active,
            final(self)@.closed == old(self)@.closed,
            final(self)@.global == old(self)@.global,
            final(self)@.tpp == old(self)@.tpp,
            final(self)@.log_interval == old(self)@.log_interval,
    {
        if self.can_record(vote) {
            self.record(vote);
            true
        } else {
            false
        }
    }

    /// Tests whether the open bucket can close.
    pub fn can_rotate(&self) -> (fits: bool)
        ensures
            fits == self@.can_rotate(),
    {
        self.global_sample.can_add(&self.active)
    }

    /// Closes the open bucket and opens an empty one. The closed bucket
    /// enters both windows; the bucket that this pushes out of a window
    /// leaves its sum, and the one pushed out of the long window leaves the
    /// history. Returns whether a log record is due.
    pub fn rotate(&mut self) -> (log_due: bool)
        requires
            old(self)@.can_rotate(),
        ensures
            old(self)@.rotated(final(self)@),
            log_due == (old(self)@.log_interval + 1 >= SAMPLE_LOG_INTERVAL),
    {
        let mut taken = History::new();
        std::mem::swap(self, &mut taken);
        let (next, log_due) = taken.closed_once();
        *self = next;
        log_due
    }

    /// Closes the open bucket if the long sum has room for it, and then
    /// says whether a log record is due; without room nothing changes and
    /// the result is `None`.
    pub fn try_rotate(&mut self) -> (log_due: Option<bool>)
        ensures
            log_due is Some == old(self)@.can_rotate(),
            match log_due {
                Some(due) => old(self)@.rotated(final(self)@) && due == (old(self)@.log_interval
                    + 1 >= SAMPLE_LOG_INTERVAL),
                None => final(self)@ == old(self)@,
            },
    {
        if self.can_rotate() {
            Some(self.rotate())
        } else {
            None
        }
    }

    /// The history after its open bucket has closed, and whether a log
    /// record is due.
    fn closed_once(self) -> (next: (History, bool))
        requires
            self@.can_rotate(),
        ensures
            self@.rotated(next.0@),
            next.1 == (self@.log_interval + 1 >= SAMPLE_LOG_INTERVAL),
    {
        proof {
            use_type_invariant(&self);
        }
        let History { mut closed, active, global_sample, tpp_sample, log_interval } = self;
        let ghost before = closed@;
        let ghost all = before.push(active);
        let closing = active;
        assert forall|f: int| #[trigger] tpp_sample.count(f) + closing.count(f) <= u16::MAX by {
            lemma_total_newest(before, TPP_SAMPLE_COUNT as int, f);
            assert(global_sample.count(f) + closing.count(f) <= u16::MAX);
        }
        let mut global = global_sample;
        let mut tpp = tpp_sample;
        global.add_assign(&closing);
        tpp.add_assign(&closing);
        closed.push_back(closing);
        assert forall|f: int| #[trigger] global.count(f) == total(all, f) by {
            lemma_total_push(before, closing, f);
            assert(global_sample.count(f) == total(before, f));
        }
        let ghost short_before = newest(before, TPP_SAMPLE_COUNT as int);
        assert forall|f: int| #[trigger] tpp.count(f) == total(short_before.push(closing), f) by {
            lemma_total_push(short_before, closing, f);
            assert(tpp_sample.count(f) == total(short_before, f));
        }

        if closed.len() > GLOBAL_SAMPLE_COUNT {
            let oldest = closed.pop_front();
            match oldest {
                Some(oldest) => {
                    assert forall|f: int| #[trigger] global.count(f) >= oldest.count(f) by {
                        lemma_total_drop_first(all, f);
                        lemma_total_newest(all.subrange(1, all.len() as int), 0, f);
                        assert(global.count(f) == total(all, f));
                    }
                    let ghost summed = global;
                    global.sub_assign(&oldest);
                    assert forall|f: int| #[trigger] global.count(f) == total(closed@, f) by {
                        lemma_total_drop_first(all, f);
                        assert(summed.count(f) == total(all, f));
                        assert(global.count(f) == summed.count(f) - oldest.count(f));
                    }
                },
                None => {},
            }
        }
        assert(closed@ =~= kept(before, closing));

        let len = closed.len();
        if len > TPP_SAMPLE_COUNT {
            let leaving = closed[len - 1 - TPP_SAMPLE_COUNT];
            let ghost wide = short_before.push(closing);
            assert(wide.len() == TPP_SAMPLE_COUNT + 1);
            assert(wide[0] == leaving);
            assert(wide.subrange(1, wide.len() as int) =~= newest(
                closed@,
                TPP_SAMPLE_COUNT as int,
            ));
            assert forall|f: int| #[trigger] tpp.count(f) >= leaving.count(f) by {
                lemma_total_drop_first(wide, f);
                lemma_total_newest(wide.subrange(1, wide.len() as int), 0, f);
                assert(tpp.count(f) == total(wide, f));
            }
            let ghost summed = tpp;
            tpp.sub_assign(&leaving);
            assert forall|f: int| #[trigger] tpp.count(f) == total(
                newest(closed@, TPP_SAMPLE_COUNT as int),
                f,
            ) by {
                lemma_total_drop_first(wide, f);
                assert(summed.count(f) == total(wide, f));
                assert(tpp.count(f) == summed.count(f) - leaving.count(f));
            }
        } else {
            assert(short_before.push(closing) =~= newest(closed@, TPP_SAMPLE_COUNT as int));
        }

        let log_due = log_interval + 1 >= SAMPLE_LOG_INTERVAL;
        let next = History {
            closed,
            active: Sample::default(),
            global_sample: global,
            tpp_sample: tpp,
            log_interval: if log_due {
                0
            } else {
                log_interval + 1
            },
        };
        (next, log_due)
    }
}

} // verus!
