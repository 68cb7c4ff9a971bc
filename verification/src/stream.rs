use vstd::prelude::*;

use crate::error::Error;
use crate::event::{Event, EventModel};
use crate::timestamp::Timestamp;

verus! {

/// The views of a sequence of events.
pub open spec fn models_of<T: Timestamp>(s: Seq<Event<T>>) -> Seq<EventModel<T>> {
    s.map_values(|e: Event<T>| e@)
}

/// The events of `s` whose timestamp is at or after `ts`, in the order they
/// stand in `s`.
pub open spec fn events_from<T: Timestamp>(s: Seq<EventModel<T>>, ts: T) -> Seq<EventModel<T>>
    decreases s.len(),
{
    if s.len() == 0 {
        Seq::empty()
    } else {
        let rest = events_from(s.drop_last(), ts);
        if ts.le_spec(s.last().ts) {
            rest.push(s.last())
        } else {
            rest
        }
    }
}

/// Whether a read that starts at `ts` can be served under the retention
/// watermark `w`: every position at or after the watermark is readable.
pub open spec fn readable<T: Timestamp>(w: Option<T>, ts: T) -> bool {
    match w {
        None => true,
        Some(w0) => w0.le_spec(ts),
    }
}

/// The watermark after a release to `ts`: a request below the current
/// watermark is a no-op, so the watermark never moves backward.
pub open spec fn new_watermark<T: Timestamp>(w: Option<T>, ts: T) -> T {
    match w {
        None => ts,
        Some(w0) => if ts.le_spec(w0) {
            w0
        } else {
            ts
        },
    }
}

/// An interface to manipulate a stream: an append-only, prefix-truncatable,
/// timestamp-ordered event log.
///
/// `events()` is the sequence of currently retained events, in append order;
/// `watermark()` is the exclusive retention boundary set by the latest
/// release, if any.
pub trait Stream: Sized {
    type Timestamp: Timestamp;

    /// The currently retained events, in the order they were appended.
    spec fn events(&self) -> Seq<EventModel<Self::Timestamp>>;

    /// The retention watermark: events below it have been released.
    spec fn watermark(&self) -> Option<Self::Timestamp>;

    /// Reads events since a timestamp (inclusive): on success, exactly the
    /// retained events at or after `ts`, in the order appended. A read from
    /// below the watermark cannot be served honestly and must fail.
    fn read_events(&self, ts: Self::Timestamp) -> (r: Result<Vec<Event<Self::Timestamp>>, Error>)
        ensures
            match r {
                Ok(v) => readable(self.watermark(), ts) && models_of(v@) == events_from(
                    self.events(),
                    ts,
                ),
                Err(e) => !(e is AlreadyExists),
            },
    ;

    /// Appends an event. Success is a durability guarantee: the event is
    /// retained; on failure the log is unchanged, never silently truncated.
    fn append_event(&mut self, event: Event<Self::Timestamp>) -> (r: Result<(), Error>)
        ensures
            match r {
                Ok(_) => {
                    &&& final(self).events() == old(self).events().push(event@)
                    &&& final(self).watermark() == old(self).watermark()
                },
                Err(e) => {
                    &&& final(self).events() == old(self).events()
                    &&& final(self).watermark() == old(self).watermark()
                    &&& !(e is AlreadyExists)
                },
            },
    ;

    /// Releases events up to a timestamp (exclusive): the watermark advances
    /// monotonically and events below it are reclaimed.
    fn release_events(&mut self, ts: Self::Timestamp) -> (r: Result<(), Error>)
        ensures
            match r {
                Ok(_) => {
                    &&& final(self).watermark() == Some(new_watermark(old(self).watermark(), ts))
                    &&& final(self).events() == events_from(
                        old(self).events(),
                        new_watermark(old(self).watermark(), ts),
                    )
                },
                Err(_) => {
                    &&& final(self).events() == old(self).events()
                    &&& final(self).watermark() == old(self).watermark()
                },
            },
    ;
}

/// Law: an appended event extends exactly the reads it qualifies for, at the
/// end; every other read is unchanged. Together with `read_events`'s
/// contract, reads therefore return appended events in append order.
pub proof fn lemma_events_from_push<T: Timestamp>(s: Seq<EventModel<T>>, e: EventModel<T>, ts: T)
    ensures
        ts.le_spec(e.ts) ==> events_from(s.push(e), ts) == events_from(s, ts).push(e),
        !ts.le_spec(e.ts) ==> events_from(s.push(e), ts) == events_from(s, ts),
{
    assert(s.push(e).drop_last() =~= s);
    assert(s.push(e).last() == e);
}

/// Law: a read from `ts` yields exactly the subset of retained events with
/// timestamp at or after `ts`: every yielded event qualifies, every yielded
/// event was retained, and every retained event that qualifies is yielded.
pub proof fn lemma_events_from_exact<T: Timestamp>(s: Seq<EventModel<T>>, ts: T)
    ensures
        forall|i: int|
            0 <= i < events_from(s, ts).len() ==> ts.le_spec(
                (#[trigger] events_from(s, ts)[i]).ts,
            ),
        forall|i: int|
            0 <= i < events_from(s, ts).len() ==> s.contains(#[trigger] events_from(s, ts)[i]),
        forall|i: int|
            0 <= i < s.len() && ts.le_spec((#[trigger] s[i]).ts) ==> events_from(s, ts).contains(
                s[i],
            ),
    decreases s.len(),
{
    if s.len() > 0 {
        let prefix = s.drop_last();
        lemma_events_from_exact(prefix, ts);
        let r = events_from(s, ts);
        let rp = events_from(prefix, ts);
        assert forall|i: int| 0 <= i < r.len() implies ts.le_spec((#[trigger] r[i]).ts) by {
            if i < rp.len() {
                assert(rp[i] == r[i]);
            } else {
                assert(r[i] == s.last());
            }
        }
        assert forall|i: int| 0 <= i < r.len() implies s.contains(#[trigger] r[i]) by {
            if i < rp.len() {
                assert(rp[i] == r[i]);
                let j = choose|j: int| 0 <= j < prefix.len() && prefix[j] == rp[i];
                assert(s[j] == rp[i]);
            } else {
                assert(r[i] == s.last());
                assert(s[s.len() - 1] == s.last());
            }
        }
        assert forall|i: int| 0 <= i < s.len() && ts.le_spec(#[trigger] s[i].ts) implies r.contains(
            s[i],
        ) by {
            if i < s.len() - 1 {
                assert(prefix[i] == s[i]);
                assert(rp.contains(s[i]));
                let j = choose|j: int| 0 <= j < rp.len() && rp[j] == s[i];
                assert(r[j] == s[i]);
            } else {
                assert(s[i] == s.last());
                assert(r.last() == s.last());
            }
        }
    }
}

/// Non-decreasing timestamp order of a sequence of events.
pub open spec fn sorted_by_ts<T: Timestamp>(s: Seq<EventModel<T>>) -> bool {
    forall|i: int, j: int|
        #![trigger s[i], s[j]]
        0 <= i <= j < s.len() ==> s[i].ts.le_spec(s[j].ts)
}

/// Law: when events were appended with non-decreasing timestamps, a read
/// yields them in non-decreasing timestamp order.
pub proof fn lemma_events_from_sorted<T: Timestamp>(s: Seq<EventModel<T>>, ts: T)
    requires
        sorted_by_ts(s),
    ensures
        sorted_by_ts(events_from(s, ts)),
    decreases s.len(),
{
    if s.len() > 0 {
        let prefix = s.drop_last();
        assert(sorted_by_ts(prefix)) by {
            assert forall|i: int, j: int|
                #![trigger prefix[i], prefix[j]]
                0 <= i <= j < prefix.len() implies prefix[i].ts.le_spec(prefix[j].ts) by {
                assert(s[i] == prefix[i]);
                assert(s[j] == prefix[j]);
            }
        }
        lemma_events_from_sorted(prefix, ts);
        lemma_events_from_exact(prefix, ts);
        let r = events_from(s, ts);
        let rp = events_from(prefix, ts);
        if ts.le_spec(s.last().ts) {
            assert(r == rp.push(s.last()));
            assert forall|i: int, j: int|
                #![trigger r[i], r[j]]
                0 <= i <= j < r.len() implies r[i].ts.le_spec(r[j].ts) by {
                if j < rp.len() {
                    assert(r[i] == rp[i] && r[j] == rp[j]);
                } else {
                    assert(r[j] == s.last());
                    if i < rp.len() {
                        assert(r[i] == rp[i]);
                        assert(prefix.contains(rp[i]));
                        let k = choose|k: int| 0 <= k < prefix.len() && prefix[k] == rp[i];
                        assert(s[k] == prefix[k]);
                        assert(s[k].ts.le_spec(s[s.len() - 1].ts));
                        assert(s[s.len() - 1] == s.last());
                    } else {
                        lemma_le_refl(s.last().ts);
                    }
                }
            }
        }
    }
}

/// Reflexivity of a timestamp's order, as a standalone fact.
proof fn lemma_le_refl<T: Timestamp>(t: T)
    ensures
        t.le_spec(t),
{
    T::lemma_total_order(t, t, t);
}

/// Law: once the watermark has advanced past `ts2` by a release to `ts`,
/// a read from `ts2` can no longer be served: with `read_events`'s contract
/// it must fail, so released events are never returned.
pub proof fn lemma_release_blocks_early_reads<T: Timestamp>(w: Option<T>, ts: T, ts2: T)
    requires
        !ts.le_spec(ts2),
    ensures
        !readable(Some(new_watermark(w, ts)), ts2),
{
    let nw = new_watermark(w, ts);
    T::lemma_total_order(ts, nw, ts2);
    T::lemma_total_order(ts, ts2, nw);
    match w {
        None => {},
        Some(w0) => {
            T::lemma_total_order(ts, w0, ts2);
        },
    }
}

} // verus!
