use vstd::prelude::*;

use crate::error::Error;
use crate::event::{Event, EventModel};
use crate::stream::{events_from, lemma_events_from_push, models_of, new_watermark, readable,
    Stream};
use crate::timestamp::Timestamp;

verus! {

/// The reference in-memory journal: a vector of retained events in append
/// order, and the retention watermark of the latest release.
pub struct MemStream<T: Timestamp> {
    events: Vec<Event<T>>,
    watermark: Option<T>,
}

impl<T: Timestamp> MemStream<T> {
    /// An empty journal with no watermark.
    pub fn new() -> (r: MemStream<T>)
        ensures
            r.events() == Seq::<EventModel<T>>::empty(),
            r.watermark() is None,
    {
        let r = MemStream { events: Vec::new(), watermark: None };
        proof {
            assert(models_of(r.events@) =~= Seq::<EventModel<T>>::empty());
        }
        r
    }

    /// The retained events at or after `ts`, in append order.
    fn events_since(&self, ts: T) -> (out: Vec<Event<T>>)
        ensures
            models_of(out@) == events_from(self.events(), ts),
    {
        let mut out: Vec<Event<T>> = Vec::new();
        let n = self.events.len();
        proof {
            assert(models_of(out@) =~= events_from(
                models_of(self.events@.subrange(0, 0)),
                ts,
            ));
        }
        for i in 0..n
            invariant
                n == self.events@.len(),
                models_of(out@) == events_from(models_of(self.events@.subrange(0, i as int)), ts),
        {
            let e = &self.events[i];
            let ghost pre = models_of(self.events@.subrange(0, i as int));
            let ghost post = models_of(self.events@.subrange(0, i as int + 1));
            proof {
                assert(post =~= pre.push(e@));
                lemma_events_from_push(pre, e@, ts);
            }
            if ts.le(&e.ts) {
                let ghost out0 = out@;
                out.push(e.duplicate());
                proof {
                    assert(models_of(out@) =~= models_of(out0).push(e@));
                }
            }
        }
        proof {
            assert(self.events@.subrange(0, n as int) =~= self.events@);
        }
        out
    }
}

impl<T: Timestamp> Stream for MemStream<T> {
    type Timestamp = T;

    closed spec fn events(&self) -> Seq<EventModel<T>> {
        models_of(self.events@)
    }

    closed spec fn watermark(&self) -> Option<T> {
        self.watermark
    }

    fn read_events(&self, ts: T) -> (r: Result<Vec<Event<T>>, Error>)
        ensures
            r is Ok <==> readable(self.watermark(), ts),
            r matches Err(e) ==> e is NotFound,
    {
        match &self.watermark {
            Some(w) => {
                if !w.le(&ts) {
                    return Err(Error::NotFound("a position below the release watermark".to_owned()));
                }
            },
            None => {},
        }
        Ok(self.events_since(ts))
    }

    fn append_event(&mut self, event: Event<T>) -> (r: Result<(), Error>)
        ensures
            r is Ok,
    {
        proof {
            assert(models_of(old(self).events@.push(event)) =~= models_of(
                old(self).events@,
            ).push(event@));
        }
        self.events.push(event);
        Ok(())
    }

    fn release_events(&mut self, ts: T) -> (r: Result<(), Error>)
        ensures
            r is Ok,
    {
        let nw = match &self.watermark {
            Some(w) => if ts.le(w) {
                *w
            } else {
                ts
            },
            None => ts,
        };
        let kept = self.events_since(nw);
        self.events = kept;
        self.watermark = Some(nw);
        Ok(())
    }
}

} // verus!
