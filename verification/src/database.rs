use vstd::prelude::*;

use crate::codec::{decode_entry, decode_model, encode_entry, encode_model, key_name,
    key_name_model, lemma_entry_round_trip};
use crate::error::Error;
use crate::event::{bytes_eq, Event, EventModel};
use crate::storage::{Bucket, Object, ObjectUploader};
use crate::stream::{events_from, models_of, new_watermark, sorted_by_ts, Stream};
use crate::timestamp::Timestamp;

verus! {

/// Whether `ts` may stamp the next write of a database whose last accepted
/// stamp is `last`: timestamps are non-decreasing per database instance.
pub open spec fn ts_ok<T: Timestamp>(last: Option<T>, ts: T) -> bool {
    match last {
        None => true,
        Some(t0) => t0.le_spec(ts),
    }
}

/// The journal event that a put of `k`, `v` writes at stamp `ts`.
pub open spec fn put_event<T: Timestamp>(ts: T, k: Seq<u8>, v: Seq<u8>) -> EventModel<T> {
    EventModel { ts, data: encode_model(k, v) }
}

/// What replaying one journal event does to the store: a decodable payload
/// re-applies its put if, and only if, the key's object is still missing; an
/// undecodable payload is passed over.
pub open spec fn apply_model<T: Timestamp>(
    m: Map<Seq<char>, Seq<u8>>,
    e: EventModel<T>,
) -> Map<Seq<char>, Seq<u8>> {
    match decode_model(e.data) {
        Some(kv) => if m.contains_key(key_name_model(kv.0)) {
            m
        } else {
            m.insert(key_name_model(kv.0), kv.1)
        },
        None => m,
    }
}

/// What replaying a sequence of journal events does to the store, first
/// event first.
pub open spec fn replay_model<T: Timestamp>(
    m: Map<Seq<char>, Seq<u8>>,
    evs: Seq<EventModel<T>>,
) -> Map<Seq<char>, Seq<u8>>
    decreases evs.len(),
{
    if evs.len() == 0 {
        m
    } else {
        replay_model(apply_model(m, evs[0]), evs.drop_first())
    }
}

proof fn lemma_replay_push<T: Timestamp>(
    m: Map<Seq<char>, Seq<u8>>,
    evs: Seq<EventModel<T>>,
    e: EventModel<T>,
)
    ensures
        replay_model(m, evs.push(e)) == apply_model(replay_model(m, evs), e),
    decreases evs.len(),
{
    if evs.len() == 0 {
        assert(evs.push(e)[0] == e);
        assert(evs.push(e).drop_first() =~= Seq::<EventModel<T>>::empty());
        assert(replay_model(m, evs.push(e)) == replay_model(
            apply_model(m, e),
            Seq::<EventModel<T>>::empty(),
        ));
        assert(replay_model(apply_model(m, e), Seq::<EventModel<T>>::empty()) == apply_model(m, e));
        assert(replay_model(m, evs) == m);
    } else {
        assert(evs.push(e)[0] == evs[0]);
        assert(evs.push(e).drop_first() =~= evs.drop_first().push(e));
        lemma_replay_push(apply_model(m, evs[0]), evs.drop_first(), e);
        assert(replay_model(m, evs.push(e)) == replay_model(
            apply_model(m, evs[0]),
            evs.drop_first().push(e),
        ));
        assert(replay_model(m, evs) == replay_model(apply_model(m, evs[0]), evs.drop_first()));
    }
}

/// Law: replaying the journal event that a put wrote re-applies exactly that
/// put where its storage commit is missing, and changes nothing where the
/// commit completed. This closes the crash window between a put's durability
/// point (journal append) and its visibility point (storage commit).
pub proof fn lemma_replay_applies_put<T: Timestamp>(
    m: Map<Seq<char>, Seq<u8>>,
    ts: T,
    k: Seq<u8>,
    v: Seq<u8>,
)
    requires
        k.len() <= u64::MAX,
    ensures
        !m.contains_key(key_name_model(k)) ==> apply_model(m, put_event(ts, k, v)) == m.insert(
            key_name_model(k),
            v,
        ),
        m.contains_key(key_name_model(k)) ==> apply_model(m, put_event(ts, k, v)) == m,
{
    lemma_entry_round_trip(k, v);
}

/// All events of `s` are stamped at or before `last`, when `last` is set.
pub open spec fn bounded_by<T: Timestamp>(s: Seq<EventModel<T>>, last: Option<T>) -> bool {
    match last {
        None => s.len() == 0,
        Some(t) => forall|i: int| 0 <= i < s.len() ==> (#[trigger] s[i]).ts.le_spec(t),
    }
}

/// Law: writes under the non-decreasing-stamp discipline keep the journal in
/// timestamp order. A put at stamp `ts` with `ts_ok(last, ts)` appends its
/// event to a journal bounded by `last` and leaves it sorted and bounded by
/// `ts`; with the journal laws, reads then see puts in put order.
pub proof fn lemma_put_keeps_journal_sorted<T: Timestamp>(
    s: Seq<EventModel<T>>,
    e: EventModel<T>,
    last: Option<T>,
)
    requires
        sorted_by_ts(s),
        bounded_by(s, last),
        ts_ok(last, e.ts),
    ensures
        sorted_by_ts(s.push(e)),
        bounded_by(s.push(e), Some(e.ts)),
{
    let t = s.push(e);
    T::lemma_total_order(e.ts, e.ts, e.ts);
    assert forall|i: int, j: int|
        #![trigger t[i], t[j]]
        0 <= i <= j < t.len() implies t[i].ts.le_spec(t[j].ts) by {
        if j < s.len() {
            assert(t[i] == s[i] && t[j] == s[j]);
        } else {
            assert(t[j] == e);
            if i < s.len() {
                assert(t[i] == s[i]);
                match last {
                    None => {},
                    Some(l) => {
                        T::lemma_total_order(s[i].ts, l, e.ts);
                    },
                }
            }
        }
    }
    assert forall|i: int| 0 <= i < t.len() implies (#[trigger] t[i]).ts.le_spec(e.ts) by {
        if i < s.len() {
            assert(t[i] == s[i]);
            match last {
                None => {},
                Some(l) => {
                    T::lemma_total_order(t[i].ts, l, e.ts);
                },
            }
        } else {
            assert(t[i] == e);
        }
    }
}

/// Law: a put is idempotent in the store. After a put of `k`, `v`, the store
/// holds `v` under the key's name, so a repeated put of the same pair finds
/// matching content, raises no conflict under `put`'s contract, and leaves
/// the store exactly as the first put left it.
pub proof fn lemma_put_idempotent(m: Map<Seq<char>, Seq<u8>>, k: Seq<u8>, v: Seq<u8>)
    ensures
        ({
            let n = key_name_model(k);
            let m1 = m.insert(n, v);
            m1.contains_key(n) && m1[n] == v && m1.insert(n, v) == m1
        }),
{
    let n = key_name_model(k);
    assert(m.insert(n, v).insert(n, v) =~= m.insert(n, v));
}

/// Law: a put followed by a get of the same key returns the value byte for
/// byte. After a put the store binds the key's name to exactly `v`, and
/// `get`'s contract returns exactly that binding.
pub proof fn lemma_put_get_round_trip(m: Map<Seq<char>, Seq<u8>>, k: Seq<u8>, v: Seq<u8>)
    ensures
        m.insert(key_name_model(k), v).contains_key(key_name_model(k)),
        m.insert(key_name_model(k), v)[key_name_model(k)] == v,
{
}

/// The database orchestrator: one journal and one object-store bucket,
/// composed into a crash-durable put/get pipeline. A put appends the encoded
/// pair to the journal (the durability point), then commits the value under
/// the key's object name (the visibility point); a get reads the bucket
/// alone and never consults the journal.
pub struct Database<S: Stream, B: Bucket> {
    stream: S,
    bucket: B,
    last_ts: Option<S::Timestamp>,
}

impl<S: Stream, B: Bucket> Database<S, B> {
    /// The backends' internal well-formedness.
    pub closed spec fn inv(&self) -> bool {
        self.bucket.inv()
    }

    /// The retained journal events, in append order.
    pub closed spec fn journal(&self) -> Seq<EventModel<S::Timestamp>> {
        self.stream.events()
    }

    /// The journal's retention watermark.
    pub closed spec fn watermark(&self) -> Option<S::Timestamp> {
        self.stream.watermark()
    }

    /// The committed store: object name to content.
    pub closed spec fn store(&self) -> Map<Seq<char>, Seq<u8>> {
        self.bucket.objects()
    }

    /// The stamp of the last write this database accepted, if any.
    pub closed spec fn last_ts(&self) -> Option<S::Timestamp> {
        self.last_ts
    }

    /// Builds a database over an injected journal and bucket; both backends
    /// are opened by the embedding caller, and nothing is shared between
    /// database instances.
    pub fn new(stream: S, bucket: B) -> (r: Database<S, B>)
        requires
            bucket.inv(),
        ensures
            r.inv(),
            r.journal() == stream.events(),
            r.watermark() == stream.watermark(),
            r.store() == bucket.objects(),
            r.last_ts() is None,
    {
        Database { stream, bucket, last_ts: None }
    }

    /// Stores `value` under `key` at stamp `ts`.
    ///
    /// The encoded pair is first appended to the journal; once that append
    /// is acknowledged the write survives a crash. The value is then staged
    /// and committed under the key's object name. A commit that finds the
    /// name taken with the same content is a completed retry and succeeds;
    /// one that finds different content is surfaced as `AlreadyExists`.
    pub fn put(&mut self, key: &[u8], value: &[u8], ts: S::Timestamp) -> (r: Result<(), Error>)
        requires
            old(self).inv(),
            ts_ok(old(self).last_ts(), ts),
        ensures
            final(self).inv(),
            final(self).watermark() == old(self).watermark(),
            r is Ok ==> {
                &&& final(self).journal() == old(self).journal().push(put_event(ts, key@, value@))
                &&& final(self).store() == old(self).store().insert(key_name_model(key@), value@)
                &&& final(self).last_ts() == Some(ts)
            },
            r is Err ==> final(self).store() == old(self).store(),
            r is Err ==> final(self).journal() == old(self).journal() || final(self).journal()
                == old(self).journal().push(put_event(ts, key@, value@)),
            r matches Err(e) ==> (e is AlreadyExists ==> old(self).store().contains_key(
                key_name_model(key@),
            ) && old(self).store()[key_name_model(key@)] != value@),
            final(self).journal() == old(self).journal() ==> final(self).last_ts() == old(
                self,
            ).last_ts(),
            final(self).journal() != old(self).journal() ==> final(self).last_ts() == Some(ts),
    {
        let name = key_name(key);
        let payload = encode_entry(key, value);
        let event = Event::new(ts, payload);
        match self.stream.append_event(event) {
            Ok(_) => {},
            Err(e) => {
                return Err(e);
            },
        }
        self.last_ts = Some(ts);
        proof {
            assert(self.stream.events().len() == old(self).stream.events().len() + 1);
            assert(self.stream.events() != old(self).stream.events());
        }
        match self.bucket.object(name.as_str()) {
            Ok(existing) => {
                let data = existing.into_data();
                if bytes_eq(data.as_slice(), value) {
                    proof {
                        assert(old(self).store().insert(key_name_model(key@), value@)
                            =~= old(self).store());
                    }
                    Ok(())
                } else {
                    Err(Error::AlreadyExists(name))
                }
            },
            Err(e) => {
                if e.is_not_found() {
                    let mut uploader = match self.bucket.upload_object(name.as_str()) {
                        Ok(u) => u,
                        Err(e2) => {
                            return Err(e2);
                        },
                    };
                    match uploader.write(value) {
                        Ok(_) => {},
                        Err(e2) => {
                            return Err(e2);
                        },
                    }
                    proof {
                        assert(uploader.staged() =~= value@);
                    }
                    match self.bucket.finish_upload(uploader) {
                        Ok(_) => Ok(()),
                        Err(e2) => Err(e2),
                    }
                } else {
                    Err(e)
                }
            },
        }
    }

    /// Reads the value stored under `key`, or nothing if the key is absent.
    /// The journal is never consulted: it exists for durability and
    /// recovery, not for serving reads.
    pub fn get(&self, key: &[u8]) -> (r: Result<Option<Vec<u8>>, Error>)
        requires
            self.inv(),
        ensures
            match r {
                Ok(v) => match v {
                    Some(data) => self.store().contains_key(key_name_model(key@)) && data@
                        == self.store()[key_name_model(key@)],
                    None => !self.store().contains_key(key_name_model(key@)),
                },
                Err(e) => !(e is NotFound),
            },
    {
        let name = key_name(key);
        match self.bucket.object(name.as_str()) {
            Ok(o) => Ok(Some(o.into_data())),
            Err(e) => {
                if e.is_not_found() {
                    Ok(None)
                } else {
                    Err(e)
                }
            },
        }
    }

    /// Releases journal events below `ts`, bounding journal growth. To keep
    /// every unapplied write recoverable, call it only for stamps whose
    /// events have all been applied to storage.
    pub fn release_events(&mut self, ts: S::Timestamp) -> (r: Result<(), Error>)
        requires
            old(self).inv(),
        ensures
            final(self).inv(),
            final(self).store() == old(self).store(),
            final(self).last_ts() == old(self).last_ts(),
            match r {
                Ok(_) => {
                    &&& final(self).watermark() == Some(
                        new_watermark(old(self).watermark(), ts),
                    )
                    &&& final(self).journal() == events_from(
                        old(self).journal(),
                        new_watermark(old(self).watermark(), ts),
                    )
                },
                Err(_) => {
                    &&& final(self).journal() == old(self).journal()
                    &&& final(self).watermark() == old(self).watermark()
                },
            },
    {
        self.stream.release_events(ts)
    }

    /// Replays the retained journal from `ts` on, re-applying every
    /// decodable event whose storage commit is missing, in journal order.
    /// Run it over the last released watermark when reopening a database, so
    /// that a write that crashed between its durability point and its
    /// visibility point becomes visible before new requests are served.
    pub fn recover(&mut self, ts: S::Timestamp) -> (r: Result<(), Error>)
        requires
            old(self).inv(),
        ensures
            final(self).inv(),
            final(self).journal() == old(self).journal(),
            final(self).watermark() == old(self).watermark(),
            final(self).last_ts() == old(self).last_ts(),
            r is Ok ==> final(self).store() == replay_model(
                old(self).store(),
                events_from(old(self).journal(), ts),
            ),
            r is Err ==> exists|j: int|
                0 <= j <= events_from(old(self).journal(), ts).len() && final(self).store()
                    == replay_model(
                    old(self).store(),
                    #[trigger] events_from(old(self).journal(), ts).subrange(0, j),
                ),
    {
        let ghost evs = events_from(old(self).journal(), ts);
        let events = match self.stream.read_events(ts) {
            Ok(v) => v,
            Err(e) => {
                proof {
                    assert(evs.subrange(0, 0) =~= Seq::<EventModel<S::Timestamp>>::empty());
                }
                return Err(e);
            },
        };
        let n = events.len();
        for i in 0..n
            invariant
                n == events@.len(),
                models_of(events@) == evs,
                evs == events_from(old(self).journal(), ts),
                self.bucket.inv(),
                self.stream == old(self).stream,
                self.last_ts == old(self).last_ts,
                self.bucket.objects() == replay_model(
                    old(self).bucket.objects(),
                    evs.subrange(0, i as int),
                ),
        {
            let ev = &events[i];
            let ghost pre = evs.subrange(0, i as int);
            let ghost post = evs.subrange(0, i as int + 1);
            proof {
                assert(post =~= pre.push(evs[i as int]));
                lemma_replay_push(old(self).bucket.objects(), pre, evs[i as int]);
                assert(evs[i as int] == ev@);
            }
            match decode_entry(ev.data.as_slice()) {
                None => {},
                Some((k, v)) => {
                    let name = key_name(k.as_slice());
                    match self.bucket.object(name.as_str()) {
                        Ok(_) => {},
                        Err(e) => {
                            if e.is_not_found() {
                                let mut uploader = match self.bucket.upload_object(name.as_str()) {
                                    Ok(u) => u,
                                    Err(e2) => {
                                        proof {
                                            assert(self.bucket.objects() == replay_model(
                                                old(self).bucket.objects(),
                                                evs.subrange(0, i as int),
                                            ));
                                        }
                                        return Err(e2);
                                    },
                                };
                                match uploader.write(v.as_slice()) {
                                    Ok(_) => {},
                                    Err(e2) => {
                                        proof {
                                            assert(self.bucket.objects() == replay_model(
                                                old(self).bucket.objects(),
                                                evs.subrange(0, i as int),
                                            ));
                                        }
                                        return Err(e2);
                                    },
                                }
                                proof {
                                    assert(uploader.staged() =~= v@);
                                }
                                match self.bucket.finish_upload(uploader) {
                                    Ok(_) => {},
                                    Err(e2) => {
                                        proof {
                                            assert(self.bucket.objects() == replay_model(
                                                old(self).bucket.objects(),
                                                evs.subrange(0, i as int),
                                            ));
                                        }
                                        return Err(e2);
                                    },
                                }
                            } else {
                                proof {
                                    assert(self.bucket.objects() == replay_model(
                                        old(self).bucket.objects(),
                                        evs.subrange(0, i as int),
                                    ));
                                }
                                return Err(e);
                            }
                        },
                    }
                },
            }
        }
        proof {
            assert(evs.subrange(0, n as int) =~= evs);
        }
        Ok(())
    }
}

} // verus!
