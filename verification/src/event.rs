use vstd::prelude::*;

use crate::timestamp::Timestamp;

verus! {

/// A journal record: an immutable payload ordered by its timestamp.
pub struct Event<T: Timestamp> {
    pub ts: T,
    pub data: Vec<u8>,
}

/// The mathematical value of an `Event`: its timestamp and the byte
/// sequence it carries.
pub struct EventModel<T: Timestamp> {
    pub ts: T,
    pub data: Seq<u8>,
}

impl<T: Timestamp> View for Event<T> {
    type V = EventModel<T>;

    open spec fn view(&self) -> EventModel<T> {
        EventModel { ts: self.ts, data: self.data@ }
    }
}

impl<T: Timestamp> Event<T> {
    pub fn new(ts: T, data: Vec<u8>) -> (r: Event<T>)
        ensures
            r@ == (EventModel { ts, data: data@ }),
    {
        Event { ts, data }
    }

    /// An equal copy of the event.
    pub fn duplicate(&self) -> (r: Event<T>)
        ensures
            r@ == self@,
    {
        Event { ts: self.ts, data: clone_bytes(&self.data) }
    }
}

/// Appends the bytes of `src` to `dst`.
pub fn append_bytes(dst: &mut Vec<u8>, src: &[u8])
    ensures
        final(dst)@ == old(dst)@ + src@,
{
    let ghost d0 = dst@;
    dst.extend_from_slice(src);
    proof {
        assert forall|i: int| 0 <= i < dst@.len() implies dst@[i] == (d0 + src@)[i] by {
            if i >= d0.len() {
                assert(cloned::<u8>(src@[i - d0.len()], dst@[i]));
            }
        }
        assert(dst@ =~= d0 + src@);
    }
}

/// Byte-for-byte equality of two byte strings.
pub fn bytes_eq(a: &[u8], b: &[u8]) -> (r: bool)
    ensures
        r == (a@ == b@),
{
    if a.len() != b.len() {
        return false;
    }
    let n = a.len();
    for i in 0..n
        invariant
            n == a@.len() && n == b@.len(),
            forall|j: int| 0 <= j < i ==> a@[j] == b@[j],
    {
        if a[i] != b[i] {
            return false;
        }
    }
    proof {
        assert(a@ =~= b@);
    }
    true
}

/// An equal copy of a byte vector.
pub fn clone_bytes(v: &Vec<u8>) -> (r: Vec<u8>)
    ensures
        r@ == v@,
{
    let r = v.clone();
    proof {
        assert forall|i: int| 0 <= i < v@.len() implies r@[i] == v@[i] by {
            assert(cloned::<u8>(v@[i], r@[i]));
        }
        assert(r@ =~= v@);
    }
    r
}

} // verus!
