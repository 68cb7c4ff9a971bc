use vstd::prelude::*;

use crate::error::Error;
use crate::mem_bucket::{MemBucket, MemObject, MemObjectUploader};
use crate::name_map::NameMap;
use crate::storage::{Bucket, ObjectUploader};

verus! {

/// The in-memory storage backend: a namespace of buckets, each a namespace
/// of objects. Object operations address a bucket by name, so the whole
/// store lives behind one owner, as the reference concurrency discipline
/// serializes it.
pub struct MemStorage {
    buckets: NameMap<MemBucket>,
}

impl MemStorage {
    /// Well-formedness of the namespace and of every bucket in it.
    pub closed spec fn inv(&self) -> bool {
        &&& self.buckets.wf()
        &&& forall|n: Seq<char>|
            self.buckets@.contains_key(n) ==> (#[trigger] self.buckets@[n]).inv()
    }

    /// The stored buckets: bucket name to that bucket's objects.
    pub closed spec fn buckets(&self) -> Map<Seq<char>, Map<Seq<char>, Seq<u8>>> {
        self.buckets@.map_values(|b: MemBucket| b.objects())
    }

    /// An empty storage.
    pub fn new() -> (r: MemStorage)
        ensures
            r.inv(),
            r.buckets() == Map::<Seq<char>, Map<Seq<char>, Seq<u8>>>::empty(),
    {
        let r = MemStorage { buckets: NameMap::new() };
        proof {
            assert(r.buckets() =~= Map::<Seq<char>, Map<Seq<char>, Seq<u8>>>::empty());
        }
        r
    }

    /// Creates a new, empty bucket; a duplicate creation is reported as an
    /// error, never silently reused.
    pub fn create_bucket(&mut self, name: &str) -> (r: Result<(), Error>)
        requires
            old(self).inv(),
        ensures
            final(self).inv(),
            r is Ok <==> !old(self).buckets().contains_key(name@),
            r matches Err(e) ==> e is AlreadyExists,
            r is Ok ==> final(self).buckets() == old(self).buckets().insert(
                name@,
                Map::<Seq<char>, Seq<u8>>::empty(),
            ),
            r is Err ==> final(self).buckets() == old(self).buckets(),
    {
        proof {
            assert(old(self).buckets().dom() =~= old(self).buckets@.dom());
        }
        let b = MemBucket::new();
        if self.buckets.insert_if_absent(name, b) {
            proof {
                assert(self.buckets() =~= old(self).buckets().insert(
                    name@,
                    Map::<Seq<char>, Seq<u8>>::empty(),
                ));
                assert forall|n: Seq<char>| self.buckets@.contains_key(n) implies (
                #[trigger] self.buckets@[n]).inv() by {
                    if n != name@ {
                        assert(old(self).buckets@.contains_key(n));
                    }
                }
            }
            Ok(())
        } else {
            Err(Error::AlreadyExists(name.to_owned()))
        }
    }

    /// Deletes a bucket by name; deleting a missing bucket is `NotFound`.
    pub fn delete_bucket(&mut self, name: &str) -> (r: Result<(), Error>)
        requires
            old(self).inv(),
        ensures
            final(self).inv(),
            r is Ok <==> old(self).buckets().contains_key(name@),
            r matches Err(e) ==> e is NotFound,
            r is Ok ==> final(self).buckets() == old(self).buckets().remove(name@),
            r is Err ==> final(self).buckets() == old(self).buckets(),
    {
        proof {
            assert(old(self).buckets().dom() =~= old(self).buckets@.dom());
        }
        match self.buckets.remove(name) {
            Some(_) => {
                proof {
                    assert(self.buckets() =~= old(self).buckets().remove(name@));
                    assert forall|n: Seq<char>| self.buckets@.contains_key(n) implies (
                    #[trigger] self.buckets@[n]).inv() by {
                        assert(old(self).buckets@.contains_key(n));
                    }
                }
                Ok(())
            },
            None => Err(Error::NotFound(name.to_owned())),
        }
    }

    /// Opens a read handle to an existing bucket; fails if it is absent.
    pub fn bucket(&self, name: &str) -> (r: Result<&MemBucket, Error>)
        requires
            self.inv(),
        ensures
            match r {
                Ok(b) => {
                    &&& self.buckets().contains_key(name@)
                    &&& b.objects() == self.buckets()[name@]
                    &&& b.inv()
                },
                Err(e) => e is NotFound && !self.buckets().contains_key(name@),
            },
    {
        proof {
            assert(self.buckets().dom() =~= self.buckets@.dom());
        }
        match self.buckets.get(name) {
            Some(b) => Ok(b),
            None => Err(Error::NotFound(name.to_owned())),
        }
    }

    /// Looks an object up by bucket and object name.
    pub fn object(&self, bucket: &str, name: &str) -> (r: Result<MemObject, Error>)
        requires
            self.inv(),
        ensures
            match r {
                Ok(o) => {
                    &&& self.buckets().contains_key(bucket@)
                    &&& self.buckets()[bucket@].contains_key(name@)
                    &&& o@ == self.buckets()[bucket@][name@]
                },
                Err(e) => e is NotFound && !(self.buckets().contains_key(bucket@)
                    && self.buckets()[bucket@].contains_key(name@)),
            },
    {
        match self.bucket(bucket) {
            Ok(b) => b.object(name),
            Err(e) => Err(e),
        }
    }

    /// Allocates an uploader staging for `name` in `bucket`; the store is
    /// untouched until the uploader's commit.
    pub fn upload_object(&self, bucket: &str, name: &str) -> (r: Result<MemObjectUploader, Error>)
        requires
            self.inv(),
        ensures
            r is Ok <==> self.buckets().contains_key(bucket@),
            r matches Ok(u) ==> u.target() == name@ && u.staged() == Seq::<u8>::empty(),
            r matches Err(e) ==> e is NotFound,
    {
        match self.bucket(bucket) {
            Ok(b) => b.upload_object(name),
            Err(e) => Err(e),
        }
    }

    /// Deletes an object by bucket and object name; a missing bucket or
    /// object is `NotFound`.
    pub fn delete_object(&mut self, bucket: &str, name: &str) -> (r: Result<(), Error>)
        requires
            old(self).inv(),
        ensures
            final(self).inv(),
            r is Ok <==> (old(self).buckets().contains_key(bucket@) && old(self).buckets()[
                bucket@
            ].contains_key(name@)),
            r matches Err(e) ==> e is NotFound,
            r is Ok ==> final(self).buckets() == old(self).buckets().insert(
                bucket@,
                old(self).buckets()[bucket@].remove(name@),
            ),
            r is Err ==> final(self).buckets() == old(self).buckets(),
    {
        proof {
            assert(old(self).buckets().dom() =~= old(self).buckets@.dom());
        }
        match self.buckets.remove(bucket) {
            None => Err(Error::NotFound(bucket.to_owned())),
            Some(mut b) => {
                let res = b.delete_object(name);
                let reinserted = self.buckets.insert_if_absent(bucket, b);
                proof {
                    assert(reinserted);
                    assert(self.buckets@ =~= old(self).buckets@.insert(bucket@, b));
                    assert forall|n: Seq<char>| self.buckets@.contains_key(n) implies (
                    #[trigger] self.buckets@[n]).inv() by {
                        if n != bucket@ {
                            assert(old(self).buckets@.contains_key(n));
                        }
                    }
                    if res is Ok {
                        assert(self.buckets() =~= old(self).buckets().insert(
                            bucket@,
                            old(self).buckets()[bucket@].remove(name@),
                        ));
                    } else {
                        assert(self.buckets() =~= old(self).buckets());
                    }
                }
                res
            },
        }
    }

    /// Commits an uploader's staged bytes into `bucket`, create-only: the
    /// commit fails with `AlreadyExists` if the target name is taken, and
    /// with `NotFound` if the bucket is missing.
    pub fn finish_upload(&mut self, bucket: &str, uploader: MemObjectUploader) -> (r: Result<
        usize,
        Error,
    >)
        requires
            old(self).inv(),
        ensures
            final(self).inv(),
            r is Ok <==> (old(self).buckets().contains_key(bucket@) && !old(self).buckets()[
                bucket@
            ].contains_key(uploader.target())),
            r matches Err(e) ==> e is NotFound || e is AlreadyExists,
            r matches Err(e) && e is NotFound ==> !old(self).buckets().contains_key(bucket@),
            match r {
                Ok(n) => {
                    &&& final(self).buckets() == old(self).buckets().insert(
                        bucket@,
                        old(self).buckets()[bucket@].insert(uploader.target(), uploader.staged()),
                    )
                    &&& n == uploader.staged().len()
                },
                Err(_) => final(self).buckets() == old(self).buckets(),
            },
    {
        proof {
            assert(old(self).buckets().dom() =~= old(self).buckets@.dom());
        }
        match self.buckets.remove(bucket) {
            None => Err(Error::NotFound(bucket.to_owned())),
            Some(mut b) => {
                let res = uploader.finish(&mut b);
                let reinserted = self.buckets.insert_if_absent(bucket, b);
                proof {
                    assert(reinserted);
                    assert(self.buckets@ =~= old(self).buckets@.insert(bucket@, b));
                    assert forall|n: Seq<char>| self.buckets@.contains_key(n) implies (
                    #[trigger] self.buckets@[n]).inv() by {
                        if n != bucket@ {
                            assert(old(self).buckets@.contains_key(n));
                        }
                    }
                    if res is Ok {
                        assert(self.buckets() =~= old(self).buckets().insert(
                            bucket@,
                            old(self).buckets()[bucket@].insert(
                                uploader.target(),
                                uploader.staged(),
                            ),
                        ));
                    } else {
                        assert(self.buckets() =~= old(self).buckets());
                    }
                }
                res
            },
        }
    }
}

} // verus!
