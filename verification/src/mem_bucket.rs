use vstd::prelude::*;

use crate::error::Error;
use crate::event::{append_bytes, clone_bytes};
use crate::name_map::NameMap;
use crate::storage::{commit_model, Bucket, Object, ObjectUploader};

verus! {

/// An in-memory object: its content, owned outright.
pub struct MemObject {
    data: Vec<u8>,
}

impl View for MemObject {
    type V = Seq<u8>;

    closed spec fn view(&self) -> Seq<u8> {
        self.data@
    }
}

impl MemObject {
    pub fn new(data: Vec<u8>) -> (r: MemObject)
        ensures
            r@ == data@,
    {
        MemObject { data }
    }

    /// An equal copy of the object.
    pub fn duplicate(&self) -> (r: MemObject)
        ensures
            r@ == self@,
    {
        MemObject { data: clone_bytes(&self.data) }
    }
}

impl Object for MemObject {
    fn into_data(self) -> (r: Vec<u8>) {
        self.data
    }
}

/// The contents of a map of in-memory objects.
pub open spec fn contents_of(m: Map<Seq<char>, MemObject>) -> Map<Seq<char>, Seq<u8>> {
    m.map_values(|o: MemObject| o@)
}

/// The reference in-memory bucket: a name-to-object map behind one
/// coarse-grained guard. Every lookup, commit and delete works on the whole
/// map at once, so each takes effect atomically; staging through an uploader
/// touches nothing here until its commit.
pub struct MemBucket {
    objects: NameMap<MemObject>,
}

impl MemBucket {
    /// An empty bucket.
    pub fn new() -> (r: MemBucket)
        ensures
            r.inv(),
            r.objects() == Map::<Seq<char>, Seq<u8>>::empty(),
    {
        let r = MemBucket { objects: NameMap::new() };
        proof {
            assert(r.objects() =~= Map::<Seq<char>, Seq<u8>>::empty());
        }
        r
    }
}

impl Default for MemBucket {
    /// An empty bucket.
    fn default() -> (r: MemBucket)
        ensures
            r.inv(),
            r.objects() == Map::<Seq<char>, Seq<u8>>::empty(),
    {
        MemBucket::new()
    }
}

impl Bucket for MemBucket {
    type Object = MemObject;

    type Uploader = MemObjectUploader;

    closed spec fn inv(&self) -> bool {
        self.objects.wf()
    }

    closed spec fn objects(&self) -> Map<Seq<char>, Seq<u8>> {
        contents_of(self.objects@)
    }

    fn object(&self, name: &str) -> (r: Result<MemObject, Error>)
        ensures
            r is Ok <==> self.objects().contains_key(name@),
            r matches Err(e) ==> e is NotFound,
    {
        proof {
            assert(self.objects().dom() =~= self.objects@.dom());
        }
        match self.objects.get(name) {
            Some(o) => Ok(o.duplicate()),
            None => Err(Error::NotFound(name.to_owned())),
        }
    }

    fn upload_object(&self, name: &str) -> (r: Result<MemObjectUploader, Error>)
        ensures
            r is Ok,
    {
        Ok(MemObjectUploader::new(name.to_owned()))
    }

    fn finish_upload(&mut self, uploader: MemObjectUploader) -> (r: Result<usize, Error>)
        ensures
            r is Ok <==> !old(self).objects().contains_key(uploader.target()),
            r matches Err(e) ==> e is AlreadyExists,
    {
        uploader.finish(self)
    }

    fn delete_object(&mut self, name: &str) -> (r: Result<(), Error>)
        ensures
            r is Ok <==> old(self).objects().contains_key(name@),
            r matches Err(e) ==> e is NotFound,
    {
        proof {
            assert(old(self).objects().dom() =~= old(self).objects@.dom());
        }
        match self.objects.remove(name) {
            Some(_) => {
                proof {
                    assert(contents_of(old(self).objects@.remove(name@)) =~= contents_of(
                        old(self).objects@,
                    ).remove(name@));
                }
                Ok(())
            },
            None => Err(Error::NotFound(name.to_owned())),
        }
    }
}

/// A staging uploader for a `MemBucket`: the target name fixed at
/// construction and the bytes staged so far. Staging is private to the
/// holder; only `finish` touches the bucket.
pub struct MemObjectUploader {
    name: String,
    data: Vec<u8>,
}

impl MemObjectUploader {
    /// A fresh uploader bound to `name`, staging nothing yet. Allocation
    /// touches no bucket, so staging can proceed without the bucket's guard.
    pub fn new(name: String) -> (r: MemObjectUploader)
        ensures
            r.target() == name@,
            r.staged() == Seq::<u8>::empty(),
    {
        let r = MemObjectUploader { name, data: Vec::new() };
        proof {
            assert(r.staged() =~= Seq::<u8>::empty());
        }
        r
    }
}

impl MemObjectUploader {
    /// Atomically commits the staged bytes as a new object under the bound
    /// name, only if no object with that name exists; a name collision is
    /// reported as `AlreadyExists` and leaves the bucket unchanged.
    pub fn finish(self, bucket: &mut MemBucket) -> (r: Result<usize, Error>)
        requires
            old(bucket).inv(),
        ensures
            final(bucket).inv(),
            r is Ok <==> !old(bucket).objects().contains_key(self.target()),
            r matches Err(e) ==> e is AlreadyExists,
            ({
                let (m, accepted) = commit_model(
                    old(bucket).objects(),
                    self.target(),
                    self.staged(),
                );
                final(bucket).objects() == m && (r is Ok <==> accepted)
            }),
            match r {
                Ok(n) => {
                    &&& final(bucket).objects() == old(bucket).objects().insert(
                        self.target(),
                        self.staged(),
                    )
                    &&& n == self.staged().len()
                },
                Err(_) => final(bucket).objects() == old(bucket).objects(),
            },
    {
        let MemObjectUploader { name, data } = self;
        let len = data.len();
        let obj = MemObject::new(data);
        proof {
            assert(old(bucket).objects().dom() =~= old(bucket).objects@.dom());
        }
        if bucket.objects.insert_if_absent(name.as_str(), obj) {
            proof {
                assert(contents_of(old(bucket).objects@.insert(name@, obj)) =~= contents_of(
                    old(bucket).objects@,
                ).insert(name@, obj@));
            }
            Ok(len)
        } else {
            Err(Error::AlreadyExists(name))
        }
    }
}

impl ObjectUploader for MemObjectUploader {
    closed spec fn target(&self) -> Seq<char> {
        self.name@
    }

    closed spec fn staged(&self) -> Seq<u8> {
        self.data@
    }

    fn write(&mut self, buf: &[u8]) -> (r: Result<(), Error>)
        ensures
            r is Ok,
    {
        append_bytes(&mut self.data, buf);
        Ok(())
    }
}

} // verus!
