use vstd::prelude::*;

use crate::error::Error;

verus! {

/// An immutable named byte blob: once committed its content never changes.
pub trait Object: View<V = Seq<u8>> + Sized {
    /// Consumes the handle and yields the object's content.
    fn into_data(self) -> (r: Vec<u8>)
        ensures
            r@ == self@,
    ;
}

/// The create-only commit step: a commit against a taken name fails and
/// leaves the bucket unchanged; against a free name it installs the whole
/// staged content at once.
pub open spec fn commit_model(m: Map<Seq<char>, Seq<u8>>, name: Seq<char>, c: Seq<u8>) -> (
    Map<Seq<char>, Seq<u8>>,
    bool,
) {
    if m.contains_key(name) {
        (m, false)
    } else {
        (m.insert(name, c), true)
    }
}

/// A staging accumulator bound to one target name in one bucket. It grows an
/// in-memory buffer by successive writes and is consumed exactly once by the
/// bucket's commit (`finish_upload`), which installs it atomically and only
/// if the name is still free.
pub trait ObjectUploader: Sized {
    /// The object name the uploader was bound to at construction.
    spec fn target(&self) -> Seq<char>;

    /// The bytes staged so far, in write order.
    spec fn staged(&self) -> Seq<u8>;

    /// Appends to the staging buffer; no visible effect on any bucket.
    /// Staging never collides with a name, so its failures are never
    /// `AlreadyExists`.
    fn write(&mut self, buf: &[u8]) -> (r: Result<(), Error>)
        ensures
            final(self).target() == old(self).target(),
            r is Ok ==> final(self).staged() == old(self).staged() + buf@,
            r matches Err(e) ==> final(self).staged() == old(self).staged() && !(
            e is AlreadyExists),
    ;
}

/// A namespace of immutable, uniquely named byte objects.
///
/// `objects()` maps each committed name to its content; names are unique at
/// any instant, and an object is only ever observed whole, installed by one
/// atomic commit.
pub trait Bucket: Sized {
    type Object: Object;

    type Uploader: ObjectUploader;

    /// The backend's internal well-formedness, preserved by every operation.
    spec fn inv(&self) -> bool;

    /// The committed objects: name to content.
    spec fn objects(&self) -> Map<Seq<char>, Seq<u8>>;

    /// Looks an object up by name; fails with `NotFound` only if the name is
    /// absent, and on success hands back exactly the committed content. A
    /// lookup never reports a name collision.
    fn object(&self, name: &str) -> (r: Result<Self::Object, Error>)
        requires
            self.inv(),
        ensures
            match r {
                Ok(o) => self.objects().contains_key(name@) && o@ == self.objects()[name@],
                Err(e) => !(e is AlreadyExists) && (e is NotFound
                    ==> !self.objects().contains_key(name@)),
            },
    ;

    /// Allocates a staging uploader bound to `name`. The bucket itself is
    /// untouched: nothing is reserved until the uploader's commit, so a name
    /// collision is never reported here.
    fn upload_object(&self, name: &str) -> (r: Result<Self::Uploader, Error>)
        requires
            self.inv(),
        ensures
            match r {
                Ok(u) => u.target() == name@ && u.staged() == Seq::<u8>::empty(),
                Err(e) => !(e is AlreadyExists),
            },
    ;

    /// Atomically commits an uploader's staged bytes as a new object under
    /// its bound name, only if no object with that name exists; on failure
    /// the bucket is unchanged, and a name collision is reported as
    /// `AlreadyExists`.
    fn finish_upload(&mut self, uploader: Self::Uploader) -> (r: Result<usize, Error>)
        requires
            old(self).inv(),
        ensures
            final(self).inv(),
            match r {
                Ok(n) => {
                    &&& !old(self).objects().contains_key(uploader.target())
                    &&& final(self).objects() == old(self).objects().insert(
                        uploader.target(),
                        uploader.staged(),
                    )
                    &&& n == uploader.staged().len()
                },
                Err(e) => {
                    &&& final(self).objects() == old(self).objects()
                    &&& (e is AlreadyExists ==> old(self).objects().contains_key(
                        uploader.target(),
                    ))
                },
            },
    ;

    /// Removes an object by name; `NotFound` is an error, not a success.
    fn delete_object(&mut self, name: &str) -> (r: Result<(), Error>)
        requires
            old(self).inv(),
        ensures
            final(self).inv(),
            match r {
                Ok(_) => {
                    &&& old(self).objects().contains_key(name@)
                    &&& final(self).objects() == old(self).objects().remove(name@)
                },
                Err(e) => {
                    &&& final(self).objects() == old(self).objects()
                    &&& (e is NotFound ==> !old(self).objects().contains_key(name@))
                },
            },
    ;
}

/// Law: create-only commits exclude each other. Commits serialize at the
/// bucket, so two uploaders racing to commit the same free name perform the
/// two steps in one of the two orders; in either order the first commit
/// succeeds and installs its whole staged content, the second is refused,
/// and the installed content is left intact: never a partial or mixed write.
pub proof fn lemma_commit_exclusive(
    m: Map<Seq<char>, Seq<u8>>,
    name: Seq<char>,
    c1: Seq<u8>,
    c2: Seq<u8>,
)
    requires
        !m.contains_key(name),
    ensures
        ({
            let (m1, ok1) = commit_model(m, name, c1);
            let (m2, ok2) = commit_model(m1, name, c2);
            ok1 && !ok2 && m2 == m1 && m1[name] == c1 && m1.contains_key(name)
        }),
{
}

} // verus!
