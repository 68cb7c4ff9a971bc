use vstd::prelude::*;

verus! {

/// One named slot of a `NameMap`.
pub struct NameEntry<T> {
    pub name: String,
    pub value: T,
}

/// The finite map denoted by a sequence of entries. A well-formed `NameMap`
/// never holds a name twice, so each key has exactly one binding.
pub open spec fn entry_map<T>(s: Seq<NameEntry<T>>) -> Map<Seq<char>, T>
    decreases s.len(),
{
    if s.len() == 0 {
        Map::empty()
    } else {
        entry_map(s.drop_last()).insert(s.last().name@, s.last().value)
    }
}

/// Pairwise distinct entry names.
pub open spec fn distinct_names<T>(s: Seq<NameEntry<T>>) -> bool {
    forall|i: int, j: int|
        #![trigger s[i], s[j]]
        0 <= i < j < s.len() ==> s[i].name@ != s[j].name@
}

proof fn lemma_entry_map_absent<T>(s: Seq<NameEntry<T>>, n: Seq<char>)
    requires
        forall|i: int| 0 <= i < s.len() ==> (#[trigger] s[i]).name@ != n,
    ensures
        !entry_map(s).contains_key(n),
    decreases s.len(),
{
    if s.len() > 0 {
        let dl = s.drop_last();
        assert forall|i: int| 0 <= i < dl.len() implies (#[trigger] dl[i]).name@ != n by {
            assert(dl[i] == s[i]);
        }
        lemma_entry_map_absent(dl, n);
        assert(s[s.len() - 1] == s.last());
    }
}

proof fn lemma_entry_map_found<T>(s: Seq<NameEntry<T>>, i: int)
    requires
        distinct_names(s),
        0 <= i < s.len(),
    ensures
        entry_map(s).contains_key(s[i].name@),
        entry_map(s)[s[i].name@] == s[i].value,
    decreases s.len(),
{
    if i == s.len() - 1 {
        assert(s[i] == s.last());
    } else {
        let dl = s.drop_last();
        assert(distinct_names(dl)) by {
            assert forall|k: int, j: int|
                #![trigger dl[k], dl[j]]
                0 <= k < j < dl.len() implies dl[k].name@ != dl[j].name@ by {
                assert(dl[k] == s[k] && dl[j] == s[j]);
            }
        }
        assert(dl[i] == s[i]);
        lemma_entry_map_found(dl, i);
        assert(s[s.len() - 1] == s.last());
        assert(s.last().name@ != s[i].name@);
    }
}

proof fn lemma_entry_map_remove<T>(s: Seq<NameEntry<T>>, i: int)
    requires
        distinct_names(s),
        0 <= i < s.len(),
    ensures
        entry_map(s.remove(i)) == entry_map(s).remove(s[i].name@),
        distinct_names(s.remove(i)),
    decreases s.len(),
{
    let n = s[i].name@;
    assert(distinct_names(s.remove(i))) by {
        let t = s.remove(i);
        assert forall|k: int, j: int|
            #![trigger t[k], t[j]]
            0 <= k < j < t.len() implies t[k].name@ != t[j].name@ by {
            let k0 = if k < i {
                k
            } else {
                k + 1
            };
            let j0 = if j < i {
                j
            } else {
                j + 1
            };
            assert(t[k] == s[k0] && t[j] == s[j0]);
        }
    }
    if i == s.len() - 1 {
        let dl = s.drop_last();
        assert(s[i] == s.last());
        assert(s.remove(i) =~= dl);
        assert forall|k: int| 0 <= k < dl.len() implies (#[trigger] dl[k]).name@ != n by {
            assert(dl[k] == s[k]);
        }
        lemma_entry_map_absent(dl, n);
        assert(entry_map(s).remove(n) =~= entry_map(dl));
    } else {
        let dl = s.drop_last();
        assert(distinct_names(dl)) by {
            assert forall|k: int, j: int|
                #![trigger dl[k], dl[j]]
                0 <= k < j < dl.len() implies dl[k].name@ != dl[j].name@ by {
                assert(dl[k] == s[k] && dl[j] == s[j]);
            }
        }
        assert(dl[i] == s[i]);
        lemma_entry_map_remove(dl, i);
        assert(s.remove(i).drop_last() =~= dl.remove(i));
        assert(s.remove(i).last() == s.last()) by {
            assert(s.remove(i)[s.len() - 2] == s[s.len() - 1]);
        }
        assert(s[s.len() - 1] == s.last());
        assert(s.last().name@ != n);
        assert(entry_map(dl).remove(n).insert(s.last().name@, s.last().value) =~= entry_map(
            dl,
        ).insert(s.last().name@, s.last().value).remove(n));
    }
}

/// An association list from names to values: the backing store of the
/// in-memory backends. Its view is the finite map it denotes.
pub struct NameMap<T> {
    entries: Vec<NameEntry<T>>,
}

impl<T> View for NameMap<T> {
    type V = Map<Seq<char>, T>;

    closed spec fn view(&self) -> Map<Seq<char>, T> {
        entry_map(self.entries@)
    }
}

impl<T> NameMap<T> {
    /// Well-formedness: no name is bound twice.
    pub closed spec fn wf(&self) -> bool {
        distinct_names(self.entries@)
    }

    /// An empty map.
    pub fn new() -> (r: NameMap<T>)
        ensures
            r@ == Map::<Seq<char>, T>::empty(),
            r.wf(),
    {
        let r = NameMap { entries: Vec::new() };
        proof {
            assert(r@ =~= Map::<Seq<char>, T>::empty());
        }
        r
    }

    /// The index of the entry named `name`, if one exists.
    fn position(&self, name: &str) -> (r: Option<usize>)
        ensures
            match r {
                Some(i) => i < self.entries@.len() && self.entries@[i as int].name@ == name@,
                None => forall|i: int|
                    0 <= i < self.entries@.len() ==> (#[trigger] self.entries@[i]).name@ != name@,
            },
    {
        let key: String = name.to_owned();
        let n = self.entries.len();
        for i in 0..n
            invariant
                n == self.entries@.len(),
                key@ == name@,
                forall|j: int| 0 <= j < i ==> (#[trigger] self.entries@[j]).name@ != name@,
        {
            if self.entries[i].name == key {
                return Some(i);
            }
        }
        None
    }

    /// Whether `name` is bound.
    pub fn contains(&self, name: &str) -> (r: bool)
        requires
            self.wf(),
        ensures
            r == self@.contains_key(name@),
    {
        match self.position(name) {
            Some(i) => {
                proof {
                    lemma_entry_map_found(self.entries@, i as int);
                }
                true
            },
            None => {
                proof {
                    lemma_entry_map_absent(self.entries@, name@);
                }
                false
            },
        }
    }

    /// The value bound to `name`, if any.
    pub fn get(&self, name: &str) -> (r: Option<&T>)
        requires
            self.wf(),
        ensures
            match r {
                Some(v) => self@.contains_key(name@) && *v == self@[name@],
                None => !self@.contains_key(name@),
            },
    {
        match self.position(name) {
            Some(i) => {
                proof {
                    lemma_entry_map_found(self.entries@, i as int);
                }
                Some(&self.entries[i].value)
            },
            None => {
                proof {
                    lemma_entry_map_absent(self.entries@, name@);
                }
                None
            },
        }
    }

    /// Binds `name` to `value` if `name` is free; reports whether it did.
    pub fn insert_if_absent(&mut self, name: &str, value: T) -> (r: bool)
        requires
            old(self).wf(),
        ensures
            final(self).wf(),
            r == !old(self)@.contains_key(name@),
            r ==> final(self)@ == old(self)@.insert(name@, value),
            !r ==> final(self)@ == old(self)@,
    {
        match self.position(name) {
            Some(i) => {
                proof {
                    lemma_entry_map_found(self.entries@, i as int);
                }
                false
            },
            None => {
                proof {
                    lemma_entry_map_absent(self.entries@, name@);
                }
                let entry = NameEntry { name: name.to_owned(), value };
                let ghost s0 = self.entries@;
                proof {
                    assert(distinct_names(s0.push(entry))) by {
                        let t = s0.push(entry);
                        assert forall|k: int, j: int|
                            #![trigger t[k], t[j]]
                            0 <= k < j < t.len() implies t[k].name@ != t[j].name@ by {
                            if j < s0.len() {
                                assert(t[k] == s0[k] && t[j] == s0[j]);
                            } else {
                                assert(t[k] == s0[k] && t[j] == entry);
                            }
                        }
                    }
                }
                self.entries.push(entry);
                proof {
                    assert(self.entries@.drop_last() =~= s0);
                }
                true
            },
        }
    }

    /// Unbinds `name`, returning the value it was bound to, if any.
    pub fn remove(&mut self, name: &str) -> (r: Option<T>)
        requires
            old(self).wf(),
        ensures
            final(self).wf(),
            match r {
                Some(v) => old(self)@.contains_key(name@) && v == old(self)@[name@] && final(self)@
                    == old(self)@.remove(name@),
                None => !old(self)@.contains_key(name@) && final(self)@ == old(self)@,
            },
    {
        match self.position(name) {
            Some(i) => {
                proof {
                    lemma_entry_map_found(self.entries@, i as int);
                    lemma_entry_map_remove(self.entries@, i as int);
                }
                let e = self.entries.remove(i);
                Some(e.value)
            },
            None => {
                proof {
                    lemma_entry_map_absent(self.entries@, name@);
                }
                None
            },
        }
    }
}

} // verus!
