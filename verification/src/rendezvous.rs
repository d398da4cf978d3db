//! The rendezvous table pairing inbound public connections with
//! client-initiated accept streams.  A parked stream is stored under a fresh
//! identifier; a claim removes it, so each identifier is consumed at most
//! once: after one claim the same identifier yields nothing.
//!
//! The streams themselves live with the runtime; the table maps each
//! identifier to an opaque handle chosen by the caller.

use vstd::prelude::*;
use crate::ids::UuidBytes;

verus! {

/// The handle stored under `key`, if any.
pub open spec fn lookup_of(ids: Seq<UuidBytes>, handles: Seq<u64>, key: Seq<u8>) -> Option<u64>
    decreases ids.len(),
{
    if ids.len() == 0 || ids.len() != handles.len() {
        None
    } else if ids.last()@ == key {
        Some(handles.last())
    } else {
        lookup_of(ids.drop_last(), handles.drop_last(), key)
    }
}

/// Parked public streams awaiting a matching accept, by identifier.
pub struct Rendezvous {
    ids: Vec<UuidBytes>,
    handles: Vec<u64>,
}

impl Rendezvous {
    /// One handle per identifier, identifiers distinct and well-formed.
    pub closed spec fn wf(&self) -> bool {
        &&& self.ids@.len() == self.handles@.len()
        &&& forall|i: int, j: int| 0 <= i < j < self.ids@.len() ==> self.ids@[i]@ != self.ids@[j]@
        &&& forall|i: int| 0 <= i < self.ids@.len() ==> (#[trigger] self.ids@[i]).wf()
    }

    /// The handle parked under an identifier, if any.
    pub closed spec fn lookup(&self, key: Seq<u8>) -> Option<u64> {
        lookup_of(self.ids@, self.handles@, key)
    }

    /// How many streams are parked.
    pub closed spec fn size(&self) -> nat {
        self.ids@.len()
    }

    /// An empty table.
    pub fn new() -> (r: Rendezvous)
        ensures
            r.wf(),
            forall|key: Seq<u8>| r.lookup(key) is None,
            r.size() == 0,
    {
        Rendezvous { ids: Vec::new(), handles: Vec::new() }
    }

    /// The number of parked streams.
    pub fn len(&self) -> (r: usize)
        ensures
            r == self.size(),
    {
        self.ids.len()
    }

    /// Finds the index of an identifier.
    fn find(&self, id: &UuidBytes) -> (r: Option<usize>)
        requires
            self.wf(),
        ensures
            match r {
                Some(i) => i < self.ids@.len() && self.ids@[i as int]@ == id@ && self.lookup(id@)
                    == Some(self.handles@[i as int]),
                None => self.lookup(id@) is None,
            },
    {
        let n = self.ids.len();
        let mut i: usize = 0;
        while i < n
            invariant
                self.wf(),
                n == self.ids@.len(),
                i <= n,
                forall|j: int| 0 <= j < i ==> self.ids@[j]@ != id@,
            decreases n - i,
        {
            if self.ids[i].same(id) {
                proof {
                    lemma_lookup_at_index(self.ids@, self.handles@, i as int);
                }
                return Some(i);
            }
            i = i + 1;
        }
        proof {
            lemma_lookup_absent(self.ids@, self.handles@, id@);
        }
        None
    }

    /// Parks a stream's handle under an identifier; an identifier already
    /// present has its handle replaced.
    pub fn park(&mut self, id: UuidBytes, handle: u64)
        requires
            old(self).wf(),
            id.wf(),
        ensures
            final(self).wf(),
            final(self).lookup(id@) == Some(handle),
            forall|other: Seq<u8>|
                other != id@ ==> final(self).lookup(other) == old(self).lookup(other),
    {
        let found = self.find(&id);
        match found {
            Some(i) => {
                proof {
                    assert forall|other: Seq<u8>|
                        lookup_of(
                            self.ids@,
                            self.handles@.update(i as int, handle),
                            other,
                        ) == if other == self.ids@[i as int]@ {
                            Some(handle)
                        } else {
                            lookup_of(self.ids@, self.handles@, other)
                        } by {
                        lemma_lookup_update(self.ids@, self.handles@, i as int, handle, other);
                    }
                }
                self.handles[i] = handle;
            },
            None => {
                proof {
                    lemma_lookup_absent_all(self.ids@, self.handles@, id@);
                    assert forall|other: Seq<u8>|
                        lookup_of(self.ids@.push(id), self.handles@.push(handle), other) == if other
                            == id@ {
                            Some(handle)
                        } else {
                            lookup_of(self.ids@, self.handles@, other)
                        } by {
                        lemma_lookup_push(self.ids@, self.handles@, id, handle, other);
                    }
                }
                self.ids.push(id);
                self.handles.push(handle);
            },
        }
    }

    /// Takes the stream parked under an identifier, if it is still there.
    /// Afterwards the identifier holds nothing, so it can be consumed at
    /// most once; the accept path and the stale-stream janitor both remove
    /// through this operation, whichever runs first.
    pub fn claim(&mut self, id: &UuidBytes) -> (r: Option<u64>)
        requires
            old(self).wf(),
        ensures
            final(self).wf(),
            r == old(self).lookup(id@),
            final(self).lookup(id@) is None,
            forall|other: Seq<u8>|
                other != id@ ==> final(self).lookup(other) == old(self).lookup(other),
            r is Some ==> final(self).size() == old(self).size() - 1,
            r is None ==> final(self).size() == old(self).size(),
    {
        let found = self.find(id);
        match found {
            Some(i) => {
                let handle = self.handles[i];
                proof {
                    assert forall|other: Seq<u8>|
                        lookup_of(
                            self.ids@.remove(i as int),
                            self.handles@.remove(i as int),
                            other,
                        ) == if other == self.ids@[i as int]@ {
                            None::<u64>
                        } else {
                            lookup_of(self.ids@, self.handles@, other)
                        } by {
                        lemma_lookup_remove(self.ids@, self.handles@, i as int, other);
                    }
                }
                self.ids.remove(i);
                self.handles.remove(i);
                Some(handle)
            },
            None => None,
        }
    }
}

/// With distinct identifiers, the handle at an entry's index is that
/// identifier's handle.
proof fn lemma_lookup_at_index(ids: Seq<UuidBytes>, handles: Seq<u64>, i: int)
    requires
        ids.len() == handles.len(),
        0 <= i < ids.len(),
        forall|a: int, b: int| 0 <= a < b < ids.len() ==> ids[a]@ != ids[b]@,
    ensures
        lookup_of(ids, handles, ids[i]@) == Some(handles[i]),
    decreases ids.len(),
{
    if i < ids.len() - 1 {
        assert(ids.last()@ != ids[i]@);
        assert(ids.drop_last()[i]@ == ids[i]@);
        lemma_lookup_at_index(ids.drop_last(), handles.drop_last(), i);
    }
}

/// An identifier at no index holds nothing.
proof fn lemma_lookup_absent(ids: Seq<UuidBytes>, handles: Seq<u64>, key: Seq<u8>)
    requires
        ids.len() == handles.len(),
        forall|j: int| 0 <= j < ids.len() ==> ids[j]@ != key,
    ensures
        lookup_of(ids, handles, key) is None,
    decreases ids.len(),
{
    if ids.len() > 0 {
        assert forall|j: int| 0 <= j < ids.drop_last().len() implies ids.drop_last()[j]@ != key by {
            assert(ids.drop_last()[j]@ == ids[j]@);
        }
        lemma_lookup_absent(ids.drop_last(), handles.drop_last(), key);
    }
}

/// An identifier holding nothing is at no index.
proof fn lemma_lookup_absent_all(ids: Seq<UuidBytes>, handles: Seq<u64>, key: Seq<u8>)
    requires
        ids.len() == handles.len(),
        lookup_of(ids, handles, key) is None,
    ensures
        forall|j: int| 0 <= j < ids.len() ==> ids[j]@ != key,
    decreases ids.len(),
{
    if ids.len() > 0 {
        assert(ids.last()@ != key);
        lemma_lookup_absent_all(ids.drop_last(), handles.drop_last(), key);
        assert forall|j: int| 0 <= j < ids.len() implies ids[j]@ != key by {
            if j < ids.len() - 1 {
                assert(ids.drop_last()[j]@ != key);
            }
        }
    }
}

/// Replacing the handle at one index changes exactly that identifier.
proof fn lemma_lookup_update(
    ids: Seq<UuidBytes>,
    handles: Seq<u64>,
    i: int,
    h: u64,
    other: Seq<u8>,
)
    requires
        ids.len() == handles.len(),
        0 <= i < ids.len(),
        forall|a: int, b: int| 0 <= a < b < ids.len() ==> ids[a]@ != ids[b]@,
    ensures
        lookup_of(ids, handles.update(i, h), other) == if other == ids[i]@ {
            Some(h)
        } else {
            lookup_of(ids, handles, other)
        },
    decreases ids.len(),
{
    let handles2 = handles.update(i, h);
    if i == ids.len() - 1 {
        assert(handles2.last() == h);
        assert(handles2.drop_last() =~= handles.drop_last());
    } else {
        assert(handles2.last() == handles.last());
        assert(handles2.drop_last() =~= handles.drop_last().update(i, h));
        assert(ids.drop_last()[i]@ == ids[i]@);
        lemma_lookup_update(ids.drop_last(), handles.drop_last(), i, h, other);
        assert(ids.last()@ != ids[i]@);
    }
}

/// Appending a fresh entry binds that identifier and keeps every other.
proof fn lemma_lookup_push(
    ids: Seq<UuidBytes>,
    handles: Seq<u64>,
    id: UuidBytes,
    h: u64,
    other: Seq<u8>,
)
    requires
        ids.len() == handles.len(),
    ensures
        lookup_of(ids.push(id), handles.push(h), other) == if other == id@ {
            Some(h)
        } else {
            lookup_of(ids, handles, other)
        },
{
    assert(ids.push(id).last()@ == id@);
    assert(ids.push(id).drop_last() =~= ids);
    assert(handles.push(h).drop_last() =~= handles);
}

/// Removing an entry unbinds exactly that identifier.
proof fn lemma_lookup_remove(ids: Seq<UuidBytes>, handles: Seq<u64>, i: int, other: Seq<u8>)
    requires
        ids.len() == handles.len(),
        0 <= i < ids.len(),
        forall|a: int, b: int| 0 <= a < b < ids.len() ==> ids[a]@ != ids[b]@,
    ensures
        lookup_of(ids.remove(i), handles.remove(i), other) == if other == ids[i]@ {
            None::<u64>
        } else {
            lookup_of(ids, handles, other)
        },
    decreases ids.len(),
{
    let ids2 = ids.remove(i);
    let handles2 = handles.remove(i);
    if i == ids.len() - 1 {
        assert(ids2 =~= ids.drop_last());
        assert(handles2 =~= handles.drop_last());
        if other == ids[i]@ {
            assert forall|j: int| 0 <= j < ids2.len() implies ids2[j]@ != ids[i]@ by {
                assert(ids2[j]@ == ids[j]@);
            }
            lemma_lookup_absent(ids2, handles2, ids[i]@);
        }
    } else {
        assert(ids2.last() == ids.last());
        assert(handles2.last() == handles.last());
        assert(ids2.drop_last() =~= ids.drop_last().remove(i));
        assert(handles2.drop_last() =~= handles.drop_last().remove(i));
        assert(ids.drop_last()[i]@ == ids[i]@);
        lemma_lookup_remove(ids.drop_last(), handles.drop_last(), i, other);
        assert(ids.last()@ != ids[i]@);
    }
}

} // verus!
