//! Per-user concurrency accounting.  Admission is a single check-then-increment
//! on the counter of one user: the check and the increment cannot be separated,
//! so two racing admissions can never both slip under the cap.  An entry lives
//! exactly as long as its user has at least one admitted connection.

use vstd::prelude::*;

verus! {

/// The count associated with `key`, or zero when absent.
pub open spec fn current_of(users: Seq<Vec<u8>>, counts: Seq<u32>, key: Seq<u8>) -> nat
    decreases users.len(),
{
    if users.len() == 0 || users.len() != counts.len() {
        0
    } else if users.last()@ == key {
        counts.last() as nat
    } else {
        current_of(users.drop_last(), counts.drop_last(), key)
    }
}

/// Map of user ids to their number of live admitted connections.
pub struct UserTunnels {
    users: Vec<Vec<u8>>,
    counts: Vec<u32>,
}

impl UserTunnels {
    /// One count per user, keys unique, every stored count positive.
    pub closed spec fn wf(&self) -> bool {
        &&& self.users@.len() == self.counts@.len()
        &&& forall|i: int, j: int|
            0 <= i < j < self.users@.len() ==> self.users@[i]@ != self.users@[j]@
        &&& forall|i: int| 0 <= i < self.counts@.len() ==> self.counts@[i] >= 1
    }

    /// The live count of a user; zero when the user has no entry.
    pub closed spec fn current(&self, key: Seq<u8>) -> nat {
        current_of(self.users@, self.counts@, key)
    }

    /// An empty table: every user is at zero.
    pub fn new() -> (r: UserTunnels)
        ensures
            r.wf(),
            forall|key: Seq<u8>| r.current(key) == 0,
    {
        UserTunnels { users: Vec::new(), counts: Vec::new() }
    }

    /// Finds the index of a user's entry.
    fn find(&self, user: &[u8]) -> (r: Option<usize>)
        requires
            self.wf(),
        ensures
            match r {
                Some(i) => i < self.users@.len() && self.users@[i as int]@ == user@
                    && self.current(user@) == self.counts@[i as int],
                None => self.current(user@) == 0,
            },
    {
        let n = self.users.len();
        let mut i: usize = 0;
        while i < n
            invariant
                self.wf(),
                n == self.users@.len(),
                i <= n,
                forall|j: int| 0 <= j < i ==> self.users@[j]@ != user@,
            decreases n - i,
        {
            let mut eq: bool;
            let cand = &self.users[i];
            if cand.len() != user.len() {
                eq = false;
                proof {
                    assert(cand@ != user@) by {
                        assert(cand@.len() != user@.len());
                    }
                }
            } else {
                eq = true;
                let m = user.len();
                let mut k: usize = 0;
                while k < m && eq
                    invariant
                        m == user@.len(),
                        m == cand@.len(),
                        k <= m,
                        eq ==> cand@.take(k as int) == user@.take(k as int),
                        !eq ==> cand@ != user@,
                    decreases m - k,
                {
                    if cand[k] != user[k] {
                        eq = false;
                        proof {
                            assert(cand@ != user@) by {
                                assert(cand@[k as int] != user@[k as int]);
                            }
                        }
                    } else {
                        proof {
                            assert(cand@.take(k + 1) =~= user@.take(k + 1)) by {
                                assert(forall|t: int|
                                    0 <= t < k ==> cand@.take(k as int)[t] == #[trigger] user@.take(
                                        k as int,
                                    )[t]);
                            }
                        }
                    }
                    k = k + 1;
                }
                proof {
                    if eq {
                        assert(cand@.take(m as int) =~= cand@);
                        assert(user@.take(m as int) =~= user@);
                        assert(cand@ == user@);
                    }
                }
            }
            if eq {
                proof {
                    lemma_current_at_index(self.users@, self.counts@, i as int);
                }
                return Some(i);
            }
            proof {
                assert(self.users@[i as int]@ != user@);
            }
            i = i + 1;
        }
        proof {
            lemma_current_absent(self.users@, self.counts@, user@);
        }
        None
    }

    /// Atomic admission: admits and increments exactly when the user's
    /// current count is below the cap; a cap of zero denies even the first
    /// connection.  On denial nothing changes.
    pub fn try_admit(&mut self, user: &[u8], max_tunnels: u32) -> (r: bool)
        requires
            old(self).wf(),
        ensures
            final(self).wf(),
            r == (old(self).current(user@) < max_tunnels),
            max_tunnels == 0 ==> !r,
            r ==> final(self).current(user@) == old(self).current(user@) + 1,
            r ==> final(self).current(user@) <= max_tunnels,
            !r ==> final(self).current(user@) == old(self).current(user@),
            forall|other: Seq<u8>|
                other != user@ ==> final(self).current(other) == old(self).current(other),
    {
        let found = self.find(user);
        match found {
            Some(i) => {
                let c = self.counts[i];
                if c >= max_tunnels {
                    false
                } else {
                    proof {
                        assert forall|other: Seq<u8>|
                            current_of(
                                self.users@,
                                self.counts@.update(i as int, (c + 1) as u32),
                                other,
                            ) == if other == self.users@[i as int]@ {
                                (c + 1) as nat
                            } else {
                                current_of(self.users@, self.counts@, other)
                            } by {
                            lemma_current_update(
                                self.users@,
                                self.counts@,
                                i as int,
                                (c + 1) as u32,
                                other,
                            );
                        }
                    }
                    self.counts[i] = c + 1;
                    true
                }
            },
            None => {
                if max_tunnels == 0 {
                    false
                } else {
                    let mut key: Vec<u8> = Vec::new();
                    key.extend_from_slice(user);
                    proof {
                        assert(key@ =~= user@);
                        lemma_current_absent_all(self.users@, self.counts@, user@);
                        assert forall|other: Seq<u8>|
                            current_of(self.users@.push(key), self.counts@.push(1u32), other)
                                == if other == key@ {
                                1nat
                            } else {
                                current_of(self.users@, self.counts@, other)
                            } by {
                            lemma_current_push(self.users@, self.counts@, key, 1u32, other);
                        }
                    }
                    self.users.push(key);
                    self.counts.push(1);
                    true
                }
            },
        }
    }

    /// Saturating release: decrements the user's count and removes the entry
    /// when it reaches zero; releasing an unknown user changes nothing.
    pub fn release(&mut self, user: &[u8])
        requires
            old(self).wf(),
        ensures
            final(self).wf(),
            final(self).current(user@) == if old(self).current(user@) > 0 {
                (old(self).current(user@) - 1) as nat
            } else {
                0
            },
            forall|other: Seq<u8>|
                other != user@ ==> final(self).current(other) == old(self).current(other),
    {
        let found = self.find(user);
        match found {
            Some(i) => {
                let c = self.counts[i];
                if c <= 1 {
                    proof {
                        assert forall|other: Seq<u8>|
                            current_of(
                                self.users@.remove(i as int),
                                self.counts@.remove(i as int),
                                other,
                            ) == if other == self.users@[i as int]@ {
                                0nat
                            } else {
                                current_of(self.users@, self.counts@, other)
                            } by {
                            lemma_current_remove(self.users@, self.counts@, i as int, other);
                        }
                    }
                    self.users.remove(i);
                    self.counts.remove(i);
                } else {
                    proof {
                        assert forall|other: Seq<u8>|
                            current_of(
                                self.users@,
                                self.counts@.update(i as int, (c - 1) as u32),
                                other,
                            ) == if other == self.users@[i as int]@ {
                                (c - 1) as nat
                            } else {
                                current_of(self.users@, self.counts@, other)
                            } by {
                            lemma_current_update(
                                self.users@,
                                self.counts@,
                                i as int,
                                (c - 1) as u32,
                                other,
                            );
                        }
                    }
                    self.counts[i] = c - 1;
                }
            },
            None => {},
        }
    }
}

/// With unique keys, the count at an entry's index is that key's count.
proof fn lemma_current_at_index(users: Seq<Vec<u8>>, counts: Seq<u32>, i: int)
    requires
        users.len() == counts.len(),
        0 <= i < users.len(),
        forall|a: int, b: int| 0 <= a < b < users.len() ==> users[a]@ != users[b]@,
    ensures
        current_of(users, counts, users[i]@) == counts[i],
    decreases users.len(),
{
    if i == users.len() - 1 {
    } else {
        assert(users.last()@ != users[i]@);
        assert(users.drop_last()[i]@ == users[i]@);
        lemma_current_at_index(users.drop_last(), counts.drop_last(), i);
    }
}

/// A key at no index has count zero.
proof fn lemma_current_absent(users: Seq<Vec<u8>>, counts: Seq<u32>, key: Seq<u8>)
    requires
        users.len() == counts.len(),
        forall|j: int| 0 <= j < users.len() ==> users[j]@ != key,
    ensures
        current_of(users, counts, key) == 0,
    decreases users.len(),
{
    if users.len() > 0 {
        lemma_current_absent(users.drop_last(), counts.drop_last(), key);
    }
}

/// A key with count zero is at no index, when all stored counts are positive.
proof fn lemma_current_absent_all(users: Seq<Vec<u8>>, counts: Seq<u32>, key: Seq<u8>)
    requires
        users.len() == counts.len(),
        forall|i: int| 0 <= i < counts.len() ==> counts[i] >= 1,
        current_of(users, counts, key) == 0,
    ensures
        forall|j: int| 0 <= j < users.len() ==> users[j]@ != key,
    decreases users.len(),
{
    if users.len() > 0 {
        assert(users.last()@ != key);
        lemma_current_absent_all(users.drop_last(), counts.drop_last(), key);
        assert forall|j: int| 0 <= j < users.len() implies users[j]@ != key by {
            if j < users.len() - 1 {
                assert(users.drop_last()[j]@ != key);
            }
        }
    }
}

/// Updating the count at one index changes exactly that key's count.
proof fn lemma_current_update(users: Seq<Vec<u8>>, counts: Seq<u32>, i: int, c: u32, other: Seq<u8>)
    requires
        users.len() == counts.len(),
        0 <= i < users.len(),
        forall|a: int, b: int| 0 <= a < b < users.len() ==> users[a]@ != users[b]@,
    ensures
        current_of(users, counts.update(i, c), other) == if other == users[i]@ {
            c as nat
        } else {
            current_of(users, counts, other)
        },
    decreases users.len(),
{
    let counts2 = counts.update(i, c);
    if i == users.len() - 1 {
        assert(counts2.last() == c);
        assert(counts2.drop_last() =~= counts.drop_last());
    } else {
        assert(counts2.last() == counts.last());
        assert(counts2.drop_last() =~= counts.drop_last().update(i, c));
        assert(users.drop_last()[i]@ == users[i]@);
        lemma_current_update(users.drop_last(), counts.drop_last(), i, c, other);
        assert(users.last()@ != users[i]@);
    }
}

/// Appending a fresh entry sets that key's count and keeps every other.
proof fn lemma_current_push(
    users: Seq<Vec<u8>>,
    counts: Seq<u32>,
    k: Vec<u8>,
    c: u32,
    other: Seq<u8>,
)
    requires
        users.len() == counts.len(),
    ensures
        current_of(users.push(k), counts.push(c), other) == if other == k@ {
            c as nat
        } else {
            current_of(users, counts, other)
        },
{
    assert(users.push(k).last()@ == k@);
    assert(users.push(k).drop_last() =~= users);
    assert(counts.push(c).drop_last() =~= counts);
}

/// Removing an entry zeroes exactly that key's count.
proof fn lemma_current_remove(users: Seq<Vec<u8>>, counts: Seq<u32>, i: int, other: Seq<u8>)
    requires
        users.len() == counts.len(),
        0 <= i < users.len(),
        forall|a: int, b: int| 0 <= a < b < users.len() ==> users[a]@ != users[b]@,
    ensures
        current_of(users.remove(i), counts.remove(i), other) == if other == users[i]@ {
            0
        } else {
            current_of(users, counts, other)
        },
    decreases users.len(),
{
    let users2 = users.remove(i);
    let counts2 = counts.remove(i);
    if i == users.len() - 1 {
        assert(users2 =~= users.drop_last());
        assert(counts2 =~= counts.drop_last());
        if other == users[i]@ {
            assert forall|j: int| 0 <= j < users2.len() implies users2[j]@ != users[i]@ by {
                assert(users2[j]@ == users[j]@);
            }
            lemma_current_absent_unique(users2, counts2, users[i]@);
        }
    } else {
        assert(users2.last() == users.last());
        assert(counts2.last() == counts.last());
        assert(users2.drop_last() =~= users.drop_last().remove(i));
        assert(counts2.drop_last() =~= counts.drop_last().remove(i));
        assert(users.drop_last()[i]@ == users[i]@);
        lemma_current_remove(users.drop_last(), counts.drop_last(), i, other);
        assert(users.last()@ != users[i]@);
    }
}

/// A key at no index has count zero (restated for removal proofs).
proof fn lemma_current_absent_unique(users: Seq<Vec<u8>>, counts: Seq<u32>, key: Seq<u8>)
    requires
        users.len() == counts.len(),
        forall|j: int| 0 <= j < users.len() ==> users[j]@ != key,
    ensures
        current_of(users, counts, key) == 0,
    decreases users.len(),
{
    if users.len() > 0 {
        assert forall|j: int|
            0 <= j < users.drop_last().len() implies users.drop_last()[j]@ != key by {
            assert(users.drop_last()[j]@ == users[j]@);
        }
        lemma_current_absent_unique(users.drop_last(), counts.drop_last(), key);
    }
}

} // verus!
