//! The key-value store that command handlers read and write.
//!
//! A `Store` models a map from byte-string keys to byte-string values; its
//! ghost view is exactly that `Map`.  The store itself is a plain sequential
//! structure: the composition root wraps it in a reader/writer lock and
//! shares it across connection tasks, so every mutation below happens under
//! the writer side of that lock and is indivisible as far as other tasks
//! can observe.

use vstd::prelude::*;

use crate::bytes::bytes_eq;

verus! {

/// The map an association list denotes; a later entry for the same key
/// shadows an earlier one (the store keeps keys unique, so shadowing never
/// actually occurs).
pub open spec fn assoc_map(entries: Seq<(Vec<u8>, Vec<u8>)>) -> Map<Seq<u8>, Seq<u8>>
    decreases entries.len(),
{
    if entries.len() == 0 {
        Map::empty()
    } else {
        assoc_map(entries.drop_last()).insert(entries.last().0@, entries.last().1@)
    }
}

/// Whether the entries carry pairwise distinct keys.
pub open spec fn unique_keys(entries: Seq<(Vec<u8>, Vec<u8>)>) -> bool {
    forall|i: int, j: int|
        0 <= i < j < entries.len() ==> (#[trigger] entries[i]).0@ != (#[trigger] entries[j]).0@
}

/// A key is in the map exactly when some entry carries it.
proof fn lemma_assoc_contains(entries: Seq<(Vec<u8>, Vec<u8>)>, k: Seq<u8>)
    ensures
        assoc_map(entries).contains_key(k) <==> exists|i: int|
            0 <= i < entries.len() && (#[trigger] entries[i]).0@ == k,
    decreases entries.len(),
{
    if entries.len() > 0 {
        lemma_assoc_contains(entries.drop_last(), k);
        let last = entries.len() - 1;
        if entries[last].0@ == k {
            assert(assoc_map(entries).contains_key(k));
        } else if assoc_map(entries).contains_key(k) {
            let i = choose|i: int|
                0 <= i < entries.drop_last().len() && (#[trigger] entries.drop_last()[i]).0@ == k;
            assert(entries[i].0@ == k);
        } else {
            assert forall|i: int| 0 <= i < entries.len() implies (#[trigger] entries[i]).0@ != k by {
                if i < last {
                    assert(entries.drop_last()[i] == entries[i]);
                }
            }
        }
    }
}

/// With unique keys, the entry carrying a key gives that key's value in
/// the map.
proof fn lemma_assoc_get(entries: Seq<(Vec<u8>, Vec<u8>)>, i: int)
    requires
        unique_keys(entries),
        0 <= i < entries.len(),
    ensures
        assoc_map(entries).contains_key(entries[i].0@),
        assoc_map(entries)[entries[i].0@] == entries[i].1@,
    decreases entries.len(),
{
    let last = entries.len() - 1;
    if i < last {
        assert(unique_keys(entries.drop_last()));
        assert(entries.drop_last()[i] == entries[i]);
        lemma_assoc_get(entries.drop_last(), i);
        assert(entries[last].0@ != entries[i].0@);
    }
}

/// Removing an entry removes exactly its key from the map.
proof fn lemma_assoc_remove(entries: Seq<(Vec<u8>, Vec<u8>)>, i: int)
    requires
        unique_keys(entries),
        0 <= i < entries.len(),
    ensures
        assoc_map(entries.remove(i)) == assoc_map(entries).remove(entries[i].0@),
    decreases entries.len(),
{
    let last = entries.len() - 1;
    if i == last {
        assert(entries.remove(i) =~= entries.drop_last());
        lemma_assoc_contains(entries.drop_last(), entries[i].0@);
        assert forall|j: int|
            0 <= j < entries.drop_last().len() implies (#[trigger] entries.drop_last()[j]).0@
            != entries[i].0@ by {
            assert(entries.drop_last()[j] == entries[j]);
        }
        assert(!assoc_map(entries.drop_last()).contains_key(entries[i].0@));
        assert(assoc_map(entries.drop_last()) =~= assoc_map(entries).remove(entries[i].0@));
    } else {
        assert(unique_keys(entries.drop_last()));
        assert(entries.drop_last()[i] == entries[i]);
        lemma_assoc_remove(entries.drop_last(), i);
        assert(entries.remove(i).drop_last() =~= entries.drop_last().remove(i));
        assert(entries.remove(i).last() == entries.last());
        assert(entries[last].0@ != entries[i].0@);
        assert(assoc_map(entries.remove(i)) == assoc_map(entries.drop_last().remove(i)).insert(
            entries.last().0@,
            entries.last().1@,
        ));
        assert(assoc_map(entries.drop_last()).remove(entries[i].0@).insert(
            entries.last().0@,
            entries.last().1@,
        ) =~= assoc_map(entries.drop_last()).insert(
            entries.last().0@,
            entries.last().1@,
        ).remove(entries[i].0@));
    }
}

/// Mapping from string key to string value; created once at process start
/// and shared, behind a lock, for the life of the process.  Entries are
/// created or overwritten by SET and removed only by commands yet to come:
/// nothing currently deletes.
pub struct Store {
    entries: Vec<(Vec<u8>, Vec<u8>)>,
}

impl View for Store {
    type V = Map<Seq<u8>, Seq<u8>>;

    closed spec fn view(&self) -> Map<Seq<u8>, Seq<u8>> {
        assoc_map(self.entries@)
    }
}

impl Store {
    /// Every key appears at most once.
    pub closed spec fn wf(&self) -> bool {
        unique_keys(self.entries@)
    }

    /// Makes an empty store.
    pub fn new() -> (r: Store)
        ensures
            r.wf(),
            r@ == Map::<Seq<u8>, Seq<u8>>::empty(),
    {
        Store { entries: Vec::new() }
    }

    /// Index of the entry carrying `key`, if any.
    fn find(&self, key: &Vec<u8>) -> (r: Option<usize>)
        ensures
            match r {
                Some(i) => i < self.entries@.len() && self.entries@[i as int].0@ == key@,
                None => forall|i: int|
                    0 <= i < self.entries@.len() ==> (#[trigger] self.entries@[i]).0@ != key@,
            },
    {
        let n = self.entries.len();
        for i in 0..n
            invariant
                n == self.entries@.len(),
                forall|j: int| 0 <= j < i ==> (#[trigger] self.entries@[j]).0@ != key@,
        {
            if bytes_eq(&self.entries[i].0, key) {
                return Some(i);
            }
        }
        None
    }

    /// Looks a key up: the stored value, or nothing if the key is absent.
    pub fn get(&self, key: &Vec<u8>) -> (r: Option<&Vec<u8>>)
        requires
            self.wf(),
        ensures
            match r {
                Some(v) => self@.contains_key(key@) && v@ == self@[key@],
                None => !self@.contains_key(key@),
            },
    {
        match self.find(key) {
            Some(i) => {
                proof {
                    lemma_assoc_get(self.entries@, i as int);
                }
                Some(&self.entries[i].1)
            },
            None => {
                proof {
                    lemma_assoc_contains(self.entries@, key@);
                }
                None
            },
        }
    }

    /// Inserts or overwrites a key, returning the value it held before, if
    /// any.
    pub fn set(&mut self, key: Vec<u8>, value: Vec<u8>) -> (prev: Option<Vec<u8>>)
        requires
            old(self).wf(),
        ensures
            final(self).wf(),
            final(self)@ == old(self)@.insert(key@, value@),
            match prev {
                Some(v) => old(self)@.contains_key(key@) && v@ == old(self)@[key@],
                None => !old(self)@.contains_key(key@),
            },
    {
        let ghost entries0 = self.entries@;
        let found = self.find(&key);
        let prev = match found {
            Some(i) => {
                proof {
                    lemma_assoc_get(entries0, i as int);
                    lemma_assoc_remove(entries0, i as int);
                }
                let (_, old_value) = self.entries.remove(i);
                Some(old_value)
            },
            None => {
                proof {
                    lemma_assoc_contains(entries0, key@);
                }
                None
            },
        };
        let ghost before_push = self.entries@;
        proof {
            match found {
                Some(i) => {
                    let iv = i as int;
                    assert forall|a: int, b: int|
                        0 <= a < b < before_push.len() implies (#[trigger] before_push[a]).0@
                        != (#[trigger] before_push[b]).0@ by {
                        assert(before_push[a] == if a < iv {
                            entries0[a]
                        } else {
                            entries0[a + 1]
                        });
                        assert(before_push[b] == if b < iv {
                            entries0[b]
                        } else {
                            entries0[b + 1]
                        });
                    }
                    assert forall|j: int|
                        0 <= j < before_push.len() implies (#[trigger] before_push[j]).0@
                        != key@ by {
                        assert(before_push[j] == if j < iv {
                            entries0[j]
                        } else {
                            entries0[j + 1]
                        });
                    }
                    assert(assoc_map(before_push) == old(self)@.remove(key@));
                },
                None => {
                    assert(unique_keys(before_push));
                    assert(forall|j: int|
                        0 <= j < before_push.len() ==> (#[trigger] before_push[j]).0@ != key@);
                },
            }
        }
        assert(unique_keys(before_push));
        assert(forall|j: int|
            0 <= j < before_push.len() ==> (#[trigger] before_push[j]).0@ != key@);
        self.entries.push((key, value));
        proof {
            assert(self.entries@.drop_last() =~= before_push);
            assert(self.entries@.last().0@ == key@);
            assert forall|a: int, b: int|
                0 <= a < b < self.entries@.len() implies (#[trigger] self.entries@[a]).0@
                != (#[trigger] self.entries@[b]).0@ by {
                assert(self.entries@[a] == before_push[a]);
                if b < self.entries@.len() - 1 {
                    assert(self.entries@[b] == before_push[b]);
                }
            }
            assert(assoc_map(self.entries@) == assoc_map(before_push).insert(key@, value@));
            if found is Some {
                assert(old(self)@.remove(key@).insert(key@, value@) =~= old(self)@.insert(
                    key@,
                    value@,
                ));
            }
        }
        prev
    }
}

/// Store contents after a run of writes of `vals`, in that order, to one
/// key `k`.
pub open spec fn apply_sets(m: Map<Seq<u8>, Seq<u8>>, k: Seq<u8>, vals: Seq<Seq<u8>>) -> Map<
    Seq<u8>,
    Seq<u8>,
>
    decreases vals.len(),
{
    if vals.len() == 0 {
        m
    } else {
        apply_sets(m.insert(k, vals[0]), k, vals.drop_first())
    }
}

/// Writers exclude each other on the store's lock, so concurrent SETs of
/// one key land whole, in some serial order.  Whatever that order turns
/// out to be, the key afterwards holds the last value of it — one of the
/// written values, never a mixture or a torn write.
pub proof fn lemma_sets_leave_last_value(m: Map<Seq<u8>, Seq<u8>>, k: Seq<u8>, vals: Seq<Seq<u8>>)
    requires
        vals.len() > 0,
    ensures
        apply_sets(m, k, vals).contains_key(k),
        apply_sets(m, k, vals)[k] == vals.last(),
        vals.contains(apply_sets(m, k, vals)[k]),
    decreases vals.len(),
{
    if vals.len() == 1 {
        assert(vals.drop_first().len() == 0);
        assert(apply_sets(m.insert(k, vals[0]), k, vals.drop_first()) == m.insert(k, vals[0]));
        assert(apply_sets(m, k, vals) == m.insert(k, vals[0]));
        assert(vals[0] == vals.last());
    } else {
        lemma_sets_leave_last_value(m.insert(k, vals[0]), k, vals.drop_first());
        assert(vals.drop_first().last() == vals.last());
    }
    assert(vals[vals.len() - 1] == vals.last());
}

} // verus!
