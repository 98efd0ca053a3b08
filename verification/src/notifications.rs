//! A fixed-capacity single-claim registry: entries are advertised under
//! monotonically increasing ids, scanned by interested agents, and claimed
//! by whoever removes them first.

use vstd::prelude::*;

verus! {

/// Identifies one outstanding notification; ids are never reused.
#[derive(Clone, Copy, PartialEq, Eq, Structural, Debug)]
pub struct NotificationId(pub u32);

/// Whether some entry of `s` carries the id `id`.
pub open spec fn seq_contains_id<T>(s: Seq<(u32, T)>, id: u32) -> bool {
    exists|i: int| 0 <= i < s.len() && (#[trigger] s[i]).0 == id
}

/// The position of the entry carrying `id`; meaningful only when ids are
/// unique and `id` is present.
pub open spec fn seq_index_of_id<T>(s: Seq<(u32, T)>, id: u32) -> int {
    choose|i: int| 0 <= i < s.len() && (#[trigger] s[i]).0 == id
}

/// A fixed-capacity table of notifications, keyed by ids that are handed
/// out in increasing order and never reused.
pub struct NotificationSet<T> {
    notifications: Vec<(u32, T)>,
    id_counter: u32,
    capacity: usize,
}

impl<T> NotificationSet<T> {
    /// The live entries, in table order.
    pub closed spec fn spec_entries(self) -> Seq<(u32, T)> {
        self.notifications@
    }

    pub closed spec fn spec_capacity(self) -> int {
        self.capacity as int
    }

    /// The id the next accepted notification will get.
    pub closed spec fn spec_next_id(self) -> int {
        self.id_counter as int
    }

    /// Entries fit the capacity, carry ids below the counter, and no id
    /// appears twice.
    pub closed spec fn wf(self) -> bool {
        &&& self.notifications@.len() <= self.capacity
        &&& forall|i: int|
            0 <= i < self.notifications@.len() ==> (#[trigger] self.notifications@[i]).0
                < self.id_counter
        &&& forall|i: int, j: int|
            0 <= i < j < self.notifications@.len() ==> self.notifications@[i].0
                != self.notifications@[j].0
    }

    pub open spec fn spec_contains_id(self, id: u32) -> bool {
        seq_contains_id(self.spec_entries(), id)
    }


    /// Well-formedness puts every live id below the counter and makes ids
    /// pairwise distinct.
    pub proof fn lemma_wf_ids_unique(&self)
        requires
            self.wf(),
        ensures
            forall|a: int, b: int|
                0 <= a < b < self.spec_entries().len() ==> (#[trigger] self.spec_entries()[a]).0
                    != (#[trigger] self.spec_entries()[b]).0,
    {
    }

    /// An empty registry that will hold at most `capacity` entries.
    pub fn new(capacity: usize) -> (r: NotificationSet<T>)
        ensures
            r.wf(),
            r.spec_entries() == Seq::<(u32, T)>::empty(),
            r.spec_capacity() == capacity,
            r.spec_next_id() == 0,
    {
        NotificationSet { notifications: Vec::new(), id_counter: 0, capacity }
    }

    pub fn len(&self) -> (r: usize)
        ensures
            r == self.spec_entries().len(),
    {
        self.notifications.len()
    }

    /// Posts a notification. At capacity the payload is handed back
    /// unchanged; otherwise it is stored under a fresh id, which is
    /// returned.
    pub fn notify(&mut self, data: T) -> (r: Result<NotificationId, T>)
        requires
            old(self).wf(),
            old(self).spec_next_id() < u32::MAX,
        ensures
            final(self).wf(),
            final(self).spec_capacity() == old(self).spec_capacity(),
            old(self).spec_entries().len() >= old(self).spec_capacity() ==> (r matches Err(d) && d
                == data && *final(self) == *old(self)),
            old(self).spec_entries().len() < old(self).spec_capacity() ==> {
                &&& r matches Ok(id) && id.0 as int == old(self).spec_next_id()
                    && !old(self).spec_contains_id(id.0) && final(self).spec_entries() == old(self).spec_entries().push((id.0, data))
                &&& final(self).spec_next_id() == old(self).spec_next_id() + 1
            },
    {
        if self.notifications.len() >= self.capacity {
            return Err(data);
        }
        let id: u32 = self.id_counter;
        self.notifications.push((id, data));
        self.id_counter = self.id_counter + 1;
        Ok(NotificationId(id))
    }

    /// True iff an entry with this id is still present.
    pub fn check(&self, id: NotificationId) -> (r: bool)
        requires
            self.wf(),
        ensures
            r == self.spec_contains_id(id.0),
    {
        let n: usize = self.notifications.len();
        let mut i: usize = 0;
        while i < n
            invariant
                n == self.spec_entries().len(),
                i <= n,
                self.wf(),
                forall|j: int| 0 <= j < i ==> (#[trigger] self.spec_entries()[j]).0 != id.0,
            decreases n - i,
        {
            if self.notifications[i].0 == id.0 {
                return true;
            }
            i = i + 1;
        }
        false
    }

    /// The entry at a table position, for scanning.
    pub fn entry_at(&self, index: usize) -> (r: (NotificationId, &T))
        requires
            self.wf(),
            index < self.spec_entries().len(),
        ensures
            r.0.0 == self.spec_entries()[index as int].0,
            *r.1 == self.spec_entries()[index as int].1,
    {
        let entry = &self.notifications[index];
        (NotificationId(entry.0), &entry.1)
    }

    /// A borrow of the payload stored under `id`, if present.
    pub fn get(&self, id: NotificationId) -> (r: Option<&T>)
        requires
            self.wf(),
        ensures
            !self.spec_contains_id(id.0) ==> r is None,
            self.spec_contains_id(id.0) ==> (r matches Some(t) && *t == self.spec_entries()[
                seq_index_of_id(self.spec_entries(), id.0)].1),
    {
        let n: usize = self.notifications.len();
        let mut i: usize = 0;
        while i < n
            invariant
                n == self.spec_entries().len(),
                i <= n,
                self.wf(),
                forall|j: int| 0 <= j < i ==> (#[trigger] self.spec_entries()[j]).0 != id.0,
            decreases n - i,
        {
            if self.notifications[i].0 == id.0 {
                proof {
                    lemma_unique_index_is(self.spec_entries(), id.0, i as int);
                }
                return Some(&self.notifications[i].1);
            }
            i = i + 1;
        }
        None
    }

    /// Replaces the payload stored under `id`; returns whether the id was
    /// present.
    pub fn replace(&mut self, id: NotificationId, data: T) -> (updated: bool)
        requires
            old(self).wf(),
        ensures
            final(self).wf(),
            final(self).spec_capacity() == old(self).spec_capacity(),
            final(self).spec_next_id() == old(self).spec_next_id(),
            !old(self).spec_contains_id(id.0) ==> !updated && *final(self) == *old(self),
            old(self).spec_contains_id(id.0) ==> updated && final(self).spec_entries() == old(self).spec_entries().update(
                seq_index_of_id(old(self).spec_entries(), id.0),
                (id.0, data),
            ),
    {
        let n: usize = self.notifications.len();
        let mut i: usize = 0;
        while i < n
            invariant
                n == self.spec_entries().len(),
                i <= n,
                self.wf(),
                *self == *old(self),
                forall|j: int| 0 <= j < i ==> (#[trigger] self.spec_entries()[j]).0 != id.0,
            decreases n - i,
        {
            if self.notifications[i].0 == id.0 {
                proof {
                    lemma_unique_index_is(self.spec_entries(), id.0, i as int);
                }
                self.notifications[i] = (id.0, data);
                return true;
            }
            i = i + 1;
        }
        false
    }

    /// Removes and returns the payload stored under `id`. The last entry is
    /// swapped into the freed slot, so table order is not stable across
    /// removals.
    pub fn remove(&mut self, id: NotificationId) -> (r: Option<T>)
        requires
            old(self).wf(),
        ensures
            final(self).wf(),
            final(self).spec_capacity() == old(self).spec_capacity(),
            final(self).spec_next_id() == old(self).spec_next_id(),
            !old(self).spec_contains_id(id.0) ==> r is None && *final(self) == *old(self),
            old(self).spec_contains_id(id.0) ==> {
                let i = seq_index_of_id(old(self).spec_entries(), id.0);
                &&& r matches Some(t) && t == old(self).spec_entries()[i].1
                &&& final(self).spec_entries() == old(self).spec_entries().update(
                    i,
                    old(self).spec_entries().last(),
                ).drop_last()
            },
    {
        let n: usize = self.notifications.len();
        let mut i: usize = 0;
        while i < n
            invariant
                n == self.spec_entries().len(),
                i <= n,
                self.wf(),
                *self == *old(self),
                forall|j: int| 0 <= j < i ==> (#[trigger] self.spec_entries()[j]).0 != id.0,
            decreases n - i,
        {
            if self.notifications[i].0 == id.0 {
                proof {
                    lemma_unique_index_is(self.spec_entries(), id.0, i as int);
                }
                let entry = self.notifications.swap_remove(i);
                proof {
                    lemma_swap_remove_keeps_wf(
                        old(self).spec_entries(),
                        self.spec_entries(),
                        i as int,
                        self.id_counter,
                    );
                }
                return Some(entry.1);
            }
            i = i + 1;
        }
        None
    }
}

/// When ids are unique, the position found by a scan is the position the
/// specification picks.
proof fn lemma_unique_index_is<T>(s: Seq<(u32, T)>, id: u32, i: int)
    requires
        0 <= i < s.len(),
        s[i].0 == id,
        forall|a: int, b: int| 0 <= a < b < s.len() ==> s[a].0 != s[b].0,
    ensures
        seq_contains_id(s, id),
        seq_index_of_id(s, id) == i,
{
    assert(seq_contains_id(s, id));
    let j = seq_index_of_id(s, id);
    if j < i {
        assert(s[j].0 != s[i].0);
    } else if j > i {
        assert(s[i].0 != s[j].0);
    }
}

/// Swap-removing an entry keeps ids unique and below the counter.
proof fn lemma_swap_remove_keeps_wf<T>(before: Seq<(u32, T)>, after: Seq<(u32, T)>, i: int, counter: u32)
    requires
        0 <= i < before.len(),
        after == before.update(i, before.last()).drop_last(),
        forall|a: int| 0 <= a < before.len() ==> (#[trigger] before[a]).0 < counter,
        forall|a: int, b: int| 0 <= a < b < before.len() ==> before[a].0 != before[b].0,
    ensures
        forall|a: int| 0 <= a < after.len() ==> (#[trigger] after[a]).0 < counter,
        forall|a: int, b: int| 0 <= a < b < after.len() ==> after[a].0 != after[b].0,
{
    assert forall|a: int| 0 <= a < after.len() implies (#[trigger] after[a]).0 < counter by {
        assert(after[a] == if a == i {
            before.last()
        } else {
            before[a]
        });
    }
    assert forall|a: int, b: int| 0 <= a < b < after.len() implies after[a].0 != after[b].0 by {
        let ea = if a == i {
            before.last()
        } else {
            before[a]
        };
        let eb = if b == i {
            before.last()
        } else {
            before[b]
        };
        assert(after[a] == ea && after[b] == eb);
    }
}

/// Claim round trip: a payload posted under a fresh id is read back
/// unchanged by removing that id, and the removal restores the previous
/// entries, so a later check of the id reports it gone.
pub proof fn lemma_notify_remove_round_trip<T>(entries: Seq<(u32, T)>, id: u32, data: T)
    requires
        !seq_contains_id(entries, id),
    ensures
        ({
            let posted = entries.push((id, data));
            &&& seq_contains_id(posted, id)
            &&& seq_index_of_id(posted, id) == entries.len()
            &&& posted[seq_index_of_id(posted, id)].1 == data
            &&& posted.update(seq_index_of_id(posted, id), posted.last()).drop_last() == entries
        }),
{
    let posted = entries.push((id, data));
    assert(posted[entries.len() as int].0 == id);
    assert(seq_contains_id(posted, id));
    let j = seq_index_of_id(posted, id);
    if j < entries.len() {
        assert(posted[j] == entries[j]);
        assert(seq_contains_id(entries, id));
    }
    assert(j == entries.len());
    assert(posted.update(j, posted.last()).drop_last() =~= entries);
}

} // verus!
