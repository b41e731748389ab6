use vstd::prelude::*;

use crate::ranking::{distinct_users, rank, ranked, Entry, MemberInfo};
use crate::sources::{current_micros, fresh_id};

verus! {

/// The fixed lifetime of a queue, in microseconds: 730 days.
pub const QUEUE_LIFETIME_MICROS: i64 = 63_072_000_000_000;

/// Why a queue operation was refused. A refused operation changes nothing.
#[derive(Clone, Copy, Debug, PartialEq, Eq, Structural)]
pub enum QueueError {
    QueueNotFound,
    AlreadyMember,
    NotMember,
    Forbidden,
    Unavailable,
}

/// A queue's own record.
#[derive(Debug)]
pub struct Queue {
    pub id: u128,
    pub name: String,
    pub description: String,
    pub organizer_id: Option<u128>,
    /// Creation time, in microseconds since the Unix epoch.
    pub created_at: i64,
    /// End of the queue's fixed lifetime, in microseconds since the Unix epoch.
    pub expires_at: i64,
}

impl Queue {
    pub fn duplicate(&self) -> (r: Queue)
        ensures
            r == *self,
    {
        Queue {
            id: self.id,
            name: self.name.clone(),
            description: self.description.clone(),
            organizer_id: self.organizer_id,
            created_at: self.created_at,
            expires_at: self.expires_at,
        }
    }
}

/// What the store holds for one queue: its record and its entries.
pub struct QueueState {
    pub queue: Queue,
    pub entries: Seq<Entry>,
}

/// `uid` holds an entry in queue `qid`.
pub open spec fn is_member(m: Map<u128, QueueState>, qid: u128, uid: u128) -> bool {
    &&& m.contains_key(qid)
    &&& exists|j: int| 0 <= j < m[qid].entries.len() && #[trigger] m[qid].entries[j].user_id == uid
}

/// The record of a queue created by `identity` at `now` under the id `id`.
pub open spec fn new_queue(
    identity: u128,
    name: String,
    description: String,
    claim_organizer: bool,
    id: u128,
    now: i64,
) -> Queue {
    Queue {
        id,
        name,
        description,
        organizer_id: if claim_organizer { Some(identity) } else { None },
        created_at: now,
        expires_at: (now + QUEUE_LIFETIME_MICROS) as i64,
    }
}

/// The entry of a user who joins at `now` without priority or hold.
pub open spec fn plain_entry(identity: u128, now: i64) -> Entry {
    Entry { user_id: identity, has_priority: false, is_held: false, joined_at: now }
}

/// Creating a queue under `id` at `now`: refused as unavailable when the id is
/// taken or the lifetime would run past the clock's range; otherwise the queue
/// appears with its creator as its only member.
pub open spec fn create_outcome(
    before: Map<u128, QueueState>,
    after: Map<u128, QueueState>,
    identity: u128,
    name: String,
    description: String,
    claim_organizer: bool,
    id: u128,
    now: i64,
    r: Result<u128, QueueError>,
) -> bool {
    if before.contains_key(id) || now + QUEUE_LIFETIME_MICROS > i64::MAX {
        r == Err::<u128, QueueError>(QueueError::Unavailable) && after == before
    } else {
        r == Ok::<u128, QueueError>(id) && after == before.insert(
            id,
            QueueState {
                queue: new_queue(identity, name, description, claim_organizer, id, now),
                entries: seq![plain_entry(identity, now)],
            },
        )
    }
}

/// Adding `entry` to queue `qid`.
pub open spec fn join_outcome(
    before: Map<u128, QueueState>,
    after: Map<u128, QueueState>,
    qid: u128,
    entry: Entry,
    r: Result<(), QueueError>,
) -> bool {
    if !before.contains_key(qid) {
        r == Err::<(), QueueError>(QueueError::QueueNotFound) && after == before
    } else if is_member(before, qid, entry.user_id) {
        r == Err::<(), QueueError>(QueueError::AlreadyMember) && after == before
    } else {
        r == Ok::<(), QueueError>(()) && after == before.insert(
            qid,
            QueueState { queue: before[qid].queue, entries: before[qid].entries.push(entry) },
        )
    }
}

/// Removing the entry of `identity` from queue `qid`.
pub open spec fn leave_outcome(
    before: Map<u128, QueueState>,
    after: Map<u128, QueueState>,
    identity: u128,
    qid: u128,
    r: Result<(), QueueError>,
) -> bool {
    if !is_member(before, qid, identity) {
        r == Err::<(), QueueError>(QueueError::NotMember) && after == before
    } else {
        r == Ok::<(), QueueError>(()) && exists|j: int|
            0 <= j < before[qid].entries.len() && #[trigger] before[qid].entries[j].user_id
                == identity && after == before.insert(
                qid,
                QueueState { queue: before[qid].queue, entries: before[qid].entries.remove(j) },
            )
    }
}

/// Deleting queue `qid` on behalf of `identity`: only its organizer may, and
/// the queue goes together with all its entries.
pub open spec fn delete_outcome(
    before: Map<u128, QueueState>,
    after: Map<u128, QueueState>,
    identity: u128,
    qid: u128,
    r: Result<(), QueueError>,
) -> bool {
    if !before.contains_key(qid) {
        r == Err::<(), QueueError>(QueueError::QueueNotFound) && after == before
    } else if before[qid].queue.organizer_id != Some(identity) {
        r == Err::<(), QueueError>(QueueError::Forbidden) && after == before
    } else {
        r == Ok::<(), QueueError>(()) && after == before.remove(qid)
    }
}

/// Where `uid` stands among `entries`, if it holds an entry there.
fn position_of(entries: &Vec<Entry>, uid: u128) -> (r: Option<usize>)
    ensures
        match r {
            Some(j) => j < entries.len() && entries@[j as int].user_id == uid,
            None => forall|j: int| 0 <= j < entries.len() ==> #[trigger] entries@[j].user_id != uid,
        },
{
    let mut j: usize = 0;
    while j < entries.len()
        invariant
            j <= entries.len(),
            forall|t: int| 0 <= t < j ==> #[trigger] entries@[t].user_id != uid,
        decreases entries.len() - j,
    {
        if entries[j].user_id == uid {
            return Some(j);
        }
        j = j + 1;
    }
    None
}

struct Slot {
    queue: Queue,
    entries: Vec<Entry>,
}

/// All queues and their entries.
pub struct QueueStore {
    slots: Vec<Slot>,
}

impl View for QueueStore {
    type V = Map<u128, QueueState>;

    closed spec fn view(&self) -> Map<u128, QueueState> {
        Map::new(
            |q: u128| self.holds(q),
            |q: u128|
                QueueState {
                    queue: self.slots@[self.slot_of(q)].queue,
                    entries: self.slots@[self.slot_of(q)].entries@,
                },
        )
    }
}

impl QueueStore {
    spec fn holds(&self, q: u128) -> bool {
        exists|i: int| 0 <= i < self.slots.len() && #[trigger] self.slots@[i].queue.id == q
    }

    spec fn slot_of(&self, q: u128) -> int {
        choose|i: int| 0 <= i < self.slots.len() && #[trigger] self.slots@[i].queue.id == q
    }

    /// Queue ids are unique and no user holds two entries in one queue.
    pub closed spec fn wf(&self) -> bool {
        &&& forall|i: int, j: int|
            0 <= i < self.slots.len() && 0 <= j < self.slots.len() && i != j
                ==> #[trigger] self.slots@[i].queue.id != #[trigger] self.slots@[j].queue.id
        &&& forall|i: int|
            0 <= i < self.slots.len() ==> distinct_users(#[trigger] self.slots@[i].entries@)
    }

    proof fn lemma_slot(&self, i: int)
        requires
            self.wf(),
            0 <= i < self.slots.len(),
        ensures
            self@.contains_key(self.slots@[i].queue.id),
            self@[self.slots@[i].queue.id] == (QueueState {
                queue: self.slots@[i].queue,
                entries: self.slots@[i].entries@,
            }),
    {
        let q = self.slots@[i].queue.id;
        assert(self.holds(q));
        let k = self.slot_of(q);
        assert(self.slots@[k].queue.id == q);
    }

    /// Every queue of the store keeps its entries free of duplicate users.
    pub proof fn lemma_distinct_entries(&self, qid: u128)
        requires
            self.wf(),
            self@.contains_key(qid),
        ensures
            distinct_users(self@[qid].entries),
    {
        let k = self.slot_of(qid);
        assert(self.holds(qid));
        self.lemma_slot(k);
    }

    pub fn new() -> (r: QueueStore)
        ensures
            r.wf(),
            r@ == Map::<u128, QueueState>::empty(),
    {
        let r = QueueStore { slots: Vec::new() };
        assert(r@ =~= Map::<u128, QueueState>::empty());
        r
    }

    fn find(&self, qid: u128) -> (r: Option<usize>)
        requires
            self.wf(),
        ensures
            match r {
                Some(i) => i < self.slots.len() && self.slots@[i as int].queue.id == qid
                    && self@.contains_key(qid) && self@[qid] == (QueueState {
                    queue: self.slots@[i as int].queue,
                    entries: self.slots@[i as int].entries@,
                }),
                None => !self@.contains_key(qid),
            },
    {
        let mut i: usize = 0;
        while i < self.slots.len()
            invariant
                self.wf(),
                i <= self.slots.len(),
                forall|t: int| 0 <= t < i ==> #[trigger] self.slots@[t].queue.id != qid,
            decreases self.slots.len() - i,
        {
            if self.slots[i].queue.id == qid {
                proof {
                    self.lemma_slot(i as int);
                }
                return Some(i);
            }
            i = i + 1;
        }
        None
    }

    /// Looks a queue up by its id.
    pub fn queue_by_id(&self, qid: u128) -> (r: Result<Queue, QueueError>)
        requires
            self.wf(),
        ensures
            match r {
                Ok(q) => self@.contains_key(qid) && q == self@[qid].queue,
                Err(e) => !self@.contains_key(qid) && e == QueueError::QueueNotFound,
            },
    {
        match self.find(qid) {
            Some(i) => Ok(self.slots[i].queue.duplicate()),
            None => Err(QueueError::QueueNotFound),
        }
    }

    proof fn lemma_after_update(old_store: &QueueStore, new_store: &QueueStore, i: int)
        requires
            old_store.wf(),
            new_store.wf(),
            0 <= i < old_store.slots.len(),
            new_store.slots.len() == old_store.slots.len(),
            new_store.slots@[i].queue.id == old_store.slots@[i].queue.id,
            forall|t: int|
                0 <= t < old_store.slots.len() && t != i ==> #[trigger] new_store.slots@[t]
                    == old_store.slots@[t],
        ensures
            new_store@ == old_store@.insert(
                old_store.slots@[i].queue.id,
                QueueState { queue: new_store.slots@[i].queue, entries: new_store.slots@[i].entries@ },
            ),
    {
        let id = old_store.slots@[i].queue.id;
        let m = old_store@.insert(
            id,
            QueueState { queue: new_store.slots@[i].queue, entries: new_store.slots@[i].entries@ },
        );
        new_store.lemma_slot(i);
        assert forall|q: u128| #[trigger] new_store@.contains_key(q) <==> m.contains_key(q) by {
            if new_store.holds(q) {
                let k = choose|k: int| 0 <= k < new_store.slots.len() && #[trigger] new_store.slots@[k].queue.id == q;
                if k != i {
                    old_store.lemma_slot(k);
                }
            }
            if old_store.holds(q) {
                let k = choose|k: int| 0 <= k < old_store.slots.len() && #[trigger] old_store.slots@[k].queue.id == q;
                if k != i {
                    new_store.lemma_slot(k);
                }
            }
        }
        assert forall|q: u128| #[trigger] new_store@.contains_key(q) implies new_store@[q] == m[q] by {
            if q != id {
                let k = choose|k: int| 0 <= k < new_store.slots.len() && #[trigger] new_store.slots@[k].queue.id == q;
                assert(new_store.holds(q));
                assert(k != i);
                old_store.lemma_slot(k);
                new_store.lemma_slot(k);
            }
        }
        assert(new_store@ =~= m);
    }

    proof fn lemma_after_push(old_store: &QueueStore, new_store: &QueueStore)
        requires
            old_store.wf(),
            new_store.wf(),
            new_store.slots.len() == old_store.slots.len() + 1,
            forall|t: int|
                0 <= t < old_store.slots.len() ==> #[trigger] new_store.slots@[t]
                    == old_store.slots@[t],
        ensures
            new_store@ == old_store@.insert(
                new_store.slots@[old_store.slots.len() as int].queue.id,
                QueueState {
                    queue: new_store.slots@[old_store.slots.len() as int].queue,
                    entries: new_store.slots@[old_store.slots.len() as int].entries@,
                },
            ),
    {
        let n = old_store.slots.len() as int;
        let id = new_store.slots@[n].queue.id;
        let m = old_store@.insert(
            id,
            QueueState { queue: new_store.slots@[n].queue, entries: new_store.slots@[n].entries@ },
        );
        new_store.lemma_slot(n);
        assert forall|q: u128| #[trigger] new_store@.contains_key(q) <==> m.contains_key(q) by {
            if new_store.holds(q) {
                let k = choose|k: int| 0 <= k < new_store.slots.len() && #[trigger] new_store.slots@[k].queue.id == q;
                if k != n {
                    old_store.lemma_slot(k);
                }
            }
            if old_store.holds(q) {
                let k = choose|k: int| 0 <= k < old_store.slots.len() && #[trigger] old_store.slots@[k].queue.id == q;
                new_store.lemma_slot(k);
            }
        }
        assert forall|q: u128| #[trigger] new_store@.contains_key(q) implies new_store@[q] == m[q] by {
            if q != id {
                let k = choose|k: int| 0 <= k < new_store.slots.len() && #[trigger] new_store.slots@[k].queue.id == q;
                assert(new_store.holds(q));
                old_store.lemma_slot(k);
                new_store.lemma_slot(k);
            }
        }
        assert(new_store@ =~= m);
    }

    proof fn lemma_after_remove(old_store: &QueueStore, new_store: &QueueStore, i: int)
        requires
            old_store.wf(),
            0 <= i < old_store.slots.len(),
            new_store.slots@ == old_store.slots@.remove(i),
        ensures
            new_store.wf(),
            new_store@ == old_store@.remove(old_store.slots@[i].queue.id),
    {
        let id = old_store.slots@[i].queue.id;
        let m = old_store@.remove(id);
        assert forall|a: int, b: int|
            0 <= a < new_store.slots.len() && 0 <= b < new_store.slots.len() && a != b
                implies #[trigger] new_store.slots@[a].queue.id != #[trigger] new_store.slots@[b].queue.id by {
            let a2 = if a < i { a } else { a + 1 };
            let b2 = if b < i { b } else { b + 1 };
            assert(new_store.slots@[a] == old_store.slots@[a2]);
            assert(new_store.slots@[b] == old_store.slots@[b2]);
        }
        assert forall|a: int| 0 <= a < new_store.slots.len() implies distinct_users(
            #[trigger] new_store.slots@[a].entries@,
        ) by {
            let a2 = if a < i { a } else { a + 1 };
            assert(new_store.slots@[a] == old_store.slots@[a2]);
        }
        assert forall|q: u128| #[trigger] new_store@.contains_key(q) <==> m.contains_key(q) by {
            if new_store.holds(q) {
                let k = choose|k: int| 0 <= k < new_store.slots.len() && #[trigger] new_store.slots@[k].queue.id == q;
                let k2 = if k < i { k } else { k + 1 };
                assert(new_store.slots@[k] == old_store.slots@[k2]);
                old_store.lemma_slot(k2);
            }
            if old_store.holds(q) && q != id {
                let k = choose|k: int| 0 <= k < old_store.slots.len() && #[trigger] old_store.slots@[k].queue.id == q;
                let k2 = if k < i { k } else { k - 1 };
                assert(new_store.slots@[k2] == old_store.slots@[k]);
                new_store.lemma_slot(k2);
            }
        }
        assert forall|q: u128| #[trigger] new_store@.contains_key(q) implies new_store@[q] == m[q] by {
            let k = choose|k: int| 0 <= k < new_store.slots.len() && #[trigger] new_store.slots@[k].queue.id == q;
            assert(new_store.holds(q));
            let k2 = if k < i { k } else { k + 1 };
            assert(new_store.slots@[k] == old_store.slots@[k2]);
            old_store.lemma_slot(k2);
            new_store.lemma_slot(k);
        }
        assert(new_store@ =~= m);
    }

    /// Creates a queue under the id `id` at time `now`. The creator becomes its
    /// organizer when `claim_organizer` holds, and its first member either way.
    pub fn create_queue_at(
        &mut self,
        identity: u128,
        name: String,
        description: String,
        claim_organizer: bool,
        id: u128,
        now: i64,
    ) -> (r: Result<u128, QueueError>)
        requires
            old(self).wf(),
        ensures
            final(self).wf(),
            create_outcome(
                old(self)@,
                final(self)@,
                identity,
                name,
                description,
                claim_organizer,
                id,
                now,
                r,
            ),
    {
        if now > i64::MAX - QUEUE_LIFETIME_MICROS {
            return Err(QueueError::Unavailable);
        }
        if self.find(id).is_some() {
            return Err(QueueError::Unavailable);
        }
        let ghost before = *self;
        let queue = Queue {
            id,
            name,
            description,
            organizer_id: if claim_organizer {
                Some(identity)
            } else {
                None
            },
            created_at: now,
            expires_at: now + QUEUE_LIFETIME_MICROS,
        };
        let mut entries: Vec<Entry> = Vec::new();
        entries.push(Entry { user_id: identity, has_priority: false, is_held: false, joined_at: now });
        self.slots.push(Slot { queue, entries });
        proof {
            assert forall|t: int| 0 <= t < before.slots.len() implies #[trigger] before.slots@[t].queue.id != id by {
                assert(!before.holds(id));
            }
            assert(self.wf());
            QueueStore::lemma_after_push(&before, self);
            assert(seq![plain_entry(identity, now)] =~= self.slots@[before.slots.len() as int].entries@);
        }
        Ok(id)
    }

    /// Adds `entry` to queue `qid`, unless the queue is missing or the user
    /// already holds an entry there.
    pub fn add_entry(&mut self, qid: u128, entry: Entry) -> (r: Result<(), QueueError>)
        requires
            old(self).wf(),
        ensures
            final(self).wf(),
            join_outcome(old(self)@, final(self)@, qid, entry, r),
    {
        let i = match self.find(qid) {
            Some(i) => i,
            None => return Err(QueueError::QueueNotFound),
        };
        if position_of(&self.slots[i].entries, entry.user_id).is_some() {
            return Err(QueueError::AlreadyMember);
        }
        let ghost before = *self;
        self.slots[i].entries.push(entry);
        proof {
            let s = self.slots@[i as int].entries@;
            assert forall|a: int, b: int| 0 <= a < s.len() && 0 <= b < s.len() && a != b implies #[trigger] s[a].user_id != #[trigger] s[b].user_id by {
                assert(distinct_users(before.slots@[i as int].entries@));
            }
            assert(self.wf());
            QueueStore::lemma_after_update(&before, self, i as int);
        }
        Ok(())
    }

    /// Removes the entry of `identity` from queue `qid`.
    pub fn leave_from_queue(&mut self, identity: u128, qid: u128) -> (r: Result<(), QueueError>)
        requires
            old(self).wf(),
        ensures
            final(self).wf(),
            leave_outcome(old(self)@, final(self)@, identity, qid, r),
    {
        let i = match self.find(qid) {
            Some(i) => i,
            None => return Err(QueueError::NotMember),
        };
        let j = match position_of(&self.slots[i].entries, identity) {
            Some(j) => j,
            None => return Err(QueueError::NotMember),
        };
        let ghost before = *self;
        self.slots[i].entries.remove(j);
        proof {
            let s0 = before.slots@[i as int].entries@;
            let s = self.slots@[i as int].entries@;
            assert forall|a: int, b: int| 0 <= a < s.len() && 0 <= b < s.len() && a != b implies #[trigger] s[a].user_id != #[trigger] s[b].user_id by {
                assert(distinct_users(s0));
                let a2 = if a < j { a } else { a + 1 };
                let b2 = if b < j { b } else { b + 1 };
                assert(s[a] == s0[a2]);
                assert(s[b] == s0[b2]);
            }
            assert(self.wf());
            QueueStore::lemma_after_update(&before, self, i as int);
            assert(s0[j as int].user_id == identity);
        }
        Ok(())
    }

    /// Deletes queue `qid` with all its entries; only its organizer may.
    pub fn delete_queue(&mut self, identity: u128, qid: u128) -> (r: Result<(), QueueError>)
        requires
            old(self).wf(),
        ensures
            final(self).wf(),
            delete_outcome(old(self)@, final(self)@, identity, qid, r),
    {
        let i = match self.find(qid) {
            Some(i) => i,
            None => return Err(QueueError::QueueNotFound),
        };
        let allowed = match self.slots[i].queue.organizer_id {
            Some(o) => o == identity,
            None => false,
        };
        if !allowed {
            return Err(QueueError::Forbidden);
        }
        let ghost before = *self;
        self.slots.remove(i);
        proof {
            QueueStore::lemma_after_remove(&before, self, i as int);
        }
        Ok(())
    }

    /// The members of queue `qid` in serving order, with their positions.
    pub fn get_members(&self, qid: u128) -> (r: Result<Vec<MemberInfo>, QueueError>)
        requires
            self.wf(),
        ensures
            match r {
                Ok(out) => self@.contains_key(qid) && ranked(self@[qid].entries, out@),
                Err(e) => !self@.contains_key(qid) && e == QueueError::QueueNotFound,
            },
    {
        match self.find(qid) {
            Some(i) => Ok(rank(&self.slots[i].entries)),
            None => Err(QueueError::QueueNotFound),
        }
    }

    /// The queues in which `identity` holds an entry, each once.
    pub fn my_queues(&self, identity: u128) -> (r: Vec<Queue>)
        requires
            self.wf(),
        ensures
            forall|k: int| 0 <= k < r.len() ==> is_member(self@, #[trigger] r@[k].id, identity)
                && r@[k] == self@[r@[k].id].queue,
            forall|q: u128| #[trigger] is_member(self@, q, identity) ==> exists|k: int|
                0 <= k < r.len() && #[trigger] r@[k].id == q,
            forall|a: int, b: int|
                0 <= a < r.len() && 0 <= b < r.len() && a != b ==> #[trigger] r@[a].id
                    != #[trigger] r@[b].id,
    {
        let mut r: Vec<Queue> = Vec::new();
        let ghost mut src: Seq<int> = Seq::empty();
        let mut i: usize = 0;
        while i < self.slots.len()
            invariant
                self.wf(),
                i <= self.slots.len(),
                src.len() == r.len(),
                forall|k: int| 0 <= k < r.len() ==> 0 <= #[trigger] src[k] < i,
                forall|k: int| 0 <= k < r.len() ==> r@[k] == self.slots@[#[trigger] src[k]].queue,
                forall|k: int| 0 <= k < r.len() ==> is_member(self@, #[trigger] r@[k].id, identity),
                forall|a: int, b: int| 0 <= a < b < r.len() ==> #[trigger] src[a] < #[trigger] src[b],
                forall|t: int| 0 <= t < i && #[trigger] is_member(self@, self.slots@[t].queue.id, identity)
                    ==> exists|k: int| 0 <= k < r.len() && #[trigger] src[k] == t,
            decreases self.slots.len() - i,
        {
            proof {
                self.lemma_slot(i as int);
            }
            let found = position_of(&self.slots[i].entries, identity);
            if let Some(j) = found {
                let ghost old_r = r@;
                let ghost old_src = src;
                r.push(self.slots[i].queue.duplicate());
                proof {
                    src = src.push(i as int);
                    assert(self@[self.slots@[i as int].queue.id].entries[j as int].user_id == identity);
                    assert(is_member(self@, self.slots@[i as int].queue.id, identity));
                    assert forall|t: int| 0 <= t < i + 1 && #[trigger] is_member(self@, self.slots@[t].queue.id, identity)
                        implies exists|k: int| 0 <= k < r.len() && #[trigger] src[k] == t by {
                        if t == i {
                            assert(src[r.len() - 1] == t);
                        } else {
                            let k = choose|k: int| 0 <= k < old_r.len() && #[trigger] old_src[k] == t;
                            assert(src[k] == t);
                        }
                    }
                }
            } else {
                proof {
                    if is_member(self@, self.slots@[i as int].queue.id, identity) {
                        let j = choose|j: int| 0 <= j < self@[self.slots@[i as int].queue.id].entries.len()
                            && #[trigger] self@[self.slots@[i as int].queue.id].entries[j].user_id == identity;
                        assert(self.slots@[i as int].entries@[j].user_id == identity);
                    }
                }
            }
            i = i + 1;
        }
        proof {
            assert forall|q: u128| #[trigger] is_member(self@, q, identity) implies exists|k: int|
                0 <= k < r.len() && #[trigger] r@[k].id == q by {
                assert(self.holds(q));
                let t = self.slot_of(q);
                self.lemma_slot(t);
                let k = choose|k: int| 0 <= k < r.len() && #[trigger] src[k] == t;
                assert(r@[k].id == q);
            }
            assert forall|a: int, b: int|
                0 <= a < r.len() && 0 <= b < r.len() && a != b implies #[trigger] r@[a].id
                    != #[trigger] r@[b].id by {
                assert(src[a] != src[b]);
            }
            assert forall|k: int| 0 <= k < r.len() implies r@[k] == self@[r@[k].id].queue by {
                self.lemma_slot(src[k]);
            }
        }
        r
    }

    /// Creates a queue under a fresh random id, stamped with the current
    /// time. Whatever id and time come back, the outcome is that of
    /// `create_queue_at` on them.
    pub fn create_queue(
        &mut self,
        identity: u128,
        name: String,
        description: String,
        claim_organizer: bool,
    ) -> (r: Result<u128, QueueError>)
        requires
            old(self).wf(),
        ensures
            final(self).wf(),
            exists|id: u128, now: i64|
                create_outcome(
                    old(self)@,
                    final(self)@,
                    identity,
                    name,
                    description,
                    claim_organizer,
                    id,
                    now,
                    r,
                ),
    {
        let id = fresh_id();
        let now = current_micros();
        let r = self.create_queue_at(identity, name, description, claim_organizer, id, now);
        r
    }

    /// Enrols `identity` in queue `qid` without priority or hold, joined now.
    pub fn join_to_queue(&mut self, identity: u128, qid: u128) -> (r: Result<(), QueueError>)
        requires
            old(self).wf(),
        ensures
            final(self).wf(),
            exists|now: i64| join_outcome(old(self)@, final(self)@, qid, plain_entry(identity, now), r),
    {
        let now = current_micros();
        let ghost before = self@;
        let r = self.add_entry(
            qid,
            Entry { user_id: identity, has_priority: false, is_held: false, joined_at: now },
        );
        assert(join_outcome(before, self@, qid, plain_entry(identity, now), r));
        r
    }
}

/// No user ever holds two entries in one queue: in every store that the
/// operations above build, two entries of one user in one queue are one entry.
pub proof fn lemma_one_entry_per_user(store: &QueueStore, qid: u128, a: int, b: int)
    requires
        store.wf(),
        store@.contains_key(qid),
        0 <= a < store@[qid].entries.len(),
        0 <= b < store@[qid].entries.len(),
        store@[qid].entries[a].user_id == store@[qid].entries[b].user_id,
    ensures
        a == b,
{
    store.lemma_distinct_entries(qid);
}

/// A successful deletion removes the queue and every entry of it at once,
/// and touches no other queue.
pub proof fn lemma_delete_removes_all(
    before: Map<u128, QueueState>,
    after: Map<u128, QueueState>,
    identity: u128,
    qid: u128,
)
    requires
        delete_outcome(before, after, identity, qid, Ok(())),
    ensures
        !after.contains_key(qid),
        forall|u: u128| !is_member(after, qid, u),
        forall|q: u128| q != qid ==> after.contains_key(q) == before.contains_key(q),
        forall|q: u128| q != qid && after.contains_key(q) ==> after[q] == before[q],
{
}

/// Joining twice as the same user: once the first join succeeded, the second
/// is refused as a duplicate and leaves the membership as it was.
pub proof fn lemma_second_join_rejected(
    m0: Map<u128, QueueState>,
    m1: Map<u128, QueueState>,
    m2: Map<u128, QueueState>,
    qid: u128,
    first: Entry,
    second: Entry,
    r: Result<(), QueueError>,
)
    requires
        join_outcome(m0, m1, qid, first, Ok(())),
        join_outcome(m1, m2, qid, second, r),
        first.user_id == second.user_id,
    ensures
        m1[qid].entries.len() == m0[qid].entries.len() + 1,
        r == Err::<(), QueueError>(QueueError::AlreadyMember),
        m2 == m1,
        m2[qid].entries.len() == m1[qid].entries.len(),
{
    let n = m0[qid].entries.len() as int;
    assert(m1[qid].entries[n].user_id == second.user_id);
}

} // verus!
