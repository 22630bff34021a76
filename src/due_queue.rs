//! The due-time index of subscriptions: one entry per active subscription,
//! kept in an ordered store under keys that sort by (due time, plan,
//! subscriber).

use cosmwasm_std::MemoryStorage;
use vstd::prelude::*;

use crate::due_key::{
    copy_bytes, decode_key, lemma_entry_lt_irreflexive, entry_key, entry_lt, key_entry, key_shaped, lemma_entry_key_shape, lemma_successor_bound, lemma_key_below,
    lemma_key_order, lemma_shaped_key, lex_lt, time_prefix, DueEntry, EntryView,
};
use crate::store::{
    in_key_range, storage_contents, store_get, store_keys, store_new, store_remove, store_set,
};

verus! {

/// Why an operation on the index was refused: the index does not agree with
/// the subscription that the caller holds.
#[derive(Clone, Copy, Debug, PartialEq, Eq, Structural)]
pub enum QueueError {
    /// The entry to add is already there.
    AlreadyScheduled,
    /// The entry to remove is not there.
    NotScheduled,
}

/// The entries due at or before `now`.
pub open spec fn due_by(entries: Set<EntryView>, now: i64) -> Set<EntryView> {
    entries.filter(|e: EntryView| e.due_time <= now)
}

/// `r` is the start, of length at most `limit`, of the entries due at or
/// before `now` in ascending order: sorted, all due, and every due entry that
/// it leaves out comes after all that it holds, which happens only when it is
/// full.
pub open spec fn due_prefix(entries: Set<EntryView>, now: i64, limit: int, r: Seq<EntryView>) -> bool {
    &&& r.len() <= limit
    &&& forall|i: int| 0 <= i < r.len() ==> #[trigger] due_by(entries, now).contains(r[i])
    &&& forall|i: int, j: int| 0 <= i < j < r.len() ==> entry_lt(r[i], r[j])
    &&& forall|e: EntryView|
        #[trigger] due_by(entries, now).contains(e) ==> r.contains(e) || (r.len() == limit && (
        limit == 0 || entry_lt(r[limit - 1], e)))
}

/// The entries after `cursor`, if there is one.
pub open spec fn after_cursor(entries: Set<EntryView>, cursor: Option<EntryView>) -> Set<EntryView> {
    match cursor {
        Some(c) => entries.filter(|e: EntryView| entry_lt(c, e)),
        None => entries,
    }
}

/// The views of a sequence of entries.
pub open spec fn entry_views(v: Seq<DueEntry>) -> Seq<EntryView> {
    v.map_values(|e: DueEntry| e@)
}

/// The index: a store whose keys are the keys of the entries.
pub struct DueQueue {
    store: MemoryStorage,
}

impl View for DueQueue {
    type V = Set<EntryView>;

    closed spec fn view(&self) -> Set<EntryView> {
        Set::new(|e: EntryView| storage_contents(self.store).contains_key(entry_key(e)))
    }
}

impl DueQueue {
    /// Every key of the store is the key of an entry.
    pub closed spec fn wf(&self) -> bool {
        &&& storage_contents(self.store).dom().finite()
        &&& forall|k: Seq<u8>| storage_contents(self.store).contains_key(k) ==> key_shaped(k)
    }

    /// An index holds finitely many entries.
    pub proof fn lemma_finite(&self)
        requires
            self.wf(),
        ensures
            self@.finite(),
    {
        let dom = storage_contents(self.store).dom();
        let f = |k: Seq<u8>| key_entry(k);
        let image = dom.map(f);
        assert(image =~= self@) by {
            assert forall|e: EntryView| #[trigger] self@.contains(e) implies image.contains(e) by {
                lemma_entry_key_shape(e);
                assert(dom.contains(entry_key(e)));
                assert(f(entry_key(e)) == e);
            }
            assert forall|e: EntryView| #[trigger] image.contains(e) implies self@.contains(e) by {
                let k = choose|k: Seq<u8>| dom.contains(k) && f(k) == e;
                lemma_shaped_key(k);
            }
        }
        dom.lemma_map_finite(f);
    }

    /// An empty index.
    pub fn new() -> (r: Self)
        ensures
            r.wf(),
            r@ == Set::<EntryView>::empty(),
    {
        let q = DueQueue { store: store_new() };
        assert(q@ =~= Set::<EntryView>::empty());
        q
    }

    /// Whether the index holds `e`.
    pub fn contains(&self, e: &DueEntry) -> (r: bool)
        ensures
            r == self@.contains(e@),
    {
        let key = e.key();
        store_get(&self.store, key.as_slice()).is_some()
    }

    /// Adds the entry of a subscription; refused when it is already there.
    pub fn schedule(&mut self, e: &DueEntry) -> (r: Result<(), QueueError>)
        requires
            old(self).wf(),
        ensures
            final(self).wf(),
            r is Err <==> old(self)@.contains(e@),
            r matches Err(err) ==> err == QueueError::AlreadyScheduled && final(self)@ == old(
                self,
            )@,
            r is Ok ==> final(self)@ == old(self)@.insert(e@),
    {
        if self.contains(e) {
            return Err(QueueError::AlreadyScheduled);
        }
        self.insert_entry(e);
        Ok(())
    }

    /// Removes the entry of a subscription; refused when it is not there.
    pub fn unschedule(&mut self, e: &DueEntry) -> (r: Result<(), QueueError>)
        requires
            old(self).wf(),
        ensures
            final(self).wf(),
            r is Err <==> !old(self)@.contains(e@),
            r matches Err(err) ==> err == QueueError::NotScheduled && final(self)@ == old(self)@,
            r is Ok ==> final(self)@ == old(self)@.remove(e@),
    {
        if !self.contains(e) {
            return Err(QueueError::NotScheduled);
        }
        self.remove_entry(e);
        Ok(())
    }

    /// Moves the entry of `subscriber` of plan `plan_id` from `old_due` to
    /// `new_due`, in one step: either both halves happen or neither does.
    pub fn reschedule(&mut self, plan_id: u128, subscriber: &[u8], old_due: i64, new_due: i64) -> (r:
        Result<(), QueueError>)
        requires
            old(self).wf(),
        ensures
            final(self).wf(),
            ({
                let from = EntryView { due_time: old_due, plan_id, subscriber: subscriber@ };
                let to = EntryView { due_time: new_due, plan_id, subscriber: subscriber@ };
                &&& (r matches Err(err) ==> final(self)@ == old(self)@ && if !old(self)@.contains(
                    from,
                ) {
                    err == QueueError::NotScheduled
                } else {
                    err == QueueError::AlreadyScheduled && old_due != new_due && old(
                        self,
                    )@.contains(to)
                })
                &&& (r is Ok <==> old(self)@.contains(from) && (old_due == new_due || !old(
                    self,
                )@.contains(to)))
                &&& (r is Ok ==> final(self)@ == old(self)@.remove(from).insert(to))
            }),
    {
        let from = DueEntry { due_time: old_due, plan_id, subscriber: copy_bytes(subscriber) };
        let to = DueEntry { due_time: new_due, plan_id, subscriber: copy_bytes(subscriber) };
        if !self.contains(&from) {
            return Err(QueueError::NotScheduled);
        }
        if old_due != new_due && self.contains(&to) {
            return Err(QueueError::AlreadyScheduled);
        }
        self.remove_entry(&from);
        self.insert_entry(&to);
        Ok(())
    }

    fn insert_entry(&mut self, e: &DueEntry)
        requires
            old(self).wf(),
        ensures
            final(self).wf(),
            final(self)@ == old(self)@.insert(e@),
    {
        let key = e.key();
        let marker: Vec<u8> = vec![1u8];
        store_set(&mut self.store, key.as_slice(), marker.as_slice());
        proof {
            lemma_entry_key_shape(e@);
            assert forall|x: EntryView| #[trigger]
                self@.contains(x) <==> old(self)@.insert(e@).contains(x) by {
                lemma_key_order(x, e@);
            }
            assert(self@ =~= old(self)@.insert(e@));
        }
    }

    fn remove_entry(&mut self, e: &DueEntry)
        requires
            old(self).wf(),
        ensures
            final(self).wf(),
            final(self)@ == old(self)@.remove(e@),
    {
        let key = e.key();
        store_remove(&mut self.store, key.as_slice());
        proof {
            assert forall|x: EntryView| #[trigger]
                self@.contains(x) <==> old(self)@.remove(e@).contains(x) by {
                lemma_key_order(x, e@);
            }
            assert(self@ =~= old(self)@.remove(e@));
        }
    }

    /// The first `limit` entries due at or before `now`, in ascending order
    /// of (due time, plan, subscriber).
    pub fn due_before(&self, now: i64, limit: usize) -> (r: Vec<DueEntry>)
        requires
            self.wf(),
        ensures
            due_prefix(self@, now, limit as int, entry_views(r@)),
    {
        let r = self.scan(None, now, limit);
        assert(after_cursor(self@, None) =~= self@);
        r
    }

    /// The first `limit` entries after `cursor` that are due at or before
    /// `now`, in ascending order: the next page of a listing whose last entry
    /// was `cursor`.
    pub fn due_after(&self, cursor: &DueEntry, now: i64, limit: usize) -> (r: Vec<DueEntry>)
        requires
            self.wf(),
        ensures
            due_prefix(after_cursor(self@, Some(cursor@)), now, limit as int, entry_views(r@)),
    {
        self.scan(Some(cursor), now, limit)
    }

    fn scan(&self, cursor: Option<&DueEntry>, now: i64, limit: usize) -> (r: Vec<DueEntry>)
        requires
            self.wf(),
        ensures
            due_prefix(
                after_cursor(
                    self@,
                    match cursor {
                        Some(c) => Some(c@),
                        None => None,
                    },
                ),
                now,
                limit as int,
                entry_views(r@),
            ),
    {
        let ghost cview: Option<EntryView> = match cursor {
            Some(c) => Some(c@),
            None => None,
        };
        let ghost entries = after_cursor(self@, cview);
        let lower: Option<Vec<u8>> = match cursor {
            Some(c) => {
                let mut k = c.key();
                k.push(0u8);
                Some(k)
            },
            None => None,
        };
        let bound: Option<Vec<u8>> = if now < i64::MAX {
            Some(time_prefix(now + 1))
        } else {
            None
        };
        let lower_slice: Option<&[u8]> = match &lower {
            Some(v) => Some(v.as_slice()),
            None => None,
        };
        let keys = match &bound {
            Some(b) => store_keys(&self.store, lower_slice, Some(b.as_slice())),
            None => store_keys(&self.store, lower_slice, None),
        };
        let ghost end: Option<Seq<u8>> = match bound {
            Some(b) => Some(b@),
            None => None,
        };
        let ghost start: Option<Seq<u8>> = match lower {
            Some(b) => Some(b@),
            None => None,
        };
        proof {
            assert forall|e: EntryView| #[trigger]
                in_key_range(entry_key(e), start, None) == (cview is None || entry_lt(
                    cview->0,
                    e,
                )) by {
                if cview is Some {
                    let c = cview->0;
                    lemma_successor_bound(entry_key(c), entry_key(e));
                    lemma_key_order(c, e);
                }
            }
        }
        let ghost contents = storage_contents(self.store);
        let mut out: Vec<DueEntry> = Vec::new();
        let mut i: usize = 0;
        while i < keys.len() && i < limit
            invariant
                self.wf(),
                i <= keys@.len(),
                i <= limit,
                out@.len() == i,
                forall|j: int| 0 <= j < i ==> #[trigger] out@[j]@ == key_entry(keys@[j]@),
                forall|j: int| 0 <= j < keys@.len() ==> contents.contains_key(#[trigger] keys@[j]@),
                contents == storage_contents(self.store),
            decreases keys@.len() - i,
        {
            let k = keys[i].as_slice();
            assert(key_shaped(keys@[i as int]@));
            match decode_key(k) {
                Some(e) => {
                    out.push(e);
                },
                None => {
                    proof {
                        assert(false);
                    }
                },
            }
            i = i + 1;
        }
        let ghost r = entry_views(out@);
        let ghost due = due_by(entries, now);
        proof {
            assert forall|j: int| 0 <= j < r.len() implies #[trigger] entry_key(r[j]) == keys@[j]@ by {
                lemma_shaped_key(keys@[j]@);
            }
            assert forall|j: int| 0 <= j < r.len() implies #[trigger] due.contains(r[j]) by {
                assert(entry_key(r[j]) == keys@[j]@);
                assert(self@.contains(r[j]));
                assert(in_key_range(entry_key(r[j]), start, None));
                if now < i64::MAX {
                    lemma_key_below(r[j], (now + 1) as i64);
                }
            }
            assert forall|a: int, b: int| 0 <= a < b < r.len() implies entry_lt(r[a], r[b]) by {
                assert(entry_key(r[a]) == keys@[a]@);
                assert(entry_key(r[b]) == keys@[b]@);
                lemma_key_order(r[a], r[b]);
            }
            assert forall|e: EntryView| #[trigger] due.contains(e) implies r.contains(e) || (r.len()
                == limit && (limit == 0 || entry_lt(r[limit - 1], e))) by {
                let k = entry_key(e);
                assert(contents.contains_key(k));
                if now < i64::MAX {
                    lemma_key_below(e, (now + 1) as i64);
                }
                assert(in_key_range(k, start, None));
                assert(in_key_range(k, start, end));
                let m = choose|m: int| 0 <= m < keys@.len() && keys@[m]@ == k;
                lemma_entry_key_shape(e);
                if m < r.len() {
                    assert(r[m] == e);
                } else if limit > 0 {
                    assert(i == limit);
                    let last = (limit - 1) as int;
                    assert(lex_lt(keys@[last]@, keys@[m]@));
                    assert(entry_key(r[last]) == keys@[last]@);
                    lemma_key_order(r[last], e);
                }
            }
        }
        out
    }
}

/// An entry of the index that is due by `now` is listed by `due_before(now,
/// limit)` when at most `limit` entries are due by then; so after `schedule`
/// or `reschedule` puts an entry at time `t`, a listing by `t` shows it.
pub proof fn lemma_due_entry_listed(
    entries: Set<EntryView>,
    e: EntryView,
    now: i64,
    limit: int,
    r: Seq<EntryView>,
)
    requires
        entries.finite(),
        entries.contains(e),
        e.due_time <= now,
        due_by(entries, now).len() <= limit,
        due_prefix(entries, now, limit, r),
    ensures
        r.contains(e),
{
    let due = due_by(entries, now);
    assert(due.contains(e));
    if !r.contains(e) {
        assert(r.len() == limit);
        assert(r.no_duplicates()) by {
            assert forall|i: int, j: int| 0 <= i < r.len() && 0 <= j < r.len() && i != j implies r[i]
                != r[j] by {
                if i < j {
                    assert(entry_lt(r[i], r[j]));
                } else {
                    assert(entry_lt(r[j], r[i]));
                }
                lemma_entry_lt_irreflexive(r[i]);
            }
        }
        r.unique_seq_to_set();
        let listed = r.to_set().insert(e);
        assert(listed.subset_of(due)) by {
            assert forall|x: EntryView| listed.contains(x) implies due.contains(x) by {
                if x != e {
                    let i = choose|i: int| 0 <= i < r.len() && r[i] == x;
                }
            }
        }
        assert(due.finite());
        vstd::set_lib::lemma_len_subset(listed, due);
        assert(!r.to_set().contains(e));
    }
}

/// After an entry moves from `from` to a due time past `now`, a listing by
/// `now` holds neither the old entry nor the new one.
pub proof fn lemma_moved_entry_not_listed(
    before: Set<EntryView>,
    after: Set<EntryView>,
    from: EntryView,
    to: EntryView,
    now: i64,
    limit: int,
    r: Seq<EntryView>,
)
    requires
        from.plan_id == to.plan_id,
        from.subscriber == to.subscriber,
        after == before.remove(from).insert(to),
        now < to.due_time,
        due_prefix(after, now, limit, r),
    ensures
        !r.contains(from),
        !r.contains(to),
{
    if r.contains(from) {
        let i = choose|i: int| 0 <= i < r.len() && r[i] == from;
        assert(due_by(after, now).contains(r[i]));
    }
    if r.contains(to) {
        let i = choose|i: int| 0 <= i < r.len() && r[i] == to;
        assert(due_by(after, now).contains(r[i]));
    }
}

} // verus!
