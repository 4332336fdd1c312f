//! The per-realm snapshot store: the bridge between the background update
//! cycle and the concurrent readers of the presentation layer.
//!
//! The store holds one lock-protected snapshot per known realm slug; the key
//! set is fixed at startup and never changes. A publish replaces the whole
//! per-realm snapshot under a writer lock, so a reader sees either the
//! complete old snapshot or the complete new one, never a mix of fields from
//! different publishes. The lock is vstd's verified reader-writer lock, whose
//! invariant keeps every stored snapshot well-formed.

use crate::valuation::{sorted_desc, ItemValuation};
use vstd::prelude::*;
use vstd::rwlock::RwLock;

verus! {

/// The complete valuation result for one realm at one point in time.
/// `last_update` is the timestamp the external API reported; 0 means the
/// realm has never been updated (pending, not an error).
pub struct RealmPriceSnapshot {
    pub last_update: u64,
    pub value_map: Vec<ItemValuation>,
    pub blood_item_values: Vec<ItemValuation>,
    pub sargerite_item_values: Vec<ItemValuation>,
}

/// Well-formedness of a snapshot: both published category lists are sorted
/// descending by value.
pub open spec fn snapshot_wf(s: RealmPriceSnapshot) -> bool {
    &&& sorted_desc(s.blood_item_values@)
    &&& sorted_desc(s.sargerite_item_values@)
}

fn copy_valuations(v: &Vec<ItemValuation>) -> (r: Vec<ItemValuation>)
    ensures
        r@ == v@,
{
    let mut r: Vec<ItemValuation> = Vec::new();
    let n = v.len();
    for i in 0..n
        invariant
            n == v@.len(),
            r@.len() == i,
            forall|j: int| 0 <= j < i ==> r@[j] == v@[j],
    {
        r.push(v[i]);
    }
    proof {
        assert(r@ =~= v@);
    }
    r
}

impl RealmPriceSnapshot {
    /// The startup snapshot of every realm: never updated, no data.
    pub fn empty() -> (s: Self)
        ensures
            s.last_update == 0,
            s.value_map@.len() == 0,
            s.blood_item_values@.len() == 0,
            s.sargerite_item_values@.len() == 0,
            snapshot_wf(s),
    {
        RealmPriceSnapshot {
            last_update: 0,
            value_map: Vec::new(),
            blood_item_values: Vec::new(),
            sargerite_item_values: Vec::new(),
        }
    }

    /// A field-for-field copy of the snapshot.
    pub fn duplicate(&self) -> (r: Self)
        ensures
            r.last_update == self.last_update,
            r.value_map@ == self.value_map@,
            r.blood_item_values@ == self.blood_item_values@,
            r.sargerite_item_values@ == self.sargerite_item_values@,
    {
        RealmPriceSnapshot {
            last_update: self.last_update,
            value_map: copy_valuations(&self.value_map),
            blood_item_values: copy_valuations(&self.blood_item_values),
            sargerite_item_values: copy_valuations(&self.sargerite_item_values),
        }
    }
}

struct StoreEntry {
    slug: String,
    cell: RwLock<RealmPriceSnapshot, spec_fn(RealmPriceSnapshot) -> bool>,
}

/// One lockable snapshot per known realm slug; keys fixed at startup.
pub struct PriceSnapshotStore {
    entries: Vec<StoreEntry>,
}

impl PriceSnapshotStore {
    /// Every per-realm lock admits exactly the well-formed snapshots.
    pub closed spec fn wf(self) -> bool {
        forall|i: int|
            0 <= i < self.entries@.len() ==> forall|s: RealmPriceSnapshot|
                (#[trigger] self.entries@[i]).cell.inv(s) <==> snapshot_wf(s)
    }

    /// Whether the fixed key set holds the given realm slug.
    pub closed spec fn has_realm(self, slug: Seq<char>) -> bool {
        exists|i: int| 0 <= i < self.entries@.len() && (#[trigger] self.entries@[i]).slug@ == slug
    }

    /// Builds the store with one empty snapshot per known realm slug.
    pub fn new(slugs: &Vec<String>) -> (s: Self)
        ensures
            s.wf(),
            forall|i: int| 0 <= i < slugs@.len() ==> s.has_realm((#[trigger] slugs@[i])@),
            forall|q: Seq<char>|
                #[trigger] s.has_realm(q) ==> exists|i: int|
                    0 <= i < slugs@.len() && (#[trigger] slugs@[i])@ == q,
    {
        let mut entries: Vec<StoreEntry> = Vec::new();
        let n = slugs.len();
        for i in 0..n
            invariant
                n == slugs@.len(),
                entries@.len() == i,
                forall|k: int| 0 <= k < i ==> (#[trigger] entries@[k]).slug@ == slugs@[k]@,
                forall|k: int|
                    0 <= k < i ==> forall|v: RealmPriceSnapshot|
                        (#[trigger] entries@[k]).cell.inv(v) <==> snapshot_wf(v),
        {
            let snap = RealmPriceSnapshot::empty();
            let cell = RwLock::<RealmPriceSnapshot, spec_fn(RealmPriceSnapshot) -> bool>::new(
                snap,
                Ghost(|v: RealmPriceSnapshot| snapshot_wf(v)),
            );
            entries.push(StoreEntry { slug: slugs[i].clone(), cell });
        }
        let s = PriceSnapshotStore { entries };
        proof {
            assert forall|i: int| 0 <= i < slugs@.len() implies s.has_realm(
                (#[trigger] slugs@[i])@,
            ) by {
                assert(s.entries@[i].slug@ == slugs@[i]@);
            }
        }
        s
    }

    /// Whether the store knows the slug: distinguishes "not found" from a
    /// known realm that is merely not yet updated.
    pub fn contains_realm(&self, slug: &String) -> (r: bool)
        ensures
            r == self.has_realm(slug@),
    {
        let n = self.entries.len();
        for i in 0..n
            invariant
                n == self.entries@.len(),
                forall|j: int| 0 <= j < i ==> (#[trigger] self.entries@[j]).slug@ != slug@,
        {
            if self.entries[i].slug == *slug {
                return true;
            }
        }
        false
    }

    /// Reads the current snapshot of one realm. Many readers may run
    /// concurrently; a reader never blocks on another reader and never sees a
    /// half-replaced snapshot. An unknown slug reports not-found.
    pub fn read(&self, slug: &String) -> (r: Option<RealmPriceSnapshot>)
        requires
            self.wf(),
        ensures
            (r is Some) == self.has_realm(slug@),
            match r {
                Some(s) => snapshot_wf(s),
                None => true,
            },
    {
        let n = self.entries.len();
        for i in 0..n
            invariant
                n == self.entries@.len(),
                self.wf(),
                forall|j: int| 0 <= j < i ==> (#[trigger] self.entries@[j]).slug@ != slug@,
        {
            if self.entries[i].slug == *slug {
                let handle = self.entries[i].cell.acquire_read();
                let val = handle.borrow();
                let snap = val.duplicate();
                proof {
                    assert(self.entries@[i as int].cell.inv(*val));
                    assert(snapshot_wf(*val));
                }
                handle.release_read();
                return Some(snap);
            }
        }
        None
    }

    /// Replaces one realm's snapshot wholesale under the writer lock. The
    /// fixed key set makes an unknown slug a caller error, as it was when the
    /// key was looked up unchecked.
    pub fn publish(&self, slug: &String, snap: RealmPriceSnapshot)
        requires
            self.wf(),
            snapshot_wf(snap),
            self.has_realm(slug@),
    {
        let n = self.entries.len();
        for i in 0..n
            invariant
                n == self.entries@.len(),
                self.wf(),
                self.has_realm(slug@),
                snapshot_wf(snap),
                forall|j: int| 0 <= j < i ==> (#[trigger] self.entries@[j]).slug@ != slug@,
        {
            if self.entries[i].slug == *slug {
                let (old_snap, write_handle) = self.entries[i].cell.acquire_write();
                write_handle.release_write(snap);
                return ;
            }
        }
    }
}

} // verus!
