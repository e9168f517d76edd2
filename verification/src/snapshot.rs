//! Append-only historical log of document text, keyed by monotonically
//! increasing version id.

use crate::ConfigError;
use vstd::prelude::*;

verus! {

/// Immutable historical capture of the document at a point in time: created
/// once per accepted write (or at first-run bootstrap), never mutated.
/// `selected_kernel` is a reserved field, not always populated.
pub struct Snapshot {
    pub id: u64,
    pub created_at: u64,
    pub document_text: String,
    pub selected_kernel: Option<String>,
}

/// Mathematical model of a [`Snapshot`].
pub ghost struct SnapshotModel {
    pub id: u64,
    pub created_at: u64,
    pub document_text: Seq<char>,
    pub selected_kernel: Option<Seq<char>>,
}

impl View for Snapshot {
    type V = SnapshotModel;

    open spec fn view(&self) -> SnapshotModel {
        SnapshotModel {
            id: self.id,
            created_at: self.created_at,
            document_text: self.document_text@,
            selected_kernel: match self.selected_kernel {
                Some(k) => Some(k@),
                None => None,
            },
        }
    }
}

/// Ids strictly increase along the log.
pub open spec fn store_wf(rows: Seq<SnapshotModel>) -> bool {
    forall|i: int, j: int| 0 <= i < j < rows.len() ==> #[trigger] rows[i].id < #[trigger] rows[j].id
}

/// The id the next appended row receives.
pub open spec fn spec_next_id(rows: Seq<SnapshotModel>) -> int {
    if rows.len() == 0 {
        1
    } else {
        rows.last().id + 1
    }
}

/// The append-only log of historical document versions. Rows are only ever
/// appended by normal operation; the one exception is the explicit
/// administrative [`SnapshotStore::remove`], which never empties the log.
pub struct SnapshotStore {
    rows: Vec<Snapshot>,
}

impl View for SnapshotStore {
    type V = Seq<SnapshotModel>;

    closed spec fn view(&self) -> Seq<SnapshotModel> {
        self.rows@.map_values(|s: Snapshot| s@)
    }
}

impl SnapshotStore {
    pub open spec fn wf(&self) -> bool {
        store_wf(self@)
    }

    /// The log has been seeded: it is never empty once `initialize` has
    /// succeeded.
    pub open spec fn initialized(&self) -> bool {
        self@.len() >= 1
    }

    /// An empty, not yet initialized log.
    pub fn new() -> (r: SnapshotStore)
        ensures
            r@ == Seq::<SnapshotModel>::empty(),
            r.wf(),
    {
        SnapshotStore { rows: Vec::new() }
    }

    /// Idempotent bootstrap: seeds an empty log with one snapshot of the
    /// given text, so the store is never empty afterwards; a log that
    /// already holds rows is left untouched.
    pub fn initialize(&mut self, document_text: String, now: u64)
        requires
            old(self).wf(),
        ensures
            final(self).wf(),
            final(self).initialized(),
            old(self)@.len() == 0 ==> final(self)@ == seq![
                SnapshotModel {
                    id: 1,
                    created_at: now,
                    document_text: document_text@,
                    selected_kernel: None,
                },
            ],
            old(self)@.len() >= 1 ==> final(self)@ == old(self)@,
    {
        if self.rows.len() == 0 {
            self.rows.push(
                Snapshot { id: 1, created_at: now, document_text, selected_kernel: None },
            );
            proof {
                assert(self@ =~= seq![
                    SnapshotModel {
                        id: 1u64,
                        created_at: now,
                        document_text: document_text@,
                        selected_kernel: None,
                    },
                ]);
            }
        }
    }

    /// Appends a new row with a strictly increasing id; never rewrites or
    /// removes existing rows. Returns the new id.
    pub fn append(&mut self, document_text: String, selected_kernel: Option<String>, now: u64) -> (r:
        u64)
        requires
            old(self).wf(),
            spec_next_id(old(self)@) <= u64::MAX,
        ensures
            final(self).wf(),
            r == spec_next_id(old(self)@),
            final(self)@ == old(self)@.push(
                SnapshotModel {
                    id: r,
                    created_at: now,
                    document_text: document_text@,
                    selected_kernel: match selected_kernel {
                        Some(k) => Some(k@),
                        None => None,
                    },
                },
            ),
    {
        let n = self.rows.len();
        let id: u64 = if n == 0 {
            1
        } else {
            self.rows[n - 1].id + 1
        };
        let ghost target = SnapshotModel {
            id,
            created_at: now,
            document_text: document_text@,
            selected_kernel: match &selected_kernel {
                Some(k) => Some(k@),
                None => None,
            },
        };
        self.rows.push(Snapshot { id, created_at: now, document_text, selected_kernel });
        proof {
            assert(self@ =~= old(self)@.push(target));
        }
        id
    }

    /// The row with the highest id; `NotFound` only before `initialize` has
    /// ever succeeded.
    pub fn latest(&self) -> (r: Result<&Snapshot, ConfigError>)
        requires
            self.wf(),
        ensures
            match r {
                Ok(s) => self@.len() >= 1 && s@ == self@.last() && (forall|i: int|
                    0 <= i < self@.len() ==> (#[trigger] self@[i].id) <= s@.id),
                Err(e) => self@.len() == 0 && e == ConfigError::NotFound,
            },
    {
        let n = self.rows.len();
        if n == 0 {
            Err(ConfigError::NotFound)
        } else {
            Ok(&self.rows[n - 1])
        }
    }

    /// All rows, oldest first.
    pub fn rows(&self) -> (r: &Vec<Snapshot>)
        ensures
            r@.map_values(|s: Snapshot| s@) == self@,
    {
        &self.rows
    }

    pub fn len(&self) -> (r: usize)
        ensures
            r == self@.len(),
    {
        self.rows.len()
    }

    /// Index of the row carrying `id`, if any.
    pub fn find(&self, id: u64) -> (r: Option<usize>)
        ensures
            match r {
                Some(i) => i < self@.len() && self@[i as int].id == id,
                None => forall|j: int| 0 <= j < self@.len() ==> (#[trigger] self@[j].id) != id,
            },
    {
        let n = self.rows.len();
        let mut i: usize = 0;
        while i < n
            invariant
                n == self@.len(),
                i <= n,
                forall|j: int| 0 <= j < i ==> (#[trigger] self@[j].id) != id,
            decreases n - i,
        {
            if self.rows[i].id == id {
                return Some(i);
            }
            i = i + 1;
        }
        None
    }

    /// Explicit administrative removal of one historical row. Refuses to
    /// empty the log (`PersistenceError`), so the store stays initialized;
    /// `NotFound` when no row carries the id. Ids of the remaining rows are
    /// untouched, so they still strictly increase.
    #[verifier::loop_isolation(false)]
    pub fn remove(&mut self, id: u64) -> (r: Result<(), ConfigError>)
        requires
            old(self).wf(),
        ensures
            final(self).wf(),
            match r {
                Ok(()) => old(self)@.len() >= 2 && exists|i: int|
                    0 <= i < old(self)@.len() && old(self)@[i].id == id && final(self)@ == old(
                        self,
                    )@.remove(i),
                Err(e) => final(self)@ == old(self)@ && ((e == ConfigError::NotFound && forall|
                    i: int,
                |
                    0 <= i < old(self)@.len() ==> (#[trigger] old(self)@[i].id) != id) || (e
                    == ConfigError::PersistenceError && old(self)@.len() == 1 && old(
                    self,
                )@[0].id == id)),
            },
    {
        let ghost ds = self@;
        let n = self.rows.len();
        let mut i: usize = 0;
        while i < n
            invariant
                ds == self@,
                n == ds.len(),
                i <= n,
                forall|j: int| 0 <= j < i ==> (#[trigger] ds[j].id) != id,
            decreases n - i,
        {
            if self.rows[i].id == id {
                if n == 1 {
                    return Err(ConfigError::PersistenceError);
                }
                self.rows.remove(i);
                proof {
                    ds.remove_ensures(i as int);
                    assert(self@.len() == ds.len() - 1);
                    assert forall|k: int| 0 <= k < self@.len() implies self@[k] == ds.remove(
                        i as int,
                    )[k] by {
                        assert(self@[k] == self.rows@[k]@);
                    }
                    assert(self@ =~= ds.remove(i as int));
                    assert forall|a: int, b: int| 0 <= a < b < self@.len() implies self@[a].id
                        < self@[b].id by {
                        let a2: int = if a < i as int { a } else { a + 1 };
                        let b2: int = if b < i as int { b } else { b + 1 };
                        assert(self@[a] == ds[a2]);
                        assert(self@[b] == ds[b2]);
                        assert(0 <= a2 < b2 < ds.len());
                        assert(ds[a2].id < ds[b2].id);
                    }
                    assert(0 <= (i as int) < ds.len() && ds[i as int].id == id && self@ == ds.remove(
                        i as int,
                    ));
                }
                return Ok(());
            }
            i = i + 1;
        }
        Err(ConfigError::NotFound)
    }
}

} // verus!
