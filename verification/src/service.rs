//! The orchestrator: owns the single authoritative in-memory document,
//! exposes read/write/select/remove operations, triggers snapshot appends on
//! change, and counts the change notifications it raises.
//!
//! Callers (the transport layer) run every `write`/`reload` under one
//! mutual-exclusion domain, so the engine sees them as a sequence; the disk
//! write itself is the caller's, bracketed by `begin_write` and
//! `commit_write`/`abort_write`.

use crate::catalog::{menu_entry_wf, MenuEntry};
use crate::directive::DirectiveModel;
use crate::document::{
    default_key, doc_wf, first_bare_idx, first_match_idx, lemma_parse_lossless,
    lemma_serialize_parse, lookup, parse_doc, remove_backing, serialize_doc, set_doc,
    DirectiveDocument,
};
use crate::snapshot::{spec_next_id, store_wf, Snapshot, SnapshotModel, SnapshotStore};
use crate::ConfigError;
use vstd::prelude::*;

verus! {

/// Where the in-memory document stands with respect to the last persisted
/// state.
#[derive(Clone, Copy, PartialEq, Eq, Structural, Debug)]
pub enum ServiceState {
    /// Matches the on-disk file and the latest snapshot.
    Clean,
    /// A validated write replaced the in-memory document; its disk write is
    /// still in flight.
    Dirty,
    /// Re-reading after an external change notification.
    Reloading,
}

/// Mathematical model of a [`ConfigService`].
pub ghost struct ServiceModel {
    pub doc: Seq<DirectiveModel>,
    pub pending: Option<Seq<DirectiveModel>>,
    pub store: Seq<SnapshotModel>,
    pub state: ServiceState,
    pub notifications: u64,
}

/// The service invariant: a well-formed document, a seeded monotonic store
/// whose rows all parse, and a rollback copy exactly while a write is in
/// flight.
pub open spec fn service_wf(m: ServiceModel) -> bool {
    &&& doc_wf(m.doc)
    &&& store_wf(m.store)
    &&& m.store.len() >= 1
    &&& (m.state == ServiceState::Dirty <==> m.pending is Some)
    &&& (m.pending is Some ==> doc_wf(m.pending.unwrap()))
    &&& forall|i: int|
        0 <= i < m.store.len() ==> parse_doc(#[trigger] m.store[i].document_text) is Some
}

/// The state after one accepted write of text `t` at time `now`: the parsed
/// candidate replaces the document, one snapshot holding exactly `t` is
/// appended with the next id, and one change notification is raised.
pub open spec fn write_post(m: ServiceModel, t: Seq<char>, now: u64) -> ServiceModel {
    ServiceModel {
        doc: parse_doc(t).unwrap(),
        pending: None,
        store: m.store.push(
            SnapshotModel {
                id: spec_next_id(m.store) as u64,
                created_at: now,
                document_text: t,
                selected_kernel: None,
            },
        ),
        state: ServiceState::Clean,
        notifications: (m.notifications + 1) as u64,
    }
}

/// The configuration-state engine behind the IPC surface.
pub struct ConfigService {
    doc: DirectiveDocument,
    pending_rollback: Option<DirectiveDocument>,
    store: SnapshotStore,
    state: ServiceState,
    notifications: u64,
}

impl View for ConfigService {
    type V = ServiceModel;

    closed spec fn view(&self) -> ServiceModel {
        ServiceModel {
            doc: self.doc@,
            pending: match self.pending_rollback {
                Some(d) => Some(d@),
                None => None,
            },
            store: self.store@,
            state: self.state,
            notifications: self.notifications,
        }
    }
}

impl ConfigService {
    pub open spec fn wf(&self) -> bool {
        service_wf(self@)
    }

    /// Bootstrap from the current on-disk text: parses it and seeds the
    /// historical log with one snapshot holding exactly that text.
    /// `ParseError` if and only if the text cannot be represented; the store
    /// is then never created.
    pub fn new(disk_text: &str, now: u64) -> (r: Result<ConfigService, ConfigError>)
        ensures
            match r {
                Ok(s) => {
                    &&& parse_doc(disk_text@) is Some
                    &&& s.wf()
                    &&& s@.doc == parse_doc(disk_text@).unwrap()
                    &&& s@.store == seq![
                        SnapshotModel {
                            id: 1u64,
                            created_at: now,
                            document_text: disk_text@,
                            selected_kernel: None,
                        },
                    ]
                    &&& s@.state == ServiceState::Clean
                    &&& s@.notifications == 0
                },
                Err(e) => parse_doc(disk_text@) is None && e == ConfigError::ParseError,
            },
    {
        let doc = match DirectiveDocument::parse(disk_text) {
            Ok(d) => d,
            Err(e) => {
                return Err(e);
            },
        };
        let seed = doc.serialize();
        proof {
            lemma_parse_lossless(disk_text@);
        }
        let mut store = SnapshotStore::new();
        store.initialize(seed, now);
        Ok(
            ConfigService {
                doc,
                pending_rollback: None,
                store,
                state: ServiceState::Clean,
                notifications: 0,
            },
        )
    }

    /// The in-memory document's text; never blocks on disk and is available
    /// in any state.
    pub fn read(&self) -> (r: String)
        requires
            self.wf(),
        ensures
            r@ == serialize_doc(self@.doc),
    {
        self.doc.serialize()
    }

    /// The in-memory document itself, for read-side projections.
    pub fn document(&self) -> (r: &DirectiveDocument)
        ensures
            r@ == self@.doc,
    {
        &self.doc
    }

    /// The historical log.
    pub fn store(&self) -> (r: &SnapshotStore)
        ensures
            r@ == self@.store,
    {
        &self.store
    }

    /// How many change notifications have been raised so far.
    pub fn notifications(&self) -> (r: u64)
        ensures
            r == self@.notifications,
    {
        self.notifications
    }

    pub fn state(&self) -> (r: ServiceState)
        ensures
            r == self@.state,
    {
        self.state
    }

    /// The latest snapshot: the row with the highest id.
    pub fn latest_snapshot(&self) -> (r: &Snapshot)
        requires
            self.wf(),
        ensures
            r@ == self@.store.last(),
    {
        match self.store.latest() {
            Ok(s) => s,
            Err(_) => unreached(),
        }
    }

    /// The whole in-memory write path: validate, replace the document,
    /// append a snapshot, notify. `ParseError` if and only if the text is
    /// unparseable, and then nothing at all has changed (write atomicity).
    pub fn write(&mut self, new_text: &str, now: u64) -> (r: Result<u64, ConfigError>)
        requires
            old(self).wf(),
            old(self)@.state == ServiceState::Clean,
            spec_next_id(old(self)@.store) <= u64::MAX,
            old(self)@.notifications < u64::MAX,
        ensures
            final(self).wf(),
            match r {
                Ok(id) => {
                    &&& parse_doc(new_text@) is Some
                    &&& id == spec_next_id(old(self)@.store)
                    &&& final(self)@ == write_post(old(self)@, new_text@, now)
                },
                Err(e) => {
                    &&& parse_doc(new_text@) is None
                    &&& e == ConfigError::ParseError
                    &&& *final(self) == *old(self)
                },
            },
    {
        let cand = match DirectiveDocument::parse(new_text) {
            Ok(d) => d,
            Err(e) => {
                return Err(e);
            },
        };
        // validate, then mutate memory, then persist, then notify
        self.doc = cand;
        let text = self.doc.serialize();
        proof {
            lemma_parse_lossless(new_text@);
        }
        let id = self.store.append(text, None, now);
        self.notifications = self.notifications + 1;
        self.state = ServiceState::Clean;
        Ok(id)
    }

    /// First half of a disk-coupled write: validates and replaces the
    /// in-memory document, keeping the old one for rollback, and hands back
    /// the exact text the caller must put on disk. On `ParseError` nothing
    /// has changed: the bad text never reaches the disk or the log.
    pub fn begin_write(&mut self, new_text: &str) -> (r: Result<String, ConfigError>)
        requires
            old(self).wf(),
            old(self)@.state == ServiceState::Clean,
        ensures
            final(self).wf(),
            match r {
                Ok(t) => {
                    &&& parse_doc(new_text@) is Some
                    &&& t@ == new_text@
                    &&& final(self)@ == (ServiceModel {
                        doc: parse_doc(new_text@).unwrap(),
                        pending: Some(old(self)@.doc),
                        state: ServiceState::Dirty,
                        ..old(self)@
                    })
                },
                Err(e) => {
                    &&& parse_doc(new_text@) is None
                    &&& e == ConfigError::ParseError
                    &&& *final(self) == *old(self)
                },
            },
    {
        let mut cand = match DirectiveDocument::parse(new_text) {
            Ok(d) => d,
            Err(e) => {
                return Err(e);
            },
        };
        core::mem::swap(&mut self.doc, &mut cand);
        self.pending_rollback = Some(cand);
        self.state = ServiceState::Dirty;
        let text = self.doc.serialize();
        proof {
            lemma_parse_lossless(new_text@);
        }
        Ok(text)
    }

    /// Second half after the disk write succeeded: appends the snapshot,
    /// drops the rollback copy, and notifies.
    pub fn commit_write(&mut self, now: u64) -> (id: u64)
        requires
            old(self).wf(),
            old(self)@.state == ServiceState::Dirty,
            spec_next_id(old(self)@.store) <= u64::MAX,
            old(self)@.notifications < u64::MAX,
        ensures
            final(self).wf(),
            id == spec_next_id(old(self)@.store),
            final(self)@ == write_post(old(self)@, serialize_doc(old(self)@.doc), now),
    {
        let text = self.doc.serialize();
        proof {
            lemma_serialize_parse(self@.doc);
        }
        let id = self.store.append(text, None, now);
        self.pending_rollback = None;
        self.notifications = self.notifications + 1;
        self.state = ServiceState::Clean;
        id
    }

    /// Second half after the disk write failed: rolls the in-memory document
    /// back to the last known-good one; the log and the notification count
    /// are untouched. The caller surfaces `PersistenceError`.
    pub fn abort_write(&mut self)
        requires
            old(self).wf(),
            old(self)@.state == ServiceState::Dirty,
        ensures
            final(self).wf(),
            final(self)@ == (ServiceModel {
                doc: old(self)@.pending.unwrap(),
                pending: None,
                state: ServiceState::Clean,
                ..old(self)@
            }),
    {
        let mut tmp: Option<DirectiveDocument> = None;
        core::mem::swap(&mut self.pending_rollback, &mut tmp);
        match tmp {
            Some(d) => {
                self.doc = d;
            },
            None => unreached(),
        }
        self.state = ServiceState::Clean;
    }

    /// Triggered by the change watcher: re-parses the on-disk text and
    /// replaces the in-memory document even when the text is identical (the
    /// watch signal already implies a modification), then raises exactly one
    /// notification, so subscribers always learn about external edits. The
    /// log is untouched: snapshots capture accepted writes, not external
    /// edits. An unparseable external edit is surfaced as `ParseError` and
    /// the last known-good document keeps being served, unchanged.
    pub fn reload(&mut self, disk_text: &str) -> (r: Result<(), ConfigError>)
        requires
            old(self).wf(),
            old(self)@.state == ServiceState::Clean,
            old(self)@.notifications < u64::MAX,
        ensures
            final(self).wf(),
            match r {
                Ok(()) => {
                    &&& parse_doc(disk_text@) is Some
                    &&& final(self)@ == (ServiceModel {
                        doc: parse_doc(disk_text@).unwrap(),
                        notifications: (old(self)@.notifications + 1) as u64,
                        ..old(self)@
                    })
                    &&& serialize_doc(final(self)@.doc) == disk_text@
                },
                Err(e) => {
                    &&& parse_doc(disk_text@) is None
                    &&& e == ConfigError::ParseError
                    &&& *final(self) == *old(self)
                },
            },
    {
        self.state = ServiceState::Reloading;
        match DirectiveDocument::parse(disk_text) {
            Ok(d) => {
                self.doc = d;
                self.notifications = self.notifications + 1;
                self.state = ServiceState::Clean;
                proof {
                    lemma_parse_lossless(disk_text@);
                }
                Ok(())
            },
            Err(e) => {
                self.state = ServiceState::Clean;
                proof {
                    assert(*self =~= *old(self));
                }
                Err(e)
            },
        }
    }

    /// Selects a boot entry: records its identifier as the default in the
    /// document and routes the result through `write`, so a snapshot is
    /// appended and subscribers are notified. `NotFound` (nothing changed)
    /// when the index is out of range.
    pub fn select_entry(&mut self, menu: &Vec<MenuEntry>, idx: usize, now: u64) -> (r: Result<
        u64,
        ConfigError,
    >)
        requires
            old(self).wf(),
            old(self)@.state == ServiceState::Clean,
            spec_next_id(old(self)@.store) <= u64::MAX,
            old(self)@.notifications < u64::MAX,
            forall|i: int| 0 <= i < menu@.len() ==> menu_entry_wf(#[trigger] menu@[i]@),
        ensures
            final(self).wf(),
            match r {
                Ok(id) => {
                    &&& idx < menu@.len()
                    &&& id == spec_next_id(old(self)@.store)
                    &&& ({
                        let ds2 = set_doc(old(self)@.doc, default_key(), menu@[idx as int].identifier@);
                        &&& final(self)@ == write_post(old(self)@, serialize_doc(ds2), now)
                        &&& final(self)@.doc == ds2
                        &&& lookup(final(self)@.doc, default_key()) == Some(
                            menu@[idx as int].identifier@,
                        )
                    })
                },
                Err(e) => e == ConfigError::NotFound && idx >= menu@.len() && *final(self)
                    == *old(self),
            },
    {
        if idx >= menu.len() {
            return Err(ConfigError::NotFound);
        }
        let ghost pre = self@;
        proof {
            reveal_strlit("GRUB_DEFAULT");
            assert(crate::directive::valid_key(default_key()));
            assert(menu_entry_wf(menu@[idx as int]@));
        }
        self.doc.set("GRUB_DEFAULT", menu[idx].identifier.as_str());
        let text = self.doc.serialize();
        proof {
            lemma_serialize_parse(self@.doc);
        }
        let ghost mid = self@;
        let r = self.write(text.as_str(), now);
        proof {
            assert(parse_doc(text@) is Some);
            assert(r is Ok);
            assert(write_post(mid, text@, now) == write_post(pre, text@, now));
        }
        match r {
            Ok(id) => Ok(id),
            Err(_) => unreached(),
        }
    }

    /// Removes a boot entry's backing directive (the first bare line whose
    /// value is the entry's identifier), if any, and routes the updated text
    /// through `write`: even when no backing directive exists the write is
    /// taken, so a snapshot is appended and subscribers are notified.
    /// `NotFound` (nothing changed) when the index is out of range.
    pub fn remove_entry(&mut self, menu: &Vec<MenuEntry>, idx: usize, now: u64) -> (r: Result<
        u64,
        ConfigError,
    >)
        requires
            old(self).wf(),
            old(self)@.state == ServiceState::Clean,
            spec_next_id(old(self)@.store) <= u64::MAX,
            old(self)@.notifications < u64::MAX,
        ensures
            final(self).wf(),
            match r {
                Ok(id) => {
                    &&& idx < menu@.len()
                    &&& id == spec_next_id(old(self)@.store)
                    &&& ({
                        let ds2 = remove_backing(old(self)@.doc, menu@[idx as int].identifier@);
                        &&& final(self)@ == write_post(old(self)@, serialize_doc(ds2), now)
                        &&& (ds2.len() >= 1 ==> final(self)@.doc == ds2)
                    })
                },
                Err(e) => e == ConfigError::NotFound && idx >= menu@.len() && *final(self)
                    == *old(self),
            },
    {
        if idx >= menu.len() {
            return Err(ConfigError::NotFound);
        }
        let ghost pre = self@;
        let (_, text) = self.doc.serialize_without_bare(menu[idx].identifier.as_str());
        let ghost ds2 = remove_backing(pre.doc, menu@[idx as int].identifier@);
        proof {
            crate::document::lemma_remove_backing_wf(pre.doc, menu@[idx as int].identifier@);
            if ds2.len() >= 1 {
                lemma_serialize_parse(ds2);
            } else {
                assert(Seq::new(ds2.len(), |k: int| crate::directive::serialize_line(ds2[k])).len()
                    == 0);
                assert(text@.len() == 0);
                crate::document::lemma_empty_doc_parses(text@);
            }
        }
        let r = self.write(text.as_str(), now);
        proof {
            assert(r is Ok);
        }
        match r {
            Ok(id) => Ok(id),
            Err(_) => unreached(),
        }
    }

    /// Deliberate administrative removal of one historical snapshot; the
    /// document, the state and the notification count are untouched. The
    /// log's monotonicity and its seed survive: removal refuses to empty it.
    pub fn remove_snapshot(&mut self, id: u64) -> (r: Result<(), ConfigError>)
        requires
            old(self).wf(),
        ensures
            final(self).wf(),
            final(self)@.doc == old(self)@.doc,
            final(self)@.pending == old(self)@.pending,
            final(self)@.state == old(self)@.state,
            final(self)@.notifications == old(self)@.notifications,
            match r {
                Ok(()) => old(self)@.store.len() >= 2 && exists|i: int|
                    0 <= i < old(self)@.store.len() && old(self)@.store[i].id == id && final(self)@.store == old(self)@.store.remove(i),
                Err(e) => final(self)@.store == old(self)@.store && (e == ConfigError::NotFound
                    || e == ConfigError::PersistenceError),
            },
    {
        let ghost st = self@.store;
        let r = self.store.remove(id);
        proof {
            if r is Ok {
                let i = choose|i: int|
                    0 <= i < st.len() && st[i].id == id && self@.store == st.remove(i);
                st.remove_ensures(i);
                assert forall|k: int|
                    0 <= k < self@.store.len() implies parse_doc(
                    #[trigger] self@.store[k].document_text,
                ) is Some by {
                    if k < i {
                        assert(self@.store[k] == st[k]);
                    } else {
                        assert(self@.store[k] == st[k + 1]);
                    }
                }
            }
        }
        r
    }
}

/// IPC configuration surface (`GetConfig`/`SaveConfig`): the transport layer
/// holds the shared service behind its mutual-exclusion domain and passes it
/// in per call.
pub struct BootKitConfig;

impl BootKitConfig {
    /// The serialized current document.
    pub fn get_config(service: &ConfigService) -> (r: String)
        requires
            service.wf(),
        ensures
            r@ == serialize_doc(service@.doc),
    {
        service.read()
    }

    /// Validates and applies new configuration text through the write path.
    pub fn save_config(service: &mut ConfigService, data: &str, now: u64) -> (r: Result<
        u64,
        ConfigError,
    >)
        requires
            old(service).wf(),
            old(service)@.state == ServiceState::Clean,
            spec_next_id(old(service)@.store) <= u64::MAX,
            old(service)@.notifications < u64::MAX,
        ensures
            final(service).wf(),
            match r {
                Ok(id) => parse_doc(data@) is Some && id == spec_next_id(old(service)@.store)
                    && final(service)@ == write_post(old(service)@, data@, now),
                Err(e) => parse_doc(data@) is None && e == ConfigError::ParseError && *final(service) == *old(service),
            },
    {
        service.write(data, now)
    }
}

/// IPC snapshot surface (`GetSnapshots`/`SelectSnapshot`/`RemoveSnapshot`).
pub struct BootKitSnapshots;

impl BootKitSnapshots {
    /// All historical snapshots, oldest first; the transport serializes.
    pub fn get_snapshots(service: &ConfigService) -> (r: &Vec<Snapshot>)
        ensures
            r@.map_values(|s: Snapshot| s@) == service@.store,
    {
        service.store().rows()
    }

    /// Restores a historical snapshot: routes its recorded text back through
    /// the write path, so restoration itself is versioned and notified.
    /// `NotFound` (nothing changed) when no row carries the id.
    pub fn select_snapshot(service: &mut ConfigService, id: u64, now: u64) -> (r: Result<
        u64,
        ConfigError,
    >)
        requires
            old(service).wf(),
            old(service)@.state == ServiceState::Clean,
            spec_next_id(old(service)@.store) <= u64::MAX,
            old(service)@.notifications < u64::MAX,
        ensures
            final(service).wf(),
            match r {
                Ok(nid) => nid == spec_next_id(old(service)@.store) && exists|i: int|
                    0 <= i < old(service)@.store.len() && (#[trigger] old(service)@.store[i].id) == id && final(service)@ == write_post(
                        old(service)@,
                        old(service)@.store[i].document_text,
                        now,
                    ),
                Err(e) => e == ConfigError::NotFound && *final(service) == *old(service) && (
                forall|i: int|
                    0 <= i < old(service)@.store.len() ==> (#[trigger] old(service)@.store[i].id) != id),
            },
    {
        let idx = match service.store().find(id) {
            None => {
                return Err(ConfigError::NotFound);
            },
            Some(i) => i,
        };
        let ghost pre = service@;
        let text = service.store().rows()[idx].document_text.clone();
        proof {
            assert(parse_doc(text@) is Some);
        }
        let r = service.write(text.as_str(), now);
        match r {
            Ok(nid) => {
                proof {
                    assert(pre.store[idx as int].id == id && final(service)@ == write_post(
                        pre,
                        pre.store[idx as int].document_text,
                        now,
                    ));
                }
                Ok(nid)
            },
            Err(_) => unreached(),
        }
    }

    /// Deliberate administrative removal of one historical snapshot.
    pub fn remove_snapshot(service: &mut ConfigService, id: u64) -> (r: Result<(), ConfigError>)
        requires
            old(service).wf(),
        ensures
            final(service).wf(),
            match r {
                Ok(()) => old(service)@.store.len() >= 2 && exists|i: int|
                    0 <= i < old(service)@.store.len() && old(service)@.store[i].id == id && final(service)@.store == old(service)@.store.remove(i),
                Err(e) => final(service)@.store == old(service)@.store && (e
                    == ConfigError::NotFound || e == ConfigError::PersistenceError),
            },
    {
        service.remove_snapshot(id)
    }
}

/// One write after another, in the order the mutual-exclusion domain admits
/// them.
pub open spec fn apply_writes(m: ServiceModel, ws: Seq<(Seq<char>, u64)>) -> ServiceModel
    decreases ws.len(),
{
    if ws.len() == 0 {
        m
    } else {
        apply_writes(write_post(m, ws[0].0, ws[0].1), ws.drop_first())
    }
}

/// One accepted write preserves the service invariant: the store grows by
/// exactly one row whose id lies strictly above every earlier id, and the
/// rows already present are untouched.
pub proof fn lemma_write_post_wf(m: ServiceModel, t: Seq<char>, now: u64)
    requires
        service_wf(m),
        parse_doc(t) is Some,
        spec_next_id(m.store) <= u64::MAX,
        m.notifications < u64::MAX,
    ensures
        service_wf(write_post(m, t, now)),
        write_post(m, t, now).state == ServiceState::Clean,
        write_post(m, t, now).store.len() == m.store.len() + 1,
        write_post(m, t, now).store.last().id == spec_next_id(m.store),
        write_post(m, t, now).store.last().document_text == t,
        write_post(m, t, now).notifications == m.notifications + 1,
        forall|i: int| 0 <= i < m.store.len() ==> write_post(m, t, now).store[i] == m.store[i],
{
    lemma_parse_lossless(t);
    let m2 = write_post(m, t, now);
    assert forall|i: int, j: int| 0 <= i < j < m2.store.len() implies m2.store[i].id
        < m2.store[j].id by {
        if j == m.store.len() as int {
            assert(m2.store[j].id == spec_next_id(m.store));
            assert(m2.store[i] == m.store[i]);
            if i < m.store.len() - 1 {
                assert(m.store[i].id < m.store[m.store.len() - 1].id);
            }
        } else {
            assert(m2.store[i] == m.store[i] && m2.store[j] == m.store[j]);
        }
    }
}

/// Concurrency isolation under the single-writer discipline: `N` writes with
/// parseable texts, taken in the order in which they enter the critical
/// section, append exactly `N` snapshots; ids stay strictly increasing, rows
/// already present are untouched, exactly one notification is raised per
/// write, and the final in-memory document is the last write's text.
pub proof fn lemma_write_sequence(m: ServiceModel, ws: Seq<(Seq<char>, u64)>)
    requires
        service_wf(m),
        forall|i: int| 0 <= i < ws.len() ==> parse_doc((#[trigger] ws[i]).0) is Some,
        spec_next_id(m.store) + ws.len() <= u64::MAX + 1,
        m.notifications + ws.len() <= u64::MAX,
    ensures
        service_wf(apply_writes(m, ws)),
        apply_writes(m, ws).store.len() == m.store.len() + ws.len(),
        apply_writes(m, ws).notifications == m.notifications + ws.len(),
        forall|i: int| 0 <= i < m.store.len() ==> apply_writes(m, ws).store[i] == m.store[i],
        ws.len() > 0 ==> apply_writes(m, ws).state == ServiceState::Clean && apply_writes(
            m,
            ws,
        ).doc == parse_doc(ws.last().0).unwrap() && apply_writes(m, ws).store.last().document_text
            == ws.last().0,
    decreases ws.len(),
{
    if ws.len() > 0 {
        lemma_write_post_wf(m, ws[0].0, ws[0].1);
        let m2 = write_post(m, ws[0].0, ws[0].1);
        let rest = ws.drop_first();
        assert(spec_next_id(m2.store) == spec_next_id(m.store) + 1);
        assert forall|i: int| 0 <= i < rest.len() implies parse_doc(
            (#[trigger] rest[i]).0,
        ) is Some by {
            assert(rest[i] == ws[i + 1]);
        }
        lemma_write_sequence(m2, rest);
        if rest.len() > 0 {
            assert(rest.last() == ws.last());
        }
        assert forall|i: int| 0 <= i < m.store.len() implies apply_writes(m, ws).store[i]
            == m.store[i] by {
            assert(apply_writes(m, ws).store[i] == apply_writes(m2, rest).store[i]);
            assert(apply_writes(m2, rest).store[i] == m2.store[i]);
        }
    }
}

} // verus!
