//! The shared slot holding the current index, and the loading of the index
//! and of the audit record into their slots.

use vstd::prelude::*;
use crate::audit::{AuditStore, FailLogEntry, loaded_from, misses_recorded, occurrences};
use crate::keywords::views;
use crate::morsels::MorselEntry;
use crate::trigrams::{BuildError, Named, Trigrams, some_unnamed};

verus! {

/// Why the index could not be read.
#[derive(Clone, Copy, Debug, PartialEq, Eq, Structural)]
pub enum StoreError {
    /// No index was loaded yet.
    NotInitialized,
}

/// At most one index, replaced whole.
pub struct IndexStore<T> {
    slot: Option<Trigrams<T>>,
}

impl<T: Named> IndexStore<T> {
    /// The index held, if any.
    pub closed spec fn current(&self) -> Option<Trigrams<T>> {
        self.slot
    }

    /// The slot holds a well-formed index or nothing.
    pub closed spec fn wf(&self) -> bool {
        self.slot matches Some(t) ==> t.wf()
    }

    /// An empty slot.
    pub fn new() -> (r: IndexStore<T>)
        ensures
            r.current() is None,
            r.wf(),
    {
        IndexStore { slot: None }
    }

    /// The index held, or `NotInitialized` before the first load.
    pub fn get(&self) -> (r: Result<&Trigrams<T>, StoreError>)
        requires
            self.wf(),
        ensures
            self.current() is None ==> r == Err::<&Trigrams<T>, StoreError>(StoreError::NotInitialized),
            self.current() matches Some(t) ==> (r matches Ok(g) && *g == t && g.wf()),
    {
        match &self.slot {
            Some(t) => Ok(t),
            None => Err(StoreError::NotInitialized),
        }
    }

    /// Puts `index` in place of whatever was held: afterwards the slot holds
    /// exactly `index`, nothing of the previous one.
    pub fn replace(&mut self, index: Trigrams<T>)
        requires
            index.wf(),
        ensures
            final(self).current() == Some(index),
            final(self).wf(),
    {
        self.slot = Some(index);
    }
}

/// Builds the index from the documents read and puts it in the slot; when an
/// item has no name the slot is left as it was.
pub fn init_morsels(store: &mut IndexStore<MorselEntry>, entries: Vec<MorselEntry>) -> (r: Result<(), BuildError>)
    requires
        old(store).wf(),
    ensures
        final(store).wf(),
        r is Err <==> some_unnamed(entries@),
        r is Err ==> final(store).current() == old(store).current(),
        r is Ok ==> (final(store).current() matches Some(t) && t.built_from(entries@)),
{
    match Trigrams::new(entries) {
        Ok(t) => {
            proof {
                t.lemma_built_wf(entries@);
            }
            store.replace(t);
            Ok(())
        },
        Err(e) => Err(e),
    }
}

/// What was found at the audit record's path.
pub enum SavedLog {
    /// No path is configured.
    NoPath,
    /// The file could not be opened.
    Unreadable,
    /// The file held these entries.
    Parsed(Vec<FailLogEntry>),
    /// The file could not be parsed.
    Malformed,
}

/// Why the audit record was not set up.
#[derive(Clone, Copy, Debug, PartialEq, Eq, Structural)]
pub enum AuditInitError {
    /// The saved record could not be parsed.
    Malformed,
    /// The record was set up already.
    AlreadyInitialized,
}

/// Sets up the audit record from what was found at its path: nothing to do
/// without a path, an empty record when the file cannot be opened, the saved
/// entries when it parses, an error when it does not. With a path, a record
/// set up already is left alone and the call is refused.
pub fn init_failed_keywords(store: &mut Option<AuditStore>, saved: SavedLog) -> (r: Result<(), AuditInitError>)
    requires
        *old(store) matches Some(s) ==> s.wf(),
    ensures
        *final(store) matches Some(s) ==> s.wf(),
        saved is NoPath ==> r is Ok && *final(store) == *old(store),
        (*old(store) is Some && !(saved is NoPath)) ==> r == Err::<(), AuditInitError>(
            AuditInitError::AlreadyInitialized,
        ) && *final(store) == *old(store),
        (*old(store) is None && saved is Unreadable) ==> r is Ok && (*final(store) matches Some(s)
            && s.view().len() == 0),
        (*old(store) is None && saved is Malformed) ==> r == Err::<(), AuditInitError>(AuditInitError::Malformed)
            && *final(store) is None,
        *old(store) is None ==> (saved matches SavedLog::Parsed(entries) ==> r is Ok && (
        *final(store) matches Some(s) && loaded_from(s.view(), entries@))),
{
    if let SavedLog::NoPath = saved {
        return Ok(());
    }
    if store.is_some() {
        return Err(AuditInitError::AlreadyInitialized);
    }
    match saved {
        SavedLog::NoPath => Ok(()),
        SavedLog::Unreadable => {
            *store = Some(AuditStore::new());
            Ok(())
        },
        SavedLog::Parsed(entries) => {
            *store = Some(AuditStore::from_entries(entries));
            Ok(())
        },
        SavedLog::Malformed => Err(AuditInitError::Malformed),
    }
}

/// Records a miss of each keyword. Returns the entries to write out when the
/// record is kept on file; nothing when there are no keywords or no record.
pub fn log_failed_keywords(store: &mut Option<AuditStore>, keywords: &Vec<String>, persist: bool) -> (r: Option<Vec<FailLogEntry>>)
    requires
        *old(store) matches Some(s) ==> s.wf(),
    ensures
        *final(store) matches Some(s) ==> s.wf(),
        (keywords.len() == 0 || *old(store) is None) ==> r is None && *final(store) == *old(store),
        (keywords.len() > 0 && *old(store) is Some) ==> *final(store) is Some && (r is Some <==> persist),
        *old(store) matches Some(s0) ==> (*final(store) matches Some(s1) && misses_recorded(
            s0.view(),
            s1.view(),
            views(keywords@),
        )),
        r matches Some(saved) ==> (*final(store) matches Some(s) && saved@.map_values(
            |e: FailLogEntry| e.view(),
        ) == s.view()),
{
    if keywords.len() == 0 {
        proof {
            assert forall|k: Seq<char>| occurrences(views(keywords@), k) == 0 by {
                assert(views(keywords@).len() == 0);
            }
        }
        return None;
    }
    match store {
        Some(s) => {
            s.record_misses(keywords);
            if persist {
                Some(s.snapshot())
            } else {
                None
            }
        },
        None => None,
    }
}

} // verus!
