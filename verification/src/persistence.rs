//! Coordination of ledger saves (at most one save runs at a time, and a save
//! that has to give way leaves a mark so that it is retried), and the choice
//! of where the ledger is loaded from at start.
use vstd::prelude::*;

verus! {

/// The two save flags: a save is running; the ledger changed since the last
/// completed save.
#[derive(Clone, Copy, Debug, PartialEq, Eq, Structural)]
pub struct SaveFlags {
    pub in_progress: bool,
    pub dirty: bool,
}

/// What to do with a save request.
#[derive(Clone, Copy, Debug, PartialEq, Eq, Structural)]
pub enum SaveAction {
    /// Write the ledger now.
    Save,
    /// Another save is running; the request is recorded as pending.
    Defer,
}

/// The answer to a save request and the flags afterwards: a forced save always
/// runs; another runs only when none is in progress, else it is deferred and
/// the ledger marked dirty.
pub open spec fn request_save(f: SaveFlags, force: bool) -> (SaveAction, SaveFlags) {
    if !force && f.in_progress {
        (SaveAction::Defer, SaveFlags { in_progress: true, dirty: true })
    } else {
        (SaveAction::Save, SaveFlags { in_progress: true, dirty: f.dirty })
    }
}

impl SaveFlags {
    /// No save running, nothing pending.
    pub fn new() -> (r: Self)
        ensures
            r == (SaveFlags { in_progress: false, dirty: false }),
    {
        SaveFlags { in_progress: false, dirty: false }
    }

    /// Decides a save request (see `request_save`).
    pub fn begin_save(&mut self, force: bool) -> (a: SaveAction)
        ensures
            (a, *final(self)) == request_save(*old(self), force),
    {
        if !force && self.in_progress {
            self.dirty = true;
            return SaveAction::Defer;
        }
        self.in_progress = true;
        SaveAction::Save
    }

    /// Records that the running save completed (whether the database or the
    /// fallback file took it): nothing runs and nothing is pending.
    pub fn finish_save(&mut self)
        ensures
            *final(self) == (SaveFlags { in_progress: false, dirty: false }),
    {
        self.in_progress = false;
        self.dirty = false;
    }

    /// Records a change of the ledger that a later save must write.
    pub fn mark_dirty(&mut self)
        ensures
            *final(self) == (SaveFlags { dirty: true, ..*old(self) }),
    {
        self.dirty = true;
    }
}

/// Two saves never run at once unless one is forced, and a deferred request
/// is never lost: it leaves the ledger marked dirty.
pub proof fn lemma_saves_exclusive(f: SaveFlags, force: bool)
    ensures
        f.in_progress && !force ==> request_save(f, force).0 == SaveAction::Defer,
        request_save(f, force).0 == SaveAction::Defer ==> request_save(f, force).1.dirty,
        request_save(f, force).1.in_progress,
{
}

/// Where the ledger is loaded from at start.
#[derive(Clone, Copy, Debug, PartialEq, Eq, Structural)]
pub enum LoadSource {
    /// The database, which holds a ledger that loaded.
    Database,
    /// The legacy JSON file, migrated into the database (the file is renamed
    /// once the database has taken it).
    LegacyFile,
    /// A new, empty ledger.
    Fresh,
}

/// The source of the ledger: the database when it is not empty and its
/// ledger loads; else the legacy file when it exists, reads and parses; else
/// a new ledger.
pub open spec fn load_source(db_empty: bool, db_loaded: bool, legacy_parsed: bool) -> LoadSource {
    if !db_empty && db_loaded {
        LoadSource::Database
    } else if legacy_parsed {
        LoadSource::LegacyFile
    } else {
        LoadSource::Fresh
    }
}

/// Chooses where the ledger is loaded from (see `load_source`): `db_empty`
/// says whether the database is empty, `db_loaded` whether its ledger loaded
/// (only asked when it is not empty), `legacy_parsed` whether the legacy file
/// exists, reads and parses (only asked when the database gave no ledger).
pub fn load_choice(db_empty: bool, db_loaded: bool, legacy_parsed: bool) -> (r: LoadSource)
    ensures
        r == load_source(db_empty, db_loaded, legacy_parsed),
{
    if !db_empty && db_loaded {
        LoadSource::Database
    } else if legacy_parsed {
        LoadSource::LegacyFile
    } else {
        LoadSource::Fresh
    }
}

/// A database that holds a ledger that loads always wins, and an existing
/// ledger is never replaced by a new one while either source gives one.
pub proof fn lemma_load_prefers_existing(db_empty: bool, db_loaded: bool, legacy_parsed: bool)
    ensures
        !db_empty && db_loaded ==> load_source(db_empty, db_loaded, legacy_parsed) == LoadSource::Database,
        load_source(db_empty, db_loaded, legacy_parsed) == LoadSource::Fresh ==> !legacy_parsed
            && (db_empty || !db_loaded),
{
}

} // verus!
