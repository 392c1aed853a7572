//! The in-memory shape of a vault: credential entries and the vault record,
//! together with their mathematical models.
//!
//! Timestamps are kept as whole seconds since the Unix epoch, which is also
//! exactly how the payload codec serializes them.

use vstd::prelude::*;

verus! {

/// One credential record. `id` is unique within a vault and assigned by the
/// repository; `name` need not be unique, and name lookups are
/// ASCII-case-insensitive.
#[derive(Clone, Debug)]
pub struct Entry {
    pub id: u32,
    pub name: String,
    pub username: String,
    pub password: String,
    pub notes: Option<String>,
}

/// The mathematical model of an [`Entry`].
pub ghost struct EntryModel {
    pub id: u32,
    pub name: Seq<char>,
    pub username: Seq<char>,
    pub password: Seq<char>,
    pub notes: Option<Seq<char>>,
}

impl View for Entry {
    type V = EntryModel;

    open spec fn view(&self) -> EntryModel {
        EntryModel {
            id: self.id,
            name: self.name@,
            username: self.username@,
            password: self.password@,
            notes: match self.notes {
                Some(s) => Some(s@),
                None => None,
            },
        }
    }
}

/// A vault: creation and last-modification timestamps (seconds since epoch),
/// the ordered entry list, and the id watermark. Insertion order is the
/// listing order.
///
/// `next_id` is the id the next added entry receives: it stays strictly
/// above every id ever assigned in this vault's history, so ids are never
/// reused even after deletion. It is in-memory state, wide enough that the
/// u32 id space can be exhausted without overflowing it; the serialized
/// payload holds only the three persisted fields, and loading a vault
/// restarts the watermark one above the highest stored id.
#[derive(Clone, Debug)]
pub struct VaultV1 {
    pub created_at: i64,
    pub last_modified: i64,
    pub entries: Vec<Entry>,
    pub next_id: u64,
}

/// The mathematical model of a [`VaultV1`].
pub ghost struct VaultModel {
    pub created_at: i64,
    pub last_modified: i64,
    pub entries: Seq<EntryModel>,
    pub next_id: u64,
}

impl View for VaultV1 {
    type V = VaultModel;

    open spec fn view(&self) -> VaultModel {
        VaultModel {
            created_at: self.created_at,
            last_modified: self.last_modified,
            entries: self.entries@.map_values(|e: Entry| e@),
            next_id: self.next_id,
        }
    }
}

/// No two entries of the sequence share an id.
pub open spec fn ids_unique(entries: Seq<EntryModel>) -> bool {
    forall|i: int, j: int|
        0 <= i < entries.len() && 0 <= j < entries.len() && i != j
            ==> entries[i].id != entries[j].id
}

/// The vault's well-formedness: every id present lies strictly below the
/// watermark. Constructors and loading establish it, every operation keeps
/// it, and it is what makes newly assigned ids greater than all before.
pub open spec fn ids_below_watermark(v: VaultModel) -> bool {
    forall|i: int| 0 <= i < v.entries.len() ==> (#[trigger] v.entries[i]).id < v.next_id
}

} // verus!
