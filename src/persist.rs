//! Validity of persisted state: a persisted blob belongs to one drive and
//! one change-journal epoch, and is stale once the journal is recreated.

use vstd::prelude::*;

verus! {

/// The version written into persisted blobs.
pub const PERSIST_VERSION: u32 = 1;

/// The header of a persisted blob.
#[derive(Clone, Copy, Debug, PartialEq, Eq, Structural)]
pub struct BlobHeader {
    pub version: u32,
    pub drive: u8,
    pub journal_id: u64,
}

/// A blob is accepted for `drive` when its version and drive match and it
/// was written under the journal that the volume has now. A current id of
/// zero means that the journal could not be queried.
pub open spec fn accepts(h: BlobHeader, drive: u8, current_journal_id: u64) -> bool {
    current_journal_id != 0 && h.version == PERSIST_VERSION && h.drive == drive && h.journal_id
        == current_journal_id
}

/// Whether a persisted blob with this header may be loaded.
pub fn accept_blob(h: &BlobHeader, drive: u8, current_journal_id: u64) -> (r: bool)
    ensures
        r == accepts(*h, drive, current_journal_id),
{
    current_journal_id != 0 && h.version == PERSIST_VERSION && h.drive == drive && h.journal_id
        == current_journal_id
}

/// The header to write for `drive` under journal `journal_id`.
pub fn header_for(drive: u8, journal_id: u64) -> (r: BlobHeader)
    ensures
        r == (BlobHeader { version: PERSIST_VERSION, drive, journal_id }),
{
    BlobHeader { version: PERSIST_VERSION, drive, journal_id }
}

/// What to do with a volume's index at start-up.
#[derive(Clone, Copy, Debug, PartialEq, Eq, Structural)]
pub enum StartAction {
    /// Load the persisted blob.
    Load,
    /// Enumerate the volume and build afresh (deleting a stale blob).
    Rebuild,
}

/// Load a persisted index only when its blob is accepted; otherwise rebuild.
pub fn start_action(persisted: Option<BlobHeader>, drive: u8, current_journal_id: u64) -> (r:
    StartAction)
    ensures
        r == (if persisted is Some && accepts(persisted->0, drive, current_journal_id) {
            StartAction::Load
        } else {
            StartAction::Rebuild
        }),
{
    match persisted {
        Some(h) => {
            if accept_blob(&h, drive, current_journal_id) {
                StartAction::Load
            } else {
                StartAction::Rebuild
            }
        },
        None => StartAction::Rebuild,
    }
}

/// A blob written for a drive under its current journal is accepted for that
/// drive exactly as long as the journal keeps that id.
pub proof fn law_journal_epoch(drive: u8, written_id: u64, current_id: u64)
    requires
        current_id != 0,
    ensures
        accepts(BlobHeader { version: PERSIST_VERSION, drive, journal_id: written_id }, drive, current_id)
            <==> written_id == current_id,
{
}

} // verus!
