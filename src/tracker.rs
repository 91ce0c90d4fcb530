//! Applying planned journal changes to a volume's index.

use vstd::prelude::*;
use crate::changes::{ChangeView, FileChange, ACTION_ADD, ACTION_REMOVE, ACTION_UPDATE};
use crate::search_index::{added, backslashed, live, retire_ref, IndexedItem, ItemView, SearchIndex};
use crate::text::{chars_of, last_pos, lemma_last_pos, lower_of, rfind_char, string_of};

verus! {

/// The file name of a full path: what follows its last backslash.
pub open spec fn file_name_of(p: Seq<char>) -> Seq<char> {
    p.subrange(last_pos(p, '\\') + 1, p.len() as int)
}

pub fn file_name(path: &str) -> (r: String)
    ensures
        r@ == file_name_of(path@),
{
    let cs = chars_of(path);
    proof {
        lemma_last_pos(cs@, '\\');
    }
    let start: usize = match rfind_char(cs.as_slice(), '\\') {
        Some(p) => {
            assert(p < cs.len());
            p + 1
        },
        None => 0,
    };
    let mut out: Vec<char> = Vec::new();
    let mut i: usize = start;
    while i < cs.len()
        invariant
            start <= i <= cs@.len(),
            start as int == last_pos(cs@, '\\') + 1,
            out@ =~= cs@.subrange(start as int, i as int),
        decreases cs@.len() - i,
    {
        out.push(cs[i]);
        i = i + 1;
    }
    string_of(out.as_slice())
}

/// The item that an added or updated file becomes, with the size, mtime
/// and directory flag read from the file system.
pub open spec fn changed_item(c: ChangeView, size: u64, mtime: u64, is_dir: bool) -> ItemView {
    ItemView {
        name: file_name_of(c.path),
        name_lower: Seq::empty(),
        path: c.path,
        file_ref: c.file_ref,
        parent_ref: c.parent_ref,
        size,
        is_dir,
        mtime,
    }
}

/// Applies one change. A removal deletes the live item at the change's
/// path. An addition or update (re)indexes the file with the metadata
/// `meta` = (size, mtime, is_dir) read for it; without metadata (the file
/// is gone again) nothing changes. Says whether the index changed.
pub fn apply_change(index: &mut SearchIndex, change: &FileChange, meta: Option<(u64, u64, bool)>) -> (r:
    bool)
    requires
        old(index).wf(),
    ensures
        final(index).wf(),
        change.action == ACTION_REMOVE ==> {
            &&& r ==> lower_of(backslashed(change.path@)).len() > 0 && exists|i: int|
                0 <= i < old(index)@.len() && live(old(index)@[i]) && lower_of(old(index)@[i].path)
                    == lower_of(backslashed(change.path@)) && (forall|j: int|
                    0 <= j < i && live(#[trigger] old(index)@[j]) ==> lower_of(old(index)@[j].path)
                        != lower_of(backslashed(change.path@))) && final(index)@ == retire_ref(
                    old(index)@,
                    old(index)@[i].file_ref,
                )
            &&& !r ==> final(index)@ == old(index)@ && (lower_of(backslashed(change.path@)).len() == 0
                || forall|i: int|
                0 <= i < old(index)@.len() && live(old(index)@[i]) ==> lower_of(
                    old(index)@[i].path,
                ) != lower_of(backslashed(change.path@)))
        },
        (change.action == ACTION_ADD || change.action == ACTION_UPDATE) ==> match meta {
            Some((size, mtime, is_dir)) => r && final(index)@ == added(
                old(index)@,
                changed_item(change@, size, mtime, is_dir),
            ),
            None => !r && final(index)@ == old(index)@,
        },
        change.action > ACTION_UPDATE ==> !r && final(index)@ == old(index)@,
{
    if change.action == ACTION_REMOVE {
        index.remove_file_by_path(change.path.as_str())
    } else if change.action == ACTION_ADD || change.action == ACTION_UPDATE {
        match meta {
            Some((size, mtime, is_dir)) => {
                let item = IndexedItem {
                    name: file_name(change.path.as_str()),
                    name_lower: String::new(),
                    path: change.path.clone(),
                    file_ref: change.file_ref,
                    parent_ref: change.parent_ref,
                    size,
                    is_dir,
                    mtime,
                };
                index.add_file(item);
                true
            },
            None => false,
        }
    } else {
        false
    }
}

} // verus!

verus! {

/// Where an MFT enumeration goes on after a call that returned `got` bytes
/// with `cursor` at their start, having started at `prev`: nowhere when the
/// call returned no record (eight bytes or fewer) or the cursor did not advance.
pub fn next_enum_start(got: usize, cursor: Option<u64>, prev: u64) -> (r: Option<u64>)
    ensures
        r == (if got > 8 && cursor is Some && cursor->0 != prev {
            cursor
        } else {
            None::<u64>
        }),
{
    if got <= 8 {
        return None;
    }
    match cursor {
        Some(c) => if c != prev {
            Some(c)
        } else {
            None
        },
        None => None,
    }
}

/// What one poll of the change journal does.
#[derive(Clone, Copy, Debug, PartialEq, Eq, Structural)]
pub enum PollStep {
    /// The journal was recreated: drop the index and its caches and rebuild.
    Rebuild,
    /// Nothing new since the last poll.
    Idle,
    /// Apply the records read.
    Apply,
}

/// The decision of one poll, given the journal id the tracker started
/// with, the id and head now, the last USN seen and how many records were read.
pub fn poll_step(known_id: u64, now_id: u64, last_usn: i64, next_usn: i64, records: usize) -> (r:
    PollStep)
    ensures
        r == (if known_id != now_id {
            PollStep::Rebuild
        } else if next_usn <= last_usn || records == 0 {
            PollStep::Idle
        } else {
            PollStep::Apply
        }),
{
    if known_id != now_id {
        PollStep::Rebuild
    } else if next_usn <= last_usn || records == 0 {
        PollStep::Idle
    } else {
        PollStep::Apply
    }
}

} // verus!
