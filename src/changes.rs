//! What the volume scan and the change tracker make of decoded records:
//! MFT records for a rebuild, and index changes for a journal read.

use vstd::prelude::*;
use vstd::utf8::encode_utf8;
use std::collections::{HashMap, HashSet};
use crate::rules::{is_recycle_bin_path, recycle_bin_spec};
use crate::text::{chars_of, concat2, last_pos, lemma_last_pos, rfind_char, string_of};
use crate::usn::{raw_views, RawRecord, RawView, FILE_ATTRIBUTE_DIRECTORY, REF_MASK};

verus! {

broadcast use vstd::std_specs::hash::group_hash_axioms;

pub const USN_REASON_DATA_OVERWRITE: u32 = 0x0000_0001;
pub const USN_REASON_DATA_EXTEND: u32 = 0x0000_0002;
pub const USN_REASON_FILE_CREATE: u32 = 0x0000_0100;
pub const USN_REASON_FILE_DELETE: u32 = 0x0000_0200;
pub const USN_REASON_RENAME_OLD_NAME: u32 = 0x0000_1000;
pub const USN_REASON_RENAME_NEW_NAME: u32 = 0x0000_2000;
pub const USN_REASON_CLOSE: u32 = 0x8000_0000;

/// The reasons a journal read asks for.
pub const USN_REASON_MASK: u32 = 0x8000_3303;

/// Change actions.
pub const ACTION_REMOVE: u8 = 0;
pub const ACTION_ADD: u8 = 1;
pub const ACTION_UPDATE: u8 = 2;

/// Names the scan never indexes: empty, or starting with `$` or `.`.
pub open spec fn reserved(name: Seq<char>) -> bool {
    name.len() == 0 || name[0] == '$' || name[0] == '.'
}

pub fn is_reserved(name: &str) -> (r: bool)
    ensures
        r == reserved(name@),
{
    let cs = chars_of(name);
    cs.len() == 0 || cs[0] == '$' || cs[0] == '.'
}

/// One record of an MFT enumeration, references without sequence numbers.
#[derive(Clone, Debug)]
pub struct MftRecord {
    pub filename: String,
    pub parent_ref: u64,
    pub is_dir: bool,
    pub file_ref: u64,
}

pub struct MftView {
    pub filename: Seq<char>,
    pub parent_ref: u64,
    pub is_dir: bool,
    pub file_ref: u64,
}

impl View for MftRecord {
    type V = MftView;

    open spec fn view(&self) -> MftView {
        MftView {
            filename: self.filename@,
            parent_ref: self.parent_ref,
            is_dir: self.is_dir,
            file_ref: self.file_ref,
        }
    }
}

pub open spec fn mft_views(s: Seq<MftRecord>) -> Seq<MftView> {
    s.map_values(|r: MftRecord| r@)
}

pub open spec fn is_dir_attr(attributes: u32) -> bool {
    attributes & FILE_ATTRIBUTE_DIRECTORY != 0
}

pub open spec fn mft_of(r: RawView) -> MftView {
    MftView {
        filename: r.name,
        parent_ref: r.parent_ref & REF_MASK,
        is_dir: is_dir_attr(r.attributes),
        file_ref: r.file_ref & REF_MASK,
    }
}

pub open spec fn scan_keeps(dirs_only: bool) -> spec_fn(RawView) -> bool {
    |r: RawView| !reserved(r.name) && (!dirs_only || is_dir_attr(r.attributes))
}

/// The MFT records of decoded enumeration records: reserved names are
/// dropped, and files too when only directories are wanted.
pub open spec fn scan_records_spec(raw: Seq<RawView>, dirs_only: bool) -> Seq<MftView> {
    raw.filter(scan_keeps(dirs_only)).map_values(|r: RawView| mft_of(r))
}

pub fn mft_records(raw: &Vec<RawRecord>, dirs_only: bool) -> (r: Vec<MftRecord>)
    ensures
        mft_views(r@) == scan_records_spec(raw_views(raw@), dirs_only),
{
    let ghost s = raw_views(raw@);
    let ghost p = scan_keeps(dirs_only);
    let mut out: Vec<MftRecord> = Vec::new();
    let mut i: usize = 0;
    assert(s.subrange(0, 0).filter(p) =~= Seq::<RawView>::empty()) by {
        reveal(Seq::filter);
    }
    while i < raw.len()
        invariant
            i <= raw@.len(),
            s == raw_views(raw@),
            p == scan_keeps(dirs_only),
            mft_views(out@) == s.subrange(0, i as int).filter(p).map_values(|r: RawView| mft_of(r)),
        decreases raw@.len() - i,
    {
        let rec = &raw[i];
        assert(s[i as int] == rec@);
        let is_dir = rec.attributes & FILE_ATTRIBUTE_DIRECTORY != 0;
        let ghost prev = out@;
        if !is_reserved(rec.name.as_str()) && (!dirs_only || is_dir) {
            out.push(
                MftRecord {
                    filename: rec.name.clone(),
                    parent_ref: rec.parent_ref & REF_MASK,
                    is_dir,
                    file_ref: rec.file_ref & REF_MASK,
                },
            );
            assert(mft_views(out@) =~= mft_views(prev).push(mft_of(rec@)));
        }
        proof {
            reveal(Seq::filter);
            let t = s.subrange(0, i + 1);
            assert(t.drop_last() =~= s.subrange(0, i as int));
            assert(t.last() == s[i as int]);
        }
        assert(mft_views(out@) =~= s.subrange(0, i + 1).filter(p).map_values(
            |r: RawView| mft_of(r),
        ));
        i = i + 1;
    }
    assert(s.subrange(0, raw@.len() as int) =~= s);
    out
}

/// The index action a journal record asks for: deletions and old names are
/// removed, creations and new names added, data changes updated; anything
/// else (a lone close) is ignored.
pub open spec fn action_of(reason: u32) -> Option<u8> {
    if reason & (USN_REASON_FILE_DELETE | USN_REASON_RENAME_OLD_NAME) != 0 {
        Some(ACTION_REMOVE)
    } else if reason & (USN_REASON_RENAME_NEW_NAME | USN_REASON_FILE_CREATE) != 0 {
        Some(ACTION_ADD)
    } else if reason & (USN_REASON_DATA_EXTEND | USN_REASON_DATA_OVERWRITE) != 0 {
        Some(ACTION_UPDATE)
    } else {
        None
    }
}

pub fn classify(reason: u32) -> (r: Option<u8>)
    ensures
        r == action_of(reason),
{
    if reason & (USN_REASON_FILE_DELETE | USN_REASON_RENAME_OLD_NAME) != 0 {
        Some(ACTION_REMOVE)
    } else if reason & (USN_REASON_RENAME_NEW_NAME | USN_REASON_FILE_CREATE) != 0 {
        Some(ACTION_ADD)
    } else if reason & (USN_REASON_DATA_EXTEND | USN_REASON_DATA_OVERWRITE) != 0 {
        Some(ACTION_UPDATE)
    } else {
        None
    }
}

/// A record that names a new file: created, or renamed to its name.
pub open spec fn add_like(reason: u32) -> bool {
    reason & (USN_REASON_RENAME_NEW_NAME | USN_REASON_FILE_CREATE) != 0
}

/// `s` without its trailing backslashes.
pub open spec fn trim_bs(s: Seq<char>) -> Seq<char>
    decreases s.len(),
{
    if s.len() > 0 && s.last() == '\\' {
        trim_bs(s.drop_last())
    } else {
        s
    }
}

pub fn trim_backslashes(s: &str) -> (r: String)
    ensures
        r@ == trim_bs(s@),
{
    let cs = chars_of(s);
    let mut n: usize = cs.len();
    assert(cs@.subrange(0, n as int) =~= cs@);
    while n > 0 && cs[n - 1] == '\\'
        invariant
            n <= cs@.len(),
            trim_bs(s@) == trim_bs(cs@.subrange(0, n as int)),
            cs@ == s@,
        decreases n,
    {
        assert(cs@.subrange(0, n as int).drop_last() =~= cs@.subrange(0, n - 1));
        n = n - 1;
    }
    let mut out: Vec<char> = Vec::new();
    let mut i: usize = 0;
    while i < n
        invariant
            i <= n <= cs@.len(),
            out@ =~= cs@.subrange(0, i as int),
        decreases n - i,
    {
        out.push(cs[i]);
        i = i + 1;
    }
    string_of(out.as_slice())
}

/// `dir` (trailing backslashes dropped), a backslash, then `name`.
pub open spec fn join_path(dir: Seq<char>, name: Seq<char>) -> Seq<char> {
    trim_bs(dir) + seq!['\\'] + name
}

pub fn join(dir: &str, name: &str) -> (r: String)
    ensures
        r@ == join_path(dir@, name@),
{
    let d = trim_backslashes(dir);
    let bs = string_of(&['\\']);
    let ds = concat2(d.as_str(), bs.as_str());
    assert(bs@ =~= seq!['\\']);
    concat2(ds.as_str(), name)
}

/// The folder part of a full path: up to its last backslash.
pub open spec fn folder_of(p: Seq<char>) -> Option<Seq<char>> {
    if last_pos(p, '\\') >= 0 {
        Some(p.subrange(0, last_pos(p, '\\')))
    } else {
        None
    }
}

/// The full path a change record refers to: under its parent's cached path
/// when the parent is known; for a new name, under the folder that the
/// platform reported for the file (`resolved`); else under the volume root.
pub open spec fn change_path(
    e: RawView,
    dirs: Map<u64, String>,
    root: Seq<char>,
    resolved: Option<Seq<char>>,
) -> Seq<char> {
    let parent = e.parent_ref & REF_MASK;
    let base = if dirs.contains_key(parent) {
        dirs[parent]@
    } else if add_like(e.reason) && resolved is Some && folder_of(resolved->0) is Some {
        folder_of(resolved->0)->0
    } else {
        root
    };
    join_path(base, e.name)
}

/// Whether the platform should be asked where the record's file lives:
/// a new name whose parent folder is not cached.
pub fn needs_lookup(e: &RawRecord, dirs: &HashMap<u64, String>) -> (r: bool)
    ensures
        r == (!dirs@.contains_key(e.parent_ref & REF_MASK) && add_like(e.reason)),
{
    let parent = e.parent_ref & REF_MASK;
    !dirs.contains_key(&parent) && e.reason & (USN_REASON_RENAME_NEW_NAME | USN_REASON_FILE_CREATE)
        != 0
}

/// One change to apply to the index.
#[derive(Clone, Debug)]
pub struct FileChange {
    pub action: u8,
    pub is_dir: u8,
    pub path: String,
    pub file_ref: u64,
    pub parent_ref: u64,
}

pub struct ChangeView {
    pub action: u8,
    pub is_dir: u8,
    pub path: Seq<char>,
    pub file_ref: u64,
    pub parent_ref: u64,
}

impl View for FileChange {
    type V = ChangeView;

    open spec fn view(&self) -> ChangeView {
        ChangeView {
            action: self.action,
            is_dir: self.is_dir,
            path: self.path@,
            file_ref: self.file_ref,
            parent_ref: self.parent_ref,
        }
    }
}

pub open spec fn change_views(s: Seq<FileChange>) -> Seq<ChangeView> {
    s.map_values(|c: FileChange| c@)
}

/// Record `i` gives a change: its name is not reserved, its reasons ask for
/// an action, and its path is not under a recycle bin.
pub open spec fn candidate(
    es: Seq<RawView>,
    dirs: Map<u64, String>,
    root: Seq<char>,
    res: Seq<Option<String>>,
    i: int,
) -> bool {
    &&& !reserved(es[i].name)
    &&& action_of(es[i].reason) is Some
    &&& !recycle_bin_spec(encode_utf8(change_path(es[i], dirs, root, opt_view(res[i]))))
}

pub open spec fn opt_view(o: Option<String>) -> Option<Seq<char>> {
    match o {
        Some(s) => Some(s@),
        None => None,
    }
}

/// The key that one batch keeps a single change for.
pub open spec fn change_key(e: RawView) -> (u8, u64) {
    (action_of(e.reason)->0, e.file_ref & REF_MASK)
}

pub open spec fn change_of(
    e: RawView,
    dirs: Map<u64, String>,
    root: Seq<char>,
    resolved: Option<Seq<char>>,
) -> ChangeView {
    ChangeView {
        action: action_of(e.reason)->0,
        is_dir: if is_dir_attr(e.attributes) {
            1
        } else {
            0
        },
        path: change_path(e, dirs, root, resolved),
        file_ref: e.file_ref & REF_MASK,
        parent_ref: e.parent_ref & REF_MASK,
    }
}

/// Record `i` gives the first change of its key in the batch.
pub open spec fn kept(
    es: Seq<RawView>,
    dirs: Map<u64, String>,
    root: Seq<char>,
    res: Seq<Option<String>>,
    i: int,
) -> bool {
    &&& candidate(es, dirs, root, res, i)
    &&& forall|j: int|
        0 <= j < i && candidate(es, dirs, root, res, j) ==> change_key(es[j]) != change_key(es[i])
}

/// The changes of the first `n` records of a batch, in journal order.
pub open spec fn plan_upto(
    es: Seq<RawView>,
    dirs: Map<u64, String>,
    root: Seq<char>,
    res: Seq<Option<String>>,
    n: int,
) -> Seq<ChangeView>
    decreases n,
{
    if n <= 0 {
        Seq::empty()
    } else if kept(es, dirs, root, res, n - 1) {
        plan_upto(es, dirs, root, res, n - 1).push(
            change_of(es[n - 1], dirs, root, opt_view(res[n - 1])),
        )
    } else {
        plan_upto(es, dirs, root, res, n - 1)
    }
}

proof fn lemma_mask(x: u64)
    ensures
        x & REF_MASK <= REF_MASK,
{
    assert(x & 0xFFFF_FFFF_FFFF <= 0xFFFF_FFFF_FFFF) by (bit_vector);
}

pub open spec fn key_code(k: (u8, u64)) -> int {
    k.0 as int * 0x0100_0000_0000_0000 + k.1 as int
}

proof fn lemma_key_code(a: (u8, u64), b: (u8, u64))
    requires
        a.0 <= 2,
        b.0 <= 2,
        a.1 <= REF_MASK,
        b.1 <= REF_MASK,
        key_code(a) == key_code(b),
    ensures
        a == b,
{
    assert(a.0 == b.0) by (nonlinear_arith)
        requires
            a.0 as int * 0x0100_0000_0000_0000 + a.1 as int == b.0 as int * 0x0100_0000_0000_0000
                + b.1 as int,
            a.1 <= 0xFFFF_FFFF_FFFF,
            b.1 <= 0xFFFF_FFFF_FFFF,
            a.0 <= 2,
            b.0 <= 2,
    ;
}

/// The path a change record refers to, as `change_path` states it.
fn change_path_exec(
    e: &RawRecord,
    dirs: &HashMap<u64, String>,
    root: &str,
    resolved: &Option<String>,
) -> (r: String)
    ensures
        r@ == change_path(e@, dirs@, root@, opt_view(*resolved)),
{
    let parent = e.parent_ref & REF_MASK;
    match dirs.get(&parent) {
        Some(p) => join(p.as_str(), e.name.as_str()),
        None => {
            let add = e.reason & (USN_REASON_RENAME_NEW_NAME | USN_REASON_FILE_CREATE) != 0;
            if add {
                match resolved {
                    Some(full) => {
                        let cs = chars_of(full.as_str());
                        proof {
                            lemma_last_pos(cs@, '\\');
                        }
                        match rfind_char(cs.as_slice(), '\\') {
                            Some(pos) => {
                                let mut head: Vec<char> = Vec::new();
                                let mut i: usize = 0;
                                while i < pos
                                    invariant
                                        i <= pos < cs@.len(),
                                        head@ =~= cs@.subrange(0, i as int),
                                    decreases pos - i,
                                {
                                    head.push(cs[i]);
                                    i = i + 1;
                                }
                                let folder = string_of(head.as_slice());
                                return join(folder.as_str(), e.name.as_str());
                            },
                            None => {},
                        }
                    },
                    None => {},
                }
            }
            join(root, e.name.as_str())
        },
    }
}

/// The changes a batch of journal records makes to the index, in journal
/// order, each (action, file reference) once: the journal writes several
/// records for one logical change (a create, then the create with its close),
/// and the index needs it once per batch. `resolved[i]` is where the platform
/// says record `i`'s file lives, when it was asked (see `needs_lookup`).
pub fn plan_changes(
    entries: &Vec<RawRecord>,
    dirs: &HashMap<u64, String>,
    root: &str,
    resolved: &Vec<Option<String>>,
) -> (r: Vec<FileChange>)
    requires
        resolved@.len() == entries@.len(),
    ensures
        change_views(r@) == plan_upto(
            raw_views(entries@),
            dirs@,
            root@,
            resolved@,
            entries@.len() as int,
        ),
{
    let ghost es = raw_views(entries@);
    let mut seen: HashSet<u64> = HashSet::new();
    let mut out: Vec<FileChange> = Vec::new();
    let mut i: usize = 0;
    while i < entries.len()
        invariant
            i <= entries@.len(),
            resolved@.len() == entries@.len(),
            es == raw_views(entries@),
            change_views(out@) == plan_upto(es, dirs@, root@, resolved@, i as int),
            forall|k: u64|
                seen@.contains(k) <==> exists|j: int|
                    0 <= j < i && candidate(es, dirs@, root@, resolved@, j) && k as int == key_code(
                        change_key(#[trigger] es[j]),
                    ),
        decreases entries@.len() - i,
    {
        let e = &entries[i];
        assert(es[i as int] == e@);
        let ghost prev = change_views(out@);
        if !is_reserved(e.name.as_str()) {
            match classify(e.reason) {
                Some(action) => {
                    let path = change_path_exec(e, dirs, root, &resolved[i]);
                    if !is_recycle_bin_path(path.as_str()) {
                        let fref = e.file_ref & REF_MASK;
                        proof {
                            lemma_mask(e.file_ref);
                        }
                        let key: u64 = (action as u64) * 0x0100_0000_0000_0000 + fref;
                        let fresh = !seen.contains(&key);
                        proof {
                            assert(candidate(es, dirs@, root@, resolved@, i as int));
                            if fresh {
                                assert forall|j: int|
                                    0 <= j < i && candidate(es, dirs@, root@, resolved@, j) implies change_key(
                                    es[j],
                                ) != change_key(es[i as int]) by {
                                    if change_key(es[j]) == change_key(es[i as int]) {
                                        assert(seen@.contains(key_code(change_key(es[j])) as u64));
                                    }
                                }
                            } else {
                                let j = choose|j: int|
                                    0 <= j < i && candidate(es, dirs@, root@, resolved@, j) && key as int
                                        == key_code(change_key(#[trigger] es[j]));
                                lemma_mask(es[j].file_ref);
                                lemma_key_code(change_key(es[j]), change_key(es[i as int]));
                            }
                        }
                        seen.insert(key);
                        if fresh {
                            let is_dir: u8 = if e.attributes & FILE_ATTRIBUTE_DIRECTORY != 0 {
                                1
                            } else {
                                0
                            };
                            let pref = e.parent_ref & REF_MASK;
                            out.push(
                                FileChange { action, is_dir, path, file_ref: fref, parent_ref: pref },
                            );
                            assert(change_views(out@) =~= prev.push(
                                change_of(es[i as int], dirs@, root@, opt_view(resolved@[i as int])),
                            ));
                        }
                    }
                },
                None => {},
            }
        }
        proof {
            assert forall|k: u64|
                seen@.contains(k) <==> exists|j: int|
                    0 <= j < i + 1 && candidate(es, dirs@, root@, resolved@, j) && k as int
                        == key_code(change_key(#[trigger] es[j])) by {
                if exists|j: int|
                    0 <= j < i + 1 && candidate(es, dirs@, root@, resolved@, j) && k as int
                        == key_code(change_key(#[trigger] es[j])) {
                    let j = choose|j: int|
                        0 <= j < i + 1 && candidate(es, dirs@, root@, resolved@, j) && k as int
                            == key_code(change_key(#[trigger] es[j]));
                    if j < i {
                    }
                }
            }
        }
        i = i + 1;
    }
    out
}

} // verus!
