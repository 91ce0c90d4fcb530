//! Path reconstruction: full paths for the records of an MFT enumeration,
//! resolved through parent references from the volume root, with excluded
//! directory subtrees and file extensions left out.

use vstd::prelude::*;
use vstd::utf8::encode_utf8;
use std::collections::HashMap;
use crate::changes::{join, join_path, mft_views, MftRecord, MftView};
use crate::filter::{names_hold, skip_ext_names};
use crate::rules::{
    ascii_lower, ascii_lower_byte, build_skip_dirs_set, build_skip_exts_set, cad_spec, is_cad_path,
    scan_skip_dir_names, should_skip_ext_fast, skip_ext_fast_spec, NameSet,
};
use crate::search_index::{views, IndexedItem, ItemView};
use crate::text::string_of;

verus! {

broadcast use vstd::std_specs::hash::group_hash_axioms;

/// The file reference of the volume root.
pub const ROOT_REF: u64 = 5;

/// How deep below the root paths are resolved.
pub const MAX_DEPTH: u64 = 4096;

/// The root path of a volume: `X:\`.
pub open spec fn root_path(drive: char) -> Seq<char> {
    seq![drive, ':', '\\']
}

/// A directory whose subtree the scan leaves out, by its name.
pub open spec fn dir_excluded(name: Seq<char>) -> bool {
    names_hold(scan_skip_dir_names(), encode_utf8(name).map_values(|b: u8| ascii_lower(b)))
        || cad_spec(encode_utf8(name))
}

/// The last directory record among the first `n` with file reference `r`, or -1.
pub open spec fn last_dir(recs: Seq<MftView>, r: u64, n: int) -> int
    decreases n,
{
    if n <= 0 {
        -1
    } else if recs[n - 1].is_dir && recs[n - 1].file_ref == r {
        n - 1
    } else {
        last_dir(recs, r, n - 1)
    }
}

proof fn lemma_last_dir(recs: Seq<MftView>, r: u64, n: int)
    requires
        0 <= n <= recs.len(),
    ensures
        -1 <= last_dir(recs, r, n) < n,
        last_dir(recs, r, n) >= 0 ==> recs[last_dir(recs, r, n)].is_dir && recs[last_dir(
            recs,
            r,
            n,
        )].file_ref == r,
    decreases n,
{
    if n > 0 {
        lemma_last_dir(recs, r, n - 1);
    }
}

/// The directory record that stands for reference `r`: the last one.
pub open spec fn dir_slot(recs: Seq<MftView>, r: u64) -> int {
    last_dir(recs, r, recs.len() as int)
}

/// The full path of directory `r`, resolved through at most `depth` parents.
pub open spec fn path_of(recs: Seq<MftView>, root: Seq<char>, prune: bool, r: u64, depth: nat) -> Option<
    Seq<char>,
>
    decreases depth,
{
    if r == ROOT_REF {
        Some(root)
    } else if depth == 0 {
        None
    } else {
        let i = dir_slot(recs, r);
        if i < 0 || (prune && dir_excluded(recs[i].filename)) {
            None
        } else {
            match path_of(recs, root, prune, recs[i].parent_ref, (depth - 1) as nat) {
                Some(p) => Some(join_path(p, recs[i].filename)),
                None => None,
            }
        }
    }
}

/// The path of directory `r`.
pub open spec fn dir_path(recs: Seq<MftView>, root: Seq<char>, r: u64) -> Option<Seq<char>> {
    path_of(recs, root, true, r, MAX_DEPTH as nat)
}

proof fn lemma_path_mono(recs: Seq<MftView>, root: Seq<char>, prune: bool, r: u64, d: nat)
    ensures
        path_of(recs, root, prune, r, d) is Some ==> path_of(recs, root, prune, r, d + 1) == path_of(recs, root, prune, r,
            d,
        ),
    decreases d,
{
    if r != ROOT_REF && d > 0 {
        let i = dir_slot(recs, r);
        if i >= 0 && !(prune && dir_excluded(recs[i].filename)) {
            lemma_path_mono(recs, root, prune, recs[i].parent_ref, (d - 1) as nat);
        }
    }
}

/// Once a level adds nothing, deeper levels add nothing either.
proof fn lemma_path_stable(recs: Seq<MftView>, root: Seq<char>, prune: bool, d: nat, e: nat)
    requires
        d <= e,
        forall|r: u64| #[trigger] path_of(recs, root, prune, r, d + 1) == path_of(recs, root, prune, r, d),
    ensures
        forall|r: u64| #[trigger] path_of(recs, root, prune, r, e) == path_of(recs, root, prune, r, d),
    decreases e - d,
{
    if d < e {
        assert forall|r: u64| #[trigger] path_of(recs, root, prune, r, d + 2) == path_of(recs, root, prune, r, d + 1) by {
            if r != ROOT_REF {
                let i = dir_slot(recs, r);
                if i >= 0 && !(prune && dir_excluded(recs[i].filename)) {
                    assert(path_of(recs, root, prune, recs[i].parent_ref, d + 1) == path_of(recs, root, prune, recs[i].parent_ref,
                        d,
                    ));
                }
            }
        }
        lemma_path_stable(recs, root, prune, d + 1, e);
    }
}

/// Whether a directory name is excluded, as `dir_excluded` states it.
pub(crate) fn is_dir_excluded(name: &str, skip_dirs: &NameSet) -> (r: bool)
    requires
        skip_dirs.view() == scan_skip_dir_names(),
    ensures
        r == dir_excluded(name@),
{
    let b = name.as_bytes();
    let mut low: Vec<u8> = Vec::new();
    let mut i: usize = 0;
    while i < b.len()
        invariant
            i <= b@.len(),
            low@ =~= b@.subrange(0, i as int).map_values(|c: u8| ascii_lower(c)),
        decreases b@.len() - i,
    {
        low.push(ascii_lower_byte(b[i]));
        i = i + 1;
    }
    assert(b@.subrange(0, b@.len() as int) =~= b@);
    skip_dirs.contains_bytes(low.as_slice()) || is_cad_path(name)
}

/// The map holds exactly the directory paths resolved through `d` parents.
#[verifier::opaque]
pub open spec fn paths_at(
    m: Map<u64, String>,
    recs: Seq<MftView>,
    root: Seq<char>,
    prune: bool,
    d: nat,
) -> bool {
    forall|r: u64|
        #![trigger m.contains_key(r)]
        #![trigger path_of(recs, root, prune, r, d)]
        (m.contains_key(r) <==> path_of(recs, root, prune, r, d) is Some) && (m.contains_key(r) ==> Some(
            m[r]@,
        ) == path_of(recs, root, prune, r, d))
}

/// What the level loop knows about its inputs.
pub open spec fn level_inputs(
    rv: Seq<MftView>,
    slots: Map<u64, usize>,
    excluded: Seq<bool>,
) -> bool {
    &&& excluded.len() == rv.len()
    &&& forall|j: int| 0 <= j < rv.len() ==> excluded[j] == dir_excluded(#[trigger] rv[j].filename)
    &&& forall|q: u64|
        #![trigger slots.contains_key(q)]
        (slots.contains_key(q) <==> dir_slot(rv, q) >= 0) && (slots.contains_key(q) ==> slots[q]
            == dir_slot(rv, q))
}

/// The paths one level deeper than `known`, and whether a new directory appeared.
fn next_level(
    recs: &Vec<MftRecord>,
    slots: &HashMap<u64, usize>,
    excluded: &Vec<bool>,
    known: &HashMap<u64, String>,
    root: &String,
    prune: bool,
    Ghost(d): Ghost<nat>,
) -> (r: (HashMap<u64, String>, bool))
    requires
        level_inputs(mft_views(recs@), slots@, excluded@),
        paths_at(known@, mft_views(recs@), root@, prune, d),
    ensures
        paths_at(r.0@, mft_views(recs@), root@, prune, d + 1),
        forall|q: u64| #[trigger] r.0@.contains_key(q) && !known@.contains_key(q) ==> r.1,
{
    let ghost rv = mft_views(recs@);
    let ghost rt = root@;
    reveal(paths_at);
    let n = recs.len();
    let mut next: HashMap<u64, String> = HashMap::new();
    next.insert(ROOT_REF, root.clone());
    let mut grew = false;
    let mut k: usize = 0;
    while k < n
        invariant
            n == recs@.len(),
            rv == mft_views(recs@),
            rt == root@,
            k <= n,
            level_inputs(rv, slots@, excluded@),
            paths_at(known@, rv, rt, prune, d),
            forall|q: u64|
                #![trigger next@.contains_key(q)]
                (next@.contains_key(q) <==> (q == ROOT_REF || (dir_slot(rv, q) < k && path_of(rv, rt, prune, q,
                    d + 1,
                ) is Some))) && (next@.contains_key(q) ==> Some(next@[q]@) == path_of(rv, rt, prune, q,
                    d + 1,
                )),
            forall|q: u64| #[trigger] next@.contains_key(q) && !known@.contains_key(q) ==> grew,
        decreases n - k,
    {
        let rec = &recs[k];
        assert(rv[k as int] == rec@);
        let r = rec.file_ref;
        let is_slot = rec.is_dir && r != ROOT_REF && match slots.get(&r) {
            Some(s) => *s == k,
            None => false,
        };
        let ghost prev = next@;
        if is_slot && !(prune && excluded[k]) {
            match known.get(&rec.parent_ref) {
                Some(pp) => {
                    let full = join(pp.as_str(), rec.filename.as_str());
                    if !known.contains_key(&r) {
                        grew = true;
                    }
                    next.insert(r, full);
                },
                None => {},
            }
        }
        proof {
            assert forall|q: u64|
                #![trigger next@.contains_key(q)]
                (next@.contains_key(q) <==> (q == ROOT_REF || (dir_slot(rv, q) < k + 1 && path_of(rv, rt, prune, q,
                    d + 1,
                ) is Some))) && (next@.contains_key(q) ==> Some(next@[q]@) == path_of(rv, rt, prune, q,
                    d + 1,
                )) by {
                reveal(paths_at);
                lemma_last_dir(rv, q, n as int);
                if q != ROOT_REF && dir_slot(rv, q) == k {
                    assert(slots@.contains_key(q));
                    assert(known@.contains_key(rv[k as int].parent_ref) <==> path_of(rv, rt, prune, rv[k as int].parent_ref,
                        d,
                    ) is Some);
                }
                if q != r {
                    assert(next@.contains_key(q) == prev.contains_key(q));
                }
            }
        }
        k = k + 1;
    }
    proof {
        reveal(paths_at);
        assert forall|q: u64|
            #![trigger next@.contains_key(q)]
            #![trigger path_of(rv, rt, prune, q, d + 1)]
            (next@.contains_key(q) <==> path_of(rv, rt, prune, q, d + 1) is Some) && (next@.contains_key(q)
                ==> Some(next@[q]@) == path_of(rv, rt, prune, q, d + 1)) by {
            lemma_last_dir(rv, q, n as int);
            assert(next@.contains_key(q) <==> (q == ROOT_REF || (dir_slot(rv, q) < n && path_of(rv, rt, prune, q,
                d + 1,
            ) is Some)));
        }
    }
    (next, grew)
}

/// A level that finds no new directory is the last: the paths known then
/// are those of any deeper level.
proof fn lemma_fixpoint(
    rv: Seq<MftView>,
    rt: Seq<char>,
    prune: bool,
    d: nat,
    known: Map<u64, String>,
    next: Map<u64, String>,
)
    requires
        d <= MAX_DEPTH,
        paths_at(known, rv, rt, prune, d),
        paths_at(next, rv, rt, prune, d + 1),
        forall|q: u64| #[trigger] next.contains_key(q) ==> known.contains_key(q),
    ensures
        paths_at(known, rv, rt, prune, MAX_DEPTH as nat),
{
    reveal(paths_at);
    assert forall|q: u64| #[trigger] path_of(rv, rt, prune, q, d + 1) == path_of(rv, rt, prune, q, d) by {
        lemma_path_mono(rv, rt, prune, q, d);
        if path_of(rv, rt, prune, q, d + 1) is Some {
            assert(next.contains_key(q));
            assert(known.contains_key(q));
        }
    }
    lemma_path_stable(rv, rt, prune, d, MAX_DEPTH as nat);
    assert forall|q: u64|
        #![trigger known.contains_key(q)]
        #![trigger path_of(rv, rt, prune, q, MAX_DEPTH as nat)]
        (known.contains_key(q) <==> path_of(rv, rt, prune, q, MAX_DEPTH as nat) is Some) && (
        known.contains_key(q) ==> Some(known[q]@) == path_of(rv, rt, prune, q, MAX_DEPTH as nat)) by {
        assert(path_of(rv, rt, prune, q, MAX_DEPTH as nat) == path_of(rv, rt, prune, q, d));
        assert(known.contains_key(q) <==> path_of(rv, rt, prune, q, d) is Some);
    }
}

/// Maps each directory reference that resolves to its path; with `prune`,
/// excluded directories and everything under them do not resolve.
fn dir_map(recs: &Vec<MftRecord>, drive: char, prune: bool) -> (r: HashMap<u64, String>)
    ensures
        paths_at(r@, mft_views(recs@), root_path(drive), prune, MAX_DEPTH as nat),
{
    let ghost rv = mft_views(recs@);
    let root = string_of(&[drive, ':', '\\']);
    assert(root@ =~= root_path(drive));
    let ghost rt = root_path(drive);
    let skip_dirs = build_skip_dirs_set();
    let n = recs.len();
    let mut slots: HashMap<u64, usize> = HashMap::new();
    let mut excluded: Vec<bool> = Vec::new();
    let mut i: usize = 0;
    while i < n
        invariant
            n == recs@.len(),
            rv == mft_views(recs@),
            i <= n,
            skip_dirs.view() == scan_skip_dir_names(),
            excluded@.len() == i,
            forall|j: int| 0 <= j < i ==> excluded@[j] == dir_excluded(#[trigger] rv[j].filename),
            forall|q: u64|
                #![trigger slots@.contains_key(q)]
                (slots@.contains_key(q) <==> last_dir(rv, q, i as int) >= 0) && (
                slots@.contains_key(q) ==> slots@[q] == last_dir(rv, q, i as int)),
        decreases n - i,
    {
        let rec = &recs[i];
        assert(rv[i as int] == rec@);
        if rec.is_dir {
            slots.insert(rec.file_ref, i);
        }
        excluded.push(is_dir_excluded(rec.filename.as_str(), &skip_dirs));
        i = i + 1;
    }
    let mut known: HashMap<u64, String> = HashMap::new();
    known.insert(ROOT_REF, root.clone());
    let mut d: u64 = 0;
    assert(paths_at(known@, rv, rt, prune, 0)) by {
        reveal(paths_at);
    }
    while d < MAX_DEPTH
        invariant
            rv == mft_views(recs@),
            root@ == rt,
            rt == root_path(drive),
            level_inputs(rv, slots@, excluded@),
            d <= MAX_DEPTH,
            paths_at(known@, rv, rt, prune, d as nat),
        decreases MAX_DEPTH - d,
    {
        let (next, grew) = next_level(recs, &slots, &excluded, &known, &root, prune, Ghost(d as nat));
        if !grew {
            proof {
                lemma_fixpoint(rv, rt, prune, d as nat, known@, next@);
            }
            return known;
        }
        known = next;
        d = d + 1;
    }
    known
}


/// Maps each directory reference to its path, leaving out excluded
/// directories and everything under them: the paths a rebuild indexes under.
pub fn dir_paths(recs: &Vec<MftRecord>, drive: char) -> (r: HashMap<u64, String>)
    ensures
        paths_at(r@, mft_views(recs@), root_path(drive), true, MAX_DEPTH as nat),
{
    dir_map(recs, drive, true)
}

/// The path of directory `r` when nothing is excluded.
pub open spec fn cache_path(recs: Seq<MftView>, root: Seq<char>, r: u64) -> Option<Seq<char>> {
    path_of(recs, root, false, r, MAX_DEPTH as nat)
}

/// Maps every directory reachable from the root to its path, excluded ones
/// included: the directory cache that the change tracker resolves parents with.
pub fn dir_cache(recs: &Vec<MftRecord>, drive: char) -> (r: HashMap<u64, String>)
    ensures
        forall|q: u64|
            #![trigger r@.contains_key(q)]
            (r@.contains_key(q) <==> cache_path(mft_views(recs@), root_path(drive), q) is Some) && (
            r@.contains_key(q) ==> Some(r@[q]@) == cache_path(mft_views(recs@), root_path(drive), q)),
{
    let r = dir_map(recs, drive, false);
    proof {
        reveal(paths_at);
    }
    r
}

/// Record `r` is indexed: its parent folder has a path, and it is neither an
/// excluded directory nor a file with an excluded extension.
pub open spec fn retained(recs: Seq<MftView>, root: Seq<char>, r: MftView) -> bool {
    &&& dir_path(recs, root, r.parent_ref) is Some
    &&& if r.is_dir {
        !dir_excluded(r.filename)
    } else {
        !skip_ext_fast_spec(encode_utf8(r.filename), skip_ext_names())
    }
}

pub open spec fn retained_pred(recs: Seq<MftView>, root: Seq<char>) -> spec_fn(MftView) -> bool {
    |r: MftView| retained(recs, root, r)
}

/// The index item of a retained record, before metadata is read: size and
/// mtime are zero, and the case-folded name is left for the index to compute.
pub open spec fn item_of(recs: Seq<MftView>, root: Seq<char>, r: MftView) -> ItemView {
    ItemView {
        name: r.filename,
        name_lower: Seq::empty(),
        path: join_path(dir_path(recs, root, r.parent_ref)->0, r.filename),
        file_ref: r.file_ref,
        parent_ref: r.parent_ref,
        size: 0,
        is_dir: r.is_dir,
        mtime: 0,
    }
}

/// The items of an enumeration of drive `drive`, in record order.
pub open spec fn reconstructed(recs: Seq<MftView>, drive: char) -> Seq<ItemView> {
    recs.filter(retained_pred(recs, root_path(drive))).map_values(
        |r: MftView| item_of(recs, root_path(drive), r),
    )
}

/// Turns the records of an MFT enumeration of drive `drive` into index items.
pub fn reconstruct(recs: &Vec<MftRecord>, drive: char) -> (r: Vec<IndexedItem>)
    ensures
        views(r@) == reconstructed(mft_views(recs@), drive),
{
    let ghost rv = mft_views(recs@);
    let ghost rt = root_path(drive);
    let ghost p = retained_pred(rv, rt);
    let paths = dir_paths(recs, drive);
    proof {
        reveal(paths_at);
    }
    let skip_dirs = build_skip_dirs_set();
    let skip_exts = build_skip_exts_set();
    let mut out: Vec<IndexedItem> = Vec::new();
    let mut i: usize = 0;
    assert(rv.subrange(0, 0).filter(p) =~= Seq::<MftView>::empty()) by {
        reveal(Seq::filter);
    }
    while i < recs.len()
        invariant
            i <= recs@.len(),
            rv == mft_views(recs@),
            rt == root_path(drive),
            p == retained_pred(rv, rt),
            skip_dirs.view() == scan_skip_dir_names(),
            skip_exts.view() == skip_ext_names(),
            forall|q: u64|
                #![trigger paths@.contains_key(q)]
                (paths@.contains_key(q) <==> dir_path(rv, rt, q) is Some) && (paths@.contains_key(q)
                    ==> Some(paths@[q]@) == dir_path(rv, rt, q)),
            views(out@) == rv.subrange(0, i as int).filter(p).map_values(
                |r: MftView| item_of(rv, rt, r),
            ),
        decreases recs@.len() - i,
    {
        let rec = &recs[i];
        assert(rv[i as int] == rec@);
        let ghost prev = views(out@);
        match paths.get(&rec.parent_ref) {
            Some(pp) => {
                let keep = if rec.is_dir {
                    !is_dir_excluded(rec.filename.as_str(), &skip_dirs)
                } else {
                    !should_skip_ext_fast(rec.filename.as_str(), &skip_exts)
                };
                if keep {
                    let path = join(pp.as_str(), rec.filename.as_str());
                    out.push(
                        IndexedItem {
                            name: rec.filename.clone(),
                            name_lower: String::new(),
                            path,
                            file_ref: rec.file_ref,
                            parent_ref: rec.parent_ref,
                            size: 0,
                            is_dir: rec.is_dir,
                            mtime: 0,
                        },
                    );
                    assert(views(out@) =~= prev.push(item_of(rv, rt, rec@)));
                }
            },
            None => {},
        }
        proof {
            reveal(Seq::filter);
            let t = rv.subrange(0, i + 1);
            assert(t.drop_last() =~= rv.subrange(0, i as int));
            assert(t.last() == rv[i as int]);
        }
        assert(views(out@) =~= rv.subrange(0, i + 1).filter(p).map_values(
            |r: MftView| item_of(rv, rt, r),
        ));
        i = i + 1;
    }
    assert(rv.subrange(0, recs@.len() as int) =~= rv);
    out
}

} // verus!
