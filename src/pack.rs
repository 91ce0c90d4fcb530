//! The packed scan result that a volume scan hands across the C boundary:
//! one record per kept file or directory, little-endian,
//! `is_dir:u8 | name_len:u16 | path_len:u16 | parent_len:u16 | ext_len:u8 |
//! size:u64 | mtime:8 bytes | name | path | parent | ext`, where size and
//! mtime are left zero for the caller to fill in lazily.

use vstd::prelude::*;
use vstd::utf8::encode_utf8;
use crate::changes::{join, join_path, mft_views, MftRecord, MftView};
use crate::paths::{dir_path, dir_paths, paths_at, retained_pred, root_path};
use crate::rules::{
    ascii_lower, ascii_lower_byte, build_skip_dirs_set, build_skip_exts_set, last_index_of,
    lemma_last_index_of, rfind_byte, should_skip_ext_fast, DOT,
};
use crate::filter::skip_ext_names;

verus! {

pub open spec fn le16(x: nat) -> Seq<u8> {
    seq![(x % 0x100) as u8, ((x / 0x100) % 0x100) as u8]
}

/// The extension of a file name as packed: from its last dot on, ASCII
/// letters lowered; nothing when the name holds no dot.
pub open spec fn packed_ext(name: Seq<u8>) -> Seq<u8> {
    if last_index_of(name, DOT) >= 0 {
        name.subrange(last_index_of(name, DOT), name.len() as int).map_values(|b: u8| ascii_lower(b))
    } else {
        Seq::empty()
    }
}

/// One packed record. Lengths are stored in their field widths, so longer
/// strings have their lengths cut to the low bits.
pub open spec fn packed_record(
    is_dir: bool,
    name: Seq<u8>,
    path: Seq<u8>,
    parent: Seq<u8>,
    ext: Seq<u8>,
) -> Seq<u8> {
    seq![
        if is_dir {
            1u8
        } else {
            0u8
        },
    ] + le16(name.len()) + le16(path.len()) + le16(parent.len()) + seq![(ext.len() % 0x100) as u8]
        + Seq::new(16, |k: int| 0u8) + name + path + parent + ext
}

/// The packed record of a kept enumeration record.
pub open spec fn packed_of(recs: Seq<MftView>, root: Seq<char>, r: MftView) -> Seq<u8> {
    let parent = dir_path(recs, root, r.parent_ref)->0;
    packed_record(
        r.is_dir,
        encode_utf8(r.filename),
        encode_utf8(join_path(parent, r.filename)),
        encode_utf8(parent),
        if r.is_dir {
            Seq::empty()
        } else {
            packed_ext(encode_utf8(r.filename))
        },
    )
}

pub open spec fn packed_all(recs: Seq<MftView>, root: Seq<char>, s: Seq<MftView>) -> Seq<u8>
    decreases s.len(),
{
    if s.len() == 0 {
        Seq::empty()
    } else {
        packed_all(recs, root, s.drop_last()) + packed_of(recs, root, s.last())
    }
}

fn push_bytes(out: &mut Vec<u8>, b: &[u8])
    ensures
        final(out)@ == old(out)@ + b@,
{
    let mut i: usize = 0;
    while i < b.len()
        invariant
            i <= b@.len(),
            out@ =~= old(out)@ + b@.subrange(0, i as int),
        decreases b@.len() - i,
    {
        out.push(b[i]);
        i = i + 1;
    }
    assert(b@.subrange(0, b@.len() as int) =~= b@);
}

fn packed_ext_exec(name: &[u8]) -> (r: Vec<u8>)
    ensures
        r@ == packed_ext(name@),
{
    let mut out: Vec<u8> = Vec::new();
    proof {
        lemma_last_index_of(name@, DOT);
    }
    match rfind_byte(name, DOT) {
        Some(pos) => {
            let mut i: usize = pos;
            while i < name.len()
                invariant
                    pos <= i <= name@.len(),
                    pos == last_index_of(name@, DOT),
                    out@ =~= name@.subrange(pos as int, i as int).map_values(|b: u8| ascii_lower(b)),
                decreases name@.len() - i,
            {
                out.push(ascii_lower_byte(name[i]));
                i = i + 1;
            }
        },
        None => {},
    }
    assert(out@ =~= packed_ext(name@));
    out
}

fn push_record(out: &mut Vec<u8>, is_dir: bool, name: &[u8], path: &[u8], parent: &[u8], ext: &[u8])
    ensures
        final(out)@ == old(out)@ + packed_record(is_dir, name@, path@, parent@, ext@),
{
    let mut hdr: Vec<u8> = Vec::new();
    hdr.push(
        if is_dir {
            1u8
        } else {
            0u8
        },
    );
    hdr.push((name.len() % 0x100) as u8);
    hdr.push(((name.len() / 0x100) % 0x100) as u8);
    hdr.push((path.len() % 0x100) as u8);
    hdr.push(((path.len() / 0x100) % 0x100) as u8);
    hdr.push((parent.len() % 0x100) as u8);
    hdr.push(((parent.len() / 0x100) % 0x100) as u8);
    hdr.push((ext.len() % 0x100) as u8);
    let ghost lead = seq![
        if is_dir {
            1u8
        } else {
            0u8
        },
    ] + le16(name@.len()) + le16(path@.len()) + le16(parent@.len()) + seq![
        (ext@.len() % 0x100) as u8,
    ];
    assert(hdr@ =~= lead);
    let mut z: usize = 0;
    while z < 16
        invariant
            z <= 16,
            hdr@ =~= lead + Seq::new(z as nat, |k: int| 0u8),
        decreases 16 - z,
    {
        hdr.push(0u8);
        z = z + 1;
    }
    push_bytes(out, hdr.as_slice());
    push_bytes(out, name);
    push_bytes(out, path);
    push_bytes(out, parent);
    push_bytes(out, ext);
    assert(final(out)@ =~= old(out)@ + packed_record(is_dir, name@, path@, parent@, ext@));
}

fn push_packed(
    out: &mut Vec<u8>,
    rec: &MftRecord,
    parent: &String,
    Ghost(recs): Ghost<Seq<MftView>>,
    Ghost(root): Ghost<Seq<char>>,
)
    requires
        Some(parent@) == dir_path(recs, root, rec.parent_ref),
    ensures
        final(out)@ == old(out)@ + packed_of(recs, root, rec@),
{
    let path = join(parent.as_str(), rec.filename.as_str());
    let nb = rec.filename.as_str().as_bytes();
    let ext: Vec<u8> = if rec.is_dir {
        Vec::new()
    } else {
        packed_ext_exec(nb)
    };
    assert(ext@ =~= (if rec.is_dir {
        Seq::<u8>::empty()
    } else {
        packed_ext(encode_utf8(rec.filename@))
    }));
    push_record(
        out,
        rec.is_dir,
        nb,
        path.as_str().as_bytes(),
        parent.as_str().as_bytes(),
        ext.as_slice(),
    );
}

/// Packs the kept records of an enumeration of drive `drive`, in record
/// order, and says how many there are.
#[verifier::rlimit(60)]
pub fn pack_scan(recs: &Vec<MftRecord>, drive: char) -> (r: (Vec<u8>, usize))
    ensures
        r.0@ == packed_all(
            mft_views(recs@),
            root_path(drive),
            mft_views(recs@).filter(retained_pred(mft_views(recs@), root_path(drive))),
        ),
        r.1 == mft_views(recs@).filter(retained_pred(mft_views(recs@), root_path(drive))).len(),
{
    let ghost rv = mft_views(recs@);
    let ghost rt = root_path(drive);
    let ghost p = retained_pred(rv, rt);
    let paths = dir_paths(recs, drive);
    proof {
        reveal(paths_at);
    }
    let skip_dirs = build_skip_dirs_set();
    let skip_exts = build_skip_exts_set();
    let mut out: Vec<u8> = Vec::new();
    let mut count: usize = 0;
    let mut i: usize = 0;
    assert(rv.subrange(0, 0).filter(p) =~= Seq::<MftView>::empty()) by {
        reveal(Seq::filter);
    }
    while i < recs.len()
        invariant
            i <= recs@.len(),
            rv == mft_views(recs@),
            rt == root_path(drive),
            p == retained_pred(rv, rt),
            skip_dirs.view() == crate::rules::scan_skip_dir_names(),
            skip_exts.view() == skip_ext_names(),
            forall|q: u64|
                #![trigger paths@.contains_key(q)]
                (paths@.contains_key(q) <==> dir_path(rv, rt, q) is Some) && (paths@.contains_key(q)
                    ==> Some(paths@[q]@) == dir_path(rv, rt, q)),
            out@ == packed_all(rv, rt, rv.subrange(0, i as int).filter(p)),
            count == rv.subrange(0, i as int).filter(p).len(),
            count <= i,
        decreases recs@.len() - i,
    {
        let rec = &recs[i];
        assert(rv[i as int] == rec@);
        let ghost prev = rv.subrange(0, i as int).filter(p);
        match paths.get(&rec.parent_ref) {
            Some(pp) => {
                let keep = if rec.is_dir {
                    !crate::paths::is_dir_excluded(rec.filename.as_str(), &skip_dirs)
                } else {
                    !should_skip_ext_fast(rec.filename.as_str(), &skip_exts)
                };
                if keep {
                    push_packed(&mut out, rec, pp, Ghost(rv), Ghost(rt));
                    count = count + 1;
                }
            },
            None => {},
        }
        proof {
            reveal(Seq::filter);
            let t = rv.subrange(0, i + 1);
            assert(t.drop_last() =~= rv.subrange(0, i as int));
            assert(t.last() == rv[i as int]);
            if p(rv[i as int]) {
                let f = t.filter(p);
                assert(f.drop_last() =~= prev);
                assert(f.last() == rv[i as int]);
            }
        }
        i = i + 1;
    }
    assert(rv.subrange(0, recs@.len() as int) =~= rv);
    (out, count)
}

} // verus!
