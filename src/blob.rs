//! The persisted index blob: a header, then the live items, each string
//! length-prefixed. All integers are little-endian. The case-folded names
//! are not stored; the index recomputes them on load.

use vstd::prelude::*;
use vstd::utf8::{encode_utf8, valid_utf8};
use crate::persist::BlobHeader;
use crate::search_index::{views, IndexedItem, ItemView};
use crate::usn::{read_u32, read_u64, u32_at, u64_at};

verus! {

/// Relies on `String::from_utf8`: the string whose UTF-8 encoding is
/// `bytes`, or an error when they are not valid UTF-8.
#[verifier::external_body]
fn utf8_string(bytes: Vec<u8>) -> (r: Option<String>)
    ensures
        match r {
            Some(s) => valid_utf8(bytes@) && encode_utf8(s@) == bytes@,
            None => !valid_utf8(bytes@),
        },
{
    String::from_utf8(bytes).ok()
}

/// The little-endian bytes of `x`.
pub open spec fn le32(x: u32) -> Seq<u8> {
    seq![
        (x % 0x100) as u8,
        ((x / 0x100) % 0x100) as u8,
        ((x / 0x10000) % 0x100) as u8,
        (x / 0x1000000) as u8,
    ]
}

/// The little-endian bytes of `x`.
#[verifier::opaque]
pub open spec fn le64(x: u64) -> Seq<u8> {
    le32((x % 0x1_0000_0000) as u32) + le32((x / 0x1_0000_0000) as u32)
}

proof fn lemma_le32(x: u32, rest: Seq<u8>)
    ensures
        u32_at(le32(x) + rest, 0) == x,
{
    let b = le32(x) + rest;
    assert(b[0] == (x % 0x100) as u8);
    assert(b[1] == ((x / 0x100) % 0x100) as u8);
    assert(b[2] == ((x / 0x10000) % 0x100) as u8);
    assert(b[3] == (x / 0x1000000) as u8);
    let x0 = x as int;
    assert(x0 == x0 % 0x100 + ((x0 / 0x100) % 0x100) * 0x100 + ((x0 / 0x10000) % 0x100) * 0x10000 + (
    x0 / 0x1000000) * 0x1000000) by (nonlinear_arith)
        requires
            0 <= x0 < 0x1_0000_0000,
    ;
}

proof fn lemma_le64(x: u64, rest: Seq<u8>)
    ensures
        u64_at(le64(x) + rest, 0) == x,
{
    reveal(le64);
    let lo = (x % 0x1_0000_0000) as u32;
    let hi = (x / 0x1_0000_0000) as u32;
    let b = le64(x) + rest;
    assert(b =~= le32(lo) + (le32(hi) + rest));
    lemma_le32(lo, le32(hi) + rest);
    assert(b.subrange(4, b.len() as int) =~= le32(hi) + rest);
    lemma_le32(hi, rest);
    assert(u32_at(b, 4) == u32_at(b.subrange(4, b.len() as int), 0));
}

/// A string: its UTF-8 length, then its UTF-8 bytes.
#[verifier::opaque]
pub open spec fn enc_str(s: Seq<char>) -> Seq<u8> {
    le64(encode_utf8(s).len() as u64) + encode_utf8(s)
}

/// One item: name, path, file reference, parent reference, size, directory
/// flag (one byte) and mtime.
pub open spec fn enc_item(v: ItemView) -> Seq<u8> {
    enc_str(v.name) + enc_str(v.path) + enc_tail(v)
}

/// The fixed-size part of an item.
pub open spec fn enc_tail(v: ItemView) -> Seq<u8> {
    le64(v.file_ref) + le64(v.parent_ref) + le64(v.size) + seq![
        if v.is_dir {
            1u8
        } else {
            0u8
        },
    ] + le64(v.mtime)
}

pub open spec fn enc_items(s: Seq<ItemView>) -> Seq<u8>
    decreases s.len(),
{
    if s.len() == 0 {
        Seq::empty()
    } else {
        enc_items(s.drop_last()) + enc_item(s.last())
    }
}

/// A whole blob: version, drive, journal id, item count, items.
pub open spec fn enc_blob(h: BlobHeader, s: Seq<ItemView>) -> Seq<u8> {
    le32(h.version) + seq![h.drive] + le64(h.journal_id) + le64(s.len() as u64) + enc_items(s)
}

fn push_u32(out: &mut Vec<u8>, x: u32)
    ensures
        final(out)@ == old(out)@ + le32(x),
{
    out.push((x % 0x100) as u8);
    out.push(((x / 0x100) % 0x100) as u8);
    out.push(((x / 0x10000) % 0x100) as u8);
    out.push((x / 0x1000000) as u8);
    assert(final(out)@ =~= old(out)@ + le32(x));
}

fn push_u64(out: &mut Vec<u8>, x: u64)
    ensures
        final(out)@ == old(out)@ + le64(x),
{
    push_u32(out, (x % 0x1_0000_0000) as u32);
    push_u32(out, (x / 0x1_0000_0000) as u32);
    reveal(le64);
    assert(final(out)@ =~= old(out)@ + le64(x));
}

fn push_str(out: &mut Vec<u8>, s: &str)
    ensures
        final(out)@ == old(out)@ + enc_str(s@),
{
    let b = s.as_bytes();
    push_u64(out, b.len() as u64);
    let ghost mid = out@;
    let mut i: usize = 0;
    while i < b.len()
        invariant
            i <= b@.len(),
            out@ =~= mid + b@.subrange(0, i as int),
        decreases b@.len() - i,
    {
        out.push(b[i]);
        i = i + 1;
    }
    assert(b@.subrange(0, b@.len() as int) =~= b@);
    reveal(enc_str);
    assert(out@ =~= old(out)@ + enc_str(s@));
}

fn push_item(out: &mut Vec<u8>, it: &IndexedItem)
    ensures
        final(out)@ == old(out)@ + enc_item(it@),
{
    push_str(out, it.name.as_str());
    push_str(out, it.path.as_str());
    push_u64(out, it.file_ref);
    push_u64(out, it.parent_ref);
    push_u64(out, it.size);
    out.push(
        if it.is_dir {
            1u8
        } else {
            0u8
        },
    );
    push_u64(out, it.mtime);
    assert(final(out)@ =~= old(out)@ + enc_item(it@));
}

/// The blob of an index's live items, under `h`.
pub fn encode_blob(h: &BlobHeader, items: &Vec<IndexedItem>) -> (r: Vec<u8>)
    ensures
        r@ == enc_blob(*h, views(items@)),
{
    let mut out: Vec<u8> = Vec::new();
    push_u32(&mut out, h.version);
    out.push(h.drive);
    push_u64(&mut out, h.journal_id);
    push_u64(&mut out, items.len() as u64);
    let ghost head = out@;
    let ghost s = views(items@);
    let mut i: usize = 0;
    assert(out@ =~= head + enc_items(s.subrange(0, 0)));
    while i < items.len()
        invariant
            i <= items@.len(),
            s == views(items@),
            out@ == head + enc_items(s.subrange(0, i as int)),
        decreases items@.len() - i,
    {
        let it = &items[i];
        assert(s[i as int] == it@);
        push_item(&mut out, it);
        proof {
            let t = s.subrange(0, i + 1);
            assert(t.drop_last() =~= s.subrange(0, i as int));
            assert(t.last() == it@);
        }
        i = i + 1;
    }
    assert(s.subrange(0, items@.len() as int) =~= s);
    assert(out@ =~= enc_blob(*h, s));
    out
}


/// Bytes in a blob header: version, drive, journal id, item count.
pub const BLOB_HEADER_LEN: usize = 21;

/// Bytes of an item after its two strings.
pub const ITEM_TAIL_LEN: usize = 33;

/// The string stored at `o`, and where it ends.
pub open spec fn read_str_at(b: Seq<u8>, o: int) -> Option<(Seq<char>, int)> {
    if o < 0 || o + 8 > b.len() {
        None
    } else {
        let n = u64_at(b, o) as int;
        if o + 8 + n > b.len() || !valid_utf8(b.subrange(o + 8, o + 8 + n)) {
            None
        } else {
            Some((vstd::utf8::decode_utf8(b.subrange(o + 8, o + 8 + n)), o + 8 + n))
        }
    }
}

/// The item stored at `o` (its case-folded name empty), and where it ends.
/// The directory flag must be 0 or 1.
pub open spec fn read_item_at(b: Seq<u8>, o: int) -> Option<(ItemView, int)> {
    match read_str_at(b, o) {
        None => None,
        Some((name, o1)) => match read_str_at(b, o1) {
            None => None,
            Some((path, o2)) => if o2 + ITEM_TAIL_LEN > b.len() || b[o2 + 24] > 1 {
                None
            } else {
                Some(
                    (
                        ItemView {
                            name,
                            name_lower: Seq::empty(),
                            path,
                            file_ref: u64_at(b, o2),
                            parent_ref: u64_at(b, o2 + 8),
                            size: u64_at(b, o2 + 16),
                            is_dir: b[o2 + 24] == 1,
                            mtime: u64_at(b, o2 + 25),
                        },
                        o2 + ITEM_TAIL_LEN,
                    ),
                )
            },
        },
    }
}

/// `count` items stored from `o` on, ending exactly at the end of `b`.
pub open spec fn read_items(b: Seq<u8>, o: int, count: nat) -> Option<Seq<ItemView>>
    decreases count,
{
    if count == 0 {
        if o == b.len() {
            Some(Seq::empty())
        } else {
            None
        }
    } else {
        match read_item_at(b, o) {
            None => None,
            Some((v, o1)) => match read_items(b, o1, (count - 1) as nat) {
                None => None,
                Some(rest) => Some(seq![v] + rest),
            },
        }
    }
}

/// The header and items of a blob, if it is well formed.
pub open spec fn read_blob(b: Seq<u8>) -> Option<(BlobHeader, Seq<ItemView>)> {
    if b.len() < BLOB_HEADER_LEN {
        None
    } else {
        let h = BlobHeader { version: u32_at(b, 0), drive: b[4], journal_id: u64_at(b, 5) };
        match read_items(b, BLOB_HEADER_LEN as int, u64_at(b, 13) as nat) {
            Some(s) => Some((h, s)),
            None => None,
        }
    }
}

fn read_str_exec(b: &[u8], o: usize) -> (r: Option<(String, usize)>)
    ensures
        match r {
            Some((s, e)) => read_str_at(b@, o as int) == Some((s@, e as int)),
            None => read_str_at(b@, o as int) is None,
        },
{
    let len = b.len();
    if o > len || len - o < 8 {
        return None;
    }
    let n64 = read_u64(b, o);
    if n64 > (len - o - 8) as u64 {
        return None;
    }
    let n = n64 as usize;
    let mut bytes: Vec<u8> = Vec::new();
    let mut i: usize = 0;
    while i < n
        invariant
            o + 8 + n <= len == b@.len(),
            i <= n,
            bytes@ =~= b@.subrange(o + 8, o + 8 + i),
        decreases n - i,
    {
        bytes.push(b[o + 8 + i]);
        i = i + 1;
    }
    let ghost raw = bytes@;
    match utf8_string(bytes) {
        Some(s) => {
            proof {
                vstd::utf8::encode_utf8_decode_utf8(s@);
            }
            Some((s, o + 8 + n))
        },
        None => None,
    }
}

fn read_item_exec(b: &[u8], o: usize) -> (r: Option<(IndexedItem, usize)>)
    ensures
        match r {
            Some((it, e)) => read_item_at(b@, o as int) == Some((it@, e as int)),
            None => read_item_at(b@, o as int) is None,
        },
{
    let (name, o1) = match read_str_exec(b, o) {
        Some(x) => x,
        None => return None,
    };
    let (path, o2) = match read_str_exec(b, o1) {
        Some(x) => x,
        None => return None,
    };
    let len = b.len();
    if o2 > len || len - o2 < ITEM_TAIL_LEN || b[o2 + 24] > 1 {
        return None;
    }
    let it = IndexedItem {
        name,
        name_lower: String::new(),
        path,
        file_ref: read_u64(b, o2),
        parent_ref: read_u64(b, o2 + 8),
        size: read_u64(b, o2 + 16),
        is_dir: b[o2 + 24] == 1,
        mtime: read_u64(b, o2 + 25),
    };
    Some((it, o2 + ITEM_TAIL_LEN))
}

/// Reads a blob: its header and items, or nothing when it is not well formed.
pub fn decode_blob(b: &[u8]) -> (r: Option<(BlobHeader, Vec<IndexedItem>)>)
    ensures
        match r {
            Some((h, items)) => read_blob(b@) == Some((h, views(items@))),
            None => read_blob(b@) is None,
        },
{
    if b.len() < BLOB_HEADER_LEN {
        return None;
    }
    let h = BlobHeader { version: read_u32(b, 0), drive: b[4], journal_id: read_u64(b, 5) };
    let count = read_u64(b, 13);
    let mut out: Vec<IndexedItem> = Vec::new();
    let mut o: usize = BLOB_HEADER_LEN;
    let mut k: u64 = 0;
    while k < count
        invariant
            k <= count,
            count == u64_at(b@, 13),
            read_items(b@, BLOB_HEADER_LEN as int, count as nat) == match read_items(
                b@,
                o as int,
                (count - k) as nat,
            ) {
                Some(rest) => Some(views(out@) + rest),
                None => None::<Seq<ItemView>>,
            },
        decreases count - k,
    {
        match read_item_exec(b, o) {
            Some((it, next)) => {
                let ghost prev = views(out@);
                let ghost v = it@;
                out.push(it);
                proof {
                    assert(views(out@) =~= prev.push(v));
                    match read_items(b@, next as int, (count - k - 1) as nat) {
                        Some(rest) => {
                            assert(prev + (seq![v] + rest) =~= views(out@) + rest);
                        },
                        None => {},
                    }
                }
                o = next;
            },
            None => {
                return None;
            },
        }
        k = k + 1;
    }
    if o != b.len() {
        return None;
    }
    assert(views(out@) + Seq::<ItemView>::empty() =~= views(out@));
    Some((h, out))
}


/// An item as a blob gives it back: without its case-folded name.
pub open spec fn unfolded(v: ItemView) -> ItemView {
    ItemView { name_lower: Seq::empty(), ..v }
}

proof fn lemma_le64_len(x: u64)
    ensures
        le64(x).len() == 8,
{
    reveal(le64);
}

proof fn lemma_u64_in(pre: Seq<u8>, x: u64, post: Seq<u8>)
    ensures
        u64_at(pre + le64(x) + post, pre.len() as int) == x,
{
    let b = pre + le64(x) + post;
    let t = le64(x) + post;
    lemma_le64(x, post);
    let o = pre.len() as int;
    lemma_le64_len(x);
    assert forall|k: int| 0 <= k < 8 implies b[o + k] == t[k] by {}
    assert(u32_at(b, o) == u32_at(t, 0));
    assert(u32_at(b, o + 4) == u32_at(t, 4));
}

proof fn lemma_str_in(pre: Seq<u8>, s: Seq<char>, post: Seq<u8>)
    requires
        encode_utf8(s).len() <= u64::MAX,
    ensures
        read_str_at(pre + enc_str(s) + post, pre.len() as int) == Some(
            (s, (pre.len() + enc_str(s).len()) as int),
        ),
{
    let e = encode_utf8(s);
    let b = pre + enc_str(s) + post;
    let o = pre.len() as int;
    reveal(enc_str);
    lemma_le64_len(e.len() as u64);
    assert(b =~= pre + le64(e.len() as u64) + (e + post));
    lemma_u64_in(pre, e.len() as u64, e + post);
    assert(b.subrange(o + 8, o + 8 + e.len()) =~= e);
    vstd::utf8::encode_utf8_valid_utf8(s);
    vstd::utf8::encode_utf8_decode_utf8(s);
}

proof fn lemma_tail_in(pre: Seq<u8>, v: ItemView, post: Seq<u8>)
    ensures
        ({
            let b = pre + enc_tail(v) + post;
            let o = pre.len() as int;
            &&& enc_tail(v).len() == ITEM_TAIL_LEN
            &&& u64_at(b, o) == v.file_ref
            &&& u64_at(b, o + 8) == v.parent_ref
            &&& u64_at(b, o + 16) == v.size
            &&& b[o + 24] == (if v.is_dir {
                1u8
            } else {
                0u8
            })
            &&& u64_at(b, o + 25) == v.mtime
        }),
{
    let d: u8 = if v.is_dir {
        1
    } else {
        0
    };
    lemma_le64_len(v.file_ref);
    lemma_le64_len(v.parent_ref);
    lemma_le64_len(v.size);
    lemma_le64_len(v.mtime);
    let f = le64(v.file_ref);
    let p = le64(v.parent_ref);
    let z = le64(v.size);
    let m = le64(v.mtime);
    let b = pre + enc_tail(v) + post;
    assert(b =~= pre + f + (p + z + seq![d] + m + post));
    lemma_u64_in(pre, v.file_ref, p + z + seq![d] + m + post);
    assert(b =~= (pre + f) + p + (z + seq![d] + m + post));
    lemma_u64_in(pre + f, v.parent_ref, z + seq![d] + m + post);
    assert(b =~= (pre + f + p) + z + (seq![d] + m + post));
    lemma_u64_in(pre + f + p, v.size, seq![d] + m + post);
    assert(b =~= (pre + f + p + z + seq![d]) + m + post);
    lemma_u64_in(pre + f + p + z + seq![d], v.mtime, post);
}

#[verifier::rlimit(100)]
#[verifier::spinoff_prover]
proof fn lemma_item_in(pre: Seq<u8>, v: ItemView, post: Seq<u8>)
    requires
        encode_utf8(v.name).len() <= u64::MAX,
        encode_utf8(v.path).len() <= u64::MAX,
    ensures
        read_item_at(pre + enc_item(v) + post, pre.len() as int) == Some(
            (unfolded(v), (pre.len() + enc_item(v).len()) as int),
        ),
{
    let b = pre + enc_item(v) + post;
    let x1 = enc_str(v.name);
    let x2 = enc_str(v.path);
    let tl = enc_tail(v);
    assert(b =~= pre + x1 + (x2 + tl + post));
    lemma_str_in(pre, v.name, x2 + tl + post);
    assert(b =~= (pre + x1) + x2 + (tl + post));
    lemma_str_in(pre + x1, v.path, tl + post);
    assert(b =~= (pre + x1 + x2) + tl + post);
    lemma_tail_in(pre + x1 + x2, v, post);
}

proof fn lemma_enc_items_front(s: Seq<ItemView>)
    requires
        s.len() > 0,
    ensures
        enc_items(s) == enc_item(s[0]) + enc_items(s.drop_first()),
    decreases s.len(),
{
    if s.len() == 1 {
        assert(s.drop_last() =~= Seq::<ItemView>::empty());
        assert(s.drop_first() =~= Seq::<ItemView>::empty());
        assert(enc_items(s) =~= enc_item(s[0]) + enc_items(s.drop_first()));
    } else {
        let u = s.drop_last();
        lemma_enc_items_front(u);
        assert(u.drop_first() =~= s.drop_first().drop_last());
        assert(s.drop_first().last() == s.last());
        assert(u[0] == s[0]);
        assert(enc_items(s) =~= enc_item(s[0]) + enc_items(s.drop_first()));
    }
}

/// Item strings short enough for their lengths to be stored.
pub open spec fn storable(s: Seq<ItemView>) -> bool {
    &&& s.len() <= u64::MAX
    &&& forall|i: int|
        0 <= i < s.len() ==> encode_utf8((#[trigger] s[i]).name).len() <= u64::MAX && encode_utf8(
            s[i].path,
        ).len() <= u64::MAX
}

#[verifier::rlimit(100)]
#[verifier::spinoff_prover]
proof fn lemma_items_in(pre: Seq<u8>, s: Seq<ItemView>)
    requires
        storable(s),
    ensures
        read_items(pre + enc_items(s), pre.len() as int, s.len()) == Some(
            s.map_values(|v: ItemView| unfolded(v)),
        ),
    decreases s.len(),
{
    if s.len() == 0 {
        assert(s.map_values(|v: ItemView| unfolded(v)) =~= Seq::<ItemView>::empty());
    } else {
        lemma_enc_items_front(s);
        let r = s.drop_first();
        assert(storable(r)) by {
            assert forall|i: int| 0 <= i < r.len() implies encode_utf8((#[trigger] r[i]).name).len()
                <= u64::MAX && encode_utf8(r[i].path).len() <= u64::MAX by {
                assert(r[i] == s[i + 1]);
            }
        }
        let b = pre + enc_items(s);
        assert(b =~= pre + enc_item(s[0]) + enc_items(r));
        lemma_item_in(pre, s[0], enc_items(r));
        let p1 = pre + enc_item(s[0]);
        assert(b =~= p1 + enc_items(r));
        lemma_items_in(p1, r);
        assert(seq![unfolded(s[0])] + r.map_values(|v: ItemView| unfolded(v)) =~= s.map_values(
            |v: ItemView| unfolded(v),
        ));
    }
}

/// Reading back a blob gives the header and the items it was written with,
/// without their case-folded names.
#[verifier::rlimit(100)]
#[verifier::spinoff_prover]
pub proof fn law_blob_round_trip(h: BlobHeader, s: Seq<ItemView>)
    requires
        storable(s),
    ensures
        read_blob(enc_blob(h, s)) == Some((h, s.map_values(|v: ItemView| unfolded(v)))),
{
    let b = enc_blob(h, s);
    let head = le32(h.version) + seq![h.drive] + le64(h.journal_id) + le64(s.len() as u64);
    assert(b =~= head + enc_items(s));
    assert(le32(h.version) + seq![h.drive] + le64(h.journal_id) + le64(s.len() as u64) =~= head);
    lemma_le32(h.version, seq![h.drive] + le64(h.journal_id) + le64(s.len() as u64) + enc_items(s));
    assert(b =~= le32(h.version) + (seq![h.drive] + le64(h.journal_id) + le64(s.len() as u64)
        + enc_items(s)));
    assert(b =~= (le32(h.version) + seq![h.drive]) + le64(h.journal_id) + (le64(s.len() as u64)
        + enc_items(s)));
    lemma_u64_in(le32(h.version) + seq![h.drive], h.journal_id, le64(s.len() as u64) + enc_items(s));
    assert(b =~= (le32(h.version) + seq![h.drive] + le64(h.journal_id)) + le64(s.len() as u64)
        + enc_items(s));
    lemma_u64_in(le32(h.version) + seq![h.drive] + le64(h.journal_id), s.len() as u64, enc_items(s));
    lemma_le64_len(h.journal_id);
    lemma_le64_len(s.len() as u64);
    assert(b[4] == h.drive);
    lemma_items_in(head, s);
}


/// One directory-cache entry: the directory's reference, then its path.
pub open spec fn enc_dir_entry(e: (u64, Seq<char>)) -> Seq<u8> {
    le64(e.0) + enc_str(e.1)
}

pub open spec fn enc_dir_entries(s: Seq<(u64, Seq<char>)>) -> Seq<u8>
    decreases s.len(),
{
    if s.len() == 0 {
        Seq::empty()
    } else {
        enc_dir_entries(s.drop_last()) + enc_dir_entry(s.last())
    }
}

/// A whole directory-cache file: version, drive, journal id, entry count, entries.
pub open spec fn enc_dir_cache(h: BlobHeader, s: Seq<(u64, Seq<char>)>) -> Seq<u8> {
    le32(h.version) + seq![h.drive] + le64(h.journal_id) + le64(s.len() as u64) + enc_dir_entries(s)
}

pub open spec fn pair_views(s: Seq<(u64, String)>) -> Seq<(u64, Seq<char>)> {
    s.map_values(|e: (u64, String)| (e.0, e.1@))
}

/// The directory cache of a volume, under `h`.
pub fn encode_dir_cache(h: &BlobHeader, entries: &Vec<(u64, String)>) -> (r: Vec<u8>)
    ensures
        r@ == enc_dir_cache(*h, pair_views(entries@)),
{
    let mut out: Vec<u8> = Vec::new();
    push_u32(&mut out, h.version);
    out.push(h.drive);
    push_u64(&mut out, h.journal_id);
    push_u64(&mut out, entries.len() as u64);
    let ghost head = out@;
    let ghost s = pair_views(entries@);
    let mut i: usize = 0;
    assert(out@ =~= head + enc_dir_entries(s.subrange(0, 0)));
    while i < entries.len()
        invariant
            i <= entries@.len(),
            s == pair_views(entries@),
            out@ == head + enc_dir_entries(s.subrange(0, i as int)),
        decreases entries@.len() - i,
    {
        let e = &entries[i];
        assert(s[i as int] == (e.0, e.1@));
        let ghost before = out@;
        push_u64(&mut out, e.0);
        push_str(&mut out, e.1.as_str());
        proof {
            let t = s.subrange(0, i + 1);
            assert(t.drop_last() =~= s.subrange(0, i as int));
            assert(t.last() == (e.0, e.1@));
            assert(out@ =~= before + enc_dir_entry((e.0, e.1@)));
        }
        i = i + 1;
    }
    assert(s.subrange(0, entries@.len() as int) =~= s);
    assert(out@ =~= enc_dir_cache(*h, s));
    out
}

/// `count` directory entries stored from `o` on, ending exactly at the end of `b`.
pub open spec fn read_dir_entries(b: Seq<u8>, o: int, count: nat) -> Option<Seq<(u64, Seq<char>)>>
    decreases count,
{
    if count == 0 {
        if o == b.len() {
            Some(Seq::empty())
        } else {
            None
        }
    } else if o < 0 || o + 8 > b.len() {
        None
    } else {
        match read_str_at(b, o + 8) {
            None => None,
            Some((path, o1)) => match read_dir_entries(b, o1, (count - 1) as nat) {
                None => None,
                Some(rest) => Some(seq![(u64_at(b, o), path)] + rest),
            },
        }
    }
}

/// The header and entries of a directory-cache file, if it is well formed.
pub open spec fn read_dir_cache(b: Seq<u8>) -> Option<(BlobHeader, Seq<(u64, Seq<char>)>)> {
    if b.len() < BLOB_HEADER_LEN {
        None
    } else {
        let h = BlobHeader { version: u32_at(b, 0), drive: b[4], journal_id: u64_at(b, 5) };
        match read_dir_entries(b, BLOB_HEADER_LEN as int, u64_at(b, 13) as nat) {
            Some(s) => Some((h, s)),
            None => None,
        }
    }
}

/// Reads a directory-cache file, or nothing when it is not well formed.
pub fn decode_dir_cache(b: &[u8]) -> (r: Option<(BlobHeader, Vec<(u64, String)>)>)
    ensures
        match r {
            Some((h, entries)) => read_dir_cache(b@) == Some((h, pair_views(entries@))),
            None => read_dir_cache(b@) is None,
        },
{
    if b.len() < BLOB_HEADER_LEN {
        return None;
    }
    let h = BlobHeader { version: read_u32(b, 0), drive: b[4], journal_id: read_u64(b, 5) };
    let count = read_u64(b, 13);
    let mut out: Vec<(u64, String)> = Vec::new();
    let mut o: usize = BLOB_HEADER_LEN;
    let mut k: u64 = 0;
    while k < count
        invariant
            k <= count,
            count == u64_at(b@, 13),
            read_dir_entries(b@, BLOB_HEADER_LEN as int, count as nat) == match read_dir_entries(
                b@,
                o as int,
                (count - k) as nat,
            ) {
                Some(rest) => Some(pair_views(out@) + rest),
                None => None::<Seq<(u64, Seq<char>)>>,
            },
        decreases count - k,
    {
        let len = b.len();
        if o > len || len - o < 8 {
            return None;
        }
        let r = read_u64(b, o);
        match read_str_exec(b, o + 8) {
            Some((path, next)) => {
                let ghost prev = pair_views(out@);
                let ghost v = (r, path@);
                out.push((r, path));
                proof {
                    assert(pair_views(out@) =~= prev.push(v));
                    match read_dir_entries(b@, next as int, (count - k - 1) as nat) {
                        Some(rest) => {
                            assert(prev + (seq![v] + rest) =~= pair_views(out@) + rest);
                        },
                        None => {},
                    }
                }
                o = next;
            },
            None => {
                return None;
            },
        }
        k = k + 1;
    }
    if o != b.len() {
        return None;
    }
    assert(pair_views(out@) + Seq::<(u64, Seq<char>)>::empty() =~= pair_views(out@));
    Some((h, out))
}


proof fn lemma_dir_entries_front(s: Seq<(u64, Seq<char>)>)
    requires
        s.len() > 0,
    ensures
        enc_dir_entries(s) == enc_dir_entry(s[0]) + enc_dir_entries(s.drop_first()),
    decreases s.len(),
{
    if s.len() == 1 {
        assert(s.drop_last() =~= Seq::<(u64, Seq<char>)>::empty());
        assert(s.drop_first() =~= Seq::<(u64, Seq<char>)>::empty());
        assert(enc_dir_entries(s) =~= enc_dir_entry(s[0]) + enc_dir_entries(s.drop_first()));
    } else {
        let u = s.drop_last();
        lemma_dir_entries_front(u);
        assert(u.drop_first() =~= s.drop_first().drop_last());
        assert(s.drop_first().last() == s.last());
        assert(u[0] == s[0]);
        assert(enc_dir_entries(s) =~= enc_dir_entry(s[0]) + enc_dir_entries(s.drop_first()));
    }
}

/// Paths short enough for their lengths to be stored.
pub open spec fn dir_storable(s: Seq<(u64, Seq<char>)>) -> bool {
    &&& s.len() <= u64::MAX
    &&& forall|i: int| 0 <= i < s.len() ==> encode_utf8((#[trigger] s[i]).1).len() <= u64::MAX
}

#[verifier::rlimit(100)]
#[verifier::spinoff_prover]
proof fn lemma_dir_entries_in(pre: Seq<u8>, s: Seq<(u64, Seq<char>)>)
    requires
        dir_storable(s),
    ensures
        read_dir_entries(pre + enc_dir_entries(s), pre.len() as int, s.len()) == Some(s),
    decreases s.len(),
{
    if s.len() == 0 {
        assert(pre + enc_dir_entries(s) =~= pre);
    } else {
        lemma_dir_entries_front(s);
        let r = s.drop_first();
        assert(dir_storable(r)) by {
            assert forall|i: int| 0 <= i < r.len() implies encode_utf8((#[trigger] r[i]).1).len()
                <= u64::MAX by {
                assert(r[i] == s[i + 1]);
            }
        }
        let b = pre + enc_dir_entries(s);
        let x = s[0];
        lemma_le64_len(x.0);
        assert(b =~= pre + le64(x.0) + (enc_str(x.1) + enc_dir_entries(r)));
        lemma_u64_in(pre, x.0, enc_str(x.1) + enc_dir_entries(r));
        assert(b =~= (pre + le64(x.0)) + enc_str(x.1) + enc_dir_entries(r));
        lemma_str_in(pre + le64(x.0), x.1, enc_dir_entries(r));
        let p1 = pre + le64(x.0) + enc_str(x.1);
        assert(b =~= p1 + enc_dir_entries(r));
        lemma_dir_entries_in(p1, r);
        assert(seq![(x.0, x.1)] + r =~= s);
    }
}

/// Reading back a directory-cache file gives the header and the entries it
/// was written with.
#[verifier::rlimit(100)]
#[verifier::spinoff_prover]
pub proof fn law_dir_cache_round_trip(h: BlobHeader, s: Seq<(u64, Seq<char>)>)
    requires
        dir_storable(s),
    ensures
        read_dir_cache(enc_dir_cache(h, s)) == Some((h, s)),
{
    let b = enc_dir_cache(h, s);
    let head = le32(h.version) + seq![h.drive] + le64(h.journal_id) + le64(s.len() as u64);
    assert(b =~= head + enc_dir_entries(s));
    lemma_le32(h.version, seq![h.drive] + le64(h.journal_id) + le64(s.len() as u64) + enc_dir_entries(s));
    assert(b =~= le32(h.version) + (seq![h.drive] + le64(h.journal_id) + le64(s.len() as u64)
        + enc_dir_entries(s)));
    assert(b =~= (le32(h.version) + seq![h.drive]) + le64(h.journal_id) + (le64(s.len() as u64)
        + enc_dir_entries(s)));
    lemma_u64_in(le32(h.version) + seq![h.drive], h.journal_id, le64(s.len() as u64) + enc_dir_entries(s));
    assert(b =~= (le32(h.version) + seq![h.drive] + le64(h.journal_id)) + le64(s.len() as u64)
        + enc_dir_entries(s));
    lemma_u64_in(le32(h.version) + seq![h.drive] + le64(h.journal_id), s.len() as u64, enc_dir_entries(s));
    lemma_le64_len(h.journal_id);
    lemma_le64_len(s.len() as u64);
    assert(b[4] == h.drive);
    lemma_dir_entries_in(head, s);
}

} // verus!
