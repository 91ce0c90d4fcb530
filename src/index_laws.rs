//! Properties that hold across calls of the search index.

use vstd::prelude::*;
use vstd::seq_lib::group_filter_ensures;
use vstd::utf8::encode_utf8;
use crate::search_index::{
    built, contains_pred, fresh, live, live_pred, name_contains, name_starts_with, prefix_pred,
    retire_ref, take_max, ItemView, SearchIndex,
};
use crate::text::{lower_of, occurs_at};
use crate::changes::{scan_keeps, scan_records_spec, MftView};
use crate::usn::RawView;
use crate::blob::{enc_blob, read_blob, storable, unfolded, law_blob_round_trip};
use crate::persist::BlobHeader;
use crate::paths::{reconstructed, retained_pred, root_path};

verus! {

broadcast use group_filter_ensures;

/// Every element that `p` accepts in `s` is among the first `max` accepted
/// ones when `max` is at least the length of `s`.
proof fn lemma_kept_when_unbounded(s: Seq<ItemView>, p: spec_fn(ItemView) -> bool, i: int, max: usize)
    requires
        0 <= i < s.len(),
        p(s[i]),
        max >= s.len(),
    ensures
        take_max(s.filter(p), max).contains(s[i]),
{
}

/// A live item whose case-folded name contains the case-folded query is
/// found by `search_contains` when the result cap is at least the number of items.
pub proof fn law_contains_complete(s: Seq<ItemView>, q: Seq<char>, i: int, max: usize)
    requires
        0 <= i < s.len(),
        live(s[i]),
        name_contains(s[i], lower_of(q)),
        max >= s.len(),
    ensures
        take_max(s.filter(contains_pred(lower_of(q))), max).contains(s[i]),
{
    lemma_kept_when_unbounded(s, contains_pred(lower_of(q)), i, max);
}

/// A live item whose case-folded name starts with the case-folded query is
/// found by `search_prefix` when the result cap is at least the number of items.
pub proof fn law_prefix_complete(s: Seq<ItemView>, q: Seq<char>, i: int, max: usize)
    requires
        0 <= i < s.len(),
        live(s[i]),
        name_starts_with(s[i], lower_of(q)),
        max >= s.len(),
    ensures
        take_max(s.filter(prefix_pred(lower_of(q))), max).contains(s[i]),
{
    lemma_kept_when_unbounded(s, prefix_pred(lower_of(q)), i, max);
}

/// After `remove_file(r)`, `search_contains` returns no item with file reference `r`.
pub proof fn law_removed_not_found(s: Seq<ItemView>, r: u64, q: Seq<char>, max: usize)
    ensures
        forall|j: int|
            0 <= j < take_max(retire_ref(s, r).filter(contains_pred(lower_of(q))), max).len()
                ==> (#[trigger] take_max(retire_ref(s, r).filter(contains_pred(lower_of(q))), max)[j]).file_ref
                != r,
{
    let p = contains_pred(lower_of(q));
    let t = retire_ref(s, r);
    let f = t.filter(p);
    crate::search_index::lemma_retired(s, r);
    assert forall|j: int| 0 <= j < take_max(f, max).len() implies (#[trigger] take_max(
        f,
        max,
    )[j]).file_ref != r by {
        assert(take_max(f, max)[j] == f[j]);
        assert(p(f[j]));
        t.lemma_filter_contains_rev(p, f[j]);
        let k = choose|k: int| 0 <= k < t.len() && t[k] == f[j];
    }
}

/// A query whose matches outnumber the cap returns exactly `max` items.
pub proof fn law_truncated_to_max(s: Seq<ItemView>, p: spec_fn(ItemView) -> bool, max: usize)
    requires
        s.filter(p).len() > max,
    ensures
        take_max(s.filter(p), max).len() == max,
{
}

/// A query longer (in UTF-8 bytes) than every case-folded item name finds nothing.
pub proof fn law_long_query_empty(s: Seq<ItemView>, q: Seq<char>, max: usize)
    requires
        forall|i: int|
            0 <= i < s.len() ==> encode_utf8((#[trigger] s[i]).name_lower).len() < encode_utf8(
                lower_of(q),
            ).len(),
    ensures
        take_max(s.filter(contains_pred(lower_of(q))), max).len() == 0,
{
    let p = contains_pred(lower_of(q));
    let f = s.filter(p);
    if f.len() > 0 {
        assert(p(f[0]));
        s.lemma_filter_contains_rev(p, f[0]);
        let k = choose|k: int| 0 <= k < s.len() && s[k] == f[0];
        let w = choose|w: int| occurs_at(encode_utf8(f[0].name_lower), encode_utf8(lower_of(q)), w);
        assert(occurs_at(encode_utf8(s[k].name_lower), encode_utf8(lower_of(q)), w));
    }
}

/// Items that are all live, hold their case-folded names and have distinct
/// file references.
pub open spec fn clean(t: Seq<ItemView>) -> bool {
    &&& forall|j: int| 0 <= j < t.len() ==> live(#[trigger] t[j]) && t[j].name_lower == lower_of(t[j].name)
    &&& forall|a: int, b: int|
        0 <= a < b < t.len() ==> (#[trigger] t[a]).file_ref != (#[trigger] t[b]).file_ref
}

proof fn lemma_built_clean(t: Seq<ItemView>)
    requires
        clean(t),
    ensures
        built(t) == t,
    decreases t.len(),
{
    if t.len() > 0 {
        let u = t.drop_last();
        let x = t.last();
        assert(clean(u)) by {
            assert forall|a: int, b: int| 0 <= a < b < u.len() implies (#[trigger] u[a]).file_ref
                != (#[trigger] u[b]).file_ref by {
                assert(u[a] == t[a] && u[b] == t[b]);
            }
            assert forall|j: int| 0 <= j < u.len() implies live(#[trigger] u[j]) && u[j].name_lower
                == lower_of(u[j].name) by {
                assert(u[j] == t[j]);
            }
        }
        lemma_built_clean(u);
        assert(retire_ref(u, x.file_ref) =~= u) by {
            assert forall|j: int| 0 <= j < u.len() implies retire_ref(u, x.file_ref)[j] == u[j] by {
                assert(u[j] == t[j]);
                assert(t[j].file_ref != t[t.len() - 1].file_ref);
            }
        }
        assert(fresh(x) == x);
        assert(u.push(x) =~= t);
    }
}

proof fn lemma_filter_all(t: Seq<ItemView>, p: spec_fn(ItemView) -> bool)
    requires
        forall|j: int| 0 <= j < t.len() ==> p(#[trigger] t[j]),
    ensures
        t.filter(p) == t,
    decreases t.len(),
{
    reveal(Seq::filter);
    if t.len() > 0 {
        let u = t.drop_last();
        assert forall|j: int| 0 <= j < u.len() implies p(#[trigger] u[j]) by {
            assert(u[j] == t[j]);
        }
        lemma_filter_all(u, p);
        assert(u.push(t.last()) =~= t);
    }
}

proof fn lemma_live_filter_clean(s: Seq<ItemView>)
    requires
        forall|i: int|
            0 <= i < s.len() && live(#[trigger] s[i]) ==> s[i].name_lower == lower_of(s[i].name),
        forall|i: int, j: int|
            0 <= i < s.len() && 0 <= j < s.len() && live(#[trigger] s[i]) && live(#[trigger] s[j])
                && s[i].file_ref == s[j].file_ref ==> i == j,
    ensures
        clean(s.filter(live_pred())),
    decreases s.len(),
{
    reveal(Seq::filter);
    let p = live_pred();
    let f = s.filter(p);
    if s.len() > 0 {
        let u = s.drop_last();
        assert forall|i: int, j: int|
            0 <= i < u.len() && 0 <= j < u.len() && live(#[trigger] u[i]) && live(#[trigger] u[j])
                && u[i].file_ref == u[j].file_ref implies i == j by {
            assert(u[i] == s[i] && u[j] == s[j]);
        }
        assert forall|i: int| 0 <= i < u.len() && live(#[trigger] u[i]) implies u[i].name_lower
            == lower_of(u[i].name) by {
            assert(u[i] == s[i]);
        }
        lemma_live_filter_clean(u);
        let g = u.filter(p);
        assert forall|j: int| 0 <= j < f.len() implies live(#[trigger] f[j]) && f[j].name_lower
            == lower_of(f[j].name) by {
            assert(p(f[j]));
            s.lemma_filter_contains_rev(p, f[j]);
            let k = choose|k: int| 0 <= k < s.len() && s[k] == f[j];
        }
        if p(s.last()) {
            assert forall|a: int, b: int| 0 <= a < b < f.len() implies (#[trigger] f[a]).file_ref
                != (#[trigger] f[b]).file_ref by {
                if b == f.len() - 1 {
                    assert(f[a] == g[a]);
                    u.lemma_filter_contains_rev(p, g[a]);
                    let k = choose|k: int| 0 <= k < u.len() && u[k] == g[a];
                    assert(s[k] == u[k]);
                    assert(live(s[k]));
                    assert(k != s.len() - 1);
                } else {
                    assert(f[a] == g[a] && f[b] == g[b]);
                }
            }
        }
    }
}

/// Saving an index (its live items) and loading what was saved gives back
/// the same live items, in the same order.
pub proof fn law_save_load(idx: &SearchIndex)
    requires
        idx.wf(),
    ensures
        built(idx@.filter(live_pred())).filter(live_pred()) == idx@.filter(live_pred()),
{
    idx.lemma_wf_live();
    let t = idx@.filter(live_pred());
    lemma_live_filter_clean(idx@);
    lemma_built_clean(t);
    lemma_filter_all(t, live_pred());
}

proof fn lemma_built_distinct(t: Seq<ItemView>)
    requires
        forall|a: int, b: int|
            0 <= a < b < t.len() ==> (#[trigger] t[a]).file_ref != (#[trigger] t[b]).file_ref,
    ensures
        built(t) == t.map_values(|v: ItemView| fresh(v)),
    decreases t.len(),
{
    if t.len() > 0 {
        let u = t.drop_last();
        let x = t.last();
        assert forall|a: int, b: int| 0 <= a < b < u.len() implies (#[trigger] u[a]).file_ref
            != (#[trigger] u[b]).file_ref by {
            assert(u[a] == t[a] && u[b] == t[b]);
        }
        lemma_built_distinct(u);
        let bu = u.map_values(|v: ItemView| fresh(v));
        assert(retire_ref(bu, x.file_ref) =~= bu) by {
            assert forall|j: int| 0 <= j < bu.len() implies retire_ref(bu, x.file_ref)[j] == bu[j] by {
                assert(u[j] == t[j]);
                assert(t[j].file_ref != t[t.len() - 1].file_ref);
            }
        }
        assert(bu.push(fresh(x)) =~= t.map_values(|v: ItemView| fresh(v)));
    }
}

/// Rebuilding a volume's index from an enumeration gives an index whose
/// item count is the number of records kept: those under a resolved folder
/// that are neither excluded directories nor files with excluded extensions.
/// The records carry names (reserved, empty names are dropped when they are
/// decoded) and the kept ones have distinct file references.
pub proof fn law_rebuild_count(recs: Seq<MftView>, drive: char)
    requires
        forall|i: int| 0 <= i < recs.len() ==> (#[trigger] recs[i]).filename.len() > 0,
        forall|a: int, b: int|
            0 <= a < b < recs.filter(retained_pred(recs, root_path(drive))).len() ==> (#[trigger] recs.filter(
                retained_pred(recs, root_path(drive)),
            )[a]).file_ref != (#[trigger] recs.filter(retained_pred(recs, root_path(drive)))[b]).file_ref,
    ensures
        built(reconstructed(recs, drive)).filter(live_pred()).len() == recs.filter(
            retained_pred(recs, root_path(drive)),
        ).len(),
{
    let p = retained_pred(recs, root_path(drive));
    let f = recs.filter(p);
    let t = reconstructed(recs, drive);
    assert forall|a: int, b: int| 0 <= a < b < t.len() implies (#[trigger] t[a]).file_ref
        != (#[trigger] t[b]).file_ref by {
        assert(t[a].file_ref == f[a].file_ref);
        assert(t[b].file_ref == f[b].file_ref);
    }
    lemma_built_distinct(t);
    let bt = t.map_values(|v: ItemView| fresh(v));
    assert forall|j: int| 0 <= j < bt.len() implies live_pred()(#[trigger] bt[j]) by {
        recs.lemma_filter_contains_rev(p, f[j]);
        let k = choose|k: int| 0 <= k < recs.len() && recs[k] == f[j];
    }
    lemma_filter_all(bt, live_pred());
}

/// Rebuilding from the decoded records of an enumeration gives an index
/// whose item count is the number of records kept. Decoding already drops
/// reserved (and so empty) names; the kept records must have distinct file
/// references, as MFT entries do.
pub proof fn law_rebuild_count_scan(raw: Seq<RawView>, drive: char)
    requires
        forall|a: int, b: int|
            0 <= a < b < scan_records_spec(raw, false).filter(
                retained_pred(scan_records_spec(raw, false), root_path(drive)),
            ).len() ==> (#[trigger] scan_records_spec(raw, false).filter(
                retained_pred(scan_records_spec(raw, false), root_path(drive)),
            )[a]).file_ref != (#[trigger] scan_records_spec(raw, false).filter(
                retained_pred(scan_records_spec(raw, false), root_path(drive)),
            )[b]).file_ref,
    ensures
        built(reconstructed(scan_records_spec(raw, false), drive)).filter(live_pred()).len()
            == scan_records_spec(raw, false).filter(
            retained_pred(scan_records_spec(raw, false), root_path(drive)),
        ).len(),
{
    let recs = scan_records_spec(raw, false);
    let kept = raw.filter(scan_keeps(false));
    assert forall|i: int| 0 <= i < recs.len() implies (#[trigger] recs[i]).filename.len() > 0 by {
        assert(scan_keeps(false)(kept[i]));
    }
    law_rebuild_count(recs, drive);
}

/// With no cap (`usize::MAX`), `search_contains` finds every live item
/// whose case-folded name contains the case-folded query.
pub proof fn law_contains_unbounded(idx: &SearchIndex, q: Seq<char>, i: int)
    requires
        0 <= i < idx@.len(),
        live(idx@[i]),
        name_contains(idx@[i], lower_of(q)),
    ensures
        take_max(idx@.filter(contains_pred(lower_of(q))), usize::MAX).contains(idx@[i]),
{
    idx.lemma_view_len();
    law_contains_complete(idx@, q, i, usize::MAX);
}

/// With no cap (`usize::MAX`), `search_prefix` finds every live item whose
/// case-folded name starts with the case-folded query.
pub proof fn law_prefix_unbounded(idx: &SearchIndex, q: Seq<char>, i: int)
    requires
        0 <= i < idx@.len(),
        live(idx@[i]),
        name_starts_with(idx@[i], lower_of(q)),
    ensures
        take_max(idx@.filter(prefix_pred(lower_of(q))), usize::MAX).contains(idx@[i]),
{
    idx.lemma_view_len();
    law_prefix_complete(idx@, q, i, usize::MAX);
}

/// Writing an index's live items to a blob and loading that blob gives an
/// index with the same live items, in the same order, their case-folded
/// names computed again. The strings must be short enough for their
/// lengths to be stored.
pub proof fn law_save_load_blob(idx: &SearchIndex, h: BlobHeader)
    requires
        idx.wf(),
        storable(idx@.filter(live_pred())),
    ensures
        match read_blob(enc_blob(h, idx@.filter(live_pred()))) {
            Some((h2, s)) => h2 == h && built(s).filter(live_pred()) == idx@.filter(live_pred()),
            None => false,
        },
{
    let t = idx@.filter(live_pred());
    law_blob_round_trip(h, t);
    let s = t.map_values(|v: ItemView| unfolded(v));
    idx.lemma_wf_live();
    lemma_live_filter_clean(idx@);
    assert forall|a: int, b: int| 0 <= a < b < s.len() implies (#[trigger] s[a]).file_ref
        != (#[trigger] s[b]).file_ref by {
        assert(s[a].file_ref == t[a].file_ref && s[b].file_ref == t[b].file_ref);
    }
    lemma_built_distinct(s);
    assert(s.map_values(|v: ItemView| fresh(v)) =~= t) by {
        assert forall|j: int| 0 <= j < t.len() implies s.map_values(|v: ItemView| fresh(v))[j]
            == t[j] by {
            assert(live(t[j]) && t[j].name_lower == lower_of(t[j].name));
        }
    }
    lemma_filter_all(t, live_pred());
}

} // verus!
