//! The in-memory search index of one volume: an append-only item vector
//! with tombstones, a trie of case-folded names, a trie of extensions and a
//! map from file reference to slot.

use vstd::prelude::*;
use vstd::utf8::encode_utf8;
use std::collections::HashMap;
use radix_trie::{Trie, TrieCommon};
use crate::text::{
    bytes_contain, bytes_start_with, extension, extension_of, lower_of, lowercase,
    seq_contains, seq_starts_with,
};

verus! {

broadcast use vstd::std_specs::hash::group_hash_axioms;

#[verifier::external_type_specification]
#[verifier::external_body]
#[verifier::reject_recursive_types(K)]
#[verifier::reject_recursive_types(V)]
pub struct ExTrie<K, V>(Trie<K, V>);

/// What a trie of slot lists holds: each key's characters mapped to its list.
pub uninterp spec fn trie_entries(t: Trie<String, Vec<usize>>) -> Map<Seq<char>, Seq<usize>>;

/// Relies on `Trie::new`: a trie with no keys.
#[verifier::external_body]
fn trie_new() -> (r: Trie<String, Vec<usize>>)
    ensures
        trie_entries(r).dom().len() == 0,
        trie_entries(r).dom().finite(),
{
    Trie::new()
}

/// Appends `idx` to a slot list.
pub fn push_index(v: &mut Vec<usize>, idx: usize)
    ensures
        final(v)@ == old(v)@.push(idx),
{
    v.push(idx);
}

/// Relies on `Trie::map_with_default`: runs the closure on the value stored
/// at `key`, or stores the default when the key is absent.
#[verifier::external_body]
fn trie_append(t: &mut Trie<String, Vec<usize>>, key: String, idx: usize)
    ensures
        trie_entries(*final(t)) == trie_entries(*old(t)).insert(
            key@,
            if trie_entries(*old(t)).contains_key(key@) {
                trie_entries(*old(t))[key@].push(idx)
            } else {
                seq![idx]
            },
        ),
{
    t.map_with_default(key, |v: &mut Vec<usize>| push_index(v, idx), vec![idx])
}

/// Relies on `Trie::get`: the list stored at `key`, if any.
#[verifier::external_body]
fn trie_get(t: &Trie<String, Vec<usize>>, key: &str) -> (r: Option<Vec<usize>>)
    ensures
        match r {
            Some(v) => trie_entries(*t).contains_key(key@) && v@ == trie_entries(*t)[key@],
            None => !trie_entries(*t).contains_key(key@),
        },
{
    t.get(key).cloned()
}

/// Relies on `Trie::get_raw_descendant` and `TrieCommon::values`: the
/// sub-trie of the keys whose bytes start with the bytes of `prefix`, and
/// every slot in its lists.
#[verifier::external_body]
fn trie_prefix_slots(t: &Trie<String, Vec<usize>>, prefix: &str) -> (r: Vec<usize>)
    ensures
        forall|k: Seq<char>, j: int|
            #![trigger trie_entries(*t)[k][j]]
            trie_entries(*t).contains_key(k) && seq_starts_with(
                encode_utf8(k),
                encode_utf8(prefix@),
            ) && 0 <= j < trie_entries(*t)[k].len() ==> r@.contains(trie_entries(*t)[k][j]),
{
    match t.get_raw_descendant(prefix) {
        Some(sub) => sub.values().flat_map(|v| v.iter().copied()).collect(),
        None => Vec::new(),
    }
}

/// One indexed file or directory. `mtime` is in whole seconds since the epoch.
#[derive(Clone, Debug)]
pub struct IndexedItem {
    pub name: String,
    pub name_lower: String,
    pub path: String,
    pub file_ref: u64,
    pub parent_ref: u64,
    pub size: u64,
    pub is_dir: bool,
    pub mtime: u64,
}

/// The mathematical value of an indexed item.
pub struct ItemView {
    pub name: Seq<char>,
    pub name_lower: Seq<char>,
    pub path: Seq<char>,
    pub file_ref: u64,
    pub parent_ref: u64,
    pub size: u64,
    pub is_dir: bool,
    pub mtime: u64,
}

impl View for IndexedItem {
    type V = ItemView;

    open spec fn view(&self) -> ItemView {
        ItemView {
            name: self.name@,
            name_lower: self.name_lower@,
            path: self.path@,
            file_ref: self.file_ref,
            parent_ref: self.parent_ref,
            size: self.size,
            is_dir: self.is_dir,
            mtime: self.mtime,
        }
    }
}

impl IndexedItem {
    /// A copy of the item.
    pub fn duplicate(&self) -> (r: IndexedItem)
        ensures
            r@ == self@,
    {
        IndexedItem {
            name: self.name.clone(),
            name_lower: self.name_lower.clone(),
            path: self.path.clone(),
            file_ref: self.file_ref,
            parent_ref: self.parent_ref,
            size: self.size,
            is_dir: self.is_dir,
            mtime: self.mtime,
        }
    }
}

/// The views of a sequence of items.
pub open spec fn views(s: Seq<IndexedItem>) -> Seq<ItemView> {
    s.map_values(|it: IndexedItem| it@)
}

/// An item that is not a tombstone. Deletion clears the name.
pub open spec fn live(v: ItemView) -> bool {
    v.name.len() > 0
}

/// The tombstone left where an item was deleted.
pub open spec fn tomb(v: ItemView) -> ItemView {
    ItemView { name: Seq::empty(), path: Seq::empty(), size: 0, ..v }
}

/// An item as the index stores it: with its case-folded name computed.
pub open spec fn fresh(v: ItemView) -> ItemView {
    ItemView { name_lower: lower_of(v.name), ..v }
}

/// Every live item with file reference `r` becomes a tombstone.
pub open spec fn retire_ref(s: Seq<ItemView>, r: u64) -> Seq<ItemView> {
    s.map_values(|v: ItemView| if live(v) && v.file_ref == r { tomb(v) } else { v })
}

/// The items after adding `v`: a live item with the same file reference is
/// replaced, so that a reference stays unique among live items.
pub open spec fn added(s: Seq<ItemView>, v: ItemView) -> Seq<ItemView> {
    retire_ref(s, v.file_ref).push(fresh(v))
}

/// The items of an index built from `s`, added in order.
pub open spec fn built(s: Seq<ItemView>) -> Seq<ItemView>
    decreases s.len(),
{
    if s.len() == 0 {
        Seq::empty()
    } else {
        added(built(s.drop_last()), s.last())
    }
}

/// The first `max` elements of `s`, or all of them.
pub open spec fn take_max(s: Seq<ItemView>, max: usize) -> Seq<ItemView> {
    if s.len() <= max {
        s
    } else {
        s.subrange(0, max as int)
    }
}

/// The item's case-folded name contains `pat` (compared as UTF-8 bytes).
pub open spec fn name_contains(v: ItemView, pat: Seq<char>) -> bool {
    seq_contains(encode_utf8(v.name_lower), encode_utf8(pat))
}

/// The item's case-folded name starts with `pat` (compared as UTF-8 bytes).
pub open spec fn name_starts_with(v: ItemView, pat: Seq<char>) -> bool {
    seq_starts_with(encode_utf8(v.name_lower), encode_utf8(pat))
}

/// The case-folded extension of the item's name equals `ext`; a name
/// without a dot has the empty extension.
pub open spec fn ext_is(v: ItemView, ext: Seq<char>) -> bool {
    lower_of(extension_of(v.name)) == ext
}

pub open spec fn contains_pred(pat: Seq<char>) -> spec_fn(ItemView) -> bool {
    |v: ItemView| live(v) && name_contains(v, pat)
}

pub open spec fn prefix_pred(pat: Seq<char>) -> spec_fn(ItemView) -> bool {
    |v: ItemView| live(v) && name_starts_with(v, pat)
}

pub open spec fn ext_pred(ext: Seq<char>) -> spec_fn(ItemView) -> bool {
    |v: ItemView| live(v) && ext_is(v, ext)
}

pub open spec fn mtime_pred(lo: u64, hi: u64) -> spec_fn(ItemView) -> bool {
    |v: ItemView| live(v) && lo <= v.mtime <= hi
}

pub open spec fn live_pred() -> spec_fn(ItemView) -> bool {
    |v: ItemView| live(v)
}

/// After retiring `r`, no live item has file reference `r`.
pub proof fn lemma_retired(s: Seq<ItemView>, r: u64)
    ensures
        retire_ref(s, r).len() == s.len(),
        forall|i: int|
            0 <= i < s.len() ==> !(live(#[trigger] retire_ref(s, r)[i]) && retire_ref(s, r)[i].file_ref
                == r),
{
    assert forall|i: int| 0 <= i < s.len() implies !(live(#[trigger] retire_ref(s, r)[i])
        && retire_ref(s, r)[i].file_ref == r) by {
        if live(s[i]) && s[i].file_ref == r {
            assert(retire_ref(s, r)[i] == tomb(s[i]));
        } else {
            assert(retire_ref(s, r)[i] == s[i]);
        }
    }
}

proof fn lemma_filter_step(s: Seq<ItemView>, p: spec_fn(ItemView) -> bool, i: int)
    requires
        0 <= i < s.len(),
    ensures
        s.subrange(0, i + 1).filter(p) == (if p(s[i]) {
            s.subrange(0, i).filter(p).push(s[i])
        } else {
            s.subrange(0, i).filter(p)
        }),
{
    reveal(Seq::filter);
    let t = s.subrange(0, i + 1);
    assert(t.drop_last() =~= s.subrange(0, i));
    assert(t.last() == s[i]);
}

proof fn lemma_filter_split(s: Seq<ItemView>, p: spec_fn(ItemView) -> bool, i: int)
    requires
        0 <= i <= s.len(),
    ensures
        s.filter(p) == s.subrange(0, i).filter(p) + s.subrange(i, s.len() as int).filter(p),
{
    assert(s =~= s.subrange(0, i) + s.subrange(i, s.len() as int));
    Seq::filter_distributes_over_add(s.subrange(0, i), s.subrange(i, s.len() as int), p);
}


/// A scan over `s` that kept what `p` accepts and stopped at the end or at
/// `max` kept items has kept the first `max` accepted items.
proof fn lemma_scan_done(s: Seq<ItemView>, p: spec_fn(ItemView) -> bool, i: int, out: Seq<ItemView>, max: usize)
    requires
        0 <= i <= s.len(),
        out == s.subrange(0, i).filter(p),
        out.len() <= max,
        i == s.len() || out.len() == max,
    ensures
        out == take_max(s.filter(p), max),
{
    lemma_filter_split(s, p, i);
    if i == s.len() {
        assert(s.subrange(0, i) =~= s);
        assert(s.subrange(i, s.len() as int) =~= Seq::<ItemView>::empty());
        reveal(Seq::filter);
        assert(s.filter(p) =~= out);
    } else {
        let rest = s.subrange(i, s.len() as int).filter(p);
        assert((out + rest).subrange(0, max as int) =~= out);
    }
}

/// `s` with every forward slash turned into a backslash.
pub open spec fn backslashed(s: Seq<char>) -> Seq<char> {
    s.map_values(|c: char| if c == '/' { '\\' } else { c })
}

/// A path with its forward slashes turned into backslashes.
pub fn backslash_path(path: &str) -> (r: String)
    ensures
        r@ == backslashed(path@),
{
    let cs = crate::text::chars_of(path);
    let mut out: Vec<char> = Vec::new();
    let mut i: usize = 0;
    while i < cs.len()
        invariant
            i <= cs@.len(),
            cs@ == path@,
            out@ =~= backslashed(cs@.subrange(0, i as int)),
        decreases cs@.len() - i,
    {
        let c = cs[i];
        if c == '/' {
            out.push('\\');
        } else {
            out.push(c);
        }
        i = i + 1;
    }
    assert(cs@.subrange(0, cs@.len() as int) =~= cs@);
    crate::text::string_of(out.as_slice())
}

/// Search index of one volume.
pub struct SearchIndex {
    name_trie: Trie<String, Vec<usize>>,
    ext_index: Trie<String, Vec<usize>>,
    file_ref_map: HashMap<u64, usize>,
    items: Vec<IndexedItem>,
    dirty: bool,
}

impl SearchIndex {
    /// The item vector, tombstones included.
    pub closed spec fn view(&self) -> Seq<ItemView> {
        views(self.items@)
    }

    /// Whether the index changed since it was last saved or loaded.
    pub closed spec fn dirty_spec(&self) -> bool {
        self.dirty
    }

    /// Slot `i` is covered by every structure, if its item is live.
    closed spec fn slot_ok(&self, i: int) -> bool {
        live(self.items@[i]@) ==> {
            let v = self.items@[i]@;
            &&& v.name_lower == lower_of(v.name)
            &&& trie_entries(self.name_trie).contains_key(v.name_lower)
            &&& trie_entries(self.name_trie)[v.name_lower].contains(i as usize)
            &&& trie_entries(self.ext_index).contains_key(lower_of(extension_of(v.name)))
            &&& trie_entries(self.ext_index)[lower_of(extension_of(v.name))].contains(i as usize)
            &&& self.file_ref_map@.contains_key(v.file_ref)
            &&& self.file_ref_map@[v.file_ref] == i
        }
    }

    /// The map sends file reference `r`, if present, to the live item that has it.
    closed spec fn ref_ok(&self, r: u64) -> bool {
        self.file_ref_map@.contains_key(r) ==> {
            let i = self.file_ref_map@[r] as int;
            &&& 0 <= i < self.items@.len()
            &&& live(self.items@[i]@)
            &&& self.items@[i]@.file_ref == r
        }
    }

    /// The index's structures agree with its items.
    pub closed spec fn wf(&self) -> bool {
        &&& forall|i: int| 0 <= i < self.items@.len() ==> #[trigger] self.slot_ok(i)
        &&& forall|r: u64| #[trigger] self.ref_ok(r)
    }

    proof fn lemma_wf_frame(a: &SearchIndex, b: &SearchIndex)
        requires
            a.wf(),
            a.items == b.items,
            a.name_trie == b.name_trie,
            a.ext_index == b.ext_index,
            a.file_ref_map == b.file_ref_map,
        ensures
            b.wf(),
    {
        assert forall|i: int| 0 <= i < b.items@.len() implies #[trigger] b.slot_ok(i) by {
            assert(a.slot_ok(i));
        }
        assert forall|r: u64| #[trigger] b.ref_ok(r) by {
            assert(a.ref_ok(r));
        }
    }

    /// Sets the dirty flag.
    fn set_dirty(&mut self, d: bool)
        requires
            old(self).wf(),
        ensures
            final(self).wf(),
            final(self)@ == old(self)@,
            final(self).dirty_spec() == d,
    {
        let ghost pre = *self;
        self.dirty = d;
        proof {
            Self::lemma_wf_frame(&pre, self);
        }
    }

    /// In a well-formed index every live item holds its case-folded name,
    /// and no two live items share a file reference.
    pub proof fn lemma_wf_live(&self)
        requires
            self.wf(),
        ensures
            forall|i: int|
                0 <= i < self@.len() && live(#[trigger] self@[i]) ==> self@[i].name_lower
                    == lower_of(self@[i].name),
            forall|i: int, j: int|
                0 <= i < self@.len() && 0 <= j < self@.len() && live(#[trigger] self@[i]) && live(
                    #[trigger] self@[j],
                ) && self@[i].file_ref == self@[j].file_ref ==> i == j,
    {
        assert forall|i: int|
            0 <= i < self@.len() && live(#[trigger] self@[i]) implies self@[i].name_lower
                == lower_of(self@[i].name) by {
            assert(self.slot_ok(i));
            assert(self@[i] == self.items@[i]@);
        }
        assert forall|i: int, j: int|
            0 <= i < self@.len() && 0 <= j < self@.len() && live(#[trigger] self@[i]) && live(
                #[trigger] self@[j],
            ) && self@[i].file_ref == self@[j].file_ref implies i == j by {
            assert(self.slot_ok(i));
            assert(self.slot_ok(j));
            assert(self@[i] == self.items@[i]@);
            assert(self@[j] == self.items@[j]@);
        }
    }

    /// The item vector's length fits a `usize`, so a cap of `usize::MAX`
    /// never truncates a query.
    pub proof fn lemma_view_len(&self)
        ensures
            self@.len() <= usize::MAX,
    {
        vstd::std_specs::vec::axiom_spec_len(&self.items);
        assert(self@.len() == self.items@.len());
    }

    /// An empty index.
    pub fn new() -> (r: SearchIndex)
        ensures
            r.wf(),
            r@ == Seq::<ItemView>::empty(),
            !r.dirty_spec(),
    {
        let r = SearchIndex {
            name_trie: trie_new(),
            ext_index: trie_new(),
            file_ref_map: HashMap::new(),
            items: Vec::new(),
            dirty: false,
        };
        assert(r@ =~= Seq::<ItemView>::empty());
        r
    }

    /// Turns the live item with file reference `r`, if there is one, into a tombstone.
    fn retire(&mut self, r: u64) -> (found: bool)
        requires
            old(self).wf(),
        ensures
            final(self).wf(),
            final(self)@ == retire_ref(old(self)@, r),
            found == exists|i: int|
                0 <= i < old(self)@.len() && live(old(self)@[i]) && old(self)@[i].file_ref == r,
            final(self).dirty == old(self).dirty,
    {
        let ghost old_items = self@;
        match self.file_ref_map.get(&r) {
            Some(slot) => {
                let idx: usize = *slot;
                assert(self.file_ref_map@.contains_key(r));
                assert(old(self).ref_ok(r));
                self.items[idx].name = String::new();
                self.items[idx].path = String::new();
                self.items[idx].size = 0;
                self.file_ref_map.remove(&r);
                proof {
                    assert forall|j: int| 0 <= j < old_items.len() && j != idx implies !(live(
                        old_items[j],
                    ) && old_items[j].file_ref == r) by {
                        if live(old_items[j]) && old_items[j].file_ref == r {
                            assert(old(self).slot_ok(j));
                        }
                    }
                    assert(self@ =~= retire_ref(old_items, r));
                    assert(old(self).ref_ok(r));
                    assert(live(old_items[idx as int]));
                    assert forall|j: int| 0 <= j < self.items@.len() implies #[trigger] self.slot_ok(j) by {
                        assert(old(self).slot_ok(j));
                    }
                    assert forall|q: u64| #[trigger] self.ref_ok(q) by {
                        assert(old(self).ref_ok(q));
                    }
                }
                true
            },
            None => {
                proof {
                    assert forall|j: int| 0 <= j < old_items.len() implies !(live(old_items[j])
                        && old_items[j].file_ref == r) by {
                        if live(old_items[j]) && old_items[j].file_ref == r {
                            assert(old(self).slot_ok(j));
                        }
                    }
                    assert(self@ =~= retire_ref(old_items, r));
                }
                false
            },
        }
    }

    /// Adds one item: its case-folded name is computed, every structure is
    /// updated, and a live item with the same file reference is replaced.
    pub fn add_file(&mut self, item: IndexedItem)
        requires
            old(self).wf(),
        ensures
            final(self).wf(),
            final(self)@ == added(old(self)@, item@),
            final(self).dirty_spec(),
    {
        self.retire(item.file_ref);
        let ghost mid = self@;
        let ghost before = *self;
        proof {
            lemma_retired(old(self)@, item.file_ref);
        }
        let idx = self.items.len();
        let name_lower = lowercase(item.name.as_str());
        trie_append(&mut self.name_trie, name_lower.clone(), idx);
        let is_live = !item.name.as_str().is_empty();
        let ext = extension(item.name.as_str());
        let ext_lower = lowercase(ext.as_str());
        trie_append(&mut self.ext_index, ext_lower, idx);
        if is_live {
            self.file_ref_map.insert(item.file_ref, idx);
        }
        let stored = IndexedItem {
            name: item.name,
            name_lower,
            path: item.path,
            file_ref: item.file_ref,
            parent_ref: item.parent_ref,
            size: item.size,
            is_dir: item.is_dir,
            mtime: item.mtime,
        };
        self.items.push(stored);
        self.dirty = true;
        proof {
            assert(self@ =~= mid.push(fresh(item@)));
            assert forall|i: int| 0 <= i < self.items@.len() implies #[trigger] self.slot_ok(i) by {
                if i < idx {
                    assert(before.slot_ok(i));
                    assert(self.items@[i] == before.items@[i]);
                    if live(self.items@[i]@) {
                        let v = self.items@[i]@;
                        assert(mid[i] == v);
                        assert(v.file_ref != item.file_ref);
                        let l0 = trie_entries(before.name_trie)[v.name_lower];
                        let k0 = choose|k: int| 0 <= k < l0.len() && l0[k] == i as usize;
                        assert(l0.push(idx)[k0] == i as usize);
                        let e0 = trie_entries(before.ext_index)[lower_of(extension_of(v.name))];
                        let m0 = choose|k: int| 0 <= k < e0.len() && e0[k] == i as usize;
                        assert(e0.push(idx)[m0] == i as usize);
                    }
                } else {
                    let l = trie_entries(self.name_trie)[name_lower@];
                    assert(l[l.len() - 1] == idx);
                    let e = trie_entries(self.ext_index)[lower_of(extension_of(item.name@))];
                    assert(e[e.len() - 1] == idx);
                }
            }
            assert forall|q: u64| #[trigger] self.ref_ok(q) by {
                assert(before.ref_ok(q));
            }
        }
    }
    /// Replaces the whole index by the given items, added in order.
    pub fn build(&mut self, items: Vec<IndexedItem>)
        ensures
            final(self).wf(),
            final(self)@ == built(views(items@)),
            final(self).dirty_spec(),
    {
        *self = SearchIndex::new();
        let ghost src = views(items@);
        assert(src.subrange(0, 0) =~= Seq::<ItemView>::empty());
        let mut i: usize = 0;
        while i < items.len()
            invariant
                self.wf(),
                i <= items@.len(),
                src == views(items@),
                self@ == built(src.subrange(0, i as int)),
                i > 0 ==> self.dirty_spec(),
            decreases items@.len() - i,
        {
            let it = items[i].duplicate();
            self.add_file(it);
            proof {
                let t = src.subrange(0, i + 1);
                assert(t.drop_last() =~= src.subrange(0, i as int));
                assert(t.last() == items@[i as int]@);
            }
            i = i + 1;
        }
        assert(src.subrange(0, items@.len() as int) =~= src);
        self.set_dirty(true);
    }

    /// Deletes the live item with file reference `file_ref`, leaving a
    /// tombstone in its slot. Says whether there was one.
    pub fn remove_file(&mut self, file_ref: u64) -> (found: bool)
        requires
            old(self).wf(),
        ensures
            final(self).wf(),
            final(self)@ == retire_ref(old(self)@, file_ref),
            found == exists|i: int|
                0 <= i < old(self)@.len() && live(old(self)@[i]) && old(self)@[i].file_ref
                    == file_ref,
            final(self).dirty_spec() == (old(self).dirty_spec() || found),
    {
        let found = self.retire(file_ref);
        if found {
            self.set_dirty(true);
        }
        found
    }

    /// Deletes the first live item whose path, case-folded, equals `path`
    /// with forward slashes turned into backslashes, case-folded. An empty
    /// path matches nothing. Says whether there was such an item.
    pub fn remove_file_by_path(&mut self, path: &str) -> (found: bool)
        requires
            old(self).wf(),
        ensures
            final(self).wf(),
            found ==> lower_of(backslashed(path@)).len() > 0 && exists|i: int|
                0 <= i < old(self)@.len() && live(old(self)@[i]) && lower_of(old(self)@[i].path)
                    == lower_of(backslashed(path@)) && (forall|j: int|
                    0 <= j < i && live(#[trigger] old(self)@[j]) ==> lower_of(old(self)@[j].path)
                        != lower_of(backslashed(path@))) && final(self)@ == retire_ref(
                    old(self)@,
                    old(self)@[i].file_ref,
                ),
            !found ==> final(self)@ == old(self)@ && (lower_of(backslashed(path@)).len() == 0
                || forall|i: int|
                0 <= i < old(self)@.len() && live(old(self)@[i]) ==> lower_of(old(self)@[i].path)
                    != lower_of(backslashed(path@))),
            final(self).dirty_spec() == (old(self).dirty_spec() || found),
    {
        let slashed = backslash_path(path);
        let target = lowercase(slashed.as_str());
        if target.as_str().is_empty() {
            return false;
        }
        let mut i: usize = 0;
        while i < self.items.len()
            invariant
                self.wf(),
                target@.len() > 0,
                *self == *old(self),
                i <= self.items@.len(),
                target@ == lower_of(backslashed(path@)),
                forall|k: int|
                    0 <= k < i && live(#[trigger] self@[k]) ==> lower_of(self@[k].path) != target@,
            decreases self.items@.len() - i,
        {
            let is_live = !self.items[i].name.as_str().is_empty();
            if is_live {
                let p = lowercase(self.items[i].path.as_str());
                if p == target {
                    let r = self.items[i].file_ref;
                    let ghost before = self@;
                    assert(before[i as int] == self.items@[i as int]@);
                    self.retire(r);
                    self.set_dirty(true);
                    return true;
                }
            }
            proof {
                assert(self@[i as int] == self.items@[i as int]@);
            }
            i = i + 1;
        }
        false
    }

    /// Items whose case-folded name starts with `prefix_lower`, in slot
    /// order, at most `max_results` of them.
    pub fn search_prefix_lowered(&self, prefix_lower: &str, max_results: usize) -> (r: Vec<
        IndexedItem,
    >)
        requires
            self.wf(),
        ensures
            views(r@) == take_max(self@.filter(prefix_pred(prefix_lower@)), max_results),
    {
        let n = self.items.len();
        let cands = trie_prefix_slots(&self.name_trie, prefix_lower);
        let mut marks: Vec<bool> = Vec::new();
        let mut k: usize = 0;
        while k < n
            invariant
                k <= n,
                n == self.items@.len(),
                marks@.len() == k,
                forall|j: int| 0 <= j < k ==> !marks@[j],
            decreases n - k,
        {
            marks.push(false);
            k = k + 1;
        }
        let mut c: usize = 0;
        while c < cands.len()
            invariant
                c <= cands@.len(),
                marks@.len() == n,
                n == self.items@.len(),
                forall|j: int| 0 <= j < c && cands@[j] < n ==> marks@[cands@[j] as int],
            decreases cands@.len() - c,
        {
            let x = cands[c];
            if x < n {
                marks[x] = true;
            }
            c = c + 1;
        }
        let ghost p = prefix_pred(prefix_lower@);
        proof {
            assert forall|i: int| 0 <= i < n && #[trigger] p(self@[i]) implies marks@[i] by {
                assert(self.slot_ok(i));
                assert(self@[i] == self.items@[i]@);
                let key = self@[i].name_lower;
                let l = trie_entries(self.name_trie)[key];
                let j0 = choose|j: int| 0 <= j < l.len() && l[j] == i as usize;
                assert(trie_entries(self.name_trie)[key][j0] == i as usize);
                assert(cands@.contains(i as usize));
                let c0 = choose|j: int| 0 <= j < cands@.len() && cands@[j] == i as usize;
                assert(cands@[c0] < n);
            }
        }
        let pb = prefix_lower.as_bytes();
        let mut out: Vec<IndexedItem> = Vec::new();
        let mut i: usize = 0;
        assert(self@.subrange(0, 0).filter(p) =~= Seq::<ItemView>::empty()) by {
            reveal(Seq::filter);
        }
        while i < n && out.len() < max_results
            invariant
                i <= n,
                n == self.items@.len(),
                marks@.len() == n,
                out@.len() <= max_results,
                forall|j: int| 0 <= j < n && #[trigger] p(self@[j]) ==> marks@[j],
                p == prefix_pred(prefix_lower@),
                pb@ == encode_utf8(prefix_lower@),
                views(out@) == self@.subrange(0, i as int).filter(p),
            decreases n - i,
        {
            let it = &self.items[i];
            assert(self@[i as int] == it@);
            if marks[i] && !it.name.as_str().is_empty() && bytes_start_with(
                it.name_lower.as_str().as_bytes(),
                pb,
            ) {
                out.push(it.duplicate());
            }
            proof {
                lemma_filter_step(self@, p, i as int);
            }
            assert(views(out@) =~= self@.subrange(0, i + 1).filter(p));
            i = i + 1;
        }
        proof {
            lemma_scan_done(self@, p, i as int, views(out@), max_results);
        }
        out
    }

    /// Items whose case-folded name starts with the case-folded `prefix`,
    /// in slot order, at most `max_results` of them.
    pub fn search_prefix(&self, prefix: &str, max_results: usize) -> (r: Vec<IndexedItem>)
        requires
            self.wf(),
        ensures
            views(r@) == take_max(self@.filter(prefix_pred(lower_of(prefix@))), max_results),
    {
        let p = lowercase(prefix);
        self.search_prefix_lowered(p.as_str(), max_results)
    }

    /// Items whose case-folded name contains `pattern_lower`, in slot
    /// order, at most `max_results` of them.
    pub fn search_contains_lowered(&self, pattern_lower: &str, max_results: usize) -> (r: Vec<
        IndexedItem,
    >)
        ensures
            views(r@) == take_max(self@.filter(contains_pred(pattern_lower@)), max_results),
    {
        let n = self.items.len();
        let ghost p = contains_pred(pattern_lower@);
        let pb = pattern_lower.as_bytes();
        let mut out: Vec<IndexedItem> = Vec::new();
        let mut i: usize = 0;
        assert(self@.subrange(0, 0).filter(p) =~= Seq::<ItemView>::empty()) by {
            reveal(Seq::filter);
        }
        while i < n && out.len() < max_results
            invariant
                i <= n,
                n == self.items@.len(),
                out@.len() <= max_results,
                p == contains_pred(pattern_lower@),
                pb@ == encode_utf8(pattern_lower@),
                views(out@) == self@.subrange(0, i as int).filter(p),
            decreases n - i,
        {
            let it = &self.items[i];
            assert(self@[i as int] == it@);
            if !it.name.as_str().is_empty() && bytes_contain(it.name_lower.as_str().as_bytes(), pb) {
                out.push(it.duplicate());
            }
            proof {
                lemma_filter_step(self@, p, i as int);
            }
            assert(views(out@) =~= self@.subrange(0, i + 1).filter(p));
            i = i + 1;
        }
        proof {
            lemma_scan_done(self@, p, i as int, views(out@), max_results);
        }
        out
    }

    /// Items whose case-folded name contains the case-folded `pattern`, in
    /// slot order, at most `max_results` of them.
    pub fn search_contains(&self, pattern: &str, max_results: usize) -> (r: Vec<IndexedItem>)
        ensures
            views(r@) == take_max(self@.filter(contains_pred(lower_of(pattern@))), max_results),
    {
        let p = lowercase(pattern);
        self.search_contains_lowered(p.as_str(), max_results)
    }

    /// Items whose case-folded extension equals `ext_lower`, in slot order,
    /// at most `max_results` of them.
    pub fn search_by_extension_lowered(&self, ext_lower: &str, max_results: usize) -> (r: Vec<
        IndexedItem,
    >)
        requires
            self.wf(),
        ensures
            views(r@) == take_max(self@.filter(ext_pred(ext_lower@)), max_results),
    {
        let n = self.items.len();
        let mut marks: Vec<bool> = Vec::new();
        let mut k: usize = 0;
        while k < n
            invariant
                k <= n,
                n == self.items@.len(),
                marks@.len() == k,
            decreases n - k,
        {
            marks.push(false);
            k = k + 1;
        }
        let listed = trie_get(&self.ext_index, ext_lower);
        let cands: Vec<usize> = match listed {
            Some(v) => v,
            None => Vec::new(),
        };
        let mut c: usize = 0;
        while c < cands.len()
            invariant
                c <= cands@.len(),
                marks@.len() == n,
                n == self.items@.len(),
                forall|j: int| 0 <= j < c && cands@[j] < n ==> marks@[cands@[j] as int],
            decreases cands@.len() - c,
        {
            let x = cands[c];
            if x < n {
                marks[x] = true;
            }
            c = c + 1;
        }
        let ghost p = ext_pred(ext_lower@);
        proof {
            assert forall|i: int| 0 <= i < n && #[trigger] p(self@[i]) implies marks@[i] by {
                assert(self.slot_ok(i));
                assert(self@[i] == self.items@[i]@);
                let l = trie_entries(self.ext_index)[ext_lower@];
                let j0 = choose|j: int| 0 <= j < l.len() && l[j] == i as usize;
                assert(cands@[j0] == i as usize);
            }
        }
        let mut out: Vec<IndexedItem> = Vec::new();
        let mut i: usize = 0;
        assert(self@.subrange(0, 0).filter(p) =~= Seq::<ItemView>::empty()) by {
            reveal(Seq::filter);
        }
        while i < n && out.len() < max_results
            invariant
                i <= n,
                n == self.items@.len(),
                marks@.len() == n,
                out@.len() <= max_results,
                forall|j: int| 0 <= j < n && #[trigger] p(self@[j]) ==> marks@[j],
                p == ext_pred(ext_lower@),
                views(out@) == self@.subrange(0, i as int).filter(p),
            decreases n - i,
        {
            let it = &self.items[i];
            assert(self@[i as int] == it@);
            if marks[i] && !it.name.as_str().is_empty() {
                let e = extension(it.name.as_str());
                let el = lowercase(e.as_str());
                if crate::text::str_equal(el.as_str(), ext_lower) {
                    out.push(it.duplicate());
                }
            }
            proof {
                lemma_filter_step(self@, p, i as int);
            }
            assert(views(out@) =~= self@.subrange(0, i + 1).filter(p));
            i = i + 1;
        }
        proof {
            lemma_scan_done(self@, p, i as int, views(out@), max_results);
        }
        out
    }

    /// Items whose case-folded extension equals the case-folded `ext`, in
    /// slot order, at most `max_results` of them.
    pub fn search_by_extension(&self, ext: &str, max_results: usize) -> (r: Vec<IndexedItem>)
        requires
            self.wf(),
        ensures
            views(r@) == take_max(self@.filter(ext_pred(lower_of(ext@))), max_results),
    {
        let e = lowercase(ext);
        self.search_by_extension_lowered(e.as_str(), max_results)
    }

    /// Live items whose mtime lies in `[min_mtime, max_mtime]`, in slot
    /// order, at most `max_results` of them.
    pub fn search_by_mtime_range(&self, min_mtime: u64, max_mtime: u64, max_results: usize) -> (r:
        Vec<IndexedItem>)
        ensures
            views(r@) == take_max(self@.filter(mtime_pred(min_mtime, max_mtime)), max_results),
    {
        let n = self.items.len();
        let ghost p = mtime_pred(min_mtime, max_mtime);
        let mut out: Vec<IndexedItem> = Vec::new();
        let mut i: usize = 0;
        assert(self@.subrange(0, 0).filter(p) =~= Seq::<ItemView>::empty()) by {
            reveal(Seq::filter);
        }
        while i < n && out.len() < max_results
            invariant
                i <= n,
                n == self.items@.len(),
                out@.len() <= max_results,
                p == mtime_pred(min_mtime, max_mtime),
                views(out@) == self@.subrange(0, i as int).filter(p),
            decreases n - i,
        {
            let it = &self.items[i];
            assert(self@[i as int] == it@);
            if !it.name.as_str().is_empty() && min_mtime <= it.mtime && it.mtime <= max_mtime {
                out.push(it.duplicate());
            }
            proof {
                lemma_filter_step(self@, p, i as int);
            }
            assert(views(out@) =~= self@.subrange(0, i + 1).filter(p));
            i = i + 1;
        }
        proof {
            lemma_scan_done(self@, p, i as int, views(out@), max_results);
        }
        out
    }

    /// Whether the index changed since it was last saved or loaded.
    pub fn is_dirty(&self) -> (r: bool)
        ensures
            r == self.dirty_spec(),
    {
        self.dirty
    }

    /// The number of live items.
    pub fn item_count(&self) -> (r: usize)
        ensures
            r == self@.filter(live_pred()).len(),
    {
        let n = self.items.len();
        let ghost p = live_pred();
        let mut count: usize = 0;
        let mut i: usize = 0;
        assert(self@.subrange(0, 0).filter(p) =~= Seq::<ItemView>::empty()) by {
            reveal(Seq::filter);
        }
        while i < n
            invariant
                i <= n,
                n == self.items@.len(),
                p == live_pred(),
                count == self@.subrange(0, i as int).filter(p).len(),
                count <= i,
            decreases n - i,
        {
            assert(self@[i as int] == self.items@[i as int]@);
            if !self.items[i].name.as_str().is_empty() {
                count = count + 1;
            }
            proof {
                lemma_filter_step(self@, p, i as int);
            }
            i = i + 1;
        }
        assert(self@.subrange(0, n as int) =~= self@);
        count
    }

    /// The live items, in slot order: what is persisted.
    pub fn persisted_items(&self) -> (r: Vec<IndexedItem>)
        ensures
            views(r@) == self@.filter(live_pred()),
    {
        let n = self.items.len();
        let ghost p = live_pred();
        let mut out: Vec<IndexedItem> = Vec::new();
        let mut i: usize = 0;
        assert(self@.subrange(0, 0).filter(p) =~= Seq::<ItemView>::empty()) by {
            reveal(Seq::filter);
        }
        while i < n
            invariant
                i <= n,
                n == self.items@.len(),
                p == live_pred(),
                views(out@) == self@.subrange(0, i as int).filter(p),
            decreases n - i,
        {
            let it = &self.items[i];
            assert(self@[i as int] == it@);
            if !it.name.as_str().is_empty() {
                out.push(it.duplicate());
            }
            proof {
                lemma_filter_step(self@, p, i as int);
            }
            assert(views(out@) =~= self@.subrange(0, i + 1).filter(p));
            i = i + 1;
        }
        assert(self@.subrange(0, n as int) =~= self@);
        out
    }

    /// Rebuilds the index from persisted items; the result counts as saved.
    pub fn load_items(&mut self, items: Vec<IndexedItem>)
        ensures
            final(self).wf(),
            final(self)@ == built(views(items@)),
            !final(self).dirty_spec(),
    {
        self.build(items);
        self.set_dirty(false);
    }

    /// Marks the index as saved.
    pub fn mark_saved(&mut self)
        requires
            old(self).wf(),
        ensures
            final(self)@ == old(self)@,
            final(self).wf(),
            !final(self).dirty_spec(),
    {
        self.set_dirty(false);
    }
}

} // verus!
