//! What the query orchestrator hands to its caller: result rows, and the
//! per-volume search step that produces them.

use vstd::prelude::*;
use crate::search_index::{contains_pred, take_max, views, IndexedItem, ItemView, SearchIndex};
use crate::search_syntax::{passes, passes_pred, FiltersView, SearchFilters, SearchSyntaxParser};
use vstd::utf8::encode_utf8;
use crate::search_index::live;
use crate::text::{bytes_contain, extension_of, lower_of, lowercase, occurs_at, seq_contains};

verus! {

/// A search request as the shell sends it.
#[derive(Debug)]
pub struct SearchRequest {
    pub keywords: Vec<String>,
    pub mode: SearchMode,
}

/// Whether a search runs on the index or walks the file system.
#[derive(Debug, Clone, Copy, PartialEq, Eq, Structural)]
pub enum SearchMode {
    Index,
    Realtime,
}

/// One result row. `mtime` is in whole seconds since the epoch.
#[derive(Clone, Debug)]
pub struct SearchResult {
    pub filename: String,
    pub fullpath: String,
    pub size: u64,
    pub mtime: u64,
    pub is_dir: bool,
}

pub struct ResultView {
    pub filename: Seq<char>,
    pub fullpath: Seq<char>,
    pub size: u64,
    pub mtime: u64,
    pub is_dir: bool,
}

impl View for SearchResult {
    type V = ResultView;

    open spec fn view(&self) -> ResultView {
        ResultView {
            filename: self.filename@,
            fullpath: self.fullpath@,
            size: self.size,
            mtime: self.mtime,
            is_dir: self.is_dir,
        }
    }
}

impl SearchResult {
    /// A copy of the row.
    pub fn duplicate(&self) -> (r: SearchResult)
        ensures
            r@ == self@,
    {
        SearchResult {
            filename: self.filename.clone(),
            fullpath: self.fullpath.clone(),
            size: self.size,
            mtime: self.mtime,
            is_dir: self.is_dir,
        }
    }
}

pub open spec fn result_views(s: Seq<SearchResult>) -> Seq<ResultView> {
    s.map_values(|r: SearchResult| r@)
}

/// The row shown for an indexed item.
pub open spec fn row_of(v: ItemView) -> ResultView {
    ResultView {
        filename: v.name,
        fullpath: v.path,
        size: v.size,
        mtime: v.mtime,
        is_dir: v.is_dir,
    }
}

/// The row shown for an indexed item.
pub fn to_result(item: &IndexedItem) -> (r: SearchResult)
    ensures
        r@ == row_of(item@),
{
    SearchResult {
        filename: item.name.clone(),
        fullpath: item.path.clone(),
        size: item.size,
        mtime: item.mtime,
        is_dir: item.is_dir,
    }
}

/// Whether a file name, case-folded, contains a case-folded keyword; an
/// empty keyword matches every name.
pub fn keyword_matches(name: &str, keyword_lower: &str) -> (r: bool)
    ensures
        r == (keyword_lower@.len() == 0 || seq_contains(
            encode_utf8(lower_of(name@)),
            encode_utf8(keyword_lower@),
        )),
{
    if keyword_lower.is_empty() {
        return true;
    }
    let n = lowercase(name);
    bytes_contain(n.as_str().as_bytes(), keyword_lower.as_bytes())
}

/// Whether one row passes the filters.
pub fn match_filters(item: &SearchResult, filters: &SearchFilters) -> (r: bool)
    ensures
        r == passes(item@, filters@),
{
    SearchSyntaxParser::match_item(item, filters)
}

/// How many items one volume hands on for a keyword: more when the keyword
/// is empty and only the filters select.
pub open spec fn volume_cap(keyword: Seq<char>) -> usize {
    if keyword.len() == 0 {
        50000
    } else {
        10000
    }
}

/// The items one volume matches for a keyword: those whose case-folded
/// name contains the case-folded keyword, or every live item when the
/// keyword is empty, up to the volume cap.
pub open spec fn volume_matches(items: Seq<ItemView>, keyword: Seq<char>) -> Seq<ItemView> {
    if keyword.len() == 0 {
        take_max(items.filter(contains_pred(Seq::empty())), volume_cap(keyword))
    } else {
        take_max(items.filter(contains_pred(lower_of(lower_of(keyword)))), volume_cap(keyword))
    }
}

/// The rows one volume contributes to a search: its matched items that pass the filters.
pub open spec fn volume_rows(items: Seq<ItemView>, keyword: Seq<char>, f: FiltersView) -> Seq<
    ResultView,
> {
    volume_matches(items, keyword).map_values(|v: ItemView| row_of(v)).filter(passes_pred(f))
}

/// Searches one volume's index for a keyword and applies the filters.
pub fn search_volume(index: &SearchIndex, keyword: &str, filters: &SearchFilters) -> (r: Vec<
    SearchResult,
>)
    ensures
        result_views(r@) == volume_rows(index@, keyword@, filters@),
{
    let items = if keyword.is_empty() {
        let wildcard = String::new();
        index.search_contains_lowered(wildcard.as_str(), 50000)
    } else {
        let kw = lowercase(keyword);
        index.search_contains(kw.as_str(), 10000)
    };
    let mut rows: Vec<SearchResult> = Vec::new();
    let mut i: usize = 0;
    while i < items.len()
        invariant
            i <= items@.len(),
            result_views(rows@) == views(items@).subrange(0, i as int).map_values(
                |v: ItemView| row_of(v),
            ),
        decreases items@.len() - i,
    {
        let row = to_result(&items[i]);
        let ghost prev = rows@;
        rows.push(row);
        assert(views(items@)[i as int] == items@[i as int]@);
        assert(result_views(rows@) =~= result_views(prev).push(row@));
        assert(result_views(rows@) =~= views(items@).subrange(0, i + 1).map_values(
            |v: ItemView| row_of(v),
        ));
        i = i + 1;
    }
    assert(views(items@).subrange(0, items@.len() as int) =~= views(items@));
    SearchSyntaxParser::apply_filters(rows, filters)
}

/// The rows of a sequence of batches, one batch after another.
pub open spec fn flatten_rows(bs: Seq<Vec<SearchResult>>) -> Seq<ResultView>
    decreases bs.len(),
{
    if bs.len() == 0 {
        Seq::empty()
    } else {
        flatten_rows(bs.drop_last()) + result_views(bs.last()@)
    }
}

/// Splits rows into consecutive batches of `size` rows; only the last may be shorter.
pub fn batches(rows: Vec<SearchResult>, size: usize) -> (r: Vec<Vec<SearchResult>>)
    requires
        size > 0,
    ensures
        forall|j: int| 0 <= j < r@.len() ==> 0 < (#[trigger] r@[j])@.len() <= size,
        forall|j: int| 0 <= j < r@.len() - 1 ==> (#[trigger] r@[j])@.len() == size,
        flatten_rows(r@) == result_views(rows@),
{
    let mut out: Vec<Vec<SearchResult>> = Vec::new();
    let mut cur: Vec<SearchResult> = Vec::new();
    let mut i: usize = 0;
    assert(result_views(rows@).subrange(0, 0) =~= flatten_rows(out@) + result_views(cur@));
    while i < rows.len()
        invariant
            i <= rows@.len(),
            size > 0,
            cur@.len() < size,
            forall|j: int| 0 <= j < out@.len() ==> (#[trigger] out@[j])@.len() == size,
            flatten_rows(out@) + result_views(cur@) == result_views(rows@).subrange(0, i as int),
        decreases rows@.len() - i,
    {
        let ghost prev_out = out@;
        let ghost prev_cur = cur@;
        cur.push(rows[i].duplicate());
        proof {
            assert(result_views(cur@) =~= result_views(prev_cur).push(rows@[i as int]@));
            assert(result_views(rows@).subrange(0, i + 1) =~= result_views(rows@).subrange(
                0,
                i as int,
            ).push(rows@[i as int]@));
            assert(flatten_rows(out@) + result_views(cur@) =~= result_views(rows@).subrange(
                0,
                i + 1,
            ));
        }
        if cur.len() == size {
            let full = cur;
            cur = Vec::new();
            let ghost fb = full;
            out.push(full);
            proof {
                assert(out@.drop_last() =~= prev_out);
                assert(out@.last() == fb);
                assert(result_views(cur@) =~= Seq::<ResultView>::empty());
                assert(flatten_rows(out@) + result_views(cur@) =~= flatten_rows(prev_out)
                    + result_views(fb@));
            }
        }
        i = i + 1;
    }
    if cur.len() > 0 {
        let ghost prev_out = out@;
        let ghost fb = cur;
        out.push(cur);
        proof {
            assert(out@.drop_last() =~= prev_out);
            assert(out@.last() == fb);
        }
    } else {
        assert(result_views(cur@) =~= Seq::<ResultView>::empty());
        assert(flatten_rows(out@) + result_views(cur@) =~= flatten_rows(out@));
    }
    assert(result_views(rows@).subrange(0, rows@.len() as int) =~= result_views(rows@));
    out
}

/// With an empty keyword and only an extension filter, a volume hands on
/// its live items (up to the volume cap) whose case-folded extension is
/// listed, and only those; when it holds no more live items than the cap,
/// every such item is handed on.
pub proof fn law_extension_only(items: Seq<ItemView>, f: FiltersView)
    requires
        f.ext.len() > 0,
        f.size_min == 0,
        f.size_max == 0,
        f.date_after is None,
        f.path.len() == 0,
        f.name_pattern.len() == 0,
    ensures
        forall|j: int|
            0 <= j < volume_rows(items, Seq::empty(), f).len() ==> f.ext.contains(
                lower_of(extension_of((#[trigger] volume_rows(items, Seq::empty(), f)[j]).filename)),
            ),
        volume_rows(items, Seq::empty(), f).len() <= 50000,
        items.len() <= 50000 ==> forall|i: int|
            0 <= i < items.len() && live(#[trigger] items[i]) && f.ext.contains(
                lower_of(extension_of(items[i].name)),
            ) ==> volume_rows(items, Seq::empty(), f).contains(row_of(items[i])),
{
    broadcast use vstd::seq_lib::group_filter_ensures;

    let kw = Seq::<char>::empty();
    let pat = Seq::<char>::empty();
    let p = contains_pred(pat);
    assert(encode_utf8(pat) =~= Seq::<u8>::empty()) by {
        vstd::utf8::encode_utf8_decode_utf8(pat);
    }
    let all = items.filter(p);
    let cap = take_max(all, 50000);
    let rows = cap.map_values(|v: ItemView| row_of(v));
    let out = rows.filter(passes_pred(f));
    assert(out == volume_rows(items, kw, f));
    if items.len() <= 50000 {
        assert forall|i: int|
            0 <= i < items.len() && live(#[trigger] items[i]) && f.ext.contains(
                lower_of(extension_of(items[i].name)),
            ) implies out.contains(row_of(items[i])) by {
            assert(encode_utf8(items[i].name_lower).subrange(0, 0) =~= encode_utf8(pat));
            assert(occurs_at(encode_utf8(items[i].name_lower), encode_utf8(pat), 0));
            assert(p(items[i]));
            assert(all.contains(items[i]));
            let k = choose|k: int| 0 <= k < all.len() && all[k] == items[i];
            assert(cap == all);
            assert(rows[k] == row_of(items[i]));
            assert(passes(rows[k], f));
        }
    }
}

} // verus!
