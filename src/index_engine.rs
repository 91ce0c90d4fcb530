//! The simple name engine: a flat list of files searched by several
//! keywords at once, with optional extension, size and kind filters.

use vstd::prelude::*;
use vstd::utf8::encode_utf8;
use crate::rules::{ascii_lower, ascii_lower_byte};
use crate::search_syntax::string_views;
use crate::text::{bytes_contain, lower_of, lowercase, seq_contains};

verus! {

/// Results one search returns at most.
pub const MAX_RESULTS: usize = 1000;

/// One file of the simple engine. `mtime` is in whole seconds since the epoch.
#[derive(Debug, Clone)]
pub struct IndexedFile {
    pub name: String,
    pub path: String,
    pub size: u64,
    pub mtime: u64,
    pub is_dir: bool,
    pub extension: String,
}

pub struct FileView {
    pub name: Seq<char>,
    pub path: Seq<char>,
    pub size: u64,
    pub mtime: u64,
    pub is_dir: bool,
    pub extension: Seq<char>,
}

impl View for IndexedFile {
    type V = FileView;

    open spec fn view(&self) -> FileView {
        FileView {
            name: self.name@,
            path: self.path@,
            size: self.size,
            mtime: self.mtime,
            is_dir: self.is_dir,
            extension: self.extension@,
        }
    }
}

impl IndexedFile {
    pub fn duplicate(&self) -> (r: IndexedFile)
        ensures
            r@ == self@,
    {
        IndexedFile {
            name: self.name.clone(),
            path: self.path.clone(),
            size: self.size,
            mtime: self.mtime,
            is_dir: self.is_dir,
            extension: self.extension.clone(),
        }
    }
}

pub open spec fn file_views(s: Seq<IndexedFile>) -> Seq<FileView> {
    s.map_values(|f: IndexedFile| f@)
}

/// Optional filters of the simple engine.
#[derive(Debug, Clone)]
pub struct SearchFilters {
    pub ext: Option<Vec<String>>,
    pub size_min: Option<u64>,
    pub size_max: Option<u64>,
    pub only_dir: Option<bool>,
}

pub struct EngineFiltersView {
    pub ext: Option<Seq<Seq<char>>>,
    pub size_min: Option<u64>,
    pub size_max: Option<u64>,
    pub only_dir: Option<bool>,
}

impl View for SearchFilters {
    type V = EngineFiltersView;

    open spec fn view(&self) -> EngineFiltersView {
        EngineFiltersView {
            ext: match self.ext {
                Some(v) => Some(string_views(v@)),
                None => None,
            },
            size_min: self.size_min,
            size_max: self.size_max,
            only_dir: self.only_dir,
        }
    }
}

/// Counts over the whole engine.
#[derive(Debug)]
pub struct IndexStats {
    pub total_files: usize,
    pub total_dirs: usize,
    pub total_size: u64,
}

/// Two byte strings are equal when ASCII letters are compared without case.
pub open spec fn ascii_ci_eq(a: Seq<u8>, b: Seq<u8>) -> bool {
    a.len() == b.len() && forall|k: int| 0 <= k < a.len() ==> ascii_lower(#[trigger] a[k]) == ascii_lower(b[k])
}

fn ascii_ci_eq_exec(a: &[u8], b: &[u8]) -> (r: bool)
    ensures
        r == ascii_ci_eq(a@, b@),
{
    if a.len() != b.len() {
        return false;
    }
    let mut k: usize = 0;
    while k < a.len()
        invariant
            a@.len() == b@.len(),
            k <= a@.len(),
            forall|m: int| 0 <= m < k ==> ascii_lower(#[trigger] a@[m]) == ascii_lower(b@[m]),
        decreases a@.len() - k,
    {
        if ascii_lower_byte(a[k]) != ascii_lower_byte(b[k]) {
            return false;
        }
        k = k + 1;
    }
    true
}

/// The file's extension equals `e`, or `e` with a leading dot, ASCII case ignored.
pub open spec fn ext_matches(ext: Seq<char>, e: Seq<char>) -> bool {
    ascii_ci_eq(encode_utf8(ext), encode_utf8(e)) || ascii_ci_eq(
        encode_utf8(ext),
        seq![46u8] + encode_utf8(e),
    )
}

/// A file passes the filters: its extension is among the listed ones, its
/// size lies within the bounds (inclusive), and it is a directory when only
/// directories are asked for.
pub open spec fn engine_passes(f: FileView, fl: EngineFiltersView) -> bool {
    &&& (fl.ext matches Some(exts) ==> exists|i: int|
        0 <= i < exts.len() && ext_matches(f.extension, #[trigger] exts[i]))
    &&& (fl.size_min matches Some(m) ==> f.size >= m)
    &&& (fl.size_max matches Some(m) ==> f.size <= m)
    &&& (fl.only_dir == Some(true) ==> f.is_dir)
}

/// The file's case-folded name contains every case-folded keyword.
pub open spec fn has_all(f: FileView, kws: Seq<Seq<char>>) -> bool {
    forall|i: int|
        0 <= i < kws.len() ==> seq_contains(encode_utf8(lower_of(f.name)), encode_utf8(lower_of(#[trigger] kws[i])))
}

pub open spec fn engine_pred(kws: Seq<Seq<char>>, fl: EngineFiltersView) -> spec_fn(FileView) -> bool {
    |f: FileView| has_all(f, kws) && engine_passes(f, fl)
}

/// The first `MAX_RESULTS` of `s`, or all of it.
pub open spec fn first_results(s: Seq<FileView>) -> Seq<FileView> {
    if s.len() <= MAX_RESULTS {
        s
    } else {
        s.subrange(0, MAX_RESULTS as int)
    }
}

pub open spec fn dir_pred() -> spec_fn(FileView) -> bool {
    |f: FileView| f.is_dir
}

pub open spec fn sum_sizes(s: Seq<FileView>) -> nat
    decreases s.len(),
{
    if s.len() == 0 {
        0
    } else {
        sum_sizes(s.drop_last()) + s.last().size as nat
    }
}

/// The simple engine: every file in the order it was added.
pub struct SearchIndex {
    all_files: Vec<IndexedFile>,
}

impl SearchIndex {
    pub closed spec fn view(&self) -> Seq<FileView> {
        file_views(self.all_files@)
    }

    pub fn new() -> (r: SearchIndex)
        ensures
            r@ == Seq::<FileView>::empty(),
    {
        let r = SearchIndex { all_files: Vec::new() };
        assert(r@ =~= Seq::<FileView>::empty());
        r
    }

    /// Adds one file found while walking a folder.
    pub fn add_file(&mut self, file: IndexedFile)
        ensures
            final(self)@ == old(self)@.push(file@),
    {
        self.all_files.push(file);
        assert(final(self)@ =~= old(self)@.push(file@));
    }

    /// Whether one file passes the filters.
    pub fn apply_filters(&self, file: &IndexedFile, filters: &SearchFilters) -> (r: bool)
        ensures
            r == engine_passes(file@, filters@),
    {
        match &filters.ext {
            Some(exts) => {
                let fe = file.extension.as_str().as_bytes();
                let mut found = false;
                let mut i: usize = 0;
                while i < exts.len() && !found
                    invariant
                        i <= exts@.len(),
                        fe@ == encode_utf8(file.extension@),
                        found ==> exists|j: int|
                            0 <= j < i && ext_matches(file.extension@, #[trigger] string_views(exts@)[j]),
                        !found ==> forall|j: int|
                            0 <= j < i ==> !ext_matches(file.extension@, #[trigger] string_views(exts@)[j]),
                    decreases exts@.len() - i,
                {
                    let eb = exts[i].as_str().as_bytes();
                    let mut dotted: Vec<u8> = Vec::new();
                    dotted.push(46u8);
                    let mut k: usize = 0;
                    while k < eb.len()
                        invariant
                            k <= eb@.len(),
                            dotted@ =~= seq![46u8] + eb@.subrange(0, k as int),
                        decreases eb@.len() - k,
                    {
                        dotted.push(eb[k]);
                        k = k + 1;
                    }
                    assert(eb@.subrange(0, eb@.len() as int) =~= eb@);
                    assert(string_views(exts@)[i as int] == exts@[i as int]@);
                    if ascii_ci_eq_exec(fe, eb) || ascii_ci_eq_exec(fe, dotted.as_slice()) {
                        found = true;
                    }
                    i = i + 1;
                }
                if !found {
                    return false;
                }
            },
            None => {},
        }
        match filters.size_min {
            Some(m) => {
                if file.size < m {
                    return false;
                }
            },
            None => {},
        }
        match filters.size_max {
            Some(m) => {
                if file.size > m {
                    return false;
                }
            },
            None => {},
        }
        match filters.only_dir {
            Some(true) => {
                if !file.is_dir {
                    return false;
                }
            },
            _ => {},
        }
        true
    }

    /// Files whose case-folded name contains every case-folded keyword and
    /// that pass the filters, in order, at most `MAX_RESULTS` of them. No
    /// keyword, no result.
    pub fn search(&self, keywords: &[String], filters: &SearchFilters) -> (r: Vec<IndexedFile>)
        ensures
            keywords@.len() == 0 ==> r@.len() == 0,
            keywords@.len() > 0 ==> file_views(r@) == first_results(
                self@.filter(engine_pred(string_views(keywords@), filters@)),
            ),
    {
        if keywords.len() == 0 {
            return Vec::new();
        }
        let ghost kws = string_views(keywords@);
        let mut lowered: Vec<String> = Vec::new();
        let mut j: usize = 0;
        while j < keywords.len()
            invariant
                j <= keywords@.len(),
                kws == string_views(keywords@),
                lowered@.len() == j,
                forall|m: int| 0 <= m < j ==> (#[trigger] lowered@[m])@ == lower_of(kws[m]),
            decreases keywords@.len() - j,
        {
            lowered.push(lowercase(keywords[j].as_str()));
            j = j + 1;
        }
        let ghost p = engine_pred(kws, filters@);
        let ghost s = self@;
        let mut out: Vec<IndexedFile> = Vec::new();
        let mut i: usize = 0;
        assert(s.subrange(0, 0).filter(p) =~= Seq::<FileView>::empty()) by {
            reveal(Seq::filter);
        }
        while i < self.all_files.len()
            invariant
                i <= self.all_files@.len(),
                s == self@,
                p == engine_pred(kws, filters@),
                kws == string_views(keywords@),
                lowered@.len() == kws.len(),
                forall|m: int| 0 <= m < kws.len() ==> (#[trigger] lowered@[m])@ == lower_of(kws[m]),
                file_views(out@) == s.subrange(0, i as int).filter(p),
            decreases self.all_files@.len() - i,
        {
            let f = &self.all_files[i];
            assert(s[i as int] == f@);
            let name_lower = lowercase(f.name.as_str());
            let nb = name_lower.as_str().as_bytes();
            let mut all = true;
            let mut k: usize = 0;
            while k < lowered.len() && all
                invariant
                    k <= lowered@.len(),
                    lowered@.len() == kws.len(),
                    nb@ == encode_utf8(lower_of(f.name@)),
                    forall|m: int| 0 <= m < kws.len() ==> (#[trigger] lowered@[m])@ == lower_of(kws[m]),
                    all ==> forall|m: int|
                        0 <= m < k ==> seq_contains(nb@, encode_utf8(lower_of(#[trigger] kws[m]))),
                    !all ==> exists|m: int|
                        0 <= m < k && !seq_contains(nb@, encode_utf8(lower_of(#[trigger] kws[m]))),
                decreases lowered@.len() - k,
            {
                if !bytes_contain(nb, lowered[k].as_str().as_bytes()) {
                    all = false;
                }
                k = k + 1;
            }
            let ghost prev = file_views(out@);
            if all && self.apply_filters(f, filters) {
                out.push(f.duplicate());
                assert(file_views(out@) =~= prev.push(f@));
            }
            proof {
                reveal(Seq::filter);
                let t = s.subrange(0, i + 1);
                assert(t.drop_last() =~= s.subrange(0, i as int));
                assert(t.last() == s[i as int]);
            }
            assert(file_views(out@) =~= s.subrange(0, i + 1).filter(p));
            i = i + 1;
        }
        assert(s.subrange(0, self.all_files@.len() as int) =~= s);
        if out.len() > MAX_RESULTS {
            out.truncate(MAX_RESULTS);
            assert(file_views(out@) =~= first_results(s.filter(p)));
        }
        out
    }

    /// How many files and directories the engine holds, and their total
    /// size (stopping at `u64::MAX`).
    pub fn get_stats(&self) -> (r: IndexStats)
        ensures
            r.total_files == self@.len(),
            r.total_dirs == self@.filter(dir_pred()).len(),
            r.total_size == if sum_sizes(self@) > u64::MAX {
                u64::MAX as nat
            } else {
                sum_sizes(self@)
            },
    {
        let ghost s = self@;
        let ghost p = dir_pred();
        let mut dirs: usize = 0;
        let mut total: u64 = 0;
        let mut i: usize = 0;
        assert(s.subrange(0, 0).filter(p) =~= Seq::<FileView>::empty()) by {
            reveal(Seq::filter);
        }
        while i < self.all_files.len()
            invariant
                i <= self.all_files@.len(),
                s == self@,
                p == dir_pred(),
                dirs == s.subrange(0, i as int).filter(p).len(),
                dirs <= i,
                total == if sum_sizes(s.subrange(0, i as int)) > u64::MAX {
                    u64::MAX as nat
                } else {
                    sum_sizes(s.subrange(0, i as int))
                },
            decreases self.all_files@.len() - i,
        {
            let f = &self.all_files[i];
            assert(s[i as int] == f@);
            proof {
                reveal(Seq::filter);
                let t = s.subrange(0, i + 1);
                assert(t.drop_last() =~= s.subrange(0, i as int));
                assert(t.last() == s[i as int]);
                assert(t.filter(p).len() == s.subrange(0, i as int).filter(p).len() + (if f.is_dir {
                    1int
                } else {
                    0int
                }));
            }
            if f.is_dir {
                dirs = dirs + 1;
            }
            total = total.saturating_add(f.size);
            i = i + 1;
        }
        assert(s.subrange(0, self.all_files@.len() as int) =~= s);
        IndexStats { total_files: self.all_files.len(), total_dirs: dirs, total_size: total }
    }
}

} // verus!
