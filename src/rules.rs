//! Rules applied while turning volume records into indexed items: which
//! directories and files are left out, and which change paths are ignored.

use vstd::prelude::*;
use vstd::string::StringSliceAdditionalSpecFns;
use crate::filter::{names_hold, names_hold_range};

verus! {

/// The dot that starts an extension, as a byte.
pub const DOT: u8 = 46;

/// Directory names (lower case) whose subtree a volume scan leaves out.
pub open spec fn scan_skip_dir_names() -> Seq<&'static str> {
    seq![
        "windows", "program files", "program files (x86)", "programdata",
        "system volume information", "appdata", "boot", "node_modules", ".git",
        "__pycache__", "site-packages", "sys", "recovery", "config.msi",
        "$windows.~bt", "$windows.~ws", "cache", "caches", "temp", "tmp", "logs",
        "log", ".vscode", ".idea", ".vs", "obj", "bin", "debug", "release",
        "packages", ".nuget", "bower_components",
    ]
}

/// A set of names, each compared byte for byte.
pub struct NameSet {
    names: Vec<&'static str>,
}

impl NameSet {
    pub closed spec fn view(&self) -> Seq<&'static str> {
        self.names@
    }

    /// Whether `name` is one of the names.
    pub fn contains(&self, name: &str) -> (r: bool)
        ensures
            r == names_hold(self.view(), name.spec_bytes()),
    {
        let b = name.as_bytes();
        assert(b@.subrange(0, b@.len() as int) =~= b@);
        names_hold_range(&self.names, b, 0, b.len())
    }

    /// Whether the bytes `b` spell one of the names.
    pub fn contains_bytes(&self, b: &[u8]) -> (r: bool)
        ensures
            r == names_hold(self.view(), b@),
    {
        assert(b@.subrange(0, b@.len() as int) =~= b@);
        names_hold_range(&self.names, b, 0, b.len())
    }
}

/// The directory names that a volume scan leaves out.
pub fn build_skip_dirs_set() -> (r: NameSet)
    ensures
        r.view() == scan_skip_dir_names(),
{
    let names = vec![
        "windows", "program files", "program files (x86)", "programdata",
        "system volume information", "appdata", "boot", "node_modules", ".git",
        "__pycache__", "site-packages", "sys", "recovery", "config.msi",
        "$windows.~bt", "$windows.~ws", "cache", "caches", "temp", "tmp", "logs",
        "log", ".vscode", ".idea", ".vs", "obj", "bin", "debug", "release",
        "packages", ".nuget", "bower_components",
    ];
    assert(names@ =~= scan_skip_dir_names());
    NameSet { names }
}

/// The file extensions (lower case, with the dot) that a volume scan leaves out.
pub fn build_skip_exts_set() -> (r: NameSet)
    ensures
        r.view() == crate::filter::skip_ext_names(),
{
    NameSet { names: crate::filter::skip_ext_list() }
}

/// `to_ascii_lowercase` of one byte.
pub open spec fn ascii_lower(b: u8) -> u8 {
    if 65 <= b <= 90 {
        (b + 32) as u8
    } else {
        b
    }
}

pub fn ascii_lower_byte(b: u8) -> (r: u8)
    ensures
        r == ascii_lower(b),
{
    if 65 <= b && b <= 90 {
        b + 32
    } else {
        b
    }
}

/// `p` occurs in `s` at `i`, ASCII letters compared without case.
pub open spec fn ci_occurs_at(s: Seq<u8>, p: Seq<u8>, i: int) -> bool {
    &&& 0 <= i
    &&& i + p.len() <= s.len()
    &&& forall|k: int| 0 <= k < p.len() ==> ascii_lower(#[trigger] s[i + k]) == ascii_lower(p[k])
}

/// `p` occurs somewhere in `s`, ASCII letters compared without case.
pub open spec fn ci_contains(s: Seq<u8>, p: Seq<u8>) -> bool {
    exists|i: int| #[trigger] ci_occurs_at(s, p, i)
}

fn ci_occur_at(s: &[u8], p: &[u8], i: usize) -> (r: bool)
    ensures
        r == ci_occurs_at(s@, p@, i as int),
{
    if i > s.len() || p.len() > s.len() - i {
        return false;
    }
    let mut j: usize = 0;
    while j < p.len()
        invariant
            i <= s.len(),
            p.len() <= s.len() - i,
            j <= p@.len(),
            forall|k: int| 0 <= k < j ==> ascii_lower(#[trigger] s@[i + k]) == ascii_lower(p@[k]),
        decreases p@.len() - j,
    {
        if ascii_lower_byte(s[i + j]) != ascii_lower_byte(p[j]) {
            return false;
        }
        j = j + 1;
    }
    true
}

/// Whether `p` occurs in `s`, ASCII letters compared without case.
pub fn ci_contain(s: &[u8], p: &[u8]) -> (r: bool)
    ensures
        r == ci_contains(s@, p@),
{
    if p.len() > s.len() {
        return false;
    }
    let last = s.len() - p.len();
    let mut i: usize = 0;
    loop
        invariant
            last == s@.len() - p@.len(),
            i <= last,
            forall|k: int| 0 <= k < i ==> !ci_occurs_at(s@, p@, k),
        decreases last - i,
    {
        if ci_occur_at(s, p, i) {
            return true;
        }
        if i == last {
            assert forall|k: int| !ci_occurs_at(s@, p@, k) by {
                if 0 <= k <= i {
                }
            }
            return false;
        }
        i = i + 1;
    }
}

/// A name that marks CAD or tangent noise directories.
pub open spec fn cad_spec(s: Seq<u8>) -> bool {
    ci_contains(s, "cad201".spec_bytes()) || ci_contains(s, "cad202".spec_bytes()) || ci_contains(
        s,
        "autocad_201".spec_bytes(),
    ) || ci_contains(s, "autocad_202".spec_bytes()) || ci_contains(s, "tangent".spec_bytes())
}

/// Whether `s` holds one of the CAD or tangent noise tokens, in any ASCII case.
pub fn is_cad_path(s: &str) -> (r: bool)
    ensures
        r == cad_spec(s.spec_bytes()),
{
    let b = s.as_bytes();
    ci_contain(b, "cad201".as_bytes()) || ci_contain(b, "cad202".as_bytes()) || ci_contain(
        b,
        "autocad_201".as_bytes(),
    ) || ci_contain(b, "autocad_202".as_bytes()) || ci_contain(b, "tangent".as_bytes())
}

/// Whether a lower-case directory name is left out of a volume scan.
pub fn should_skip_dir(name_lower: &str, skip_dirs: &NameSet) -> (r: bool)
    ensures
        r == (names_hold(skip_dirs.view(), name_lower.spec_bytes()) || cad_spec(
            name_lower.spec_bytes(),
        )),
{
    skip_dirs.contains(name_lower) || is_cad_path(name_lower)
}

/// Position of the last `b` in `s`, or -1.
pub open spec fn last_index_of(s: Seq<u8>, b: u8) -> int
    decreases s.len(),
{
    if s.len() == 0 {
        -1
    } else if s.last() == b {
        s.len() - 1
    } else {
        last_index_of(s.drop_last(), b)
    }
}

pub proof fn lemma_last_index_of(s: Seq<u8>, b: u8)
    ensures
        -1 <= last_index_of(s, b) < s.len(),
        last_index_of(s, b) >= 0 ==> s[last_index_of(s, b)] == b,
        forall|k: int| last_index_of(s, b) < k < s.len() ==> s[k] != b,
    decreases s.len(),
{
    if s.len() > 0 && s.last() != b {
        let t = s.drop_last();
        lemma_last_index_of(t, b);
        assert forall|k: int| last_index_of(s, b) < k < s.len() implies s[k] != b by {
            if k < s.len() - 1 {
                assert(t[k] == s[k]);
            }
        }
    }
}

/// The position of the last `b` in `s`, if any.
pub fn rfind_byte(s: &[u8], b: u8) -> (r: Option<usize>)
    ensures
        match r {
            Some(p) => p == last_index_of(s@, b),
            None => last_index_of(s@, b) == -1,
        },
{
    let mut i: usize = s.len();
    assert(s@.subrange(0, i as int) =~= s@);
    while i > 0
        invariant
            i <= s@.len(),
            last_index_of(s@, b) == last_index_of(s@.subrange(0, i as int), b),
        decreases i,
    {
        let ghost t = s@.subrange(0, i as int);
        assert(t.drop_last() =~= s@.subrange(0, i - 1));
        if s[i - 1] == b {
            return Some(i - 1);
        }
        i = i - 1;
    }
    None
}

/// The lower-cased extension (from the last dot on) of a file name.
pub open spec fn dotted_ext_lower(name: Seq<u8>) -> Seq<u8> {
    name.subrange(last_index_of(name, DOT), name.len() as int).map_values(|b: u8| ascii_lower(b))
}

/// A file whose extension (from its last dot, at most ten bytes, ASCII case
/// ignored) is one of `skip_exts`.
pub open spec fn skip_ext_fast_spec(name: Seq<u8>, skip_exts: Seq<&'static str>) -> bool {
    last_index_of(name, DOT) >= 0 && name.len() - last_index_of(name, DOT) <= 10 && names_hold(
        skip_exts,
        dotted_ext_lower(name),
    )
}

/// Whether a file is left out of a volume scan because of its extension.
pub fn should_skip_ext_fast(filename: &str, skip_exts: &NameSet) -> (r: bool)
    ensures
        r == skip_ext_fast_spec(filename.spec_bytes(), skip_exts.view()),
{
    let b = filename.as_bytes();
    proof {
        lemma_last_index_of(b@, DOT);
    }
    match rfind_byte(b, DOT) {
        Some(pos) => {
            if b.len() - pos <= 10 {
                let mut low: Vec<u8> = Vec::new();
                let mut i: usize = pos;
                while i < b.len()
                    invariant
                        pos <= i <= b@.len(),
                        low@ =~= b@.subrange(pos as int, i as int).map_values(
                            |c: u8| ascii_lower(c),
                        ),
                    decreases b@.len() - i,
                {
                    low.push(ascii_lower_byte(b[i]));
                    i = i + 1;
                }
                skip_exts.contains_bytes(low.as_slice())
            } else {
                false
            }
        },
        None => false,
    }
}

/// A path that lies under a recycle bin, in any ASCII case.
pub open spec fn recycle_bin_spec(path: Seq<u8>) -> bool {
    path.len() >= 12 && ci_contains(path, "$recycle.bin".spec_bytes())
}

/// Whether a path lies under a recycle bin.
pub fn is_recycle_bin_path(path: &str) -> (r: bool)
    ensures
        r == recycle_bin_spec(path.spec_bytes()),
{
    let b = path.as_bytes();
    b.len() >= 12 && ci_contain(b, "$recycle.bin".as_bytes())
}

} // verus!
