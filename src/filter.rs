//! Exclusion rules on lower-cased directory names, paths and extensions.

use vstd::prelude::*;
use vstd::string::StringSliceAdditionalSpecFns;
use vstd::utf8::encode_utf8;
use crate::rules::{cad_spec, is_cad_path};
use crate::text::{bytes_contain, bytes_occur_at, bytes_start_with, occurs_at, seq_contains, seq_starts_with};

verus! {

/// The backslash separator, as a byte.
pub const BACKSLASH: u8 = 92;

/// Directory names (lower case) whose whole subtree is left out.
pub open spec fn skip_dir_names() -> Seq<&'static str> {
    seq![
        "windows", "program files", "program files (x86)", "programdata",
        "$recycle.bin", "system volume information", "appdata", "boot",
        "node_modules", ".git", "__pycache__", "site-packages", "sys",
        "recovery", "config.msi", "$windows.~bt", "$windows.~ws",
        "cache", "caches", "temp", "tmp", "logs", "log",
        ".vscode", ".idea", ".vs", "obj", "bin", "debug", "release",
        "packages", ".nuget", "bower_components",
    ]
}

/// Extensions (lower case, with the dot) of files that are left out.
pub open spec fn skip_ext_names() -> Seq<&'static str> {
    seq![
        ".lsp", ".fas", ".lnk", ".html", ".htm", ".xml", ".ini", ".lsp_bak",
        ".cuix", ".arx", ".crx", ".fx", ".dbx", ".kid", ".ico", ".rz",
        ".dll", ".sys", ".tmp", ".log", ".dat", ".db", ".pdb", ".obj",
        ".pyc", ".class", ".cache", ".lock",
    ]
}

pub fn skip_dir_list() -> (r: Vec<&'static str>)
    ensures
        r@ == skip_dir_names(),
{
    let r = vec![
        "windows", "program files", "program files (x86)", "programdata",
        "$recycle.bin", "system volume information", "appdata", "boot",
        "node_modules", ".git", "__pycache__", "site-packages", "sys",
        "recovery", "config.msi", "$windows.~bt", "$windows.~ws",
        "cache", "caches", "temp", "tmp", "logs", "log",
        ".vscode", ".idea", ".vs", "obj", "bin", "debug", "release",
        "packages", ".nuget", "bower_components",
    ];
    assert(r@ =~= skip_dir_names());
    r
}

pub fn skip_ext_list() -> (r: Vec<&'static str>)
    ensures
        r@ == skip_ext_names(),
{
    let r = vec![
        ".lsp", ".fas", ".lnk", ".html", ".htm", ".xml", ".ini", ".lsp_bak",
        ".cuix", ".arx", ".crx", ".fx", ".dbx", ".kid", ".ico", ".rz",
        ".dll", ".sys", ".tmp", ".log", ".dat", ".db", ".pdb", ".obj",
        ".pyc", ".class", ".cache", ".lock",
    ];
    assert(r@ =~= skip_ext_names());
    r
}

/// Some name of `names` has exactly the bytes `b`.
pub open spec fn names_hold(names: Seq<&'static str>, b: Seq<u8>) -> bool {
    exists|i: int| 0 <= i < names.len() && (#[trigger] names[i]).spec_bytes() == b
}

/// Whether the bytes of `s` from `a` to `b` spell one of `names`.
pub fn names_hold_range(names: &Vec<&'static str>, s: &[u8], a: usize, b: usize) -> (r: bool)
    requires
        a <= b <= s@.len(),
    ensures
        r == names_hold(names@, s@.subrange(a as int, b as int)),
{
    let mut i: usize = 0;
    while i < names.len()
        invariant
            a <= b <= s@.len(),
            i <= names@.len(),
            forall|k: int|
                0 <= k < i ==> (#[trigger] names@[k]).spec_bytes() != s@.subrange(
                    a as int,
                    b as int,
                ),
        decreases names@.len() - i,
    {
        let nb = names[i].as_bytes();
        if nb.len() == b - a && bytes_occur_at(s, nb, a) {
            return true;
        }
        proof {
            if nb@.len() == b - a {
                assert(!occurs_at(s@, nb@, a as int));
            }
            assert(nb@ != s@.subrange(a as int, b as int));
        }
        i = i + 1;
    }
    false
}

/// `s[a..b]` is one of the backslash-separated parts of `s`.
pub open spec fn is_part(s: Seq<u8>, a: int, b: int) -> bool {
    &&& 0 <= a <= b <= s.len()
    &&& (a == 0 || s[a - 1] == BACKSLASH)
    &&& (b == s.len() || s[b] == BACKSLASH)
    &&& forall|k: int| a <= k < b ==> s[k] != BACKSLASH
}

/// Some backslash-separated part of `s` is one of `names`.
pub open spec fn has_named_part(s: Seq<u8>, names: Seq<&'static str>) -> bool {
    exists|a: int, b: int| #[trigger] is_part(s, a, b) && names_hold(names, s.subrange(a, b))
}

/// Whether some backslash-separated part of `s` is one of `names`.
pub fn part_in_names(s: &[u8], names: &Vec<&'static str>) -> (r: bool)
    ensures
        r == has_named_part(s@, names@),
{
    let mut start: usize = 0;
    let mut i: usize = 0;
    while i <= s.len()
        invariant
            start <= i <= s@.len(),
            start == 0 || s@[start - 1] == BACKSLASH,
            forall|k: int| start <= k < i && k < s@.len() ==> s@[k] != BACKSLASH,
            start <= s@.len(),
            forall|a: int, b: int|
                is_part(s@, a, b) && a < start ==> !names_hold(names@, #[trigger] s@.subrange(a, b)),
        decreases s@.len() + 1 - i,
    {
        if i == s.len() || s[i] == BACKSLASH {
            let found = names_hold_range(names, s, start, i);
            if found {
                assert(is_part(s@, start as int, i as int));
                return true;
            }
            assert forall|a: int, b: int|
                is_part(s@, a, b) && a < i + 1 implies !names_hold(
                    names@,
                    #[trigger] s@.subrange(a, b),
                ) by {
                if a >= start {
                    if a > start {
                        assert(s@[a - 1] != BACKSLASH);
                    }
                    if b < i {
                        assert(s@[b] != BACKSLASH);
                    }
                    if b > i {
                        assert(s@[i as int] != BACKSLASH);
                    }
                }
            }
            if i == s.len() {
                assert forall|a: int, b: int|
                    is_part(s@, a, b) implies !names_hold(names@, #[trigger] s@.subrange(a, b)) by {
                }
                return false;
            }
            start = i + 1;
        }
        i = i + 1;
    }
    false
}

/// A directory name (lower case) whose subtree is left out of a scan.
pub open spec fn skip_dir_spec(name: Seq<u8>) -> bool {
    names_hold(skip_dir_names(), name) || cad_spec(name)
}

/// Whether the lower-case directory name is left out of a scan.
pub fn should_skip_dir(name_lower: &str) -> (r: bool)
    ensures
        r == skip_dir_spec(name_lower.spec_bytes()),
{
    let b = name_lower.as_bytes();
    let dirs = skip_dir_list();
    let in_set = names_hold_range(&dirs, b, 0, b.len());
    assert(b@.subrange(0, b@.len() as int) =~= b@);
    in_set || is_cad_path(name_lower)
}

/// Some allowed prefix starts the path.
pub open spec fn allowed_prefix(path: Seq<u8>, allowed: Seq<String>) -> bool {
    exists|i: int| 0 <= i < allowed.len() && seq_starts_with(path, encode_utf8((#[trigger] allowed[i])@))
}

/// Whether some entry of `allowed` starts the path.
fn starts_with_any(path: &[u8], allowed: &[String]) -> (r: bool)
    ensures
        r == allowed_prefix(path@, allowed@),
{
    let mut i: usize = 0;
    while i < allowed.len()
        invariant
            i <= allowed@.len(),
            forall|k: int|
                0 <= k < i ==> !seq_starts_with(path@, encode_utf8((#[trigger] allowed@[k])@)),
        decreases allowed@.len() - i,
    {
        if bytes_start_with(path, allowed[i].as_str().as_bytes()) {
            return true;
        }
        i = i + 1;
    }
    false
}

/// A lower-case path that a scan leaves out, unless an allowed prefix starts it.
pub open spec fn skip_path_spec(path: Seq<u8>) -> bool {
    has_named_part(path, skip_dir_names()) || seq_contains(path, "site-packages".spec_bytes())
        || cad_spec(path)
}

/// Whether the lower-case path is left out of a scan. A path that starts
/// with one of `allowed_paths` is always kept.
pub fn should_skip_path(path_lower: &str, allowed_paths: Option<&[String]>) -> (r: bool)
    ensures
        r == (!(allowed_paths.is_some() && allowed_prefix(
            path_lower.spec_bytes(),
            allowed_paths.unwrap()@,
        )) && skip_path_spec(path_lower.spec_bytes())),
{
    let b = path_lower.as_bytes();
    match allowed_paths {
        Some(allowed) => {
            if starts_with_any(b, allowed) {
                return false;
            }
        },
        None => {},
    }
    let dirs = skip_dir_list();
    part_in_names(b, &dirs) || bytes_contain(b, "site-packages".as_bytes()) || is_cad_path(
        path_lower,
    )
}

/// Whether the lower-case extension (with its dot) marks a file that is left out.
pub fn should_skip_ext(ext_lower: &str) -> (r: bool)
    ensures
        r == names_hold(skip_ext_names(), ext_lower.spec_bytes()),
{
    let b = ext_lower.as_bytes();
    let exts = skip_ext_list();
    assert(b@.subrange(0, b@.len() as int) =~= b@);
    names_hold_range(&exts, b, 0, b.len())
}

/// Whether the lower-case path starts with, or is, one of `allowed_paths`.
pub fn is_in_allowed_paths(path_lower: &str, allowed_paths: &[String]) -> (r: bool)
    ensures
        r == allowed_prefix(path_lower.spec_bytes(), allowed_paths@),
{
    starts_with_any(path_lower.as_bytes(), allowed_paths)
}

} // verus!
