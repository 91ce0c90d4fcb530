//! Character and byte level helpers shared by the other modules.

use vstd::prelude::*;

verus! {

/// What `str::to_lowercase` returns for a string with these characters.
pub uninterp spec fn lower_of(s: Seq<char>) -> Seq<char>;

/// Relies on `str::to_lowercase`: the result depends on the characters
/// alone, and an empty string stays empty.
#[verifier::external_body]
pub(crate) fn lowercase(s: &str) -> (r: String)
    ensures
        r@ == lower_of(s@),
        s@.len() == 0 ==> r@.len() == 0,
{
    s.to_lowercase()
}

/// Relies on `str::chars`, collected: the characters of `s` in order.
#[verifier::external_body]
pub(crate) fn chars_of(s: &str) -> (r: Vec<char>)
    ensures
        r@ == s@,
{
    s.chars().collect()
}

/// Relies on `String: FromIterator<&char>`: the string made of these characters.
#[verifier::external_body]
pub(crate) fn string_of(v: &[char]) -> (r: String)
    ensures
        r@ == v@,
{
    v.iter().collect()
}

/// Relies on `<[&str]>::concat`: `a` followed by `b`.
#[verifier::external_body]
pub(crate) fn concat2(a: &str, b: &str) -> (r: String)
    ensures
        r@ == a@ + b@,
{
    [a, b].concat()
}

/// `p` occurs in `s` starting at position `i`.
pub open spec fn occurs_at<T>(s: Seq<T>, p: Seq<T>, i: int) -> bool {
    0 <= i && i + p.len() <= s.len() && s.subrange(i, i + p.len()) == p
}

/// `p` occurs somewhere in `s`.
pub open spec fn seq_contains<T>(s: Seq<T>, p: Seq<T>) -> bool {
    exists|i: int| #[trigger] occurs_at(s, p, i)
}

/// `s` starts with `p`.
pub open spec fn seq_starts_with<T>(s: Seq<T>, p: Seq<T>) -> bool {
    occurs_at(s, p, 0)
}

/// Whether `p` occurs in `s` at `i`.
pub fn bytes_occur_at(s: &[u8], p: &[u8], i: usize) -> (r: bool)
    ensures
        r == occurs_at(s@, p@, i as int),
{
    if i > s.len() || p.len() > s.len() - i {
        return false;
    }
    let mut j: usize = 0;
    while j < p.len()
        invariant
            i + p@.len() <= s@.len(),
            i <= s.len(),
            p.len() <= s.len() - i,
            j <= p@.len(),
            forall|k: int| 0 <= k < j ==> s@[i + k] == p@[k],
        decreases p@.len() - j,
    {
        if s[i + j] != p[j] {
            assert(s@.subrange(i as int, i + p@.len())[j as int] != p@[j as int]);
            return false;
        }
        j = j + 1;
    }
    assert(s@.subrange(i as int, i + p@.len()) =~= p@);
    true
}

/// Whether `s` starts with `p`.
pub fn bytes_start_with(s: &[u8], p: &[u8]) -> (r: bool)
    ensures
        r == seq_starts_with(s@, p@),
{
    bytes_occur_at(s, p, 0)
}

/// Whether `p` occurs anywhere in `s`.
pub fn bytes_contain(s: &[u8], p: &[u8]) -> (r: bool)
    ensures
        r == seq_contains(s@, p@),
{
    if p.len() > s.len() {
        assert forall|i: int| !occurs_at(s@, p@, i) by {}
        return false;
    }
    let last = s.len() - p.len();
    let mut i: usize = 0;
    loop
        invariant
            last == s@.len() - p@.len(),
            i <= last,
            forall|k: int| 0 <= k < i ==> !occurs_at(s@, p@, k),
        decreases last - i,
    {
        if bytes_occur_at(s, p, i) {
            return true;
        }
        if i == last {
            assert forall|k: int| !occurs_at(s@, p@, k) by {
                if 0 <= k <= i {
                }
            }
            return false;
        }
        i = i + 1;
    }
}

/// Whether the characters `p` occur in `s` at `i`.
pub fn chars_occur_at(s: &[char], p: &[char], i: usize) -> (r: bool)
    ensures
        r == occurs_at(s@, p@, i as int),
{
    if i > s.len() || p.len() > s.len() - i {
        return false;
    }
    let mut j: usize = 0;
    while j < p.len()
        invariant
            i + p@.len() <= s@.len(),
            i <= s.len(),
            p.len() <= s.len() - i,
            j <= p@.len(),
            forall|k: int| 0 <= k < j ==> s@[i + k] == p@[k],
        decreases p@.len() - j,
    {
        if s[i + j] != p[j] {
            assert(s@.subrange(i as int, i + p@.len())[j as int] != p@[j as int]);
            return false;
        }
        j = j + 1;
    }
    assert(s@.subrange(i as int, i + p@.len()) =~= p@);
    true
}

/// Whether two strings hold the same characters.
pub fn str_equal(a: &str, b: &str) -> (r: bool)
    ensures
        r == (a@ == b@),
{
    let ab = a.as_bytes();
    let bb = b.as_bytes();
    let same = ab.len() == bb.len() && bytes_occur_at(ab, bb, 0);
    proof {
        if ab@.len() == bb@.len() {
            assert(ab@.subrange(0, bb@.len() as int) =~= ab@);
        }
        vstd::utf8::encode_utf8_decode_utf8(a@);
        vstd::utf8::encode_utf8_decode_utf8(b@);
    }
    same
}

/// Whether two character sequences are equal.
pub fn chars_equal(a: &[char], b: &[char]) -> (r: bool)
    ensures
        r == (a@ == b@),
{
    if a.len() != b.len() {
        return false;
    }
    let r = chars_occur_at(a, b, 0);
    assert(a@.subrange(0, b@.len() as int) =~= a@);
    r
}

/// Position of the last `x` in `s`, or -1.
pub open spec fn last_pos<T>(s: Seq<T>, x: T) -> int
    decreases s.len(),
{
    if s.len() == 0 {
        -1
    } else if s.last() == x {
        s.len() - 1
    } else {
        last_pos(s.drop_last(), x)
    }
}

pub proof fn lemma_last_pos<T>(s: Seq<T>, x: T)
    ensures
        -1 <= last_pos(s, x) < s.len(),
        last_pos(s, x) >= 0 ==> s[last_pos(s, x)] == x,
        forall|k: int| last_pos(s, x) < k < s.len() ==> s[k] != x,
    decreases s.len(),
{
    if s.len() > 0 && s.last() != x {
        let t = s.drop_last();
        lemma_last_pos(t, x);
        assert forall|k: int| last_pos(s, x) < k < s.len() implies s[k] != x by {
            if k < s.len() - 1 {
                assert(t[k] == s[k]);
            }
        }
    }
}

/// The position of the last `x` in `s`, if any.
pub fn rfind_char(s: &[char], x: char) -> (r: Option<usize>)
    ensures
        match r {
            Some(p) => p == last_pos(s@, x),
            None => last_pos(s@, x) == -1,
        },
{
    let mut i: usize = s.len();
    assert(s@.subrange(0, i as int) =~= s@);
    while i > 0
        invariant
            i <= s@.len(),
            last_pos(s@, x) == last_pos(s@.subrange(0, i as int), x),
        decreases i,
    {
        let ghost t = s@.subrange(0, i as int);
        assert(t.drop_last() =~= s@.subrange(0, i - 1));
        if s[i - 1] == x {
            return Some(i - 1);
        }
        i = i - 1;
    }
    None
}

/// A file name holds a dot.
pub open spec fn has_dot(name: Seq<char>) -> bool {
    last_pos(name, '.') >= 0
}

/// The extension of a file name: what follows its last dot, or nothing
/// when it holds no dot. A name ending in a dot has an empty extension and
/// a dotfile such as `.hidden` has the extension `hidden`.
pub open spec fn extension_of(name: Seq<char>) -> Seq<char> {
    if has_dot(name) {
        name.subrange(last_pos(name, '.') + 1, name.len() as int)
    } else {
        Seq::empty()
    }
}

/// Whether a file name holds a dot.
pub fn has_dot_exec(name: &str) -> (r: bool)
    ensures
        r == has_dot(name@),
{
    let cs = chars_of(name);
    rfind_char(cs.as_slice(), '.').is_some()
}

/// The extension of a file name, as `extension_of` states it.
pub fn extension(name: &str) -> (r: String)
    ensures
        r@ == extension_of(name@),
{
    let cs = chars_of(name);
    proof {
        lemma_last_pos(cs@, '.');
    }
    match rfind_char(cs.as_slice(), '.') {
        Some(p) => {
            assert(p < cs.len());
            let mut tail: Vec<char> = Vec::new();
            let mut i: usize = p + 1;
            while i < cs.len()
                invariant
                    p + 1 <= i <= cs@.len(),
                    tail@ =~= cs@.subrange(p + 1, i as int),
                decreases cs@.len() - i,
            {
                tail.push(cs[i]);
                i = i + 1;
            }
            string_of(tail.as_slice())
        },
        None => {
            let empty: Vec<char> = Vec::new();
            assert(empty@ =~= extension_of(name@));
            string_of(empty.as_slice())
        },
    }
}

} // verus!
